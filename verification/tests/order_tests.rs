//! Tests for order creation and state transitions.

use dex::{Address, Order, OrderId, OrderSide, OrderStatus, Price, U256};

fn test_address() -> Address {
    Address::repeat_byte(0x01)
}

#[test]
fn test_order_creation() {
    let order = Order::new_limit(
        OrderId(1),
        test_address(),
        OrderSide::Buy,
        Price::from_u128(100, 1),
        U256::from_u64(1000),
    );

    assert_eq!(order.status, OrderStatus::Open);
    assert_eq!(order.remaining_amount, U256::from_u64(1000));
    assert!(order.is_active());
}

#[test]
fn test_order_fill() {
    let mut order = Order::new_limit(
        OrderId(1),
        test_address(),
        OrderSide::Buy,
        Price::from_u128(100, 1),
        U256::from_u64(1000),
    );

    order.fill(U256::from_u64(400));
    assert_eq!(order.status, OrderStatus::PartiallyFilled);
    assert_eq!(order.remaining_amount, U256::from_u64(600));
    assert_eq!(order.filled_amount(), U256::from_u64(400));

    order.fill(U256::from_u64(600));
    assert_eq!(order.status, OrderStatus::Filled);
    assert_eq!(order.remaining_amount, U256::zero());
    assert!(!order.is_active());
}

#[test]
fn order_test_order_matching() {
    let buy_order = Order::new_limit(
        OrderId(1),
        test_address(),
        OrderSide::Buy,
        Price::from_u128(100, 1),
        U256::from_u64(1000),
    );

    let sell_order_good = Order::new_limit(
        OrderId(2),
        test_address(),
        OrderSide::Sell,
        Price::from_u128(95, 1),
        U256::from_u64(1000),
    );

    let sell_order_bad = Order::new_limit(
        OrderId(3),
        test_address(),
        OrderSide::Sell,
        Price::from_u128(105, 1),
        U256::from_u64(1000),
    );

    assert!(buy_order.can_match(&sell_order_good)); // 100 >= 95
    assert!(!buy_order.can_match(&sell_order_bad)); // 100 < 105
}
