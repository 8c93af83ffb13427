//! Tests for the per-pair orderbook.

use dex::{Address, DexConfig, OrderBook, OrderSide, OrderStatus, Pair, Price, U256};

fn setup() -> (OrderBook, DexConfig) {
    let eth = Address::zero();
    let usdc = Address::repeat_byte(0x01);
    let pair = Pair::new(eth, usdc);
    let book = OrderBook::new(pair);
    let config = DexConfig::default();
    (book, config)
}

fn test_trader(n: u8) -> Address {
    Address::repeat_byte(n)
}

#[test]
fn test_place_limit_order() {
    let (mut book, config) = setup();
    let trader = test_trader(1);

    let (order_id, result) = book
        .place_limit_order(
            trader,
            OrderSide::Buy,
            Price::from_u128(100, 1),
            U256::from_u64(1000),
            &config,
        )
        .unwrap();

    assert_eq!(result.fills.len(), 0);
    assert_eq!(result.remaining_amount, U256::from_u64(1000));
    assert!(!result.fully_filled);

    let order = book.get_order(order_id).unwrap();
    assert_eq!(order.remaining_amount, U256::from_u64(1000));
}

#[test]
fn orderbook_test_order_matching() {
    let (mut book, config) = setup();
    let buyer = test_trader(1);
    let seller = test_trader(2);

    // Place a sell order first
    book.place_limit_order(
        seller,
        OrderSide::Sell,
        Price::from_u128(100, 1),
        U256::from_u64(1000),
        &config,
    )
    .unwrap();

    // Place a buy order that crosses the spread
    let (_, result) = book
        .place_limit_order(
            buyer,
            OrderSide::Buy,
            Price::from_u128(100, 1),
            U256::from_u64(500),
            &config,
        )
        .unwrap();

    assert_eq!(result.fills.len(), 1);
    assert_eq!(result.fills[0].base_amount, U256::from_u64(500));
    assert!(result.fully_filled);
}

#[test]
fn test_market_order() {
    let (mut book, config) = setup();
    let maker = test_trader(1);
    let taker = test_trader(2);

    // Add liquidity
    book.place_limit_order(
        maker,
        OrderSide::Sell,
        Price::from_u128(100, 1),
        U256::from_u64(1000),
        &config,
    )
    .unwrap();

    // Market buy
    let result = book.place_market_order(taker, OrderSide::Buy, U256::from_u64(500), &config)
        .unwrap();

    assert_eq!(result.fills.len(), 1);
    assert_eq!(result.fills[0].base_amount, U256::from_u64(500));
}

#[test]
fn orderbook_test_cancel_order() {
    let (mut book, config) = setup();
    let trader = test_trader(1);

    let (order_id, _) = book
        .place_limit_order(
            trader,
            OrderSide::Buy,
            Price::from_u128(100, 1),
            U256::from_u64(1000),
            &config,
        )
        .unwrap();

    let cancelled = book.cancel_order(order_id).unwrap();
    assert_eq!(cancelled.status, OrderStatus::Cancelled);
    assert!(book.get_order(order_id).is_none());
}

#[test]
fn test_price_time_priority() {
    let (mut book, config) = setup();
    let maker1 = test_trader(1);
    let maker2 = test_trader(2);
    let taker = test_trader(3);

    // Place two sell orders at same price - first one should match first
    let (order1, _) = book
        .place_limit_order(
            maker1,
            OrderSide::Sell,
            Price::from_u128(100, 1),
            U256::from_u64(500),
            &config,
        )
        .unwrap();

    let (order2, _) = book
        .place_limit_order(
            maker2,
            OrderSide::Sell,
            Price::from_u128(100, 1),
            U256::from_u64(500),
            &config,
        )
        .unwrap();

    // Buy 500 - should match first order only
    let result = book.place_market_order(taker, OrderSide::Buy, U256::from_u64(500), &config)
        .unwrap();

    assert_eq!(result.fills.len(), 1);
    assert_eq!(result.fills[0].maker_order_id, order1);

    // First order should be filled, second should remain
    assert!(book.get_order(order1).is_none()); // Removed when filled
    assert!(book.get_order(order2).is_some());
}
