//! Tests for the pool manager's pair and order management.

use dex::{Address, OrderSide, PoolError, PoolManager, Price, U256};

fn setup_tokens() -> (Address, Address, Address) {
    let eth = Address::zero();
    let usdc = Address::repeat_byte(0x01);
    let wbtc = Address::repeat_byte(0x02);
    (eth, usdc, wbtc)
}

fn test_trader(n: u8) -> Address {
    Address::repeat_byte(n + 0x10)
}

#[test]
fn test_create_pair() {
    let mut pm = PoolManager::new();
    let (eth, usdc, _) = setup_tokens();

    let pair = pm.create_pair(eth, usdc).unwrap();
    assert_eq!(pair.base, eth);
    assert_eq!(pair.quote, usdc);

    // Can't create duplicate
    assert!(matches!(pm.create_pair(eth, usdc), Err(PoolError::PairAlreadyExists)));

    // Can't create with same token
    assert!(matches!(pm.create_pair(eth, eth), Err(PoolError::InvalidPair)));
}

#[test]
fn test_place_orders() {
    let mut pm = PoolManager::new();
    let (eth, usdc, _) = setup_tokens();
    let trader = test_trader(1);

    pm.create_pair(eth, usdc).unwrap();

    // Place a limit order
    let (_order_id, result) = pm
        .place_limit_order(
            eth,
            usdc,
            trader,
            OrderSide::Sell,
            Price::from_u128(2000, 1),
            U256::from_u128(1_000_000_000_000_000_000u128), // 1 ETH
        )
        .unwrap();

    assert!(result.fills.is_empty());
}

#[test]
fn test_direct_quote() {
    let mut pm = PoolManager::new();
    let (eth, usdc, _) = setup_tokens();
    let maker = test_trader(1);

    pm.create_pair(eth, usdc).unwrap();

    // Add liquidity: sell 10 ETH at 2000 USDC each
    pm.place_limit_order(
        eth,
        usdc,
        maker,
        OrderSide::Sell,
        Price::from_u128(2000, 1),
        U256::from_u128(10_000_000_000_000_000_000u128), // 10 ETH
    )
    .unwrap();

    // Get quote for buying ETH with USDC
    let quote = pm.get_quote(usdc, eth, U256::from_u128(2000_000_000u128)).unwrap();

    assert_eq!(quote.token_in, usdc);
    assert_eq!(quote.token_out, eth);
    assert_eq!(quote.route.hops.len(), 1);
}
