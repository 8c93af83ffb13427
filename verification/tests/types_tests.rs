//! Tests for token and price primitives.

use dex::{Address, Price, U256};

#[test]
fn test_token_id() {
    let eth = Address::zero();
    assert!(eth.is_zero());

    let usdc = Address::repeat_byte(0x01);
    assert!(!usdc.is_zero());
}

#[test]
fn test_price_calculations() {
    // Price of 2 (2 quote per 1 base)
    let price = Price::from_u128(2, 1);
    assert_eq!(price.quote_amount(U256::from_u64(100)), Some(U256::from_u64(200)));
    assert_eq!(price.base_amount(U256::from_u64(200)), Some(U256::from_u64(100)));

    // Price of 0.5 (1 quote per 2 base)
    let price = Price::from_u128(1, 2);
    assert_eq!(price.quote_amount(U256::from_u64(100)), Some(U256::from_u64(50)));
    assert_eq!(price.base_amount(U256::from_u64(50)), Some(U256::from_u64(100)));
}

#[test]
fn test_price_ordering() {
    let p1 = Price::from_u128(1, 2); // 0.5
    let p2 = Price::from_u128(2, 3); // 0.666...
    let p3 = Price::from_u128(3, 4); // 0.75

    assert!(p1 < p2);
    assert!(p2 < p3);
    assert!(p1 < p3);
}

#[test]
fn test_price_invert() {
    let price = Price::from_u128(3, 4); // 0.75
    let inverted = price.invert();
    assert_eq!(inverted.numerator, U256::from_u64(4));
    assert_eq!(inverted.denominator, U256::from_u64(3));
}
