//! Tests for trading pairs and their identifiers.

use dex::{Address, Pair, PairId};

#[test]
fn test_pair_id_deterministic() {
    let eth = Address::zero();
    let usdc = Address::repeat_byte(0x01);

    let pair1 = Pair::new(eth, usdc);
    let pair2 = Pair::new(usdc, eth);

    // Same underlying pair ID regardless of order
    assert_eq!(PairId::from_tokens(eth, usdc), PairId::from_tokens(usdc, eth));

    // But the Pair structs are different (direction matters)
    assert_ne!(pair1, pair2);
    assert_eq!(pair1.inverse(), pair2);
}

#[test]
fn test_pair_contains() {
    let eth = Address::zero();
    let usdc = Address::repeat_byte(0x01);
    let wbtc = Address::repeat_byte(0x02);

    let pair = Pair::new(eth, usdc);

    assert!(pair.contains(eth));
    assert!(pair.contains(usdc));
    assert!(!pair.contains(wbtc));
}

#[test]
fn test_other_token() {
    let eth = Address::zero();
    let usdc = Address::repeat_byte(0x01);
    let wbtc = Address::repeat_byte(0x02);

    let pair = Pair::new(eth, usdc);

    assert_eq!(pair.other_token(eth), Some(usdc));
    assert_eq!(pair.other_token(usdc), Some(eth));
    assert_eq!(pair.other_token(wbtc), None);
}
