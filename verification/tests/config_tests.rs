//! Tests for the fee configuration.

use dex::DexConfig;

#[test]
fn config_test_fee_calculation() {
    let config = DexConfig::default(); // 30 bps = 0.30%

    // 10000 * 30 / 10000 = 30
    assert_eq!(config.calculate_fee(10000), 30);

    // Amount after fee: 10000 - 30 = 9970
    assert_eq!(config.amount_after_fee(10000), 9970);
}

#[test]
fn test_custom_fee() {
    let config = DexConfig::default().with_fee_bps(100); // 1%

    assert_eq!(config.calculate_fee(10000), 100);
    assert_eq!(config.amount_after_fee(10000), 9900);
}
