//! DEX configuration parameters.

use vstd::prelude::*;

verus! {

/// Configuration for the DEX.
#[derive(Debug, Clone, Copy)]
pub struct DexConfig {
    /// Fee charged per trade in basis points (1 bp = 0.01%).
    /// For example, 30 = 0.30% fee.
    pub fee_bps: u32,
    /// Maximum number of hops allowed when routing through multiple pairs.
    pub max_routing_hops: usize,
    /// Minimum order size in the smallest token unit.
    /// Orders below this size will be rejected.
    pub min_order_size: u128,
    /// Whether to allow self-trading (same address on both sides).
    pub allow_self_trade: bool,
}

/// The fee on `amount`, in basis points of `fee_bps`: the product saturates
/// at `u128::MAX` before the division by 10000.
pub open spec fn spec_fee(fee_bps: u32, amount: u128) -> u128 {
    if amount * fee_bps > u128::MAX {
        (u128::MAX / 10000) as u128
    } else {
        ((amount * fee_bps) / 10000) as u128
    }
}

impl DexConfig {
    /// Create a new configuration with custom fee.
    pub fn with_fee_bps(self, fee_bps: u32) -> (r: Self)
        ensures
            r == (Self { fee_bps, ..self }),
    {
        Self { fee_bps, ..self }
    }

    /// Create a new configuration with custom max routing hops.
    pub fn with_max_routing_hops(self, max_hops: usize) -> (r: Self)
        ensures
            r == (Self { max_routing_hops: max_hops, ..self }),
    {
        Self { max_routing_hops: max_hops, ..self }
    }

    /// Create a new configuration with custom minimum order size.
    pub fn with_min_order_size(self, min_size: u128) -> (r: Self)
        ensures
            r == (Self { min_order_size: min_size, ..self }),
    {
        Self { min_order_size: min_size, ..self }
    }

    /// Create a new configuration allowing self-trading.
    pub fn with_self_trade(self, allow: bool) -> (r: Self)
        ensures
            r == (Self { allow_self_trade: allow, ..self }),
    {
        Self { allow_self_trade: allow, ..self }
    }

    /// Calculate the fee amount for a given trade amount.
    /// Returns the fee amount (to be subtracted from the output).
    pub fn calculate_fee(&self, amount: u128) -> (r: u128)
        ensures
            r == spec_fee(self.fee_bps, amount),
    {
        let product = match amount.checked_mul(self.fee_bps as u128) {
            Some(p) => p,
            None => u128::MAX,
        };
        product / 10000
    }

    /// Calculate the amount after fee deduction; the subtraction saturates
    /// at zero when the fee exceeds the amount.
    pub fn amount_after_fee(&self, amount: u128) -> (r: u128)
        ensures
            r == if spec_fee(self.fee_bps, amount) <= amount {
                (amount - spec_fee(self.fee_bps, amount)) as u128
            } else {
                0u128
            },
    {
        amount.saturating_sub(self.calculate_fee(amount))
    }
}

impl Default for DexConfig {
    /// The default configuration: 30 bps fee, at most 3 routing hops,
    /// minimum order size 1, self-trading disallowed.
    fn default() -> (r: Self)
        ensures
            r.fee_bps == 30,
            r.max_routing_hops == 3,
            r.min_order_size == 1,
            !r.allow_self_trade,
    {
        Self { fee_bps: 30, max_routing_hops: 3, min_order_size: 1, allow_self_trade: false }
    }
}

} // verus!
