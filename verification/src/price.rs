//! Rational prices.
//!
//! A price is `numerator / denominator`, both 256-bit, read as the amount of
//! quote token per one unit of base token. Comparison is by cross
//! multiplication with saturating products as a last-resort tiebreak when an
//! intermediate exceeds 256 bits.

use vstd::prelude::*;
use crate::amount::{u256_bound, Amount, U256};
use core::cmp::Ordering;

verus! {

/// The mathematical content of a price: numerator and denominator.
#[verifier::ext_equal]
pub struct PriceV {
    pub num: nat,
    pub den: nat,
}

/// A product clamped at 2^256 - 1.
pub open spec fn sat256(x: nat) -> nat {
    if x < u256_bound() {
        x
    } else {
        (u256_bound() - 1) as nat
    }
}

/// The saturated cross-multiplication comparison of two prices: the sign of
/// `sat(a.num * b.den) - sat(b.num * a.den)`.
pub open spec fn price_cmp(a: PriceV, b: PriceV) -> Ordering {
    let l = sat256(a.num * b.den);
    let r = sat256(b.num * a.den);
    if l < r {
        Ordering::Less
    } else if l == r {
        Ordering::Equal
    } else {
        Ordering::Greater
    }
}

/// The exact cross-multiplication order, without saturation.
pub open spec fn price_lt(a: PriceV, b: PriceV) -> bool {
    a.num * b.den < b.num * a.den
}

/// A saturated `Less` implies the exact order.
pub proof fn lemma_cmp_less_implies_lt(a: PriceV, b: PriceV)
    requires
        price_cmp(a, b) == Ordering::Less,
    ensures
        price_lt(a, b),
{
}

/// A saturated `Greater` implies the exact reverse order.
pub proof fn lemma_cmp_greater_implies_gt(a: PriceV, b: PriceV)
    requires
        price_cmp(a, b) == Ordering::Greater,
    ensures
        price_lt(b, a),
{
}

/// The exact order is transitive.
pub proof fn lemma_price_lt_trans(a: PriceV, b: PriceV, c: PriceV)
    requires
        price_lt(a, b),
        price_lt(b, c),
    ensures
        price_lt(a, c),
{
    assert(a.num * c.den < c.num * a.den) by (nonlinear_arith)
        requires
            a.num * b.den < b.num * a.den,
            b.num * c.den < c.num * b.den,
    ;
}

/// The quote amount bought by `base` at price `p`:
/// `(base * num) / den`, `None` when the product does not fit in 256 bits or
/// the denominator is zero.
pub open spec fn spec_quote_amount(p: PriceV, base: nat) -> Option<nat> {
    if base * p.num >= u256_bound() {
        None
    } else if p.den == 0 {
        None
    } else {
        Some((base * p.num) / p.den)
    }
}

/// The base amount bought by `quote` at price `p`:
/// `(quote * den) / num`, `None` when the product does not fit in 256 bits or
/// the numerator is zero.
pub open spec fn spec_base_amount(p: PriceV, quote: nat) -> Option<nat> {
    if quote * p.den >= u256_bound() {
        None
    } else if p.num == 0 {
        None
    } else {
        Some((quote * p.den) / p.num)
    }
}

/// Price represented as a rational number (numerator/denominator).
/// Expressed as: how much quote token per 1 unit of base token.
#[derive(Debug, Clone, Copy, PartialEq, Eq, Hash, Structural)]
pub struct Price {
    /// Numerator of the price ratio.
    pub numerator: U256,
    /// Denominator of the price ratio (must be non-zero).
    pub denominator: U256,
}

impl View for Price {
    type V = PriceV;

    open spec fn view(&self) -> PriceV {
        PriceV { num: self.numerator@, den: self.denominator@ }
    }
}

impl Price {
    /// Create a new price from a non-zero denominator.
    pub fn new(numerator: U256, denominator: U256) -> (r: Self)
        requires
            denominator@ != 0,
        ensures
            r@ == (PriceV { num: numerator@, den: denominator@ }),
    {
        Self { numerator, denominator }
    }

    /// Create a price from `u128` values for convenience.
    pub fn from_u128(numerator: u128, denominator: u128) -> (r: Self)
        requires
            denominator != 0,
        ensures
            r@ == (PriceV { num: numerator as nat, den: denominator as nat }),
    {
        Self::new(U256::from_u128(numerator), U256::from_u128(denominator))
    }

    /// Create a price from a simple integer ratio (price = value / 1).
    pub fn from_integer(value: U256) -> (r: Self)
        ensures
            r@ == (PriceV { num: value@, den: 1 }),
    {
        Self { numerator: value, denominator: U256::from_u64(1) }
    }

    /// Calculate the amount of quote token for a given base amount:
    /// `(base_amount * numerator) / denominator`.
    pub fn quote_amount(&self, base_amount: Amount) -> (r: Option<Amount>)
        ensures
            match r {
                Some(v) => spec_quote_amount(self@, base_amount@) == Some(v@),
                None => spec_quote_amount(self@, base_amount@) is None,
            },
    {
        match base_amount.checked_mul(&self.numerator) {
            None => None,
            Some(product) => match product.checked_div(&self.denominator) {
                None => None,
                Some(q) => Some(q),
            },
        }
    }

    /// Calculate the amount of base token for a given quote amount:
    /// `(quote_amount * denominator) / numerator`.
    pub fn base_amount(&self, quote_amount: Amount) -> (r: Option<Amount>)
        ensures
            match r {
                Some(v) => spec_base_amount(self@, quote_amount@) == Some(v@),
                None => spec_base_amount(self@, quote_amount@) is None,
            },
    {
        match quote_amount.checked_mul(&self.denominator) {
            None => None,
            Some(product) => match product.checked_div(&self.numerator) {
                None => None,
                Some(q) => Some(q),
            },
        }
    }

    /// Compare two prices by their ratio values, with saturating
    /// cross products.
    pub fn cmp_value(&self, other: &Self) -> (r: Ordering)
        ensures
            r == price_cmp(self@, other@),
    {
        let lhs = self.numerator.saturating_mul(&other.denominator);
        let rhs = other.numerator.saturating_mul(&self.denominator);
        if lhs.lt(&rhs) {
            Ordering::Less
        } else if lhs.equals(&rhs) {
            Ordering::Equal
        } else {
            Ordering::Greater
        }
    }

    /// Invert the price (swap numerator and denominator).
    pub fn invert(&self) -> (r: Self)
        ensures
            r@ == (PriceV { num: self@.den, den: self@.num }),
    {
        Self { numerator: self.denominator, denominator: self.numerator }
    }
}

impl PartialOrd for Price {
    fn partial_cmp(&self, other: &Self) -> (r: Option<Ordering>) {
        Some(self.cmp_value(other))
    }
}

impl vstd::std_specs::cmp::PartialOrdSpecImpl for Price {
    open spec fn obeys_partial_cmp_spec() -> bool {
        true
    }

    open spec fn partial_cmp_spec(&self, other: &Self) -> Option<Ordering> {
        Some(price_cmp(self@, other@))
    }
}

} // verus!
