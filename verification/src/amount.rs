//! 256-bit non-negative integer amounts.
//!
//! `U256` stores four 64-bit limbs, least significant first, and is viewed
//! in specifications as the natural number they encode. Comparison and
//! conversion are verified against that view; the 256-bit multiplication,
//! division and saturating arithmetic are delegated to `alloy_primitives::U256`
//! through trusted wrappers whose contracts state the exact arithmetic result.

use vstd::prelude::*;
use vstd::arithmetic::div_mod::lemma_fundamental_div_mod_converse;

verus! {

/// 2^64, the weight of one limb.
pub open spec fn p64() -> nat {
    0x1_0000_0000_0000_0000nat
}

/// 2^128.
pub open spec fn p128() -> nat {
    0x1_0000_0000_0000_0000_0000_0000_0000_0000nat
}

/// 2^192.
pub open spec fn p192() -> nat {
    0x1_0000_0000_0000_0000_0000_0000_0000_0000_0000_0000_0000_0000nat
}

/// 2^256; every `U256` value is strictly below this bound.
pub open spec fn u256_bound() -> nat {
    0x1_0000_0000_0000_0000_0000_0000_0000_0000_0000_0000_0000_0000_0000_0000_0000_0000nat
}

/// The natural number encoded by four little-endian 64-bit limbs.
pub open spec fn limbs_val(l0: u64, l1: u64, l2: u64, l3: u64) -> nat {
    (l0 as nat) + p64() * ((l1 as nat) + p64() * ((l2 as nat) + p64() * (l3 as nat)))
}

/// A 256-bit unsigned integer amount of tokens, in the token's smallest unit.
#[derive(Debug, Clone, Copy, PartialEq, Eq, Hash, Structural)]
pub struct U256 {
    limb0: u64,
    limb1: u64,
    limb2: u64,
    limb3: u64,
}

/// Amount of tokens; an alias kept for readability of signatures.
pub type Amount = U256;

impl View for U256 {
    type V = nat;

    closed spec fn view(&self) -> nat {
        limbs_val(self.limb0, self.limb1, self.limb2, self.limb3)
    }
}

/// The Horner form of `limbs_val` expanded into positional weights.
pub proof fn lemma_val_expand(l0: u64, l1: u64, l2: u64, l3: u64)
    ensures
        limbs_val(l0, l1, l2, l3) == (l0 as nat) + p64() * (l1 as nat) + p128() * (l2 as nat)
            + p192() * (l3 as nat),
{
    assert(p64() * ((l1 as nat) + p64() * ((l2 as nat) + p64() * (l3 as nat)))
        == p64() * (l1 as nat) + p128() * (l2 as nat) + p192() * (l3 as nat)) by (nonlinear_arith);
}

/// Two limb encodings with the same value have the same limbs.
proof fn lemma_val_injective(a: U256, b: U256)
    requires
        a@ == b@,
    ensures
        a == b,
{
    let xa: nat = (a.limb1 as nat) + p64() * ((a.limb2 as nat) + p64() * (a.limb3 as nat));
    let xb: nat = (b.limb1 as nat) + p64() * ((b.limb2 as nat) + p64() * (b.limb3 as nat));
    lemma_fundamental_div_mod_converse(a@ as int, p64() as int, xa as int, a.limb0 as int);
    lemma_fundamental_div_mod_converse(b@ as int, p64() as int, xb as int, b.limb0 as int);
    let ya: nat = (a.limb2 as nat) + p64() * (a.limb3 as nat);
    let yb: nat = (b.limb2 as nat) + p64() * (b.limb3 as nat);
    lemma_fundamental_div_mod_converse(xa as int, p64() as int, ya as int, a.limb1 as int);
    lemma_fundamental_div_mod_converse(xb as int, p64() as int, yb as int, b.limb1 as int);
    lemma_fundamental_div_mod_converse(ya as int, p64() as int, a.limb3 as int, a.limb2 as int);
    lemma_fundamental_div_mod_converse(yb as int, p64() as int, b.limb3 as int, b.limb2 as int);
}

/// Lexicographic order of the limbs, most significant first.
spec fn limbs_lex_lt(a: U256, b: U256) -> bool {
    ||| a.limb3 < b.limb3
    ||| (a.limb3 == b.limb3 && a.limb2 < b.limb2)
    ||| (a.limb3 == b.limb3 && a.limb2 == b.limb2 && a.limb1 < b.limb1)
    ||| (a.limb3 == b.limb3 && a.limb2 == b.limb2 && a.limb1 == b.limb1 && a.limb0 < b.limb0)
}

/// Lexicographic limb order agrees with the numeric order of the views.
proof fn lemma_lex_lt(a: U256, b: U256)
    requires
        limbs_lex_lt(a, b),
    ensures
        a@ < b@,
{
    lemma_val_expand(a.limb0, a.limb1, a.limb2, a.limb3);
    lemma_val_expand(b.limb0, b.limb1, b.limb2, b.limb3);
}

impl U256 {
    /// The zero amount.
    pub fn zero() -> (r: Self)
        ensures
            r@ == 0,
    {
        Self { limb0: 0, limb1: 0, limb2: 0, limb3: 0 }
    }

    /// The largest representable amount, 2^256 - 1.
    pub fn max_value() -> (r: Self)
        ensures
            r@ == (u256_bound() - 1) as nat,
    {
        let r = Self {
            limb0: u64::MAX,
            limb1: u64::MAX,
            limb2: u64::MAX,
            limb3: u64::MAX,
        };
        proof {
            lemma_val_expand(u64::MAX, u64::MAX, u64::MAX, u64::MAX);
        }
        r
    }

    /// The amount equal to a 64-bit integer.
    pub fn from_u64(x: u64) -> (r: Self)
        ensures
            r@ == x,
    {
        Self { limb0: x, limb1: 0, limb2: 0, limb3: 0 }
    }

    /// The amount equal to a 128-bit integer.
    pub fn from_u128(x: u128) -> (r: Self)
        ensures
            r@ == x,
    {
        let lo: u64 = (x % 0x1_0000_0000_0000_0000) as u64;
        let hi: u64 = (x / 0x1_0000_0000_0000_0000) as u64;
        Self { limb0: lo, limb1: hi, limb2: 0, limb3: 0 }
    }

    /// The amount `hi * 2^128 + lo`, from two 128-bit halves.
    pub fn from_u128_pair(hi: u128, lo: u128) -> (r: Self)
        ensures
            r@ == hi * p128() + lo,
    {
        let r = Self {
            limb0: (lo % 0x1_0000_0000_0000_0000) as u64,
            limb1: (lo / 0x1_0000_0000_0000_0000) as u64,
            limb2: (hi % 0x1_0000_0000_0000_0000) as u64,
            limb3: (hi / 0x1_0000_0000_0000_0000) as u64,
        };
        proof {
            lemma_val_expand(r.limb0, r.limb1, r.limb2, r.limb3);
            assert(p128() * ((hi % 0x1_0000_0000_0000_0000) as u64 as nat) + p192() * ((hi
                / 0x1_0000_0000_0000_0000) as u64 as nat) == hi * p128()) by (nonlinear_arith)
                requires
                    p128() == 0x1_0000_0000_0000_0000_0000_0000_0000_0000nat,
                    p192() == p128() * 0x1_0000_0000_0000_0000nat,
            ;
        }
        r
    }

    /// The two 128-bit halves of this amount: `(self / 2^128, self % 2^128)`.
    pub fn to_u128_pair(&self) -> (r: (u128, u128))
        ensures
            r.0 == self@ / p128(),
            r.1 == self@ % p128(),
            self@ == r.0 * p128() + r.1,
    {
        proof {
            lemma_val_expand(self.limb0, self.limb1, self.limb2, self.limb3);
            let lo: nat = (self.limb0 as nat) + p64() * (self.limb1 as nat);
            let hi: nat = (self.limb2 as nat) + p64() * (self.limb3 as nat);
            assert(self@ == hi * p128() + lo) by (nonlinear_arith)
                requires
                    self@ == (self.limb0 as nat) + p64() * (self.limb1 as nat) + p128() * (
                    self.limb2 as nat) + p192() * (self.limb3 as nat),
                    lo == (self.limb0 as nat) + p64() * (self.limb1 as nat),
                    hi == (self.limb2 as nat) + p64() * (self.limb3 as nat),
                    p128() == p64() * p64(),
                    p192() == p128() * p64(),
            ;
            assert(lo < p128()) by (nonlinear_arith)
                requires
                    lo == (self.limb0 as nat) + p64() * (self.limb1 as nat),
                    self.limb0 < p64(),
                    self.limb1 < p64(),
                    p128() == p64() * p64(),
            ;
            vstd::arithmetic::div_mod::lemma_fundamental_div_mod_converse(
                self@ as int,
                p128() as int,
                hi as int,
                lo as int,
            );
        }
        let hi = (self.limb2 as u128) + (self.limb3 as u128) * 0x1_0000_0000_0000_0000;
        let lo = (self.limb0 as u128) + (self.limb1 as u128) * 0x1_0000_0000_0000_0000;
        (hi, lo)
    }

    /// Whether this amount is zero.
    pub fn is_zero(&self) -> (r: bool)
        ensures
            r == (self@ == 0),
    {
        proof {
            if self@ == 0 {
                lemma_val_injective(*self, Self { limb0: 0, limb1: 0, limb2: 0, limb3: 0 });
            }
        }
        self.limb0 == 0 && self.limb1 == 0 && self.limb2 == 0 && self.limb3 == 0
    }

    /// Whether the two amounts are numerically equal.
    pub fn equals(&self, other: &U256) -> (r: bool)
        ensures
            r == (self@ == other@),
    {
        proof {
            if self@ == other@ {
                lemma_val_injective(*self, *other);
            }
        }
        self.limb0 == other.limb0 && self.limb1 == other.limb1 && self.limb2 == other.limb2
            && self.limb3 == other.limb3
    }

    /// Whether this amount is strictly below the other.
    pub fn lt(&self, other: &U256) -> (r: bool)
        ensures
            r == (self@ < other@),
    {
        proof {
            if limbs_lex_lt(*self, *other) {
                lemma_lex_lt(*self, *other);
            } else if limbs_lex_lt(*other, *self) {
                lemma_lex_lt(*other, *self);
            }
        }
        if self.limb3 != other.limb3 {
            self.limb3 < other.limb3
        } else if self.limb2 != other.limb2 {
            self.limb2 < other.limb2
        } else if self.limb1 != other.limb1 {
            self.limb1 < other.limb1
        } else {
            self.limb0 < other.limb0
        }
    }

    /// Whether this amount is at most the other.
    pub fn le(&self, other: &U256) -> (r: bool)
        ensures
            r == (self@ <= other@),
    {
        !other.lt(self)
    }

    /// The smaller of the two amounts.
    pub fn min_with(&self, other: &U256) -> (r: Self)
        ensures
            r@ == if self@ <= other@ { self@ } else { other@ },
    {
        if self.le(other) {
            *self
        } else {
            *other
        }
    }

    /// This amount clamped into a 128-bit integer.
    pub fn to_u128_saturating(&self) -> (r: u128)
        ensures
            r == if self@ <= u128::MAX { self@ } else { u128::MAX as nat },
    {
        proof {
            lemma_val_expand(self.limb0, self.limb1, self.limb2, self.limb3);
        }
        if self.limb2 == 0 && self.limb3 == 0 {
            (self.limb1 as u128) * 0x1_0000_0000_0000_0000 + (self.limb0 as u128)
        } else {
            u128::MAX
        }
    }

    /// Relies on `alloy_primitives::U256::checked_mul`: the exact product, or
    /// `None` when it does not fit in 256 bits.
    #[verifier::external_body]
    pub fn checked_mul(&self, other: &U256) -> (r: Option<U256>)
        ensures
            match r {
                Some(v) => self@ * other@ < u256_bound() && v@ == self@ * other@,
                None => self@ * other@ >= u256_bound(),
            },
    {
        let a = alloy_primitives::U256::from_limbs([self.limb0, self.limb1, self.limb2, self.limb3]);
        let b = alloy_primitives::U256::from_limbs([other.limb0, other.limb1, other.limb2, other.limb3]);
        match a.checked_mul(b) {
            None => None,
            Some(p) => {
                let l = p.into_limbs();
                Some(U256 { limb0: l[0], limb1: l[1], limb2: l[2], limb3: l[3] })
            }
        }
    }

    /// Relies on `alloy_primitives::U256::checked_div`: the integer quotient
    /// rounded toward zero, or `None` when the divisor is zero.
    #[verifier::external_body]
    pub fn checked_div(&self, other: &U256) -> (r: Option<U256>)
        ensures
            match r {
                Some(v) => other@ != 0 && v@ == self@ / other@,
                None => other@ == 0,
            },
    {
        let a = alloy_primitives::U256::from_limbs([self.limb0, self.limb1, self.limb2, self.limb3]);
        let b = alloy_primitives::U256::from_limbs([other.limb0, other.limb1, other.limb2, other.limb3]);
        match a.checked_div(b) {
            None => None,
            Some(q) => {
                let l = q.into_limbs();
                Some(U256 { limb0: l[0], limb1: l[1], limb2: l[2], limb3: l[3] })
            }
        }
    }

    /// Relies on `alloy_primitives::U256::saturating_mul`: the product clamped
    /// at 2^256 - 1.
    #[verifier::external_body]
    pub fn saturating_mul(&self, other: &U256) -> (r: U256)
        ensures
            r@ == if self@ * other@ < u256_bound() { self@ * other@ } else { (u256_bound() - 1) as nat },
    {
        let a = alloy_primitives::U256::from_limbs([self.limb0, self.limb1, self.limb2, self.limb3]);
        let b = alloy_primitives::U256::from_limbs([other.limb0, other.limb1, other.limb2, other.limb3]);
        let l = a.saturating_mul(b).into_limbs();
        U256 { limb0: l[0], limb1: l[1], limb2: l[2], limb3: l[3] }
    }

    /// Relies on `alloy_primitives::U256::saturating_add`: the sum clamped at
    /// 2^256 - 1.
    #[verifier::external_body]
    pub fn saturating_add(&self, other: &U256) -> (r: U256)
        ensures
            r@ == if self@ + other@ < u256_bound() { self@ + other@ } else { (u256_bound() - 1) as nat },
    {
        let a = alloy_primitives::U256::from_limbs([self.limb0, self.limb1, self.limb2, self.limb3]);
        let b = alloy_primitives::U256::from_limbs([other.limb0, other.limb1, other.limb2, other.limb3]);
        let l = a.saturating_add(b).into_limbs();
        U256 { limb0: l[0], limb1: l[1], limb2: l[2], limb3: l[3] }
    }

    /// Relies on `alloy_primitives::U256::saturating_sub`: the difference
    /// clamped at zero.
    #[verifier::external_body]
    pub fn saturating_sub(&self, other: &U256) -> (r: U256)
        ensures
            r@ == if self@ >= other@ { self@ - other@ } else { 0 },
    {
        let a = alloy_primitives::U256::from_limbs([self.limb0, self.limb1, self.limb2, self.limb3]);
        let b = alloy_primitives::U256::from_limbs([other.limb0, other.limb1, other.limb2, other.limb3]);
        let l = a.saturating_sub(b).into_limbs();
        U256 { limb0: l[0], limb1: l[1], limb2: l[2], limb3: l[3] }
    }
}

} // verus!
