//! Token identifiers: 20-byte addresses.

use vstd::prelude::*;

verus! {

/// Lexicographic order on byte sequences of equal length, first difference
/// decides; the empty sequence is not below anything.
pub open spec fn bytes_lex_lt(a: Seq<u8>, b: Seq<u8>) -> bool
    decreases a.len(),
{
    if a.len() == 0 || b.len() == 0 {
        false
    } else if a[0] != b[0] {
        a[0] < b[0]
    } else {
        bytes_lex_lt(a.skip(1), b.skip(1))
    }
}

/// When the first `i` bytes agree, the order is decided by the tails.
pub proof fn lemma_lex_prefix(a: Seq<u8>, b: Seq<u8>, i: int)
    requires
        a.len() == b.len(),
        0 <= i <= a.len(),
        forall|j: int| 0 <= j < i ==> a[j] == b[j],
    ensures
        bytes_lex_lt(a, b) == bytes_lex_lt(a.skip(i), b.skip(i)),
    decreases i,
{
    if i == 0 {
        assert(a.skip(0) =~= a);
        assert(b.skip(0) =~= b);
    } else {
        assert(a[0] == b[0]);
        lemma_lex_prefix(a.skip(1), b.skip(1), i - 1);
        assert(a.skip(1).skip(i - 1) =~= a.skip(i));
        assert(b.skip(1).skip(i - 1) =~= b.skip(i));
    }
}

/// The order is asymmetric.
pub proof fn lemma_lex_asym(a: Seq<u8>, b: Seq<u8>)
    requires
        a.len() == b.len(),
        bytes_lex_lt(a, b),
    ensures
        !bytes_lex_lt(b, a),
    decreases a.len(),
{
    if a.len() > 0 && a[0] == b[0] {
        lemma_lex_asym(a.skip(1), b.skip(1));
    }
}

/// Sequences of equal length that are unordered are equal.
pub proof fn lemma_lex_total(a: Seq<u8>, b: Seq<u8>)
    requires
        a.len() == b.len(),
        !bytes_lex_lt(a, b),
        !bytes_lex_lt(b, a),
    ensures
        a =~= b,
    decreases a.len(),
{
    if a.len() > 0 {
        lemma_lex_total(a.skip(1), b.skip(1));
        assert(a =~= seq![a[0]] + a.skip(1));
        assert(b =~= seq![b[0]] + b.skip(1));
    }
}

/// A 20-byte account or token-contract address; the all-zero address stands
/// for the native asset.
#[derive(Debug, Clone, Copy, PartialEq, Eq, Hash)]
pub struct Address {
    bytes: [u8; 20],
}

/// Unique identifier for a token (its contract address).
pub type TokenId = Address;

impl View for Address {
    type V = Seq<u8>;

    closed spec fn view(&self) -> Seq<u8> {
        self.bytes@
    }
}

impl Address {
    /// The all-zero address (the native-asset sentinel).
    pub fn zero() -> (r: Self)
        ensures
            r@ == Seq::new(20, |i: int| 0u8),
    {
        let r = Self { bytes: [0u8; 20] };
        proof {
            assert(r@ =~= Seq::new(20, |i: int| 0u8));
        }
        r
    }

    /// The address with every byte equal to `b`.
    pub fn repeat_byte(b: u8) -> (r: Self)
        ensures
            r@ == Seq::new(20, |i: int| b),
    {
        let r = Self { bytes: [b; 20] };
        proof {
            assert(r@ =~= Seq::new(20, |i: int| b));
        }
        r
    }

    /// The address made of the given bytes.
    pub fn from_bytes(bytes: [u8; 20]) -> (r: Self)
        ensures
            r@ == bytes@,
    {
        Self { bytes }
    }

    /// The bytes of this address.
    pub fn to_bytes(&self) -> (r: [u8; 20])
        ensures
            r@ == self@,
    {
        self.bytes
    }

    /// Whether this is the all-zero (native asset) address.
    pub fn is_zero(&self) -> (r: bool)
        ensures
            r == (self@ =~= Seq::new(20, |i: int| 0u8)),
    {
        let mut i: usize = 0;
        while i < 20
            invariant
                i <= 20,
                forall|j: int| 0 <= j < i ==> self@[j] == 0u8,
            decreases 20 - i,
        {
            if self.bytes[i] != 0 {
                return false;
            }
            i += 1;
        }
        true
    }

    /// Whether the two addresses hold the same bytes.
    pub fn addr_eq(&self, other: &Address) -> (r: bool)
        ensures
            r == (self@ == other@),
    {
        let mut i: usize = 0;
        while i < 20
            invariant
                i <= 20,
                forall|j: int| 0 <= j < i ==> self@[j] == other@[j],
            decreases 20 - i,
        {
            if self.bytes[i] != other.bytes[i] {
                return false;
            }
            i += 1;
        }
        proof {
            assert(self@ =~= other@);
        }
        true
    }

    /// Whether this address is lexicographically below the other.
    pub fn addr_lt(&self, other: &Address) -> (r: bool)
        ensures
            r == bytes_lex_lt(self@, other@),
    {
        let mut i: usize = 0;
        while i < 20
            invariant
                i <= 20,
                forall|j: int| 0 <= j < i ==> self@[j] == other@[j],
            decreases 20 - i,
        {
            if self.bytes[i] != other.bytes[i] {
                proof {
                    lemma_lex_prefix(self@, other@, i as int);
                }
                return self.bytes[i] < other.bytes[i];
            }
            i += 1;
        }
        proof {
            lemma_lex_prefix(self@, other@, 20);
        }
        false
    }

    /// Whether this address is lexicographically at most the other.
    pub fn addr_le(&self, other: &Address) -> (r: bool)
        ensures
            r == !bytes_lex_lt(other@, self@),
    {
        !other.addr_lt(self)
    }
}

} // verus!
