//! Trading pair definitions.

use vstd::prelude::*;
use crate::amount::U256;
use crate::token::{bytes_lex_lt, lemma_lex_asym, lemma_lex_total, Address, TokenId};

verus! {

/// The Keccak-256 digest of a byte sequence. The digest is a function of the
/// bytes alone; its value is stated nowhere and learnt only by calling the
/// hash.
pub uninterp spec fn keccak256_of(data: Seq<u8>) -> Seq<u8>;

/// Relies on `alloy_primitives::keccak256`: the Keccak-256 digest of the
/// input bytes, 32 bytes long, depending on the input bytes alone.
#[verifier::external_body]
fn keccak256_bytes(data: &Vec<u8>) -> (r: [u8; 32])
    ensures
        r@ == keccak256_of(data@),
{
    alloy_primitives::keccak256(data.as_slice()).0
}

/// The canonical pair identifier of two token addresses: the Keccak-256
/// digest of their concatenation after lexicographic sorting.
pub open spec fn spec_pair_id(a: Seq<u8>, b: Seq<u8>) -> Seq<u8> {
    if bytes_lex_lt(b, a) {
        keccak256_of(b + a)
    } else {
        keccak256_of(a + b)
    }
}

/// The canonical pair identifier does not depend on the order of the tokens.
pub proof fn lemma_pair_id_symmetric(a: Seq<u8>, b: Seq<u8>)
    requires
        a.len() == b.len(),
    ensures
        spec_pair_id(a, b) == spec_pair_id(b, a),
{
    if bytes_lex_lt(b, a) {
        lemma_lex_asym(b, a);
    } else if bytes_lex_lt(a, b) {
        lemma_lex_asym(a, b);
    } else {
        lemma_lex_total(a, b);
        assert(a + b =~= b + a);
    }
}

/// Unique identifier for a trading pair, deterministically generated from
/// the two token addresses and independent of their order.
#[derive(Debug, Clone, Copy, PartialEq, Eq, Hash)]
pub struct PairId(pub [u8; 32]);

impl View for PairId {
    type V = Seq<u8>;

    open spec fn view(&self) -> Seq<u8> {
        self.0@
    }
}

impl PairId {
    /// Create a PairId from two tokens; the result is the same regardless of
    /// token order.
    pub fn from_tokens(token_a: TokenId, token_b: TokenId) -> (r: Self)
        ensures
            r@ == spec_pair_id(token_a@, token_b@),
    {
        let (first, second) = if token_a.addr_le(&token_b) {
            (token_a, token_b)
        } else {
            (token_b, token_a)
        };
        let fb = first.to_bytes();
        let sb = second.to_bytes();
        let mut data: Vec<u8> = Vec::new();
        let mut i: usize = 0;
        while i < 20
            invariant
                i <= 20,
                fb@.len() == 20,
                data@ =~= fb@.take(i as int),
            decreases 20 - i,
        {
            data.push(fb[i]);
            i += 1;
        }
        let mut j: usize = 0;
        while j < 20
            invariant
                j <= 20,
                fb@.len() == 20,
                sb@.len() == 20,
                data@ =~= fb@ + sb@.take(j as int),
            decreases 20 - j,
        {
            data.push(sb[j]);
            j += 1;
        }
        proof {
            assert(fb@.take(20) =~= fb@);
            assert(sb@.take(20) =~= sb@);
            assert(data@ =~= first@ + second@);
        }
        Self(keccak256_bytes(&data))
    }

    /// Whether the two identifiers hold the same bytes.
    pub fn id_eq(&self, other: &PairId) -> (r: bool)
        ensures
            r == (self@ == other@),
    {
        let mut i: usize = 0;
        while i < 32
            invariant
                i <= 32,
                forall|j: int| 0 <= j < i ==> self@[j] == other@[j],
            decreases 32 - i,
        {
            if self.0[i] != other.0[i] {
                return false;
            }
            i += 1;
        }
        proof {
            assert(self@ =~= other@);
        }
        true
    }
}

/// A trading pair consisting of a base token and a quote token.
///
/// Convention: the base token is the token being bought or sold; the quote
/// token denominates its price. A buy order buys base with quote; a sell
/// order sells base for quote.
#[derive(Debug, Clone, Copy, PartialEq, Eq, Hash)]
pub struct Pair {
    /// The base token (the token being traded).
    pub base: TokenId,
    /// The quote token (the token used for pricing).
    pub quote: TokenId,
}

impl Pair {
    /// Create a new trading pair.
    pub fn new(base: TokenId, quote: TokenId) -> (r: Self)
        ensures
            r.base == base,
            r.quote == quote,
    {
        Self { base, quote }
    }

    /// Get the pair ID.
    pub fn id(&self) -> (r: PairId)
        ensures
            r@ == spec_pair_id(self.base@, self.quote@),
    {
        PairId::from_tokens(self.base, self.quote)
    }

    /// Get the inverse pair (swap base and quote).
    pub fn inverse(&self) -> (r: Self)
        ensures
            r.base == self.quote,
            r.quote == self.base,
    {
        Self { base: self.quote, quote: self.base }
    }

    /// Check if this pair contains the given token.
    pub fn contains(&self, token: TokenId) -> (r: bool)
        ensures
            r == (self.base@ == token@ || self.quote@ == token@),
    {
        self.base.addr_eq(&token) || self.quote.addr_eq(&token)
    }

    /// Get the other token in the pair, or `None` when the token is not in
    /// the pair. When base and quote views coincide the quote is returned.
    pub fn other_token(&self, token: TokenId) -> (r: Option<TokenId>)
        ensures
            r == if self.base@ == token@ {
                Some(self.quote)
            } else if self.quote@ == token@ {
                Some(self.base)
            } else {
                None::<TokenId>
            },
    {
        if self.base.addr_eq(&token) {
            Some(self.quote)
        } else if self.quote.addr_eq(&token) {
            Some(self.base)
        } else {
            None
        }
    }
}

/// Statistics about an orderbook for a pair.
#[derive(Debug, Clone)]
pub struct PairStats {
    /// Best bid price numerator (highest buy order).
    pub best_bid: Option<U256>,
    /// Best ask price numerator (lowest sell order).
    pub best_ask: Option<U256>,
    /// Total volume in base token.
    pub total_volume: U256,
    /// Number of buy orders resting in the book.
    pub buy_order_count: usize,
    /// Number of sell orders resting in the book.
    pub sell_order_count: usize,
}

} // verus!
