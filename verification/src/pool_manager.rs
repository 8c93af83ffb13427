//! Pool manager: owns all orderbooks, the token-pair index and the router.

use vstd::prelude::*;
use crate::amount::{Amount, U256};
use crate::config::DexConfig;
use crate::order::{OrderId, OrderSide};
use crate::orderbook::{
    idx_has, spec_cancel, spec_place_limit, spec_place_market, BookV, OrderBook, OrderError,
    TradeResult, TradeResultV,
};
use crate::pair::{spec_pair_id, Pair, PairId, PairStats};
use crate::price::Price;
use crate::router::{
    book_ids, book_views, books_find, pair_view, tokens_contain, tokens_find, PairV, Route,
    RouteHop, RouteHopV, Router, RouterV, Quote,
};
use crate::token::{Address, TokenId};

verus! {

/// Result of executing a swap.
#[derive(Debug)]
pub struct SwapResult {
    /// Amount of input token.
    pub amount_in: Amount,
    /// Amount of output token received.
    pub amount_out: Amount,
    /// The route taken.
    pub route: Route,
    /// Trade results for each hop.
    pub trades: Vec<TradeResult>,
}

/// The mathematical content of a swap result.
#[verifier::ext_equal]
pub struct SwapResultV {
    pub amount_in: nat,
    pub amount_out: nat,
    pub route: Seq<RouteHopV>,
    pub trades: Seq<TradeResultV>,
}

impl View for SwapResult {
    type V = SwapResultV;

    open spec fn view(&self) -> SwapResultV {
        SwapResultV {
            amount_in: self.amount_in@,
            amount_out: self.amount_out@,
            route: self.route@,
            trades: self.trades@.map_values(|t: TradeResult| t@),
        }
    }
}

/// Errors that can occur in the pool manager.
#[derive(Debug, Clone, Copy, PartialEq, Eq, Structural)]
pub enum PoolError {
    /// The trading pair already exists.
    PairAlreadyExists,
    /// The trading pair was not found.
    PairNotFound,
    /// Invalid pair (e.g., same token on both sides).
    InvalidPair,
    /// Invalid amount.
    InvalidAmount,
    /// No route found between tokens.
    NoRouteFound,
    /// Insufficient liquidity for the trade.
    InsufficientLiquidity,
    /// Slippage tolerance exceeded.
    SlippageExceeded,
    /// Order-related error.
    OrderError(OrderError),
}

/// One entry of the token index: a token and the pair ids of the books it
/// takes part in.
#[derive(Debug)]
struct TokenPairs {
    token: TokenId,
    pair_ids: Vec<PairId>,
}

/// The mathematical content of a token-index entry.
#[verifier::ext_equal]
pub struct TPEntryV {
    pub token: Seq<u8>,
    pub pair_ids: Seq<Seq<u8>>,
}

impl View for TokenPairs {
    type V = TPEntryV;

    closed spec fn view(&self) -> TPEntryV {
        TPEntryV { token: self.token@, pair_ids: self.pair_ids@.map_values(|p: PairId| p@) }
    }
}

/// The mathematical content of a pool manager.
#[verifier::ext_equal]
pub struct PoolV {
    pub config: DexConfig,
    pub books: Seq<(Seq<u8>, BookV)>,
    pub token_pairs: Seq<TPEntryV>,
    pub router: RouterV,
}

/// The main DEX pool manager: all trading pairs, an index from token to its
/// pairs, and the router for multi-hop paths.
pub struct PoolManager {
    config: DexConfig,
    orderbooks: Vec<(PairId, OrderBook)>,
    token_pairs: Vec<TokenPairs>,
    router: Router,
}

impl View for PoolManager {
    type V = PoolV;

    closed spec fn view(&self) -> PoolV {
        PoolV {
            config: self.config,
            books: book_views(self.orderbooks@),
            token_pairs: self.token_pairs@.map_values(|e: TokenPairs| e@),
            router: self.router@,
        }
    }
}

// ---------------------------------------------------------------------------
// The functional model of pair management
// ---------------------------------------------------------------------------

/// The position of a token's entry in the token index, or -1.
pub open spec fn tp_find(tps: Seq<TPEntryV>, t: Seq<u8>) -> int
    decreases tps.len(),
{
    if tps.len() == 0 {
        -1
    } else if tps[0].token == t {
        0
    } else {
        let r = tp_find(tps.skip(1), t);
        if r < 0 {
            -1
        } else {
            r + 1
        }
    }
}

/// The token index after recording that `t` takes part in the pair `id`.
pub open spec fn spec_tp_add(tps: Seq<TPEntryV>, t: Seq<u8>, id: Seq<u8>) -> Seq<TPEntryV> {
    let i = tp_find(tps, t);
    if i < 0 {
        tps.push(TPEntryV { token: t, pair_ids: seq![id] })
    } else if tokens_contain(tps[i].pair_ids, id) {
        tps
    } else {
        tps.update(i, TPEntryV { token: t, pair_ids: tps[i].pair_ids.push(id) })
    }
}

/// An empty book for a pair.
pub open spec fn empty_book(base: Seq<u8>, quote: Seq<u8>) -> BookV {
    BookV {
        base,
        quote,
        bids: Seq::empty(),
        asks: Seq::empty(),
        index: Seq::empty(),
        next_order_id: 1,
        total_volume: 0,
    }
}

/// The complete effect of creating a pair: rejected when base and quote
/// coincide or the canonical id already has a book; otherwise a fresh empty
/// book is added, both tokens' index entries gain the id, and the router
/// learns the pair.
pub open spec fn spec_create_pair(p: PoolV, base: Seq<u8>, quote: Seq<u8>) -> Result<
    PoolV,
    PoolError,
> {
    if base == quote {
        Err(PoolError::InvalidPair)
    } else {
        let id = spec_pair_id(base, quote);
        if books_find(p.books, id) >= 0 {
            Err(PoolError::PairAlreadyExists)
        } else {
            Ok(
                PoolV {
                    config: p.config,
                    books: p.books.push((id, empty_book(base, quote))),
                    token_pairs: spec_tp_add(spec_tp_add(p.token_pairs, base, id), quote, id),
                    router: RouterV {
                        graph: crate::router::spec_graph_add(
                            crate::router::spec_graph_add(p.router.graph, base, quote),
                            quote,
                            base,
                        ),
                        pairs: crate::router::spec_pairs_put(
                            crate::router::spec_pairs_put(
                                p.router.pairs,
                                base,
                                quote,
                                PairV { base, quote },
                            ),
                            quote,
                            base,
                            PairV { base, quote },
                        ),
                    },
                },
            )
        }
    }
}

/// `tp_find` finds the first entry with the token.
proof fn lemma_tp_find_at(tps: Seq<TPEntryV>, t: Seq<u8>, i: int)
    requires
        0 <= i < tps.len(),
        tps[i].token == t,
        forall|j: int| 0 <= j < i ==> (#[trigger] tps[j]).token != t,
    ensures
        tp_find(tps, t) == i,
    decreases i,
{
    if i > 0 {
        lemma_tp_find_at(tps.skip(1), t, i - 1);
    }
}

/// `tp_find` fails exactly when no entry has the token.
proof fn lemma_tp_find_none(tps: Seq<TPEntryV>, t: Seq<u8>)
    requires
        forall|j: int| 0 <= j < tps.len() ==> (#[trigger] tps[j]).token != t,
    ensures
        tp_find(tps, t) == -1,
    decreases tps.len(),
{
    if tps.len() > 0 {
        lemma_tp_find_none(tps.skip(1), t);
    }
}

/// Record that `t` takes part in the pair `id`.
fn tp_add(tps: &mut Vec<TokenPairs>, t: TokenId, id: PairId)
    ensures
        final(tps)@.map_values(|e: TokenPairs| e@) == spec_tp_add(
            old(tps)@.map_values(|e: TokenPairs| e@),
            t@,
            id@,
        ),
{
    let ghost tv = tps@.map_values(|e: TokenPairs| e@);
    let mut i: usize = 0;
    while i < tps.len()
        invariant
            i <= tps@.len(),
            tps@ == old(tps)@,
            tv == tps@.map_values(|e: TokenPairs| e@),
            forall|j: int| 0 <= j < i ==> (#[trigger] tv[j]).token != t@,
        decreases tps@.len() - i,
    {
        if tps[i].token.addr_eq(&t) {
            proof {
                assert(tv[i as int] == tps@[i as int]@);
                lemma_tp_find_at(tv, t@, i as int);
            }
            let mut present = false;
            let mut k: usize = 0;
            while k < tps[i].pair_ids.len()
                invariant
                    i < tps@.len(),
                    k <= tps@[i as int].pair_ids@.len(),
                    tps@ == old(tps)@,
                    tv == tps@.map_values(|e: TokenPairs| e@),
                    tv[i as int] == tps@[i as int]@,
                    present == exists|j: int| 0 <= j < k && tv[i as int].pair_ids[j] == id@,
                decreases tps@[i as int].pair_ids@.len() - k,
            {
                if tps[i].pair_ids[k].id_eq(&id) {
                    proof {
                        assert(tv[i as int].pair_ids[k as int] == id@);
                    }
                    present = true;
                }
                k += 1;
            }
            if !present {
                proof {
                    assert(!tokens_contain(tv[i as int].pair_ids, id@));
                }
                let ghost t0 = tps@;
                let mut entry = tps.remove(i);
                let ghost e0 = entry@;
                entry.pair_ids.push(id);
                proof {
                    assert(e0 == tv[i as int]);
                    assert(entry@.pair_ids =~= e0.pair_ids.push(id@));
                }
                let ghost ev = entry@;
                tps.insert(i, entry);
                proof {
                    assert(tps@ =~= t0.update(i as int, tps@[i as int]));
                    assert(tps@[i as int]@ == ev);
                    assert(ev =~~= TPEntryV {
                        token: t@,
                        pair_ids: tv[i as int].pair_ids.push(id@),
                    });
                    assert(tps@.map_values(|e: TokenPairs| e@) =~~= tv.update(
                        i as int,
                        TPEntryV { token: t@, pair_ids: tv[i as int].pair_ids.push(id@) },
                    ));
                }
            } else {
                proof {
                    assert(tokens_contain(tv[i as int].pair_ids, id@));
                }
            }
            return ;
        }
        i += 1;
    }
    proof {
        lemma_tp_find_none(tv, t@);
    }
    let mut ids: Vec<PairId> = Vec::new();
    ids.push(id);
    tps.push(TokenPairs { token: t, pair_ids: ids });
    proof {
        assert(ids@.map_values(|p: PairId| p@) =~= seq![id@]);
        assert(tps@.map_values(|e: TokenPairs| e@) =~~= tv.push(
            TPEntryV { token: t@, pair_ids: seq![id@] },
        ));
    }
}

/// Find the position of a pair id's book.
fn find_book_pos(books: &Vec<(PairId, OrderBook)>, id: &PairId) -> (r: Option<usize>)
    ensures
        ({
            let bs = book_views(books@);
            match r {
                Some(i) => i < bs.len() && books_find(bs, id@) == i && bs[i as int].0 == id@,
                None => books_find(bs, id@) == -1,
            }
        }),
{
    let ghost bs = book_views(books@);
    let mut i: usize = 0;
    while i < books.len()
        invariant
            i <= books@.len(),
            bs == book_views(books@),
            forall|j: int| 0 <= j < i ==> (#[trigger] bs[j]).0 != id@,
        decreases books@.len() - i,
    {
        if books[i].0.id_eq(id) {
            proof {
                assert(bs[i as int] == (books@[i as int].0@, books@[i as int].1@));
                crate::router::lemma_books_find_at(bs, id@, i as int);
            }
            return Some(i);
        }
        i += 1;
    }
    proof {
        crate::router::lemma_books_find_none(bs, id@);
    }
    None
}

impl PoolManager {
    /// Create a new pool manager with default configuration.
    pub fn new() -> (r: Self)
        ensures
            r@.config == (DexConfig {
                fee_bps: 30,
                max_routing_hops: 3,
                min_order_size: 1,
                allow_self_trade: false,
            }),
            (r@.books =~= Seq::<(Seq<u8>, BookV)>::empty()),
            (r@.token_pairs =~= Seq::<TPEntryV>::empty()),
            (r@.router.graph =~= Seq::<crate::router::GEntryV>::empty()),
            (r@.router.pairs =~= Seq::<crate::router::PEntryV>::empty()),
    {
        Self::with_config(DexConfig::default())
    }

    /// Create a new pool manager with custom configuration.
    pub fn with_config(config: DexConfig) -> (r: Self)
        ensures
            r@.config == config,
            (r@.books =~= Seq::<(Seq<u8>, BookV)>::empty()),
            (r@.token_pairs =~= Seq::<TPEntryV>::empty()),
            (r@.router.graph =~= Seq::<crate::router::GEntryV>::empty()),
            (r@.router.pairs =~= Seq::<crate::router::PEntryV>::empty()),
    {
        let r = Self {
            config,
            orderbooks: Vec::new(),
            token_pairs: Vec::new(),
            router: Router::new(),
        };
        proof {
            assert(r@.books =~= Seq::<(Seq<u8>, BookV)>::empty());
            assert(r@.token_pairs =~= Seq::<TPEntryV>::empty());
        }
        r
    }

    /// Get a copy of the configuration.
    pub fn config(&self) -> (r: DexConfig)
        ensures
            r == self@.config,
    {
        self.config
    }

    /// Update the configuration.
    pub fn set_config(&mut self, config: DexConfig)
        ensures
            final(self)@ == (PoolV { config, ..old(self)@ }),
    {
        self.config = config;
    }

    /// Create a new trading pair: rejected when base and quote coincide or
    /// when the pair already exists in either direction.
    pub fn create_pair(&mut self, base: TokenId, quote: TokenId) -> (r: Result<Pair, PoolError>)
        ensures
            match r {
                Ok(pair) => {
                    &&& spec_create_pair(old(self)@, base@, quote@) is Ok
                    &&& final(self)@ == spec_create_pair(old(self)@, base@, quote@)->Ok_0
                    &&& pair.base == base && pair.quote == quote
                },
                Err(e) => {
                    &&& spec_create_pair(old(self)@, base@, quote@) == Err::<PoolV, _>(e)
                    &&& final(self)@ == old(self)@
                },
            },
    {
        if base.addr_eq(&quote) {
            return Err(PoolError::InvalidPair);
        }
        let pair = Pair::new(base, quote);
        let pair_id = pair.id();
        if let Some(_i) = find_book_pos(&self.orderbooks, &pair_id) {
            return Err(PoolError::PairAlreadyExists);
        }
        let ghost p0 = self@;
        let book = OrderBook::new(pair);
        let ghost bv = book@;
        self.orderbooks.push((pair_id, book));
        proof {
            assert(bv =~~= empty_book(base@, quote@));
            assert(book_views(self.orderbooks@) =~~= p0.books.push((pair_id@, bv)));
        }
        tp_add(&mut self.token_pairs, base, pair_id);
        tp_add(&mut self.token_pairs, quote, pair_id);
        self.router.add_pair(pair);
        Ok(pair)
    }

    /// Get the orderbook of a pair, by its direction-independent id.
    pub fn get_orderbook(&self, pair: &Pair) -> (r: Option<&OrderBook>)
        ensures
            ({
                let bi = books_find(self@.books, spec_pair_id(pair.base@, pair.quote@));
                match r {
                    Some(b) => bi >= 0 && b@ == self@.books[bi].1,
                    None => bi == -1,
                }
            }),
    {
        let id = pair.id();
        match find_book_pos(&self.orderbooks, &id) {
            Some(i) => Some(&self.orderbooks[i].1),
            None => None,
        }
    }

    /// Get the orderbook of a pair id.
    pub fn get_orderbook_by_id(&self, pair_id: &PairId) -> (r: Option<&OrderBook>)
        ensures
            ({
                let bi = books_find(self@.books, pair_id@);
                match r {
                    Some(b) => bi >= 0 && b@ == self@.books[bi].1,
                    None => bi == -1,
                }
            }),
    {
        match find_book_pos(&self.orderbooks, pair_id) {
            Some(i) => Some(&self.orderbooks[i].1),
            None => None,
        }
    }

    /// Check if a pair exists, in either direction.
    pub fn pair_exists(&self, base: TokenId, quote: TokenId) -> (r: bool)
        ensures
            r == (books_find(self@.books, spec_pair_id(base@, quote@)) >= 0),
    {
        let pair_id = PairId::from_tokens(base, quote);
        match find_book_pos(&self.orderbooks, &pair_id) {
            Some(_) => true,
            None => false,
        }
    }

    /// Get all active pairs, one per book, in creation order.
    pub fn pairs(&self) -> (r: Vec<Pair>)
        ensures
            r@.len() == self@.books.len(),
            forall|i: int|
                0 <= i < r@.len() ==> pair_view(#[trigger] r@[i]) == (PairV {
                    base: self@.books[i].1.base,
                    quote: self@.books[i].1.quote,
                }),
    {
        let mut r: Vec<Pair> = Vec::new();
        let mut i: usize = 0;
        while i < self.orderbooks.len()
            invariant
                i <= self.orderbooks@.len(),
                r@.len() == i,
                forall|j: int|
                    0 <= j < i ==> pair_view(#[trigger] r@[j]) == (PairV {
                        base: self@.books[j].1.base,
                        quote: self@.books[j].1.quote,
                    }),
            decreases self.orderbooks@.len() - i,
        {
            let p = self.orderbooks[i].1.get_pair();
            r.push(p);
            proof {
                assert(self@.books[i as int].1 == self.orderbooks@[i as int].1@);
            }
            i += 1;
        }
        r
    }

    /// Place a limit order on the book of `(base, quote)`.
    pub fn place_limit_order(&mut self, base: TokenId, quote: TokenId, trader: Address,
        side: OrderSide, price: Price, amount: Amount) -> (r: Result<
        (OrderId, TradeResult),
        PoolError,
    >)
        requires
            forall|i: int|
                0 <= i < old(self)@.books.len() ==> (#[trigger] old(self)@.books[i]).1.next_order_id
                    < u64::MAX,
        ensures
            ({
                let bi = books_find(old(self)@.books, spec_pair_id(base@, quote@));
                match r {
                    Err(PoolError::PairNotFound) => bi == -1 && final(self)@ == old(self)@,
                    Err(PoolError::OrderError(e)) => {
                        &&& bi >= 0
                        &&& e == OrderError::BelowMinimumSize
                        &&& spec_place_limit(
                            old(self)@.books[bi].1,
                            trader@,
                            side,
                            price@,
                            amount@,
                            old(self)@.config,
                        ) is None
                        &&& final(self)@ == old(self)@
                    },
                    Err(_) => false,
                    Ok(p) => {
                        let pr = spec_place_limit(
                            old(self)@.books[bi].1,
                            trader@,
                            side,
                            price@,
                            amount@,
                            old(self)@.config,
                        );
                        &&& bi >= 0
                        &&& pr is Some
                        &&& p.0.0 == pr->Some_0.0
                        &&& p.1@ == pr->Some_0.1
                        &&& final(self)@ == (PoolV {
                            books: old(self)@.books.update(
                                bi,
                                (old(self)@.books[bi].0, pr->Some_0.2),
                            ),
                            ..old(self)@
                        })
                    },
                }
            }),
    {
        let pair = Pair::new(base, quote);
        let pair_id = pair.id();
        let bi = match find_book_pos(&self.orderbooks, &pair_id) {
            None => {
                return Err(PoolError::PairNotFound);
            },
            Some(i) => i,
        };
        let ghost p0 = self@;
        let (pid, mut book) = self.orderbooks.remove(bi);
        let result = book.place_limit_order(trader, side, price, amount, &self.config);
        self.orderbooks.insert(bi, (pid, book));
        proof {
            assert(book_views(self.orderbooks@) =~~= p0.books.update(
                bi as int,
                book_views(self.orderbooks@)[bi as int],
            ));
        }
        match result {
            Ok(p) => Ok(p),
            Err(e) => {
                proof {
                    assert(book_views(self.orderbooks@) =~~= p0.books);
                }
                Err(PoolError::OrderError(e))
            },
        }
    }

    /// Place a market order on the book of `(base, quote)`.
    pub fn place_market_order(&mut self, base: TokenId, quote: TokenId, trader: Address,
        side: OrderSide, amount: Amount) -> (r: Result<TradeResult, PoolError>)
        requires
            forall|i: int|
                0 <= i < old(self)@.books.len() ==> (#[trigger] old(self)@.books[i]).1.next_order_id
                    < u64::MAX,
        ensures
            ({
                let bi = books_find(old(self)@.books, spec_pair_id(base@, quote@));
                match r {
                    Err(PoolError::PairNotFound) => bi == -1 && final(self)@ == old(self)@,
                    Err(PoolError::OrderError(e)) => {
                        &&& bi >= 0
                        &&& e == OrderError::BelowMinimumSize
                        &&& spec_place_market(
                            old(self)@.books[bi].1,
                            trader@,
                            side,
                            amount@,
                            old(self)@.config,
                        ) is None
                        &&& final(self)@ == old(self)@
                    },
                    Err(_) => false,
                    Ok(trade) => {
                        let pr = spec_place_market(
                            old(self)@.books[bi].1,
                            trader@,
                            side,
                            amount@,
                            old(self)@.config,
                        );
                        &&& bi >= 0
                        &&& pr is Some
                        &&& trade@ == pr->Some_0.0
                        &&& final(self)@ == (PoolV {
                            books: old(self)@.books.update(
                                bi,
                                (old(self)@.books[bi].0, pr->Some_0.1),
                            ),
                            ..old(self)@
                        })
                    },
                }
            }),
    {
        let pair = Pair::new(base, quote);
        let pair_id = pair.id();
        let bi = match find_book_pos(&self.orderbooks, &pair_id) {
            None => {
                return Err(PoolError::PairNotFound);
            },
            Some(i) => i,
        };
        let ghost p0 = self@;
        let (pid, mut book) = self.orderbooks.remove(bi);
        let result = book.place_market_order(trader, side, amount, &self.config);
        self.orderbooks.insert(bi, (pid, book));
        proof {
            assert(book_views(self.orderbooks@) =~~= p0.books.update(
                bi as int,
                book_views(self.orderbooks@)[bi as int],
            ));
        }
        match result {
            Ok(trade) => Ok(trade),
            Err(e) => {
                proof {
                    assert(book_views(self.orderbooks@) =~~= p0.books);
                }
                Err(PoolError::OrderError(e))
            },
        }
    }

    /// Cancel an order on the book of `(base, quote)`.
    pub fn cancel_order(&mut self, base: TokenId, quote: TokenId, order_id: OrderId) -> (r: Result<
        (),
        PoolError,
    >)
        ensures
            ({
                let bi = books_find(old(self)@.books, spec_pair_id(base@, quote@));
                match r {
                    Err(PoolError::PairNotFound) => bi == -1 && final(self)@ == old(self)@,
                    Err(PoolError::OrderError(e)) => {
                        &&& bi >= 0
                        &&& e == OrderError::OrderNotFound
                        &&& spec_cancel(old(self)@.books[bi].1, order_id.0) is None
                        &&& final(self)@ == old(self)@
                    },
                    Err(_) => false,
                    Ok(u) => {
                        let pr = spec_cancel(old(self)@.books[bi].1, order_id.0);
                        &&& bi >= 0
                        &&& pr is Some
                        &&& final(self)@ == (PoolV {
                            books: old(self)@.books.update(
                                bi,
                                (old(self)@.books[bi].0, pr->Some_0.1),
                            ),
                            ..old(self)@
                        })
                    },
                }
            }),
    {
        let pair = Pair::new(base, quote);
        let pair_id = pair.id();
        let bi = match find_book_pos(&self.orderbooks, &pair_id) {
            None => {
                return Err(PoolError::PairNotFound);
            },
            Some(i) => i,
        };
        let ghost p0 = self@;
        let (pid, mut book) = self.orderbooks.remove(bi);
        let result = book.cancel_order(order_id);
        self.orderbooks.insert(bi, (pid, book));
        proof {
            assert(book_views(self.orderbooks@) =~~= p0.books.update(
                bi as int,
                book_views(self.orderbooks@)[bi as int],
            ));
        }
        match result {
            Ok(_order) => Ok(()),
            Err(e) => {
                proof {
                    assert(book_views(self.orderbooks@) =~~= p0.books);
                }
                Err(PoolError::OrderError(e))
            },
        }
    }
}

impl Default for PoolManager {
    /// The default pool manager: the default configuration and no pairs.
    fn default() -> (r: Self)
        ensures
            (r@.books =~= Seq::<(Seq<u8>, BookV)>::empty()),
    {
        Self::new()
    }
}

// ---------------------------------------------------------------------------
// Quotes, functionally
// ---------------------------------------------------------------------------

/// The mathematical content of a quote.
#[verifier::ext_equal]
pub struct QuoteV {
    pub token_in: Seq<u8>,
    pub token_out: Seq<u8>,
    pub amount_in: nat,
    pub amount_out: nat,
    pub route: Seq<RouteHopV>,
    pub price_impact: nat,
    pub total_fee: nat,
}

impl View for Quote {
    type V = QuoteV;

    open spec fn view(&self) -> QuoteV {
        QuoteV {
            token_in: self.token_in@,
            token_out: self.token_out@,
            amount_in: self.amount_in@,
            amount_out: self.amount_out@,
            route: self.route@,
            price_impact: self.price_impact@,
            total_fee: self.total_fee@,
        }
    }
}

/// The price impact of a direct trade, in basis points: the execution price
/// of the simulated trade against the sum of the two best prices, zero
/// whenever any part of the computation is empty or unrepresentable.
pub open spec fn spec_price_impact(b: BookV, cfg: DexConfig, token_in: Seq<u8>,
    amount_in: nat) -> nat {
    if b.bids.len() == 0 || b.asks.len() == 0 {
        0
    } else {
        let bid = b.bids[0].price;
        let ask = b.asks[0].price;
        let mid_num = crate::price::sat256(bid.num + ask.num);
        let mid_den = crate::price::sat256(bid.den + ask.den);
        if mid_den == 0 {
            0
        } else {
            let sim = if b.base == token_in {
                crate::orderbook::spec_simulate_sell(b.bids, amount_in, cfg)
            } else {
                crate::orderbook::spec_simulate_buy(b.asks, amount_in, cfg)
            };
            match sim {
                None => 0,
                Some(p) => {
                    let prod = crate::price::sat256(p.1.num * 10000);
                    let impact = if mid_num == 0 {
                        0
                    } else {
                        prod / mid_num
                    };
                    if impact >= 10000 {
                        (impact - 10000) as nat
                    } else {
                        0nat
                    }
                },
            }
        }
    }
}

/// The direct quote for a swap through the book of the two tokens, when that
/// book exists and its simulation produces output.
pub open spec fn spec_direct_quote(p: PoolV, token_in: Seq<u8>, token_out: Seq<u8>,
    amount_in: nat) -> Option<QuoteV> {
    let bi = books_find(p.books, spec_pair_id(token_in, token_out));
    if bi < 0 {
        None
    } else {
        let b = p.books[bi].1;
        let sim = if b.base == token_in {
            crate::orderbook::spec_simulate_sell(b.bids, amount_in, p.config)
        } else {
            crate::orderbook::spec_simulate_buy(b.asks, amount_in, p.config)
        };
        match sim {
            None => None,
            Some(s) => Some(
                QuoteV {
                    token_in,
                    token_out,
                    amount_in,
                    amount_out: s.0,
                    route: seq![
                        RouteHopV {
                            pair: PairV { base: b.base, quote: b.quote },
                            token_in,
                            token_out,
                        },
                    ],
                    price_impact: spec_price_impact(b, p.config, token_in, amount_in),
                    total_fee: crate::orderbook::spec_taker_fee(p.config.fee_bps, s.0),
                },
            ),
        }
    }
}

/// The output and accumulated fee of the first `k` hops of a route, each
/// hop's fee charged on its output; `None` as soon as a hop has no book or
/// no liquidity.
pub open spec fn spec_eval_route(bs: Seq<(Seq<u8>, BookV)>, cfg: DexConfig,
    route: Seq<RouteHopV>, amount_in: nat, k: int) -> Option<(nat, nat)>
    decreases k,
{
    if k <= 0 {
        Some((amount_in, 0nat))
    } else {
        match spec_eval_route(bs, cfg, route, amount_in, k - 1) {
            None => None,
            Some(st) => {
                match crate::router::spec_hop_output(bs, cfg, route[k - 1], st.0) {
                    None => None,
                    Some(out) => Some(
                        (
                            out,
                            crate::orderbook::sat_add256(
                                st.1,
                                crate::orderbook::spec_taker_fee(cfg.fee_bps, out),
                            ),
                        ),
                    ),
                }
            },
        }
    }
}

/// The quote a route evaluates to, when every hop succeeds.
pub open spec fn spec_eval_quote(bs: Seq<(Seq<u8>, BookV)>, cfg: DexConfig,
    route: Seq<RouteHopV>, amount_in: nat) -> Option<QuoteV> {
    if route.len() == 0 {
        None
    } else {
        match spec_eval_route(bs, cfg, route, amount_in, route.len() as int) {
            None => None,
            Some(st) => Some(
                QuoteV {
                    token_in: route[0].token_in,
                    token_out: route[route.len() - 1].token_out,
                    amount_in,
                    amount_out: st.0,
                    route,
                    price_impact: 0,
                    total_fee: st.1,
                },
            ),
        }
    }
}

/// The best quote among the first `k` routes: the first route with the
/// strictly highest output wins.
pub open spec fn spec_best_quote(bs: Seq<(Seq<u8>, BookV)>, cfg: DexConfig,
    routes: Seq<Seq<RouteHopV>>, amount_in: nat, k: int) -> Option<QuoteV>
    decreases k,
{
    if k <= 0 {
        None
    } else {
        let prev = spec_best_quote(bs, cfg, routes, amount_in, k - 1);
        match spec_eval_quote(bs, cfg, routes[k - 1], amount_in) {
            None => prev,
            Some(q) => match prev {
                None => Some(q),
                Some(bq) => if q.amount_out > bq.amount_out {
                    Some(q)
                } else {
                    prev
                },
            },
        }
    }
}

/// The complete effect of asking for a quote: same tokens and zero amounts
/// are rejected, the direct book is preferred, and otherwise the best routed
/// quote wins; `NoRouteFound` when the router yields nothing at all and
/// `InsufficientLiquidity` when no route survives simulation.
pub open spec fn spec_get_quote(p: PoolV, token_in: Seq<u8>, token_out: Seq<u8>,
    amount_in: nat) -> Result<QuoteV, PoolError> {
    if token_in == token_out {
        Err(PoolError::InvalidPair)
    } else if amount_in == 0 {
        Err(PoolError::InvalidAmount)
    } else {
        match spec_direct_quote(p, token_in, token_out, amount_in) {
            Some(q) => Ok(q),
            None => {
                let routes = crate::router::spec_find_routes(
                    p.router.graph,
                    p.router.pairs,
                    p.books.map_values(|e: (Seq<u8>, BookV)| e.0),
                    token_in,
                    token_out,
                    p.config.max_routing_hops as nat,
                );
                if routes.len() == 0 {
                    Err(PoolError::NoRouteFound)
                } else {
                    match spec_best_quote(p.books, p.config, routes, amount_in,
                        routes.len() as int) {
                        None => Err(PoolError::InsufficientLiquidity),
                        Some(q) => Ok(q),
                    }
                }
            },
        }
    }
}

// ---------------------------------------------------------------------------
// Quotes, executably
// ---------------------------------------------------------------------------

/// The price impact of a direct trade against this book.
fn price_impact_of(book: &OrderBook, token_in: &TokenId, amount_in: Amount,
    config: &DexConfig) -> (r: U256)
    ensures
        r@ == spec_price_impact(book@, *config, token_in@, amount_in@),
{
    let bid = match book.best_bid() {
        None => {
            return U256::zero();
        },
        Some(p) => p,
    };
    let ask = match book.best_ask() {
        None => {
            return U256::zero();
        },
        Some(p) => p,
    };
    let mid_num = bid.numerator.saturating_add(&ask.numerator);
    let mid_den = bid.denominator.saturating_add(&ask.denominator);
    if mid_den.is_zero() {
        return U256::zero();
    }
    let sim = if book.get_pair().base.addr_eq(token_in) {
        book.simulate_market_sell(amount_in, config)
    } else {
        book.simulate_market_buy(amount_in, config)
    };
    let exec_price = match sim {
        None => {
            return U256::zero();
        },
        Some(p) => p.1,
    };
    let prod = exec_price.numerator.saturating_mul(&U256::from_u64(10000));
    let impact = match prod.checked_div(&mid_num) {
        None => U256::zero(),
        Some(v) => v,
    };
    impact.saturating_sub(&U256::from_u64(10000))
}

impl PoolManager {
    /// Get a quote for swapping tokens: the direct book when it has output,
    /// else the best multi-hop route by simulated output.
    pub fn get_quote(&self, token_in: TokenId, token_out: TokenId, amount_in: Amount)
        -> (r: Result<Quote, PoolError>)
        requires
            self@.config.max_routing_hops < usize::MAX,
        ensures
            ({
                let model = spec_get_quote(self@, token_in@, token_out@, amount_in@);
                match r {
                    Ok(q) => model == Ok::<QuoteV, PoolError>(q@),
                    Err(e) => model == Err::<QuoteV, PoolError>(e),
                }
            }),
    {
        if token_in.addr_eq(&token_out) {
            return Err(PoolError::InvalidPair);
        }
        if amount_in.is_zero() {
            return Err(PoolError::InvalidAmount);
        }
        // direct quote
        let pair_id = PairId::from_tokens(token_in, token_out);
        let direct: Option<Quote> = match find_book_pos(&self.orderbooks, &pair_id) {
            None => None,
            Some(bi) => {
                let book = &self.orderbooks[bi].1;
                let sim = if book.get_pair().base.addr_eq(&token_in) {
                    book.simulate_market_sell(amount_in, &self.config)
                } else {
                    book.simulate_market_buy(amount_in, &self.config)
                };
                match sim {
                    None => None,
                    Some(s) => {
                        let mut hops: Vec<RouteHop> = Vec::new();
                        hops.push(RouteHop { pair: book.get_pair(), token_in, token_out });
                        let q = Quote {
                            token_in,
                            token_out,
                            amount_in,
                            amount_out: s.0,
                            route: Route { hops },
                            price_impact: price_impact_of(book, &token_in, amount_in,
                                &self.config),
                            total_fee: U256::from_u128(
                                self.config.calculate_fee(s.0.to_u128_saturating()),
                            ),
                        };
                        proof {
                            assert(q.route@ =~= seq![
                                RouteHopV {
                                    pair: PairV {
                                        base: self@.books[bi as int].1.base,
                                        quote: self@.books[bi as int].1.quote,
                                    },
                                    token_in: token_in@,
                                    token_out: token_out@,
                                },
                            ]);
                            assert(q@ =~~= spec_direct_quote(
                                self@,
                                token_in@,
                                token_out@,
                                amount_in@,
                            )->Some_0);
                        }
                        Some(q)
                    },
                }
            },
        };
        match direct {
            Some(q) => {
                return Ok(q);
            },
            None => {
            },
        }
        // routed quote
        let ghost bs = self@.books;
        proof {
            assert(book_ids(self.orderbooks@) =~= self@.books.map_values(
                |e: (Seq<u8>, BookV)| e.0,
            ));
        }
        let routes = self.router.find_routes(
            token_in,
            token_out,
            self.config.max_routing_hops,
            &self.orderbooks,
        );
        if routes.len() == 0 {
            return Err(PoolError::NoRouteFound);
        }
        let ghost rsv = crate::router::route_views(routes@);
        let mut best: Option<Quote> = None;
        let mut i: usize = 0;
        while i < routes.len()
            invariant
                i <= routes@.len(),
                bs == self@.books,
                rsv == crate::router::route_views(routes@),
                self@.config == self.config,
                ({
                    let b = spec_best_quote(bs, self.config, rsv, amount_in@, i as int);
                    match best {
                        Some(q) => b == Some(q@),
                        None => b is None,
                    }
                }),
            decreases routes@.len() - i,
        {
            proof {
                assert(rsv[i as int] == routes@[i as int]@);
            }
            let evaluated = self.evaluate_route(&routes[i], amount_in);
            match evaluated {
                None => {
                },
                Some(q) => {
                    let replace = match &best {
                        None => true,
                        Some(bq) => bq.amount_out.lt(&q.amount_out),
                    };
                    if replace {
                        best = Some(q);
                    }
                },
            }
            i += 1;
        }
        match best {
            None => Err(PoolError::InsufficientLiquidity),
            Some(q) => Ok(q),
        }
    }

    /// Evaluate one route: chain the hop simulations, charging each hop's
    /// fee on its output.
    fn evaluate_route(&self, route: &Route, amount_in: Amount) -> (r: Option<Quote>)
        ensures
            ({
                let model = spec_eval_quote(self@.books, self@.config, route@, amount_in@);
                match r {
                    Some(q) => model == Some(q@),
                    None => model is None,
                }
            }),
    {
        let ghost bs = self@.books;
        let ghost rv = route@;
        let mut current = amount_in;
        let mut total_fee = U256::zero();
        let mut i: usize = 0;
        while i < route.hops.len()
            invariant
                i <= route.hops@.len(),
                bs == self@.books,
                rv == route@,
                self@.config == self.config,
                spec_eval_route(bs, self.config, rv, amount_in@, i as int) == Some(
                    (current@, total_fee@),
                ),
            decreases route.hops@.len() - i,
        {
            let hop = route.hops[i];
            proof {
                assert(rv[i as int] == hop@);
            }
            let pid = hop.pair.id();
            let out = match find_book_pos(&self.orderbooks, &pid) {
                None => None,
                Some(bi) => {
                    let book = &self.orderbooks[bi].1;
                    if book.get_pair().base.addr_eq(&hop.token_in) {
                        match book.simulate_market_sell(current, &self.config) {
                            None => None,
                            Some(p) => Some(p.0),
                        }
                    } else {
                        match book.simulate_market_buy(current, &self.config) {
                            None => None,
                            Some(p) => Some(p.0),
                        }
                    }
                },
            };
            match out {
                None => {
                    proof {
                        lemma_eval_route_freeze(
                            bs,
                            self.config,
                            rv,
                            amount_in@,
                            i as int + 1,
                            rv.len() as int,
                        );
                    }
                    return None;
                },
                Some(v) => {
                    let hop_fee = U256::from_u128(
                        self.config.calculate_fee(v.to_u128_saturating()),
                    );
                    total_fee = total_fee.saturating_add(&hop_fee);
                    current = v;
                },
            }
            i += 1;
        }
        if route.hops.len() == 0 {
            return None;
        }
        let first_in = route.hops[0].token_in;
        let last_out = route.hops[route.hops.len() - 1].token_out;
        let q = Quote {
            token_in: first_in,
            token_out: last_out,
            amount_in,
            amount_out: current,
            route: Route { hops: crate::router::copy_hops(&route.hops) },
            price_impact: U256::zero(),
            total_fee,
        };
        proof {
            assert(rv[0] == route.hops@[0]@);
            assert(rv[rv.len() - 1] == route.hops@[route.hops@.len() - 1]@);
            assert(q.route@ =~= rv);
            assert(q@ =~~= spec_eval_quote(bs, self.config, rv, amount_in@)->Some_0);
        }
        Some(q)
    }
}

/// Once a hop fails, the rest of the route evaluates to nothing.
proof fn lemma_eval_route_freeze(bs: Seq<(Seq<u8>, BookV)>, cfg: DexConfig,
    route: Seq<RouteHopV>, amount_in: nat, k1: int, k2: int)
    requires
        0 <= k1 <= k2,
        spec_eval_route(bs, cfg, route, amount_in, k1) is None,
    ensures
        spec_eval_route(bs, cfg, route, amount_in, k2) is None,
    decreases k2 - k1,
{
    if k2 > k1 {
        lemma_eval_route_freeze(bs, cfg, route, amount_in, k1, k2 - 1);
    }
}

// ---------------------------------------------------------------------------
// Swap execution, functionally
// ---------------------------------------------------------------------------

/// The saturating sum over the first `k` fills of the output leg: the quote
/// amount for a sell, the base amount for a buy.
pub open spec fn spec_fills_output(fills: Seq<crate::orderbook::FillV>, side: OrderSide,
    k: int) -> nat
    decreases k,
{
    if k <= 0 {
        0
    } else {
        let p = spec_fills_output(fills, side, k - 1);
        crate::orderbook::sat_add256(
            p,
            if side == OrderSide::Sell {
                fills[k - 1].quote
            } else {
                fills[k - 1].base
            },
        )
    }
}

/// The running state of a swap's execution: the books, the trades so far,
/// the amount carried into the next hop, and the first error if any.
#[verifier::ext_equal]
pub struct ExecHopsV {
    pub books: Seq<(Seq<u8>, BookV)>,
    pub trades: Seq<TradeResultV>,
    pub current: nat,
    pub error: Option<PoolError>,
}

/// One hop of a swap: a market order on the hop's book, selling when the
/// hop enters with the base token, buying otherwise; the output of the fills
/// becomes the amount carried into the next hop.
pub open spec fn spec_exec_hop(st: ExecHopsV, cfg: DexConfig, trader: Seq<u8>, hop: RouteHopV)
    -> ExecHopsV {
    if st.error is Some {
        st
    } else {
        let id = spec_pair_id(hop.pair.base, hop.pair.quote);
        let bi = books_find(st.books, id);
        if bi < 0 {
            ExecHopsV { error: Some(PoolError::PairNotFound), ..st }
        } else {
            let b = st.books[bi].1;
            let side = if b.base == hop.token_in {
                OrderSide::Sell
            } else {
                OrderSide::Buy
            };
            match spec_place_market(b, trader, side, st.current, cfg) {
                None => ExecHopsV {
                    error: Some(PoolError::OrderError(OrderError::BelowMinimumSize)),
                    ..st
                },
                Some(pr) => ExecHopsV {
                    books: st.books.update(bi, (st.books[bi].0, pr.1)),
                    trades: st.trades.push(pr.0),
                    current: spec_fills_output(pr.0.fills, side, pr.0.fills.len() as int),
                    error: None,
                },
            }
        }
    }
}

/// The first `k` hops of a swap, chained.
pub open spec fn spec_exec_hops(st: ExecHopsV, cfg: DexConfig, trader: Seq<u8>,
    route: Seq<RouteHopV>, k: int) -> ExecHopsV
    decreases k,
{
    if k <= 0 {
        st
    } else {
        spec_exec_hop(spec_exec_hops(st, cfg, trader, route, k - 1), cfg, trader, route[k - 1])
    }
}

/// A found book lies inside the table.
proof fn lemma_books_find_range(bs: Seq<(Seq<u8>, BookV)>, id: Seq<u8>)
    ensures
        books_find(bs, id) < bs.len(),
        books_find(bs, id) >= -1,
        books_find(bs, id) >= 0 ==> bs[books_find(bs, id)].0 == id,
    decreases bs.len(),
{
    if bs.len() > 0 {
        lemma_books_find_range(bs.skip(1), id);
    }
}

/// Once a hop fails, the remaining hops change nothing.
proof fn lemma_exec_hops_freeze(st: ExecHopsV, cfg: DexConfig, trader: Seq<u8>,
    route: Seq<RouteHopV>, k1: int, k2: int)
    requires
        0 <= k1 <= k2,
        spec_exec_hops(st, cfg, trader, route, k1).error is Some,
    ensures
        spec_exec_hops(st, cfg, trader, route, k2) == spec_exec_hops(st, cfg, trader, route, k1),
    decreases k2 - k1,
{
    if k2 > k1 {
        lemma_exec_hops_freeze(st, cfg, trader, route, k1, k2 - 1);
    }
}

/// Each hop bumps one book's id counter by at most one and leaves the others
/// alone.
proof fn lemma_exec_hops_headroom(st: ExecHopsV, cfg: DexConfig, trader: Seq<u8>,
    route: Seq<RouteHopV>, k: int)
    requires
        k >= 0,
    ensures
        ({
            let r = spec_exec_hops(st, cfg, trader, route, k);
            &&& r.books.len() == st.books.len()
            &&& forall|i: int|
                0 <= i < st.books.len() ==> (#[trigger] r.books[i]).1.next_order_id
                    <= st.books[i].1.next_order_id + k && r.books[i].0 == st.books[i].0
        }),
    decreases k,
{
    if k > 0 {
        lemma_exec_hops_headroom(st, cfg, trader, route, k - 1);
        let prev = spec_exec_hops(st, cfg, trader, route, k - 1);
        let hop = route[k - 1];
        if prev.error is None {
            lemma_books_find_range(prev.books, spec_pair_id(hop.pair.base, hop.pair.quote));
        }
    }
}

/// The initial state of a swap's execution.
pub open spec fn exec_hops_init(books: Seq<(Seq<u8>, BookV)>, amount_in: nat) -> ExecHopsV {
    ExecHopsV { books, trades: Seq::empty(), current: amount_in, error: None }
}

/// The complete effect of a swap: the quote is taken first, slippage is
/// enforced against it, and then the quoted route is executed hop by hop
/// with market orders; a failing hop surfaces its error with the earlier
/// hops' effects kept (there is no rollback).
pub open spec fn spec_execute_swap(p: PoolV, trader: Seq<u8>, token_in: Seq<u8>,
    token_out: Seq<u8>, amount_in: nat, min_amount_out: nat) -> (Result<SwapResultV, PoolError>, PoolV) {
    match spec_get_quote(p, token_in, token_out, amount_in) {
        Err(e) => (Err(e), p),
        Ok(q) => {
            if q.amount_out < min_amount_out {
                (Err(PoolError::SlippageExceeded), p)
            } else {
                let h = spec_exec_hops(
                    exec_hops_init(p.books, amount_in),
                    p.config,
                    trader,
                    q.route,
                    q.route.len() as int,
                );
                let p2 = PoolV { books: h.books, ..p };
                match h.error {
                    Some(e) => (Err(e), p2),
                    None => (
                        Ok(
                            SwapResultV {
                                amount_in,
                                amount_out: h.current,
                                route: q.route,
                                trades: h.trades,
                            },
                        ),
                        p2,
                    ),
                }
            }
        },
    }
}

// ---------------------------------------------------------------------------
// Swap execution, executably
// ---------------------------------------------------------------------------

/// The saturating output of a trade's fills.
fn fills_output(trade: &TradeResult, side: OrderSide) -> (r: Amount)
    ensures
        r@ == spec_fills_output(trade@.fills, side, trade@.fills.len() as int),
{
    let mut total = U256::zero();
    let mut i: usize = 0;
    while i < trade.fills.len()
        invariant
            i <= trade.fills@.len(),
            total@ == spec_fills_output(trade@.fills, side, i as int),
        decreases trade.fills@.len() - i,
    {
        proof {
            assert(trade@.fills[i as int] == trade.fills@[i as int]@);
        }
        let leg = match side {
            OrderSide::Sell => trade.fills[i].quote_amount,
            OrderSide::Buy => trade.fills[i].base_amount,
        };
        total = total.saturating_add(&leg);
        i += 1;
    }
    total
}

impl PoolManager {
    /// Execute a swap along the best quoted route: fails with
    /// `SlippageExceeded` when the quote is below `min_amount_out`, and
    /// otherwise issues one market order per hop, each hop's output becoming
    /// the next hop's input.
    #[verifier::rlimit(100)]
    pub fn execute_swap(&mut self, trader: Address, token_in: TokenId, token_out: TokenId,
        amount_in: Amount, min_amount_out: Amount) -> (r: Result<SwapResult, PoolError>)
        requires
            old(self)@.config.max_routing_hops < usize::MAX,
            ({
                let q = spec_get_quote(old(self)@, token_in@, token_out@, amount_in@);
                q matches Ok(qq) ==> forall|i: int|
                    0 <= i < old(self)@.books.len()
                        ==> (#[trigger] old(self)@.books[i]).1.next_order_id + qq.route.len()
                        <= u64::MAX
            }),
        ensures
            ({
                let m = spec_execute_swap(
                    old(self)@,
                    trader@,
                    token_in@,
                    token_out@,
                    amount_in@,
                    min_amount_out@,
                );
                &&& final(self)@ == m.1
                &&& match r {
                    Ok(sr) => m.0 == Ok::<SwapResultV, PoolError>(sr@),
                    Err(e) => m.0 == Err::<SwapResultV, PoolError>(e),
                }
            }),
    {
        let ghost p0 = self@;
        let quote = match self.get_quote(token_in, token_out, amount_in) {
            Err(e) => {
                return Err(e);
            },
            Ok(q) => q,
        };
        if quote.amount_out.lt(&min_amount_out) {
            return Err(PoolError::SlippageExceeded);
        }
        let ghost qv = quote@;
        let ghost st0 = exec_hops_init(p0.books, amount_in@);
        let mut current = amount_in;
        let mut trades: Vec<TradeResult> = Vec::new();
        let mut hi: usize = 0;
        proof {
            assert(trades@.map_values(|t: TradeResult| t@) =~= Seq::<TradeResultV>::empty());
        }
        while hi < quote.route.hops.len()
            invariant
                hi <= quote.route.hops@.len(),
                qv == quote@,
                qv.route.len() == quote.route.hops@.len(),
                self@.config == p0.config,
                self@.token_pairs == p0.token_pairs,
                self@.router == p0.router,
                st0 == exec_hops_init(p0.books, amount_in@),
                p0 == old(self)@,
                spec_get_quote(p0, token_in@, token_out@, amount_in@) == Ok::<QuoteV, PoolError>(
                    qv,
                ),
                !(qv.amount_out < min_amount_out@),
                forall|i: int|
                    0 <= i < p0.books.len() ==> (#[trigger] p0.books[i]).1.next_order_id
                        + qv.route.len() <= u64::MAX,
                ({
                    let h = spec_exec_hops(st0, p0.config, trader@, qv.route, hi as int);
                    &&& h.error is None
                    &&& self@.books == h.books
                    &&& trades@.map_values(|t: TradeResult| t@) == h.trades
                    &&& current@ == h.current
                }),
            decreases quote.route.hops@.len() - hi,
        {
            let ghost h_pre = spec_exec_hops(st0, p0.config, trader@, qv.route, hi as int);
            proof {
                lemma_exec_hops_headroom(st0, p0.config, trader@, qv.route, hi as int);
            }
            let hop = quote.route.hops[hi];
            proof {
                assert(qv.route[hi as int] == hop@);
            }
            let pid = hop.pair.id();
            let bi = match find_book_pos(&self.orderbooks, &pid) {
                None => {
                    proof {
                        let hnext = spec_exec_hops(st0, p0.config, trader@, qv.route, hi as int + 1);
                        assert(hnext == spec_exec_hop(h_pre, p0.config, trader@, qv.route[hi as int]));
                        assert(pid@ == spec_pair_id(
                            qv.route[hi as int].pair.base,
                            qv.route[hi as int].pair.quote,
                        ));
                        assert(books_find(h_pre.books, pid@) == -1);
                        assert(hnext.error == Some(PoolError::PairNotFound));
                        assert(hnext.books == h_pre.books);
                        lemma_exec_hops_freeze(
                            st0,
                            p0.config,
                            trader@,
                            qv.route,
                            hi as int + 1,
                            qv.route.len() as int,
                        );
                        let m = spec_execute_swap(
                            p0,
                            trader@,
                            token_in@,
                            token_out@,
                            amount_in@,
                            min_amount_out@,
                        );
                        assert(self@ =~~= m.1);
                    }
                    return Err(PoolError::PairNotFound);
                },
                Some(i) => i,
            };
            let ghost books_pre = self@.books;
            proof {
                lemma_books_find_range(books_pre, pid@);
                assert(books_pre[bi as int].1.next_order_id <= p0.books[bi as int].1.next_order_id
                    + hi);
            }
            let (pidv, mut book) = self.orderbooks.remove(bi);
            proof {
                assert(book@ == books_pre[bi as int].1);
                assert(pidv@ == books_pre[bi as int].0);
            }
            let side = if book.get_pair().base.addr_eq(&hop.token_in) {
                OrderSide::Sell
            } else {
                OrderSide::Buy
            };
            let placed = book.place_market_order(trader, side, current, &self.config);
            self.orderbooks.insert(bi, (pidv, book));
            proof {
                assert(book_views(self.orderbooks@) =~~= books_pre.update(
                    bi as int,
                    book_views(self.orderbooks@)[bi as int],
                ));
            }
            let trade = match placed {
                Err(e) => {
                    proof {
                        assert(book_views(self.orderbooks@) =~~= books_pre);
                        lemma_exec_hops_freeze(
                            st0,
                            p0.config,
                            trader@,
                            qv.route,
                            hi as int + 1,
                            qv.route.len() as int,
                        );
                        let m = spec_execute_swap(
                            p0,
                            trader@,
                            token_in@,
                            token_out@,
                            amount_in@,
                            min_amount_out@,
                        );
                        assert(self@ =~~= m.1);
                    }
                    return Err(PoolError::OrderError(e));
                },
                Ok(t) => t,
            };
            let output = fills_output(&trade, side);
            current = output;
            let ghost tr0 = trades@;
            trades.push(trade);
            proof {
                assert(trades@.map_values(|t: TradeResult| t@) =~= tr0.map_values(
                    |t: TradeResult| t@,
                ).push(trades@.last()@));
            }
            hi += 1;
        }
        let r = SwapResult { amount_in, amount_out: current, route: quote.route, trades };
        proof {
            let h = spec_exec_hops(st0, p0.config, trader@, qv.route, qv.route.len() as int);
            assert(r@ =~~= SwapResultV {
                amount_in: amount_in@,
                amount_out: h.current,
                route: qv.route,
                trades: h.trades,
            });
            let m = spec_execute_swap(
                p0,
                trader@,
                token_in@,
                token_out@,
                amount_in@,
                min_amount_out@,
            );
            assert(self@ =~~= m.1);
        }
        Ok(r)
    }

    /// Get all pairs containing a specific token, in the order their ids
    /// were recorded.
    pub fn pairs_for_token(&self, token: TokenId) -> (r: Vec<Pair>)
        ensures
            r@.map_values(|p: Pair| pair_view(p)) == spec_pairs_for_token(self@, token@),
    {
        let ghost tps = self@.token_pairs;
        let mut r: Vec<Pair> = Vec::new();
        let mut i: usize = 0;
        while i < self.token_pairs.len()
            invariant
                i <= self.token_pairs@.len(),
                tps == self@.token_pairs,
                r@.len() == 0,
                forall|j: int| 0 <= j < i ==> (#[trigger] tps[j]).token != token@,
            decreases self.token_pairs@.len() - i,
        {
            if self.token_pairs[i].token.addr_eq(&token) {
                proof {
                    assert(tps[i as int] == self.token_pairs@[i as int]@);
                    lemma_tp_find_at(tps, token@, i as int);
                }
                let ids = &self.token_pairs[i].pair_ids;
                let mut k: usize = 0;
                let mut out: Vec<Pair> = Vec::new();
                while k < ids.len()
                    invariant
                        k <= ids@.len(),
                        i < self.token_pairs@.len(),
                        tps == self@.token_pairs,
                        ids@ == self.token_pairs@[i as int].pair_ids@,
                        ids@.map_values(|p: PairId| p@) == tps[i as int].pair_ids,
                        out@.map_values(|p: Pair| pair_view(p)) == pft_collect(
                            self@.books,
                            tps[i as int].pair_ids,
                            k as int,
                        ),
                    decreases ids@.len() - k,
                {
                    proof {
                        assert(tps[i as int].pair_ids[k as int] == ids@[k as int]@);
                    }
                    match find_book_pos(&self.orderbooks, &ids[k]) {
                        None => {
                        },
                        Some(bi) => {
                            let ghost o0 = out@;
                            let p = self.orderbooks[bi].1.get_pair();
                            out.push(p);
                            proof {
                                assert(out@.map_values(|x: Pair| pair_view(x)) =~= o0.map_values(
                                    |x: Pair| pair_view(x),
                                ).push(pair_view(p)));
                            }
                        },
                    }
                    k += 1;
                }
                return out;
            }
            i += 1;
        }
        proof {
            lemma_tp_find_none(tps, token@);
            assert(r@.map_values(|p: Pair| pair_view(p)) =~= Seq::<PairV>::empty());
        }
        r
    }

    /// Get statistics for a specific pair, when its book exists.
    pub fn pair_stats(&self, base: TokenId, quote: TokenId) -> (r: Option<PairStats>)
        ensures
            ({
                let bi = books_find(self@.books, spec_pair_id(base@, quote@));
                match r {
                    Some(st) => bi >= 0 && stats_match(self@.books[bi].1, st),
                    None => bi == -1,
                }
            }),
    {
        let pair_id = PairId::from_tokens(base, quote);
        match find_book_pos(&self.orderbooks, &pair_id) {
            None => None,
            Some(bi) => Some(self.orderbooks[bi].1.stats()),
        }
    }

    /// Get statistics for all pairs, in creation order.
    pub fn all_stats(&self) -> (r: Vec<(Pair, PairStats)>)
        ensures
            r@.len() == self@.books.len(),
            forall|i: int|
                0 <= i < r@.len() ==> {
                    &&& pair_view((#[trigger] r@[i]).0) == (PairV {
                        base: self@.books[i].1.base,
                        quote: self@.books[i].1.quote,
                    })
                    &&& stats_match(self@.books[i].1, r@[i].1)
                },
    {
        let mut r: Vec<(Pair, PairStats)> = Vec::new();
        let mut i: usize = 0;
        while i < self.orderbooks.len()
            invariant
                i <= self.orderbooks@.len(),
                r@.len() == i,
                forall|j: int|
                    0 <= j < i ==> {
                        &&& pair_view((#[trigger] r@[j]).0) == (PairV {
                            base: self@.books[j].1.base,
                            quote: self@.books[j].1.quote,
                        })
                        &&& stats_match(self@.books[j].1, r@[j].1)
                    },
            decreases self.orderbooks@.len() - i,
        {
            let book = &self.orderbooks[i].1;
            proof {
                assert(self@.books[i as int].1 == self.orderbooks@[i as int].1@);
            }
            let st = book.stats();
            r.push((book.get_pair(), st));
            i += 1;
        }
        r
    }
}

/// Whether a statistics record describes a book: the best price numerators,
/// the volume counter, and the saturating order counts per side.
pub open spec fn stats_match(b: BookV, st: PairStats) -> bool {
    &&& match st.best_bid {
        Some(v) => b.bids.len() > 0 && v@ == b.bids[0].price.num,
        None => b.bids.len() == 0,
    }
    &&& match st.best_ask {
        Some(v) => b.asks.len() > 0 && v@ == b.asks[0].price.num,
        None => b.asks.len() == 0,
    }
    &&& st.total_volume@ == b.total_volume
    &&& st.buy_order_count == crate::orderbook::side_order_count(b.bids, b.bids.len() as int)
    &&& st.sell_order_count == crate::orderbook::side_order_count(b.asks, b.asks.len() as int)
}

/// The pairs collected for the first `k` recorded ids of a token: each id
/// with a book contributes that book's pair.
pub open spec fn pft_collect(books: Seq<(Seq<u8>, BookV)>, ids: Seq<Seq<u8>>, k: int)
    -> Seq<PairV>
    decreases k,
{
    if k <= 0 {
        Seq::empty()
    } else {
        let prev = pft_collect(books, ids, k - 1);
        let bi = books_find(books, ids[k - 1]);
        if bi < 0 {
            prev
        } else {
            prev.push(PairV { base: books[bi].1.base, quote: books[bi].1.quote })
        }
    }
}

/// All pairs containing a token: nothing for an unknown token, else the
/// collection over its recorded pair ids.
pub open spec fn spec_pairs_for_token(p: PoolV, t: Seq<u8>) -> Seq<PairV> {
    let ti = tp_find(p.token_pairs, t);
    if ti < 0 {
        Seq::empty()
    } else {
        pft_collect(p.books, p.token_pairs[ti].pair_ids, p.token_pairs[ti].pair_ids.len() as int)
    }
}

} // verus!
