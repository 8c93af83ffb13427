//! Orderbook with price-time-priority matching.
//!
//! Price levels are kept in sorted vectors: bids descending by price
//! (highest first), asks ascending (lowest first), under the exact
//! cross-multiplication order. Each level holds a FIFO queue of active
//! orders. The behaviour of matching, placement and cancellation is stated
//! by a functional model (`spec_sweep` and friends) over the book's view.

use vstd::prelude::*;
use crate::amount::{u256_bound, Amount, U256};
use crate::config::{spec_fee, DexConfig};
use crate::order::{is_active_v, spec_fill, Order, OrderId, OrderSide, OrderStatus, OrderV};
use crate::pair::{Pair, PairStats};
use crate::price::{price_cmp, price_lt, Price, PriceV};
use crate::token::Address;
use core::cmp::Ordering;

verus! {

// ---------------------------------------------------------------------------
// Result types
// ---------------------------------------------------------------------------

/// A single fill (partial or complete match between two orders).
#[derive(Debug, Clone, Copy)]
pub struct Fill {
    /// The maker order ID.
    pub maker_order_id: OrderId,
    /// The maker's address (for token transfers).
    pub maker: Address,
    /// Amount of base token traded.
    pub base_amount: Amount,
    /// Amount of quote token traded.
    pub quote_amount: Amount,
    /// Price at which the trade occurred.
    pub price: Price,
    /// Fee paid by the taker.
    pub taker_fee: Amount,
    /// Fee paid by the maker.
    pub maker_fee: Amount,
}

/// The mathematical content of a fill.
#[verifier::ext_equal]
pub struct FillV {
    pub maker_order_id: u64,
    pub maker: Seq<u8>,
    pub base: nat,
    pub quote: nat,
    pub price: PriceV,
    pub taker_fee: nat,
    pub maker_fee: nat,
}

impl View for Fill {
    type V = FillV;

    open spec fn view(&self) -> FillV {
        FillV {
            maker_order_id: self.maker_order_id.0,
            maker: self.maker@,
            base: self.base_amount@,
            quote: self.quote_amount@,
            price: self.price@,
            taker_fee: self.taker_fee@,
            maker_fee: self.maker_fee@,
        }
    }
}

/// Result of executing a trade.
#[derive(Debug, Clone)]
pub struct TradeResult {
    /// The taker order ID.
    pub taker_order_id: OrderId,
    /// List of fills that occurred.
    pub fills: Vec<Fill>,
    /// Remaining unfilled amount of the taker order.
    pub remaining_amount: Amount,
    /// Whether the order was fully filled.
    pub fully_filled: bool,
}

/// The mathematical content of a trade result.
#[verifier::ext_equal]
pub struct TradeResultV {
    pub taker_order_id: u64,
    pub fills: Seq<FillV>,
    pub remaining: nat,
    pub fully_filled: bool,
}

impl View for TradeResult {
    type V = TradeResultV;

    open spec fn view(&self) -> TradeResultV {
        TradeResultV {
            taker_order_id: self.taker_order_id.0,
            fills: self.fills@.map_values(|f: Fill| f@),
            remaining: self.remaining_amount@,
            fully_filled: self.fully_filled,
        }
    }
}

/// Errors that can occur when working with orders.
#[derive(Debug, Clone, Copy, PartialEq, Eq, Structural)]
pub enum OrderError {
    /// Order amount is below the minimum size.
    BelowMinimumSize,
    /// Order was not found.
    OrderNotFound,
    /// Insufficient liquidity for the trade.
    InsufficientLiquidity,
    /// Invalid price.
    InvalidPrice,
}

// ---------------------------------------------------------------------------
// Book representation
// ---------------------------------------------------------------------------

/// One price level: a FIFO queue of orders at one key price.
#[derive(Debug)]
struct Level {
    price: Price,
    orders: Vec<Order>,
}

/// The mathematical content of a price level.
#[verifier::ext_equal]
pub struct LevelV {
    pub price: PriceV,
    pub orders: Seq<OrderV>,
}

impl View for Level {
    type V = LevelV;

    closed spec fn view(&self) -> LevelV {
        LevelV { price: self.price@, orders: self.orders@.map_values(|o: Order| o@) }
    }
}

/// One entry of the order index: the locator of an active order.
#[derive(Debug, Clone, Copy)]
struct IndexEntry {
    id: OrderId,
    side: OrderSide,
    price: Price,
}

/// The mathematical content of an index entry.
#[verifier::ext_equal]
pub struct IndexEntryV {
    pub id: u64,
    pub side: OrderSide,
    pub price: PriceV,
}

impl View for IndexEntry {
    type V = IndexEntryV;

    closed spec fn view(&self) -> IndexEntryV {
        IndexEntryV { id: self.id.0, side: self.side, price: self.price@ }
    }
}

/// The mathematical content of an orderbook.
#[verifier::ext_equal]
pub struct BookV {
    pub base: Seq<u8>,
    pub quote: Seq<u8>,
    pub bids: Seq<LevelV>,
    pub asks: Seq<LevelV>,
    pub index: Seq<IndexEntryV>,
    pub next_order_id: u64,
    pub total_volume: nat,
}

/// An orderbook for a single trading pair.
///
/// Buy orders (bids) are sorted descending by price (highest first); sell
/// orders (asks) ascending (lowest first). An index maps each resting
/// order's id to its side and price.
#[derive(Debug)]
pub struct OrderBook {
    /// The trading pair.
    pub pair: Pair,
    bids: Vec<Level>,
    asks: Vec<Level>,
    orders: Vec<IndexEntry>,
    next_order_id: u64,
    total_volume: Amount,
}

impl View for OrderBook {
    type V = BookV;

    closed spec fn view(&self) -> BookV {
        BookV {
            base: self.pair.base@,
            quote: self.pair.quote@,
            bids: self.bids@.map_values(|l: Level| l@),
            asks: self.asks@.map_values(|l: Level| l@),
            index: self.orders@.map_values(|e: IndexEntry| e@),
            next_order_id: self.next_order_id,
            total_volume: self.total_volume@,
        }
    }
}

// ---------------------------------------------------------------------------
// The functional model of matching
// ---------------------------------------------------------------------------

/// Addition clamped at 2^256 - 1, the semantics of the volume counter.
pub open spec fn sat_add256(a: nat, b: nat) -> nat {
    if a + b < u256_bound() {
        a + b
    } else {
        (u256_bound() - 1) as nat
    }
}

/// The smaller of two naturals.
pub open spec fn min_nat(a: nat, b: nat) -> nat {
    if a <= b {
        a
    } else {
        b
    }
}

/// The quote leg of a fill: the maker price applied to the base amount, and
/// zero when that computation is unrepresentable.
pub open spec fn quote_or_zero(p: PriceV, base: nat) -> nat {
    match crate::price::spec_quote_amount(p, base) {
        Some(q) => q,
        None => 0,
    }
}

/// The taker fee on a quote amount: the amount is clamped into 128 bits and
/// charged `fee_bps` basis points.
pub open spec fn spec_taker_fee(fee_bps: u32, quote: nat) -> nat {
    let q: u128 = if quote <= u128::MAX {
        quote as u128
    } else {
        u128::MAX
    };
    spec_fee(fee_bps, q) as nat
}

/// Whether the index has an entry for `id`.
pub open spec fn idx_has(s: Seq<IndexEntryV>, id: u64) -> bool {
    exists|i: int| 0 <= i < s.len() && s[i].id == id
}

/// The index with every entry for `id` removed.
pub open spec fn idx_remove(s: Seq<IndexEntryV>, id: u64) -> Seq<IndexEntryV>
    decreases s.len(),
{
    if s.len() == 0 {
        s
    } else {
        let rest = idx_remove(s.drop_last(), id);
        if s.last().id == id {
            rest
        } else {
            rest.push(s.last())
        }
    }
}

/// The running state of one match: the incoming order, the fills so far, the
/// volume counter, and the order index.
#[verifier::ext_equal]
pub struct MatchStateV {
    pub taker: OrderV,
    pub fills: Seq<FillV>,
    pub volume: nat,
    pub index: Seq<IndexEntryV>,
}

/// Whether the matching loop passes over this maker without filling:
/// the taker is exhausted, the maker is inactive, or the fill would be a
/// disallowed self-trade.
pub open spec fn spec_skip_maker(cfg: DexConfig, s: MatchStateV, m: OrderV) -> bool {
    ||| s.taker.remaining == 0
    ||| !is_active_v(m)
    ||| (!cfg.allow_self_trade && m.trader == s.taker.trader)
}

/// One fill of the taker against maker `m`: the base amount is the smaller
/// remaining, the quote is the maker price applied to it (zero on overflow),
/// the taker pays the fee, the maker pays none, the volume counter grows by
/// the base amount, and a maker that became terminal leaves the index.
pub open spec fn spec_step_fill(cfg: DexConfig, s: MatchStateV, m: OrderV) -> (MatchStateV, OrderV) {
    let base = min_nat(s.taker.remaining, m.remaining);
    let quote = quote_or_zero(m.price, base);
    let fee = spec_taker_fee(cfg.fee_bps, quote);
    let taker2 = spec_fill(s.taker, base);
    let m2 = spec_fill(m, base);
    let fill = FillV {
        maker_order_id: m.id,
        maker: m.trader,
        base,
        quote,
        price: m.price,
        taker_fee: fee,
        maker_fee: 0,
    };
    let index2 = if is_active_v(m2) {
        s.index
    } else {
        idx_remove(s.index, m.id)
    };
    (
        MatchStateV {
            taker: taker2,
            fills: s.fills.push(fill),
            volume: sat_add256(s.volume, base),
            index: index2,
        },
        m2,
    )
}

/// One maker of a level queue: either passed over (kept if it is active) or
/// filled (kept if still active afterwards).
pub open spec fn spec_step_maker(cfg: DexConfig, s: MatchStateV, kept: Seq<OrderV>, m: OrderV)
    -> (MatchStateV, Seq<OrderV>) {
    if spec_skip_maker(cfg, s, m) {
        (s, if is_active_v(m) { kept.push(m) } else { kept })
    } else {
        let (s2, m2) = spec_step_fill(cfg, s, m);
        (s2, if is_active_v(m2) { kept.push(m2) } else { kept })
    }
}

/// The first `n` makers of a level queue, walked in FIFO order; the second
/// component is the queue that remains at the level.
pub open spec fn spec_match_queue(cfg: DexConfig, s: MatchStateV, q: Seq<OrderV>, n: int)
    -> (MatchStateV, Seq<OrderV>)
    decreases n,
{
    if n <= 0 {
        (s, Seq::empty())
    } else {
        let r = spec_match_queue(cfg, s, q, n - 1);
        spec_step_maker(cfg, r.0, r.1, q[n - 1])
    }
}

/// Whether the taker's limit price crosses a level at `price`: a buy needs
/// its price at least the level's, a sell at most.
pub open spec fn spec_crosses(taker: OrderV, price: PriceV) -> bool {
    if taker.side == OrderSide::Buy {
        price_cmp(taker.price, price) != Ordering::Less
    } else {
        price_cmp(taker.price, price) != Ordering::Greater
    }
}

/// The running state of a sweep over the opposite side's levels.
#[verifier::ext_equal]
pub struct SweepStateV {
    pub m: MatchStateV,
    pub kept: Seq<LevelV>,
    pub processed: int,
    pub stopped: bool,
}

/// One level of the sweep: stop when the taker is exhausted or its price no
/// longer crosses; otherwise walk the level's queue and keep the level if
/// any order remains in it.
pub open spec fn spec_step_level(cfg: DexConfig, s: SweepStateV, lvl: LevelV) -> SweepStateV {
    if s.stopped {
        s
    } else if s.m.taker.remaining == 0 || !spec_crosses(s.m.taker, lvl.price) {
        SweepStateV { stopped: true, ..s }
    } else {
        let r = spec_match_queue(cfg, s.m, lvl.orders, lvl.orders.len() as int);
        SweepStateV {
            m: r.0,
            kept: if r.1.len() > 0 {
                s.kept.push(LevelV { price: lvl.price, orders: r.1 })
            } else {
                s.kept
            },
            processed: s.processed + 1,
            stopped: false,
        }
    }
}

/// The sweep over the first `n` levels of the opposite side, best first.
pub open spec fn spec_sweep(cfg: DexConfig, s: SweepStateV, levels: Seq<LevelV>, n: int)
    -> SweepStateV
    decreases n,
{
    if n <= 0 {
        s
    } else {
        spec_step_level(cfg, spec_sweep(cfg, s, levels, n - 1), levels[n - 1])
    }
}

/// The initial sweep state for a taker entering the book.
pub open spec fn sweep_init(taker: OrderV, index: Seq<IndexEntryV>, volume: nat) -> SweepStateV {
    SweepStateV {
        m: MatchStateV { taker, fills: Seq::empty(), volume, index },
        kept: Seq::empty(),
        processed: 0,
        stopped: false,
    }
}

/// The complete match of `taker` against `levels` (the opposite side in its
/// natural order): the final taker, fills, volume, index, the levels kept
/// from the processed prefix, and how many levels were processed.
pub open spec fn spec_match_order(cfg: DexConfig, taker: OrderV, levels: Seq<LevelV>,
    index: Seq<IndexEntryV>, volume: nat) -> SweepStateV {
    spec_sweep(cfg, sweep_init(taker, index, volume), levels, levels.len() as int)
}

// ---------------------------------------------------------------------------
// Resting an order: insertion into a sorted side
// ---------------------------------------------------------------------------

/// Whether a level at price `a` is strictly better than price `b` on the
/// given side: lower for asks, higher for bids, under the saturated
/// comparison.
pub open spec fn spec_level_better(a: PriceV, b: PriceV, side: OrderSide) -> bool {
    if side == OrderSide::Sell {
        price_cmp(a, b) == Ordering::Less
    } else {
        price_cmp(a, b) == Ordering::Greater
    }
}

/// The side's levels after resting order `o`: the order joins the first
/// level whose price compares equal to its own, or a new level is created
/// just before the first strictly worse level.
pub open spec fn spec_insert_level(levels: Seq<LevelV>, o: OrderV, side: OrderSide)
    -> Seq<LevelV>
    decreases levels.len(),
{
    if levels.len() == 0 {
        seq![LevelV { price: o.price, orders: seq![o] }]
    } else if spec_level_better(levels[0].price, o.price, side) {
        seq![levels[0]] + spec_insert_level(levels.skip(1), o, side)
    } else if price_cmp(levels[0].price, o.price) == Ordering::Equal {
        seq![LevelV { price: levels[0].price, orders: levels[0].orders.push(o) }] + levels.skip(1)
    } else {
        seq![LevelV { price: o.price, orders: seq![o] }] + levels
    }
}

/// When the first `i` levels are strictly better than the order's price,
/// insertion happens in the remainder.
proof fn lemma_insert_prefix(levels: Seq<LevelV>, o: OrderV, side: OrderSide, i: int)
    requires
        0 <= i <= levels.len(),
        forall|j: int| 0 <= j < i ==> spec_level_better(#[trigger] levels[j].price, o.price, side),
    ensures
        spec_insert_level(levels, o, side) == levels.take(i) + spec_insert_level(
            levels.skip(i),
            o,
            side,
        ),
    decreases i,
{
    if i == 0 {
        assert(levels.skip(0) =~= levels);
        assert(levels.take(0) + spec_insert_level(levels, o, side) =~= spec_insert_level(
            levels,
            o,
            side,
        ));
    } else {
        lemma_insert_prefix(levels.skip(1), o, side, i - 1);
        assert(levels.skip(1).skip(i - 1) =~= levels.skip(i));
        assert(levels.skip(1).take(i - 1) =~= levels.subrange(1, i));
        assert(seq![levels[0]] + (levels.subrange(1, i) + spec_insert_level(
            levels.skip(i),
            o,
            side,
        )) =~= levels.take(i) + spec_insert_level(levels.skip(i), o, side));
    }
}

/// Whether the first level's price is strictly better than `price`.
fn level_better(level_price: &Price, price: &Price, side: OrderSide) -> (r: bool)
    ensures
        r == spec_level_better(level_price@, price@, side),
{
    match side {
        OrderSide::Sell => {
            match level_price.cmp_value(price) {
                Ordering::Less => true,
                _ => false,
            }
        },
        OrderSide::Buy => {
            match level_price.cmp_value(price) {
                Ordering::Greater => true,
                _ => false,
            }
        },
    }
}

/// Rest `order` on its side and record it in the index.
fn insert_order(levels: &mut Vec<Level>, index: &mut Vec<IndexEntry>, order: Order)
    ensures
        level_views(final(levels)@) == spec_insert_level(
            level_views(old(levels)@),
            order@,
            order@.side,
        ),
        idx_views(final(index)@) == idx_views(old(index)@).push(
            IndexEntryV { id: order@.id, side: order@.side, price: order@.price },
        ),
{
    index.push(IndexEntry { id: order.id, side: order.side, price: order.price });
    proof {
        assert(idx_views(index@) =~= idx_views(old(index)@).push(
            IndexEntryV { id: order@.id, side: order@.side, price: order@.price },
        ));
    }
    let ghost levels0 = level_views(levels@);
    let mut i: usize = 0;
    while i < levels.len() && level_better(&levels[i].price, &order.price, order.side)
        invariant
            i <= levels@.len(),
            levels0 == level_views(levels@),
            forall|j: int| 0 <= j < i ==> spec_level_better(#[trigger] levels0[j].price, order@.price, order@.side),
        decreases levels@.len() - i,
    {
        i += 1;
    }
    proof {
        lemma_insert_prefix(levels0, order@, order@.side, i as int);
    }
    if i < levels.len() && matches!(levels[i].price.cmp_value(&order.price), Ordering::Equal) {
        let ghost side_before = levels@;
        let mut lvl = levels.remove(i);
        let ghost lvl_before = lvl@;
        lvl.orders.push(order);
        levels.insert(i, lvl);
        proof {
            assert(levels0.skip(i as int)[0] == levels0[i as int]);
            assert(lvl_before == levels0[i as int]);
            assert(lvl@.orders =~= lvl_before.orders.push(order@));
            assert(lvl@ =~~= LevelV {
                price: levels0[i as int].price,
                orders: levels0[i as int].orders.push(order@),
            });
            assert(level_views(levels@) =~~= levels0.take(i as int) + (seq![
                LevelV {
                    price: levels0[i as int].price,
                    orders: levels0[i as int].orders.push(order@),
                },
            ] + levels0.skip(i as int).skip(1)));
        }
    } else {
        let mut q: Vec<Order> = Vec::new();
        q.push(order);
        let ghost newlvl = LevelV { price: order@.price, orders: seq![order@] };
        let ghost newlevel_exec = q@;
        levels.insert(i, Level { price: order.price, orders: q });
        proof {
            assert(newlevel_exec =~= seq![order]);
            assert(newlevel_exec.map_values(|o: Order| o@) =~= seq![order@]);
            assert(levels@[i as int]@ =~~= newlvl);
            if i < levels0.len() {
                assert(levels0.skip(i as int)[0] == levels0[i as int]);
                assert(level_views(levels@) =~~= levels0.take(i as int) + (seq![newlvl]
                    + levels0.skip(i as int)));
            } else {
                assert(levels0.skip(i as int) =~= Seq::<LevelV>::empty());
                assert(level_views(levels@) =~~= levels0.take(i as int) + (seq![
                    newlvl,
                ] + levels0.skip(i as int)));
            }
        }
    }
}

// ---------------------------------------------------------------------------
// The book's sides, abstractly
// ---------------------------------------------------------------------------

/// The side a taker matches against.
pub open spec fn book_opposite(b: BookV, taker_side: OrderSide) -> Seq<LevelV> {
    if taker_side == OrderSide::Buy {
        b.asks
    } else {
        b.bids
    }
}

/// The side a taker would rest on.
pub open spec fn book_same(b: BookV, taker_side: OrderSide) -> Seq<LevelV> {
    if taker_side == OrderSide::Buy {
        b.bids
    } else {
        b.asks
    }
}

// ---------------------------------------------------------------------------
// Placement, functionally
// ---------------------------------------------------------------------------

/// The complete effect of placing a limit order on a book: `None` when the
/// amount is below the configured minimum (the book is unchanged), otherwise
/// the assigned id, the trade result, and the book afterwards. The order
/// matches against the opposite side and any active residual rests at its
/// price level, at the tail of that level's queue.
pub open spec fn spec_place_limit(b: BookV, trader: Seq<u8>, side: OrderSide, price: PriceV,
    amount: nat, cfg: DexConfig) -> Option<(u64, TradeResultV, BookV)> {
    if amount < cfg.min_order_size {
        None
    } else {
        let taker0 = OrderV {
            id: b.next_order_id,
            trader,
            side,
            order_type: crate::order::OrderType::Limit,
            price,
            original: amount,
            remaining: amount,
            status: OrderStatus::Open,
        };
        let sw = spec_match_order(cfg, taker0, book_opposite(b, side), b.index, b.total_volume);
        let opp = sw.kept + book_opposite(b, side).skip(sw.processed);
        let taker1 = sw.m.taker;
        let rest = taker1.remaining != 0 && is_active_v(taker1);
        let same = if rest {
            spec_insert_level(book_same(b, side), taker1, side)
        } else {
            book_same(b, side)
        };
        let idx = if rest {
            sw.m.index.push(IndexEntryV { id: taker1.id, side, price })
        } else {
            sw.m.index
        };
        let trade = TradeResultV {
            taker_order_id: taker0.id,
            fills: sw.m.fills,
            remaining: taker1.remaining,
            fully_filled: taker1.remaining == 0,
        };
        let book = BookV {
            base: b.base,
            quote: b.quote,
            bids: if side == OrderSide::Buy {
                same
            } else {
                opp
            },
            asks: if side == OrderSide::Buy {
                opp
            } else {
                same
            },
            index: idx,
            next_order_id: (b.next_order_id + 1) as u64,
            total_volume: sw.m.volume,
        };
        Some((b.next_order_id, trade, book))
    }
}

/// The complete effect of placing a market order: as a limit order at the
/// side's sentinel price, except that any residual is discarded instead of
/// resting.
pub open spec fn spec_place_market(b: BookV, trader: Seq<u8>, side: OrderSide, amount: nat,
    cfg: DexConfig) -> Option<(TradeResultV, BookV)> {
    if amount < cfg.min_order_size {
        None
    } else {
        let price = if side == OrderSide::Buy {
            PriceV { num: (u256_bound() - 1) as nat, den: 1nat }
        } else {
            PriceV { num: 1nat, den: (u256_bound() - 1) as nat }
        };
        let taker0 = OrderV {
            id: b.next_order_id,
            trader,
            side,
            order_type: crate::order::OrderType::Market,
            price,
            original: amount,
            remaining: amount,
            status: OrderStatus::Open,
        };
        let sw = spec_match_order(cfg, taker0, book_opposite(b, side), b.index, b.total_volume);
        let opp = sw.kept + book_opposite(b, side).skip(sw.processed);
        let trade = TradeResultV {
            taker_order_id: taker0.id,
            fills: sw.m.fills,
            remaining: sw.m.taker.remaining,
            fully_filled: sw.m.taker.remaining == 0,
        };
        let book = BookV {
            base: b.base,
            quote: b.quote,
            bids: if side == OrderSide::Buy {
                b.bids
            } else {
                opp
            },
            asks: if side == OrderSide::Buy {
                opp
            } else {
                b.asks
            },
            index: sw.m.index,
            next_order_id: (b.next_order_id + 1) as u64,
            total_volume: sw.m.volume,
        };
        Some((trade, book))
    }
}

// ---------------------------------------------------------------------------
// Lookup and cancellation, functionally
// ---------------------------------------------------------------------------

/// Whether some order in the queue has this id.
pub open spec fn queue_has(q: Seq<OrderV>, id: u64) -> bool {
    exists|oi: int| 0 <= oi < q.len() && q[oi].id == id
}

/// The position of the first order with this id in the queue, or -1.
pub open spec fn find_in_queue(q: Seq<OrderV>, id: u64) -> int
    decreases q.len(),
{
    if q.len() == 0 {
        -1
    } else if q[0].id == id {
        0
    } else {
        let r = find_in_queue(q.skip(1), id);
        if r < 0 {
            -1
        } else {
            r + 1
        }
    }
}

/// The position of the first level containing this id, or -1.
pub open spec fn find_level(levels: Seq<LevelV>, id: u64) -> int
    decreases levels.len(),
{
    if levels.len() == 0 {
        -1
    } else if queue_has(levels[0].orders, id) {
        0
    } else {
        let r = find_level(levels.skip(1), id);
        if r < 0 {
            -1
        } else {
            r + 1
        }
    }
}

/// `find_in_queue` finds the first occurrence.
proof fn lemma_find_in_queue_at(q: Seq<OrderV>, id: u64, oi: int)
    requires
        0 <= oi < q.len(),
        q[oi].id == id,
        forall|j: int| 0 <= j < oi ==> q[j].id != id,
    ensures
        find_in_queue(q, id) == oi,
    decreases oi,
{
    if oi == 0 {
    } else {
        lemma_find_in_queue_at(q.skip(1), id, oi - 1);
    }
}

/// `find_in_queue` fails exactly when no order has the id.
proof fn lemma_find_in_queue_none(q: Seq<OrderV>, id: u64)
    requires
        forall|j: int| 0 <= j < q.len() ==> q[j].id != id,
    ensures
        find_in_queue(q, id) == -1,
    decreases q.len(),
{
    if q.len() > 0 {
        lemma_find_in_queue_none(q.skip(1), id);
    }
}

/// `find_level` finds the first level containing the id.
proof fn lemma_find_level_at(levels: Seq<LevelV>, id: u64, li: int)
    requires
        0 <= li < levels.len(),
        queue_has(levels[li].orders, id),
        forall|j: int| 0 <= j < li ==> !queue_has(#[trigger] levels[j].orders, id),
    ensures
        find_level(levels, id) == li,
    decreases li,
{
    if li == 0 {
    } else {
        lemma_find_level_at(levels.skip(1), id, li - 1);
    }
}

/// `find_level` fails exactly when no level contains the id.
proof fn lemma_find_level_none(levels: Seq<LevelV>, id: u64)
    requires
        forall|j: int| 0 <= j < levels.len() ==> !queue_has(#[trigger] levels[j].orders, id),
    ensures
        find_level(levels, id) == -1,
    decreases levels.len(),
{
    if levels.len() > 0 {
        lemma_find_level_none(levels.skip(1), id);
    }
}

/// The side's levels after taking one order out: its level's queue shrinks,
/// and an emptied level disappears.
pub open spec fn remove_from_levels(levels: Seq<LevelV>, li: int, oi: int) -> Seq<LevelV> {
    let q2 = levels[li].orders.remove(oi);
    if q2.len() == 0 {
        levels.remove(li)
    } else {
        levels.update(li, LevelV { price: levels[li].price, orders: q2 })
    }
}

/// The order a given id denotes in the levels (at the first occurrence).
pub open spec fn order_at(levels: Seq<LevelV>, id: u64) -> OrderV {
    let li = find_level(levels, id);
    let oi = find_in_queue(levels[li].orders, id);
    levels[li].orders[oi]
}

/// The complete effect of cancelling an order: `None` when the id is not in
/// the index or not in the book (the book is unchanged), otherwise the
/// cancelled order and the book without it.
pub open spec fn spec_cancel(b: BookV, id: u64) -> Option<(OrderV, BookV)> {
    if !idx_has(b.index, id) {
        None
    } else if lvl_has(b.bids, id) {
        let li = find_level(b.bids, id);
        let oi = find_in_queue(b.bids[li].orders, id);
        let o = b.bids[li].orders[oi];
        Some(
            (
                OrderV { status: OrderStatus::Cancelled, ..o },
                BookV {
                    bids: remove_from_levels(b.bids, li, oi),
                    index: idx_remove(b.index, id),
                    ..b
                },
            ),
        )
    } else if lvl_has(b.asks, id) {
        let li = find_level(b.asks, id);
        let oi = find_in_queue(b.asks[li].orders, id);
        let o = b.asks[li].orders[oi];
        Some(
            (
                OrderV { status: OrderStatus::Cancelled, ..o },
                BookV {
                    asks: remove_from_levels(b.asks, li, oi),
                    index: idx_remove(b.index, id),
                    ..b
                },
            ),
        )
    } else {
        None
    }
}

/// The order a given id denotes in the whole book, if any: bids first.
pub open spec fn spec_get_order(b: BookV, id: u64) -> Option<OrderV> {
    if !idx_has(b.index, id) {
        None
    } else if lvl_has(b.bids, id) {
        Some(order_at(b.bids, id))
    } else if lvl_has(b.asks, id) {
        Some(order_at(b.asks, id))
    } else {
        None
    }
}

/// Find the first position of an order with this id on a side.
fn find_order_pos(levels: &Vec<Level>, id: u64) -> (r: Option<(usize, usize)>)
    ensures
        match r {
            Some(p) => {
                &&& lvl_has(level_views(levels@), id)
                &&& find_level(level_views(levels@), id) == p.0
                &&& find_in_queue(level_views(levels@)[p.0 as int].orders, id) == p.1
                &&& p.0 < levels@.len()
                &&& p.1 < levels@[p.0 as int].orders.len()
            },
            None => !lvl_has(level_views(levels@), id),
        },
{
    let ghost lv = level_views(levels@);
    let mut li: usize = 0;
    while li < levels.len()
        invariant
            li <= levels@.len(),
            lv == level_views(levels@),
            forall|j: int| 0 <= j < li ==> !queue_has(#[trigger] lv[j].orders, id),
        decreases levels@.len() - li,
    {
        let q = &levels[li].orders;
        let mut oi: usize = 0;
        while oi < q.len()
            invariant
                oi <= q@.len(),
                lv == level_views(levels@),
                li < levels@.len(),
                q@ == levels@[li as int].orders@,
                forall|j: int| 0 <= j < oi ==> lv[li as int].orders[j].id != id,
                forall|j: int| 0 <= j < li ==> !queue_has(#[trigger] lv[j].orders, id),
            decreases q@.len() - oi,
        {
            if q[oi].id.0 == id {
                proof {
                    assert(lv[li as int].orders[oi as int].id == id);
                    lemma_find_in_queue_at(lv[li as int].orders, id, oi as int);
                    lemma_find_level_at(lv, id, li as int);
                }
                return Some((li, oi));
            }
            oi += 1;
        }
        proof {
            assert(forall|j: int|
                0 <= j < lv[li as int].orders.len() ==> lv[li as int].orders[j].id != id);
            assert(!queue_has(lv[li as int].orders, id));
        }
        li += 1;
    }
    proof {
        assert(!lvl_has(lv, id));
    }
    None
}

/// Take the order at the given position out of a side: the level's queue
/// shrinks and an emptied level disappears.
fn remove_order_at(levels: &mut Vec<Level>, li: usize, oi: usize) -> (r: Order)
    requires
        li < old(levels)@.len(),
        oi < old(levels)@[li as int]@.orders.len(),
    ensures
        r@ == level_views(old(levels)@)[li as int].orders[oi as int],
        level_views(final(levels)@) == remove_from_levels(
            level_views(old(levels)@),
            li as int,
            oi as int,
        ),
{
    let ghost lv0 = level_views(levels@);
    let mut lvl = levels.remove(li);
    let ghost lvl0 = lvl@;
    let order = lvl.orders.remove(oi);
    proof {
        assert(lvl@.orders =~= lvl0.orders.remove(oi as int));
    }
    if lvl.orders.len() > 0 {
        levels.insert(li, lvl);
        proof {
            assert(lvl@ =~~= LevelV {
                price: lv0[li as int].price,
                orders: lv0[li as int].orders.remove(oi as int),
            });
            assert(level_views(levels@) =~~= lv0.update(li as int, lvl@));
        }
    } else {
        proof {
            assert(level_views(levels@) =~~= lv0.remove(li as int));
        }
    }
    order
}

// ---------------------------------------------------------------------------
// Liquidity, depth and statistics, functionally
// ---------------------------------------------------------------------------

/// The total remaining base of the active orders among the first `n` of a
/// queue, accumulated with saturating addition.
pub open spec fn level_liquidity(q: Seq<OrderV>, n: int) -> nat
    decreases n,
{
    if n <= 0 {
        0
    } else {
        let p = level_liquidity(q, n - 1);
        if is_active_v(q[n - 1]) {
            sat_add256(p, q[n - 1].remaining)
        } else {
            p
        }
    }
}

/// The position of the first level whose price compares equal to `p`, or -1.
pub open spec fn find_eq_level(levels: Seq<LevelV>, p: PriceV) -> int
    decreases levels.len(),
{
    if levels.len() == 0 {
        -1
    } else if price_cmp(levels[0].price, p) == Ordering::Equal {
        0
    } else {
        let r = find_eq_level(levels.skip(1), p);
        if r < 0 {
            -1
        } else {
            r + 1
        }
    }
}

/// `find_eq_level` finds the first equal level.
proof fn lemma_find_eq_level_at(levels: Seq<LevelV>, p: PriceV, li: int)
    requires
        0 <= li < levels.len(),
        price_cmp(levels[li].price, p) == Ordering::Equal,
        forall|j: int| 0 <= j < li ==> price_cmp(#[trigger] levels[j].price, p) != Ordering::Equal,
    ensures
        find_eq_level(levels, p) == li,
    decreases li,
{
    if li > 0 {
        lemma_find_eq_level_at(levels.skip(1), p, li - 1);
    }
}

/// `find_eq_level` fails exactly when no level compares equal.
proof fn lemma_find_eq_level_none(levels: Seq<LevelV>, p: PriceV)
    requires
        forall|j: int|
            0 <= j < levels.len() ==> price_cmp(#[trigger] levels[j].price, p) != Ordering::Equal,
    ensures
        find_eq_level(levels, p) == -1,
    decreases levels.len(),
{
    if levels.len() > 0 {
        lemma_find_eq_level_none(levels.skip(1), p);
    }
}

/// The liquidity available at the first level of the side whose price
/// compares equal to `p`: zero when there is none.
pub open spec fn spec_liquidity_at(levels: Seq<LevelV>, p: PriceV) -> nat {
    let li = find_eq_level(levels, p);
    if li < 0 {
        0
    } else {
        level_liquidity(levels[li].orders, levels[li].orders.len() as int)
    }
}

/// The number of orders resting in the first `n` levels, accumulated with
/// saturating addition on `usize`.
pub open spec fn side_order_count(levels: Seq<LevelV>, n: int) -> nat
    decreases n,
{
    if n <= 0 {
        0
    } else {
        let p = side_order_count(levels, n - 1);
        if p + levels[n - 1].orders.len() <= usize::MAX {
            (p + levels[n - 1].orders.len()) as nat
        } else {
            usize::MAX as nat
        }
    }
}

// ---------------------------------------------------------------------------
// Market simulation, functionally
// ---------------------------------------------------------------------------

/// The running state of a simulated market buy: the quote budget left, the
/// base bought, and whether a price computation was unrepresentable.
#[verifier::ext_equal]
pub struct BuySimV {
    pub remaining_quote: nat,
    pub total_base: nat,
    pub failed: bool,
}

/// One ask order of a simulated buy: consume the whole order when the
/// budget covers its quote value, else buy what the budget affords and
/// exhaust it. An unrepresentable price computation fails the simulation.
pub open spec fn buy_sim_step(st: BuySimV, o: OrderV) -> BuySimV {
    if st.failed {
        st
    } else if !is_active_v(o) || st.remaining_quote == 0 {
        st
    } else {
        match crate::price::spec_quote_amount(o.price, o.remaining) {
            None => BuySimV { failed: true, ..st },
            Some(oqv) => if st.remaining_quote >= oqv {
                BuySimV {
                    remaining_quote: (st.remaining_quote - oqv) as nat,
                    total_base: sat_add256(st.total_base, o.remaining),
                    failed: false,
                }
            } else {
                match crate::price::spec_base_amount(o.price, st.remaining_quote) {
                    None => BuySimV { failed: true, ..st },
                    Some(bwb) => BuySimV {
                        remaining_quote: 0,
                        total_base: sat_add256(st.total_base, bwb),
                        failed: false,
                    },
                }
            },
        }
    }
}

/// A simulated buy walked through the first `n` orders of one queue.
pub open spec fn buy_sim_queue(st: BuySimV, q: Seq<OrderV>, n: int) -> BuySimV
    decreases n,
{
    if n <= 0 {
        st
    } else {
        buy_sim_step(buy_sim_queue(st, q, n - 1), q[n - 1])
    }
}

/// A simulated buy walked through the first `n` levels, best first.
pub open spec fn buy_sim_levels(st: BuySimV, levels: Seq<LevelV>, n: int) -> BuySimV
    decreases n,
{
    if n <= 0 {
        st
    } else {
        let p = buy_sim_levels(st, levels, n - 1);
        buy_sim_queue(p, levels[n - 1].orders, levels[n - 1].orders.len() as int)
    }
}

/// The result of simulating a market buy with `quote_in` against the asks:
/// the base output after the fee and the average price paid, or `None` when
/// nothing was bought or a price computation was unrepresentable.
pub open spec fn spec_simulate_buy(asks: Seq<LevelV>, quote_in: nat, cfg: DexConfig)
    -> Option<(nat, PriceV)> {
    let st = buy_sim_levels(
        BuySimV { remaining_quote: quote_in, total_base: 0, failed: false },
        asks,
        asks.len() as int,
    );
    if st.failed {
        None
    } else if st.total_base == 0 {
        None
    } else {
        let fee = spec_taker_fee(cfg.fee_bps, st.total_base);
        let out = if fee <= st.total_base {
            (st.total_base - fee) as nat
        } else {
            0nat
        };
        let spent = if quote_in >= st.remaining_quote {
            (quote_in - st.remaining_quote) as nat
        } else {
            0nat
        };
        Some((out, PriceV { num: spent, den: st.total_base }))
    }
}

/// The running state of a simulated market sell: the base left to sell, the
/// quote received, and whether a price computation was unrepresentable.
#[verifier::ext_equal]
pub struct SellSimV {
    pub remaining_base: nat,
    pub total_quote: nat,
    pub failed: bool,
}

/// One bid order of a simulated sell: consume the whole order when enough
/// base is left, else sell all the base that is left.
pub open spec fn sell_sim_step(st: SellSimV, o: OrderV) -> SellSimV {
    if st.failed {
        st
    } else if !is_active_v(o) || st.remaining_base == 0 {
        st
    } else if st.remaining_base >= o.remaining {
        match crate::price::spec_quote_amount(o.price, o.remaining) {
            None => SellSimV { failed: true, ..st },
            Some(qv) => SellSimV {
                remaining_base: (st.remaining_base - o.remaining) as nat,
                total_quote: sat_add256(st.total_quote, qv),
                failed: false,
            },
        }
    } else {
        match crate::price::spec_quote_amount(o.price, st.remaining_base) {
            None => SellSimV { failed: true, ..st },
            Some(qv) => SellSimV {
                remaining_base: 0,
                total_quote: sat_add256(st.total_quote, qv),
                failed: false,
            },
        }
    }
}

/// A simulated sell walked through the first `n` orders of one queue.
pub open spec fn sell_sim_queue(st: SellSimV, q: Seq<OrderV>, n: int) -> SellSimV
    decreases n,
{
    if n <= 0 {
        st
    } else {
        sell_sim_step(sell_sim_queue(st, q, n - 1), q[n - 1])
    }
}

/// A simulated sell walked through the first `n` levels, best first.
pub open spec fn sell_sim_levels(st: SellSimV, levels: Seq<LevelV>, n: int) -> SellSimV
    decreases n,
{
    if n <= 0 {
        st
    } else {
        let p = sell_sim_levels(st, levels, n - 1);
        sell_sim_queue(p, levels[n - 1].orders, levels[n - 1].orders.len() as int)
    }
}

/// The result of simulating a market sell of `base_in` against the bids:
/// the quote output after the fee and the average price received, or `None`
/// when nothing was sold or a price computation was unrepresentable.
pub open spec fn spec_simulate_sell(bids: Seq<LevelV>, base_in: nat, cfg: DexConfig)
    -> Option<(nat, PriceV)> {
    let st = sell_sim_levels(
        SellSimV { remaining_base: base_in, total_quote: 0, failed: false },
        bids,
        bids.len() as int,
    );
    if st.failed {
        None
    } else if st.total_quote == 0 {
        None
    } else {
        let fee = spec_taker_fee(cfg.fee_bps, st.total_quote);
        let out = if fee <= st.total_quote {
            (st.total_quote - fee) as nat
        } else {
            0nat
        };
        let sold = if base_in >= st.remaining_base {
            (base_in - st.remaining_base) as nat
        } else {
            0nat
        };
        Some((out, PriceV { num: st.total_quote, den: sold }))
    }
}

/// A step of the sell simulation leaves the base budget bounded, and the
/// quote received grows only when base is actually consumed.
proof fn lemma_sell_step_progress(st: SellSimV, o: OrderV)
    requires
        st.total_quote < u256_bound(),
    ensures
        sell_sim_step(st, o).total_quote < u256_bound(),
        sell_sim_step(st, o).remaining_base <= st.remaining_base,
        sell_sim_step(st, o).remaining_base == st.remaining_base ==> sell_sim_step(st, o).total_quote
            == st.total_quote,
{
    let r = sell_sim_step(st, o);
    if !st.failed && is_active_v(o) && st.remaining_base != 0 && st.remaining_base >= o.remaining
        && o.remaining == 0 {
        assert(crate::price::spec_quote_amount(o.price, 0) matches Some(q) ==> q == 0);
    }
}

/// Over a queue, the sell simulation consumes base whenever it gains quote.
proof fn lemma_sell_queue_progress(st: SellSimV, q: Seq<OrderV>, n: int)
    requires
        st.total_quote < u256_bound(),
    ensures
        sell_sim_queue(st, q, n).total_quote < u256_bound(),
        sell_sim_queue(st, q, n).remaining_base <= st.remaining_base,
        sell_sim_queue(st, q, n).remaining_base == st.remaining_base ==> sell_sim_queue(st, q, n).total_quote
            == st.total_quote,
    decreases n,
{
    if n > 0 {
        lemma_sell_queue_progress(st, q, n - 1);
        lemma_sell_step_progress(sell_sim_queue(st, q, n - 1), q[n - 1]);
    }
}

/// Over the levels, the sell simulation consumes base whenever it gains
/// quote; selling nothing means receiving nothing.
proof fn lemma_sell_levels_progress(st: SellSimV, levels: Seq<LevelV>, n: int)
    requires
        st.total_quote < u256_bound(),
    ensures
        sell_sim_levels(st, levels, n).total_quote < u256_bound(),
        sell_sim_levels(st, levels, n).remaining_base <= st.remaining_base,
        sell_sim_levels(st, levels, n).remaining_base == st.remaining_base ==> sell_sim_levels(
            st,
            levels,
            n,
        ).total_quote == st.total_quote,
    decreases n,
{
    if n > 0 {
        lemma_sell_levels_progress(st, levels, n - 1);
        lemma_sell_queue_progress(
            sell_sim_levels(st, levels, n - 1),
            levels[n - 1].orders,
            levels[n - 1].orders.len() as int,
        );
    }
}

// ---------------------------------------------------------------------------
// Well-formedness
// ---------------------------------------------------------------------------

/// Every order of a level is active, has base remaining, and sits on the
/// given side; a level is never empty.
pub open spec fn level_wf(l: LevelV, side: OrderSide) -> bool {
    &&& l.orders.len() > 0
    &&& forall|i: int|
        0 <= i < l.orders.len() ==> is_active_v(#[trigger] l.orders[i]) && l.orders[i].remaining
            > 0 && l.orders[i].side == side
}

/// Levels are strictly sorted best price first under the exact
/// cross-multiplication order: ascending for asks, descending for bids.
pub open spec fn side_sorted(levels: Seq<LevelV>, side: OrderSide) -> bool {
    forall|i: int, j: int|
        0 <= i < j < levels.len() ==> if side == OrderSide::Sell {
            price_lt(#[trigger] levels[i].price, #[trigger] levels[j].price)
        } else {
            price_lt(levels[j].price, levels[i].price)
        }
}

/// A well-formed side: sorted levels, each well formed.
pub open spec fn side_wf(levels: Seq<LevelV>, side: OrderSide) -> bool {
    &&& side_sorted(levels, side)
    &&& forall|i: int| 0 <= i < levels.len() ==> level_wf(#[trigger] levels[i], side)
}

/// Whether some order with this id rests in these levels.
pub open spec fn lvl_has(levels: Seq<LevelV>, id: u64) -> bool {
    exists|li: int, oi: int|
        0 <= li < levels.len() && 0 <= oi < levels[li].orders.len() && levels[li].orders[oi].id
            == id
}

/// No two resting orders of one side share an id.
pub open spec fn side_ids_unique(levels: Seq<LevelV>) -> bool {
    forall|li: int, oi: int, lj: int, oj: int|
        0 <= li < levels.len() && 0 <= oi < levels[li].orders.len() && 0 <= lj < levels.len() && 0
            <= oj < levels[lj].orders.len() && (li != lj || oi != oj)
            ==> #[trigger] levels[li].orders[oi].id != #[trigger] levels[lj].orders[oj].id
}

/// Every id of one side is below the bound.
pub open spec fn side_ids_below(levels: Seq<LevelV>, bound: u64) -> bool {
    forall|li: int, oi: int|
        0 <= li < levels.len() && 0 <= oi < levels[li].orders.len()
            ==> #[trigger] levels[li].orders[oi].id < bound
}

/// No index entry shares an id with another.
pub open spec fn idx_ids_unique(s: Seq<IndexEntryV>) -> bool {
    forall|i: int, j: int| 0 <= i < j < s.len() ==> #[trigger] s[i].id != #[trigger] s[j].id
}

/// The book invariant: both sides well formed, ids unique across the book
/// and below the id counter, and the index holds exactly the resting ids.
pub open spec fn book_wf(b: BookV) -> bool {
    &&& side_wf(b.bids, OrderSide::Buy)
    &&& side_wf(b.asks, OrderSide::Sell)
    &&& side_ids_unique(b.bids)
    &&& side_ids_unique(b.asks)
    &&& (forall|id: u64| !(lvl_has(b.bids, id) && lvl_has(b.asks, id)))
    &&& side_ids_below(b.bids, b.next_order_id)
    &&& side_ids_below(b.asks, b.next_order_id)
    &&& idx_ids_unique(b.index)
    &&& (forall|id: u64| #[trigger] idx_has(b.index, id) <==> (lvl_has(b.bids, id) || lvl_has(b.asks, id)))
    &&& b.total_volume < u256_bound()
}

// ---------------------------------------------------------------------------
// View helpers and exec building blocks of the matching loop
// ---------------------------------------------------------------------------

/// The views of a sequence of orders.
pub open spec fn order_views(s: Seq<Order>) -> Seq<OrderV> {
    s.map_values(|o: Order| o@)
}

/// The views of a sequence of fills.
pub open spec fn fill_views(s: Seq<Fill>) -> Seq<FillV> {
    s.map_values(|f: Fill| f@)
}

/// The views of a sequence of index entries.
spec fn idx_views(s: Seq<IndexEntry>) -> Seq<IndexEntryV> {
    s.map_values(|e: IndexEntry| e@)
}

/// The views of a sequence of levels.
spec fn level_views(s: Seq<Level>) -> Seq<LevelV> {
    s.map_values(|l: Level| l@)
}

/// Remove the entries for `id` from the index.
fn remove_index_entry(index: &mut Vec<IndexEntry>, id: u64)
    ensures
        idx_views(final(index)@) == idx_remove(idx_views(old(index)@), id),
{
    let mut result: Vec<IndexEntry> = Vec::new();
    let mut i: usize = 0;
    while i < index.len()
        invariant
            i <= index.len(),
            idx_views(result@) =~= idx_remove(idx_views(index@.take(i as int)), id),
        decreases index.len() - i,
    {
        let e = index[i];
        proof {
            assert(index@.take(i + 1).drop_last() =~= index@.take(i as int));
            assert(idx_views(index@.take(i + 1)).drop_last() =~= idx_views(
                index@.take(i as int),
            ));
            assert(idx_views(index@.take(i + 1)).last() == index@[i as int]@);
        }
        if e.id.0 != id {
            result.push(e);
        }
        i += 1;
    }
    proof {
        assert(index@.take(index@.len() as int) =~= index@);
    }
    *index = result;
}

/// Walk one level's FIFO queue with the incoming taker, recording fills,
/// advancing the volume counter, and pruning terminal makers from the index.
/// Returns the queue that remains at the level. Behaviour is exactly
/// `spec_match_queue` over the queue's views.
fn sweep_queue(taker: &mut Order, q: &Vec<Order>, index: &mut Vec<IndexEntry>,
    volume: &mut Amount, fills: &mut Vec<Fill>, config: &DexConfig) -> (kept: Vec<Order>)
    requires
        old(taker)@.remaining > 0 ==> is_active_v(old(taker)@),
    ensures
        ({
            let s0 = MatchStateV {
                taker: old(taker)@,
                fills: fill_views(old(fills)@),
                volume: old(volume)@,
                index: idx_views(old(index)@),
            };
            let r = spec_match_queue(*config, s0, order_views(q@), q@.len() as int);
            &&& final(taker)@ == r.0.taker
            &&& fill_views(final(fills)@) == r.0.fills
            &&& final(volume)@ == r.0.volume
            &&& idx_views(final(index)@) == r.0.index
            &&& order_views(kept@) == r.1
            &&& (final(taker)@.remaining > 0 ==> is_active_v(final(taker)@))
        }),
{
    let ghost s0 = MatchStateV {
        taker: taker@,
        fills: fill_views(fills@),
        volume: volume@,
        index: idx_views(index@),
    };
    let ghost qv = order_views(q@);
    let mut kept: Vec<Order> = Vec::new();
    let mut i: usize = 0;
    while i < q.len()
        invariant
            i <= q.len(),
            qv == order_views(q@),
            ({
                let r = spec_match_queue(*config, s0, qv, i as int);
                &&& taker@ == r.0.taker
                &&& fill_views(fills@) =~= r.0.fills
                &&& volume@ == r.0.volume
                &&& idx_views(index@) =~= r.0.index
                &&& order_views(kept@) =~= r.1
            }),
            taker@.remaining > 0 ==> is_active_v(taker@),
        decreases q.len() - i,
    {
        let m = q[i];
        proof {
            assert(qv[i as int] == m@);
        }
        let self_trade = !config.allow_self_trade && taker.trader.addr_eq(&m.trader);
        if taker.remaining_amount.is_zero() || !m.is_active() || self_trade {
            if m.is_active() {
                kept.push(m);
            }
        } else {
            let mut maker = m;
            let base = taker.remaining_amount.min_with(&maker.remaining_amount);
            let quote = match maker.price.quote_amount(base) {
                Some(qa) => qa,
                None => U256::zero(),
            };
            let fee = U256::from_u128(config.calculate_fee(quote.to_u128_saturating()));
            taker.fill(base);
            maker.fill(base);
            fills.push(Fill {
                maker_order_id: maker.id,
                maker: maker.trader,
                base_amount: base,
                quote_amount: quote,
                price: maker.price,
                taker_fee: fee,
                maker_fee: U256::zero(),
            });
            *volume = volume.saturating_add(&base);
            if maker.is_active() {
                kept.push(maker);
            } else {
                remove_index_entry(index, maker.id.0);
            }
        }
        i += 1;
    }
    proof {
        assert(order_views(q@).len() == q@.len());
    }
    kept
}

/// Whether the taker's price crosses a level at `price`.
fn crosses(taker: &Order, price: &Price) -> (r: bool)
    ensures
        r == spec_crosses(taker@, price@),
{
    match taker.side {
        OrderSide::Buy => {
            match taker.price.cmp_value(price) {
                Ordering::Less => false,
                _ => true,
            }
        },
        OrderSide::Sell => {
            match taker.price.cmp_value(price) {
                Ordering::Greater => false,
                _ => true,
            }
        },
    }
}

/// Walking a queue never changes the taker's identity: only its remaining
/// amount and status move.
pub proof fn lemma_queue_taker_fields(cfg: DexConfig, s: MatchStateV, q: Seq<OrderV>, n: int)
    ensures
        ({
            let r = spec_match_queue(cfg, s, q, n);
            &&& r.0.taker.id == s.taker.id
            &&& r.0.taker.trader == s.taker.trader
            &&& r.0.taker.side == s.taker.side
            &&& r.0.taker.price == s.taker.price
            &&& r.0.taker.original == s.taker.original
            &&& r.0.taker.order_type == s.taker.order_type
            &&& r.0.taker.remaining <= s.taker.remaining
        }),
    decreases n,
{
    if n > 0 {
        lemma_queue_taker_fields(cfg, s, q, n - 1);
    }
}

/// Sweeping levels never changes the taker's identity: only its remaining
/// amount and status move.
pub proof fn lemma_sweep_taker_fields(cfg: DexConfig, s: SweepStateV, levels: Seq<LevelV>, n: int)
    ensures
        ({
            let r = spec_sweep(cfg, s, levels, n);
            &&& r.m.taker.id == s.m.taker.id
            &&& r.m.taker.trader == s.m.taker.trader
            &&& r.m.taker.side == s.m.taker.side
            &&& r.m.taker.price == s.m.taker.price
            &&& r.m.taker.original == s.m.taker.original
            &&& r.m.taker.order_type == s.m.taker.order_type
            &&& r.m.taker.remaining <= s.m.taker.remaining
        }),
    decreases n,
{
    if n > 0 {
        lemma_sweep_taker_fields(cfg, s, levels, n - 1);
        let prev = spec_sweep(cfg, s, levels, n - 1);
        if !prev.stopped && prev.m.taker.remaining != 0 && spec_crosses(
            prev.m.taker,
            levels[n - 1].price,
        ) {
            lemma_queue_taker_fields(
                cfg,
                prev.m,
                levels[n - 1].orders,
                levels[n - 1].orders.len() as int,
            );
        }
    }
}

/// Once a sweep has stopped, walking further levels changes nothing.
proof fn lemma_sweep_freeze(cfg: DexConfig, s0: SweepStateV, levels: Seq<LevelV>, n1: int, n2: int)
    requires
        0 <= n1 <= n2,
        spec_sweep(cfg, s0, levels, n1).stopped,
    ensures
        spec_sweep(cfg, s0, levels, n2) == spec_sweep(cfg, s0, levels, n1),
    decreases n2 - n1,
{
    if n2 > n1 {
        lemma_sweep_freeze(cfg, s0, levels, n1, n2 - 1);
    }
}

/// Sweep the taker through the levels of the opposite side, best first,
/// stopping at the first level its price cannot cross. Processed levels are
/// pruned of terminal orders and dropped when empty. Behaviour is exactly
/// `spec_sweep` over the side's views.
fn sweep_side(taker: &mut Order, side: &mut Vec<Level>, index: &mut Vec<IndexEntry>,
    volume: &mut Amount, config: &DexConfig) -> (fills: Vec<Fill>)
    requires
        old(taker)@.remaining > 0 ==> is_active_v(old(taker)@),
    ensures
        ({
            let s0 = sweep_init(old(taker)@, idx_views(old(index)@), old(volume)@);
            let levels0 = level_views(old(side)@);
            let r = spec_sweep(*config, s0, levels0, levels0.len() as int);
            &&& final(taker)@ == r.m.taker
            &&& fill_views(fills@) == r.m.fills
            &&& final(volume)@ == r.m.volume
            &&& idx_views(final(index)@) == r.m.index
            &&& level_views(final(side)@) == r.kept + levels0.skip(r.processed)
            &&& (final(taker)@.remaining > 0 ==> is_active_v(final(taker)@))
        }),
{
    let ghost s0 = sweep_init(taker@, idx_views(index@), volume@);
    let ghost levels0 = level_views(side@);
    let mut fills: Vec<Fill> = Vec::new();
    let mut kept: Vec<Level> = Vec::new();
    let mut stop = false;
    proof {
        assert(fill_views(fills@) =~= Seq::<FillV>::empty());
        assert(level_views(kept@) =~= Seq::<LevelV>::empty());
        assert(levels0.skip(0) =~= levels0);
    }
    while !stop && side.len() > 0
        invariant
            ({
                let p = levels0.len() - side@.len();
                let s = spec_sweep(*config, s0, levels0, p as int);
                &&& side@.len() <= levels0.len()
                &&& (!stop ==> {
                    &&& !s.stopped
                    &&& s.processed == p
                    &&& taker@ == s.m.taker
                    &&& fill_views(fills@) == s.m.fills
                    &&& volume@ == s.m.volume
                    &&& idx_views(index@) == s.m.index
                    &&& level_views(kept@) == s.kept
                    &&& level_views(side@) == levels0.skip(p as int)
                })
                &&& (stop ==> {
                    let sf = spec_sweep(*config, s0, levels0, levels0.len() as int);
                    &&& taker@ == sf.m.taker
                    &&& fill_views(fills@) == sf.m.fills
                    &&& volume@ == sf.m.volume
                    &&& idx_views(index@) == sf.m.index
                    &&& level_views(kept@) == sf.kept
                    &&& level_views(side@) == levels0.skip(sf.processed)
                })
            }),
            taker@.remaining > 0 ==> is_active_v(taker@),
        decreases side@.len() * 2 + (if stop { 0int } else { 1int }),
    {
        let ghost p = levels0.len() - side@.len();
        let ghost s = spec_sweep(*config, s0, levels0, p as int);
        proof {
            assert(level_views(side@)[0] == levels0.skip(p as int)[0]);
            assert(levels0[p as int] == level_views(side@)[0]);
        }
        if taker.remaining_amount.is_zero() || !crosses(taker, &side[0].price) {
            stop = true;
            proof {
                let snext = spec_sweep(*config, s0, levels0, p as int + 1);
                assert(snext == spec_step_level(*config, s, levels0[p as int]));
                assert(snext.stopped);
                lemma_sweep_freeze(*config, s0, levels0, p as int + 1, levels0.len() as int);
            }
        } else {
            let ghost side_before = side@;
            let lvl = side.remove(0);
            proof {
                assert(lvl@ == levels0[p as int]);
                assert(side@ =~= side_before.skip(1));
                assert(level_views(side@) =~= level_views(side_before).skip(1));
                assert(level_views(side_before).skip(1) =~= levels0.skip(p as int).skip(1));
                assert(levels0.skip(p as int).skip(1) =~= levels0.skip(p as int + 1));
            }
            let kept_orders = sweep_queue(taker, &lvl.orders, index, volume, &mut fills, config);
            if kept_orders.len() > 0 {
                kept.push(Level { price: lvl.price, orders: kept_orders });
            }
            proof {
                let snext = spec_sweep(*config, s0, levels0, p as int + 1);
                assert(snext == spec_step_level(*config, s, levels0[p as int]));
                if kept_orders@.len() > 0 {
                    assert(level_views(kept@) =~= snext.kept);
                } else {
                    assert(order_views(kept_orders@) =~= Seq::<OrderV>::empty());
                    assert(level_views(kept@) =~= snext.kept);
                }
            }
        }
    }
    proof {
        if !stop {
            let p = levels0.len() - side@.len();
            assert(side@.len() == 0);
            assert(p == levels0.len());
            let s = spec_sweep(*config, s0, levels0, levels0.len() as int);
            assert(s.processed == levels0.len());
            assert(level_views(side@) =~= levels0.skip(s.processed));
        }
    }
    while kept.len() > 0
        invariant
            ({
                let sf = spec_sweep(*config, s0, levels0, levels0.len() as int);
                level_views(kept@) + level_views(side@) == sf.kept + levels0.skip(sf.processed)
            }),
        decreases kept@.len(),
    {
        let ghost kept_before = kept@;
        let ghost side_before = side@;
        let l = kept.pop().unwrap();
        side.insert(0, l);
        proof {
            assert(kept@ =~= kept_before.drop_last());
            assert(side@ =~= seq![kept_before.last()] + side_before);
            assert(kept_before =~= kept_before.drop_last().push(kept_before.last()));
            assert(level_views(kept_before) =~= level_views(kept_before.drop_last()).push(
                kept_before.last()@,
            ));
            assert(level_views(side@) =~= seq![kept_before.last()@] + level_views(side_before));
            assert(level_views(kept@) + level_views(side@) =~= level_views(kept_before)
                + level_views(side_before));
        }
    }
    proof {
        assert(level_views(kept@) =~= Seq::<LevelV>::empty());
        let sf = spec_sweep(*config, s0, levels0, levels0.len() as int);
        assert(level_views(side@) =~= level_views(kept@) + level_views(side@));
    }
    fills
}

impl OrderBook {
    /// The book invariant, over the book's view.
    pub open spec fn wf(&self) -> bool {
        book_wf(self@)
    }

    /// Create a new, empty orderbook for a pair.
    pub fn new(pair: Pair) -> (r: Self)
        ensures
            r.wf(),
            r@.base == pair.base@,
            r@.quote == pair.quote@,
            r@.bids =~= Seq::<LevelV>::empty(),
            r@.asks =~= Seq::<LevelV>::empty(),
            r@.index =~= Seq::<IndexEntryV>::empty(),
            r@.next_order_id == 1,
            r@.total_volume == 0,
    {
        let r = Self {
            pair,
            bids: Vec::new(),
            asks: Vec::new(),
            orders: Vec::new(),
            next_order_id: 1,
            total_volume: U256::zero(),
        };
        proof {
            assert(r@.bids =~= Seq::<LevelV>::empty());
            assert(r@.asks =~= Seq::<LevelV>::empty());
            assert(r@.index =~= Seq::<IndexEntryV>::empty());
        }
        r
    }

    /// Generate a fresh order id and advance the counter.
    fn generate_order_id(&mut self) -> (r: OrderId)
        requires
            old(self)@.next_order_id < u64::MAX,
        ensures
            r.0 == old(self)@.next_order_id,
            final(self)@ == (BookV { next_order_id: (old(self)@.next_order_id + 1) as u64, ..old(self)@ }),
            old(self).wf() ==> final(self).wf(),
            final(self).pair == old(self).pair,
    {
        let id = OrderId(self.next_order_id);
        self.next_order_id = self.next_order_id + 1;
        id
    }

    /// The trading pair of this book.
    pub fn get_pair(&self) -> (r: Pair)
        ensures
            r.base@ == self@.base,
            r.quote@ == self@.quote,
    {
        self.pair
    }

    /// Get the best bid price: the highest price with a resting buy order.
    pub fn best_bid(&self) -> (r: Option<Price>)
        ensures
            match r {
                Some(p) => self@.bids.len() > 0 && p@ == self@.bids[0].price,
                None => self@.bids.len() == 0,
            },
    {
        if self.bids.len() > 0 {
            Some(self.bids[0].price)
        } else {
            None
        }
    }

    /// Get the best ask price: the lowest price with a resting sell order.
    pub fn best_ask(&self) -> (r: Option<Price>)
        ensures
            match r {
                Some(p) => self@.asks.len() > 0 && p@ == self@.asks[0].price,
                None => self@.asks.len() == 0,
            },
    {
        if self.asks.len() > 0 {
            Some(self.asks[0].price)
        } else {
            None
        }
    }

    /// Get the spread: the best bid and best ask when both are present.
    pub fn spread(&self) -> (r: Option<(Price, Price)>)
        ensures
            match r {
                Some(p) => self@.bids.len() > 0 && self@.asks.len() > 0 && p.0@
                    == self@.bids[0].price && p.1@ == self@.asks[0].price,
                None => self@.bids.len() == 0 || self@.asks.len() == 0,
            },
    {
        match self.best_bid() {
            None => None,
            Some(bid) => match self.best_ask() {
                None => None,
                Some(ask) => Some((bid, ask)),
            },
        }
    }

    /// Match an incoming order against the book's opposite side.
    fn match_order(&mut self, taker: &mut Order, config: &DexConfig) -> (r: TradeResult)
        requires
            old(taker)@.remaining > 0 ==> is_active_v(old(taker)@),
        ensures
            ({
                let sw = spec_match_order(
                    *config,
                    old(taker)@,
                    book_opposite(old(self)@, old(taker)@.side),
                    old(self)@.index,
                    old(self)@.total_volume,
                );
                let opp = sw.kept + book_opposite(old(self)@, old(taker)@.side).skip(sw.processed);
                &&& final(taker)@ == sw.m.taker
                &&& r@ == (TradeResultV {
                    taker_order_id: final(taker)@.id,
                    fills: sw.m.fills,
                    remaining: sw.m.taker.remaining,
                    fully_filled: sw.m.taker.remaining == 0,
                })
                &&& final(self)@ == (BookV {
                    bids: if old(taker)@.side == OrderSide::Buy {
                        old(self)@.bids
                    } else {
                        opp
                    },
                    asks: if old(taker)@.side == OrderSide::Buy {
                        opp
                    } else {
                        old(self)@.asks
                    },
                    index: sw.m.index,
                    total_volume: sw.m.volume,
                    ..old(self)@
                })
            }),
    {
        let mut volume = self.total_volume;
        let fills = match taker.side {
            OrderSide::Buy => sweep_side(taker, &mut self.asks, &mut self.orders, &mut volume, config),
            OrderSide::Sell => sweep_side(taker, &mut self.bids, &mut self.orders, &mut volume, config),
        };
        self.total_volume = volume;
        let remaining = taker.remaining_amount;
        let fully_filled = remaining.is_zero();
        let r = TradeResult { taker_order_id: taker.id, fills, remaining_amount: remaining, fully_filled };
        r
    }

    /// Place a limit order: reject an amount below the configured minimum,
    /// assign the next id, match immediately against the opposite side, and
    /// rest any active residual at its price level.
    pub fn place_limit_order(&mut self, trader: Address, side: OrderSide, price: Price,
        amount: Amount, config: &DexConfig) -> (r: Result<(OrderId, TradeResult), OrderError>)
        requires
            old(self)@.next_order_id < u64::MAX,
        ensures
            match r {
                Err(e) => {
                    &&& e == OrderError::BelowMinimumSize
                    &&& spec_place_limit(old(self)@, trader@, side, price@, amount@, *config)
                        is None
                    &&& final(self)@ == old(self)@
                },
                Ok(p) => {
                    let pr = spec_place_limit(old(self)@, trader@, side, price@, amount@, *config);
                    &&& pr is Some
                    &&& p.0.0 == pr->Some_0.0
                    &&& p.1@ == pr->Some_0.1
                    &&& final(self)@ == pr->Some_0.2
                },
            },
    {
        if amount.lt(&U256::from_u128(config.min_order_size)) {
            return Err(OrderError::BelowMinimumSize);
        }
        let ghost b0 = self@;
        let order_id = self.generate_order_id();
        let mut order = Order::new_limit(order_id, trader, side, price, amount);
        proof {
            lemma_sweep_taker_fields(
                *config,
                sweep_init(order@, b0.index, b0.total_volume),
                book_opposite(b0, side),
                book_opposite(b0, side).len() as int,
            );
        }
        let trade_result = self.match_order(&mut order, config);
        if !order.remaining_amount.is_zero() && order.is_active() {
            match side {
                OrderSide::Buy => insert_order(&mut self.bids, &mut self.orders, order),
                OrderSide::Sell => insert_order(&mut self.asks, &mut self.orders, order),
            }
        }
        Ok((order_id, trade_result))
    }

    /// Place a market order: reject an amount below the configured minimum,
    /// assign the next id, match at the side's sentinel price, and discard
    /// any residual (market orders do not rest on the book).
    pub fn place_market_order(&mut self, trader: Address, side: OrderSide, amount: Amount,
        config: &DexConfig) -> (r: Result<TradeResult, OrderError>)
        requires
            old(self)@.next_order_id < u64::MAX,
        ensures
            match r {
                Err(e) => {
                    &&& e == OrderError::BelowMinimumSize
                    &&& spec_place_market(old(self)@, trader@, side, amount@, *config) is None
                    &&& final(self)@ == old(self)@
                },
                Ok(trade) => {
                    let pr = spec_place_market(old(self)@, trader@, side, amount@, *config);
                    &&& pr is Some
                    &&& trade@ == pr->Some_0.0
                    &&& final(self)@ == pr->Some_0.1
                },
            },
    {
        if amount.lt(&U256::from_u128(config.min_order_size)) {
            return Err(OrderError::BelowMinimumSize);
        }
        let ghost b0 = self@;
        let order_id = self.generate_order_id();
        let mut order = Order::new_market(order_id, trader, side, amount);
        proof {
            lemma_sweep_taker_fields(
                *config,
                sweep_init(order@, b0.index, b0.total_volume),
                book_opposite(b0, side),
                book_opposite(b0, side).len() as int,
            );
        }
        let trade_result = self.match_order(&mut order, config);
        Ok(trade_result)
    }

    /// Cancel an order by id: locate it via the index, remove it from its
    /// level's queue, drop the level if it became empty, and return the
    /// order with status `Cancelled`. Fails with `OrderNotFound`, leaving
    /// the book unchanged, when the id is unknown.
    pub fn cancel_order(&mut self, order_id: OrderId) -> (r: Result<Order, OrderError>)
        ensures
            match r {
                Err(e) => {
                    &&& e == OrderError::OrderNotFound
                    &&& spec_cancel(old(self)@, order_id.0) is None
                    &&& final(self)@ == old(self)@
                },
                Ok(o) => {
                    let pr = spec_cancel(old(self)@, order_id.0);
                    &&& pr is Some
                    &&& o@ == pr->Some_0.0
                    &&& final(self)@ == pr->Some_0.1
                },
            },
    {
        let mut found = false;
        let mut i: usize = 0;
        while i < self.orders.len()
            invariant
                i <= self.orders@.len(),
                found == exists|j: int| 0 <= j < i && self@.index[j].id == order_id.0,
            decreases self.orders@.len() - i,
        {
            if self.orders[i].id.0 == order_id.0 {
                proof {
                    assert(self@.index[i as int].id == order_id.0);
                }
                found = true;
            }
            i += 1;
        }
        if !found {
            proof {
                assert(!idx_has(self@.index, order_id.0));
            }
            return Err(OrderError::OrderNotFound);
        }
        proof {
            assert(idx_has(self@.index, order_id.0));
        }
        if let Some((li, oi)) = find_order_pos(&self.bids, order_id.0) {
            let mut order = remove_order_at(&mut self.bids, li, oi);
            order.cancel();
            remove_index_entry(&mut self.orders, order_id.0);
            return Ok(order);
        }
        if let Some((li, oi)) = find_order_pos(&self.asks, order_id.0) {
            let mut order = remove_order_at(&mut self.asks, li, oi);
            order.cancel();
            remove_index_entry(&mut self.orders, order_id.0);
            return Ok(order);
        }
        Err(OrderError::OrderNotFound)
    }

    /// Get an order by id, or `None` when the id is unknown.
    pub fn get_order(&self, order_id: OrderId) -> (r: Option<Order>)
        ensures
            match r {
                Some(o) => spec_get_order(self@, order_id.0) == Some(o@),
                None => spec_get_order(self@, order_id.0) is None,
            },
    {
        let mut found = false;
        let mut i: usize = 0;
        while i < self.orders.len()
            invariant
                i <= self.orders@.len(),
                found == exists|j: int| 0 <= j < i && self@.index[j].id == order_id.0,
            decreases self.orders@.len() - i,
        {
            if self.orders[i].id.0 == order_id.0 {
                proof {
                    assert(self@.index[i as int].id == order_id.0);
                }
                found = true;
            }
            i += 1;
        }
        if !found {
            proof {
                assert(!idx_has(self@.index, order_id.0));
            }
            return None;
        }
        proof {
            assert(idx_has(self@.index, order_id.0));
        }
        if let Some((li, oi)) = find_order_pos(&self.bids, order_id.0) {
            return Some(self.bids[li].orders[oi]);
        }
        if let Some((li, oi)) = find_order_pos(&self.asks, order_id.0) {
            return Some(self.asks[li].orders[oi]);
        }
        None
    }
}

/// Whether two prices compare equal under the saturated comparison.
fn price_eq(a: &Price, b: &Price) -> (r: bool)
    ensures
        r == (price_cmp(a@, b@) == Ordering::Equal),
{
    match a.cmp_value(b) {
        Ordering::Equal => true,
        _ => false,
    }
}

/// The saturating sum of the remaining base of a queue's active orders.
fn queue_liquidity(q: &Vec<Order>) -> (r: Amount)
    ensures
        r@ == level_liquidity(order_views(q@), q@.len() as int),
{
    let mut total = U256::zero();
    let mut oi: usize = 0;
    while oi < q.len()
        invariant
            oi <= q@.len(),
            total@ == level_liquidity(order_views(q@), oi as int),
        decreases q@.len() - oi,
    {
        proof {
            assert(order_views(q@)[oi as int] == q@[oi as int]@);
        }
        if q[oi].is_active() {
            total = total.saturating_add(&q[oi].remaining_amount);
        }
        oi += 1;
    }
    total
}

/// The price and liquidity of the first `depth` levels of a side.
fn side_depth(levels: &Vec<Level>, depth: usize) -> (r: Vec<(Price, Amount)>)
    ensures
        r@.len() == min_nat(depth as nat, levels@.len() as nat),
        forall|i: int|
            0 <= i < r@.len() ==> {
                &&& (#[trigger] r@[i]).0@ == level_views(levels@)[i].price
                &&& r@[i].1@ == level_liquidity(
                    level_views(levels@)[i].orders,
                    level_views(levels@)[i].orders.len() as int,
                )
            },
{
    let mut r: Vec<(Price, Amount)> = Vec::new();
    let mut li: usize = 0;
    let n = if depth < levels.len() {
        depth
    } else {
        levels.len()
    };
    while li < n
        invariant
            li <= n,
            n == min_nat(depth as nat, levels@.len() as nat),
            r@.len() == li,
            forall|i: int|
                0 <= i < li ==> {
                    &&& (#[trigger] r@[i]).0@ == level_views(levels@)[i].price
                    &&& r@[i].1@ == level_liquidity(
                        level_views(levels@)[i].orders,
                        level_views(levels@)[i].orders.len() as int,
                    )
                },
        decreases n - li,
    {
        let total = queue_liquidity(&levels[li].orders);
        r.push((levels[li].price, total));
        li += 1;
    }
    r
}

/// The saturating count of the orders resting on a side.
fn count_side_orders(levels: &Vec<Level>) -> (r: usize)
    ensures
        r == side_order_count(level_views(levels@), levels@.len() as int),
{
    let mut count: usize = 0;
    let mut li: usize = 0;
    while li < levels.len()
        invariant
            li <= levels@.len(),
            count == side_order_count(level_views(levels@), li as int),
        decreases levels@.len() - li,
    {
        count = count.saturating_add(levels[li].orders.len());
        li += 1;
    }
    count
}

impl OrderBook {
    /// Get the total liquidity available at a price level: the saturating
    /// sum of remaining base over the active orders of the first level whose
    /// price compares equal, zero when there is none.
    pub fn liquidity_at_price(&self, side: OrderSide, price: Price) -> (r: Amount)
        ensures
            r@ == spec_liquidity_at(
                if side == OrderSide::Buy {
                    self@.bids
                } else {
                    self@.asks
                },
                price@,
            ),
    {
        let levels: &Vec<Level> = match side {
            OrderSide::Buy => &self.bids,
            OrderSide::Sell => &self.asks,
        };
        let ghost lv = level_views(levels@);
        let mut li: usize = 0;
        while li < levels.len() && !price_eq(&levels[li].price, &price)
            invariant
                li <= levels@.len(),
                lv == level_views(levels@),
                forall|j: int|
                    0 <= j < li ==> price_cmp(#[trigger] lv[j].price, price@) != Ordering::Equal,
            decreases levels@.len() - li,
        {
            li += 1;
        }
        if li == levels.len() {
            proof {
                lemma_find_eq_level_none(lv, price@);
            }
            U256::zero()
        } else {
            proof {
                lemma_find_eq_level_at(lv, price@, li as int);
            }
            queue_liquidity(&levels[li].orders)
        }
    }

    /// Get the bid-side depth: price and total active liquidity of the best
    /// `depth` levels, best first.
    pub fn bid_liquidity(&self, depth: usize) -> (r: Vec<(Price, Amount)>)
        ensures
            r@.len() == min_nat(depth as nat, self@.bids.len() as nat),
            forall|i: int|
                0 <= i < r@.len() ==> {
                    &&& (#[trigger] r@[i]).0@ == self@.bids[i].price
                    &&& r@[i].1@ == level_liquidity(
                        self@.bids[i].orders,
                        self@.bids[i].orders.len() as int,
                    )
                },
    {
        side_depth(&self.bids, depth)
    }

    /// Get the ask-side depth: price and total active liquidity of the best
    /// `depth` levels, best first.
    pub fn ask_liquidity(&self, depth: usize) -> (r: Vec<(Price, Amount)>)
        ensures
            r@.len() == min_nat(depth as nat, self@.asks.len() as nat),
            forall|i: int|
                0 <= i < r@.len() ==> {
                    &&& (#[trigger] r@[i]).0@ == self@.asks[i].price
                    &&& r@[i].1@ == level_liquidity(
                        self@.asks[i].orders,
                        self@.asks[i].orders.len() as int,
                    )
                },
    {
        side_depth(&self.asks, depth)
    }

    /// Get statistics about the orderbook: the best price numerators, the
    /// volume counter, and how many orders rest on each side.
    pub fn stats(&self) -> (r: PairStats)
        ensures
            match r.best_bid {
                Some(v) => self@.bids.len() > 0 && v@ == self@.bids[0].price.num,
                None => self@.bids.len() == 0,
            },
            match r.best_ask {
                Some(v) => self@.asks.len() > 0 && v@ == self@.asks[0].price.num,
                None => self@.asks.len() == 0,
            },
            r.total_volume@ == self@.total_volume,
            r.buy_order_count == side_order_count(self@.bids, self@.bids.len() as int),
            r.sell_order_count == side_order_count(self@.asks, self@.asks.len() as int),
    {
        let best_bid = if self.bids.len() > 0 {
            Some(self.bids[0].price.numerator)
        } else {
            None
        };
        let best_ask = if self.asks.len() > 0 {
            Some(self.asks[0].price.numerator)
        } else {
            None
        };
        let buy_order_count = count_side_orders(&self.bids);
        let sell_order_count = count_side_orders(&self.asks);
        PairStats {
            best_bid,
            best_ask,
            total_volume: self.total_volume,
            buy_order_count,
            sell_order_count,
        }
    }

    /// Simulate a market buy with a quote budget against the asks: the base
    /// output after the fee and the average price, or `None` when nothing
    /// would be bought or a price computation is unrepresentable.
    pub fn simulate_market_buy(&self, input_quote_amount: Amount, config: &DexConfig)
        -> (r: Option<(Amount, Price)>)
        ensures
            match r {
                Some(p) => spec_simulate_buy(self@.asks, input_quote_amount@, *config) == Some(
                    (p.0@, p.1@),
                ),
                None => spec_simulate_buy(self@.asks, input_quote_amount@, *config) is None,
            },
    {
        let ghost lv = self@.asks;
        let ghost st0 = BuySimV {
            remaining_quote: input_quote_amount@,
            total_base: 0,
            failed: false,
        };
        let mut remaining_quote = input_quote_amount;
        let mut total_base = U256::zero();
        let mut failed = false;
        let mut li: usize = 0;
        while li < self.asks.len()
            invariant
                li <= self.asks@.len(),
                lv == self@.asks,
                ({
                    let st = buy_sim_levels(st0, lv, li as int);
                    &&& remaining_quote@ == st.remaining_quote
                    &&& total_base@ == st.total_base
                    &&& failed == st.failed
                }),
            decreases self.asks@.len() - li,
        {
            let ghost stl = buy_sim_levels(st0, lv, li as int);
            let q = &self.asks[li].orders;
            let mut oi: usize = 0;
            while oi < q.len()
                invariant
                    oi <= q@.len(),
                    li < self.asks@.len(),
                    lv == self@.asks,
                    q@ == self.asks@[li as int].orders@,
                    stl == buy_sim_levels(st0, lv, li as int),
                    ({
                        let st = buy_sim_queue(stl, lv[li as int].orders, oi as int);
                        &&& remaining_quote@ == st.remaining_quote
                        &&& total_base@ == st.total_base
                        &&& failed == st.failed
                    }),
                decreases q@.len() - oi,
            {
                let o = q[oi];
                proof {
                    assert(lv[li as int].orders[oi as int] == o@);
                }
                if !failed && o.is_active() && !remaining_quote.is_zero() {
                    match o.price.quote_amount(o.remaining_amount) {
                        None => {
                            failed = true;
                        },
                        Some(oqv) => {
                            if oqv.le(&remaining_quote) {
                                total_base = total_base.saturating_add(&o.remaining_amount);
                                remaining_quote = remaining_quote.saturating_sub(&oqv);
                            } else {
                                match o.price.base_amount(remaining_quote) {
                                    None => {
                                        failed = true;
                                    },
                                    Some(bwb) => {
                                        total_base = total_base.saturating_add(&bwb);
                                        remaining_quote = U256::zero();
                                    },
                                }
                            }
                        },
                    }
                }
                oi += 1;
            }
            li += 1;
        }
        if failed {
            return None;
        }
        if total_base.is_zero() {
            return None;
        }
        let fee = U256::from_u128(config.calculate_fee(total_base.to_u128_saturating()));
        let output_after_fee = total_base.saturating_sub(&fee);
        let spent = input_quote_amount.saturating_sub(&remaining_quote);
        let avg_price = Price::new(spent, total_base);
        Some((output_after_fee, avg_price))
    }

    /// Simulate a market sell of a base amount against the bids: the quote
    /// output after the fee and the average price, or `None` when nothing
    /// would be sold or a price computation is unrepresentable.
    pub fn simulate_market_sell(&self, input_base_amount: Amount, config: &DexConfig)
        -> (r: Option<(Amount, Price)>)
        ensures
            match r {
                Some(p) => spec_simulate_sell(self@.bids, input_base_amount@, *config) == Some(
                    (p.0@, p.1@),
                ),
                None => spec_simulate_sell(self@.bids, input_base_amount@, *config) is None,
            },
    {
        let ghost lv = self@.bids;
        let ghost st0 = SellSimV {
            remaining_base: input_base_amount@,
            total_quote: 0,
            failed: false,
        };
        let mut remaining_base = input_base_amount;
        let mut total_quote = U256::zero();
        let mut failed = false;
        let mut li: usize = 0;
        while li < self.bids.len()
            invariant
                li <= self.bids@.len(),
                lv == self@.bids,
                ({
                    let st = sell_sim_levels(st0, lv, li as int);
                    &&& remaining_base@ == st.remaining_base
                    &&& total_quote@ == st.total_quote
                    &&& failed == st.failed
                }),
            decreases self.bids@.len() - li,
        {
            let ghost stl = sell_sim_levels(st0, lv, li as int);
            let q = &self.bids[li].orders;
            let mut oi: usize = 0;
            while oi < q.len()
                invariant
                    oi <= q@.len(),
                    li < self.bids@.len(),
                    lv == self@.bids,
                    q@ == self.bids@[li as int].orders@,
                    stl == sell_sim_levels(st0, lv, li as int),
                    ({
                        let st = sell_sim_queue(stl, lv[li as int].orders, oi as int);
                        &&& remaining_base@ == st.remaining_base
                        &&& total_quote@ == st.total_quote
                        &&& failed == st.failed
                    }),
                decreases q@.len() - oi,
            {
                let o = q[oi];
                proof {
                    assert(lv[li as int].orders[oi as int] == o@);
                }
                if !failed && o.is_active() && !remaining_base.is_zero() {
                    if o.remaining_amount.le(&remaining_base) {
                        match o.price.quote_amount(o.remaining_amount) {
                            None => {
                                failed = true;
                            },
                            Some(qv) => {
                                total_quote = total_quote.saturating_add(&qv);
                                remaining_base = remaining_base.saturating_sub(
                                    &o.remaining_amount,
                                );
                            },
                        }
                    } else {
                        match o.price.quote_amount(remaining_base) {
                            None => {
                                failed = true;
                            },
                            Some(qv) => {
                                total_quote = total_quote.saturating_add(&qv);
                                remaining_base = U256::zero();
                            },
                        }
                    }
                }
                oi += 1;
            }
            li += 1;
        }
        if failed {
            return None;
        }
        if total_quote.is_zero() {
            return None;
        }
        proof {
            lemma_sell_levels_progress(st0, lv, lv.len() as int);
        }
        let fee = U256::from_u128(config.calculate_fee(total_quote.to_u128_saturating()));
        let output_after_fee = total_quote.saturating_sub(&fee);
        let sold = input_base_amount.saturating_sub(&remaining_base);
        let avg_price = Price::new(total_quote, sold);
        Some((output_after_fee, avg_price))
    }
}

} // verus!
