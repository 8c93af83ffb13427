//! Laws of the engine, proved over the functional models.
//!
//! Each public proof function here states one property of the library that
//! holds of all inputs its `requires` admits, over the same spec functions
//! that the executable functions' contracts use.

use vstd::prelude::*;
use crate::config::DexConfig;
use crate::order::{is_active_v, OrderV};
use crate::orderbook::{
    book_wf, idx_has, idx_remove, level_liquidity, lvl_has, min_nat, queue_has, find_in_queue,
    find_level, sat_add256, spec_cancel, spec_get_order, spec_insert_level, spec_match_order,
    spec_match_queue, spec_skip_maker, spec_step_fill, spec_step_maker, spec_sweep, sweep_init,
    BookV, IndexEntryV, LevelV, MatchStateV, SweepStateV,
};
use crate::pair::{lemma_pair_id_symmetric, spec_pair_id};
use crate::pool_manager::{spec_create_pair, PoolError, PoolV};
use crate::router::books_find;
use crate::order::OrderSide;

verus! {

// ---------------------------------------------------------------------------
// Conservation of a fill
// ---------------------------------------------------------------------------

/// Conservation: a fill's base amount is the smaller of the taker's and the
/// maker's remaining amounts just before the fill, never more than either,
/// and both remaining amounts decrease by exactly that base amount.
pub proof fn lemma_fill_conservation(cfg: DexConfig, s: MatchStateV, m: OrderV)
    requires
        !spec_skip_maker(cfg, s, m),
    ensures
        ({
            let r = spec_step_fill(cfg, s, m);
            let base = r.0.fills.last().base;
            &&& r.0.fills.len() == s.fills.len() + 1
            &&& base == min_nat(s.taker.remaining, m.remaining)
            &&& base <= s.taker.remaining
            &&& base <= m.remaining
            &&& r.0.taker.remaining == s.taker.remaining - base
            &&& r.1.remaining == m.remaining - base
            &&& r.0.fills.last().maker_order_id == m.id
            &&& r.0.fills.last().maker == m.trader
        }),
{
}

// ---------------------------------------------------------------------------
// Self-trade prevention
// ---------------------------------------------------------------------------

/// Walking one queue adds no fill whose maker is the taker itself, when
/// self-trading is disallowed.
proof fn lemma_queue_no_self_trade(cfg: DexConfig, s: MatchStateV, q: Seq<OrderV>, n: int)
    requires
        !cfg.allow_self_trade,
        forall|k: int| 0 <= k < s.fills.len() ==> (#[trigger] s.fills[k]).maker != s.taker.trader,
    ensures
        ({
            let r = spec_match_queue(cfg, s, q, n);
            forall|k: int|
                0 <= k < r.0.fills.len() ==> (#[trigger] r.0.fills[k]).maker != r.0.taker.trader
        }),
    decreases n,
{
    if n > 0 {
        lemma_queue_no_self_trade(cfg, s, q, n - 1);
        crate::orderbook::lemma_queue_taker_fields(cfg, s, q, n - 1);
        crate::orderbook::lemma_queue_taker_fields(cfg, s, q, n);
    }
}

/// Sweeping the opposite side adds no self-trade fill.
proof fn lemma_sweep_no_self_trade(cfg: DexConfig, s: SweepStateV, levels: Seq<LevelV>, n: int)
    requires
        !cfg.allow_self_trade,
        forall|k: int|
            0 <= k < s.m.fills.len() ==> (#[trigger] s.m.fills[k]).maker != s.m.taker.trader,
    ensures
        ({
            let r = spec_sweep(cfg, s, levels, n);
            forall|k: int|
                0 <= k < r.m.fills.len() ==> (#[trigger] r.m.fills[k]).maker != r.m.taker.trader
        }),
    decreases n,
{
    if n > 0 {
        lemma_sweep_no_self_trade(cfg, s, levels, n - 1);
        let prev = spec_sweep(cfg, s, levels, n - 1);
        if !prev.stopped && prev.m.taker.remaining != 0 && crate::orderbook::spec_crosses(
            prev.m.taker,
            levels[n - 1].price,
        ) {
            lemma_queue_no_self_trade(
                cfg,
                prev.m,
                levels[n - 1].orders,
                levels[n - 1].orders.len() as int,
            );
        }
    }
}

/// Self-trade prevention: with `allow_self_trade` off, every fill of a match
/// has a maker address different from the taker's.
pub proof fn lemma_no_self_trade(cfg: DexConfig, taker: OrderV, levels: Seq<LevelV>,
    index: Seq<crate::orderbook::IndexEntryV>, volume: nat)
    requires
        !cfg.allow_self_trade,
    ensures
        ({
            let sw = spec_match_order(cfg, taker, levels, index, volume);
            forall|k: int|
                0 <= k < sw.m.fills.len() ==> (#[trigger] sw.m.fills[k]).maker != taker.trader
        }),
{
    lemma_sweep_no_self_trade(
        cfg,
        sweep_init(taker, index, volume),
        levels,
        levels.len() as int,
    );
    crate::orderbook::lemma_sweep_taker_fields(
        cfg,
        sweep_init(taker, index, volume),
        levels,
        levels.len() as int,
    );
}

// ---------------------------------------------------------------------------
// Pair creation is idempotent
// ---------------------------------------------------------------------------

/// A failing search means no entry holds the id.
proof fn lemma_books_find_none_sound(bs: Seq<(Seq<u8>, crate::orderbook::BookV)>, id: Seq<u8>)
    requires
        books_find(bs, id) == -1,
    ensures
        forall|j: int| 0 <= j < bs.len() ==> (#[trigger] bs[j]).0 != id,
    decreases bs.len(),
{
    if bs.len() > 0 {
        lemma_books_find_none_sound(bs.skip(1), id);
        assert(forall|j: int| 1 <= j < bs.len() ==> bs[j] == bs.skip(1)[j - 1]);
    }
}

/// Creating a pair and then creating the same pair again, in either token
/// order, fails with `PairAlreadyExists`; the pair set is unchanged because
/// the failing call changes nothing.
pub proof fn lemma_create_pair_idempotent(p: PoolV, base: Seq<u8>, quote: Seq<u8>)
    requires
        base.len() == quote.len(),
        spec_create_pair(p, base, quote) is Ok,
    ensures
        ({
            let p2 = spec_create_pair(p, base, quote)->Ok_0;
            &&& spec_create_pair(p2, base, quote) == Err::<PoolV, PoolError>(
                PoolError::PairAlreadyExists,
            )
            &&& spec_create_pair(p2, quote, base) == Err::<PoolV, PoolError>(
                PoolError::PairAlreadyExists,
            )
        }),
{
    let p2 = spec_create_pair(p, base, quote)->Ok_0;
    let id = spec_pair_id(base, quote);
    lemma_pair_id_symmetric(base, quote);
    let last = p2.books.len() - 1;
    assert(p2.books[last].0 == id);
    if books_find(p2.books, id) == -1 {
        lemma_books_find_none_sound(p2.books, id);
        assert(false);
    }
    if books_find(p2.books, spec_pair_id(quote, base)) == -1 {
        lemma_books_find_none_sound(p2.books, spec_pair_id(quote, base));
        assert(false);
    }
}

// ---------------------------------------------------------------------------
// Cancelling an unknown or terminal id
// ---------------------------------------------------------------------------

/// Cancelling an id that rests nowhere in a well-formed book fails, and the
/// book is unchanged (the cancel operation's contract returns it untouched
/// whenever the model yields nothing). Terminal orders never rest in a
/// well-formed book, so a terminal id is such an id.
pub proof fn lemma_cancel_unknown(b: BookV, id: u64)
    requires
        book_wf(b),
        !lvl_has(b.bids, id),
        !lvl_has(b.asks, id),
    ensures
        spec_cancel(b, id) is None,
{
    assert(!idx_has(b.index, id));
}

// ---------------------------------------------------------------------------
// The index locates active orders
// ---------------------------------------------------------------------------

/// A successful queue search yields the position of an order with the id.
proof fn lemma_find_in_queue_props(q: Seq<OrderV>, id: u64)
    requires
        queue_has(q, id),
    ensures
        0 <= find_in_queue(q, id) < q.len(),
        q[find_in_queue(q, id)].id == id,
    decreases q.len(),
{
    if q[0].id == id {
    } else {
        let oi = choose|oi: int| 0 <= oi < q.len() && q[oi].id == id;
        assert(q.skip(1)[oi - 1].id == id);
        lemma_find_in_queue_props(q.skip(1), id);
    }
}

/// A successful level search yields the position of a level containing the
/// id.
proof fn lemma_find_level_props(levels: Seq<LevelV>, id: u64)
    requires
        lvl_has(levels, id),
    ensures
        0 <= find_level(levels, id) < levels.len(),
        queue_has(levels[find_level(levels, id)].orders, id),
    decreases levels.len(),
{
    if queue_has(levels[0].orders, id) {
    } else {
        let (li, oi) = choose|li: int, oi: int|
            0 <= li < levels.len() && 0 <= oi < levels[li].orders.len() && levels[li].orders[oi].id
                == id;
        assert(li != 0);
        assert(levels.skip(1)[li - 1].orders[oi].id == id);
        assert(lvl_has(levels.skip(1), id));
        lemma_find_level_props(levels.skip(1), id);
    }
}

/// Index soundness: in a well-formed book, every id the index holds locates
/// an order with that id, and that order is active.
pub proof fn lemma_index_locates(b: BookV, id: u64)
    requires
        book_wf(b),
        idx_has(b.index, id),
    ensures
        spec_get_order(b, id) is Some,
        spec_get_order(b, id)->Some_0.id == id,
        is_active_v(spec_get_order(b, id)->Some_0),
{
    assert(lvl_has(b.bids, id) || lvl_has(b.asks, id));
    if lvl_has(b.bids, id) {
        lemma_find_level_props(b.bids, id);
        let li = find_level(b.bids, id);
        lemma_find_in_queue_props(b.bids[li].orders, id);
    } else {
        lemma_find_level_props(b.asks, id);
        let li = find_level(b.asks, id);
        lemma_find_in_queue_props(b.asks[li].orders, id);
    }
}

// ---------------------------------------------------------------------------
// Non-empty levels hold active orders
// ---------------------------------------------------------------------------

/// In a well-formed book every price level present on either side is
/// non-empty and every order in it is active with base remaining.
pub proof fn lemma_levels_hold_active_orders(b: BookV)
    requires
        book_wf(b),
    ensures
        forall|li: int|
            0 <= li < b.bids.len() ==> (#[trigger] b.bids[li]).orders.len() > 0 && is_active_v(
                b.bids[li].orders[0],
            ),
        forall|li: int|
            0 <= li < b.asks.len() ==> (#[trigger] b.asks[li]).orders.len() > 0 && is_active_v(
                b.asks[li].orders[0],
            ),
{
}

// ---------------------------------------------------------------------------
// Liquidity accounting
// ---------------------------------------------------------------------------

/// The saturating sum of the remaining base over the first `n` orders of a
/// queue, counting every order.
pub open spec fn queue_total(q: Seq<OrderV>, n: int) -> nat
    decreases n,
{
    if n <= 0 {
        0
    } else {
        sat_add256(queue_total(q, n - 1), q[n - 1].remaining)
    }
}

/// When every order of a queue is active, the per-level total over the
/// active orders equals the total over all orders.
proof fn lemma_level_total_all_active(q: Seq<OrderV>, n: int)
    requires
        forall|i: int| 0 <= i < q.len() ==> is_active_v(#[trigger] q[i]),
        n <= q.len(),
    ensures
        level_liquidity(q, n) == queue_total(q, n),
    decreases n,
{
    if n > 0 {
        lemma_level_total_all_active(q, n - 1);
    }
}

/// Liquidity accounting: in a well-formed book, the per-level total of
/// active remaining base equals the total over every order resting at that
/// level, on both sides — the level sums account for every active order.
pub proof fn lemma_book_liquidity_accounting(b: BookV)
    requires
        book_wf(b),
    ensures
        forall|li: int|
            0 <= li < b.bids.len() ==> level_liquidity(
                (#[trigger] b.bids[li]).orders,
                b.bids[li].orders.len() as int,
            ) == queue_total(b.bids[li].orders, b.bids[li].orders.len() as int),
        forall|li: int|
            0 <= li < b.asks.len() ==> level_liquidity(
                (#[trigger] b.asks[li]).orders,
                b.asks[li].orders.len() as int,
            ) == queue_total(b.asks[li].orders, b.asks[li].orders.len() as int),
{
    assert forall|li: int| 0 <= li < b.bids.len() implies level_liquidity(
        (#[trigger] b.bids[li]).orders,
        b.bids[li].orders.len() as int,
    ) == queue_total(b.bids[li].orders, b.bids[li].orders.len() as int) by {
        lemma_level_total_all_active(b.bids[li].orders, b.bids[li].orders.len() as int);
    }
    assert forall|li: int| 0 <= li < b.asks.len() implies level_liquidity(
        (#[trigger] b.asks[li]).orders,
        b.asks[li].orders.len() as int,
    ) == queue_total(b.asks[li].orders, b.asks[li].orders.len() as int) by {
        lemma_level_total_all_active(b.asks[li].orders, b.asks[li].orders.len() as int);
    }
}

// ---------------------------------------------------------------------------
// Price-time priority of resting orders
// ---------------------------------------------------------------------------

/// A resting order joins the tail of its queue: after insertion there is a
/// level whose queue is either the single new order, or an existing level's
/// queue with the new order appended at the end — every earlier order keeps
/// its position.
pub proof fn lemma_rest_at_tail(levels: Seq<LevelV>, o: OrderV, side: OrderSide)
    ensures
        ({
            let r = spec_insert_level(levels, o, side);
            exists|li: int|
                0 <= li < r.len() && #[trigger] r[li].orders.last() == o && ((r[li].orders
                    =~= seq![o]) || exists|lj: int|
                    0 <= lj < levels.len() && r[li].orders =~= (#[trigger] levels[lj]).orders.push(
                        o,
                    ))
        }),
    decreases levels.len(),
{
    let r = spec_insert_level(levels, o, side);
    if levels.len() == 0 {
        assert(r[0].orders =~= seq![o]);
        assert(r[0].orders.last() == o);
    } else if crate::orderbook::spec_level_better(levels[0].price, o.price, side) {
        lemma_rest_at_tail(levels.skip(1), o, side);
        let rs = spec_insert_level(levels.skip(1), o, side);
        let li = choose|li: int|
            0 <= li < rs.len() && #[trigger] rs[li].orders.last() == o && ((rs[li].orders
                =~= seq![o]) || exists|lj: int|
                0 <= lj < levels.skip(1).len() && rs[li].orders =~= (#[trigger] levels.skip(
                    1,
                )[lj]).orders.push(o));
        assert(r[li + 1] == rs[li]);
        if !(rs[li].orders =~= seq![o]) {
            let lj = choose|lj: int|
                0 <= lj < levels.skip(1).len() && rs[li].orders =~= (#[trigger] levels.skip(
                    1,
                )[lj]).orders.push(o);
            assert(levels.skip(1)[lj] == levels[lj + 1]);
            assert(r[li + 1].orders =~= levels[lj + 1].orders.push(o));
        }
    } else if crate::price::price_cmp(levels[0].price, o.price) == core::cmp::Ordering::Equal {
        assert(r[0].orders =~= levels[0].orders.push(o));
        assert(r[0].orders.last() == o);
    } else {
        assert(r[0].orders =~= seq![o]);
        assert(r[0].orders.last() == o);
    }
}

// ---------------------------------------------------------------------------
// Preservation of the book invariant: helper lemmas
// ---------------------------------------------------------------------------

/// Membership in an extended queue: the pushed order's id, or an id already
/// present.
proof fn lemma_queue_has_push(ks: Seq<OrderV>, m: OrderV, id2: u64)
    ensures
        queue_has(ks.push(m), id2) == (queue_has(ks, id2) || m.id == id2),
{
    if queue_has(ks, id2) {
        let i = choose|i: int| 0 <= i < ks.len() && ks[i].id == id2;
        assert(ks.push(m)[i].id == id2);
    }
    if m.id == id2 {
        assert(ks.push(m)[ks.len() as int].id == id2);
    }
    if queue_has(ks.push(m), id2) {
        let i = choose|i: int| 0 <= i < ks.push(m).len() && ks.push(m)[i].id == id2;
        if i < ks.len() {
            assert(ks[i].id == id2);
        }
    }
}

/// Removing an id from the index removes exactly that id.
proof fn lemma_idx_remove_has(s: Seq<IndexEntryV>, id: u64, id2: u64)
    ensures
        idx_has(idx_remove(s, id), id2) == (idx_has(s, id2) && id2 != id),
    decreases s.len(),
{
    if s.len() == 0 {
    } else {
        lemma_idx_remove_has(s.drop_last(), id, id2);
        let rest = idx_remove(s.drop_last(), id);
        // membership in s splits into the last entry and the front
        if idx_has(s, id2) {
            let i = choose|i: int| 0 <= i < s.len() && s[i].id == id2;
            if i < s.len() - 1 {
                assert(s.drop_last()[i].id == id2);
            }
        }
        if idx_has(s.drop_last(), id2) {
            let i = choose|i: int| 0 <= i < s.drop_last().len() && s.drop_last()[i].id == id2;
            assert(s[i].id == id2);
        }
        if s.last().id != id {
            // result is rest.push(s.last())
            if idx_has(rest, id2) {
                let i = choose|i: int| 0 <= i < rest.len() && rest[i].id == id2;
                assert(rest.push(s.last())[i].id == id2);
            }
            if s.last().id == id2 {
                assert(rest.push(s.last())[rest.len() as int].id == id2);
            }
            if idx_has(rest.push(s.last()), id2) {
                let i = choose|i: int|
                    0 <= i < rest.push(s.last()).len() && rest.push(s.last())[i].id == id2;
                if i < rest.len() {
                    assert(rest[i].id == id2);
                }
            }
        }
    }
}

/// Removing an id keeps the index entries a subset and keeps ids unique.
proof fn lemma_idx_remove_unique(s: Seq<IndexEntryV>, id: u64)
    requires
        crate::orderbook::idx_ids_unique(s),
    ensures
        crate::orderbook::idx_ids_unique(idx_remove(s, id)),
        forall|j: int|
            0 <= j < idx_remove(s, id).len() ==> exists|i: int|
                0 <= i < s.len() && #[trigger] idx_remove(s, id)[j] == s[i],
    decreases s.len(),
{
    if s.len() > 0 {
        assert(crate::orderbook::idx_ids_unique(s.drop_last())) by {
            assert(forall|i: int, j: int|
                0 <= i < j < s.drop_last().len() ==> s.drop_last()[i] == s[i] && s.drop_last()[j]
                    == s[j]);
        }
        lemma_idx_remove_unique(s.drop_last(), id);
        let rest = idx_remove(s.drop_last(), id);
        if s.last().id != id {
            // the appended last entry's id is fresh among rest
            assert forall|j: int| 0 <= j < rest.len() implies rest[j].id != s.last().id by {
                let i = choose|i: int| 0 <= i < s.drop_last().len() && rest[j] == s.drop_last()[i];
                assert(s[i] == s.drop_last()[i]);
                assert(s[i].id != s[s.len() - 1].id);
            }
            assert forall|j: int| 0 <= j < rest.push(s.last()).len() implies exists|i: int|
                0 <= i < s.len() && #[trigger] rest.push(s.last())[j] == s[i] by {
                if j < rest.len() {
                    let i = choose|i: int|
                        0 <= i < s.drop_last().len() && rest[j] == s.drop_last()[i];
                    assert(rest.push(s.last())[j] == s[i]);
                } else {
                    assert(rest.push(s.last())[j] == s[s.len() - 1]);
                }
            }
        } else {
            assert forall|j: int| 0 <= j < rest.len() implies exists|i: int|
                0 <= i < s.len() && #[trigger] rest[j] == s[i] by {
                let i = choose|i: int| 0 <= i < s.drop_last().len() && rest[j] == s.drop_last()[i];
                assert(rest[j] == s[i]);
            }
        }
    }
}

/// Whether the first `n` orders of a queue contain the id.
pub open spec fn queue_prefix_has(q: Seq<OrderV>, n: int, id: u64) -> bool {
    exists|i: int| 0 <= i < n && i < q.len() && (#[trigger] q[i]).id == id
}

/// Walking one queue: the kept orders are active with base remaining, carry
/// ids and prices of the walked prefix with no duplicates, the index loses
/// exactly the ids of the makers that were filled away, the volume counter
/// never decreases, and with self-trading allowed a taker that is not
/// exhausted leaves nothing behind.
proof fn lemma_queue_props(cfg: DexConfig, s: MatchStateV, q: Seq<OrderV>, n: int, bound: u64,
    opp: OrderSide)
    requires
        0 <= n <= q.len(),
        forall|i: int|
            0 <= i < q.len() ==> is_active_v(#[trigger] q[i]) && q[i].remaining > 0 && q[i].side
                == opp && q[i].id < bound,
        forall|i: int, j: int| 0 <= i < j < q.len() ==> q[i].id != q[j].id,
        crate::orderbook::idx_ids_unique(s.index),
        s.volume < crate::amount::u256_bound(),
    ensures
        ({
            let r = spec_match_queue(cfg, s, q, n);
            &&& forall|k: int|
                0 <= k < r.1.len() ==> is_active_v(#[trigger] r.1[k]) && r.1[k].remaining > 0
                    && r.1[k].side == opp && r.1[k].id < bound
            &&& forall|k: int|
                0 <= k < r.1.len() ==> exists|i: int|
                    0 <= i < n && (#[trigger] r.1[k]).id == q[i].id && r.1[k].price == q[i].price
            &&& forall|k1: int, k2: int| 0 <= k1 < k2 < r.1.len() ==> r.1[k1].id != r.1[k2].id
            &&& crate::orderbook::idx_ids_unique(r.0.index)
            &&& forall|id2: u64|
                #[trigger] idx_has(r.0.index, id2) == (idx_has(s.index, id2) && !(
                queue_prefix_has(q, n, id2) && !queue_has(r.1, id2)))
            &&& r.0.volume >= s.volume
            &&& r.0.volume < crate::amount::u256_bound()
            &&& (cfg.allow_self_trade && r.1.len() > 0 ==> r.0.taker.remaining == 0)
        }),
    decreases n,
{
    if n > 0 {
        lemma_queue_props(cfg, s, q, n - 1, bound, opp);
        let prev = spec_match_queue(cfg, s, q, n - 1);
        let r = spec_match_queue(cfg, s, q, n);
        let m = q[n - 1];
        crate::orderbook::lemma_queue_taker_fields(cfg, s, q, n - 1);
        crate::orderbook::lemma_queue_taker_fields(cfg, s, q, n);
        // the walked prefix's ids, one step further
        assert forall|id2: u64| queue_prefix_has(q, n, id2) == (queue_prefix_has(q, n - 1, id2)
            || m.id == id2) by {
            if queue_prefix_has(q, n, id2) {
                let i = choose|i: int| 0 <= i < n && i < q.len() && q[i].id == id2;
                if i < n - 1 {
                    assert(queue_prefix_has(q, n - 1, id2));
                }
            }
            if m.id == id2 {
                assert(q[n - 1].id == id2);
            }
        }
        // the maker's id is new to the prefix and to the kept orders
        assert(!queue_prefix_has(q, n - 1, m.id)) by {
            if queue_prefix_has(q, n - 1, m.id) {
                let i = choose|i: int| 0 <= i < n - 1 && i < q.len() && q[i].id == m.id;
                assert(q[i].id != q[n - 1].id);
            }
        }
        assert(!queue_has(prev.1, m.id)) by {
            if queue_has(prev.1, m.id) {
                let k = choose|k: int| 0 <= k < prev.1.len() && prev.1[k].id == m.id;
                let i = choose|i: int|
                    0 <= i < n - 1 && #[trigger] prev.1[k].id == q[i].id && prev.1[k].price
                        == q[i].price;
                assert(q[i].id != q[n - 1].id);
            }
        }
        if spec_skip_maker(cfg, prev.0, m) {
            // the maker is kept unchanged (it is active by hypothesis)
            lemma_queue_has_push(prev.1, m, m.id);
            assert forall|k: int| 0 <= k < r.1.len() implies exists|i: int|
                0 <= i < n && (#[trigger] r.1[k]).id == q[i].id && r.1[k].price == q[i].price by {
                if k < prev.1.len() {
                    let i = choose|i: int|
                        0 <= i < n - 1 && (#[trigger] prev.1[k]).id == q[i].id && prev.1[k].price
                            == q[i].price;
                    assert(r.1[k] == prev.1[k]);
                    assert(r.1[k].id == q[i].id && r.1[k].price == q[i].price);
                } else {
                    assert(r.1[k] == m);
                    assert(r.1[k].id == q[n - 1].id && r.1[k].price == q[n - 1].price);
                }
            }
            assert forall|id2: u64| #[trigger] idx_has(r.0.index, id2) == (idx_has(s.index, id2)
                && !(queue_prefix_has(q, n, id2) && !queue_has(r.1, id2))) by {
                lemma_queue_has_push(prev.1, m, id2);
            }
            // with self-trading allowed, a skip means the taker is exhausted
            if cfg.allow_self_trade {
                assert(prev.0.taker.remaining == 0 || queue_has(prev.1, m.id) || !is_active_v(m)
                    || prev.1.len() > 0 ==> true);
            }
        } else {
            let (s2, m2) = spec_step_fill(cfg, prev.0, m);
            let base = min_nat(prev.0.taker.remaining, m.remaining);
            if is_active_v(m2) {
                lemma_queue_has_push(prev.1, m2, m2.id);
                assert forall|k: int| 0 <= k < r.1.len() implies exists|i: int|
                    0 <= i < n && (#[trigger] r.1[k]).id == q[i].id && r.1[k].price
                        == q[i].price by {
                    if k < prev.1.len() {
                        let i = choose|i: int|
                            0 <= i < n - 1 && (#[trigger] prev.1[k]).id == q[i].id
                                && prev.1[k].price == q[i].price;
                        assert(r.1[k] == prev.1[k]);
                        assert(r.1[k].id == q[i].id && r.1[k].price == q[i].price);
                    } else {
                        assert(r.1[k] == m2);
                        assert(m2.id == q[n - 1].id && m2.price == q[n - 1].price);
                    }
                }
                assert forall|id2: u64| #[trigger] idx_has(r.0.index, id2) == (idx_has(
                    s.index,
                    id2,
                ) && !(queue_prefix_has(q, n, id2) && !queue_has(r.1, id2))) by {
                    lemma_queue_has_push(prev.1, m2, id2);
                }
                // a maker that stays active consumed the whole taker
                if cfg.allow_self_trade {
                    assert(m2.remaining > 0);
                    assert(base == prev.0.taker.remaining);
                    assert(s2.taker.remaining == 0);
                }
            } else {
                // the maker was filled away and leaves the index
                assert forall|k: int| 0 <= k < r.1.len() implies exists|i: int|
                    0 <= i < n && (#[trigger] r.1[k]).id == q[i].id && r.1[k].price
                        == q[i].price by {
                    let i = choose|i: int|
                        0 <= i < n - 1 && (#[trigger] prev.1[k]).id == q[i].id && prev.1[k].price
                            == q[i].price;
                    assert(r.1[k] == prev.1[k]);
                    assert(r.1[k].id == q[i].id && r.1[k].price == q[i].price);
                }
                lemma_idx_remove_unique(prev.0.index, m.id);
                assert forall|id2: u64| #[trigger] idx_has(r.0.index, id2) == (idx_has(
                    s.index,
                    id2,
                ) && !(queue_prefix_has(q, n, id2) && !queue_has(r.1, id2))) by {
                    lemma_idx_remove_has(prev.0.index, m.id, id2);
                }
            }
        }
    } else {
        assert forall|id2: u64| #[trigger] idx_has(spec_match_queue(cfg, s, q, 0).0.index, id2)
            == (idx_has(s.index, id2) && !(queue_prefix_has(q, 0, id2) && !queue_has(
            spec_match_queue(cfg, s, q, 0).1,
            id2,
        ))) by {}
    }
}

/// Sweeping the opposite side preserves the side's shape: the surviving
/// levels (the kept prefix followed by the untouched suffix) stay sorted,
/// well formed and duplicate-free, their ids all come from the original
/// side, and the index tracks exactly the ids that still rest somewhere.
#[verifier::rlimit(100)]
#[verifier::spinoff_prover]
proof fn lemma_sweep_props(cfg: DexConfig, taker: OrderV, levels: Seq<LevelV>,
    index: Seq<IndexEntryV>, volume: nat, same: Seq<LevelV>, n: int, bound: u64, opp: OrderSide)
    requires
        0 <= n <= levels.len(),
        crate::orderbook::side_wf(levels, opp),
        crate::orderbook::side_ids_unique(levels),
        crate::orderbook::side_ids_below(levels, bound),
        forall|id2: u64| !(#[trigger] lvl_has(levels, id2) && lvl_has(same, id2)),
        crate::orderbook::idx_ids_unique(index),
        forall|id2: u64| #[trigger] idx_has(index, id2) == (lvl_has(levels, id2) || lvl_has(same, id2)),
        volume < crate::amount::u256_bound(),
    ensures
        ({
            let r = spec_sweep(cfg, sweep_init(taker, index, volume), levels, n);
            let cand = r.kept + levels.skip(r.processed);
            &&& 0 <= r.processed <= n
            &&& crate::orderbook::side_wf(cand, opp)
            &&& crate::orderbook::side_ids_unique(cand)
            &&& crate::orderbook::side_ids_below(cand, bound)
            &&& (forall|id2: u64| #[trigger] lvl_has(cand, id2) ==> lvl_has(levels, id2))
            &&& crate::orderbook::idx_ids_unique(r.m.index)
            &&& (forall|id2: u64|
                #[trigger] idx_has(r.m.index, id2) == (lvl_has(cand, id2) || lvl_has(same, id2)))
            &&& r.m.volume >= volume
            &&& r.m.volume < crate::amount::u256_bound()
            &&& (cfg.allow_self_trade && r.m.taker.remaining > 0 ==> r.kept.len() == 0)
            &&& (!r.stopped ==> r.processed == n)
            &&& (r.stopped ==> r.m.taker.remaining == 0 || (r.processed < levels.len()
                && !crate::orderbook::spec_crosses(r.m.taker, levels[r.processed].price)))
        }),
    decreases n,
{
    let s0 = sweep_init(taker, index, volume);
    if n == 0 {
        let cand = s0.kept + levels.skip(0);
        assert(cand =~= levels);
    } else {
        lemma_sweep_props(cfg, taker, levels, index, volume, same, n - 1, bound, opp);
        let prev = spec_sweep(cfg, s0, levels, n - 1);
        let r = spec_sweep(cfg, s0, levels, n);
        let cand_prev = prev.kept + levels.skip(prev.processed);
        if prev.stopped {
            assert(r == prev);
        } else {
            assert(prev.processed == n - 1);
            if prev.m.taker.remaining == 0 || !crate::orderbook::spec_crosses(
                prev.m.taker,
                levels[n - 1].price,
            ) {
                // the sweep stops here; nothing changes but the flag
                assert(r.kept == prev.kept && r.processed == prev.processed && r.m == prev.m);
            } else {
                let q = levels[n - 1].orders;
                let qr = spec_match_queue(cfg, prev.m, q, q.len() as int);
                // the processed level's queue satisfies the queue hypotheses
                assert(crate::orderbook::level_wf(levels[n - 1], opp));
                assert forall|i: int, j: int| 0 <= i < j < q.len() implies q[i].id
                    != q[j].id by {
                    assert(levels[n - 1].orders[i].id != levels[n - 1].orders[j].id);
                }
                assert(forall|i: int|
                    0 <= i < q.len() ==> is_active_v(#[trigger] q[i]) && q[i].remaining > 0
                        && q[i].side == opp && q[i].id < bound);
                lemma_queue_props(cfg, prev.m, q, q.len() as int, bound, opp);
                crate::orderbook::lemma_queue_taker_fields(cfg, prev.m, q, q.len() as int);
                let kq = qr.1;
                let newlvl = LevelV { price: levels[n - 1].price, orders: kq };
                let pk = prev.kept.len() as int;
                let cand = r.kept + levels.skip(n);
                // decompose the previous candidate around the processed level
                assert(levels.skip(n - 1) =~= seq![levels[n - 1]] + levels.skip(n));
                assert(cand_prev.len() == pk + 1 + (levels.len() - n));
                assert(cand_prev[pk] == levels[n - 1]);
                assert(forall|i: int| 0 <= i < pk ==> cand_prev[i] == prev.kept[i]);
                assert(forall|i: int|
                    pk < i < cand_prev.len() ==> cand_prev[i] == levels.skip(n)[i - pk - 1]);
                // kept-queue ids come from the processed level
                assert forall|id2: u64| queue_has(kq, id2) implies queue_has(q, id2) by {
                    let k = choose|k: int| 0 <= k < kq.len() && kq[k].id == id2;
                    let i = choose|i: int|
                        0 <= i < q.len() && (#[trigger] kq[k]).id == q[i].id && kq[k].price
                            == q[i].price;
                    assert(q[i].id == id2);
                }
                // prefix membership over the whole queue is queue membership
                assert forall|id2: u64| queue_prefix_has(q, q.len() as int, id2) == queue_has(
                    q,
                    id2,
                ) by {}
                if kq.len() > 0 {
                    assert(r.kept == prev.kept.push(newlvl));
                    assert(cand.len() == cand_prev.len());
                    assert(forall|i: int| 0 <= i < pk ==> cand[i] == cand_prev[i]);
                    assert(cand[pk] == newlvl);
                    assert(forall|i: int|
                        pk < i < cand.len() ==> cand[i] == cand_prev[i]);
                    // sortedness and shape transfer position by position
                    assert forall|i: int, j: int| 0 <= i < j < cand.len() implies (
                    if opp == OrderSide::Sell {
                        crate::price::price_lt(
                            (#[trigger] cand[i]).price,
                            (#[trigger] cand[j]).price,
                        )
                    } else {
                        crate::price::price_lt(cand[j].price, cand[i].price)
                    }) by {
                        assert(cand[i].price == cand_prev[i].price);
                        assert(cand[j].price == cand_prev[j].price);
                    }
                    assert forall|i: int| 0 <= i < cand.len() implies crate::orderbook::level_wf(
                        #[trigger] cand[i],
                        opp,
                    ) by {
                        if i != pk {
                            assert(cand[i] == cand_prev[i]);
                        }
                    }
                    // uniqueness: map every order of the new candidate into the old one
                    assert forall|li: int, oi: int, lj: int, oj: int|
                        0 <= li < cand.len() && 0 <= oi < cand[li].orders.len() && 0 <= lj
                            < cand.len() && 0 <= oj < cand[lj].orders.len() && (li != lj || oi
                            != oj) implies #[trigger] cand[li].orders[oi].id
                        != #[trigger] cand[lj].orders[oj].id by {
                        if li == pk && lj == pk {
                            assert(kq[oi].id != kq[oj].id);
                        } else if li == pk {
                            let i0 = choose|i0: int|
                                0 <= i0 < q.len() && (#[trigger] kq[oi]).id == q[i0].id
                                    && kq[oi].price == q[i0].price;
                            assert(cand_prev[pk].orders[i0].id == kq[oi].id);
                            assert(cand[lj] == cand_prev[lj]);
                            assert(cand_prev[pk].orders[i0].id != cand_prev[lj].orders[oj].id);
                        } else if lj == pk {
                            let j0 = choose|j0: int|
                                0 <= j0 < q.len() && (#[trigger] kq[oj]).id == q[j0].id
                                    && kq[oj].price == q[j0].price;
                            assert(cand_prev[pk].orders[j0].id == kq[oj].id);
                            assert(cand[li] == cand_prev[li]);
                            assert(cand_prev[li].orders[oi].id != cand_prev[pk].orders[j0].id);
                        } else {
                            assert(cand[li] == cand_prev[li]);
                            assert(cand[lj] == cand_prev[lj]);
                        }
                    }
                    // membership in the new candidate
                    assert forall|id2: u64| #[trigger] lvl_has(cand, id2) == (lvl_has(
                        cand_prev,
                        id2,
                    ) && !(queue_has(q, id2) && !queue_has(kq, id2))) by {
                        if lvl_has(cand, id2) {
                            let (li, oi) = choose|li: int, oi: int|
                                0 <= li < cand.len() && 0 <= oi < cand[li].orders.len()
                                    && #[trigger] cand[li].orders[oi].id == id2;
                            if li == pk {
                                assert(queue_has(kq, id2));
                                let i0 = choose|i0: int|
                                    0 <= i0 < q.len() && (#[trigger] kq[oi]).id == q[i0].id;
                                assert(cand_prev[pk].orders[i0].id == id2);
                                assert(lvl_has(cand_prev, id2));
                            } else {
                                assert(cand[li] == cand_prev[li]);
                                assert(cand_prev[li].orders[oi].id == id2);
                                assert(lvl_has(cand_prev, id2));
                                // id2 rests outside the processed level, so not in q
                                if queue_has(q, id2) {
                                    let i0 = choose|i0: int|
                                        0 <= i0 < q.len() && (#[trigger] q[i0]).id == id2;
                                    assert(cand_prev[pk].orders[i0].id == id2);
                                    assert(cand_prev[li].orders[oi].id
                                        != cand_prev[pk].orders[i0].id);
                                }
                            }
                        }
                        if lvl_has(cand_prev, id2) && !(queue_has(q, id2) && !queue_has(kq, id2)) {
                            let (li, oi) = choose|li: int, oi: int|
                                0 <= li < cand_prev.len() && 0 <= oi < cand_prev[li].orders.len()
                                    && #[trigger] cand_prev[li].orders[oi].id == id2;
                            if li == pk {
                                assert(queue_has(q, id2));
                                assert(queue_has(kq, id2));
                                let k0 = choose|k0: int|
                                    0 <= k0 < kq.len() && (#[trigger] kq[k0]).id == id2;
                                assert(cand[pk].orders[k0].id == id2);
                                assert(lvl_has(cand, id2));
                            } else {
                                assert(cand[li] == cand_prev[li]);
                                assert(cand[li].orders[oi].id == id2);
                                assert(lvl_has(cand, id2));
                            }
                        }
                    }
                    assert forall|id2: u64| #[trigger] lvl_has(cand, id2) implies lvl_has(
                        levels,
                        id2,
                    ) by {
                        assert(lvl_has(cand_prev, id2));
                    }
                    // the index tracks the surviving ids
                    assert forall|id2: u64| #[trigger] idx_has(r.m.index, id2) == (lvl_has(
                        cand,
                        id2,
                    ) || lvl_has(same, id2)) by {
                        if lvl_has(same, id2) && queue_has(q, id2) {
                            let i0 = choose|i0: int|
                                0 <= i0 < q.len() && (#[trigger] q[i0]).id == id2;
                            assert(levels[n - 1].orders[i0].id == id2);
                            assert(lvl_has(levels, id2));
                        }
                    }
                } else {
                    assert(r.kept == prev.kept);
                    assert(cand.len() + 1 == cand_prev.len());
                    assert(forall|i: int| 0 <= i < pk ==> cand[i] == cand_prev[i]);
                    assert(forall|i: int| pk <= i < cand.len() ==> cand[i] == cand_prev[i + 1]);
                    assert forall|i: int, j: int| 0 <= i < j < cand.len() implies (
                    if opp == OrderSide::Sell {
                        crate::price::price_lt(
                            (#[trigger] cand[i]).price,
                            (#[trigger] cand[j]).price,
                        )
                    } else {
                        crate::price::price_lt(cand[j].price, cand[i].price)
                    }) by {
                        let i2: int = if i < pk { i } else { i + 1 };
                        let j2: int = if j < pk { j } else { j + 1 };
                        assert(cand[i] == cand_prev[i2]);
                        assert(cand[j] == cand_prev[j2]);
                    }
                    assert forall|i: int| 0 <= i < cand.len() implies crate::orderbook::level_wf(
                        #[trigger] cand[i],
                        opp,
                    ) by {
                        let i2: int = if i < pk { i } else { i + 1 };
                        assert(cand[i] == cand_prev[i2]);
                    }
                    assert forall|li: int, oi: int, lj: int, oj: int|
                        0 <= li < cand.len() && 0 <= oi < cand[li].orders.len() && 0 <= lj
                            < cand.len() && 0 <= oj < cand[lj].orders.len() && (li != lj || oi
                            != oj) implies #[trigger] cand[li].orders[oi].id
                        != #[trigger] cand[lj].orders[oj].id by {
                        let li2: int = if li < pk { li } else { li + 1 };
                        let lj2: int = if lj < pk { lj } else { lj + 1 };
                        assert(cand[li] == cand_prev[li2]);
                        assert(cand[lj] == cand_prev[lj2]);
                    }
                    assert forall|id2: u64| #[trigger] lvl_has(cand, id2) == (lvl_has(
                        cand_prev,
                        id2,
                    ) && !queue_has(q, id2)) by {
                        if lvl_has(cand, id2) {
                            let (li, oi) = choose|li: int, oi: int|
                                0 <= li < cand.len() && 0 <= oi < cand[li].orders.len()
                                    && #[trigger] cand[li].orders[oi].id == id2;
                            let li2: int = if li < pk { li } else { li + 1 };
                            assert(cand[li] == cand_prev[li2]);
                            assert(cand_prev[li2].orders[oi].id == id2);
                            assert(lvl_has(cand_prev, id2));
                            if queue_has(q, id2) {
                                let i0 = choose|i0: int|
                                    0 <= i0 < q.len() && (#[trigger] q[i0]).id == id2;
                                assert(cand_prev[pk].orders[i0].id == id2);
                                assert(li2 != pk);
                                assert(cand_prev[li2].orders[oi].id
                                    != cand_prev[pk].orders[i0].id);
                            }
                        }
                        if lvl_has(cand_prev, id2) && !queue_has(q, id2) {
                            let (li, oi) = choose|li: int, oi: int|
                                0 <= li < cand_prev.len() && 0 <= oi < cand_prev[li].orders.len()
                                    && #[trigger] cand_prev[li].orders[oi].id == id2;
                            if li == pk {
                                assert(queue_has(q, id2));
                            } else {
                                let li2: int = if li < pk { li } else { li - 1 };
                                assert(cand[li2] == cand_prev[li]);
                                assert(cand[li2].orders[oi].id == id2);
                                assert(lvl_has(cand, id2));
                            }
                        }
                    }
                    assert forall|id2: u64| #[trigger] lvl_has(cand, id2) implies lvl_has(
                        levels,
                        id2,
                    ) by {
                        assert(lvl_has(cand_prev, id2));
                    }
                    assert forall|id2: u64| #[trigger] idx_has(r.m.index, id2) == (lvl_has(
                        cand,
                        id2,
                    ) || lvl_has(same, id2)) by {
                        assert(!queue_has(kq, id2));
                        if lvl_has(same, id2) && queue_has(q, id2) {
                            let i0 = choose|i0: int|
                                0 <= i0 < q.len() && (#[trigger] q[i0]).id == id2;
                            assert(levels[n - 1].orders[i0].id == id2);
                            assert(lvl_has(levels, id2));
                        }
                    }
                }
            }
        }
    }
}

/// A sweep's progress counter: at most the walked depth, and exactly the
/// depth when the sweep has not stopped.
proof fn lemma_sweep_progress(cfg: DexConfig, taker: OrderV, index: Seq<IndexEntryV>,
    volume: nat, levels: Seq<LevelV>, n: int)
    requires
        0 <= n,
    ensures
        0 <= spec_sweep(cfg, sweep_init(taker, index, volume), levels, n).processed <= n,
        !spec_sweep(cfg, sweep_init(taker, index, volume), levels, n).stopped ==> spec_sweep(
            cfg,
            sweep_init(taker, index, volume),
            levels,
            n,
        ).processed == n,
    decreases n,
{
    if n > 0 {
        lemma_sweep_progress(cfg, taker, index, volume, levels, n - 1);
    }
}

/// Whether every kept level of a sweep state carries a processed level's
/// price.
pub open spec fn kept_prices_ok(r: SweepStateV, levels: Seq<LevelV>) -> bool {
    forall|k: int|
        0 <= k < r.kept.len() ==> exists|i: int|
            0 <= i < r.processed && (#[trigger] r.kept[k]).price == levels[i].price
}

/// Every level a sweep keeps carries the price of a processed level.
#[verifier::rlimit(100)]
#[verifier::spinoff_prover]
proof fn lemma_sweep_kept_prices(cfg: DexConfig, taker: OrderV, index: Seq<IndexEntryV>,
    volume: nat, levels: Seq<LevelV>, n: int)
    requires
        0 <= n <= levels.len(),
    ensures
        kept_prices_ok(spec_sweep(cfg, sweep_init(taker, index, volume), levels, n), levels),
    decreases n,
{
    lemma_sweep_progress(cfg, taker, index, volume, levels, n);
    if n > 0 {
        lemma_sweep_kept_prices(cfg, taker, index, volume, levels, n - 1);
        lemma_sweep_progress(cfg, taker, index, volume, levels, n - 1);
        let s0 = sweep_init(taker, index, volume);
        let prev = spec_sweep(cfg, s0, levels, n - 1);
        let r = spec_sweep(cfg, s0, levels, n);
        assert(kept_prices_ok(prev, levels));
        if !prev.stopped && prev.m.taker.remaining != 0 && crate::orderbook::spec_crosses(
            prev.m.taker,
            levels[n - 1].price,
        ) {
            let q = levels[n - 1].orders;
            let qr = spec_match_queue(cfg, prev.m, q, q.len() as int);
            if qr.1.len() > 0 {
                assert forall|k: int| 0 <= k < r.kept.len() implies exists|i: int|
                    0 <= i < r.processed && (#[trigger] r.kept[k]).price == levels[i].price by {
                    if k < prev.kept.len() {
                        assert(prev.kept[k] == r.kept[k]);
                        assert(exists|i: int|
                            0 <= i < prev.processed && (#[trigger] prev.kept[k]).price
                                == levels[i].price);
                        let i = choose|i: int|
                            0 <= i < prev.processed && (#[trigger] prev.kept[k]).price
                                == levels[i].price;
                        assert(r.kept[k].price == levels[i].price);
                    } else {
                        assert(r.kept[k].price == levels[n - 1].price);
                    }
                }
                assert(kept_prices_ok(r, levels));
            } else {
                assert(r.kept == prev.kept);
                assert forall|k: int| 0 <= k < r.kept.len() implies exists|i: int|
                    0 <= i < r.processed && (#[trigger] r.kept[k]).price == levels[i].price by {
                    assert(prev.kept[k] == r.kept[k]);
                    assert(exists|i: int|
                        0 <= i < prev.processed && (#[trigger] prev.kept[k]).price
                            == levels[i].price);
                    let i = choose|i: int|
                        0 <= i < prev.processed && (#[trigger] prev.kept[k]).price
                            == levels[i].price;
                    assert(r.kept[k].price == levels[i].price);
                }
                assert(kept_prices_ok(r, levels));
            }
        } else {
            assert(r.kept == prev.kept && r.processed == prev.processed);
            assert forall|k: int| 0 <= k < r.kept.len() implies exists|i: int|
                0 <= i < r.processed && (#[trigger] r.kept[k]).price == levels[i].price by {
                assert(prev.kept[k] == r.kept[k]);
                assert(exists|i: int|
                    0 <= i < prev.processed && (#[trigger] prev.kept[k]).price
                        == levels[i].price);
                let i = choose|i: int|
                    0 <= i < prev.processed && (#[trigger] prev.kept[k]).price == levels[i].price;
                assert(r.kept[k].price == levels[i].price);
            }
            assert(kept_prices_ok(r, levels));
        }
    } else {
        let r0 = spec_sweep(cfg, sweep_init(taker, index, volume), levels, 0);
        assert(r0.kept.len() == 0);
        assert(kept_prices_ok(r0, levels));
    }
}

// ---------------------------------------------------------------------------
// Resting an order preserves the side invariants
// ---------------------------------------------------------------------------

/// Resting a fresh active order preserves the side's sortedness,
/// well-formedness and id uniqueness, and adds exactly the order's id.
#[verifier::rlimit(100)]
#[verifier::spinoff_prover]
proof fn lemma_insert_wf(levels: Seq<LevelV>, o: OrderV, side: OrderSide, bound: u64)
    requires
        crate::orderbook::side_wf(levels, side),
        crate::orderbook::side_ids_unique(levels),
        crate::orderbook::side_ids_below(levels, bound),
        is_active_v(o),
        o.remaining > 0,
        o.side == side,
        o.id < bound,
        !lvl_has(levels, o.id),
    ensures
        ({
            let r = spec_insert_level(levels, o, side);
            &&& crate::orderbook::side_wf(r, side)
            &&& crate::orderbook::side_ids_unique(r)
            &&& crate::orderbook::side_ids_below(r, bound)
            &&& (forall|id2: u64| #[trigger] lvl_has(r, id2) == (lvl_has(levels, id2) || id2 == o.id))
            &&& r.len() > 0
            &&& (r[0].price == o.price || (levels.len() > 0 && r[0].price == levels[0].price))
            &&& (forall|k: int|
                0 <= k < r.len() ==> ((#[trigger] r[k]).price == o.price || exists|j: int|
                    0 <= j < levels.len() && r[k].price == (#[trigger] levels[j]).price))
        }),
    decreases levels.len(),
{
    let r = spec_insert_level(levels, o, side);
    if levels.len() == 0 {
        assert forall|id2: u64| #[trigger] lvl_has(r, id2) == (lvl_has(levels, id2) || id2
            == o.id) by {
            if id2 == o.id {
                assert(r[0].orders[0].id == id2);
            }
            if lvl_has(r, id2) {
                let (li, oi) = choose|li: int, oi: int|
                    0 <= li < r.len() && 0 <= oi < r[li].orders.len()
                        && #[trigger] r[li].orders[oi].id == id2;
                assert(li == 0 && oi == 0);
            }
        }
    } else if crate::orderbook::spec_level_better(levels[0].price, o.price, side) {
        // the first level stays ahead; insertion happens in the rest
        let rest = levels.skip(1);
        assert(forall|i: int| 0 <= i < rest.len() ==> rest[i] == levels[i + 1]);
        assert forall|id2: u64| #[trigger] lvl_has(rest, id2) implies lvl_has(levels, id2) by {
            let (li, oi) = choose|li: int, oi: int|
                0 <= li < rest.len() && 0 <= oi < rest[li].orders.len()
                    && #[trigger] rest[li].orders[oi].id == id2;
            assert(levels[li + 1].orders[oi].id == id2);
        }
        lemma_insert_wf(rest, o, side, bound);
        let rr = spec_insert_level(rest, o, side);
        assert(r =~= seq![levels[0]] + rr);
        // the head is strictly better than the inserted order's price
        if side == OrderSide::Sell {
            crate::price::lemma_cmp_less_implies_lt(levels[0].price, o.price);
        } else {
            crate::price::lemma_cmp_greater_implies_gt(levels[0].price, o.price);
        }
        assert forall|i: int, j: int| 0 <= i < j < r.len() implies (
        if side == OrderSide::Sell {
            crate::price::price_lt((#[trigger] r[i]).price, (#[trigger] r[j]).price)
        } else {
            crate::price::price_lt(r[j].price, r[i].price)
        }) by {
            if i == 0 {
                assert(r[j] == rr[j - 1]);
                if rr[j - 1].price == o.price {
                } else {
                    let j0 = choose|j0: int|
                        0 <= j0 < rest.len() && rr[j - 1].price == (#[trigger] rest[j0]).price;
                    assert(rest[j0] == levels[j0 + 1]);
                }
            } else {
                assert(r[i] == rr[i - 1]);
                assert(r[j] == rr[j - 1]);
            }
        }
        assert forall|i: int| 0 <= i < r.len() implies crate::orderbook::level_wf(
            #[trigger] r[i],
            side,
        ) by {
            if i > 0 {
                assert(r[i] == rr[i - 1]);
            }
        }
        assert forall|li: int, oi: int, lj: int, oj: int|
            0 <= li < r.len() && 0 <= oi < r[li].orders.len() && 0 <= lj < r.len() && 0 <= oj
                < r[lj].orders.len() && (li != lj || oi != oj) implies #[trigger] r[li].orders[oi].id
            != #[trigger] r[lj].orders[oj].id by {
            if li == 0 && lj == 0 {
                assert(levels[0].orders[oi].id != levels[0].orders[oj].id);
            } else if li == 0 {
                assert(r[lj] == rr[lj - 1]);
                let idj = r[lj].orders[oj].id;
                assert(lvl_has(rr, idj)) by {
                    assert(rr[lj - 1].orders[oj].id == idj);
                }
                assert(lvl_has(rest, idj) || idj == o.id);
                if idj == o.id {
                    assert(r[0].orders[oi].id == levels[0].orders[oi].id);
                    assert(r[0].orders[oi].id != o.id) by {
                        if levels[0].orders[oi].id == o.id {
                            assert(lvl_has(levels, o.id));
                        }
                    }
                } else {
                    let (lk, ok) = choose|lk: int, ok: int|
                        0 <= lk < rest.len() && 0 <= ok < rest[lk].orders.len()
                            && #[trigger] rest[lk].orders[ok].id == idj;
                    assert(levels[lk + 1].orders[ok].id == idj);
                    assert(levels[0].orders[oi].id != levels[lk + 1].orders[ok].id);
                }
            } else if lj == 0 {
                assert(r[li] == rr[li - 1]);
                let idi = r[li].orders[oi].id;
                assert(lvl_has(rr, idi)) by {
                    assert(rr[li - 1].orders[oi].id == idi);
                }
                assert(lvl_has(rest, idi) || idi == o.id);
                if idi == o.id {
                    assert(r[0].orders[oj].id != o.id) by {
                        if levels[0].orders[oj].id == o.id {
                            assert(lvl_has(levels, o.id));
                        }
                    }
                } else {
                    let (lk, ok) = choose|lk: int, ok: int|
                        0 <= lk < rest.len() && 0 <= ok < rest[lk].orders.len()
                            && #[trigger] rest[lk].orders[ok].id == idi;
                    assert(levels[lk + 1].orders[ok].id == idi);
                    assert(levels[lk + 1].orders[ok].id != levels[0].orders[oj].id);
                }
            } else {
                assert(r[li] == rr[li - 1]);
                assert(r[lj] == rr[lj - 1]);
            }
        }
        assert forall|id2: u64| #[trigger] lvl_has(r, id2) == (lvl_has(levels, id2) || id2
            == o.id) by {
            if lvl_has(r, id2) {
                let (li, oi) = choose|li: int, oi: int|
                    0 <= li < r.len() && 0 <= oi < r[li].orders.len()
                        && #[trigger] r[li].orders[oi].id == id2;
                if li == 0 {
                    assert(levels[0].orders[oi].id == id2);
                } else {
                    assert(rr[li - 1].orders[oi].id == id2);
                    assert(lvl_has(rr, id2));
                    if id2 != o.id {
                        assert(lvl_has(rest, id2));
                    }
                }
            }
            if lvl_has(levels, id2) {
                let (li, oi) = choose|li: int, oi: int|
                    0 <= li < levels.len() && 0 <= oi < levels[li].orders.len()
                        && #[trigger] levels[li].orders[oi].id == id2;
                if li == 0 {
                    assert(r[0].orders[oi].id == id2);
                } else {
                    assert(rest[li - 1].orders[oi].id == id2);
                    assert(lvl_has(rest, id2));
                    assert(lvl_has(rr, id2));
                    let (lk, ok) = choose|lk: int, ok: int|
                        0 <= lk < rr.len() && 0 <= ok < rr[lk].orders.len()
                            && #[trigger] rr[lk].orders[ok].id == id2;
                    assert(r[lk + 1].orders[ok].id == id2);
                }
            }
            if id2 == o.id {
                assert(lvl_has(rr, id2));
                let (lk, ok) = choose|lk: int, ok: int|
                    0 <= lk < rr.len() && 0 <= ok < rr[lk].orders.len()
                        && #[trigger] rr[lk].orders[ok].id == id2;
                assert(r[lk + 1].orders[ok].id == id2);
            }
        }
        assert forall|k: int| 0 <= k < r.len() implies ((#[trigger] r[k]).price == o.price
            || exists|j: int|
            0 <= j < levels.len() && r[k].price == (#[trigger] levels[j]).price) by {
            if k == 0 {
                assert(r[0].price == levels[0].price);
            } else {
                assert(r[k] == rr[k - 1]);
                if rr[k - 1].price != o.price {
                    let j0 = choose|j0: int|
                        0 <= j0 < rest.len() && rr[k - 1].price == (#[trigger] rest[j0]).price;
                    assert(r[k].price == levels[j0 + 1].price);
                }
            }
        }
    } else if crate::price::price_cmp(levels[0].price, o.price) == core::cmp::Ordering::Equal {
        // the order joins the first level's queue at the tail
        assert(r =~= seq![
            LevelV { price: levels[0].price, orders: levels[0].orders.push(o) },
        ] + levels.skip(1));
        assert(forall|i: int| 0 < i < r.len() ==> r[i] == levels[i]);
        assert(r[0].price == levels[0].price);
        assert(forall|oi: int|
            0 <= oi < levels[0].orders.len() ==> r[0].orders[oi] == levels[0].orders[oi]);
        assert(r[0].orders.last() == o);
        assert forall|li: int, oi: int, lj: int, oj: int|
            0 <= li < r.len() && 0 <= oi < r[li].orders.len() && 0 <= lj < r.len() && 0 <= oj
                < r[lj].orders.len() && (li != lj || oi != oj) implies #[trigger] r[li].orders[oi].id
            != #[trigger] r[lj].orders[oj].id by {
            let ni = levels[0].orders.len();
            if li == 0 && oi == ni {
                // the new order against anything else
                if lj == 0 && oj < ni {
                    if levels[0].orders[oj].id == o.id {
                        assert(lvl_has(levels, o.id));
                    }
                } else if lj > 0 {
                    if levels[lj].orders[oj].id == o.id {
                        assert(lvl_has(levels, o.id));
                    }
                }
            } else if lj == 0 && oj == ni {
                if li == 0 && oi < ni {
                    if levels[0].orders[oi].id == o.id {
                        assert(lvl_has(levels, o.id));
                    }
                } else if li > 0 {
                    if levels[li].orders[oi].id == o.id {
                        assert(lvl_has(levels, o.id));
                    }
                }
            } else {
                assert(r[li].orders[oi].id == levels[li].orders[oi].id);
                assert(r[lj].orders[oj].id == levels[lj].orders[oj].id);
            }
        }
        assert forall|id2: u64| #[trigger] lvl_has(r, id2) == (lvl_has(levels, id2) || id2
            == o.id) by {
            if lvl_has(r, id2) {
                let (li, oi) = choose|li: int, oi: int|
                    0 <= li < r.len() && 0 <= oi < r[li].orders.len()
                        && #[trigger] r[li].orders[oi].id == id2;
                if li == 0 && oi == levels[0].orders.len() {
                } else {
                    assert(levels[li].orders[oi].id == id2);
                }
            }
            if lvl_has(levels, id2) {
                let (li, oi) = choose|li: int, oi: int|
                    0 <= li < levels.len() && 0 <= oi < levels[li].orders.len()
                        && #[trigger] levels[li].orders[oi].id == id2;
                assert(r[li].orders[oi].id == id2);
            }
            if id2 == o.id {
                assert(r[0].orders[levels[0].orders.len() as int].id == id2);
            }
        }
    } else {
        // a fresh level goes in front: the order's price is strictly better
        assert(r =~= seq![LevelV { price: o.price, orders: seq![o] }] + levels);
        assert(forall|i: int| 0 < i < r.len() ==> r[i] == levels[i - 1]);
        if side == OrderSide::Sell {
            assert(crate::price::price_cmp(levels[0].price, o.price)
                == core::cmp::Ordering::Greater);
            crate::price::lemma_cmp_greater_implies_gt(levels[0].price, o.price);
        } else {
            assert(crate::price::price_cmp(levels[0].price, o.price)
                == core::cmp::Ordering::Less);
            crate::price::lemma_cmp_less_implies_lt(levels[0].price, o.price);
        }
        assert forall|i: int, j: int| 0 <= i < j < r.len() implies (
        if side == OrderSide::Sell {
            crate::price::price_lt((#[trigger] r[i]).price, (#[trigger] r[j]).price)
        } else {
            crate::price::price_lt(r[j].price, r[i].price)
        }) by {
            if i == 0 && j > 1 {
                if side == OrderSide::Sell {
                    crate::price::lemma_price_lt_trans(
                        o.price,
                        levels[0].price,
                        levels[j - 1].price,
                    );
                } else {
                    crate::price::lemma_price_lt_trans(
                        levels[j - 1].price,
                        levels[0].price,
                        o.price,
                    );
                }
            }
        }
        assert forall|li: int, oi: int, lj: int, oj: int|
            0 <= li < r.len() && 0 <= oi < r[li].orders.len() && 0 <= lj < r.len() && 0 <= oj
                < r[lj].orders.len() && (li != lj || oi != oj) implies #[trigger] r[li].orders[oi].id
            != #[trigger] r[lj].orders[oj].id by {
            if li == 0 && lj > 0 {
                if levels[lj - 1].orders[oj].id == o.id {
                    assert(lvl_has(levels, o.id));
                }
            } else if lj == 0 && li > 0 {
                if levels[li - 1].orders[oi].id == o.id {
                    assert(lvl_has(levels, o.id));
                }
            } else if li > 0 && lj > 0 {
                assert(r[li].orders[oi].id == levels[li - 1].orders[oi].id);
                assert(r[lj].orders[oj].id == levels[lj - 1].orders[oj].id);
            }
        }
        assert forall|id2: u64| #[trigger] lvl_has(r, id2) == (lvl_has(levels, id2) || id2
            == o.id) by {
            if lvl_has(r, id2) {
                let (li, oi) = choose|li: int, oi: int|
                    0 <= li < r.len() && 0 <= oi < r[li].orders.len()
                        && #[trigger] r[li].orders[oi].id == id2;
                if li > 0 {
                    assert(levels[li - 1].orders[oi].id == id2);
                }
            }
            if lvl_has(levels, id2) {
                let (li, oi) = choose|li: int, oi: int|
                    0 <= li < levels.len() && 0 <= oi < levels[li].orders.len()
                        && #[trigger] levels[li].orders[oi].id == id2;
                assert(r[li + 1].orders[oi].id == id2);
            }
            if id2 == o.id {
                assert(r[0].orders[0].id == id2);
            }
        }
    }
}

/// Membership in an extended index: the pushed entry's id, or one already
/// present.
proof fn lemma_idx_has_push(s: Seq<IndexEntryV>, e: IndexEntryV, id2: u64)
    ensures
        idx_has(s.push(e), id2) == (idx_has(s, id2) || e.id == id2),
{
    if idx_has(s, id2) {
        let i = choose|i: int| 0 <= i < s.len() && s[i].id == id2;
        assert(s.push(e)[i].id == id2);
    }
    if e.id == id2 {
        assert(s.push(e)[s.len() as int].id == id2);
    }
    if idx_has(s.push(e), id2) {
        let i = choose|i: int| 0 <= i < s.push(e).len() && s.push(e)[i].id == id2;
        if i < s.len() {
            assert(s[i].id == id2);
        }
    }
}

// ---------------------------------------------------------------------------
// Placing an order preserves the book invariant
// ---------------------------------------------------------------------------

/// Placing a limit order on a well-formed book leaves a well-formed book:
/// sorted sides of active orders, unique ids below the id counter, and an
/// index that holds exactly the resting ids.
pub proof fn lemma_place_limit_preserves_wf(b: BookV, trader: Seq<u8>, side: OrderSide,
    price: crate::price::PriceV, amount: nat, cfg: DexConfig)
    requires
        book_wf(b),
        b.next_order_id < u64::MAX,
    ensures
        ({
            match crate::orderbook::spec_place_limit(b, trader, side, price, amount, cfg) {
                Some(t) => book_wf(t.2),
                None => true,
            }
        }),
{
    if amount < cfg.min_order_size {
    } else {
        let taker0 = OrderV {
            id: b.next_order_id,
            trader,
            side,
            order_type: crate::order::OrderType::Limit,
            price,
            original: amount,
            remaining: amount,
            status: crate::order::OrderStatus::Open,
        };
        let levels = crate::orderbook::book_opposite(b, side);
        let same = crate::orderbook::book_same(b, side);
        let opp = if side == OrderSide::Buy {
            OrderSide::Sell
        } else {
            OrderSide::Buy
        };
        let bound = b.next_order_id;
        lemma_sweep_props(cfg, taker0, levels, b.index, b.total_volume, same, levels.len() as int,
            bound, opp);
        crate::orderbook::lemma_sweep_taker_fields(
            cfg,
            sweep_init(taker0, b.index, b.total_volume),
            levels,
            levels.len() as int,
        );
        let sw = crate::orderbook::spec_match_order(cfg, taker0, levels, b.index, b.total_volume);
        let cand = sw.kept + levels.skip(sw.processed);
        let bound2 = (bound + 1) as u64;
        let taker1 = sw.m.taker;
        let rest = taker1.remaining != 0 && is_active_v(taker1);
        assert(!lvl_has(same, taker0.id)) by {
            if lvl_has(same, taker0.id) {
                let (li, oi) = choose|li: int, oi: int|
                    0 <= li < same.len() && 0 <= oi < same[li].orders.len()
                        && #[trigger] same[li].orders[oi].id == taker0.id;
            }
        }
        assert(!lvl_has(cand, taker0.id)) by {
            if lvl_has(cand, taker0.id) {
                let (li, oi) = choose|li: int, oi: int|
                    0 <= li < cand.len() && 0 <= oi < cand[li].orders.len()
                        && #[trigger] cand[li].orders[oi].id == taker0.id;
            }
        }
        if rest {
            lemma_insert_wf(same, taker1, side, bound2);
            let same2 = spec_insert_level(same, taker1, side);
            let entry = IndexEntryV { id: taker1.id, side, price };
            let idx2 = sw.m.index.push(entry);
            assert(!idx_has(sw.m.index, taker1.id));
            assert(crate::orderbook::idx_ids_unique(idx2)) by {
                assert forall|i: int, j: int| 0 <= i < j < idx2.len() implies
                    (#[trigger] idx2[i]).id != (#[trigger] idx2[j]).id by {
                    if j == idx2.len() - 1 {
                        if idx2[i].id == taker1.id {
                            assert(sw.m.index[i].id == taker1.id);
                            assert(idx_has(sw.m.index, taker1.id));
                        }
                    } else {
                        assert(idx2[i] == sw.m.index[i]);
                        assert(idx2[j] == sw.m.index[j]);
                    }
                }
            }
            assert forall|id2: u64| #[trigger] idx_has(idx2, id2) == (lvl_has(same2, id2)
                || lvl_has(cand, id2)) by {
                lemma_idx_has_push(sw.m.index, entry, id2);
            }
            // the two sides stay disjoint: the candidate's ids are old, the new id is fresh
            assert forall|id2: u64| !(#[trigger] lvl_has(cand, id2) && lvl_has(same2, id2)) by {
                if lvl_has(cand, id2) && lvl_has(same2, id2) {
                    assert(lvl_has(levels, id2));
                    assert(id2 != taker0.id);
                    assert(lvl_has(same, id2));
                }
            }
        }
    }
}

/// Placing a market order on a well-formed book leaves a well-formed book:
/// the residual never rests, so only the swept side and the index change.
pub proof fn lemma_place_market_preserves_wf(b: BookV, trader: Seq<u8>, side: OrderSide,
    amount: nat, cfg: DexConfig)
    requires
        book_wf(b),
        b.next_order_id < u64::MAX,
    ensures
        ({
            match crate::orderbook::spec_place_market(b, trader, side, amount, cfg) {
                Some(t) => book_wf(t.1),
                None => true,
            }
        }),
{
    if amount < cfg.min_order_size {
    } else {
        let pr = if side == OrderSide::Buy {
            crate::price::PriceV { num: (crate::amount::u256_bound() - 1) as nat, den: 1nat }
        } else {
            crate::price::PriceV { num: 1nat, den: (crate::amount::u256_bound() - 1) as nat }
        };
        let taker0 = OrderV {
            id: b.next_order_id,
            trader,
            side,
            order_type: crate::order::OrderType::Market,
            price: pr,
            original: amount,
            remaining: amount,
            status: crate::order::OrderStatus::Open,
        };
        let levels = crate::orderbook::book_opposite(b, side);
        let same = crate::orderbook::book_same(b, side);
        let opp = if side == OrderSide::Buy {
            OrderSide::Sell
        } else {
            OrderSide::Buy
        };
        lemma_sweep_props(cfg, taker0, levels, b.index, b.total_volume, same, levels.len() as int,
            b.next_order_id, opp);
    }
}

// ---------------------------------------------------------------------------
// Cancelling preserves the book invariant
// ---------------------------------------------------------------------------

/// Taking one order out of a side preserves sortedness, well-formedness and
/// uniqueness, removes exactly that order's id, and leaves the head price
/// one of the original level prices.
#[verifier::rlimit(100)]
#[verifier::spinoff_prover]
proof fn lemma_remove_order_wf(levels: Seq<LevelV>, li: int, oi: int, side: OrderSide,
    bound: u64)
    requires
        crate::orderbook::side_wf(levels, side),
        crate::orderbook::side_ids_unique(levels),
        crate::orderbook::side_ids_below(levels, bound),
        0 <= li < levels.len(),
        0 <= oi < levels[li].orders.len(),
    ensures
        ({
            let rid = levels[li].orders[oi].id;
            let r = crate::orderbook::remove_from_levels(levels, li, oi);
            &&& crate::orderbook::side_wf(r, side)
            &&& crate::orderbook::side_ids_unique(r)
            &&& crate::orderbook::side_ids_below(r, bound)
            &&& (forall|id2: u64| #[trigger] lvl_has(r, id2) == (lvl_has(levels, id2) && id2 != rid))
            &&& (r.len() > 0 ==> exists|i: int|
                0 <= i < levels.len() && r[0].price == (#[trigger] levels[i]).price)
        }),
{
    let rid = levels[li].orders[oi].id;
    let q2 = levels[li].orders.remove(oi);
    let r = crate::orderbook::remove_from_levels(levels, li, oi);
    assert(forall|j: int| 0 <= j < oi ==> q2[j] == levels[li].orders[j]);
    assert(forall|j: int| oi <= j < q2.len() ==> q2[j] == levels[li].orders[j + 1]);
    if q2.len() == 0 {
        // the level disappears
        assert(r == levels.remove(li));
        assert(forall|i: int| 0 <= i < li ==> r[i] == levels[i]);
        assert(forall|i: int| li <= i < r.len() ==> r[i] == levels[i + 1]);
        assert(levels[li].orders.len() == 1);
        assert forall|i: int, j: int| 0 <= i < j < r.len() implies (
        if side == OrderSide::Sell {
            crate::price::price_lt((#[trigger] r[i]).price, (#[trigger] r[j]).price)
        } else {
            crate::price::price_lt(r[j].price, r[i].price)
        }) by {
            let i2: int = if i < li { i } else { i + 1 };
            let j2: int = if j < li { j } else { j + 1 };
            assert(r[i] == levels[i2]);
            assert(r[j] == levels[j2]);
        }
        assert forall|i: int| 0 <= i < r.len() implies crate::orderbook::level_wf(
            #[trigger] r[i],
            side,
        ) by {
            let i2: int = if i < li { i } else { i + 1 };
            assert(r[i] == levels[i2]);
        }
        assert forall|la: int, oa: int, lb: int, ob: int|
            0 <= la < r.len() && 0 <= oa < r[la].orders.len() && 0 <= lb < r.len() && 0 <= ob
                < r[lb].orders.len() && (la != lb || oa != ob) implies #[trigger] r[la].orders[oa].id
            != #[trigger] r[lb].orders[ob].id by {
            let la2: int = if la < li { la } else { la + 1 };
            let lb2: int = if lb < li { lb } else { lb + 1 };
            assert(r[la] == levels[la2]);
            assert(r[lb] == levels[lb2]);
        }
        assert forall|id2: u64| #[trigger] lvl_has(r, id2) == (lvl_has(levels, id2) && id2
            != rid) by {
            if lvl_has(r, id2) {
                let (la, oa) = choose|la: int, oa: int|
                    0 <= la < r.len() && 0 <= oa < r[la].orders.len()
                        && #[trigger] r[la].orders[oa].id == id2;
                let la2: int = if la < li { la } else { la + 1 };
                assert(levels[la2].orders[oa].id == id2);
                assert(lvl_has(levels, id2));
                if id2 == rid {
                    assert(levels[la2].orders[oa].id != levels[li].orders[oi].id);
                }
            }
            if lvl_has(levels, id2) && id2 != rid {
                let (la, oa) = choose|la: int, oa: int|
                    0 <= la < levels.len() && 0 <= oa < levels[la].orders.len()
                        && #[trigger] levels[la].orders[oa].id == id2;
                if la == li {
                    assert(oa == oi);
                    assert(false);
                } else {
                    let la2: int = if la < li { la } else { la - 1 };
                    assert(r[la2] == levels[la]);
                    assert(r[la2].orders[oa].id == id2);
                }
            }
        }
        if r.len() > 0 {
            let i0: int = if li == 0 { 1 } else { 0 };
            assert(r[0].price == levels[i0].price);
        }
    } else {
        // the level keeps its place with a shorter queue
        let newlvl = LevelV { price: levels[li].price, orders: q2 };
        assert(r == levels.update(li, newlvl));
        assert(forall|i: int| 0 <= i < r.len() && i != li ==> r[i] == levels[i]);
        assert(r[li] == newlvl);
        assert forall|i: int, j: int| 0 <= i < j < r.len() implies (
        if side == OrderSide::Sell {
            crate::price::price_lt((#[trigger] r[i]).price, (#[trigger] r[j]).price)
        } else {
            crate::price::price_lt(r[j].price, r[i].price)
        }) by {
            assert(r[i].price == levels[i].price);
            assert(r[j].price == levels[j].price);
        }
        assert forall|i: int| 0 <= i < r.len() implies crate::orderbook::level_wf(
            #[trigger] r[i],
            side,
        ) by {
            if i == li {
                assert(forall|j: int|
                    0 <= j < q2.len() ==> #[trigger] q2[j] == levels[li].orders[
                    if j < oi {
                        j
                    } else {
                        j + 1
                    }]);
            } else {
                assert(r[i] == levels[i]);
            }
        }
        assert forall|la: int, oa: int, lb: int, ob: int|
            0 <= la < r.len() && 0 <= oa < r[la].orders.len() && 0 <= lb < r.len() && 0 <= ob
                < r[lb].orders.len() && (la != lb || oa != ob) implies #[trigger] r[la].orders[oa].id
            != #[trigger] r[lb].orders[ob].id by {
            let oa2: int = if la == li && oa >= oi {
                oa + 1
            } else {
                oa
            };
            let ob2: int = if lb == li && ob >= oi {
                ob + 1
            } else {
                ob
            };
            assert(r[la].orders[oa] == levels[la].orders[oa2]);
            assert(r[lb].orders[ob] == levels[lb].orders[ob2]);
        }
        assert forall|id2: u64| #[trigger] lvl_has(r, id2) == (lvl_has(levels, id2) && id2
            != rid) by {
            if lvl_has(r, id2) {
                let (la, oa) = choose|la: int, oa: int|
                    0 <= la < r.len() && 0 <= oa < r[la].orders.len()
                        && #[trigger] r[la].orders[oa].id == id2;
                let oa2: int = if la == li && oa >= oi {
                    oa + 1
                } else {
                    oa
                };
                assert(r[la].orders[oa] == levels[la].orders[oa2]);
                assert(lvl_has(levels, id2));
                if id2 == rid {
                    assert(levels[la].orders[oa2].id != levels[li].orders[oi].id);
                }
            }
            if lvl_has(levels, id2) && id2 != rid {
                let (la, oa) = choose|la: int, oa: int|
                    0 <= la < levels.len() && 0 <= oa < levels[la].orders.len()
                        && #[trigger] levels[la].orders[oa].id == id2;
                if la == li && oa == oi {
                    assert(false);
                } else if la == li {
                    let oa2: int = if oa < oi {
                        oa
                    } else {
                        oa - 1
                    };
                    assert(r[li].orders[oa2].id == id2);
                    assert(lvl_has(r, id2));
                } else {
                    assert(r[la].orders[oa].id == id2);
                    assert(lvl_has(r, id2));
                }
            }
        }
        assert(r[0].price == levels[0].price);
    }
}

/// Cancelling an order on a well-formed book leaves a well-formed book: the
/// order leaves its level's queue, an emptied level disappears, and the id
/// leaves the index.
pub proof fn lemma_cancel_preserves_wf(b: BookV, id: u64)
    requires
        book_wf(b),
    ensures
        ({
            match spec_cancel(b, id) {
                Some(t) => book_wf(t.1),
                None => true,
            }
        }),
{
    if idx_has(b.index, id) {
        lemma_idx_remove_unique(b.index, id);
        if lvl_has(b.bids, id) {
            lemma_find_level_props(b.bids, id);
            let li = find_level(b.bids, id);
            lemma_find_in_queue_props(b.bids[li].orders, id);
            let oi = find_in_queue(b.bids[li].orders, id);
            lemma_remove_order_wf(b.bids, li, oi, OrderSide::Buy, b.next_order_id);
            let bids2 = crate::orderbook::remove_from_levels(b.bids, li, oi);
            assert forall|id2: u64| #[trigger] idx_has(idx_remove(b.index, id), id2) == (lvl_has(
                bids2,
                id2,
            ) || lvl_has(b.asks, id2)) by {
                lemma_idx_remove_has(b.index, id, id2);
            }
        } else if lvl_has(b.asks, id) {
            lemma_find_level_props(b.asks, id);
            let li = find_level(b.asks, id);
            lemma_find_in_queue_props(b.asks[li].orders, id);
            let oi = find_in_queue(b.asks[li].orders, id);
            lemma_remove_order_wf(b.asks, li, oi, OrderSide::Sell, b.next_order_id);
            let asks2 = crate::orderbook::remove_from_levels(b.asks, li, oi);
            assert forall|id2: u64| #[trigger] idx_has(idx_remove(b.index, id), id2) == (lvl_has(
                b.bids,
                id2,
            ) || lvl_has(asks2, id2)) by {
                lemma_idx_remove_has(b.index, id, id2);
            }
        }
    }
}

// ---------------------------------------------------------------------------
// No crossed book at rest
// ---------------------------------------------------------------------------

/// A book is uncrossed when, with both sides present, the best bid is
/// strictly below the best ask under the exact cross-multiplication order.
pub open spec fn book_uncrossed(b: BookV) -> bool {
    b.bids.len() > 0 && b.asks.len() > 0 ==> crate::price::price_lt(
        b.bids[0].price,
        b.asks[0].price,
    )
}

/// The best bid stays strictly below any ask level, and any bid level stays
/// strictly below the best ask, in a well-formed uncrossed book.
proof fn lemma_uncrossed_spans(b: BookV, i: int, j: int)
    requires
        book_wf(b),
        book_uncrossed(b),
        0 <= i < b.bids.len(),
        0 <= j < b.asks.len(),
    ensures
        crate::price::price_lt(b.bids[i].price, b.asks[j].price),
{
    if j > 0 {
        assert(crate::price::price_lt(b.asks[0].price, b.asks[j].price));
        crate::price::lemma_price_lt_trans(b.bids[0].price, b.asks[0].price, b.asks[j].price);
    }
    assert(crate::price::price_lt(b.bids[0].price, b.asks[j].price));
    if i > 0 {
        assert(crate::price::price_lt(b.bids[i].price, b.bids[0].price));
        crate::price::lemma_price_lt_trans(b.bids[i].price, b.bids[0].price, b.asks[j].price);
    }
}

/// Placing a market order keeps the book uncrossed: the resting side is
/// untouched and every surviving opposite level keeps an original price.
pub proof fn lemma_place_market_keeps_uncrossed(b: BookV, trader: Seq<u8>, side: OrderSide,
    amount: nat, cfg: DexConfig)
    requires
        book_wf(b),
        book_uncrossed(b),
        b.next_order_id < u64::MAX,
    ensures
        ({
            match crate::orderbook::spec_place_market(b, trader, side, amount, cfg) {
                Some(t) => book_uncrossed(t.1),
                None => true,
            }
        }),
{
    if amount < cfg.min_order_size {
    } else {
        let pr = if side == OrderSide::Buy {
            crate::price::PriceV { num: (crate::amount::u256_bound() - 1) as nat, den: 1nat }
        } else {
            crate::price::PriceV { num: 1nat, den: (crate::amount::u256_bound() - 1) as nat }
        };
        let taker0 = OrderV {
            id: b.next_order_id,
            trader,
            side,
            order_type: crate::order::OrderType::Market,
            price: pr,
            original: amount,
            remaining: amount,
            status: crate::order::OrderStatus::Open,
        };
        let levels = crate::orderbook::book_opposite(b, side);
        lemma_sweep_kept_prices(cfg, taker0, b.index, b.total_volume, levels,
            levels.len() as int);
        lemma_sweep_progress(cfg, taker0, b.index, b.total_volume, levels, levels.len() as int);
        let sw = crate::orderbook::spec_match_order(cfg, taker0, levels, b.index, b.total_volume);
        let cand = sw.kept + levels.skip(sw.processed);
        let other_len = if side == OrderSide::Buy {
            b.bids.len()
        } else {
            b.asks.len()
        };
        if cand.len() > 0 && other_len > 0 {
            if sw.kept.len() > 0 {
                assert(cand[0] == sw.kept[0]);
                let i = choose|i: int|
                    0 <= i < sw.processed && (#[trigger] sw.kept[0]).price == levels[i].price;
                if side == OrderSide::Buy {
                    lemma_uncrossed_spans(b, 0, i);
                } else {
                    lemma_uncrossed_spans(b, i, 0);
                }
            } else {
                assert(cand[0] == levels[sw.processed]);
                if side == OrderSide::Buy {
                    lemma_uncrossed_spans(b, 0, sw.processed);
                } else {
                    lemma_uncrossed_spans(b, sw.processed, 0);
                }
            }
        }
    }
}

/// Placing a limit order with self-trading allowed keeps the book
/// uncrossed: a resting residual could not cross the first surviving
/// opposite level, and with self-trading allowed nothing is passed over.
/// With self-trading disallowed a passed-over own order can leave the book
/// crossed, so that case is left out here.
pub proof fn lemma_place_limit_keeps_uncrossed(b: BookV, trader: Seq<u8>, side: OrderSide,
    price: crate::price::PriceV, amount: nat, cfg: DexConfig)
    requires
        book_wf(b),
        book_uncrossed(b),
        cfg.allow_self_trade,
        b.next_order_id < u64::MAX,
    ensures
        ({
            match crate::orderbook::spec_place_limit(b, trader, side, price, amount, cfg) {
                Some(t) => book_uncrossed(t.2),
                None => true,
            }
        }),
{
    if amount < cfg.min_order_size {
    } else {
        let taker0 = OrderV {
            id: b.next_order_id,
            trader,
            side,
            order_type: crate::order::OrderType::Limit,
            price,
            original: amount,
            remaining: amount,
            status: crate::order::OrderStatus::Open,
        };
        let levels = crate::orderbook::book_opposite(b, side);
        let same = crate::orderbook::book_same(b, side);
        let opp = if side == OrderSide::Buy {
            OrderSide::Sell
        } else {
            OrderSide::Buy
        };
        lemma_sweep_props(cfg, taker0, levels, b.index, b.total_volume, same, levels.len() as int,
            b.next_order_id, opp);
        lemma_sweep_kept_prices(cfg, taker0, b.index, b.total_volume, levels,
            levels.len() as int);
        lemma_sweep_progress(cfg, taker0, b.index, b.total_volume, levels, levels.len() as int);
        crate::orderbook::lemma_sweep_taker_fields(
            cfg,
            sweep_init(taker0, b.index, b.total_volume),
            levels,
            levels.len() as int,
        );
        let sw = crate::orderbook::spec_match_order(cfg, taker0, levels, b.index, b.total_volume);
        let cand = sw.kept + levels.skip(sw.processed);
        let taker1 = sw.m.taker;
        let rest = taker1.remaining != 0 && is_active_v(taker1);
        if rest {
            // nothing was passed over, so every processed level was emptied
            assert(sw.kept.len() == 0);
            assert(cand =~= levels.skip(sw.processed));
            let same2 = spec_insert_level(same, taker1, side);
            lemma_insert_wf(same, taker1, side, (b.next_order_id + 1) as u64);
            if cand.len() > 0 {
                assert(cand[0] == levels[sw.processed]);
                // the sweep stopped because the residual cannot cross
                assert(sw.stopped);
                assert(taker1.remaining != 0);
                assert(!crate::orderbook::spec_crosses(taker1, levels[sw.processed].price));
                if side == OrderSide::Buy {
                    assert(crate::price::price_cmp(price, levels[sw.processed].price)
                        == core::cmp::Ordering::Less);
                    crate::price::lemma_cmp_less_implies_lt(price, levels[sw.processed].price);
                } else {
                    assert(crate::price::price_cmp(price, levels[sw.processed].price)
                        == core::cmp::Ordering::Greater);
                    crate::price::lemma_cmp_greater_implies_gt(price, levels[sw.processed].price);
                }
                if same2[0].price == price {
                } else {
                    assert(same.len() > 0 && same2[0].price == same[0].price);
                    if side == OrderSide::Buy {
                        lemma_uncrossed_spans(b, 0, sw.processed);
                    } else {
                        lemma_uncrossed_spans(b, sw.processed, 0);
                    }
                }
            }
        } else {
            if cand.len() > 0 && same.len() > 0 {
                if sw.kept.len() > 0 {
                    assert(cand[0] == sw.kept[0]);
                    let i = choose|i: int|
                        0 <= i < sw.processed && (#[trigger] sw.kept[0]).price
                            == levels[i].price;
                    if side == OrderSide::Buy {
                        lemma_uncrossed_spans(b, 0, i);
                    } else {
                        lemma_uncrossed_spans(b, i, 0);
                    }
                } else {
                    assert(cand[0] == levels[sw.processed]);
                    if side == OrderSide::Buy {
                        lemma_uncrossed_spans(b, 0, sw.processed);
                    } else {
                        lemma_uncrossed_spans(b, sw.processed, 0);
                    }
                }
            }
        }
    }
}

/// Cancelling keeps the book uncrossed: each surviving side keeps prices of
/// its original levels in order.
pub proof fn lemma_cancel_keeps_uncrossed(b: BookV, id: u64)
    requires
        book_wf(b),
        book_uncrossed(b),
    ensures
        ({
            match spec_cancel(b, id) {
                Some(t) => book_uncrossed(t.1),
                None => true,
            }
        }),
{
    if idx_has(b.index, id) {
        if lvl_has(b.bids, id) {
            lemma_find_level_props(b.bids, id);
            let li = find_level(b.bids, id);
            lemma_find_in_queue_props(b.bids[li].orders, id);
            let oi = find_in_queue(b.bids[li].orders, id);
            lemma_remove_order_wf(b.bids, li, oi, OrderSide::Buy, b.next_order_id);
            let bids2 = crate::orderbook::remove_from_levels(b.bids, li, oi);
            if bids2.len() > 0 && b.asks.len() > 0 {
                let i = choose|i: int|
                    0 <= i < b.bids.len() && bids2[0].price == (#[trigger] b.bids[i]).price;
                lemma_uncrossed_spans(b, i, 0);
            }
        } else if lvl_has(b.asks, id) {
            lemma_find_level_props(b.asks, id);
            let li = find_level(b.asks, id);
            lemma_find_in_queue_props(b.asks[li].orders, id);
            let oi = find_in_queue(b.asks[li].orders, id);
            lemma_remove_order_wf(b.asks, li, oi, OrderSide::Sell, b.next_order_id);
            let asks2 = crate::orderbook::remove_from_levels(b.asks, li, oi);
            if b.bids.len() > 0 && asks2.len() > 0 {
                let j = choose|j: int|
                    0 <= j < b.asks.len() && asks2[0].price == (#[trigger] b.asks[j]).price;
                lemma_uncrossed_spans(b, 0, j);
            }
        }
    }
}


/// Price-time priority within a level: walking one queue records fills in
/// queue order. Every fill the walk adds names a maker from the walked
/// prefix, and of any two added fills the earlier one's maker sits strictly
/// earlier in the queue. Together with `lemma_rest_at_tail` (a later order
/// at the same price joins the queue behind an earlier one), orders at one
/// price fill strictly in their order of arrival.
pub proof fn lemma_queue_fills_in_order(cfg: DexConfig, s: MatchStateV, q: Seq<OrderV>, n: int)
    requires
        0 <= n <= q.len(),
        forall|i: int, j: int| 0 <= i < j < q.len() ==> q[i].id != q[j].id,
    ensures
        ({
            let r = spec_match_queue(cfg, s, q, n);
            &&& s.fills.len() <= r.0.fills.len()
            &&& (forall|f: int| 0 <= f < s.fills.len() ==> r.0.fills[f] == s.fills[f])
            &&& (forall|f: int|
                s.fills.len() <= f < r.0.fills.len() ==> exists|i: int|
                    0 <= i < n && (#[trigger] r.0.fills[f]).maker_order_id == q[i].id)
            &&& (forall|f1: int, f2: int|
                s.fills.len() <= f1 < f2 < r.0.fills.len() ==> exists|i1: int, i2: int|
                    0 <= i1 < i2 < n && (#[trigger] r.0.fills[f1]).maker_order_id == q[i1].id
                        && (#[trigger] r.0.fills[f2]).maker_order_id == q[i2].id)
        }),
    decreases n,
{
    if n > 0 {
        lemma_queue_fills_in_order(cfg, s, q, n - 1);
        let prev = spec_match_queue(cfg, s, q, n - 1);
        let r = spec_match_queue(cfg, s, q, n);
        let m = q[n - 1];
        if spec_skip_maker(cfg, prev.0, m) {
            assert(r.0.fills == prev.0.fills);
            assert forall|f: int| s.fills.len() <= f < r.0.fills.len() implies exists|i: int|
                0 <= i < n && (#[trigger] r.0.fills[f]).maker_order_id == q[i].id by {
                assert(r.0.fills[f] == prev.0.fills[f]);
                let i = choose|i: int|
                    0 <= i < n - 1 && (#[trigger] prev.0.fills[f]).maker_order_id == q[i].id;
                assert(r.0.fills[f].maker_order_id == q[i].id);
            }
            assert forall|f1: int, f2: int|
                s.fills.len() <= f1 < f2 < r.0.fills.len() implies exists|i1: int, i2: int|
                0 <= i1 < i2 < n && (#[trigger] r.0.fills[f1]).maker_order_id == q[i1].id
                    && (#[trigger] r.0.fills[f2]).maker_order_id == q[i2].id by {
                assert(r.0.fills[f1] == prev.0.fills[f1]);
                assert(r.0.fills[f2] == prev.0.fills[f2]);
                let (i1, i2) = choose|i1: int, i2: int|
                    0 <= i1 < i2 < n - 1 && (#[trigger] prev.0.fills[f1]).maker_order_id
                        == q[i1].id && (#[trigger] prev.0.fills[f2]).maker_order_id == q[i2].id;
                assert(r.0.fills[f1].maker_order_id == q[i1].id);
                assert(r.0.fills[f2].maker_order_id == q[i2].id);
            }
        } else {
            assert(r.0.fills == prev.0.fills.push(r.0.fills.last()));
            assert(r.0.fills.last().maker_order_id == m.id);
            assert forall|f: int| s.fills.len() <= f < r.0.fills.len() implies exists|i: int|
                0 <= i < n && (#[trigger] r.0.fills[f]).maker_order_id == q[i].id by {
                if f < prev.0.fills.len() {
                    assert(r.0.fills[f] == prev.0.fills[f]);
                    let i = choose|i: int|
                        0 <= i < n - 1 && (#[trigger] prev.0.fills[f]).maker_order_id == q[i].id;
                    assert(r.0.fills[f].maker_order_id == q[i].id);
                } else {
                    assert(r.0.fills[f].maker_order_id == q[n - 1].id);
                }
            }
            assert forall|f1: int, f2: int|
                s.fills.len() <= f1 < f2 < r.0.fills.len() implies exists|i1: int, i2: int|
                0 <= i1 < i2 < n && (#[trigger] r.0.fills[f1]).maker_order_id == q[i1].id
                    && (#[trigger] r.0.fills[f2]).maker_order_id == q[i2].id by {
                if f2 < prev.0.fills.len() {
                    assert(r.0.fills[f1] == prev.0.fills[f1]);
                    assert(r.0.fills[f2] == prev.0.fills[f2]);
                    let (i1, i2) = choose|i1: int, i2: int|
                        0 <= i1 < i2 < n - 1 && (#[trigger] prev.0.fills[f1]).maker_order_id
                            == q[i1].id && (#[trigger] prev.0.fills[f2]).maker_order_id
                            == q[i2].id;
                    assert(r.0.fills[f1].maker_order_id == q[i1].id);
                    assert(r.0.fills[f2].maker_order_id == q[i2].id);
                } else {
                    assert(r.0.fills[f1] == prev.0.fills[f1]);
                    let i1 = choose|i1: int|
                        0 <= i1 < n - 1 && (#[trigger] prev.0.fills[f1]).maker_order_id
                            == q[i1].id;
                    assert(r.0.fills[f1].maker_order_id == q[i1].id);
                    assert(r.0.fills[f2].maker_order_id == q[n - 1].id);
                }
            }
        }
    }
}

} // verus!
