//! Multi-hop routing: the token graph and path enumeration.
//!
//! The router keeps an undirected token graph and the pair registered for
//! each ordered token pair. Route enumeration walks the graph one layer at a
//! time, extending simple paths best-first, and returns the routes sorted by
//! hop count; its behaviour is stated by the functional model `spec_find_routes`.

use vstd::prelude::*;
use crate::amount::Amount;
use crate::config::DexConfig;
use crate::orderbook::{spec_simulate_buy, spec_simulate_sell, BookV, OrderBook};
use crate::pair::{spec_pair_id, Pair, PairId};
use crate::token::{Address, TokenId};

verus! {

// ---------------------------------------------------------------------------
// Data types and views
// ---------------------------------------------------------------------------

/// The mathematical content of a pair: its two token addresses.
#[verifier::ext_equal]
pub struct PairV {
    pub base: Seq<u8>,
    pub quote: Seq<u8>,
}

/// The view of a pair.
pub open spec fn pair_view(p: Pair) -> PairV {
    PairV { base: p.base@, quote: p.quote@ }
}

/// A single hop in a route.
#[derive(Debug, Clone, Copy)]
pub struct RouteHop {
    /// The trading pair for this hop.
    pub pair: Pair,
    /// The input token for this hop.
    pub token_in: TokenId,
    /// The output token for this hop.
    pub token_out: TokenId,
}

/// The mathematical content of a route hop.
#[verifier::ext_equal]
pub struct RouteHopV {
    pub pair: PairV,
    pub token_in: Seq<u8>,
    pub token_out: Seq<u8>,
}

impl View for RouteHop {
    type V = RouteHopV;

    open spec fn view(&self) -> RouteHopV {
        RouteHopV { pair: pair_view(self.pair), token_in: self.token_in@, token_out: self.token_out@ }
    }
}

/// A complete route from one token to another.
#[derive(Debug, Clone)]
pub struct Route {
    /// The hops in this route.
    pub hops: Vec<RouteHop>,
}

impl View for Route {
    type V = Seq<RouteHopV>;

    open spec fn view(&self) -> Seq<RouteHopV> {
        self.hops@.map_values(|h: RouteHop| h@)
    }
}

impl Route {
    /// Get the number of hops in this route.
    pub fn len(&self) -> (r: usize)
        ensures
            r == self@.len(),
    {
        self.hops.len()
    }

    /// Check if the route is empty.
    pub fn is_empty(&self) -> (r: bool)
        ensures
            r == (self@.len() == 0),
    {
        self.hops.len() == 0
    }

    /// Get the input token.
    pub fn token_in(&self) -> (r: Option<TokenId>)
        ensures
            match r {
                Some(t) => self@.len() > 0 && t@ == self@[0].token_in,
                None => self@.len() == 0,
            },
    {
        if self.hops.len() > 0 {
            Some(self.hops[0].token_in)
        } else {
            None
        }
    }

    /// Get the output token.
    pub fn token_out(&self) -> (r: Option<TokenId>)
        ensures
            match r {
                Some(t) => self@.len() > 0 && t@ == self@[self@.len() - 1].token_out,
                None => self@.len() == 0,
            },
    {
        if self.hops.len() > 0 {
            Some(self.hops[self.hops.len() - 1].token_out)
        } else {
            None
        }
    }
}

/// A quote for a swap.
#[derive(Debug, Clone)]
pub struct Quote {
    /// The input token.
    pub token_in: TokenId,
    /// The output token.
    pub token_out: TokenId,
    /// The input amount.
    pub amount_in: Amount,
    /// The expected output amount (after fees).
    pub amount_out: Amount,
    /// The route to execute.
    pub route: Route,
    /// Estimated price impact in basis points.
    pub price_impact: crate::amount::U256,
    /// Total fees paid.
    pub total_fee: Amount,
}

/// One node of the token graph: a token and its direct neighbours.
#[derive(Debug)]
struct GraphEntry {
    token: TokenId,
    neighbors: Vec<TokenId>,
}

/// The mathematical content of a graph node.
#[verifier::ext_equal]
pub struct GEntryV {
    pub token: Seq<u8>,
    pub neighbors: Seq<Seq<u8>>,
}

impl View for GraphEntry {
    type V = GEntryV;

    closed spec fn view(&self) -> GEntryV {
        GEntryV { token: self.token@, neighbors: self.neighbors@.map_values(|t: TokenId| t@) }
    }
}

/// One entry of the pair table: the pair registered under an ordered token
/// key.
#[derive(Debug)]
struct PairEntry {
    key_in: TokenId,
    key_out: TokenId,
    pair: Pair,
}

/// The mathematical content of a pair-table entry.
#[verifier::ext_equal]
pub struct PEntryV {
    pub key_in: Seq<u8>,
    pub key_out: Seq<u8>,
    pub pair: PairV,
}

impl View for PairEntry {
    type V = PEntryV;

    closed spec fn view(&self) -> PEntryV {
        PEntryV { key_in: self.key_in@, key_out: self.key_out@, pair: pair_view(self.pair) }
    }
}

/// The mathematical content of a router.
#[verifier::ext_equal]
pub struct RouterV {
    pub graph: Seq<GEntryV>,
    pub pairs: Seq<PEntryV>,
}

/// Router for finding paths between tokens.
#[derive(Debug)]
pub struct Router {
    graph: Vec<GraphEntry>,
    pairs: Vec<PairEntry>,
}

impl View for Router {
    type V = RouterV;

    closed spec fn view(&self) -> RouterV {
        RouterV {
            graph: self.graph@.map_values(|e: GraphEntry| e@),
            pairs: self.pairs@.map_values(|e: PairEntry| e@),
        }
    }
}

// ---------------------------------------------------------------------------
// The functional model of the graph
// ---------------------------------------------------------------------------

/// The position of a token's node in the graph, or -1.
pub open spec fn graph_find(g: Seq<GEntryV>, t: Seq<u8>) -> int
    decreases g.len(),
{
    if g.len() == 0 {
        -1
    } else if g[0].token == t {
        0
    } else {
        let r = graph_find(g.skip(1), t);
        if r < 0 {
            -1
        } else {
            r + 1
        }
    }
}

/// The direct neighbours of a token, empty for an unknown token.
pub open spec fn spec_neighbors(g: Seq<GEntryV>, t: Seq<u8>) -> Seq<Seq<u8>> {
    let i = graph_find(g, t);
    if i < 0 {
        Seq::empty()
    } else {
        g[i].neighbors
    }
}

/// Whether a sequence of tokens contains a token.
pub open spec fn tokens_contain(ts: Seq<Seq<u8>>, t: Seq<u8>) -> bool {
    exists|i: int| 0 <= i < ts.len() && ts[i] == t
}

/// The graph after adding a directed adjacency `a -> b`: `b` joins `a`'s
/// neighbours unless already present; an unknown `a` gets a fresh node.
pub open spec fn spec_graph_add(g: Seq<GEntryV>, a: Seq<u8>, b: Seq<u8>) -> Seq<GEntryV> {
    let i = graph_find(g, a);
    if i < 0 {
        g.push(GEntryV { token: a, neighbors: seq![b] })
    } else if tokens_contain(g[i].neighbors, b) {
        g
    } else {
        g.update(i, GEntryV { token: a, neighbors: g[i].neighbors.push(b) })
    }
}

/// The position of the pair registered under an ordered token key, or -1.
pub open spec fn pairs_find(ps: Seq<PEntryV>, a: Seq<u8>, b: Seq<u8>) -> int
    decreases ps.len(),
{
    if ps.len() == 0 {
        -1
    } else if ps[0].key_in == a && ps[0].key_out == b {
        0
    } else {
        let r = pairs_find(ps.skip(1), a, b);
        if r < 0 {
            -1
        } else {
            r + 1
        }
    }
}

/// The pair table after registering `p` under the key `(a, b)`: the entry is
/// replaced when the key exists, appended otherwise.
pub open spec fn spec_pairs_put(ps: Seq<PEntryV>, a: Seq<u8>, b: Seq<u8>, p: PairV)
    -> Seq<PEntryV> {
    let i = pairs_find(ps, a, b);
    if i < 0 {
        ps.push(PEntryV { key_in: a, key_out: b, pair: p })
    } else {
        ps.update(i, PEntryV { key_in: a, key_out: b, pair: p })
    }
}

/// The graph after removing the directed adjacency `a -> b` (the first
/// occurrence of `b` among `a`'s neighbours).
pub open spec fn spec_graph_remove(g: Seq<GEntryV>, a: Seq<u8>, b: Seq<u8>) -> Seq<GEntryV> {
    let i = graph_find(g, a);
    if i < 0 {
        g
    } else {
        let ns = g[i].neighbors;
        let j = tokens_find(ns, b);
        if j < 0 {
            g
        } else {
            g.update(i, GEntryV { token: a, neighbors: ns.remove(j) })
        }
    }
}

/// The position of a token in a token sequence, or -1.
pub open spec fn tokens_find(ts: Seq<Seq<u8>>, t: Seq<u8>) -> int
    decreases ts.len(),
{
    if ts.len() == 0 {
        -1
    } else if ts[0] == t {
        0
    } else {
        let r = tokens_find(ts.skip(1), t);
        if r < 0 {
            -1
        } else {
            r + 1
        }
    }
}

/// The pair table after unregistering the key `(a, b)`.
pub open spec fn spec_pairs_remove(ps: Seq<PEntryV>, a: Seq<u8>, b: Seq<u8>) -> Seq<PEntryV> {
    let i = pairs_find(ps, a, b);
    if i < 0 {
        ps
    } else {
        ps.remove(i)
    }
}

/// `graph_find` finds the first node with the token.
proof fn lemma_graph_find_at(g: Seq<GEntryV>, t: Seq<u8>, i: int)
    requires
        0 <= i < g.len(),
        g[i].token == t,
        forall|j: int| 0 <= j < i ==> (#[trigger] g[j]).token != t,
    ensures
        graph_find(g, t) == i,
    decreases i,
{
    if i > 0 {
        lemma_graph_find_at(g.skip(1), t, i - 1);
    }
}

/// `graph_find` fails exactly when no node has the token.
proof fn lemma_graph_find_none(g: Seq<GEntryV>, t: Seq<u8>)
    requires
        forall|j: int| 0 <= j < g.len() ==> (#[trigger] g[j]).token != t,
    ensures
        graph_find(g, t) == -1,
    decreases g.len(),
{
    if g.len() > 0 {
        lemma_graph_find_none(g.skip(1), t);
    }
}

/// `tokens_find` finds the first occurrence.
proof fn lemma_tokens_find_at(ts: Seq<Seq<u8>>, t: Seq<u8>, i: int)
    requires
        0 <= i < ts.len(),
        ts[i] == t,
        forall|j: int| 0 <= j < i ==> ts[j] != t,
    ensures
        tokens_find(ts, t) == i,
    decreases i,
{
    if i > 0 {
        lemma_tokens_find_at(ts.skip(1), t, i - 1);
    }
}

/// `tokens_find` fails exactly when the token is absent.
proof fn lemma_tokens_find_none(ts: Seq<Seq<u8>>, t: Seq<u8>)
    requires
        forall|j: int| 0 <= j < ts.len() ==> ts[j] != t,
    ensures
        tokens_find(ts, t) == -1,
    decreases ts.len(),
{
    if ts.len() > 0 {
        lemma_tokens_find_none(ts.skip(1), t);
    }
}

/// `pairs_find` finds the first entry with the key.
proof fn lemma_pairs_find_at(ps: Seq<PEntryV>, a: Seq<u8>, b: Seq<u8>, i: int)
    requires
        0 <= i < ps.len(),
        ps[i].key_in == a && ps[i].key_out == b,
        forall|j: int| 0 <= j < i ==> !((#[trigger] ps[j]).key_in == a && ps[j].key_out == b),
    ensures
        pairs_find(ps, a, b) == i,
    decreases i,
{
    if i > 0 {
        lemma_pairs_find_at(ps.skip(1), a, b, i - 1);
    }
}

/// `pairs_find` fails exactly when no entry has the key.
proof fn lemma_pairs_find_none(ps: Seq<PEntryV>, a: Seq<u8>, b: Seq<u8>)
    requires
        forall|j: int| 0 <= j < ps.len() ==> !((#[trigger] ps[j]).key_in == a && ps[j].key_out == b),
    ensures
        pairs_find(ps, a, b) == -1,
    decreases ps.len(),
{
    if ps.len() > 0 {
        lemma_pairs_find_none(ps.skip(1), a, b);
    }
}

// ---------------------------------------------------------------------------
// Exec helpers on the graph
// ---------------------------------------------------------------------------

/// Find a token's node in the graph.
fn find_graph_entry(graph: &Vec<GraphEntry>, t: &TokenId) -> (r: Option<usize>)
    ensures
        ({
            let gv = graph@.map_values(|e: GraphEntry| e@);
            match r {
                Some(i) => i < gv.len() && graph_find(gv, t@) == i && gv[i as int].token == t@,
                None => graph_find(gv, t@) == -1,
            }
        }),
{
    let ghost gv = graph@.map_values(|e: GraphEntry| e@);
    let mut i: usize = 0;
    while i < graph.len()
        invariant
            i <= graph@.len(),
            gv == graph@.map_values(|e: GraphEntry| e@),
            forall|j: int| 0 <= j < i ==> (#[trigger] gv[j]).token != t@,
        decreases graph@.len() - i,
    {
        if graph[i].token.addr_eq(t) {
            proof {
                lemma_graph_find_at(gv, t@, i as int);
            }
            return Some(i);
        }
        i += 1;
    }
    proof {
        lemma_graph_find_none(gv, t@);
    }
    None
}

/// Find a token in a token vector.
fn find_token(ts: &Vec<TokenId>, t: &TokenId) -> (r: Option<usize>)
    ensures
        ({
            let tv = ts@.map_values(|x: TokenId| x@);
            match r {
                Some(i) => i < tv.len() && tokens_find(tv, t@) == i && tv[i as int] == t@
                    && tokens_contain(tv, t@),
                None => tokens_find(tv, t@) == -1 && !tokens_contain(tv, t@),
            }
        }),
{
    let ghost tv = ts@.map_values(|x: TokenId| x@);
    let mut i: usize = 0;
    while i < ts.len()
        invariant
            i <= ts@.len(),
            tv == ts@.map_values(|x: TokenId| x@),
            forall|j: int| 0 <= j < i ==> tv[j] != t@,
        decreases ts@.len() - i,
    {
        if ts[i].addr_eq(t) {
            proof {
                lemma_tokens_find_at(tv, t@, i as int);
            }
            return Some(i);
        }
        i += 1;
    }
    proof {
        lemma_tokens_find_none(tv, t@);
    }
    None
}

/// Add the directed adjacency `a -> b` to the graph.
fn graph_add_edge(graph: &mut Vec<GraphEntry>, a: TokenId, b: TokenId)
    ensures
        final(graph)@.map_values(|e: GraphEntry| e@) == spec_graph_add(
            old(graph)@.map_values(|e: GraphEntry| e@),
            a@,
            b@,
        ),
{
    let ghost gv = graph@.map_values(|e: GraphEntry| e@);
    match find_graph_entry(graph, &a) {
        None => {
            let mut ns: Vec<TokenId> = Vec::new();
            ns.push(b);
            graph.push(GraphEntry { token: a, neighbors: ns });
            proof {
                assert(ns@.map_values(|t: TokenId| t@) =~= seq![b@]);
                assert(graph@.map_values(|e: GraphEntry| e@) =~~= spec_graph_add(gv, a@, b@));
            }
        },
        Some(i) => {
            proof {
                assert(gv[i as int] == graph@[i as int]@);
            }
            let present = match find_token(&graph[i].neighbors, &b) {
                Some(_) => true,
                None => false,
            };
            if !present {
                let ghost g0 = graph@;
                let mut entry = graph.remove(i);
                let ghost e0 = entry@;
                entry.neighbors.push(b);
                proof {
                    assert(e0 == gv[i as int]);
                    assert(entry@.neighbors =~= e0.neighbors.push(b@));
                }
                let ghost ev = entry@;
                graph.insert(i, entry);
                proof {
                    assert(graph@ =~= g0.update(i as int, graph@[i as int]));
                    assert(graph@[i as int]@ == ev);
                    assert(ev =~~= GEntryV { token: a@, neighbors: gv[i as int].neighbors.push(b@) });
                    assert(graph@.map_values(|e: GraphEntry| e@) =~~= gv.update(
                        i as int,
                        GEntryV { token: a@, neighbors: gv[i as int].neighbors.push(b@) },
                    ));
                }
            }
        },
    }
}

/// Remove the directed adjacency `a -> b` from the graph.
fn graph_remove_edge(graph: &mut Vec<GraphEntry>, a: &TokenId, b: &TokenId)
    ensures
        final(graph)@.map_values(|e: GraphEntry| e@) == spec_graph_remove(
            old(graph)@.map_values(|e: GraphEntry| e@),
            a@,
            b@,
        ),
{
    let ghost gv = graph@.map_values(|e: GraphEntry| e@);
    match find_graph_entry(graph, a) {
        None => {
        },
        Some(i) => {
            proof {
                assert(gv[i as int] == graph@[i as int]@);
            }
            let pos = find_token(&graph[i].neighbors, b);
            match pos {
                None => {
                },
                Some(j) => {
                    let ghost g0 = graph@;
                    let mut entry = graph.remove(i);
                    let ghost e0 = entry@;
                    entry.neighbors.remove(j);
                    proof {
                        assert(e0 == gv[i as int]);
                        assert(entry@.neighbors =~= e0.neighbors.remove(j as int));
                    }
                    let ghost ev = entry@;
                    graph.insert(i, entry);
                    proof {
                        assert(graph@ =~= g0.update(i as int, graph@[i as int]));
                        assert(graph@[i as int]@ == ev);
                        assert(ev =~~= GEntryV {
                            token: a@,
                            neighbors: gv[i as int].neighbors.remove(j as int),
                        });
                        assert(graph@.map_values(|e: GraphEntry| e@) =~~= gv.update(
                            i as int,
                            GEntryV {
                                token: a@,
                                neighbors: gv[i as int].neighbors.remove(j as int),
                            },
                        ));
                    }
                },
            }
        },
    }
}

/// Register a pair under an ordered token key.
fn pairs_put(pairs: &mut Vec<PairEntry>, a: TokenId, b: TokenId, p: Pair)
    ensures
        final(pairs)@.map_values(|e: PairEntry| e@) == spec_pairs_put(
            old(pairs)@.map_values(|e: PairEntry| e@),
            a@,
            b@,
            pair_view(p),
        ),
{
    let ghost pv = pairs@.map_values(|e: PairEntry| e@);
    let mut i: usize = 0;
    while i < pairs.len()
        invariant
            i <= pairs@.len(),
            pairs@ == old(pairs)@,
            pv == pairs@.map_values(|e: PairEntry| e@),
            forall|j: int| 0 <= j < i ==> !((#[trigger] pv[j]).key_in == a@ && pv[j].key_out == b@),
        decreases pairs@.len() - i,
    {
        if pairs[i].key_in.addr_eq(&a) && pairs[i].key_out.addr_eq(&b) {
            proof {
                assert(pv[i as int] == pairs@[i as int]@);
                lemma_pairs_find_at(pv, a@, b@, i as int);
            }
            let ghost p0 = pairs@;
            let _old = pairs.remove(i);
            pairs.insert(i, PairEntry { key_in: a, key_out: b, pair: p });
            proof {
                assert(pairs@ =~= p0.update(i as int, pairs@[i as int]));
                assert(pairs@[i as int]@ =~~= PEntryV {
                    key_in: a@,
                    key_out: b@,
                    pair: pair_view(p),
                });
                assert(pairs@.map_values(|e: PairEntry| e@) =~~= pv.update(
                    i as int,
                    PEntryV { key_in: a@, key_out: b@, pair: pair_view(p) },
                ));
            }
            return ;
        }
        i += 1;
    }
    proof {
        lemma_pairs_find_none(pv, a@, b@);
    }
    pairs.push(PairEntry { key_in: a, key_out: b, pair: p });
    proof {
        assert(pairs@.map_values(|e: PairEntry| e@) =~~= pv.push(
            PEntryV { key_in: a@, key_out: b@, pair: pair_view(p) },
        ));
    }
}

/// Unregister the pair under an ordered token key.
fn pairs_take_out(pairs: &mut Vec<PairEntry>, a: &TokenId, b: &TokenId)
    ensures
        final(pairs)@.map_values(|e: PairEntry| e@) == spec_pairs_remove(
            old(pairs)@.map_values(|e: PairEntry| e@),
            a@,
            b@,
        ),
{
    let ghost pv = pairs@.map_values(|e: PairEntry| e@);
    let mut i: usize = 0;
    while i < pairs.len()
        invariant
            i <= pairs@.len(),
            pairs@ == old(pairs)@,
            pv == pairs@.map_values(|e: PairEntry| e@),
            forall|j: int| 0 <= j < i ==> !((#[trigger] pv[j]).key_in == a@ && pv[j].key_out == b@),
        decreases pairs@.len() - i,
    {
        if pairs[i].key_in.addr_eq(a) && pairs[i].key_out.addr_eq(b) {
            proof {
                assert(pv[i as int] == pairs@[i as int]@);
                lemma_pairs_find_at(pv, a@, b@, i as int);
            }
            let _removed = pairs.remove(i);
            proof {
                assert(pairs@.map_values(|e: PairEntry| e@) =~~= pv.remove(i as int));
            }
            return ;
        }
        i += 1;
    }
    proof {
        lemma_pairs_find_none(pv, a@, b@);
    }
}

impl Router {
    /// Create a new, empty router.
    pub fn new() -> (r: Self)
        ensures
            r@.graph =~= Seq::<GEntryV>::empty(),
            r@.pairs =~= Seq::<PEntryV>::empty(),
    {
        let r = Self { graph: Vec::new(), pairs: Vec::new() };
        proof {
            assert(r@.graph =~= Seq::<GEntryV>::empty());
            assert(r@.pairs =~= Seq::<PEntryV>::empty());
        }
        r
    }

    /// Add a trading pair to the router: both directed edges join the graph,
    /// and the pair is registered under both ordered keys.
    pub fn add_pair(&mut self, pair: Pair)
        ensures
            final(self)@.graph == spec_graph_add(
                spec_graph_add(old(self)@.graph, pair.base@, pair.quote@),
                pair.quote@,
                pair.base@,
            ),
            final(self)@.pairs == spec_pairs_put(
                spec_pairs_put(old(self)@.pairs, pair.base@, pair.quote@, pair_view(pair)),
                pair.quote@,
                pair.base@,
                pair_view(pair),
            ),
    {
        graph_add_edge(&mut self.graph, pair.base, pair.quote);
        graph_add_edge(&mut self.graph, pair.quote, pair.base);
        pairs_put(&mut self.pairs, pair.base, pair.quote, pair);
        pairs_put(&mut self.pairs, pair.quote, pair.base, pair);
    }

    /// Remove a trading pair from the router, reversing `add_pair`.
    pub fn remove_pair(&mut self, pair: Pair)
        ensures
            final(self)@.graph == spec_graph_remove(
                spec_graph_remove(old(self)@.graph, pair.base@, pair.quote@),
                pair.quote@,
                pair.base@,
            ),
            final(self)@.pairs == spec_pairs_remove(
                spec_pairs_remove(old(self)@.pairs, pair.base@, pair.quote@),
                pair.quote@,
                pair.base@,
            ),
    {
        graph_remove_edge(&mut self.graph, &pair.base, &pair.quote);
        graph_remove_edge(&mut self.graph, &pair.quote, &pair.base);
        pairs_take_out(&mut self.pairs, &pair.base, &pair.quote);
        pairs_take_out(&mut self.pairs, &pair.quote, &pair.base);
    }

    /// Get all tokens that are tradeable: the nodes of the graph.
    pub fn all_tokens(&self) -> (r: Vec<TokenId>)
        ensures
            r@.map_values(|t: TokenId| t@) == self@.graph.map_values(|e: GEntryV| e.token),
    {
        let mut r: Vec<TokenId> = Vec::new();
        let mut i: usize = 0;
        while i < self.graph.len()
            invariant
                i <= self.graph@.len(),
                r@.map_values(|t: TokenId| t@) =~= self@.graph.take(i as int).map_values(
                    |e: GEntryV| e.token,
                ),
            decreases self.graph@.len() - i,
        {
            let ghost r0 = r@;
            r.push(self.graph[i].token);
            proof {
                assert(r@ =~= r0.push(self.graph@[i as int].token));
                assert(self@.graph[i as int] == self.graph@[i as int]@);
                assert(r@.map_values(|t: TokenId| t@) =~= r0.map_values(|t: TokenId| t@).push(
                    self@.graph[i as int].token,
                ));
                assert(self@.graph.take(i as int + 1) =~= self@.graph.take(i as int).push(
                    self@.graph[i as int],
                ));
                assert(self@.graph.take(i as int + 1).map_values(|e: GEntryV| e.token)
                    =~= self@.graph.take(i as int).map_values(|e: GEntryV| e.token).push(
                    self@.graph[i as int].token,
                ));
                assert(r@.map_values(|t: TokenId| t@) =~= self@.graph.take(
                    i as int + 1,
                ).map_values(|e: GEntryV| e.token));
            }
            i += 1;
        }
        proof {
            assert(self@.graph.take(self@.graph.len() as int) =~= self@.graph);
        }
        r
    }
}

// ---------------------------------------------------------------------------
// Route enumeration, functionally
// ---------------------------------------------------------------------------

/// The views of a sequence of tokens.
pub open spec fn token_views(s: Seq<TokenId>) -> Seq<Seq<u8>> {
    s.map_values(|t: TokenId| t@)
}

/// The views of a worklist of paths.
pub open spec fn paths_views(s: Seq<Vec<TokenId>>) -> Seq<Seq<Seq<u8>>> {
    s.map_values(|p: Vec<TokenId>| token_views(p@))
}

/// The views of a list of routes.
pub open spec fn route_views(s: Seq<Route>) -> Seq<Seq<RouteHopV>> {
    s.map_values(|r: Route| r@)
}

/// The pair ids keyed in a book table.
pub open spec fn book_ids(s: Seq<(PairId, OrderBook)>) -> Seq<Seq<u8>> {
    s.map_values(|e: (PairId, OrderBook)| e.0@)
}

/// The views of a book table.
pub open spec fn book_views(s: Seq<(PairId, OrderBook)>) -> Seq<(Seq<u8>, BookV)> {
    s.map_values(|e: (PairId, OrderBook)| (e.0@, e.1@))
}

/// Extend one path by each of the first `k` neighbours that would not close
/// a cycle, appending the longer paths to the next layer.
pub open spec fn path_extend(next: Seq<Seq<Seq<u8>>>, path: Seq<Seq<u8>>, nbrs: Seq<Seq<u8>>,
    k: int) -> Seq<Seq<Seq<u8>>>
    decreases k,
{
    if k <= 0 {
        next
    } else {
        let prev = path_extend(next, path, nbrs, k - 1);
        if tokens_contain(path, nbrs[k - 1]) {
            prev
        } else {
            prev.push(path.push(nbrs[k - 1]))
        }
    }
}

/// The hop from `a` to `b`: the pair registered under `(a, b)`, provided its
/// canonical id has a book.
pub open spec fn spec_hop(ps: Seq<PEntryV>, ids: Seq<Seq<u8>>, a: Seq<u8>, b: Seq<u8>)
    -> Option<RouteHopV> {
    let i = pairs_find(ps, a, b);
    if i < 0 {
        None
    } else {
        let pr = ps[i].pair;
        if tokens_contain(ids, spec_pair_id(pr.base, pr.quote)) {
            Some(RouteHopV { pair: pr, token_in: a, token_out: b })
        } else {
            None
        }
    }
}

/// The route along the first `k` steps of a token path, hop by hop; `None`
/// as soon as one hop has no registered pair or no book.
pub open spec fn spec_path_route(ps: Seq<PEntryV>, ids: Seq<Seq<u8>>, path: Seq<Seq<u8>>, k: int)
    -> Option<Seq<RouteHopV>>
    decreases k,
{
    if k <= 0 {
        Some(Seq::empty())
    } else {
        match spec_path_route(ps, ids, path, k - 1) {
            None => None,
            Some(hops) => match spec_hop(ps, ids, path[k - 1], path[k]) {
                None => None,
                Some(h) => Some(hops.push(h)),
            },
        }
    }
}

/// Once a hop fails, the rest of the path yields no route.
proof fn lemma_path_route_freeze(ps: Seq<PEntryV>, ids: Seq<Seq<u8>>, path: Seq<Seq<u8>>,
    k1: int, k2: int)
    requires
        0 <= k1 <= k2,
        spec_path_route(ps, ids, path, k1) is None,
    ensures
        spec_path_route(ps, ids, path, k2) is None,
    decreases k2 - k1,
{
    if k2 > k1 {
        lemma_path_route_freeze(ps, ids, path, k1, k2 - 1);
    }
}

/// One path of a layer: record a route when the path has reached the target,
/// extend it when it may still grow, drop it otherwise.
pub open spec fn spec_process_path(st: (Seq<Seq<RouteHopV>>, Seq<Seq<Seq<u8>>>), g: Seq<GEntryV>,
    ps: Seq<PEntryV>, ids: Seq<Seq<u8>>, token_out: Seq<u8>, max_hops: nat, path: Seq<Seq<u8>>)
    -> (Seq<Seq<RouteHopV>>, Seq<Seq<Seq<u8>>>) {
    if path.len() == 0 {
        st
    } else {
        let cur = path.last();
        if cur == token_out && path.len() > 1 {
            match spec_path_route(ps, ids, path, path.len() - 1) {
                None => st,
                Some(r) => (st.0.push(r), st.1),
            }
        } else if path.len() > max_hops {
            st
        } else {
            let nbrs = spec_neighbors(g, cur);
            (st.0, path_extend(st.1, path, nbrs, nbrs.len() as int))
        }
    }
}

/// The first `k` paths of one layer.
pub open spec fn spec_process_layer(st: (Seq<Seq<RouteHopV>>, Seq<Seq<Seq<u8>>>),
    g: Seq<GEntryV>, ps: Seq<PEntryV>, ids: Seq<Seq<u8>>, token_out: Seq<u8>, max_hops: nat,
    layer: Seq<Seq<Seq<u8>>>, k: int) -> (Seq<Seq<RouteHopV>>, Seq<Seq<Seq<u8>>>)
    decreases k,
{
    if k <= 0 {
        st
    } else {
        spec_process_path(
            spec_process_layer(st, g, ps, ids, token_out, max_hops, layer, k - 1),
            g,
            ps,
            ids,
            token_out,
            max_hops,
            layer[k - 1],
        )
    }
}

/// `rounds` layers of breadth-first enumeration, collecting the routes
/// recorded along the way.
pub open spec fn spec_rounds(routes: Seq<Seq<RouteHopV>>, layer: Seq<Seq<Seq<u8>>>,
    g: Seq<GEntryV>, ps: Seq<PEntryV>, ids: Seq<Seq<u8>>, token_out: Seq<u8>, max_hops: nat,
    rounds: nat) -> Seq<Seq<RouteHopV>>
    decreases rounds,
{
    if rounds == 0 {
        routes
    } else {
        let st = spec_process_layer(
            (routes, Seq::empty()),
            g,
            ps,
            ids,
            token_out,
            max_hops,
            layer,
            layer.len() as int,
        );
        spec_rounds(st.0, st.1, g, ps, ids, token_out, max_hops, (rounds - 1) as nat)
    }
}

/// All simple routes from `token_in` to `token_out` of at most `max_hops`
/// hops whose every hop is registered and has a book, in breadth-first
/// order: shorter routes first, each layer in extension order.
pub open spec fn spec_enumerate_routes(g: Seq<GEntryV>, ps: Seq<PEntryV>, ids: Seq<Seq<u8>>,
    token_in: Seq<u8>, token_out: Seq<u8>, max_hops: nat) -> Seq<Seq<RouteHopV>> {
    spec_rounds(Seq::empty(), seq![seq![token_in]], g, ps, ids, token_out, max_hops, max_hops + 1)
}

/// A route inserted after every route with at most as many hops: the stable
/// insertion step of sorting by hop count.
pub open spec fn spec_insert_route(rs: Seq<Seq<RouteHopV>>, r: Seq<RouteHopV>)
    -> Seq<Seq<RouteHopV>>
    decreases rs.len(),
{
    if rs.len() == 0 {
        seq![r]
    } else if rs[0].len() <= r.len() {
        seq![rs[0]] + spec_insert_route(rs.skip(1), r)
    } else {
        seq![r] + rs
    }
}

/// The first `k` routes sorted by hop count, stably.
pub open spec fn spec_sort_routes(rs: Seq<Seq<RouteHopV>>, k: int) -> Seq<Seq<RouteHopV>>
    decreases k,
{
    if k <= 0 {
        Seq::empty()
    } else {
        spec_insert_route(spec_sort_routes(rs, k - 1), rs[k - 1])
    }
}

/// The routes from `token_in` to `token_out`: the breadth-first enumeration,
/// sorted stably by hop count.
pub open spec fn spec_find_routes(g: Seq<GEntryV>, ps: Seq<PEntryV>, ids: Seq<Seq<u8>>,
    token_in: Seq<u8>, token_out: Seq<u8>, max_hops: nat) -> Seq<Seq<RouteHopV>> {
    let rs = spec_enumerate_routes(g, ps, ids, token_in, token_out, max_hops);
    spec_sort_routes(rs, rs.len() as int)
}

/// When the first `i` sorted routes are at most as long, insertion happens
/// in the remainder.
proof fn lemma_insert_route_prefix(rs: Seq<Seq<RouteHopV>>, r: Seq<RouteHopV>, i: int)
    requires
        0 <= i <= rs.len(),
        forall|j: int| 0 <= j < i ==> (#[trigger] rs[j]).len() <= r.len(),
    ensures
        spec_insert_route(rs, r) == rs.take(i) + spec_insert_route(rs.skip(i), r),
    decreases i,
{
    if i == 0 {
        assert(rs.skip(0) =~= rs);
        assert(rs.take(0) + spec_insert_route(rs, r) =~= spec_insert_route(rs, r));
    } else {
        lemma_insert_route_prefix(rs.skip(1), r, i - 1);
        assert(rs.skip(1).skip(i - 1) =~= rs.skip(i));
        assert(rs.skip(1).take(i - 1) =~= rs.subrange(1, i));
        assert(seq![rs[0]] + (rs.subrange(1, i) + spec_insert_route(rs.skip(i), r)) =~= rs.take(i)
            + spec_insert_route(rs.skip(i), r));
    }
}

// ---------------------------------------------------------------------------
// Route enumeration, executably
// ---------------------------------------------------------------------------

/// Whether a book table holds a book for the pair id.
fn books_contain(books: &Vec<(PairId, OrderBook)>, id: &PairId) -> (r: bool)
    ensures
        r == tokens_contain(book_ids(books@), id@),
{
    let ghost ids = book_ids(books@);
    let mut i: usize = 0;
    while i < books.len()
        invariant
            i <= books@.len(),
            ids == book_ids(books@),
            forall|j: int| 0 <= j < i ==> ids[j] != id@,
        decreases books@.len() - i,
    {
        if books[i].0.id_eq(id) {
            proof {
                assert(ids[i as int] == id@);
            }
            return true;
        }
        i += 1;
    }
    false
}

/// The hop from `a` to `b`, when a pair is registered and its book exists.
fn hop_for(pairs: &Vec<PairEntry>, books: &Vec<(PairId, OrderBook)>, a: &TokenId, b: &TokenId)
    -> (r: Option<RouteHop>)
    ensures
        ({
            let pv = pairs@.map_values(|e: PairEntry| e@);
            match r {
                Some(h) => spec_hop(pv, book_ids(books@), a@, b@) == Some(h@) && h@.token_in == a@
                    && h@.token_out == b@,
                None => spec_hop(pv, book_ids(books@), a@, b@) is None,
            }
        }),
{
    let ghost pv = pairs@.map_values(|e: PairEntry| e@);
    let mut i: usize = 0;
    while i < pairs.len()
        invariant
            i <= pairs@.len(),
            pv == pairs@.map_values(|e: PairEntry| e@),
            forall|j: int| 0 <= j < i ==> !((#[trigger] pv[j]).key_in == a@ && pv[j].key_out == b@),
        decreases pairs@.len() - i,
    {
        if pairs[i].key_in.addr_eq(a) && pairs[i].key_out.addr_eq(b) {
            proof {
                assert(pv[i as int] == pairs@[i as int]@);
                lemma_pairs_find_at(pv, a@, b@, i as int);
            }
            let pr = pairs[i].pair;
            let pid = pr.id();
            if books_contain(books, &pid) {
                return Some(RouteHop { pair: pr, token_in: *a, token_out: *b });
            } else {
                return None;
            }
        }
        i += 1;
    }
    proof {
        lemma_pairs_find_none(pv, a@, b@);
    }
    None
}

/// The route along a token path, hop by hop; `None` as soon as one hop has
/// no registered pair or no book.
fn path_to_route(pairs: &Vec<PairEntry>, books: &Vec<(PairId, OrderBook)>, path: &Vec<TokenId>)
    -> (r: Option<Route>)
    requires
        path@.len() >= 1,
    ensures
        ({
            let pv = pairs@.map_values(|e: PairEntry| e@);
            let model = spec_path_route(
                pv,
                book_ids(books@),
                token_views(path@),
                path@.len() - 1,
            );
            match r {
                Some(rt) => model == Some(rt@),
                None => model is None,
            }
        }),
{
    let ghost pv = pairs@.map_values(|e: PairEntry| e@);
    let ghost ids = book_ids(books@);
    let ghost pw = token_views(path@);
    let mut hops: Vec<RouteHop> = Vec::new();
    let mut i: usize = 0;
    proof {
        assert(route_views(Seq::<Route>::empty()) =~= Seq::<Seq<RouteHopV>>::empty());
        assert(hops@.map_values(|h: RouteHop| h@) =~= Seq::<RouteHopV>::empty());
    }
    while i < path.len() - 1
        invariant
            path@.len() >= 1,
            i <= path@.len() - 1,
            pv == pairs@.map_values(|e: PairEntry| e@),
            ids == book_ids(books@),
            pw == token_views(path@),
            spec_path_route(pv, ids, pw, i as int) == Some(
                hops@.map_values(|h: RouteHop| h@),
            ),
        decreases path@.len() - 1 - i,
    {
        proof {
            assert(pw[i as int] == path@[i as int]@);
            assert(pw[i as int + 1] == path@[i as int + 1]@);
        }
        match hop_for(pairs, books, &path[i], &path[i + 1]) {
            None => {
                proof {
                    lemma_path_route_freeze(pv, ids, pw, i as int + 1, pw.len() - 1);
                }
                return None;
            },
            Some(h) => {
                let ghost h0 = hops@;
                hops.push(h);
                proof {
                    assert(hops@.map_values(|x: RouteHop| x@) =~= h0.map_values(
                        |x: RouteHop| x@,
                    ).push(h@));
                }
            },
        }
        i += 1;
    }
    Some(Route { hops })
}

/// A copy of a token path.
fn copy_path(path: &Vec<TokenId>) -> (r: Vec<TokenId>)
    ensures
        r@ == path@,
{
    let mut r: Vec<TokenId> = Vec::new();
    let mut i: usize = 0;
    while i < path.len()
        invariant
            i <= path@.len(),
            r@ =~= path@.take(i as int),
        decreases path@.len() - i,
    {
        r.push(path[i]);
        i += 1;
    }
    proof {
        assert(path@.take(path@.len() as int) =~= path@);
    }
    r
}

impl Router {
    /// Find all routes between two tokens of at most `max_hops` hops, walking
    /// the graph one layer at a time and keeping only simple paths whose
    /// every hop has a registered pair and an existing book; the result is
    /// sorted by hop count, shortest first, ties in enumeration order.
    pub fn find_routes(&self, token_in: TokenId, token_out: TokenId, max_hops: usize,
        orderbooks: &Vec<(PairId, OrderBook)>) -> (r: Vec<Route>)
        requires
            max_hops < usize::MAX,
        ensures
            route_views(r@) == spec_find_routes(
                self@.graph,
                self@.pairs,
                book_ids(orderbooks@),
                token_in@,
                token_out@,
                max_hops as nat,
            ),
    {
        let ghost g = self@.graph;
        let ghost pv = self@.pairs;
        let ghost ids = book_ids(orderbooks@);
        let mut routes: Vec<Route> = Vec::new();
        let mut layer: Vec<Vec<TokenId>> = Vec::new();
        let mut first: Vec<TokenId> = Vec::new();
        first.push(token_in);
        layer.push(first);
        proof {
            assert(token_views(layer@[0]@) =~= seq![token_in@]);
            assert(paths_views(layer@) =~= seq![seq![token_in@]]);
            assert(route_views(routes@) =~= Seq::<Seq<RouteHopV>>::empty());
        }
        let rounds = max_hops + 1;
        let mut d: usize = 0;
        while d < rounds
            invariant
                d <= rounds,
                rounds == max_hops + 1,
                g == self@.graph,
                pv == self@.pairs,
                ids == book_ids(orderbooks@),
                spec_rounds(
                    route_views(routes@),
                    paths_views(layer@),
                    g,
                    pv,
                    ids,
                    token_out@,
                    max_hops as nat,
                    (rounds - d) as nat,
                ) == spec_rounds(
                    Seq::<Seq<RouteHopV>>::empty(),
                    seq![seq![token_in@]],
                    g,
                    pv,
                    ids,
                    token_out@,
                    max_hops as nat,
                    rounds as nat,
                ),
            decreases rounds - d,
        {
            let ghost routes0 = route_views(routes@);
            let ghost layer0 = paths_views(layer@);
            let mut next: Vec<Vec<TokenId>> = Vec::new();
            let mut pi: usize = 0;
            proof {
                assert(paths_views(next@) =~= Seq::<Seq<Seq<u8>>>::empty());
            }
            while pi < layer.len()
                invariant
                    pi <= layer@.len(),
                    g == self@.graph,
                    pv == self@.pairs,
                    ids == book_ids(orderbooks@),
                    layer0 == paths_views(layer@),
                    (route_views(routes@), paths_views(next@)) == spec_process_layer(
                        (routes0, Seq::<Seq<Seq<u8>>>::empty()),
                        g,
                        pv,
                        ids,
                        token_out@,
                        max_hops as nat,
                        layer0,
                        pi as int,
                    ),
                decreases layer@.len() - pi,
            {
                let path = &layer[pi];
                proof {
                    assert(layer0[pi as int] == token_views(layer@[pi as int]@));
                }
                if path.len() == 0 {
                    // unreachable: layers hold non-empty paths; mirrored by the model
                } else {
                    let cur = path[path.len() - 1];
                    proof {
                        assert(token_views(path@).last() == cur@);
                    }
                    if cur.addr_eq(&token_out) && path.len() > 1 {
                        match path_to_route(&self.pairs, orderbooks, path) {
                            None => {
                            },
                            Some(rt) => {
                                let ghost r0 = routes@;
                                routes.push(rt);
                                proof {
                                    assert(route_views(routes@) =~= route_views(r0).push(rt@));
                                }
                            },
                        }
                    } else if path.len() > max_hops {
                    } else {
                        match find_graph_entry(&self.graph, &cur) {
                            None => {
                                proof {
                                    assert(spec_neighbors(g, cur@) =~= Seq::<Seq<u8>>::empty());
                                }
                            },
                            Some(gi) => {
                                proof {
                                    assert(g[gi as int] == self.graph@[gi as int]@);
                                    assert(spec_neighbors(g, cur@) == g[gi as int].neighbors);
                                }
                                let nbrs = &self.graph[gi].neighbors;
                                let ghost next0 = paths_views(next@);
                                let mut ni: usize = 0;
                                while ni < nbrs.len()
                                    invariant
                                        ni <= nbrs@.len(),
                                        gi < self.graph@.len(),
                                        g == self@.graph,
                                        nbrs@ == self.graph@[gi as int].neighbors@,
                                        token_views(nbrs@) == spec_neighbors(
                                            g,
                                            token_views(path@).last(),
                                        ),
                                        path@.len() >= 1,
                                        paths_views(next@) == path_extend(
                                            next0,
                                            token_views(path@),
                                            token_views(nbrs@),
                                            ni as int,
                                        ),
                                    decreases nbrs@.len() - ni,
                                {
                                    proof {
                                        assert(token_views(nbrs@)[ni as int] == nbrs@[ni as int]@);
                                    }
                                    let nb = nbrs[ni];
                                    let contained = match find_token(path, &nb) {
                                        Some(_) => true,
                                        None => false,
                                    };
                                    if !contained {
                                        let mut np = copy_path(path);
                                        np.push(nb);
                                        let ghost n0 = next@;
                                        next.push(np);
                                        proof {
                                            assert(token_views(np@) =~= token_views(path@).push(
                                                nb@,
                                            ));
                                            assert(paths_views(next@) =~= paths_views(n0).push(
                                                token_views(np@),
                                            ));
                                        }
                                    }
                                    ni += 1;
                                }
                            },
                        }
                    }
                }
                pi += 1;
            }
            layer = next;
            d += 1;
        }
        // sort the routes by hop count, stably
        let ghost collected = route_views(routes@);
        let mut sorted: Vec<Route> = Vec::new();
        let mut si: usize = 0;
        proof {
            assert(route_views(sorted@) =~= Seq::<Seq<RouteHopV>>::empty());
        }
        while si < routes.len()
            invariant
                si <= routes@.len(),
                collected == route_views(routes@),
                route_views(sorted@) == spec_sort_routes(collected, si as int),
            decreases routes@.len() - si,
        {
            let ghost sv = route_views(sorted@);
            let r = Route { hops: copy_hops(&routes[si].hops) };
            proof {
                assert(r@ =~= collected[si as int]);
            }
            let mut k: usize = 0;
            while k < sorted.len() && sorted[k].hops.len() <= r.hops.len()
                invariant
                    k <= sorted@.len(),
                    sv == route_views(sorted@),
                    r@ =~= collected[si as int],
                    forall|j: int| 0 <= j < k ==> (#[trigger] sv[j]).len() <= r@.len(),
                decreases sorted@.len() - k,
            {
                proof {
                    assert(sv[k as int] == sorted@[k as int]@);
                }
                k += 1;
            }
            proof {
                if k < sorted@.len() {
                    assert(sv[k as int] == sorted@[k as int]@);
                }
                lemma_insert_route_prefix(sv, r@, k as int);
            }
            let ghost s0 = sorted@;
            sorted.insert(k, r);
            proof {
                if k < s0.len() {
                    assert(sv.skip(k as int)[0] == sv[k as int]);
                    assert(route_views(sorted@) =~= sv.take(k as int) + (seq![collected[si as int]]
                        + sv.skip(k as int)));
                } else {
                    assert(sv.skip(k as int) =~= Seq::<Seq<RouteHopV>>::empty());
                    assert(route_views(sorted@) =~= sv.take(k as int) + (seq![
                        collected[si as int],
                    ] + sv.skip(k as int)));
                }
            }
            si += 1;
        }
        proof {
            assert(route_views(sorted@) == spec_sort_routes(collected, collected.len() as int));
        }
        sorted
    }
}

/// A copy of a route's hops.
pub(crate) fn copy_hops(hops: &Vec<RouteHop>) -> (r: Vec<RouteHop>)
    ensures
        r@ == hops@,
{
    let mut r: Vec<RouteHop> = Vec::new();
    let mut i: usize = 0;
    while i < hops.len()
        invariant
            i <= hops@.len(),
            r@ =~= hops@.take(i as int),
        decreases hops@.len() - i,
    {
        r.push(hops[i]);
        i += 1;
    }
    proof {
        assert(hops@.take(hops@.len() as int) =~= hops@);
    }
    r
}

// ---------------------------------------------------------------------------
// Route simulation and selection, functionally
// ---------------------------------------------------------------------------

/// The position of a pair id's book in a book table, or -1.
pub open spec fn books_find(bs: Seq<(Seq<u8>, BookV)>, id: Seq<u8>) -> int
    decreases bs.len(),
{
    if bs.len() == 0 {
        -1
    } else if bs[0].0 == id {
        0
    } else {
        let r = books_find(bs.skip(1), id);
        if r < 0 {
            -1
        } else {
            r + 1
        }
    }
}

/// `books_find` finds the first book with the id.
pub proof fn lemma_books_find_at(bs: Seq<(Seq<u8>, BookV)>, id: Seq<u8>, i: int)
    requires
        0 <= i < bs.len(),
        bs[i].0 == id,
        forall|j: int| 0 <= j < i ==> (#[trigger] bs[j]).0 != id,
    ensures
        books_find(bs, id) == i,
    decreases i,
{
    if i > 0 {
        lemma_books_find_at(bs.skip(1), id, i - 1);
    }
}

/// `books_find` fails exactly when no book has the id.
pub proof fn lemma_books_find_none(bs: Seq<(Seq<u8>, BookV)>, id: Seq<u8>)
    requires
        forall|j: int| 0 <= j < bs.len() ==> (#[trigger] bs[j]).0 != id,
    ensures
        books_find(bs, id) == -1,
    decreases bs.len(),
{
    if bs.len() > 0 {
        lemma_books_find_none(bs.skip(1), id);
    }
}

/// The output of one hop: the book of the hop's pair simulates a market
/// sell when the hop enters with the base token, a market buy otherwise.
pub open spec fn spec_hop_output(bs: Seq<(Seq<u8>, BookV)>, cfg: DexConfig, hop: RouteHopV,
    amount: nat) -> Option<nat> {
    let id = spec_pair_id(hop.pair.base, hop.pair.quote);
    let bi = books_find(bs, id);
    if bi < 0 {
        None
    } else {
        let b = bs[bi].1;
        let sim = if b.base == hop.token_in {
            spec_simulate_sell(b.bids, amount, cfg)
        } else {
            spec_simulate_buy(b.asks, amount, cfg)
        };
        match sim {
            None => None,
            Some(p) => Some(p.0),
        }
    }
}

/// The output of the first `k` hops of a route chained together; `None` as
/// soon as one hop has no book or no liquidity.
pub open spec fn spec_simulate_route(bs: Seq<(Seq<u8>, BookV)>, cfg: DexConfig,
    route: Seq<RouteHopV>, amount_in: nat, k: int) -> Option<nat>
    decreases k,
{
    if k <= 0 {
        Some(amount_in)
    } else {
        match spec_simulate_route(bs, cfg, route, amount_in, k - 1) {
            None => None,
            Some(cur) => spec_hop_output(bs, cfg, route[k - 1], cur),
        }
    }
}

/// Once a hop fails, the rest of the route yields nothing.
proof fn lemma_simulate_route_freeze(bs: Seq<(Seq<u8>, BookV)>, cfg: DexConfig,
    route: Seq<RouteHopV>, amount_in: nat, k1: int, k2: int)
    requires
        0 <= k1 <= k2,
        spec_simulate_route(bs, cfg, route, amount_in, k1) is None,
    ensures
        spec_simulate_route(bs, cfg, route, amount_in, k2) is None,
    decreases k2 - k1,
{
    if k2 > k1 {
        lemma_simulate_route_freeze(bs, cfg, route, amount_in, k1, k2 - 1);
    }
}

/// The best of the first `k` routes by simulated output: the first route
/// with the strictly highest output wins.
pub open spec fn spec_best_route(bs: Seq<(Seq<u8>, BookV)>, cfg: DexConfig,
    routes: Seq<Seq<RouteHopV>>, amount_in: nat, k: int) -> Option<(int, nat)>
    decreases k,
{
    if k <= 0 {
        None
    } else {
        let prev = spec_best_route(bs, cfg, routes, amount_in, k - 1);
        match spec_simulate_route(bs, cfg, routes[k - 1], amount_in, routes[k - 1].len() as int) {
            None => prev,
            Some(out) => match prev {
                None => Some((k - 1, out)),
                Some(b) => if out > b.1 {
                    Some((k - 1, out))
                } else {
                    prev
                },
            },
        }
    }
}

// ---------------------------------------------------------------------------
// Route simulation and selection, executably
// ---------------------------------------------------------------------------

/// Find the book of a pair id in a book table.
fn find_book<'a>(books: &'a Vec<(PairId, OrderBook)>, id: &PairId) -> (r: Option<&'a OrderBook>)
    ensures
        ({
            let bs = book_views(books@);
            match r {
                Some(b) => books_find(bs, id@) >= 0 && bs[books_find(bs, id@)].1 == b@,
                None => books_find(bs, id@) == -1,
            }
        }),
{
    let ghost bs = book_views(books@);
    let mut i: usize = 0;
    while i < books.len()
        invariant
            i <= books@.len(),
            bs == book_views(books@),
            forall|j: int| 0 <= j < i ==> (#[trigger] bs[j]).0 != id@,
        decreases books@.len() - i,
    {
        if books[i].0.id_eq(id) {
            proof {
                assert(bs[i as int] == (books@[i as int].0@, books@[i as int].1@));
                lemma_books_find_at(bs, id@, i as int);
            }
            return Some(&books[i].1);
        }
        i += 1;
    }
    proof {
        lemma_books_find_none(bs, id@);
    }
    None
}

impl Router {
    /// Simulate a route hop by hop: the output of each hop becomes the input
    /// of the next; `None` when a hop has no book or no liquidity.
    pub fn simulate_route(&self, route: &Route, amount_in: Amount,
        orderbooks: &Vec<(PairId, OrderBook)>, config: &DexConfig) -> (r: Option<Amount>)
        ensures
            ({
                let model = spec_simulate_route(
                    book_views(orderbooks@),
                    *config,
                    route@,
                    amount_in@,
                    route@.len() as int,
                );
                match r {
                    Some(v) => model == Some(v@),
                    None => model is None,
                }
            }),
    {
        let ghost bs = book_views(orderbooks@);
        let ghost rv = route@;
        let mut current = amount_in;
        let mut i: usize = 0;
        while i < route.hops.len()
            invariant
                i <= route.hops@.len(),
                bs == book_views(orderbooks@),
                rv == route@,
                spec_simulate_route(bs, *config, rv, amount_in@, i as int) == Some(current@),
            decreases route.hops@.len() - i,
        {
            let hop = route.hops[i];
            proof {
                assert(rv[i as int] == hop@);
            }
            let pid = hop.pair.id();
            let out = match find_book(orderbooks, &pid) {
                None => None,
                Some(book) => {
                    if book.get_pair().base.addr_eq(&hop.token_in) {
                        match book.simulate_market_sell(current, config) {
                            None => None,
                            Some(p) => Some(p.0),
                        }
                    } else {
                        match book.simulate_market_buy(current, config) {
                            None => None,
                            Some(p) => Some(p.0),
                        }
                    }
                },
            };
            match out {
                None => {
                    proof {
                        lemma_simulate_route_freeze(
                            bs,
                            *config,
                            rv,
                            amount_in@,
                            i as int + 1,
                            rv.len() as int,
                        );
                    }
                    return None;
                },
                Some(v) => {
                    current = v;
                },
            }
            i += 1;
        }
        Some(current)
    }

    /// Find the best route between two tokens by simulated output: every
    /// route is simulated end to end and the first one with the strictly
    /// highest output wins.
    pub fn find_best_route(&self, token_in: TokenId, token_out: TokenId, amount_in: Amount,
        max_hops: usize, orderbooks: &Vec<(PairId, OrderBook)>, config: &DexConfig)
        -> (r: Option<(Route, Amount)>)
        requires
            max_hops < usize::MAX,
        ensures
            ({
                let routes = spec_find_routes(
                    self@.graph,
                    self@.pairs,
                    book_ids(orderbooks@),
                    token_in@,
                    token_out@,
                    max_hops as nat,
                );
                let best = spec_best_route(
                    book_views(orderbooks@),
                    *config,
                    routes,
                    amount_in@,
                    routes.len() as int,
                );
                match r {
                    Some(p) => best is Some && p.0@ == routes[best->Some_0.0] && p.1@
                        == best->Some_0.1,
                    None => best is None,
                }
            }),
    {
        let ghost bs = book_views(orderbooks@);
        let routes = self.find_routes(token_in, token_out, max_hops, orderbooks);
        let ghost rsv = route_views(routes@);
        let mut best: Option<(Route, Amount)> = None;
        let mut i: usize = 0;
        while i < routes.len()
            invariant
                i <= routes@.len(),
                bs == book_views(orderbooks@),
                rsv == route_views(routes@),
                ({
                    let b = spec_best_route(bs, *config, rsv, amount_in@, i as int);
                    match best {
                        Some(p) => b is Some && p.0@ == rsv[b->Some_0.0] && p.1@ == b->Some_0.1,
                        None => b is None,
                    }
                }),
            decreases routes@.len() - i,
        {
            proof {
                assert(rsv[i as int] == routes@[i as int]@);
            }
            let output = self.simulate_route(&routes[i], amount_in, orderbooks, config);
            match output {
                None => {
                },
                Some(out) => {
                    let replace = match &best {
                        None => true,
                        Some(p) => p.1.lt(&out),
                    };
                    if replace {
                        let rt = Route { hops: copy_hops(&routes[i].hops) };
                        proof {
                            assert(rt@ =~= rsv[i as int]);
                        }
                        best = Some((rt, out));
                    }
                },
            }
            i += 1;
        }
        best
    }
}

// ---------------------------------------------------------------------------
// Reachability, functionally and executably
// ---------------------------------------------------------------------------

/// The visited tokens extended by the first `k` of a node's neighbours.
pub open spec fn spec_add_new(vs: Seq<Seq<u8>>, ns: Seq<Seq<u8>>, k: int) -> Seq<Seq<u8>>
    decreases k,
{
    if k <= 0 {
        vs
    } else {
        let prev = spec_add_new(vs, ns, k - 1);
        if tokens_contain(prev, ns[k - 1]) {
            prev
        } else {
            prev.push(ns[k - 1])
        }
    }
}

/// One relaxation round: every visited node contributes its neighbours, in
/// graph order.
pub open spec fn spec_reach_round(vs: Seq<Seq<u8>>, g: Seq<GEntryV>, k: int) -> Seq<Seq<u8>>
    decreases k,
{
    if k <= 0 {
        vs
    } else {
        let prev = spec_reach_round(vs, g, k - 1);
        if tokens_contain(prev, g[k - 1].token) {
            spec_add_new(prev, g[k - 1].neighbors, g[k - 1].neighbors.len() as int)
        } else {
            prev
        }
    }
}

/// `rounds` relaxation rounds over the whole graph.
pub open spec fn spec_reach_rounds(vs: Seq<Seq<u8>>, g: Seq<GEntryV>, rounds: nat)
    -> Seq<Seq<u8>>
    decreases rounds,
{
    if rounds == 0 {
        vs
    } else {
        spec_reach_round(spec_reach_rounds(vs, g, (rounds - 1) as nat), g, g.len() as int)
    }
}

/// All tokens reachable from `from`, excluding `from` itself: as many
/// relaxation rounds as the graph has nodes, which reaches the fixpoint.
pub open spec fn spec_reachable(g: Seq<GEntryV>, from: Seq<u8>) -> Seq<Seq<u8>> {
    spec_reach_rounds(seq![from], g, g.len() as nat).skip(1)
}

impl Router {
    /// Get all tokens that can be reached from a given token through the
    /// graph, excluding the token itself.
    pub fn reachable_tokens(&self, from: TokenId) -> (r: Vec<TokenId>)
        ensures
            r@.map_values(|t: TokenId| t@) == spec_reachable(self@.graph, from@),
    {
        let ghost g = self@.graph;
        let mut visited: Vec<TokenId> = Vec::new();
        visited.push(from);
        proof {
            assert(token_views(visited@) =~= seq![from@]);
        }
        let rounds = self.graph.len();
        let mut d: usize = 0;
        while d < rounds
            invariant
                d <= rounds,
                rounds == self.graph@.len(),
                g == self@.graph,
                token_views(visited@) == spec_reach_rounds(seq![from@], g, d as nat),
                visited@.len() >= 1,
            decreases rounds - d,
        {
            let ghost v0 = token_views(visited@);
            let mut gi: usize = 0;
            while gi < self.graph.len()
                invariant
                    gi <= self.graph@.len(),
                    g == self@.graph,
                    token_views(visited@) == spec_reach_round(v0, g, gi as int),
                    visited@.len() >= 1,
                decreases self.graph@.len() - gi,
            {
                proof {
                    assert(g[gi as int] == self.graph@[gi as int]@);
                }
                let seen = match find_token(&visited, &self.graph[gi].token) {
                    Some(_) => true,
                    None => false,
                };
                if seen {
                    let ghost w0 = token_views(visited@);
                    let nbrs = &self.graph[gi].neighbors;
                    let mut ni: usize = 0;
                    while ni < nbrs.len()
                        invariant
                            ni <= nbrs@.len(),
                            gi < self.graph@.len(),
                            g == self@.graph,
                            nbrs@ == self.graph@[gi as int].neighbors@,
                            token_views(nbrs@) == g[gi as int].neighbors,
                            token_views(visited@) == spec_add_new(
                                w0,
                                g[gi as int].neighbors,
                                ni as int,
                            ),
                            visited@.len() >= 1,
                        decreases nbrs@.len() - ni,
                    {
                        proof {
                            assert(token_views(nbrs@)[ni as int] == nbrs@[ni as int]@);
                        }
                        let nb = nbrs[ni];
                        let present = match find_token(&visited, &nb) {
                            Some(_) => true,
                            None => false,
                        };
                        if !present {
                            let ghost vv = token_views(visited@);
                            visited.push(nb);
                            proof {
                                assert(token_views(visited@) =~= vv.push(nb@));
                            }
                        }
                        ni += 1;
                    }
                }
                gi += 1;
            }
            d += 1;
        }
        let ghost vecb = visited@;
        let _first = visited.remove(0);
        proof {
            assert(visited@ =~= vecb.skip(1));
            assert(token_views(visited@) =~= token_views(vecb).skip(1));
        }
        visited
    }

    /// Check whether there is any path between two tokens: a token always
    /// reaches itself.
    pub fn has_path(&self, from: TokenId, to: TokenId) -> (r: bool)
        ensures
            r == (from@ == to@ || tokens_contain(spec_reachable(self@.graph, from@), to@)),
    {
        if from.addr_eq(&to) {
            return true;
        }
        let reachable = self.reachable_tokens(from);
        match find_token(&reachable, &to) {
            Some(_) => true,
            None => false,
        }
    }
}

} // verus!
