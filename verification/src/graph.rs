use vstd::prelude::*;
use crate::symbol::{is_valid_symbol, lemma_slash_pos_unique, parse_symbol, slash_pos};
use crate::tick::MarketTick;

verus! {

/// Largest magnitude an edge weight may take, in log-rate nano units.
/// The logarithm of any positive finite double fits well within it.
pub const MAX_WEIGHT_NANO: i64 = 1_000_000_000_000;

/// Ceiling on the graph dimension, so that every Bellman-Ford distance
/// fits comfortably in an `i128`.
pub const MAX_DIMENSION: usize = 4096;

/// One directed edge: its weight, or nothing while no quote supports
/// the direction, and the sequence number of the tick that wrote it.
#[derive(Clone, Copy, Debug)]
pub struct EdgeSlot {
    pub weight: Option<i64>,
    pub sequence: u64,
}

/// Mathematical image of one edge.
#[verifier::ext_equal]
pub struct EdgeModel {
    pub weight: Option<int>,
    pub sequence: nat,
}

/// Mathematical image of the whole price graph: the indexed node
/// names, the venue of each node, and a square matrix of edges.
#[verifier::ext_equal]
pub struct GraphModel {
    pub names: Seq<Seq<char>>,
    pub venues: Seq<Seq<char>>,
    pub edges: Seq<Seq<EdgeModel>>,
}

/// Some name already carries index `i`.
pub open spec fn contains_name(m: GraphModel, key: Seq<char>) -> bool {
    exists|i: int| 0 <= i < m.names.len() && m.names[i] == key
}

/// The index of a present name; unique once names are distinct.
pub open spec fn name_index(m: GraphModel, key: Seq<char>) -> int {
    choose|i: int| 0 <= i < m.names.len() && m.names[i] == key
}

/// The graph invariant: a square matrix of capacity at most
/// `MAX_DIMENSION`, one venue per name, at most capacity-many names and
/// all of them distinct, zero-weight self-loops, and every finite
/// weight within `MAX_WEIGHT_NANO`.
pub open spec fn model_wf(m: GraphModel) -> bool {
    &&& m.edges.len() <= MAX_DIMENSION
    &&& m.venues.len() == m.names.len()
    &&& m.names.len() <= m.edges.len()
    &&& forall|i: int| 0 <= i < m.edges.len() ==> (#[trigger] m.edges[i]).len() == m.edges.len()
    &&& forall|i: int| 0 <= i < m.edges.len() ==> (#[trigger] m.edges[i][i].weight) == Some(
        0int,
    )
    &&& forall|i: int, j: int|
        0 <= i < m.edges.len() && 0 <= j < m.edges.len() ==> ((#[trigger] m.edges[i][j].weight)
            matches Some(w) ==> -(MAX_WEIGHT_NANO as int) <= w <= MAX_WEIGHT_NANO as int)
    &&& forall|i: int, j: int|
        0 <= i < m.names.len() && 0 <= j < m.names.len() && i != j ==> (#[trigger] m.names[i])
            != (#[trigger] m.names[j])
}

/// A present name has exactly the index `name_index` gives it.
pub proof fn lemma_name_index_unique(m: GraphModel, key: Seq<char>, i: int)
    requires
        model_wf(m),
        0 <= i < m.names.len(),
        m.names[i] == key,
    ensures
        contains_name(m, key),
        name_index(m, key) == i,
{
    assert(contains_name(m, key));
    let j = name_index(m, key);
    assert(0 <= j < m.names.len() && m.names[j] == key);
    if i != j {
        assert(m.names[i] != m.names[j]);
    }
}

/// Every self-loop of a well-formed graph weighs exactly zero, no
/// matter which ticks have been applied.
pub proof fn lemma_self_loops_zero(m: GraphModel)
    requires
        model_wf(m),
    ensures
        forall|i: int| 0 <= i < m.edges.len() ==> (#[trigger] m.edges[i][i].weight) == Some(0int),
{
}

/// What `upsert` does to the graph: nothing when the name is present
/// or the matrix is full, otherwise the name and its venue are
/// appended.
pub open spec fn model_upsert(m: GraphModel, key: Seq<char>, venue: Seq<char>) -> GraphModel {
    if contains_name(m, key) {
        m
    } else if m.names.len() < m.edges.len() {
        GraphModel { names: m.names.push(key), venues: m.venues.push(venue), edges: m.edges }
    } else {
        m
    }
}

/// The index `upsert` answers with: the existing one, the fresh one,
/// or nothing when the matrix is full.
pub open spec fn model_upsert_index(m: GraphModel, key: Seq<char>) -> Option<int> {
    if contains_name(m, key) {
        Some(name_index(m, key))
    } else if m.names.len() < m.edges.len() {
        Some(m.names.len() as int)
    } else {
        None
    }
}

/// A write lands only between two distinct in-range nodes, with a
/// bounded weight and a sequence newer than the edge's current one.
pub open spec fn write_applies(m: GraphModel, u: int, v: int, w: int, s: nat) -> bool {
    &&& 0 <= u < m.edges.len()
    &&& 0 <= v < m.edges.len()
    &&& u != v
    &&& -(MAX_WEIGHT_NANO as int) <= w <= MAX_WEIGHT_NANO as int
    &&& s > m.edges[u][v].sequence
}

/// What `write_edge` does to the graph: last writer wins, ordered by
/// sequence; everything else is untouched.
pub open spec fn model_write(m: GraphModel, u: int, v: int, w: int, s: nat) -> GraphModel {
    if write_applies(m, u, v, w, s) {
        GraphModel {
            names: m.names,
            venues: m.venues,
            edges: m.edges.update(u, m.edges[u].update(v, EdgeModel { weight: Some(w), sequence: s })),
        }
    } else {
        m
    }
}

/// The dense price graph: node names with their venues, and a square
/// adjacency matrix of log-rate weights.
pub struct PriceGraph {
    names: Vec<String>,
    venues: Vec<String>,
    weights: Vec<Vec<EdgeSlot>>,
}

impl View for PriceGraph {
    type V = GraphModel;

    closed spec fn view(&self) -> GraphModel {
        GraphModel {
            names: self.names.deep_view(),
            venues: self.venues.deep_view(),
            edges: Seq::new(
                self.weights@.len(),
                |i: int|
                    Seq::new(
                        self.weights@[i]@.len(),
                        |j: int|
                            EdgeModel {
                                weight: match self.weights@[i]@[j].weight {
                                    Some(w) => Some(w as int),
                                    None => None,
                                },
                                sequence: self.weights@[i]@[j].sequence as nat,
                            },
                    ),
            ),
        }
    }
}

/// Clamps a requested node ceiling to what the matrix may hold.
pub open spec fn clamped_dimension(max_currencies: usize) -> int {
    if max_currencies <= MAX_DIMENSION {
        max_currencies as int
    } else {
        MAX_DIMENSION as int
    }
}

impl PriceGraph {
    pub open spec fn wf(&self) -> bool {
        model_wf(self@)
    }

    /// An empty graph with room for `max_currencies` nodes (clamped to
    /// `MAX_DIMENSION`): no names, and only the zero self-loops live.
    pub fn new(max_currencies: usize) -> (g: PriceGraph)
        ensures
            g.wf(),
            g@.names.len() == 0,
            g@.venues.len() == 0,
            g@.edges.len() == clamped_dimension(max_currencies),
            forall|i: int, j: int|
                0 <= i < g@.edges.len() && 0 <= j < g@.edges.len() && i != j ==> (
                #[trigger] g@.edges[i][j]) == (EdgeModel { weight: None, sequence: 0 }),
    {
        let cap: usize = if max_currencies <= MAX_DIMENSION {
            max_currencies
        } else {
            MAX_DIMENSION
        };
        let mut weights: Vec<Vec<EdgeSlot>> = Vec::new();
        let mut i: usize = 0;
        while i < cap
            invariant
                0 <= i <= cap,
                weights@.len() == i,
                forall|r: int| 0 <= r < i ==> (#[trigger] weights@[r])@.len() == cap,
                forall|r: int, c: int|
                    0 <= r < i && 0 <= c < cap ==> (#[trigger] weights@[r]@[c]).sequence == 0
                        && weights@[r]@[c].weight == (if r == c {
                        Some(0i64)
                    } else {
                        None
                    }),
            decreases cap - i,
        {
            let mut row: Vec<EdgeSlot> = Vec::new();
            let mut j: usize = 0;
            while j < cap
                invariant
                    0 <= j <= cap,
                    row@.len() == j,
                    forall|c: int|
                        0 <= c < j ==> (#[trigger] row@[c]).sequence == 0 && row@[c].weight == (
                        if i == c {
                            Some(0i64)
                        } else {
                            None
                        }),
                decreases cap - j,
            {
                let w: Option<i64> = if i == j {
                    Some(0i64)
                } else {
                    None
                };
                row.push(EdgeSlot { weight: w, sequence: 0 });
                j = j + 1;
            }
            weights.push(row);
            i = i + 1;
        }
        let g = PriceGraph { names: Vec::new(), venues: Vec::new(), weights };
        proof {
            assert forall|r: int, c: int|
                0 <= r < g@.edges.len() && 0 <= c < g@.edges.len() implies (
            #[trigger] g@.edges[r][c]) == (EdgeModel {
                weight: if r == c {
                    Some(0int)
                } else {
                    None
                },
                sequence: 0,
            }) by {
                assert(g@.edges[r][c].weight == (if r == c {
                    Some(0int)
                } else {
                    None::<int>
                }));
            }
        }
        g
    }

    /// How many currency-venue nodes have been indexed so far.
    pub fn node_count(&self) -> (n: usize)
        ensures
            n == self@.names.len(),
    {
        self.names.len()
    }

    /// The fixed dimension of the adjacency matrix.
    pub fn capacity(&self) -> (n: usize)
        ensures
            n == self@.edges.len(),
    {
        self.weights.len()
    }

    /// The name of an indexed node.
    pub fn name_at(&self, i: usize) -> (r: String)
        requires
            i < self@.names.len(),
        ensures
            r@ == self@.names[i as int],
    {
        self.names[i].clone()
    }

    /// The venue an indexed node belongs to.
    pub fn venue_at(&self, i: usize) -> (r: String)
        requires
            self.wf(),
            i < self@.names.len(),
        ensures
            r@ == self@.venues[i as int],
    {
        proof {
            assert(self@.venues.len() == self.venues@.len());
        }
        self.venues[i].clone()
    }

    /// The weight of one directed edge, or nothing while no quote
    /// supports the direction.
    pub fn edge_weight(&self, u: usize, v: usize) -> (r: Option<i64>)
        requires
            self.wf(),
            u < self@.edges.len(),
            v < self@.edges.len(),
        ensures
            r matches Some(w) ==> self@.edges[u as int][v as int].weight == Some(w as int),
            r is None ==> self@.edges[u as int][v as int].weight is None,
    {
        proof {
            assert(self@.edges[u as int].len() == self.weights@[u as int]@.len());
        }
        self.weights[u][v].weight
    }

    /// The sequence of the tick that last wrote one directed edge.
    pub fn edge_sequence(&self, u: usize, v: usize) -> (r: u64)
        requires
            self.wf(),
            u < self@.edges.len(),
            v < self@.edges.len(),
        ensures
            r as nat == self@.edges[u as int][v as int].sequence,
    {
        proof {
            assert(self@.edges[u as int].len() == self.weights@[u as int]@.len());
        }
        self.weights[u][v].sequence
    }

    /// The index a name carries, if it has been indexed.
    pub fn find_index(&self, key: &String) -> (r: Option<usize>)
        requires
            self.wf(),
        ensures
            r matches Some(i) ==> i < self@.names.len() && self@.names[i as int] == key@,
            r is None ==> !contains_name(self@, key@),
    {
        let n = self.names.len();
        let mut i: usize = 0;
        while i < n
            invariant
                n == self@.names.len(),
                n == self.names@.len(),
                0 <= i <= n,
                forall|j: int| 0 <= j < i ==> (#[trigger] self@.names[j]) != key@,
            decreases n - i,
        {
            if self.names[i] == *key {
                return Some(i);
            }
            i = i + 1;
        }
        proof {
            assert forall|j: int| 0 <= j < self@.names.len() implies (#[trigger] self@.names[j])
                != key@ by {}
        }
        None
    }

    /// Finds the index of `key`, indexing it afresh when there is
    /// room. Idempotent, and assigned indices are never reused.
    pub fn upsert_index(&mut self, key: &String, venue: &String) -> (r: Option<usize>)
        requires
            old(self).wf(),
        ensures
            final(self).wf(),
            final(self)@ == model_upsert(old(self)@, key@, venue@),
            r == match model_upsert_index(old(self)@, key@) {
                Some(i) => Some(i as usize),
                None => None::<usize>,
            },
            r matches Some(i) ==> i < final(self)@.names.len() && final(self)@.names[i as int]
                == key@,
    {
        let found = self.find_index(key);
        match found {
            Some(i) => {
                proof {
                    lemma_name_index_unique(self@, key@, i as int);
                }
                Some(i)
            },
            None => {
                let n = self.names.len();
                if n < self.weights.len() {
                    self.names.push(key.clone());
                    self.venues.push(venue.clone());
                    proof {
                        let m0 = old(self)@;
                        let m1 = self@;
                        assert(m1.names =~= m0.names.push(key@));
                        assert(m1.venues =~= m0.venues.push(venue@));
                        assert(m1.edges =~= m0.edges);
                        assert(m1 =~= model_upsert(m0, key@, venue@));
                        assert forall|a: int, b: int|
                            0 <= a < m1.names.len() && 0 <= b < m1.names.len() && a != b implies (
                        #[trigger] m1.names[a]) != (#[trigger] m1.names[b]) by {
                            if a < m0.names.len() && b < m0.names.len() {
                            } else if a < m0.names.len() {
                                assert(m1.names[b] == key@);
                            } else {
                                assert(m1.names[a] == key@);
                            }
                        }
                    }
                    Some(n)
                } else {
                    None
                }
            },
        }
    }

    /// Writes one directed edge if the write's sequence is newer than
    /// what the edge holds; stale, out-of-range, oversized and
    /// self-loop writes fall away.
    pub fn write_edge(&mut self, u: usize, v: usize, weight: i64, sequence: u64)
        requires
            old(self).wf(),
        ensures
            final(self).wf(),
            final(self)@ == model_write(
                old(self)@,
                u as int,
                v as int,
                weight as int,
                sequence as nat,
            ),
    {
        let cap = self.weights.len();
        proof {
            assert(self@.edges.len() == self.weights@.len());
            if u < self.weights@.len() {
                assert(self@.edges[u as int].len() == self.weights@[u as int]@.len());
                assert(self@.edges[u as int].len() == self@.edges.len());
            }
        }
        if u < cap && v < cap && u != v && -MAX_WEIGHT_NANO <= weight && weight <= MAX_WEIGHT_NANO
            && sequence > self.weights[u][v].sequence {
            self.weights[u][v] = EdgeSlot { weight: Some(weight), sequence };
            proof {
                let m0 = old(self)@;
                let m1 = self@;
                assert(write_applies(m0, u as int, v as int, weight as int, sequence as nat));
                assert(m1.edges =~~= m0.edges.update(
                    u as int,
                    m0.edges[u as int].update(
                        v as int,
                        EdgeModel { weight: Some(weight as int), sequence: sequence as nat },
                    ),
                ));
                assert(m1 =~~= model_write(m0, u as int, v as int, weight as int, sequence as nat));
            }
        } else {
            proof {
                assert(!write_applies(old(self)@, u as int, v as int, weight as int,
                    sequence as nat));
            }
        }
    }
}

/// Key of the base-currency node a tick speaks of: `BASE_VENUE`.
pub open spec fn base_key_of(symbol: Seq<char>, exchange: Seq<char>) -> Seq<char> {
    symbol.subrange(0, slash_pos(symbol)) + seq!['_'] + exchange
}

/// Key of the quote-currency node a tick speaks of: `QUOTE_VENUE`.
pub open spec fn quote_key_of(symbol: Seq<char>, exchange: Seq<char>) -> Seq<char> {
    symbol.subrange(slash_pos(symbol) + 1, symbol.len() as int) + seq!['_'] + exchange
}

/// An edge weight as a mathematical integer.
pub open spec fn opt_weight(o: Option<i64>) -> Option<int> {
    match o {
        Some(w) => Some(w as int),
        None => None,
    }
}

/// Both nodes of a tick can be indexed: the symbol parses and neither
/// upsert runs out of room.
pub open spec fn tick_indexed(
    m: GraphModel,
    exchange: Seq<char>,
    symbol: Seq<char>,
) -> bool {
    &&& is_valid_symbol(symbol)
    &&& model_upsert_index(m, base_key_of(symbol, exchange)) is Some
    &&& model_upsert_index(
        model_upsert(m, base_key_of(symbol, exchange), exchange),
        quote_key_of(symbol, exchange),
    ) is Some
}

/// What applying one tick does to the graph: nothing on a malformed
/// symbol; otherwise both currency-venue nodes are indexed if room
/// permits, and each present direction is written with the tick's
/// sequence, last writer wins.
pub open spec fn model_apply_tick(
    m: GraphModel,
    exchange: Seq<char>,
    symbol: Seq<char>,
    bid: Option<int>,
    ask: Option<int>,
    sequence: nat,
) -> GraphModel {
    if !is_valid_symbol(symbol) {
        m
    } else {
        let bk = base_key_of(symbol, exchange);
        let qk = quote_key_of(symbol, exchange);
        let oi = model_upsert_index(m, bk);
        let m1 = model_upsert(m, bk, exchange);
        let oj = model_upsert_index(m1, qk);
        let m2 = model_upsert(m1, qk, exchange);
        match (oi, oj) {
            (Some(i), Some(j)) => {
                let m3 = match bid {
                    Some(w) => model_write(m2, i, j, w, sequence),
                    None => m2,
                };
                match ask {
                    Some(w) => model_write(m3, j, i, w, sequence),
                    None => m3,
                }
            },
            _ => m2,
        }
    }
}

/// How the graph answered one tick.
#[derive(Clone, Copy, Debug, PartialEq, Eq, Structural)]
pub enum TickOutcome {
    /// Both nodes were indexed and the present directions written.
    Applied,
    /// The symbol was not of the form `BASE/QUOTE`; the tick fell away.
    MalformedSymbol,
    /// The node ceiling was reached; the tick fell away.
    CapacityExhausted,
}

impl PriceGraph {
    /// Applies one tick: parses its symbol, indexes the two
    /// currency-venue nodes and writes both directed edges as a single
    /// update, each guarded by the last-writer-wins rule.
    pub fn apply_tick(&mut self, tick: &MarketTick) -> (outcome: TickOutcome)
        requires
            old(self).wf(),
        ensures
            final(self).wf(),
            final(self)@ == model_apply_tick(
                old(self)@,
                tick.exchange@,
                tick.symbol@,
                opt_weight(tick.bid_log_nano),
                opt_weight(tick.ask_log_nano),
                tick.sequence as nat,
            ),
            outcome == TickOutcome::MalformedSymbol <==> !is_valid_symbol(tick.symbol@),
            outcome == TickOutcome::Applied <==> tick_indexed(
                old(self)@,
                tick.exchange@,
                tick.symbol@,
            ),
    {
        let parsed = parse_symbol(tick.symbol.as_str());
        match parsed {
            None => TickOutcome::MalformedSymbol,
            Some((base, quote)) => {
                proof {
                    lemma_slash_pos_unique(tick.symbol@, base@.len() as int);
                    reveal_strlit("_");
                }
                let mut bkey = base;
                bkey.append("_");
                bkey.append(tick.exchange.as_str());
                let mut qkey = quote;
                qkey.append("_");
                qkey.append(tick.exchange.as_str());
                proof {
                    assert(bkey@ =~= base_key_of(tick.symbol@, tick.exchange@));
                    assert(qkey@ =~= quote_key_of(tick.symbol@, tick.exchange@));
                }
                let oi = self.upsert_index(&bkey, &tick.exchange);
                let oj = self.upsert_index(&qkey, &tick.exchange);
                match (oi, oj) {
                    (Some(i), Some(j)) => {
                        if let Some(w) = tick.bid_log_nano {
                            self.write_edge(i, j, w, tick.sequence);
                        }
                        if let Some(w) = tick.ask_log_nano {
                            self.write_edge(j, i, w, tick.sequence);
                        }
                        TickOutcome::Applied
                    },
                    _ => TickOutcome::CapacityExhausted,
                }
            },
        }
    }
}

/// Appending names keeps every old name at its index.
proof fn lemma_upsert_keeps_names(m: GraphModel, key: Seq<char>, venue: Seq<char>, i: int)
    requires
        0 <= i < m.names.len(),
    ensures
        model_upsert(m, key, venue).names.len() >= m.names.len(),
        model_upsert(m, key, venue).names[i] == m.names[i],
        model_upsert(m, key, venue).edges == m.edges,
{
}

/// Applying the same tick a second time changes nothing: the nodes
/// are already indexed and the edges already carry the tick's
/// sequence, so the last-writer-wins rule drops both writes.
pub proof fn lemma_apply_tick_idempotent(
    m: GraphModel,
    exchange: Seq<char>,
    symbol: Seq<char>,
    bid: Option<int>,
    ask: Option<int>,
    sequence: nat,
)
    requires
        model_wf(m),
    ensures
        model_apply_tick(
            model_apply_tick(m, exchange, symbol, bid, ask, sequence),
            exchange,
            symbol,
            bid,
            ask,
            sequence,
        ) == model_apply_tick(m, exchange, symbol, bid, ask, sequence),
{
    if is_valid_symbol(symbol) {
        let bk = base_key_of(symbol, exchange);
        let qk = quote_key_of(symbol, exchange);
        let oi = model_upsert_index(m, bk);
        let m1 = model_upsert(m, bk, exchange);
        let oj = model_upsert_index(m1, qk);
        let m2 = model_upsert(m1, qk, exchange);
        lemma_model_upsert_wf(m, bk, exchange);
        lemma_model_upsert_wf(m1, qk, exchange);
        match (oi, oj) {
            (Some(i), Some(j)) => {
                assert(m1.names[i] == bk) by {
                    if contains_name(m, bk) {
                        lemma_name_index_unique(m, bk, name_index(m, bk));
                    }
                }
                assert(0 <= i < m1.names.len());
                assert(m2.names[i] == bk && m2.names[j] == qk && 0 <= j < m2.names.len()) by {
                    lemma_upsert_keeps_names(m1, qk, exchange, i);
                    if contains_name(m1, qk) {
                        lemma_name_index_unique(m1, qk, name_index(m1, qk));
                    }
                }
                let m3 = match bid {
                    Some(w) => model_write(m2, i, j, w, sequence),
                    None => m2,
                };
                let m4 = match ask {
                    Some(w) => model_write(m3, j, i, w, sequence),
                    None => m3,
                };
                lemma_model_write_wf_all(m2, m3, m4, i, j, bid, ask, sequence);
                // the final graph still names both nodes
                assert(m4.names == m2.names && m4.venues == m2.venues);
                assert(m4.names[i] == bk && m4.names[j] == qk);
                // second round: both upserts find the nodes in place
                lemma_name_index_unique(m4, bk, i);
                assert(model_upsert(m4, bk, exchange) == m4);
                lemma_name_index_unique(m4, qk, j);
                assert(model_upsert(m4, qk, exchange) == m4);
                // second round: both writes are stale or out of range
                if i != j {
                    match bid {
                        Some(w) => {
                            if write_applies(m2, i, j, w, sequence) {
                                assert(m4.edges[i][j].sequence == sequence);
                                assert(!write_applies(m4, i, j, w, sequence));
                            } else {
                                assert(m3 == m2);
                                assert(m4.edges[i][j] == m2.edges[i][j]) by {
                                    match ask {
                                        Some(wa) => {
                                            if write_applies(m3, j, i, wa, sequence) {
                                                assert(m4.edges[i][j] == m3.edges[i][j]);
                                            }
                                        },
                                        None => {},
                                    }
                                }
                                assert(!write_applies(m4, i, j, w, sequence));
                            }
                            assert(model_write(m4, i, j, w, sequence) == m4);
                        },
                        None => {},
                    }
                    match ask {
                        Some(wa) => {
                            if write_applies(m3, j, i, wa, sequence) {
                                assert(m4.edges[j][i].sequence == sequence);
                                assert(!write_applies(m4, j, i, wa, sequence));
                            } else {
                                assert(m4 == m3);
                                assert(m3.edges[j][i] == m2.edges[j][i]) by {
                                    match bid {
                                        Some(wb) => {
                                            if write_applies(m2, i, j, wb, sequence) {
                                                assert(m3.edges[j][i] == m2.edges[j][i]);
                                            }
                                        },
                                        None => {},
                                    }
                                }
                                assert(!write_applies(m4, j, i, wa, sequence));
                            }
                            assert(model_write(m4, j, i, wa, sequence) == m4);
                        },
                        None => {},
                    }
                } else {
                    match bid {
                        Some(w) => {
                            assert(!write_applies(m2, i, j, w, sequence));
                            assert(!write_applies(m4, i, j, w, sequence));
                        },
                        None => {},
                    }
                    match ask {
                        Some(wa) => {
                            assert(!write_applies(m3, j, i, wa, sequence));
                            assert(!write_applies(m4, j, i, wa, sequence));
                        },
                        None => {},
                    }
                }
            },
            (Some(i), None) => {
                // the quote key is absent and the matrix is full; the
                // second round sees the same picture
                assert(m2 == m1);
                assert(m1.names[i] == bk) by {
                    if contains_name(m, bk) {
                        lemma_name_index_unique(m, bk, name_index(m, bk));
                    }
                }
                lemma_name_index_unique(m1, bk, i);
                assert(model_upsert(m1, bk, exchange) == m1);
                assert(!contains_name(m1, qk));
                assert(model_upsert(m1, qk, exchange) == m1);
                assert(model_upsert_index(m1, qk) is None);
            },
            (None, _) => {
                // the base key is absent and the matrix is full;
                // nothing changed at all
                assert(m1 == m);
                assert(m2 == m) by {
                    if contains_name(m, qk) {
                    }
                }
            },
        }
    }
}

/// Well-formedness survives an upsert.
pub proof fn lemma_model_upsert_wf(m: GraphModel, key: Seq<char>, venue: Seq<char>)
    requires
        model_wf(m),
    ensures
        model_wf(model_upsert(m, key, venue)),
        model_upsert(m, key, venue).edges == m.edges,
        contains_name(m, key) ==> model_upsert(m, key, venue) == m,
{
    let mu = model_upsert(m, key, venue);
    if !contains_name(m, key) && m.names.len() < m.edges.len() {
        assert forall|a: int, b: int|
            0 <= a < mu.names.len() && 0 <= b < mu.names.len() && a != b implies (
        #[trigger] mu.names[a]) != (#[trigger] mu.names[b]) by {
            if a < m.names.len() && b < m.names.len() {
            } else if a < m.names.len() {
                assert(mu.names[b] == key);
            } else {
                assert(mu.names[a] == key);
            }
        }
    }
}

/// Well-formedness survives a write.
pub proof fn lemma_model_write_wf(m: GraphModel, u: int, v: int, w: int, s: nat)
    requires
        model_wf(m),
    ensures
        model_wf(model_write(m, u, v, w, s)),
        model_write(m, u, v, w, s).names == m.names,
        model_write(m, u, v, w, s).venues == m.venues,
        forall|a: int, b: int|
            0 <= a < m.edges.len() && 0 <= b < m.edges.len() && !(a == u && b == v) ==> (
            #[trigger] model_write(m, u, v, w, s).edges[a][b]) == m.edges[a][b],
{
    let mw = model_write(m, u, v, w, s);
    if write_applies(m, u, v, w, s) {
        assert(forall|a: int| 0 <= a < mw.edges.len() ==> (#[trigger] mw.edges[a]).len()
            == mw.edges.len());
        assert forall|a: int| 0 <= a < mw.edges.len() implies (#[trigger] mw.edges[a][a].weight)
            == Some(0int) by {
            if a == u {
                assert(mw.edges[u][a] == m.edges[u][a]);
            }
        }
    }
}

/// Well-formedness and untouched names survive the pair of writes a
/// tick makes.
proof fn lemma_model_write_wf_all(
    m2: GraphModel,
    m3: GraphModel,
    m4: GraphModel,
    i: int,
    j: int,
    bid: Option<int>,
    ask: Option<int>,
    sequence: nat,
)
    requires
        model_wf(m2),
        m3 == match bid {
            Some(w) => model_write(m2, i, j, w, sequence),
            None => m2,
        },
        m4 == match ask {
            Some(w) => model_write(m3, j, i, w, sequence),
            None => m3,
        },
    ensures
        model_wf(m3),
        model_wf(m4),
        m3.names == m2.names && m3.venues == m2.venues,
        m4.names == m2.names && m4.venues == m2.venues,
{
    match bid {
        Some(w) => lemma_model_write_wf(m2, i, j, w, sequence),
        None => (),
    }
    match ask {
        Some(w) => lemma_model_write_wf(m3, j, i, w, sequence),
        None => (),
    }
}


/// One recorded edge write: the directed edge a tick addressed, with
/// the weight and sequence the tick carried.
pub struct WriteOp {
    pub u: int,
    pub v: int,
    pub weight: int,
    pub sequence: nat,
}

/// A sequence of edge writes, applied oldest first.
pub open spec fn model_write_all(m: GraphModel, ws: Seq<WriteOp>) -> GraphModel
    decreases ws.len(),
{
    if ws.len() == 0 {
        m
    } else {
        model_write_all(
            model_write(m, ws[0].u, ws[0].v, ws[0].weight, ws[0].sequence),
            ws.drop_first(),
        )
    }
}

/// The write addresses exactly the edge `(u, v)` and is acceptable in
/// a matrix of dimension `cap`: in range, no self-loop, bounded weight.
pub open spec fn op_targets(op: WriteOp, u: int, v: int, cap: int) -> bool {
    &&& op.u == u
    &&& op.v == v
    &&& 0 <= u < cap
    &&& 0 <= v < cap
    &&& u != v
    &&& -(MAX_WEIGHT_NANO as int) <= op.weight <= MAX_WEIGHT_NANO as int
}

/// What one edge slot becomes under a sequence of writes: each
/// acceptable write aimed at the edge lands iff its sequence is newer.
pub open spec fn lww_fold(e: EdgeModel, ws: Seq<WriteOp>, u: int, v: int, cap: int) -> EdgeModel
    decreases ws.len(),
{
    if ws.len() == 0 {
        e
    } else {
        let e1 = if op_targets(ws[0], u, v, cap) && ws[0].sequence > e.sequence {
            EdgeModel { weight: Some(ws[0].weight), sequence: ws[0].sequence }
        } else {
            e
        };
        lww_fold(e1, ws.drop_first(), u, v, cap)
    }
}

/// Each edge of the written graph is its own slot folded through the
/// writes; the rest of the graph is untouched.
pub proof fn lemma_write_all_edge(m: GraphModel, ws: Seq<WriteOp>, u: int, v: int)
    requires
        model_wf(m),
        0 <= u < m.edges.len(),
        0 <= v < m.edges.len(),
    ensures
        model_wf(model_write_all(m, ws)),
        model_write_all(m, ws).names == m.names,
        model_write_all(m, ws).venues == m.venues,
        model_write_all(m, ws).edges.len() == m.edges.len(),
        model_write_all(m, ws).edges[u][v] == lww_fold(
            m.edges[u][v],
            ws,
            u,
            v,
            m.edges.len() as int,
        ),
    decreases ws.len(),
{
    if ws.len() > 0 {
        let op = ws[0];
        let m1 = model_write(m, op.u, op.v, op.weight, op.sequence);
        lemma_model_write_wf(m, op.u, op.v, op.weight, op.sequence);
        lemma_write_all_edge(m1, ws.drop_first(), u, v);
        if op.u == u && op.v == v {
            if write_applies(m, op.u, op.v, op.weight, op.sequence) {
                assert(m1.edges[u][v] == (EdgeModel {
                    weight: Some(op.weight),
                    sequence: op.sequence,
                }));
            } else {
                assert(m1.edges[u][v] == m.edges[u][v]);
            }
        } else {
            assert(m1.edges[u][v] == m.edges[u][v]);
        }
    }
}

/// The last-writer-wins rule keeps, on every edge, the write with the
/// greatest sequence: the surviving slot's sequence dominates every
/// acceptable write aimed at the edge, and the slot is either the
/// initial one or holds the weight and sequence of one such write.
pub proof fn lemma_lww_max(e0: EdgeModel, ws: Seq<WriteOp>, u: int, v: int, cap: int)
    ensures
        lww_fold(e0, ws, u, v, cap).sequence >= e0.sequence,
        forall|k: int|
            0 <= k < ws.len() && op_targets(#[trigger] ws[k], u, v, cap) ==> ws[k].sequence
                <= lww_fold(e0, ws, u, v, cap).sequence,
        lww_fold(e0, ws, u, v, cap) == e0 || exists|k: int|
            0 <= k < ws.len() && op_targets(#[trigger] ws[k], u, v, cap) && ws[k].sequence
                == lww_fold(e0, ws, u, v, cap).sequence && lww_fold(e0, ws, u, v, cap).weight
                == Some(ws[k].weight),
    decreases ws.len(),
{
    if ws.len() > 0 {
        let e1 = if op_targets(ws[0], u, v, cap) && ws[0].sequence > e0.sequence {
            EdgeModel { weight: Some(ws[0].weight), sequence: ws[0].sequence }
        } else {
            e0
        };
        lemma_lww_max(e1, ws.drop_first(), u, v, cap);
        let e = lww_fold(e0, ws, u, v, cap);
        assert(e == lww_fold(e1, ws.drop_first(), u, v, cap));
        assert forall|k: int|
            0 <= k < ws.len() && op_targets(#[trigger] ws[k], u, v, cap) implies ws[k].sequence
            <= e.sequence by {
            if k > 0 {
                assert(ws.drop_first()[k - 1] == ws[k]);
            }
        }
        if e == e1 && e1 != e0 {
            assert(op_targets(ws[0], u, v, cap) && e.sequence == ws[0].sequence && e.weight
                == Some(ws[0].weight));
        }
        if e != e1 {
            let k0 = choose|k: int|
                0 <= k < ws.drop_first().len() && op_targets(
                    #[trigger] ws.drop_first()[k],
                    u,
                    v,
                    cap,
                ) && ws.drop_first()[k].sequence == e.sequence && e.weight == Some(
                    ws.drop_first()[k].weight,
                );
            assert(ws.drop_first()[k0] == ws[k0 + 1]);
        }
    }
}



/// The edge writes one indexed tick performs, oldest first: one per
/// present direction, both stamped with the tick's sequence.
pub open spec fn tick_write_ops(
    m: GraphModel,
    exchange: Seq<char>,
    symbol: Seq<char>,
    bid: Option<int>,
    ask: Option<int>,
    sequence: nat,
) -> Seq<WriteOp> {
    let i = model_upsert_index(m, base_key_of(symbol, exchange))->Some_0;
    let j = model_upsert_index(
        model_upsert(m, base_key_of(symbol, exchange), exchange),
        quote_key_of(symbol, exchange),
    )->Some_0;
    let bids = match bid {
        Some(w) => seq![WriteOp { u: i, v: j, weight: w, sequence }],
        None => seq![],
    };
    let asks = match ask {
        Some(w) => seq![WriteOp { u: j, v: i, weight: w, sequence }],
        None => seq![],
    };
    bids + asks
}

/// Applying an indexed tick is exactly indexing its two nodes and
/// then folding its edge writes through the last-writer-wins rule; so
/// the lemmas about write sequences speak of tick streams as well.
pub proof fn lemma_apply_tick_as_writes(
    m: GraphModel,
    exchange: Seq<char>,
    symbol: Seq<char>,
    bid: Option<int>,
    ask: Option<int>,
    sequence: nat,
)
    requires
        tick_indexed(m, exchange, symbol),
    ensures
        model_apply_tick(m, exchange, symbol, bid, ask, sequence) == model_write_all(
            model_upsert(
                model_upsert(m, base_key_of(symbol, exchange), exchange),
                quote_key_of(symbol, exchange),
                exchange,
            ),
            tick_write_ops(m, exchange, symbol, bid, ask, sequence),
        ),
{
    let ops = tick_write_ops(m, exchange, symbol, bid, ask, sequence);
    let m2 = model_upsert(
        model_upsert(m, base_key_of(symbol, exchange), exchange),
        quote_key_of(symbol, exchange),
        exchange,
    );
    let i = model_upsert_index(m, base_key_of(symbol, exchange))->Some_0;
    let j = model_upsert_index(
        model_upsert(m, base_key_of(symbol, exchange), exchange),
        quote_key_of(symbol, exchange),
    )->Some_0;
    match (bid, ask) {
        (Some(wb), Some(wa)) => {
            let op_b = WriteOp { u: i, v: j, weight: wb, sequence };
            let op_a = WriteOp { u: j, v: i, weight: wa, sequence };
            assert(ops.len() == 2 && ops[0] == op_b && ops[1] == op_a);
            assert(ops.drop_first() =~= seq![op_a]);
            assert(ops.drop_first().drop_first() =~= Seq::<WriteOp>::empty());
            let m3 = model_write(m2, i, j, wb, sequence);
            assert(model_write_all(m2, ops) == model_write_all(m3, ops.drop_first()));
            assert(model_write_all(m3, ops.drop_first()) == model_write_all(
                model_write(m3, j, i, wa, sequence),
                ops.drop_first().drop_first(),
            ));
        },
        (Some(wb), None) => {
            let op_b = WriteOp { u: i, v: j, weight: wb, sequence };
            assert(ops.len() == 1 && ops[0] == op_b);
            assert(ops.drop_first() =~= Seq::<WriteOp>::empty());
            assert(model_write_all(m2, ops) == model_write_all(
                model_write(m2, i, j, wb, sequence),
                ops.drop_first(),
            ));
        },
        (None, Some(wa)) => {
            let op_a = WriteOp { u: j, v: i, weight: wa, sequence };
            assert(ops.len() == 1 && ops[0] == op_a);
            assert(ops.drop_first() =~= Seq::<WriteOp>::empty());
            assert(model_write_all(m2, ops) == model_write_all(
                model_write(m2, j, i, wa, sequence),
                ops.drop_first(),
            ));
        },
        (None, None) => {
            assert(ops =~= Seq::<WriteOp>::empty());
        },
    }
}


/// Mathematical image of one submitted tick.
#[verifier::ext_equal]
pub struct TickModel {
    pub exchange: Seq<char>,
    pub symbol: Seq<char>,
    pub bid: Option<int>,
    pub ask: Option<int>,
    pub sequence: nat,
}

/// A whole history of ticks applied in arrival order.
pub open spec fn model_apply_all(m: GraphModel, ts: Seq<TickModel>) -> GraphModel
    decreases ts.len(),
{
    if ts.len() == 0 {
        m
    } else {
        model_apply_all(
            model_apply_tick(m, ts[0].exchange, ts[0].symbol, ts[0].bid, ts[0].ask, ts[0].sequence),
            ts.drop_first(),
        )
    }
}

/// Every edge write a history performs, in order; a tick that cannot
/// be indexed writes nothing.
pub open spec fn history_write_ops(m: GraphModel, ts: Seq<TickModel>) -> Seq<WriteOp>
    decreases ts.len(),
{
    if ts.len() == 0 {
        seq![]
    } else {
        let t = ts[0];
        let ops0 = if tick_indexed(m, t.exchange, t.symbol) {
            tick_write_ops(m, t.exchange, t.symbol, t.bid, t.ask, t.sequence)
        } else {
            seq![]
        };
        ops0 + history_write_ops(
            model_apply_tick(m, t.exchange, t.symbol, t.bid, t.ask, t.sequence),
            ts.drop_first(),
        )
    }
}

/// Folding writes splits over concatenation.
proof fn lemma_lww_fold_concat(e: EdgeModel, a: Seq<WriteOp>, b: Seq<WriteOp>, u: int, v: int, cap: int)
    ensures
        lww_fold(e, a + b, u, v, cap) == lww_fold(lww_fold(e, a, u, v, cap), b, u, v, cap),
    decreases a.len(),
{
    if a.len() == 0 {
        assert(a + b =~= b);
    } else {
        assert((a + b)[0] == a[0]);
        assert((a + b).drop_first() =~= a.drop_first() + b);
        let e1 = if op_targets(a[0], u, v, cap) && a[0].sequence > e.sequence {
            EdgeModel { weight: Some(a[0].weight), sequence: a[0].sequence }
        } else {
            e
        };
        lemma_lww_fold_concat(e1, a.drop_first(), b, u, v, cap);
    }
}

/// Applying one tick keeps the graph well formed and its dimension.
pub proof fn lemma_model_apply_tick_wf(
    m: GraphModel,
    exchange: Seq<char>,
    symbol: Seq<char>,
    bid: Option<int>,
    ask: Option<int>,
    sequence: nat,
)
    requires
        model_wf(m),
    ensures
        model_wf(model_apply_tick(m, exchange, symbol, bid, ask, sequence)),
        model_apply_tick(m, exchange, symbol, bid, ask, sequence).edges.len() == m.edges.len(),
{
    if is_valid_symbol(symbol) {
        let bk = base_key_of(symbol, exchange);
        let qk = quote_key_of(symbol, exchange);
        let m1 = model_upsert(m, bk, exchange);
        let m2 = model_upsert(m1, qk, exchange);
        lemma_model_upsert_wf(m, bk, exchange);
        lemma_model_upsert_wf(m1, qk, exchange);
        match (model_upsert_index(m, bk), model_upsert_index(m1, qk)) {
            (Some(i), Some(j)) => {
                let m3 = match bid {
                    Some(w) => model_write(m2, i, j, w, sequence),
                    None => m2,
                };
                match bid {
                    Some(w) => lemma_model_write_wf(m2, i, j, w, sequence),
                    None => (),
                }
                match ask {
                    Some(w) => lemma_model_write_wf(m3, j, i, w, sequence),
                    None => (),
                }
            },
            _ => {},
        }
    }
}

/// Last writer wins over a whole tick history: after any sequence of
/// ticks, each edge slot is the initial slot folded through every
/// write the history performed, in order. Together with
/// `lemma_lww_max` this puts the stored weight with the writer of the
/// greatest sequence among all ticks that wrote the edge.
pub proof fn lemma_history_last_writer_wins(m: GraphModel, ts: Seq<TickModel>, u: int, v: int)
    requires
        model_wf(m),
        0 <= u < m.edges.len(),
        0 <= v < m.edges.len(),
    ensures
        model_wf(model_apply_all(m, ts)),
        model_apply_all(m, ts).edges.len() == m.edges.len(),
        model_apply_all(m, ts).edges[u][v] == lww_fold(
            m.edges[u][v],
            history_write_ops(m, ts),
            u,
            v,
            m.edges.len() as int,
        ),
    decreases ts.len(),
{
    if ts.len() > 0 {
        let t = ts[0];
        let m1 = model_apply_tick(m, t.exchange, t.symbol, t.bid, t.ask, t.sequence);
        lemma_model_apply_tick_wf(m, t.exchange, t.symbol, t.bid, t.ask, t.sequence);
        lemma_history_last_writer_wins(m1, ts.drop_first(), u, v);
        let cap = m.edges.len() as int;
        if tick_indexed(m, t.exchange, t.symbol) {
            let ops0 = tick_write_ops(m, t.exchange, t.symbol, t.bid, t.ask, t.sequence);
            let bk = base_key_of(t.symbol, t.exchange);
            let qk = quote_key_of(t.symbol, t.exchange);
            let m2 = model_upsert(model_upsert(m, bk, t.exchange), qk, t.exchange);
            lemma_apply_tick_as_writes(m, t.exchange, t.symbol, t.bid, t.ask, t.sequence);
            lemma_model_upsert_wf(m, bk, t.exchange);
            lemma_model_upsert_wf(model_upsert(m, bk, t.exchange), qk, t.exchange);
            assert(m2.edges == m.edges);
            lemma_write_all_edge(m2, ops0, u, v);
            assert(m1.edges[u][v] == lww_fold(m.edges[u][v], ops0, u, v, cap));
            lemma_lww_fold_concat(
                m.edges[u][v],
                ops0,
                history_write_ops(m1, ts.drop_first()),
                u,
                v,
                cap,
            );
            assert(history_write_ops(m, ts) == ops0 + history_write_ops(m1, ts.drop_first()));
        } else {
            // nothing was written: the tick was malformed or out of room
            assert(m1.edges == m.edges) by {
                if is_valid_symbol(t.symbol) {
                    let bk = base_key_of(t.symbol, t.exchange);
                    let qk = quote_key_of(t.symbol, t.exchange);
                    lemma_model_upsert_wf(m, bk, t.exchange);
                    lemma_model_upsert_wf(model_upsert(m, bk, t.exchange), qk, t.exchange);
                }
            }
            assert(history_write_ops(m, ts) =~= Seq::<WriteOp>::empty() + history_write_ops(
                m1,
                ts.drop_first(),
            ));
            assert(Seq::<WriteOp>::empty() + history_write_ops(m1, ts.drop_first())
                =~= history_write_ops(m1, ts.drop_first()));
        }
    }
}

} // verus!
