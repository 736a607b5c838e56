use vstd::prelude::*;
use vstd::set_lib::{lemma_int_range, lemma_len_subset, set_int_range};
use vstd::seq_lib::seq_to_set_is_finite;
use vstd::arithmetic::div_mod::{lemma_mod_self_0, lemma_small_mod};
use crate::config::Config;
use crate::graph::{GraphModel, MAX_WEIGHT_NANO, PriceGraph};
use crate::opportunity::{
    ArbitrageOpportunity, BASE_MAX_VOLUME_NANO, calculate_confidence, spec_confidence,
};

verus! {

/// Distances stay within this bound throughout a relaxation run over
/// `n` nodes: every value the loop ever writes is a previous value
/// plus one bounded edge weight, and at most `n * n * n` such writes
/// happen.
pub open spec fn dist_bound(n: int) -> int {
    (1 + n * n * n) * (MAX_WEIGHT_NANO as int)
}

/// Every parent entry below `n` points at a node below `n` through a
/// live edge: `parent[v] == Some(u)` only when the graph has a finite
/// weight on `u -> v`.
pub open spec fn parents_linked(m: GraphModel, parent: Seq<Option<usize>>, n: int) -> bool {
    forall|v: int|
        0 <= v < n ==> ((#[trigger] parent[v]) matches Some(u) ==> u < n && m.edges[u as int][v].weight
            is Some)
}

/// All finite distances lie within `bound`.
pub open spec fn dists_bounded(dist: Seq<Option<i128>>, bound: int) -> bool {
    forall|v: int|
        0 <= v < dist.len() ==> ((#[trigger] dist[v]) matches Some(d) ==> -bound <= d <= bound)
}

/// The edge `u -> v` could still lower `v`'s distance: `u` has been
/// reached, the edge is live, and it undercuts `v`'s distance (or `v`
/// has none yet).
pub open spec fn improvable(m: GraphModel, dist: Seq<Option<i128>>, u: int, v: int) -> bool {
    &&& dist[u] matches Some(du)
    &&& m.edges[u][v].weight matches Some(w)
    &&& match dist[v] {
        Some(dv) => du + w < dv,
        None => true,
    }
}

/// Every parent edge is consistent with the distances: if `parent[x]
/// == Some(y)` then both ends carry finite distances, the edge
/// `y -> x` is live, and relaxing it once more cannot help.
pub open spec fn parent_dist_consistent(
    m: GraphModel,
    dist: Seq<Option<i128>>,
    parent: Seq<Option<usize>>,
    n: int,
) -> bool {
    forall|x: int|
        0 <= x < n ==> ((#[trigger] parent[x]) matches Some(y) ==> {
            &&& dist[x] matches Some(dx)
            &&& dist[y as int] matches Some(dy)
            &&& (m.edges[y as int][x].weight matches Some(w) && dy + w <= dx)
        })
}

/// Every vertex other than the source that has gained a finite
/// distance did so through a relaxation, so it has a parent.
pub open spec fn finite_has_parent(
    dist: Seq<Option<i128>>,
    parent: Seq<Option<usize>>,
    source: int,
    n: int,
) -> bool {
    forall|x: int|
        0 <= x < n && x != source ==> ((#[trigger] dist[x]) is Some ==> parent[x] is Some)
}

/// Runs Bellman-Ford relaxation sweeps from `source`: up to `n - 1`
/// sweeps over all edges, stopping early once a sweep changes nothing.
/// Produces the distance and parent arrays; the source keeps a finite
/// distance, every parent edge is distance-consistent, and every
/// finite vertex other than the source has a parent.
#[verifier::rlimit(100)]
pub fn relax_all(graph: &PriceGraph, n: usize, source: usize) -> (r: (
    Vec<Option<i128>>,
    Vec<Option<usize>>,
))
    requires
        graph.wf(),
        n <= graph@.edges.len(),
        source < n,
    ensures
        r.0@.len() == n,
        r.1@.len() == n,
        parents_linked(graph@, r.1@, n as int),
        dists_bounded(r.0@, dist_bound(n as int)),
        r.0@[source as int] is Some,
        parent_dist_consistent(graph@, r.0@, r.1@, n as int),
        finite_has_parent(r.0@, r.1@, source as int, n as int),
{
    let ghost m = graph@;
    let mut dist: Vec<Option<i128>> = Vec::new();
    let mut parent: Vec<Option<usize>> = Vec::new();
    let mut i: usize = 0;
    while i < n
        invariant
            0 <= i <= n,
            dist@.len() == i,
            parent@.len() == i,
            forall|v: int| 0 <= v < i ==> (#[trigger] dist@[v]) is None,
            forall|v: int| 0 <= v < i ==> (#[trigger] parent@[v]) is None,
        decreases n - i,
    {
        dist.push(None);
        parent.push(None);
        i = i + 1;
    }
    dist[source] = Some(0);
    let ghost mut steps: int = 0;
    proof {
        assert(dists_bounded(dist@, (1 + steps) * (MAX_WEIGHT_NANO as int)));
    }
    let mut round: usize = 0;
    let mut more = true;
    while more && round + 1 < n
        invariant
            graph.wf(),
            m == graph@,
            n <= m.edges.len(),
            source < n,
            dist@.len() == n,
            parent@.len() == n,
            parents_linked(m, parent@, n as int),
            dist@[source as int] is Some,
            parent_dist_consistent(m, dist@, parent@, n as int),
            finite_has_parent(dist@, parent@, source as int, n as int),
            0 <= round <= n,
            0 <= steps <= round * n * n,
            dists_bounded(dist@, (1 + steps) * (MAX_WEIGHT_NANO as int)),
        decreases n - round,
    {
        let mut updated = false;
        let mut u: usize = 0;
        while u < n
            invariant
                graph.wf(),
                m == graph@,
                n <= m.edges.len(),
                source < n,
                dist@.len() == n,
                parent@.len() == n,
                parents_linked(m, parent@, n as int),
                dist@[source as int] is Some,
                parent_dist_consistent(m, dist@, parent@, n as int),
                finite_has_parent(dist@, parent@, source as int, n as int),
                0 <= u <= n,
                round < n,
                round * n * n + u * n >= steps >= 0,
                dists_bounded(dist@, (1 + steps) * (MAX_WEIGHT_NANO as int)),
            decreases n - u,
        {
            let du_opt = dist[u];
            if let Some(du) = du_opt {
                let mut v: usize = 0;
                while v < n
                    invariant
                        graph.wf(),
                        m == graph@,
                        n <= m.edges.len(),
                        source < n,
                        dist@.len() == n,
                        parent@.len() == n,
                        parents_linked(m, parent@, n as int),
                        dist@[source as int] is Some,
                        parent_dist_consistent(m, dist@, parent@, n as int),
                        finite_has_parent(dist@, parent@, source as int, n as int),
                        u < n,
                        round < n,
                        0 <= v <= n,
                        round * n * n + u * n + v >= steps >= 0,
                        dists_bounded(dist@, (1 + steps) * (MAX_WEIGHT_NANO as int)),
                        dist@[u as int] matches Some(dnow) && dnow <= du,
                        -(1 + steps) * (MAX_WEIGHT_NANO as int) <= du <= (1 + steps) * (
                        MAX_WEIGHT_NANO as int),
                    decreases n - v,
                {
                    if let Some(w) = graph.edge_weight(u, v) {
                        proof {
                            assert(steps <= n * n * n) by (nonlinear_arith)
                                requires
                                    steps <= round * n * n + u * n + v,
                                    0 <= round < n,
                                    0 <= u < n,
                                    0 <= v < n,
                            ;
                            assert(n * n * n <= 68_719_476_736int) by (nonlinear_arith)
                                requires
                                    0 <= n <= 4096,
                            ;
                        }
                        let cand: i128 = du + (w as i128);
                        let better: bool = match dist[v] {
                            Some(dv) => cand < dv,
                            None => true,
                        };
                        if better {
                            proof {
                                // a self-loop weighs zero and cannot improve
                                if u == v {
                                    assert(m.edges[u as int][u as int].weight == Some(0int));
                                    assert(false);
                                }
                            }
                            let ghost old_dist = dist@;
                            let ghost old_parent = parent@;
                            dist[v] = Some(cand);
                            parent[v] = Some(u);
                            proof {
                                steps = steps + 1;
                                assert forall|x: int|
                                    0 <= x < n implies ((#[trigger] parent@[x]) matches Some(y)
                                    ==> {
                                    &&& dist@[x] matches Some(dx)
                                    &&& dist@[y as int] matches Some(dy)
                                    &&& (m.edges[y as int][x].weight matches Some(ww) && dy + ww
                                        <= dx)
                                }) by {
                                    if parent@[x] is Some {
                                        let y = parent@[x]->Some_0;
                                        if x == v {
                                            assert(y == u);
                                            assert(old_dist[u as int] matches Some(dn) && dn
                                                <= du);
                                            assert(dist@[u as int] == old_dist[u as int]);
                                        } else {
                                            assert(old_parent[x] == parent@[x]);
                                            assert(old_dist[x] == dist@[x]);
                                            if y == v {
                                                assert(old_dist[v as int] matches Some(dv0)
                                                    && cand < dv0);
                                            }
                                        }
                                    }
                                }
                            }
                            updated = true;
                        }
                    }
                    v = v + 1;
                }
                proof {
                    assert(round * n * n + u * n + n == round * n * n + (u + 1) * n) by (
                    nonlinear_arith);
                }
            } else {
                proof {
                    assert(round * n * n + u * n <= round * n * n + (u + 1) * n) by (
                    nonlinear_arith);
                }
            }
            u = u + 1;
        }
        proof {
            assert(round * n * n + n * n == (round + 1) * n * n) by (nonlinear_arith);
        }
        round = round + 1;
        more = updated;
    }
    proof {
        assert(steps <= n * n * n) by {
            assert(round * n * n <= n * n * n) by (nonlinear_arith)
                requires 0 <= round <= n, n >= 0;
        }
        assert forall|v: int|
            0 <= v < dist@.len() implies ((#[trigger] dist@[v]) matches Some(d) ==> -dist_bound(
            n as int) <= d <= dist_bound(n as int)) by {
            if dist@[v] matches Some(d) {
                assert((1 + steps) * (MAX_WEIGHT_NANO as int) <= dist_bound(n as int)) by (
                nonlinear_arith)
                    requires 0 <= steps <= n * n * n;
            }
        }
    }
    (dist, parent)
}

/// Looks for any edge that could still be relaxed after the sweeps; on
/// a graph free of reachable negative cycles there is none.
pub fn find_improvable(graph: &PriceGraph, n: usize, dist: &Vec<Option<i128>>) -> (r: Option<
    (usize, usize),
>)
    requires
        graph.wf(),
        n <= graph@.edges.len(),
        dist@.len() == n,
        dists_bounded(dist@, dist_bound(n as int)),
    ensures
        r matches Some(uv) ==> uv.0 < n && uv.1 < n && improvable(
            graph@,
            dist@,
            uv.0 as int,
            uv.1 as int,
        ),
        r is None ==> forall|u: int, v: int|
            0 <= u < n && 0 <= v < n ==> !improvable(graph@, dist@, u, v),
{
    let ghost m = graph@;
    let mut u: usize = 0;
    while u < n
        invariant
            graph.wf(),
            m == graph@,
            n <= m.edges.len(),
            dist@.len() == n,
            dists_bounded(dist@, dist_bound(n as int)),
            0 <= u <= n,
            forall|a: int, b: int| 0 <= a < u && 0 <= b < n ==> !improvable(m, dist@, a, b),
        decreases n - u,
    {
        if let Some(du) = dist[u] {
            let mut v: usize = 0;
            while v < n
                invariant
                    graph.wf(),
                    m == graph@,
                    n <= m.edges.len(),
                    dist@.len() == n,
                    dists_bounded(dist@, dist_bound(n as int)),
                    u < n,
                    0 <= v <= n,
                    dist@[u as int] == Some(du),
                    forall|a: int, b: int| 0 <= a < u && 0 <= b < n ==> !improvable(m, dist@, a, b),
                    forall|b: int| 0 <= b < v ==> !improvable(m, dist@, u as int, b),
                decreases n - v,
            {
                if let Some(w) = graph.edge_weight(u, v) {
                    proof {
                        assert(n * n * n <= 68_719_476_736int) by (nonlinear_arith)
                            requires
                                0 <= n <= 4096,
                        ;
                    }
                    let cand: i128 = du + (w as i128);
                    let better: bool = match dist[v] {
                        Some(dv) => cand < dv,
                        None => true,
                    };
                    if better {
                        return Some((u, v));
                    }
                }
                v = v + 1;
            }
        } else {
            proof {
                assert forall|b: int| 0 <= b < n implies !improvable(m, dist@, u as int, b) by {}
            }
        }
        u = u + 1;
    }
    None
}

/// Every parent entry points back inside the array.
pub open spec fn parents_wf(parent: Seq<Option<usize>>) -> bool {
    forall|i: int|
        0 <= i < parent.len() ==> ((#[trigger] parent[i]) matches Some(p) ==> p < parent.len())
}

/// The node reached after `k` parent steps from `node`, or nothing
/// once a step lands on a node without a parent.
pub open spec fn chain(parent: Seq<Option<usize>>, node: usize, k: nat) -> Option<usize>
    decreases k,
{
    if k == 0 {
        Some(node)
    } else {
        match chain(parent, node, (k - 1) as nat) {
            Some(x) => parent[x as int],
            None => None,
        }
    }
}

/// The parent walk from `node` dies before it can close a cycle: some
/// step within the array's length finds no parent.
pub open spec fn walk_dies(parent: Seq<Option<usize>>, node: usize) -> bool {
    exists|k: nat| k <= parent.len() && chain(parent, node, k) is None
}

/// Consecutive cycle nodes follow the parent relation: the parent of
/// each node's successor around the cycle is the node itself, so the
/// edge from each node to its successor was relaxed, and the cycle is
/// closed.
pub open spec fn cycle_linked(parent: Seq<Option<usize>>, c: Seq<usize>) -> bool {
    forall|i: int|
        0 <= i < c.len() ==> parent[c[(i + 1) % (c.len() as int)] as int] == Some(#[trigger] c[i])
}

/// Once the walk has reached a set of nodes each of which has a parent
/// inside the set, it stays alive forever.
proof fn lemma_chain_alive(
    parent: Seq<Option<usize>>,
    node: usize,
    cyc: Seq<usize>,
    k0: nat,
    k: nat,
)
    requires
        forall|t: int|
            0 <= t < cyc.len() ==> (parent[(#[trigger] cyc[t]) as int] matches Some(q)
                && cyc.contains(q)),
        chain(parent, node, k0) matches Some(x0) && cyc.contains(x0),
        k >= k0,
    ensures
        chain(parent, node, k) matches Some(y) && cyc.contains(y),
    decreases k - k0,
{
    if k > k0 {
        lemma_chain_alive(parent, node, cyc, k0, (k - 1) as nat);
        let y = chain(parent, node, (k - 1) as nat)->Some_0;
        let t = choose|t: int| 0 <= t < cyc.len() && cyc[t] == y;
        assert(parent[cyc[t] as int] matches Some(q) && cyc.contains(q));
    }
}

/// A walk of distinct nodes below `n` that misses `p` has room for
/// one more node.
proof fn lemma_walk_has_room(walk: Seq<usize>, p: usize, n: int)
    requires
        walk.no_duplicates(),
        forall|t: int| 0 <= t < walk.len() ==> (#[trigger] walk[t]) < n,
        !walk.contains(p),
        p < n,
        walk.len() <= n,
    ensures
        walk.len() < n,
{
    if walk.len() == n {
        let wi = walk.map_values(|y: usize| y as int);
        assert(wi.no_duplicates()) by {
            assert forall|a: int, b: int| 0 <= a < b < wi.len() implies wi[a] != wi[b] by {
                assert(walk[a] != walk[b]);
            }
        }
        wi.unique_seq_to_set();
        lemma_int_range(0, n);
        assert(wi.to_set().subset_of(set_int_range(0, n))) by {
            assert forall|e: int| wi.to_set().contains(e) implies set_int_range(0, n).contains(
                e,
            ) by {
                let idx = choose|idx: int| 0 <= idx < wi.len() && wi[idx] == e;
                assert(walk[idx] < n);
            }
        }
        assert(!wi.to_set().contains(p as int)) by {
            if wi.to_set().contains(p as int) {
                let idx = choose|idx: int| 0 <= idx < wi.len() && wi[idx] == p as int;
                assert(walk[idx] == p);
            }
        }
        seq_to_set_is_finite(wi);
        let s2 = wi.to_set().insert(p as int);
        assert(s2.subset_of(set_int_range(0, n)));
        lemma_len_subset(s2, set_int_range(0, n));
        assert(s2.len() == n + 1);
        assert(false);
    }
}

/// The invariants the parent walk maintains: distinct in-range nodes,
/// chained through the parent relation, mirroring `chain`.
pub open spec fn walk_wf(parent: Seq<Option<usize>>, walk: Seq<usize>, node: usize) -> bool {
    &&& 1 <= walk.len() <= parent.len()
    &&& walk[0] == node
    &&& forall|t: int| 0 <= t < walk.len() ==> (#[trigger] walk[t]) < parent.len()
    &&& walk.no_duplicates()
    &&& forall|t: int|
        0 <= t < walk.len() - 1 ==> parent[(#[trigger] walk[t]) as int] == Some(walk[t + 1])
    &&& forall|t: int|
        0 <= t < walk.len() ==> chain(parent, node, t as nat) == Some(#[trigger] walk[t])
}

/// Turns the walk's closing suffix into the cycle, reversed into
/// trade order, and shows that the walk can never die.
fn close_cycle(walk: &Vec<usize>, parent: &Vec<Option<usize>>, p: usize, node: usize) -> (c: Vec<
    usize,
>)
    requires
        parents_wf(parent@),
        walk_wf(parent@, walk@, node),
        walk@.contains(p),
        parent@[walk@[walk@.len() - 1] as int] == Some(p),
    ensures
        1 <= c@.len() <= parent@.len(),
        forall|i: int| 0 <= i < c@.len() ==> (#[trigger] c@[i]) < parent@.len(),
        c@.no_duplicates(),
        cycle_linked(parent@, c@),
        !walk_dies(parent@, node),
{
    let len = walk.len();
    let mut s: usize = 0;
    while walk[s] != p
        invariant
            walk@.len() == len,
            0 <= s < len,
            exists|t: int| s <= t < len && walk@[t] == p,
        decreases len - s,
    {
        s = s + 1;
        proof {
            let t = choose|t: int| s - 1 <= t < len && walk@[t] == p;
            assert(s <= t < len);
        }
    }
    // trade order runs opposite to the parent walk
    let mut c: Vec<usize> = Vec::new();
    let mut t: usize = len;
    while t > s
        invariant
            s <= t <= len,
            len == walk@.len(),
            c@.len() == len - t,
            forall|q: int| 0 <= q < c@.len() ==> (#[trigger] c@[q]) == walk@[len - 1 - q],
        decreases t - s,
    {
        t = t - 1;
        c.push(walk[t]);
    }
    proof {
        lemma_closed_cycle(parent@, walk@, c@, p, node, s as int);
    }
    c
}

/// The reversed suffix of the walk is a closed, never-dying cycle.
#[verifier::rlimit(100)]
proof fn lemma_closed_cycle(
    parent: Seq<Option<usize>>,
    w: Seq<usize>,
    cc: Seq<usize>,
    p: usize,
    node: usize,
    s: int,
)
    requires
        parents_wf(parent),
        walk_wf(parent, w, node),
        0 <= s < w.len(),
        w[s] == p,
        parent[w[w.len() - 1] as int] == Some(p),
        cc.len() == w.len() - s,
        forall|q: int| 0 <= q < cc.len() ==> (#[trigger] cc[q]) == w[w.len() - 1 - q],
    ensures
        1 <= cc.len() <= parent.len(),
        forall|i: int| 0 <= i < cc.len() ==> (#[trigger] cc[i]) < parent.len(),
        cc.no_duplicates(),
        cycle_linked(parent, cc),
        !walk_dies(parent, node),
{
    let len = w.len() as int;
    assert forall|q1: int, q2: int| 0 <= q1 < q2 < cc.len() implies cc[q1] != cc[q2] by {
        assert(cc[q1] == w[len - 1 - q1] && cc[q2] == w[len - 1 - q2]);
    }
    assert forall|q: int| 0 <= q < cc.len() implies parent[cc[(q + 1) % (cc.len() as int)] as int]
        == Some(cc[q]) by {
        if q < cc.len() - 1 {
            lemma_small_mod((q + 1) as nat, cc.len() as nat);
            assert(cc[q + 1] == w[len - 2 - q]);
            assert(parent[w[len - 2 - q] as int] == Some(w[len - 1 - q]));
        } else {
            lemma_mod_self_0(cc.len() as int);
            assert((q + 1) % (cc.len() as int) == 0);
            assert(cc[0] == w[len - 1]);
            assert(parent[w[len - 1] as int] == Some(p));
            assert(cc[q] == w[s]);
        }
    }
    assert forall|t2: int|
        0 <= t2 < cc.len() implies (parent[(#[trigger] cc[t2]) as int] matches Some(q)
        && cc.contains(q)) by {
        let prev = if t2 == 0 {
            cc.len() - 1
        } else {
            t2 - 1
        };
        assert(parent[cc[(prev + 1) % (cc.len() as int)] as int] == Some(cc[prev]));
        if t2 == 0 {
            lemma_mod_self_0(cc.len() as int);
        } else {
            lemma_small_mod(t2 as nat, cc.len() as nat);
        }
        assert((prev + 1) % (cc.len() as int) == t2);
    }
    assert(chain(parent, node, (len - 1) as nat) == Some(w[len - 1]));
    assert(chain(parent, node, len as nat) == Some(p));
    assert(cc.contains(p)) by {
        assert(cc[cc.len() - 1] == w[s]);
    }
    assert forall|kk: nat| !(chain(parent, node, kk) is None) by {
        if kk < len {
            assert(chain(parent, node, kk) == Some(w[kk as int]));
        } else {
            lemma_chain_alive(parent, node, cc, len as nat, kk);
        }
    }
}

/// Walks the parent pointers from `node` until a node repeats, then
/// returns the discovered cycle in trade order: each node is followed
/// by the node whose distance it improved. Returns nothing when the
/// walk reaches a node without a parent first.
pub fn reconstruct_cycle(parent: Vec<Option<usize>>, node: usize) -> (r: Option<Vec<usize>>)
    requires
        node < parent@.len(),
        parents_wf(parent@),
    ensures
        r is None <==> walk_dies(parent@, node),
        r matches Some(c) ==> {
            &&& 1 <= c@.len() <= parent@.len()
            &&& forall|i: int| 0 <= i < c@.len() ==> (#[trigger] c@[i]) < parent@.len()
            &&& c@.no_duplicates()
            &&& cycle_linked(parent@, c@)
        },
{
    let n = parent.len();
    let mut visited: Vec<bool> = Vec::new();
    let mut i: usize = 0;
    while i < n
        invariant
            0 <= i <= n,
            visited@.len() == i,
            forall|x: int| 0 <= x < i ==> !(#[trigger] visited@[x]),
        decreases n - i,
    {
        visited.push(false);
        i = i + 1;
    }
    let mut walk: Vec<usize> = Vec::new();
    walk.push(node);
    visited[node] = true;
    proof {
        assert forall|x: usize|
            x < n implies ((#[trigger] visited@[x as int]) <==> walk@.contains(x)) by {
            if x == node {
                assert(walk@[0] == node);
            } else {
                if walk@.contains(x) {
                    let idx = choose|idx: int| 0 <= idx < walk@.len() && walk@[idx] == x;
                    assert(idx == 0);
                }
            }
        }
    }
    loop
        invariant
            n == parent@.len(),
            node < n,
            parents_wf(parent@),
            visited@.len() == n,
            walk_wf(parent@, walk@, node),
            forall|x: usize| x < n ==> ((#[trigger] visited@[x as int]) <==> walk@.contains(x)),
        decreases n - walk@.len(),
    {
        let len = walk.len();
        let cur = walk[len - 1];
        match parent[cur] {
            None => {
                proof {
                    assert(chain(parent@, node, (len - 1) as nat) == Some(cur));
                    assert(chain(parent@, node, len as nat) is None);
                }
                return None;
            },
            Some(p) => {
                if visited[p] {
                    let c = close_cycle(&walk, &parent, p, node);
                    return Some(c);
                } else {
                    proof {
                        lemma_walk_has_room(walk@, p, n as int);
                    }
                    let ghost old_walk = walk@;
                    walk.push(p);
                    visited[p] = true;
                    proof {
                        assert(chain(parent@, node, (len - 1) as nat) == Some(cur));
                        assert(chain(parent@, node, len as nat) == Some(p));
                        assert(walk@ == old_walk.push(p));
                        assert forall|a: int, b: int|
                            0 <= a < b < walk@.len() implies walk@[a] != walk@[b] by {
                            if b < old_walk.len() {
                                assert(old_walk[a] != old_walk[b]);
                            } else {
                                if walk@[a] == p {
                                    assert(old_walk.contains(p));
                                }
                            }
                        }
                        assert forall|x: usize|
                            x < n implies ((#[trigger] visited@[x as int]) <==> walk@.contains(
                            x)) by {
                            if x == p {
                                assert(walk@[walk@.len() - 1] == p);
                            } else {
                                if old_walk.contains(x) {
                                    let idx = choose|idx: int|
                                        0 <= idx < old_walk.len() && old_walk[idx] == x;
                                    assert(walk@[idx] == x);
                                }
                                if walk@.contains(x) {
                                    let idx = choose|idx: int|
                                        0 <= idx < walk@.len() && walk@[idx] == x;
                                    assert(idx < old_walk.len());
                                    assert(old_walk[idx] == x);
                                }
                            }
                        }
                    }
                }
            },
        }
    }
}

/// The sum of the first `k` edge weights around the cycle, or nothing
/// if any of them is missing.
pub open spec fn cycle_weight_prefix(m: GraphModel, c: Seq<usize>, k: int) -> Option<int>
    decreases k,
{
    if k <= 0 {
        Some(0)
    } else {
        let from = c[k - 1] as int;
        let to = (if k == c.len() {
            c[0]
        } else {
            c[k]
        }) as int;
        match (cycle_weight_prefix(m, c, k - 1), m.edges[from][to].weight) {
            (Some(acc), Some(w)) => Some(acc + w),
            _ => None,
        }
    }
}

/// The total weight of the cycle `c[0] -> c[1] -> ... -> c[0]`, or
/// nothing if some edge is missing.
pub open spec fn cycle_weight(m: GraphModel, c: Seq<usize>) -> Option<int> {
    cycle_weight_prefix(m, c, c.len() as int)
}

/// A missing edge poisons every longer prefix.
proof fn lemma_cycle_weight_none_propagates(m: GraphModel, c: Seq<usize>, k: int, k2: int)
    requires
        cycle_weight_prefix(m, c, k) is None,
        k <= k2,
    ensures
        cycle_weight_prefix(m, c, k2) is None,
    decreases k2 - k,
{
    if k < k2 {
        lemma_cycle_weight_none_propagates(m, c, k, k2 - 1);
    }
}

/// Sums the edge weights around a cycle, in log-rate nano units.
pub fn cycle_log_sum(graph: &PriceGraph, cycle: &Vec<usize>) -> (r: Option<i64>)
    requires
        graph.wf(),
        cycle@.len() <= graph@.edges.len(),
        forall|i: int| 0 <= i < cycle@.len() ==> (#[trigger] cycle@[i]) < graph@.edges.len(),
    ensures
        r matches Some(s) ==> cycle_weight(graph@, cycle@) == Some(s as int)
            && -4096 * (MAX_WEIGHT_NANO as int) <= s <= 4096 * (MAX_WEIGHT_NANO as int),
        r is None ==> cycle_weight(graph@, cycle@) is None,
{
    let ghost m = graph@;
    let len = cycle.len();
    let mut acc: i64 = 0;
    let mut k: usize = 0;
    while k < len
        invariant
            graph.wf(),
            m == graph@,
            len == cycle@.len(),
            len <= m.edges.len(),
            forall|i: int| 0 <= i < cycle@.len() ==> (#[trigger] cycle@[i]) < m.edges.len(),
            0 <= k <= len,
            cycle_weight_prefix(m, cycle@, k as int) == Some(acc as int),
            -(k as int) * (MAX_WEIGHT_NANO as int) <= acc <= (k as int) * (MAX_WEIGHT_NANO as int),
        decreases len - k,
    {
        let from = cycle[k];
        let to = if k + 1 == len {
            cycle[0]
        } else {
            cycle[k + 1]
        };
        match graph.edge_weight(from, to) {
            Some(w) => {
                proof {
                    assert(m.edges.len() <= 4096);
                }
                acc = acc + w;
            },
            None => {
                proof {
                    assert(cycle_weight_prefix(m, cycle@, k + 1) is None);
                    lemma_cycle_weight_none_propagates(m, cycle@, k + 1, len as int);
                }
                return None;
            },
        }
        k = k + 1;
    }
    Some(acc)
}

/// `a` is `b` rotated: the same nodes in the same cyclic order.
pub open spec fn is_rotation_of(a: Seq<usize>, b: Seq<usize>) -> bool {
    exists|k: int|
        0 <= k < b.len() && a == b.subrange(k, b.len() as int) + b.subrange(0, k)
}

/// The smallest node index leads the sequence.
pub open spec fn min_first(c: Seq<usize>) -> bool {
    forall|i: int| 0 <= i < c.len() ==> c[0] <= #[trigger] c[i]
}

/// Two rotations of one duplicate-free cycle that both lead with the
/// smallest index are the same sequence: the canonical rotation is
/// unique, so deduplication by canonical form collapses exactly the
/// cyclic reorderings of a cycle.
pub proof fn lemma_canonical_rotation_unique(a: Seq<usize>, b: Seq<usize>)
    requires
        is_rotation_of(a, b),
        b.no_duplicates(),
        min_first(a),
        min_first(b),
    ensures
        a == b,
{
    let k = choose|k: int|
        0 <= k < b.len() && a == b.subrange(k, b.len() as int) + b.subrange(0, k);
    let n = b.len() as int;
    if k == 0 {
        assert(a =~= b);
    } else {
        assert(a[0] == b[k]);
        assert(a[n - k] == b[0]);
        assert(a[0] <= a[n - k]);
        assert(b[0] <= b[k]);
        assert(b[k] == b[0]);
        assert(false);
    }
}


/// Two distinct canonical cycles are no mere reorderings of one
/// another: once each scan record carries its cycle in canonical
/// rotation, pairwise distinctness means no emitted cycle repeats
/// another under rotation.
pub proof fn lemma_distinct_canonical_cycles(a: Seq<usize>, b: Seq<usize>)
    requires
        a != b,
        min_first(a),
        min_first(b),
        b.no_duplicates(),
    ensures
        !is_rotation_of(a, b),
{
    if is_rotation_of(a, b) {
        lemma_canonical_rotation_unique(a, b);
    }
}

/// The consecutive node pairs around a cycle.
pub open spec fn edge_list(c: Seq<usize>) -> Seq<(usize, usize)> {
    Seq::new(c.len(), |i: int| (c[i], c[(i + 1) % (c.len() as int)]))
}

/// Adds two optional weights; a missing edge poisons the sum.
pub open spec fn opt_add(x: Option<int>, y: Option<int>) -> Option<int> {
    match (x, y) {
        (Some(p), Some(q)) => Some(p + q),
        _ => None,
    }
}

/// The total weight of a list of directed edges, or nothing if one of
/// them is missing.
pub open spec fn edge_sum(m: GraphModel, ps: Seq<(usize, usize)>) -> Option<int>
    decreases ps.len(),
{
    if ps.len() == 0 {
        Some(0)
    } else {
        match (
            edge_sum(m, ps.drop_last()),
            m.edges[ps.last().0 as int][ps.last().1 as int].weight,
        ) {
            (Some(acc), Some(w)) => Some(acc + w),
            _ => None,
        }
    }
}

/// A cycle's weight is the sum over its edge list.
proof fn lemma_cycle_weight_is_edge_sum(m: GraphModel, c: Seq<usize>, k: int)
    requires
        0 <= k <= c.len(),
    ensures
        cycle_weight_prefix(m, c, k) == edge_sum(m, edge_list(c).take(k)),
    decreases k,
{
    if k > 0 {
        lemma_cycle_weight_is_edge_sum(m, c, k - 1);
        let el = edge_list(c);
        assert(el.take(k).drop_last() =~= el.take(k - 1));
        assert(el.take(k).last() == el[k - 1]);
        assert(el[k - 1].0 == c[k - 1]);
        if k == c.len() {
            lemma_mod_self_0(c.len() as int);
            assert(el[k - 1].1 == c[0]);
        } else {
            lemma_small_mod(k as nat, c.len() as nat);
            assert(el[k - 1].1 == c[k]);
        }
    }
}

/// Summing a concatenation sums the parts.
proof fn lemma_edge_sum_concat(m: GraphModel, a: Seq<(usize, usize)>, b: Seq<(usize, usize)>)
    ensures
        edge_sum(m, a + b) == opt_add(edge_sum(m, a), edge_sum(m, b)),
    decreases b.len(),
{
    if b.len() == 0 {
        assert(a + b =~= a);
    } else {
        lemma_edge_sum_concat(m, a, b.drop_last());
        assert((a + b).drop_last() =~= a + b.drop_last());
        assert((a + b).last() == b.last());
    }
}

/// Rotating a cycle rotates its edge list the same way.
proof fn lemma_edge_list_rotation(c: Seq<usize>, k: int)
    requires
        0 < k < c.len(),
    ensures
        edge_list(c.subrange(k, c.len() as int) + c.subrange(0, k)) =~= edge_list(c).subrange(
            k,
            c.len() as int,
        ) + edge_list(c).subrange(0, k),
{
    let n = c.len() as int;
    let r = c.subrange(k, n) + c.subrange(0, k);
    let rhs = edge_list(c).subrange(k, n) + edge_list(c).subrange(0, k);
    assert(r.len() == n);
    assert forall|i: int| 0 <= i < n implies edge_list(r)[i] == rhs[i] by {
        // both sides name the pair starting at c[(i + k) % n]
        if i + 1 < n {
            lemma_small_mod((i + 1) as nat, n as nat);
        } else {
            lemma_mod_self_0(n);
        }
        if i < n - k {
            assert(r[i] == c[k + i]);
            assert(rhs[i] == edge_list(c)[k + i]);
            if k + i + 1 < n {
                lemma_small_mod((k + i + 1) as nat, n as nat);
                assert(r[(i + 1) % n] == c[k + i + 1]);
            } else {
                lemma_mod_self_0(n);
                assert(r[(i + 1) % n] == c[0]);
            }
        } else {
            assert(r[i] == c[i - (n - k)]);
            assert(rhs[i] == edge_list(c)[i - (n - k)]);
            lemma_small_mod((i - (n - k) + 1) as nat, n as nat);
            assert(r[(i + 1) % n] == c[i - (n - k) + 1]);
        }
    }
}

/// Rotating a cycle does not change its weight: all rotations of one
/// cycle carry the same profit, so collapsing them to a single
/// representative keeps the most profitable one.
pub proof fn lemma_cycle_weight_rotation_invariant(m: GraphModel, a: Seq<usize>, b: Seq<usize>)
    requires
        is_rotation_of(a, b),
    ensures
        cycle_weight(m, a) == cycle_weight(m, b),
{
    let n = b.len() as int;
    let k = choose|k: int| 0 <= k < b.len() && a == b.subrange(k, b.len() as int) + b.subrange(0, k);
    lemma_cycle_weight_is_edge_sum(m, a, a.len() as int);
    lemma_cycle_weight_is_edge_sum(m, b, b.len() as int);
    assert(edge_list(a).take(a.len() as int) =~= edge_list(a));
    assert(edge_list(b).take(b.len() as int) =~= edge_list(b));
    if k == 0 {
        assert(a =~= b);
    } else {
        lemma_edge_list_rotation(b, k);
        let eb = edge_list(b);
        lemma_edge_sum_concat(m, eb.subrange(k, n), eb.subrange(0, k));
        lemma_edge_sum_concat(m, eb.subrange(0, k), eb.subrange(k, n));
        assert(eb.subrange(0, k) + eb.subrange(k, n) =~= eb);
    }
}

/// Rotates a cycle so that its smallest node index leads.
pub fn canonical_rotation(cycle: Vec<usize>) -> (r: Vec<usize>)
    requires
        1 <= cycle@.len(),
    ensures
        r@.len() == cycle@.len(),
        is_rotation_of(r@, cycle@),
        min_first(r@),
        cycle@.no_duplicates() ==> r@.no_duplicates(),
        forall|i: int| 0 <= i < r@.len() ==> cycle@.contains(#[trigger] r@[i]),
{
    let len = cycle.len();
    let mut p: usize = 0;
    let mut i: usize = 1;
    while i < len
        invariant
            len == cycle@.len(),
            0 <= p < len,
            1 <= i <= len,
            forall|j: int| 0 <= j < i ==> cycle@[p as int] <= #[trigger] cycle@[j],
        decreases len - i,
    {
        if cycle[i] < cycle[p] {
            p = i;
        }
        i = i + 1;
    }
    let mut r: Vec<usize> = Vec::new();
    let mut t: usize = p;
    while t < len
        invariant
            len == cycle@.len(),
            p <= t <= len,
            r@ == cycle@.subrange(p as int, t as int),
        decreases len - t,
    {
        r.push(cycle[t]);
        t = t + 1;
        proof {
            assert(r@ =~= cycle@.subrange(p as int, t as int));
        }
    }
    let mut t2: usize = 0;
    while t2 < p
        invariant
            len == cycle@.len(),
            p < len,
            0 <= t2 <= p,
            r@ == cycle@.subrange(p as int, len as int) + cycle@.subrange(0, t2 as int),
        decreases p - t2,
    {
        r.push(cycle[t2]);
        t2 = t2 + 1;
        proof {
            assert(r@ =~= cycle@.subrange(p as int, len as int) + cycle@.subrange(0, t2 as int));
        }
    }
    proof {
        assert(is_rotation_of(r@, cycle@)) by {
            assert(r@ == cycle@.subrange(p as int, len as int) + cycle@.subrange(0, p as int));
        }
        assert forall|i2: int| 0 <= i2 < r@.len() implies r@[0] <= #[trigger] r@[i2] by {
            assert(r@[0] == cycle@[p as int]);
            if i2 < len - p {
                assert(r@[i2] == cycle@[p + i2]);
            } else {
                assert(r@[i2] == cycle@[i2 - (len - p)]);
            }
        }
        if cycle@.no_duplicates() {
            assert forall|a: int, b: int| 0 <= a < b < r@.len() implies r@[a] != r@[b] by {
                let pa = if a < len - p {
                    p + a
                } else {
                    a - (len - p)
                };
                let pb = if b < len - p {
                    p + b
                } else {
                    b - (len - p)
                };
                assert(r@[a] == cycle@[pa] && r@[b] == cycle@[pb]);
                assert(pa != pb);
            }
        }
        assert forall|i2: int| 0 <= i2 < r@.len() implies cycle@.contains(#[trigger] r@[i2]) by {
            if i2 < len - p {
                assert(r@[i2] == cycle@[p + i2]);
            } else {
                assert(r@[i2] == cycle@[i2 - (len - p)]);
            }
        }
    }
    r
}

/// Every consecutive edge of the cycle carries a live weight.
pub open spec fn cycle_edges_live(m: GraphModel, c: Seq<usize>) -> bool {
    forall|i: int|
        0 <= i < c.len() ==> m.edges[(#[trigger] c[i]) as int][c[(i + 1) % (c.len() as int)] as int].weight
            is Some
}

/// Finite distance propagates along the cycle's live edges when no
/// edge is improvable.
proof fn lemma_cycle_dists_finite(
    m: GraphModel,
    dist: Seq<Option<i128>>,
    c: Seq<usize>,
    n: int,
    j: int,
)
    requires
        dist.len() == n,
        forall|u: int, v: int| 0 <= u < n && 0 <= v < n ==> !improvable(m, dist, u, v),
        1 <= c.len(),
        forall|i: int| 0 <= i < c.len() ==> (#[trigger] c[i]) < n,
        cycle_edges_live(m, c),
        dist[c[0] as int] is Some,
        0 <= j < c.len(),
    ensures
        dist[c[j] as int] is Some,
    decreases j,
{
    if j > 0 {
        lemma_cycle_dists_finite(m, dist, c, n, j - 1);
        lemma_small_mod(j as nat, c.len() as nat);
        assert(m.edges[(c[j - 1]) as int][c[j % (c.len() as int)] as int].weight is Some);
        assert(!improvable(m, dist, c[j - 1] as int, c[j] as int));
    }
}

/// Telescoping the non-improvability inequalities around the cycle:
/// the weight of the first `k` edges is at least the distance gained.
proof fn lemma_cycle_prefix_lower_bound(
    m: GraphModel,
    dist: Seq<Option<i128>>,
    c: Seq<usize>,
    n: int,
    k: int,
)
    requires
        dist.len() == n,
        forall|u: int, v: int| 0 <= u < n && 0 <= v < n ==> !improvable(m, dist, u, v),
        1 <= c.len(),
        forall|i: int| 0 <= i < c.len() ==> (#[trigger] c[i]) < n,
        cycle_edges_live(m, c),
        forall|j: int| 0 <= j < c.len() ==> dist[(#[trigger] c[j]) as int] is Some,
        0 <= k <= c.len(),
    ensures
        cycle_weight_prefix(m, c, k) matches Some(s) && s + dist[c[0] as int]->Some_0 >= dist[c[
            if k == c.len() {
                0int
            } else {
                k
            }
        ] as int]->Some_0,
    decreases k,
{
    if k > 0 {
        lemma_cycle_prefix_lower_bound(m, dist, c, n, k - 1);
        let tgt = if k == c.len() {
            0int
        } else {
            k
        };
        if k == c.len() {
            lemma_mod_self_0(c.len() as int);
        } else {
            lemma_small_mod(k as nat, c.len() as nat);
        }
        assert(m.edges[(c[k - 1]) as int][c[k % (c.len() as int)] as int].weight is Some);
        assert(!improvable(m, dist, c[k - 1] as int, c[tgt] as int));
    }
}

/// The Bellman-Ford criterion, refuting side: once no edge of the
/// relaxed state can be improved, every cycle of live edges whose
/// head carries a finite distance has non-negative total weight. So
/// when `find_improvable` answers `None` after `relax_all` from
/// source `s`, no negative cycle through `s` exists.
pub proof fn lemma_no_improvable_no_negative_cycle(
    m: GraphModel,
    dist: Seq<Option<i128>>,
    c: Seq<usize>,
    n: int,
)
    requires
        dist.len() == n,
        forall|u: int, v: int| 0 <= u < n && 0 <= v < n ==> !improvable(m, dist, u, v),
        1 <= c.len(),
        forall|i: int| 0 <= i < c.len() ==> (#[trigger] c[i]) < n,
        cycle_edges_live(m, c),
        dist[c[0] as int] is Some,
    ensures
        cycle_weight(m, c) matches Some(s) && s >= 0,
{
    assert forall|j: int| 0 <= j < c.len() implies dist[(#[trigger] c[j]) as int] is Some by {
        lemma_cycle_dists_finite(m, dist, c, n, j);
    }
    lemma_cycle_prefix_lower_bound(m, dist, c, n, c.len() as int);
}

/// Telescoping the parent-consistency inequalities around a cycle
/// closed through the parent pointers.
proof fn lemma_parent_cycle_prefix_upper_bound(
    m: GraphModel,
    dist: Seq<Option<i128>>,
    parent: Seq<Option<usize>>,
    c: Seq<usize>,
    n: int,
    k: int,
)
    requires
        dist.len() == n,
        parent.len() == n,
        parent_dist_consistent(m, dist, parent, n),
        1 <= c.len(),
        forall|i: int| 0 <= i < c.len() ==> (#[trigger] c[i]) < n,
        cycle_linked(parent, c),
        0 <= k <= c.len(),
    ensures
        dist[c[0] as int] is Some,
        cycle_weight_prefix(m, c, k) matches Some(s) && s + dist[c[0] as int]->Some_0 <= dist[c[
            if k == c.len() {
                0int
            } else {
                k
            }
        ] as int]->Some_0,
    decreases k,
{
    assert(parent[c[(c.len() - 1 + 1) % (c.len() as int)] as int] == Some(c[c.len() - 1]));
    lemma_mod_self_0(c.len() as int);
    assert(dist[c[0] as int] is Some);
    if k > 0 {
        lemma_parent_cycle_prefix_upper_bound(m, dist, parent, c, n, k - 1);
        let tgt = if k == c.len() {
            0int
        } else {
            k
        };
        if k == c.len() {
            lemma_mod_self_0(c.len() as int);
        } else {
            lemma_small_mod(k as nat, c.len() as nat);
        }
        assert(parent[c[(k - 1 + 1) % (c.len() as int)] as int] == Some(c[k - 1]));
        assert(parent[c[tgt] as int] == Some(c[k - 1]));
    }
}

/// Any cycle closed through the parent pointers of a relaxed state
/// has non-positive total weight: each parent edge was the best known
/// way into its child, so going around gains nothing.
pub proof fn lemma_parent_cycle_nonpositive(
    m: GraphModel,
    dist: Seq<Option<i128>>,
    parent: Seq<Option<usize>>,
    c: Seq<usize>,
    n: int,
)
    requires
        dist.len() == n,
        parent.len() == n,
        parent_dist_consistent(m, dist, parent, n),
        1 <= c.len(),
        forall|i: int| 0 <= i < c.len() ==> (#[trigger] c[i]) < n,
        cycle_linked(parent, c),
    ensures
        cycle_weight(m, c) matches Some(s) && s <= 0,
{
    lemma_parent_cycle_prefix_upper_bound(m, dist, parent, c, n, c.len() as int);
}

/// One Bellman-Ford pass from `source`: relax, look for an edge that
/// still improves, and if one exists walk the parent pointers back to
/// a cycle. Cycles shorter than three nodes are discarded. A returned
/// cycle is closed, duplicate-free, built from live edges and never of
/// positive weight; when the improvable-edge search comes up empty,
/// `lemma_no_improvable_no_negative_cycle` certifies that no negative
/// cycle through this source exists. A source whose parent walk runs
/// back to an unimproved node yields nothing, so an empty answer is
/// not itself a certificate; the emission gate re-checks every
/// candidate's weight exactly.
pub fn bellman_ford_negative_cycle(graph: &PriceGraph, n: usize, source: usize) -> (r: Option<
    Vec<usize>,
>)
    requires
        graph.wf(),
        n <= graph@.edges.len(),
        source < n,
    ensures
        r matches Some(c) ==> {
            &&& 3 <= c@.len() <= n
            &&& forall|i: int| 0 <= i < c@.len() ==> (#[trigger] c@[i]) < n
            &&& c@.no_duplicates()
            &&& cycle_edges_live(graph@, c@)
            &&& (cycle_weight(graph@, c@) matches Some(s) && s <= 0)
        },
{
    let (dist, parent) = relax_all(graph, n, source);
    match find_improvable(graph, n, &dist) {
        None => None,
        Some((_u, v)) => {
            proof {
                assert forall|i: int|
                    0 <= i < parent@.len() implies ((#[trigger] parent@[i]) matches Some(p)
                    ==> p < parent@.len()) by {}
            }
            let ghost parent_view = parent@;
            match reconstruct_cycle(parent, v) {
                None => None,
                Some(c) => {
                    if c.len() >= 3 {
                        proof {
                            assert forall|i: int|
                                0 <= i < c@.len() implies graph@.edges[(
                            #[trigger] c@[i]) as int][c@[(i + 1) % (c@.len() as int)] as int].weight
                                is Some by {
                                let nx = (i + 1) % (c@.len() as int);
                                assert(0 <= nx < c@.len());
                                assert(parent_view[c@[nx] as int] == Some(c@[i]));
                            }
                            lemma_parent_cycle_nonpositive(
                                graph@,
                                dist@,
                                parent_view,
                                c@,
                                n as int,
                            );
                        }
                        Some(c)
                    } else {
                        None
                    }
                },
            }
        },
    }
}

/// The emission gate in log-rate nano units; negatives clamp to zero,
/// so a cycle must in any case multiply capital by more than one.
pub open spec fn effective_threshold(cfg: &Config) -> int {
    if cfg.min_profit_threshold >= 0 {
        cfg.min_profit_threshold as int
    } else {
        0
    }
}

/// All the cycle's nodes sit on one venue.
pub open spec fn same_venue_cycle(m: GraphModel, c: Seq<usize>) -> bool {
    forall|i: int| 0 <= i < c.len() ==> m.venues[(#[trigger] c[i]) as int] == m.venues[c[0] as int]
}

/// Which cycle shapes the configuration admits: single-venue cycles
/// ride on the triangle switch, venue-crossing ones on the
/// cross-exchange switch.
pub open spec fn shape_allowed(cfg: &Config, m: GraphModel, c: Seq<usize>) -> bool {
    if same_venue_cycle(m, c) {
        cfg.enable_triangle_arbitrage
    } else {
        cfg.enable_cross_exchange
    }
}

/// The advisory volume of an opportunity: the base cap clamped by the
/// configured position size.
pub open spec fn volume_clamp(cfg: &Config) -> int {
    let mps = if cfg.max_position_size >= 0 {
        cfg.max_position_size as int
    } else {
        0
    };
    if mps < BASE_MAX_VOLUME_NANO as int {
        mps
    } else {
        BASE_MAX_VOLUME_NANO as int
    }
}

/// A cycle is emitted when it has at least three nodes, a live
/// negative weight sum beating the threshold, and an admitted shape.
pub open spec fn emitted(cfg: &Config, m: GraphModel, c: Seq<usize>) -> bool {
    &&& c.len() >= 3
    &&& (cycle_weight(m, c) matches Some(s) && -s > effective_threshold(cfg))
    &&& shape_allowed(cfg, m, c)
}

/// Converts a detected cycle into an opportunity record, or drops it
/// when its profit stays below the threshold or its shape is switched
/// off.
pub fn cycle_to_opportunity(
    graph: &PriceGraph,
    cycle: Vec<usize>,
    cfg: &Config,
    now: u64,
) -> (r: Option<ArbitrageOpportunity>)
    requires
        graph.wf(),
        cycle@.len() <= graph@.edges.len(),
        forall|i: int| 0 <= i < cycle@.len() ==> (#[trigger] cycle@[i]) < graph@.names.len(),
    ensures
        r is Some <==> emitted(cfg, graph@, cycle@),
        r matches Some(o) ==> {
            &&& o@.cycle == cycle@
            &&& cycle_weight(graph@, cycle@) == Some(-(o@.profit_log_nano))
            &&& o@.profit_log_nano > effective_threshold(cfg)
            &&& o@.detected_at == now
            &&& o@.max_volume_nano == volume_clamp(cfg)
            &&& o@.confidence == spec_confidence(o@.profit_log_nano, cycle@.len() as int)
            &&& o@.path.len() == cycle@.len()
            &&& forall|i: int|
                0 <= i < cycle@.len() ==> o@.path[i] == graph@.names[(#[trigger] cycle@[i]) as int]
            &&& o@.exchanges.len() == cycle@.len()
            &&& forall|i: int|
                0 <= i < cycle@.len() ==> o@.exchanges[i] == graph@.venues[(
                #[trigger] cycle@[i]) as int]
        },
{
    let ghost m = graph@;
    let len = cycle.len();
    if len < 3 {
        return None;
    }
    let sum = match cycle_log_sum(graph, &cycle) {
        Some(s) => s,
        None => {
            return None;
        },
    };
    let profit: i64 = -sum;
    let threshold: i64 = if cfg.min_profit_threshold >= 0 {
        cfg.min_profit_threshold
    } else {
        0
    };
    if profit <= threshold {
        return None;
    }
    // classify the cycle's shape by its venues
    let venue0 = graph.venue_at(cycle[0]);
    let mut same = true;
    let mut i: usize = 0;
    while i < len
        invariant
            graph.wf(),
            m == graph@,
            len == cycle@.len(),
            forall|j: int| 0 <= j < cycle@.len() ==> (#[trigger] cycle@[j]) < m.names.len(),
            venue0@ == m.venues[cycle@[0] as int],
            0 <= i <= len,
            same <==> forall|j: int|
                0 <= j < i ==> m.venues[(#[trigger] cycle@[j]) as int] == m.venues[cycle@[0] as int],
        decreases len - i,
    {
        let vi = graph.venue_at(cycle[i]);
        if !(vi == venue0) {
            same = false;
        }
        i = i + 1;
    }
    let allowed = if same {
        cfg.enable_triangle_arbitrage
    } else {
        cfg.enable_cross_exchange
    };
    if !allowed {
        return None;
    }
    // assemble the record
    let mut path: Vec<String> = Vec::new();
    let mut exchanges: Vec<String> = Vec::new();
    let mut k: usize = 0;
    while k < len
        invariant
            graph.wf(),
            m == graph@,
            len == cycle@.len(),
            forall|j: int| 0 <= j < cycle@.len() ==> (#[trigger] cycle@[j]) < m.names.len(),
            0 <= k <= len,
            path@.len() == k,
            exchanges@.len() == k,
            forall|j: int| 0 <= j < k ==> (#[trigger] path@[j])@ == m.names[cycle@[j] as int],
            forall|j: int| 0 <= j < k ==> (#[trigger] exchanges@[j])@ == m.venues[cycle@[j] as int],
        decreases len - k,
    {
        path.push(graph.name_at(cycle[k]));
        exchanges.push(graph.venue_at(cycle[k]));
        k = k + 1;
    }
    let confidence = calculate_confidence(profit, len);
    let mps: i64 = if cfg.max_position_size >= 0 {
        cfg.max_position_size
    } else {
        0
    };
    let volume: i64 = if mps < BASE_MAX_VOLUME_NANO {
        mps
    } else {
        BASE_MAX_VOLUME_NANO
    };
    let o = ArbitrageOpportunity {
        path,
        cycle,
        profit_log_nano: profit,
        max_volume_nano: volume,
        confidence,
        detected_at: now,
        exchanges,
    };
    proof {
        assert forall|j: int| 0 <= j < o@.cycle.len() implies o@.path[j] == m.names[(
        #[trigger] o@.cycle[j]) as int] by {}
        assert forall|j: int| 0 <= j < o@.cycle.len() implies o@.exchanges[j] == m.venues[(
        #[trigger] o@.cycle[j]) as int] by {}
    }
    Some(o)
}

/// Compares two index lists.
fn vec_eq_usize(a: &Vec<usize>, b: &Vec<usize>) -> (r: bool)
    ensures
        r <==> a@ == b@,
{
    if a.len() != b.len() {
        proof {
            assert(a@ != b@);
        }
        return false;
    }
    let len = a.len();
    let mut i: usize = 0;
    while i < len
        invariant
            len == a@.len() == b@.len(),
            0 <= i <= len,
            forall|j: int| 0 <= j < i ==> #[trigger] a@[j] == b@[j],
        decreases len - i,
    {
        if a[i] != b[i] {
            return false;
        }
        i = i + 1;
    }
    proof {
        assert(a@ =~= b@);
    }
    true
}

/// Everything the scan promises of each record it emits.
pub open spec fn scan_record_ok(
    cfg: &Config,
    m: GraphModel,
    o: crate::opportunity::OpportunityModel,
) -> bool {
    &&& emitted(cfg, m, o.cycle)
    &&& 3 <= o.cycle.len() <= m.names.len()
    &&& forall|i: int| 0 <= i < o.cycle.len() ==> (#[trigger] o.cycle[i]) < m.names.len()
    &&& o.cycle.no_duplicates()
    &&& min_first(o.cycle)
    &&& cycle_weight(m, o.cycle) == Some(-o.profit_log_nano)
    &&& o.profit_log_nano > effective_threshold(cfg)
    &&& o.path.len() == o.cycle.len()
    &&& forall|i: int| 0 <= i < o.cycle.len() ==> o.path[i] == m.names[(#[trigger] o.cycle[i]) as int]
}

/// One detector scan: for every source node, search for a negative
/// cycle, canonicalize it, and keep the first record of each distinct
/// cycle whose profit beats the threshold. With fewer than three
/// indexed currencies nothing can be emitted.
pub fn detect_scan(graph: &PriceGraph, cfg: &Config, now: u64) -> (r: Vec<ArbitrageOpportunity>)
    requires
        graph.wf(),
    ensures
        graph@.names.len() < 3 ==> r@.len() == 0,
        forall|k: int| 0 <= k < r@.len() ==> scan_record_ok(cfg, graph@, (#[trigger] r@[k])@),
        forall|k: int| 0 <= k < r@.len() ==> (#[trigger] r@[k])@.detected_at == now,
        forall|a: int, b: int| 0 <= a < b < r@.len() ==> r@[a]@.cycle != r@[b]@.cycle,
{
    let ghost m = graph@;
    let n = graph.node_count();
    let mut result: Vec<ArbitrageOpportunity> = Vec::new();
    if n < 3 {
        return result;
    }
    let mut source: usize = 0;
    while source < n
        invariant
            graph.wf(),
            m == graph@,
            n == m.names.len(),
            n <= m.edges.len(),
            0 <= source <= n,
            forall|k: int| 0 <= k < result@.len() ==> scan_record_ok(cfg, m, (#[trigger] result@[k])@),
            forall|k: int| 0 <= k < result@.len() ==> (#[trigger] result@[k])@.detected_at == now,
            forall|a: int, b: int|
                0 <= a < b < result@.len() ==> result@[a]@.cycle != result@[b]@.cycle,
        decreases n - source,
    {
        if let Some(c) = bellman_ford_negative_cycle(graph, n, source) {
            let canon = canonical_rotation(c);
            let mut dup = false;
            let mut j: usize = 0;
            let rlen = result.len();
            while j < rlen
                invariant
                    rlen == result@.len(),
                    0 <= j <= rlen,
                    canon@.len() >= 3,
                    dup <==> exists|q: int| 0 <= q < j && (#[trigger] result@[q])@.cycle == canon@,
                decreases rlen - j,
            {
                if vec_eq_usize(&result[j].cycle, &canon) {
                    dup = true;
                }
                j = j + 1;
            }
            if !dup {
                if let Some(o) = cycle_to_opportunity(graph, canon, cfg, now) {
                    result.push(o);
                }
            }
        }
        source = source + 1;
    }
    result
}

} // verus!
