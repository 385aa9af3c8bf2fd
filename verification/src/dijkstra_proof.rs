use vstd::prelude::*;
use crate::apsp::{INFINITY, NO_PRED_NODE};
use crate::paths::{
    edge_weight, is_path, is_pred, is_route, is_shortest, lemma_edge_weight_bounds, lemma_path_prefix,
    lemma_path_push, lemma_trivial_route, lemma_weight_nonneg, path_weight,
};

verus! {

/// `adj[u]` lists, as (neighbor, weight) pairs, exactly the edges out of `u`.
pub open spec fn adjacency_ok(c: Map<(int, int), u16>, n: int, adj: Seq<Vec<(u16, u16)>>) -> bool {
    &&& adj.len() == n
    &&& forall|u: int, t: int|
        0 <= u < n && 0 <= t < adj[u]@.len() ==> {
            let e = #[trigger] adj[u]@[t];
            &&& 0 <= e.0 < n
            &&& e.1 as int == edge_weight(c, u, e.0 as int)
            &&& 0 < e.1 < INFINITY
        }
    &&& forall|u: int, v: int|
        0 <= u < n && 0 <= v < n && u != v && #[trigger] edge_weight(c, u, v) < INFINITY ==> exists|t: int|
            0 <= t < adj[u]@.len() && (#[trigger] adj[u]@[t]).0 == v
}

/// Every finite tentative distance is the weight of a walk from `s`.
#[verifier::opaque]
pub open spec fn reach_ok(c: Map<(int, int), u16>, n: int, s: int, dist: Seq<u16>) -> bool {
    forall|v: int|
        0 <= v < n && #[trigger] dist[v] < INFINITY ==> exists|p: Seq<int>|
            #[trigger] is_route(c, n, p, s, v) && path_weight(c, p) == dist[v] as int
}

/// Settled vertices have their final, shortest, distance.
#[verifier::opaque]
pub open spec fn settled_ok(c: Map<(int, int), u16>, n: int, s: int, dist: Seq<u16>, settled: Set<int>) -> bool {
    forall|u: int|
        #[trigger] settled.contains(u) ==> {
            &&& 0 <= u < n
            &&& dist[u] < INFINITY
            &&& forall|p: Seq<int>| #[trigger] is_route(c, n, p, s, u) ==> path_weight(c, p) >= dist[u] as int
        }
}

/// The edges out of settled vertices are relaxed.
#[verifier::opaque]
pub open spec fn relaxed_ok(c: Map<(int, int), u16>, n: int, dist: Seq<u16>, settled: Set<int>) -> bool {
    forall|u: int, v: int|
        #[trigger] settled.contains(u) && 0 <= v < n ==> #[trigger] dist[v] as int <= dist[u] as int + edge_weight(
            c,
            u,
            v,
        )
}

/// The predecessor entry of `v`: none for `s` and unreached vertices, else
/// the settled vertex whose edge gave `v` its tentative distance.
pub open spec fn pred_entry_ok(
    c: Map<(int, int), u16>,
    s: int,
    dist: Seq<u16>,
    pred: Seq<u16>,
    settled: Set<int>,
    v: int,
) -> bool {
    if v == s || dist[v] == INFINITY {
        pred[v] == NO_PRED_NODE
    } else {
        let u = pred[v] as int;
        &&& settled.contains(u)
        &&& u != v
        &&& edge_weight(c, u, v) < INFINITY
        &&& dist[u] as int + edge_weight(c, u, v) == dist[v] as int
    }
}

#[verifier::opaque]
pub open spec fn pred_ok(
    c: Map<(int, int), u16>,
    n: int,
    s: int,
    dist: Seq<u16>,
    pred: Seq<u16>,
    settled: Set<int>,
) -> bool {
    forall|v: int| 0 <= v < n ==> #[trigger] pred_entry_ok(c, s, dist, pred, settled, v)
}

/// The state that Dijkstra's and Dial's single-source loops keep, apart from
/// what their queues hold.
pub open spec fn sssp_inv(
    c: Map<(int, int), u16>,
    n: int,
    s: int,
    dist: Seq<u16>,
    pred: Seq<u16>,
    settled: Set<int>,
) -> bool {
    &&& 0 <= s < n
    &&& n <= NO_PRED_NODE
    &&& dist.len() == n
    &&& pred.len() == n
    &&& dist[s] == 0
    &&& forall|u: int| #[trigger] settled.contains(u) ==> 0 <= u < n
    &&& reach_ok(c, n, s, dist)
    &&& settled_ok(c, n, s, dist, settled)
    &&& relaxed_ok(c, n, dist, settled)
    &&& pred_ok(c, n, s, dist, pred, settled)
}

/// The sum of the tentative distances, which only ever decrease.
pub open spec fn total(dist: Seq<u16>) -> int
    decreases dist.len(),
{
    if dist.len() == 0 {
        0
    } else {
        total(dist.drop_last()) + dist.last() as int
    }
}

pub proof fn lemma_total_update(dist: Seq<u16>, i: int, x: u16)
    requires
        0 <= i < dist.len(),
    ensures
        total(dist.update(i, x)) == total(dist) - dist[i] as int + x as int,
        total(dist) >= 0,
    decreases dist.len(),
{
    if i == dist.len() - 1 {
        assert(dist.update(i, x).drop_last() =~= dist.drop_last());
        lemma_total_nonneg(dist.drop_last());
    } else {
        lemma_total_update(dist.drop_last(), i, x);
        assert(dist.update(i, x).drop_last() =~= dist.drop_last().update(i, x));
    }
}

pub proof fn lemma_total_nonneg(dist: Seq<u16>)
    ensures
        total(dist) >= 0,
    decreases dist.len(),
{
    if dist.len() > 0 {
        lemma_total_nonneg(dist.drop_last());
    }
}

/// The starting state: only `s` is reached, at distance zero, nothing settled.
pub proof fn lemma_sssp_init(c: Map<(int, int), u16>, n: int, s: int, dist: Seq<u16>, pred: Seq<u16>)
    requires
        0 <= s < n,
        n <= NO_PRED_NODE,
        dist.len() == n,
        pred.len() == n,
        forall|v: int| 0 <= v < n ==> #[trigger] dist[v] == if v == s { 0 } else { INFINITY },
        forall|v: int| 0 <= v < n ==> #[trigger] pred[v] == NO_PRED_NODE,
    ensures
        sssp_inv(c, n, s, dist, pred, Set::empty()),
{
    assert(dist[s] == 0);
    reveal(settled_ok);
    reveal(reach_ok);
    reveal(relaxed_ok);
    reveal(pred_ok);
    assert forall|v: int| 0 <= v < n && #[trigger] dist[v] < INFINITY implies exists|p: Seq<int>|
        #[trigger] is_route(c, n, p, s, v) && path_weight(c, p) == dist[v] as int by {
        lemma_trivial_route(c, n, s);
        assert(is_route(c, n, seq![s], s, v));
    }
    assert forall|v: int| 0 <= v < n implies #[trigger] pred_entry_ok(c, s, dist, pred, Set::empty(), v) by {
    }
}

/// Along a walk from `s`, either every vertex is settled, or some unsettled
/// vertex has a tentative distance no greater than the walk's weight.
pub proof fn lemma_first_unsettled(
    c: Map<(int, int), u16>,
    n: int,
    s: int,
    dist: Seq<u16>,
    settled: Set<int>,
    p: Seq<int>,
)
    requires
        dist.len() == n,
        0 <= s < n,
        dist[s] == 0,
        settled_ok(c, n, s, dist, settled),
        relaxed_ok(c, n, dist, settled),
        is_path(c, n, p),
        p[0] == s,
    ensures
        (forall|t: int| 0 <= t < p.len() ==> settled.contains(#[trigger] p[t])) || exists|t: int|
            0 <= t < p.len() && !settled.contains(#[trigger] p[t]) && dist[p[t]] as int <= path_weight(c, p),
    decreases p.len(),
{
    reveal(settled_ok);
    reveal(relaxed_ok);
    crate::paths::lemma_path_vertices(c, n, p);
    lemma_weight_nonneg(c, p);
    if p.len() == 1 {
        if !settled.contains(p[0]) {
            assert(dist[p[0]] as int <= path_weight(c, p));
        }
    } else {
        let q = p.drop_last();
        lemma_first_unsettled(c, n, s, dist, settled, q);
        lemma_path_prefix(c, n, p, p.len() - 1);
        assert(p.take(p.len() - 1) =~= q);
        if exists|t: int| 0 <= t < q.len() && !settled.contains(#[trigger] q[t]) && dist[q[t]] as int <= path_weight(c, q) {
            let t = choose|t: int| 0 <= t < q.len() && !settled.contains(#[trigger] q[t]) && dist[q[t]] as int <= path_weight(c, q);
            assert(p[t] == q[t]);
        } else {
            assert(forall|t: int| 0 <= t < q.len() ==> settled.contains(#[trigger] q[t]));
            let y = p.last();
            if !settled.contains(y) {
                let x = q.last();
                assert(q[q.len() - 1] == x);
                assert(settled.contains(x));
                assert(is_route(c, n, q, s, x));
                assert(path_weight(c, q) >= dist[x] as int);
                assert(dist[y] as int <= dist[x] as int + edge_weight(c, x, y));
                assert(p[p.len() - 1] == y);
            } else {
                assert forall|t: int| 0 <= t < p.len() implies settled.contains(#[trigger] p[t]) by {
                    if t < p.len() - 1 {
                        assert(p[t] == q[t]);
                    }
                }
            }
        }
    }
}

/// A vertex popped at its tentative distance, while no unsettled reached
/// vertex has a smaller one, has its shortest distance.
pub proof fn lemma_pop_final(
    c: Map<(int, int), u16>,
    n: int,
    s: int,
    dist: Seq<u16>,
    pred: Seq<u16>,
    settled: Set<int>,
    u: int,
)
    requires
        sssp_inv(c, n, s, dist, pred, settled),
        0 <= u < n,
        dist[u] < INFINITY,
        forall|v: int|
            0 <= v < n && !settled.contains(v) && #[trigger] dist[v] < INFINITY ==> dist[u] <= dist[v],
    ensures
        forall|p: Seq<int>| #[trigger] is_route(c, n, p, s, u) ==> path_weight(c, p) >= dist[u] as int,
{
    reveal(settled_ok);
    assert forall|p: Seq<int>| #[trigger] is_route(c, n, p, s, u) implies path_weight(c, p) >= dist[u] as int by {
        lemma_first_unsettled(c, n, s, dist, settled, p);
        crate::paths::lemma_path_vertices(c, n, p);
        if forall|t: int| 0 <= t < p.len() ==> settled.contains(#[trigger] p[t]) {
            assert(settled.contains(p[p.len() - 1]));
        } else {
            let t = choose|t: int| 0 <= t < p.len() && !settled.contains(#[trigger] p[t]) && dist[p[t]] as int <= path_weight(c, p);
            let y = p[t];
            if dist[y] < INFINITY {
                assert(dist[u] <= dist[y]);
            }
        }
    }
}

/// Once every reached vertex is settled, the distances are shortest and the
/// predecessors lie on shortest walks.
pub proof fn lemma_sssp_done(
    c: Map<(int, int), u16>,
    n: int,
    s: int,
    dist: Seq<u16>,
    pred: Seq<u16>,
    settled: Set<int>,
)
    requires
        sssp_inv(c, n, s, dist, pred, settled),
        forall|v: int| 0 <= v < n && #[trigger] dist[v] < INFINITY ==> settled.contains(v),
    ensures
        forall|v: int| 0 <= v < n ==> is_shortest(c, n, s, v, #[trigger] dist[v] as int),
        forall|v: int| 0 <= v < n ==> is_pred(c, n, s, v, |x: int| dist[x] as int, #[trigger] pred[v] as int),
{
    reveal(settled_ok);
    reveal(reach_ok);
    reveal(pred_ok);
    assert forall|v: int| 0 <= v < n implies is_shortest(c, n, s, v, #[trigger] dist[v] as int) by {
        if !settled.contains(v) {
            assert forall|p: Seq<int>| #[trigger] is_route(c, n, p, s, v) implies path_weight(c, p) >= dist[v] as int by {
                lemma_first_unsettled(c, n, s, dist, settled, p);
                crate::paths::lemma_path_vertices(c, n, p);
                if forall|t: int| 0 <= t < p.len() ==> settled.contains(#[trigger] p[t]) {
                    assert(settled.contains(p[p.len() - 1]));
                } else {
                    let t = choose|t: int| 0 <= t < p.len() && !settled.contains(#[trigger] p[t]) && dist[p[t]] as int <= path_weight(c, p);
                    assert(dist[p[t]] == INFINITY);
                }
            }
        }
    }
    assert forall|v: int| 0 <= v < n implies is_pred(c, n, s, v, |x: int| dist[x] as int, #[trigger] pred[v] as int) by {
        assert(pred_entry_ok(c, s, dist, pred, settled, v));
    }
}

/// What holds while the edges out of the just settled `u` are relaxed: the
/// invariant, except that only the other settled vertices have all their
/// edges relaxed.
pub open spec fn relaxing_inv(
    c: Map<(int, int), u16>,
    n: int,
    s: int,
    dist: Seq<u16>,
    pred: Seq<u16>,
    settled: Set<int>,
    u: int,
) -> bool {
    &&& 0 <= s < n
    &&& n <= NO_PRED_NODE
    &&& dist.len() == n
    &&& pred.len() == n
    &&& dist[s] == 0
    &&& forall|x: int| #[trigger] settled.contains(x) ==> 0 <= x < n
    &&& settled.contains(u)
    &&& reach_ok(c, n, s, dist)
    &&& settled_ok(c, n, s, dist, settled)
    &&& relaxed_ok(c, n, dist, settled.remove(u))
    &&& pred_ok(c, n, s, dist, pred, settled)
}

/// Settling a vertex popped at its shortest distance starts its relaxation.
pub proof fn lemma_settle(
    c: Map<(int, int), u16>,
    n: int,
    s: int,
    dist: Seq<u16>,
    pred: Seq<u16>,
    settled: Set<int>,
    u: int,
)
    requires
        sssp_inv(c, n, s, dist, pred, settled),
        0 <= u < n,
        dist[u] < INFINITY,
        forall|p: Seq<int>| #[trigger] is_route(c, n, p, s, u) ==> path_weight(c, p) >= dist[u] as int,
    ensures
        relaxing_inv(c, n, s, dist, pred, settled.insert(u), u),
{
    let st = settled.insert(u);
    reveal(settled_ok);
    reveal(relaxed_ok);
    reveal(pred_ok);
    assert(settled_ok(c, n, s, dist, st));
    assert(relaxed_ok(c, n, dist, st.remove(u))) by {
        assert forall|x: int, y: int| #[trigger] st.remove(u).contains(x) && 0 <= y < n implies #[trigger] dist[y] as int
            <= dist[x] as int + edge_weight(c, x, y) by {
            assert(settled.contains(x));
        }
    }
    assert(pred_ok(c, n, s, dist, pred, st)) by {
        assert forall|v: int| 0 <= v < n implies #[trigger] pred_entry_ok(c, s, dist, pred, st, v) by {
            assert(pred_entry_ok(c, s, dist, pred, settled, v));
        }
    }
}

/// Once every edge out of `u` is relaxed, the invariant holds again.
pub proof fn lemma_settle_done(
    c: Map<(int, int), u16>,
    n: int,
    s: int,
    dist: Seq<u16>,
    pred: Seq<u16>,
    settled: Set<int>,
    u: int,
)
    requires
        relaxing_inv(c, n, s, dist, pred, settled, u),
        forall|v: int|
            0 <= v < n && v != u && edge_weight(c, u, v) < INFINITY ==> #[trigger] dist[v] as int <= dist[u] as int
                + edge_weight(c, u, v),
    ensures
        sssp_inv(c, n, s, dist, pred, settled),
{
    reveal(relaxed_ok);
    assert forall|x: int, y: int| #[trigger] settled.contains(x) && 0 <= y < n implies #[trigger] dist[y] as int
        <= dist[x] as int + edge_weight(c, x, y) by {
        lemma_edge_weight_bounds(c, x, y);
        if x != u {
            assert(settled.remove(u).contains(x));
        } else if y != u && edge_weight(c, u, y) < INFINITY {
        }
    }
}

/// Relaxing the edge from the settled `u` to `v` down to `alt` keeps the
/// relaxation invariant; `v` is neither settled nor the source.
pub proof fn lemma_relax(
    c: Map<(int, int), u16>,
    n: int,
    s: int,
    dist: Seq<u16>,
    pred: Seq<u16>,
    settled: Set<int>,
    u: int,
    v: int,
    alt: u16,
)
    requires
        relaxing_inv(c, n, s, dist, pred, settled, u),
        0 <= v < n,
        u != v,
        edge_weight(c, u, v) < INFINITY,
        alt as int == dist[u] as int + edge_weight(c, u, v),
        alt < dist[v],
    ensures
        !settled.contains(v),
        v != s,
        relaxing_inv(c, n, s, dist.update(v, alt), pred.update(v, u as u16), settled, u),
{
    reveal(settled_ok);
    let r = lemma_reach_of(c, n, s, dist, u);
    lemma_path_push(c, n, r, v);
    assert(is_route(c, n, r.push(v), s, v));
    if settled.contains(v) {
        assert(path_weight(c, r.push(v)) >= dist[v] as int);
    }
    lemma_relax_reach(c, n, s, dist, v, alt, r.push(v));
    lemma_relax_settled(c, n, s, dist, settled, v, alt);
    lemma_relax_relaxed(c, n, dist, settled.remove(u), v, alt);
    lemma_relax_pred(c, n, s, dist, pred, settled, u, v, alt);
}

/// A walk witnessing a finite tentative distance.
pub proof fn lemma_reach_of(c: Map<(int, int), u16>, n: int, s: int, dist: Seq<u16>, u: int) -> (r: Seq<int>)
    requires
        reach_ok(c, n, s, dist),
        0 <= u < n,
        dist[u] < INFINITY,
    ensures
        is_route(c, n, r, s, u),
        path_weight(c, r) == dist[u] as int,
{
    reveal(reach_ok);
    choose|p: Seq<int>| #[trigger] is_route(c, n, p, s, u) && path_weight(c, p) == dist[u] as int
}

proof fn lemma_relax_reach(c: Map<(int, int), u16>, n: int, s: int, dist: Seq<u16>, v: int, alt: u16, r: Seq<int>)
    requires
        reach_ok(c, n, s, dist),
        dist.len() == n,
        0 <= v < dist.len(),
        is_route(c, n, r, s, v),
        path_weight(c, r) == alt as int,
    ensures
        reach_ok(c, n, s, dist.update(v, alt)),
{
    reveal(reach_ok);
    let d2 = dist.update(v, alt);
    assert forall|x: int| 0 <= x < n && #[trigger] d2[x] < INFINITY implies exists|p: Seq<int>|
        #[trigger] is_route(c, n, p, s, x) && path_weight(c, p) == d2[x] as int by {
        if x == v {
            assert(is_route(c, n, r, s, x));
        } else {
            assert(d2[x] == dist[x]);
        }
    }
}

proof fn lemma_relax_settled(c: Map<(int, int), u16>, n: int, s: int, dist: Seq<u16>, st: Set<int>, v: int, alt: u16)
    requires
        settled_ok(c, n, s, dist, st),
        !st.contains(v),
        dist.len() == n,
        0 <= v < dist.len(),
    ensures
        settled_ok(c, n, s, dist.update(v, alt), st),
{
    reveal(settled_ok);
    let d2 = dist.update(v, alt);
    assert forall|x: int| #[trigger] st.contains(x) implies {
        &&& 0 <= x < n
        &&& d2[x] < INFINITY
        &&& forall|p: Seq<int>| #[trigger] is_route(c, n, p, s, x) ==> path_weight(c, p) >= d2[x] as int
    } by {
        assert(x != v);
        assert(d2[x] == dist[x]);
    }
}

proof fn lemma_relax_relaxed(c: Map<(int, int), u16>, n: int, dist: Seq<u16>, st: Set<int>, v: int, alt: u16)
    requires
        relaxed_ok(c, n, dist, st),
        !st.contains(v),
        dist.len() == n,
        forall|x: int| #[trigger] st.contains(x) ==> 0 <= x < n,
        0 <= v < dist.len(),
        alt < dist[v],
    ensures
        relaxed_ok(c, n, dist.update(v, alt), st),
{
    reveal(relaxed_ok);
    let d2 = dist.update(v, alt);
    assert forall|x: int, y: int| #[trigger] st.contains(x) && 0 <= y < n implies #[trigger] d2[y] as int <= d2[x] as int
        + edge_weight(c, x, y) by {
        assert(dist[y] as int <= dist[x] as int + edge_weight(c, x, y));
        assert(x != v);
    }
}

proof fn lemma_relax_pred(
    c: Map<(int, int), u16>,
    n: int,
    s: int,
    dist: Seq<u16>,
    pred: Seq<u16>,
    settled: Set<int>,
    u: int,
    v: int,
    alt: u16,
)
    requires
        pred_ok(c, n, s, dist, pred, settled),
        n <= NO_PRED_NODE,
        forall|x: int| #[trigger] settled.contains(x) ==> 0 <= x < n,
        dist.len() == n,
        pred.len() == n,
        settled.contains(u),
        !settled.contains(v),
        0 <= u < n,
        0 <= v < n,
        u != v,
        v != s,
        alt < INFINITY,
        edge_weight(c, u, v) < INFINITY,
        alt as int == dist[u] as int + edge_weight(c, u, v),
    ensures
        pred_ok(c, n, s, dist.update(v, alt), pred.update(v, u as u16), settled),
{
    reveal(pred_ok);
    let d2 = dist.update(v, alt);
    let p2 = pred.update(v, u as u16);
    assert forall|x: int| 0 <= x < n implies #[trigger] pred_entry_ok(c, s, d2, p2, settled, x) by {
        assert(pred_entry_ok(c, s, dist, pred, settled, x));
        if x == v {
            assert(d2[u] == dist[u]);
        } else {
            assert(d2[x] == dist[x]);
            assert(p2[x] == pred[x]);
            if !(x == s || dist[x] == INFINITY) {
                assert(pred[x] as int != v);
                assert(d2[pred[x] as int] == dist[pred[x] as int]);
            }
        }
    }
}

}
