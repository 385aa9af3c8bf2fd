use vstd::prelude::*;
use crate::apsp::{INFINITY, NO_PRED_NODE};

verus! {

/// A zero entry, like an `INFINITY` entry, means "no direct jump".
pub open spec fn jump_entry(v: u16) -> int {
    if v == 0 { INFINITY as int } else { v as int }
}

/// The weight of the undirected edge between `a` and `b` that a distance
/// matrix `c` describes: movement is bidirectional, so the cheaper of the two
/// directed entries counts, and a world is at distance zero from itself.
/// `INFINITY` means there is no edge.
pub open spec fn edge_weight(c: Map<(int, int), u16>, a: int, b: int) -> int {
    if a == b {
        0
    } else if jump_entry(c[(a, b)]) <= jump_entry(c[(b, a)]) {
        jump_entry(c[(a, b)])
    } else {
        jump_entry(c[(b, a)])
    }
}

/// `p` is a walk over vertices `0..n` that only uses existing edges.
pub open spec fn is_path(c: Map<(int, int), u16>, n: int, p: Seq<int>) -> bool
    decreases p.len(),
{
    if p.len() == 0 {
        false
    } else if p.len() == 1 {
        0 <= p[0] < n
    } else {
        &&& is_path(c, n, p.drop_last())
        &&& 0 <= p.last() < n
        &&& edge_weight(c, p[p.len() - 2], p.last()) < INFINITY
    }
}

/// The summed edge weights along `p`.
pub open spec fn path_weight(c: Map<(int, int), u16>, p: Seq<int>) -> int
    decreases p.len(),
{
    if p.len() <= 1 {
        0
    } else {
        path_weight(c, p.drop_last()) + edge_weight(c, p[p.len() - 2], p.last())
    }
}

/// `p` is a walk from `i` to `j`.
pub open spec fn is_route(c: Map<(int, int), u16>, n: int, p: Seq<int>, i: int, j: int) -> bool {
    is_path(c, n, p) && p[0] == i && p.last() == j
}

/// `d` is the length of a shortest walk from `i` to `j`, where `INFINITY`
/// stands for "unreachable, or no shorter than `INFINITY`".
pub open spec fn is_shortest(c: Map<(int, int), u16>, n: int, i: int, j: int, d: int) -> bool {
    &&& 0 <= d <= INFINITY
    &&& d < INFINITY ==> exists|p: Seq<int>| #[trigger] is_route(c, n, p, i, j) && path_weight(c, p) == d
    &&& forall|p: Seq<int>| #[trigger] is_route(c, n, p, i, j) ==> path_weight(c, p) >= d
}

/// `pr` is a correct predecessor of `j` on a shortest walk from `i`, given the
/// shortest distances `dist_i` from `i`: none for `i` itself and for
/// unreachable vertices, else the vertex before `j` on such a walk.
pub open spec fn is_pred(c: Map<(int, int), u16>, n: int, i: int, j: int, dist_i: spec_fn(int) -> int, pr: int) -> bool {
    if i == j || dist_i(j) == INFINITY {
        pr == NO_PRED_NODE
    } else {
        &&& 0 <= pr < n
        &&& pr != j
        &&& edge_weight(c, pr, j) < INFINITY
        &&& dist_i(pr) + edge_weight(c, pr, j) == dist_i(j)
    }
}

/// `dist` holds the shortest distances from `s` to each vertex of `0..n`,
/// and `pred` a predecessor of each on a shortest walk from `s`.
pub open spec fn single_source_shortest(c: Map<(int, int), u16>, n: int, s: int, dist: Seq<u16>, pred: Seq<u16>) -> bool {
    &&& dist.len() == n
    &&& pred.len() == n
    &&& forall|v: int| 0 <= v < n ==> is_shortest(c, n, s, v, #[trigger] dist[v] as int)
    &&& forall|v: int| 0 <= v < n ==> is_pred(c, n, s, v, |x: int| dist[x] as int, #[trigger] pred[v] as int)
}

/// All cells of `d` in `0..n x 0..n` hold shortest distances, and all cells of
/// `pred` hold predecessors on shortest walks.
pub open spec fn all_pairs_shortest(
    c: Map<(int, int), u16>,
    n: int,
    d: Map<(int, int), u16>,
    pred: Map<(int, int), u16>,
) -> bool {
    &&& forall|i: int, j: int| 0 <= i < n && 0 <= j < n ==> is_shortest(c, n, i, j, #[trigger] d[(i, j)] as int)
    &&& forall|i: int, j: int|
        0 <= i < n && 0 <= j < n ==> is_pred(c, n, i, j, |x: int| d[(i, x)] as int, #[trigger] pred[(i, j)] as int)
}

pub proof fn lemma_edge_weight_bounds(c: Map<(int, int), u16>, a: int, b: int)
    ensures
        0 <= edge_weight(c, a, b) <= INFINITY,
        a != b ==> edge_weight(c, a, b) > 0,
        edge_weight(c, a, b) == edge_weight(c, b, a),
{
}

pub proof fn lemma_weight_nonneg(c: Map<(int, int), u16>, p: Seq<int>)
    ensures
        path_weight(c, p) >= 0,
    decreases p.len(),
{
    if p.len() > 1 {
        lemma_weight_nonneg(c, p.drop_last());
        lemma_edge_weight_bounds(c, p[p.len() - 2], p.last());
    }
}

/// Appending a vertex reachable by an edge extends a walk by that edge.
pub proof fn lemma_path_push(c: Map<(int, int), u16>, n: int, p: Seq<int>, v: int)
    requires
        is_path(c, n, p),
        0 <= v < n,
        edge_weight(c, p.last(), v) < INFINITY,
    ensures
        is_path(c, n, p.push(v)),
        path_weight(c, p.push(v)) == path_weight(c, p) + edge_weight(c, p.last(), v),
        p.push(v)[0] == p[0],
        p.push(v).last() == v,
{
    assert(p.push(v).drop_last() =~= p);
}

/// A walk splits at any of its vertices into a prefix and a suffix whose
/// weights add up.
pub proof fn lemma_path_split(c: Map<(int, int), u16>, n: int, p: Seq<int>, b: int)
    requires
        is_path(c, n, p),
        0 <= b < p.len(),
    ensures
        is_path(c, n, p.take(b + 1)),
        is_path(c, n, p.skip(b)),
        path_weight(c, p) == path_weight(c, p.take(b + 1)) + path_weight(c, p.skip(b)),
    decreases p.len(),
{
    if b == p.len() - 1 {
        assert(p.take(b + 1) =~= p);
        assert(p.skip(b) =~= seq![p.last()]);
    } else {
        let q = p.drop_last();
        lemma_path_split(c, n, q, b);
        assert(p.take(b + 1) =~= q.take(b + 1));
        assert(p.skip(b).drop_last() =~= q.skip(b));
        assert(p.skip(b).len() >= 2);
        assert(p.skip(b)[p.skip(b).len() - 2] == p[p.len() - 2]);
    }
}

/// Prefixes of walks are walks, and no heavier.
pub proof fn lemma_path_prefix(c: Map<(int, int), u16>, n: int, p: Seq<int>, m: int)
    requires
        is_path(c, n, p),
        1 <= m <= p.len(),
    ensures
        is_path(c, n, p.take(m)),
        path_weight(c, p.take(m)) <= path_weight(c, p),
        p.take(m)[0] == p[0],
        p.take(m).last() == p[m - 1],
{
    lemma_path_split(c, n, p, m - 1);
    lemma_weight_nonneg(c, p.skip(m - 1));
}

/// Walks that meet at a vertex join into one walk.
pub proof fn lemma_path_concat(c: Map<(int, int), u16>, n: int, p: Seq<int>, q: Seq<int>)
    requires
        is_path(c, n, p),
        is_path(c, n, q),
        p.last() == q[0],
    ensures
        is_path(c, n, p + q.skip(1)),
        path_weight(c, p + q.skip(1)) == path_weight(c, p) + path_weight(c, q),
        (p + q.skip(1))[0] == p[0],
        (p + q.skip(1)).last() == q.last(),
    decreases q.len(),
{
    if q.len() == 1 {
        assert(p + q.skip(1) =~= p);
    } else {
        let q0 = q.drop_last();
        lemma_path_concat(c, n, p, q0);
        let r0 = p + q0.skip(1);
        assert(p + q.skip(1) =~= r0.push(q.last()));
        assert(r0.last() == q0.last());
        lemma_path_push(c, n, r0, q.last());
    }
}

/// Shortest distances are unique: two values that both are the shortest
/// distance from `i` to `j` are equal.
pub proof fn lemma_shortest_unique(c: Map<(int, int), u16>, n: int, i: int, j: int, d1: int, d2: int)
    requires
        is_shortest(c, n, i, j, d1),
        is_shortest(c, n, i, j, d2),
    ensures
        d1 == d2,
{
    if d1 < INFINITY {
        let p = choose|p: Seq<int>| #[trigger] is_route(c, n, p, i, j) && path_weight(c, p) == d1;
        assert(is_route(c, n, p, i, j));
    }
    if d2 < INFINITY {
        let p = choose|p: Seq<int>| #[trigger] is_route(c, n, p, i, j) && path_weight(c, p) == d2;
        assert(is_route(c, n, p, i, j));
    }
}

/// Every vertex of a walk over `0..n` is in `0..n`.
pub proof fn lemma_path_vertices(c: Map<(int, int), u16>, n: int, p: Seq<int>)
    requires
        is_path(c, n, p),
    ensures
        forall|t: int| 0 <= t < p.len() ==> 0 <= #[trigger] p[t] < n,
    decreases p.len(),
{
    if p.len() > 1 {
        lemma_path_vertices(c, n, p.drop_last());
        assert forall|t: int| 0 <= t < p.len() implies 0 <= #[trigger] p[t] < n by {
            if t < p.len() - 1 {
                assert(p[t] == p.drop_last()[t]);
            }
        }
    }
}

/// The walk made of the single vertex `i`.
pub proof fn lemma_trivial_route(c: Map<(int, int), u16>, n: int, i: int)
    requires
        0 <= i < n,
    ensures
        is_route(c, n, seq![i], i, i),
        path_weight(c, seq![i]) == 0,
{
}

/// The walk made of the single edge from `i` to `j`.
pub proof fn lemma_edge_route(c: Map<(int, int), u16>, n: int, i: int, j: int)
    requires
        0 <= i < n,
        0 <= j < n,
        edge_weight(c, i, j) < INFINITY,
    ensures
        is_route(c, n, seq![i, j], i, j),
        path_weight(c, seq![i, j]) == edge_weight(c, i, j),
{
    lemma_path_push(c, n, seq![i], j);
    assert(seq![i].push(j) =~= seq![i, j]);
}

/// A predecessor stays correct when its row of distances is copied into a
/// matrix.
pub proof fn lemma_pred_row_copied(
    c: Map<(int, int), u16>,
    n: int,
    i: int,
    j: int,
    row: Seq<u16>,
    d: Map<(int, int), u16>,
    pr: int,
)
    requires
        0 <= j < n,
        forall|x: int| 0 <= x < n ==> #[trigger] d[(i, x)] == row[x],
        is_pred(c, n, i, j, |x: int| row[x] as int, pr),
    ensures
        is_pred(c, n, i, j, |x: int| d[(i, x)] as int, pr),
{
    assert(d[(i, j)] == row[j]);
    if !(i == j || row[j] == INFINITY) {
        assert(d[(i, pr)] == row[pr]);
    }
}

/// A predecessor stays correct when the other rows of the matrix change.
pub proof fn lemma_pred_row_kept(
    c: Map<(int, int), u16>,
    n: int,
    i: int,
    j: int,
    d0: Map<(int, int), u16>,
    d1: Map<(int, int), u16>,
    pr: int,
)
    requires
        0 <= j < n,
        forall|x: int| 0 <= x < n ==> #[trigger] d1[(i, x)] == d0[(i, x)],
        is_pred(c, n, i, j, |x: int| d0[(i, x)] as int, pr),
    ensures
        is_pred(c, n, i, j, |x: int| d1[(i, x)] as int, pr),
{
    assert(d1[(i, j)] == d0[(i, j)]);
    if !(i == j || d0[(i, j)] == INFINITY) {
        assert(d1[(i, pr)] == d0[(i, pr)]);
    }
}

/// A walk read backwards is a walk of the same weight, as every edge can be
/// crossed both ways.
pub proof fn lemma_path_reverse(c: Map<(int, int), u16>, n: int, p: Seq<int>)
    requires
        is_path(c, n, p),
    ensures
        is_path(c, n, p.reverse()),
        path_weight(c, p.reverse()) == path_weight(c, p),
        p.reverse()[0] == p.last(),
        p.reverse().last() == p[0],
    decreases p.len(),
{
    if p.len() == 1 {
        assert(p.reverse() =~= p);
    } else {
        let q = p.drop_last();
        let v = p.last();
        lemma_path_reverse(c, n, q);
        lemma_path_vertices(c, n, p);
        lemma_edge_weight_bounds(c, q.last(), v);
        assert(q.last() == p[p.len() - 2]);
        lemma_edge_route(c, n, v, q.last());
        lemma_path_concat(c, n, seq![v, q.last()], q.reverse());
        assert(seq![v, q.last()] + q.reverse().skip(1) =~= p.reverse());
    }
}

/// The distances that `floyd_warshall`, `dijkstra` and `dial` leave behind
/// are the same: any two matrices of shortest distances for one input agree
/// in every cell (predecessors may differ between shortest paths).
pub proof fn lemma_shortest_distances_agree(
    c: Map<(int, int), u16>,
    n: int,
    d1: Map<(int, int), u16>,
    pred1: Map<(int, int), u16>,
    d2: Map<(int, int), u16>,
    pred2: Map<(int, int), u16>,
)
    requires
        all_pairs_shortest(c, n, d1, pred1),
        all_pairs_shortest(c, n, d2, pred2),
    ensures
        forall|i: int, j: int| 0 <= i < n && 0 <= j < n ==> #[trigger] d1[(i, j)] == d2[(i, j)],
{
    assert forall|i: int, j: int| 0 <= i < n && 0 <= j < n implies #[trigger] d1[(i, j)] == d2[(i, j)] by {
        assert(is_shortest(c, n, i, j, d1[(i, j)] as int));
        assert(is_shortest(c, n, i, j, d2[(i, j)] as int));
        lemma_shortest_unique(c, n, i, j, d1[(i, j)] as int, d2[(i, j)] as int);
    }
}

/// Movement is bidirectional: the shortest distance from `i` to `j` is the
/// one from `j` to `i`; every world is at distance zero from itself, with no
/// predecessor.
pub proof fn lemma_shortest_symmetric(
    c: Map<(int, int), u16>,
    n: int,
    d: Map<(int, int), u16>,
    pred: Map<(int, int), u16>,
)
    requires
        all_pairs_shortest(c, n, d, pred),
    ensures
        forall|i: int, j: int| 0 <= i < n && 0 <= j < n ==> #[trigger] d[(i, j)] == d[(j, i)],
        forall|i: int| 0 <= i < n ==> #[trigger] d[(i, i)] == 0 && pred[(i, i)] == NO_PRED_NODE,
{
    assert forall|i: int, j: int| 0 <= i < n && 0 <= j < n implies #[trigger] d[(i, j)] == d[(j, i)] by {
        assert(is_shortest(c, n, i, j, d[(i, j)] as int));
        assert(is_shortest(c, n, j, i, d[(j, i)] as int));
        assert forall|p: Seq<int>| #[trigger] is_route(c, n, p, j, i) implies path_weight(c, p) >= d[(i, j)] as int by {
            lemma_path_reverse(c, n, p);
            assert(is_route(c, n, p.reverse(), i, j));
        }
        assert forall|p: Seq<int>| #[trigger] is_route(c, n, p, i, j) implies path_weight(c, p) >= d[(j, i)] as int by {
            lemma_path_reverse(c, n, p);
            assert(is_route(c, n, p.reverse(), j, i));
        }
        assert(is_shortest(c, n, j, i, d[(i, j)] as int));
        lemma_shortest_unique(c, n, j, i, d[(i, j)] as int, d[(j, i)] as int);
    }
    assert forall|i: int| 0 <= i < n implies #[trigger] d[(i, i)] == 0 && pred[(i, i)] == NO_PRED_NODE by {
        assert(is_shortest(c, n, i, i, d[(i, i)] as int));
        lemma_trivial_route(c, n, i);
        assert(is_route(c, n, seq![i], i, i));
        assert(is_pred(c, n, i, i, |x: int| d[(i, x)] as int, pred[(i, i)] as int));
    }
}

/// Shortest distances obey the triangle inequality: going from `i` to `k`
/// by way of `j` is never shorter.
pub proof fn lemma_shortest_triangle(
    c: Map<(int, int), u16>,
    n: int,
    d: Map<(int, int), u16>,
    pred: Map<(int, int), u16>,
    i: int,
    j: int,
    k: int,
)
    requires
        all_pairs_shortest(c, n, d, pred),
        0 <= i < n,
        0 <= j < n,
        0 <= k < n,
    ensures
        d[(i, k)] <= d[(i, j)] + d[(j, k)],
{
    assert(is_shortest(c, n, i, j, d[(i, j)] as int));
    assert(is_shortest(c, n, j, k, d[(j, k)] as int));
    assert(is_shortest(c, n, i, k, d[(i, k)] as int));
    if d[(i, j)] < INFINITY && d[(j, k)] < INFINITY {
        let p = choose|p: Seq<int>| #[trigger] is_route(c, n, p, i, j) && path_weight(c, p) == d[(i, j)] as int;
        let q = choose|q: Seq<int>| #[trigger] is_route(c, n, q, j, k) && path_weight(c, q) == d[(j, k)] as int;
        lemma_path_concat(c, n, p, q);
        assert(is_route(c, n, p + q.skip(1), i, k));
    }
}

/// Two single-source runs from one start, such as Dijkstra's with a binary
/// heap and Dial's with a bucket queue, give the same distances; each
/// predecessor row fits the shared distances (ties may differ).
pub proof fn lemma_single_source_rows_agree(
    c: Map<(int, int), u16>,
    n: int,
    s: int,
    d1: Seq<u16>,
    p1: Seq<u16>,
    d2: Seq<u16>,
    p2: Seq<u16>,
)
    requires
        single_source_shortest(c, n, s, d1, p1),
        single_source_shortest(c, n, s, d2, p2),
    ensures
        d1 == d2,
        single_source_shortest(c, n, s, d1, p2),
{
    assert forall|v: int| 0 <= v < n implies #[trigger] d1[v] == d2[v] by {
        assert(is_shortest(c, n, s, v, d1[v] as int));
        assert(is_shortest(c, n, s, v, d2[v] as int));
        lemma_shortest_unique(c, n, s, v, d1[v] as int, d2[v] as int);
    }
    assert(d1 =~= d2);
}

}
