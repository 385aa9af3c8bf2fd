use vstd::prelude::*;
use crate::apsp::{INFINITY, NO_PRED_NODE};
use crate::paths::{
    all_pairs_shortest, edge_weight, is_path, is_pred, is_route, is_shortest, lemma_edge_route,
    lemma_edge_weight_bounds, lemma_path_concat, lemma_path_push, lemma_path_split,
    lemma_path_vertices, lemma_trivial_route, path_weight,
};

verus! {

/// Every interior vertex of `p` is below `k`.
pub open spec fn interior_below(p: Seq<int>, k: int) -> bool {
    forall|t: int| 0 < t < p.len() - 1 ==> #[trigger] p[t] < k
}

/// What the Floyd-Warshall matrices hold for the pair `(i, j)` once the
/// vertices below `k` have served as intermediates: `d` is the weight of some
/// walk, no walk through intermediates below `k` is lighter, and the
/// predecessor ends a walk of weight `d`.
pub open spec fn fw_pair(
    c: Map<(int, int), u16>,
    n: int,
    k: int,
    i: int,
    j: int,
    d: Map<(int, int), u16>,
    pred: Map<(int, int), u16>,
) -> bool {
    let dij = d[(i, j)] as int;
    let pr = pred[(i, j)] as int;
    &&& i == j ==> dij == 0
    &&& dij < INFINITY ==> exists|p: Seq<int>| #[trigger] is_route(c, n, p, i, j) && path_weight(c, p) == dij
    &&& forall|p: Seq<int>| #[trigger] is_route(c, n, p, i, j) && interior_below(p, k) ==> path_weight(c, p) >= dij
    &&& if i == j || dij == INFINITY {
        pr == NO_PRED_NODE
    } else {
        &&& 0 <= pr < n
        &&& pr != j
        &&& edge_weight(c, pr, j) < INFINITY
        &&& exists|q: Seq<int>| #[trigger] is_route(c, n, q, i, pr) && path_weight(c, q) + edge_weight(c, pr, j) == dij
    }
}

pub open spec fn fw_inv(
    c: Map<(int, int), u16>,
    n: int,
    k: int,
    d: Map<(int, int), u16>,
    pred: Map<(int, int), u16>,
) -> bool {
    forall|i: int, j: int| 0 <= i < n && 0 <= j < n ==> #[trigger] fw_pair(c, n, k, i, j, d, pred)
}

/// Going through `k` is shorter than the best walk known so far.
pub open spec fn through_k_shorter(d: Map<(int, int), u16>, k: int, x: int, y: int) -> bool {
    (d[(x, k)] as int) + (d[(k, y)] as int) < d[(x, y)] as int
}

pub open spec fn round_dist(d: Map<(int, int), u16>, k: int, x: int, y: int) -> u16 {
    if through_k_shorter(d, k, x, y) {
        ((d[(x, k)] as int) + (d[(k, y)] as int)) as u16
    } else {
        d[(x, y)]
    }
}

pub open spec fn round_pred(d: Map<(int, int), u16>, pred: Map<(int, int), u16>, k: int, x: int, y: int) -> u16 {
    if through_k_shorter(d, k, x, y) {
        pred[(k, y)]
    } else {
        pred[(x, y)]
    }
}

/// The state right after the edge weights are in place satisfies the
/// invariant with no intermediates allowed.
pub proof fn lemma_fw_init(c: Map<(int, int), u16>, n: int, d: Map<(int, int), u16>, pred: Map<(int, int), u16>)
    requires
        0 <= n,
        forall|x: int, y: int| 0 <= x < n && 0 <= y < n ==> #[trigger] d[(x, y)] as int == edge_weight(c, x, y),
        forall|x: int, y: int|
            0 <= x < n && 0 <= y < n ==> #[trigger] pred[(x, y)] == if 0 < d[(x, y)] < INFINITY {
                x as u16
            } else {
                NO_PRED_NODE
            },
        n <= NO_PRED_NODE,
    ensures
        fw_inv(c, n, 0, d, pred),
{
    assert forall|i: int, j: int| 0 <= i < n && 0 <= j < n implies #[trigger] fw_pair(c, n, 0, i, j, d, pred) by {
        let dij = d[(i, j)] as int;
        lemma_edge_weight_bounds(c, i, j);
        assert(d[(i, j)] as int == edge_weight(c, i, j));
        if i == j {
            lemma_trivial_route(c, n, i);
        } else if dij < INFINITY {
            lemma_edge_route(c, n, i, j);
            lemma_trivial_route(c, n, i);
            assert(path_weight(c, seq![i]) + edge_weight(c, i, j) == dij);
        }
        assert forall|p: Seq<int>| #[trigger] is_route(c, n, p, i, j) && interior_below(p, 0) implies path_weight(
            c,
            p,
        ) >= dij by {
            lemma_path_vertices(c, n, p);
            if p.len() >= 3 {
                assert(p[1] < 0);
                assert(0 <= p[1]);
            }
            if p.len() == 2 {
                assert(p.drop_last() =~= seq![p[0]]);
            }
        }
    }
}

/// Every walk whose interior stays below `k + 1` weighs at least the matrix
/// entry after round `k`.
pub proof fn lemma_fw_bound(
    c: Map<(int, int), u16>,
    n: int,
    k: int,
    d0: Map<(int, int), u16>,
    p0: Map<(int, int), u16>,
    d1: Map<(int, int), u16>,
    i: int,
    j: int,
    p: Seq<int>,
)
    requires
        0 <= k < n,
        fw_inv(c, n, k, d0, p0),
        forall|x: int, y: int| 0 <= x < n && 0 <= y < n ==> #[trigger] d1[(x, y)] == round_dist(d0, k, x, y),
        0 <= i < n,
        0 <= j < n,
        is_route(c, n, p, i, j),
        interior_below(p, k + 1),
    ensures
        path_weight(c, p) >= d1[(i, j)],
    decreases p.len(),
{
    assert(fw_pair(c, n, k, i, j, d0, p0));
    assert(fw_pair(c, n, k, k, k, d0, p0));
    if interior_below(p, k) {
        assert(path_weight(c, p) >= d0[(i, j)]);
    } else {
        let t = choose|t: int| 0 < t < p.len() - 1 && !(#[trigger] p[t] < k);
        assert(p[t] == k);
        lemma_path_split(c, n, p, t);
        let p1 = p.take(t + 1);
        let p2 = p.skip(t);
        assert(interior_below(p1, k + 1)) by {
            assert forall|s: int| 0 < s < p1.len() - 1 implies #[trigger] p1[s] < k + 1 by {
                assert(p1[s] == p[s]);
            }
        }
        assert(interior_below(p2, k + 1)) by {
            assert forall|s: int| 0 < s < p2.len() - 1 implies #[trigger] p2[s] < k + 1 by {
                assert(p2[s] == p[s + t]);
            }
        }
        assert(is_route(c, n, p1, i, k));
        assert(is_route(c, n, p2, k, j));
        lemma_fw_bound(c, n, k, d0, p0, d1, i, k, p1);
        lemma_fw_bound(c, n, k, d0, p0, d1, k, j, p2);
        assert(d1[(i, k)] == d0[(i, k)]);
        assert(d1[(k, j)] == d0[(k, j)]);
    }
}

/// One round of the triple loop, with `k` as the new intermediate, keeps the
/// invariant with `k + 1`.
pub proof fn lemma_fw_step(
    c: Map<(int, int), u16>,
    n: int,
    k: int,
    d0: Map<(int, int), u16>,
    p0: Map<(int, int), u16>,
    d1: Map<(int, int), u16>,
    p1: Map<(int, int), u16>,
)
    requires
        0 <= k < n,
        fw_inv(c, n, k, d0, p0),
        forall|x: int, y: int| 0 <= x < n && 0 <= y < n ==> #[trigger] d1[(x, y)] == round_dist(d0, k, x, y),
        forall|x: int, y: int| 0 <= x < n && 0 <= y < n ==> #[trigger] p1[(x, y)] == round_pred(d0, p0, k, x, y),
    ensures
        fw_inv(c, n, k + 1, d1, p1),
{
    assert forall|i: int, j: int| 0 <= i < n && 0 <= j < n implies #[trigger] fw_pair(c, n, k + 1, i, j, d1, p1) by {
        assert(fw_pair(c, n, k, i, j, d0, p0));
        assert(fw_pair(c, n, k, i, k, d0, p0));
        assert(fw_pair(c, n, k, k, j, d0, p0));
        assert(fw_pair(c, n, k, k, k, d0, p0));
        assert(d1[(i, j)] == round_dist(d0, k, i, j));
        assert(p1[(i, j)] == round_pred(d0, p0, k, i, j));
        if through_k_shorter(d0, k, i, j) {
            let ra = choose|p: Seq<int>| #[trigger] is_route(c, n, p, i, k) && path_weight(c, p) == d0[(i, k)] as int;
            let rb = choose|p: Seq<int>| #[trigger] is_route(c, n, p, k, j) && path_weight(c, p) == d0[(k, j)] as int;
            lemma_path_concat(c, n, ra, rb);
            assert(is_route(c, n, ra + rb.skip(1), i, j));
            let pr = p0[(k, j)] as int;
            let q = choose|q: Seq<int>| #[trigger] is_route(c, n, q, k, pr) && path_weight(c, q) + edge_weight(c, pr, j)
                == d0[(k, j)] as int;
            lemma_path_concat(c, n, ra, q);
            assert(is_route(c, n, ra + q.skip(1), i, pr));
        }
        assert forall|p: Seq<int>| #[trigger] is_route(c, n, p, i, j) && interior_below(p, k + 1) implies path_weight(
            c,
            p,
        ) >= d1[(i, j)] by {
            lemma_fw_bound(c, n, k, d0, p0, d1, i, j, p);
        }
    }
}

/// After all `n` rounds the matrices hold shortest distances and predecessors.
pub proof fn lemma_fw_done(c: Map<(int, int), u16>, n: int, d: Map<(int, int), u16>, pred: Map<(int, int), u16>)
    requires
        fw_inv(c, n, n, d, pred),
    ensures
        all_pairs_shortest(c, n, d, pred),
{
    assert forall|i: int, j: int| 0 <= i < n && 0 <= j < n implies is_shortest(c, n, i, j, #[trigger] d[(i, j)] as int) by {
        assert(fw_pair(c, n, n, i, j, d, pred));
        assert forall|p: Seq<int>| #[trigger] is_route(c, n, p, i, j) implies path_weight(c, p) >= d[(i, j)] as int by {
            lemma_path_vertices(c, n, p);
            assert(interior_below(p, n));
        }
    }
    assert forall|i: int, j: int| 0 <= i < n && 0 <= j < n implies is_pred(
        c,
        n,
        i,
        j,
        |x: int| d[(i, x)] as int,
        #[trigger] pred[(i, j)] as int,
    ) by {
        assert(fw_pair(c, n, n, i, j, d, pred));
        let dij = d[(i, j)] as int;
        if !(i == j || dij == INFINITY) {
            let pr = pred[(i, j)] as int;
            assert(is_shortest(c, n, i, pr, d[(i, pr)] as int));
            assert(is_shortest(c, n, i, j, d[(i, j)] as int));
            let q = choose|q: Seq<int>| #[trigger] is_route(c, n, q, i, pr) && path_weight(c, q) + edge_weight(c, pr, j)
                == dij;
            assert(is_route(c, n, q, i, pr));
            let dip = d[(i, pr)] as int;
            assert(dip < INFINITY);
            let r = choose|r: Seq<int>| #[trigger] is_route(c, n, r, i, pr) && path_weight(c, r) == dip;
            lemma_path_push(c, n, r, j);
            assert(is_route(c, n, r.push(j), i, j));
        }
    }
}

}
