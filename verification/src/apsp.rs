use vstd::prelude::*;
use crate::grid::{cells, shape, Matrix};
use crate::paths::{all_pairs_shortest, edge_weight, jump_entry, single_source_shortest};
use crate::heap::{rank, MinHeap};
use crate::bucket::{is_min_priority, queued, DialQueue};
use crate::dijkstra_proof::{
    adjacency_ok, lemma_pop_final, lemma_relax, lemma_settle, lemma_settle_done, lemma_sssp_done, lemma_sssp_init,
    lemma_total_nonneg, lemma_total_update, relaxing_inv, sssp_inv, total,
};
use crate::paths::{is_pred, is_shortest, lemma_edge_weight_bounds, lemma_pred_row_copied, lemma_pred_row_kept};
use crate::floyd_proof::{fw_inv, lemma_fw_done, lemma_fw_init, lemma_fw_step, round_dist, round_pred};

verus! {

broadcast use vstd::multiset::group_multiset_axioms;

/// The distance that stands for "no jump" or "unreachable".
pub const INFINITY: u16 = 65535;

/// The predecessor that stands for "none".
pub const NO_PRED_NODE: u16 = 65534;

/// `(i, j)` comes before `(x, y)` in row-major order.
pub open spec fn before(i: int, j: int, x: int, y: int) -> bool {
    x < i || (x == i && y < j)
}

/// Replaces every zero entry by `INFINITY`.
fn zeros_to_infinity(dist: &mut Matrix, size: usize)
    requires
        shape(*old(dist)) == (size as nat, size as nat),
    ensures
        shape(*final(dist)) == shape(*old(dist)),
        forall|x: int, y: int|
            0 <= x < size && 0 <= y < size ==> #[trigger] cells(*final(dist))[(x, y)] as int == jump_entry(
                cells(*old(dist))[(x, y)],
            ),
{
    let ghost c0 = cells(*dist);
    let mut i: usize = 0;
    while i < size
        invariant
            i <= size,
            shape(*dist) == (size as nat, size as nat),
            forall|x: int, y: int|
                0 <= x < size && 0 <= y < size ==> #[trigger] cells(*dist)[(x, y)] as int == if x < i {
                    jump_entry(c0[(x, y)])
                } else {
                    c0[(x, y)] as int
                },
        decreases size - i,
    {
        let mut j: usize = 0;
        while j < size
            invariant
                i < size,
                j <= size,
                shape(*dist) == (size as nat, size as nat),
                forall|x: int, y: int|
                    0 <= x < size && 0 <= y < size ==> #[trigger] cells(*dist)[(x, y)] as int == if before(
                        i as int,
                        j as int,
                        x,
                        y,
                    ) {
                        jump_entry(c0[(x, y)])
                    } else {
                        c0[(x, y)] as int
                    },
            decreases size - j,
        {
            if dist.get(i, j) == 0 {
                dist.set(i, j, INFINITY);
            }
            j += 1;
        }
        i += 1;
    }
}

/// Puts zero on the diagonal.
fn zero_diagonal(dist: &mut Matrix, size: usize)
    requires
        shape(*old(dist)) == (size as nat, size as nat),
    ensures
        shape(*final(dist)) == shape(*old(dist)),
        forall|x: int, y: int|
            0 <= x < size && 0 <= y < size ==> #[trigger] cells(*final(dist))[(x, y)] == if x == y {
                0
            } else {
                cells(*old(dist))[(x, y)]
            },
{
    let ghost c0 = cells(*dist);
    let mut i: usize = 0;
    while i < size
        invariant
            i <= size,
            shape(*dist) == (size as nat, size as nat),
            forall|x: int, y: int|
                0 <= x < size && 0 <= y < size ==> #[trigger] cells(*dist)[(x, y)] == if x == y && x < i {
                    0
                } else {
                    c0[(x, y)]
                },
        decreases size - i,
    {
        dist.set(i, i, 0);
        i += 1;
    }
}

/// Keeps the smaller of `dist[i][j]` and `dist[j][i]` in both cells.
fn symmetrize(dist: &mut Matrix, size: usize)
    requires
        shape(*old(dist)) == (size as nat, size as nat),
    ensures
        shape(*final(dist)) == shape(*old(dist)),
        forall|x: int, y: int|
            0 <= x < size && 0 <= y < size ==> #[trigger] cells(*final(dist))[(x, y)] == if cells(
                *old(dist),
            )[(x, y)] <= cells(*old(dist))[(y, x)] {
                cells(*old(dist))[(x, y)]
            } else {
                cells(*old(dist))[(y, x)]
            },
{
    let ghost c0 = cells(*dist);
    let mut i: usize = 0;
    while i < size
        invariant
            i <= size,
            shape(*dist) == (size as nat, size as nat),
            forall|x: int, y: int|
                0 <= x < size && 0 <= y < size ==> #[trigger] cells(*dist)[(x, y)] == if x < i {
                    if c0[(x, y)] <= c0[(y, x)] {
                        c0[(x, y)]
                    } else {
                        c0[(y, x)]
                    }
                } else {
                    c0[(x, y)]
                },
        decreases size - i,
    {
        let mut j: usize = 0;
        while j < size
            invariant
                i < size,
                j <= size,
                shape(*dist) == (size as nat, size as nat),
                forall|x: int, y: int|
                    0 <= x < size && 0 <= y < size ==> #[trigger] cells(*dist)[(x, y)] == if before(
                        i as int,
                        j as int,
                        x,
                        y,
                    ) {
                        if c0[(x, y)] <= c0[(y, x)] {
                            c0[(x, y)]
                        } else {
                            c0[(y, x)]
                        }
                    } else {
                        c0[(x, y)]
                    },
            decreases size - j,
        {
            let a = dist.get(i, j);
            let b = dist.get(j, i);
            if a > b {
                dist.set(i, j, b);
            }
            j += 1;
        }
        i += 1;
    }
}

/// Turns a matrix of jump entries into the matrix of edge weights of the
/// undirected graph it describes (see `edge_weight`).
fn prepare_weights(dist: &mut Matrix, size: usize)
    requires
        shape(*old(dist)) == (size as nat, size as nat),
    ensures
        shape(*final(dist)) == shape(*old(dist)),
        forall|x: int, y: int|
            0 <= x < size && 0 <= y < size ==> #[trigger] cells(*final(dist))[(x, y)] as int == edge_weight(
                cells(*old(dist)),
                x,
                y,
            ),
{
    zeros_to_infinity(dist, size);
    zero_diagonal(dist, size);
    symmetrize(dist, size);
}

/// Predecessors of direct jumps: `i` for every edge from `i` to `j`, none elsewhere.
fn initial_predecessors(dist: &Matrix, size: usize) -> (pred: Matrix)
    requires
        shape(*dist) == (size as nat, size as nat),
        size * size * 2 <= isize::MAX,
    ensures
        shape(pred) == (size as nat, size as nat),
        forall|x: int, y: int|
            0 <= x < size && 0 <= y < size ==> #[trigger] cells(pred)[(x, y)] == if 0 < cells(*dist)[(x, y)]
                < INFINITY {
                x as u16
            } else {
                NO_PRED_NODE
            },
{
    assert(size <= isize::MAX) by (nonlinear_arith)
        requires
            size * size * 2 <= isize::MAX,
    ;
    let mut pred = Matrix::from_elem(size, size, NO_PRED_NODE);
    let mut i: usize = 0;
    while i < size
        invariant
            i <= size,
            shape(*dist) == (size as nat, size as nat),
            shape(pred) == (size as nat, size as nat),
            forall|x: int, y: int|
                0 <= x < size && 0 <= y < size ==> #[trigger] cells(pred)[(x, y)] == if x < i && 0 < cells(
                    *dist,
                )[(x, y)] < INFINITY {
                    x as u16
                } else {
                    NO_PRED_NODE
                },
        decreases size - i,
    {
        let mut j: usize = 0;
        while j < size
            invariant
                i < size,
                j <= size,
                shape(*dist) == (size as nat, size as nat),
                shape(pred) == (size as nat, size as nat),
                forall|x: int, y: int|
                    0 <= x < size && 0 <= y < size ==> #[trigger] cells(pred)[(x, y)] == if before(
                        i as int,
                        j as int,
                        x,
                        y,
                    ) && 0 < cells(*dist)[(x, y)] < INFINITY {
                        x as u16
                    } else {
                        NO_PRED_NODE
                    },
            decreases size - j,
        {
            let d = dist.get(i, j);
            if d > 0 && d < INFINITY {
                pred.set(i, j, i as u16);
            }
            j += 1;
        }
        i += 1;
    }
    pred
}


/// One round of the Floyd-Warshall triple loop: every pair may now go
/// through `k`.
fn floyd_warshall_round(dist: &mut Matrix, pred: &mut Matrix, size: usize, k: usize)
    requires
        k < size,
        shape(*old(dist)) == (size as nat, size as nat),
        shape(*old(pred)) == (size as nat, size as nat),
        cells(*old(dist))[(k as int, k as int)] == 0,
    ensures
        shape(*final(dist)) == shape(*old(dist)),
        shape(*final(pred)) == shape(*old(pred)),
        forall|x: int, y: int|
            0 <= x < size && 0 <= y < size ==> #[trigger] cells(*final(dist))[(x, y)] == round_dist(
                cells(*old(dist)),
                k as int,
                x,
                y,
            ),
        forall|x: int, y: int|
            0 <= x < size && 0 <= y < size ==> #[trigger] cells(*final(pred))[(x, y)] == round_pred(
                cells(*old(dist)),
                cells(*old(pred)),
                k as int,
                x,
                y,
            ),
{
    let ghost d0 = cells(*dist);
    let ghost p0 = cells(*pred);
    let mut i: usize = 0;
    while i < size
        invariant
            i <= size,
            k < size,
            d0[(k as int, k as int)] == 0,
            shape(*dist) == (size as nat, size as nat),
            shape(*pred) == (size as nat, size as nat),
            forall|x: int, y: int|
                0 <= x < size && 0 <= y < size ==> #[trigger] cells(*dist)[(x, y)] == if x < i {
                    round_dist(d0, k as int, x, y)
                } else {
                    d0[(x, y)]
                },
            forall|x: int, y: int|
                0 <= x < size && 0 <= y < size ==> #[trigger] cells(*pred)[(x, y)] == if x < i {
                    round_pred(d0, p0, k as int, x, y)
                } else {
                    p0[(x, y)]
                },
        decreases size - i,
    {
        let mut j: usize = 0;
        while j < size
            invariant
                i < size,
                j <= size,
                k < size,
                d0[(k as int, k as int)] == 0,
                shape(*dist) == (size as nat, size as nat),
                shape(*pred) == (size as nat, size as nat),
                forall|x: int, y: int|
                    0 <= x < size && 0 <= y < size ==> #[trigger] cells(*dist)[(x, y)] == if before(
                        i as int,
                        j as int,
                        x,
                        y,
                    ) {
                        round_dist(d0, k as int, x, y)
                    } else {
                        d0[(x, y)]
                    },
                forall|x: int, y: int|
                    0 <= x < size && 0 <= y < size ==> #[trigger] cells(*pred)[(x, y)] == if before(
                        i as int,
                        j as int,
                        x,
                        y,
                    ) {
                        round_pred(d0, p0, k as int, x, y)
                    } else {
                        p0[(x, y)]
                    },
            decreases size - j,
        {
            assert(cells(*dist)[(i as int, k as int)] == d0[(i as int, k as int)]);
            assert(cells(*dist)[(k as int, j as int)] == d0[(k as int, j as int)]);
            assert(cells(*pred)[(k as int, j as int)] == p0[(k as int, j as int)]);
            let dik = dist.get(i, k);
            let dkj = dist.get(k, j);
            let dij = dist.get(i, j);
            if dik != INFINITY && dkj != INFINITY && (dik as u32) + (dkj as u32) < (dij as u32) {
                let through = ((dik as u32) + (dkj as u32)) as u16;
                dist.set(i, j, through);
                let pkj = pred.get(k, j);
                pred.set(i, j, pkj);
            }
            j += 1;
        }
        i += 1;
    }
}

/// All-pairs shortest paths by the Floyd-Warshall algorithm.
///
/// `dist` holds jump entries: a positive entry below `INFINITY` is a jump of
/// that length, zero and `INFINITY` mean no jump, and movement is
/// bidirectional. On return `dist` holds the shortest distance between each
/// pair of worlds, and the returned matrix the predecessor of the target on a
/// shortest path from the source (`NO_PRED_NODE` for none).
pub fn floyd_warshall(dist: &mut Matrix) -> (pred: Matrix)
    requires
        shape(*old(dist)).0 == shape(*old(dist)).1,
        shape(*old(dist)).0 <= NO_PRED_NODE,
    ensures
        shape(*final(dist)) == shape(*old(dist)),
        shape(pred) == shape(*old(dist)),
        all_pairs_shortest(cells(*old(dist)), shape(*old(dist)).0 as int, cells(*final(dist)), cells(pred)),
{
    let ghost c0 = cells(*dist);
    let size = dist.nrows();
    prepare_weights(dist, size);
    let mut pred = initial_predecessors(dist, size);
    proof {
        lemma_fw_init(c0, size as int, cells(*dist), cells(pred));
    }
    let mut k: usize = 0;
    while k < size
        invariant
            k <= size,
            size <= NO_PRED_NODE,
            shape(*dist) == (size as nat, size as nat),
            shape(pred) == (size as nat, size as nat),
            fw_inv(c0, size as int, k as int, cells(*dist), cells(pred)),
        decreases size - k,
    {
        proof {
            assert(crate::floyd_proof::fw_pair(c0, size as int, k as int, k as int, k as int, cells(*dist), cells(pred)));
        }
        let ghost d0 = cells(*dist);
        let ghost p0 = cells(pred);
        floyd_warshall_round(dist, &mut pred, size, k);
        proof {
            lemma_fw_step(c0, size as int, k as int, d0, p0, cells(*dist), cells(pred));
        }
        k += 1;
    }
    proof {
        lemma_fw_done(c0, size as int, cells(*dist), cells(pred));
    }
    pred
}


/// For each world, the (neighbor, jump length) pairs of the jumps out of it,
/// neighbors in increasing order.
fn neighbor_lists(dist: &Matrix, size: usize, Ghost(c): Ghost<Map<(int, int), u16>>) -> (adj: Vec<Vec<(u16, u16)>>)
    requires
        shape(*dist) == (size as nat, size as nat),
        size <= NO_PRED_NODE,
        forall|x: int, y: int| 0 <= x < size && 0 <= y < size ==> #[trigger] cells(*dist)[(x, y)] as int == edge_weight(c, x, y),
    ensures
        adjacency_ok(c, size as int, adj@),
{
    let mut adj: Vec<Vec<(u16, u16)>> = Vec::new();
    let mut i: usize = 0;
    while i < size
        invariant
            i <= size,
            size <= NO_PRED_NODE,
            shape(*dist) == (size as nat, size as nat),
            forall|x: int, y: int| 0 <= x < size && 0 <= y < size ==> #[trigger] cells(*dist)[(x, y)] as int == edge_weight(c, x, y),
            adj@.len() == i,
            forall|u: int, t: int|
                0 <= u < i && 0 <= t < adj@[u]@.len() ==> {
                    let e = #[trigger] adj@[u]@[t];
                    &&& 0 <= e.0 < size
                    &&& e.1 as int == edge_weight(c, u, e.0 as int)
                    &&& 0 < e.1 < INFINITY
                },
            forall|u: int, v: int|
                0 <= u < i && 0 <= v < size && u != v && #[trigger] edge_weight(c, u, v) < INFINITY ==> exists|t: int|
                    0 <= t < adj@[u]@.len() && (#[trigger] adj@[u]@[t]).0 == v,
        decreases size - i,
    {
        let mut row: Vec<(u16, u16)> = Vec::new();
        let mut j: usize = 0;
        while j < size
            invariant
                i < size,
                j <= size,
                size <= NO_PRED_NODE,
                shape(*dist) == (size as nat, size as nat),
                forall|x: int, y: int| 0 <= x < size && 0 <= y < size ==> #[trigger] cells(*dist)[(x, y)] as int == edge_weight(c, x, y),
                forall|t: int|
                    0 <= t < row@.len() ==> {
                        let e = #[trigger] row@[t];
                        &&& 0 <= e.0 < size
                        &&& e.1 as int == edge_weight(c, i as int, e.0 as int)
                        &&& 0 < e.1 < INFINITY
                    },
                forall|v: int|
                    0 <= v < j && i != v && #[trigger] edge_weight(c, i as int, v) < INFINITY ==> exists|t: int|
                        0 <= t < row@.len() && (#[trigger] row@[t]).0 == v,
            decreases size - j,
        {
            let d = dist.get(i, j);
            if d > 0 && d < INFINITY {
                let ghost old_row = row@;
                row.push((j as u16, d));
                proof {
                    assert(row@[row@.len() - 1].0 == j);
                    assert forall|v: int|
                        0 <= v < j + 1 && i != v && #[trigger] edge_weight(c, i as int, v) < INFINITY implies exists|t: int|
                            0 <= t < row@.len() && (#[trigger] row@[t]).0 == v by {
                        if v < j {
                            let t = choose|t: int| 0 <= t < old_row.len() && (#[trigger] old_row[t]).0 == v;
                            assert(row@[t] == old_row[t]);
                        } else {
                            assert(row@[row@.len() - 1].0 == v);
                        }
                    }
                }
            } else {
                proof {
                    lemma_edge_weight_bounds(c, i as int, j as int);
                }
            }
            j += 1;
        }
        let ghost adj_before = adj@;
        adj.push(row);
        proof {
            assert forall|u: int, v: int|
                0 <= u < i + 1 && 0 <= v < size && u != v && #[trigger] edge_weight(c, u, v) < INFINITY implies exists|t: int|
                    0 <= t < adj@[u]@.len() && (#[trigger] adj@[u]@[t]).0 == v by {
                if u < i {
                    assert(adj@[u] == adj_before[u]);
                    let t = choose|t: int| 0 <= t < adj_before[u]@.len() && (#[trigger] adj_before[u]@[t]).0 == v;
                    assert(adj@[u]@[t] == adj_before[u]@[t]);
                } else {
                    assert(adj@[u] == row);
                }
            }
        }
        i += 1;
    }
    adj
}

/// A row of `INFINITY` with zero at `start`, and a row of `NO_PRED_NODE`.
fn initial_rows(start: u16, size: usize) -> (rows: (Vec<u16>, Vec<u16>))
    requires
        start < size,
    ensures
        rows.0@.len() == size,
        rows.1@.len() == size,
        forall|v: int| 0 <= v < size ==> #[trigger] rows.0@[v] == if v == start as int { 0 } else { INFINITY },
        forall|v: int| 0 <= v < size ==> #[trigger] rows.1@[v] == NO_PRED_NODE,
{
    let mut dist_row: Vec<u16> = Vec::new();
    let mut pred_row: Vec<u16> = Vec::new();
    let mut v: usize = 0;
    while v < size
        invariant
            v <= size,
            start < size,
            dist_row@.len() == v,
            pred_row@.len() == v,
            forall|x: int| 0 <= x < v ==> #[trigger] dist_row@[x] == if x == start as int { 0 } else { INFINITY },
            forall|x: int| 0 <= x < v ==> #[trigger] pred_row@[x] == NO_PRED_NODE,
        decreases size - v,
    {
        if v == start as usize {
            dist_row.push(0);
        } else {
            dist_row.push(INFINITY);
        }
        pred_row.push(NO_PRED_NODE);
        v += 1;
    }
    (dist_row, pred_row)
}

/// Shortest distances and predecessors from `start` by Dijkstra's algorithm
/// with a binary heap.
fn dijkstra_one_row(
    start: u16,
    size: usize,
    adj: &Vec<Vec<(u16, u16)>>,
    Ghost(c): Ghost<Map<(int, int), u16>>,
) -> (rows: (Vec<u16>, Vec<u16>))
    requires
        start < size,
        size <= NO_PRED_NODE,
        adjacency_ok(c, size as int, adj@),
    ensures
        single_source_shortest(c, size as int, start as int, rows.0@, rows.1@),
{
    let n = Ghost(size as int);
    let s = Ghost(start as int);
    let (mut dist_row, mut pred_row) = initial_rows(start, size);
    let ghost mut settled: Set<int> = Set::empty();
    proof {
        lemma_sssp_init(c, n@, s@, dist_row@, pred_row@);
    }
    let mut heap = MinHeap::new();
    heap.push((0, start));
    while !heap.is_empty()
        invariant
            size <= NO_PRED_NODE,
            n@ == size as int,
            s@ == start as int,
            adjacency_ok(c, size as int, adj@),
            sssp_inv(c, n@, s@, dist_row@, pred_row@, settled),
            heap.wf(),
            forall|e: (u16, u16)| #[trigger] heap@.contains(e) ==> (e.1 as int) < size && e.0 < INFINITY,
            forall|v: int|
                0 <= v < size && !settled.contains(v) && #[trigger] dist_row@[v] < INFINITY ==> heap@.contains(
                    (dist_row@[v], v as u16),
                ),
        decreases heap@.len() + total(dist_row@),
    {
        let ghost bound = heap@.len() + total(dist_row@);
        let ghost h0 = heap@;
        let popped = heap.pop();
        proof {
            assert forall|e: (u16, u16)| #[trigger] heap@.contains(e) implies (e.1 as int) < size && e.0 < INFINITY by {
                assert(h0.contains(e));
            }
            if let Some(e) = popped {
                assert(heap@.len() + 1 == h0.len());
            }
        }
        if let Some((priority, u)) = popped {
            let uu = u as usize;
            assert((uu as int) as u16 == u);
            if priority == dist_row[uu] {
                proof {
                    assert forall|v: int|
                        0 <= v < n@ && !settled.contains(v) && #[trigger] dist_row@[v] < INFINITY implies dist_row@[uu as int]
                            <= dist_row@[v] by {
                        assert(h0.contains((dist_row@[v], v as u16)));
                        assert(rank((priority, u)) <= rank((dist_row@[v], v as u16)));
                    }
                    lemma_pop_final(c, n@, s@, dist_row@, pred_row@, settled, uu as int);
                    lemma_settle(c, n@, s@, dist_row@, pred_row@, settled, uu as int);
                    settled = settled.insert(uu as int);
                    assert forall|v: int|
                        0 <= v < size && !settled.contains(v) && #[trigger] dist_row@[v] < INFINITY implies heap@.contains(
                            (dist_row@[v], v as u16),
                        ) by {
                        assert(h0.contains((dist_row@[v], v as u16)));
                        assert((dist_row@[v], v as u16) != (priority, u));
                    }
                    lemma_total_nonneg(dist_row@);
                }
                let du = dist_row[uu];
                let nbrs = &adj[uu];
                let mut t: usize = 0;
                while t < nbrs.len()
                    invariant
                        size <= NO_PRED_NODE,
                        n@ == size as int,
                        s@ == start as int,
                        uu < size,
                        (uu as int) as u16 == u,
                        nbrs@ == adj@[uu as int]@,
                        adjacency_ok(c, size as int, adj@),
                        relaxing_inv(c, n@, s@, dist_row@, pred_row@, settled, uu as int),
                        dist_row@[uu as int] == du,
                        du < INFINITY,
                        t <= nbrs@.len(),
                        forall|t2: int|
                            0 <= t2 < t ==> #[trigger] dist_row@[nbrs@[t2].0 as int] as int <= du as int + nbrs@[t2].1 as int,
                        heap.wf(),
                        forall|e: (u16, u16)| #[trigger] heap@.contains(e) ==> (e.1 as int) < size && e.0 < INFINITY,
                        forall|v: int|
                            0 <= v < size && !settled.contains(v) && #[trigger] dist_row@[v] < INFINITY ==> heap@.contains(
                                (dist_row@[v], v as u16),
                            ),
                        heap@.len() + total(dist_row@) < bound,
                    decreases nbrs@.len() - t,
                {
                    let (v, wt) = nbrs[t];
                    let vv = v as usize;
                    proof {
                        assert(adj@[uu as int]@[t as int] == (v, wt));
                    }
                    let alt = (du as u32) + (wt as u32);
                    if alt < dist_row[vv] as u32 {
                        let ghost d_before = dist_row@;
                        proof {
                            lemma_relax(c, n@, s@, dist_row@, pred_row@, settled, uu as int, vv as int, alt as u16);
                            lemma_total_update(dist_row@, vv as int, alt as u16);
                        }
                        let ghost h1 = heap@;
                        dist_row.set(vv, alt as u16);
                        pred_row.set(vv, u);
                        heap.push((alt as u16, v));
                        proof {
                            assert forall|e: (u16, u16)| #[trigger] heap@.contains(e) implies (e.1 as int) < size && e.0
                                < INFINITY by {
                                if e != (alt as u16, v) {
                                    assert(h1.contains(e));
                                }
                            }
                            assert forall|t2: int| 0 <= t2 < t + 1 implies #[trigger] dist_row@[nbrs@[t2].0 as int] as int
                                <= du as int + nbrs@[t2].1 as int by {
                                if nbrs@[t2].0 as int != vv as int {
                                    assert(dist_row@[nbrs@[t2].0 as int] == d_before[nbrs@[t2].0 as int]);
                                }
                            }
                            assert forall|x: int|
                                0 <= x < size && !settled.contains(x) && #[trigger] dist_row@[x] < INFINITY implies heap@.contains(
                                    (dist_row@[x], x as u16),
                                ) by {
                                if x != vv as int {
                                    assert(dist_row@[x] == d_before[x]);
                                }
                            }
                        }
                    }
                    t += 1;
                }
                proof {
                    assert forall|v: int|
                        0 <= v < n@ && v != uu as int && edge_weight(c, uu as int, v) < INFINITY implies #[trigger] dist_row@[v] as int
                            <= dist_row@[uu as int] as int + edge_weight(c, uu as int, v) by {
                        let t2 = choose|t2: int| 0 <= t2 < adj@[uu as int]@.len() && (#[trigger] adj@[uu as int]@[t2]).0 == v;
                        assert(nbrs@[t2] == adj@[uu as int]@[t2]);
                    }
                    lemma_settle_done(c, n@, s@, dist_row@, pred_row@, settled, uu as int);
                    lemma_total_nonneg(dist_row@);
                }
            } else {
                proof {
                    assert forall|v: int|
                        0 <= v < size && !settled.contains(v) && #[trigger] dist_row@[v] < INFINITY implies heap@.contains(
                            (dist_row@[v], v as u16),
                        ) by {
                        assert(h0.contains((dist_row@[v], v as u16)));
                        if v == uu as int {
                            assert((dist_row@[v], v as u16) != (priority, u));
                        } else {
                            assert((dist_row@[v], v as u16) != (priority, u));
                        }
                    }
                    lemma_total_nonneg(dist_row@);
                }
            }
        }
    }
    proof {
        assert forall|v: int| 0 <= v < n@ && #[trigger] dist_row@[v] < INFINITY implies settled.contains(v) by {
            if !settled.contains(v) {
                assert(heap@.contains((dist_row@[v], v as u16)));
            }
        }
        lemma_sssp_done(c, n@, s@, dist_row@, pred_row@, settled);
    }
    (dist_row, pred_row)
}

/// Shortest distances and predecessors from `start` by Dial's algorithm,
/// Dijkstra's with a bucket queue.
fn dial_one_row(
    start: u16,
    size: usize,
    adj: &Vec<Vec<(u16, u16)>>,
    Ghost(c): Ghost<Map<(int, int), u16>>,
) -> (rows: (Vec<u16>, Vec<u16>))
    requires
        start < size,
        size <= NO_PRED_NODE,
        adjacency_ok(c, size as int, adj@),
    ensures
        single_source_shortest(c, size as int, start as int, rows.0@, rows.1@),
{
    let n = Ghost(size as int);
    let s = Ghost(start as int);
    let (mut dist_row, mut pred_row) = initial_rows(start, size);
    let ghost mut settled: Set<int> = Set::empty();
    proof {
        lemma_sssp_init(c, n@, s@, dist_row@, pred_row@);
    }
    let mut queue = DialQueue::new();
    queue.enqueue(start, 0);
    while !queue.is_empty()
        invariant
            size <= NO_PRED_NODE,
            n@ == size as int,
            s@ == start as int,
            adjacency_ok(c, size as int, adj@),
            sssp_inv(c, n@, s@, dist_row@, pred_row@, settled),
                        forall|e: (usize, u16)| #[trigger] queued(queue).contains(e) ==> (e.1 as int) < size && e.0 < INFINITY,
            forall|v: int|
                0 <= v < size && !settled.contains(v) && #[trigger] dist_row@[v] < INFINITY ==> queued(queue).contains(
                    (dist_row@[v] as usize, v as u16),
                ),
        decreases queued(queue).len() + total(dist_row@),
    {
        let ghost bound = queued(queue).len() + total(dist_row@);
        let ghost h0 = queued(queue);
        let priority_opt = queue.min_priority();
        let priority = priority_opt.unwrap();
        let popped = queue.dequeue_min();
        proof {
            assert forall|e: (usize, u16)| #[trigger] queued(queue).contains(e) implies (e.1 as int) < size && e.0 < INFINITY by {
                assert(h0.contains(e));
            }
            if let Some(x) = popped {
                let p = choose|p: usize| is_min_priority(h0, p) && #[trigger] h0.contains((p, x));
                assert(p == priority);
                assert(queued(queue).len() + 1 == h0.len());
            }
        }
        if let Some(u) = popped {
            let uu = u as usize;
            assert((uu as int) as u16 == u);
            assert(h0.contains((priority, u)));
            if priority == dist_row[uu] as usize {
                proof {
                    assert forall|v: int|
                        0 <= v < n@ && !settled.contains(v) && #[trigger] dist_row@[v] < INFINITY implies dist_row@[uu as int]
                            <= dist_row@[v] by {
                        assert(h0.contains((dist_row@[v] as usize, v as u16)));
                    }
                    lemma_pop_final(c, n@, s@, dist_row@, pred_row@, settled, uu as int);
                    lemma_settle(c, n@, s@, dist_row@, pred_row@, settled, uu as int);
                    settled = settled.insert(uu as int);
                    assert forall|v: int|
                        0 <= v < size && !settled.contains(v) && #[trigger] dist_row@[v] < INFINITY implies queued(queue).contains(
                            (dist_row@[v] as usize, v as u16),
                        ) by {
                        assert(h0.contains((dist_row@[v] as usize, v as u16)));
                        assert((dist_row@[v] as usize, v as u16) != (priority, u));
                    }
                    lemma_total_nonneg(dist_row@);
                }
                let du = dist_row[uu];
                let nbrs = &adj[uu];
                let mut t: usize = 0;
                while t < nbrs.len()
                    invariant
                        size <= NO_PRED_NODE,
                        n@ == size as int,
                        s@ == start as int,
                        uu < size,
                        (uu as int) as u16 == u,
                        nbrs@ == adj@[uu as int]@,
                        adjacency_ok(c, size as int, adj@),
                        relaxing_inv(c, n@, s@, dist_row@, pred_row@, settled, uu as int),
                        dist_row@[uu as int] == du,
                        du < INFINITY,
                        t <= nbrs@.len(),
                        forall|t2: int|
                            0 <= t2 < t ==> #[trigger] dist_row@[nbrs@[t2].0 as int] as int <= du as int + nbrs@[t2].1 as int,
                                                forall|e: (usize, u16)| #[trigger] queued(queue).contains(e) ==> (e.1 as int) < size && e.0 < INFINITY,
                        forall|v: int|
                            0 <= v < size && !settled.contains(v) && #[trigger] dist_row@[v] < INFINITY ==> queued(queue).contains(
                                (dist_row@[v] as usize, v as u16),
                            ),
                        queued(queue).len() + total(dist_row@) < bound,
                    decreases nbrs@.len() - t,
                {
                    let (v, wt) = nbrs[t];
                    let vv = v as usize;
                    proof {
                        assert(adj@[uu as int]@[t as int] == (v, wt));
                    }
                    let alt = (du as u32) + (wt as u32);
                    if alt < dist_row[vv] as u32 {
                        let ghost d_before = dist_row@;
                        proof {
                            lemma_relax(c, n@, s@, dist_row@, pred_row@, settled, uu as int, vv as int, alt as u16);
                            lemma_total_update(dist_row@, vv as int, alt as u16);
                        }
                        let ghost h1 = queued(queue);
                        dist_row.set(vv, alt as u16);
                        pred_row.set(vv, u);
                        queue.enqueue(v, alt as usize);
                        proof {
                            assert forall|e: (usize, u16)| #[trigger] queued(queue).contains(e) implies (e.1 as int) < size && e.0
                                < INFINITY by {
                                if e != (alt as usize, v) {
                                    assert(h1.contains(e));
                                }
                            }
                            assert forall|t2: int| 0 <= t2 < t + 1 implies #[trigger] dist_row@[nbrs@[t2].0 as int] as int
                                <= du as int + nbrs@[t2].1 as int by {
                                if nbrs@[t2].0 as int != vv as int {
                                    assert(dist_row@[nbrs@[t2].0 as int] == d_before[nbrs@[t2].0 as int]);
                                }
                            }
                            assert forall|x: int|
                                0 <= x < size && !settled.contains(x) && #[trigger] dist_row@[x] < INFINITY implies queued(queue).contains(
                                    (dist_row@[x] as usize, x as u16),
                                ) by {
                                if x != vv as int {
                                    assert(dist_row@[x] == d_before[x]);
                                }
                            }
                        }
                    }
                    t += 1;
                }
                proof {
                    assert forall|v: int|
                        0 <= v < n@ && v != uu as int && edge_weight(c, uu as int, v) < INFINITY implies #[trigger] dist_row@[v] as int
                            <= dist_row@[uu as int] as int + edge_weight(c, uu as int, v) by {
                        let t2 = choose|t2: int| 0 <= t2 < adj@[uu as int]@.len() && (#[trigger] adj@[uu as int]@[t2]).0 == v;
                        assert(nbrs@[t2] == adj@[uu as int]@[t2]);
                    }
                    lemma_settle_done(c, n@, s@, dist_row@, pred_row@, settled, uu as int);
                    lemma_total_nonneg(dist_row@);
                }
            } else {
                proof {
                    assert forall|v: int|
                        0 <= v < size && !settled.contains(v) && #[trigger] dist_row@[v] < INFINITY implies queued(queue).contains(
                            (dist_row@[v] as usize, v as u16),
                        ) by {
                        assert(h0.contains((dist_row@[v] as usize, v as u16)));
                        if v == uu as int {
                            assert((dist_row@[v] as usize, v as u16) != (priority, u));
                        } else {
                            assert((dist_row@[v] as usize, v as u16) != (priority, u));
                        }
                    }
                    lemma_total_nonneg(dist_row@);
                }
            }
        }
    }
    proof {
        assert forall|v: int| 0 <= v < n@ && #[trigger] dist_row@[v] < INFINITY implies settled.contains(v) by {
            if !settled.contains(v) {
                assert(queued(queue).contains((dist_row@[v] as usize, v as u16)));
            }
        }
        lemma_sssp_done(c, n@, s@, dist_row@, pred_row@, settled);
    }
    (dist_row, pred_row)
}

/// Which single-source algorithm runs from each world.
#[derive(Clone, Copy)]
enum Algorithm {
    D,
    Dial,
}

/// All-pairs shortest paths by running a single-source algorithm from every
/// world; see `floyd_warshall` for what `dist` holds before and after.
fn dijkstra_dial_inner(dist: &mut Matrix, alg: Algorithm) -> (pred: Matrix)
    requires
        shape(*old(dist)).0 == shape(*old(dist)).1,
        shape(*old(dist)).0 <= NO_PRED_NODE,
    ensures
        shape(*final(dist)) == shape(*old(dist)),
        shape(pred) == shape(*old(dist)),
        all_pairs_shortest(cells(*old(dist)), shape(*old(dist)).0 as int, cells(*final(dist)), cells(pred)),
{
    let ghost c0 = cells(*dist);
    let size = dist.nrows();
    prepare_weights(dist, size);
    let adj = neighbor_lists(dist, size, Ghost(c0));
    let mut pred = initial_predecessors(dist, size);
    let mut i: usize = 0;
    while i < size
        invariant
            i <= size,
            size <= NO_PRED_NODE,
            shape(*dist) == (size as nat, size as nat),
            shape(pred) == (size as nat, size as nat),
            adjacency_ok(c0, size as int, adj@),
            forall|x: int, y: int|
                0 <= x < size && 0 <= y < size && x < i ==> is_shortest(
                    c0,
                    size as int,
                    x,
                    y,
                    #[trigger] cells(*dist)[(x, y)] as int,
                ),
            forall|x: int, y: int|
                0 <= x < size && 0 <= y < size && x < i ==> is_pred(
                    c0,
                    size as int,
                    x,
                    y,
                    |z: int| cells(*dist)[(x, z)] as int,
                    #[trigger] cells(pred)[(x, y)] as int,
                ),
        decreases size - i,
    {
        let rows = match alg {
            Algorithm::D => dijkstra_one_row(i as u16, size, &adj, Ghost(c0)),
            Algorithm::Dial => dial_one_row(i as u16, size, &adj, Ghost(c0)),
        };
        let (dist_row, pred_row) = rows;
        let ghost d_before = cells(*dist);
        let ghost p_before = cells(pred);
        let mut j: usize = 0;
        while j < size
            invariant
                i < size,
                j <= size,
                shape(*dist) == (size as nat, size as nat),
                shape(pred) == (size as nat, size as nat),
                dist_row@.len() == size,
                pred_row@.len() == size,
                forall|x: int, y: int|
                    0 <= x < size && 0 <= y < size ==> #[trigger] cells(*dist)[(x, y)] == if x == i && y < j {
                        dist_row@[y]
                    } else {
                        d_before[(x, y)]
                    },
                forall|x: int, y: int|
                    0 <= x < size && 0 <= y < size ==> #[trigger] cells(pred)[(x, y)] == if x == i && y < j {
                        pred_row@[y]
                    } else {
                        p_before[(x, y)]
                    },
            decreases size - j,
        {
            dist.set(i, j, dist_row[j]);
            pred.set(i, j, pred_row[j]);
            j += 1;
        }
        proof {
            assert forall|x: int, y: int|
                0 <= x < size && 0 <= y < size && x < i + 1 implies is_shortest(
                c0,
                size as int,
                x,
                y,
                #[trigger] cells(*dist)[(x, y)] as int,
            ) by {
                if x < i {
                    assert(cells(*dist)[(x, y)] == d_before[(x, y)]);
                } else {
                    assert(cells(*dist)[(x, y)] == dist_row@[y]);
                }
            }
            assert forall|x: int, y: int|
                0 <= x < size && 0 <= y < size && x < i + 1 implies is_pred(
                c0,
                size as int,
                x,
                y,
                |z: int| cells(*dist)[(x, z)] as int,
                #[trigger] cells(pred)[(x, y)] as int,
            ) by {
                if x < i {
                    assert(cells(pred)[(x, y)] == p_before[(x, y)]);
                    assert(is_pred(c0, size as int, x, y, |z: int| d_before[(x, z)] as int, p_before[(x, y)] as int));
                    assert forall|z: int| 0 <= z < size implies #[trigger] cells(*dist)[(x, z)] == d_before[(x, z)] by {
                    }
                    lemma_pred_row_kept(c0, size as int, x, y, d_before, cells(*dist), p_before[(x, y)] as int);
                } else {
                    assert(cells(pred)[(x, y)] == pred_row@[y]);
                    assert(is_pred(c0, size as int, x, y, |z: int| dist_row@[z] as int, pred_row@[y] as int));
                    assert forall|z: int| 0 <= z < size implies #[trigger] cells(*dist)[(x, z)] == dist_row@[z] by {
                    }
                    lemma_pred_row_copied(c0, size as int, x, y, dist_row@, cells(*dist), pred_row@[y] as int);
                }
            }
        }
        i += 1;
    }
    pred
}

/// All-pairs shortest paths by Dijkstra's algorithm from every world; the
/// same contract as `floyd_warshall`.
pub fn dijkstra(dist: &mut Matrix) -> (pred: Matrix)
    requires
        shape(*old(dist)).0 == shape(*old(dist)).1,
        shape(*old(dist)).0 <= NO_PRED_NODE,
    ensures
        shape(*final(dist)) == shape(*old(dist)),
        shape(pred) == shape(*old(dist)),
        all_pairs_shortest(cells(*old(dist)), shape(*old(dist)).0 as int, cells(*final(dist)), cells(pred)),
{
    dijkstra_dial_inner(dist, Algorithm::D)
}

/// All-pairs shortest paths by Dial's algorithm from every world; the same
/// contract as `floyd_warshall`.
pub fn dial(dist: &mut Matrix) -> (pred: Matrix)
    requires
        shape(*old(dist)).0 == shape(*old(dist)).1,
        shape(*old(dist)).0 <= NO_PRED_NODE,
    ensures
        shape(*final(dist)) == shape(*old(dist)),
        shape(pred) == shape(*old(dist)),
        all_pairs_shortest(cells(*old(dist)), shape(*old(dist)).0 as int, cells(*final(dist)), cells(pred)),
{
    dijkstra_dial_inner(dist, Algorithm::Dial)
}

}
