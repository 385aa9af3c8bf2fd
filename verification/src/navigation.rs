use vstd::prelude::*;
use crate::apsp::{dial, dijkstra, floyd_warshall, INFINITY, NO_PRED_NODE};
use crate::atlas::{atlas_ok, coords_lt, coords_sorted, index_of, indexed, lemma_located_on_grid, neighbors_exact, neighbors_within};
use crate::coords::{hex_distance, lemma_hex_distance_symmetric, lemma_hex_distance_triangle, Coords};
use crate::grid::{cells, shape, Matrix};
use crate::paths::{
    all_pairs_shortest, edge_weight, is_path, is_pred, is_route, is_shortest, lemma_edge_route, lemma_edge_weight_bounds,
    lemma_path_concat, lemma_path_vertices, lemma_shortest_symmetric, lemma_trivial_route, path_weight,
};
use crate::world::World;

verus! {

/// The all-pairs shortest path algorithms to choose from.
#[derive(Clone, Copy, Debug, PartialEq, Eq, Structural)]
pub enum PathAlgorithm {
    FloydWarshall,
    Dijkstra,
    Dial,
}

/// Runs the chosen all-pairs shortest path algorithm on a square matrix of
/// jump lengths (zero for "no jump"): afterwards `dist` holds the shortest
/// distances and the result the predecessors, as `floyd_warshall` says.
pub fn shortest_path(dist: &mut Matrix, alg: PathAlgorithm) -> (pred: Matrix)
    requires
        shape(*old(dist)).0 == shape(*old(dist)).1,
        shape(*old(dist)).0 <= NO_PRED_NODE,
    ensures
        shape(*final(dist)) == shape(*old(dist)),
        shape(pred) == shape(*old(dist)),
        all_pairs_shortest(cells(*old(dist)), shape(*old(dist)).0 as int, cells(*final(dist)), cells(pred)),
{
    match alg {
        PathAlgorithm::FloydWarshall => floyd_warshall(dist),
        PathAlgorithm::Dijkstra => dijkstra(dist),
        PathAlgorithm::Dial => dial(dist),
    }
}

/// The largest jump from 1 to `j` under which `w` lists `c` as a neighbor,
/// or 0.
pub open spec fn last_jump(w: World, c: Coords, j: int) -> int
    decreases j,
{
    if j <= 0 {
        0
    } else if j < w.neighbors@.len() && w.neighbors@[j]@.contains(c) {
        j
    } else {
        last_jump(w, c, j - 1)
    }
}

/// The straight-line distance between two worlds, saturated to `u16`.
pub open spec fn sld_spec(a: World, b: World) -> int {
    let d = hex_distance(a.coords_spec(), b.coords_spec());
    if d > 65535 { 65535 } else { d }
}

/// The length of the direct jump from world `i` to world `j` (zero for
/// none): the straight-line distance along an xboat route, unless those are
/// ignored; otherwise the distance under which `i` lists `j` as a neighbor.
pub open spec fn jump_weight(worlds: Seq<World>, coords: Seq<Coords>, max_jump: int, ignore_xboat_routes: bool, i: int, j: int) -> int {
    if !ignore_xboat_routes && worlds[i].xboat_routes@.contains(coords[j]) {
        sld_spec(worlds[i], worlds[j])
    } else {
        last_jump(worlds[i], coords[j], max_jump)
    }
}

/// Every coordinates that the world lists, as a neighbor up to `max_jump` or
/// as an xboat route, belong to a world of the map.
pub open spec fn links_known(w: World, coords: Seq<Coords>, max_jump: int, ignore_xboat_routes: bool) -> bool {
    &&& w.neighbors@.len() > max_jump
    &&& forall|j: int, t: int|
        1 <= j <= max_jump && 0 <= t < w.neighbors@[j]@.len() ==> coords.contains(#[trigger] w.neighbors@[j]@[t])
    &&& !ignore_xboat_routes ==> forall|t: int| 0 <= t < w.xboat_routes@.len() ==> coords.contains(#[trigger] w.xboat_routes@[t])
}

proof fn lemma_last_jump_listed(w: World, c: Coords, j: int)
    ensures
        last_jump(w, c, j) == 0 || (0 < last_jump(w, c, j) <= j && last_jump(w, c, j) < w.neighbors@.len()
            && w.neighbors@[last_jump(w, c, j)]@.contains(c)),
    decreases j,
{
    if j > 0 {
        lemma_last_jump_listed(w, c, j - 1);
    }
}

/// A direct jump is never shorter than the straight line it spans.
proof fn lemma_jump_covers_line(worlds: Seq<World>, coords: Seq<Coords>, max_jump: int, ignore_xboat_routes: bool, i: int, j: int)
    requires
        atlas_ok(worlds, coords),
        0 <= i < worlds.len(),
        0 <= j < worlds.len(),
        neighbors_within(worlds[i]),
    ensures
        jump_weight(worlds, coords, max_jump, ignore_xboat_routes, i, j) == 0 || jump_weight(
            worlds,
            coords,
            max_jump,
            ignore_xboat_routes,
            i,
            j,
        ) >= sld_spec(worlds[i], worlds[j]),
{
    let w = worlds[i];
    lemma_last_jump_listed(w, coords[j], max_jump);
    let lj = last_jump(w, coords[j], max_jump);
    if lj > 0 {
        let t = choose|t: int| 0 <= t < w.neighbors@[lj]@.len() && w.neighbors@[lj]@[t] == coords[j];
        assert(hex_distance(w.coords_spec(), w.neighbors@[lj]@[t]) <= lj);
    }
}

proof fn lemma_edge_covers_line(
    c: Map<(int, int), u16>,
    worlds: Seq<World>,
    coords: Seq<Coords>,
    max_jump: int,
    ignore_xboat_routes: bool,
    i: int,
    j: int,
)
    requires
        atlas_ok(worlds, coords),
        0 <= i < worlds.len(),
        0 <= j < worlds.len(),
        neighbors_within(worlds[i]),
        neighbors_within(worlds[j]),
        forall|a: int, b: int|
            0 <= a < worlds.len() && 0 <= b < worlds.len() ==> #[trigger] c[(a, b)] as int == jump_weight(
                worlds,
                coords,
                max_jump,
                ignore_xboat_routes,
                a,
                b,
            ),
    ensures
        edge_weight(c, i, j) >= sld_spec(worlds[i], worlds[j]),
{
    lemma_hex_distance_symmetric(worlds[i].coords_spec(), worlds[j].coords_spec());
    assert(c[(i, j)] as int == jump_weight(worlds, coords, max_jump, ignore_xboat_routes, i, j));
    assert(c[(j, i)] as int == jump_weight(worlds, coords, max_jump, ignore_xboat_routes, j, i));
    lemma_jump_covers_line(worlds, coords, max_jump, ignore_xboat_routes, i, j);
    lemma_jump_covers_line(worlds, coords, max_jump, ignore_xboat_routes, j, i);
}

proof fn lemma_path_covers_line(
    c: Map<(int, int), u16>,
    worlds: Seq<World>,
    coords: Seq<Coords>,
    max_jump: int,
    ignore_xboat_routes: bool,
    p: Seq<int>,
)
    requires
        atlas_ok(worlds, coords),
        is_path(c, worlds.len() as int, p),
        forall|k: int| 0 <= k < worlds.len() ==> neighbors_within(#[trigger] worlds[k]),
        forall|a: int, b: int|
            0 <= a < worlds.len() && 0 <= b < worlds.len() ==> #[trigger] c[(a, b)] as int == jump_weight(
                worlds,
                coords,
                max_jump,
                ignore_xboat_routes,
                a,
                b,
            ),
    ensures
        path_weight(c, p) >= sld_spec(worlds[p[0]], worlds[p.last()]),
    decreases p.len(),
{
    let n = worlds.len() as int;
    if p.len() == 1 {
        lemma_hex_distance_symmetric(worlds[p[0]].coords_spec(), worlds[p[0]].coords_spec());
    } else {
        let q = p.drop_last();
        lemma_path_covers_line(c, worlds, coords, max_jump, ignore_xboat_routes, q);
        lemma_path_vertices(c, n, p);
        let a = p[0];
        let b = p[p.len() - 2];
        let e = p.last();
        assert(q[0] == a && q.last() == b);
        lemma_edge_covers_line(c, worlds, coords, max_jump, ignore_xboat_routes, b, e);
        lemma_located_on_grid(worlds[a]);
        lemma_located_on_grid(worlds[b]);
        lemma_located_on_grid(worlds[e]);
        lemma_hex_distance_triangle(worlds[a].coords_spec(), worlds[b].coords_spec(), worlds[e].coords_spec());
    }
}

/// The shortest jump distance between two worlds is never less than the
/// straight-line distance between them, when each world lists its
/// neighbors no farther than their jump.
pub proof fn lemma_navigation_covers_line(
    c: Map<(int, int), u16>,
    worlds: Seq<World>,
    coords: Seq<Coords>,
    max_jump: int,
    ignore_xboat_routes: bool,
    dist: Matrix,
    pred: Matrix,
)
    requires
        atlas_ok(worlds, coords),
        navigation_ok(c, worlds, coords, max_jump, ignore_xboat_routes, dist, pred),
        forall|k: int| 0 <= k < worlds.len() ==> neighbors_within(#[trigger] worlds[k]),
    ensures
        forall|i: int, j: int|
            0 <= i < worlds.len() && 0 <= j < worlds.len() ==> #[trigger] cells(dist)[(i, j)] >= sld_spec(worlds[i], worlds[j]),
{
    let n = worlds.len() as int;
    assert forall|i: int, j: int| 0 <= i < n && 0 <= j < n implies #[trigger] cells(dist)[(i, j)] >= sld_spec(
        worlds[i],
        worlds[j],
    ) by {
        let d = cells(dist)[(i, j)];
        assert(is_shortest(c, n, i, j, d as int));
        if d < INFINITY {
            let p = choose|p: Seq<int>| #[trigger] is_route(c, n, p, i, j) && path_weight(c, p) == d as int;
            lemma_path_covers_line(c, worlds, coords, max_jump, ignore_xboat_routes, p);
        }
    }
}

/// No coordinates are listed under two different jumps: what
/// `populate_neighbors` makes, where each neighbor is listed at its distance.
pub open spec fn neighbors_apart(w: World) -> bool {
    forall|j1: int, j2: int, c: Coords|
        0 <= j1 < j2 < w.neighbors@.len() && #[trigger] w.neighbors@[j1]@.contains(c) ==> !(#[trigger] w.neighbors@[j2]@.contains(c))
}

/// Lists of neighbors each at its distance list no coordinates twice.
pub proof fn lemma_exact_neighbors_apart(w: World)
    requires
        neighbors_exact(w),
    ensures
        neighbors_apart(w),
{
    assert forall|j1: int, j2: int, c: Coords|
        0 <= j1 < j2 < w.neighbors@.len() && #[trigger] w.neighbors@[j1]@.contains(c) implies !(#[trigger] w.neighbors@[j2]@.contains(c)) by {
        let t1 = choose|t: int| 0 <= t < w.neighbors@[j1]@.len() && w.neighbors@[j1]@[t] == c;
        assert(hex_distance(w.coords_spec(), w.neighbors@[j1]@[t1]) == j1);
        if w.neighbors@[j2]@.contains(c) {
            let t2 = choose|t: int| 0 <= t < w.neighbors@[j2]@.len() && w.neighbors@[j2]@[t] == c;
            assert(hex_distance(w.coords_spec(), w.neighbors@[j2]@[t2]) == j2);
        }
    }
}

proof fn lemma_last_jump_kept(w: World, c: Coords, j2: int, j3: int)
    requires
        neighbors_apart(w),
        last_jump(w, c, j2) != 0,
        j2 <= j3,
    ensures
        last_jump(w, c, j3) == last_jump(w, c, j2),
    decreases j3,
{
    if j3 > j2 {
        lemma_last_jump_kept(w, c, j2, j3 - 1);
        lemma_last_jump_listed(w, c, j2);
        let j1 = last_jump(w, c, j2);
        if j3 < w.neighbors@.len() && w.neighbors@[j3]@.contains(c) {
            assert(w.neighbors@[j1]@.contains(c));
            assert(!w.neighbors@[j3]@.contains(c));
        }
    }
}

proof fn lemma_walk_kept(c2: Map<(int, int), u16>, c3: Map<(int, int), u16>, n: int, p: Seq<int>)
    requires
        is_path(c2, n, p),
        forall|a: int, b: int| 0 <= a < n && 0 <= b < n && #[trigger] c2[(a, b)] != 0 ==> c3[(a, b)] == c2[(a, b)],
    ensures
        is_path(c3, n, p),
        path_weight(c3, p) <= path_weight(c2, p),
    decreases p.len(),
{
    if p.len() > 1 {
        let q = p.drop_last();
        lemma_walk_kept(c2, c3, n, q);
        lemma_path_vertices(c2, n, p);
        let a = p[p.len() - 2];
        let b = p.last();
        assert(c2[(a, b)] != 0 ==> c3[(a, b)] == c2[(a, b)]);
        assert(c2[(b, a)] != 0 ==> c3[(b, a)] == c2[(b, a)]);
        assert(edge_weight(c3, a, b) <= edge_weight(c2, a, b));
    }
}

/// A larger jump limit never makes a shortest distance longer, when no
/// world lists the same coordinates under two jumps.
pub proof fn lemma_longer_jumps_never_longer(
    c2: Map<(int, int), u16>,
    c3: Map<(int, int), u16>,
    worlds: Seq<World>,
    coords: Seq<Coords>,
    j2: int,
    j3: int,
    ignore_xboat_routes: bool,
    d2: Matrix,
    p2: Matrix,
    d3: Matrix,
    p3: Matrix,
)
    requires
        atlas_ok(worlds, coords),
        navigation_ok(c2, worlds, coords, j2, ignore_xboat_routes, d2, p2),
        navigation_ok(c3, worlds, coords, j3, ignore_xboat_routes, d3, p3),
        j2 <= j3,
        forall|k: int| 0 <= k < worlds.len() ==> neighbors_apart(#[trigger] worlds[k]),
    ensures
        forall|i: int, j: int|
            0 <= i < worlds.len() && 0 <= j < worlds.len() ==> #[trigger] cells(d3)[(i, j)] <= cells(d2)[(i, j)],
{
    let n = worlds.len() as int;
    assert forall|a: int, b: int| 0 <= a < n && 0 <= b < n && #[trigger] c2[(a, b)] != 0 implies c3[(a, b)] == c2[(a, b)] by {
        assert(c2[(a, b)] as int == jump_weight(worlds, coords, j2, ignore_xboat_routes, a, b));
        assert(c3[(a, b)] as int == jump_weight(worlds, coords, j3, ignore_xboat_routes, a, b));
        if !(!ignore_xboat_routes && worlds[a].xboat_routes@.contains(coords[b])) {
            lemma_last_jump_kept(worlds[a], coords[b], j2, j3);
        }
    }
    assert forall|i: int, j: int| 0 <= i < n && 0 <= j < n implies #[trigger] cells(d3)[(i, j)] <= cells(d2)[(i, j)] by {
        let x2 = cells(d2)[(i, j)];
        let x3 = cells(d3)[(i, j)];
        assert(is_shortest(c2, n, i, j, x2 as int));
        assert(is_shortest(c3, n, i, j, x3 as int));
        if x2 < INFINITY {
            let p = choose|p: Seq<int>| #[trigger] is_route(c2, n, p, i, j) && path_weight(c2, p) == x2 as int;
            lemma_walk_kept(c2, c3, n, p);
            assert(is_route(c3, n, p, i, j));
        }
    }
}

/// Writes world `ii`'s row of direct jump lengths into a row of zeros.
fn fill_row(
    np: &mut Matrix,
    ii: usize,
    worlds: &Vec<World>,
    coords: &Vec<Coords>,
    max_jump: u8,
    ignore_xboat_routes: bool,
)
    requires
        atlas_ok(worlds@, coords@),
        ii < worlds@.len(),
        shape(*old(np)) == (worlds@.len() as nat, worlds@.len() as nat),
        forall|j: int| 0 <= j < worlds@.len() ==> #[trigger] cells(*old(np))[(ii as int, j)] == 0,
        links_known(worlds@[ii as int], coords@, max_jump as int, ignore_xboat_routes),
    ensures
        shape(*final(np)) == shape(*old(np)),
        forall|i: int, j: int|
            0 <= i < worlds@.len() && 0 <= j < worlds@.len() && i != ii ==> #[trigger] cells(*final(np))[(i, j)] == cells(
                *old(np),
            )[(i, j)],
        forall|j: int|
            0 <= j < worlds@.len() ==> #[trigger] cells(*final(np))[(ii as int, j)] as int == jump_weight(
                worlds@,
                coords@,
                max_jump as int,
                ignore_xboat_routes,
                ii as int,
                j,
            ),
{
    let ghost n = worlds@.len() as int;
    let ghost i0 = ii as int;
    let world = &worlds[ii];
    let ghost w = *world;
    let mut jump: u16 = 1;
    while jump <= max_jump as u16
        invariant
            atlas_ok(worlds@, coords@),
            n == worlds@.len(),
            i0 == ii,
            ii < n,
            w == worlds@[i0],
            *world == w,
            links_known(w, coords@, max_jump as int, ignore_xboat_routes),
            1 <= jump <= max_jump + 1,
            shape(*np) == shape(*old(np)),
            shape(*np) == (n as nat, n as nat),
            forall|i: int, j: int| 0 <= i < n && 0 <= j < n && i != ii ==> #[trigger] cells(*np)[(i, j)] == cells(*old(np))[(i, j)],
            forall|j: int| 0 <= j < n ==> #[trigger] cells(*np)[(i0, j)] as int == last_jump(w, coords@[j], jump - 1),
        decreases max_jump + 1 - jump,
    {
        let list = &world.neighbors[jump as usize];
        let mut t: usize = 0;
        while t < list.len()
            invariant
                atlas_ok(worlds@, coords@),
                n == worlds@.len(),
                i0 == ii,
                ii < n,
                w == worlds@[i0],
                links_known(w, coords@, max_jump as int, ignore_xboat_routes),
                1 <= jump <= max_jump,
                *list == w.neighbors@[jump as int],
                t <= list@.len(),
                shape(*np) == shape(*old(np)),
                shape(*np) == (n as nat, n as nat),
            shape(*np) == (n as nat, n as nat),
                forall|i: int, j: int| 0 <= i < n && 0 <= j < n && i != ii ==> #[trigger] cells(*np)[(i, j)] == cells(*old(np))[(i, j)],
                forall|j: int| 0 <= j < n ==> #[trigger] cells(*np)[(i0, j)] as int == if list@.take(t as int).contains(coords@[j]) {
                    jump as int
                } else {
                    last_jump(w, coords@[j], jump - 1)
                },
            decreases list@.len() - t,
        {
            let c = list[t];
            assert(coords@.contains(w.neighbors@[jump as int]@[t as int]));
            let found = index_of(coords.as_slice(), c);
            let jj = found.unwrap();
            let ghost prev = cells(*np);
            np.set(ii, jj, jump);
            proof {
                assert forall|j: int| 0 <= j < n implies #[trigger] cells(*np)[(i0, j)] as int == if list@.take(t + 1).contains(coords@[j]) {
                    jump as int
                } else {
                    last_jump(w, coords@[j], jump - 1)
                } by {
                    assert(list@.take(t + 1) =~= list@.take(t as int).push(c));
                    vstd::seq_lib::lemma_seq_contains_after_push(list@.take(t as int), c, coords@[j]);
                    if j == jj {
                        assert(list@.take(t + 1)[t as int] == coords@[j]);
                    }
                    if j != jj {
                        assert(cells(*np)[(i0, j)] == prev[(i0, j)]);
                        if j < jj {
                            assert(crate::atlas::coords_lt(coords@[j], coords@[jj as int]));
                        } else {
                            assert(crate::atlas::coords_lt(coords@[jj as int], coords@[j]));
                        }
                    }
                }
            }
            t += 1;
        }
        proof {
            assert(list@.take(list@.len() as int) =~= list@);
        }
        jump += 1;
    }
    if !ignore_xboat_routes {
        let list = &world.xboat_routes;
        let mut t: usize = 0;
        while t < list.len()
            invariant
                atlas_ok(worlds@, coords@),
                n == worlds@.len(),
                i0 == ii,
                ii < n,
                w == worlds@[i0],
                !ignore_xboat_routes,
                *world == w,
                links_known(w, coords@, max_jump as int, ignore_xboat_routes),
                *list == w.xboat_routes,
                t <= list@.len(),
                shape(*np) == shape(*old(np)),
                shape(*np) == (n as nat, n as nat),
            shape(*np) == (n as nat, n as nat),
                forall|i: int, j: int| 0 <= i < n && 0 <= j < n && i != ii ==> #[trigger] cells(*np)[(i, j)] == cells(*old(np))[(i, j)],
                forall|j: int| 0 <= j < n ==> #[trigger] cells(*np)[(i0, j)] as int == if list@.take(t as int).contains(coords@[j]) {
                    sld_spec(w, worlds@[j])
                } else {
                    last_jump(w, coords@[j], max_jump as int)
                },
            decreases list@.len() - t,
        {
            let c = list[t];
            assert(coords@.contains(w.xboat_routes@[t as int]));
            let found = index_of(coords.as_slice(), c);
            let jj = found.unwrap();
            assert(worlds@[jj as int].locatable() && w.locatable());
            let sld = world.straight_line_distance(&worlds[jj]);
            let ghost prev = cells(*np);
            np.set(ii, jj, sld);
            proof {
                assert forall|j: int| 0 <= j < n implies #[trigger] cells(*np)[(i0, j)] as int == if list@.take(t + 1).contains(coords@[j]) {
                    sld_spec(w, worlds@[j])
                } else {
                    last_jump(w, coords@[j], max_jump as int)
                } by {
                    assert(list@.take(t + 1) =~= list@.take(t as int).push(c));
                    vstd::seq_lib::lemma_seq_contains_after_push(list@.take(t as int), c, coords@[j]);
                    if j == jj {
                        assert(list@.take(t + 1)[t as int] == coords@[j]);
                    }
                    if j != jj {
                        assert(cells(*np)[(i0, j)] == prev[(i0, j)]);
                        if j < jj {
                            assert(crate::atlas::coords_lt(coords@[j], coords@[jj as int]));
                        } else {
                            assert(crate::atlas::coords_lt(coords@[jj as int], coords@[j]));
                        }
                    }
                }
            }
            t += 1;
        }
        proof {
            assert(list@.take(list@.len() as int) =~= list@);
        }
    }
}

} // verus!

verus! {

/// `c` holds the direct jump lengths between the worlds of the map, and
/// `dist` and `pred` the shortest distances and predecessors over them.
pub open spec fn navigation_ok(
    c: Map<(int, int), u16>,
    worlds: Seq<World>,
    coords: Seq<Coords>,
    max_jump: int,
    ignore_xboat_routes: bool,
    dist: Matrix,
    pred: Matrix,
) -> bool {
    let n = worlds.len() as int;
    &&& forall|i: int, j: int|
        0 <= i < n && 0 <= j < n ==> #[trigger] c[(i, j)] as int == jump_weight(worlds, coords, max_jump, ignore_xboat_routes, i, j)
    &&& shape(dist) == (n as nat, n as nat)
    &&& shape(pred) == (n as nat, n as nat)
    &&& all_pairs_shortest(c, n, cells(dist), cells(pred))
}

/// The shortest jump distances between all worlds of the map, and the
/// predecessors along shortest routes: jumps go to neighbors up to
/// `max_jump` hexes away and, unless ignored, along xboat routes whatever
/// their length.
pub fn populate_navigable_distances(
    worlds: &Vec<World>,
    coords: &Vec<Coords>,
    max_jump: u8,
    ignore_xboat_routes: bool,
    alg: PathAlgorithm,
) -> (r: (Matrix, Matrix))
    requires
        atlas_ok(worlds@, coords@),
        worlds@.len() < 65535,
        worlds@.len() * worlds@.len() * 2 <= isize::MAX,
        forall|k: int| 0 <= k < worlds@.len() ==> links_known(#[trigger] worlds@[k], coords@, max_jump as int, ignore_xboat_routes),
    ensures
        exists|c: Map<(int, int), u16>| #[trigger] navigation_ok(c, worlds@, coords@, max_jump as int, ignore_xboat_routes, r.0, r.1),
{
    let n = worlds.len();
    let mut np = Matrix::from_elem(n, n, 0);
    let mut ii: usize = 0;
    while ii < n
        invariant
            n == worlds@.len(),
            atlas_ok(worlds@, coords@),
            forall|k: int| 0 <= k < worlds@.len() ==> links_known(#[trigger] worlds@[k], coords@, max_jump as int, ignore_xboat_routes),
            ii <= n,
            shape(np) == (n as nat, n as nat),
            forall|i: int, j: int| ii <= i < n && 0 <= j < n ==> #[trigger] cells(np)[(i, j)] == 0,
            forall|i: int, j: int|
                0 <= i < ii && 0 <= j < n ==> #[trigger] cells(np)[(i, j)] as int == jump_weight(
                    worlds@,
                    coords@,
                    max_jump as int,
                    ignore_xboat_routes,
                    i,
                    j,
                ),
        decreases n - ii,
    {
        fill_row(&mut np, ii, worlds, coords, max_jump, ignore_xboat_routes);
        ii += 1;
    }
    let ghost c = cells(np);
    let pred = shortest_path(&mut np, alg);
    let r = (np, pred);
    assert(navigation_ok(c, worlds@, coords@, max_jump as int, ignore_xboat_routes, r.0, r.1));
    r
}

} // verus!

verus! {

/// The walk from `cur` towards `t` that steps to the predecessor of each
/// vertex on a shortest route from `t`, for at most `fuel` steps.
pub open spec fn pred_walk(pr: Map<(int, int), u16>, t: int, cur: int, fuel: nat) -> Seq<int>
    decreases fuel,
{
    if fuel == 0 || cur == t {
        seq![cur]
    } else {
        seq![cur] + pred_walk(pr, t, pr[(t, cur)] as int, (fuel - 1) as nat)
    }
}

/// The coordinates of a sequence of world positions.
pub open spec fn coords_path(sorted: Seq<Coords>, q: Seq<int>) -> Seq<Coords> {
    q.map_values(|k: int| sorted[k])
}

/// Two worlds are told apart by hex label and name.
pub open spec fn same_world(a: World, b: World) -> bool {
    a.hex@ == b.hex@ && a.name@ == b.name@
}

proof fn lemma_walk_route(
    c: Map<(int, int), u16>,
    n: int,
    d: Map<(int, int), u16>,
    p: Map<(int, int), u16>,
    t: int,
    cur: int,
    fuel: nat,
)
    requires
        all_pairs_shortest(c, n, d, p),
        0 <= t < n,
        0 <= cur < n,
        d[(t, cur)] < INFINITY,
        fuel >= d[(t, cur)],
    ensures
        is_route(c, n, pred_walk(p, t, cur, fuel), cur, t),
        path_weight(c, pred_walk(p, t, cur, fuel)) == d[(t, cur)],
    decreases d[(t, cur)],
{
    lemma_shortest_symmetric(c, n, d, p);
    if cur == t {
        lemma_trivial_route(c, n, t);
        assert(pred_walk(p, t, cur, fuel) =~= seq![t]);
    } else {
        assert(is_pred(c, n, t, cur, |x: int| d[(t, x)] as int, p[(t, cur)] as int));
        let pr = p[(t, cur)] as int;
        lemma_edge_weight_bounds(c, pr, cur);
        lemma_walk_route(c, n, d, p, t, pr, (fuel - 1) as nat);
        let rest = pred_walk(p, t, pr, (fuel - 1) as nat);
        lemma_edge_route(c, n, cur, pr);
        lemma_path_concat(c, n, seq![cur, pr], rest);
        assert(seq![cur, pr] + rest.skip(1) =~= seq![cur] + rest);
    }
}

/// Following predecessors never stays in place, and never leaves the map.
pub(crate) proof fn lemma_walk_steps(
    c: Map<(int, int), u16>,
    n: int,
    d: Map<(int, int), u16>,
    p: Map<(int, int), u16>,
    t: int,
    cur: int,
    fuel: nat,
)
    requires
        all_pairs_shortest(c, n, d, p),
        0 <= t < n,
        0 <= cur < n,
        d[(t, cur)] < INFINITY,
    ensures
        forall|k: int| 0 <= k < pred_walk(p, t, cur, fuel).len() ==> 0 <= #[trigger] pred_walk(p, t, cur, fuel)[k] < n,
        forall|k: int|
            0 <= k < pred_walk(p, t, cur, fuel).len() - 1 ==> #[trigger] pred_walk(p, t, cur, fuel)[k] != pred_walk(p, t, cur, fuel)[k
                + 1],
    decreases fuel,
{
    if !(fuel == 0 || cur == t) {
        assert(is_shortest(c, n, t, cur, d[(t, cur)] as int));
        assert(is_pred(c, n, t, cur, |x: int| d[(t, x)] as int, p[(t, cur)] as int));
        let pr = p[(t, cur)] as int;
        lemma_edge_weight_bounds(c, pr, cur);
        lemma_walk_steps(c, n, d, p, t, pr, (fuel - 1) as nat);
        let rest = pred_walk(p, t, pr, (fuel - 1) as nat);
        let walk = pred_walk(p, t, cur, fuel);
        assert(walk == seq![cur] + rest);
        assert(rest[0] == pr);
        assert forall|k: int| 0 <= k < walk.len() implies 0 <= #[trigger] walk[k] < n by {
            if k > 0 {
                assert(walk[k] == rest[k - 1]);
            }
        }
        assert forall|k: int| 0 <= k < walk.len() - 1 implies #[trigger] walk[k] != walk[k + 1] by {
            if k > 0 {
                assert(walk[k] == rest[k - 1]);
                assert(walk[k + 1] == rest[k]);
            }
        }
    }
}

/// The stops of a route between two worlds follow one another without
/// repeating a stop in place.
pub(crate) proof fn lemma_path_spec_steps(w: World, other: World, sorted: Seq<Coords>, dist: Matrix, pred: Matrix, c: Map<(int, int), u16>)
    requires
        all_pairs_shortest(c, sorted.len() as int, cells(dist), cells(pred)),
        coords_sorted(sorted),
        w.index is Some,
        other.index is Some,
        w.index->0 < sorted.len(),
        other.index->0 < sorted.len(),
    ensures
        w.path_spec(other, sorted, dist, pred) matches Some(q) ==> forall|k: int|
            0 <= k < q.len() - 1 ==> #[trigger] q[k] != q[k + 1],
{
    let n = sorted.len() as int;
    let i = w.index->0 as int;
    let j = other.index->0 as int;
    if !same_world(w, other) && cells(dist)[(i, j)] != INFINITY {
        lemma_shortest_symmetric(c, n, cells(dist), cells(pred));
        assert(cells(dist)[(j, i)] == cells(dist)[(i, j)]);
        lemma_walk_steps(c, n, cells(dist), cells(pred), j, i, INFINITY as nat);
        let walk = pred_walk(cells(pred), j, i, INFINITY as nat);
        let q = coords_path(sorted, walk);
        assert forall|k: int| 0 <= k < q.len() - 1 implies #[trigger] q[k] != q[k + 1] by {
            let a = walk[k];
            let b = walk[k + 1];
            assert(0 <= a < n && 0 <= b < n && a != b);
            if a < b {
                assert(coords_lt(sorted[a], sorted[b]));
            } else {
                assert(coords_lt(sorted[b], sorted[a]));
            }
        }
    }
}

/// Following predecessors from `i` to `t` walks a shortest route between
/// them: whatever jump lengths the distances and predecessors were computed
/// from, the walk uses only existing jumps and its length is the shortest
/// distance.
pub proof fn lemma_pred_walk_shortest(
    c: Map<(int, int), u16>,
    n: int,
    d: Map<(int, int), u16>,
    p: Map<(int, int), u16>,
    i: int,
    t: int,
)
    requires
        all_pairs_shortest(c, n, d, p),
        0 <= i < n,
        0 <= t < n,
        d[(i, t)] < INFINITY,
    ensures
        is_route(c, n, pred_walk(p, t, i, INFINITY as nat), i, t),
        path_weight(c, pred_walk(p, t, i, INFINITY as nat)) == d[(i, t)],
        is_shortest(c, n, i, t, path_weight(c, pred_walk(p, t, i, INFINITY as nat))),
{
    lemma_shortest_symmetric(c, n, d, p);
    lemma_walk_route(c, n, d, p, t, i, INFINITY as nat);
}

impl World {
    /// What `navigable_path` returns: this world alone when `other` is the
    /// same world; nothing when it cannot be reached; else the walk along
    /// predecessors from this world to `other`.
    pub open spec fn path_spec(&self, other: World, sorted_coords: Seq<Coords>, dist: Matrix, pred: Matrix) -> Option<Seq<Coords>> {
        if same_world(*self, other) {
            Some(seq![self.coords_spec()])
        } else if cells(dist)[(self.index->0 as int, other.index->0 as int)] == INFINITY {
            None
        } else {
            Some(coords_path(sorted_coords, pred_walk(cells(pred), other.index->0 as int, self.index->0 as int, INFINITY as nat)))
        }
    }

    /// The jumps from this world to `other` along a shortest route, as the
    /// coordinates of each stop, both ends included; `None` when `other`
    /// cannot be reached.
    pub fn navigable_path(&self, other: &World, sorted_coords: &Vec<Coords>, dist: &Matrix, pred: &Matrix) -> (r: Option<Vec<Coords>>)
        requires
            coords_sorted(sorted_coords@),
            self.index is Some,
            other.index is Some,
            self.index->0 < sorted_coords@.len(),
            other.index->0 < sorted_coords@.len(),
            self.locatable(),
            other.locatable(),
            sorted_coords@[self.index->0 as int] == self.coords_spec(),
            sorted_coords@[other.index->0 as int] == other.coords_spec(),
            self.index == other.index ==> same_world(*self, *other),
            shape(*dist) == (sorted_coords@.len(), sorted_coords@.len()),
            shape(*pred) == (sorted_coords@.len(), sorted_coords@.len()),
            exists|c: Map<(int, int), u16>| all_pairs_shortest(c, sorted_coords@.len() as int, cells(*dist), cells(*pred)),
        ensures
            same_world(*self, *other) ==> r is Some && r->0@ == seq![self.coords_spec()],
            !same_world(*self, *other) ==> (r is None <==> cells(*dist)[(self.index->0 as int, other.index->0 as int)] == INFINITY),
            !same_world(*self, *other) && r is Some ==> r->0@ == coords_path(
                sorted_coords@,
                pred_walk(cells(*pred), other.index->0 as int, self.index->0 as int, INFINITY as nat),
            ),
            match r {
                Some(v) => self.path_spec(*other, sorted_coords@, *dist, *pred) == Some(v@),
                None => self.path_spec(*other, sorted_coords@, *dist, *pred) is None,
            },
    {
        if self.hex == other.hex && self.name == other.name {
            return Some(vec![self.get_coords()]);
        }
        let ghost n = sorted_coords@.len() as int;
        let ghost c = choose|c: Map<(int, int), u16>| all_pairs_shortest(c, n, cells(*dist), cells(*pred));
        let ghost dd = cells(*dist);
        let ghost pp = cells(*pred);
        let ghost i = self.index->0 as int;
        let ghost t = other.index->0 as int;
        if self.navigable_distance(other, dist) == INFINITY {
            return None;
        }
        proof {
            lemma_shortest_symmetric(c, n, dd, pp);
        }
        let target = other.get_coords();
        let tt = other.index.unwrap();
        let start = self.get_coords();
        let mut path: Vec<Coords> = vec![start];
        let mut coords2 = start;
        let ghost mut cur: int = i;
        let ghost mut q: Seq<int> = seq![i];
        proof {
            assert(path@ =~= coords_path(sorted_coords@, q));
            assert(pred_walk(pp, t, i, INFINITY as nat) =~= q.drop_last() + pred_walk(pp, t, cur, INFINITY as nat));
        }
        loop
            invariant_except_break
                coords_sorted(sorted_coords@),
                n == sorted_coords@.len(),
                all_pairs_shortest(c, n, dd, pp),
                dd == cells(*dist),
                pp == cells(*pred),
                shape(*pred) == (n as nat, n as nat),
                0 <= t < n,
                tt == t,
                target == sorted_coords@[t],
                0 <= cur < n,
                cur != t,
                coords2 == sorted_coords@[cur],
                dd[(t, cur)] < INFINITY,
                q.len() >= 1,
                q.last() == cur,
                q.len() - 1 + dd[(t, cur)] <= dd[(t, i)],
                dd[(t, i)] < INFINITY,
                path@ == coords_path(sorted_coords@, q),
                pred_walk(pp, t, i, INFINITY as nat) == q.drop_last() + pred_walk(pp, t, cur, (INFINITY - (q.len() - 1)) as nat),
            ensures
                path@ == coords_path(sorted_coords@, pred_walk(pp, t, i, INFINITY as nat)),
            decreases dd[(t, cur)],
        {
            let jj = index_of(sorted_coords.as_slice(), coords2).unwrap();
            proof {
                if jj != cur {
                    if jj < cur {
                        assert(crate::atlas::coords_lt(sorted_coords@[jj as int], sorted_coords@[cur]));
                    } else {
                        assert(crate::atlas::coords_lt(sorted_coords@[cur], sorted_coords@[jj as int]));
                    }
                }
                assert(is_pred(c, n, t, cur, |x: int| dd[(t, x)] as int, pp[(t, cur)] as int));
                lemma_edge_weight_bounds(c, pp[(t, cur)] as int, cur);
            }
            let index = pred.get(tt, jj);
            coords2 = sorted_coords[index as usize];
            path.push(coords2);
            let ghost f = (INFINITY - (q.len() - 1)) as nat;
            proof {
                assert(pred_walk(pp, t, cur, f) == seq![cur] + pred_walk(pp, t, index as int, (f - 1) as nat));
                assert(q.drop_last() + (seq![cur] + pred_walk(pp, t, index as int, (f - 1) as nat)) =~= q + pred_walk(pp, t, index as int, (f - 1) as nat));
                q = q.push(index as int);
                assert(path@ =~= coords_path(sorted_coords@, q));
            }
            if coords2 == target {
                proof {
                    if index as int != t {
                        if (index as int) < t {
                            assert(crate::atlas::coords_lt(sorted_coords@[index as int], sorted_coords@[t]));
                        } else {
                            assert(crate::atlas::coords_lt(sorted_coords@[t], sorted_coords@[index as int]));
                        }
                    }
                    assert(pred_walk(pp, t, t, (f - 1) as nat) == seq![t]);
                    assert(q.drop_last() + seq![t] =~= q);
                }
                break;
            }
            proof {
                assert(q.drop_last() + pred_walk(pp, t, index as int, (f - 1) as nat) =~= q.drop_last().drop_last() + (seq![cur] + pred_walk(pp, t, index as int, (f - 1) as nat)));
                cur = index as int;
            }
        }
        Some(path)
    }
}

} // verus!
