use vstd::prelude::*;
use crate::atlas::{atlas_ok, coords_lt, coords_sorted, index_of, indexed};
use crate::coords::Coords;
use crate::grid::{cells, shape, Matrix};
use crate::apsp::INFINITY;
use crate::navigation::{
    coords_path, lemma_pred_walk_shortest, links_known, navigation_ok, populate_navigable_distances, pred_walk, same_world, PathAlgorithm,
};
use crate::paths::{all_pairs_shortest, lemma_path_vertices};
use crate::tables::{credits_table, dbtn_to_credits, find_max_allowed_jump, max_allowed_jump_spec};
use crate::world::World;

verus! {

/// The shortest distances and predecessors of the map for one jump limit.
pub struct JumpTable {
    pub jump: u8,
    pub dist: Matrix,
    pub pred: Matrix,
}

/// Each table covers the `n` worlds of the map with shortest distances and
/// predecessors, and no two tables are for the same jump limit.
pub open spec fn tables_ok(tables: Seq<JumpTable>, n: int) -> bool {
    &&& forall|k: int|
        0 <= k < tables.len() ==> {
            &&& shape((#[trigger] tables[k]).dist) == (n as nat, n as nat)
            &&& shape(tables[k].pred) == (n as nat, n as nat)
            &&& exists|c: Map<(int, int), u16>| all_pairs_shortest(c, n, cells(tables[k].dist), cells(tables[k].pred))
        }
    &&& forall|a: int, b: int| 0 <= a < b < tables.len() ==> (#[trigger] tables[a]).jump != (#[trigger] tables[b]).jump
}

pub open spec fn has_table(tables: Seq<JumpTable>, j: u8) -> bool {
    exists|k: int| 0 <= k < tables.len() && (#[trigger] tables[k]).jump == j
}

/// The table for jump limit `j`.
pub open spec fn table_of(tables: Seq<JumpTable>, j: u8) -> JumpTable {
    tables[choose|k: int| 0 <= k < tables.len() && (#[trigger] tables[k]).jump == j]
}

pub fn table_for(tables: &Vec<JumpTable>, j: u8) -> (r: &JumpTable)
    requires
        has_table(tables@, j),
        forall|a: int, b: int| 0 <= a < b < tables@.len() ==> (#[trigger] tables@[a]).jump != (#[trigger] tables@[b]).jump,
    ensures
        *r == table_of(tables@, j),
{
    let ghost k0 = choose|k: int| 0 <= k < tables@.len() && (#[trigger] tables@[k]).jump == j;
    let mut k: usize = 0;
    while k < tables.len()
        invariant
            0 <= k0 < tables@.len(),
            tables@[k0].jump == j,
            k <= k0,
            forall|a: int, b: int| 0 <= a < b < tables@.len() ==> (#[trigger] tables@[a]).jump != (#[trigger] tables@[b]).jump,
        decreases tables@.len() - k,
    {
        if tables[k].jump == j {
            proof {
                if (k as int) < k0 {
                    assert(tables@[k as int].jump != tables@[k0].jump);
                }
            }
            return &tables[k];
        }
        k += 1;
    }
    &tables[k]
}

fn contains_jump(max_jumps: &[u8], j: u8) -> (r: bool)
    ensures
        r == max_jumps@.contains(j),
{
    let mut i: usize = 0;
    while i < max_jumps.len()
        invariant
            i <= max_jumps@.len(),
            forall|k: int| 0 <= k < i ==> max_jumps@[k] != j,
        decreases max_jumps@.len() - i,
    {
        if max_jumps[i] == j {
            return true;
        }
        i += 1;
    }
    false
}

/// What the route search reads besides the world it starts from.
pub struct RouteContext {
    pub sorted: Seq<Coords>,
    pub worlds: Seq<World>,
    pub tables: Seq<JumpTable>,
    pub max_jumps: Seq<u8>,
    pub min_route_dbtn: i64,
}

impl RouteContext {
    /// The map is well formed, every jump limit has its table, and so on.
    pub open spec fn ready(self) -> bool {
        &&& atlas_ok(self.worlds, self.sorted)
        &&& indexed(self.worlds)
        &&& self.sorted.len() <= usize::MAX
        &&& self.max_jumps.len() >= 6
        &&& tables_ok(self.tables, self.sorted.len() as int)
        &&& forall|k: int| 0 <= k < self.max_jumps.len() ==> has_table(self.tables, #[trigger] self.max_jumps[k])
    }

    /// The position of coordinates in the map.
    pub open spec fn position(self, c: Coords) -> int {
        choose|k: int| 0 <= k < self.sorted.len() && self.sorted[k] == c
    }

    pub open spec fn world_at(self, c: Coords) -> World {
        self.worlds[self.position(c)]
    }
}

impl World {
    /// The shortest of the routes to `other` under the jump limits of
    /// `max_jumps` up to `allowed`, trying them from the smallest limit up
    /// and taking a longer limit only where it saves a jump; empty if there is
    /// none. Only limits below `v` are tried.
    pub open spec fn best_path_upto(&self, other: World, cx: RouteContext, allowed: u8, v: int) -> Seq<Coords>
        decreases v,
    {
        if v <= 0 {
            Seq::empty()
        } else {
            let prev = self.best_path_upto(other, cx, allowed, v - 1);
            let j = (v - 1) as u8;
            if j <= allowed && cx.max_jumps.contains(j) {
                match self.path_spec(other, cx.sorted, table_of(cx.tables, j).dist, table_of(cx.tables, j).pred) {
                    Some(p) => if prev.len() == 0 || p.len() < prev.len() {
                        p
                    } else {
                        prev
                    },
                    None => prev,
                }
            } else {
                prev
            }
        }
    }

    /// A world of the map, at its place and with its position as index.
    pub open spec fn placed_in(&self, cx: RouteContext) -> bool {
        &&& self.index is Some
        &&& self.index->0 < cx.worlds.len()
        &&& cx.worlds[self.index->0 as int] == *self
    }

    fn best_route(&self, other: &World, sorted: &Vec<Coords>, tables: &Vec<JumpTable>, max_jumps: &[u8], allowed: u8, Ghost(cx): Ghost<RouteContext>) -> (p: Vec<Coords>)
        requires
            cx.ready(),
            cx.sorted == sorted@,
            cx.tables == tables@,
            cx.max_jumps == max_jumps@,
            self.placed_in(cx),
            other.placed_in(cx),
        ensures
            p@ == self.best_path_upto(*other, cx, allowed, 256),
    {
        let ghost n = sorted@.len() as int;
        proof {
            assert(cx.worlds[self.index->0 as int].locatable());
            assert(cx.worlds[other.index->0 as int].locatable());
        }
        let mut path: Vec<Coords> = Vec::new();
        let mut v: u16 = 0;
        while v < 256
            invariant
                cx.ready(),
                cx.sorted == sorted@,
                cx.tables == tables@,
                cx.max_jumps == max_jumps@,
                self.placed_in(cx),
                other.placed_in(cx),
                self.locatable(),
                other.locatable(),
                v <= 256,
                n == sorted@.len(),
                path@ == self.best_path_upto(*other, cx, allowed, v as int),
            decreases 256 - v,
        {
            let j = v as u8;
            if j <= allowed && contains_jump(max_jumps, j) {
                proof {
                    let k = choose|k: int| 0 <= k < max_jumps@.len() && max_jumps@[k] == j;
                    assert(has_table(tables@, max_jumps@[k]));
                }
                let t = table_for(tables, j);
                proof {
                    let k = choose|k: int| 0 <= k < tables@.len() && (#[trigger] tables@[k]).jump == j;
                    assert(tables@[k] == *t);
                    assert(exists|c: Map<(int, int), u16>| all_pairs_shortest(c, n, cells(tables@[k].dist), cells(tables@[k].pred)));
                    if self.index == other.index {
                        assert(*self == *other);
                    }
                }
                if let Some(candidate) = self.navigable_path(other, sorted, &t.dist, &t.pred) {
                    if path.len() == 0 || candidate.len() < path.len() {
                        path = candidate;
                    }
                }
            }
            v += 1;
        }
        path
    }
}

} // verus!

verus! {

/// The best route between two worlds under the jump limits below `v` up to
/// `allowed`: where it is not empty, it is the route that the jump table of
/// one of those limits gives; where no such table connects the two worlds,
/// there is none.
pub proof fn law_best_path_allowed(w: World, o: World, cx: RouteContext, allowed: u8, v: int)
    requires
        0 <= v <= 256,
    ensures
        w.best_path_upto(o, cx, allowed, v).len() > 0 ==> exists|j: u8|
            #![trigger table_of(cx.tables, j)]
            j < v && j <= allowed && cx.max_jumps.contains(j) && w.path_spec(
                o,
                cx.sorted,
                table_of(cx.tables, j).dist,
                table_of(cx.tables, j).pred,
            ) == Some(w.best_path_upto(o, cx, allowed, v)),
        (forall|j: u8|
            #![trigger table_of(cx.tables, j)]
            j < v && j <= allowed && cx.max_jumps.contains(j) ==> w.path_spec(
                o,
                cx.sorted,
                table_of(cx.tables, j).dist,
                table_of(cx.tables, j).pred,
            ) is None) ==> w.best_path_upto(o, cx, allowed, v).len() == 0,
        forall|j: u8|
            #![trigger table_of(cx.tables, j)]
            j < v && j <= allowed && cx.max_jumps.contains(j) && w.path_spec(
                o,
                cx.sorted,
                table_of(cx.tables, j).dist,
                table_of(cx.tables, j).pred,
            ) is Some ==> 0 < w.best_path_upto(o, cx, allowed, v).len() <= w.path_spec(
                o,
                cx.sorted,
                table_of(cx.tables, j).dist,
                table_of(cx.tables, j).pred,
            )->0.len(),
    decreases v,
{
    if v > 0 {
        law_best_path_allowed(w, o, cx, allowed, v - 1);
        let j = (v - 1) as u8;
        assert(j == v - 1);
        let t = table_of(cx.tables, j);
        let prev = w.best_path_upto(o, cx, allowed, v - 1);
        lemma_path_spec_nonempty(w, o, cx.sorted, t.dist, t.pred);
        if w.best_path_upto(o, cx, allowed, v).len() > 0 && w.best_path_upto(o, cx, allowed, v) != prev {
            assert(j <= allowed && cx.max_jumps.contains(j));
            assert(w.path_spec(o, cx.sorted, t.dist, t.pred) == Some(w.best_path_upto(o, cx, allowed, v)));
        }
        if (forall|j2: u8|
            #![trigger table_of(cx.tables, j2)]
            j2 < v && j2 <= allowed && cx.max_jumps.contains(j2) ==> w.path_spec(
                o,
                cx.sorted,
                table_of(cx.tables, j2).dist,
                table_of(cx.tables, j2).pred,
            ) is None) {
            assert(j <= allowed && cx.max_jumps.contains(j) ==> w.path_spec(o, cx.sorted, t.dist, t.pred) is None);
        }
    }
}

proof fn lemma_path_spec_nonempty(w: World, o: World, sorted: Seq<Coords>, dist: Matrix, pred: Matrix)
    ensures
        w.path_spec(o, sorted, dist, pred) matches Some(p) ==> p.len() >= 1,
{
    if !same_world(w, o) && cells(dist)[(w.index->0 as int, o.index->0 as int)] != INFINITY {
        let q = pred_walk(cells(pred), o.index->0 as int, w.index->0 as int, INFINITY as nat);
        assert(q.len() >= 1);
    }
}

/// The route of a trade of doubled BTN `b` keeps to the jump limit of its
/// route class: where it is not empty, the jump table of a limit among the
/// jump limits and no more than the class allows gives it; where no such
/// table connects the two worlds, the trade has no route and puts no credits
/// on any jump or stop.
pub proof fn law_trade_route_allowed(w: World, cx: RouteContext, b: int, c: Coords)
    ensures
        ({
            let allowed = max_allowed_jump_spec(credits_table()[b], cx.max_jumps, cx.min_route_dbtn);
            let route = w.trade_route(cx, b, c);
            &&& route.len() > 0 ==> exists|j: u8|
                #![trigger table_of(cx.tables, j)]
                j <= allowed && cx.max_jumps.contains(j) && w.path_spec(
                    cx.world_at(c),
                    cx.sorted,
                    table_of(cx.tables, j).dist,
                    table_of(cx.tables, j).pred,
                ) == Some(route)
            &&& (forall|j: u8|
                #![trigger table_of(cx.tables, j)]
                j <= allowed && cx.max_jumps.contains(j) ==> w.path_spec(
                    cx.world_at(c),
                    cx.sorted,
                    table_of(cx.tables, j).dist,
                    table_of(cx.tables, j).pred,
                ) is None) ==> route.len() == 0 && edge_credits(route, credits_table()[b]).len() == 0 && transit_credits(
                route,
                credits_table()[b],
            ).len() == 0
        }),
{
    let allowed = max_allowed_jump_spec(credits_table()[b], cx.max_jumps, cx.min_route_dbtn);
    law_best_path_allowed(w, cx.world_at(c), cx, allowed, 256);
}

/// The two ends of a jump, the lower coordinates first.
pub open spec fn ordered_pair(a: Coords, b: Coords) -> (Coords, Coords) {
    if coords_lt(a, b) || a == b {
        (a, b)
    } else {
        (b, a)
    }
}

/// The credits that a route carries over each of its jumps.
pub open spec fn edge_credits(p: Seq<Coords>, credits: u64) -> Seq<(Coords, Coords, u64)> {
    if p.len() >= 2 {
        Seq::new(
            (p.len() - 1) as nat,
            |k: int|
                {
                    let e = ordered_pair(p[k], p[k + 1]);
                    (e.0, e.1, credits)
                },
        )
    } else {
        Seq::empty()
    }
}

/// The credits that a route leaves at the stops between its ends: every
/// stop but the first and the last.
pub open spec fn transit_credits(p: Seq<Coords>, credits: u64) -> Seq<(Coords, u64)> {
    if p.len() >= 3 {
        Seq::new((p.len() - 2) as nat, |k: int| (p[k + 1], credits))
    } else {
        Seq::empty()
    }
}

impl World {
    /// The route of the trade with the world at `c`, whose doubled BTN is `b`.
    pub open spec fn trade_route(&self, cx: RouteContext, b: int, c: Coords) -> Seq<Coords> {
        let allowed = max_allowed_jump_spec(credits_table()[b], cx.max_jumps, cx.min_route_dbtn);
        self.best_path_upto(cx.world_at(c), cx, allowed, 256)
    }

    /// The jump credits of the trade with the first `t` worlds of bucket `b`.
    pub open spec fn bucket_edges(&self, cx: RouteContext, b: int, t: int) -> Seq<(Coords, Coords, u64)>
        decreases t,
    {
        if t <= 0 {
            Seq::empty()
        } else {
            self.bucket_edges(cx, b, t - 1) + edge_credits(self.trade_route(cx, b, self.dbtn_to_coords@[b]@[t - 1]), credits_table()[b])
        }
    }

    /// The transit credits of the trade with the first `t` worlds of bucket `b`.
    pub open spec fn bucket_transits(&self, cx: RouteContext, b: int, t: int) -> Seq<(Coords, u64)>
        decreases t,
    {
        if t <= 0 {
            Seq::empty()
        } else {
            self.bucket_transits(cx, b, t - 1) + transit_credits(
                self.trade_route(cx, b, self.dbtn_to_coords@[b]@[t - 1]),
                credits_table()[b],
            )
        }
    }

    /// The jump credits of the trade in the first `b` buckets.
    pub open spec fn route_edges(&self, cx: RouteContext, b: int) -> Seq<(Coords, Coords, u64)>
        decreases b,
    {
        if b <= 0 {
            Seq::empty()
        } else {
            self.route_edges(cx, b - 1) + self.bucket_edges(cx, b - 1, self.dbtn_to_coords@[b - 1]@.len() as int)
        }
    }

    /// The transit credits of the trade in the first `b` buckets.
    pub open spec fn route_transits(&self, cx: RouteContext, b: int) -> Seq<(Coords, u64)>
        decreases b,
    {
        if b <= 0 {
            Seq::empty()
        } else {
            self.route_transits(cx, b - 1) + self.bucket_transits(cx, b - 1, self.dbtn_to_coords@[b - 1]@.len() as int)
        }
    }

    /// Every world that this one trades with belongs to the map.
    pub open spec fn partners_known(&self, sorted: Seq<Coords>) -> bool {
        &&& self.dbtn_to_coords@.len() <= credits_table().len()
        &&& forall|b: int, t: int|
            0 <= b < self.dbtn_to_coords@.len() && 0 <= t < self.dbtn_to_coords@[b]@.len() ==> sorted.contains(
                #[trigger] self.dbtn_to_coords@[b]@[t],
            )
    }

    /// The trade of this world along its routes: for each world it trades
    /// with (by doubled BTN), the shortest route that the trade's class may
    /// use; each jump of it carries the trade's credits, and so does each
    /// stop between its two ends.
    pub fn find_route_paths(
        &self,
        sorted_coords: &Vec<Coords>,
        worlds: &Vec<World>,
        max_jumps: &[u8],
        min_route_dbtn: i64,
        tables: &Vec<JumpTable>,
    ) -> (r: (Vec<(Coords, Coords, u64)>, Vec<(Coords, u64)>))
        requires
            ({
                let cx = RouteContext {
                    sorted: sorted_coords@,
                    worlds: worlds@,
                    tables: tables@,
                    max_jumps: max_jumps@,
                    min_route_dbtn,
                };
                &&& cx.ready()
                &&& self.placed_in(cx)
            }),
            self.partners_known(sorted_coords@),
        ensures
            ({
                let cx = RouteContext {
                    sorted: sorted_coords@,
                    worlds: worlds@,
                    tables: tables@,
                    max_jumps: max_jumps@,
                    min_route_dbtn,
                };
                &&& r.0@ == self.route_edges(cx, self.dbtn_to_coords@.len() as int)
                &&& r.1@ == self.route_transits(cx, self.dbtn_to_coords@.len() as int)
            }),
    {
        let ghost cx = RouteContext {
            sorted: sorted_coords@,
            worlds: worlds@,
            tables: tables@,
            max_jumps: max_jumps@,
            min_route_dbtn,
        };
        let credits_of = dbtn_to_credits();
        let mut edges: Vec<(Coords, Coords, u64)> = Vec::new();
        let mut transits: Vec<(Coords, u64)> = Vec::new();
        let mut b: usize = 0;
        while b < self.dbtn_to_coords.len()
            invariant
                cx.ready(),
                cx == (RouteContext { sorted: sorted_coords@, worlds: worlds@, tables: tables@, max_jumps: max_jumps@, min_route_dbtn }),
                self.placed_in(cx),
                self.partners_known(sorted_coords@),
                credits_of@ == credits_table(),
                b <= self.dbtn_to_coords@.len(),
                edges@ == self.route_edges(cx, b as int),
                transits@ == self.route_transits(cx, b as int),
            decreases self.dbtn_to_coords@.len() - b,
        {
            let credits = credits_of[b];
            let allowed = find_max_allowed_jump(credits, max_jumps, min_route_dbtn);
            let bucket = &self.dbtn_to_coords[b];
            let ghost e0 = edges@;
            let ghost t0 = transits@;
            let mut t: usize = 0;
            while t < bucket.len()
                invariant
                    cx.ready(),
                    cx == (RouteContext { sorted: sorted_coords@, worlds: worlds@, tables: tables@, max_jumps: max_jumps@, min_route_dbtn }),
                    self.placed_in(cx),
                    self.partners_known(sorted_coords@),
                    b < self.dbtn_to_coords@.len(),
                    *bucket == self.dbtn_to_coords@[b as int],
                    credits == credits_table()[b as int],
                    allowed == max_allowed_jump_spec(credits, max_jumps@, min_route_dbtn),
                    t <= bucket@.len(),
                    e0 == self.route_edges(cx, b as int),
                    t0 == self.route_transits(cx, b as int),
                    edges@ == e0 + self.bucket_edges(cx, b as int, t as int),
                    transits@ == t0 + self.bucket_transits(cx, b as int, t as int),
                decreases bucket@.len() - t,
            {
                let coords2 = bucket[t];
                assert(sorted_coords@.contains(self.dbtn_to_coords@[b as int]@[t as int]));
                let k = index_of(sorted_coords.as_slice(), coords2).unwrap();
                let world2 = &worlds[k];
                proof {
                    let p = cx.position(coords2);
                    if p != k {
                        if p < k {
                            assert(coords_lt(sorted_coords@[p], sorted_coords@[k as int]));
                        } else {
                            assert(coords_lt(sorted_coords@[k as int], sorted_coords@[p]));
                        }
                    }
                    assert(*world2 == cx.world_at(coords2));
                    assert(world2.index == Some(k));
                }
                let path = self.best_route(world2, sorted_coords, tables, max_jumps, allowed, Ghost(cx));
                let ghost route = path@;
                let ghost ebefore = edges@;
                let ghost tbefore = transits@;
                if path.len() >= 2 {
                    let mut ii: usize = 0;
                    while ii < path.len() - 1
                        invariant
                            path@ == route,
                            route.len() >= 2,
                            ii <= route.len() - 1,
                            edges@ == ebefore + edge_credits(route, credits).take(ii as int),
                        decreases route.len() - 1 - ii,
                    {
                        let first = path[ii];
                        let second = path[ii + 1];
                        let tup = if coords_lt_exec(first, second) || first == second {
                            (first, second)
                        } else {
                            (second, first)
                        };
                        edges.push((tup.0, tup.1, credits));
                        proof {
                            assert(edge_credits(route, credits).take(ii + 1) =~= edge_credits(route, credits).take(ii as int).push((tup.0, tup.1, credits)));
                        }
                        ii += 1;
                    }
                    proof {
                        assert(edge_credits(route, credits).take(route.len() - 1) =~= edge_credits(route, credits));
                    }
                    let mut jj: usize = 1;
                    while jj < path.len() - 1
                        invariant
                            path@ == route,
                            route.len() >= 2,
                            1 <= jj,
                            jj + 1 <= route.len(),
                            transits@ == tbefore + transit_credits(route, credits).take(jj - 1),
                        decreases route.len() - jj,
                    {
                        transits.push((path[jj], credits));
                        proof {
                            assert(transit_credits(route, credits).take(jj as int) =~= transit_credits(route, credits).take(jj - 1).push((route[jj as int], credits)));
                        }
                        jj += 1;
                    }
                    proof {
                        if route.len() >= 3 {
                            assert(transit_credits(route, credits).take(jj - 1) =~= transit_credits(route, credits));
                        } else {
                            assert(transit_credits(route, credits).take(jj - 1) =~= transit_credits(route, credits));
                        }
                    }
                } else {
                    assert(edge_credits(route, credits) =~= Seq::<(Coords, Coords, u64)>::empty());
                    assert(transit_credits(route, credits) =~= Seq::<(Coords, u64)>::empty());
                    assert(edges@ =~= ebefore + edge_credits(route, credits));
                    assert(transits@ =~= tbefore + transit_credits(route, credits));
                }
                proof {
                    assert(route == self.trade_route(cx, b as int, coords2));
                    assert(self.bucket_edges(cx, b as int, t + 1) == self.bucket_edges(cx, b as int, t as int) + edge_credits(route, credits));
                    assert(edges@ =~= e0 + self.bucket_edges(cx, b as int, t + 1));
                    assert(transits@ =~= t0 + self.bucket_transits(cx, b as int, t + 1));
                }
                t += 1;
            }
            proof {
                assert(edges@ =~= self.route_edges(cx, b + 1));
                assert(transits@ =~= self.route_transits(cx, b + 1));
            }
            b += 1;
        }
        (edges, transits)
    }
}

fn coords_lt_exec(a: Coords, b: Coords) -> (r: bool)
    ensures
        r == coords_lt(a, b),
{
    a.x < b.x || (a.x == b.x && a.y2 < b.y2)
}

} // verus!

verus! {

proof fn lemma_path_spec_in_map(w: World, other: World, cx: RouteContext, t: JumpTable)
    requires
        cx.ready(),
        w.placed_in(cx),
        other.placed_in(cx),
        shape(t.dist) == (cx.sorted.len(), cx.sorted.len()),
        exists|c: Map<(int, int), u16>| all_pairs_shortest(c, cx.sorted.len() as int, cells(t.dist), cells(t.pred)),
    ensures
        match w.path_spec(other, cx.sorted, t.dist, t.pred) {
            Some(p) => forall|k: int| 0 <= k < p.len() ==> cx.sorted.contains(#[trigger] p[k]),
            None => true,
        },
{
    let n = cx.sorted.len() as int;
    let i = w.index->0 as int;
    let j = other.index->0 as int;
    assert(cx.worlds[i] == w);
    if same_world(w, other) {
        assert(cx.sorted[i] == w.coords_spec());
    } else if cells(t.dist)[(i, j)] != INFINITY {
        let c = choose|c: Map<(int, int), u16>| all_pairs_shortest(c, n, cells(t.dist), cells(t.pred));
        lemma_pred_walk_shortest(c, n, cells(t.dist), cells(t.pred), i, j);
        let walk = pred_walk(cells(t.pred), j, i, INFINITY as nat);
        lemma_path_vertices(c, n, walk);
        assert forall|k: int| 0 <= k < walk.len() implies cx.sorted.contains(#[trigger] coords_path(cx.sorted, walk)[k]) by {
            assert(0 <= walk[k] < n);
            assert(coords_path(cx.sorted, walk)[k] == cx.sorted[walk[k]]);
        }
    }
}

impl World {
    /// Every stop of the best route lies on the map.
    pub proof fn lemma_best_path_in_map(&self, other: World, cx: RouteContext, allowed: u8, v: int)
        requires
            cx.ready(),
            self.placed_in(cx),
            other.placed_in(cx),
        ensures
            forall|k: int|
                0 <= k < self.best_path_upto(other, cx, allowed, v).len() ==> cx.sorted.contains(
                    #[trigger] self.best_path_upto(other, cx, allowed, v)[k],
                ),
        decreases v,
    {
        if v > 0 {
            self.lemma_best_path_in_map(other, cx, allowed, v - 1);
            let j = (v - 1) as u8;
            if j <= allowed && cx.max_jumps.contains(j) {
                let k = choose|k: int| 0 <= k < cx.max_jumps.len() && cx.max_jumps[k] == j;
                assert(has_table(cx.tables, cx.max_jumps[k]));
                let q = choose|q: int| 0 <= q < cx.tables.len() && (#[trigger] cx.tables[q]).jump == j;
                assert(cx.tables[q] == table_of(cx.tables, j));
                let t = table_of(cx.tables, j);
                lemma_path_spec_in_map(*self, other, cx, t);
                let prev = self.best_path_upto(other, cx, allowed, v - 1);
                let best = self.best_path_upto(other, cx, allowed, v);
                assert forall|k: int| 0 <= k < best.len() implies cx.sorted.contains(#[trigger] best[k]) by {
                    match self.path_spec(other, cx.sorted, t.dist, t.pred) {
                        Some(p) => {
                            if best == p {
                                assert(cx.sorted.contains(p[k]));
                            } else {
                                assert(best == prev);
                                assert(cx.sorted.contains(prev[k]));
                            }
                        },
                        None => {
                            assert(best == prev);
                            assert(cx.sorted.contains(prev[k]));
                        },
                    }
                }
            } else {
                let prev = self.best_path_upto(other, cx, allowed, v - 1);
                assert(self.best_path_upto(other, cx, allowed, v) == prev);
            }
        }
    }
}

} // verus!

verus! {

impl World {
    /// Every world that the jump and transit credits of this world's trade
    /// name lies on the map.
    pub proof fn lemma_route_credits_in_map(&self, cx: RouteContext, b: int)
        requires
            cx.ready(),
            self.placed_in(cx),
            self.partners_known(cx.sorted),
            b <= self.dbtn_to_coords@.len(),
        ensures
            forall|k: int|
                0 <= k < self.route_edges(cx, b).len() ==> cx.sorted.contains((#[trigger] self.route_edges(cx, b)[k]).0)
                    && cx.sorted.contains(self.route_edges(cx, b)[k].1),
            forall|k: int| 0 <= k < self.route_transits(cx, b).len() ==> cx.sorted.contains((#[trigger] self.route_transits(cx, b)[k]).0),
        decreases b,
    {
        if b > 0 {
            self.lemma_route_credits_in_map(cx, b - 1);
            self.lemma_bucket_in_map(cx, b - 1, self.dbtn_to_coords@[b - 1]@.len() as int);
            let prev_e = self.route_edges(cx, b - 1);
            let add_e = self.bucket_edges(cx, b - 1, self.dbtn_to_coords@[b - 1]@.len() as int);
            assert forall|k: int| 0 <= k < self.route_edges(cx, b).len() implies cx.sorted.contains((#[trigger] self.route_edges(cx, b)[k]).0)
                && cx.sorted.contains(self.route_edges(cx, b)[k].1) by {
                if k < prev_e.len() {
                    assert(self.route_edges(cx, b)[k] == prev_e[k]);
                } else {
                    assert(self.route_edges(cx, b)[k] == add_e[k - prev_e.len()]);
                }
            }
            let prev_t = self.route_transits(cx, b - 1);
            let add_t = self.bucket_transits(cx, b - 1, self.dbtn_to_coords@[b - 1]@.len() as int);
            assert forall|k: int| 0 <= k < self.route_transits(cx, b).len() implies cx.sorted.contains((#[trigger] self.route_transits(cx, b)[k]).0) by {
                if k < prev_t.len() {
                    assert(self.route_transits(cx, b)[k] == prev_t[k]);
                } else {
                    assert(self.route_transits(cx, b)[k] == add_t[k - prev_t.len()]);
                }
            }
        }
    }

    proof fn lemma_bucket_in_map(&self, cx: RouteContext, b: int, t: int)
        requires
            cx.ready(),
            self.placed_in(cx),
            self.partners_known(cx.sorted),
            0 <= b < self.dbtn_to_coords@.len(),
            t <= self.dbtn_to_coords@[b]@.len(),
        ensures
            forall|k: int|
                0 <= k < self.bucket_edges(cx, b, t).len() ==> cx.sorted.contains((#[trigger] self.bucket_edges(cx, b, t)[k]).0)
                    && cx.sorted.contains(self.bucket_edges(cx, b, t)[k].1),
            forall|k: int|
                0 <= k < self.bucket_transits(cx, b, t).len() ==> cx.sorted.contains((#[trigger] self.bucket_transits(cx, b, t)[k]).0),
        decreases t,
    {
        if t > 0 {
            self.lemma_bucket_in_map(cx, b, t - 1);
            let c = self.dbtn_to_coords@[b]@[t - 1];
            assert(cx.sorted.contains(c));
            let p = cx.position(c);
            assert(0 <= p < cx.sorted.len() && cx.sorted[p] == c);
            let other = cx.world_at(c);
            assert(other == cx.worlds[p]);
            assert(cx.worlds.len() == cx.sorted.len());
            assert(other.index == Some(p as usize));
            assert(other.index->0 as int == p);
            assert(cx.worlds[other.index->0 as int] == other);
            assert(other.placed_in(cx));
            let allowed = max_allowed_jump_spec(credits_table()[b], cx.max_jumps, cx.min_route_dbtn);
            self.lemma_best_path_in_map(other, cx, allowed, 256);
            let route = self.trade_route(cx, b, c);
            let credits = credits_table()[b];
            let prev_e = self.bucket_edges(cx, b, t - 1);
            let add_e = edge_credits(route, credits);
            assert forall|k: int| 0 <= k < self.bucket_edges(cx, b, t).len() implies cx.sorted.contains((#[trigger] self.bucket_edges(cx, b, t)[k]).0)
                && cx.sorted.contains(self.bucket_edges(cx, b, t)[k].1) by {
                if k < prev_e.len() {
                    assert(self.bucket_edges(cx, b, t)[k] == prev_e[k]);
                } else {
                    let i = k - prev_e.len();
                    assert(self.bucket_edges(cx, b, t)[k] == add_e[i]);
                    assert(cx.sorted.contains(route[i]));
                    assert(cx.sorted.contains(route[i + 1]));
                }
            }
            let prev_t = self.bucket_transits(cx, b, t - 1);
            let add_t = transit_credits(route, credits);
            assert forall|k: int| 0 <= k < self.bucket_transits(cx, b, t).len() implies cx.sorted.contains((#[trigger] self.bucket_transits(cx, b, t)[k]).0) by {
                if k < prev_t.len() {
                    assert(self.bucket_transits(cx, b, t)[k] == prev_t[k]);
                } else {
                    let i = k - prev_t.len();
                    assert(self.bucket_transits(cx, b, t)[k] == add_t[i]);
                    assert(cx.sorted.contains(route[i + 1]));
                }
            }
        }
    }
}

} // verus!

verus! {

/// No stop of a route follows itself.
pub open spec fn steps_distinct(q: Seq<Coords>) -> bool {
    forall|k: int| 0 <= k < q.len() - 1 ==> #[trigger] q[k] != q[k + 1]
}

/// No route jump leads from a world to itself.
pub open spec fn edges_nonself(e: Seq<(Coords, Coords, u64)>) -> bool {
    forall|i: int| 0 <= i < e.len() ==> (#[trigger] e[i]).0 != e[i].1
}

impl World {
    proof fn lemma_best_path_steps(&self, other: World, cx: RouteContext, allowed: u8, v: int)
        requires
            cx.ready(),
            self.index is Some,
            other.index is Some,
            self.index->0 < cx.sorted.len(),
            other.index->0 < cx.sorted.len(),
        ensures
            steps_distinct(self.best_path_upto(other, cx, allowed, v)),
        decreases v,
    {
        if v > 0 {
            self.lemma_best_path_steps(other, cx, allowed, v - 1);
            let j = (v - 1) as u8;
            if j <= allowed && cx.max_jumps.contains(j) {
                let m = choose|m: int| 0 <= m < cx.max_jumps.len() && cx.max_jumps[m] == j;
                assert(has_table(cx.tables, cx.max_jumps[m]));
                let t = table_of(cx.tables, j);
                let q = choose|q: int| 0 <= q < cx.tables.len() && (#[trigger] cx.tables[q]).jump == j;
                assert(t == cx.tables[q]);
                let c = choose|c: Map<(int, int), u16>| all_pairs_shortest(c, cx.sorted.len() as int, cells(t.dist), cells(t.pred));
                crate::navigation::lemma_path_spec_steps(*self, other, cx.sorted, t.dist, t.pred, c);
            }
        }
    }
}

proof fn lemma_edge_credits_nonself(q: Seq<Coords>, credits: u64)
    requires
        steps_distinct(q),
    ensures
        edges_nonself(edge_credits(q, credits)),
{
    assert forall|i: int| 0 <= i < edge_credits(q, credits).len() implies (#[trigger] edge_credits(q, credits)[i]).0 != edge_credits(
        q,
        credits,
    )[i].1 by {
        assert(q[i] != q[i + 1]);
    }
}

proof fn lemma_concat_nonself(a: Seq<(Coords, Coords, u64)>, b: Seq<(Coords, Coords, u64)>)
    requires
        edges_nonself(a),
        edges_nonself(b),
    ensures
        edges_nonself(a + b),
{
    assert forall|i: int| 0 <= i < (a + b).len() implies (#[trigger] (a + b)[i]).0 != (a + b)[i].1 by {
        if i < a.len() {
            assert((a + b)[i] == a[i]);
        } else {
            assert((a + b)[i] == b[i - a.len()]);
        }
    }
}

impl World {
    proof fn lemma_bucket_edges_nonself(&self, cx: RouteContext, b: int, t: int)
        requires
            cx.ready(),
            self.index is Some,
            self.index->0 < cx.sorted.len(),
            self.partners_known(cx.sorted),
            0 <= b < self.dbtn_to_coords@.len(),
            t <= self.dbtn_to_coords@[b]@.len(),
        ensures
            edges_nonself(self.bucket_edges(cx, b, t)),
        decreases t,
    {
        if t > 0 {
            self.lemma_bucket_edges_nonself(cx, b, t - 1);
            let c = self.dbtn_to_coords@[b]@[t - 1];
            assert(cx.sorted.contains(c));
            let pos = cx.position(c);
            let other = cx.world_at(c);
            assert(0 <= pos < cx.sorted.len());
            assert(other.index == Some(pos as usize));
            let allowed = max_allowed_jump_spec(credits_table()[b], cx.max_jumps, cx.min_route_dbtn);
            self.lemma_best_path_steps(other, cx, allowed, 256);
            lemma_edge_credits_nonself(self.trade_route(cx, b, c), credits_table()[b]);
            lemma_concat_nonself(self.bucket_edges(cx, b, t - 1), edge_credits(self.trade_route(cx, b, c), credits_table()[b]));
        }
    }

    pub(crate) proof fn lemma_route_edges_nonself(&self, cx: RouteContext, b: int)
        requires
            cx.ready(),
            self.index is Some,
            self.index->0 < cx.sorted.len(),
            self.partners_known(cx.sorted),
            b <= self.dbtn_to_coords@.len(),
        ensures
            edges_nonself(self.route_edges(cx, b)),
        decreases b,
    {
        if b > 0 {
            self.lemma_route_edges_nonself(cx, b - 1);
            self.lemma_bucket_edges_nonself(cx, b - 1, self.dbtn_to_coords@[b - 1]@.len() as int);
            lemma_concat_nonself(self.route_edges(cx, b - 1), self.bucket_edges(cx, b - 1, self.dbtn_to_coords@[b - 1]@.len() as int));
        }
    }
}

} // verus!

verus! {

fn has_table_exec(tables: &Vec<JumpTable>, j: u8) -> (r: bool)
    ensures
        r == has_table(tables@, j),
{
    let mut k: usize = 0;
    while k < tables.len()
        invariant
            k <= tables@.len(),
            forall|q: int| 0 <= q < k ==> (#[trigger] tables@[q]).jump != j,
        decreases tables@.len() - k,
    {
        if tables[k].jump == j {
            return true;
        }
        k += 1;
    }
    false
}

/// The shortest-distance tables of the map for each jump limit in
/// `max_jumps`, one table per limit.
pub fn build_tables(
    worlds: &Vec<World>,
    coords: &Vec<Coords>,
    max_jumps: &[u8],
    ignore_xboat_routes: bool,
    alg: PathAlgorithm,
) -> (tables: Vec<JumpTable>)
    requires
        atlas_ok(worlds@, coords@),
        worlds@.len() < 65535,
        worlds@.len() * worlds@.len() * 2 <= isize::MAX,
        forall|k: int, m: int|
            0 <= k < worlds@.len() && 0 <= m < max_jumps@.len() ==> links_known(
                #[trigger] worlds@[k],
                coords@,
                #[trigger] max_jumps@[m] as int,
                ignore_xboat_routes,
            ),
    ensures
        tables_ok(tables@, coords@.len() as int),
        forall|m: int| 0 <= m < max_jumps@.len() ==> has_table(tables@, #[trigger] max_jumps@[m]),
        forall|t: int|
            0 <= t < tables@.len() ==> max_jumps@.contains((#[trigger] tables@[t]).jump) && exists|c: Map<(int, int), u16>|
                navigation_ok(c, worlds@, coords@, tables@[t].jump as int, ignore_xboat_routes, tables@[t].dist, tables@[t].pred),
{
    let n = coords.len();
    let mut tables: Vec<JumpTable> = Vec::new();
    let mut i: usize = 0;
    while i < max_jumps.len()
        invariant
            n == coords@.len(),
            atlas_ok(worlds@, coords@),
            worlds@.len() < 65535,
            worlds@.len() * worlds@.len() * 2 <= isize::MAX,
            forall|k: int, m: int|
                0 <= k < worlds@.len() && 0 <= m < max_jumps@.len() ==> links_known(
                    #[trigger] worlds@[k],
                    coords@,
                    #[trigger] max_jumps@[m] as int,
                    ignore_xboat_routes,
                ),
            i <= max_jumps@.len(),
            tables_ok(tables@, n as int),
            forall|m: int| 0 <= m < i ==> has_table(tables@, #[trigger] max_jumps@[m]),
            forall|t: int|
                0 <= t < tables@.len() ==> max_jumps@.contains((#[trigger] tables@[t]).jump) && exists|c: Map<(int, int), u16>|
                    navigation_ok(c, worlds@, coords@, tables@[t].jump as int, ignore_xboat_routes, tables@[t].dist, tables@[t].pred),
        decreases max_jumps@.len() - i,
    {
        let jump = max_jumps[i];
        if !has_table_exec(&tables, jump) {
            proof {
                assert forall|k: int| 0 <= k < worlds@.len() implies links_known(#[trigger] worlds@[k], coords@, jump as int, ignore_xboat_routes) by {
                    assert(links_known(worlds@[k], coords@, max_jumps@[i as int] as int, ignore_xboat_routes));
                }
            }
            let (dist, pred) = populate_navigable_distances(worlds, coords, jump, ignore_xboat_routes, alg);
            let ghost before = tables@;
            tables.push(JumpTable { jump, dist, pred });
            proof {
                let c = choose|c: Map<(int, int), u16>| #[trigger] navigation_ok(c, worlds@, coords@, jump as int, ignore_xboat_routes, dist, pred);
                assert(tables@[before.len() as int].jump == jump);
                assert forall|t: int| 0 <= t < tables@.len() implies max_jumps@.contains((#[trigger] tables@[t]).jump) && exists|c: Map<(int, int), u16>|
                    navigation_ok(c, worlds@, coords@, tables@[t].jump as int, ignore_xboat_routes, tables@[t].dist, tables@[t].pred) by {
                    if t < before.len() {
                        assert(tables@[t] == before[t]);
                    } else {
                        assert(max_jumps@[i as int] == jump);
                        assert(navigation_ok(c, worlds@, coords@, tables@[t].jump as int, ignore_xboat_routes, tables@[t].dist, tables@[t].pred));
                    }
                }
                assert forall|k: int| 0 <= k < tables@.len() implies {
                    &&& shape((#[trigger] tables@[k]).dist) == (n as nat, n as nat)
                    &&& shape(tables@[k].pred) == (n as nat, n as nat)
                    &&& exists|c: Map<(int, int), u16>| all_pairs_shortest(c, n as int, cells(tables@[k].dist), cells(tables@[k].pred))
                } by {
                    if k < before.len() {
                        assert(tables@[k] == before[k]);
                    } else {
                        assert(navigation_ok(c, worlds@, coords@, jump as int, ignore_xboat_routes, dist, pred));
                        assert(all_pairs_shortest(c, n as int, cells(tables@[k].dist), cells(tables@[k].pred)));
                    }
                }
                assert forall|a: int, b: int| 0 <= a < b < tables@.len() implies (#[trigger] tables@[a]).jump != (#[trigger] tables@[b]).jump by {
                    if b < before.len() {
                        assert(tables@[a] == before[a]);
                        assert(tables@[b] == before[b]);
                    } else {
                        assert(tables@[a] == before[a]);
                        assert(!has_table(before, jump));
                    }
                }
                assert forall|m: int| 0 <= m < i + 1 implies has_table(tables@, #[trigger] max_jumps@[m]) by {
                    if m < i {
                        assert(has_table(before, max_jumps@[m]));
                        let q = choose|q: int| 0 <= q < before.len() && (#[trigger] before[q]).jump == max_jumps@[m];
                        assert(tables@[q] == before[q]);
                    } else {
                        assert(tables@[before.len() as int].jump == max_jumps@[m]);
                    }
                }
            }
        }
        i += 1;
    }
    tables
}

} // verus!
