use vstd::prelude::*;
use crate::atlas::{add_coords, atlas_ok, coords_sorted, indexed, neighbors_within};
use crate::coords::{hex_distance, Coords};
use crate::grid::{cells, shape, Matrix};
use crate::tables::{
    credits_table, credits_to_dbtn, dbtn_to_credits, ddistance_modifier_spec, ddistance_modifier_table, first_not_below, lemma_distance_modifier_monotone,
};
use crate::atlas::index_of;
use crate::navigation::{lemma_navigation_covers_line, navigation_ok, sld_spec};
use crate::trade::{edges_nonself, has_table, table_for, table_of, tables_ok, JumpTable, RouteContext};
use crate::text::{chars_of, to_digit};
use crate::world::{dport_modifier, is_alphanumeric, starport_class, tech_code_value, tech_table, World};

verus! {

/// Twice the WTN by which worlds are ranked for trade; a negative WTN counts
/// as zero.
pub open spec fn trade_key(w: World) -> u64 {
    if w.dwtn_spec() < 0 {
        0
    } else {
        w.dwtn_spec() as u64
    }
}

/// `a` ranks above `b`: a higher key, or the same key and a later position
/// (so higher coordinates).
pub open spec fn rank_gt(a: (u64, usize), b: (u64, usize)) -> bool {
    a.0 > b.0 || (a.0 == b.0 && a.1 > b.1)
}

/// Position `k` occurs in `order`.
pub open spec fn ranked(order: Seq<(u64, usize)>, k: int) -> bool {
    exists|p: int| 0 <= p < order.len() && (#[trigger] order[p]).1 == k
}

/// `order` lists every world's key and position, highest rank first.
pub open spec fn is_trade_order(keys: Seq<u64>, order: Seq<(u64, usize)>) -> bool {
    &&& order.len() == keys.len()
    &&& forall|p: int| 0 <= p < order.len() ==> (#[trigger] order[p]).1 < keys.len() && order[p].0 == keys[order[p].1 as int]
    &&& forall|p: int, q: int| 0 <= p < q < order.len() ==> rank_gt(#[trigger] order[p], #[trigger] order[q])
    &&& forall|k: int| 0 <= k < keys.len() ==> #[trigger] ranked(order, k)
}

proof fn lemma_trade_order_prefix(keys: Seq<u64>, s1: Seq<(u64, usize)>, s2: Seq<(u64, usize)>, p: int)
    requires
        is_trade_order(keys, s1),
        is_trade_order(keys, s2),
        0 <= p < s1.len(),
    ensures
        forall|q: int| 0 <= q <= p ==> s1[q] == s2[q],
    decreases p,
{
    if p > 0 {
        lemma_trade_order_prefix(keys, s1, s2, p - 1);
    }
    if s1[p] != s2[p] {
        let k1 = s1[p].1 as int;
        let k2 = s2[p].1 as int;
        assert(ranked(s2, k1));
        assert(ranked(s1, k2));
        let r2 = choose|r: int| 0 <= r < s2.len() && (#[trigger] s2[r]).1 == k1;
        let r1 = choose|r: int| 0 <= r < s1.len() && (#[trigger] s1[r]).1 == k2;
        assert(s2[r2] == s1[p]);
        assert(s1[r1] == s2[p]);
        if r2 < p {
            assert(s1[r2] == s2[r2]);
            assert(rank_gt(s1[r2], s1[p]));
        } else if r1 < p {
            assert(s2[r1] == s1[r1]);
            assert(rank_gt(s2[r1], s2[p]));
        } else {
            assert(r2 != p);
            assert(r1 != p);
            assert(rank_gt(s2[p], s2[r2]));
            assert(rank_gt(s1[p], s1[r1]));
        }
    }
}

/// There is one trade order only: the ranking is strict.
pub proof fn lemma_trade_order_unique(keys: Seq<u64>, s1: Seq<(u64, usize)>, s2: Seq<(u64, usize)>)
    requires
        is_trade_order(keys, s1),
        is_trade_order(keys, s2),
    ensures
        s1 == s2,
{
    if s1.len() > 0 {
        lemma_trade_order_prefix(keys, s1, s2, s1.len() - 1);
    }
    assert(s1 =~= s2);
}

/// The keys of the worlds, by position.
pub open spec fn trade_keys(worlds: Seq<World>) -> Seq<u64> {
    worlds.map_values(|w: World| trade_key(w))
}

/// The trade order of the worlds.
pub open spec fn trade_order_spec(worlds: Seq<World>) -> Seq<(u64, usize)> {
    choose|s: Seq<(u64, usize)>| is_trade_order(trade_keys(worlds), s)
}

/// Ranks key-position pairs, highest first, by insertion.
pub fn rank_keys(keys: &Vec<u64>) -> (order: Vec<(u64, usize)>)
    ensures
        is_trade_order(keys@, order@),
{
    let mut order: Vec<(u64, usize)> = Vec::new();
    let mut k: usize = 0;
    while k < keys.len()
        invariant
            k <= keys@.len(),
            order@.len() == k,
            forall|p: int| 0 <= p < order@.len() ==> (#[trigger] order@[p]).1 < k && order@[p].0 == keys@[order@[p].1 as int],
            forall|p: int, q: int| 0 <= p < q < order@.len() ==> rank_gt(#[trigger] order@[p], #[trigger] order@[q]),
            forall|i: int| 0 <= i < k ==> #[trigger] ranked(order@, i),
        decreases keys@.len() - k,
    {
        let x = (keys[k], k);
        let mut lo: usize = 0;
        let mut hi: usize = order.len();
        while lo < hi
            invariant
                x.1 == k,
                lo <= hi <= order@.len(),
                forall|p: int, q: int| 0 <= p < q < order@.len() ==> rank_gt(#[trigger] order@[p], #[trigger] order@[q]),
                forall|p: int| 0 <= p < lo ==> rank_gt(#[trigger] order@[p], x),
                forall|p: int| hi <= p < order@.len() ==> rank_gt(x, #[trigger] order@[p]),
                forall|p: int| 0 <= p < order@.len() ==> (#[trigger] order@[p]).1 < k,
            decreases hi - lo,
        {
            let mid = lo + (hi - lo) / 2;
            let e = order[mid];
            if e.0 > x.0 || (e.0 == x.0 && e.1 > x.1) {
                proof {
                    assert forall|p: int| 0 <= p <= mid implies rank_gt(#[trigger] order@[p], x) by {
                        if p < mid {
                            assert(rank_gt(order@[p], order@[mid as int]));
                        }
                    }
                }
                lo = mid + 1;
            } else {
                proof {
                    assert(e.1 < k);
                    assert forall|p: int| mid <= p < order@.len() implies rank_gt(x, #[trigger] order@[p]) by {
                        assert(order@[mid as int] == e);
                        assert(rank_gt(x, e));
                        if p > mid {
                            assert(rank_gt(order@[mid as int], order@[p]));
                        }
                    }
                }
                hi = mid;
            }
        }
        let ghost before = order@;
        order.insert(lo, x);
        proof {
            assert forall|p: int, q: int| 0 <= p < q < order@.len() implies rank_gt(#[trigger] order@[p], #[trigger] order@[q]) by {
                if q < lo {
                } else if q == lo {
                } else if p < lo {
                    assert(order@[q] == before[q - 1]);
                } else if p == lo {
                    assert(order@[q] == before[q - 1]);
                } else {
                    assert(order@[q] == before[q - 1]);
                    assert(order@[p] == before[p - 1]);
                }
            }
            assert forall|i: int| 0 <= i < k + 1 implies #[trigger] ranked(order@, i) by {
                if i == k {
                    assert(order@[lo as int].1 == i);
                } else {
                    assert(ranked(before, i));
                    let p0 = choose|p: int| 0 <= p < before.len() && (#[trigger] before[p]).1 == i;
                    if p0 < lo {
                        assert(order@[p0].1 == i);
                    } else {
                        assert(order@[p0 + 1].1 == i);
                    }
                }
            }
        }
        k += 1;
    }
    order
}

} // verus!

verus! {

/// The straight-line distance between two positions, saturated to `u16`.
pub open spec fn sld_u16(a: Coords, b: Coords) -> u16 {
    let d = hex_distance(a, b);
    if d > 65535 {
        65535
    } else {
        d as u16
    }
}

/// Whether the worlds at positions `a` and `b` (`a` ranked above `b`) may
/// trade with a BTN of at least half `min_dbtn`, as far as the WTNs, the
/// straight-line distance and the WTCM can tell without the full BTN: the
/// lower WTN must be within 5 of the minimum BTN and the sum within 1 (the
/// WTCM bonus); with the distance modifier of the straight-line distance the
/// sum must still be within 1, and where it is below the minimum plus a half
/// (the WTCM penalty), the WTCM must bring it to the minimum.
pub open spec fn pair_candidate(worlds: Seq<World>, coords: Seq<Coords>, min_dbtn: int, a: int, b: int) -> bool {
    let ka = trade_key(worlds[a]) as int;
    let kb = trade_key(worlds[b]) as int;
    let x = ka + kb - ddistance_modifier_spec(sld_u16(coords[a], coords[b]));
    &&& !(kb < min_dbtn - 10 || ka + kb < min_dbtn - 2)
    &&& !(x < min_dbtn - 2)
    &&& !(x < min_dbtn + 1 && x + worlds[a].dwtcm_spec(&worlds[b]) < min_dbtn)
}

/// The candidate pairs of the world ranked `p` with those ranked from
/// `p + 1` to below `q`.
pub open spec fn pairs_row(worlds: Seq<World>, coords: Seq<Coords>, min_dbtn: int, order: Seq<(u64, usize)>, p: int, q: int) -> Seq<(usize, usize)>
    decreases q - p,
{
    if q <= p + 1 {
        Seq::empty()
    } else {
        let prev = pairs_row(worlds, coords, min_dbtn, order, p, q - 1);
        let a = order[p].1;
        let b = order[q - 1].1;
        if pair_candidate(worlds, coords, min_dbtn, a as int, b as int) {
            prev.push((a, b))
        } else {
            prev
        }
    }
}

/// The candidate pairs of the worlds ranked below `p` with the worlds
/// ranked after them, the higher ranked world first.
pub open spec fn trade_pairs(worlds: Seq<World>, coords: Seq<Coords>, min_dbtn: int, order: Seq<(u64, usize)>, p: int) -> Seq<(usize, usize)>
    decreases p,
{
    if p <= 0 {
        Seq::empty()
    } else {
        trade_pairs(worlds, coords, min_dbtn, order, p - 1) + pairs_row(worlds, coords, min_dbtn, order, p - 1, order.len() as int)
    }
}

proof fn lemma_row_stops(worlds: Seq<World>, coords: Seq<Coords>, min_dbtn: int, order: Seq<(u64, usize)>, p: int, q0: int, q: int)
    requires
        is_trade_order(trade_keys(worlds), order),
        worlds.len() == order.len(),
        0 <= p < q0 <= q <= order.len(),
        q0 < order.len(),
        ({
            let ka = order[p].0 as int;
            let kb = order[q0].0 as int;
            kb < min_dbtn - 10 || ka + kb < min_dbtn - 2
        }),
    ensures
        pairs_row(worlds, coords, min_dbtn, order, p, q) == pairs_row(worlds, coords, min_dbtn, order, p, q0),
    decreases q - q0,
{
    if q > q0 {
        lemma_row_stops(worlds, coords, min_dbtn, order, p, q0, q - 1);
        let b = order[q - 1].1;
        if q - 1 > q0 {
            assert(rank_gt(order[q0], order[q - 1]));
        }
        assert(order[q - 1].0 == trade_keys(worlds)[b as int]);
        assert(order[p].0 == trade_keys(worlds)[order[p].1 as int]);
        assert(!pair_candidate(worlds, coords, min_dbtn, order[p].1 as int, b as int));
    }
}

proof fn lemma_dwtn_bounds(w: World)
    requires
        tradeable(w),
    ensures
        -11 <= w.dwtn_spec() <= 18,
{
    let t = tech_code_value(w.uwp@[8])->0;
    assert(0 <= tech_table()[t as int] <= 14);
    let class = starport_class(w.uwp@[0])->0;
    assert(0 <= class <= 5);
    let iu = w.iuwtn_spec();
    assert(0 <= iu <= 7);
    assert(-10 <= dport_modifier(iu, class) <= 3);
}

proof fn lemma_key_covers_dwtn(w: World)
    requires
        tradeable(w),
    ensures
        trade_key(w) as int >= w.dwtn_spec(),
        trade_key(w) as int >= 0,
{
    lemma_dwtn_bounds(w);
}

/// The straight-line distance modifier never exceeds the modifier of a
/// distance at least as long, and neither is negative.
proof fn lemma_modifier_bounds(sld: u16, d: u16)
    requires
        sld <= d,
    ensures
        0 <= ddistance_modifier_spec(sld) <= ddistance_modifier_spec(d),
{
    lemma_distance_modifier_monotone(sld, d);
}

/// Picking candidate pairs by WTN, straight-line distance and WTCM passes
/// over no pair of tradeable worlds whose freight trade reaches the minimum
/// BTN (a positive one), whatever jump distance `d` at least the
/// straight-line distance separates them: the tests only drop pairs that
/// the BTN's own bounds rule out.
pub proof fn lemma_candidate_keeps_trade(worlds: Seq<World>, coords: Seq<Coords>, min_dbtn: int, a: int, b: int, d: u16)
    requires
        worlds.len() == coords.len(),
        0 <= a < worlds.len(),
        0 <= b < worlds.len(),
        tradeable(worlds[a]),
        tradeable(worlds[b]),
        min_dbtn >= 1,
        d >= sld_u16(coords[a], coords[b]),
        worlds[a].dbtn_spec(&worlds[b], d, false) >= min_dbtn,
    ensures
        pair_candidate(worlds, coords, min_dbtn, a, b),
{
    let wa = worlds[a];
    let wb = worlds[b];
    lemma_key_covers_dwtn(wa);
    lemma_key_covers_dwtn(wb);
    lemma_modifier_bounds(sld_u16(coords[a], coords[b]), d);
    assert(wa.dwtcm_spec(&wb) <= 2);
}

proof fn lemma_row_holds(worlds: Seq<World>, coords: Seq<Coords>, min_dbtn: int, order: Seq<(u64, usize)>, p: int, q: int, r: int)
    requires
        0 <= p < q < r <= order.len(),
        pair_candidate(worlds, coords, min_dbtn, order[p].1 as int, order[q].1 as int),
    ensures
        pairs_row(worlds, coords, min_dbtn, order, p, r).contains((order[p].1, order[q].1)),
    decreases r,
{
    if r == q + 1 {
        assert(pairs_row(worlds, coords, min_dbtn, order, p, r).last() == (order[p].1, order[q].1));
    } else {
        lemma_row_holds(worlds, coords, min_dbtn, order, p, q, r - 1);
        let prev = pairs_row(worlds, coords, min_dbtn, order, p, r - 1);
        let k = choose|k: int| 0 <= k < prev.len() && prev[k] == (order[p].1, order[q].1);
        assert(pairs_row(worlds, coords, min_dbtn, order, p, r)[k] == (order[p].1, order[q].1));
    }
}

proof fn lemma_pairs_hold(worlds: Seq<World>, coords: Seq<Coords>, min_dbtn: int, order: Seq<(u64, usize)>, p: int, q: int, m: int)
    requires
        0 <= p < q < order.len(),
        p < m <= order.len(),
        pair_candidate(worlds, coords, min_dbtn, order[p].1 as int, order[q].1 as int),
    ensures
        trade_pairs(worlds, coords, min_dbtn, order, m).contains((order[p].1, order[q].1)),
    decreases m,
{
    let e = (order[p].1, order[q].1);
    let before = trade_pairs(worlds, coords, min_dbtn, order, m - 1);
    let row = pairs_row(worlds, coords, min_dbtn, order, m - 1, order.len() as int);
    if m == p + 1 {
        lemma_row_holds(worlds, coords, min_dbtn, order, p, q, order.len() as int);
        let k = choose|k: int| 0 <= k < row.len() && row[k] == e;
        assert((before + row)[before.len() + k] == e);
    } else {
        lemma_pairs_hold(worlds, coords, min_dbtn, order, p, q, m - 1);
        let k = choose|k: int| 0 <= k < before.len() && before[k] == e;
        assert((before + row)[k] == e);
    }
}

/// Every pair of tradeable worlds whose freight trade reaches a positive
/// minimum BTN, at a jump distance no shorter than the straight line between
/// them, is among the trade pairs, the higher ranked world first.
pub proof fn lemma_selection_keeps_trade(
    worlds: Seq<World>,
    coords: Seq<Coords>,
    min_dbtn: int,
    order: Seq<(u64, usize)>,
    p: int,
    q: int,
    d: u16,
)
    requires
        is_trade_order(trade_keys(worlds), order),
        worlds.len() == coords.len(),
        0 <= p < q < order.len(),
        tradeable(worlds[order[p].1 as int]),
        tradeable(worlds[order[q].1 as int]),
        min_dbtn >= 1,
        d >= sld_u16(coords[order[p].1 as int], coords[order[q].1 as int]),
        worlds[order[p].1 as int].dbtn_spec(&worlds[order[q].1 as int], d, false) >= min_dbtn,
    ensures
        trade_pairs(worlds, coords, min_dbtn, order, order.len() as int).contains((order[p].1, order[q].1)),
{
    lemma_candidate_keeps_trade(worlds, coords, min_dbtn, order[p].1 as int, order[q].1 as int, d);
    lemma_pairs_hold(worlds, coords, min_dbtn, order, p, q, order.len() as int);
}

/// The pairs of worlds that may trade, each with the higher ranked world
/// first, in the order of the ranking: for each world, the worlds ranked
/// after it are tried in turn, and once the lower WTN or the sum of the WTNs
/// is too small, the rest of them are passed over, since their WTNs are no
/// larger.
pub fn select_trade_pairs(worlds: &Vec<World>, coords: &Vec<Coords>, order: &Vec<(u64, usize)>, min_dbtn: i64) -> (pairs: Vec<(usize, usize)>)
    requires
        is_trade_order(trade_keys(worlds@), order@),
        worlds@.len() == coords@.len(),
    ensures
        pairs@ == trade_pairs(worlds@, coords@, min_dbtn as int, order@, order@.len() as int),
{
    let ghost md = min_dbtn as int;
    let n = order.len();
    let md128 = min_dbtn as i128;
    let mut pairs: Vec<(usize, usize)> = Vec::new();
    let mut p: usize = 0;
    while p < n
        invariant
            n == order@.len(),
            n == worlds@.len(),
            n == coords@.len(),
            md == min_dbtn,
            md128 == min_dbtn,
            is_trade_order(trade_keys(worlds@), order@),
            p <= n,
            pairs@ == trade_pairs(worlds@, coords@, md, order@, p as int),
        decreases n - p,
    {
        let (k1, a) = order[p];
        let ghost before = pairs@;
        let mut q: usize = p + 1;
        proof {
            assert(order@[p as int].0 == trade_keys(worlds@)[a as int]);
        }
        while q < n
            invariant_except_break
                n == order@.len(),
                n == worlds@.len(),
                n == coords@.len(),
                md == min_dbtn,
                md128 == min_dbtn,
                is_trade_order(trade_keys(worlds@), order@),
                p < q <= n,
                order@[p as int] == (k1, a),
                pairs@ == before + pairs_row(worlds@, coords@, md, order@, p as int, q as int),
            ensures
                pairs@ == before + pairs_row(worlds@, coords@, md, order@, p as int, n as int),
            decreases n - q,
        {
            let (k2, b) = order[q];
            proof {
                assert(order@[q as int].0 == trade_keys(worlds@)[b as int]);
            }
            if (k2 as i128) < md128 - 10 || (k1 as i128) + (k2 as i128) < md128 - 2 {
                proof {
                    lemma_row_stops(worlds@, coords@, md, order@, p as int, q as int, n as int);
                }
                break;
            }
            let sld = coords[a].straight_line_distance(&coords[b]);
            let x: i128 = (k1 as i128) + (k2 as i128) - (ddistance_modifier_table(sld) as i128);
            let mut keep = !(x < md128 - 2);
            if keep && x < md128 + 1 {
                let wtcm = worlds[a].dwtcm(&worlds[b]);
                if x + (wtcm as i128) < md128 {
                    keep = false;
                }
            }
            proof {
                assert(keep == pair_candidate(worlds@, coords@, md, a as int, b as int));
            }
            if keep {
                pairs.push((a, b));
            }
            proof {
                assert(pairs@ =~= before + pairs_row(worlds@, coords@, md, order@, p as int, q + 1));
            }
            q += 1;
        }
        proof {
            assert(pairs@ =~= trade_pairs(worlds@, coords@, md, order@, p + 1));
        }
        p += 1;
    }
    pairs
}

} // verus!

verus! {

/// The world can be ranked for trade: its codes are known and its whole
/// UWTN indexes the port modifier table.
pub open spec fn tradeable(w: World) -> bool {
    w.codes_known() && w.iuwtn_spec() <= 7
}

/// Tells whether the world can be ranked for trade.
pub fn is_tradeable(w: &World) -> (b: bool)
    ensures
        b == tradeable(*w),
{
    let u = chars_of(w.uwp.as_str());
    if u.len() < 9 {
        return false;
    }
    let port = u[0];
    if !(port == 'A' || port == 'B' || port == 'C' || port == 'D' || port == 'E' || port == 'X' || port == '?') {
        return false;
    }
    let mut tech = u[8];
    if tech == '?' || tech == 'X' {
        tech = '0';
    }
    if to_digit(tech, 24).is_none() {
        return false;
    }
    let pop = u[4];
    if is_alphanumeric(pop) && pop != 'X' && to_digit(pop, 16).is_none() {
        return false;
    }
    w.duwtn() <= 15
}

/// The doubled BTN of a pair of worlds, over the distances of `dist`.
pub open spec fn pair_dbtn(worlds: Seq<World>, dist: Matrix, passenger: bool, e: (usize, usize)) -> int {
    worlds[e.0 as int].dbtn_spec(&worlds[e.1 as int], cells(dist)[(e.0 as int, e.1 as int)], passenger)
}

/// The credits of the trade of a pair of worlds.
pub open spec fn pair_credits(worlds: Seq<World>, dist: Matrix, passenger: bool, e: (usize, usize)) -> u64 {
    credits_table()[pair_dbtn(worlds, dist, passenger, e)]
}

/// The endpoint credits that the first `m` pairs bring the world at `k`.
pub open spec fn endpoint_sum(worlds: Seq<World>, dist: Matrix, passenger: bool, pairs: Seq<(usize, usize)>, m: int, k: int) -> int
    decreases m,
{
    if m <= 0 {
        0
    } else {
        let e = pairs[m - 1];
        let c = pair_credits(worlds, dist, passenger, e) as int;
        endpoint_sum(worlds, dist, passenger, pairs, m - 1, k) + (if e.0 == k { c } else { 0 }) + (if e.1 == k { c } else { 0 })
    }
}

proof fn lemma_endpoint_sum_grows(worlds: Seq<World>, dist: Matrix, passenger: bool, pairs: Seq<(usize, usize)>, m: int, m2: int, k: int)
    requires
        0 <= m <= m2,
    ensures
        endpoint_sum(worlds, dist, passenger, pairs, m, k) <= endpoint_sum(worlds, dist, passenger, pairs, m2, k),
    decreases m2 - m,
{
    if m < m2 {
        lemma_endpoint_sum_grows(worlds, dist, passenger, pairs, m, m2 - 1, k);
    }
}

/// The trade partners that the first `m` pairs file under doubled BTN `d` for
/// the world at `k`, after those it had: each partner once, in the order the
/// pairs come.
pub open spec fn dbtn_list(
    worlds: Seq<World>,
    coords: Seq<Coords>,
    dist: Matrix,
    passenger: bool,
    pairs: Seq<(usize, usize)>,
    m: int,
    k: int,
    d: int,
) -> Seq<Coords>
    decreases m,
{
    if m <= 0 {
        worlds[k].dbtn_to_coords@[d]@
    } else {
        let prev = dbtn_list(worlds, coords, dist, passenger, pairs, m - 1, k, d);
        let e = pairs[m - 1];
        let hit = pair_dbtn(worlds, dist, passenger, e) == d;
        let s1 = if e.0 == k && hit && !prev.contains(coords[e.1 as int]) {
            prev.push(coords[e.1 as int])
        } else {
            prev
        };
        if e.1 == k && hit && !s1.contains(coords[e.0 as int]) {
            s1.push(coords[e.0 as int])
        } else {
            s1
        }
    }
}

/// A world after the trade of some pairs was recorded: only its endpoint
/// credits and its partners by doubled BTN have changed.
pub open spec fn trade_recorded(before: World, after: World) -> bool {
    after == (World { endpoint_trade_credits: after.endpoint_trade_credits, dbtn_to_coords: after.dbtn_to_coords, ..before })
}

proof fn lemma_recorded_dbtn(x0: World, x1: World, y0: World, y1: World, d: u16, passenger: bool)
    requires
        trade_recorded(x0, x1),
        trade_recorded(y0, y1),
    ensures
        x1.dbtn_spec(&y1, d, passenger) == x0.dbtn_spec(&y0, d, passenger),
        x1.codes_known() == x0.codes_known(),
        x1.iuwtn_spec() == x0.iuwtn_spec(),
        y1.codes_known() == y0.codes_known(),
        y1.iuwtn_spec() == y0.iuwtn_spec(),
{
    assert(x1.uwp == x0.uwp && x1.pbg == x0.pbg && x1.trade_classifications == x0.trade_classifications);
    assert(y1.uwp == y0.uwp && y1.pbg == y0.pbg && y1.trade_classifications == y0.trade_classifications);
    assert(x1.allegiance == x0.allegiance && y1.allegiance == y0.allegiance);
    assert(x1.dwtn_spec() == x0.dwtn_spec());
    assert(y1.dwtn_spec() == y0.dwtn_spec());
    assert(x1.dwtcm_spec(&y1) == x0.dwtcm_spec(&y0));
    assert(x1.dpassenger_bonus_spec() == x0.dpassenger_bonus_spec());
    assert(y1.dpassenger_bonus_spec() == y0.dpassenger_bonus_spec());
}

/// Records the trade of each pair: both worlds gain its credits as endpoint
/// credits and file each other under the pair's doubled BTN.
pub fn record_pair_trade(worlds: &mut Vec<World>, coords: &Vec<Coords>, pairs: &Vec<(usize, usize)>, dist: &Matrix, passenger: bool)
    requires
        atlas_ok(old(worlds)@, coords@),
        indexed(old(worlds)@),
        forall|k: int| 0 <= k < old(worlds)@.len() ==> tradeable(#[trigger] old(worlds)@[k]),
        forall|k: int, d: int|
            0 <= k < old(worlds)@.len() && 0 <= d < old(worlds)@[k].dbtn_to_coords@.len() ==> (#[trigger] old(
                worlds,
            )@[k].dbtn_to_coords@[d])@.no_duplicates(),
        shape(*dist) == (old(worlds)@.len() as nat, old(worlds)@.len() as nat),
        forall|m: int|
            0 <= m < pairs@.len() ==> {
                let e = #[trigger] pairs@[m];
                &&& e.0 < old(worlds)@.len()
                &&& e.1 < old(worlds)@.len()
                &&& pair_dbtn(old(worlds)@, *dist, passenger, e) < credits_table().len()
                &&& pair_dbtn(old(worlds)@, *dist, passenger, e) < old(worlds)@[e.0 as int].dbtn_to_coords@.len()
                &&& pair_dbtn(old(worlds)@, *dist, passenger, e) < old(worlds)@[e.1 as int].dbtn_to_coords@.len()
            },
        forall|k: int|
            0 <= k < old(worlds)@.len() ==> (#[trigger] old(worlds)@[k]).endpoint_trade_credits + endpoint_sum(
                old(worlds)@,
                *dist,
                passenger,
                pairs@,
                pairs@.len() as int,
                k,
            ) <= u64::MAX,
    ensures
        final(worlds)@.len() == old(worlds)@.len(),
        forall|k: int|
            0 <= k < final(worlds)@.len() ==> {
                &&& trade_recorded(old(worlds)@[k], #[trigger] final(worlds)@[k])
                &&& final(worlds)@[k].endpoint_trade_credits == old(worlds)@[k].endpoint_trade_credits + endpoint_sum(
                    old(worlds)@,
                    *dist,
                    passenger,
                    pairs@,
                    pairs@.len() as int,
                    k,
                )
                &&& final(worlds)@[k].dbtn_to_coords@.len() == old(worlds)@[k].dbtn_to_coords@.len()
                &&& forall|d: int|
                    0 <= d < final(worlds)@[k].dbtn_to_coords@.len() ==> (#[trigger] final(worlds)@[k].dbtn_to_coords@[d])@
                        == dbtn_list(old(worlds)@, coords@, *dist, passenger, pairs@, pairs@.len() as int, k, d)
            },
{
    let ghost w0 = old(worlds)@;
    let ghost n = w0.len() as int;
    let credits_of = dbtn_to_credits();
    let mut m: usize = 0;
    while m < pairs.len()
        invariant
            w0 == old(worlds)@,
            n == w0.len(),
            credits_of@ == credits_table(),
            atlas_ok(w0, coords@),
            indexed(w0),
            forall|k: int| 0 <= k < n ==> tradeable(#[trigger] w0[k]),
            shape(*dist) == (n as nat, n as nat),
            forall|mm: int|
                0 <= mm < pairs@.len() ==> {
                    let e = #[trigger] pairs@[mm];
                    &&& e.0 < n
                    &&& e.1 < n
                    &&& pair_dbtn(w0, *dist, passenger, e) < credits_table().len()
                    &&& pair_dbtn(w0, *dist, passenger, e) < w0[e.0 as int].dbtn_to_coords@.len()
                    &&& pair_dbtn(w0, *dist, passenger, e) < w0[e.1 as int].dbtn_to_coords@.len()
                },
            forall|k: int|
                0 <= k < n ==> (#[trigger] w0[k]).endpoint_trade_credits + endpoint_sum(w0, *dist, passenger, pairs@, pairs@.len() as int, k)
                    <= u64::MAX,
            m <= pairs@.len(),
            worlds@.len() == n,
            forall|k: int|
                0 <= k < n ==> {
                    &&& trade_recorded(w0[k], #[trigger] worlds@[k])
                    &&& worlds@[k].endpoint_trade_credits == w0[k].endpoint_trade_credits + endpoint_sum(
                        w0,
                        *dist,
                        passenger,
                        pairs@,
                        m as int,
                        k,
                    )
                    &&& worlds@[k].dbtn_to_coords@.len() == w0[k].dbtn_to_coords@.len()
                    &&& forall|d: int|
                        0 <= d < worlds@[k].dbtn_to_coords@.len() ==> (#[trigger] worlds@[k].dbtn_to_coords@[d])@ == dbtn_list(
                            w0,
                            coords@,
                            *dist,
                            passenger,
                            pairs@,
                            m as int,
                            k,
                            d,
                        )
                    &&& forall|d: int|
                        0 <= d < worlds@[k].dbtn_to_coords@.len() ==> (#[trigger] worlds@[k].dbtn_to_coords@[d])@.no_duplicates()
                },
        decreases pairs@.len() - m,
    {
        let e = pairs[m];
        let a = e.0;
        let b = e.1;
        let ghost before = worlds@;
        proof {
            assert(trade_recorded(w0[a as int], before[a as int]));
            assert(trade_recorded(w0[b as int], before[b as int]));
            assert(tradeable(w0[a as int]) && tradeable(w0[b as int]));
            lemma_recorded_dbtn(w0[a as int], before[a as int], w0[b as int], before[b as int], cells(*dist)[(a as int, b as int)], passenger);
            lemma_endpoint_sum_grows(w0, *dist, passenger, pairs@, m + 1, pairs@.len() as int, a as int);
            lemma_endpoint_sum_grows(w0, *dist, passenger, pairs@, m + 1, pairs@.len() as int, b as int);
        }
        let dbtn = worlds[a].dbtn(&worlds[b], dist, passenger);
        let credits = credits_of[dbtn];
        worlds[a].endpoint_trade_credits = worlds[a].endpoint_trade_credits + credits;
        worlds[b].endpoint_trade_credits = worlds[b].endpoint_trade_credits + credits;
        let cb = coords[b];
        let ca = coords[a];
        proof {
            assert(worlds@[a as int].dbtn_to_coords == before[a as int].dbtn_to_coords);
            assert((worlds@[a as int].dbtn_to_coords@[dbtn as int])@.no_duplicates());
        }
        add_coords(&mut worlds[a].dbtn_to_coords[dbtn], cb);
        proof {
            assert((worlds@[b as int].dbtn_to_coords@[dbtn as int])@.no_duplicates());
        }
        add_coords(&mut worlds[b].dbtn_to_coords[dbtn], ca);
        proof {
            assert forall|k: int| 0 <= k < n implies {
                &&& trade_recorded(w0[k], #[trigger] worlds@[k])
                &&& worlds@[k].endpoint_trade_credits == w0[k].endpoint_trade_credits + endpoint_sum(
                    w0,
                    *dist,
                    passenger,
                    pairs@,
                    m + 1,
                    k,
                )
                &&& worlds@[k].dbtn_to_coords@.len() == w0[k].dbtn_to_coords@.len()
                &&& forall|d: int|
                    0 <= d < worlds@[k].dbtn_to_coords@.len() ==> (#[trigger] worlds@[k].dbtn_to_coords@[d])@ == dbtn_list(
                        w0,
                        coords@,
                        *dist,
                        passenger,
                        pairs@,
                        m + 1,
                        k,
                        d,
                    )
                &&& forall|d: int|
                    0 <= d < worlds@[k].dbtn_to_coords@.len() ==> (#[trigger] worlds@[k].dbtn_to_coords@[d])@.no_duplicates()
            } by {
                assert(trade_recorded(w0[k], before[k]));
                if k != a && k != b {
                    assert(worlds@[k] == before[k]);
                    assert forall|d: int| 0 <= d < worlds@[k].dbtn_to_coords@.len() implies (#[trigger] worlds@[k].dbtn_to_coords@[d])@
                        == dbtn_list(w0, coords@, *dist, passenger, pairs@, m + 1, k, d) by {
                        assert(before[k].dbtn_to_coords@[d]@ == dbtn_list(w0, coords@, *dist, passenger, pairs@, m as int, k, d));
                    }
                } else {
                    assert forall|d: int| 0 <= d < worlds@[k].dbtn_to_coords@.len() implies (#[trigger] worlds@[k].dbtn_to_coords@[d])@
                        == dbtn_list(w0, coords@, *dist, passenger, pairs@, m + 1, k, d) by {
                        assert(before[k].dbtn_to_coords@[d]@ == dbtn_list(w0, coords@, *dist, passenger, pairs@, m as int, k, d));
                    }
                    assert forall|d: int| 0 <= d < worlds@[k].dbtn_to_coords@.len() implies (#[trigger] worlds@[k].dbtn_to_coords@[d])@.no_duplicates() by {
                        assert(before[k].dbtn_to_coords@[d]@.no_duplicates());
                    }
                }
            }
        }
        m += 1;
    }
}

/// Why the trade between the worlds cannot be recorded.
#[derive(Clone, Copy, Debug, PartialEq, Eq, Structural)]
pub enum TradeError {
    /// A pair's doubled BTN is beyond the credits table or a world's lists
    /// of partners.
    BtnOutOfRange,
    /// A world's credits, or the credits over a jump, do not fit in `u64`.
    CreditOverflow,
}

/// Every pair's doubled BTN indexes the credits table and both worlds'
/// lists of partners.
pub open spec fn pair_bounds_ok(worlds: Seq<World>, dist: Matrix, passenger: bool, pairs: Seq<(usize, usize)>) -> bool {
    forall|m: int|
        0 <= m < pairs.len() ==> {
            let e = #[trigger] pairs[m];
            &&& pair_dbtn(worlds, dist, passenger, e) < credits_table().len()
            &&& pair_dbtn(worlds, dist, passenger, e) < worlds[e.0 as int].dbtn_to_coords@.len()
            &&& pair_dbtn(worlds, dist, passenger, e) < worlds[e.1 as int].dbtn_to_coords@.len()
        }
}

/// Every world's endpoint credits stay within `u64` once the trade of all
/// pairs is added.
pub open spec fn endpoint_fits(worlds: Seq<World>, dist: Matrix, passenger: bool, pairs: Seq<(usize, usize)>) -> bool {
    forall|k: int|
        0 <= k < worlds.len() ==> (#[trigger] worlds[k]).endpoint_trade_credits + endpoint_sum(
            worlds,
            dist,
            passenger,
            pairs,
            pairs.len() as int,
            k,
        ) <= u64::MAX
}

/// Tells whether the trade of `pairs` can be recorded: `BtnOutOfRange`
/// where a pair's doubled BTN is out of range, else `CreditOverflow` where a
/// world's endpoint credits would overflow.
pub fn check_pair_trade(worlds: &Vec<World>, pairs: &Vec<(usize, usize)>, dist: &Matrix, passenger: bool) -> (r: Result<(), TradeError>)
    requires
        indexed(worlds@),
        forall|k: int| 0 <= k < worlds@.len() ==> tradeable(#[trigger] worlds@[k]),
        shape(*dist) == (worlds@.len() as nat, worlds@.len() as nat),
        forall|m: int| 0 <= m < pairs@.len() ==> (#[trigger] pairs@[m]).0 < worlds@.len() && pairs@[m].1 < worlds@.len(),
    ensures
        (r == Err::<(), TradeError>(TradeError::BtnOutOfRange)) <==> !pair_bounds_ok(worlds@, *dist, passenger, pairs@),
        r is Ok <==> pair_bounds_ok(worlds@, *dist, passenger, pairs@) && endpoint_fits(worlds@, *dist, passenger, pairs@),
{
    let ghost w = worlds@;
    let n = worlds.len();
    let credits_of = dbtn_to_credits();
    let mut m: usize = 0;
    while m < pairs.len()
        invariant
            w == worlds@,
            n == w.len(),
            indexed(w),
            forall|k: int| 0 <= k < n ==> tradeable(#[trigger] w[k]),
            shape(*dist) == (n as nat, n as nat),
            forall|mm: int| 0 <= mm < pairs@.len() ==> (#[trigger] pairs@[mm]).0 < n && pairs@[mm].1 < n,
            credits_of@ == credits_table(),
            m <= pairs@.len(),
            forall|mm: int|
                0 <= mm < m ==> {
                    let e = #[trigger] pairs@[mm];
                    &&& pair_dbtn(w, *dist, passenger, e) < credits_table().len()
                    &&& pair_dbtn(w, *dist, passenger, e) < w[e.0 as int].dbtn_to_coords@.len()
                    &&& pair_dbtn(w, *dist, passenger, e) < w[e.1 as int].dbtn_to_coords@.len()
                },
        decreases pairs@.len() - m,
    {
        let e = pairs[m];
        let a = e.0;
        let b = e.1;
        proof {
            assert(tradeable(w[a as int]) && tradeable(w[b as int]));
            assert(w[a as int].index == Some(a) && w[b as int].index == Some(b));
        }
        let d = worlds[a].dbtn(&worlds[b], dist, passenger);
        if d >= credits_of.len() || d >= worlds[a].dbtn_to_coords.len() || d >= worlds[b].dbtn_to_coords.len() {
            proof {
                assert(pair_dbtn(w, *dist, passenger, pairs@[m as int]) == d);
            }
            return Err(TradeError::BtnOutOfRange);
        }
        m += 1;
    }
    let mut acc: Vec<u64> = Vec::new();
    let mut k: usize = 0;
    while k < n
        invariant
            w == worlds@,
            n == w.len(),
            k <= n,
            acc@.len() == k,
            forall|j: int| 0 <= j < k ==> #[trigger] acc@[j] == w[j].endpoint_trade_credits,
        decreases n - k,
    {
        acc.push(worlds[k].endpoint_trade_credits);
        k += 1;
    }
    let mut m: usize = 0;
    while m < pairs.len()
        invariant
            w == worlds@,
            n == w.len(),
            indexed(w),
            forall|k: int| 0 <= k < n ==> tradeable(#[trigger] w[k]),
            shape(*dist) == (n as nat, n as nat),
            forall|mm: int| 0 <= mm < pairs@.len() ==> (#[trigger] pairs@[mm]).0 < n && pairs@[mm].1 < n,
            credits_of@ == credits_table(),
            pair_bounds_ok(w, *dist, passenger, pairs@),
            m <= pairs@.len(),
            acc@.len() == n,
            forall|j: int| 0 <= j < n ==> #[trigger] acc@[j] == w[j].endpoint_trade_credits + endpoint_sum(w, *dist, passenger, pairs@, m as int, j),
        decreases pairs@.len() - m,
    {
        let e = pairs[m];
        let a = e.0;
        let b = e.1;
        proof {
            assert(tradeable(w[a as int]) && tradeable(w[b as int]));
            assert(w[a as int].index == Some(a) && w[b as int].index == Some(b));
            lemma_endpoint_sum_grows(w, *dist, passenger, pairs@, m + 1, pairs@.len() as int, a as int);
            lemma_endpoint_sum_grows(w, *dist, passenger, pairs@, m + 1, pairs@.len() as int, b as int);
        }
        let d = worlds[a].dbtn(&worlds[b], dist, passenger);
        proof {
            assert(pair_dbtn(w, *dist, passenger, pairs@[m as int]) == d);
        }
        let c = credits_of[d];
        if acc[a] > u64::MAX - c {
            proof {
                assert(!endpoint_fits(w, *dist, passenger, pairs@)) by {
                    assert(w[a as int].endpoint_trade_credits + endpoint_sum(w, *dist, passenger, pairs@, pairs@.len() as int, a as int) > u64::MAX);
                }
            }
            return Err(TradeError::CreditOverflow);
        }
        let va = acc[a] + c;
        acc.set(a, va);
        if acc[b] > u64::MAX - c {
            proof {
                assert(!endpoint_fits(w, *dist, passenger, pairs@)) by {
                    assert(w[b as int].endpoint_trade_credits + endpoint_sum(w, *dist, passenger, pairs@, pairs@.len() as int, b as int) > u64::MAX);
                }
            }
            return Err(TradeError::CreditOverflow);
        }
        let vb = acc[b] + c;
        acc.set(b, vb);
        m += 1;
    }
    proof {
        assert forall|j: int| 0 <= j < n implies (#[trigger] w[j]).endpoint_trade_credits + endpoint_sum(
            w,
            *dist,
            passenger,
            pairs@,
            pairs@.len() as int,
            j,
        ) <= u64::MAX by {
            assert(acc@[j] == w[j].endpoint_trade_credits + endpoint_sum(w, *dist, passenger, pairs@, pairs@.len() as int, j));
        }
    }
    Ok(())
}

} // verus!

verus! {

/// The jump credits of the trade of the first `m` worlds of the map.
pub open spec fn all_route_edges(cx: RouteContext, m: int) -> Seq<(Coords, Coords, u64)>
    decreases m,
{
    if m <= 0 {
        Seq::empty()
    } else {
        all_route_edges(cx, m - 1) + cx.worlds[m - 1].route_edges(cx, cx.worlds[m - 1].dbtn_to_coords@.len() as int)
    }
}

/// The transit credits of the trade of the first `m` worlds of the map.
pub open spec fn all_route_transits(cx: RouteContext, m: int) -> Seq<(Coords, u64)>
    decreases m,
{
    if m <= 0 {
        Seq::empty()
    } else {
        all_route_transits(cx, m - 1) + cx.worlds[m - 1].route_transits(cx, cx.worlds[m - 1].dbtn_to_coords@.len() as int)
    }
}

/// The credits carried over the jump between `c1` and `c2`.
pub open spec fn edge_total(e: Seq<(Coords, Coords, u64)>, c1: Coords, c2: Coords) -> int
    decreases e.len(),
{
    if e.len() == 0 {
        0
    } else {
        edge_total(e.drop_last(), c1, c2) + if e.last().0 == c1 && e.last().1 == c2 {
            e.last().2 as int
        } else {
            0
        }
    }
}

/// Some route jumps between `c1` and `c2`.
pub open spec fn edge_present(e: Seq<(Coords, Coords, u64)>, c1: Coords, c2: Coords) -> bool {
    exists|i: int| 0 <= i < e.len() && (#[trigger] e[i]).0 == c1 && e[i].1 == c2
}

/// The credits left at the stop `c`.
pub open spec fn transit_total(t: Seq<(Coords, u64)>, c: Coords) -> int
    decreases t.len(),
{
    if t.len() == 0 {
        0
    } else {
        transit_total(t.drop_last(), c) + if t.last().0 == c {
            t.last().1 as int
        } else {
            0
        }
    }
}

proof fn lemma_edge_total_append(a: Seq<(Coords, Coords, u64)>, b: Seq<(Coords, Coords, u64)>, c1: Coords, c2: Coords)
    ensures
        edge_total(a + b, c1, c2) == edge_total(a, c1, c2) + edge_total(b, c1, c2),
        edge_total(b, c1, c2) >= 0,
    decreases b.len(),
{
    if b.len() > 0 {
        lemma_edge_total_append(a, b.drop_last(), c1, c2);
        assert((a + b).drop_last() =~= a + b.drop_last());
    } else {
        assert(a + b =~= a);
    }
}

proof fn lemma_transit_total_append(a: Seq<(Coords, u64)>, b: Seq<(Coords, u64)>, c: Coords)
    ensures
        transit_total(a + b, c) == transit_total(a, c) + transit_total(b, c),
        transit_total(b, c) >= 0,
    decreases b.len(),
{
    if b.len() > 0 {
        lemma_transit_total_append(a, b.drop_last(), c);
        assert((a + b).drop_last() =~= a + b.drop_last());
    } else {
        assert(a + b =~= a);
    }
}

proof fn lemma_all_edges_grow(cx: RouteContext, m: int, m2: int)
    requires
        0 <= m <= m2,
    ensures
        all_route_edges(cx, m).len() <= all_route_edges(cx, m2).len(),
        all_route_edges(cx, m2).take(all_route_edges(cx, m).len() as int) == all_route_edges(cx, m),
        all_route_transits(cx, m).len() <= all_route_transits(cx, m2).len(),
        all_route_transits(cx, m2).take(all_route_transits(cx, m).len() as int) == all_route_transits(cx, m),
    decreases m2 - m,
{
    if m == m2 {
        assert(all_route_edges(cx, m2).take(all_route_edges(cx, m).len() as int) =~= all_route_edges(cx, m));
        assert(all_route_transits(cx, m2).take(all_route_transits(cx, m).len() as int) =~= all_route_transits(cx, m));
    } else {
        lemma_all_edges_grow(cx, m, m2 - 1);
        let w = cx.worlds[m2 - 1];
        let nb = w.dbtn_to_coords@.len() as int;
        let a = all_route_edges(cx, m2 - 1);
        let b = all_route_transits(cx, m2 - 1);
        assert(all_route_edges(cx, m2) == a + w.route_edges(cx, nb));
        assert(all_route_transits(cx, m2) == b + w.route_transits(cx, nb));
        assert((a + w.route_edges(cx, nb)).take(all_route_edges(cx, m).len() as int) =~= a.take(all_route_edges(cx, m).len() as int));
        assert((b + w.route_transits(cx, nb)).take(all_route_transits(cx, m).len() as int) =~= b.take(all_route_transits(cx, m).len() as int));
    }
}

/// `rows[a]` lists, for each world `b` whose jump from `a` some route uses
/// (`a`'s coordinates first), `b` with the credits carried over that jump.
pub open spec fn ledger_ok(rows: Seq<Vec<(usize, u64)>>, coords: Seq<Coords>, e: Seq<(Coords, Coords, u64)>) -> bool {
    &&& rows.len() == coords.len()
    &&& forall|a: int, t: int|
        0 <= a < rows.len() && 0 <= t < rows[a]@.len() ==> {
            let entry = #[trigger] rows[a]@[t];
            &&& entry.0 < coords.len()
            &&& edge_present(e, coords[a], coords[entry.0 as int])
            &&& entry.1 == edge_total(e, coords[a], coords[entry.0 as int])
        }
    &&& forall|a: int, t1: int, t2: int|
        0 <= a < rows.len() && 0 <= t1 < t2 < rows[a]@.len() ==> (#[trigger] rows[a]@[t1]).0 != (#[trigger] rows[a]@[t2]).0
    &&& forall|a: int, b: int|
        0 <= a < coords.len() && 0 <= b < coords.len() && #[trigger] edge_present(e, coords[a], coords[b]) ==> exists|t: int|
            0 <= t < rows[a]@.len() && (#[trigger] rows[a]@[t]).0 == b
}

} // verus!

verus! {

/// Adds the credits of one jump of a route to the ledger, where the jump's
/// total stays within `u64`; it says whether it did.
fn ledger_add(
    rows: &mut Vec<Vec<(usize, u64)>>,
    coords: &Vec<Coords>,
    a: usize,
    b: usize,
    credits: u64,
    Ghost(e): Ghost<Seq<(Coords, Coords, u64)>>,
) -> (ok: bool)
    requires
        coords_sorted(coords@),
        ledger_ok(old(rows)@, coords@, e),
        a < coords@.len(),
        b < coords@.len(),
    ensures
        ok == (edge_total(e.push((coords@[a as int], coords@[b as int], credits)), coords@[a as int], coords@[b as int]) <= u64::MAX),
        ok ==> ledger_ok(final(rows)@, coords@, e.push((coords@[a as int], coords@[b as int], credits))),
{
    let ghost x = (coords@[a as int], coords@[b as int], credits);
    let ghost e2 = e.push(x);
    let ghost before = rows@;
    let ghost n = coords@.len() as int;
    proof {
        assert(e2.drop_last() =~= e);
        assert forall|a2: int, b2: int| 0 <= a2 < n && 0 <= b2 < n implies (#[trigger] edge_present(e2, coords@[a2], coords@[b2])) == (
        edge_present(e, coords@[a2], coords@[b2]) || (a2 == a && b2 == b)) && edge_total(e2, coords@[a2], coords@[b2]) == edge_total(
            e,
            coords@[a2],
            coords@[b2],
        ) + if a2 == a && b2 == b {
            credits as int
        } else {
            0
        } by {
            if a2 != a {
                if a2 < a {
                    assert(crate::atlas::coords_lt(coords@[a2], coords@[a as int]));
                } else {
                    assert(crate::atlas::coords_lt(coords@[a as int], coords@[a2]));
                }
            }
            if b2 != b {
                if b2 < b {
                    assert(crate::atlas::coords_lt(coords@[b2], coords@[b as int]));
                } else {
                    assert(crate::atlas::coords_lt(coords@[b as int], coords@[b2]));
                }
            }
            if edge_present(e2, coords@[a2], coords@[b2]) {
                let i = choose|i: int| 0 <= i < e2.len() && (#[trigger] e2[i]).0 == coords@[a2] && e2[i].1 == coords@[b2];
                if i < e.len() {
                    assert(e[i] == e2[i]);
                }
            }
            if edge_present(e, coords@[a2], coords@[b2]) {
                let i = choose|i: int| 0 <= i < e.len() && (#[trigger] e[i]).0 == coords@[a2] && e[i].1 == coords@[b2];
                assert(e2[i] == e[i]);
            }
            if a2 == a && b2 == b {
                assert(e2[e.len() as int] == x);
            }
        }
    }
    let mut t: usize = 0;
    let len = rows[a].len();
    while t < len
        invariant
            rows@ == before,
            coords_sorted(coords@),
            ledger_ok(before, coords@, e),
            n == coords@.len(),
            a < n,
            b < n,
            x == (coords@[a as int], coords@[b as int], credits),
            e2 == e.push(x),
            forall|a2: int, b2: int|
                0 <= a2 < n && 0 <= b2 < n ==> (#[trigger] edge_present(e2, coords@[a2], coords@[b2])) == (edge_present(
                    e,
                    coords@[a2],
                    coords@[b2],
                ) || (a2 == a && b2 == b)) && edge_total(e2, coords@[a2], coords@[b2]) == edge_total(e, coords@[a2], coords@[b2])
                    + if a2 == a && b2 == b {
                    credits as int
                } else {
                    0
                },
            a < before.len(),
            len == before[a as int]@.len(),
            t <= len,
            forall|s: int| 0 <= s < t ==> (#[trigger] before[a as int]@[s]).0 != b,
        decreases len - t,
    {
        if rows[a][t].0 == b {
            let v = rows[a][t].1;
            proof {
                assert(before[a as int]@[t as int].0 == b);
                assert(v == edge_total(e, coords@[a as int], coords@[b as int]));
                assert(edge_present(e2, coords@[a as int], coords@[b as int]));
            }
            if v > u64::MAX - credits {
                return false;
            }
            rows[a][t] = (b, v + credits);
            proof {
                assert forall|a2: int, s: int| 0 <= a2 < rows@.len() && 0 <= s < rows@[a2]@.len() implies {
                    let entry = #[trigger] rows@[a2]@[s];
                    &&& entry.0 < coords@.len()
                    &&& edge_present(e2, coords@[a2], coords@[entry.0 as int])
                    &&& entry.1 == edge_total(e2, coords@[a2], coords@[entry.0 as int])
                } by {
                    if a2 == a && s == t {
                        assert(edge_present(e2, coords@[a as int], coords@[b as int]));
                    } else {
                        let old_entry = before[a2]@[s];
                        assert(rows@[a2]@[s] == old_entry);
                        assert(old_entry.0 < n);
                        assert(edge_present(e, coords@[a2], coords@[old_entry.0 as int]));
                        if a2 == a {
                            if s < t {
                                assert(old_entry.0 != b);
                            } else {
                                assert(before[a2]@[t as int].0 != before[a2]@[s].0);
                            }
                        }
                        assert(edge_present(e2, coords@[a2], coords@[old_entry.0 as int]));
                    }
                }
                assert forall|a2: int, t1: int, t2: int| 0 <= a2 < rows@.len() && 0 <= t1 < t2 < rows@[a2]@.len() implies (
                #[trigger] rows@[a2]@[t1]).0 != (#[trigger] rows@[a2]@[t2]).0 by {
                    if a2 == a {
                        assert(before[a2]@[t1].0 != before[a2]@[t2].0);
                    } else {
                        assert(rows@[a2] == before[a2]);
                    }
                }
                assert forall|a2: int, b2: int| 0 <= a2 < n && 0 <= b2 < n && #[trigger] edge_present(e2, coords@[a2], coords@[b2]) implies exists|s: int|
                    0 <= s < rows@[a2]@.len() && (#[trigger] rows@[a2]@[s]).0 == b2 by {
                    if a2 == a && b2 == b {
                        assert(rows@[a2]@[t as int].0 == b2);
                    } else {
                        assert(edge_present(e, coords@[a2], coords@[b2]));
                        let s = choose|s: int| 0 <= s < before[a2]@.len() && (#[trigger] before[a2]@[s]).0 == b2;
                        assert(rows@[a2]@[s].0 == b2);
                    }
                }
            }
            return true;
        }
        t += 1;
    }
    rows[a].push((b, credits));
    proof {
        assert(!edge_present(e, coords@[a as int], coords@[b as int])) by {
            if edge_present(e, coords@[a as int], coords@[b as int]) {
                let s = choose|s: int| 0 <= s < before[a as int]@.len() && (#[trigger] before[a as int]@[s]).0 == b;
            }
        }
        assert(edge_total(e, coords@[a as int], coords@[b as int]) == 0) by {
            lemma_absent_total(e, coords@[a as int], coords@[b as int]);
        }
        assert forall|a2: int, s: int| 0 <= a2 < rows@.len() && 0 <= s < rows@[a2]@.len() implies {
            let entry = #[trigger] rows@[a2]@[s];
            &&& entry.0 < coords@.len()
            &&& edge_present(e2, coords@[a2], coords@[entry.0 as int])
            &&& entry.1 == edge_total(e2, coords@[a2], coords@[entry.0 as int])
        } by {
            if a2 == a && s == len {
                assert(edge_present(e2, coords@[a as int], coords@[b as int]));
            } else {
                let old_entry = before[a2]@[s];
                assert(rows@[a2]@[s] == old_entry);
                assert(old_entry.0 < n);
                assert(edge_present(e, coords@[a2], coords@[old_entry.0 as int]));
                if a2 == a {
                    assert(old_entry.0 != b);
                }
                assert(edge_present(e2, coords@[a2], coords@[old_entry.0 as int]));
            }
        }
        assert forall|a2: int, t1: int, t2: int| 0 <= a2 < rows@.len() && 0 <= t1 < t2 < rows@[a2]@.len() implies (
        #[trigger] rows@[a2]@[t1]).0 != (#[trigger] rows@[a2]@[t2]).0 by {
            if a2 == a {
                if t2 == len {
                    assert(before[a2]@[t1].0 != b);
                } else {
                    assert(before[a2]@[t1].0 != before[a2]@[t2].0);
                }
            } else {
                assert(rows@[a2] == before[a2]);
            }
        }
        assert forall|a2: int, b2: int| 0 <= a2 < n && 0 <= b2 < n && #[trigger] edge_present(e2, coords@[a2], coords@[b2]) implies exists|s: int|
            0 <= s < rows@[a2]@.len() && (#[trigger] rows@[a2]@[s]).0 == b2 by {
            if a2 == a && b2 == b {
                assert(rows@[a2]@[len as int].0 == b2);
            } else {
                assert(edge_present(e, coords@[a2], coords@[b2]));
                let s = choose|s: int| 0 <= s < before[a2]@.len() && (#[trigger] before[a2]@[s]).0 == b2;
                assert(rows@[a2]@[s].0 == b2);
            }
        }
    }
    true
}

proof fn lemma_absent_total(e: Seq<(Coords, Coords, u64)>, c1: Coords, c2: Coords)
    requires
        !edge_present(e, c1, c2),
    ensures
        edge_total(e, c1, c2) == 0,
    decreases e.len(),
{
    if e.len() > 0 {
        assert(!edge_present(e.drop_last(), c1, c2)) by {
            if edge_present(e.drop_last(), c1, c2) {
                let i = choose|i: int| 0 <= i < e.drop_last().len() && (#[trigger] e.drop_last()[i]).0 == c1 && e.drop_last()[i].1 == c2;
                assert(e[i] == e.drop_last()[i]);
            }
        }
        lemma_absent_total(e.drop_last(), c1, c2);
        assert(!(e.last().0 == c1 && e.last().1 == c2)) by {
            if e.last().0 == c1 && e.last().1 == c2 {
                assert(e[e.len() - 1] == e.last());
            }
        }
    }
}

} // verus!

verus! {

/// Searches the routes of every world's trade and sums up the credits over
/// each jump (in the ledger) and at each stop between a route's ends; none
/// where a sum does not fit in `u64`.
pub fn gather_route_credits(
    worlds: &Vec<World>,
    coords: &Vec<Coords>,
    max_jumps: &[u8],
    min_route_dbtn: i64,
    tables: &Vec<JumpTable>,
) -> (r: Option<(Vec<Vec<(usize, u64)>>, Vec<u64>)>)
    requires
        (RouteContext { sorted: coords@, worlds: worlds@, tables: tables@, max_jumps: max_jumps@, min_route_dbtn }).ready(),
        forall|k: int| 0 <= k < worlds@.len() ==> (#[trigger] worlds@[k]).partners_known(coords@),
    ensures
        r is Some <==> ({
            let cx = RouteContext { sorted: coords@, worlds: worlds@, tables: tables@, max_jumps: max_jumps@, min_route_dbtn };
            &&& forall|a: int, b: int|
                0 <= a < coords@.len() && 0 <= b < coords@.len() ==> edge_total(
                    all_route_edges(cx, worlds@.len() as int),
                    #[trigger] coords@[a],
                    #[trigger] coords@[b],
                ) <= u64::MAX
            &&& forall|k: int|
                0 <= k < coords@.len() ==> transit_total(all_route_transits(cx, worlds@.len() as int), #[trigger] coords@[k])
                    <= u64::MAX
        }),
        r matches Some(g) ==> ({
            let cx = RouteContext { sorted: coords@, worlds: worlds@, tables: tables@, max_jumps: max_jumps@, min_route_dbtn };
            &&& ledger_ok(g.0@, coords@, all_route_edges(cx, worlds@.len() as int))
            &&& g.1@.len() == coords@.len()
            &&& forall|k: int|
                0 <= k < coords@.len() ==> #[trigger] g.1@[k] == transit_total(all_route_transits(cx, worlds@.len() as int), coords@[k])
        }),
{
    let ghost cx = RouteContext { sorted: coords@, worlds: worlds@, tables: tables@, max_jumps: max_jumps@, min_route_dbtn };
    let ghost total_e = all_route_edges(cx, worlds@.len() as int);
    let ghost total_t = all_route_transits(cx, worlds@.len() as int);
    let n = worlds.len();
    let mut rows: Vec<Vec<(usize, u64)>> = Vec::new();
    let mut transit: Vec<u64> = Vec::new();
    let mut i: usize = 0;
    while i < n
        invariant
            n == worlds@.len(),
            n == coords@.len(),
            i <= n,
            rows@.len() == i,
            transit@.len() == i,
            forall|k: int| 0 <= k < i ==> (#[trigger] rows@[k])@.len() == 0,
            forall|k: int| 0 <= k < i ==> #[trigger] transit@[k] == 0,
        decreases n - i,
    {
        rows.push(Vec::new());
        transit.push(0);
        i += 1;
    }
    proof {
        assert(ledger_ok(rows@, coords@, all_route_edges(cx, 0)));
        assert forall|q: int| 0 <= q < n implies #[trigger] transit@[q] == transit_total(all_route_transits(cx, 0), coords@[q]) by {}
    }
    let mut k: usize = 0;
    while k < n
        invariant
            cx == (RouteContext { sorted: coords@, worlds: worlds@, tables: tables@, max_jumps: max_jumps@, min_route_dbtn }),
            cx.ready(),
            total_e == all_route_edges(cx, worlds@.len() as int),
            total_t == all_route_transits(cx, worlds@.len() as int),
            forall|q: int| 0 <= q < worlds@.len() ==> (#[trigger] worlds@[q]).partners_known(coords@),
            n == worlds@.len(),
            n == coords@.len(),
            k <= n,
            ledger_ok(rows@, coords@, all_route_edges(cx, k as int)),
            transit@.len() == n,
            forall|q: int| 0 <= q < n ==> #[trigger] transit@[q] == transit_total(all_route_transits(cx, k as int), coords@[q]),
        decreases n - k,
    {
        let world = &worlds[k];
        proof {
            assert(world.index == Some(k));
            assert(world.placed_in(cx));
            world.lemma_route_credits_in_map(cx, world.dbtn_to_coords@.len() as int);
            lemma_all_edges_grow(cx, k + 1, n as int);
        }
        let (es, ts) = world.find_route_paths(coords, worlds, max_jumps, min_route_dbtn, tables);
        let ghost base_e = all_route_edges(cx, k as int);
        let ghost base_t = all_route_transits(cx, k as int);
        let ghost rest_e = all_route_edges(cx, n as int).skip(all_route_edges(cx, k + 1).len() as int);
        let ghost rest_t = all_route_transits(cx, n as int).skip(all_route_transits(cx, k + 1).len() as int);
        proof {
            assert(all_route_edges(cx, n as int) =~= all_route_edges(cx, k + 1) + rest_e);
            assert(all_route_transits(cx, n as int) =~= all_route_transits(cx, k + 1) + rest_t);
            assert(all_route_edges(cx, k + 1) == base_e + es@);
            assert(all_route_transits(cx, k + 1) == base_t + ts@);
        }
        if !fold_edges(&mut rows, coords, &es, Ghost(cx), Ghost(base_e), Ghost(rest_e), Ghost(total_e)) {
            return None;
        }
        if !fold_transits(&mut transit, coords, &ts, Ghost(cx), Ghost(base_t), Ghost(rest_t), Ghost(total_t)) {
            return None;
        }
        k += 1;
    }
    proof {
        assert forall|a: int, b: int| 0 <= a < n && 0 <= b < n implies edge_total(total_e, #[trigger] coords@[a], #[trigger] coords@[b])
            <= u64::MAX by {
            if edge_present(total_e, coords@[a], coords@[b]) {
                let t = choose|t: int| 0 <= t < rows@[a]@.len() && (#[trigger] rows@[a]@[t]).0 == b;
                assert(rows@[a]@[t].1 == edge_total(total_e, coords@[a], coords@[b]));
            } else {
                lemma_absent_total(total_e, coords@[a], coords@[b]);
            }
        }
        assert forall|q: int| 0 <= q < n implies transit_total(total_t, #[trigger] coords@[q]) <= u64::MAX by {
            assert(transit@[q] == transit_total(total_t, coords@[q]));
        }
    }
    Some((rows, transit))
}

} // verus!

verus! {

/// The class of a route by the credits over one of its jumps, against the
/// least doubled BTN of a minor route: 0 major, 1 main, 2 intermediate,
/// 3 feeder, 4 minor (each one BTN below the last), 5 no route.
pub open spec fn route_class(credits: u64, min_route_dbtn: int) -> int {
    let d = first_not_below(credits_table(), credits) as int;
    if d >= min_route_dbtn + 8 {
        0
    } else if d >= min_route_dbtn + 6 {
        1
    } else if d >= min_route_dbtn + 4 {
        2
    } else if d >= min_route_dbtn + 2 {
        3
    } else if d >= min_route_dbtn {
        4
    } else {
        5
    }
}

/// The route list of class `class`.
pub open spec fn route_list(w: World, class: int) -> Seq<Coords> {
    if class == 0 {
        w.major_routes@
    } else if class == 1 {
        w.main_routes@
    } else if class == 2 {
        w.intermediate_routes@
    } else if class == 3 {
        w.feeder_routes@
    } else {
        w.minor_routes@
    }
}

/// Only the route lists and the transit credits of a world have changed.
pub open spec fn routes_recorded(before: World, after: World) -> bool {
    after == (World {
        major_routes: after.major_routes,
        main_routes: after.main_routes,
        intermediate_routes: after.intermediate_routes,
        feeder_routes: after.feeder_routes,
        minor_routes: after.minor_routes,
        transient_trade_credits: after.transient_trade_credits,
        ..before
    })
}

/// The worlds linked to the world at `k` by a route jump of class `class`.
pub open spec fn linked(e: Seq<(Coords, Coords, u64)>, coords: Seq<Coords>, min_route_dbtn: int, k: int, class: int) -> Set<Coords> {
    Set::new(
        |c: Coords|
            exists|b: int|
                0 <= b < coords.len() && #[trigger] coords[b] == c && {
                    ||| edge_present(e, coords[k], c) && route_class(edge_total(e, coords[k], c) as u64, min_route_dbtn) == class
                    ||| edge_present(e, c, coords[k]) && route_class(edge_total(e, c, coords[k]) as u64, min_route_dbtn) == class
                },
    )
}

pub open spec fn entry_links(rows: Seq<Vec<(usize, u64)>>, coords: Seq<Coords>, md: int, a2: int, t2: int, k: int, class: int, c: Coords) -> bool {
    let entry = rows[a2]@[t2];
    &&& route_class(entry.1, md) == class
    &&& ((a2 == k && coords[entry.0 as int] == c) || (entry.0 == k && coords[a2] == c))
}

pub open spec fn links_before(rows: Seq<Vec<(usize, u64)>>, coords: Seq<Coords>, md: int, a: int, t: int, k: int, class: int) -> Set<Coords> {
    Set::new(
        |c: Coords|
            exists|a2: int, t2: int|
                0 <= a2 < rows.len() && 0 <= t2 < rows[a2]@.len() && (a2 < a || (a2 == a && t2 < t)) && #[trigger] entry_links(
                    rows,
                    coords,
                    md,
                    a2,
                    t2,
                    k,
                    class,
                    c,
                ),
    )
}

fn route_class_of(credits: u64, min_route_dbtn: i64) -> (class: u8)
    ensures
        class as int == route_class(credits, min_route_dbtn as int),
{
    let d = credits_to_dbtn(credits) as i64;
    if d - 8 >= min_route_dbtn {
        0
    } else if d - 6 >= min_route_dbtn {
        1
    } else if d - 4 >= min_route_dbtn {
        2
    } else if d - 2 >= min_route_dbtn {
        3
    } else if d >= min_route_dbtn {
        4
    } else {
        5
    }
}

fn add_route(w: &mut World, class: u8, c: Coords)
    requires
        class < 5,
        route_list(*old(w), class as int).no_duplicates(),
    ensures
        *final(w) == (World {
            major_routes: final(w).major_routes,
            main_routes: final(w).main_routes,
            intermediate_routes: final(w).intermediate_routes,
            feeder_routes: final(w).feeder_routes,
            minor_routes: final(w).minor_routes,
            ..*old(w)
        }),
        route_list(*final(w), class as int).no_duplicates(),
        route_list(*final(w), class as int).to_set() == route_list(*old(w), class as int).to_set().insert(c),
        forall|other: int| 0 <= other < 5 && other != class ==> route_list(*final(w), other) == route_list(*old(w), other),
{
    if class == 0 {
        add_coords(&mut w.major_routes, c);
    } else if class == 1 {
        add_coords(&mut w.main_routes, c);
    } else if class == 2 {
        add_coords(&mut w.intermediate_routes, c);
    } else if class == 3 {
        add_coords(&mut w.feeder_routes, c);
    } else {
        add_coords(&mut w.minor_routes, c);
    }
}

} // verus!

verus! {

/// The route lists of the world at `k` hold, besides what they held, the
/// worlds linked to it by the ledger entries before `(a, t)`.
pub open spec fn routes_so_far(
    worlds: Seq<World>,
    w0: Seq<World>,
    rows: Seq<Vec<(usize, u64)>>,
    coords: Seq<Coords>,
    md: int,
    a: int,
    t: int,
) -> bool {
    forall|k: int, class: int|
        0 <= k < worlds.len() && 0 <= class < 5 ==> {
            &&& #[trigger] route_list(worlds[k], class).no_duplicates()
            &&& route_list(worlds[k], class).to_set() == route_list(w0[k], class).to_set().union(
                links_before(rows, coords, md, a, t, k, class),
            )
        }
}

/// Each route is listed by both of its worlds, under the same class.
pub open spec fn routes_symmetric(worlds: Seq<World>, coords: Seq<Coords>) -> bool {
    forall|i: int, j: int, class: int|
        #![trigger route_list(worlds[i], class).contains(coords[j]), route_list(worlds[j], class).contains(coords[i])]
        0 <= i < worlds.len() && 0 <= j < worlds.len() && 0 <= class < 5 ==> (route_list(worlds[i], class).contains(coords[j])
            <==> route_list(worlds[j], class).contains(coords[i]))
}

proof fn lemma_routes_symmetric_kept(w1: Seq<World>, w0: Seq<World>, e: Seq<(Coords, Coords, u64)>, coords: Seq<Coords>, md: int)
    requires
        w1.len() == w0.len(),
        w1.len() <= coords.len(),
        routes_symmetric(w0, coords),
        routes_linked(w1, w0, e, coords, md),
    ensures
        routes_symmetric(w1, coords),
{
    assert forall|i: int, j: int, class: int| 0 <= i < w1.len() && 0 <= j < w1.len() && 0 <= class < 5 implies (route_list(
        w1[i],
        class,
    ).contains(coords[j]) <==> route_list(w1[j], class).contains(coords[i])) by {
        assert(route_list(w1[i], class).no_duplicates());
        assert(route_list(w1[j], class).no_duplicates());
        assert(route_list(w1[i], class).to_set().contains(coords[j]) == route_list(w1[i], class).contains(coords[j]));
        assert(route_list(w1[j], class).to_set().contains(coords[i]) == route_list(w1[j], class).contains(coords[i]));
        assert(route_list(w0[i], class).to_set().contains(coords[j]) == route_list(w0[i], class).contains(coords[j]));
        assert(route_list(w0[j], class).to_set().contains(coords[i]) == route_list(w0[j], class).contains(coords[i]));
        assert(route_list(w0[i], class).contains(coords[j]) == route_list(w0[j], class).contains(coords[i]));
        let li = linked(e, coords, md, i, class);
        let lj = linked(e, coords, md, j, class);
        if li.contains(coords[j]) {
            assert(coords[i] == coords[i]);
            assert(lj.contains(coords[i]));
        }
        if lj.contains(coords[i]) {
            assert(coords[j] == coords[j]);
            assert(li.contains(coords[j]));
        }
    }
}

/// Each route jump is listed with its lower coordinates first.
pub open spec fn edges_ordered(e: Seq<(Coords, Coords, u64)>) -> bool {
    forall|i: int| 0 <= i < e.len() ==> crate::atlas::coords_lt((#[trigger] e[i]).0, e[i].1) || e[i].0 == e[i].1
}

proof fn lemma_bucket_edges_ordered(w: World, cx: RouteContext, b: int, t: int)
    ensures
        edges_ordered(w.bucket_edges(cx, b, t)),
    decreases t,
{
    if t > 0 {
        lemma_bucket_edges_ordered(w, cx, b, t - 1);
        let a = w.bucket_edges(cx, b, t - 1);
        let c = crate::trade::edge_credits(w.trade_route(cx, b, w.dbtn_to_coords@[b]@[t - 1]), credits_table()[b]);
        assert(edges_ordered(c));
        assert forall|i: int| 0 <= i < (a + c).len() implies crate::atlas::coords_lt((#[trigger] (a + c)[i]).0, (a + c)[i].1)
            || (a + c)[i].0 == (a + c)[i].1 by {
            if i < a.len() {
                assert((a + c)[i] == a[i]);
            } else {
                assert((a + c)[i] == c[i - a.len()]);
            }
        }
    }
}

proof fn lemma_route_edges_ordered(w: World, cx: RouteContext, b: int)
    ensures
        edges_ordered(w.route_edges(cx, b)),
    decreases b,
{
    if b > 0 {
        lemma_route_edges_ordered(w, cx, b - 1);
        let a = w.route_edges(cx, b - 1);
        let c = w.bucket_edges(cx, b - 1, w.dbtn_to_coords@[b - 1]@.len() as int);
        lemma_bucket_edges_ordered(w, cx, b - 1, w.dbtn_to_coords@[b - 1]@.len() as int);
        assert forall|i: int| 0 <= i < (a + c).len() implies crate::atlas::coords_lt((#[trigger] (a + c)[i]).0, (a + c)[i].1)
            || (a + c)[i].0 == (a + c)[i].1 by {
            if i < a.len() {
                assert((a + c)[i] == a[i]);
            } else {
                assert((a + c)[i] == c[i - a.len()]);
            }
        }
    }
}

proof fn lemma_all_edges_ordered(cx: RouteContext, m: int)
    ensures
        edges_ordered(all_route_edges(cx, m)),
    decreases m,
{
    if m > 0 {
        lemma_all_edges_ordered(cx, m - 1);
        let w = cx.worlds[m - 1];
        let a = all_route_edges(cx, m - 1);
        let c = w.route_edges(cx, w.dbtn_to_coords@.len() as int);
        lemma_route_edges_ordered(w, cx, w.dbtn_to_coords@.len() as int);
        assert forall|i: int| 0 <= i < (a + c).len() implies crate::atlas::coords_lt((#[trigger] (a + c)[i]).0, (a + c)[i].1)
            || (a + c)[i].0 == (a + c)[i].1 by {
            if i < a.len() {
                assert((a + c)[i] == a[i]);
            } else {
                assert((a + c)[i] == c[i - a.len()]);
            }
        }
    }
}

/// No world lists another under two route classes.
pub open spec fn routes_disjoint(worlds: Seq<World>) -> bool {
    forall|k: int, a: int, b: int, x: Coords|
        #![trigger route_list(worlds[k], a).contains(x), route_list(worlds[k], b).contains(x)]
        0 <= k < worlds.len() && 0 <= a < b < 5 ==> !(route_list(worlds[k], a).contains(x) && route_list(worlds[k], b).contains(x))
}

proof fn lemma_linked_disjoint(e: Seq<(Coords, Coords, u64)>, coords: Seq<Coords>, md: int, k: int, a: int, b: int, x: Coords)
    requires
        edges_ordered(e),
        0 <= k < coords.len(),
        a != b,
    ensures
        !(linked(e, coords, md, k, a).contains(x) && linked(e, coords, md, k, b).contains(x)),
{
    let ck = coords[k];
    if edge_present(e, ck, x) && edge_present(e, x, ck) && ck != x {
        let i = choose|i: int| 0 <= i < e.len() && (#[trigger] e[i]).0 == ck && e[i].1 == x;
        let j = choose|j: int| 0 <= j < e.len() && (#[trigger] e[j]).0 == x && e[j].1 == ck;
        assert(crate::atlas::coords_lt(ck, x) || ck == x);
        assert(crate::atlas::coords_lt(x, ck) || ck == x);
    }
}

proof fn lemma_all_edges_nonself(cx: RouteContext, m: int)
    requires
        cx.ready(),
        forall|k: int| 0 <= k < cx.worlds.len() ==> (#[trigger] cx.worlds[k]).partners_known(cx.sorted),
        m <= cx.worlds.len(),
    ensures
        edges_nonself(all_route_edges(cx, m)),
    decreases m,
{
    if m > 0 {
        lemma_all_edges_nonself(cx, m - 1);
        let w = cx.worlds[m - 1];
        assert(w.index == Some((m - 1) as usize));
        assert(w.partners_known(cx.sorted));
        w.lemma_route_edges_nonself(cx, w.dbtn_to_coords@.len() as int);
        let a = all_route_edges(cx, m - 1);
        let b = w.route_edges(cx, w.dbtn_to_coords@.len() as int);
        assert forall|i: int| 0 <= i < (a + b).len() implies (#[trigger] (a + b)[i]).0 != (a + b)[i].1 by {
            if i < a.len() {
                assert((a + b)[i] == a[i]);
            } else {
                assert((a + b)[i] == b[i - a.len()]);
            }
        }
    }
}

/// No world lists itself on one of its routes.
pub open spec fn routes_exclude_self(worlds: Seq<World>, coords: Seq<Coords>) -> bool {
    forall|k: int, class: int| 0 <= k < worlds.len() && 0 <= class < 5 ==> !(#[trigger] route_list(worlds[k], class)).contains(coords[k])
}

proof fn lemma_route_lists_kept(w0: Seq<World>, ws: Seq<World>, w1: Seq<World>, coords: Seq<Coords>, cx: RouteContext, md: int)
    requires
        w0.len() == ws.len(),
        ws.len() == w1.len(),
        w1.len() == coords.len(),
        cx.worlds == ws,
        forall|k: int| 0 <= k < ws.len() ==> trade_recorded(w0[k], #[trigger] ws[k]),
        routes_linked(w1, ws, all_route_edges(cx, ws.len() as int), coords, md),
        cx.ready(),
        cx.sorted == coords,
        forall|k: int| 0 <= k < ws.len() ==> (#[trigger] ws[k]).partners_known(coords),
    ensures
        routes_symmetric(w0, coords) ==> routes_symmetric(w1, coords),
        (forall|k: int, class: int| 0 <= k < w0.len() && 0 <= class < 5 ==> #[trigger] route_list(w0[k], class).len() == 0)
            ==> routes_disjoint(w1) && routes_exclude_self(w1, coords),
{
    let n = ws.len() as int;
    if routes_symmetric(w0, coords) {
        assert forall|i: int, j: int, class: int| 0 <= i < n && 0 <= j < n && 0 <= class < 5 implies (route_list(
            ws[i],
            class,
        ).contains(coords[j]) <==> route_list(ws[j], class).contains(coords[i])) by {
            assert(trade_recorded(w0[i], ws[i]));
            assert(trade_recorded(w0[j], ws[j]));
            assert(route_list(ws[i], class) == route_list(w0[i], class));
            assert(route_list(ws[j], class) == route_list(w0[j], class));
        }
        lemma_routes_symmetric_kept(w1, ws, all_route_edges(cx, n), coords, md);
    }
    if forall|k: int, class: int| 0 <= k < w0.len() && 0 <= class < 5 ==> #[trigger] route_list(w0[k], class).len() == 0 {
        let e = all_route_edges(cx, n);
        lemma_all_edges_ordered(cx, n);
        assert forall|k: int, a: int, b: int, x: Coords|
            0 <= k < w1.len() && 0 <= a < b < 5 implies !(#[trigger] route_list(w1[k], a).contains(x)
            && #[trigger] route_list(w1[k], b).contains(x)) by {
            assert(trade_recorded(w0[k], ws[k]));
            assert(route_list(ws[k], a) == route_list(w0[k], a));
            assert(route_list(ws[k], b) == route_list(w0[k], b));
            assert(route_list(w0[k], a).len() == 0);
            assert(route_list(w0[k], b).len() == 0);
            assert(route_list(w1[k], a).no_duplicates());
            assert(route_list(w1[k], b).no_duplicates());
            assert(route_list(ws[k], a).to_set() =~= Set::<Coords>::empty());
            assert(route_list(ws[k], b).to_set() =~= Set::<Coords>::empty());
            assert(route_list(w1[k], a).to_set().contains(x) == route_list(w1[k], a).contains(x));
            assert(route_list(w1[k], b).to_set().contains(x) == route_list(w1[k], b).contains(x));
            lemma_linked_disjoint(e, coords, md, k, a, b, x);
            if route_list(w1[k], a).contains(x) && route_list(w1[k], b).contains(x) {
                assert(linked(e, coords, md, k, a).contains(x));
                assert(linked(e, coords, md, k, b).contains(x));
            }
        }
        lemma_all_edges_nonself(cx, n);
        assert forall|k: int, class: int| 0 <= k < w1.len() && 0 <= class < 5 implies !(#[trigger] route_list(w1[k], class)).contains(
            coords[k],
        ) by {
            assert(trade_recorded(w0[k], ws[k]));
            assert(route_list(ws[k], class) == route_list(w0[k], class));
            assert(route_list(w0[k], class).len() == 0);
            assert(route_list(w1[k], class).no_duplicates());
            assert(route_list(ws[k], class).to_set() =~= Set::<Coords>::empty());
            assert(route_list(w1[k], class).to_set().contains(coords[k]) == route_list(w1[k], class).contains(coords[k]));
            if linked(e, coords, md, k, class).contains(coords[k]) {
                let i = choose|i: int| 0 <= i < e.len() && (#[trigger] e[i]).0 == coords[k] && e[i].1 == coords[k];
                assert(e[i].0 != e[i].1);
            }
        }
    }
}

/// The route lists of each world hold, besides what they held before, the
/// worlds linked to it by route jumps of their class, each once.
pub open spec fn routes_linked(worlds: Seq<World>, w0: Seq<World>, e: Seq<(Coords, Coords, u64)>, coords: Seq<Coords>, md: int) -> bool {
    forall|k: int, class: int|
        0 <= k < worlds.len() && 0 <= class < 5 ==> {
            &&& #[trigger] route_list(worlds[k], class).no_duplicates()
            &&& route_list(worlds[k], class).to_set() == route_list(w0[k], class).to_set().union(linked(e, coords, md, k, class))
        }
}

/// The links recorded before entry `t + 1` of row `a` are those before entry
/// `t`, and those of entry `t` itself.
proof fn lemma_links_step(rows: Seq<Vec<(usize, u64)>>, coords: Seq<Coords>, md: int, a: int, t: int, k: int, cl: int)
    requires
        0 <= a < rows.len(),
        0 <= t < rows[a]@.len(),
    ensures
        links_before(rows, coords, md, a, t + 1, k, cl) == links_before(rows, coords, md, a, t, k, cl).union(
            Set::new(|c: Coords| entry_links(rows, coords, md, a, t, k, cl, c)),
        ),
{
    let extra = Set::new(|c: Coords| entry_links(rows, coords, md, a, t, k, cl, c));
    assert forall|c: Coords| links_before(rows, coords, md, a, t + 1, k, cl).contains(c) implies links_before(
        rows,
        coords,
        md,
        a,
        t,
        k,
        cl,
    ).contains(c) || extra.contains(c) by {
        let (a2, t2) = choose|a2: int, t2: int|
            0 <= a2 < rows.len() && 0 <= t2 < rows[a2]@.len() && (a2 < a || (a2 == a && t2 < t + 1)) && #[trigger] entry_links(
                rows,
                coords,
                md,
                a2,
                t2,
                k,
                cl,
                c,
            );
        if !(a2 == a && t2 == t) {
            assert(entry_links(rows, coords, md, a2, t2, k, cl, c));
        }
    }
    assert forall|c: Coords| extra.contains(c) implies links_before(rows, coords, md, a, t + 1, k, cl).contains(c) by {
        assert(entry_links(rows, coords, md, a, t, k, cl, c));
    }
    assert forall|c: Coords| links_before(rows, coords, md, a, t, k, cl).contains(c) implies links_before(
        rows,
        coords,
        md,
        a,
        t + 1,
        k,
        cl,
    ).contains(c) by {
        let (a2, t2) = choose|a2: int, t2: int|
            0 <= a2 < rows.len() && 0 <= t2 < rows[a2]@.len() && (a2 < a || (a2 == a && t2 < t)) && #[trigger] entry_links(
                rows,
                coords,
                md,
                a2,
                t2,
                k,
                cl,
                c,
            );
        assert(entry_links(rows, coords, md, a2, t2, k, cl, c));
    }
    assert(links_before(rows, coords, md, a, t + 1, k, cl) =~= links_before(rows, coords, md, a, t, k, cl).union(extra));
}

/// Files every jump of the ledger as a route of its class with both its
/// worlds, and adds the transit credits.
#[verifier::spinoff_prover]
pub fn apply_route_credits(
    worlds: &mut Vec<World>,
    coords: &Vec<Coords>,
    rows: &Vec<Vec<(usize, u64)>>,
    transit: &Vec<u64>,
    min_route_dbtn: i64,
    Ghost(e): Ghost<Seq<(Coords, Coords, u64)>>,
)
    requires
        coords_sorted(coords@),
        old(worlds)@.len() == coords@.len(),
        ledger_ok(rows@, coords@, e),
        transit@.len() == coords@.len(),
        forall|k: int, class: int| 0 <= k < old(worlds)@.len() && 0 <= class < 5 ==> #[trigger] route_list(old(worlds)@[k], class).no_duplicates(),
        forall|k: int| 0 <= k < old(worlds)@.len() ==> (#[trigger] old(worlds)@[k]).transient_trade_credits + transit@[k] <= u64::MAX,
    ensures
        final(worlds)@.len() == old(worlds)@.len(),
        forall|k: int|
            0 <= k < final(worlds)@.len() ==> {
                &&& routes_recorded(old(worlds)@[k], #[trigger] final(worlds)@[k])
                &&& final(worlds)@[k].transient_trade_credits == old(worlds)@[k].transient_trade_credits + transit@[k]
            },
        routes_linked(final(worlds)@, old(worlds)@, e, coords@, min_route_dbtn as int),
{
    let ghost w0 = old(worlds)@;
    let ghost md = min_route_dbtn as int;
    let n = coords.len();
    proof {
        assert forall|k: int, class: int| 0 <= k < n && 0 <= class < 5 implies #[trigger] links_before(rows@, coords@, md, 0, 0, k, class) =~= Set::<Coords>::empty() by {}
        assert forall|k: int, class: int| 0 <= k < n && 0 <= class < 5 implies route_list(w0[k], class).to_set().union(
            #[trigger] links_before(rows@, coords@, md, 0, 0, k, class)) =~= route_list(w0[k], class).to_set() by {}
    }
    let mut a: usize = 0;
    while a < n
        invariant
            w0 == old(worlds)@,
            md == min_route_dbtn,
            n == coords@.len(),
            n == worlds@.len(),
            coords_sorted(coords@),
            ledger_ok(rows@, coords@, e),
            a <= n,
            forall|k: int| 0 <= k < n ==> routes_recorded(w0[k], #[trigger] worlds@[k]) && worlds@[k].transient_trade_credits == w0[k].transient_trade_credits,
            routes_so_far(worlds@, w0, rows@, coords@, md, a as int, 0),
        decreases n - a,
    {
        let row = &rows[a];
        let mut t: usize = 0;
        while t < row.len()
            invariant
                w0 == old(worlds)@,
                md == min_route_dbtn,
                n == coords@.len(),
                n == worlds@.len(),
                coords_sorted(coords@),
                ledger_ok(rows@, coords@, e),
                a < n,
                *row == rows@[a as int],
                t <= row@.len(),
                forall|k: int| 0 <= k < n ==> routes_recorded(w0[k], #[trigger] worlds@[k]) && worlds@[k].transient_trade_credits == w0[k].transient_trade_credits,
                routes_so_far(worlds@, w0, rows@, coords@, md, a as int, t as int),
            decreases row@.len() - t,
        {
            let (b, total) = row[t];
            let class = route_class_of(total, min_route_dbtn);
            let ghost before = worlds@;
            proof {
                assert(rows@[a as int]@[t as int] == (b, total));
                assert(b < n);
            }
            if class < 5 {
                let cb = coords[b];
                let ca = coords[a];
                proof {
                    assert(route_list(before[a as int], class as int).no_duplicates());
                }
                add_route(&mut worlds[a], class, cb);
                proof {
                    assert(route_list(worlds@[b as int], class as int).no_duplicates());
                }
                add_route(&mut worlds[b], class, ca);
            }
            proof {
                assert forall|k: int, cl: int| 0 <= k < n && 0 <= cl < 5 implies {
                    &&& #[trigger] route_list(worlds@[k], cl).no_duplicates()
                    &&& route_list(worlds@[k], cl).to_set() == route_list(w0[k], cl).to_set().union(
                        links_before(rows@, coords@, md, a as int, t + 1, k, cl),
                    )
                } by {
                    lemma_links_step(rows@, coords@, md, a as int, t as int, k, cl);
                    assert(route_list(before[k], cl).no_duplicates());
                    assert(route_list(before[k], cl).to_set() == route_list(w0[k], cl).to_set().union(
                        links_before(rows@, coords@, md, a as int, t as int, k, cl)));
                    let extra = Set::new(|c: Coords| entry_links(rows@, coords@, md, a as int, t as int, k, cl, c));
                    if cl == class && k == a && k == b {
                        assert(extra =~= Set::empty().insert(coords@[b as int]).insert(coords@[a as int]));
                    } else if cl == class && k == a {
                        assert(extra =~= Set::empty().insert(coords@[b as int]));
                    } else if cl == class && k == b {
                        assert(extra =~= Set::empty().insert(coords@[a as int]));
                    } else {
                        assert(extra =~= Set::empty());
                    }
                    assert(route_list(worlds@[k], cl).to_set() =~= route_list(w0[k], cl).to_set().union(
                        links_before(rows@, coords@, md, a as int, t as int, k, cl)).union(extra));
                }
                assert(routes_so_far(worlds@, w0, rows@, coords@, md, a as int, t + 1));
            }
            t += 1;
        }
        proof {
            assert forall|k: int, cl: int| 0 <= k < n && 0 <= cl < 5 implies #[trigger] links_before(rows@, coords@, md, a as int, t as int, k, cl) =~= links_before(
                rows@,
                coords@,
                md,
                a + 1,
                0,
                k,
                cl,
            ) by {
                assert forall|c: Coords| links_before(rows@, coords@, md, a + 1, 0, k, cl).contains(c) implies links_before(
                    rows@,
                    coords@,
                    md,
                    a as int,
                    t as int,
                    k,
                    cl,
                ).contains(c) by {
                    let (a2, t2) = choose|a2: int, t2: int|
                        0 <= a2 < rows@.len() && 0 <= t2 < rows@[a2]@.len() && (a2 < a + 1 || (a2 == a + 1 && t2 < 0)) && #[trigger] entry_links(
                            rows@,
                            coords@,
                            md,
                            a2,
                            t2,
                            k,
                            cl,
                            c,
                        );
                    assert(entry_links(rows@, coords@, md, a2, t2, k, cl, c));
                }
                assert forall|c: Coords| links_before(rows@, coords@, md, a as int, t as int, k, cl).contains(c) implies links_before(
                    rows@,
                    coords@,
                    md,
                    a + 1,
                    0,
                    k,
                    cl,
                ).contains(c) by {
                    let (a2, t2) = choose|a2: int, t2: int|
                        0 <= a2 < rows@.len() && 0 <= t2 < rows@[a2]@.len() && (a2 < a || (a2 == a && t2 < t)) && #[trigger] entry_links(
                            rows@,
                            coords@,
                            md,
                            a2,
                            t2,
                            k,
                            cl,
                            c,
                        );
                    assert(entry_links(rows@, coords@, md, a2, t2, k, cl, c));
                }
            }
            assert forall|k: int, cl: int| 0 <= k < worlds@.len() && 0 <= cl < 5 implies {
                &&& #[trigger] route_list(worlds@[k], cl).no_duplicates()
                &&& route_list(worlds@[k], cl).to_set() == route_list(w0[k], cl).to_set().union(
                    links_before(rows@, coords@, md, a + 1, 0, k, cl),
                )
            } by {
                assert(route_list(worlds@[k], cl).no_duplicates());
                assert(links_before(rows@, coords@, md, a as int, t as int, k, cl) == links_before(rows@, coords@, md, a + 1, 0, k, cl));
            }
            assert(routes_so_far(worlds@, w0, rows@, coords@, md, a + 1, 0));
        }
        a += 1;
    }
    let mut k: usize = 0;
    while k < n
        invariant
            w0 == old(worlds)@,
            n == worlds@.len(),
            n == transit@.len(),
            k <= n,
            forall|q: int| 0 <= q < n ==> (#[trigger] w0[q]).transient_trade_credits + transit@[q] <= u64::MAX,
            forall|q: int| 0 <= q < n ==> routes_recorded(w0[q], #[trigger] worlds@[q]),
            forall|q: int|
                0 <= q < n ==> #[trigger] worlds@[q].transient_trade_credits == w0[q].transient_trade_credits + if q < k {
                    transit@[q] as int
                } else {
                    0
                },
            routes_so_far(worlds@, w0, rows@, coords@, md, n as int, 0),
        decreases n - k,
    {
        let ghost prev = worlds@;
        let v = worlds[k].transient_trade_credits + transit[k];
        worlds[k].transient_trade_credits = v;
        proof {
            assert forall|q: int, cl: int| 0 <= q < n && 0 <= cl < 5 implies #[trigger] route_list(worlds@[q], cl) == route_list(prev[q], cl) by {
                if q == k {
                    assert(worlds@[q].major_routes == prev[q].major_routes);
                    assert(worlds@[q].main_routes == prev[q].main_routes);
                    assert(worlds@[q].intermediate_routes == prev[q].intermediate_routes);
                    assert(worlds@[q].feeder_routes == prev[q].feeder_routes);
                    assert(worlds@[q].minor_routes == prev[q].minor_routes);
                }
            }
            assert forall|q: int, cl: int| 0 <= q < n && 0 <= cl < 5 implies {
                &&& #[trigger] route_list(worlds@[q], cl).no_duplicates()
                &&& route_list(worlds@[q], cl).to_set() == route_list(w0[q], cl).to_set().union(
                    links_before(rows@, coords@, md, n as int, 0, q, cl),
                )
            } by {
                assert(route_list(worlds@[q], cl) == route_list(prev[q], cl));
            }
        }
        k += 1;
    }
    proof {
        assert forall|k: int, cl: int| 0 <= k < n && 0 <= cl < 5 implies #[trigger] links_before(rows@, coords@, md, n as int, 0, k, cl) =~= linked(
            e,
            coords@,
            md,
            k,
            cl,
        ) by {
            assert forall|c: Coords| links_before(rows@, coords@, md, n as int, 0, k, cl).contains(c) implies linked(e, coords@, md, k, cl).contains(c) by {
                let (a2, t2) = choose|a2: int, t2: int|
                    0 <= a2 < rows@.len() && 0 <= t2 < rows@[a2]@.len() && (a2 < n || (a2 == n && t2 < 0)) && #[trigger] entry_links(
                        rows@,
                        coords@,
                        md,
                        a2,
                        t2,
                        k,
                        cl,
                        c,
                    );
                let entry = rows@[a2]@[t2];
                assert(edge_present(e, coords@[a2], coords@[entry.0 as int]));
                assert(entry.1 == edge_total(e, coords@[a2], coords@[entry.0 as int]));
                if a2 == k && coords@[entry.0 as int] == c {
                    assert(coords@[entry.0 as int] == c);
                } else {
                    assert(coords@[a2] == c);
                }
            }
            assert forall|c: Coords| linked(e, coords@, md, k, cl).contains(c) implies links_before(rows@, coords@, md, n as int, 0, k, cl).contains(c) by {
                let b = choose|b: int|
                    0 <= b < coords@.len() && #[trigger] coords@[b] == c && {
                        ||| edge_present(e, coords@[k], c) && route_class(edge_total(e, coords@[k], c) as u64, md) == cl
                        ||| edge_present(e, c, coords@[k]) && route_class(edge_total(e, c, coords@[k]) as u64, md) == cl
                    };
                if edge_present(e, coords@[k], c) && route_class(edge_total(e, coords@[k], c) as u64, md) == cl {
                    assert(edge_present(e, coords@[k], coords@[b]));
                    let t2 = choose|t: int| 0 <= t < rows@[k]@.len() && (#[trigger] rows@[k]@[t]).0 == b;
                    assert(entry_links(rows@, coords@, md, k, t2, k, cl, c));
                } else {
                    assert(edge_present(e, coords@[b], coords@[k]));
                    let t2 = choose|t: int| 0 <= t < rows@[b]@.len() && (#[trigger] rows@[b]@[t]).0 == k;
                    assert(entry_links(rows@, coords@, md, b, t2, k, cl, c));
                }
            }
        }
        assert forall|k: int, cl: int| 0 <= k < n && 0 <= cl < 5 implies {
            &&& #[trigger] route_list(worlds@[k], cl).no_duplicates()
            &&& route_list(worlds@[k], cl).to_set() == route_list(w0[k], cl).to_set().union(linked(e, coords@, md, k, cl))
        } by {
            assert(links_before(rows@, coords@, md, n as int, 0, k, cl) == linked(e, coords@, md, k, cl));
        }
        assert(routes_linked(worlds@, w0, e, coords@, md));
    }
}

} // verus!

verus! {

proof fn lemma_pairs_in_range(worlds: Seq<World>, coords: Seq<Coords>, md: int, order: Seq<(u64, usize)>, p: int)
    requires
        is_trade_order(trade_keys(worlds), order),
        worlds.len() == order.len(),
        0 <= p <= order.len(),
    ensures
        forall|m: int|
            0 <= m < trade_pairs(worlds, coords, md, order, p).len() ==> (#[trigger] trade_pairs(worlds, coords, md, order, p)[m]).0
                < worlds.len() && trade_pairs(worlds, coords, md, order, p)[m].1 < worlds.len(),
    decreases p,
{
    if p > 0 {
        lemma_pairs_in_range(worlds, coords, md, order, p - 1);
        lemma_row_in_range(worlds, coords, md, order, p - 1, order.len() as int);
        let a = trade_pairs(worlds, coords, md, order, p - 1);
        let b = pairs_row(worlds, coords, md, order, p - 1, order.len() as int);
        assert forall|m: int| 0 <= m < trade_pairs(worlds, coords, md, order, p).len() implies (#[trigger] trade_pairs(
            worlds,
            coords,
            md,
            order,
            p,
        )[m]).0 < worlds.len() && trade_pairs(worlds, coords, md, order, p)[m].1 < worlds.len() by {
            if m < a.len() {
                assert(trade_pairs(worlds, coords, md, order, p)[m] == a[m]);
            } else {
                assert(trade_pairs(worlds, coords, md, order, p)[m] == b[m - a.len()]);
            }
        }
    }
}

proof fn lemma_row_in_range(worlds: Seq<World>, coords: Seq<Coords>, md: int, order: Seq<(u64, usize)>, p: int, q: int)
    requires
        is_trade_order(trade_keys(worlds), order),
        worlds.len() == order.len(),
        0 <= p < order.len(),
        q <= order.len(),
    ensures
        forall|m: int|
            0 <= m < pairs_row(worlds, coords, md, order, p, q).len() ==> (#[trigger] pairs_row(worlds, coords, md, order, p, q)[m]).0
                < worlds.len() && pairs_row(worlds, coords, md, order, p, q)[m].1 < worlds.len(),
    decreases q - p,
{
    if q > p + 1 {
        lemma_row_in_range(worlds, coords, md, order, p, q - 1);
        assert(order[p].1 < worlds.len());
        assert(order[q - 1].1 < worlds.len());
        let prev = pairs_row(worlds, coords, md, order, p, q - 1);
        let cur = pairs_row(worlds, coords, md, order, p, q);
        assert forall|m: int| 0 <= m < cur.len() implies (#[trigger] cur[m]).0 < worlds.len() && cur[m].1 < worlds.len() by {
            if m < prev.len() {
                assert(cur[m] == prev[m]);
            }
        }
    }
}

proof fn lemma_dbtn_list_known(
    worlds: Seq<World>,
    coords: Seq<Coords>,
    dist: Matrix,
    passenger: bool,
    pairs: Seq<(usize, usize)>,
    m: int,
    k: int,
    d: int,
)
    requires
        0 <= m <= pairs.len(),
        forall|i: int| 0 <= i < pairs.len() ==> (#[trigger] pairs[i]).0 < coords.len() && pairs[i].1 < coords.len(),
        forall|t: int| 0 <= t < worlds[k].dbtn_to_coords@[d]@.len() ==> coords.contains(#[trigger] worlds[k].dbtn_to_coords@[d]@[t]),
    ensures
        forall|t: int|
            0 <= t < dbtn_list(worlds, coords, dist, passenger, pairs, m, k, d).len() ==> coords.contains(
                #[trigger] dbtn_list(worlds, coords, dist, passenger, pairs, m, k, d)[t],
            ),
    decreases m,
{
    if m > 0 {
        lemma_dbtn_list_known(worlds, coords, dist, passenger, pairs, m - 1, k, d);
        let e = pairs[m - 1];
        assert(coords.contains(coords[e.0 as int]));
        assert(coords.contains(coords[e.1 as int]));
        let prev = dbtn_list(worlds, coords, dist, passenger, pairs, m - 1, k, d);
        let hit = pair_dbtn(worlds, dist, passenger, e) == d;
        let s1 = if e.0 == k && hit && !prev.contains(coords[e.1 as int]) {
            prev.push(coords[e.1 as int])
        } else {
            prev
        };
        assert forall|t: int| 0 <= t < s1.len() implies coords.contains(#[trigger] s1[t]) by {
            if t < prev.len() {
                assert(s1[t] == prev[t]);
            }
        }
        let s2 = dbtn_list(worlds, coords, dist, passenger, pairs, m, k, d);
        assert forall|t: int| 0 <= t < s2.len() implies coords.contains(#[trigger] s2[t]) by {
            if t < s1.len() {
                assert(s2[t] == s1[t]);
            }
        }
    }
}

/// The largest jump limit of a list.
pub open spec fn largest_jump(s: Seq<u8>) -> u8
    decreases s.len(),
{
    if s.len() == 0 {
        0
    } else if s.len() == 1 {
        s[0]
    } else {
        let rest = largest_jump(s.drop_last());
        if s.last() > rest {
            s.last()
        } else {
            rest
        }
    }
}

proof fn lemma_largest_jump_in(s: Seq<u8>)
    requires
        s.len() > 0,
    ensures
        s.contains(largest_jump(s)),
    decreases s.len(),
{
    if s.len() > 1 {
        lemma_largest_jump_in(s.drop_last());
        let rest = largest_jump(s.drop_last());
        if s.last() > rest {
            assert(s[s.len() - 1] == s.last());
        } else {
            let i = choose|i: int| 0 <= i < s.drop_last().len() && s.drop_last()[i] == rest;
            assert(s[i] == rest);
        }
    } else {
        assert(s[0] == largest_jump(s));
    }
}

fn largest_of(s: &[u8]) -> (r: u8)
    requires
        s@.len() > 0,
    ensures
        r == largest_jump(s@),
{
    let mut r = s[0];
    let mut i: usize = 1;
    proof {
        assert(s@.take(1).drop_last() =~= Seq::<u8>::empty());
        assert(largest_jump(s@.take(1)) == s@[0]);
    }
    while i < s.len()
        invariant
            1 <= i <= s@.len(),
            r == largest_jump(s@.take(i as int)),
        decreases s@.len() - i,
    {
        proof {
            assert(s@.take(i + 1).drop_last() =~= s@.take(i as int));
            assert(s@.take(i + 1).last() == s@[i as int]);
        }
        if s[i] > r {
            r = s[i];
        }
        i += 1;
    }
    proof {
        assert(s@.take(s@.len() as int) =~= s@);
    }
    r
}

/// Some pair among the first `m` that trades at doubled BTN `d` links the
/// world at `k` with the coordinates `x`.
pub open spec fn pair_links(
    w0: Seq<World>,
    coords: Seq<Coords>,
    dist: Matrix,
    passenger: bool,
    pairs: Seq<(usize, usize)>,
    m: int,
    k: int,
    d: int,
    x: Coords,
) -> bool {
    exists|i: int|
        0 <= i < m && pair_dbtn(w0, dist, passenger, #[trigger] pairs[i]) == d && {
            ||| pairs[i].0 == k && coords[pairs[i].1 as int] == x
            ||| pairs[i].1 == k && coords[pairs[i].0 as int] == x
        }
}

proof fn lemma_push_contains(s: Seq<Coords>, y: Coords, x: Coords)
    ensures
        s.push(y).contains(x) == (s.contains(x) || x == y),
{
    if s.contains(x) {
        let i = choose|i: int| 0 <= i < s.len() && s[i] == x;
        assert(s.push(y)[i] == x);
    }
    if x == y {
        assert(s.push(y)[s.len() as int] == y);
    }
    if s.push(y).contains(x) {
        let i = choose|i: int| 0 <= i < s.push(y).len() && s.push(y)[i] == x;
        if i < s.len() {
            assert(s[i] == x);
        }
    }
}

proof fn lemma_dbtn_list_members(
    w0: Seq<World>,
    coords: Seq<Coords>,
    dist: Matrix,
    passenger: bool,
    pairs: Seq<(usize, usize)>,
    m: int,
    k: int,
    d: int,
    x: Coords,
)
    requires
        0 <= m <= pairs.len(),
    ensures
        dbtn_list(w0, coords, dist, passenger, pairs, m, k, d).contains(x) == (w0[k].dbtn_to_coords@[d]@.contains(x)
            || pair_links(w0, coords, dist, passenger, pairs, m, k, d, x)),
    decreases m,
{
    if m > 0 {
        lemma_dbtn_list_members(w0, coords, dist, passenger, pairs, m - 1, k, d, x);
        let prev = dbtn_list(w0, coords, dist, passenger, pairs, m - 1, k, d);
        let e = pairs[m - 1];
        if pair_links(w0, coords, dist, passenger, pairs, m - 1, k, d, x) {
            let i = choose|i: int|
                0 <= i < m - 1 && pair_dbtn(w0, dist, passenger, #[trigger] pairs[i]) == d && {
                    ||| pairs[i].0 == k && coords[pairs[i].1 as int] == x
                    ||| pairs[i].1 == k && coords[pairs[i].0 as int] == x
                };
            assert(pair_links(w0, coords, dist, passenger, pairs, m, k, d, x));
        }
        if pair_links(w0, coords, dist, passenger, pairs, m, k, d, x) && !pair_links(w0, coords, dist, passenger, pairs, m - 1, k, d, x) {
            let i = choose|i: int|
                0 <= i < m && pair_dbtn(w0, dist, passenger, #[trigger] pairs[i]) == d && {
                    ||| pairs[i].0 == k && coords[pairs[i].1 as int] == x
                    ||| pairs[i].1 == k && coords[pairs[i].0 as int] == x
                };
            assert(i == m - 1);
        }
        let hit = pair_dbtn(w0, dist, passenger, e) == d;
        let c1 = coords[e.1 as int];
        let c0 = coords[e.0 as int];
        let s1 = if e.0 == k && hit && !prev.contains(c1) { prev.push(c1) } else { prev };
        lemma_push_contains(prev, c1, x);
        lemma_push_contains(prev, c1, c0);
        lemma_push_contains(s1, c0, x);
        assert(s1.contains(x) == (prev.contains(x) || (e.0 == k && hit && c1 == x)));
        if hit && e.0 == k && coords[e.1 as int] == x {
            assert(pair_links(w0, coords, dist, passenger, pairs, m, k, d, x));
        }
        if hit && e.1 == k && coords[e.0 as int] == x {
            assert(pair_links(w0, coords, dist, passenger, pairs, m, k, d, x));
        }
    }
}

/// Two worlds file each other under the same doubled BTN: after the trade of
/// any pairs is recorded, the world at `k` lists the world at `j` under `d`
/// exactly when the world at `j` lists the world at `k` there, if that held
/// before.
pub proof fn lemma_partners_symmetric(
    w0: Seq<World>,
    ws: Seq<World>,
    coords: Seq<Coords>,
    dist: Matrix,
    passenger: bool,
    pairs: Seq<(usize, usize)>,
    k: int,
    j: int,
    d: int,
)
    requires
        recorded_state(w0, ws, coords, dist, passenger, pairs),
        coords_sorted(coords),
        w0.len() == coords.len(),
        forall|i: int| 0 <= i < pairs.len() ==> (#[trigger] pairs[i]).0 < coords.len() && pairs[i].1 < coords.len(),
        0 <= k < w0.len(),
        0 <= j < w0.len(),
        0 <= d < w0[k].dbtn_to_coords@.len(),
        0 <= d < w0[j].dbtn_to_coords@.len(),
        w0[k].dbtn_to_coords@[d]@.contains(coords[j]) == w0[j].dbtn_to_coords@[d]@.contains(coords[k]),
    ensures
        ws[k].dbtn_to_coords@[d]@.contains(coords[j]) == ws[j].dbtn_to_coords@[d]@.contains(coords[k]),
{
    let n = pairs.len() as int;
    assert(ws[k].dbtn_to_coords@[d]@ == dbtn_list(w0, coords, dist, passenger, pairs, n, k, d));
    assert(ws[j].dbtn_to_coords@[d]@ == dbtn_list(w0, coords, dist, passenger, pairs, n, j, d));
    lemma_dbtn_list_members(w0, coords, dist, passenger, pairs, n, k, d, coords[j]);
    lemma_dbtn_list_members(w0, coords, dist, passenger, pairs, n, j, d, coords[k]);
    assert forall|a: int, b: int| 0 <= a < coords.len() && 0 <= b < coords.len() && coords[a] == coords[b] implies a == b by {
        if a < b {
            assert(crate::atlas::coords_lt(coords[a], coords[b]));
        } else if b < a {
            assert(crate::atlas::coords_lt(coords[b], coords[a]));
        }
    }
    if pair_links(w0, coords, dist, passenger, pairs, n, k, d, coords[j]) {
        let i = choose|i: int|
            0 <= i < n && pair_dbtn(w0, dist, passenger, #[trigger] pairs[i]) == d && {
                ||| pairs[i].0 == k && coords[pairs[i].1 as int] == coords[j]
                ||| pairs[i].1 == k && coords[pairs[i].0 as int] == coords[j]
            };
        assert(pair_links(w0, coords, dist, passenger, pairs, n, j, d, coords[k]));
    }
    if pair_links(w0, coords, dist, passenger, pairs, n, j, d, coords[k]) {
        let i = choose|i: int|
            0 <= i < n && pair_dbtn(w0, dist, passenger, #[trigger] pairs[i]) == d && {
                ||| pairs[i].0 == j && coords[pairs[i].1 as int] == coords[k]
                ||| pairs[i].1 == j && coords[pairs[i].0 as int] == coords[k]
            };
        assert(pair_links(w0, coords, dist, passenger, pairs, n, k, d, coords[j]));
    }
}

/// The credits that the partner lists `buckets[..d]` stand for: each
/// partner under doubled BTN `b` brings the credits of that BTN.
pub open spec fn bucket_credits(buckets: Seq<Seq<Coords>>, d: int) -> int
    decreases d,
{
    if d <= 0 {
        0
    } else {
        bucket_credits(buckets, d - 1) + credits_table()[d - 1] * buckets[d - 1].len()
    }
}

/// No pair trades twice, in either order, and no world trades with itself.
pub open spec fn pairs_distinct(pairs: Seq<(usize, usize)>) -> bool {
    &&& forall|i: int| 0 <= i < pairs.len() ==> (#[trigger] pairs[i]).0 != pairs[i].1
    &&& forall|i: int, j: int|
        0 <= i < j < pairs.len() ==> !((#[trigger] pairs[i]) == #[trigger] pairs[j] || (pairs[i].0 == pairs[j].1 && pairs[i].1
            == pairs[j].0))
}

/// The partner lists of the world at `k` after the first `m` pairs.
pub open spec fn lists_after(
    w0: Seq<World>,
    coords: Seq<Coords>,
    dist: Matrix,
    passenger: bool,
    pairs: Seq<(usize, usize)>,
    m: int,
    k: int,
) -> Seq<Seq<Coords>> {
    Seq::new(w0[k].dbtn_to_coords@.len(), |d: int| dbtn_list(w0, coords, dist, passenger, pairs, m, k, d))
}

proof fn lemma_bucket_credits_step(a: Seq<Seq<Coords>>, b: Seq<Seq<Coords>>, de: int, d: int)
    requires
        a.len() == b.len(),
        0 <= d <= a.len(),
        forall|x: int| 0 <= x < a.len() && x != de ==> #[trigger] b[x].len() == a[x].len(),
        0 <= de < a.len() ==> b[de].len() == a[de].len() + 1,
    ensures
        bucket_credits(b, d) == bucket_credits(a, d) + if 0 <= de < d { credits_table()[de] as int } else { 0 },
    decreases d,
{
    if d > 0 {
        lemma_bucket_credits_step(a, b, de, d - 1);
        if d - 1 == de {
            let c = credits_table()[de] as int;
            let l = a[de].len() as int;
            assert(c * (l + 1) == c * l + c) by (nonlinear_arith);
        }
    }
}

proof fn lemma_endpoint_step(
    w0: Seq<World>,
    coords: Seq<Coords>,
    dist: Matrix,
    passenger: bool,
    pairs: Seq<(usize, usize)>,
    m: int,
    k: int,
)
    requires
        coords_sorted(coords),
        w0.len() == coords.len(),
        0 <= k < w0.len(),
        0 < m <= pairs.len(),
        pairs_distinct(pairs),
        forall|i: int| 0 <= i < pairs.len() ==> (#[trigger] pairs[i]).0 < coords.len() && pairs[i].1 < coords.len(),
        forall|i: int|
            0 <= i < pairs.len() && ((#[trigger] pairs[i]).0 == k || pairs[i].1 == k) ==> pair_dbtn(w0, dist, passenger, pairs[i])
                < w0[k].dbtn_to_coords@.len(),
        w0[k].dbtn_to_coords@.len() <= credits_table().len(),
        forall|d: int| 0 <= d < w0[k].dbtn_to_coords@.len() ==> (#[trigger] w0[k].dbtn_to_coords@[d])@.len() == 0,
    ensures
        bucket_credits(lists_after(w0, coords, dist, passenger, pairs, m, k), w0[k].dbtn_to_coords@.len() as int)
            - bucket_credits(lists_after(w0, coords, dist, passenger, pairs, m - 1, k), w0[k].dbtn_to_coords@.len() as int)
            == endpoint_sum(w0, dist, passenger, pairs, m, k) - endpoint_sum(w0, dist, passenger, pairs, m - 1, k),
{
    let nb = w0[k].dbtn_to_coords@.len() as int;
    let a = lists_after(w0, coords, dist, passenger, pairs, m - 1, k);
    let b = lists_after(w0, coords, dist, passenger, pairs, m, k);
    let e = pairs[m - 1];
    let de = pair_dbtn(w0, dist, passenger, e);
    assert(e.0 != e.1);
    assert forall|x: int, y: int| 0 <= x < coords.len() && 0 <= y < coords.len() && coords[x] == coords[y] implies x == y by {
        if x < y {
            assert(crate::atlas::coords_lt(coords[x], coords[y]));
        } else if y < x {
            assert(crate::atlas::coords_lt(coords[y], coords[x]));
        }
    }
    if e.0 == k || e.1 == k {
        assert(0 <= de < nb);
        let other: int = if e.0 == k { e.1 as int } else { e.0 as int };
        let prev = dbtn_list(w0, coords, dist, passenger, pairs, m - 1, k, de);
        lemma_dbtn_list_members(w0, coords, dist, passenger, pairs, m - 1, k, de, coords[other]);
        assert(!w0[k].dbtn_to_coords@[de]@.contains(coords[other]));
        if pair_links(w0, coords, dist, passenger, pairs, m - 1, k, de, coords[other]) {
            let i = choose|i: int|
                0 <= i < m - 1 && pair_dbtn(w0, dist, passenger, #[trigger] pairs[i]) == de && {
                    ||| pairs[i].0 == k && coords[pairs[i].1 as int] == coords[other]
                    ||| pairs[i].1 == k && coords[pairs[i].0 as int] == coords[other]
                };
            assert(pairs[i] == e || (pairs[i].0 == e.1 && pairs[i].1 == e.0));
            assert(false);
        }
        assert(!prev.contains(coords[other]));
        assert(b[de] == prev.push(coords[other]));
        assert forall|x: int| 0 <= x < a.len() && x != de implies #[trigger] b[x].len() == a[x].len() by {
            assert(b[x] == a[x]);
        }
        lemma_bucket_credits_step(a, b, de, nb);
    } else {
        assert forall|x: int| 0 <= x < a.len() implies #[trigger] b[x] == a[x] by {}
        assert(b =~= a);
    }
}

proof fn lemma_endpoint_credits_upto(
    w0: Seq<World>,
    coords: Seq<Coords>,
    dist: Matrix,
    passenger: bool,
    pairs: Seq<(usize, usize)>,
    m: int,
    k: int,
)
    requires
        coords_sorted(coords),
        w0.len() == coords.len(),
        0 <= k < w0.len(),
        0 <= m <= pairs.len(),
        pairs_distinct(pairs),
        forall|i: int| 0 <= i < pairs.len() ==> (#[trigger] pairs[i]).0 < coords.len() && pairs[i].1 < coords.len(),
        forall|i: int|
            0 <= i < pairs.len() && ((#[trigger] pairs[i]).0 == k || pairs[i].1 == k) ==> pair_dbtn(w0, dist, passenger, pairs[i])
                < w0[k].dbtn_to_coords@.len(),
        w0[k].dbtn_to_coords@.len() <= credits_table().len(),
        forall|d: int| 0 <= d < w0[k].dbtn_to_coords@.len() ==> (#[trigger] w0[k].dbtn_to_coords@[d])@.len() == 0,
    ensures
        bucket_credits(lists_after(w0, coords, dist, passenger, pairs, m, k), w0[k].dbtn_to_coords@.len() as int)
            == endpoint_sum(w0, dist, passenger, pairs, m, k),
    decreases m,
{
    let nb = w0[k].dbtn_to_coords@.len() as int;
    if m == 0 {
        let z = lists_after(w0, coords, dist, passenger, pairs, 0, k);
        assert forall|d: int| 0 <= d <= nb implies #[trigger] bucket_credits(z, d) == 0 by {
            lemma_zero_credits(z, d);
        }
    } else {
        lemma_endpoint_credits_upto(w0, coords, dist, passenger, pairs, m - 1, k);
        lemma_endpoint_step(w0, coords, dist, passenger, pairs, m, k);
    }
}

proof fn lemma_zero_credits(z: Seq<Seq<Coords>>, d: int)
    requires
        0 <= d <= z.len(),
        forall|x: int| 0 <= x < z.len() ==> (#[trigger] z[x]).len() == 0,
    ensures
        bucket_credits(z, d) == 0,
    decreases d,
{
    if d > 0 {
        lemma_zero_credits(z, d - 1);
    }
}

/// A world that had no trade recorded gains, as endpoint credits, exactly
/// the credits of its partners: for each doubled BTN, that BTN's credits
/// times the number of worlds it files under it, when no pair trades twice
/// or with itself.
pub proof fn lemma_endpoint_credits_from_partners(
    w0: Seq<World>,
    ws: Seq<World>,
    coords: Seq<Coords>,
    dist: Matrix,
    passenger: bool,
    pairs: Seq<(usize, usize)>,
    k: int,
)
    requires
        recorded_state(w0, ws, coords, dist, passenger, pairs),
        coords_sorted(coords),
        w0.len() == coords.len(),
        0 <= k < w0.len(),
        pairs_distinct(pairs),
        forall|i: int| 0 <= i < pairs.len() ==> (#[trigger] pairs[i]).0 < coords.len() && pairs[i].1 < coords.len(),
        forall|i: int|
            0 <= i < pairs.len() && ((#[trigger] pairs[i]).0 == k || pairs[i].1 == k) ==> pair_dbtn(w0, dist, passenger, pairs[i])
                < w0[k].dbtn_to_coords@.len(),
        w0[k].dbtn_to_coords@.len() <= credits_table().len(),
        w0[k].endpoint_trade_credits == 0,
        forall|d: int| 0 <= d < w0[k].dbtn_to_coords@.len() ==> (#[trigger] w0[k].dbtn_to_coords@[d])@.len() == 0,
    ensures
        ws[k].endpoint_trade_credits == bucket_credits(
            ws[k].dbtn_to_coords@.map_values(|v: Vec<Coords>| v@),
            ws[k].dbtn_to_coords@.len() as int,
        ),
{
    let n = pairs.len() as int;
    lemma_endpoint_credits_upto(w0, coords, dist, passenger, pairs, n, k);
    assert(ws[k].dbtn_to_coords@.map_values(|v: Vec<Coords>| v@) =~= lists_after(w0, coords, dist, passenger, pairs, n, k));
}

proof fn lemma_order_positions_distinct(keys: Seq<u64>, order: Seq<(u64, usize)>)
    requires
        is_trade_order(keys, order),
    ensures
        forall|p: int, q: int| 0 <= p < q < order.len() ==> (#[trigger] order[p]).1 != (#[trigger] order[q]).1,
{
    assert forall|p: int, q: int| 0 <= p < q < order.len() implies (#[trigger] order[p]).1 != (#[trigger] order[q]).1 by {
        assert(rank_gt(order[p], order[q]));
    }
}

proof fn lemma_row_entries(worlds: Seq<World>, coords: Seq<Coords>, md: int, order: Seq<(u64, usize)>, p: int, r: int)
    requires
        0 <= p < order.len(),
        r <= order.len(),
        forall|x: int, y: int| 0 <= x < y < order.len() ==> (#[trigger] order[x]).1 != (#[trigger] order[y]).1,
    ensures
        forall|t: int|
            0 <= t < pairs_row(worlds, coords, md, order, p, r).len() ==> exists|q: int|
                #![trigger order[q]]
                p < q < r && #[trigger] pairs_row(worlds, coords, md, order, p, r)[t] == (order[p].1, order[q].1),
        forall|t1: int, t2: int|
            0 <= t1 < t2 < pairs_row(worlds, coords, md, order, p, r).len() ==> (#[trigger] pairs_row(
                worlds,
                coords,
                md,
                order,
                p,
                r,
            )[t1]).1 != (#[trigger] pairs_row(worlds, coords, md, order, p, r)[t2]).1,
    decreases r - p,
{
    if r > p + 1 {
        lemma_row_entries(worlds, coords, md, order, p, r - 1);
        let prev = pairs_row(worlds, coords, md, order, p, r - 1);
        let row = pairs_row(worlds, coords, md, order, p, r);
        assert forall|t: int| 0 <= t < row.len() implies exists|q: int| #![trigger order[q]] p < q < r && #[trigger] row[t] == (order[p].1, order[q].1) by {
            if t < prev.len() {
                assert(row[t] == prev[t]);
                let q = choose|q: int| #![trigger order[q]] p < q < r - 1 && prev[t] == (order[p].1, order[q].1);
                assert(row[t] == (order[p].1, order[q].1));
            } else {
                assert(row[t] == (order[p].1, order[r - 1].1));
            }
        }
        assert forall|t1: int, t2: int| 0 <= t1 < t2 < row.len() implies (#[trigger] row[t1]).1 != (#[trigger] row[t2]).1 by {
            assert(row[t1] == prev[t1]);
            if t2 < prev.len() {
                assert(row[t2] == prev[t2]);
            } else {
                let q = choose|q: int| #![trigger order[q]] p < q < r - 1 && prev[t1] == (order[p].1, order[q].1);
                assert(row[t2] == (order[p].1, order[r - 1].1));
                assert(order[q].1 != order[r - 1].1);
            }
        }
    }
}

proof fn lemma_trade_pairs_distinct_upto(worlds: Seq<World>, coords: Seq<Coords>, md: int, order: Seq<(u64, usize)>, m: int)
    requires
        0 <= m <= order.len(),
        forall|x: int, y: int| 0 <= x < y < order.len() ==> (#[trigger] order[x]).1 != (#[trigger] order[y]).1,
    ensures
        forall|t: int|
            0 <= t < trade_pairs(worlds, coords, md, order, m).len() ==> exists|p: int, q: int|
                #![trigger order[p], order[q]]
                0 <= p < m && p < q < order.len() && #[trigger] trade_pairs(worlds, coords, md, order, m)[t] == (
                    order[p].1,
                    order[q].1,
                ),
        pairs_distinct(trade_pairs(worlds, coords, md, order, m)),
    decreases m,
{
    if m > 0 {
        let n = order.len() as int;
        lemma_trade_pairs_distinct_upto(worlds, coords, md, order, m - 1);
        lemma_row_entries(worlds, coords, md, order, m - 1, n);
        let a = trade_pairs(worlds, coords, md, order, m - 1);
        let b = pairs_row(worlds, coords, md, order, m - 1, n);
        let c = trade_pairs(worlds, coords, md, order, m);
        assert(c == a + b);
        assert forall|t: int| 0 <= t < c.len() implies exists|p: int, q: int| #![trigger order[p], order[q]] 0 <= p < m && p < q < n && #[trigger] c[t] == (order[p].1, order[q].1) by {
            if t < a.len() {
                assert(c[t] == a[t]);
                let (p, q) = choose|p: int, q: int| #![trigger order[p], order[q]] 0 <= p < m - 1 && p < q < n && a[t] == (order[p].1, order[q].1);
                assert(c[t] == (order[p].1, order[q].1));
            } else {
                assert(c[t] == b[t - a.len()]);
                let q = choose|q: int| #![trigger order[q]] m - 1 < q < n && b[t - a.len()] == (order[m - 1].1, order[q].1);
                assert(c[t] == (order[m - 1].1, order[q].1));
            }
        }
        assert forall|t: int| 0 <= t < c.len() implies (#[trigger] c[t]).0 != c[t].1 by {
            let (p, q) = choose|p: int, q: int| #![trigger order[p], order[q]] 0 <= p < m && p < q < n && c[t] == (order[p].1, order[q].1);
            assert(order[p].1 != order[q].1);
        }
        assert forall|i: int, j: int| 0 <= i < j < c.len() implies !((#[trigger] c[i]) == #[trigger] c[j] || (c[i].0 == c[j].1 && c[i].1
            == c[j].0)) by {
            let (p, q) = choose|p: int, q: int| #![trigger order[p], order[q]] 0 <= p < m && p < q < n && c[i] == (order[p].1, order[q].1);
            let (p2, q2) = choose|p: int, q: int| #![trigger order[p], order[q]] 0 <= p < m && p < q < n && c[j] == (order[p].1, order[q].1);
            if j < a.len() {
                assert(c[i] == a[i]);
                assert(c[j] == a[j]);
            } else if i >= a.len() {
                assert(c[i] == b[i - a.len()]);
                assert(c[j] == b[j - a.len()]);
                let qi = choose|q: int| #![trigger order[q]] m - 1 < q < n && b[i - a.len()] == (order[m - 1].1, order[q].1);
                let qj = choose|q: int| #![trigger order[q]] m - 1 < q < n && b[j - a.len()] == (order[m - 1].1, order[q].1);
                assert(b[i - a.len()].1 != b[j - a.len()].1);
                assert(order[m - 1].1 != order[qj].1);
            } else {
                assert(c[i] == a[i]);
                assert(c[j] == b[j - a.len()]);
                let (pa, qa) = choose|p: int, q: int| #![trigger order[p], order[q]] 0 <= p < m - 1 && p < q < n && a[i] == (order[p].1, order[q].1);
                let qj = choose|q: int| #![trigger order[q]] m - 1 < q < n && b[j - a.len()] == (order[m - 1].1, order[q].1);
                assert(order[pa].1 != order[m - 1].1);
                assert(pa != qj);
                assert(order[pa].1 != order[qj].1);
            }
        }
    }
}

/// The pairs that trade are distinct, in either order, and no world trades
/// with itself.
pub proof fn lemma_trade_pairs_distinct(worlds: Seq<World>, coords: Seq<Coords>, md: int, order: Seq<(u64, usize)>)
    requires
        is_trade_order(trade_keys(worlds), order),
    ensures
        pairs_distinct(trade_pairs(worlds, coords, md, order, order.len() as int)),
{
    lemma_order_positions_distinct(trade_keys(worlds), order);
    lemma_trade_pairs_distinct_upto(worlds, coords, md, order, order.len() as int);
}

/// No trade is recorded in the worlds yet: no endpoint credits, and every
/// partner list empty.
pub open spec fn fresh_trade(worlds: Seq<World>) -> bool {
    &&& forall|k: int| 0 <= k < worlds.len() ==> (#[trigger] worlds[k]).endpoint_trade_credits == 0
    &&& forall|k: int, d: int|
        0 <= k < worlds.len() && 0 <= d < worlds[k].dbtn_to_coords@.len() ==> (#[trigger] worlds[k].dbtn_to_coords@[d])@.len() == 0
}

/// Two worlds list each other under the same doubled BTN, or neither lists
/// the other there.
pub open spec fn partners_symmetric(worlds: Seq<World>, coords: Seq<Coords>) -> bool {
    forall|k: int, j: int, d: int|
        #![trigger worlds[k].dbtn_to_coords@[d]@.contains(coords[j]), worlds[j].dbtn_to_coords@[d]@.contains(coords[k])]
        0 <= k < worlds.len() && 0 <= j < worlds.len() && 0 <= d < worlds[k].dbtn_to_coords@.len() && 0 <= d
            < worlds[j].dbtn_to_coords@.len() ==> (worlds[k].dbtn_to_coords@[d]@.contains(coords[j])
            == worlds[j].dbtn_to_coords@[d]@.contains(coords[k]))
}

/// Worlds with no trade recorded before gain, as endpoint credits, exactly
/// the credits that their partner lists stand for.
proof fn lemma_fresh_endpoint_credits(
    w0: Seq<World>,
    ws: Seq<World>,
    w1: Seq<World>,
    coords: Seq<Coords>,
    dist: Matrix,
    passenger: bool,
    order: Seq<(u64, usize)>,
    md: int,
)
    requires
        atlas_ok(w0, coords),
        is_trade_order(trade_keys(w0), order),
        recorded_state(w0, ws, coords, dist, passenger, trade_pairs(w0, coords, md, order, order.len() as int)),
        w1.len() == ws.len(),
        forall|k: int| 0 <= k < w1.len() ==> routes_recorded(ws[k], #[trigger] w1[k]),
        forall|k: int| 0 <= k < w0.len() ==> (#[trigger] w0[k]).dbtn_to_coords@.len() <= credits_table().len(),
        forall|m: int|
            0 <= m < trade_pairs(w0, coords, md, order, order.len() as int).len() ==> {
                let e = #[trigger] trade_pairs(w0, coords, md, order, order.len() as int)[m];
                &&& pair_dbtn(w0, dist, passenger, e) < w0[e.0 as int].dbtn_to_coords@.len()
                &&& pair_dbtn(w0, dist, passenger, e) < w0[e.1 as int].dbtn_to_coords@.len()
            },
    ensures
        fresh_trade(w0) ==> forall|k: int|
            0 <= k < w1.len() ==> (#[trigger] w1[k]).endpoint_trade_credits == bucket_credits(
                w1[k].dbtn_to_coords@.map_values(|v: Vec<Coords>| v@),
                w1[k].dbtn_to_coords@.len() as int,
            ),
        fresh_trade(w0) ==> partners_symmetric(w1, coords),
{
    let pairs = trade_pairs(w0, coords, md, order, order.len() as int);
    if fresh_trade(w0) {
        lemma_trade_pairs_distinct(w0, coords, md, order);
        lemma_pairs_in_range(w0, coords, md, order, order.len() as int);
        assert forall|k: int| 0 <= k < w1.len() implies (#[trigger] w1[k]).endpoint_trade_credits == bucket_credits(
            w1[k].dbtn_to_coords@.map_values(|v: Vec<Coords>| v@),
            w1[k].dbtn_to_coords@.len() as int,
        ) by {
            assert(routes_recorded(ws[k], w1[k]));
            assert(trade_recorded(w0[k], ws[k]));
            assert(w0[k].endpoint_trade_credits == 0);
            lemma_endpoint_credits_from_partners(w0, ws, coords, dist, passenger, pairs, k);
        }
        assert forall|k: int, j: int, d: int|
            0 <= k < w1.len() && 0 <= j < w1.len() && 0 <= d < w1[k].dbtn_to_coords@.len() && 0 <= d < w1[j].dbtn_to_coords@.len()
            implies (#[trigger] w1[k].dbtn_to_coords@[d]@.contains(coords[j])) == #[trigger] w1[j].dbtn_to_coords@[d]@.contains(
            coords[k]) by {
            assert(routes_recorded(ws[k], w1[k]));
            assert(routes_recorded(ws[j], w1[j]));
            assert(trade_recorded(w0[k], ws[k]));
            assert(trade_recorded(w0[j], ws[j]));
            assert(w0[k].dbtn_to_coords@[d]@.len() == 0);
            assert(w0[j].dbtn_to_coords@[d]@.len() == 0);
            assert(!w0[k].dbtn_to_coords@[d]@.contains(coords[j]));
            assert(!w0[j].dbtn_to_coords@[d]@.contains(coords[k]));
            lemma_partners_symmetric(w0, ws, coords, dist, passenger, pairs, k, j, d);
        }
    }
}

/// The state of the worlds after the trade of `pairs` was recorded.
pub open spec fn recorded_state(
    w0: Seq<World>,
    ws: Seq<World>,
    coords: Seq<Coords>,
    dist: Matrix,
    passenger: bool,
    pairs: Seq<(usize, usize)>,
) -> bool {
    &&& ws.len() == w0.len()
    &&& forall|k: int|
        0 <= k < ws.len() ==> {
            &&& trade_recorded(w0[k], #[trigger] ws[k])
            &&& ws[k].endpoint_trade_credits == w0[k].endpoint_trade_credits + endpoint_sum(w0, dist, passenger, pairs, pairs.len() as int, k)
            &&& ws[k].dbtn_to_coords@.len() == w0[k].dbtn_to_coords@.len()
            &&& forall|d: int|
                0 <= d < ws[k].dbtn_to_coords@.len() ==> (#[trigger] ws[k].dbtn_to_coords@[d])@ == dbtn_list(
                    w0,
                    coords,
                    dist,
                    passenger,
                    pairs,
                    pairs.len() as int,
                    k,
                    d,
                )
        }
}

/// The pairs of worlds that may trade, in the trade order.
pub open spec fn pairs_of(worlds: Seq<World>, coords: Seq<Coords>, min_dbtn: int) -> Seq<(usize, usize)> {
    trade_pairs(worlds, coords, min_dbtn, trade_order_spec(worlds), worlds.len() as int)
}

/// No trade is lost to the candidate tests: under the shortest distances of
/// a navigation table whose worlds list their neighbors no farther than
/// their jump, each pair of tradeable worlds whose freight trade reaches a
/// positive minimum BTN is among the pairs that trade, the higher ranked
/// world first.
pub proof fn lemma_trade_pairs_complete(
    c: Map<(int, int), u16>,
    worlds: Seq<World>,
    coords: Seq<Coords>,
    max_jump: int,
    ignore_xboat_routes: bool,
    dist: Matrix,
    pred: Matrix,
    min_dbtn: int,
    order: Seq<(u64, usize)>,
    p: int,
    q: int,
)
    requires
        atlas_ok(worlds, coords),
        navigation_ok(c, worlds, coords, max_jump, ignore_xboat_routes, dist, pred),
        forall|k: int| 0 <= k < worlds.len() ==> neighbors_within(#[trigger] worlds[k]),
        is_trade_order(trade_keys(worlds), order),
        0 <= p < q < worlds.len(),
        tradeable(worlds[order[p].1 as int]),
        tradeable(worlds[order[q].1 as int]),
        min_dbtn >= 1,
        worlds[order[p].1 as int].dbtn_spec(
            &worlds[order[q].1 as int],
            cells(dist)[(order[p].1 as int, order[q].1 as int)],
            false,
        ) >= min_dbtn,
    ensures
        pairs_of(worlds, coords, min_dbtn).contains((order[p].1, order[q].1)),
{
    let a = order[p].1 as int;
    let b = order[q].1 as int;
    lemma_navigation_covers_line(c, worlds, coords, max_jump, ignore_xboat_routes, dist, pred);
    assert(cells(dist)[(a, b)] >= sld_spec(worlds[a], worlds[b]));
    assert(sld_u16(coords[a], coords[b]) as int == sld_spec(worlds[a], worlds[b]));
    lemma_selection_keeps_trade(worlds, coords, min_dbtn, order, p, q, cells(dist)[(a, b)]);
    lemma_trade_order_unique(trade_keys(worlds), order, trade_order_spec(worlds));
}

/// The distances under the largest jump limit, by which BTNs are found.
pub open spec fn btn_table(tables: Seq<JumpTable>, max_jumps: Seq<u8>) -> JumpTable {
    table_of(tables, largest_jump(max_jumps))
}

/// The credits of every route and stop stay within `u64`, and so do the
/// worlds' transit credits with them.
pub open spec fn route_totals_fit(ws: Seq<World>, cx: RouteContext) -> bool {
    let n = cx.sorted.len() as int;
    &&& forall|a: int, b: int|
        0 <= a < n && 0 <= b < n ==> edge_total(all_route_edges(cx, ws.len() as int), #[trigger] cx.sorted[a], #[trigger] cx.sorted[b])
            <= u64::MAX
    &&& forall|k: int|
        0 <= k < n ==> (#[trigger] ws[k]).transient_trade_credits + transit_total(all_route_transits(cx, ws.len() as int), cx.sorted[k])
            <= u64::MAX
}

} // verus!

verus! {

/// The route search over a state of the worlds.
pub open spec fn context_of(ws: Seq<World>, coords: Seq<Coords>, tables: Seq<JumpTable>, max_jumps: Seq<u8>, min_route_dbtn: i64) -> RouteContext {
    RouteContext { sorted: coords, worlds: ws, tables, max_jumps, min_route_dbtn }
}

/// After the trade of `pairs` was recorded in `ws`, the routes were filed
/// and the transit credits added, giving `worlds`.
pub open spec fn routes_filed(worlds: Seq<World>, ws: Seq<World>, cx: RouteContext) -> bool {
    &&& worlds.len() == ws.len()
    &&& forall|k: int|
        0 <= k < worlds.len() ==> {
            &&& routes_recorded(ws[k], #[trigger] worlds[k])
            &&& worlds[k].transient_trade_credits == ws[k].transient_trade_credits + transit_total(
                all_route_transits(cx, ws.len() as int),
                cx.sorted[k],
            )
        }
    &&& routes_linked(worlds, ws, all_route_edges(cx, ws.len() as int), cx.sorted, cx.min_route_dbtn as int)
}

/// Every pair's doubled BTN is in range and all credits fit in `u64`: the
/// condition under which the trade between the worlds can be recorded.
pub open spec fn trade_fits(
    w0: Seq<World>,
    coords: Seq<Coords>,
    min_dbtn: i64,
    min_route_dbtn: i64,
    passenger: bool,
    max_jumps: Seq<u8>,
    tables: Seq<JumpTable>,
) -> bool {
    let pairs = pairs_of(w0, coords, min_dbtn as int);
    let dist = btn_table(tables, max_jumps).dist;
    &&& pair_bounds_ok(w0, dist, passenger, pairs)
    &&& endpoint_fits(w0, dist, passenger, pairs)
    &&& forall|ws: Seq<World>|
        #[trigger] recorded_state(w0, ws, coords, dist, passenger, pairs) ==> route_totals_fit(
            ws,
            context_of(ws, coords, tables, max_jumps, min_route_dbtn),
        )
}

/// Works out the trade between all worlds and the routes it takes, and
/// records it in the worlds, as `populate_trade_routes` does, where the
/// doubled BTNs are in range and the credits fit in `u64`; else it says
/// which failed. A pair's doubled BTN out of range, or endpoint credits
/// that overflow, are found before anything changes; an overflow of the
/// credits over a jump or at a stop is found after the trade of the pairs
/// was recorded.
#[verifier::spinoff_prover]
#[verifier::rlimit(60)]
pub fn try_populate_trade_routes(
    worlds: &mut Vec<World>,
    coords: &Vec<Coords>,
    min_dbtn: i64,
    min_route_dbtn: i64,
    passenger: bool,
    max_jumps: &[u8],
    tables: &Vec<JumpTable>,
) -> (r: Result<(), TradeError>)
    requires
        atlas_ok(old(worlds)@, coords@),
        indexed(old(worlds)@),
        forall|k: int| 0 <= k < old(worlds)@.len() ==> tradeable(#[trigger] old(worlds)@[k]),
        forall|k: int, d: int|
            0 <= k < old(worlds)@.len() && 0 <= d < old(worlds)@[k].dbtn_to_coords@.len() ==> (#[trigger] old(
                worlds,
            )@[k].dbtn_to_coords@[d])@.no_duplicates(),
        forall|k: int, class: int| 0 <= k < old(worlds)@.len() && 0 <= class < 5 ==> #[trigger] route_list(old(worlds)@[k], class).no_duplicates(),
        forall|k: int| 0 <= k < old(worlds)@.len() ==> (#[trigger] old(worlds)@[k]).partners_known(coords@),
        max_jumps@.len() >= 6,
        tables_ok(tables@, coords@.len() as int),
        forall|k: int| 0 <= k < max_jumps@.len() ==> has_table(tables@, #[trigger] max_jumps@[k]),
    ensures
        r is Ok <==> trade_fits(old(worlds)@, coords@, min_dbtn, min_route_dbtn, passenger, max_jumps@, tables@),
        (r == Err::<(), TradeError>(TradeError::BtnOutOfRange)) <==> !pair_bounds_ok(
            old(worlds)@,
            btn_table(tables@, max_jumps@).dist,
            passenger,
            pairs_of(old(worlds)@, coords@, min_dbtn as int),
        ),
        r == Err::<(), TradeError>(TradeError::BtnOutOfRange) ==> final(worlds)@ == old(worlds)@,
        r == Err::<(), TradeError>(TradeError::CreditOverflow) ==> final(worlds)@ == old(worlds)@ || recorded_state(
            old(worlds)@,
            final(worlds)@,
            coords@,
            btn_table(tables@, max_jumps@).dist,
            passenger,
            pairs_of(old(worlds)@, coords@, min_dbtn as int),
        ),
        r is Ok ==> exists|ws: Seq<World>|
            #[trigger] recorded_state(
                old(worlds)@,
                ws,
                coords@,
                btn_table(tables@, max_jumps@).dist,
                passenger,
                pairs_of(old(worlds)@, coords@, min_dbtn as int),
            ) && route_totals_fit(ws, context_of(ws, coords@, tables@, max_jumps@, min_route_dbtn)) && routes_filed(
                final(worlds)@,
                ws,
                context_of(ws, coords@, tables@, max_jumps@, min_route_dbtn),
            ),
        r is Ok ==> (routes_symmetric(old(worlds)@, coords@) ==> routes_symmetric(final(worlds)@, coords@)),
        r is Ok ==> (fresh_trade(old(worlds)@) ==> forall|k: int|
            0 <= k < final(worlds)@.len() ==> (#[trigger] final(worlds)@[k]).endpoint_trade_credits == bucket_credits(
                final(worlds)@[k].dbtn_to_coords@.map_values(|v: Vec<Coords>| v@),
                final(worlds)@[k].dbtn_to_coords@.len() as int,
            )),
        r is Ok ==> (fresh_trade(old(worlds)@) ==> partners_symmetric(final(worlds)@, coords@)),
        r is Ok ==> ((forall|k: int, class: int| 0 <= k < old(worlds)@.len() && 0 <= class < 5 ==> #[trigger] route_list(old(worlds)@[k], class).len()
            == 0) ==> routes_disjoint(final(worlds)@) && routes_exclude_self(final(worlds)@, coords@)),
{
    let ghost w0 = worlds@;
    let n = worlds.len();
    let mut keys: Vec<u64> = Vec::new();
    let mut k: usize = 0;
    while k < n
        invariant
            n == worlds@.len(),
            w0 == worlds@,
            forall|q: int| 0 <= q < n ==> tradeable(#[trigger] w0[q]),
            k <= n,
            keys@ == trade_keys(w0).take(k as int),
        decreases n - k,
    {
        assert(tradeable(w0[k as int]));
        let d = worlds[k].dwtn();
        let key: u64 = if d < 0 { 0 } else { d as u64 };
        keys.push(key);
        proof {
            assert(trade_keys(w0).take(k + 1) =~= trade_keys(w0).take(k as int).push(key));
        }
        k += 1;
    }
    proof {
        assert(keys@ =~= trade_keys(w0));
    }
    let order = rank_keys(&keys);
    proof {
        lemma_trade_order_unique(trade_keys(w0), order@, trade_order_spec(w0));
    }
    let pairs = select_trade_pairs(worlds, coords, &order, min_dbtn);
    proof {
        lemma_pairs_in_range(w0, coords@, min_dbtn as int, order@, n as int);
        lemma_largest_jump_in(max_jumps@);
    }
    let largest = largest_of(max_jumps);
    let table = table_for(tables, largest);
    proof {
        let i = choose|i: int| 0 <= i < max_jumps@.len() && max_jumps@[i] == largest;
        assert(has_table(tables@, max_jumps@[i]));
        let q = choose|q: int| 0 <= q < tables@.len() && (#[trigger] tables@[q]).jump == largest;
        assert(tables@[q] == *table);
    }
    let checked = check_pair_trade(worlds, &pairs, &table.dist, passenger);
    if checked.is_err() {
        return checked;
    }
    record_pair_trade(worlds, coords, &pairs, &table.dist, passenger);
    let ghost ws = worlds@;
    let ghost cx = context_of(ws, coords@, tables@, max_jumps@, min_route_dbtn);
    proof {
        assert(recorded_state(w0, ws, coords@, table.dist, passenger, pairs@));
        assert forall|q: int| 0 <= q < n implies (#[trigger] ws[q]).locatable() && ws[q].coords_spec() == coords@[q] by {
            assert(trade_recorded(w0[q], ws[q]));
            assert(ws[q].hex == w0[q].hex && ws[q].sector_location == w0[q].sector_location);
        }
        assert(atlas_ok(ws, coords@));
        assert forall|q: int| 0 <= q < n implies (#[trigger] ws[q]).index == Some(q as usize) by {
            assert(trade_recorded(w0[q], ws[q]));
        }
        assert(cx.ready());
        assert forall|q: int| 0 <= q < n implies (#[trigger] ws[q]).partners_known(coords@) by {
            assert(w0[q].partners_known(coords@));
            assert forall|b: int, t: int|
                0 <= b < ws[q].dbtn_to_coords@.len() && 0 <= t < ws[q].dbtn_to_coords@[b]@.len() implies coords@.contains(
                    #[trigger] ws[q].dbtn_to_coords@[b]@[t],
                ) by {
                lemma_dbtn_list_known(w0, coords@, table.dist, passenger, pairs@, pairs@.len() as int, q, b);
            }
        }
    }
    proof {
        assert(cx == (RouteContext { sorted: coords@, worlds: worlds@, tables: tables@, max_jumps: max_jumps@, min_route_dbtn }));
    }
    let gathered = gather_route_credits(worlds, coords, max_jumps, min_route_dbtn, tables);
    let (rows, transit) = match gathered {
        Some(g) => g,
        None => {
            proof {
                assert(!route_totals_fit(ws, cx)) by {
                    if route_totals_fit(ws, cx) {
                        assert forall|a: int, b: int| 0 <= a < coords@.len() && 0 <= b < coords@.len() implies edge_total(
                            all_route_edges(cx, worlds@.len() as int),
                            #[trigger] coords@[a],
                            #[trigger] coords@[b],
                        ) <= u64::MAX by {
                            assert(cx.sorted[a] == coords@[a] && cx.sorted[b] == coords@[b]);
                        }
                        assert forall|q: int| 0 <= q < coords@.len() implies transit_total(
                            all_route_transits(cx, worlds@.len() as int),
                            #[trigger] coords@[q],
                        ) <= u64::MAX by {
                            assert(ws[q].transient_trade_credits + transit_total(all_route_transits(cx, ws.len() as int), cx.sorted[q])
                                <= u64::MAX);
                        }
                    }
                }
            }
            return Err(TradeError::CreditOverflow);
        },
    };
    proof {
        assert(trade_fits(w0, coords@, min_dbtn, min_route_dbtn, passenger, max_jumps@, tables@) ==> route_totals_fit(ws, cx));
        assert(pair_bounds_ok(w0, btn_table(tables@, max_jumps@).dist, passenger, pairs_of(w0, coords@, min_dbtn as int)));
        assert(recorded_state(w0, ws, coords@, btn_table(tables@, max_jumps@).dist, passenger, pairs_of(w0, coords@, min_dbtn as int)));
    }
    let mut q: usize = 0;
    while q < n
        invariant
            pair_bounds_ok(old(worlds)@, btn_table(tables@, max_jumps@).dist, passenger, pairs_of(old(worlds)@, coords@, min_dbtn as int)),
            recorded_state(old(worlds)@, ws, coords@, btn_table(tables@, max_jumps@).dist, passenger, pairs_of(old(worlds)@, coords@, min_dbtn as int)),
            trade_fits(old(worlds)@, coords@, min_dbtn, min_route_dbtn, passenger, max_jumps@, tables@) ==> route_totals_fit(ws, cx),
            n == worlds@.len(),
            ws == worlds@,
            transit@.len() == n,
            cx.sorted == coords@,
            n == coords@.len(),
            forall|j: int| 0 <= j < n ==> #[trigger] transit@[j] == transit_total(all_route_transits(cx, ws.len() as int), coords@[j]),
            q <= n,
            forall|j: int| 0 <= j < q ==> (#[trigger] ws[j]).transient_trade_credits + transit@[j] <= u64::MAX,
        decreases n - q,
    {
        if worlds[q].transient_trade_credits > u64::MAX - transit[q] {
            proof {
                assert(!route_totals_fit(ws, cx)) by {
                    assert(cx.sorted[q as int] == coords@[q as int]);
                }
            }
            return Err(TradeError::CreditOverflow);
        }
        q += 1;
    }
    proof {
        assert(route_totals_fit(ws, cx)) by {
            assert forall|k: int| 0 <= k < n implies (#[trigger] ws[k]).transient_trade_credits + transit_total(
                all_route_transits(cx, ws.len() as int),
                cx.sorted[k],
            ) <= u64::MAX by {
                assert(transit@[k] == transit_total(all_route_transits(cx, worlds@.len() as int), coords@[k]));
            }
        }
    }
    proof {
        assert forall|q: int, class: int| 0 <= q < n && 0 <= class < 5 implies #[trigger] route_list(ws[q], class).no_duplicates() by {
            assert(trade_recorded(w0[q], ws[q]));
            assert(route_list(ws[q], class) == route_list(w0[q], class));
        }
    }
    apply_route_credits(worlds, coords, &rows, &transit, min_route_dbtn, Ghost(all_route_edges(cx, n as int)));
    proof {
        assert(routes_filed(worlds@, ws, cx));
        lemma_route_lists_kept(w0, ws, worlds@, coords@, cx, min_route_dbtn as int);
        lemma_fresh_endpoint_credits(w0, ws, worlds@, coords@, table.dist, passenger, order@, min_dbtn as int);
    }
    proof {
        assert forall|ws2: Seq<World>|
            #[trigger] recorded_state(w0, ws2, coords@, table.dist, passenger, pairs@) implies route_totals_fit(
                ws2,
                context_of(ws2, coords@, tables@, max_jumps@, min_route_dbtn),
            ) by {
            lemma_totals_fit_alike(w0, ws, ws2, coords@, table.dist, passenger, pairs@, tables@, max_jumps@, min_route_dbtn);
        }
        assert(trade_fits(w0, coords@, min_dbtn, min_route_dbtn, passenger, max_jumps@, tables@));
    }
    Ok(())
}

/// Works out the trade between all worlds and the routes it takes, and
/// records it in the worlds.
///
/// Worlds are ranked by WTN; each pair that may reach the minimum BTN
/// (`min_dbtn` is twice the minimum BTN, rounded up) trades with the BTN
/// over the distances of the largest jump limit, which both worlds gain as
/// endpoint credits and file each other under. Then each world's trade goes
/// along the shortest route that its class may use (`min_route_dbtn` is
/// twice the minimum BTN of a route, rounded up): the credits over each jump
/// of all routes are summed, and each jump becomes a route of the class of its
/// sum; the stops between a route's ends gain transit credits.
pub fn populate_trade_routes(
    worlds: &mut Vec<World>,
    coords: &Vec<Coords>,
    min_dbtn: i64,
    min_route_dbtn: i64,
    passenger: bool,
    max_jumps: &[u8],
    tables: &Vec<JumpTable>,
)
    requires
        atlas_ok(old(worlds)@, coords@),
        indexed(old(worlds)@),
        forall|k: int| 0 <= k < old(worlds)@.len() ==> tradeable(#[trigger] old(worlds)@[k]),
        forall|k: int, d: int|
            0 <= k < old(worlds)@.len() && 0 <= d < old(worlds)@[k].dbtn_to_coords@.len() ==> (#[trigger] old(
                worlds,
            )@[k].dbtn_to_coords@[d])@.no_duplicates(),
        forall|k: int, class: int| 0 <= k < old(worlds)@.len() && 0 <= class < 5 ==> #[trigger] route_list(old(worlds)@[k], class).no_duplicates(),
        forall|k: int| 0 <= k < old(worlds)@.len() ==> (#[trigger] old(worlds)@[k]).partners_known(coords@),
        max_jumps@.len() >= 6,
        tables_ok(tables@, coords@.len() as int),
        forall|k: int| 0 <= k < max_jumps@.len() ==> has_table(tables@, #[trigger] max_jumps@[k]),
        trade_fits(old(worlds)@, coords@, min_dbtn, min_route_dbtn, passenger, max_jumps@, tables@),
    ensures
        exists|ws: Seq<World>|
            #[trigger] recorded_state(
                old(worlds)@,
                ws,
                coords@,
                btn_table(tables@, max_jumps@).dist,
                passenger,
                pairs_of(old(worlds)@, coords@, min_dbtn as int),
            ) && routes_filed(final(worlds)@, ws, context_of(ws, coords@, tables@, max_jumps@, min_route_dbtn)),
        routes_symmetric(old(worlds)@, coords@) ==> routes_symmetric(final(worlds)@, coords@),
        fresh_trade(old(worlds)@) ==> forall|k: int|
            0 <= k < final(worlds)@.len() ==> (#[trigger] final(worlds)@[k]).endpoint_trade_credits == bucket_credits(
                final(worlds)@[k].dbtn_to_coords@.map_values(|v: Vec<Coords>| v@),
                final(worlds)@[k].dbtn_to_coords@.len() as int,
            ),
        fresh_trade(old(worlds)@) ==> partners_symmetric(final(worlds)@, coords@),
        (forall|k: int, class: int| 0 <= k < old(worlds)@.len() && 0 <= class < 5 ==> #[trigger] route_list(old(worlds)@[k], class).len()
            == 0) ==> routes_disjoint(final(worlds)@) && routes_exclude_self(final(worlds)@, coords@),
{
    let r = try_populate_trade_routes(worlds, coords, min_dbtn, min_route_dbtn, passenger, max_jumps, tables);
    proof {
        assert(r is Ok);
    }
}

} // verus!

verus! {

fn fold_edges(
    rows: &mut Vec<Vec<(usize, u64)>>,
    coords: &Vec<Coords>,
    es: &Vec<(Coords, Coords, u64)>,
    Ghost(cx): Ghost<RouteContext>,
    Ghost(base_e): Ghost<Seq<(Coords, Coords, u64)>>,
    Ghost(rest_e): Ghost<Seq<(Coords, Coords, u64)>>,
    Ghost(total_e): Ghost<Seq<(Coords, Coords, u64)>>,
) -> (ok: bool)
    requires
        cx.ready(),
        coords@ == cx.sorted,
        total_e == base_e + es@ + rest_e,
        forall|t: int| 0 <= t < es@.len() ==> cx.sorted.contains((#[trigger] es@[t]).0) && cx.sorted.contains(es@[t].1),
        ledger_ok(old(rows)@, coords@, base_e),
    ensures
        ok ==> ledger_ok(final(rows)@, coords@, base_e + es@),
        !ok ==> exists|a: int, b: int|
            0 <= a < coords@.len() && 0 <= b < coords@.len() && edge_total(total_e, #[trigger] coords@[a], #[trigger] coords@[b])
                > u64::MAX,
{
    let ghost n = coords@.len() as int;
    let mut u: usize = 0;
    while u < es.len()
        invariant
            cx.ready(),
            coords@ == cx.sorted,
            n == coords@.len(),
            total_e == base_e + es@ + rest_e,
            forall|t: int| 0 <= t < es@.len() ==> cx.sorted.contains((#[trigger] es@[t]).0) && cx.sorted.contains(es@[t].1),
            u <= es@.len(),
            ledger_ok(rows@, coords@, base_e + es@.take(u as int)),
        decreases es@.len() - u,
    {
        let e = es[u];
        assert(cx.sorted.contains(es@[u as int].0) && cx.sorted.contains(es@[u as int].1));
        let a = index_of(coords.as_slice(), e.0).unwrap();
        let b = index_of(coords.as_slice(), e.1).unwrap();
        proof {
            let cur = base_e + es@.take(u as int);
            assert(cur.push(e) =~= base_e + es@.take(u + 1));
            assert(total_e =~= (base_e + es@.take(u + 1)) + (es@.skip(u + 1) + rest_e));
            lemma_edge_total_append(base_e + es@.take(u + 1), es@.skip(u + 1) + rest_e, coords@[a as int], coords@[b as int]);
        }
        if !ledger_add(rows, coords, a, b, e.2, Ghost(base_e + es@.take(u as int))) {
            proof {
                assert(edge_total(total_e, coords@[a as int], coords@[b as int]) > u64::MAX);
            }
            return false;
        }
        proof {
            assert((base_e + es@.take(u as int)).push(e) =~= base_e + es@.take(u + 1));
        }
        u += 1;
    }
    proof {
        assert(es@.take(es@.len() as int) =~= es@);
    }
    true
}

fn fold_transits(
    transit: &mut Vec<u64>,
    coords: &Vec<Coords>,
    ts: &Vec<(Coords, u64)>,
    Ghost(cx): Ghost<RouteContext>,
    Ghost(base_t): Ghost<Seq<(Coords, u64)>>,
    Ghost(rest_t): Ghost<Seq<(Coords, u64)>>,
    Ghost(total_t): Ghost<Seq<(Coords, u64)>>,
) -> (ok: bool)
    requires
        cx.ready(),
        coords@ == cx.sorted,
        total_t == base_t + ts@ + rest_t,
        forall|t: int| 0 <= t < ts@.len() ==> cx.sorted.contains((#[trigger] ts@[t]).0),
        old(transit)@.len() == coords@.len(),
        forall|q: int| 0 <= q < coords@.len() ==> #[trigger] old(transit)@[q] == transit_total(base_t, coords@[q]),
    ensures
        final(transit)@.len() == coords@.len(),
        ok ==> forall|q: int| 0 <= q < coords@.len() ==> #[trigger] final(transit)@[q] == transit_total(base_t + ts@, coords@[q]),
        !ok ==> exists|q: int| 0 <= q < coords@.len() && transit_total(total_t, #[trigger] coords@[q]) > u64::MAX,
{
    let n = coords.len();
    let mut u: usize = 0;
    while u < ts.len()
        invariant
            cx.ready(),
            coords@ == cx.sorted,
            n == coords@.len(),
            total_t == base_t + ts@ + rest_t,
            forall|t: int| 0 <= t < ts@.len() ==> cx.sorted.contains((#[trigger] ts@[t]).0),
            u <= ts@.len(),
            transit@.len() == n,
            forall|q: int| 0 <= q < n ==> #[trigger] transit@[q] == transit_total(base_t + ts@.take(u as int), coords@[q]),
        decreases ts@.len() - u,
    {
        let t = ts[u];
        assert(cx.sorted.contains(ts@[u as int].0));
        let p = index_of(coords.as_slice(), t.0).unwrap();
        let ghost cur = base_t + ts@.take(u as int);
        proof {
            assert(cur.push(t) =~= base_t + ts@.take(u + 1));
            assert(total_t =~= (base_t + ts@.take(u + 1)) + (ts@.skip(u + 1) + rest_t));
            lemma_transit_total_append(base_t + ts@.take(u + 1), ts@.skip(u + 1) + rest_t, coords@[p as int]);
            assert((base_t + ts@.take(u + 1)).drop_last() =~= cur);
        }
        if transit[p] > u64::MAX - t.1 {
            proof {
                assert(transit_total(total_t, coords@[p as int]) > u64::MAX);
            }
            return false;
        }
        let v = transit[p] + t.1;
        transit.set(p, v);
        proof {
            assert forall|q: int| 0 <= q < n implies #[trigger] transit@[q] == transit_total(base_t + ts@.take(u + 1), coords@[q]) by {
                if q != p {
                    if q < p {
                        assert(crate::atlas::coords_lt(coords@[q], coords@[p as int]));
                    } else {
                        assert(crate::atlas::coords_lt(coords@[p as int], coords@[q]));
                    }
                }
            }
        }
        u += 1;
    }
    proof {
        assert(ts@.take(ts@.len() as int) =~= ts@);
    }
    true
}

} // verus!

verus! {

/// Two states of a world that differ at most in the lists of its partners.
spec fn alike(a: World, b: World) -> bool {
    a == (World { dbtn_to_coords: a.dbtn_to_coords, ..b })
}

/// Two route searches over the same map, whose worlds differ at most in
/// lists of partners with the same contents, all of them on the map.
spec fn contexts_alike(c1: RouteContext, c2: RouteContext) -> bool {
    &&& c1.sorted == c2.sorted
    &&& c1.tables == c2.tables
    &&& c1.max_jumps == c2.max_jumps
    &&& c1.min_route_dbtn == c2.min_route_dbtn
    &&& c1.worlds.len() == c2.worlds.len()
    &&& c1.worlds.len() == c1.sorted.len()
    &&& forall|k: int|
        0 <= k < c1.worlds.len() ==> {
            &&& alike(#[trigger] c1.worlds[k], c2.worlds[k])
            &&& c1.worlds[k].dbtn_to_coords@.len() == c2.worlds[k].dbtn_to_coords@.len()
            &&& forall|d: int|
                0 <= d < c1.worlds[k].dbtn_to_coords@.len() ==> (#[trigger] c1.worlds[k].dbtn_to_coords@[d])@ == c2.worlds[k].dbtn_to_coords@[d]@
            &&& forall|d: int, t: int|
                0 <= d < c1.worlds[k].dbtn_to_coords@.len() && 0 <= t < c1.worlds[k].dbtn_to_coords@[d]@.len() ==> c1.sorted.contains(
                    #[trigger] c1.worlds[k].dbtn_to_coords@[d]@[t],
                )
        }
}

proof fn lemma_best_path_alike(w1: World, w2: World, o1: World, o2: World, c1: RouteContext, c2: RouteContext, allowed: u8, v: int)
    requires
        alike(w1, w2),
        alike(o1, o2),
        c1.sorted == c2.sorted,
        c1.tables == c2.tables,
        c1.max_jumps == c2.max_jumps,
    ensures
        w1.best_path_upto(o1, c1, allowed, v) == w2.best_path_upto(o2, c2, allowed, v),
    decreases v,
{
    if v > 0 {
        lemma_best_path_alike(w1, w2, o1, o2, c1, c2, allowed, v - 1);
    }
}

proof fn lemma_buckets_alike(w1: World, w2: World, c1: RouteContext, c2: RouteContext, b: int, t: int)
    requires
        contexts_alike(c1, c2),
        alike(w1, w2),
        0 <= b < w1.dbtn_to_coords@.len(),
        w1.dbtn_to_coords@[b]@ == w2.dbtn_to_coords@[b]@,
        0 <= t <= w1.dbtn_to_coords@[b]@.len(),
        forall|s: int| 0 <= s < w1.dbtn_to_coords@[b]@.len() ==> c1.sorted.contains(#[trigger] w1.dbtn_to_coords@[b]@[s]),
    ensures
        w1.bucket_edges(c1, b, t) == w2.bucket_edges(c2, b, t),
        w1.bucket_transits(c1, b, t) == w2.bucket_transits(c2, b, t),
    decreases t,
{
    if t > 0 {
        lemma_buckets_alike(w1, w2, c1, c2, b, t - 1);
        let c = w1.dbtn_to_coords@[b]@[t - 1];
        assert(c1.sorted.contains(c));
        let p = c1.position(c);
        assert(c2.position(c) == p);
        assert(0 <= p < c1.worlds.len());
        assert(alike(c1.worlds[p], c2.worlds[p]));
        let allowed = crate::tables::max_allowed_jump_spec(credits_table()[b], c1.max_jumps, c1.min_route_dbtn);
        lemma_best_path_alike(w1, w2, c1.world_at(c), c2.world_at(c), c1, c2, allowed, 256);
        assert(w1.trade_route(c1, b, c) == w2.trade_route(c2, b, c));
    }
}

proof fn lemma_routes_alike(w1: World, w2: World, c1: RouteContext, c2: RouteContext, b: int)
    requires
        contexts_alike(c1, c2),
        alike(w1, w2),
        w1.dbtn_to_coords@.len() == w2.dbtn_to_coords@.len(),
        0 <= b <= w1.dbtn_to_coords@.len(),
        forall|d: int| 0 <= d < w1.dbtn_to_coords@.len() ==> (#[trigger] w1.dbtn_to_coords@[d])@ == w2.dbtn_to_coords@[d]@,
        forall|d: int, s: int|
            0 <= d < w1.dbtn_to_coords@.len() && 0 <= s < w1.dbtn_to_coords@[d]@.len() ==> c1.sorted.contains(
                #[trigger] w1.dbtn_to_coords@[d]@[s],
            ),
    ensures
        w1.route_edges(c1, b) == w2.route_edges(c2, b),
        w1.route_transits(c1, b) == w2.route_transits(c2, b),
    decreases b,
{
    if b > 0 {
        lemma_routes_alike(w1, w2, c1, c2, b - 1);
        assert(w1.dbtn_to_coords@[b - 1]@ == w2.dbtn_to_coords@[b - 1]@);
        lemma_buckets_alike(w1, w2, c1, c2, b - 1, w1.dbtn_to_coords@[b - 1]@.len() as int);
    }
}

proof fn lemma_all_routes_alike(c1: RouteContext, c2: RouteContext, m: int)
    requires
        contexts_alike(c1, c2),
        0 <= m <= c1.worlds.len(),
    ensures
        all_route_edges(c1, m) == all_route_edges(c2, m),
        all_route_transits(c1, m) == all_route_transits(c2, m),
    decreases m,
{
    if m > 0 {
        lemma_all_routes_alike(c1, c2, m - 1);
        let w1 = c1.worlds[m - 1];
        let w2 = c2.worlds[m - 1];
        assert(alike(w1, w2));
        lemma_routes_alike(w1, w2, c1, c2, w1.dbtn_to_coords@.len() as int);
    }
}

/// Whether the credits of the routes fit in `u64` is the same in every state
/// that records the trade of the pairs.
proof fn lemma_totals_fit_alike(
    w0: Seq<World>,
    ws1: Seq<World>,
    ws2: Seq<World>,
    coords: Seq<Coords>,
    dist: Matrix,
    passenger: bool,
    pairs: Seq<(usize, usize)>,
    tables: Seq<JumpTable>,
    max_jumps: Seq<u8>,
    min_route_dbtn: i64,
)
    requires
        w0.len() == coords.len(),
        forall|k: int| 0 <= k < w0.len() ==> (#[trigger] w0[k]).partners_known(coords),
        forall|i: int| 0 <= i < pairs.len() ==> (#[trigger] pairs[i]).0 < coords.len() && pairs[i].1 < coords.len(),
        recorded_state(w0, ws1, coords, dist, passenger, pairs),
        recorded_state(w0, ws2, coords, dist, passenger, pairs),
    ensures
        route_totals_fit(ws1, context_of(ws1, coords, tables, max_jumps, min_route_dbtn)) == route_totals_fit(
            ws2,
            context_of(ws2, coords, tables, max_jumps, min_route_dbtn),
        ),
{
    let c1 = context_of(ws1, coords, tables, max_jumps, min_route_dbtn);
    let c2 = context_of(ws2, coords, tables, max_jumps, min_route_dbtn);
    assert forall|k: int| 0 <= k < c1.worlds.len() implies {
        &&& alike(#[trigger] c1.worlds[k], c2.worlds[k])
        &&& c1.worlds[k].dbtn_to_coords@.len() == c2.worlds[k].dbtn_to_coords@.len()
        &&& forall|d: int|
            0 <= d < c1.worlds[k].dbtn_to_coords@.len() ==> (#[trigger] c1.worlds[k].dbtn_to_coords@[d])@ == c2.worlds[k].dbtn_to_coords@[d]@
        &&& forall|d: int, t: int|
            0 <= d < c1.worlds[k].dbtn_to_coords@.len() && 0 <= t < c1.worlds[k].dbtn_to_coords@[d]@.len() ==> c1.sorted.contains(
                #[trigger] c1.worlds[k].dbtn_to_coords@[d]@[t],
            )
    } by {
        assert(trade_recorded(w0[k], ws1[k]));
        assert(trade_recorded(w0[k], ws2[k]));
        assert forall|d: int|
            0 <= d < c1.worlds[k].dbtn_to_coords@.len() implies (#[trigger] c1.worlds[k].dbtn_to_coords@[d])@
                == c2.worlds[k].dbtn_to_coords@[d]@ by {
            assert(ws1[k].dbtn_to_coords@[d]@ == dbtn_list(w0, coords, dist, passenger, pairs, pairs.len() as int, k, d));
            assert(ws2[k].dbtn_to_coords@[d]@ == dbtn_list(w0, coords, dist, passenger, pairs, pairs.len() as int, k, d));
        }
        assert forall|d: int, t: int|
            0 <= d < c1.worlds[k].dbtn_to_coords@.len() && 0 <= t < c1.worlds[k].dbtn_to_coords@[d]@.len() implies c1.sorted.contains(
                #[trigger] c1.worlds[k].dbtn_to_coords@[d]@[t],
            ) by {
            assert(ws1[k].dbtn_to_coords@[d]@ == dbtn_list(w0, coords, dist, passenger, pairs, pairs.len() as int, k, d));
            assert(w0[k].partners_known(coords));
            lemma_dbtn_list_known(w0, coords, dist, passenger, pairs, pairs.len() as int, k, d);
        }
    }
    assert(contexts_alike(c1, c2));
    lemma_all_routes_alike(c1, c2, ws1.len() as int);
    assert forall|k: int| 0 <= k < ws1.len() implies (#[trigger] ws1[k]).transient_trade_credits == ws2[k].transient_trade_credits by {
        assert(trade_recorded(w0[k], ws1[k]));
        assert(trade_recorded(w0[k], ws2[k]));
    }
    let n = ws1.len() as int;
    let e1 = all_route_edges(c1, n);
    let t1 = all_route_transits(c1, n);
    assert(e1 == all_route_edges(c2, ws2.len() as int));
    assert(t1 == all_route_transits(c2, ws2.len() as int));
    if route_totals_fit(ws1, c1) {
        assert forall|k: int| 0 <= k < c2.sorted.len() implies (#[trigger] ws2[k]).transient_trade_credits + transit_total(
            all_route_transits(c2, ws2.len() as int),
            c2.sorted[k],
        ) <= u64::MAX by {
            assert(ws1[k].transient_trade_credits + transit_total(t1, c1.sorted[k]) <= u64::MAX);
        }
    }
    if route_totals_fit(ws2, c2) {
        assert forall|k: int| 0 <= k < c1.sorted.len() implies (#[trigger] ws1[k]).transient_trade_credits + transit_total(
            all_route_transits(c1, ws1.len() as int),
            c1.sorted[k],
        ) <= u64::MAX by {
            assert(ws2[k].transient_trade_credits + transit_total(t1, c2.sorted[k]) <= u64::MAX);
        }
    }
}

} // verus!
