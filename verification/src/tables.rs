use vstd::prelude::*;

verus! {

/// Trade credits for each doubled BTN, averages of the published ranges.
pub open spec fn credits_table() -> Seq<u64> {
    seq![
        0u64,
        7,
        30,
        75,
        300,
        750,
        3000,
        7500,
        30000,
        75000,
        300000,
        750000,
        3000000,
        7500000,
        30000000,
        75000000,
        300000000,
        750000000,
        3000000000,
        75000000000,
        300000000000,
        750000000000,
        3000000000000,
        7500000000000,
        30000000000000,
        75000000000000,
        300000000000000,
    ]
}

/// The table of trade credits by doubled BTN.
pub fn dbtn_to_credits() -> (t: Vec<u64>)
    ensures
        t@ == credits_table(),
{
    let t = vec![
        0u64,
        7,
        30,
        75,
        300,
        750,
        3000,
        7500,
        30000,
        75000,
        300000,
        750000,
        3000000,
        7500000,
        30000000,
        75000000,
        300000000,
        750000000,
        3000000000,
        75000000000,
        300000000000,
        750000000000,
        3000000000000,
        7500000000000,
        30000000000000,
        75000000000000,
        300000000000000,
    ];
    proof {
        assert(t@ =~= credits_table());
    }
    t
}

/// The first index of `t` whose element is not below `x`: for a sorted `t`,
/// where `x` would be inserted before any equal elements.
pub open spec fn first_not_below(t: Seq<u64>, x: u64) -> nat
    decreases t.len(),
{
    if t.len() == 0 {
        0
    } else if t[0] < x {
        1 + first_not_below(t.drop_first(), x)
    } else {
        0
    }
}

pub open spec fn sorted(t: Seq<u64>) -> bool {
    forall|p: int, q: int| 0 <= p <= q < t.len() ==> t[p] <= t[q]
}

/// Calls `bisection::bisect_left`: on a sorted slice, the index `i` with every
/// element before `i` below `x` and every element from `i` on at least `x`.
#[verifier::external_body]
fn bisect_left(a: &[u64], x: u64) -> (i: usize)
    requires
        sorted(a@),
    ensures
        i <= a@.len(),
        forall|k: int| 0 <= k < i ==> a@[k] < x,
        forall|k: int| i <= k < a@.len() ==> a@[k] >= x,
{
    bisection::bisect_left(a, &x)
}

proof fn lemma_first_not_below(t: Seq<u64>, x: u64, i: int)
    requires
        0 <= i <= t.len(),
        forall|k: int| 0 <= k < i ==> t[k] < x,
        forall|k: int| i <= k < t.len() ==> t[k] >= x,
    ensures
        first_not_below(t, x) == i,
    decreases t.len(),
{
    if t.len() > 0 && i > 0 {
        let r = t.drop_first();
        assert forall|k: int| 0 <= k < i - 1 implies r[k] < x by {
            assert(r[k] == t[k + 1]);
        }
        assert forall|k: int| i - 1 <= k < r.len() implies r[k] >= x by {
            assert(r[k] == t[k + 1]);
        }
        lemma_first_not_below(r, x, i - 1);
    }
}

/// The insertion point of `x` in the sorted table `a`.
pub fn insertion_point(a: &Vec<u64>, x: u64) -> (i: usize)
    requires
        sorted(a@),
    ensures
        i == first_not_below(a@, x),
        i <= a@.len(),
{
    let i = bisect_left(a.as_slice(), x);
    proof {
        lemma_first_not_below(a@, x, i as int);
    }
    i
}

/// Jump distances at which the distance modifier steps up by half a BTN.
pub open spec fn distance_table() -> Seq<u64> {
    seq![1u64, 2, 5, 9, 19, 29, 59, 99, 199, 299, 599, 999, 65535]
}

/// The BTN penalty, in half units, for a shortest jump distance: twice
/// 9999 when unreachable, else one half unit per table entry below it.
pub open spec fn ddistance_modifier_spec(distance: u16) -> int {
    if distance == crate::apsp::INFINITY {
        19998
    } else {
        first_not_below(distance_table(), distance as u64) as int
    }
}

/// The BTN distance modifier, in half units (twice the table's value).
pub fn ddistance_modifier_table(distance: u16) -> (d: u16)
    ensures
        d as int == ddistance_modifier_spec(distance),
{
    if distance == crate::apsp::INFINITY {
        return 19998;
    }
    let table: Vec<u64> = vec![1u64, 2, 5, 9, 19, 29, 59, 99, 199, 299, 599, 999, 65535];
    proof {
        assert(table@ =~= distance_table());
    }
    let index = insertion_point(&table, distance as u64);
    index as u16
}

/// The doubled BTN that a number of trade credits amounts to: where the
/// credits fall in the table.
pub fn credits_to_dbtn(credits: u64) -> (d: usize)
    ensures
        d == first_not_below(credits_table(), credits),
        d <= 27,
{
    let table = dbtn_to_credits();
    let d = insertion_point(&table, credits);
    d
}

/// The jump limit of the route class that trade of `credits` makes.
pub open spec fn max_allowed_jump_spec(credits: u64, max_jumps: Seq<u8>, min_route_dbtn: i64) -> u8 {
    let d = first_not_below(credits_table(), credits) as int;
    if d >= min_route_dbtn + 8 {
        max_jumps[5]
    } else if d >= min_route_dbtn + 6 {
        max_jumps[4]
    } else if d >= min_route_dbtn + 4 {
        max_jumps[3]
    } else if d >= min_route_dbtn + 2 {
        max_jumps[2]
    } else {
        max_jumps[1]
    }
}

/// The longest jump that trade of `credits` may use on its route: routes
/// of higher classes (feeder, intermediate, main, major, each one BTN above
/// the last) may use the longer jumps in `max_jumps[2..6]`, minor routes
/// `max_jumps[1]`. `min_route_dbtn` is the least doubled BTN of a minor
/// route, that is twice the minimum route BTN rounded up.
pub fn find_max_allowed_jump(credits: u64, max_jumps: &[u8], min_route_dbtn: i64) -> (j: u8)
    requires
        max_jumps@.len() >= 6,
    ensures
        j == max_allowed_jump_spec(credits, max_jumps@, min_route_dbtn),
{
    let trade_dbtn = credits_to_dbtn(credits) as i64;
    if trade_dbtn - 8 >= min_route_dbtn {
        return max_jumps[5];
    } else if trade_dbtn - 6 >= min_route_dbtn {
        return max_jumps[4];
    } else if trade_dbtn - 4 >= min_route_dbtn {
        return max_jumps[3];
    } else if trade_dbtn - 2 >= min_route_dbtn {
        return max_jumps[2];
    }
    max_jumps[1]
}

}

verus! {

/// The jump limit of a trade of doubled BTN `b`, against the least doubled
/// BTN `m` of a minor route: `max_jumps[1]` below `m + 2` (minor routes),
/// then `max_jumps[2]`, `[3]`, `[4]` for each BTN more (feeder,
/// intermediate, main), and `max_jumps[5]` from `m + 8` on (major).
pub proof fn law_route_jump_limit(b: int, max_jumps: Seq<u8>, m: i64)
    requires
        0 <= b < credits_table().len(),
    ensures
        max_allowed_jump_spec(credits_table()[b], max_jumps, m) == if b >= m + 8 {
            max_jumps[5]
        } else if b >= m + 6 {
            max_jumps[4]
        } else if b >= m + 4 {
            max_jumps[3]
        } else if b >= m + 2 {
            max_jumps[2]
        } else {
            max_jumps[1]
        },
{
    lemma_credits_roundtrip(b);
}

/// Turning a doubled BTN into credits and back gives the same doubled BTN:
/// the table's entries rise strictly.
pub proof fn lemma_credits_roundtrip(d: int)
    requires
        0 <= d < credits_table().len(),
    ensures
        first_not_below(credits_table(), credits_table()[d]) == d,
{
    let t = credits_table();
    assert forall|k: int| 0 <= k < 26 implies #[trigger] t[k] < t[k + 1] by {}
    lemma_rising(t, d);
    lemma_first_not_below(t, t[d], d);
}

proof fn lemma_rising(t: Seq<u64>, d: int)
    requires
        0 <= d < t.len(),
        forall|k: int| 0 <= k < t.len() - 1 ==> #[trigger] t[k] < t[k + 1],
    ensures
        forall|k: int| 0 <= k < d ==> t[k] < t[d],
        forall|k: int| d <= k < t.len() ==> t[k] >= t[d],
    decreases t.len() - d,
{
    assert forall|k: int| 0 <= k < d implies t[k] < t[d] by {
        lemma_rise_between(t, k, d);
    }
    assert forall|k: int| d <= k < t.len() implies t[k] >= t[d] by {
        if k > d {
            lemma_rise_between(t, d, k);
        }
    }
}

proof fn lemma_rise_between(t: Seq<u64>, a: int, b: int)
    requires
        0 <= a < b < t.len(),
        forall|k: int| 0 <= k < t.len() - 1 ==> #[trigger] t[k] < t[k + 1],
    ensures
        t[a] < t[b],
    decreases b - a,
{
    if b > a + 1 {
        lemma_rise_between(t, a, b - 1);
        assert(t[b - 1] < t[b]);
    } else {
        assert(t[a] < t[a + 1]);
    }
}

proof fn lemma_first_not_below_monotone(t: Seq<u64>, x: u64, y: u64)
    requires
        x <= y,
    ensures
        first_not_below(t, x) <= first_not_below(t, y),
        first_not_below(t, y) <= t.len(),
    decreases t.len(),
{
    if t.len() > 0 {
        lemma_first_not_below_monotone(t.drop_first(), x, y);
    }
}

/// A longer shortest distance never makes a smaller distance penalty.
pub proof fn lemma_distance_modifier_monotone(a: u16, b: u16)
    requires
        a <= b,
    ensures
        ddistance_modifier_spec(a) <= ddistance_modifier_spec(b),
{
    lemma_first_not_below_monotone(distance_table(), a as u64, b as u64);
    lemma_first_not_below_monotone(distance_table(), a as u64, a as u64);
}

/// More trade credits never amount to a lower doubled BTN.
pub proof fn lemma_credits_to_dbtn_monotone(a: u64, b: u64)
    requires
        a <= b,
    ensures
        first_not_below(credits_table(), a) <= first_not_below(credits_table(), b),
{
    lemma_first_not_below_monotone(credits_table(), a, b);
}

} // verus!
