use vstd::prelude::*;
use crate::coords::{hex_distance, lemma_hex_distance_exact, on_grid, Coords};
use crate::text::{chars_of, parse_i64, parse_i64_spec};
use crate::world::World;

verus! {

/// A hex label begins with two characters that read as the column number and
/// two that read as the row number.
pub open spec fn hex_ok(hex: Seq<char>) -> bool {
    &&& hex.len() >= 4
    &&& parse_i64_spec(hex.subrange(0, 2)) is Some
    &&& parse_i64_spec(hex.subrange(2, 4)) is Some
}

/// The column within its sector that a hex label names.
pub open spec fn hex_column(hex: Seq<char>) -> int {
    parse_i64_spec(hex.subrange(0, 2))->0 as int
}

/// The row within its sector that a hex label names.
pub open spec fn hex_row(hex: Seq<char>) -> int {
    parse_i64_spec(hex.subrange(2, 4))->0 as int
}

pub open spec fn fits_i64(v: int) -> bool {
    i64::MIN <= v <= i64::MAX
}

/// Absolute column: sectors are 32 hexes wide.
pub open spec fn absolute_x(hex: Seq<char>, location: (i64, i64)) -> int {
    hex_column(hex) + 32 * location.0
}

/// Absolute row: sectors are 40 hexes tall.
pub open spec fn absolute_y(hex: Seq<char>, location: (i64, i64)) -> int {
    hex_row(hex) + 40 * location.1
}

/// Twice the absolute row, plus one in even columns, which sit half a hex
/// lower.
pub open spec fn absolute_y2(hex: Seq<char>, location: (i64, i64)) -> int {
    2 * absolute_y(hex, location) + if absolute_x(hex, location) % 2 == 0 { 1int } else { 0 }
}

/// The hex label can be read and every step of turning it into absolute
/// coordinates fits in an `i64`.
pub open spec fn position_ok(hex: Seq<char>, location: (i64, i64)) -> bool {
    &&& hex_ok(hex)
    &&& fits_i64(32 * location.0)
    &&& fits_i64(absolute_x(hex, location))
    &&& fits_i64(40 * location.1)
    &&& fits_i64(absolute_y(hex, location))
    &&& fits_i64(2 * absolute_y(hex, location))
    &&& fits_i64(absolute_y2(hex, location))
}

impl World {
    /// The world's position can be worked out.
    pub open spec fn locatable(&self) -> bool {
        position_ok(self.hex@, self.sector_location)
    }

    pub open spec fn coords_spec(&self) -> Coords {
        Coords {
            x: absolute_x(self.hex@, self.sector_location) as i64,
            y2: absolute_y2(self.hex@, self.sector_location) as i64,
        }
    }

    /// The world's absolute coordinates, from its hex label and its sector's
    /// location.
    pub fn get_coords(&self) -> (c: Coords)
        requires
            self.locatable(),
        ensures
            c == self.coords_spec(),
    {
        let hex = chars_of(self.hex.as_str());
        let column: Vec<char> = vec![hex[0], hex[1]];
        let row: Vec<char> = vec![hex[2], hex[3]];
        proof {
            assert(column@ =~= self.hex@.subrange(0, 2));
            assert(row@ =~= self.hex@.subrange(2, 4));
        }
        let location = self.sector_location;
        let x: i64 = parse_i64(column.as_slice()).unwrap() + 32 * location.0;
        let y: i64 = parse_i64(row.as_slice()).unwrap() + 40 * location.1;
        let mut y2 = 2 * y;
        if x % 2 == 0 {
            y2 += 1;
        }
        Coords { x, y2 }
    }

    /// Tells whether the world's position can be worked out.
    pub fn is_locatable(&self) -> (b: bool)
        ensures
            b == self.locatable(),
    {
        let hex = chars_of(self.hex.as_str());
        if hex.len() < 4 {
            return false;
        }
        let column: Vec<char> = vec![hex[0], hex[1]];
        let row: Vec<char> = vec![hex[2], hex[3]];
        proof {
            assert(column@ =~= self.hex@.subrange(0, 2));
            assert(row@ =~= self.hex@.subrange(2, 4));
        }
        let c = parse_i64(column.as_slice());
        let r = parse_i64(row.as_slice());
        if c.is_none() || r.is_none() {
            return false;
        }
        let lo: i128 = -0x8000_0000_0000_0000;
        let hi: i128 = 0x7fff_ffff_ffff_ffff;
        let location = self.sector_location;
        let sx: i128 = 32 * (location.0 as i128);
        let ax: i128 = c.unwrap() as i128 + sx;
        let sy: i128 = 40 * (location.1 as i128);
        let ay: i128 = r.unwrap() as i128 + sy;
        if sx < lo || sx > hi || ax < lo || ax > hi || sy < lo || sy > hi || ay < lo || ay > hi {
            return false;
        }
        let ay2: i128 = 2 * ay;
        if ay2 < lo || ay2 > hi {
            return false;
        }
        let x: i64 = ax as i64;
        let y2: i128 = if x % 2 == 0 { ay2 + 1 } else { ay2 };
        lo <= y2 && y2 <= hi
    }
}

} // verus!

verus! {

/// The order of coordinates: by column, then by row.
pub open spec fn coords_lt(a: Coords, b: Coords) -> bool {
    a.x < b.x || (a.x == b.x && a.y2 < b.y2)
}

/// Strictly increasing coordinates, so none occurs twice.
pub open spec fn coords_sorted(s: Seq<Coords>) -> bool {
    forall|i: int, j: int| 0 <= i < j < s.len() ==> coords_lt(#[trigger] s[i], #[trigger] s[j])
}

fn coords_less(a: Coords, b: Coords) -> (r: bool)
    ensures
        r == coords_lt(a, b),
{
    a.x < b.x || (a.x == b.x && a.y2 < b.y2)
}

/// The first position whose coordinates are not below `c`.
fn lower_bound(sorted: &[Coords], c: Coords) -> (p: usize)
    requires
        coords_sorted(sorted@),
    ensures
        p <= sorted@.len(),
        forall|k: int| 0 <= k < p ==> coords_lt(#[trigger] sorted@[k], c),
        forall|k: int| p <= k < sorted@.len() ==> !coords_lt(#[trigger] sorted@[k], c),
{
    let mut lo: usize = 0;
    let mut hi: usize = sorted.len();
    while lo < hi
        invariant
            coords_sorted(sorted@),
            lo <= hi <= sorted@.len(),
            forall|k: int| 0 <= k < lo ==> coords_lt(#[trigger] sorted@[k], c),
            forall|k: int| hi <= k < sorted@.len() ==> !coords_lt(#[trigger] sorted@[k], c),
        decreases hi - lo,
    {
        let mid = lo + (hi - lo) / 2;
        if coords_less(sorted[mid], c) {
            proof {
                assert forall|k: int| 0 <= k <= mid implies coords_lt(#[trigger] sorted@[k], c) by {
                    if k < mid {
                        assert(coords_lt(sorted@[k], sorted@[mid as int]));
                    }
                }
            }
            lo = mid + 1;
        } else {
            proof {
                assert forall|k: int| mid <= k < sorted@.len() implies !coords_lt(#[trigger] sorted@[k], c) by {
                    if k > mid {
                        assert(coords_lt(sorted@[mid as int], sorted@[k]));
                    }
                }
            }
            hi = mid;
        }
    }
    lo
}

/// The position of `c` among sorted coordinates, if it is there.
pub fn index_of(sorted: &[Coords], c: Coords) -> (r: Option<usize>)
    requires
        coords_sorted(sorted@),
    ensures
        match r {
            Some(k) => k < sorted@.len() && sorted@[k as int] == c,
            None => !sorted@.contains(c),
        },
{
    let p = lower_bound(sorted, c);
    if p < sorted.len() && sorted[p] == c {
        Some(p)
    } else {
        proof {
            if sorted@.contains(c) {
                let k = choose|k: int| 0 <= k < sorted@.len() && sorted@[k] == c;
                if k < p {
                    assert(coords_lt(sorted@[k], c));
                } else if k > p {
                    assert(coords_lt(sorted@[p as int], sorted@[k]));
                    assert(!coords_lt(sorted@[p as int], c));
                }
            }
        }
        None
    }
}

/// The worlds of a map, one per coordinates, in coordinate order, beside
/// their coordinates.
pub open spec fn atlas_ok(worlds: Seq<World>, coords: Seq<Coords>) -> bool {
    &&& worlds.len() == coords.len()
    &&& coords_sorted(coords)
    &&& forall|k: int| 0 <= k < worlds.len() ==> (#[trigger] worlds[k]).locatable() && worlds[k].coords_spec() == coords[k]
}

/// `w` went in at position `p`: in place of the world with its coordinates,
/// or, where there was none, between the coordinates below and above its own.
pub open spec fn filed_at(
    p: int,
    worlds: Seq<World>,
    coords: Seq<Coords>,
    worlds2: Seq<World>,
    coords2: Seq<Coords>,
    w: World,
) -> bool {
    &&& 0 <= p <= coords.len()
    &&& if p < coords.len() && coords[p] == w.coords_spec() {
        &&& coords2 == coords
        &&& worlds2 == worlds.update(p, w)
    } else {
        &&& coords2 == coords.insert(p, w.coords_spec())
        &&& worlds2 == worlds.insert(p, w)
    }
}

/// The map from coordinates to worlds that a list of worlds and their
/// coordinates stands for.
pub open spec fn atlas_map(worlds: Seq<World>, coords: Seq<Coords>) -> Map<Coords, World> {
    Map::new(
        |c: Coords| coords.contains(c),
        |c: Coords| worlds[choose|k: int| 0 <= k < coords.len() && coords[k] == c],
    )
}

proof fn lemma_atlas_at(worlds: Seq<World>, coords: Seq<Coords>, k: int)
    requires
        coords_sorted(coords),
        worlds.len() == coords.len(),
        0 <= k < coords.len(),
    ensures
        atlas_map(worlds, coords).contains_key(coords[k]),
        atlas_map(worlds, coords)[coords[k]] == worlds[k],
{
    let j = choose|j: int| 0 <= j < coords.len() && coords[j] == coords[k];
    if j != k {
        if j < k {
            assert(coords_lt(coords[j], coords[k]));
        } else {
            assert(coords_lt(coords[k], coords[j]));
        }
    }
}

/// Files a world under its coordinates, replacing the world that was there.
pub fn insert_world(worlds: &mut Vec<World>, coords: &mut Vec<Coords>, w: World)
    requires
        atlas_ok(old(worlds)@, old(coords)@),
        w.locatable(),
    ensures
        atlas_ok(final(worlds)@, final(coords)@),
        exists|p: int| #[trigger] filed_at(p, old(worlds)@, old(coords)@, final(worlds)@, final(coords)@, w),
        atlas_map(final(worlds)@, final(coords)@) == atlas_map(old(worlds)@, old(coords)@).insert(w.coords_spec(), w),
{
    let c = w.get_coords();
    let p = lower_bound(coords.as_slice(), c);
    if p < coords.len() && coords[p] == c {
        worlds.remove(p);
        worlds.insert(p, w);
        proof {
            assert(worlds@ =~= old(worlds)@.update(p as int, w));
        }
    } else {
        worlds.insert(p, w);
        coords.insert(p, c);
        proof {
            assert forall|i: int, j: int| 0 <= i < j < coords@.len() implies coords_lt(#[trigger] coords@[i], #[trigger] coords@[j]) by {
                if j < p {
                    assert(coords@[i] == old(coords)@[i] && coords@[j] == old(coords)@[j]);
                } else if j == p {
                    assert(coords@[i] == old(coords)@[i]);
                } else if i < p {
                    assert(coords@[j] == old(coords)@[j - 1]);
                    assert(coords@[i] == old(coords)@[i]);
                    if p < old(coords)@.len() {
                        assert(!coords_lt(old(coords)@[p as int], c));
                        assert(c != old(coords)@[p as int]);
                    }
                } else if i == p {
                    assert(coords@[j] == old(coords)@[j - 1]);
                    assert(!coords_lt(old(coords)@[p as int], c));
                    assert(c != old(coords)@[p as int]);
                    if j - 1 > p {
                        assert(coords_lt(old(coords)@[p as int], old(coords)@[j - 1]));
                    }
                } else {
                    assert(coords@[j] == old(coords)@[j - 1]);
                    assert(coords@[i] == old(coords)@[i - 1]);
                }
            }
            assert forall|k: int| 0 <= k < worlds@.len() implies (#[trigger] worlds@[k]).locatable()
                && worlds@[k].coords_spec() == coords@[k] by {
                if k < p {
                    assert(worlds@[k] == old(worlds)@[k]);
                } else if k > p {
                    assert(worlds@[k] == old(worlds)@[k - 1]);
                }
            }
        }
    }
    assert(filed_at(p as int, old(worlds)@, old(coords)@, worlds@, coords@, w));
    proof {
        let m0 = atlas_map(old(worlds)@, old(coords)@);
        let m1 = atlas_map(worlds@, coords@);
        assert forall|x: Coords| #[trigger] m1.contains_key(x) == m0.insert(c, w).contains_key(x) by {
            if m0.contains_key(x) {
                let k = choose|k: int| 0 <= k < old(coords)@.len() && old(coords)@[k] == x;
                if coords@ == old(coords)@ {
                    assert(coords@[k] == x);
                } else if k < p {
                    assert(coords@[k] == x);
                } else {
                    assert(coords@[k + 1] == x);
                }
            }
            if x == c {
                assert(coords@[p as int] == c);
            }
            if m1.contains_key(x) {
                let k = choose|k: int| 0 <= k < coords@.len() && coords@[k] == x;
                if coords@ == old(coords)@ {
                    assert(old(coords)@[k] == x);
                } else if k < p {
                    assert(old(coords)@[k] == x);
                } else if k > p {
                    assert(old(coords)@[k - 1] == x);
                }
            }
        }
        assert forall|x: Coords| #[trigger] m1.contains_key(x) implies m1[x] == m0.insert(c, w)[x] by {
            let k = choose|k: int| 0 <= k < coords@.len() && coords@[k] == x;
            lemma_atlas_at(worlds@, coords@, k);
            if coords@ == old(coords)@ {
                if k != p {
                    lemma_atlas_at(old(worlds)@, old(coords)@, k);
                }
            } else if k < p {
                lemma_atlas_at(old(worlds)@, old(coords)@, k);
            } else if k > p {
                lemma_atlas_at(old(worlds)@, old(coords)@, k - 1);
            }
        }
        assert(m1 =~= m0.insert(c, w));
    }
}

/// Gives each world its position in the map as its index.
pub fn assign_indices(worlds: &mut Vec<World>)
    ensures
        final(worlds)@.len() == old(worlds)@.len(),
        forall|k: int|
            0 <= k < final(worlds)@.len() ==> (#[trigger] final(worlds)@[k]) == (World { index: Some(k as usize), ..old(worlds)@[k] }),
{
    let mut k: usize = 0;
    while k < worlds.len()
        invariant
            worlds@.len() == old(worlds)@.len(),
            k <= worlds@.len(),
            forall|i: int| 0 <= i < k ==> (#[trigger] worlds@[i]) == (World { index: Some(i as usize), ..old(worlds)@[i] }),
            forall|i: int| k <= i < worlds@.len() ==> (#[trigger] worlds@[i]) == old(worlds)@[i],
        decreases worlds@.len() - k,
    {
        worlds[k].index = Some(k);
        k += 1;
    }
}

impl World {
    /// The hex distance to `other`, saturated to `u16`.
    pub fn straight_line_distance(&self, other: &World) -> (d: u16)
        requires
            self.locatable(),
            other.locatable(),
        ensures
            d == if hex_distance(self.coords_spec(), other.coords_spec()) > 65535 {
                65535
            } else {
                hex_distance(self.coords_spec(), other.coords_spec())
            },
    {
        self.get_coords().straight_line_distance(&other.get_coords())
    }
}

} // verus!

verus! {

/// Every world's index is its position in the map.
pub open spec fn indexed(worlds: Seq<World>) -> bool {
    forall|k: int| 0 <= k < worlds.len() ==> (#[trigger] worlds[k]).index == Some(k as usize)
}

pub fn coords_contains(list: &Vec<Coords>, c: Coords) -> (r: bool)
    ensures
        r == list@.contains(c),
{
    let mut i: usize = 0;
    while i < list.len()
        invariant
            i <= list@.len(),
            forall|k: int| 0 <= k < i ==> list@[k] != c,
        decreases list@.len() - i,
    {
        if list[i] == c {
            return true;
        }
        i += 1;
    }
    false
}

/// Adds `c` to a list of distinct coordinates unless it is there already.
pub fn add_coords(list: &mut Vec<Coords>, c: Coords)
    requires
        old(list)@.no_duplicates(),
    ensures
        final(list)@.no_duplicates(),
        final(list)@.to_set() == old(list)@.to_set().insert(c),
        final(list)@ == if old(list)@.contains(c) {
            old(list)@
        } else {
            old(list)@.push(c)
        },
{
    if !coords_contains(list, c) {
        list.push(c);
        proof {
            old(list)@.lemma_push_to_set_commute(c);
        }
    } else {
        assert(list@.to_set() =~= old(list)@.to_set().insert(c));
    }
}

impl World {
    /// `w` is a refuelling world at hex distance `d`, other than this one
    /// (worlds are told apart by hex label and name).
    pub open spec fn is_neighbor(&self, w: World, d: int) -> bool {
        &&& !(w.hex@ == self.hex@ && w.name@ == self.name@)
        &&& w.can_refuel_spec()
        &&& hex_distance(self.coords_spec(), w.coords_spec()) == d
    }

    /// The coordinates of the neighbors at distance `d` among the map's worlds.
    pub open spec fn neighbor_set(&self, worlds: Seq<World>, coords: Seq<Coords>, d: int) -> Set<Coords> {
        Set::new(|c: Coords| exists|k: int| 0 <= k < coords.len() && coords[k] == c && self.is_neighbor(#[trigger] worlds[k], d))
    }
}

} // verus!

verus! {

/// Each neighbor that the world lists under jump `j` lies at most `j` hexes
/// away.
pub open spec fn neighbors_within(w: World) -> bool {
    forall|j: int, t: int|
        0 <= j < w.neighbors@.len() && 0 <= t < w.neighbors@[j]@.len() ==> hex_distance(
            w.coords_spec(),
            #[trigger] w.neighbors@[j]@[t],
        ) <= j
}

/// Each neighbor that the world lists under jump `j` lies exactly `j` hexes
/// away.
pub open spec fn neighbors_exact(w: World) -> bool {
    forall|j: int, t: int|
        0 <= j < w.neighbors@.len() && 0 <= t < w.neighbors@[j]@.len() ==> hex_distance(
            w.coords_spec(),
            #[trigger] w.neighbors@[j]@[t],
        ) == j
}

/// What a neighbor list held before `populate_neighbors` added to it: the
/// world's own lists, then new empty ones.
pub open spec fn extended(lists: Seq<Vec<Coords>>, k: int) -> Set<Coords> {
    if 0 <= k < lists.len() {
        lists[k]@.to_set()
    } else {
        Set::empty()
    }
}

/// `c` lies within `m` columns of `center` and within `m` rows (`2 * m`
/// half rows) of it.
pub open spec fn in_box(center: Coords, m: int, c: Coords) -> bool {
    &&& center.x - m <= c.x <= center.x + m
    &&& center.y2 - 2 * m <= c.y2 <= center.y2 + 2 * m
}

/// `c` lies in the box and before `(xx, yy)` in column-then-row order.
pub open spec fn scanned(center: Coords, m: int, xx: int, yy: int, c: Coords) -> bool {
    in_box(center, m, c) && (c.x < xx || (c.x == xx && c.y2 < yy))
}

proof fn lemma_near_in_box(a: Coords, b: Coords, m: int)
    requires
        on_grid(a),
        on_grid(b),
        hex_distance(a, b) <= m,
    ensures
        in_box(a, m, b),
{
    lemma_hex_distance_exact(a, b);
}

pub(crate) proof fn lemma_located_on_grid(w: World)
    requires
        w.locatable(),
    ensures
        on_grid(w.coords_spec()),
{
}

proof fn lemma_populated_within(me: World, after: World, worlds: Seq<World>, coords: Seq<Coords>, max_jump: int)
    requires
        atlas_ok(worlds, coords),
        neighbors_within(me),
        after.coords_spec() == me.coords_spec(),
        forall|k: int|
            0 <= k < after.neighbors@.len() ==> (#[trigger] after.neighbors@[k])@.to_set() == if k <= max_jump
                && me.can_refuel_spec() {
                extended(me.neighbors@, k).union(me.neighbor_set(worlds, coords, k))
            } else {
                extended(me.neighbors@, k)
            },
    ensures
        neighbors_within(after),
{
    assert forall|j: int, t: int| 0 <= j < after.neighbors@.len() && 0 <= t < after.neighbors@[j]@.len() implies hex_distance(
        after.coords_spec(),
        #[trigger] after.neighbors@[j]@[t],
    ) <= j by {
        let c = after.neighbors@[j]@[t];
        assert(after.neighbors@[j]@.to_set().contains(c));
        if extended(me.neighbors@, j).contains(c) {
            let t2 = choose|t2: int| 0 <= t2 < me.neighbors@[j]@.len() && me.neighbors@[j]@[t2] == c;
            assert(hex_distance(me.coords_spec(), me.neighbors@[j]@[t2]) <= j);
        } else {
            let k2 = choose|k2: int| 0 <= k2 < coords.len() && coords[k2] == c && me.is_neighbor(#[trigger] worlds[k2], j);
            assert(worlds[k2].coords_spec() == c);
        }
    }
}

proof fn lemma_populated_exact(me: World, after: World, worlds: Seq<World>, coords: Seq<Coords>, max_jump: int)
    requires
        atlas_ok(worlds, coords),
        neighbors_exact(me),
        after.coords_spec() == me.coords_spec(),
        forall|k: int|
            0 <= k < after.neighbors@.len() ==> (#[trigger] after.neighbors@[k])@.to_set() == if k <= max_jump
                && me.can_refuel_spec() {
                extended(me.neighbors@, k).union(me.neighbor_set(worlds, coords, k))
            } else {
                extended(me.neighbors@, k)
            },
    ensures
        neighbors_exact(after),
{
    assert forall|j: int, t: int| 0 <= j < after.neighbors@.len() && 0 <= t < after.neighbors@[j]@.len() implies hex_distance(
        after.coords_spec(),
        #[trigger] after.neighbors@[j]@[t],
    ) == j by {
        let c = after.neighbors@[j]@[t];
        assert(after.neighbors@[j]@.to_set().contains(c));
        if extended(me.neighbors@, j).contains(c) {
            let t2 = choose|t2: int| 0 <= t2 < me.neighbors@[j]@.len() && me.neighbors@[j]@[t2] == c;
            assert(hex_distance(me.coords_spec(), me.neighbors@[j]@[t2]) == j);
        } else {
            let k2 = choose|k2: int| 0 <= k2 < coords.len() && coords[k2] == c && me.is_neighbor(#[trigger] worlds[k2], j);
            assert(worlds[k2].coords_spec() == c);
        }
    }
}

impl World {
    pub open spec fn found(&self, worlds: Seq<World>, coords: Seq<Coords>, center: Coords, m: int, xx: int, yy: int, d: int) -> Set<Coords> {
        Set::new(|c: Coords| scanned(center, m, xx, yy, c) && self.neighbor_set(worlds, coords, d).contains(c))
    }

    pub open spec fn lists_during(&self, lists: Seq<Vec<Coords>>, worlds: Seq<World>, coords: Seq<Coords>, center: Coords, m: int, xx: int, yy: int) -> bool {
        forall|d: int| 0 <= d < lists.len() ==> (#[trigger] lists[d])@.to_set() == if 0 <= d <= m {
            extended(self.neighbors@, d).union(self.found(worlds, coords, center, m, xx, yy, d))
        } else {
            extended(self.neighbors@, d)
        }
    }

    /// Finds the refuelling worlds within `max_jump` hexes and files each
    /// under its distance: `max_jump + 1` lists are added, and filled only if
    /// this world can refuel.
    pub fn populate_neighbors(&mut self, worlds: &Vec<World>, coords: &Vec<Coords>, max_jump: u8)
        requires
            atlas_ok(worlds@, coords@),
            forall|k: int| 0 <= k < worlds@.len() ==> (#[trigger] worlds@[k]).refuel_readable(),
            old(self).refuel_readable(),
            old(self).locatable(),
            -0x10000000000000 < old(self).coords_spec().x < 0x10000000000000,
            -0x10000000000000 < old(self).coords_spec().y2 < 0x10000000000000,
            forall|k: int| 0 <= k < old(self).neighbors@.len() ==> (#[trigger] old(self).neighbors@[k])@.no_duplicates(),
        ensures
            *final(self) == (World { neighbors: final(self).neighbors, ..*old(self) }),
            final(self).neighbors@.len() == old(self).neighbors@.len() + max_jump + 1,
            forall|k: int| 0 <= k < final(self).neighbors@.len() ==> (#[trigger] final(self).neighbors@[k])@.no_duplicates(),
            forall|k: int|
                0 <= k < final(self).neighbors@.len() ==> (#[trigger] final(self).neighbors@[k])@.to_set() == if k <= max_jump
                    && old(self).can_refuel_spec() {
                    extended(old(self).neighbors@, k).union(old(self).neighbor_set(worlds@, coords@, k))
                } else {
                    extended(old(self).neighbors@, k)
                },
            neighbors_within(*old(self)) ==> neighbors_within(*final(self)),
            neighbors_exact(*old(self)) ==> neighbors_exact(*final(self)),
    {
        let ghost me = *old(self);
        let ghost start = old(self).neighbors@.len();
        let mut j: u16 = 0;
        while j <= max_jump as u16
            invariant
                *self == (World { neighbors: self.neighbors, ..me }),
                self.neighbors@.len() == start + j,
                j <= max_jump + 1,
                forall|k: int| 0 <= k < start ==> (#[trigger] self.neighbors@[k]) == me.neighbors@[k],
                forall|k: int| start <= k < self.neighbors@.len() ==> (#[trigger] self.neighbors@[k])@.len() == 0,
            decreases max_jump + 1 - j,
        {
            self.neighbors.push(Vec::new());
            j += 1;
        }
        proof {
            assert forall|k: int| 0 <= k < self.neighbors@.len() implies (#[trigger] self.neighbors@[k])@.to_set() == extended(me.neighbors@, k) by {
                if k >= start {
                    assert(self.neighbors@[k]@ =~= Seq::<Coords>::empty());
                    assert(self.neighbors@[k]@.to_set() =~= Set::<Coords>::empty());
                }
            }
        }
        if !self.can_refuel() {
            return;
        }
        let center = self.get_coords();
        let m: i64 = max_jump as i64;
        let ghost mi = m as int;
        let mut xx: i64 = center.x - m;
        proof {
            assert forall|d: int| 0 <= d < self.neighbors@.len() implies (#[trigger] self.neighbors@[d])@.to_set() == if 0 <= d <= mi {
                extended(me.neighbors@, d).union(me.found(worlds@, coords@, center, mi, xx as int, center.y2 - 2 * mi, d))
            } else {
                extended(me.neighbors@, d)
            } by {
                assert(me.found(worlds@, coords@, center, mi, xx as int, center.y2 - 2 * mi, d) =~= Set::<Coords>::empty());
                assert(extended(me.neighbors@, d).union(Set::<Coords>::empty()) =~= extended(me.neighbors@, d));
            }
            assert(me.lists_during(self.neighbors@, worlds@, coords@, center, mi, xx as int, center.y2 - 2 * mi));
        }
        while xx <= center.x + m
            invariant
                me == *old(self),
                *self == (World { neighbors: self.neighbors, ..me }),
                center == me.coords_spec(),
                mi == m,
                m == max_jump,
                atlas_ok(worlds@, coords@),
                forall|k: int| 0 <= k < worlds@.len() ==> (#[trigger] worlds@[k]).refuel_readable(),
                me.refuel_readable(),
                me.locatable(),
                -0x10000000000000 < center.x < 0x10000000000000,
                -0x10000000000000 < center.y2 < 0x10000000000000,
                center.x - m <= xx <= center.x + m + 1,
                self.neighbors@.len() == start + max_jump + 1,
                forall|k: int| 0 <= k < self.neighbors@.len() ==> (#[trigger] self.neighbors@[k])@.no_duplicates(),
                me.lists_during(self.neighbors@, worlds@, coords@, center, mi, xx as int, center.y2 - 2 * mi),
            decreases center.x + m + 1 - xx,
        {
            let mut yy: i64 = center.y2 - 2 * m;
            while yy <= center.y2 + 2 * m
                invariant
                    me == *old(self),
                    *self == (World { neighbors: self.neighbors, ..me }),
                    center == me.coords_spec(),
                    mi == m,
                    m == max_jump,
                    atlas_ok(worlds@, coords@),
                    forall|k: int| 0 <= k < worlds@.len() ==> (#[trigger] worlds@[k]).refuel_readable(),
                    me.refuel_readable(),
                    me.locatable(),
                    -0x10000000000000 < center.x < 0x10000000000000,
                    -0x10000000000000 < center.y2 < 0x10000000000000,
                    center.x - m <= xx <= center.x + m,
                    center.y2 - 2 * m <= yy <= center.y2 + 2 * m + 1,
                    self.neighbors@.len() == start + max_jump + 1,
                    forall|k: int| 0 <= k < self.neighbors@.len() ==> (#[trigger] self.neighbors@[k])@.no_duplicates(),
                    me.lists_during(self.neighbors@, worlds@, coords@, center, mi, xx as int, yy as int),
                decreases center.y2 + 2 * m + 1 - yy,
            {
                let c = Coords { x: xx, y2: yy };
                let ghost before = self.neighbors@;
                let ghost hit: Option<int> = None;
                if let Some(k) = index_of(coords.as_slice(), c) {
                    let world = &worlds[k];
                    if !(world.hex == self.hex && world.name == self.name) && world.can_refuel() {
                        let distance = self.straight_line_distance(world);
                        if distance <= max_jump as u16 {
                            proof {
                                hit = Some(distance as int);
                                lemma_located_on_grid(*world);
                                lemma_located_on_grid(me);
                            }
                            let wc = world.get_coords();
                            add_coords(&mut self.neighbors[distance as usize], wc);
                        }
                    }
                }
                proof {
                    assert forall|d: int| 0 <= d <= mi implies #[trigger] me.neighbor_set(worlds@, coords@, d).contains(c) == (hit == Some(d)) by {
                        if me.neighbor_set(worlds@, coords@, d).contains(c) {
                            let k2 = choose|k2: int| 0 <= k2 < coords@.len() && coords@[k2] == c && me.is_neighbor(#[trigger] worlds@[k2], d);
                            assert(coords@.contains(c));
                        }
                    }
                    assert forall|d: int| 0 <= d < self.neighbors@.len() && 0 <= d <= mi implies #[trigger] me.found(worlds@, coords@, center, mi, xx as int, yy + 1, d) =~= if hit == Some(d) {
                        me.found(worlds@, coords@, center, mi, xx as int, yy as int, d).insert(c)
                    } else {
                        me.found(worlds@, coords@, center, mi, xx as int, yy as int, d)
                    } by {}
                    assert forall|d: int| 0 <= d < self.neighbors@.len() implies (#[trigger] self.neighbors@[d])@.to_set() == if 0 <= d <= mi {
                        extended(me.neighbors@, d).union(me.found(worlds@, coords@, center, mi, xx as int, yy + 1, d))
                    } else {
                        extended(me.neighbors@, d)
                    } by {
                        assert(before[d]@.to_set() == if 0 <= d <= mi {
                            extended(me.neighbors@, d).union(me.found(worlds@, coords@, center, mi, xx as int, yy as int, d))
                        } else {
                            extended(me.neighbors@, d)
                        });
                        if hit == Some(d) {
                            assert(extended(me.neighbors@, d).union(me.found(worlds@, coords@, center, mi, xx as int, yy as int, d)).insert(c) =~= extended(me.neighbors@, d).union(me.found(worlds@, coords@, center, mi, xx as int, yy + 1, d)));
                        } else {
                            assert(self.neighbors@[d] == before[d]);
                        }
                    }
                }
                yy += 1;
            }
            proof {
                assert forall|d: int| 0 <= d < self.neighbors@.len() && 0 <= d <= mi implies #[trigger] me.found(worlds@, coords@, center, mi, xx as int, yy as int, d) =~= me.found(worlds@, coords@, center, mi, xx + 1, center.y2 - 2 * mi, d) by {}
                assert(me.lists_during(self.neighbors@, worlds@, coords@, center, mi, xx + 1, center.y2 - 2 * mi));
            }
            xx += 1;
        }
        proof {
            assert forall|d: int| 0 <= d < self.neighbors@.len() && 0 <= d <= mi implies #[trigger] me.found(worlds@, coords@, center, mi, xx as int, center.y2 - 2 * mi, d) =~= me.neighbor_set(worlds@, coords@, d) by {
                assert forall|c: Coords| me.neighbor_set(worlds@, coords@, d).contains(c) implies scanned(center, mi, xx as int, center.y2 - 2 * mi, c) by {
                    let k2 = choose|k2: int| 0 <= k2 < coords@.len() && coords@[k2] == c && me.is_neighbor(#[trigger] worlds@[k2], d);
                    lemma_located_on_grid(worlds@[k2]);
                    lemma_located_on_grid(me);
                    lemma_near_in_box(center, c, mi);
                }
            }
            if neighbors_within(me) {
                lemma_populated_within(me, *self, worlds@, coords@, max_jump as int);
            }
            if neighbors_exact(me) {
                lemma_populated_exact(me, *self, worlds@, coords@, max_jump as int);
            }
        }
    }
}

/// Every world of the map can be given its neighbors: its UWP and PBG are
/// long enough to tell whether it can refuel, and it lies within 2^52 hexes
/// of the origin both ways.
pub open spec fn neighbors_ready(worlds: Seq<World>, coords: Seq<Coords>) -> bool {
    forall|k: int|
        0 <= k < worlds.len() ==> {
            &&& (#[trigger] worlds[k]).refuel_readable()
            &&& -0x10000000000000 < coords[k].x < 0x10000000000000
            &&& -0x10000000000000 < coords[k].y2 < 0x10000000000000
        }
}

/// Whether `neighbors_ready` holds of the map.
pub fn neighbors_ready_checked(worlds: &Vec<World>, coords: &Vec<Coords>) -> (b: bool)
    requires
        worlds@.len() == coords@.len(),
    ensures
        b == neighbors_ready(worlds@, coords@),
{
    let limit: i64 = 0x10000000000000;
    let mut k: usize = 0;
    while k < worlds.len()
        invariant
            worlds@.len() == coords@.len(),
            limit == 0x10000000000000,
            k <= worlds@.len(),
            forall|j: int|
                0 <= j < k ==> {
                    &&& (#[trigger] worlds@[j]).refuel_readable()
                    &&& -0x10000000000000 < coords@[j].x < 0x10000000000000
                    &&& -0x10000000000000 < coords@[j].y2 < 0x10000000000000
                },
        decreases worlds@.len() - k,
    {
        let uwp = chars_of(worlds[k].uwp.as_str());
        let pbg = chars_of(worlds[k].pbg.as_str());
        let c = coords[k];
        if uwp.len() < 4 || pbg.len() < 3 || c.x <= -limit || c.x >= limit || c.y2 <= -limit || c.y2 >= limit {
            proof {
                assert(!({
                    &&& worlds@[k as int].refuel_readable()
                    &&& -0x10000000000000 < coords@[k as int].x < 0x10000000000000
                    &&& -0x10000000000000 < coords@[k as int].y2 < 0x10000000000000
                }));
            }
            return false;
        }
        k += 1;
    }
    true
}

} // verus!
