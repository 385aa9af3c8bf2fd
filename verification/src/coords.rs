use vstd::prelude::*;

verus! {

/// Absolute hex coordinates: `x` is the column, `y2` twice the row, since
/// odd columns sit half a hex lower.
#[derive(Clone, Copy, Debug, PartialEq, Eq, Hash, PartialOrd, Ord, Structural)]
pub struct Coords {
    pub x: i64,
    pub y2: i64,
}

pub open spec fn abs_diff(a: i64, b: i64) -> int {
    if a >= b { a - b } else { b - a }
}

/// The number of hexes between two positions: the column distance, plus the
/// part of the row distance that moving diagonally across the columns does
/// not cover.
pub open spec fn hex_distance(a: Coords, b: Coords) -> int {
    let dx = abs_diff(a.x, b.x);
    let dy2 = abs_diff(a.y2, b.y2);
    let beyond = if dy2 > dx { dy2 - dx } else { 0 };
    (2 * dx + beyond) / 2
}

impl Coords {
    pub fn from_parts(x: i64, y2: i64) -> (c: Coords)
        ensures
            c.x == x,
            c.y2 == y2,
    {
        Coords { x, y2 }
    }

    /// The hex distance to `other`, saturated to `u16`.
    pub fn straight_line_distance(&self, other: &Coords) -> (d: u16)
        ensures
            d == if hex_distance(*self, *other) > 65535 { 65535 } else { hex_distance(*self, *other) },
    {
        let dx: i128 = if self.x >= other.x {
            self.x as i128 - other.x as i128
        } else {
            other.x as i128 - self.x as i128
        };
        let dy2: i128 = if self.y2 >= other.y2 {
            self.y2 as i128 - other.y2 as i128
        } else {
            other.y2 as i128 - self.y2 as i128
        };
        let beyond: i128 = if dy2 > dx { dy2 - dx } else { 0 };
        let d: i128 = (2 * dx + beyond) / 2;
        if d > 65535 {
            65535
        } else {
            d as u16
        }
    }
}

/// The hex distance is symmetric and zero from a hex to itself.
pub proof fn lemma_hex_distance_symmetric(a: Coords, b: Coords)
    ensures
        hex_distance(a, b) == hex_distance(b, a),
        hex_distance(a, a) == 0,
        hex_distance(a, b) >= 0,
{
}

/// Positions of hex centers: `y2` is odd exactly in the even columns.
pub open spec fn on_grid(a: Coords) -> bool {
    (a.x + a.y2) % 2 == 1
}

pub proof fn lemma_hex_distance_exact(a: Coords, b: Coords)
    requires
        on_grid(a),
        on_grid(b),
    ensures
        2 * hex_distance(a, b) == abs_diff(a.x, b.x) + if abs_diff(a.y2, b.y2) > abs_diff(a.x, b.x) {
            abs_diff(a.y2, b.y2)
        } else {
            abs_diff(a.x, b.x)
        },
{
    let dx = abs_diff(a.x, b.x);
    let dy2 = abs_diff(a.y2, b.y2);
    assert((dx + dy2) % 2 == 0);
}

/// Between hex centers, the hex distance obeys the triangle inequality.
pub proof fn lemma_hex_distance_triangle(a: Coords, b: Coords, c: Coords)
    requires
        on_grid(a),
        on_grid(b),
        on_grid(c),
    ensures
        hex_distance(a, c) <= hex_distance(a, b) + hex_distance(b, c),
{
    lemma_hex_distance_exact(a, b);
    lemma_hex_distance_exact(b, c);
    lemma_hex_distance_exact(a, c);
}

}
