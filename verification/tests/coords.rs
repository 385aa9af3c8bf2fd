use std::cmp::Ordering;

use traderust::coords::Coords;

#[test]
fn test_coords_ord() {
    let mut sorted_coords = Vec::new();
    for x in -101..=101i64 {
        for y2 in -202..=202i64 {
            sorted_coords.push(Coords::from_parts(x, y2));
        }
    }
    sorted_coords.reverse();
    sorted_coords.sort();
    for pair in sorted_coords.windows(2) {
        let (c1, c2) = (pair[0], pair[1]);
        assert!(c2.x > c1.x || (c2.x == c1.x && c2.y2 > c1.y2));
    }
}

#[test]
fn test_coords_ord2() {
    // column 0 row 0, and column 1 row 1
    let coords1 = Coords::from_parts(0, 0);
    let coords2 = Coords::from_parts(1, 2);
    assert_eq!(coords1.cmp(&coords1), Ordering::Equal);
    assert_eq!(coords1.cmp(&coords2), Ordering::Less);
    assert_eq!(coords2.cmp(&coords1), Ordering::Greater);
}

#[test]
fn test_coords_partial_ord() {
    let coords1 = Coords::from_parts(0, 0);
    let coords2 = Coords::from_parts(1, 2);
    assert_eq!(coords1.partial_cmp(&coords1), Some(Ordering::Equal));
    assert_eq!(coords1.partial_cmp(&coords2), Some(Ordering::Less));
    assert_eq!(coords2.partial_cmp(&coords1), Some(Ordering::Greater));
}

#[test]
fn test_coords_straight_line_distance() {
    let a = Coords::from_parts(0, 0);
    assert_eq!(a.straight_line_distance(&Coords::from_parts(0, 0)), 0);
    // one column over, half a row down: adjacent
    assert_eq!(a.straight_line_distance(&Coords::from_parts(1, 1)), 1);
    // straight down three rows
    assert_eq!(a.straight_line_distance(&Coords::from_parts(0, 6)), 3);
    // four columns over, same row
    assert_eq!(a.straight_line_distance(&Coords::from_parts(4, 0)), 4);
    assert_eq!(Coords::from_parts(4, 0).straight_line_distance(&a), 4);
}
