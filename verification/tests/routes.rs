use traderust::apsp::{INFINITY, NO_PRED_NODE};
use traderust::grid::Matrix;
use traderust::atlas::{assign_indices, insert_world, neighbors_ready_checked};
use traderust::coords::Coords;
use traderust::navigation::PathAlgorithm;
use traderust::tables::{credits_to_dbtn, dbtn_to_credits, ddistance_modifier_table, find_max_allowed_jump};
use traderust::trade::{build_tables, JumpTable};
use traderust::trade_routes::{
    is_tradeable, populate_trade_routes, rank_keys, select_trade_pairs, try_populate_trade_routes, TradeError,
};
use traderust::world::World;
use traderust::world_parse::parse_header_and_separator;

/// Worlds like Regina (WTN 5) at the given hexes of one sector.
fn map_of(hexes: &[&str]) -> (Vec<World>, Vec<Coords>) {
    let header = "Hex  Name     UWP       Remarks  PBG A";
    let separator = "---- -------- --------- -------- --- ----";
    let f = parse_header_and_separator(header, separator);
    let mut worlds: Vec<World> = Vec::new();
    let mut coords: Vec<Coords> = Vec::new();
    for hex in hexes {
        let line = format!("{} W{}    A788899-C Ri Cp    703 ImDd", hex, hex);
        insert_world(&mut worlds, &mut coords, World::new(line, &f, (0, 0)));
    }
    assign_indices(&mut worlds);
    let snapshot = worlds.clone();
    for w in worlds.iter_mut() {
        w.populate_neighbors(&snapshot, &coords, 3);
    }
    (worlds, coords)
}

fn tables_for(worlds: &Vec<World>, coords: &Vec<Coords>, jumps: &[u8]) -> Vec<JumpTable> {
    let tables = build_tables(worlds, coords, jumps, false, PathAlgorithm::Dijkstra);
    // one table per jump limit, in the order the limits first appear
    let mut seen: Vec<u8> = Vec::new();
    for &j in jumps {
        if !seen.contains(&j) {
            seen.push(j);
        }
    }
    assert_eq!(tables.iter().map(|t| t.jump).collect::<Vec<u8>>(), seen);
    tables
}

#[test]
fn test_distance_modifier_table() {
    // half BTN units
    assert_eq!(ddistance_modifier_table(0), 0);
    assert_eq!(ddistance_modifier_table(1), 0);
    assert_eq!(ddistance_modifier_table(2), 1);
    assert_eq!(ddistance_modifier_table(3), 2);
    assert_eq!(ddistance_modifier_table(5), 2);
    assert_eq!(ddistance_modifier_table(6), 3);
    assert_eq!(ddistance_modifier_table(9), 3);
    assert_eq!(ddistance_modifier_table(10), 4);
    assert_eq!(ddistance_modifier_table(19), 4);
    assert_eq!(ddistance_modifier_table(20), 5);
    assert_eq!(ddistance_modifier_table(29), 5);
    assert_eq!(ddistance_modifier_table(30), 6);
    assert_eq!(ddistance_modifier_table(59), 6);
    assert_eq!(ddistance_modifier_table(60), 7);
    assert_eq!(ddistance_modifier_table(99), 7);
    assert_eq!(ddistance_modifier_table(100), 8);
    assert_eq!(ddistance_modifier_table(199), 8);
    assert_eq!(ddistance_modifier_table(200), 9);
    assert_eq!(ddistance_modifier_table(299), 9);
    assert_eq!(ddistance_modifier_table(300), 10);
    assert_eq!(ddistance_modifier_table(599), 10);
    assert_eq!(ddistance_modifier_table(600), 11);
    assert_eq!(ddistance_modifier_table(999), 11);
    assert_eq!(ddistance_modifier_table(1000), 12);
    assert_eq!(ddistance_modifier_table(9999), 12);
    assert_eq!(ddistance_modifier_table(INFINITY), 19998);
}

#[test]
fn test_credits_roundtrip() {
    let table = dbtn_to_credits();
    assert_eq!(table.len(), 27);
    for d in 0..table.len() {
        assert_eq!(credits_to_dbtn(table[d]), d);
    }
    assert_eq!(credits_to_dbtn(8), 2);
    assert_eq!(credits_to_dbtn(u64::MAX), 27);
}

#[test]
fn test_find_max_allowed_jump() {
    let table = dbtn_to_credits();
    let credits = |btn: f64| table[(btn * 2.0) as usize];
    // max_jumps[1..6]: minor, feeder, intermediate, main, major; minimum route BTN 8
    let max_jumps: Vec<u8> = vec![2, 2, 3, 3, 3, 3];
    for (btn, jump) in [(0.0, 2), (7.5, 2), (8.0, 2), (8.5, 2), (9.0, 3), (9.5, 3), (10.0, 3), (10.5, 3)] {
        assert_eq!(find_max_allowed_jump(credits(btn), &max_jumps, 16), jump);
    }
    let max_jumps: Vec<u8> = vec![2, 1, 2, 3, 4, 5];
    for (btn, jump) in [
        (0.0, 1),
        (7.5, 1),
        (8.0, 1),
        (8.5, 1),
        (9.0, 2),
        (9.5, 2),
        (10.0, 3),
        (10.5, 3),
        (11.0, 4),
        (11.5, 4),
        (12.0, 5),
        (12.5, 5),
    ] {
        assert_eq!(find_max_allowed_jump(credits(btn), &max_jumps, 16), jump);
    }
}

#[test]
fn test_neighbors() {
    let (worlds, coords) = map_of(&["0101", "0201", "0301", "0501"]);
    assert_eq!(worlds[0].neighbors.len(), 4);
    assert!(worlds[0].neighbors[0].is_empty());
    assert_eq!(worlds[0].neighbors[1], vec![coords[1]]);
    assert_eq!(worlds[0].neighbors[2], vec![coords[2]]);
    assert!(worlds[0].neighbors[3].is_empty());
    assert_eq!(worlds[3].neighbors[2], vec![coords[2]]);
    assert_eq!(worlds[3].neighbors[3], vec![coords[1]]);
}

#[test]
fn test_navigable_distance_and_path() {
    let (worlds, coords) = map_of(&["0101", "0201", "0301", "0401", "0901"]);
    let tables = tables_for(&worlds, &coords, &[1, 2]);
    let (one, two) = (&tables[0], &tables[1]);
    assert_eq!(worlds[0].navigable_distance(&worlds[3], &one.dist), 3);
    assert_eq!(worlds[0].navigable_distance(&worlds[3], &two.dist), 3);
    assert_eq!(worlds[0].navigable_distance(&worlds[4], &two.dist), INFINITY);
    assert_eq!(worlds[3].navigable_distance(&worlds[0], &one.dist), 3);
    let path = worlds[0].navigable_path(&worlds[3], &coords, &one.dist, &one.pred).unwrap();
    assert_eq!(path, vec![coords[0], coords[1], coords[2], coords[3]]);
    let path = worlds[0].navigable_path(&worlds[3], &coords, &two.dist, &two.pred).unwrap();
    assert_eq!(path.len(), 3);
    assert_eq!(path[0], coords[0]);
    assert_eq!(path[2], coords[3]);
    assert_eq!(worlds[0].navigable_path(&worlds[0], &coords, &one.dist, &one.pred), Some(vec![coords[0]]));
    assert_eq!(worlds[0].navigable_path(&worlds[4], &coords, &two.dist, &two.pred), None);
}

#[test]
fn test_btn_is_symmetric() {
    let (worlds, coords) = map_of(&["0101", "0201", "0501"]);
    let tables = tables_for(&worlds, &coords, &[3]);
    let d = &tables[0].dist;
    for i in 0..3 {
        for j in 0..3 {
            assert_eq!(worlds[i].dbtn(&worlds[j], d, false), worlds[j].dbtn(&worlds[i], d, false));
        }
    }
    // WTN 5 and 5, one jump: 10 + 10 - 0, capped at 5 + 5
    assert_eq!(worlds[0].dbtn(&worlds[1], d, false), 20);
    // three jumps: distance modifier 1
    assert_eq!(worlds[1].dbtn(&worlds[2], d, false), 18);
    // passenger bonuses (Ri and Cp on both) do not pass the cap
    assert_eq!(worlds[1].dbtn(&worlds[2], d, true), 20);
}

#[test]
fn test_populate_trade_routes_two_worlds() {
    let (mut worlds, coords) = map_of(&["1910", "2010"]);
    let max_jumps: Vec<u8> = vec![2, 2, 3, 3, 3, 3];
    let tables = tables_for(&worlds, &coords, &[2, 3]);
    // minimum BTN 6.5 and minimum route BTN 8, doubled
    populate_trade_routes(&mut worlds, &coords, 13, 16, false, &max_jumps, &tables);
    for (k, other) in [(0, 1), (1, 0)] {
        let w = &worlds[k];
        assert_eq!(w.endpoint_trade_credits, 300_000_000_000);
        assert_eq!(w.dbtn_to_coords[20], vec![coords[other]]);
        // both directions carry 3e11: 6e11 is an intermediate route
        assert_eq!(w.intermediate_routes, vec![coords[other]]);
        assert!(w.major_routes.is_empty());
        assert!(w.main_routes.is_empty());
        assert!(w.feeder_routes.is_empty());
        assert!(w.minor_routes.is_empty());
        assert_eq!(w.transient_trade_credits, 0);
    }
}

#[test]
fn test_populate_trade_routes_transit() {
    let (mut worlds, coords) = map_of(&["0101", "0201", "0301", "0401"]);
    let max_jumps: Vec<u8> = vec![1, 1, 1, 1, 1, 1];
    let tables = tables_for(&worlds, &coords, &[1]);
    populate_trade_routes(&mut worlds, &coords, 13, 16, false, &max_jumps, &tables);
    // BTN 10 at one jump, 9.5 at two, 9 at three
    assert_eq!(worlds[0].endpoint_trade_credits, 300_000_000_000 + 75_000_000_000 + 3_000_000_000);
    // every stop between the ends of a route gets its credits, once from
    // each end: 0-2 (BTN 9.5) passes 1, 1-3 (BTN 9.5) passes 2, and 0-3
    // (BTN 9) passes both
    assert_eq!(worlds[1].transient_trade_credits, 2 * 75_000_000_000 + 2 * 3_000_000_000);
    assert_eq!(worlds[2].transient_trade_credits, 2 * 75_000_000_000 + 2 * 3_000_000_000);
    assert_eq!(worlds[0].transient_trade_credits, 0);
    assert_eq!(worlds[3].transient_trade_credits, 0);
    assert!(!worlds[0].major_routes.is_empty() || !worlds[0].main_routes.is_empty());
}

#[test]
fn test_port_size() {
    let (mut worlds, coords) = map_of(&["1910", "2010"]);
    // WTN 5, Imperial, a neighbor one jump away: ceil(5 + 1.5) = 7
    assert_eq!(worlds[0].port_size(), 7);
    let max_jumps: Vec<u8> = vec![2, 2, 3, 3, 3, 3];
    let tables = tables_for(&worlds, &coords, &[2, 3]);
    populate_trade_routes(&mut worlds, &coords, 13, 16, false, &max_jumps, &tables);
    assert_eq!(worlds[0].port_size(), 7);
}

#[test]
fn test_distance_modifier_never_falls() {
    let mut last = 0;
    for distance in 0..=INFINITY {
        let d = ddistance_modifier_table(distance);
        assert!(d >= last);
        last = d;
    }
}

#[test]
fn test_credits_to_dbtn_never_falls() {
    let table = dbtn_to_credits();
    let mut last = 0;
    for &credits in table.iter() {
        for c in [credits.saturating_sub(1), credits, credits + 1] {
            let d = credits_to_dbtn(c);
            assert!(d >= last);
            last = d;
        }
    }
}

#[test]
fn test_selection_keeps_every_trading_pair() {
    let (worlds, coords) = map_of(&["0101", "0201", "0301", "0501", "0808", "1010", "1011", "2020"]);
    let tables = tables_for(&worlds, &coords, &[3]);
    let dist = &tables[0].dist;
    let keys: Vec<u64> = worlds.iter().map(|w| w.dwtn().max(0) as u64).collect();
    let order = rank_keys(&keys);
    for min_dbtn in [1i64, 8, 13, 16, 19, 20] {
        let pairs = select_trade_pairs(&worlds, &coords, &order, min_dbtn);
        let mut trading = 0;
        for i in 0..worlds.len() {
            for j in 0..worlds.len() {
                if i != j && worlds[i].dbtn(&worlds[j], dist, false) as i64 >= min_dbtn {
                    trading += 1;
                    assert!(pairs.contains(&(i, j)) || pairs.contains(&(j, i)));
                }
            }
        }
        assert!(pairs.len() * 2 >= trading);
    }
}

#[test]
fn test_routes_listed_by_both_worlds() {
    let (mut worlds, coords) = map_of(&["0101", "0201", "0301", "0401", "0601", "0603"]);
    let max_jumps: Vec<u8> = vec![2, 2, 3, 3, 3, 3];
    let tables = tables_for(&worlds, &coords, &[2, 3]);
    populate_trade_routes(&mut worlds, &coords, 13, 16, false, &max_jumps, &tables);
    let mut listed = 0;
    for i in 0..worlds.len() {
        for j in 0..worlds.len() {
            let lists_i = [
                &worlds[i].major_routes,
                &worlds[i].main_routes,
                &worlds[i].intermediate_routes,
                &worlds[i].feeder_routes,
                &worlds[i].minor_routes,
            ];
            let lists_j = [
                &worlds[j].major_routes,
                &worlds[j].main_routes,
                &worlds[j].intermediate_routes,
                &worlds[j].feeder_routes,
                &worlds[j].minor_routes,
            ];
            for class in 0..5 {
                let a = lists_i[class].contains(&coords[j]);
                assert_eq!(a, lists_j[class].contains(&coords[i]));
                if a {
                    listed += 1;
                }
            }
        }
    }
    assert!(listed > 0);
}

#[test]
fn test_longer_jumps_never_longer() {
    let (worlds, coords) = map_of(&["0101", "0301", "0601", "0701", "0704", "1010", "1306"]);
    let tables = tables_for(&worlds, &coords, &[1, 2, 3]);
    let mut shorter_somewhere = false;
    for i in 0..worlds.len() {
        assert_eq!(worlds[i].navigable_distance(&worlds[i], &tables[0].dist), 0);
        for j in 0..worlds.len() {
            let line = worlds[i].straight_line_distance(&worlds[j]);
            for t in 0..3 {
                assert!(worlds[i].navigable_distance(&worlds[j], &tables[t].dist) >= line);
            }
            for t in 1..3 {
                let before = worlds[i].navigable_distance(&worlds[j], &tables[t - 1].dist);
                let after = worlds[i].navigable_distance(&worlds[j], &tables[t].dist);
                assert!(after <= before);
                if after < before {
                    shorter_somewhere = true;
                }
            }
        }
    }
    assert!(shorter_somewhere);
}

#[test]
fn test_partner_lists_and_route_classes() {
    let (mut worlds, coords) = map_of(&["0101", "0201", "0301", "0401", "0601", "0603", "0909"]);
    let max_jumps: Vec<u8> = vec![2, 2, 3, 3, 3, 3];
    let tables = tables_for(&worlds, &coords, &[2, 3]);
    populate_trade_routes(&mut worlds, &coords, 13, 16, false, &max_jumps, &tables);
    let credits = dbtn_to_credits();
    for i in 0..worlds.len() {
        let mut from_buckets: u64 = 0;
        for d in 0..worlds[i].dbtn_to_coords.len() {
            from_buckets += credits[d] * worlds[i].dbtn_to_coords[d].len() as u64;
            for j in 0..worlds.len() {
                assert_eq!(
                    worlds[i].dbtn_to_coords[d].contains(&coords[j]),
                    worlds[j].dbtn_to_coords[d].contains(&coords[i])
                );
            }
        }
        assert_eq!(worlds[i].endpoint_trade_credits, from_buckets);
        let lists = [
            &worlds[i].major_routes,
            &worlds[i].main_routes,
            &worlds[i].intermediate_routes,
            &worlds[i].feeder_routes,
            &worlds[i].minor_routes,
        ];
        for a in 0..5 {
            assert!(!lists[a].contains(&coords[i]));
            for b in a + 1..5 {
                for c in lists[a].iter() {
                    assert!(!lists[b].contains(c));
                }
            }
        }
    }
}

#[test]
fn test_populate_trade_routes_without_pbg_column() {
    let f = parse_header_and_separator("Hex  UWP       A", "---- --------- ----");
    assert_eq!(f, vec![(0, 4, "Hex".to_string()), (5, 14, "UWP".to_string()), (15, 19, "A".to_string())]);
    let mut worlds: Vec<World> = Vec::new();
    let mut coords: Vec<Coords> = Vec::new();
    insert_world(&mut worlds, &mut coords, World::new("0101 A788899-C ImDd".to_string(), &f, (0, 0)));
    insert_world(&mut worlds, &mut coords, World::new("0103 A5A0556-B ImDd".to_string(), &f, (0, 0)));
    assign_indices(&mut worlds);
    assert!(worlds[0].pbg.is_empty());
    assert!(is_tradeable(&worlds[0]) && is_tradeable(&worlds[1]));
    // doubled UWTN 10 and 7, doubled WTN 10 and 8
    assert_eq!(worlds[0].duwtn(), 10);
    assert_eq!(worlds[1].duwtn(), 7);
    assert_eq!(worlds[0].dwtn(), 10);
    assert_eq!(worlds[1].dwtn(), 8);
    let np = NO_PRED_NODE;
    let table = |jump: u8| JumpTable {
        jump,
        dist: Matrix::from_rows(&vec![vec![0, 2], vec![2, 0]], 2),
        pred: Matrix::from_rows(&vec![vec![np, 0], vec![1, np]], 2),
    };
    let tables = vec![table(2), table(3)];
    let max_jumps: Vec<u8> = vec![2, 2, 3, 3, 3, 3];
    populate_trade_routes(&mut worlds, &coords, 13, 16, false, &max_jumps, &tables);
    // BTN 8.5 for the pair; the route carries 2 * 7.5e8, BTN 9: a feeder route
    for (me, other) in [(0, 1), (1, 0)] {
        let w = &worlds[me];
        assert_eq!(w.endpoint_trade_credits, 750_000_000);
        assert_eq!(w.dbtn_to_coords[17], vec![coords[other]]);
        assert_eq!(w.feeder_routes, vec![coords[other]]);
        assert!(w.major_routes.is_empty() && w.main_routes.is_empty());
        assert!(w.intermediate_routes.is_empty() && w.minor_routes.is_empty());
        assert_eq!(w.transient_trade_credits, 0);
    }
}

#[test]
fn test_try_populate_trade_routes_ok() {
    let (mut worlds, coords) = map_of(&["1910", "2010"]);
    let max_jumps: Vec<u8> = vec![2, 2, 3, 3, 3, 3];
    let tables = tables_for(&worlds, &coords, &[2, 3]);
    assert_eq!(try_populate_trade_routes(&mut worlds, &coords, 13, 16, false, &max_jumps, &tables), Ok(()));
    for (k, other) in [(0, 1), (1, 0)] {
        assert_eq!(worlds[k].endpoint_trade_credits, 300_000_000_000);
        assert_eq!(worlds[k].dbtn_to_coords[20], vec![coords[other]]);
        assert_eq!(worlds[k].intermediate_routes, vec![coords[other]]);
    }
}

#[test]
fn test_try_populate_trade_routes_btn_out_of_range() {
    let (mut worlds, coords) = map_of(&["1910", "2010"]);
    // the pair's doubled BTN is 20: a world with fewer partner lists cannot file it
    worlds[0].dbtn_to_coords.truncate(20);
    let max_jumps: Vec<u8> = vec![2, 2, 3, 3, 3, 3];
    let tables = tables_for(&worlds, &coords, &[2, 3]);
    let r = try_populate_trade_routes(&mut worlds, &coords, 13, 16, false, &max_jumps, &tables);
    assert_eq!(r, Err(TradeError::BtnOutOfRange));
    assert_eq!(worlds[0].endpoint_trade_credits, 0);
    assert_eq!(worlds[1].endpoint_trade_credits, 0);
    assert!(worlds[1].dbtn_to_coords[20].is_empty());
}

#[test]
fn test_try_populate_trade_routes_endpoint_overflow() {
    let (mut worlds, coords) = map_of(&["1910", "2010"]);
    worlds[1].endpoint_trade_credits = u64::MAX - 1;
    let max_jumps: Vec<u8> = vec![2, 2, 3, 3, 3, 3];
    let tables = tables_for(&worlds, &coords, &[2, 3]);
    let r = try_populate_trade_routes(&mut worlds, &coords, 13, 16, false, &max_jumps, &tables);
    assert_eq!(r, Err(TradeError::CreditOverflow));
    // nothing was recorded
    assert_eq!(worlds[0].endpoint_trade_credits, 0);
    assert_eq!(worlds[1].endpoint_trade_credits, u64::MAX - 1);
    assert!(worlds[0].dbtn_to_coords[20].is_empty());
}

#[test]
fn test_try_populate_trade_routes_transit_overflow() {
    let (mut worlds, coords) = map_of(&["0101", "0201", "0301", "0401"]);
    worlds[1].transient_trade_credits = u64::MAX - 1;
    let max_jumps: Vec<u8> = vec![1, 1, 1, 1, 1, 1];
    let tables = tables_for(&worlds, &coords, &[1]);
    let r = try_populate_trade_routes(&mut worlds, &coords, 13, 16, false, &max_jumps, &tables);
    assert_eq!(r, Err(TradeError::CreditOverflow));
    // the trade of the pairs was recorded, the routes were not
    assert_eq!(worlds[0].endpoint_trade_credits, 300_000_000_000 + 75_000_000_000 + 3_000_000_000);
    assert_eq!(worlds[1].transient_trade_credits, u64::MAX - 1);
    assert!(worlds[0].major_routes.is_empty() && worlds[0].main_routes.is_empty());
}

#[test]
fn test_neighbors_ready_checked() {
    let (mut worlds, mut coords) = map_of(&["0101", "0201"]);
    assert!(neighbors_ready_checked(&worlds, &coords));
    // four UWP characters and three PBG characters are enough
    worlds[0].uwp = "A788".to_string();
    assert!(neighbors_ready_checked(&worlds, &coords));
    worlds[0].uwp = "A78".to_string();
    assert!(!neighbors_ready_checked(&worlds, &coords));
    worlds[0].uwp = "A788899-C".to_string();
    worlds[1].pbg = "70".to_string();
    assert!(!neighbors_ready_checked(&worlds, &coords));
    worlds[1].pbg = "703".to_string();
    coords[1].x = 1 << 52;
    assert!(!neighbors_ready_checked(&worlds, &coords));
}
