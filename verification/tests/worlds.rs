use traderust::coords::Coords;
use traderust::world::{same_allegiance, World};
use traderust::text::split_whitespace;
use traderust::trade_routes::is_tradeable;
use traderust::world_parse::parse_header_and_separator;

const HEADER: &str =
    "Hex  Name                 UWP       Remarks                                  {Ix}   (Ex)   [Cx]   N     B  Z PBG W  A    Stellar       ";

const SEPARATOR: &str =
    "---- -------------------- --------- ---------------------------------------- ------ ------- ------ ----- -- - --- -- ---- --------------";

fn fields() -> Vec<(usize, usize, String)> {
    parse_header_and_separator(HEADER, SEPARATOR)
}

/// A record line with each value at the start of its column.
fn record(values: &[&str]) -> String {
    let fields = fields();
    let mut line = String::new();
    for (k, value) in values.iter().enumerate() {
        let start = fields[k].0;
        while line.len() < start {
            line.push(' ');
        }
        line.push_str(value);
    }
    line
}

fn aramis_line() -> String {
    record(&[
        "3110", "Aramis", "A5A0556-B", "He Ni Cp", "{ 2 }", "(846+1)", "[474A]", "BF", "NS", "-", "710", "9", "ImDd",
        "M2 V",
    ])
}

fn regina_line() -> String {
    record(&[
        "1910",
        "Regina",
        "A788899-C",
        "Ri Pa Ph An Cp (Amindii)2 Varg0 Asla0 Sa",
        "{ 4 }",
        "(D7E+5)",
        "[9C6D]",
        "BcCeF",
        "NS",
        "-",
        "703",
        "8",
        "ImDd",
        "F7 V BD M3 V",
    ])
}

fn bronze_line() -> String {
    record(&[
        "1627", "Bronze", "E201000-0", "Ba Ic Re Va", "{ -3 }", "(200-5)", "[0000]", "-", "-", "-", "010", "5", "SwCf",
        "M3 V",
    ])
}

fn sorted(v: &[String]) -> Vec<String> {
    let mut v = v.to_vec();
    v.sort();
    v
}

fn strings(v: &[&str]) -> Vec<String> {
    let mut r: Vec<String> = v.iter().map(|s| s.to_string()).collect();
    r.sort();
    r
}

#[test]
fn test_parse_header_and_separator() {
    let fields = fields();
    assert_eq!(fields.len(), 14);
    assert_eq!(fields[0], (0, 4, "Hex".to_string()));
    assert_eq!(fields[1], (5, 25, "Name".to_string()));
    assert_eq!(fields[2], (26, 35, "UWP".to_string()));
    assert_eq!(fields[3], (36, 76, "Remarks".to_string()));
    assert_eq!(fields[4], (77, 83, "{Ix}".to_string()));
    assert_eq!(fields[5], (84, 91, "(Ex)".to_string()));
    assert_eq!(fields[6], (92, 98, "[Cx]".to_string()));
    assert_eq!(fields[7], (99, 104, "N".to_string()));
    assert_eq!(fields[8], (105, 107, "B".to_string()));
    assert_eq!(fields[9], (108, 109, "Z".to_string()));
    assert_eq!(fields[10], (110, 113, "PBG".to_string()));
    assert_eq!(fields[11], (114, 116, "W".to_string()));
    assert_eq!(fields[12], (117, 121, "A".to_string()));
    assert_eq!(fields[13], (122, 136, "Stellar".to_string()));
}

#[test]
fn test_world_aramis() {
    let aramis = World::new(aramis_line(), &fields(), (-4, -1));
    assert_eq!(aramis.name, "Aramis");
    assert_eq!(aramis.sector_location, (-4, -1));
    assert_eq!(aramis.hex, "3110");
    assert_eq!(aramis.uwp, "A5A0556-B");
    assert_eq!(sorted(&aramis.trade_classifications), strings(&["He", "Ni", "Cp"]));
    assert_eq!(aramis.importance, 2);
    assert_eq!(aramis.economic, "846+1");
    assert_eq!(aramis.cultural, "474A");
    assert_eq!(aramis.nobles, "BF");
    assert_eq!(sorted(&aramis.bases), strings(&["N", "S"]));
    assert_eq!(aramis.zone, 'G');
    assert_eq!(aramis.pbg, "710");
    assert_eq!(aramis.worlds, 9);
    assert_eq!(aramis.allegiance, "ImDd");
    assert_eq!(aramis.stars, vec!["M2 V".to_string()]);
    assert_eq!(aramis.starport(), 'A');
    assert_eq!(aramis.g_starport(), "V");
    assert_eq!(aramis.size(), '5');
    assert_eq!(aramis.atmosphere(), 'A');
    assert_eq!(aramis.hydrosphere(), '0');
    assert_eq!(aramis.population(), '5');
    assert_eq!(aramis.government(), '5');
    assert_eq!(aramis.law_level(), '6');
    assert_eq!(aramis.tech_level(), 'B');
    assert_eq!(aramis.g_tech_level(), 9);
    // UWTN 3.5, port modifier 0.5, WTN 4.0, all doubled
    assert_eq!(aramis.duwtn(), 7);
    assert_eq!(aramis.dwtn_port_modifier(), 1);
    assert_eq!(aramis.dwtn(), 8);
    assert_eq!(aramis.gas_giants(), '0');
    assert!(aramis.can_refuel());
    assert_eq!(aramis.dbtn_to_coords.len(), 27);
    assert!(aramis.index.is_none());
}

#[test]
fn test_world_regina() {
    let regina = World::new(regina_line(), &fields(), (-4, -1));
    assert_eq!(regina.name, "Regina");
    assert_eq!(regina.hex, "1910");
    assert_eq!(regina.uwp, "A788899-C");
    assert_eq!(
        sorted(&regina.trade_classifications),
        strings(&["Ri", "Pa", "Ph", "An", "Cp", "(Amindii)2", "Varg0", "Asla0", "Sa"])
    );
    assert_eq!(regina.importance, 4);
    assert_eq!(regina.economic, "D7E+5");
    assert_eq!(regina.cultural, "9C6D");
    assert_eq!(regina.nobles, "BcCeF");
    assert_eq!(sorted(&regina.bases), strings(&["N", "S"]));
    assert_eq!(regina.zone, 'G');
    assert_eq!(regina.pbg, "703");
    assert_eq!(regina.worlds, 8);
    assert_eq!(regina.allegiance, "ImDd");
    assert_eq!(regina.stars, vec!["F7 V".to_string(), "BD".to_string(), "M3 V".to_string()]);
    assert_eq!(regina.g_starport(), "V");
    assert_eq!(regina.tech_level(), 'C');
    assert_eq!(regina.g_tech_level(), 10);
    assert_eq!(regina.duwtn(), 10);
    assert_eq!(regina.dwtn_port_modifier(), 0);
    assert_eq!(regina.dwtn(), 10);
    assert_eq!(regina.gas_giants(), '3');
    assert!(regina.can_refuel());
}

#[test]
fn test_world_bronze() {
    let bronze = World::new(bronze_line(), &fields(), (-4, -1));
    assert_eq!(bronze.name, "Bronze");
    assert_eq!(bronze.uwp, "E201000-0");
    assert_eq!(sorted(&bronze.trade_classifications), strings(&["Ba", "Ic", "Re", "Va"]));
    assert_eq!(bronze.importance, -3);
    assert_eq!(bronze.economic, "200-5");
    assert_eq!(bronze.cultural, "0000");
    assert_eq!(bronze.nobles, "");
    assert!(bronze.bases.is_empty());
    assert_eq!(bronze.zone, 'G');
    assert_eq!(bronze.pbg, "010");
    assert_eq!(bronze.worlds, 5);
    assert_eq!(bronze.allegiance, "SwCf");
    assert_eq!(bronze.starport(), 'E');
    assert_eq!(bronze.g_starport(), "I");
    assert_eq!(bronze.g_tech_level(), 2);
    // UWTN -0.5, port modifier 0.5, WTN 0.0, all doubled
    assert_eq!(bronze.duwtn(), -1);
    assert_eq!(bronze.dwtn_port_modifier(), 1);
    assert_eq!(bronze.dwtn(), 0);
    assert!(bronze.can_refuel());
}

#[test]
fn test_world_red_zone_needs_gas_giant_to_refuel() {
    let line = record(&[
        "0101", "Nowhere", "X000000-0", "Ba", "", "", "", "", "", "R", "000", "1", "NaXX", "M0 V",
    ]);
    let w = World::new(line, &fields(), (0, 0));
    assert_eq!(w.zone, 'R');
    assert!(!w.can_refuel());
}

#[test]
fn test_get_coords() {
    let f = fields();
    let aramis = World::new(aramis_line(), &f, (-4, -1));
    let regina = World::new(regina_line(), &f, (-4, -1));
    let ldd = World::new(record(&["3010", "Ldd", "A000000-0"]), &f, (-4, -1));
    let saarinen = World::new(record(&["0113", "Saarinen", "A000000-0"]), &f, (-3, -1));
    // (x, y) is (x, y2 / 2)
    assert_eq!(aramis.get_coords(), Coords::from_parts(-97, -60));
    assert_eq!(ldd.get_coords(), Coords::from_parts(-98, -59));
    assert_eq!(saarinen.get_coords(), Coords::from_parts(-95, -54));
    assert_eq!(regina.get_coords(), Coords::from_parts(-109, -60));
}

#[test]
fn test_straight_line_distance() {
    let f = fields();
    let at = |hex: &str, loc: (i64, i64)| World::new(record(&[hex, "W", "A000000-0"]), &f, loc);
    let spin = (-4, -1);
    let dene = (-3, -1);
    let aramis = at("3110", spin);
    let ldd = at("3010", spin);
    let natoko = at("3209", spin);
    let reacher = at("3210", spin);
    let vinorian = at("3111", spin);
    let nutema = at("3112", spin);
    let margesi = at("3212", spin);
    let patinir = at("3207", spin);
    let saarinen = at("0113", dene);
    let regina = at("1910", spin);
    let corfu = at("2602", spin);
    let lablon = at("2701", spin);
    let junidy = at("3202", spin);
    let marz = at("0201", dene);

    assert_eq!(aramis.straight_line_distance(&aramis), 0);
    assert_eq!(aramis.straight_line_distance(&ldd), 1);
    assert_eq!(ldd.straight_line_distance(&aramis), 1);
    assert_eq!(aramis.straight_line_distance(&natoko), 1);
    assert_eq!(aramis.straight_line_distance(&reacher), 1);
    assert_eq!(natoko.straight_line_distance(&reacher), 1);
    assert_eq!(aramis.straight_line_distance(&vinorian), 1);
    assert_eq!(vinorian.straight_line_distance(&nutema), 1);
    assert_eq!(nutema.straight_line_distance(&margesi), 1);
    assert_eq!(margesi.straight_line_distance(&saarinen), 1);
    assert_eq!(ldd.straight_line_distance(&natoko), 2);
    assert_eq!(ldd.straight_line_distance(&reacher), 2);
    assert_eq!(ldd.straight_line_distance(&nutema), 2);
    assert_eq!(ldd.straight_line_distance(&margesi), 3);
    assert_eq!(aramis.straight_line_distance(&patinir), 3);
    assert_eq!(ldd.straight_line_distance(&saarinen), 4);
    assert_eq!(aramis.straight_line_distance(&corfu), 10);
    assert_eq!(aramis.straight_line_distance(&lablon), 11);
    assert_eq!(aramis.straight_line_distance(&junidy), 8);
    assert_eq!(aramis.straight_line_distance(&marz), 10);
    assert_eq!(aramis.straight_line_distance(&regina), 12);
}

#[test]
fn test_same_allegiance() {
    let s = |a: &str, b: &str| same_allegiance(&a.to_string(), &b.to_string());
    assert!(!s("CsIm", "CsIm"));
    assert!(!s("CsZh", "CsZh"));
    assert!(!s("CsIm", "CsZh"));
    assert!(!s("NaHu", "NaHu"));
    assert!(!s("NaXX", "NaXX"));
    assert!(!s("NaHu", "NaXX"));
    assert!(!s("DaCf", "ImDd"));
    assert!(!s("ImDd", "ZhIN"));
    assert!(s("DaCf", "DaCf"));
    assert!(s("ImDd", "ImDd"));
    assert!(s("SwCf", "SwCf"));
    assert!(s("ZhIN", "ZhIN"));
}

#[test]
fn test_wtcm_and_imperial() {
    let f = fields();
    let ag = World::new(record(&["0101", "Farm", "A000000-0", "Ag In", "", "", "", "", "", "", "000", "", "ImDd"]), &f, (0, 0));
    let na = World::new(record(&["0102", "Rock", "A000000-0", "Na Ni", "", "", "", "", "", "", "000", "", "ZhIN"]), &f, (0, 0));
    // agricultural and industrial bonuses, different allegiances: 0.5 + 0.5 - 0.5
    assert_eq!(ag.dwtcm(&na), 1);
    assert_eq!(na.dwtcm(&ag), 1);
    assert!(ag.imperial_affiliated());
    assert!(!na.imperial_affiliated());
    let cs = World::new(record(&["0103", "Client", "A000000-0", "", "", "", "", "", "", "", "000", "", "CsIm"]), &f, (0, 0));
    assert!(cs.imperial_affiliated());
}

#[test]
fn test_later_column_of_same_name_wins() {
    let header = "Hex  Name   Name";
    let separator = "---- ------ ------";
    let f = parse_header_and_separator(header, separator);
    let w = World::new("0101 First  Second".to_string(), &f, (0, 0));
    assert_eq!(w.name, "Second");
}

#[test]
fn test_multibyte_characters_count_as_one_position() {
    let header = "Hex  Name     UWP";
    let separator = "---- -------- ---------";
    let f = parse_header_and_separator(header, separator);
    let w = World::new("0101 Khiinrä  A000000-0".to_string(), &f, (0, 0));
    assert_eq!(w.name, "Khiinrä");
    assert_eq!(w.uwp, "A000000-0");
}

#[test]
fn test_is_locatable() {
    let mut w = World::new(regina_line(), &fields(), (-4, -1));
    assert!(w.is_locatable());
    w.hex = "ab12".to_string();
    assert!(!w.is_locatable());
    w.hex = "19".to_string();
    assert!(!w.is_locatable());
    w.hex = "1910".to_string();
    w.sector_location = (i64::MAX / 16, 0);
    assert!(!w.is_locatable());
}

#[test]
fn test_is_tradeable() {
    let mut w = World::new(regina_line(), &fields(), (-4, -1));
    assert!(is_tradeable(&w));
    w.uwp = "Y788899-C".to_string();
    assert!(!is_tradeable(&w));
    w.uwp = "A788899-Z".to_string();
    assert!(!is_tradeable(&w));
    w.uwp = "A788899".to_string();
    assert!(!is_tradeable(&w));
    w.uwp = "?788899-X".to_string();
    assert!(is_tradeable(&w));
}

#[test]
fn test_world_eq_by_hex_and_name() {
    let regina = World::new(regina_line(), &fields(), (-4, -1));
    let mut changed = regina.clone();
    changed.uwp = "X000000-0".to_string();
    changed.endpoint_trade_credits = 5;
    assert!(regina == changed);
    changed.name = "Reginae".to_string();
    assert!(regina != changed);
    let aramis = World::new(aramis_line(), &fields(), (-4, -1));
    assert!(regina != aramis);
}

#[test]
fn test_white_space_is_std_white_space() {
    // a lone character splits into no word exactly where std calls it white space
    for v in 0u32..=0x10FFFF {
        if let Some(c) = char::from_u32(v) {
            assert_eq!(split_whitespace(&[c]).is_empty(), c.is_whitespace(), "U+{:04X}", v);
        }
    }
}
