use traderust::atlas::{assign_indices, index_of, insert_world};
use traderust::coords::Coords;
use traderust::sector::{add_sector, column_data_checked, Sector, SectorError};
use traderust::sources::{parse_file_of_sectors, sector_data_urls};
use traderust::text::text_lines;
use traderust::world::World;
use traderust::xml::{XmlNode, XmlTree};

fn node(tag: &str, attributes: &[(&str, &str)], text: &str, children: Vec<usize>) -> XmlNode {
    XmlNode {
        tag: tag.to_string(),
        attributes: attributes.iter().map(|(k, v)| (k.to_string(), v.to_string())).collect(),
        text: text.to_string(),
        children,
    }
}

fn metadata_tree(x: &str) -> XmlTree {
    XmlTree {
        nodes: vec![
            node("Sector", &[("Abbreviation", "Spin")], "", vec![1, 2, 3, 4, 5, 6, 9, 11]),
            node("X", &[], x, vec![]),
            node("Y", &[], "-1", vec![]),
            node("Name", &[], "Spinward Marches", vec![]),
            node("Name", &[], "Tloql", vec![]),
            node("Name", &[], "", vec![]),
            node("Subsectors", &[], "", vec![7, 8]),
            node("Subsector", &[("Index", "A")], "Cronor", vec![]),
            node("Subsector", &[("Index", "P")], "Trin's Veil", vec![]),
            node("Allegiances", &[], "", vec![10]),
            node("Allegiance", &[("Code", "CsIm")], "Client state, Third Imperium", vec![]),
            node("Routes", &[], "", vec![12, 13]),
            node("Route", &[("Start", "1910"), ("End", "2010")], "", vec![]),
            node("Route", &[("Start", "1910"), ("End", "0101"), ("EndOffsetX", "1")], "", vec![]),
        ],
    }
}

const DATA: &str = "# Spinward Marches\n\
\n\
Hex  Name                 UWP       \n\
---- -------------------- --------- \n\
1910 Regina               A788899-C\n\
2010 Roup                 C9C4733-9\r\n\
1910 Regina Again         A788899-C\n";

#[test]
fn test_parse_xml_metadata() {
    let mut sector = Sector::new("Spinward Marches".to_string());
    assert_eq!(sector.location, (-1, -1));
    let r = sector.parse_xml_metadata(&metadata_tree("-4"));
    assert_eq!(r, Ok(()));
    assert_eq!(sector.name, "Spinward Marches");
    assert_eq!(sector.names, vec!["Spinward Marches".to_string(), "Tloql".to_string()]);
    assert_eq!(sector.abbreviation, "Spin");
    assert_eq!(sector.location, (-4, -1));
    assert_eq!(sector.subsector_letter_to_name.len(), 2);
    assert!(sector.subsector_letter_to_name.contains(&('A', "Cronor".to_string())));
    assert!(sector.subsector_letter_to_name.contains(&('P', "Trin's Veil".to_string())));
    assert_eq!(
        sector.allegiance_code_to_name,
        vec![("CsIm".to_string(), "Client state, Third Imperium".to_string())]
    );
}

#[test]
fn test_parse_xml_metadata_bad_location() {
    let mut sector = Sector::new("Spinward Marches".to_string());
    let r = sector.parse_xml_metadata(&metadata_tree("minus four"));
    assert_eq!(r, Err(SectorError::BadNumber));
    assert_eq!(sector.abbreviation, "Spin");
    assert_eq!(sector.location, (-1, -1));
    assert!(sector.names.is_empty());
}

#[test]
fn test_parse_column_data_and_hex_to_world() {
    let mut sector = Sector::new("Spinward Marches".to_string());
    sector.parse_xml_metadata(&metadata_tree("-4")).unwrap();
    let mut worlds: Vec<World> = Vec::new();
    let mut coords: Vec<Coords> = Vec::new();
    sector.parse_column_data(DATA, &mut worlds, &mut coords);
    assert_eq!(worlds.len(), 2);
    assert_eq!(coords.len(), 2);
    assert!(coords[0].x < coords[1].x);
    assert_eq!(sector.hex_to_coords.len(), 2);
    let regina = sector.hex_to_world("1910", &worlds, &coords).unwrap();
    // the later record at the same hex replaces the earlier one
    assert_eq!(regina.name, "Regina Again");
    let roup = sector.hex_to_world("2010", &worlds, &coords).unwrap();
    assert_eq!(roup.name, "Roup");
    assert_eq!(roup.uwp, "C9C4733-9");
    assert!(sector.hex_to_world("0101", &worlds, &coords).is_none());
}

#[test]
fn test_parse_xml_routes() {
    let mut sector = Sector::new("Spinward Marches".to_string());
    let tree = metadata_tree("-4");
    sector.parse_xml_metadata(&tree).unwrap();
    let mut worlds: Vec<World> = Vec::new();
    let mut coords: Vec<Coords> = Vec::new();
    sector.parse_column_data(DATA, &mut worlds, &mut coords);
    assign_indices(&mut worlds);
    let sectors = vec![sector];
    let r = sectors[0].parse_xml_routes(&tree, &sectors, &mut worlds, &coords);
    assert_eq!(r, Ok(()));
    let regina = index_of(&coords, worlds[0].get_coords()).unwrap();
    let roup = index_of(&coords, worlds[1].get_coords()).unwrap();
    assert_eq!(worlds[regina].xboat_routes, vec![coords[roup]]);
    assert_eq!(worlds[roup].xboat_routes, vec![coords[regina]]);
}

#[test]
fn test_parse_xml_routes_bad_offset() {
    let mut tree = metadata_tree("-4");
    tree.nodes[13] = node("Route", &[("Start", "1910"), ("End", "0101"), ("EndOffsetX", "east")], "", vec![]);
    let mut sector = Sector::new("Spinward Marches".to_string());
    sector.parse_xml_metadata(&tree).unwrap();
    let mut worlds: Vec<World> = Vec::new();
    let mut coords: Vec<Coords> = Vec::new();
    sector.parse_column_data(DATA, &mut worlds, &mut coords);
    let sectors = vec![sector];
    let r = sectors[0].parse_xml_routes(&tree, &sectors, &mut worlds, &coords);
    assert_eq!(r, Err(SectorError::BadNumber));
    // the route before the bad one was filed
    assert_eq!(worlds[0].xboat_routes.len(), 1);
    assert_eq!(worlds[1].xboat_routes.len(), 1);
}

#[test]
fn test_insert_world_replaces_same_coords() {
    let header = "Hex  Name";
    let separator = "---- ------";
    let f = traderust::world_parse::parse_header_and_separator(header, separator);
    let mut worlds: Vec<World> = Vec::new();
    let mut coords: Vec<Coords> = Vec::new();
    insert_world(&mut worlds, &mut coords, World::new("0102 B".to_string(), &f, (0, 0)));
    insert_world(&mut worlds, &mut coords, World::new("0101 A".to_string(), &f, (0, 0)));
    insert_world(&mut worlds, &mut coords, World::new("0102 C".to_string(), &f, (0, 0)));
    assert_eq!(worlds.len(), 2);
    assert_eq!(worlds[0].name, "A");
    assert_eq!(worlds[1].name, "C");
    assert_eq!(index_of(&coords, Coords::from_parts(1, 4)), Some(1));
    assert_eq!(index_of(&coords, Coords::from_parts(1, 6)), None);
}

#[test]
fn test_text_lines() {
    let lines = text_lines("a\r\nb\n\nc\r");
    assert_eq!(lines, vec!["a".to_string(), "b".to_string(), "".to_string(), "c\r".to_string()]);
    let lines = text_lines("one\n");
    assert_eq!(lines, vec!["one".to_string()]);
    assert!(text_lines("").is_empty());
}

#[test]
fn test_parse_file_of_sectors() {
    let mut names = parse_file_of_sectors("Deneb\n  Core \nDeneb\n");
    names.sort();
    assert_eq!(names, vec!["Core".to_string(), "Deneb".to_string()]);
}

#[test]
fn test_sector_data_urls() {
    let (data, metadata) = sector_data_urls(&"Spinward Marches".to_string());
    assert_eq!(data, Some("https://travellermap.com/data/Spinward%20Marches".to_string()));
    assert_eq!(metadata, Some("https://travellermap.com/data/Spinward%20Marches/metadata".to_string()));
}

fn metadata_xml(x: &str, index: &str, end_offset_x: &str) -> String {
    format!(
        "<?xml version=\"1.0\"?>\n\
<Sector Abbreviation=\"Spin\" xmlns:xsi=\"http://www.w3.org/2001/XMLSchema-instance\">\n\
  <X>{}</X>\n  <Y>-1</Y>\n\
  <Name>Spinward Marches</Name>\n  <Name>Tloql</Name>\n  <Name></Name>\n\
  <Subsectors>\n    <Subsector Index=\"{}\">Cronor</Subsector>\n    <Subsector Index=\"P\">Trin's Veil</Subsector>\n  </Subsectors>\n\
  <Allegiances>\n    <Allegiance Code=\"CsIm\">Client state, Third Imperium</Allegiance>\n  </Allegiances>\n\
  <Routes>\n    <Route Start=\"1910\" End=\"2010\" />\n    <Route Start=\"1910\" End=\"0101\" EndOffsetX=\"{}\" />\n  </Routes>\n\
</Sector>\n",
        x, index, end_offset_x
    )
}

#[test]
fn test_read_xml_metadata() {
    let mut sector = Sector::new("Spinward Marches".to_string());
    let r = sector.read_xml_metadata(metadata_xml("-4", "A", "1").as_bytes());
    assert_eq!(r, Ok(()));
    assert_eq!(sector.names, vec!["Spinward Marches".to_string(), "Tloql".to_string()]);
    assert_eq!(sector.abbreviation, "Spin");
    assert_eq!(sector.location, (-4, -1));
    assert_eq!(sector.subsector_letter_to_name.len(), 2);
    assert!(sector.subsector_letter_to_name.contains(&('A', "Cronor".to_string())));
    assert_eq!(
        sector.allegiance_code_to_name,
        vec![("CsIm".to_string(), "Client state, Third Imperium".to_string())]
    );
}

#[test]
fn test_read_xml_metadata_refusals() {
    let mut sector = Sector::new("Spinward Marches".to_string());
    assert_eq!(sector.read_xml_metadata(b"<Sector><X>1</X>"), Err(SectorError::BadXml));
    assert_eq!(sector.read_xml_metadata(b"not xml at all"), Err(SectorError::BadXml));
    assert_eq!(
        sector.read_xml_metadata(metadata_xml("-4", "", "1").as_bytes()),
        Err(SectorError::UnletteredIndex)
    );
    assert_eq!(sector.location, (-1, -1));
    assert_eq!(
        sector.read_xml_metadata(metadata_xml("west", "A", "1").as_bytes()),
        Err(SectorError::BadNumber)
    );
    assert_eq!(sector.abbreviation, "Spin");
    assert_eq!(sector.location, (-1, -1));
}

#[test]
fn test_read_xml_routes() {
    let xml = metadata_xml("-4", "A", "1");
    let mut sector = Sector::new("Spinward Marches".to_string());
    sector.read_xml_metadata(xml.as_bytes()).unwrap();
    let mut worlds: Vec<World> = Vec::new();
    let mut coords: Vec<Coords> = Vec::new();
    sector.parse_column_data(DATA, &mut worlds, &mut coords);
    let sectors = vec![sector];
    let r = sectors[0].read_xml_routes(xml.as_bytes(), &sectors, &mut worlds, &coords);
    assert_eq!(r, Ok(()));
    assert_eq!(worlds[0].xboat_routes, vec![coords[1]]);
    assert_eq!(worlds[1].xboat_routes, vec![coords[0]]);

    let bad = metadata_xml("-4", "A", "east");
    let mut worlds2: Vec<World> = Vec::new();
    let mut coords2: Vec<Coords> = Vec::new();
    let mut s2 = Sector::new("Spinward Marches".to_string());
    s2.read_xml_metadata(xml.as_bytes()).unwrap();
    s2.parse_column_data(DATA, &mut worlds2, &mut coords2);
    assert_eq!(s2.read_xml_routes(bad.as_bytes(), &sectors, &mut worlds2, &coords2), Err(SectorError::BadNumber));
    let huge = metadata_xml("-4", "A", "-9223372036854775808");
    assert_eq!(
        sectors[0].read_xml_routes(huge.as_bytes(), &sectors, &mut worlds2, &coords2),
        Err(SectorError::OffsetOverflow)
    );
    assert_eq!(sectors[0].read_xml_routes(b"<Routes>", &sectors, &mut worlds2, &coords2), Err(SectorError::BadXml));
}

#[test]
fn test_add_sector_replaces_same_location() {
    let mut sectors: Vec<Sector> = Vec::new();
    let mut a = Sector::new("Spinward Marches".to_string());
    a.location = (-4, -1);
    let mut b = Sector::new("Deneb".to_string());
    b.location = (-3, -1);
    let mut c = Sector::new("Spinward Marches Again".to_string());
    c.location = (-4, -1);
    add_sector(&mut sectors, a);
    add_sector(&mut sectors, b);
    add_sector(&mut sectors, c);
    assert_eq!(sectors.len(), 2);
    assert_eq!(sectors[0].name, "Spinward Marches Again");
    assert_eq!(sectors[1].name, "Deneb");
}

#[test]
fn test_read_column_data() {
    let mut sector = Sector::new("Spinward Marches".to_string());
    sector.parse_xml_metadata(&metadata_tree("-4")).unwrap();
    let mut worlds: Vec<World> = Vec::new();
    let mut coords: Vec<Coords> = Vec::new();
    assert!(column_data_checked(DATA, sector.location));
    assert_eq!(sector.read_column_data(DATA, &mut worlds, &mut coords), Ok(()));
    assert_eq!(worlds.len(), 2);
    assert_eq!(sector.hex_to_coords.len(), 2);
    let roup = sector.hex_to_world("2010", &worlds, &coords).unwrap();
    assert_eq!(roup.name, "Roup");
}

#[test]
fn test_read_column_data_refusals() {
    let unnamed_column = "Hex  Name\n---- -------------------- ---------\n1910 Regina               A788899-C\n";
    let bad_hex = "Hex  Name                 UWP\n---- -------------------- ---------\nabcd Regina               A788899-C\n";
    for text in [unnamed_column, bad_hex] {
        let mut sector = Sector::new("Spinward Marches".to_string());
        sector.parse_xml_metadata(&metadata_tree("-4")).unwrap();
        let mut worlds: Vec<World> = Vec::new();
        let mut coords: Vec<Coords> = Vec::new();
        assert!(!column_data_checked(text, sector.location));
        assert_eq!(sector.read_column_data(text, &mut worlds, &mut coords), Err(SectorError::BadColumns));
        assert!(worlds.is_empty());
        assert!(coords.is_empty());
        assert!(sector.hex_to_coords.is_empty());
    }
}
