use vstd::prelude::*;
use crate::atlas::{add_coords, atlas_map, atlas_ok, coords_sorted, index_of, insert_world, position_ok};
use crate::coords::Coords;
use crate::world::World;
use crate::text::{chars_of, lines_spec, parse_i64, parse_i64_spec, starts_with, string_is, text_lines};
use crate::world_parse::{
    fields_for, header_fits, header_fits_check, last_text, lemma_last_text_same, parse_header_and_separator, read_from, text_of,
    ColumnKind,
};
use crate::xml::{attr, find, find_all, find_all_spec, find_spec, get_attr, parse_xml, parsed_xml, tree_ok, XmlNode, XmlTree};

verus! {

/// No key occurs twice in a list of text-keyed pairs.
pub open spec fn keys_unique<V>(s: Seq<(String, V)>) -> bool {
    forall|i: int, j: int| 0 <= i < j < s.len() ==> (#[trigger] s[i]).0@ != (#[trigger] s[j]).0@
}

/// The map that a list of text-keyed pairs with distinct keys stands for.
pub open spec fn keyed_map<V>(s: Seq<(String, V)>) -> Map<Seq<char>, V> {
    Map::new(
        |k: Seq<char>| exists|i: int| 0 <= i < s.len() && (#[trigger] s[i]).0@ == k,
        |k: Seq<char>| s[choose|i: int| 0 <= i < s.len() && (#[trigger] s[i]).0@ == k].1,
    )
}

proof fn lemma_keyed_at<V>(s: Seq<(String, V)>, i: int)
    requires
        keys_unique(s),
        0 <= i < s.len(),
    ensures
        keyed_map(s).contains_key(s[i].0@),
        keyed_map(s)[s[i].0@] == s[i].1,
{
    let j = choose|j: int| 0 <= j < s.len() && (#[trigger] s[j]).0@ == s[i].0@;
    if j != i {
        if j < i {
            assert(s[j].0@ != s[i].0@);
        } else {
            assert(s[i].0@ != s[j].0@);
        }
    }
}

/// The position of key `k`, if it is there.
pub fn key_position<V>(m: &Vec<(String, V)>, k: &str) -> (r: Option<usize>)
    ensures
        match r {
            Some(i) => i < m@.len() && m@[i as int].0@ == k@,
            None => !keyed_map(m@).contains_key(k@),
        },
{
    let mut i: usize = 0;
    while i < m.len()
        invariant
            i <= m@.len(),
            forall|j: int| 0 <= j < i ==> (#[trigger] m@[j]).0@ != k@,
        decreases m@.len() - i,
    {
        if string_is(&m[i].0, k) {
            return Some(i);
        }
        i += 1;
    }
    None
}

/// `HashMap::insert` on a list of text-keyed pairs.
pub fn map_insert<V>(m: &mut Vec<(String, V)>, k: String, v: V)
    requires
        keys_unique(old(m)@),
    ensures
        keys_unique(final(m)@),
        keyed_map(final(m)@) == keyed_map(old(m)@).insert(k@, v),
{
    let ghost kv = k@;
    let ghost before = m@;
    match key_position(m, k.as_str()) {
        Some(i) => {
            m.set(i, (k, v));
            proof {
                assert forall|a: int, b: int| 0 <= a < b < m@.len() implies (#[trigger] m@[a]).0@ != (#[trigger] m@[b]).0@ by {
                    assert(before[a].0@ != before[b].0@);
                }
                assert forall|key: Seq<char>| #[trigger] keyed_map(m@).contains_key(key) == keyed_map(before).insert(kv, v).contains_key(key) by {
                    if keyed_map(before).contains_key(key) {
                        let j = choose|j: int| 0 <= j < before.len() && (#[trigger] before[j]).0@ == key;
                        if j == i {
                            assert(m@[j].0@ == key);
                        } else {
                            assert(m@[j] == before[j]);
                        }
                    }
                    if keyed_map(m@).contains_key(key) {
                        let j = choose|j: int| 0 <= j < m@.len() && (#[trigger] m@[j]).0@ == key;
                        if j != i {
                            assert(m@[j] == before[j]);
                        }
                    }
                }
                assert forall|key: Seq<char>| #[trigger] keyed_map(m@).contains_key(key) implies keyed_map(m@)[key] == keyed_map(before).insert(kv, v)[key] by {
                    let j = choose|j: int| 0 <= j < m@.len() && (#[trigger] m@[j]).0@ == key;
                    lemma_keyed_at(m@, j);
                    if j != i {
                        assert(m@[j] == before[j]);
                        lemma_keyed_at(before, j);
                    }
                }
                assert(keyed_map(m@) =~= keyed_map(before).insert(kv, v));
            }
        },
        None => {
            m.push((k, v));
            proof {
                assert forall|a: int, b: int| 0 <= a < b < m@.len() implies (#[trigger] m@[a]).0@ != (#[trigger] m@[b]).0@ by {
                    if b < before.len() {
                        assert(before[a].0@ != before[b].0@);
                    } else {
                        assert(m@[a] == before[a]);
                    }
                }
                let i = before.len() as int;
                assert forall|key: Seq<char>| #[trigger] keyed_map(m@).contains_key(key) == keyed_map(before).insert(kv, v).contains_key(key) by {
                    if keyed_map(before).contains_key(key) {
                        let j = choose|j: int| 0 <= j < before.len() && (#[trigger] before[j]).0@ == key;
                        assert(m@[j] == before[j]);
                    }
                    if key == kv {
                        assert(m@[i].0@ == key);
                    }
                    if keyed_map(m@).contains_key(key) {
                        let j = choose|j: int| 0 <= j < m@.len() && (#[trigger] m@[j]).0@ == key;
                        if j != i {
                            assert(m@[j] == before[j]);
                        }
                    }
                }
                assert forall|key: Seq<char>| #[trigger] keyed_map(m@).contains_key(key) implies keyed_map(m@)[key] == keyed_map(before).insert(kv, v)[key] by {
                    let j = choose|j: int| 0 <= j < m@.len() && (#[trigger] m@[j]).0@ == key;
                    lemma_keyed_at(m@, j);
                    if j != i {
                        assert(m@[j] == before[j]);
                        lemma_keyed_at(before, j);
                    }
                }
                assert(keyed_map(m@) =~= keyed_map(before).insert(kv, v));
            }
        },
    }
}

} // verus!

verus! {

/// No key occurs twice in a list of letter-keyed pairs.
pub open spec fn letters_unique(s: Seq<(char, String)>) -> bool {
    forall|i: int, j: int| 0 <= i < j < s.len() ==> (#[trigger] s[i]).0 != (#[trigger] s[j]).0
}

/// The map that a list of letter-keyed pairs with distinct keys stands for.
pub open spec fn letter_map(s: Seq<(char, String)>) -> Map<char, Seq<char>> {
    Map::new(
        |k: char| exists|i: int| 0 <= i < s.len() && (#[trigger] s[i]).0 == k,
        |k: char| s[choose|i: int| 0 <= i < s.len() && (#[trigger] s[i]).0 == k].1@,
    )
}

proof fn lemma_letter_at(s: Seq<(char, String)>, i: int)
    requires
        letters_unique(s),
        0 <= i < s.len(),
    ensures
        letter_map(s).contains_key(s[i].0),
        letter_map(s)[s[i].0] == s[i].1@,
{
    let j = choose|j: int| 0 <= j < s.len() && (#[trigger] s[j]).0 == s[i].0;
    if j != i {
        if j < i {
            assert(s[j].0 != s[i].0);
        } else {
            assert(s[i].0 != s[j].0);
        }
    }
}

/// `HashMap::insert` on a list of letter-keyed pairs.
pub fn letter_insert(m: &mut Vec<(char, String)>, k: char, v: String)
    requires
        letters_unique(old(m)@),
    ensures
        letters_unique(final(m)@),
        letter_map(final(m)@) == letter_map(old(m)@).insert(k, v@),
{
    let ghost vv = v@;
    let ghost before = m@;
    let mut i: usize = 0;
    while i < m.len()
        invariant_except_break
            m@ == before,
            i <= m@.len(),
            forall|j: int| 0 <= j < i ==> (#[trigger] m@[j]).0 != k,
        ensures
            m@ == before,
            i <= m@.len(),
            forall|j: int| 0 <= j < i ==> (#[trigger] m@[j]).0 != k,
            i < m@.len() ==> m@[i as int].0 == k,
        decreases m@.len() - i,
    {
        if m[i].0 == k {
            break;
        }
        i += 1;
    }
    if i < m.len() {
        m.set(i, (k, v));
        proof {
            assert forall|a: int, b: int| 0 <= a < b < m@.len() implies (#[trigger] m@[a]).0 != (#[trigger] m@[b]).0 by {
                assert(before[a].0 != before[b].0);
            }
            assert forall|key: char| #[trigger] letter_map(m@).contains_key(key) == letter_map(before).insert(k, vv).contains_key(key) by {
                if letter_map(before).contains_key(key) {
                    let j = choose|j: int| 0 <= j < before.len() && (#[trigger] before[j]).0 == key;
                    if j != i {
                        assert(m@[j] == before[j]);
                    }
                }
                if key == k {
                    assert(m@[i as int].0 == key);
                }
                if letter_map(m@).contains_key(key) {
                    let j = choose|j: int| 0 <= j < m@.len() && (#[trigger] m@[j]).0 == key;
                    if j != i {
                        assert(m@[j] == before[j]);
                    }
                }
            }
            assert forall|key: char| #[trigger] letter_map(m@).contains_key(key) implies letter_map(m@)[key] == letter_map(before).insert(k, vv)[key] by {
                let j = choose|j: int| 0 <= j < m@.len() && (#[trigger] m@[j]).0 == key;
                lemma_letter_at(m@, j);
                if j != i {
                    assert(m@[j] == before[j]);
                    lemma_letter_at(before, j);
                }
            }
            assert(letter_map(m@) =~= letter_map(before).insert(k, vv));
        }
    } else {
        m.push((k, v));
        proof {
            assert forall|a: int, b: int| 0 <= a < b < m@.len() implies (#[trigger] m@[a]).0 != (#[trigger] m@[b]).0 by {
                if b < before.len() {
                    assert(before[a].0 != before[b].0);
                } else {
                    assert(m@[a] == before[a]);
                }
            }
            let last = before.len() as int;
            assert forall|key: char| #[trigger] letter_map(m@).contains_key(key) == letter_map(before).insert(k, vv).contains_key(key) by {
                if letter_map(before).contains_key(key) {
                    let j = choose|j: int| 0 <= j < before.len() && (#[trigger] before[j]).0 == key;
                    assert(m@[j] == before[j]);
                }
                if key == k {
                    assert(m@[last].0 == key);
                }
                if letter_map(m@).contains_key(key) {
                    let j = choose|j: int| 0 <= j < m@.len() && (#[trigger] m@[j]).0 == key;
                    if j != last {
                        assert(m@[j] == before[j]);
                    }
                }
            }
            assert forall|key: char| #[trigger] letter_map(m@).contains_key(key) implies letter_map(m@)[key] == letter_map(before).insert(k, vv)[key] by {
                let j = choose|j: int| 0 <= j < m@.len() && (#[trigger] m@[j]).0 == key;
                lemma_letter_at(m@, j);
                if j != last {
                    assert(m@[j] == before[j]);
                    lemma_letter_at(before, j);
                }
            }
            assert(letter_map(m@) =~= letter_map(before).insert(k, vv));
        }
    }
}

/// A sector of the map: its names, where it lies among the sectors, the
/// names of its subsectors and allegiances, and where its hexes lie.
pub struct Sector {
    pub name: String,
    pub names: Vec<String>,
    pub abbreviation: String,
    pub location: (i64, i64),
    pub subsector_letter_to_name: Vec<(char, String)>,
    pub allegiance_code_to_name: Vec<(String, String)>,
    pub hex_to_coords: Vec<(String, Coords)>,
}

/// Why sector data was refused.
#[derive(Clone, Copy, Debug, PartialEq, Eq, Structural)]
pub enum SectorError {
    /// A number in the metadata or the routes does not parse.
    BadNumber,
    /// The data is not a well-formed XML document.
    BadXml,
    /// A subsector's index has no letter.
    UnletteredIndex,
    /// A route's sector offset takes the location beyond `i64`.
    OffsetOverflow,
    /// A separator line has a column without a name, or a world record a hex
    /// whose position cannot be worked out.
    BadColumns,
}

impl Sector {
    /// The lists that stand for maps hold each key once.
    pub open spec fn maps_ok(&self) -> bool {
        &&& letters_unique(self.subsector_letter_to_name@)
        &&& keys_unique(self.allegiance_code_to_name@)
        &&& keys_unique(self.hex_to_coords@)
    }

    /// A sector of that name with nothing known of it yet, at location
    /// `(-1, -1)`.
    pub fn new(sector_name: String) -> (s: Sector)
        ensures
            s.name@ == sector_name@,
            s.names@.len() == 0,
            s.abbreviation@ == Seq::<char>::empty(),
            s.location == (-1i64, -1i64),
            s.subsector_letter_to_name@.len() == 0,
            s.allegiance_code_to_name@.len() == 0,
            s.hex_to_coords@.len() == 0,
            s.maps_ok(),
    {
        Sector {
            name: sector_name,
            names: Vec::new(),
            abbreviation: String::new(),
            location: (-1, -1),
            subsector_letter_to_name: Vec::new(),
            allegiance_code_to_name: Vec::new(),
            hex_to_coords: Vec::new(),
        }
    }
}

} // verus!

verus! {

/// The texts of a map from texts to texts.
pub open spec fn keyed_texts(s: Seq<(String, String)>) -> Map<Seq<char>, Seq<char>> {
    Map::new(|k: Seq<char>| keyed_map(s).contains_key(k), |k: Seq<char>| keyed_map(s)[k]@)
}

/// The coordinate that the root's child `tag` gives: `i64::MAX` without
/// such a child, nothing when its text does not read as a number.
pub open spec fn meta_coordinate(nodes: Seq<XmlNode>, tag: Seq<char>) -> Option<i64> {
    match find_spec(nodes, 0, tag) {
        None => Some(i64::MAX),
        Some(c) => parse_i64_spec(nodes[c as int].text@),
    }
}

/// The texts of the elements at `ps` that are not empty.
pub open spec fn nonempty_texts(nodes: Seq<XmlNode>, ps: Seq<usize>) -> Seq<Seq<char>>
    decreases ps.len(),
{
    if ps.len() == 0 {
        Seq::empty()
    } else {
        let prev = nonempty_texts(nodes, ps.drop_last());
        let t = nodes[ps.last() as int].text@;
        if t.len() > 0 {
            prev.push(t)
        } else {
            prev
        }
    }
}

/// The elements under the root's first child `group` tagged `item`.
pub open spec fn grouped(nodes: Seq<XmlNode>, group: Seq<char>, item: Seq<char>) -> Seq<usize> {
    match find_spec(nodes, 0, group) {
        Some(g) => find_all_spec(nodes, g as int, item),
        None => Seq::empty(),
    }
}

/// The subsector names after those of the elements at `ps`: each element
/// with an `Index` and a name files the name under the index's first letter.
pub open spec fn subsector_names(m: Map<char, Seq<char>>, nodes: Seq<XmlNode>, ps: Seq<usize>) -> Map<char, Seq<char>>
    decreases ps.len(),
{
    if ps.len() == 0 {
        m
    } else {
        let prev = subsector_names(m, nodes, ps.drop_last());
        let node = nodes[ps.last() as int];
        match attr(node, "Index"@) {
            Some(ix) => if node.text@.len() > 0 {
                prev.insert(ix[0], node.text@)
            } else {
                prev
            },
            None => prev,
        }
    }
}

/// The allegiance names after those of the elements at `ps`: each element
/// with a `Code` and a name files the name under the code.
pub open spec fn allegiance_names(m: Map<Seq<char>, Seq<char>>, nodes: Seq<XmlNode>, ps: Seq<usize>) -> Map<Seq<char>, Seq<char>>
    decreases ps.len(),
{
    if ps.len() == 0 {
        m
    } else {
        let prev = allegiance_names(m, nodes, ps.drop_last());
        let node = nodes[ps.last() as int];
        match attr(node, "Code"@) {
            Some(code) => if node.text@.len() > 0 {
                prev.insert(code, node.text@)
            } else {
                prev
            },
            None => prev,
        }
    }
}

/// Every subsector element with an `Index` has a letter in it.
pub open spec fn indices_lettered(nodes: Seq<XmlNode>) -> bool {
    forall|k: int|
        0 <= k < grouped(nodes, "Subsectors"@, "Subsector"@).len() ==> match attr(
            nodes[#[trigger] grouped(nodes, "Subsectors"@, "Subsector"@)[k] as int],
            "Index"@,
        ) {
            Some(ix) => ix.len() > 0,
            None => true,
        }
}

pub open spec fn string_views_of(v: Seq<String>) -> Seq<Seq<char>> {
    v.map_values(|s: String| s@)
}

/// What reading metadata elements `nodes` makes of sector `before`:
/// `ok` tells whether the location was read.
pub open spec fn metadata_read(before: Sector, after: Sector, nodes: Seq<XmlNode>, ok: bool) -> bool {
    &&& after.maps_ok()
    &&& after.name == before.name
    &&& after.hex_to_coords == before.hex_to_coords
    &&& after.abbreviation@ == match attr(nodes[0], "Abbreviation"@) {
        Some(a) => a,
        None => before.abbreviation@,
    }
    &&& match (meta_coordinate(nodes, "X"@), meta_coordinate(nodes, "Y"@)) {
        (Some(x), Some(y)) => {
            &&& ok
            &&& after.location == (x, y)
            &&& string_views_of(after.names@) == string_views_of(before.names@) + nonempty_texts(
                nodes,
                find_all_spec(nodes, 0, "Name"@),
            )
            &&& letter_map(after.subsector_letter_to_name@) == subsector_names(
                letter_map(before.subsector_letter_to_name@),
                nodes,
                grouped(nodes, "Subsectors"@, "Subsector"@),
            )
            &&& keyed_texts(after.allegiance_code_to_name@) == allegiance_names(
                keyed_texts(before.allegiance_code_to_name@),
                nodes,
                grouped(nodes, "Allegiances"@, "Allegiance"@),
            )
        },
        _ => {
            &&& !ok
            &&& after.location == before.location
            &&& after.names == before.names
            &&& after.subsector_letter_to_name == before.subsector_letter_to_name
            &&& after.allegiance_code_to_name == before.allegiance_code_to_name
        },
    }
}

fn text_of_node(tree: &XmlTree, i: usize) -> (s: &String)
    requires
        i < tree.nodes@.len(),
    ensures
        *s == tree.nodes@[i as int].text,
{
    &tree.nodes[i].text
}

impl Sector {
    /// Reads the sector's metadata: its abbreviation, its location (`X` and
    /// `Y`), its names, and the names of its subsectors and allegiances. A
    /// location that does not read as a number is refused, with only the
    /// abbreviation taken.
    pub fn parse_xml_metadata(&mut self, tree: &XmlTree) -> (r: Result<(), SectorError>)
        requires
            tree_ok(tree.nodes@),
            old(self).maps_ok(),
            indices_lettered(tree.nodes@),
        ensures
            metadata_read(*old(self), *final(self), tree.nodes@, r is Ok),
            r is Err ==> r == Err::<(), SectorError>(SectorError::BadNumber),
    {
        let ghost nodes = tree.nodes@;
        let root = &tree.nodes[0];
        if let Some(abbreviation) = get_attr(root, "Abbreviation") {
            self.abbreviation = abbreviation;
        }
        let mut x: i64 = i64::MAX;
        if let Some(c) = find(tree, 0, "X") {
            let t = chars_of(text_of_node(tree, c).as_str());
            match parse_i64(t.as_slice()) {
                Some(v) => {
                    x = v;
                },
                None => {
                    return Err(SectorError::BadNumber);
                },
            }
        }
        let mut y: i64 = i64::MAX;
        if let Some(c) = find(tree, 0, "Y") {
            let t = chars_of(text_of_node(tree, c).as_str());
            match parse_i64(t.as_slice()) {
                Some(v) => {
                    y = v;
                },
                None => {
                    return Err(SectorError::BadNumber);
                },
            }
        }
        self.location = (x, y);
        let name_elements = find_all(tree, 0, "Name");
        let ghost names0 = string_views_of(self.names@);
        let ghost s1 = *self;
        let mut i: usize = 0;
        while i < name_elements.len()
            invariant
                *self == (Sector { names: self.names, ..s1 }),
                tree_ok(tree.nodes@),
                forall|k: int| 0 <= k < name_elements@.len() ==> #[trigger] name_elements@[k] < tree.nodes@.len(),
                i <= name_elements@.len(),
                string_views_of(self.names@) == names0 + nonempty_texts(tree.nodes@, name_elements@.take(i as int)),
            decreases name_elements@.len() - i,
        {
            let p = name_elements[i];
            let text = text_of_node(tree, p);
            proof {
                assert(name_elements@.take(i + 1).drop_last() =~= name_elements@.take(i as int));
            }
            let ghost before = self.names@;
            proof {
                assert(name_elements@.take(i + 1).last() == p);
            }
            if !text.as_str().is_empty() {
                self.names.push(text.clone());
                proof {
                    assert(self.names@ == before.push(*text));
                    assert(string_views_of(before.push(*text)) =~= string_views_of(before).push(text@));
                    assert(string_views_of(self.names@) =~= names0 + nonempty_texts(tree.nodes@, name_elements@.take(i + 1)));
                }
            }
            i += 1;
        }
        proof {
            assert(name_elements@.take(name_elements@.len() as int) =~= name_elements@);
        }
        let ghost letters0 = letter_map(self.subsector_letter_to_name@);
        let ghost s2 = *self;
        if let Some(g) = find(tree, 0, "Subsectors") {
            let items = find_all(tree, g, "Subsector");
            let mut i: usize = 0;
            while i < items.len()
                invariant
                    *self == (Sector { subsector_letter_to_name: self.subsector_letter_to_name, ..s2 }),
                    tree_ok(tree.nodes@),
                    nodes == tree.nodes@,
                    indices_lettered(tree.nodes@),
                    items@ == grouped(tree.nodes@, "Subsectors"@, "Subsector"@),
                    forall|k: int| 0 <= k < items@.len() ==> #[trigger] items@[k] < tree.nodes@.len(),
                    i <= items@.len(),
                    letters_unique(self.subsector_letter_to_name@),
                    letter_map(self.subsector_letter_to_name@) == subsector_names(letters0, tree.nodes@, items@.take(i as int)),
                decreases items@.len() - i,
            {
                let p = items[i];
                proof {
                    assert(items@.take(i + 1).drop_last() =~= items@.take(i as int));
                    assert(items@[i as int] == grouped(tree.nodes@, "Subsectors"@, "Subsector"@)[i as int]);
                }
                if let Some(index) = get_attr(&tree.nodes[p], "Index") {
                    let letters = chars_of(index.as_str());
                    let letter = letters[0];
                    let text = text_of_node(tree, p);
                    if !text.as_str().is_empty() {
                        letter_insert(&mut self.subsector_letter_to_name, letter, text.clone());
                    }
                }
                i += 1;
            }
            proof {
                assert(items@.take(items@.len() as int) =~= items@);
            }
        }
        let ghost codes0 = keyed_texts(self.allegiance_code_to_name@);
        let ghost s3 = *self;
        if let Some(g) = find(tree, 0, "Allegiances") {
            let items = find_all(tree, g, "Allegiance");
            let mut i: usize = 0;
            while i < items.len()
                invariant
                    *self == (Sector { allegiance_code_to_name: self.allegiance_code_to_name, ..s3 }),
                    tree_ok(tree.nodes@),
                    items@ == grouped(tree.nodes@, "Allegiances"@, "Allegiance"@),
                    forall|k: int| 0 <= k < items@.len() ==> #[trigger] items@[k] < tree.nodes@.len(),
                    i <= items@.len(),
                    keys_unique(self.allegiance_code_to_name@),
                    keyed_texts(self.allegiance_code_to_name@) == allegiance_names(codes0, tree.nodes@, items@.take(i as int)),
                decreases items@.len() - i,
            {
                let p = items[i];
                proof {
                    assert(items@.take(i + 1).drop_last() =~= items@.take(i as int));
                }
                if let Some(code) = get_attr(&tree.nodes[p], "Code") {
                    let text = text_of_node(tree, p);
                    if !text.as_str().is_empty() {
                        let ghost before = self.allegiance_code_to_name@;
                        let ghost cv = code@;
                        map_insert(&mut self.allegiance_code_to_name, code, text.clone());
                        proof {
                            assert(keyed_texts(self.allegiance_code_to_name@) =~= keyed_texts(before).insert(cv, text@));
                        }
                    }
                }
                i += 1;
            }
            proof {
                assert(items@.take(items@.len() as int) =~= items@);
            }
        }
        Ok(())
    }
}

} // verus!

verus! {

/// An offset attribute of a route: 0 when absent, nothing when it does not
/// read as a number.
pub open spec fn offset_attr(node: XmlNode, name: Seq<char>) -> Option<i64> {
    match attr(node, name) {
        None => Some(0),
        Some(t) => parse_i64_spec(t),
    }
}

/// A route with both ends whose offsets do not all read as numbers.
pub open spec fn route_fails(node: XmlNode) -> bool {
    &&& attr(node, "Start"@) is Some
    &&& attr(node, "End"@) is Some
    &&& {
        ||| offset_attr(node, "StartOffsetX"@) is None
        ||| offset_attr(node, "StartOffsetY"@) is None
        ||| offset_attr(node, "EndOffsetX"@) is None
        ||| offset_attr(node, "EndOffsetY"@) is None
    }
}

/// No route before the `j`-th fails.
pub open spec fn routes_fine_before(nodes: Seq<XmlNode>, ps: Seq<usize>, j: int) -> bool {
    forall|i: int| 0 <= i < j ==> !route_fails(nodes[#[trigger] ps[i] as int])
}

/// The first sector at `loc`.
pub open spec fn sector_at(sectors: Seq<Sector>, loc: (int, int), from: int) -> Option<int>
    decreases sectors.len() - from,
{
    if from >= sectors.len() || from < 0 {
        None
    } else if sectors[from].location.0 == loc.0 && sectors[from].location.1 == loc.1 {
        Some(from)
    } else {
        sector_at(sectors, loc, from + 1)
    }
}

/// The ends of an xboat route, where both its sectors and both its hexes
/// are known.
pub open spec fn route_link(sectors: Seq<Sector>, loc: (i64, i64), node: XmlNode) -> Option<(Coords, Coords)> {
    match (attr(node, "Start"@), attr(node, "End"@)) {
        (Some(sh), Some(eh)) => match (
            offset_attr(node, "StartOffsetX"@),
            offset_attr(node, "StartOffsetY"@),
            offset_attr(node, "EndOffsetX"@),
            offset_attr(node, "EndOffsetY"@),
        ) {
            (Some(sx), Some(sy), Some(ex), Some(ey)) => match (
                sector_at(sectors, (loc.0 + sx, loc.1 + sy), 0),
                sector_at(sectors, (loc.0 + ex, loc.1 + ey), 0),
            ) {
                (Some(ss), Some(es)) => {
                    let sm = keyed_map(sectors[ss].hex_to_coords@);
                    let em = keyed_map(sectors[es].hex_to_coords@);
                    if sm.contains_key(sh) && em.contains_key(eh) {
                        Some((sm[sh], em[eh]))
                    } else {
                        None
                    }
                },
                _ => None,
            },
            _ => None,
        },
        _ => None,
    }
}

/// The sums of a route's offsets with the sector's location fit in `i64`.
pub open spec fn offsets_fit(loc: (i64, i64), node: XmlNode) -> bool {
    attr(node, "Start"@) is Some && attr(node, "End"@) is Some && !route_fails(node) ==> {
        &&& i64::MIN <= loc.0 + offset_attr(node, "StartOffsetX"@)->0 <= i64::MAX
        &&& i64::MIN <= loc.1 + offset_attr(node, "StartOffsetY"@)->0 <= i64::MAX
        &&& i64::MIN <= loc.0 + offset_attr(node, "EndOffsetX"@)->0 <= i64::MAX
        &&& i64::MIN <= loc.1 + offset_attr(node, "EndOffsetY"@)->0 <= i64::MAX
    }
}

/// The worlds that the first `m` routes link the world with coordinates
/// `c` to, where both ends are worlds of the map.
pub open spec fn xboat_links(
    sectors: Seq<Sector>,
    loc: (i64, i64),
    nodes: Seq<XmlNode>,
    ps: Seq<usize>,
    m: int,
    coords: Seq<Coords>,
    c: Coords,
) -> Set<Coords> {
    Set::new(
        |d: Coords|
            exists|j: int| 0 <= j < m && link_joins(#[trigger] route_link(sectors, loc, nodes[ps[j] as int]), coords, c, d),
    )
}

/// A route between two worlds of the map that links `c` with `d`.
pub open spec fn link_joins(l: Option<(Coords, Coords)>, coords: Seq<Coords>, c: Coords, d: Coords) -> bool {
    match l {
        Some(l) => coords.contains(l.0) && coords.contains(l.1) && ((l.0 == c && l.1 == d) || (l.1 == c && l.0 == d)),
        None => false,
    }
}

/// The first route that fails, or the number of routes.
pub open spec fn first_failure(nodes: Seq<XmlNode>, ps: Seq<usize>, from: int) -> int
    decreases ps.len() - from,
{
    if from >= ps.len() || from < 0 {
        ps.len() as int
    } else if route_fails(nodes[ps[from] as int]) {
        from
    } else {
        first_failure(nodes, ps, from + 1)
    }
}

fn offset_of(node: &XmlNode, name: &str) -> (r: Option<i64>)
    ensures
        r == offset_attr(*node, name@),
{
    match get_attr(node, name) {
        None => Some(0),
        Some(t) => {
            let cs = chars_of(t.as_str());
            parse_i64(cs.as_slice())
        },
    }
}

/// The four offsets of a route, unless one does not read as a number.
fn route_offsets(node: &XmlNode) -> (r: Option<(i64, i64, i64, i64)>)
    ensures
        match (
            offset_attr(*node, "StartOffsetX"@),
            offset_attr(*node, "StartOffsetY"@),
            offset_attr(*node, "EndOffsetX"@),
            offset_attr(*node, "EndOffsetY"@),
        ) {
            (Some(a), Some(b), Some(c), Some(d)) => r == Some((a, b, c, d)),
            _ => r is None,
        },
{
    let sx = offset_of(node, "StartOffsetX");
    let sy = offset_of(node, "StartOffsetY");
    let ex = offset_of(node, "EndOffsetX");
    let ey = offset_of(node, "EndOffsetY");
    match (sx, sy, ex, ey) {
        (Some(a), Some(b), Some(c), Some(d)) => Some((a, b, c, d)),
        _ => None,
    }
}

fn find_sector(sectors: &Vec<Sector>, x: i64, y: i64) -> (r: Option<usize>)
    ensures
        match r {
            Some(i) => sector_at(sectors@, (x as int, y as int), 0) == Some(i as int) && i < sectors@.len(),
            None => sector_at(sectors@, (x as int, y as int), 0) is None,
        },
{
    let mut i: usize = 0;
    while i < sectors.len()
        invariant
            i <= sectors@.len(),
            sector_at(sectors@, (x as int, y as int), 0) == sector_at(sectors@, (x as int, y as int), i as int),
        decreases sectors@.len() - i,
    {
        if sectors[i].location.0 == x && sectors[i].location.1 == y {
            return Some(i);
        }
        i += 1;
    }
    None
}

} // verus!

verus! {

proof fn lemma_first_failure(nodes: Seq<XmlNode>, ps: Seq<usize>, from: int, j: int)
    requires
        0 <= from <= j <= ps.len(),
        forall|i: int| from <= i < j ==> !route_fails(nodes[#[trigger] ps[i] as int]),
        j < ps.len() ==> route_fails(nodes[ps[j] as int]),
    ensures
        first_failure(nodes, ps, from) == j,
    decreases j - from,
{
    if from < j {
        lemma_first_failure(nodes, ps, from + 1, j);
    }
}

/// Every world of the map holds each xboat partner once.
pub open spec fn xboat_lists_ok(worlds: Seq<World>) -> bool {
    forall|k: int| 0 <= k < worlds.len() ==> (#[trigger] worlds[k]).xboat_routes@.no_duplicates()
}

/// What reading route elements `nodes` of the sector at `loc` makes of
/// worlds `w0`: `ok` tells whether every route was read.
pub open spec fn xboat_read(
    sectors: Seq<Sector>,
    loc: (i64, i64),
    nodes: Seq<XmlNode>,
    coords: Seq<Coords>,
    w0: Seq<World>,
    w1: Seq<World>,
    ok: bool,
) -> bool {
    let ps = grouped(nodes, "Routes"@, "Route"@);
    let f = first_failure(nodes, ps, 0);
    &&& (ok <==> f == ps.len())
    &&& w1.len() == w0.len()
    &&& xboat_lists_ok(w1)
    &&& forall|k: int|
        0 <= k < w1.len() ==> {
            &&& #[trigger] w1[k] == (World { xboat_routes: w1[k].xboat_routes, ..w0[k] })
            &&& w1[k].xboat_routes@.to_set() == w0[k].xboat_routes@.to_set().union(
                xboat_links(sectors, loc, nodes, ps, f, coords, coords[k]),
            )
        }
}

/// Each xboat route is listed by both of its worlds.
pub open spec fn xboat_symmetric(worlds: Seq<World>, coords: Seq<Coords>) -> bool {
    forall|i: int, j: int|
        #![trigger worlds[i].xboat_routes@.contains(coords[j]), worlds[j].xboat_routes@.contains(coords[i])]
        0 <= i < worlds.len() && 0 <= j < worlds.len() ==> (worlds[i].xboat_routes@.contains(coords[j])
            <==> worlds[j].xboat_routes@.contains(coords[i]))
}

proof fn lemma_xboat_symmetric_kept(
    sectors: Seq<Sector>,
    loc: (i64, i64),
    nodes: Seq<XmlNode>,
    ps: Seq<usize>,
    f: int,
    coords: Seq<Coords>,
    w0: Seq<World>,
    w1: Seq<World>,
)
    requires
        w0.len() == w1.len(),
        w1.len() <= coords.len(),
        xboat_symmetric(w0, coords),
        forall|k: int|
            0 <= k < w1.len() ==> (#[trigger] w1[k]).xboat_routes@.to_set() == w0[k].xboat_routes@.to_set().union(
                xboat_links(sectors, loc, nodes, ps, f, coords, coords[k]),
            ),
    ensures
        xboat_symmetric(w1, coords),
{
    assert forall|i: int, j: int| 0 <= i < w1.len() && 0 <= j < w1.len() implies (w1[i].xboat_routes@.contains(coords[j])
        <==> w1[j].xboat_routes@.contains(coords[i])) by {
        assert(w1[i].xboat_routes@.to_set().contains(coords[j]) == w1[i].xboat_routes@.contains(coords[j]));
        assert(w1[j].xboat_routes@.to_set().contains(coords[i]) == w1[j].xboat_routes@.contains(coords[i]));
        assert(w0[i].xboat_routes@.to_set().contains(coords[j]) == w0[i].xboat_routes@.contains(coords[j]));
        assert(w0[j].xboat_routes@.to_set().contains(coords[i]) == w0[j].xboat_routes@.contains(coords[i]));
        assert(w0[i].xboat_routes@.contains(coords[j]) == w0[j].xboat_routes@.contains(coords[i]));
        let li = xboat_links(sectors, loc, nodes, ps, f, coords, coords[i]);
        let lj = xboat_links(sectors, loc, nodes, ps, f, coords, coords[j]);
        if li.contains(coords[j]) {
            let r = choose|r: int| 0 <= r < f && link_joins(#[trigger] route_link(sectors, loc, nodes[ps[r] as int]), coords, coords[i], coords[j]);
            assert(link_joins(route_link(sectors, loc, nodes[ps[r] as int]), coords, coords[j], coords[i]));
            assert(lj.contains(coords[i]));
        }
        if lj.contains(coords[i]) {
            let r = choose|r: int| 0 <= r < f && link_joins(#[trigger] route_link(sectors, loc, nodes[ps[r] as int]), coords, coords[j], coords[i]);
            assert(link_joins(route_link(sectors, loc, nodes[ps[r] as int]), coords, coords[i], coords[j]));
            assert(li.contains(coords[j]));
        }
    }
}

impl Sector {
    /// Reads the sector's xboat routes and files each one with both its end
    /// worlds. Routes give their ends as hexes of this sector or of sectors
    /// offset from it; a route whose sectors, hexes or worlds are not all
    /// known is passed over. An offset that does not read as a number is
    /// refused, with the routes before it filed.
    pub fn parse_xml_routes(&self, tree: &XmlTree, sectors: &Vec<Sector>, worlds: &mut Vec<World>, coords: &Vec<Coords>) -> (r: Result<(), SectorError>)
        requires
            tree_ok(tree.nodes@),
            atlas_ok(old(worlds)@, coords@),
            xboat_lists_ok(old(worlds)@),
            forall|i: int| 0 <= i < sectors@.len() ==> keys_unique((#[trigger] sectors@[i]).hex_to_coords@),
            forall|j: int|
                0 <= j < grouped(tree.nodes@, "Routes"@, "Route"@).len() && routes_fine_before(
                    tree.nodes@,
                    grouped(tree.nodes@, "Routes"@, "Route"@),
                    j,
                ) ==> offsets_fit(self.location, tree.nodes@[#[trigger] grouped(tree.nodes@, "Routes"@, "Route"@)[j] as int]),
        ensures
            xboat_read(sectors@, self.location, tree.nodes@, coords@, old(worlds)@, final(worlds)@, r is Ok),
            r is Err ==> r == Err::<(), SectorError>(SectorError::BadNumber),
            xboat_symmetric(old(worlds)@, coords@) ==> xboat_symmetric(final(worlds)@, coords@),
    {
        let ghost nodes = tree.nodes@;
        let ghost ps = grouped(tree.nodes@, "Routes"@, "Route"@);
        let ghost w0 = worlds@;
        let ghost loc = self.location;
        let items: Vec<usize> = match find(tree, 0, "Routes") {
            Some(g) => find_all(tree, g, "Route"),
            None => Vec::new(),
        };
        let n = worlds.len();
        proof {
            assert(items@ == ps);
            assert forall|k: int| 0 <= k < n implies #[trigger] xboat_links(sectors@, loc, nodes, ps, 0, coords@, coords@[k]) =~= Set::<Coords>::empty() by {}
            assert forall|k: int| 0 <= k < n implies #[trigger] worlds@[k].xboat_routes@.to_set() =~= w0[k].xboat_routes@.to_set().union(
                xboat_links(sectors@, loc, nodes, ps, 0, coords@, coords@[k])) by {}
        }
        let mut j: usize = 0;
        while j < items.len()
            invariant
                nodes == tree.nodes@,
                ps == grouped(tree.nodes@, "Routes"@, "Route"@),
                w0 == old(worlds)@,
                tree_ok(nodes),
                items@ == ps,
                loc == self.location,
                forall|k: int| 0 <= k < items@.len() ==> #[trigger] items@[k] < nodes.len(),
                forall|i: int| 0 <= i < sectors@.len() ==> keys_unique((#[trigger] sectors@[i]).hex_to_coords@),
                forall|i: int|
                    0 <= i < ps.len() && routes_fine_before(nodes, ps, i) ==> offsets_fit(loc, nodes[#[trigger] ps[i] as int]),
                atlas_ok(w0, coords@),
                n == worlds@.len(),
                n == w0.len(),
                j <= items@.len(),
                routes_fine_before(nodes, ps, j as int),
                xboat_lists_ok(worlds@),
                forall|k: int|
                    0 <= k < n ==> {
                        &&& #[trigger] worlds@[k] == (World { xboat_routes: worlds@[k].xboat_routes, ..w0[k] })
                        &&& worlds@[k].xboat_routes@.to_set() == w0[k].xboat_routes@.to_set().union(
                            xboat_links(sectors@, loc, nodes, ps, j as int, coords@, coords@[k]),
                        )
                    },
            decreases items@.len() - j,
        {
            let node = &tree.nodes[items[j]];
            let ghost before = worlds@;
            let ghost link: Option<(Coords, Coords)> = None;
            let ghost hit: Option<(int, int)> = None;
            proof {
                assert(offsets_fit(loc, nodes[ps[j as int] as int]));
            }
            if let Some(start_hex) = get_attr(node, "Start") {
                if let Some(end_hex) = get_attr(node, "End") {
                    let offsets = route_offsets(node);
                    if offsets.is_none() {
                        proof {
                            assert(*node == nodes[ps[j as int] as int]);
                            assert(route_fails(nodes[ps[j as int] as int]));
                            lemma_first_failure(nodes, ps, 0, j as int);
                            assert(first_failure(nodes, ps, 0) == j);
                            if xboat_symmetric(w0, coords@) {
                                lemma_xboat_symmetric_kept(sectors@, loc, nodes, ps, j as int, coords@, w0, worlds@);
                            }
                        }
                        return Err(SectorError::BadNumber);
                    }
                    let (sx, sy, ex, ey) = offsets.unwrap();
                    let start_sector = find_sector(sectors, self.location.0 + sx, self.location.1 + sy);
                    let end_sector = find_sector(sectors, self.location.0 + ex, self.location.1 + ey);
                    if let (Some(ss), Some(es)) = (start_sector, end_sector) {
                        let sp = key_position(&sectors[ss].hex_to_coords, start_hex.as_str());
                        let ep = key_position(&sectors[es].hex_to_coords, end_hex.as_str());
                        if let (Some(sp), Some(ep)) = (sp, ep) {
                            let a = sectors[ss].hex_to_coords[sp].1;
                            let b = sectors[es].hex_to_coords[ep].1;
                            proof {
                                lemma_keyed_at(sectors@[ss as int].hex_to_coords@, sp as int);
                                lemma_keyed_at(sectors@[es as int].hex_to_coords@, ep as int);
                                link = Some((a, b));
                                assert(route_link(sectors@, loc, nodes[ps[j as int] as int]) == link);
                            }
                            let pa = index_of(coords.as_slice(), a);
                            let pb = index_of(coords.as_slice(), b);
                            if let (Some(ia), Some(ib)) = (pa, pb) {
                                assert(worlds@[ib as int].xboat_routes@.no_duplicates());
                                add_coords(&mut worlds[ib].xboat_routes, a);
                                assert(worlds@[ia as int].xboat_routes@.no_duplicates());
                                add_coords(&mut worlds[ia].xboat_routes, b);
                                proof {
                                    hit = Some((ia as int, ib as int));
                                }
                            }
                        }
                    }
                }
            }
            proof {
                assert(route_link(sectors@, loc, nodes[ps[j as int] as int]) == link);
                assert forall|k: int| 0 <= k < n implies {
                    &&& #[trigger] worlds@[k] == (World { xboat_routes: worlds@[k].xboat_routes, ..w0[k] })
                    &&& worlds@[k].xboat_routes@.to_set() == w0[k].xboat_routes@.to_set().union(
                        xboat_links(sectors@, loc, nodes, ps, j + 1, coords@, coords@[k]),
                    )
                } by {
                    assert(before[k] == (World { xboat_routes: before[k].xboat_routes, ..w0[k] }));
                    assert(before[k].xboat_routes@.to_set() == w0[k].xboat_routes@.to_set().union(
                        xboat_links(sectors@, loc, nodes, ps, j as int, coords@, coords@[k])));
                    let extra = Set::new(|d: Coords| link_joins(link, coords@, coords@[k], d));
                    assert(xboat_links(sectors@, loc, nodes, ps, j + 1, coords@, coords@[k]) =~= xboat_links(sectors@, loc, nodes, ps, j as int, coords@, coords@[k]).union(extra)) by {
                        assert forall|d: Coords| xboat_links(sectors@, loc, nodes, ps, j + 1, coords@, coords@[k]).contains(d) implies xboat_links(sectors@, loc, nodes, ps, j as int, coords@, coords@[k]).union(extra).contains(d) by {
                            let i = choose|i: int| 0 <= i < j + 1 && link_joins(#[trigger] route_link(sectors@, loc, nodes[ps[i] as int]), coords@, coords@[k], d);
                            if i < j {
                                assert(link_joins(route_link(sectors@, loc, nodes[ps[i] as int]), coords@, coords@[k], d));
                            }
                        }
                        assert forall|d: Coords| xboat_links(sectors@, loc, nodes, ps, j as int, coords@, coords@[k]).union(extra).contains(d) implies xboat_links(sectors@, loc, nodes, ps, j + 1, coords@, coords@[k]).contains(d) by {
                            if extra.contains(d) {
                                assert(link_joins(route_link(sectors@, loc, nodes[ps[j as int] as int]), coords@, coords@[k], d));
                            } else {
                                let i = choose|i: int| 0 <= i < j && link_joins(#[trigger] route_link(sectors@, loc, nodes[ps[i] as int]), coords@, coords@[k], d);
                                assert(link_joins(route_link(sectors@, loc, nodes[ps[i] as int]), coords@, coords@[k], d));
                            }
                        }
                    }
                    if k < n {
                        let c = coords@[k];
                        match hit {
                            Some((ia, ib)) => {
                                let (a, b) = link->0;
                                assert(coords@[ia] == a && coords@[ib] == b);
                                if k != ia {
                                    if k < ia {
                                        assert(crate::atlas::coords_lt(coords@[k], coords@[ia]));
                                    } else {
                                        assert(crate::atlas::coords_lt(coords@[ia], coords@[k]));
                                    }
                                }
                                if k != ib {
                                    if k < ib {
                                        assert(crate::atlas::coords_lt(coords@[k], coords@[ib]));
                                    } else {
                                        assert(crate::atlas::coords_lt(coords@[ib], coords@[k]));
                                    }
                                }
                                assert(coords@.contains(a) && coords@.contains(b));
                                let mine = if k == ia && k == ib {
                                    Set::empty().insert(a).insert(b)
                                } else if k == ia {
                                    Set::empty().insert(b)
                                } else if k == ib {
                                    Set::empty().insert(a)
                                } else {
                                    Set::empty()
                                };
                                assert(extra =~= mine);
                                assert(worlds@[k].xboat_routes@.to_set() =~= before[k].xboat_routes@.to_set().union(mine));
                            },
                            None => {
                                assert(worlds@[k] == before[k]);
                                assert(extra =~= Set::empty()) by {
                                    assert forall|d: Coords| !extra.contains(d) by {
                                        if link is Some {
                                            let (a, b) = link->0;
                                            if coords@.contains(a) && coords@.contains(b) {
                                                assert(false);
                                            }
                                        }
                                    }
                                }
                            },
                        }
                    }
                }
                assert(routes_fine_before(nodes, ps, j + 1));
            }
            j += 1;
        }
        proof {
            lemma_first_failure(nodes, ps, 0, ps.len() as int);
            if xboat_symmetric(w0, coords@) {
                lemma_xboat_symmetric_kept(sectors@, loc, nodes, ps, ps.len() as int, coords@, w0, worlds@);
            }
        }
        Ok(())
    }
}

} // verus!

verus! {

impl Sector {
    /// The world at a hex of this sector, if the sector has the hex and the
    /// map a world there.
    pub fn hex_to_world<'a>(&self, hex: &str, worlds: &'a Vec<World>, coords: &Vec<Coords>) -> (r: Option<&'a World>)
        requires
            keys_unique(self.hex_to_coords@),
            coords_sorted(coords@),
            worlds@.len() == coords@.len(),
        ensures
            match r {
                Some(w) => {
                    &&& keyed_map(self.hex_to_coords@).contains_key(hex@)
                    &&& exists|k: int|
                        0 <= k < coords@.len() && coords@[k] == keyed_map(self.hex_to_coords@)[hex@] && #[trigger] worlds@[k] == *w
                },
                None => !keyed_map(self.hex_to_coords@).contains_key(hex@) || !coords@.contains(
                    keyed_map(self.hex_to_coords@)[hex@],
                ),
            },
    {
        match key_position(&self.hex_to_coords, hex) {
            Some(i) => {
                let c = self.hex_to_coords[i].1;
                proof {
                    lemma_keyed_at(self.hex_to_coords@, i as int);
                }
                match index_of(coords.as_slice(), c) {
                    Some(k) => {
                        assert(worlds@[k as int] == worlds@[k as int]);
                        Some(&worlds[k])
                    },
                    None => None,
                }
            },
            None => None,
        }
    }
}

} // verus!

verus! {

/// An empty line or a comment.
pub open spec fn skipped_line(l: Seq<char>) -> bool {
    l.len() == 0 || l[0] == '#'
}

pub open spec fn header_line(l: Seq<char>) -> bool {
    !skipped_line(l) && starts_with(l, seq!['H', 'e', 'x'])
}

pub open spec fn separator_line(l: Seq<char>) -> bool {
    !skipped_line(l) && !starts_with(l, seq!['H', 'e', 'x']) && starts_with(l, seq!['-', '-', '-'])
}

/// A line that records a world.
pub open spec fn record_line(l: Seq<char>) -> bool {
    !skipped_line(l) && !starts_with(l, seq!['H', 'e', 'x']) && !starts_with(l, seq!['-', '-', '-'])
}

/// The last header line before line `i`, or nothing.
pub open spec fn header_before(lines: Seq<Seq<char>>, i: int) -> Seq<char>
    decreases i,
{
    if i <= 0 {
        Seq::empty()
    } else if header_line(lines[i - 1]) {
        lines[i - 1]
    } else {
        header_before(lines, i - 1)
    }
}

/// The header and separator lines that the columns in effect before line
/// `i` come from: the last separator line and the header before it.
pub open spec fn fields_source(lines: Seq<Seq<char>>, i: int) -> Option<(Seq<char>, Seq<char>)>
    decreases i,
{
    if i <= 0 {
        None
    } else if separator_line(lines[i - 1]) {
        Some((header_before(lines, i - 1), lines[i - 1]))
    } else {
        fields_source(lines, i - 1)
    }
}

/// `f` holds the columns that `src` describes (none without a source).
pub open spec fn fields_match(f: Seq<(usize, usize, String)>, src: Option<(Seq<char>, Seq<char>)>) -> bool {
    match src {
        None => f.len() == 0,
        Some((h, s)) => fields_for(f, h, s),
    }
}

/// The number of record lines before line `i`.
pub open spec fn records_before(lines: Seq<Seq<char>>, i: int) -> int
    decreases i,
{
    if i <= 0 {
        0
    } else {
        records_before(lines, i - 1) + if record_line(lines[i - 1]) { 1int } else { 0 }
    }
}

/// The lines of a sector's data can be read: every separator line has names
/// for its columns, and every record line a hex that can be located.
pub open spec fn column_data_ok(lines: Seq<Seq<char>>, location: (i64, i64)) -> bool {
    &&& forall|i: int| 0 <= i < lines.len() && #[trigger] separator_line(lines[i]) ==> header_fits(header_before(lines, i), lines[i])
    &&& forall|i: int, f: Seq<(usize, usize, String)>|
        #![trigger fields_match(f, fields_source(lines, i)), record_line(lines[i])]
        0 <= i < lines.len() && record_line(lines[i]) && fields_match(f, fields_source(lines, i)) ==> position_ok(
            text_of(last_text(lines[i], f, f.len() as int, ColumnKind::Hex)),
            location,
        )
}

/// `ws` are the worlds of the record lines before line `i`, in order.
pub open spec fn worlds_read(ws: Seq<World>, lines: Seq<Seq<char>>, i: int, location: (i64, i64)) -> bool {
    &&& ws.len() == records_before(lines, i)
    &&& forall|j: int|
        0 <= j < i && record_line(lines[j]) ==> exists|f: Seq<(usize, usize, String)>|
            fields_match(f, fields_source(lines, j)) && #[trigger] read_from(ws[records_before(lines, j)], lines[j], f, location)
}

/// The map of worlds after filing each of `ws` in turn.
pub open spec fn filed_all(m: Map<Coords, World>, ws: Seq<World>) -> Map<Coords, World>
    decreases ws.len(),
{
    if ws.len() == 0 {
        m
    } else {
        filed_all(m, ws.drop_last()).insert(ws.last().coords_spec(), ws.last())
    }
}

/// The map of hexes after filing the hex of each of `ws` in turn.
pub open spec fn hexes_all(m: Map<Seq<char>, Coords>, ws: Seq<World>) -> Map<Seq<char>, Coords>
    decreases ws.len(),
{
    if ws.len() == 0 {
        m
    } else {
        hexes_all(m, ws.drop_last()).insert(ws.last().hex@, ws.last().coords_spec())
    }
}

fn line_starts_with(line: &Vec<char>, p: &Vec<char>) -> (r: bool)
    ensures
        r == starts_with(line@, p@),
{
    if p.len() > line.len() {
        return false;
    }
    let mut i: usize = 0;
    while i < p.len()
        invariant
            p@.len() <= line@.len(),
            i <= p@.len(),
            forall|k: int| 0 <= k < i ==> line@[k] == p@[k],
        decreases p@.len() - i,
    {
        if line[i] != p[i] {
            proof {
                assert(line@.take(p@.len() as int)[i as int] != p@[i as int]);
            }
            return false;
        }
        i += 1;
    }
    proof {
        assert(line@.take(p@.len() as int) =~= p@);
    }
    true
}

impl Sector {
    /// Reads a sector's data file: comment and empty lines are passed over; a
    /// line beginning `Hex` is the header, one beginning `---` the separator
    /// that gives the columns with the header before it; every other line is
    /// a world, filed in the map under its coordinates and in this sector
    /// under its hex.
    pub fn parse_column_data(&mut self, text: &str, worlds: &mut Vec<World>, coords: &mut Vec<Coords>)
        requires
            atlas_ok(old(worlds)@, old(coords)@),
            keys_unique(old(self).hex_to_coords@),
            column_data_ok(lines_spec(text@), old(self).location),
        ensures
            atlas_ok(final(worlds)@, final(coords)@),
            keys_unique(final(self).hex_to_coords@),
            *final(self) == (Sector { hex_to_coords: final(self).hex_to_coords, ..*old(self) }),
            exists|ws: Seq<World>|
                #[trigger] worlds_read(ws, lines_spec(text@), lines_spec(text@).len() as int, old(self).location) && atlas_map(
                    final(worlds)@,
                    final(coords)@,
                ) == filed_all(atlas_map(old(worlds)@, old(coords)@), ws) && keyed_map(final(self).hex_to_coords@) == hexes_all(
                    keyed_map(old(self).hex_to_coords@),
                    ws,
                ),
    {
        let lines = text_lines(text);
        let ghost ls = lines_spec(text@);
        let ghost m0 = atlas_map(worlds@, coords@);
        let ghost h0 = keyed_map(self.hex_to_coords@);
        let ghost s0 = *self;
        let ghost mut ws: Seq<World> = seq![];
        let hex_prefix: Vec<char> = vec!['H', 'e', 'x'];
        let rule_prefix: Vec<char> = vec!['-', '-', '-'];
        let mut header = String::new();
        let mut fields: Vec<(usize, usize, String)> = Vec::new();
        let mut i: usize = 0;
        while i < lines.len()
            invariant
                lines@.len() == ls.len(),
                forall|k: int| 0 <= k < lines@.len() ==> #[trigger] lines@[k]@ == ls[k],
                column_data_ok(ls, s0.location),
                hex_prefix@ == seq!['H', 'e', 'x'],
                rule_prefix@ == seq!['-', '-', '-'],
                *self == (Sector { hex_to_coords: self.hex_to_coords, ..s0 }),
                i <= ls.len(),
                header@ == header_before(ls, i as int),
                fields_match(fields@, fields_source(ls, i as int)),
                atlas_ok(worlds@, coords@),
                keys_unique(self.hex_to_coords@),
                worlds_read(ws, ls, i as int, s0.location),
                atlas_map(worlds@, coords@) == filed_all(m0, ws),
                keyed_map(self.hex_to_coords@) == hexes_all(h0, ws),
            decreases ls.len() - i,
        {
            let line = &lines[i];
            let cs = chars_of(line.as_str());
            let ghost l = ls[i as int];
            assert(cs@ == l);
            if cs.len() == 0 || cs[0] == '#' {
                proof {
                    lemma_other_line(ws, ls, i as int, s0.location);
                }
            } else if line_starts_with(&cs, &hex_prefix) {
                header = line.clone();
                proof {
                    lemma_other_line(ws, ls, i as int, s0.location);
                }
            } else if line_starts_with(&cs, &rule_prefix) {
                assert(separator_line(ls[i as int]));
                fields = parse_header_and_separator(header.as_str(), line.as_str());
                proof {
                    lemma_other_line(ws, ls, i as int, s0.location);
                }
            } else {
                assert(record_line(ls[i as int]));
                let world = World::new(line.clone(), fields.as_slice(), self.location);
                assert(fields_match(fields@, fields_source(ls, i as int)));
                assert(world.locatable());
                let wc = world.get_coords();
                let hex = world.hex.clone();
                let ghost w = world;
                map_insert(&mut self.hex_to_coords, hex, wc);
                insert_world(worlds, coords, world);
                proof {
                    lemma_record_line(ws, w, fields@, ls, i as int, s0.location);
                    assert(ws.push(w).drop_last() =~= ws);
                    ws = ws.push(w);
                }
            }
            i += 1;
        }
        proof {
            assert(worlds_read(ws, ls, ls.len() as int, s0.location));
        }
    }
}

/// `column_data_ok` over the first `n` lines.
pub open spec fn column_data_ok_upto(lines: Seq<Seq<char>>, location: (i64, i64), n: int) -> bool {
    &&& forall|i: int| 0 <= i < n && #[trigger] separator_line(lines[i]) ==> header_fits(header_before(lines, i), lines[i])
    &&& forall|i: int, f: Seq<(usize, usize, String)>|
        #![trigger fields_match(f, fields_source(lines, i)), record_line(lines[i])]
        0 <= i < n && record_line(lines[i]) && fields_match(f, fields_source(lines, i)) ==> position_ok(
            text_of(last_text(lines[i], f, f.len() as int, ColumnKind::Hex)),
            location,
        )
}

/// Whether the lines of a sector's data can be read (`column_data_ok`).
pub fn column_data_checked(text: &str, location: (i64, i64)) -> (b: bool)
    ensures
        b == column_data_ok(lines_spec(text@), location),
{
    let lines = text_lines(text);
    let ghost ls = lines_spec(text@);
    let hex_prefix: Vec<char> = vec!['H', 'e', 'x'];
    let rule_prefix: Vec<char> = vec!['-', '-', '-'];
    let mut header = String::new();
    let mut fields: Vec<(usize, usize, String)> = Vec::new();
    let mut i: usize = 0;
    while i < lines.len()
        invariant
            ls == lines_spec(text@),
            lines@.len() == ls.len(),
            forall|k: int| 0 <= k < lines@.len() ==> #[trigger] lines@[k]@ == ls[k],
            hex_prefix@ == seq!['H', 'e', 'x'],
            rule_prefix@ == seq!['-', '-', '-'],
            i <= ls.len(),
            header@ == header_before(ls, i as int),
            fields_match(fields@, fields_source(ls, i as int)),
            column_data_ok_upto(ls, location, i as int),
        decreases ls.len() - i,
    {
        let line = &lines[i];
        let cs = chars_of(line.as_str());
        assert(cs@ == ls[i as int]);
        if cs.len() == 0 || cs[0] == '#' {
        } else if line_starts_with(&cs, &hex_prefix) {
            header = line.clone();
        } else if line_starts_with(&cs, &rule_prefix) {
            assert(separator_line(ls[i as int]));
            if !header_fits_check(header.as_str(), line.as_str()) {
                proof {
                    assert(!header_fits(header_before(ls, i as int), ls[i as int]));
                    assert(!column_data_ok(ls, location));
                }
                return false;
            }
            fields = parse_header_and_separator(header.as_str(), line.as_str());
        } else {
            assert(record_line(ls[i as int]));
            let world = World::new(line.clone(), fields.as_slice(), location);
            if !world.is_locatable() {
                proof {
                    assert(line@ == ls[i as int]);
                    assert(!position_ok(text_of(last_text(ls[i as int], fields@, fields@.len() as int, ColumnKind::Hex)), location));
                    assert(fields_match(fields@, fields_source(ls, i as int)));
                    assert(!column_data_ok(ls, location));
                }
                return false;
            }
            proof {
                assert forall|f: Seq<(usize, usize, String)>| #[trigger] fields_match(f, fields_source(ls, i as int)) implies position_ok(
                    text_of(last_text(ls[i as int], f, f.len() as int, ColumnKind::Hex)),
                    location,
                ) by {
                    lemma_fields_match_same(f, fields@, fields_source(ls, i as int));
                    lemma_last_text_same(ls[i as int], f, fields@, f.len() as int, ColumnKind::Hex);
                }
            }
        }
        i += 1;
    }
    true
}

proof fn lemma_fields_match_same(f1: Seq<(usize, usize, String)>, f2: Seq<(usize, usize, String)>, src: Option<(Seq<char>, Seq<char>)>)
    requires
        fields_match(f1, src),
        fields_match(f2, src),
    ensures
        f1.len() == f2.len(),
        forall|k: int| 0 <= k < f1.len() ==> (#[trigger] f1[k]).0 == f2[k].0 && f1[k].1 == f2[k].1 && f1[k].2@ == f2[k].2@,
{
    match src {
        None => {},
        Some((h, s)) => {
            assert forall|k: int| 0 <= k < f1.len() implies (#[trigger] f1[k]).0 == f2[k].0 && f1[k].1 == f2[k].1 && f1[k].2@ == f2[k].2@ by {
                let (a, b) = (f1[k], f2[k]);
            }
        },
    }
}

impl Sector {
    /// Reads a sector's data file as `parse_column_data` does, after making
    /// sure that it can be read; where it cannot, nothing changes.
    pub fn read_column_data(&mut self, text: &str, worlds: &mut Vec<World>, coords: &mut Vec<Coords>) -> (r: Result<(), SectorError>)
        requires
            atlas_ok(old(worlds)@, old(coords)@),
            keys_unique(old(self).hex_to_coords@),
        ensures
            r is Ok <==> column_data_ok(lines_spec(text@), old(self).location),
            r is Err ==> r == Err::<(), SectorError>(SectorError::BadColumns) && *final(self) == *old(self) && final(worlds)@ == old(
                worlds,
            )@ && final(coords)@ == old(coords)@,
            r is Ok ==> {
                &&& atlas_ok(final(worlds)@, final(coords)@)
                &&& keys_unique(final(self).hex_to_coords@)
                &&& *final(self) == (Sector { hex_to_coords: final(self).hex_to_coords, ..*old(self) })
                &&& exists|ws: Seq<World>|
                    #[trigger] worlds_read(ws, lines_spec(text@), lines_spec(text@).len() as int, old(self).location) && atlas_map(
                        final(worlds)@,
                        final(coords)@,
                    ) == filed_all(atlas_map(old(worlds)@, old(coords)@), ws) && keyed_map(final(self).hex_to_coords@) == hexes_all(
                        keyed_map(old(self).hex_to_coords@),
                        ws,
                    )
            },
    {
        if !column_data_checked(text, self.location) {
            return Err(SectorError::BadColumns);
        }
        self.parse_column_data(text, worlds, coords);
        Ok(())
    }
}

proof fn lemma_other_line(ws: Seq<World>, ls: Seq<Seq<char>>, i: int, location: (i64, i64))
    requires
        0 <= i < ls.len(),
        !record_line(ls[i]),
        worlds_read(ws, ls, i, location),
    ensures
        worlds_read(ws, ls, i + 1, location),
{
    assert(records_before(ls, i + 1) == records_before(ls, i));
    assert forall|j: int| 0 <= j < i + 1 && record_line(ls[j]) implies exists|f: Seq<(usize, usize, String)>|
        fields_match(f, fields_source(ls, j)) && #[trigger] read_from(ws[records_before(ls, j)], ls[j], f, location) by {
        assert(j < i);
    }
}

proof fn lemma_record_line(ws: Seq<World>, w: World, f0: Seq<(usize, usize, String)>, ls: Seq<Seq<char>>, i: int, location: (i64, i64))
    requires
        0 <= i < ls.len(),
        record_line(ls[i]),
        worlds_read(ws, ls, i, location),
        fields_match(f0, fields_source(ls, i)),
        read_from(w, ls[i], f0, location),
    ensures
        worlds_read(ws.push(w), ls, i + 1, location),
{
    let ws2 = ws.push(w);
    assert(records_before(ls, i + 1) == records_before(ls, i) + 1);
    assert(read_from(ws2[records_before(ls, i)], ls[i], f0, location));
    assert forall|j: int| 0 <= j < i + 1 && record_line(ls[j]) implies exists|f: Seq<(usize, usize, String)>|
        fields_match(f, fields_source(ls, j)) && #[trigger] read_from(ws2[records_before(ls, j)], ls[j], f, location) by {
        if j < i {
            let f = choose|f: Seq<(usize, usize, String)>|
                fields_match(f, fields_source(ls, j)) && #[trigger] read_from(ws[records_before(ls, j)], ls[j], f, location);
            lemma_records_before_grow(ls, j + 1, i);
            lemma_records_before_grow(ls, 0, j);
            assert(records_before(ls, j + 1) == records_before(ls, j) + 1);
            assert(0 <= records_before(ls, j) < ws.len());
            assert(ws2[records_before(ls, j)] == ws[records_before(ls, j)]);
            assert(read_from(ws2[records_before(ls, j)], ls[j], f, location));
        } else {
            assert(read_from(ws2[records_before(ls, j)], ls[j], f0, location));
        }
    }
}

proof fn lemma_records_before_grow(lines: Seq<Seq<char>>, a: int, b: int)
    requires
        0 <= a <= b,
    ensures
        records_before(lines, a) <= records_before(lines, b),
        records_before(lines, a) >= 0,
    decreases b - a, a,
{
    if a < b {
        lemma_records_before_grow(lines, a, b - 1);
    } else if a > 0 {
        lemma_records_before_grow(lines, a - 1, a - 1);
    }
}

} // verus!

verus! {

/// The offsets of every route that is read fit with the location `loc`.
pub open spec fn route_offsets_fit(nodes: Seq<XmlNode>, loc: (i64, i64)) -> bool {
    forall|j: int|
        0 <= j < grouped(nodes, "Routes"@, "Route"@).len() && routes_fine_before(nodes, grouped(nodes, "Routes"@, "Route"@), j)
            ==> offsets_fit(loc, nodes[#[trigger] grouped(nodes, "Routes"@, "Route"@)[j] as int])
}

/// Tells whether each subsector index has a letter.
fn indices_checked(tree: &XmlTree) -> (b: bool)
    requires
        tree_ok(tree.nodes@),
    ensures
        b == indices_lettered(tree.nodes@),
{
    let ghost ps = grouped(tree.nodes@, "Subsectors"@, "Subsector"@);
    let items: Vec<usize> = match find(tree, 0, "Subsectors") {
        Some(g) => find_all(tree, g, "Subsector"),
        None => Vec::new(),
    };
    proof {
        assert(items@ == ps);
    }
    let mut i: usize = 0;
    while i < items.len()
        invariant
            ps == grouped(tree.nodes@, "Subsectors"@, "Subsector"@),
            items@ == ps,
            forall|k: int| 0 <= k < items@.len() ==> #[trigger] items@[k] < tree.nodes@.len(),
            i <= items@.len(),
            forall|k: int|
                0 <= k < i ==> match attr(tree.nodes@[#[trigger] ps[k] as int], "Index"@) {
                    Some(ix) => ix.len() > 0,
                    None => true,
                },
        decreases items@.len() - i,
    {
        let node = &tree.nodes[items[i]];
        proof {
            assert(*node == tree.nodes@[ps[i as int] as int]);
        }
        if let Some(ix) = get_attr(node, "Index") {
            if chars_of(ix.as_str()).len() == 0 {
                proof {
                    assert(attr(tree.nodes@[ps[i as int] as int], "Index"@) == Some(ix@));
                    assert(!indices_lettered(tree.nodes@));
                }
                return false;
            }
        }
        i += 1;
    }
    true
}

/// Tells whether the offsets of every route that is read fit with `loc`.
fn offsets_checked(tree: &XmlTree, loc: (i64, i64)) -> (b: bool)
    requires
        tree_ok(tree.nodes@),
    ensures
        b == route_offsets_fit(tree.nodes@, loc),
{
    let ghost nodes = tree.nodes@;
    let ghost ps = grouped(nodes, "Routes"@, "Route"@);
    let items: Vec<usize> = match find(tree, 0, "Routes") {
        Some(g) => find_all(tree, g, "Route"),
        None => Vec::new(),
    };
    proof {
        assert(items@ == ps);
    }
    let lo: i128 = -0x8000_0000_0000_0000;
    let hi: i128 = 0x7fff_ffff_ffff_ffff;
    let mut j: usize = 0;
    while j < items.len()
        invariant
            ps == grouped(nodes, "Routes"@, "Route"@),
            items@ == ps,
            nodes == tree.nodes@,
            forall|k: int| 0 <= k < items@.len() ==> #[trigger] items@[k] < nodes.len(),
            j <= items@.len(),
            routes_fine_before(nodes, ps, j as int),
            forall|k: int| 0 <= k < j ==> offsets_fit(loc, nodes[#[trigger] ps[k] as int]),
            lo == i64::MIN,
            hi == i64::MAX,
        decreases items@.len() - j,
    {
        let node = &tree.nodes[items[j]];
        proof {
            assert(*node == nodes[ps[j as int] as int]);
        }
        if get_attr(node, "Start").is_some() && get_attr(node, "End").is_some() {
            match route_offsets(node) {
                None => {
                    proof {
                        assert(route_fails(nodes[ps[j as int] as int]));
                        assert forall|k: int|
                            0 <= k < ps.len() && routes_fine_before(nodes, ps, k) implies offsets_fit(
                            loc,
                            nodes[#[trigger] ps[k] as int],
                        ) by {
                            if k > j {
                                assert(!route_fails(nodes[ps[j as int] as int]));
                            }
                        }
                        assert(route_offsets_fit(nodes, loc));
                    }
                    return true;
                },
                Some((sx, sy, ex, ey)) => {
                    let a = loc.0 as i128 + sx as i128;
                    let b = loc.1 as i128 + sy as i128;
                    let c = loc.0 as i128 + ex as i128;
                    let d = loc.1 as i128 + ey as i128;
                    if a < lo || a > hi || b < lo || b > hi || c < lo || c > hi || d < lo || d > hi {
                        proof {
                            assert(!offsets_fit(loc, nodes[ps[j as int] as int]));
                            assert(routes_fine_before(nodes, ps, j as int));
                            assert(!route_offsets_fit(nodes, loc));
                        }
                        return false;
                    }
                },
            }
        }
        proof {
            assert(offsets_fit(loc, nodes[ps[j as int] as int]));
            assert(!route_fails(nodes[ps[j as int] as int]));
            assert forall|k: int| 0 <= k < j + 1 implies !route_fails(nodes[#[trigger] ps[k] as int]) by {
                if k < j {
                    assert(routes_fine_before(nodes, ps, j as int));
                }
            }
        }
        j += 1;
    }
    true
}

impl Sector {
    /// Reads the sector's metadata from the bytes of its XML file, as
    /// `parse_xml_metadata` does. Bytes that are not an XML document, and a
    /// subsector index without a letter, are refused with the sector
    /// unchanged.
    pub fn read_xml_metadata(&mut self, text: &[u8]) -> (r: Result<(), SectorError>)
        requires
            old(self).maps_ok(),
        ensures
            match parsed_xml(text@) {
                None => r == Err::<(), SectorError>(SectorError::BadXml) && *final(self) == *old(self),
                Some(nodes) => if !indices_lettered(nodes) {
                    r == Err::<(), SectorError>(SectorError::UnletteredIndex) && *final(self) == *old(self)
                } else {
                    metadata_read(*old(self), *final(self), nodes, r is Ok) && (r is Err ==> r == Err::<(), SectorError>(
                        SectorError::BadNumber,
                    ))
                },
            },
    {
        let tree = match parse_xml(text) {
            Some(t) => t,
            None => return Err(SectorError::BadXml),
        };
        if !indices_checked(&tree) {
            return Err(SectorError::UnletteredIndex);
        }
        self.parse_xml_metadata(&tree)
    }

    /// Reads the sector's xboat routes from the bytes of its XML file, as
    /// `parse_xml_routes` does. Bytes that are not an XML document, and
    /// offsets that take the location beyond `i64`, are refused with the
    /// worlds unchanged.
    pub fn read_xml_routes(&self, text: &[u8], sectors: &Vec<Sector>, worlds: &mut Vec<World>, coords: &Vec<Coords>) -> (r: Result<(), SectorError>)
        requires
            atlas_ok(old(worlds)@, coords@),
            xboat_lists_ok(old(worlds)@),
            forall|i: int| 0 <= i < sectors@.len() ==> keys_unique((#[trigger] sectors@[i]).hex_to_coords@),
        ensures
            match parsed_xml(text@) {
                None => r == Err::<(), SectorError>(SectorError::BadXml) && final(worlds)@ == old(worlds)@,
                Some(nodes) => if !route_offsets_fit(nodes, self.location) {
                    r == Err::<(), SectorError>(SectorError::OffsetOverflow) && final(worlds)@ == old(worlds)@
                } else {
                    &&& xboat_read(sectors@, self.location, nodes, coords@, old(worlds)@, final(worlds)@, r is Ok)
                    &&& r is Err ==> r == Err::<(), SectorError>(SectorError::BadNumber)
                    &&& xboat_symmetric(old(worlds)@, coords@) ==> xboat_symmetric(final(worlds)@, coords@)
                },
            },
    {
        let tree = match parse_xml(text) {
            Some(t) => t,
            None => return Err(SectorError::BadXml),
        };
        if !offsets_checked(&tree, self.location) {
            return Err(SectorError::OffsetOverflow);
        }
        self.parse_xml_routes(&tree, sectors, worlds, coords)
    }
}

} // verus!

verus! {

/// Files a sector among the sectors by its location: it takes the place of
/// the sector at the same location, or joins the end.
pub fn add_sector(sectors: &mut Vec<Sector>, sector: Sector)
    ensures
        match sector_at(old(sectors)@, (sector.location.0 as int, sector.location.1 as int), 0) {
            Some(i) => final(sectors)@ == old(sectors)@.update(i, sector),
            None => final(sectors)@ == old(sectors)@.push(sector),
        },
{
    let found = find_sector(sectors, sector.location.0, sector.location.1);
    match found {
        Some(i) => {
            sectors.set(i, sector);
        },
        None => {
            sectors.push(sector);
        },
    }
}

} // verus!
