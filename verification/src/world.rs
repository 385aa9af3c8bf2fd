use vstd::prelude::*;
use vstd::std_specs::cmp::PartialEqSpecImpl;
use crate::apsp::INFINITY;
use crate::coords::Coords;
use crate::grid::{cells, shape, Matrix};
use crate::tables::{ddistance_modifier_spec, ddistance_modifier_table};
use crate::text::{contains_string, digit_value, string_is, string_of, string_starts_with, starts_with, to_digit};

verus! {

/// A world of a sector, with its trade data.
///
/// BTN and WTN values are half-integers; the methods here return them
/// doubled, as whole numbers (`dwtn` is twice the WTN, `dbtn` twice the BTN).
pub struct World {
    pub sector_location: (i64, i64),
    pub hex: String,
    pub name: String,
    pub uwp: String,
    pub trade_classifications: Vec<String>,
    pub importance: i64,
    pub economic: String,
    pub cultural: String,
    pub nobles: String,
    pub bases: Vec<String>,
    pub zone: char,
    pub pbg: String,
    pub worlds: u64,
    pub allegiance: String,
    pub stars: Vec<String>,
    pub endpoint_trade_credits: u64,
    pub transient_trade_credits: u64,
    pub xboat_routes: Vec<Coords>,
    pub dbtn_to_coords: Vec<Vec<Coords>>,
    pub major_routes: Vec<Coords>,
    pub main_routes: Vec<Coords>,
    pub intermediate_routes: Vec<Coords>,
    pub feeder_routes: Vec<Coords>,
    pub minor_routes: Vec<Coords>,
    pub neighbors: Vec<Vec<Coords>>,
    pub index: Option<usize>,
}

impl Clone for World {
    fn clone(&self) -> (w: World) {
        World {
            sector_location: self.sector_location,
            hex: self.hex.clone(),
            name: self.name.clone(),
            uwp: self.uwp.clone(),
            trade_classifications: self.trade_classifications.clone(),
            importance: self.importance,
            economic: self.economic.clone(),
            cultural: self.cultural.clone(),
            nobles: self.nobles.clone(),
            bases: self.bases.clone(),
            zone: self.zone,
            pbg: self.pbg.clone(),
            worlds: self.worlds,
            allegiance: self.allegiance.clone(),
            stars: self.stars.clone(),
            endpoint_trade_credits: self.endpoint_trade_credits,
            transient_trade_credits: self.transient_trade_credits,
            xboat_routes: self.xboat_routes.clone(),
            dbtn_to_coords: self.dbtn_to_coords.clone(),
            major_routes: self.major_routes.clone(),
            main_routes: self.main_routes.clone(),
            intermediate_routes: self.intermediate_routes.clone(),
            feeder_routes: self.feeder_routes.clone(),
            minor_routes: self.minor_routes.clone(),
            neighbors: self.neighbors.clone(),
            index: self.index,
        }
    }
}

/// Worlds are told apart by hex label and name.
impl PartialEq for World {
    fn eq(&self, other: &Self) -> (r: bool) {
        string_is(&self.hex, other.hex.as_str()) && string_is(&self.name, other.name.as_str())
    }
}

impl Eq for World {
}

impl PartialEqSpecImpl for World {
    open spec fn obeys_eq_spec() -> bool {
        true
    }

    open spec fn eq_spec(&self, other: &World) -> bool {
        self.hex@ == other.hex@ && self.name@ == other.name@
    }
}

/// The GURPS starport class of a Traveller starport code, 5 for "V" down to
/// 0 for "0"; an unknown port counts as none.
pub open spec fn starport_class(c: char) -> Option<int> {
    if c == 'A' {
        Some(5)
    } else if c == 'B' {
        Some(4)
    } else if c == 'C' {
        Some(3)
    } else if c == 'D' {
        Some(2)
    } else if c == 'E' {
        Some(1)
    } else if c == 'X' || c == '?' {
        Some(0)
    } else {
        None
    }
}

/// A starport class from 0 to 5 as a Roman numeral, "0" for none.
pub open spec fn roman_class(class: int) -> Seq<char> {
    if class == 5 {
        seq!['V']
    } else if class == 4 {
        seq!['I', 'V']
    } else if class == 3 {
        seq!['I', 'I', 'I']
    } else if class == 2 {
        seq!['I', 'I']
    } else if class == 1 {
        seq!['I']
    } else {
        seq!['0']
    }
}

/// GURPS tech level for each Traveller tech level 0 to 23.
pub open spec fn tech_table() -> Seq<u64> {
    seq![2u64, 4, 5, 5, 5, 6, 6, 7, 8, 9, 9, 9, 10, 10, 11, 12, 13, 13, 14, 14, 14, 14, 14, 14]
}

/// The Traveller tech level of a tech code (an unknown one counts as 0),
/// read as a base-24 digit.
pub open spec fn tech_code_value(c: char) -> Option<u32> {
    digit_value(if c == '?' || c == 'X' { '0' } else { c }, 24)
}

/// The WTN port modifier, doubled, by whole UWTN (0 to 7) and starport class.
pub open spec fn dport_modifier(iuwtn: int, class: int) -> int {
    let row: Seq<int> = if iuwtn == 7 {
        seq![-10, -5, -4, -3, -2, 0]
    } else if iuwtn == 6 {
        seq![-9, -4, -3, -2, -1, 0]
    } else if iuwtn == 5 {
        seq![-8, -3, -2, -1, 0, 0]
    } else if iuwtn == 4 {
        seq![-7, -2, -1, 0, 0, 1]
    } else if iuwtn == 3 {
        seq![-6, -1, 0, 0, 1, 1]
    } else if iuwtn == 2 {
        seq![-5, 0, 0, 1, 1, 2]
    } else if iuwtn == 1 {
        seq![0, 0, 0, 1, 2, 2]
    } else {
        seq![0, 1, 1, 2, 2, 3]
    };
    row[class]
}

/// Whether a character is alphabetic or numeric in Unicode.
pub uninterp spec fn alphanumeric(c: char) -> bool;

/// An ASCII letter or digit.
pub open spec fn ascii_alphanumeric(c: char) -> bool {
    '0' <= c <= '9' || 'a' <= c <= 'z' || 'A' <= c <= 'Z'
}

/// The population code counts towards the UWTN: an alphanumeric character
/// other than `X` (so an ASCII letter or digit other than `X`, no other
/// ASCII character, and beyond ASCII whatever Unicode calls alphanumeric).
pub open spec fn population_counted(p: char) -> bool {
    if ascii_alphanumeric(p) {
        p != 'X'
    } else if (p as u32) < 128 {
        false
    } else {
        alphanumeric(p) && p != 'X'
    }
}

/// Calls `char::is_alphanumeric`: true for the Unicode alphabetic and
/// numeric characters, so for the ASCII letters and digits and for no other
/// ASCII character. Beyond ASCII the answer is only named.
#[verifier::external_body]
pub(crate) fn is_alphanumeric(c: char) -> (b: bool)
    ensures
        b == alphanumeric(c),
        ascii_alphanumeric(c) ==> b,
        (c as u32) < 128 && !ascii_alphanumeric(c) ==> !b,
{
    c.is_alphanumeric()
}

/// Both allegiance codes are one and the same polity: equal, and not the
/// non-aligned (`Na`) or client-state (`Cs`) codes, which do not name one.
pub open spec fn same_allegiance_spec(a1: Seq<char>, a2: Seq<char>) -> bool {
    a1 == a2 && !starts_with(a1, "Na"@) && !starts_with(a1, "Cs"@)
}

pub fn same_allegiance(allegiance1: &String, allegiance2: &String) -> (b: bool)
    ensures
        b == same_allegiance_spec(allegiance1@, allegiance2@),
{
    if !(*allegiance1 == *allegiance2) {
        return false;
    }
    if string_starts_with(allegiance1, "Na") || string_starts_with(allegiance1, "Cs") {
        return false;
    }
    true
}

impl World {
    /// The universal world profile and the planetoid-belt-gas-giant field
    /// are long enough to read the codes that refuelling depends on: the
    /// starport and hydrographics digits, and the gas giant count.
    pub open spec fn refuel_readable(&self) -> bool {
        self.uwp@.len() >= 4 && self.pbg@.len() >= 3
    }

    pub open spec fn has_code(&self, code: Seq<char>) -> bool {
        exists|k: int| 0 <= k < self.trade_classifications@.len() && (#[trigger] self.trade_classifications@[k])@ == code
    }

    fn uwp_char(&self, k: usize) -> (c: char)
        requires
            k < self.uwp@.len(),
        ensures
            c == self.uwp@[k as int],
    {
        self.uwp.as_str().get_char(k)
    }

    pub fn starport(&self) -> (c: char)
        requires
            self.uwp@.len() >= 1,
        ensures
            c == self.uwp@[0],
    {
        self.uwp_char(0)
    }

    pub fn size(&self) -> (c: char)
        requires
            self.uwp@.len() >= 2,
        ensures
            c == self.uwp@[1],
    {
        self.uwp_char(1)
    }

    pub fn atmosphere(&self) -> (c: char)
        requires
            self.uwp@.len() >= 3,
        ensures
            c == self.uwp@[2],
    {
        self.uwp_char(2)
    }

    pub fn hydrosphere(&self) -> (c: char)
        requires
            self.uwp@.len() >= 4,
        ensures
            c == self.uwp@[3],
    {
        self.uwp_char(3)
    }

    pub fn population(&self) -> (c: char)
        requires
            self.uwp@.len() >= 5,
        ensures
            c == self.uwp@[4],
    {
        self.uwp_char(4)
    }

    pub fn government(&self) -> (c: char)
        requires
            self.uwp@.len() >= 6,
        ensures
            c == self.uwp@[5],
    {
        self.uwp_char(5)
    }

    pub fn law_level(&self) -> (c: char)
        requires
            self.uwp@.len() >= 7,
        ensures
            c == self.uwp@[6],
    {
        self.uwp_char(6)
    }

    pub fn tech_level(&self) -> (c: char)
        requires
            self.uwp@.len() >= 9,
        ensures
            c == self.uwp@[8],
    {
        self.uwp_char(8)
    }

    pub fn gas_giants(&self) -> (c: char)
        requires
            self.pbg@.len() >= 3,
        ensures
            c == self.pbg@[2],
    {
        self.pbg.as_str().get_char(2)
    }

    /// The GURPS starport class, 5 for "V" down to 0 for "0".
    pub fn g_starport_class(&self) -> (r: u8)
        requires
            self.uwp@.len() >= 1,
            starport_class(self.uwp@[0]) is Some,
        ensures
            r as int == starport_class(self.uwp@[0])->0,
    {
        let c = self.starport();
        if c == 'A' {
            5
        } else if c == 'B' {
            4
        } else if c == 'C' {
            3
        } else if c == 'D' {
            2
        } else if c == 'E' {
            1
        } else {
            0
        }
    }

    /// The GURPS starport class as a Roman numeral: "V" for a class A port
    /// down to "I" for class E, "0" for none.
    pub fn g_starport(&self) -> (s: String)
        requires
            self.uwp@.len() >= 1,
            starport_class(self.uwp@[0]) is Some,
        ensures
            s@ == roman_class(starport_class(self.uwp@[0])->0),
    {
        let class = self.g_starport_class();
        let v: Vec<char> = if class == 5 {
            vec!['V']
        } else if class == 4 {
            vec!['I', 'V']
        } else if class == 3 {
            vec!['I', 'I', 'I']
        } else if class == 2 {
            vec!['I', 'I']
        } else if class == 1 {
            vec!['I']
        } else {
            vec!['0']
        };
        string_of(v.as_slice())
    }

    /// The GURPS tech level.
    pub fn g_tech_level(&self) -> (r: u64)
        requires
            self.uwp@.len() >= 9,
            tech_code_value(self.uwp@[8]) is Some,
        ensures
            r == tech_table()[tech_code_value(self.uwp@[8])->0 as int],
    {
        let mut c = self.tech_level();
        if c == '?' || c == 'X' {
            c = '0';
        }
        let t = to_digit(c, 24).unwrap();
        let table: Vec<u64> = vec![2u64, 4, 5, 5, 5, 6, 6, 7, 8, 9, 9, 9, 10, 10, 11, 12, 13, 13, 14, 14, 14, 14, 14, 14];
        proof {
            assert(table@ =~= tech_table());
        }
        table[t as usize]
    }

    /// A world can refuel with gas giants, or with an unrestricted port that
    /// has refined fuel or water to skim.
    pub open spec fn can_refuel_spec(&self) -> bool {
        self.pbg@[2] != '0' || (self.zone != 'R' && ((self.uwp@[0] != 'E' && self.uwp@[0] != 'X') || self.uwp@[3] != '0'))
    }

    pub fn can_refuel(&self) -> (b: bool)
        requires
            self.refuel_readable(),
        ensures
            b == self.can_refuel_spec(),
    {
        self.gas_giants() != '0' || (self.zone != 'R' && ((self.starport() != 'E' && self.starport() != 'X')
            || self.hydrosphere() != '0'))
    }

    /// The codes of the universal world profile from which the trade numbers
    /// are computed are all known: the starport, the tech level, and the
    /// population digit where it counts.
    pub open spec fn codes_known(&self) -> bool {
        &&& self.uwp@.len() >= 9
        &&& starport_class(self.uwp@[0]) is Some
        &&& tech_code_value(self.uwp@[8]) is Some
        &&& (population_counted(self.uwp@[4]) ==> digit_value(self.uwp@[4], 16) is Some)
    }

    /// Twice the UWTN: a third of the GURPS tech level (rounded down), less
    /// one, plus the population digit when it is known.
    pub open spec fn duwtn_spec(&self) -> int {
        let gt3 = tech_table()[tech_code_value(self.uwp@[8])->0 as int] / 3;
        let p = self.uwp@[4];
        let pop: int = if population_counted(p) { digit_value(p, 16)->0 as int } else { 0 };
        gt3 - 1 + pop
    }

    pub fn duwtn(&self) -> (d: i64)
        requires
            self.codes_known(),
        ensures
            d == self.duwtn_spec(),
    {
        let gt3 = self.g_tech_level() / 3;
        let pop_char = self.population();
        let mut pop: i64 = 0;
        if is_alphanumeric(pop_char) && pop_char != 'X' {
            pop = to_digit(pop_char, 16).unwrap() as i64;
        }
        gt3 as i64 - 1 + pop
    }

    /// The whole part of the UWTN, which indexes the port modifier table.
    pub open spec fn iuwtn_spec(&self) -> int {
        if self.duwtn_spec() < 0 { 0 } else { self.duwtn_spec() / 2 }
    }

    pub open spec fn dwtn_port_modifier_spec(&self) -> int {
        dport_modifier(self.iuwtn_spec(), starport_class(self.uwp@[0])->0)
    }

    /// Twice the WTN port modifier, from the whole UWTN and the starport.
    pub fn dwtn_port_modifier(&self) -> (d: i64)
        requires
            self.codes_known(),
            self.iuwtn_spec() <= 7,
        ensures
            d == self.dwtn_port_modifier_spec(),
    {
        let duwtn = self.duwtn();
        let iuwtn: i64 = if duwtn < 0 { 0 } else { duwtn / 2 };
        let class = self.g_starport_class();
        let row: Vec<i64> = if iuwtn == 7 {
            vec![-10i64, -5, -4, -3, -2, 0]
        } else if iuwtn == 6 {
            vec![-9i64, -4, -3, -2, -1, 0]
        } else if iuwtn == 5 {
            vec![-8i64, -3, -2, -1, 0, 0]
        } else if iuwtn == 4 {
            vec![-7i64, -2, -1, 0, 0, 1]
        } else if iuwtn == 3 {
            vec![-6i64, -1, 0, 0, 1, 1]
        } else if iuwtn == 2 {
            vec![-5i64, 0, 0, 1, 1, 2]
        } else if iuwtn == 1 {
            vec![0i64, 0, 0, 1, 2, 2]
        } else {
            vec![0i64, 1, 1, 2, 2, 3]
        };
        proof {
            assert(row@.len() == 6);
            assert(row@[class as int] == dport_modifier(iuwtn as int, class as int));
        }
        row[class as usize]
    }

    pub open spec fn dwtn_spec(&self) -> int {
        self.duwtn_spec() + self.dwtn_port_modifier_spec()
    }

    /// Twice the WTN: the UWTN plus the port modifier.
    pub fn dwtn(&self) -> (d: i64)
        requires
            self.codes_known(),
            self.iuwtn_spec() <= 7,
        ensures
            d == self.dwtn_spec(),
    {
        self.duwtn() + self.dwtn_port_modifier()
    }

    /// Twice the WTCM: a half-BTN bonus for agricultural trade with
    /// extreme or non-agricultural worlds, another for industrial trade with
    /// non-industrial worlds, and a half-BTN penalty across allegiances.
    pub open spec fn dwtcm_spec(&self, other: &World) -> int {
        let ag: int = if (self.has_code("Ag"@) && (other.has_code("Ex"@) || other.has_code("Na"@))) || (other.has_code(
            "Ag"@,
        ) && (self.has_code("Ex"@) || self.has_code("Na"@))) {
            1
        } else {
            0
        };
        let ind: int = if (self.has_code("In"@) && other.has_code("Ni"@)) || (other.has_code("In"@) && self.has_code("Ni"@)) {
            1
        } else {
            0
        };
        let pen: int = if !same_allegiance_spec(self.allegiance@, other.allegiance@) { 1 } else { 0 };
        ag + ind - pen
    }

    pub fn dwtcm(&self, other: &World) -> (d: i64)
        ensures
            d == self.dwtcm_spec(other),
    {
        let mut result: i64 = 0;
        if (contains_string(&self.trade_classifications, "Ag") && (contains_string(&other.trade_classifications, "Ex")
            || contains_string(&other.trade_classifications, "Na"))) || (contains_string(&other.trade_classifications, "Ag")
            && (contains_string(&self.trade_classifications, "Ex") || contains_string(&self.trade_classifications, "Na"))) {
            result += 1;
        }
        if (contains_string(&self.trade_classifications, "In") && contains_string(&other.trade_classifications, "Ni"))
            || (contains_string(&other.trade_classifications, "In") && contains_string(&self.trade_classifications, "Ni")) {
            result += 1;
        }
        if !same_allegiance(&self.allegiance, &other.allegiance) {
            result -= 1;
        }
        result
    }

    /// Members of the Third Imperium or its client states.
    pub open spec fn imperial_affiliated_spec(&self) -> bool {
        self.allegiance@ == "CsIm"@ || starts_with(self.allegiance@, "Im"@)
    }

    pub fn imperial_affiliated(&self) -> (b: bool)
        ensures
            b == self.imperial_affiliated_spec(),
    {
        string_is(&self.allegiance, "CsIm") || string_starts_with(&self.allegiance, "Im")
    }

    /// The shortest jump distance to `other` in a matrix of shortest distances.
    pub fn navigable_distance(&self, other: &World, dist: &Matrix) -> (d: u16)
        requires
            self.index is Some,
            other.index is Some,
            self.index->0 < shape(*dist).0,
            other.index->0 < shape(*dist).1,
        ensures
            d == cells(*dist)[(self.index->0 as int, other.index->0 as int)],
    {
        let ii = self.index.unwrap();
        let jj = other.index.unwrap();
        dist.get(ii, jj)
    }

    /// The distance modifier of the shortest jump distance to `other`, in
    /// half BTN units.
    pub fn ddistance_modifier(&self, other: &World, dist: &Matrix) -> (d: u16)
        requires
            self.index is Some,
            other.index is Some,
            self.index->0 < shape(*dist).0,
            other.index->0 < shape(*dist).1,
        ensures
            d as int == ddistance_modifier_spec(cells(*dist)[(self.index->0 as int, other.index->0 as int)]),
    {
        ddistance_modifier_table(self.navigable_distance(other, dist))
    }

    /// The passenger BTN bonus of one world, doubled: one for each of rich,
    /// sector capital and subsector capital.
    pub open spec fn dpassenger_bonus_spec(&self) -> int {
        (if self.has_code("Ri"@) { 1int } else { 0 }) + (if self.has_code("Cp"@) { 1int } else { 0 }) + (if self.has_code(
            "Cs"@,
        ) {
            1int
        } else {
            0
        })
    }

    fn dpassenger_bonus(&self) -> (d: i64)
        ensures
            d == self.dpassenger_bonus_spec(),
    {
        let mut d: i64 = 0;
        if contains_string(&self.trade_classifications, "Ri") {
            d += 1;
        }
        if contains_string(&self.trade_classifications, "Cp") {
            d += 1;
        }
        if contains_string(&self.trade_classifications, "Cs") {
            d += 1;
        }
        d
    }

    /// Twice the BTN between two worlds: the sum of their WTNs and the WTCM,
    /// less the distance modifier, plus the passenger bonuses when asked;
    /// never above the smaller WTN plus five, never below zero.
    pub open spec fn dbtn_spec(&self, other: &World, distance: u16, passenger: bool) -> int {
        let w1 = self.dwtn_spec();
        let w2 = other.dwtn_spec();
        let min_w = if w1 <= w2 { w1 } else { w2 };
        let raw = w1 + w2 + self.dwtcm_spec(other) - ddistance_modifier_spec(distance) + if passenger {
            self.dpassenger_bonus_spec() + other.dpassenger_bonus_spec()
        } else {
            0
        };
        let capped = if raw <= min_w + 10 { raw } else { min_w + 10 };
        if capped >= 0 { capped } else { 0 }
    }

    pub fn dbtn(&self, other: &World, dist: &Matrix, passenger: bool) -> (d: usize)
        requires
            self.codes_known(),
            other.codes_known(),
            self.iuwtn_spec() <= 7,
            other.iuwtn_spec() <= 7,
            self.index is Some,
            other.index is Some,
            self.index->0 < shape(*dist).0,
            other.index->0 < shape(*dist).1,
        ensures
            d as int == self.dbtn_spec(
                other,
                cells(*dist)[(self.index->0 as int, other.index->0 as int)],
                passenger,
            ),
    {
        let w1 = self.dwtn();
        let w2 = other.dwtn();
        let min_w = if w1 <= w2 { w1 } else { w2 };
        let mut raw = w1 + w2 + self.dwtcm(other) - self.ddistance_modifier(other, dist) as i64;
        if passenger {
            raw = raw + self.dpassenger_bonus() + other.dpassenger_bonus();
        }
        let capped = if raw <= min_w + 10 { raw } else { min_w + 10 };
        if capped >= 0 {
            capped as usize
        } else {
            0
        }
    }

    /// The port size: the WTN, less half for non-Imperial worlds, plus one
    /// and a half with neighbors one jump away (else one with neighbors two
    /// jumps away), rounded up, and raised to 6 on xboat or major routes, 5 on
    /// main, intermediate or feeder routes, 4 on minor routes.
    pub open spec fn port_size_spec(&self) -> int {
        let d = self.dwtn_spec() - (if !self.imperial_affiliated_spec() { 1int } else { 0 }) + if self.neighbors@[1]@.len()
            > 0 {
            3int
        } else if self.neighbors@.len() > 2 && self.neighbors@[2]@.len() > 0 {
            2int
        } else {
            0
        };
        let ceil = if d % 2 == 0 { d / 2 } else { d / 2 + 1 };
        let raised = if self.xboat_routes@.len() > 0 || self.major_routes@.len() > 0 {
            if ceil < 6 { 6 } else { ceil }
        } else if self.main_routes@.len() > 0 || self.intermediate_routes@.len() > 0 || self.feeder_routes@.len() > 0 {
            if ceil < 5 { 5 } else { ceil }
        } else if self.minor_routes@.len() > 0 && ceil < 4 {
            4
        } else {
            ceil
        };
        if raised < 0 { 0 } else { raised }
    }

    pub fn port_size(&self) -> (p: u64)
        requires
            self.codes_known(),
            self.iuwtn_spec() <= 7,
            self.neighbors@.len() >= 2,
        ensures
            p as int == self.port_size_spec(),
    {
        let mut d = self.dwtn();
        if !self.imperial_affiliated() {
            d -= 1;
        }
        if self.neighbors[1].len() > 0 {
            d += 3;
        } else if self.neighbors.len() > 2 && self.neighbors[2].len() > 0 {
            d += 2;
        }
        let mut port_size: i64 = if d % 2 == 0 { d / 2 } else { (d + 1) / 2 };
        if self.xboat_routes.len() > 0 || self.major_routes.len() > 0 {
            if port_size < 6 {
                port_size = 6;
            }
        } else if self.main_routes.len() > 0 || self.intermediate_routes.len() > 0 || self.feeder_routes.len() > 0 {
            if port_size < 5 {
                port_size = 5;
            }
        } else if self.minor_routes.len() > 0 && port_size < 4 {
            port_size = 4;
        }
        if port_size < 0 {
            0
        } else {
            port_size as u64
        }
    }
}

}

verus! {

/// Refuelling: a world with gas giants can always refuel; without them, a
/// world in a red zone never can, and one outside a red zone can where its
/// starport is neither E nor X or where it has water.
pub proof fn law_can_refuel(w: World)
    requires
        w.refuel_readable(),
    ensures
        w.pbg@[2] != '0' ==> w.can_refuel_spec(),
        w.pbg@[2] == '0' && w.zone == 'R' ==> !w.can_refuel_spec(),
        w.pbg@[2] == '0' && w.zone != 'R' && w.uwp@[0] != 'E' && w.uwp@[0] != 'X' ==> w.can_refuel_spec(),
        w.pbg@[2] == '0' && w.zone != 'R' && w.uwp@[3] != '0' ==> w.can_refuel_spec(),
        w.pbg@[2] == '0' && (w.uwp@[0] == 'E' || w.uwp@[0] == 'X') && w.uwp@[3] == '0' ==> !w.can_refuel_spec(),
{
}

/// The passenger BTN of two worlds is their freight BTN plus one half for
/// each of the codes Ri, Cp and Cs that either world has, as long as neither
/// the floor at zero nor the cap at the smaller WTN plus five is reached.
pub proof fn law_passenger_bonus(a: World, b: World, distance: u16)
    requires
        ({
            let w1 = a.dwtn_spec();
            let w2 = b.dwtn_spec();
            let min_w = if w1 <= w2 { w1 } else { w2 };
            let raw = w1 + w2 + a.dwtcm_spec(&b) - ddistance_modifier_spec(distance);
            let bonus = (if a.has_code("Ri"@) { 1int } else { 0 }) + (if a.has_code("Cp"@) { 1int } else { 0 }) + (if a.has_code("Cs"@) {
                1int
            } else {
                0
            }) + (if b.has_code("Ri"@) { 1int } else { 0 }) + (if b.has_code("Cp"@) { 1int } else { 0 }) + (if b.has_code("Cs"@) {
                1int
            } else {
                0
            });
            raw >= 0 && raw + bonus <= min_w + 10
        }),
    ensures
        a.dbtn_spec(&b, distance, true) == a.dbtn_spec(&b, distance, false) + (if a.has_code("Ri"@) { 1int } else { 0 }) + (if a.has_code(
            "Cp"@,
        ) {
            1int
        } else {
            0
        }) + (if a.has_code("Cs"@) { 1int } else { 0 }) + (if b.has_code("Ri"@) { 1int } else { 0 }) + (if b.has_code("Cp"@) {
            1int
        } else {
            0
        }) + (if b.has_code("Cs"@) { 1int } else { 0 }),
{
}

/// The port size: with `d` the doubled WTN, less one outside the Third
/// Imperium and its client states, plus three with neighbors one jump away
/// (else two with neighbors two jumps away), and `m` the least size of its
/// routes (6 on an xboat or major route, else 5 on a main, intermediate or
/// feeder route, else 4 on a minor route, else 0), the port size is the
/// larger of `m` and `d` halved and rounded up, and never below zero.
pub proof fn law_port_size(w: World)
    requires
        w.neighbors@.len() >= 2,
    ensures
        ({
            let imperial = w.allegiance@ == "CsIm"@ || starts_with(w.allegiance@, "Im"@);
            let bonus = if w.neighbors@[1]@.len() > 0 {
                3int
            } else if w.neighbors@.len() > 2 && w.neighbors@[2]@.len() > 0 {
                2int
            } else {
                0int
            };
            let d = w.dwtn_spec() - (if imperial { 0int } else { 1int }) + bonus;
            let m = if w.xboat_routes@.len() > 0 || w.major_routes@.len() > 0 {
                6int
            } else if w.main_routes@.len() > 0 || w.intermediate_routes@.len() > 0 || w.feeder_routes@.len() > 0 {
                5int
            } else if w.minor_routes@.len() > 0 {
                4int
            } else {
                0int
            };
            let p = w.port_size_spec();
            &&& p >= 0
            &&& p >= m
            &&& 2 * p >= d
            &&& (p == m || p == 0 || 2 * p <= d + 1)
        }),
{
}

/// The trade number between two worlds does not depend on which of them is
/// named first: the WTCM, the passenger bonuses and the cap at the smaller
/// WTN are all symmetric.
pub proof fn lemma_dbtn_symmetric(a: World, b: World, distance: u16, passenger: bool)
    ensures
        a.dbtn_spec(&b, distance, passenger) == b.dbtn_spec(&a, distance, passenger),
        a.dwtcm_spec(&b) == b.dwtcm_spec(&a),
{
}

} // verus!
