use vstd::prelude::*;
use crate::coords::Coords;
use crate::tables::{credits_table, dbtn_to_credits};
use crate::world::World;
use crate::text::{
    chars_of, contains_string, parse_i64, parse_i64_spec, parse_u64, parse_u64_spec, same_chars, split_whitespace,
    string_is, string_of, trim, trim_chars, trim_matches, trim_whitespace, words,
};

verus! {

/// The number of bytes that `c` takes in UTF-8.
pub open spec fn char_utf8_len(c: char) -> int {
    if (c as u32) < 0x80 {
        1
    } else if (c as u32) < 0x800 {
        2
    } else if (c as u32) < 0x10000 {
        3
    } else {
        4
    }
}

/// The number of bytes that `s` takes in UTF-8, `str::len`.
pub open spec fn utf8_len(s: Seq<char>) -> int
    decreases s.len(),
{
    if s.len() == 0 {
        0
    } else {
        utf8_len(s.drop_last()) + char_utf8_len(s.last())
    }
}

fn utf8_len_of(s: &Vec<char>) -> (n: u128)
    ensures
        n == utf8_len(s@),
{
    let mut n: u128 = 0;
    let mut i: usize = 0;
    while i < s.len()
        invariant
            i <= s@.len(),
            n == utf8_len(s@.take(i as int)),
            n <= 4 * i,
        decreases s@.len() - i,
    {
        let c = s[i];
        let u = c as u32;
        let w: u128 = if u < 0x80 {
            1
        } else if u < 0x800 {
            2
        } else if u < 0x10000 {
            3
        } else {
            4
        };
        proof {
            assert(s@.take(i + 1).drop_last() =~= s@.take(i as int));
        }
        n = n + w;
        i += 1;
    }
    proof {
        assert(s@.take(s@.len() as int) =~= s@);
    }
    n
}

/// Where the column of the `k`-th separator word starts: each column is as
/// wide as its run of hyphens, and one space separates columns.
pub open spec fn column_start(seps: Seq<Seq<char>>, k: int) -> int
    decreases k,
{
    if k <= 0 {
        0
    } else {
        column_start(seps, k - 1) + utf8_len(seps[k - 1]) + 1
    }
}

/// There are names for all the columns of the separator line, and the
/// columns' positions fit in `usize`.
pub open spec fn header_fits(header: Seq<char>, separator: Seq<char>) -> bool {
    &&& words(separator).len() <= words(header).len()
    &&& column_start(words(separator), words(separator).len() as int) <= usize::MAX
}

/// `fields` holds `(start, end, name)` for each column of the separator
/// line: each run of hyphens, in bytes, with one byte between runs, named by
/// the word of the header line in the same place.
pub open spec fn fields_for(fields: Seq<(usize, usize, String)>, header: Seq<char>, separator: Seq<char>) -> bool {
    &&& fields.len() == words(separator).len()
    &&& forall|k: int|
        0 <= k < fields.len() ==> {
            let f = #[trigger] fields[k];
            &&& f.0 == column_start(words(separator), k)
            &&& f.1 == column_start(words(separator), k) + utf8_len(words(separator)[k])
            &&& f.2@ == words(header)[k]
        }
}

/// Reads a header line of column names and the separator line of hyphen runs
/// below it into `(start, end, name)` for each column.
pub fn parse_header_and_separator(header: &str, separator: &str) -> (fields: Vec<(usize, usize, String)>)
    requires
        header_fits(header@, separator@),
    ensures
        fields_for(fields@, header@, separator@),
{
    let hv = chars_of(header);
    let sv = chars_of(separator);
    let headers = split_whitespace(hv.as_slice());
    let separators = split_whitespace(sv.as_slice());
    let ghost seps = words(separator@);
    let mut fields: Vec<(usize, usize, String)> = Vec::new();
    let mut column: usize = 0;
    let mut ii: usize = 0;
    proof {
        lemma_column_start_mono(seps, 0, seps.len() as int);
    }
    while ii < separators.len()
        invariant
            seps == words(separator@),
            separators@.len() == seps.len(),
            forall|k: int| 0 <= k < separators@.len() ==> #[trigger] separators@[k]@ == seps[k],
            headers@.len() == words(header@).len(),
            forall|k: int| 0 <= k < headers@.len() ==> #[trigger] headers@[k]@ == words(header@)[k],
            seps.len() <= headers@.len(),
            column_start(seps, seps.len() as int) <= usize::MAX,
            ii <= seps.len(),
            column == column_start(seps, ii as int),
            fields@.len() == ii,
            forall|k: int|
                0 <= k < ii ==> {
                    let f = #[trigger] fields@[k];
                    &&& f.0 == column_start(seps, k)
                    &&& f.1 == column_start(seps, k) + utf8_len(seps[k])
                    &&& f.2@ == words(header@)[k]
                },
        decreases seps.len() - ii,
    {
        let hyphens = &separators[ii];
        proof {
            lemma_column_start_mono(seps, ii + 1, seps.len() as int);
            lemma_utf8_len_nonneg(hyphens@);
        }
        let width = utf8_len_of(hyphens) as usize;
        let field = string_of(headers[ii].as_slice());
        let start = column;
        let end = column + width;
        fields.push((start, end, field));
        column = column + width + 1;
        ii += 1;
    }
    fields
}

/// Whether a separator line can be read under a header line: it has no
/// more columns than the header has names, and its columns' positions fit
/// in `usize`.
pub fn header_fits_check(header: &str, separator: &str) -> (b: bool)
    ensures
        b == header_fits(header@, separator@),
{
    let hv = chars_of(header);
    let sv = chars_of(separator);
    let headers = split_whitespace(hv.as_slice());
    let separators = split_whitespace(sv.as_slice());
    if separators.len() > headers.len() {
        return false;
    }
    let ghost seps = words(separator@);
    let limit: u128 = usize::MAX as u128;
    let mut column: u128 = 0;
    let mut k: usize = 0;
    while k < separators.len()
        invariant
            seps == words(separator@),
            separators@.len() == seps.len(),
            forall|j: int| 0 <= j < separators@.len() ==> #[trigger] separators@[j]@ == seps[j],
            seps.len() <= words(header@).len(),
            limit == usize::MAX,
            k <= seps.len(),
            column == column_start(seps, k as int),
            column <= limit,
        decreases seps.len() - k,
    {
        let width = utf8_len_of(&separators[k]);
        if width > limit {
            proof {
                lemma_column_start_mono(seps, k + 1, seps.len() as int);
            }
            return false;
        }
        column = column + width + 1;
        if column > limit {
            proof {
                lemma_column_start_mono(seps, k + 1, seps.len() as int);
            }
            return false;
        }
        k += 1;
    }
    true
}

/// Two lists of columns with the same positions and names read the same text
/// from a line.
pub proof fn lemma_last_text_same(
    line: Seq<char>,
    f1: Seq<(usize, usize, String)>,
    f2: Seq<(usize, usize, String)>,
    n: int,
    kind: ColumnKind,
)
    requires
        f1.len() == f2.len(),
        0 <= n <= f1.len(),
        forall|k: int| 0 <= k < f1.len() ==> (#[trigger] f1[k]).0 == f2[k].0 && f1[k].1 == f2[k].1 && f1[k].2@ == f2[k].2@,
    ensures
        last_text(line, f1, n, kind) == last_text(line, f2, n, kind),
    decreases n,
{
    if n > 0 {
        lemma_cursor_same(line, f1, f2, n - 1);
        assert(f1[n - 1].0 == f2[n - 1].0 && f1[n - 1].1 == f2[n - 1].1 && f1[n - 1].2@ == f2[n - 1].2@);
        lemma_last_text_same(line, f1, f2, n - 1, kind);
    }
}

proof fn lemma_cursor_same(line: Seq<char>, f1: Seq<(usize, usize, String)>, f2: Seq<(usize, usize, String)>, k: int)
    requires
        f1.len() == f2.len(),
        0 <= k <= f1.len(),
        forall|j: int| 0 <= j < f1.len() ==> (#[trigger] f1[j]).0 == f2[j].0 && f1[j].1 == f2[j].1 && f1[j].2@ == f2[j].2@,
    ensures
        cursor(line, f1, k) == cursor(line, f2, k),
    decreases k,
{
    if k > 0 {
        lemma_cursor_same(line, f1, f2, k - 1);
        assert(f1[k - 1].1 == f2[k - 1].1);
    }
}

proof fn lemma_column_start_mono(seps: Seq<Seq<char>>, a: int, b: int)
    requires
        0 <= a <= b,
    ensures
        column_start(seps, a) <= column_start(seps, b),
    decreases b - a,
{
    if a < b {
        lemma_column_start_mono(seps, a, b - 1);
        lemma_utf8_len_nonneg(seps[b - 1]);
    }
}

proof fn lemma_utf8_len_nonneg(s: Seq<char>)
    ensures
        utf8_len(s) >= s.len(),
    decreases s.len(),
{
    if s.len() > 0 {
        lemma_utf8_len_nonneg(s.drop_last());
    }
}

/// The columns of a sector data file that a world record reads.
#[derive(Clone, Copy, Debug, PartialEq, Eq, Structural)]
pub enum ColumnKind {
    Hex,
    Name,
    Uwp,
    Remarks,
    Importance,
    Economic,
    Cultural,
    Nobles,
    Bases,
    Zone,
    Pbg,
    Worlds,
    Allegiance,
    Stellar,
    Other,
}

/// Which column a header name stands for.
pub open spec fn column_kind(name: Seq<char>) -> ColumnKind {
    if name == "Hex"@ {
        ColumnKind::Hex
    } else if name == "Name"@ {
        ColumnKind::Name
    } else if name == "UWP"@ {
        ColumnKind::Uwp
    } else if name == "Remarks"@ {
        ColumnKind::Remarks
    } else if name == "{Ix}"@ {
        ColumnKind::Importance
    } else if name == "(Ex)"@ {
        ColumnKind::Economic
    } else if name == "[Cx]"@ {
        ColumnKind::Cultural
    } else if name == "N"@ {
        ColumnKind::Nobles
    } else if name == "B"@ {
        ColumnKind::Bases
    } else if name == "Z"@ {
        ColumnKind::Zone
    } else if name == "PBG"@ {
        ColumnKind::Pbg
    } else if name == "W"@ {
        ColumnKind::Worlds
    } else if name == "A"@ {
        ColumnKind::Allegiance
    } else if name == "Stellar"@ {
        ColumnKind::Stellar
    } else {
        ColumnKind::Other
    }
}

pub fn kind_of(name: &String) -> (k: ColumnKind)
    ensures
        k == column_kind(name@),
{
    if string_is(name, "Hex") {
        ColumnKind::Hex
    } else if string_is(name, "Name") {
        ColumnKind::Name
    } else if string_is(name, "UWP") {
        ColumnKind::Uwp
    } else if string_is(name, "Remarks") {
        ColumnKind::Remarks
    } else if string_is(name, "{Ix}") {
        ColumnKind::Importance
    } else if string_is(name, "(Ex)") {
        ColumnKind::Economic
    } else if string_is(name, "[Cx]") {
        ColumnKind::Cultural
    } else if string_is(name, "N") {
        ColumnKind::Nobles
    } else if string_is(name, "B") {
        ColumnKind::Bases
    } else if string_is(name, "Z") {
        ColumnKind::Zone
    } else if string_is(name, "PBG") {
        ColumnKind::Pbg
    } else if string_is(name, "W") {
        ColumnKind::Worlds
    } else if string_is(name, "A") {
        ColumnKind::Allegiance
    } else if string_is(name, "Stellar") {
        ColumnKind::Stellar
    } else {
        ColumnKind::Other
    }
}

/// What a column from `s` to `e` holds when the line is read from character
/// `p` on: the characters at positions in both `[p, len)` and `[s, e)`.
pub open spec fn column_text(line: Seq<char>, p: int, s: int, e: int) -> Seq<char> {
    let lo = if p < s { s } else { p };
    let hi = if e < line.len() { e } else { line.len() as int };
    if lo < hi {
        line.subrange(lo, hi)
    } else {
        Seq::empty()
    }
}

/// Where reading resumes after a column that ends at `e`: the character at
/// `e` itself, which separates it from the next column, is passed over.
pub open spec fn next_cursor(len: int, p: int, e: int) -> int {
    if p >= len {
        p
    } else if p >= e {
        p + 1
    } else if e < len {
        e + 1
    } else {
        len
    }
}

/// Where reading stands before the `k`-th column.
pub open spec fn cursor(line: Seq<char>, fields: Seq<(usize, usize, String)>, k: int) -> int
    decreases k,
{
    if k <= 0 {
        0
    } else {
        next_cursor(line.len() as int, cursor(line, fields, k - 1), fields[k - 1].1 as int)
    }
}

/// The text of the `k`-th column of a record line.
pub open spec fn column_value(line: Seq<char>, fields: Seq<(usize, usize, String)>, k: int) -> Seq<char> {
    column_text(line, cursor(line, fields, k), fields[k].0 as int, fields[k].1 as int)
}

proof fn lemma_cursor_bound(line: Seq<char>, fields: Seq<(usize, usize, String)>, k: int)
    requires
        0 <= k,
    ensures
        0 <= cursor(line, fields, k) <= line.len(),
    decreases k,
{
    if k > 0 {
        lemma_cursor_bound(line, fields, k - 1);
    }
}

/// Reads the column from `s` to `e` from character `p` on, and says where
/// reading resumes.
fn take_column(line: &Vec<char>, p: usize, s: usize, e: usize) -> (r: (Vec<char>, usize))
    requires
        p <= line@.len(),
    ensures
        r.0@ == column_text(line@, p as int, s as int, e as int),
        r.1 == next_cursor(line@.len() as int, p as int, e as int),
{
    let mut value: Vec<char> = Vec::new();
    let mut q: usize = p;
    loop
        invariant_except_break
            p <= q <= line@.len(),
            q <= e || q == p,
            value@ == column_text(line@, p as int, s as int, q as int),
        ensures
            value@ == column_text(line@, p as int, s as int, e as int),
            q == next_cursor(line@.len() as int, p as int, e as int),
        decreases line@.len() - q,
    {
        if q >= line.len() {
            proof {
                assert(column_text(line@, p as int, s as int, q as int) =~= column_text(line@, p as int, s as int, e as int));
            }
            break;
        }
        let ii = q;
        q = q + 1;
        if ii >= s && ii < e {
            proof {
                assert(column_text(line@, p as int, s as int, q as int) =~= column_text(line@, p as int, s as int, ii as int).push(line@[ii as int]));
            }
            value.push(line[ii]);
        } else if ii >= e {
            proof {
                assert(column_text(line@, p as int, s as int, ii as int) =~= column_text(line@, p as int, s as int, e as int));
            }
            break;
        } else {
            proof {
                assert(column_text(line@, p as int, s as int, q as int) =~= column_text(line@, p as int, s as int, ii as int));
            }
        }
    }
    (value, q)
}

} // verus!

verus! {

/// The views of a list of strings.
pub open spec fn string_views(v: Seq<String>) -> Seq<Seq<char>> {
    v.map_values(|s: String| s@)
}

/// The texts that a list of strings holds, as a set.
pub open spec fn string_set(v: Seq<String>) -> Set<Seq<char>> {
    Set::new(|t: Seq<char>| exists|k: int| 0 <= k < v.len() && (#[trigger] v[k])@ == t)
}

/// No text occurs twice in the list.
pub open spec fn distinct_strings(v: Seq<String>) -> bool {
    forall|i: int, j: int| 0 <= i < j < v.len() ==> (#[trigger] v[i])@ != (#[trigger] v[j])@
}

/// Adds a text to a list of distinct texts unless it is there already.
pub fn add_string(set: &mut Vec<String>, s: String)
    requires
        distinct_strings(old(set)@),
    ensures
        distinct_strings(final(set)@),
        string_set(final(set)@) == string_set(old(set)@).insert(s@),
{
    let ghost t = s@;
    let ghost before = set@;
    if !contains_string(set, s.as_str()) {
        set.push(s);
        proof {
            assert forall|x: Seq<char>| string_set(set@).contains(x) <==> string_set(before).insert(t).contains(x) by {
                if string_set(before).contains(x) {
                    let k = choose|k: int| 0 <= k < before.len() && (#[trigger] before[k])@ == x;
                    assert(set@[k] == before[k]);
                }
                if x == t {
                    assert(set@[before.len() as int]@ == t);
                }
                if string_set(set@).contains(x) {
                    let k = choose|k: int| 0 <= k < set@.len() && (#[trigger] set@[k])@ == x;
                    if k < before.len() {
                        assert(set@[k] == before[k]);
                    }
                }
            }
            assert(string_set(set@) =~= string_set(before).insert(t));
        }
    } else {
        assert(string_set(set@) =~= string_set(before).insert(t));
    }
}

/// Adds each word of `value` to a list of distinct texts.
pub fn add_words(set: &mut Vec<String>, value: &Vec<char>)
    requires
        distinct_strings(old(set)@),
    ensures
        distinct_strings(final(set)@),
        string_set(final(set)@) == string_set(old(set)@).union(words(value@).to_set()),
{
    let parts = split_whitespace(value.as_slice());
    let ghost ws = words(value@);
    let ghost before = string_set(set@);
    let mut i: usize = 0;
    while i < parts.len()
        invariant
            ws == words(value@),
            parts@.len() == ws.len(),
            forall|k: int| 0 <= k < parts@.len() ==> #[trigger] parts@[k]@ == ws[k],
            i <= ws.len(),
            distinct_strings(set@),
            string_set(set@) == before.union(ws.take(i as int).to_set()),
        decreases ws.len() - i,
    {
        let w = string_of(parts[i].as_slice());
        add_string(set, w);
        proof {
            assert(ws.take(i + 1) =~= ws.take(i as int).push(ws[i as int]));
            ws.take(i as int).lemma_push_to_set_commute(ws[i as int]);
            assert(string_set(set@) =~= before.union(ws.take(i + 1).to_set()));
        }
        i += 1;
    }
    proof {
        assert(ws.take(ws.len() as int) =~= ws);
    }
}

} // verus!

verus! {

/// The one-character codes of a base column: each character that is left
/// once spaces and hyphens are trimmed from its ends.
pub open spec fn base_code_set(value: Seq<char>) -> Set<Seq<char>> {
    Set::new(|t: Seq<char>| t.len() == 1 && trim_matches(value, seq![' ', '-']).contains(t[0]))
}

/// Adds each base code of `value` to a list of distinct texts.
pub fn add_base_codes(set: &mut Vec<String>, value: &Vec<char>)
    requires
        distinct_strings(old(set)@),
    ensures
        distinct_strings(final(set)@),
        string_set(final(set)@) == string_set(old(set)@).union(base_code_set(value@)),
{
    let strip: Vec<char> = vec![' ', '-'];
    let trimmed = trim_chars(value.as_slice(), strip.as_slice());
    proof {
        assert(strip@ =~= seq![' ', '-']);
    }
    let ghost t = trimmed@;
    let ghost before = string_set(set@);
    let mut i: usize = 0;
    while i < trimmed.len()
        invariant
            t == trimmed@,
            t == trim_matches(value@, seq![' ', '-']),
            i <= t.len(),
            distinct_strings(set@),
            string_set(set@) == before.union(Set::new(|s: Seq<char>| s.len() == 1 && t.take(i as int).contains(s[0]))),
        decreases t.len() - i,
    {
        let one: Vec<char> = vec![trimmed[i]];
        let code = string_of(one.as_slice());
        add_string(set, code);
        proof {
            assert(one@ =~= seq![t[i as int]]);
            assert(t.take(i + 1) =~= t.take(i as int).push(t[i as int]));
            assert forall|s: Seq<char>| (s.len() == 1 && t.take(i + 1).contains(s[0])) <==> ((s.len() == 1
                && t.take(i as int).contains(s[0])) || s == seq![t[i as int]]) by {
                if s.len() == 1 && t.take(i + 1).contains(s[0]) {
                    let k = choose|k: int| 0 <= k < t.take(i + 1).len() && #[trigger] t.take(i + 1)[k] == s[0];
                    if k < i {
                        assert(t.take(i as int)[k] == s[0]);
                    } else {
                        assert(s =~= seq![t[i as int]]);
                    }
                }
                if s.len() == 1 && t.take(i as int).contains(s[0]) {
                    let k = choose|k: int| 0 <= k < t.take(i as int).len() && #[trigger] t.take(i as int)[k] == s[0];
                    assert(t.take(i + 1)[k] == s[0]);
                }
                if s == seq![t[i as int]] {
                    assert(t.take(i + 1)[i as int] == s[0]);
                }
            }
            assert(string_set(set@) =~= before.union(Set::new(|s: Seq<char>| s.len() == 1 && t.take(i + 1).contains(s[0]))));
        }
        i += 1;
    }
    proof {
        assert(t.take(t.len() as int) =~= t);
        assert(string_set(set@) =~= string_set(old(set)@).union(base_code_set(value@)));
    }
}

/// Star descriptions from the words of a stellar column: a brown dwarf
/// (`BD`), white dwarf (`D`) or black hole (`BH`) is one word; any other
/// star is a spectral class followed by its size, two words.
pub open spec fn group_stars(parts: Seq<Seq<char>>) -> Seq<Seq<char>>
    decreases parts.len(),
{
    if parts.len() == 0 {
        seq![]
    } else if parts[0] == seq!['B', 'D'] || parts[0] == seq!['D'] || parts[0] == seq!['B', 'H'] {
        seq![parts[0]] + group_stars(parts.drop_first())
    } else if parts.len() > 1 {
        seq![parts[0] + seq![' '] + parts[1]] + group_stars(parts.skip(2))
    } else {
        seq![parts[0]]
    }
}

/// Grouping stars: a brown dwarf `BD`, white dwarf `D` or black hole `BH`
/// at the front of the words is one star of its own, and the rest are
/// grouped after it; any other word at the front is joined by a space to the
/// word after it (its size), and the rest are grouped after that; a lone last
/// word is a star of its own.
pub proof fn law_group_stars(x: Seq<char>, y: Seq<char>, rest: Seq<Seq<char>>)
    ensures
        (x == seq!['B', 'D'] || x == seq!['D'] || x == seq!['B', 'H']) ==> group_stars(seq![x] + rest) == seq![x] + group_stars(rest),
        !(x == seq!['B', 'D'] || x == seq!['D'] || x == seq!['B', 'H']) ==> group_stars(seq![x, y] + rest) == seq![x + seq![' '] + y]
            + group_stars(rest),
        group_stars(seq![x]) == seq![x],
        group_stars(Seq::<Seq<char>>::empty()) == Seq::<Seq<char>>::empty(),
{
    assert((seq![x] + rest).drop_first() =~= rest);
    assert((seq![x] + rest)[0] == x);
    assert((seq![x, y] + rest)[0] == x);
    assert((seq![x, y] + rest)[1] == y);
    assert((seq![x, y] + rest).skip(2) =~= rest);
    assert(seq![x][0] == x);
    assert(seq![x].drop_first() =~= Seq::<Seq<char>>::empty());
    assert(group_stars(Seq::<Seq<char>>::empty()) == Seq::<Seq<char>>::empty());
    assert(seq![x] + Seq::<Seq<char>>::empty() =~= seq![x]);
}

fn joined_with_space(a: &Vec<char>, b: &Vec<char>) -> (r: Vec<char>)
    ensures
        r@ == a@ + seq![' '] + b@,
{
    let mut r: Vec<char> = Vec::new();
    let mut i: usize = 0;
    while i < a.len()
        invariant
            i <= a@.len(),
            r@ == a@.take(i as int),
        decreases a@.len() - i,
    {
        r.push(a[i]);
        proof {
            assert(a@.take(i + 1) =~= a@.take(i as int).push(a@[i as int]));
        }
        i += 1;
    }
    r.push(' ');
    let mut j: usize = 0;
    while j < b.len()
        invariant
            j <= b@.len(),
            r@ == a@ + seq![' '] + b@.take(j as int),
        decreases b@.len() - j,
    {
        r.push(b[j]);
        proof {
            assert(b@.take(j + 1) =~= b@.take(j as int).push(b@[j as int]));
        }
        j += 1;
    }
    proof {
        assert(a@.take(a@.len() as int) =~= a@);
        assert(b@.take(b@.len() as int) =~= b@);
    }
    r
}

/// Appends the star descriptions of a stellar column to `stars`.
pub fn push_star_groups(stars: &mut Vec<String>, value: &Vec<char>)
    ensures
        string_views(final(stars)@) == string_views(old(stars)@) + group_stars(words(value@)),
{
    let parts = split_whitespace(value.as_slice());
    let ghost ws = words(value@);
    let ghost start = string_views(stars@);
    let bd: Vec<char> = vec!['B', 'D'];
    let d: Vec<char> = vec!['D'];
    let bh: Vec<char> = vec!['B', 'H'];
    proof {
        assert(ws.skip(0) =~= ws);
    }
    let mut i: usize = 0;
    while i < parts.len()
        invariant
            ws == words(value@),
            parts@.len() == ws.len(),
            forall|k: int| 0 <= k < parts@.len() ==> #[trigger] parts@[k]@ == ws[k],
            bd@ == seq!['B', 'D'],
            d@ == seq!['D'],
            bh@ == seq!['B', 'H'],
            i <= ws.len(),
            string_views(stars@) + group_stars(ws.skip(i as int)) == start + group_stars(ws),
        decreases ws.len() - i,
    {
        let ghost rest = ws.skip(i as int);
        let ghost prev = string_views(stars@);
        let star = &parts[i];
        assert(rest[0] == ws[i as int]);
        if same_chars(star.as_slice(), bd.as_slice()) || same_chars(star.as_slice(), d.as_slice()) || same_chars(
            star.as_slice(),
            bh.as_slice(),
        ) {
            stars.push(string_of(star.as_slice()));
            proof {
                assert(rest.drop_first() =~= ws.skip(i + 1));
                assert(string_views(stars@) =~= prev.push(ws[i as int]));
                assert(group_stars(rest) == seq![ws[i as int]] + group_stars(ws.skip(i + 1)));
                assert(prev + group_stars(rest) =~= prev.push(ws[i as int]) + group_stars(ws.skip(i + 1)));
            }
            i += 1;
        } else if parts.len() > i + 1 {
            let both = joined_with_space(star, &parts[i + 1]);
            stars.push(string_of(both.as_slice()));
            proof {
                let g = ws[i as int] + seq![' '] + ws[i + 1];
                assert(rest[1] == ws[i + 1]);
                assert(rest.skip(2) =~= ws.skip(i + 2));
                assert(string_views(stars@) =~= prev.push(g));
                assert(group_stars(rest) == seq![g] + group_stars(ws.skip(i + 2)));
                assert(prev + group_stars(rest) =~= prev.push(g) + group_stars(ws.skip(i + 2)));
            }
            i += 2;
        } else {
            stars.push(string_of(star.as_slice()));
            proof {
                assert(ws.skip(i + 1) =~= Seq::<Seq<char>>::empty());
                assert(string_views(stars@) =~= prev.push(ws[i as int]));
                assert(group_stars(rest) == seq![ws[i as int]]);
                assert(prev + group_stars(rest) =~= prev.push(ws[i as int]) + group_stars(ws.skip(i + 1)));
            }
            i += 1;
        }
    }
    proof {
        assert(ws.skip(ws.len() as int) =~= Seq::<Seq<char>>::empty());
        assert(string_views(stars@) + group_stars(ws.skip(i as int)) =~= string_views(stars@));
    }
}

} // verus!

verus! {

/// The text of the last column of kind `kind` among the first `n` columns.
pub open spec fn last_text(line: Seq<char>, fields: Seq<(usize, usize, String)>, n: int, kind: ColumnKind) -> Option<Seq<char>>
    decreases n,
{
    if n <= 0 {
        None
    } else if column_kind(fields[n - 1].2@) == kind {
        Some(column_value(line, fields, n - 1))
    } else {
        last_text(line, fields, n - 1, kind)
    }
}

/// A column's text, or nothing where there is no such column.
pub open spec fn text_of(o: Option<Seq<char>>) -> Seq<char> {
    match o {
        Some(t) => t,
        None => Seq::empty(),
    }
}

/// A column's text without its leading and trailing white space.
pub open spec fn trimmed_text(o: Option<Seq<char>>) -> Seq<char> {
    match o {
        Some(t) => trim(t),
        None => Seq::empty(),
    }
}

/// A column's text without the characters of `set` at its ends.
pub open spec fn stripped_text(o: Option<Seq<char>>, set: Seq<char>) -> Seq<char> {
    match o {
        Some(t) => trim_matches(t, set),
        None => Seq::empty(),
    }
}

/// The trade codes of all the remarks columns among the first `n`.
pub open spec fn remark_codes(line: Seq<char>, fields: Seq<(usize, usize, String)>, n: int) -> Set<Seq<char>>
    decreases n,
{
    if n <= 0 {
        Set::empty()
    } else {
        let prev = remark_codes(line, fields, n - 1);
        if column_kind(fields[n - 1].2@) == ColumnKind::Remarks {
            prev.union(words(column_value(line, fields, n - 1)).to_set())
        } else {
            prev
        }
    }
}

/// The base codes of all the base columns among the first `n`.
pub open spec fn base_codes(line: Seq<char>, fields: Seq<(usize, usize, String)>, n: int) -> Set<Seq<char>>
    decreases n,
{
    if n <= 0 {
        Set::empty()
    } else {
        let prev = base_codes(line, fields, n - 1);
        if column_kind(fields[n - 1].2@) == ColumnKind::Bases {
            prev.union(base_code_set(column_value(line, fields, n - 1)))
        } else {
            prev
        }
    }
}

/// The importance from the last importance column among the first `n` that
/// holds a number once braces and spaces are trimmed; 0 if none does.
pub open spec fn importance_after(line: Seq<char>, fields: Seq<(usize, usize, String)>, n: int) -> i64
    decreases n,
{
    if n <= 0 {
        0
    } else {
        let prev = importance_after(line, fields, n - 1);
        if column_kind(fields[n - 1].2@) == ColumnKind::Importance {
            match parse_i64_spec(trim_matches(column_value(line, fields, n - 1), seq!['{', '}', ' '])) {
                Some(v) => v,
                None => prev,
            }
        } else {
            prev
        }
    }
}

/// The world count from the last such column among the first `n` that holds
/// a number once braces and spaces are trimmed; 0 if none does.
pub open spec fn worlds_after(line: Seq<char>, fields: Seq<(usize, usize, String)>, n: int) -> u64
    decreases n,
{
    if n <= 0 {
        0
    } else {
        let prev = worlds_after(line, fields, n - 1);
        if column_kind(fields[n - 1].2@) == ColumnKind::Worlds {
            match parse_u64_spec(trim_matches(column_value(line, fields, n - 1), seq!['{', '}', ' '])) {
                Some(v) => v,
                None => prev,
            }
        } else {
            prev
        }
    }
}

/// The travel zone: the first character of the last zone column among the
/// first `n` that is not blank once spaces and hyphens are trimmed; green
/// (`G`) if there is none.
pub open spec fn zone_after(line: Seq<char>, fields: Seq<(usize, usize, String)>, n: int) -> char
    decreases n,
{
    if n <= 0 {
        'G'
    } else {
        let prev = zone_after(line, fields, n - 1);
        let t = trim_matches(column_value(line, fields, n - 1), seq![' ', '-']);
        if column_kind(fields[n - 1].2@) == ColumnKind::Zone && t.len() > 0 {
            t[0]
        } else {
            prev
        }
    }
}

/// The star descriptions of all the stellar columns among the first `n`.
pub open spec fn stars_after(line: Seq<char>, fields: Seq<(usize, usize, String)>, n: int) -> Seq<Seq<char>>
    decreases n,
{
    if n <= 0 {
        Seq::empty()
    } else {
        let prev = stars_after(line, fields, n - 1);
        if column_kind(fields[n - 1].2@) == ColumnKind::Stellar {
            prev + group_stars(words(column_value(line, fields, n - 1)))
        } else {
            prev
        }
    }
}

} // verus!

verus! {

/// `w` is the world that a record line reads as under `fields`.
pub open spec fn read_from(w: World, line: Seq<char>, fields: Seq<(usize, usize, String)>, sector_location: (i64, i64)) -> bool {
    &&& w.sector_location == sector_location
    &&& w.hex@ == text_of(last_text(line, fields, fields.len() as int, ColumnKind::Hex))
    &&& w.name@ == trimmed_text(last_text(line, fields, fields.len() as int, ColumnKind::Name))
    &&& w.uwp@ == text_of(last_text(line, fields, fields.len() as int, ColumnKind::Uwp))
    &&& distinct_strings(w.trade_classifications@)
    &&& string_set(w.trade_classifications@) == remark_codes(line, fields, fields.len() as int)
    &&& w.importance == importance_after(line, fields, fields.len() as int)
    &&& w.economic@ == stripped_text(last_text(line, fields, fields.len() as int, ColumnKind::Economic), seq!['(', ')'])
    &&& w.cultural@ == stripped_text(last_text(line, fields, fields.len() as int, ColumnKind::Cultural), seq!['[', ']'])
    &&& w.nobles@ == stripped_text(last_text(line, fields, fields.len() as int, ColumnKind::Nobles), seq![' ', '-'])
    &&& distinct_strings(w.bases@)
    &&& string_set(w.bases@) == base_codes(line, fields, fields.len() as int)
    &&& w.zone == zone_after(line, fields, fields.len() as int)
    &&& w.pbg@ == trimmed_text(last_text(line, fields, fields.len() as int, ColumnKind::Pbg))
    &&& w.worlds == worlds_after(line, fields, fields.len() as int)
    &&& w.allegiance@ == text_of(last_text(line, fields, fields.len() as int, ColumnKind::Allegiance))
    &&& string_views(w.stars@) == stars_after(line, fields, fields.len() as int)
    &&& w.endpoint_trade_credits == 0
    &&& w.transient_trade_credits == 0
    &&& w.xboat_routes@.len() == 0
    &&& w.dbtn_to_coords@.len() == credits_table().len()
    &&& forall|k: int| 0 <= k < w.dbtn_to_coords@.len() ==> (#[trigger] w.dbtn_to_coords@[k])@.len() == 0
    &&& w.major_routes@.len() == 0
    &&& w.main_routes@.len() == 0
    &&& w.intermediate_routes@.len() == 0
    &&& w.feeder_routes@.len() == 0
    &&& w.minor_routes@.len() == 0
    &&& w.neighbors@.len() == 0
    &&& w.index is None
}

impl World {
    /// Reads a world record: each column is taken from the line by the
    /// `(start, end, name)` triples of the header, in order, and what it holds
    /// goes to the field that the column's name stands for.
    pub fn new(line: String, fields: &[(usize, usize, String)], sector_location: (i64, i64)) -> (w: World)
        ensures
            read_from(w, line@, fields@, sector_location),
    {
        let ghost l = line@;
        let ghost f = fields@;
        let mut hex = String::new();
        let mut name = String::new();
        let mut uwp = String::new();
        let mut trade_classifications: Vec<String> = Vec::new();
        let mut importance: i64 = 0;
        let mut economic = String::new();
        let mut cultural = String::new();
        let mut nobles = String::new();
        let mut bases: Vec<String> = Vec::new();
        let mut zone = 'G';
        let mut pbg = String::new();
        let mut worlds: u64 = 0;
        let mut allegiance = String::new();
        let mut stars: Vec<String> = Vec::new();
        let credits = dbtn_to_credits();
        let mut dbtn_to_coords: Vec<Vec<Coords>> = Vec::new();
        let mut b: usize = 0;
        while b < credits.len()
            invariant
                credits@ == credits_table(),
                b <= credits@.len(),
                dbtn_to_coords@.len() == b,
                forall|k: int| 0 <= k < b ==> (#[trigger] dbtn_to_coords@[k])@.len() == 0,
            decreases credits@.len() - b,
        {
            dbtn_to_coords.push(Vec::new());
            b += 1;
        }
        let chars = chars_of(line.as_str());
        let mut cur: usize = 0;
        let mut ii: usize = 0;
        while ii < fields.len()
            invariant
                l == line@,
                f == fields@,
                chars@ == l,
                ii <= f.len(),
                cur == cursor(l, f, ii as int),
                hex@ == text_of(last_text(l, f, ii as int, ColumnKind::Hex)),
                name@ == trimmed_text(last_text(l, f, ii as int, ColumnKind::Name)),
                uwp@ == text_of(last_text(l, f, ii as int, ColumnKind::Uwp)),
                distinct_strings(trade_classifications@),
                string_set(trade_classifications@) == remark_codes(l, f, ii as int),
                importance == importance_after(l, f, ii as int),
                economic@ == stripped_text(last_text(l, f, ii as int, ColumnKind::Economic), seq!['(', ')']),
                cultural@ == stripped_text(last_text(l, f, ii as int, ColumnKind::Cultural), seq!['[', ']']),
                nobles@ == stripped_text(last_text(l, f, ii as int, ColumnKind::Nobles), seq![' ', '-']),
                distinct_strings(bases@),
                string_set(bases@) == base_codes(l, f, ii as int),
                zone == zone_after(l, f, ii as int),
                pbg@ == trimmed_text(last_text(l, f, ii as int, ColumnKind::Pbg)),
                worlds == worlds_after(l, f, ii as int),
                allegiance@ == text_of(last_text(l, f, ii as int, ColumnKind::Allegiance)),
                string_views(stars@) == stars_after(l, f, ii as int),
            decreases f.len() - ii,
        {
            proof {
                lemma_cursor_bound(l, f, ii as int);
            }
            let field = &fields[ii];
            let (value, next) = take_column(&chars, cur, field.0, field.1);
            let kind = kind_of(&field.2);
            assert(value@ == column_value(l, f, ii as int));
            match kind {
                ColumnKind::Hex => {
                    hex = string_of(value.as_slice());
                },
                ColumnKind::Name => {
                    let t = trim_whitespace(value.as_slice());
                    name = string_of(t.as_slice());
                },
                ColumnKind::Uwp => {
                    uwp = string_of(value.as_slice());
                },
                ColumnKind::Remarks => {
                    add_words(&mut trade_classifications, &value);
                },
                ColumnKind::Importance => {
                    let strip: Vec<char> = vec!['{', '}', ' '];
                    let t = trim_chars(value.as_slice(), strip.as_slice());
                    assert(strip@ =~= seq!['{', '}', ' ']);
                    if t.len() > 0 {
                        if let Some(v) = parse_i64(t.as_slice()) {
                            importance = v;
                        }
                    }
                },
                ColumnKind::Economic => {
                    let strip: Vec<char> = vec!['(', ')'];
                    let t = trim_chars(value.as_slice(), strip.as_slice());
                    assert(strip@ =~= seq!['(', ')']);
                    economic = string_of(t.as_slice());
                },
                ColumnKind::Cultural => {
                    let strip: Vec<char> = vec!['[', ']'];
                    let t = trim_chars(value.as_slice(), strip.as_slice());
                    assert(strip@ =~= seq!['[', ']']);
                    cultural = string_of(t.as_slice());
                },
                ColumnKind::Nobles => {
                    let strip: Vec<char> = vec![' ', '-'];
                    let t = trim_chars(value.as_slice(), strip.as_slice());
                    assert(strip@ =~= seq![' ', '-']);
                    nobles = string_of(t.as_slice());
                },
                ColumnKind::Bases => {
                    add_base_codes(&mut bases, &value);
                },
                ColumnKind::Zone => {
                    let strip: Vec<char> = vec![' ', '-'];
                    let t = trim_chars(value.as_slice(), strip.as_slice());
                    assert(strip@ =~= seq![' ', '-']);
                    if t.len() > 0 {
                        zone = t[0];
                    }
                },
                ColumnKind::Pbg => {
                    let t = trim_whitespace(value.as_slice());
                    pbg = string_of(t.as_slice());
                },
                ColumnKind::Worlds => {
                    let strip: Vec<char> = vec!['{', '}', ' '];
                    let t = trim_chars(value.as_slice(), strip.as_slice());
                    assert(strip@ =~= seq!['{', '}', ' ']);
                    if t.len() > 0 {
                        if let Some(v) = parse_u64(t.as_slice()) {
                            worlds = v;
                        }
                    }
                },
                ColumnKind::Allegiance => {
                    allegiance = string_of(value.as_slice());
                },
                ColumnKind::Stellar => {
                    push_star_groups(&mut stars, &value);
                },
                ColumnKind::Other => {},
            }
            cur = next;
            ii += 1;
        }
        World {
            sector_location,
            hex,
            name,
            uwp,
            trade_classifications,
            importance,
            economic,
            cultural,
            nobles,
            bases,
            zone,
            pbg,
            worlds,
            allegiance,
            stars,
            endpoint_trade_credits: 0,
            transient_trade_credits: 0,
            xboat_routes: Vec::new(),
            dbtn_to_coords,
            major_routes: Vec::new(),
            main_routes: Vec::new(),
            intermediate_routes: Vec::new(),
            feeder_routes: Vec::new(),
            minor_routes: Vec::new(),
            neighbors: Vec::new(),
            index: None,
        }
    }
}

} // verus!
