use vstd::prelude::*;
use vstd::std_specs::iter::IteratorSpec;

verus! {

/// The characters of `s`, in order.
pub fn chars_of(s: &str) -> (v: Vec<char>)
    ensures
        v@ == s@,
{
    let mut v: Vec<char> = Vec::new();
    let mut it = s.chars();
    broadcast use vstd::string::group_string_axioms;
    loop
        invariant
            v@ + it.remaining() == s@,
        ensures
            v@ == s@,
        decreases s@.len() - v@.len(),
    {
        match it.next() {
            Some(c) => {
                v.push(c);
            },
            None => {
                assert(v@ =~= s@);
                break;
            },
        }
    }
    v
}

/// Whether a character has the Unicode `White_Space` property: the 25 code
/// points U+0009 to U+000D, U+0020, U+0085, U+00A0, U+1680, U+2000 to
/// U+200A, U+2028, U+2029, U+202F, U+205F and U+3000.
pub open spec fn white_space(c: char) -> bool {
    let v = c as u32;
    ||| 0x09 <= v <= 0x0d
    ||| v == 0x20
    ||| v == 0x85
    ||| v == 0xa0
    ||| v == 0x1680
    ||| 0x2000 <= v <= 0x200a
    ||| v == 0x2028
    ||| v == 0x2029
    ||| v == 0x202f
    ||| v == 0x205f
    ||| v == 0x3000
}

/// Whether a character is white space, as `char::is_whitespace` tells.
pub(crate) fn is_whitespace(c: char) -> (b: bool)
    ensures
        b == white_space(c),
{
    let v = c as u32;
    (0x09 <= v && v <= 0x0d) || v == 0x20 || v == 0x85 || v == 0xa0 || v == 0x1680 || (0x2000 <= v && v <= 0x200a) || v == 0x2028
        || v == 0x2029 || v == 0x202f || v == 0x205f || v == 0x3000
}

/// Calls `String::push`, which appends one character.
#[verifier::external_body]
pub(crate) fn push_char(s: &mut String, c: char)
    ensures
        final(s)@ == old(s)@.push(c),
{
    s.push(c)
}

/// A string holding the characters of `v`.
pub fn string_of(v: &[char]) -> (s: String)
    ensures
        s@ == v@,
{
    let mut s = String::new();
    let mut i: usize = 0;
    while i < v.len()
        invariant
            i <= v@.len(),
            s@ == v@.take(i as int),
        decreases v@.len() - i,
    {
        push_char(&mut s, v[i]);
        proof {
            assert(v@.take(i + 1) =~= v@.take(i as int).push(v@[i as int]));
        }
        i += 1;
    }
    proof {
        assert(v@.take(v@.len() as int) =~= v@);
    }
    s
}

/// `s` without its leading characters that satisfy `drop`.
pub open spec fn trim_start_by(s: Seq<char>, drop: spec_fn(char) -> bool) -> Seq<char>
    decreases s.len(),
{
    if s.len() > 0 && drop(s[0]) {
        trim_start_by(s.drop_first(), drop)
    } else {
        s
    }
}

/// `s` without its trailing characters that satisfy `drop`.
pub open spec fn trim_end_by(s: Seq<char>, drop: spec_fn(char) -> bool) -> Seq<char>
    decreases s.len(),
{
    if s.len() > 0 && drop(s.last()) {
        trim_end_by(s.drop_last(), drop)
    } else {
        s
    }
}

/// `s` without its leading and trailing characters that satisfy `drop`.
pub open spec fn trim_by(s: Seq<char>, drop: spec_fn(char) -> bool) -> Seq<char> {
    trim_end_by(trim_start_by(s, drop), drop)
}

pub open spec fn is_ws() -> spec_fn(char) -> bool {
    |c: char| white_space(c)
}

pub open spec fn is_in(set: Seq<char>) -> spec_fn(char) -> bool {
    |c: char| set.contains(c)
}

/// `str::trim`: `s` without leading and trailing white space.
pub open spec fn trim(s: Seq<char>) -> Seq<char> {
    trim_by(s, is_ws())
}

/// `str::trim_matches` with a set of characters.
pub open spec fn trim_matches(s: Seq<char>, set: Seq<char>) -> Seq<char> {
    trim_by(s, is_in(set))
}

proof fn lemma_trim_start_skip(s: Seq<char>, drop: spec_fn(char) -> bool, i: int)
    requires
        0 <= i < s.len(),
        drop(s[i]),
    ensures
        trim_start_by(s.skip(i), drop) == trim_start_by(s.skip(i + 1), drop),
{
    assert(s.skip(i).drop_first() =~= s.skip(i + 1));
}

proof fn lemma_trim_end_take(s: Seq<char>, drop: spec_fn(char) -> bool, j: int)
    requires
        0 < j <= s.len(),
        drop(s[j - 1]),
    ensures
        trim_end_by(s.take(j), drop) == trim_end_by(s.take(j - 1), drop),
{
    assert(s.take(j).drop_last() =~= s.take(j - 1));
}

/// Whether `c` is one of the characters of `set`.
pub fn member(c: char, set: &[char]) -> (b: bool)
    ensures
        b == set@.contains(c),
{
    let mut i: usize = 0;
    while i < set.len()
        invariant
            i <= set@.len(),
            forall|k: int| 0 <= k < i ==> set@[k] != c,
        decreases set@.len() - i,
    {
        if set[i] == c {
            return true;
        }
        i += 1;
    }
    false
}

/// Whether `c` is dropped by a trim: white space when `set` is `None`,
/// a member of the set otherwise.
fn dropped(c: char, set: Option<&[char]>) -> (b: bool)
    ensures
        b == match set {
            None => white_space(c),
            Some(s) => s@.contains(c),
        },
{
    match set {
        None => is_whitespace(c),
        Some(s) => member(c, s),
    }
}

pub open spec fn drop_pred(set: Option<Seq<char>>) -> spec_fn(char) -> bool {
    match set {
        None => is_ws(),
        Some(s) => is_in(s),
    }
}

fn trim_with(v: &[char], set: Option<&[char]>) -> (r: Vec<char>)
    ensures
        r@ == trim_by(
            v@,
            drop_pred(
                match set {
                    None => None,
                    Some(s) => Some(s@),
                },
            ),
        ),
{
    let ghost d = drop_pred(
        match set {
            None => None,
            Some(s) => Some(s@),
        },
    );
    let mut lo: usize = 0;
    proof {
        assert(v@.skip(0) =~= v@);
    }
    while lo < v.len() && dropped(v[lo], set)
        invariant
            lo <= v@.len(),
            d == drop_pred(
                match set {
                    None => None,
                    Some(s) => Some(s@),
                },
            ),
            trim_start_by(v@, d) == trim_start_by(v@.skip(lo as int), d),
        decreases v@.len() - lo,
    {
        proof {
            lemma_trim_start_skip(v@, d, lo as int);
        }
        lo += 1;
    }
    let ghost t = v@.skip(lo as int);
    proof {
        assert(v@.skip(0) =~= v@);
        if lo < v@.len() {
            assert(t[0] == v@[lo as int]);
        }
        assert(trim_start_by(v@, d) == t);
    }
    let mut hi: usize = v.len();
    proof {
        assert(t.take(hi - lo) =~= t);
    }
    while hi > lo && dropped(v[hi - 1], set)
        invariant
            lo <= hi <= v@.len(),
            t == v@.skip(lo as int),
            d == drop_pred(
                match set {
                    None => None,
                    Some(s) => Some(s@),
                },
            ),
            trim_end_by(t, d) == trim_end_by(t.take(hi - lo), d),
        decreases hi,
    {
        proof {
            assert(t[hi - lo - 1] == v@[hi - 1]);
            lemma_trim_end_take(t, d, hi - lo);
        }
        hi -= 1;
    }
    proof {
        assert(t.take(t.len() as int) =~= t);
        if hi > lo {
            assert(t.take(hi - lo).last() == v@[hi - 1]);
        }
    }
    let mut r: Vec<char> = Vec::new();
    let mut k = lo;
    while k < hi
        invariant
            lo <= k <= hi <= v@.len(),
            r@ == v@.subrange(lo as int, k as int),
        decreases hi - k,
    {
        r.push(v[k]);
        proof {
            assert(v@.subrange(lo as int, k + 1) =~= v@.subrange(lo as int, k as int).push(v@[k as int]));
        }
        k += 1;
    }
    proof {
        assert(r@ =~= t.take(hi - lo));
    }
    r
}

/// `str::trim`.
pub fn trim_whitespace(v: &[char]) -> (r: Vec<char>)
    ensures
        r@ == trim(v@),
{
    trim_with(v, None)
}

/// `str::trim_matches` with the characters of `set`.
pub fn trim_chars(v: &[char], set: &[char]) -> (r: Vec<char>)
    ensures
        r@ == trim_matches(v@, set@),
{
    trim_with(v, Some(set))
}

/// The number of leading characters of `s` that are not white space.
pub open spec fn word_len(s: Seq<char>) -> nat
    decreases s.len(),
{
    if s.len() == 0 || white_space(s[0]) {
        0
    } else {
        1 + word_len(s.drop_first())
    }
}

/// `str::split_whitespace`: the maximal runs of characters that are not
/// white space, in order.
pub open spec fn words(s: Seq<char>) -> Seq<Seq<char>>
    decreases s.len(),
{
    if s.len() == 0 {
        seq![]
    } else if white_space(s[0]) {
        words(s.drop_first())
    } else {
        let k = word_len(s);
        if 0 < k <= s.len() {
            seq![s.take(k as int)] + words(s.skip(k as int))
        } else {
            seq![]
        }
    }
}

proof fn lemma_word_len(s: Seq<char>, m: int)
    requires
        0 <= m <= s.len(),
        forall|t: int| 0 <= t < m ==> !white_space(#[trigger] s[t]),
        m == s.len() || white_space(s[m]),
    ensures
        word_len(s) == m,
    decreases m,
{
    if m > 0 {
        assert(s[0] == s[0]);
        let r = s.drop_first();
        assert forall|t: int| 0 <= t < m - 1 implies !white_space(#[trigger] r[t]) by {
            assert(r[t] == s[t + 1]);
        }
        if m < s.len() {
            assert(r[m - 1] == s[m]);
        }
        lemma_word_len(r, m - 1);
    }
}

/// `str::split_whitespace`, returning the characters of each word.
pub fn split_whitespace(v: &[char]) -> (r: Vec<Vec<char>>)
    ensures
        r@.len() == words(v@).len(),
        forall|k: int| 0 <= k < r@.len() ==> #[trigger] r@[k]@ == words(v@)[k],
{
    let mut r: Vec<Vec<char>> = Vec::new();
    let mut i: usize = 0;
    let ghost mut done: Seq<Seq<char>> = seq![];
    proof {
        assert(v@.skip(0) =~= v@);
    }
    while i < v.len()
        invariant
            i <= v@.len(),
            r@.len() == done.len(),
            forall|k: int| 0 <= k < r@.len() ==> #[trigger] r@[k]@ == done[k],
            done + words(v@.skip(i as int)) == words(v@),
        decreases v@.len() - i,
    {
        if is_whitespace(v[i]) {
            proof {
                assert(v@.skip(i as int).drop_first() =~= v@.skip(i + 1));
            }
            i += 1;
        } else {
            let mut j = i;
            let mut w: Vec<char> = Vec::new();
            while j < v.len() && !is_whitespace(v[j])
                invariant
                    i <= j <= v@.len(),
                    w@ == v@.subrange(i as int, j as int),
                    forall|t: int| i <= t < j ==> !white_space(#[trigger] v@[t]),
                decreases v@.len() - j,
            {
                w.push(v[j]);
                proof {
                    assert(v@.subrange(i as int, j + 1) =~= v@.subrange(i as int, j as int).push(v@[j as int]));
                }
                j += 1;
            }
            proof {
                let s = v@.skip(i as int);
                assert forall|t: int| 0 <= t < j - i implies !white_space(#[trigger] s[t]) by {
                    assert(s[t] == v@[t + i]);
                }
                if j < v@.len() {
                    assert(s[j - i] == v@[j as int]);
                }
                lemma_word_len(s, j - i);
                assert(s.take(j - i) =~= w@);
                assert(s.skip(j - i) =~= v@.skip(j as int));
                assert(!white_space(s[0]));
                assert(words(s) == seq![w@] + words(v@.skip(j as int)));
                assert(done.push(w@) + words(v@.skip(j as int)) =~= done + words(s));
                done = done.push(w@);
            }
            r.push(w);
            i = j;
        }
    }
    proof {
        assert(v@.skip(v@.len() as int) =~= Seq::<char>::empty());
        assert(done + Seq::<Seq<char>>::empty() =~= done);
    }
    r
}

/// `char::to_digit`: the value of `c` as a digit in `radix` (2 to 36),
/// where digits are `0-9` then `a-z` or `A-Z`.
pub open spec fn digit_value(c: char, radix: u32) -> Option<u32> {
    let v: int = if '0' <= c <= '9' {
        c as int - '0' as int
    } else if 'a' <= c <= 'z' {
        c as int - 'a' as int + 10
    } else if 'A' <= c <= 'Z' {
        c as int - 'A' as int + 10
    } else {
        99
    };
    if v < radix { Some(v as u32) } else { None }
}

/// `char::to_digit` for radixes up to 36.
pub fn to_digit(c: char, radix: u32) -> (r: Option<u32>)
    requires
        2 <= radix <= 36,
    ensures
        r == digit_value(c, radix),
{
    let u = c as u32;
    let v: u32 = if '0' <= c && c <= '9' {
        u - ('0' as u32)
    } else if 'a' <= c && c <= 'z' {
        u - ('a' as u32) + 10
    } else if 'A' <= c && c <= 'Z' {
        u - ('A' as u32) + 10
    } else {
        99
    };
    if v < radix {
        Some(v)
    } else {
        None
    }
}

/// Whether two character sequences are equal.
pub fn same_chars(a: &[char], b: &[char]) -> (r: bool)
    ensures
        r == (a@ == b@),
{
    if a.len() != b.len() {
        return false;
    }
    let mut i: usize = 0;
    while i < a.len()
        invariant
            a@.len() == b@.len(),
            i <= a@.len(),
            forall|k: int| 0 <= k < i ==> a@[k] == b@[k],
        decreases a@.len() - i,
    {
        if a[i] != b[i] {
            return false;
        }
        i += 1;
    }
    proof {
        assert(a@ =~= b@);
    }
    true
}

/// Whether the string `s` holds exactly the characters of `t`.
pub fn string_is(s: &String, t: &str) -> (r: bool)
    ensures
        r == (s@ == t@),
{
    let a = chars_of(s.as_str());
    let b = chars_of(t);
    same_chars(a.as_slice(), b.as_slice())
}

/// Whether `s` begins with the characters of `p`.
pub open spec fn starts_with(s: Seq<char>, p: Seq<char>) -> bool {
    p.len() <= s.len() && s.take(p.len() as int) == p
}

/// `str::starts_with` with a string prefix.
pub fn string_starts_with(s: &String, p: &str) -> (r: bool)
    ensures
        r == starts_with(s@, p@),
{
    let a = chars_of(s.as_str());
    let b = chars_of(p);
    if b.len() > a.len() {
        return false;
    }
    let mut i: usize = 0;
    while i < b.len()
        invariant
            a@ == s@,
            b@ == p@,
            b@.len() <= a@.len(),
            i <= b@.len(),
            forall|k: int| 0 <= k < i ==> a@[k] == b@[k],
        decreases b@.len() - i,
    {
        if a[i] != b[i] {
            proof {
                assert(a@ == s@);
                assert(b@ == p@);
                assert(a@.take(b@.len() as int)[i as int] != b@[i as int]);
                assert(a@.take(b@.len() as int) != b@);
            }
            return false;
        }
        i += 1;
    }
    proof {
        assert(a@.take(b@.len() as int) =~= b@);
    }
    true
}

/// Whether one of the strings of `list` holds exactly the characters of `t`.
pub fn contains_string(list: &Vec<String>, t: &str) -> (r: bool)
    ensures
        r == exists|k: int| 0 <= k < list@.len() && (#[trigger] list@[k])@ == t@,
{
    let mut i: usize = 0;
    while i < list.len()
        invariant
            i <= list@.len(),
            forall|k: int| 0 <= k < i ==> (#[trigger] list@[k])@ != t@,
        decreases list@.len() - i,
    {
        if string_is(&list[i], t) {
            return true;
        }
        i += 1;
    }
    false
}

pub open spec fn is_digit(c: char) -> bool {
    '0' <= c <= '9'
}

pub open spec fn all_digits(s: Seq<char>) -> bool {
    forall|k: int| 0 <= k < s.len() ==> is_digit(#[trigger] s[k])
}

/// The value of a string of decimal digits.
pub open spec fn decimal_value(s: Seq<char>) -> int
    decreases s.len(),
{
    if s.len() == 0 {
        0
    } else {
        10 * decimal_value(s.drop_last()) + (s.last() as int - '0' as int)
    }
}

/// What `str::parse` reads as an integer: an optional sign and at least one
/// decimal digit, nothing else.
pub open spec fn integer_text(s: Seq<char>) -> Option<int> {
    if s.len() > 0 && (s[0] == '+' || s[0] == '-') {
        let r = s.drop_first();
        if r.len() > 0 && all_digits(r) {
            Some(if s[0] == '-' { -decimal_value(r) } else { decimal_value(r) })
        } else {
            None
        }
    } else if s.len() > 0 && all_digits(s) {
        Some(decimal_value(s))
    } else {
        None
    }
}

/// `str::parse::<i64>`.
pub open spec fn parse_i64_spec(s: Seq<char>) -> Option<i64> {
    match integer_text(s) {
        Some(v) => if i64::MIN <= v <= i64::MAX { Some(v as i64) } else { None },
        None => None,
    }
}

/// `str::parse::<u64>`: unsigned, so a minus sign is refused.
pub open spec fn parse_u64_spec(s: Seq<char>) -> Option<u64> {
    if s.len() > 0 && s[0] == '-' {
        None
    } else {
        match integer_text(s) {
            Some(v) => if 0 <= v <= u64::MAX { Some(v as u64) } else { None },
            None => None,
        }
    }
}

proof fn lemma_decimal_nonneg(s: Seq<char>)
    requires
        all_digits(s),
    ensures
        decimal_value(s) >= 0,
    decreases s.len(),
{
    if s.len() > 0 {
        assert(is_digit(s[s.len() - 1]));
        lemma_decimal_nonneg(s.drop_last());
    }
}

/// The value of the digits `s[from..]`, none when one is not a digit or the
/// value exceeds `u64::MAX`.
fn decimal_from(s: &[char], from: usize) -> (r: Option<u64>)
    requires
        from <= s@.len(),
    ensures
        r matches Some(v) ==> all_digits(s@.skip(from as int)) && v == decimal_value(s@.skip(from as int)),
        r is None ==> !all_digits(s@.skip(from as int)) || decimal_value(s@.skip(from as int)) > u64::MAX,
{
    let mut acc: u64 = 0;
    let mut fits = true;
    let mut i = from;
    while i < s.len()
        invariant
            from <= i <= s@.len(),
            all_digits(s@.subrange(from as int, i as int)),
            fits ==> acc == decimal_value(s@.subrange(from as int, i as int)),
            !fits ==> decimal_value(s@.subrange(from as int, i as int)) > u64::MAX,
        decreases s@.len() - i,
    {
        let c = s[i];
        if !('0' <= c && c <= '9') {
            proof {
                assert(s@.skip(from as int)[i - from] == c);
            }
            return None;
        }
        let d = (c as u32 - '0' as u32) as u64;
        let ghost pre = s@.subrange(from as int, i as int);
        let ghost post = s@.subrange(from as int, i + 1);
        proof {
            assert(post.drop_last() =~= pre);
            assert(post.last() == c);
            assert(all_digits(post));
            lemma_decimal_nonneg(pre);
        }
        if fits {
            if acc > (18446744073709551615u64 - d) / 10 {
                fits = false;
            } else {
                acc = acc * 10 + d;
            }
        }
        i += 1;
    }
    proof {
        assert(s@.subrange(from as int, s@.len() as int) =~= s@.skip(from as int));
    }
    if fits {
        Some(acc)
    } else {
        None
    }
}

/// `str::parse::<i64>` on characters.
pub fn parse_i64(s: &[char]) -> (r: Option<i64>)
    ensures
        r == parse_i64_spec(s@),
{
    if s.len() == 0 {
        return None;
    }
    let neg = s[0] == '-';
    let signed = s[0] == '+' || neg;
    let from: usize = if signed { 1 } else { 0 };
    if from >= s.len() {
        return None;
    }
    proof {
        assert(s@.skip(1) =~= s@.drop_first());
        assert(s@.skip(0) =~= s@);
        if !signed {
            assert(!is_digit(s@[0]) ==> !all_digits(s@));
        }
    }
    match decimal_from(s, from) {
        None => {
            proof {
                if all_digits(s@.skip(from as int)) {
                    lemma_decimal_nonneg(s@.skip(from as int));
                }
            }
            None
        },
        Some(m) => {
            if neg {
                if m <= 9223372036854775808u64 {
                    if m == 9223372036854775808u64 {
                        Some(-9223372036854775807i64 - 1)
                    } else {
                        Some(-(m as i64))
                    }
                } else {
                    None
                }
            } else {
                if m <= 9223372036854775807u64 {
                    Some(m as i64)
                } else {
                    None
                }
            }
        },
    }
}

/// `str::parse::<u64>` on characters.
pub fn parse_u64(s: &[char]) -> (r: Option<u64>)
    ensures
        r == parse_u64_spec(s@),
{
    if s.len() == 0 || s[0] == '-' {
        return None;
    }
    let from: usize = if s[0] == '+' { 1 } else { 0 };
    if from >= s.len() {
        return None;
    }
    proof {
        assert(s@.skip(1) =~= s@.drop_first());
        assert(s@.skip(0) =~= s@);
        if from == 0 {
            assert(!is_digit(s@[0]) ==> !all_digits(s@));
        }
    }
    let r = decimal_from(s, from);
    proof {
        if r is None && all_digits(s@.skip(from as int)) {
            lemma_decimal_nonneg(s@.skip(from as int));
        }
        if r is Some {
            lemma_decimal_nonneg(s@.skip(from as int));
        }
    }
    r
}

}

verus! {

/// Where the first line feed of `s` is, or its length.
pub open spec fn line_end(s: Seq<char>) -> nat
    decreases s.len(),
{
    if s.len() == 0 || s[0] == '\n' {
        0
    } else {
        1 + line_end(s.drop_first())
    }
}

/// `str::lines`: the text split at line feeds, each line without its line
/// feed and a carriage return just before it; a final line feed ends the
/// last line and begins none.
pub open spec fn lines_spec(s: Seq<char>) -> Seq<Seq<char>>
    decreases s.len(),
{
    if s.len() == 0 {
        seq![]
    } else {
        let e = line_end(s) as int;
        if e < s.len() {
            let line = s.take(e);
            let line = if line.len() > 0 && line.last() == '\r' {
                line.drop_last()
            } else {
                line
            };
            seq![line] + lines_spec(s.skip(e + 1))
        } else {
            seq![s]
        }
    }
}

proof fn lemma_line_end(t: Seq<char>, k: int)
    requires
        0 <= k <= t.len(),
        forall|i: int| 0 <= i < k ==> t[i] != '\n',
        k == t.len() || t[k] == '\n',
    ensures
        line_end(t) == k,
    decreases k,
{
    if k > 0 {
        lemma_line_end(t.drop_first(), k - 1);
    }
}

/// `str::lines` on a text.
pub fn text_lines(text: &str) -> (lines: Vec<String>)
    ensures
        lines@.len() == lines_spec(text@).len(),
        forall|k: int| 0 <= k < lines@.len() ==> #[trigger] lines@[k]@ == lines_spec(text@)[k],
{
    let chars = chars_of(text);
    let ghost s = chars@;
    let n = chars.len();
    let mut lines: Vec<String> = Vec::new();
    let ghost mut done: Seq<Seq<char>> = seq![];
    let mut start: usize = 0;
    proof {
        assert(s.skip(0) =~= s);
    }
    while start < n
        invariant
            s == chars@,
            s == text@,
            n == s.len(),
            start <= n,
            lines@.len() == done.len(),
            forall|k: int| 0 <= k < done.len() ==> #[trigger] lines@[k]@ == done[k],
            done + lines_spec(s.skip(start as int)) == lines_spec(s),
        decreases n - start,
    {
        let mut e: usize = start;
        while e < n && chars[e] != '\n'
            invariant
                s == chars@,
                n == s.len(),
                start <= e <= n,
                forall|i: int| start <= i < e ==> s[i] != '\n',
            decreases n - e,
        {
            e += 1;
        }
        let ghost rest = s.skip(start as int);
        proof {
            lemma_line_end(rest, e - start);
        }
        let mut stop: usize = e;
        if e < n && e > start && chars[e - 1] == '\r' {
            stop = e - 1;
        }
        let mut piece: Vec<char> = Vec::new();
        let mut i: usize = start;
        while i < stop
            invariant
                s == chars@,
                n == s.len(),
                start <= i <= stop <= n,
                piece@ == s.subrange(start as int, i as int),
            decreases stop - i,
        {
            piece.push(chars[i]);
            proof {
                assert(s.subrange(start as int, i + 1) =~= s.subrange(start as int, i as int).push(s[i as int]));
            }
            i += 1;
        }
        let line = string_of(piece.as_slice());
        lines.push(line);
        let ghost this_line = s.subrange(start as int, stop as int);
        proof {
            if e < n {
                let raw = rest.take(e - start);
                assert(raw =~= s.subrange(start as int, e as int));
                if raw.len() > 0 && raw.last() == '\r' {
                    assert(raw.drop_last() =~= this_line);
                } else {
                    assert(raw =~= this_line);
                }
                assert(rest.skip(e - start + 1) =~= s.skip(e + 1));
                assert(lines_spec(rest) == seq![this_line] + lines_spec(s.skip(e + 1)));
            } else {
                assert(rest =~= this_line);
                assert(lines_spec(rest) == seq![this_line]);
                assert(s.skip(n as int) =~= Seq::<char>::empty());
                assert(lines_spec(s.skip(n as int)) == Seq::<Seq<char>>::empty());
            }
            done = done.push(this_line);
        }
        if e < n {
            start = e + 1;
        } else {
            start = n;
        }
        proof {
            assert(done + lines_spec(s.skip(start as int)) =~= lines_spec(s));
        }
    }
    proof {
        assert(s.skip(n as int) =~= Seq::<char>::empty());
        assert(done =~= lines_spec(s));
    }
    lines
}

} // verus!
