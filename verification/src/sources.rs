use vstd::prelude::*;
use url::Url;
use crate::text::{lines_spec, string_of, text_lines, trim, trim_whitespace, chars_of};
use crate::world_parse::{add_string, distinct_strings, string_set};

verus! {

/// The URL that `url::Url::join` makes of `input` against the base URL
/// `base`, as text, or nothing when either does not parse.
pub uninterp spec fn joined_url(base: Seq<char>, input: Seq<char>) -> Option<Seq<char>>;

/// Calls `url::Url::parse` on `base` and `url::Url::join` with `input` on
/// the result, and gives the joined URL's text; nothing when either call
/// fails. The contract names the result and says nothing more of it.
#[verifier::external_body]
fn url_join(base: &str, input: &str) -> (r: Option<String>)
    ensures
        match r {
            Some(u) => joined_url(base@, input@) == Some(u@),
            None => joined_url(base@, input@) is None,
        },
{
    match Url::parse(base) {
        Ok(b) => match b.join(input) {
            Ok(u) => Some(u.as_str().to_string()),
            Err(_) => None,
        },
        Err(_) => None,
    }
}

/// Where the sector data of the map are published.
pub open spec fn data_base() -> Seq<char> {
    "https://travellermap.com/data/"@
}

fn append_text(s: &String, tail: &str) -> (r: String)
    ensures
        r@ == s@ + tail@,
{
    let a = chars_of(s.as_str());
    let b = chars_of(tail);
    let mut v: Vec<char> = Vec::new();
    let mut i: usize = 0;
    while i < a.len()
        invariant
            i <= a@.len(),
            v@ == a@.take(i as int),
        decreases a@.len() - i,
    {
        v.push(a[i]);
        proof {
            assert(a@.take(i + 1) =~= a@.take(i as int).push(a@[i as int]));
        }
        i += 1;
    }
    let mut j: usize = 0;
    while j < b.len()
        invariant
            j <= b@.len(),
            v@ == a@ + b@.take(j as int),
        decreases b@.len() - j,
    {
        v.push(b[j]);
        proof {
            assert(b@.take(j + 1) =~= b@.take(j as int).push(b@[j as int]));
        }
        j += 1;
    }
    proof {
        assert(a@.take(a@.len() as int) =~= a@);
        assert(b@.take(b@.len() as int) =~= b@);
    }
    string_of(v.as_slice())
}

/// The URLs of a sector's data file and of its metadata: the sector's name,
/// and its name followed by `/metadata`, against the published data's base.
pub fn sector_data_urls(sector_name: &String) -> (r: (Option<String>, Option<String>))
    ensures
        match r.0 {
            Some(u) => joined_url(data_base(), sector_name@) == Some(u@),
            None => joined_url(data_base(), sector_name@) is None,
        },
        match r.1 {
            Some(u) => joined_url(data_base(), sector_name@ + "/metadata"@) == Some(u@),
            None => joined_url(data_base(), sector_name@ + "/metadata"@) is None,
        },
{
    let base = "https://travellermap.com/data/";
    let data = url_join(base, sector_name.as_str());
    let path = append_text(sector_name, "/metadata");
    let metadata = url_join(base, path.as_str());
    (data, metadata)
}

/// Reads a file of sector names: one name per line, trimmed, each once.
pub fn parse_file_of_sectors(text: &str) -> (names: Vec<String>)
    ensures
        distinct_strings(names@),
        string_set(names@) == lines_spec(text@).map_values(|l: Seq<char>| trim(l)).to_set(),
{
    let lines = text_lines(text);
    let ghost ls = lines_spec(text@);
    let ghost trimmed = ls.map_values(|l: Seq<char>| trim(l));
    let mut names: Vec<String> = Vec::new();
    let mut i: usize = 0;
    while i < lines.len()
        invariant
            lines@.len() == ls.len(),
            trimmed == ls.map_values(|l: Seq<char>| trim(l)),
            forall|k: int| 0 <= k < lines@.len() ==> #[trigger] lines@[k]@ == ls[k],
            i <= lines@.len(),
            distinct_strings(names@),
            string_set(names@) == trimmed.take(i as int).to_set(),
        decreases lines@.len() - i,
    {
        let cs = chars_of(lines[i].as_str());
        let t = trim_whitespace(cs.as_slice());
        let name = string_of(t.as_slice());
        add_string(&mut names, name);
        proof {
            assert(trimmed.take(i + 1) =~= trimmed.take(i as int).push(trimmed[i as int]));
            trimmed.take(i as int).lemma_push_to_set_commute(trimmed[i as int]);
        }
        i += 1;
    }
    proof {
        assert(trimmed.take(lines@.len() as int) =~= trimmed);
    }
    names
}

} // verus!
