//! The HTTP client's configuration: timeout, User-Agent, redirect policy, TLS
//! checking and the extra headers given as `Key: Value` lines.

use reqwest::header::{HeaderMap, HeaderName, HeaderValue};
use vstd::prelude::*;
use crate::cli::Args;
use crate::text::{chars_of, string_of_range, trim_bounds, trim_ws};
use crate::wordlist::opt_text;

verus! {

broadcast use vstd::string::group_string_axioms;

/// A header-name character (an RFC 9110 `tchar`): an ASCII letter or digit,
/// or one of ``!#$%&'*+-.^_`|~``.
pub open spec fn is_tchar(c: char) -> bool {
    let n = c as u32;
    ||| 48 <= n <= 57
    ||| 65 <= n <= 90
    ||| 97 <= n <= 122
    ||| c == '!' || c == '#' || c == '$' || c == '%' || c == '&' || c == '\''
    ||| c == '*' || c == '+' || c == '-' || c == '.' || c == '^' || c == '_'
    ||| c == '`' || c == '|' || c == '~'
}

/// `c` with an ASCII capital turned into its small letter.
pub open spec fn ascii_lower(c: char) -> char {
    if 65 <= c as u32 <= 90 {
        ((c as u32) + 32) as char
    } else {
        c
    }
}

/// The header name written as `k`: `k` in small letters, when it is 1 to
/// 65535 characters long and every character is a `tchar`.
pub open spec fn header_name_spec(k: Seq<char>) -> Option<Seq<char>> {
    if 1 <= k.len() <= 65535 && (forall|i: int| 0 <= i < k.len() ==> is_tchar(#[trigger] k[i])) {
        Some(Seq::new(k.len(), |i: int| ascii_lower(k[i])))
    } else {
        None
    }
}

/// A header value may hold tabs and any character from space upwards except DEL.
pub open spec fn header_value_ok(v: Seq<char>) -> bool {
    forall|i: int| 0 <= i < v.len() ==> #[trigger] v[i] == '\t' || (v[i] as u32 >= 32 && v[i] as u32 != 127)
}

/// `HeaderName::from_bytes` (the `http` crate, re-exported by reqwest) on the
/// bytes of `k`, giving back the normalized name as text. The source accepts
/// 1 to 65535 bytes that are all `tchar`s and lowercases ASCII letters.
#[verifier::external_body]
fn header_name_from(k: &str) -> (r: Option<String>)
    ensures
        opt_text(r) == header_name_spec(k@),
{
    match HeaderName::from_bytes(k.as_bytes()) {
        Ok(n) => Some(n.as_str().to_string()),
        Err(_) => None,
    }
}

/// `HeaderValue::from_str` (the `http` crate, re-exported by reqwest): it
/// accepts exactly the strings whose bytes are all tab, or at least 32 and not
/// 127; in terms of characters, every non-ASCII character is accepted.
#[verifier::external_body]
fn header_value_accepted(v: &str) -> (b: bool)
    ensures
        b == header_value_ok(v@),
{
    match HeaderValue::from_str(v) {
        Ok(_) => true,
        Err(_) => false,
    }
}

/// The index of the first `c` in `s`, if any.
pub open spec fn first_index(s: Seq<char>, c: char) -> Option<int> {
    if exists|i: int| 0 <= i < s.len() && s[i] == c {
        Some(choose|i: int| 0 <= i < s.len() && s[i] == c && forall|k: int| 0 <= k < i ==> s[k] != c)
    } else {
        None
    }
}

/// The header a `Key: Value` line adds: the line is cut at its first colon,
/// both halves trimmed; the line adds nothing when it has no colon, or the
/// name or the value is not valid.
pub open spec fn header_entry_spec(line: Seq<char>) -> Option<(Seq<char>, Seq<char>)> {
    match first_index(line, ':') {
        Some(i) => {
            let k = trim_ws(line.subrange(0, i));
            let v = trim_ws(line.subrange(i + 1, line.len() as int));
            match header_name_spec(k) {
                Some(n) => if header_value_ok(v) {
                    Some((n, v))
                } else {
                    None
                },
                None => None,
            }
        },
        None => None,
    }
}

/// `entries` with `name` set to `value`: in place when the name is there
/// already, at the end otherwise.
pub open spec fn set_header(entries: Seq<(Seq<char>, Seq<char>)>, name: Seq<char>, value: Seq<char>) -> Seq<
    (Seq<char>, Seq<char>),
> {
    if exists|i: int| 0 <= i < entries.len() && entries[i].0 == name {
        let i = choose|i: int| 0 <= i < entries.len() && entries[i].0 == name;
        entries.update(i, (name, value))
    } else {
        entries.push((name, value))
    }
}

/// The headers given by `Key: Value` lines, in order of first appearance of
/// each name, each with the value of its last valid line.
pub open spec fn headers_spec(lines: Seq<Seq<char>>) -> Seq<(Seq<char>, Seq<char>)>
    decreases lines.len(),
{
    if lines.len() == 0 {
        Seq::empty()
    } else {
        let prev = headers_spec(lines.drop_last());
        match header_entry_spec(lines.last()) {
            Some(e) => set_header(prev, e.0, e.1),
            None => prev,
        }
    }
}

/// No name occurs twice.
pub open spec fn names_distinct(entries: Seq<(Seq<char>, Seq<char>)>) -> bool {
    forall|i: int, j: int|
        0 <= i < j < entries.len() ==> #[trigger] entries[i].0 != #[trigger] entries[j].0
}

/// Up to this many entries, inserting into a header map never needs to grow it
/// past its maximum size (32768 slots): growth fails only once the map holds
/// at least 6554 entries and its hash table is crowded, or 24576 entries.
pub const HEADER_MAP_ROOM: usize = 6553;

/// The `http` crate's header map (re-exported by reqwest), opaque here.
#[verifier::external_type_specification]
#[verifier::external_body]
#[verifier::reject_recursive_types(T)]
pub struct ExHeaderMap<T>(HeaderMap<T>);

/// The `http` crate's header value (re-exported by reqwest), opaque here.
#[verifier::external_type_specification]
#[verifier::external_body]
pub struct ExHeaderValue(HeaderValue);

/// What a header map holds, in its iteration order: (name, value) pairs, the
/// name as the map normalized it.
pub uninterp spec fn header_entries(m: HeaderMap) -> Seq<(Seq<char>, Seq<char>)>;

/// `HeaderMap::new`: a map holding nothing.
#[verifier::external_body]
fn empty_header_map() -> (m: HeaderMap)
    ensures
        header_entries(m) == Seq::<(Seq<char>, Seq<char>)>::empty(),
{
    HeaderMap::new()
}

/// `HeaderMap::try_insert`, with the name and value converted by
/// `HeaderName::from_bytes` and `HeaderValue::from_str` (which the contract
/// requires to accept them). The source keeps entries in a vector: a new name
/// is appended; an existing name keeps its place, gets the new value, and loses
/// any other values. It fails (`false`) only when the map would have to grow
/// past its maximum size, which needs more than `HEADER_MAP_ROOM` entries, and
/// then leaves the entries as they were. Whether a map holding more than that
/// many entries can still grow depends on the hashes of its names; that is
/// left open.
#[verifier::external_body]
fn header_map_try_insert(m: &mut HeaderMap, name: &str, value: &str) -> (ok: bool)
    requires
        header_name_spec(name@) is Some,
        header_value_ok(value@),
        names_distinct(header_entries(*old(m))),
    ensures
        ok ==> header_entries(*final(m)) == set_header(
            header_entries(*old(m)),
            header_name_spec(name@)->0,
            value@,
        ),
        !ok ==> header_entries(*final(m)) == header_entries(*old(m)) && header_entries(
            *old(m),
        ).len() > HEADER_MAP_ROOM,
{
    let name = HeaderName::from_bytes(name.as_bytes()).unwrap();
    match m.try_insert(name, HeaderValue::from_str(value).unwrap()) {
        Ok(_) => true,
        Err(_) => false,
    }
}

/// The header a `Key: Value` line adds, if any.
pub fn header_entry(line: &str) -> (r: Option<(String, String)>)
    ensures
        r matches Some(e) ==> header_entry_spec(line@) == Some((e.0@, e.1@)),
        r is None ==> header_entry_spec(line@) is None,
{
    let cs = chars_of(line);
    let n = cs.len();
    let mut i: usize = 0;
    while i < n && cs[i] != ':'
        invariant
            i <= n == cs@.len(),
            forall|k: int| 0 <= k < i ==> cs@[k] != ':',
        decreases n - i,
    {
        i = i + 1;
    }
    if i == n {
        return None;
    }
    proof {
        let s = line@;
        assert(s[i as int] == ':');
        let j = choose|j: int| 0 <= j < s.len() && s[j] == ':' && forall|k: int| 0 <= k < j ==> s[k] != ':';
        assert(j == i as int) by {
            if j < i {
                assert(s[j] != ':');
            }
            if i < j {
                assert(s[i as int] != ':');
            }
        }
    }
    let key = string_of_range(&cs, 0, i);
    let value = string_of_range(&cs, i + 1, n);
    let kc = chars_of(key.as_str());
    let vc = chars_of(value.as_str());
    let (klo, khi) = trim_bounds(&kc);
    let (vlo, vhi) = trim_bounds(&vc);
    let k = string_of_range(&kc, klo, khi);
    let v = string_of_range(&vc, vlo, vhi);
    match header_name_from(k.as_str()) {
        Some(name) => {
            if header_value_accepted(v.as_str()) {
                Some((name, v))
            } else {
                None
            }
        },
        None => None,
    }
}

/// Setting a header never removes an entry.
pub proof fn lemma_set_header_grows(entries: Seq<(Seq<char>, Seq<char>)>, name: Seq<char>, value: Seq<char>)
    ensures
        set_header(entries, name, value).len() >= entries.len(),
{
}

/// The headers of a prefix of the lines are no more than those of all lines.
pub proof fn lemma_headers_spec_prefix(ls: Seq<Seq<char>>, i: int)
    requires
        0 <= i <= ls.len(),
    ensures
        headers_spec(ls.take(i)).len() <= headers_spec(ls).len(),
    decreases ls.len(),
{
    if i == ls.len() {
        assert(ls.take(i) =~= ls);
    } else {
        let rest = ls.drop_last();
        lemma_headers_spec_prefix(rest, i);
        assert(rest.take(i) =~= ls.take(i));
        match header_entry_spec(ls.last()) {
            Some(e) => lemma_set_header_grows(headers_spec(rest), e.0, e.1),
            None => {},
        }
    }
}

/// Setting a header keeps names distinct.
pub proof fn lemma_set_header_distinct(
    entries: Seq<(Seq<char>, Seq<char>)>,
    name: Seq<char>,
    value: Seq<char>,
)
    requires
        names_distinct(entries),
    ensures
        names_distinct(set_header(entries, name, value)),
{
    let r = set_header(entries, name, value);
    if exists|i: int| 0 <= i < entries.len() && entries[i].0 == name {
        let i = choose|i: int| 0 <= i < entries.len() && entries[i].0 == name;
        assert forall|a: int, b: int| 0 <= a < b < r.len() implies #[trigger] r[a].0 != #[trigger] r[b].0 by {
            if a != i && b != i {
                assert(r[a] == entries[a] && r[b] == entries[b]);
            } else if a == i {
                assert(entries[b].0 != entries[i].0);
            } else {
                assert(entries[a].0 != entries[i].0);
            }
        }
    } else {
        assert forall|a: int, b: int| 0 <= a < b < r.len() implies #[trigger] r[a].0 != #[trigger] r[b].0 by {
            if b == entries.len() {
                assert(r[a] == entries[a]);
            } else {
                assert(r[a] == entries[a] && r[b] == entries[b]);
            }
        }
    }
}

/// The header name `header_name_spec` gives is its own normalization.
proof fn lemma_header_name_normal(k: Seq<char>)
    requires
        header_name_spec(k) is Some,
    ensures
        header_name_spec(header_name_spec(k)->0) == header_name_spec(k),
{
    let n = header_name_spec(k)->0;
    assert forall|i: int| 0 <= i < n.len() implies is_tchar(#[trigger] n[i]) by {
        assert(is_tchar(k[i]));
    }
    assert(Seq::new(n.len(), |i: int| ascii_lower(n[i])) =~= n);
}

/// The header a line adds has a valid, already normalized name and a valid value.
proof fn lemma_header_entry_valid(line: Seq<char>)
    requires
        header_entry_spec(line) is Some,
    ensures
        header_entry_spec(line) matches Some(e) ==> header_name_spec(e.0) == Some(e.0)
            && header_value_ok(e.1),
{
    let i = first_index(line, ':')->0;
    let k = trim_ws(line.subrange(0, i));
    lemma_header_name_normal(k);
}

/// The headers of any lines have distinct names.
pub proof fn lemma_headers_spec_distinct(ls: Seq<Seq<char>>)
    ensures
        names_distinct(headers_spec(ls)),
    decreases ls.len(),
{
    if ls.len() > 0 {
        lemma_headers_spec_distinct(ls.drop_last());
        match header_entry_spec(ls.last()) {
            Some(e) => lemma_set_header_distinct(headers_spec(ls.drop_last()), e.0, e.1),
            None => {},
        }
    }
}

/// A line that is not a valid header changes nothing, and repeating the last
/// line changes nothing: however many copies of one header are given, the
/// headers are those of a single copy.
pub proof fn lemma_headers_ignore_invalid_and_repeats(ls: Seq<Seq<char>>, line: Seq<char>)
    ensures
        header_entry_spec(line) is None ==> headers_spec(ls.push(line)) == headers_spec(ls),
        headers_spec(ls.push(line).push(line)) == headers_spec(ls.push(line)),
{
    assert(ls.push(line).drop_last() =~= ls);
    assert(ls.push(line).push(line).drop_last() =~= ls.push(line));
    if let Some(e) = header_entry_spec(line) {
        let prev = headers_spec(ls);
        let once = set_header(prev, e.0, e.1);
        lemma_headers_spec_distinct(ls);
        lemma_set_header_distinct(prev, e.0, e.1);
        // `once` holds the name exactly once, with this value.
        let k = choose|k: int| 0 <= k < once.len() && once[k].0 == e.0;
        if exists|i: int| 0 <= i < prev.len() && prev[i].0 == e.0 {
            let i = choose|i: int| 0 <= i < prev.len() && prev[i].0 == e.0;
            assert(once[i].0 == e.0);
        } else {
            assert(once[prev.len() as int].0 == e.0);
        }
        assert(once[k] == (e.0, e.1)) by {
            if exists|i: int| 0 <= i < prev.len() && prev[i].0 == e.0 {
                let i = choose|i: int| 0 <= i < prev.len() && prev[i].0 == e.0;
                if k != i {
                    assert(once[k].0 != once[i].0 || k == i);
                }
            } else {
                let j = prev.len() as int;
                if k != j {
                    assert(k < j ==> once[k].0 != once[j].0);
                }
            }
        }
        assert(set_header(once, e.0, e.1) =~= once);
    }
}

/// A header line is cut at its first colon: for a key part without colons,
/// `key:value` gives the key trimmed and normalized and the value trimmed
/// (colons in the value are kept), provided both are valid; a line without a
/// colon gives nothing.
pub proof fn lemma_header_entry_split(key: Seq<char>, value: Seq<char>)
    requires
        forall|k: int| 0 <= k < key.len() ==> key[k] != ':',
    ensures
        header_entry_spec(key + seq![':'] + value) == match header_name_spec(trim_ws(key)) {
            Some(n) => if header_value_ok(trim_ws(value)) {
                Some((n, trim_ws(value)))
            } else {
                None
            },
            None => None,
        },
        header_entry_spec(key) is None,
{
    let line = key + seq![':'] + value;
    let i = key.len() as int;
    assert(line[i] == ':');
    assert(forall|k: int| 0 <= k < i ==> line[k] == key[k]);
    let j = choose|j: int| 0 <= j < line.len() && line[j] == ':' && forall|k: int| 0 <= k < j ==> line[k] != ':';
    assert(j == i) by {
        if j < i {
            assert(line[j] == key[j]);
        }
        if i < j {
            assert(line[i] != ':');
        }
    }
    assert(line.subrange(0, i) =~= key);
    assert(line.subrange(i + 1, line.len() as int) =~= value);
    assert(!(exists|k: int| 0 <= k < key.len() && key[k] == ':'));
}

/// A later valid line for a name wins: after it, the name occurs exactly once,
/// with that line's value, and every other name keeps its entry and place.
pub proof fn lemma_later_header_wins(ls: Seq<Seq<char>>, line: Seq<char>)
    requires
        header_entry_spec(line) is Some,
    ensures
        ({
            let e = header_entry_spec(line)->0;
            let before = headers_spec(ls);
            let after = headers_spec(ls.push(line));
            &&& exists|i: int| 0 <= i < after.len() && #[trigger] after[i] == e
            &&& forall|i: int| 0 <= i < after.len() && #[trigger] after[i].0 == e.0 ==> after[i] == e
            &&& forall|i: int| 0 <= i < before.len() && #[trigger] before[i].0 != e.0 ==> after[i] == before[i]
        }),
{
    let e = header_entry_spec(line)->0;
    let before = headers_spec(ls);
    assert(ls.push(line).drop_last() =~= ls);
    assert(ls.push(line).last() == line);
    let after = headers_spec(ls.push(line));
    assert(after == set_header(before, e.0, e.1));
    lemma_headers_spec_distinct(ls);
    lemma_set_header_distinct(before, e.0, e.1);
    if exists|i: int| 0 <= i < before.len() && before[i].0 == e.0 {
        let i = choose|i: int| 0 <= i < before.len() && before[i].0 == e.0;
        assert(after[i] == e);
        assert forall|k: int| 0 <= k < after.len() && #[trigger] after[k].0 == e.0 implies after[k] == e by {
            if k != i {
                if k < i {
                    assert(after[k].0 != after[i].0);
                } else {
                    assert(after[i].0 != after[k].0);
                }
            }
        }
    } else {
        let i = before.len() as int;
        assert(after[i] == e);
        assert forall|k: int| 0 <= k < after.len() && #[trigger] after[k].0 == e.0 implies after[k] == e by {
            if k < i {
                assert(after[k] == before[k]);
            }
        }
    }
}

/// The headers the `-H` lines give, as a header map: each valid line sets its
/// (lowercased) name; a later line for the same name replaces the earlier
/// value in place. Lines that are not valid headers add nothing. Building the
/// map always succeeds for up to `HEADER_MAP_ROOM` distinct names; beyond
/// that the map itself may refuse to grow, and then the result is `None`.
pub fn parse_headers(lines: &Vec<String>) -> (r: Option<HeaderMap>)
    ensures
        headers_spec(lines.deep_view()).len() <= HEADER_MAP_ROOM ==> r is Some,
        r matches Some(m) ==> header_entries(m) == headers_spec(lines.deep_view()),
        r matches Some(m) ==> names_distinct(header_entries(m)),
{
    let ghost ls = lines.deep_view();
    let mut m = empty_header_map();
    let mut i: usize = 0;
    assert(ls.take(0) =~= Seq::<Seq<char>>::empty());
    while i < lines.len()
        invariant
            i <= lines@.len(),
            ls == lines.deep_view(),
            header_entries(m) == headers_spec(ls.take(i as int)),
            names_distinct(header_entries(m)),
        decreases lines.len() - i,
    {
        assert(ls[i as int] == lines@[i as int]@);
        assert(ls.take(i + 1).drop_last() =~= ls.take(i as int));
        match header_entry(lines[i].as_str()) {
            Some((name, value)) => {
                proof {
                    lemma_header_entry_valid(lines@[i as int]@);
                    lemma_set_header_distinct(header_entries(m), name@, value@);
                }
                if !header_map_try_insert(&mut m, name.as_str(), value.as_str()) {
                    proof {
                        lemma_headers_spec_prefix(ls, i as int);
                    }
                    return None;
                }
            },
            None => {},
        }
        i = i + 1;
    }
    assert(ls.take(lines.len() as int) =~= ls);
    Some(m)
}

/// How the HTTP client is built.
pub struct ClientConfig {
    /// Request timeout in seconds.
    pub timeout_secs: u64,
    /// The User-Agent sent by default.
    pub user_agent: String,
    /// Headers sent with every request.
    pub headers: HeaderMap,
    /// How many redirects are followed; `None` follows none.
    pub redirect_limit: Option<usize>,
    /// Whether invalid TLS certificates are accepted.
    pub insecure: bool,
}

/// The HTTP client configuration the options describe: redirects are followed
/// up to 5 deep when asked for, and the `-H` lines become default headers.
/// Always `Some` for up to `HEADER_MAP_ROOM` distinct header names; beyond
/// that, `None` when the header map refuses to grow.
pub fn client_config(args: &Args) -> (r: Option<ClientConfig>)
    ensures
        headers_spec(args.header.deep_view()).len() <= HEADER_MAP_ROOM ==> r is Some,
        r matches Some(c) ==> {
            &&& c.timeout_secs == args.timeout
            &&& c.user_agent@ == args.user_agent@
            &&& header_entries(c.headers) == headers_spec(args.header.deep_view())
            &&& names_distinct(header_entries(c.headers))
            &&& c.redirect_limit == (if args.follow_redirects { Some(5usize) } else { None })
            &&& c.insecure == args.insecure
        },
{
    match parse_headers(&args.header) {
        Some(headers) => Some(
            ClientConfig {
                timeout_secs: args.timeout,
                user_agent: args.user_agent.clone(),
                headers,
                redirect_limit: if args.follow_redirects { Some(5) } else { None },
                insecure: args.insecure,
            },
        ),
        None => None,
    }
}

} // verus!
