//! The decisions of a scan: which URL or Host each word is probed with, when a
//! failed request is retried, which responses become hits, and how hits are written.

use rand::seq::SliceRandom;
use vstd::prelude::*;
use crate::cli::Args;
use crate::client::{header_entry, header_entry_spec};
use crate::filter::ResponseFilter;
use crate::text::{
    chars_of, decimal, decimal_chars, lemma_trim_end_char_last, lemma_trim_end_char_shape,
    lemma_trim_start_char_first, lemma_trim_start_char_shape, leading_run, trailing_keep, string_of, string_of_range, trim_bounds, trim_end_char,
    trim_end_char_index, trim_start_char, trim_start_char_index, trim_ws,
};
use vstd::string::StringExecFns;

verus! {

broadcast use vstd::string::group_string_axioms;

/// A reported response.
#[derive(Clone, Debug)]
pub struct HitResult {
    /// The probed URL (directory mode) or virtual host name (vhost mode).
    pub url: String,
    pub status: u16,
    /// The response's content length, 0 when it has none.
    pub length: u64,
    /// The `Location` header, when present and readable as text.
    pub redirect: Option<String>,
}

/// What the scanner reads of a response.
#[derive(Clone, Debug)]
pub struct ResponseInfo {
    pub status: u16,
    /// The content length the response announces, if any.
    pub content_length: Option<u64>,
    /// The `Location` header, when present and readable as text.
    pub location: Option<String>,
}

// ---------------------------------------------------------------------------
// Targets
// ---------------------------------------------------------------------------

/// The scan's base URL: the target URL without trailing slashes.
pub fn scan_base(url: &str) -> (base: String)
    ensures
        base@ == trim_end_char(url@, '/'),
{
    let cs = chars_of(url);
    let j = trim_end_char_index(&cs, '/');
    string_of_range(&cs, 0, j)
}

/// The URL probed for a word in directory mode.
pub open spec fn path_target_spec(base: Seq<char>, word: Seq<char>) -> Seq<char> {
    base + seq!['/'] + trim_start_char(word, '/')
}

/// The URL probed for a word: the base, one slash, and the word without its
/// leading slashes.
pub fn path_target(base: &str, word: &str) -> (target: String)
    ensures
        target@ == path_target_spec(base@, word@),
{
    let cs = chars_of(word);
    let i = trim_start_char_index(&cs, '/');
    let rest = string_of_range(&cs, i, cs.len());
    let mut t = base.to_owned();
    t.push('/');
    t.append(rest.as_str());
    assert(t@ =~= path_target_spec(base@, word@));
    t
}

/// The probed URL joins the base URL and the word with exactly one slash: the
/// base keeps no trailing slash and the word part no leading one.
pub proof fn lemma_single_slash_join(url: Seq<char>, word: Seq<char>)
    ensures
        ({
            let base = trim_end_char(url, '/');
            let t = path_target_spec(base, word);
            &&& t[base.len() as int] == '/'
            &&& base.len() > 0 ==> t[base.len() - 1] != '/'
            &&& t.len() > base.len() + 1 ==> t[base.len() as int + 1] != '/'
        }),
{
    lemma_trim_end_char_last(url, '/');
    lemma_trim_start_char_first(word, '/');
    let base = trim_end_char(url, '/');
    let w = trim_start_char(word, '/');
    let t = path_target_spec(base, word);
    assert(t == base + seq!['/'] + w);
    if base.len() > 0 {
        assert(t[base.len() - 1] == base.last());
    }
    if t.len() > base.len() + 1 {
        assert(t[base.len() as int + 1] == w[0]);
    }
}

/// The probed URL is the base, one slash, and the word with only its leading
/// slashes removed: every character after them is kept, whatever it is.
pub proof fn lemma_path_target_keeps_word(base: Seq<char>, word: Seq<char>)
    ensures
        exists|k: int|
            #![trigger word.subrange(k, word.len() as int)]
            0 <= k <= word.len() && (forall|j: int| 0 <= j < k ==> #[trigger] word[j] == '/') && (k
                < word.len() ==> word[k] != '/') && path_target_spec(base, word) == base + seq!['/']
                + word.subrange(k, word.len() as int),
        word.len() == 0 || word[0] != '/' ==> path_target_spec(base, word) == base + seq!['/'] + word,
{
    lemma_trim_start_char_shape(word, '/');
    let k = leading_run(word, '/') as int;
    assert(path_target_spec(base, word) == base + seq!['/'] + word.subrange(k, word.len() as int));
    if word.len() == 0 || word[0] != '/' {
        assert(k == 0);
        assert(word.subrange(0, word.len() as int) =~= word);
    }
}

/// The scan's base URL is the target URL with only its trailing slashes
/// removed: every character up to the last one that is not a slash is kept.
pub proof fn lemma_scan_base_keeps_url(url: Seq<char>)
    ensures
        exists|j: int|
            #![trigger url.subrange(0, j)]
            0 <= j <= url.len() && (forall|i: int| j <= i < url.len() ==> #[trigger] url[i] == '/')
                && (j > 0 ==> url[j - 1] != '/') && trim_end_char(url, '/') == url.subrange(0, j),
        url.len() == 0 || url.last() != '/' ==> trim_end_char(url, '/') == url,
{
    lemma_trim_end_char_shape(url, '/');
    let j = trailing_keep(url, '/') as int;
    assert(trim_end_char(url, '/') == url.subrange(0, j));
    if url.len() == 0 || url.last() != '/' {
        assert(url.subrange(0, url.len() as int) =~= url);
    }
}

/// The virtual host probed for a word in vhost mode.
pub open spec fn vhost_name_spec(word: Seq<char>, domain: Seq<char>) -> Seq<char> {
    trim_ws(word) + seq!['.'] + domain
}

/// The virtual host probed for a word: the trimmed word, a dot, and the domain.
pub fn vhost_name(word: &str, domain: &str) -> (host: String)
    ensures
        host@ == vhost_name_spec(word@, domain@),
{
    let cs = chars_of(word);
    let (lo, hi) = trim_bounds(&cs);
    let mut h = string_of_range(&cs, lo, hi);
    h.push('.');
    h.append(domain);
    assert(h@ =~= vhost_name_spec(word@, domain@));
    h
}

/// The URL requested in vhost mode: the base followed by a slash.
pub fn vhost_target(base: &str) -> (target: String)
    ensures
        target@ == base@.push('/'),
{
    let mut t = base.to_owned();
    t.push('/');
    t
}

/// The host named by a URL: what follows `scheme://` up to the first `/`,
/// without a `:port` suffix.
pub open spec fn url_host_spec(url: Seq<char>) -> Seq<char> {
    let rest = after_scheme(url);
    let authority = before_char(rest, '/');
    before_char(authority, ':')
}

/// `s` after its first `://`, or all of `s` when it has none.
pub open spec fn after_scheme(s: Seq<char>) -> Seq<char> {
    if exists|i: int| 0 <= i && i + 3 <= s.len() && is_scheme_sep_at(s, i) {
        let i = choose|i: int|
            0 <= i && i + 3 <= s.len() && is_scheme_sep_at(s, i) && forall|k: int|
                0 <= k < i ==> !is_scheme_sep_at(s, k);
        s.subrange(i + 3, s.len() as int)
    } else {
        s
    }
}

/// `s` has `://` at position `i`.
pub open spec fn is_scheme_sep_at(s: Seq<char>, i: int) -> bool {
    0 <= i && i + 3 <= s.len() && s[i] == ':' && s[i + 1] == '/' && s[i + 2] == '/'
}

/// `s` up to (not including) its first `c`, or all of `s`.
pub open spec fn before_char(s: Seq<char>, c: char) -> Seq<char> {
    if exists|i: int| 0 <= i < s.len() && s[i] == c {
        let i = choose|i: int|
            0 <= i < s.len() && s[i] == c && forall|k: int| 0 <= k < i ==> s[k] != c;
        s.subrange(0, i)
    } else {
        s
    }
}

/// The index of the first `c` in `v[from..]`, or `v.len()`.
fn find_char(v: &[char], from: usize, c: char) -> (i: usize)
    requires
        from <= v@.len(),
    ensures
        from <= i <= v@.len(),
        forall|k: int| from <= k < i ==> v@[k] != c,
        i < v@.len() ==> v@[i as int] == c,
{
    let mut i = from;
    while i < v.len() && v[i] != c
        invariant
            from <= i <= v@.len(),
            forall|k: int| from <= k < i ==> v@[k] != c,
        decreases v.len() - i,
    {
        i = i + 1;
    }
    i
}

proof fn lemma_before_char(s: Seq<char>, c: char, i: int)
    requires
        0 <= i <= s.len(),
        forall|k: int| 0 <= k < i ==> s[k] != c,
        i < s.len() ==> s[i] == c,
    ensures
        before_char(s, c) == s.subrange(0, i),
{
    if i < s.len() {
        assert(s[i] == c);
        let j = choose|j: int|
            0 <= j < s.len() && s[j] == c && forall|k: int| 0 <= k < j ==> s[k] != c;
        assert(j == i) by {
            if j < i {
                assert(s[j] != c);
            }
            if i < j {
                assert(s[i] != c);
            }
        }
    } else {
        assert(s.subrange(0, i) =~= s);
    }
}

/// The host named by a URL (the domain fuzzed in vhost mode).
#[verifier::spinoff_prover]
pub fn url_host(url: &str) -> (host: String)
    ensures
        host@ == url_host_spec(url@),
{
    let cs = chars_of(url);
    let n = cs.len();
    // Find the first "://".
    let mut i: usize = 0;
    while i < n && n - i >= 3 && !(cs[i] == ':' && cs[i + 1] == '/' && cs[i + 2] == '/')
        invariant
            i <= n == cs@.len(),
            forall|k: int| 0 <= k < i ==> !is_scheme_sep_at(cs@, k),
        decreases n - i,
    {
        i = i + 1;
    }
    let found = i < n && n - i >= 3;
    let start: usize = if found { i + 3 } else { 0 };
    proof {
        let s = cs@;
        if found {
            assert(is_scheme_sep_at(s, i as int));
            assert(0 <= i && i + 3 <= s.len() && is_scheme_sep_at(s, i as int) && forall|k: int|
                0 <= k < i ==> !is_scheme_sep_at(s, k));
            let j = choose|j: int|
                0 <= j && j + 3 <= s.len() && is_scheme_sep_at(s, j) && forall|k: int|
                    0 <= k < j ==> !is_scheme_sep_at(s, k);
            assert(j == i as int) by {
                if j < i {
                    assert(!is_scheme_sep_at(s, j));
                }
                if i < j {
                    assert(!is_scheme_sep_at(s, i as int));
                }
            }
            assert(after_scheme(s) == s.subrange(start as int, n as int));
        } else {
            assert forall|k: int| 0 <= k && k + 3 <= s.len() implies !is_scheme_sep_at(s, k) by {
                assert(k < i || i + 3 > n);
            }
            assert(s.subrange(0, n as int) =~= s);
            assert(after_scheme(s) == s.subrange(start as int, n as int));
        }
    }
    let slash = find_char(&cs, start, '/');
    let colon = find_char(&cs, start, ':');
    let end = if colon < slash { colon } else { slash };
    proof {
        let rest = cs@.subrange(start as int, n as int);
        lemma_before_char(rest, '/', slash - start);
        let authority = rest.subrange(0, slash - start);
        assert(authority =~= cs@.subrange(start as int, slash as int));
        if colon < slash {
            lemma_before_char(authority, ':', colon - start);
        } else {
            assert forall|k: int| 0 <= k < slash - start implies authority[k] != ':' by {
                assert(authority[k] == cs@[k + start]);
            }
            lemma_before_char(authority, ':', slash - start);
        }
        assert(authority.subrange(0, end - start) =~= cs@.subrange(start as int, end as int));
    }
    string_of_range(&cs, start, end)
}

/// The value of the last valid `Host: ...` line among the `-H` lines, if any
/// (the name compared after normalization, so `HOST:` counts too).
pub open spec fn host_header_value(lines: Seq<Seq<char>>) -> Option<Seq<char>>
    decreases lines.len(),
{
    if lines.len() == 0 {
        None
    } else {
        match header_entry_spec(lines.last()) {
            Some(e) => if e.0 == seq!['h', 'o', 's', 't'] {
                Some(e.1)
            } else {
                host_header_value(lines.drop_last())
            },
            None => host_header_value(lines.drop_last()),
        }
    }
}

/// The domain fuzzed in vhost mode: the value of a `Host` header given with
/// `-H`, otherwise the host of the target URL.
pub open spec fn vhost_domain_spec(url: Seq<char>, lines: Seq<Seq<char>>) -> Seq<char> {
    match host_header_value(lines) {
        Some(h) => h,
        None => url_host_spec(url),
    }
}

/// Whether a normalized header name is `host`.
fn is_host_name(name: &String) -> (b: bool)
    ensures
        b == (name@ == seq!['h', 'o', 's', 't']),
{
    let cs = chars_of(name.as_str());
    let b = cs.len() == 4 && cs[0] == 'h' && cs[1] == 'o' && cs[2] == 's' && cs[3] == 't';
    proof {
        if b {
            assert(cs@ =~= seq!['h', 'o', 's', 't']);
        }
        if name@ == seq!['h', 'o', 's', 't'] {
            assert(cs@[0] == 'h' && cs@[1] == 'o' && cs@[2] == 's' && cs@[3] == 't');
        }
    }
    b
}

/// The domain fuzzed in vhost mode: the value of the last `Host` header given
/// with `-H` (so `-H "Host: paperwork.htb"` fuzzes `WORD.paperwork.htb`),
/// otherwise the host of the target URL.
pub fn vhost_domain(url: &str, header_lines: &Vec<String>) -> (domain: String)
    ensures
        domain@ == vhost_domain_spec(url@, header_lines.deep_view()),
{
    let ghost ls = header_lines.deep_view();
    let mut found: Option<String> = None;
    let mut i: usize = 0;
    assert(ls.take(0) =~= Seq::<Seq<char>>::empty());
    while i < header_lines.len()
        invariant
            i <= header_lines@.len(),
            ls == header_lines.deep_view(),
            host_header_value(ls.take(i as int)) == match found {
                Some(f) => Some(f@),
                None => None::<Seq<char>>,
            },
        decreases header_lines.len() - i,
    {
        assert(ls[i as int] == header_lines@[i as int]@);
        assert(ls.take(i + 1).drop_last() =~= ls.take(i as int));
        match header_entry(header_lines[i].as_str()) {
            Some((name, value)) => {
                if is_host_name(&name) {
                    found = Some(value);
                }
            },
            None => {},
        }
        i = i + 1;
    }
    assert(ls.take(header_lines.len() as int) =~= ls);
    match found {
        Some(h) => h,
        None => url_host(url),
    }
}

// ---------------------------------------------------------------------------
// Retrying failed requests
// ---------------------------------------------------------------------------

/// After a request fails on its `attempt`-th retry (0 for the first try), the
/// next retry number, or `None` when the retries are used up.
pub open spec fn next_attempt_spec(attempt: u32, retries: u32) -> Option<u32> {
    if attempt < retries {
        Some((attempt + 1) as u32)
    } else {
        None
    }
}

/// After a failed request on retry number `attempt`, whether to try again and
/// with which retry number.
pub fn next_attempt(attempt: u32, retries: u32) -> (r: Option<u32>)
    ensures
        r == next_attempt_spec(attempt, retries),
{
    if attempt < retries {
        Some(attempt + 1)
    } else {
        None
    }
}

/// The number of requests sent for one word, starting at retry number
/// `attempt`, when `ok[k]` tells whether the request on retry number `k` gets
/// a response.
pub open spec fn requests_sent(attempt: u32, retries: u32, ok: Seq<bool>) -> nat
    decreases retries - attempt,
{
    if ok[attempt as int] {
        1
    } else {
        match next_attempt_spec(attempt, retries) {
            Some(next) => 1 + requests_sent(next, retries, ok),
            None => 1,
        }
    }
}

/// Whether the requests for one word end with a response.
pub open spec fn gets_response(attempt: u32, retries: u32, ok: Seq<bool>) -> bool
    decreases retries - attempt,
{
    if ok[attempt as int] {
        true
    } else {
        match next_attempt_spec(attempt, retries) {
            Some(next) => gets_response(next, retries, ok),
            None => false,
        }
    }
}

/// A word is requested at most `retries + 1` times; it gets a response exactly
/// when one of those requests does; and when all of them fail, all
/// `retries + 1` are made.
pub proof fn lemma_retry_bound(attempt: u32, retries: u32, ok: Seq<bool>)
    requires
        attempt <= retries,
    ensures
        1 <= requests_sent(attempt, retries, ok) <= retries - attempt + 1,
        gets_response(attempt, retries, ok) <==> exists|k: int|
            attempt <= k <= retries && #[trigger] ok[k],
        (forall|k: int| attempt <= k <= retries ==> !#[trigger] ok[k]) ==> requests_sent(
            attempt,
            retries,
            ok,
        ) == retries - attempt + 1,
    decreases retries - attempt,
{
    if !ok[attempt as int] && attempt < retries {
        lemma_retry_bound((attempt + 1) as u32, retries, ok);
        if exists|k: int| attempt <= k <= retries && #[trigger] ok[k] {
            let k = choose|k: int| attempt <= k <= retries && #[trigger] ok[k];
            assert(k != attempt);
            assert((attempt + 1) as u32 <= k <= retries && ok[k]);
        }
    } else if ok[attempt as int] {
        assert(attempt <= attempt as int <= retries && ok[attempt as int]);
    }
}

// ---------------------------------------------------------------------------
// Hits
// ---------------------------------------------------------------------------

/// The length a response is judged by: its content length, or 0 without one.
pub open spec fn length_of(resp: ResponseInfo) -> u64 {
    match resp.content_length {
        Some(n) => n,
        None => 0,
    }
}

/// The length a response is judged by: its content length, or 0 without one.
pub fn response_length(resp: &ResponseInfo) -> (n: u64)
    ensures
        n == length_of(*resp),
{
    match resp.content_length {
        Some(n) => n,
        None => 0,
    }
}

/// The hit recorded for a reported response to the probe `url`.
pub open spec fn hit_for(url: Seq<char>, resp: ResponseInfo, hit: HitResult) -> bool {
    &&& hit.url@ == url
    &&& hit.status == resp.status
    &&& hit.length == length_of(resp)
    &&& hit.redirect == resp.location
}

/// The hit for a directory-mode response, when the filter reports it.
pub fn path_hit(filter: &ResponseFilter, target: &str, resp: &ResponseInfo) -> (r: Option<HitResult>)
    ensures
        r is Some <==> filter.reports(resp.status, length_of(*resp)),
        r matches Some(hit) ==> hit_for(target@, *resp, hit),
{
    let length = response_length(resp);
    if filter.allows(resp.status, length) {
        Some(
            HitResult {
                url: target.to_owned(),
                status: resp.status,
                length,
                redirect: resp.location.clone(),
            },
        )
    } else {
        None
    }
}

/// The baseline a response to the baseline request gives: its status and
/// length. A failed baseline request gives no baseline, so nothing is
/// filtered as matching it.
pub fn baseline_of(resp: &Option<ResponseInfo>) -> (b: Option<(u16, u64)>)
    ensures
        *resp matches Some(r) ==> b == Some((r.status, length_of(r))),
        *resp is None ==> b is None,
{
    match resp {
        Some(r) => Some((r.status, response_length(r))),
        None => None,
    }
}

/// A response matches a baseline exactly when it has both the baseline's
/// status and the baseline's length; a response differing in either is kept.
pub proof fn lemma_baseline_match_exact(b_status: u16, b_length: u64, status: u16, length: u64)
    ensures
        matches_baseline(Some((b_status, b_length)), status, length) <==> (status == b_status
            && length == b_length),
{
}

/// The auto-filter only drops: a vhost response is a hit exactly when it does
/// not have both the baseline's status and length and the filter reports it.
pub proof fn lemma_vhost_hit_rule(
    filter: ResponseFilter,
    b_status: u16,
    b_length: u64,
    resp: ResponseInfo,
)
    ensures
        (!matches_baseline(Some((b_status, b_length)), resp.status, length_of(resp))
            && filter.reports(resp.status, length_of(resp))) <==> ((resp.status != b_status
            || length_of(resp) != b_length) && filter.reports(resp.status, length_of(resp))),
{
}

/// Without a baseline, the auto-filter changes nothing: a response is a hit
/// exactly when the filter alone reports it.
pub proof fn lemma_no_baseline_filters_nothing(status: u16, length: u64)
    ensures
        !matches_baseline(None, status, length),
{
}

/// A response matches the baseline when it has the baseline's status and length.
pub open spec fn matches_baseline(baseline: Option<(u16, u64)>, status: u16, length: u64) -> bool {
    baseline matches Some(b) && b.0 == status && b.1 == length
}

/// The hit for a vhost-mode response: none when it matches the baseline,
/// otherwise as the filter decides.
pub fn vhost_hit(
    filter: &ResponseFilter,
    baseline: Option<(u16, u64)>,
    vhost: &str,
    resp: &ResponseInfo,
) -> (r: Option<HitResult>)
    ensures
        r is Some <==> !matches_baseline(baseline, resp.status, length_of(*resp)) && filter.reports(
            resp.status,
            length_of(*resp),
        ),
        r matches Some(hit) ==> hit_for(vhost@, *resp, hit),
{
    let length = response_length(resp);
    if let Some((b_status, b_length)) = baseline {
        if resp.status == b_status && length == b_length {
            return None;
        }
    }
    path_hit(filter, vhost, resp)
}

/// How a status is shown.
#[derive(Clone, Copy, Debug, PartialEq, Eq, Structural)]
pub enum StatusClass {
    /// 200 to 299.
    Success,
    /// 300 to 399.
    Redirect,
    /// 400 to 499.
    ClientError,
    /// 500 to 599.
    ServerError,
    /// Anything else.
    Other,
}

/// The class a status is shown in.
pub fn status_class(status: u16) -> (c: StatusClass)
    ensures
        200 <= status <= 299 <==> c == StatusClass::Success,
        300 <= status <= 399 <==> c == StatusClass::Redirect,
        400 <= status <= 499 <==> c == StatusClass::ClientError,
        500 <= status <= 599 <==> c == StatusClass::ServerError,
        (status < 200 || status > 599) <==> c == StatusClass::Other,
{
    if 200 <= status && status <= 299 {
        StatusClass::Success
    } else if 300 <= status && status <= 399 {
        StatusClass::Redirect
    } else if 400 <= status && status <= 499 {
        StatusClass::ClientError
    } else if 500 <= status && status <= 599 {
        StatusClass::ServerError
    } else {
        StatusClass::Other
    }
}

/// The line a hit is written as in a plain-text results file:
/// `URL [Status: CODE] [Size: LENGTH]`.
pub open spec fn hit_line_spec(hit: HitResult) -> Seq<char> {
    hit.url@ + " [Status: "@ + decimal(hit.status as nat) + "] [Size: "@ + decimal(
        hit.length as nat,
    ) + "]"@
}

/// The line a hit is written as in a plain-text results file.
pub fn hit_line(hit: &HitResult) -> (line: String)
    ensures
        line@ == hit_line_spec(*hit),
{
    let mut s = hit.url.clone();
    s.append(" [Status: ");
    let st = decimal_chars(hit.status as u64);
    s.append(string_of(&st).as_str());
    s.append("] [Size: ");
    let ln = decimal_chars(hit.length);
    s.append(string_of(&ln).as_str());
    s.append("]");
    s
}

// ---------------------------------------------------------------------------
// User agents
// ---------------------------------------------------------------------------

/// The User-Agent strings a random agent is drawn from.
pub open spec fn user_agents_spec() -> Seq<Seq<char>> {
    seq![
        "Mozilla/5.0 (Windows NT 10.0; Win64; x64) AppleWebKit/537.36 (KHTML, like Gecko) Chrome/125.0.0.0 Safari/537.36"@,
        "Mozilla/5.0 (Macintosh; Intel Mac OS X 10_15_7) AppleWebKit/537.36 (KHTML, like Gecko) Chrome/125.0.0.0 Safari/537.36"@,
        "Mozilla/5.0 (X11; Linux x86_64) AppleWebKit/537.36 (KHTML, like Gecko) Chrome/125.0.0.0 Safari/537.36"@,
        "Mozilla/5.0 (Windows NT 10.0; Win64; x64; rv:126.0) Gecko/20100101 Firefox/126.0"@,
        "Mozilla/5.0 (Macintosh; Intel Mac OS X 10_15_7) AppleWebKit/605.1.15 (KHTML, like Gecko) Version/17.5 Safari/605.1.15"@,
        "Mozilla/5.0 (Windows NT 10.0; Win64; x64) AppleWebKit/537.36 (KHTML, like Gecko) Chrome/125.0.0.0 Safari/537.36 Edg/125.0.0.0"@,
        "Mozilla/5.0 (X11; Ubuntu; Linux x86_64; rv:126.0) Gecko/20100101 Firefox/126.0"@,
        "Mozilla/5.0 (Windows NT 10.0; Win64; x64) AppleWebKit/537.36 (KHTML, like Gecko) Chrome/124.0.0.0 Safari/537.36"@,
        "Mozilla/5.0 (Macintosh; Intel Mac OS X 10.15; rv:126.0) Gecko/20100101 Firefox/126.0"@,
        "Mozilla/5.0 (X11; Linux x86_64; rv:126.0) Gecko/20100101 Firefox/126.0"@,
        "Mozilla/5.0 (Windows NT 10.0; Win64; x64) AppleWebKit/537.36 (KHTML, like Gecko) Chrome/123.0.0.0 Safari/537.36"@,
        "Mozilla/5.0 (Macintosh; Intel Mac OS X 10_15_7) AppleWebKit/537.36 (KHTML, like Gecko) Chrome/124.0.0.0 Safari/537.36"@,
        "Mozilla/5.0 (Windows NT 10.0; Win64; x64; rv:125.0) Gecko/20100101 Firefox/125.0"@,
        "Mozilla/5.0 (X11; Linux x86_64) AppleWebKit/537.36 (KHTML, like Gecko) Chrome/124.0.0.0 Safari/537.36"@,
        "Mozilla/5.0 (Windows NT 10.0; Win64; x64) AppleWebKit/537.36 (KHTML, like Gecko) Chrome/122.0.0.0 Safari/537.36"@,
        "Mozilla/5.0 (Macintosh; Intel Mac OS X 10_15_7) AppleWebKit/537.36 (KHTML, like Gecko) Chrome/123.0.0.0 Safari/537.36"@,
        "Mozilla/5.0 (X11; Ubuntu; Linux x86_64; rv:125.0) Gecko/20100101 Firefox/125.0"@,
        "Mozilla/5.0 (Windows NT 10.0; Win64; x64) AppleWebKit/537.36 (KHTML, like Gecko) Chrome/121.0.0.0 Safari/537.36"@,
        "Mozilla/5.0 (Macintosh; Intel Mac OS X 10.15; rv:125.0) Gecko/20100101 Firefox/125.0"@,
        "Mozilla/5.0 (X11; Linux x86_64; rv:125.0) Gecko/20100101 Firefox/125.0"@,
    ]
}

/// The User-Agent strings a random agent is drawn from.
pub fn user_agents() -> (agents: Vec<String>)
    ensures
        agents.deep_view() == user_agents_spec(),
{
    let agents = vec![
        String::from_str("Mozilla/5.0 (Windows NT 10.0; Win64; x64) AppleWebKit/537.36 (KHTML, like Gecko) Chrome/125.0.0.0 Safari/537.36"),
        String::from_str("Mozilla/5.0 (Macintosh; Intel Mac OS X 10_15_7) AppleWebKit/537.36 (KHTML, like Gecko) Chrome/125.0.0.0 Safari/537.36"),
        String::from_str("Mozilla/5.0 (X11; Linux x86_64) AppleWebKit/537.36 (KHTML, like Gecko) Chrome/125.0.0.0 Safari/537.36"),
        String::from_str("Mozilla/5.0 (Windows NT 10.0; Win64; x64; rv:126.0) Gecko/20100101 Firefox/126.0"),
        String::from_str("Mozilla/5.0 (Macintosh; Intel Mac OS X 10_15_7) AppleWebKit/605.1.15 (KHTML, like Gecko) Version/17.5 Safari/605.1.15"),
        String::from_str("Mozilla/5.0 (Windows NT 10.0; Win64; x64) AppleWebKit/537.36 (KHTML, like Gecko) Chrome/125.0.0.0 Safari/537.36 Edg/125.0.0.0"),
        String::from_str("Mozilla/5.0 (X11; Ubuntu; Linux x86_64; rv:126.0) Gecko/20100101 Firefox/126.0"),
        String::from_str("Mozilla/5.0 (Windows NT 10.0; Win64; x64) AppleWebKit/537.36 (KHTML, like Gecko) Chrome/124.0.0.0 Safari/537.36"),
        String::from_str("Mozilla/5.0 (Macintosh; Intel Mac OS X 10.15; rv:126.0) Gecko/20100101 Firefox/126.0"),
        String::from_str("Mozilla/5.0 (X11; Linux x86_64; rv:126.0) Gecko/20100101 Firefox/126.0"),
        String::from_str("Mozilla/5.0 (Windows NT 10.0; Win64; x64) AppleWebKit/537.36 (KHTML, like Gecko) Chrome/123.0.0.0 Safari/537.36"),
        String::from_str("Mozilla/5.0 (Macintosh; Intel Mac OS X 10_15_7) AppleWebKit/537.36 (KHTML, like Gecko) Chrome/124.0.0.0 Safari/537.36"),
        String::from_str("Mozilla/5.0 (Windows NT 10.0; Win64; x64; rv:125.0) Gecko/20100101 Firefox/125.0"),
        String::from_str("Mozilla/5.0 (X11; Linux x86_64) AppleWebKit/537.36 (KHTML, like Gecko) Chrome/124.0.0.0 Safari/537.36"),
        String::from_str("Mozilla/5.0 (Windows NT 10.0; Win64; x64) AppleWebKit/537.36 (KHTML, like Gecko) Chrome/122.0.0.0 Safari/537.36"),
        String::from_str("Mozilla/5.0 (Macintosh; Intel Mac OS X 10_15_7) AppleWebKit/537.36 (KHTML, like Gecko) Chrome/123.0.0.0 Safari/537.36"),
        String::from_str("Mozilla/5.0 (X11; Ubuntu; Linux x86_64; rv:125.0) Gecko/20100101 Firefox/125.0"),
        String::from_str("Mozilla/5.0 (Windows NT 10.0; Win64; x64) AppleWebKit/537.36 (KHTML, like Gecko) Chrome/121.0.0.0 Safari/537.36"),
        String::from_str("Mozilla/5.0 (Macintosh; Intel Mac OS X 10.15; rv:125.0) Gecko/20100101 Firefox/125.0"),
        String::from_str("Mozilla/5.0 (X11; Linux x86_64; rv:125.0) Gecko/20100101 Firefox/125.0"),
    ];
    assert(agents.deep_view() =~= user_agents_spec());
    agents
}

/// `rand::seq::SliceRandom::choose` with the thread-local generator: one of
/// the items, picked at random, or `None` exactly when there are none. Which
/// item comes back is left open.
#[verifier::external_body]
fn choose_random(items: &Vec<String>) -> (r: Option<String>)
    ensures
        r is None <==> items@.len() == 0,
        r matches Some(s) ==> exists|i: int| 0 <= i < items@.len() && items@[i]@ == s@,
{
    items.as_slice().choose(&mut rand::thread_rng()).cloned()
}

/// The User-Agent a request overrides the client's with: none unless random
/// agents are asked for, and then one of `agents`.
pub fn request_user_agent(random_agent: bool, agents: &Vec<String>) -> (r: Option<String>)
    ensures
        !random_agent ==> r is None,
        random_agent ==> (r is Some <==> agents@.len() > 0),
        r matches Some(a) ==> exists|i: int| 0 <= i < agents@.len() && agents@[i]@ == a@,
{
    if random_agent {
        choose_random(agents)
    } else {
        None
    }
}

// ---------------------------------------------------------------------------
// Collecting hits
// ---------------------------------------------------------------------------

/// The hits of a scan over a known number of candidates, and how many
/// candidates have been processed so far. Each candidate is recorded once,
/// with its hit if it had one, so there are never more hits than candidates.
pub struct ScanLog {
    total: usize,
    processed: usize,
    hits: Vec<HitResult>,
}

impl ScanLog {
    #[verifier::type_invariant]
    spec fn counts_fit(self) -> bool {
        self.processed <= self.total && self.hits@.len() <= self.processed
    }

    /// The number of candidates of the scan.
    pub closed spec fn total_spec(self) -> nat {
        self.total as nat
    }

    /// The number of candidates processed so far.
    pub closed spec fn processed_spec(self) -> nat {
        self.processed as nat
    }

    /// The hits recorded so far, in the order they were recorded.
    pub closed spec fn hits_spec(self) -> Seq<HitResult> {
        self.hits@
    }

    /// A log for a scan of `total` candidates, with nothing recorded.
    pub fn new(total: usize) -> (log: ScanLog)
        ensures
            log.total_spec() == total,
            log.processed_spec() == 0,
            log.hits_spec() == Seq::<HitResult>::empty(),
    {
        ScanLog { total, processed: 0, hits: Vec::new() }
    }

    /// The number of candidates of the scan.
    pub fn total(&self) -> (n: usize)
        ensures
            n == self.total_spec(),
    {
        self.total
    }

    /// The number of candidates processed so far.
    pub fn processed(&self) -> (n: usize)
        ensures
            n == self.processed_spec(),
            n <= self.total_spec(),
    {
        proof {
            use_type_invariant(self);
        }
        self.processed
    }

    /// Whether every candidate has been processed.
    pub fn is_complete(&self) -> (b: bool)
        ensures
            b == (self.processed_spec() == self.total_spec()),
    {
        self.processed == self.total
    }

    /// Records one processed candidate and its hit, if it had one.
    pub fn record(&mut self, hit: Option<HitResult>)
        requires
            old(self).processed_spec() < old(self).total_spec(),
        ensures
            final(self).total_spec() == old(self).total_spec(),
            final(self).processed_spec() == old(self).processed_spec() + 1,
            final(self).hits_spec() == match hit {
                Some(h) => old(self).hits_spec().push(h),
                None => old(self).hits_spec(),
            },
    {
        proof {
            use_type_invariant(&*self);
        }
        self.processed = self.processed + 1;
        if let Some(h) = hit {
            let mut hits: Vec<HitResult> = Vec::new();
            std::mem::swap(&mut hits, &mut self.hits);
            hits.push(h);
            self.hits = hits;
        }
    }

    /// The recorded hits: never more than the scan's candidates, nor more
    /// than the candidates processed.
    pub fn into_hits(self) -> (hits: Vec<HitResult>)
        ensures
            hits@ == self.hits_spec(),
            hits@.len() <= self.processed_spec() <= self.total_spec(),
    {
        proof {
            use_type_invariant(&self);
        }
        self.hits
    }
}

// ---------------------------------------------------------------------------
// Scan settings
// ---------------------------------------------------------------------------

/// What a scan needs to know of its options.
pub struct ScanSettings {
    /// Requests in flight at once.
    pub concurrency: usize,
    /// Retries of a request that failed on the network.
    pub retries: u32,
    /// Delay before each request, in milliseconds.
    pub delay_ms: u64,
    /// Whether each request carries a random User-Agent.
    pub random_agent: bool,
    /// Which responses are reported.
    pub filter: ResponseFilter,
    /// The User-Agents drawn from.
    pub agents: Vec<String>,
}

/// The settings of a scan with the given options: at least one worker, and
/// the reporting filter the options describe.
pub fn scan_settings(args: &Args) -> (s: ScanSettings)
    ensures
        s.concurrency == if args.threads == 0 { 1 } else { args.threads },
        s.retries == args.retries,
        s.delay_ms == args.delay,
        s.random_agent == args.random_agent,
        s.filter.whitelist is Some <==> args.status_codes is Some,
        s.filter.whitelist matches Some(w) ==> args.status_codes matches Some(c)
            && w@ == crate::filter::code_set(c@),
        s.filter.blacklist@ == crate::filter::code_set(args.blacklist_codes@),
        s.filter.min_length == args.min_length,
        s.filter.exclude_length == args.exclude_length,
        s.agents.deep_view() == user_agents_spec(),
{
    let concurrency = if args.threads == 0 { 1 } else { args.threads };
    ScanSettings {
        concurrency,
        retries: args.retries,
        delay_ms: args.delay,
        random_agent: args.random_agent,
        filter: ResponseFilter::new(
            &args.status_codes,
            args.blacklist_codes.as_str(),
            args.min_length,
            args.exclude_length,
        ),
        agents: user_agents(),
    }
}

} // verus!
