//! Which responses are reported: status-code whitelists and blacklists and
//! content-length filters.

use std::collections::HashSet;
use vstd::prelude::*;
use crate::text::{
    chars_of, lemma_split_push_piece, parse_u16, parse_u16_spec, split_chars, split_on, trim_ws,
    trimmed,
};

verus! {

broadcast use {vstd::string::group_string_axioms, vstd::std_specs::hash::group_hash_axioms};

/// The status codes named by the given pieces: each piece trimmed and read as
/// a 16-bit number; pieces that are not numbers are ignored.
pub open spec fn codes_of_pieces(pieces: Seq<Seq<char>>) -> Set<u16>
    decreases pieces.len(),
{
    if pieces.len() == 0 {
        Set::empty()
    } else {
        let prev = codes_of_pieces(pieces.drop_last());
        match parse_u16_spec(trim_ws(pieces.last())) {
            Some(c) => prev.insert(c),
            None => prev,
        }
    }
}

/// The status codes named by a comma-separated list such as `"200, 301,302"`.
pub open spec fn code_set(s: Seq<char>) -> Set<u16> {
    codes_of_pieces(split_on(s, ','))
}

/// Reading a code list piece by piece: one more comma-separated piece adds
/// the number it spells (after trimming) when it spells one, and nothing
/// otherwise; a list of one piece holds just that number.
pub proof fn lemma_code_set_append(s: Seq<char>, p: Seq<char>)
    requires
        forall|k: int| 0 <= k < p.len() ==> p[k] != ',',
    ensures
        code_set(s + seq![','] + p) == match parse_u16_spec(trim_ws(p)) {
            Some(c) => code_set(s).insert(c),
            None => code_set(s),
        },
        code_set(p) == match parse_u16_spec(trim_ws(p)) {
            Some(c) => Set::<u16>::empty().insert(c),
            None => Set::<u16>::empty(),
        },
{
    lemma_split_push_piece(s, p, ',');
    let ps = split_on(s, ',').push(p);
    assert(ps.drop_last() =~= split_on(s, ','));
    assert(seq![p].drop_last() =~= Seq::<Seq<char>>::empty());
    assert(seq![p].last() == p);
    assert(codes_of_pieces(Seq::<Seq<char>>::empty()) == Set::<u16>::empty());
    assert(codes_of_pieces(seq![p]) == match parse_u16_spec(trim_ws(p)) {
        Some(c) => Set::<u16>::empty().insert(c),
        None => Set::<u16>::empty(),
    });
}

/// The codes of an optional set.
pub open spec fn opt_codes(s: Option<HashSet<u16>>) -> Option<Set<u16>> {
    match s {
        Some(h) => Some(h@),
        None => None,
    }
}

/// A status passes when it is in the whitelist, if there is one; otherwise
/// when it is not in the blacklist.
pub open spec fn status_allowed(code: u16, whitelist: Option<Set<u16>>, blacklist: Set<u16>) -> bool {
    match whitelist {
        Some(w) => w.contains(code),
        None => !blacklist.contains(code),
    }
}

/// A length passes when it is at least the minimum and not the excluded one,
/// each where given.
pub open spec fn length_allowed(length: u64, min_length: Option<u64>, exclude_length: Option<u64>) -> bool {
    &&& (min_length matches Some(m) ==> length >= m)
    &&& (exclude_length matches Some(e) ==> length != e)
}

/// A response is reported when both its status and its length pass.
pub open spec fn report_spec(
    code: u16,
    whitelist: Option<Set<u16>>,
    blacklist: Set<u16>,
    length: u64,
    min_length: Option<u64>,
    exclude_length: Option<u64>,
) -> bool {
    status_allowed(code, whitelist, blacklist) && length_allowed(length, min_length, exclude_length)
}

/// The status codes named by a comma-separated list; entries that are not
/// 16-bit numbers (after trimming) are ignored.
pub fn parse_code_set(s: &str) -> (codes: HashSet<u16>)
    ensures
        codes@ == code_set(s@),
{
    let chars = chars_of(s);
    let pieces = split_chars(&chars, ',');
    let ghost ps = pieces.deep_view();
    let mut codes: HashSet<u16> = HashSet::new();
    let mut i: usize = 0;
    assert(ps.take(0) =~= Seq::<Seq<char>>::empty());
    while i < pieces.len()
        invariant
            i <= pieces@.len(),
            ps == pieces.deep_view(),
            ps == split_on(s@, ','),
            codes@ == codes_of_pieces(ps.take(i as int)),
        decreases pieces.len() - i,
    {
        let t = trimmed(&pieces[i]);
        assert(ps[i as int] == pieces@[i as int]@);
        assert(ps.take(i + 1).drop_last() =~= ps.take(i as int));
        match parse_u16(&t) {
            Some(c) => {
                codes.insert(c);
            },
            None => {},
        }
        i = i + 1;
    }
    assert(ps.take(pieces.len() as int) =~= ps);
    codes
}

/// Whether a response with this status and length is reported: the status
/// must be in the whitelist when one is given (the blacklist is then not
/// consulted), otherwise not in the blacklist; the length must reach
/// `min_length` and differ from `exclude_length` where those are given.
pub fn should_report(
    status: u16,
    whitelist: &Option<HashSet<u16>>,
    blacklist: &HashSet<u16>,
    length: u64,
    min_length: Option<u64>,
    exclude_length: Option<u64>,
) -> (r: bool)
    ensures
        r == report_spec(status, opt_codes(*whitelist), blacklist@, length, min_length, exclude_length),
{
    match whitelist {
        Some(wl) => {
            if !wl.contains(&status) {
                return false;
            }
        },
        None => {
            if blacklist.contains(&status) {
                return false;
            }
        },
    }
    if let Some(min) = min_length {
        if length < min {
            return false;
        }
    }
    if let Some(excl) = exclude_length {
        if length == excl {
            return false;
        }
    }
    true
}

/// The reporting rules of a scan.
pub struct ResponseFilter {
    pub whitelist: Option<HashSet<u16>>,
    pub blacklist: HashSet<u16>,
    pub min_length: Option<u64>,
    pub exclude_length: Option<u64>,
}

impl ResponseFilter {
    /// Whether this filter reports a response with the given status and length.
    pub open spec fn reports(&self, status: u16, length: u64) -> bool {
        report_spec(
            status,
            opt_codes(self.whitelist),
            self.blacklist@,
            length,
            self.min_length,
            self.exclude_length,
        )
    }

    /// The filter described by the `-s`, `-b`, `--min-length` and
    /// `--exclude-length` options.
    pub fn new(
        status_codes: &Option<String>,
        blacklist_codes: &str,
        min_length: Option<u64>,
        exclude_length: Option<u64>,
    ) -> (f: ResponseFilter)
        ensures
            f.whitelist matches Some(w) ==> status_codes matches Some(s) && w@ == code_set(s@),
            status_codes matches Some(s) ==> f.whitelist matches Some(w) && w@ == code_set(s@),
            f.blacklist@ == code_set(blacklist_codes@),
            f.min_length == min_length,
            f.exclude_length == exclude_length,
    {
        let whitelist = match status_codes {
            Some(s) => Some(parse_code_set(s.as_str())),
            None => None,
        };
        ResponseFilter {
            whitelist,
            blacklist: parse_code_set(blacklist_codes),
            min_length,
            exclude_length,
        }
    }

    /// Whether a response with this status and length is reported.
    pub fn allows(&self, status: u16, length: u64) -> (r: bool)
        ensures
            r == self.reports(status, length),
    {
        should_report(
            status,
            &self.whitelist,
            &self.blacklist,
            length,
            self.min_length,
            self.exclude_length,
        )
    }
}

/// The reporting rule, condition by condition: a response is reported exactly
/// when its status is in the whitelist (if one is given) or else not in the
/// blacklist, its length reaches the minimum (if given), and its length is not
/// the excluded one (if given). Each condition applies whatever the others say.
pub proof fn lemma_report_rule(
    code: u16,
    whitelist: Option<Set<u16>>,
    blacklist: Set<u16>,
    length: u64,
    min_length: Option<u64>,
    exclude_length: Option<u64>,
)
    ensures
        exclude_length == Some(length) ==> !report_spec(
            code,
            whitelist,
            blacklist,
            length,
            min_length,
            exclude_length,
        ),
        (min_length matches Some(m) && length < m) ==> !report_spec(
            code,
            whitelist,
            blacklist,
            length,
            min_length,
            exclude_length,
        ),
        (whitelist matches Some(w) && !w.contains(code)) ==> !report_spec(
            code,
            whitelist,
            blacklist,
            length,
            min_length,
            exclude_length,
        ),
        (whitelist is None && blacklist.contains(code)) ==> !report_spec(
            code,
            whitelist,
            blacklist,
            length,
            min_length,
            exclude_length,
        ),
        ((whitelist matches Some(w) ==> w.contains(code)) && (whitelist is None
            ==> !blacklist.contains(code)) && (min_length matches Some(m) ==> length >= m) && (
        exclude_length matches Some(e) ==> length != e)) ==> report_spec(
            code,
            whitelist,
            blacklist,
            length,
            min_length,
            exclude_length,
        ),
{
}

/// With a whitelist given, the blacklist has no say: two filters that differ
/// only in their blacklists report exactly the same responses.
pub proof fn lemma_whitelist_overrides_blacklist(
    whitelist: Set<u16>,
    blacklist_a: Set<u16>,
    blacklist_b: Set<u16>,
    code: u16,
    length: u64,
    min_length: Option<u64>,
    exclude_length: Option<u64>,
)
    ensures
        report_spec(code, Some(whitelist), blacklist_a, length, min_length, exclude_length)
            == report_spec(code, Some(whitelist), blacklist_b, length, min_length, exclude_length),
{
}

} // verus!
