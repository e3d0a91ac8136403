//! Wordlists: reading words out of a wordlist file's text, expanding them into
//! candidate paths, and choosing which wordlist file to use.

use vstd::prelude::*;
use crate::text::{
    chars_of, lemma_split_append_free, lemma_split_nonempty, lemma_split_pieces_free,
    lemma_split_push_piece, lemma_trim_start_char_first, lemma_trim_start_char_shape,
    lemma_trim_ws_idempotent, leading_run, lemma_trim_ws_props, split_chars, split_on, string_of, string_of_range,
    trim_bounds, trim_start_char, trim_start_char_index, trim_ws, trimmed,
};
use vstd::string::StringExecFns;

verus! {

broadcast use vstd::string::group_string_axioms;

// ---------------------------------------------------------------------------
// Words of a wordlist
// ---------------------------------------------------------------------------

/// A trimmed line that counts as a word: not blank and not a `#` comment.
pub open spec fn is_word_line(t: Seq<char>) -> bool {
    t.len() > 0 && t[0] != '#'
}

/// The words on the given lines, in order: each line trimmed, blank lines and
/// comment lines dropped.
pub open spec fn words_of_lines(lines: Seq<Seq<char>>) -> Seq<Seq<char>>
    decreases lines.len(),
{
    if lines.len() == 0 {
        Seq::empty()
    } else {
        let prev = words_of_lines(lines.drop_last());
        let t = trim_ws(lines.last());
        if is_word_line(t) {
            prev.push(t)
        } else {
            prev
        }
    }
}

/// The words of a wordlist file's text. Lines end at `\n`; a `\r` before it is
/// whitespace and goes with the trimming.
pub open spec fn wordlist_words(content: Seq<char>) -> Seq<Seq<char>> {
    words_of_lines(split_on(content, '\n'))
}

/// Appends the word on `line` to `words`, if the trimmed line is one.
fn take_word(words: &mut Vec<String>, line: &[char])
    ensures
        final(words).deep_view() == (if is_word_line(trim_ws(line@)) {
            old(words).deep_view().push(trim_ws(line@))
        } else {
            old(words).deep_view()
        }),
{
    let t = trimmed(line);
    if t.len() > 0 && t[0] != '#' {
        let w = string_of(&t);
        let ghost before = words.deep_view();
        words.push(w);
        assert(words.deep_view() =~= before.push(trim_ws(line@)));
    }
}

/// The words of a wordlist file's text: every line trimmed, with blank lines
/// and lines starting with `#` skipped.
pub fn parse_wordlist(content: &str) -> (words: Vec<String>)
    ensures
        words.deep_view() == wordlist_words(content@),
{
    let mut words: Vec<String> = Vec::new();
    let mut cur: Vec<char> = Vec::new();
    proof {
        assert(content@.take(0) =~= Seq::<char>::empty());
        assert(words.deep_view() =~= Seq::<Seq<char>>::empty());
    }
    for c in it: content.chars()
        invariant
            it.seq() == content@,
            0 <= it.index() <= content@.len(),
            split_on(content@.take(it.index()), '\n').len() >= 1,
            cur@ == split_on(content@.take(it.index()), '\n').last(),
            words.deep_view() == words_of_lines(
                split_on(content@.take(it.index()), '\n').drop_last(),
            ),
    {
        let ghost pre = content@.take(it.index());
        let ghost next = content@.take(it.index() + 1);
        let ghost lines = split_on(pre, '\n');
        assert(next.drop_last() =~= pre);
        assert(next.last() == c);
        proof {
            lemma_split_nonempty(pre, '\n');
        }
        if c == '\n' {
            take_word(&mut words, &cur);
            cur = Vec::new();
            let ghost now = split_on(next, '\n');
            assert(now.drop_last() =~= lines);
            assert(lines.drop_last().push(lines.last()) =~= lines);
        } else {
            cur.push(c);
            let ghost now = split_on(next, '\n');
            assert(now.drop_last() =~= lines.drop_last());
        }
    }
    proof {
        let lines = split_on(content@, '\n');
        assert(content@.take(content@.len() as int) =~= content@);
        lemma_split_nonempty(content@, '\n');
        assert(lines.drop_last().push(lines.last()) =~= lines);
    }
    take_word(&mut words, &cur);
    words
}

/// A word as a wordlist yields it: not blank, not a comment, already trimmed,
/// and within one line.
pub open spec fn is_clean_word(w: Seq<char>) -> bool {
    &&& is_word_line(w)
    &&& trim_ws(w) == w
    &&& forall|k: int| 0 <= k < w.len() ==> w[k] != '\n'
}

/// The text of a wordlist file holding the given words, one per line.
pub open spec fn lines_text(ws: Seq<Seq<char>>) -> Seq<char>
    decreases ws.len(),
{
    if ws.len() == 0 {
        Seq::empty()
    } else {
        lines_text(ws.drop_last()) + ws.last() + seq!['\n']
    }
}

proof fn lemma_words_of_free_lines_clean(lines: Seq<Seq<char>>)
    requires
        forall|i: int, k: int|
            0 <= i < lines.len() && 0 <= k < lines[i].len() ==> #[trigger] lines[i][k] != '\n',
    ensures
        forall|i: int| 0 <= i < words_of_lines(lines).len() ==> is_clean_word(
            #[trigger] words_of_lines(lines)[i],
        ),
    decreases lines.len(),
{
    if lines.len() > 0 {
        let l = lines.last();
        assert(forall|i: int, k: int|
            0 <= i < lines.drop_last().len() && 0 <= k < lines.drop_last()[i].len()
                ==> #[trigger] lines.drop_last()[i][k] == lines[i][k]);
        lemma_words_of_free_lines_clean(lines.drop_last());
        let t = trim_ws(l);
        lemma_trim_ws_idempotent(l);
        lemma_trim_ws_props(l);
        let lo = choose|lo: int|
            0 <= lo && lo + t.len() <= l.len() && #[trigger] l.subrange(lo, lo + t.len()) == t;
        assert forall|k: int| 0 <= k < t.len() implies t[k] != '\n' by {
            assert(t[k] == l[lo + k]);
            assert(l == lines[lines.len() - 1]);
        }
        let prev = words_of_lines(lines.drop_last());
        if is_word_line(t) {
            assert(is_clean_word(t));
            assert forall|i: int| 0 <= i < words_of_lines(lines).len() implies is_clean_word(
                #[trigger] words_of_lines(lines)[i],
            ) by {
                if i < prev.len() {
                    assert(words_of_lines(lines)[i] == prev[i]);
                }
            }
        }
    }
}

/// Every word a wordlist yields is clean: not blank, not a comment, trimmed,
/// and free of line breaks.
pub proof fn lemma_wordlist_words_clean(content: Seq<char>)
    ensures
        forall|i: int| 0 <= i < wordlist_words(content).len() ==> is_clean_word(
            #[trigger] wordlist_words(content)[i],
        ),
{
    lemma_split_pieces_free(content, '\n');
    lemma_words_of_free_lines_clean(split_on(content, '\n'));
}

proof fn lemma_split_lines_text(ws: Seq<Seq<char>>)
    requires
        forall|i: int, k: int| 0 <= i < ws.len() && 0 <= k < ws[i].len() ==> #[trigger] ws[i][k] != '\n',
    ensures
        split_on(lines_text(ws), '\n') == ws.push(Seq::<char>::empty()),
    decreases ws.len(),
{
    if ws.len() == 0 {
        assert(split_on(lines_text(ws), '\n') =~= ws.push(Seq::<char>::empty()));
    } else {
        let rest = ws.drop_last();
        let w = ws.last();
        assert(forall|i: int, k: int|
            0 <= i < rest.len() && 0 <= k < rest[i].len() ==> #[trigger] rest[i][k] == ws[i][k]);
        lemma_split_lines_text(rest);
        let l = lines_text(rest);
        assert(forall|k: int| 0 <= k < w.len() ==> w[k] == ws[ws.len() - 1][k]);
        lemma_split_append_free(l, w, '\n');
        let full = lines_text(ws);
        assert(full.drop_last() =~= l + w);
        assert(full.last() == '\n');
        assert(Seq::<char>::empty() + w =~= w);
        assert(split_on(l + w, '\n') =~= rest.push(w));
        assert(rest.push(w) =~= ws);
    }
}

proof fn lemma_words_of_clean_lines(ws: Seq<Seq<char>>)
    requires
        forall|i: int| 0 <= i < ws.len() ==> is_clean_word(#[trigger] ws[i]),
    ensures
        words_of_lines(ws) == ws,
    decreases ws.len(),
{
    if ws.len() > 0 {
        assert(forall|i: int| 0 <= i < ws.drop_last().len() ==> #[trigger] ws.drop_last()[i] == ws[i]);
        lemma_words_of_clean_lines(ws.drop_last());
        assert(is_clean_word(ws[ws.len() - 1]));
        assert(ws.drop_last().push(ws.last()) =~= ws);
    }
}

/// Writing clean words one per line and reading the text back as a wordlist
/// gives the same words.
pub proof fn lemma_wordlist_roundtrip(ws: Seq<Seq<char>>)
    requires
        forall|i: int| 0 <= i < ws.len() ==> is_clean_word(#[trigger] ws[i]),
    ensures
        wordlist_words(lines_text(ws)) == ws,
{
    assert forall|i: int, k: int| 0 <= i < ws.len() && 0 <= k < ws[i].len() implies #[trigger] ws[i][k]
        != '\n' by {
        assert(is_clean_word(ws[i]));
    }
    lemma_split_lines_text(ws);
    let lines = ws.push(Seq::<char>::empty());
    assert(lines.drop_last() =~= ws);
    assert(trim_ws(Seq::<char>::empty()) =~= Seq::<char>::empty());
    lemma_words_of_clean_lines(ws);
}

/// Reading a wordlist is idempotent: writing its words one per line and
/// reading them again gives the same words.
pub proof fn lemma_wordlist_reparse(content: Seq<char>)
    ensures
        wordlist_words(lines_text(wordlist_words(content))) == wordlist_words(content),
{
    lemma_wordlist_words_clean(content);
    lemma_wordlist_roundtrip(wordlist_words(content));
}

/// Reading a wordlist line by line: appending one more line to a wordlist's
/// text appends that line, trimmed, to its words when the trimmed line is not
/// empty and does not start with `#`, and appends nothing otherwise. Any other
/// first character, such as the dot of `.htaccess`, keeps the word.
pub proof fn lemma_wordlist_append_line(content: Seq<char>, line: Seq<char>)
    requires
        forall|k: int| 0 <= k < line.len() ==> line[k] != '\n',
    ensures
        ({
            let t = trim_ws(line);
            let words = wordlist_words(content + seq!['\n'] + line);
            &&& (t.len() > 0 && t[0] != '#') ==> words == wordlist_words(content).push(t)
            &&& (t.len() == 0 || t[0] == '#') ==> words == wordlist_words(content)
        }),
{
    let c2 = content + seq!['\n'];
    lemma_split_append_free(c2, line, '\n');
    lemma_split_nonempty(content, '\n');
    assert(c2.drop_last() =~= content);
    let p = split_on(c2, '\n');
    assert(p == split_on(content, '\n').push(Seq::<char>::empty()));
    assert(Seq::<char>::empty() + line =~= line);
    let lines = split_on(c2 + line, '\n');
    assert(lines =~= split_on(content, '\n').push(line));
    assert(lines.drop_last() =~= split_on(content, '\n'));
    assert(c2 + line =~= content + seq!['\n'] + line);
}

/// A wordlist of a single line holds that line, trimmed, as its one word when
/// the trimmed line is not empty and does not start with `#`, and nothing
/// otherwise.
pub proof fn lemma_wordlist_single_line(line: Seq<char>)
    requires
        forall|k: int| 0 <= k < line.len() ==> line[k] != '\n',
    ensures
        ({
            let t = trim_ws(line);
            &&& (t.len() > 0 && t[0] != '#') ==> wordlist_words(line) == seq![t]
            &&& (t.len() == 0 || t[0] == '#') ==> wordlist_words(line) == Seq::<Seq<char>>::empty()
        }),
{
    lemma_split_append_free(Seq::<char>::empty(), line, '\n');
    assert(Seq::<char>::empty() + line =~= line);
    assert(split_on(Seq::<char>::empty(), '\n') =~= seq![Seq::<char>::empty()]);
    let lines = split_on(line, '\n');
    assert(lines =~= seq![line]);
    assert(lines.drop_last() =~= Seq::<Seq<char>>::empty());
    assert(lines.last() == line);
    assert(words_of_lines(Seq::<Seq<char>>::empty()) == Seq::<Seq<char>>::empty());
    assert(Seq::<Seq<char>>::empty().push(trim_ws(line)) =~= seq![trim_ws(line)]);
}

// ---------------------------------------------------------------------------
// Candidate paths
// ---------------------------------------------------------------------------

/// The text of an optional string.
pub open spec fn opt_text(s: Option<String>) -> Option<Seq<char>> {
    match s {
        Some(t) => Some(t@),
        None => None,
    }
}

/// One comma-separated piece of the extension list as an extension: trimmed,
/// then stripped of all leading dots.
pub open spec fn extension_of(piece: Seq<char>) -> Seq<char> {
    trim_start_char(trim_ws(piece), '.')
}

/// The non-empty extensions named by the given pieces, in order.
pub open spec fn extensions_of_pieces(pieces: Seq<Seq<char>>) -> Seq<Seq<char>>
    decreases pieces.len(),
{
    if pieces.len() == 0 {
        Seq::empty()
    } else {
        let prev = extensions_of_pieces(pieces.drop_last());
        let e = extension_of(pieces.last());
        if e.len() > 0 {
            prev.push(e)
        } else {
            prev
        }
    }
}

/// The extensions named by an optional comma-separated list such as `"php, .html,txt"`.
pub open spec fn extension_list(extensions: Option<Seq<char>>) -> Seq<Seq<char>> {
    match extensions {
        Some(e) => extensions_of_pieces(split_on(e, ',')),
        None => Seq::empty(),
    }
}

/// A word as it is probed on its own: with a trailing `/` added when asked
/// for and not already there.
pub open spec fn slashed(w: Seq<char>, add_slash: bool) -> Seq<char> {
    if add_slash && !(w.len() > 0 && w.last() == '/') {
        w.push('/')
    } else {
        w
    }
}

/// The word followed by `.` and each extension in turn.
pub open spec fn with_extensions(w: Seq<char>, exts: Seq<Seq<char>>) -> Seq<Seq<char>> {
    Seq::new(exts.len(), |i: int| w + seq!['.'] + exts[i])
}

/// The candidates of one word: the word itself, then the word with each extension.
pub open spec fn word_candidates(w: Seq<char>, exts: Seq<Seq<char>>, add_slash: bool) -> Seq<
    Seq<char>,
> {
    seq![slashed(w, add_slash)] + with_extensions(w, exts)
}

/// The candidates of all words, word by word in order.
pub open spec fn candidates_of(words: Seq<Seq<char>>, exts: Seq<Seq<char>>, add_slash: bool) -> Seq<
    Seq<char>,
>
    decreases words.len(),
{
    if words.len() == 0 {
        Seq::empty()
    } else {
        candidates_of(words.drop_last(), exts, add_slash) + word_candidates(
            words.last(),
            exts,
            add_slash,
        )
    }
}

/// The extensions of an optional comma-separated list: each piece trimmed and
/// stripped of leading dots, empty ones dropped.
pub fn parse_extensions(extensions: &Option<String>) -> (exts: Vec<String>)
    ensures
        exts.deep_view() == extension_list(opt_text(*extensions)),
{
    let mut exts: Vec<String> = Vec::new();
    match extensions {
        None => {
            assert(exts.deep_view() =~= Seq::<Seq<char>>::empty());
        },
        Some(e) => {
            let chars = chars_of(e.as_str());
            let pieces = split_chars(&chars, ',');
            let ghost ps = pieces.deep_view();
            let mut i: usize = 0;
            assert(ps.take(0) =~= Seq::<Seq<char>>::empty());
            assert(exts.deep_view() =~= Seq::<Seq<char>>::empty());
            while i < pieces.len()
                invariant
                    i <= pieces@.len(),
                    ps == pieces.deep_view(),
                    ps == split_on(e@, ','),
                    exts.deep_view() == extensions_of_pieces(ps.take(i as int)),
                decreases pieces.len() - i,
            {
                let piece = &pieces[i];
                let (lo, hi) = trim_bounds(piece);
                let t = string_of_range(piece, lo, hi);
                let tc = chars_of(t.as_str());
                let start = trim_start_char_index(&tc, '.');
                assert(ps[i as int] == piece@);
                assert(ps.take(i + 1).drop_last() =~= ps.take(i as int));
                if start < tc.len() {
                    let x = string_of_range(&tc, start, tc.len());
                    let ghost before = exts.deep_view();
                    exts.push(x);
                    assert(exts.deep_view() =~= before.push(extension_of(piece@)));
                }
                i = i + 1;
            }
            assert(ps.take(pieces.len() as int) =~= ps);
        },
    }
    exts
}

/// Every extension of a list is non-empty and does not start with a dot, so a
/// candidate joins word and extension with exactly one dot.
pub proof fn lemma_extensions_clean(pieces: Seq<Seq<char>>)
    ensures
        forall|i: int|
            0 <= i < extensions_of_pieces(pieces).len() ==> #[trigger] extensions_of_pieces(pieces)[i].len()
                > 0 && extensions_of_pieces(pieces)[i][0] != '.',
    decreases pieces.len(),
{
    if pieces.len() > 0 {
        lemma_extensions_clean(pieces.drop_last());
        lemma_trim_start_char_first(trim_ws(pieces.last()), '.');
        let prev = extensions_of_pieces(pieces.drop_last());
        let all = extensions_of_pieces(pieces);
        assert forall|i: int| 0 <= i < all.len() implies #[trigger] all[i].len() > 0 && all[i][0]
            != '.' by {
            if i < prev.len() {
                assert(all[i] == prev[i]);
            }
        }
    }
}

/// An extension is its piece trimmed, with only its leading dots removed:
/// every character after them is kept.
pub proof fn lemma_extension_shape(piece: Seq<char>)
    ensures
        ({
            let t = trim_ws(piece);
            exists|k: int|
                #![trigger t.subrange(k, t.len() as int)]
                0 <= k <= t.len() && (forall|j: int| 0 <= j < k ==> #[trigger] t[j] == '.') && (k
                    < t.len() ==> t[k] != '.') && extension_of(piece) == t.subrange(k, t.len() as int)
        }),
{
    let t = trim_ws(piece);
    lemma_trim_start_char_shape(t, '.');
    let k = leading_run(t, '.') as int;
    assert(extension_of(piece) == t.subrange(k, t.len() as int));
}

/// Reading the extension list piece by piece: one more comma-separated piece
/// adds its extension at the end when that is not empty, and nothing
/// otherwise; a list of one piece holds just its extension (if not empty);
/// no list holds no extensions.
pub proof fn lemma_extension_list_append(e: Seq<char>, p: Seq<char>)
    requires
        forall|k: int| 0 <= k < p.len() ==> p[k] != ',',
    ensures
        extension_list(Some(e + seq![','] + p)) == (if extension_of(p).len() > 0 {
            extension_list(Some(e)).push(extension_of(p))
        } else {
            extension_list(Some(e))
        }),
        extension_list(Some(p)) == (if extension_of(p).len() > 0 {
            seq![extension_of(p)]
        } else {
            Seq::<Seq<char>>::empty()
        }),
        extension_list(None) == Seq::<Seq<char>>::empty(),
{
    lemma_split_push_piece(e, p, ',');
    let ps = split_on(e, ',').push(p);
    assert(ps.drop_last() =~= split_on(e, ','));
    assert(seq![p].drop_last() =~= Seq::<Seq<char>>::empty());
    assert(seq![p].last() == p);
    assert(extensions_of_pieces(Seq::<Seq<char>>::empty()) == Seq::<Seq<char>>::empty());
    assert(Seq::<Seq<char>>::empty().push(extension_of(p)) =~= seq![extension_of(p)]);
    assert(extensions_of_pieces(seq![p]) == (if extension_of(p).len() > 0 {
        seq![extension_of(p)]
    } else {
        Seq::<Seq<char>>::empty()
    }));
}

/// Whether the last character of `w` is `/`.
fn ends_with_slash(w: &String) -> (b: bool)
    ensures
        b == (w@.len() > 0 && w@.last() == '/'),
{
    let cs = chars_of(w.as_str());
    cs.len() > 0 && cs[cs.len() - 1] == '/'
}

/// Appends the candidates of one word to `out`.
fn push_word_candidates(out: &mut Vec<String>, w: &String, exts: &Vec<String>, add_slash: bool)
    ensures
        final(out).deep_view() == old(out).deep_view() + word_candidates(
            w@,
            exts.deep_view(),
            add_slash,
        ),
{
    let ghost start = out.deep_view();
    let ghost xs = exts.deep_view();
    let mut base = w.clone();
    if add_slash && !ends_with_slash(w) {
        base.push('/');
    }
    out.push(base);
    assert(out.deep_view() =~= start + word_candidates(w@, xs, add_slash).take(1));
    let mut j: usize = 0;
    while j < exts.len()
        invariant
            j <= exts@.len(),
            xs == exts.deep_view(),
            out.deep_view() == start + word_candidates(w@, xs, add_slash).take(j + 1),
        decreases exts.len() - j,
    {
        let mut cand = w.clone();
        cand.push('.');
        cand.append(exts[j].as_str());
        assert(xs[j as int] == exts@[j as int]@);
        assert(cand@ =~= w@ + seq!['.'] + xs[j as int]);
        let ghost before = out.deep_view();
        out.push(cand);
        assert(word_candidates(w@, xs, add_slash).take(j + 2) =~= word_candidates(
            w@,
            xs,
            add_slash,
        ).take(j + 1).push(w@ + seq!['.'] + xs[j as int]));
        assert(out.deep_view() =~= before.push(w@ + seq!['.'] + xs[j as int]));
        j = j + 1;
    }
    assert(word_candidates(w@, xs, add_slash).take(exts.len() + 1) =~= word_candidates(
        w@,
        xs,
        add_slash,
    ));
}

/// The full candidate list: each word (with a trailing slash when `add_slash`
/// asks for one), followed by the word with each of the extensions appended.
pub fn build_candidates(words: &[String], extensions: &Option<String>, add_slash: bool) -> (cands:
    Vec<String>)
    ensures
        cands.deep_view() == candidates_of(
            words.deep_view(),
            extension_list(opt_text(*extensions)),
            add_slash,
        ),
{
    let exts = parse_extensions(extensions);
    let ghost ws = words.deep_view();
    let ghost xs = exts.deep_view();
    let mut out: Vec<String> = Vec::new();
    let mut i: usize = 0;
    assert(ws.take(0) =~= Seq::<Seq<char>>::empty());
    assert(out.deep_view() =~= Seq::<Seq<char>>::empty());
    while i < words.len()
        invariant
            i <= words@.len(),
            ws == words.deep_view(),
            xs == exts.deep_view(),
            out.deep_view() == candidates_of(ws.take(i as int), xs, add_slash),
        decreases words.len() - i,
    {
        push_word_candidates(&mut out, &words[i], &exts, add_slash);
        assert(ws.take(i + 1).drop_last() =~= ws.take(i as int));
        assert(ws[i as int] == words@[i as int]@);
        i = i + 1;
    }
    assert(ws.take(words.len() as int) =~= ws);
    out
}

/// The number of candidates is the number of words times one more than the
/// number of extensions.
pub proof fn lemma_candidates_len(words: Seq<Seq<char>>, exts: Seq<Seq<char>>, add_slash: bool)
    ensures
        candidates_of(words, exts, add_slash).len() == words.len() * (1 + exts.len()),
    decreases words.len(),
{
    if words.len() > 0 {
        lemma_candidates_len(words.drop_last(), exts, add_slash);
        assert(words.len() * (1 + exts.len()) == (words.len() - 1) * (1 + exts.len()) + (1
            + exts.len())) by (nonlinear_arith);
    }
}

/// Where each candidate stands: with `n` extensions, word `i` is probed at
/// position `i * (n + 1)` on its own (with a `/` appended when `add_slash` is
/// set and it does not already end in one), and at position `i * (n + 1) + 1 + j`
/// as the word, a dot, and extension `j` (never slashed).
pub proof fn lemma_candidate_at(
    words: Seq<Seq<char>>,
    exts: Seq<Seq<char>>,
    add_slash: bool,
    i: int,
    j: int,
)
    requires
        0 <= i < words.len(),
    ensures
        candidates_of(words, exts, add_slash)[i * (exts.len() + 1)] == (if add_slash && !(
        words[i].len() > 0 && words[i].last() == '/') {
            words[i].push('/')
        } else {
            words[i]
        }),
        0 <= j < exts.len() ==> candidates_of(words, exts, add_slash)[i * (exts.len() + 1) + 1 + j]
            == words[i] + seq!['.'] + exts[j],
    decreases words.len(),
{
    let n = exts.len() as int;
    let rest = words.drop_last();
    lemma_candidates_len(rest, exts, add_slash);
    let prefix = candidates_of(rest, exts, add_slash);
    let tail = word_candidates(words.last(), exts, add_slash);
    assert(prefix.len() == rest.len() * (1 + n));
    if i < words.len() - 1 {
        lemma_candidate_at(rest, exts, add_slash, i, j);
        assert(rest[i] == words[i]);
        assert(i * (n + 1) + n + 1 <= rest.len() * (1 + n)) by (nonlinear_arith)
            requires
                0 <= i < rest.len(),
                n >= 0,
        ;
    } else {
        assert(i * (n + 1) == rest.len() * (1 + n)) by (nonlinear_arith)
            requires
                i == rest.len(),
        ;
        assert(words.last() == words[i]);
        assert(tail[0] == slashed(words[i], add_slash));
        if 0 <= j < n {
            assert(tail[1 + j] == words[i] + seq!['.'] + exts[j]);
        }
    }
}

// ---------------------------------------------------------------------------
// Choosing the wordlist file
// ---------------------------------------------------------------------------

/// The wordlists tried, in order of preference, when none is named.
pub open spec fn search_paths_spec() -> Seq<Seq<char>> {
    seq![
        "/usr/share/wordlists/seclists/Discovery/Web-Content/common.txt"@,
        "/usr/share/seclists/Discovery/Web-Content/common.txt"@,
        "/usr/share/wordlists/seclists/Discovery/Web-Content/raft-large-directories.txt"@,
        "/usr/share/seclists/Discovery/Web-Content/raft-large-directories.txt"@,
        "/usr/share/wordlists/seclists/Discovery/Web-Content/raft-large-words.txt"@,
        "/usr/share/seclists/Discovery/Web-Content/raft-large-words.txt"@,
        "/usr/share/wordlists/seclists/Discovery/Web-Content/directory-list-2.3-medium.txt"@,
        "/usr/share/seclists/Discovery/Web-Content/directory-list-2.3-medium.txt"@,
        "/usr/share/wordlists/dirbuster/directory-list-2.3-medium.txt"@,
        "/usr/share/wordlists/dirbuster/directory-list-2.3-small.txt"@,
        "/usr/share/wordlists/common.txt"@,
        "/usr/share/wordlists/rockyou.txt"@,
    ]
}

/// The directories that hold wordlists: listed by `--list-wordlists`, and
/// searched for a short wordlist name.
pub open spec fn wordlist_dirs_spec() -> Seq<Seq<char>> {
    seq![
        "/usr/share/wordlists/seclists/Discovery/Web-Content"@,
        "/usr/share/seclists/Discovery/Web-Content"@,
        "/usr/share/wordlists"@,
        "/usr/share/dirbuster/wordlists"@,
    ]
}

/// The wordlists tried, in order of preference, when none is named.
pub fn wordlist_search_paths() -> (paths: Vec<String>)
    ensures
        paths.deep_view() == search_paths_spec(),
{
    let paths = vec![
        String::from_str("/usr/share/wordlists/seclists/Discovery/Web-Content/common.txt"),
        String::from_str("/usr/share/seclists/Discovery/Web-Content/common.txt"),
        String::from_str(
            "/usr/share/wordlists/seclists/Discovery/Web-Content/raft-large-directories.txt",
        ),
        String::from_str("/usr/share/seclists/Discovery/Web-Content/raft-large-directories.txt"),
        String::from_str("/usr/share/wordlists/seclists/Discovery/Web-Content/raft-large-words.txt"),
        String::from_str("/usr/share/seclists/Discovery/Web-Content/raft-large-words.txt"),
        String::from_str(
            "/usr/share/wordlists/seclists/Discovery/Web-Content/directory-list-2.3-medium.txt",
        ),
        String::from_str("/usr/share/seclists/Discovery/Web-Content/directory-list-2.3-medium.txt"),
        String::from_str("/usr/share/wordlists/dirbuster/directory-list-2.3-medium.txt"),
        String::from_str("/usr/share/wordlists/dirbuster/directory-list-2.3-small.txt"),
        String::from_str("/usr/share/wordlists/common.txt"),
        String::from_str("/usr/share/wordlists/rockyou.txt"),
    ];
    assert(paths.deep_view() =~= search_paths_spec());
    paths
}

/// The directories that hold wordlists, in the order they are listed and searched.
pub fn wordlist_dirs() -> (dirs: Vec<String>)
    ensures
        dirs.deep_view() == wordlist_dirs_spec(),
{
    let dirs = vec![
        String::from_str("/usr/share/wordlists/seclists/Discovery/Web-Content"),
        String::from_str("/usr/share/seclists/Discovery/Web-Content"),
        String::from_str("/usr/share/wordlists"),
        String::from_str("/usr/share/dirbuster/wordlists"),
    ];
    assert(dirs.deep_view() =~= wordlist_dirs_spec());
    dirs
}

/// The index of the first entry whose flag is set, looking only where both
/// sequences have an entry.
pub open spec fn first_set(flags: Seq<bool>, n: int) -> Option<int>
    decreases n,
{
    if n <= 0 {
        None
    } else {
        match first_set(flags, n - 1) {
            Some(i) => Some(i),
            None => if flags[n - 1] {
                Some(n - 1)
            } else {
                None
            },
        }
    }
}

/// The first of `paths` that exists, where `exists[i]` tells whether `paths[i]`
/// does; entries without a flag count as missing.
pub open spec fn first_existing_spec(paths: Seq<Seq<char>>, exists: Seq<bool>) -> Option<
    Seq<char>,
> {
    let n = if paths.len() < exists.len() {
        paths.len() as int
    } else {
        exists.len() as int
    };
    match first_set(exists, n) {
        Some(i) => Some(paths[i]),
        None => None,
    }
}

/// `first_set` finds the least index below `n` whose flag is set.
pub proof fn lemma_first_set(flags: Seq<bool>, n: int)
    requires
        n <= flags.len(),
    ensures
        first_set(flags, n) matches Some(i) ==> 0 <= i < n && flags[i] && forall|k: int|
            0 <= k < i ==> !flags[k],
        first_set(flags, n) is None ==> forall|k: int| 0 <= k < n ==> !flags[k],
    decreases n,
{
    if n > 0 {
        lemma_first_set(flags, n - 1);
    }
}

/// The first of `paths` that exists.
pub fn first_existing(paths: &Vec<String>, exists: &Vec<bool>) -> (r: Option<String>)
    ensures
        opt_text(r) == first_existing_spec(paths.deep_view(), exists@),
{
    let n = if paths.len() < exists.len() {
        paths.len()
    } else {
        exists.len()
    };
    let mut i: usize = 0;
    while i < n
        invariant
            i <= n <= paths@.len(),
            n <= exists@.len(),
            n == (if paths@.len() < exists@.len() { paths@.len() } else { exists@.len() }),
            first_set(exists@, i as int) is None,
        decreases n - i,
    {
        if exists[i] {
            assert(first_set(exists@, i + 1) == Some(i as int));
            let mut k: usize = i + 1;
            while k < n
                invariant
                    i < k <= n <= exists@.len(),
                    first_set(exists@, k as int) == Some(i as int),
                decreases n - k,
            {
                k = k + 1;
            }
            assert(paths.deep_view()[i as int] == paths@[i as int]@);
            return Some(paths[i].clone());
        }
        i = i + 1;
    }
    None
}

/// `first_existing_spec` picks the first flagged path: when `exists[k]` holds
/// and no earlier flag does, the result is `paths[k]`; when no flag holds where
/// both have an entry, there is none.
pub proof fn lemma_first_existing_picks_first(paths: Seq<Seq<char>>, exists: Seq<bool>, k: int)
    ensures
        (0 <= k < paths.len() && k < exists.len() && exists[k] && (forall|j: int|
            0 <= j < k ==> !#[trigger] exists[j])) ==> first_existing_spec(paths, exists) == Some(
            paths[k],
        ),
        (forall|j: int| 0 <= j < paths.len() && j < exists.len() ==> !#[trigger] exists[j])
            ==> first_existing_spec(paths, exists) is None,
{
    let n = if paths.len() < exists.len() {
        paths.len() as int
    } else {
        exists.len() as int
    };
    lemma_first_set(exists, n);
    if 0 <= k < paths.len() && k < exists.len() && exists[k] && (forall|j: int|
        0 <= j < k ==> !#[trigger] exists[j]) {
        match first_set(exists, n) {
            Some(i) => {
                assert(i == k) by {
                    if i < k {
                        assert(!exists[i]);
                    }
                    if k < i {
                        assert(!exists[k]);
                    }
                }
            },
            None => {
                assert(!exists[k]);
            },
        }
    }
}

/// The places a name is looked for: the home-expanded name, then the name
/// inside each of the four wordlist directories in order, the last being
/// `/usr/share/dirbuster/wordlists`.
pub proof fn lemma_resolution_candidates_shape(input: Seq<char>, home: Option<Seq<char>>)
    ensures
        resolution_candidates_spec(input, home).len() == 5,
        resolution_candidates_spec(input, home)[0] == expand_home_spec(input, home),
        forall|k: int|
            1 <= k < 5 ==> #[trigger] resolution_candidates_spec(input, home)[k] == wordlist_dirs_spec()[k
                - 1] + seq!['/'] + input,
        resolution_candidates_spec(input, home)[4] == "/usr/share/dirbuster/wordlists"@ + seq!['/']
            + input,
{
}

/// A name resolves to the first of its five candidates that exists, any of
/// them, down to the last directory; when none exists it resolves to the
/// home-expanded name itself.
pub proof fn lemma_resolve_first_existing(
    input: Seq<char>,
    home: Option<Seq<char>>,
    exists: Seq<bool>,
    k: int,
)
    ensures
        (0 <= k < 5 && k < exists.len() && exists[k] && (forall|j: int|
            0 <= j < k ==> !#[trigger] exists[j])) ==> resolve_spec(input, home, exists)
            == resolution_candidates_spec(input, home)[k],
        (forall|j: int| 0 <= j < 5 && j < exists.len() ==> !#[trigger] exists[j]) ==> resolve_spec(
            input,
            home,
            exists,
        ) == expand_home_spec(input, home),
{
    lemma_resolution_candidates_shape(input, home);
    lemma_first_existing_picks_first(resolution_candidates_spec(input, home), exists, k);
}

/// With no name given, the wordlist is the first of the twelve search paths
/// that exists, any of them; none when none exists.
pub proof fn lemma_auto_detect_first_existing(exists: Seq<bool>, k: int)
    ensures
        search_paths_spec().len() == 12,
        (0 <= k < 12 && k < exists.len() && exists[k] && (forall|j: int|
            0 <= j < k ==> !#[trigger] exists[j])) ==> first_existing_spec(search_paths_spec(), exists)
            == Some(search_paths_spec()[k]),
        (forall|j: int| 0 <= j < 12 && j < exists.len() ==> !#[trigger] exists[j])
            ==> first_existing_spec(search_paths_spec(), exists) is None,
{
    lemma_first_existing_picks_first(search_paths_spec(), exists, k);
}

/// The wordlist chosen when none is named: the first of the search paths that
/// exists, where `exists[i]` tells whether the `i`-th search path does.
pub fn auto_detect_choice(exists: &Vec<bool>) -> (r: Option<String>)
    ensures
        opt_text(r) == first_existing_spec(search_paths_spec(), exists@),
{
    let paths = wordlist_search_paths();
    first_existing(&paths, exists)
}

/// `input` with a leading `~/` replaced by the home directory and a slash,
/// when the home directory is known.
pub open spec fn expand_home_spec(input: Seq<char>, home: Option<Seq<char>>) -> Seq<char> {
    if input.len() >= 2 && input[0] == '~' && input[1] == '/' {
        match home {
            Some(h) => h + seq!['/'] + input.subrange(2, input.len() as int),
            None => input,
        }
    } else {
        input
    }
}

/// `dir` and `name` joined by a slash.
pub open spec fn join_path(dir: Seq<char>, name: Seq<char>) -> Seq<char> {
    dir + seq!['/'] + name
}

/// The places a named wordlist is looked for, in order: the name itself (after
/// home expansion), then the name inside each wordlist directory.
pub open spec fn resolution_candidates_spec(input: Seq<char>, home: Option<Seq<char>>) -> Seq<
    Seq<char>,
> {
    seq![expand_home_spec(input, home)] + Seq::new(
        wordlist_dirs_spec().len(),
        |i: int| join_path(wordlist_dirs_spec()[i], input),
    )
}

/// The wordlist path a name resolves to: the first of its resolution
/// candidates that exists, or the home-expanded name when none does.
pub open spec fn resolve_spec(input: Seq<char>, home: Option<Seq<char>>, exists: Seq<bool>) -> Seq<
    char,
> {
    match first_existing_spec(resolution_candidates_spec(input, home), exists) {
        Some(p) => p,
        None => expand_home_spec(input, home),
    }
}

/// `input` with a leading `~/` replaced by the home directory and a slash.
pub fn expand_home(input: &str, home: &Option<String>) -> (r: String)
    ensures
        r@ == expand_home_spec(input@, opt_text(*home)),
{
    let cs = chars_of(input);
    if cs.len() >= 2 && cs[0] == '~' && cs[1] == '/' {
        match home {
            Some(h) => {
                let mut r = h.clone();
                r.push('/');
                let rest = string_of_range(&cs, 2, cs.len());
                r.append(rest.as_str());
                assert(r@ =~= h@ + seq!['/'] + input@.subrange(2, input@.len() as int));
                r
            },
            None => input.to_owned(),
        }
    } else {
        input.to_owned()
    }
}

/// The places a named wordlist is looked for, in order.
pub fn resolution_candidates(input: &str, home: &Option<String>) -> (r: Vec<String>)
    ensures
        r.deep_view() == resolution_candidates_spec(input@, opt_text(*home)),
{
    let dirs = wordlist_dirs();
    let mut r: Vec<String> = Vec::new();
    r.push(expand_home(input, home));
    let ghost target = resolution_candidates_spec(input@, opt_text(*home));
    assert(r.deep_view() =~= target.take(1));
    let mut i: usize = 0;
    while i < dirs.len()
        invariant
            i <= dirs@.len() == wordlist_dirs_spec().len(),
            dirs.deep_view() == wordlist_dirs_spec(),
            target == resolution_candidates_spec(input@, opt_text(*home)),
            r.deep_view() == target.take(i + 1),
        decreases dirs.len() - i,
    {
        let mut p = dirs[i].clone();
        p.push('/');
        p.append(input);
        assert(dirs.deep_view()[i as int] == dirs@[i as int]@);
        assert(p@ =~= join_path(wordlist_dirs_spec()[i as int], input@));
        let ghost before = r.deep_view();
        r.push(p);
        assert(r.deep_view() =~= before.push(p@));
        assert(target.take(i + 2) =~= target.take(i + 1).push(p@));
        i = i + 1;
    }
    assert(target.take(5) =~= target);
    r
}

/// The path a wordlist name resolves to, where `exists[i]` tells whether the
/// `i`-th of its resolution candidates exists.
pub fn resolve_wordlist_choice(input: &str, home: &Option<String>, exists: &Vec<bool>) -> (r: String)
    ensures
        r@ == resolve_spec(input@, opt_text(*home), exists@),
{
    let cands = resolution_candidates(input, home);
    match first_existing(&cands, exists) {
        Some(p) => p,
        None => expand_home(input, home),
    }
}

/// `name` has an extension (text after its last dot, where that dot is not the
/// first character) equal to `txt` or `lst`.
pub open spec fn has_wordlist_extension(name: Seq<char>) -> bool {
    exists|p: int|
        0 < p < name.len() && name[p] == '.' && (forall|k: int| p < k < name.len() ==> name[k]
            != '.') && {
            let ext = name.subrange(p + 1, name.len() as int);
            ext == seq!['t', 'x', 't'] || ext == seq!['l', 's', 't']
        }
}

/// Whether a file with this name is listed as a wordlist: its extension
/// (as `Path::extension` reads it) is `txt` or `lst`.
pub fn is_wordlist_file(name: &str) -> (b: bool)
    ensures
        b == has_wordlist_extension(name@),
{
    let cs = chars_of(name);
    let n = cs.len();
    let mut p: usize = n;
    while p > 0 && cs[p - 1] != '.'
        invariant
            p <= n == cs@.len(),
            forall|k: int| p <= k < n ==> cs@[k] != '.',
        decreases p,
    {
        p = p - 1;
    }
    // Either no dot at all (p == 0), or the last dot is at p - 1.
    if p <= 1 {
        proof {
            if has_wordlist_extension(name@) {
                let q = choose|q: int|
                    0 < q < name@.len() && name@[q] == '.' && (forall|k: int|
                        q < k < name@.len() ==> name@[k] != '.') && {
                        let ext = name@.subrange(q + 1, name@.len() as int);
                        ext == seq!['t', 'x', 't'] || ext == seq!['l', 's', 't']
                    };
                assert(cs@[q] == '.');
            }
        }
        return false;
    }
    let d = p - 1;
    let len = n - p;
    let is_txt = len == 3 && cs[p] == 't' && cs[p + 1] == 'x' && cs[p + 2] == 't';
    let is_lst = len == 3 && cs[p] == 'l' && cs[p + 1] == 's' && cs[p + 2] == 't';
    proof {
        let ext = name@.subrange(p as int, n as int);
        if len == 3 {
            assert(is_txt ==> ext =~= seq!['t', 'x', 't']);
            assert(is_lst ==> ext =~= seq!['l', 's', 't']);
            assert(ext == seq!['t', 'x', 't'] ==> is_txt) by {
                if ext == seq!['t', 'x', 't'] {
                    assert(ext[0] == cs@[p as int] && ext[1] == cs@[p + 1] && ext[2] == cs@[p + 2]);
                }
            }
            assert(ext == seq!['l', 's', 't'] ==> is_lst) by {
                if ext == seq!['l', 's', 't'] {
                    assert(ext[0] == cs@[p as int] && ext[1] == cs@[p + 1] && ext[2] == cs@[p + 2]);
                }
            }
        }
        if has_wordlist_extension(name@) {
            let q = choose|q: int|
                0 < q < name@.len() && name@[q] == '.' && (forall|k: int|
                    q < k < name@.len() ==> name@[k] != '.') && {
                    let e = name@.subrange(q + 1, name@.len() as int);
                    e == seq!['t', 'x', 't'] || e == seq!['l', 's', 't']
                };
            assert(q == d as int);
            assert(name@.subrange(q + 1, name@.len() as int) == ext);
            assert(ext.len() == 3);
            assert(len == 3);
            assert(is_txt || is_lst);
        }
        if is_txt || is_lst {
            assert(cs@[d as int] == '.');
            assert(d + 1 == p);
            assert(name@.subrange(d + 1, name@.len() as int) == ext);
            assert(forall|k: int| d < k < name@.len() ==> name@[k] != '.');
            assert(has_wordlist_extension(name@));
        }
    }
    is_txt || is_lst
}

} // verus!
