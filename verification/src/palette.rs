//! The command palette: one keystroke to anything in the binary.
//!
//! Matching is subsequence-based with a small ranking model: a prefix beats a
//! word-boundary hit, which beats a scattered match, and shorter names win
//! ties. That is what makes `mwp` find `MAINWNDPROC`.

use vstd::prelude::*;
use crate::icons::Icon;
use crate::nav::{
    address_label, address_text, fns_opt, resolve_spec, shown_nav, Action, Addr, Nav, NavV, Session,
};
use crate::order::{lemma_lex_asymmetric, lemma_lex_total, lemma_lex_transitive, lex_lt, str_lt};
use crate::text::{
    chars_eq, chars_of, char_is_lowercase, char_is_uppercase, decimal, extend_str, fmt_decimal,
    decimal_padded, hex, hex_padded, is_ascii_text, lower, string_of, to_lowercase,
    trim, trim_chars, is_lower_char, is_upper_char, lowered,
};

verus! {

/// What kind of thing a candidate is, which decides its icon and colour.
#[derive(Debug, Clone, Copy, PartialEq, Eq, Structural)]
pub enum Kind {
    Command,
    Function,
    Export,
    Segment,
    Resource,
    Import,
    String,
    Module,
}

/// The icon each kind of candidate is shown with.
pub open spec fn kind_icon(k: Kind) -> Icon {
    match k {
        Kind::Command => Icon::Target,
        Kind::Function | Kind::Export => Icon::Code,
        Kind::Segment => Icon::Segment,
        Kind::Resource => Icon::Resource,
        Kind::Import => Icon::Import,
        Kind::String => Icon::Strings,
        Kind::Module => Icon::Module,
    }
}

/// The word each kind of candidate is labelled with.
pub open spec fn kind_label(k: Kind) -> Seq<char> {
    match k {
        Kind::Command => "command"@,
        Kind::Function => "function"@,
        Kind::Export => "export"@,
        Kind::Segment => "segment"@,
        Kind::Resource => "resource"@,
        Kind::Import => "import"@,
        Kind::String => "string"@,
        Kind::Module => "module"@,
    }
}

impl Kind {
    /// The icon this kind is shown with.
    pub fn icon(self) -> (r: Icon)
        ensures
            r == kind_icon(self),
    {
        match self {
            Kind::Command => Icon::Target,
            Kind::Function | Kind::Export => Icon::Code,
            Kind::Segment => Icon::Segment,
            Kind::Resource => Icon::Resource,
            Kind::Import => Icon::Import,
            Kind::String => Icon::Strings,
            Kind::Module => Icon::Module,
        }
    }

    /// The word this kind is labelled with.
    pub fn label(self) -> (r: &'static str)
        ensures
            r@ == kind_label(self),
    {
        match self {
            Kind::Command => "command",
            Kind::Function => "function",
            Kind::Export => "export",
            Kind::Segment => "segment",
            Kind::Resource => "resource",
            Kind::Import => "import",
            Kind::String => "string",
            Kind::Module => "module",
        }
    }
}

/// The kind a leading sigil restricts a query to, and the rest of the query.
pub open spec fn scope_spec(q: Seq<char>) -> (Option<Kind>, Seq<char>) {
    if q.len() > 0 && q[0] == '>' {
        (Some(Kind::Command), q.drop_first())
    } else if q.len() > 0 && q[0] == '@' {
        (Some(Kind::Function), q.drop_first())
    } else if q.len() > 0 && q[0] == '#' {
        (Some(Kind::String), q.drop_first())
    } else if q.len() > 0 && q[0] == '$' {
        (Some(Kind::Resource), q.drop_first())
    } else {
        (None, q)
    }
}

/// A leading sigil restricts the search to one kind, the way a real palette
/// does: `>` commands, `@` functions, `#` strings, `$` resources.
pub fn scope(query: &str) -> (r: (Option<Kind>, Vec<char>))
    ensures
        (r.0, r.1@) == scope_spec(query@),
{
    let q = chars_of(query);
    if q.len() == 0 {
        return (None, q);
    }
    let k = if q[0] == '>' {
        Some(Kind::Command)
    } else if q[0] == '@' {
        Some(Kind::Function)
    } else if q[0] == '#' {
        Some(Kind::String)
    } else if q[0] == '$' {
        Some(Kind::Resource)
    } else {
        None
    };
    match k {
        Some(kind) => {
            let mut rest: Vec<char> = Vec::new();
            let mut i: usize = 1;
            while i < q.len()
                invariant
                    1 <= i <= q.len(),
                    rest@ == q@.subrange(1, i as int),
                decreases q.len() - i,
            {
                rest.push(q[i]);
                i = i + 1;
            }
            assert(rest@ =~= q@.drop_first());
            (Some(kind), rest)
        },
        None => (None, q),
    }
}

/// The one-line hint shown under the input.
pub fn hint() -> (r: &'static str)
    ensures
        r@ == ">  commands     @  functions     #  strings     $  resources     seg02:1A40  address"@,
{
    ">  commands     @  functions     #  strings     $  resources     seg02:1A40  address"
}


/// The first index at or after `i` where `s` holds `p`.
pub open spec fn first_from(s: Seq<char>, p: char, i: int) -> Option<int>
    decreases s.len() - i,
{
    if i < 0 || i >= s.len() {
        None
    } else if s[i] == p {
        Some(i)
    } else {
        first_from(s, p, i + 1)
    }
}

/// Characters after which a match starts a new word.
pub open spec fn is_separator(c: char) -> bool {
    c == '_' || c == '.' || c == ' ' || c == '-' || c == ':' || c == '/'
}

/// The state of a subsequence match part way through the query.
pub struct Scan {
    /// Every query character so far was found.
    pub matched: bool,
    /// No step so far read past the end of the original text.
    pub safe: bool,
    /// Where the search for the next character starts.
    pub hi: int,
    pub last: Option<int>,
    pub score: int,
    pub hits: Seq<int>,
}

/// One query character matched against the lower-cased text `low`, with the
/// original text `hay` deciding word boundaries: a word-boundary hit is worth
/// 16, any other 4, a hit right after the previous one 12 more, and a hit at
/// the very start 20 more.
pub open spec fn scan_step(hay: Seq<char>, low: Seq<char>, st: Scan, p: char) -> Scan {
    if !st.matched {
        st
    } else {
        match first_from(low, p, st.hi) {
            None => Scan { matched: false, ..st },
            Some(f) => {
                let boundary = f == 0 || is_separator(hay[f - 1]) || (is_lower_char(hay[f - 1])
                    && is_upper_char(hay[f]));
                let overrun = f > 0 && (f - 1 >= hay.len() || (!is_separator(hay[f - 1])
                    && is_lower_char(hay[f - 1]) && f >= hay.len()));
                Scan {
                    matched: true,
                    safe: st.safe && !overrun,
                    hi: f + 1,
                    last: Some(f),
                    score: st.score + (if boundary {
                        16int
                    } else {
                        4int
                    }) + (if st.last == Some(f - 1) {
                        12int
                    } else {
                        0int
                    }) + (if f == 0 {
                        20int
                    } else {
                        0int
                    }),
                    hits: st.hits.push(f),
                }
            },
        }
    }
}

/// The query characters matched in order, from the start of the text.
pub open spec fn scan_fold(hay: Seq<char>, low: Seq<char>, pat: Seq<char>) -> Scan
    decreases pat.len(),
{
    if pat.len() == 0 {
        Scan { matched: true, safe: true, hi: 0, last: None, score: 0, hits: Seq::empty() }
    } else {
        scan_step(hay, low, scan_fold(hay, low, pat.drop_last()), pat.last())
    }
}

/// Whether scoring `needle` against `text` stays inside the text. Lower-casing
/// can lengthen a string (`İ` becomes two characters), and a match found past
/// the end of the original text cannot be tested for a word boundary.
pub open spec fn score_safe(text: Seq<char>, needle: Seq<char>) -> bool {
    needle.len() == 0 || lowered(needle).len() > text.len() || scan_fold(
        text,
        lowered(text),
        lowered(needle),
    ).safe
}

/// The score of `text` against `needle` and the matched byte positions, or
/// `None` when the needle is not a subsequence of the text. The empty needle
/// matches everything at a neutral score; otherwise it is `score_from` on the
/// lower-cased texts. The positions are byte offsets into the lower-cased
/// text, which are the text's own wherever lower-casing keeps each
/// character's width (ASCII, or an accented letter such as `é`).
pub open spec fn score_spec(text: Seq<char>, needle: Seq<char>) -> Option<(int, Seq<int>)> {
    if needle.len() == 0 {
        Some((0, Seq::empty()))
    } else {
        score_from(text, lowered(text), lowered(needle))
    }
}

/// The UTF-8 byte offset in `s` of each character position in `hs`.
pub open spec fn byte_positions(s: Seq<char>, hs: Seq<int>) -> Seq<int> {
    hs.map_values(|f: int| utf8_len(s.take(f)) as int)
}

/// Scoring once both texts are lower-cased: `hay` is the text as given,
/// `low` and `pat` the lower-cased text and query. `None` when the query is
/// longer than the text or is not a subsequence of `low`; otherwise the
/// hits' worth less their span (in characters) and an eighth of the text's
/// length, 200 more for an exact match, and the matched positions as byte
/// offsets into `low`.
pub open spec fn score_from(hay: Seq<char>, low: Seq<char>, pat: Seq<char>) -> Option<(int, Seq<int>)> {
    if pat.len() > hay.len() {
        None
    } else {
        let st = scan_fold(hay, low, pat);
        if !st.matched {
            None
        } else {
            let span = if st.hits.len() == 0 {
                1
            } else {
                st.hits.last() - st.hits[0] + 1
            };
            Some(
                (
                    st.score - span - hay.len() as int / 8 + (if low == pat {
                        200int
                    } else {
                        0int
                    }),
                    byte_positions(low, st.hits),
                ),
            )
        }
    }
}

proof fn lemma_first_from(s: Seq<char>, p: char, i: int)
    requires
        0 <= i,
    ensures
        match first_from(s, p, i) {
            Some(f) => 0 <= i <= f < s.len() && s[f] == p && forall|j: int|
                i <= j < f ==> s[j] != p,
            None => forall|j: int| i <= j < s.len() ==> s[j] != p,
        },
    decreases s.len() - i,
{
    if i >= s.len() {
    } else if s[i] != p {
        lemma_first_from(s, p, i + 1);
    }
}

/// `w` places the characters of `pat`, in order, at positions of `s` that
/// hold them: `pat` is a subsequence of `s`, and `w` says where.
pub open spec fn embeds(pat: Seq<char>, s: Seq<char>, w: Seq<int>) -> bool {
    &&& w.len() == pat.len()
    &&& forall|k: int| 0 <= k < w.len() ==> 0 <= #[trigger] w[k] < s.len() && s[w[k]] == pat[k]
    &&& forall|a: int, b: int| 0 <= a < b < w.len() ==> #[trigger] w[a] < #[trigger] w[b]
}

proof fn lemma_scan_fold(hay: Seq<char>, low: Seq<char>, pat: Seq<char>)
    ensures
        scan_fold(hay, low, pat).hi >= 0,
        scan_fold(hay, low, pat).matched ==> embeds(pat, low, scan_fold(hay, low, pat).hits),
        scan_fold(hay, low, pat).matched ==> scan_fold(hay, low, pat).hi == if pat.len() == 0 {
            0
        } else {
            scan_fold(hay, low, pat).hits.last() + 1
        },
        forall|w: Seq<int>|
            #[trigger] embeds(pat, low, w) ==> scan_fold(hay, low, pat).matched && (pat.len() > 0
                ==> scan_fold(hay, low, pat).hits.last() <= w.last()),
    decreases pat.len(),
{
    if pat.len() > 0 {
        let pre = pat.drop_last();
        let c = pat.last();
        lemma_scan_fold(hay, low, pre);
        let st0 = scan_fold(hay, low, pre);
        let st = scan_fold(hay, low, pat);
        lemma_first_from(low, c, st0.hi);
        if st.matched {
            let f = st.hits.last();
            assert(st.hits == st0.hits.push(f));
            assert forall|a: int, b: int| 0 <= a < b < st.hits.len() implies #[trigger] st.hits[a]
                < #[trigger] st.hits[b] by {
                if b == st.hits.len() - 1 && st0.hits.len() > 0 {
                    assert(st.hits[a] == st0.hits[a]);
                    assert(st0.hits[a] <= st0.hits.last());
                } else if b < st.hits.len() - 1 {
                    assert(st.hits[a] == st0.hits[a] && st.hits[b] == st0.hits[b]);
                }
            }
            assert forall|k: int| 0 <= k < st.hits.len() implies 0 <= #[trigger] st.hits[k] < low.len()
                && low[st.hits[k]] == pat[k] by {
                if k < st.hits.len() - 1 {
                    assert(st.hits[k] == st0.hits[k]);
                    assert(pat[k] == pre[k]);
                }
            }
        }
        assert forall|w: Seq<int>| #[trigger] embeds(pat, low, w) implies st.matched
            && st.hits.last() <= w.last() by {
            let wp = w.drop_last();
            assert(embeds(pre, low, wp)) by {
                assert forall|k: int| 0 <= k < wp.len() implies 0 <= #[trigger] wp[k] < low.len()
                    && low[wp[k]] == pre[k] by {
                    assert(wp[k] == w[k]);
                }
                assert forall|a: int, b: int| 0 <= a < b < wp.len() implies #[trigger] wp[a]
                    < #[trigger] wp[b] by {
                    assert(wp[a] == w[a] && wp[b] == w[b]);
                }
            }
            let j = w.last();
            assert(w[w.len() - 1] == j);
            if pre.len() > 0 {
                assert(w[w.len() - 2] < w[w.len() - 1]);
                assert(wp.last() == w[w.len() - 2]);
            }
            assert(st0.hi <= j);
            assert(low[j] == c);
        }
    }
}

/// The palette's matching is by subsequence: an entry is found exactly when
/// the lower-cased query can be read, in order, out of its lower-cased text,
/// and the byte positions it reports are those of such a reading.
pub proof fn lemma_score_is_subsequence(text: Seq<char>, needle: Seq<char>)
    requires
        needle.len() > 0,
        lowered(needle).len() <= text.len(),
    ensures
        score_spec(text, needle) is Some <==> exists|w: Seq<int>|
            #[trigger] embeds(lowered(needle), lowered(text), w),
        score_spec(text, needle) matches Some((s, hits)) ==> exists|w: Seq<int>|
            #[trigger] embeds(lowered(needle), lowered(text), w) && hits
                == byte_positions(lowered(text), w),
{
    lemma_scan_fold(text, lowered(text), lowered(needle));
}

/// Score the lower-cased query `pat` against the text `hay` and its
/// lower-cased form `low`, returning the matched byte positions in `low`.
pub fn score_lowered(hay: &[char], low: &[char], pat: &[char]) -> (r: Option<(i64, Vec<usize>)>)
    requires
        pat@.len() > hay@.len() || scan_fold(hay@, low@, pat@).safe,
        hay@.len() < 0x100_0000_0000_0000,
        utf8_len(low@) <= usize::MAX,
    ensures
        match r {
            Some((s, hits)) => score_from(hay@, low@, pat@) == Some(
                (s as int, hits@.map_values(|h: usize| h as int)),
            ),
            None => score_from(hay@, low@, pat@) is None,
        },
{
    if pat.len() > hay.len() {
        return None;
    }
    let mut hits: Vec<usize> = Vec::new();
    let mut score: i64 = 0;
    let mut hi: usize = 0;
    let mut last_hit: Option<usize> = None;
    let mut k: usize = 0;
    while k < pat.len()
        invariant
            pat@.len() <= hay@.len(),
            utf8_len(low@) <= usize::MAX,
            hay@.len() < 0x100_0000_0000_0000,
            scan_fold(hay@, low@, pat@).safe,
            k <= pat.len(),
            ({
                let st = scan_fold(hay@, low@, pat@.take(k as int));
                &&& st.matched
                &&& st.hi == hi as int
                &&& st.last == (match last_hit {
                    Some(x) => Some(x as int),
                    None => None,
                })
                &&& st.score == score as int
                &&& st.hits == hits@.map_values(|h: usize| h as int)
                &&& 0 <= st.score <= 48 * k
                &&& hi <= low@.len()
                &&& (st.safe ==> hi <= hay@.len() + 1)
                &&& (scan_fold(hay@, low@, pat@).safe ==> st.safe)
                &&& forall|j: int| 0 <= j < hits@.len() ==> #[trigger] hits@[j] < hi
                &&& (hits@.len() > 0 ==> hits@[hits@.len() - 1] + 1 == hi)
                &&& forall|a: int, b: int|
                    0 <= a <= b < hits@.len() ==> #[trigger] hits@[a] <= #[trigger] hits@[b]
                &&& hits@.len() == k
            }),
        decreases pat.len() - k,
    {
        let p = pat[k];
        let ghost prev = scan_fold(hay@, low@, pat@.take(k as int));
        proof {
            assert(pat@.take(k + 1).drop_last() =~= pat@.take(k as int));
            assert(pat@.take(k + 1).last() == p);
            lemma_first_from(low@, p, hi as int);
            lemma_fold_safe_prefix(hay@, low@, pat@, k as int + 1);
        }
        let mut i: usize = hi;
        while i < low.len() && low[i] != p
            invariant
                hi <= i <= low@.len(),
                forall|j: int| hi <= j < i ==> low@[j] != p,
            decreases low.len() - i,
        {
            i = i + 1;
        }
        if i >= low.len() {
            proof {
                assert(first_from(low@, p, hi as int) is None);
                assert(!scan_fold(hay@, low@, pat@.take(k + 1)).matched);
                lemma_fold_unmatched(hay@, low@, pat@, k as int + 1);
                assert(!scan_fold(hay@, low@, pat@).matched);
            }
            return None;
        }
        let found = i;
        let boundary = found == 0 || is_sep(hay[found - 1]) || (char_is_lowercase(hay[found - 1])
            && char_is_uppercase(hay[found]));
        score = score + if boundary {
            16
        } else {
            4
        };
        match last_hit {
            Some(x) => {
                if found >= 1 && x == found - 1 {
                    score = score + 12;
                }
            },
            None => {},
        }
        if found == 0 {
            score = score + 20;
        }
        hits.push(found);
        last_hit = Some(found);
        hi = found + 1;
        k = k + 1;
        proof {
            let now = scan_fold(hay@, low@, pat@.take(k as int));
            assert(now.hits =~= hits@.map_values(|h: usize| h as int));
        }
    }
    proof {
        assert(pat@.take(pat.len() as int) =~= pat@);
    }
    let span: usize = if hits.len() == 0 {
        1
    } else {
        hits[hits.len() - 1] - hits[0] + 1
    };
    score = score - span as i64;
    score = score - (hay.len() / 8) as i64;
    if chars_eq(low, pat) {
        score = score + 200;
    }
    let bytes = to_byte_positions(low, &hits);
    proof {
        let st = scan_fold(hay@, low@, pat@);
        assert(st.hits == hits@.map_values(|h: usize| h as int));
        assert(bytes@.map_values(|h: usize| h as int) =~= byte_positions(
            low@,
            hits@.map_values(|h: usize| h as int),
        ));
    }
    Some((score, bytes))
}

/// Score `text` against `needle`, returning the matched byte positions.
///
/// An empty needle matches everything at a neutral score, which is what makes
/// the palette useful as a browser before anything is typed.
pub fn score(text: &str, needle: &str) -> (r: Option<(i64, Vec<usize>)>)
    requires
        score_safe(text@, needle@),
        text@.len() < 0x100_0000_0000_0000,
    ensures
        match r {
            Some((s, hits)) => score_spec(text@, needle@) == Some(
                (s as int, hits@.map_values(|h: usize| h as int)),
            ),
            None => score_spec(text@, needle@) is None,
        },
{
    if needle.unicode_len() == 0 {
        let hits: Vec<usize> = Vec::new();
        assert(hits@.map_values(|h: usize| h as int) =~= Seq::<int>::empty());
        return Some((0, hits));
    }
    let hay = chars_of(text);
    let low_s = to_lowercase(text);
    let low = chars_of(low_s.as_str());
    let pat_s = to_lowercase(needle);
    let pat = chars_of(pat_s.as_str());
    let _ = str_len(low_s.as_str());
    score_lowered(&hay, &low, &pat)
}

/// The byte offset in `s` of each character position in `hits`.
fn to_byte_positions(s: &[char], hits: &Vec<usize>) -> (r: Vec<usize>)
    requires
        utf8_len(s@) <= usize::MAX,
        forall|k: int| 0 <= k < hits.len() ==> hits@[k] <= s@.len(),
    ensures
        r@.map_values(|h: usize| h as int) == byte_positions(s@, hits@.map_values(|h: usize| h as int)),
{
    let mut off: Vec<usize> = Vec::new();
    let mut acc: usize = 0;
    let mut i: usize = 0;
    while i < s.len()
        invariant
            i <= s.len(),
            utf8_len(s@) <= usize::MAX,
            off.len() == i,
            acc == utf8_len(s@.take(i as int)),
            forall|k: int| 0 <= k < i ==> off@[k] == utf8_len(#[trigger] s@.take(k)),
        decreases s.len() - i,
    {
        off.push(acc);
        proof {
            assert(s@.take(i + 1).drop_last() =~= s@.take(i as int));
            lemma_utf8_prefix(s@, i + 1);
        }
        acc = acc + char_width(s[i]);
        i = i + 1;
    }
    off.push(acc);
    assert(s@.take(i as int) =~= s@.take(s.len() as int));
    let mut r: Vec<usize> = Vec::new();
    let mut j: usize = 0;
    while j < hits.len()
        invariant
            j <= hits.len(),
            off.len() == s.len() + 1,
            forall|k: int| 0 <= k <= s.len() ==> off@[k] == utf8_len(#[trigger] s@.take(k)),
            forall|k: int| 0 <= k < hits.len() ==> hits@[k] <= s@.len(),
            r.len() == j,
            forall|k: int| 0 <= k < j ==> r@[k] == utf8_len(s@.take(#[trigger] hits@[k] as int)),
        decreases hits.len() - j,
    {
        r.push(off[hits[j]]);
        j = j + 1;
    }
    assert(r@.map_values(|h: usize| h as int) =~= byte_positions(s@, hits@.map_values(|h: usize| h as int)));
    r
}

/// `str::len`: the length of `s` in bytes, that is, of its UTF-8 encoding.
#[verifier::external_body]
fn str_len(s: &str) -> (r: usize)
    ensures
        r == utf8_len(s@),
{
    s.len()
}

/// The bytes `c` takes in UTF-8.
fn char_width(c: char) -> (r: usize)
    ensures
        r == utf8_width(c),
{
    if c <= '\u{7f}' {
        1
    } else if c <= '\u{7ff}' {
        2
    } else if c <= '\u{ffff}' {
        3
    } else {
        4
    }
}

proof fn lemma_utf8_prefix(s: Seq<char>, k: int)
    requires
        0 <= k <= s.len(),
    ensures
        utf8_len(s.take(k)) <= utf8_len(s),
    decreases s.len() - k,
{
    if k < s.len() {
        lemma_utf8_prefix(s, k + 1);
        assert(s.take(k + 1).drop_last() =~= s.take(k));
    } else {
        assert(s.take(k) =~= s);
    }
}

/// Whether a character separates words.
fn is_sep(c: char) -> (r: bool)
    ensures
        r == is_separator(c),
{
    c == '_' || c == '.' || c == ' ' || c == '-' || c == ':' || c == '/'
}

/// Safety of the whole match implies safety of every prefix of it.
proof fn lemma_fold_safe_prefix(hay: Seq<char>, low: Seq<char>, pat: Seq<char>, k: int)
    requires
        0 <= k <= pat.len(),
    ensures
        scan_fold(hay, low, pat).safe ==> scan_fold(hay, low, pat.take(k)).safe,
    decreases pat.len() - k,
{
    if k < pat.len() {
        lemma_fold_safe_prefix(hay, low, pat, k + 1);
        assert(pat.take(k + 1).drop_last() =~= pat.take(k));
    } else {
        assert(pat.take(k) =~= pat);
    }
}

/// Once a character is not found, the match stays failed.
proof fn lemma_fold_unmatched(hay: Seq<char>, low: Seq<char>, pat: Seq<char>, k: int)
    requires
        0 <= k <= pat.len(),
        !scan_fold(hay, low, pat.take(k)).matched,
    ensures
        !scan_fold(hay, low, pat).matched,
    decreases pat.len() - k,
{
    if k < pat.len() {
        assert(pat.take(k + 1).drop_last() =~= pat.take(k));
        lemma_fold_unmatched(hay, low, pat, k + 1);
    } else {
        assert(pat.take(k) =~= pat);
    }
}

/// Whether scoring `needle` against `text` would stay inside the text.
pub fn score_is_safe(text: &str, needle: &str) -> (r: bool)
    ensures
        r == score_safe(text@, needle@),
{
    let nd = chars_of(needle);
    if nd.len() == 0 {
        return true;
    }
    let hay = chars_of(text);
    let low_s = to_lowercase(text);
    let low = chars_of(low_s.as_str());
    let pat_s = to_lowercase(needle);
    let pat = chars_of(pat_s.as_str());
    if pat.len() > hay.len() {
        return true;
    }
    let mut matched = true;
    let mut safe = true;
    let mut hi: usize = 0;
    let mut k: usize = 0;
    while k < pat.len()
        invariant
            hay@ == text@,
            low@ == lowered(text@),
            pat@ == lowered(needle@),
            k <= pat.len(),
            ({
                let st = scan_fold(hay@, low@, pat@.take(k as int));
                &&& st.matched == matched
                &&& st.safe == safe
                &&& (matched ==> st.hi == hi as int)
                &&& hi <= low@.len()
            }),
        decreases pat.len() - k,
    {
        let p = pat[k];
        proof {
            assert(pat@.take(k + 1).drop_last() =~= pat@.take(k as int));
            assert(pat@.take(k + 1).last() == p);
            lemma_first_from(low@, p, hi as int);
        }
        if matched {
            let mut i: usize = hi;
            while i < low.len() && low[i] != p
                invariant
                    hi <= i <= low@.len(),
                    forall|j: int| hi <= j < i ==> low@[j] != p,
                decreases low.len() - i,
            {
                i = i + 1;
            }
            if i >= low.len() {
                matched = false;
            } else {
                let f = i;
                let overrun = f > 0 && (f - 1 >= hay.len() || (!is_sep(hay[f - 1])
                    && char_is_lowercase(hay[f - 1]) && f >= hay.len()));
                if overrun {
                    safe = false;
                }
                hi = f + 1;
            }
        }
        k = k + 1;
    }
    assert(pat@.take(pat.len() as int) =~= pat@);
    safe
}

/// `score`, for any text: `None` as well when the match would run past the
/// end of the text, which lower-casing can lengthen.
pub fn score_checked(text: &str, needle: &str) -> (r: Option<(i64, Vec<usize>)>)
    requires
        text@.len() < 0x100_0000_0000_0000,
    ensures
        match r {
            Some((s, hits)) => score_safe(text@, needle@) && score_spec(text@, needle@) == Some(
                (s as int, hits@.map_values(|h: usize| h as int)),
            ),
            None => !score_safe(text@, needle@) || score_spec(text@, needle@) is None,
        },
{
    if score_is_safe(text, needle) {
        score(text, needle)
    } else {
        None
    }
}

/// Something the palette can offer, before it is scored.
pub struct Entry<A> {
    pub kind: Kind,
    pub title: String,
    pub detail: String,
    /// What choosing it does.
    pub action: A,
}

/// An offer that matched the query, with its score and the positions of
/// the matched characters in the title.
pub struct Candidate<A> {
    pub kind: Kind,
    pub title: String,
    pub detail: String,
    pub hits: Vec<usize>,
    pub score: i64,
    pub action: A,
}

/// A candidate as a value.
pub struct CandV<A> {
    pub kind: Kind,
    pub title: Seq<char>,
    pub detail: Seq<char>,
    pub hits: Seq<int>,
    pub score: int,
    pub action: A,
}

impl<A> Candidate<A> {
    /// The candidate as a value.
    pub open spec fn value(&self) -> CandV<A> {
        CandV {
            kind: self.kind,
            title: self.title@,
            detail: self.detail@,
            hits: self.hits@.map_values(|h: usize| h as int),
            score: self.score as int,
            action: self.action,
        }
    }
}

/// Candidates as values.
pub open spec fn cands_view<A>(v: Seq<Candidate<A>>) -> Seq<CandV<A>> {
    v.map_values(|c: Candidate<A>| c.value())
}

/// The query without its sigil and surrounding white space.
pub open spec fn query_needle(query: Seq<char>) -> Seq<char> {
    trim(scope_spec(query).1)
}

/// Whether the query reads as an address: it holds a `:` or is all
/// hexadecimal digits.
pub open spec fn looks_like_address(needle: Seq<char>) -> bool {
    needle.contains(':') || forall|i: int| 0 <= i < needle.len() ==> is_hex(#[trigger] needle[i])
}

pub open spec fn is_hex(c: char) -> bool {
    ('0' <= c && c <= '9') || ('a' <= c && c <= 'f') || ('A' <= c && c <= 'F')
}

/// Whether an entry of kind `k` is considered for the query: the sigil's
/// kind only, when there is one, and strings only once something is typed.
pub open spec fn considered(query: Seq<char>, k: Kind) -> bool {
    (scope_spec(query).0 matches Some(only) ==> only == k) && !(k == Kind::String
        && query_needle(query).len() == 0)
}

/// The candidates the entries from index `i` on give, in entry order: each
/// considered entry whose title matches the needle, with its score.
pub open spec fn scored_from<A>(query: Seq<char>, entries: Seq<Entry<A>>, i: int) -> Seq<CandV<A>>
    decreases entries.len() - i,
{
    if i < 0 || i >= entries.len() {
        Seq::empty()
    } else {
        let e = entries[i];
        let needle = query_needle(query);
        let rest = scored_from(query, entries, i + 1);
        if considered(query, e.kind) && score_safe(e.title@, needle) {
            match score_spec(e.title@, needle) {
                Some((s, hits)) => seq![
                    CandV {
                        kind: e.kind,
                        title: e.title@,
                        detail: e.detail@,
                        hits,
                        score: s,
                        action: e.action,
                    },
                ] + rest,
                None => rest,
            }
        } else {
            rest
        }
    }
}

/// The address offer: first of all, with the highest score there is.
pub open spec fn goto_offer<A>(query: Seq<char>, goto: Option<(Seq<char>, A)>) -> Seq<CandV<A>> {
    match goto {
        Some((text, action)) => if scope_spec(query).0 is None && looks_like_address(
            query_needle(query),
        ) {
            seq![
                CandV {
                    kind: Kind::Command,
                    title: "Go to "@ + text,
                    detail: "address"@,
                    hits: Seq::empty(),
                    score: i64::MAX as int,
                    action,
                },
            ]
        } else {
            Seq::empty()
        },
        None => Seq::empty(),
    }
}

/// The address offer's text and action as values.
pub open spec fn goto_view<A>(g: Option<(String, A)>) -> Option<(Seq<char>, A)> {
    match g {
        Some((t, a)) => Some((t@, a)),
        None => None,
    }
}

/// How many bytes UTF-8 takes for `c`.
pub open spec fn utf8_width(c: char) -> nat {
    if c <= '\u{7f}' {
        1
    } else if c <= '\u{7ff}' {
        2
    } else if c <= '\u{ffff}' {
        3
    } else {
        4
    }
}

/// The length of `s` in UTF-8 bytes, as `str::len` counts it.
pub open spec fn utf8_len(s: Seq<char>) -> nat
    decreases s.len(),
{
    if s.len() == 0 {
        0
    } else {
        utf8_len(s.drop_last()) + utf8_width(s.last())
    }
}

/// Candidate `a` is listed before `b`: the higher score first, then the
/// shorter title (in bytes), then the title that sorts first.
pub open spec fn cand_lt<A>(a: CandV<A>, b: CandV<A>) -> bool {
    ||| a.score > b.score
    ||| (a.score == b.score && utf8_len(a.title) < utf8_len(b.title))
    ||| (a.score == b.score && utf8_len(a.title) == utf8_len(b.title) && lex_lt(a.title, b.title))
}

proof fn lemma_utf8_len_bound(s: Seq<char>)
    ensures
        utf8_len(s) <= 4 * s.len(),
    decreases s.len(),
{
    if s.len() > 0 {
        lemma_utf8_len_bound(s.drop_last());
    }
}

/// The length of `s` in UTF-8 bytes.
fn byte_len(s: &str) -> (r: u64)
    requires
        s@.len() < 0x100_0000_0000_0000,
    ensures
        r == utf8_len(s@),
{
    let cs = chars_of(s);
    let mut n: u64 = 0;
    let mut i: usize = 0;
    while i < cs.len()
        invariant
            i <= cs.len(),
            cs@ == s@,
            cs@.len() < 0x100_0000_0000_0000,
            n == utf8_len(cs@.take(i as int)),
        decreases cs.len() - i,
    {
        proof {
            assert(cs@.take(i + 1).drop_last() =~= cs@.take(i as int));
            lemma_utf8_len_bound(cs@.take(i as int));
        }
        let c = cs[i];
        let w: u64 = if c <= '\u{7f}' {
            1
        } else if c <= '\u{7ff}' {
            2
        } else if c <= '\u{ffff}' {
            3
        } else {
            4
        };
        n = n + w;
        i = i + 1;
    }
    assert(cs@.take(cs.len() as int) =~= cs@);
    n
}

/// In a stable sort of `pool`, the entry at `i` comes before the one at `j`.
pub open spec fn ranked_before<A>(pool: Seq<CandV<A>>, i: int, j: int) -> bool {
    cand_lt(pool[i], pool[j]) || (!cand_lt(pool[j], pool[i]) && i < j)
}

/// `r` is `pool` sorted stably into candidate order and cut to `max`: `src`
/// says which pool entry each place holds.
pub open spec fn is_ranking<A>(pool: Seq<CandV<A>>, src: Seq<int>, r: Seq<CandV<A>>, max: nat) -> bool {
    &&& src.len() == pool.len()
    &&& forall|a: int| 0 <= a < src.len() ==> 0 <= #[trigger] src[a] < pool.len()
    &&& forall|a: int, b: int| 0 <= a < b < src.len() ==> ranked_before(pool, src[a], src[b])
    &&& r.len() == if pool.len() < max {
        pool.len()
    } else {
        max
    }
    &&& forall|a: int| 0 <= a < r.len() ==> #[trigger] r[a] == pool[src[a]]
}

/// The most candidates the palette lists.
pub const MAX_CANDIDATES: usize = 300;

proof fn lemma_cand_total<A>(a: CandV<A>, b: CandV<A>)
    ensures
        cand_lt(a, b) || cand_lt(b, a) || (a.score == b.score && a.title == b.title),
{
    if a.score == b.score && utf8_len(a.title) == utf8_len(b.title) && a.title != b.title {
        lemma_lex_total(a.title, b.title);
    }
}

proof fn lemma_cand_transitive<A>(a: CandV<A>, b: CandV<A>, c: CandV<A>)
    requires
        cand_lt(a, b),
        cand_lt(b, c),
    ensures
        cand_lt(a, c),
{
    if a.score == b.score && b.score == c.score && utf8_len(a.title) == utf8_len(b.title) && utf8_len(
        b.title,
    ) == utf8_len(c.title) {
        lemma_lex_transitive(a.title, b.title, c.title);
    }
}

proof fn lemma_cand_equal_tie<A>(a: CandV<A>, b: CandV<A>, c: CandV<A>)
    requires
        !cand_lt(a, b),
        !cand_lt(b, a),
    ensures
        cand_lt(a, c) == cand_lt(b, c),
        cand_lt(c, a) == cand_lt(c, b),
{
    lemma_cand_total(a, b);
    if a.score == b.score && a.title == b.title {
    }
}

proof fn lemma_ranked_transitive<A>(pool: Seq<CandV<A>>, i: int, j: int, k: int)
    requires
        ranked_before(pool, i, j),
        ranked_before(pool, j, k),
    ensures
        ranked_before(pool, i, k),
{
    let (a, b, c) = (pool[i], pool[j], pool[k]);
    if cand_lt(a, b) && cand_lt(b, c) {
        lemma_cand_transitive(a, b, c);
    } else if cand_lt(a, b) {
        lemma_cand_equal_tie(b, c, a);
    } else if cand_lt(b, c) {
        lemma_cand_equal_tie(a, b, c);
    } else {
        lemma_cand_equal_tie(a, b, c);
    }
}

fn cand_before<A>(a: &Candidate<A>, b: &Candidate<A>) -> (r: bool)
    requires
        a.title@.len() < 0x100_0000_0000_0000,
        b.title@.len() < 0x100_0000_0000_0000,
    ensures
        r == cand_lt(a.value(), b.value()),
{
    let la = byte_len(a.title.as_str());
    let lb = byte_len(b.title.as_str());
    a.score > b.score || (a.score == b.score && la < lb) || (a.score == b.score && la == lb
        && str_lt(a.title.as_str(), b.title.as_str()))
}

/// The candidate `e` gives under `needle`, if it matches.
fn offer<A>(e: Entry<A>, needle: &str) -> (r: Option<Candidate<A>>)
    requires
        e.title@.len() < 0x100_0000_0000_0000,
    ensures
        match r {
            Some(c) => score_safe(e.title@, needle@) && score_spec(e.title@, needle@) == Some(
                (c.value().score, c.value().hits),
            ) && c.value() == (CandV {
                kind: e.kind,
                title: e.title@,
                detail: e.detail@,
                hits: c.value().hits,
                score: c.value().score,
                action: e.action,
            }),
            None => !score_safe(e.title@, needle@) || score_spec(e.title@, needle@) is None,
        },
{
    match score_checked(e.title.as_str(), needle) {
        Some((s, hits)) => Some(
            Candidate { kind: e.kind, title: e.title, detail: e.detail, hits, score: s, action: e.action },
        ),
        None => None,
    }
}

/// Rank everything the palette can offer against a query: the address it
/// reads as, when `goto` holds its text and the action for it, and each
/// entry that its kind and title let through, best first, at most 300.
pub fn candidates<A>(query: &str, goto: Option<(String, A)>, entries: Vec<Entry<A>>) -> (r: Vec<
    Candidate<A>,
>)
    requires
        forall|i: int| 0 <= i < entries.len() ==> (#[trigger] entries@[i]).title@.len() < 0x100_0000_0000_0000,
        goto matches Some((t, _)) ==> t@.len() < 0x100_0000_0000,
    ensures
        ({
            let pool = goto_offer(query@, goto_view(goto)) + scored_from(query@, entries@, 0);
            exists|src: Seq<int>| #[trigger] is_ranking(pool, src, cands_view(r@), 300)
        }),
{
    let (only, rest) = scope(query);
    let needle_chars = trim_chars(&rest);
    let needle = string_of(&needle_chars);
    let ghost gv = goto_view(goto);
    let ghost pool = goto_offer(query@, gv) + scored_from(query@, entries@, 0);
    // The pool in entry order, as the sort consumes it.
    let mut pending: Vec<Candidate<A>> = Vec::new();
    match goto {
        Some((text, action)) => {
            let mut addr_like = false;
            let mut colon = false;
            let mut hex = true;
            let mut i: usize = 0;
            while i < needle_chars.len()
                invariant
                    i <= needle_chars.len(),
                    colon == exists|j: int| 0 <= j < i && #[trigger] needle_chars@[j] == ':',
                    hex == forall|j: int| 0 <= j < i ==> is_hex(#[trigger] needle_chars@[j]),
                decreases needle_chars.len() - i,
            {
                let c = needle_chars[i];
                if c == ':' {
                    colon = true;
                }
                if !(('0' <= c && c <= '9') || ('a' <= c && c <= 'f') || ('A' <= c && c <= 'F')) {
                    hex = false;
                }
                i = i + 1;
            }
            addr_like = colon || hex;
            if only.is_none() && addr_like {
                let mut title: Vec<char> = Vec::new();
                proof {
                    reveal_strlit("Go to ");
                }
                extend_str(&mut title, "Go to ");
                extend_str(&mut title, text.as_str());
                pending.push(
                    Candidate {
                        kind: Kind::Command,
                        title: string_of(&title),
                        detail: String::from_str("address"),
                        hits: Vec::new(),
                        score: i64::MAX,
                        action,
                    },
                );
                proof {
                    assert(pending@[0].value().hits =~= Seq::<int>::empty());
                }
            }
        },
        None => {},
    }
    proof {
        assert(cands_view(pending@) =~= goto_offer(query@, gv));
    }
    let mut entries = entries;
    let ghost all = entries@;
    let ghost mut done: int = 0;
    proof {
        assert(all.skip(0) =~= all);
    }
    while entries.len() > 0
        invariant
            0 <= done <= all.len(),
            entries@ == all.skip(done),
            forall|i: int| 0 <= i < all.len() ==> (#[trigger] all[i]).title@.len() < 0x100_0000_0000_0000,
            needle@ == query_needle(query@),
            needle_chars@ == query_needle(query@),
            only == scope_spec(query@).0,
            cands_view(pending@) + scored_from(query@, all, done) == pool,
            forall|i: int| 0 <= i < pending.len() ==> (#[trigger] pending@[i]).title@.len() < 0x100_0000_0000_0000,
        decreases entries.len(),
    {
        let ghost d0 = done;
        proof {
            assert(all.skip(d0)[0] == all[d0]);
        }
        let e = entries.remove(0);
        proof {
            assert(e == all[d0]);
            assert(entries@ =~= all.skip(d0 + 1));
        }
        let kind = e.kind;
        let wanted = match only {
            Some(k) => k == kind,
            None => true,
        } && !(kind == Kind::String && needle_chars.len() == 0);
        proof {
            assert(wanted == considered(query@, all[d0].kind));
        }
        let ghost before = cands_view(pending@);
        let ghost sf = scored_from(query@, all, d0);
        if wanted {
            match offer(e, needle.as_str()) {
                Some(c) => {
                    proof {
                        assert(sf == seq![c.value()] + scored_from(query@, all, d0 + 1));
                    }
                    pending.push(c);
                    proof {
                        assert(cands_view(pending@) =~= before.push(c.value()));
                        assert(cands_view(pending@) + scored_from(query@, all, d0 + 1) =~= before + sf);
                    }
                },
                None => {
                    proof {
                        assert(sf == scored_from(query@, all, d0 + 1));
                    }
                },
            }
        } else {
            proof {
                assert(sf == scored_from(query@, all, d0 + 1));
            }
        }
        proof {
            done = d0 + 1;
        }
    }
    proof {
        assert(scored_from(query@, all, done) =~= Seq::<CandV<A>>::empty());
        assert(cands_view(pending@) =~= pool);
    }
    rank(pending)
}

/// Sort candidates stably into candidate order and keep the first 300.
fn rank<A>(pool_v: Vec<Candidate<A>>) -> (r: Vec<Candidate<A>>)
    requires
        forall|i: int| 0 <= i < pool_v.len() ==> (#[trigger] pool_v@[i]).title@.len() < 0x100_0000_0000_0000,
    ensures
        exists|src: Seq<int>|
            #[trigger] is_ranking(
                cands_view(pool_v@),
                src,
                cands_view(r@),
                300,
            ),
{
    let ghost pool = cands_view(pool_v@);
    let ghost n = pool.len();
    let mut rest = pool_v;
    let mut out: Vec<Candidate<A>> = Vec::new();
    let ghost mut src: Seq<int> = Seq::empty();
    let ghost mut done: int = 0;
    proof {
        assert(cands_view(rest@) =~= pool.skip(0));
    }
    while rest.len() > 0
        invariant
            0 <= done <= n,
            n == pool.len(),
            cands_view(rest@) == pool.skip(done),
            forall|i: int| 0 <= i < n ==> (#[trigger] pool[i]).title.len() < 0x100_0000_0000_0000,
            out.len() == done,
            src.len() == done,
            forall|a: int| 0 <= a < done ==> 0 <= #[trigger] src[a] < done,
            forall|a: int, b: int| 0 <= a < b < done ==> ranked_before(pool, src[a], src[b]),
            forall|a: int| 0 <= a < done ==> #[trigger] out@[a].value() == pool[src[a]],
        decreases rest.len(),
    {
        let ghost old_rest = rest@;
        proof {
            assert(cands_view(old_rest).len() == old_rest.len());
            assert(cands_view(old_rest)[0] == old_rest[0].value());
            assert(pool.skip(done)[0] == pool[done]);
        }
        let c = rest.remove(0);
        proof {
            assert(c.value() == pool[done]);
            assert forall|k: int| 0 <= k < rest@.len() implies #[trigger] cands_view(rest@)[k]
                == pool.skip(done + 1)[k] by {
                assert(rest@[k] == old_rest[k + 1]);
                assert(cands_view(old_rest)[k + 1] == pool.skip(done)[k + 1]);
            }
            assert(cands_view(rest@) =~= pool.skip(done + 1));
        }
        // Past every entry that does not rank after the new one.
        let mut pos: usize = 0;
        while pos < out.len() && !cand_before(&c, &out[pos])
            invariant
                pos <= out.len(),
                out.len() == done,
                src.len() == done,
                n == pool.len(),
                done < n,
                forall|i: int| 0 <= i < n ==> (#[trigger] pool[i]).title.len() < 0x100_0000_0000_0000,
                c.value() == pool[done],
                forall|a: int| 0 <= a < done ==> 0 <= #[trigger] src[a] < done,
                forall|a: int| 0 <= a < done ==> #[trigger] out@[a].value() == pool[src[a]],
                forall|a: int| 0 <= a < pos ==> ranked_before(pool, #[trigger] src[a], done),
            decreases out.len() - pos,
        {
            proof {
                assert(out@[pos as int].value() == pool[src[pos as int]]);
                assert(src[pos as int] < done);
                lemma_cand_total(pool[done], pool[src[pos as int]]);
            }
            pos = pos + 1;
        }
        proof {
            if pos < out.len() {
                assert(out@[pos as int].value() == pool[src[pos as int]]);
                assert(ranked_before(pool, done, src[pos as int]));
                assert forall|a: int| pos <= a < done implies ranked_before(pool, done, #[trigger] src[a]) by {
                    if a > pos {
                        lemma_ranked_transitive(pool, done, src[pos as int], src[a]);
                    }
                }
            }
        }
        let ghost old_out = out@;
        out.insert(pos, c);
        proof {
            let old_src = src;
            src = src.insert(pos as int, done);
            assert forall|a: int| 0 <= a < done + 1 implies #[trigger] out@[a].value() == pool[src[a]] by {
                if a < pos {
                    assert(out@[a] == old_out[a]);
                } else if a > pos {
                    assert(out@[a] == old_out[a - 1]);
                    assert(src[a] == old_src[a - 1]);
                }
            }
            assert forall|a: int, b: int| 0 <= a < b < done + 1 implies ranked_before(
                pool,
                src[a],
                src[b],
            ) by {
                if a < pos && b > pos {
                    assert(src[b] == old_src[b - 1]);
                } else if a > pos {
                    assert(src[a] == old_src[a - 1]);
                    assert(src[b] == old_src[b - 1]);
                } else if a < pos && b == pos {
                    assert(src[a] == old_src[a]);
                } else if a == pos {
                    assert(src[b] == old_src[b - 1]);
                }
            }
            assert forall|a: int| 0 <= a < done + 1 implies 0 <= #[trigger] src[a] < done + 1 by {
                if a < pos {
                    assert(src[a] == old_src[a]);
                } else if a > pos {
                    assert(src[a] == old_src[a - 1]);
                }
            }
            done = done + 1;
        }
    }
    proof {
        assert(pool.skip(done).len() == 0);
    }
    out.truncate(300);
    proof {
        let rv = cands_view(out@);
        assert(is_ranking(pool, src, rv, 300));
    }
    out
}

/// The action of the palette row at `index`, the last row when it is past
/// the end; nothing when the list is empty.
pub fn pick<A>(hits: Vec<Candidate<A>>, index: usize) -> (r: Option<A>)
    ensures
        r == if hits@.len() == 0 {
            None::<A>
        } else {
            Some(hits@[if index < hits@.len() { index as int } else { hits@.len() - 1 }].action)
        },
{
    if hits.len() == 0 {
        return None;
    }
    let i = if index < hits.len() {
        index
    } else {
        hits.len() - 1
    };
    let mut hits = hits;
    let c = hits.swap_remove(i);
    Some(c.action)
}

/// The views the palette offers as commands, each with its hint: the counts
/// of referenced modules and of exports when a document is open, else
/// nothing.
pub open spec fn view_commands_spec(counts: Option<(nat, nat)>) -> Seq<(Seq<char>, Seq<char>, NavV)> {
    seq![
        ("Overview"@, "module summary"@, NavV::Overview),
        ("Imports"@, match counts {
            Some((m, _)) => decimal(m) + " modules"@,
            None => Seq::empty(),
        }, NavV::Imports),
        ("Exports"@, match counts {
            Some((_, e)) => decimal(e) + " entry points"@,
            None => Seq::empty(),
        }, NavV::Exports),
        ("Entry table"@, "every ordinal slot"@, NavV::Entries),
        ("Strings"@, "with code references"@, NavV::Strings),
        ("Call graph"@, "callers and callees"@, NavV::Graph),
        ("Cross-references"@, "what calls what"@, NavV::Xrefs(Seq::empty())),
    ]
}

/// Triples of a title, a hint and a view, as values.
pub open spec fn commands_view(v: Seq<(String, String, Nav)>) -> Seq<(Seq<char>, Seq<char>, NavV)> {
    v.map_values(|x: (String, String, Nav)| (x.0@, x.1@, x.2@))
}

fn counted(n: usize, what: &str) -> (r: String)
    ensures
        r@ == decimal(n as nat) + what@,
{
    let mut v = fmt_decimal(n as u64);
    extend_str(&mut v, what);
    string_of(&v)
}

/// The views the palette offers as commands. `counts` are the open
/// document's numbers of referenced modules and of exports.
pub fn view_commands(counts: Option<(usize, usize)>) -> (r: Vec<(String, String, Nav)>)
    ensures
        commands_view(r@) == view_commands_spec(
            match counts {
                Some((m, e)) => Some((m as nat, e as nat)),
                None => None,
            },
        ),
{
    let (imports, exports) = match counts {
        Some((m, e)) => (counted(m, " modules"), counted(e, " entry points")),
        None => (String::new(), String::new()),
    };
    let r = vec![
        (String::from_str("Overview"), String::from_str("module summary"), Nav::Overview),
        (String::from_str("Imports"), imports, Nav::Imports),
        (String::from_str("Exports"), exports, Nav::Exports),
        (String::from_str("Entry table"), String::from_str("every ordinal slot"), Nav::Entries),
        (String::from_str("Strings"), String::from_str("with code references"), Nav::Strings),
        (String::from_str("Call graph"), String::from_str("callers and callees"), Nav::Graph),
        (
            String::from_str("Cross-references"),
            String::from_str("what calls what"),
            Nav::Xrefs(String::new()),
        ),
    ];
    assert(commands_view(r@) =~= view_commands_spec(
        match counts {
            Some((m, e)) => Some((m as nat, e as nat)),
            None => None,
        },
    ));
    r
}

/// Each character of a result's title with whether the query matched it,
/// so that it is clear why the result is there: a character is marked when
/// its byte offset is among the hits.
pub fn marked_chars(text: &str, hits: &Vec<usize>) -> (r: Vec<(char, bool)>)
    ensures
        r.len() == text@.len(),
        forall|i: int|
            0 <= i < r.len() ==> #[trigger] r@[i] == (text@[i], hits@.contains(
                utf8_len(text@.take(i)) as usize,
            )),
{
    let total = str_len(text);
    let cs = chars_of(text);
    let mut out: Vec<(char, bool)> = Vec::new();
    let mut at: usize = 0;
    let mut i: usize = 0;
    while i < cs.len()
        invariant
            i <= cs.len(),
            cs@ == text@,
            total == utf8_len(text@),
            at == utf8_len(text@.take(i as int)),
            out.len() == i,
            forall|k: int|
                0 <= k < i ==> #[trigger] out@[k] == (text@[k], hits@.contains(
                    utf8_len(text@.take(k)) as usize,
                )),
        decreases cs.len() - i,
    {
        let mut hit = false;
        let mut j: usize = 0;
        while j < hits.len()
            invariant
                j <= hits.len(),
                hit == exists|a: int| 0 <= a < j && hits@[a] == at,
            decreases hits.len() - j,
        {
            if hits[j] == at {
                hit = true;
            }
            j = j + 1;
        }
        out.push((cs[i], hit));
        proof {
            assert(text@.take(i + 1).drop_last() =~= text@.take(i as int));
            lemma_utf8_prefix(text@, i + 1);
        }
        at = at + char_width(cs[i]);
        i = i + 1;
    }
    out
}

proof fn lemma_first_from_extend(s: Seq<char>, t: Seq<char>, p: char, i: int)
    requires
        0 <= i,
        first_from(s, p, i) is Some,
    ensures
        first_from(s + t, p, i) == first_from(s, p, i),
    decreases s.len() - i,
{
    if i < s.len() {
        assert((s + t)[i] == s[i]);
        if s[i] != p {
            lemma_first_from_extend(s, t, p, i + 1);
        }
    }
}

proof fn lemma_scan_fold_extend(hay: Seq<char>, low: Seq<char>, pat: Seq<char>, s: Seq<char>, ls: Seq<char>)
    requires
        low.len() == hay.len(),
        scan_fold(hay, low, pat).matched,
    ensures
        scan_fold(hay + s, low + ls, pat) == scan_fold(hay, low, pat),
        forall|k: int|
            0 <= k < scan_fold(hay, low, pat).hits.len() ==> 0 <= #[trigger] scan_fold(
                hay,
                low,
                pat,
            ).hits[k] < low.len(),
    decreases pat.len(),
{
    if pat.len() > 0 {
        let st = scan_fold(hay, low, pat.drop_last());
        lemma_scan_fold_extend(hay, low, pat.drop_last(), s, ls);
        let p = pat.last();
        lemma_scan_hi(hay, low, pat.drop_last());
        lemma_first_from(low, p, st.hi);
        lemma_first_from_extend(low, ls, p, st.hi);
        let f = first_from(low, p, st.hi).unwrap();
        let h2 = hay + s;
        if f > 0 {
            assert(h2[f - 1] == hay[f - 1]);
        }
        assert(h2[f] == hay[f]);
    }
}

proof fn lemma_scan_hi(hay: Seq<char>, low: Seq<char>, pat: Seq<char>)
    ensures
        scan_fold(hay, low, pat).hi >= 0,
    decreases pat.len(),
{
    if pat.len() > 0 {
        lemma_scan_hi(hay, low, pat.drop_last());
        lemma_first_from(low, pat.last(), scan_fold(hay, low, pat.drop_last()).hi);
    }
}

proof fn lemma_scan_safe_same_length(hay: Seq<char>, low: Seq<char>, pat: Seq<char>)
    requires
        low.len() == hay.len(),
    ensures
        scan_fold(hay, low, pat).safe,
    decreases pat.len(),
{
    if pat.len() > 0 {
        lemma_scan_safe_same_length(hay, low, pat.drop_last());
        lemma_scan_hi(hay, low, pat.drop_last());
        lemma_first_from(low, pat.last(), scan_fold(hay, low, pat.drop_last()).hi);
    }
}

/// Scoring an ASCII title never runs past its end, whatever the query:
/// lower-casing keeps its length.
pub proof fn lemma_ascii_score_safe(text: Seq<char>, needle: Seq<char>)
    requires
        is_ascii_text(text),
    ensures
        score_safe(text, needle),
{
    lemma_scan_safe_same_length(text, lower(text), lowered(needle));
}

/// Appending text to a title never raises its score against a query, and
/// the matched positions stay where they were, so of two titles that match
/// alike the shorter ranks first. Stated for ASCII titles, which `score`
/// takes whatever the query (`lemma_ascii_score_safe`).
pub proof fn lemma_longer_title_never_scores_higher(t: Seq<char>, s: Seq<char>, n: Seq<char>)
    requires
        is_ascii_text(t),
        is_ascii_text(s),
        s.len() > 0,
        score_spec(t, n) is Some,
    ensures
        score_safe(t, n),
        score_safe(t + s, n),
        match (score_spec(t + s, n), score_spec(t, n)) {
            (Some((w, longer)), Some((v, shorter))) => w <= v && longer == shorter,
            _ => false,
        },
{
    assert(is_ascii_text(t + s)) by {
        assert forall|i: int| 0 <= i < (t + s).len() implies #[trigger] (t + s)[i] <= '\u{7f}' by {
            if i < t.len() {
                assert((t + s)[i] == t[i]);
            } else {
                assert((t + s)[i] == s[i - t.len()]);
            }
        }
    }
    lemma_ascii_score_safe(t, n);
    lemma_ascii_score_safe(t + s, n);
    if n.len() > 0 {
        let (low, ls, pat) = (lower(t), lower(s), lowered(n));
        assert(lower(t + s) =~= low + ls);
        lemma_scan_fold_extend(t, low, pat, s, ls);
        let st = scan_fold(t, low, pat);
        assert forall|k: int| 0 <= k < st.hits.len() implies (low + ls).take(#[trigger] st.hits[k]) == low.take(
            st.hits[k],
        ) by {
            assert((low + ls).take(st.hits[k]) =~= low.take(st.hits[k]));
        }
        assert(byte_positions(low + ls, st.hits) =~= byte_positions(low, st.hits));
        assert(low + ls != pat) by {
            assert((low + ls).len() > pat.len());
        }
    }
}

proof fn lemma_hex_len(n: nat)
    ensures
        hex(n).len() <= n + 1,
    decreases n,
{
    if n >= 16 {
        lemma_hex_len(n / 16);
    }
}

proof fn lemma_decimal_len(n: nat)
    ensures
        decimal(n).len() <= n + 1,
    decreases n,
{
    if n >= 10 {
        lemma_decimal_len(n / 10);
    }
}

/// The address offer for `query` in a session whose browser shows `s`: the
/// address the needle resolves to, shown as the inspector shows addresses,
/// going there when chosen.
pub open spec fn goto_for(
    query: Seq<char>,
    s: crate::nav::SessionV,
    fs: Option<Seq<(Seq<char>, Seq<char>, Addr)>>,
) -> Option<(Seq<char>, Action)> {
    match resolve_spec(query_needle(query), shown_nav(s), fs) {
        Some(a) => Some((address_text(a), Action::Goto(a))),
        None => None,
    }
}

/// The palette for a session: the address the query resolves to, when it
/// reads as one, first of all, then each entry that its kind and title let
/// through, best first, at most 300. `funcs` are the open document's
/// functions (label, name, address), none when no document is open.
pub fn session_candidates(
    session: &Session,
    query: &str,
    funcs: Option<&Vec<(String, String, Addr)>>,
    entries: Vec<Entry<Action>>,
) -> (r: Vec<Candidate<Action>>)
    requires
        forall|i: int| 0 <= i < entries.len() ==> (#[trigger] entries@[i]).title@.len() < 0x100_0000_0000_0000,
    ensures
        ({
            let pool = goto_offer(query@, goto_for(query@, session@, fns_opt(funcs))) + scored_from(
                query@,
                entries@,
                0,
            );
            exists|src: Seq<int>| #[trigger] is_ranking(pool, src, cands_view(r@), 300)
        }),
{
    let (_, rest) = scope(query);
    let needle = string_of(&trim_chars(&rest));
    let goto = match session.resolve(needle.as_str(), funcs) {
        Some(a) => {
            let text = address_label(a);
            proof {
                reveal_strlit("seg");
                reveal_strlit(":");
                lemma_decimal_len(a.segment as nat);
                lemma_hex_len(a.offset as nat);
                assert(decimal_padded(a.segment as nat, 2).len() <= a.segment + 2);
                assert(hex_padded(a.offset as nat, 4).len() <= a.offset + 4);
            }
            Some((text, Action::Goto(a)))
        },
        None => None,
    };
    proof {
        assert(goto_view(goto) == goto_for(query@, session@, fns_opt(funcs)));
    }
    candidates(query, goto, entries)
}

/// A leading sigil scopes the query to its kind and the rest of the query
/// is the search: `>` commands, `@` functions, `#` strings, `$` resources.
/// Any other query is searched whole, across every kind.
pub proof fn lemma_sigils_scope(q: Seq<char>)
    ensures
        q.len() > 0 && q[0] == '>' ==> scope_spec(q) == (Some(Kind::Command), q.subrange(1, q.len() as int)),
        q.len() > 0 && q[0] == '@' ==> scope_spec(q) == (Some(Kind::Function), q.subrange(1, q.len() as int)),
        q.len() > 0 && q[0] == '#' ==> scope_spec(q) == (Some(Kind::String), q.subrange(1, q.len() as int)),
        q.len() > 0 && q[0] == '$' ==> scope_spec(q) == (Some(Kind::Resource), q.subrange(1, q.len() as int)),
        q.len() == 0 || (q[0] != '>' && q[0] != '@' && q[0] != '#' && q[0] != '$') ==> scope_spec(q) == (
            None::<Kind>,
            q,
        ),
        scope_spec(q).0 is Some ==> seq![q[0]] + scope_spec(q).1 == q,
{
    if q.len() > 0 {
        assert(q.drop_first() =~= q.subrange(1, q.len() as int));
        assert(seq![q[0]] + q.drop_first() =~= q);
    }
}

/// With `$` in front, only resources are considered, and every kind of
/// resource entry is.
pub proof fn lemma_dollar_keeps_resources(query: Seq<char>, k: Kind)
    requires
        query.len() > 0,
        query[0] == '$',
    ensures
        considered(query, k) ==> k == Kind::Resource,
        considered(query, Kind::Resource),
{
}

} // verus!
