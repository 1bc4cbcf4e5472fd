//! Syntax classes for decoded resources.
//!
//! Menus, dialogs, version blocks and font headers all decode to a small
//! resource-script-like language. A line splits into runs of white space,
//! quoted strings, words and single punctuation characters, with a comment
//! from the first `;` to the end; each word is classed as a keyword, a
//! control class, a number, a named constant or plain text.

use vstd::prelude::*;
use crate::text::{chars_of, chars_eq, is_whitespace, is_ws, string_of};

verus! {

/// What a word reads as.
#[derive(Debug, Clone, Copy, PartialEq, Eq, Structural)]
pub enum WordClass {
    /// A word that begins a statement.
    Keyword,
    /// A predefined dialog control class.
    Class,
    /// A number, in any shape the decoders write.
    Number,
    /// A named constant in SHOUTY_SNAKE case.
    Constant,
    Plain,
}

/// What a piece of a line is.
#[derive(Debug, Clone, Copy, PartialEq, Eq, Structural)]
pub enum Tok {
    Space,
    Str,
    Word(WordClass),
    Punct,
    Comment,
}

/// Words that begin a statement in the text the decoders produce.
pub open spec fn keywords() -> Seq<Seq<char>> {
    seq![
        "MENU"@, "POPUP"@, "MENUITEM"@, "SEPARATOR"@, "DIALOG"@, "CAPTION"@, "FONT"@, "CLASS"@,
        "STYLE"@, "FILEVERSION"@, "PRODUCTVERSION"@, "FILEFLAGS"@, "FILEOS"@, "FACE"@, "DEVICE"@,
        "SIZE"@, "PITCH"@, "CHARSET"@, "RESOLUTION"@, "GLYPHS"@, "COPYRIGHT"@, "ACCELERATORS"@,
        "STRINGTABLE"@,
    ]
}

/// Predefined dialog control classes, which read as types rather than values.
pub open spec fn classes() -> Seq<Seq<char>> {
    seq!["BUTTON"@, "EDIT"@, "STATIC"@, "LISTBOX"@, "SCROLLBAR"@, "COMBOBOX"@]
}

fn keyword_list() -> (r: Vec<&'static str>)
    ensures
        r@.map_values(|s: &str| s@) == keywords(),
{
    let r = vec![
        "MENU", "POPUP", "MENUITEM", "SEPARATOR", "DIALOG", "CAPTION", "FONT", "CLASS", "STYLE",
        "FILEVERSION", "PRODUCTVERSION", "FILEFLAGS", "FILEOS", "FACE", "DEVICE", "SIZE", "PITCH",
        "CHARSET", "RESOLUTION", "GLYPHS", "COPYRIGHT", "ACCELERATORS", "STRINGTABLE",
    ];
    assert(r@.map_values(|s: &str| s@) =~= keywords());
    r
}

fn class_list() -> (r: Vec<&'static str>)
    ensures
        r@.map_values(|s: &str| s@) == classes(),
{
    let r = vec!["BUTTON", "EDIT", "STATIC", "LISTBOX", "SCROLLBAR", "COMBOBOX"];
    assert(r@.map_values(|s: &str| s@) =~= classes());
    r
}

fn listed(w: &[char], list: &Vec<&'static str>) -> (r: bool)
    ensures
        r == list@.map_values(|s: &str| s@).contains(w@),
{
    let ghost l = list@.map_values(|s: &str| s@);
    let mut i: usize = 0;
    while i < list.len()
        invariant
            i <= list.len(),
            l == list@.map_values(|s: &str| s@),
            forall|k: int| 0 <= k < i ==> l[k] != w@,
        decreases list.len() - i,
    {
        let c = chars_of(list[i]);
        if chars_eq(&c, w) {
            assert(l[i as int] == w@);
            return true;
        }
        i = i + 1;
    }
    false
}

pub open spec fn is_upper(c: char) -> bool {
    'A' <= c && c <= 'Z'
}

pub open spec fn is_digit(c: char) -> bool {
    '0' <= c && c <= '9'
}

pub open spec fn is_hex_digit(c: char) -> bool {
    is_digit(c) || ('a' <= c && c <= 'f') || ('A' <= c && c <= 'F')
}

/// A character that belongs to a word.
pub open spec fn is_word_char(c: char) -> bool {
    is_digit(c) || is_upper(c) || ('a' <= c && c <= 'z') || c == '_' || c == '@' || c == '#' || c
        == '.'
}

/// SHOUTY_SNAKE: longer than one character, only capitals, digits and
/// underscores, and at least one capital.
pub open spec fn shouty(w: Seq<char>) -> bool {
    &&& w.len() > 1
    &&& forall|i: int| 0 <= i < w.len() ==> is_upper(#[trigger] w[i]) || is_digit(w[i]) || w[i] == '_'
    &&& exists|i: int| 0 <= i < w.len() && is_upper(#[trigger] w[i])
}

/// A number in any of the shapes the decoders emit: a `0x` prefix, all
/// decimal digits, or at least four hexadecimal digits.
pub open spec fn numeric(w: Seq<char>) -> bool {
    ||| (w.len() >= 2 && w[0] == '0' && (w[1] == 'x' || w[1] == 'X'))
    ||| (forall|i: int| 0 <= i < w.len() ==> is_digit(#[trigger] w[i]))
    ||| (w.len() >= 4 && forall|i: int| 0 <= i < w.len() ==> is_hex_digit(#[trigger] w[i]))
}

/// The class of a word; `first` says it is the first word of its line,
/// where a shouty word begins a statement.
pub open spec fn word_class(w: Seq<char>, first: bool) -> WordClass {
    if keywords().contains(w) || (first && shouty(w)) {
        WordClass::Keyword
    } else if classes().contains(w) {
        WordClass::Class
    } else if numeric(w) {
        WordClass::Number
    } else if shouty(w) && (w.contains('_') || w.len() <= 4) {
        WordClass::Constant
    } else {
        WordClass::Plain
    }
}

/// Whether a word is SHOUTY_SNAKE.
pub fn is_shouty(w: &[char]) -> (r: bool)
    ensures
        r == shouty(w@),
{
    if w.len() <= 1 {
        return false;
    }
    let mut any_upper = false;
    let mut i: usize = 0;
    while i < w.len()
        invariant
            i <= w.len(),
            forall|k: int| 0 <= k < i ==> is_upper(#[trigger] w@[k]) || is_digit(w@[k]) || w@[k] == '_',
            any_upper == exists|k: int| 0 <= k < i && is_upper(#[trigger] w@[k]),
        decreases w.len() - i,
    {
        let c = w[i];
        if !(('A' <= c && c <= 'Z') || ('0' <= c && c <= '9') || c == '_') {
            return false;
        }
        if 'A' <= c && c <= 'Z' {
            any_upper = true;
        }
        i = i + 1;
    }
    any_upper
}

fn is_numeric(w: &[char]) -> (r: bool)
    ensures
        r == numeric(w@),
{
    if w.len() >= 2 && w[0] == '0' && (w[1] == 'x' || w[1] == 'X') {
        return true;
    }
    let mut digits = true;
    let mut hex = true;
    let mut i: usize = 0;
    while i < w.len()
        invariant
            i <= w.len(),
            digits == forall|k: int| 0 <= k < i ==> is_digit(#[trigger] w@[k]),
            hex == forall|k: int| 0 <= k < i ==> is_hex_digit(#[trigger] w@[k]),
        decreases w.len() - i,
    {
        let c = w[i];
        if !('0' <= c && c <= '9') {
            digits = false;
        }
        if !(('0' <= c && c <= '9') || ('a' <= c && c <= 'f') || ('A' <= c && c <= 'F')) {
            hex = false;
        }
        i = i + 1;
    }
    digits || (w.len() >= 4 && hex)
}

fn has_char(w: &[char], c: char) -> (r: bool)
    ensures
        r == w@.contains(c),
{
    let mut i: usize = 0;
    while i < w.len()
        invariant
            i <= w.len(),
            forall|k: int| 0 <= k < i ==> w@[k] != c,
        decreases w.len() - i,
    {
        if w[i] == c {
            return true;
        }
        i = i + 1;
    }
    false
}

/// The class of a word.
pub fn classify_word(w: &[char], first: bool) -> (r: WordClass)
    ensures
        r == word_class(w@, first),
{
    let shout = is_shouty(w);
    if listed(w, &keyword_list()) || (first && shout) {
        WordClass::Keyword
    } else if listed(w, &class_list()) {
        WordClass::Class
    } else if is_numeric(w) {
        WordClass::Number
    } else if shout && (has_char(w, '_') || w.len() <= 4) {
        WordClass::Constant
    } else {
        WordClass::Plain
    }
}

/// The end of the run from `i` of characters that satisfy `p`.
pub open spec fn run_end(cs: Seq<char>, i: int, p: spec_fn(char) -> bool) -> int
    decreases cs.len() - i,
{
    if 0 <= i < cs.len() && p(cs[i]) {
        run_end(cs, i + 1, p)
    } else {
        i
    }
}

/// Facts about where a run ends.
pub proof fn lemma_run_end(cs: Seq<char>, i: int, p: spec_fn(char) -> bool)
    requires
        0 <= i <= cs.len(),
    ensures
        i <= run_end(cs, i, p) <= cs.len(),
        i < cs.len() && p(cs[i]) ==> run_end(cs, i, p) > i,
        forall|k: int| i <= k < run_end(cs, i, p) ==> p(#[trigger] cs[k]),
        run_end(cs, i, p) < cs.len() ==> !p(cs[run_end(cs, i, p)]),
    decreases cs.len() - i,
{
    if i < cs.len() && p(cs[i]) {
        lemma_run_end(cs, i + 1, p);
    }
}

/// White space, as a predicate.
pub open spec fn space_p() -> spec_fn(char) -> bool {
    |c: char| is_ws(c)
}

/// Anything but a double quote, as a predicate.
pub open spec fn unquote_p() -> spec_fn(char) -> bool {
    |c: char| c != '"'
}

/// Word characters, as a predicate.
pub open spec fn word_p() -> spec_fn(char) -> bool {
    |c: char| is_word_char(c)
}

/// Anything but a semicolon, as a predicate.
pub open spec fn code_p() -> spec_fn(char) -> bool {
    |c: char| c != ';'
}

/// Where a quoted string that opens at `i` ends: just past its closing
/// quote, or at the end of the line when it is not closed.
pub open spec fn quote_end(cs: Seq<char>, i: int) -> int {
    let e = run_end(cs, i + 1, unquote_p());
    if e + 1 < cs.len() {
        e + 1
    } else {
        cs.len() as int
    }
}

/// The pieces of the line `cs` from index `i` on; `first` says no word
/// or string has come before.
pub open spec fn tokens_from(cs: Seq<char>, i: int, first: bool) -> Seq<(Seq<char>, Tok)>
    decreases cs.len() - i,
{
    if i < 0 || i >= cs.len() {
        Seq::empty()
    } else if is_ws(cs[i]) {
        let j = run_end(cs, i, space_p());
        proof {
            lemma_run_end(cs, i, space_p());
        }
        seq![(cs.subrange(i, j), Tok::Space)] + tokens_from(cs, j, first)
    } else if cs[i] == '"' {
        let j = quote_end(cs, i);
        proof {
            lemma_run_end(cs, i + 1, unquote_p());
        }
        seq![(cs.subrange(i, j), Tok::Str)] + tokens_from(cs, j, false)
    } else if is_word_char(cs[i]) {
        let j = run_end(cs, i, word_p());
        proof {
            lemma_run_end(cs, i, word_p());
        }
        let w = cs.subrange(i, j);
        seq![(w, Tok::Word(word_class(w, first)))] + tokens_from(cs, j, false)
    } else {
        seq![(seq![cs[i]], Tok::Punct)] + tokens_from(cs, i + 1, first)
    }
}

/// The first `;` of a line, if any.
pub open spec fn comment_at(cs: Seq<char>) -> int {
    run_end(cs, 0, code_p())
}

/// The pieces of a line: a comment runs from the first `;` to the end and
/// outranks everything in it.
pub open spec fn line_tokens(cs: Seq<char>) -> Seq<(Seq<char>, Tok)> {
    let p = comment_at(cs);
    if p < cs.len() {
        tokens_from(cs.subrange(0, p), 0, true) + seq![(cs.subrange(p, cs.len() as int), Tok::Comment)]
    } else {
        tokens_from(cs, 0, true)
    }
}

/// The text of the pieces, run together.
pub open spec fn joined(t: Seq<(Seq<char>, Tok)>) -> Seq<char>
    decreases t.len(),
{
    if t.len() == 0 {
        Seq::empty()
    } else {
        t[0].0 + joined(t.drop_first())
    }
}

/// Pieces as values.
pub open spec fn toks_view(v: Seq<(String, Tok)>) -> Seq<(Seq<char>, Tok)> {
    v.map_values(|x: (String, Tok)| (x.0@, x.1))
}

proof fn lemma_joined_concat(a: Seq<(Seq<char>, Tok)>, b: Seq<(Seq<char>, Tok)>)
    ensures
        joined(a + b) == joined(a) + joined(b),
    decreases a.len(),
{
    if a.len() == 0 {
        assert(a + b =~= b);
        assert(joined(a) =~= Seq::<char>::empty());
        assert(joined(b) =~= joined(a) + joined(b));
    } else {
        assert((a + b).drop_first() =~= a.drop_first() + b);
        lemma_joined_concat(a.drop_first(), b);
        assert(joined(a + b) =~= joined(a) + joined(b));
    }
}

proof fn lemma_tokens_cover(cs: Seq<char>, i: int, first: bool)
    requires
        0 <= i <= cs.len(),
    ensures
        joined(tokens_from(cs, i, first)) == cs.subrange(i, cs.len() as int),
    decreases cs.len() - i,
{
    let t = tokens_from(cs, i, first);
    if i >= cs.len() {
        assert(cs.subrange(i, cs.len() as int) =~= Seq::<char>::empty());
        assert(joined(t) =~= Seq::<char>::empty());
    } else {
        let (j, f) = if is_ws(cs[i]) {
            lemma_run_end(cs, i, space_p());
            (run_end(cs, i, space_p()), first)
        } else if cs[i] == '"' {
            lemma_run_end(cs, i + 1, unquote_p());
            (quote_end(cs, i), false)
        } else if is_word_char(cs[i]) {
            lemma_run_end(cs, i, word_p());
            (run_end(cs, i, word_p()), false)
        } else {
            (i + 1, first)
        };
        assert(i < j <= cs.len());
        assert(t[0].0 == cs.subrange(i, j)) by {
            if !is_ws(cs[i]) && cs[i] != '"' && !is_word_char(cs[i]) {
                assert(cs.subrange(i, j) =~= seq![cs[i]]);
            }
        }
        assert(t.drop_first() =~= tokens_from(cs, j, f));
        lemma_tokens_cover(cs, j, f);
        assert(cs.subrange(i, j) + cs.subrange(j, cs.len() as int) =~= cs.subrange(i, cs.len() as int));
    }
}

/// Highlighting keeps the text: the pieces of a line, run together, are
/// the line.
pub proof fn lemma_tokens_keep_text(cs: Seq<char>)
    ensures
        joined(line_tokens(cs)) == cs,
{
    let p = comment_at(cs);
    lemma_run_end(cs, 0, code_p());
    if p < cs.len() {
        let head = cs.subrange(0, p);
        lemma_tokens_cover(head, 0, true);
        assert(head.subrange(0, head.len() as int) =~= head);
        let tail = seq![(cs.subrange(p, cs.len() as int), Tok::Comment)];
        lemma_joined_concat(tokens_from(head, 0, true), tail);
        assert(tail.drop_first() =~= Seq::<(Seq<char>, Tok)>::empty());
        assert(joined(Seq::<(Seq<char>, Tok)>::empty()) =~= Seq::<char>::empty());
        assert(joined(tail) =~= cs.subrange(p, cs.len() as int));
        assert(head + cs.subrange(p, cs.len() as int) =~= cs);
    } else {
        lemma_tokens_cover(cs, 0, true);
        assert(cs.subrange(0, cs.len() as int) =~= cs);
    }
}

fn slice(cs: &[char], lo: usize, hi: usize) -> (r: Vec<char>)
    requires
        lo <= hi <= cs.len(),
    ensures
        r@ == cs@.subrange(lo as int, hi as int),
{
    let mut out: Vec<char> = Vec::new();
    let mut k: usize = lo;
    while k < hi
        invariant
            lo <= k <= hi <= cs.len(),
            out@ == cs@.subrange(lo as int, k as int),
        decreases hi - k,
    {
        out.push(cs[k]);
        k = k + 1;
    }
    out
}

/// The pieces of `cs` from index 0, with a class each.
fn tokenize(cs: &[char]) -> (r: Vec<(String, Tok)>)
    ensures
        toks_view(r@) == tokens_from(cs@, 0, true),
{
    let ghost all = tokens_from(cs@, 0, true);
    let mut out: Vec<(String, Tok)> = Vec::new();
    let mut i: usize = 0;
    let mut first = true;
    assert(toks_view(out@) =~= Seq::<(Seq<char>, Tok)>::empty());
    assert(all =~= toks_view(out@) + tokens_from(cs@, 0, true));
    while i < cs.len()
        invariant
            i <= cs.len(),
            all == tokens_from(cs@, 0, true),
            toks_view(out@) + tokens_from(cs@, i as int, first) == all,
        decreases cs.len() - i,
    {
        let ghost before = toks_view(out@);
        let ghost rest = tokens_from(cs@, i as int, first);
        let c = cs[i];
        let start = i;
        let piece: (String, Tok);
        if is_whitespace(c) {
            proof {
                lemma_run_end(cs@, i as int, space_p());
            }
            while i < cs.len() && is_whitespace(cs[i])
                invariant
                    start <= i <= cs.len(),
                    run_end(cs@, start as int, space_p()) == run_end(cs@, i as int, space_p()),
                decreases cs.len() - i,
            {
                i = i + 1;
            }
            piece = (string_of(&slice(cs, start, i)), Tok::Space);
            proof {
                assert(run_end(cs@, i as int, space_p()) == i as int);
                assert(rest == seq![(piece.0@, piece.1)] + tokens_from(cs@, i as int, first));
            }
        } else if c == '"' {
            proof {
                lemma_run_end(cs@, i + 1, unquote_p());
            }
            i = i + 1;
            while i < cs.len() && cs[i] != '"'
                invariant
                    start < i <= cs.len(),
                    run_end(cs@, start + 1, unquote_p()) == run_end(cs@, i as int, unquote_p()),
                decreases cs.len() - i,
            {
                i = i + 1;
            }
            i = if i < cs.len() - 1 {
                i + 1
            } else {
                cs.len()
            };
            proof {
                assert(quote_end(cs@, start as int) == i as int);
            }
            first = false;
            piece = (string_of(&slice(cs, start, i)), Tok::Str);
            proof {
                assert(rest == seq![(piece.0@, piece.1)] + tokens_from(cs@, i as int, first));
            }
        } else if ('0' <= c && c <= '9') || ('A' <= c && c <= 'Z') || ('a' <= c && c <= 'z') || c
            == '_' || c == '@' || c == '#' || c == '.' {
            proof {
                lemma_run_end(cs@, i as int, word_p());
            }
            while i < cs.len() && (('0' <= cs[i] && cs[i] <= '9') || ('A' <= cs[i] && cs[i] <= 'Z')
                || ('a' <= cs[i] && cs[i] <= 'z') || cs[i] == '_' || cs[i] == '@' || cs[i] == '#'
                || cs[i] == '.')
                invariant
                    start <= i <= cs.len(),
                    run_end(cs@, start as int, word_p()) == run_end(cs@, i as int, word_p()),
                decreases cs.len() - i,
            {
                i = i + 1;
            }
            let w = slice(cs, start, i);
            let class = classify_word(&w, first);
            proof {
                assert(run_end(cs@, i as int, word_p()) == i as int);
                assert(is_word_char(cs@[start as int]));
            }
            first = false;
            piece = (string_of(&w), Tok::Word(class));
            proof {
                assert(rest == seq![(piece.0@, piece.1)] + tokens_from(cs@, i as int, first));
            }
        } else {
            i = i + 1;
            piece = (string_of(&slice(cs, start, i)), Tok::Punct);
            proof {
                assert(!is_word_char(cs@[start as int]));
                assert(cs@.subrange(start as int, i as int) =~= seq![c]);
                assert(rest == seq![(piece.0@, piece.1)] + tokens_from(cs@, i as int, first));
            }
        }
        out.push(piece);
        proof {
            assert(toks_view(out@) =~= before.push((piece.0@, piece.1)));
            assert(toks_view(out@) + tokens_from(cs@, i as int, first) =~= before + rest);
        }
    }
    assert(tokens_from(cs@, i as int, first) =~= Seq::<(Seq<char>, Tok)>::empty());
    assert(toks_view(out@) =~= all);
    out
}

/// The pieces of one line of decoded resource text, each with its class.
pub fn highlight_line(line: &str) -> (r: Vec<(String, Tok)>)
    ensures
        toks_view(r@) == line_tokens(line@),
{
    let cs = chars_of(line);
    let mut p: usize = 0;
    while p < cs.len() && cs[p] != ';'
        invariant
            p <= cs.len(),
            comment_at(cs@) == run_end(cs@, p as int, code_p()),
        decreases cs.len() - p,
    {
        p = p + 1;
    }
    if p < cs.len() {
        let head = slice(&cs, 0, p);
        let mut out = tokenize(&head);
        let comment = slice(&cs, p, cs.len());
        let ghost before = toks_view(out@);
        out.push((string_of(&comment), Tok::Comment));
        assert(toks_view(out@) =~= before + seq![(cs@.subrange(p as int, cs@.len() as int), Tok::Comment)]);
        out
    } else {
        tokenize(&cs)
    }
}

/// The characters `from..to` of a line, the end cut at the line's end.
pub fn line_slice(chars: &[char], from: usize, to: usize) -> (r: String)
    requires
        from <= to,
        from <= chars.len(),
    ensures
        r@ == chars@.subrange(from as int, if to < chars.len() {
            to as int
        } else {
            chars.len() as int
        }),
{
    let end = if to < chars.len() {
        to
    } else {
        chars.len()
    };
    string_of(&slice(chars, from, end))
}

/// Every keyword and class name begins with a capital letter.
proof fn lemma_listed_words_start_with_a_capital()
    ensures
        forall|k: int| 0 <= k < keywords().len() ==> 'A' <= (#[trigger] keywords()[k])[0] <= 'Z',
        forall|k: int| 0 <= k < classes().len() ==> 'A' <= (#[trigger] classes()[k])[0] <= 'Z',
{
    reveal_strlit("MENU");
    reveal_strlit("POPUP");
    reveal_strlit("MENUITEM");
    reveal_strlit("SEPARATOR");
    reveal_strlit("DIALOG");
    reveal_strlit("CAPTION");
    reveal_strlit("FONT");
    reveal_strlit("CLASS");
    reveal_strlit("STYLE");
    reveal_strlit("FILEVERSION");
    reveal_strlit("PRODUCTVERSION");
    reveal_strlit("FILEFLAGS");
    reveal_strlit("FILEOS");
    reveal_strlit("FACE");
    reveal_strlit("DEVICE");
    reveal_strlit("SIZE");
    reveal_strlit("PITCH");
    reveal_strlit("CHARSET");
    reveal_strlit("RESOLUTION");
    reveal_strlit("GLYPHS");
    reveal_strlit("COPYRIGHT");
    reveal_strlit("ACCELERATORS");
    reveal_strlit("STRINGTABLE");
    reveal_strlit("BUTTON");
    reveal_strlit("EDIT");
    reveal_strlit("STATIC");
    reveal_strlit("LISTBOX");
    reveal_strlit("SCROLLBAR");
    reveal_strlit("COMBOBOX");
}

/// A word made only of decimal digits is a number, whatever its length and
/// wherever it stands: `8` in `FONT 8, "MS Sans Serif"` as much as `186`.
pub proof fn lemma_digit_words_are_numbers(w: Seq<char>, first: bool)
    requires
        w.len() > 0,
        forall|i: int| 0 <= i < w.len() ==> '0' <= #[trigger] w[i] <= '9',
    ensures
        word_class(w, first) == WordClass::Number,
{
    lemma_listed_words_start_with_a_capital();
    if keywords().contains(w) {
        let k = choose|k: int| 0 <= k < keywords().len() && keywords()[k] == w;
        assert('A' <= keywords()[k][0] <= 'Z');
    }
    if classes().contains(w) {
        let k = choose|k: int| 0 <= k < classes().len() && classes()[k] == w;
        assert('A' <= classes()[k][0] <= 'Z');
    }
    if shouty(w) {
        let i = choose|i: int| 0 <= i < w.len() && is_upper(#[trigger] w[i]);
        assert('0' <= w[i] <= '9');
    }
    assert forall|i: int| 0 <= i < w.len() implies is_digit(#[trigger] w[i]) by {
        assert('0' <= w[i] <= '9');
    }
}

} // verus!
