//! Short labels for the interface: byte counts, elided paths and titles,
//! and operands without their size prefixes.

use vstd::prelude::*;
use crate::text::{
    chars_of, decimal, digit_char, extend, extend_str, fmt_decimal, is_ws, lit, starts_with,
    starts_with_chars, string_of, trim, trim_chars,
};

verus! {

/// `n / d` rounded to the nearest integer, an exact half to the even
/// neighbour: how `{:.0}` rounds a value that a float holds exactly.
pub open spec fn round_div(n: nat, d: nat) -> nat
    recommends
        d > 0,
{
    let q = n / d;
    let r = n % d;
    if 2 * r > d || (2 * r == d && q % 2 == 1) {
        q + 1
    } else {
        q
    }
}

/// `n / d` with one decimal, as `{:.1}` prints it.
pub open spec fn one_decimal(n: nat, d: nat) -> Seq<char> {
    let t = round_div(10 * n, d);
    decimal(t / 10) + "."@ + seq![digit_char(t % 10)]
}

/// A byte count in the shortest form that stays honest: bytes as they are,
/// then kibibytes and mebibytes with one decimal.
pub open spec fn human_text(n: nat) -> Seq<char> {
    if n >= 1024 * 1024 {
        one_decimal(n, 1024 * 1024) + "M"@
    } else if n >= 1024 {
        one_decimal(n, 1024) + "K"@
    } else {
        decimal(n)
    }
}

/// The same count as the import wizard words it: `1.5 MB`, `12 KB`, `300 B`.
pub open spec fn human_units(n: nat) -> Seq<char> {
    if n >= 1024 * 1024 {
        one_decimal(n, 1024 * 1024) + " MB"@
    } else if n >= 1024 {
        decimal(round_div(n, 1024)) + " KB"@
    } else {
        decimal(n) + " B"@
    }
}

/// The largest count whose conversion to a float is exact, which the
/// rounding above assumes.
pub open spec fn float_exact(n: nat) -> bool {
    n < 0x20_0000_0000_0000
}

fn rounded(n: u64, d: u64) -> (r: u64)
    requires
        1 < d <= 0x10_0000,
    ensures
        r == round_div(n as nat, d as nat),
        r <= n / d + 1,
{
    let q = n / d;
    let rem = n % d;
    assert(q <= n / 2) by (nonlinear_arith)
        requires
            q == n / d,
            d >= 2,
    ;
    if 2 * rem > d || (2 * rem == d && q % 2 == 1) {
        q + 1
    } else {
        q
    }
}

fn with_one_decimal(n: u64, d: u64) -> (r: Vec<char>)
    requires
        1 < d <= 0x10_0000,
        n < 0x20_0000_0000_0000,
    ensures
        r@ == one_decimal(n as nat, d as nat),
{
    let t = rounded(10 * n, d);
    let mut v = fmt_decimal(t / 10);
    let c = (((t % 10) + 48) as u8) as char;
    v.push(c);
    let ghost head = decimal((t / 10) as nat);
    assert(v@ == head.push(digit_char((t % 10) as nat)));
    let mut out = fmt_decimal(t / 10);
    extend_str(&mut out, ".");
    out.push(c);
    assert(out@ =~= head + "."@ + seq![digit_char((t % 10) as nat)]);
    out
}

/// A byte count in the shortest form that stays honest.
pub fn human(n: u64) -> (r: String)
    requires
        float_exact(n as nat),
    ensures
        r@ == human_text(n as nat),
{
    let v = if n >= 1024 * 1024 {
        let mut v = with_one_decimal(n, 1024 * 1024);
        extend_str(&mut v, "M");
        v
    } else if n >= 1024 {
        let mut v = with_one_decimal(n, 1024);
        extend_str(&mut v, "K");
        v
    } else {
        fmt_decimal(n)
    };
    string_of(&v)
}

/// A byte count with its unit spelled out, as the import wizard shows it.
pub fn human_size(n: u64) -> (r: String)
    requires
        float_exact(n as nat),
    ensures
        r@ == human_units(n as nat),
{
    let mut v = if n >= 1024 * 1024 {
        let mut v = with_one_decimal(n, 1024 * 1024);
        extend_str(&mut v, " MB");
        v
    } else if n >= 1024 {
        let mut v = fmt_decimal(rounded(n, 1024));
        extend_str(&mut v, " KB");
        v
    } else {
        let mut v = fmt_decimal(n);
        extend_str(&mut v, " B");
        v
    };
    string_of(&v)
}

/// The horizontal ellipsis that marks elided text.
pub open spec fn ellipsis() -> char {
    '\u{2026}'
}

/// The end of a long string, elided at the front: at most `max` characters,
/// an ellipsis and the last `max - 1` when it has to be cut.
pub open spec fn tail_text(s: Seq<char>, max: nat) -> Seq<char> {
    if s.len() <= max {
        s
    } else {
        let keep: int = if max >= 1 {
            max - 1
        } else {
            0
        };
        seq![ellipsis()] + s.subrange(s.len() - keep, s.len() as int)
    }
}

/// The start of a long string, elided at the end.
pub open spec fn elide_text(s: Seq<char>, max: nat) -> Seq<char> {
    if s.len() <= max {
        s
    } else {
        let keep: int = if max >= 1 {
            max - 1
        } else {
            0
        };
        s.subrange(0, keep).push(ellipsis())
    }
}

fn slice_chars(s: &[char], lo: usize, hi: usize) -> (r: Vec<char>)
    requires
        lo <= hi <= s.len(),
    ensures
        r@ == s@.subrange(lo as int, hi as int),
{
    let mut out: Vec<char> = Vec::new();
    let mut i: usize = lo;
    while i < hi
        invariant
            lo <= i <= hi <= s.len(),
            out@ == s@.subrange(lo as int, i as int),
        decreases hi - i,
    {
        out.push(s[i]);
        i = i + 1;
    }
    out
}

/// The end of a long string, elided at the front. Paths are cut this way
/// because their end is the part that identifies the file.
pub fn tail(text: &str, max: usize) -> (r: String)
    ensures
        r@ == tail_text(text@, max as nat),
{
    let cs = chars_of(text);
    if cs.len() <= max {
        return string_of(&cs);
    }
    let keep = if max >= 1 {
        max - 1
    } else {
        0
    };
    let kept = slice_chars(&cs, cs.len() - keep, cs.len());
    let mut out: Vec<char> = Vec::new();
    out.push('\u{2026}');
    extend(&mut out, &kept);
    assert(out@ =~= seq![ellipsis()] + text@.subrange(text@.len() - keep, text@.len() as int));
    string_of(&out)
}

/// Keep a value inside its panel; the full text stays in the tooltip.
pub fn elide(text: &str, max: usize) -> (r: String)
    ensures
        r@ == elide_text(text@, max as nat),
{
    let cs = chars_of(text);
    elide_chars(&cs, max)
}

fn elide_chars(cs: &[char], max: usize) -> (r: String)
    ensures
        r@ == elide_text(cs@, max as nat),
{
    if cs.len() <= max {
        return string_of(cs);
    }
    let keep = if max >= 1 {
        max - 1
    } else {
        0
    };
    let mut out = slice_chars(cs, 0, keep);
    out.push('\u{2026}');
    string_of(&out)
}

/// A control character, as `char::is_control` tells: general category Cc.
pub open spec fn is_control(c: char) -> bool {
    c <= '\u{1f}' || ('\u{7f}' <= c && c <= '\u{9f}')
}

/// A title collapsed to a single bounded line: control characters become
/// spaces, the ends are trimmed, and what is still too long is elided.
pub open spec fn one_line_text(s: Seq<char>, max: nat) -> Seq<char> {
    elide_text(trim(s.map_values(|c: char| if is_control(c) { ' ' } else { c })), max)
}

/// Collapse a candidate title to a single bounded line.
pub fn one_line(text: &str, max: usize) -> (r: String)
    ensures
        r@ == one_line_text(text@, max as nat),
{
    let cs = chars_of(text);
    let mut flat: Vec<char> = Vec::new();
    let mut i: usize = 0;
    while i < cs.len()
        invariant
            i <= cs.len(),
            flat@ == cs@.take(i as int).map_values(|c: char| if is_control(c) { ' ' } else { c }),
        decreases cs.len() - i,
    {
        let c = cs[i];
        let d = if c <= '\u{1f}' || ('\u{7f}' <= c && c <= '\u{9f}') {
            ' '
        } else {
            c
        };
        flat.push(d);
        i = i + 1;
        assert(flat@ =~= cs@.take(i as int).map_values(
            |c: char| if is_control(c) { ' ' } else { c },
        ));
    }
    assert(cs@.take(cs.len() as int) =~= cs@);
    let t = trim_chars(&flat);
    elide_chars(&t, max)
}

/// The length of the size prefix `s` begins with: 6 for `dword ` and
/// `qword `, 5 for `word ` and `byte `, 0 for none. The longer prefixes are
/// tried first, so a `dword ` goes whole.
pub open spec fn size_prefix_len(s: Seq<char>) -> nat {
    if s.len() >= 6 && (starts_with(s, "dword "@) || starts_with(s, "qword "@)) {
        6
    } else if s.len() >= 5 && (starts_with(s, "word "@) || starts_with(s, "byte "@)) {
        5
    } else {
        0
    }
}

/// An operand without the size prefixes the argument type already says:
/// scanning left to right, each `byte `, `word `, `dword ` or `qword ` is
/// taken out whole.
pub open spec fn strip_size_text(s: Seq<char>) -> Seq<char>
    decreases s.len(),
{
    if s.len() == 0 {
        s
    } else if size_prefix_len(s) > 0 {
        strip_size_text(s.skip(size_prefix_len(s) as int))
    } else {
        seq![s[0]] + strip_size_text(s.drop_first())
    }
}

fn prefix_len_at(s: &[char], i: usize) -> (r: usize)
    requires
        i <= s.len(),
    ensures
        r == size_prefix_len(s@.skip(i as int)),
{
    proof {
        reveal_strlit("dword ");
        reveal_strlit("qword ");
        reveal_strlit("word ");
        reveal_strlit("byte ");
    }
    let ghost rest = s@.skip(i as int);
    let d = lit("dword ");
    let q = lit("qword ");
    let w = lit("word ");
    let b = lit("byte ");
    let tail = slice_from(s, i);
    assert(tail@ == rest);
    if starts_with_chars(&tail, &d) || starts_with_chars(&tail, &q) {
        6
    } else if starts_with_chars(&tail, &w) || starts_with_chars(&tail, &b) {
        5
    } else {
        0
    }
}

fn slice_from(s: &[char], i: usize) -> (r: Vec<char>)
    requires
        i <= s.len(),
    ensures
        r@ == s@.skip(i as int),
{
    let mut out: Vec<char> = Vec::new();
    let mut j: usize = i;
    while j < s.len()
        invariant
            i <= j <= s.len(),
            out@ == s@.subrange(i as int, j as int),
        decreases s.len() - j,
    {
        out.push(s[j]);
        j = j + 1;
    }
    out
}

/// An operand's size prefix repeats what the argument type already says.
pub fn strip_size(text: &str) -> (r: String)
    ensures
        r@ == strip_size_text(text@),
{
    let s = chars_of(text);
    let mut out: Vec<char> = Vec::new();
    let mut i: usize = 0;
    assert(s@.skip(0) =~= s@);
    while i < s.len()
        invariant
            i <= s.len(),
            s@ == text@,
            out@ + strip_size_text(s@.skip(i as int)) == strip_size_text(text@),
        decreases s.len() - i,
    {
        let ghost rest = s@.skip(i as int);
        let n = prefix_len_at(&s, i);
        if n > 0 {
            proof {
                reveal_strlit("dword ");
                reveal_strlit("word ");
            }
            assert(n <= rest.len());
            assert(rest.skip(n as int) =~= s@.skip(i + n));
            i = i + n;
        } else {
            let ghost before = out@;
            out.push(s[i]);
            assert(rest.drop_first() =~= s@.skip(i + 1));
            assert(before + strip_size_text(rest) =~= out@ + strip_size_text(s@.skip(i + 1)));
            i = i + 1;
        }
    }
    assert(s@.skip(i as int) =~= Seq::<char>::empty());
    assert(out@ + strip_size_text(s@.skip(i as int)) =~= out@);
    string_of(&out)
}

/// The key a call-graph node for an imported symbol is known by.
pub fn import_key(name: &str) -> (r: String)
    ensures
        r@ == "i"@ + name@,
{
    let mut v: Vec<char> = Vec::new();
    extend_str(&mut v, "i");
    extend_str(&mut v, name);
    string_of(&v)
}

} // verus!
