//! Numbers typed on the command line and in the go-to box: decimal, `0x`
//! hexadecimal, assembler-style `h` suffixes, and comma-separated segment
//! lists.

use vstd::prelude::*;
use crate::text::{
    chars_of, decimal, digit_char, hex, hex_char, is_ws, owned, pad_left, split, split_chars, string_of,
    trim, trim_chars,
};
use std::collections::BTreeSet;

verus! {

/// Why a string is not an unsigned integer, as `ParseIntError::kind` tells.
#[derive(Debug, Clone, Copy, PartialEq, Eq, Structural)]
pub enum IntError {
    /// Nothing to parse.
    Empty,
    /// A character that is not a digit of the radix.
    InvalidDigit,
    /// The value does not fit the type.
    PosOverflow,
}

/// The value of `c` as a digit of `radix` (at most 36), as
/// `char::to_digit` gives it.
pub open spec fn digit_of(c: char, radix: nat) -> Option<nat> {
    let d: int = if '0' <= c && c <= '9' {
        c as int - '0' as int
    } else if 'a' <= c && c <= 'z' {
        c as int - 'a' as int + 10
    } else if 'A' <= c && c <= 'Z' {
        c as int - 'A' as int + 10
    } else {
        36
    };
    if d < radix {
        Some(d as nat)
    } else {
        None
    }
}

/// The digits `s` read left to right in `radix`, stopping at the first
/// character that is no digit or that would take the value past `max`.
pub open spec fn digits_value(s: Seq<char>, radix: nat, max: nat) -> Result<nat, IntError>
    decreases s.len(),
{
    if s.len() == 0 {
        Ok(0)
    } else {
        match digits_value(s.drop_last(), radix, max) {
            Err(e) => Err(e),
            Ok(v) => match digit_of(s.last(), radix) {
                None => Err(IntError::InvalidDigit),
                Some(d) => if v * radix + d > max {
                    Err(IntError::PosOverflow)
                } else {
                    Ok(v * radix + d)
                },
            },
        }
    }
}

/// `from_str_radix` for an unsigned type whose largest value is `max`: an
/// optional `+`, then at least one digit.
pub open spec fn parse_uint(s: Seq<char>, radix: nat, max: nat) -> Result<nat, IntError> {
    if s.len() == 0 {
        Err(IntError::Empty)
    } else if s.len() == 1 && (s[0] == '+' || s[0] == '-') {
        Err(IntError::InvalidDigit)
    } else if s[0] == '+' {
        digits_value(s.drop_first(), radix, max)
    } else {
        digits_value(s, radix, max)
    }
}

/// A decimal numeral reads back as its number.
pub proof fn lemma_digits_of_decimal(n: nat, max: nat)
    requires
        n <= max,
    ensures
        digits_value(decimal(n), 10, max) == Ok::<nat, IntError>(n),
    decreases n,
{
    if n >= 10 {
        lemma_digits_of_decimal(n / 10, max);
        assert(decimal(n).drop_last() =~= decimal(n / 10));
        assert(decimal(n).last() == digit_char((n % 10) as nat));
        assert(digit_of(digit_char((n % 10) as nat), 10) == Some((n % 10) as nat));
        assert((n / 10) * 10 + n % 10 == n) by (nonlinear_arith);
        let v = n / 10;
        let d = (n % 10) as nat;
        assert(digits_value(decimal(n).drop_last(), 10, max) == Ok::<nat, IntError>(v));
        assert(digit_of(decimal(n).last(), 10) == Some(d));
        assert(v * 10 + d == n);
        assert(decimal(n).len() > 0);
    } else {
        assert(decimal(n).drop_last() =~= Seq::<char>::empty());
        assert(decimal(n).last() == digit_char(n));
        assert(digit_of(digit_char(n), 10) == Some(n));
        assert(digits_value(decimal(n).drop_last(), 10, max) == Ok::<nat, IntError>(0nat));
        assert(0 * 10 + n == n);
        assert(decimal(n).len() > 0);
    }
}

/// A hexadecimal numeral reads back as its number.
pub proof fn lemma_digits_of_hex(n: nat, max: nat)
    requires
        n <= max,
    ensures
        digits_value(hex(n), 16, max) == Ok::<nat, IntError>(n),
    decreases n,
{
    if n >= 16 {
        lemma_digits_of_hex(n / 16, max);
        assert(hex(n).drop_last() =~= hex(n / 16));
        assert(hex(n).last() == hex_char((n % 16) as nat));
        assert(digit_of(hex_char((n % 16) as nat), 16) == Some((n % 16) as nat));
        assert((n / 16) * 16 + n % 16 == n) by (nonlinear_arith);
        let v = n / 16;
        let d = (n % 16) as nat;
        assert(digits_value(hex(n).drop_last(), 16, max) == Ok::<nat, IntError>(v));
        assert(digit_of(hex(n).last(), 16) == Some(d));
        assert(v * 16 + d == n);
        assert(hex(n).len() > 0);
    } else {
        assert(hex(n).drop_last() =~= Seq::<char>::empty());
        assert(hex(n).last() == hex_char(n));
        assert(digit_of(hex_char(n), 16) == Some(n));
        assert(digits_value(hex(n).drop_last(), 16, max) == Ok::<nat, IntError>(0nat));
        assert(0 * 16 + n == n);
        assert(hex(n).len() > 0);
    }
}

/// Leading zeros do not change what digits read as.
pub proof fn lemma_leading_zeros(k: nat, s: Seq<char>, radix: nat, max: nat)
    requires
        radix >= 2,
    ensures
        digits_value(Seq::new(k, |i: int| '0') + s, radix, max) == digits_value(s, radix, max),
    decreases s.len(), k,
{
    let z = Seq::new(k, |i: int| '0');
    if s.len() > 0 {
        assert((z + s).drop_last() =~= z + s.drop_last());
        assert((z + s).last() == s.last());
        lemma_leading_zeros(k, s.drop_last(), radix, max);
    } else if k > 0 {
        let z1 = Seq::new((k - 1) as nat, |i: int| '0');
        assert((z + s).drop_last() =~= z1 + s);
        assert(z + s =~= z);
        lemma_leading_zeros((k - 1) as nat, s, radix, max);
        assert(z1 + s =~= z1);
        assert(z.drop_last() =~= z1);
        assert(z.last() == '0');
        assert(digit_of('0', radix) == Some(0nat));
        assert(0 * radix + 0 == 0);
    } else {
        assert(z + s =~= s);
    }
}

/// A zero-padded numeral reads back as its number.
pub proof fn lemma_padded_reads_back(n: nat, width: nat, max: nat, hexadecimal: bool)
    requires
        n <= max,
    ensures
        digits_value(pad_left(if hexadecimal { hex(n) } else { decimal(n) }, width, '0'), if hexadecimal {
            16nat
        } else {
            10nat
        }, max) == Ok::<nat, IntError>(n),
{
    let s = if hexadecimal {
        hex(n)
    } else {
        decimal(n)
    };
    let radix: nat = if hexadecimal {
        16
    } else {
        10
    };
    if hexadecimal {
        lemma_digits_of_hex(n, max);
    } else {
        lemma_digits_of_decimal(n, max);
    }
    if s.len() < width {
        lemma_leading_zeros((width - s.len()) as nat, s, radix, max);
    }
}

proof fn lemma_digits_bounded(s: Seq<char>, radix: nat, max: nat)
    ensures
        digits_value(s, radix, max) matches Ok(v) ==> v <= max,
    decreases s.len(),
{
    if s.len() > 0 {
        lemma_digits_bounded(s.drop_last(), radix, max);
    }
}

/// The digits of `s` from `from` on, read in `radix` up to `max`.
fn read_digits(s: &[char], from: usize, radix: u64, max: u64) -> (r: Result<u64, IntError>)
    requires
        from <= s.len(),
        2 <= radix <= 36,
    ensures
        match digits_value(s@.skip(from as int), radix as nat, max as nat) {
            Ok(v) => r == Ok::<u64, IntError>(v as u64),
            Err(e) => r == Err::<u64, IntError>(e),
        },
{
    let ghost t = s@.skip(from as int);
    let mut v: u64 = 0;
    let mut i: usize = from;
    assert(t.take(0) =~= Seq::<char>::empty());
    while i < s.len()
        invariant
            from <= i <= s.len(),
            2 <= radix <= 36,
            t == s@.skip(from as int),
            digits_value(t.take(i - from), radix as nat, max as nat) == Ok::<nat, IntError>(v as nat),
            v <= max,
        decreases s.len() - i,
    {
        let c = s[i];
        let d: u64 = if '0' <= c && c <= '9' {
            (c as u64) - ('0' as u64)
        } else if 'a' <= c && c <= 'z' {
            (c as u64) - ('a' as u64) + 10
        } else if 'A' <= c && c <= 'Z' {
            (c as u64) - ('A' as u64) + 10
        } else {
            36
        };
        let ghost pre = t.take(i - from);
        let ghost now = t.take(i - from + 1);
        proof {
            assert(now.drop_last() =~= pre);
            assert(now.last() == c);
        }
        if d >= radix {
            proof {
                lemma_digits_stop(t, (i - from) as int, radix as nat, max as nat);
            }
            return Err(IntError::InvalidDigit);
        }
        if d > max || v > (max - d) / radix {
            proof {
                if d <= max {
                    lemma_mul_over(v as int, radix as int, d as int, max as int);
                }
                lemma_digits_stop(t, (i - from) as int, radix as nat, max as nat);
            }
            return Err(IntError::PosOverflow);
        }
        proof {
            lemma_mul_within(v as int, radix as int, d as int, max as int);
        }
        v = v * radix + d;
        i = i + 1;
    }
    assert(t.take(i - from) =~= t);
    Ok(v)
}

proof fn lemma_mul_over(v: int, r: int, d: int, m: int)
    by (nonlinear_arith)
    requires
        r >= 2,
        0 <= d <= m,
        v > (m - d) / r,
    ensures
        v * r + d > m,
{
}

proof fn lemma_mul_within(v: int, r: int, d: int, m: int)
    by (nonlinear_arith)
    requires
        r >= 2,
        0 <= d <= m,
        0 <= v <= (m - d) / r,
    ensures
        v * r + d <= m,
{
}

/// Once a prefix fails, the whole fails the same way.
proof fn lemma_digits_stop(t: Seq<char>, k: int, radix: nat, max: nat)
    requires
        0 <= k < t.len(),
        digits_value(t.take(k + 1), radix, max) is Err,
    ensures
        digits_value(t, radix, max) == digits_value(t.take(k + 1), radix, max),
    decreases t.len() - k,
{
    if k + 1 < t.len() {
        assert(t.take(k + 2).drop_last() =~= t.take(k + 1));
        lemma_digits_stop(t, k + 1, radix, max);
    } else {
        assert(t.take(k + 1) =~= t);
    }
}

/// `from_str_radix` for an unsigned type whose largest value is `max`.
pub fn parse_radix(s: &[char], radix: u64, max: u64) -> (r: Result<u64, IntError>)
    requires
        2 <= radix <= 36,
    ensures
        match parse_uint(s@, radix as nat, max as nat) {
            Ok(v) => r == Ok::<u64, IntError>(v as u64),
            Err(e) => r == Err::<u64, IntError>(e),
        },
{
    if s.len() == 0 {
        return Err(IntError::Empty);
    }
    if s.len() == 1 && (s[0] == '+' || s[0] == '-') {
        return Err(IntError::InvalidDigit);
    }
    if s[0] == '+' {
        assert(s@.drop_first() =~= s@.skip(1));
        read_digits(s, 1, radix, max)
    } else {
        assert(s@ =~= s@.skip(0));
        read_digits(s, 0, radix, max)
    }
}

/// A number as the command line takes it, after trimming white space: `0x`
/// or `0X` then hexadecimal, hexadecimal then `h` or `H`, or decimal.
pub open spec fn num_value(s: Seq<char>) -> Result<nat, IntError> {
    let t = trim(s);
    if t.len() >= 2 && t[0] == '0' && (t[1] == 'x' || t[1] == 'X') {
        parse_uint(t.skip(2), 16, u32::MAX as nat)
    } else if t.len() >= 1 && (t.last() == 'h' || t.last() == 'H') {
        parse_uint(t.drop_last(), 16, u32::MAX as nat)
    } else {
        parse_uint(t, 10, u32::MAX as nat)
    }
}

/// A number that did not parse: the trimmed text and the reason.
#[derive(Debug)]
pub struct NumError {
    pub text: String,
    pub kind: IntError,
}

/// Parse a number as the command line takes it: `0x1F`, `1Fh` or `31`.
pub fn parse_num(s: &str) -> (r: Result<u32, NumError>)
    ensures
        match num_value(s@) {
            Ok(v) => r matches Ok(n) && n as nat == v,
            Err(e) => r matches Err(err) && err.kind == e && err.text@ == trim(s@),
        },
{
    let raw = chars_of(s);
    let t = trim_chars(&raw);
    let n = t.len();
    let r = if n >= 2 && t[0] == '0' && (t[1] == 'x' || t[1] == 'X') {
        let mut h: Vec<char> = Vec::new();
        let mut i: usize = 2;
        while i < n
            invariant
                2 <= i <= n,
                n == t.len(),
                h@ == t@.subrange(2, i as int),
            decreases n - i,
        {
            h.push(t[i]);
            i = i + 1;
        }
        assert(h@ =~= t@.skip(2));
        parse_radix(&h, 16, 0xFFFF_FFFF)
    } else if n >= 1 && (t[n - 1] == 'h' || t[n - 1] == 'H') {
        let mut h: Vec<char> = Vec::new();
        let mut i: usize = 0;
        while i < n - 1
            invariant
                i <= n - 1,
                n == t.len(),
                n >= 1,
                h@ == t@.subrange(0, i as int),
            decreases n - 1 - i,
        {
            h.push(t[i]);
            i = i + 1;
        }
        assert(h@ =~= t@.drop_last());
        parse_radix(&h, 16, 0xFFFF_FFFF)
    } else {
        parse_radix(&t, 10, 0xFFFF_FFFF)
    };
    proof {
        lemma_digits_bounded(t@, 10, u32::MAX as nat);
        lemma_digits_bounded(t@.skip(1), 10, u32::MAX as nat);
        lemma_digits_bounded(t@.skip(2), 16, u32::MAX as nat);
        lemma_digits_bounded(t@.skip(2).skip(1), 16, u32::MAX as nat);
        lemma_digits_bounded(t@.drop_last(), 16, u32::MAX as nat);
        lemma_digits_bounded(t@.drop_last().skip(1), 16, u32::MAX as nat);
        assert(t@.skip(2).drop_first() =~= t@.skip(2).skip(1));
        assert(t@.drop_last().drop_first() =~= t@.drop_last().skip(1));
        assert(t@.drop_first() =~= t@.skip(1));
    }
    match r {
        Ok(v) => Ok(v as u32),
        Err(e) => Err(NumError { text: string_of(&t), kind: e }),
    }
}

/// The segment numbers named in a comma-separated list: each piece that,
/// trimmed, is a decimal `u16`. Pieces that are not are passed over.
pub open spec fn seg_list(s: Option<Seq<char>>) -> Set<u16> {
    match s {
        None => Set::empty(),
        Some(t) => Set::new(
            |n: u16|
                exists|i: int|
                    0 <= i < split(t, ',').len() && parse_uint(
                        trim(#[trigger] split(t, ',')[i]),
                        10,
                        u16::MAX as nat,
                    ) == Ok::<nat, IntError>(n as nat),
        ),
    }
}

/// Segment numbers keep the order laws a `BTreeSet` relies on.
pub open spec fn seg_numbers_ordered() -> bool {
    vstd::laws_cmp::obeys_cmp::<u16>()
}

proof fn lemma_u16_ordered()
    ensures
        seg_numbers_ordered(),
{
    broadcast use vstd::laws_cmp::group_laws_cmp;
}

/// The segments named in a comma-separated list, such as `--bits32 2,5`.
pub fn parse_seg_list(s: &Option<String>) -> (r: BTreeSet<u16>)
    ensures
        r@ == seg_list(match s {
            Some(t) => Some(t@),
            None => None::<Seq<char>>,
        }),
{
    let mut out: BTreeSet<u16> = BTreeSet::new();
    proof {
        lemma_u16_ordered();
    }
    match s {
        None => {
            assert(out@ =~= seg_list(None));
            out
        },
        Some(text) => {
            let cs = chars_of(text.as_str());
            let parts = split_chars(&cs, ',');
            let ghost sp = split(text@, ',');
            let mut i: usize = 0;
            while i < parts.len()
                invariant
                    i <= parts.len(),
                    parts@.len() == sp.len(),
                    sp == split(text@, ','),
                    forall|k: int| 0 <= k < parts@.len() ==> (#[trigger] parts@[k])@ == sp[k],
                    seg_numbers_ordered(),
                    forall|n: u16|
                        #[trigger] out@.contains(n) == exists|k: int|
                            0 <= k < i && parse_uint(trim(#[trigger] sp[k]), 10, u16::MAX as nat)
                                == Ok::<nat, IntError>(n as nat),
                decreases parts.len() - i,
            {
                let piece = trim_chars(&parts[i]);
                let r = parse_radix(&piece, 10, 0xFFFF);
                proof {
                    assert(piece@ == trim(sp[i as int]));
                    lemma_parse_bounded(piece@, 10, u16::MAX as nat);
                }
                match r {
                    Ok(v) => {
                        let n = v as u16;
                        out.insert(n);
                        proof {
                            assert forall|m: u16| #[trigger] out@.contains(m) == exists|k: int|
                                0 <= k < i + 1 && parse_uint(trim(#[trigger] sp[k]), 10, u16::MAX as nat)
                                    == Ok::<nat, IntError>(m as nat) by {
                                if m == n {
                                    assert(parse_uint(trim(sp[i as int]), 10, u16::MAX as nat) == Ok::<
                                        nat,
                                        IntError,
                                    >(m as nat));
                                }
                            }
                        }
                    },
                    Err(_) => {
                        proof {
                            assert forall|m: u16| #[trigger] out@.contains(m) == exists|k: int|
                                0 <= k < i + 1 && parse_uint(trim(#[trigger] sp[k]), 10, u16::MAX as nat)
                                    == Ok::<nat, IntError>(m as nat) by {
                                if exists|k: int|
                                    0 <= k < i + 1 && parse_uint(trim(#[trigger] sp[k]), 10, u16::MAX as nat)
                                        == Ok::<nat, IntError>(m as nat) {
                                    let k = choose|k: int|
                                        0 <= k < i + 1 && parse_uint(trim(#[trigger] sp[k]), 10, u16::MAX as nat)
                                            == Ok::<nat, IntError>(m as nat);
                                    assert(k != i);
                                }
                            }
                        }
                    },
                }
                i = i + 1;
            }
            assert(out@ =~= seg_list(Some(text@)));
            out
        },
    }
}

pub(crate) proof fn lemma_parse_bounded(s: Seq<char>, radix: nat, max: nat)
    ensures
        parse_uint(s, radix, max) matches Ok(v) ==> v <= max,
{
    lemma_digits_bounded(s, radix, max);
    if s.len() > 0 {
        lemma_digits_bounded(s.drop_first(), radix, max);
    }
}

/// The set with `x` taken out when it was in, and put in when it was not.
pub open spec fn toggled(s: Set<u16>, x: u16) -> Set<u16> {
    if s.contains(x) {
        s.remove(x)
    } else {
        s.insert(x)
    }
}

/// Mark or unmark segment `seg` as holding 32-bit code.
pub fn toggle_segment(set: &mut BTreeSet<u16>, seg: u16)
    ensures
        final(set)@ == toggled(old(set)@, seg),
{
    proof {
        lemma_u16_ordered();
    }
    broadcast use vstd::std_specs::btree::axiom_set_deref_key_removed;
    broadcast use vstd::std_specs::btree::axiom_set_contains_deref_key;
    if !set.remove(&seg) {
        set.insert(seg);
    }
}

/// Toggling a segment twice leaves the set as it was.
pub proof fn lemma_toggle_segment_twice(s: Set<u16>, x: u16)
    ensures
        toggled(toggled(s, x), x) == s,
{
    assert(toggled(toggled(s, x), x) =~= s);
}

} // verus!
