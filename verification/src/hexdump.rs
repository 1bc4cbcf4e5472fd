//! Hex dumps: sixteen bytes a row, an address column and an ASCII gutter.

use vstd::prelude::*;
use crate::text::{
    decimal, extend, extend_str, fmt_decimal, fmt_hex, fmt_hex_padded, hex, hex_padded, lower,
    push_char, string_of, to_lower,
};

verus! {

/// How a byte shows in the gutter: printable ASCII as itself, anything else
/// as a dot.
pub open spec fn gutter_char(b: u8) -> char {
    if 0x20 <= b && b < 0x7F {
        b as char
    } else {
        '.'
    }
}

/// Column `i` of a row's hex field: the byte as two digits and a space, or
/// three spaces past the end of a short row, with a wider gap after the
/// eighth column.
pub open spec fn cell(chunk: Seq<u8>, i: int) -> Seq<char> {
    (if i < chunk.len() {
        hex_padded(chunk[i] as nat, 2) + " "@
    } else {
        "   "@
    }) + if i == 7 {
        " "@
    } else {
        Seq::<char>::empty()
    }
}

/// The first `n` columns of a row's hex field.
pub open spec fn cells(chunk: Seq<u8>, n: nat) -> Seq<char>
    decreases n,
{
    if n == 0 {
        Seq::empty()
    } else {
        cells(chunk, (n - 1) as nat) + cell(chunk, n - 1)
    }
}

/// One row: the address in eight hex digits, the sixteen columns, and the
/// bytes between bars.
pub open spec fn dump_row(chunk: Seq<u8>, addr: nat) -> Seq<char> {
    hex_padded(addr, 8) + "  "@ + cells(chunk, 16) + " |"@ + chunk.map_values(
        |b: u8| gutter_char(b),
    ) + "|\n"@
}

/// The dump of `data` with its first byte at address `base`.
pub open spec fn dump_text(data: Seq<u8>, base: nat) -> Seq<char>
    decreases data.len(),
{
    if data.len() == 0 {
        Seq::empty()
    } else if data.len() <= 16 {
        dump_row(data, base)
    } else {
        dump_row(data.take(16), base) + dump_text(data.skip(16), base + 16)
    }
}

/// The address of the last row fits a `u64`.
pub open spec fn rows_addressable(len: nat, base: nat) -> bool {
    len == 0 || base + 16 * ((len - 1) / 16) <= u64::MAX
}

fn gutter(chunk: &[u8]) -> (r: Vec<char>)
    ensures
        r@ == chunk@.map_values(|b: u8| gutter_char(b)),
{
    let mut out: Vec<char> = Vec::new();
    let mut i: usize = 0;
    while i < chunk.len()
        invariant
            i <= chunk.len(),
            out@ == chunk@.take(i as int).map_values(|b: u8| gutter_char(b)),
        decreases chunk.len() - i,
    {
        let b = chunk[i];
        let c = if 0x20 <= b && b < 0x7F {
            b as char
        } else {
            '.'
        };
        out.push(c);
        i = i + 1;
        assert(out@ =~= chunk@.take(i as int).map_values(|b: u8| gutter_char(b)));
    }
    assert(chunk@.take(chunk.len() as int) =~= chunk@);
    out
}

fn row(chunk: &[u8], addr: u64) -> (r: Vec<char>)
    ensures
        r@ == dump_row(chunk@, addr as nat),
{
    let mut out = fmt_hex_padded(addr, 8);
    extend_str(&mut out, "  ");
    let ghost head = out@;
    let mut i: usize = 0;
    assert(cells(chunk@, 0) =~= Seq::<char>::empty());
    while i < 16
        invariant
            i <= 16,
            out@ == head + cells(chunk@, i as nat),
        decreases 16 - i,
    {
        if i < chunk.len() {
            let h = fmt_hex_padded(chunk[i] as u64, 2);
            extend(&mut out, &h);
            extend_str(&mut out, " ");
        } else {
            extend_str(&mut out, "   ");
        }
        if i == 7 {
            extend_str(&mut out, " ");
        }
        proof {
            assert(cells(chunk@, (i + 1) as nat) == cells(chunk@, i as nat) + cell(chunk@, i as int));
            assert(out@ =~= head + cells(chunk@, (i + 1) as nat));
        }
        i = i + 1;
    }
    extend_str(&mut out, " |");
    let g = gutter(chunk);
    extend(&mut out, &g);
    extend_str(&mut out, "|\n");
    out
}

/// Classic 16-byte hex dump with an ASCII gutter, addresses starting at
/// `base`.
pub fn dump(data: &[u8], base: u64) -> (r: String)
    requires
        rows_addressable(data@.len(), base as nat),
    ensures
        r@ == dump_text(data@, base as nat),
{
    let mut out: Vec<char> = Vec::new();
    let mut at: usize = 0;
    let mut addr: u64 = base;
    assert(data@.skip(0) =~= data@);
    assert(out@ =~= Seq::<char>::empty());
    while at < data.len()
        invariant
            at <= data.len(),
            at == data.len() || (at % 16 == 0 && addr == base + at),
            rows_addressable(data@.len(), base as nat),
            out@ + dump_text(data@.skip(at as int), addr as nat) == dump_text(data@, base as nat),
        decreases data.len() - at,
    {
        let end = if data.len() - at > 16 {
            at + 16
        } else {
            data.len()
        };
        let mut chunk: Vec<u8> = Vec::new();
        let mut k: usize = at;
        while k < end
            invariant
                at <= k <= end <= data.len(),
                chunk@ == data@.subrange(at as int, k as int),
            decreases end - k,
        {
            chunk.push(data[k]);
            k = k + 1;
        }
        proof {
            assert(at / 16 <= (data.len() - 1) / 16) by (nonlinear_arith)
                requires
                    at < data.len(),
            ;
            assert(16 * (at / 16) == at) by (nonlinear_arith)
                requires
                    at % 16 == 0,
            ;
            assert(16 * (at / 16) <= 16 * ((data.len() - 1) / 16)) by (nonlinear_arith)
                requires
                    at / 16 <= (data.len() - 1) / 16,
            ;
        }
        let line = row(&chunk, addr);
        let ghost rest = data@.skip(at as int);
        proof {
            if rest.len() <= 16 {
                assert(chunk@ =~= rest);
            } else {
                assert(chunk@ =~= rest.take(16));
                assert(rest.skip(16) =~= data@.skip(end as int));
            }
        }
        extend(&mut out, &line);
        if end < data.len() {
            addr = addr + 16;
        }
        at = end;
        proof {
            if at == data.len() {
                assert(data@.skip(at as int).len() == 0);
                assert(out@ =~= dump_text(data@, base as nat));
            } else {
                assert(out@ + dump_text(data@.skip(at as int), addr as nat) =~= dump_text(
                    data@,
                    base as nat,
                ));
            }
        }
    }
    proof {
        assert(dump_text(data@.skip(at as int), addr as nat) =~= Seq::<char>::empty());
        assert(out@ =~= dump_text(data@, base as nat));
    }
    string_of(&out)
}

/// The bytes a hex dump shows: from `offset` (the start when none is
/// given) for `len` bytes, cut at the end of what there is. `None` when
/// the offset is at or past the end.
pub fn dump_window(avail: usize, offset: Option<u32>, len: u32) -> (r: Option<(usize, usize)>)
    requires
        match offset {
            Some(o) => o + len <= usize::MAX,
            None => len <= usize::MAX,
        },
    ensures
        ({
            let start: nat = match offset {
                Some(o) => o as nat,
                None => 0,
            };
            match r {
                None => start >= avail,
                Some((s, e)) => start < avail && s == start && e == if start + len < avail {
                    start + len
                } else {
                    avail as int
                },
            }
        }),
{
    let start: usize = match offset {
        Some(o) => o as usize,
        None => 0,
    };
    if start >= avail {
        return None;
    }
    let want = start + len as usize;
    let end = if want < avail {
        want
    } else {
        avail
    };
    Some((start, end))
}

/// What the bytes under the cursor might mean, each as the inspector shows
/// it.
#[derive(Debug, PartialEq, Eq)]
pub struct CursorData {
    /// Up to eight bytes in hex.
    pub bytes: String,
    /// The first byte, in hex and decimal.
    pub byte: String,
    /// The first two bytes as a little-endian word, in hex and decimal.
    pub word: Option<String>,
    /// The same word as a signed number.
    pub signed: Option<String>,
    /// The first four bytes as a little-endian double word.
    pub dword: Option<String>,
    /// The same four bytes as a far pointer, `segment:offset`.
    pub far: Option<String>,
    /// The bytes as text, with a middle dot for anything unprintable.
    pub ascii: String,
}

/// How a byte shows as text under the cursor.
pub open spec fn cursor_char(b: u8) -> char {
    if 0x20 <= b && b < 0x7F {
        b as char
    } else {
        '\u{b7}'
    }
}

/// Each byte as two hex digits and a space.
pub open spec fn hex_bytes(b: Seq<u8>) -> Seq<char>
    decreases b.len(),
{
    if b.len() == 0 {
        Seq::empty()
    } else {
        hex_bytes(b.drop_last()) + hex_padded(b.last() as nat, 2) + " "@
    }
}

/// `n` as `{:#0w$X}` writes it: `0x` and at least `digits` hex digits.
pub open spec fn prefixed_hex(n: nat, digits: nat) -> Seq<char> {
    "0x"@ + hex_padded(n, digits)
}

/// A signed number in decimal.
pub open spec fn signed_text(v: int) -> Seq<char> {
    if v < 0 {
        "-"@ + decimal((-v) as nat)
    } else {
        decimal(v as nat)
    }
}

/// The bytes from `offset`, at most eight, when the offset is inside `data`.
pub open spec fn cursor_bytes(data: Seq<u8>, offset: nat) -> Seq<u8> {
    data.subrange(offset as int, if offset + 8 < data.len() {
        (offset + 8) as int
    } else {
        data.len() as int
    })
}

fn hex_prefixed(n: u64, digits: usize) -> (r: Vec<char>)
    ensures
        r@ == prefixed_hex(n as nat, digits as nat),
{
    let mut v: Vec<char> = Vec::new();
    extend_str(&mut v, "0x");
    extend(&mut v, &fmt_hex_padded(n, digits));
    v
}

fn number_pair(n: u64, digits: usize) -> (r: String)
    ensures
        r@ == prefixed_hex(n as nat, digits as nat) + "   "@ + decimal(n as nat),
{
    let mut v = hex_prefixed(n, digits);
    extend_str(&mut v, "   ");
    extend(&mut v, &fmt_decimal(n));
    string_of(&v)
}

fn signed_word(w: u64) -> (r: String)
    requires
        w < 65536,
    ensures
        r@ == signed_text(
            if w < 32768 {
                w as int
            } else {
                w - 65536
            },
        ),
{
    if w < 32768 {
        string_of(&fmt_decimal(w))
    } else {
        let mut v: Vec<char> = Vec::new();
        v.push('-');
        extend(&mut v, &fmt_decimal(65536 - w));
        proof {
            reveal_strlit("-");
            assert(seq!['-'] =~= "-"@);
        }
        string_of(&v)
    }
}

fn far_pointer(d: u64) -> (r: String)
    ensures
        r@ == hex_padded(d as nat / 65536, 4) + ":"@ + hex_padded(d as nat % 65536, 4),
{
    let mut v = fmt_hex_padded(d / 65536, 4);
    let ghost a = v@;
    v.push(':');
    extend(&mut v, &fmt_hex_padded(d % 65536, 4));
    proof {
        reveal_strlit(":");
        assert(a.push(':') =~= a + ":"@);
    }
    string_of(&v)
}

/// What the bytes at `offset` of `data` might mean, or `None` when the
/// offset is at or past the end.
pub fn cursor_data(data: &[u8], offset: u32) -> (r: Option<CursorData>)
    ensures
        (offset as nat) < data@.len() <==> r is Some,
        r matches Some(c) ==> {
            let b = cursor_bytes(data@, offset as nat);
            let w: nat = b[0] as nat + 256 * b[1] as nat;
            let d: nat = w + 65536 * (b[2] as nat + 256 * b[3] as nat);
            &&& c.bytes@ == hex_bytes(b)
            &&& c.byte@ == prefixed_hex(b[0] as nat, 2) + "   "@ + decimal(b[0] as nat)
            &&& (b.len() >= 2 ==> (c.word matches Some(x) && x@ == prefixed_hex(w, 4) + "   "@
                + decimal(w)))
            &&& (b.len() >= 2 ==> (c.signed matches Some(x) && x@ == signed_text(
                if w < 32768 {
                    w as int
                } else {
                    w - 65536
                },
            )))
            &&& (b.len() < 2 ==> c.word is None && c.signed is None)
            &&& (b.len() >= 4 ==> (c.dword matches Some(x) && x@ == prefixed_hex(d, 8) + "   "@
                + decimal(d)))
            &&& (b.len() >= 4 ==> (c.far matches Some(x) && x@ == hex_padded(d / 65536, 4) + ":"@
                + hex_padded(d % 65536, 4)))
            &&& (b.len() < 4 ==> c.dword is None && c.far is None)
            &&& c.ascii@ == b.map_values(|x: u8| cursor_char(x))
        },
{
    let start = offset as usize;
    if start >= data.len() {
        return None;
    }
    let end = if data.len() - start > 8 {
        start + 8
    } else {
        data.len()
    };
    let ghost b = cursor_bytes(data@, offset as nat);
    let mut hexv: Vec<char> = Vec::new();
    let mut text = String::new();
    let mut i: usize = start;
    while i < end
        invariant
            start <= i <= end <= data.len(),
            start == offset,
            b == data@.subrange(start as int, end as int),
            hexv@ == hex_bytes(b.take(i - start)),
            text@ == b.take(i - start).map_values(|x: u8| cursor_char(x)),
        decreases end - i,
    {
        let x = data[i];
        extend(&mut hexv, &fmt_hex_padded(x as u64, 2));
        extend_str(&mut hexv, " ");
        let c = if 0x20 <= x && x < 0x7F {
            x as char
        } else {
            '\u{b7}'
        };
        push_char(&mut text, c);
        proof {
            let k = i - start;
            assert(b.take(k + 1).drop_last() =~= b.take(k));
            assert(b.take(k + 1).map_values(|x: u8| cursor_char(x)) =~= b.take(k).map_values(
                |x: u8| cursor_char(x),
            ).push(cursor_char(x)));
        }
        i = i + 1;
    }
    proof {
        assert(b.take(end - start) =~= b);
    }
    let n = end - start;
    let b0 = data[start] as u64;
    let byte = number_pair(b0, 2);
    let (word, signed) = if n >= 2 {
        let w: u64 = b0 + 256 * (data[start + 1] as u64);
        (Some(number_pair(w, 4)), Some(signed_word(w)))
    } else {
        (None, None)
    };
    let (dword, far) = if n >= 4 {
        let w: u64 = b0 + 256 * (data[start + 1] as u64);
        let d: u64 = w + 65536 * (data[start + 2] as u64 + 256 * (data[start + 3] as u64));
        (Some(number_pair(d, 8)), Some(far_pointer(d)))
    } else {
        (None, None)
    };
    Some(CursorData { bytes: string_of(&hexv), byte, word, signed, dword, far, ascii: text })
}

/// `n` as `{:#x}` formats it: `0x` and lower-case hexadecimal digits.
pub open spec fn alt_hex(n: nat) -> Seq<char> {
    "0x"@ + lower(hex(n))
}

/// The title of a dump of bytes `start..end`: `segment n` or `file`, then
/// the range.
pub open spec fn dump_title_text(segment: Option<u16>, start: nat, end: nat) -> Seq<char> {
    let what = match segment {
        Some(n) => "segment "@ + decimal(n as nat),
        None => "file"@,
    };
    what + " "@ + alt_hex(start) + ".."@ + alt_hex(end)
}

/// The title of a dump of bytes `start..end` of segment `segment`, or of
/// the file when there is none.
pub fn dump_title(segment: Option<u16>, start: u64, end: u64) -> (r: String)
    ensures
        r@ == dump_title_text(segment, start as nat, end as nat),
{
    let mut v: Vec<char> = Vec::new();
    match segment {
        Some(n) => {
            extend_str(&mut v, "segment ");
            extend(&mut v, &fmt_decimal(n as u64));
        },
        None => extend_str(&mut v, "file"),
    }
    extend_str(&mut v, " 0x");
    extend(&mut v, &to_lower(fmt_hex(start).as_slice()));
    extend_str(&mut v, "..0x");
    extend(&mut v, &to_lower(fmt_hex(end).as_slice()));
    proof {
        reveal_strlit("segment ");
        reveal_strlit("file");
        reveal_strlit(" 0x");
        reveal_strlit("..0x");
        reveal_strlit(" ");
        reveal_strlit("0x");
        reveal_strlit("..");
        let what = match segment {
            Some(n) => "segment "@ + decimal(n as nat),
            None => "file"@,
        };
        assert(v@ =~= what + " "@ + alt_hex(start as nat) + ".."@ + alt_hex(end as nat));
    }
    string_of(&v)
}

proof fn lemma_cells_len(chunk: Seq<u8>, n: nat)
    requires
        n <= 16,
        forall|i: int| 0 <= i < chunk.len() ==> hex_padded(#[trigger] chunk[i] as nat, 2).len() == 2,
    ensures
        cells(chunk, n).len() == 3 * n + if n >= 8 { 1int } else { 0int },
    decreases n,
{
    reveal_strlit(" ");
    reveal_strlit("   ");
    if n > 0 {
        lemma_cells_len(chunk, (n - 1) as nat);
        if n - 1 < chunk.len() {
            assert(hex_padded(chunk[n - 1] as nat, 2).len() == 2);
        }
    }
}

proof fn lemma_byte_hex_len(b: u8)
    ensures
        hex_padded(b as nat, 2).len() == 2,
{
    let n = b as nat;
    if n >= 16 {
        assert(n / 16 < 16);
        assert(hex(n).len() == hex(n / 16).len() + 1);
    }
}

/// The gutter of a dump shows each byte of printable ASCII (`0x20` to
/// `0x7E`) as that very character and every other byte as `.`: in the
/// first row, the gutter begins just after the sixteen columns and the bar
/// and holds one character per byte of the row.
pub proof fn lemma_gutter_shows_printable_bytes(data: Seq<u8>, base: nat, j: int)
    requires
        0 <= j < data.len(),
        j < 16,
    ensures
        ({
            let t = dump_text(data, base);
            let at = hex_padded(base, 8).len() + 53 + j;
            &&& at < t.len()
            &&& 0x20 <= data[j] < 0x7F ==> t[at] == data[j] as char
            &&& !(0x20 <= data[j] < 0x7F) ==> t[at] == '.'
        }),
{
    reveal_strlit("  ");
    reveal_strlit(" |");
    reveal_strlit("|\n");
    let chunk = if data.len() <= 16 {
        data
    } else {
        data.take(16)
    };
    assert forall|i: int| 0 <= i < chunk.len() implies hex_padded(#[trigger] chunk[i] as nat, 2).len()
        == 2 by {
        lemma_byte_hex_len(chunk[i]);
    }
    lemma_cells_len(chunk, 16);
    let row = dump_row(chunk, base);
    let head = hex_padded(base, 8) + "  "@ + cells(chunk, 16) + " |"@;
    let g = chunk.map_values(|b: u8| gutter_char(b));
    assert(head.len() == hex_padded(base, 8).len() + 53);
    assert(row == head + g + "|\n"@);
    assert(row[head.len() + j] == g[j]);
    assert(chunk[j] == data[j]);
    if data.len() > 16 {
        let t = dump_text(data, base);
        assert(t == row + dump_text(data.skip(16), base + 16));
        assert(t[head.len() + j] == row[head.len() + j]);
    }
}

} // verus!
