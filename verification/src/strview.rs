//! The strings browser: which printable runs it lists, in what order, and
//! what it copies.
//!
//! A string is worth more once it is tied to the code that loads it, so the
//! strings that code refers to come first.

use vstd::prelude::*;
use crate::nav::{address_label, address_text, Addr};
use crate::text::{
    chars_of, contains, contains_chars, decimal, extend, extend_str, fmt_decimal, lower,
    string_of, to_lower,
};

verus! {

/// A printable run found in a segment, with how many places in the code
/// load its address.
#[derive(Debug)]
pub struct StringRow {
    pub segment: u16,
    pub offset: u32,
    pub text: String,
    pub refs: usize,
}

/// A row as values.
pub struct StringRowV {
    pub segment: u16,
    pub offset: u32,
    pub text: Seq<char>,
    pub refs: nat,
}

impl View for StringRow {
    type V = StringRowV;

    open spec fn view(&self) -> StringRowV {
        StringRowV { segment: self.segment, offset: self.offset, text: self.text@, refs: self.refs as nat }
    }
}

/// Rows as values.
pub open spec fn rows_view(v: Seq<StringRow>) -> Seq<StringRowV> {
    v.map_values(|r: StringRow| r@)
}

/// Whether a string passes the filter: no filter, or its text contains the
/// filter, both compared in ASCII lower case.
pub open spec fn row_shown(filter: Seq<char>, text: Seq<char>) -> bool {
    lower(filter).len() == 0 || contains(lower(text), lower(filter))
}

/// Row `i` is listed before row `j`: more references first, then by
/// segment, then by offset, then in the order found.
pub open spec fn row_before(rows: Seq<StringRowV>, i: int, j: int) -> bool {
    let (a, b) = (rows[i], rows[j]);
    ||| a.refs > b.refs
    ||| (a.refs == b.refs && a.segment < b.segment)
    ||| (a.refs == b.refs && a.segment == b.segment && a.offset < b.offset)
    ||| (a.refs == b.refs && a.segment == b.segment && a.offset == b.offset && i < j)
}

fn comes_before(rows: &Vec<StringRow>, i: usize, j: usize) -> (r: bool)
    requires
        i < rows.len(),
        j < rows.len(),
    ensures
        r == row_before(rows_view(rows@), i as int, j as int),
{
    let (a, b) = (&rows[i], &rows[j]);
    a.refs > b.refs || (a.refs == b.refs && a.segment < b.segment) || (a.refs == b.refs
        && a.segment == b.segment && a.offset < b.offset) || (a.refs == b.refs && a.segment
        == b.segment && a.offset == b.offset && i < j)
}

fn passes(filter: &Vec<char>, text: &str) -> (r: bool)
    ensures
        r == (filter@.len() == 0 || contains(lower(text@), filter@)),
{
    if filter.len() == 0 {
        return true;
    }
    let t = to_lower(&chars_of(text));
    contains_chars(&t, filter)
}

/// The rows the browser lists under `filter`, as positions in `rows`,
/// referenced strings first.
pub fn strings_order(rows: &Vec<StringRow>, filter: &str) -> (r: Vec<usize>)
    ensures
        forall|a: int| 0 <= a < r.len() ==> r@[a] < rows.len() && row_shown(
            filter@,
            rows@[r@[a] as int].text@,
        ),
        forall|i: usize|
            i < rows.len() && row_shown(filter@, rows@[i as int].text@) ==> #[trigger] r@.contains(
                i,
            ),
        forall|a: int, b: int|
            0 <= a < b < r.len() ==> row_before(rows_view(rows@), r@[a] as int, r@[b] as int),
{
    let ghost f = rows_view(rows@);
    let needle = to_lower(&chars_of(filter));
    let n = rows.len();
    let mut out: Vec<usize> = Vec::new();
    let mut j: usize = 0;
    while j < n
        invariant
            j <= n,
            n == rows.len(),
            f == rows_view(rows@),
            needle@ == lower(filter@),
            forall|a: int| 0 <= a < out.len() ==> out@[a] < j && row_shown(
                filter@,
                rows@[out@[a] as int].text@,
            ),
            forall|k: usize|
                k < j && row_shown(filter@, rows@[k as int].text@) ==> #[trigger] out@.contains(k),
            forall|a: int, b: int|
                0 <= a < b < out.len() ==> row_before(f, out@[a] as int, out@[b] as int),
        decreases n - j,
    {
        if passes(&needle, rows[j].text.as_str()) {
            let mut pos: usize = 0;
            while pos < out.len() && comes_before(rows, out[pos], j)
                invariant
                    pos <= out.len(),
                    j < n,
                    n == rows.len(),
                    f == rows_view(rows@),
                    forall|a: int| 0 <= a < out.len() ==> out@[a] < j,
                    forall|a: int| 0 <= a < pos ==> row_before(f, #[trigger] out@[a] as int, j as int),
                decreases out.len() - pos,
            {
                pos = pos + 1;
            }
            proof {
                if pos < out.len() {
                    let o = out@[pos as int] as int;
                    assert(row_before(f, j as int, o));
                    assert forall|a: int| pos <= a < out.len() implies row_before(
                        f,
                        j as int,
                        #[trigger] out@[a] as int,
                    ) by {
                        if a > pos {
                            assert(row_before(f, o, out@[a] as int));
                        }
                    }
                }
            }
            let ghost before = out@;
            out.insert(pos, j);
            proof {
                assert forall|a: int, b: int| 0 <= a < b < out.len() implies row_before(
                    f,
                    out@[a] as int,
                    out@[b] as int,
                ) by {
                    if a < pos && b > pos {
                        assert(out@[b] == before[b - 1]);
                    } else if a > pos {
                        assert(out@[a] == before[a - 1]);
                        assert(out@[b] == before[b - 1]);
                    }
                }
                assert forall|k: usize|
                    k < j + 1 && row_shown(filter@, rows@[k as int].text@) implies #[trigger] out@.contains(
                    k,
                ) by {
                    if k < j {
                        assert(before.contains(k));
                        let a = choose|a: int| 0 <= a < before.len() && before[a] == k;
                        if a < pos {
                            assert(out@[a] == k);
                        } else {
                            assert(out@[a + 1] == k);
                        }
                    } else {
                        assert(out@[pos as int] == k);
                    }
                }
                assert forall|a: int| 0 <= a < out.len() implies out@[a] < j + 1 && row_shown(
                    filter@,
                    rows@[out@[a] as int].text@,
                ) by {
                    if a < pos {
                        assert(out@[a] == before[a]);
                    } else if a > pos {
                        assert(out@[a] == before[a - 1]);
                    }
                }
            }
        } else {
            proof {
                assert forall|k: usize|
                    k < j + 1 && row_shown(filter@, rows@[k as int].text@) implies #[trigger] out@.contains(
                    k,
                ) by {
                    if k == j {
                        assert(false);
                    }
                }
            }
        }
        j = j + 1;
    }
    out
}

/// How many of the listed rows code refers to.
pub open spec fn referenced(rows: Seq<StringRowV>, order: Seq<usize>) -> nat
    decreases order.len(),
{
    if order.len() == 0 {
        0
    } else {
        referenced(rows, order.drop_last()) + if rows[order.last() as int].refs > 0 {
            1nat
        } else {
            0nat
        }
    }
}

/// The line above the list: how many strings are listed and how many of
/// them code refers to.
pub fn strings_header(rows: &Vec<StringRow>, order: &Vec<usize>) -> (r: String)
    requires
        forall|a: int| 0 <= a < order.len() ==> order@[a] < rows.len(),
    ensures
        r@ == decimal(order.len() as nat) + " strings, "@ + decimal(
            referenced(rows_view(rows@), order@),
        ) + " referenced from code"@,
{
    let mut k: usize = 0;
    let mut i: usize = 0;
    while i < order.len()
        invariant
            i <= order.len(),
            k <= i,
            forall|a: int| 0 <= a < order.len() ==> order@[a] < rows.len(),
            k == referenced(rows_view(rows@), order@.take(i as int)),
        decreases order.len() - i,
    {
        assert(order@.take(i + 1).drop_last() =~= order@.take(i as int));
        if rows[order[i]].refs > 0 {
            k = k + 1;
        }
        i = i + 1;
    }
    assert(order@.take(order.len() as int) =~= order@);
    let mut v = fmt_decimal(order.len() as u64);
    extend_str(&mut v, " strings, ");
    extend(&mut v, &fmt_decimal(k as u64));
    extend_str(&mut v, " referenced from code");
    string_of(&v)
}

/// What "Copy all" puts on the clipboard: one line per listed string, its
/// address, a tab and its text.
pub open spec fn copied(rows: Seq<StringRowV>, order: Seq<usize>) -> Seq<char>
    decreases order.len(),
{
    if order.len() == 0 {
        Seq::empty()
    } else {
        let r = rows[order.last() as int];
        copied(rows, order.drop_last()) + address_text(Addr { segment: r.segment, offset: r.offset })
            + "\t"@ + r.text + "\n"@
    }
}

/// The text "Copy all" puts on the clipboard.
pub fn strings_copy_text(rows: &Vec<StringRow>, order: &Vec<usize>) -> (r: String)
    requires
        forall|a: int| 0 <= a < order.len() ==> order@[a] < rows.len(),
    ensures
        r@ == copied(rows_view(rows@), order@),
{
    let mut v: Vec<char> = Vec::new();
    let mut i: usize = 0;
    while i < order.len()
        invariant
            i <= order.len(),
            forall|a: int| 0 <= a < order.len() ==> order@[a] < rows.len(),
            v@ == copied(rows_view(rows@), order@.take(i as int)),
        decreases order.len() - i,
    {
        let ghost before = v@;
        let row = &rows[order[i]];
        let addr = address_label(Addr { segment: row.segment, offset: row.offset });
        extend_str(&mut v, addr.as_str());
        extend_str(&mut v, "\t");
        extend_str(&mut v, row.text.as_str());
        extend_str(&mut v, "\n");
        proof {
            assert(order@.take(i + 1).drop_last() =~= order@.take(i as int));
        }
        i = i + 1;
    }
    assert(order@.take(order.len() as int) =~= order@);
    string_of(&v)
}

/// Whether a row's text passes a view's filter: no filter, or the text
/// contains it, both in ASCII lower case.
pub fn filter_hit(filter: &str, text: &str) -> (r: bool)
    ensures
        r == row_shown(filter@, text@),
{
    let needle = to_lower(&chars_of(filter));
    passes(&needle, text)
}

/// The line above a segment's relocation list: records, the patch sites
/// their chains expand to, and how many the filter lets through.
pub fn fixups_header(records: usize, sites: usize, shown: usize) -> (r: String)
    ensures
        r@ == decimal(records as nat) + " relocation records \u{2192} "@ + decimal(sites as nat)
            + " patch sites, "@ + decimal(shown as nat) + " shown"@,
{
    let mut v = fmt_decimal(records as u64);
    extend_str(&mut v, " relocation records \u{2192} ");
    extend(&mut v, &fmt_decimal(sites as u64));
    extend_str(&mut v, " patch sites, ");
    extend(&mut v, &fmt_decimal(shown as u64));
    extend_str(&mut v, " shown");
    string_of(&v)
}

/// The header's count of referenced strings is the number of listed rows
/// that code refers to at least once.
pub proof fn lemma_referenced_counts_rows(rows: Seq<StringRowV>, order: Seq<usize>)
    ensures
        referenced(rows, order) == order.filter(|k: usize| rows[k as int].refs >= 1).len(),
    decreases order.len(),
{
    reveal(Seq::filter);
    if order.len() > 0 {
        lemma_referenced_counts_rows(rows, order.drop_last());
    }
}

} // verus!
