//! What the disassembly listing does with its lines: where following one
//! leads, and the text written when the listing is saved.

use vstd::prelude::*;
use crate::nav::Addr;
use crate::text::{
    chars_of, decimal, decimal_padded, extend, extend_str, fmt_decimal, fmt_decimal_padded,
    fmt_hex_padded, hex_padded, string_of,
};

verus! {

/// Where a fixup points.
#[derive(Debug, PartialEq, Eq)]
#[allow(inconsistent_fields)]
pub enum FixupTarget {
    /// A place in one of the binary's own segments; the offset is missing
    /// when it could not be recovered.
    Internal { segment: u16, offset: Option<u16> },
    /// An entry of the binary's own entry table.
    Entry { segment: u16, offset: u16 },
    /// A symbol imported by ordinal.
    ImportOrdinal { module: String, ordinal: u16 },
    /// A symbol imported by name.
    ImportName { module: String, name: String },
    /// Anything else, by the text the target is shown as.
    Other { shown: String },
}

/// What following a line does.
#[derive(Debug, PartialEq, Eq)]
pub enum Follow {
    /// Go to an address of this binary.
    Goto(Addr),
    /// Open the module that exports the symbol, at the export.
    OpenModule { module: String, ordinal: Option<u16>, name: Option<String> },
    /// Show the call sites of the target.
    Xrefs(String),
}

/// Where a target as values leads.
pub enum FollowV {
    Goto(Addr),
    OpenModule { module: Seq<char>, ordinal: Option<u16>, name: Option<Seq<char>> },
    Xrefs(Seq<char>),
}

impl View for Follow {
    type V = FollowV;

    open spec fn view(&self) -> FollowV {
        match self {
            Follow::Goto(a) => FollowV::Goto(*a),
            Follow::OpenModule { module, ordinal, name } => FollowV::OpenModule {
                module: module@,
                ordinal: *ordinal,
                name: match name {
                    Some(n) => Some(n@),
                    None => None,
                },
            },
            Follow::Xrefs(s) => FollowV::Xrefs(s@),
        }
    }
}

/// Where following a fixup target leads: an address of this binary goes
/// there; an imported symbol opens the module that exports it (or its call
/// sites, when the workspace does not have it); anything else, including a
/// place whose offset is unknown, shows its call sites under the text
/// `shown` that the target is displayed as.
pub open spec fn target_follow(t: FixupTarget, shown: Seq<char>) -> FollowV {
    match t {
        FixupTarget::Internal { segment, offset: Some(o) } => FollowV::Goto(
            Addr { segment, offset: o as u32 },
        ),
        FixupTarget::Entry { segment, offset } => FollowV::Goto(
            Addr { segment, offset: offset as u32 },
        ),
        FixupTarget::ImportOrdinal { module, ordinal } => FollowV::OpenModule {
            module: module@,
            ordinal: Some(ordinal),
            name: None,
        },
        FixupTarget::ImportName { module, name } => FollowV::OpenModule {
            module: module@,
            ordinal: None,
            name: Some(name@),
        },
        _ => FollowV::Xrefs(shown),
    }
}

/// What clicking a fixup target does. `shown` is the text the target is
/// displayed as, which names it in the cross-reference view.
pub fn target_action(target: &FixupTarget, shown: &str) -> (r: Follow)
    ensures
        r@ == target_follow(*target, shown@),
{
    match target {
        FixupTarget::Internal { segment, offset: Some(o) } => Follow::Goto(
            Addr { segment: *segment, offset: *o as u32 },
        ),
        FixupTarget::Entry { segment, offset } => Follow::Goto(
            Addr { segment: *segment, offset: *offset as u32 },
        ),
        FixupTarget::ImportOrdinal { module, ordinal } => Follow::OpenModule {
            module: module.clone(),
            ordinal: Some(*ordinal),
            name: None,
        },
        FixupTarget::ImportName { module, name } => Follow::OpenModule {
            module: module.clone(),
            ordinal: None,
            name: Some(name.clone()),
        },
        _ => Follow::Xrefs(String::from_str(shown)),
    }
}

/// Where following the selected instruction leads: its fixup's target when
/// it has one, else the near address it jumps or calls to in the same
/// segment, else nowhere.
pub fn follow_line(fixup: Option<(&FixupTarget, &str)>, near: Option<u32>, segment: u16) -> (r:
    Option<Follow>)
    ensures
        match fixup {
            Some((t, shown)) => r matches Some(f) && f@ == target_follow(*t, shown@),
            None => match near {
                Some(off) => r matches Some(f) && f@ == FollowV::Goto(
                    Addr { segment, offset: off },
                ),
                None => r is None,
            },
        },
{
    match fixup {
        Some((t, shown)) => Some(target_action(t, shown)),
        None => match near {
            Some(off) => Some(Follow::Goto(Addr { segment, offset: off })),
            None => None,
        },
    }
}

/// The name a function is shown under at `off`, if one starts there: the
/// last one listed for that offset, as a map built from the list keeps it.
pub open spec fn label_at(labels: Seq<(u32, Seq<char>)>, off: u32) -> Option<Seq<char>>
    decreases labels.len(),
{
    if labels.len() == 0 {
        None
    } else if labels.last().0 == off {
        Some(labels.last().1)
    } else {
        label_at(labels.drop_last(), off)
    }
}

/// The body of a saved listing: each instruction line, preceded by a blank
/// line and `name:` where a function starts.
pub open spec fn listing_body(rows: Seq<(u32, Seq<char>)>, labels: Seq<(u32, Seq<char>)>) -> Seq<
    char,
>
    decreases rows.len(),
{
    if rows.len() == 0 {
        Seq::empty()
    } else {
        let r = rows.last();
        listing_body(rows.drop_last(), labels) + match label_at(labels, r.0) {
            Some(n) => "\n"@ + n + ":\n"@,
            None => Seq::empty(),
        } + r.1 + "\n"@
    }
}

/// Values of pairs of an offset and a string.
pub open spec fn rows_view(v: Seq<(u32, String)>) -> Seq<(u32, Seq<char>)> {
    v.map_values(|x: (u32, String)| (x.0, x.1@))
}

fn find_label(labels: &Vec<(u32, String)>, off: u32) -> (r: Option<&String>)
    ensures
        match label_at(rows_view(labels@), off) {
            Some(n) => r matches Some(s) && s@ == n,
            None => r is None,
        },
{
    let mut i: usize = labels.len();
    assert(labels@.take(i as int) =~= labels@);
    while i > 0
        invariant
            i <= labels.len(),
            label_at(rows_view(labels@), off) == label_at(rows_view(labels@.take(i as int)), off),
        decreases i,
    {
        let ghost t = rows_view(labels@.take(i as int));
        assert(t.drop_last() =~= rows_view(labels@.take(i - 1)));
        if labels[i - 1].0 == off {
            return Some(&labels[i - 1].1);
        }
        i = i - 1;
    }
    assert(rows_view(labels@.take(0)) =~= Seq::<(u32, Seq<char>)>::empty());
    None
}

/// The text of a saved listing: a comment naming the module, the segment
/// and its bitness, then the lines. `rows` are the instructions' offsets
/// and rendered lines in order; `labels` the function names by offset.
pub fn listing_text(
    module: &str,
    segment: u16,
    bits: u32,
    rows: &Vec<(u32, String)>,
    labels: &Vec<(u32, String)>,
) -> (r: String)
    ensures
        r@ == "; "@ + module@ + " segment "@ + decimal(segment as nat) + " ("@ + decimal(
            bits as nat,
        ) + "-bit)\n"@ + listing_body(rows_view(rows@), rows_view(labels@)),
{
    let ghost head = "; "@ + module@ + " segment "@ + decimal(segment as nat) + " ("@ + decimal(
        bits as nat,
    ) + "-bit)\n"@;
    let mut out: Vec<char> = Vec::new();
    extend_str(&mut out, "; ");
    extend_str(&mut out, module);
    extend_str(&mut out, " segment ");
    extend(&mut out, &fmt_decimal(segment as u64));
    extend_str(&mut out, " (");
    extend(&mut out, &fmt_decimal(bits as u64));
    extend_str(&mut out, "-bit)\n");
    assert(out@ =~= head);
    let ghost lv = rows_view(labels@);
    let mut i: usize = 0;
    while i < rows.len()
        invariant
            i <= rows.len(),
            lv == rows_view(labels@),
            out@ == head + listing_body(rows_view(rows@.take(i as int)), lv),
        decreases rows.len() - i,
    {
        let ghost before = out@;
        let off = rows[i].0;
        match find_label(labels, off) {
            Some(name) => {
                extend_str(&mut out, "\n");
                extend_str(&mut out, name.as_str());
                extend_str(&mut out, ":\n");
            },
            None => {},
        }
        extend_str(&mut out, rows[i].1.as_str());
        extend_str(&mut out, "\n");
        proof {
            let t = rows_view(rows@.take(i + 1));
            assert(t.drop_last() =~= rows_view(rows@.take(i as int)));
            assert(t.last() == (rows@[i as int].0, rows@[i as int].1@));
            let lab = match label_at(lv, off) {
                Some(n) => "\n"@ + n + ":\n"@,
                None => Seq::<char>::empty(),
            };
            assert(out@ =~= before + lab + rows@[i as int].1@ + "\n"@);
        }
        i = i + 1;
    }
    assert(rows@.take(rows.len() as int) =~= rows@);
    string_of(&out)
}

/// The file name offered for a saved listing: `MODULE_segNN.asm`.
pub fn listing_file_name(module: &str, segment: u16) -> (r: String)
    ensures
        r@ == module@ + "_seg"@ + decimal_padded(segment as nat, 2) + ".asm"@,
{
    let mut v = chars_of(module);
    extend_str(&mut v, "_seg");
    extend(&mut v, &fmt_decimal_padded(segment as u64, 2));
    extend_str(&mut v, ".asm");
    string_of(&v)
}

/// The status line after following an import into the module that exports
/// it: `MODULE.Name at segNN:OOOO`, the export named by its ordinal when it
/// has no name.
pub fn export_status(module: &str, name: Option<&str>, ordinal: u16, segment: u16, offset: u16) -> (r:
    String)
    ensures
        r@ == module@ + "."@ + match name {
            Some(n) => n@,
            None => "@"@ + decimal(ordinal as nat),
        } + " at seg"@ + decimal_padded(segment as nat, 2) + ":"@ + hex_padded(offset as nat, 4),
{
    let mut v = chars_of(module);
    extend_str(&mut v, ".");
    match name {
        Some(n) => extend_str(&mut v, n),
        None => {
            extend_str(&mut v, "@");
            extend(&mut v, &fmt_decimal(ordinal as u64));
        },
    }
    extend_str(&mut v, " at seg");
    extend(&mut v, &fmt_decimal_padded(segment as u64, 2));
    extend_str(&mut v, ":");
    extend(&mut v, &fmt_hex_padded(offset as u64, 4));
    string_of(&v)
}

/// The error when an imported module is not in the workspace.
pub fn module_missing(module: &str, known: usize) -> (r: String)
    ensures
        r@ == module@ + " is not among the "@ + decimal(known as nat)
            + " modules found beside this file"@,
{
    let mut v = chars_of(module);
    extend_str(&mut v, " is not among the ");
    extend(&mut v, &fmt_decimal(known as u64));
    extend_str(&mut v, " modules found beside this file");
    string_of(&v)
}

/// A row of the disassembly listing: a function's banner, by the
/// function's position, or an instruction, by its position.
#[derive(Debug, Clone, Copy, PartialEq, Eq, Structural)]
pub enum Row {
    Header(usize),
    Insn(usize),
}

/// The function that starts at `off`: the last of `starts` (offset and
/// function position) that does.
pub open spec fn func_at(starts: Seq<(u32, usize)>, off: u32) -> Option<usize>
    decreases starts.len(),
{
    if starts.len() == 0 {
        None
    } else if starts.last().0 == off {
        Some(starts.last().1)
    } else {
        func_at(starts.drop_last(), off)
    }
}

/// The rows for the first `n` instructions, at offsets `offs`: a banner
/// before each instruction a function starts at, then the instruction.
pub open spec fn rows_upto(offs: Seq<u32>, starts: Seq<(u32, usize)>, n: int) -> Seq<Row>
    decreases n,
{
    if n <= 0 {
        Seq::empty()
    } else {
        let before = rows_upto(offs, starts, n - 1);
        match func_at(starts, offs[n - 1]) {
            Some(f) => before.push(Row::Header(f)).push(Row::Insn((n - 1) as usize)),
            None => before.push(Row::Insn((n - 1) as usize)),
        }
    }
}

proof fn lemma_rows_upto_len(offs: Seq<u32>, starts: Seq<(u32, usize)>, n: int)
    requires
        0 <= n,
    ensures
        n <= rows_upto(offs, starts, n).len() <= 2 * n,
    decreases n,
{
    if n > 0 {
        lemma_rows_upto_len(offs, starts, n - 1);
    }
}

fn func_at_exec(starts: &Vec<(u32, usize)>, off: u32) -> (r: Option<usize>)
    ensures
        r == func_at(starts@, off),
{
    let mut k = starts.len();
    assert(starts@.take(k as int) =~= starts@);
    while k > 0
        invariant
            k <= starts.len(),
            func_at(starts@, off) == func_at(starts@.take(k as int), off),
        decreases k,
    {
        let ghost t = starts@.take(k as int);
        assert(t.drop_last() =~= starts@.take(k - 1));
        if starts[k - 1].0 == off {
            return Some(starts[k - 1].1);
        }
        k = k - 1;
    }
    assert(starts@.take(0) =~= Seq::<(u32, usize)>::empty());
    None
}

/// The listing's rows for instructions at offsets `offs`, with functions
/// starting where `starts` says, and the row of each instruction.
pub fn listing_rows(offs: &Vec<u32>, starts: &Vec<(u32, usize)>) -> (r: (Vec<Row>, Vec<usize>))
    requires
        offs.len() <= usize::MAX / 2,
    ensures
        r.0@ == rows_upto(offs@, starts@, offs.len() as int),
        r.1.len() == offs.len(),
        forall|i: int|
            0 <= i < offs.len() ==> #[trigger] r.1@[i] == rows_upto(offs@, starts@, i + 1).len() - 1,
{
    let mut rows: Vec<Row> = Vec::new();
    let mut row_of: Vec<usize> = Vec::new();
    let mut i: usize = 0;
    while i < offs.len()
        invariant
            i <= offs.len(),
            offs.len() <= usize::MAX / 2,
            rows@ == rows_upto(offs@, starts@, i as int),
            row_of.len() == i,
            forall|k: int| 0 <= k < i ==> #[trigger] row_of@[k] == rows_upto(offs@, starts@, k + 1).len() - 1,
        decreases offs.len() - i,
    {
        proof {
            lemma_rows_upto_len(offs@, starts@, i as int);
        }
        match func_at_exec(starts, offs[i]) {
            Some(f) => rows.push(Row::Header(f)),
            None => {},
        }
        row_of.push(rows.len());
        rows.push(Row::Insn(i));
        i = i + 1;
    }
    (rows, row_of)
}

/// Among the first `n` instructions, the one a scroll to `target` lands on:
/// the lowest offset at or past it, the last such instruction when several
/// share it.
pub open spec fn landing(offs: Seq<u32>, target: u32, n: int) -> Option<int>
    decreases n,
{
    if n <= 0 {
        None
    } else {
        let b = landing(offs, target, n - 1);
        if offs[n - 1] >= target && (b matches Some(k) ==> offs[n - 1] <= offs[k]) {
            Some(n - 1)
        } else {
            b
        }
    }
}

/// The row a listing scrolled to `target` shows at the top: five rows above
/// the row of the instruction it lands on (row 0 when there is none), so
/// the target is not flush against the edge.
pub open spec fn scroll_top(offs: Seq<u32>, row_of: Seq<usize>, target: u32) -> int {
    let row: int = match landing(offs, target, offs.len() as int) {
        Some(i) => row_of[i] as int,
        None => 0,
    };
    if row >= 5 {
        row - 5
    } else {
        0
    }
}

/// The row a listing scrolled to `target` shows at the top.
pub fn scroll_top_row(offs: &Vec<u32>, row_of: &Vec<usize>, target: u32) -> (r: usize)
    requires
        row_of.len() == offs.len(),
    ensures
        r == scroll_top(offs@, row_of@, target),
{
    let mut best: Option<usize> = None;
    let mut i: usize = 0;
    while i < offs.len()
        invariant
            i <= offs.len(),
            row_of.len() == offs.len(),
            match best {
                Some(b) => landing(offs@, target, i as int) == Some(b as int) && b < i,
                None => landing(offs@, target, i as int) is None,
            },
        decreases offs.len() - i,
    {
        let take = match best {
            Some(b) => offs[i] >= target && offs[i] <= offs[b],
            None => offs[i] >= target,
        };
        if take {
            best = Some(i);
        }
        i = i + 1;
    }
    let row = match best {
        Some(b) => row_of[b],
        None => 0,
    };
    if row >= 5 {
        row - 5
    } else {
        0
    }
}

} // verus!
