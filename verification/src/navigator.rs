//! The navigator's function list: the functions the filter lets through,
//! grouped by segment as the listing is organised, named ones first.

use vstd::prelude::*;
use crate::order::{lemma_lex_total, lemma_lex_transitive, lex_lt, str_lt};
use crate::strview::{filter_hit, row_shown};
use crate::text::str_eq;

verus! {

/// A function as the navigator lists it.
#[derive(Debug)]
pub struct FnEntry {
    pub segment: u16,
    /// Whether the function has a name of its own (an export, or one the
    /// user gave it), rather than one made up from its address.
    pub named: bool,
    /// The name it is listed under.
    pub label: String,
    /// Its address as text.
    pub addr: String,
}

/// An entry as values.
pub struct FnEntryV {
    pub segment: u16,
    pub named: bool,
    pub label: Seq<char>,
    pub addr: Seq<char>,
}

impl View for FnEntry {
    type V = FnEntryV;

    open spec fn view(&self) -> FnEntryV {
        FnEntryV { segment: self.segment, named: self.named, label: self.label@, addr: self.addr@ }
    }
}

/// Entries as values.
pub open spec fn entries_view(v: Seq<FnEntry>) -> Seq<FnEntryV> {
    v.map_values(|e: FnEntry| e@)
}

/// Whether the filter keeps an entry: by its label or by its address.
pub open spec fn kept_fn(filter: Seq<char>, e: FnEntryV) -> bool {
    row_shown(filter, e.label) || row_shown(filter, e.addr)
}

/// Entry `i` is listed before entry `j` of the same segment: named ones
/// first, then by label, then in the order given.
pub open spec fn fn_before(fs: Seq<FnEntryV>, i: int, j: int) -> bool {
    let (a, b) = (fs[i], fs[j]);
    ||| (a.named && !b.named)
    ||| (a.named == b.named && lex_lt(a.label, b.label))
    ||| (a.named == b.named && a.label == b.label && i < j)
}

proof fn lemma_fn_before_transitive(fs: Seq<FnEntryV>, i: int, j: int, k: int)
    requires
        fn_before(fs, i, j),
        fn_before(fs, j, k),
    ensures
        fn_before(fs, i, k),
{
    let (a, b, c) = (fs[i].label, fs[j].label, fs[k].label);
    if fs[i].named == fs[j].named && fs[j].named == fs[k].named && lex_lt(a, b) && lex_lt(b, c) {
        lemma_lex_transitive(a, b, c);
    }
}

fn before_exec(fs: &Vec<FnEntry>, i: usize, j: usize) -> (r: bool)
    requires
        i < fs.len(),
        j < fs.len(),
    ensures
        r == fn_before(entries_view(fs@), i as int, j as int),
{
    let (a, b) = (&fs[i], &fs[j]);
    if a.named && !b.named {
        return true;
    }
    if a.named != b.named {
        return false;
    }
    if str_lt(a.label.as_str(), b.label.as_str()) {
        return true;
    }
    str_eq(a.label.as_str(), b.label.as_str()) && i < j
}

/// The groups are the segments of the kept entries, ascending, each with
/// its kept entries in listing order.
pub open spec fn is_grouping(fs: Seq<FnEntryV>, filter: Seq<char>, r: Seq<(u16, Seq<usize>)>) -> bool {
    &&& forall|a: int, b: int| 0 <= a < b < r.len() ==> r[a].0 < r[b].0
    &&& forall|a: int| 0 <= a < r.len() ==> r[a].1.len() > 0
    &&& forall|a: int, k: int|
        #![trigger r[a].1[k]]
        0 <= a < r.len() && 0 <= k < r[a].1.len() ==> r[a].1[k] < fs.len() && fs[r[a].1[k] as int].segment
            == r[a].0 && kept_fn(filter, fs[r[a].1[k] as int])
    &&& forall|i: int|
        0 <= i < fs.len() && kept_fn(filter, #[trigger] fs[i]) ==> exists|a: int|
            0 <= a < r.len() && r[a].1.contains(i as usize)
    &&& forall|a: int, k: int, l: int|
        0 <= a < r.len() && 0 <= k < l < r[a].1.len() ==> fn_before(
            fs,
            r[a].1[k] as int,
            r[a].1[l] as int,
        )
}

/// Groups as values.
pub open spec fn groups_view(v: Seq<(u16, Vec<usize>)>) -> Seq<(u16, Seq<usize>)> {
    v.map_values(|g: (u16, Vec<usize>)| (g.0, g.1@))
}

/// Put `j` into its place in `out`, which holds entries in listing order.
fn insert_ordered(fs: &Vec<FnEntry>, out: &mut Vec<usize>, j: usize)
    requires
        j < fs.len(),
        forall|a: int| 0 <= a < old(out).len() ==> old(out)@[a] < fs.len(),
        forall|a: int, b: int|
            0 <= a < b < old(out).len() ==> fn_before(
                entries_view(fs@),
                old(out)@[a] as int,
                old(out)@[b] as int,
            ),
        forall|a: int| 0 <= a < old(out).len() ==> old(out)@[a] != j,
    ensures
        final(out).len() == old(out).len() + 1,
        forall|a: int| 0 <= a < final(out).len() ==> final(out)@[a] < fs.len(),
        forall|a: int, b: int|
            0 <= a < b < final(out).len() ==> fn_before(
                entries_view(fs@),
                final(out)@[a] as int,
                final(out)@[b] as int,
            ),
        forall|k: usize| #[trigger] final(out)@.contains(k) <==> (old(out)@.contains(k) || k == j),
{
    let ghost f = entries_view(fs@);
    let mut pos: usize = 0;
    while pos < out.len() && before_exec(fs, out[pos], j)
        invariant
            pos <= out.len(),
            j < fs.len(),
            f == entries_view(fs@),
            forall|a: int| 0 <= a < out.len() ==> out@[a] < fs.len(),
            forall|a: int| 0 <= a < pos ==> fn_before(f, #[trigger] out@[a] as int, j as int),
        decreases out.len() - pos,
    {
        pos = pos + 1;
    }
    proof {
        if pos < out.len() {
            let o = out@[pos as int] as int;
            assert(o != j);
            if f[o].named == f[j as int].named && f[o].label != f[j as int].label {
                lemma_lex_total(f[o].label, f[j as int].label);
            }
            assert(fn_before(f, j as int, o));
            assert forall|a: int| pos <= a < out.len() implies fn_before(
                f,
                j as int,
                #[trigger] out@[a] as int,
            ) by {
                if a > pos {
                    lemma_fn_before_transitive(f, j as int, o, out@[a] as int);
                }
            }
        }
    }
    let ghost before = out@;
    out.insert(pos, j);
    proof {
        assert forall|a: int, b: int| 0 <= a < b < out.len() implies fn_before(
            f,
            out@[a] as int,
            out@[b] as int,
        ) by {
            if a < pos && b > pos {
                assert(out@[b] == before[b - 1]);
            } else if a > pos {
                assert(out@[a] == before[a - 1]);
                assert(out@[b] == before[b - 1]);
            }
        }
        assert forall|a: int| 0 <= a < out.len() implies out@[a] < fs.len() by {
            if a < pos {
                assert(out@[a] == before[a]);
            } else if a > pos {
                assert(out@[a] == before[a - 1]);
            }
        }
        assert forall|k: usize| #[trigger] out@.contains(k) <==> (before.contains(k) || k == j) by {
            if before.contains(k) {
                let a = choose|a: int| 0 <= a < before.len() && before[a] == k;
                if a < pos {
                    assert(out@[a] == k);
                } else {
                    assert(out@[a + 1] == k);
                }
            }
            if k == j {
                assert(out@[pos as int] == k);
            }
            if out@.contains(k) {
                let a = choose|a: int| 0 <= a < out@.len() && out@[a] == k;
                if a < pos {
                    assert(before[a] == k);
                } else if a > pos {
                    assert(before[a - 1] == k);
                }
            }
        }
    }
}

/// The navigator's functions under `filter`: the segments that have kept
/// functions, ascending, each with its functions as positions in `fs`.
pub fn function_groups(fs: &Vec<FnEntry>, filter: &str) -> (r: Vec<(u16, Vec<usize>)>)
    ensures
        is_grouping(entries_view(fs@), filter@, groups_view(r@)),
{
    let ghost f = entries_view(fs@);
    let n = fs.len();
    let mut out: Vec<(u16, Vec<usize>)> = Vec::new();
    let mut j: usize = 0;
    while j < n
        invariant
            j <= n,
            n == fs.len(),
            f == entries_view(fs@),
            forall|a: int, b: int| 0 <= a < b < out.len() ==> out@[a].0 < out@[b].0,
            forall|a: int| 0 <= a < out.len() ==> out@[a].1.len() > 0,
            forall|a: int, k: int|
                #![trigger out@[a].1@[k]]
                0 <= a < out.len() && 0 <= k < out@[a].1.len() ==> out@[a].1@[k] < j && f[out@[a].1@[k] as int].segment
                    == out@[a].0 && kept_fn(filter@, f[out@[a].1@[k] as int]),
            forall|i: int|
                0 <= i < j && kept_fn(filter@, #[trigger] f[i]) ==> exists|a: int|
                    0 <= a < out.len() && out@[a].1@.contains(i as usize),
            forall|a: int, k: int, l: int|
                0 <= a < out.len() && 0 <= k < l < out@[a].1.len() ==> fn_before(
                    f,
                    out@[a].1@[k] as int,
                    out@[a].1@[l] as int,
                ),
        decreases n - j,
    {
        let e = &fs[j];
        if filter_hit(filter, e.label.as_str()) || filter_hit(filter, e.addr.as_str()) {
            let seg = e.segment;
            let mut g: usize = 0;
            while g < out.len() && out[g].0 < seg
                invariant
                    g <= out.len(),
                    forall|a: int| 0 <= a < g ==> out@[a].0 < seg,
                decreases out.len() - g,
            {
                g = g + 1;
            }
            let ghost old_out = out@;
            if g < out.len() && out[g].0 == seg {
                let (s, mut members) = out.remove(g);
                proof {
                    assert forall|a: int| 0 <= a < members.len() implies members@[a] != j by {
                        assert(old_out[g as int].1@[a] < j);
                    }
                    assert forall|a: int| 0 <= a < members.len() implies members@[a] < fs.len() by {
                        assert(old_out[g as int].1@[a] < j);
                    }
                }
                let ghost old_members = members@;
                insert_ordered(fs, &mut members, j);
                out.insert(g, (s, members));
                proof {
                    assert forall|a: int, k: int|
                        #![trigger out@[a].1@[k]]
                        0 <= a < out.len() && 0 <= k < out@[a].1.len() implies out@[a].1@[k] < j + 1
                            && f[out@[a].1@[k] as int].segment == out@[a].0 && kept_fn(
                            filter@,
                            f[out@[a].1@[k] as int],
                        ) by {
                        if a != g {
                            assert(out@[a] == old_out[a]);
                        } else {
                            let m = out@[a].1@[k];
                            assert(out@[a].1@.contains(m));
                            if m != j {
                                assert(old_members.contains(m));
                                let k0 = choose|k0: int| 0 <= k0 < old_members.len() && old_members[k0] == m;
                                assert(old_out[g as int].1@[k0] == m);
                            }
                        }
                    }
                    assert forall|i: int| 0 <= i < j + 1 && kept_fn(filter@, #[trigger] f[i]) implies exists|a: int|
                        0 <= a < out.len() && out@[a].1@.contains(i as usize) by {
                        if i == j {
                            assert(out@[g as int].1@.contains(j));
                        } else {
                            let a = choose|a: int| 0 <= a < old_out.len() && old_out[a].1@.contains(i as usize);
                            if a == g {
                                assert(out@[g as int].1@.contains(i as usize));
                            } else {
                                assert(out@[a] == old_out[a]);
                            }
                        }
                    }
                    assert forall|a: int, k: int, l: int|
                        0 <= a < out.len() && 0 <= k < l < out@[a].1.len() implies fn_before(
                            f,
                            out@[a].1@[k] as int,
                            out@[a].1@[l] as int,
                        ) by {
                        if a != g {
                            assert(out@[a] == old_out[a]);
                        }
                    }
                    assert forall|a: int, b: int| 0 <= a < b < out.len() implies out@[a].0 < out@[b].0 by {
                        assert(out@[a].0 == old_out[a].0);
                        assert(out@[b].0 == old_out[b].0);
                    }
                    assert forall|a: int| 0 <= a < out.len() implies out@[a].1.len() > 0 by {
                        if a != g {
                            assert(out@[a] == old_out[a]);
                        }
                    }
                }
            } else {
                let mut members: Vec<usize> = Vec::new();
                members.push(j);
                out.insert(g, (seg, members));
                proof {
                    assert forall|a: int, b: int| 0 <= a < b < out.len() implies out@[a].0 < out@[b].0 by {
                        if a < g && b > g {
                            assert(out@[b] == old_out[b - 1]);
                        } else if a > g {
                            assert(out@[a] == old_out[a - 1]);
                            assert(out@[b] == old_out[b - 1]);
                        } else if a == g {
                            assert(out@[b] == old_out[b - 1]);
                        } else {
                            assert(out@[a] == old_out[a]);
                        }
                    }
                    assert forall|a: int| 0 <= a < out.len() implies out@[a].1.len() > 0 by {
                        if a < g {
                            assert(out@[a] == old_out[a]);
                        } else if a > g {
                            assert(out@[a] == old_out[a - 1]);
                        }
                    }
                    assert forall|a: int, k: int|
                        #![trigger out@[a].1@[k]]
                        0 <= a < out.len() && 0 <= k < out@[a].1.len() implies out@[a].1@[k] < j + 1
                            && f[out@[a].1@[k] as int].segment == out@[a].0 && kept_fn(
                            filter@,
                            f[out@[a].1@[k] as int],
                        ) by {
                        if a < g {
                            assert(out@[a] == old_out[a]);
                        } else if a > g {
                            assert(out@[a] == old_out[a - 1]);
                        }
                    }
                    assert forall|i: int| 0 <= i < j + 1 && kept_fn(filter@, #[trigger] f[i]) implies exists|a: int|
                        0 <= a < out.len() && out@[a].1@.contains(i as usize) by {
                        if i == j {
                            assert(out@[g as int].1@[0] == j);
                            assert(out@[g as int].1@.contains(j));
                        } else {
                            let a = choose|a: int| 0 <= a < old_out.len() && old_out[a].1@.contains(i as usize);
                            if a < g {
                                assert(out@[a] == old_out[a]);
                            } else {
                                assert(out@[a + 1] == old_out[a]);
                            }
                        }
                    }
                    assert forall|a: int, k: int, l: int|
                        0 <= a < out.len() && 0 <= k < l < out@[a].1.len() implies fn_before(
                            f,
                            out@[a].1@[k] as int,
                            out@[a].1@[l] as int,
                        ) by {
                        if a < g {
                            assert(out@[a] == old_out[a]);
                        } else if a > g {
                            assert(out@[a] == old_out[a - 1]);
                        }
                    }
                }
            }
        }
        j = j + 1;
    }
    proof {
        let gv = groups_view(out@);
        assert forall|a: int, k: int|
            #![trigger gv[a].1[k]]
            0 <= a < gv.len() && 0 <= k < gv[a].1.len() implies gv[a].1[k] < fs.len() && f[gv[a].1[k] as int].segment
                == gv[a].0 && kept_fn(filter@, f[gv[a].1[k] as int]) by {
            assert(gv[a].1 == out@[a].1@);
        }
        assert forall|i: int| 0 <= i < f.len() && kept_fn(filter@, #[trigger] f[i]) implies exists|a: int|
            0 <= a < gv.len() && gv[a].1.contains(i as usize) by {
            let a = choose|a: int| 0 <= a < out.len() && out@[a].1@.contains(i as usize);
            assert(gv[a].1 == out@[a].1@);
        }
        assert forall|a: int, k: int, l: int|
            0 <= a < gv.len() && 0 <= k < l < gv[a].1.len() implies fn_before(
                f,
                gv[a].1[k] as int,
                gv[a].1[l] as int,
            ) by {
            assert(gv[a].1 == out@[a].1@);
        }
    }
    out
}

} // verus!
