//! The jump arrows in the disassembly gutter.
//!
//! Each jump inside the listing is drawn as a bracket from its row to its
//! target's row, in one of a few lanes beside the code. The shortest spans
//! get the innermost lanes, which puts tight loops closest to the code and
//! long jumps out at the edge; a jump goes into the first lane where it
//! overlaps nothing already there. Past six lanes the gutter stops helping,
//! so deeper nesting shares the outermost.

use vstd::prelude::*;

verus! {

/// A jump to draw: from one row to another, in a lane.
#[derive(Debug, Clone, Copy, PartialEq, Eq, Structural)]
pub struct Branch {
    pub from: usize,
    pub to: usize,
    pub lane: usize,
    pub conditional: bool,
}

/// How many lanes the gutter has.
pub const LANES: usize = 6;

/// How far a jump reaches, in rows.
pub open spec fn reach(from: nat, to: nat) -> nat {
    if from <= to {
        (to - from) as nat
    } else {
        (from - to) as nat
    }
}

/// The rows a jump covers, low to high.
pub open spec fn extent(from: nat, to: nat) -> (nat, nat) {
    if from <= to {
        (from, to)
    } else {
        (to, from)
    }
}

/// Two extents share no row.
pub open spec fn apart(a: (nat, nat), b: (nat, nat)) -> bool {
    b.1 < a.0 || b.0 > a.1
}

/// An extent shares no row with any already in a lane.
pub open spec fn fits(lane: Seq<(nat, nat)>, e: (nat, nat)) -> bool {
    forall|k: int| 0 <= k < lane.len() ==> apart(#[trigger] lane[k], e)
}

/// The first lane from `l` on where `e` fits.
pub open spec fn first_fit(lanes: Seq<Seq<(nat, nat)>>, e: (nat, nat), l: int) -> Option<int>
    decreases lanes.len() - l,
{
    if l < 0 || l >= lanes.len() {
        None
    } else if fits(lanes[l], e) {
        Some(l)
    } else {
        first_fit(lanes, e, l + 1)
    }
}

/// Where a jump with extent `e` goes, given the lanes so far, and the lanes
/// after it: the first lane it fits, else a new lane, else the outermost.
pub open spec fn place(lanes: Seq<Seq<(nat, nat)>>, e: (nat, nat)) -> (nat, Seq<Seq<(nat, nat)>>) {
    match first_fit(lanes, e, 0) {
        Some(l) => (l as nat, lanes.update(l, lanes[l].push(e))),
        None => if lanes.len() >= 6 {
            (5, lanes)
        } else {
            (lanes.len(), lanes.push(seq![e]))
        },
    }
}

/// The lanes once the first `n` extents are placed.
pub open spec fn lanes_after(es: Seq<(nat, nat)>, n: int) -> Seq<Seq<(nat, nat)>>
    decreases n,
{
    if n <= 0 {
        Seq::empty()
    } else {
        place(lanes_after(es, n - 1), es[n - 1]).1
    }
}

/// The lane the `i`-th extent goes to.
pub open spec fn lane_of(es: Seq<(nat, nat)>, i: int) -> nat {
    place(lanes_after(es, i), es[i]).0
}

/// Jump `i` is laid out before jump `j`: the shorter first, and jumps of one
/// length in listing order.
pub open spec fn laid_before(jumps: Seq<(usize, usize, bool)>, i: int, j: int) -> bool {
    reach(jumps[i].0 as nat, jumps[i].1 as nat) < reach(jumps[j].0 as nat, jumps[j].1 as nat) || (
    reach(jumps[i].0 as nat, jumps[i].1 as nat) == reach(jumps[j].0 as nat, jumps[j].1 as nat)
        && i < j)
}

/// The extents of the jumps in the order `order` lays them out.
pub open spec fn extents(jumps: Seq<(usize, usize, bool)>, order: Seq<int>) -> Seq<(nat, nat)> {
    order.map_values(|i: int| extent(jumps[i].0 as nat, jumps[i].1 as nat))
}

/// `r` is the gutter for `jumps` (from row, to row, conditional): the jumps
/// in layout order, each in the lane first-fit placement gives it.
pub open spec fn is_gutter(jumps: Seq<(usize, usize, bool)>, order: Seq<int>, r: Seq<Branch>) -> bool {
    &&& order.len() == jumps.len()
    &&& r.len() == jumps.len()
    &&& forall|a: int| 0 <= a < order.len() ==> 0 <= #[trigger] order[a] < jumps.len()
    &&& forall|a: int, b: int| 0 <= a < b < order.len() ==> laid_before(jumps, order[a], order[b])
    &&& forall|a: int|
        0 <= a < r.len() ==> #[trigger] r[a] == (Branch {
            from: jumps[order[a]].0,
            to: jumps[order[a]].1,
            lane: lane_of(extents(jumps, order), a) as usize,
            conditional: jumps[order[a]].2,
        })
}

proof fn lemma_first_fit(lanes: Seq<Seq<(nat, nat)>>, e: (nat, nat), l: int)
    requires
        0 <= l,
    ensures
        match first_fit(lanes, e, l) {
            Some(f) => l <= f < lanes.len() && fits(lanes[f], e) && forall|k: int|
                l <= k < f ==> !fits(lanes[k], e),
            None => forall|k: int| l <= k < lanes.len() ==> !fits(lanes[k], e),
        },
    decreases lanes.len() - l,
{
    if l < lanes.len() && !fits(lanes[l], e) {
        lemma_first_fit(lanes, e, l + 1);
    }
}

/// The lanes stay at most six, and what a lane holds only grows.
proof fn lemma_place_grows(lanes: Seq<Seq<(nat, nat)>>, e: (nat, nat))
    requires
        lanes.len() <= 6,
    ensures
        place(lanes, e).1.len() <= 6,
        place(lanes, e).1.len() >= lanes.len(),
        place(lanes, e).0 < 6,
        forall|l: int, k: int|
            0 <= l < lanes.len() && 0 <= k < lanes[l].len() ==> place(lanes, e).1[l].len() >= lanes[l].len()
                && #[trigger] place(lanes, e).1[l][k] == lanes[l][k],
        place(lanes, e).0 < 5 ==> place(lanes, e).0 < place(lanes, e).1.len() && place(
            lanes,
            e,
        ).1[place(lanes, e).0 as int].len() > 0 && place(
            lanes,
            e,
        ).1[place(lanes, e).0 as int].last() == e && fits(
            if place(lanes, e).0 < lanes.len() {
                lanes[place(lanes, e).0 as int]
            } else {
                Seq::empty()
            },
            e,
        ) && place(lanes, e).1[place(lanes, e).0 as int].drop_last() == if place(lanes, e).0
            < lanes.len() {
            lanes[place(lanes, e).0 as int]
        } else {
            Seq::empty()
        },
{
    lemma_first_fit(lanes, e, 0);
    let (l, after) = place(lanes, e);
    match first_fit(lanes, e, 0) {
        Some(f) => {
            assert(after[f].drop_last() =~= lanes[f]);
        },
        None => {
            if lanes.len() < 6 {
                assert(after[lanes.len() as int].drop_last() =~= Seq::<(nat, nat)>::empty());
            }
        },
    }
}

proof fn lemma_lanes_bounded(es: Seq<(nat, nat)>, n: int)
    requires
        0 <= n <= es.len(),
    ensures
        lanes_after(es, n).len() <= 6,
    decreases n,
{
    if n > 0 {
        lemma_lanes_bounded(es, n - 1);
        lemma_place_grows(lanes_after(es, n - 1), es[n - 1]);
    }
}

/// Every jump gets one of the six lanes.
pub proof fn lemma_lane_in_gutter(es: Seq<(nat, nat)>, i: int)
    requires
        0 <= i < es.len(),
    ensures
        lane_of(es, i) < 6,
{
    lemma_lanes_bounded(es, i);
    lemma_place_grows(lanes_after(es, i), es[i]);
}

/// Once placed in an inner lane, a jump stays in that lane's list.
proof fn lemma_stays(es: Seq<(nat, nat)>, i: int, n: int)
    requires
        0 <= i < n <= es.len(),
        lane_of(es, i) < 5,
    ensures
        lane_of(es, i) < lanes_after(es, n).len(),
        lanes_after(es, n)[lane_of(es, i) as int].contains(es[i]),
    decreases n - i,
{
    let l = lane_of(es, i) as int;
    lemma_lanes_bounded(es, i);
    if n == i + 1 {
        lemma_place_grows(lanes_after(es, i), es[i]);
        let row = lanes_after(es, n)[l];
        assert(row.len() > 0);
        assert(row[row.len() - 1] == es[i]);
        assert(row.contains(es[i]));
    } else {
        lemma_stays(es, i, n - 1);
        lemma_lanes_bounded(es, n - 1);
        let before = lanes_after(es, n - 1);
        lemma_place_grows(before, es[n - 1]);
        let k = choose|k: int| 0 <= k < before[l].len() && before[l][k] == es[i];
        assert(lanes_after(es, n)[l][k] == es[i]);
        assert(lanes_after(es, n)[l].contains(es[i]));
    }
}

/// In each of the five inner lanes no two jumps share a row: brackets only
/// overlap in the outermost lane, where deep nesting is put.
pub proof fn lemma_inner_lanes_apart(es: Seq<(nat, nat)>, i: int, j: int)
    requires
        0 <= i < j < es.len(),
        lane_of(es, i) == lane_of(es, j),
        lane_of(es, j) < 5,
    ensures
        apart(es[i], es[j]),
{
    let l = lane_of(es, i) as int;
    lemma_stays(es, i, j);
    let lanes = lanes_after(es, j);
    lemma_lanes_bounded(es, j);
    lemma_place_grows(lanes, es[j]);
    lemma_first_fit(lanes, es[j], 0);
    let k = choose|k: int| 0 <= k < lanes[l].len() && lanes[l][k] == es[i];
    match first_fit(lanes, es[j], 0) {
        Some(f) => {
            assert(f == l);
            assert(apart(lanes[l][k], es[j]));
        },
        None => {
            assert(l == lanes.len() || lanes.len() >= 6);
        },
    }
}

/// Fill in the lane of each jump, in layout order.
fn assign_lanes(spans: &Vec<(usize, usize)>) -> (r: Vec<usize>)
    requires
        forall|i: int| 0 <= i < spans.len() ==> (#[trigger] spans@[i]).0 <= spans@[i].1,
    ensures
        r.len() == spans.len(),
        forall|i: int|
            0 <= i < r.len() ==> #[trigger] r@[i] == lane_of(
                spans@.map_values(|s: (usize, usize)| (s.0 as nat, s.1 as nat)),
                i,
            ),
{
    let ghost es = spans@.map_values(|s: (usize, usize)| (s.0 as nat, s.1 as nat));
    let mut lanes: Vec<Vec<(usize, usize)>> = Vec::new();
    let mut out: Vec<usize> = Vec::new();
    let mut i: usize = 0;
    while i < spans.len()
        invariant
            i <= spans.len(),
            es == spans@.map_values(|s: (usize, usize)| (s.0 as nat, s.1 as nat)),
            lanes@.len() <= 6,
            lanes_view(lanes@) == lanes_after(es, i as int),
            out.len() == i,
            forall|k: int| 0 <= k < i ==> #[trigger] out@[k] == lane_of(es, k),
        decreases spans.len() - i,
    {
        let (lo, hi) = spans[i];
        let ghost e = es[i as int];
        let ghost before = lanes_view(lanes@);
        proof {
            assert(e == (lo as nat, hi as nat));
            lemma_first_fit(before, e, 0);
        }
        let mut l: usize = 0;
        let mut placed = false;
        while l < lanes.len() && !placed
            invariant
                l <= lanes.len(),
                lanes@.len() <= 6,
                e == (lo as nat, hi as nat),
                before == lanes_view(lanes@),
                !placed ==> forall|k: int| 0 <= k < l ==> !fits(before[k], e),
                placed ==> l < lanes.len() && first_fit(before, e, 0) == Some(l as int),
            decreases lanes.len() - l + if placed { 0int } else { 1int },
        {
            let mut ok = true;
            let mut k: usize = 0;
            while k < lanes[l].len()
                invariant
                    l < lanes.len(),
                    k <= lanes@[l as int].len(),
                    before == lanes_view(lanes@),
                    e == (lo as nat, hi as nat),
                    ok == forall|m: int| 0 <= m < k ==> apart(#[trigger] before[l as int][m], e),
                decreases lanes@[l as int].len() - k,
            {
                let (a, b) = lanes[l][k];
                proof {
                    assert(before[l as int][k as int] == (a as nat, b as nat));
                }
                if !(hi < a || lo > b) {
                    ok = false;
                }
                k = k + 1;
            }
            if ok {
                proof {
                    lemma_first_fit(before, e, 0);
                    let f = first_fit(before, e, 0);
                    assert(fits(before[l as int], e));
                    if f is None {
                        assert(!fits(before[l as int], e));
                    } else {
                        let fv = f.unwrap();
                        if fv < l {
                        } else if fv > l {
                            assert(!fits(before[l as int], e));
                        }
                    }
                }
                placed = true;
            } else {
                l = l + 1;
            }
        }
        let lane: usize;
        if placed {
            let mut row = lanes.remove(l);
            row.push((lo, hi));
            lanes.insert(l, row);
            lane = l;
            proof {
                let ghost rowv = lanes@[l as int]@.map_values(|s: (usize, usize)| (s.0 as nat, s.1 as nat));
                assert(rowv =~= before[l as int].push(e));
                assert(lanes_view(lanes@) =~~= before.update(l as int, before[l as int].push(e)));
            }
        } else if lanes.len() >= 6 {
            lane = 5;
        } else {
            lane = lanes.len();
            let mut row: Vec<(usize, usize)> = Vec::new();
            row.push((lo, hi));
            lanes.push(row);
            proof {
                let ghost rowv = lanes@[lanes@.len() - 1]@.map_values(|s: (usize, usize)| (s.0 as nat, s.1 as nat));
                assert(rowv =~= seq![e]);
                assert(lanes_view(lanes@) =~~= before.push(seq![e]));
            }
        }
        proof {
            lemma_first_fit(before, e, 0);
            assert(lanes_after(es, i + 1) == place(before, e).1);
            assert(lane as nat == place(before, e).0);
        }
        out.push(lane);
        i = i + 1;
    }
    out
}

fn jump_reach(from: usize, to: usize) -> (r: usize)
    ensures
        r as nat == reach(from as nat, to as nat),
{
    if from <= to {
        to - from
    } else {
        from - to
    }
}

/// Lanes as values.
pub open spec fn lanes_view(v: Seq<Vec<(usize, usize)>>) -> Seq<Seq<(nat, nat)>> {
    v.map_values(|l: Vec<(usize, usize)>| l@.map_values(|s: (usize, usize)| (s.0 as nat, s.1 as nat)))
}

/// The gutter for the jumps in a listing: each jump as (from row, to row,
/// conditional), laid out shortest first, each in its lane.
pub fn branches(jumps: &Vec<(usize, usize, bool)>) -> (r: Vec<Branch>)
    ensures
        exists|order: Seq<int>| #[trigger] is_gutter(jumps@, order, r@),
{
    // Layout order: a stable sort by reach.
    let n = jumps.len();
    let mut order: Vec<usize> = Vec::new();
    let mut j: usize = 0;
    while j < n
        invariant
            j <= n,
            n == jumps.len(),
            order.len() == j,
            forall|a: int| 0 <= a < order.len() ==> order@[a] < j,
            forall|a: int, b: int|
                0 <= a < b < order.len() ==> laid_before(jumps@, order@[a] as int, order@[b] as int),
        decreases n - j,
    {
        let rj = jump_reach(jumps[j].0, jumps[j].1);
        let mut pos: usize = 0;
        while pos < order.len() && jump_reach(jumps[order[pos]].0, jumps[order[pos]].1) <= rj
            invariant
                pos <= order.len(),
                j < n,
                n == jumps.len(),
                rj as nat == reach(jumps@[j as int].0 as nat, jumps@[j as int].1 as nat),
                forall|a: int| 0 <= a < order.len() ==> order@[a] < j,
                forall|a: int| 0 <= a < pos ==> laid_before(jumps@, #[trigger] order@[a] as int, j as int),
            decreases order.len() - pos,
        {
            pos = pos + 1;
        }
        proof {
            if pos < order.len() {
                assert(laid_before(jumps@, j as int, order@[pos as int] as int));
                assert forall|a: int| pos <= a < order.len() implies laid_before(
                    jumps@,
                    j as int,
                    #[trigger] order@[a] as int,
                ) by {
                    if a > pos {
                        assert(laid_before(jumps@, order@[pos as int] as int, order@[a] as int));
                    }
                }
            }
        }
        let ghost prev = order@;
        order.insert(pos, j);
        proof {
            assert forall|a: int, b: int| 0 <= a < b < order.len() implies laid_before(
                jumps@,
                order@[a] as int,
                order@[b] as int,
            ) by {
                if a < pos && b > pos {
                    assert(order@[b] == prev[b - 1]);
                } else if a > pos {
                    assert(order@[a] == prev[a - 1]);
                    assert(order@[b] == prev[b - 1]);
                } else if a < pos && b == pos {
                    assert(order@[a] == prev[a]);
                } else if a == pos {
                    assert(order@[b] == prev[b - 1]);
                }
            }
            assert forall|a: int| 0 <= a < order.len() implies order@[a] < j + 1 by {
                if a < pos {
                    assert(order@[a] == prev[a]);
                } else if a > pos {
                    assert(order@[a] == prev[a - 1]);
                }
            }
        }
        j = j + 1;
    }
    let ghost ord = order@.map_values(|x: usize| x as int);
    // Extents in layout order, then lanes.
    let mut spans: Vec<(usize, usize)> = Vec::new();
    let mut k: usize = 0;
    while k < n
        invariant
            k <= n,
            n == jumps.len(),
            order.len() == n,
            ord == order@.map_values(|x: usize| x as int),
            forall|a: int| 0 <= a < order.len() ==> order@[a] < n,
            spans.len() == k,
            forall|a: int|
                0 <= a < k ==> (#[trigger] spans@[a]).0 <= spans@[a].1 && (spans@[a].0 as nat, spans@[a].1 as nat)
                    == extent(jumps@[ord[a]].0 as nat, jumps@[ord[a]].1 as nat),
        decreases n - k,
    {
        let (f, t, _) = jumps[order[k]];
        spans.push(if f <= t { (f, t) } else { (t, f) });
        k = k + 1;
    }
    proof {
        assert(spans@.map_values(|s: (usize, usize)| (s.0 as nat, s.1 as nat)) =~= extents(jumps@, ord));
    }
    let lanes = assign_lanes(&spans);
    let mut out: Vec<Branch> = Vec::new();
    let mut m: usize = 0;
    while m < n
        invariant
            m <= n,
            n == jumps.len(),
            order.len() == n,
            lanes.len() == n,
            ord == order@.map_values(|x: usize| x as int),
            forall|a: int| 0 <= a < order.len() ==> order@[a] < n,
            forall|a: int| 0 <= a < n ==> #[trigger] lanes@[a] == lane_of(extents(jumps@, ord), a),
            out.len() == m,
            forall|a: int|
                0 <= a < m ==> #[trigger] out@[a] == (Branch {
                    from: jumps@[ord[a]].0,
                    to: jumps@[ord[a]].1,
                    lane: lane_of(extents(jumps@, ord), a) as usize,
                    conditional: jumps@[ord[a]].2,
                }),
        decreases n - m,
    {
        let (f, t, c) = jumps[order[m]];
        out.push(Branch { from: f, to: t, lane: lanes[m], conditional: c });
        m = m + 1;
    }
    assert(is_gutter(jumps@, ord, out@));
    out
}

} // verus!
