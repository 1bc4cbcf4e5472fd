//! The order reports are printed in: text compared character by character,
//! and tallies of how often each name occurs, busiest first.

use vstd::prelude::*;
use crate::text::chars_of;

verus! {

/// `a` sorts strictly before `b`: compared character by character, a proper
/// prefix first. This is the order of `String`'s `<`, since UTF-8 keeps the
/// order of code points.
pub open spec fn lex_lt(a: Seq<char>, b: Seq<char>) -> bool
    decreases a.len(),
{
    if a.len() == 0 {
        b.len() > 0
    } else if b.len() == 0 {
        false
    } else if a[0] != b[0] {
        a[0] < b[0]
    } else {
        lex_lt(a.drop_first(), b.drop_first())
    }
}

/// No string sorts before itself.
pub proof fn lemma_lex_irreflexive(a: Seq<char>)
    ensures
        !lex_lt(a, a),
    decreases a.len(),
{
    if a.len() > 0 {
        lemma_lex_irreflexive(a.drop_first());
    }
}

/// Of two different strings, one sorts before the other.
pub proof fn lemma_lex_total(a: Seq<char>, b: Seq<char>)
    requires
        a != b,
    ensures
        lex_lt(a, b) || lex_lt(b, a),
    decreases a.len(),
{
    if a.len() > 0 && b.len() > 0 && a[0] == b[0] {
        if a.drop_first() == b.drop_first() {
            assert(a =~= seq![a[0]] + a.drop_first());
            assert(b =~= seq![b[0]] + b.drop_first());
        }
        lemma_lex_total(a.drop_first(), b.drop_first());
    } else if a.len() == 0 && b.len() == 0 {
        assert(a =~= b);
    }
}

/// The order is transitive.
pub proof fn lemma_lex_transitive(a: Seq<char>, b: Seq<char>, c: Seq<char>)
    requires
        lex_lt(a, b),
        lex_lt(b, c),
    ensures
        lex_lt(a, c),
    decreases a.len(),
{
    if a.len() > 0 && b.len() > 0 && c.len() > 0 && a[0] == b[0] && b[0] == c[0] {
        lemma_lex_transitive(a.drop_first(), b.drop_first(), c.drop_first());
    }
}

/// The order is asymmetric.
pub proof fn lemma_lex_asymmetric(a: Seq<char>, b: Seq<char>)
    requires
        lex_lt(a, b),
    ensures
        !lex_lt(b, a),
    decreases a.len(),
{
    if a.len() > 0 && b.len() > 0 && a[0] == b[0] {
        lemma_lex_asymmetric(a.drop_first(), b.drop_first());
    }
}

/// Whether `a` sorts strictly before `b`.
pub fn chars_lt(a: &[char], b: &[char]) -> (r: bool)
    ensures
        r == lex_lt(a@, b@),
{
    let mut i: usize = 0;
    assert(a@.skip(0) =~= a@ && b@.skip(0) =~= b@);
    while i < a.len() && i < b.len() && a[i] == b[i]
        invariant
            i <= a.len(),
            i <= b.len(),
            lex_lt(a@, b@) == lex_lt(a@.skip(i as int), b@.skip(i as int)),
        decreases a.len() - i,
    {
        proof {
            assert(a@.skip(i as int).drop_first() =~= a@.skip(i + 1));
            assert(b@.skip(i as int).drop_first() =~= b@.skip(i + 1));
        }
        i = i + 1;
    }
    let ghost sa = a@.skip(i as int);
    let ghost sb = b@.skip(i as int);
    if i == a.len() {
        assert(sa.len() == 0);
        assert(sb.len() == b.len() - i);
        i < b.len()
    } else if i == b.len() {
        assert(sb.len() == 0 && sa.len() > 0);
        false
    } else {
        assert(sa.len() > 0 && sb.len() > 0);
        assert(sa[0] == a@[i as int] && sb[0] == b@[i as int]);
        assert(a@[i as int] != b@[i as int]);
        a[i] < b[i]
    }
}

/// Whether string `a` sorts strictly before string `b`.
pub fn str_lt(a: &str, b: &str) -> (r: bool)
    ensures
        r == lex_lt(a@, b@),
{
    let x = chars_of(a);
    let y = chars_of(b);
    chars_lt(&x, &y)
}

/// Name and weight pairs as values.
pub open spec fn pairs(v: Seq<(String, usize)>) -> Seq<(Seq<char>, nat)> {
    v.map_values(|p: (String, usize)| (p.0@, p.1 as nat))
}

/// The total weight `items` give to the name `k`.
pub open spec fn weight_of(items: Seq<(Seq<char>, nat)>, k: Seq<char>) -> nat
    decreases items.len(),
{
    if items.len() == 0 {
        0
    } else {
        weight_of(items.drop_last(), k) + if items.last().0 == k {
            items.last().1
        } else {
            0nat
        }
    }
}

/// The sum of all weights in `items`.
pub open spec fn total_weight(items: Seq<(Seq<char>, nat)>) -> nat
    decreases items.len(),
{
    if items.len() == 0 {
        0
    } else {
        total_weight(items.drop_last()) + items.last().1
    }
}

/// Whether the name `k` occurs in `items`.
pub open spec fn has_key(items: Seq<(Seq<char>, nat)>, k: Seq<char>) -> bool {
    exists|a: int| 0 <= a < items.len() && #[trigger] items[a].0 == k
}

/// Row `a` is listed before row `b`: the larger tally first, and among
/// equal tallies the name that sorts first.
pub open spec fn row_before(a: (Seq<char>, nat), b: (Seq<char>, nat)) -> bool {
    a.1 > b.1 || (a.1 == b.1 && lex_lt(a.0, b.0))
}

/// Rows listed in `row_before` order.
pub open spec fn rows_ordered(rows: Seq<(Seq<char>, nat)>) -> bool {
    forall|i: int, j: int| 0 <= i < j < rows.len() ==> row_before(rows[i], rows[j])
}

/// No name has two rows.
pub open spec fn distinct_keys(rows: Seq<(Seq<char>, nat)>) -> bool {
    forall|i: int, j: int| 0 <= i < j < rows.len() ==> rows[i].0 != rows[j].0
}

/// `rows` is the tally of `items`: the names that occur in `items`, each
/// once, with the total weight `items` give it, in `row_before` order.
pub open spec fn is_tally(items: Seq<(Seq<char>, nat)>, rows: Seq<(Seq<char>, nat)>) -> bool {
    &&& rows_ordered(rows)
    &&& distinct_keys(rows)
    &&& forall|k: Seq<char>| #[trigger] has_key(rows, k) == has_key(items, k)
    &&& forall|k: Seq<char>| #[trigger] weight_of(rows, k) == weight_of(items, k)
}

proof fn lemma_weight_concat(a: Seq<(Seq<char>, nat)>, b: Seq<(Seq<char>, nat)>, k: Seq<char>)
    ensures
        weight_of(a + b, k) == weight_of(a, k) + weight_of(b, k),
        total_weight(a + b) == total_weight(a) + total_weight(b),
    decreases b.len(),
{
    if b.len() == 0 {
        assert(a + b =~= a);
    } else {
        assert((a + b).drop_last() =~= a + b.drop_last());
        lemma_weight_concat(a, b.drop_last(), k);
    }
}

proof fn lemma_weight_one(x: (Seq<char>, nat), k: Seq<char>)
    ensures
        weight_of(seq![x], k) == if x.0 == k {
            x.1
        } else {
            0nat
        },
        total_weight(seq![x]) == x.1,
{
    assert(seq![x].drop_last() =~= Seq::<(Seq<char>, nat)>::empty());
    assert(seq![x].last() == x);
    assert(weight_of(Seq::<(Seq<char>, nat)>::empty(), k) == 0);
    assert(total_weight(Seq::<(Seq<char>, nat)>::empty()) == 0);
}

proof fn lemma_weight_insert(s: Seq<(Seq<char>, nat)>, pos: int, x: (Seq<char>, nat), k: Seq<char>)
    requires
        0 <= pos <= s.len(),
    ensures
        weight_of(s.insert(pos, x), k) == weight_of(s, k) + if x.0 == k {
            x.1
        } else {
            0nat
        },
        total_weight(s.insert(pos, x)) == total_weight(s) + x.1,
        has_key(s.insert(pos, x), k) == (has_key(s, k) || x.0 == k),
{
    let l = s.subrange(0, pos);
    let r = s.subrange(pos, s.len() as int);
    assert(s =~= l + r);
    assert(s.insert(pos, x) =~= l + seq![x] + r);
    lemma_weight_concat(l, r, k);
    lemma_weight_concat(l, seq![x], k);
    lemma_weight_concat(l + seq![x], r, k);
    lemma_weight_one(x, k);
    let t = s.insert(pos, x);
    if has_key(s, k) {
        let a = choose|a: int| 0 <= a < s.len() && s[a].0 == k;
        if a < pos {
            assert(t[a].0 == k);
        } else {
            assert(t[a + 1].0 == k);
        }
    }
    if x.0 == k {
        assert(t[pos].0 == k);
    }
    if has_key(t, k) {
        let a = choose|a: int| 0 <= a < t.len() && t[a].0 == k;
        if a < pos {
            assert(s[a].0 == k);
        } else if a > pos {
            assert(s[a - 1].0 == k);
        }
    }
}

proof fn lemma_weight_update(s: Seq<(Seq<char>, nat)>, a: int, w: nat, k: Seq<char>)
    requires
        0 <= a < s.len(),
    ensures
        weight_of(s.update(a, (s[a].0, s[a].1 + w)), k) == weight_of(s, k) + if s[a].0 == k {
            w
        } else {
            0nat
        },
        has_key(s.update(a, (s[a].0, s[a].1 + w)), k) == has_key(s, k),
{
    let l = s.subrange(0, a);
    let r = s.subrange(a + 1, s.len() as int);
    let y = (s[a].0, s[a].1 + w);
    assert(s =~= l + seq![s[a]] + r);
    assert(s.update(a, y) =~= l + seq![y] + r);
    lemma_weight_concat(l, seq![s[a]], k);
    lemma_weight_concat(l + seq![s[a]], r, k);
    lemma_weight_concat(l, seq![y], k);
    lemma_weight_concat(l + seq![y], r, k);
    lemma_weight_one(s[a], k);
    lemma_weight_one(y, k);
    let t = s.update(a, y);
    if has_key(s, k) {
        let b = choose|b: int| 0 <= b < s.len() && s[b].0 == k;
        assert(t[b].0 == k);
    }
    if has_key(t, k) {
        let b = choose|b: int| 0 <= b < t.len() && t[b].0 == k;
        assert(s[b].0 == k);
    }
}

pub(crate) proof fn lemma_weight_absent(s: Seq<(Seq<char>, nat)>, k: Seq<char>)
    requires
        !has_key(s, k),
    ensures
        weight_of(s, k) == 0,
    decreases s.len(),
{
    if s.len() > 0 {
        assert(s.last().0 == s[s.len() - 1].0);
        assert forall|a: int| 0 <= a < s.drop_last().len() implies #[trigger] s.drop_last()[a].0 != k by {
            assert(s.drop_last()[a] == s[a]);
        }
        lemma_weight_absent(s.drop_last(), k);
    }
}

/// In rows with distinct names, a name's weight is its row's.
pub(crate) proof fn lemma_weight_row(s: Seq<(Seq<char>, nat)>, a: int)
    requires
        distinct_keys(s),
        0 <= a < s.len(),
    ensures
        weight_of(s, s[a].0) == s[a].1,
    decreases s.len(),
{
    let d = s.drop_last();
    if a == s.len() - 1 {
        assert forall|b: int| 0 <= b < d.len() implies #[trigger] d[b].0 != s[a].0 by {
            assert(d[b] == s[b]);
        }
        lemma_weight_absent(d, s[a].0);
    } else {
        assert(distinct_keys(d)) by {
            assert forall|i: int, j: int| 0 <= i < j < d.len() implies d[i].0 != d[j].0 by {
                assert(d[i] == s[i] && d[j] == s[j]);
            }
        }
        assert(d[a] == s[a]);
        lemma_weight_row(d, a);
    }
}

pub(crate) proof fn lemma_take_step(items: Seq<(Seq<char>, nat)>, i: int, k: Seq<char>)
    requires
        0 <= i < items.len(),
    ensures
        weight_of(items.take(i + 1), k) == weight_of(items.take(i), k) + if items[i].0 == k {
            items[i].1
        } else {
            0nat
        },
        total_weight(items.take(i + 1)) == total_weight(items.take(i)) + items[i].1,
        has_key(items.take(i + 1), k) == (has_key(items.take(i), k) || items[i].0 == k),
{
    assert(items.take(i + 1) =~= items.take(i).insert(i, items[i]));
    lemma_weight_insert(items.take(i), i, items[i], k);
}

pub(crate) proof fn lemma_weight_bounded(items: Seq<(Seq<char>, nat)>, k: Seq<char>)
    ensures
        weight_of(items, k) <= total_weight(items),
    decreases items.len(),
{
    if items.len() > 0 {
        lemma_weight_bounded(items.drop_last(), k);
    }
}

pub(crate) proof fn lemma_total_prefix(items: Seq<(Seq<char>, nat)>, i: int)
    requires
        0 <= i <= items.len(),
    ensures
        total_weight(items.take(i)) <= total_weight(items),
    decreases items.len() - i,
{
    if i < items.len() {
        lemma_take_step(items, i, Seq::empty());
        lemma_total_prefix(items, i + 1);
    } else {
        assert(items.take(i) =~= items);
    }
}

proof fn lemma_row_total(a: (Seq<char>, nat), b: (Seq<char>, nat))
    requires
        a.0 != b.0,
    ensures
        row_before(a, b) || row_before(b, a),
{
    lemma_lex_total(a.0, b.0);
}

proof fn lemma_row_transitive(a: (Seq<char>, nat), b: (Seq<char>, nat), c: (Seq<char>, nat))
    requires
        row_before(a, b),
        row_before(b, c),
    ensures
        row_before(a, c),
{
    if a.1 == b.1 && b.1 == c.1 {
        lemma_lex_transitive(a.0, b.0, c.0);
    }
}

/// Where the name `key` has a row, if anywhere.
fn find_key(rows: &Vec<(String, usize)>, key: &String) -> (r: Option<usize>)
    ensures
        match r {
            Some(a) => a < rows.len() && rows@[a as int].0@ == key@,
            None => !has_key(pairs(rows@), key@),
        },
{
    let mut a: usize = 0;
    while a < rows.len()
        invariant
            a <= rows.len(),
            forall|b: int| 0 <= b < a ==> rows@[b].0@ != key@,
        decreases rows.len() - a,
    {
        if rows[a].0 == *key {
            return Some(a);
        }
        a = a + 1;
    }
    proof {
        assert forall|b: int| 0 <= b < rows.len() implies #[trigger] pairs(rows@)[b].0 != key@ by {
            assert(pairs(rows@)[b].0 == rows@[b].0@);
        }
    }
    None
}

/// Add `w` to the row of `key`, making one when there is none.
fn add_weight(acc: &mut Vec<(String, usize)>, key: &String, w: usize)
    requires
        distinct_keys(pairs(old(acc)@)),
        weight_of(pairs(old(acc)@), key@) + w <= usize::MAX,
    ensures
        distinct_keys(pairs(final(acc)@)),
        forall|k: Seq<char>|
            #[trigger] weight_of(pairs(final(acc)@), k) == weight_of(pairs(old(acc)@), k) + if k == key@ {
                w as nat
            } else {
                0nat
            },
        forall|k: Seq<char>|
            #[trigger] has_key(pairs(final(acc)@), k) == (has_key(pairs(old(acc)@), k) || k == key@),
{
    let ghost s = pairs(acc@);
    match find_key(acc, key) {
        Some(a) => {
            proof {
                lemma_weight_row(s, a as int);
            }
            let old_w = acc[a].1;
            let k = acc[a].0.clone();
            acc.set(a, (k, old_w + w));
            proof {
                assert(pairs(acc@) =~= s.update(a as int, (s[a as int].0, s[a as int].1 + w as nat)));
                assert forall|k: Seq<char>|
                    #[trigger] weight_of(pairs(acc@), k) == weight_of(s, k) + if k == key@ {
                        w as nat
                    } else {
                        0nat
                    } by {
                    lemma_weight_update(s, a as int, w as nat, k);
                    assert(s[a as int].0 == key@);
                }
                assert forall|k: Seq<char>|
                    #[trigger] has_key(pairs(acc@), k) == (has_key(s, k) || k == key@) by {
                    lemma_weight_update(s, a as int, w as nat, k);
                    assert(s[a as int].0 == key@);
                    if k == key@ {
                        assert(s[a as int].0 == k);
                    }
                }
                assert forall|i: int, j: int| 0 <= i < j < acc.len() implies pairs(acc@)[i].0
                    != pairs(acc@)[j].0 by {
                    assert(pairs(acc@)[i].0 == s[i].0);
                    assert(pairs(acc@)[j].0 == s[j].0);
                }
            }
        },
        None => {
            acc.push((key.clone(), w));
            proof {
                assert(pairs(acc@) =~= s.insert(s.len() as int, (key@, w as nat)));
                assert forall|k: Seq<char>|
                    #[trigger] weight_of(pairs(acc@), k) == weight_of(s, k) + if k == key@ {
                        w as nat
                    } else {
                        0nat
                    } by {
                    lemma_weight_insert(s, s.len() as int, (key@, w as nat), k);
                }
                assert forall|k: Seq<char>|
                    #[trigger] has_key(pairs(acc@), k) == (has_key(s, k) || k == key@) by {
                    lemma_weight_insert(s, s.len() as int, (key@, w as nat), k);
                }
                assert forall|i: int, j: int| 0 <= i < j < acc.len() implies pairs(acc@)[i].0
                    != pairs(acc@)[j].0 by {
                    if j == s.len() {
                        assert(pairs(acc@)[i] == s[i]);
                        assert(s[i].0 != key@);
                    } else {
                        assert(pairs(acc@)[i] == s[i] && pairs(acc@)[j] == s[j]);
                    }
                }
            }
        },
    }
}

/// One row per name of `items`, with its total weight, in the order the
/// names first occur.
fn gather(items: &Vec<(String, usize)>) -> (acc: Vec<(String, usize)>)
    requires
        total_weight(pairs(items@)) <= usize::MAX,
    ensures
        distinct_keys(pairs(acc@)),
        forall|k: Seq<char>| #[trigger] has_key(pairs(acc@), k) == has_key(pairs(items@), k),
        forall|k: Seq<char>| #[trigger] weight_of(pairs(acc@), k) == weight_of(pairs(items@), k),
{
    let ghost p = pairs(items@);
    let mut acc: Vec<(String, usize)> = Vec::new();
    let mut i: usize = 0;
    proof {
        assert forall|k: Seq<char>| !#[trigger] has_key(p.take(0), k) by {}
        assert(p.take(0) =~= Seq::<(Seq<char>, nat)>::empty());
        assert(pairs(acc@) =~= Seq::<(Seq<char>, nat)>::empty());
    }
    while i < items.len()
        invariant
            p == pairs(items@),
            total_weight(p) <= usize::MAX,
            i <= items.len(),
            distinct_keys(pairs(acc@)),
            forall|k: Seq<char>| #[trigger] has_key(pairs(acc@), k) == has_key(p.take(i as int), k),
            forall|k: Seq<char>| #[trigger] weight_of(pairs(acc@), k) == weight_of(p.take(i as int), k),
        decreases items.len() - i,
    {
        let key = &items[i].0;
        let w = items[i].1;
        proof {
            assert(p[i as int] == (key@, w as nat));
            lemma_take_step(p, i as int, key@);
            lemma_total_prefix(p, i + 1);
            lemma_weight_bounded(p.take(i + 1), key@);
        }
        add_weight(&mut acc, key, w);
        proof {
            assert forall|k: Seq<char>| #[trigger] has_key(pairs(acc@), k) == has_key(p.take(i + 1), k) by {
                lemma_take_step(p, i as int, k);
            }
            assert forall|k: Seq<char>| #[trigger] weight_of(pairs(acc@), k) == weight_of(p.take(i + 1), k) by {
                lemma_take_step(p, i as int, k);
            }
        }
        i = i + 1;
    }
    assert(p.take(items.len() as int) =~= p);
    acc
}

/// Put `row` into the ordered rows `out`, where it belongs.
fn insert_row(out: &mut Vec<(String, usize)>, row: (String, usize))
    requires
        rows_ordered(pairs(old(out)@)),
        distinct_keys(pairs(old(out)@)),
        !has_key(pairs(old(out)@), row.0@),
    ensures
        rows_ordered(pairs(final(out)@)),
        distinct_keys(pairs(final(out)@)),
        exists|pos: int|
            0 <= pos <= old(out).len() && pairs(final(out)@) == pairs(old(out)@).insert(
                pos,
                (row.0@, row.1 as nat),
            ),
{
    let ghost x = (row.0@, row.1 as nat);
    let ghost s = pairs(out@);
    let mut pos: usize = 0;
    while pos < out.len() && (out[pos].1 > row.1 || (out[pos].1 == row.1 && str_lt(
        &out[pos].0,
        &row.0,
    )))
        invariant
            pos <= out.len(),
            s == pairs(out@),
            x == (row.0@, row.1 as nat),
            forall|a: int| 0 <= a < pos ==> row_before(#[trigger] s[a], x),
        decreases out.len() - pos,
    {
        assert(s[pos as int] == (out@[pos as int].0@, out@[pos as int].1 as nat));
        pos = pos + 1;
    }
    proof {
        if pos < out.len() {
            assert(s[pos as int].0 != x.0);
            lemma_row_total(s[pos as int], x);
            assert forall|a: int| pos <= a < s.len() implies row_before(x, #[trigger] s[a]) by {
                if a > pos {
                    lemma_row_transitive(x, s[pos as int], s[a]);
                }
            }
        }
    }
    out.insert(pos, row);
    proof {
        let t = pairs(out@);
        assert(t =~= s.insert(pos as int, x));
        assert forall|a: int, b: int| 0 <= a < b < t.len() implies row_before(t[a], t[b]) by {
            if a < pos && b > pos {
                assert(t[b] == s[b - 1]);
            } else if a > pos {
                assert(t[a] == s[a - 1]);
                assert(t[b] == s[b - 1]);
            }
        }
        assert forall|a: int, b: int| 0 <= a < b < t.len() implies t[a].0 != t[b].0 by {
            if a < pos && b == pos {
                assert(t[a] == s[a]);
            } else if a == pos {
                assert(t[b] == s[b - 1]);
            } else if a < pos && b > pos {
                assert(t[a] == s[a]);
                assert(t[b] == s[b - 1]);
            } else if a > pos {
                assert(t[a] == s[a - 1]);
                assert(t[b] == s[b - 1]);
            } else {
                assert(t[a] == s[a]);
                assert(t[b] == s[b]);
            }
        }
    }
}

/// Each name of `items` with its total weight, the heaviest first and equal
/// weights by name.
pub fn tally(items: &Vec<(String, usize)>) -> (rows: Vec<(String, usize)>)
    requires
        total_weight(pairs(items@)) <= usize::MAX,
    ensures
        is_tally(pairs(items@), pairs(rows@)),
{
    let acc = gather(items);
    let ghost a = pairs(acc@);
    let mut out: Vec<(String, usize)> = Vec::new();
    let mut n: usize = 0;
    proof {
        assert(a.take(0) =~= Seq::<(Seq<char>, nat)>::empty());
        assert(pairs(out@) =~= Seq::<(Seq<char>, nat)>::empty());
    }
    while n < acc.len()
        invariant
            a == pairs(acc@),
            distinct_keys(a),
            n <= acc.len(),
            rows_ordered(pairs(out@)),
            distinct_keys(pairs(out@)),
            forall|k: Seq<char>| #[trigger] has_key(pairs(out@), k) == has_key(a.take(n as int), k),
            forall|k: Seq<char>| #[trigger] weight_of(pairs(out@), k) == weight_of(a.take(n as int), k),
        decreases acc.len() - n,
    {
        let ghost s = pairs(out@);
        proof {
            if has_key(s, a[n as int].0) {
                let b = choose|b: int| 0 <= b < a.take(n as int).len() && a.take(n as int)[b].0
                    == a[n as int].0;
                assert(a[b].0 == a[n as int].0);
            }
        }
        let row = (acc[n].0.clone(), acc[n].1);
        insert_row(&mut out, row);
        proof {
            let pos = choose|pos: int|
                0 <= pos <= s.len() && pairs(out@) == s.insert(pos, (row.0@, row.1 as nat));
            assert(a[n as int] == (row.0@, row.1 as nat));
            assert forall|k: Seq<char>| #[trigger] has_key(pairs(out@), k) == has_key(a.take(n + 1), k) by {
                lemma_weight_insert(s, pos, (row.0@, row.1 as nat), k);
                lemma_take_step(a, n as int, k);
            }
            assert forall|k: Seq<char>| #[trigger] weight_of(pairs(out@), k) == weight_of(a.take(n + 1), k) by {
                lemma_weight_insert(s, pos, (row.0@, row.1 as nat), k);
                lemma_take_step(a, n as int, k);
            }
        }
        n = n + 1;
    }
    assert(a.take(acc.len() as int) =~= a);
    out
}

/// The characters of each string.
pub open spec fn names(v: Seq<String>) -> Seq<Seq<char>> {
    v.map_values(|s: String| s@)
}

/// Each string sorts strictly before the next, so none occurs twice.
pub open spec fn strictly_sorted(v: Seq<Seq<char>>) -> bool {
    forall|i: int, j: int| 0 <= i < j < v.len() ==> lex_lt(v[i], v[j])
}

proof fn lemma_contains_push(s: Seq<Seq<char>>, x: Seq<char>, k: Seq<char>)
    ensures
        s.push(x).contains(k) == (s.contains(k) || k == x),
{
    let t = s.push(x);
    if s.contains(k) {
        let a = choose|a: int| 0 <= a < s.len() && s[a] == k;
        assert(t[a] == k);
    }
    if k == x {
        assert(t[s.len() as int] == k);
    }
    if t.contains(k) {
        let a = choose|a: int| 0 <= a < t.len() && t[a] == k;
        if a < s.len() {
            assert(s[a] == k);
        }
    }
}

/// The distinct strings of `v`, in order: what sorting and then removing
/// repeats leaves.
pub fn sorted_names(v: &Vec<String>) -> (r: Vec<String>)
    ensures
        strictly_sorted(names(r@)),
        forall|k: Seq<char>| #[trigger] names(r@).contains(k) == names(v@).contains(k),
{
    let mut out: Vec<String> = Vec::new();
    let mut i: usize = 0;
    while i < v.len()
        invariant
            i <= v.len(),
            strictly_sorted(names(out@)),
            forall|k: Seq<char>|
                #[trigger] names(out@).contains(k) == names(v@).take(i as int).contains(k),
        decreases v.len() - i,
    {
        let ghost s = names(out@);
        let ghost x = v@[i as int]@;
        let mut pos: usize = 0;
        while pos < out.len() && str_lt(&out[pos], &v[i])
            invariant
                pos <= out.len(),
                i < v.len(),
                s == names(out@),
                x == v@[i as int]@,
                forall|a: int| 0 <= a < pos ==> lex_lt(#[trigger] s[a], x),
            decreases out.len() - pos,
        {
            assert(s[pos as int] == out@[pos as int]@);
            pos = pos + 1;
        }
        proof {
            assert(names(v@).take(i + 1) =~= names(v@).take(i as int).push(x));
        }
        if pos < out.len() && out[pos] == v[i] {
            proof {
                assert(s[pos as int] == x);
                assert forall|k: Seq<char>| #[trigger] names(out@).contains(k) == names(v@).take(
                    i + 1,
                ).contains(k) by {
                    lemma_contains_push(names(v@).take(i as int), x, k);
                    if k == x {
                        assert(names(out@)[pos as int] == k);
                    }
                }
            }
        } else {
            proof {
                if pos < out.len() {
                    assert(s[pos as int] == out@[pos as int]@);
                    assert(s[pos as int] != x);
                    lemma_lex_total(s[pos as int], x);
                    assert forall|a: int| pos <= a < s.len() implies lex_lt(x, #[trigger] s[a]) by {
                        if a > pos {
                            lemma_lex_transitive(x, s[pos as int], s[a]);
                        }
                    }
                }
            }
            out.insert(pos, v[i].clone());
            proof {
                let t = names(out@);
                assert(t =~= s.insert(pos as int, x));
                assert forall|a: int, b: int| 0 <= a < b < t.len() implies lex_lt(t[a], t[b]) by {
                    if a < pos && b > pos {
                        assert(t[b] == s[b - 1]);
                    } else if a > pos {
                        assert(t[a] == s[a - 1]);
                        assert(t[b] == s[b - 1]);
                    }
                }
                assert forall|k: Seq<char>| #[trigger] t.contains(k) == names(v@).take(i + 1).contains(
                    k,
                ) by {
                    lemma_contains_push(names(v@).take(i as int), x, k);
                    assert(s.contains(k) == names(v@).take(i as int).contains(k));
                    if s.contains(k) {
                        let a = choose|a: int| 0 <= a < s.len() && s[a] == k;
                        if a < pos {
                            assert(t[a] == k);
                        } else {
                            assert(t[a + 1] == k);
                        }
                    }
                    if k == x {
                        assert(t[pos as int] == k);
                    }
                    if t.contains(k) {
                        let a = choose|a: int| 0 <= a < t.len() && t[a] == k;
                        if a < pos {
                            assert(s[a] == k);
                        } else if a > pos {
                            assert(s[a - 1] == k);
                        }
                    }
                }
            }
        }
        i = i + 1;
    }
    assert(names(v@).take(v.len() as int) =~= names(v@));
    out
}

} // verus!
