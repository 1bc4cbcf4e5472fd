//! What the command-line reports tally: fixups per target, imported symbols
//! per module, and resources per type.

use vstd::prelude::*;
use crate::order::{
    is_tally, lemma_take_step, lemma_total_prefix, lemma_weight_bounded, names, pairs,
    sorted_names, strictly_sorted, tally, total_weight, weight_of,
};
use crate::text::{decimal, extend_str, fmt_decimal, string_of};

verus! {

/// Each string with weight one.
pub open spec fn ones(v: Seq<String>) -> Seq<(Seq<char>, nat)> {
    v.map_values(|s: String| (s@, 1nat))
}

proof fn lemma_ones_total(v: Seq<String>)
    ensures
        total_weight(ones(v)) == v.len(),
    decreases v.len(),
{
    if v.len() > 0 {
        assert(ones(v).drop_last() =~= ones(v.drop_last()));
        lemma_ones_total(v.drop_last());
    }
}

/// Fixups collapsed to one row per target: how many patch sites point at
/// each target, the most referenced first and ties by name.
pub fn collapse_targets(targets: &Vec<String>) -> (rows: Vec<(String, usize)>)
    ensures
        is_tally(ones(targets@), pairs(rows@)),
{
    let mut items: Vec<(String, usize)> = Vec::new();
    let mut i: usize = 0;
    while i < targets.len()
        invariant
            i <= targets.len(),
            items.len() == i,
            forall|k: int| 0 <= k < i ==> (#[trigger] items@[k]).0@ == targets@[k]@ && items@[k].1 == 1,
        decreases targets.len() - i,
    {
        items.push((targets[i].clone(), 1));
        i = i + 1;
    }
    assert(pairs(items@) =~= ones(targets@));
    proof {
        lemma_ones_total(targets@);
    }
    tally(&items)
}

/// What one imported symbol counts for: its patch sites, and at least one,
/// since a fixup that patches nothing still names the symbol.
pub open spec fn use_weight(sites: nat) -> nat {
    if sites == 0 {
        1
    } else {
        sites
    }
}

/// Imports as values: module, symbol, patch sites.
pub open spec fn uses_view(u: Seq<(String, String, usize)>) -> Seq<(Seq<char>, Seq<char>, nat)> {
    u.map_values(|x: (String, String, usize)| (x.0@, x.1@, x.2 as nat))
}

/// The symbols imported from module `m`, each with what it counts for.
pub open spec fn symbols_of(u: Seq<(Seq<char>, Seq<char>, nat)>, m: Seq<char>) -> Seq<(Seq<char>, nat)>
    decreases u.len(),
{
    if u.len() == 0 {
        Seq::empty()
    } else if u.last().0 == m {
        symbols_of(u.drop_last(), m).push((u.last().1, use_weight(u.last().2)))
    } else {
        symbols_of(u.drop_last(), m)
    }
}

/// Whether some import comes from module `m`.
pub open spec fn imports_from(u: Seq<(Seq<char>, Seq<char>, nat)>, m: Seq<char>) -> bool {
    exists|j: int| 0 <= j < u.len() && #[trigger] u[j].0 == m
}

/// The module of each group.
pub open spec fn group_names(r: Seq<(String, Vec<(String, usize)>)>) -> Seq<Seq<char>> {
    r.map_values(|g: (String, Vec<(String, usize)>)| g.0@)
}

/// Imports grouped by module: every module that is referenced, whether or
/// not an import from it survives, in name order, each with the tally of
/// the symbols imported from it.
pub fn group_imports(uses: &Vec<(String, String, usize)>, modules: &Vec<String>) -> (r: Vec<
    (String, Vec<(String, usize)>),
>)
    requires
        forall|m: Seq<char>| #[trigger] total_weight(symbols_of(uses_view(uses@), m)) <= usize::MAX,
    ensures
        strictly_sorted(group_names(r@)),
        forall|k: Seq<char>|
            #[trigger] group_names(r@).contains(k) == (
            names(modules@).contains(k) || imports_from(uses_view(uses@), k)),
        forall|i: int|
            0 <= i < r.len() ==> is_tally(
                symbols_of(uses_view(uses@), #[trigger] r@[i].0@),
                pairs(r@[i].1@),
            ),
{
    let ghost u = uses_view(uses@);
    let mut all: Vec<String> = Vec::new();
    let mut i: usize = 0;
    while i < modules.len()
        invariant
            i <= modules.len(),
            all.len() == i,
            forall|k: int| 0 <= k < i ==> (#[trigger] all@[k])@ == modules@[k]@,
        decreases modules.len() - i,
    {
        all.push(modules[i].clone());
        i = i + 1;
    }
    assert(names(all@) =~= names(modules@));
    let mut j: usize = 0;
    while j < uses.len()
        invariant
            j <= uses.len(),
            u == uses_view(uses@),
            all.len() == modules.len() + j,
            forall|k: int| 0 <= k < modules.len() ==> (#[trigger] all@[k])@ == modules@[k]@,
            forall|k: int| 0 <= k < j ==> (#[trigger] all@[modules.len() + k])@ == uses@[k].0@,
        decreases uses.len() - j,
    {
        all.push(uses[j].0.clone());
        j = j + 1;
    }
    let mods = sorted_names(&all);
    proof {
        assert forall|k: Seq<char>| #[trigger] names(all@).contains(k) == (names(
            modules@,
        ).contains(k) || imports_from(u, k)) by {
            let nm = names(modules@);
            if names(all@).contains(k) {
                let a = choose|a: int| 0 <= a < names(all@).len() && names(all@)[a] == k;
                if a >= nm.len() {
                    let b = a - modules.len();
                    assert(all@[modules.len() + b]@ == uses@[b].0@);
                    assert(u[b].0 == k);
                } else {
                    assert(all@[a]@ == modules@[a]@);
                    assert(nm[a] == k);
                }
            }
            if nm.contains(k) {
                let a = choose|a: int| 0 <= a < nm.len() && nm[a] == k;
                assert(all@[a]@ == modules@[a]@);
                assert(names(all@)[a] == k);
            }
            if imports_from(u, k) {
                let b = choose|b: int| 0 <= b < u.len() && u[b].0 == k;
                assert(all@[modules.len() + b]@ == uses@[b].0@);
                assert(names(all@)[nm.len() + b] == k);
            }
        }
    }
    let mut out: Vec<(String, Vec<(String, usize)>)> = Vec::new();
    let mut n: usize = 0;
    while n < mods.len()
        invariant
            n <= mods.len(),
            u == uses_view(uses@),
            forall|m: Seq<char>| #[trigger] total_weight(symbols_of(u, m)) <= usize::MAX,
            out.len() == n,
            forall|a: int| 0 <= a < n ==> #[trigger] out@[a].0@ == mods@[a]@,
            forall|a: int|
                0 <= a < n ==> is_tally(symbols_of(u, #[trigger] out@[a].0@), pairs(out@[a].1@)),
        decreases mods.len() - n,
    {
        let m = &mods[n];
        let mut items: Vec<(String, usize)> = Vec::new();
        let mut k: usize = 0;
        while k < uses.len()
            invariant
                k <= uses.len(),
                u == uses_view(uses@),
                pairs(items@) == symbols_of(u.take(k as int), m@),
            decreases uses.len() - k,
        {
            proof {
                assert(u.take(k + 1).drop_last() =~= u.take(k as int));
                assert(u.take(k + 1).last() == u[k as int]);
            }
            if uses[k].0 == *m {
                let w = if uses[k].2 == 0 {
                    1
                } else {
                    uses[k].2
                };
                items.push((uses[k].1.clone(), w));
            }
            k = k + 1;
            assert(pairs(items@) =~= symbols_of(u.take(k as int), m@));
        }
        assert(u.take(uses.len() as int) =~= u);
        let rows = tally(&items);
        out.push((m.clone(), rows));
        n = n + 1;
    }
    proof {
        let ks = group_names(out@);
        assert(ks =~= names(mods@));
    }
    out
}

/// Resources as values: type name and length in bytes.
pub open spec fn res_count(v: Seq<(String, u32)>) -> Seq<(Seq<char>, nat)> {
    v.map_values(|x: (String, u32)| (x.0@, 1nat))
}

/// Resources as values: type name and length in bytes.
pub open spec fn res_bytes(v: Seq<(String, u32)>) -> Seq<(Seq<char>, nat)> {
    v.map_values(|x: (String, u32)| (x.0@, x.1 as nat))
}

/// The type of each row of a summary.
pub open spec fn summary_names(r: Seq<(String, usize, u64)>) -> Seq<Seq<char>> {
    r.map_values(|x: (String, usize, u64)| x.0@)
}

/// The type name of each resource.
pub open spec fn res_types(v: Seq<(String, u32)>) -> Seq<Seq<char>> {
    v.map_values(|x: (String, u32)| x.0@)
}

/// Resources summed by type name: the types in name order, each with how
/// many resources have it and their bytes in all.
pub fn resource_summary(res: &Vec<(String, u32)>) -> (r: Vec<(String, usize, u64)>)
    requires
        total_weight(res_bytes(res@)) <= u64::MAX,
    ensures
        strictly_sorted(summary_names(r@)),
        forall|k: Seq<char>|
            #[trigger] summary_names(r@).contains(k) == res_types(res@).contains(k),
        forall|i: int|
            0 <= i < r.len() ==> r@[i].1 == weight_of(res_count(res@), #[trigger] r@[i].0@) && r@[i].2
                == weight_of(res_bytes(res@), r@[i].0@),
{
    let ghost c = res_count(res@);
    let ghost b = res_bytes(res@);
    let mut types: Vec<String> = Vec::new();
    let mut i: usize = 0;
    while i < res.len()
        invariant
            i <= res.len(),
            types.len() == i,
            forall|k: int| 0 <= k < i ==> (#[trigger] types@[k])@ == res@[k].0@,
        decreases res.len() - i,
    {
        types.push(res[i].0.clone());
        i = i + 1;
    }
    assert(names(types@) =~= res_types(res@));
    let sorted = sorted_names(&types);
    let mut out: Vec<(String, usize, u64)> = Vec::new();
    let mut n: usize = 0;
    while n < sorted.len()
        invariant
            n <= sorted.len(),
            c == res_count(res@),
            b == res_bytes(res@),
            total_weight(b) <= u64::MAX,
            out.len() == n,
            forall|a: int| 0 <= a < n ==> #[trigger] out@[a].0@ == sorted@[a]@,
            forall|a: int|
                0 <= a < n ==> (#[trigger] out@[a]).1 == weight_of(c, out@[a].0@) && out@[a].2
                    == weight_of(b, out@[a].0@),
        decreases sorted.len() - n,
    {
        let t = &sorted[n];
        let mut count: usize = 0;
        let mut bytes: u64 = 0;
        let mut k: usize = 0;
        while k < res.len()
            invariant
                k <= res.len(),
                c == res_count(res@),
                b == res_bytes(res@),
                total_weight(b) <= u64::MAX,
                count == weight_of(c.take(k as int), t@),
                bytes == weight_of(b.take(k as int), t@),
                count <= k,
            decreases res.len() - k,
        {
            proof {
                lemma_take_step(c, k as int, t@);
                lemma_take_step(b, k as int, t@);
                lemma_total_prefix(b, k + 1);
                lemma_weight_bounded(b.take(k + 1), t@);
            }
            if res[k].0 == *t {
                count = count + 1;
                bytes = bytes + res[k].1 as u64;
            }
            k = k + 1;
        }
        assert(c.take(res.len() as int) =~= c);
        assert(b.take(res.len() as int) =~= b);
        out.push((t.clone(), count, bytes));
        n = n + 1;
    }
    proof {
        let ks = summary_names(out@);
        assert(ks =~= names(sorted@));
    }
    out
}

/// The symbol an import by ordinal is listed under: the name the ordinal
/// tables give it followed by `@ordinal`, or `@ordinal` alone.
pub fn import_symbol(name: Option<&str>, ordinal: u16) -> (r: String)
    ensures
        r@ == match name {
            Some(n) => n@ + " @"@ + decimal(ordinal as nat),
            None => "@"@ + decimal(ordinal as nat),
        },
{
    let mut v: Vec<char> = Vec::new();
    match name {
        Some(n) => {
            extend_str(&mut v, n);
            extend_str(&mut v, " @");
        },
        None => {
            extend_str(&mut v, "@");
        },
    }
    let d = fmt_decimal(ordinal as u64);
    crate::text::extend(&mut v, &d);
    string_of(&v)
}

} // verus!
