//! Resource selection and the names extracted files are written under.

use vstd::prelude::*;
use crate::numparse::{parse_radix, parse_uint, IntError};
use crate::text::{
    lemma_decimal_digits, lemma_decimal_injective, chars_eq, chars_of, decimal, decimal_padded, eq_ignore_ascii_case, extend, extend_str, fmt_decimal,
    fmt_decimal_padded, lower, string_of, strip_leading, strip_leading_chars, to_lower, trim,
    trim_chars,
};

verus! {

/// A resource type or name: a number, or a string.
#[derive(Debug, PartialEq, Eq)]
pub enum ResId {
    Id(u16),
    Name(String),
}

/// A resource id as a value.
pub enum ResIdV {
    Id(u16),
    Name(Seq<char>),
}

impl View for ResId {
    type V = ResIdV;

    open spec fn view(&self) -> ResIdV {
        match self {
            ResId::Id(n) => ResIdV::Id(*n),
            ResId::Name(s) => ResIdV::Name(s@),
        }
    }
}

/// The resource subcommands of the command line.
#[derive(Debug)]
pub enum ResCmd {
    /// List the resource directory.
    List { file: String },
    /// Decode one resource, or every resource of a type.
    Show { file: String, res_type: String, id: Option<String> },
    /// Write every resource to a directory as a usable file.
    Extract { file: String, outdir: String, raw: bool },
}

impl ResCmd {
    /// The binary the subcommand reads.
    pub fn file(&self) -> (r: &String)
        ensures
            r@ == match self {
                ResCmd::List { file } => file@,
                ResCmd::Show { file, .. } => file@,
                ResCmd::Extract { file, .. } => file@,
            },
    {
        match self {
            ResCmd::List { file } => file,
            ResCmd::Show { file, .. } => file,
            ResCmd::Extract { file, .. } => file,
        }
    }
}

/// Whether a resource of type `type_id`, displayed as `shown_as`, is what
/// `arg` asks for: the type's number, or its name in any case.
pub open spec fn type_wanted(type_id: ResIdV, shown_as: Seq<char>, arg: Seq<char>) -> bool {
    (exists|n: u16|
        parse_uint(arg, 10, u16::MAX as nat) == Ok::<nat, IntError>(n as nat) && type_id
            == ResIdV::Id(n)) || lower(shown_as) == lower(arg)
}

/// Whether a resource of type `type_id` is what `--type arg` asks for.
pub fn type_matches(type_id: &ResId, shown_as: &str, arg: &str) -> (r: bool)
    ensures
        r == type_wanted(type_id@, shown_as@, arg@),
{
    let a = chars_of(arg);
    if let Ok(n) = parse_radix(&a, 10, 0xFFFF) {
        proof {
            crate::numparse::lemma_parse_bounded(arg@, 10, u16::MAX as nat);
        }
        if let ResId::Id(t) = type_id {
            if *t as u64 == n {
                return true;
            }
        }
    }
    proof {
        crate::numparse::lemma_parse_bounded(arg@, 10, u16::MAX as nat);
    }
    eq_ignore_ascii_case(shown_as, arg)
}

/// Whether a resource with id `res_id` is what `--id arg` asks for. A
/// leading `#` is passed over, as resource scripts write numeric ids.
pub open spec fn id_wanted(res_id: ResIdV, arg: Seq<char>) -> bool {
    let a = strip_leading(arg, '#');
    match res_id {
        ResIdV::Id(n) => parse_uint(a, 10, u16::MAX as nat) == Ok::<nat, IntError>(n as nat),
        ResIdV::Name(s) => lower(s) == lower(a),
    }
}

/// Whether a resource with id `res_id` is what `--id arg` asks for.
pub fn id_matches(res_id: &ResId, arg: &str) -> (r: bool)
    ensures
        r == id_wanted(res_id@, arg@),
{
    let a = strip_leading_chars(&chars_of(arg), '#');
    match res_id {
        ResId::Id(n) => match parse_radix(&a, 10, 0xFFFF) {
            Ok(v) => v == *n as u64,
            Err(_) => false,
        },
        ResId::Name(s) => {
            let t = string_of(&a);
            eq_ignore_ascii_case(s.as_str(), t.as_str())
        },
    }
}

/// How many of the first `i` labels are `l`.
pub open spec fn seen_before(labels: Seq<Seq<char>>, i: int, l: Seq<char>) -> nat
    decreases i,
{
    if i <= 0 {
        0
    } else {
        seen_before(labels, i - 1, l) + if labels[i - 1] == l {
            1nat
        } else {
            0nat
        }
    }
}

/// `l` numbered `n`: `l_n`.
pub open spec fn numbered(l: Seq<char>, n: nat) -> Seq<char> {
    l + "_"@ + decimal(n)
}

/// The first of `l_n`, `l_(n+1)`, ... that `used` does not hold, looking
/// at most `steps` numbers further.
pub open spec fn first_free(used: Seq<Seq<char>>, l: Seq<char>, n: nat, steps: nat) -> nat
    decreases steps,
{
    if steps == 0 || !used.contains(numbered(l, n)) {
        n
    } else {
        first_free(used, l, n + 1, (steps - 1) as nat)
    }
}

/// The file label of the `i`-th resource once the earlier ones have taken
/// the names `used`: its own label the first time the label occurs, if no
/// earlier file has that name; otherwise the label numbered by how many
/// times it has occurred (`label_2` for the second), raised past every
/// number already taken.
pub open spec fn label_for(used: Seq<Seq<char>>, labels: Seq<Seq<char>>, i: int) -> Seq<char> {
    let l = labels[i];
    let k = seen_before(labels, i, l) + 1;
    if k == 1 && !used.contains(l) {
        l
    } else {
        numbered(l, first_free(used, l, if k >= 2 { k } else { 2 }, used.len()))
    }
}

/// The file labels of the first `n` resources.
pub open spec fn file_labels(labels: Seq<Seq<char>>, n: int) -> Seq<Seq<char>>
    decreases n,
{
    if n <= 0 {
        Seq::empty()
    } else {
        let used = file_labels(labels, n - 1);
        used.push(label_for(used, labels, n - 1))
    }
}

/// No two entries of `s` are the same.
pub open spec fn all_distinct(s: Seq<Seq<char>>) -> bool {
    forall|a: int, b: int| 0 <= a < b < s.len() ==> #[trigger] s[a] != #[trigger] s[b]
}

proof fn lemma_numbered_split(p: Seq<char>, q: Seq<char>, a: nat, b: nat)
    requires
        p + "_"@ + decimal(a) == q + "_"@ + decimal(b),
    ensures
        p == q,
        a == b,
{
    reveal_strlit("_");
    lemma_decimal_digits(a);
    lemma_decimal_digits(b);
    let (da, db) = (decimal(a), decimal(b));
    let x = p + "_"@ + da;
    assert(x.len() == p.len() + 1 + da.len());
    assert(x.len() == q.len() + 1 + db.len());
    if da.len() < db.len() {
        let pos = p.len() as int;
        assert(x[pos] == '_');
        assert(x[pos] == db[pos - q.len() - 1]);
    } else if db.len() < da.len() {
        let pos = q.len() as int;
        assert((q + "_"@ + db)[pos] == '_');
        assert(x[pos] == da[pos - p.len() - 1]);
    } else {
        assert forall|k: int| 0 <= k < p.len() implies p[k] == q[k] by {
            assert(x[k] == p[k]);
            assert((q + "_"@ + db)[k] == q[k]);
        }
        assert(p =~= q);
        assert forall|k: int| 0 <= k < da.len() implies da[k] == db[k] by {
            assert(x[p.len() + 1 + k] == da[k]);
            assert((q + "_"@ + db)[q.len() + 1 + k] == db[k]);
        }
        assert(da =~= db);
        lemma_decimal_injective(a, b);
    }
}

proof fn lemma_pigeonhole(used: Seq<Seq<char>>, cands: Seq<Seq<char>>)
    requires
        cands.len() > used.len(),
        all_distinct(cands),
    ensures
        exists|x: int| 0 <= x < cands.len() && !used.contains(#[trigger] cands[x]),
    decreases used.len(),
{
    if used.len() == 0 {
        assert(!used.contains(cands[0]));
    } else {
        let u = used.last();
        let rest = used.drop_last();
        if cands.contains(u) {
            let p = choose|p: int| 0 <= p < cands.len() && cands[p] == u;
            let c2 = cands.remove(p);
            assert forall|a: int, b: int| 0 <= a < b < c2.len() implies #[trigger] c2[a] != #[trigger] c2[b] by {
                let a2 = if a < p { a } else { a + 1 };
                let b2 = if b < p { b } else { b + 1 };
                assert(c2[a] == cands[a2] && c2[b] == cands[b2]);
            }
            lemma_pigeonhole(rest, c2);
            let x = choose|x: int| 0 <= x < c2.len() && !rest.contains(#[trigger] c2[x]);
            let x2 = if x < p { x } else { x + 1 };
            assert(c2[x] == cands[x2]);
            assert(cands[x2] != u);
            assert(!used.contains(cands[x2])) by {
                if used.contains(cands[x2]) {
                    let q = choose|q: int| 0 <= q < used.len() && used[q] == cands[x2];
                    if q < rest.len() {
                        assert(rest[q] == used[q]);
                    }
                }
            }
        } else {
            lemma_pigeonhole(rest, cands);
            let x = choose|x: int| 0 <= x < cands.len() && !rest.contains(#[trigger] cands[x]);
            assert(!used.contains(cands[x])) by {
                if used.contains(cands[x]) {
                    let q = choose|q: int| 0 <= q < used.len() && used[q] == cands[x];
                    if q < rest.len() {
                        assert(rest[q] == used[q]);
                    } else {
                        assert(cands.contains(u));
                    }
                }
            }
        }
    }
}

proof fn lemma_first_free_range(used: Seq<Seq<char>>, l: Seq<char>, n: nat, steps: nat)
    ensures
        n <= first_free(used, l, n, steps) <= n + steps,
        used.contains(numbered(l, first_free(used, l, n, steps))) ==> forall|j: nat|
            n <= j <= n + steps ==> used.contains(#[trigger] numbered(l, j)),
    decreases steps,
{
    if steps > 0 && used.contains(numbered(l, n)) {
        lemma_first_free_range(used, l, n + 1, (steps - 1) as nat);
    }
}

/// The number `first_free` settles on is free indeed.
proof fn lemma_first_free(used: Seq<Seq<char>>, l: Seq<char>, n: nat)
    ensures
        !used.contains(numbered(l, first_free(used, l, n, used.len()))),
{
    lemma_first_free_range(used, l, n, used.len());
    if used.contains(numbered(l, first_free(used, l, n, used.len()))) {
        let cands = Seq::new(used.len() + 1, |j: int| numbered(l, (n + j) as nat));
        assert forall|a: int, b: int| 0 <= a < b < cands.len() implies #[trigger] cands[a] != #[trigger] cands[b] by {
            if cands[a] == cands[b] {
                lemma_numbered_split(l, l, (n + a) as nat, (n + b) as nat);
            }
        }
        lemma_pigeonhole(used, cands);
        let x = choose|x: int| 0 <= x < cands.len() && !used.contains(#[trigger] cands[x]);
        assert(used.contains(numbered(l, (n + x) as nat)));
    }
}

/// Every resource's file label differs from the earlier ones', so no
/// extracted file overwrites another.
pub proof fn lemma_file_labels_distinct(labels: Seq<Seq<char>>, n: int)
    requires
        0 <= n <= labels.len(),
    ensures
        file_labels(labels, n).len() == n,
        all_distinct(file_labels(labels, n)),
    decreases n,
{
    if n > 0 {
        lemma_file_labels_distinct(labels, n - 1);
        let used = file_labels(labels, n - 1);
        let t = label_for(used, labels, n - 1);
        let l = labels[n - 1];
        let k = seen_before(labels, n - 1, l) + 1;
        if !(k == 1 && !used.contains(l)) {
            lemma_first_free(used, l, if k >= 2 { k } else { 2 });
        }
        let r = used.push(t);
        assert forall|a: int, b: int| 0 <= a < b < r.len() implies #[trigger] r[a] != #[trigger] r[b] by {
            if b == used.len() {
                assert(r[a] == used[a]);
                assert(used.contains(used[a]));
            } else {
                assert(r[a] == used[a] && r[b] == used[b]);
            }
        }
    }
}

/// Whether `v` holds a string with the characters of `t`.
fn holds(v: &Vec<String>, t: &[char]) -> (r: bool)
    ensures
        r == v@.map_values(|s: String| s@).contains(t@),
{
    let ghost vs = v@.map_values(|s: String| s@);
    let mut i: usize = 0;
    while i < v.len()
        invariant
            i <= v.len(),
            vs == v@.map_values(|s: String| s@),
            forall|k: int| 0 <= k < i ==> vs[k] != t@,
        decreases v.len() - i,
    {
        if chars_eq(&chars_of(v[i].as_str()), t) {
            assert(vs[i as int] == t@);
            return true;
        }
        i = i + 1;
    }
    false
}

/// `l_n` as characters.
fn numbered_chars(l: &str, n: usize) -> (r: Vec<char>)
    ensures
        r@ == numbered(l@, n as nat),
{
    let mut v = chars_of(l);
    extend_str(&mut v, "_");
    extend(&mut v, &fmt_decimal(n as u64));
    proof {
        reveal_strlit("_");
    }
    assert(v@ =~= numbered(l@, n as nat));
    v
}

/// Labels for extracted resources. Resource names are not unique, so a
/// repeated label gets a number (`label_2` for the second, `label_3` for
/// the third) instead of overwriting the earlier file; where that name is
/// already taken, by a resource whose own label reads like it, the number
/// goes up until it is free. No two resources get the same label.
pub fn unique_labels(labels: &Vec<String>) -> (r: Vec<String>)
    requires
        labels.len() <= usize::MAX / 4,
    ensures
        r@.map_values(|s: String| s@) == file_labels(
            labels@.map_values(|s: String| s@),
            labels.len() as int,
        ),
        all_distinct(r@.map_values(|s: String| s@)),
{
    let ghost ls = labels@.map_values(|s: String| s@);
    let mut out: Vec<String> = Vec::new();
    let mut i: usize = 0;
    assert(out@.map_values(|s: String| s@) =~= file_labels(ls, 0));
    while i < labels.len()
        invariant
            i <= labels.len(),
            labels.len() <= usize::MAX / 4,
            ls == labels@.map_values(|s: String| s@),
            out.len() == i,
            out@.map_values(|s: String| s@) == file_labels(ls, i as int),
        decreases labels.len() - i,
    {
        let ghost used = out@.map_values(|s: String| s@);
        let mut seen: usize = 0;
        let mut j: usize = 0;
        while j < i
            invariant
                j <= i < labels.len(),
                ls == labels@.map_values(|s: String| s@),
                seen == seen_before(ls, j as int, ls[i as int]),
                seen <= j,
            decreases i - j,
        {
            if labels[j] == labels[i] {
                seen = seen + 1;
            }
            j = j + 1;
        }
        let k = seen + 1;
        let own = chars_of(labels[i].as_str());
        let label = if k == 1 && !holds(&out, &own) {
            labels[i].clone()
        } else {
            let mut m: usize = if k >= 2 { k } else { 2 };
            let mut steps: usize = 0;
            let mut cand = numbered_chars(labels[i].as_str(), m);
            while steps < out.len() && holds(&out, &cand)
                invariant
                    i < labels.len(),
                    labels.len() <= usize::MAX / 4,
                    ls == labels@.map_values(|s: String| s@),
                    used == out@.map_values(|s: String| s@),
                    used.len() == i,
                    steps <= i,
                    m == (if k >= 2 { k } else { 2 }) + steps,
                    k <= i + 1,
                    cand@ == numbered(ls[i as int], m as nat),
                    first_free(used, ls[i as int], (if k >= 2 { k } else { 2 }) as nat, used.len())
                        == first_free(used, ls[i as int], m as nat, (used.len() - steps) as nat),
                decreases out.len() - steps,
            {
                m = m + 1;
                steps = steps + 1;
                cand = numbered_chars(labels[i].as_str(), m);
            }
            string_of(&cand)
        };
        proof {
            assert(label@ == label_for(used, ls, i as int));
        }
        out.push(label);
        proof {
            assert(out@.map_values(|s: String| s@) =~= used.push(label_for(used, ls, i as int)));
        }
        i = i + 1;
    }
    proof {
        lemma_file_labels_distinct(ls, labels.len() as int);
    }
    out
}

/// Whether an extracted resource also gets its decoded text beside it:
/// not for raw extraction, not when there is no text or only white space,
/// and not for cursors, bitmaps, icons and their groups (types 1, 2, 3, 12
/// and 14), whose text is a mere description of the image.
pub open spec fn wants_text(raw: bool, text: Option<Seq<char>>, type_id: Option<u16>) -> bool {
    &&& !raw
    &&& text matches Some(t) && trim(t).len() > 0
    &&& !(type_id matches Some(n) && (n == 1 || n == 2 || n == 3 || n == 12 || n == 14))
}

/// Whether an extracted resource also gets a decoded text file.
pub fn wants_text_file(raw: bool, text: Option<&str>, type_id: Option<u16>) -> (r: bool)
    ensures
        r == wants_text(raw, match text {
            Some(t) => Some(t@),
            None => None::<Seq<char>>,
        }, type_id),
{
    if raw {
        return false;
    }
    match text {
        None => false,
        Some(t) => {
            let trimmed = trim_chars(&chars_of(t));
            if trimmed.len() == 0 {
                return false;
            }
            match type_id {
                Some(n) => !(n == 1 || n == 2 || n == 3 || n == 12 || n == 14),
                None => true,
            }
        },
    }
}

/// The file a segment is extracted to: `seg`, the number in at least two
/// digits, `_`, the segment kind in lower case, `.bin`.
pub open spec fn segment_file(index: u16, kind: Seq<char>) -> Seq<char> {
    "seg"@ + decimal_padded(index as nat, 2) + "_"@ + lower(kind) + ".bin"@
}

/// The file a segment is extracted to.
pub fn segment_file_name(index: u16, kind: &str) -> (r: String)
    ensures
        r@ == segment_file(index, kind@),
{
    let mut v: Vec<char> = Vec::new();
    extend_str(&mut v, "seg");
    let d = fmt_decimal_padded(index as u64, 2);
    extend(&mut v, &d);
    extend_str(&mut v, "_");
    let k = to_lower(&chars_of(kind));
    extend(&mut v, &k);
    extend_str(&mut v, ".bin");
    string_of(&v)
}

/// The file name offered when one resource is saved: its label with `.bin`
/// for the raw bytes, or with the extension of the file it is rebuilt as.
pub fn resource_file_name(label: &str, extension: &str, raw: bool) -> (r: String)
    ensures
        r@ == label@ + "."@ + if raw {
            "bin"@
        } else {
            extension@
        },
{
    let mut v = chars_of(label);
    extend_str(&mut v, ".");
    if raw {
        extend_str(&mut v, "bin");
    } else {
        extend_str(&mut v, extension);
    }
    string_of(&v)
}

/// Whether segment `index` is reported, under an optional `--segment`
/// filter, when reports skip segments with nothing to show.
pub fn segment_wanted(filter: Option<u16>, index: u16, has_content: bool) -> (r: bool)
    ensures
        r == (has_content && match filter {
            Some(n) => n == index,
            None => true,
        }),
{
    has_content && match filter {
        Some(n) => n == index,
        None => true,
    }
}

/// The range a disassembly covers. With `--func`, the function that starts
/// exactly there (its start and end, given as `found`) or, when none does,
/// a window of 0x600 bytes cut at the segment's end; otherwise `--start`
/// (the segment's start when none is given) to `--end`.
pub fn listing_range(
    func: Option<u32>,
    start: Option<u32>,
    end: Option<u32>,
    found: Option<(u32, u32)>,
    seg_len: u32,
) -> (r: (u32, Option<u32>))
    requires
        found is None ==> (func matches Some(off) ==> off + 0x600 <= u32::MAX),
    ensures
        r == match func {
            Some(off) => match found {
                Some((s, e)) => (s, Some(e)),
                None => (off, Some(if off + 0x600 < seg_len {
                    (off + 0x600) as u32
                } else {
                    seg_len
                })),
            },
            None => (
                match start {
                    Some(s) => s,
                    None => 0u32,
                },
                end,
            ),
        },
{
    match func {
        Some(off) => match found {
            Some((s, e)) => (s, Some(e)),
            None => {
                let w = off + 0x600;
                (off, Some(if w < seg_len { w } else { seg_len }))
            },
        },
        None => (
            match start {
                Some(s) => s,
                None => 0,
            },
            end,
        ),
    }
}

} // verus!
