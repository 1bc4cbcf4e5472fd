//! Small string utilities shared by every module: character access, pushing
//! characters, and the specifications they are stated against.

use vstd::prelude::*;

verus! {

/// `String::push`: append one character.
#[verifier::external_body]
pub(crate) fn push_char(s: &mut String, c: char)
    ensures
        final(s)@ == old(s)@.push(c),
{
    s.push(c);
}

/// The characters of `s`, in order.
pub fn chars_of(s: &str) -> (r: Vec<char>)
    ensures
        r@ == s@,
{
    let n = s.unicode_len();
    let mut out: Vec<char> = Vec::new();
    let mut i: usize = 0;
    while i < n
        invariant
            n == s@.len(),
            i <= n,
            out@ == s@.subrange(0, i as int),
        decreases n - i,
    {
        let c = s.get_char(i);
        out.push(c);
        i = i + 1;
    }
    assert(out@ =~= s@);
    out
}

/// A `String` holding exactly the characters of `v`.
pub fn string_of(v: &[char]) -> (r: String)
    ensures
        r@ == v@,
{
    let mut out = String::new();
    let mut i: usize = 0;
    while i < v.len()
        invariant
            i <= v.len(),
            out@ == v@.subrange(0, i as int),
        decreases v.len() - i,
    {
        push_char(&mut out, v[i]);
        i = i + 1;
    }
    assert(out@ =~= v@);
    out
}

/// A copy of `s` as an owned `String`.
pub fn owned(s: &str) -> (r: String)
    ensures
        r@ == s@,
{
    String::from_str(s)
}

/// `s` followed by `t`.
pub fn cat(s: &str, t: &str) -> (r: String)
    ensures
        r@ == s@ + t@,
{
    let mut out = String::from_str(s);
    out.append(t);
    out
}

} // verus!

verus! {

/// Whether two strings hold the same characters.
pub(crate) fn str_eq(a: &str, b: &str) -> (r: bool)
    ensures
        r == (a@ == b@),
{
    chars_eq(&chars_of(a), &chars_of(b))
}

} // verus!

verus! {

/// Unicode `White_Space`, the set `char::is_whitespace` and `str::trim` use.
pub open spec fn is_ws(c: char) -> bool {
    ||| ('\u{9}' <= c && c <= '\u{d}')
    ||| c == ' '
    ||| c == '\u{85}'
    ||| c == '\u{a0}'
    ||| c == '\u{1680}'
    ||| ('\u{2000}' <= c && c <= '\u{200a}')
    ||| c == '\u{2028}'
    ||| c == '\u{2029}'
    ||| c == '\u{202f}'
    ||| c == '\u{205f}'
    ||| c == '\u{3000}'
}

/// `char::is_whitespace`.
pub fn is_whitespace(c: char) -> (r: bool)
    ensures
        r == is_ws(c),
{
    ('\u{9}' <= c && c <= '\u{d}') || c == ' ' || c == '\u{85}' || c == '\u{a0}' || c
        == '\u{1680}' || ('\u{2000}' <= c && c <= '\u{200a}') || c == '\u{2028}' || c
        == '\u{2029}' || c == '\u{202f}' || c == '\u{205f}' || c == '\u{3000}'
}

/// `s` without its leading white space.
pub open spec fn trim_start(s: Seq<char>) -> Seq<char>
    decreases s.len(),
{
    if s.len() > 0 && is_ws(s[0]) {
        trim_start(s.drop_first())
    } else {
        s
    }
}

/// `s` without its trailing white space.
pub open spec fn trim_end(s: Seq<char>) -> Seq<char>
    decreases s.len(),
{
    if s.len() > 0 && is_ws(s.last()) {
        trim_end(s.drop_last())
    } else {
        s
    }
}

/// `s` without leading or trailing white space, as `str::trim` gives it.
pub open spec fn trim(s: Seq<char>) -> Seq<char> {
    trim_end(trim_start(s))
}

/// The first index at or after `lo` that is not white space, scanning no
/// further than `hi`.
proof fn lemma_trim_start_skip(s: Seq<char>, i: int)
    requires
        0 <= i <= s.len(),
        forall|j: int| 0 <= j < i ==> is_ws(#[trigger] s[j]),
    ensures
        trim_start(s) == trim_start(s.subrange(i, s.len() as int)),
    decreases i,
{
    if i > 0 {
        assert(s.drop_first().subrange(i - 1, s.drop_first().len() as int) =~= s.subrange(
            i,
            s.len() as int,
        ));
        lemma_trim_start_skip(s.drop_first(), i - 1);
    } else {
        assert(s.subrange(0, s.len() as int) =~= s);
    }
}

proof fn lemma_trim_end_skip(s: Seq<char>, k: int)
    requires
        0 <= k <= s.len(),
        forall|j: int| k <= j < s.len() ==> is_ws(#[trigger] s[j]),
    ensures
        trim_end(s) == trim_end(s.subrange(0, k)),
    decreases s.len() - k,
{
    if k < s.len() {
        assert(s.drop_last().subrange(0, k) =~= s.subrange(0, k));
        lemma_trim_end_skip(s.drop_last(), k);
    } else {
        assert(s.subrange(0, k) =~= s);
    }
}

/// The characters of `s` with leading and trailing white space removed.
pub fn trim_chars(s: &[char]) -> (r: Vec<char>)
    ensures
        r@ == trim(s@),
{
    let n = s.len();
    let mut lo: usize = 0;
    while lo < n && is_whitespace(s[lo])
        invariant
            n == s@.len(),
            lo <= n,
            forall|j: int| 0 <= j < lo ==> is_ws(#[trigger] s@[j]),
        decreases n - lo,
    {
        lo = lo + 1;
    }
    proof {
        lemma_trim_start_skip(s@, lo as int);
    }
    let ghost t = s@.subrange(lo as int, n as int);
    assert(lo == n || !is_ws(t[0]));
    assert(trim_start(t) == t) by {
        if t.len() > 0 {
            assert(!is_ws(t[0]));
        }
    }
    let mut hi: usize = n;
    while hi > lo && is_whitespace(s[hi - 1])
        invariant
            n == s@.len(),
            lo <= hi <= n,
            t == s@.subrange(lo as int, n as int),
            forall|j: int| hi - lo <= j < t.len() ==> is_ws(#[trigger] t[j]),
        decreases hi - lo,
    {
        hi = hi - 1;
    }
    proof {
        lemma_trim_end_skip(t, hi - lo);
        let u = t.subrange(0, hi - lo);
        assert(u.len() == 0 || !is_ws(u.last()));
    }
    let mut out: Vec<char> = Vec::new();
    let mut i: usize = lo;
    while i < hi
        invariant
            n == s@.len(),
            lo <= i <= hi <= n,
            out@ == s@.subrange(lo as int, i as int),
        decreases hi - i,
    {
        out.push(s[i]);
        i = i + 1;
    }
    assert(out@ =~= t.subrange(0, hi - lo));
    out
}

/// ASCII lower-casing of one character.
pub open spec fn lower_char(c: char) -> char {
    if 'A' <= c && c <= 'Z' {
        ((c as u32) + 32) as char
    } else {
        c
    }
}

/// ASCII upper-casing of one character.
pub open spec fn upper_char(c: char) -> char {
    if 'a' <= c && c <= 'z' {
        ((c as u32) - 32) as char
    } else {
        c
    }
}

/// `str::to_ascii_lowercase`.
pub open spec fn lower(s: Seq<char>) -> Seq<char> {
    s.map_values(|c: char| lower_char(c))
}

/// `str::to_ascii_uppercase`.
pub open spec fn upper(s: Seq<char>) -> Seq<char> {
    s.map_values(|c: char| upper_char(c))
}

/// `char::to_ascii_lowercase`.
pub fn to_lower_char(c: char) -> (r: char)
    ensures
        r == lower_char(c),
{
    if 'A' <= c && c <= 'Z' {
        (((c as u32) + 32) as u8) as char
    } else {
        c
    }
}

/// `char::to_ascii_uppercase`.
pub fn to_upper_char(c: char) -> (r: char)
    ensures
        r == upper_char(c),
{
    if 'a' <= c && c <= 'z' {
        (((c as u32) - 32) as u8) as char
    } else {
        c
    }
}

/// The ASCII lower-case form of `s`.
pub fn to_lower(s: &[char]) -> (r: Vec<char>)
    ensures
        r@ == lower(s@),
{
    let mut out: Vec<char> = Vec::new();
    let mut i: usize = 0;
    while i < s.len()
        invariant
            i <= s.len(),
            out@ == lower(s@.subrange(0, i as int)),
        decreases s.len() - i,
    {
        out.push(to_lower_char(s[i]));
        i = i + 1;
        assert(lower(s@.subrange(0, i as int)) =~= lower(s@.subrange(0, i - 1)).push(
            lower_char(s@[i - 1]),
        ));
    }
    assert(s@.subrange(0, s.len() as int) =~= s@);
    out
}

/// The ASCII upper-case form of `s`.
pub fn to_upper(s: &[char]) -> (r: Vec<char>)
    ensures
        r@ == upper(s@),
{
    let mut out: Vec<char> = Vec::new();
    let mut i: usize = 0;
    while i < s.len()
        invariant
            i <= s.len(),
            out@ == upper(s@.subrange(0, i as int)),
        decreases s.len() - i,
    {
        out.push(to_upper_char(s[i]));
        i = i + 1;
        assert(upper(s@.subrange(0, i as int)) =~= upper(s@.subrange(0, i - 1)).push(
            upper_char(s@[i - 1]),
        ));
    }
    assert(s@.subrange(0, s.len() as int) =~= s@);
    out
}

/// Whether two character sequences are equal.
pub fn chars_eq(a: &[char], b: &[char]) -> (r: bool)
    ensures
        r == (a@ == b@),
{
    if a.len() != b.len() {
        return false;
    }
    let mut i: usize = 0;
    while i < a.len()
        invariant
            a.len() == b.len(),
            i <= a.len(),
            forall|j: int| 0 <= j < i ==> a@[j] == b@[j],
        decreases a.len() - i,
    {
        if a[i] != b[i] {
            return false;
        }
        i = i + 1;
    }
    assert(a@ =~= b@);
    true
}

/// Whether `needle` occurs in `hay` starting at index `at`.
pub open spec fn occurs_at(hay: Seq<char>, needle: Seq<char>, at: int) -> bool {
    0 <= at && at + needle.len() <= hay.len() && hay.subrange(at, at + needle.len()) == needle
}

/// `str::contains`: whether `needle` occurs anywhere in `hay`.
pub open spec fn contains(hay: Seq<char>, needle: Seq<char>) -> bool {
    exists|at: int| occurs_at(hay, needle, at)
}

/// Whether `needle` occurs in `hay`.
pub fn contains_chars(hay: &[char], needle: &[char]) -> (r: bool)
    ensures
        r == contains(hay@, needle@),
{
    if needle.len() > hay.len() {
        return false;
    }
    let last = hay.len() - needle.len();
    let mut at: usize = 0;
    while at <= last
        invariant
            last + needle.len() == hay.len(),
            at <= last + 1,
            forall|k: int| 0 <= k < at ==> !occurs_at(hay@, needle@, k),
        decreases last + 1 - at,
    {
        let mut j: usize = 0;
        let mut ok = true;
        while j < needle.len()
            invariant
                at <= last,
                last + needle.len() == hay.len(),
                j <= needle.len(),
                ok == (forall|m: int| 0 <= m < j ==> hay@[at + m] == needle@[m]),
            decreases needle.len() - j,
        {
            if hay[at + j] != needle[j] {
                ok = false;
            }
            j = j + 1;
        }
        if ok {
            assert(hay@.subrange(at as int, at + needle.len()) =~= needle@);
            assert(occurs_at(hay@, needle@, at as int));
            return true;
        }
        assert(!occurs_at(hay@, needle@, at as int)) by {
            if occurs_at(hay@, needle@, at as int) {
                assert forall|m: int| 0 <= m < needle.len() implies hay@[at + m] == needle@[m] by {
                    assert(hay@.subrange(at as int, at + needle.len())[m] == hay@[at + m]);
                }
            }
        }
        at = at + 1;
    }
    assert(!contains(hay@, needle@)) by {
        if contains(hay@, needle@) {
            let k = choose|k: int| occurs_at(hay@, needle@, k);
            assert(k < at);
        }
    }
    false
}

/// Whether `s` begins with `p`.
pub open spec fn starts_with(s: Seq<char>, p: Seq<char>) -> bool {
    p.len() <= s.len() && s.subrange(0, p.len() as int) == p
}

/// Whether `s` begins with `p`.
pub fn starts_with_chars(s: &[char], p: &[char]) -> (r: bool)
    ensures
        r == starts_with(s@, p@),
{
    if p.len() > s.len() {
        return false;
    }
    let mut i: usize = 0;
    while i < p.len()
        invariant
            p.len() <= s.len(),
            i <= p.len(),
            forall|j: int| 0 <= j < i ==> s@[j] == p@[j],
        decreases p.len() - i,
    {
        if s[i] != p[i] {
            assert(s@.subrange(0, p.len() as int)[i as int] != p@[i as int]);
            return false;
        }
        i = i + 1;
    }
    assert(s@.subrange(0, p.len() as int) =~= p@);
    true
}

/// The characters of a literal or borrowed string, as a vector.
pub fn lit(s: &str) -> (r: Vec<char>)
    ensures
        r@ == s@,
{
    chars_of(s)
}

} // verus!

verus! {

/// The pieces of `s` between occurrences of `d`, as `str::split` gives them:
/// always at least one piece, empty pieces kept.
pub open spec fn split(s: Seq<char>, d: char) -> Seq<Seq<char>>
    decreases s.len(),
{
    if s.len() == 0 {
        seq![Seq::<char>::empty()]
    } else {
        let r = split(s.drop_last(), d);
        if s.last() == d {
            r.push(Seq::<char>::empty())
        } else {
            r.update(r.len() - 1, r.last().push(s.last()))
        }
    }
}

/// `parts` joined with `d` between neighbours.
pub open spec fn join(parts: Seq<Seq<char>>, d: Seq<char>) -> Seq<char>
    decreases parts.len(),
{
    if parts.len() == 0 {
        Seq::<char>::empty()
    } else if parts.len() == 1 {
        parts[0]
    } else {
        join(parts.drop_last(), d) + d + parts.last()
    }
}

/// Splitting never yields an empty list of pieces.
pub proof fn lemma_split_nonempty(s: Seq<char>, d: char)
    ensures
        split(s, d).len() >= 1,
    decreases s.len(),
{
    if s.len() > 0 {
        lemma_split_nonempty(s.drop_last(), d);
    }
}

/// Appending text free of the delimiter extends the last piece.
pub proof fn lemma_split_append(s: Seq<char>, t: Seq<char>, d: char)
    requires
        !t.contains(d),
    ensures
        split(s + t, d) == ({
            let r = split(s, d);
            r.update(r.len() - 1, r.last() + t)
        }),
    decreases t.len(),
{
    lemma_split_nonempty(s, d);
    if t.len() == 0 {
        assert(s + t =~= s);
        let r = split(s, d);
        assert(r.update(r.len() - 1, r.last() + t) =~= r);
    } else {
        let t0 = t.drop_last();
        assert(!t0.contains(d)) by {
            if t0.contains(d) {
                let k = choose|k: int| 0 <= k < t0.len() && t0[k] == d;
                assert(t[k] == d);
            }
        }
        lemma_split_append(s, t0, d);
        assert((s + t).drop_last() =~= s + t0);
        assert((s + t).last() == t.last());
        assert(t.last() != d) by {
            assert(t[t.len() - 1] == t.last());
        }
        lemma_split_nonempty(s + t0, d);
        let r = split(s, d);
        assert(r.last() + t =~= (r.last() + t0).push(t.last()));
        assert(split(s + t, d) =~= r.update(r.len() - 1, r.last() + t));
    }
}

/// Splitting a join gives the parts back, when no part holds the delimiter.
pub proof fn lemma_split_join(parts: Seq<Seq<char>>, d: char)
    requires
        parts.len() >= 1,
        forall|i: int| 0 <= i < parts.len() ==> !(#[trigger] parts[i]).contains(d),
    ensures
        split(join(parts, seq![d]), d) == parts,
    decreases parts.len(),
{
    if parts.len() == 1 {
        lemma_split_append(Seq::<char>::empty(), parts[0], d);
        assert(Seq::<char>::empty() + parts[0] =~= parts[0]);
        assert(split(Seq::<char>::empty(), d) =~= seq![Seq::<char>::empty()]);
        assert(seq![Seq::<char>::empty()].update(0, Seq::<char>::empty() + parts[0]) =~= parts);
    } else {
        let pre = parts.drop_last();
        lemma_split_join(pre, d);
        let j = join(pre, seq![d]);
        let jd = j + seq![d];
        assert(jd.drop_last() =~= j);
        assert(split(jd, d) == split(j, d).push(Seq::<char>::empty()));
        assert(!parts.last().contains(d)) by {
            assert(parts[parts.len() - 1] == parts.last());
        }
        lemma_split_append(jd, parts.last(), d);
        assert(join(parts, seq![d]) =~= jd + parts.last());
        assert(Seq::<char>::empty() + parts.last() =~= parts.last());
        assert(pre.push(Seq::<char>::empty()).update(pre.len() as int, Seq::<char>::empty() + parts.last()) =~= parts);
    }
}

/// The pieces of `s` between occurrences of `d`.
pub fn split_chars(s: &[char], d: char) -> (r: Vec<Vec<char>>)
    ensures
        r@.len() == split(s@, d).len(),
        forall|i: int| 0 <= i < r@.len() ==> (#[trigger] r@[i])@ == split(s@, d)[i],
{
    let mut out: Vec<Vec<char>> = Vec::new();
    let mut cur: Vec<char> = Vec::new();
    let mut i: usize = 0;
    proof {
        assert(s@.subrange(0, 0) =~= Seq::<char>::empty());
    }
    while i < s.len()
        invariant
            i <= s.len(),
            ({
                let sp = split(s@.subrange(0, i as int), d);
                &&& sp.len() == out@.len() + 1
                &&& forall|k: int| 0 <= k < out@.len() ==> (#[trigger] out@[k])@ == sp[k]
                &&& cur@ == sp.last()
            }),
        decreases s.len() - i,
    {
        let ghost pre = s@.subrange(0, i as int);
        proof {
            lemma_split_nonempty(pre, d);
        }
        let c = s[i];
        if c == d {
            let done = cur;
            out.push(done);
            cur = Vec::new();
        } else {
            cur.push(c);
        }
        i = i + 1;
        proof {
            let now = s@.subrange(0, i as int);
            assert(now.drop_last() =~= pre);
            assert(now.last() == c);
        }
    }
    let ghost all = split(s@.subrange(0, s.len() as int), d);
    out.push(cur);
    assert(s@.subrange(0, s.len() as int) =~= s@);
    assert forall|k: int| 0 <= k < out@.len() implies (#[trigger] out@[k])@ == split(s@, d)[k] by {
        if k < out@.len() - 1 {
        } else {
        }
    }
    out
}

/// `parts` joined with `d` between neighbours.
pub fn join_chars(parts: &Vec<Vec<char>>, d: &[char]) -> (r: Vec<char>)
    ensures
        r@ == join(parts@.map_values(|v: Vec<char>| v@), d@),
{
    let ghost ps = parts@.map_values(|v: Vec<char>| v@);
    let mut out: Vec<char> = Vec::new();
    let mut i: usize = 0;
    while i < parts.len()
        invariant
            i <= parts.len(),
            ps == parts@.map_values(|v: Vec<char>| v@),
            out@ == join(ps.subrange(0, i as int), d@),
        decreases parts.len() - i,
    {
        if i > 0 {
            let mut k: usize = 0;
            let ghost before = out@;
            while k < d.len()
                invariant
                    k <= d.len(),
                    out@ == before + d@.subrange(0, k as int),
                decreases d.len() - k,
            {
                out.push(d[k]);
                k = k + 1;
                assert(before + d@.subrange(0, k as int) =~= (before + d@.subrange(0, k - 1)).push(d@[k - 1]));
            }
            assert(d@.subrange(0, d.len() as int) =~= d@);
        }
        let ghost mid = out@;
        let p = &parts[i];
        let mut k: usize = 0;
        while k < p.len()
            invariant
                k <= p.len(),
                out@ == mid + p@.subrange(0, k as int),
            decreases p.len() - k,
        {
            out.push(p[k]);
            k = k + 1;
            assert(mid + p@.subrange(0, k as int) =~= (mid + p@.subrange(0, k - 1)).push(p@[k - 1]));
        }
        assert(p@.subrange(0, p.len() as int) =~= p@);
        i = i + 1;
        proof {
            let q = ps.subrange(0, i as int);
            assert(q.drop_last() =~= ps.subrange(0, i - 1));
            assert(q.last() == p@);
            if i == 1 {
                assert(mid =~= Seq::<char>::empty());
                assert(mid + p@ =~= p@);
            }
        }
    }
    assert(ps.subrange(0, parts.len() as int) =~= ps);
    out
}

} // verus!

verus! {

/// What `str::to_lowercase` makes of a string: full Unicode lower-casing,
/// which may change the number of characters.
pub uninterp spec fn unicode_lower(s: Seq<char>) -> Seq<char>;

/// Whether `char::is_lowercase` holds of a character.
pub uninterp spec fn unicode_is_lower(c: char) -> bool;

/// Whether `char::is_uppercase` holds of a character.
pub uninterp spec fn unicode_is_upper(c: char) -> bool;

/// Every character is ASCII.
pub open spec fn is_ascii_text(s: Seq<char>) -> bool {
    forall|i: int| 0 <= i < s.len() ==> #[trigger] s[i] <= '\u{7f}'
}

/// `str::to_lowercase`: lower-casing by Unicode's rules, which on ASCII text
/// lower-cases the letters A to Z and leaves the rest.
#[verifier::external_body]
pub(crate) fn to_lowercase(s: &str) -> (r: String)
    ensures
        r@ == unicode_lower(s@),
        is_ascii_text(s@) ==> r@ == lower(s@),
{
    s.to_lowercase()
}

/// `char::is_lowercase`: Unicode's `Lowercase` property, which among the
/// ASCII characters holds of `a` to `z` alone.
#[verifier::external_body]
pub(crate) fn char_is_lowercase(c: char) -> (r: bool)
    ensures
        r == unicode_is_lower(c),
        c <= '\u{7f}' ==> r == ('a' <= c && c <= 'z'),
{
    c.is_lowercase()
}

/// `char::is_uppercase`: Unicode's `Uppercase` property, which among the
/// ASCII characters holds of `A` to `Z` alone.
#[verifier::external_body]
pub(crate) fn char_is_uppercase(c: char) -> (r: bool)
    ensures
        r == unicode_is_upper(c),
        c <= '\u{7f}' ==> r == ('A' <= c && c <= 'Z'),
{
    c.is_uppercase()
}

/// What `str::to_lowercase` makes of `s`: `lower` on ASCII text, Unicode's
/// full lower-casing otherwise.
pub open spec fn lowered(s: Seq<char>) -> Seq<char> {
    if is_ascii_text(s) {
        lower(s)
    } else {
        unicode_lower(s)
    }
}

/// Whether `char::is_lowercase` holds of `c`: `a` to `z` among the ASCII
/// characters, Unicode's `Lowercase` property beyond them.
pub open spec fn is_lower_char(c: char) -> bool {
    if c <= '\u{7f}' {
        'a' <= c && c <= 'z'
    } else {
        unicode_is_lower(c)
    }
}

/// Whether `char::is_uppercase` holds of `c`: `A` to `Z` among the ASCII
/// characters, Unicode's `Uppercase` property beyond them.
pub open spec fn is_upper_char(c: char) -> bool {
    if c <= '\u{7f}' {
        'A' <= c && c <= 'Z'
    } else {
        unicode_is_upper(c)
    }
}

} // verus!

verus! {

/// The decimal digit character for `d < 10`.
pub open spec fn digit_char(d: nat) -> char {
    ((d + 48) as u8) as char
}

/// The hexadecimal digit character for `d < 16`, in upper case.
pub open spec fn hex_char(d: nat) -> char {
    if d < 10 {
        ((d + 48) as u8) as char
    } else {
        ((d + 55) as u8) as char
    }
}

/// `n` written in decimal, as `{}` formats an unsigned integer.
pub open spec fn decimal(n: nat) -> Seq<char>
    decreases n,
{
    if n < 10 {
        seq![digit_char(n)]
    } else {
        decimal(n / 10).push(digit_char(n % 10))
    }
}

/// Every character of a decimal numeral is a digit, and there is at least
/// one.
pub proof fn lemma_decimal_digits(n: nat)
    ensures
        decimal(n).len() >= 1,
        n >= 10 ==> decimal(n).len() >= 2,
        forall|k: int| 0 <= k < decimal(n).len() ==> '0' <= #[trigger] decimal(n)[k] <= '9',
    decreases n,
{
    if n >= 10 {
        lemma_decimal_digits(n / 10);
        let d = decimal(n / 10);
        assert forall|k: int| 0 <= k < decimal(n).len() implies '0' <= #[trigger] decimal(n)[k]
            <= '9' by {
            if k < d.len() {
                assert(decimal(n)[k] == d[k]);
            }
        }
    }
}

/// Every character of a hexadecimal numeral is a digit or an upper-case
/// letter up to `F`, and there is at least one.
pub proof fn lemma_hex_digits(n: nat)
    ensures
        hex(n).len() >= 1,
        forall|k: int|
            0 <= k < hex(n).len() ==> ('0' <= #[trigger] hex(n)[k] <= '9') || ('A' <= hex(n)[k]
                <= 'F'),
    decreases n,
{
    if n >= 16 {
        lemma_hex_digits(n / 16);
        let d = hex(n / 16);
        assert forall|k: int| 0 <= k < hex(n).len() implies ('0' <= #[trigger] hex(n)[k] <= '9') || (
        'A' <= hex(n)[k] <= 'F') by {
            if k < d.len() {
                assert(hex(n)[k] == d[k]);
            }
        }
    }
}

/// Different numbers are written differently.
pub proof fn lemma_decimal_injective(a: nat, b: nat)
    requires
        decimal(a) == decimal(b),
    ensures
        a == b,
    decreases a,
{
    lemma_decimal_digits(a);
    lemma_decimal_digits(b);
    let (x, y) = (decimal(a), decimal(b));
    if a >= 10 && b >= 10 {
        assert(x.drop_last() =~= decimal(a / 10));
        assert(y.drop_last() =~= decimal(b / 10));
        lemma_decimal_injective(a / 10, b / 10);
        assert(x.last() == y.last());
    } else if a < 10 && b < 10 {
        assert(x[0] == y[0]);
    }
}

/// `n` written in upper-case hexadecimal, without leading zeros.
pub open spec fn hex(n: nat) -> Seq<char>
    decreases n,
{
    if n < 16 {
        seq![hex_char(n)]
    } else {
        hex(n / 16).push(hex_char(n % 16))
    }
}

/// `s` padded on the left with `c` to at least `width` characters.
pub open spec fn pad_left(s: Seq<char>, width: nat, c: char) -> Seq<char> {
    if s.len() >= width {
        s
    } else {
        Seq::new((width - s.len()) as nat, |i: int| c) + s
    }
}

/// `n` as `{:0width$X}` formats it.
pub open spec fn hex_padded(n: nat, width: nat) -> Seq<char> {
    pad_left(hex(n), width, '0')
}

/// `n` as `{:0width$}` formats it.
pub open spec fn decimal_padded(n: nat, width: nat) -> Seq<char> {
    pad_left(decimal(n), width, '0')
}

/// `s` padded on the left with `c` to at least `width` characters.
pub fn pad_chars(s: Vec<char>, width: usize, c: char) -> (r: Vec<char>)
    ensures
        r@ == pad_left(s@, width as nat, c),
{
    if s.len() >= width {
        return s;
    }
    let k = width - s.len();
    let mut out: Vec<char> = Vec::new();
    let mut i: usize = 0;
    while i < k
        invariant
            i <= k,
            out@ == Seq::new(i as nat, |j: int| c),
        decreases k - i,
    {
        out.push(c);
        i = i + 1;
        assert(out@ =~= Seq::new(i as nat, |j: int| c));
    }
    let mut j: usize = 0;
    let ghost pad = out@;
    while j < s.len()
        invariant
            j <= s.len(),
            out@ == pad + s@.subrange(0, j as int),
        decreases s.len() - j,
    {
        out.push(s[j]);
        j = j + 1;
        assert(pad + s@.subrange(0, j as int) =~= (pad + s@.subrange(0, j - 1)).push(s@[j - 1]));
    }
    assert(s@.subrange(0, s.len() as int) =~= s@);
    out
}

/// `n` written in decimal.
pub fn fmt_decimal(n: u64) -> (r: Vec<char>)
    ensures
        r@ == decimal(n as nat),
    decreases n,
{
    if n < 10 {
        let mut v: Vec<char> = Vec::new();
        v.push(((n + 48) as u8) as char);
        assert(v@ =~= seq![digit_char(n as nat)]);
        v
    } else {
        let mut v = fmt_decimal(n / 10);
        v.push((((n % 10) + 48) as u8) as char);
        v
    }
}

/// `n` written in upper-case hexadecimal.
pub fn fmt_hex(n: u64) -> (r: Vec<char>)
    ensures
        r@ == hex(n as nat),
    decreases n,
{
    let d = n % 16;
    let c = if d < 10 {
        ((d + 48) as u8) as char
    } else {
        ((d + 55) as u8) as char
    };
    if n < 16 {
        let mut v: Vec<char> = Vec::new();
        v.push(c);
        assert(v@ =~= seq![hex_char(n as nat)]);
        v
    } else {
        let mut v = fmt_hex(n / 16);
        v.push(c);
        v
    }
}

/// `n` as `{:0width$X}` formats it.
pub fn fmt_hex_padded(n: u64, width: usize) -> (r: Vec<char>)
    ensures
        r@ == hex_padded(n as nat, width as nat),
{
    pad_chars(fmt_hex(n), width, '0')
}

/// `n` as `{:0width$}` formats it.
pub fn fmt_decimal_padded(n: u64, width: usize) -> (r: Vec<char>)
    ensures
        r@ == decimal_padded(n as nat, width as nat),
{
    pad_chars(fmt_decimal(n), width, '0')
}

/// Append the characters of `t` to `v`.
pub fn extend(v: &mut Vec<char>, t: &[char])
    ensures
        final(v)@ == old(v)@ + t@,
{
    let mut i: usize = 0;
    while i < t.len()
        invariant
            i <= t.len(),
            v@ == old(v)@ + t@.subrange(0, i as int),
        decreases t.len() - i,
    {
        v.push(t[i]);
        i = i + 1;
        assert(old(v)@ + t@.subrange(0, i as int) =~= (old(v)@ + t@.subrange(0, i - 1)).push(
            t@[i - 1],
        ));
    }
    assert(t@.subrange(0, t.len() as int) =~= t@);
}

/// Append the characters of `t` to `v`.
pub fn extend_str(v: &mut Vec<char>, t: &str)
    ensures
        final(v)@ == old(v)@ + t@,
{
    let cs = chars_of(t);
    extend(v, &cs);
}

/// `str::eq_ignore_ascii_case`: equal once ASCII letters are lower-cased.
pub fn eq_ignore_ascii_case(a: &str, b: &str) -> (r: bool)
    ensures
        r == (lower(a@) == lower(b@)),
{
    let x = to_lower(&chars_of(a));
    let y = to_lower(&chars_of(b));
    chars_eq(&x, &y)
}

/// `s` without any run of `c` at its front, as `trim_start_matches(c)`
/// gives it.
pub open spec fn strip_leading(s: Seq<char>, c: char) -> Seq<char>
    decreases s.len(),
{
    if s.len() > 0 && s[0] == c {
        strip_leading(s.drop_first(), c)
    } else {
        s
    }
}

/// `s` without any run of `c` at its front.
pub fn strip_leading_chars(s: &[char], c: char) -> (r: Vec<char>)
    ensures
        r@ == strip_leading(s@, c),
{
    let mut i: usize = 0;
    assert(s@.skip(0) =~= s@);
    while i < s.len() && s[i] == c
        invariant
            i <= s.len(),
            strip_leading(s@, c) == strip_leading(s@.skip(i as int), c),
        decreases s.len() - i,
    {
        assert(s@.skip(i as int).drop_first() =~= s@.skip(i + 1));
        i = i + 1;
    }
    let mut out: Vec<char> = Vec::new();
    let mut k: usize = i;
    while k < s.len()
        invariant
            i <= k <= s.len(),
            out@ == s@.subrange(i as int, k as int),
        decreases s.len() - k,
    {
        out.push(s[k]);
        k = k + 1;
    }
    assert(out@ =~= s@.skip(i as int));
    out
}

/// `s` without any run of `pat` at its front, as `trim_start_matches(pat)`
/// gives it for a non-empty pattern.
pub open spec fn strip_prefixes(s: Seq<char>, pat: Seq<char>) -> Seq<char>
    decreases s.len(),
{
    if pat.len() > 0 && starts_with(s, pat) {
        strip_prefixes(s.skip(pat.len() as int), pat)
    } else {
        s
    }
}

/// `s` without any run of `pat` at its front.
pub fn strip_prefixes_chars(s: &[char], pat: &[char]) -> (r: Vec<char>)
    ensures
        r@ == strip_prefixes(s@, pat@),
{
    let mut i: usize = 0;
    assert(s@.skip(0) =~= s@);
    while pat.len() > 0 && pat.len() <= s.len() - i && prefix_at(s, i, pat)
        invariant
            i <= s.len(),
            strip_prefixes(s@, pat@) == strip_prefixes(s@.skip(i as int), pat@),
        decreases s.len() - i,
    {
        proof {
            let t = s@.skip(i as int);
            assert(t.subrange(0, pat.len() as int) =~= s@.subrange(i as int, i + pat.len()));
            assert(t.skip(pat.len() as int) =~= s@.skip(i + pat.len()));
        }
        i = i + pat.len();
    }
    proof {
        let t = s@.skip(i as int);
        if pat.len() > 0 && starts_with(t, pat@) {
            assert(t.subrange(0, pat.len() as int) =~= s@.subrange(i as int, i + pat.len()));
        }
    }
    let mut out: Vec<char> = Vec::new();
    let mut k: usize = i;
    while k < s.len()
        invariant
            i <= k <= s.len(),
            out@ == s@.subrange(i as int, k as int),
        decreases s.len() - k,
    {
        out.push(s[k]);
        k = k + 1;
    }
    assert(out@ =~= s@.skip(i as int));
    out
}

/// Whether `pat` occurs in `s` at `i`.
fn prefix_at(s: &[char], i: usize, pat: &[char]) -> (r: bool)
    requires
        i + pat.len() <= s.len(),
    ensures
        r == (s@.subrange(i as int, i + pat.len()) == pat@),
{
    let mut j: usize = 0;
    while j < pat.len()
        invariant
            i + pat.len() <= s.len(),
            j <= pat.len(),
            forall|m: int| 0 <= m < j ==> s@[i + m] == pat@[m],
        decreases pat.len() - j,
    {
        if s[i + j] != pat[j] {
            assert(s@.subrange(i as int, i + pat.len())[j as int] != pat@[j as int]);
            return false;
        }
        j = j + 1;
    }
    assert(s@.subrange(i as int, i + pat.len()) =~= pat@);
    true
}

/// The index of the first `c` in `s`, or its length when there is none.
pub open spec fn find_char(s: Seq<char>, c: char) -> int
    decreases s.len(),
{
    if s.len() == 0 {
        0
    } else if s[0] == c {
        0
    } else {
        1 + find_char(s.drop_first(), c)
    }
}

pub proof fn lemma_find_char(s: Seq<char>, c: char)
    ensures
        0 <= find_char(s, c) <= s.len(),
        find_char(s, c) < s.len() ==> s[find_char(s, c)] == c,
        forall|j: int| 0 <= j < find_char(s, c) ==> s[j] != c,
    decreases s.len(),
{
    if s.len() > 0 && s[0] != c {
        lemma_find_char(s.drop_first(), c);
        assert forall|j: int| 0 <= j < find_char(s, c) implies s[j] != c by {
            if j > 0 {
                assert(s[j] == s.drop_first()[j - 1]);
            }
        }
    }
}

/// The first index of `c` in `s`, or its length when there is none.
pub fn find_char_in(s: &[char], c: char) -> (r: usize)
    ensures
        r as int == find_char(s@, c),
{
    proof {
        lemma_find_char(s@, c);
    }
    let mut i: usize = 0;
    while i < s.len() && s[i] != c
        invariant
            i <= s.len(),
            forall|j: int| 0 <= j < i ==> s@[j] != c,
            find_char(s@, c) >= i,
        decreases s.len() - i,
    {
        proof {
            lemma_find_char(s@, c);
        }
        i = i + 1;
    }
    proof {
        lemma_find_char(s@, c);
    }
    i
}

} // verus!
