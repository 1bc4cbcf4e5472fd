//! The new-project wizard.
//!
//! Starting a project on a Windows 3.x title means the same three decisions
//! every time: which folder the game lives in, which of the modules in it are
//! worth annotating, and what to call the result. The wizard asks exactly
//! those, in that order; the scan that finds the NE binaries is done around
//! it and handed in as a list of module summaries.

use vstd::prelude::*;
use crate::order::{
    distinct_keys, has_key, is_tally, lemma_take_step, lemma_weight_absent,
    lemma_weight_row, lex_lt, names, pairs, rows_ordered, sorted_names, str_lt, strictly_sorted,
    tally, total_weight, weight_of,
};
use crate::store::{
    beside, ends_with, file_stem, final_component, join_path, joined, last_component,
    maybe_verbatim, parent_dir, plain_name, simple_path, stem_of,
};
use crate::text::{
    chars_of, contains, contains_chars, decimal, extend, extend_str, fmt_decimal, lower,
    starts_with, string_of, to_lower, to_upper, trim, trim_chars, upper,
};

verus! {

/// The steps of the wizard, in order.
#[derive(Debug, Clone, Copy, PartialEq, Eq, PartialOrd, Ord, Structural)]
pub enum Step {
    Source,
    Modules,
    Details,
}

/// The step after `s`; the last stays put.
pub open spec fn step_next(s: Step) -> Step {
    match s {
        Step::Source => Step::Modules,
        _ => Step::Details,
    }
}

/// The step before `s`; the first stays put.
pub open spec fn step_back(s: Step) -> Step {
    match s {
        Step::Details => Step::Modules,
        _ => Step::Source,
    }
}

/// The picks with the `i`-th flipped, or as they were when there is none.
pub open spec fn flipped(picked: Seq<bool>, i: int) -> Seq<bool> {
    if 0 <= i < picked.len() {
        picked.update(i, !picked[i])
    } else {
        picked
    }
}

/// Ticking a module twice leaves the selection as it was.
pub proof fn lemma_toggle_twice(picked: Seq<bool>, i: int)
    ensures
        flipped(flipped(picked, i), i) == picked,
{
    assert(flipped(flipped(picked, i), i) =~= picked);
}

/// Going back undoes going on from any step but the last, and going on
/// undoes going back from any step but the first.
pub proof fn lemma_back_undoes_next(s: Step)
    ensures
        s != Step::Details ==> step_back(step_next(s)) == s,
        s != Step::Source ==> step_next(step_back(s)) == s,
{
}

impl Step {
    /// The steps with their titles and what each asks.
    pub fn all() -> (r: Vec<(Step, &'static str, &'static str)>)
        ensures
            r@.len() == 3,
            r@[0].0 == Step::Source && r@[0].1@ == "Source"@ && r@[0].2@ == "where the binaries are"@,
            r@[1].0 == Step::Modules && r@[1].1@ == "Modules"@ && r@[1].2@
                == "which ones to include"@,
            r@[2].0 == Step::Details && r@[2].1@ == "Details"@ && r@[2].2@ == "name and location"@,
    {
        let mut v: Vec<(Step, &'static str, &'static str)> = Vec::new();
        v.push((Step::Source, "Source", "where the binaries are"));
        v.push((Step::Modules, "Modules", "which ones to include"));
        v.push((Step::Details, "Details", "name and location"));
        v
    }

    /// The step's position, from 0.
    pub fn index(self) -> (r: usize)
        ensures
            r == match self {
                Step::Source => 0usize,
                Step::Modules => 1usize,
                Step::Details => 2usize,
            },
    {
        match self {
            Step::Source => 0,
            Step::Modules => 1,
            Step::Details => 2,
        }
    }

    /// The step after this one; the last stays put.
    pub fn next(self) -> (r: Step)
        ensures
            r == step_next(self),
    {
        match self {
            Step::Source => Step::Modules,
            _ => Step::Details,
        }
    }

    /// The step before this one; the first stays put.
    pub fn back(self) -> (r: Step)
        ensures
            r == step_back(self),
    {
        match self {
            Step::Details => Step::Modules,
            _ => Step::Source,
        }
    }
}

/// What the scan learned of one NE binary.
#[derive(Debug)]
pub struct ModuleSummary {
    pub path: String,
    pub module: String,
    pub description: String,
    pub is_library: bool,
    pub file_size: u64,
    /// The modules it imports from, by name.
    pub imports: Vec<String>,
}

/// A module summary as a value.
pub struct ModV {
    pub path: Seq<char>,
    pub module: Seq<char>,
    pub description: Seq<char>,
    pub is_library: bool,
    pub file_size: u64,
    pub imports: Seq<Seq<char>>,
}

impl View for ModuleSummary {
    type V = ModV;

    open spec fn view(&self) -> ModV {
        ModV {
            path: self.path@,
            module: self.module@,
            description: self.description@,
            is_library: self.is_library,
            file_size: self.file_size,
            imports: names(self.imports@),
        }
    }
}

/// Module summaries as values.
pub open spec fn mods_view(v: Seq<ModuleSummary>) -> Seq<ModV> {
    v.map_values(|m: ModuleSummary| m@)
}

/// The state of the wizard.
pub struct Wizard {
    pub step: Step,
    /// Folder or file the scan started from.
    pub source: Option<String>,
    /// Everything the scan found, in path order.
    pub found: Vec<ModuleSummary>,
    /// Parallel to `found`: whether each module goes into the project.
    pub picked: Vec<bool>,
    pub filter: String,
    pub name: String,
    pub save_to: Option<String>,
    /// Set while a scan has been requested but not yet run.
    pub scanning: bool,
    pub message: Option<String>,
    /// Path typed or pasted into the source box.
    pub typed: String,
}

impl Default for Wizard {
    fn default() -> (r: Wizard)
        ensures
            r.step == Step::Source,
            r.source.is_none(),
            r.found@.len() == 0,
            r.picked@.len() == 0,
            r.filter@.len() == 0,
            r.name@.len() == 0,
            r.save_to.is_none(),
            !r.scanning,
            r.message.is_none(),
            r.typed@.len() == 0,
    {
        Wizard {
            step: Step::Source,
            source: None,
            found: Vec::new(),
            picked: Vec::new(),
            filter: String::new(),
            name: String::new(),
            save_to: None,
            scanning: false,
            message: None,
            typed: String::new(),
        }
    }
}

/// How many of the first `n` flags are set.
pub open spec fn count_true(v: Seq<bool>, n: int) -> nat
    decreases n,
{
    if n <= 0 {
        0
    } else {
        count_true(v, n - 1) + if v[n - 1] {
            1nat
        } else {
            0nat
        }
    }
}

/// How many modules are picked.
pub open spec fn picked_count(picked: Seq<bool>) -> nat {
    count_true(picked, picked.len() as int)
}

/// Whether the wizard can go on from its step: a scan that found something,
/// at least one module picked, a name that is not blank and a place to save.
pub open spec fn advance_ok(
    step: Step,
    found: nat,
    picked: Seq<bool>,
    name: Seq<char>,
    has_target: bool,
) -> bool {
    match step {
        Step::Source => found > 0,
        Step::Modules => picked_count(picked) > 0,
        Step::Details => trim(name).len() > 0 && has_target,
    }
}

/// The message a finished scan leaves, naming the folder when it found
/// nothing.
pub open spec fn scan_text(n: nat, root: Seq<char>) -> Seq<char> {
    if n == 0 {
        "no NE binaries under "@ + root
    } else if n == 1 {
        "1 NE binary found"@
    } else {
        decimal(n) + " NE binaries found"@
    }
}

impl Wizard {
    /// How many modules are picked.
    pub fn selected_count(&self) -> (r: usize)
        ensures
            r == picked_count(self.picked@),
    {
        let mut n: usize = 0;
        let mut i: usize = 0;
        while i < self.picked.len()
            invariant
                i <= self.picked.len(),
                n == count_true(self.picked@, i as int),
                n <= i,
            decreases self.picked.len() - i,
        {
            if self.picked[i] {
                n = n + 1;
            }
            i = i + 1;
        }
        n
    }

    /// The positions of the picked modules, in order; a flag without a
    /// module beside it picks nothing.
    pub fn selected(&self) -> (r: Vec<usize>)
        ensures
            forall|a: int, b: int| 0 <= a < b < r.len() ==> r@[a] < r@[b],
            forall|a: int|
                0 <= a < r.len() ==> r@[a] < self.found.len() && r@[a] < self.picked.len()
                    && self.picked@[r@[a] as int],
            forall|i: int|
                0 <= i < self.found.len() && i < self.picked.len() && self.picked@[i] ==> r@.contains(
                    i as usize,
                ),
    {
        let n = if self.found.len() < self.picked.len() {
            self.found.len()
        } else {
            self.picked.len()
        };
        let mut out: Vec<usize> = Vec::new();
        let mut i: usize = 0;
        while i < n
            invariant
                i <= n,
                n <= self.found.len(),
                n <= self.picked.len(),
                n == self.found.len() || n == self.picked.len(),
                forall|a: int, b: int| 0 <= a < b < out.len() ==> out@[a] < out@[b],
                forall|a: int| 0 <= a < out.len() ==> out@[a] < i && self.picked@[out@[a] as int],
                forall|k: int| 0 <= k < i && self.picked@[k] ==> out@.contains(k as usize),
            decreases n - i,
        {
            let ghost before = out@;
            if self.picked[i] {
                out.push(i);
                proof {
                    assert(out@[out@.len() - 1] == i);
                }
            }
            proof {
                assert forall|k: int| 0 <= k < i + 1 && self.picked@[k] implies out@.contains(
                    k as usize,
                ) by {
                    if k < i {
                        let a = choose|a: int| 0 <= a < before.len() && before[a] == k as usize;
                        assert(out@[a] == k as usize);
                    }
                }
            }
            i = i + 1;
        }
        out
    }

    /// Whether the wizard can go on from its step.
    pub fn can_advance(&self) -> (r: bool)
        ensures
            r == advance_ok(
                self.step,
                self.found@.len(),
                self.picked@,
                self.name@,
                self.save_to.is_some(),
            ),
    {
        match self.step {
            Step::Source => self.found.len() > 0,
            Step::Modules => self.selected_count() > 0,
            Step::Details => {
                let t = trim_chars(&chars_of(self.name.as_str()));
                t.len() > 0 && self.save_to.is_some()
            },
        }
    }

    /// Flip whether module `i` is picked; an index past the end is ignored.
    /// Nothing else changes.
    pub fn toggle(&mut self, i: usize)
        ensures
            final(self).picked@ == flipped(old(self).picked@, i as int),
            (*final(self) == Wizard { picked: final(self).picked, ..*old(self) }),
    {
        if i < self.picked.len() {
            let p = self.picked[i];
            self.picked.set(i, !p);
        }
    }

    /// Pick every module, or none. Nothing else changes.
    pub fn select_all(&mut self, on: bool)
        ensures
            final(self).picked@.len() == old(self).picked@.len(),
            forall|i: int| 0 <= i < final(self).picked@.len() ==> final(self).picked@[i] == on,
            (*final(self) == Wizard { picked: final(self).picked, ..*old(self) }),
    {
        let mut picked: Vec<bool> = Vec::new();
        std::mem::swap(&mut picked, &mut self.picked);
        let n = picked.len();
        let mut i: usize = 0;
        while i < n
            invariant
                i <= n,
                picked@.len() == n,
                forall|k: int| 0 <= k < i ==> picked@[k] == on,
            decreases n - i,
        {
            picked.set(i, on);
            i = i + 1;
        }
        self.picked = picked;
    }

    /// On to the next step; the last stays put. Nothing else changes.
    pub fn forward(&mut self)
        ensures
            (*final(self) == Wizard { step: step_next(old(self).step), ..*old(self) }),
    {
        self.step = self.step.next();
    }

    /// Back to the step before; the first stays put. Nothing else changes.
    pub fn backward(&mut self)
        ensures
            (*final(self) == Wizard { step: step_back(old(self).step), ..*old(self) }),
    {
        self.step = self.step.back();
    }

    /// Take in what a scan of `root` found: every module picked, a message
    /// saying how many there are, a name when none was typed yet -- the
    /// folder's name (`root_is_dir`) or the file's stem, else `project` --
    /// and the project file, named after the project, in that folder or
    /// beside that file.
    pub fn take_scan(&mut self, found: Vec<ModuleSummary>, root: &str, root_is_dir: bool)
        ensures
            final(self).found@ == found@,
            final(self).picked@.len() == found@.len(),
            forall|i: int| 0 <= i < found@.len() ==> final(self).picked@[i],
            final(self).message matches Some(m) && m@ == scan_text(found@.len(), root@),
            final(self).source matches Some(s) && s@ == root@,
            !final(self).scanning,
            final(self).step == old(self).step,
            final(self).filter == old(self).filter,
            final(self).typed == old(self).typed,
            old(self).name@.len() > 0 ==> final(self).name@ == old(self).name@,
            old(self).name@.len() == 0 ==> final(self).name@.len() > 0,
            old(self).name@.len() == 0 && simple_path(root@) ==> final(self).name@ == scan_name(
                root@,
                root_is_dir,
            ),
            final(self).save_to matches Some(p) && (plain_name(final(self).name@ + ".sith"@) ==> {
                &&& ends_with(p@, final(self).name@ + ".sith"@)
                &&& !maybe_verbatim(root@) && root_is_dir ==> joined(
                    root@,
                    final(self).name@ + ".sith"@,
                    p@,
                )
                &&& !maybe_verbatim(root@) && !root_is_dir ==> beside(
                    root@,
                    final(self).name@ + ".sith"@,
                    p@,
                )
            }),
    {
        let n = found.len();
        let mut picked: Vec<bool> = Vec::new();
        let mut i: usize = 0;
        while i < n
            invariant
                i <= n,
                picked@.len() == i,
                forall|k: int| 0 <= k < i ==> picked@[k],
            decreases n - i,
        {
            picked.push(true);
            i = i + 1;
        }
        let mut text: Vec<char> = Vec::new();
        if n == 0 {
            extend_str(&mut text, "no NE binaries under ");
            extend_str(&mut text, root);
        } else if n == 1 {
            extend_str(&mut text, "1 NE binary found");
        } else {
            let d = fmt_decimal(n as u64);
            extend(&mut text, &d);
            extend_str(&mut text, " NE binaries found");
        }
        if self.name.unicode_len() == 0 {
            let stem = if root_is_dir {
                final_component(root)
            } else {
                file_stem(root)
            };
            proof {
                reveal_strlit("project");
                assert("project"@.len() == 7);
            }
            self.name = match stem {
                Some(s) => s,
                None => String::from_str("project"),
            };
        }
        let dir = if root_is_dir {
            String::from_str(root)
        } else {
            match parent_dir(root) {
                Some(d) => d,
                None => String::new(),
            }
        };
        let file = project_file(self.name.as_str());
        let target = join_path(dir.as_str(), file.as_str());
        proof {
            if plain_name(file@) && !maybe_verbatim(root@) && !root_is_dir {
                lemma_prefix_not_verbatim(root@, dir@);
                assert(starts_with(root@, dir@)) by {
                    if dir@.len() == 0 {
                        assert(root@.subrange(0, 0) =~= dir@);
                    }
                }
                assert(joined(dir@, file@, target@));
            }
        }
        self.save_to = Some(target);
        self.found = found;
        self.picked = picked;
        self.message = Some(string_of(&text));
        self.source = Some(String::from_str(root));
        self.scanning = false;
    }

    /// Rename the project. While a project file is proposed it follows the
    /// name: the same folder, the new name (trimmed) with `.sith`. Nothing
    /// else changes.
    pub fn rename(&mut self, name: String)
        ensures
            final(self).name@ == name@,
            old(self).save_to is None ==> final(self).save_to is None,
            old(self).save_to matches Some(q) ==> (final(self).save_to matches Some(p) && (plain_name(
                trim(name@) + ".sith"@,
            ) ==> {
                &&& ends_with(p@, trim(name@) + ".sith"@)
                &&& !maybe_verbatim(q@) ==> beside(q@, trim(name@) + ".sith"@, p@)
            })),
            (*final(self) == Wizard { name: final(self).name, save_to: final(self).save_to, ..*old(self) }),
    {
        match &self.save_to {
            Some(q) => {
                let dir = match parent_dir(q.as_str()) {
                    Some(d) => d,
                    None => String::new(),
                };
                let file = renamed_project_file(name.as_str());
                let target = join_path(dir.as_str(), file.as_str());
                proof {
                    if plain_name(file@) && !maybe_verbatim(q@) {
                        lemma_prefix_not_verbatim(q@, dir@);
                        assert(starts_with(q@, dir@)) by {
                            if dir@.len() == 0 {
                                assert(q@.subrange(0, 0) =~= dir@);
                            }
                        }
                        assert(joined(dir@, file@, target@));
                    }
                }
                self.save_to = Some(target);
            },
            None => {},
        }
        self.name = name;
    }
}

/// The name a scan suggests for a path written with `/` alone: the last
/// component for a folder, its stem for a file, `project` when there is no
/// component.
pub open spec fn scan_name(root: Seq<char>, is_dir: bool) -> Seq<char> {
    if last_component(root).len() == 0 {
        "project"@
    } else if is_dir {
        last_component(root)
    } else {
        stem_of(last_component(root))
    }
}

/// A leading part of a path without `?` has none either.
proof fn lemma_prefix_not_verbatim(s: Seq<char>, p: Seq<char>)
    requires
        !maybe_verbatim(s),
        p.len() <= s.len(),
        s.subrange(0, p.len() as int) == p || p.len() == 0,
    ensures
        !maybe_verbatim(p),
{
    if p.contains('?') {
        let k = choose|k: int| 0 <= k < p.len() && p[k] == '?';
        assert(s.subrange(0, p.len() as int)[k] == s[k]);
        assert(s.contains('?'));
    }
}

/// The project name after a scan: the name already typed, or else the
/// folder's (or file's) name, or else `project`.
pub fn suggested_name(current: &str, stem: Option<&str>) -> (r: String)
    ensures
        r@ == if current@.len() > 0 {
            current@
        } else {
            match stem {
                Some(s) => s@,
                None => "project"@,
            }
        },
{
    if current.unicode_len() > 0 {
        return String::from_str(current);
    }
    match stem {
        Some(s) => String::from_str(s),
        None => String::from_str("project"),
    }
}

/// The file a project named `name` is saved as, before the user picks one.
pub fn project_file(name: &str) -> (r: String)
    ensures
        r@ == name@ + ".sith"@,
{
    let mut v = chars_of(name);
    extend_str(&mut v, ".sith");
    string_of(&v)
}

/// The file the suggestion follows when the project is renamed: the new
/// name trimmed, with the `.sith` extension.
pub fn renamed_project_file(name: &str) -> (r: String)
    ensures
        r@ == trim(name@) + ".sith"@,
{
    let mut v = trim_chars(&chars_of(name));
    extend_str(&mut v, ".sith");
    string_of(&v)
}

/// What the set of scanned modules says about itself.
#[derive(Debug)]
pub struct Digest {
    pub apps: usize,
    pub libs: usize,
    pub total_bytes: u64,
    pub selected_bytes: u64,
    /// Module name (upper case) and how many picked modules import it, each
    /// module counted once however many times it lists the name.
    pub used_by: Vec<(String, usize)>,
    /// Module names found in more than one file, in order.
    pub duplicates: Vec<String>,
    /// Imported modules that are not among the files found, in order: the
    /// system DLLs, and anything genuinely missing.
    pub external: Vec<String>,
}

/// How many of the first `n` modules are libraries (or, with `lib` false,
/// applications).
pub open spec fn count_kind(found: Seq<ModV>, n: int, lib: bool) -> nat
    decreases n,
{
    if n <= 0 {
        0
    } else {
        count_kind(found, n - 1, lib) + if found[n - 1].is_library == lib {
            1nat
        } else {
            0nat
        }
    }
}

/// The bytes of the first `n` modules, counting only picked ones when
/// `only_picked` says so.
pub open spec fn bytes_of(found: Seq<ModV>, picked: Seq<bool>, n: int, only_picked: bool) -> nat
    decreases n,
{
    if n <= 0 {
        0
    } else {
        bytes_of(found, picked, n - 1, only_picked) + if !only_picked || picked[n - 1] {
            found[n - 1].file_size as nat
        } else {
            0nat
        }
    }
}

/// How many modules have both a summary and a flag.
pub open spec fn zip_len(found: Seq<ModV>, picked: Seq<bool>) -> int {
    if found.len() < picked.len() {
        found.len() as int
    } else {
        picked.len() as int
    }
}

/// The upper-cased names of the modules found.
pub open spec fn present_keys(found: Seq<ModV>) -> Seq<Seq<char>> {
    found.map_values(|m: ModV| upper(m.module))
}

/// The first `t` imports of one module, upper-cased, each with whether it
/// counts towards `used_by`: the module is picked and no earlier import of
/// it has the same upper-cased name.
pub open spec fn module_uses(imps: Seq<Seq<char>>, on: bool, t: int) -> Seq<(Seq<char>, bool)> {
    Seq::new(
        t as nat,
        |k: int|
            (upper(imps[k]), on && !imps.take(k).map_values(|i: Seq<char>| upper(i)).contains(
                upper(imps[k]),
            )),
    )
}

/// Every import of the first `n` modules, upper-cased, with whether it
/// counts: its module is picked, and it is that module's first import of
/// the name.
pub open spec fn import_uses(found: Seq<ModV>, picked: Seq<bool>, n: int) -> Seq<(Seq<char>, bool)>
    decreases n,
{
    if n <= 0 {
        Seq::empty()
    } else {
        import_uses(found, picked, n - 1) + module_uses(
            found[n - 1].imports,
            picked[n - 1],
            found[n - 1].imports.len() as int,
        )
    }
}

/// The imports counted in `used_by`: the counting ones, of modules that
/// were found.
pub open spec fn used_items(uses: Seq<(Seq<char>, bool)>, present: Seq<Seq<char>>) -> Seq<
    (Seq<char>, nat),
>
    decreases uses.len(),
{
    if uses.len() == 0 {
        Seq::empty()
    } else if uses.last().1 && present.contains(uses.last().0) {
        used_items(uses.drop_last(), present).push((uses.last().0, 1nat))
    } else {
        used_items(uses.drop_last(), present)
    }
}

/// Each module name with weight one.
pub open spec fn key_ones(keys: Seq<Seq<char>>) -> Seq<(Seq<char>, nat)> {
    keys.map_values(|k: Seq<char>| (k, 1nat))
}

fn contains_string(v: &Vec<String>, s: &String) -> (r: bool)
    ensures
        r == names(v@).contains(s@),
{
    let mut i: usize = 0;
    while i < v.len()
        invariant
            i <= v.len(),
            forall|k: int| 0 <= k < i ==> v@[k]@ != s@,
        decreases v.len() - i,
    {
        if v[i] == *s {
            assert(names(v@)[i as int] == s@);
            return true;
        }
        i = i + 1;
    }
    proof {
        if names(v@).contains(s@) {
            let k = choose|k: int| 0 <= k < names(v@).len() && names(v@)[k] == s@;
            assert(v@[k]@ == s@);
        }
    }
    false
}

fn upper_string(s: &String) -> (r: String)
    ensures
        r@ == upper(s@),
{
    string_of(&to_upper(&chars_of(s.as_str())))
}

impl Wizard {
    /// Cross-reference the scan: how many applications and libraries, the
    /// bytes on disk and picked, who imports whom among the picked modules,
    /// which module names occur in more than one file, and which imported
    /// modules are not among those found.
    pub fn digest(&self) -> (d: Digest)
        requires
            bytes_of(mods_view(self.found@), self.picked@, self.found@.len() as int, false)
                <= u64::MAX,
        ensures
            ({
                let f = mods_view(self.found@);
                let n = zip_len(f, self.picked@);
                let uses = import_uses(f, self.picked@, n);
                let present = present_keys(f);
                &&& d.apps == count_kind(f, f.len() as int, false)
                &&& d.libs == count_kind(f, f.len() as int, true)
                &&& d.total_bytes == bytes_of(f, self.picked@, f.len() as int, false)
                &&& d.selected_bytes == bytes_of(f, self.picked@, n, true)
                &&& is_tally(used_items(uses, present), pairs(d.used_by@))
                &&& strictly_sorted(names(d.duplicates@))
                &&& forall|k: Seq<char>|
                    #[trigger] names(d.duplicates@).contains(k) == (weight_of(key_ones(present), k)
                        > 1)
                &&& strictly_sorted(names(d.external@))
                &&& forall|k: Seq<char>|
                    #[trigger] names(d.external@).contains(k) == (exists|j: int|
                        0 <= j < uses.len() && uses[j].0 == k && !present.contains(k))
            }),
    {
        let ghost f = mods_view(self.found@);
        let nf = self.found.len();
        // Counts and bytes.
        let mut apps: usize = 0;
        let mut libs: usize = 0;
        let mut total: u64 = 0;
        let mut i: usize = 0;
        while i < nf
            invariant
                i <= nf,
                nf == self.found.len(),
                f == mods_view(self.found@),
                apps == count_kind(f, i as int, false),
                libs == count_kind(f, i as int, true),
                total == bytes_of(f, self.picked@, i as int, false),
                apps + libs == i,
                bytes_of(f, self.picked@, nf as int, false) <= u64::MAX,
            decreases nf - i,
        {
            proof {
                lemma_bytes_monotone(f, self.picked@, i + 1, nf as int, false);
            }
            if self.found[i].is_library {
                libs = libs + 1;
            } else {
                apps = apps + 1;
            }
            total = total + self.found[i].file_size;
            i = i + 1;
        }
        let n = if nf < self.picked.len() {
            nf
        } else {
            self.picked.len()
        };
        let mut chosen: u64 = 0;
        let mut k: usize = 0;
        while k < n
            invariant
                k <= n,
                n as int == zip_len(f, self.picked@),
                f == mods_view(self.found@),
                chosen == bytes_of(f, self.picked@, k as int, true),
                chosen <= bytes_of(f, self.picked@, k as int, false),
                bytes_of(f, self.picked@, nf as int, false) <= u64::MAX,
                nf == self.found.len(),
            decreases n - k,
        {
            proof {
                lemma_bytes_monotone(f, self.picked@, k + 1, nf as int, false);
            }
            if self.picked[k] {
                chosen = chosen + self.found[k].file_size;
            }
            k = k + 1;
        }
        // The names present, upper-cased.
        let mut present: Vec<String> = Vec::new();
        let mut p: usize = 0;
        while p < nf
            invariant
                p <= nf,
                nf == self.found.len(),
                f == mods_view(self.found@),
                present.len() == p,
                forall|q: int| 0 <= q < p ==> (#[trigger] present@[q])@ == upper(f[q].module),
            decreases nf - p,
        {
            present.push(upper_string(&self.found[p].module));
            p = p + 1;
        }
        assert(names(present@) =~= present_keys(f));
        // Every import, with whether its importer is picked.
        let mut used: Vec<(String, usize)> = Vec::new();
        let mut outside: Vec<String> = Vec::new();
        let ghost mut seen: Seq<(Seq<char>, bool)> = Seq::empty();
        let mut m: usize = 0;
        while m < n
            invariant
                m <= n,
                n as int == zip_len(f, self.picked@),
                f == mods_view(self.found@),
                names(present@) == present_keys(f),
                seen == import_uses(f, self.picked@, m as int),
                pairs(used@) == used_items(seen, names(present@)),
                forall|key: Seq<char>|
                    #[trigger] names(outside@).contains(key) == (exists|j: int|
                        0 <= j < seen.len() && seen[j].0 == key && !names(present@).contains(key)),
            decreases n - m,
        {
            let on = self.picked[m];
            let imports = &self.found[m].imports;
            let ghost start = seen;
            let ghost imps = names(imports@);
            let mut mine: Vec<String> = Vec::new();
            let mut t: usize = 0;
            while t < imports.len()
                invariant
                    t <= imports.len(),
                    m < n,
                    n as int == zip_len(f, self.picked@),
                    f == mods_view(self.found@),
                    imports@ == self.found@[m as int].imports@,
                    imps == names(imports@),
                    on == self.picked@[m as int],
                    names(mine@) == imps.take(t as int).map_values(|i: Seq<char>| upper(i)),
                    seen == start + module_uses(imps, on, t as int),
                    pairs(used@) == used_items(seen, names(present@)),
                    forall|key: Seq<char>|
                        #[trigger] names(outside@).contains(key) == (exists|j: int|
                            0 <= j < seen.len() && seen[j].0 == key && !names(present@).contains(
                                key,
                            )),
                decreases imports.len() - t,
            {
                let key = upper_string(&imports[t]);
                let here = contains_string(&present, &key);
                let again = contains_string(&mine, &key);
                let ghost old_seen = seen;
                let ghost old_out = names(outside@);
                let counts = on && !again;
                proof {
                    assert(imps[t as int] == imports@[t as int]@);
                    seen = seen.push((key@, counts));
                    assert(module_uses(imps, on, t + 1) =~= module_uses(imps, on, t as int).push(
                        (key@, counts),
                    ));
                    assert(seen =~= start + module_uses(imps, on, t + 1));
                    assert(seen.drop_last() =~= old_seen);
                }
                let ghost old_mine = names(mine@);
                mine.push(key.clone());
                proof {
                    assert(names(mine@) =~= old_mine.push(key@));
                    assert(imps.take(t + 1).map_values(|i: Seq<char>| upper(i)) =~= imps.take(
                        t as int,
                    ).map_values(|i: Seq<char>| upper(i)).push(upper(imps[t as int])));
                }
                if counts && here {
                    used.push((key.clone(), 1));
                    assert(pairs(used@) =~= used_items(seen, names(present@)));
                } else {
                    assert(pairs(used@) =~= used_items(seen, names(present@)));
                }
                if !here {
                    outside.push(key);
                }
                proof {
                    assert forall|k2: Seq<char>| #[trigger] names(outside@).contains(k2) == (exists|j: int|
                        0 <= j < seen.len() && seen[j].0 == k2 && !names(present@).contains(k2)) by {
                        let e_old = exists|j: int|
                            0 <= j < old_seen.len() && old_seen[j].0 == k2 && !names(present@).contains(k2);
                        assert(old_out.contains(k2) == e_old);
                        if e_old {
                            let j = choose|j: int|
                                0 <= j < old_seen.len() && old_seen[j].0 == k2 && !names(present@).contains(k2);
                            assert(seen[j] == old_seen[j]);
                        }
                        if names(outside@).contains(k2) {
                            let a = choose|a: int| 0 <= a < names(outside@).len() && names(outside@)[a] == k2;
                            if a < old_out.len() {
                                assert(old_out[a] == k2);
                            } else {
                                assert(seen[old_seen.len() as int].0 == k2);
                            }
                        }
                        if old_out.contains(k2) {
                            let a = choose|a: int| 0 <= a < old_out.len() && old_out[a] == k2;
                            assert(names(outside@)[a] == k2);
                        }
                        if !here && k2 == key@ {
                            assert(names(outside@)[old_out.len() as int] == k2);
                            assert(seen[old_seen.len() as int].0 == k2);
                        }
                        if exists|j: int|
                            0 <= j < seen.len() && seen[j].0 == k2 && !names(present@).contains(k2) {
                            let j = choose|j: int|
                                0 <= j < seen.len() && seen[j].0 == k2 && !names(present@).contains(k2);
                            if j < old_seen.len() {
                                assert(old_seen[j] == seen[j]);
                            } else {
                                assert(k2 == key@);
                                assert(names(outside@)[old_out.len() as int] == k2);
                            }
                        }
                    }
                }
                t = t + 1;
            }
            proof {
                assert(f[m as int].imports == names(imports@));
                assert(seen =~= import_uses(f, self.picked@, m + 1));
            }
            m = m + 1;
        }
        proof {
            lemma_used_total(seen, names(present@));
            assert(pairs(used@).len() == used@.len());
            assert(total_weight(pairs(used@)) <= usize::MAX);
        }
        let used_by = tally(&used);
        let external = sorted_names(&outside);
        // Names found more than once.
        let mut ones: Vec<(String, usize)> = Vec::new();
        let mut q: usize = 0;
        while q < present.len()
            invariant
                q <= present.len(),
                ones.len() == q,
                forall|a: int| 0 <= a < q ==> (#[trigger] ones@[a]).0@ == present@[a]@ && ones@[a].1 == 1,
            decreases present.len() - q,
        {
            ones.push((present[q].clone(), 1));
            q = q + 1;
        }
        assert(pairs(ones@) =~= key_ones(names(present@)));
        proof {
            lemma_ones_total(names(present@));
        }
        let counts = tally(&ones);
        let mut many: Vec<String> = Vec::new();
        let mut c: usize = 0;
        while c < counts.len()
            invariant
                c <= counts.len(),
                distinct_keys(pairs(counts@)),
                is_tally(key_ones(names(present@)), pairs(counts@)),
                forall|key: Seq<char>|
                    #[trigger] names(many@).contains(key) == (exists|a: int|
                        0 <= a < c && counts@[a].0@ == key && counts@[a].1 > 1),
            decreases counts.len() - c,
        {
            let ghost before = names(many@);
            if counts[c].1 > 1 {
                many.push(counts[c].0.clone());
            }
            proof {
                assert forall|key: Seq<char>| #[trigger] names(many@).contains(key) == (exists|a: int|
                    0 <= a < c + 1 && counts@[a].0@ == key && counts@[a].1 > 1) by {
                    if before.contains(key) {
                        let b = choose|b: int| 0 <= b < before.len() && before[b] == key;
                        assert(names(many@)[b] == key);
                    }
                    if names(many@).contains(key) {
                        let b = choose|b: int| 0 <= b < names(many@).len() && names(many@)[b] == key;
                        if b < before.len() {
                            assert(before[b] == key);
                        }
                    }
                    if counts@[c as int].1 > 1 && counts@[c as int].0@ == key {
                        assert(names(many@)[before.len() as int] == key);
                    }
                }
            }
            c = c + 1;
        }
        let duplicates = sorted_names(&many);
        proof {
            let ko = key_ones(names(present@));
            let cv = pairs(counts@);
            assert forall|key: Seq<char>| #[trigger] names(duplicates@).contains(key) == (weight_of(
                ko,
                key,
            ) > 1) by {
                assert(names(many@).contains(key) == (exists|a: int|
                    0 <= a < counts.len() && counts@[a].0@ == key && counts@[a].1 > 1));
                if exists|a: int| 0 <= a < counts.len() && counts@[a].0@ == key && counts@[a].1 > 1 {
                    let a = choose|a: int|
                        0 <= a < counts.len() && counts@[a].0@ == key && counts@[a].1 > 1;
                    assert(cv[a].0 == key);
                    lemma_weight_row(cv, a);
                }
                if weight_of(ko, key) > 1 {
                    assert(weight_of(cv, key) > 1);
                    if !has_key(cv, key) {
                        lemma_weight_absent(cv, key);
                    }
                    let a = choose|a: int| 0 <= a < cv.len() && cv[a].0 == key;
                    lemma_weight_row(cv, a);
                    assert(counts@[a].0@ == key && counts@[a].1 > 1);
                }
            }
        }
        Digest {
            apps,
            libs,
            total_bytes: total,
            selected_bytes: chosen,
            used_by,
            duplicates,
            external,
        }
    }
}

proof fn lemma_bytes_monotone(found: Seq<ModV>, picked: Seq<bool>, a: int, b: int, only: bool)
    requires
        0 <= a <= b,
    ensures
        bytes_of(found, picked, a, only) <= bytes_of(found, picked, b, only),
        bytes_of(found, picked, a, true) <= bytes_of(found, picked, a, false),
    decreases b,
{
    if b > a {
        lemma_bytes_monotone(found, picked, a, b - 1, only);
    } else if a > 0 {
        lemma_bytes_monotone(found, picked, a - 1, a - 1, only);
    }
}

proof fn lemma_used_total(uses: Seq<(Seq<char>, bool)>, present: Seq<Seq<char>>)
    ensures
        total_weight(used_items(uses, present)) == used_items(uses, present).len(),
    decreases uses.len(),
{
    if uses.len() > 0 {
        lemma_used_total(uses.drop_last(), present);
        let r = used_items(uses.drop_last(), present);
        assert(r.push((uses.last().0, 1nat)).drop_last() =~= r);
    }
}

proof fn lemma_ones_total(keys: Seq<Seq<char>>)
    ensures
        total_weight(key_ones(keys)) == keys.len(),
    decreases keys.len(),
{
    if keys.len() > 0 {
        assert(key_ones(keys).drop_last() =~= key_ones(keys.drop_last()));
        lemma_ones_total(keys.drop_last());
    }
}

/// Module `i` is listed before module `j`: applications before libraries,
/// then by upper-cased name, then in scan order.
pub open spec fn listed_before(found: Seq<ModV>, i: int, j: int) -> bool {
    let (a, b) = (found[i], found[j]);
    ||| (!a.is_library && b.is_library)
    ||| (a.is_library == b.is_library && lex_lt(upper(a.module), upper(b.module)))
    ||| (a.is_library == b.is_library && upper(a.module) == upper(b.module) && i < j)
}

/// Whether module `m` passes the filter: no filter, or its name or its path
/// contains the filter, all compared in lower case.
pub open spec fn passes_filter(filter: Seq<char>, m: ModV) -> bool {
    let needle = lower(filter);
    needle.len() == 0 || contains(lower(m.module), needle) || contains(lower(m.path), needle)
}

impl Wizard {
    /// The order the module list shows the scan in: applications first,
    /// since they are the way into everything else, then by name.
    pub fn module_order(&self) -> (r: Vec<usize>)
        ensures
            r.len() == self.found.len(),
            forall|a: int| 0 <= a < r.len() ==> r@[a] < self.found.len(),
            forall|i: usize| i < self.found.len() ==> #[trigger] r@.contains(i),
            forall|a: int, b: int|
                0 <= a < b < r.len() ==> listed_before(
                    mods_view(self.found@),
                    r@[a] as int,
                    r@[b] as int,
                ),
    {
        let ghost f = mods_view(self.found@);
        let n = self.found.len();
        let mut ups: Vec<String> = Vec::new();
        let mut i: usize = 0;
        while i < n
            invariant
                i <= n,
                n == self.found.len(),
                f == mods_view(self.found@),
                ups.len() == i,
                forall|k: int| 0 <= k < i ==> (#[trigger] ups@[k])@ == upper(f[k].module),
            decreases n - i,
        {
            ups.push(upper_string(&self.found[i].module));
            i = i + 1;
        }
        let mut out: Vec<usize> = Vec::new();
        let mut j: usize = 0;
        while j < n
            invariant
                j <= n,
                n == self.found.len(),
                f == mods_view(self.found@),
                ups.len() == n,
                forall|k: int| 0 <= k < n ==> (#[trigger] ups@[k])@ == upper(f[k].module),
                out.len() == j,
                forall|a: int| 0 <= a < out.len() ==> out@[a] < j,
                forall|k: usize| k < j ==> #[trigger] out@.contains(k),
                forall|a: int, b: int|
                    0 <= a < b < out.len() ==> listed_before(f, out@[a] as int, out@[b] as int),
            decreases n - j,
        {
            let lib = self.found[j].is_library;
            let mut pos: usize = 0;
            while pos < out.len() && ((!self.found[out[pos]].is_library && lib) || (
            self.found[out[pos]].is_library == lib && !str_lt(&ups[j], &ups[out[pos]])))
                invariant
                    pos <= out.len(),
                    j < n,
                    n == self.found.len(),
                    f == mods_view(self.found@),
                    ups.len() == n,
                    forall|k: int| 0 <= k < n ==> (#[trigger] ups@[k])@ == upper(f[k].module),
                    forall|a: int| 0 <= a < out.len() ==> out@[a] < j,
                    lib == f[j as int].is_library,
                    forall|a: int| 0 <= a < pos ==> listed_before(f, #[trigger] out@[a] as int, j as int),
                decreases out.len() - pos,
            {
                proof {
                    let o = out@[pos as int] as int;
                    assert(ups@[o]@ == upper(f[o].module));
                    assert(ups@[j as int]@ == upper(f[j as int].module));
                    if f[o].is_library == lib && !lex_lt(upper(f[j as int].module), upper(f[o].module)) {
                        if upper(f[j as int].module) != upper(f[o].module) {
                            crate::order::lemma_lex_total(upper(f[j as int].module), upper(f[o].module));
                        }
                    }
                }
                pos = pos + 1;
            }
            proof {
                if pos < out.len() {
                    let o = out@[pos as int] as int;
                    assert(ups@[o]@ == upper(f[o].module));
                    assert(ups@[j as int]@ == upper(f[j as int].module));
                    assert(listed_before(f, j as int, o));
                    assert forall|a: int| pos <= a < out.len() implies listed_before(
                        f,
                        j as int,
                        #[trigger] out@[a] as int,
                    ) by {
                        if a > pos {
                            lemma_listed_transitive(f, j as int, o, out@[a] as int);
                        }
                    }
                }
            }
            let ghost before = out@;
            out.insert(pos, j);
            proof {
                assert forall|a: int, b: int| 0 <= a < b < out.len() implies listed_before(
                    f,
                    out@[a] as int,
                    out@[b] as int,
                ) by {
                    if a < pos && b > pos {
                        assert(out@[b] == before[b - 1]);
                    } else if a > pos {
                        assert(out@[a] == before[a - 1]);
                        assert(out@[b] == before[b - 1]);
                    }
                }
                assert forall|k: usize| k < j + 1 implies #[trigger] out@.contains(k) by {
                    if k < j {
                        assert(before.contains(k));
                        let a = choose|a: int| 0 <= a < before.len() && before[a] == k;
                        if a < pos {
                            assert(out@[a] == k);
                        } else {
                            assert(out@[a + 1] == k);
                        }
                    } else {
                        assert(out@[pos as int] == k);
                    }
                }
                assert forall|a: int| 0 <= a < out.len() implies out@[a] < j + 1 by {
                    if a < pos {
                        assert(out@[a] == before[a]);
                    } else if a > pos {
                        assert(out@[a] == before[a - 1]);
                    }
                }
            }
            j = j + 1;
        }
        out
    }

    /// Whether module `i` passes the list's filter.
    pub fn shown(&self, i: usize) -> (r: bool)
        requires
            i < self.found.len(),
        ensures
            r == passes_filter(self.filter@, self.found@[i as int]@),
    {
        let needle = to_lower(&chars_of(self.filter.as_str()));
        if needle.len() == 0 {
            return true;
        }
        let m = &self.found[i];
        let name = to_lower(&chars_of(m.module.as_str()));
        if contains_chars(&name, &needle) {
            return true;
        }
        let path = to_lower(&chars_of(m.path.as_str()));
        contains_chars(&path, &needle)
    }
}

proof fn lemma_listed_transitive(f: Seq<ModV>, i: int, j: int, k: int)
    requires
        listed_before(f, i, j),
        listed_before(f, j, k),
    ensures
        listed_before(f, i, k),
{
    let (a, b, c) = (upper(f[i].module), upper(f[j].module), upper(f[k].module));
    if f[i].is_library == f[j].is_library && f[j].is_library == f[k].is_library {
        if lex_lt(a, b) && lex_lt(b, c) {
            crate::order::lemma_lex_transitive(a, b, c);
        }
    }
}

} // verus!
