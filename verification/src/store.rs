//! What the tool remembers between runs: where its files live, the list of
//! recently opened binaries and projects, the preferences, and the theme
//! being edited. Reading and writing the files is done around these.

use vstd::prelude::*;
use crate::text::{
    chars_of, contains, decimal, extend, extend_str, fmt_decimal, split, starts_with, str_eq,
    string_of,
};

verus! {

/// `dirs::config_dir`, as text: the platform's directory for per-user
/// configuration. What it is depends on the platform and the environment,
/// so nothing is promised of it.
#[verifier::external_body]
fn platform_config_dir() -> (r: Option<String>) {
    dirs::config_dir().map(|d| d.to_string_lossy().into_owned())
}

/// A plain file or directory name: not empty, not `.` or `..`, and free of
/// separators and drive colons.
pub open spec fn plain_name(s: Seq<char>) -> bool {
    &&& s.len() > 0
    &&& forall|i: int| 0 <= i < s.len() ==> #[trigger] s[i] != '/' && s[i] != '\\' && s[i] != ':'
    &&& s != seq!['.']
    &&& s != seq!['.', '.']
}

/// A path that may carry a Windows verbatim prefix (`\\?\`), under which
/// joining also normalises the components. No other Windows path holds a `?`.
pub open spec fn maybe_verbatim(s: Seq<char>) -> bool {
    s.contains('?')
}

/// `p` is `part` joined onto `base`: directly when `base` is empty or ends in
/// a separator, else with the platform's separator between them.
pub open spec fn joined(base: Seq<char>, part: Seq<char>, p: Seq<char>) -> bool {
    p == base + part || p == base + seq!['/'] + part || p == base + seq!['\\'] + part
}

/// `Path::join` on text: `part` put under `base`, with a separator between
/// them as needed. Under a Windows verbatim prefix the result is also
/// normalised (`.` and `..` taken out), so there only the last component
/// is stated. Nothing is stated for a `part` that is not a plain name: one
/// that holds separators adds several components, and an absolute one
/// takes the place of `base`.
#[verifier::external_body]
pub(crate) fn join_path(base: &str, part: &str) -> (r: String)
    ensures
        plain_name(part@) ==> ends_with(r@, part@),
        plain_name(part@) && !maybe_verbatim(base@) ==> joined(base@, part@, r@),
{
    std::path::Path::new(base).join(part).to_string_lossy().into_owned()
}

/// `p` is the file `name` in a directory whose path begins `path`: the
/// directory `path` is in, or `path` itself when it names no file.
pub open spec fn beside(path: Seq<char>, name: Seq<char>, p: Seq<char>) -> bool {
    exists|dir: Seq<char>| starts_with(path, dir) && #[trigger] joined(dir, name, p)
}

/// `Path::with_file_name` on text: the same directory, another file name.
/// The directory is what `Path::parent` gives, a leading part of the text;
/// under a Windows verbatim prefix the join also normalises, and only the
/// last component is stated.
#[verifier::external_body]
fn with_file_name(path: &str, name: &str) -> (r: String)
    requires
        plain_name(name@),
    ensures
        r@.len() >= name@.len() && r@.subrange(r@.len() - name@.len(), r@.len() as int) == name@,
        !maybe_verbatim(path@) ==> beside(path@, name@, r@),
{
    std::path::Path::new(path).with_file_name(name).to_string_lossy().into_owned()
}

/// `s` without the separators at its end.
pub open spec fn trim_trailing_slashes(s: Seq<char>) -> Seq<char>
    decreases s.len(),
{
    if s.len() > 0 && s.last() == '/' {
        trim_trailing_slashes(s.drop_last())
    } else {
        s
    }
}

/// What follows the last separator of `s`, or all of it when it has none.
pub open spec fn after_last_slash(s: Seq<char>) -> Seq<char>
    decreases s.len(),
{
    if s.len() == 0 || s.last() == '/' {
        Seq::empty()
    } else {
        after_last_slash(s.drop_last()).push(s.last())
    }
}

/// The last component of a path: what follows its last separator once the
/// separators at its end are dropped; empty when there is none.
pub open spec fn last_component(p: Seq<char>) -> Seq<char> {
    after_last_slash(trim_trailing_slashes(p))
}

/// A path written with `/` alone, read the same on every platform: no `\`,
/// no drive or verbatim prefix, no leading `//`, no `..` component and no
/// `.` component but a leading one (`./games`), and not `.` itself; its
/// components are the non-empty parts between the slashes, a leading `.`
/// aside.
pub open spec fn simple_path(p: Seq<char>) -> bool {
    &&& !p.contains('\\')
    &&& !p.contains(':')
    &&& !p.contains('?')
    &&& !(p.len() >= 2 && p[0] == '/' && p[1] == '/')
    &&& forall|i: int|
        0 <= i < split(p, '/').len() ==> (i > 0 ==> #[trigger] split(p, '/')[i] != seq!['.'])
            && split(p, '/')[i] != seq!['.', '.']
    &&& last_component(p) != seq!['.']
}

/// `Path::file_name` on text: the final component of a path, if it has one.
/// A component is a non-empty part of the text, with no `/` in it except
/// under a Windows verbatim prefix, where only `\` separates; for a path
/// written with `/` alone it is the part after the last separator, trailing
/// separators aside, and there is none when that part is empty.
#[verifier::external_body]
pub(crate) fn final_component(path: &str) -> (r: Option<String>)
    ensures
        r matches Some(n) ==> contains(path@, n@) && n@.len() > 0,
        r matches Some(n) ==> (!maybe_verbatim(path@) ==> !n@.contains('/')),
        simple_path(path@) ==> if last_component(path@).len() > 0 {
            r matches Some(n) && n@ == last_component(path@)
        } else {
            r is None
        },
{
    std::path::Path::new(path).file_name().map(|s| s.to_string_lossy().into_owned())
}

/// Where the last `.` of `n` is, or -1 when it has none.
pub open spec fn last_dot(n: Seq<char>) -> int
    decreases n.len(),
{
    if n.len() == 0 {
        -1
    } else if n.last() == '.' {
        n.len() - 1
    } else {
        last_dot(n.drop_last())
    }
}

/// A file name without its extension: what comes before its last `.`,
/// or the whole name when it has no `.` past its first character.
pub open spec fn stem_of(n: Seq<char>) -> Seq<char> {
    if last_dot(n) <= 0 {
        n
    } else {
        n.subrange(0, last_dot(n))
    }
}

/// `Path::file_stem` on text: the final component without its extension.
/// For a path written with `/` alone it is the stem of the last component,
/// and there is none when the path has no component.
#[verifier::external_body]
pub(crate) fn file_stem(path: &str) -> (r: Option<String>)
    ensures
        r matches Some(n) ==> n@.len() > 0,
        simple_path(path@) ==> if last_component(path@).len() > 0 {
            r matches Some(n) && n@ == stem_of(last_component(path@))
        } else {
            r is None
        },
{
    std::path::Path::new(path).file_stem().map(|s| s.to_string_lossy().into_owned())
}

/// `Path::parent` on text: the path without its final component, if it has
/// one. It is a leading part of the text; which one depends on how the
/// platform splits the path into components, and that is not stated here.
#[verifier::external_body]
pub(crate) fn parent_dir(path: &str) -> (r: Option<String>)
    ensures
        r matches Some(p) ==> starts_with(path@, p@),
{
    std::path::Path::new(path).parent().map(|p| p.to_string_lossy().into_owned())
}

/// `Path::exists`: whether something is at the path now. It asks the
/// file system, so nothing is promised of it.
#[verifier::external_body]
fn path_exists(path: &str) -> (r: bool) {
    std::path::Path::new(path).exists()
}

/// `s` ends with `t`.
pub open spec fn ends_with(s: Seq<char>, t: Seq<char>) -> bool {
    s.len() >= t.len() && s.subrange(s.len() - t.len(), s.len() as int) == t
}

/// `p` is the file `name` in `sith` under the configuration directory `config`.
pub open spec fn tool_file(config: Seq<char>, name: Seq<char>, p: Seq<char>) -> bool {
    exists|own: Seq<char>| #[trigger] joined(config, "sith"@, own) && joined(own, name, p)
}

/// The file `name` in this tool's directory, `sith` under the configuration
/// directory `config`; nothing when the platform gives no such directory.
pub fn file_in_tool_dir(config: Option<String>, name: &str) -> (r: Option<String>)
    requires
        plain_name(name@),
    ensures
        r is Some <==> config is Some,
        r matches Some(p) ==> ends_with(p@, name@),
        r matches Some(p) ==> (config matches Some(c) && (!maybe_verbatim(c@) ==> tool_file(
            c@,
            name@,
            p@,
        ))),
{
    proof {
        reveal_strlit("sith");
        assert("sith"@.len() == 4);
        assert(plain_name("sith"@));
    }
    match config {
        None => None,
        Some(d) => {
            let own = join_path(d.as_str(), "sith");
            let p = join_path(own.as_str(), name);
            proof {
                if !maybe_verbatim(d@) {
                    let o = own@;
                    assert(joined(d@, "sith"@, o));
                    assert(!maybe_verbatim(o)) by {
                        if o.contains('?') {
                            let k = choose|k: int| 0 <= k < o.len() && o[k] == '?';
                            if k < d@.len() {
                                assert(d@[k] == '?');
                            } else {
                                assert(o[k] == '/' || o[k] == '\\' || "sith"@.contains('?'));
                            }
                        }
                    }
                    assert(joined(o, name@, p@));
                }
            }
            Some(p)
        },
    }
}

/// The file `name` in this tool's directory under the platform's
/// configuration directory. Whether the platform gives one is up to it, so
/// what holds is what holds of every answer: a path, when there is one,
/// ends with the file's name.
fn in_config(name: &str) -> (r: Option<String>)
    requires
        plain_name(name@),
    ensures
        r matches Some(p) ==> ends_with(p@, name@),
{
    file_in_tool_dir(platform_config_dir(), name)
}

/// The directory holding custom themes, one file each: `themes` in this
/// tool's directory under the platform's configuration directory.
pub fn themes_dir() -> (r: Option<String>)
    ensures
        r matches Some(p) ==> ends_with(p@, "themes"@),
{
    proof {
        reveal_strlit("themes");
        assert("themes"@.len() == 6);
    }
    in_config("themes")
}

/// The recently opened list.
pub fn recent_file() -> (r: Option<String>)
    ensures
        r matches Some(p) ==> ends_with(p@, "recent.json"@),
{
    proof {
        reveal_strlit("recent.json");
        assert("recent.json"@.len() == 11);
    }
    in_config("recent.json")
}

/// Key bindings, when they have been customised.
pub fn keys_file() -> (r: Option<String>)
    ensures
        r matches Some(p) ==> ends_with(p@, "keys.json"@),
{
    proof {
        reveal_strlit("keys.json");
        assert("keys.json"@.len() == 9);
    }
    in_config("keys.json")
}

/// The preferences, kept beside the recent list.
pub fn settings_path(recent: Option<&str>) -> (r: Option<String>)
    ensures
        r is Some <==> recent is Some,
        r matches Some(p) ==> ends_with(p@, "settings.json"@),
        r matches Some(p) ==> (recent matches Some(q) && (!maybe_verbatim(q@) ==> beside(
            q@,
            "settings.json"@,
            p@,
        ))),
{
    proof {
        reveal_strlit("settings.json");
        assert("settings.json"@.len() == 13);
    }
    match recent {
        None => None,
        Some(p) => Some(with_file_name(p, "settings.json")),
    }
}

/// One entry in the persisted recent list.
#[derive(Debug)]
pub struct RecentEntry {
    pub path: String,
    pub is_project: bool,
    /// Module or project name, so the start screen does not have to open
    /// every file just to label the list.
    pub label: String,
}

/// A recent entry as a value.
pub struct RecentV {
    pub path: Seq<char>,
    pub is_project: bool,
    pub label: Seq<char>,
}

impl View for RecentEntry {
    type V = RecentV;

    open spec fn view(&self) -> RecentV {
        RecentV { path: self.path@, is_project: self.is_project, label: self.label@ }
    }
}

impl RecentEntry {
    /// The file's own name, or the whole path when it has none.
    pub fn file_name(&self) -> (r: String)
        ensures
            contains(self.path@, r@),
            r@ == self.path@ || r@.len() > 0,
            r@ != self.path@ && !maybe_verbatim(self.path@) ==> !r@.contains('/'),
            simple_path(self.path@) ==> r@ == if last_component(self.path@).len() > 0 {
                last_component(self.path@)
            } else {
                self.path@
            },
    {
        match final_component(self.path.as_str()) {
            Some(n) => n,
            None => {
                let p = self.path.clone();
                assert(crate::text::occurs_at(self.path@, p@, 0)) by {
                    assert(self.path@.subrange(0, p@.len() as int) =~= p@);
                }
                p
            },
        }
    }

    /// Whether the file is still there.
    pub fn exists_on_disk(&self) -> (r: bool) {
        path_exists(self.path.as_str())
    }
}

/// Recent entries as values.
pub open spec fn recents_view(v: Seq<RecentEntry>) -> Seq<RecentV> {
    v.map_values(|e: RecentEntry| e@)
}

/// The entries other than those for `path`, in order.
pub open spec fn without_path(v: Seq<RecentV>, path: Seq<char>) -> Seq<RecentV>
    decreases v.len(),
{
    if v.len() == 0 {
        Seq::empty()
    } else if v.last().path == path {
        without_path(v.drop_last(), path)
    } else {
        without_path(v.drop_last(), path).push(v.last())
    }
}

/// The module name of the first open document at `path`, or nothing.
pub open spec fn module_at(docs: Seq<(Seq<char>, Seq<char>)>, path: Seq<char>, i: int) -> Seq<char>
    decreases docs.len() - i,
{
    if i < 0 || i >= docs.len() {
        Seq::empty()
    } else if docs[i].0 == path {
        docs[i].1
    } else {
        module_at(docs, path, i + 1)
    }
}

/// The file name offered when a project is first saved.
pub open spec fn save_suggestion_text(name: Seq<char>) -> Seq<char> {
    if name.len() == 0 {
        "project.sith"@
    } else {
        name + ".sith"@
    }
}

/// The file name offered when a project is first saved: the project's name
/// with the `.sith` extension, or `project.sith` for a project with no name.
pub fn save_suggestion(name: &str) -> (r: String)
    ensures
        r@ == save_suggestion_text(name@),
{
    if name.unicode_len() == 0 {
        return String::from_str("project.sith");
    }
    let mut v = chars_of(name);
    extend_str(&mut v, ".sith");
    string_of(&v)
}

/// The name a project is saved under: its own, or else the saved file's
/// stem, or else `untitled`.
pub fn saved_project_name(name: &str, stem: Option<&str>) -> (r: String)
    ensures
        r@ == if name@.len() > 0 {
            name@
        } else {
            match stem {
                Some(s) => s@,
                None => "untitled"@,
            }
        },
{
    if name.unicode_len() > 0 {
        return String::from_str(name);
    }
    match stem {
        Some(s) => String::from_str(s),
        None => String::from_str("untitled"),
    }
}

/// The status line after a project is opened.
pub open spec fn project_status_text(name: Seq<char>, annotations: nat, listed: nat, opened: nat) -> Seq<
    char,
> {
    if listed == 0 {
        name + " lists no binaries"@
    } else {
        name + " \u{2014} "@ + decimal(annotations) + " annotations across "@ + decimal(listed)
            + " binaries"@ + if opened < listed {
            ", "@ + decimal((listed - opened) as nat) + " missing"@
        } else {
            Seq::empty()
        }
    }
}

/// The status line after a project is opened: how much it annotates across
/// how many binaries and how many of those could not be found, or, for a
/// project that lists nothing, that it lists nothing -- a window that looks
/// untouched has to say why.
pub fn project_status(name: &str, annotations: usize, listed: usize, opened: usize) -> (r: String)
    requires
        opened <= listed,
    ensures
        r@ == project_status_text(name@, annotations as nat, listed as nat, opened as nat),
{
    let mut v = chars_of(name);
    if listed == 0 {
        extend_str(&mut v, " lists no binaries");
        return string_of(&v);
    }
    extend_str(&mut v, " \u{2014} ");
    extend(&mut v, &fmt_decimal(annotations as u64));
    extend_str(&mut v, " annotations across ");
    extend(&mut v, &fmt_decimal(listed as u64));
    extend_str(&mut v, " binaries");
    if opened < listed {
        extend_str(&mut v, ", ");
        extend(&mut v, &fmt_decimal((listed - opened) as u64));
        extend_str(&mut v, " missing");
    }
    string_of(&v)
}

/// The most entries the recent list keeps.
pub const RECENT_MAX: usize = 12;

/// The recent list after opening `path`: it moves to the front, the list is
/// kept to twelve, and the new entry is labelled with the project's name or,
/// for a binary, with the module name of the open document at that path.
pub open spec fn remembered(
    old: Seq<RecentV>,
    path: Seq<char>,
    is_project: bool,
    project: Seq<char>,
    docs: Seq<(Seq<char>, Seq<char>)>,
) -> Seq<RecentV> {
    let kept = without_path(old, path);
    let label = if is_project {
        project
    } else {
        module_at(docs, path, 0)
    };
    let all = seq![RecentV { path, is_project, label }] + kept;
    if all.len() > 12 {
        all.take(12)
    } else {
        all
    }
}

/// No path appears twice in the list.
pub open spec fn paths_distinct(v: Seq<RecentV>) -> bool {
    forall|i: int, j: int| 0 <= i < j < v.len() ==> (#[trigger] v[i]).path != (#[trigger] v[j]).path
}

proof fn lemma_without_path(v: Seq<RecentV>, path: Seq<char>)
    ensures
        without_path(v, path).len() <= v.len(),
        forall|k: int|
            0 <= k < without_path(v, path).len() ==> (#[trigger] without_path(v, path)[k]).path
                != path,
        forall|k: int|
            #![trigger without_path(v, path)[k]]
            0 <= k < without_path(v, path).len() ==> exists|m: int|
                0 <= m < v.len() && #[trigger] v[m] == without_path(v, path)[k],
        paths_distinct(v) ==> paths_distinct(without_path(v, path)),
    decreases v.len(),
{
    if v.len() > 0 {
        let d = v.drop_last();
        lemma_without_path(d, path);
        let r = without_path(d, path);
        assert forall|k: int| #![trigger r[k]] 0 <= k < r.len() implies exists|m: int|
            0 <= m < v.len() && #[trigger] v[m] == r[k] by {
            let m = choose|m: int| 0 <= m < d.len() && #[trigger] d[m] == r[k];
            assert(v[m] == d[m]);
        }
        if paths_distinct(v) {
            assert(paths_distinct(d)) by {
                assert forall|i: int, j: int| 0 <= i < j < d.len() implies (#[trigger] d[i]).path
                    != (#[trigger] d[j]).path by {
                    assert(d[i] == v[i] && d[j] == v[j]);
                }
            }
            if v.last().path != path {
                let w = r.push(v.last());
                assert forall|i: int, j: int| 0 <= i < j < w.len() implies (#[trigger] w[i]).path
                    != (#[trigger] w[j]).path by {
                    if j == r.len() {
                        let m = choose|m: int| 0 <= m < d.len() && #[trigger] d[m] == r[i];
                        assert(d[m] == v[m]);
                        assert(v[v.len() - 1] == v.last());
                    } else {
                        assert(w[i] == r[i] && w[j] == r[j]);
                    }
                }
            }
        }
    }
}

/// After a path is remembered it is first in the list, the list holds at most
/// twelve entries, and if no path was listed twice before, none is now.
pub proof fn lemma_remembered_front_unique(
    old: Seq<RecentV>,
    path: Seq<char>,
    is_project: bool,
    project: Seq<char>,
    docs: Seq<(Seq<char>, Seq<char>)>,
)
    requires
        paths_distinct(old),
    ensures
        remembered(old, path, is_project, project, docs).len() <= RECENT_MAX,
        remembered(old, path, is_project, project, docs).len() >= 1,
        remembered(old, path, is_project, project, docs)[0].path == path,
        paths_distinct(remembered(old, path, is_project, project, docs)),
{
    let kept = without_path(old, path);
    lemma_without_path(old, path);
    let label = if is_project {
        project
    } else {
        module_at(docs, path, 0)
    };
    let all = seq![RecentV { path, is_project, label }] + kept;
    assert(paths_distinct(all)) by {
        assert forall|i: int, j: int| 0 <= i < j < all.len() implies (#[trigger] all[i]).path
            != (#[trigger] all[j]).path by {
            assert(all[j] == kept[j - 1]);
            if i > 0 {
                assert(all[i] == kept[i - 1]);
            }
        }
    }
    let r = remembered(old, path, is_project, project, docs);
    if all.len() > 12 {
        assert(r == all.take(12));
        assert forall|i: int, j: int| 0 <= i < j < r.len() implies (#[trigger] r[i]).path
            != (#[trigger] r[j]).path by {
            assert(r[i] == all[i] && r[j] == all[j]);
        }
    }
}

/// Document paths and module names as values.
pub open spec fn docs_view(v: Seq<(String, String)>) -> Seq<(Seq<char>, Seq<char>)> {
    v.map_values(|d: (String, String)| (d.0@, d.1@))
}

/// Take `path` off the recent list, keeping the other entries in order.
pub fn forget_recent(recent: &mut Vec<RecentEntry>, path: &str)
    ensures
        recents_view(final(recent)@) == without_path(recents_view(old(recent)@), path@),
{
    let mut src: Vec<RecentEntry> = Vec::new();
    std::mem::swap(recent, &mut src);
    let ghost all = src@;
    assert(all.len() == src.len());
    let mut kept: Vec<RecentEntry> = Vec::new();
    let mut i: usize = 0;
    assert(all.skip(0) =~= all);
    assert(recents_view(all.take(0)) =~= Seq::<RecentV>::empty());
    while src.len() > 0
        invariant
            i <= all.len(),
            all.len() <= usize::MAX,
            src@ == all.skip(i as int),
            recents_view(kept@) == without_path(recents_view(all.take(i as int)), path@),
        decreases src.len(),
    {
        proof {
            assert(all.skip(i as int)[0] == all[i as int]);
        }
        let e = src.remove(0);
        proof {
            assert(src@ =~= all.skip(i + 1));
            let t = recents_view(all.take(i + 1));
            assert(t.drop_last() =~= recents_view(all.take(i as int)));
            assert(t.last() == e@);
        }
        if !str_eq(e.path.as_str(), path) {
            let ghost before = recents_view(kept@);
            kept.push(e);
            assert(recents_view(kept@) =~= before.push(e@));
        }
        i = i + 1;
    }
    proof {
        assert(all.take(i as int) =~= all);
    }
    *recent = kept;
}

/// Record a path in the recent list. `docs` are the open documents' paths
/// and module names; `project` is the open project's name.
pub fn remember_recent(
    recent: &mut Vec<RecentEntry>,
    path: String,
    is_project: bool,
    project: &str,
    docs: &Vec<(String, String)>,
)
    ensures
        recents_view(final(recent)@) == remembered(
            recents_view(old(recent)@),
            path@,
            is_project,
            project@,
            docs_view(docs@),
        ),
{
    let ghost o = recents_view(recent@);
    forget_recent(recent, path.as_str());
    let mut kept: Vec<RecentEntry> = Vec::new();
    std::mem::swap(recent, &mut kept);
    let label = if is_project {
        String::from_str(project)
    } else {
        module_of(docs, path.as_str())
    };
    let ghost kv = recents_view(kept@);
    let ghost first = RecentV { path: path@, is_project, label: label@ };
    proof {
        assert(kv == without_path(o, path@));
        assert(label@ == if is_project {
            project@
        } else {
            module_at(docs_view(docs@), path@, 0)
        });
    }
    let mut out: Vec<RecentEntry> = Vec::new();
    out.push(RecentEntry { path, is_project, label });
    let mut j: usize = 0;
    assert(kept@.skip(0) =~= kept@);
    let ghost kall = kept@;
    while kept.len() > 0 && out.len() < 12
        invariant
            j <= kall.len(),
            kept@ == kall.skip(j as int),
            kv == recents_view(kall),
            out.len() == j + 1,
            out.len() <= 12,
            recents_view(out@) == seq![first] + kv.take(j as int),
        decreases kept.len(),
    {
        proof {
            assert(kall.skip(j as int)[0] == kall[j as int]);
        }
        let e = kept.remove(0);
        let ghost before = recents_view(out@);
        proof {
            assert(e == kall[j as int]);
            assert(kv[j as int] == e@);
        }
        out.push(e);
        proof {
            assert(kept@ =~= kall.skip(j + 1));
            assert(recents_view(out@) =~= before.push(e@));
            assert(recents_view(out@) =~= seq![first] + kv.take(j + 1));
        }
        j = j + 1;
    }
    proof {
        let all2 = seq![first] + kv;
        assert(all2 == seq![RecentV { path: first.path, is_project, label: first.label }] + without_path(o, first.path));
        if all2.len() > 12 {
            assert(recents_view(out@) =~= all2.take(12));
        } else {
            assert(j == kall.len());
            assert(kv.take(j as int) =~= kv);
            assert(recents_view(out@) =~= all2);
        }
    }
    *recent = out;
}

/// The module name of the first document at `path`, or nothing.
fn module_of(docs: &Vec<(String, String)>, path: &str) -> (r: String)
    ensures
        r@ == module_at(docs_view(docs@), path@, 0),
{
    let mut k: usize = 0;
    while k < docs.len()
        invariant
            k <= docs.len(),
            module_at(docs_view(docs@), path@, 0) == module_at(docs_view(docs@), path@, k as int),
        decreases docs.len() - k,
    {
        proof {
            assert(docs_view(docs@)[k as int] == (docs@[k as int].0@, docs@[k as int].1@));
        }
        if crate::text::str_eq(docs[k].0.as_str(), path) {
            return docs[k].1.clone();
        }
        k = k + 1;
    }
    String::new()
}

/// Persisted preferences, deliberately small: anything that can be
/// recomputed does not belong here.
#[derive(Debug)]
pub struct Settings {
    pub theme: String,
}

/// The theme a first run starts with.
pub fn default_theme() -> (r: &'static str)
    ensures
        r@ == "Catppuccin Mocha"@,
{
    "Catppuccin Mocha"
}

impl Default for Settings {
    fn default() -> (r: Settings)
        ensures
            r.theme@ == "Catppuccin Mocha"@,
    {
        Settings { theme: String::from_str(default_theme()) }
    }
}

/// A colour theme: its name, whether it ships with the tool, whether it is
/// dark, and a colour for each role.
#[derive(Debug)]
pub struct Theme {
    pub name: String,
    pub builtin: bool,
    pub dark: bool,
    pub colors: Vec<u32>,
}

impl Theme {
    /// A copy of the theme.
    pub fn duplicate(&self) -> (r: Theme)
        ensures
            r.name@ == self.name@,
            r.builtin == self.builtin,
            r.dark == self.dark,
            r.colors@ == self.colors@,
    {
        Theme {
            name: self.name.clone(),
            builtin: self.builtin,
            dark: self.dark,
            colors: self.colors.clone(),
        }
    }
}

/// What the theme editor is working on.
#[derive(Debug)]
pub struct ThemeEditor {
    pub working: Theme,
    /// The theme that was active when the editor opened, to put back on
    /// cancel.
    pub original_name: String,
    /// What the working theme started from, for per-role reverts.
    pub base: Theme,
}

impl ThemeEditor {
    /// Start editing `from`. A built-in theme cannot be written over, so
    /// editing one starts a copy and says so in the name.
    pub fn open(from: Theme, original_name: String) -> (r: ThemeEditor)
        ensures
            r.base.name@ == from.name@ && r.base.builtin == from.builtin && r.base.dark == from.dark
                && r.base.colors@ == from.colors@,
            r.working.name@ == if from.builtin {
                from.name@ + " copy"@
            } else {
                from.name@
            },
            !r.working.builtin,
            r.working.dark == from.dark,
            r.working.colors@ == from.colors@,
            r.original_name@ == original_name@,
    {
        let base = from.duplicate();
        let mut working = from;
        if working.builtin {
            let mut v = crate::text::chars_of(working.name.as_str());
            extend_str(&mut v, " copy");
            working.name = string_of(&v);
            working.builtin = false;
        }
        ThemeEditor { working, original_name, base }
    }
}

} // verus!
