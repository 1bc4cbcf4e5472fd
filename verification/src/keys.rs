//! Key bindings.
//!
//! Every shortcut in the tool is a [`Command`] with a [`Binding`] attached, so
//! the menus print the real binding, the settings window lists every shortcut
//! that exists, and a rebinding is checked against the others before it is
//! accepted.
//!
//! A key is named by the identifier egui gives it (`ArrowLeft`, `Num1`, `O`);
//! what egui alone knows -- which key a typed name means -- is asked of egui.

use vstd::prelude::*;
use crate::text::{
    join, join_chars, lemma_split_join, split, split_chars, trim, trim_chars, cat, chars_eq, chars_of, contains, contains_chars, lit, lower, owned, starts_with,
    starts_with_chars, str_eq, string_of, to_lower, upper, is_ws,
};

verus! {

/// When a binding is live.
///
/// A single-letter shortcut cannot fire while a text box has focus, or typing
/// a name would rename something instead, so every command says what it needs.
#[derive(Debug, Clone, Copy, PartialEq, Eq, PartialOrd, Ord, Structural)]
pub enum Scope {
    /// Always, even with a dialog open.
    Global,
    /// Only when nothing is taking typed input.
    Listing,
    /// Only in a listing, with a row selected.
    Selection,
}

/// The label a scope is shown under.
pub open spec fn scope_label(s: Scope) -> Seq<char> {
    match s {
        Scope::Global => "Anywhere"@,
        Scope::Listing => "In a listing"@,
        Scope::Selection => "With a line selected"@,
    }
}

impl Scope {
    /// How the settings window describes this scope.
    pub fn label(self) -> (r: &'static str)
        ensures
            r@ == scope_label(self),
    {
        match self {
            Scope::Global => "Anywhere",
            Scope::Listing => "In a listing",
            Scope::Selection => "With a line selected",
        }
    }
}

/// Modifier keys held with a key, as egui reports them.
#[derive(Debug, Clone, Copy, PartialEq, Eq, Structural)]
pub struct Modifiers {
    pub alt: bool,
    pub ctrl: bool,
    pub shift: bool,
    pub mac_cmd: bool,
    /// Cmd on macOS, Ctrl everywhere else.
    pub command: bool,
}

impl Modifiers {
    /// No modifier held.
    pub fn none() -> (r: Modifiers)
        ensures
            r == no_mods(),
    {
        Modifiers { alt: false, ctrl: false, shift: false, mac_cmd: false, command: false }
    }

    /// Alt alone.
    pub fn alt_key() -> (r: Modifiers)
        ensures
            r == (Modifiers { alt: true, ..no_mods() }),
    {
        Modifiers { alt: true, ctrl: false, shift: false, mac_cmd: false, command: false }
    }

    /// The platform's command key alone: Cmd on macOS, Ctrl elsewhere.
    pub fn command_key() -> (r: Modifiers)
        ensures
            r == (Modifiers { command: true, ..no_mods() }),
    {
        Modifiers { alt: false, ctrl: false, shift: false, mac_cmd: false, command: true }
    }
}

/// No modifier held.
pub open spec fn no_mods() -> Modifiers {
    Modifiers { alt: false, ctrl: false, shift: false, mac_cmd: false, command: false }
}

/// A key, named by its egui identifier.
#[derive(Debug, PartialEq, Eq)]
pub struct Key {
    name: String,
}

impl View for Key {
    type V = Seq<char>;

    closed spec fn view(&self) -> Seq<char> {
        self.name@
    }
}

impl Clone for Key {
    fn clone(&self) -> (r: Key)
        ensures
            r@ == self@,
    {
        Key { name: self.name.clone() }
    }
}

/// The key egui's `Key::from_name` finds for `name`, given by its identifier.
pub uninterp spec fn egui_key_named(name: Seq<char>) -> Option<Seq<char>>;

/// Whether `c` is an ASCII letter.
pub open spec fn is_ascii_letter(c: char) -> bool {
    ('a' <= c && c <= 'z') || ('A' <= c && c <= 'Z')
}

/// What egui's `Key::from_name` finds for `name`, by the key's identifier:
/// a single letter, in either case, names its letter key (`A` to `Z`), and
/// a single digit names egui's `Num` key for it (`Num0` to `Num9`); for any
/// other name it is the named result.
pub open spec fn egui_lookup(name: Seq<char>) -> Option<Seq<char>> {
    if name.len() == 1 && is_ascii_letter(name[0]) {
        Some(upper(name))
    } else if name.len() == 1 && is_digit(name[0]) {
        Some("Num"@ + name)
    } else {
        egui_key_named(name)
    }
}

/// A single letter or digit.
pub open spec fn plain_key_name(name: Seq<char>) -> bool {
    name.len() == 1 && (is_ascii_letter(name[0]) || is_digit(name[0]))
}

/// `egui::Key::from_name`, with the key it finds given by its identifier
/// (its derived `Debug` text). Its table maps each single letter, either
/// case, to the letter key and each single digit to the `Num` key, which
/// is stated; the rest of the table is not written out.
#[verifier::external_body]
fn egui_key_from_name(name: &str) -> (r: Option<String>)
    ensures
        r matches Some(k) ==> (name@.len() == 1 && is_ascii_letter(name@[0]) ==> k@ == upper(name@)),
        r matches Some(k) ==> (name@.len() == 1 && is_digit(name@[0]) ==> k@ == "Num"@ + name@),
        plain_key_name(name@) ==> r is Some,
        r matches Some(k) ==> (egui_key_named(name@) == Some(k@) || plain_key_name(name@)),
        r is None ==> (egui_key_named(name@) is None || plain_key_name(name@)),
{
    match egui::Key::from_name(name) {
        Some(k) => Some(format!("{k:?}")),
        None => None,
    }
}

/// The label a key is printed with: arrows and paging keys get their short
/// names, and the digit keys drop egui's `Num` prefix.
pub open spec fn key_label(k: Seq<char>) -> Seq<char> {
    if k == "ArrowLeft"@ {
        "Left"@
    } else if k == "ArrowRight"@ {
        "Right"@
    } else if k == "ArrowUp"@ {
        "Up"@
    } else if k == "ArrowDown"@ {
        "Down"@
    } else if k == "Enter"@ {
        "Enter"@
    } else if k == "Escape"@ {
        "Esc"@
    } else if k == "PageUp"@ {
        "PgUp"@
    } else if k == "PageDown"@ {
        "PgDn"@
    } else if starts_with(k, "Num"@) {
        k.skip(3)
    } else {
        k
    }
}

/// The key a lower-cased word names among the spellings the tool accepts
/// itself, before asking egui.
pub open spec fn named_key(l: Seq<char>) -> Option<Seq<char>> {
    if l == "left"@ {
        Some("ArrowLeft"@)
    } else if l == "right"@ {
        Some("ArrowRight"@)
    } else if l == "up"@ {
        Some("ArrowUp"@)
    } else if l == "down"@ {
        Some("ArrowDown"@)
    } else if l == "enter"@ || l == "return"@ {
        Some("Enter"@)
    } else if l == "esc"@ || l == "escape"@ {
        Some("Escape"@)
    } else if l == "pgup"@ || l == "pageup"@ {
        Some("PageUp"@)
    } else if l == "pgdn"@ || l == "pagedown"@ {
        Some("PageDown"@)
    } else if l == "space"@ {
        Some("Space"@)
    } else if l == "tab"@ {
        Some("Tab"@)
    } else {
        None
    }
}

/// Whether `c` is an ASCII digit.
pub open spec fn is_digit(c: char) -> bool {
    '0' <= c && c <= '9'
}

/// The key a typed name means: one of the tool's own spellings, else
/// whatever egui makes of it, else a bare digit read as egui's `Num` key.
pub open spec fn parse_key_spec(name: Seq<char>) -> Option<Seq<char>> {
    match named_key(lower(name)) {
        Some(k) => Some(k),
        None => match egui_lookup(name) {
            Some(k) => Some(k),
            None => if name.len() == 1 && is_digit(name[0]) {
                egui_lookup("Num"@ + name)
            } else {
                None
            },
        },
    }
}

/// The fragments whose presence in a key's identifier makes it a modifier.
pub open spec fn modifier_words() -> Seq<Seq<char>> {
    seq!["Control"@, "Shift"@, "Alt"@, "Meta"@, "Super"@, "Command"@, "Option"@]
}

/// Whether a key identifier names a modifier key.
pub open spec fn is_modifier_name(k: Seq<char>) -> bool {
    exists|i: int| 0 <= i < modifier_words().len() && contains(k, #[trigger] modifier_words()[i])
}

impl Key {
    /// The key with egui identifier `name`.
    pub fn new(name: &str) -> (r: Key)
        ensures
            r@ == name@,
    {
        Key { name: owned(name) }
    }

    /// The key's egui identifier.
    pub fn ident(&self) -> (r: &str)
        ensures
            r@ == self@,
    {
        self.name.as_str()
    }

    /// The key egui's own name lookup finds for `name`.
    pub fn from_name(name: &str) -> (r: Option<Key>)
        ensures
            match r {
                Some(k) => egui_lookup(name@) == Some(k@),
                None => egui_lookup(name@) is None,
            },
    {
        match egui_key_from_name(name) {
            Some(s) => Some(Key { name: s }),
            None => None,
        }
    }
}

/// The label a key is printed with.
pub fn key_name(key: &Key) -> (r: String)
    ensures
        r@ == key_label(key@),
{
    let k = key.ident();
    if str_eq(k, "ArrowLeft") {
        owned("Left")
    } else if str_eq(k, "ArrowRight") {
        owned("Right")
    } else if str_eq(k, "ArrowUp") {
        owned("Up")
    } else if str_eq(k, "ArrowDown") {
        owned("Down")
    } else if str_eq(k, "Enter") {
        owned("Enter")
    } else if str_eq(k, "Escape") {
        owned("Esc")
    } else if str_eq(k, "PageUp") {
        owned("PgUp")
    } else if str_eq(k, "PageDown") {
        owned("PgDn")
    } else {
        let cs = chars_of(k);
        let num = lit("Num");
        proof {
            reveal_strlit("Num");
        }
        if starts_with_chars(&cs, &num) {
            let mut rest: Vec<char> = Vec::new();
            let mut i: usize = 3;
            while i < cs.len()
                invariant
                    3 <= i <= cs.len(),
                    rest@ == cs@.subrange(3, i as int),
                decreases cs.len() - i,
            {
                rest.push(cs[i]);
                i = i + 1;
            }
            assert(rest@ =~= cs@.skip(3));
            string_of(&rest)
        } else {
            owned(k)
        }
    }
}

/// Whether a key is a modifier, and so cannot be a binding by itself.
///
/// The modifier arrives as its own key press before the one it modifies, so a
/// capture that takes the first press it sees would bind Ctrl+Ctrl. Names are
/// matched rather than listed because they vary by side: `ControlLeft`,
/// `SuperRight`, and so on.
pub fn is_modifier_key(key: &Key) -> (r: bool)
    ensures
        r == is_modifier_name(key@),
{
    let k = chars_of(key.ident());
    let words: [&str; 7] = ["Control", "Shift", "Alt", "Meta", "Super", "Command", "Option"];
    let mut i: usize = 0;
    while i < 7
        invariant
            i <= 7,
            k@ == key@,
            forall|j: int| 0 <= j < 7 ==> (#[trigger] words@[j])@ == modifier_words()[j],
            forall|j: int| 0 <= j < i ==> !contains(k@, #[trigger] modifier_words()[j]),
        decreases 7 - i,
    {
        let w = lit(words[i]);
        if contains_chars(&k, &w) {
            return true;
        }
        i = i + 1;
    }
    false
}

/// The key a typed name means.
pub fn parse_key(name: &[char]) -> (r: Option<Key>)
    ensures
        match r {
            Some(k) => parse_key_spec(name@) == Some(k@),
            None => parse_key_spec(name@) is None,
        },
{
    let l = to_lower(name);
    let named: Option<&str> = if chars_eq(&l, &lit("left")) {
        Some("ArrowLeft")
    } else if chars_eq(&l, &lit("right")) {
        Some("ArrowRight")
    } else if chars_eq(&l, &lit("up")) {
        Some("ArrowUp")
    } else if chars_eq(&l, &lit("down")) {
        Some("ArrowDown")
    } else if chars_eq(&l, &lit("enter")) || chars_eq(&l, &lit("return")) {
        Some("Enter")
    } else if chars_eq(&l, &lit("esc")) || chars_eq(&l, &lit("escape")) {
        Some("Escape")
    } else if chars_eq(&l, &lit("pgup")) || chars_eq(&l, &lit("pageup")) {
        Some("PageUp")
    } else if chars_eq(&l, &lit("pgdn")) || chars_eq(&l, &lit("pagedown")) {
        Some("PageDown")
    } else if chars_eq(&l, &lit("space")) {
        Some("Space")
    } else if chars_eq(&l, &lit("tab")) {
        Some("Tab")
    } else {
        None
    };
    match named {
        Some(k) => Some(Key::new(k)),
        None => {
            let text = string_of(name);
            match Key::from_name(text.as_str()) {
                Some(k) => Some(k),
                None => {
                    if name.len() == 1 && '0' <= name[0] && name[0] <= '9' {
                        let numbered = cat("Num", text.as_str());
                        Key::from_name(numbered.as_str())
                    } else {
                        None
                    }
                },
            }
        },
    }
}


/// One key with its modifiers.
#[derive(Debug, PartialEq, Eq)]
pub struct Binding {
    pub mods: Modifiers,
    pub key: Key,
}

impl View for Binding {
    type V = (Modifiers, Seq<char>);

    open spec fn view(&self) -> (Modifiers, Seq<char>) {
        (self.mods, self.key@)
    }
}

impl Clone for Binding {
    fn clone(&self) -> (r: Binding)
        ensures
            r@ == self@,
    {
        Binding { mods: self.mods, key: self.key.clone() }
    }
}

/// The canonical form of a binding: a held Ctrl counts as the command key,
/// and the raw Ctrl and Mac-Cmd flags are dropped.
pub open spec fn normalize(b: (Modifiers, Seq<char>)) -> (Modifiers, Seq<char>) {
    (
        Modifiers {
            alt: b.0.alt,
            shift: b.0.shift,
            ctrl: false,
            mac_cmd: false,
            command: b.0.command || b.0.ctrl,
        },
        b.1,
    )
}

/// The words a binding is written as, in order: command, raw Ctrl, Alt,
/// Shift, then the key. `mac` picks the macOS names for the command and Alt
/// keys.
pub open spec fn display_parts(b: (Modifiers, Seq<char>), mac: bool) -> Seq<Seq<char>> {
    let p0: Seq<Seq<char>> = if b.0.command {
        seq![if mac { "Cmd"@ } else { "Ctrl"@ }]
    } else {
        Seq::empty()
    };
    let p1: Seq<Seq<char>> = if b.0.ctrl && !b.0.command {
        p0.push("Ctrl"@)
    } else {
        p0
    };
    let p2: Seq<Seq<char>> = if b.0.alt {
        p1.push(if mac { "Option"@ } else { "Alt"@ })
    } else {
        p1
    };
    let p3: Seq<Seq<char>> = if b.0.shift {
        p2.push("Shift"@)
    } else {
        p2
    };
    p3.push(key_label(b.1))
}

/// The text a binding is shown as, such as `Ctrl+Shift+O`.
pub open spec fn display_binding(b: (Modifiers, Seq<char>), mac: bool) -> Seq<char> {
    join(display_parts(b, mac), "+"@)
}

/// What one `+`-separated piece of a typed binding does to the binding read
/// so far: a blank piece is skipped, a modifier word sets its modifier, and
/// anything else is read as the key, replacing any key read before it.
pub open spec fn parse_step(st: (Modifiers, Option<Seq<char>>), piece: Seq<char>) -> (
    Modifiers,
    Option<Seq<char>>,
) {
    let p = trim(piece);
    let l = lower(p);
    if p.len() == 0 {
        st
    } else if l == "ctrl"@ || l == "cmd"@ || l == "command"@ || l == "control"@ {
        (Modifiers { command: true, ..st.0 }, st.1)
    } else if l == "alt"@ || l == "option"@ {
        (Modifiers { alt: true, ..st.0 }, st.1)
    } else if l == "shift"@ {
        (Modifiers { shift: true, ..st.0 }, st.1)
    } else {
        (st.0, parse_key_spec(p))
    }
}

/// The pieces read in order, from no modifiers and no key.
pub open spec fn parse_fold(pieces: Seq<Seq<char>>) -> (Modifiers, Option<Seq<char>>)
    decreases pieces.len(),
{
    if pieces.len() == 0 {
        (no_mods(), None)
    } else {
        parse_step(parse_fold(pieces.drop_last()), pieces.last())
    }
}

/// The binding a typed text describes, in canonical form, or `None` when it
/// names no key.
pub open spec fn parse_binding(text: Seq<char>) -> Option<(Modifiers, Seq<char>)> {
    match parse_fold(split(text, '+')) {
        (m, Some(k)) => Some(normalize((m, k))),
        (_, None) => None,
    }
}

impl Binding {
    /// The canonical form of this binding.
    ///
    /// A key press reports the raw state -- on Linux a real Ctrl press sets
    /// both `ctrl` and `command` -- while defaults are written with the
    /// command key alone; comparing the two directly would call them
    /// different.
    pub fn normalized(&self) -> (r: Binding)
        ensures
            r@ == normalize(self@),
    {
        Binding {
            mods: Modifiers {
                alt: self.mods.alt,
                shift: self.mods.shift,
                ctrl: false,
                mac_cmd: false,
                command: self.mods.command || self.mods.ctrl,
            },
            key: self.key.clone(),
        }
    }

    /// Whether two bindings are the same modifiers on the same key.
    pub fn same(&self, other: &Binding) -> (r: bool)
        ensures
            r == (self@ == other@),
    {
        self.mods == other.mods && str_eq(self.key.ident(), other.key.ident())
    }

    /// The binding as it is shown, such as `Ctrl+O`; `mac` selects the
    /// macOS names (`Cmd`, `Option`).
    pub fn display(&self, mac: bool) -> (r: String)
        ensures
            r@ == display_binding(self@, mac),
    {
        let mut parts: Vec<Vec<char>> = Vec::new();
        if self.mods.command {
            parts.push(if mac { lit("Cmd") } else { lit("Ctrl") });
        }
        if self.mods.ctrl && !self.mods.command {
            parts.push(lit("Ctrl"));
        }
        if self.mods.alt {
            parts.push(if mac { lit("Option") } else { lit("Alt") });
        }
        if self.mods.shift {
            parts.push(lit("Shift"));
        }
        let name = key_name(&self.key);
        parts.push(chars_of(name.as_str()));
        assert(parts@.map_values(|v: Vec<char>| v@) =~= display_parts(self@, mac));
        let joined = join_chars(&parts, &lit("+"));
        string_of(&joined)
    }

    /// Read a binding in the form [`Binding::display`] writes.
    pub fn parse(text: &str) -> (r: Option<Binding>)
        ensures
            match r {
                Some(b) => parse_binding(text@) == Some(b@),
                None => parse_binding(text@) is None,
            },
    {
        let cs = chars_of(text);
        let pieces = split_chars(&cs, '+');
        let ghost ps = split(text@, '+');
        let mut mods = Modifiers::none();
        let mut key: Option<Key> = None;
        let mut i: usize = 0;
        while i < pieces.len()
            invariant
                cs@ == text@,
                ps == split(text@, '+'),
                pieces@.len() == ps.len(),
                forall|j: int| 0 <= j < pieces@.len() ==> (#[trigger] pieces@[j])@ == ps[j],
                i <= pieces.len(),
                parse_fold(ps.take(i as int)).0 == mods,
                match key {
                    Some(k) => parse_fold(ps.take(i as int)).1 == Some(k@),
                    None => parse_fold(ps.take(i as int)).1 is None,
                },
            decreases pieces.len() - i,
        {
            let p = trim_chars(&pieces[i]);
            let l = to_lower(&p);
            proof {
                assert(ps.take(i + 1).drop_last() =~= ps.take(i as int));
                assert(ps.take(i + 1).last() == ps[i as int]);
            }
            if p.len() == 0 {
            } else if chars_eq(&l, &lit("ctrl")) || chars_eq(&l, &lit("cmd")) || chars_eq(
                &l,
                &lit("command"),
            ) || chars_eq(&l, &lit("control")) {
                mods.command = true;
            } else if chars_eq(&l, &lit("alt")) || chars_eq(&l, &lit("option")) {
                mods.alt = true;
            } else if chars_eq(&l, &lit("shift")) {
                mods.shift = true;
            } else {
                key = parse_key(&p);
            }
            i = i + 1;
        }
        assert(ps.take(pieces.len() as int) =~= ps);
        match key {
            Some(k) => {
                let b = Binding { mods, key: k };
                Some(b.normalized())
            },
            None => None,
        }
    }
}


/// Whether a key's printed label reads back as the same key: egui (or the
/// tool's own spellings) must map the label to the key, and the label must
/// not be mistaken for a separator or a modifier word.
pub open spec fn key_round_trips(k: Seq<char>) -> bool {
    let t = key_label(k);
    let l = lower(t);
    &&& parse_key_spec(t) == Some(k)
    &&& t.len() > 0
    &&& trim(t) == t
    &&& !t.contains('+')
    &&& l != "ctrl"@ && l != "cmd"@ && l != "command"@ && l != "control"@
    &&& l != "alt"@ && l != "option"@ && l != "shift"@
}

proof fn lemma_fold_push(ps: Seq<Seq<char>>, w: Seq<char>)
    ensures
        parse_fold(ps.push(w)) == parse_step(parse_fold(ps), w),
{
    assert(ps.push(w).drop_last() =~= ps);
}

/// The modifier words a binding is written with read back as themselves.
proof fn lemma_modifier_words()
    ensures
        trim("Cmd"@) == "Cmd"@ && lower("Cmd"@) == "cmd"@ && !"Cmd"@.contains('+'),
        trim("Ctrl"@) == "Ctrl"@ && lower("Ctrl"@) == "ctrl"@ && !"Ctrl"@.contains('+'),
        trim("Option"@) == "Option"@ && lower("Option"@) == "option"@ && !"Option"@.contains(
            '+',
        ),
        trim("Alt"@) == "Alt"@ && lower("Alt"@) == "alt"@ && !"Alt"@.contains('+'),
        trim("Shift"@) == "Shift"@ && lower("Shift"@) == "shift"@ && !"Shift"@.contains('+'),
        "Cmd"@.len() > 0 && "Ctrl"@.len() > 0 && "Option"@.len() > 0 && "Alt"@.len() > 0
            && "Shift"@.len() > 0,
{
    reveal_strlit("Cmd");
    reveal_strlit("cmd");
    reveal_strlit("Ctrl");
    reveal_strlit("ctrl");
    reveal_strlit("Option");
    reveal_strlit("option");
    reveal_strlit("Alt");
    reveal_strlit("alt");
    reveal_strlit("Shift");
    reveal_strlit("shift");
    assert(lower("Cmd"@) =~= "cmd"@);
    assert(lower("Ctrl"@) =~= "ctrl"@);
    assert(lower("Option"@) =~= "option"@);
    assert(lower("Alt"@) =~= "alt"@);
    assert(lower("Shift"@) =~= "shift"@);
    let ws = seq!["Cmd"@, "Ctrl"@, "Option"@, "Alt"@, "Shift"@];
    assert forall|i: int| 0 <= i < ws.len() implies trim(#[trigger] ws[i]) == ws[i] && !ws[i].contains('+') by {
        let w = ws[i];
        assert(!crate::text::is_ws(w[0]));
        assert(!crate::text::is_ws(w.last()));
        assert(crate::text::trim_start(w) == w);
        assert(crate::text::trim_end(w) == w);
    }
    assert(ws[0] == "Cmd"@);
    assert(ws[1] == "Ctrl"@);
    assert(ws[2] == "Option"@);
    assert(ws[3] == "Alt"@);
    assert(ws[4] == "Shift"@);
}

/// A binding read back from the text it is shown as is the binding itself,
/// in canonical form -- on either platform's names -- whenever its key's
/// label reads back as the key.
pub proof fn lemma_binding_round_trip(b: (Modifiers, Seq<char>), mac: bool)
    requires
        key_round_trips(b.1),
    ensures
        parse_binding(display_binding(b, mac)) == Some(normalize(b)),
{
    lemma_modifier_words();
    reveal_strlit("ctrl");
    reveal_strlit("cmd");
    reveal_strlit("command");
    reveal_strlit("control");
    reveal_strlit("alt");
    reveal_strlit("option");
    reveal_strlit("shift");
    let parts = display_parts(b, mac);
    assert forall|i: int| 0 <= i < parts.len() implies !(#[trigger] parts[i]).contains('+') by {}
    lemma_split_join(parts, '+');
    reveal_strlit("+");
    assert("+"@ =~= seq!['+']);
    let cw = if mac { "Cmd"@ } else { "Ctrl"@ };
    let aw = if mac { "Option"@ } else { "Alt"@ };
    let e: Seq<Seq<char>> = Seq::empty();
    let p0: Seq<Seq<char>> = if b.0.command { e.push(cw) } else { e };
    assert(b.0.command ==> seq![cw] =~= e.push(cw));
    let p1: Seq<Seq<char>> = if b.0.ctrl && !b.0.command { p0.push("Ctrl"@) } else { p0 };
    let p2: Seq<Seq<char>> = if b.0.alt { p1.push(aw) } else { p1 };
    let p3: Seq<Seq<char>> = if b.0.shift { p2.push("Shift"@) } else { p2 };
    assert(parts =~= p3.push(key_label(b.1)));
    let m0 = no_mods();
    lemma_fold_push(e, cw);
    let s0 = parse_fold(p0);
    assert(s0.1 is None);
    assert(s0.0 == Modifiers { command: b.0.command, ..m0 });
    lemma_fold_push(p0, "Ctrl"@);
    let s1 = parse_fold(p1);
    assert(s1.1 is None);
    assert(s1.0 == Modifiers { command: b.0.command || b.0.ctrl, ..m0 });
    lemma_fold_push(p1, aw);
    let cs = seq!["ctrl"@, "cmd"@, "command"@, "control"@];
    assert forall|i: int| 0 <= i < cs.len() implies (#[trigger] cs[i])[0] == 'c' && cs[i]
        != "alt"@ && cs[i] != "option"@ && cs[i] != "shift"@ by {
        assert("alt"@[0] != cs[i][0]);
        assert("option"@[0] != cs[i][0]);
        assert("shift"@[0] != cs[i][0]);
    }
    assert(cs[0] == "ctrl"@ && cs[1] == "cmd"@ && cs[2] == "command"@ && cs[3] == "control"@);
    assert("shift"@ != "alt"@) by {
        assert("shift"@[0] != "alt"@[0]);
    }
    assert("shift"@ != "option"@) by {
        assert("shift"@[0] != "option"@[0]);
    }
    let s2 = parse_fold(p2);
    assert(s2.1 is None);
    assert(s2.0 == Modifiers { command: b.0.command || b.0.ctrl, alt: b.0.alt, ..m0 });
    lemma_fold_push(p2, "Shift"@);
    let s3 = parse_fold(p3);
    assert(s3.1 is None);
    assert(s3.0 == Modifiers {
        command: b.0.command || b.0.ctrl,
        alt: b.0.alt,
        shift: b.0.shift,
        ..m0
    });
    lemma_fold_push(p3, key_label(b.1));
    let s4 = parse_fold(parts);
    assert(s4 == (s3.0, Some(b.1)));
}


/// Everything that can be bound to a key.
#[derive(Debug, Clone, Copy, PartialEq, Eq, PartialOrd, Ord, Structural)]
pub enum Command {
    Open,
    Reload,
    SaveProject,
    CloseTab,
    Goto,
    Palette,
    Back,
    Forward,
    Dismiss,
    ToggleNavigator,
    ToggleInspector,
    SelectDown,
    SelectUp,
    PageDown,
    PageUp,
    Follow,
    Rename,
    Bookmark,
}

/// How many commands there are.
pub const COMMAND_COUNT: usize = 18;

/// A command's position in the list of every command.
pub open spec fn command_index(c: Command) -> int {
    match c {
        Command::Open => 0,
        Command::Reload => 1,
        Command::SaveProject => 2,
        Command::CloseTab => 3,
        Command::Goto => 4,
        Command::Palette => 5,
        Command::Back => 6,
        Command::Forward => 7,
        Command::Dismiss => 8,
        Command::ToggleNavigator => 9,
        Command::ToggleInspector => 10,
        Command::SelectDown => 11,
        Command::SelectUp => 12,
        Command::PageDown => 13,
        Command::PageUp => 14,
        Command::Follow => 15,
        Command::Rename => 16,
        Command::Bookmark => 17,
    }
}

/// The command at a position in the list of every command.
pub open spec fn command_at(i: int) -> Command {
    if i == 0 {
        Command::Open
    } else if i == 1 {
        Command::Reload
    } else if i == 2 {
        Command::SaveProject
    } else if i == 3 {
        Command::CloseTab
    } else if i == 4 {
        Command::Goto
    } else if i == 5 {
        Command::Palette
    } else if i == 6 {
        Command::Back
    } else if i == 7 {
        Command::Forward
    } else if i == 8 {
        Command::Dismiss
    } else if i == 9 {
        Command::ToggleNavigator
    } else if i == 10 {
        Command::ToggleInspector
    } else if i == 11 {
        Command::SelectDown
    } else if i == 12 {
        Command::SelectUp
    } else if i == 13 {
        Command::PageDown
    } else if i == 14 {
        Command::PageUp
    } else if i == 15 {
        Command::Follow
    } else if i == 16 {
        Command::Rename
    } else {
        Command::Bookmark
    }
}

/// The name a command has in the settings file, which must stay stable.
pub open spec fn command_id(c: Command) -> Seq<char> {
    match c {
        Command::Open => "open"@,
        Command::Reload => "reload"@,
        Command::SaveProject => "save-project"@,
        Command::CloseTab => "close-tab"@,
        Command::Goto => "goto"@,
        Command::Palette => "palette"@,
        Command::Back => "back"@,
        Command::Forward => "forward"@,
        Command::Dismiss => "dismiss"@,
        Command::ToggleNavigator => "toggle-navigator"@,
        Command::ToggleInspector => "toggle-inspector"@,
        Command::SelectDown => "select-down"@,
        Command::SelectUp => "select-up"@,
        Command::PageDown => "page-down"@,
        Command::PageUp => "page-up"@,
        Command::Follow => "follow"@,
        Command::Rename => "rename"@,
        Command::Bookmark => "bookmark"@,
    }
}

/// The text a command is described with.
pub open spec fn command_label(c: Command) -> Seq<char> {
    match c {
        Command::Open => "Open a file"@,
        Command::Reload => "Reload this file"@,
        Command::SaveProject => "Save the project"@,
        Command::CloseTab => "Close this tab"@,
        Command::Goto => "Go to an address"@,
        Command::Palette => "Go to anything"@,
        Command::Back => "Back"@,
        Command::Forward => "Forward"@,
        Command::Dismiss => "Close what is open"@,
        Command::ToggleNavigator => "Show or hide the navigator"@,
        Command::ToggleInspector => "Show or hide the inspector"@,
        Command::SelectDown => "Next line"@,
        Command::SelectUp => "Previous line"@,
        Command::PageDown => "Down a page"@,
        Command::PageUp => "Up a page"@,
        Command::Follow => "Follow what this line points at"@,
        Command::Rename => "Name this function"@,
        Command::Bookmark => "Bookmark this line"@,
    }
}

/// When a command's binding is live.
pub open spec fn command_scope(c: Command) -> Scope {
    match c {
        Command::Open => Scope::Global,
        Command::Reload => Scope::Global,
        Command::SaveProject => Scope::Global,
        Command::CloseTab => Scope::Global,
        Command::Goto => Scope::Global,
        Command::Palette => Scope::Global,
        Command::Back => Scope::Global,
        Command::Forward => Scope::Global,
        Command::Dismiss => Scope::Global,
        Command::ToggleNavigator => Scope::Global,
        Command::ToggleInspector => Scope::Global,
        Command::SelectDown => Scope::Listing,
        Command::SelectUp => Scope::Listing,
        Command::PageDown => Scope::Listing,
        Command::PageUp => Scope::Listing,
        Command::Follow => Scope::Listing,
        Command::Rename => Scope::Selection,
        Command::Bookmark => Scope::Selection,
    }
}

/// The key a command is bound to until the user changes it.
pub open spec fn default_binding_spec(c: Command) -> (Modifiers, Seq<char>) {
    match c {
        Command::Open => (Modifiers { command: true, ..no_mods() }, "O"@),
        Command::Reload => (Modifiers { command: true, ..no_mods() }, "R"@),
        Command::SaveProject => (Modifiers { command: true, ..no_mods() }, "S"@),
        Command::CloseTab => (Modifiers { command: true, ..no_mods() }, "W"@),
        Command::Goto => (Modifiers { command: true, ..no_mods() }, "G"@),
        Command::Palette => (Modifiers { command: true, ..no_mods() }, "P"@),
        Command::Back => (Modifiers { alt: true, ..no_mods() }, "ArrowLeft"@),
        Command::Forward => (Modifiers { alt: true, ..no_mods() }, "ArrowRight"@),
        Command::Dismiss => (no_mods(), "Escape"@),
        Command::ToggleNavigator => (Modifiers { command: true, ..no_mods() }, "Num1"@),
        Command::ToggleInspector => (Modifiers { command: true, ..no_mods() }, "Num2"@),
        Command::SelectDown => (no_mods(), "ArrowDown"@),
        Command::SelectUp => (no_mods(), "ArrowUp"@),
        Command::PageDown => (no_mods(), "PageDown"@),
        Command::PageUp => (no_mods(), "PageUp"@),
        Command::Follow => (no_mods(), "Enter"@),
        Command::Rename => (no_mods(), "N"@),
        Command::Bookmark => (no_mods(), "B"@),
    }
}

/// The command a settings-file name stands for.
pub open spec fn command_of_id(id: Seq<char>) -> Option<Command> {
    if id == "open"@ {
        Some(Command::Open)
    } else if id == "reload"@ {
        Some(Command::Reload)
    } else if id == "save-project"@ {
        Some(Command::SaveProject)
    } else if id == "close-tab"@ {
        Some(Command::CloseTab)
    } else if id == "goto"@ {
        Some(Command::Goto)
    } else if id == "palette"@ {
        Some(Command::Palette)
    } else if id == "back"@ {
        Some(Command::Back)
    } else if id == "forward"@ {
        Some(Command::Forward)
    } else if id == "dismiss"@ {
        Some(Command::Dismiss)
    } else if id == "toggle-navigator"@ {
        Some(Command::ToggleNavigator)
    } else if id == "toggle-inspector"@ {
        Some(Command::ToggleInspector)
    } else if id == "select-down"@ {
        Some(Command::SelectDown)
    } else if id == "select-up"@ {
        Some(Command::SelectUp)
    } else if id == "page-down"@ {
        Some(Command::PageDown)
    } else if id == "page-up"@ {
        Some(Command::PageUp)
    } else if id == "follow"@ {
        Some(Command::Follow)
    } else if id == "rename"@ {
        Some(Command::Rename)
    } else if id == "bookmark"@ {
        Some(Command::Bookmark)
    } else {
        None
    }
}

impl Command {
    /// Every command, in order.
    pub fn all() -> (r: Vec<Command>)
        ensures
            r@.len() == COMMAND_COUNT,
            forall|i: int| 0 <= i < COMMAND_COUNT ==> #[trigger] r@[i] == command_at(i),
    {
        let mut v: Vec<Command> = Vec::new();
        v.push(Command::Open);
        v.push(Command::Reload);
        v.push(Command::SaveProject);
        v.push(Command::CloseTab);
        v.push(Command::Goto);
        v.push(Command::Palette);
        v.push(Command::Back);
        v.push(Command::Forward);
        v.push(Command::Dismiss);
        v.push(Command::ToggleNavigator);
        v.push(Command::ToggleInspector);
        v.push(Command::SelectDown);
        v.push(Command::SelectUp);
        v.push(Command::PageDown);
        v.push(Command::PageUp);
        v.push(Command::Follow);
        v.push(Command::Rename);
        v.push(Command::Bookmark);
        v
    }

    /// This command's position in the list of every command.
    pub fn index(self) -> (r: usize)
        ensures
            r == command_index(self),
    {
        match self {
            Command::Open => 0,
            Command::Reload => 1,
            Command::SaveProject => 2,
            Command::CloseTab => 3,
            Command::Goto => 4,
            Command::Palette => 5,
            Command::Back => 6,
            Command::Forward => 7,
            Command::Dismiss => 8,
            Command::ToggleNavigator => 9,
            Command::ToggleInspector => 10,
            Command::SelectDown => 11,
            Command::SelectUp => 12,
            Command::PageDown => 13,
            Command::PageUp => 14,
            Command::Follow => 15,
            Command::Rename => 16,
            Command::Bookmark => 17,
        }
    }

    /// The name used in the settings file, which must stay stable.
    pub fn id(self) -> (r: &'static str)
        ensures
            r@ == command_id(self),
    {
        match self {
            Command::Open => "open",
            Command::Reload => "reload",
            Command::SaveProject => "save-project",
            Command::CloseTab => "close-tab",
            Command::Goto => "goto",
            Command::Palette => "palette",
            Command::Back => "back",
            Command::Forward => "forward",
            Command::Dismiss => "dismiss",
            Command::ToggleNavigator => "toggle-navigator",
            Command::ToggleInspector => "toggle-inspector",
            Command::SelectDown => "select-down",
            Command::SelectUp => "select-up",
            Command::PageDown => "page-down",
            Command::PageUp => "page-up",
            Command::Follow => "follow",
            Command::Rename => "rename",
            Command::Bookmark => "bookmark",
        }
    }

    /// The text this command is described with.
    pub fn label(self) -> (r: &'static str)
        ensures
            r@ == command_label(self),
    {
        match self {
            Command::Open => "Open a file",
            Command::Reload => "Reload this file",
            Command::SaveProject => "Save the project",
            Command::CloseTab => "Close this tab",
            Command::Goto => "Go to an address",
            Command::Palette => "Go to anything",
            Command::Back => "Back",
            Command::Forward => "Forward",
            Command::Dismiss => "Close what is open",
            Command::ToggleNavigator => "Show or hide the navigator",
            Command::ToggleInspector => "Show or hide the inspector",
            Command::SelectDown => "Next line",
            Command::SelectUp => "Previous line",
            Command::PageDown => "Down a page",
            Command::PageUp => "Up a page",
            Command::Follow => "Follow what this line points at",
            Command::Rename => "Name this function",
            Command::Bookmark => "Bookmark this line",
        }
    }

    /// When this command's binding is live.
    pub fn scope(self) -> (r: Scope)
        ensures
            r == command_scope(self),
    {
        match self {
            Command::Open => Scope::Global,
            Command::Reload => Scope::Global,
            Command::SaveProject => Scope::Global,
            Command::CloseTab => Scope::Global,
            Command::Goto => Scope::Global,
            Command::Palette => Scope::Global,
            Command::Back => Scope::Global,
            Command::Forward => Scope::Global,
            Command::Dismiss => Scope::Global,
            Command::ToggleNavigator => Scope::Global,
            Command::ToggleInspector => Scope::Global,
            Command::SelectDown => Scope::Listing,
            Command::SelectUp => Scope::Listing,
            Command::PageDown => Scope::Listing,
            Command::PageUp => Scope::Listing,
            Command::Follow => Scope::Listing,
            Command::Rename => Scope::Selection,
            Command::Bookmark => Scope::Selection,
        }
    }

    /// The key this command is bound to until the user changes it.
    pub fn default_binding(self) -> (r: Binding)
        ensures
            r@ == default_binding_spec(self),
    {
        match self {
            Command::Open => Binding { mods: Modifiers::command_key(), key: Key::new("O") },
            Command::Reload => Binding { mods: Modifiers::command_key(), key: Key::new("R") },
            Command::SaveProject => Binding { mods: Modifiers::command_key(), key: Key::new("S") },
            Command::CloseTab => Binding { mods: Modifiers::command_key(), key: Key::new("W") },
            Command::Goto => Binding { mods: Modifiers::command_key(), key: Key::new("G") },
            Command::Palette => Binding { mods: Modifiers::command_key(), key: Key::new("P") },
            Command::Back => Binding { mods: Modifiers::alt_key(), key: Key::new("ArrowLeft") },
            Command::Forward => Binding { mods: Modifiers::alt_key(), key: Key::new("ArrowRight") },
            Command::Dismiss => Binding { mods: Modifiers::none(), key: Key::new("Escape") },
            Command::ToggleNavigator => Binding { mods: Modifiers::command_key(), key: Key::new("Num1") },
            Command::ToggleInspector => Binding { mods: Modifiers::command_key(), key: Key::new("Num2") },
            Command::SelectDown => Binding { mods: Modifiers::none(), key: Key::new("ArrowDown") },
            Command::SelectUp => Binding { mods: Modifiers::none(), key: Key::new("ArrowUp") },
            Command::PageDown => Binding { mods: Modifiers::none(), key: Key::new("PageDown") },
            Command::PageUp => Binding { mods: Modifiers::none(), key: Key::new("PageUp") },
            Command::Follow => Binding { mods: Modifiers::none(), key: Key::new("Enter") },
            Command::Rename => Binding { mods: Modifiers::none(), key: Key::new("N") },
            Command::Bookmark => Binding { mods: Modifiers::none(), key: Key::new("B") },
        }
    }

    /// The command at position `i` in the list of every command.
    pub fn from_index(i: usize) -> (r: Command)
        requires
            i < COMMAND_COUNT,
        ensures
            r == command_at(i as int),
    {
        if i == 0 {
            Command::Open
        } else if i == 1 {
            Command::Reload
        } else if i == 2 {
            Command::SaveProject
        } else if i == 3 {
            Command::CloseTab
        } else if i == 4 {
            Command::Goto
        } else if i == 5 {
            Command::Palette
        } else if i == 6 {
            Command::Back
        } else if i == 7 {
            Command::Forward
        } else if i == 8 {
            Command::Dismiss
        } else if i == 9 {
            Command::ToggleNavigator
        } else if i == 10 {
            Command::ToggleInspector
        } else if i == 11 {
            Command::SelectDown
        } else if i == 12 {
            Command::SelectUp
        } else if i == 13 {
            Command::PageDown
        } else if i == 14 {
            Command::PageUp
        } else if i == 15 {
            Command::Follow
        } else if i == 16 {
            Command::Rename
        } else {
            Command::Bookmark
        }
    }

    /// The command a settings-file name stands for.
    pub fn from_id(id: &str) -> (r: Option<Command>)
        ensures
            r == command_of_id(id@),
    {
        if str_eq(id, "open") {
            Some(Command::Open)
        } else if str_eq(id, "reload") {
            Some(Command::Reload)
        } else if str_eq(id, "save-project") {
            Some(Command::SaveProject)
        } else if str_eq(id, "close-tab") {
            Some(Command::CloseTab)
        } else if str_eq(id, "goto") {
            Some(Command::Goto)
        } else if str_eq(id, "palette") {
            Some(Command::Palette)
        } else if str_eq(id, "back") {
            Some(Command::Back)
        } else if str_eq(id, "forward") {
            Some(Command::Forward)
        } else if str_eq(id, "dismiss") {
            Some(Command::Dismiss)
        } else if str_eq(id, "toggle-navigator") {
            Some(Command::ToggleNavigator)
        } else if str_eq(id, "toggle-inspector") {
            Some(Command::ToggleInspector)
        } else if str_eq(id, "select-down") {
            Some(Command::SelectDown)
        } else if str_eq(id, "select-up") {
            Some(Command::SelectUp)
        } else if str_eq(id, "page-down") {
            Some(Command::PageDown)
        } else if str_eq(id, "page-up") {
            Some(Command::PageUp)
        } else if str_eq(id, "follow") {
            Some(Command::Follow)
        } else if str_eq(id, "rename") {
            Some(Command::Rename)
        } else if str_eq(id, "bookmark") {
            Some(Command::Bookmark)
        } else {
            None
        }
    }
}

/// Positions and commands correspond one to one.
pub proof fn lemma_command_index(c: Command)
    ensures
        0 <= command_index(c) < COMMAND_COUNT,
        command_at(command_index(c)) == c,
{
}

/// Positions and commands correspond one to one.
pub proof fn lemma_command_at(i: int)
    requires
        0 <= i < COMMAND_COUNT,
    ensures
        command_index(command_at(i)) == i,
{
}

/// Every command has its own settings-file name, and the name maps back to
/// the command.
pub proof fn lemma_id_round_trip(c: Command)
    ensures
        command_of_id(command_id(c)) == Some(c),
{
    reveal_strlit("open");
    reveal_strlit("reload");
    reveal_strlit("save-project");
    reveal_strlit("close-tab");
    reveal_strlit("goto");
    reveal_strlit("palette");
    reveal_strlit("back");
    reveal_strlit("forward");
    reveal_strlit("dismiss");
    reveal_strlit("toggle-navigator");
    reveal_strlit("toggle-inspector");
    reveal_strlit("select-down");
    reveal_strlit("select-up");
    reveal_strlit("page-down");
    reveal_strlit("page-up");
    reveal_strlit("follow");
    reveal_strlit("rename");
    reveal_strlit("bookmark");
    assert("open"@.len() != "reload"@.len());
    assert("open"@.len() != "save-project"@.len());
    assert("open"@.len() != "close-tab"@.len());
    assert("open"@[0] != "goto"@[0]);
    assert("open"@.len() != "palette"@.len());
    assert("open"@[0] != "back"@[0]);
    assert("open"@.len() != "forward"@.len());
    assert("open"@.len() != "dismiss"@.len());
    assert("open"@.len() != "toggle-navigator"@.len());
    assert("open"@.len() != "toggle-inspector"@.len());
    assert("open"@.len() != "select-down"@.len());
    assert("open"@.len() != "select-up"@.len());
    assert("open"@.len() != "page-down"@.len());
    assert("open"@.len() != "page-up"@.len());
    assert("open"@.len() != "follow"@.len());
    assert("open"@.len() != "rename"@.len());
    assert("open"@.len() != "bookmark"@.len());
    assert("reload"@.len() != "save-project"@.len());
    assert("reload"@.len() != "close-tab"@.len());
    assert("reload"@.len() != "goto"@.len());
    assert("reload"@.len() != "palette"@.len());
    assert("reload"@.len() != "back"@.len());
    assert("reload"@.len() != "forward"@.len());
    assert("reload"@.len() != "dismiss"@.len());
    assert("reload"@.len() != "toggle-navigator"@.len());
    assert("reload"@.len() != "toggle-inspector"@.len());
    assert("reload"@.len() != "select-down"@.len());
    assert("reload"@.len() != "select-up"@.len());
    assert("reload"@.len() != "page-down"@.len());
    assert("reload"@.len() != "page-up"@.len());
    assert("reload"@[0] != "follow"@[0]);
    assert("reload"@[2] != "rename"@[2]);
    assert("reload"@.len() != "bookmark"@.len());
    assert("save-project"@.len() != "close-tab"@.len());
    assert("save-project"@.len() != "goto"@.len());
    assert("save-project"@.len() != "palette"@.len());
    assert("save-project"@.len() != "back"@.len());
    assert("save-project"@.len() != "forward"@.len());
    assert("save-project"@.len() != "dismiss"@.len());
    assert("save-project"@.len() != "toggle-navigator"@.len());
    assert("save-project"@.len() != "toggle-inspector"@.len());
    assert("save-project"@.len() != "select-down"@.len());
    assert("save-project"@.len() != "select-up"@.len());
    assert("save-project"@.len() != "page-down"@.len());
    assert("save-project"@.len() != "page-up"@.len());
    assert("save-project"@.len() != "follow"@.len());
    assert("save-project"@.len() != "rename"@.len());
    assert("save-project"@.len() != "bookmark"@.len());
    assert("close-tab"@.len() != "goto"@.len());
    assert("close-tab"@.len() != "palette"@.len());
    assert("close-tab"@.len() != "back"@.len());
    assert("close-tab"@.len() != "forward"@.len());
    assert("close-tab"@.len() != "dismiss"@.len());
    assert("close-tab"@.len() != "toggle-navigator"@.len());
    assert("close-tab"@.len() != "toggle-inspector"@.len());
    assert("close-tab"@.len() != "select-down"@.len());
    assert("close-tab"@[0] != "select-up"@[0]);
    assert("close-tab"@[0] != "page-down"@[0]);
    assert("close-tab"@.len() != "page-up"@.len());
    assert("close-tab"@.len() != "follow"@.len());
    assert("close-tab"@.len() != "rename"@.len());
    assert("close-tab"@.len() != "bookmark"@.len());
    assert("goto"@.len() != "palette"@.len());
    assert("goto"@[0] != "back"@[0]);
    assert("goto"@.len() != "forward"@.len());
    assert("goto"@.len() != "dismiss"@.len());
    assert("goto"@.len() != "toggle-navigator"@.len());
    assert("goto"@.len() != "toggle-inspector"@.len());
    assert("goto"@.len() != "select-down"@.len());
    assert("goto"@.len() != "select-up"@.len());
    assert("goto"@.len() != "page-down"@.len());
    assert("goto"@.len() != "page-up"@.len());
    assert("goto"@.len() != "follow"@.len());
    assert("goto"@.len() != "rename"@.len());
    assert("goto"@.len() != "bookmark"@.len());
    assert("palette"@.len() != "back"@.len());
    assert("palette"@[0] != "forward"@[0]);
    assert("palette"@[0] != "dismiss"@[0]);
    assert("palette"@.len() != "toggle-navigator"@.len());
    assert("palette"@.len() != "toggle-inspector"@.len());
    assert("palette"@.len() != "select-down"@.len());
    assert("palette"@.len() != "select-up"@.len());
    assert("palette"@.len() != "page-down"@.len());
    assert("palette"@[2] != "page-up"@[2]);
    assert("palette"@.len() != "follow"@.len());
    assert("palette"@.len() != "rename"@.len());
    assert("palette"@.len() != "bookmark"@.len());
    assert("back"@.len() != "forward"@.len());
    assert("back"@.len() != "dismiss"@.len());
    assert("back"@.len() != "toggle-navigator"@.len());
    assert("back"@.len() != "toggle-inspector"@.len());
    assert("back"@.len() != "select-down"@.len());
    assert("back"@.len() != "select-up"@.len());
    assert("back"@.len() != "page-down"@.len());
    assert("back"@.len() != "page-up"@.len());
    assert("back"@.len() != "follow"@.len());
    assert("back"@.len() != "rename"@.len());
    assert("back"@.len() != "bookmark"@.len());
    assert("forward"@[0] != "dismiss"@[0]);
    assert("forward"@.len() != "toggle-navigator"@.len());
    assert("forward"@.len() != "toggle-inspector"@.len());
    assert("forward"@.len() != "select-down"@.len());
    assert("forward"@.len() != "select-up"@.len());
    assert("forward"@.len() != "page-down"@.len());
    assert("forward"@[0] != "page-up"@[0]);
    assert("forward"@.len() != "follow"@.len());
    assert("forward"@.len() != "rename"@.len());
    assert("forward"@.len() != "bookmark"@.len());
    assert("dismiss"@.len() != "toggle-navigator"@.len());
    assert("dismiss"@.len() != "toggle-inspector"@.len());
    assert("dismiss"@.len() != "select-down"@.len());
    assert("dismiss"@.len() != "select-up"@.len());
    assert("dismiss"@.len() != "page-down"@.len());
    assert("dismiss"@[0] != "page-up"@[0]);
    assert("dismiss"@.len() != "follow"@.len());
    assert("dismiss"@.len() != "rename"@.len());
    assert("dismiss"@.len() != "bookmark"@.len());
    assert("toggle-navigator"@[7] != "toggle-inspector"@[7]);
    assert("toggle-navigator"@.len() != "select-down"@.len());
    assert("toggle-navigator"@.len() != "select-up"@.len());
    assert("toggle-navigator"@.len() != "page-down"@.len());
    assert("toggle-navigator"@.len() != "page-up"@.len());
    assert("toggle-navigator"@.len() != "follow"@.len());
    assert("toggle-navigator"@.len() != "rename"@.len());
    assert("toggle-navigator"@.len() != "bookmark"@.len());
    assert("toggle-inspector"@.len() != "select-down"@.len());
    assert("toggle-inspector"@.len() != "select-up"@.len());
    assert("toggle-inspector"@.len() != "page-down"@.len());
    assert("toggle-inspector"@.len() != "page-up"@.len());
    assert("toggle-inspector"@.len() != "follow"@.len());
    assert("toggle-inspector"@.len() != "rename"@.len());
    assert("toggle-inspector"@.len() != "bookmark"@.len());
    assert("select-down"@.len() != "select-up"@.len());
    assert("select-down"@.len() != "page-down"@.len());
    assert("select-down"@.len() != "page-up"@.len());
    assert("select-down"@.len() != "follow"@.len());
    assert("select-down"@.len() != "rename"@.len());
    assert("select-down"@.len() != "bookmark"@.len());
    assert("select-up"@[0] != "page-down"@[0]);
    assert("select-up"@.len() != "page-up"@.len());
    assert("select-up"@.len() != "follow"@.len());
    assert("select-up"@.len() != "rename"@.len());
    assert("select-up"@.len() != "bookmark"@.len());
    assert("page-down"@.len() != "page-up"@.len());
    assert("page-down"@.len() != "follow"@.len());
    assert("page-down"@.len() != "rename"@.len());
    assert("page-down"@.len() != "bookmark"@.len());
    assert("page-up"@.len() != "follow"@.len());
    assert("page-up"@.len() != "rename"@.len());
    assert("page-up"@.len() != "bookmark"@.len());
    assert("follow"@[0] != "rename"@[0]);
    assert("follow"@.len() != "bookmark"@.len());
    assert("rename"@.len() != "bookmark"@.len());
}

/// Two commands share a settings-file name only if they are the same.
pub proof fn lemma_ids_distinct(a: Command, b: Command)
    ensures
        command_id(a) == command_id(b) ==> a == b,
{
    lemma_id_round_trip(a);
    lemma_id_round_trip(b);
}


/// The binding every command starts with.
pub open spec fn default_map() -> Seq<(Modifiers, Seq<char>)> {
    Seq::new(COMMAND_COUNT as nat, |i: int| default_binding_spec(command_at(i)))
}

/// The bindings written to the settings file: for each command in order whose
/// binding differs from its default, its id and its binding as shown.
pub open spec fn saved_upto(m: Seq<(Modifiers, Seq<char>)>, mac: bool, n: int) -> Seq<
    (Seq<char>, Seq<char>),
>
    decreases n,
{
    if n <= 0 {
        Seq::empty()
    } else {
        let prev = saved_upto(m, mac, n - 1);
        let c = command_at(n - 1);
        if m[n - 1] != default_binding_spec(c) {
            prev.push((command_id(c), display_binding(m[n - 1], mac)))
        } else {
            prev
        }
    }
}

/// What one settings-file entry does to a keymap: an entry naming a known
/// command and a readable binding rebinds that command; anything else -- a
/// command from a newer version, a binding this build cannot read -- is
/// skipped.
pub open spec fn load_step(m: Seq<(Modifiers, Seq<char>)>, e: (Seq<char>, Seq<char>)) -> Seq<
    (Modifiers, Seq<char>),
> {
    match (command_of_id(e.0), parse_binding(e.1)) {
        (Some(c), Some(b)) => m.update(command_index(c), b),
        _ => m,
    }
}

/// A keymap after the entries, in order.
pub open spec fn load_fold(m: Seq<(Modifiers, Seq<char>)>, es: Seq<(Seq<char>, Seq<char>)>) -> Seq<
    (Modifiers, Seq<char>),
>
    decreases es.len(),
{
    if es.len() == 0 {
        m
    } else {
        load_step(load_fold(m, es.drop_last()), es.last())
    }
}

/// What every command is bound to.
#[derive(Debug, Clone)]
pub struct Keymap {
    bindings: Vec<Binding>,
}

impl View for Keymap {
    type V = Seq<(Modifiers, Seq<char>)>;

    closed spec fn view(&self) -> Seq<(Modifiers, Seq<char>)> {
        self.bindings@.map_values(|b: Binding| b@)
    }
}

/// A default binding is already in canonical form.
pub proof fn lemma_defaults_normalized(c: Command)
    ensures
        normalize(default_binding_spec(c)) == default_binding_spec(c),
{
}

impl Keymap {
    /// One binding per command, each in canonical form.
    pub open spec fn wf(&self) -> bool {
        &&& self@.len() == COMMAND_COUNT
        &&& forall|i: int| 0 <= i < COMMAND_COUNT ==> normalize(#[trigger] self@[i]) == self@[i]
    }

    /// Every command on its default key.
    pub fn defaults() -> (r: Keymap)
        ensures
            r.wf(),
            r@ == default_map(),
    {
        let mut v: Vec<Binding> = Vec::new();
        let mut i: usize = 0;
        while i < COMMAND_COUNT
            invariant
                i <= COMMAND_COUNT,
                v@.len() == i,
                forall|j: int| 0 <= j < i ==> (#[trigger] v@[j])@ == default_binding_spec(
                    command_at(j),
                ),
            decreases COMMAND_COUNT - i,
        {
            let c = Command::from_index(i);
            v.push(c.default_binding());
            i = i + 1;
        }
        let r = Keymap { bindings: v };
        assert(r@ =~= default_map());
        assert forall|i: int| 0 <= i < COMMAND_COUNT implies normalize(#[trigger] r@[i])
            == r@[i] by {
            lemma_defaults_normalized(command_at(i));
        }
        r
    }

    /// What `c` is bound to.
    pub fn binding(&self, c: Command) -> (r: Binding)
        requires
            self.wf(),
        ensures
            r@ == self@[command_index(c)],
    {
        self.bindings[c.index()].clone()
    }

    /// The shortcut as it should appear beside a menu entry.
    pub fn shortcut(&self, c: Command, mac: bool) -> (r: String)
        requires
            self.wf(),
        ensures
            r@ == display_binding(self@[command_index(c)], mac),
    {
        self.binding(c).display(mac)
    }

    /// Whether `c` is still on its default key.
    pub fn is_default(&self, c: Command) -> (r: bool)
        requires
            self.wf(),
        ensures
            r == (self@[command_index(c)] == default_binding_spec(c)),
    {
        self.binding(c).same(&c.default_binding())
    }

    /// Put `c` back on its default key.
    pub fn reset(&mut self, c: Command)
        requires
            old(self).wf(),
        ensures
            final(self).wf(),
            final(self)@ == old(self)@.update(command_index(c), default_binding_spec(c)),
    {
        let i = c.index();
        self.bindings.set(i, c.default_binding());
        proof {
            lemma_defaults_normalized(c);
        }
        assert(self@ =~= old(self)@.update(command_index(c), default_binding_spec(c)));
    }

    /// Bind `c` to `b`, in canonical form.
    pub fn bind(&mut self, c: Command, b: &Binding)
        requires
            old(self).wf(),
        ensures
            final(self).wf(),
            final(self)@ == old(self)@.update(command_index(c), normalize(b@)),
    {
        let i = c.index();
        self.bindings.set(i, b.normalized());
        assert(self@ =~= old(self)@.update(command_index(c), normalize(b@)));
    }

    /// The other command already using this key, if any: the first, in
    /// command order, whose binding is `b` once both are in canonical form.
    ///
    /// Checked across every scope, not within one: all three scopes are live
    /// at once in a listing with a line selected, so a shared key would be a
    /// shortcut that sometimes does the wrong thing.
    pub fn conflict(&self, c: Command, b: &Binding) -> (r: Option<Command>)
        requires
            self.wf(),
        ensures
            match r {
                Some(o) => {
                    &&& o != c
                    &&& normalize(self@[command_index(o)]) == normalize(b@)
                    &&& forall|j: int|
                        0 <= j < command_index(o) && j != command_index(c) ==> normalize(
                            #[trigger] self@[j],
                        ) != normalize(b@)
                },
                None => forall|j: int|
                    0 <= j < COMMAND_COUNT && j != command_index(c) ==> normalize(
                        #[trigger] self@[j],
                    ) != normalize(b@),
            },
    {
        let want = b.normalized();
        let me = c.index();
        let mut i: usize = 0;
        while i < COMMAND_COUNT
            invariant
                self.wf(),
                me == command_index(c),
                want@ == normalize(b@),
                i <= COMMAND_COUNT,
                forall|j: int| 0 <= j < i && j != me ==> normalize(#[trigger] self@[j]) != normalize(
                    b@,
                ),
            decreases COMMAND_COUNT - i,
        {
            if i != me && self.bindings[i].normalized().same(&want) {
                let o = Command::from_index(i);
                proof {
                    lemma_command_at(i as int);
                }
                return Some(o);
            }
            i = i + 1;
        }
        None
    }

    /// The entries worth writing to the settings file: the id and shown form
    /// of every binding that differs from its default. A file full of
    /// defaults would freeze them, so that a later change of default never
    /// reached an existing installation.
    pub fn saved(&self, mac: bool) -> (r: Vec<(String, String)>)
        requires
            self.wf(),
        ensures
            r@.map_values(|e: (String, String)| (e.0@, e.1@)) == saved_upto(
                self@,
                mac,
                COMMAND_COUNT as int,
            ),
    {
        let mut out: Vec<(String, String)> = Vec::new();
        let mut i: usize = 0;
        while i < COMMAND_COUNT
            invariant
                self.wf(),
                i <= COMMAND_COUNT,
                out@.map_values(|e: (String, String)| (e.0@, e.1@)) == saved_upto(
                    self@,
                    mac,
                    i as int,
                ),
            decreases COMMAND_COUNT - i,
        {
            let c = Command::from_index(i);
            let ghost before = out@.map_values(|e: (String, String)| (e.0@, e.1@));
            if !self.bindings[i].same(&c.default_binding()) {
                let id = owned(c.id());
                let text = self.bindings[i].display(mac);
                out.push((id, text));
                assert(out@.map_values(|e: (String, String)| (e.0@, e.1@)) =~= before.push(
                    (command_id(c), display_binding(self@[i as int], mac)),
                ));
            }
            i = i + 1;
        }
        out
    }

    /// The keymap a settings file describes: the defaults, with each entry
    /// read in order (see [`load_step`]).
    pub fn from_saved(entries: &Vec<(String, String)>) -> (r: Keymap)
        ensures
            r.wf(),
            r@ == load_fold(default_map(), entries@.map_values(|e: (String, String)| (e.0@, e.1@))),
    {
        let ghost es = entries@.map_values(|e: (String, String)| (e.0@, e.1@));
        let mut map = Keymap::defaults();
        let mut i: usize = 0;
        while i < entries.len()
            invariant
                es == entries@.map_values(|e: (String, String)| (e.0@, e.1@)),
                i <= entries.len(),
                map.wf(),
                map@ == load_fold(default_map(), es.take(i as int)),
            decreases entries.len() - i,
        {
            let (id, text) = &entries[i];
            proof {
                assert(es.take(i + 1).drop_last() =~= es.take(i as int));
                assert(es.take(i + 1).last() == (id@, text@));
            }
            match (Command::from_id(id.as_str()), Binding::parse(text.as_str())) {
                (Some(c), Some(b)) => {
                    let k = c.index();
                    map.bindings.set(k, b);
                    assert(map@ =~= load_fold(default_map(), es.take(i as int)).update(
                        command_index(c),
                        b@,
                    ));
                },
                _ => {},
            }
            i = i + 1;
        }
        assert(es.take(entries.len() as int) =~= es);
        map
    }
}

/// Reading back what was saved gives the keymap that was saved, whenever
/// every changed binding's key reads back as itself.
pub proof fn lemma_saved_round_trip(m: Seq<(Modifiers, Seq<char>)>, mac: bool)
    requires
        m.len() == COMMAND_COUNT,
        forall|i: int| 0 <= i < COMMAND_COUNT ==> normalize(#[trigger] m[i]) == m[i],
        forall|i: int|
            0 <= i < COMMAND_COUNT && m[i] != default_binding_spec(command_at(i))
                ==> key_round_trips(#[trigger] m[i].1),
    ensures
        load_fold(default_map(), saved_upto(m, mac, COMMAND_COUNT as int)) == m,
{
    lemma_saved_prefix(m, mac, COMMAND_COUNT as int);
    assert(m.take(COMMAND_COUNT as int) + default_map().skip(COMMAND_COUNT as int) =~= m);
}

proof fn lemma_saved_prefix(m: Seq<(Modifiers, Seq<char>)>, mac: bool, n: int)
    requires
        0 <= n <= COMMAND_COUNT,
        m.len() == COMMAND_COUNT,
        forall|i: int| 0 <= i < COMMAND_COUNT ==> normalize(#[trigger] m[i]) == m[i],
        forall|i: int|
            0 <= i < COMMAND_COUNT && m[i] != default_binding_spec(command_at(i))
                ==> key_round_trips(#[trigger] m[i].1),
    ensures
        load_fold(default_map(), saved_upto(m, mac, n)) == m.take(n) + default_map().skip(n),
    decreases n,
{
    if n == 0 {
        assert(m.take(0) + default_map().skip(0) =~= default_map());
    } else {
        lemma_saved_prefix(m, mac, n - 1);
        let c = command_at(n - 1);
        lemma_command_at(n - 1);
        let prev = saved_upto(m, mac, n - 1);
        if m[n - 1] != default_binding_spec(c) {
            let e = (command_id(c), display_binding(m[n - 1], mac));
            assert(prev.push(e).drop_last() =~= prev);
            lemma_id_round_trip(c);
            lemma_binding_round_trip(m[n - 1], mac);
            assert(m.take(n - 1) + default_map().skip(n - 1) =~= (m.take(n) + default_map().skip(
                n,
            )).update(n - 1, default_map()[n - 1]));
            assert((m.take(n - 1) + default_map().skip(n - 1)).update(n - 1, m[n - 1]) =~= m.take(
                n,
            ) + default_map().skip(n));
        } else {
            assert(m.take(n - 1) + default_map().skip(n - 1) =~= m.take(n) + default_map().skip(
                n,
            ));
        }
    }
}


/// Binding a command that is on its default key and then resetting it
/// leaves the keymap as it was; every other command keeps its binding
/// throughout.
pub proof fn lemma_reset_undoes_bind(m: Seq<(Modifiers, Seq<char>)>, c: Command, b: (Modifiers, Seq<char>))
    requires
        m.len() == COMMAND_COUNT,
        m[command_index(c)] == default_binding_spec(c),
    ensures
        m.update(command_index(c), normalize(b)).update(command_index(c), default_binding_spec(c)) == m,
        forall|j: int|
            0 <= j < COMMAND_COUNT && j != command_index(c) ==> #[trigger] m.update(
                command_index(c),
                normalize(b),
            )[j] == m[j],
{
    lemma_command_index(c);
    assert(m.update(command_index(c), normalize(b)).update(command_index(c), default_binding_spec(c))
        =~= m);
}

/// No two commands start out on the same binding.
pub proof fn lemma_defaults_distinct(a: Command, b: Command)
    requires
        a != b,
    ensures
        default_binding_spec(a) != default_binding_spec(b),
{
    reveal_strlit("O");
    reveal_strlit("R");
    reveal_strlit("S");
    reveal_strlit("W");
    reveal_strlit("G");
    reveal_strlit("P");
    reveal_strlit("ArrowLeft");
    reveal_strlit("ArrowRight");
    reveal_strlit("Escape");
    reveal_strlit("Num1");
    reveal_strlit("Num2");
    reveal_strlit("ArrowDown");
    reveal_strlit("ArrowUp");
    reveal_strlit("PageDown");
    reveal_strlit("PageUp");
    reveal_strlit("Enter");
    reveal_strlit("N");
    reveal_strlit("B");
    let (x, y) = (default_binding_spec(a), default_binding_spec(b));
    assert(x.0 != y.0 || x.1.len() != y.1.len() || x.1[0] != y.1[0] || x.1.last() != y.1.last());
}

/// The default keymap has no conflicts: asked about any command's own default
/// binding, no other command claims it.
pub proof fn lemma_defaults_do_not_collide(c: Command)
    ensures
        forall|j: int|
            0 <= j < COMMAND_COUNT && j != command_index(c) ==> normalize(#[trigger] default_map()[j])
                != normalize(default_map()[command_index(c)]),
{
    lemma_command_index(c);
    assert forall|j: int|
        0 <= j < COMMAND_COUNT && j != command_index(c) implies normalize(
        #[trigger] default_map()[j],
    ) != normalize(default_map()[command_index(c)]) by {
        lemma_command_at(j);
        lemma_defaults_normalized(command_at(j));
        lemma_defaults_normalized(c);
        lemma_defaults_distinct(command_at(j), c);
    }
}


impl Default for Keymap {
    fn default() -> (r: Keymap)
        ensures
            r.wf(),
            r@ == default_map(),
    {
        Keymap::defaults()
    }
}

/// A letter key, a digit key (`Num0` to `Num9`), or one of the keys the
/// tool spells itself: the arrows, Enter, Escape, the paging keys, Space
/// and Tab.
pub open spec fn plain_key(k: Seq<char>) -> bool {
    ||| (k.len() == 1 && 'A' <= k[0] && k[0] <= 'Z')
    ||| (k.len() == 4 && k[0] == 'N' && k[1] == 'u' && k[2] == 'm' && is_digit(k[3]))
    ||| k == "ArrowLeft"@
    ||| k == "ArrowRight"@
    ||| k == "ArrowUp"@
    ||| k == "ArrowDown"@
    ||| k == "Enter"@
    ||| k == "Escape"@
    ||| k == "PageUp"@
    ||| k == "PageDown"@
    ||| k == "Space"@
    ||| k == "Tab"@
}


proof fn lemma_trim_keeps_word(t: Seq<char>)
    requires
        t.len() > 0,
        !is_ws(t[0]),
        !is_ws(t.last()),
    ensures
        trim(t) == t,
{
}

/// A plain key's printed label reads back as the key itself.
pub proof fn lemma_plain_key_round_trips(k: Seq<char>)
    requires
        plain_key(k),
    ensures
        key_round_trips(k),
{
    reveal_strlit("ArrowLeft");
    reveal_strlit("ArrowRight");
    reveal_strlit("ArrowUp");
    reveal_strlit("ArrowDown");
    reveal_strlit("Enter");
    reveal_strlit("Escape");
    reveal_strlit("PageUp");
    reveal_strlit("PageDown");
    reveal_strlit("Space");
    reveal_strlit("Tab");
    reveal_strlit("Left");
    reveal_strlit("Right");
    reveal_strlit("Up");
    reveal_strlit("Down");
    reveal_strlit("Esc");
    reveal_strlit("PgUp");
    reveal_strlit("PgDn");
    reveal_strlit("Num");
    reveal_strlit("left");
    reveal_strlit("right");
    reveal_strlit("up");
    reveal_strlit("down");
    reveal_strlit("enter");
    reveal_strlit("return");
    reveal_strlit("esc");
    reveal_strlit("escape");
    reveal_strlit("pgup");
    reveal_strlit("pageup");
    reveal_strlit("pgdn");
    reveal_strlit("pagedown");
    reveal_strlit("space");
    reveal_strlit("tab");
    reveal_strlit("ctrl");
    reveal_strlit("cmd");
    reveal_strlit("command");
    reveal_strlit("control");
    reveal_strlit("alt");
    reveal_strlit("option");
    reveal_strlit("shift");
    let t = key_label(k);
    let l = lower(t);
    if k.len() == 1 {
        assert(t == k);
        assert(upper(t) =~= k);
        assert(l.len() == 1);
        lemma_trim_keeps_word(t);
    } else if k.len() == 4 && k[0] == 'N' && k[1] == 'u' && k[2] == 'm' && is_digit(k[3]) {
        assert(starts_with(k, "Num"@)) by {
            assert(k.subrange(0, 3) =~= "Num"@);
        }
        assert(t =~= seq![k[3]]);
        assert("Num"@ + t =~= k);
        assert(l.len() == 1);
        lemma_trim_keeps_word(t);
    } else if k == "ArrowLeft"@ {
        assert(l =~= "left"@);
        assert(l[0] != "ctrl"@[0] && l[0] != "cmd"@[0] && l[0] != "command"@[0] && l[0] != "control"@[0]
            && l[0] != "alt"@[0] && l[0] != "option"@[0]);
        assert(l[0] != "shift"@[0] || l[1] != "shift"@[1]);
        lemma_trim_keeps_word(t);
    } else if k == "ArrowRight"@ {
        assert(l =~= "right"@);
        assert(l[0] != "ctrl"@[0] && l[0] != "cmd"@[0] && l[0] != "command"@[0] && l[0] != "control"@[0]
            && l[0] != "alt"@[0] && l[0] != "option"@[0]);
        assert(l[0] != "shift"@[0] || l[1] != "shift"@[1]);
        lemma_trim_keeps_word(t);
    } else if k == "ArrowUp"@ {
        assert(l =~= "up"@);
        assert(l[0] != "ctrl"@[0] && l[0] != "cmd"@[0] && l[0] != "command"@[0] && l[0] != "control"@[0]
            && l[0] != "alt"@[0] && l[0] != "option"@[0]);
        assert(l[0] != "shift"@[0] || l[1] != "shift"@[1]);
        lemma_trim_keeps_word(t);
    } else if k == "ArrowDown"@ {
        assert(l =~= "down"@);
        assert(l[0] != "ctrl"@[0] && l[0] != "cmd"@[0] && l[0] != "command"@[0] && l[0] != "control"@[0]
            && l[0] != "alt"@[0] && l[0] != "option"@[0]);
        assert(l[0] != "shift"@[0] || l[1] != "shift"@[1]);
        lemma_trim_keeps_word(t);
    } else if k == "Enter"@ {
        assert(l =~= "enter"@);
        assert(l[0] != "ctrl"@[0] && l[0] != "cmd"@[0] && l[0] != "command"@[0] && l[0] != "control"@[0]
            && l[0] != "alt"@[0] && l[0] != "option"@[0]);
        assert(l[0] != "shift"@[0] || l[1] != "shift"@[1]);
        lemma_trim_keeps_word(t);
    } else if k == "Escape"@ {
        assert(l =~= "esc"@);
        assert(l[0] != "ctrl"@[0] && l[0] != "cmd"@[0] && l[0] != "command"@[0] && l[0] != "control"@[0]
            && l[0] != "alt"@[0] && l[0] != "option"@[0]);
        assert(l[0] != "shift"@[0] || l[1] != "shift"@[1]);
        lemma_trim_keeps_word(t);
    } else if k == "PageUp"@ {
        assert(l =~= "pgup"@);
        assert(l[0] != "ctrl"@[0] && l[0] != "cmd"@[0] && l[0] != "command"@[0] && l[0] != "control"@[0]
            && l[0] != "alt"@[0] && l[0] != "option"@[0]);
        assert(l[0] != "shift"@[0] || l[1] != "shift"@[1]);
        lemma_trim_keeps_word(t);
    } else if k == "PageDown"@ {
        assert(l =~= "pgdn"@);
        assert(l[2] != "pgup"@[2]);
        assert(l[0] != "ctrl"@[0] && l[0] != "cmd"@[0] && l[0] != "command"@[0] && l[0] != "control"@[0]
            && l[0] != "alt"@[0] && l[0] != "option"@[0]);
        assert(l[0] != "shift"@[0] || l[1] != "shift"@[1]);
        lemma_trim_keeps_word(t);
    } else if k == "Space"@ {
        assert(k.subrange(0, 3)[0] != "Num"@[0]);
        assert(l =~= "space"@);
        assert(l[0] != "ctrl"@[0] && l[0] != "cmd"@[0] && l[0] != "command"@[0] && l[0] != "control"@[0]
            && l[0] != "alt"@[0] && l[0] != "option"@[0]);
        assert(l[0] != "shift"@[0] || l[1] != "shift"@[1]);
        lemma_trim_keeps_word(t);
    } else {
        assert(k.subrange(0, 3)[0] != "Num"@[0]);
        assert(l =~= "tab"@);
        assert(l[0] != "ctrl"@[0] && l[0] != "cmd"@[0] && l[0] != "command"@[0] && l[0] != "control"@[0]
            && l[0] != "alt"@[0] && l[0] != "option"@[0]);
        assert(l[0] != "shift"@[0] || l[1] != "shift"@[1]);
        lemma_trim_keeps_word(t);
    }
}

/// Every default binding's key reads back from its printed label.
pub proof fn lemma_default_keys_round_trip(c: Command)
    ensures
        key_round_trips(default_binding_spec(c).1),
{
    reveal_strlit("ArrowLeft");
    reveal_strlit("ArrowRight");
    reveal_strlit("ArrowUp");
    reveal_strlit("ArrowDown");
    reveal_strlit("Enter");
    reveal_strlit("Escape");
    reveal_strlit("PageUp");
    reveal_strlit("PageDown");
    reveal_strlit("Space");
    reveal_strlit("Tab");
    reveal_strlit("Left");
    reveal_strlit("Right");
    reveal_strlit("Up");
    reveal_strlit("Down");
    reveal_strlit("Esc");
    reveal_strlit("PgUp");
    reveal_strlit("PgDn");
    reveal_strlit("Num");
    reveal_strlit("left");
    reveal_strlit("right");
    reveal_strlit("up");
    reveal_strlit("down");
    reveal_strlit("enter");
    reveal_strlit("return");
    reveal_strlit("esc");
    reveal_strlit("escape");
    reveal_strlit("pgup");
    reveal_strlit("pageup");
    reveal_strlit("pgdn");
    reveal_strlit("pagedown");
    reveal_strlit("space");
    reveal_strlit("tab");
    reveal_strlit("ctrl");
    reveal_strlit("cmd");
    reveal_strlit("command");
    reveal_strlit("control");
    reveal_strlit("alt");
    reveal_strlit("option");
    reveal_strlit("shift");
    reveal_strlit("O");
    reveal_strlit("R");
    reveal_strlit("S");
    reveal_strlit("W");
    reveal_strlit("G");
    reveal_strlit("P");
    reveal_strlit("N");
    reveal_strlit("B");
    reveal_strlit("Num1");
    reveal_strlit("Num2");
    lemma_plain_key_round_trips(default_binding_spec(c).1);
}

/// Every default binding, as shown on either platform, reads back as
/// itself.
pub proof fn lemma_default_binding_round_trip(c: Command, mac: bool)
    ensures
        parse_binding(display_binding(default_binding_spec(c), mac)) == Some(default_binding_spec(c)),
{
    lemma_default_keys_round_trip(c);
    lemma_binding_round_trip(default_binding_spec(c), mac);
    lemma_defaults_normalized(c);
}

/// Loading back what was saved gives the keymap that was saved, for every
/// keymap whose changed bindings are on plain keys.
pub proof fn lemma_saved_round_trip_plain(m: Seq<(Modifiers, Seq<char>)>, mac: bool)
    requires
        m.len() == COMMAND_COUNT,
        forall|i: int| 0 <= i < COMMAND_COUNT ==> normalize(#[trigger] m[i]) == m[i],
        forall|i: int|
            0 <= i < COMMAND_COUNT && m[i] != default_binding_spec(command_at(i))
                ==> plain_key(#[trigger] m[i].1),
    ensures
        load_fold(default_map(), saved_upto(m, mac, COMMAND_COUNT as int)) == m,
{
    assert forall|i: int|
        0 <= i < COMMAND_COUNT && m[i] != default_binding_spec(command_at(i)) implies key_round_trips(
        #[trigger] m[i].1,
    ) by {
        lemma_plain_key_round_trips(m[i].1);
    }
    lemma_saved_round_trip(m, mac);
}

} // verus!
