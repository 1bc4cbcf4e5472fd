//! Navigation state of the browser: tabs, their history, and the panels and
//! dialogs around them.
//!
//! Views render from an immutable borrow and queue [`Action`]s; the session
//! applies them after the frame, one at a time, through [`Session::apply`].
//! Nothing here reads the binary or the disk: what needs either is done by
//! the front end around the call.

use std::collections::HashSet;
use vstd::prelude::*;
use crate::icons::Icon;
use crate::numparse::{lemma_padded_reads_back, parse_radix, parse_uint, IntError};
use crate::text::{
    cat, chars_of, decimal, decimal_padded, eq_ignore_ascii_case, extend, extend_str, find_char,
    find_char_in, fmt_decimal, fmt_decimal_padded, fmt_hex_padded, hex, hex_padded, is_ws,
    lemma_decimal_digits, lemma_find_char, lemma_hex_digits, lower, owned, pad_left, starts_with,
    str_eq, string_of, strip_prefixes, strip_prefixes_chars, trim, trim_end, trim_start, trim_chars,
};

verus! {

/// An address in the binary: a 1-based segment number and an offset in it.
#[derive(Debug, Clone, Copy, PartialEq, Eq, PartialOrd, Ord, Hash, Structural)]
pub struct Addr {
    pub segment: u16,
    pub offset: u32,
}

/// What a tab is showing.
#[derive(Debug, PartialEq, Eq)]
pub enum Nav {
    Overview,
    Segment(u16),
    Resource(usize),
    Imports,
    Exports,
    Entries,
    Strings,
    /// The call-graph explorer.
    Graph,
    /// Cross-references, pre-filtered to a symbol when non-empty.
    Xrefs(String),
}

/// A view as a value: the symbol of a cross-reference view as characters.
pub enum NavV {
    Overview,
    Segment(u16),
    Resource(usize),
    Imports,
    Exports,
    Entries,
    Strings,
    Graph,
    Xrefs(Seq<char>),
}

impl View for Nav {
    type V = NavV;

    open spec fn view(&self) -> NavV {
        match self {
            Nav::Overview => NavV::Overview,
            Nav::Segment(n) => NavV::Segment(*n),
            Nav::Resource(i) => NavV::Resource(*i),
            Nav::Imports => NavV::Imports,
            Nav::Exports => NavV::Exports,
            Nav::Entries => NavV::Entries,
            Nav::Strings => NavV::Strings,
            Nav::Graph => NavV::Graph,
            Nav::Xrefs(s) => NavV::Xrefs(s@),
        }
    }
}

impl Clone for Nav {
    fn clone(&self) -> (r: Nav)
        ensures
            r@ == self@,
    {
        match self {
            Nav::Overview => Nav::Overview,
            Nav::Segment(n) => Nav::Segment(*n),
            Nav::Resource(i) => Nav::Resource(*i),
            Nav::Imports => Nav::Imports,
            Nav::Exports => Nav::Exports,
            Nav::Entries => Nav::Entries,
            Nav::Strings => Nav::Strings,
            Nav::Graph => Nav::Graph,
            Nav::Xrefs(s) => Nav::Xrefs(s.clone()),
        }
    }
}

/// The icon each view is shown with.
pub open spec fn nav_icon(n: NavV) -> Icon {
    match n {
        NavV::Overview => Icon::Overview,
        NavV::Segment(_) => Icon::Segment,
        NavV::Resource(_) => Icon::Resource,
        NavV::Imports => Icon::Import,
        NavV::Exports => Icon::Export,
        NavV::Entries => Icon::Entries,
        NavV::Strings => Icon::Strings,
        NavV::Graph => Icon::Graph,
        NavV::Xrefs(_) => Icon::Xref,
    }
}

/// The title of a tab on a view. A resource is titled by its type and id,
/// given as `resource` when the document has it.
pub open spec fn nav_title(n: NavV, resource: Option<Seq<char>>) -> Seq<char> {
    match n {
        NavV::Overview => "Overview"@,
        NavV::Segment(k) => "Segment "@ + decimal(k as nat),
        NavV::Resource(i) => match resource {
            Some(t) => t,
            None => "Resource "@ + decimal(i as nat),
        },
        NavV::Imports => "Imports"@,
        NavV::Exports => "Exports"@,
        NavV::Entries => "Entry table"@,
        NavV::Strings => "Strings"@,
        NavV::Graph => "Call graph"@,
        NavV::Xrefs(s) => if s.len() == 0 {
            "Xrefs"@
        } else {
            "Xrefs: "@ + s
        },
    }
}

impl Nav {
    /// Whether two views are the same view.
    pub fn same(&self, other: &Nav) -> (r: bool)
        ensures
            r == (self@ == other@),
    {
        match (self, other) {
            (Nav::Overview, Nav::Overview) => true,
            (Nav::Segment(a), Nav::Segment(b)) => *a == *b,
            (Nav::Resource(a), Nav::Resource(b)) => *a == *b,
            (Nav::Imports, Nav::Imports) => true,
            (Nav::Exports, Nav::Exports) => true,
            (Nav::Entries, Nav::Entries) => true,
            (Nav::Strings, Nav::Strings) => true,
            (Nav::Graph, Nav::Graph) => true,
            (Nav::Xrefs(a), Nav::Xrefs(b)) => str_eq(a.as_str(), b.as_str()),
            _ => false,
        }
    }

    /// The icon for this view.
    pub fn icon(&self) -> (r: Icon)
        ensures
            r == nav_icon(self@),
    {
        match self {
            Nav::Overview => Icon::Overview,
            Nav::Segment(_) => Icon::Segment,
            Nav::Resource(_) => Icon::Resource,
            Nav::Imports => Icon::Import,
            Nav::Exports => Icon::Export,
            Nav::Entries => Icon::Entries,
            Nav::Strings => Icon::Strings,
            Nav::Graph => Icon::Graph,
            Nav::Xrefs(_) => Icon::Xref,
        }
    }

    /// The title of a tab on this view; `resource` is the type and id of the
    /// resource it shows, when the document has one at that index.
    pub fn title(&self, resource: Option<&str>) -> (r: String)
        ensures
            r@ == nav_title(
                self@,
                match resource {
                    Some(t) => Some(t@),
                    None => None,
                },
            ),
    {
        match self {
            Nav::Overview => owned("Overview"),
            Nav::Segment(n) => {
                let mut v: Vec<char> = Vec::new();
                extend_str(&mut v, "Segment ");
                let d = fmt_decimal(*n as u64);
                extend(&mut v, &d);
                string_of(&v)
            },
            Nav::Resource(i) => match resource {
                Some(t) => owned(t),
                None => {
                    let mut v: Vec<char> = Vec::new();
                    extend_str(&mut v, "Resource ");
                    let d = fmt_decimal(*i as u64);
                    extend(&mut v, &d);
                    string_of(&v)
                },
            },
            Nav::Imports => owned("Imports"),
            Nav::Exports => owned("Exports"),
            Nav::Entries => owned("Entry table"),
            Nav::Strings => owned("Strings"),
            Nav::Graph => owned("Call graph"),
            Nav::Xrefs(s) => {
                if s.as_str().unicode_len() == 0 {
                    owned("Xrefs")
                } else {
                    cat("Xrefs: ", s.as_str())
                }
            },
        }
    }
}

/// Which aspect of a segment a tab is showing.
#[derive(Debug, Clone, Copy, PartialEq, Eq, Structural)]
pub enum SegTab {
    Disasm,
    Hex,
    Fixups,
    Strings,
}

impl SegTab {
    /// Every aspect, with the label its switch is shown with.
    pub fn all() -> (r: Vec<(SegTab, &'static str)>)
        ensures
            r@.len() == 4,
            r@[0].0 == SegTab::Disasm && r@[0].1@ == "Disassembly"@,
            r@[1].0 == SegTab::Hex && r@[1].1@ == "Hex"@,
            r@[2].0 == SegTab::Fixups && r@[2].1@ == "Fixups"@,
            r@[3].0 == SegTab::Strings && r@[3].1@ == "Strings"@,
    {
        let mut v: Vec<(SegTab, &'static str)> = Vec::new();
        v.push((SegTab::Disasm, "Disassembly"));
        v.push((SegTab::Hex, "Hex"));
        v.push((SegTab::Fixups, "Fixups"));
        v.push((SegTab::Strings, "Strings"));
        v
    }
}

/// Which direction the call-graph explorer expands from its root.
#[derive(Debug, Clone, Copy, PartialEq, Eq, Structural)]
pub enum GraphDir {
    Callees,
    Callers,
    Both,
}

impl GraphDir {
    /// Every direction, with the label its switch is shown with.
    pub fn all() -> (r: Vec<(GraphDir, &'static str)>)
        ensures
            r@.len() == 3,
            r@[0].0 == GraphDir::Callees && r@[0].1@ == "Calls"@,
            r@[1].0 == GraphDir::Callers && r@[1].1@ == "Callers"@,
            r@[2].0 == GraphDir::Both && r@[2].1@ == "Both"@,
    {
        let mut v: Vec<(GraphDir, &'static str)> = Vec::new();
        v.push((GraphDir::Callees, "Calls"));
        v.push((GraphDir::Callers, "Callers"));
        v.push((GraphDir::Both, "Both"));
        v
    }
}


/// An optional string as an optional sequence of characters.
pub open spec fn opt_view(o: Option<String>) -> Option<Seq<char>> {
    match o {
        Some(s) => Some(s@),
        None => None,
    }
}

/// The call-graph explorer's state, apart from where the view is panned and
/// zoomed and where nodes were dragged to.
#[derive(Debug)]
pub struct GraphState {
    /// Function at the centre of the graph, or `None` to pick automatically.
    pub root: Option<Addr>,
    pub depth: usize,
    pub dir: GraphDir,
    /// Draw calls to imported symbols as leaf nodes.
    pub show_imports: bool,
    /// Cleared when the graph should re-frame itself, after a new root.
    pub framed: bool,
    /// The node currently being dragged.
    pub dragging: Option<String>,
    /// The node whose context menu is open.
    pub menu_for: Option<String>,
    /// The node the user last clicked.
    pub selected: Option<Addr>,
    /// Columns the user has asked to see in full, overriding the cap.
    pub expanded: HashSet<i32>,
}

/// The explorer's state as a value.
pub struct GraphV {
    pub root: Option<Addr>,
    pub depth: usize,
    pub dir: GraphDir,
    pub show_imports: bool,
    pub framed: bool,
    pub dragging: Option<Seq<char>>,
    pub menu_for: Option<Seq<char>>,
    pub selected: Option<Addr>,
    pub expanded: Set<i32>,
}

impl View for GraphState {
    type V = GraphV;

    open spec fn view(&self) -> GraphV {
        GraphV {
            root: self.root,
            depth: self.depth,
            dir: self.dir,
            show_imports: self.show_imports,
            framed: self.framed,
            dragging: opt_view(self.dragging),
            menu_for: opt_view(self.menu_for),
            selected: self.selected,
            expanded: self.expanded@,
        }
    }
}

/// The explorer as a new tab starts it: one level of callees, imports shown.
pub open spec fn graph_default() -> GraphV {
    GraphV {
        root: None,
        depth: 1,
        dir: GraphDir::Callees,
        show_imports: true,
        framed: false,
        dragging: None,
        menu_for: None,
        selected: None,
        expanded: Set::empty(),
    }
}

impl Default for GraphState {
    fn default() -> (r: GraphState)
        ensures
            r@ == graph_default(),
    {
        let r = GraphState {
            root: None,
            depth: 1,
            dir: GraphDir::Callees,
            show_imports: true,
            framed: false,
            dragging: None,
            menu_for: None,
            selected: None,
            expanded: HashSet::new(),
        };
        r
    }
}

/// One open view, with its own history and selection.
#[derive(Debug)]
pub struct Tab {
    /// Index of the document the tab shows.
    pub doc: usize,
    pub nav: Nav,
    pub seg_tab: SegTab,
    /// Selected offset in the current listing.
    pub sel: Option<u32>,
    /// Offset the listing should scroll to; consumed after one frame.
    pub scroll_to: Option<u32>,
    pub history: Vec<Nav>,
    pub forward: Vec<Nav>,
    /// Filter local to this view.
    pub filter: String,
    pub graph: GraphState,
}

/// A tab as a value.
pub struct TabV {
    pub doc: usize,
    pub nav: NavV,
    pub seg_tab: SegTab,
    pub sel: Option<u32>,
    pub scroll_to: Option<u32>,
    pub history: Seq<NavV>,
    pub forward: Seq<NavV>,
    pub filter: Seq<char>,
    pub graph: GraphV,
}

/// A list of views as values.
pub open spec fn navs_view(v: Seq<Nav>) -> Seq<NavV> {
    v.map_values(|n: Nav| n@)
}

impl View for Tab {
    type V = TabV;

    open spec fn view(&self) -> TabV {
        TabV {
            doc: self.doc,
            nav: self.nav@,
            seg_tab: self.seg_tab,
            sel: self.sel,
            scroll_to: self.scroll_to,
            history: navs_view(self.history@),
            forward: navs_view(self.forward@),
            filter: self.filter@,
            graph: self.graph@,
        }
    }
}

/// A fresh tab on `nav` in document `doc`.
pub open spec fn tab_new(doc: usize, nav: NavV) -> TabV {
    TabV {
        doc,
        nav,
        seg_tab: SegTab::Disasm,
        sel: None,
        scroll_to: None,
        history: Seq::empty(),
        forward: Seq::empty(),
        filter: Seq::empty(),
        graph: graph_default(),
    }
}

impl Tab {
    /// A fresh tab on `nav` in document `doc`, with no history.
    pub fn new(doc: usize, nav: Nav) -> (r: Tab)
        ensures
            r@ == tab_new(doc, nav@),
    {
        let r = Tab {
            doc,
            nav,
            seg_tab: SegTab::Disasm,
            sel: None,
            scroll_to: None,
            history: Vec::new(),
            forward: Vec::new(),
            filter: String::new(),
            graph: GraphState::default(),
        };
        assert(navs_view(r.history@) =~= Seq::<NavV>::empty());
        assert(navs_view(r.forward@) =~= Seq::<NavV>::empty());
        r
    }
}

/// Navigating a tab to `nav`: a different view pushes the current one onto
/// the history and drops the forward list, the selection and the filter;
/// the view already shown is left alone.
pub open spec fn tab_go(t: TabV, nav: NavV) -> TabV {
    if t.nav == nav {
        t
    } else {
        TabV {
            nav,
            history: t.history.push(t.nav),
            forward: Seq::empty(),
            sel: None,
            filter: Seq::empty(),
            ..t
        }
    }
}

/// Going back: the previous view returns and the current one moves onto the
/// forward list. With no history the tab is unchanged.
pub open spec fn tab_back(t: TabV) -> TabV {
    if t.history.len() == 0 {
        t
    } else {
        TabV {
            nav: t.history.last(),
            history: t.history.drop_last(),
            forward: t.forward.push(t.nav),
            sel: None,
            ..t
        }
    }
}

/// Going forward: the inverse of going back.
pub open spec fn tab_forward(t: TabV) -> TabV {
    if t.forward.len() == 0 {
        t
    } else {
        TabV {
            nav: t.forward.last(),
            forward: t.forward.drop_last(),
            history: t.history.push(t.nav),
            sel: None,
            ..t
        }
    }
}

/// Pointing a tab's listing at `off` in the disassembly.
pub open spec fn tab_goto(t: TabV, off: u32) -> TabV {
    TabV { seg_tab: SegTab::Disasm, scroll_to: Some(off), sel: Some(off), ..t }
}

/// The session as a value.
pub struct SessionV {
    pub tabs: Seq<TabV>,
    pub active: usize,
    pub docs: usize,
    pub error: Option<Seq<char>>,
    pub status: Seq<char>,
    pub nav_filter: Seq<char>,
    pub show_inspector: bool,
    pub show_navigator: bool,
    pub show_bytes: bool,
    pub goto_open: bool,
    pub goto_text: Seq<char>,
    pub palette_open: bool,
    pub palette_text: Seq<char>,
    pub palette_sel: usize,
    pub palette_scroll: bool,
    pub rename_at: Option<(u16, u32)>,
    pub rename_text: Seq<char>,
    pub focus_input: bool,
}

/// The tab the session is showing: the active one, or the last when the
/// active index has run past the end.
pub open spec fn current(s: SessionV) -> int {
    if s.active < s.tabs.len() {
        s.active as int
    } else {
        s.tabs.len() - 1
    }
}

/// The session with `f` applied to the tab it is showing, if any.
pub open spec fn on_tab(s: SessionV, f: spec_fn(TabV) -> TabV) -> SessionV {
    if s.tabs.len() == 0 {
        s
    } else {
        SessionV { tabs: s.tabs.update(current(s), f(s.tabs[current(s)])), ..s }
    }
}

/// A new tab on `nav` in the document the current tab shows, made active.
pub open spec fn session_new_tab(s: SessionV, nav: NavV) -> SessionV {
    if s.tabs.len() == 0 {
        s
    } else {
        SessionV {
            tabs: s.tabs.push(tab_new(s.tabs[current(s)].doc, nav)),
            active: s.tabs.len() as usize,
            ..s
        }
    }
}

/// Closing tab `i`. The active index moves down when a tab before it goes,
/// or when it would run past the end; closing the last tab of a loaded
/// document leaves an overview of that document in its place.
pub open spec fn session_close(s: SessionV, i: usize) -> SessionV {
    if i >= s.tabs.len() {
        s
    } else {
        let doc = s.tabs[i as int].doc;
        let tabs = s.tabs.remove(i as int);
        let active: usize = if i < s.active || s.active >= tabs.len() {
            if s.active > 0 {
                (s.active - 1) as usize
            } else {
                0
            }
        } else {
            s.active
        };
        if tabs.len() == 0 && doc < s.docs {
            SessionV { tabs: seq![tab_new(doc, NavV::Overview)], active: 0, ..s }
        } else {
            SessionV { tabs, active, ..s }
        }
    }
}

/// Something the user asked for of the session. Queued while a frame is
/// drawn, applied after it.
#[derive(Debug)]
pub enum Action {
    Go(Nav),
    GoNewTab(Nav),
    NewTab(Nav),
    Goto(Addr),
    GotoNewTab(Addr),
    SegTab(SegTab),
    Select(u32),
    CloseTab(usize),
    SelectTab(usize),
    Back,
    Forward,
    Status(String),
    SetNavFilter(String),
    SetGotoText(String),
    SetPaletteText(String),
    /// Move the palette's highlighted row by a number of rows.
    PaletteMove(i32),
    PaletteScrolled,
    SetViewFilter(String),
    SetGraphRoot(Addr),
    SetGraphDepth(usize),
    GraphFit,
    GraphDragStart(String),
    GraphDragEnd,
    GraphSelect(Option<Addr>),
    GraphExpandLevel(i32),
    GraphMenuFor(Option<String>),
    GraphResetLayout,
    ConsumeScroll,
    SetGraphDir(GraphDir),
    ToggleGraphImports,
    ToggleNavigator,
    ToggleInspector,
    ToggleBytes,
    ShowGoto,
    ShowPalette,
    /// Close whatever dialog is open.
    Dismiss,
    SetRenameText(String),
}

/// An action as a value.
pub enum ActionV {
    Go(NavV),
    GoNewTab(NavV),
    NewTab(NavV),
    Goto(Addr),
    GotoNewTab(Addr),
    SegTab(SegTab),
    Select(u32),
    CloseTab(usize),
    SelectTab(usize),
    Back,
    Forward,
    Status(Seq<char>),
    SetNavFilter(Seq<char>),
    SetGotoText(Seq<char>),
    SetPaletteText(Seq<char>),
    PaletteMove(i32),
    PaletteScrolled,
    SetViewFilter(Seq<char>),
    SetGraphRoot(Addr),
    SetGraphDepth(usize),
    GraphFit,
    GraphDragStart(Seq<char>),
    GraphDragEnd,
    GraphSelect(Option<Addr>),
    GraphExpandLevel(i32),
    GraphMenuFor(Option<Seq<char>>),
    GraphResetLayout,
    ConsumeScroll,
    SetGraphDir(GraphDir),
    ToggleGraphImports,
    ToggleNavigator,
    ToggleInspector,
    ToggleBytes,
    ShowGoto,
    ShowPalette,
    Dismiss,
    SetRenameText(Seq<char>),
}

impl View for Action {
    type V = ActionV;

    open spec fn view(&self) -> ActionV {
        match self {
            Action::Go(n) => ActionV::Go(n@),
            Action::GoNewTab(n) => ActionV::GoNewTab(n@),
            Action::NewTab(n) => ActionV::NewTab(n@),
            Action::Goto(a) => ActionV::Goto(*a),
            Action::GotoNewTab(a) => ActionV::GotoNewTab(*a),
            Action::SegTab(t) => ActionV::SegTab(*t),
            Action::Select(o) => ActionV::Select(*o),
            Action::CloseTab(i) => ActionV::CloseTab(*i),
            Action::SelectTab(i) => ActionV::SelectTab(*i),
            Action::Back => ActionV::Back,
            Action::Forward => ActionV::Forward,
            Action::Status(s) => ActionV::Status(s@),
            Action::SetNavFilter(s) => ActionV::SetNavFilter(s@),
            Action::SetGotoText(s) => ActionV::SetGotoText(s@),
            Action::SetPaletteText(s) => ActionV::SetPaletteText(s@),
            Action::PaletteMove(d) => ActionV::PaletteMove(*d),
            Action::PaletteScrolled => ActionV::PaletteScrolled,
            Action::SetViewFilter(s) => ActionV::SetViewFilter(s@),
            Action::SetGraphRoot(a) => ActionV::SetGraphRoot(*a),
            Action::SetGraphDepth(d) => ActionV::SetGraphDepth(*d),
            Action::GraphFit => ActionV::GraphFit,
            Action::GraphDragStart(k) => ActionV::GraphDragStart(k@),
            Action::GraphDragEnd => ActionV::GraphDragEnd,
            Action::GraphSelect(a) => ActionV::GraphSelect(*a),
            Action::GraphExpandLevel(l) => ActionV::GraphExpandLevel(*l),
            Action::GraphMenuFor(k) => ActionV::GraphMenuFor(opt_view(*k)),
            Action::GraphResetLayout => ActionV::GraphResetLayout,
            Action::ConsumeScroll => ActionV::ConsumeScroll,
            Action::SetGraphDir(d) => ActionV::SetGraphDir(*d),
            Action::ToggleGraphImports => ActionV::ToggleGraphImports,
            Action::ToggleNavigator => ActionV::ToggleNavigator,
            Action::ToggleInspector => ActionV::ToggleInspector,
            Action::ToggleBytes => ActionV::ToggleBytes,
            Action::ShowGoto => ActionV::ShowGoto,
            Action::ShowPalette => ActionV::ShowPalette,
            Action::Dismiss => ActionV::Dismiss,
            Action::SetRenameText(s) => ActionV::SetRenameText(s@),
        }
    }
}

/// The depth the explorer is asked to draw, kept between one and four.
pub open spec fn clamp_depth(d: usize) -> usize {
    if d < 1 {
        1
    } else if d > 4 {
        4
    } else {
        d
    }
}

/// Whether an action only changes the tab being shown.
pub open spec fn is_tab_action(a: ActionV) -> bool {
    match a {
        ActionV::Go(_) | ActionV::Goto(_) | ActionV::SegTab(_) | ActionV::Select(_) | ActionV::Back
        | ActionV::Forward | ActionV::SetViewFilter(_) | ActionV::SetGraphRoot(_)
        | ActionV::SetGraphDepth(_) | ActionV::GraphFit | ActionV::GraphDragStart(_)
        | ActionV::GraphDragEnd | ActionV::GraphSelect(_) | ActionV::GraphExpandLevel(_)
        | ActionV::GraphMenuFor(_) | ActionV::GraphResetLayout | ActionV::ConsumeScroll
        | ActionV::SetGraphDir(_) | ActionV::ToggleGraphImports => true,
        _ => false,
    }
}

/// What an action that only changes the tab being shown does to it.
pub open spec fn tab_effect(t: TabV, a: ActionV) -> TabV {
    match a {
        ActionV::Go(n) => tab_go(t, n),
        ActionV::Goto(addr) => tab_goto(tab_go(t, NavV::Segment(addr.segment)), addr.offset),
        ActionV::SegTab(st) => TabV { seg_tab: st, sel: None, ..t },
        ActionV::Select(off) => TabV { sel: Some(off), ..t },
        ActionV::Back => tab_back(t),
        ActionV::Forward => tab_forward(t),
        ActionV::SetViewFilter(f) => TabV { filter: f, ..t },
        // A new root starts from a clean layout and re-frames the view.
        ActionV::SetGraphRoot(r) => TabV {
            nav: NavV::Graph,
            graph: GraphV {
                root: Some(r),
                dragging: None,
                expanded: Set::empty(),
                selected: Some(r),
                framed: false,
                ..t.graph
            },
            ..t
        },
        ActionV::SetGraphDepth(d) => TabV { graph: GraphV { depth: clamp_depth(d), ..t.graph }, ..t },
        ActionV::GraphFit => TabV { graph: GraphV { framed: false, ..t.graph }, ..t },
        ActionV::GraphDragStart(k) => TabV { graph: GraphV { dragging: Some(k), ..t.graph }, ..t },
        ActionV::GraphDragEnd => TabV { graph: GraphV { dragging: None, ..t.graph }, ..t },
        ActionV::GraphSelect(x) => TabV { graph: GraphV { selected: x, ..t.graph }, ..t },
        // The column is about to get much taller, so the view re-frames.
        ActionV::GraphExpandLevel(l) => TabV {
            graph: GraphV { expanded: t.graph.expanded.insert(l), framed: false, ..t.graph },
            ..t
        },
        ActionV::GraphMenuFor(k) => TabV { graph: GraphV { menu_for: k, ..t.graph }, ..t },
        ActionV::GraphResetLayout => TabV {
            graph: GraphV { dragging: None, expanded: Set::empty(), framed: false, ..t.graph },
            ..t
        },
        ActionV::ConsumeScroll => TabV { scroll_to: None, ..t },
        ActionV::SetGraphDir(d) => TabV { graph: GraphV { dir: d, ..t.graph }, ..t },
        ActionV::ToggleGraphImports => TabV {
            graph: GraphV { show_imports: !t.graph.show_imports, ..t.graph },
            ..t
        },
        _ => t,
    }
}

/// What applying an action does to the session.
pub open spec fn apply_spec(s: SessionV, a: ActionV) -> SessionV {
    if is_tab_action(a) {
        on_tab(s, |t: TabV| tab_effect(t, a))
    } else {
        match a {
            ActionV::GoNewTab(n) => session_new_tab(s, n),
            ActionV::NewTab(n) => session_new_tab(s, n),
            ActionV::GotoNewTab(addr) => on_tab(
                session_new_tab(s, NavV::Segment(addr.segment)),
                |t: TabV| tab_goto(t, addr.offset),
            ),
            ActionV::CloseTab(i) => session_close(s, i),
            ActionV::SelectTab(i) => SessionV {
                active: if i < s.tabs.len() - 1 {
                    i
                } else {
                    (s.tabs.len() - 1) as usize
                },
                ..s
            },
            ActionV::Status(m) => SessionV { status: m, ..s },
            ActionV::SetNavFilter(f) => SessionV { nav_filter: f, ..s },
            ActionV::SetGotoText(f) => SessionV { goto_text: f, ..s },
            ActionV::SetPaletteText(f) => SessionV {
                palette_text: f,
                palette_sel: 0,
                palette_scroll: true,
                ..s
            },
            ActionV::PaletteMove(d) => SessionV {
                palette_sel: if s.palette_sel + d < 0 {
                    0
                } else {
                    (s.palette_sel + d) as usize
                },
                palette_scroll: true,
                ..s
            },
            ActionV::PaletteScrolled => SessionV { palette_scroll: false, ..s },
            ActionV::ToggleNavigator => SessionV { show_navigator: !s.show_navigator, ..s },
            ActionV::ToggleInspector => SessionV { show_inspector: !s.show_inspector, ..s },
            ActionV::ToggleBytes => SessionV { show_bytes: !s.show_bytes, ..s },
            ActionV::ShowGoto => SessionV {
                goto_open: true,
                palette_open: false,
                focus_input: true,
                ..s
            },
            ActionV::ShowPalette => SessionV {
                palette_open: true,
                goto_open: false,
                palette_sel: 0,
                palette_scroll: true,
                focus_input: true,
                ..s
            },
            ActionV::Dismiss => SessionV {
                goto_open: false,
                palette_open: false,
                rename_at: None,
                error: None,
                ..s
            },
            ActionV::SetRenameText(f) => SessionV { rename_text: f, ..s },
            _ => s,
        }
    }
}

/// Whether an action can be applied: choosing a tab needs one to choose,
/// and moving the palette's highlight must stay within `i32`.
pub open spec fn can_apply(s: SessionV, a: ActionV) -> bool {
    match a {
        ActionV::SelectTab(_) => s.tabs.len() > 0,
        ActionV::PaletteMove(d) => s.palette_sel <= i32::MAX && s.palette_sel + d <= i32::MAX,
        _ => true,
    }
}


/// The views a tab visits: going to a different view.
fn tab_go_exec(t: &mut Tab, nav: Nav)
    ensures
        final(t)@ == tab_go(old(t)@, nav@),
{
    if t.nav.same(&nav) {
        return;
    }
    let mut cur = nav;
    std::mem::swap(&mut t.nav, &mut cur);
    t.history.push(cur);
    t.forward.clear();
    t.sel = None;
    t.filter = String::new();
    assert(navs_view(t.history@) =~= navs_view(old(t).history@).push(old(t).nav@));
    assert(navs_view(t.forward@) =~= Seq::<NavV>::empty());
}

fn tab_back_exec(t: &mut Tab)
    ensures
        final(t)@ == tab_back(old(t)@),
{
    match t.history.pop() {
        Some(prev) => {
            let mut cur = prev;
            std::mem::swap(&mut t.nav, &mut cur);
            t.forward.push(cur);
            t.sel = None;
            assert(navs_view(t.history@) =~= navs_view(old(t).history@).drop_last());
            assert(navs_view(t.forward@) =~= navs_view(old(t).forward@).push(old(t).nav@));
        },
        None => {},
    }
}

fn tab_forward_exec(t: &mut Tab)
    ensures
        final(t)@ == tab_forward(old(t)@),
{
    match t.forward.pop() {
        Some(next) => {
            let mut cur = next;
            std::mem::swap(&mut t.nav, &mut cur);
            t.history.push(cur);
            t.sel = None;
            assert(navs_view(t.forward@) =~= navs_view(old(t).forward@).drop_last());
            assert(navs_view(t.history@) =~= navs_view(old(t).history@).push(old(t).nav@));
        },
        None => {},
    }
}

/// The session's state: every open tab and the panels and dialogs around
/// them.
#[derive(Debug)]
pub struct Session {
    pub tabs: Vec<Tab>,
    pub active: usize,
    /// How many documents are open; tabs index into them.
    pub docs: usize,
    pub error: Option<String>,
    pub status: String,
    pub nav_filter: String,
    pub show_inspector: bool,
    pub show_navigator: bool,
    pub show_bytes: bool,
    pub goto_open: bool,
    pub goto_text: String,
    pub palette_open: bool,
    pub palette_text: String,
    pub palette_sel: usize,
    /// Set when the highlighted palette row must be scrolled into view.
    pub palette_scroll: bool,
    /// Address the rename box is editing, if it is open.
    pub rename_at: Option<(u16, u32)>,
    pub rename_text: String,
    /// Set while a dialog wants keyboard focus on its text field.
    pub focus_input: bool,
}

/// Every tab as a value.
pub open spec fn tabs_view(v: Seq<Tab>) -> Seq<TabV> {
    v.map_values(|t: Tab| t@)
}

impl View for Session {
    type V = SessionV;

    open spec fn view(&self) -> SessionV {
        SessionV {
            tabs: tabs_view(self.tabs@),
            active: self.active,
            docs: self.docs,
            error: opt_view(self.error),
            status: self.status@,
            nav_filter: self.nav_filter@,
            show_inspector: self.show_inspector,
            show_navigator: self.show_navigator,
            show_bytes: self.show_bytes,
            goto_open: self.goto_open,
            goto_text: self.goto_text@,
            palette_open: self.palette_open,
            palette_text: self.palette_text@,
            palette_sel: self.palette_sel,
            palette_scroll: self.palette_scroll,
            rename_at: self.rename_at,
            rename_text: self.rename_text@,
            focus_input: self.focus_input,
        }
    }
}

impl Session {
    /// A session with nothing open.
    pub fn new() -> (r: Session)
        ensures
            r@.tabs.len() == 0,
            r@.active == 0,
            r@.docs == 0,
            r@.status == "no file loaded"@,
            r@.show_inspector && r@.show_navigator && r@.show_bytes,
            !r@.goto_open && !r@.palette_open && r@.palette_sel == 0,
            r@.error is None && r@.rename_at is None && !r@.focus_input,
    {
        let r = Session {
            tabs: Vec::new(),
            active: 0,
            docs: 0,
            error: None,
            status: owned("no file loaded"),
            nav_filter: String::new(),
            show_inspector: true,
            show_navigator: true,
            show_bytes: true,
            goto_open: false,
            goto_text: String::new(),
            palette_open: false,
            palette_text: String::new(),
            palette_sel: 0,
            palette_scroll: false,
            rename_at: None,
            rename_text: String::new(),
            focus_input: false,
        };
        assert(tabs_view(r.tabs@) =~= Seq::<TabV>::empty());
        r
    }

    /// The index of the tab being shown.
    pub fn current(&self) -> (r: usize)
        requires
            self.tabs@.len() > 0,
        ensures
            r as int == current(self@),
    {
        if self.active < self.tabs.len() {
            self.active
        } else {
            self.tabs.len() - 1
        }
    }

    /// The tab being shown, if any.
    pub fn tab(&self) -> (r: Option<&Tab>)
        ensures
            match r {
                Some(t) => self@.tabs.len() > 0 && t@ == self@.tabs[current(self@)],
                None => self@.tabs.len() == 0,
            },
    {
        if self.tabs.len() == 0 {
            None
        } else {
            Some(&self.tabs[self.current()])
        }
    }

    /// What the tab being shown is showing, or the overview when nothing is.
    pub fn nav(&self) -> (r: Nav)
        ensures
            r@ == (if self@.tabs.len() == 0 {
                NavV::Overview
            } else {
                self@.tabs[current(self@)].nav
            }),
    {
        match self.tab() {
            Some(t) => t.nav.clone(),
            None => Nav::Overview,
        }
    }

    /// Take out the tab being shown, to change it.
    fn take_tab(&mut self) -> (r: (usize, Tab))
        requires
            old(self)@.tabs.len() > 0,
        ensures
            r.0 as int == current(old(self)@),
            r.1@ == old(self)@.tabs[current(old(self)@)],
            final(self).tabs@ == old(self).tabs@.remove(r.0 as int),
            final(self)@ == (SessionV { tabs: final(self)@.tabs, ..old(self)@ }),
    {
        let i = self.current();
        let t = self.tabs.remove(i);
        (i, t)
    }

    /// Put back a tab taken out with `take_tab`.
    fn put_tab(&mut self, i: usize, t: Tab, Ghost(before): Ghost<SessionV>)
        requires
            i as int == current(before),
            before.tabs.len() > 0,
            tabs_view(old(self).tabs@) == before.tabs.remove(i as int),
            old(self)@ == (SessionV { tabs: old(self)@.tabs, ..before }),
        ensures
            final(self)@ == (SessionV { tabs: before.tabs.update(i as int, t@), ..before }),
    {
        assert(0 <= current(before) < before.tabs.len());
        assert(tabs_view(self.tabs@).len() == self.tabs@.len());
        assert(self.tabs@.len() == before.tabs.len() - 1);
        let ghost old_tabs = self.tabs@;
        self.tabs.insert(i, t);
        assert forall|j: int| 0 <= j < before.tabs.len() implies tabs_view(self.tabs@)[j]
            == before.tabs.update(i as int, t@)[j] by {
            if j < i {
                assert(self.tabs@[j] == old_tabs[j]);
                assert(tabs_view(old_tabs)[j] == before.tabs.remove(i as int)[j]);
            } else if j > i {
                assert(self.tabs@[j] == old_tabs[j - 1]);
                assert(tabs_view(old_tabs)[j - 1] == before.tabs.remove(i as int)[j - 1]);
            }
        }
        assert(tabs_view(self.tabs@) =~= before.tabs.update(i as int, t@));
    }
}


/// Whether an action opens, closes or chooses a tab.
pub open spec fn is_tabs_action(a: ActionV) -> bool {
    match a {
        ActionV::GoNewTab(_) | ActionV::NewTab(_) | ActionV::GotoNewTab(_) | ActionV::CloseTab(_)
        | ActionV::SelectTab(_) => true,
        _ => false,
    }
}

fn is_tabs_action_exec(a: &Action) -> (r: bool)
    ensures
        r == is_tabs_action(a@),
{
    match a {
        Action::GoNewTab(_) | Action::NewTab(_) | Action::GotoNewTab(_) | Action::CloseTab(_)
        | Action::SelectTab(_) => true,
        _ => false,
    }
}

/// Whether an action only changes the tab being shown.
fn is_tab_action_exec(a: &Action) -> (r: bool)
    ensures
        r == is_tab_action(a@),
{
    match a {
        Action::Go(_) | Action::Goto(_) | Action::SegTab(_) | Action::Select(_) | Action::Back
        | Action::Forward | Action::SetViewFilter(_) | Action::SetGraphRoot(_)
        | Action::SetGraphDepth(_) | Action::GraphFit | Action::GraphDragStart(_)
        | Action::GraphDragEnd | Action::GraphSelect(_) | Action::GraphExpandLevel(_)
        | Action::GraphMenuFor(_) | Action::GraphResetLayout | Action::ConsumeScroll
        | Action::SetGraphDir(_) | Action::ToggleGraphImports => true,
        _ => false,
    }
}

/// Apply an action that only changes one tab.
fn edit_tab(t: &mut Tab, a: Action)
    requires
        is_tab_action(a@),
    ensures
        final(t)@ == tab_effect(old(t)@, a@),
{
    match a {
        Action::Go(n) => tab_go_exec(t, n),
        Action::Goto(addr) => {
            tab_go_exec(t, Nav::Segment(addr.segment));
            t.seg_tab = SegTab::Disasm;
            t.scroll_to = Some(addr.offset);
            t.sel = Some(addr.offset);
        },
        Action::SegTab(st) => {
            t.seg_tab = st;
            t.sel = None;
        },
        Action::Select(off) => {
            t.sel = Some(off);
        },
        Action::Back => tab_back_exec(t),
        Action::Forward => tab_forward_exec(t),
        Action::SetViewFilter(f) => {
            t.filter = f;
        },
        Action::SetGraphRoot(r) => {
            t.nav = Nav::Graph;
            t.graph.root = Some(r);
            t.graph.dragging = None;
            t.graph.expanded = HashSet::new();
            t.graph.selected = Some(r);
            t.graph.framed = false;
        },
        Action::SetGraphDepth(d) => {
            t.graph.depth = if d < 1 {
                1
            } else if d > 4 {
                4
            } else {
                d
            };
        },
        Action::GraphFit => {
            t.graph.framed = false;
        },
        Action::GraphDragStart(k) => {
            t.graph.dragging = Some(k);
        },
        Action::GraphDragEnd => {
            t.graph.dragging = None;
        },
        Action::GraphSelect(x) => {
            t.graph.selected = x;
        },
        Action::GraphExpandLevel(l) => {
            broadcast use vstd::std_specs::hash::group_hash_axioms;

            t.graph.expanded.insert(l);
            t.graph.framed = false;
        },
        Action::GraphMenuFor(k) => {
            t.graph.menu_for = k;
        },
        Action::GraphResetLayout => {
            t.graph.dragging = None;
            t.graph.expanded = HashSet::new();
            t.graph.framed = false;
        },
        Action::ConsumeScroll => {
            t.scroll_to = None;
        },
        Action::SetGraphDir(d) => {
            t.graph.dir = d;
        },
        Action::ToggleGraphImports => {
            t.graph.show_imports = !t.graph.show_imports;
        },
        _ => {},
    }
}

impl Session {
    /// Open a new tab on `nav` in the document the current tab shows.
    fn new_tab(&mut self, nav: Nav)
        ensures
            final(self)@ == session_new_tab(old(self)@, nav@),
    {
        if self.tabs.len() == 0 {
            return;
        }
        let doc = self.tabs[self.current()].doc;
        let t = Tab::new(doc, nav);
        self.tabs.push(t);
        self.active = self.tabs.len() - 1;
        assert(tabs_view(self.tabs@) =~= tabs_view(old(self).tabs@).push(t@));
    }

    /// Close tab `i`.
    fn close_tab(&mut self, i: usize)
        ensures
            final(self)@ == session_close(old(self)@, i),
    {
        if i >= self.tabs.len() {
            return;
        }
        let doc = self.tabs[i].doc;
        self.tabs.remove(i);
        assert(tabs_view(self.tabs@) =~= tabs_view(old(self).tabs@).remove(i as int));
        if i < self.active || self.active >= self.tabs.len() {
            self.active = if self.active > 0 {
                self.active - 1
            } else {
                0
            };
        }
        if self.tabs.len() == 0 && doc < self.docs {
            self.tabs.push(Tab::new(doc, Nav::Overview));
            self.active = 0;
            assert(tabs_view(self.tabs@) =~= seq![tab_new(doc, NavV::Overview)]);
        }
    }

    /// Apply an action that only changes the tab being shown.
    fn apply_to_tab(&mut self, a: Action)
        requires
            is_tab_action(a@),
        ensures
            final(self)@ == apply_spec(old(self)@, a@),
    {
        let ghost before = self@;
        if self.tabs.len() == 0 {
            return;
        }
        let (i, mut t) = self.take_tab();
        assert(tabs_view(self.tabs@) =~= before.tabs.remove(i as int));
        edit_tab(&mut t, a);
        self.put_tab(i, t, Ghost(before));
    }

    /// Apply one action.
    pub fn apply(&mut self, a: Action)
        requires
            can_apply(old(self)@, a@),
        ensures
            final(self)@ == apply_spec(old(self)@, a@),
    {
        if is_tab_action_exec(&a) {
            self.apply_to_tab(a);
        } else {
            self.apply_other(a);
        }
    }

    /// Apply an action that opens, closes or chooses a tab.
    fn apply_to_tabs(&mut self, a: Action)
        requires
            is_tabs_action(a@),
            can_apply(old(self)@, a@),
        ensures
            final(self)@ == apply_spec(old(self)@, a@),
    {
        match a {
            Action::GoNewTab(n) => self.new_tab(n),
            Action::NewTab(n) => self.new_tab(n),
            Action::GotoNewTab(addr) => {
                self.new_tab(Nav::Segment(addr.segment));
                if self.tabs.len() > 0 {
                    let ghost mid = self@;
                    let (i, mut t) = self.take_tab();
                    assert(tabs_view(self.tabs@) =~= mid.tabs.remove(i as int));
                    t.seg_tab = SegTab::Disasm;
                    t.scroll_to = Some(addr.offset);
                    t.sel = Some(addr.offset);
                    self.put_tab(i, t, Ghost(mid));
                }
            },
            Action::CloseTab(i) => self.close_tab(i),
            Action::SelectTab(i) => {
                let last = self.tabs.len() - 1;
                self.active = if i < last {
                    i
                } else {
                    last
                };
            },
            _ => {},
        }
    }

    /// Apply an action that changes more than one tab.
    #[verifier::spinoff_prover]
    fn apply_other(&mut self, a: Action)
        requires
            !is_tab_action(a@),
            can_apply(old(self)@, a@),
        ensures
            final(self)@ == apply_spec(old(self)@, a@),
    {
        if is_tabs_action_exec(&a) {
            self.apply_to_tabs(a);
            return;
        }
        match a {
            Action::Status(m) => {
                self.status = m;
            },
            Action::SetNavFilter(f) => {
                self.nav_filter = f;
            },
            Action::SetGotoText(f) => {
                self.goto_text = f;
            },
            Action::SetPaletteText(f) => {
                self.palette_text = f;
                self.palette_sel = 0;
                self.palette_scroll = true;
            },
            Action::PaletteMove(d) => {
                let moved: i32 = self.palette_sel as i32 + d;
                self.palette_sel = if moved < 0 {
                    0
                } else {
                    moved as usize
                };
                self.palette_scroll = true;
            },
            Action::PaletteScrolled => {
                self.palette_scroll = false;
            },
            Action::ToggleNavigator => {
                self.show_navigator = !self.show_navigator;
            },
            Action::ToggleInspector => {
                self.show_inspector = !self.show_inspector;
            },
            Action::ToggleBytes => {
                self.show_bytes = !self.show_bytes;
            },
            Action::ShowGoto => {
                self.goto_open = true;
                self.palette_open = false;
                self.focus_input = true;
            },
            Action::ShowPalette => {
                self.palette_open = true;
                self.goto_open = false;
                self.palette_sel = 0;
                self.palette_scroll = true;
                self.focus_input = true;
            },
            Action::Dismiss => {
                self.goto_open = false;
                self.palette_open = false;
                self.rename_at = None;
                self.error = None;
            },
            Action::SetRenameText(f) => {
                self.rename_text = f;
            },
            _ => {},
        }
    }
}


/// A session whose active index names a tab, and whose tabs name open
/// documents.
pub open spec fn session_ok(s: SessionV) -> bool {
    &&& (s.tabs.len() == 0 || s.active < s.tabs.len())
    &&& forall|i: int| 0 <= i < s.tabs.len() ==> (#[trigger] s.tabs[i]).doc < s.docs
}

/// Every action keeps the active index on a tab and every tab on an open
/// document.
pub proof fn lemma_apply_keeps_session_ok(s: SessionV, a: ActionV)
    requires
        session_ok(s),
        can_apply(s, a),
    ensures
        session_ok(apply_spec(s, a)),
{
    let r = apply_spec(s, a);
    if is_tab_action(a) {
        if s.tabs.len() > 0 {
            assert forall|i: int| 0 <= i < r.tabs.len() implies (#[trigger] r.tabs[i]).doc
                < r.docs by {
                if i != current(s) {
                    assert(r.tabs[i] == s.tabs[i]);
                }
            }
        }
    } else {
        match a {
            ActionV::GotoNewTab(addr) => {
                let m = session_new_tab(s, NavV::Segment(addr.segment));
                if s.tabs.len() > 0 {
                    assert forall|i: int| 0 <= i < m.tabs.len() implies (#[trigger] m.tabs[i]).doc
                        < m.docs by {
                        if i < s.tabs.len() {
                            assert(m.tabs[i] == s.tabs[i]);
                        }
                    }
                    assert forall|i: int| 0 <= i < r.tabs.len() implies (#[trigger] r.tabs[i]).doc
                        < r.docs by {
                        if i != current(m) {
                            assert(r.tabs[i] == m.tabs[i]);
                        }
                    }
                }
            },
            ActionV::GoNewTab(n) | ActionV::NewTab(n) => {
                if s.tabs.len() > 0 {
                    assert forall|i: int| 0 <= i < r.tabs.len() implies (#[trigger] r.tabs[i]).doc
                        < r.docs by {
                        if i < s.tabs.len() {
                            assert(r.tabs[i] == s.tabs[i]);
                        }
                    }
                }
            },
            ActionV::CloseTab(i) => {
                if i < s.tabs.len() {
                    let rest = s.tabs.remove(i as int);
                    assert forall|j: int| 0 <= j < rest.len() implies (#[trigger] rest[j]).doc
                        < s.docs by {
                        if j < i {
                            assert(rest[j] == s.tabs[j]);
                        } else {
                            assert(rest[j] == s.tabs[j + 1]);
                        }
                    }
                }
            },
            _ => {},
        }
    }
}

/// Going back right after going somewhere returns the tab to where it was,
/// with the place it went to as the one step forward.
pub proof fn lemma_back_undoes_go(s: SessionV, n: NavV)
    requires
        s.tabs.len() > 0,
        s.tabs[current(s)].nav != n,
    ensures
        ({
            let r = apply_spec(apply_spec(s, ActionV::Go(n)), ActionV::Back);
            let before = s.tabs[current(s)];
            let after = r.tabs[current(r)];
            &&& r.tabs.len() == s.tabs.len()
            &&& current(r) == current(s)
            &&& after.nav == before.nav
            &&& after.history == before.history
            &&& after.forward == seq![n]
            &&& forall|i: int| 0 <= i < s.tabs.len() && i != current(s) ==> r.tabs[i] == s.tabs[i]
        }),
{
    let m = apply_spec(s, ActionV::Go(n));
    let t = s.tabs[current(s)];
    let g = tab_go(t, n);
    assert(m.tabs[current(s)] == g);
    assert(current(m) == current(s));
    assert(g.history.drop_last() =~= t.history);
    let r = apply_spec(m, ActionV::Back);
    assert(r.tabs[current(s)] == tab_back(g));
    assert(tab_back(g).forward =~= seq![n]);
}

/// Going forward right after going back undoes it.
pub proof fn lemma_forward_undoes_back(s: SessionV)
    requires
        s.tabs.len() > 0,
        s.tabs[current(s)].history.len() > 0,
    ensures
        ({
            let r = apply_spec(apply_spec(s, ActionV::Back), ActionV::Forward);
            let before = s.tabs[current(s)];
            let after = r.tabs[current(r)];
            &&& r.tabs.len() == s.tabs.len()
            &&& current(r) == current(s)
            &&& after.nav == before.nav
            &&& after.history == before.history
            &&& after.forward == before.forward
            &&& forall|i: int| 0 <= i < s.tabs.len() && i != current(s) ==> r.tabs[i] == s.tabs[i]
        }),
{
    let m = apply_spec(s, ActionV::Back);
    let t = s.tabs[current(s)];
    let b = tab_back(t);
    assert(m.tabs[current(s)] == b);
    assert(current(m) == current(s));
    let r = apply_spec(m, ActionV::Forward);
    assert(r.tabs[current(s)] == tab_forward(b));
    assert(tab_forward(b).history =~= t.history);
    assert(tab_forward(b).forward =~= t.forward);
}

/// Going back right after going forward undoes it.
pub proof fn lemma_back_undoes_forward(s: SessionV)
    requires
        s.tabs.len() > 0,
        s.tabs[current(s)].forward.len() > 0,
    ensures
        ({
            let r = apply_spec(apply_spec(s, ActionV::Forward), ActionV::Back);
            let before = s.tabs[current(s)];
            let after = r.tabs[current(r)];
            &&& r.tabs.len() == s.tabs.len()
            &&& current(r) == current(s)
            &&& after.nav == before.nav
            &&& after.history == before.history
            &&& after.forward == before.forward
        }),
{
    let m = apply_spec(s, ActionV::Forward);
    let t = s.tabs[current(s)];
    let f = tab_forward(t);
    assert(m.tabs[current(s)] == f);
    assert(current(m) == current(s));
    let r = apply_spec(m, ActionV::Back);
    assert(r.tabs[current(s)] == tab_back(f));
    assert(tab_back(f).history =~= t.history);
    assert(tab_back(f).forward =~= t.forward);
}

/// The listing arrow keys move through: the segment shown and its tab,
/// when the tab shows the disassembly or the fixups.
pub open spec fn listing_of(s: SessionV) -> Option<(u16, SegTab)> {
    if s.tabs.len() == 0 {
        None
    } else {
        let t = s.tabs[current(s)];
        match t.nav {
            NavV::Segment(n) => if t.seg_tab == SegTab::Disasm || t.seg_tab == SegTab::Fixups {
                Some((n, t.seg_tab))
            } else {
                None
            },
            _ => None,
        }
    }
}

/// Offsets in increasing order, each once.
pub open spec fn increasing(v: Seq<u32>) -> bool {
    forall|i: int, j: int| 0 <= i < j < v.len() ==> v[i] < v[j]
}

/// The row the selection is on: where `sel` occurs among `offsets`, or the
/// first row when it is not there.
pub open spec fn row_of(offsets: Seq<u32>, sel: Option<u32>) -> int {
    match sel {
        Some(s) => if offsets.contains(s) {
            choose|i: int| 0 <= i < offsets.len() && offsets[i] == s
        } else {
            0
        },
        None => 0,
    }
}

/// `x` held to `lo..=hi`.
pub open spec fn clamp_int(x: int, lo: int, hi: int) -> int {
    if x < lo {
        lo
    } else if x > hi {
        hi
    } else {
        x
    }
}

/// Moving the selection by `delta` rows of `offsets`: the new row is held
/// to the listing, and the listing scrolls to it.
pub open spec fn session_move(s: SessionV, offsets: Seq<u32>, delta: int) -> SessionV {
    if listing_of(s) is None || offsets.len() == 0 {
        s
    } else {
        let t = s.tabs[current(s)];
        let next = clamp_int(row_of(offsets, t.sel) + delta, 0, offsets.len() - 1);
        let off = offsets[next];
        SessionV {
            tabs: s.tabs.update(current(s), TabV { sel: Some(off), scroll_to: Some(off), ..t }),
            ..s
        }
    }
}

/// Bringing a tab to the front to show `nav`: a different view is pushed
/// onto its history, which drops the forward list and the selection.
pub open spec fn tab_focus(t: TabV, nav: NavV) -> TabV {
    if t.nav == nav {
        t
    } else {
        TabV {
            nav,
            history: t.history.push(t.nav),
            forward: Seq::empty(),
            sel: None,
            ..t
        }
    }
}

/// Tab `i` is one of document `doc` showing `nav`, when `nav` is given.
pub open spec fn tab_matches(tabs: Seq<TabV>, doc: usize, nav: Option<NavV>, i: int) -> bool {
    0 <= i < tabs.len() && tabs[i].doc == doc && (nav matches Some(n) ==> tabs[i].nav == n)
}

/// The first tab of document `doc`, showing `nav` when it is given.
pub open spec fn first_tab(tabs: Seq<TabV>, doc: usize, nav: Option<NavV>) -> Option<int> {
    if exists|i: int| #[trigger] tab_matches(tabs, doc, nav, i) {
        Some(
            choose|i: int|
                #[trigger] tab_matches(tabs, doc, nav, i) && forall|j: int|
                    0 <= j < i ==> !#[trigger] tab_matches(tabs, doc, nav, j),
        )
    } else {
        None
    }
}

/// Activating an existing tab of `doc`: one already on `nav` if there is
/// one, else the first of the document, moved to `nav`.
pub open spec fn session_focus(s: SessionV, doc: usize, nav: Option<NavV>) -> Option<SessionV> {
    let exact = match nav {
        Some(_) => first_tab(s.tabs, doc, nav),
        None => None,
    };
    let pick = match exact {
        Some(i) => Some(i),
        None => first_tab(s.tabs, doc, None),
    };
    match pick {
        Some(i) => Some(
            SessionV {
                active: i as usize,
                tabs: match nav {
                    Some(n) => s.tabs.update(i, tab_focus(s.tabs[i], n)),
                    None => s.tabs,
                },
                ..s
            },
        ),
        None => None,
    }
}

proof fn lemma_first_tab(tabs: Seq<TabV>, doc: usize, nav: Option<NavV>)
    ensures
        match first_tab(tabs, doc, nav) {
            Some(i) => tab_matches(tabs, doc, nav, i) && forall|j: int|
                0 <= j < i ==> !tab_matches(tabs, doc, nav, j),
            None => forall|j: int| !tab_matches(tabs, doc, nav, j),
        },
{
    if exists|i: int| #[trigger] tab_matches(tabs, doc, nav, i) {
        let w = choose|i: int| #[trigger] tab_matches(tabs, doc, nav, i);
        lemma_least(tabs, doc, nav, w);
    }
}

proof fn lemma_least(tabs: Seq<TabV>, doc: usize, nav: Option<NavV>, w: int)
    requires
        tab_matches(tabs, doc, nav, w),
    ensures
        exists|i: int|
            #[trigger] tab_matches(tabs, doc, nav, i) && forall|j: int|
                0 <= j < i ==> !#[trigger] tab_matches(tabs, doc, nav, j),
    decreases w,
{
    if exists|j: int| 0 <= j < w && #[trigger] tab_matches(tabs, doc, nav, j) {
        let j = choose|j: int| 0 <= j < w && #[trigger] tab_matches(tabs, doc, nav, j);
        lemma_least(tabs, doc, nav, j);
    } else {
        assert(forall|j: int| 0 <= j < w ==> !#[trigger] tab_matches(tabs, doc, nav, j));
    }
}

/// An optional view as a value.
pub open spec fn nav_view(n: Option<&Nav>) -> Option<NavV> {
    match n {
        Some(v) => Some(v@),
        None => None,
    }
}

/// Where `x` occurs in the increasing offsets, if anywhere.
fn search(offsets: &Vec<u32>, x: u32) -> (r: Option<usize>)
    requires
        increasing(offsets@),
    ensures
        match r {
            Some(i) => i < offsets.len() && offsets@[i as int] == x,
            None => !offsets@.contains(x),
        },
{
    let mut lo: usize = 0;
    let mut hi: usize = offsets.len();
    while lo < hi
        invariant
            lo <= hi <= offsets.len(),
            increasing(offsets@),
            forall|i: int| 0 <= i < lo ==> offsets@[i] < x,
            forall|i: int| hi <= i < offsets.len() ==> offsets@[i] > x,
        decreases hi - lo,
    {
        let mid = lo + (hi - lo) / 2;
        let v = offsets[mid];
        if v == x {
            return Some(mid);
        } else if v < x {
            lo = mid + 1;
        } else {
            hi = mid;
        }
    }
    None
}

impl Session {
    /// The listing arrow keys move through, if the tab shows one.
    pub fn listing(&self) -> (r: Option<(u16, SegTab)>)
        ensures
            r == listing_of(self@),
    {
        match self.tab() {
            None => None,
            Some(t) => match t.nav {
                Nav::Segment(n) => match t.seg_tab {
                    SegTab::Disasm => Some((n, SegTab::Disasm)),
                    SegTab::Fixups => Some((n, SegTab::Fixups)),
                    _ => None,
                },
                _ => None,
            },
        }
    }

    /// Move the listing selection by whole rows, for arrow-key navigation;
    /// `offsets` are the rows of the listing the tab shows.
    pub fn move_selection(&mut self, offsets: &Vec<u32>, delta: i32)
        requires
            increasing(offsets@),
            offsets.len() <= i32::MAX,
            old(self)@.tabs.len() > 0 ==> row_of(offsets@, old(self)@.tabs[current(old(self)@)].sel)
                + delta <= i32::MAX,
        ensures
            final(self)@ == session_move(old(self)@, offsets@, delta as int),
    {
        let ghost before = self@;
        if self.listing().is_none() || offsets.len() == 0 {
            return;
        }
        let (i, mut t) = self.take_tab();
        assert(tabs_view(self.tabs@) =~= before.tabs.remove(i as int));
        let cur: usize = match t.sel {
            Some(s) => match search(offsets, s) {
                Some(k) => k,
                None => 0,
            },
            None => 0,
        };
        proof {
            if let Some(s) = t.sel {
                if offsets@.contains(s) {
                    let k = choose|k: int| 0 <= k < offsets@.len() && offsets@[k] == s;
                    if k != cur as int {
                        if k < cur {
                            assert(offsets@[k] < offsets@[cur as int]);
                        } else {
                            assert(offsets@[cur as int] < offsets@[k]);
                        }
                    }
                }
            }
            assert(cur as int == row_of(offsets@, before.tabs[current(before)].sel));
        }
        let step = (cur as i32) + delta;
        let last = (offsets.len() as i32) - 1;
        let next = if step < 0 {
            0
        } else if step > last {
            last
        } else {
            step
        };
        let off = offsets[next as usize];
        t.sel = Some(off);
        t.scroll_to = Some(off);
        self.put_tab(i, t, Ghost(before));
    }

    /// The first tab of document `doc`, showing `nav` when it is given.
    fn find_tab(&self, doc: usize, nav: Option<&Nav>) -> (r: Option<usize>)
        ensures
            match first_tab(self@.tabs, doc, nav_view(nav)) {
                Some(i) => r == Some(i as usize),
                None => r is None,
            },
    {
        proof {
            lemma_first_tab(self@.tabs, doc, nav_view(nav));
        }
        let mut k: usize = 0;
        while k < self.tabs.len()
            invariant
                k <= self.tabs.len(),
                forall|j: int| 0 <= j < k ==> !tab_matches(self@.tabs, doc, nav_view(nav), j),
            decreases self.tabs.len() - k,
        {
            let ok = self.tabs[k].doc == doc && match nav {
                Some(n) => self.tabs[k].nav.same(n),
                None => true,
            };
            proof {
                assert(self@.tabs[k as int] == self.tabs@[k as int]@);
            }
            if ok {
                proof {
                    assert(tab_matches(self@.tabs, doc, nav_view(nav), k as int));
                    lemma_first_tab(self@.tabs, doc, nav_view(nav));
                    let f = first_tab(self@.tabs, doc, nav_view(nav)).unwrap();
                    if f < k {
                        assert(!tab_matches(self@.tabs, doc, nav_view(nav), f));
                    }
                }
                return Some(k);
            }
            k = k + 1;
        }
        proof {
            lemma_first_tab(self@.tabs, doc, nav_view(nav));
        }
        None
    }

    /// Activate an existing tab showing `doc`, preferring one already on
    /// `nav`. False when there is none. Opening something already open takes
    /// you to it; only an explicit gesture adds a tab.
    pub fn focus_tab(&mut self, doc: usize, nav: Option<&Nav>) -> (r: bool)
        ensures
            match session_focus(old(self)@, doc, nav_view(nav)) {
                Some(s) => r && final(self)@ == s,
                None => !r && final(self)@ == old(self)@,
            },
    {
        match self.focus_target(doc, nav) {
            None => false,
            Some(i) => {
                self.bring_forward(i, nav);
                true
            },
        }
    }

    /// The tab `focus_tab` brings forward, if any.
    fn focus_target(&self, doc: usize, nav: Option<&Nav>) -> (r: Option<usize>)
        ensures
            match session_focus(self@, doc, nav_view(nav)) {
                Some(s) => r matches Some(i) && i < self@.tabs.len() && s == (SessionV {
                    active: i,
                    tabs: match nav_view(nav) {
                        Some(n) => self@.tabs.update(i as int, tab_focus(self@.tabs[i as int], n)),
                        None => self@.tabs,
                    },
                    ..self@
                }),
                None => r is None,
            },
    {
        let ghost nv = nav_view(nav);
        let exact = match nav {
            Some(_) => self.find_tab(doc, nav),
            None => None,
        };
        let any = self.find_tab(doc, None);
        proof {
            lemma_first_tab(self@.tabs, doc, nv);
            lemma_first_tab(self@.tabs, doc, None);
            assert(self@.tabs.len() == self.tabs.len());
            assert(nav_view(None::<&Nav>) == None::<NavV>);
        }
        match exact {
            Some(e) => {
                proof {
                    assert(nv is Some);
                    assert(first_tab(self@.tabs, doc, nv) == Some(e as int));
                    assert(tab_matches(self@.tabs, doc, nv, e as int));
                }
                Some(e)
            },
            None => {
                proof {
                    if let Some(a) = any {
                        assert(tab_matches(self@.tabs, doc, None, a as int));
                    }
                }
                any
            },
        }
    }

    /// Make tab `i` active, moved to `nav` when one is given.
    fn bring_forward(&mut self, i: usize, nav: Option<&Nav>)
        requires
            i < old(self)@.tabs.len(),
        ensures
            final(self)@ == (SessionV {
                active: i,
                tabs: match nav_view(nav) {
                    Some(n) => old(self)@.tabs.update(i as int, tab_focus(old(self)@.tabs[i as int], n)),
                    None => old(self)@.tabs,
                },
                ..old(self)@
            }),
    {
        self.active = i;
        if let Some(n) = nav {
            let ghost mid = self@;
            let (j, mut t) = self.take_tab();
            assert(j == i);
            assert(tabs_view(self.tabs@) =~= mid.tabs.remove(j as int));
            if !t.nav.same(n) {
                let cur = t.nav.clone();
                t.nav = n.clone();
                t.history.push(cur);
                t.forward.clear();
                t.sel = None;
                proof {
                    assert(navs_view(t.history@) =~= mid.tabs[j as int].history.push(
                        mid.tabs[j as int].nav,
                    ));
                    assert(navs_view(t.forward@) =~= Seq::<NavV>::empty());
                }
            }
            self.put_tab(j, t, Ghost(mid));
        }
    }
}

/// An offset as typed: hexadecimal, any `0x` (then `0X`) prefixes passed
/// over after trimming.
pub open spec fn offset_value(s: Seq<char>) -> Option<nat> {
    match parse_uint(strip_prefixes(strip_prefixes(trim(s), "0x"@), "0X"@), 16, u32::MAX as nat) {
        Ok(v) => Some(v),
        Err(_) => None,
    }
}

/// A segment number as typed: any `seg` prefixes passed over after
/// trimming, then decimal, or failing that hexadecimal.
pub open spec fn segment_value(s: Seq<char>) -> Option<nat> {
    let t = strip_prefixes(trim(s), "seg"@);
    match parse_uint(t, 10, u16::MAX as nat) {
        Ok(v) => Some(v),
        Err(_) => match parse_uint(t, 16, u16::MAX as nat) {
            Ok(v) => Some(v),
            Err(_) => None,
        },
    }
}

/// The first function, among those from `i` on, whose label or name is
/// `t` in any case.
pub open spec fn named_fn(fs: Seq<(Seq<char>, Seq<char>, Addr)>, t: Seq<char>, i: int) -> Option<Addr>
    decreases fs.len() - i,
{
    if i < 0 || i >= fs.len() {
        None
    } else if lower(fs[i].0) == lower(t) || lower(fs[i].1) == lower(t) {
        Some(fs[i].2)
    } else {
        named_fn(fs, t, i + 1)
    }
}

/// Where typed text points: `seg:offset`, a bare offset in the segment
/// shown, or a function by its label or its name. `funcs` lists each
/// function's label, name and address, and is `None` with no document.
pub open spec fn resolve_spec(
    text: Seq<char>,
    nav: NavV,
    funcs: Option<Seq<(Seq<char>, Seq<char>, Addr)>>,
) -> Option<Addr> {
    match funcs {
        None => None,
        Some(fs) => {
            let t = trim(text);
            let p = find_char(t, ':');
            if p < t.len() {
                match (segment_value(t.take(p)), offset_value(t.skip(p + 1))) {
                    (Some(sg), Some(o)) => Some(Addr { segment: sg as u16, offset: o as u32 }),
                    _ => None,
                }
            } else {
                match (nav, offset_value(t)) {
                    (NavV::Segment(sg), Some(o)) => Some(Addr { segment: sg, offset: o as u32 }),
                    _ => named_fn(fs, t, 0),
                }
            }
        },
    }
}

fn offset_of(s: &[char]) -> (r: Option<u32>)
    ensures
        match offset_value(s@) {
            Some(v) => r == Some(v as u32) && v <= u32::MAX,
            None => r is None,
        },
{
    let t = trim_chars(s);
    let a = strip_prefixes_chars(&t, &chars_of("0x"));
    let b = strip_prefixes_chars(&a, &chars_of("0X"));
    proof {
        crate::numparse::lemma_parse_bounded(b@, 16, u32::MAX as nat);
    }
    match parse_radix(&b, 16, 0xFFFF_FFFF) {
        Ok(v) => Some(v as u32),
        Err(_) => None,
    }
}

fn segment_of(s: &[char]) -> (r: Option<u16>)
    ensures
        match segment_value(s@) {
            Some(v) => r == Some(v as u16) && v <= u16::MAX,
            None => r is None,
        },
{
    let t = strip_prefixes_chars(&trim_chars(s), &chars_of("seg"));
    proof {
        crate::numparse::lemma_parse_bounded(t@, 10, u16::MAX as nat);
        crate::numparse::lemma_parse_bounded(t@, 16, u16::MAX as nat);
    }
    match parse_radix(&t, 10, 0xFFFF) {
        Ok(v) => Some(v as u16),
        Err(_) => match parse_radix(&t, 16, 0xFFFF) {
            Ok(v) => Some(v as u16),
            Err(_) => None,
        },
    }
}

/// What the session shows: the current tab's view, or the overview.
pub open spec fn shown_nav(s: SessionV) -> NavV {
    if s.tabs.len() == 0 {
        NavV::Overview
    } else {
        s.tabs[current(s)].nav
    }
}

/// The function list, when there is a document.
pub open spec fn fns_opt(f: Option<&Vec<(String, String, Addr)>>) -> Option<
    Seq<(Seq<char>, Seq<char>, Addr)>,
> {
    match f {
        Some(v) => Some(fns_view(v@)),
        None => None,
    }
}

/// Function labels, names and addresses as values.
pub open spec fn fns_view(v: Seq<(String, String, Addr)>) -> Seq<(Seq<char>, Seq<char>, Addr)> {
    v.map_values(|f: (String, String, Addr)| (f.0@, f.1@, f.2))
}

impl Session {
    /// Resolve `seg:offset`, a bare offset in the segment shown, or a
    /// function's label or name. `funcs` lists each function of the
    /// document shown with its label, its name and its address; `None`
    /// means no document is open.
    pub fn resolve(&self, text: &str, funcs: Option<&Vec<(String, String, Addr)>>) -> (r: Option<Addr>)
        ensures
            r == resolve_spec(text@, shown_nav(self@), fns_opt(funcs)),
    {
        let fs = match funcs {
            None => {
                return None;
            },
            Some(f) => f,
        };
        let t = trim_chars(&chars_of(text));
        let p = find_char_in(&t, ':');
        if p < t.len() {
            let mut head: Vec<char> = Vec::new();
            let mut tail: Vec<char> = Vec::new();
            let mut i: usize = 0;
            while i < t.len()
                invariant
                    i <= t.len(),
                    p < t.len(),
                    head@ == t@.take(if i < p { i as int } else { p as int }),
                    tail@ == if i <= p { Seq::<char>::empty() } else { t@.subrange(p + 1, i as int) },
                decreases t.len() - i,
            {
                if i < p {
                    head.push(t[i]);
                } else if i > p {
                    tail.push(t[i]);
                }
                i = i + 1;
                proof {
                    if i <= p {
                        assert(head@ =~= t@.take(i as int));
                    } else if i == p + 1 {
                        assert(tail@ =~= Seq::<char>::empty());
                        assert(t@.subrange(p + 1, i as int) =~= Seq::<char>::empty());
                    } else {
                        assert(tail@ =~= t@.subrange(p + 1, i as int));
                    }
                }
            }
            assert(tail@ =~= t@.skip(p + 1));
            let sg = segment_of(&head);
            let off = offset_of(&tail);
            return match (sg, off) {
                (Some(a), Some(b)) => Some(Addr { segment: a, offset: b }),
                _ => None,
            };
        }
        let nav = self.nav();
        assert(nav@ == shown_nav(self@));
        if let Nav::Segment(sg) = nav {
            if let Some(off) = offset_of(&t) {
                return Some(Addr { segment: sg, offset: off });
            }
        }
        let ts = string_of(&t);
        let mut k: usize = 0;
        assert(resolve_spec(text@, shown_nav(self@), fns_opt(funcs)) == named_fn(fns_view(fs@), t@, 0));
        while k < fs.len()
            invariant
                k <= fs.len(),
                ts@ == t@,
                resolve_spec(text@, shown_nav(self@), fns_opt(funcs)) == named_fn(fns_view(fs@), t@, 0),
                named_fn(fns_view(fs@), t@, 0) == named_fn(fns_view(fs@), t@, k as int),
            decreases fs.len() - k,
        {
            let hit = eq_ignore_ascii_case(fs[k].0.as_str(), ts.as_str()) || eq_ignore_ascii_case(
                fs[k].1.as_str(),
                ts.as_str(),
            );
            proof {
                assert(fns_view(fs@)[k as int] == (fs@[k as int].0@, fs@[k as int].1@, fs@[k as int].2));
            }
            if hit {
                return Some(fs[k].2);
            }
            k = k + 1;
        }
        None
    }
}

/// Showing document `doc`: an existing tab of it is brought forward (moved
/// to `nav` when one is given), else a new tab on `nav`, or on the overview,
/// is opened and made active.
pub open spec fn session_show(s: SessionV, doc: usize, nav: Option<NavV>) -> SessionV {
    match session_focus(s, doc, nav) {
        Some(t) => t,
        None => SessionV {
            tabs: s.tabs.push(
                tab_new(
                    doc,
                    match nav {
                        Some(n) => n,
                        None => NavV::Overview,
                    },
                ),
            ),
            active: s.tabs.len() as usize,
            ..s
        },
    }
}

impl Session {
    /// Show document `doc`, on `nav` when one is given: opening something
    /// already open takes you to it.
    pub fn open_view(&mut self, doc: usize, nav: Option<&Nav>)
        requires
            old(self).tabs.len() < usize::MAX,
        ensures
            final(self)@ == session_show(old(self)@, doc, nav_view(nav)),
    {
        let ghost before = self@;
        if !self.focus_tab(doc, nav) {
            let n = match nav {
                Some(n) => n.clone(),
                None => Nav::Overview,
            };
            let t = Tab::new(doc, n);
            let ghost tv = t@;
            self.tabs.push(t);
            self.active = self.tabs.len() - 1;
            proof {
                assert(tabs_view(self.tabs@) =~= before.tabs.push(tv));
            }
        }
    }
}

proof fn lemma_show_has_tab(s: SessionV, doc: usize, nav: Option<NavV>)
    ensures
        session_show(s, doc, nav).tabs.len() > 0,
        session_show(s, doc, nav).tabs.len() >= s.tabs.len(),
{
    lemma_first_tab(s.tabs, doc, nav);
    lemma_first_tab(s.tabs, doc, None);
}

/// The listing of a tab moved to `off`: the disassembly, with `off`
/// selected and scrolled to.
pub open spec fn tab_land(t: TabV, off: u32) -> TabV {
    TabV { seg_tab: SegTab::Disasm, sel: Some(off), scroll_to: Some(off), ..t }
}

/// Opening a module at one of its exports: its tab on the export's segment,
/// the listing at the export; or its overview when the export is unknown.
pub open spec fn session_at_export(s: SessionV, doc: usize, export: Option<Addr>) -> SessionV {
    match export {
        Some(a) => {
            let shown = session_show(s, doc, Some(NavV::Segment(a.segment)));
            SessionV {
                tabs: shown.tabs.update(current(shown), tab_land(shown.tabs[current(shown)], a.offset)),
                ..shown
            }
        },
        None => session_show(s, doc, Some(NavV::Overview)),
    }
}

impl Session {
    /// Show document `doc` at an export of it: the export's segment, with
    /// the listing on the export, or the overview when there is none.
    #[verifier::spinoff_prover]
    #[verifier::rlimit(30)]
    pub fn open_at_export(&mut self, doc: usize, export: Option<Addr>)
        requires
            old(self).tabs.len() < usize::MAX,
        ensures
            final(self)@ == session_at_export(old(self)@, doc, export),
    {
        let nav = match export {
            Some(a) => Nav::Segment(a.segment),
            None => Nav::Overview,
        };
        let ghost before = self@;
        self.open_view(doc, Some(&nav));
        if let Some(a) = export {
            let ghost mid = self@;
            proof {
                lemma_show_has_tab(before, doc, Some(NavV::Segment(a.segment)));
            }
            let (i, mut t) = self.take_tab();
            assert(tabs_view(self.tabs@) =~= mid.tabs.remove(i as int));
            t.seg_tab = SegTab::Disasm;
            t.sel = Some(a.offset);
            t.scroll_to = Some(a.offset);
            self.put_tab(i, t, Ghost(mid));
        }
    }
}

/// An address as the inspector and the listing show and copy it:
/// `segNN:OOOO`, the segment in decimal and the offset in hexadecimal.
pub open spec fn address_text(a: Addr) -> Seq<char> {
    "seg"@ + decimal_padded(a.segment as nat, 2) + ":"@ + hex_padded(a.offset as nat, 4)
}

/// An address as the inspector and the listing show and copy it.
pub fn address_label(a: Addr) -> (r: String)
    ensures
        r@ == address_text(a),
{
    let mut v = chars_of("seg");
    extend(&mut v, &fmt_decimal_padded(a.segment as u64, 2));
    extend_str(&mut v, ":");
    extend(&mut v, &fmt_hex_padded(a.offset as u64, 4));
    string_of(&v)
}

/// A character of a hexadecimal numeral.
pub open spec fn is_numeral_char(c: char) -> bool {
    ('0' <= c <= '9') || ('A' <= c <= 'F')
}

proof fn lemma_padded_numeral(n: nat, width: nat)
    ensures
        decimal_padded(n, width).len() >= width,
        decimal_padded(n, width).len() >= 1,
        forall|k: int|
            0 <= k < decimal_padded(n, width).len() ==> '0' <= #[trigger] decimal_padded(n, width)[k]
                <= '9',
        hex_padded(n, width).len() >= width,
        hex_padded(n, width).len() >= 1,
        forall|k: int|
            0 <= k < hex_padded(n, width).len() ==> is_numeral_char(#[trigger] hex_padded(n, width)[k]),
{
    lemma_hex_digits(n);
    lemma_decimal_digits(n);
    let (d, h) = (decimal(n), hex(n));
    let (ds, hs) = (decimal_padded(n, width), hex_padded(n, width));
    assert forall|k: int| 0 <= k < ds.len() implies '0' <= #[trigger] ds[k] <= '9' by {
        if d.len() < width {
            let z = (width - d.len()) as int;
            if k >= z {
                assert(ds[k] == d[k - z]);
            }
        }
    }
    assert forall|k: int| 0 <= k < hs.len() implies is_numeral_char(#[trigger] hs[k]) by {
        if h.len() < width {
            let z = (width - h.len()) as int;
            if k >= z {
                assert(hs[k] == h[k - z]);
            }
        }
    }
}

proof fn lemma_numeral_unchanged(s: Seq<char>)
    requires
        s.len() >= 2,
        forall|k: int| 0 <= k < s.len() ==> is_numeral_char(#[trigger] s[k]),
    ensures
        trim(s) == s,
        strip_prefixes(s, "0x"@) == s,
        strip_prefixes(s, "0X"@) == s,
        s[0] != '+' && s[0] != '-',
{
    reveal_strlit("0x");
    reveal_strlit("0X");
    assert(is_numeral_char(s[0]) && is_numeral_char(s[1]) && is_numeral_char(s.last()));
    assert(!is_ws(s[0]));
    assert(trim_start(s) == s);
    assert(!is_ws(s.last()));
    assert(trim_end(s) == s);
    assert(!starts_with(s, "0x"@)) by {
        assert(s.subrange(0, 2)[1] == s[1]);
    }
    assert(!starts_with(s, "0X"@)) by {
        assert(s.subrange(0, 2)[1] == s[1]);
    }
}

/// An address copied from the inspector or the listing and typed into the
/// go-to box leads back to that address, whatever view is showing, as long
/// as a document is open.
pub proof fn lemma_address_round_trip(a: Addr, nav: NavV, fs: Seq<(Seq<char>, Seq<char>, Addr)>)
    ensures
        resolve_spec(address_text(a), nav, Some(fs)) == Some(a),
{
    reveal_strlit("seg");
    reveal_strlit(":");
    let d = decimal_padded(a.segment as nat, 2);
    let h = hex_padded(a.offset as nat, 4);
    lemma_padded_numeral(a.segment as nat, 2);
    lemma_padded_numeral(a.offset as nat, 4);
    lemma_padded_reads_back(a.segment as nat, 2, u16::MAX as nat, false);
    lemma_padded_reads_back(a.offset as nat, 4, u32::MAX as nat, true);
    let t = address_text(a);
    let c: int = 3 + d.len() as int;
    assert(t[0] == 's');
    assert(t.last() == h.last());
    assert(is_numeral_char(h[h.len() - 1]));
    assert(trim_start(t) == t);
    assert(trim_end(t) == t);
    assert(trim(t) == t);
    assert(t[c] == ':');
    lemma_find_char(t, ':');
    assert forall|j: int| 0 <= j < c implies t[j] != ':' by {
        if j >= 3 {
            assert(t[j] == d[j - 3]);
        } else {
            assert(t[j] == "seg"@[j]);
        }
    }
    assert(find_char(t, ':') == c);
    let sp = t.take(c);
    assert(sp =~= "seg"@ + d);
    assert(starts_with(sp, "seg"@)) by {
        assert(sp.subrange(0, 3) =~= "seg"@);
    }
    assert(sp.skip(3) =~= d);
    assert(!starts_with(d, "seg"@)) by {
        assert('0' <= d[0] <= '9');
        if d.len() >= 3 {
            assert(d.subrange(0, 3)[0] == d[0]);
        }
    }
    assert(strip_prefixes(d, "seg"@) == d);
    assert(strip_prefixes(sp, "seg"@) == d);
    lemma_numeral_unchanged(d);
    lemma_numeral_unchanged(h);
    assert(t.skip(c + 1) =~= h);
}

/// Focusing a view that a tab of the document already shows brings the
/// first such tab to the front and changes no tab: every view, history and
/// forward list stays as it was.
pub proof fn lemma_focus_finds_open_view(s: SessionV, doc: usize, n: NavV, i: int)
    requires
        0 <= i < s.tabs.len(),
        s.tabs[i].doc == doc,
        s.tabs[i].nav == n,
        forall|j: int| 0 <= j < i ==> !(s.tabs[j].doc == doc && s.tabs[j].nav == n),
    ensures
        session_focus(s, doc, Some(n)) == Some(SessionV { active: i as usize, ..s }),
{
    lemma_first_tab(s.tabs, doc, Some(n));
    assert(tab_matches(s.tabs, doc, Some(n), i));
    let f = first_tab(s.tabs, doc, Some(n)).unwrap();
    if f < i {
        assert(!tab_matches(s.tabs, doc, Some(n), f));
    }
    if f > i {
        assert(!tab_matches(s.tabs, doc, Some(n), i));
    }
    assert(f == i);
    assert(tab_focus(s.tabs[i], n) == s.tabs[i]);
    assert(s.tabs.update(i, s.tabs[i]) =~= s.tabs);
}

} // verus!
