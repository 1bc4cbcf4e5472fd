use sith::nav::{address_label, Action, Addr, Nav, SegTab, Session};

fn with_tab(doc: usize, nav: Nav) -> Session {
    let mut s = Session::new();
    s.docs = 2;
    s.open_view(doc, Some(&nav));
    s
}

#[test]
fn arrow_keys_move_through_the_listing() {
    let mut s = with_tab(0, Nav::Segment(1));
    let offsets = vec![0x10, 0x14, 0x18, 0x20];
    assert_eq!(s.listing(), Some((1, SegTab::Disasm)));
    s.move_selection(&offsets, 1);
    assert_eq!(s.tab().unwrap().sel, Some(0x14));
    s.move_selection(&offsets, 24);
    assert_eq!(s.tab().unwrap().sel, Some(0x20));
    assert_eq!(s.tab().unwrap().scroll_to, Some(0x20));
    s.move_selection(&offsets, -24);
    assert_eq!(s.tab().unwrap().sel, Some(0x10));
    s.apply(Action::Select(0x99));
    s.move_selection(&offsets, 2);
    assert_eq!(s.tab().unwrap().sel, Some(0x18));
}

#[test]
fn arrows_do_nothing_outside_a_listing() {
    let mut s = with_tab(0, Nav::Overview);
    assert_eq!(s.listing(), None);
    s.move_selection(&vec![1, 2], 1);
    assert_eq!(s.tab().unwrap().sel, None);
}

#[test]
fn opening_something_open_goes_to_it() {
    let mut s = with_tab(0, Nav::Overview);
    s.open_view(1, None);
    assert_eq!(s.tabs.len(), 2);
    assert_eq!(s.current(), 1);
    assert!(s.focus_tab(0, None));
    assert_eq!(s.current(), 0);
    s.open_view(1, Some(&Nav::Imports));
    assert_eq!(s.tabs.len(), 2);
    assert_eq!(s.current(), 1);
    assert_eq!(s.nav(), Nav::Imports);
    assert_eq!(s.tab().unwrap().history, vec![Nav::Overview]);
    assert!(!s.focus_tab(5, None));
}

#[test]
fn typed_addresses_resolve() {
    let s = with_tab(0, Nav::Segment(3));
    let funcs = vec![
        ("WinMain".to_string(), "fn_0001_0010".to_string(), Addr { segment: 1, offset: 0x10 }),
        ("Helper".to_string(), "fn_0002_0000".to_string(), Addr { segment: 2, offset: 0 }),
    ];
    assert_eq!(s.resolve("seg2:1A", Some(&funcs)), Some(Addr { segment: 2, offset: 0x1A }));
    assert_eq!(s.resolve(" 0002 : 0x0010 ", Some(&funcs)), Some(Addr { segment: 2, offset: 0x10 }));
    assert_eq!(s.resolve("0A:10", Some(&funcs)), Some(Addr { segment: 10, offset: 0x10 }));
    assert_eq!(s.resolve("1A40", Some(&funcs)), Some(Addr { segment: 3, offset: 0x1A40 }));
    assert_eq!(s.resolve("winmain", Some(&funcs)), Some(Addr { segment: 1, offset: 0x10 }));
    assert_eq!(s.resolve("FN_0002_0000", Some(&funcs)), Some(Addr { segment: 2, offset: 0 }));
    assert_eq!(s.resolve("nosuch", Some(&funcs)), None);
    assert_eq!(s.resolve("1:zz", Some(&funcs)), None);
    assert_eq!(s.resolve("1:10", None), None);
}

#[test]
fn outside_a_segment_a_number_is_a_name() {
    let s = with_tab(0, Nav::Overview);
    let funcs = vec![("1A40".to_string(), "f".to_string(), Addr { segment: 4, offset: 4 })];
    assert_eq!(s.resolve("1a40", Some(&funcs)), Some(Addr { segment: 4, offset: 4 }));
}

#[test]
fn following_an_import_lands_on_the_export() {
    let mut s = with_tab(0, Nav::Overview);
    s.open_at_export(1, Some(Addr { segment: 3, offset: 0x120 }));
    assert_eq!(s.tabs.len(), 2);
    assert_eq!(s.current(), 1);
    let t = s.tab().unwrap();
    assert_eq!(t.doc, 1);
    assert_eq!(t.nav, Nav::Segment(3));
    assert_eq!(t.seg_tab, SegTab::Disasm);
    assert_eq!(t.sel, Some(0x120));
    assert_eq!(t.scroll_to, Some(0x120));
    // A module already open is reused rather than opened again.
    s.open_at_export(1, None);
    assert_eq!(s.tabs.len(), 2);
    assert_eq!(s.tab().unwrap().nav, Nav::Overview);
}

#[test]
fn a_copied_address_pastes_back() {
    let s = with_tab(0, Nav::Overview);
    let funcs: Vec<(String, String, Addr)> = Vec::new();
    for a in [Addr { segment: 2, offset: 0x1A40 }, Addr { segment: 12, offset: 0x7 }, Addr { segment: 300, offset: 0x12345 }] {
        let text = address_label(a);
        assert_eq!(s.resolve(&text, Some(&funcs)), Some(a));
    }
    assert_eq!(address_label(Addr { segment: 2, offset: 0x1A40 }), "seg02:1A40");
}
