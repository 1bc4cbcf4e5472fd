use sith::resources::{
    id_matches, listing_range, resource_file_name, segment_file_name, segment_wanted, type_matches, unique_labels,
    wants_text_file, ResCmd, ResId,
};

fn s(x: &str) -> String {
    x.to_string()
}

#[test]
fn every_subcommand_names_its_file() {
    assert_eq!(ResCmd::List { file: s("a.exe") }.file(), "a.exe");
    assert_eq!(
        ResCmd::Show { file: s("b.dll"), res_type: s("MENU"), id: None }.file(),
        "b.dll"
    );
    assert_eq!(ResCmd::Extract { file: s("c.drv"), outdir: s("out"), raw: true }.file(), "c.drv");
}

#[test]
fn a_type_matches_by_number_or_name() {
    assert!(type_matches(&ResId::Id(4), "MENU", "4"));
    assert!(type_matches(&ResId::Id(4), "MENU", "menu"));
    assert!(!type_matches(&ResId::Id(4), "MENU", "5"));
    assert!(type_matches(&ResId::Name(s("MYDATA")), "MYDATA", "MyData"));
    assert!(!type_matches(&ResId::Name(s("5")), "5x", "5"));
}

#[test]
fn an_id_matches_with_or_without_its_hash() {
    assert!(id_matches(&ResId::Id(7), "#7"));
    assert!(id_matches(&ResId::Id(7), "7"));
    assert!(!id_matches(&ResId::Id(7), "8"));
    assert!(id_matches(&ResId::Name(s("ABOUT")), "about"));
    assert!(id_matches(&ResId::Name(s("ABOUT")), "##About"));
    assert!(!id_matches(&ResId::Name(s("ABOUT")), "abou"));
}

#[test]
fn repeated_labels_are_numbered() {
    let got = unique_labels(&vec![s("a"), s("b"), s("a"), s("a"), s("b")]);
    assert_eq!(got, vec![s("a"), s("b"), s("a_2"), s("a_3"), s("b_2")]);
}

#[test]
fn only_text_resources_get_a_text_file() {
    assert!(wants_text_file(false, Some("MENU\n  POPUP"), Some(4)));
    assert!(wants_text_file(false, Some("x"), None));
    assert!(!wants_text_file(true, Some("MENU"), Some(4)));
    assert!(!wants_text_file(false, Some("  \n"), Some(4)));
    assert!(!wants_text_file(false, None, Some(4)));
    for t in [1u16, 2, 3, 12, 14] {
        assert!(!wants_text_file(false, Some("x"), Some(t)));
    }
}

#[test]
fn segments_extract_under_their_number_and_kind() {
    assert_eq!(segment_file_name(3, "CODE"), "seg03_code.bin");
    assert_eq!(segment_file_name(120, "Data"), "seg120_data.bin");
    assert!(segment_wanted(None, 3, true));
    assert!(segment_wanted(Some(3), 3, true));
    assert!(!segment_wanted(Some(2), 3, true));
    assert!(!segment_wanted(None, 3, false));
}

#[test]
fn a_listing_covers_the_function_or_a_window() {
    assert_eq!(listing_range(Some(0x100), None, None, Some((0x100, 0x180)), 0x1000), (0x100, Some(0x180)));
    assert_eq!(listing_range(Some(0x100), None, None, None, 0x1000), (0x100, Some(0x700)));
    assert_eq!(listing_range(Some(0xF00), None, None, None, 0x1000), (0xF00, Some(0x1000)));
    assert_eq!(listing_range(None, Some(0x20), Some(0x40), None, 0x1000), (0x20, Some(0x40)));
    assert_eq!(listing_range(None, None, None, None, 0x1000), (0, None));
}

#[test]
fn a_saved_resource_is_named_by_its_label() {
    assert_eq!(resource_file_name("CHIPSMENU", "txt", false), "CHIPSMENU.txt");
    assert_eq!(resource_file_name("OBJ32_4", "bmp", true), "OBJ32_4.bin");
}

#[test]
fn a_label_that_reads_as_a_repeat_gets_a_free_name() {
    let got = unique_labels(&vec![s("a"), s("a"), s("a_2")]);
    assert_eq!(got, vec![s("a"), s("a_2"), s("a_2_2")]);
    let got = unique_labels(&vec![s("X"), s("X_2"), s("X")]);
    assert_eq!(got, vec![s("X"), s("X_2"), s("X_3")]);
}
