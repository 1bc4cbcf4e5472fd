use sith::strview::{
    filter_hit, fixups_header, strings_copy_text, strings_header, strings_order, StringRow,
};

fn row(segment: u16, offset: u32, text: &str, refs: usize) -> StringRow {
    StringRow { segment, offset, text: text.to_string(), refs }
}

fn rows() -> Vec<StringRow> {
    vec![
        row(2, 0x40, "Hello", 0),
        row(1, 0x10, "Game Over", 2),
        row(1, 0x08, "hello again", 2),
        row(3, 0x00, "Score", 5),
    ]
}

#[test]
fn referenced_strings_come_first() {
    let r = rows();
    assert_eq!(strings_order(&r, ""), vec![3, 2, 1, 0]);
    assert_eq!(strings_header(&r, &strings_order(&r, "")), "4 strings, 3 referenced from code");
}

#[test]
fn the_filter_ignores_case() {
    let r = rows();
    let o = strings_order(&r, "HELLO");
    assert_eq!(o, vec![2, 0]);
    assert_eq!(strings_header(&r, &o), "2 strings, 1 referenced from code");
    assert_eq!(strings_copy_text(&r, &o), "seg01:0008\thello again\nseg02:0040\tHello\n");
    assert!(strings_order(&r, "xyz").is_empty());
}

#[test]
fn the_relocation_list_says_what_it_shows() {
    assert_eq!(fixups_header(12, 40, 3), "12 relocation records \u{2192} 40 patch sites, 3 shown");
    assert!(filter_hit("", "anything"));
    assert!(filter_hit("user.", "USER.LoadCursor"));
    assert!(!filter_hit("gdi", "USER.LoadCursor"));
}
