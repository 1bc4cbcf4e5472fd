use sith::listing::{
    export_status, follow_line, listing_file_name, listing_rows, listing_text, module_missing,
    scroll_top_row, target_action, Row,
    FixupTarget, Follow,
};
use sith::nav::Addr;

#[test]
fn a_fixup_leads_where_its_target_is() {
    let t = FixupTarget::Internal { segment: 2, offset: Some(0x1A40) };
    assert_eq!(target_action(&t, "seg02:1A40"), Follow::Goto(Addr { segment: 2, offset: 0x1A40 }));
    let t = FixupTarget::Entry { segment: 3, offset: 0x10 };
    assert_eq!(target_action(&t, "entry 3"), Follow::Goto(Addr { segment: 3, offset: 0x10 }));
    let t = FixupTarget::ImportOrdinal { module: "USER".to_string(), ordinal: 173 };
    assert_eq!(
        target_action(&t, "USER.173"),
        Follow::OpenModule { module: "USER".to_string(), ordinal: Some(173), name: None }
    );
    let t = FixupTarget::ImportName { module: "MYDLL".to_string(), name: "Init".to_string() };
    assert_eq!(
        target_action(&t, "MYDLL.Init"),
        Follow::OpenModule { module: "MYDLL".to_string(), ordinal: None, name: Some("Init".to_string()) }
    );
}

#[test]
fn an_unknown_offset_shows_the_call_sites() {
    let t = FixupTarget::Internal { segment: 4, offset: None };
    assert_eq!(target_action(&t, "seg04:????"), Follow::Xrefs("seg04:????".to_string()));
    let t = FixupTarget::Other { shown: "OSFIXUP 1".to_string() };
    assert_eq!(target_action(&t, "OSFIXUP 1"), Follow::Xrefs("OSFIXUP 1".to_string()));
}

#[test]
fn following_a_plain_jump_stays_in_the_segment() {
    assert_eq!(follow_line(None, Some(0x44), 7), Some(Follow::Goto(Addr { segment: 7, offset: 0x44 })));
    assert_eq!(follow_line(None, None, 7), None);
    let t = FixupTarget::Entry { segment: 1, offset: 2 };
    assert_eq!(follow_line(Some((&t, "x")), Some(0x44), 7), Some(Follow::Goto(Addr { segment: 1, offset: 2 })));
}

#[test]
fn a_saved_listing_names_its_functions() {
    let rows = vec![
        (0x10u32, "0010  55  push bp".to_string()),
        (0x11u32, "0011  C3  ret".to_string()),
    ];
    let labels = vec![(0x10u32, "sub_0010".to_string()), (0x10u32, "WinMain".to_string())];
    let text = listing_text("CHIPS", 2, 16, &rows, &labels);
    assert_eq!(text, "; CHIPS segment 2 (16-bit)\n\nWinMain:\n0010  55  push bp\n0011  C3  ret\n");
    assert_eq!(listing_file_name("CHIPS", 2), "CHIPS_seg02.asm");
}

#[test]
fn the_status_names_the_export_reached() {
    assert_eq!(export_status("USER", Some("LoadCursor"), 173, 2, 0x75F), "USER.LoadCursor at seg02:075F");
    assert_eq!(export_status("MYDLL", None, 5, 12, 0x10), "MYDLL.@5 at seg12:0010");
    assert_eq!(module_missing("GDI", 3), "GDI is not among the 3 modules found beside this file");
}

#[test]
fn the_listing_puts_a_banner_before_each_function() {
    let offs = vec![0x00, 0x03, 0x05, 0x09];
    let starts = vec![(0x00, 0), (0x05, 1)];
    let (rows, row_of) = listing_rows(&offs, &starts);
    assert_eq!(
        rows,
        vec![Row::Header(0), Row::Insn(0), Row::Insn(1), Row::Header(1), Row::Insn(2), Row::Insn(3)]
    );
    assert_eq!(row_of, vec![1, 2, 4, 5]);
}

#[test]
fn a_scroll_lands_a_few_rows_above_its_target() {
    let offs: Vec<u32> = (0..20).map(|i| i * 2).collect();
    let row_of: Vec<usize> = (0..20).map(|i| i + 1).collect();
    // 0x0B falls between instructions: the next one, at 0x0C, is the seventh.
    assert_eq!(scroll_top_row(&offs, &row_of, 0x0B), 2);
    assert_eq!(scroll_top_row(&offs, &row_of, 0), 0);
    // Past the last instruction the listing goes back to the top.
    assert_eq!(scroll_top_row(&offs, &row_of, 0x100), 0);
}
