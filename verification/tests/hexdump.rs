use sith::hexdump::cursor_data;
use sith::hexdump::{dump_title, dump, dump_window};

#[test]
fn a_short_row_is_padded_to_the_gutter() {
    let got = dump(&[0x41, 0x42, 0x00], 0x10);
    let mut want = String::from("00000010  41 42 00 ");
    for _ in 3..8 {
        want.push_str("   ");
    }
    want.push(' ');
    for _ in 8..16 {
        want.push_str("   ");
    }
    want.push_str(" |AB.|\n");
    assert_eq!(got, want);
}

#[test]
fn full_rows_count_up_by_sixteen() {
    let data: Vec<u8> = (0u8..20).collect();
    let got = dump(&data, 0);
    let lines: Vec<&str> = got.lines().collect();
    assert_eq!(lines.len(), 2);
    assert!(lines[0].starts_with("00000000  00 01 02 03 04 05 06 07  08 09 0A 0B 0C 0D 0E 0F  |"));
    assert!(lines[1].starts_with("00000010  10 11 12 13 "));
    assert!(lines[0].ends_with("|................|"));
    assert_eq!(dump(&[], 0), "");
}

#[test]
fn the_window_is_cut_at_the_end() {
    assert_eq!(dump_window(100, Some(10), 256), Some((10, 100)));
    assert_eq!(dump_window(100, None, 5), Some((0, 5)));
    assert_eq!(dump_window(100, Some(100), 5), None);
}

#[test]
fn the_bytes_under_the_cursor_read_every_way() {
    let data = [0x00u8, 0x34, 0x12, 0xFE, 0xFF, 0x41, 0x42, 0x07, 0x43, 0x44];
    let c = cursor_data(&data, 1).unwrap();
    assert_eq!(c.bytes, "34 12 FE FF 41 42 07 43 ");
    assert_eq!(c.byte, "0x34   52");
    assert_eq!(c.word.as_deref(), Some("0x1234   4660"));
    assert_eq!(c.signed.as_deref(), Some("4660"));
    assert_eq!(c.dword.as_deref(), Some("0xFFFE1234   4294840884"));
    assert_eq!(c.far.as_deref(), Some("FFFE:1234"));
    assert_eq!(c.ascii, "4\u{b7}\u{b7}\u{b7}AB\u{b7}C");
    let c = cursor_data(&data, 3).unwrap();
    assert_eq!(c.signed.as_deref(), Some("-2"));
    let c = cursor_data(&data, 9).unwrap();
    assert_eq!(c.bytes, "44 ");
    assert_eq!(c.word, None);
    assert_eq!(c.far, None);
    assert!(cursor_data(&data, 10).is_none());
}

#[test]
fn a_dump_is_titled_with_its_range_in_hex() {
    assert_eq!(dump_title(Some(2), 0x10, 0x30), "segment 2 0x10..0x30");
    assert_eq!(dump_title(None, 0, 0xAB), "file 0x0..0xab");
}
