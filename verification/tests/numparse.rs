use sith::numparse::{parse_num, parse_radix, parse_seg_list, toggle_segment, IntError};
use std::collections::BTreeSet;

fn chars(s: &str) -> Vec<char> {
    s.chars().collect()
}

#[test]
fn numbers_read_in_every_notation() {
    assert_eq!(parse_num("0x1F").unwrap(), 31);
    assert_eq!(parse_num("0X1f").unwrap(), 31);
    assert_eq!(parse_num(" 1Fh ").unwrap(), 31);
    assert_eq!(parse_num("1FH").unwrap(), 31);
    assert_eq!(parse_num("42").unwrap(), 42);
    assert_eq!(parse_num("+42").unwrap(), 42);
    assert_eq!(parse_num("4294967295").unwrap(), u32::MAX);
}

#[test]
fn bad_numbers_say_why() {
    let e = parse_num("  0x  ").unwrap_err();
    assert_eq!(e.kind, IntError::Empty);
    assert_eq!(e.text, "0x");
    assert_eq!(parse_num("abc").unwrap_err().kind, IntError::InvalidDigit);
    assert_eq!(parse_num("-5").unwrap_err().kind, IntError::InvalidDigit);
    assert_eq!(parse_num("+").unwrap_err().kind, IntError::InvalidDigit);
    assert_eq!(parse_num("4294967296").unwrap_err().kind, IntError::PosOverflow);
    assert_eq!(parse_num("").unwrap_err().kind, IntError::Empty);
    assert_eq!(parse_num("h").unwrap_err().kind, IntError::Empty);
}

#[test]
fn the_first_bad_character_decides() {
    assert_eq!(parse_radix(&chars("99999999999x"), 10, u32::MAX as u64), Err(IntError::PosOverflow));
    assert_eq!(parse_radix(&chars("9x99999999999"), 10, u32::MAX as u64), Err(IntError::InvalidDigit));
    assert_eq!(parse_radix(&chars("ff"), 16, 0xFF), Ok(255));
    assert_eq!(parse_radix(&chars("100"), 16, 0xFF), Err(IntError::PosOverflow));
}

#[test]
fn segment_lists_keep_what_parses() {
    let got = parse_seg_list(&Some("2, 5,x,,70000, 5".to_string()));
    let want: BTreeSet<u16> = [2, 5].into_iter().collect();
    assert_eq!(got, want);
    assert!(parse_seg_list(&None).is_empty());
}

#[test]
fn toggling_a_segment_twice_restores_the_set() {
    let mut set = parse_seg_list(&Some("2,5".to_string()));
    toggle_segment(&mut set, 3);
    assert_eq!(set.iter().copied().collect::<Vec<u16>>(), vec![2, 3, 5]);
    toggle_segment(&mut set, 3);
    assert_eq!(set.iter().copied().collect::<Vec<u16>>(), vec![2, 5]);
    toggle_segment(&mut set, 5);
    assert_eq!(set.iter().copied().collect::<Vec<u16>>(), vec![2]);
}
