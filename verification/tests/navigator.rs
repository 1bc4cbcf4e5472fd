use sith::navigator::{function_groups, FnEntry};

fn f(segment: u16, named: bool, label: &str, addr: &str) -> FnEntry {
    FnEntry { segment, named, label: label.to_string(), addr: addr.to_string() }
}

fn entries() -> Vec<FnEntry> {
    vec![
        f(2, false, "sub_0200", "seg02:0200"),
        f(1, false, "sub_0010", "seg01:0010"),
        f(2, true, "WndProc", "seg02:0100"),
        f(1, true, "WinMain", "seg01:0000"),
        f(2, true, "About", "seg02:0300"),
    ]
}

#[test]
fn functions_group_by_segment_named_first() {
    let g = function_groups(&entries(), "");
    assert_eq!(g, vec![(1, vec![3, 1]), (2, vec![4, 2, 0])]);
}

#[test]
fn the_filter_matches_labels_and_addresses() {
    let g = function_groups(&entries(), "proc");
    assert_eq!(g, vec![(2, vec![2])]);
    let g = function_groups(&entries(), "SEG01");
    assert_eq!(g, vec![(1, vec![3, 1])]);
    assert!(function_groups(&entries(), "nothing").is_empty());
}
