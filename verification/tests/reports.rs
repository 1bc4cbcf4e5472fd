use sith::order::{sorted_names, str_lt, tally};
use sith::report::{collapse_targets, group_imports, import_symbol, resource_summary};

fn s(x: &str) -> String {
    x.to_string()
}

#[test]
fn a_tally_puts_the_busiest_first_and_ties_by_name() {
    let items = vec![(s("b"), 1), (s("a"), 1), (s("b"), 1), (s("c"), 2)];
    assert_eq!(tally(&items), vec![(s("b"), 2), (s("c"), 2), (s("a"), 1)]);
}

#[test]
fn a_tally_of_nothing_is_empty() {
    assert!(tally(&Vec::new()).is_empty());
}

#[test]
fn fixups_collapse_to_one_row_per_target() {
    let targets = vec![s("KERNEL.1"), s("USER.5"), s("KERNEL.1"), s("seg2:0010")];
    assert_eq!(
        collapse_targets(&targets),
        vec![(s("KERNEL.1"), 2), (s("USER.5"), 1), (s("seg2:0010"), 1)]
    );
}

#[test]
fn names_sort_and_lose_their_repeats() {
    let v = vec![s("USER"), s("GDI"), s("USER"), s("KERNEL")];
    assert_eq!(sorted_names(&v), vec![s("GDI"), s("KERNEL"), s("USER")]);
    assert!(str_lt("ab", "abc"));
    assert!(!str_lt("b", "abc"));
}

#[test]
fn imports_group_by_module_with_every_referenced_module() {
    let uses = vec![
        (s("USER"), s("MessageBox"), 0),
        (s("KERNEL"), s("GlobalAlloc @15"), 2),
        (s("USER"), s("MessageBox"), 3),
    ];
    let modules = vec![s("GDI"), s("USER")];
    let g = group_imports(&uses, &modules);
    assert_eq!(
        g,
        vec![
            (s("GDI"), vec![]),
            (s("KERNEL"), vec![(s("GlobalAlloc @15"), 2)]),
            (s("USER"), vec![(s("MessageBox"), 4)]),
        ]
    );
}

#[test]
fn resources_sum_by_type_in_name_order() {
    let res = vec![(s("MENU"), 100), (s("ICON"), 20), (s("MENU"), 50)];
    assert_eq!(resource_summary(&res), vec![(s("ICON"), 1, 20), (s("MENU"), 2, 150)]);
}

#[test]
fn an_ordinal_import_is_listed_with_its_number() {
    assert_eq!(import_symbol(Some("GlobalAlloc"), 15), "GlobalAlloc @15");
    assert_eq!(import_symbol(None, 7), "@7");
}
