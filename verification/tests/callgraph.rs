use std::collections::HashSet;
use sith::callgraph::{fn_key, layout, trim_columns, GraphFn, Node};
use sith::nav::{Addr, GraphDir};

fn f(seg: u16, off: u32, label: &str, callees: &[usize], imports: &[&str], callers: &[usize]) -> GraphFn {
    GraphFn {
        addr: Addr { segment: seg, offset: off },
        label: label.to_string(),
        sub: String::new(),
        callees: callees.to_vec(),
        imports: imports.iter().map(|s| s.to_string()).collect(),
        callers: callers.to_vec(),
    }
}

fn graph() -> Vec<GraphFn> {
    vec![
        f(1, 0x10, "main", &[1, 2], &["KERNEL.GlobalAlloc"], &[3]),
        f(1, 0x40, "a", &[2], &[], &[0]),
        f(2, 0x0, "b", &[0], &["USER.MessageBox"], &[0, 1]),
        f(3, 0x1A0, "start", &[0], &[], &[]),
    ]
}

fn summary(nodes: &[Node]) -> Vec<(String, i32)> {
    nodes.iter().map(|n| (n.label.clone(), n.level)).collect()
}

#[test]
fn a_function_key_names_its_address() {
    assert_eq!(fn_key(Addr { segment: 2, offset: 0x1A }), "f02:001A");
    assert_eq!(fn_key(Addr { segment: 123, offset: 0x12345 }), "f123:12345");
}

#[test]
fn callees_spread_right_breadth_first() {
    let nodes = layout(&graph(), 0, 2, GraphDir::Callees, true);
    assert_eq!(
        summary(&nodes),
        vec![
            ("main".to_string(), 0),
            ("a".to_string(), 1),
            ("b".to_string(), 1),
            ("KERNEL.GlobalAlloc".to_string(), 1),
            ("USER.MessageBox".to_string(), 2),
        ]
    );
    assert!(nodes[0].is_root);
    assert!(nodes[3].is_import);
    assert_eq!(nodes[3].key, "iKERNEL.GlobalAlloc");
    assert_eq!(nodes[1].key, "f01:0040");
}

#[test]
fn callers_spread_left_and_imports_can_be_hidden() {
    let nodes = layout(&graph(), 2, 3, GraphDir::Both, false);
    // Every caller of `b` is already placed as a callee, and keeps that level.
    assert_eq!(
        summary(&nodes),
        vec![("b".to_string(), 0), ("main".to_string(), 1), ("a".to_string(), 2)]
    );
    let nodes = layout(&graph(), 0, 2, GraphDir::Callers, true);
    assert_eq!(summary(&nodes), vec![("main".to_string(), 0), ("start".to_string(), -1)]);
}

fn node(label: &str, level: i32, import: bool) -> Node {
    Node {
        key: format!("k{label}"),
        addr: None,
        label: label.to_string(),
        sub: String::new(),
        level,
        is_root: false,
        is_import: import,
        is_overflow: false,
    }
}

#[test]
fn a_crowded_column_keeps_fourteen_and_says_how_many_more() {
    let mut nodes = vec![node("root", 0, false)];
    for i in 0..16 {
        nodes.push(node(&format!("n{i:02}"), 1, i % 2 == 0));
    }
    nodes.push(node("caller", -1, false));
    let got = trim_columns(nodes, &HashSet::new());
    let at_one: Vec<&Node> = got.iter().filter(|n| n.level == 1 && !n.is_overflow).collect();
    assert_eq!(at_one.len(), 14);
    // The module's own functions are kept before imports.
    assert!(at_one.iter().filter(|n| !n.is_import).count() == 8);
    let last = got.last().unwrap();
    assert!(last.is_overflow);
    assert_eq!(last.label, "+2 more");
    assert_eq!(last.key, "o1");
    assert_eq!(last.level, 1);
}

#[test]
fn an_expanded_or_small_column_is_left_alone() {
    let mut nodes = vec![node("root", 0, false)];
    for i in 0..16 {
        nodes.push(node(&format!("n{i:02}"), -3, false));
    }
    let got = trim_columns(nodes, &HashSet::from([-3]));
    assert_eq!(got.len(), 17);
    let mut nodes = vec![node("root", 0, false)];
    for i in 0..16 {
        nodes.push(node(&format!("n{i:02}"), -3, false));
    }
    let got = trim_columns(nodes, &HashSet::new());
    assert_eq!(got.len(), 16);
    assert_eq!(got.last().unwrap().key, "o-3");
}

#[test]
fn a_function_sits_at_its_shortest_call_distance() {
    let g = vec![
        f(1, 0x10, "top", &[1, 3], &[], &[]),
        f(1, 0x20, "mid", &[2], &[], &[0]),
        f(1, 0x30, "low", &[3], &[], &[1]),
        f(1, 0x40, "leaf", &[], &[], &[0, 2]),
    ];
    let nodes = layout(&g, 0, 3, GraphDir::Callees, false);
    assert_eq!(
        summary(&nodes),
        vec![
            ("top".to_string(), 0),
            ("mid".to_string(), 1),
            ("leaf".to_string(), 1),
            ("low".to_string(), 2),
        ]
    );
    // Looking at callers of `leaf`: `top` calls it directly, so it stands
    // at -1 though it also reaches `leaf` through `mid` and `low`.
    let up = layout(&g, 3, 3, GraphDir::Callers, false);
    assert_eq!(
        summary(&up),
        vec![
            ("leaf".to_string(), 0),
            ("top".to_string(), -1),
            ("low".to_string(), -1),
            ("mid".to_string(), -2),
        ]
    );
    // Beyond `depth` a function is left out.
    let near = layout(&g, 0, 1, GraphDir::Callees, false);
    assert_eq!(summary(&near).len(), 3);
}
