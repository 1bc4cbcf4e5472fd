use sith::nav::{Action, Addr, Nav, Session};
use sith::palette::{
    candidates, session_candidates, marked_chars, pick, score, score_checked, score_is_safe, scope, view_commands, Entry,
    Kind,
};

fn e(kind: Kind, title: &str, tag: u32) -> Entry<u32> {
    Entry { kind, title: title.to_string(), detail: String::new(), action: tag }
}

#[test]
fn a_sigil_scopes_the_query() {
    let (k, rest) = scope("@main");
    assert_eq!(k, Some(Kind::Function));
    assert_eq!(rest.iter().collect::<String>(), "main");
    assert_eq!(scope("main").0, None);
}

#[test]
fn scoring_prefers_prefixes_and_short_names() {
    let (a, hits) = score("MAINWNDPROC", "mwp").unwrap();
    assert_eq!(hits, vec![0, 4, 7]);
    assert!(a > 0);
    assert!(score("MAINWNDPROC", "xyz").is_none());
    assert_eq!(score("anything", ""), Some((0, vec![])));
    let exact = score("Open", "open").unwrap().0;
    let longer = score("Open file", "open").unwrap().0;
    assert!(exact > longer);
    assert_eq!(score_checked("Open", "open").unwrap().0, exact);
    assert!(score_is_safe("Open", "open"));
}

#[test]
fn candidates_rank_best_first_and_keep_entry_order_on_ties() {
    let entries = vec![
        e(Kind::Function, "WinMain", 1),
        e(Kind::Function, "MainWndProc", 2),
        e(Kind::Segment, "Segment 2", 3),
        e(Kind::String, "main menu", 4),
        e(Kind::Function, "zmain", 5),
    ];
    let got = candidates("main", None, entries);
    let order: Vec<u32> = got.iter().map(|c| c.action).collect();
    // "main menu" and "MainWndProc" score the same; the shorter title leads.
    assert_eq!(order, vec![4, 2, 1, 5]);
    assert_eq!(got[0].score, got[1].score);
    for w in got.windows(2) {
        assert!(w[0].score >= w[1].score);
    }
}

#[test]
fn strings_wait_for_a_query_and_sigils_filter_kinds() {
    let entries = vec![e(Kind::String, "hello", 1), e(Kind::Command, "Overview", 2)];
    let got = candidates("", None, entries);
    assert_eq!(got.iter().map(|c| c.action).collect::<Vec<_>>(), vec![2]);
    let entries = vec![e(Kind::String, "hello", 1), e(Kind::Command, "hello", 2)];
    let got = candidates(">hel", None, entries);
    assert_eq!(got.iter().map(|c| c.action).collect::<Vec<_>>(), vec![2]);
}

#[test]
fn an_address_is_offered_first() {
    let entries = vec![e(Kind::Function, "seg1", 1)];
    let got = candidates("1:20", Some(("0001:0020".to_string(), 9)), entries);
    assert_eq!(got[0].action, 9);
    assert_eq!(got[0].title, "Go to 0001:0020");
    assert_eq!(got[0].score, i64::MAX);
    let got = candidates("main", Some(("0001:0020".to_string(), 9)), vec![]);
    assert!(got.is_empty());
}

#[test]
fn the_list_stops_at_three_hundred() {
    let entries: Vec<Entry<u32>> = (0..310).map(|i| e(Kind::Function, &format!("f{i}"), i)).collect();
    assert_eq!(candidates("", None, entries).len(), 300);
}

#[test]
fn choosing_past_the_end_takes_the_last() {
    let entries = vec![e(Kind::Function, "a", 1), e(Kind::Function, "b", 2)];
    assert_eq!(pick(candidates("", None, entries), 7), Some(2));
    let none: Vec<Entry<u32>> = Vec::new();
    assert_eq!(pick(candidates("", None, none), 0), None);
}

#[test]
fn matching_reads_the_query_in_order() {
    assert!(score("MAINWNDPROC", "pwm").is_none());
    let (_, hits) = score("main_wnd_proc", "MWP").unwrap();
    let text: Vec<char> = "main_wnd_proc".chars().collect();
    let marked: String = hits.iter().map(|&i| text[i]).collect();
    assert_eq!(marked, "mwp");
}

#[test]
fn the_view_commands_count_what_the_document_has() {
    let c = view_commands(Some((4, 12)));
    assert_eq!(c.len(), 7);
    assert_eq!(c[1], ("Imports".to_string(), "4 modules".to_string(), Nav::Imports));
    assert_eq!(c[2], ("Exports".to_string(), "12 entry points".to_string(), Nav::Exports));
    assert_eq!(c[6].2, Nav::Xrefs(String::new()));
    let none = view_commands(None);
    assert_eq!(none[1].1, "");
    assert_eq!(none[0].1, "module summary");
}

#[test]
fn the_matched_letters_are_marked() {
    let (_, hits) = score("MAINWNDPROC", "mwp").unwrap();
    let marks = marked_chars("MAINWNDPROC", &hits);
    let shown: String = marks.iter().map(|&(c, m)| if m { c } else { '.' }).collect();
    assert_eq!(shown, "M...W..P...");
}

#[test]
fn hits_are_byte_positions() {
    let (_, hits) = score("\u{e9}a", "a").unwrap();
    assert_eq!(hits, vec![2]);
    let marks = marked_chars("\u{e9}a", &hits);
    assert_eq!(marks, vec![('\u{e9}', false), ('a', true)]);
}

#[test]
fn a_longer_title_never_scores_higher() {
    let (short, short_hits) = score("Load", "lo").unwrap();
    let (long, long_hits) = score("LoadResource", "lo").unwrap();
    assert!(long <= short);
    assert_eq!(long_hits, short_hits);
    let (exact, _) = score("ab", "ab").unwrap();
    let (more, _) = score("abc", "ab").unwrap();
    assert!(more < exact);
}

#[test]
fn a_typed_address_is_offered_first_in_a_session() {
    let s = Session::new();
    let funcs = vec![("WinMain".to_string(), "fn_0001_0010".to_string(), Addr { segment: 1, offset: 0x10 })];
    let entries = vec![Entry {
        kind: Kind::Command,
        title: "seg2 overview".to_string(),
        detail: String::new(),
        action: Action::ShowGoto,
    }];
    let r = session_candidates(&s, " seg2:1A ", Some(&funcs), entries);
    assert_eq!(r[0].title, "Go to seg02:001A");
    assert_eq!(r[0].score, i64::MAX);
    assert!(matches!(r[0].action, Action::Goto(a) if a == Addr { segment: 2, offset: 0x1A }));
    let none = session_candidates(&s, "winmain", None, Vec::new());
    assert!(none.is_empty());
}

#[test]
fn word_starts_score_high_in_a_capitalised_name() {
    assert_eq!(score("MAINWNDPROC", "mwp"), Some((35, vec![0, 4, 7])));
}
