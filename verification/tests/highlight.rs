use sith::highlight::{classify_word, highlight_line, is_shouty, line_slice, Tok, WordClass};

fn chars(s: &str) -> Vec<char> {
    s.chars().collect()
}

#[test]
fn a_line_splits_into_classed_pieces() {
    let line = "MENUITEM \"&Open\", 100 ; go";
    let toks = highlight_line(line);
    let kinds: Vec<Tok> = toks.iter().map(|t| t.1).collect();
    assert_eq!(
        kinds,
        vec![
            Tok::Word(WordClass::Keyword),
            Tok::Space,
            Tok::Str,
            Tok::Punct,
            Tok::Space,
            Tok::Word(WordClass::Number),
            Tok::Space,
            Tok::Comment,
        ]
    );
    assert_eq!(toks[2].0, "\"&Open\"");
    assert_eq!(toks[7].0, "; go");
}

#[test]
fn highlighting_keeps_the_text() {
    for line in ["", "  CONTROL \"Cancel\", IDCANCEL, BUTTON", "\"open", "a;b;c", "x = 0x10 + WS_CHILD"] {
        let joined: String = highlight_line(line).iter().map(|t| t.0.as_str()).collect();
        assert_eq!(joined, line);
    }
}

#[test]
fn an_unclosed_string_runs_to_the_end() {
    let toks = highlight_line("CAPTION \"About");
    assert_eq!(toks.last().unwrap().0, "\"About");
    assert_eq!(toks.last().unwrap().1, Tok::Str);
}

#[test]
fn words_are_classed() {
    assert_eq!(classify_word(&chars("MENU"), false), WordClass::Keyword);
    assert_eq!(classify_word(&chars("LTEXT"), true), WordClass::Keyword);
    assert_eq!(classify_word(&chars("LTEXT"), false), WordClass::Plain);
    assert_eq!(classify_word(&chars("BUTTON"), false), WordClass::Class);
    assert_eq!(classify_word(&chars("0x10"), false), WordClass::Number);
    assert_eq!(classify_word(&chars("1234"), false), WordClass::Number);
    assert_eq!(classify_word(&chars("beef"), false), WordClass::Number);
    assert_eq!(classify_word(&chars("WS_CHILD"), false), WordClass::Constant);
    assert_eq!(classify_word(&chars("IDOK"), false), WordClass::Constant);
    assert_eq!(classify_word(&chars("Hello"), false), WordClass::Plain);
}

#[test]
fn shouty_words_have_a_capital() {
    assert!(is_shouty(&chars("WS_1")));
    assert!(!is_shouty(&chars("A")));
    assert!(!is_shouty(&chars("_1")));
    assert!(!is_shouty(&chars("Ab")));
    assert_eq!(line_slice(&chars("hello"), 1, 3), "el");
    assert_eq!(line_slice(&chars("hello"), 3, 99), "lo");
}
