use sith::style::{bold, color_enabled, color_text, cyan, dim, heading, ColorChoice, Flow};

#[test]
fn colour_follows_the_choice_and_the_terminal() {
    assert_eq!(ColorChoice::parse("auto"), Some(ColorChoice::Auto));
    assert_eq!(ColorChoice::parse("always"), Some(ColorChoice::Always));
    assert_eq!(ColorChoice::parse("never"), Some(ColorChoice::Never));
    assert_eq!(ColorChoice::parse("sometimes"), None);
    assert!(color_enabled(ColorChoice::Always, false, true));
    assert!(!color_enabled(ColorChoice::Never, true, false));
    assert!(color_enabled(ColorChoice::Auto, true, false));
    assert!(!color_enabled(ColorChoice::Auto, true, true));
    assert!(!color_enabled(ColorChoice::Auto, false, false));
}

#[test]
fn escapes_wrap_text_only_when_on() {
    assert_eq!(bold(true, "x"), "\x1b[1mx\x1b[0m");
    assert_eq!(bold(false, "x"), "x");
    assert_eq!(dim(true, "y"), "\x1b[2my\x1b[0m");
    assert_eq!(cyan(true, "z"), "\x1b[36mz\x1b[0m");
    assert_eq!(heading(false, "segments"), "== segments");
    assert_eq!(heading(true, "s"), "\x1b[1m== s\x1b[0m");
}

#[test]
fn instructions_are_coloured_by_how_they_leave() {
    assert_eq!(color_text(true, Flow::Call, "call x"), "\x1b[32mcall x\x1b[0m");
    assert_eq!(color_text(true, Flow::CondJump, "jz x"), "\x1b[34mjz x\x1b[0m");
    assert_eq!(color_text(true, Flow::Return, "retf"), "\x1b[35mretf\x1b[0m");
    assert_eq!(color_text(true, Flow::Interrupt, "int 21h"), "\x1b[33mint 21h\x1b[0m");
    assert_eq!(color_text(true, Flow::Invalid, "db"), "\x1b[31mdb\x1b[0m");
    assert_eq!(color_text(true, Flow::Next, "mov"), "mov");
    assert_eq!(color_text(false, Flow::Call, "call x"), "call x");
}
