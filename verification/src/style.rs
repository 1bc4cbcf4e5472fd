//! Minimal ANSI styling for terminal reports.
//!
//! Colour is switched on or off once per run; every helper takes that choice
//! as its first argument and, when it is off, hands the text back unchanged.

use vstd::prelude::*;
use crate::text::{cat, owned};

verus! {

/// When to colourise output.
#[derive(Debug, Clone, Copy, PartialEq, Eq, Structural)]
pub enum ColorChoice {
    Auto,
    Always,
    Never,
}

impl ColorChoice {
    /// The choice a `--color` argument names: `auto`, `always` or `never`.
    pub fn parse(s: &str) -> (r: Option<ColorChoice>)
        ensures
            r == (if s@ == "auto"@ {
                Some(ColorChoice::Auto)
            } else if s@ == "always"@ {
                Some(ColorChoice::Always)
            } else if s@ == "never"@ {
                Some(ColorChoice::Never)
            } else {
                None
            }),
    {
        if crate::text::str_eq(s, "auto") {
            Some(ColorChoice::Auto)
        } else if crate::text::str_eq(s, "always") {
            Some(ColorChoice::Always)
        } else if crate::text::str_eq(s, "never") {
            Some(ColorChoice::Never)
        } else {
            None
        }
    }
}

/// The text `s` wrapped in the SGR escape `code`.
pub open spec fn escaped(code: Seq<char>, s: Seq<char>) -> Seq<char> {
    "\x1b["@ + code + "m"@ + s + "\x1b[0m"@
}

/// `s` wrapped in the escape `code` when colour is on, and unchanged when off.
pub fn wrap(on: bool, code: &str, s: &str) -> (r: String)
    ensures
        r@ == (if on { escaped(code@, s@) } else { s@ }),
{
    if on {
        let mut out = owned("\x1b[");
        out.append(code);
        out.append("m");
        out.append(s);
        out.append("\x1b[0m");
        out
    } else {
        owned(s)
    }
}

/// Bold text.
pub fn bold(on: bool, s: &str) -> (r: String)
    ensures
        r@ == (if on { escaped("1"@, s@) } else { s@ }),
{
    wrap(on, "1", s)
}

/// Dimmed text.
pub fn dim(on: bool, s: &str) -> (r: String)
    ensures
        r@ == (if on { escaped("2"@, s@) } else { s@ }),
{
    wrap(on, "2", s)
}

/// Red text.
pub fn red(on: bool, s: &str) -> (r: String)
    ensures
        r@ == (if on { escaped("31"@, s@) } else { s@ }),
{
    wrap(on, "31", s)
}

/// Green text.
pub fn green(on: bool, s: &str) -> (r: String)
    ensures
        r@ == (if on { escaped("32"@, s@) } else { s@ }),
{
    wrap(on, "32", s)
}

/// Yellow text.
pub fn yellow(on: bool, s: &str) -> (r: String)
    ensures
        r@ == (if on { escaped("33"@, s@) } else { s@ }),
{
    wrap(on, "33", s)
}

/// Blue text.
pub fn blue(on: bool, s: &str) -> (r: String)
    ensures
        r@ == (if on { escaped("34"@, s@) } else { s@ }),
{
    wrap(on, "34", s)
}

/// Magenta text.
pub fn magenta(on: bool, s: &str) -> (r: String)
    ensures
        r@ == (if on { escaped("35"@, s@) } else { s@ }),
{
    wrap(on, "35", s)
}

/// Cyan text.
pub fn cyan(on: bool, s: &str) -> (r: String)
    ensures
        r@ == (if on { escaped("36"@, s@) } else { s@ }),
{
    wrap(on, "36", s)
}

/// Section heading, printed before each block of a multi-part report.
pub fn heading(on: bool, s: &str) -> (r: String)
    ensures
        r@ == (if on { escaped("1"@, "== "@ + s@) } else { "== "@ + s@ }),
{
    let t = cat("== ", s);
    bold(on, t.as_str())
}

/// Whether a run colours its output: always or never as asked, and under
/// `auto` only when standard output is a terminal and `NO_COLOR` does not
/// ask for plain output (`no_color_set`: it holds a non-empty value).
pub fn color_enabled(choice: ColorChoice, terminal: bool, no_color_set: bool) -> (r: bool)
    ensures
        r == match choice {
            ColorChoice::Always => true,
            ColorChoice::Never => false,
            ColorChoice::Auto => terminal && !no_color_set,
        },
{
    match choice {
        ColorChoice::Always => true,
        ColorChoice::Never => false,
        ColorChoice::Auto => terminal && !no_color_set,
    }
}

/// How an instruction leaves: falls through, jumps, calls, returns,
/// interrupts, or does not decode.
#[derive(Debug, Clone, Copy, PartialEq, Eq, Structural)]
pub enum Flow {
    Next,
    Jump,
    JumpFar,
    JumpIndirect,
    CondJump,
    Call,
    CallFar,
    CallIndirect,
    Return,
    Interrupt,
    Invalid,
}

/// The colour code an instruction's text is shown in, by how it leaves:
/// calls green, jumps blue, returns magenta, interrupts yellow, what does
/// not decode red, and plain fall-through uncoloured.
pub open spec fn flow_code(f: Flow) -> Option<Seq<char>> {
    match f {
        Flow::Call | Flow::CallFar | Flow::CallIndirect => Some("32"@),
        Flow::Jump | Flow::JumpFar | Flow::JumpIndirect | Flow::CondJump => Some("34"@),
        Flow::Return => Some("35"@),
        Flow::Interrupt => Some("33"@),
        Flow::Invalid => Some("31"@),
        Flow::Next => None,
    }
}

/// An instruction's text, coloured by how it leaves.
pub fn color_text(on: bool, flow: Flow, text: &str) -> (r: String)
    ensures
        r@ == match flow_code(flow) {
            Some(c) => if on {
                escaped(c, text@)
            } else {
                text@
            },
            None => text@,
        },
{
    match flow {
        Flow::Call | Flow::CallFar | Flow::CallIndirect => green(on, text),
        Flow::Jump | Flow::JumpFar | Flow::JumpIndirect | Flow::CondJump => blue(on, text),
        Flow::Return => magenta(on, text),
        Flow::Interrupt => yellow(on, text),
        Flow::Invalid => red(on, text),
        Flow::Next => owned(text),
    }
}

} // verus!
