//! The icon set. Each icon is drawn with the painter on a nominal 16x16 grid;
//! the library names them, the front end draws them.

use vstd::prelude::*;

verus! {

/// A small vector icon.
#[derive(Debug, Clone, Copy, PartialEq, Eq, Structural)]
pub enum Icon {
    Back,
    Forward,
    Target,
    Search,
    Open,
    Reload,
    Save,
    Close,
    Plus,
    Overview,
    Segment,
    Code,
    Data,
    Resource,
    Import,
    Export,
    Entries,
    Strings,
    Graph,
    Xref,
    Module,
}

} // verus!
