//! Verified core of `sith`, a toolkit for 16-bit Windows NE binaries: the
//! text formatting, argument parsing, key bindings, navigation state and
//! report-building logic, each stated against a mathematical model.

pub mod text;
pub mod style;
pub mod keys;
pub mod icons;
pub mod palette;
pub mod nav;
pub mod order;
pub mod report;
pub mod numparse;
pub mod hexdump;
pub mod resources;
pub mod labels;
pub mod highlight;
pub mod wizard;
pub mod store;
pub mod branches;
pub mod callgraph;
pub mod listing;
pub mod strview;
pub mod navigator;
