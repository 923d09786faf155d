//! Source locations: byte ranges and the line index used to render them.

pub mod lookup_table;
pub mod span;
