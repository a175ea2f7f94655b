//! Problem-domain types for the Union placement puzzle.

pub mod defs;
pub mod enumerate;
pub mod piece;
pub mod placement;
pub mod walks;
