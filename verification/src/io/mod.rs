//! External interface types for JSON I/O.

pub mod common;
pub mod input;
pub mod output;
