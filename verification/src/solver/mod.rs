//! Solver-specific logic.

pub mod cancel;
pub mod context;
pub mod exact_cover;
pub mod state;
pub mod pruning;
pub mod search;
