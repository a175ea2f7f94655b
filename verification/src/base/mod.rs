//! Algorithm-agnostic primitives.

pub mod bitset;
pub mod connectivity;
pub mod rng;
