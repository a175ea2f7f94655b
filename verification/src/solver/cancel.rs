//! Cooperative cancellation flag for the solver.

use std::sync::atomic::{AtomicI32, Ordering};
use vstd::prelude::*;

verus! {

/// Wraps a borrowed `AtomicI32` that another thread may set to a non-zero
/// value to ask the solver to stop.
pub struct CancelFlag<'a> {
    flag: &'a AtomicI32,
}

impl<'a> CancelFlag<'a> {
    /// The atomic this flag observes.
    pub closed spec fn watched(&self) -> &'a AtomicI32 {
        self.flag
    }

    /// Wraps an existing `AtomicI32` for the solver to observe.
    pub fn new(flag: &'a AtomicI32) -> (c: Self)
        ensures
            c.watched() == flag,
    {
        CancelFlag { flag }
    }

    /// Returns `true` if the watched atomic holds a non-zero value. What it
    /// holds is up to other threads, so nothing is stated of the result.
    pub fn is_cancelled(&self) -> bool {
        self.flag.load(Ordering::Relaxed) != 0
    }
}

} // verus!
