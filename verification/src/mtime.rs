//! Musical time: measures and the clock that counts them.

use vstd::prelude::*;

verus! {

/// A measure: beats in a bar, and the note that counts as a beat.
#[derive(Debug, Clone, Copy, PartialEq, Eq)]
pub struct Measure {
    pub beat: u64,
    pub note: u64,
}

/// A clock that moves musical time on by one sample.
pub trait Clock {
    fn inc(&mut self);
}

} // verus!
