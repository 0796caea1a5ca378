//! The sample clock of the sound system.

use vstd::prelude::*;

verus! {

/// The time of the sound system: its sample rate and the number of samples
/// played so far.
pub struct Time {
    pub sample_rate: u32,
    pub tick: u64,
}

/// A clock that moves on by one sample.
pub trait Clock {
    /// The clock can move on without overflowing.
    spec fn can_advance(&self) -> bool;

    fn update(&mut self)
        requires
            old(self).can_advance(),
    ;
}

impl Clock for Time {
    open spec fn can_advance(&self) -> bool {
        self.tick < u64::MAX
    }

    /// Counts one more sample.
    fn update(&mut self)
        ensures
            final(self).tick == old(self).tick + 1,
            final(self).sample_rate == old(self).sample_rate,
    {
        self.tick += 1;
    }
}

} // verus!
