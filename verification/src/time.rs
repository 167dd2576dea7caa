//! Monotonic instants with millisecond resolution.
//!
//! The host supplies the current instant to every time-dependent operation;
//! the library itself never reads a clock.

use vstd::prelude::*;

verus! {

/// A point on the host's monotonic clock, in milliseconds.
#[derive(Clone, Copy, Debug, PartialEq, Eq, Structural)]
pub struct Instant {
    pub millis: u64,
}

impl Instant {
    /// Wrap a millisecond reading of the host's monotonic clock.
    pub fn from_millis(millis: u64) -> (r: Instant)
        ensures
            r.millis == millis,
    {
        Instant { millis }
    }

    /// Milliseconds elapsed from `earlier` to `self`, saturating to zero
    /// when `earlier` lies in the future.
    pub fn saturating_duration_since(self, earlier: Instant) -> (r: u64)
        ensures
            earlier.millis <= self.millis ==> r == self.millis - earlier.millis,
            earlier.millis > self.millis ==> r == 0,
    {
        if self.millis >= earlier.millis {
            self.millis - earlier.millis
        } else {
            0
        }
    }
}

} // verus!
