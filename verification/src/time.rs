//! Spans of time as plain numbers, so that contracts can speak of them.

use vstd::prelude::*;

verus! {

/// A span of time in nanoseconds. An instant of a monotonic clock is the span
/// since an origin that the caller keeps fixed.
#[derive(Debug, Clone, Copy, PartialEq, Eq, Structural)]
pub struct Duration {
    pub nanos: u128,
}

impl Duration {
    pub open spec fn of_millis(millis: u64) -> Duration {
        Duration { nanos: (millis * 1_000_000) as u128 }
    }

    pub fn from_millis(millis: u64) -> (span: Duration)
        ensures
            span == Duration::of_millis(millis),
            span.nanos == millis * 1_000_000,
    {
        Duration { nanos: millis as u128 * 1_000_000 }
    }

    /// Whole milliseconds, as many as a `u64` counts.
    pub open spec fn millis(self) -> u64 {
        if self.nanos / 1_000_000 > u64::MAX {
            u64::MAX
        } else {
            (self.nanos / 1_000_000) as u64
        }
    }

    pub fn as_millis(&self) -> (millis: u64)
        ensures
            millis == self.millis(),
    {
        let millis: u128 = self.nanos / 1_000_000;
        if millis > u64::MAX as u128 {
            u64::MAX
        } else {
            millis as u64
        }
    }

    pub fn is_zero(&self) -> (zero: bool)
        ensures
            zero == (self.nanos == 0),
    {
        self.nanos == 0
    }
}

} // verus!
