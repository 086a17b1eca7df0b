//! Spans of time.

use crate::number;
use crate::number::Number;
use vstd::prelude::*;

verus! {

/// A span of time in whole seconds and the nanoseconds beyond them.
#[derive(Debug, Clone, Copy, PartialEq, Eq, Structural)]
pub struct Duration {
    pub secs: u64,
    pub nanos: u32,
}

impl Duration {
    pub open spec fn millis(self) -> nat {
        (self.secs * 1000 + self.nanos / 1_000_000) as nat
    }

    /// The span in seconds: the seconds, and the nanoseconds divided by a
    /// billion, added as binary floating-point numbers.
    pub open spec fn seconds(self) -> Number {
        number::sum(
            number::of_integer(self.secs as nat),
            number::rounded(false, self.nanos as nat, 1_000_000_000),
        )
    }

    pub fn zero() -> (r: Duration)
        ensures
            r == (Duration { secs: 0, nanos: 0 }),
    {
        Duration { secs: 0, nanos: 0 }
    }

    pub fn from_secs(secs: u64) -> (r: Duration)
        ensures
            r == (Duration { secs, nanos: 0 }),
    {
        Duration { secs, nanos: 0 }
    }

    pub fn from_millis(millis: u64) -> (r: Duration)
        ensures
            r.millis() == millis,
            r == (Duration { secs: millis / 1000, nanos: (millis % 1000 * 1_000_000) as u32 }),
    {
        Duration { secs: millis / 1000, nanos: (millis % 1000) as u32 * 1_000_000 }
    }

    pub fn as_millis(self) -> (r: u128)
        ensures
            r == self.millis(),
    {
        self.secs as u128 * 1000 + (self.nanos / 1_000_000) as u128
    }

    pub fn as_secs_number(self) -> (r: Number)
        ensures
            r == self.seconds(),
    {
        let nanos: crate::big::Natural = crate::big::Natural::from_u64(self.nanos as u64);
        let billion: crate::big::Natural = crate::big::Natural::from_u64(1_000_000_000);
        number::plus(
            number::from_u64(self.secs),
            number::round_ratio(false, &nanos, &billion),
        )
    }
}

} // verus!
