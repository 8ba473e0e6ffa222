//! Logical clocks: sources of strictly increasing timestamps.

use vstd::prelude::*;
use crate::error::MvccError;

verus! {

/// A source of timestamps. Every timestamp issued is greater than all issued
/// before it, so no two calls ever observe the same value.
pub trait LogicalClock {
    /// The greatest timestamp issued so far; every later one exceeds it.
    spec fn latest(&self) -> u64;

    /// Whether the timestamp space is used up. A clock that has issued a
    /// timestamp is exhausted exactly when that timestamp is the greatest
    /// there is.
    spec fn exhausted(&self) -> bool;

    /// Whether a call of `now` on this clock can issue `ts` and leave the
    /// clock as `next`. A clock whose steps are fixed says here which they
    /// are; a clock that takes its timestamps from elsewhere admits every
    /// step.
    spec fn ticks_to(&self, ts: u64, next: &Self) -> bool;

    /// Issues the next timestamp, or reports that none is left.
    fn now(&mut self) -> (r: Result<u64, MvccError>)
        ensures
            match r {
                Ok(ts) => {
                    &&& !old(self).exhausted()
                    &&& ts > old(self).latest()
                    &&& final(self).latest() == ts
                    &&& final(self).exhausted() == (ts == u64::MAX)
                    &&& old(self).ticks_to(ts, final(self))
                },
                Err(e) => {
                    &&& old(self).exhausted()
                    &&& e == MvccError::ClockExhausted
                    &&& final(self).latest() == old(self).latest()
                    &&& final(self).exhausted()
                },
            },
    ;
}

/// A clock that counts upwards by one. `ticks` is the timestamp it issued
/// last.
pub struct LocalClock {
    pub ticks: u64,
}

impl LocalClock {
    /// A clock whose first timestamp is 1.
    pub fn new() -> (clock: LocalClock)
        ensures
            clock == (LocalClock { ticks: 0 }),
    {
        LocalClock { ticks: 0 }
    }

    /// A clock that continues after `latest`: its next timestamp is
    /// `latest + 1`, and it is exhausted when `latest` is `u64::MAX`.
    pub fn resume_after(latest: u64) -> (clock: LocalClock)
        ensures
            clock == (LocalClock { ticks: latest }),
    {
        LocalClock { ticks: latest }
    }
}

impl LogicalClock for LocalClock {
    open spec fn latest(&self) -> u64 {
        self.ticks
    }

    open spec fn exhausted(&self) -> bool {
        self.ticks == u64::MAX
    }

    open spec fn ticks_to(&self, ts: u64, next: &Self) -> bool {
        ts == self.ticks + 1 && next.ticks == ts
    }

    fn now(&mut self) -> (r: Result<u64, MvccError>)
        ensures
            r is Err ==> *final(self) == *old(self),
    {
        if self.ticks == u64::MAX {
            Err(MvccError::ClockExhausted)
        } else {
            self.ticks = self.ticks + 1;
            Ok(self.ticks)
        }
    }
}

} // verus!
