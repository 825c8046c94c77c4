//! Durations at microsecond granularity.
use vstd::prelude::*;

verus! {

/// A period of time, measured in whole microseconds. Durations are unsigned:
/// there is no negative duration.
#[derive(Clone, Copy, Debug, PartialEq, Eq, Structural, PartialOrd, Ord)]
pub struct Duration {
    us: u64,
}

impl Duration {
    /// The length of this duration in microseconds.
    pub closed spec fn spec_us(self) -> int {
        self.us as int
    }

    /// Create a duration from a number of seconds.
    pub fn sec(s: u64) -> (r: Duration)
        requires
            s * 1_000_000 <= u64::MAX,
        ensures
            r.spec_us() == s * 1_000_000,
    {
        Duration { us: s * 1_000_000 }
    }

    /// Create a duration from a number of milliseconds.
    pub fn msec(ms: u64) -> (r: Duration)
        requires
            ms * 1_000 <= u64::MAX,
        ensures
            r.spec_us() == ms * 1_000,
    {
        Duration { us: ms * 1_000 }
    }

    /// Create a duration from a number of microseconds.
    pub fn usec(us: u64) -> (r: Duration)
        ensures
            r.spec_us() == us,
    {
        Duration { us }
    }

    /// The duration as a whole number of seconds, rounded down.
    pub fn as_sec(self) -> (r: u64)
        ensures
            r == self.spec_us() / 1_000_000,
    {
        self.us / 1_000_000
    }

    /// The duration as a whole number of milliseconds, rounded down.
    pub fn as_msec(self) -> (r: u64)
        ensures
            r == self.spec_us() / 1_000,
    {
        self.us / 1_000
    }

    /// The duration in microseconds.
    pub fn as_usec(self) -> (r: u64)
        ensures
            r == self.spec_us(),
    {
        self.us
    }

    /// Add two durations together.
    pub fn plus(self, rhs: Duration) -> (r: Duration)
        requires
            self.spec_us() + rhs.spec_us() <= u64::MAX,
        ensures
            r.spec_us() == self.spec_us() + rhs.spec_us(),
    {
        Duration { us: self.us + rhs.us }
    }

    /// The absolute difference between two durations; the order of the two does not matter.
    pub fn minus(self, rhs: Duration) -> (r: Duration)
        ensures
            r.spec_us() == if self.spec_us() > rhs.spec_us() {
                self.spec_us() - rhs.spec_us()
            } else {
                rhs.spec_us() - self.spec_us()
            },
    {
        Duration {
            us: if self.us > rhs.us {
                self.us - rhs.us
            } else {
                rhs.us - self.us
            },
        }
    }

    /// What remains of `self` beyond the largest whole multiple of `rhs` not above it.
    pub fn modulo(self, rhs: Duration) -> (r: Duration)
        requires
            rhs.spec_us() > 0,
        ensures
            r.spec_us() == self.spec_us() % rhs.spec_us(),
    {
        Duration { us: self.us % rhs.us }
    }

    /// `self` is strictly shorter than `rhs`.
    pub fn is_before(self, rhs: Duration) -> (r: bool)
        ensures
            r == (self.spec_us() < rhs.spec_us()),
    {
        self.us < rhs.us
    }
}

} // verus!
