//! Signed time spans, in whole seconds.

use vstd::prelude::*;

verus! {

/// A signed span of time, counted in whole seconds.
///
/// The zero value is the additive identity; see [`Duration::zero`].
#[derive(Debug, Clone, Copy, PartialEq, Eq, Structural)]
pub struct Duration {
    secs: i64,
}

impl View for Duration {
    type V = int;

    closed spec fn view(&self) -> int {
        self.secs as int
    }
}

impl Duration {
    /// The additive identity.
    pub fn zero() -> (d: Duration)
        ensures
            d@ == 0,
    {
        Duration { secs: 0 }
    }

    /// Builds a duration from a number of seconds.
    pub fn from_s(s: i64) -> (d: Duration)
        ensures
            d@ == s,
    {
        Duration { secs: s }
    }

    /// The number of seconds this duration spans.
    pub fn as_s(self) -> (s: i64)
        ensures
            s == self@,
    {
        self.secs
    }

    /// The sum of two durations.
    pub fn add(self, rhs: Duration) -> (r: Duration)
        requires
            i64::MIN <= self@ + rhs@ <= i64::MAX,
        ensures
            r@ == self@ + rhs@,
    {
        Duration { secs: self.secs + rhs.secs }
    }

    /// The difference of two durations.
    pub fn sub(self, rhs: Duration) -> (r: Duration)
        requires
            i64::MIN <= self@ - rhs@ <= i64::MAX,
        ensures
            r@ == self@ - rhs@,
    {
        Duration { secs: self.secs - rhs.secs }
    }

    /// Whether this duration is no longer than `rhs`.
    pub fn le(self, rhs: Duration) -> (r: bool)
        ensures
            r == (self@ <= rhs@),
    {
        self.secs <= rhs.secs
    }

    /// Whether this duration is strictly shorter than `rhs`.
    pub fn lt(self, rhs: Duration) -> (r: bool)
        ensures
            r == (self@ < rhs@),
    {
        self.secs < rhs.secs
    }

    /// The shorter of two durations.
    pub fn min_of(self, rhs: Duration) -> (r: Duration)
        ensures
            r@ == if self@ <= rhs@ {
                self@
            } else {
                rhs@
            },
    {
        if self.secs <= rhs.secs {
            self
        } else {
            rhs
        }
    }
}

} // verus!
