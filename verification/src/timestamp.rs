//! Points in time, counted in seconds from a reference midnight.

use vstd::prelude::*;
use crate::duration::Duration;

verus! {

/// Seconds in a minute.
pub const SECS_PER_MINUTE: i64 = 60;

/// Seconds in an hour.
pub const SECS_PER_HOUR: i64 = 3600;

/// Seconds in a day.
pub const SECS_PER_DAY: i64 = 86400;

/// A point in time, represented by the number of seconds since a reference
/// midnight. Values past 24h encode an offset in whole days.
#[derive(Debug, Clone, Copy, PartialEq, Eq, Structural)]
pub struct Timestamp {
    secs: i64,
}

impl View for Timestamp {
    type V = int;

    closed spec fn view(&self) -> int {
        self.secs as int
    }
}

impl Timestamp {
    /// Builds a timestamp from a day offset, hours, minutes and seconds.
    pub fn from_dhms(d: i64, h: i64, m: i64, s: i64) -> (t: Timestamp)
        requires
            -0x8000_0000 <= d <= 0x8000_0000,
            -0x8000_0000 <= h <= 0x8000_0000,
            -0x8000_0000 <= m <= 0x8000_0000,
            -0x8000_0000 <= s <= 0x8000_0000,
        ensures
            t@ == 86400 * d + 3600 * h + 60 * m + s,
    {
        Timestamp { secs: SECS_PER_DAY * d + SECS_PER_HOUR * h + SECS_PER_MINUTE * m + s }
    }

    /// Splits a non-negative timestamp back into day offset, hour, minute and
    /// second components.
    pub fn as_dhms(self) -> (r: (i64, i64, i64, i64))
        requires
            0 <= self@,
        ensures
            r.0 == self@ / 86400,
            r.1 == (self@ / 3600) % 24,
            r.2 == (self@ / 60) % 60,
            r.3 == self@ % 60,
    {
        (
            self.secs / SECS_PER_DAY,
            (self.secs / SECS_PER_HOUR) % 24,
            (self.secs / SECS_PER_MINUTE) % 60,
            self.secs % 60,
        )
    }

    /// The reference origin: midnight of day zero.
    pub fn mock() -> (t: Timestamp)
        ensures
            t@ == 0,
    {
        Timestamp { secs: 0 }
    }

    /// Builds a timestamp directly from a number of seconds since the origin.
    pub fn from_s(s: i64) -> (t: Timestamp)
        ensures
            t@ == s,
    {
        Timestamp { secs: s }
    }

    /// The number of seconds since the origin.
    pub fn as_s(self) -> (s: i64)
        ensures
            s == self@,
    {
        self.secs
    }

    /// This timestamp shifted later by a duration.
    pub fn add(self, rhs: Duration) -> (t: Timestamp)
        requires
            i64::MIN <= self@ + rhs@ <= i64::MAX,
        ensures
            t@ == self@ + rhs@,
    {
        Timestamp { secs: self.secs + rhs.as_s() }
    }

    /// The span from `rhs` to this timestamp.
    pub fn sub(self, rhs: Timestamp) -> (d: Duration)
        requires
            i64::MIN <= self@ - rhs@ <= i64::MAX,
        ensures
            d@ == self@ - rhs@,
    {
        Duration::from_s(self.secs - rhs.secs)
    }

    /// Whether this timestamp is no later than `rhs`.
    pub fn le(self, rhs: Timestamp) -> (r: bool)
        ensures
            r == (self@ <= rhs@),
    {
        self.secs <= rhs.secs
    }

    /// Whether this timestamp is strictly earlier than `rhs`.
    pub fn lt(self, rhs: Timestamp) -> (r: bool)
        ensures
            r == (self@ < rhs@),
    {
        self.secs < rhs.secs
    }
}

/// A timestamp is determined by its integer view.
pub proof fn lemma_timestamp_determined(a: Timestamp, b: Timestamp)
    requires
        a@ == b@,
    ensures
        a == b,
{
}

/// Time arithmetic laws: shifting a timestamp by a duration and measuring the
/// shift back recovers the duration, and consecutive shifts compose by adding
/// the durations. Stated over the integer views that the contracts of
/// [`Timestamp::add`] and [`Timestamp::sub`] are written in.
pub proof fn lemma_time_arithmetic(t: Timestamp, d1: Duration, d2: Duration)
    ensures
        (t@ + d1@) - t@ == d1@,
        (t@ + d1@) + d2@ == t@ + (d1@ + d2@),
{
}

} // verus!
