//! Global magnitude limits for time values.
//!
//! All timestamps and durations handled by the engine are kept within
//! [`TIME_BOUND`] seconds of the origin, and a single schedule holds at most
//! [`MAX_STOPS`] stops. Together these limits guarantee that every
//! intermediate sum computed by the scheduler fits comfortably in an `i64`.

use vstd::prelude::*;

verus! {

/// Largest magnitude, in seconds, of any timestamp or duration accepted by
/// the engine core (about 34,000 years).
pub const TIME_BOUND: i64 = 0x100_0000_0000;

/// Largest number of stops a single schedule may hold.
pub const MAX_STOPS: usize = 0x1_0000;

/// Largest magnitude, in seconds, that a scheduled stop's timestamps can
/// reach: [`TIME_BOUND`] with headroom for [`MAX_STOPS`] accumulated rides,
/// services and shifts.
pub const PATH_TIME_BOUND: i64 = 0x800_0000_0000_0000;

} // verus!
