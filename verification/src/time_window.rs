//! Time windows: spans during which service at a site may occur.

use vstd::prelude::*;
use crate::bounds::TIME_BOUND;
use crate::error::WorldError;
use crate::timestamp::Timestamp;

verus! {

/// A non-empty time window, bounded and inclusive on both sides.
///
/// The invariant `start < end` is enforced at construction; see
/// [`BoundedTimeWindow::try_new`].
#[derive(Debug, Clone, Copy)]
pub struct BoundedTimeWindow {
    /// Inclusive.
    start: Timestamp,
    /// Inclusive.
    end: Timestamp,
}

impl BoundedTimeWindow {
    /// The opening bound, as an integer.
    pub closed spec fn spec_start(self) -> int {
        self.start@
    }

    /// The closing bound, as an integer.
    pub closed spec fn spec_end(self) -> int {
        self.end@
    }

    /// Well-formedness: the window is non-empty and its bounds lie within the
    /// engine's global time limits.
    pub open spec fn wf(self) -> bool {
        &&& self.spec_start() < self.spec_end()
        &&& -TIME_BOUND <= self.spec_start()
        &&& self.spec_end() <= TIME_BOUND
    }

    /// Builds a window, rejecting empty or reversed spans.
    pub fn try_new(start: Timestamp, end: Timestamp) -> (r: Result<BoundedTimeWindow, WorldError>)
        requires
            -TIME_BOUND <= start@,
            end@ <= TIME_BOUND,
        ensures
            r matches Ok(w) ==> w.wf() && w.spec_start() == start@ && w.spec_end() == end@,
            r is Ok <==> start@ < end@,
            r matches Err(e) ==> e == WorldError::EmptyTimeWindow,
    {
        if start.lt(end) {
            Ok(BoundedTimeWindow { start, end })
        } else {
            Err(WorldError::EmptyTimeWindow)
        }
    }

    /// The opening bound.
    pub fn start(&self) -> (t: Timestamp)
        ensures
            t@ == self.spec_start(),
    {
        self.start
    }

    /// The closing bound.
    pub fn end(&self) -> (t: Timestamp)
        ensures
            t@ == self.spec_end(),
    {
        self.end
    }
}

/// A window bounded only from below.
#[derive(Debug, Clone, Copy)]
pub struct LeftBoundedTimeWindow {
    /// Inclusive.
    pub start: Timestamp,
}

/// A window bounded only from above.
#[derive(Debug, Clone, Copy)]
pub struct RightBoundedTimeWindow {
    /// Inclusive.
    pub end: Timestamp,
}

/// A window with no bound on either side.
#[derive(Debug, Clone, Copy)]
pub struct UnboundedTimeWindow;

/// A window with optional bounds on both sides.
#[derive(Debug, Clone)]
pub struct TimeWindow {
    start: Option<Timestamp>,
    end: Option<Timestamp>,
}

} // verus!
