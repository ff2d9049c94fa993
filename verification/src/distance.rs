//! Physical distances, in whole metres.

use vstd::prelude::*;

verus! {

/// A distance, counted in whole metres.
#[derive(Debug, Clone, Copy, PartialEq, Eq, Structural)]
pub struct Distance {
    metres: i64,
}

impl View for Distance {
    type V = int;

    closed spec fn view(&self) -> int {
        self.metres as int
    }
}

impl Distance {
    /// Builds a distance from a number of metres.
    pub fn from_m(m: i64) -> (d: Distance)
        ensures
            d@ == m,
    {
        Distance { metres: m }
    }

    /// The number of metres this distance spans.
    pub fn as_m(self) -> (m: i64)
        ensures
            m == self@,
    {
        self.metres
    }
}

} // verus!
