//! A duration ceiling that starts out unbounded.
//!
//! The scheduler's running slack is either a finite duration or "no bound
//! yet". `Max` acts as the identity for `min` and is unaffected by
//! subtraction; only a `Value` payload is ever decremented.

use vstd::prelude::*;
use crate::duration::Duration;

verus! {

/// A duration that may instead be an unbounded ceiling.
#[derive(Debug, Clone, Copy)]
pub enum CappedMax {
    /// A finite duration.
    Value(Duration),
    /// No bound.
    Max,
}

impl CappedMax {
    /// The finite payload, if any, as an integer; unbounded values have none.
    pub open spec fn spec_value(self) -> Option<int> {
        match self {
            CappedMax::Value(d) => Some(d@),
            CappedMax::Max => None,
        }
    }

    /// The smaller of this ceiling and a finite duration; `Max` yields the
    /// duration unchanged.
    pub fn min_with(self, value: Duration) -> (r: Duration)
        ensures
            r@ == match self.spec_value() {
                None => value@,
                Some(s) => if s <= value@ {
                    s
                } else {
                    value@
                },
            },
    {
        match self {
            CappedMax::Max => value,
            CappedMax::Value(self_value) => self_value.min_of(value),
        }
    }

    /// The smaller of two ceilings, where `Max` is the identity.
    pub fn min(self, other: CappedMax) -> (r: CappedMax)
        ensures
            r.spec_value() == match (self.spec_value(), other.spec_value()) {
                (None, o) => o,
                (Some(s), None) => Some(s),
                (Some(s), Some(o)) => Some(if s <= o {
                    s
                } else {
                    o
                }),
            },
    {
        match (self, other) {
            (CappedMax::Max, o) => o,
            (CappedMax::Value(s), CappedMax::Max) => CappedMax::Value(s),
            (CappedMax::Value(s), CappedMax::Value(o)) => CappedMax::Value(s.min_of(o)),
        }
    }

    /// Decrements a finite ceiling by `rhs`; `Max` is unaffected.
    pub fn sub(self, rhs: Duration) -> (r: CappedMax)
        requires
            self.spec_value() matches Some(s) ==> i64::MIN <= s - rhs@ <= i64::MAX,
        ensures
            r.spec_value() == match self.spec_value() {
                None => None::<int>,
                Some(s) => Some(s - rhs@),
            },
    {
        match self {
            CappedMax::Max => CappedMax::Max,
            CappedMax::Value(self_value) => CappedMax::Value(self_value.sub(rhs)),
        }
    }
}

} // verus!
