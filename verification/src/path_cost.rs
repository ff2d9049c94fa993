//! The objective vector of a path, and Pareto dominance over it.

use vstd::prelude::*;
use crate::bounds::{MAX_STOPS, PATH_TIME_BOUND, TIME_BOUND};
use crate::duration::Duration;
use crate::stop::Stop;
use crate::timestamp::Timestamp;

verus! {

/// The mathematical value of a [`PathCost`].
pub ghost struct PathCostView {
    /// Total time spent riding; lower is better.
    pub total_ride: int,
    /// Total elapsed time from start to last service end; lower is better.
    pub total_time: int,
    /// Number of stops served within a duty; higher is better.
    pub stops_on_duty: int,
    /// Number of stops served; higher is better.
    pub stops: int,
}

/// Whether `a` is at least as good as `b` in every objective.
pub open spec fn cost_le(a: PathCostView, b: PathCostView) -> bool {
    &&& a.total_ride <= b.total_ride
    &&& a.total_time <= b.total_time
    &&& a.stops_on_duty >= b.stops_on_duty
    &&& a.stops >= b.stops
}

/// Pareto dominance: `a` is at least as good as `b` everywhere and strictly
/// better somewhere.
pub open spec fn cost_dominates(a: PathCostView, b: PathCostView) -> bool {
    cost_le(a, b) && !cost_le(b, a)
}

/// The outcome of comparing two costs under the dominance partial order.
#[derive(Debug, Clone, Copy, PartialEq, Eq, Structural)]
pub enum CostOrder {
    /// The first cost strictly dominates the second.
    Less,
    /// The second cost strictly dominates the first.
    Greater,
    /// The two costs are equal in every objective.
    Equal,
    /// Neither cost dominates the other.
    Incomparable,
}

/// A 4-component objective vector for a path. Both counts are stored in a
/// more-is-better orientation.
#[derive(Debug, Clone, Copy)]
pub struct PathCost {
    /// Total time spent riding; lower is better.
    pub total_ride: Duration,
    /// Total elapsed time from start to last service end; lower is better.
    pub total_time: Duration,
    /// Number of stops served within a duty; higher is better.
    pub stops_on_duty: i32,
    /// Number of stops served; higher is better.
    pub stops: i32,
}

impl View for PathCost {
    type V = PathCostView;

    open spec fn view(&self) -> PathCostView {
        PathCostView {
            total_ride: self.total_ride@,
            total_time: self.total_time@,
            stops_on_duty: self.stops_on_duty as int,
            stops: self.stops as int,
        }
    }
}

/// Sum of the ride spans of a stop sequence.
pub open spec fn spec_total_ride(stops: Seq<Stop>) -> int
    decreases stops.len(),
{
    if stops.len() == 0 {
        0
    } else {
        spec_total_ride(stops.drop_last()) + (stops.last().ride_end@ - stops.last().ride_start@)
    }
}

/// How many stops of a sequence carry a duty.
pub open spec fn spec_stops_on_duty(stops: Seq<Stop>) -> int
    decreases stops.len(),
{
    if stops.len() == 0 {
        0
    } else {
        spec_stops_on_duty(stops.drop_last()) + if stops.last().duty is Some {
            1int
        } else {
            0int
        }
    }
}

/// The objective vector of a path that starts at `start_at` and makes the
/// given stops.
pub open spec fn spec_cost(start_at: int, stops: Seq<Stop>) -> PathCostView {
    PathCostView {
        total_ride: spec_total_ride(stops),
        total_time: if stops.len() > 0 {
            stops.last().service_end@ - start_at
        } else {
            0
        },
        stops_on_duty: spec_stops_on_duty(stops),
        stops: stops.len() as int,
    }
}

/// Every ride span of the sequence is a value the ride matrix could hold.
pub open spec fn rides_bounded(stops: Seq<Stop>) -> bool {
    forall|i: int|
        0 <= i < stops.len() ==> 0 <= (#[trigger] stops[i]).ride_end@ - stops[i].ride_start@ <= 2
            * TIME_BOUND
}

impl PathCost {
    /// Recomputes the objective vector from a path's resolved stops.
    pub fn new(start_at: Timestamp, stops: &[Stop]) -> (r: PathCost)
        requires
            stops@.len() <= MAX_STOPS,
            rides_bounded(stops@),
            stops@.len() > 0 ==> -PATH_TIME_BOUND <= start_at@ && -PATH_TIME_BOUND <= stops@.last().service_end@
                <= PATH_TIME_BOUND && start_at@ <= PATH_TIME_BOUND,
        ensures
            r@ == spec_cost(start_at@, stops@),
    {
        let n = stops.len();
        let mut total_ride = Duration::zero();
        let mut stops_on_duty: i32 = 0;
        let mut i: usize = 0;
        while i < n
            invariant
                n == stops@.len() <= MAX_STOPS,
                rides_bounded(stops@),
                i <= n,
                total_ride@ == spec_total_ride(stops@.take(i as int)),
                0 <= total_ride@ <= i * 2 * TIME_BOUND,
                stops_on_duty == spec_stops_on_duty(stops@.take(i as int)),
                0 <= stops_on_duty <= i,
            decreases n - i,
        {
            proof {
                assert(stops@.take(i + 1).drop_last() =~= stops@.take(i as int));
                assert(stops@.take(i + 1).last() == stops@[i as int]);
            }
            let ride = stops[i].ride_end.sub(stops[i].ride_start);
            total_ride = total_ride.add(ride);
            if stops[i].duty.is_some() {
                stops_on_duty += 1;
            }
            i += 1;
        }
        proof {
            assert(stops@.take(n as int) =~= stops@);
        }
        let total_time = if n > 0 {
            stops[n - 1].service_end.sub(start_at)
        } else {
            Duration::zero()
        };
        PathCost { total_ride, total_time, stops_on_duty, stops: n as i32 }
    }

    /// Compares two costs under the dominance partial order: `Less` means
    /// this cost strictly dominates `other`.
    pub fn compare(&self, other: &PathCost) -> (r: CostOrder)
        ensures
            r == CostOrder::Less <==> cost_dominates(self@, other@),
            r == CostOrder::Greater <==> cost_dominates(other@, self@),
            r == CostOrder::Equal <==> self@ == other@,
    {
        let le = self.total_ride.le(other.total_ride) && self.total_time.le(other.total_time)
            && self.stops_on_duty >= other.stops_on_duty && self.stops >= other.stops;
        let ge = other.total_ride.le(self.total_ride) && other.total_time.le(self.total_time)
            && other.stops_on_duty >= self.stops_on_duty && other.stops >= self.stops;
        match (le, ge) {
            (true, true) => CostOrder::Equal,
            (true, false) => CostOrder::Less,
            (false, true) => CostOrder::Greater,
            (false, false) => CostOrder::Incomparable,
        }
    }
}

} // verus!
