//! The validated world description handed to [`crate::world::World::try_from_json`].
//!
//! These are plain values: whatever layer parses a textual description is
//! responsible for producing them. Site names are still strings here; the
//! constructed world replaces them with compact identifiers.

use vstd::prelude::*;
use crate::bounds::TIME_BOUND;
use crate::duration::Duration;
use crate::site::Visit;
use crate::time_window::BoundedTimeWindow;
use crate::timestamp::Timestamp;

verus! {

/// The description of one site.
#[derive(Debug)]
pub struct Site {
    /// Unique display name.
    pub name: String,
    /// Reachable site name, with the ride duration to it. A name listed
    /// twice keeps its last duration.
    pub ride_durations: Vec<(String, Duration)>,
    /// Duty windows during which service may occur.
    pub duties: Vec<BoundedTimeWindow>,
    /// Time consumed once service begins.
    pub service_time: Duration,
    /// Whether finished paths must have visited this site.
    pub visit: Visit,
    /// Whether a path may start at this site.
    pub can_start_here: bool,
}

/// The description of a whole world.
#[derive(Debug)]
pub struct World {
    /// The sites, in identifier order.
    pub sites: Vec<Site>,
    /// Earliest permissible departure.
    pub min_start_at: Timestamp,
    /// Hard deadline for path completion, if any.
    pub max_end_at: Option<Timestamp>,
    /// Branching cap per extension step.
    pub max_tested_extensions: usize,
    /// Capacity of each path archive.
    pub max_bag_items: usize,
}

impl Site {
    /// Well-formedness: service time, duties and ride durations within the
    /// engine's global limits.
    pub open spec fn wf(self) -> bool {
        &&& 0 <= self.service_time@ <= TIME_BOUND
        &&& forall|i: int| 0 <= i < self.duties@.len() ==> (#[trigger] self.duties@[i]).wf()
        &&& forall|k: int|
            0 <= k < self.ride_durations@.len() ==> 0 <= (#[trigger] self.ride_durations@[k]).1@
                <= TIME_BOUND
    }
}

impl World {
    /// Well-formedness: few enough sites to identify compactly, and all time
    /// values within the engine's global limits.
    pub open spec fn wf(self) -> bool {
        &&& self.sites@.len() <= 256
        &&& forall|i: int| 0 <= i < self.sites@.len() ==> (#[trigger] self.sites@[i]).wf()
        &&& -TIME_BOUND <= self.min_start_at@ <= TIME_BOUND
        &&& self.max_end_at matches Some(t) ==> -TIME_BOUND <= t@ <= TIME_BOUND
        &&& self.max_bag_items <= 0x7fff_ffff
    }

    /// The site names, in order.
    pub open spec fn names(self) -> Seq<Seq<char>> {
        self.sites@.map_values(|s: Site| s.name@)
    }

    /// Every name referenced by a ride duration belongs to some site.
    pub open spec fn rides_resolvable(self) -> bool {
        forall|i: int, k: int|
            0 <= i < self.sites@.len() && 0 <= k < self.sites@[i].ride_durations@.len()
                ==> self.names().contains(
                (#[trigger] self.sites@[i].ride_durations@[k]).0@,
            )
    }
}

/// The duration recorded for `name` in a ride list, where a name listed
/// twice keeps its last duration.
pub open spec fn lookup_ride(rds: Seq<(String, Duration)>, name: Seq<char>) -> Option<int>
    decreases rds.len(),
{
    if rds.len() == 0 {
        None
    } else if rds.last().0@ == name {
        Some(rds.last().1@)
    } else {
        lookup_ride(rds.drop_last(), name)
    }
}

} // verus!
