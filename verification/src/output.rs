//! Result views: retained paths with site names resolved back from
//! identifiers, ready for emission by the surrounding application.

use vstd::prelude::*;
use crate::ids::InternalId;
use crate::path_bag::PathBagItem;
use crate::path_cost::PathCost;
use crate::time_window::BoundedTimeWindow;
use crate::timestamp::Timestamp;
use crate::world::World;

verus! {

/// A finished path, with its start site spelled by name.
#[derive(Debug, Clone)]
pub struct Path {
    /// The name of the site the path starts at.
    pub start_in: String,
    /// The departure time.
    pub start_at: Timestamp,
    /// The scheduled visits, with site names resolved.
    pub stops: Vec<Stop>,
    /// The objective vector.
    pub cost: PathCost,
    /// Whether some other retained path strictly beats this one.
    pub is_dominated: bool,
}

/// A scheduled visit, with its site spelled by name.
#[derive(Debug, Clone)]
pub struct Stop {
    /// The name of the visited site.
    pub site: String,
    /// The duty window chosen for the visit, if any.
    pub duty: Option<BoundedTimeWindow>,
    /// When the ride towards the site leaves the previous position.
    pub ride_start: Timestamp,
    /// When the ride arrives at the site.
    pub ride_end: Timestamp,
    /// When service begins.
    pub service_start: Timestamp,
    /// When service completes.
    pub service_end: Timestamp,
}

impl Stop {
    /// Resolves one scheduled stop's site identifier to its name.
    pub fn new(world: &World, stop: &crate::stop::Stop) -> (r: Stop)
        requires
            world.wf(),
            0 <= stop.site.spec_id() < world.sites@.len(),
        ensures
            r.site@ == world.sites@[stop.site.spec_id()].name@,
            r.duty == stop.duty,
            r.ride_start == stop.ride_start,
            r.ride_end == stop.ride_end,
            r.service_start == stop.service_start,
            r.service_end == stop.service_end,
    {
        let name = world.sites[stop.site.as_usize()].name.clone();
        Stop {
            site: name,
            duty: stop.duty,
            ride_start: stop.ride_start,
            ride_end: stop.ride_end,
            service_start: stop.service_start,
            service_end: stop.service_end,
        }
    }
}

impl Path {
    /// Resolves a retained archive item to the emission view: site names in
    /// place of identifiers, plus whether the item was dominated by another
    /// retained member.
    pub fn new(world: &World, item: &PathBagItem) -> (r: Path)
        requires
            world.wf(),
            item.path.in_world(*world),
        ensures
            r.start_in@ == world.sites@[item.path.start_in.spec_id()].name@,
            r.start_at == item.path.start_at,
            r.stops@.len() == item.path.stops@.len(),
            forall|j: int|
                0 <= j < r.stops@.len() ==> {
                    let s = #[trigger] r.stops@[j];
                    &&& s.site@ == world.sites@[item.path.stops@[j].site.spec_id()].name@
                    &&& s.duty == item.path.stops@[j].duty
                    &&& s.ride_start == item.path.stops@[j].ride_start
                    &&& s.ride_end == item.path.stops@[j].ride_end
                    &&& s.service_start == item.path.stops@[j].service_start
                    &&& s.service_end == item.path.stops@[j].service_end
                },
            r.cost == item.path.cost,
            r.is_dominated == (item.dominated_by > 0),
    {
        let path = &item.path;
        let n = path.stops.len();
        let mut stops: Vec<Stop> = Vec::new();
        let mut j: usize = 0;
        while j < n
            invariant
                world.wf(),
                item.path.in_world(*world),
                n == path.stops@.len(),
                path == &item.path,
                j <= n,
                stops@.len() == j,
                forall|t: int|
                    0 <= t < j ==> {
                        let s = #[trigger] stops@[t];
                        &&& s.site@ == world.sites@[item.path.stops@[t].site.spec_id()].name@
                        &&& s.duty == item.path.stops@[t].duty
                        &&& s.ride_start == item.path.stops@[t].ride_start
                        &&& s.ride_end == item.path.stops@[t].ride_end
                        &&& s.service_start == item.path.stops@[t].service_start
                        &&& s.service_end == item.path.stops@[t].service_end
                    },
            decreases n - j,
        {
            let stop = &path.stops[j];
            stops.push(Stop::new(world, stop));
            j += 1;
        }
        Path {
            start_in: world.sites[path.start_in.as_usize()].name.clone(),
            start_at: path.start_at,
            stops,
            cost: path.cost,
            is_dominated: item.dominated_by > 0,
        }
    }
}

} // verus!
