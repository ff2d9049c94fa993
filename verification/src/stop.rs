//! Scheduled and to-be-scheduled visits.

use vstd::prelude::*;
use crate::ids::{InternalId, SiteId};
use crate::time_window::BoundedTimeWindow;
use crate::timestamp::Timestamp;

verus! {

/// An unscheduled candidate visit: a site and an optional chosen duty.
#[derive(Debug, Clone, Copy)]
pub struct StopSketch {
    /// The site to visit.
    pub site: SiteId,
    /// The duty window chosen for the visit, if any.
    pub duty: Option<BoundedTimeWindow>,
}

/// A scheduled visit: the sketch plus the four resolved timestamps.
#[derive(Debug, Clone, Copy)]
pub struct Stop {
    /// The visited site.
    pub site: SiteId,
    /// The duty window chosen for the visit, if any.
    pub duty: Option<BoundedTimeWindow>,
    /// When the ride towards the site leaves the previous position.
    pub ride_start: Timestamp,
    /// When the ride arrives at the site.
    pub ride_end: Timestamp,
    /// When service begins.
    pub service_start: Timestamp,
    /// When service completes.
    pub service_end: Timestamp,
}

impl Stop {
    /// The unscheduled sketch this stop was resolved from.
    pub fn sketch(&self) -> (r: StopSketch)
        ensures
            r.site == self.site,
            r.duty == self.duty,
    {
        StopSketch { site: self.site, duty: self.duty }
    }

    /// The four timestamps appear in schedule order.
    pub open spec fn ordered(self) -> bool {
        self.ride_start@ <= self.ride_end@ <= self.service_start@ <= self.service_end@
    }

    /// Service completes before the chosen duty closes.
    pub open spec fn within_duty(self) -> bool {
        self.duty matches Some(d) ==> self.service_end@ <= d.spec_end()
    }

    /// All four timestamps lie within `b` of the origin.
    pub open spec fn bounded(self, b: int) -> bool {
        &&& -b <= self.ride_start@
        &&& self.service_end@ <= b
        &&& self.ordered()
    }
}

} // verus!
