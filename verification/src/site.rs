//! Sites: the places a duty path visits.

use vstd::prelude::*;
use crate::bounds::TIME_BOUND;
use crate::duration::Duration;
use crate::error::WorldError;
use crate::ids::{IdConverter, InternalId, SiteId};
use crate::input;
use crate::time_window::BoundedTimeWindow;

verus! {

/// Whether completing a path requires visiting a site.
#[derive(Debug, Clone, Copy, PartialEq, Eq, Structural)]
pub enum Visit {
    /// The site must be visited by every finished path.
    Always,
    /// The site may be visited.
    Maybe,
    /// The site is never visited.
    Never,
}

/// A place that a path can visit, with its service duties.
#[derive(Debug, Clone)]
pub struct Site {
    /// Compact identifier: the site's position in the world's site list.
    pub id: SiteId,
    /// Display name, unique within a world.
    pub name: String,
    /// Time windows during which service at this site may occur.
    pub duties: Vec<BoundedTimeWindow>,
    /// Time consumed once service begins.
    pub service_time: Duration,
    /// Whether finished paths must have visited this site.
    pub visit: Visit,
    /// Whether a path may start at this site.
    pub can_start_here: bool,
}

impl Site {
    /// Whether every finished path must have visited this site.
    pub open spec fn must_visit(self) -> bool {
        self.visit == Visit::Always
    }

    /// Well-formedness: a non-negative, bounded service time and well-formed
    /// duties.
    pub open spec fn wf(self) -> bool {
        &&& 0 <= self.service_time@ <= TIME_BOUND
        &&& forall|i: int| 0 <= i < self.duties@.len() ==> (#[trigger] self.duties@[i]).wf()
    }

    /// Turns a site description into a site, resolving its name to the
    /// identifier the given table assigns it.
    pub fn try_from_json(sites: &IdConverter<SiteId>, input: input::Site) -> (r: Result<
        Site,
        WorldError,
    >)
        requires
            sites.wf(),
        ensures
            r matches Ok(s) ==> {
                &&& 0 <= s.id.spec_id() < sites.names().len()
                &&& sites.names()[s.id.spec_id()] == input.name@
                &&& s.name@ == input.name@
                &&& s.duties@ == input.duties@
                &&& s.service_time == input.service_time
                &&& s.visit == input.visit
                &&& s.can_start_here == input.can_start_here
            },
            r is Ok <==> sites.names().contains(input.name@),
            r matches Err(e) ==> e == WorldError::UnknownSiteName,
    {
        let id = match sites.get(input.name.as_str()) {
            Ok(id) => id,
            Err(e) => {
                return Err(e);
            },
        };
        Ok(
            Site {
                id,
                name: input.name,
                duties: input.duties,
                service_time: input.service_time,
                visit: input.visit,
                can_start_here: input.can_start_here,
            },
        )
    }

    /// A blank site: no duties, zero service time, must be visited, cannot
    /// start a path.
    pub fn mock() -> (s: Site)
        ensures
            s.wf(),
            s.id.spec_id() == 0,
            s.name@ == Seq::<char>::empty(),
            s.duties@.len() == 0,
            s.service_time@ == 0,
            s.visit == Visit::Always,
            !s.can_start_here,
    {
        Site {
            id: SiteId::from_usize(0),
            name: String::new(),
            duties: Vec::new(),
            service_time: Duration::zero(),
            visit: Visit::Always,
            can_start_here: false,
        }
    }
}

/// A site paired with a chosen duty, if any: an unscheduled candidate visit.
#[derive(Debug, Clone, Copy)]
pub struct SiteAndDuty {
    /// The site to visit.
    pub site: SiteId,
    /// The duty window chosen for the visit, if any.
    pub duty: Option<BoundedTimeWindow>,
}

} // verus!
