//! The scheduler: turning a candidate visit sequence into concrete
//! timestamps.
//!
//! Scheduling runs in two passes. The forward pass computes the greedy
//! earliest schedule and, per stop, how much of its idle waiting can be
//! absorbed by delaying the whole prefix ("compression"), bounded by the
//! running slack left before some earlier duty's closing bound would be
//! violated. The backward application then shifts every stop later by the
//! compression still unconsumed beyond it, which removes dead waiting time
//! from the front of the path without violating any duty.
//!
//! The forward pass is modelled by the recurrence [`sched`]; the
//! compressed timestamps a returned path carries are pinned down exactly by
//! [`f_ride_start`], [`f_ride_end`], [`f_service_start`] and
//! [`f_service_end`].

use vstd::prelude::*;
use crate::bounds::{MAX_STOPS, PATH_TIME_BOUND, TIME_BOUND};
use crate::capped::CappedMax;
use crate::duration::Duration;
use crate::ids::{InternalId, SiteId};
use crate::path_cost::{rides_bounded, spec_cost, PathCost};
use crate::stop::{Stop, StopSketch};
use crate::timestamp::Timestamp;
use crate::world::World;

verus! {

/// The running state of the forward pass after some prefix of the stops.
pub ghost struct SchedState {
    /// Whether the prefix is feasible: every ride exists and every duty's
    /// closing bound is met.
    pub ok: bool,
    /// The site the vehicle stands at.
    pub prev_site: int,
    /// The time the vehicle becomes free.
    pub prev_end: int,
    /// The slack left before some earlier duty's closing bound would be
    /// violated; `None` while no duty bounds the prefix.
    pub slack: Option<int>,
    /// Total compression accumulated so far.
    pub total_c: int,
}

/// The smaller of two integers.
pub open spec fn min_int(a: int, b: int) -> int {
    if a <= b {
        a
    } else {
        b
    }
}

/// The forward pass state before any stop.
pub open spec fn sched_init(w: World, start_in: int) -> SchedState {
    SchedState {
        ok: true,
        prev_site: start_in,
        prev_end: w.min_start_at@,
        slack: None,
        total_c: 0,
    }
}

/// One forward-pass step: ride to the sketched site, idle until its duty
/// opens if needed, serve, and account the compression this stop allows.
/// Fails if no ride exists or the duty's closing bound cannot be met.
pub open spec fn sched_step(w: World, st: SchedState, sk: StopSketch) -> SchedState {
    if !st.ok {
        st
    } else {
        match w.spec_ride(st.prev_site, sk.site.spec_id()) {
            None => SchedState { ok: false, ..st },
            Some(ride) => {
                let ride_end = st.prev_end + ride;
                let service_start = match sk.duty {
                    Some(d) => if d.spec_start() > ride_end {
                        d.spec_start()
                    } else {
                        ride_end
                    },
                    None => ride_end,
                };
                let waiting = service_start - ride_end;
                let compression = match st.slack {
                    None => waiting,
                    Some(s) => min_int(s, waiting),
                };
                let service_end = service_start + w.sites@[sk.site.spec_id()].service_time@;
                let duty_ok = match sk.duty {
                    Some(d) => d.spec_end() >= service_end,
                    None => true,
                };
                if !duty_ok {
                    SchedState { ok: false, ..st }
                } else {
                    let stop_slack = match sk.duty {
                        Some(d) => d.spec_end() - service_end,
                        None => 0,
                    };
                    let new_slack = match st.slack {
                        None => stop_slack,
                        Some(s) => min_int(s - compression, stop_slack),
                    };
                    SchedState {
                        ok: true,
                        prev_site: sk.site.spec_id(),
                        prev_end: service_end,
                        slack: Some(new_slack),
                        total_c: st.total_c + compression,
                    }
                }
            },
        }
    }
}

/// The forward pass state after the first `n` stops of `q`.
pub open spec fn sched(w: World, start_in: int, q: Seq<StopSketch>, n: int) -> SchedState
    decreases n,
{
    if n <= 0 {
        sched_init(w, start_in)
    } else {
        sched_step(w, sched(w, start_in, q, n - 1), q[n - 1])
    }
}

/// The ride duration taken by stop `j`, before compression.
pub open spec fn u_ride(w: World, s0: int, q: Seq<StopSketch>, j: int) -> int {
    match w.spec_ride(sched(w, s0, q, j).prev_site, q[j].site.spec_id()) {
        Some(d) => d,
        None => 0,
    }
}

/// Stop `j`'s ride departure, before compression.
pub open spec fn u_ride_start(w: World, s0: int, q: Seq<StopSketch>, j: int) -> int {
    sched(w, s0, q, j).prev_end
}

/// Stop `j`'s arrival, before compression.
pub open spec fn u_ride_end(w: World, s0: int, q: Seq<StopSketch>, j: int) -> int {
    u_ride_start(w, s0, q, j) + u_ride(w, s0, q, j)
}

/// Stop `j`'s service start, before compression: the arrival, or the duty's
/// opening bound if that is later.
pub open spec fn u_service_start(w: World, s0: int, q: Seq<StopSketch>, j: int) -> int {
    match q[j].duty {
        Some(d) => if d.spec_start() > u_ride_end(w, s0, q, j) {
            d.spec_start()
        } else {
            u_ride_end(w, s0, q, j)
        },
        None => u_ride_end(w, s0, q, j),
    }
}

/// Stop `j`'s service end, before compression.
pub open spec fn u_service_end(w: World, s0: int, q: Seq<StopSketch>, j: int) -> int {
    u_service_start(w, s0, q, j) + w.sites@[q[j].site.spec_id()].service_time@
}

/// The compression recorded at stop `j`.
pub open spec fn comp(w: World, s0: int, q: Seq<StopSketch>, j: int) -> int {
    sched(w, s0, q, j + 1).total_c - sched(w, s0, q, j).total_c
}

/// Stop `j`'s ride departure after compression: the whole prefix is shifted
/// later by the compression not yet consumed before stop `j`.
pub open spec fn f_ride_start(w: World, s0: int, q: Seq<StopSketch>, n: int, j: int) -> int {
    u_ride_start(w, s0, q, j) + (sched(w, s0, q, n).total_c - sched(w, s0, q, j).total_c)
}

/// Stop `j`'s arrival after compression.
pub open spec fn f_ride_end(w: World, s0: int, q: Seq<StopSketch>, n: int, j: int) -> int {
    u_ride_end(w, s0, q, j) + (sched(w, s0, q, n).total_c - sched(w, s0, q, j).total_c)
}

/// Stop `j`'s service start after compression: shifted by the compression
/// not yet consumed beyond stop `j`.
pub open spec fn f_service_start(w: World, s0: int, q: Seq<StopSketch>, n: int, j: int) -> int {
    u_service_start(w, s0, q, j) + (sched(w, s0, q, n).total_c - sched(w, s0, q, j + 1).total_c)
}

/// Stop `j`'s service end after compression.
pub open spec fn f_service_end(w: World, s0: int, q: Seq<StopSketch>, n: int, j: int) -> int {
    u_service_end(w, s0, q, j) + (sched(w, s0, q, n).total_c - sched(w, s0, q, j + 1).total_c)
}

/// An infeasible prefix never becomes feasible again.
proof fn lemma_not_ok_persists(w: World, s0: int, q: Seq<StopSketch>, k: int, n: int)
    requires
        0 <= k <= n,
        !sched(w, s0, q, k).ok,
    ensures
        !sched(w, s0, q, n).ok,
    decreases n - k,
{
    if k < n {
        assert(!sched(w, s0, q, k + 1).ok);
        lemma_not_ok_persists(w, s0, q, k + 1, n);
    }
}

/// The running slack never goes negative.
proof fn lemma_slack_nonneg(w: World, s0: int, q: Seq<StopSketch>, k: int)
    requires
        0 <= k,
    ensures
        sched(w, s0, q, k).slack matches Some(s) ==> s >= 0,
    decreases k,
{
    if k > 0 {
        lemma_slack_nonneg(w, s0, q, k - 1);
    }
}

/// Numeric ceiling for the accumulated compression: at most two time
/// bounds per stop.
proof fn lemma_scale_bound(i: int)
    requires
        0 <= i <= MAX_STOPS,
    ensures
        0 <= 2 * TIME_BOUND * i <= 0x200_0000_0000_0000,
{
    assert(0 <= 2 * TIME_BOUND * i <= 0x200_0000_0000_0000) by (nonlinear_arith)
        requires
            0 <= i <= 0x1_0000,
            TIME_BOUND == 0x100_0000_0000,
    ;
}

/// Numeric ceiling for a shifted timestamp: the uncompressed value plus the
/// whole accumulated compression stays within the path time bound.
proof fn lemma_shift_bound(j: int, n: int)
    requires
        0 <= j < n <= MAX_STOPS,
    ensures
        TIME_BOUND * (2 * j + 3) + 2 * TIME_BOUND * n <= PATH_TIME_BOUND,
{
    assert(TIME_BOUND * (2 * j + 3) + 2 * TIME_BOUND * n <= PATH_TIME_BOUND) by (nonlinear_arith)
        requires
            0 <= j < n <= 0x1_0000,
            TIME_BOUND == 0x100_0000_0000,
            PATH_TIME_BOUND == 0x800_0000_0000_0000,
    ;
}

/// Magnitude bounds on the forward-pass state: the vehicle never becomes
/// free before the earliest departure, grows by at most one ride, one wait
/// and one service per stop, and both slack and accumulated compression
/// stay bounded.
proof fn lemma_state_bounds(w: World, s0: int, q: Seq<StopSketch>, k: int)
    requires
        w.wf(),
        0 <= s0 < w.sites@.len(),
        q.len() <= MAX_STOPS,
        forall|t: int| 0 <= t < q.len() ==> 0 <= (#[trigger] q[t]).site.spec_id() < w.sites@.len(),
        forall|t: int| 0 <= t < q.len() ==> ((#[trigger] q[t]).duty matches Some(d) ==> d.wf()),
        0 <= k <= q.len(),
        sched(w, s0, q, k).ok,
    ensures
        0 <= sched(w, s0, q, k).prev_site < w.sites@.len(),
        w.min_start_at@ <= sched(w, s0, q, k).prev_end,
        sched(w, s0, q, k).prev_end <= TIME_BOUND * (2 * k + 1),
        sched(w, s0, q, k).slack matches Some(s) ==> 0 <= s <= 2 * TIME_BOUND,
        0 <= sched(w, s0, q, k).total_c <= 2 * TIME_BOUND * k,
        k == 0 <==> sched(w, s0, q, k).slack is None,
    decreases k,
{
    if k > 0 {
        if !sched(w, s0, q, k - 1).ok {
            assert(sched(w, s0, q, k) == sched(w, s0, q, k - 1));
        }
        lemma_state_bounds(w, s0, q, k - 1);
        let st = sched(w, s0, q, k - 1);
        let sk = q[k - 1];
        assert(sched(w, s0, q, k) == sched_step(w, st, sk));
        assert(0 <= sk.site.spec_id() < w.sites@.len());
        assert(w.sites@[sk.site.spec_id()].wf());
        let rideopt = w.spec_ride(st.prev_site, sk.site.spec_id());
        assert(rideopt is Some);
        let ride = match rideopt {
            Some(r) => r,
            None => 0int,
        };
        assert(0 <= ride <= TIME_BOUND);
        let ride_end = st.prev_end + ride;
        assert(w.min_start_at@ <= ride_end <= TIME_BOUND * (2 * k - 1) + TIME_BOUND);
        let service_start = match sk.duty {
            Some(d) => if d.spec_start() > ride_end {
                d.spec_start()
            } else {
                ride_end
            },
            None => ride_end,
        };
        assert(sk.duty matches Some(d) ==> d.wf());
        let waiting = service_start - ride_end;
        assert(0 <= waiting <= 2 * TIME_BOUND);
        let compression = match st.slack {
            None => waiting,
            Some(s) => min_int(s, waiting),
        };
        assert(0 <= compression <= 2 * TIME_BOUND);
        let service_end = service_start + w.sites@[sk.site.spec_id()].service_time@;
        assert(w.min_start_at@ <= service_end <= TIME_BOUND * (2 * k + 1));
        assert(sched(w, s0, q, k).prev_end == service_end);
        assert(sched(w, s0, q, k).total_c == st.total_c + compression);
    }
}

/// The compression still owed beyond any prefix is non-negative, and never
/// exceeds the slack the prefix left: this is what lets the backward pass
/// shift every suffix without violating a duty.
proof fn lemma_suffix(w: World, s0: int, q: Seq<StopSketch>, k: int, n: int)
    requires
        0 <= k <= n,
        sched(w, s0, q, n).ok,
    ensures
        0 <= sched(w, s0, q, n).total_c - sched(w, s0, q, k).total_c,
        sched(w, s0, q, k).slack matches Some(s) ==> sched(w, s0, q, n).total_c - sched(
            w,
            s0,
            q,
            k,
        ).total_c <= s,
    decreases n - k,
{
    lemma_slack_nonneg(w, s0, q, k);
    if k == n {
    } else {
        if !sched(w, s0, q, k).ok {
            lemma_not_ok_persists(w, s0, q, k, n);
        }
        assert(sched(w, s0, q, k).ok);
        if !sched(w, s0, q, k + 1).ok {
            lemma_not_ok_persists(w, s0, q, k + 1, n);
        }
        assert(sched(w, s0, q, k + 1).ok);
        lemma_suffix(w, s0, q, k + 1, n);
        lemma_slack_nonneg(w, s0, q, k + 1);
        assert(sched(w, s0, q, k + 1) == sched_step(w, sched(w, s0, q, k), q[k]));
    }
}

/// A path: a start site and time, the scheduled stops, the derived cost and
/// the set of visited site identifiers. Created by [`Path::try_schedule`].
#[derive(Debug, Clone)]
pub struct Path {
    /// The site the path starts at.
    pub start_in: SiteId,
    /// The departure time; after compression this may be later than the
    /// world's earliest permissible departure.
    pub start_at: Timestamp,
    /// The scheduled visits, in order.
    pub stops: Vec<Stop>,
    /// The objective vector, recomputed from the stops.
    pub cost: PathCost,
    /// The identifiers of the visited sites, one per stop.
    pub visited_sites: Vec<SiteId>,
}

impl Path {
    /// The visited sites as a set of identifiers.
    pub open spec fn visited_set(self) -> Set<int> {
        self.visited_sites@.map_values(|id: SiteId| id.spec_id()).to_set()
    }

    /// Internal consistency: stops in schedule order, chained back to back,
    /// each within its duty and within the global time limits, with the cost
    /// and the visited set derived from the stops.
    pub open spec fn consistent(self) -> bool {
        &&& self.stops@.len() <= MAX_STOPS
        &&& forall|i: int| 0 <= i < self.stops@.len() ==> (#[trigger] self.stops@[i]).ordered()
        &&& forall|i: int| 0 <= i < self.stops@.len() ==> (#[trigger] self.stops@[i]).within_duty()
        &&& forall|i: int|
            0 <= i < self.stops@.len() ==> (#[trigger] self.stops@[i]).bounded(PATH_TIME_BOUND as int)
        &&& rides_bounded(self.stops@)
        &&& forall|i: int|
            0 <= i < self.stops@.len() - 1 ==> (#[trigger] self.stops@[i]).service_end@
                == self.stops@[i + 1].ride_start@
        &&& self.stops@.len() > 0 ==> self.start_at@ == self.stops@[0].ride_start@
        &&& -PATH_TIME_BOUND <= self.start_at@ <= PATH_TIME_BOUND
        &&& self.cost@ == spec_cost(self.start_at@, self.stops@)
        &&& self.visited_sites@.map_values(|id: SiteId| id.spec_id()) == self.stops@.map_values(
            |st: Stop| st.site.spec_id(),
        )
    }

    /// The path's sites all belong to the world.
    pub open spec fn in_world(self, w: World) -> bool {
        &&& 0 <= self.start_in.spec_id() < w.sites@.len()
        &&& forall|i: int|
            0 <= i < self.stops@.len() ==> 0 <= (#[trigger] self.stops@[i]).site.spec_id()
                < w.sites@.len()
    }

    /// Well-formedness of a path with respect to its world.
    pub open spec fn wf(self, w: World) -> bool {
        self.consistent() && self.in_world(w)
    }

    /// Where and when the path ends: the last stop's site and service end,
    /// or the start site and time if there are no stops.
    pub open spec fn end_site(self) -> int {
        if self.stops@.len() > 0 {
            self.stops@.last().site.spec_id()
        } else {
            self.start_in.spec_id()
        }
    }

    /// The time the path ends.
    pub open spec fn end_time(self) -> int {
        if self.stops@.len() > 0 {
            self.stops@.last().service_end@
        } else {
            self.start_at@
        }
    }

    /// The zero-stop path starting at the given site and time.
    pub fn empty(start_in: SiteId, start_at: Timestamp) -> (p: Path)
        requires
            -TIME_BOUND <= start_at@ <= TIME_BOUND,
        ensures
            p.consistent(),
            p.start_in == start_in,
            p.start_at == start_at,
            p.stops@.len() == 0,
            p.visited_sites@.len() == 0,
            p.visited_set() =~= Set::<int>::empty(),
    {
        let no_stops: Vec<Stop> = Vec::new();
        let cost = PathCost::new(start_at, no_stops.as_slice());
        let p = Path { start_in, start_at, stops: no_stops, cost, visited_sites: Vec::new() };
        proof {
            assert(p.visited_sites@.map_values(|id: SiteId| id.spec_id()) =~= p.stops@.map_values(
                |st: Stop| st.site.spec_id(),
            ));
            assert(p.visited_set() =~= Set::<int>::empty());
            assert(p.consistent());
        }
        p
    }

    /// The zero-stop path starting at site zero at the origin.
    pub fn mock() -> (p: Path)
        ensures
            p.consistent(),
            p.start_in.spec_id() == 0,
            p.start_at@ == 0,
            p.stops@.len() == 0,
    {
        Path::empty(SiteId::from_usize(0), Timestamp::mock())
    }

    /// Where and when the path ends.
    pub fn end(&self) -> (r: (SiteId, Timestamp))
        ensures
            r.0.spec_id() == self.end_site(),
            r.1@ == self.end_time(),
    {
        if self.stops.len() == 0 {
            (self.start_in, self.start_at)
        } else {
            let last = &self.stops[self.stops.len() - 1];
            (last.site, last.service_end)
        }
    }

    /// Schedules the given stop sketches from a start site, producing a
    /// feasible compression-optimized path, or `None` exactly when the
    /// forward pass fails: some consecutive pair has no ride, or some duty's
    /// closing bound cannot be met.
    #[verifier::rlimit(100)]
    pub fn try_schedule(world: &World, start_in: SiteId, stops: &[StopSketch]) -> (r: Option<Path>)
        requires
            world.wf(),
            start_in.spec_id() < world.sites@.len(),
            stops@.len() <= MAX_STOPS,
            forall|i: int|
                0 <= i < stops@.len() ==> (#[trigger] stops@[i]).site.spec_id() < world.sites@.len(),
            forall|i: int|
                0 <= i < stops@.len() ==> ((#[trigger] stops@[i]).duty matches Some(d) ==> d.wf()),
        ensures
            r is Some <==> sched(*world, start_in.spec_id(), stops@, stops@.len() as int).ok,
            r matches Some(p) ==> {
                let w = *world;
                let s0 = start_in.spec_id();
                let q = stops@;
                let n = q.len() as int;
                &&& p.wf(w)
                &&& p.start_in == start_in
                &&& p.stops@.len() == n
                &&& forall|j: int|
                    0 <= j < n ==> {
                        let st = #[trigger] p.stops@[j];
                        &&& st.site == q[j].site
                        &&& st.duty == q[j].duty
                        &&& st.ride_start@ == f_ride_start(w, s0, q, n, j)
                        &&& st.ride_end@ == f_ride_end(w, s0, q, n, j)
                        &&& st.service_start@ == f_service_start(w, s0, q, n, j)
                        &&& st.service_end@ == f_service_end(w, s0, q, n, j)
                    }
                &&& p.start_at@ == if n > 0 {
                    f_ride_start(w, s0, q, n, 0)
                } else {
                    w.min_start_at@
                }
            },
    {
        let ghost w = *world;
        let ghost s0 = start_in.spec_id();
        let ghost q = stops@;
        let n = stops.len();
        let ghost nn = n as int;
        proof {
            start_in.lemma_id_bounds();
            assert(sched(w, s0, q, 0) == sched_init(w, s0));
            assert forall|t: int| 0 <= t < nn implies 0 <= (#[trigger] q[t]).site.spec_id()
                < w.sites@.len() by {
                q[t].site.lemma_id_bounds();
            }
        }

        // Forward pass: greedy earliest schedule, recording per-stop
        // compression.
        let mut prev_site = start_in;
        let mut prev_end = world.min_start_at;
        let mut compressions: Vec<Duration> = Vec::new();
        let mut total_compression = Duration::zero();
        let mut slack = CappedMax::Max;
        let mut path_stops: Vec<Stop> = Vec::new();

        let mut i: usize = 0;
        while i < n
            invariant
                world.wf(),
                w == *world,
                s0 == start_in.spec_id(),
                0 <= s0 < w.sites@.len(),
                q == stops@,
                nn == n as int,
                n == stops@.len() <= MAX_STOPS,
                forall|t: int|
                    0 <= t < nn ==> 0 <= (#[trigger] q[t]).site.spec_id() < w.sites@.len(),
                forall|t: int| 0 <= t < nn ==> ((#[trigger] q[t]).duty matches Some(d) ==> d.wf()),
                i <= n,
                sched(w, s0, q, i as int).ok,
                prev_site.spec_id() == sched(w, s0, q, i as int).prev_site,
                0 <= sched(w, s0, q, i as int).prev_site < w.sites@.len(),
                prev_end@ == sched(w, s0, q, i as int).prev_end,
                w.min_start_at@ <= prev_end@,
                prev_end@ <= TIME_BOUND * (2 * (i as int) + 1),
                slack.spec_value() == sched(w, s0, q, i as int).slack,
                sched(w, s0, q, i as int).slack matches Some(s) ==> 0 <= s <= 2 * TIME_BOUND,
                i == 0 <==> sched(w, s0, q, i as int).slack is None,
                total_compression@ == sched(w, s0, q, i as int).total_c,
                0 <= total_compression@ <= 2 * TIME_BOUND * (i as int),
                compressions@.len() == i,
                forall|j: int|
                    0 <= j < i ==> (#[trigger] compressions@[j])@ == comp(w, s0, q, j),
                forall|j: int| 0 <= j < i ==> 0 <= (#[trigger] compressions@[j])@ <= 2 * TIME_BOUND,
                path_stops@.len() == i,
                forall|j: int|
                    0 <= j < i ==> {
                        let st = #[trigger] path_stops@[j];
                        &&& st.site == q[j].site
                        &&& st.duty == q[j].duty
                        &&& st.ride_start@ == u_ride_start(w, s0, q, j)
                        &&& st.ride_end@ == u_ride_end(w, s0, q, j)
                        &&& st.service_start@ == u_service_start(w, s0, q, j)
                        &&& st.service_end@ == u_service_end(w, s0, q, j)
                    },
            decreases n - i,
        {
            let ghost st_i = sched(w, s0, q, i as int);
            let sketch = stops[i];
            let ride = match world.ride(prev_site, sketch.site) {
                Some(ride) => ride,
                None => {
                    proof {
                        assert(sched(w, s0, q, i + 1) == sched_step(w, st_i, q[i as int]));
                        assert(!sched(w, s0, q, i + 1).ok);
                        lemma_not_ok_persists(w, s0, q, i + 1, nn);
                    }
                    return None;
                },
            };
            let ride_start = prev_end;
            let ride_end = ride_start.add(ride);
            let service_start = match sketch.duty {
                Some(duty) => {
                    if ride_end.lt(duty.start()) {
                        duty.start()
                    } else {
                        ride_end
                    }
                },
                None => ride_end,
            };
            let waiting = service_start.sub(ride_end);
            proof {
                assert(0 <= waiting@ <= 2 * TIME_BOUND);
            }
            let compression = slack.min_with(waiting);
            proof {
                assert(0 <= compression@ <= 2 * TIME_BOUND);
            }
            let site_service_time = world.sites[sketch.site.as_usize()].service_time;
            let service_end = service_start.add(site_service_time);
            let stop_slack = match sketch.duty {
                Some(duty) => {
                    if duty.end().lt(service_end) {
                        // Unfeasible
                        proof {
                            assert(sched(w, s0, q, i + 1) == sched_step(w, st_i, q[i as int]));
                            assert(!sched(w, s0, q, i + 1).ok);
                            lemma_not_ok_persists(w, s0, q, i + 1, nn);
                        }
                        return None;
                    }
                    duty.end().sub(service_end)
                },
                None => Duration::zero(),
            };
            proof {
                lemma_scale_bound(i as int);
            }
            slack = slack.sub(compression);
            slack = slack.min(CappedMax::Value(stop_slack));

            prev_site = sketch.site;
            prev_end = service_end;
            compressions.push(compression);
            total_compression = total_compression.add(compression);
            path_stops.push(
                Stop {
                    site: sketch.site,
                    duty: sketch.duty,
                    ride_start,
                    ride_end,
                    service_start,
                    service_end,
                },
            );
            proof {
                assert(sched(w, s0, q, i + 1) == sched_step(w, st_i, q[i as int]));
                assert(sched(w, s0, q, i + 1).ok);
                lemma_state_bounds(w, s0, q, i + 1);
            }
            i += 1;
        }

        // Backward application: shift each stop later by the compression
        // still unconsumed beyond it.
        let ghost total = sched(w, s0, q, nn).total_c;
        let mut remaining = total_compression;
        let mut idx: usize = 0;
        while idx < n
            invariant
                world.wf(),
                w == *world,
                s0 == start_in.spec_id(),
                0 <= s0 < w.sites@.len(),
                q == stops@,
                nn == n as int,
                n == stops@.len() <= MAX_STOPS,
                forall|t: int|
                    0 <= t < nn ==> 0 <= (#[trigger] q[t]).site.spec_id() < w.sites@.len(),
                forall|t: int| 0 <= t < nn ==> ((#[trigger] q[t]).duty matches Some(d) ==> d.wf()),
                sched(w, s0, q, nn).ok,
                total == sched(w, s0, q, nn).total_c,
                0 <= total <= 2 * TIME_BOUND * nn,
                idx <= n,
                remaining@ == total - sched(w, s0, q, idx as int).total_c,
                compressions@.len() == n,
                forall|j: int|
                    0 <= j < nn ==> (#[trigger] compressions@[j])@ == comp(w, s0, q, j),
                path_stops@.len() == n,
                forall|j: int|
                    idx <= j < nn ==> {
                        let st = #[trigger] path_stops@[j];
                        &&& st.site == q[j].site
                        &&& st.duty == q[j].duty
                        &&& st.ride_start@ == u_ride_start(w, s0, q, j)
                        &&& st.ride_end@ == u_ride_end(w, s0, q, j)
                        &&& st.service_start@ == u_service_start(w, s0, q, j)
                        &&& st.service_end@ == u_service_end(w, s0, q, j)
                    },
                forall|j: int|
                    0 <= j < idx ==> {
                        let st = #[trigger] path_stops@[j];
                        &&& st.site == q[j].site
                        &&& st.duty == q[j].duty
                        &&& st.ride_start@ == f_ride_start(w, s0, q, nn, j)
                        &&& st.ride_end@ == f_ride_end(w, s0, q, nn, j)
                        &&& st.service_start@ == f_service_start(w, s0, q, nn, j)
                        &&& st.service_end@ == f_service_end(w, s0, q, nn, j)
                    },
            decreases n - idx,
        {
            proof {
                lemma_suffix(w, s0, q, idx as int, nn);
                lemma_suffix(w, s0, q, idx + 1, nn);
                lemma_bounds(w, s0, q, idx as int, nn);
                lemma_scale_bound(nn);
                lemma_shift_bound(idx as int, nn);
            }
            let mut st = path_stops[idx];
            proof {
                assert(st.ride_start@ == u_ride_start(w, s0, q, idx as int));
                assert(u_ride_start(w, s0, q, idx as int) <= u_service_end(w, s0, q, idx as int));
                assert(u_service_end(w, s0, q, idx as int) <= TIME_BOUND * (2 * (idx as int) + 3));
                assert(w.min_start_at@ <= u_ride_start(w, s0, q, idx as int));
                assert(0 <= remaining@ <= 2 * TIME_BOUND * nn);
            }
            st.ride_start = st.ride_start.add(remaining);
            st.ride_end = st.ride_end.add(remaining);
            remaining = remaining.sub(compressions[idx]);
            st.service_start = st.service_start.add(remaining);
            st.service_end = st.service_end.add(remaining);
            path_stops.set(idx, st);
            idx += 1;
        }

        let start_at = if n == 0 {
            prev_end
        } else {
            path_stops[0].ride_start
        };
        proof {
            if nn > 0 {
                lemma_all_final_facts(w, s0, q, nn);
            }
        }
        let cost = PathCost::new(start_at, path_stops.as_slice());
        let mut visited_sites: Vec<SiteId> = Vec::new();
        let mut v: usize = 0;
        while v < n
            invariant
                v <= n,
                n == path_stops@.len(),
                visited_sites@.len() == v,
                forall|j: int| 0 <= j < v ==> (#[trigger] visited_sites@[j]) == path_stops@[j].site,
            decreases n - v,
        {
            visited_sites.push(path_stops[v].site);
            v += 1;
        }
        proof {
            assert(visited_sites@.map_values(|id: SiteId| id.spec_id()) =~= path_stops@.map_values(
                |st: Stop| st.site.spec_id(),
            ));
        }
        Some(Path { start_in, start_at, stops: path_stops, cost, visited_sites })
    }
}

/// Magnitude bounds for the forward-pass quantities of stop `j`, needed to
/// rule out overflow when the backward pass shifts timestamps.
proof fn lemma_bounds(w: World, s0: int, q: Seq<StopSketch>, j: int, n: int)
    requires
        w.wf(),
        0 <= s0 < w.sites@.len(),
        q.len() <= MAX_STOPS,
        forall|t: int| 0 <= t < q.len() ==> 0 <= (#[trigger] q[t]).site.spec_id() < w.sites@.len(),
        forall|t: int| 0 <= t < q.len() ==> ((#[trigger] q[t]).duty matches Some(d) ==> d.wf()),
        0 <= j < n <= q.len(),
        sched(w, s0, q, n).ok,
    ensures
        w.min_start_at@ <= u_ride_start(w, s0, q, j),
        u_ride_start(w, s0, q, j) <= u_ride_end(w, s0, q, j) <= u_service_start(w, s0, q, j)
            <= u_service_end(w, s0, q, j),
        u_service_end(w, s0, q, j) <= TIME_BOUND * (2 * j + 3),
        0 <= u_ride(w, s0, q, j) <= TIME_BOUND,
        u_service_start(w, s0, q, j) - u_ride_end(w, s0, q, j) >= comp(w, s0, q, j) >= 0,
        q[j].duty matches Some(d) ==> u_service_end(w, s0, q, j) + (sched(w, s0, q, n).total_c
            - sched(w, s0, q, j + 1).total_c) <= d.spec_end(),
        sched(w, s0, q, j + 1).prev_end == u_service_end(w, s0, q, j),
        0 <= sched(w, s0, q, j).total_c <= 2 * TIME_BOUND * j,
        0 <= sched(w, s0, q, n).total_c - sched(w, s0, q, j).total_c <= 2 * TIME_BOUND * n,
        0 <= sched(w, s0, q, n).total_c - sched(w, s0, q, j + 1).total_c,
{
    if !sched(w, s0, q, j).ok {
        lemma_not_ok_persists(w, s0, q, j, n);
    }
    if !sched(w, s0, q, j + 1).ok {
        lemma_not_ok_persists(w, s0, q, j + 1, n);
    }
    if !sched(w, s0, q, n).ok {
        lemma_not_ok_persists(w, s0, q, n, n);
    }
    lemma_state_bounds(w, s0, q, j);
    lemma_state_bounds(w, s0, q, j + 1);
    lemma_state_bounds(w, s0, q, n);
    lemma_slack_nonneg(w, s0, q, j);
    lemma_suffix(w, s0, q, 0, n);
    lemma_suffix(w, s0, q, j, n);
    lemma_suffix(w, s0, q, j + 1, n);
    assert(sched(w, s0, q, j + 1) == sched_step(w, sched(w, s0, q, j), q[j]));
    lemma_suffix_step(w, s0, q, j, n);
}

/// The duty-closing bound survives the backward shift: the compression owed
/// beyond stop `j` fits within the slack its duty left.
proof fn lemma_suffix_step(w: World, s0: int, q: Seq<StopSketch>, j: int, n: int)
    requires
        0 <= j < n <= q.len(),
        sched(w, s0, q, n).ok,
    ensures
        q[j].duty matches Some(d) ==> u_service_end(w, s0, q, j) + (sched(w, s0, q, n).total_c
            - sched(w, s0, q, j + 1).total_c) <= d.spec_end(),
{
    if !sched(w, s0, q, j).ok {
        lemma_not_ok_persists(w, s0, q, j, n);
    }
    if !sched(w, s0, q, j + 1).ok {
        lemma_not_ok_persists(w, s0, q, j + 1, n);
    }
    assert(sched(w, s0, q, j + 1) == sched_step(w, sched(w, s0, q, j), q[j]));
    lemma_suffix(w, s0, q, j + 1, n);
}

/// Consolidated facts about every stop of a fully feasible schedule, in the
/// form the final well-formedness proof needs.
proof fn lemma_all_final_facts(w: World, s0: int, q: Seq<StopSketch>, n: int)
    requires
        w.wf(),
        0 <= s0 < w.sites@.len(),
        q.len() <= MAX_STOPS,
        forall|t: int| 0 <= t < q.len() ==> 0 <= (#[trigger] q[t]).site.spec_id() < w.sites@.len(),
        forall|t: int| 0 <= t < q.len() ==> ((#[trigger] q[t]).duty matches Some(d) ==> d.wf()),
        0 < n <= q.len(),
        sched(w, s0, q, n).ok,
    ensures
        forall|j: int|
            0 <= j < n ==> {
                &&& -TIME_BOUND <= #[trigger] f_ride_start(w, s0, q, n, j)
                &&& f_ride_start(w, s0, q, n, j) <= f_ride_end(w, s0, q, n, j)
                &&& f_ride_end(w, s0, q, n, j) <= f_service_start(w, s0, q, n, j)
                &&& f_service_start(w, s0, q, n, j) <= f_service_end(w, s0, q, n, j)
                &&& f_service_end(w, s0, q, n, j) <= PATH_TIME_BOUND
                &&& (q[j].duty matches Some(d) ==> f_service_end(w, s0, q, n, j) <= d.spec_end())
                &&& f_ride_end(w, s0, q, n, j) - f_ride_start(w, s0, q, n, j) <= TIME_BOUND
            },
        forall|j: int|
            0 <= j < n - 1 ==> #[trigger] f_service_end(w, s0, q, n, j) == f_ride_start(
                w,
                s0,
                q,
                n,
                j + 1,
            ),
{
    assert forall|j: int| 0 <= j < n implies {
        &&& -TIME_BOUND <= #[trigger] f_ride_start(w, s0, q, n, j)
        &&& f_ride_start(w, s0, q, n, j) <= f_ride_end(w, s0, q, n, j)
        &&& f_ride_end(w, s0, q, n, j) <= f_service_start(w, s0, q, n, j)
        &&& f_service_start(w, s0, q, n, j) <= f_service_end(w, s0, q, n, j)
        &&& f_service_end(w, s0, q, n, j) <= PATH_TIME_BOUND
        &&& (q[j].duty matches Some(d) ==> f_service_end(w, s0, q, n, j) <= d.spec_end())
        &&& f_ride_end(w, s0, q, n, j) - f_ride_start(w, s0, q, n, j) <= TIME_BOUND
    } by {
        lemma_bounds(w, s0, q, j, n);
        lemma_suffix(w, s0, q, j, n);
        lemma_suffix(w, s0, q, j + 1, n);
        lemma_shift_bound(j, n);
        assert(sched(w, s0, q, n).total_c - sched(w, s0, q, j + 1).total_c <= 2 * TIME_BOUND * n);
        assert(u_service_end(w, s0, q, j) <= TIME_BOUND * (2 * j + 3));
    }
    assert forall|j: int| 0 <= j < n - 1 implies #[trigger] f_service_end(w, s0, q, n, j)
        == f_ride_start(w, s0, q, n, j + 1) by {
        lemma_bounds(w, s0, q, j, n);
        assert(sched(w, s0, q, j + 1).prev_end == u_service_end(w, s0, q, j));
    }
}

} // verus!
