//! The explorer: best-first construction of duty paths.
//!
//! Starting from a zero-stop seed path at every start-eligible site, each
//! round extends every frontier path by one more stop through the
//! scheduler, keeps the resulting paths in a fresh frontier archive, and
//! promotes paths that already cover the must-visit set into the result
//! archive. Each extension visits a new site, so the rounds are bounded by
//! the number of sites and the search terminates.

use vstd::prelude::*;
use vstd::set_lib::lemma_len_subset;
use crate::bounds::{MAX_STOPS, PATH_TIME_BOUND};
use crate::ids::{InternalId, SiteId};
use crate::path::{f_service_end, min_int, sched, Path};
use crate::path_bag::{paths_of, PathBag};
use crate::stop::StopSketch;
use crate::time_window::BoundedTimeWindow;
use crate::timestamp::Timestamp;
use crate::world::World;

verus! {

/// The path starts at a site flagged as start-eligible.
pub open spec fn starts_eligible(w: World, p: Path) -> bool {
    w.sites@[p.start_in.spec_id()].can_start_here
}

/// No site is visited twice along the path.
pub open spec fn no_revisit(p: Path) -> bool {
    forall|a: int, b: int|
        0 <= a < b < p.stops@.len() ==> (#[trigger] p.stops@[a]).site.spec_id()
            != (#[trigger] p.stops@[b]).site.spec_id()
}

/// A frontier path after `k` rounds: well-formed, exactly `k` stops, no
/// site visited twice, start-eligible, and every chosen duty well-formed.
pub open spec fn frontier_ok(w: World, p: Path, k: int) -> bool {
    &&& p.wf(w)
    &&& starts_eligible(w, p)
    &&& p.stops@.len() == k
    &&& no_revisit(p)
    &&& forall|i: int|
        0 <= i < p.stops@.len() ==> ((#[trigger] p.stops@[i]).duty matches Some(d) ==> d.wf())
}

/// Every path in the archive is a valid `k`-stop frontier path.
pub open spec fn all_frontier(w: World, bag: PathBag, k: int) -> bool {
    forall|i: int|
        0 <= i < bag.items_seq().len() ==> frontier_ok(
            w,
            (#[trigger] bag.items_seq()[i]).path,
            k,
        )
}

/// A finished path: well-formed, starting at a start-eligible site,
/// visiting no site twice, and covering the whole must-visit set.
pub open spec fn finished_ok(w: World, p: Path) -> bool {
    &&& p.wf(w)
    &&& starts_eligible(w, p)
    &&& no_revisit(p)
    &&& w.must_visit_set() <= p.visited_set()
}

/// Every path in the archive is a valid finished path.
pub open spec fn all_finished(w: World, bag: PathBag) -> bool {
    forall|i: int|
        0 <= i < bag.items_seq().len() ==> finished_ok(w, (#[trigger] bag.items_seq()[i]).path)
}

/// When every valid candidate was collected, every valid candidate is
/// among the kept ones.
proof fn lemma_coverage_full(w: World, base: Path, cands: Seq<ExtensionInfo>)
    requires
        forall|x: ExtensionInfo|
            #[trigger] candidate_ok(w, base, x) ==> from_pool(cands, x),
    ensures
        forall|x: ExtensionInfo| #[trigger] candidate_ok(w, base, x) ==> cands.contains(x),
{
    assert forall|x: ExtensionInfo| #[trigger] candidate_ok(w, base, x) implies cands.contains(
        x,
    ) by {
        let j = choose|j: int| 0 <= j < cands.len() && x == #[trigger] cands[j];
        assert(cands[j] == x);
    }
}

/// Truncating the sorted candidates to the branching cap keeps every valid
/// candidate, unless the cap is already filled with candidates that start
/// no later.
proof fn lemma_coverage_truncated(
    w: World,
    base: Path,
    all_cands: Seq<ExtensionInfo>,
    sorted: Seq<ExtensionInfo>,
    kept: Seq<ExtensionInfo>,
    cap: int,
)
    requires
        sorted.to_multiset() == all_cands.to_multiset(),
        forall|a: int, b: int|
            0 <= a < b < sorted.len() ==> (#[trigger] sorted[a]).earliest_service_start@
                <= (#[trigger] sorted[b]).earliest_service_start@,
        0 <= cap <= sorted.len(),
        kept == sorted.subrange(0, cap),
        forall|x: ExtensionInfo|
            #[trigger] candidate_ok(w, base, x) ==> from_pool(all_cands, x),
    ensures
        forall|x: ExtensionInfo|
            #[trigger] candidate_ok(w, base, x) ==> kept.contains(x) || (kept.len() == cap
                && forall|t: int|
                0 <= t < kept.len() ==> (#[trigger] kept[t]).earliest_service_start@
                    <= x.earliest_service_start@),
{
    broadcast use vstd::seq_lib::group_to_multiset_ensures;

    assert forall|x: ExtensionInfo| #[trigger] candidate_ok(w, base, x) implies kept.contains(x)
        || (kept.len() == cap && forall|t: int|
        0 <= t < kept.len() ==> (#[trigger] kept[t]).earliest_service_start@
            <= x.earliest_service_start@) by {
        let j0 = choose|j: int| 0 <= j < all_cands.len() && x == #[trigger] all_cands[j];
        assert(all_cands[j0] == x);
        assert(all_cands.contains(x));
        assert(all_cands.to_multiset().count(x) > 0);
        assert(sorted.contains(x));
        let jx = choose|j: int| 0 <= j < sorted.len() && sorted[j] == x;
        if jx < cap {
            assert(kept[jx] == x);
            assert(kept.contains(x));
        } else {
            assert forall|t: int|
                0 <= t < kept.len() implies (#[trigger] kept[t]).earliest_service_start@
                <= x.earliest_service_start@ by {
                assert(kept[t] == sorted[t]);
                assert(sorted[t].earliest_service_start@ <= sorted[jx].earliest_service_start@);
            }
        }
    }
}

/// How many of the given paths cover the whole must-visit set.
pub open spec fn covering_count(w: World, paths: Seq<Path>) -> int
    decreases paths.len(),
{
    if paths.len() == 0 {
        0
    } else {
        covering_count(w, paths.drop_last()) + if w.must_visit_set()
            <= paths.last().visited_set() {
            1int
        } else {
            0int
        }
    }
}

/// The covering count lies between zero and the number of paths.
proof fn lemma_covering_count_bounds(w: World, paths: Seq<Path>)
    ensures
        0 <= covering_count(w, paths) <= paths.len(),
    decreases paths.len(),
{
    if paths.len() > 0 {
        lemma_covering_count_bounds(w, paths.drop_last());
    }
}

/// Whether the search can be seeded at all: the archives have room and some
/// site is start-eligible.
pub open spec fn seedable(w: World) -> bool {
    &&& w.max_bag_items > 0
    &&& exists|i: int| 0 <= i < w.sites@.len() && (#[trigger] w.sites@[i]).can_start_here
}

/// Inserting a path that satisfies a predicate into an archive whose paths
/// all satisfy it leaves only satisfying paths behind, whatever was
/// evicted.
proof fn lemma_paths_preserved(pre: PathBag, post: PathBag, p: Path, pred: spec_fn(Path) -> bool)
    requires
        forall|i: int|
            0 <= i < pre.items_seq().len() ==> pred((#[trigger] pre.items_seq()[i]).path),
        pred(p),
        forall|i: int|
            0 <= i < post.items_seq().len() ==> (#[trigger] post.items_seq()[i]).path == p
                || exists|j: int|
                0 <= j < pre.items_seq().len() && post.items_seq()[i].path == pre.items_seq()[j].path,
    ensures
        forall|i: int|
            0 <= i < post.items_seq().len() ==> pred((#[trigger] post.items_seq()[i]).path),
{
    assert forall|i: int| 0 <= i < post.items_seq().len() implies pred(
        (#[trigger] post.items_seq()[i]).path,
    ) by {
        if post.items_seq()[i].path != p {
            let j = choose|j: int|
                0 <= j < pre.items_seq().len() && post.items_seq()[i].path == (
                #[trigger] pre.items_seq()[j]).path;
            assert(pred(pre.items_seq()[j].path));
        }
    }
}

/// A frontier path's round count never exceeds the number of sites: its
/// stops visit pairwise distinct sites.
proof fn lemma_frontier_len(w: World, p: Path, k: int)
    requires
        w.wf(),
        frontier_ok(w, p, k),
    ensures
        k <= w.sites@.len(),
{
    let ids = p.stops@.map_values(|st: crate::stop::Stop| st.site.spec_id());
    assert(ids.no_duplicates());
    ids.unique_seq_to_set();
    let range = Set::new(|x: int| 0 <= x < w.sites@.len());
    assert forall|x: int| ids.to_set().contains(x) implies range.contains(x) by {
        let j = choose|j: int| 0 <= j < ids.len() && ids[j] == x;
        assert(0 <= p.stops@[j].site.spec_id() < w.sites@.len());
    }
    assert(range =~= Set::new(|x: int| 0 <= x < w.sites@.len()));
    lemma_range_len(w.sites@.len() as int);
    lemma_len_subset(ids.to_set(), range);
}

/// The set of identifiers below `n` has exactly `n` members.
proof fn lemma_range_len(n: int)
    requires
        0 <= n,
    ensures
        Set::new(|x: int| 0 <= x < n).finite(),
        Set::new(|x: int| 0 <= x < n).len() == n,
    decreases n,
{
    if n == 0 {
        assert(Set::new(|x: int| 0 <= x < 0) =~= Set::<int>::empty());
    } else {
        lemma_range_len(n - 1);
        assert(Set::new(|x: int| 0 <= x < n) =~= Set::new(|x: int| 0 <= x < n - 1).insert(n - 1));
    }
}

/// Whether the path has already visited the given site.
fn visited_contains(p: &Path, id: SiteId) -> (r: bool)
    ensures
        r == p.visited_set().contains(id.spec_id()),
{
    let n = p.visited_sites.len();
    let mut i: usize = 0;
    while i < n
        invariant
            n == p.visited_sites@.len(),
            i <= n,
            forall|j: int|
                0 <= j < i ==> (#[trigger] p.visited_sites@[j]).spec_id() != id.spec_id(),
        decreases n - i,
    {
        if p.visited_sites[i].same_as(id) {
            proof {
                let ids = p.visited_sites@.map_values(|s: SiteId| s.spec_id());
                assert(ids[i as int] == id.spec_id());
                assert(ids.contains(id.spec_id()));
            }
            return true;
        }
        i += 1;
    }
    proof {
        let ids = p.visited_sites@.map_values(|s: SiteId| s.spec_id());
        if ids.contains(id.spec_id()) {
            let j = choose|j: int| 0 <= j < ids.len() && ids[j] == id.spec_id();
            assert(p.visited_sites@[j].spec_id() == id.spec_id());
        }
    }
    false
}

/// Whether the path has visited every must-visit site of the world.
fn visits_all(world: &World, p: &Path) -> (r: bool)
    requires
        world.wf(),
    ensures
        r == (world.must_visit_set() <= p.visited_set()),
{
    let n = world.must_visit.len();
    let mut k: usize = 0;
    while k < n
        invariant
            world.wf(),
            n == world.must_visit@.len(),
            k <= n,
            forall|j: int|
                0 <= j < k ==> p.visited_set().contains(
                    (#[trigger] world.must_visit@[j]).spec_id(),
                ),
        decreases n - k,
    {
        if !visited_contains(p, world.must_visit[k]) {
            proof {
                assert(world.must_visit_set().contains(world.must_visit@[k as int].spec_id()));
                assert(!(world.must_visit_set() <= p.visited_set()));
            }
            return false;
        }
        k += 1;
    }
    proof {
        assert forall|x: int| world.must_visit_set().contains(x) implies p.visited_set().contains(
            x,
        ) by {
            let j = choose|j: int|
                0 <= j < world.must_visit@.len() && (#[trigger] world.must_visit@[j]).spec_id()
                    == x;
            assert(p.visited_set().contains(world.must_visit@[j].spec_id()));
        }
    }
    true
}

/// A candidate one-stop extension of a base path.
#[derive(Debug, Clone, Copy)]
struct ExtensionInfo {
    site: SiteId,
    duty: Option<BoundedTimeWindow>,
    earliest_service_start: Timestamp,
}

/// The stop sketches a path was scheduled from.
pub open spec fn sketches_of(p: Path) -> Seq<StopSketch> {
    p.stops@.map_values(|st: crate::stop::Stop| StopSketch { site: st.site, duty: st.duty })
}

/// A valid extension candidate of `p`: an unvisited site of the world with
/// a direct ride from the path's end, taken either without a duty at the
/// earliest possible arrival, or with one of the site's duties that opens
/// no earlier than that arrival.
spec fn candidate_ok(w: World, p: Path, x: ExtensionInfo) -> bool {
    &&& 0 <= x.site.spec_id() < w.sites@.len()
    &&& !p.visited_set().contains(x.site.spec_id())
    &&& match w.spec_ride(p.end_site(), x.site.spec_id()) {
        None => false,
        Some(ride) => match x.duty {
            None => x.earliest_service_start@ == p.end_time() + ride,
            Some(d) => {
                &&& d.wf()
                &&& w.sites@[x.site.spec_id()].duties@.contains(d)
                &&& p.end_time() + ride <= d.spec_start()
                &&& x.earliest_service_start@ == d.spec_start()
            },
        },
    }
}

/// Whether the one-stop extension of `p` by candidate `x` schedules
/// feasibly and, when a deadline is configured, ends in time.
spec fn ext_feasible(w: World, p: Path, x: ExtensionInfo) -> bool {
    let q = sketches_of(p).push(StopSketch { site: x.site, duty: x.duty });
    let n = q.len() as int;
    &&& sched(w, p.start_in.spec_id(), q, n).ok
    &&& (w.max_end_at matches Some(t) ==> f_service_end(w, p.start_in.spec_id(), q, n, n - 1)
        <= t@)
}

/// How many of the kept candidates schedule feasibly within the deadline.
spec fn feasible_count(w: World, p: Path, exts: Seq<ExtensionInfo>) -> int
    decreases exts.len(),
{
    if exts.len() == 0 {
        0
    } else {
        feasible_count(w, p, exts.drop_last()) + if ext_feasible(w, p, exts.last()) {
            1int
        } else {
            0int
        }
    }
}

/// The feasible-candidate count lies between zero and the candidate count.
proof fn lemma_feasible_count_bounds(w: World, p: Path, exts: Seq<ExtensionInfo>)
    ensures
        0 <= feasible_count(w, p, exts) <= exts.len(),
    decreases exts.len(),
{
    if exts.len() > 0 {
        lemma_feasible_count_bounds(w, p, exts.drop_last());
    }
}

/// Whether any extension candidate exists at all: some unvisited site
/// reachable by a direct ride from the path's end.
pub open spec fn has_candidate(w: World, p: Path) -> bool {
    exists|s: int|
        0 <= s < w.sites@.len() && !p.visited_set().contains(s) && (#[trigger] w.spec_ride(
            p.end_site(),
            s,
        )) is Some
}

/// Whether `x` is one of the candidates in `pool`.
spec fn from_pool(pool: Seq<ExtensionInfo>, x: ExtensionInfo) -> bool {
    exists|j: int| 0 <= j < pool.len() && x == #[trigger] pool[j]
}

/// Sorts candidates by earliest possible service start, ascending. Every
/// element of the result comes from the input.
fn sort_by_earliest(input: Vec<ExtensionInfo>) -> (out: Vec<ExtensionInfo>)
    ensures
        out@.len() == input@.len(),
        out@.to_multiset() == input@.to_multiset(),
        forall|i: int| 0 <= i < out@.len() ==> from_pool(input@, #[trigger] out@[i]),
        forall|a: int, b: int|
            0 <= a < b < out@.len() ==> (#[trigger] out@[a]).earliest_service_start@
                <= (#[trigger] out@[b]).earliest_service_start@,
{
    let ghost orig = input@;
    let mut rest = input;
    let mut out: Vec<ExtensionInfo> = Vec::new();
    proof {
        broadcast use vstd::seq_lib::group_to_multiset_ensures;

        assert forall|i: int| 0 <= i < rest@.len() implies from_pool(
            orig,
            #[trigger] rest@[i],
        ) by {
            assert(rest@[i] == orig[i]);
        }
    }
    while rest.len() > 0
        invariant
            forall|i: int| 0 <= i < rest@.len() ==> from_pool(orig, #[trigger] rest@[i]),
            forall|i: int| 0 <= i < out@.len() ==> from_pool(orig, #[trigger] out@[i]),
            out@.len() + rest@.len() == orig.len(),
            out@.to_multiset().add(rest@.to_multiset()) == orig.to_multiset(),
            forall|a: int, b: int|
                0 <= a < b < out@.len() ==> (#[trigger] out@[a]).earliest_service_start@
                    <= (#[trigger] out@[b]).earliest_service_start@,
            forall|a: int, t: int|
                0 <= a < out@.len() && 0 <= t < rest@.len() ==> (
                #[trigger] out@[a]).earliest_service_start@ <= (
                #[trigger] rest@[t]).earliest_service_start@,
        decreases rest@.len(),
    {
        let m = rest.len();
        let mut best: usize = 0;
        let mut k: usize = 1;
        while k < m
            invariant
                m == rest@.len(),
                0 < m,
                best < m,
                k <= m,
                forall|t: int|
                    0 <= t < k ==> (#[trigger] rest@[best as int]).earliest_service_start@
                        <= (#[trigger] rest@[t]).earliest_service_start@,
            decreases m - k,
        {
            if rest[k].earliest_service_start.lt(rest[best].earliest_service_start) {
                best = k;
            }
            k += 1;
        }
        let ghost pre = rest@;
        let picked = rest.swap_remove(best);
        proof {
            broadcast use vstd::seq_lib::group_to_multiset_ensures;

            assert(picked == pre[best as int]);
            assert forall|t: int| 0 <= t < rest@.len() implies from_pool(
                orig,
                #[trigger] rest@[t],
            ) by {
                if t == best as int && t < pre.len() - 1 {
                    assert(rest@[t] == pre[pre.len() - 1]);
                } else {
                    assert(rest@[t] == pre[t]);
                }
            }
            let um = pre.update(best as int, pre.last());
            assert(um.to_multiset() == pre.to_multiset().insert(pre.last()).remove(picked));
            assert(rest@ =~= um.remove(um.len() - 1));
            assert(um.remove(um.len() - 1).to_multiset() == um.to_multiset().remove(um.last()));
            assert(um.last() == pre.last());
            assert(rest@.to_multiset() =~= pre.to_multiset().remove(picked));
        }
        out.push(picked);
        proof {
            broadcast use vstd::seq_lib::group_to_multiset_ensures;

            assert(out@.to_multiset().add(rest@.to_multiset()) =~= orig.to_multiset());
        }
    }
    out
}

/// Collects, caps and schedules the one-stop extensions of a base path,
/// inserting every feasible, deadline-respecting result into `sink`.
#[verifier::rlimit(100)]
fn extend_path(world: &World, base_path: &Path, sink: &mut PathBag, Ghost(k): Ghost<int>)
    requires
        world.wf(),
        frontier_ok(*world, *base_path, k),
        old(sink).wf(),
        all_frontier(*world, *old(sink), k + 1),
    ensures
        final(sink).wf(),
        final(sink).spec_max() == old(sink).spec_max(),
        all_frontier(*world, *final(sink), k + 1),
        exists|kept: Seq<ExtensionInfo>|
            {
                &&& forall|t: int|
                    0 <= t < kept.len() ==> candidate_ok(*world, *base_path, #[trigger] kept[t])
                &&& forall|x: ExtensionInfo|
                    #[trigger] candidate_ok(*world, *base_path, x) ==> kept.contains(x) || (
                    kept.len() == world.max_tested_extensions && forall|t: int|
                        0 <= t < kept.len() ==> (#[trigger] kept[t]).earliest_service_start@
                            <= x.earliest_service_start@)
                &&& final(sink).items_seq().len() == min_int(
                    old(sink).items_seq().len() + feasible_count(*world, *base_path, kept),
                    old(sink).spec_max(),
                )
                &&& (has_candidate(*world, *base_path) && world.max_tested_extensions > 0
                    ==> kept.len() > 0)
            },
{
    let (end_in, end_at) = base_path.end();
    proof {
        lemma_frontier_len(*world, *base_path, k);
        end_in.lemma_id_bounds();
        if base_path.stops.len() > 0 {
            assert(base_path.stops@.last().bounded(PATH_TIME_BOUND as int));
        }
    }

    // Collect all possible extensions.
    let mut extensions: Vec<ExtensionInfo> = Vec::new();
    let n_sites = world.sites.len();
    let mut i: usize = 0;
    while i < n_sites
        invariant
            world.wf(),
            frontier_ok(*world, *base_path, k),
            n_sites == world.sites@.len(),
            i <= n_sites,
            end_in.spec_id() == base_path.end_site(),
            0 <= end_in.spec_id() < n_sites,
            end_at@ == base_path.end_time(),
            -PATH_TIME_BOUND <= end_at@ <= PATH_TIME_BOUND,
            forall|t: int|
                0 <= t < extensions@.len() ==> candidate_ok(
                    *world,
                    *base_path,
                    #[trigger] extensions@[t],
                ),
            (exists|s: int|
                0 <= s < i && !base_path.visited_set().contains(s) && (#[trigger] world.spec_ride(
                    base_path.end_site(),
                    s,
                )) is Some) ==> extensions@.len() > 0,
            forall|x: ExtensionInfo|
                #[trigger] candidate_ok(*world, *base_path, x) && x.site.spec_id() < i
                    ==> from_pool(extensions@, x),
        decreases n_sites - i,
    {
        let ghost pre_exts = extensions@;
        let site_id = SiteId::from_usize(i);
        // Don't revisit
        if !visited_contains(base_path, site_id) {
            // Ride must exist
            if let Some(ride) = world.ride(end_in, site_id) {
                let earliest_arrival = end_at.add(ride);
                extensions.push(
                    ExtensionInfo { site: site_id, duty: None, earliest_service_start: earliest_arrival },
                );
                proof {
                    assert(candidate_ok(*world, *base_path, extensions@.last()));
                }
                let n_duties = world.sites[i].duties.len();
                let mut d: usize = 0;
                while d < n_duties
                    invariant
                        world.wf(),
                        frontier_ok(*world, *base_path, k),
                        i < n_sites == world.sites@.len(),
                        site_id.spec_id() == i,
                        !base_path.visited_set().contains(i as int),
                        world.spec_ride(base_path.end_site(), i as int) == Some(ride@),
                        earliest_arrival@ == base_path.end_time() + ride@,
                        n_duties == world.sites@[i as int].duties@.len(),
                        d <= n_duties,
                        extensions@.len() > pre_exts.len(),
                        forall|j: int| 0 <= j < pre_exts.len() ==> #[trigger] extensions@[j] == pre_exts[j],
                        extensions@[pre_exts.len() as int].site == site_id,
                        extensions@[pre_exts.len() as int].duty is None,
                        extensions@[pre_exts.len() as int].earliest_service_start@
                            == base_path.end_time() + ride@,
                        forall|t: int|
                            0 <= t < extensions@.len() ==> candidate_ok(
                                *world,
                                *base_path,
                                #[trigger] extensions@[t],
                            ),
                        forall|dd: int|
                            0 <= dd < d && earliest_arrival@ <= (
                            #[trigger] world.sites@[i as int].duties@[dd]).spec_start()
                                ==> exists|idx: int|
                                0 <= idx < extensions@.len() && (#[trigger] extensions@[idx]).site
                                    == site_id && extensions@[idx].duty == Some(
                                    world.sites@[i as int].duties@[dd],
                                ) && extensions@[idx].earliest_service_start@
                                    == world.sites@[i as int].duties@[dd].spec_start(),
                    decreases n_duties - d,
                {
                    let ghost pre_push = extensions@;
                    let duty = world.sites[i].duties[d];
                    if earliest_arrival.le(duty.start()) {
                        extensions.push(
                            ExtensionInfo {
                                site: site_id,
                                duty: Some(duty),
                                earliest_service_start: duty.start(),
                            },
                        );
                        proof {
                            assert(world.sites@[i as int].duties@.contains(duty)) by {
                                assert(world.sites@[i as int].duties@[d as int] == duty);
                            }
                            assert(candidate_ok(*world, *base_path, extensions@.last()));
                        }
                    }
                    proof {
                        assert forall|dd: int|
                            0 <= dd < d + 1 && earliest_arrival@ <= (
                            #[trigger] world.sites@[i as int].duties@[dd]).spec_start() implies exists|
                            idx: int,
                        |
                            0 <= idx < extensions@.len() && (#[trigger] extensions@[idx]).site
                                == site_id && extensions@[idx].duty == Some(
                                world.sites@[i as int].duties@[dd],
                            ) && extensions@[idx].earliest_service_start@
                                == world.sites@[i as int].duties@[dd].spec_start() by {
                            if dd < d {
                                let idx0 = choose|idx: int|
                                    0 <= idx < pre_push.len() && (#[trigger] pre_push[idx]).site
                                        == site_id && pre_push[idx].duty == Some(
                                        world.sites@[i as int].duties@[dd],
                                    ) && pre_push[idx].earliest_service_start@
                                        == world.sites@[i as int].duties@[dd].spec_start();
                                assert(extensions@[idx0] == pre_push[idx0]);
                            } else {
                                assert(extensions@[extensions@.len() - 1].duty == Some(
                                    world.sites@[i as int].duties@[dd],
                                ));
                            }
                        }
                    }
                    d += 1;
                }
            }
        }
        proof {
            assert forall|s: int|
                0 <= s < i + 1 && !base_path.visited_set().contains(s) && (
                #[trigger] world.spec_ride(
                    base_path.end_site(),
                    s,
                )) is Some implies extensions@.len() > 0 by {
                if s < i {
                    assert(exists|s2: int|
                        0 <= s2 < i && !base_path.visited_set().contains(s2) && (
                        #[trigger] world.spec_ride(base_path.end_site(), s2)) is Some);
                }
            }
            assert forall|x: ExtensionInfo|
                #[trigger] candidate_ok(*world, *base_path, x) && x.site.spec_id()
                    < i + 1 implies from_pool(extensions@, x) by {
                if x.site.spec_id() < i {
                    assert(from_pool(pre_exts, x));
                    let j0 = choose|j: int| 0 <= j < pre_exts.len() && x == #[trigger] pre_exts[j];
                    assert(extensions@[j0] == x);
                } else {
                    let nd = extensions@[pre_exts.len() as int];
                    match x.duty {
                        None => {
                            crate::ids::lemma_site_id_determined(x.site, nd.site);
                            crate::timestamp::lemma_timestamp_determined(
                                x.earliest_service_start,
                                nd.earliest_service_start,
                            );
                            assert(x == nd);
                        },
                        Some(d) => {
                            let di = choose|di: int|
                                0 <= di < world.sites@[x.site.spec_id()].duties@.len()
                                    && world.sites@[x.site.spec_id()].duties@[di] == d;
                            assert(world.sites@[i as int].duties@[di] == d);
                            let idx = choose|idx: int|
                                0 <= idx < extensions@.len() && (#[trigger] extensions@[idx]).site
                                    == site_id && extensions@[idx].duty == Some(
                                    world.sites@[i as int].duties@[di],
                                ) && extensions@[idx].earliest_service_start@
                                    == world.sites@[i as int].duties@[di].spec_start();
                            crate::ids::lemma_site_id_determined(x.site, extensions@[idx].site);
                            crate::timestamp::lemma_timestamp_determined(
                                x.earliest_service_start,
                                extensions@[idx].earliest_service_start,
                            );
                            assert(x == extensions@[idx]);
                        },
                    }
                }
            }
        }
        i += 1;
    }
    let ghost all_cands = extensions@;
    proof {
        assert forall|x: ExtensionInfo| #[trigger] candidate_ok(
            *world,
            *base_path,
            x,
        ) implies from_pool(all_cands, x) by {
            x.site.lemma_id_bounds();
        }
    }

    // Keep only the earliest candidates when over the branching cap.
    if extensions.len() == 0 {
        proof {
            if has_candidate(*world, *base_path) {
                let s = choose|s: int|
                    0 <= s < world.sites@.len() && !base_path.visited_set().contains(s) && (
                    #[trigger] world.spec_ride(base_path.end_site(), s)) is Some;
                assert(extensions@.len() > 0);
            }
            assert forall|x: ExtensionInfo| !(#[trigger] candidate_ok(
                *world,
                *base_path,
                x,
            )) by {
                if candidate_ok(*world, *base_path, x) {
                    assert(from_pool(all_cands, x));
                }
            }
            let none_kept = Seq::<ExtensionInfo>::empty();
            assert(feasible_count(*world, *base_path, none_kept) == 0);
            assert(sink.items_seq().len() == min_int(
                old(sink).items_seq().len() + feasible_count(*world, *base_path, none_kept),
                old(sink).spec_max(),
            ));
            assert(exists|kept: Seq<ExtensionInfo>|
                {
                    &&& forall|t: int|
                        0 <= t < kept.len() ==> candidate_ok(
                            *world,
                            *base_path,
                            #[trigger] kept[t],
                        )
                    &&& forall|x: ExtensionInfo|
                        #[trigger] candidate_ok(*world, *base_path, x) ==> kept.contains(x) || (
                        kept.len() == world.max_tested_extensions && forall|t: int|
                            0 <= t < kept.len() ==> (#[trigger] kept[t]).earliest_service_start@
                                <= x.earliest_service_start@)
                    &&& sink.items_seq().len() == min_int(
                        old(sink).items_seq().len() + feasible_count(*world, *base_path, kept),
                        old(sink).spec_max(),
                    )
                    &&& (has_candidate(*world, *base_path) && world.max_tested_extensions > 0
                        ==> kept.len() > 0)
                });
        }
        return ;
    }
    if extensions.len() > world.max_tested_extensions {
        let ghost before = extensions@;
        extensions = sort_by_earliest(extensions);
        proof {
            assert forall|t: int| 0 <= t < extensions@.len() implies candidate_ok(
                *world,
                *base_path,
                #[trigger] extensions@[t],
            ) by {
                let j = choose|j: int| 0 <= j < before.len() && extensions@[t] == #[trigger] before[j];
                assert(candidate_ok(*world, *base_path, before[j]));
            }
        }
        let ghost sorted = extensions@;
        extensions.truncate(world.max_tested_extensions);
        proof {
            assert(extensions@ == sorted.subrange(0, world.max_tested_extensions as int));
            assert forall|t: int| 0 <= t < extensions@.len() implies candidate_ok(
                *world,
                *base_path,
                #[trigger] extensions@[t],
            ) by {
                assert(extensions@[t] == sorted[t]);
            }
            assert(sorted.to_multiset() == all_cands.to_multiset());
            lemma_coverage_truncated(
                *world,
                *base_path,
                all_cands,
                sorted,
                extensions@,
                world.max_tested_extensions as int,
            );
        }
    } else {
        proof {
            lemma_coverage_full(*world, *base_path, all_cands);
        }
    }
    proof {
        assert(world.max_tested_extensions > 0 ==> extensions@.len() > 0);
        assert forall|x: ExtensionInfo| #[trigger] candidate_ok(
            *world,
            *base_path,
            x,
        ) implies extensions@.contains(x) || (extensions@.len() == world.max_tested_extensions
            && forall|t: int|
            0 <= t < extensions@.len() ==> (#[trigger] extensions@[t]).earliest_service_start@
                <= x.earliest_service_start@) by {}
    }

    // Try each extension: `new_stops` is pushed and popped at every turn.
    let mut new_stops: Vec<StopSketch> = Vec::new();
    let base_len = base_path.stops.len();
    let mut s: usize = 0;
    while s < base_len
        invariant
            base_len == base_path.stops@.len(),
            s <= base_len,
            new_stops@.len() == s,
            forall|t: int|
                0 <= t < s ==> (#[trigger] new_stops@[t]).site == base_path.stops@[t].site
                    && new_stops@[t].duty == base_path.stops@[t].duty,
        decreases base_len - s,
    {
        new_stops.push(base_path.stops[s].sketch());
        s += 1;
    }

    let n_ext = extensions.len();
    let mut e: usize = 0;
    while e < n_ext
        invariant
            world.wf(),
            frontier_ok(*world, *base_path, k),
            k <= world.sites@.len(),
            n_ext == extensions@.len(),
            e <= n_ext,
            base_len == base_path.stops@.len() == k,
            new_stops@.len() == base_len,
            forall|t: int|
                0 <= t < base_len ==> (#[trigger] new_stops@[t]).site == base_path.stops@[t].site
                    && new_stops@[t].duty == base_path.stops@[t].duty,
            forall|t: int|
                0 <= t < extensions@.len() ==> candidate_ok(
                    *world,
                    *base_path,
                    #[trigger] extensions@[t],
                ),
            sink.wf(),
            sink.spec_max() == old(sink).spec_max(),
            old(sink).items_seq().len() <= old(sink).spec_max(),
            sink.items_seq().len() == min_int(
                old(sink).items_seq().len() + feasible_count(
                    *world,
                    *base_path,
                    extensions@.take(e as int),
                ),
                old(sink).spec_max(),
            ),
            all_frontier(*world, *sink, k + 1),
        decreases n_ext - e,
    {
        let ext = extensions[e];
        new_stops.push(StopSketch { site: ext.site, duty: ext.duty });
        let ghost q = new_stops@;
        proof {
            assert(q =~= sketches_of(*base_path).push(
                StopSketch { site: ext.site, duty: ext.duty },
            ));
            assert(extensions@.take(e + 1).drop_last() =~= extensions@.take(e as int));
            assert(extensions@.take(e + 1).last() == ext);
            lemma_feasible_count_bounds(*world, *base_path, extensions@.take(e as int));
            assert(new_stops@.len() == k + 1 <= world.sites@.len() + 1 <= MAX_STOPS);
            assert forall|t: int|
                0 <= t < new_stops@.len() implies (#[trigger] new_stops@[t]).site.spec_id()
                < world.sites@.len() by {
                if t < k {
                    assert(new_stops@[t].site == base_path.stops@[t].site);
                }
            }
            assert forall|t: int|
                0 <= t < new_stops@.len() implies ((#[trigger] new_stops@[t]).duty matches Some(d)
                ==> d.wf()) by {
                if t < k {
                    assert(new_stops@[t].duty == base_path.stops@[t].duty);
                }
            }
        }
        let new_path = Path::try_schedule(world, base_path.start_in, new_stops.as_slice());
        new_stops.pop();

        if new_path.is_none() {
            proof {
                assert(!ext_feasible(*world, *base_path, ext));
            }
        }
        if let Some(new_path) = new_path {
            proof {
                assert(frontier_ok(*world, new_path, k + 1)) by {
                    let stops = new_path.stops@;
                    assert forall|a: int, b: int| 0 <= a < b < stops.len() implies (
                    #[trigger] stops[a]).site.spec_id() != (#[trigger] stops[b]).site.spec_id() by {
                        if b < k {
                            assert(stops[a].site == base_path.stops@[a].site);
                            assert(stops[b].site == base_path.stops@[b].site);
                        } else {
                            assert(b == k);
                            assert(stops[b].site == ext.site);
                            assert(stops[a].site == base_path.stops@[a].site);
                            let ids = base_path.visited_sites@.map_values(
                                |x: SiteId| x.spec_id(),
                            );
                            assert(ids == base_path.stops@.map_values(
                                |st: crate::stop::Stop| st.site.spec_id(),
                            ));
                            assert(ids[a] == base_path.stops@[a].site.spec_id());
                            assert(ids.contains(base_path.stops@[a].site.spec_id()));
                            assert(base_path.visited_set().contains(
                                base_path.stops@[a].site.spec_id(),
                            ));
                        }
                    }
                }
            }
            proof {
                assert(new_path.stops@[k].service_end@ == f_service_end(
                    *world,
                    base_path.start_in.spec_id(),
                    q,
                    k + 1,
                    k,
                ));
                assert(new_path.end_time() == new_path.stops@.last().service_end@);
            }
            let keep = match world.max_end_at {
                Some(max_end_at) => {
                    let (_, t_end) = new_path.end();
                    !max_end_at.lt(t_end)
                },
                None => true,
            };
            if keep {
                proof {
                    assert(ext_feasible(*world, *base_path, ext));
                }
                let ghost pre_sink = *sink;
                sink.add(new_path);
                proof {
                    lemma_paths_preserved(
                        pre_sink,
                        *sink,
                        new_path,
                        |p2: Path| frontier_ok(*world, p2, k + 1),
                    );
                    assert(feasible_count(*world, *base_path, extensions@.take(e + 1))
                        == feasible_count(*world, *base_path, extensions@.take(e as int)) + 1);
                    assert(sink.items_seq().len() == min_int(
                        old(sink).items_seq().len() + feasible_count(
                            *world,
                            *base_path,
                            extensions@.take(e + 1),
                        ),
                        old(sink).spec_max(),
                    ));
                }
            } else {
                proof {
                    assert(!ext_feasible(*world, *base_path, ext));
                }
            }
        }
        proof {
            assert(sink.items_seq().len() == min_int(
                old(sink).items_seq().len() + feasible_count(
                    *world,
                    *base_path,
                    extensions@.take(e + 1),
                ),
                old(sink).spec_max(),
            ));
        }
        e += 1;
    }
    proof {
        assert(extensions@.take(n_ext as int) =~= extensions@);
        assert(exists|kept: Seq<ExtensionInfo>|
            {
                &&& forall|t: int|
                    0 <= t < kept.len() ==> candidate_ok(*world, *base_path, #[trigger] kept[t])
                &&& forall|x: ExtensionInfo|
                    #[trigger] candidate_ok(*world, *base_path, x) ==> kept.contains(x) || (
                    kept.len() == world.max_tested_extensions && forall|t: int|
                        0 <= t < kept.len() ==> (#[trigger] kept[t]).earliest_service_start@
                            <= x.earliest_service_start@)
                &&& sink.items_seq().len() == min_int(
                    old(sink).items_seq().len() + feasible_count(*world, *base_path, kept),
                    old(sink).spec_max(),
                )
                &&& (has_candidate(*world, *base_path) && world.max_tested_extensions > 0
                    ==> kept.len() > 0)
            }) by {
            assert(sink.items_seq().len() == min_int(
                old(sink).items_seq().len() + feasible_count(*world, *base_path, extensions@),
                old(sink).spec_max(),
            ));
        }
    }
}

/// One explorer round: extends every frontier path by one stop into a
/// fresh archive, and promotes paths that already cover the must-visit
/// set into the result archive.
fn build_iteration(
    world: &World,
    finished_paths: &mut PathBag,
    base_paths: PathBag,
    Ghost(k): Ghost<int>,
) -> (r: PathBag)
    requires
        world.wf(),
        base_paths.wf(),
        all_frontier(*world, base_paths, k),
        old(finished_paths).wf(),
        all_finished(*world, *old(finished_paths)),
    ensures
        r.wf(),
        r.spec_max() == world.max_bag_items,
        all_frontier(*world, r, k + 1),
        final(finished_paths).wf(),
        final(finished_paths).spec_max() == old(finished_paths).spec_max(),
        all_finished(*world, *final(finished_paths)),
        final(finished_paths).items_seq().len() == min_int(
            old(finished_paths).items_seq().len() + covering_count(
                *world,
                paths_of(base_paths.items_seq()),
            ),
            old(finished_paths).spec_max(),
        ),
{
    let mut new_bag = PathBag::new(world.max_bag_items);

    // For each base path, try all possible extensions; promote every path
    // that already covers the must-visit set.
    let mut rest = base_paths.into_paths();
    let ghost orig = rest@;
    proof {
        assert(orig =~= paths_of(base_paths.items_seq()));
        assert(rest@ =~= orig.subrange(0, orig.len() as int));
    }
    let ghost mut j: int = 0;
    while rest.len() > 0
        invariant
            world.wf(),
            forall|t: int| 0 <= t < rest@.len() ==> frontier_ok(*world, #[trigger] rest@[t], k),
            new_bag.wf(),
            new_bag.spec_max() == world.max_bag_items,
            all_frontier(*world, new_bag, k + 1),
            finished_paths.wf(),
            finished_paths.spec_max() == old(finished_paths).spec_max(),
            all_finished(*world, *finished_paths),
            0 <= j,
            j + rest@.len() == orig.len(),
            rest@ == orig.subrange(j, orig.len() as int),
            old(finished_paths).items_seq().len() <= old(finished_paths).spec_max(),
            finished_paths.items_seq().len() == min_int(
                old(finished_paths).items_seq().len() + covering_count(*world, orig.take(j)),
                old(finished_paths).spec_max(),
            ),
        decreases rest@.len(),
    {
        let ghost pre = rest@;
        let base_path = rest.remove(0);
        proof {
            assert(base_path == pre[0]);
            assert(base_path == orig[j]);
            assert(rest@ =~= orig.subrange(j + 1, orig.len() as int));
            assert(forall|t: int| 0 <= t < rest@.len() ==> #[trigger] rest@[t] == pre[t + 1]);
            assert(orig.take(j + 1).drop_last() =~= orig.take(j));
            assert(orig.take(j + 1).last() == orig[j]);
            lemma_covering_count_bounds(*world, orig.take(j));
        }
        extend_path(world, &base_path, &mut new_bag, Ghost(k));

        if visits_all(world, &base_path) {
            let ghost pre_fin = *finished_paths;
            finished_paths.add(base_path);
            proof {
                lemma_paths_preserved(
                    pre_fin,
                    *finished_paths,
                    base_path,
                    |q: Path| finished_ok(*world, q),
                );
                assert(covering_count(*world, orig.take(j + 1)) == covering_count(
                    *world,
                    orig.take(j),
                ) + 1);
            }
        } else {
            proof {
                assert(covering_count(*world, orig.take(j + 1)) == covering_count(
                    *world,
                    orig.take(j),
                ));
            }
        }
        proof {
            j = j + 1;
        }
    }
    proof {
        assert(orig.take(orig.len() as int) =~= orig);
    }

    new_bag
}

/// Builds the result archive: seeds a path at every start-eligible site,
/// extends the frontier round by round until it drains, and returns the
/// archive of paths that covered every must-visit site. Terminates because
/// every round's paths visit one more distinct site than the last.
pub fn build(world: &World) -> (r: PathBag)
    requires
        world.wf(),
    ensures
        r.wf(),
        r.spec_max() == world.max_bag_items,
        all_finished(*world, r),
        seedable(*world) && world.must_visit_set() =~= Set::<int>::empty()
            ==> r.items_seq().len() > 0,
{
    let mut base_paths = PathBag::new(world.max_bag_items);
    let mut finished_paths = PathBag::new(world.max_bag_items);

    // Add seed paths, based on each desired starting position.
    let n_sites = world.sites.len();
    let mut i: usize = 0;
    while i < n_sites
        invariant
            world.wf(),
            n_sites == world.sites@.len(),
            i <= n_sites,
            base_paths.wf(),
            base_paths.spec_max() == world.max_bag_items,
            all_frontier(*world, base_paths, 0),
            world.max_bag_items > 0 && (exists|t: int|
                0 <= t < i && (#[trigger] world.sites@[t]).can_start_here)
                ==> base_paths.items_seq().len() > 0,
        decreases n_sites - i,
    {
        let site = &world.sites[i];
        if site.can_start_here {
            let path = Path::empty(SiteId::from_usize(i), world.min_start_at);
            proof {
                assert(path.visited_sites@.map_values(|x: SiteId| x.spec_id())
                    =~= path.stops@.map_values(|st: crate::stop::Stop| st.site.spec_id()));
                assert(frontier_ok(*world, path, 0));
            }
            let ghost pre = base_paths;
            base_paths.add(path);
            proof {
                lemma_paths_preserved(pre, base_paths, path, |q: Path| frontier_ok(*world, q, 0));
            }
        }
        proof {
            if world.max_bag_items > 0 && (exists|t: int|
                0 <= t < i + 1 && (#[trigger] world.sites@[t]).can_start_here) {
                let t0 = choose|t: int|
                    0 <= t < i + 1 && (#[trigger] world.sites@[t]).can_start_here;
                if t0 < i {
                    assert(exists|t: int|
                        0 <= t < i && (#[trigger] world.sites@[t]).can_start_here);
                }
                assert(base_paths.items_seq().len() > 0);
            }
        }
        i += 1;
    }

    let ghost mut k: int = 0;
    while !base_paths.is_empty()
        invariant
            world.wf(),
            0 <= k,
            base_paths.wf(),
            base_paths.spec_max() == world.max_bag_items,
            all_frontier(*world, base_paths, k),
            base_paths.items_seq().len() > 0 ==> k <= world.sites@.len(),
            finished_paths.wf(),
            finished_paths.spec_max() == world.max_bag_items,
            all_finished(*world, finished_paths),
            seedable(*world) && k == 0 ==> base_paths.items_seq().len() > 0,
            seedable(*world) && world.must_visit_set() =~= Set::<int>::empty() && k > 0
                ==> finished_paths.items_seq().len() > 0,
        decreases world.sites@.len() + 1 - k,
    {
        let ghost prev_base = base_paths;
        let ghost prev_finished = finished_paths;
        base_paths = build_iteration(world, &mut finished_paths, base_paths, Ghost(k));
        proof {
            let pp = paths_of(prev_base.items_seq());
            lemma_covering_count_bounds(*world, pp);
            if seedable(*world) && world.must_visit_set() =~= Set::<int>::empty() {
                if k == 0 {
                    assert(pp.len() > 0);
                    assert(world.must_visit_set() <= pp.last().visited_set());
                    lemma_covering_count_bounds(*world, pp.drop_last());
                    assert(covering_count(*world, pp) >= 1);
                } else {
                    assert(prev_finished.items_seq().len() > 0);
                }
                assert(finished_paths.items_seq().len() > 0);
            }
            k = k + 1;
            if base_paths.items_seq().len() > 0 {
                lemma_frontier_len(*world, base_paths.items_seq()[0].path, k);
            }
        }
    }
    proof {
        if seedable(*world) && world.must_visit_set() =~= Set::<int>::empty() {
            assert(k > 0);
            assert(finished_paths.items_seq().len() > 0);
        }
    }

    finished_paths
}

} // verus!
