//! The immutable world a search runs in.

use vstd::prelude::*;
use crate::bounds::TIME_BOUND;
use crate::error::WorldError;
use crate::ids::{names_distinct, IdConverter, InternalId, SiteId};
use crate::input;
use crate::input::lookup_ride;
use crate::ride_matrix::RideMatrix;
use crate::site::{Site, Visit};
use crate::timestamp::Timestamp;

verus! {

/// The ride the constructed world must hold from site `i` to site `j`:
/// the last duration site `i`'s description lists for site `j`'s name, the
/// implicit zero-length self ride otherwise, or nothing.
pub open spec fn expected_ride(inp: input::World, i: int, j: int) -> Option<int> {
    match lookup_ride(inp.sites@[i].ride_durations@, inp.sites@[j].name@) {
        Some(d) => Some(d),
        None => if i == j {
            Some(0int)
        } else {
            None
        },
    }
}

/// A network of sites with travel times, time limits, the must-visit set and
/// the search's heuristic parameters. Built once, immutable thereafter.
#[derive(Debug)]
pub struct World {
    /// The sites, indexed by their compact identifier.
    pub sites: Vec<Site>,
    /// Earliest permissible departure.
    pub min_start_at: Timestamp,
    /// Hard deadline for path completion, if any.
    pub max_end_at: Option<Timestamp>,
    /// Travel times between sites.
    pub ride_matrix: RideMatrix,
    /// The identifiers of the sites every finished path must visit.
    pub must_visit: Vec<SiteId>,
    /// The maximum number of extensions to test from each base path during
    /// one extension step.
    pub max_tested_extensions: usize,
    /// Capacity of each path archive.
    pub max_bag_items: usize,
}

impl World {
    /// The ride duration from site `from` to site `to`, as an integer.
    pub open spec fn spec_ride(self, from: int, to: int) -> Option<int> {
        self.ride_matrix.spec_ride(from, to)
    }

    /// The identifiers of sites that every finished path must visit.
    pub open spec fn must_visit_set(self) -> Set<int> {
        Set::new(|i: int| 0 <= i < self.sites@.len() && self.sites@[i].must_visit())
    }

    /// The `must_visit` list enumerates exactly the must-visit identifiers.
    pub open spec fn must_visit_wf(self) -> bool {
        &&& forall|k: int|
            0 <= k < self.must_visit@.len() ==> self.must_visit_set().contains(
                (#[trigger] self.must_visit@[k]).spec_id(),
            )
        &&& forall|i: int|
            self.must_visit_set().contains(i) ==> exists|k: int|
                0 <= k < self.must_visit@.len() && (#[trigger] self.must_visit@[k]).spec_id() == i
    }

    /// Well-formedness: a square ride matrix matching the site count,
    /// positional site identifiers, well-formed sites, bounded time values
    /// and a faithful must-visit list.
    pub open spec fn wf(self) -> bool {
        &&& self.sites@.len() <= 256
        &&& self.ride_matrix.wf()
        &&& self.ride_matrix.spec_side() == self.sites@.len()
        &&& forall|i: int| 0 <= i < self.sites@.len() ==> (#[trigger] self.sites@[i]).wf()
        &&& forall|i: int|
            0 <= i < self.sites@.len() ==> (#[trigger] self.sites@[i]).id.spec_id() == i
        &&& -TIME_BOUND <= self.min_start_at@ <= TIME_BOUND
        &&& (self.max_end_at matches Some(t) ==> -TIME_BOUND <= t@ <= TIME_BOUND)
        &&& forall|i: int, j: int|
            0 <= i < self.sites@.len() && 0 <= j < self.sites@.len() ==> ((#[trigger] self.spec_ride(
                i,
                j,
            )) matches Some(d) ==> 0 <= d <= TIME_BOUND)
        &&& self.must_visit_wf()
        &&& self.max_bag_items <= 0x7fff_ffff
    }

    /// Builds a world from a validated description: assigns identifiers to
    /// sites in order, fills the ride matrix, and derives the must-visit
    /// set. Fails on a duplicate site name, or on a ride towards an unknown
    /// name.
    #[verifier::rlimit(60)]
    pub fn try_from_json(input: input::World) -> (r: Result<World, WorldError>)
        requires
            input.wf(),
        ensures
            r matches Ok(w) ==> {
                &&& w.wf()
                &&& w.sites@.len() == input.sites@.len()
                &&& forall|i: int|
                    0 <= i < input.sites@.len() ==> {
                        let s = #[trigger] w.sites@[i];
                        &&& s.name@ == input.sites@[i].name@
                        &&& s.duties@ == input.sites@[i].duties@
                        &&& s.service_time == input.sites@[i].service_time
                        &&& s.visit == input.sites@[i].visit
                        &&& s.can_start_here == input.sites@[i].can_start_here
                    }
                &&& forall|i: int, j: int|
                    0 <= i < input.sites@.len() && 0 <= j < input.sites@.len()
                        ==> #[trigger] w.spec_ride(i, j) == expected_ride(input, i, j)
                &&& w.min_start_at == input.min_start_at
                &&& w.max_end_at == input.max_end_at
                &&& w.max_tested_extensions == input.max_tested_extensions
                &&& w.max_bag_items == input.max_bag_items
            },
            r is Ok <==> names_distinct(input.names()) && input.rides_resolvable(),
            r matches Err(e) ==> e == if !names_distinct(input.names()) {
                WorldError::DuplicateSiteName
            } else {
                WorldError::UnknownSiteName
            },
    {
        let n = input.sites.len();
        let mut names: Vec<String> = Vec::new();
        for i in 0..n
            invariant
                n == input.sites@.len() <= 256,
                names@.len() == i,
                forall|j: int| 0 <= j < i ==> (#[trigger] names@[j])@ == input.sites@[j].name@,
        {
            names.push(input.sites[i].name.clone());
        }
        proof {
            assert(names@.map_values(|s: String| s@) =~= input.names());
        }
        let conv = match IdConverter::<SiteId>::new(&names) {
            Ok(c) => c,
            Err(e) => {
                return Err(e);
            },
        };

        let mut matrix = RideMatrix::new(n);
        let mut i: usize = 0;
        while i < n
            invariant
                input.wf(),
                n == input.sites@.len() <= 256,
                conv.wf(),
                conv.names() == input.names(),
                matrix.wf(),
                matrix.spec_side() == n,
                i <= n,
                forall|a: int, b: int|
                    0 <= a < i && 0 <= b < n ==> #[trigger] matrix.spec_ride(a, b) == expected_ride(
                        input,
                        a,
                        b,
                    ),
                forall|a: int, b: int|
                    i <= a < n && 0 <= b < n ==> #[trigger] matrix.spec_ride(a, b) == (if a == b {
                        Some(0int)
                    } else {
                        None
                    }),
                forall|a: int, k2: int|
                    0 <= a < i && 0 <= k2 < input.sites@[a].ride_durations@.len()
                        ==> input.names().contains(
                        (#[trigger] input.sites@[a].ride_durations@[k2]).0@,
                    ),
            decreases n - i,
        {
            let from_id = SiteId::from_usize(i);
            let rds = &input.sites[i].ride_durations;
            let m = rds.len();
            let mut k: usize = 0;
            while k < m
                invariant
                    input.wf(),
                    n == input.sites@.len() <= 256,
                    conv.wf(),
                    conv.names() == input.names(),
                    matrix.wf(),
                    matrix.spec_side() == n,
                    i < n,
                    from_id.spec_id() == i,
                    rds@ == input.sites@[i as int].ride_durations@,
                    m == rds@.len(),
                    k <= m,
                    forall|a: int, b: int|
                        0 <= a < i && 0 <= b < n ==> #[trigger] matrix.spec_ride(a, b)
                            == expected_ride(input, a, b),
                    forall|a: int, b: int|
                        i < a < n && 0 <= b < n ==> #[trigger] matrix.spec_ride(a, b) == (if a == b {
                            Some(0int)
                        } else {
                            None
                        }),
                    forall|b: int|
                        0 <= b < n ==> #[trigger] matrix.spec_ride(i as int, b) == (
                        match lookup_ride(rds@.take(k as int), input.sites@[b].name@) {
                            Some(d) => Some(d),
                            None => if i == b {
                                Some(0int)
                            } else {
                                None
                            },
                        }),
                    forall|a: int, k2: int|
                        0 <= a < i && 0 <= k2 < input.sites@[a].ride_durations@.len()
                            ==> input.names().contains(
                            (#[trigger] input.sites@[a].ride_durations@[k2]).0@,
                        ),
                    forall|k2: int|
                        0 <= k2 < k ==> input.names().contains((#[trigger] rds@[k2]).0@),
                decreases m - k,
            {
                let entry_dur = rds[k].1;
                let to_id = match conv.get(rds[k].0.as_str()) {
                    Ok(id) => id,
                    Err(e) => {
                        proof {
                            assert(!input.rides_resolvable()) by {
                                assert(input.sites@[i as int].ride_durations@[k as int].0@
                                    == rds@[k as int].0@);
                            }
                        }
                        return Err(e);
                    },
                };
                proof {
                    to_id.lemma_id_bounds();
                }
                matrix.set(from_id, to_id, entry_dur);
                proof {
                    let t = to_id.spec_id();
                    assert(input.names()[t] == rds@[k as int].0@);
                    assert(input.names().contains(rds@[k as int].0@));
                    assert(input.names()[t] == input.sites@[t].name@);
                    assert forall|b: int|
                        0 <= b < n implies #[trigger] matrix.spec_ride(i as int, b) == (
                    match lookup_ride(rds@.take(k + 1), input.sites@[b].name@) {
                        Some(d) => Some(d),
                        None => if i == b {
                            Some(0int)
                        } else {
                            None
                        },
                    }) by {
                        assert(rds@.take(k + 1).last() == rds@[k as int]);
                        assert(rds@.take(k + 1).drop_last() =~= rds@.take(k as int));
                        if b == t {
                            assert(input.sites@[b].name@ == rds@[k as int].0@);
                        } else {
                            assert(input.names()[b] != input.names()[t]);
                            assert(input.sites@[b].name@ != rds@[k as int].0@);
                        }
                    }
                }
                k += 1;
            }
            proof {
                assert(rds@.take(m as int) =~= rds@);
                assert forall|k2: int|
                    0 <= k2 < input.sites@[i as int].ride_durations@.len() implies input.names()
                    .contains((#[trigger] input.sites@[i as int].ride_durations@[k2]).0@) by {
                    assert(input.sites@[i as int].ride_durations@[k2] == rds@[k2]);
                }
            }
            i += 1;
        }

        let mut sites: Vec<Site> = Vec::new();
        let mut rest = input.sites;
        let ghost orig = rest@;
        let mut j: usize = 0;
        while j < n
            invariant
                n == orig.len() <= 256,
                conv.wf(),
                conv.names().len() == n,
                forall|t: int| 0 <= t < n ==> conv.names()[t] == (#[trigger] orig[t]).name@,
                forall|t: int| 0 <= t < n ==> (#[trigger] orig[t]).wf(),
                j <= n,
                rest@ == orig.subrange(j as int, n as int),
                sites@.len() == j,
                forall|t: int|
                    0 <= t < j ==> {
                        let s = #[trigger] sites@[t];
                        &&& s.id.spec_id() == t
                        &&& s.name@ == orig[t].name@
                        &&& s.duties@ == orig[t].duties@
                        &&& s.service_time == orig[t].service_time
                        &&& s.visit == orig[t].visit
                        &&& s.can_start_here == orig[t].can_start_here
                        &&& s.wf()
                    },
            decreases n - j,
        {
            let s = rest.remove(0);
            let ghost s0 = s;
            proof {
                assert(s0 == orig[j as int]);
                assert(rest@ =~= orig.subrange(j + 1, n as int));
            }
            let site = match Site::try_from_json(&conv, s) {
                Ok(x) => x,
                Err(_) => {
                    proof {
                        assert(conv.names()[j as int] == s0.name@);
                        assert(false);
                    }
                    return Err(WorldError::UnknownSiteName);
                },
            };
            proof {
                if site.id.spec_id() != j {
                    assert(conv.names()[site.id.spec_id()] == conv.names()[j as int]);
                    assert(false);
                }
            }
            sites.push(site);
            j += 1;
        }

        let must_visit = collect_must_visit(&sites);
        let w = World {
            sites,
            min_start_at: input.min_start_at,
            max_end_at: input.max_end_at,
            ride_matrix: matrix,
            must_visit,
            max_tested_extensions: input.max_tested_extensions,
            max_bag_items: input.max_bag_items,
        };
        proof {
            assert forall|a: int, b: int|
                0 <= a < n && 0 <= b < n implies ((#[trigger] w.spec_ride(a, b)) matches Some(d)
                ==> 0 <= d <= TIME_BOUND) by {
                if w.spec_ride(a, b) is Some {
                    lemma_lookup_bounded(orig[a].ride_durations@, orig[b].name@);
                }
            }
            assert(w.wf());
            assert(forall|a: int|
                0 <= a < input.sites@.len() ==> {
                    let s = #[trigger] w.sites@[a];
                    &&& s.name@ == input.sites@[a].name@
                    &&& s.duties@ == input.sites@[a].duties@
                    &&& s.service_time == input.sites@[a].service_time
                    &&& s.visit == input.sites@[a].visit
                    &&& s.can_start_here == input.sites@[a].can_start_here
                });
            assert(forall|a: int, b: int|
                0 <= a < input.sites@.len() && 0 <= b < input.sites@.len()
                    ==> #[trigger] w.spec_ride(a, b) == expected_ride(input, a, b));
        }
        Ok(w)
    }

    /// Looks up the ride duration from site `from` to site `to`.
    pub fn ride(&self, from: SiteId, to: SiteId) -> (r: Option<crate::duration::Duration>)
        requires
            self.wf(),
            from.spec_id() < self.sites@.len(),
            to.spec_id() < self.sites@.len(),
        ensures
            crate::ride_matrix::opt_duration_view(r) == self.spec_ride(
                from.spec_id(),
                to.spec_id(),
            ),
    {
        self.ride_matrix.get(from, to)
    }

    /// A world over the given sites with no rides recorded, no deadline and
    /// all heuristic caps at zero. Each site's identifier is replaced by its
    /// position.
    pub fn mock(sites: Vec<Site>) -> (w: World)
        requires
            sites@.len() <= 256,
            forall|i: int| 0 <= i < sites@.len() ==> (#[trigger] sites@[i]).wf(),
        ensures
            w.wf(),
            w.sites@.len() == sites@.len(),
            forall|i: int|
                0 <= i < sites@.len() ==> {
                    let s = #[trigger] w.sites@[i];
                    &&& s.id.spec_id() == i
                    &&& s.name@ == sites@[i].name@
                    &&& s.duties@ == sites@[i].duties@
                    &&& s.service_time == sites@[i].service_time
                    &&& s.visit == sites@[i].visit
                    &&& s.can_start_here == sites@[i].can_start_here
                },
            forall|i: int|
                0 <= i < sites@.len() ==> #[trigger] w.spec_ride(i, i) == Some(0int),
            forall|i: int, j: int|
                0 <= i < sites@.len() && 0 <= j < sites@.len() && i != j ==> #[trigger] w.spec_ride(
                    i,
                    j,
                ) is None,
            w.min_start_at@ == 0,
            w.max_end_at is None,
            w.max_tested_extensions == 0,
            w.max_bag_items == 0,
    {
        let n = sites.len();
        let ghost orig = sites@;
        let mut rest = sites;
        let mut out: Vec<Site> = Vec::new();
        let mut j: usize = 0;
        while j < n
            invariant
                n == orig.len() <= 256,
                j <= n,
                rest@ == orig.subrange(j as int, n as int),
                out@.len() == j,
                forall|t: int| 0 <= t < n ==> (#[trigger] orig[t]).wf(),
                forall|t: int|
                    0 <= t < j ==> {
                        let s = #[trigger] out@[t];
                        &&& s.id.spec_id() == t
                        &&& s.name@ == orig[t].name@
                        &&& s.duties@ == orig[t].duties@
                        &&& s.service_time == orig[t].service_time
                        &&& s.visit == orig[t].visit
                        &&& s.can_start_here == orig[t].can_start_here
                        &&& s.wf()
                    },
            decreases n - j,
        {
            let mut s = rest.remove(0);
            proof {
                assert(s == orig[j as int]);
                assert(rest@ =~= orig.subrange(j + 1, n as int));
            }
            s.id = SiteId::from_usize(j);
            out.push(s);
            j += 1;
        }
        let must_visit = collect_must_visit(&out);
        let w = World {
            sites: out,
            min_start_at: Timestamp::mock(),
            max_end_at: None,
            ride_matrix: RideMatrix::new(n),
            must_visit,
            max_tested_extensions: 0,
            max_bag_items: 0,
        };
        proof {
            assert forall|a: int, b: int|
                0 <= a < n && 0 <= b < n implies ((#[trigger] w.spec_ride(a, b)) matches Some(d)
                ==> 0 <= d <= TIME_BOUND) by {
                if a != b {
                    assert(w.spec_ride(a, b) is None);
                }
            }
            assert(w.sites@.len() <= 256);
            assert(w.ride_matrix.wf());
            assert(w.ride_matrix.spec_side() == w.sites@.len());
            assert(forall|i2: int| 0 <= i2 < w.sites@.len() ==> (#[trigger] w.sites@[i2]).wf());
            assert(forall|i2: int|
                0 <= i2 < w.sites@.len() ==> (#[trigger] w.sites@[i2]).id.spec_id() == i2);
            assert(-TIME_BOUND <= w.min_start_at@ <= TIME_BOUND);
            assert forall|k: int| 0 <= k < w.must_visit@.len() implies w.must_visit_set().contains(
                (#[trigger] w.must_visit@[k]).spec_id(),
            ) by {
                assert(0 <= w.must_visit@[k].spec_id() < w.sites@.len());
                assert(w.sites@[w.must_visit@[k].spec_id()].must_visit());
            }
            assert forall|i2: int| w.must_visit_set().contains(i2) implies exists|k: int|
                0 <= k < w.must_visit@.len() && (#[trigger] w.must_visit@[k]).spec_id() == i2 by {
                assert(0 <= i2 < w.sites@.len());
                assert(w.sites@[i2].must_visit());
                assert(exists|k: int|
                    0 <= k < must_visit@.len() && (#[trigger] must_visit@[k]).spec_id() == i2);
                let k0 = choose|k: int|
                    0 <= k < must_visit@.len() && (#[trigger] must_visit@[k]).spec_id() == i2;
                assert(0 <= k0 < w.must_visit@.len() && w.must_visit@[k0].spec_id() == i2);
            }
            assert(w.must_visit_wf());
            assert(w.wf());
        }
        w
    }
}

/// The identifiers of the sites marked as always-visit, in order.
fn collect_must_visit(sites: &Vec<Site>) -> (r: Vec<SiteId>)
    requires
        sites@.len() <= 256,
    ensures
        forall|k: int|
            0 <= k < r@.len() ==> {
                let id = (#[trigger] r@[k]).spec_id();
                &&& 0 <= id < sites@.len()
                &&& sites@[id].must_visit()
            },
        forall|i: int|
            0 <= i < sites@.len() && (#[trigger] sites@[i]).must_visit() ==> exists|k: int|
                0 <= k < r@.len() && (#[trigger] r@[k]).spec_id() == i,
{
    let n = sites.len();
    let mut r: Vec<SiteId> = Vec::new();
    for i in 0..n
        invariant
            n == sites@.len() <= 256,
            forall|k: int|
                0 <= k < r@.len() ==> {
                    let id = (#[trigger] r@[k]).spec_id();
                    &&& 0 <= id < n
                    &&& sites@[id].must_visit()
                },
            forall|t: int|
                0 <= t < i && (#[trigger] sites@[t]).must_visit() ==> exists|k: int|
                    0 <= k < r@.len() && (#[trigger] r@[k]).spec_id() == t,
    {
        let s = &sites[i];
        if s.visit == Visit::Always {
            let ghost r0 = r@;
            r.push(SiteId::from_usize(i));
            proof {
                assert forall|t: int|
                    0 <= t < i + 1 && (#[trigger] sites@[t]).must_visit() implies exists|k: int|
                    0 <= k < r@.len() && (#[trigger] r@[k]).spec_id() == t by {
                    if t < i {
                        let k = choose|k: int| 0 <= k < r0.len() && (#[trigger] r0[k]).spec_id() == t;
                        assert(r@[k].spec_id() == t);
                    } else {
                        assert(r@[r@.len() - 1].spec_id() == t);
                    }
                }
            }
        }
    }
    r
}

/// A ride looked up in a well-formed description is one of its listed
/// durations, hence bounded.
proof fn lemma_lookup_bounded(rds: Seq<(String, crate::duration::Duration)>, name: Seq<char>)
    requires
        forall|k: int| 0 <= k < rds.len() ==> 0 <= (#[trigger] rds[k]).1@ <= TIME_BOUND,
    ensures
        lookup_ride(rds, name) matches Some(d) ==> 0 <= d <= TIME_BOUND,
    decreases rds.len(),
{
    if rds.len() > 0 && rds.last().0@ != name {
        lemma_lookup_bounded(rds.drop_last(), name);
    }
}

} // verus!
