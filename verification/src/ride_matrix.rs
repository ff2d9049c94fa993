//! The sparse table of travel times between sites.

use vstd::prelude::*;
use crate::duration::Duration;
use crate::ids::{InternalId, SiteId};

verus! {

/// The integer view of an optional duration.
pub open spec fn opt_duration_view(o: Option<Duration>) -> Option<int> {
    match o {
        Some(d) => Some(d@),
        None => None,
    }
}

/// A dense `side x side` table of optional ride durations, indexed by site
/// identifiers. `None` means there is no feasible direct ride. The table is
/// asymmetric: `ride(a, b)` need not equal `ride(b, a)`.
#[derive(Debug, Clone)]
pub struct RideMatrix {
    side: usize,
    entries: Vec<Option<Duration>>,
}

impl RideMatrix {
    /// The number of sites the table covers.
    pub closed spec fn spec_side(self) -> int {
        self.side as int
    }

    /// Well-formedness: the table is square and small enough to index.
    pub closed spec fn wf(self) -> bool {
        &&& self.entries@.len() == self.side * self.side
        &&& self.side <= 0x100
    }

    /// The ride duration from `from` to `to`, as an integer.
    pub closed spec fn spec_ride(self, from: int, to: int) -> Option<int> {
        opt_duration_view(self.entries@[from * self.spec_side() + to])
    }

    /// Creates a matrix with the diagonal as zero and the other entries as
    /// `None`.
    pub fn new(side: usize) -> (m: RideMatrix)
        requires
            side <= 0x100,
        ensures
            m.wf(),
            m.spec_side() == side,
            forall|i: int| 0 <= i < side ==> m.spec_ride(i, i) == Some(0int),
            forall|i: int, j: int|
                0 <= i < side && 0 <= j < side && i != j ==> m.spec_ride(i, j) is None,
    {
        assert(side * side <= 0x10000) by (nonlinear_arith)
            requires
                side <= 0x100,
        ;
        let total = side * side;
        let mut entries: Vec<Option<Duration>> = Vec::new();
        let mut k: usize = 0;
        while k < total
            invariant
                total == side * side,
                side <= 0x100,
                entries@.len() == k <= total,
                forall|t: int| 0 <= t < k ==> entries@[t] is None,
            decreases total - k,
        {
            entries.push(None);
            k += 1;
        }
        let mut m = RideMatrix { side, entries };
        proof {
            assert forall|a: int, b: int| 0 <= a < side && 0 <= b < side implies m.spec_ride(
                a,
                b,
            ) is None by {
                lemma_index_in_range(side as int, a, b);
            }
        }
        let mut i: usize = 0;
        while i < side
            invariant
                m.wf(),
                m.spec_side() == side,
                i <= side,
                forall|t: int| 0 <= t < i ==> m.spec_ride(t, t) == Some(0int),
                forall|a: int, b: int|
                    0 <= a < side && 0 <= b < side && a != b ==> m.spec_ride(a, b) is None,
            decreases side - i,
        {
            assert(i * side + i < side * side && side * side <= 0x10000) by (nonlinear_arith)
                requires
                    i < side,
                    side <= 0x100,
            ;
            let idx = i * side + i;
            let ghost m0 = m;
            m.entries.set(idx, Some(Duration::zero()));
            proof {
                assert forall|t: int| 0 <= t < i + 1 implies m.spec_ride(t, t) == Some(0int) by {
                    lemma_index_in_range(side as int, t, t);
                    assert(m.spec_side() == side as int);
                    let x = t * (side as int) + t;
                    assert(m.spec_ride(t, t) == opt_duration_view(m.entries@[x]));
                    if t < i {
                        assert(x != idx as int) by (nonlinear_arith)
                            requires
                                x == t * (side as int) + t,
                                idx == i * side + i,
                                0 <= t < i as int,
                                i < side,
                        ;
                        assert(m.entries@[x] == m0.entries@[x]);
                        assert(m0.spec_ride(t, t) == Some(0int));
                    } else {
                        assert(x == idx as int);
                    }
                }
                assert forall|a: int, b: int|
                    0 <= a < side && 0 <= b < side && a != b implies m.spec_ride(a, b) is None by {
                    lemma_index_in_range(side as int, a, b);
                    let x = a * (side as int) + b;
                    assert(m.spec_ride(a, b) == opt_duration_view(m.entries@[x]));
                    assert(x != idx as int) by (nonlinear_arith)
                        requires
                            x == a * (side as int) + b,
                            idx == i * side + i,
                            0 <= a < side as int,
                            0 <= b < side as int,
                            a != b,
                            0 <= i < side as int,
                    ;
                    assert(m.entries@[x] == m0.entries@[x]);
                    assert(m0.spec_ride(a, b) is None);
                }
            }
            i += 1;
        }
        m
    }

    /// Looks up the ride duration from `from` to `to`.
    pub fn get(&self, from: SiteId, to: SiteId) -> (r: Option<Duration>)
        requires
            self.wf(),
            from.spec_id() < self.spec_side(),
            to.spec_id() < self.spec_side(),
        ensures
            opt_duration_view(r) == self.spec_ride(from.spec_id(), to.spec_id()),
    {
        proof {
            from.lemma_id_bounds();
            to.lemma_id_bounds();
            lemma_index_in_range(self.side as int, from.spec_id(), to.spec_id());
        }
        let i = from.as_usize() * self.side + to.as_usize();
        self.entries[i]
    }

    /// Records the ride duration from `from` to `to`.
    pub fn set(&mut self, from: SiteId, to: SiteId, value: Duration)
        requires
            old(self).wf(),
            from.spec_id() < old(self).spec_side(),
            to.spec_id() < old(self).spec_side(),
        ensures
            final(self).wf(),
            final(self).spec_side() == old(self).spec_side(),
            final(self).spec_ride(from.spec_id(), to.spec_id()) == Some(value@),
            forall|a: int, b: int|
                0 <= a < old(self).spec_side() && 0 <= b < old(self).spec_side() && !(a
                    == from.spec_id() && b == to.spec_id()) ==> final(self).spec_ride(a, b) == old(
                self,
            ).spec_ride(a, b),
    {
        proof {
            from.lemma_id_bounds();
            to.lemma_id_bounds();
            lemma_index_in_range(self.side as int, from.spec_id(), to.spec_id());
        }
        let i = from.as_usize() * self.side + to.as_usize();
        self.entries.set(i, Some(value));
        proof {
            let side = self.side as int;
            assert forall|a: int, b: int|
                0 <= a < side && 0 <= b < side && !(a == from.spec_id() && b
                    == to.spec_id()) implies self.spec_ride(a, b) == old(self).spec_ride(a, b) by {
                lemma_index_in_range(side, a, b);
                assert(a * side + b != from.spec_id() * side + to.spec_id())
                    by (nonlinear_arith)
                    requires
                        0 <= a < side,
                        0 <= b < side,
                        0 <= from.spec_id() < side,
                        0 <= to.spec_id() < side,
                        !(a == from.spec_id() && b == to.spec_id()),
                ;
            }
        }
    }
}

/// The flattened index of an in-range cell lies within the table.
proof fn lemma_index_in_range(side: int, a: int, b: int)
    requires
        0 <= a < side,
        0 <= b < side,
        side <= 0x100,
    ensures
        0 <= a * side + b < side * side,
        a * side + b < 0x10000,
{
    assert(a * side + b < side * side && side * side <= 0x10000) by (nonlinear_arith)
        requires
            0 <= a < side,
            0 <= b < side,
            side <= 0x100,
    ;
    assert(0 <= a * side + b) by (nonlinear_arith)
        requires
            0 <= a,
            0 <= b,
            0 <= side,
    ;
}

} // verus!
