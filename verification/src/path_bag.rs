//! The Pareto archive: a capacity-bounded set of paths with dominance
//! bookkeeping.
//!
//! Each member carries two counters, maintained incrementally: how many
//! current members it strictly dominates, and how many strictly dominate
//! it. The archive's well-formedness ([`PathBag::wf`]) states that these
//! counters always equal the counts recomputed from scratch over the
//! currently retained members, and that the archive never exceeds its
//! capacity.

use vstd::prelude::*;
use crate::path::Path;
use crate::path_cost::{cost_dominates, CostOrder, PathCostView};

verus! {

/// A path together with its dominance counters.
#[derive(Debug, Clone)]
pub struct PathBagItem {
    /// The retained path.
    pub path: Path,
    /// How many current members this item's cost strictly dominates.
    pub dominates: i32,
    /// How many current members strictly dominate this item's cost.
    pub dominated_by: i32,
}

impl PathBagItem {
    /// The item's score: how many members dominate it, and how many it
    /// dominates. Under [`score_worse`], more dominators rank strictly
    /// worse, and among equally dominated items the one dominating fewer
    /// others ranks worse.
    pub fn score(&self) -> (r: (i32, i32))
        ensures
            r.0 == self.dominated_by,
            r.1 == self.dominates,
    {
        (self.dominated_by, self.dominates)
    }
}

/// The costs of a sequence of archive items.
pub open spec fn costs_of(items: Seq<PathBagItem>) -> Seq<PathCostView> {
    items.map_values(|it: PathBagItem| it.path.cost@)
}

/// The paths of a sequence of archive items.
pub open spec fn paths_of(items: Seq<PathBagItem>) -> Seq<Path> {
    items.map_values(|it: PathBagItem| it.path)
}

/// How many costs in `s` strictly dominate `c`.
pub open spec fn count_dominators(s: Seq<PathCostView>, c: PathCostView) -> int
    decreases s.len(),
{
    if s.len() == 0 {
        0
    } else {
        count_dominators(s.drop_last(), c) + if cost_dominates(s.last(), c) {
            1int
        } else {
            0int
        }
    }
}

/// How many costs in `s` are strictly dominated by `c`.
pub open spec fn count_dominated(s: Seq<PathCostView>, c: PathCostView) -> int
    decreases s.len(),
{
    if s.len() == 0 {
        0
    } else {
        count_dominated(s.drop_last(), c) + if cost_dominates(c, s.last()) {
            1int
        } else {
            0int
        }
    }
}

/// Whether score `a` is strictly worse than score `b`: dominated by more
/// members, or by equally many while dominating fewer.
pub open spec fn score_worse(a_db: int, a_dom: int, b_db: int, b_dom: int) -> bool {
    a_db > b_db || (a_db == b_db && a_dom < b_dom)
}

/// Whether, within the pool of costs `s`, cost `x` scores strictly worse
/// than cost `y`.
pub open spec fn pool_worse(s: Seq<PathCostView>, x: PathCostView, y: PathCostView) -> bool {
    score_worse(
        count_dominators(s, x),
        count_dominated(s, x),
        count_dominators(s, y),
        count_dominated(s, y),
    )
}

/// Appending a cost raises each count by that cost's contribution.
proof fn lemma_count_push(s: Seq<PathCostView>, c: PathCostView, x: PathCostView)
    ensures
        count_dominators(s.push(x), c) == count_dominators(s, c) + if cost_dominates(x, c) {
            1int
        } else {
            0int
        },
        count_dominated(s.push(x), c) == count_dominated(s, c) + if cost_dominates(c, x) {
            1int
        } else {
            0int
        },
{
    assert(s.push(x).drop_last() =~= s);
    assert(s.push(x).last() == x);
}

/// Both counts lie between zero and the pool size.
proof fn lemma_count_bounds(s: Seq<PathCostView>, c: PathCostView)
    ensures
        0 <= count_dominators(s, c) <= s.len(),
        0 <= count_dominated(s, c) <= s.len(),
    decreases s.len(),
{
    if s.len() > 0 {
        lemma_count_bounds(s.drop_last(), c);
    }
}

/// A cost present in the pool contributes nothing to its own counts, so
/// they stay below the pool size.
proof fn lemma_count_mem(s: Seq<PathCostView>, c: PathCostView, t: int)
    requires
        0 <= t < s.len(),
        s[t] == c,
    ensures
        count_dominators(s, c) <= s.len() - 1,
        count_dominated(s, c) <= s.len() - 1,
    decreases s.len(),
{
    lemma_count_bounds(s, c);
    if t == s.len() - 1 {
        lemma_count_bounds(s.drop_last(), c);
        assert(!cost_dominates(s.last(), c));
        assert(!cost_dominates(c, s.last()));
    } else {
        lemma_count_mem(s.drop_last(), c, t);
    }
}

/// Removing the element at `i` by a swap with the last element lowers each
/// count by exactly that element's contribution.
proof fn lemma_count_swap_remove(s: Seq<PathCostView>, c: PathCostView, i: int)
    requires
        0 <= i < s.len(),
    ensures
        count_dominators(s.update(i, s.last()).drop_last(), c) == count_dominators(s, c) - (
        if cost_dominates(s[i], c) {
            1int
        } else {
            0int
        }),
        count_dominated(s.update(i, s.last()).drop_last(), c) == count_dominated(s, c) - (
        if cost_dominates(c, s[i]) {
            1int
        } else {
            0int
        }),
{
    let t = s.update(i, s.last());
    if i == s.len() - 1 {
        assert(t =~= s);
        assert(t.drop_last() =~= s.drop_last());
    } else {
        assert(t.last() == s.last());
        assert(t.drop_last() =~= s.drop_last().update(i, s.last()));
        lemma_count_update(s.drop_last(), c, i, s.last());
        assert(s.drop_last()[i] == s[i]);
    }
}

/// Overwriting position `i` swaps that element's contribution for the new
/// element's.
proof fn lemma_count_update(s: Seq<PathCostView>, c: PathCostView, i: int, x: PathCostView)
    requires
        0 <= i < s.len(),
    ensures
        count_dominators(s.update(i, x), c) == count_dominators(s, c) - (if cost_dominates(
            s[i],
            c,
        ) {
            1int
        } else {
            0int
        }) + (if cost_dominates(x, c) {
            1int
        } else {
            0int
        }),
        count_dominated(s.update(i, x), c) == count_dominated(s, c) - (if cost_dominates(c, s[i]) {
            1int
        } else {
            0int
        }) + (if cost_dominates(c, x) {
            1int
        } else {
            0int
        }),
    decreases s.len(),
{
    let t = s.update(i, x);
    if i == s.len() - 1 {
        assert(t.drop_last() =~= s.drop_last());
        assert(t.last() == x);
    } else {
        assert(t.last() == s.last());
        assert(t.drop_last() =~= s.drop_last().update(i, x));
        lemma_count_update(s.drop_last(), c, i, x);
        assert(s.drop_last()[i] == s[i]);
    }
}

/// A bounded multiset of paths with per-item dominance counters. Insertion
/// is unconditional but may evict the worst-scored member to stay within
/// capacity.
#[derive(Debug)]
pub struct PathBag {
    items: Vec<PathBagItem>,
    max_items: usize,
}

impl PathBag {
    /// The retained items.
    pub closed spec fn items_seq(self) -> Seq<PathBagItem> {
        self.items@
    }

    /// The capacity fixed at construction.
    pub closed spec fn spec_max(self) -> int {
        self.max_items as int
    }

    /// The costs of the retained items.
    pub open spec fn costs(self) -> Seq<PathCostView> {
        costs_of(self.items_seq())
    }

    /// The paths of the retained items.
    pub open spec fn paths(self) -> Seq<Path> {
        paths_of(self.items_seq())
    }

    /// Every item's counters equal the counts recomputed from scratch over
    /// the currently retained members.
    pub open spec fn counters_ok(self) -> bool {
        forall|i: int|
            0 <= i < self.items_seq().len() ==> {
                let it = #[trigger] self.items_seq()[i];
                &&& it.dominates == count_dominated(self.costs(), it.path.cost@)
                &&& it.dominated_by == count_dominators(self.costs(), it.path.cost@)
            }
    }

    /// Well-formedness: accurate counters, within capacity.
    pub open spec fn wf(self) -> bool {
        &&& self.counters_ok()
        &&& self.items_seq().len() <= self.spec_max()
        &&& self.spec_max() <= 0x7fff_ffff
    }

    /// An empty archive with the given fixed capacity.
    pub fn new(max_items: usize) -> (bag: PathBag)
        requires
            max_items <= 0x7fff_ffff,
        ensures
            bag.wf(),
            bag.items_seq().len() == 0,
            bag.spec_max() == max_items,
    {
        PathBag { items: Vec::new(), max_items }
    }

    /// How many paths the archive holds.
    pub fn len(&self) -> (n: usize)
        ensures
            n == self.items_seq().len(),
    {
        self.items.len()
    }

    /// Whether the archive holds no path.
    pub fn is_empty(&self) -> (r: bool)
        ensures
            r == (self.items_seq().len() == 0),
    {
        self.items.is_empty()
    }

    /// Inserts a path. All dominance counters are updated; if the archive
    /// then exceeds its capacity, a member with the worst score — dominated
    /// by the most members, ties broken towards dominating fewest — is
    /// evicted (possibly the new path itself) and the survivors' counters
    /// are adjusted to reflect only relations among retained members.
    #[verifier::rlimit(100)]
    pub fn add(&mut self, new_path: Path)
        requires
            old(self).wf(),
        ensures
            final(self).wf(),
            final(self).spec_max() == old(self).spec_max(),
            final(self).items_seq().len() == if old(self).items_seq().len() < old(
                self,
            ).spec_max() {
                old(self).items_seq().len() + 1
            } else {
                old(self).spec_max() as nat
            },
            forall|i: int|
                0 <= i < final(self).items_seq().len() ==> (#[trigger] final(self).items_seq()[i]).path
                    == new_path || exists|j: int|
                    0 <= j < old(self).items_seq().len() && final(self).items_seq()[i].path == old(
                        self,
                    ).items_seq()[j].path,
            ({
                let all = old(self).costs().push(new_path.cost@);
                let all_paths = old(self).paths().push(new_path);
                if old(self).items_seq().len() < old(self).spec_max() {
                    &&& final(self).paths().to_multiset() == all_paths.to_multiset()
                    &&& final(self).costs().to_multiset() == all.to_multiset()
                } else {
                    exists|i: int|
                        {
                            &&& 0 <= i < all.len()
                            &&& final(self).paths().to_multiset() == all_paths.to_multiset().remove(
                                all_paths[i],
                            )
                            &&& final(self).costs().to_multiset() == all.to_multiset().remove(
                                all[i],
                            )
                            &&& forall|j: int|
                                0 <= j < all.len() ==> !pool_worse(all, #[trigger] all[j], all[i])
                        }
                }
            }),
    {
        let ghost old_items = self.items@;
        let ghost old_costs = costs_of(old_items);
        let ghost new_cost = new_path.cost@;
        let ghost all = old_costs.push(new_cost);
        let ghost all_paths = paths_of(old_items).push(new_path);
        let n = self.items.len();
        proof {
            assert forall|j: int| 0 <= j < n implies {
                &&& 0 <= (#[trigger] old_items[j]).dominates <= n - 1
                &&& 0 <= old_items[j].dominated_by <= n - 1
            } by {
                lemma_count_mem(old_costs, old_items[j].path.cost@, j);
                lemma_count_bounds(old_costs, old_items[j].path.cost@);
            }
        }
        let mut new_item = PathBagItem { path: new_path, dominates: 0, dominated_by: 0 };
        let mut worst_index: usize = 0;

        // Update every member's counters against the new cost, accumulate
        // the new item's counters, and track the worst-scored member.
        let mut i: usize = 0;
        while i < n
            invariant
                n == self.items@.len() == old_items.len(),
                self.max_items == old(self).max_items,
                n <= self.max_items <= 0x7fff_ffff,
                old(self).wf(),
                old_items == old(self).items@,
                old_costs == costs_of(old_items),
                forall|j: int|
                    0 <= j < n ==> {
                        &&& 0 <= (#[trigger] old_items[j]).dominates <= n - 1
                        &&& 0 <= old_items[j].dominated_by <= n - 1
                    },
                new_cost == new_item.path.cost@,
                all == old_costs.push(new_cost),
                i <= n,
                costs_of(self.items@) == old_costs,
                forall|j: int| i <= j < n ==> #[trigger] self.items@[j] == old_items[j],
                forall|j: int|
                    0 <= j < i ==> {
                        let it = #[trigger] self.items@[j];
                        &&& it.path == old_items[j].path
                        &&& it.dominated_by == count_dominators(all, all[j])
                        &&& it.dominates == count_dominated(all, all[j])
                    },
                new_item.path == new_path,
                new_item.dominated_by == count_dominators(old_costs.take(i as int), new_cost),
                new_item.dominates == count_dominated(old_costs.take(i as int), new_cost),
                0 <= new_item.dominated_by <= i,
                0 <= new_item.dominates <= i,
                i > 0 ==> worst_index < i,
                i > 0 ==> forall|j: int|
                    0 <= j < i ==> !pool_worse(all, #[trigger] all[j], all[worst_index as int]),
            decreases n - i,
        {
            let ghost pre = self.items@;
            let c2 = self.items[i].path.cost;
            let cmp = new_item.path.cost.compare(&c2);
            proof {
                assert(all[i as int] == old_items[i as int].path.cost@);
                lemma_count_push(old_costs, all[i as int], new_cost);
                lemma_count_mem(all, all[i as int], i as int);
                lemma_count_bounds(old_costs.take(i + 1), new_cost);
                assert(old_costs.take(i + 1).drop_last() =~= old_costs.take(i as int));
                assert(old_costs.take(i + 1).last() == old_costs[i as int]);
            }
            match cmp {
                CostOrder::Less => {
                    new_item.dominates = new_item.dominates + 1;
                    adjust(&mut self.items, i, 0, 1);
                },
                CostOrder::Greater => {
                    new_item.dominated_by = new_item.dominated_by + 1;
                    adjust(&mut self.items, i, 1, 0);
                },
                _ => {},
            }
            proof {
                assert(costs_of(self.items@) =~= old_costs);
            }
            let it_db = self.items[i].dominated_by;
            let it_dom = self.items[i].dominates;
            if i == 0 {
                worst_index = 0;
            } else {
                let w_db = self.items[worst_index].dominated_by;
                let w_dom = self.items[worst_index].dominates;
                if it_db > w_db || (it_db == w_db && it_dom < w_dom) {
                    worst_index = i;
                }
            }
            i += 1;
        }

        proof {
            assert(old_costs.take(n as int) =~= old_costs);
            lemma_count_push(old_costs, new_cost, new_cost);
            assert(!cost_dominates(new_cost, new_cost));
            assert(all[n as int] == new_cost);
        }
        // Decide whether the new item itself is the worst before inserting.
        let new_is_worst: bool = if n == 0 {
            true
        } else {
            let w_db = self.items[worst_index].dominated_by;
            let w_dom = self.items[worst_index].dominates;
            new_item.dominated_by > w_db || (new_item.dominated_by == w_db && new_item.dominates
                < w_dom)
        };
        self.items.push(new_item);
        let wi = if new_is_worst {
            n
        } else {
            worst_index
        };
        proof {
            assert(costs_of(self.items@) =~= all);
            assert(paths_of(self.items@) =~= all_paths);
            assert forall|j: int| 0 <= j < n + 1 implies !pool_worse(
                all,
                #[trigger] all[j],
                all[wi as int],
            ) by {
                if n > 0 && new_is_worst && j < n {
                    assert(!pool_worse(all, all[j], all[worst_index as int]));
                    assert(pool_worse(all, all[n as int], all[worst_index as int]));
                }
            }
            assert forall|j: int| 0 <= j < n + 1 implies {
                let it = #[trigger] self.items@[j];
                &&& it.dominated_by == count_dominators(all, all[j])
                &&& it.dominates == count_dominated(all, all[j])
                &&& it.path.cost@ == all[j]
            } by {}
            assert forall|j: int| 0 <= j < n + 1 implies ((#[trigger] self.items@[j]).path
                == new_path || exists|t: int|
                0 <= t < old_items.len() && self.items@[j].path == old_items[t].path) by {
                if j < n {
                    assert(self.items@[j].path == old_items[j].path);
                }
            }
        }

        if self.items.len() > self.max_items {
            let ghost stage = self.items@;
            let removed = self.items.swap_remove(wi);
            let ghost rc = removed.path.cost@;
            proof {
                assert(rc == all[wi as int]);
                assert(costs_of(self.items@) =~= costs_of(stage).update(
                    wi as int,
                    costs_of(stage).last(),
                ).drop_last());
                broadcast use vstd::seq_lib::group_to_multiset_ensures;

                assert(costs_of(stage) == all);
                let um = all.update(wi as int, all.last());
                assert(um.to_multiset() == all.to_multiset().insert(all.last()).remove(rc));
                assert(um.drop_last() =~= um.remove(um.len() - 1));
                assert(um.remove(um.len() - 1).to_multiset() == um.to_multiset().remove(um.last()));
                assert(um.last() == all.last());
                assert(costs_of(self.items@).to_multiset() =~= all.to_multiset().remove(rc));
                assert(paths_of(stage) == all_paths);
                assert(paths_of(self.items@) =~= all_paths.update(
                    wi as int,
                    all_paths.last(),
                ).drop_last());
                let up = all_paths.update(wi as int, all_paths.last());
                assert(up.to_multiset() == all_paths.to_multiset().insert(all_paths.last()).remove(
                    all_paths[wi as int],
                ));
                assert(up.drop_last() =~= up.remove(up.len() - 1));
                assert(up.remove(up.len() - 1).to_multiset() == up.to_multiset().remove(up.last()));
                assert(up.last() == all_paths.last());
                assert(paths_of(self.items@).to_multiset() =~= all_paths.to_multiset().remove(
                    all_paths[wi as int],
                ));
            }
            let rcost = removed.path.cost;
            let m = self.items.len();
            let ghost cur_costs = costs_of(self.items@);
            let ghost cur_paths = paths_of(self.items@);
            proof {
                assert(self.items@ =~= stage.update(wi as int, stage.last()).drop_last());
                assert forall|j: int| 0 <= j < self.items@.len() implies {
                    let it = #[trigger] self.items@[j];
                    &&& it.dominated_by == count_dominators(all, it.path.cost@)
                    &&& it.dominates == count_dominated(all, it.path.cost@)
                    &&& (it.path == new_path || exists|t: int|
                        0 <= t < old_items.len() && it.path == old_items[t].path)
                } by {
                    if j == wi as int && j < stage.len() - 1 {
                        assert(self.items@[j] == stage[stage.len() - 1]);
                    } else {
                        assert(self.items@[j] == stage[j]);
                    }
                }
            }
            let mut k: usize = 0;
            while k < m
                invariant
                    m == self.items@.len() == n,
                    n < self.max_items + 1,
                    self.max_items == old(self).max_items <= 0x7fff_ffff,
                    rc == rcost@,
                    wi <= n,
                    all.len() == n + 1,
                    rc == all[wi as int],
                    cur_costs == all.update(wi as int, all.last()).drop_last(),
                    cur_costs == costs_of(self.items@),
                    cur_paths == paths_of(self.items@),
                    k <= m,
                    forall|j: int|
                        0 <= j < m ==> (#[trigger] self.items@[j]).path.cost@ == cur_costs[j],
                    forall|j: int|
                        k <= j < m ==> {
                            let it = #[trigger] self.items@[j];
                            &&& it.dominated_by == count_dominators(all, it.path.cost@)
                            &&& it.dominates == count_dominated(all, it.path.cost@)
                        },
                    forall|j: int|
                        0 <= j < k ==> {
                            let it = #[trigger] self.items@[j];
                            &&& it.dominated_by == count_dominators(cur_costs, it.path.cost@)
                            &&& it.dominates == count_dominated(cur_costs, it.path.cost@)
                        },
                    forall|j: int|
                        0 <= j < m ==> ((#[trigger] self.items@[j]).path == new_path || exists|
                            t: int,
                        |
                            0 <= t < old_items.len() && self.items@[j].path == old_items[t].path),
                decreases m - k,
            {
                let ghost ck = self.items@[k as int].path.cost@;
                proof {
                    assert(count_dominators(all, ck) == count_dominators(all.update(
                        wi as int,
                        all.last(),
                    ).drop_last(), ck) + if cost_dominates(rc, ck) {
                        1int
                    } else {
                        0int
                    }) by {
                        lemma_count_swap_remove(all, ck, wi as int);
                    }
                    assert(count_dominated(all, ck) == count_dominated(all.update(
                        wi as int,
                        all.last(),
                    ).drop_last(), ck) + if cost_dominates(ck, rc) {
                        1int
                    } else {
                        0int
                    }) by {
                        lemma_count_swap_remove(all, ck, wi as int);
                    }
                    assert(cur_costs =~= all.update(wi as int, all.last()).drop_last());
                    lemma_count_bounds(cur_costs, ck);
                }
                let c2 = self.items[k].path.cost;
                let cmp = rcost.compare(&c2);
                match cmp {
                    CostOrder::Less => {
                        adjust(&mut self.items, k, 0, -1);
                    },
                    CostOrder::Greater => {
                        adjust(&mut self.items, k, -1, 0);
                    },
                    _ => {},
                }
                proof {
                    assert(costs_of(self.items@) =~= cur_costs);
                    assert(paths_of(self.items@) =~= cur_paths);
                }
                k += 1;
            }
            proof {
                assert(0 <= wi && (wi as int) < all.len());
                assert(costs_of(self.items@).to_multiset() == all.to_multiset().remove(
                    all[wi as int],
                ));
                assert(paths_of(self.items@).to_multiset() == all_paths.to_multiset().remove(
                    all_paths[wi as int],
                ));
            }
        }
        proof {
            assert(old(self).costs().push(new_path.cost@) == all);
            assert(old(self).paths().push(new_path) == all_paths);
            if old(self).items_seq().len() < old(self).spec_max() {
                assert(self.costs().to_multiset() == all.to_multiset());
                assert(self.paths().to_multiset() == all_paths.to_multiset());
            } else {
                assert(self.costs().to_multiset() == all.to_multiset().remove(all[wi as int]));
                assert(self.paths().to_multiset() == all_paths.to_multiset().remove(
                    all_paths[wi as int],
                ));
                assert(forall|j: int|
                    0 <= j < all.len() ==> !pool_worse(all, #[trigger] all[j], all[wi as int]));
                assert(exists|i: int|
                    {
                        &&& 0 <= i < all.len()
                        &&& self.paths().to_multiset() == all_paths.to_multiset().remove(
                            all_paths[i],
                        )
                        &&& self.costs().to_multiset() == all.to_multiset().remove(all[i])
                        &&& forall|j: int|
                            0 <= j < all.len() ==> !pool_worse(all, #[trigger] all[j], all[i])
                    });
            }
        }
    }
}

/// The total of the per-score counts of a list of entries.
pub open spec fn sum_counts(s: Seq<((i32, i32), i32)>) -> int
    decreases s.len(),
{
    if s.len() == 0 {
        0
    } else {
        sum_counts(s.drop_last()) + s.last().1
    }
}

/// Overwriting one entry shifts the total by the difference of its counts.
proof fn lemma_sum_update(s: Seq<((i32, i32), i32)>, f: int, e: ((i32, i32), i32))
    requires
        0 <= f < s.len(),
    ensures
        sum_counts(s.update(f, e)) == sum_counts(s) - s[f].1 + e.1,
    decreases s.len(),
{
    let t = s.update(f, e);
    if f == s.len() - 1 {
        assert(t.drop_last() =~= s.drop_last());
        assert(t.last() == e);
    } else {
        assert(t.last() == s.last());
        assert(t.drop_last() =~= s.drop_last().update(f, e));
        lemma_sum_update(s.drop_last(), f, e);
        assert(s.drop_last()[f] == s[f]);
    }
}

/// Whether `ent` is an accurate score-count entry for the first `n` items.
pub open spec fn entry_ok(items: Seq<PathBagItem>, n: int, ent: ((i32, i32), i32)) -> bool {
    &&& ent.1 == count_score(items.take(n), ent.0.0 as int, ent.0.1 as int)
    &&& ent.1 > 0
}

/// How many items of `s` carry exactly the score `(db, dom)`.
pub open spec fn count_score(s: Seq<PathBagItem>, db: int, dom: int) -> int
    decreases s.len(),
{
    if s.len() == 0 {
        0
    } else {
        count_score(s.drop_last(), db, dom) + if s.last().dominated_by == db && s.last().dominates
            == dom {
            1int
        } else {
            0int
        }
    }
}

impl PathBag {
    /// Surrenders the retained paths, in internal order.
    pub fn into_paths(self) -> (r: Vec<Path>)
        ensures
            r@.len() == self.items_seq().len(),
            forall|j: int|
                0 <= j < r@.len() ==> #[trigger] r@[j] == self.items_seq()[j].path,
    {
        let mut rest = self.items;
        let ghost orig = rest@;
        let mut out: Vec<Path> = Vec::new();
        let n = rest.len();
        let mut j: usize = 0;
        while j < n
            invariant
                n == orig.len(),
                j <= n,
                rest@ == orig.subrange(j as int, n as int),
                out@.len() == j,
                forall|t: int| 0 <= t < j ==> #[trigger] out@[t] == orig[t].path,
            decreases n - j,
        {
            let it = rest.remove(0);
            proof {
                assert(it == orig[j as int]);
                assert(rest@ =~= orig.subrange(j + 1, n as int));
            }
            out.push(it.path);
            j += 1;
        }
        out
    }

    /// Surrenders the retained paths, in internal order.
    pub fn into_vec(self) -> (r: Vec<Path>)
        ensures
            r@.len() == self.items_seq().len(),
            forall|j: int|
                0 <= j < r@.len() ==> #[trigger] r@[j] == self.items_seq()[j].path,
    {
        self.into_paths()
    }

    /// Surrenders the retained items sorted by descending score: the
    /// least-dominated first, and among equally dominated items the one
    /// dominating more others first.
    pub fn into_sorted_paths(self) -> (r: Vec<PathBagItem>)
        ensures
            r@.to_multiset() == self.items_seq().to_multiset(),
            forall|a: int, b: int|
                0 <= a < b < r@.len() ==> !score_worse(
                    (#[trigger] r@[a]).dominated_by as int,
                    r@[a].dominates as int,
                    (#[trigger] r@[b]).dominated_by as int,
                    r@[b].dominates as int,
                ),
    {
        let mut rest = self.items;
        let mut out: Vec<PathBagItem> = Vec::new();
        let ghost total = rest@.to_multiset();
        proof {
            broadcast use vstd::seq_lib::group_to_multiset_ensures;

        }
        while rest.len() > 0
            invariant
                out@.to_multiset().add(rest@.to_multiset()) == total,
                forall|a: int, b: int|
                    0 <= a < b < out@.len() ==> !score_worse(
                        (#[trigger] out@[a]).dominated_by as int,
                        out@[a].dominates as int,
                        (#[trigger] out@[b]).dominated_by as int,
                        out@[b].dominates as int,
                    ),
                forall|a: int, t: int|
                    0 <= a < out@.len() && 0 <= t < rest@.len() ==> !score_worse(
                        (#[trigger] out@[a]).dominated_by as int,
                        out@[a].dominates as int,
                        (#[trigger] rest@[t]).dominated_by as int,
                        rest@[t].dominates as int,
                    ),
            decreases rest@.len(),
        {
            let m = rest.len();
            let mut best: usize = 0;
            let mut k: usize = 1;
            while k < m
                invariant
                    m == rest@.len(),
                    0 < m,
                    best < k <= m || (best == 0 && k <= m),
                    best < m,
                    forall|t: int|
                        0 <= t < k ==> !score_worse(
                            (#[trigger] rest@[best as int]).dominated_by as int,
                            rest@[best as int].dominates as int,
                            (#[trigger] rest@[t]).dominated_by as int,
                            rest@[t].dominates as int,
                        ),
                decreases m - k,
            {
                let b_db = rest[best].dominated_by;
                let b_dom = rest[best].dominates;
                let c_db = rest[k].dominated_by;
                let c_dom = rest[k].dominates;
                if b_db > c_db || (b_db == c_db && b_dom < c_dom) {
                    best = k;
                }
                k += 1;
            }
            let ghost pre = rest@;
            let picked = rest.swap_remove(best);
            proof {
                broadcast use vstd::seq_lib::group_to_multiset_ensures;

                assert(picked == pre[best as int]);
                let um = pre.update(best as int, pre.last());
                assert(um.to_multiset() == pre.to_multiset().insert(pre.last()).remove(picked));
                assert(rest@ =~= um.remove(um.len() - 1));
                assert(um.remove(um.len() - 1).to_multiset() == um.to_multiset().remove(um.last()));
                assert(um.last() == pre.last());
                assert(rest@.to_multiset() =~= pre.to_multiset().remove(picked));
                assert(forall|t: int|
                    0 <= t < rest@.len() ==> #[trigger] rest@[t] == pre[(if t == best as int {
                        pre.len() - 1
                    } else {
                        t
                    })]);
            }
            out.push(picked);
            proof {
                assert(out@.to_multiset().add(rest@.to_multiset()) =~= total);
            }
        }
        out
    }

    /// The number of retained items carrying each `(dominated_by,
    /// dominates)` pair, one entry per occurring pair.
    #[verifier::rlimit(100)]
    pub fn count_by_score(&self) -> (r: Vec<((i32, i32), i32)>)
        requires
            self.items_seq().len() <= 0x7fff_ffff,
        ensures
            forall|e: int|
                0 <= e < r@.len() ==> entry_ok(
                    self.items_seq(),
                    self.items_seq().len() as int,
                    #[trigger] r@[e],
                ),
            forall|e: int, f: int| 0 <= e < f < r@.len() ==> (#[trigger] r@[e]).0 != (#[trigger] r@[f]).0,
            sum_counts(r@) == self.items_seq().len(),
    {
        let n = self.items.len();
        let mut r: Vec<((i32, i32), i32)> = Vec::new();
        let mut e: usize = 0;
        while e < n
            invariant
                n == self.items_seq().len() <= 0x7fff_ffff,
                e <= n,
                forall|t: int|
                    0 <= t < r@.len() ==> entry_ok(self.items_seq(), e as int, #[trigger] r@[t]),
                forall|t: int, f: int| 0 <= t < f < r@.len() ==> (#[trigger] r@[t]).0 != (#[trigger] r@[f]).0,
                sum_counts(r@) == e,
                forall|i: int|
                    0 <= i < e ==> exists|t: int|
                        0 <= t < r@.len() && (#[trigger] r@[t]).0 == (
                        (#[trigger] self.items_seq()[i]).dominated_by,
                        self.items_seq()[i].dominates,
                        ),
            decreases n - e,
        {
            let db = self.items[e].dominated_by;
            let dom = self.items[e].dominates;
            let ghost pre = r@;
            let m = r.len();
            let mut f: usize = 0;
            let mut found = false;
            while f < m && !found
                invariant
                    m == r@.len(),
                    r@ == pre,
                    f <= m,
                    found ==> f < m && r@[f as int].0 == (db, dom),
                    !found ==> forall|t: int| 0 <= t < f ==> (#[trigger] r@[t]).0 != (db, dom),
                decreases m - f + if found {
                    0int
                } else {
                    1int
                },
            {
                if r[f].0.0 == db && r[f].0.1 == dom {
                    found = true;
                } else {
                    f += 1;
                }
            }
            proof {
                assert(self.items_seq().take(e + 1).drop_last() =~= self.items_seq().take(e as int));
                assert(self.items_seq().take(e + 1).last() == self.items_seq()[e as int]);
                lemma_count_score_bounds(self.items_seq().take(e as int), db as int, dom as int);
            }
            if found {
                let old_count = r[f].1;
                r.set(f, ((db, dom), old_count + 1));
                proof {
                    assert(pre[f as int].0 == (db, dom));
                    lemma_sum_update(pre, f as int, r@[f as int]);
                    lemma_entries_after_bump(
                        self.items_seq(),
                        e as int,
                        pre,
                        r@,
                        f as int,
                        db,
                        dom,
                    );
                    assert forall|i2: int| 0 <= i2 < e + 1 implies exists|t: int|
                        0 <= t < r@.len() && (#[trigger] r@[t]).0 == (
                        (#[trigger] self.items_seq()[i2]).dominated_by,
                        self.items_seq()[i2].dominates,
                        ) by {
                        if i2 < e {
                            let t0 = choose|t: int|
                                0 <= t < pre.len() && (#[trigger] pre[t]).0 == (
                                (self.items_seq()[i2]).dominated_by,
                                self.items_seq()[i2].dominates,
                                );
                            assert(r@[t0].0 == pre[t0].0);
                        } else {
                            assert(r@[f as int].0 == (db, dom));
                        }
                    }
                }
            } else {
                r.push(((db, dom), 1));
                proof {
                    assert(r@.drop_last() =~= pre);
                    assert forall|i2: int|
                        0 <= i2 < e implies !((#[trigger] self.items_seq()[i2]).dominated_by == db
                        && self.items_seq()[i2].dominates == dom) by {
                        let t0 = choose|t: int|
                            0 <= t < pre.len() && (#[trigger] pre[t]).0 == (
                            (self.items_seq()[i2]).dominated_by,
                            self.items_seq()[i2].dominates,
                            );
                        assert(pre[t0].0 != (db, dom));
                    }
                    lemma_entries_after_fresh(self.items_seq(), e as int, pre, r@, db, dom);
                    assert forall|i2: int| 0 <= i2 < e + 1 implies exists|t: int|
                        0 <= t < r@.len() && (#[trigger] r@[t]).0 == (
                        (#[trigger] self.items_seq()[i2]).dominated_by,
                        self.items_seq()[i2].dominates,
                        ) by {
                        if i2 < e {
                            let t0 = choose|t: int|
                                0 <= t < pre.len() && (#[trigger] pre[t]).0 == (
                                (self.items_seq()[i2]).dominated_by,
                                self.items_seq()[i2].dominates,
                                );
                            assert(r@[t0].0 == pre[t0].0);
                        } else {
                            assert(r@[r@.len() - 1].0 == (db, dom));
                        }
                    }
                }
            }
            e += 1;
        }
        proof {
            assert(self.items_seq().take(n as int) =~= self.items_seq());
        }
        r
    }
}

/// No item of `s` carries the score `(db, dom)`, so its count is zero.
proof fn lemma_count_score_zero(s: Seq<PathBagItem>, db: int, dom: int)
    requires
        forall|i: int|
            0 <= i < s.len() ==> !((#[trigger] s[i]).dominated_by == db && s[i].dominates == dom),
    ensures
        count_score(s, db, dom) == 0,
    decreases s.len(),
{
    if s.len() > 0 {
        lemma_count_score_zero(s.drop_last(), db, dom);
    }
}

/// Raising by one the count entry whose key matches item `e`'s score keeps
/// every entry accurate for one more item.
proof fn lemma_entries_after_bump(
    items: Seq<PathBagItem>,
    e: int,
    pre: Seq<((i32, i32), i32)>,
    post: Seq<((i32, i32), i32)>,
    f: int,
    db: i32,
    dom: i32,
)
    requires
        0 <= e < items.len(),
        items[e].dominated_by == db,
        items[e].dominates == dom,
        0 <= f < pre.len(),
        pre[f].0 == (db, dom),
        post.len() == pre.len(),
        post[f].0 == (db, dom),
        post[f].1 == pre[f].1 + 1,
        forall|t: int| 0 <= t < pre.len() && t != f ==> post[t] == #[trigger] pre[t],
        forall|t: int| 0 <= t < pre.len() ==> entry_ok(items, e, #[trigger] pre[t]),
        forall|t: int, u: int|
            0 <= t < u < pre.len() ==> (#[trigger] pre[t]).0 != (#[trigger] pre[u]).0,
    ensures
        forall|t: int| 0 <= t < post.len() ==> entry_ok(items, e + 1, #[trigger] post[t]),
{
    assert(items.take(e + 1).drop_last() =~= items.take(e));
    assert(items.take(e + 1).last() == items[e]);
    assert forall|t: int| 0 <= t < post.len() implies entry_ok(items, e + 1, #[trigger] post[t]) by {
        if t != f {
            if t < f {
                assert(pre[t].0 != pre[f].0);
            } else {
                assert(pre[f].0 != pre[t].0);
            }
            assert(post[t] == pre[t]);
            assert(pre[t].0.0 != db || pre[t].0.1 != dom);
        }
    }
}

/// Appending a fresh count entry for item `e`'s score keeps every entry
/// accurate for one more item, provided no earlier item carried that score.
proof fn lemma_entries_after_fresh(
    items: Seq<PathBagItem>,
    e: int,
    pre: Seq<((i32, i32), i32)>,
    post: Seq<((i32, i32), i32)>,
    db: i32,
    dom: i32,
)
    requires
        0 <= e < items.len(),
        items[e].dominated_by == db,
        items[e].dominates == dom,
        post.len() == pre.len() + 1,
        post[pre.len() as int].0 == (db, dom),
        post[pre.len() as int].1 == 1,
        forall|t: int| 0 <= t < pre.len() ==> post[t] == #[trigger] pre[t],
        forall|t: int| 0 <= t < pre.len() ==> entry_ok(items, e, #[trigger] pre[t]),
        forall|t: int| 0 <= t < pre.len() ==> (#[trigger] pre[t]).0 != (db, dom),
        forall|i: int|
            0 <= i < e ==> !((#[trigger] items[i]).dominated_by == db && items[i].dominates
                == dom),
    ensures
        forall|t: int| 0 <= t < post.len() ==> entry_ok(items, e + 1, #[trigger] post[t]),
{
    assert(items.take(e + 1).drop_last() =~= items.take(e));
    assert(items.take(e + 1).last() == items[e]);
    assert forall|i: int|
        0 <= i < items.take(e).len() implies !((#[trigger] items.take(e)[i]).dominated_by == db
        && items.take(e)[i].dominates == dom) by {
        assert(items.take(e)[i] == items[i]);
    }
    lemma_count_score_zero(items.take(e), db as int, dom as int);
    assert forall|t: int| 0 <= t < post.len() implies entry_ok(items, e + 1, #[trigger] post[t]) by {
        if t < pre.len() {
            assert(post[t] == pre[t]);
            assert(pre[t].0.0 != db || pre[t].0.1 != dom);
        }
    }
}

/// Archive capacity law: a well-formed archive never holds more paths than
/// its fixed capacity. [`PathBag::new`] returns a well-formed archive and
/// [`PathBag::add`] preserves well-formedness, so this bound holds after
/// any sequence of insertions.
pub proof fn lemma_archive_capacity(bag: PathBag)
    requires
        bag.wf(),
    ensures
        bag.items_seq().len() <= bag.spec_max(),
{
}

/// Dominance counter law: in a well-formed archive, every retained item's
/// `dominated_by` equals the number of retained members whose cost strictly
/// dominates it, and `dominates` the number it strictly dominates, as
/// recomputed from scratch over the retained members. [`PathBag::add`]
/// maintains this incrementally through insertion and eviction.
pub proof fn lemma_counters_recomputed(bag: PathBag, i: int)
    requires
        bag.wf(),
        0 <= i < bag.items_seq().len(),
    ensures
        bag.items_seq()[i].dominates == count_dominated(bag.costs(), bag.items_seq()[i].path.cost@),
        bag.items_seq()[i].dominated_by == count_dominators(
            bag.costs(),
            bag.items_seq()[i].path.cost@,
        ),
{
}

/// A score count never exceeds the pool size.
proof fn lemma_count_score_bounds(s: Seq<PathBagItem>, db: int, dom: int)
    ensures
        0 <= count_score(s, db, dom) <= s.len(),
    decreases s.len(),
{
    if s.len() > 0 {
        lemma_count_score_bounds(s.drop_last(), db, dom);
    }
}

/// Shifts the two counters of one archive item in place, leaving its path
/// and every other item untouched.
fn adjust(items: &mut Vec<PathBagItem>, i: usize, delta_dominates: i32, delta_dominated_by: i32)
    requires
        i < old(items)@.len(),
        i32::MIN <= old(items)@[i as int].dominates + delta_dominates <= i32::MAX,
        i32::MIN <= old(items)@[i as int].dominated_by + delta_dominated_by <= i32::MAX,
    ensures
        final(items)@.len() == old(items)@.len(),
        final(items)@[i as int].path == old(items)@[i as int].path,
        final(items)@[i as int].dominates == old(items)@[i as int].dominates + delta_dominates,
        final(items)@[i as int].dominated_by == old(items)@[i as int].dominated_by
            + delta_dominated_by,
        forall|j: int|
            0 <= j < old(items)@.len() && j != i ==> final(items)@[j] == old(items)@[j],
{
    let mut tmp = PathBagItem { path: Path::mock(), dominates: 0, dominated_by: 0 };
    items.set_and_swap(i, &mut tmp);
    tmp.dominates = tmp.dominates + delta_dominates;
    tmp.dominated_by = tmp.dominated_by + delta_dominated_by;
    items.set_and_swap(i, &mut tmp);
}

} // verus!
