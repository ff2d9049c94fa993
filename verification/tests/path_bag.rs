//! The Pareto archive: dominance chains, incomparable sets, eviction rules.

use std::collections::BTreeMap;

use duty_paths::duration::Duration;
use duty_paths::path::Path;
use duty_paths::path_bag::PathBag;

fn path_with_cost(a: i64, b: i64) -> Path {
    let mut path = Path::mock();
    path.cost.total_ride = Duration::from_s(a);
    path.cost.total_time = Duration::from_s(b);
    path
}

fn extract_costs(bag: PathBag) -> Vec<(i64, i64)> {
    let mut costs: Vec<(i64, i64)> = bag
        .into_paths()
        .into_iter()
        .map(|path| (path.cost.total_ride.as_s(), path.cost.total_time.as_s()))
        .collect();
    costs.sort();
    costs
}

/// Insert items that purely dominate each other
#[test]
fn pure_dominance() {
    let mut bag = PathBag::new(3);
    for c in 0..10 {
        bag.add(path_with_cost(c, c));
    }
    assert_eq!(extract_costs(bag), vec![(0, 0), (1, 1), (2, 2)]);

    let mut bag = PathBag::new(3);
    for c in (0..10).rev() {
        bag.add(path_with_cost(c, c));
    }
    assert_eq!(extract_costs(bag), vec![(0, 0), (1, 1), (2, 2)]);
}

/// Insert items without dominance
#[test]
fn no_dominance() {
    let mut bag = PathBag::new(3);
    for c in 0..10 {
        bag.add(path_with_cost(c, -c));
    }
    // Implementation detail: the least index is dropped every time
    assert_eq!(extract_costs(bag), vec![(1, -1), (2, -2), (9, -9)]);
}

fn check(points: &[(i64, i64, bool)]) {
    let mut bag = PathBag::new(3);
    let mut droppable_by_x = BTreeMap::new();

    for &(x, y, droppable) in points {
        bag.add(path_with_cost(x, y));
        droppable_by_x.insert(x, droppable);
    }

    for (x, _) in extract_costs(bag) {
        droppable_by_x.remove(&x);
    }

    assert_eq!(
        droppable_by_x.len(),
        1,
        "Not exactly one point dropped in {:?}",
        points
    );
    let dropped = droppable_by_x.into_iter().next().unwrap();
    assert!(
        dropped.1,
        "Dropped {}, which is not allowed in {:?}",
        dropped.0, points
    );
}

#[test]
fn test() {
    // Enumerates all possibilities with 4 costs represented as points in a 2D integer grid from
    // 0 to 3, with the additional restriction that no two points can share the same row or
    // column. For each case, each point is marked as `true` if it can be dropped if only the
    // three "best" ones were to be kept.
    // Each case is a tuple like `(a, drop_a, b, drop_b, c, drop_c, d, drop_d)` representing the
    // 4 points `(0, a)`, `(1, b)`, `(2, c)` and `(3, d)`.
    // A point is marked as droppable if has the largest number of points that dominate it.
    // In case of a tie, we prefer dropping the ones with the smallest number of dominated
    // points. In case of a tie still, they're all marked as droppable.
    let cases = vec![
        vec![(0, false), (1, false), (2, false), (3, true)],
        vec![(0, false), (1, false), (3, true), (2, true)],
        vec![(0, false), (2, false), (1, false), (3, true)],
        vec![(0, false), (2, false), (3, true), (1, false)],
        vec![(0, false), (3, false), (1, false), (2, true)],
        vec![(0, false), (3, true), (2, true), (1, true)],
        vec![(1, false), (0, false), (2, false), (3, true)],
        vec![(1, false), (0, false), (3, true), (2, true)],
        vec![(1, false), (2, false), (0, false), (3, true)],
        vec![(1, false), (2, false), (3, true), (0, false)],
        vec![(1, false), (3, true), (0, false), (2, true)],
        vec![(1, false), (3, true), (2, true), (0, false)],
        vec![(2, false), (0, false), (1, false), (3, true)],
        vec![(2, false), (0, false), (3, true), (1, false)],
        vec![(2, false), (1, false), (0, false), (3, true)],
        vec![(2, false), (1, false), (3, true), (0, false)],
        vec![(2, false), (3, true), (0, false), (1, true)],
        vec![(2, false), (3, true), (1, false), (0, false)],
        vec![(3, false), (0, false), (1, false), (2, true)],
        vec![(3, false), (0, false), (2, true), (1, true)],
        vec![(3, false), (1, false), (0, false), (2, true)],
        vec![(3, false), (1, false), (2, true), (0, false)],
        vec![(3, false), (2, false), (0, true), (1, true)],
        vec![(3, true), (2, true), (1, true), (0, true)],
    ];

    // For each case, 3 out of the 4 points are added to a bag with maximum size of 3. When the
    // 4th point is added and one of the points is dropped, we check whether that was allowed.
    for points in cases {
        let mut points: Vec<(i64, i64, bool)> = points
            .into_iter()
            .enumerate()
            .map(|(x, (y, droppable))| (x as i64, y, droppable))
            .collect();
        check(&points);
        points.rotate_right(1);
        check(&points);
        points.rotate_right(1);
        check(&points);
        points.rotate_right(1);
        check(&points);
    }
}

/// The archive never exceeds its capacity, after every single insertion.
#[test]
fn capacity_invariant() {
    let mut bag = PathBag::new(2);
    for c in 0..6 {
        bag.add(path_with_cost(c, c + 1));
        assert!(bag.len() <= 2);
    }
    assert_eq!(bag.len(), 2);
    assert!(!bag.is_empty());

    let mut empty_cap = PathBag::new(0);
    empty_cap.add(path_with_cost(1, 1));
    assert_eq!(empty_cap.len(), 0);
    assert!(empty_cap.is_empty());
}

/// Sorted output puts least-dominated items first.
#[test]
fn sorted_paths_order() {
    let mut bag = PathBag::new(5);
    bag.add(path_with_cost(2, 2));
    bag.add(path_with_cost(1, 1));
    bag.add(path_with_cost(3, 3));
    let sorted = bag.into_sorted_paths();
    assert_eq!(sorted.len(), 3);
    assert_eq!(sorted[0].path.cost.total_ride.as_s(), 1);
    assert_eq!(sorted[0].dominated_by, 0);
    assert_eq!(sorted[0].dominates, 2);
    assert_eq!(sorted[1].path.cost.total_ride.as_s(), 2);
    assert_eq!(sorted[1].dominated_by, 1);
    assert_eq!(sorted[2].path.cost.total_ride.as_s(), 3);
    assert_eq!(sorted[2].dominated_by, 2);
    assert_eq!(sorted[2].dominates, 0);
}

/// Score counting groups items by their counter pair.
#[test]
fn count_by_score_groups() {
    let mut bag = PathBag::new(5);
    bag.add(path_with_cost(1, 1));
    bag.add(path_with_cost(2, -2));
    bag.add(path_with_cost(3, -3));
    // All three are pairwise incomparable: every score is (0, 0).
    let counts = bag.count_by_score();
    assert_eq!(counts, vec![((0, 0), 3)]);
}
