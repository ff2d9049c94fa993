//! The explorer end to end: seeding, extension, must-visit promotion.

use duty_paths::duration::Duration;
use duty_paths::explorer::build;
use duty_paths::ids::InternalId;
use duty_paths::input;
use duty_paths::output;
use duty_paths::site::Visit;
use duty_paths::time_window::BoundedTimeWindow;
use duty_paths::timestamp::Timestamp;
use duty_paths::world::World;

fn window(start: i64, end: i64) -> BoundedTimeWindow {
    BoundedTimeWindow::try_new(Timestamp::from_s(start), Timestamp::from_s(end)).unwrap()
}

fn line_world() -> World {
    // depot -> shop -> depot, with a duty at the shop.
    let input = input::World {
        sites: vec![
            input::Site {
                name: "depot".to_string(),
                ride_durations: vec![("shop".to_string(), Duration::from_s(10))],
                duties: vec![],
                service_time: Duration::from_s(0),
                visit: Visit::Maybe,
                can_start_here: true,
            },
            input::Site {
                name: "shop".to_string(),
                ride_durations: vec![("depot".to_string(), Duration::from_s(10))],
                duties: vec![window(20, 40)],
                service_time: Duration::from_s(5),
                visit: Visit::Always,
                can_start_here: false,
            },
        ],
        min_start_at: Timestamp::from_s(0),
        max_end_at: None,
        max_tested_extensions: 8,
        max_bag_items: 8,
    };
    World::try_from_json(input).unwrap()
}

#[test]
fn build_covers_must_visit() {
    let world = line_world();
    let finished = build(&world);
    let items = finished.into_sorted_paths();
    assert!(!items.is_empty());
    for item in &items {
        // Every finished path visited the shop.
        assert!(item
            .path
            .visited_sites
            .iter()
            .any(|id| id.as_usize() == 1));
        // And starts at the only start-eligible site.
        assert_eq!(item.path.start_in.as_usize(), 0);
    }
    // The best finished path serves the shop within its duty.
    let best = &items[0].path;
    let last = best.stops.last().unwrap();
    assert!(last.service_end.as_s() <= 40);
    let view = output::Path::new(&world, &items[0]);
    assert_eq!(view.start_in, "depot");
    assert_eq!(view.stops.last().unwrap().site, "shop");
}

#[test]
fn build_respects_deadline() {
    let mut world = line_world();
    // Even without a duty, serving the shop cannot end before 15.
    world.max_end_at = Some(Timestamp::from_s(14));
    let finished = build(&world);
    // No extension survives the deadline, and the seed path never visited
    // the shop, so nothing is promoted.
    assert!(finished.is_empty());
}

#[test]
fn build_without_seeds_is_empty() {
    let mut world = line_world();
    world.sites[0].can_start_here = false;
    let finished = build(&world);
    assert!(finished.is_empty());
}

#[test]
fn build_promotes_seed_without_must_visit() {
    let mut world = line_world();
    // Make the shop optional: the depot seed already covers the (empty)
    // must-visit set and must be promoted.
    world.sites[1].visit = Visit::Maybe;
    world.must_visit.clear();
    let finished = build(&world);
    assert!(!finished.is_empty());
    let paths = finished.into_paths();
    assert!(paths.iter().any(|p| p.stops.is_empty()));
}
