//! The slack-compression scheduler on the reference three-site scenario.

use duty_paths::duration::Duration;
use duty_paths::ids::{InternalId, SiteId};
use duty_paths::path::Path;
use duty_paths::site::Site;
use duty_paths::stop::StopSketch;
use duty_paths::time_window::BoundedTimeWindow;
use duty_paths::timestamp::Timestamp;
use duty_paths::world::World;

fn window(start: i64, end: i64) -> BoundedTimeWindow {
    BoundedTimeWindow::try_new(Timestamp::from_s(start), Timestamp::from_s(end)).unwrap()
}

fn three_site_world() -> World {
    let site0 = Site::mock();
    let mut site1 = Site::mock();
    site1.service_time = Duration::from_s(1);
    let mut site2 = Site::mock();
    site2.service_time = Duration::from_s(2);

    let mut world = World::mock(vec![site0, site1, site2]);
    world.min_start_at = Timestamp::from_s(0);
    world
        .ride_matrix
        .set(SiteId::from_usize(0), SiteId::from_usize(1), Duration::from_s(10));
    world
        .ride_matrix
        .set(SiteId::from_usize(1), SiteId::from_usize(2), Duration::from_s(20));
    world
}

fn check_schedule() {
    let world = three_site_world();

    let path = Path::try_schedule(
        &world,
        SiteId::from_usize(0),
        &[
            StopSketch { site: SiteId::from_usize(1), duty: Some(window(15, 18)) },
            StopSketch { site: SiteId::from_usize(2), duty: Some(window(39, 50)) },
        ],
    )
    .unwrap();

    assert_eq!(path.stops[0].ride_start, Timestamp::from_s(7));
    assert_eq!(path.stops[0].ride_end, Timestamp::from_s(17));
    assert_eq!(path.stops[0].service_start, Timestamp::from_s(17));
    assert_eq!(path.stops[0].service_end, Timestamp::from_s(18));
    assert_eq!(path.stops[1].ride_start, Timestamp::from_s(18));
    assert_eq!(path.stops[1].ride_end, Timestamp::from_s(38));
    assert_eq!(path.stops[1].service_start, Timestamp::from_s(39));
    assert_eq!(path.stops[1].service_end, Timestamp::from_s(41));
}

#[test]
fn schedule() {
    check_schedule();
}

#[test]
fn path_schedule() {
    check_schedule();
}

#[test]
fn schedule_missing_ride() {
    let world = three_site_world();
    // There is no direct ride from site 0 to site 2.
    let path = Path::try_schedule(
        &world,
        SiteId::from_usize(0),
        &[StopSketch { site: SiteId::from_usize(2), duty: None }],
    );
    assert!(path.is_none());
}

#[test]
fn schedule_duty_closing_violated() {
    let world = three_site_world();
    // Arrival at site 1 is at 10 and service ends at 11, after the duty closes.
    let path = Path::try_schedule(
        &world,
        SiteId::from_usize(0),
        &[StopSketch { site: SiteId::from_usize(1), duty: Some(window(5, 10)) }],
    );
    assert!(path.is_none());
}

#[test]
fn schedule_no_duty_runs_earliest() {
    let world = three_site_world();
    let path = Path::try_schedule(
        &world,
        SiteId::from_usize(0),
        &[StopSketch { site: SiteId::from_usize(1), duty: None }],
    )
    .unwrap();
    assert_eq!(path.start_at, Timestamp::from_s(0));
    assert_eq!(path.stops[0].ride_end, Timestamp::from_s(10));
    assert_eq!(path.stops[0].service_end, Timestamp::from_s(11));
    let (end_site, end_time) = path.end();
    assert_eq!(end_site, SiteId::from_usize(1));
    assert_eq!(end_time, Timestamp::from_s(11));
}

#[test]
fn empty_path_ends_where_it_starts() {
    let p = Path::empty(SiteId::from_usize(2), Timestamp::from_s(42));
    let (end_site, end_time) = p.end();
    assert_eq!(end_site, SiteId::from_usize(2));
    assert_eq!(end_time, Timestamp::from_s(42));
    assert_eq!(p.cost.stops, 0);
}
