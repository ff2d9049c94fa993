//! World construction: identifier assignment, ride matrix, error cases.

use duty_paths::duration::Duration;
use duty_paths::error::WorldError;
use duty_paths::ids::{IdConverter, InternalId, SiteId};
use duty_paths::input;
use duty_paths::ride_matrix::RideMatrix;
use duty_paths::site::Visit;
use duty_paths::time_window::BoundedTimeWindow;
use duty_paths::timestamp::Timestamp;
use duty_paths::world::World;

fn site_desc(name: &str, rides: Vec<(&str, i64)>, can_start_here: bool, visit: Visit) -> input::Site {
    input::Site {
        name: name.to_string(),
        ride_durations: rides
            .into_iter()
            .map(|(to, secs)| (to.to_string(), Duration::from_s(secs)))
            .collect(),
        duties: vec![],
        service_time: Duration::from_s(0),
        visit,
        can_start_here,
    }
}

fn two_site_input() -> input::World {
    input::World {
        sites: vec![
            site_desc("alpha", vec![("beta", 30)], true, Visit::Maybe),
            site_desc("beta", vec![("alpha", 45)], false, Visit::Always),
        ],
        min_start_at: Timestamp::from_s(0),
        max_end_at: None,
        max_tested_extensions: 8,
        max_bag_items: 4,
    }
}

#[test]
fn world_from_description() {
    let world = World::try_from_json(two_site_input()).unwrap();
    assert_eq!(world.sites.len(), 2);
    assert_eq!(world.sites[0].name, "alpha");
    assert_eq!(world.sites[1].name, "beta");
    assert_eq!(world.sites[0].id, SiteId::from_usize(0));
    assert_eq!(world.sites[1].id, SiteId::from_usize(1));
    let a = SiteId::from_usize(0);
    let b = SiteId::from_usize(1);
    assert_eq!(world.ride(a, b), Some(Duration::from_s(30)));
    assert_eq!(world.ride(b, a), Some(Duration::from_s(45)));
    // The diagonal defaults to a zero-length self ride.
    assert_eq!(world.ride(a, a), Some(Duration::from_s(0)));
    // Only `beta` must be visited.
    assert_eq!(world.must_visit.len(), 1);
    assert_eq!(world.must_visit[0], b);
}

#[test]
fn duplicate_name_rejected() {
    let mut input = two_site_input();
    input.sites[1].name = "alpha".to_string();
    input.sites[1].ride_durations.clear();
    input.sites[0].ride_durations.clear();
    assert_eq!(World::try_from_json(input).unwrap_err(), WorldError::DuplicateSiteName);
}

#[test]
fn unknown_ride_name_rejected() {
    let mut input = two_site_input();
    input.sites[0].ride_durations.push(("gamma".to_string(), Duration::from_s(5)));
    assert_eq!(World::try_from_json(input).unwrap_err(), WorldError::UnknownSiteName);
}

#[test]
fn empty_window_rejected() {
    let w = BoundedTimeWindow::try_new(Timestamp::from_s(10), Timestamp::from_s(10));
    assert_eq!(w.unwrap_err(), WorldError::EmptyTimeWindow);
    let w = BoundedTimeWindow::try_new(Timestamp::from_s(5), Timestamp::from_s(9)).unwrap();
    assert_eq!(w.start(), Timestamp::from_s(5));
    assert_eq!(w.end(), Timestamp::from_s(9));
}

#[test]
fn id_converter_resolves_names() {
    let names = vec!["x".to_string(), "y".to_string()];
    let conv: IdConverter<SiteId> = IdConverter::new(&names).unwrap();
    assert_eq!(conv.len(), 2);
    assert_eq!(conv.get("y").unwrap(), SiteId::from_usize(1));
    assert_eq!(conv.get("z").unwrap_err(), WorldError::UnknownSiteName);

    let dup = vec!["x".to_string(), "x".to_string()];
    let conv: Result<IdConverter<SiteId>, WorldError> = IdConverter::new(&dup);
    assert_eq!(conv.unwrap_err(), WorldError::DuplicateSiteName);
}

#[test]
fn ride_matrix_round_trip() {
    let mut m = RideMatrix::new(3);
    let a = SiteId::from_usize(0);
    let c = SiteId::from_usize(2);
    assert_eq!(m.get(a, c), None);
    assert_eq!(m.get(a, a), Some(Duration::from_s(0)));
    m.set(a, c, Duration::from_s(17));
    assert_eq!(m.get(a, c), Some(Duration::from_s(17)));
    assert_eq!(m.get(c, a), None);
}

#[test]
fn last_ride_duration_wins() {
    let mut input = two_site_input();
    input.sites[0].ride_durations.push(("beta".to_string(), Duration::from_s(99)));
    let world = World::try_from_json(input).unwrap();
    assert_eq!(
        world.ride(SiteId::from_usize(0), SiteId::from_usize(1)),
        Some(Duration::from_s(99))
    );
}

#[test]
fn time_arithmetic_round_trip() {
    let t = Timestamp::from_s(1000);
    let d1 = Duration::from_s(250);
    let d2 = Duration::from_s(-50);
    assert_eq!(t.add(d1).sub(t), d1);
    assert_eq!(t.add(d1).add(d2), t.add(d1.add(d2)));
    assert_eq!(Timestamp::from_dhms(1, 2, 3, 4).as_s(), 86400 + 7200 + 180 + 4);
    assert_eq!(Timestamp::from_s(86400 + 7200 + 180 + 4).as_dhms(), (1, 2, 3, 4));
}
