//! Cost vectors, the dominance order, and the small value types.

use duty_paths::capped::CappedMax;
use duty_paths::distance::Distance;
use duty_paths::duration::Duration;
use duty_paths::ids::{InternalId, SiteId};
use duty_paths::path_cost::{CostOrder, PathCost};
use duty_paths::stop::Stop;
use duty_paths::time_window::BoundedTimeWindow;
use duty_paths::timestamp::Timestamp;

fn cost(ride: i64, time: i64, on_duty: i32, stops: i32) -> PathCost {
    PathCost {
        total_ride: Duration::from_s(ride),
        total_time: Duration::from_s(time),
        stops_on_duty: on_duty,
        stops,
    }
}

#[test]
fn dominance_order() {
    let base = cost(10, 20, 2, 3);
    // Lower ride and time, higher counts: strictly better in every way.
    let better = cost(5, 20, 2, 4);
    let worse = cost(10, 25, 1, 3);
    let incomparable = cost(5, 25, 2, 3);

    assert_eq!(base.compare(&base), CostOrder::Equal);
    assert_eq!(better.compare(&base), CostOrder::Less);
    assert_eq!(base.compare(&better), CostOrder::Greater);
    assert_eq!(base.compare(&worse), CostOrder::Less);
    assert_eq!(base.compare(&incomparable), CostOrder::Incomparable);
    assert_eq!(incomparable.compare(&base), CostOrder::Incomparable);
}

fn stop(site: usize, duty: Option<BoundedTimeWindow>, times: (i64, i64, i64, i64)) -> Stop {
    Stop {
        site: SiteId::from_usize(site),
        duty,
        ride_start: Timestamp::from_s(times.0),
        ride_end: Timestamp::from_s(times.1),
        service_start: Timestamp::from_s(times.2),
        service_end: Timestamp::from_s(times.3),
    }
}

#[test]
fn cost_recomputed_from_stops() {
    let duty = BoundedTimeWindow::try_new(Timestamp::from_s(15), Timestamp::from_s(60)).unwrap();
    let stops = vec![
        stop(1, None, (0, 10, 10, 12)),
        stop(2, Some(duty), (12, 20, 22, 30)),
    ];
    let c = PathCost::new(Timestamp::from_s(0), stops.as_slice());
    assert_eq!(c.total_ride, Duration::from_s(10 + 8));
    assert_eq!(c.total_time, Duration::from_s(30));
    assert_eq!(c.stops_on_duty, 1);
    assert_eq!(c.stops, 2);

    let empty = PathCost::new(Timestamp::from_s(7), &[]);
    assert_eq!(empty.total_ride, Duration::from_s(0));
    assert_eq!(empty.total_time, Duration::from_s(0));
    assert_eq!(empty.stops, 0);
}

#[test]
fn capped_ceiling() {
    let five = Duration::from_s(5);
    let nine = Duration::from_s(9);
    assert_eq!(CappedMax::Max.min_with(nine), nine);
    assert_eq!(CappedMax::Value(five).min_with(nine), five);
    assert_eq!(CappedMax::Value(nine).min_with(five), five);

    let sub = CappedMax::Value(nine).sub(five);
    assert_eq!(sub.min_with(nine), Duration::from_s(4));
    let unbounded = CappedMax::Max.sub(five);
    assert_eq!(unbounded.min_with(nine), nine);

    let m = CappedMax::Value(nine).min(CappedMax::Value(five));
    assert_eq!(m.min_with(nine), five);
}

#[test]
fn small_value_types() {
    assert_eq!(Distance::from_m(123).as_m(), 123);
    assert_eq!(Duration::zero().as_s(), 0);
    assert_eq!(Duration::from_s(4).min_of(Duration::from_s(9)), Duration::from_s(4));
    assert!(Duration::from_s(4).le(Duration::from_s(4)));
    assert!(Duration::from_s(4).lt(Duration::from_s(5)));
    assert!(Timestamp::mock().le(Timestamp::from_s(1)));

    let s = stop(3, None, (0, 1, 2, 3));
    let sketch = s.sketch();
    assert_eq!(sketch.site, SiteId::from_usize(3));
    assert!(sketch.duty.is_none());
    assert_eq!(SiteId::from_usize(7).as_usize(), 7);

    let site = duty_paths::site::Site::mock();
    assert_eq!(site.id, SiteId::from_usize(0));
    assert!(!site.can_start_here);

    let sd = duty_paths::site::SiteAndDuty { site: SiteId::from_usize(1), duty: None };
    assert_eq!(sd.site, SiteId::from_usize(1));
}
