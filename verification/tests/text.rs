//! Textual rendering of durations, timestamps and stops.

use duty_paths::duration::Duration;
use duty_paths::ids::{InternalId, SiteId};
use duty_paths::stop::Stop;
use duty_paths::time_window::BoundedTimeWindow;
use duty_paths::timestamp::Timestamp;

#[test]
fn durations_render() {
    assert_eq!(Duration::from_s(3723).to_text(), b"1h2m3s".to_vec());
    assert_eq!(Duration::from_s(0).to_text(), b"0s".to_vec());
    assert_eq!(Duration::from_s(127).to_text(), b"2m7s".to_vec());
    assert_eq!(Duration::from_s(3600).to_text(), b"1h".to_vec());
    assert_eq!(Duration::from_s(59).to_text(), b"59s".to_vec());
}

#[test]
fn timestamps_render() {
    assert_eq!(Timestamp::from_dhms(0, 1, 2, 3).to_text(), b"01:02:03".to_vec());
    assert_eq!(Timestamp::from_dhms(0, 1, 2, 0).to_text(), b"01:02".to_vec());
    assert_eq!(Timestamp::from_dhms(7, 1, 2, 3).to_text(), b"01:02:03 +7".to_vec());
    assert_eq!(Timestamp::from_s(0).to_text(), b"00:00".to_vec());
}

#[test]
fn stops_render() {
    let plain = Stop {
        site: SiteId::from_usize(3),
        duty: None,
        ride_start: Timestamp::from_s(0),
        ride_end: Timestamp::from_dhms(0, 1, 2, 3),
        service_start: Timestamp::from_s(3723),
        service_end: Timestamp::from_dhms(0, 1, 2, 5),
    };
    assert_eq!(plain.to_text(), b"3 @ 01:02:03 -> 01:02:05".to_vec());

    let duty = BoundedTimeWindow::try_new(Timestamp::from_s(900), Timestamp::from_s(1080)).unwrap();
    let with_duty = Stop { duty: Some(duty), ..plain };
    assert_eq!(
        with_duty.to_text(),
        b"3(duty 00:15 - 00:18) @ 01:02:03 -> 01:02:05".to_vec()
    );
}
