use wsl2hosts::clock::{rfc3339_at, time_rfc3339};

#[test]
fn current_time_is_rfc3339() {
    let text = time_rfc3339().expect("the clock reads after 1970");
    let parsed = chrono::DateTime::parse_from_rfc3339(&text).expect("RFC 3339 text");
    assert_eq!(parsed.offset().local_minus_utc(), 0);
    let now = chrono::Utc::now().timestamp();
    assert!((now - parsed.timestamp()).abs() < 60);
}

#[test]
fn formatting_a_clock_reading() {
    assert_eq!(rfc3339_at(Some((0, 0))).as_deref(), Some("1970-01-01T00:00:00+00:00"));
    assert_eq!(
        rfc3339_at(Some((1_725_029_869, 500_000_000))).as_deref(),
        Some("2024-08-30T14:57:49.500+00:00")
    );
    assert_eq!(rfc3339_at(None), None);
    assert_eq!(rfc3339_at(Some((0, 1_000_000_000))), None);
    assert_eq!(rfc3339_at(Some((8_210_266_876_800, 0))), None);
    assert!(rfc3339_at(Some((8_210_266_876_799, 0))).is_some());
}
