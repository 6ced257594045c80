use harp_tracker::fetch::FetchError;
use harp_tracker::json::JsonValue;
use harp_tracker::log::LogRecord;
use harp_tracker::position_time::{EstimationType, PositionTime};
use harp_tracker::tracker::{FetchStep, Tracker};
use harp_tracker::tracking_type::TrackingType;

fn s(v: &str) -> JsonValue {
    JsonValue::Str(v.to_string())
}

fn n(v: &str) -> JsonValue {
    JsonValue::Number(v.to_string())
}

fn obj(entries: Vec<(&str, JsonValue)>) -> JsonValue {
    JsonValue::Object(entries.into_iter().map(|(k, v)| (k.to_string(), v)).collect())
}

fn aprs_answer(lat: &str, time: &str) -> JsonValue {
    obj(vec![
        ("result", s("ok")),
        ("found", n("1")),
        (
            "entries",
            JsonValue::Array(vec![obj(vec![
                ("lat", s(lat)),
                ("lng", s("-111")),
                ("altitude", s("1500")),
                ("lasttime", s(time)),
            ])]),
        ),
    ])
}

fn done(step: FetchStep) -> Result<(), FetchError> {
    match step {
        FetchStep::Done(r) => r,
        FetchStep::Follow(_) => panic!("unexpected follow-up"),
    }
}

#[test]
fn first_registration_opens_the_log() {
    let mut t = Tracker::new();
    assert!(t.new_aprs("KEY", "N0CALL"));
    assert!(!t.new_sondehub("N0CALL"));
    assert!(!t.new_iridium("https://example.org", "300234"));
    assert_eq!(t.source_count(), 3);
    assert_eq!(t.active_count(TrackingType::APRS), 1);
    assert_eq!(t.active_count(TrackingType::Iridium), 1);
    assert_eq!(t.validity(TrackingType::SondeHub), vec![false]);
    assert_eq!(t.get_position(), (0, 0, 0));
    assert_eq!(t.get_last_update(), 0);
}

#[test]
fn failure_of_one_feed_does_not_stop_the_others() {
    let mut t = Tracker::new();
    t.new_aprs("KEY", "N0CALL");
    t.new_sondehub("N0CALL");
    let a = done(t.accept_response(0, &aprs_answer("45", "100"), false));
    assert!(a.is_ok());
    let b = done(t.accept_response(1, &obj(vec![]), false));
    assert!(matches!(b, Err(FetchError::NoData)));
    let report = t.update(vec![a, b, Err(FetchError::Transport("timeout".to_string()))]);
    assert_eq!(report.errors.len(), 2);
    assert!(matches!(report.errors[0], FetchError::NoData));
    assert!(matches!(report.errors[1], FetchError::Transport(ref m) if m == "timeout"));
    let sample = PositionTime::new_with_value(45_000_000, -111_000_000, 150_000, 100);
    assert_eq!(report.records, vec![LogRecord { kind: TrackingType::APRS, pos_time: sample }]);
    assert_eq!(t.position_time, sample);
    assert_eq!(t.validity(TrackingType::APRS), vec![true]);
    assert_eq!(t.validity(TrackingType::SondeHub), vec![false]);
    assert!(t.is_kind_active(TrackingType::APRS));
    assert!(!t.is_kind_active(TrackingType::SondeHub));
    assert!(!t.is_kind_active(TrackingType::Iridium));
}

#[test]
fn rerun_without_new_data_changes_nothing() {
    let mut t = Tracker::new();
    t.new_aprs("KEY", "A");
    t.new_aprs("KEY", "B");
    t.set_method(EstimationType::Average);
    assert!(done(t.accept_response(0, &aprs_answer("44", "100"), false)).is_ok());
    assert!(done(t.accept_response(1, &aprs_answer("46", "300"), false)).is_ok());
    let first = t.update(vec![Ok(()), Ok(())]);
    assert_eq!(first.records.len(), 2);
    let fused = PositionTime::new_with_value(45_000_000, -111_000_000, 150_000, 200);
    assert_eq!(t.position_time, fused);
    let second = t.update(vec![Ok(()), Ok(())]);
    assert!(second.records.is_empty());
    assert!(second.errors.is_empty());
    assert_eq!(t.position_time, fused);
}

#[test]
fn only_changed_reports_are_logged() {
    let mut t = Tracker::new();
    t.new_aprs("KEY", "A");
    t.new_aprs("KEY", "B");
    t.set_method(EstimationType::Recent);
    assert!(done(t.accept_response(0, &aprs_answer("44", "100"), false)).is_ok());
    assert!(done(t.accept_response(1, &aprs_answer("46", "300"), false)).is_ok());
    t.update(vec![Ok(()), Ok(())]);
    assert!(done(t.accept_response(0, &aprs_answer("47", "400"), false)).is_ok());
    let r = t.update(vec![Ok(()), Ok(())]);
    let newest = PositionTime::new_with_value(47_000_000, -111_000_000, 150_000, 400);
    assert_eq!(r.records, vec![LogRecord { kind: TrackingType::APRS, pos_time: newest }]);
    assert_eq!(t.position_time, newest);
}

#[test]
fn no_reports_keep_the_position() {
    let mut t = Tracker::new();
    t.new_sondehub("N0CALL");
    let r = t.update(vec![Err(FetchError::NoData)]);
    assert_eq!(r.errors.len(), 1);
    assert!(r.records.is_empty());
    assert_eq!(t.get_last_update(), 0);
}

#[test]
fn iridium_takes_a_follow_up() {
    let mut t = Tracker::new();
    t.new_iridium("https://example.org", "300234");
    assert_eq!(t.request_url(0), "https://example.org/api/meta/flights?modem_name=300234");
    let flights = JsonValue::Array(vec![obj(vec![("uid", s("abc"))])]);
    match t.accept_response(0, &flights, false) {
        FetchStep::Follow(u) => assert_eq!(u, "https://example.org/api/flight?uid=abc"),
        FetchStep::Done(_) => panic!("expected a follow-up"),
    }
    let table = obj(vec![
        ("fields", JsonValue::Array(vec![s("datetime"), s("latitude"), s("longitude"), s("altitude"), s("vertical_velocity"), s("ground_speed")])),
        ("data", JsonValue::Array(vec![JsonValue::Array(vec![n("50"), n("1"), n("2"), n("3"), n("0"), n("0")])])),
    ]);
    assert!(done(t.accept_response(0, &table, true)).is_ok());
    t.update(vec![Ok(())]);
    assert_eq!(t.get_position(), (1_000_000, 2_000_000, 300));
    assert_eq!(t.get_last_update(), 50);
    assert_eq!(t.last_update_age(80), 30);
    assert_eq!(t.last_update_age(10), 0);
}

fn aprs_point(v: &str, time: &str) -> JsonValue {
    obj(vec![
        ("result", s("ok")),
        ("found", n("1")),
        (
            "entries",
            JsonValue::Array(vec![obj(vec![("lat", s(v)), ("lng", s(v)), ("altitude", s(v)), ("lasttime", s(time))])]),
        ),
    ])
}

#[test]
fn outlier_rejection_as_fusion_stage() {
    let mut t = Tracker::new();
    t.new_aprs("KEY", "A");
    t.new_aprs("KEY", "B");
    t.new_aprs("KEY", "C");
    t.set_outlier_rejection(true);
    assert!(done(t.accept_response(0, &aprs_point("1.0", "10"), false)).is_ok());
    assert!(done(t.accept_response(1, &aprs_point("1.0", "20"), false)).is_ok());
    assert!(done(t.accept_response(2, &aprs_point("50.0", "30"), false)).is_ok());
    let r = t.update(vec![Ok(()), Ok(()), Ok(())]);
    assert_eq!(r.records.len(), 3);
    assert_eq!(t.position_time, PositionTime::new_with_value(1_000_000, 1_000_000, 100, 20));
}

#[test]
fn outlier_rejection_keeping_nothing_keeps_the_position() {
    let mut t = Tracker::new();
    t.new_aprs("KEY", "A");
    t.new_aprs("KEY", "B");
    t.new_aprs("KEY", "C");
    t.set_outlier_rejection(true);
    assert!(done(t.accept_response(0, &aprs_point("-1.0", "10"), false)).is_ok());
    assert!(done(t.accept_response(1, &aprs_point("-1.0", "20"), false)).is_ok());
    assert!(done(t.accept_response(2, &aprs_point("-1.0", "30"), false)).is_ok());
    t.update(vec![Ok(()), Ok(()), Ok(())]);
    assert_eq!(t.get_last_update(), 0);
}
