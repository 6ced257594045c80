use harp_tracker::aprs::APRS;
use harp_tracker::fetch::FetchError;
use harp_tracker::iridium::Iridium;
use harp_tracker::json::JsonValue;
use harp_tracker::position_time::PositionTime;
use harp_tracker::sondehub::SondeHub;

fn s(v: &str) -> JsonValue {
    JsonValue::Str(v.to_string())
}

fn n(v: &str) -> JsonValue {
    JsonValue::Number(v.to_string())
}

fn obj(entries: Vec<(&str, JsonValue)>) -> JsonValue {
    JsonValue::Object(entries.into_iter().map(|(k, v)| (k.to_string(), v)).collect())
}

fn aprs_answer() -> JsonValue {
    obj(vec![
        ("result", s("ok")),
        ("found", n("1")),
        (
            "entries",
            JsonValue::Array(vec![obj(vec![
                ("lat", s("45.5")),
                ("lng", s("-111.25")),
                ("altitude", s("1500.5")),
                ("speed", n("12.5")),
                ("lasttime", s("1700000000")),
                ("comment", s("balloon")),
            ])]),
        ),
    ])
}

#[test]
fn aprs_url_names_call_sign_and_key() {
    let a = APRS::new("KEY", "N0CALL-11");
    assert_eq!(
        a.request_url(),
        "https://api.aprs.fi/api/get?name=N0CALL-11&what=loc&apikey=KEY&format=json"
    );
}

#[test]
fn aprs_report_is_read() {
    let mut a = APRS::new("KEY", "N0CALL");
    assert!(a.update_position(&aprs_answer()).is_ok());
    assert_eq!(a.get_pos_time(), PositionTime::new_with_value(45_500_000, -111_250_000, 150_050, 1700000000));
    assert_eq!(a.get_position(), (45_500_000, -111_250_000, 150_050));
    assert_eq!(a.get_speed(), 1250);
    assert_eq!(a.get_last_update(), 1700000000);
    assert_eq!(a.get_comment(), "balloon");
}

#[test]
fn aprs_unreadable_coordinate_counts_as_zero() {
    let answer = obj(vec![
        ("result", s("ok")),
        ("found", n("1")),
        ("entries", JsonValue::Array(vec![obj(vec![("lat", s("north")), ("lng", s("2")), ("lasttime", s("5"))])])),
    ]);
    let mut a = APRS::new("KEY", "N0CALL");
    assert!(a.update_position(&answer).is_ok());
    assert_eq!(a.get_pos_time(), PositionTime::new_with_value(0, 2_000_000, 0, 5));
    assert_eq!(a.get_speed(), 0);
    assert_eq!(a.get_comment(), "");
}

#[test]
fn aprs_api_failure_carries_description() {
    let mut a = APRS::new("KEY", "N0CALL");
    let r = a.update_position(&obj(vec![("result", s("fail")), ("description", s("bad key"))]));
    assert!(matches!(r, Err(FetchError::Api(ref d)) if d == "bad key"));
    let r = a.update_position(&obj(vec![]));
    assert!(matches!(r, Err(FetchError::Api(ref d)) if d == "Unknown error"));
    assert_eq!(a.get_last_update(), 0);
}

#[test]
fn aprs_nothing_found() {
    let mut a = APRS::new("KEY", "N0CALL");
    let r = a.update_position(&obj(vec![("result", s("ok")), ("found", n("0"))]));
    assert!(matches!(r, Err(FetchError::NoData)));
    let r = a.update_position(&obj(vec![("result", s("ok"))]));
    assert!(matches!(r, Err(FetchError::NoData)));
}

#[test]
fn aprs_failure_keeps_previous_report() {
    let mut a = APRS::new("KEY", "N0CALL");
    assert!(a.update_position(&aprs_answer()).is_ok());
    let r = a.update_position(&obj(vec![("result", s("ok")), ("found", n("1")), ("entries", JsonValue::Array(vec![]))]));
    assert!(matches!(r, Err(FetchError::Malformed)));
    let r = a.update_position(&obj(vec![("result", s("ok")), ("found", n("1"))]));
    assert!(matches!(r, Err(FetchError::Malformed)));
    assert_eq!(a.get_pos_time(), PositionTime::new_with_value(45_500_000, -111_250_000, 150_050, 1700000000));
}

fn aprs_entry_answer(entry: JsonValue) -> JsonValue {
    obj(vec![("result", s("ok")), ("found", n("1")), ("entries", JsonValue::Array(vec![entry]))])
}

#[test]
fn aprs_unreadable_time_keeps_previous_time() {
    let mut a = APRS::new("KEY", "N0CALL");
    assert!(a.update_position(&aprs_answer()).is_ok());
    assert!(a.update_position(&aprs_entry_answer(obj(vec![("lat", s("1"))]))).is_ok());
    assert_eq!(a.get_pos_time(), PositionTime::new_with_value(1_000_000, 0, 0, 1700000000));
    assert!(a.update_position(&aprs_entry_answer(obj(vec![("lat", s("2")), ("lasttime", s("soon"))]))).is_ok());
    assert_eq!(a.get_pos_time(), PositionTime::new_with_value(2_000_000, 0, 0, 1700000000));
}

#[test]
fn aprs_time_without_earlier_report_stays_zero() {
    let mut a = APRS::new("KEY", "N0CALL");
    assert!(a.update_position(&aprs_entry_answer(obj(vec![("lat", s("3"))]))).is_ok());
    assert_eq!(a.get_pos_time(), PositionTime::new_with_value(3_000_000, 0, 0, 0));
}

#[test]
fn aprs_time_not_positive_is_zero() {
    let mut a = APRS::new("KEY", "N0CALL");
    assert!(a.update_position(&aprs_answer()).is_ok());
    assert!(a.update_position(&aprs_entry_answer(obj(vec![("lasttime", s("0"))]))).is_ok());
    assert_eq!(a.get_last_update(), 0);
    assert!(a.update_position(&aprs_answer()).is_ok());
    assert!(a.update_position(&aprs_entry_answer(obj(vec![("lasttime", s("-5"))]))).is_ok());
    assert_eq!(a.get_last_update(), 0);
    assert!(a.update_position(&aprs_entry_answer(obj(vec![("lasttime", s("1700000000.9"))]))).is_ok());
    assert_eq!(a.get_last_update(), 1700000000);
}

fn flight_table() -> JsonValue {
    obj(vec![
        (
            "fields",
            JsonValue::Array(vec![
                s("datetime"),
                s("latitude"),
                s("longitude"),
                s("altitude"),
                s("vertical_velocity"),
                s("ground_speed"),
            ]),
        ),
        (
            "data",
            JsonValue::Array(vec![
                JsonValue::Array(vec![n("1699999000"), n("1.0"), n("1.0"), n("1.0"), n("0.0"), n("0.0")]),
                JsonValue::Array(vec![n("1700000100"), n("45.2"), n("-111.3"), n("2000.0"), n("5.5"), n("10.25")]),
            ]),
        ),
    ])
}

#[test]
fn iridium_urls() {
    let i = Iridium::new("https://example.org", "300234");
    assert_eq!(i.request_url(), "https://example.org/api/meta/flights?modem_name=300234");
    let flights = JsonValue::Array(vec![obj(vec![("uid", s("old"))]), obj(vec![("uid", s("abc"))])]);
    assert_eq!(i.flight_url(&flights).unwrap(), "https://example.org/api/flight?uid=abc");
    assert!(matches!(i.flight_url(&JsonValue::Array(vec![])), Err(FetchError::NoData)));
    assert!(matches!(i.flight_url(&obj(vec![])), Err(FetchError::Malformed)));
    assert!(matches!(i.flight_url(&JsonValue::Array(vec![obj(vec![])])), Err(FetchError::Malformed)));
}

#[test]
fn iridium_reads_last_row_by_column_name() {
    let mut i = Iridium::new("https://example.org", "300234");
    assert!(i.update_position(&flight_table()).is_ok());
    assert_eq!(i.get_pos_time(), PositionTime::new_with_value(45_200_000, -111_300_000, 200_000, 1700000100));
    assert_eq!(i.get_position(), (45_200_000, -111_300_000, 200_000));
    assert_eq!(i.get_speed(), 1025);
    assert_eq!(i.vertical_velocity, 550);
    assert_eq!(i.get_last_update(), 1700000100);
}

#[test]
fn iridium_missing_column_is_malformed() {
    let table = obj(vec![
        ("fields", JsonValue::Array(vec![s("datetime"), s("latitude")])),
        ("data", JsonValue::Array(vec![JsonValue::Array(vec![n("1700000100"), n("45.2")])])),
    ]);
    let mut i = Iridium::new("https://example.org", "300234");
    assert!(matches!(i.update_position(&table), Err(FetchError::Malformed)));
    assert!(matches!(i.update_position(&obj(vec![("data", JsonValue::Array(vec![]))])), Err(FetchError::NoData)));
    assert_eq!(i.get_last_update(), 0);
}

#[test]
fn sondehub_reads_entry_of_call_sign() {
    let answer = obj(vec![
        ("OTHER", obj(vec![("lat", n("1.0"))])),
        (
            "N0CALL",
            obj(vec![
                ("lat", n("45.3")),
                ("lon", n("-111.4")),
                ("alt", n("2100.0")),
                ("time_received", s("2023-11-14T22:13:20.000000Z")),
            ]),
        ),
    ]);
    let mut h = SondeHub::new("N0CALL");
    assert_eq!(h.request_url(), "https://api.v2.sondehub.org/amateur?callsign");
    assert!(h.update_position(&answer).is_ok());
    assert_eq!(h.get_pos_time(), PositionTime::new_with_value(45_300_000, -111_400_000, 210_000, 1700000000));
    assert_eq!(h.get_position(), (45_300_000, -111_400_000, 210_000));
    assert_eq!(h.get_last_update(), 1700000000);
}

#[test]
fn sondehub_reads_exponent_numbers() {
    let answer = obj(vec![(
        "N0CALL",
        obj(vec![
            ("lat", n("3.2e-6")),
            ("lon", n("-1.5e1")),
            ("alt", n("2.1e3")),
            ("time_received", s("2023-11-14T22:13:20Z")),
        ]),
    )]);
    let mut h = SondeHub::new("N0CALL");
    assert!(h.update_position(&answer).is_ok());
    assert_eq!(h.get_pos_time(), PositionTime::new_with_value(3, -15_000_000, 210_000, 1700000000));
}

#[test]
fn sondehub_missing_entry_is_no_data() {
    let mut h = SondeHub::new("N0CALL");
    assert!(matches!(h.update_position(&obj(vec![("OTHER", obj(vec![]))])), Err(FetchError::NoData)));
    assert!(matches!(h.update_position(&obj(vec![("N0CALL", s("x"))])), Err(FetchError::NoData)));
    let bad_time = obj(vec![(
        "N0CALL",
        obj(vec![("lat", n("1")), ("lon", n("1")), ("alt", n("1")), ("time_received", s("yesterday"))]),
    )]);
    assert!(matches!(h.update_position(&bad_time), Err(FetchError::Malformed)));
    assert_eq!(h.get_last_update(), 0);
}

#[test]
fn sondehub_reading_with_given_seconds() {
    let entry = obj(vec![("lat", n("1.5")), ("lon", n("2.5")), ("alt", n("3.5"))]);
    let mut h = SondeHub::new("N0CALL");
    assert!(matches!(h.apply_reading(&entry, Some(0)), Err(FetchError::Malformed)));
    assert!(matches!(h.apply_reading(&entry, None), Err(FetchError::Malformed)));
    assert!(h.apply_reading(&entry, Some(42)).is_ok());
    assert_eq!(h.get_pos_time(), PositionTime::new_with_value(1_500_000, 2_500_000, 350, 42));
}
