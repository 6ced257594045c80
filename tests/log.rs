use harp_tracker::log::{format_row, latest_log_index, log_file_name, log_file_stamp, log_header, parse_log, LogRecord};
use harp_tracker::position_time::PositionTime;
use harp_tracker::tracking_type::TrackingType;

fn rec(kind: TrackingType, lat: i64, lon: i64, alt: i64, t: u64) -> LogRecord {
    LogRecord { kind, pos_time: PositionTime::new_with_value(lat, lon, alt, t) }
}

#[test]
fn header_names_the_columns() {
    assert_eq!(log_header(), b"source-kind,lat,lon,alt,time\n".to_vec());
}

#[test]
fn row_has_six_and_two_decimals() {
    let r = rec(TrackingType::APRS, 45_000_000, -111_000_000, 150_000, 100);
    assert_eq!(format_row(&r), b"APRS,45.000000,-111.000000,1500.00,100\n".to_vec());
}

#[test]
fn row_of_small_negative_values() {
    let r = rec(TrackingType::SondeHub, -5, 123, -7, 0);
    assert_eq!(format_row(&r), b"SondeHub,-0.000005,0.000123,-0.07,0\n".to_vec());
}

#[test]
fn history_replay_sorts_by_time() {
    let text = b"source-kind,lat,lon,alt,time\nIridium,45.1,-111.1,1510.0,200\nAPRS,45.0,-111.0,1500.0,100\n";
    let h = parse_log(text);
    assert_eq!(
        h,
        vec![
            rec(TrackingType::APRS, 45_000_000, -111_000_000, 150_000, 100),
            rec(TrackingType::Iridium, 45_100_000, -111_100_000, 151_000, 200),
        ]
    );
}

#[test]
fn history_reads_back_written_rows() {
    let a = rec(TrackingType::Iridium, 45_123_456, -111_654_321, 151_099, 300);
    let b = rec(TrackingType::APRS, -1, 2, -3, 100);
    let mut text = log_header();
    text.extend(format_row(&a));
    text.extend(format_row(&b));
    assert_eq!(parse_log(&text), vec![b, a]);
}

#[test]
fn history_skips_rows_that_do_not_read() {
    let text = b"source-kind,lat,lon,alt,time\nAPRS,45.0,-111.0,1500.0,100\nAPRS,x,-111.0,1500.0,150\nGPS,1,1,1,5\nAPRS,1,1,1\n\nSondeHub,1.5,2.5,3.5,50\r\n";
    assert_eq!(
        parse_log(text),
        vec![
            rec(TrackingType::SondeHub, 1_500_000, 2_500_000, 350, 50),
            rec(TrackingType::APRS, 45_000_000, -111_000_000, 150_000, 100),
        ]
    );
}

#[test]
fn history_reads_exponent_fields() {
    let text = b"source-kind,lat,lon,alt,time\nAPRS,4.5e1,-1.11e2,1.5e3,100\n";
    assert_eq!(parse_log(text), vec![rec(TrackingType::APRS, 45_000_000, -111_000_000, 150_000, 100)]);
}

#[test]
fn history_of_empty_log_is_empty() {
    assert_eq!(parse_log(b""), vec![]);
    assert_eq!(parse_log(b"source-kind,lat,lon,alt,time\n"), vec![]);
}

#[test]
fn file_name_embeds_time() {
    assert_eq!(log_file_name(1700000000), b"data1700000000.csv".to_vec());
    assert_eq!(log_file_stamp(&b"data1700000000.csv".to_vec()), Some(1700000000));
    assert_eq!(log_file_stamp(&b"data.csv".to_vec()), None);
    assert_eq!(log_file_stamp(&b"notes.txt".to_vec()), None);
}

#[test]
fn latest_file_compares_times_as_numbers() {
    let names = vec![b"data999.csv".to_vec(), b"readme".to_vec(), b"data1000.csv".to_vec(), b"data998.csv".to_vec()];
    assert_eq!(latest_log_index(&names), Some(2));
    assert_eq!(latest_log_index(&vec![b"other".to_vec()]), None);
    assert_eq!(latest_log_index(&vec![]), None);
}
