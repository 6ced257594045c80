use crate::fetch::{num_fixed, report_time, value_num_fixed, FetchError};
use crate::json::{member, str_of, JsonValue};
use crate::position_time::PositionTime;
use vstd::prelude::*;

verus! {

/// The unix seconds of an RFC 3339 date and time, as chrono reads it; `None`
/// where it does not read.
pub uninterp spec fn utc_seconds(s: Seq<char>) -> Option<i64>;

/// Relies on chrono's `FromStr` for `DateTime<Utc>` (RFC 3339, with a space
/// also accepted between date and time) and on `DateTime::timestamp`: the
/// unix seconds of the text, which depend on the text alone.
#[verifier::external_body]
fn parse_utc_seconds(s: &str) -> (r: Option<i64>)
    ensures
        r == utc_seconds(s@),
{
    match s.parse::<chrono::DateTime<chrono::Utc>>() {
        Ok(d) => Some(d.timestamp()),
        Err(_) => None,
    }
}

/// A feed of the balloon-tracking aggregator, for one call sign.
pub struct SondeHub {
    pub base_url: String,
    pub call_sign: String,
    pub position_time: PositionTime,
}

/// The report in an aggregator entry whose reception time reads as
/// `seconds`, where every part of it reads.
pub open spec fn sondehub_reading(entry: JsonValue, seconds: Option<i64>) -> Option<PositionTime> {
    match (
        num_fixed(member(entry, "lat"@), 6),
        num_fixed(member(entry, "lon"@), 6),
        num_fixed(member(entry, "alt"@), 2),
        report_time(seconds),
    ) {
        (Some(lat), Some(lon), Some(alt), Some(t)) => Some(PositionTime { lat, lon, alt, last_update: t }),
        _ => None,
    }
}

/// The reception time of an entry, read as unix seconds.
pub open spec fn entry_seconds(entry: JsonValue) -> Option<i64> {
    match str_of(member(entry, "time_received"@)) {
        Some(t) => utc_seconds(t),
        None => None,
    }
}

/// The report in the aggregator's answer for the call sign `call`.
pub open spec fn sondehub_report(call: Seq<char>, resp: JsonValue) -> Option<PositionTime> {
    match member(resp, call) {
        Some(JsonValue::Object(entries)) => {
            let e = JsonValue::Object(entries);
            sondehub_reading(e, entry_seconds(e))
        },
        _ => None,
    }
}

impl SondeHub {
    /// A feed for `call_sign` that has no report yet.
    pub fn new(call_sign: &str) -> (r: SondeHub)
        ensures
            r.call_sign@ == call_sign@,
            r.base_url@ == "https://api.v2.sondehub.org/amateur?callsign"@,
            r.position_time == PositionTime::new_spec(),
    {
        SondeHub {
            base_url: String::from_str("https://api.v2.sondehub.org/amateur?callsign"),
            call_sign: String::from_str(call_sign),
            position_time: PositionTime::new(),
        }
    }

    /// The URL of the aggregator's answer, which holds an entry for each
    /// call sign.
    pub fn request_url(&self) -> (r: String)
        ensures
            r@ == self.base_url@,
    {
        self.base_url.clone()
    }

    /// Takes the report in an aggregator entry whose reception time reads as
    /// `seconds`. A failure leaves the feed as it was.
    pub fn apply_reading(&mut self, entry: &JsonValue, seconds: Option<i64>) -> (r: Result<
        (),
        FetchError,
    >)
        ensures
            match sondehub_reading(*entry, seconds) {
                Some(p) => r is Ok && *final(self) == (SondeHub { position_time: p, ..*old(self) }),
                None => r == Err::<(), FetchError>(FetchError::Malformed) && *final(self) == *old(self),
            },
    {
        let lat = value_num_fixed(entry.get("lat"), 6);
        let lon = value_num_fixed(entry.get("lon"), 6);
        let alt = value_num_fixed(entry.get("alt"), 2);
        match (lat, lon, alt, crate::fetch::to_report_time(seconds)) {
            (Some(lat), Some(lon), Some(alt), Some(t)) => {
                self.position_time = PositionTime { lat, lon, alt, last_update: t };
                Ok(())
            },
            _ => Err(FetchError::Malformed),
        }
    }

    /// Takes a report from the aggregator's answer, from the entry of this
    /// call sign. A missing entry, or one that is not an object, means the
    /// aggregator holds no telemetry for it. A failure leaves the feed as it
    /// was.
    pub fn update_position(&mut self, resp: &JsonValue) -> (r: Result<(), FetchError>)
        ensures
            match member(*resp, old(self).call_sign@) {
                Some(JsonValue::Object(entries)) => {
                    let e = JsonValue::Object(entries);
                    match sondehub_reading(e, entry_seconds(e)) {
                        Some(p) => r is Ok && *final(self) == (SondeHub { position_time: p, ..*old(self) }),
                        None => r == Err::<(), FetchError>(FetchError::Malformed) && *final(self)
                            == *old(self),
                    }
                },
                _ => r == Err::<(), FetchError>(FetchError::NoData) && *final(self) == *old(self),
            },
    {
        let entry = match resp.get(self.call_sign.as_str()) {
            Some(e) => e,
            None => {
                return Err(FetchError::NoData);
            },
        };
        match entry {
            JsonValue::Object(_) => {},
            _ => {
                return Err(FetchError::NoData);
            },
        }
        let seconds = match entry.get_str("time_received") {
            Some(t) => parse_utc_seconds(t.as_str()),
            None => None,
        };
        self.apply_reading(entry, seconds)
    }

    pub fn get_pos_time(&self) -> (r: PositionTime)
        ensures
            r == self.position_time,
    {
        self.position_time
    }

    /// Latitude, longitude and altitude of the last report.
    pub fn get_position(&self) -> (r: (i64, i64, i64))
        ensures
            r == (self.position_time.lat, self.position_time.lon, self.position_time.alt),
    {
        (self.position_time.lat, self.position_time.lon, self.position_time.alt)
    }

    /// Time of the last report; zero when there was none.
    pub fn get_last_update(&self) -> (r: u64)
        ensures
            r == self.position_time.last_update,
    {
        self.position_time.last_update
    }
}

} // verus!
