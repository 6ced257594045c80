use crate::fetch::{
    num_fixed, num_uint, or_zero, str_fixed, value_num_fixed, value_num_uint, value_str_fixed,
    FetchError,
};
use crate::json::{array_of, member, str_of, JsonValue};
use crate::position_time::PositionTime;
use vstd::prelude::*;

verus! {

/// A feed of the APRS position service, for one call sign.
///
/// `ground_speed` is in hundredths of a km/h.
pub struct APRS {
    pub api_key: String,
    pub base_url: String,
    pub call_sign: String,
    pub position_time: PositionTime,
    pub ground_speed: i64,
    pub comment: String,
}

/// The URL that asks the service for the last position of the call sign.
pub open spec fn aprs_url(a: APRS) -> Seq<char> {
    a.base_url@ + "/get?name="@ + a.call_sign@ + "&what=loc&apikey="@ + a.api_key@ + "&format=json"@
}

/// Whether the service reports success.
pub open spec fn aprs_ok(resp: JsonValue) -> bool {
    str_of(member(resp, "result"@)) == Some("ok"@)
}

/// The failure that the service describes.
pub open spec fn aprs_description(resp: JsonValue) -> Seq<char> {
    match str_of(member(resp, "description"@)) {
        Some(d) => d,
        None => "Unknown error"@,
    }
}

/// How many entries the service found; zero when it does not say.
pub open spec fn aprs_found(resp: JsonValue) -> u64 {
    match num_uint(member(resp, "found"@)) {
        Some(n) => n,
        None => 0,
    }
}

/// The first entry of the answer.
pub open spec fn aprs_entry(resp: JsonValue) -> Option<JsonValue> {
    match array_of(member(resp, "entries"@)) {
        Some(items) => if items.len() > 0 {
            Some(items[0])
        } else {
            None
        },
        None => None,
    }
}

/// The time an entry was last heard, where `lasttime` reads as a decimal:
/// its whole seconds, or zero for a time that is not positive.
pub open spec fn aprs_time(entry: JsonValue) -> Option<u64> {
    match str_fixed(member(entry, "lasttime"@), 0) {
        Some(v) => Some(
            if v > 0 {
                v as u64
            } else {
                0
            },
        ),
        None => None,
    }
}

/// The position of an entry, for a feed whose last report was at
/// `previous`. Coordinates come as decimal strings; one that does not read
/// counts as zero. A time that does not read leaves `previous`.
pub open spec fn aprs_position(entry: JsonValue, previous: u64) -> PositionTime {
    PositionTime {
        lat: or_zero(str_fixed(member(entry, "lat"@), 6)),
        lon: or_zero(str_fixed(member(entry, "lng"@), 6)),
        alt: or_zero(str_fixed(member(entry, "altitude"@), 2)),
        last_update: match aprs_time(entry) {
            Some(t) => t,
            None => previous,
        },
    }
}

pub open spec fn aprs_speed(entry: JsonValue) -> i64 {
    or_zero(num_fixed(member(entry, "speed"@), 2))
}

pub open spec fn aprs_comment(entry: JsonValue) -> Seq<char> {
    match str_of(member(entry, "comment"@)) {
        Some(c) => c,
        None => Seq::empty(),
    }
}

/// The entry that holds the report, where the answer has one: the first
/// entry of a successful answer that found some.
pub open spec fn aprs_report(resp: JsonValue) -> Option<JsonValue> {
    if aprs_ok(resp) && aprs_found(resp) != 0 {
        aprs_entry(resp)
    } else {
        None
    }
}

/// Whether `b` is `a` after taking the report in entry `e`.
pub open spec fn aprs_applied(a: APRS, b: APRS, e: JsonValue) -> bool {
    &&& aprs_same_feed(a, b)
    &&& b.position_time == aprs_position(e, a.position_time.last_update)
    &&& b.ground_speed == aprs_speed(e)
    &&& b.comment@ == aprs_comment(e)
}

/// Whether only the report fields changed from `a` to `b`.
pub open spec fn aprs_same_feed(a: APRS, b: APRS) -> bool {
    &&& a.api_key == b.api_key
    &&& a.base_url == b.base_url
    &&& a.call_sign == b.call_sign
}

impl APRS {
    /// A feed for `call_sign` that has no report yet.
    pub fn new(api_key: &str, call_sign: &str) -> (r: APRS)
        ensures
            r.api_key@ == api_key@,
            r.call_sign@ == call_sign@,
            r.base_url@ == "https://api.aprs.fi/api"@,
            r.position_time == PositionTime::new_spec(),
            r.ground_speed == 0,
            r.comment@.len() == 0,
    {
        APRS {
            api_key: String::from_str(api_key),
            base_url: String::from_str("https://api.aprs.fi/api"),
            call_sign: String::from_str(call_sign),
            position_time: PositionTime::new(),
            ground_speed: 0,
            comment: String::new(),
        }
    }

    /// The URL to fetch for a fresh report.
    pub fn request_url(&self) -> (r: String)
        ensures
            r@ == aprs_url(*self),
    {
        let u = self.base_url.clone().concat("/get?name=");
        let u = u.concat(self.call_sign.as_str());
        let u = u.concat("&what=loc&apikey=");
        let u = u.concat(self.api_key.as_str());
        u.concat("&format=json")
    }

    /// Takes a report from the service's answer: a failure where the service
    /// reports one, finds nothing, or sends no entry; otherwise the first
    /// entry's position, with zero for a coordinate that does not read and
    /// the previous time where `lasttime` does not read. A failure leaves the
    /// feed as it was.
    pub fn update_position(&mut self, resp: &JsonValue) -> (r: Result<(), FetchError>)
        ensures
            !aprs_ok(*resp) ==> (r matches Err(FetchError::Api(d)) && d@ == aprs_description(*resp)),
            aprs_ok(*resp) && aprs_found(*resp) == 0 ==> r == Err::<(), FetchError>(FetchError::NoData),
            aprs_ok(*resp) && aprs_found(*resp) != 0 && aprs_entry(*resp) is None ==> r == Err::<
                (),
                FetchError,
            >(FetchError::Malformed),
            r is Err ==> *final(self) == *old(self),
            aprs_report(*resp) matches Some(e) ==> r is Ok && aprs_applied(*old(self), *final(self), e),
    {
        let ok = match resp.get_str("result") {
            Some(s) => crate::json::str_eq(s.as_str(), "ok"),
            None => false,
        };
        if !ok {
            let d = match resp.get_str("description") {
                Some(d) => d.clone(),
                None => String::from_str("Unknown error"),
            };
            return Err(FetchError::Api(d));
        }
        let found = match value_num_uint(resp.get("found")) {
            Some(n) => n,
            None => 0,
        };
        if found == 0 {
            return Err(FetchError::NoData);
        }
        let entry = match resp.get_array("entries") {
            Some(items) => {
                if items.len() == 0 {
                    return Err(FetchError::Malformed);
                }
                &items[0]
            },
            None => {
                return Err(FetchError::Malformed);
            },
        };
        let t = match value_str_fixed(entry.get("lasttime"), 0) {
            Some(v) => if v > 0 {
                v as u64
            } else {
                0
            },
            None => self.position_time.last_update,
        };
        let lat = value_str_fixed(entry.get("lat"), 6);
        let lon = value_str_fixed(entry.get("lng"), 6);
        let alt = value_str_fixed(entry.get("altitude"), 2);
        let speed = value_num_fixed(entry.get("speed"), 2);
        let comment = match entry.get_str("comment") {
            Some(c) => c.clone(),
            None => String::new(),
        };
        self.position_time = PositionTime {
            lat: unwrap_or_zero(lat),
            lon: unwrap_or_zero(lon),
            alt: unwrap_or_zero(alt),
            last_update: t,
        };
        self.ground_speed = unwrap_or_zero(speed);
        self.comment = comment;
        Ok(())
    }

    /// Latitude, longitude and altitude of the last report.
    pub fn get_position(&self) -> (r: (i64, i64, i64))
        ensures
            r == (self.position_time.lat, self.position_time.lon, self.position_time.alt),
    {
        (self.position_time.lat, self.position_time.lon, self.position_time.alt)
    }

    pub fn get_pos_time(&self) -> (r: PositionTime)
        ensures
            r == self.position_time,
    {
        self.position_time
    }

    /// Ground speed of the last report, in hundredths of a km/h.
    pub fn get_speed(&self) -> (r: i64)
        ensures
            r == self.ground_speed,
    {
        self.ground_speed
    }

    /// Time of the last report; zero when there was none.
    pub fn get_last_update(&self) -> (r: u64)
        ensures
            r == self.position_time.last_update,
    {
        self.position_time.last_update
    }

    pub fn get_comment(&self) -> (r: &str)
        ensures
            r@ == self.comment@,
    {
        self.comment.as_str()
    }
}

pub fn unwrap_or_zero(v: Option<i64>) -> (r: i64)
    ensures
        r == or_zero(v),
{
    match v {
        Some(x) => x,
        None => 0,
    }
}

} // verus!
