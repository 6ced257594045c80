use crate::fetch::{
    last_item, num_fixed, num_uint, report_time, value_num_fixed, value_num_uint, FetchError,
};
use crate::json::{array_of, member, str_eq, str_of, JsonValue};
use crate::position_time::PositionTime;
use vstd::prelude::*;

verus! {

/// A feed of the satellite-modem telemetry service, for one modem.
///
/// `vertical_velocity` and `ground_speed` are in hundredths of a m/s.
pub struct Iridium {
    pub base_url: String,
    pub modem: String,
    pub position_time: PositionTime,
    pub vertical_velocity: i64,
    pub ground_speed: i64,
}

/// Whether `v` is the string `name`.
pub open spec fn is_named(v: JsonValue, name: Seq<char>) -> bool {
    v matches JsonValue::Str(s) && s@ == name
}

/// Whether `i` is the first position of `name` in `fields`.
pub open spec fn is_first_named(fields: Seq<JsonValue>, name: Seq<char>, i: int) -> bool {
    &&& 0 <= i < fields.len()
    &&& is_named(fields[i], name)
    &&& forall|j: int| 0 <= j < i ==> !is_named(#[trigger] fields[j], name)
}

/// The first position of `name` in `fields`.
pub open spec fn name_index(fields: Seq<JsonValue>, name: Seq<char>) -> Option<int> {
    if exists|i: int| is_first_named(fields, name, i) {
        Some(choose|i: int| is_first_named(fields, name, i))
    } else {
        None
    }
}

/// The cell of `row` under the column `name`.
pub open spec fn cell(fields: Seq<JsonValue>, row: Seq<JsonValue>, name: Seq<char>) -> Option<JsonValue> {
    match name_index(fields, name) {
        Some(i) => if i < row.len() {
            Some(row[i])
        } else {
            None
        },
        None => None,
    }
}

/// A report read from a flight's table.
pub struct IridiumReading {
    pub position_time: PositionTime,
    pub vertical_velocity: i64,
    pub ground_speed: i64,
}

/// The report in the last row of a flight's table, where every column
/// it needs is there and reads.
pub open spec fn flight_reading(fields: Seq<JsonValue>, row: Seq<JsonValue>) -> Option<IridiumReading> {
    match (
        num_fixed(cell(fields, row, "latitude"@), 6),
        num_fixed(cell(fields, row, "longitude"@), 6),
        num_fixed(cell(fields, row, "altitude"@), 2),
        num_fixed(cell(fields, row, "vertical_velocity"@), 2),
        num_fixed(cell(fields, row, "ground_speed"@), 2),
        report_time(
            match num_uint(cell(fields, row, "datetime"@)) {
                Some(t) => if t <= i64::MAX {
                    Some(t as i64)
                } else {
                    None
                },
                None => None,
            },
        ),
    ) {
        (Some(lat), Some(lon), Some(alt), Some(vv), Some(gs), Some(t)) => Some(
            IridiumReading {
                position_time: PositionTime { lat, lon, alt, last_update: t },
                vertical_velocity: vv,
                ground_speed: gs,
            },
        ),
        _ => None,
    }
}

/// The report in a flight's table, where its last row holds one.
pub open spec fn iridium_report(flight: JsonValue) -> Option<IridiumReading> {
    match last_item(member(flight, "data"@)) {
        Some(JsonValue::Array(row)) => match array_of(member(flight, "fields"@)) {
            Some(fields) => flight_reading(fields, row@),
            None => None,
        },
        _ => None,
    }
}

/// The id of the last flight in a list of flights.
pub open spec fn last_flight_uid(flights: JsonValue) -> Option<Seq<char>> {
    match flights {
        JsonValue::Array(items) => if items@.len() == 0 {
            None
        } else {
            str_of(member(items@.last(), "uid"@))
        },
        _ => None,
    }
}

pub open spec fn flights_url(i: Iridium) -> Seq<char> {
    i.base_url@ + "/api/meta/flights?modem_name="@ + i.modem@
}

pub open spec fn flight_url_of(i: Iridium, uid: Seq<char>) -> Seq<char> {
    i.base_url@ + "/api/flight?uid="@ + uid
}

/// The first position of `name` in `fields`.
fn find_name(fields: &Vec<JsonValue>, name: &str) -> (r: Option<usize>)
    ensures
        match r {
            Some(i) => name_index(fields@, name@) == Some(i as int),
            None => name_index(fields@, name@) is None,
        },
{
    let mut i: usize = 0;
    while i < fields.len()
        invariant
            i <= fields@.len(),
            forall|j: int| 0 <= j < i ==> !is_named(#[trigger] fields@[j], name@),
        decreases fields@.len() - i,
    {
        let hit = match &fields[i] {
            JsonValue::Str(s) => str_eq(s.as_str(), name),
            _ => false,
        };
        if hit {
            proof {
                assert(is_first_named(fields@, name@, i as int));
                let c = choose|k: int| is_first_named(fields@, name@, k);
                if c < i {
                    assert(!is_named(fields@[c], name@));
                } else if c > i {
                    assert(!is_named(fields@[i as int], name@));
                }
            }
            return Some(i);
        }
        i = i + 1;
    }
    proof {
        assert forall|k: int| !is_first_named(fields@, name@, k) by {
            if 0 <= k < fields@.len() {
                assert(!is_named(fields@[k], name@));
            }
        }
    }
    None
}

/// The cell of `row` under the column `name`.
fn find_cell<'a>(fields: &Vec<JsonValue>, row: &'a Vec<JsonValue>, name: &str) -> (r: Option<&'a JsonValue>)
    ensures
        match r {
            Some(v) => cell(fields@, row@, name@) == Some(*v),
            None => cell(fields@, row@, name@) is None,
        },
{
    match find_name(fields, name) {
        Some(i) => if i < row.len() {
            Some(&row[i])
        } else {
            None
        },
        None => None,
    }
}

/// Reads the report in a row of a flight's table.
pub fn read_flight_row(fields: &Vec<JsonValue>, row: &Vec<JsonValue>) -> (r: Option<IridiumReading>)
    ensures
        r == flight_reading(fields@, row@),
{
    let lat = value_num_fixed(find_cell(fields, row, "latitude"), 6);
    let lon = value_num_fixed(find_cell(fields, row, "longitude"), 6);
    let alt = value_num_fixed(find_cell(fields, row, "altitude"), 2);
    let vv = value_num_fixed(find_cell(fields, row, "vertical_velocity"), 2);
    let gs = value_num_fixed(find_cell(fields, row, "ground_speed"), 2);
    let t = match value_num_uint(find_cell(fields, row, "datetime")) {
        Some(t) => if t <= i64::MAX as u64 {
            Some(t as i64)
        } else {
            None
        },
        None => None,
    };
    match (lat, lon, alt, vv, gs, crate::fetch::to_report_time(t)) {
        (Some(lat), Some(lon), Some(alt), Some(vv), Some(gs), Some(t)) => Some(
            IridiumReading {
                position_time: PositionTime { lat, lon, alt, last_update: t },
                vertical_velocity: vv,
                ground_speed: gs,
            },
        ),
        _ => None,
    }
}

impl Iridium {
    /// A feed for `modem` on the service at `base_url`, with no report yet.
    pub fn new(base_url: &str, modem: &str) -> (r: Iridium)
        ensures
            r.base_url@ == base_url@,
            r.modem@ == modem@,
            r.position_time == PositionTime::new_spec(),
            r.vertical_velocity == 0,
            r.ground_speed == 0,
    {
        Iridium {
            base_url: String::from_str(base_url),
            modem: String::from_str(modem),
            position_time: PositionTime::new(),
            vertical_velocity: 0,
            ground_speed: 0,
        }
    }

    /// The URL that lists the modem's flights.
    pub fn request_url(&self) -> (r: String)
        ensures
            r@ == flights_url(*self),
    {
        let u = self.base_url.clone().concat("/api/meta/flights?modem_name=");
        u.concat(self.modem.as_str())
    }

    /// From the list of the modem's flights, the URL of the last flight's
    /// table.
    pub fn flight_url(&self, flights: &JsonValue) -> (r: Result<String, FetchError>)
        ensures
            match flights {
                JsonValue::Array(items) => if items@.len() == 0 {
                    r == Err::<String, FetchError>(FetchError::NoData)
                } else {
                    match str_of(member(items@.last(), "uid"@)) {
                        Some(uid) => r matches Ok(u) && u@ == flight_url_of(*self, uid),
                        None => r == Err::<String, FetchError>(FetchError::Malformed),
                    }
                },
                _ => r == Err::<String, FetchError>(FetchError::Malformed),
            },
    {
        match flights {
            JsonValue::Array(items) => {
                if items.len() == 0 {
                    return Err(FetchError::NoData);
                }
                match items[items.len() - 1].get_str("uid") {
                    Some(uid) => {
                        let u = self.base_url.clone().concat("/api/flight?uid=");
                        Ok(u.concat(uid.as_str()))
                    },
                    None => Err(FetchError::Malformed),
                }
            },
            _ => Err(FetchError::Malformed),
        }
    }

    /// Takes a report from the last row of a flight's table, whose columns
    /// are named in its `fields`. A failure leaves the feed as it was.
    pub fn update_position(&mut self, flight: &JsonValue) -> (r: Result<(), FetchError>)
        ensures
            r is Err ==> *final(self) == *old(self),
            match last_item(member(*flight, "data"@)) {
                None => r == Err::<(), FetchError>(FetchError::NoData),
                Some(JsonValue::Array(row)) => match array_of(member(*flight, "fields"@)) {
                    Some(fields) => match flight_reading(fields, row@) {
                        Some(rd) => {
                            &&& r is Ok
                            &&& final(self).base_url == old(self).base_url
                            &&& final(self).modem == old(self).modem
                            &&& final(self).position_time == rd.position_time
                            &&& final(self).vertical_velocity == rd.vertical_velocity
                            &&& final(self).ground_speed == rd.ground_speed
                        },
                        None => r == Err::<(), FetchError>(FetchError::Malformed),
                    },
                    None => r == Err::<(), FetchError>(FetchError::Malformed),
                },
                Some(_) => r == Err::<(), FetchError>(FetchError::Malformed),
            },
    {
        let row = match flight.get_array("data") {
            Some(rows) => {
                if rows.len() == 0 {
                    return Err(FetchError::NoData);
                }
                match &rows[rows.len() - 1] {
                    JsonValue::Array(row) => row,
                    _ => {
                        return Err(FetchError::Malformed);
                    },
                }
            },
            None => {
                return Err(FetchError::NoData);
            },
        };
        let fields = match flight.get_array("fields") {
            Some(f) => f,
            None => {
                return Err(FetchError::Malformed);
            },
        };
        match read_flight_row(fields, row) {
            Some(rd) => {
                self.position_time = rd.position_time;
                self.vertical_velocity = rd.vertical_velocity;
                self.ground_speed = rd.ground_speed;
                Ok(())
            },
            None => Err(FetchError::Malformed),
        }
    }

    pub fn get_pos_time(&self) -> (r: PositionTime)
        ensures
            r == self.position_time,
    {
        self.position_time
    }

    /// Latitude, longitude and altitude of the last report.
    pub fn get_position(&self) -> (r: (i64, i64, i64))
        ensures
            r == (self.position_time.lat, self.position_time.lon, self.position_time.alt),
    {
        (self.position_time.lat, self.position_time.lon, self.position_time.alt)
    }

    /// Ground speed of the last report, in hundredths of a m/s.
    pub fn get_speed(&self) -> (r: i64)
        ensures
            r == self.ground_speed,
    {
        self.ground_speed
    }

    /// Time of the last report; zero when there was none.
    pub fn get_last_update(&self) -> (r: u64)
        ensures
            r == self.position_time.last_update,
    {
        self.position_time.last_update
    }
}

} // verus!
