use crate::json::{array_of, ascii_bytes, is_ascii_text, number_of, str_of, text_fixed, to_ascii, JsonValue};
use crate::text::{parse_uint, uint_value};
use vstd::prelude::*;

verus! {

/// Why one feed gave no report in a poll cycle. None of these stops the
/// cycle: each is reported beside the reports of the other feeds.
#[derive(Debug)]
pub enum FetchError {
    /// The request could not be made, or its answer could not be decoded.
    Transport(String),
    /// The service answered that the request failed, with its description.
    Api(String),
    /// The service holds no report for this feed.
    NoData,
    /// The answer lacks a part that a report needs, or holds it in another
    /// form.
    Malformed,
}

/// A non-negative integer written as ASCII digits, where it fits in `u64`.
pub open spec fn text_uint(s: Seq<char>) -> Option<u64> {
    if is_ascii_text(s) {
        uint_value(ascii_bytes(s))
    } else {
        None
    }
}

/// The decimal in a string value, in units of `10^-places`.
pub open spec fn str_fixed(v: Option<JsonValue>, places: nat) -> Option<i64> {
    match str_of(v) {
        Some(t) => text_fixed(t, places),
        None => None,
    }
}

/// The decimal in a number value, in units of `10^-places`.
pub open spec fn num_fixed(v: Option<JsonValue>, places: nat) -> Option<i64> {
    match number_of(v) {
        Some(t) => text_fixed(t, places),
        None => None,
    }
}

/// A number value that is a non-negative integer fitting in `u64`.
pub open spec fn num_uint(v: Option<JsonValue>) -> Option<u64> {
    match number_of(v) {
        Some(t) => text_uint(t),
        None => None,
    }
}

pub open spec fn or_zero(v: Option<i64>) -> i64 {
    match v {
        Some(x) => x,
        None => 0,
    }
}

/// A time that a report can carry: a positive number of unix seconds.
pub open spec fn report_time(v: Option<i64>) -> Option<u64> {
    match v {
        Some(t) => if t > 0 {
            Some(t as u64)
        } else {
            None
        },
        None => None,
    }
}

/// The last item of an array value.
pub open spec fn last_item(v: Option<JsonValue>) -> Option<JsonValue> {
    match array_of(v) {
        Some(items) => if items.len() > 0 {
            Some(items.last())
        } else {
            None
        },
        None => None,
    }
}

/// Reads ASCII digits as a `u64`.
pub fn read_uint(s: &str) -> (r: Option<u64>)
    ensures
        r == text_uint(s@),
{
    match to_ascii(s) {
        Some(b) => {
            let r = parse_uint(b.as_slice(), 0, b.len());
            assert(b@.subrange(0, b@.len() as int) == b@);
            r
        },
        None => None,
    }
}

/// Reads a string value as a decimal.
pub fn value_str_fixed(v: Option<&JsonValue>, places: u32) -> (r: Option<i64>)
    requires
        places <= 18,
    ensures
        r == str_fixed(
            match v {
                Some(x) => Some(*x),
                None => None,
            },
            places as nat,
        ),
{
    match v {
        Some(JsonValue::Str(t)) => crate::json::read_fixed(t.as_str(), places),
        _ => None,
    }
}

/// Reads a number value as a decimal.
pub fn value_num_fixed(v: Option<&JsonValue>, places: u32) -> (r: Option<i64>)
    requires
        places <= 18,
    ensures
        r == num_fixed(
            match v {
                Some(x) => Some(*x),
                None => None,
            },
            places as nat,
        ),
{
    match v {
        Some(JsonValue::Number(t)) => crate::json::read_fixed(t.as_str(), places),
        _ => None,
    }
}

/// Reads a number value as a `u64`.
pub fn value_num_uint(v: Option<&JsonValue>) -> (r: Option<u64>)
    ensures
        r == num_uint(
            match v {
                Some(x) => Some(*x),
                None => None,
            },
        ),
{
    match v {
        Some(JsonValue::Number(t)) => read_uint(t.as_str()),
        _ => None,
    }
}

/// Keeps a time that a report can carry.
pub fn to_report_time(v: Option<i64>) -> (r: Option<u64>)
    ensures
        r == report_time(v),
{
    match v {
        Some(t) => if t > 0 {
            Some(t as u64)
        } else {
            None
        },
        None => None,
    }
}

} // verus!
