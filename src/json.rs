use crate::number::number_value;
use vstd::prelude::*;

verus! {

/// A decoded JSON document. Numbers keep their decimal text.
#[derive(Debug)]
pub enum JsonValue {
    Null,
    Bool(bool),
    Number(String),
    Str(String),
    Array(Vec<JsonValue>),
    Object(Vec<(String, JsonValue)>),
}

/// The value of the first entry named `key`.
pub open spec fn first_entry(entries: Seq<(String, JsonValue)>, key: Seq<char>) -> Option<JsonValue>
    decreases entries.len(),
{
    if entries.len() == 0 {
        None
    } else if entries[0].0@ == key {
        Some(entries[0].1)
    } else {
        first_entry(entries.skip(1), key)
    }
}

/// The member `key` of an object; `None` for a missing key or a value that
/// is not an object.
pub open spec fn member(v: JsonValue, key: Seq<char>) -> Option<JsonValue> {
    match v {
        JsonValue::Object(entries) => first_entry(entries@, key),
        _ => None,
    }
}

pub open spec fn str_of(v: Option<JsonValue>) -> Option<Seq<char>> {
    match v {
        Some(JsonValue::Str(s)) => Some(s@),
        _ => None,
    }
}

pub open spec fn number_of(v: Option<JsonValue>) -> Option<Seq<char>> {
    match v {
        Some(JsonValue::Number(s)) => Some(s@),
        _ => None,
    }
}

pub open spec fn array_of(v: Option<JsonValue>) -> Option<Seq<JsonValue>> {
    match v {
        Some(JsonValue::Array(items)) => Some(items@),
        _ => None,
    }
}

pub open spec fn is_ascii_text(s: Seq<char>) -> bool {
    forall|i: int| 0 <= i < s.len() ==> (#[trigger] s[i] as u32) < 128
}

pub open spec fn ascii_bytes(s: Seq<char>) -> Seq<u8> {
    s.map_values(|c: char| c as u8)
}

/// The decimal, with an optional exponent, that ASCII text `s` holds, in
/// units of `10^-places`.
pub open spec fn text_fixed(s: Seq<char>, places: nat) -> Option<i64> {
    if is_ascii_text(s) {
        number_value(ascii_bytes(s), places)
    } else {
        None
    }
}

/// Whether two strings hold the same characters.
pub fn str_eq(a: &str, b: &str) -> (r: bool)
    ensures
        r == (a@ == b@),
{
    let n = a.unicode_len();
    if n != b.unicode_len() {
        return false;
    }
    let mut i: usize = 0;
    while i < n
        invariant
            n == a@.len(),
            n == b@.len(),
            i <= n,
            forall|k: int| 0 <= k < i ==> a@[k] == b@[k],
        decreases n - i,
    {
        if a.get_char(i) != b.get_char(i) {
            return false;
        }
        i = i + 1;
    }
    assert(a@ == b@);
    true
}

/// The bytes of ASCII text, or `None` for text with other characters.
pub fn to_ascii(s: &str) -> (r: Option<Vec<u8>>)
    ensures
        is_ascii_text(s@) ==> (r matches Some(b) && b@ == ascii_bytes(s@)),
        !is_ascii_text(s@) ==> r is None,
{
    let n = s.unicode_len();
    let mut out: Vec<u8> = Vec::new();
    let mut i: usize = 0;
    while i < n
        invariant
            n == s@.len(),
            i <= n,
            out@ == ascii_bytes(s@.take(i as int)),
            is_ascii_text(s@.take(i as int)),
        decreases n - i,
    {
        let c = s.get_char(i);
        if (c as u32) >= 128 {
            assert(s@[i as int] == c);
            return None;
        }
        out.push(c as u8);
        proof {
            assert(s@.take(i + 1) == s@.take(i as int).push(c));
            assert(ascii_bytes(s@.take(i + 1)) == ascii_bytes(s@.take(i as int)).push(c as u8));
            assert forall|k: int| 0 <= k < i + 1 implies (#[trigger] s@.take(i + 1)[k] as u32) < 128 by {
                if k < i {
                    assert(s@.take(i + 1)[k] == s@.take(i as int)[k]);
                }
            }
        }
        i = i + 1;
    }
    assert(s@.take(n as int) == s@);
    Some(out)
}

/// Reads ASCII text as a decimal, with an optional exponent, in units of
/// `10^-places`.
pub fn read_fixed(s: &str, places: u32) -> (r: Option<i64>)
    requires
        places <= 18,
    ensures
        r == text_fixed(s@, places as nat),
{
    match to_ascii(s) {
        Some(b) => {
            let r = crate::number::parse_number(b.as_slice(), 0, b.len(), places);
            assert(b@.subrange(0, b@.len() as int) == b@);
            r
        },
        None => None,
    }
}

impl JsonValue {
    /// The member `key` of an object.
    pub fn get(&self, key: &str) -> (r: Option<&JsonValue>)
        ensures
            match r {
                Some(v) => member(*self, key@) == Some(*v),
                None => member(*self, key@) is None,
            },
    {
        match self {
            JsonValue::Object(entries) => {
                let mut i: usize = 0;
                assert(entries@.skip(0) == entries@);
                while i < entries.len()
                    invariant
                        i <= entries@.len(),
                        member(*self, key@) == first_entry(entries@, key@),
                        first_entry(entries@, key@) == first_entry(entries@.skip(i as int), key@),
                    decreases entries@.len() - i,
                {
                    let ghost rest = entries@.skip(i as int);
                    assert(rest[0] == entries@[i as int]);
                    let e = &entries[i];
                    if str_eq(e.0.as_str(), key) {
                        assert(*e == rest[0]);
                        assert(first_entry(rest, key@) == Some(e.1));
                        return Some(&e.1);
                    }
                    assert(rest.skip(1) == entries@.skip(i + 1));
                    assert(first_entry(rest, key@) == first_entry(rest.skip(1), key@));
                    i = i + 1;
                }
                None
            },
            _ => None,
        }
    }

    /// The text of a string member.
    pub fn get_str(&self, key: &str) -> (r: Option<&String>)
        ensures
            match r {
                Some(s) => str_of(member(*self, key@)) == Some(s@),
                None => str_of(member(*self, key@)) is None,
            },
    {
        match self.get(key) {
            Some(JsonValue::Str(s)) => Some(s),
            _ => None,
        }
    }

    /// The decimal text of a number member.
    pub fn get_number(&self, key: &str) -> (r: Option<&String>)
        ensures
            match r {
                Some(s) => number_of(member(*self, key@)) == Some(s@),
                None => number_of(member(*self, key@)) is None,
            },
    {
        match self.get(key) {
            Some(JsonValue::Number(s)) => Some(s),
            _ => None,
        }
    }

    /// The items of an array member.
    pub fn get_array(&self, key: &str) -> (r: Option<&Vec<JsonValue>>)
        ensures
            match r {
                Some(a) => array_of(member(*self, key@)) == Some(a@),
                None => array_of(member(*self, key@)) is None,
            },
    {
        match self.get(key) {
            Some(JsonValue::Array(a)) => Some(a),
            _ => None,
        }
    }
}

} // verus!
