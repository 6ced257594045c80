use crate::position_time::{field, Field, PositionTime};
use crate::number::{exp_index, lemma_exp_index, number_value, parse_number};
use crate::sort::{sort_by_field, sorted_by, Keyed};
use crate::text::{
    abs, all_digits, fixed_text, fixed_value, is_digit, lemma_fixed_round_trip, lemma_nat_digits_value,
    lemma_padded_digits_value, nat_digits, padded_digits, parse_uint, pow10, push_digits,
    push_fixed, uint_value,
};
use crate::tracking_type::{kind_bytes, TrackingType};
use vstd::prelude::*;

verus! {

/// One row of the log: an accepted observation and the kind of feed it came
/// from.
#[derive(Clone, Copy, Debug, PartialEq, Eq, Structural)]
pub struct LogRecord {
    pub kind: TrackingType,
    pub pos_time: PositionTime,
}

impl Keyed for LogRecord {
    open spec fn key(&self, f: Field) -> int {
        self.pos_time.key(f)
    }

    fn key_of(&self, f: Field) -> (r: i128) {
        self.pos_time.key_of(f)
    }
}

/// Decimal places written for latitude and longitude.
pub const DEGREE_PLACES: u32 = 6;

/// Decimal places written for altitude.
pub const METRE_PLACES: u32 = 2;

pub open spec fn ascii(s: Seq<char>) -> Seq<u8> {
    s.map_values(|c: char| c as u8)
}

/// The first line of every log file.
pub open spec fn header_text() -> Seq<u8> {
    ascii(seq!['s', 'o', 'u', 'r', 'c', 'e', '-', 'k', 'i', 'n', 'd', ',', 'l', 'a', 't', ',', 'l', 'o', 'n', ',', 'a', 'l', 't', ',', 't', 'i', 'm', 'e', '\n'])
}

/// The line written for `r`: kind, latitude and longitude with six decimals,
/// altitude with two, and time, separated by commas.
pub open spec fn row_text(r: LogRecord) -> Seq<u8> {
    kind_bytes(r.kind) + seq![',' as u8] + fixed_text(r.pos_time.lat as int, 6) + seq![',' as u8]
        + fixed_text(r.pos_time.lon as int, 6) + seq![',' as u8] + fixed_text(r.pos_time.alt as int, 2)
        + seq![',' as u8] + nat_digits(r.pos_time.last_update as nat) + seq!['\n' as u8]
}

/// The name of the log file of a session begun at unix time `t`.
pub open spec fn file_name_text(t: u64) -> Seq<u8> {
    ascii(seq!['d', 'a', 't', 'a']) + nat_digits(t as nat) + ascii(seq!['.', 'c', 's', 'v'])
}

/// The first line of every log file.
pub fn log_header() -> (r: Vec<u8>)
    ensures
        r@ == header_text(),
{
    let r = vec![
        's' as u8, 'o' as u8, 'u' as u8, 'r' as u8, 'c' as u8, 'e' as u8, '-' as u8, 'k' as u8,
        'i' as u8, 'n' as u8, 'd' as u8, ',' as u8, 'l' as u8, 'a' as u8, 't' as u8, ',' as u8,
        'l' as u8, 'o' as u8, 'n' as u8, ',' as u8, 'a' as u8, 'l' as u8, 't' as u8, ',' as u8,
        't' as u8, 'i' as u8, 'm' as u8, 'e' as u8, '\n' as u8,
    ];
    assert(r@ == header_text());
    r
}

/// The line written to the log for `rec`.
pub fn format_row(rec: &LogRecord) -> (r: Vec<u8>)
    ensures
        r@ == row_text(*rec),
{
    let mut out = rec.kind.name_bytes();
    out.push(',' as u8);
    push_fixed(&mut out, rec.pos_time.lat, DEGREE_PLACES);
    out.push(',' as u8);
    push_fixed(&mut out, rec.pos_time.lon, DEGREE_PLACES);
    out.push(',' as u8);
    push_fixed(&mut out, rec.pos_time.alt, METRE_PLACES);
    out.push(',' as u8);
    push_digits(&mut out, rec.pos_time.last_update);
    out.push('\n' as u8);
    assert(out@ == row_text(*rec));
    out
}

/// The name of the log file of a session begun at unix time `t`.
pub fn log_file_name(t: u64) -> (r: Vec<u8>)
    ensures
        r@ == file_name_text(t),
{
    let mut out = vec!['d' as u8, 'a' as u8, 't' as u8, 'a' as u8];
    push_digits(&mut out, t);
    out.push('.' as u8);
    out.push('c' as u8);
    out.push('s' as u8);
    out.push('v' as u8);
    assert(out@ == file_name_text(t));
    out
}

/// The indices at which `b` occurs in `s`, ascending.
pub open spec fn positions(s: Seq<u8>, b: u8) -> Seq<int>
    decreases s.len(),
{
    if s.len() == 0 {
        Seq::empty()
    } else if s.last() == b {
        positions(s.drop_last(), b).push(s.len() - 1)
    } else {
        positions(s.drop_last(), b)
    }
}

/// The lines of `text`: the pieces between newlines, the last one after the
/// last newline (empty when the text ends with one).
pub open spec fn lines_of(text: Seq<u8>) -> Seq<Seq<u8>> {
    let nl = positions(text, '\n' as u8);
    Seq::new(
        nl.len() + 1,
        |j: int|
            text.subrange(
                if j == 0 {
                    0
                } else {
                    nl[j - 1] + 1
                },
                if j < nl.len() {
                    nl[j]
                } else {
                    text.len() as int
                },
            ),
    )
}

/// A line without the carriage return that may end it.
pub open spec fn line_body(line: Seq<u8>) -> Seq<u8> {
    if line.len() > 0 && line.last() == '\r' as u8 {
        line.drop_last()
    } else {
        line
    }
}

/// The `k`-th comma-separated field of `line`, whose commas are at `cs`.
pub open spec fn field_text(line: Seq<u8>, cs: Seq<int>, k: int) -> Seq<u8> {
    line.subrange(
        if k == 0 {
            0
        } else {
            cs[k - 1] + 1
        },
        if k < cs.len() {
            cs[k]
        } else {
            line.len() as int
        },
    )
}

/// The kind whose name is `s`, if any.
pub open spec fn kind_of_text(s: Seq<u8>) -> Option<TrackingType> {
    if s == kind_bytes(TrackingType::APRS) {
        Some(TrackingType::APRS)
    } else if s == kind_bytes(TrackingType::Iridium) {
        Some(TrackingType::Iridium)
    } else if s == kind_bytes(TrackingType::SondeHub) {
        Some(TrackingType::SondeHub)
    } else {
        None
    }
}

/// The record that a line of the log holds: five comma-separated fields,
/// a kind name, latitude and longitude in degrees, altitude in metres (each
/// a decimal, optionally with an exponent), and time in unix seconds. `None`
/// where any field does not read.
pub open spec fn record_of(line: Seq<u8>) -> Option<LogRecord> {
    body_record(line_body(line))
}

/// The record that a line without its line ending holds.
pub open spec fn body_record(l: Seq<u8>) -> Option<LogRecord> {
    let cs = positions(l, ',' as u8);
    if cs.len() != 4 {
        None
    } else {
        record_from(
            field_text(l, cs, 0),
            field_text(l, cs, 1),
            field_text(l, cs, 2),
            field_text(l, cs, 3),
            field_text(l, cs, 4),
        )
    }
}

/// The record that five field texts hold, if each reads.
pub open spec fn record_from(
    kind: Seq<u8>,
    lat: Seq<u8>,
    lon: Seq<u8>,
    alt: Seq<u8>,
    time: Seq<u8>,
) -> Option<LogRecord> {
    match (
        kind_of_text(kind),
        number_value(lat, 6),
        number_value(lon, 6),
        number_value(alt, 2),
        uint_value(time),
    ) {
        (Some(kind), Some(lat), Some(lon), Some(alt), Some(t)) => Some(
            LogRecord { kind, pos_time: PositionTime { lat, lon, alt, last_update: t } },
        ),
        _ => None,
    }
}

/// The records that the lines hold, in order; lines that do not read are
/// left out.
pub open spec fn records_of(lines: Seq<Seq<u8>>) -> Seq<LogRecord>
    decreases lines.len(),
{
    if lines.len() == 0 {
        Seq::empty()
    } else {
        let r = records_of(lines.drop_last());
        match record_of(lines.last()) {
            Some(rec) => r.push(rec),
            None => r,
        }
    }
}

/// The history that a log holds: the records of every line after the
/// header, sorted by time (equal times in file order).
pub open spec fn history_of(text: Seq<u8>) -> Seq<LogRecord> {
    sorted_by(records_of(lines_of(text).skip(1)), Field::Time)
}

/// Every position found lies in `s`, holds `b`, and they ascend.
proof fn lemma_positions(s: Seq<u8>, b: u8)
    ensures
        forall|k: int| 0 <= k < positions(s, b).len() ==> 0 <= #[trigger] positions(s, b)[k] < s.len()
            && s[positions(s, b)[k]] == b,
        forall|k: int, m: int| 0 <= k < m < positions(s, b).len() ==> positions(s, b)[k] < positions(s, b)[m],
        positions(s, b).len() <= s.len(),
    decreases s.len(),
{
    if s.len() > 0 {
        let t = s.drop_last();
        lemma_positions(t, b);
        assert forall|k: int| 0 <= k < positions(t, b).len() implies s[#[trigger] positions(t, b)[k]] == b by {
            assert(s[positions(t, b)[k]] == t[positions(t, b)[k]]);
        }
    }
}

/// The positions of `b` in `s` extended by one byte.
proof fn lemma_positions_step(s: Seq<u8>, i: int, b: u8)
    requires
        0 <= i < s.len(),
    ensures
        positions(s.take(i + 1), b) == if s[i] == b {
            positions(s.take(i), b).push(i)
        } else {
            positions(s.take(i), b)
        },
{
    assert(s.take(i + 1).drop_last() == s.take(i));
    assert(s.take(i + 1).last() == s[i]);
}

/// The indices of `b` in `s[lo..hi]`, counted from `lo`.
fn find_all(s: &[u8], lo: usize, hi: usize, b: u8) -> (r: Vec<usize>)
    requires
        lo <= hi <= s@.len(),
    ensures
        r@.map_values(|p: usize| p as int) == positions(s@.subrange(lo as int, hi as int), b),
{
    let ghost t = s@.subrange(lo as int, hi as int);
    let mut r: Vec<usize> = Vec::new();
    let mut i = lo;
    while i < hi
        invariant
            lo <= i <= hi <= s@.len(),
            t == s@.subrange(lo as int, hi as int),
            r@.map_values(|p: usize| p as int) == positions(t.take(i - lo), b),
        decreases hi - i,
    {
        proof {
            lemma_positions_step(t, i - lo, b);
            assert(t[i - lo] == s@[i as int]);
        }
        if s[i] == b {
            r.push(i - lo);
            assert(r@.map_values(|p: usize| p as int) == positions(t.take(i - lo), b).push(i - lo));
        }
        i = i + 1;
    }
    assert(t.take(hi - lo) == t);
    r
}

/// Whether `s[lo..hi]` is `name`.
fn text_is(s: &[u8], lo: usize, hi: usize, name: &Vec<u8>) -> (r: bool)
    requires
        lo <= hi <= s@.len(),
    ensures
        r == (s@.subrange(lo as int, hi as int) == name@),
{
    let ghost t = s@.subrange(lo as int, hi as int);
    if hi - lo != name.len() {
        return false;
    }
    let mut i: usize = 0;
    while i < name.len()
        invariant
            hi - lo == name@.len(),
            lo <= hi <= s@.len(),
            t == s@.subrange(lo as int, hi as int),
            i <= name@.len(),
            forall|k: int| 0 <= k < i ==> t[k] == name@[k],
        decreases name@.len() - i,
    {
        if s[lo + i] != name[i] {
            assert(t[i as int] != name@[i as int]);
            return false;
        }
        i = i + 1;
    }
    assert(t == name@);
    true
}

/// The kind named by `s[lo..hi]`, if any.
fn parse_kind(s: &[u8], lo: usize, hi: usize) -> (r: Option<TrackingType>)
    requires
        lo <= hi <= s@.len(),
    ensures
        r == kind_of_text(s@.subrange(lo as int, hi as int)),
{
    if text_is(s, lo, hi, &TrackingType::APRS.name_bytes()) {
        Some(TrackingType::APRS)
    } else if text_is(s, lo, hi, &TrackingType::Iridium.name_bytes()) {
        Some(TrackingType::Iridium)
    } else if text_is(s, lo, hi, &TrackingType::SondeHub.name_bytes()) {
        Some(TrackingType::SondeHub)
    } else {
        None
    }
}

/// A field of the line `s[lo..end]` is a range of `s`.
proof fn lemma_field_text(s: Seq<u8>, lo: int, end: int, cs: Seq<int>, k: int)
    requires
        0 <= lo <= end <= s.len(),
        cs == positions(s.subrange(lo, end), ',' as u8),
        cs.len() == 4,
        0 <= k <= 4,
    ensures
        field_text(s.subrange(lo, end), cs, k) == s.subrange(
            lo + (if k == 0 { 0 } else { cs[k - 1] + 1 }),
            lo + (if k < 4 { cs[k] } else { end - lo }),
        ),
        0 <= (if k == 0 { 0 } else { cs[k - 1] + 1 }) <= (if k < 4 { cs[k] } else { end - lo }) <= end - lo,
{
    lemma_positions(s.subrange(lo, end), ',' as u8);
}

/// Reads the log line `s[lo..hi]`.
pub fn parse_row(s: &[u8], lo: usize, hi: usize) -> (r: Option<LogRecord>)
    requires
        lo <= hi <= s@.len(),
    ensures
        r == record_of(s@.subrange(lo as int, hi as int)),
{
    let ghost line = s@.subrange(lo as int, hi as int);
    let end = if hi > lo && s[hi - 1] == '\r' as u8 {
        hi - 1
    } else {
        hi
    };
    assert(s@.subrange(lo as int, end as int) == line_body(line));
    parse_body(s, lo, end)
}

/// Reads `s[lo..end]`, a log line without its line ending.
fn parse_body(s: &[u8], lo: usize, end: usize) -> (r: Option<LogRecord>)
    requires
        lo <= end <= s@.len(),
    ensures
        r == body_record(s@.subrange(lo as int, end as int)),
{
    let ghost l = s@.subrange(lo as int, end as int);
    let cs = find_all(s, lo, end, ',' as u8);
    let ghost csi = positions(l, ',' as u8);
    if cs.len() != 4 {
        return None;
    }
    proof {
        assert(cs@.map_values(|p: usize| p as int) == csi);
        assert(forall|k: int| 0 <= k < 4 ==> cs@[k] as int == #[trigger] csi[k]);
        assert(0 <= csi[0] && csi[0] < csi[1] && csi[1] < csi[2] && csi[2] < csi[3] && csi[3] < l.len())
            by {
            lemma_positions(l, ',' as u8);
        }
        lemma_field_text(s@, lo as int, end as int, csi, 0);
        lemma_field_text(s@, lo as int, end as int, csi, 1);
        lemma_field_text(s@, lo as int, end as int, csi, 2);
        lemma_field_text(s@, lo as int, end as int, csi, 3);
        lemma_field_text(s@, lo as int, end as int, csi, 4);
    }
    parse_fields(s, lo, lo + cs[0], lo + cs[1], lo + cs[2], lo + cs[3], end)
}

/// Reads the five fields of a log line, which lie between `lo`, the four
/// commas at `c0` to `c3`, and `end`.
fn parse_fields(s: &[u8], lo: usize, c0: usize, c1: usize, c2: usize, c3: usize, end: usize) -> (r:
    Option<LogRecord>)
    requires
        lo <= c0 < c1 < c2 < c3 < end <= s@.len(),
    ensures
        r == record_from(
            s@.subrange(lo as int, c0 as int),
            s@.subrange(c0 + 1, c1 as int),
            s@.subrange(c1 + 1, c2 as int),
            s@.subrange(c2 + 1, c3 as int),
            s@.subrange(c3 + 1, end as int),
        ),
{
    let kind = parse_kind(s, lo, c0);
    let lat = parse_number(s, c0 + 1, c1, DEGREE_PLACES);
    let lon = parse_number(s, c1 + 1, c2, DEGREE_PLACES);
    let alt = parse_number(s, c2 + 1, c3, METRE_PLACES);
    let t = parse_uint(s, c3 + 1, end);
    match (kind, lat, lon, alt, t) {
        (Some(kind), Some(lat), Some(lon), Some(alt), Some(t)) => Some(
            LogRecord { kind, pos_time: PositionTime { lat, lon, alt, last_update: t } },
        ),
        _ => None,
    }
}

/// Replays a log: the records of every line after the header that reads,
/// sorted by time (equal times in file order). Lines that do not read are
/// skipped.
pub fn parse_log(text: &[u8]) -> (r: Vec<LogRecord>)
    ensures
        r@ == history_of(text@),
{
    let nl = find_all(text, 0, text.len(), '\n' as u8);
    let ghost t = text@;
    let ghost nli = positions(t, '\n' as u8);
    let ghost lines = lines_of(t);
    proof {
        assert(t.subrange(0, t.len() as int) == t);
        lemma_positions(t, '\n' as u8);
        assert(nl@.len() == nli.len());
        assert(forall|k: int| 0 <= k < nl@.len() ==> nl@[k] as int == #[trigger] nli[k]);
    }
    let n = nl.len();
    let tl = text.len();
    let mut out: Vec<LogRecord> = Vec::new();
    let mut j: usize = 0;
    while j < n
        invariant
            0 <= j <= n,
            n == nli.len(),
            n == nl@.len(),
            tl == t.len(),
            t == text@,
            nli == positions(t, '\n' as u8),
            lines == lines_of(t),
            forall|k: int| 0 <= k < n ==> nl@[k] as int == #[trigger] nli[k],
            forall|k: int| 0 <= k < nli.len() ==> 0 <= #[trigger] nli[k] < t.len(),
            forall|k: int, m: int| 0 <= k < m < nli.len() ==> nli[k] < nli[m],
            out@ == records_of(lines.subrange(1, j + 1)),
        decreases n - j,
    {
        proof {
            assert(nl@[j as int] as int == nli[j as int]);
            if j + 1 < n {
                assert(nl@[j + 1] as int == nli[j + 1]);
                assert(nli[j as int] < nli[j + 1]);
            }
        }
        let lo = nl[j] + 1;
        let hi = if j + 1 < n {
            nl[j + 1]
        } else {
            tl
        };
        let rec = parse_row(text, lo, hi);
        proof {
            assert(lines[j + 1] == t.subrange(lo as int, hi as int));
            assert(lines.subrange(1, j + 2).drop_last() == lines.subrange(1, j + 1));
            assert(lines.subrange(1, j + 2).last() == lines[j + 1]);
        }
        match rec {
            Some(r) => out.push(r),
            None => {},
        }
        j = j + 1;
    }
    assert(lines.subrange(1, n + 1) == lines.skip(1));
    sort_by_field(&mut out, Field::Time);
    out
}

/// The unix time in a log file name `data<time>.csv`, if it has that form.
pub open spec fn file_stamp(name: Seq<u8>) -> Option<u64> {
    if name.len() >= 8 && name.take(4) == ascii(seq!['d', 'a', 't', 'a']) && name.skip(name.len() - 4)
        == ascii(seq!['.', 'c', 's', 'v']) {
        uint_value(name.subrange(4, name.len() - 4))
    } else {
        None
    }
}

/// The index and time of the log file with the latest time among `names`
/// (the first of equal times), if any name is a log file name.
pub open spec fn latest_file(names: Seq<Seq<u8>>) -> Option<(int, u64)>
    decreases names.len(),
{
    if names.len() == 0 {
        None
    } else {
        let r = latest_file(names.drop_last());
        match file_stamp(names.last()) {
            None => r,
            Some(t) => match r {
                Some((k, best)) => if t > best {
                    Some((names.len() - 1, t))
                } else {
                    Some((k, best))
                },
                None => Some((names.len() - 1, t)),
            },
        }
    }
}

/// The unix time in the log file name `name`, if it has the form
/// `data<time>.csv`.
pub fn log_file_stamp(name: &Vec<u8>) -> (r: Option<u64>)
    ensures
        r == file_stamp(name@),
{
    let n = name.len();
    if n < 8 {
        return None;
    }
    let prefix = vec!['d' as u8, 'a' as u8, 't' as u8, 'a' as u8];
    let suffix = vec!['.' as u8, 'c' as u8, 's' as u8, 'v' as u8];
    let s = name.as_slice();
    assert(prefix@ == ascii(seq!['d', 'a', 't', 'a']));
    assert(suffix@ == ascii(seq!['.', 'c', 's', 'v']));
    proof {
        assert(name@.take(4) == s@.subrange(0, 4));
        assert(name@.skip(n - 4) == s@.subrange(n - 4, n as int));
    }
    if !text_is(s, 0, 4, &prefix) || !text_is(s, n - 4, n, &suffix) {
        return None;
    }
    parse_uint(s, 4, n - 4)
}

/// Of several file names, the index of the log file with the latest time in
/// its name (compared as numbers; the first of equal times), if any.
pub fn latest_log_index(names: &Vec<Vec<u8>>) -> (r: Option<usize>)
    ensures
        r == match latest_file(names@.map_values(|v: Vec<u8>| v@)) {
            Some((k, _)) => Some(k as usize),
            None => None,
        },
{
    let ghost ns = names@.map_values(|v: Vec<u8>| v@);
    let mut best: Option<(usize, u64)> = None;
    let mut i: usize = 0;
    while i < names.len()
        invariant
            0 <= i <= names@.len(),
            ns == names@.map_values(|v: Vec<u8>| v@),
            match latest_file(ns.take(i as int)) {
                Some((k, t)) => best == Some((k as usize, t)) && 0 <= k < i,
                None => best is None,
            },
        decreases names@.len() - i,
    {
        let stamp = log_file_stamp(&names[i]);
        proof {
            let p = ns.take(i + 1);
            assert(p.drop_last() == ns.take(i as int));
            assert(p.last() == names@[i as int]@);
        }
        match stamp {
            Some(t) => {
                match best {
                    Some((k, b)) => {
                        if t > b {
                            best = Some((i, t));
                        }
                    },
                    None => {
                        best = Some((i, t));
                    },
                }
            },
            None => {},
        }
        i = i + 1;
    }
    assert(ns.take(names@.len() as int) == ns);
    match best {
        Some((k, _)) => Some(k),
        None => None,
    }
}

/// The name of a session's log file reads back as its time.
pub proof fn lemma_file_name_round_trip(t: u64)
    ensures
        file_stamp(file_name_text(t)) == Some(t),
{
    lemma_nat_digits_value(t as nat);
    let name = file_name_text(t);
    let d = nat_digits(t as nat);
    assert(name.take(4) == ascii(seq!['d', 'a', 't', 'a']));
    assert(name.skip(name.len() - 4) == ascii(seq!['.', 'c', 's', 'v']));
    assert(name.subrange(4, name.len() - 4) == d);
}

/// Appending bytes other than `b` adds no position of `b`.
proof fn lemma_positions_append_free(a: Seq<u8>, c: Seq<u8>, b: u8)
    requires
        forall|i: int| 0 <= i < c.len() ==> #[trigger] c[i] != b,
    ensures
        positions(a + c, b) == positions(a, b),
    decreases c.len(),
{
    if c.len() > 0 {
        let c1 = c.drop_last();
        assert forall|i: int| 0 <= i < c1.len() implies #[trigger] c1[i] != b by {
            assert(c1[i] == c[i]);
        }
        lemma_positions_append_free(a, c1, b);
        assert((a + c).drop_last() == a + c1);
        assert((a + c).last() == c[c.len() - 1]);
    } else {
        assert(a + c == a);
    }
}

/// Appending `b` adds its position.
proof fn lemma_positions_append_one(a: Seq<u8>, b: u8)
    ensures
        positions(a + seq![b], b) == positions(a, b).push(a.len() as int),
{
    assert((a + seq![b]).drop_last() == a);
    assert((a + seq![b]).last() == b);
}

/// Whether `b` can stand in the text of a number: a digit, `-` or `.`.
pub open spec fn number_byte(b: u8) -> bool {
    is_digit(b) || b == '-' as u8 || b == '.' as u8
}

/// Whether no byte of `s` is `x`.
pub open spec fn free_of(s: Seq<u8>, x: u8) -> bool {
    forall|i: int| 0 <= i < s.len() ==> #[trigger] s[i] != x
}

proof fn lemma_free_concat(s1: Seq<u8>, s2: Seq<u8>, x: u8)
    requires
        free_of(s1, x),
        free_of(s2, x),
    ensures
        free_of(s1 + s2, x),
{
    assert forall|i: int| 0 <= i < (s1 + s2).len() implies #[trigger] (s1 + s2)[i] != x by {
        if i < s1.len() {
            assert((s1 + s2)[i] == s1[i]);
        } else {
            assert((s1 + s2)[i] == s2[i - s1.len()]);
        }
    }
}

/// The text of a fixed-point number holds only digits, `-` and `.`.
proof fn lemma_fixed_text_bytes(v: int, places: nat)
    ensures
        forall|i: int| 0 <= i < fixed_text(v, places).len() ==> number_byte(#[trigger] fixed_text(v, places)[i]),
        free_of(fixed_text(v, places), ',' as u8),
        free_of(fixed_text(v, places), '\n' as u8),
        exp_index(fixed_text(v, places)) == fixed_text(v, places).len(),
        number_value(fixed_text(v, places), places) == fixed_value(fixed_text(v, places), places),
{
    let m = abs(v) as int;
    crate::text::lemma_pow10_positive(places);
    assert(m / pow10(places) >= 0) by (nonlinear_arith)
        requires m >= 0, pow10(places) >= 1;
    assert(m % pow10(places) >= 0) by {
        vstd::arithmetic::div_mod::lemma_mod_bound(m, pow10(places));
    }
    lemma_nat_digits_value((m / pow10(places)) as nat);
    lemma_padded_digits_value((m % pow10(places)) as nat, places);
    let t = fixed_text(v, places);
    assert forall|i: int| 0 <= i < t.len() implies number_byte(#[trigger] t[i]) by {
        let sign = if v < 0 { seq!['-' as u8] } else { Seq::<u8>::empty() };
        let whole = nat_digits((m / pow10(places)) as nat);
        if i < sign.len() {
            assert(t[i] == sign[i]);
        } else if i < sign.len() + whole.len() {
            assert(t[i] == whole[i - sign.len()]);
            assert(is_digit(whole[i - sign.len()]));
        } else if places > 0 && i == sign.len() + whole.len() {
            assert(t[i] == '.' as u8);
        } else {
            let pd = padded_digits((m % pow10(places)) as nat, places);
            assert(t[i] == pd[i - sign.len() - whole.len() - 1]);
            assert(is_digit(pd[i - sign.len() - whole.len() - 1]));
        }
    }
    assert forall|i: int| 0 <= i < t.len() implies #[trigger] t[i] != ',' as u8 && t[i] != '\n' as u8 by {
        assert(number_byte(t[i]));
    }
    assert forall|i: int| 0 <= i < t.len() implies !crate::number::is_exp_mark(#[trigger] t[i]) by {
        assert(number_byte(t[i]));
    }
    lemma_exp_index(t, t.len() as int);
}

/// Five fields joined by commas.
pub open spec fn joined(k: Seq<u8>, a: Seq<u8>, b: Seq<u8>, c: Seq<u8>, d: Seq<u8>) -> Seq<u8> {
    k + seq![',' as u8] + a + seq![',' as u8] + b + seq![',' as u8] + c + seq![',' as u8] + d
}

/// Joining five comma-free fields puts commas exactly between them.
proof fn lemma_joined_commas(k: Seq<u8>, a: Seq<u8>, b: Seq<u8>, c: Seq<u8>, d: Seq<u8>)
    requires
        free_of(k, ',' as u8),
        free_of(a, ',' as u8),
        free_of(b, ',' as u8),
        free_of(c, ',' as u8),
        free_of(d, ',' as u8),
    ensures
        positions(joined(k, a, b, c, d), ',' as u8) == seq![
            k.len() as int,
            (k.len() + 1 + a.len()) as int,
            (k.len() + 2 + a.len() + b.len()) as int,
            (k.len() + 3 + a.len() + b.len() + c.len()) as int,
        ],
{
    let comma = seq![',' as u8];
    let e = Seq::<u8>::empty();
    lemma_positions_append_free(e, k, ',' as u8);
    assert(e + k == k);
    let l1 = k + comma;
    lemma_positions_append_one(k, ',' as u8);
    let l2 = l1 + a;
    lemma_positions_append_free(l1, a, ',' as u8);
    let l3 = l2 + comma;
    lemma_positions_append_one(l2, ',' as u8);
    let l4 = l3 + b;
    lemma_positions_append_free(l3, b, ',' as u8);
    let l5 = l4 + comma;
    lemma_positions_append_one(l4, ',' as u8);
    let l6 = l5 + c;
    lemma_positions_append_free(l5, c, ',' as u8);
    let l7 = l6 + comma;
    lemma_positions_append_one(l6, ',' as u8);
    lemma_positions_append_free(l7, d, ',' as u8);
    assert(joined(k, a, b, c, d) == l7 + d);
}

/// The fields of five joined comma-free fields are those fields.
proof fn lemma_joined_fields(k: Seq<u8>, a: Seq<u8>, b: Seq<u8>, c: Seq<u8>, d: Seq<u8>)
    requires
        free_of(k, ',' as u8),
        free_of(a, ',' as u8),
        free_of(b, ',' as u8),
        free_of(c, ',' as u8),
        free_of(d, ',' as u8),
    ensures
        ({
            let l = joined(k, a, b, c, d);
            let cs = positions(l, ',' as u8);
            &&& cs.len() == 4
            &&& field_text(l, cs, 0) == k
            &&& field_text(l, cs, 1) == a
            &&& field_text(l, cs, 2) == b
            &&& field_text(l, cs, 3) == c
            &&& field_text(l, cs, 4) == d
        }),
{
    lemma_joined_commas(k, a, b, c, d);
    let l = joined(k, a, b, c, d);
    let cs = positions(l, ',' as u8);
    assert(field_text(l, cs, 0) == k);
    assert(field_text(l, cs, 1) == a);
    assert(field_text(l, cs, 2) == b);
    assert(field_text(l, cs, 3) == c);
    assert(field_text(l, cs, 4) == d);
}

/// A line written to the log, without its newline, reads back as the record
/// it was written for.
pub proof fn lemma_row_round_trip(r: LogRecord)
    ensures
        record_of(row_text(r).drop_last()) == Some(r),
{
    let k = kind_bytes(r.kind);
    let a = fixed_text(r.pos_time.lat as int, 6);
    let b = fixed_text(r.pos_time.lon as int, 6);
    let c = fixed_text(r.pos_time.alt as int, 2);
    let d = nat_digits(r.pos_time.last_update as nat);
    let l = joined(k, a, b, c, d);
    assert(row_text(r) == l + seq!['\n' as u8]);
    assert(row_text(r).drop_last() == l);
    lemma_nat_digits_value(r.pos_time.last_update as nat);
    assert(l.last() == d[d.len() - 1]);
    assert(is_digit(d[d.len() - 1]));
    assert(line_body(l) == l);
    lemma_fixed_text_bytes(r.pos_time.lat as int, 6);
    lemma_fixed_text_bytes(r.pos_time.lon as int, 6);
    lemma_fixed_text_bytes(r.pos_time.alt as int, 2);
    lemma_digits_free(d);
    reveal_kind_bytes(r.kind);
    lemma_joined_fields(k, a, b, c, d);
    lemma_fixed_round_trip(r.pos_time.lat, 6);
    lemma_fixed_round_trip(r.pos_time.lon, 6);
    lemma_fixed_round_trip(r.pos_time.alt, 2);
    assert(uint_value(d) == Some(r.pos_time.last_update));
    assert(kind_of_text(k) == Some(r.kind));
}

/// The name bytes of each kind: their letters, and lengths four, seven and
/// eight.
proof fn reveal_kind_bytes(kind: TrackingType)
    ensures
        free_of(kind_bytes(kind), ',' as u8),
        free_of(kind_bytes(kind), '\n' as u8),
        kind_bytes(TrackingType::APRS).len() == 4,
        kind_bytes(TrackingType::Iridium).len() == 7,
        kind_bytes(TrackingType::SondeHub).len() == 8,
{
    let k = kind_bytes(kind);
    assert forall|i: int| 0 <= i < k.len() implies #[trigger] k[i] != ',' as u8 && k[i] != '\n' as u8 by {
        assert(k[i] == crate::tracking_type::kind_name(kind)[i] as u8);
    }
}

/// Digits hold neither a comma nor a newline.
proof fn lemma_digits_free(d: Seq<u8>)
    requires
        all_digits(d),
    ensures
        free_of(d, ',' as u8),
        free_of(d, '\n' as u8),
{
    assert forall|i: int| 0 <= i < d.len() implies #[trigger] d[i] != ',' as u8 && d[i] != '\n' as u8 by {
        assert(is_digit(d[i]));
    }
}

/// The rows written for `recs`, in order.
pub open spec fn rows_text(recs: Seq<LogRecord>) -> Seq<u8>
    decreases recs.len(),
{
    if recs.len() == 0 {
        Seq::empty()
    } else {
        rows_text(recs.drop_last()) + row_text(recs.last())
    }
}

/// A log file as written: the header, then a row for each record.
pub open spec fn log_text(recs: Seq<LogRecord>) -> Seq<u8> {
    header_text() + rows_text(recs)
}

/// The line of each record, without its newline.
pub open spec fn row_bodies(recs: Seq<LogRecord>) -> Seq<Seq<u8>> {
    Seq::new(recs.len(), |i: int| row_text(recs[i]).drop_last())
}

/// No newline stands inside a row, and one ends it.
proof fn lemma_row_shape(r: LogRecord)
    ensures
        row_text(r) == row_text(r).drop_last().push('\n' as u8),
        free_of(row_text(r).drop_last(), '\n' as u8),
{
    let k = kind_bytes(r.kind);
    let a = fixed_text(r.pos_time.lat as int, 6);
    let b = fixed_text(r.pos_time.lon as int, 6);
    let c = fixed_text(r.pos_time.alt as int, 2);
    let d = nat_digits(r.pos_time.last_update as nat);
    let comma = seq![',' as u8];
    let l = joined(k, a, b, c, d);
    assert(row_text(r) == l + seq!['\n' as u8]);
    assert(row_text(r).drop_last() == l);
    lemma_nat_digits_value(r.pos_time.last_update as nat);
    lemma_fixed_text_bytes(r.pos_time.lat as int, 6);
    lemma_fixed_text_bytes(r.pos_time.lon as int, 6);
    lemma_fixed_text_bytes(r.pos_time.alt as int, 2);
    lemma_digits_free(d);
    reveal_kind_bytes(r.kind);
    let nl = '\n' as u8;
    assert(free_of(comma, nl));
    lemma_free_concat(k, comma, nl);
    lemma_free_concat(k + comma, a, nl);
    lemma_free_concat(k + comma + a, comma, nl);
    lemma_free_concat(k + comma + a + comma, b, nl);
    lemma_free_concat(k + comma + a + comma + b, comma, nl);
    lemma_free_concat(k + comma + a + comma + b + comma, c, nl);
    lemma_free_concat(k + comma + a + comma + b + comma + c, comma, nl);
    lemma_free_concat(k + comma + a + comma + b + comma + c + comma, d, nl);
}

/// Appending a line ending in a newline to text that ends in one adds that
/// line before the final empty one.
proof fn lemma_lines_append(prefix: Seq<u8>, body: Seq<u8>)
    requires
        prefix.len() > 0,
        prefix.last() == '\n' as u8,
        free_of(body, '\n' as u8),
    ensures
        lines_of(prefix + body.push('\n' as u8)) == lines_of(prefix).drop_last() + seq![body, Seq::<u8>::empty()],
{
    let nl = '\n' as u8;
    let text = prefix + body.push(nl);
    let p0 = positions(prefix, nl);
    assert(prefix.drop_last().push(nl) == prefix);
    assert(p0 == positions(prefix.drop_last(), nl).push(prefix.len() - 1));
    lemma_positions_append_free(prefix, body, nl);
    lemma_positions_append_one(prefix + body, nl);
    assert(text == (prefix + body) + seq![nl]);
    let p1 = positions(text, nl);
    assert(p1 == p0.push((prefix.len() + body.len()) as int));
    lemma_positions(prefix, nl);
    let old_lines = lines_of(prefix);
    let new_lines = lines_of(text);
    let expected = old_lines.drop_last() + seq![body, Seq::<u8>::empty()];
    assert(new_lines.len() == expected.len());
    assert forall|j: int| 0 <= j < new_lines.len() implies new_lines[j] == expected[j] by {
        if j < p0.len() {
            let lo = if j == 0 { 0 } else { p0[j - 1] + 1 };
            let hi = p0[j];
            if j > 0 {
                assert(p0[j - 1] < p0[j]);
            }
            assert(text.subrange(lo, hi) == prefix.subrange(lo, hi));
            assert(expected[j] == old_lines[j]);
        } else if j == p0.len() {
            assert(p1[j - 1] == prefix.len() - 1);
            assert(text.subrange(prefix.len() as int, (prefix.len() + body.len()) as int) == body);
        } else {
            assert(text.subrange(text.len() as int, text.len() as int) == Seq::<u8>::empty());
        }
    }
    assert(new_lines == expected);
}

/// A replayed line that is empty holds no record.
proof fn lemma_empty_line_record()
    ensures
        record_of(Seq::<u8>::empty()) is None,
{
    let e = Seq::<u8>::empty();
    assert(line_body(e) == e);
    assert(positions(e, ',' as u8).len() == 0);
}

/// The lines of a log as written: the header, a line for each record, and
/// the empty line after the last newline.
proof fn lemma_log_lines(recs: Seq<LogRecord>)
    ensures
        lines_of(log_text(recs)) == seq![header_text().drop_last()] + row_bodies(recs) + seq![Seq::<u8>::empty()],
        log_text(recs).len() > 0,
        log_text(recs).last() == '\n' as u8,
    decreases recs.len(),
{
    let nl = '\n' as u8;
    let h = header_text();
    let hb = h.drop_last();
    if recs.len() == 0 {
        assert(log_text(recs) == h);
        assert(h == hb.push(nl));
        assert(free_of(hb, nl));
        lemma_positions_append_free(Seq::<u8>::empty(), hb, nl);
        assert(Seq::<u8>::empty() + hb == hb);
        assert(positions(h, nl) == seq![hb.len() as int]);
        assert(lines_of(h)[0] == h.subrange(0, hb.len() as int));
        assert(h.subrange(0, hb.len() as int) == hb);
        assert(lines_of(h)[1] == h.subrange(h.len() as int, h.len() as int));
        assert(h.subrange(h.len() as int, h.len() as int) =~= Seq::<u8>::empty());
        assert(lines_of(h).len() == 2);
        assert(lines_of(h) =~= seq![hb, Seq::<u8>::empty()]);
        assert(row_bodies(recs) == Seq::<Seq<u8>>::empty());
        assert(seq![hb] + row_bodies(recs) + seq![Seq::<u8>::empty()] == seq![hb, Seq::<u8>::empty()]);
    } else {
        let front = recs.drop_last();
        let r = recs.last();
        lemma_log_lines(front);
        lemma_row_shape(r);
        let body = row_text(r).drop_last();
        assert(log_text(recs) == log_text(front) + body.push(nl));
        lemma_lines_append(log_text(front), body);
        assert(row_bodies(recs) == row_bodies(front).push(body));
        assert(seq![hb] + row_bodies(recs) + seq![Seq::<u8>::empty()] == (seq![hb] + row_bodies(front)
            + seq![Seq::<u8>::empty()]).drop_last() + seq![body, Seq::<u8>::empty()]);
        assert(log_text(recs).last() == nl);
    }
}

/// The records that the written lines hold are the records written.
proof fn lemma_bodies_records(recs: Seq<LogRecord>)
    ensures
        records_of(row_bodies(recs)) == recs,
    decreases recs.len(),
{
    if recs.len() > 0 {
        let front = recs.drop_last();
        lemma_bodies_records(front);
        assert(row_bodies(recs).drop_last() == row_bodies(front));
        assert(row_bodies(recs).last() == row_text(recs.last()).drop_last());
        lemma_row_round_trip(recs.last());
        assert(front.push(recs.last()) == recs);
    } else {
        assert(row_bodies(recs) == Seq::<Seq<u8>>::empty());
    }
}

/// Replaying a log as written gives back the records written, sorted by
/// time, with equal times in the order written.
pub proof fn lemma_history_round_trip(recs: Seq<LogRecord>)
    ensures
        history_of(log_text(recs)) == sorted_by(recs, Field::Time),
{
    lemma_log_lines(recs);
    let hb = header_text().drop_last();
    let lines = lines_of(log_text(recs));
    let bodies = row_bodies(recs);
    assert(lines.skip(1) == bodies.push(Seq::<u8>::empty()));
    assert(bodies.push(Seq::<u8>::empty()).drop_last() == bodies);
    lemma_empty_line_record();
    lemma_bodies_records(recs);
}

/// A line that does not read adds nothing to the records, wherever it
/// stands.
pub proof fn lemma_unreadable_line_skipped(a: Seq<Seq<u8>>, line: Seq<u8>, b: Seq<Seq<u8>>)
    requires
        record_of(line) is None,
    ensures
        records_of(a + seq![line] + b) == records_of(a + b),
    decreases b.len(),
{
    if b.len() == 0 {
        assert(a + seq![line] + b == a.push(line));
        assert(a.push(line).drop_last() == a);
        assert(a + b == a);
    } else {
        lemma_unreadable_line_skipped(a, line, b.drop_last());
        assert((a + seq![line] + b).drop_last() == a + seq![line] + b.drop_last());
        assert((a + b).drop_last() == a + b.drop_last());
        assert((a + seq![line] + b).last() == b.last());
        assert((a + b).last() == b.last());
    }
}

} // verus!
