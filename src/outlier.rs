use crate::position_time::{
    average_of, field, latest_index, lemma_estimate_has_time, lemma_recent_is_first_latest, recent_of,
    EstimationType, Field, PositionTime,
};
use crate::sort::{lemma_sorted_by_len, sort_by_field, sorted_by, Keyed};
use vstd::prelude::*;

verus! {

/// Width of the acceptance band around each axis median, in hundredths:
/// the band runs from `median * (1 - 1.15)` to `median * (1 + 1.15)`.
pub const MARGIN_PERCENT: i128 = 115;

/// Units of latitude and longitude in one degree.
pub const DEGREE_UNITS: i128 = 1_000_000;

/// Units of altitude in one metre.
pub const METRE_UNITS: i128 = 100;

/// The observations made of matching entries of `positions` and `times`.
pub open spec fn observations(positions: Seq<(i64, i64, i64)>, times: Seq<u64>) -> Seq<PositionTime> {
    Seq::new(
        positions.len(),
        |i: int| PositionTime { lat: positions[i].0, lon: positions[i].1, alt: positions[i].2, last_update: times[i] },
    )
}

/// Twice the median of field `f` over `s`: twice the middle value of an odd
/// count, the sum of the two middle values of an even one.
pub open spec fn double_median(s: Seq<PositionTime>, f: Field) -> int {
    let t = sorted_by(s, f);
    let n = t.len() as int;
    if n % 2 == 1 {
        2 * field(t[n / 2], f)
    } else {
        field(t[n / 2 - 1], f) + field(t[n / 2], f)
    }
}

/// Units of field `f` in one degree or metre.
pub open spec fn units_of(f: Field) -> int {
    match f {
        Field::Alt => METRE_UNITS as int,
        _ => DEGREE_UNITS as int,
    }
}

/// Whether `x` lies in the band around a median whose double is `m2`: from
/// `m * (1 - margin)` to `m * (1 + margin)`, or, for a zero median, from
/// `-margin` to `margin` whole degrees or metres. For a negative median the
/// first end lies above the second, and the band holds nothing.
pub open spec fn in_band(x: int, m2: int, units: int) -> bool {
    if m2 == 0 {
        -(MARGIN_PERCENT * units) <= 100 * x <= MARGIN_PERCENT * units
    } else {
        (100 - MARGIN_PERCENT) * m2 <= 200 * x <= (100 + MARGIN_PERCENT) * m2
    }
}

/// Whether `p` lies in the band of every axis of `s`.
pub open spec fn is_inlier(p: PositionTime, s: Seq<PositionTime>) -> bool {
    &&& in_band(field(p, Field::Lat), double_median(s, Field::Lat), units_of(Field::Lat))
    &&& in_band(field(p, Field::Lon), double_median(s, Field::Lon), units_of(Field::Lon))
    &&& in_band(field(p, Field::Alt), double_median(s, Field::Alt), units_of(Field::Alt))
}

/// The entries of `c` that are inliers of `s`, in order.
pub open spec fn inliers_among(c: Seq<PositionTime>, s: Seq<PositionTime>) -> Seq<PositionTime>
    decreases c.len(),
{
    if c.len() == 0 {
        c
    } else {
        let r = inliers_among(c.drop_last(), s);
        if is_inlier(c.last(), s) {
            r.push(c.last())
        } else {
            r
        }
    }
}

/// The result of outlier rejection over the observations `s`.
pub open spec fn valid_pos_time_of(s: Seq<PositionTime>) -> Option<PositionTime> {
    if s.len() == 0 {
        None
    } else if s.len() == 1 {
        Some(s[0])
    } else if s.len() == 2 {
        Some(average_of(s))
    } else {
        let v = inliers_among(s, s);
        if v.len() == 0 {
            None
        } else {
            Some(recent_of(v))
        }
    }
}

pub open spec fn as_pair(p: PositionTime) -> ((i64, i64, i64), u64) {
    ((p.lat, p.lon, p.alt), p.last_update)
}

pub open spec fn as_pair_opt(p: Option<PositionTime>) -> Option<((i64, i64, i64), u64)> {
    match p {
        Some(q) => Some(as_pair(q)),
        None => None,
    }
}

/// Twice the median of field `f` over a non-empty list.
fn double_median_exec(v: &Vec<PositionTime>, f: Field) -> (r: i128)
    requires
        v@.len() > 0,
    ensures
        r == double_median(v@, f),
{
    let mut t = v.clone();
    sort_by_field(&mut t, f);
    proof {
        lemma_sorted_by_len(v@, f);
    }
    let n = t.len();
    if n % 2 == 1 {
        2 * t[n / 2].key_of(f)
    } else {
        t[n / 2 - 1].key_of(f) + t[n / 2].key_of(f)
    }
}

fn in_band_exec(x: i128, m2: i128, units: i128) -> (r: bool)
    requires
        -0x1_0000_0000_0000_0000 <= x <= 0x1_0000_0000_0000_0000,
        -0x2_0000_0000_0000_0000 <= m2 <= 0x2_0000_0000_0000_0000,
        0 < units <= DEGREE_UNITS,
    ensures
        r == in_band(x as int, m2 as int, units as int),
{
    assert(MARGIN_PERCENT * units <= 115 * 1_000_000) by (nonlinear_arith)
        requires MARGIN_PERCENT == 115, 0 < units <= 1_000_000;
    assert(-0x3000_0000_0000_0000_0000 <= (100 - MARGIN_PERCENT) * m2 <= 0x3000_0000_0000_0000_0000) by (nonlinear_arith)
        requires MARGIN_PERCENT == 115, -0x2_0000_0000_0000_0000 <= m2 <= 0x2_0000_0000_0000_0000;
    assert(-0x3000_0000_0000_0000_0000 <= (100 + MARGIN_PERCENT) * m2 <= 0x3000_0000_0000_0000_0000) by (nonlinear_arith)
        requires MARGIN_PERCENT == 115, -0x2_0000_0000_0000_0000 <= m2 <= 0x2_0000_0000_0000_0000;
    if m2 == 0 {
        let band = MARGIN_PERCENT * units;
        -band <= 100 * x && 100 * x <= band
    } else {
        (100 - MARGIN_PERCENT) * m2 <= 200 * x && 200 * x <= (100 + MARGIN_PERCENT) * m2
    }
}

/// Rejects outliers among observations given as positions and their times,
/// and returns the most recent observation that remains.
///
/// With no observations, or lists of different lengths, there is no result;
/// one observation is returned as it is; two give their average. From three
/// on, each axis gets a band around its median, and of the observations that
/// lie in all three bands the latest (the first of equal times) is returned.
pub fn return_valid_pos_time(positions: Vec<(i64, i64, i64)>, times: Vec<u64>) -> (r: Option<
    ((i64, i64, i64), u64),
>)
    ensures
        positions@.len() != times@.len() ==> r is None,
        positions@.len() == times@.len() ==> r == as_pair_opt(
            valid_pos_time_of(observations(positions@, times@)),
        ),
{
    if positions.len() != times.len() || positions.len() == 0 {
        return None;
    }
    let ghost s = observations(positions@, times@);
    let n = positions.len();
    let mut obs: Vec<PositionTime> = Vec::new();
    let mut i: usize = 0;
    while i < n
        invariant
            n == positions@.len(),
            n == times@.len(),
            s == observations(positions@, times@),
            0 <= i <= n,
            obs@ == s.take(i as int),
        decreases n - i,
    {
        let (lat, lon, alt) = positions[i];
        obs.push(PositionTime { lat, lon, alt, last_update: times[i] });
        assert(obs@ == s.take(i + 1));
        i = i + 1;
    }
    assert(s.take(n as int) == s);
    match most_recent_inlier(obs) {
        Some(p) => Some(((p.lat, p.lon, p.alt), p.last_update)),
        None => None,
    }
}

/// Outlier rejection over observations (see `return_valid_pos_time`).
pub fn most_recent_inlier(obs: Vec<PositionTime>) -> (r: Option<PositionTime>)
    ensures
        r == valid_pos_time_of(obs@),
{
    let ghost s = obs@;
    let n = obs.len();
    if n == 0 {
        return None;
    }
    if n == 1 {
        return Some(obs[0]);
    }
    if n == 2 {
        return Some(PositionTime::average(obs));
    }
    let m_lat = double_median_exec(&obs, Field::Lat);
    let m_lon = double_median_exec(&obs, Field::Lon);
    let m_alt = double_median_exec(&obs, Field::Alt);
    let mut valid: Vec<PositionTime> = Vec::new();
    let mut k: usize = 0;
    while k < n
        invariant
            n == s.len(),
            obs@ == s,
            n >= 3,
            0 <= k <= n,
            m_lat == double_median(s, Field::Lat),
            m_lon == double_median(s, Field::Lon),
            m_alt == double_median(s, Field::Alt),
            valid@ == inliers_among(s.take(k as int), s),
        decreases n - k,
    {
        let p = obs[k];
        proof {
            lemma_double_median_range(s, Field::Lat);
            lemma_double_median_range(s, Field::Lon);
            lemma_double_median_range(s, Field::Alt);
            let t = s.take(k + 1);
            assert(t.drop_last() == s.take(k as int));
            assert(t.last() == p);
        }
        let ok = in_band_exec(p.lat as i128, m_lat, DEGREE_UNITS) && in_band_exec(
            p.lon as i128,
            m_lon,
            DEGREE_UNITS,
        ) && in_band_exec(p.alt as i128, m_alt, METRE_UNITS);
        if ok {
            valid.push(p);
        }
        k = k + 1;
    }
    assert(s.take(n as int) == s);
    if valid.len() == 0 {
        return None;
    }
    Some(PositionTime::recent(valid))
}

/// The entries kept are entries of `c`.
proof fn lemma_inliers_elements(c: Seq<PositionTime>, s: Seq<PositionTime>)
    ensures
        forall|k: int| 0 <= k < inliers_among(c, s).len() ==> c.contains(#[trigger] inliers_among(c, s)[k]),
    decreases c.len(),
{
    if c.len() > 0 {
        let t = c.drop_last();
        lemma_inliers_elements(t, s);
        let r = inliers_among(c, s);
        let rt = inliers_among(t, s);
        assert forall|k: int| 0 <= k < r.len() implies c.contains(#[trigger] r[k]) by {
            if k < rt.len() {
                assert(r[k] == rt[k]);
                let w = choose|w: int| 0 <= w < t.len() && t[w] == rt[k];
                assert(c[w] == t[w]);
            } else {
                assert(c[c.len() - 1] == r[k]);
            }
        }
    }
}

/// Outlier rejection over observations that all have a time gives one with
/// a time.
pub proof fn lemma_valid_pos_time_has_time(s: Seq<PositionTime>)
    requires
        forall|i: int| 0 <= i < s.len() ==> #[trigger] s[i].last_update >= 1,
    ensures
        valid_pos_time_of(s) matches Some(p) ==> p.last_update >= 1,
{
    if s.len() == 2 {
        lemma_estimate_has_time(s, EstimationType::Average);
    } else if s.len() >= 3 {
        let v = inliers_among(s, s);
        if v.len() > 0 {
            lemma_inliers_elements(s, s);
            lemma_recent_is_first_latest(v);
            let k = latest_index(v);
            assert(s.contains(v[k]));
        }
    }
}

/// A doubled median lies within twice the range of the field's type.
proof fn lemma_double_median_range(s: Seq<PositionTime>, f: Field)
    requires
        s.len() > 0,
        f != Field::Time,
    ensures
        -0x2_0000_0000_0000_0000 <= double_median(s, f) <= 0x2_0000_0000_0000_0000,
{
    lemma_sorted_by_len(s, f);
}

} // verus!
