use crate::sort::{
    insert_by, is_ordered_by, keys_distinct, lemma_ordered_unique, lemma_sorted_by_elements,
    lemma_sorted_by_keeps_ordered, lemma_sorted_by_len, lemma_sorted_by_multiset,
    lemma_sorted_by_ordered, lemma_sorted_by_stable, sort_by_field, sorted_by, with_key, Keyed,
};
use vstd::arithmetic::div_mod::{lemma_fundamental_div_mod, lemma_mod_bound};
use vstd::prelude::*;

verus! {

/// One observation: position and the unix time at which it was taken.
///
/// `lat` and `lon` are in millionths of a degree, `alt` in hundredths of a
/// metre. A `last_update` of zero means that nothing was observed yet.
#[derive(Clone, Copy, Debug, PartialEq, Eq, Structural)]
pub struct PositionTime {
    pub lat: i64,
    pub lon: i64,
    pub alt: i64,
    pub last_update: u64,
}

/// How several concurrent observations are reduced to one.
#[derive(Clone, Copy, Debug, PartialEq, Eq, Structural)]
pub enum EstimationType {
    Average,
    Median,
    Recent,
}

impl EstimationType {
    /// The method named `name`: `Average`, `Median` or `Recent`; any other
    /// name gives the average.
    pub fn from_name(name: &str) -> (r: EstimationType)
        ensures
            name@ == "Median"@ ==> r == EstimationType::Median,
            name@ == "Recent"@ ==> r == EstimationType::Recent,
            name@ != "Median"@ && name@ != "Recent"@ ==> r == EstimationType::Average,
    {
        proof {
            reveal_strlit("Median");
            reveal_strlit("Recent");
            assert("Median"@[0] != "Recent"@[0]);
        }
        if crate::json::str_eq(name, "Median") {
            EstimationType::Median
        } else if crate::json::str_eq(name, "Recent") {
            EstimationType::Recent
        } else {
            EstimationType::Average
        }
    }
}

/// A field of an observation, for statements made of each field alike.
#[derive(Clone, Copy, Debug, PartialEq, Eq, Structural)]
pub enum Field {
    Lat,
    Lon,
    Alt,
    Time,
}

/// The value of field `f` of `p`.
pub open spec fn field(p: PositionTime, f: Field) -> int {
    match f {
        Field::Lat => p.lat as int,
        Field::Lon => p.lon as int,
        Field::Alt => p.alt as int,
        Field::Time => p.last_update as int,
    }
}

impl Keyed for PositionTime {
    open spec fn key(&self, f: Field) -> int {
        field(*self, f)
    }

    fn key_of(&self, f: Field) -> (r: i128) {
        let r = match f {
            Field::Lat => self.lat as i128,
            Field::Lon => self.lon as i128,
            Field::Alt => self.alt as i128,
            Field::Time => self.last_update as i128,
        };
        assert(r == field(*self, f));
        r
    }
}

/// Sum of field `f` over all observations.
pub open spec fn field_sum(s: Seq<PositionTime>, f: Field) -> int
    decreases s.len(),
{
    if s.len() == 0 {
        0
    } else {
        field_sum(s.drop_last(), f) + field(s.last(), f)
    }
}

/// The arithmetic mean of field `f`, rounded down to a whole unit.
pub open spec fn field_mean(s: Seq<PositionTime>, f: Field) -> int {
    field_sum(s, f) / (s.len() as int)
}

/// The observation whose every field is the mean of that field over `s`.
pub open spec fn average_of(s: Seq<PositionTime>) -> PositionTime {
    PositionTime {
        lat: field_mean(s, Field::Lat) as i64,
        lon: field_mean(s, Field::Lon) as i64,
        alt: field_mean(s, Field::Alt) as i64,
        last_update: field_mean(s, Field::Time) as u64,
    }
}

/// Whether `v` is the mean of field `f` over `s` to within one unit:
/// `n * v <= sum < n * (v + 1)`.
pub open spec fn mean_within_unit(s: Seq<PositionTime>, f: Field, v: int) -> bool {
    &&& s.len() * v <= field_sum(s, f)
    &&& field_sum(s, f) < s.len() * (v + 1)
}

proof fn lemma_floor_div_bounds(x: int, n: int)
    requires
        n > 0,
    ensures
        n * (x / n) <= x < n * (x / n + 1),
{
    lemma_fundamental_div_mod(x, n);
    lemma_mod_bound(x, n);
    assert(n * (x / n) <= x < n * (x / n + 1)) by (nonlinear_arith)
        requires n > 0, x == n * (x / n) + x % n, 0 <= x % n < n;
}

/// A sum of values that each lie in `[lo, hi]` lies in `[n * lo, n * hi]`.
proof fn lemma_field_sum_bounds(s: Seq<PositionTime>, f: Field, lo: int, hi: int)
    requires
        forall|i: int| 0 <= i < s.len() ==> lo <= #[trigger] field(s[i], f) <= hi,
    ensures
        s.len() * lo <= field_sum(s, f) <= s.len() * hi,
    decreases s.len(),
{
    if s.len() > 0 {
        let t = s.drop_last();
        assert forall|i: int| 0 <= i < t.len() implies lo <= #[trigger] field(t[i], f) <= hi by {
            assert(t[i] == s[i]);
        }
        lemma_field_sum_bounds(t, f, lo, hi);
        assert(field(s.last(), f) == field(s[s.len() - 1], f));
        assert(s.len() * lo == t.len() * lo + lo) by (nonlinear_arith)
            requires s.len() == t.len() + 1;
        assert(s.len() * hi == t.len() * hi + hi) by (nonlinear_arith)
            requires s.len() == t.len() + 1;
    }
}

/// Extending a prefix by one observation adds that observation's field.
proof fn lemma_field_sum_step(s: Seq<PositionTime>, i: int, f: Field)
    requires
        0 <= i < s.len(),
    ensures
        field_sum(s.take(i + 1), f) == field_sum(s.take(i), f) + field(s[i], f),
{
    assert(s.take(i + 1).drop_last() == s.take(i));
    assert(s.take(i + 1).last() == s[i]);
}

/// The mean of values in `[lo, hi]` lies in `[lo, hi]`.
proof fn lemma_field_mean_bounds(s: Seq<PositionTime>, f: Field, lo: int, hi: int)
    requires
        s.len() > 0,
        forall|i: int| 0 <= i < s.len() ==> lo <= #[trigger] field(s[i], f) <= hi,
    ensures
        lo <= field_mean(s, f) <= hi,
{
    lemma_field_sum_bounds(s, f, lo, hi);
    let n = s.len() as int;
    let t = field_sum(s, f);
    assert(lo <= t / n <= hi) by (nonlinear_arith)
        requires n > 0, n * lo <= t, t <= n * hi;
}

/// `x / d` rounded down, for a quotient known to fit in `i64`.
fn floor_div(x: i128, d: i128) -> (q: i64)
    requires
        d > 0,
        i64::MIN <= x / d <= i64::MAX,
    ensures
        q == x / d,
{
    match x.checked_div_euclid(d) {
        Some(v) => v as i64,
        None => 0,
    }
}

impl PositionTime {
    /// The observation that holds nothing: every field is zero.
    pub open spec fn new_spec() -> PositionTime {
        PositionTime { lat: 0, lon: 0, alt: 0, last_update: 0 }
    }

    /// An observation that holds nothing yet: every field is zero.
    pub fn new() -> (r: PositionTime)
        ensures
            r == PositionTime::new_spec(),
    {
        PositionTime { lat: 0, lon: 0, alt: 0, last_update: 0 }
    }

    pub fn new_with_value(lat: i64, lon: i64, alt: i64, last_update: u64) -> (r: PositionTime)
        ensures
            r == (PositionTime { lat, lon, alt, last_update }),
    {
        PositionTime { lat, lon, alt, last_update }
    }

    /// Replaces every field.
    pub fn update(&mut self, lat: i64, lon: i64, alt: i64, last_update: u64)
        ensures
            *final(self) == (PositionTime { lat, lon, alt, last_update }),
    {
        self.lat = lat;
        self.lon = lon;
        self.alt = alt;
        self.last_update = last_update;
    }

    /// Per-field arithmetic mean of a non-empty list, each rounded down.
    pub fn average(pos_time: Vec<PositionTime>) -> (r: PositionTime)
        requires
            pos_time@.len() > 0,
        ensures
            r == average_of(pos_time@),
            r.lat as int == field_mean(pos_time@, Field::Lat),
            r.lon as int == field_mean(pos_time@, Field::Lon),
            r.alt as int == field_mean(pos_time@, Field::Alt),
            r.last_update as int == field_mean(pos_time@, Field::Time),
            forall|f: Field| #[trigger] mean_within_unit(pos_time@, f, field(r, f)),
    {
        let ghost s = pos_time@;
        let n = pos_time.len();
        let mut lat: i128 = 0;
        let mut lon: i128 = 0;
        let mut alt: i128 = 0;
        let mut time: u128 = 0;
        let mut i: usize = 0;
        while i < n
            invariant
                n == s.len(),
                s == pos_time@,
                0 <= i <= n,
                lat == field_sum(s.take(i as int), Field::Lat),
                lon == field_sum(s.take(i as int), Field::Lon),
                alt == field_sum(s.take(i as int), Field::Alt),
                time == field_sum(s.take(i as int), Field::Time),
                i * i64::MIN <= lat <= i * i64::MAX,
                i * i64::MIN <= lon <= i * i64::MAX,
                i * i64::MIN <= alt <= i * i64::MAX,
                0 <= time <= i * u64::MAX,
            decreases n - i,
        {
            let p = pos_time[i];
            proof {
                lemma_field_sum_step(s, i as int, Field::Lat);
                lemma_field_sum_step(s, i as int, Field::Lon);
                lemma_field_sum_step(s, i as int, Field::Alt);
                lemma_field_sum_step(s, i as int, Field::Time);
            }
            assert((i + 1) * i64::MIN == i * i64::MIN + i64::MIN) by (nonlinear_arith);
            assert((i + 1) * i64::MAX == i * i64::MAX + i64::MAX) by (nonlinear_arith);
            assert((i + 1) * u64::MAX == i * u64::MAX + u64::MAX) by (nonlinear_arith);
            assert(i * i64::MAX <= usize::MAX * i64::MAX) by (nonlinear_arith)
                requires i <= usize::MAX;
            assert(i * i64::MIN >= usize::MAX * i64::MIN) by (nonlinear_arith)
                requires i <= usize::MAX;
            assert(i * u64::MAX <= usize::MAX * u64::MAX) by (nonlinear_arith)
                requires i <= usize::MAX;
            lat = lat + p.lat as i128;
            lon = lon + p.lon as i128;
            alt = alt + p.alt as i128;
            time = time + p.last_update as u128;
            i = i + 1;
        }
        assert(s.take(n as int) == s);
        proof {
            lemma_field_mean_bounds(s, Field::Lat, i64::MIN as int, i64::MAX as int);
            lemma_field_mean_bounds(s, Field::Lon, i64::MIN as int, i64::MAX as int);
            lemma_field_mean_bounds(s, Field::Alt, i64::MIN as int, i64::MAX as int);
            lemma_field_mean_bounds(s, Field::Time, 0, u64::MAX as int);
        }
        let d = n as i128;
        proof {
            assert forall|f: Field| #[trigger] mean_within_unit(s, f, field_mean(s, f)) by {
                lemma_floor_div_bounds(field_sum(s, f), n as int);
            }
        }
        let r = PositionTime {
            lat: floor_div(lat, d),
            lon: floor_div(lon, d),
            alt: floor_div(alt, d),
            last_update: (time / (n as u128)) as u64,
        };
        r
    }

    /// The reduction of `data` by `method`, or `None` for an empty list.
    pub fn return_valid_pos_time(data: Vec<PositionTime>, method: EstimationType) -> (r: Option<
        PositionTime,
    >)
        ensures
            data@.len() == 0 ==> r is None,
            data@.len() > 0 ==> r == Some(estimate_of(data@, method)),
    {
        if data.len() == 0 {
            return None;
        }
        match method {
            EstimationType::Average => Some(Self::average(data)),
            EstimationType::Median => Some(Self::median(data)),
            EstimationType::Recent => Some(Self::recent(data)),
        }
    }

    /// Median by time: sorted by time (stably), the middle observation of an
    /// odd count, or the average of the two middle ones of an even count.
    pub fn median(pos_time: Vec<PositionTime>) -> (r: PositionTime)
        requires
            pos_time@.len() > 0,
        ensures
            r == median_of(pos_time@),
    {
        let mut sorted = pos_time;
        Self::quick_sort(&mut sorted);
        let len = sorted.len();
        proof {
            lemma_sorted_by_len(pos_time@, Field::Time);
        }
        if len % 2 == 1 {
            sorted[len / 2]
        } else {
            let pair = vec![sorted[len / 2 - 1], sorted[len / 2]];
            Self::average(pair)
        }
    }

    /// The observation with the latest time; of several with that time, the
    /// first.
    pub fn recent(pos_time: Vec<PositionTime>) -> (r: PositionTime)
        requires
            pos_time@.len() > 0,
        ensures
            r == recent_of(pos_time@),
    {
        let ghost s = pos_time@;
        let n = pos_time.len();
        let mut best: usize = 0;
        let mut i: usize = 1;
        while i < n
            invariant
                s == pos_time@,
                n == s.len(),
                1 <= i <= n,
                best < i,
                best == latest_index(s.take(i as int)),
            decreases n - i,
        {
            proof {
                let t = s.take(i + 1);
                assert(t.drop_last() == s.take(i as int));
                assert(t.last() == s[i as int]);
                assert(t[best as int] == s[best as int]);
            }
            if pos_time[i].last_update > pos_time[best].last_update {
                best = i;
            }
            i = i + 1;
        }
        assert(s.take(n as int) == s);
        pos_time[best]
    }

    /// Sorts by time, ascending, keeping every observation; observations
    /// with equal times keep their order.
    pub fn quick_sort(pos_time: &mut Vec<PositionTime>)
        ensures
            final(pos_time)@ == sorted_by_time(old(pos_time)@),
            is_ordered_by(final(pos_time)@, Field::Time),
            final(pos_time)@.to_multiset() == old(pos_time)@.to_multiset(),
            forall|t: int| #[trigger] with_key(final(pos_time)@, Field::Time, t) == with_key(
                old(pos_time)@,
                Field::Time,
                t,
            ),
    {
        sort_by_field(pos_time, Field::Time);
        proof {
            assert forall|t: int| #[trigger] with_key(pos_time@, Field::Time, t) == with_key(
                old(pos_time)@,
                Field::Time,
                t,
            ) by {
                lemma_sorted_by_stable(old(pos_time)@, Field::Time, t);
            }
            lemma_sorted_by_multiset(old(pos_time)@, Field::Time);
            lemma_sorted_by_ordered(old(pos_time)@, Field::Time);
            lemma_sorted_by_len(old(pos_time)@, Field::Time);
        }
    }
}

/// `s` sorted by time; equal times keep their order.
pub open spec fn sorted_by_time(s: Seq<PositionTime>) -> Seq<PositionTime> {
    sorted_by(s, Field::Time)
}

/// Median by time, as `median` computes it.
pub open spec fn median_of(s: Seq<PositionTime>) -> PositionTime {
    let t = sorted_by_time(s);
    let n = t.len() as int;
    if n % 2 == 1 {
        t[n / 2]
    } else {
        average_of(seq![t[n / 2 - 1], t[n / 2]])
    }
}

/// Index of the first observation whose time is the latest in `s`.
pub open spec fn latest_index(s: Seq<PositionTime>) -> int
    decreases s.len(),
{
    if s.len() <= 1 {
        0
    } else {
        let k = latest_index(s.drop_last());
        if s.last().last_update > s[k].last_update {
            s.len() - 1
        } else {
            k
        }
    }
}

/// The first observation with the latest time.
pub open spec fn recent_of(s: Seq<PositionTime>) -> PositionTime {
    s[latest_index(s)]
}

/// The reduction of a non-empty list by `method`.
pub open spec fn estimate_of(s: Seq<PositionTime>, method: EstimationType) -> PositionTime {
    match method {
        EstimationType::Average => average_of(s),
        EstimationType::Median => median_of(s),
        EstimationType::Recent => recent_of(s),
    }
}

/// The most recent observation is one whose time no other exceeds, and every
/// observation before it is strictly earlier: of equal latest times the first
/// wins.
pub proof fn lemma_recent_is_first_latest(s: Seq<PositionTime>)
    requires
        s.len() > 0,
    ensures
        0 <= latest_index(s) < s.len(),
        recent_of(s) == s[latest_index(s)],
        forall|j: int| 0 <= j < s.len() ==> #[trigger] s[j].last_update <= recent_of(s).last_update,
        forall|j: int| 0 <= j < latest_index(s) ==> #[trigger] s[j].last_update < recent_of(s).last_update,
    decreases s.len(),
{
    if s.len() > 1 {
        let t = s.drop_last();
        lemma_recent_is_first_latest(t);
        let k = latest_index(t);
        assert(t[k] == s[k]);
        assert(s.last() == s[s.len() - 1]);
        let i = latest_index(s);
        assert(i == if s.last().last_update > s[k].last_update { s.len() - 1 } else { k });
        assert forall|j: int| 0 <= j < s.len() implies #[trigger] s[j].last_update <= recent_of(s).last_update by {
            if j < t.len() {
                assert(t[j] == s[j]);
            }
        }
        assert forall|j: int| 0 <= j < latest_index(s) implies #[trigger] s[j].last_update < recent_of(s).last_update by {
            if j < t.len() {
                assert(t[j] == s[j]);
            }
        }
    }
}

/// The median of one observation is that observation; of two, their average
/// in either order; of three in time order, the middle one.
pub proof fn lemma_median_small_lists(a: PositionTime, b: PositionTime, c: PositionTime)
    ensures
        median_of(seq![a]) == a,
        median_of(seq![a, b]) == average_of(seq![a, b]),
        a.last_update <= b.last_update <= c.last_update ==> median_of(seq![a, b, c]) == b,
{
    assert(is_ordered_by(seq![a], Field::Time));
    lemma_sorted_by_keeps_ordered(seq![a], Field::Time);
    if a.last_update <= b.last_update {
        assert(is_ordered_by(seq![a, b], Field::Time));
        lemma_sorted_by_keeps_ordered(seq![a, b], Field::Time);
    } else {
        let s = seq![a, b];
        assert(s.drop_last() == seq![a]);
        assert(seq![a].drop_last() == Seq::<PositionTime>::empty());
        assert(sorted_by(seq![a], Field::Time) == seq![a]);
        assert(sorted_by_time(s) == insert_by(seq![a], b, Field::Time));
        assert(insert_by(Seq::<PositionTime>::empty(), b, Field::Time) == seq![b]);
        assert(seq![a].last() == a);
        assert(insert_by(seq![a], b, Field::Time) == seq![b].push(a));
        assert(seq![b].push(a) == seq![b, a]);
        lemma_average_of_swapped(a, b);
    }
    if a.last_update <= b.last_update <= c.last_update {
        assert(is_ordered_by(seq![a, b, c], Field::Time));
        lemma_sorted_by_keeps_ordered(seq![a, b, c], Field::Time);
    }
}

proof fn lemma_average_of_swapped(a: PositionTime, b: PositionTime)
    ensures
        average_of(seq![b, a]) == average_of(seq![a, b]),
{
    lemma_field_sum_pair(a, b, Field::Lat);
    lemma_field_sum_pair(b, a, Field::Lat);
    lemma_field_sum_pair(a, b, Field::Lon);
    lemma_field_sum_pair(b, a, Field::Lon);
    lemma_field_sum_pair(a, b, Field::Alt);
    lemma_field_sum_pair(b, a, Field::Alt);
    lemma_field_sum_pair(a, b, Field::Time);
    lemma_field_sum_pair(b, a, Field::Time);
    assert(field_sum(seq![b, a], Field::Lat) == field_sum(seq![a, b], Field::Lat));
    assert(field_sum(seq![b, a], Field::Lon) == field_sum(seq![a, b], Field::Lon));
    assert(field_sum(seq![b, a], Field::Alt) == field_sum(seq![a, b], Field::Alt));
    assert(field_sum(seq![b, a], Field::Time) == field_sum(seq![a, b], Field::Time));
}

proof fn lemma_field_sum_pair(a: PositionTime, b: PositionTime, f: Field)
    ensures
        field_sum(seq![a, b], f) == field(a, f) + field(b, f),
{
    let e = Seq::<PositionTime>::empty();
    assert(seq![a, b].drop_last() == seq![a]);
    assert(seq![a, b].last() == b);
    assert(seq![a].drop_last() == e);
    assert(seq![a].last() == a);
    assert(field_sum(e, f) == 0);
    assert(field_sum(seq![a], f) == field(a, f));
}

/// A reduction of observations that all have a time has a time too.
pub proof fn lemma_estimate_has_time(s: Seq<PositionTime>, method: EstimationType)
    requires
        s.len() > 0,
        forall|i: int| 0 <= i < s.len() ==> #[trigger] s[i].last_update >= 1,
    ensures
        estimate_of(s, method).last_update >= 1,
{
    match method {
        EstimationType::Average => {
            lemma_field_mean_bounds(s, Field::Time, 1, u64::MAX as int);
        },
        EstimationType::Median => {
            let t = sorted_by(s, Field::Time);
            let n = t.len() as int;
            lemma_sorted_by_len(s, Field::Time);
            lemma_sorted_by_elements(s, Field::Time);
            assert forall|k: int| 0 <= k < n implies #[trigger] t[k].last_update >= 1 by {
                assert(s.contains(t[k]));
            }
            if n % 2 == 0 {
                let pair = seq![t[n / 2 - 1], t[n / 2]];
                assert(pair[0] == t[n / 2 - 1] && pair[1] == t[n / 2]);
                lemma_field_mean_bounds(pair, Field::Time, 1, u64::MAX as int);
            }
        },
        EstimationType::Recent => {
            lemma_recent_is_first_latest(s);
        },
    }
}

/// When all times differ, the median does not depend on the order in which
/// the observations come.
pub proof fn lemma_median_order_free(s1: Seq<PositionTime>, s2: Seq<PositionTime>)
    requires
        s1.to_multiset() == s2.to_multiset(),
        forall|i: int, j: int| 0 <= i < j < s1.len() ==> s1[i].last_update != s1[j].last_update,
    ensures
        median_of(s1) == median_of(s2),
{
    broadcast use vstd::seq_lib::to_multiset_contains;

    let t1 = sorted_by(s1, Field::Time);
    let t2 = sorted_by(s2, Field::Time);
    lemma_sorted_by_ordered(s1, Field::Time);
    lemma_sorted_by_ordered(s2, Field::Time);
    lemma_sorted_by_multiset(s1, Field::Time);
    lemma_sorted_by_multiset(s2, Field::Time);
    assert(keys_distinct(t1.to_multiset(), Field::Time)) by {
        assert forall|x: PositionTime, y: PositionTime|
            t1.to_multiset().count(x) > 0 && t1.to_multiset().count(y) > 0 && x.key(Field::Time) == y.key(
                Field::Time,
            ) implies x == y by {
            assert(s1.to_multiset().count(x) > 0 && s1.to_multiset().count(y) > 0);
            assert(s1.contains(x) && s1.contains(y));
            let i = choose|i: int| 0 <= i < s1.len() && s1[i] == x;
            let j = choose|j: int| 0 <= j < s1.len() && s1[j] == y;
            if i < j {
                assert(s1[i].last_update != s1[j].last_update);
            } else if j < i {
                assert(s1[j].last_update != s1[i].last_update);
            }
        }
    }
    lemma_ordered_unique(t1, t2, Field::Time);
}

} // verus!
