use crate::aprs::{aprs_applied, aprs_description, aprs_found, aprs_ok, aprs_report, aprs_url, APRS};
use crate::fetch::last_item;
use crate::json::member;
use crate::fetch::FetchError;
use crate::iridium::{flight_url_of, flights_url, iridium_report, last_flight_uid, Iridium};
use crate::json::JsonValue;
use crate::log::LogRecord;
use crate::outlier::{lemma_valid_pos_time_has_time, most_recent_inlier, valid_pos_time_of};
use crate::position_time::{estimate_of, lemma_estimate_has_time, EstimationType, PositionTime};
use crate::sondehub::{sondehub_report, SondeHub};
use crate::tracking_type::TrackingType;
use vstd::prelude::*;

verus! {

/// One registered feed.
pub enum Source {
    APRS(APRS),
    Iridium(Iridium),
    SondeHub(SondeHub),
}

/// What to do after handing a feed an answer.
pub enum FetchStep {
    /// Fetch this URL and hand its answer back as a follow-up.
    Follow(String),
    /// The feed is done for this cycle.
    Done(Result<(), FetchError>),
}

impl Source {
    pub open spec fn kind_spec(&self) -> TrackingType {
        match self {
            Source::APRS(_) => TrackingType::APRS,
            Source::Iridium(_) => TrackingType::Iridium,
            Source::SondeHub(_) => TrackingType::SondeHub,
        }
    }

    /// The feed's last report; its time is zero when there was none.
    pub open spec fn latest_spec(&self) -> PositionTime {
        match self {
            Source::APRS(a) => a.position_time,
            Source::Iridium(i) => i.position_time,
            Source::SondeHub(s) => s.position_time,
        }
    }

    /// Whether the feed has ever given a report.
    pub open spec fn is_valid_spec(&self) -> bool {
        self.latest_spec().last_update != 0
    }

    pub fn kind(&self) -> (r: TrackingType)
        ensures
            r == self.kind_spec(),
    {
        match self {
            Source::APRS(_) => TrackingType::APRS,
            Source::Iridium(_) => TrackingType::Iridium,
            Source::SondeHub(_) => TrackingType::SondeHub,
        }
    }

    pub fn latest(&self) -> (r: PositionTime)
        ensures
            r == self.latest_spec(),
    {
        match self {
            Source::APRS(a) => a.position_time,
            Source::Iridium(i) => i.position_time,
            Source::SondeHub(s) => s.position_time,
        }
    }

    pub fn is_valid(&self) -> (r: bool)
        ensures
            r == self.is_valid_spec(),
    {
        self.latest().last_update != 0
    }

    /// The first URL to fetch in a cycle.
    pub fn request_url(&self) -> (r: String)
        ensures
            r@ == source_url(*self),
    {
        match self {
            Source::APRS(a) => a.request_url(),
            Source::Iridium(i) => i.request_url(),
            Source::SondeHub(s) => s.request_url(),
        }
    }

    /// Hands the feed an answer: to its first URL, or, with `follow_up`, to
    /// the URL of a `Follow` step. An Iridium feed first gets the list of the
    /// modem's flights and asks to follow to the last flight's table; every
    /// other answer ends the feed's part of the cycle. Only a success changes
    /// the feed. The error of a failure is the one that the feed's
    /// `update_position` or `flight_url` gives.
    pub fn on_answer(&mut self, body: &JsonValue, follow_up: bool) -> (r: FetchStep)
        ensures
            final(self).kind_spec() == old(self).kind_spec(),
            !(r matches FetchStep::Done(Ok(_))) ==> *final(self) == *old(self),
            (r matches FetchStep::Done(Ok(_))) == answer_succeeds(*old(self), *body, follow_up),
            r matches FetchStep::Done(Err(e)) ==> answer_error(*old(self), *body, follow_up, e),
            r matches FetchStep::Done(Ok(_)) ==> answer_applied(*old(self), *final(self), *body),
            r is Follow ==> old(self).kind_spec() == TrackingType::Iridium && !follow_up,
            match *old(self) {
                Source::Iridium(i) => !follow_up ==> match last_flight_uid(*body) {
                    Some(uid) => r matches FetchStep::Follow(u) && u@ == flight_url_of(i, uid),
                    None => r matches FetchStep::Done(Err(_)),
                },
                _ => true,
            },
    {
        match self {
            Source::APRS(a) => FetchStep::Done(a.update_position(body)),
            Source::Iridium(i) => {
                if follow_up {
                    FetchStep::Done(i.update_position(body))
                } else {
                    match i.flight_url(body) {
                        Ok(u) => FetchStep::Follow(u),
                        Err(e) => FetchStep::Done(Err(e)),
                    }
                }
            },
            Source::SondeHub(s) => FetchStep::Done(s.update_position(body)),
        }
    }
}

/// The first URL that a feed fetches in a cycle.
pub open spec fn source_url(s: Source) -> Seq<char> {
    match s {
        Source::APRS(a) => aprs_url(a),
        Source::Iridium(i) => flights_url(i),
        Source::SondeHub(h) => h.base_url@,
    }
}

/// Whether an answer gives the feed a report.
pub open spec fn answer_succeeds(s: Source, body: JsonValue, follow_up: bool) -> bool {
    match s {
        Source::APRS(_) => aprs_report(body) is Some,
        Source::Iridium(_) => follow_up && iridium_report(body) is Some,
        Source::SondeHub(h) => sondehub_report(h.call_sign@, body) is Some,
    }
}

/// Whether `e` is the error that the feed `s` gives for an answer without a
/// report: the one its `update_position` (or, for the first answer of an
/// Iridium feed, its `flight_url`) states.
pub open spec fn answer_error(s: Source, body: JsonValue, follow_up: bool, e: FetchError) -> bool {
    match s {
        Source::APRS(_) => if !aprs_ok(body) {
            e matches FetchError::Api(d) && d@ == aprs_description(body)
        } else if aprs_found(body) == 0 {
            e == FetchError::NoData
        } else {
            e == FetchError::Malformed
        },
        Source::Iridium(_) => if follow_up {
            if last_item(member(body, "data"@)) is None {
                e == FetchError::NoData
            } else {
                e == FetchError::Malformed
            }
        } else {
            if body matches JsonValue::Array(items) && items@.len() == 0 {
                e == FetchError::NoData
            } else {
                e == FetchError::Malformed
            }
        },
        Source::SondeHub(h) => if member(body, h.call_sign@) matches Some(JsonValue::Object(_)) {
            e == FetchError::Malformed
        } else {
            e == FetchError::NoData
        },
    }
}

/// Whether `t` is the feed `s` after taking the report in `body`.
pub open spec fn answer_applied(s: Source, t: Source, body: JsonValue) -> bool {
    match (s, t) {
        (Source::APRS(a), Source::APRS(b)) => match aprs_report(body) {
            Some(e) => aprs_applied(a, b, e),
            None => false,
        },
        (Source::Iridium(i), Source::Iridium(j)) => match iridium_report(body) {
            Some(rd) => {
                &&& j.base_url == i.base_url
                &&& j.modem == i.modem
                &&& j.position_time == rd.position_time
                &&& j.vertical_velocity == rd.vertical_velocity
                &&& j.ground_speed == rd.ground_speed
            },
            None => false,
        },
        (Source::SondeHub(h), Source::SondeHub(k)) => match sondehub_report(h.call_sign@, body) {
            Some(p) => k == (SondeHub { position_time: p, ..h }),
            None => false,
        },
        _ => false,
    }
}

/// The reports of the feeds that have one, in the order of the feeds.
pub open spec fn candidates(srcs: Seq<Source>) -> Seq<PositionTime>
    decreases srcs.len(),
{
    if srcs.len() == 0 {
        Seq::empty()
    } else {
        let r = candidates(srcs.drop_last());
        if srcs.last().is_valid_spec() {
            r.push(srcs.last().latest_spec())
        } else {
            r
        }
    }
}

/// The log records of the reports that differ from what was last logged
/// for their feed, in the order of the feeds.
pub open spec fn fresh_records(srcs: Seq<Source>, logged: Seq<PositionTime>) -> Seq<LogRecord>
    decreases srcs.len(),
{
    if srcs.len() == 0 {
        Seq::empty()
    } else {
        let r = fresh_records(srcs.drop_last(), logged);
        let s = srcs.last();
        if s.is_valid_spec() && s.latest_spec() != logged[srcs.len() - 1] {
            r.push(LogRecord { kind: s.kind_spec(), pos_time: s.latest_spec() })
        } else {
            r
        }
    }
}

/// What was last logged for each feed after a cycle: its report, where it
/// has one.
pub open spec fn logged_after(srcs: Seq<Source>, logged: Seq<PositionTime>) -> Seq<PositionTime> {
    Seq::new(
        logged.len(),
        |i: int|
            if i < srcs.len() && srcs[i].is_valid_spec() {
                srcs[i].latest_spec()
            } else {
                logged[i]
            },
    )
}

/// The canonical position after a cycle: the reduction of the reports by
/// `method`, or, with `reject_outliers`, the most recent report that
/// outlier rejection keeps; the previous position when no feed has a report
/// or rejection keeps none.
pub open spec fn fused_after(
    srcs: Seq<Source>,
    previous: PositionTime,
    method: EstimationType,
    reject_outliers: bool,
) -> PositionTime {
    let c = candidates(srcs);
    if c.len() == 0 {
        previous
    } else if reject_outliers {
        match valid_pos_time_of(c) {
            Some(p) => p,
            None => previous,
        }
    } else {
        estimate_of(c, method)
    }
}

/// The errors among the outcomes, in order.
pub open spec fn errors_of(outcomes: Seq<Result<(), FetchError>>) -> Seq<FetchError>
    decreases outcomes.len(),
{
    if outcomes.len() == 0 {
        Seq::empty()
    } else {
        let r = errors_of(outcomes.drop_last());
        match outcomes.last() {
            Err(e) => r.push(e),
            Ok(_) => r,
        }
    }
}

/// What a poll cycle hands back: the feeds' errors and the records to append
/// to the log.
pub struct CycleReport {
    pub errors: Vec<FetchError>,
    pub records: Vec<LogRecord>,
}

/// The feeds, the canonical position fused from their reports, and what was
/// last logged for each feed.
pub struct Tracker {
    pub active: bool,
    pub sources: Vec<Source>,
    pub logged: Vec<PositionTime>,
    pub position_time: PositionTime,
    pub method: EstimationType,
    pub reject_outliers: bool,
}

impl Tracker {
    /// One entry of `logged` for each feed.
    pub open spec fn wf(&self) -> bool {
        self.logged@.len() == self.sources@.len()
    }

    /// A tracker with no feeds, no position, the median as its method and
    /// no outlier rejection.
    pub fn new() -> (r: Tracker)
        ensures
            r.wf(),
            !r.active,
            r.sources@.len() == 0,
            r.position_time == PositionTime::new_spec(),
            r.method == EstimationType::Median,
            !r.reject_outliers,
    {
        Tracker {
            active: false,
            sources: Vec::new(),
            logged: Vec::new(),
            position_time: PositionTime::new(),
            method: EstimationType::Median,
            reject_outliers: false,
        }
    }

    fn add_source(&mut self, s: Source) -> (first: bool)
        requires
            old(self).wf(),
        ensures
            final(self).wf(),
            first == !old(self).active,
            final(self).active,
            final(self).sources@ == old(self).sources@.push(s),
            final(self).logged@ == old(self).logged@.push(PositionTime::new_spec()),
            final(self).position_time == old(self).position_time,
            final(self).method == old(self).method,
    {
        self.sources.push(s);
        self.logged.push(PositionTime::new());
        let first = !self.active;
        self.active = true;
        first
    }

    /// Registers an APRS feed. Returns whether it is the first feed, whose
    /// registration opens the log.
    pub fn new_aprs(&mut self, api_key: &str, call_sign: &str) -> (first: bool)
        requires
            old(self).wf(),
        ensures
            final(self).wf(),
            first == !old(self).active,
            final(self).active,
            final(self).sources@.len() == old(self).sources@.len() + 1,
            final(self).sources@.drop_last() == old(self).sources@,
            final(self).sources@.last() matches Source::APRS(a) && a.call_sign@ == call_sign@
                && a.api_key@ == api_key@ && a.position_time == PositionTime::new_spec(),
            final(self).position_time == old(self).position_time,
            final(self).method == old(self).method,
    {
        let r = self.add_source(Source::APRS(APRS::new(api_key, call_sign)));
        assert(self.sources@.drop_last() == old(self).sources@);
        r
    }

    /// Registers a satellite-modem feed. Returns whether it is the first
    /// feed, whose registration opens the log.
    pub fn new_iridium(&mut self, base_url: &str, modem: &str) -> (first: bool)
        requires
            old(self).wf(),
        ensures
            final(self).wf(),
            first == !old(self).active,
            final(self).active,
            final(self).sources@.len() == old(self).sources@.len() + 1,
            final(self).sources@.drop_last() == old(self).sources@,
            final(self).sources@.last() matches Source::Iridium(i) && i.base_url@ == base_url@
                && i.modem@ == modem@ && i.position_time == PositionTime::new_spec(),
            final(self).position_time == old(self).position_time,
            final(self).method == old(self).method,
    {
        let r = self.add_source(Source::Iridium(Iridium::new(base_url, modem)));
        assert(self.sources@.drop_last() == old(self).sources@);
        r
    }

    /// Registers an aggregator feed. Returns whether it is the first feed,
    /// whose registration opens the log.
    pub fn new_sondehub(&mut self, call_sign: &str) -> (first: bool)
        requires
            old(self).wf(),
        ensures
            final(self).wf(),
            first == !old(self).active,
            final(self).active,
            final(self).sources@.len() == old(self).sources@.len() + 1,
            final(self).sources@.drop_last() == old(self).sources@,
            final(self).sources@.last() matches Source::SondeHub(s) && s.call_sign@ == call_sign@
                && s.position_time == PositionTime::new_spec(),
            final(self).position_time == old(self).position_time,
            final(self).method == old(self).method,
    {
        let r = self.add_source(Source::SondeHub(SondeHub::new(call_sign)));
        assert(self.sources@.drop_last() == old(self).sources@);
        r
    }

    /// The number of feeds.
    pub fn source_count(&self) -> (r: usize)
        ensures
            r == self.sources@.len(),
    {
        self.sources.len()
    }

    /// The first URL to fetch for feed `i` in a cycle.
    pub fn request_url(&self, i: usize) -> (r: String)
        requires
            i < self.sources@.len(),
        ensures
            r@ == source_url(self.sources@[i as int]),
    {
        self.sources[i].request_url()
    }

    /// Hands feed `i` an answer (see `Source::on_answer`). Nothing else
    /// changes, and a failure changes nothing.
    pub fn accept_response(&mut self, i: usize, body: &JsonValue, follow_up: bool) -> (r: FetchStep)
        requires
            old(self).wf(),
            i < old(self).sources@.len(),
        ensures
            final(self).wf(),
            final(self).sources@.len() == old(self).sources@.len(),
            forall|j: int| 0 <= j < old(self).sources@.len() && j != i ==> final(self).sources@[j]
                == old(self).sources@[j],
            final(self).sources@[i as int].kind_spec() == old(self).sources@[i as int].kind_spec(),
            (r matches FetchStep::Done(Ok(_))) == answer_succeeds(old(self).sources@[i as int], *body, follow_up),
            r matches FetchStep::Done(Err(e)) ==> answer_error(old(self).sources@[i as int], *body, follow_up, e),
            r matches FetchStep::Done(Ok(_)) ==> answer_applied(
                old(self).sources@[i as int],
                final(self).sources@[i as int],
                *body,
            ),
            match old(self).sources@[i as int] {
                Source::Iridium(it) => !follow_up ==> match last_flight_uid(*body) {
                    Some(uid) => r matches FetchStep::Follow(u) && u@ == flight_url_of(it, uid),
                    None => r matches FetchStep::Done(Err(_)),
                },
                _ => !(r is Follow),
            },
            !(r matches FetchStep::Done(Ok(_))) ==> final(self).sources@ == old(self).sources@,
            final(self).logged == old(self).logged,
            final(self).position_time == old(self).position_time,
            final(self).method == old(self).method,
            final(self).active == old(self).active,
    {
        let r = self.sources[i].on_answer(body, follow_up);
        proof {
            if !(r matches FetchStep::Done(Ok(_))) {
                assert(self.sources@ == old(self).sources@);
            }
        }
        r
    }

    /// Ends a poll cycle whose fetches gave `outcomes`, one per feed tried.
    ///
    /// Returns the errors among the outcomes, in order, and the records to
    /// append to the log: the report of each feed that has one and that
    /// differs from what was last logged for it. The canonical position
    /// becomes the reduction of all the feeds' reports by the method, or
    /// stays as it was when no feed has a report. The outcomes decide the
    /// error list alone: a failed feed keeps its previous report, and every
    /// report counts.
    pub fn update(&mut self, outcomes: Vec<Result<(), FetchError>>) -> (r: CycleReport)
        requires
            old(self).wf(),
        ensures
            final(self).wf(),
            r.errors@ == errors_of(outcomes@),
            r.records@ == fresh_records(old(self).sources@, old(self).logged@),
            final(self).logged@ == logged_after(old(self).sources@, old(self).logged@),
            final(self).position_time == fused_after(
                old(self).sources@,
                old(self).position_time,
                old(self).method,
                old(self).reject_outliers,
            ),
            final(self).reject_outliers == old(self).reject_outliers,
            final(self).sources == old(self).sources,
            final(self).method == old(self).method,
            final(self).active == old(self).active,
            old(self).position_time.last_update != 0 ==> final(self).position_time.last_update != 0,
            candidates(old(self).sources@).len() > 0 && !old(self).reject_outliers
                ==> final(self).position_time.last_update != 0,
    {
        let mut errors: Vec<FetchError> = Vec::new();
        let mut k: usize = 0;
        let mut rest = outcomes;
        let ghost os = rest@;
        let total = rest.len();
        while rest.len() > 0
            invariant
                total == os.len(),
                k <= os.len(),
                rest@ == os.skip(k as int),
                errors@ == errors_of(os.take(k as int)),
            decreases rest@.len(),
        {
            let o = rest.remove(0);
            proof {
                assert(o == os[k as int]);
                assert(os.take(k + 1).drop_last() == os.take(k as int));
                assert(os.take(k + 1).last() == os[k as int]);
                assert(rest@ == os.skip(k + 1));
            }
            match o {
                Err(e) => errors.push(e),
                Ok(_) => {},
            }
            k = k + 1;
        }
        assert(os.take(os.len() as int) == os);
        let ghost srcs = self.sources@;
        let ghost logged0 = self.logged@;
        let n = self.sources.len();
        let mut cands: Vec<PositionTime> = Vec::new();
        let mut records: Vec<LogRecord> = Vec::new();
        let mut i: usize = 0;
        while i < n
            invariant
                n == srcs.len(),
                self.sources@ == srcs,
                logged0.len() == n,
                self.logged@.len() == n,
                i <= n,
                cands@ == candidates(srcs.take(i as int)),
                records@ == fresh_records(srcs.take(i as int), logged0),
                forall|j: int| 0 <= j < i ==> self.logged@[j] == logged_after(srcs, logged0)[j],
                forall|j: int| i <= j < n ==> self.logged@[j] == logged0[j],
                self.position_time == old(self).position_time,
                self.method == old(self).method,
                self.reject_outliers == old(self).reject_outliers,
                self.active == old(self).active,
                self.sources == old(self).sources,
                srcs == old(self).sources@,
                logged0 == old(self).logged@,
            decreases n - i,
        {
            let s = &self.sources[i];
            proof {
                let t = srcs.take(i + 1);
                assert(t.drop_last() == srcs.take(i as int));
                assert(t.last() == srcs[i as int]);
                assert(t.len() - 1 == i);
            }
            if s.is_valid() {
                let p = s.latest();
                let kind = s.kind();
                cands.push(p);
                if p != self.logged[i] {
                    records.push(LogRecord { kind, pos_time: p });
                }
                self.logged.set(i, p);
            }
            i = i + 1;
        }
        assert(srcs.take(n as int) == srcs);
        assert(self.logged@ == logged_after(srcs, logged0));
        proof {
            lemma_candidates(srcs);
        }
        if cands.len() > 0 {
            if self.reject_outliers {
                proof {
                    lemma_valid_pos_time_has_time(cands@);
                }
                match most_recent_inlier(cands) {
                    Some(p) => {
                        self.position_time = p;
                    },
                    None => {},
                }
            } else {
                let m = self.method;
                proof {
                    lemma_estimate_has_time(cands@, m);
                }
                match PositionTime::return_valid_pos_time(cands, m) {
                    Some(p) => {
                        self.position_time = p;
                    },
                    None => {},
                }
            }
        }
        CycleReport { errors, records }
    }

    /// Latitude, longitude and altitude of the canonical position.
    pub fn get_position(&self) -> (r: (i64, i64, i64))
        ensures
            r == (self.position_time.lat, self.position_time.lon, self.position_time.alt),
    {
        (self.position_time.lat, self.position_time.lon, self.position_time.alt)
    }

    /// Time of the canonical position; zero when there is none yet.
    pub fn get_last_update(&self) -> (r: u64)
        ensures
            r == self.position_time.last_update,
    {
        self.position_time.last_update
    }

    /// Seconds from the canonical position's time to `now`; zero when there
    /// is no position yet or its time is not before `now`.
    pub fn last_update_age(&self, now: u64) -> (r: u64)
        ensures
            self.position_time.last_update == 0 ==> r == 0,
            self.position_time.last_update != 0 && now >= self.position_time.last_update ==> r == now
                - self.position_time.last_update,
            self.position_time.last_update != 0 && now < self.position_time.last_update ==> r == 0,
    {
        let last = self.position_time.last_update;
        if last == 0 || now < last {
            0
        } else {
            now - last
        }
    }

    /// How a cycle reduces the feeds' reports.
    pub fn set_method(&mut self, method: EstimationType)
        ensures
            *final(self) == (Tracker { method, ..*old(self) }),
    {
        self.method = method;
    }

    /// Whether a cycle fuses by outlier rejection instead of the method.
    pub fn set_outlier_rejection(&mut self, on: bool)
        ensures
            *final(self) == (Tracker { reject_outliers: on, ..*old(self) }),
    {
        self.reject_outliers = on;
    }

    /// The number of feeds of kind `kind`.
    pub fn active_count(&self, kind: TrackingType) -> (r: usize)
        ensures
            r == count_kind(self.sources@, kind),
    {
        let mut c: usize = 0;
        let mut i: usize = 0;
        while i < self.sources.len()
            invariant
                i <= self.sources@.len(),
                c == count_kind(self.sources@.take(i as int), kind),
                c <= i,
            decreases self.sources@.len() - i,
        {
            proof {
                let t = self.sources@.take(i + 1);
                assert(t.drop_last() == self.sources@.take(i as int));
                assert(t.last() == self.sources@[i as int]);
            }
            if self.sources[i].kind() == kind {
                c = c + 1;
            }
            i = i + 1;
        }
        assert(self.sources@.take(self.sources@.len() as int) == self.sources@);
        c
    }

    /// Whether some feed of kind `kind` has ever given a report.
    pub fn is_kind_active(&self, kind: TrackingType) -> (r: bool)
        ensures
            r == validity_of(self.sources@, kind).contains(true),
    {
        let v = self.validity(kind);
        let mut i: usize = 0;
        while i < v.len()
            invariant
                v@ == validity_of(self.sources@, kind),
                i <= v@.len(),
                forall|k: int| 0 <= k < i ==> !v@[k],
            decreases v@.len() - i,
        {
            if v[i] {
                assert(v@[i as int] == true);
                return true;
            }
            i = i + 1;
        }
        false
    }

    /// For each feed of kind `kind`, in order, whether it has ever given a
    /// report.
    pub fn validity(&self, kind: TrackingType) -> (r: Vec<bool>)
        ensures
            r@ == validity_of(self.sources@, kind),
    {
        let mut v: Vec<bool> = Vec::new();
        let mut i: usize = 0;
        while i < self.sources.len()
            invariant
                i <= self.sources@.len(),
                v@ == validity_of(self.sources@.take(i as int), kind),
            decreases self.sources@.len() - i,
        {
            proof {
                let t = self.sources@.take(i + 1);
                assert(t.drop_last() == self.sources@.take(i as int));
                assert(t.last() == self.sources@[i as int]);
            }
            if self.sources[i].kind() == kind {
                v.push(self.sources[i].is_valid());
            }
            i = i + 1;
        }
        assert(self.sources@.take(self.sources@.len() as int) == self.sources@);
        v
    }
}

/// The number of feeds of kind `kind`.
pub open spec fn count_kind(srcs: Seq<Source>, kind: TrackingType) -> nat
    decreases srcs.len(),
{
    if srcs.len() == 0 {
        0
    } else {
        count_kind(srcs.drop_last(), kind) + if srcs.last().kind_spec() == kind {
            1nat
        } else {
            0nat
        }
    }
}

/// For each feed of kind `kind`, whether it has ever given a report.
pub open spec fn validity_of(srcs: Seq<Source>, kind: TrackingType) -> Seq<bool>
    decreases srcs.len(),
{
    if srcs.len() == 0 {
        Seq::empty()
    } else {
        let r = validity_of(srcs.drop_last(), kind);
        if srcs.last().kind_spec() == kind {
            r.push(srcs.last().is_valid_spec())
        } else {
            r
        }
    }
}

/// Every feed with a report contributes it to the fusion, whatever became
/// of the other feeds, and only reports with a time are fused.
pub proof fn lemma_candidates(srcs: Seq<Source>)
    ensures
        forall|i: int| 0 <= i < srcs.len() && srcs[i].is_valid_spec() ==> candidates(srcs).contains(
            #[trigger] srcs[i].latest_spec(),
        ),
        forall|k: int| 0 <= k < candidates(srcs).len() ==> #[trigger] candidates(srcs)[k].last_update >= 1,
    decreases srcs.len(),
{
    if srcs.len() > 0 {
        let t = srcs.drop_last();
        lemma_candidates(t);
        let c = candidates(srcs);
        let ct = candidates(t);
        assert forall|i: int| 0 <= i < srcs.len() && srcs[i].is_valid_spec() implies c.contains(
            #[trigger] srcs[i].latest_spec(),
        ) by {
            if i < t.len() {
                assert(t[i] == srcs[i]);
                assert(ct.contains(t[i].latest_spec()));
                let w = choose|w: int| 0 <= w < ct.len() && ct[w] == t[i].latest_spec();
                assert(c[w] == ct[w]);
            } else {
                assert(srcs.last() == srcs[i]);
                assert(c[c.len() - 1] == srcs[i].latest_spec());
            }
        }
        assert forall|k: int| 0 <= k < c.len() implies #[trigger] c[k].last_update >= 1 by {
            if k < ct.len() {
                assert(c[k] == ct[k]);
            }
        }
    }
}

/// A cycle over feeds that already had their reports logged logs nothing.
proof fn lemma_nothing_fresh(srcs: Seq<Source>, logged: Seq<PositionTime>)
    requires
        srcs.len() <= logged.len(),
        forall|i: int| 0 <= i < srcs.len() && srcs[i].is_valid_spec() ==> logged[i] == #[trigger] srcs[i].latest_spec(),
    ensures
        fresh_records(srcs, logged) == Seq::<LogRecord>::empty(),
    decreases srcs.len(),
{
    if srcs.len() > 0 {
        let t = srcs.drop_last();
        assert forall|i: int| 0 <= i < t.len() && t[i].is_valid_spec() implies logged[i] == #[trigger] t[i].latest_spec() by {
            assert(t[i] == srcs[i]);
        }
        lemma_nothing_fresh(t, logged);
        assert(srcs.last() == srcs[srcs.len() - 1]);
    }
}

/// Running a cycle again when no feed has new data changes nothing: the
/// canonical position stays, and nothing more is logged.
pub proof fn lemma_update_idempotent(
    srcs: Seq<Source>,
    logged: Seq<PositionTime>,
    position: PositionTime,
    method: EstimationType,
    reject_outliers: bool,
)
    requires
        logged.len() == srcs.len(),
    ensures
        fresh_records(srcs, logged_after(srcs, logged)) == Seq::<LogRecord>::empty(),
        logged_after(srcs, logged_after(srcs, logged)) == logged_after(srcs, logged),
        fused_after(srcs, fused_after(srcs, position, method, reject_outliers), method, reject_outliers)
            == fused_after(srcs, position, method, reject_outliers),
{
    let l1 = logged_after(srcs, logged);
    lemma_nothing_fresh(srcs, l1);
    assert(logged_after(srcs, l1) == l1);
}

} // verus!
