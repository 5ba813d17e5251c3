//! The persistent store's model: work items, the work-session event log,
//! the expected-time ledger and the process configuration, together with the
//! startup recovery that closes a day left open by an unclean shutdown.

use vstd::prelude::*;
use chrono::Datelike;

verus! {

/// Number of seconds in one calendar day.
pub const SECS_PER_DAY: i64 = 86400;

/// The day number of the Unix epoch date, 1970-01-01. Day numbers count
/// calendar days of the proleptic Gregorian calendar, day 1 being the
/// first day of year 1 (a Monday).
pub const EPOCH_DAY: i64 = 719_163;

/// Largest day number the store accepts (far beyond any realistic date).
pub const MAX_DAY: i64 = 4_000_000;

/// Largest timestamp (seconds since the Unix epoch) the store accepts.
pub const MAX_SECS: i64 = 200_000_000_000;

/// The baseline daily quota a fresh store starts with: seven hours.
pub const DEFAULT_DAILY_SECONDS: i64 = 7 * 60 * 60;

/// A point in time: seconds since the Unix epoch, paired with the local
/// calendar day (as a day number) that the host assigns to that second.
#[derive(Clone, Copy, PartialEq, Eq, Structural, Debug)]
pub struct Instant {
    pub secs: i64,
    pub day: i64,
}

impl Instant {
    /// A valid instant: in range, and its local day within one calendar day
    /// of the UTC day (day number `secs / SECS_PER_DAY + EPOCH_DAY`), since
    /// civil time zone offsets are shorter than a day. The relation is stated
    /// multiplicatively to keep day-span reasoning linear.
    pub open spec fn wf(self) -> bool {
        &&& 0 <= self.secs <= MAX_SECS
        &&& 1 <= self.day <= MAX_DAY
        &&& (self.day - EPOCH_DAY - 1) * SECS_PER_DAY <= self.secs
            < (self.day - EPOCH_DAY + 2) * SECS_PER_DAY
    }
}

/// One entry of the work-session event log: at `time`, work on item
/// `work_item` begins; `None` marks a stop (idle from here on).
#[derive(Clone, Copy, PartialEq, Eq, Debug)]
pub struct Event {
    pub time: Instant,
    pub work_item: Option<u64>,
}

/// A named category of effort.
#[derive(Clone, Debug)]
pub struct WorkItem {
    pub id: u64,
    pub name: String,
    pub description: Option<String>,
    pub visible: bool,
}

/// A store-level failure: a constraint the store enforces was violated.
#[derive(Clone, Copy, PartialEq, Eq, Structural, Debug)]
pub enum Error {
    /// A session event references a work item the store does not hold.
    MissingWorkItem,
    /// Rows handed to `open` break the store's invariants.
    InvalidData,
}

/// The mathematical model of the store's durable state.
#[verifier::ext_equal]
pub ghost struct StoreModel {
    pub items: Seq<WorkItem>,
    pub sessions: Seq<Event>,
    pub expected: Seq<(i64, i64)>,
    pub default_time: i64,
    pub shutdown: Option<Instant>,
}

/// Session events are strictly ascending by timestamp and each carries a
/// valid instant.
pub open spec fn sessions_wf(s: Seq<Event>) -> bool {
    &&& forall|i: int, j: int|
        #![trigger s[i], s[j]]
        0 <= i < j < s.len() ==> s[i].time.secs < s[j].time.secs
    &&& forall|i: int| 0 <= i < s.len() ==> (#[trigger] s[i]).time.wf()
}

/// Some work item in `items` carries the id `id`.
pub open spec fn has_item(items: Seq<WorkItem>, id: u64) -> bool {
    exists|i: int| 0 <= i < items.len() && (#[trigger] items[i]).id == id
}

/// Work items have unique ids and unique names.
pub open spec fn items_wf(items: Seq<WorkItem>) -> bool {
    forall|i: int, j: int|
        #![trigger items[i], items[j]]
        0 <= i < j < items.len() ==> items[i].id != items[j].id && items[i].name@ != items[j].name@
}

/// The expected-time ledger holds at most one row per date, dates and
/// quotas in range (a day's quota is at most one day).
pub open spec fn expected_wf(e: Seq<(i64, i64)>) -> bool {
    &&& forall|i: int, j: int| #![trigger e[i], e[j]] 0 <= i < j < e.len() ==> e[i].0 != e[j].0
    &&& forall|i: int|
        0 <= i < e.len() ==> 1 <= (#[trigger] e[i]).0 <= MAX_DAY && 0 <= e[i].1 <= SECS_PER_DAY
}

/// Referential integrity: a session's work item, when present, names an
/// existing work item.
pub open spec fn refs_ok(sessions: Seq<Event>, items: Seq<WorkItem>) -> bool {
    forall|i: int|
        0 <= i < sessions.len() ==> ((#[trigger] sessions[i]).work_item matches Some(id)
            ==> has_item(items, id))
}

impl StoreModel {
    /// The store's invariant, established by `open` and kept by every mutator.
    pub open spec fn wf(self) -> bool {
        &&& items_wf(self.items)
        &&& sessions_wf(self.sessions)
        &&& expected_wf(self.expected)
        &&& refs_ok(self.sessions, self.items)
        &&& 0 <= self.default_time <= SECS_PER_DAY
        &&& (self.shutdown matches Some(sd) ==> sd.wf())
    }
}

/// The store: the four tables the engine owns.
pub struct Database {
    items: Vec<WorkItem>,
    sessions: Vec<Event>,
    expected: Vec<(i64, i64)>,
    default_time: i64,
    shutdown: Option<Instant>,
}

impl View for Database {
    type V = StoreModel;

    closed spec fn view(&self) -> StoreModel {
        StoreModel {
            items: self.items@,
            sessions: self.sessions@,
            expected: self.expected@,
            default_time: self.default_time,
            shutdown: self.shutdown,
        }
    }
}

/// Relies on chrono: `DateTime::from_timestamp` and the conversion of the
/// instant to the host's local calendar date. Which day the host assigns
/// depends on its time zone, so nothing pins the result exactly; chrono
/// bounds every time zone offset strictly below one day (`FixedOffset`
/// rejects offsets of 86400 seconds and more), so the local day lies within
/// one calendar day of the UTC day.
#[verifier::external_body]
fn local_day_of(secs: i64) -> (day: i64)
    requires
        0 <= secs <= MAX_SECS,
    ensures
        (day - EPOCH_DAY - 1) * SECS_PER_DAY <= secs < (day - EPOCH_DAY + 2) * SECS_PER_DAY,
        1 <= day <= MAX_DAY,
{
    let utc = chrono::DateTime::from_timestamp(secs, 0).expect("timestamp in range");
    utc.with_timezone(&chrono::Local).date_naive().num_days_from_ce() as i64
}

/// Builds the instant for a raw timestamp, pairing it with the local
/// calendar day the host assigns to it.
pub fn instant_of_timestamp(secs: i64) -> (r: Instant)
    requires
        0 <= secs <= MAX_SECS,
    ensures
        r.secs == secs,
        r.wf(),
{
    let day = local_day_of(secs);
    Instant { secs, day }
}

/// The quota stored for date `d`: the value of the first (and, under
/// `expected_wf`, only) ledger row carrying `d`.
pub open spec fn lookup_expected(e: Seq<(i64, i64)>, d: i64) -> Option<i64>
    decreases e.len(),
{
    if e.len() == 0 {
        None
    } else if e[0].0 == d {
        Some(e[0].1)
    } else {
        lookup_expected(e.drop_first(), d)
    }
}

/// The ledger after storing quota `v` for date `d`: the first row carrying
/// `d` is replaced, or a new row is appended when none carries `d`.
pub open spec fn upsert_expected(e: Seq<(i64, i64)>, d: i64, v: i64) -> Seq<(i64, i64)>
    decreases e.len(),
{
    if e.len() == 0 {
        seq![(d, v)]
    } else if e[0].0 == d {
        seq![(d, v)] + e.drop_first()
    } else {
        seq![e[0]] + upsert_expected(e.drop_first(), d, v)
    }
}

/// The events of calendar day `d`, in log order.
pub open spec fn events_on(s: Seq<Event>, d: i64) -> Seq<Event> {
    s.filter(|e: Event| e.time.day == d)
}

/// The work item of the most recent event on day `d`; `None` when the day
/// has no events or its latest event is a stop marker.
pub open spec fn current_work(s: Seq<Event>, d: i64) -> Option<u64> {
    if events_on(s, d).len() == 0 {
        None
    } else {
        events_on(s, d).last().work_item
    }
}

/// The visible work items, in store order.
pub open spec fn visible_items(items: Seq<WorkItem>) -> Seq<WorkItem> {
    items.filter(|it: WorkItem| it.visible)
}

/// The largest work-item id in the store; 0 when the store has none.
pub open spec fn max_item_id(items: Seq<WorkItem>) -> u64
    decreases items.len(),
{
    if items.len() == 0 {
        0
    } else {
        let m = max_item_id(items.drop_last());
        if items.last().id > m {
            items.last().id
        } else {
            m
        }
    }
}

/// The index at which an event timestamped `secs` belongs in the log: the
/// position of the first event whose timestamp is not below `secs`.
pub open spec fn first_at_or_after(s: Seq<Event>, secs: i64) -> int
    decreases s.len(),
{
    if s.len() == 0 {
        0
    } else if s[0].time.secs >= secs {
        0
    } else {
        1 + first_at_or_after(s.drop_first(), secs)
    }
}

/// The log after writing an event: an existing event at the exact same
/// timestamp has its work item overwritten (so rapid repeated writes within
/// the timestamp resolution stay idempotent), otherwise the event enters at
/// its sorted position.
pub open spec fn upsert_event(s: Seq<Event>, e: Event) -> Seq<Event> {
    let i = first_at_or_after(s, e.time.secs);
    if 0 <= i < s.len() && s[i].time.secs == e.time.secs {
        s.update(i, Event { time: s[i].time, work_item: e.work_item })
    } else {
        s.insert(i, e)
    }
}

/// The store after the startup repair: when the last clean shutdown happened
/// on a calendar day strictly before `today` and that day's latest event
/// still marks running work, a synthetic stop event enters the log at the
/// recorded shutdown instant; in every other case the store is untouched.
pub open spec fn recover_model(m: StoreModel, today: i64) -> StoreModel {
    match m.shutdown {
        Some(sd) => if sd.day < today && events_on(m.sessions, sd.day).len() > 0 && events_on(
            m.sessions,
            sd.day,
        ).last().work_item is Some {
            StoreModel {
                sessions: upsert_event(m.sessions, Event { time: sd, work_item: None }),
                ..m
            }
        } else {
            m
        },
        None => m,
    }
}

/// Law: recovery closes a day left open by an unclean shutdown. When the
/// store holds a shutdown instant dated before `today`, every logged event
/// lies before that instant (the shutdown marker was the last write), and
/// the shutdown day's latest event still marks running work, the repair adds
/// exactly one synthetic stop event, at the recorded shutdown instant — and
/// running the repair a second time changes nothing.
pub proof fn lemma_recovery_closes_open_day(m: StoreModel, today: i64)
    requires
        m.wf(),
        m.shutdown is Some,
        m.shutdown->0.day < today,
        forall|i: int|
            0 <= i < m.sessions.len() ==> (#[trigger] m.sessions[i]).time.secs
                < m.shutdown->0.secs,
        events_on(m.sessions, m.shutdown->0.day).len() > 0,
        events_on(m.sessions, m.shutdown->0.day).last().work_item is Some,
    ensures
        recover_model(m, today) == (StoreModel {
            sessions: m.sessions.push(Event { time: m.shutdown->0, work_item: None }),
            ..m
        }),
        recover_model(recover_model(m, today), today) == recover_model(m, today),
{
    let sd = m.shutdown->0;
    let e = Event { time: sd, work_item: None };
    let s = m.sessions;
    lemma_first_at_or_after_is(s, sd.secs, s.len() as int);
    assert(upsert_event(s, e) =~= s.push(e)) by {
        assert(s.insert(s.len() as int, e) =~= s.push(e));
    }
    let s1 = s.push(e);
    assert(events_on(s1, sd.day) == events_on(s, sd.day).push(e)) by {
        reveal(Seq::filter);
        assert(s1.drop_last() =~= s);
    }
    assert(events_on(s1, sd.day).last().work_item is None);
}

/// One unfolding step of `filter` along a prefix of `s`.
proof fn lemma_filter_take_step<A>(s: Seq<A>, p: spec_fn(A) -> bool, i: int)
    requires
        0 <= i < s.len(),
    ensures
        s.take(i + 1).filter(p) == if p(s[i]) {
            s.take(i).filter(p).push(s[i])
        } else {
            s.take(i).filter(p)
        },
{
    reveal(Seq::filter);
    assert(s.take(i + 1).drop_last() =~= s.take(i));
    assert(s.take(i + 1).last() == s[i]);
}

/// A day's slice of a well-formed log is itself well formed: ascending, its
/// instants valid, every event tagged with that day, and every event drawn
/// from the log.
pub proof fn lemma_events_on_wf(s: Seq<Event>, d: i64)
    requires
        sessions_wf(s),
    ensures
        sessions_wf(events_on(s, d)),
        forall|k: int|
            0 <= k < events_on(s, d).len() ==> (#[trigger] events_on(s, d)[k]).time.day == d,
        forall|k: int|
            0 <= k < events_on(s, d).len() ==> exists|j: int|
                0 <= j < s.len() && (#[trigger] events_on(s, d)[k]) == s[j],
    decreases s.len(),
{
    reveal(Seq::filter);
    if s.len() > 0 {
        let pre = s.drop_last();
        assert(sessions_wf(pre)) by {
            assert(forall|i: int| 0 <= i < pre.len() ==> (#[trigger] pre[i]).time.wf());
        }
        lemma_events_on_wf(pre, d);
        let fd = events_on(pre, d);
        assert forall|k: int|
            0 <= k < fd.len() implies exists|j: int|
            0 <= j < s.len() && (#[trigger] fd[k]) == s[j] by {
            let j = choose|j: int| 0 <= j < pre.len() && fd[k] == pre[j];
            assert(fd[k] == s[j]);
        }
        if s.last().time.day == d {
            assert(events_on(s, d) == fd.push(s.last()));
            assert forall|k: int|
                0 <= k < fd.len() implies fd[k].time.secs < s.last().time.secs by {
                let j = choose|j: int| 0 <= j < pre.len() && fd[k] == pre[j];
                assert(s[j].time.secs < s.last().time.secs);
            }
            let f = fd.push(s.last());
            assert forall|p: int, q: int|
                #![trigger f[p], f[q]]
                0 <= p < q < f.len() implies f[p].time.secs < f[q].time.secs by {
                if q < fd.len() {
                    assert(fd[p].time.secs < fd[q].time.secs);
                }
            }
        } else {
            assert(events_on(s, d) == fd);
        }
    }
}

proof fn lemma_sorted_from_adjacent(s: Seq<Event>, i: int, j: int)
    requires
        forall|k: int| 1 <= k < s.len() ==> s[k - 1].time.secs < (#[trigger] s[k]).time.secs,
        0 <= i < j < s.len(),
    ensures
        s[i].time.secs < s[j].time.secs,
    decreases j - i,
{
    if j > i + 1 {
        lemma_sorted_from_adjacent(s, i, j - 1);
    }
}

/// Whether an instant satisfies the instant invariant.
fn instant_ok(t: Instant) -> (r: bool)
    ensures
        r == t.wf(),
{
    if !(0 <= t.secs && t.secs <= MAX_SECS) {
        return false;
    }
    if !(1 <= t.day && t.day <= MAX_DAY) {
        return false;
    }
    (t.day - EPOCH_DAY - 1) * SECS_PER_DAY <= t.secs && t.secs < (t.day - EPOCH_DAY + 2)
        * SECS_PER_DAY
}

proof fn lemma_max_item_id_bound(items: Seq<WorkItem>, j: int)
    requires
        0 <= j < items.len(),
    ensures
        items[j].id <= max_item_id(items),
    decreases items.len(),
{
    if j < items.len() - 1 {
        lemma_max_item_id_bound(items.drop_last(), j);
    }
}

proof fn lemma_first_at_or_after_is(s: Seq<Event>, secs: i64, i: int)
    requires
        0 <= i <= s.len(),
        forall|j: int| 0 <= j < i ==> s[j].time.secs < secs,
        i < s.len() ==> s[i].time.secs >= secs,
    ensures
        first_at_or_after(s, secs) == i,
    decreases i,
{
    if i > 0 {
        lemma_first_at_or_after_is(s.drop_first(), secs, i - 1);
    }
}

proof fn lemma_lookup_expected_at(e: Seq<(i64, i64)>, d: i64, i: int)
    requires
        0 <= i < e.len(),
        e[i].0 == d,
        forall|j: int| 0 <= j < i ==> e[j].0 != d,
    ensures
        lookup_expected(e, d) == Some(e[i].1),
    decreases i,
{
    if i > 0 {
        lemma_lookup_expected_at(e.drop_first(), d, i - 1);
    }
}

proof fn lemma_lookup_expected_none(e: Seq<(i64, i64)>, d: i64)
    requires
        forall|j: int| 0 <= j < e.len() ==> e[j].0 != d,
    ensures
        lookup_expected(e, d) is None,
    decreases e.len(),
{
    if e.len() > 0 {
        lemma_lookup_expected_none(e.drop_first(), d);
    }
}

proof fn lemma_upsert_expected_at(e: Seq<(i64, i64)>, d: i64, v: i64, i: int)
    requires
        0 <= i < e.len(),
        e[i].0 == d,
        forall|j: int| 0 <= j < i ==> e[j].0 != d,
    ensures
        upsert_expected(e, d, v) == e.update(i, (d, v)),
    decreases i,
{
    if i == 0 {
        assert(seq![(d, v)] + e.drop_first() =~= e.update(0, (d, v)));
    } else {
        lemma_upsert_expected_at(e.drop_first(), d, v, i - 1);
        assert(seq![e[0]] + e.drop_first().update(i - 1, (d, v)) =~= e.update(i, (d, v)));
    }
}

proof fn lemma_upsert_expected_new(e: Seq<(i64, i64)>, d: i64, v: i64)
    requires
        forall|j: int| 0 <= j < e.len() ==> e[j].0 != d,
    ensures
        upsert_expected(e, d, v) == e.push((d, v)),
    decreases e.len(),
{
    if e.len() == 0 {
        assert(seq![(d, v)] =~= e.push((d, v)));
    } else {
        lemma_upsert_expected_new(e.drop_first(), d, v);
        assert(seq![e[0]] + e.drop_first().push((d, v)) =~= e.push((d, v)));
    }
}

/// Law: the expected-time ledger round-trips — after storing quota `v` for
/// date `d`, looking `d` up returns exactly `v`.
pub proof fn lemma_expected_round_trip(e: Seq<(i64, i64)>, d: i64, v: i64)
    ensures
        lookup_expected(upsert_expected(e, d, v), d) == Some(v),
    decreases e.len(),
{
    if e.len() == 0 {
    } else if e[0].0 == d {
    } else {
        lemma_expected_round_trip(e.drop_first(), d, v);
        assert((seq![e[0]] + upsert_expected(e.drop_first(), d, v)).drop_first()
            =~= upsert_expected(e.drop_first(), d, v));
    }
}

/// Law: storing a quota for one date leaves every other date's quota as it was.
pub proof fn lemma_expected_other_dates(e: Seq<(i64, i64)>, d: i64, v: i64, d2: i64)
    requires
        d2 != d,
    ensures
        lookup_expected(upsert_expected(e, d, v), d2) == lookup_expected(e, d2),
    decreases e.len(),
{
    if e.len() == 0 {
        assert(seq![(d, v)].drop_first() =~= Seq::<(i64, i64)>::empty());
        assert(lookup_expected(Seq::<(i64, i64)>::empty(), d2) is None);
    } else if e[0].0 == d {
        assert((seq![(d, v)] + e.drop_first())[0] == (d, v));
        assert((seq![(d, v)] + e.drop_first()).drop_first() =~= e.drop_first());
    } else {
        lemma_expected_other_dates(e.drop_first(), d, v, d2);
        assert((seq![e[0]] + upsert_expected(e.drop_first(), d, v))[0] == e[0]);
        assert((seq![e[0]] + upsert_expected(e.drop_first(), d, v)).drop_first()
            =~= upsert_expected(e.drop_first(), d, v));
    }
}

impl Database {
    /// The index of the ledger row for `date`, if one exists.
    fn find_expected_index(&self, date: i64) -> (r: Option<usize>)
        ensures
            match r {
                Some(i) => i < self@.expected.len() && self@.expected[i as int].0 == date
                    && forall|j: int| 0 <= j < i ==> self@.expected[j].0 != date,
                None => forall|j: int| 0 <= j < self@.expected.len()
                    ==> self@.expected[j].0 != date,
            },
    {
        let n = self.expected.len();
        let mut i: usize = 0;
        while i < n
            invariant
                i <= n,
                n == self.expected.len(),
                forall|j: int| 0 <= j < i ==> self@.expected[j].0 != date,
            decreases n - i,
        {
            if self.expected[i].0 == date {
                return Some(i);
            }
            i = i + 1;
        }
        None
    }

    /// Reads the expected-time ledger for `date`.
    pub fn get_expected_work(&self, date: i64) -> (r: Option<i64>)
        ensures
            r == lookup_expected(self@.expected, date),
    {
        match self.find_expected_index(date) {
            Some(i) => {
                proof {
                    lemma_lookup_expected_at(self@.expected, date, i as int);
                }
                Some(self.expected[i].1)
            },
            None => {
                proof {
                    lemma_lookup_expected_none(self@.expected, date);
                }
                None
            },
        }
    }

    /// Stores quota `time_s` for `date`, replacing an existing row for the
    /// same date.
    pub fn set_expected_time(&mut self, date: i64, time_s: i64)
        requires
            old(self)@.wf(),
            1 <= date <= MAX_DAY,
            0 <= time_s <= SECS_PER_DAY,
        ensures
            final(self)@ == (StoreModel {
                expected: upsert_expected(old(self)@.expected, date, time_s),
                ..old(self)@
            }),
            final(self)@.wf(),
    {
        let ghost e0 = self@.expected;
        match self.find_expected_index(date) {
            Some(i) => {
                self.expected.set(i, (date, time_s));
                proof {
                    lemma_upsert_expected_at(e0, date, time_s, i as int);
                    assert forall|p: int, q: int|
                        #![trigger self@.expected[p], self@.expected[q]]
                        0 <= p < q < self@.expected.len() implies self@.expected[p].0
                        != self@.expected[q].0 by {
                        assert(e0[p].0 != e0[q].0);
                    }
                }
            },
            None => {
                self.expected.push((date, time_s));
                proof {
                    lemma_upsert_expected_new(e0, date, time_s);
                }
            },
        }
    }

    /// Reads the configuration table: the baseline daily quota under
    /// `default_time`, the last clean-shutdown timestamp under `shutdown`.
    pub fn get_kv(&self, key: &str) -> (r: Option<i64>)
        ensures
            key@ == "default_time"@ ==> r == Some(self@.default_time),
            key@ == "shutdown"@ ==> r == (match self@.shutdown {
                Some(sd) => Some(sd.secs),
                None => None::<i64>,
            }),
            key@ != "default_time"@ && key@ != "shutdown"@ ==> r is None,
    {
        proof {
            reveal_strlit("default_time");
            reveal_strlit("shutdown");
            assert("default_time"@.len() == 12);
            assert("shutdown"@.len() == 8);
            assert("default_time"@ != "shutdown"@);
        }
        let k = key.to_owned();
        if k == "default_time".to_owned() {
            Some(self.default_time)
        } else if k == "shutdown".to_owned() {
            match self.shutdown {
                Some(sd) => Some(sd.secs),
                None => None,
            }
        } else {
            None
        }
    }

    /// The calendar date of the very first recorded session event, the
    /// accounting horizon's start; `None` while the log is empty.
    pub fn get_start_day(&self) -> (r: Option<i64>)
        ensures
            self@.sessions.len() == 0 ==> r is None,
            self@.sessions.len() > 0 ==> r == Some(self@.sessions[0].time.day),
    {
        if self.sessions.len() == 0 {
            None
        } else {
            Some(self.sessions[0].time.day)
        }
    }

    /// The position in the log at which an event timestamped `secs` belongs.
    fn find_session_index(&self, secs: i64) -> (i: usize)
        requires
            sessions_wf(self@.sessions),
        ensures
            i as int == first_at_or_after(self@.sessions, secs),
            i <= self@.sessions.len(),
            forall|j: int| 0 <= j < i ==> self@.sessions[j].time.secs < secs,
            i < self@.sessions.len() ==> self@.sessions[i as int].time.secs >= secs,
    {
        let n = self.sessions.len();
        let mut i: usize = 0;
        while i < n && self.sessions[i].time.secs < secs
            invariant
                i <= n,
                n == self.sessions.len(),
                forall|j: int| 0 <= j < i ==> self.sessions@[j].time.secs < secs,
            decreases n - i,
        {
            i = i + 1;
        }
        proof {
            lemma_first_at_or_after_is(self@.sessions, secs, i as int);
        }
        i
    }

    /// Writes event `e` into the log by the upsert-by-timestamp rule.
    fn upsert_session(&mut self, e: Event)
        requires
            old(self)@.wf(),
            e.time.wf(),
            (e.work_item matches Some(id) ==> has_item(old(self)@.items, id)),
        ensures
            final(self)@ == (StoreModel {
                sessions: upsert_event(old(self)@.sessions, e),
                ..old(self)@
            }),
            final(self)@.wf(),
    {
        let ghost s0 = self@.sessions;
        let i = self.find_session_index(e.time.secs);
        if i < self.sessions.len() && self.sessions[i].time.secs == e.time.secs {
            let t = self.sessions[i].time;
            self.sessions.set(i, Event { time: t, work_item: e.work_item });
            proof {
                let s1 = self@.sessions;
                assert(forall|k: int| 0 <= k < s1.len() ==> (#[trigger] s1[k]).time == s0[k].time);
                assert(forall|k: int|
                    0 <= k < s1.len() && k != i ==> (#[trigger] s1[k]).work_item == s0[k].work_item);
            }
        } else {
            self.sessions.insert(i, e);
            proof {
                let s1 = self@.sessions;
                assert(forall|k: int| 0 <= k < i ==> (#[trigger] s1[k]) == s0[k]);
                assert(forall|k: int| i < k < s1.len() ==> (#[trigger] s1[k]) == s0[k - 1]);
                assert(s1[i as int] == e);
                assert forall|p: int, q: int|
                    #![trigger s1[p], s1[q]]
                    0 <= p < q < s1.len() implies s1[p].time.secs < s1[q].time.secs by {
                    if p == i as int {
                        assert(s0[q - 1].time.secs >= s0[i as int].time.secs);
                    } else if q == i as int {
                        assert(s0[p].time.secs < e.time.secs);
                    }
                }
            }
        }
    }

    /// Whether the store holds a work item with the given id.
    fn contains_item(&self, id: u64) -> (r: bool)
        ensures
            r == has_item(self@.items, id),
    {
        let n = self.items.len();
        let mut i: usize = 0;
        while i < n
            invariant
                i <= n,
                n == self.items.len(),
                forall|j: int| 0 <= j < i ==> (#[trigger] self.items@[j]).id != id,
            decreases n - i,
        {
            if self.items[i].id == id {
                return true;
            }
            i = i + 1;
        }
        false
    }

    /// Writes a session event at `now` carrying the given work item, or the
    /// stop marker `None`, upserting on an exact-timestamp collision. Fails
    /// without changing the store when the id names no stored work item.
    pub fn set_current_work(&mut self, now: Instant, work_item: Option<u64>) -> (r: Result<
        (),
        Error,
    >)
        requires
            old(self)@.wf(),
            now.wf(),
        ensures
            r is Ok <==> (work_item matches Some(id) ==> has_item(old(self)@.items, id)),
            r is Ok ==> final(self)@ == (StoreModel {
                sessions: upsert_event(old(self)@.sessions, Event { time: now, work_item }),
                ..old(self)@
            }) && final(self)@.wf(),
            r is Err ==> final(self)@ == old(self)@ && r == Err::<(), Error>(
                Error::MissingWorkItem,
            ),
    {
        match work_item {
            Some(id) => {
                if !self.contains_item(id) {
                    return Err(Error::MissingWorkItem);
                }
            },
            None => {},
        }
        self.upsert_session(Event { time: now, work_item });
        Ok(())
    }

    /// All session events of calendar day `date`, ascending by timestamp.
    pub fn get_work_on_date(&self, date: i64) -> (r: Vec<Event>)
        ensures
            r@ == events_on(self@.sessions, date),
    {
        let mut r: Vec<Event> = Vec::new();
        let n = self.sessions.len();
        let mut i: usize = 0;
        proof {
            reveal(Seq::filter);
            assert(self@.sessions.take(0).filter(|e: Event| e.time.day == date)
                =~= Seq::<Event>::empty().filter(|e: Event| e.time.day == date));
        }
        while i < n
            invariant
                i <= n,
                n == self.sessions.len(),
                r@ == events_on(self@.sessions.take(i as int), date),
            decreases n - i,
        {
            proof {
                lemma_filter_take_step(self@.sessions, |e: Event| e.time.day == date, i as int);
            }
            let e = self.sessions[i];
            if e.time.day == date {
                r.push(e);
            }
            i = i + 1;
        }
        proof {
            assert(self@.sessions.take(n as int) =~= self@.sessions);
        }
        r
    }

    /// The work item of the most recent session event on day `today`, or
    /// `None` when the day has none or its latest event is a stop marker.
    pub fn get_current_work(&self, today: i64) -> (r: Option<u64>)
        ensures
            r == current_work(self@.sessions, today),
    {
        let day = self.get_work_on_date(today);
        if day.len() == 0 {
            None
        } else {
            day[day.len() - 1].work_item
        }
    }

    /// All visible work items, as `(name, id)` pairs in store order.
    pub fn get_available_work(&self) -> (r: Vec<(String, u64)>)
        ensures
            r@.len() == visible_items(self@.items).len(),
            forall|k: int|
                0 <= k < r@.len() ==> (#[trigger] r@[k]).0 == visible_items(self@.items)[k].name
                    && r@[k].1 == visible_items(self@.items)[k].id,
    {
        let mut r: Vec<(String, u64)> = Vec::new();
        let n = self.items.len();
        let mut i: usize = 0;
        proof {
            reveal(Seq::filter);
            assert(self@.items.take(0).filter(|it: WorkItem| it.visible)
                =~= Seq::<WorkItem>::empty().filter(|it: WorkItem| it.visible));
        }
        while i < n
            invariant
                i <= n,
                n == self.items.len(),
                r@.len() == visible_items(self@.items.take(i as int)).len(),
                forall|k: int|
                    0 <= k < r@.len() ==> (#[trigger] r@[k]).0 == visible_items(
                        self@.items.take(i as int),
                    )[k].name && r@[k].1 == visible_items(self@.items.take(i as int))[k].id,
            decreases n - i,
        {
            proof {
                lemma_filter_take_step(self@.items, |it: WorkItem| it.visible, i as int);
            }
            let it = &self.items[i];
            if it.visible {
                r.push((it.name.clone(), it.id));
            }
            i = i + 1;
        }
        proof {
            assert(self@.items.take(n as int) =~= self@.items);
        }
        r
    }

    /// Adds a work item under `name` if absent: a no-op, not an error, when
    /// the name already exists. Returns the number of rows created.
    pub fn add_work_item(&mut self, name: &str) -> (r: usize)
        requires
            old(self)@.wf(),
            max_item_id(old(self)@.items) < u64::MAX,
        ensures
            final(self)@.wf(),
            (exists|j: int|
                0 <= j < old(self)@.items.len() && (#[trigger] old(self)@.items[j]).name@
                    == name@) ==> r == 0 && final(self)@ == old(self)@,
            !(exists|j: int|
                0 <= j < old(self)@.items.len() && (#[trigger] old(self)@.items[j]).name@
                    == name@) ==> r == 1 && final(self)@.items.len() == old(self)@.items.len() + 1
                && final(self)@.items.drop_last() == old(self)@.items && ({
                let it = final(self)@.items.last();
                &&& it.id == max_item_id(old(self)@.items) + 1
                &&& it.name@ == name@
                &&& it.description is None
                &&& it.visible == true
            }) && final(self)@ == (StoreModel { items: final(self)@.items, ..old(self)@ }),
    {
        let n = self.items.len();
        let owned = name.to_owned();
        let mut i: usize = 0;
        let mut m: u64 = 0;
        proof {
            assert(self@.items.take(0) =~= Seq::<WorkItem>::empty());
        }
        while i < n
            invariant
                i <= n,
                n == self.items.len(),
                self@ == old(self)@,
                old(self)@.wf(),
                owned@ == name@,
                m == max_item_id(self@.items.take(i as int)),
                forall|j: int| 0 <= j < i ==> (#[trigger] self.items@[j]).name@ != name@,
            decreases n - i,
        {
            if self.items[i].name == owned {
                return 0;
            }
            if self.items[i].id > m {
                m = self.items[i].id;
            }
            proof {
                assert(self@.items.take(i as int + 1).drop_last() =~= self@.items.take(i as int));
                assert(self@.items.take(i as int + 1).last() == self@.items[i as int]);
            }
            i = i + 1;
        }
        proof {
            assert(self@.items.take(n as int) =~= self@.items);
        }
        let it = WorkItem { id: m + 1, name: owned, description: None, visible: true };
        self.items.push(it);
        proof {
            let items1 = self@.items;
            assert(items1.drop_last() =~= old(self)@.items);
            assert forall|p: int, q: int|
                #![trigger items1[p], items1[q]]
                0 <= p < q < items1.len() implies items1[p].id != items1[q].id && items1[p].name@
                != items1[q].name@ by {
                if q == items1.len() - 1 {
                    lemma_max_item_id_bound(old(self)@.items, p);
                }
            }
            assert forall|k: int|
                0 <= k < self@.sessions.len() implies ((#[trigger] self@.sessions[k]).work_item
                matches Some(id) ==> has_item(self@.items, id)) by {
                if self@.sessions[k].work_item is Some {
                    let id = self@.sessions[k].work_item->0;
                    assert(has_item(old(self)@.items, id));
                    let w = choose|j: int|
                        0 <= j < old(self)@.items.len() && (#[trigger] old(
                            self,
                        )@.items[j]).id == id;
                    assert(items1[w].id == id);
                }
            }
        }
        1
    }

    /// The startup repair: when the process last shut down cleanly on a
    /// calendar day before `today` while work was still running, closes that
    /// day with a synthetic stop event at the recorded shutdown instant.
    pub fn add_work_end_at_shutdown(&mut self, today: i64)
        requires
            old(self)@.wf(),
        ensures
            final(self)@ == recover_model(old(self)@, today),
            final(self)@.wf(),
    {
        let sd = match self.shutdown {
            Some(sd) => sd,
            None => {
                return;
            },
        };
        if sd.day < today {
            let day_events = self.get_work_on_date(sd.day);
            if day_events.len() > 0 {
                let last = day_events[day_events.len() - 1];
                if last.work_item.is_some() {
                    self.upsert_session(Event { time: sd, work_item: None });
                }
            }
        }
    }

    fn items_ok(&self) -> (r: bool)
        ensures
            r == items_wf(self@.items),
    {
        let n = self.items.len();
        let mut i: usize = 0;
        while i < n
            invariant
                i <= n,
                n == self.items.len(),
                forall|p: int, q: int|
                    #![trigger self.items@[p], self.items@[q]]
                    0 <= p < q < n && p < i ==> self.items@[p].id != self.items@[q].id
                        && self.items@[p].name@ != self.items@[q].name@,
            decreases n - i,
        {
            let mut j: usize = i + 1;
            while j < n
                invariant
                    i < n,
                    i < j <= n,
                    n == self.items.len(),
                    forall|q: int|
                        i < q < j ==> self.items@[i as int].id != (#[trigger] self.items@[q]).id
                            && self.items@[i as int].name@ != self.items@[q].name@,
                decreases n - j,
            {
                if self.items[i].id == self.items[j].id || self.items[i].name
                    == self.items[j].name {
                    return false;
                }
                j = j + 1;
            }
            i = i + 1;
        }
        true
    }

    fn sessions_ok(&self) -> (r: bool)
        ensures
            r == sessions_wf(self@.sessions),
    {
        let n = self.sessions.len();
        let mut i: usize = 0;
        while i < n
            invariant
                i <= n,
                n == self.sessions.len(),
                forall|k: int| 0 <= k < i ==> (#[trigger] self.sessions@[k]).time.wf(),
                forall|k: int|
                    1 <= k < i ==> self.sessions@[k - 1].time.secs < (#[trigger] self.sessions@[k]).time.secs,
            decreases n - i,
        {
            if !instant_ok(self.sessions[i].time) {
                return false;
            }
            if i > 0 && self.sessions[i - 1].time.secs >= self.sessions[i].time.secs {
                return false;
            }
            i = i + 1;
        }
        proof {
            if n > 0 {
                assert forall|p: int, q: int|
                    #![trigger self.sessions@[p], self.sessions@[q]]
                    0 <= p < q < n implies self.sessions@[p].time.secs
                    < self.sessions@[q].time.secs by {
                    lemma_sorted_from_adjacent(self@.sessions, p, q);
                }
            }
        }
        true
    }

    fn expected_ok(&self) -> (r: bool)
        ensures
            r == expected_wf(self@.expected),
    {
        let n = self.expected.len();
        let mut i: usize = 0;
        while i < n
            invariant
                i <= n,
                n == self.expected.len(),
                forall|p: int, q: int|
                    #![trigger self.expected@[p], self.expected@[q]]
                    0 <= p < q < n && p < i ==> self.expected@[p].0 != self.expected@[q].0,
                forall|k: int|
                    0 <= k < i ==> 1 <= (#[trigger] self.expected@[k]).0 <= MAX_DAY && 0
                        <= self.expected@[k].1 <= SECS_PER_DAY,
            decreases n - i,
        {
            let row = self.expected[i];
            if !(1 <= row.0 && row.0 <= MAX_DAY && 0 <= row.1 && row.1 <= SECS_PER_DAY) {
                return false;
            }
            let mut j: usize = i + 1;
            while j < n
                invariant
                    i < n,
                    i < j <= n,
                    n == self.expected.len(),
                    forall|q: int|
                        i < q < j ==> self.expected@[i as int].0 != (#[trigger] self.expected@[q]).0,
                decreases n - j,
            {
                if self.expected[i].0 == self.expected[j].0 {
                    return false;
                }
                j = j + 1;
            }
            i = i + 1;
        }
        true
    }

    fn refs_ok_exec(&self) -> (r: bool)
        ensures
            r == refs_ok(self@.sessions, self@.items),
    {
        let n = self.sessions.len();
        let mut i: usize = 0;
        while i < n
            invariant
                i <= n,
                n == self.sessions.len(),
                forall|k: int|
                    0 <= k < i ==> ((#[trigger] self.sessions@[k]).work_item matches Some(id)
                        ==> has_item(self@.items, id)),
            decreases n - i,
        {
            match self.sessions[i].work_item {
                Some(id) => {
                    if !self.contains_item(id) {
                        return false;
                    }
                },
                None => {},
            }
            i = i + 1;
        }
        true
    }

    /// Whether the store's invariant holds of the rows it carries.
    fn check_wf(&self) -> (r: bool)
        ensures
            r == self@.wf(),
    {
        let cfg_ok = 0 <= self.default_time && self.default_time <= SECS_PER_DAY;
        let sd_ok = match self.shutdown {
            Some(sd) => instant_ok(sd),
            None => true,
        };
        let items_ok = self.items_ok();
        let sessions_ok = self.sessions_ok();
        let expected_ok = self.expected_ok();
        let refs_ok = self.refs_ok_exec();
        items_ok && sessions_ok && expected_ok && refs_ok && cfg_ok && sd_ok
    }

    /// Opens the store on rows read from durable storage: validates the
    /// store's invariants, supplies the baseline daily quota when the
    /// configuration lacks one, and runs the startup repair for day `today`.
    pub fn open(
        items: Vec<WorkItem>,
        sessions: Vec<Event>,
        expected: Vec<(i64, i64)>,
        default_time: Option<i64>,
        shutdown: Option<Instant>,
        today: i64,
    ) -> (r: Result<Database, Error>)
        ensures
            ({
                let m = StoreModel {
                    items: items@,
                    sessions: sessions@,
                    expected: expected@,
                    default_time: match default_time {
                        Some(v) => v,
                        None => DEFAULT_DAILY_SECONDS,
                    },
                    shutdown,
                };
                match r {
                    Ok(db) => m.wf() && db@ == recover_model(m, today),
                    Err(e) => e == Error::InvalidData && !m.wf(),
                }
            }),
    {
        let dt = match default_time {
            Some(v) => v,
            None => DEFAULT_DAILY_SECONDS,
        };
        let mut db = Database { items, sessions, expected, default_time: dt, shutdown };
        if !db.check_wf() {
            return Err(Error::InvalidData);
        }
        db.add_work_end_at_shutdown(today);
        Ok(db)
    }

    /// The full work-item table, for persistence.
    pub fn all_items(&self) -> (r: &Vec<WorkItem>)
        ensures
            r@ == self@.items,
    {
        &self.items
    }

    /// The full session log, for persistence.
    pub fn all_sessions(&self) -> (r: &Vec<Event>)
        ensures
            r@ == self@.sessions,
    {
        &self.sessions
    }

    /// The full expected-time ledger, for persistence.
    pub fn all_expected(&self) -> (r: &Vec<(i64, i64)>)
        ensures
            r@ == self@.expected,
    {
        &self.expected
    }

    /// Records the given instant as the moment of the last clean shutdown.
    pub fn shutdown(&mut self, now: Instant)
        requires
            old(self)@.wf(),
            now.wf(),
        ensures
            final(self)@ == (StoreModel { shutdown: Some(now), ..old(self)@ }),
            final(self)@.wf(),
    {
        self.shutdown = Some(now);
    }
}

} // verus!
