//! The accounting engine: duration aggregation over the event log,
//! inconsistency detection, expected-time resolution with backfill, and the
//! net-time balance.

use vstd::prelude::*;
use crate::database::{
    Database, Event, StoreModel, MAX_DAY, SECS_PER_DAY, events_on, lookup_expected,
    sessions_wf, expected_wf, upsert_expected, lemma_expected_round_trip,
    lemma_expected_other_dates, lemma_events_on_wf,
};

verus! {

/// An accounting failure.
#[derive(Clone, Copy, PartialEq, Eq, Structural, Debug)]
pub enum Error {
    /// A fully elapsed calendar day (the payload) ends mid-session: its last
    /// event still marks running work.
    Inconsistent(i64),
}

/// The worked-versus-expected figures of one calendar day.
#[derive(Clone, Copy, PartialEq, Eq, Debug)]
pub struct WorkdayTime {
    pub work_done: Result<i64, Error>,
    pub expected: i64,
}

/// The seconds worked over a day-local, ascending event sequence: every
/// consecutive pair whose first event marks running work contributes the
/// pair's time span; pairs opened by a stop marker contribute nothing.
pub open spec fn duration_of_events(s: Seq<Event>) -> int
    decreases s.len(),
{
    if s.len() <= 1 {
        0
    } else {
        duration_of_events(s.drop_last()) + (if s[s.len() - 2].work_item is Some {
            s.last().time.secs - s[s.len() - 2].time.secs
        } else {
            0
        })
    }
}

/// Law: the duration of a working run telescopes. Over events that all mark
/// running work except possibly the last one, the accumulated duration is
/// exactly the last timestamp minus the first — the contribution of one
/// maximal working interval is its stop time minus its start time.
pub proof fn lemma_duration_of_working_run(s: Seq<Event>)
    requires
        s.len() >= 1,
        forall|i: int| 0 <= i < s.len() - 1 ==> (#[trigger] s[i]).work_item is Some,
    ensures
        duration_of_events(s) == s.last().time.secs - s[0].time.secs,
    decreases s.len(),
{
    if s.len() > 1 {
        lemma_duration_of_working_run(s.drop_last());
    }
}

/// Law: an idle gap contributes nothing. The log splits at any stop marker
/// into two parts whose durations simply add up, so idle stretches
/// interleaved between working intervals never change the total.
pub proof fn lemma_duration_splits_at_idle(s: Seq<Event>, k: int)
    requires
        0 <= k < s.len(),
        s[k].work_item is None,
    ensures
        duration_of_events(s) == duration_of_events(s.take(k + 1)) + duration_of_events(s.skip(k)),
    decreases s.len(),
{
    if k == s.len() - 1 {
        assert(s.take(k + 1) =~= s);
        assert(duration_of_events(s.skip(k)) == 0);
    } else {
        lemma_duration_splits_at_idle(s.drop_last(), k);
        assert(s.take(k + 1) =~= s.drop_last().take(k + 1));
        assert(s.skip(k).drop_last() =~= s.drop_last().skip(k));
        assert(s.skip(k).len() == s.len() - k);
        assert(s.skip(k)[s.len() - k - 2] == s[s.len() - 2]);
        assert(s.skip(k).last() == s.last());
    }
}

/// Within an ascending event sequence the accumulated duration is
/// non-negative and at most the whole sequence's time span.
pub proof fn lemma_duration_bounds(s: Seq<Event>)
    requires
        s.len() >= 1,
        forall|i: int, j: int|
            #![trigger s[i], s[j]]
            0 <= i < j < s.len() ==> s[i].time.secs < s[j].time.secs,
    ensures
        0 <= duration_of_events(s) <= s.last().time.secs - s[0].time.secs,
    decreases s.len(),
{
    if s.len() > 1 {
        lemma_duration_bounds(s.drop_last());
    }
}

/// Reduces one fully elapsed day's ascending event list to the seconds
/// worked. An empty day worked zero. A day whose last event still marks
/// running work has no well-defined total: the result is `Inconsistent`,
/// tagged with that event's calendar day, and is never repaired here.
pub fn work_times_to_duration(times: &Vec<Event>) -> (r: Result<i64, Error>)
    requires
        sessions_wf(times@),
    ensures
        times@.len() == 0 ==> r == Ok::<i64, Error>(0),
        times@.len() > 0 && times@.last().work_item is Some ==> r == Err::<i64, Error>(
            Error::Inconsistent(times@.last().time.day),
        ),
        times@.len() > 0 && times@.last().work_item is None ==> (r matches Ok(v) && v
            == duration_of_events(times@)),
{
    let n = times.len();
    if n == 0 {
        return Ok(0);
    }
    if times[n - 1].work_item.is_some() {
        return Err(Error::Inconsistent(times[n - 1].time.day));
    }
    let mut res: i64 = 0;
    let mut i: usize = 1;
    while i < n
        invariant
            1 <= i <= n,
            n == times.len(),
            sessions_wf(times@),
            res == duration_of_events(times@.take(i as int)),
            0 <= res <= times@[i - 1].time.secs - times@[0].time.secs,
        decreases n - i,
    {
        if times[i - 1].work_item.is_some() {
            res = res + (times[i].time.secs - times[i - 1].time.secs);
        }
        proof {
            assert(times@.take(i as int + 1).drop_last() =~= times@.take(i as int));
        }
        i = i + 1;
    }
    proof {
        assert(times@.take(n as int) =~= times@);
    }
    Ok(res)
}

/// Whether a day number falls on a Saturday or Sunday: day 1 is a Monday,
/// so `d % 7` is 6 on Saturdays and 0 on Sundays.
pub open spec fn is_weekend(day: i64) -> bool {
    day % 7 == 6 || day % 7 == 0
}

/// What the external holiday calendar answers for a day number. The answer
/// is a function of the date alone, so it carries a name here; the wrapper
/// below is the only place that states anything about it.
pub uninterp spec fn is_holiday_day(day: i64) -> bool;

/// Relies on holiday_de::GermanRegion::is_holiday for Baden-Wuerttemberg,
/// with chrono::NaiveDate carrying the date: whether a date is a public
/// holiday there is a function of the date alone, computed from fixed
/// holiday tables and the Easter date.
#[verifier::external_body]
fn is_holiday_bw(day: i64) -> (r: bool)
    requires
        1 <= day <= MAX_DAY,
    ensures
        r == is_holiday_day(day),
{
    match chrono::NaiveDate::from_num_days_from_ce_opt(day as i32) {
        Some(date) => holiday_de::GermanRegion::BadenWuerttemberg.is_holiday(date),
        None => false,
    }
}

/// The default-time policy: weekends and configured holidays owe nothing;
/// every other day owes the stored baseline quota.
pub open spec fn default_quota(m: StoreModel, day: i64) -> i64 {
    if is_weekend(day) || is_holiday_day(day) {
        0
    } else {
        m.default_time
    }
}

/// Resolves the daily quota a date gets when the ledger has none stored.
pub fn get_default_time(db: &Database, date: i64) -> (r: i64)
    requires
        db@.wf(),
        1 <= date <= MAX_DAY,
    ensures
        r == default_quota(db@, date),
{
    let w = date % 7;
    if w == 6 || w == 0 {
        return 0;
    }
    if is_holiday_bw(date) {
        return 0;
    }
    match db.get_kv("default_time") {
        Some(v) => v,
        None => unreached(),
    }
}

/// The quota `get_expected_work_or_insert_default` yields for `d`: the
/// stored entry when one exists, else the default-time policy's value.
pub open spec fn eod_value(m: StoreModel, d: i64) -> i64 {
    match lookup_expected(m.expected, d) {
        Some(v) => v,
        None => default_quota(m, d),
    }
}

/// The store that call leaves behind: the resolved quota is persisted when
/// the ledger lacked the date, and nothing else moves.
pub open spec fn eod_model(m: StoreModel, d: i64) -> StoreModel {
    if lookup_expected(m.expected, d) is Some {
        m
    } else {
        StoreModel { expected: upsert_expected(m.expected, d, default_quota(m, d)), ..m }
    }
}

/// Returns the stored quota for `date`; when none is stored, resolves the
/// default, persists it and returns it, so the date's quota never drifts if
/// the default configuration later changes.
pub fn get_expected_work_or_insert_default(db: &mut Database, date: i64) -> (r: i64)
    requires
        old(db)@.wf(),
        1 <= date <= MAX_DAY,
    ensures
        r == eod_value(old(db)@, date),
        final(db)@ == eod_model(old(db)@, date),
        final(db)@.wf(),
{
    match db.get_expected_work(date) {
        Some(v) => v,
        None => {
            let time = get_default_time(db, date);
            db.set_expected_time(date, time);
            time
        },
    }
}

/// Law: `get_expected_work_or_insert_default` is idempotent. Once it has
/// resolved and stored a date's quota, asking for the same date again
/// returns the same value and writes nothing — even when the baseline
/// default changes between the calls.
pub proof fn lemma_expected_or_default_idempotent(m: StoreModel, d: i64, new_default: i64)
    ensures
        ({
            let m1 = StoreModel { default_time: new_default, ..eod_model(m, d) };
            eod_value(m1, d) == eod_value(m, d) && eod_model(m1, d) == m1
        }),
{
    if lookup_expected(m.expected, d) is None {
        lemma_expected_round_trip(m.expected, d, default_quota(m, d));
    }
}

/// A half-open range of calendar days, walked one day at a time.
pub struct DateRange {
    pub current: i64,
    pub end: i64,
}

impl DateRange {
    pub fn new(start: i64, end: i64) -> (r: DateRange)
        ensures
            r.current == start,
            r.end == end,
    {
        DateRange { current: start, end }
    }

    /// Yields the next day of the range, or `None` once the range is spent.
    pub fn next(&mut self) -> (r: Option<i64>)
        requires
            old(self).current <= old(self).end,
            old(self).end < i64::MAX,
        ensures
            old(self).current == old(self).end ==> r is None && *final(self) == *old(self),
            old(self).current < old(self).end ==> r == Some(old(self).current)
                && final(self).current == old(self).current + 1
                && final(self).end == old(self).end,
    {
        if self.current == self.end {
            return None;
        }
        let res = self.current;
        self.current = self.current + 1;
        Some(res)
    }
}

/// Whether day `d` of the store ends mid-session: it has events and the last
/// one still marks running work.
pub open spec fn day_inconsistent(m: StoreModel, d: i64) -> bool {
    events_on(m.sessions, d).len() > 0 && events_on(m.sessions, d).last().work_item is Some
}

/// The per-day ledger entry for day `d`: the quota `expectedOrDefault`
/// resolves, beside the day's worked seconds — or the day's `Inconsistent`
/// failure, carried per entry rather than aborting the walk.
pub open spec fn workday_entry(m: StoreModel, d: int, wt: WorkdayTime) -> bool {
    &&& wt.expected == eod_value(m, d as i64)
    &&& if day_inconsistent(m, d as i64) {
        wt.work_done == Err::<i64, Error>(Error::Inconsistent(d as i64))
    } else {
        wt.work_done matches Ok(v) && v == duration_of_events(events_on(m.sessions, d as i64))
    }
}

/// How the ledger walk changes the store: days of `[from, to)` whose quota
/// was missing now carry the then-current default, and nothing else moves.
pub open spec fn backfilled(m0: StoreModel, m1: StoreModel, from: int, to: int) -> bool {
    &&& m1.items == m0.items
    &&& m1.sessions == m0.sessions
    &&& m1.default_time == m0.default_time
    &&& m1.shutdown == m0.shutdown
    &&& forall|d: i64|
        #[trigger] lookup_expected(m1.expected, d) == (if from <= d < to && lookup_expected(
            m0.expected,
            d,
        ) is None {
            Some(default_quota(m0, d))
        } else {
            lookup_expected(m0.expected, d)
        })
}

/// The first day of `[from, to)` that ends mid-session, in date order.
pub open spec fn first_inconsistent_day(m: StoreModel, from: int, to: int) -> Option<i64>
    decreases to - from,
{
    if from >= to {
        None
    } else if day_inconsistent(m, from as i64) {
        Some(from as i64)
    } else {
        first_inconsistent_day(m, from + 1, to)
    }
}

/// Sum over the days of `[from, to)` of worked minus expected seconds.
pub open spec fn diff_sum(m: StoreModel, from: int, to: int) -> int
    decreases to - from,
{
    if from >= to {
        0
    } else {
        duration_of_events(events_on(m.sessions, from as i64)) - eod_value(m, from as i64)
            + diff_sum(m, from + 1, to)
    }
}

proof fn lemma_first_inconsistent_extend(m: StoreModel, from: int, mid: int)
    requires
        from <= mid,
    ensures
        first_inconsistent_day(m, from, mid + 1) == (match first_inconsistent_day(m, from, mid) {
            Some(d) => Some(d),
            None => if day_inconsistent(m, mid as i64) {
                Some(mid as i64)
            } else {
                None::<i64>
            },
        }),
    decreases mid - from,
{
    if from < mid {
        lemma_first_inconsistent_extend(m, from + 1, mid);
    } else {
        assert(first_inconsistent_day(m, mid + 1, mid + 1) is None);
    }
}

proof fn lemma_first_inconsistent_found(m: StoreModel, from: int, mid: int, to: int)
    requires
        from <= mid < to,
        first_inconsistent_day(m, from, mid) is None,
        day_inconsistent(m, mid as i64),
    ensures
        first_inconsistent_day(m, from, to) == Some(mid as i64),
    decreases mid - from,
{
    if from < mid {
        lemma_first_inconsistent_found(m, from + 1, mid, to);
    }
}

proof fn lemma_diff_sum_extend(m: StoreModel, from: int, mid: int)
    requires
        from <= mid,
    ensures
        diff_sum(m, from, mid + 1) == diff_sum(m, from, mid) + duration_of_events(
            events_on(m.sessions, mid as i64),
        ) - eod_value(m, mid as i64),
    decreases mid - from,
{
    if from < mid {
        lemma_diff_sum_extend(m, from + 1, mid);
    } else {
        assert(diff_sum(m, mid + 1, mid + 1) == 0);
    }
}

/// A stored quota lies within one day's seconds.
proof fn lemma_lookup_expected_in_range(e: Seq<(i64, i64)>, d: i64)
    requires
        expected_wf(e),
        lookup_expected(e, d) is Some,
    ensures
        0 <= lookup_expected(e, d)->0 <= SECS_PER_DAY,
    decreases e.len(),
{
    if e.len() > 0 && e[0].0 != d {
        assert(expected_wf(e.drop_first())) by {
            assert(forall|k: int|
                0 <= k < e.drop_first().len() ==> 1 <= (#[trigger] e.drop_first()[k]).0 <= MAX_DAY
                    && 0 <= e.drop_first()[k].1 <= SECS_PER_DAY);
        }
        lemma_lookup_expected_in_range(e.drop_first(), d);
    }
}

/// One day's worked seconds lie below three days' span: the day's events all
/// carry instants of that local day, which pins their timestamps into a
/// window shorter than three days.
proof fn lemma_day_duration_in_range(m: StoreModel, d: i64)
    requires
        m.wf(),
    ensures
        0 <= duration_of_events(events_on(m.sessions, d)) < 3 * SECS_PER_DAY,
{
    lemma_events_on_wf(m.sessions, d);
    let f = events_on(m.sessions, d);
    if f.len() == 0 {
    } else {
        lemma_duration_bounds(f);
        let j0 = choose|j: int| 0 <= j < m.sessions.len() && f[0] == m.sessions[j];
        let j1 = choose|j: int| 0 <= j < m.sessions.len() && f[f.len() - 1] == m.sessions[j];
        assert(m.sessions[j0].time.wf());
        assert(m.sessions[j1].time.wf());
        assert(f[0].time.day == d && f[f.len() - 1].time.day == d);
    }
}

/// The quota the ledger walk pairs with a day lies within one day's seconds.
proof fn lemma_eod_value_in_range(m: StoreModel, d: i64)
    requires
        m.wf(),
    ensures
        0 <= eod_value(m, d) <= SECS_PER_DAY,
{
    if lookup_expected(m.expected, d) is Some {
        lemma_lookup_expected_in_range(m.expected, d);
    }
}

/// The per-day ledger: one entry for every calendar day from the first
/// recorded session day up to, excluding, `today` (a day still in progress
/// is not yet closed), in date order. Each entry pairs the day's worked
/// seconds — or its `Inconsistent` failure — with the day's quota, resolving
/// and persisting missing quotas on the way. An empty log yields an empty
/// ledger and leaves the store untouched.
pub fn get_work_time_by_day(db: &mut Database, today: i64) -> (r: Vec<(i64, WorkdayTime)>)
    requires
        old(db)@.wf(),
        1 <= today <= MAX_DAY,
        old(db)@.sessions.len() > 0 ==> old(db)@.sessions[0].time.day <= today,
    ensures
        final(db)@.wf(),
        old(db)@.sessions.len() == 0 ==> r@.len() == 0 && final(db)@ == old(db)@,
        old(db)@.sessions.len() > 0 ==> ({
            let start = old(db)@.sessions[0].time.day;
            &&& r@.len() == today - start
            &&& forall|k: int|
                0 <= k < r@.len() ==> (#[trigger] r@[k]).0 == start + k && workday_entry(
                    old(db)@,
                    start + k,
                    r@[k].1,
                )
            &&& backfilled(old(db)@, final(db)@, start as int, today as int)
        }),
{
    let ghost m0 = old(db)@;
    let start = match db.get_start_day() {
        Some(s) => s,
        None => {
            return Vec::new();
        },
    };
    let mut result: Vec<(i64, WorkdayTime)> = Vec::new();
    let mut range = DateRange::new(start, today);
    proof {
        assert(m0.sessions[0].time.wf());
    }
    while range.current < range.end
        invariant
            old(db)@ == m0,
            m0.wf(),
            db@.wf(),
            m0.sessions.len() > 0,
            start == m0.sessions[0].time.day,
            1 <= start <= today <= MAX_DAY,
            start <= range.current <= today,
            range.end == today,
            backfilled(m0, db@, start as int, range.current as int),
            result@.len() == range.current - start,
            forall|k: int|
                0 <= k < result@.len() ==> (#[trigger] result@[k]).0 == start + k && workday_entry(
                    m0,
                    start + k,
                    result@[k].1,
                ),
        decreases range.end - range.current,
    {
        let date = match range.next() {
            Some(d) => d,
            None => unreached(),
        };
        let ghost mc = db@;
        let day_events = db.get_work_on_date(date);
        proof {
            lemma_events_on_wf(db@.sessions, date);
        }
        let work_done = work_times_to_duration(&day_events);
        let expected = get_expected_work_or_insert_default(db, date);
        proof {
            assert(eod_value(mc, date) == eod_value(m0, date));
            assert(backfilled(m0, db@, start as int, date + 1)) by {
                if lookup_expected(mc.expected, date) is None {
                    assert forall|d: i64| #[trigger]
                        lookup_expected(db@.expected, d) == (if start <= d < date + 1
                            && lookup_expected(m0.expected, d) is None {
                            Some(default_quota(m0, d))
                        } else {
                            lookup_expected(m0.expected, d)
                        }) by {
                        if d == date {
                            lemma_expected_round_trip(mc.expected, date, default_quota(mc, date));
                        } else {
                            lemma_expected_other_dates(
                                mc.expected,
                                date,
                                default_quota(mc, date),
                                d,
                            );
                        }
                    }
                }
            }
            assert(workday_entry(m0, date as int, WorkdayTime { work_done, expected })) by {
                assert(events_on(mc.sessions, date) == events_on(m0.sessions, date));
                if events_on(m0.sessions, date).len() == 0 {
                    assert(duration_of_events(events_on(m0.sessions, date)) == 0);
                }
            }
        }
        result.push((date, WorkdayTime { work_done, expected }));
    }
    result
}

/// The net balance: the sum of worked minus expected seconds over every
/// closed day of the accounting horizon. The walk backfills quotas exactly
/// as the per-day ledger does, and fails with the first inconsistent day's
/// error, in date order, rather than skipping that day.
pub fn time_diff(db: &mut Database, today: i64) -> (r: Result<i64, Error>)
    requires
        old(db)@.wf(),
        1 <= today <= MAX_DAY,
        old(db)@.sessions.len() > 0 ==> old(db)@.sessions[0].time.day <= today,
    ensures
        final(db)@.wf(),
        old(db)@.sessions.len() == 0 ==> r == Ok::<i64, Error>(0) && final(db)@ == old(db)@,
        old(db)@.sessions.len() > 0 ==> ({
            let start = old(db)@.sessions[0].time.day;
            &&& backfilled(old(db)@, final(db)@, start as int, today as int)
            &&& match first_inconsistent_day(old(db)@, start as int, today as int) {
                Some(d) => r == Err::<i64, Error>(Error::Inconsistent(d)),
                None => r matches Ok(v) && v == diff_sum(old(db)@, start as int, today as int),
            }
        }),
{
    let ghost m0 = old(db)@;
    let start = match db.get_start_day() {
        Some(s) => s,
        None => {
            return Ok(0);
        },
    };
    let times = get_work_time_by_day(db, today);
    let n = times.len();
    let mut res: i64 = 0;
    let mut k: usize = 0;
    while k < n
        invariant
            old(db)@ == m0,
            m0.wf(),
            db@.wf(),
            m0.sessions.len() > 0,
            start == m0.sessions[0].time.day,
            1 <= start <= today <= MAX_DAY,
            backfilled(m0, db@, start as int, today as int),
            n == times.len(),
            n == today - start,
            k <= n,
            forall|j: int|
                0 <= j < times@.len() ==> (#[trigger] times@[j]).0 == start + j && workday_entry(
                    m0,
                    start + j,
                    times@[j].1,
                ),
            first_inconsistent_day(m0, start as int, start as int + k) is None,
            res == diff_sum(m0, start as int, start as int + k),
            -(k as int) * SECS_PER_DAY <= res <= (k as int) * 3 * SECS_PER_DAY,
        decreases n - k,
    {
        let entry = times[k];
        proof {
            lemma_day_duration_in_range(m0, entry.0);
            lemma_eod_value_in_range(m0, entry.0);
        }
        let work = match entry.1.work_done {
            Ok(v) => v,
            Err(e) => {
                proof {
                    lemma_first_inconsistent_found(
                        m0,
                        start as int,
                        start as int + k,
                        today as int,
                    );
                }
                return Err(e);
            },
        };
        proof {
            lemma_first_inconsistent_extend(m0, start as int, start as int + k);
            lemma_diff_sum_extend(m0, start as int, start as int + k);
        }
        res = res + work - entry.1.expected;
        k = k + 1;
    }
    Ok(res)
}

} // verus!
