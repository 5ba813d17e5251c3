use chrono::{Datelike, TimeZone};
use timetrax::business_logic::{
    get_default_time, get_expected_work_or_insert_default, get_work_time_by_day, time_diff,
    work_times_to_duration, Error, WorkdayTime,
};
use timetrax::database::{Database, Event, Instant};

fn day_of(y: i32, m: u32, d: u32) -> i64 {
    chrono::NaiveDate::from_ymd_opt(y, m, d).unwrap().num_days_from_ce() as i64
}

fn at(y: i32, m: u32, d: u32, h: u32, min: u32) -> Instant {
    let t = chrono::Utc.with_ymd_and_hms(y, m, d, h, min, 0).unwrap();
    Instant { secs: t.timestamp(), day: day_of(y, m, d) }
}

/// An instant from a raw timestamp, taking the UTC day as the local day.
fn inst(secs: i64) -> Instant {
    Instant { secs, day: secs / 86400 + 719_163 }
}

fn ev(h: u32, min: u32, work_item: Option<u64>) -> Event {
    Event { time: at(2000, 1, 1, h, min), work_item }
}

#[test]
fn test_work_times_to_duration() {
    let d = day_of(2000, 1, 1);
    assert_eq!(
        work_times_to_duration(&vec![]).unwrap(),
        0,
        "Empty work times"
    );
    assert_eq!(
        work_times_to_duration(&vec![ev(9, 0, Some(1))]),
        Err(Error::Inconsistent(d)),
        "Single value, no end time"
    );
    assert_eq!(
        work_times_to_duration(&vec![ev(9, 0, Some(1)), ev(10, 0, Some(1))]),
        Err(Error::Inconsistent(d)),
        "Two values, no end time"
    );
    assert_eq!(
        work_times_to_duration(&vec![ev(9, 0, Some(1)), ev(9, 30, None), ev(10, 0, Some(1))]),
        Err(Error::Inconsistent(d)),
        "Two values, no end time, with break"
    );
    assert_eq!(
        work_times_to_duration(&vec![ev(9, 0, Some(1)), ev(10, 0, None)]).unwrap(),
        3600,
        "Single value, with end time"
    );
    assert_eq!(
        work_times_to_duration(&vec![ev(9, 0, Some(1)), ev(10, 0, Some(2)), ev(11, 0, None)])
            .unwrap(),
        2 * 3600,
        "Two values, with end time"
    );
    assert_eq!(
        work_times_to_duration(&vec![
            ev(9, 0, Some(1)),
            ev(10, 0, None),
            ev(10, 30, Some(2)),
            ev(11, 30, None),
        ])
        .unwrap(),
        2 * 3600,
        "Two values, with end time, and break"
    );
}

#[test]
fn test_get_work_time_by_day() {
    let mut now = chrono::Utc
        .with_ymd_and_hms(1990, 1, 1, 9, 0, 0)
        .unwrap()
        .timestamp();
    let mut db =
        Database::open(Vec::new(), Vec::new(), Vec::new(), None, None, inst(now).day).unwrap();
    db.add_work_item("test");
    let start = inst(now).day;
    let work_item = db.get_available_work().first().unwrap().1;
    db.set_current_work(inst(now), Some(work_item)).unwrap();
    db.set_expected_time(inst(now).day, 5 * 60 * 60);
    now += 3600;
    db.set_current_work(inst(now), None).unwrap();
    now += 23 * 3600;
    db.set_expected_time(inst(now).day, 6 * 60 * 60);
    db.set_current_work(inst(now), Some(work_item)).unwrap();
    now += 2 * 3600;
    db.set_current_work(inst(now), None).unwrap();
    now += 22 * 3600;
    db.set_expected_time(inst(now).day, 7 * 60 * 60);
    db.set_current_work(inst(now), Some(work_item)).unwrap();
    now += 23 * 3600;
    db.set_expected_time(inst(now).day, 8 * 60 * 60);
    db.set_current_work(inst(now), Some(work_item)).unwrap();
    let expected = vec![
        (
            start,
            WorkdayTime { work_done: Ok(3600), expected: 5 * 3600 },
        ),
        (
            start + 1,
            WorkdayTime { work_done: Ok(2 * 3600), expected: 6 * 3600 },
        ),
        (
            start + 2,
            WorkdayTime {
                work_done: Err(Error::Inconsistent(start + 2)),
                expected: 7 * 3600,
            },
        ),
    ];
    let res = get_work_time_by_day(&mut db, inst(now).day);
    assert_eq!(res, expected);
    // The balance walk fails with that day's error instead of skipping it.
    assert_eq!(
        time_diff(&mut db, inst(now).day),
        Err(Error::Inconsistent(start + 2))
    );
}

#[test]
fn time_diff_fails_with_first_inconsistent_day() {
    let mut now = chrono::Utc
        .with_ymd_and_hms(1990, 1, 1, 9, 0, 0)
        .unwrap()
        .timestamp();
    let mut db =
        Database::open(Vec::new(), Vec::new(), Vec::new(), None, None, inst(now).day).unwrap();
    db.add_work_item("test");
    let start = inst(now).day;
    let work_item = db.get_available_work().first().unwrap().1;
    db.set_current_work(inst(now), Some(work_item)).unwrap();
    db.set_expected_time(inst(now).day, 5 * 3600);
    now += 3600;
    db.set_current_work(inst(now), None).unwrap();
    now += 23 * 3600;
    db.set_expected_time(inst(now).day, 6 * 3600);
    db.set_current_work(inst(now), Some(work_item)).unwrap();
    now += 2 * 3600;
    now += 22 * 3600;
    db.set_expected_time(inst(now).day, 7 * 3600);
    db.set_current_work(inst(now), Some(work_item)).unwrap();
    now += 24 * 3600;
    assert_eq!(
        time_diff(&mut db, inst(now).day),
        Err(Error::Inconsistent(start + 1))
    );
}

#[test]
fn time_diff_sums_worked_minus_expected() {
    let mut now = chrono::Utc
        .with_ymd_and_hms(1990, 1, 1, 9, 0, 0)
        .unwrap()
        .timestamp();
    let mut db =
        Database::open(Vec::new(), Vec::new(), Vec::new(), None, None, inst(now).day).unwrap();
    db.add_work_item("test");
    let work_item = db.get_available_work().first().unwrap().1;
    db.set_current_work(inst(now), Some(work_item)).unwrap();
    db.set_expected_time(inst(now).day, 5 * 3600);
    now += 3600;
    db.set_current_work(inst(now), None).unwrap();
    now += 23 * 3600;
    db.set_expected_time(inst(now).day, 6 * 3600);
    db.set_current_work(inst(now), Some(work_item)).unwrap();
    now += 2 * 3600;
    db.set_current_work(inst(now), None).unwrap();
    now += 22 * 3600;
    // (1h - 5h) + (2h - 6h) worked over the two closed days
    assert_eq!(time_diff(&mut db, inst(now).day), Ok(-8 * 3600));
}

#[test]
fn time_diff_on_empty_store_is_zero() {
    let today = day_of(2024, 1, 2);
    let mut db = Database::open(Vec::new(), Vec::new(), Vec::new(), None, None, today).unwrap();
    assert_eq!(time_diff(&mut db, today), Ok(0));
    assert_eq!(get_work_time_by_day(&mut db, today), vec![]);
    assert_eq!(db.get_start_day(), None);
}

#[test]
fn default_quota_policy() {
    let today = day_of(2024, 1, 2);
    let db = Database::open(
        Vec::new(),
        Vec::new(),
        Vec::new(),
        Some(7 * 3600),
        None,
        today,
    )
    .unwrap();
    assert_eq!(get_default_time(&db, day_of(2000, 1, 1)), 0, "Saturday");
    assert_eq!(get_default_time(&db, day_of(2000, 1, 2)), 0, "Sunday");
    assert_eq!(get_default_time(&db, day_of(2024, 1, 1)), 0, "a public holiday (New Year)");
    assert_eq!(
        get_default_time(&db, day_of(2024, 1, 2)),
        7 * 3600,
        "an ordinary Tuesday"
    );
}

#[test]
fn expected_or_default_is_idempotent() {
    let tue = day_of(2024, 1, 2);
    let mut db = Database::open(
        Vec::new(),
        Vec::new(),
        Vec::new(),
        Some(7 * 3600),
        None,
        tue,
    )
    .unwrap();
    let v1 = get_expected_work_or_insert_default(&mut db, tue);
    assert_eq!(v1, 7 * 3600);
    // The baseline default changes afterwards, as if reconfigured externally:
    // the stored quota must not drift.
    let rows = db.all_expected().clone();
    let mut db2 = Database::open(Vec::new(), Vec::new(), rows, Some(3600), None, tue).unwrap();
    let v2 = get_expected_work_or_insert_default(&mut db2, tue);
    assert_eq!(v2, v1);
    assert_eq!(db2.all_expected(), db.all_expected());
}

#[test]
fn backfill_persists_resolved_quota() {
    let sat = day_of(2000, 1, 1);
    let mut db = Database::open(
        Vec::new(),
        Vec::new(),
        Vec::new(),
        Some(7 * 3600),
        None,
        sat,
    )
    .unwrap();
    assert_eq!(db.get_expected_work(sat), None);
    let v = get_expected_work_or_insert_default(&mut db, sat);
    assert_eq!(v, 0);
    assert_eq!(db.get_expected_work(sat), Some(0));
}
