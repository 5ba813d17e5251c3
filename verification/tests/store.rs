use chrono::{Datelike, TimeZone};
use std::collections::HashSet;
use timetrax::business_logic::DateRange;
use timetrax::database::{instant_of_timestamp, Database, Error, Event, Instant, WorkItem};

fn day_of(y: i32, m: u32, d: u32) -> i64 {
    chrono::NaiveDate::from_ymd_opt(y, m, d).unwrap().num_days_from_ce() as i64
}

fn at(y: i32, m: u32, d: u32, h: u32, min: u32) -> Instant {
    let t = chrono::Utc.with_ymd_and_hms(y, m, d, h, min, 0).unwrap();
    Instant { secs: t.timestamp(), day: day_of(y, m, d) }
}

fn empty_db(today: i64) -> Database {
    Database::open(Vec::new(), Vec::new(), Vec::new(), None, None, today).unwrap()
}

#[test]
fn add_get_work_item() {
    let mut db = empty_db(day_of(2024, 1, 2));
    let work: HashSet<_> = db.get_available_work().into_iter().collect();
    db.add_work_item("testwork");
    let work2: HashSet<_> = db.get_available_work().into_iter().collect();
    assert_eq!(work.len() + 1, work2.len(), "Wrong number of items added");
    assert!(work2.is_superset(&work), "Items missing after add");
    assert!(
        work2.iter().find(|x| x.0 == "testwork").is_some(),
        "Added item not found"
    );
}

#[test]
fn add_work_item_is_idempotent_by_name() {
    let mut db = empty_db(day_of(2024, 1, 2));
    assert_eq!(db.add_work_item("alpha"), 1);
    assert_eq!(db.add_work_item("alpha"), 0);
    assert_eq!(db.add_work_item("beta"), 1);
    let work = db.get_available_work();
    assert_eq!(work.len(), 2);
    assert_eq!(work[0], ("alpha".to_owned(), 1));
    assert_eq!(work[1], ("beta".to_owned(), 2));
}

#[test]
fn get_set_current_work() {
    let t0 = at(1990, 1, 1, 9, 0);
    let mut db = empty_db(t0.day);
    db.add_work_item("test");
    assert_eq!(db.get_current_work(t0.day), None);
    let work_item = db.get_available_work().first().unwrap().1;
    db.set_current_work(t0, Some(work_item)).unwrap();
    let t1 = at(1990, 1, 1, 10, 0);
    assert_eq!(db.get_current_work(t1.day), Some(work_item));
}

#[test]
fn shutdown() {
    let t0 = at(1990, 1, 1, 9, 0);
    let mut db = empty_db(t0.day);
    db.add_work_item("test");
    let work_item = Some(db.get_available_work().first().unwrap().1);
    db.set_current_work(t0, work_item).unwrap();
    let start_time = t0;
    let end_time = at(1990, 1, 1, 10, 0);
    db.shutdown(end_time);
    db.add_work_end_at_shutdown(t0.day); // Same day. Should do nothing
    let today = db.get_work_on_date(t0.day);
    assert_eq!(today, vec![Event { time: start_time, work_item }]);
    db.add_work_end_at_shutdown(t0.day + 1); // Next day. Should add a stop marker
    let today = db.get_work_on_date(t0.day);
    assert_eq!(
        today,
        vec![
            Event { time: start_time, work_item },
            Event { time: end_time, work_item: None },
        ]
    );
    db.shutdown(at(1990, 1, 1, 13, 0));
    db.add_work_end_at_shutdown(t0.day + 1); // Already a stop at day end. Should do nothing
    let today = db.get_work_on_date(t0.day);
    assert_eq!(
        today,
        vec![
            Event { time: start_time, work_item },
            Event { time: end_time, work_item: None },
        ]
    );
}

#[test]
fn recovery_at_open_closes_stale_day() {
    let t0 = at(1990, 1, 1, 9, 0);
    let end = at(1990, 1, 1, 17, 0);
    let mut db = empty_db(t0.day);
    db.add_work_item("test");
    let item = Some(db.get_available_work().first().unwrap().1);
    db.set_current_work(t0, item).unwrap();
    db.shutdown(end);
    // Reopen the next day from the persisted rows: the stale day closes.
    let db2 = Database::open(
        db.all_items().clone(),
        db.all_sessions().clone(),
        db.all_expected().clone(),
        Some(7 * 3600),
        Some(end),
        t0.day + 1,
    )
    .unwrap();
    assert_eq!(
        db2.get_work_on_date(t0.day),
        vec![
            Event { time: t0, work_item: item },
            Event { time: end, work_item: None },
        ]
    );
}

#[test]
fn expected_time_round_trip() {
    let d = day_of(2023, 6, 15);
    let mut db = empty_db(d);
    db.set_expected_time(d, 12345);
    assert_eq!(db.get_expected_work(d), Some(12345));
    db.set_expected_time(d, 54);
    assert_eq!(db.get_expected_work(d), Some(54));
    assert_eq!(db.get_expected_work(d + 1), None);
}

#[test]
fn set_current_work_rejects_unknown_item() {
    let t0 = at(1990, 1, 1, 9, 0);
    let mut db = empty_db(t0.day);
    assert_eq!(db.set_current_work(t0, Some(7)), Err(Error::MissingWorkItem));
    assert_eq!(db.get_work_on_date(t0.day), vec![]);
}

#[test]
fn open_rejects_malformed_rows() {
    let t0 = at(1990, 1, 1, 9, 0);
    let out_of_order = vec![
        Event { time: at(1990, 1, 1, 10, 0), work_item: None },
        Event { time: t0, work_item: None },
    ];
    assert!(matches!(
        Database::open(Vec::new(), out_of_order, Vec::new(), None, None, t0.day),
        Err(Error::InvalidData)
    ));
    let dangling = vec![Event { time: t0, work_item: Some(4) }];
    assert!(matches!(
        Database::open(Vec::new(), dangling, Vec::new(), None, None, t0.day),
        Err(Error::InvalidData)
    ));
    let duplicate_date = vec![(t0.day, 3600), (t0.day, 7200)];
    assert!(matches!(
        Database::open(Vec::new(), Vec::new(), duplicate_date, None, None, t0.day),
        Err(Error::InvalidData)
    ));
}

#[test]
fn upsert_overwrites_same_timestamp() {
    let t0 = at(1990, 1, 1, 9, 0);
    let mut db = empty_db(t0.day);
    db.add_work_item("one");
    db.add_work_item("two");
    db.set_current_work(t0, Some(1)).unwrap();
    db.set_current_work(t0, Some(2)).unwrap();
    assert_eq!(
        db.get_work_on_date(t0.day),
        vec![Event { time: t0, work_item: Some(2) }]
    );
}

#[test]
fn get_kv_reads_configuration() {
    let end = at(1990, 1, 2, 18, 0);
    let mut db = empty_db(end.day);
    assert_eq!(db.get_kv("default_time"), Some(7 * 3600));
    assert_eq!(db.get_kv("shutdown"), None);
    db.shutdown(end);
    assert_eq!(db.get_kv("shutdown"), Some(end.secs));
    assert_eq!(db.get_kv("account_start"), None);
}

#[test]
fn date_range_walks_half_open() {
    let mut r = DateRange::new(5, 8);
    assert_eq!(r.next(), Some(5));
    assert_eq!(r.next(), Some(6));
    assert_eq!(r.next(), Some(7));
    assert_eq!(r.next(), None);
    let mut empty = DateRange::new(3, 3);
    assert_eq!(empty.next(), None);
}

#[test]
fn instant_of_timestamp_keeps_the_second() {
    let t = at(2001, 9, 9, 1, 46);
    let i = instant_of_timestamp(t.secs);
    assert_eq!(i.secs, t.secs);
    // The local day lies within one calendar day of the UTC day.
    assert!((i.day - t.day).abs() <= 1);
}

#[test]
fn hidden_items_stay_referencable() {
    let t0 = at(1990, 1, 1, 9, 0);
    let items = vec![WorkItem {
        id: 3,
        name: "retired".to_owned(),
        description: Some("no longer offered".to_owned()),
        visible: false,
    }];
    let mut db = Database::open(items, Vec::new(), Vec::new(), None, None, t0.day).unwrap();
    // A hidden item leaves the "available work" listing ...
    assert_eq!(db.get_available_work(), vec![]);
    // ... but historical sessions may still reference it.
    db.set_current_work(t0, Some(3)).unwrap();
    assert_eq!(db.get_current_work(t0.day), Some(3));
}

#[test]
fn open_keeps_stored_rows() {
    let d = day_of(2022, 3, 4);
    let items = vec![WorkItem {
        id: 9,
        name: "kept".to_owned(),
        description: None,
        visible: true,
    }];
    let db = Database::open(items, Vec::new(), vec![(d, 600)], Some(3600), None, d).unwrap();
    assert_eq!(db.get_available_work(), vec![("kept".to_owned(), 9)]);
    assert_eq!(db.get_expected_work(d), Some(600));
    assert_eq!(db.get_kv("default_time"), Some(3600));
}
