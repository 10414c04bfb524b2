use fxrates::date::CalendarDate;
use fxrates::error::Error;
use fxrates::snapshot::Currency;
use fxrates::snapshot::Date;
use fxrates::snapshot::RATE_ONE;
use fxrates::snapshot::with_self_rate;
use fxrates::store::Db;
use fxrates::sync::bootstrap_store;
use fxrates::sync::plan_tick;
use fxrates::sync::reconcile_commit;
use fxrates::sync::TickPlan;

fn open_temp() -> (tempfile::TempDir, Db) {
    let dir = tempfile::tempdir().unwrap();
    let path = dir.path().join("db");
    let db = Db::open(path.to_str().unwrap()).unwrap();
    (dir, db)
}

fn snap(value: &str, rates: &[(&str, f64)]) -> Date {
    Date {
        value: value.to_string(),
        currencies: rates
            .iter()
            .map(|(name, rate)| Currency {
                name: name.to_string(),
                rate: rate.to_bits(),
            })
            .collect(),
    }
}

fn day(year: u16, month: u8, day: u8) -> CalendarDate {
    CalendarDate { year, month, day }
}

#[test]
fn put_get() {
    let (_dir, mut db) = open_temp();
    let date = Date {
        value: "1999-01-04".to_string(),
        currencies: Vec::new(),
    };
    db.put(&date).unwrap();
    db.flush().unwrap();
    let date2 = db.get(&day(1999, 1, 4)).unwrap().unwrap();
    assert_eq!(date, date2);
}

#[test]
fn get_current_rates() {
    let (_dir, mut db) = open_temp();
    let date = Date {
        value: "1999-01-04".to_string(),
        currencies: Vec::new(),
    };
    db.put(&date).unwrap();
    db.set_current(&day(1999, 1, 4)).unwrap();
    db.flush().unwrap();
    let current = db.get_current_rates().unwrap();
    assert_eq!(date, current);
}

#[test]
fn get_day_rates() {
    let (_dir, mut db) = open_temp();
    let date = Date {
        value: "1999-01-04".to_string(),
        currencies: Vec::new(),
    };
    db.put(&date).unwrap();
    db.flush().unwrap();
    let current = db.get_day_rates("1999-01-04").unwrap().unwrap();
    assert_eq!(date, current);
}

#[test]
fn get_range_rates() {
    let (_dir, mut db) = open_temp();
    for value in ["1999-01-04", "2003-01-04", "2012-01-04"] {
        let date = Date {
            value: value.to_string(),
            currencies: Vec::new(),
        };
        db.put(&date).unwrap();
    }
    db.flush().unwrap();
    let begining = day(1999, 1, 4);
    let end = day(2012, 1, 4);
    let dates = db.get_range_rates(&begining, &end).unwrap();
    assert_eq!(dates.len(), 3);
    assert_eq!(dates[0].value, "1999-01-04");
    assert_eq!(dates[1].value, "2003-01-04");
    assert_eq!(dates[2].value, "2012-01-04");
}

#[test]
fn range_empty_window_is_empty() {
    let (_dir, mut db) = open_temp();
    for value in ["1999-01-04", "2003-01-04", "2012-01-04"] {
        db.put(&snap(value, &[("USD", 1.1)])).unwrap();
    }
    db.flush().unwrap();
    let dates = db
        .get_range_rates(&day(2000, 1, 1), &day(2000, 12, 31))
        .unwrap();
    assert!(dates.is_empty());
}

#[test]
fn put_is_idempotent() {
    let (_dir, mut db) = open_temp();
    let s = snap("2019-07-22", &[("USD", 1.12), ("JPY", 120.9)]);
    db.put(&s).unwrap();
    let after_once = db.get(&day(2019, 7, 22)).unwrap().unwrap();
    let count_once = db
        .get_range_rates(&day(1970, 1, 1), &day(9999, 12, 31))
        .unwrap()
        .len();
    db.put(&s).unwrap();
    let after_twice = db.get(&day(2019, 7, 22)).unwrap().unwrap();
    let count_twice = db
        .get_range_rates(&day(1970, 1, 1), &day(9999, 12, 31))
        .unwrap()
        .len();
    assert_eq!(after_once, after_twice);
    assert_eq!(count_once, count_twice);
    assert_eq!(count_once, 1);
}

#[test]
fn bootstrap_sets_pointer_to_last_date() {
    let (_dir, mut db) = open_temp();
    let history = vec![
        snap("1999-01-04", &[("USD", 1.1789)]),
        snap("1999-01-05", &[("USD", 1.179)]),
        snap("1999-01-06", &[("USD", 1.1743)]),
    ];
    bootstrap_store(&mut db, &history).unwrap();
    let current = db.get_current_rates().unwrap();
    assert_eq!(current.value, "1999-01-06");
}

#[test]
fn committed_snapshots_quote_the_reference_currency_at_one() {
    let (_dir, mut db) = open_temp();
    // the remote payload does not quote EUR itself
    let history = vec![snap("1999-01-04", &[("USD", 1.1789), ("JPY", 133.73)])];
    bootstrap_store(&mut db, &history).unwrap();
    let stored = db.get(&day(1999, 1, 4)).unwrap().unwrap();
    let eur: Vec<&Currency> = stored
        .currencies
        .iter()
        .filter(|c| c.name == "EUR")
        .collect();
    assert_eq!(eur.len(), 1);
    assert_eq!(f64::from_bits(eur[0].rate), 1.0);
    assert_eq!(eur[0].rate, RATE_ONE);
}

#[test]
fn self_rate_injection_replaces_a_remote_quote() {
    let s = snap("1999-01-04", &[("EUR", 0.99), ("USD", 1.1789)]);
    let injected = with_self_rate(&s);
    let eur: Vec<&Currency> = injected
        .currencies
        .iter()
        .filter(|c| c.name == "EUR")
        .collect();
    assert_eq!(eur.len(), 1);
    assert_eq!(eur[0].rate, RATE_ONE);
    assert_eq!(injected.currencies.len(), 2);
    assert_eq!(injected.currencies[0].name, "USD");
}

#[test]
fn bootstrap_on_empty_remote_fails_and_writes_nothing() {
    let (_dir, mut db) = open_temp();
    let history: Vec<Date> = Vec::new();
    assert_eq!(
        bootstrap_store(&mut db, &history),
        Err(Error::SourceUnavailable)
    );
    assert!(db.get_current_rates().is_err());
    let all = db
        .get_range_rates(&day(1970, 1, 1), &day(9999, 12, 31))
        .unwrap();
    assert!(all.is_empty());
}

#[test]
fn reconciliation_noop_leaves_store_unchanged() {
    let (_dir, mut db) = open_temp();
    let history = vec![snap("1999-01-04", &[("USD", 1.1789)])];
    bootstrap_store(&mut db, &history).unwrap();

    let local = day(1999, 1, 4);
    assert_eq!(plan_tick(&local, &local), Ok(TickPlan::UpToDate));

    // even a window that only re-supplies old dates commits nothing
    let fetched = vec![snap("1999-01-04", &[("USD", 9.9)])];
    reconcile_commit(&mut db, &fetched).unwrap();
    let current = db.get_current_rates().unwrap();
    assert_eq!(current.value, "1999-01-04");
    let all = db
        .get_range_rates(&day(1970, 1, 1), &day(9999, 12, 31))
        .unwrap();
    assert_eq!(all.len(), 1);
    assert_eq!(f64::from_bits(all[0].currencies[0].rate), 1.1789);
}

#[test]
fn reconciliation_rejects_an_empty_window() {
    let (_dir, mut db) = open_temp();
    bootstrap_store(&mut db, &vec![snap("1999-01-04", &[("USD", 1.1789)])]).unwrap();
    let fetched: Vec<Date> = Vec::new();
    assert_eq!(
        reconcile_commit(&mut db, &fetched),
        Err(Error::SourceUnavailable)
    );
    // the store is untouched
    let current = db.get_current_rates().unwrap();
    assert_eq!(current.value, "1999-01-04");
    let all = db
        .get_range_rates(&day(1970, 1, 1), &day(9999, 12, 31))
        .unwrap();
    assert_eq!(all.len(), 1);
}

#[test]
fn reconciliation_regression_is_rejected() {
    let remote = day(1999, 1, 3);
    let local = day(1999, 1, 4);
    assert_eq!(plan_tick(&remote, &local), Err(Error::SourceRegressed));
}

#[test]
fn reconciliation_commits_only_newer_dates_and_advances_pointer() {
    let (_dir, mut db) = open_temp();
    bootstrap_store(&mut db, &vec![snap("1999-01-04", &[("USD", 1.1789)])]).unwrap();

    let fetched = vec![
        snap("1999-01-04", &[("USD", 9.9)]),
        snap("1999-01-05", &[("USD", 1.179)]),
        snap("1999-01-06", &[("USD", 1.1743)]),
    ];
    reconcile_commit(&mut db, &fetched).unwrap();

    let current = db.get_current_rates().unwrap();
    assert_eq!(current.value, "1999-01-06");
    let all = db
        .get_range_rates(&day(1970, 1, 1), &day(9999, 12, 31))
        .unwrap();
    assert_eq!(all.len(), 3);
    // the overlapping date kept its original rates
    assert_eq!(f64::from_bits(all[0].currencies[0].rate), 1.1789);
}

#[test]
fn plan_tick_picks_the_fetch_tier_by_gap() {
    let local = day(1999, 1, 4);
    assert_eq!(plan_tick(&day(1999, 1, 5), &local), Ok(TickPlan::FetchDaily));
    assert_eq!(
        plan_tick(&day(1999, 1, 6), &local),
        Ok(TickPlan::FetchLast90)
    );
    assert_eq!(
        plan_tick(&day(1999, 4, 4), &local),
        Ok(TickPlan::FetchLast90)
    );
    assert_eq!(plan_tick(&day(1999, 4, 5), &local), Ok(TickPlan::FetchFull));
    assert_eq!(plan_tick(&day(2000, 1, 4), &local), Ok(TickPlan::FetchFull));
}

#[test]
fn fresh_store_has_no_current_pointer() {
    let (_dir, db) = open_temp();
    assert_eq!(db.get_current_rates().unwrap_err(), Error::StoreCorrupt);
    assert_eq!(db.has_current_pointer(), Ok(false));
}

#[test]
fn bootstrapped_store_has_a_current_pointer() {
    let (_dir, mut db) = open_temp();
    bootstrap_store(&mut db, &vec![snap("1999-01-04", &[("USD", 1.1789)])]).unwrap();
    assert_eq!(db.has_current_pointer(), Ok(true));
}

#[test]
fn bootstrap_fails_with_source_unavailable_only_on_empty_history() {
    let (_dir, mut db) = open_temp();
    let ok = bootstrap_store(&mut db, &vec![snap("1999-01-04", &[("USD", 1.1789)])]);
    assert!(ok != Err(Error::SourceUnavailable));
    assert!(ok.is_ok());
}
