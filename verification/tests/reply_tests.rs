use fxrates::date::CalendarDate;
use fxrates::error::Error;
use fxrates::reply::status_for;
use fxrates::reply::try_reply;
use fxrates::reply::validate_day_query;
use fxrates::reply::validate_history_range;
use fxrates::reply::Params;
use fxrates::snapshot::Currency;
use fxrates::snapshot::Date;
use fxrates::snapshot::RATE_ONE;

fn snap(value: &str, rates: &[(&str, f64)]) -> Date {
    Date {
        value: value.to_string(),
        currencies: rates
            .iter()
            .map(|(name, rate)| Currency {
                name: name.to_string(),
                rate: rate.to_bits(),
            })
            .collect(),
    }
}

#[test]
fn try_reply_returns_err_on_empty_dates() {
    let dates = Vec::new();
    let params = Params::default();
    let reply = try_reply(&dates, &params);
    assert!(reply.is_err());
}

#[test]
fn sort_currencies() {
    let mut currencies = Vec::new();
    currencies.push(Currency {
        name: "JPY".to_string(),
        rate: 0,
    });
    currencies.push(Currency {
        name: "RON".to_string(),
        rate: 0,
    });
    currencies.push(Currency {
        name: "USD".to_string(),
        rate: 0,
    });
    currencies.push(Currency {
        name: "CZK".to_string(),
        rate: 0,
    });
    currencies.push(Currency {
        name: "GBP".to_string(),
        rate: 0,
    });
    currencies.push(Currency {
        name: "CHF".to_string(),
        rate: 0,
    });
    currencies.push(Currency {
        name: "EUR".to_string(),
        rate: 0,
    });
    currencies.push(Currency {
        name: "RUB".to_string(),
        rate: 0,
    });
    fxrates::reply::sort_currencies(&mut currencies);
    assert_eq!(&currencies[0].name, "EUR");
    assert_eq!(&currencies[1].name, "USD");
    assert_eq!(&currencies[2].name, "GBP");
}

#[test]
fn try_reply_defaults_to_the_reference_base() {
    let dates = vec![snap("2019-07-22", &[("USD", 1.12), ("EUR", 1.0)])];
    let plan = try_reply(&dates, &Params::default()).unwrap();
    assert!(plan.single);
    assert_eq!(plan.base, "EUR");
    assert_eq!(plan.entries.len(), 1);
    assert_eq!(plan.entries[0].date, "2019-07-22");
    assert_eq!(plan.entries[0].base_rate, RATE_ONE);
    assert_eq!(plan.entries[0].rates.len(), 2);
}

#[test]
fn try_reply_multiple_days_shape() {
    let dates = vec![
        snap("2019-07-22", &[("USD", 1.12), ("EUR", 1.0)]),
        snap("2019-07-23", &[("USD", 1.13), ("EUR", 1.0)]),
    ];
    let plan = try_reply(&dates, &Params::default()).unwrap();
    assert!(!plan.single);
    assert_eq!(plan.entries.len(), 2);
    assert_eq!(plan.entries[1].date, "2019-07-23");
}

#[test]
fn try_reply_filters_by_symbols() {
    let dates = vec![snap(
        "2019-07-22",
        &[("USD", 1.12), ("JPY", 120.9), ("GBP", 0.89), ("EUR", 1.0)],
    )];
    let params = Params {
        symbols: Some("USD,JPY".to_string()),
        ..Params::default()
    };
    let plan = try_reply(&dates, &params).unwrap();
    assert_eq!(plan.entries[0].rates.len(), 2);
    assert_eq!(plan.entries[0].rates[0].name, "USD");
    assert_eq!(plan.entries[0].rates[1].name, "JPY");
}

#[test]
fn try_reply_rejects_unknown_symbols() {
    let dates = vec![snap("2019-07-22", &[("USD", 1.12), ("EUR", 1.0)])];
    let params = Params {
        symbols: Some("USD,XXX".to_string()),
        ..Params::default()
    };
    assert_eq!(try_reply(&dates, &params).unwrap_err(), Error::InvalidSymbol);
}

#[test]
fn try_reply_rebases_on_a_present_currency() {
    let gbp = 0.89_f64;
    let dates = vec![snap("2019-07-22", &[("USD", 1.12), ("GBP", gbp), ("EUR", 1.0)])];
    let params = Params {
        base: Some("GBP".to_string()),
        ..Params::default()
    };
    let plan = try_reply(&dates, &params).unwrap();
    assert_eq!(plan.base, "GBP");
    assert_eq!(f64::from_bits(plan.entries[0].base_rate), gbp);
}

#[test]
fn try_reply_rejects_a_missing_base() {
    let dates = vec![snap("2019-07-22", &[("USD", 1.12), ("EUR", 1.0)])];
    let params = Params {
        base: Some("XXX".to_string()),
        ..Params::default()
    };
    assert_eq!(try_reply(&dates, &params).unwrap_err(), Error::InvalidBase);
}

#[test]
fn history_range_validation() {
    assert_eq!(
        validate_history_range(&None, &Some("1999-01-04".to_string())),
        Err(Error::MissingDateBoundaries)
    );
    assert_eq!(
        validate_history_range(&Some("nonsense".to_string()), &Some("1999-01-04".to_string())),
        Err(Error::InvalidDateFormat)
    );
    assert_eq!(
        validate_history_range(
            &Some("1998-12-31".to_string()),
            &Some("1999-01-04".to_string())
        ),
        Err(Error::PastDate)
    );
    assert_eq!(
        validate_history_range(
            &Some("2000-01-04".to_string()),
            &Some("1999-01-04".to_string())
        ),
        Err(Error::InvalidDateRange)
    );
    let (s, e) = validate_history_range(
        &Some("1999-01-04".to_string()),
        &Some("2000-01-04".to_string()),
    )
    .unwrap();
    assert_eq!(s, CalendarDate { year: 1999, month: 1, day: 4 });
    assert_eq!(e, CalendarDate { year: 2000, month: 1, day: 4 });
}

#[test]
fn history_range_error_precedence_on_multi_defect_queries() {
    // absent start wins over a malformed end
    assert_eq!(
        validate_history_range(&None, &Some("nonsense".to_string())),
        Err(Error::MissingDateBoundaries)
    );
    // a malformed start wins over a malformed end
    assert_eq!(
        validate_history_range(&Some("bad".to_string()), &Some("worse".to_string())),
        Err(Error::InvalidDateFormat)
    );
    // a pre-series start wins over a reversed range
    assert_eq!(
        validate_history_range(
            &Some("1998-12-31".to_string()),
            &Some("1998-01-01".to_string())
        ),
        Err(Error::PastDate)
    );
}

#[test]
fn day_query_validation() {
    assert_eq!(validate_day_query("1998-12-31"), Err(Error::PastDate));
    assert_eq!(validate_day_query("99-01-04"), Err(Error::InvalidDateFormat));
    assert_eq!(
        validate_day_query("1999-01-04"),
        Ok(CalendarDate { year: 1999, month: 1, day: 4 })
    );
}

#[test]
fn status_codes_by_error() {
    assert_eq!(status_for(&Error::InvalidDateFormat), 400);
    assert_eq!(status_for(&Error::PastDate), 400);
    assert_eq!(status_for(&Error::InvalidSymbol), 400);
    assert_eq!(status_for(&Error::MissingDateBoundaries), 400);
    assert_eq!(status_for(&Error::InvalidDateRange), 400);
    assert_eq!(status_for(&Error::InvalidBase), 400);
    assert_eq!(status_for(&Error::EmpyDataset), 400);
    assert_eq!(status_for(&Error::DateNotFound), 404);
    assert_eq!(status_for(&Error::StoreIO), 500);
    assert_eq!(status_for(&Error::StoreCorrupt), 500);
    assert_eq!(status_for(&Error::SourceRegressed), 500);
}

#[test]
fn error_messages() {
    assert_eq!(
        Error::InvalidSymbol.message(),
        "symbol list contains invalid symbols"
    );
    assert_eq!(
        Error::MissingDateBoundaries.message(),
        "both start_at and end_at parameters must be present"
    );
}
