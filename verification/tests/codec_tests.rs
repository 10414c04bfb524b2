use fxrates::codec::date_as_key;
use fxrates::codec::decode_date_key;
use fxrates::codec::encode_date_key;
use fxrates::date::CalendarDate;
use fxrates::date::parse_iso_date;
use fxrates::error::Error;
use fxrates::snapshot::Date;

fn day(year: u16, month: u8, day: u8) -> CalendarDate {
    CalendarDate { year, month, day }
}

#[test]
fn _date_as_key() {
    let key = date_as_key("1999-01-04").unwrap();
    assert_eq!(key, vec![0, 0, 0, 0, 54, 144, 4, 128]);
}

#[test]
fn test_value_as_date() {
    let date = Date {
        value: "1999-01-04".to_string(),
        currencies: Vec::new(),
    };
    let ddate = date.value_as_date().unwrap();
    assert_eq!("1999-01-04", &ddate.to_string());
}

#[test]
fn value_as_date() {
    let date = Date {
        value: "1999-01-04".to_string(),
        currencies: Vec::new(),
    };
    let ddate = date.value_as_date().unwrap();
    assert_eq!("1999-01-04", &ddate.to_string());
}

#[test]
fn key_order_follows_calendar_order() {
    let pairs = [
        (day(1999, 1, 4), day(1999, 1, 5)),
        (day(1999, 1, 31), day(1999, 2, 1)),
        (day(1999, 12, 31), day(2000, 1, 1)),
        (day(2003, 1, 4), day(2012, 1, 4)),
        (day(1970, 1, 1), day(9999, 12, 31)),
        (day(2024, 2, 28), day(2024, 2, 29)),
    ];
    for (a, b) in pairs.iter() {
        let ka = encode_date_key(a);
        let kb = encode_date_key(b);
        assert!(ka < kb, "keys must sort like dates: {a:?} {b:?}");
        assert_eq!(ka.len(), 8);
        assert_eq!(kb.len(), 8);
    }
}

#[test]
fn key_round_trip() {
    let dates = [
        day(1970, 1, 1),
        day(1999, 1, 4),
        day(2000, 2, 29),
        day(2024, 2, 29),
        day(2012, 1, 4),
        day(9999, 12, 31),
    ];
    for d in dates.iter() {
        let key = encode_date_key(d);
        let back = decode_date_key(&key).unwrap();
        assert_eq!(&back, d);
    }
}

#[test]
fn decode_rejects_malformed_keys() {
    // wrong length: the sentinel's own bytes
    assert_eq!(decode_date_key(b"current"), Err(Error::MalformedKey));
    // right length, but not a midnight timestamp
    assert_eq!(
        decode_date_key(&[0, 0, 0, 0, 54, 144, 4, 129]),
        Err(Error::MalformedKey)
    );
    // beyond the last representable year
    assert_eq!(
        decode_date_key(&[0xff, 0xff, 0xff, 0xff, 0xff, 0xff, 0xff, 0xff]),
        Err(Error::MalformedKey)
    );
    // empty
    assert_eq!(decode_date_key(&[]), Err(Error::MalformedKey));
}

#[test]
fn parse_iso_accepts_only_canonical_dates() {
    assert_eq!(parse_iso_date("1999-01-04"), Some(day(1999, 1, 4)));
    assert_eq!(parse_iso_date("2000-02-29"), Some(day(2000, 2, 29)));
    assert_eq!(parse_iso_date("1999-1-4"), None);
    assert_eq!(parse_iso_date("19990104"), None);
    assert_eq!(parse_iso_date("1999-02-29"), None);
    assert_eq!(parse_iso_date("2100-02-29"), None);
    assert_eq!(parse_iso_date("1969-12-31"), None);
    assert_eq!(parse_iso_date("1999-01-04 "), None);
    assert_eq!(parse_iso_date(""), None);
}

#[test]
fn date_renders_canonically() {
    assert_eq!(day(2024, 2, 29).to_string(), "2024-02-29");
    assert_eq!(day(1999, 1, 4).to_string(), "1999-01-04");
    assert_eq!(day(9999, 12, 31).to_string(), "9999-12-31");
}

#[test]
fn date_as_key_rejects_bad_text() {
    assert_eq!(date_as_key("not a date"), Err(Error::InvalidDateFormat));
    assert_eq!(date_as_key("1999-13-01"), Err(Error::InvalidDateFormat));
}
