use wl::{Date, WlError};

#[test]
fn test_parse_dates() {
    let test_cases = [
        // CE dates
        ("CE 2023", (2023, 0, 0)),
        ("CE 2023-12", (2023, 12, 0)),
        ("CE 2023-12-25", (2023, 12, 25)),
        ("1-2-3", (1, 2, 3)),
        ("AD 2023", (2023, 0, 0)),
        // BCE dates
        ("BCE 44", (-44, 0, 0)),
        ("BC 44", (-44, 0, 0)),
        ("-44", (-44, 0, 0)),
        ("-44-12", (-44, 12, 0)),
        ("-44-12-25", (-44, 12, 25)),
    ];

    for (input, (year, month, day)) in test_cases {
        assert_eq!(
            Date::parse(input).unwrap().0,
            Date::new(year, month, day).unwrap()
        );
    }
}

#[test]
fn test_invalid_dates() {
    assert!(Date::parse("CE").is_err());
    assert!(Date::parse("CE 2023-13").is_err()); // Invalid month
    assert!(Date::parse("CE 2023-12-32").is_err()); // Invalid day
    assert!(Date::parse("CE 2023-01-01-01").is_err()); // hours???
    assert!(Date::parse("invalid").is_err());
}

#[test]
fn test_format_dates() {
    let test_cases = [
        // CE dates
        ((2023, 0, 0), " CE 2023      "),
        ((2023, 12, 0), " CE 2023-12   "),
        ((2023, 12, 25), " CE 2023-12-25"),
        ((1, 2, 3), " CE 0001-02-03"),
        // BCE dates
        ((-44, 0, 0), "BCE 0044      "),
        ((-44, 12, 0), "BCE 0044-12   "),
        ((-44, 12, 25), "BCE 0044-12-25"),
        ((-1, 0, 0), "BCE 0001      "),
    ];

    for ((year, month, day), expected) in test_cases {
        assert_eq!(Date::new(year, month, day).unwrap().format(true), expected);
    }
}

#[test]
fn test_date_next() {
    assert_eq!(
        Date::new(2023, 11, 30).unwrap().next(),
        Date::new(2023, 12, 0).unwrap()
    );
    assert_eq!(
        Date::new(2023, 12, 31).unwrap().next(),
        Date::new(2024, 0, 0).unwrap()
    );
    assert_eq!(
        Date::new(2023, 12, 0).unwrap().next(),
        Date::new(2024, 0, 0).unwrap()
    );
    assert_eq!(
        Date::new(2023, 0, 0).unwrap().next(),
        Date::new(2024, 0, 0).unwrap()
    );
}

#[test]
fn test_next_bce_and_month_lengths() {
    // the successor respects the fixed 28-day February
    assert_eq!(
        Date::new(2023, 2, 28).unwrap().next(),
        Date::new(2023, 3, 0).unwrap()
    );
    // BCE years advance toward zero
    assert_eq!(
        Date::new(-44, 0, 0).unwrap().next(),
        Date::new(-43, 0, 0).unwrap()
    );
    // a mid-month day just increments
    assert_eq!(
        Date::new(2023, 6, 15).unwrap().next(),
        Date::new(2023, 6, 16).unwrap()
    );
}

#[test]
fn test_round_trip_parse_of_formatted_dates() {
    let cases = [
        (2023, 0, 0),
        (2023, 12, 0),
        (2023, 12, 25),
        (1, 2, 3),
        (0, 0, 0),
        (9999, 12, 31),
        (-9999, 1, 1),
        (-44, 0, 0),
        (-44, 12, 25),
        (-1, 2, 28),
    ];
    for (year, month, day) in cases {
        let d = Date::new(year, month, day).unwrap();
        let text = d.format(true);
        let (parsed, consumed) = Date::parse(&text).unwrap();
        assert_eq!(parsed, d);
        assert_eq!(consumed, text.chars().count());
    }
}

#[test]
fn test_serialized_date_width() {
    let cases = [
        (2023, 0, 0),
        (2023, 12, 0),
        (2023, 12, 25),
        (1, 0, 0),
        (-9999, 12, 31),
        (-1, 0, 0),
        (0, 0, 0),
    ];
    for (year, month, day) in cases {
        let d = Date::new(year, month, day).unwrap();
        assert_eq!(d.format(false).chars().count(), 10);
        assert_eq!(d.format(true).chars().count(), 14);
    }
}

#[test]
fn test_error_kinds() {
    assert!(matches!(Date::parse("CE 2023-13"), Err(WlError::InvalidMonth(13))));
    assert!(matches!(Date::parse("CE 2023-12-32"), Err(WlError::InvalidDay(32))));
    assert!(matches!(Date::parse(""), Err(WlError::DateFormat)));
    assert!(matches!(Date::new(2023, 13, 1), Err(WlError::InvalidMonth(13))));
    assert!(matches!(Date::new(2023, 2, 29), Err(WlError::InvalidDay(29))));
}

#[test]
fn test_grammar_acceptance() {
    // the date may run straight into its trailing context
    let (d, consumed) = Date::parse("CE 2023 rest").unwrap();
    assert_eq!(d, Date::new(2023, 0, 0).unwrap());
    assert_eq!(consumed, 8);

    // a trailing non-space character rejects the whole parse
    assert!(Date::parse("20234x").is_err());
    assert!(Date::parse("2023x").is_err());

    // at most four year digits
    assert!(Date::parse("20234").is_err());
    assert_eq!(Date::parse("2023").unwrap().0, Date::new(2023, 0, 0).unwrap());

    // era token without a year is not a date
    assert!(Date::parse("BCE").is_err());

    // lower-case era tokens are accepted
    assert_eq!(Date::parse("bce 44").unwrap().0, Date::new(-44, 0, 0).unwrap());
    assert_eq!(Date::parse("ad 2023").unwrap().0, Date::new(2023, 0, 0).unwrap());

    // leading whitespace before the era is tolerated
    assert_eq!(Date::parse("  BC 44").unwrap().0, Date::new(-44, 0, 0).unwrap());

    // any Unicode whitespace ends a date, just as ASCII whitespace does
    let (d, consumed) = Date::parse("2023\u{00A0}note").unwrap();
    assert_eq!(d, Date::new(2023, 0, 0).unwrap());
    assert_eq!(consumed, 5);
}
