use wl::{Date, Event, WlError};

#[test]
fn test_parse_events() {
    let test_cases = [
        ("CE 2023 Some event", (2023, 0, 0), "Some event"),
        (" CE 2023 Some event", (2023, 0, 0), "Some event"),
        ("2023-12-25 Christmas Day", (2023, 12, 25), "Christmas Day"),
        ("-44 et tu", (-44, 0, 0), "et tu"),
    ];

    for (input, (year, month, day), desc) in test_cases {
        assert_eq!(
            Event::parse(input).unwrap(),
            Event::new(Date::new(year, month, day).unwrap(), desc.to_string())
        );
    }
}

#[test]
fn test_invalid_events() {
    assert!(Event::parse("").is_err());
    assert!(Event::parse("Invalid date Some event").is_err());
    assert!(Event::parse("CE 2023-13-01 Invalid month").is_err());
}

#[test]
fn test_event_error_kinds() {
    assert!(matches!(Event::parse(""), Err(WlError::DateFormat)));
    assert!(matches!(
        Event::parse("CE 2023-13-01 Invalid month"),
        Err(WlError::InvalidMonth(13))
    ));
    assert!(matches!(
        Event::parse("CE 2023-02-31 Invalid day"),
        Err(WlError::InvalidDay(31))
    ));
}

#[test]
fn test_format_for_file() {
    let e = Event::new(Date::new(-44, 12, 25).unwrap(), "et tu".to_string());
    assert_eq!(e.format_for_file(), "BCE 0044-12-25 et tu");

    let e = Event::new(Date::new(2023, 0, 0).unwrap(), "quiet year".to_string());
    let line = e.format_for_file();
    assert_eq!(line, " CE 2023       quiet year");
    // the date field keeps its full width whatever the precision
    assert_eq!(line.chars().take(14).count(), 14);
}

#[test]
fn test_format_for_display() {
    let e = Event::new(Date::new(-44, 0, 0).unwrap(), "et tu".to_string());
    assert_eq!(
        e.format_for_display(true),
        "\u{001B}[34mBCE 0044      \u{001B}[0m et tu"
    );
    assert_eq!(
        e.format_for_display(false),
        "\u{001B}[34m0044      \u{001B}[0m et tu"
    );
}

#[test]
fn test_event_round_trip_through_file_form() {
    let original = Event::new(Date::new(-330, 10, 1).unwrap(), "Gaugamela".to_string());
    let reparsed = Event::parse(&original.format_for_file()).unwrap();
    assert_eq!(reparsed, original);
}
