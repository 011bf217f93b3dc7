use wl::{Date, Event, WorldLine};

fn event(year: i32, month: u8, day: u8, desc: &str) -> Event {
    Event::new(Date::new(year, month, day).unwrap(), desc.to_string())
}

#[test]
fn test_add_event_increasing_dates() {
    let mut w = WorldLine::new();
    for (i, year) in [100, 200, 300, 400].into_iter().enumerate() {
        let idx = w.add_event(event(year, 0, 0, "e"));
        assert_eq!(idx, i);
    }
    assert_eq!(w.len(), 4);
    for i in 0..3 {
        let a = w.get(i).date;
        let b = w.get(i + 1).date;
        assert!(a.year <= b.year);
    }
}

#[test]
fn test_add_event_sorted_insertion() {
    let mut w = WorldLine::new();
    assert_eq!(w.add_event(event(200, 0, 0, "b")), 0);
    assert_eq!(w.add_event(event(100, 0, 0, "a")), 0);
    assert_eq!(w.add_event(event(300, 0, 0, "d")), 2);
    assert_eq!(w.add_event(event(250, 6, 15, "c")), 2);
    assert_eq!(w.len(), 4);
    assert_eq!(w.get(0).date, Date::new(100, 0, 0).unwrap());
    assert_eq!(w.get(1).date, Date::new(200, 0, 0).unwrap());
    assert_eq!(w.get(2).date, Date::new(250, 6, 15).unwrap());
    assert_eq!(w.get(3).date, Date::new(300, 0, 0).unwrap());
}

#[test]
fn test_first_geq_and_last_before_agree() {
    let mut w = WorldLine::new();
    w.add_event(event(2022, 0, 0, "before"));
    w.add_event(event(2023, 5, 15, "inside"));
    w.add_event(event(2024, 0, 0, "after"));
    for probe in [
        Date::new(2021, 0, 0).unwrap(),
        Date::new(2023, 0, 0).unwrap(),
        Date::new(2023, 5, 15).unwrap(),
        Date::new(2025, 0, 0).unwrap(),
    ] {
        assert_eq!(w.first_geq(&probe), w.last_before(&probe));
    }
}

#[test]
fn test_ordering_excludes_earlier_dates() {
    let mut w = WorldLine::new();
    w.add_event(event(2022, 3, 1, "a"));
    w.add_event(event(2022, 3, 1, "a again"));
    w.add_event(event(2022, 8, 9, "b"));
    // every event dated a sits strictly before the partition point of b
    let cut = w.first_geq(&Date::new(2022, 8, 9).unwrap());
    assert_eq!(cut, 2);
    for i in cut..w.len() {
        assert_ne!(w.get(i).date, Date::new(2022, 3, 1).unwrap());
    }
}

#[test]
fn test_print_date_range_inclusive() {
    let mut w = WorldLine::new();
    w.add_event(event(2022, 1, 1, "too early"));
    w.add_event(event(2023, 2, 2, "in range low"));
    w.add_event(event(2023, 9, 9, "in range high"));
    w.add_event(event(2024, 1, 1, "too late"));
    let lines = w.print_date_range(
        Date::new(2023, 2, 2).unwrap(),
        Date::new(2023, 9, 9).unwrap(),
    );
    assert_eq!(lines.len(), 2);
    assert!(lines[0].contains("in range low"));
    assert!(lines[1].contains("in range high"));
}

#[test]
fn test_print_implicit_date_range_expands_year() {
    let mut w = WorldLine::new();
    w.add_event(event(1993, 12, 31, "before"));
    w.add_event(event(1994, 1, 1, "first"));
    w.add_event(event(1994, 5, 15, "middle"));
    w.add_event(event(1994, 12, 31, "last"));
    w.add_event(event(1995, 1, 1, "after"));
    let lines = w.print_implicit_date_range(Date::new(1994, 0, 0).unwrap());
    assert_eq!(lines.len(), 3);
    assert!(lines[0].contains("first"));
    assert!(lines[2].contains("last"));
}

#[test]
fn test_print_implicit_date_range_expands_month() {
    let mut w = WorldLine::new();
    w.add_event(event(1994, 4, 30, "before"));
    w.add_event(event(1994, 5, 1, "first of May"));
    w.add_event(event(1994, 5, 31, "last of May"));
    w.add_event(event(1994, 6, 1, "after"));
    let lines = w.print_implicit_date_range(Date::new(1994, 5, 0).unwrap());
    assert_eq!(lines.len(), 2);
    assert!(lines[0].contains("first of May"));
    assert!(lines[1].contains("last of May"));
}

#[test]
fn test_print_all_era_display() {
    let mut w = WorldLine::new();
    w.add_event(event(-44, 3, 15, "Ides of March"));
    w.add_event(event(2023, 0, 0, "modern times"));
    // the batch runs from a BCE date to a CE one, so the era is shown
    let lines = w.print_all();
    assert_eq!(lines.len(), 2);
    assert!(lines[0].contains("BCE 0044-03-15"));
    assert!(lines[1].contains(" CE 2023"));
}

#[test]
fn test_print_range_without_era() {
    let mut w = WorldLine::new();
    w.add_event(event(2022, 1, 1, "a"));
    w.add_event(event(2023, 1, 1, "b"));
    let lines = w.print_range(0, 2);
    assert_eq!(lines.len(), 2);
    assert!(!lines[0].contains("CE"));
    assert!(lines[0].contains("2022-01-01"));
}

#[test]
fn test_query_matches_case_insensitively() {
    let mut w = WorldLine::new();
    w.add_event(event(-44, 0, 0, "Assassination of Julius Caesar"));
    let lines = w.query_and_print("assassinat");
    assert_eq!(lines.len(), 1);
    // the matching date is BCE, so the era is rendered
    assert!(lines[0].contains("BCE 0044"));
    assert!(lines[0].contains("Assassination of Julius Caesar"));
}

#[test]
fn test_query_lowercases_both_sides() {
    let mut w = WorldLine::new();
    w.add_event(event(2023, 0, 0, "assassination attempt"));
    // an upper-case query only matches if both sides are folded
    let lines = w.query_and_print("ASSASSINAT");
    assert_eq!(lines.len(), 1);
    assert!(w.query_and_print("xyzzy").is_empty());
}

#[test]
fn test_query_era_accumulates() {
    let mut w = WorldLine::new();
    w.add_event(event(-44, 0, 0, "old match"));
    w.add_event(event(2023, 0, 0, "new match"));
    let lines = w.query_and_print("match");
    assert_eq!(lines.len(), 2);
    // once a BCE event matched, later matches show the era too
    assert!(lines[0].contains("BCE 0044"));
    assert!(lines[1].contains(" CE 2023"));
}

#[test]
fn test_from_lines_skips_empty_lines() {
    let lines = vec![
        "BCE 0044-03-15 Ides of March".to_string(),
        String::new(),
        " CE 2023       a quiet year".to_string(),
    ];
    let w = WorldLine::from_lines(&lines).unwrap();
    assert_eq!(w.len(), 2);
    assert_eq!(w.get(0).date, Date::new(-44, 3, 15).unwrap());
    assert_eq!(w.get(0).description, "Ides of March");
    assert_eq!(w.get(1).description, "a quiet year");
}

#[test]
fn test_from_lines_reports_first_error() {
    let lines = vec![
        " CE 2023 fine".to_string(),
        "not a date".to_string(),
    ];
    assert!(WorldLine::from_lines(&lines).is_err());
}

#[test]
fn test_build_file_round_trip() {
    let mut w = WorldLine::new();
    w.add_event(event(-44, 3, 15, "Ides of March"));
    w.add_event(event(2023, 12, 25, "Christmas"));
    let contents = w.build_file("");
    assert_eq!(
        contents,
        "BCE 0044-03-15 Ides of March\n CE 2023-12-25 Christmas\n"
    );
    let lines: Vec<String> = contents.lines().map(|l| l.to_string()).collect();
    let reloaded = WorldLine::from_lines(&lines).unwrap();
    assert_eq!(reloaded.len(), 2);
    assert_eq!(reloaded.get(0).description, "Ides of March");
    assert_eq!(reloaded.get(1).date, Date::new(2023, 12, 25).unwrap());
}

#[test]
fn test_build_file_with_separator() {
    let mut w = WorldLine::new();
    w.add_event(event(2023, 0, 0, "flashcard"));
    // the tab stands in place of the separating space, right after the
    // 14-character date block
    let contents = w.build_file("\t");
    assert_eq!(contents, " CE 2023      \tflashcard\n");
    assert_eq!(contents.chars().nth(14), Some('\t'));
}

#[test]
fn test_build_anki_file() {
    let mut w = WorldLine::new();
    w.add_event(event(-44, 3, 15, "Ides of March"));
    assert_eq!(
        w.build_anki_file(),
        "#separator:Tab\nBCE 0044-03-15\tIdes of March\n"
    );
}
