use habit_dates::CalendarDate;
use habit_dates::Dates;
use habit_dates::ParseError;

fn cd(year: i32, month: u32, day: u32) -> CalendarDate {
    CalendarDate { year, month, day }
}

#[test]
fn to_record_renders_exact_bytes() {
    let set = Dates { dates: vec![cd(2023, 1, 15), cd(2023, 12, 3)] };
    assert_eq!(set.to_record(), b"2023 1 15\n2023 12 3\n".to_vec());
}

#[test]
fn to_record_of_empty_set_is_empty() {
    assert_eq!(Dates::new().to_record(), Vec::<u8>::new());
}

#[test]
fn save_then_load_round_trips() {
    let set = Dates {
        dates: vec![cd(2022, 12, 5), cd(2023, 1, 2), cd(2023, 1, 2), cd(0, 1, 1)],
    };
    let bytes = set.to_record();
    let loaded = Dates::from_record(&bytes).unwrap();
    assert_eq!(loaded.dates, set.dates);
}

#[test]
fn negative_year_round_trips() {
    let loaded = Dates::from_record(b"-5 3 1\n").unwrap();
    assert_eq!(loaded.dates, vec![cd(-5, 3, 1)]);
    assert_eq!(loaded.to_record(), b"-5 3 1\n".to_vec());
}

#[test]
fn from_record_of_empty_file_is_empty_set() {
    let loaded = Dates::from_record(b"").unwrap();
    assert_eq!(loaded.len(), 0);
}

#[test]
fn from_record_accepts_missing_final_newline() {
    let loaded = Dates::from_record(b"2023 1 15\n2023 2 1").unwrap();
    assert_eq!(loaded.dates, vec![cd(2023, 1, 15), cd(2023, 2, 1)]);
}

#[test]
fn from_record_rejects_short_line() {
    assert!(matches!(Dates::from_record(b"2023 1\n"), Err(ParseError)));
}

#[test]
fn from_record_rejects_extra_token() {
    assert!(matches!(Dates::from_record(b"2023 1 15 4\n"), Err(ParseError)));
}

#[test]
fn from_record_rejects_non_integer_token() {
    assert!(matches!(Dates::from_record(b"abc 1 15\n"), Err(ParseError)));
}

#[test]
fn from_record_rejects_overflowing_token() {
    assert!(matches!(Dates::from_record(b"99999999999 1 1\n"), Err(ParseError)));
    assert!(matches!(Dates::from_record(b"2023 99999999999 1\n"), Err(ParseError)));
}

#[test]
fn from_record_rejects_blank_line() {
    assert!(matches!(Dates::from_record(b"\n2023 1 15\n"), Err(ParseError)));
}

#[test]
fn from_record_keeps_line_order() {
    let loaded = Dates::from_record(b"2023 2 1\n2021 5 5\n").unwrap();
    assert_eq!(loaded.dates, vec![cd(2023, 2, 1), cd(2021, 5, 5)]);
}

#[test]
fn year_extremes_round_trip() {
    let set = Dates { dates: vec![cd(i32::MAX, 1, 1), cd(i32::MIN, 12, 31)] };
    let bytes = set.to_record();
    let loaded = Dates::from_record(&bytes).unwrap();
    assert_eq!(loaded.dates, set.dates);
}
