use habit_dates::CalendarDate;
use habit_dates::Dates;
use habit_dates::IndexError;
use habit_dates::ValidationError;

fn cd(year: i32, month: u32, day: u32) -> CalendarDate {
    CalendarDate { year, month, day }
}

#[test]
fn sort_orders_ascending() {
    let mut set = Dates {
        dates: vec![cd(2023, 3, 10), cd(2021, 12, 31), cd(2023, 3, 2), cd(2022, 1, 1)],
    };
    set.sort_by_date();
    assert_eq!(
        set.dates,
        vec![cd(2021, 12, 31), cd(2022, 1, 1), cd(2023, 3, 2), cd(2023, 3, 10)]
    );
}

#[test]
fn sort_is_idempotent() {
    let mut set = Dates {
        dates: vec![cd(2023, 5, 1), cd(2023, 5, 1), cd(2020, 2, 2), cd(2023, 4, 30)],
    };
    set.sort_by_date();
    let once = set.dates.clone();
    set.sort_by_date();
    assert_eq!(set.dates, once);
    for w in set.dates.windows(2) {
        let a = w[0];
        let b = w[1];
        assert!((a.year, a.month, a.day) <= (b.year, b.month, b.day));
    }
}

#[test]
fn sort_keeps_duplicates() {
    let mut set = Dates { dates: vec![cd(2023, 5, 1), cd(2023, 5, 1)] };
    set.sort_by_date();
    assert_eq!(set.dates, vec![cd(2023, 5, 1), cd(2023, 5, 1)]);
}

#[test]
fn new_set_is_empty() {
    let set = Dates::new();
    assert_eq!(set.len(), 0);
}

#[test]
fn add_appends_valid_date() {
    let mut set = Dates::new();
    assert_eq!(set.add(cd(2023, 1, 15)), Ok(()));
    assert_eq!(set.dates, vec![cd(2023, 1, 15)]);
}

#[test]
fn add_rejects_month_out_of_range() {
    let mut set = Dates::new();
    set.add(cd(2023, 1, 15)).unwrap();
    assert_eq!(set.add(cd(2023, 13, 1)), Err(ValidationError::MonthRange));
    assert_eq!(set.add(cd(2023, 0, 1)), Err(ValidationError::MonthRange));
    assert_eq!(set.dates, vec![cd(2023, 1, 15)]);
}

#[test]
fn add_rejects_day_out_of_range() {
    let mut set = Dates::new();
    assert_eq!(set.add(cd(2023, 1, 32)), Err(ValidationError::DayRange));
    assert_eq!(set.add(cd(2023, 1, 0)), Err(ValidationError::DayRange));
    assert_eq!(set.len(), 0);
}

#[test]
fn add_rejects_negative_year() {
    let mut set = Dates::new();
    assert_eq!(set.add(cd(-1, 1, 1)), Err(ValidationError::YearRange));
    assert_eq!(set.len(), 0);
}

#[test]
fn remove_at_removes_and_shifts() {
    let mut set = Dates { dates: vec![cd(2021, 1, 1), cd(2022, 2, 2), cd(2023, 3, 3)] };
    assert_eq!(set.remove_at(1), Ok(cd(2022, 2, 2)));
    assert_eq!(set.dates, vec![cd(2021, 1, 1), cd(2023, 3, 3)]);
}

#[test]
fn remove_at_out_of_bounds_is_reported() {
    let mut set = Dates { dates: vec![cd(2021, 1, 1)] };
    assert_eq!(set.remove_at(1), Err(IndexError));
    assert_eq!(set.dates, vec![cd(2021, 1, 1)]);
}

#[test]
fn calendar_date_new_validates() {
    assert_eq!(CalendarDate::new(2023, 6, 15), Ok(cd(2023, 6, 15)));
    assert_eq!(CalendarDate::new(2023, 13, 1), Err(ValidationError::MonthRange));
    assert_eq!(CalendarDate::new(2023, 4, 31), Ok(cd(2023, 4, 31)));
}

#[test]
fn parse_accepts_dashed_date() {
    assert_eq!(CalendarDate::parse("2023-01-15"), Ok(cd(2023, 1, 15)));
}

#[test]
fn parse_accepts_unpadded_tokens() {
    assert_eq!(CalendarDate::parse("2023-1-5"), Ok(cd(2023, 1, 5)));
}

#[test]
fn parse_rejects_month_thirteen_without_mutating_set() {
    let mut set = Dates::new();
    set.add(cd(2023, 1, 1)).unwrap();
    let before = set.dates.clone();
    match CalendarDate::parse("2023-13-01") {
        Ok(d) => {
            set.add(d).unwrap();
        }
        Err(e) => {
            assert_eq!(e, ValidationError::MonthRange);
        }
    }
    assert_eq!(set.dates, before);
}

#[test]
fn parse_rejects_non_numeric_without_mutating_set() {
    let mut set = Dates::new();
    set.add(cd(2023, 1, 1)).unwrap();
    let before = set.dates.clone();
    match CalendarDate::parse("abc-01-01") {
        Ok(d) => {
            set.add(d).unwrap();
        }
        Err(e) => {
            assert_eq!(e, ValidationError::Syntax);
        }
    }
    assert_eq!(set.dates, before);
}

#[test]
fn parse_rejects_two_tokens() {
    assert_eq!(CalendarDate::parse("2023-01"), Err(ValidationError::Syntax));
}

#[test]
fn parse_rejects_empty_token() {
    assert_eq!(CalendarDate::parse("2023--01"), Err(ValidationError::Syntax));
    assert_eq!(CalendarDate::parse("-01-01"), Err(ValidationError::Syntax));
}

#[test]
fn parse_rejects_day_out_of_range() {
    assert_eq!(CalendarDate::parse("2023-01-32"), Err(ValidationError::DayRange));
    assert_eq!(CalendarDate::parse("2023-01-0"), Err(ValidationError::DayRange));
}

#[test]
fn parse_rejects_year_overflow() {
    assert_eq!(CalendarDate::parse("99999999999-01-01"), Err(ValidationError::Syntax));
}
