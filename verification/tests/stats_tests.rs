use habit_dates::CalendarDate;
use habit_dates::Dates;
use habit_dates::Home;

fn cd(year: i32, month: u32, day: u32) -> CalendarDate {
    CalendarDate { year, month, day }
}

fn set_of(entries: &[(i32, u32, u32)]) -> Dates {
    let mut set = Dates::new();
    for &(y, m, d) in entries {
        set.add(cd(y, m, d)).unwrap();
    }
    set
}

#[test]
fn empty_set_has_no_streak() {
    let set = Dates::new();
    assert_eq!(set.consecutive_months(cd(2023, 6, 15)), 0);
    assert_eq!(set.events_last_year(cd(2023, 6, 15)), 0);
}

#[test]
fn single_entry_in_current_month_is_streak_one() {
    let set = set_of(&[(2023, 6, 1)]);
    assert_eq!(set.consecutive_months(cd(2023, 6, 15)), 1);
}

#[test]
fn three_consecutive_months_are_streak_three() {
    let set = set_of(&[(2023, 1, 15), (2023, 2, 1), (2023, 3, 10)]);
    assert_eq!(set.consecutive_months(cd(2023, 3, 20)), 3);
}

#[test]
fn december_january_wraparound_is_one_step() {
    let set = set_of(&[(2022, 12, 5), (2023, 1, 2)]);
    assert_eq!(set.consecutive_months(cd(2023, 1, 10)), 2);
}

#[test]
fn gap_breaks_the_chain() {
    let set = set_of(&[(2023, 1, 1), (2023, 5, 1)]);
    assert_eq!(set.consecutive_months(cd(2023, 5, 15)), 1);
}

#[test]
fn stale_last_entry_is_streak_zero() {
    let set = set_of(&[(2023, 1, 1), (2023, 2, 1)]);
    assert_eq!(set.consecutive_months(cd(2023, 6, 15)), 0);
}

#[test]
fn last_entry_one_month_before_now_keeps_streak() {
    let set = set_of(&[(2023, 4, 3), (2023, 5, 28)]);
    assert_eq!(set.consecutive_months(cd(2023, 6, 15)), 2);
}

#[test]
fn duplicate_months_do_not_inflate_streak() {
    let set = set_of(&[(2023, 2, 1), (2023, 3, 5), (2023, 3, 5), (2023, 3, 20)]);
    assert_eq!(set.consecutive_months(cd(2023, 3, 25)), 2);
}

#[test]
fn streak_sorts_defensively() {
    let set = Dates { dates: vec![cd(2023, 3, 10), cd(2023, 1, 15), cd(2023, 2, 1)] };
    assert_eq!(set.consecutive_months(cd(2023, 3, 20)), 3);
}

#[test]
fn events_last_year_counts_same_year_and_late_prior_year() {
    let set = set_of(&[(2022, 6, 1), (2023, 1, 1), (2023, 6, 1)]);
    assert_eq!(set.events_last_year(cd(2023, 6, 15)), 2);
}

#[test]
fn events_last_year_prior_year_boundary() {
    // a prior-year event counts only in a month strictly after now's month
    let july = set_of(&[(2022, 7, 1)]);
    assert_eq!(july.events_last_year(cd(2023, 6, 15)), 1);
    let june = set_of(&[(2022, 6, 30)]);
    assert_eq!(june.events_last_year(cd(2023, 6, 15)), 0);
}

#[test]
fn events_last_year_counts_duplicates() {
    let set = set_of(&[(2023, 6, 1), (2023, 6, 1)]);
    assert_eq!(set.events_last_year(cd(2023, 6, 15)), 2);
}

#[test]
fn events_last_year_stops_at_window_edge() {
    let set = set_of(&[(2021, 5, 1), (2023, 2, 1), (2023, 6, 1)]);
    assert_eq!(set.events_last_year(cd(2023, 6, 15)), 2);
}

#[test]
fn home_compute_carries_both_statistics() {
    let set = set_of(&[(2023, 2, 1), (2023, 3, 10)]);
    let home = Home::compute(&set, cd(2023, 3, 20));
    assert_eq!(home.number_of_consecutive_months, 2);
    assert_eq!(home.number_of_events_last_year, 2);
}

#[test]
fn home_current_of_empty_set_is_zero() {
    let set = Dates::new();
    let home = Home::current(&set);
    assert_eq!(home.number_of_consecutive_months, 0);
    assert_eq!(home.number_of_events_last_year, 0);
}
