use vstd::prelude::*;

use crate::date::CalendarDate;
use crate::dates::sorted_of;
use crate::dates::Dates;
use crate::clock::today;

verus! {

/// The two derived statistics the home screen shows; recomputed from the
/// date set and a reference date, never cached or persisted.
#[derive(Clone, Copy, PartialEq, Eq, Structural, Debug)]
pub struct Home {
    pub number_of_consecutive_months: usize,
    pub number_of_events_last_year: usize,
}

/// `cur` falls in the very month `prev` does: a pair that neither extends
/// nor breaks a streak.
pub open spec fn same_month_rel(prev: CalendarDate, cur: CalendarDate) -> bool {
    cur.month == prev.month && cur.year == prev.year
}

/// `cur` is exactly one calendar month after `prev`, counting a December to
/// January step across the year boundary as one month.
pub open spec fn one_month_rel(prev: CalendarDate, cur: CalendarDate) -> bool {
    ||| (cur.month - prev.month == 1 && cur.year == prev.year)
    ||| (cur.month - prev.month == -11 && cur.year - prev.year == 1)
}

/// Months added to the streak by the entries below position `i` of the
/// ascending sequence: walking toward older entries, a same-month pair is
/// skipped, a one-month step counts, anything else ends the walk.
pub open spec fn streak_walk(s: Seq<CalendarDate>, i: int) -> nat
    decreases i,
{
    if i <= 0 || i >= s.len() {
        0
    } else if same_month_rel(s[i - 1], s[i]) {
        streak_walk(s, i - 1)
    } else if one_month_rel(s[i - 1], s[i]) {
        (1 + streak_walk(s, i - 1)) as nat
    } else {
        0
    }
}

/// The streak of consecutive months with at least one event, read off the
/// ascending sequence `s`: zero when `s` is empty or its most recent entry
/// is neither in `now`'s month nor in the month before it; otherwise one
/// for the most recent entry's month plus the walk over older entries.
pub open spec fn consecutive_months_spec(s: Seq<CalendarDate>, now: CalendarDate) -> nat {
    if s.len() == 0 {
        0
    } else {
        let last = s[s.len() - 1];
        if same_month_rel(last, now) || one_month_rel(last, now) {
            (1 + streak_walk(s, s.len() - 1)) as nat
        } else {
            0
        }
    }
}

/// The trailing-year window at month granularity: the event's year equals
/// `now`'s, or it lies in the prior year in a later month than `now`'s.
pub open spec fn in_last_year(d: CalendarDate, now: CalendarDate) -> bool {
    ||| now.year == d.year
    ||| (now.year - d.year == 1 && now.month - d.month < 0)
}

/// How many entries at positions `i` and below of the ascending sequence
/// fall in the trailing-year window, stopping at the first that does not.
pub open spec fn recent_count(s: Seq<CalendarDate>, now: CalendarDate, i: int) -> nat
    decreases i + 1,
{
    if i < 0 || i >= s.len() {
        0
    } else if in_last_year(s[i], now) {
        (1 + recent_count(s, now, i - 1)) as nat
    } else {
        0
    }
}

/// The trailing-year event count, read off the ascending sequence from its
/// most recent entry backward.
pub open spec fn events_last_year_spec(s: Seq<CalendarDate>, now: CalendarDate) -> nat {
    recent_count(s, now, s.len() - 1)
}

/// The walk below position `i` cannot count more months than there are
/// entries below `i`.
pub proof fn lemma_streak_walk_le(s: Seq<CalendarDate>, i: int)
    requires
        0 <= i,
    ensures
        streak_walk(s, i) <= i,
    decreases i,
{
    if 0 < i < s.len() {
        lemma_streak_walk_le(s, i - 1);
    }
}

/// The backward count from position `i` covers at most the entries at `i`
/// and below.
pub proof fn lemma_recent_count_le(s: Seq<CalendarDate>, now: CalendarDate, i: int)
    requires
        -1 <= i,
    ensures
        recent_count(s, now, i) <= i + 1,
    decreases i + 1,
{
    if 0 <= i < s.len() {
        lemma_recent_count_le(s, now, i - 1);
    }
}

/// An empty set has no streak, and a single entry in the same month and
/// year as `now` is a streak of exactly one.
pub proof fn lemma_streak_empty_and_single(d: CalendarDate, now: CalendarDate)
    ensures
        consecutive_months_spec(sorted_of(Seq::<CalendarDate>::empty()), now) == 0,
        d.year == now.year && d.month == now.month ==> consecutive_months_spec(
            sorted_of(seq![d]),
            now,
        ) == 1,
{
    assert(sorted_of(Seq::<CalendarDate>::empty()) =~= Seq::<CalendarDate>::empty());
    let s = seq![d];
    assert(s.drop_last() =~= Seq::<CalendarDate>::empty());
    assert(sorted_of(s.drop_last()) =~= Seq::<CalendarDate>::empty());
    assert(sorted_of(s) =~= s);
}

fn is_same_month(prev: CalendarDate, cur: CalendarDate) -> (r: bool)
    ensures
        r == same_month_rel(prev, cur),
{
    cur.month == prev.month && cur.year == prev.year
}

fn is_one_month(prev: CalendarDate, cur: CalendarDate) -> (r: bool)
    ensures
        r == one_month_rel(prev, cur),
{
    let md: i64 = cur.month as i64 - prev.month as i64;
    let yd: i64 = cur.year as i64 - prev.year as i64;
    (md == 1 && yd == 0) || (md == -11 && yd == 1)
}

fn is_in_last_year(d: CalendarDate, now: CalendarDate) -> (r: bool)
    ensures
        r == in_last_year(d, now),
{
    let yd: i64 = now.year as i64 - d.year as i64;
    let md: i64 = now.month as i64 - d.month as i64;
    yd == 0 || (yd == 1 && md < 0)
}

impl Dates {
    /// In how many consecutive calendar months, ending at or immediately
    /// before `now`'s month, the set has at least one entry. The set is
    /// read in ascending order; it is not mutated.
    pub fn consecutive_months(&self, now: CalendarDate) -> (r: usize)
        ensures
            r == consecutive_months_spec(sorted_of(self@), now),
    {
        let sorted = self.sorted_dates();
        let ghost s = sorted@;
        let n = sorted.len();
        if n == 0 {
            return 0;
        }
        let last = sorted[n - 1];
        if !(is_same_month(last, now) || is_one_month(last, now)) {
            return 0;
        }
        proof {
            lemma_streak_walk_le(s, n - 1);
        }
        let mut streak: usize = 1;
        let mut i: usize = n - 1;
        while i > 0
            invariant
                0 < n == s.len(),
                sorted@ == s,
                s == sorted_of(self@),
                same_month_rel(s[n - 1], now) || one_month_rel(s[n - 1], now),
                i < n,
                streak + streak_walk(s, i as int) == 1 + streak_walk(s, n - 1),
                streak_walk(s, n - 1) <= n - 1,
            decreases i,
        {
            let cur = sorted[i];
            let prev = sorted[i - 1];
            if is_same_month(prev, cur) {
                i = i - 1;
            } else if is_one_month(prev, cur) {
                assert(streak_walk(s, i as int) == 1 + streak_walk(s, i - 1));
                streak = streak + 1;
                i = i - 1;
            } else {
                assert(streak_walk(s, i as int) == 0);
                return streak;
            }
        }
        streak
    }

    /// How many entries fall in the trailing twelve-month window before
    /// `now`, at month granularity: entries of `now`'s year, and entries of
    /// the prior year in a month after `now`'s. The set is read in
    /// ascending order from the most recent entry backward; duplicates each
    /// count.
    pub fn events_last_year(&self, now: CalendarDate) -> (r: usize)
        ensures
            r == events_last_year_spec(sorted_of(self@), now),
    {
        let sorted = self.sorted_dates();
        let ghost s = sorted@;
        let n = sorted.len();
        if n == 0 {
            return 0;
        }
        proof {
            lemma_recent_count_le(s, now, n - 1);
        }
        let mut count: usize = 0;
        let mut i: usize = n;
        while i > 0
            invariant
                0 < n == s.len(),
                sorted@ == s,
                s == sorted_of(self@),
                i <= n,
                count + recent_count(s, now, i - 1) == recent_count(s, now, n - 1),
                recent_count(s, now, n - 1) <= n,
            decreases i,
        {
            let d = sorted[i - 1];
            if is_in_last_year(d, now) {
                assert(recent_count(s, now, i - 1) == 1 + recent_count(s, now, i - 2));
                count = count + 1;
                i = i - 1;
            } else {
                assert(recent_count(s, now, i - 1) == 0);
                return count;
            }
        }
        count
    }
}

impl Home {
    /// Both statistics of `dates` as seen from the reference date `now`.
    pub fn compute(dates: &Dates, now: CalendarDate) -> (r: Home)
        ensures
            r.number_of_consecutive_months == consecutive_months_spec(sorted_of(dates@), now),
            r.number_of_events_last_year == events_last_year_spec(sorted_of(dates@), now),
    {
        Home {
            number_of_consecutive_months: dates.consecutive_months(now),
            number_of_events_last_year: dates.events_last_year(now),
        }
    }

    /// Both statistics as seen from the host's current local date. The
    /// clock only promises a well-formed month and day, so the result is
    /// pinned for whichever reference date came back.
    pub fn current(dates: &Dates) -> (r: Home)
        ensures
            exists|now: CalendarDate|
                1 <= now.month <= 12 && 1 <= now.day <= 31
                    && r.number_of_consecutive_months == consecutive_months_spec(
                    sorted_of(dates@),
                    now,
                ) && r.number_of_events_last_year == events_last_year_spec(sorted_of(dates@), now),
    {
        let now = today();
        let r = Home::compute(dates, now);
        proof {
            assert(1 <= now.month <= 12 && 1 <= now.day <= 31
                && r.number_of_consecutive_months == consecutive_months_spec(sorted_of(dates@), now)
                && r.number_of_events_last_year == events_last_year_spec(sorted_of(dates@), now));
        }
        r
    }
}

} // verus!
