use vstd::prelude::*;

use crate::date::CalendarDate;
use chrono::Datelike;

verus! {

/// The host's current local calendar date.
///
/// Relies on chrono's `Local::now` and the `Datelike` accessors: `month()`
/// is documented to range over 1 to 12 and `day()` over 1 to 31. Nothing
/// more is promised of the clock's outcome.
#[verifier::external_body]
pub(crate) fn today() -> (r: CalendarDate)
    ensures
        1 <= r.month <= 12,
        1 <= r.day <= 31,
{
    let now = chrono::Local::now();
    CalendarDate { year: now.year(), month: now.month(), day: now.day() }
}

} // verus!
