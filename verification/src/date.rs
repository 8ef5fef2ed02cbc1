use vstd::prelude::*;

use crate::digits::dec_token_ok;
use crate::digits::dec_val;
use crate::digits::find_byte;
use crate::digits::find_byte_from;
use crate::digits::parse_dec_range;
use vstd::string::StringSliceAdditionalSpecFns;

verus! {

/// A calendar day in the proleptic Gregorian calendar, held as a plain
/// (year, month, day) triple. The type itself does not force the range
/// invariants; `date_valid` states them and the constructors check them.
#[derive(Clone, Copy, PartialEq, Eq, Structural, Debug)]
pub struct CalendarDate {
    pub year: i32,
    pub month: u32,
    pub day: u32,
}

/// Why a date was rejected at construction or parsing.
#[derive(Clone, Copy, PartialEq, Eq, Structural, Debug)]
pub enum ValidationError {
    /// The text did not split into three plain integer tokens.
    Syntax,
    /// The year is negative.
    YearRange,
    /// The month is outside [1, 12].
    MonthRange,
    /// The day is outside [1, 31].
    DayRange,
}

/// The range invariant a user-entered date must satisfy: non-negative year,
/// month in [1, 12], day in [1, 31]. Day-in-month correctness (such as
/// rejecting April 31) is deliberately not checked.
pub open spec fn date_valid(d: CalendarDate) -> bool {
    &&& d.year >= 0
    &&& 1 <= d.month <= 12
    &&& 1 <= d.day <= 31
}

/// The outcome of validating a date: accepted, or rejected naming the first
/// field (year, then month, then day) outside its range.
pub open spec fn validate_spec(d: CalendarDate) -> Result<(), ValidationError> {
    if d.year < 0 {
        Err(ValidationError::YearRange)
    } else if !(1 <= d.month <= 12) {
        Err(ValidationError::MonthRange)
    } else if !(1 <= d.day <= 31) {
        Err(ValidationError::DayRange)
    } else {
        Ok(())
    }
}

/// Ascending order on dates: by year, then month, then day.
pub open spec fn date_le(a: CalendarDate, b: CalendarDate) -> bool {
    ||| a.year < b.year
    ||| (a.year == b.year && a.month < b.month)
    ||| (a.year == b.year && a.month == b.month && a.day <= b.day)
}

/// What parsing a dash-separated `YYYY-MM-DD` text yields: the text must
/// split at dashes into exactly three digit tokens, the year must fit its
/// field, and the triple must pass `validate_spec`.
pub open spec fn parse_date_spec(s: Seq<u8>) -> Result<CalendarDate, ValidationError> {
    let a = find_byte(s, 45);
    if a == s.len() {
        Err(ValidationError::Syntax)
    } else {
        let rest = s.subrange(a + 1, s.len() as int);
        let b = find_byte(rest, 45);
        if b == rest.len() {
            Err(ValidationError::Syntax)
        } else {
            let ytok = s.subrange(0, a);
            let mtok = rest.subrange(0, b);
            let dtok = rest.subrange(b + 1, rest.len() as int);
            if !(dec_token_ok(ytok) && dec_val(ytok) <= i32::MAX) {
                Err(ValidationError::Syntax)
            } else if !(dec_token_ok(mtok) && dec_val(mtok) <= u32::MAX) {
                Err(ValidationError::Syntax)
            } else if !(dec_token_ok(dtok) && dec_val(dtok) <= u32::MAX) {
                Err(ValidationError::Syntax)
            } else {
                let d = CalendarDate {
                    year: dec_val(ytok) as i32,
                    month: dec_val(mtok) as u32,
                    day: dec_val(dtok) as u32,
                };
                match validate_spec(d) {
                    Ok(()) => Ok(d),
                    Err(e) => Err(e),
                }
            }
        }
    }
}

impl CalendarDate {
    /// Builds a date after checking the range invariant; rejects anything
    /// outside it.
    pub fn new(year: i32, month: u32, day: u32) -> (r: Result<CalendarDate, ValidationError>)
        ensures
            ({
                let d = CalendarDate { year, month, day };
                match validate_spec(d) {
                    Ok(u) => r == Result::<CalendarDate, ValidationError>::Ok(d),
                    Err(e) => r == Result::<CalendarDate, ValidationError>::Err(e),
                }
            }),
            r is Ok <==> date_valid(CalendarDate { year, month, day }),
    {
        let d = CalendarDate { year, month, day };
        match validate(d) {
            Ok(()) => Ok(d),
            Err(e) => Err(e),
        }
    }

    /// Parses a dash-separated `YYYY-MM-DD` text (tokens need not be
    /// zero-padded) and validates the ranges; the text is read byte-wise,
    /// so any non-ASCII character fails as a non-digit.
    pub fn parse(text: &str) -> (r: Result<CalendarDate, ValidationError>)
        ensures
            r == parse_date_spec(text.spec_bytes()),
            r is Ok ==> date_valid(r->Ok_0),
    {
        let bytes = text.as_bytes();
        let n = bytes.len();
        let a = find_byte_from(bytes, 0, n, 45);
        proof {
            assert(bytes@.subrange(0, n as int) =~= bytes@);
        }
        if a == n {
            return Err(ValidationError::Syntax);
        }
        let ghost rest = bytes@.subrange(a + 1, n as int);
        let b = find_byte_from(bytes, a + 1, n, 45);
        if b == n {
            return Err(ValidationError::Syntax);
        }
        proof {
            assert(rest.subrange(0, b - (a + 1)) =~= bytes@.subrange(a + 1, b as int));
            assert(rest.subrange(b - (a + 1) + 1, rest.len() as int) =~= bytes@.subrange(
                b + 1,
                n as int,
            ));
        }
        let year = match parse_dec_range(bytes, 0, a, i32::MAX as u32) {
            Some(v) => v as i32,
            None => {
                return Err(ValidationError::Syntax);
            },
        };
        let month = match parse_dec_range(bytes, a + 1, b, u32::MAX) {
            Some(v) => v,
            None => {
                return Err(ValidationError::Syntax);
            },
        };
        let day = match parse_dec_range(bytes, b + 1, n, u32::MAX) {
            Some(v) => v,
            None => {
                return Err(ValidationError::Syntax);
            },
        };
        let d = CalendarDate { year, month, day };
        match validate(d) {
            Ok(()) => Ok(d),
            Err(e) => Err(e),
        }
    }
}

/// Checks the range invariant, naming the first field that fails.
pub fn validate(d: CalendarDate) -> (r: Result<(), ValidationError>)
    ensures
        r == validate_spec(d),
        r is Ok <==> date_valid(d),
{
    if d.year < 0 {
        Err(ValidationError::YearRange)
    } else if d.month < 1 || d.month > 12 {
        Err(ValidationError::MonthRange)
    } else if d.day < 1 || d.day > 31 {
        Err(ValidationError::DayRange)
    } else {
        Ok(())
    }
}

} // verus!
