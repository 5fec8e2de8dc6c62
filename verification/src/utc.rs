//! Dates and times of day.

use crate::text::decimal;
use chrono::{DateTime, Utc};
use vstd::prelude::*;

verus! {

/// The last second of the year 9999.
pub const LAST_SECOND: i64 = 253_402_300_799;

/// A moment, in seconds and nanoseconds since the start of 1970, as a pattern writes it; none
/// where it is out of range.
pub uninterp spec fn utc_text(secs: i64, nanos: u32, pattern: Seq<char>) -> Option<Seq<char>>;

/// Two digits.
pub open spec fn two_digits(n: int) -> Seq<char> {
    if n < 10 {
        seq!['0'] + decimal(n as nat)
    } else {
        decimal(n as nat)
    }
}

/// Three digits.
pub open spec fn three_digits(n: int) -> Seq<char> {
    if n < 100 {
        seq!['0'] + two_digits(n)
    } else {
        decimal(n as nat)
    }
}

/// The time of day, with thousandths of a second.
pub open spec fn time_of_day(secs: i64, nanos: u32) -> Seq<char> {
    let s = secs as int % 86_400;
    two_digits(s / 3600) + seq![':'] + two_digits(s / 60 % 60) + seq![':'] + two_digits(s % 60)
        + seq!['.'] + three_digits(nanos as int / 1_000_000)
}

/// A year with 366 days.
pub open spec fn is_leap(year: int) -> bool {
    year % 4 == 0 && (year % 100 != 0 || year % 400 == 0)
}

/// The days of a year before a month.
pub open spec fn days_before(year: int, month: int) -> int {
    seq![0int, 31, 59, 90, 120, 151, 181, 212, 243, 273, 304, 334, 365][month - 1] + (if is_leap(
        year,
    ) && month > 2 {
        1int
    } else {
        0int
    })
}

/// The days from the start of 1970 to a day.
pub open spec fn day_number(year: int, month: int, day: int) -> int {
    let y = year - 1;
    365 * y + y / 4 - y / 100 + y / 400 + days_before(year, month) + day - 719_163
}

/// The text is the date of a moment: a year of four digits, a month and a day of that month.
pub open spec fn is_date(secs: i64, text: Seq<char>) -> bool {
    exists|year: int, month: int, day: int| #[trigger]
        day_number(year, month, day) == secs as int / 86_400 && 1970 <= year <= 9999 && 1 <= month
            <= 12 && 1 <= day <= days_before(year, month + 1) - days_before(year, month) && text
            == decimal(year as nat) + seq!['/'] + two_digits(month) + seq!['/'] + two_digits(day)
}

/// A moment from 1970 up to the year 9999 that is not a leap second.
pub open spec fn is_usual(secs: i64, nanos: u32) -> bool {
    0 <= secs <= LAST_SECOND && nanos < 1_000_000_000
}

/// The text is one of the pattern of the date, of a moment up to the year 9999.
pub open spec fn is_plain_date(secs: i64, nanos: u32, pattern: Seq<char>) -> bool {
    pattern == "%Y/%m/%d"@ && is_usual(secs, nanos)
}

/// The text is one of the pattern of the time of day, of a moment that is not a leap second.
pub open spec fn is_plain_time(nanos: u32, pattern: Seq<char>) -> bool {
    pattern == "%H:%M:%S%.3f"@ && nanos < 1_000_000_000
}

/// `DateTime::from_timestamp` and `DateTime::format`: what a pattern makes of a moment. From
/// 1970 up to the year 9999 no moment is out of range, and the pattern of the date gives year,
/// month and day by the Gregorian calendar. The pattern of the time of day gives hours, minutes,
/// seconds and thousandths, which are cut off, not rounded; what it gives in a leap second is
/// not said here.
#[verifier::external_body]
pub(crate) fn format_utc(secs: i64, nanos: u32, pattern: &str) -> (r: Option<String>)
    requires
        pattern@ == "%Y/%m/%d"@ || pattern@ == "%H:%M:%S%.3f"@,
    ensures
        r is Some <==> utc_text(secs, nanos, pattern@) is Some,
        r matches Some(s) ==> utc_text(secs, nanos, pattern@) == Some(s@),
        r matches Some(s) ==> is_plain_date(secs, nanos, pattern@) ==> is_date(secs, s@),
        r matches Some(s) ==> is_plain_time(nanos, pattern@) ==> s@ == time_of_day(secs, nanos),
        is_usual(secs, nanos) ==> r is Some,
{
    DateTime::<Utc>::from_timestamp(secs, nanos).map(|t| t.format(pattern).to_string())
}

} // verus!
