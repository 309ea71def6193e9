//! Calendar dates: year, month and day, without a time or a zone.

use chrono::Datelike;
use vstd::prelude::*;

verus! {

/// A calendar date of the proleptic Gregorian calendar.
///
/// Dates are ordered by year, then month, then day.
#[derive(Clone, Copy, Debug, PartialEq, Eq, PartialOrd, Ord, Hash, Structural)]
pub struct Date {
    pub year: i32,
    pub month: u32,
    pub day: u32,
}

/// The first year that a date can have.
pub const MIN_YEAR: i32 = -262143;

/// The last year that a date can have.
pub const MAX_YEAR: i32 = 262142;

/// Whether `year` has a 29th of February.
pub open spec fn is_leap_year(year: int) -> bool {
    year % 4 == 0 && (year % 100 != 0 || year % 400 == 0)
}

/// The number of days of `month` in `year`; 0 where `month` is no month.
pub open spec fn days_in_month(year: int, month: int) -> int {
    if month == 4 || month == 6 || month == 9 || month == 11 {
        30
    } else if month == 2 {
        if is_leap_year(year) {
            29
        } else {
            28
        }
    } else if 1 <= month <= 12 {
        31
    } else {
        0
    }
}

/// Whether the calendar has the day `year`-`month`-`day`, within the years
/// that a date can have.
pub open spec fn is_calendar_date(year: int, month: int, day: int) -> bool {
    &&& MIN_YEAR <= year <= MAX_YEAR
    &&& 1 <= month <= 12
    &&& 1 <= day <= days_in_month(year, month)
}

/// Calls `chrono::NaiveDate::from_ymd_opt` and reports whether it found a
/// date. chrono documents that it finds none exactly where the calendar day
/// does not exist, the month or the day is invalid, or the year is outside
/// the range of its dates.
#[verifier::external_body]
fn calendar_has(year: i32, month: u32, day: u32) -> (found: bool)
    ensures
        found == is_calendar_date(year as int, month as int, day as int),
{
    chrono::NaiveDate::from_ymd_opt(year, month, day).is_some()
}

/// The date that `chrono::NaiveDate::parse_from_str` reads from `text` under
/// `format`, if it reads one.
pub uninterp spec fn date_read(text: Seq<char>, format: Seq<char>) -> Option<Date>;

/// Calls `chrono::NaiveDate::parse_from_str`, which reads a date written in
/// the given format, with month names in English; the contract names the
/// outcome and states that a date read is a day of the calendar.
#[verifier::external_body]
fn read_date(text: &str, format: &str) -> (date: Option<Date>)
    ensures
        date == date_read(text@, format@),
        date matches Some(day) ==> day.is_valid(),
{
    match chrono::NaiveDate::parse_from_str(text, format) {
        Ok(date) => Some(Date { year: date.year(), month: date.month(), day: date.day() }),
        Err(_) => None,
    }
}

impl Date {
    /// Whether this value is a day that the calendar has.
    pub open spec fn is_valid(self) -> bool {
        is_calendar_date(self.year as int, self.month as int, self.day as int)
    }

    /// Whether this date is strictly earlier than `other`.
    pub open spec fn is_before(self, other: Date) -> bool {
        self.year < other.year || (self.year == other.year && (self.month < other.month || (
        self.month == other.month && self.day < other.day)))
    }

    /// The earlier of two dates.
    pub open spec fn earlier(self, other: Date) -> Date {
        if other.is_before(self) {
            other
        } else {
            self
        }
    }

    /// The later of two dates.
    pub open spec fn later(self, other: Date) -> Date {
        if self.is_before(other) {
            other
        } else {
            self
        }
    }

    /// Makes a date from year, month and day, or `None` where the calendar has
    /// no such day.
    pub fn from_ymd_opt(year: i32, month: u32, day: u32) -> (date: Option<Date>)
        ensures
            date == if is_calendar_date(year as int, month as int, day as int) {
                Some(Date { year, month, day })
            } else {
                None
            },
    {
        if calendar_has(year, month, day) {
            Some(Date { year, month, day })
        } else {
            None
        }
    }

    /// Reads a date written in the given format, such as `%Y-%m-%d`.
    pub fn parse_from_str(text: &str, format: &str) -> (date: Option<Date>)
        ensures
            date == date_read(text@, format@),
            date matches Some(day) ==> day.is_valid(),
    {
        read_date(text, format)
    }

    /// Tests whether this date is strictly earlier than `other`.
    pub fn precedes(&self, other: &Date) -> (before: bool)
        ensures
            before == self.is_before(*other),
    {
        self.year < other.year || (self.year == other.year && (self.month < other.month || (
        self.month == other.month && self.day < other.day)))
    }

    /// Returns the earlier of this date and `other`.
    pub fn min_with(self, other: Date) -> (first: Date)
        ensures
            first == self.earlier(other),
    {
        if other.precedes(&self) {
            other
        } else {
            self
        }
    }

    /// Returns the later of this date and `other`.
    pub fn max_with(self, other: Date) -> (last: Date)
        ensures
            last == self.later(other),
    {
        if self.precedes(&other) {
            other
        } else {
            self
        }
    }
}

} // verus!
