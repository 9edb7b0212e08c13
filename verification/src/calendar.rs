//! Calendar dates, as the project settings hold them.
use vstd::prelude::*;
use chrono::Datelike;
use crate::text::digits;

verus! {

/// A date of the proleptic Gregorian calendar.
#[derive(Debug, Clone, Copy, PartialEq, Eq, Structural)]
pub struct CalendarDate {
    pub year: i32,
    pub month: u32,
    pub day: u32,
}

/// Whether `year` is a leap year of the proleptic Gregorian calendar.
pub open spec fn leap_year(year: int) -> bool {
    year % 4 == 0 && (year % 100 != 0 || year % 400 == 0)
}

/// The number of days of `month` in `year`.
pub open spec fn days_in_month(year: int, month: int) -> int {
    if month == 2 {
        if leap_year(year) { 29 } else { 28 }
    } else if month == 4 || month == 6 || month == 9 || month == 11 {
        30
    } else {
        31
    }
}

/// The day exists, and the year is within the range that dates can take
/// (-262143 to 262142).
pub open spec fn valid_date(year: int, month: int, day: int) -> bool {
    &&& -262143 <= year <= 262142
    &&& 1 <= month <= 12
    &&& 1 <= day <= days_in_month(year, month)
}

/// The date `year`-`month`-`day`, when it exists.
///
/// Trusted: `chrono::NaiveDate::from_ymd_opt`, which returns `None` exactly when the day
/// does not exist, the month or day is out of range, or the year is outside
/// `MIN_YEAR..=MAX_YEAR` (-262143..=262142 in the version used), and otherwise the date
/// whose year, month and day (read back through `Datelike`) are the ones given.
#[verifier::external_body]
pub(crate) fn calendar_date(year: i32, month: u32, day: u32) -> (r: Option<CalendarDate>)
    ensures
        r is Some <==> valid_date(year as int, month as int, day as int),
        r matches Some(d) ==> d == (CalendarDate { year, month, day }),
{
    match chrono::NaiveDate::from_ymd_opt(year, month, day) {
        Some(d) => Some(CalendarDate { year: d.year(), month: d.month(), day: d.day() }),
        None => None,
    }
}

/// The date that `text` gives in the form year-month-day, when it gives one.
pub uninterp spec fn iso_date(text: Seq<char>) -> Option<CalendarDate>;

/// Reads a date written as "%Y-%m-%d".
///
/// Trusted: `chrono::NaiveDate::parse_from_str` with the format "%Y-%m-%d". The result
/// depends on the text alone and is named `iso_date`; a date it gives is a valid date, and
/// empty text gives none (the year's digits are missing).
#[verifier::external_body]
pub(crate) fn parse_iso_date(text: &str) -> (r: Option<CalendarDate>)
    ensures
        r == iso_date(text@),
        r matches Some(d) ==> valid_date(d.year as int, d.month as int, d.day as int),
        text@.len() == 0 ==> r is None,
{
    match chrono::NaiveDate::parse_from_str(text, "%Y-%m-%d") {
        Ok(d) => Some(CalendarDate { year: d.year(), month: d.month(), day: d.day() }),
        Err(_) => None,
    }
}

/// `n` in decimal, with leading zeros up to two digits.
pub open spec fn two_digits(n: nat) -> Seq<char> {
    if n < 10 {
        seq!['0'] + digits(n)
    } else {
        digits(n)
    }
}

/// `n` in decimal, with leading zeros up to four digits.
pub open spec fn four_digits(n: nat) -> Seq<char> {
    if n < 10 {
        seq!['0', '0', '0'] + digits(n)
    } else if n < 100 {
        seq!['0', '0'] + digits(n)
    } else if n < 1000 {
        seq!['0'] + digits(n)
    } else {
        digits(n)
    }
}

/// The year as "%Y" writes it: four digits for the years 0 to 9999, and otherwise a sign
/// followed by at least four digits.
pub open spec fn year_text(year: int) -> Seq<char> {
    if 0 <= year <= 9999 {
        four_digits(year as nat)
    } else if year < 0 {
        seq!['-'] + four_digits((-year) as nat)
    } else {
        seq!['+'] + four_digits(year as nat)
    }
}

/// The text "%Y-%m-%d" of a date: the year, then the month and the day with two digits
/// each, separated by '-'.
pub open spec fn iso_text(year: int, month: int, day: int) -> Seq<char> {
    year_text(year) + seq!['-'] + two_digits(month as nat) + seq!['-'] + two_digits(day as nat)
}

/// Writes a date as "%Y-%m-%d".
///
/// Trusted: `chrono::NaiveDate::from_ymd_opt` (which gives a date for a valid day) and
/// `format("%Y-%m-%d")`, whose text is `iso_text`: chrono writes the year with four
/// zero-padded digits when it is 0 to 9999 and with a sign and at least four digits
/// otherwise, and the month and day with two zero-padded digits. Reading it back with "%Y-%m-%d" gives the same date: the year is written with four
/// digits, or with a sign outside 0 to 9999, and read back either way; the month and day
/// with two digits.
#[verifier::external_body]
pub(crate) fn format_iso_date(d: CalendarDate) -> (r: String)
    requires
        valid_date(d.year as int, d.month as int, d.day as int),
    ensures
        r@ == iso_text(d.year as int, d.month as int, d.day as int),
        iso_date(r@) == Some(d),
{
    match chrono::NaiveDate::from_ymd_opt(d.year, d.month, d.day) {
        Some(date) => date.format("%Y-%m-%d").to_string(),
        None => String::new(),
    }
}

} // verus!
