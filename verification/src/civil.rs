//! Calendar dates and times of day, computed by the `chrono` crate and held
//! here as plain numbers.
use vstd::prelude::*;
use crate::text::padded;

verus! {

/// A date of the proleptic Gregorian calendar.
#[derive(Clone, Copy, Debug, PartialEq, Eq, Structural)]
pub struct CivilDate {
    pub year: i32,
    pub month: u32,
    pub day: u32,
}

/// A date with a time of day, without a time zone.
#[derive(Clone, Copy, Debug, PartialEq, Eq, Structural)]
pub struct CivilDateTime {
    pub date: CivilDate,
    pub hour: u32,
    pub minute: u32,
    pub second: u32,
}

pub open spec fn is_leap_year(y: int) -> bool {
    y % 4 == 0 && (y % 100 != 0 || y % 400 == 0)
}

pub open spec fn days_in_month(y: int, m: int) -> int {
    if m == 2 {
        if is_leap_year(y) {
            29
        } else {
            28
        }
    } else if m == 4 || m == 6 || m == 9 || m == 11 {
        30
    } else {
        31
    }
}

/// A date that `chrono::NaiveDate` can hold: years -262143 to 262142.
pub open spec fn date_valid(d: CivilDate) -> bool {
    &&& -262143 <= d.year <= 262142
    &&& 1 <= d.month <= 12
    &&& 1 <= d.day <= days_in_month(d.year as int, d.month as int)
}

/// A date and time that `chrono::NaiveDateTime` can hold, leap seconds aside.
pub open spec fn datetime_valid(t: CivilDateTime) -> bool {
    date_valid(t.date) && t.hour < 24 && t.minute < 60 && t.second < 60
}

/// Midnight at the start of `d`.
pub open spec fn midnight(d: CivilDate) -> CivilDateTime {
    CivilDateTime { date: d, hour: 0, minute: 0, second: 0 }
}

/// The format `%Y%m%d`: year, month and day, zero-padded.
pub open spec fn ymd_format() -> Seq<char> {
    "%Y%m%d"@
}

/// The format `%Y%m%d%H%M`: date, then hour and minute.
pub open spec fn ymdhm_format() -> Seq<char> {
    "%Y%m%d%H%M"@
}

/// What `chrono::NaiveDate::parse_from_str(s, fmt)` gives.
pub uninterp spec fn chrono_parse_date(s: Seq<char>, fmt: Seq<char>) -> Option<CivilDate>;

/// What `chrono::NaiveDateTime::parse_from_str(s, fmt)` gives.
pub uninterp spec fn chrono_parse_datetime(s: Seq<char>, fmt: Seq<char>) -> Option<CivilDateTime>;

/// What `chrono::NaiveDate::checked_add_signed` gives for `d` and `days` whole days.
pub uninterp spec fn chrono_add_days(d: CivilDate, days: i64) -> Option<CivilDate>;

/// What `chrono::NaiveDate::format(fmt)` writes for `d`.
pub uninterp spec fn chrono_format_date(d: CivilDate, fmt: Seq<char>) -> Seq<char>;

/// `chrono::NaiveDate::parse_from_str`: the date `s` spells in format `fmt`,
/// `None` where chrono reports an error. The result is named; a date it gives
/// is one chrono can hold.
#[verifier::external_body]
pub(crate) fn parse_date(s: &str, fmt: &str) -> (r: Option<CivilDate>)
    ensures
        r == chrono_parse_date(s@, fmt@),
        r matches Some(d) ==> date_valid(d),
{
    chrono::NaiveDate::parse_from_str(s, fmt).ok().map(
        |d| CivilDate {
            year: chrono::Datelike::year(&d),
            month: chrono::Datelike::month(&d),
            day: chrono::Datelike::day(&d),
        },
    )
}

/// `chrono::NaiveDateTime::parse_from_str`: the date and time `s` spells in
/// format `fmt`, `None` where chrono reports an error. The result is named; a
/// value it gives is one chrono can hold.
#[verifier::external_body]
pub(crate) fn parse_datetime(s: &str, fmt: &str) -> (r: Option<CivilDateTime>)
    ensures
        r == chrono_parse_datetime(s@, fmt@),
        r matches Some(t) ==> datetime_valid(t),
{
    chrono::NaiveDateTime::parse_from_str(s, fmt).ok().map(
        |t| CivilDateTime {
            date: CivilDate {
                year: chrono::Datelike::year(&t),
                month: chrono::Datelike::month(&t),
                day: chrono::Datelike::day(&t),
            },
            hour: chrono::Timelike::hour(&t),
            minute: chrono::Timelike::minute(&t),
            second: chrono::Timelike::second(&t),
        },
    )
}

/// `chrono::NaiveDate::checked_add_signed` with a whole number of days:
/// `None` where the result leaves chrono's range. The result is named; a date
/// it gives is one chrono can hold.
#[verifier::external_body]
pub(crate) fn add_days(d: CivilDate, days: i64) -> (r: Option<CivilDate>)
    requires
        date_valid(d),
        -100_000_000_000 <= days <= 100_000_000_000,
    ensures
        r == chrono_add_days(d, days),
        r matches Some(e) ==> date_valid(e),
{
    chrono::NaiveDate::from_ymd_opt(d.year, d.month, d.day).unwrap().checked_add_signed(
        chrono::TimeDelta::days(days),
    ).map(
        |e| CivilDate {
            year: chrono::Datelike::year(&e),
            month: chrono::Datelike::month(&e),
            day: chrono::Datelike::day(&e),
        },
    )
}

/// `d` written `YYYYMMDD` in zero-padded digits.
pub open spec fn ymd_digits(d: CivilDate) -> Seq<char> {
    padded(d.year as nat, 4) + padded(d.month as nat, 2) + padded(d.day as nat, 2)
}

/// What chrono's `%Y%m%d` writes for `d`: four, two and two zero-padded
/// digits for a year from 0 to 9999; for other years (written with a sign)
/// the text is named.
pub open spec fn ymd_text(d: CivilDate) -> Seq<char> {
    if 0 <= d.year <= 9999 {
        ymd_digits(d)
    } else {
        chrono_format_date(d, ymd_format())
    }
}

/// `chrono::NaiveDate::format` with the format `%Y%m%d`, written out.
#[verifier::external_body]
pub(crate) fn format_date(d: CivilDate, fmt: &str) -> (s: String)
    requires
        date_valid(d),
        fmt@ == ymd_format(),
    ensures
        s@ == (if 0 <= d.year <= 9999 {
            ymd_digits(d)
        } else {
            chrono_format_date(d, fmt@)
        }),
{
    chrono::NaiveDate::from_ymd_opt(d.year, d.month, d.day).unwrap().format(fmt).to_string()
}

} // verus!
