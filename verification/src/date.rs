//! Calendar dates, as the page schema's `updated` field holds them.
//!
//! The calendar arithmetic (which dates exist, how one is spelled) is the
//! `chrono` crate's; this module holds a date as plain numbers so the rest of
//! the library can order and compare dates.

use vstd::prelude::*;
use chrono::Datelike;

verus! {

/// The earliest and latest years a `chrono::NaiveDate` can hold.
pub open spec fn min_year() -> int {
    -262143
}

pub open spec fn max_year() -> int {
    262142
}

/// Gregorian leap years, extended to years before the calendar's adoption.
pub open spec fn is_leap(y: int) -> bool {
    (y % 4 == 0 && y % 100 != 0) || y % 400 == 0
}

pub open spec fn days_in_month(y: int, m: int) -> int {
    if m == 2 {
        if is_leap(y) {
            29
        } else {
            28
        }
    } else if m == 4 || m == 6 || m == 9 || m == 11 {
        30
    } else {
        31
    }
}

/// A date that exists, in the range `chrono` can represent.
pub open spec fn valid_ymd(y: int, m: int, d: int) -> bool {
    &&& min_year() <= y <= max_year()
    &&& 1 <= m <= 12
    &&& 1 <= d <= days_in_month(y, m)
}

/// A calendar date.
#[derive(Debug, Clone, Copy, PartialEq, Eq)]
pub struct Date {
    year: i32,
    month: u32,
    day: u32,
}

/// What `chrono` parses out of a text with the format `%Y-%m-%d`, as year,
/// month and day; `None` where it refuses the text.
pub uninterp spec fn parsed_iso_date(text: Seq<char>) -> Option<(i32, u32, u32)>;

/// `s` with zeros in front up to four characters.
pub open spec fn zero_pad4(s: Seq<char>) -> Seq<char> {
    if s.len() < 4 {
        Seq::new((4 - s.len()) as nat, |i: int| '0') + s
    } else {
        s
    }
}

/// How `chrono` writes a date: `YYYY-MM-DD`, the year as four digits when it
/// lies in `0..=9999`, and otherwise with its sign and at least four digits,
/// as ISO 8601 asks.
pub open spec fn date_display(y: i32, m: u32, d: u32) -> Seq<char> {
    let year = if 0 <= y <= 9999 {
        two_digits(y / 100) + two_digits((y % 100) as int)
    } else {
        (if y < 0 {
            seq!['-']
        } else {
            seq!['+']
        }) + zero_pad4(crate::strings::decimal((if y < 0 {
            -(y as int)
        } else {
            y as int
        }) as nat))
    };
    year + seq!['-'] + two_digits(m as int) + seq!['-'] + two_digits(d as int)
}

/// The digit for `n`, which is below ten.
pub open spec fn digit(n: int) -> char {
    (n + 48) as char
}

/// `n`, below a hundred, as two digits.
pub open spec fn two_digits(n: int) -> Seq<char> {
    seq![digit(n / 10), digit(n % 10)]
}

/// `YYYY-MM-DD` for a year in `0..=9999`.
pub open spec fn iso_text(y: int, m: int, d: int) -> Seq<char> {
    two_digits(y / 100) + two_digits(y % 100) + seq!['-'] + two_digits(m) + seq!['-'] + two_digits(
        d,
    )
}

/// `chrono::NaiveDate::from_ymd_opt`: the date with these fields, when it exists
/// and lies in `chrono`'s range.
#[verifier::external_body]
fn chrono_from_ymd(y: i32, m: u32, d: u32) -> (r: Option<Date>)
    ensures
        r == (if valid_ymd(y as int, m as int, d as int) {
            Some(Date { year: y, month: m, day: d })
        } else {
            None
        }),
{
    match chrono::NaiveDate::from_ymd_opt(y, m, d) {
        Some(n) => Some(Date { year: n.year(), month: n.month(), day: n.day() }),
        None => None,
    }
}

/// `chrono::NaiveDate::parse_from_str` with the format `%Y-%m-%d`. Its result
/// is named; every date it returns is a real one.
#[verifier::external_body]
fn chrono_parse_iso(text: &str) -> (r: Option<Date>)
    ensures
        match r {
            Some(dt) => {
                &&& parsed_iso_date(text@) == Some((dt.year, dt.month, dt.day))
                &&& valid_ymd(dt.year as int, dt.month as int, dt.day as int)
            },
            None => parsed_iso_date(text@) is None,
        },
{
    match chrono::NaiveDate::parse_from_str(text, "%Y-%m-%d") {
        Ok(n) => Some(Date { year: n.year(), month: n.month(), day: n.day() }),
        Err(_) => None,
    }
}

/// `chrono`'s `Display` of a `NaiveDate`, which writes what its `Debug` does:
/// `YYYY-MM-DD`, with a sign and at least four digits for a year outside
/// `0..=9999`.
#[verifier::external_body]
fn chrono_display(y: i32, m: u32, d: u32) -> (r: String)
    requires
        valid_ymd(y as int, m as int, d as int),
    ensures
        r@ == date_display(y, m, d),
        0 <= y <= 9999 ==> r@ == iso_text(y as int, m as int, d as int),
{
    chrono::NaiveDate::from_ymd_opt(y, m, d).unwrap().to_string()
}

impl Date {
    #[verifier::type_invariant]
    spec fn valid(self) -> bool {
        valid_ymd(self.year as int, self.month as int, self.day as int)
    }

    pub closed spec fn year_spec(&self) -> i32 {
        self.year
    }

    pub closed spec fn month_spec(&self) -> u32 {
        self.month
    }

    pub closed spec fn day_spec(&self) -> u32 {
        self.day
    }

    /// Year, month and day.
    pub open spec fn ymd(&self) -> (i32, u32, u32) {
        (self.year_spec(), self.month_spec(), self.day_spec())
    }

    /// The date with these fields, or `None` when there is no such date.
    pub fn from_ymd_opt(y: i32, m: u32, d: u32) -> (r: Option<Date>)
        ensures
            match r {
                Some(dt) => valid_ymd(y as int, m as int, d as int) && dt.ymd() == (y, m, d),
                None => !valid_ymd(y as int, m as int, d as int),
            },
    {
        chrono_from_ymd(y, m, d)
    }

    /// A text in the format `%Y-%m-%d`, as `chrono` reads it.
    pub fn parse_iso(text: &str) -> (r: Option<Date>)
        ensures
            match r {
                Some(dt) => parsed_iso_date(text@) == Some(dt.ymd()),
                None => parsed_iso_date(text@) is None,
            },
    {
        chrono_parse_iso(text)
    }

    pub fn year(&self) -> (r: i32)
        ensures
            r == self.ymd().0,
    {
        self.year
    }

    pub fn month(&self) -> (r: u32)
        ensures
            r == self.ymd().1,
    {
        self.month
    }

    pub fn day(&self) -> (r: u32)
        ensures
            r == self.ymd().2,
    {
        self.day
    }

    /// The date as `chrono` writes it: `YYYY-MM-DD` for a four-digit year.
    pub fn to_string(&self) -> (r: String)
        ensures
            r@ == date_display(self.ymd().0, self.ymd().1, self.ymd().2),
            0 <= self.ymd().0 <= 9999 ==> r@ == iso_text(
                self.ymd().0 as int,
                self.ymd().1 as int,
                self.ymd().2 as int,
            ),
    {
        proof {
            use_type_invariant(self);
        }
        chrono_display(self.year, self.month, self.day)
    }

    /// Whether `self` comes after `other`.
    pub fn is_after(&self, other: &Date) -> (r: bool)
        ensures
            r == date_after(self.ymd(), other.ymd()),
    {
        self.year > other.year || (self.year == other.year && (self.month > other.month || (
        self.month == other.month && self.day > other.day)))
    }
}

/// Calendar order.
pub open spec fn date_after(a: (i32, u32, u32), b: (i32, u32, u32)) -> bool {
    a.0 > b.0 || (a.0 == b.0 && (a.1 > b.1 || (a.1 == b.1 && a.2 > b.2)))
}

} // verus!
