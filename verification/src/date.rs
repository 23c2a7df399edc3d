//! Calendar dates of the proleptic Gregorian calendar.
use vstd::prelude::*;
use vstd::string::*;
use crate::number;

verus! {

/// The first year that a date can have.
pub const MIN_YEAR: i32 = -262143;

/// The last year that a date can have.
pub const MAX_YEAR: i32 = 262142;

/// Whether `y` is a leap year.
pub open spec fn is_leap(y: int) -> bool {
    y % 4 == 0 && (y % 100 != 0 || y % 400 == 0)
}

/// The number of days of month `m` of year `y`.
pub open spec fn days_in_month(y: int, m: int) -> int {
    if m == 2 {
        if is_leap(y) {
            29
        } else {
            28
        }
    } else if m == 4 || m == 6 || m == 9 || m == 11 {
        30
    } else {
        31
    }
}

/// Whether year `y`, month `m` and day `d` name a day of the calendar.
pub open spec fn is_date(y: int, m: int, d: int) -> bool {
    MIN_YEAR <= y <= MAX_YEAR && 1 <= m <= 12 && 1 <= d <= days_in_month(y, m)
}

/// `YYYY-MM-DD`.
pub open spec fn iso_date(y: int, m: int, d: int) -> Seq<char> {
    number::four_digits(y as nat) + seq!['-'] + number::two_digits(m as nat) + seq!['-']
        + number::two_digits(d as nat)
}

/// The text that a date is written as, the fields being year, month and day.
pub uninterp spec fn date_text(y: int, m: int, d: int) -> Seq<char>;

/// How a date is written: as `YYYY-MM-DD` where the year has four digits.
pub open spec fn written(y: int, m: int, d: int) -> Seq<char> {
    if 0 <= y <= 9999 {
        iso_date(y, m, d)
    } else {
        date_text(y, m, d)
    }
}

/// The date that a text in the form `YYYY-MM-DD` is read as.
pub uninterp spec fn date_of_text(s: Seq<char>) -> Option<(int, int, int)>;

/// The day before.
pub open spec fn day_before(y: int, m: int, d: int) -> Option<(int, int, int)> {
    if d > 1 {
        Some((y, m, d - 1))
    } else if m > 1 {
        Some((y, m - 1, days_in_month(y, m - 1)))
    } else if y > MIN_YEAR {
        Some((y - 1, 12, 31))
    } else {
        None
    }
}

/// A day of the calendar.
#[derive(Clone, Copy, Debug, PartialEq, Eq)]
pub struct Date {
    year: i32,
    month: u32,
    day: u32,
}

impl View for Date {
    type V = (int, int, int);

    closed spec fn view(&self) -> (int, int, int) {
        (self.year as int, self.month as int, self.day as int)
    }
}

impl Date {
    #[verifier::type_invariant]
    closed spec fn on_calendar(self) -> bool {
        is_date(self.year as int, self.month as int, self.day as int)
    }

    /// The date of that year, month and day, if there is one.
    pub fn new(year: i32, month: u32, day: u32) -> (r: Option<Date>)
        ensures
            match r {
                Some(date) => is_date(year as int, month as int, day as int) && date@ == (
                    year as int,
                    month as int,
                    day as int,
                ),
                None => !is_date(year as int, month as int, day as int),
            },
    {
        if year < MIN_YEAR || year > MAX_YEAR || month < 1 || month > 12 || day < 1 {
            return None;
        }
        if day > month_length(year, month) {
            return None;
        }
        Some(Date { year, month, day })
    }

    /// The year.
    pub fn year(&self) -> (r: i32)
        ensures
            r == self@.0,
    {
        self.year
    }

    /// The month, from 1.
    pub fn month(&self) -> (r: u32)
        ensures
            r == self@.1,
    {
        self.month
    }

    /// The day of the month, from 1.
    pub fn day(&self) -> (r: u32)
        ensures
            r == self@.2,
    {
        self.day
    }

    /// Whether two dates are the same day.
    pub fn same(&self, other: &Date) -> (r: bool)
        ensures
            r == (self@ == other@),
            r == (*self == *other),
    {
        self.year == other.year && self.month == other.month && self.day == other.day
    }

    /// The day before, unless this is the first day there is.
    pub fn pred_opt(&self) -> (r: Option<Date>)
        ensures
            match r {
                Some(d) => day_before(self@.0, self@.1, self@.2) == Some(d@),
                None => day_before(self@.0, self@.1, self@.2) is None,
            },
    {
        proof {
            use_type_invariant(self);
        }
        if self.day > 1 {
            Some(Date { year: self.year, month: self.month, day: self.day - 1 })
        } else if self.month > 1 {
            let m: u32 = self.month - 1;
            Some(Date { year: self.year, month: m, day: month_length(self.year, m) })
        } else if self.year > MIN_YEAR {
            Some(Date { year: self.year - 1, month: 12, day: 31 })
        } else {
            None
        }
    }

    /// The date as text: `YYYY-MM-DD` for the years 0 to 9999.
    pub fn to_text(&self) -> (r: String)
        ensures
            r@ == written(self@.0, self@.1, self@.2),
    {
        proof {
            use_type_invariant(self);
        }
        format_date(self.year, self.month, self.day)
    }

    /// The date that a text in the form `YYYY-MM-DD` is read as.
    pub fn parse(s: &str) -> (r: Option<Date>)
        ensures
            match r {
                Some(d) => date_of_text(s@) == Some(d@),
                None => date_of_text(s@) is None,
            },
            forall|y: int, m: int, d: int|
                is_date(y, m, d) && 0 <= y <= 9999 && s@ == #[trigger] iso_date(y, m, d)
                    ==> r is Some && r->0@ == (y, m, d),
    {
        match parse_date(s) {
            Some((y, m, d)) => Date::new(y, m, d),
            None => None,
        }
    }
}

/// The number of days of that month.
fn month_length(year: i32, month: u32) -> (n: u32)
    requires
        1 <= month <= 12,
        MIN_YEAR <= year <= MAX_YEAR,
    ensures
        n == days_in_month(year as int, month as int),
{
    if month == 2 {
        // The calendar repeats every 400 years, so a non-negative year will do.
        let y: u32 = (year + 262400) as u32;
        if y % 4 == 0 && (y % 100 != 0 || y % 400 == 0) {
            29
        } else {
            28
        }
    } else if month == 4 || month == 6 || month == 9 || month == 11 {
        30
    } else {
        31
    }
}

/// `chrono::NaiveDate::from_ymd_opt`, then `format("%Y-%m-%d")`. The text is
/// named; for the years 0 to 9999 it is the year in four digits, the month in
/// two and the day in two, with hyphens between.
#[verifier::external_body]
fn format_date(year: i32, month: u32, day: u32) -> (r: String)
    requires
        is_date(year as int, month as int, day as int),
    ensures
        r@ == date_text(year as int, month as int, day as int),
        0 <= year <= 9999 ==> r@ == iso_date(year as int, month as int, day as int),
{
    match chrono::NaiveDate::from_ymd_opt(year, month, day) {
        Some(d) => d.format("%Y-%m-%d").to_string(),
        None => String::new(),
    }
}

/// `chrono::NaiveDate::parse_from_str` with `%Y-%m-%d`. What it reads is named;
/// it is a day of the calendar, and a date of the years 0 to 9999 that is
/// written as `YYYY-MM-DD` is read back as itself.
#[verifier::external_body]
fn parse_date(s: &str) -> (r: Option<(i32, u32, u32)>)
    ensures
        match r {
            Some((y, m, d)) => date_of_text(s@) == Some((y as int, m as int, d as int)) && is_date(
                y as int,
                m as int,
                d as int,
            ),
            None => date_of_text(s@) is None,
        },
        forall|y: int, m: int, d: int|
            is_date(y, m, d) && 0 <= y <= 9999 && s@ == #[trigger] iso_date(y, m, d) ==> r is Some
                && (r->0).0 == y && (r->0).1 == m && (r->0).2 == d,
{
    match chrono::NaiveDate::parse_from_str(s, "%Y-%m-%d") {
        Ok(d) => Some((
            chrono::Datelike::year(&d),
            chrono::Datelike::month(&d),
            chrono::Datelike::day(&d),
        )),
        Err(_) => None,
    }
}

/// A date of the years 0 to 9999 takes ten characters.
pub proof fn lemma_iso_date_len(y: int, m: int, d: int)
    requires
        0 <= y <= 9999,
        is_date(y, m, d),
    ensures
        iso_date(y, m, d).len() == 10,
        forall|i: int| 0 <= i < 10 ==> ((#[trigger] iso_date(y, m, d)[i]) as u32) < 128,
{
    number::lemma_decimal_digits(m as nat);
    number::lemma_decimal_digits(d as nat);
    number::lemma_two_digits(m as nat);
    number::lemma_two_digits(d as nat);
    let s = iso_date(y, m, d);
    assert forall|i: int| 0 <= i < 10 implies ((#[trigger] s[i]) as u32) < 128 by {
        if i < 4 {
            assert(s[i] == number::four_digits(y as nat)[i]);
        } else if i == 4 || i == 7 {
            assert(s[i] == '-');
        } else if i < 7 {
            assert(s[i] == number::two_digits(m as nat)[i - 5]);
        } else {
            assert(s[i] == number::two_digits(d as nat)[i - 8]);
        }
    }
}

} // verus!
