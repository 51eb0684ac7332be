//! Calendar dates of the proleptic Gregorian calendar.
//!
//! A date is a plain `(year, month, day)` triple. Its mathematical model is
//! the day number: the count of days since the day before 1 January of
//! year 1. Date arithmetic is done by `chrono`; the contracts of the calls
//! into it are stated over the day number.

use chrono::Datelike;
use vstd::prelude::*;

verus! {

/// The first year a date can lie in.
pub const MIN_YEAR: i32 = -262_143;

/// The last year a date can lie in.
pub const MAX_YEAR: i32 = 262_142;

/// Whether `year` has a 29 February.
pub open spec fn is_leap_year(year: int) -> bool {
    year % 4 == 0 && (year % 100 != 0 || year % 400 == 0)
}

/// The number of days of `month` in `year`, for a month from 1 to 12.
pub open spec fn days_in_month(year: int, month: int) -> int {
    if month == 2 {
        if is_leap_year(year) {
            29
        } else {
            28
        }
    } else if month == 4 || month == 6 || month == 9 || month == 11 {
        30
    } else {
        31
    }
}

/// Whether `(year, month, day)` names a day that exists.
pub open spec fn is_valid_ymd(year: int, month: int, day: int) -> bool {
    &&& MIN_YEAR <= year <= MAX_YEAR
    &&& 1 <= month <= 12
    &&& 1 <= day <= days_in_month(year, month)
}

/// The number of days in all years before `year`, counted from year 1.
pub open spec fn days_before_year(year: int) -> int {
    let y = year - 1;
    365 * y + y / 4 - y / 100 + y / 400
}

/// The number of days of `year` that lie before the first of `month`.
pub open spec fn days_before_month(year: int, month: int) -> int
    decreases month,
{
    if month <= 1 {
        0
    } else {
        days_before_month(year, month - 1) + days_in_month(year, month - 1)
    }
}

/// The day number of the last date there is.
pub open spec fn last_day_number() -> int {
    days_before_year(MAX_YEAR as int) + 365
}

/// The date with day number `n`, for an `n` that is the day number of a date.
pub open spec fn date_of_day_number(n: int) -> CalendarDate {
    choose|d: CalendarDate| d.wf() && d.day_number() == n
}

/// The date that a compact token starts with, as `chrono` reads it.
pub open spec fn compact_date(token: Seq<char>) -> Option<CalendarDate> {
    match parsed_compact_date(token) {
        Some((year, month, day)) => Some(
            CalendarDate { year: year as i32, month: month as u32, day: day as u32 },
        ),
        None => None,
    }
}

/// A day of the proleptic Gregorian calendar.
#[derive(Clone, Copy, Debug, PartialEq, Eq, Structural, Hash)]
pub struct CalendarDate {
    pub year: i32,
    pub month: u32,
    pub day: u32,
}

impl CalendarDate {
    /// The date names a day that exists.
    pub open spec fn wf(self) -> bool {
        is_valid_ymd(self.year as int, self.month as int, self.day as int)
    }

    /// Days since the day before 1 January of year 1: the count that
    /// `chrono` calls the number of days from the Common Era.
    pub open spec fn day_number(self) -> int {
        days_before_year(self.year as int) + days_before_month(self.year as int, self.month as int)
            + self.day
    }

    /// Chronological order, strict.
    pub open spec fn lt(self, other: CalendarDate) -> bool {
        self.year < other.year || (self.year == other.year && (self.month < other.month || (
        self.month == other.month && self.day < other.day)))
    }

    /// Chronological order.
    pub open spec fn le(self, other: CalendarDate) -> bool {
        self.lt(other) || self == other
    }

    /// The date `(year, month, day)` if that day exists.
    pub fn from_ymd_opt(year: i32, month: u32, day: u32) -> (r: Option<CalendarDate>)
        ensures
            r == if is_valid_ymd(year as int, month as int, day as int) {
                Some(CalendarDate { year, month, day })
            } else {
                None
            },
    {
        if date_exists(year, month, day) {
            Some(CalendarDate { year, month, day })
        } else {
            None
        }
    }

    /// The date that a compact `YYYYMMDD` token starts with, if it starts
    /// with one. What follows the date in the token is ignored.
    pub fn from_compact(token: &str) -> (r: Option<CalendarDate>)
        ensures
            r == compact_date(token@),
            r matches Some(d) ==> d.wf(),
    {
        parse_date(token)
    }

    /// The number of days from `self` to `other`: negative when `other` is
    /// the earlier day.
    pub fn days_until(&self, other: &CalendarDate) -> (r: i64)
        requires
            self.wf(),
            other.wf(),
        ensures
            r == other.day_number() - self.day_number(),
            self.le(*other) <==> r >= 0,
            *self == *other <==> r == 0,
    {
        proof {
            lemma_day_number_order(*self, *other);
            lemma_day_number_order(*other, *self);
        }
        days_between(*self, *other)
    }

    /// The day `days` days after `self`, or `None` if no date is that late.
    pub fn plus_days(&self, days: u64) -> (r: Option<CalendarDate>)
        requires
            self.wf(),
        ensures
            r == if self.day_number() + days <= last_day_number() {
                Some(date_of_day_number(self.day_number() + days))
            } else {
                None
            },
            r matches Some(d) ==> d.wf() && d.day_number() == self.day_number() + days,
    {
        let r = add_days(*self, days);
        proof {
            lemma_day_number_bounds(*self);
            match r {
                Some(d) => {
                    lemma_day_number_bounds(d);
                    lemma_date_of_day_number(d);
                },
                None => {},
            }
        }
        r
    }

    /// The number, from 1 to 53, of the ISO 8601 week that the date lies in.
    pub fn iso_week(&self) -> (r: u32)
        requires
            self.wf(),
        ensures
            r == iso_week_number(self.year as int, self.month as int, self.day as int),
            1 <= r <= 53,
    {
        iso_week_of(*self)
    }

    /// Whether `self` is the same day as `other` or an earlier one.
    pub fn is_le(&self, other: &CalendarDate) -> (r: bool)
        ensures
            r == self.le(*other),
    {
        if self.year != other.year {
            self.year < other.year
        } else if self.month != other.month {
            self.month < other.month
        } else {
            self.day <= other.day
        }
    }
}

/// The first of month `m + 1` comes `days_in_month` days after the first of
/// month `m`; the table of the twelve months.
pub proof fn lemma_days_before_month(year: int, month: int)
    requires
        1 <= month <= 12,
    ensures
        days_before_month(year, month) == if month == 1 {
            0int
        } else if month == 2 {
            31
        } else {
            (if is_leap_year(year) { 1int } else { 0int }) + if month == 3 {
                59int
            } else if month == 4 {
                90
            } else if month == 5 {
                120
            } else if month == 6 {
                151
            } else if month == 7 {
                181
            } else if month == 8 {
                212
            } else if month == 9 {
                243
            } else if month == 10 {
                273
            } else if month == 11 {
                304
            } else {
                334
            }
        },
        days_before_month(year, month) + days_in_month(year, month) <= (if is_leap_year(year) {
            366int
        } else {
            365int
        }),
{
    reveal_with_fuel(days_before_month, 13);
}

/// From one number to the next the quotient by 4, by 100 or by 400 goes
/// up by one where the divisor divides the number, and stays otherwise.
proof fn lemma_quotient_step(y: int)
    ensures
        y / 4 - (y - 1) / 4 == (if y % 4 == 0 { 1int } else { 0int }),
        y / 100 - (y - 1) / 100 == (if y % 100 == 0 { 1int } else { 0int }),
        y / 400 - (y - 1) / 400 == (if y % 400 == 0 { 1int } else { 0int }),
{
    assert(y / 4 - (y - 1) / 4 == (if y % 4 == 0 { 1int } else { 0int }));
    assert(y / 100 - (y - 1) / 100 == (if y % 100 == 0 { 1int } else { 0int }));
    assert(y / 400 - (y - 1) / 400 == (if y % 400 == 0 { 1int } else { 0int }));
}

/// What 400 divides, 100 divides; what 100 divides, 4 divides.
proof fn lemma_divisor_chain(y: int)
    ensures
        y % 400 == 0 ==> y % 100 == 0,
        y % 100 == 0 ==> y % 4 == 0,
{
    assert(y % 400 == 0 ==> y % 100 == 0);
    assert(y % 100 == 0 ==> y % 4 == 0);
}

/// A year has 365 days, or 366 if it is a leap year.
pub proof fn lemma_year_length(year: int)
    ensures
        days_before_year(year + 1) == days_before_year(year) + 365 + if is_leap_year(year) {
            1int
        } else {
            0int
        },
{
    lemma_quotient_step(year);
    lemma_divisor_chain(year);
}

/// Later years start later, by at least 365 days a year.
pub proof fn lemma_days_before_year_increases(y1: int, y2: int)
    requires
        y1 <= y2,
    ensures
        days_before_year(y2) >= days_before_year(y1) + 365 * (y2 - y1),
        days_before_year(y2) <= days_before_year(y1) + 366 * (y2 - y1),
    decreases y2 - y1,
{
    if y1 < y2 {
        lemma_days_before_year_increases(y1, y2 - 1);
        lemma_year_length(y2 - 1);
    }
}

/// The day number orders the dates as the calendar does.
pub proof fn lemma_day_number_order(a: CalendarDate, b: CalendarDate)
    requires
        a.wf(),
        b.wf(),
    ensures
        a.lt(b) <==> a.day_number() < b.day_number(),
        a == b <==> a.day_number() == b.day_number(),
        a.le(b) <==> a.day_number() <= b.day_number(),
{
    lemma_day_number_strict(a, b);
    lemma_day_number_strict(b, a);
}

proof fn lemma_day_number_strict(a: CalendarDate, b: CalendarDate)
    requires
        a.wf(),
        b.wf(),
    ensures
        a.lt(b) ==> a.day_number() < b.day_number(),
{
    lemma_days_before_month(a.year as int, a.month as int);
    lemma_days_before_month(b.year as int, b.month as int);
    if a.year < b.year {
        lemma_year_length(a.year as int);
        lemma_days_before_year_increases(a.year + 1, b.year as int);
    }
}

/// The day numbers of the dates that exist, from first to last.
pub proof fn lemma_day_number_bounds(d: CalendarDate)
    requires
        d.wf(),
    ensures
        days_before_year(MIN_YEAR as int) < d.day_number() <= last_day_number(),
        -95_747_000 < days_before_year(MIN_YEAR as int),
        last_day_number() < 95_747_000,
{
    lemma_days_before_month(d.year as int, d.month as int);
    lemma_days_before_year_increases(MIN_YEAR as int, d.year as int);
    lemma_year_length(d.year as int);
    lemma_days_before_year_increases(d.year + 1, MAX_YEAR + 1);
    lemma_year_length(MAX_YEAR as int);
}

/// The day after a date that is not the last one: it exists, and its day
/// number is one more.
pub open spec fn next_day(d: CalendarDate) -> CalendarDate {
    if d.day < days_in_month(d.year as int, d.month as int) {
        CalendarDate { year: d.year, month: d.month, day: (d.day + 1) as u32 }
    } else if d.month < 12 {
        CalendarDate { year: d.year, month: (d.month + 1) as u32, day: 1 }
    } else {
        CalendarDate { year: (d.year + 1) as i32, month: 1, day: 1 }
    }
}

/// See [`next_day`].
pub proof fn lemma_next_day(d: CalendarDate)
    requires
        d.wf(),
        d.day_number() < last_day_number(),
    ensures
        next_day(d).wf(),
        next_day(d).day_number() == d.day_number() + 1,
{
    lemma_days_before_month(d.year as int, d.month as int);
    lemma_year_length(d.year as int);
    lemma_year_length(MAX_YEAR as int);
    if d.day < days_in_month(d.year as int, d.month as int) {
    } else if d.month < 12 {
        lemma_days_before_month(d.year as int, d.month + 1);
    } else {
        if d.year == MAX_YEAR {
            assert(d.day_number() == last_day_number());
        }
        lemma_days_before_month(d.year + 1, 1);
    }
}

/// Every day number from that of a date to the last one is the day number
/// of a date.
pub proof fn lemma_day_number_in_range(from: CalendarDate, n: int)
    requires
        from.wf(),
        from.day_number() <= n <= last_day_number(),
    ensures
        date_of_day_number(n).wf(),
        date_of_day_number(n).day_number() == n,
    decreases n - from.day_number(),
{
    if n == from.day_number() {
        lemma_date_of_day_number(from);
    } else {
        lemma_day_number_in_range(from, n - 1);
        let d = date_of_day_number(n - 1);
        lemma_next_day(d);
        let e = next_day(d);
        assert(e.wf() && e.day_number() == n);
    }
}

/// A date is the only one with its day number.
pub proof fn lemma_date_of_day_number(d: CalendarDate)
    requires
        d.wf(),
    ensures
        date_of_day_number(d.day_number()) == d,
{
    let e = date_of_day_number(d.day_number());
    assert(e.wf() && e.day_number() == d.day_number());
    lemma_day_number_order(d, e);
}

// Calls into chrono. Verus takes their contracts on trust.

/// `chrono::NaiveDate::from_ymd_opt`: a date is made exactly when the year
/// is in chrono's range, the month is one of the twelve and the day exists
/// in that month.
#[verifier::external_body]
fn date_exists(year: i32, month: u32, day: u32) -> (r: bool)
    ensures
        r == is_valid_ymd(year as int, month as int, day as int),
{
    chrono::NaiveDate::from_ymd_opt(year, month, day).is_some()
}

/// What `chrono::NaiveDate::parse_and_remainder` reads at the start of
/// `token` under the format `%Y%m%d`: year, month and day, or nothing.
pub uninterp spec fn parsed_compact_date(token: Seq<char>) -> Option<(int, int, int)>;

/// The ISO 8601 week number that `chrono` gives for a date.
pub uninterp spec fn iso_week_number(year: int, month: int, day: int) -> int;

/// `chrono::NaiveDate::parse_and_remainder` with the format `%Y%m%d`: the
/// date read is a function of the token, and a date that chrono returns
/// exists.
#[verifier::external_body]
fn parse_date(token: &str) -> (r: Option<CalendarDate>)
    ensures
        match r {
            Some(d) => d.wf() && parsed_compact_date(token@) == Some(
                (d.year as int, d.month as int, d.day as int),
            ),
            None => parsed_compact_date(token@) is None,
        },
{
    match chrono::NaiveDate::parse_and_remainder(token, "%Y%m%d") {
        Ok((d, _)) => Some(CalendarDate { year: d.year(), month: d.month(), day: d.day() }),
        Err(_) => None,
    }
}

/// `chrono::NaiveDate::signed_duration_since` and `TimeDelta::num_days`:
/// the difference of two dates is the difference of their day numbers.
#[verifier::external_body]
fn days_between(from: CalendarDate, to: CalendarDate) -> (r: i64)
    requires
        from.wf(),
        to.wf(),
    ensures
        r == to.day_number() - from.day_number(),
{
    let a = chrono::NaiveDate::from_ymd_opt(from.year, from.month, from.day).unwrap();
    let b = chrono::NaiveDate::from_ymd_opt(to.year, to.month, to.day).unwrap();
    b.signed_duration_since(a).num_days()
}

/// `chrono::NaiveDate::checked_add_days`: the date returned is `days` days
/// later; none is returned only if `days` is over `i32::MAX` or the date
/// would lie after the last one.
#[verifier::external_body]
fn add_days(date: CalendarDate, days: u64) -> (r: Option<CalendarDate>)
    requires
        date.wf(),
    ensures
        match r {
            Some(d) => d.wf() && d.day_number() == date.day_number() + days,
            None => days > i32::MAX || date.day_number() + days > last_day_number(),
        },
{
    let start = chrono::NaiveDate::from_ymd_opt(date.year, date.month, date.day).unwrap();
    match start.checked_add_days(chrono::Days::new(days)) {
        Some(d) => Some(CalendarDate { year: d.year(), month: d.month(), day: d.day() }),
        None => None,
    }
}

/// `chrono::Datelike::iso_week` and `IsoWeek::week`: the week number is a
/// function of the date and lies between 1 and 53.
#[verifier::external_body]
fn iso_week_of(date: CalendarDate) -> (r: u32)
    requires
        date.wf(),
    ensures
        r == iso_week_number(date.year as int, date.month as int, date.day as int),
        1 <= r <= 53,
{
    let d = chrono::NaiveDate::from_ymd_opt(date.year, date.month, date.day).unwrap();
    d.iso_week().week()
}

} // verus!
