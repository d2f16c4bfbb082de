//! Civil dates of the proleptic Gregorian calendar.
//!
//! A [`Date`] is a day number: the count of days since the day before
//! January 1 of year 1, so that January 1 of year 1 is day 1. The first half
//! of this module says in spec functions how a day number relates to year,
//! month, day and weekday and proves that a day has one calendar date only.
//! The second half holds the calls into `chrono` that compute those
//! relations, each behind a contract that Verus takes on trust, and the
//! `Date` type on top of them.

use vstd::prelude::*;
use chrono::{Datelike, Days, Months, NaiveDate};

verus! {

/// The first year that a date can lie in.
pub const MIN_YEAR: i32 = -262_143;

/// The last year that a date can lie in.
pub const MAX_YEAR: i32 = 262_142;

/// The day number of January 1 of `MIN_YEAR`.
pub const MIN_DAYS: i32 = -95_746_129;

/// The day number of December 31 of `MAX_YEAR`.
pub const MAX_DAYS: i32 = 95_745_399;

/// The days of the week.
#[derive(PartialEq, Eq, Copy, Clone, Debug, Hash, Structural)]
pub enum Weekday {
    Mon,
    Tue,
    Wed,
    Thu,
    Fri,
    Sat,
    Sun,
}

/// Whether `n` is the day number of a date that can be represented.
pub open spec fn in_range(n: int) -> bool {
    MIN_DAYS <= n <= MAX_DAYS
}

/// Whether year `y` has a February 29.
pub open spec fn is_leap(y: int) -> bool {
    y % 4 == 0 && (y % 100 != 0 || y % 400 == 0)
}

/// The number of days in year `y`.
pub open spec fn days_in_year(y: int) -> int {
    if is_leap(y) {
        366
    } else {
        365
    }
}

/// The number of days in month `m` of year `y`.
pub open spec fn days_in_month(y: int, m: int) -> int {
    if m == 2 {
        if is_leap(y) {
            29
        } else {
            28
        }
    } else if m == 4 || m == 6 || m == 9 || m == 11 {
        30
    } else {
        31
    }
}

/// The number of days of year `y` that lie before its month `m`.
pub open spec fn days_before_month(y: int, m: int) -> int
    decreases m,
{
    if m <= 1 {
        0
    } else {
        days_before_month(y, m - 1) + days_in_month(y, m - 1)
    }
}

/// The number of days from January 1 of year 1 up to, and without,
/// January 1 of year `y`; negative for the years before year 1.
pub open spec fn days_before_year(y: int) -> int {
    365 * (y - 1) + (y - 1) / 4 - (y - 1) / 100 + (y - 1) / 400
}

/// Whether `y`, `m`, `d` name a day that exists and can be represented.
pub open spec fn valid_ymd(y: int, m: int, d: int) -> bool {
    &&& MIN_YEAR <= y <= MAX_YEAR
    &&& 1 <= m <= 12
    &&& 1 <= d <= days_in_month(y, m)
}

/// The day number of day `d` of month `m` of year `y`.
pub open spec fn day_number(y: int, m: int, d: int) -> int {
    days_before_year(y) + days_before_month(y, m) + d
}

/// Whether day number `n` is day `d` of month `m` of year `y`.
pub open spec fn is_civil(n: int, y: int, m: int, d: int) -> bool {
    valid_ymd(y, m, d) && day_number(y, m, d) == n
}

/// Year, month and day of day number `n`.
pub open spec fn civil_of(n: int) -> (int, int, int) {
    choose|t: (int, int, int)| is_civil(n, t.0, t.1, t.2)
}

/// The year that day number `n` lies in.
pub open spec fn year_of(n: int) -> int {
    civil_of(n).0
}

/// The month, from 1 to 12, that day number `n` lies in.
pub open spec fn month_of(n: int) -> int {
    civil_of(n).1
}

/// The day of the month, from 1, of day number `n`.
pub open spec fn day_of(n: int) -> int {
    civil_of(n).2
}

/// The day numbers of the dates of a list.
pub open spec fn day_numbers(dates: Seq<Date>) -> Seq<int> {
    dates.map_values(|d: Date| d@)
}

/// The weekday of day number `n`. Day 1 is a Monday.
pub open spec fn weekday_of(n: int) -> Weekday {
    let i = (n - 1) % 7;
    if i == 0 {
        Weekday::Mon
    } else if i == 1 {
        Weekday::Tue
    } else if i == 2 {
        Weekday::Wed
    } else if i == 3 {
        Weekday::Thu
    } else if i == 4 {
        Weekday::Fri
    } else if i == 5 {
        Weekday::Sat
    } else {
        Weekday::Sun
    }
}

/// The day number `k` days after day number `n`, unless it lies after the
/// last date.
pub open spec fn add_days_spec(n: int, k: int) -> Option<int> {
    if n + k <= MAX_DAYS {
        Some(n + k)
    } else {
        None
    }
}

/// The day number of the date `k` months after day number `n`: the same day
/// of the month where the new month has it, else the new month's last day.
/// `None` where that date lies after `MAX_YEAR`.
pub open spec fn add_months_spec(n: int, k: int) -> Option<int> {
    let total = year_of(n) * 12 + (month_of(n) - 1) + k;
    let y = total / 12;
    let m = total % 12 + 1;
    let d = if day_of(n) <= days_in_month(y, m) {
        day_of(n)
    } else {
        days_in_month(y, m)
    };
    if y <= MAX_YEAR {
        Some(day_number(y, m, d))
    } else {
        None
    }
}

/// The days before each month, written out.
pub proof fn lemma_days_before_month(y: int)
    ensures
        days_before_month(y, 1) == 0,
        days_before_month(y, 2) == 31,
        days_before_month(y, 3) == days_in_year(y) - 306,
        days_before_month(y, 4) == days_in_year(y) - 275,
        days_before_month(y, 5) == days_in_year(y) - 245,
        days_before_month(y, 6) == days_in_year(y) - 214,
        days_before_month(y, 7) == days_in_year(y) - 184,
        days_before_month(y, 8) == days_in_year(y) - 153,
        days_before_month(y, 9) == days_in_year(y) - 122,
        days_before_month(y, 10) == days_in_year(y) - 92,
        days_before_month(y, 11) == days_in_year(y) - 61,
        days_before_month(y, 12) == days_in_year(y) - 31,
        days_before_month(y, 13) == days_in_year(y),
{
    reveal_with_fuel(days_before_month, 14);
}

/// A year ends where the next one begins.
pub proof fn lemma_year_step(y: int)
    ensures
        days_before_year(y + 1) == days_before_year(y) + days_in_year(y),
{
}

/// Later years begin later, by at least 365 days for each year between.
pub proof fn lemma_days_before_year_grows(y1: int, y2: int)
    requires
        y1 <= y2,
    ensures
        days_before_year(y1) + 365 * (y2 - y1) <= days_before_year(y2),
    decreases y2 - y1,
{
    if y1 < y2 {
        lemma_days_before_year_grows(y1, y2 - 1);
        lemma_year_step(y2 - 1);
    }
}

/// A date of a month lies within its year, after the days before the month.
pub proof fn lemma_day_of_year_bounds(y: int, m: int, d: int)
    requires
        1 <= m <= 12,
        1 <= d <= days_in_month(y, m),
    ensures
        days_before_month(y, m) + d <= days_before_month(y, m + 1),
        0 <= days_before_month(y, m),
        days_before_month(y, m + 1) <= days_in_year(y),
{
    lemma_days_before_month(y);
}

/// The months of a year follow one another.
pub proof fn lemma_days_before_month_grows(y: int, m1: int, m2: int)
    requires
        1 <= m1 <= m2 <= 13,
    ensures
        days_before_month(y, m1) <= days_before_month(y, m2),
{
    lemma_days_before_month(y);
}

/// Day numbers order dates as year, month and day do.
pub proof fn lemma_day_number_increases(y1: int, m1: int, d1: int, y2: int, m2: int, d2: int)
    requires
        1 <= m1 <= 12,
        1 <= d1 <= days_in_month(y1, m1),
        1 <= m2 <= 12,
        1 <= d2 <= days_in_month(y2, m2),
        y1 < y2 || (y1 == y2 && (m1 < m2 || (m1 == m2 && d1 < d2))),
    ensures
        day_number(y1, m1, d1) < day_number(y2, m2, d2),
{
    lemma_day_of_year_bounds(y1, m1, d1);
    lemma_day_of_year_bounds(y2, m2, d2);
    if y1 < y2 {
        lemma_year_step(y1);
        lemma_days_before_year_grows(y1 + 1, y2);
    } else if m1 < m2 {
        lemma_days_before_month_grows(y1, m1 + 1, m2);
    }
}

/// A day number belongs to one date only.
pub proof fn lemma_civil_unique(n: int, y: int, m: int, d: int)
    requires
        is_civil(n, y, m, d),
    ensures
        civil_of(n) == (y, m, d),
        year_of(n) == y,
        month_of(n) == m,
        day_of(n) == d,
{
    let t = (y, m, d);
    assert(is_civil(n, t.0, t.1, t.2));
    let c = civil_of(n);
    assert(is_civil(n, c.0, c.1, c.2));
    if c.0 < y || (c.0 == y && (c.1 < m || (c.1 == m && c.2 < d))) {
        lemma_day_number_increases(c.0, c.1, c.2, y, m, d);
    } else if c != t {
        lemma_day_number_increases(y, m, d, c.0, c.1, c.2);
    }
}

/// Every day number in range belongs to a date.
pub proof fn lemma_civil_exists(n: int)
    requires
        in_range(n),
    ensures
        is_civil(n, year_of(n), month_of(n), day_of(n)),
    decreases n - MIN_DAYS,
{
    lemma_days_before_month(MIN_YEAR as int);
    lemma_days_before_month(MAX_YEAR as int);
    if n == MIN_DAYS {
        lemma_civil_unique(n, MIN_YEAR as int, 1, 1);
    } else {
        lemma_civil_exists(n - 1);
        let (y, m, d) = civil_of(n - 1);
        lemma_days_before_month(y);
        if d < days_in_month(y, m) {
            lemma_civil_unique(n, y, m, d + 1);
        } else if m < 12 {
            reveal_with_fuel(days_before_month, 2);
            lemma_civil_unique(n, y, m + 1, 1);
        } else {
            lemma_year_step(y);
            lemma_days_before_month(y + 1);
            lemma_civil_unique(n, y + 1, 1, 1);
        }
    }
}

/// Later days lie in the same year or in a later one.
pub proof fn lemma_year_of_grows(lo: int, hi: int)
    requires
        in_range(lo),
        in_range(hi),
        lo <= hi,
    ensures
        year_of(lo) <= year_of(hi),
{
    lemma_civil_exists(lo);
    lemma_civil_exists(hi);
    if year_of(hi) < year_of(lo) {
        lemma_day_number_increases(
            year_of(hi),
            month_of(hi),
            day_of(hi),
            year_of(lo),
            month_of(lo),
            day_of(lo),
        );
    }
}

/// A day lies in its year: not before the year's January 1 and before the
/// next year's.
pub proof fn lemma_day_in_year(n: int)
    requires
        in_range(n),
    ensures
        day_number(year_of(n), 1, 1) <= n < day_number(year_of(n) + 1, 1, 1),
        day_number(year_of(n) + 1, 1, 1) == day_number(year_of(n), 1, 1) + days_in_year(year_of(n)),
{
    lemma_civil_exists(n);
    lemma_day_of_year_bounds(year_of(n), month_of(n), day_of(n));
    lemma_year_step(year_of(n));
    lemma_days_before_month(year_of(n));
    lemma_days_before_month(year_of(n) + 1);
}

/// The days of a month lie next to one another: a day between two days of
/// one month of one year is a day of that month.
pub proof fn lemma_month_is_interval(lo: int, mid: int, hi: int)
    requires
        in_range(lo),
        in_range(hi),
        lo <= mid <= hi,
        year_of(lo) == year_of(hi),
        month_of(lo) == month_of(hi),
    ensures
        year_of(mid) == year_of(lo),
        month_of(mid) == month_of(lo),
        day_of(mid) == day_of(lo) + (mid - lo),
{
    lemma_civil_exists(lo);
    lemma_civil_exists(hi);
    lemma_civil_unique(mid, year_of(lo), month_of(lo), day_of(lo) + (mid - lo));
}

/// Every date that exists has a day number in range.
pub proof fn lemma_valid_in_range(y: int, m: int, d: int)
    requires
        valid_ymd(y, m, d),
    ensures
        in_range(day_number(y, m, d)),
{
    lemma_days_before_month(MIN_YEAR as int);
    lemma_days_before_month(MAX_YEAR as int);
    assert(day_number(MIN_YEAR as int, 1, 1) == MIN_DAYS);
    assert(day_number(MAX_YEAR as int, 12, 31) == MAX_DAYS);
    if (y, m, d) != (MIN_YEAR as int, 1int, 1int) {
        lemma_day_number_increases(MIN_YEAR as int, 1, 1, y, m, d);
    }
    if (y, m, d) != (MAX_YEAR as int, 12int, 31int) {
        lemma_day_number_increases(y, m, d, MAX_YEAR as int, 12, 31);
    }
}

/// Calls `chrono::NaiveDate::from_ymd_opt` and, on the date it gives,
/// `Datelike::num_days_from_ce`. Trusted: `chrono` has a date for exactly the
/// year, month and day that `valid_ymd` accepts, and counts its days as
/// `day_number` does.
#[verifier::external_body]
fn chrono_days_from_ymd(year: i32, month: u32, day: u32) -> (r: Option<i32>)
    ensures
        r is Some <==> valid_ymd(year as int, month as int, day as int),
        r matches Some(n) ==> n == day_number(year as int, month as int, day as int),
{
    NaiveDate::from_ymd_opt(year, month, day).map(|d| d.num_days_from_ce())
}

/// Calls `chrono::NaiveDate::from_num_days_from_ce_opt` and reads the date it
/// gives with `Datelike::year`, `month` and `day`. Trusted: `chrono` has a
/// date for exactly the day numbers from `MIN_DAYS` to `MAX_DAYS`, and its
/// year, month and day are those whose `day_number` is `days`.
#[verifier::external_body]
fn chrono_ymd_from_days(days: i32) -> (r: Option<(i32, u32, u32)>)
    ensures
        r is Some <==> in_range(days as int),
        r matches Some(t) ==> is_civil(days as int, t.0 as int, t.1 as int, t.2 as int),
{
    NaiveDate::from_num_days_from_ce_opt(days).map(|d| (d.year(), d.month(), d.day()))
}

/// Calls `Datelike::weekday` on the `chrono` date with day number `days`.
/// Trusted: the weekday is the one that `weekday_of` gives, with day 1 a
/// Monday.
#[verifier::external_body]
fn chrono_weekday(days: i32) -> (r: Option<Weekday>)
    ensures
        r is Some <==> in_range(days as int),
        r matches Some(w) ==> w == weekday_of(days as int),
{
    NaiveDate::from_num_days_from_ce_opt(days).map(|d| match d.weekday() {
        chrono::Weekday::Mon => Weekday::Mon,
        chrono::Weekday::Tue => Weekday::Tue,
        chrono::Weekday::Wed => Weekday::Wed,
        chrono::Weekday::Thu => Weekday::Thu,
        chrono::Weekday::Fri => Weekday::Fri,
        chrono::Weekday::Sat => Weekday::Sat,
        chrono::Weekday::Sun => Weekday::Sun,
    })
}

/// Calls `chrono::NaiveDate::checked_add_days` on the date with day number
/// `days`. Trusted: the result is the date `n` days later, and there is one
/// unless it would lie after `MAX_DAYS`.
#[verifier::external_body]
fn chrono_add_days(days: i32, n: u64) -> (r: Option<i32>)
    ensures
        r is Some <==> (in_range(days as int) && days + n <= MAX_DAYS),
        r matches Some(m) ==> m == days + n,
{
    NaiveDate::from_num_days_from_ce_opt(days)
        .and_then(|d| d.checked_add_days(Days::new(n)))
        .map(|d| d.num_days_from_ce())
}

/// Calls `chrono::NaiveDate::checked_sub_days` on the date with day number
/// `days`. Trusted: the result is the date `n` days earlier, and there is one
/// unless it would lie before `MIN_DAYS`.
#[verifier::external_body]
fn chrono_sub_days(days: i32, n: u64) -> (r: Option<i32>)
    ensures
        r is Some <==> (in_range(days as int) && days - n >= MIN_DAYS),
        r matches Some(m) ==> m == days - n,
{
    NaiveDate::from_num_days_from_ce_opt(days)
        .and_then(|d| d.checked_sub_days(Days::new(n)))
        .map(|d| d.num_days_from_ce())
}

/// Calls `chrono::NaiveDate::checked_add_months` on the date with day number
/// `days`. Trusted: the result is the date that `add_months_spec` describes:
/// `months` months on, on the same day of the month or, where the new month
/// is shorter, on its last day; and there is one unless its year would lie
/// after `MAX_YEAR`.
#[verifier::external_body]
fn chrono_add_months(days: i32, months: u32) -> (r: Option<i32>)
    ensures
        r is Some <==> (in_range(days as int) && add_months_spec(
            days as int,
            months as int,
        ) is Some),
        r matches Some(m) ==> add_months_spec(days as int, months as int) == Some(m as int),
{
    NaiveDate::from_num_days_from_ce_opt(days)
        .and_then(|d| d.checked_add_months(Months::new(months)))
        .map(|d| d.num_days_from_ce())
}

/// A day of the proleptic Gregorian calendar, from January 1 of `MIN_YEAR`
/// to December 31 of `MAX_YEAR`. Its view is its day number.
#[derive(PartialEq, Eq, PartialOrd, Ord, Copy, Clone, Debug, Hash, Structural)]
pub struct Date {
    days: i32,
}

impl View for Date {
    type V = int;

    closed spec fn view(&self) -> int {
        self.days as int
    }
}

impl Date {
    #[verifier::type_invariant]
    spec fn in_calendar(self) -> bool {
        in_range(self.days as int)
    }

    /// The weekday of the date, in contracts.
    pub open spec fn weekday_spec(self) -> Weekday {
        weekday_of(self@)
    }

    /// Two dates with one day number are one date.
    pub proof fn lemma_view_injective(a: Date, b: Date)
        ensures
            a@ == b@ <==> a == b,
    {
    }

    /// The date with day number `days`, if there is one.
    pub fn from_num_days_from_ce_opt(days: i32) -> (r: Option<Date>)
        ensures
            r is Some <==> in_range(days as int),
            r matches Some(d) ==> d@ == days,
    {
        if MIN_DAYS <= days && days <= MAX_DAYS {
            Some(Date { days })
        } else {
            None
        }
    }

    /// The date of the given year, month and day, if that day exists.
    pub fn from_ymd_opt(year: i32, month: u32, day: u32) -> (r: Option<Date>)
        ensures
            r is Some <==> valid_ymd(year as int, month as int, day as int),
            r matches Some(d) ==> is_civil(d@, year as int, month as int, day as int),
    {
        match chrono_days_from_ymd(year, month, day) {
            Some(days) => {
                proof {
                    lemma_valid_in_range(year as int, month as int, day as int);
                }
                Some(Date { days })
            },
            None => None,
        }
    }

    /// The day number: 1 for January 1 of year 1.
    pub fn num_days_from_ce(&self) -> (n: i32)
        ensures
            n == self@,
            in_range(self@),
    {
        proof {
            use_type_invariant(self);
        }
        self.days
    }

    /// Year, month and day of the date.
    pub fn ymd(&self) -> (t: (i32, u32, u32))
        ensures
            in_range(self@),
            is_civil(self@, t.0 as int, t.1 as int, t.2 as int),
            t.0 == year_of(self@),
            t.1 == month_of(self@),
            t.2 == day_of(self@),
    {
        proof {
            use_type_invariant(self);
        }
        let t = chrono_ymd_from_days(self.days).unwrap();
        proof {
            lemma_civil_unique(self@, t.0 as int, t.1 as int, t.2 as int);
        }
        t
    }

    /// The year of the date.
    pub fn year(&self) -> (y: i32)
        ensures
            y == year_of(self@),
            MIN_YEAR <= y <= MAX_YEAR,
            in_range(self@),
    {
        self.ymd().0
    }

    /// The month of the date, from 1 to 12.
    pub fn month(&self) -> (m: u32)
        ensures
            m == month_of(self@),
            1 <= m <= 12,
            in_range(self@),
    {
        self.ymd().1
    }

    /// The day of the month, from 1.
    pub fn day(&self) -> (d: u32)
        ensures
            d == day_of(self@),
            1 <= d <= 31,
            in_range(self@),
    {
        self.ymd().2
    }

    /// The weekday of the date.
    pub fn weekday(&self) -> (w: Weekday)
        ensures
            w == weekday_of(self@),
            in_range(self@),
    {
        proof {
            use_type_invariant(self);
        }
        chrono_weekday(self.days).unwrap()
    }

    /// The date `n` days later, unless it cannot be represented.
    pub fn checked_add_days(&self, n: u64) -> (r: Option<Date>)
        ensures
            r is Some <==> self@ + n <= MAX_DAYS,
            r matches Some(d) ==> d@ == self@ + n,
            in_range(self@),
    {
        proof {
            use_type_invariant(self);
        }
        match chrono_add_days(self.days, n) {
            Some(days) => Some(Date { days }),
            None => None,
        }
    }

    /// The date `n` days earlier, unless it cannot be represented.
    pub fn checked_sub_days(&self, n: u64) -> (r: Option<Date>)
        ensures
            r is Some <==> self@ - n >= MIN_DAYS,
            r matches Some(d) ==> d@ == self@ - n,
            in_range(self@),
    {
        proof {
            use_type_invariant(self);
        }
        match chrono_sub_days(self.days, n) {
            Some(days) => Some(Date { days }),
            None => None,
        }
    }

    /// The date `months` months later, on the last day of its month where the
    /// month is too short for the day; `None` if it cannot be represented.
    pub fn checked_add_months(&self, months: u32) -> (r: Option<Date>)
        ensures
            match r {
                Some(d) => add_months_spec(self@, months as int) == Some(d@),
                None => add_months_spec(self@, months as int) is None,
            },
            in_range(self@),
    {
        proof {
            use_type_invariant(self);
            lemma_add_months_in_range(self@, months as int);
        }
        match chrono_add_months(self.days, months) {
            Some(days) => Some(Date { days }),
            None => None,
        }
    }

    /// The number of days from `other` to `self`; negative if `self` is the
    /// earlier one.
    pub fn days_since(&self, other: &Date) -> (r: i64)
        ensures
            r == self@ - other@,
            in_range(self@),
            in_range(other@),
    {
        proof {
            use_type_invariant(self);
            use_type_invariant(other);
        }
        self.days as i64 - other.days as i64
    }
}

/// Where adding months gives a date, its day number is in range.
pub proof fn lemma_add_months_in_range(n: int, k: int)
    requires
        in_range(n),
        k >= 0,
    ensures
        add_months_spec(n, k) matches Some(r) ==> in_range(r),
{
    lemma_civil_exists(n);
    let total = year_of(n) * 12 + (month_of(n) - 1) + k;
    let y = total / 12;
    let m = total % 12 + 1;
    let d = if day_of(n) <= days_in_month(y, m) {
        day_of(n)
    } else {
        days_in_month(y, m)
    };
    if y <= MAX_YEAR {
        assert(valid_ymd(y, m, d));
        lemma_valid_in_range(y, m, d);
    }
}

} // verus!
