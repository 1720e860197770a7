//! The proleptic Gregorian calendar as arithmetic on day numbers.
//!
//! A date is a triple of plain integers. Its day number counts the days from
//! the start of the calendar, with 1 January of year 1 as day 1, so that
//! consecutive dates have consecutive numbers and a date's weekday is its
//! day number modulo 7.

use vstd::prelude::*;

verus! {

/// The earliest year a date may lie in.
pub const MIN_YEAR: i32 = -262143;

/// The latest year a date may lie in.
pub const MAX_YEAR: i32 = 262142;

/// A calendar day: year, month (1 to 12) and day of the month (from 1).
#[derive(Clone, Copy, Debug, PartialEq, Eq, Structural)]
pub struct CalendarDate {
    pub year: i32,
    pub month: u32,
    pub day: u32,
}

/// Leap years: every fourth year, but of the century years only every fourth.
pub open spec fn is_leap_year(year: int) -> bool {
    year % 4 == 0 && (year % 100 != 0 || year % 400 == 0)
}

/// The number of days of a year.
pub open spec fn days_in_year(year: int) -> int {
    if is_leap_year(year) {
        366
    } else {
        365
    }
}

/// The number of days of a month.
pub open spec fn days_in_month(year: int, month: int) -> int {
    if month == 2 {
        if is_leap_year(year) {
            29
        } else {
            28
        }
    } else if month == 4 || month == 6 || month == 9 || month == 11 {
        30
    } else {
        31
    }
}

/// The days of `year` that lie before the first of `month`.
pub open spec fn days_before_month(year: int, month: int) -> int
    decreases month,
{
    if month <= 1 {
        0
    } else {
        days_before_month(year, month - 1) + days_in_month(year, month - 1)
    }
}

/// The days between the start of the calendar and the first of January of
/// `year`; negative for years before year 1.
pub open spec fn days_before_year(year: int) -> int {
    let y = year - 1;
    365 * y + y / 4 - y / 100 + y / 400
}

/// The day number of a year, month and day: 1 for 1 January of year 1.
pub open spec fn day_number_of(year: int, month: int, day: int) -> int {
    days_before_year(year) + days_before_month(year, month) + day
}

/// The day number of the first day there is.
pub open spec fn min_day_number() -> int {
    day_number_of(MIN_YEAR as int, 1, 1)
}

/// The day number of the last day there is.
pub open spec fn max_day_number() -> int {
    day_number_of(MAX_YEAR as int, 12, 31)
}

impl CalendarDate {
    /// The date names a day that exists, in a year within the limits.
    pub open spec fn is_valid(self) -> bool {
        &&& MIN_YEAR <= self.year <= MAX_YEAR
        &&& 1 <= self.month <= 12
        &&& 1 <= self.day <= days_in_month(self.year as int, self.month as int)
    }

    /// The date's day number.
    pub open spec fn day_number(self) -> int {
        day_number_of(self.year as int, self.month as int, self.day as int)
    }

    /// The date's weekday counted from Sunday: 0 for Sunday, 6 for Saturday.
    pub open spec fn weekday(self) -> int {
        self.day_number() % 7
    }

    /// The date is the first day of a month.
    pub open spec fn is_month_start(self) -> bool {
        self.is_valid() && self.day == 1
    }

    /// Both dates lie in the same month of the same year.
    pub open spec fn same_month(self, other: CalendarDate) -> bool {
        self.year == other.year && self.month == other.month
    }

    /// The date comes before `other`, comparing year, then month, then day.
    pub open spec fn precedes(self, other: CalendarDate) -> bool {
        self.year < other.year || (self.year == other.year && (self.month < other.month || (
        self.month == other.month && self.day < other.day)))
    }

    /// Whether both dates lie in the same month of the same year.
    pub fn in_month_of(&self, other: &CalendarDate) -> (r: bool)
        ensures
            r == self.same_month(*other),
    {
        self.year == other.year && self.month == other.month
    }

    /// Whether the date comes before `other`.
    pub fn is_before(&self, other: &CalendarDate) -> (r: bool)
        ensures
            r == self.precedes(*other),
    {
        if self.year != other.year {
            self.year < other.year
        } else if self.month != other.month {
            self.month < other.month
        } else {
            self.day < other.day
        }
    }

    /// Whether the date is `other` or comes before it.
    pub fn not_after(&self, other: &CalendarDate) -> (r: bool)
        ensures
            r == (*self == *other || self.precedes(*other)),
            self.is_valid() && other.is_valid() ==> r == (self.day_number() <= other.day_number()),
    {
        proof {
            if self.is_valid() && other.is_valid() {
                lemma_day_number_order(*self, *other);
                lemma_day_number_order(*other, *self);
            }
        }
        if self.year != other.year {
            self.year < other.year
        } else if self.month != other.month {
            self.month < other.month
        } else {
            self.day <= other.day
        }
    }
}

/// The date whose day number is `n`.
pub open spec fn date_on(n: int) -> CalendarDate {
    choose|d: CalendarDate| d.is_valid() && d.day_number() == n
}

/// The days before each month, month by month; 13 stands for the year's end.
pub proof fn lemma_days_before_month(year: int, month: int)
    requires
        1 <= month <= 13,
    ensures
        days_before_month(year, month) == (if month == 1 {
            0int
        } else if month == 2 {
            31
        } else {
            (if is_leap_year(year) {
                1int
            } else {
                0
            }) + (if month == 3 {
                59int
            } else if month == 4 {
                90
            } else if month == 5 {
                120
            } else if month == 6 {
                151
            } else if month == 7 {
                181
            } else if month == 8 {
                212
            } else if month == 9 {
                243
            } else if month == 10 {
                273
            } else if month == 11 {
                304
            } else if month == 12 {
                334
            } else {
                365
            })
        }),
        month <= 12 ==> days_before_month(year, month + 1) == days_before_month(year, month)
            + days_in_month(year, month),
        days_before_month(year, 13) == days_in_year(year),
{
    reveal_with_fuel(days_before_month, 14);
}

/// A year begins where the year before it ends.
pub proof fn lemma_year_follows_year(year: int)
    ensures
        days_before_year(year + 1) == days_before_year(year) + days_in_year(year),
        days_before_year(1) == 0,
{
}

/// Later years begin later, by at least 365 days for each year between.
pub proof fn lemma_years_in_order(a: int, b: int)
    requires
        a <= b,
    ensures
        days_before_year(b) >= days_before_year(a) + 365 * (b - a),
    decreases b - a,
{
    if a < b {
        lemma_years_in_order(a, b - 1);
        lemma_year_follows_year(b - 1);
    }
}

/// A month and a day of it that exist in `year`.
pub open spec fn is_day_of_year(year: int, month: int, day: int) -> bool {
    1 <= month <= 12 && 1 <= day <= days_in_month(year, month)
}

/// The first triple comes before the second, comparing year, then month,
/// then day.
pub open spec fn comes_before(y1: int, m1: int, d1: int, y2: int, m2: int, d2: int) -> bool {
    y1 < y2 || (y1 == y2 && (m1 < m2 || (m1 == m2 && d1 < d2)))
}

/// Of two days, whatever their years, the earlier has the smaller number.
pub proof fn lemma_earlier_day_is_smaller(y1: int, m1: int, d1: int, y2: int, m2: int, d2: int)
    requires
        is_day_of_year(y1, m1, d1),
        is_day_of_year(y2, m2, d2),
        comes_before(y1, m1, d1, y2, m2, d2),
    ensures
        day_number_of(y1, m1, d1) < day_number_of(y2, m2, d2),
{
    lemma_days_before_month(y1, m1);
    lemma_days_before_month(y2, m2);
    if y1 < y2 {
        lemma_years_in_order(y1 + 1, y2);
        lemma_year_follows_year(y1);
        lemma_months_in_order(y1, m1, 13);
    } else if m1 < m2 {
        lemma_months_in_order(y1, m1, m2);
    }
}

/// Day numbers keep the order of dates: an earlier date has a smaller number.
pub proof fn lemma_day_number_order(a: CalendarDate, b: CalendarDate)
    requires
        a.is_valid(),
        b.is_valid(),
    ensures
        a.precedes(b) <==> a.day_number() < b.day_number(),
        a == b <==> a.day_number() == b.day_number(),
{
    if a.precedes(b) {
        lemma_earlier_day_is_smaller(
            a.year as int,
            a.month as int,
            a.day as int,
            b.year as int,
            b.month as int,
            b.day as int,
        );
    }
    if b.precedes(a) {
        lemma_earlier_day_is_smaller(
            b.year as int,
            b.month as int,
            b.day as int,
            a.year as int,
            a.month as int,
            a.day as int,
        );
    }
}

/// Within a year a later month begins after every day of an earlier one.
proof fn lemma_months_in_order(year: int, m: int, n: int)
    requires
        1 <= m < n <= 13,
    ensures
        days_before_month(year, n) >= days_before_month(year, m) + days_in_month(year, m),
{
    lemma_days_before_month(year, m);
    lemma_days_before_month(year, n);
}

/// The day number of the first day of a month.
pub open spec fn month_start_number(year: int, month: int) -> int {
    day_number_of(year, month, 1)
}

/// The day number of the last day of a month.
pub open spec fn month_end_number(year: int, month: int) -> int {
    day_number_of(year, month, days_in_month(year, month))
}

/// The first day of the month after `month`, December being followed by the
/// January of the next year, bears the number after the month's last day.
pub proof fn lemma_next_month_follows(year: int, month: int)
    requires
        1 <= month <= 12,
    ensures
        month == 12 ==> month_start_number(year + 1, 1) == month_end_number(year, month) + 1,
        month < 12 ==> month_start_number(year, month + 1) == month_end_number(year, month) + 1,
        month_end_number(year, month) == month_start_number(year, month) + days_in_month(
            year,
            month,
        ) - 1,
{
    lemma_days_before_month(year, month);
    lemma_days_before_month(year + 1, 1);
    lemma_year_follows_year(year);
}

/// The days of a month are those numbered from its first day to its last.
pub proof fn lemma_days_of_month(year: int, month: int, d: CalendarDate)
    requires
        1 <= month <= 12,
        d.is_valid(),
    ensures
        (d.year == year && d.month == month) <==> month_start_number(year, month)
            <= d.day_number() <= month_end_number(year, month),
{
    let (dy, dm, dd) = (d.year as int, d.month as int, d.day as int);
    lemma_next_month_follows(year, month);
    if dy == year && dm == month {
    } else if comes_before(dy, dm, dd, year, month, 1) {
        lemma_earlier_day_is_smaller(dy, dm, dd, year, month, 1);
    } else {
        let last = days_in_month(year, month);
        lemma_earlier_day_is_smaller(year, month, last, dy, dm, dd);
    }
}

/// A day number belongs to one date only.
pub proof fn lemma_date_on(d: CalendarDate)
    requires
        d.is_valid(),
    ensures
        date_on(d.day_number()) == d,
{
    let e = date_on(d.day_number());
    lemma_day_number_order(d, e);
}

/// Every day number within the limits is the number of a date: the day
/// after a date is a date again, up to the last day there is.
pub proof fn lemma_every_day_has_a_date(n: int)
    requires
        min_day_number() <= n <= max_day_number(),
    ensures
        date_on(n).is_valid(),
        date_on(n).day_number() == n,
    decreases n - min_day_number(),
{
    if n == min_day_number() {
        let d = CalendarDate { year: MIN_YEAR, month: 1, day: 1 };
        assert(d.is_valid() && d.day_number() == n);
    } else {
        lemma_every_day_has_a_date(n - 1);
        let before = date_on(n - 1);
        let (y, m) = (before.year as int, before.month as int);
        lemma_next_month_follows(y, m);
        let d = if before.day < days_in_month(y, m) {
            CalendarDate { year: before.year, month: before.month, day: (before.day + 1) as u32 }
        } else if before.month < 12 {
            CalendarDate { year: before.year, month: (before.month + 1) as u32, day: 1 }
        } else {
            CalendarDate { year: (before.year + 1) as i32, month: 1, day: 1 }
        };
        assert(d.is_valid() && d.day_number() == n);
    }
}

/// Every valid date lies between the first and the last day there is.
pub proof fn lemma_day_number_bounds(d: CalendarDate)
    requires
        d.is_valid(),
    ensures
        min_day_number() <= d.day_number() <= max_day_number(),
{
    let first = CalendarDate { year: MIN_YEAR, month: 1, day: 1 };
    let last = CalendarDate { year: MAX_YEAR, month: 12, day: 31 };
    lemma_day_number_order(first, d);
    lemma_day_number_order(d, last);
}

} // verus!
