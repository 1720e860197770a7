//! Dates as text, and the date arithmetic that the `chrono` crate does for
//! this library.
//!
//! A date is written as chrono writes it: the year in four digits, a hyphen,
//! the month in two digits, a hyphen and the day in two digits. A year
//! outside 0 to 9999 carries a sign and as many digits as it needs.

use crate::calendar::{
    date_on, lemma_date_on, lemma_day_number_bounds, max_day_number, min_day_number,
    CalendarDate, MAX_YEAR, MIN_YEAR,
};
use chrono::{Datelike, NaiveDate, TimeDelta};
use vstd::prelude::*;
use vstd::string::*;

verus! {

/// The character of a decimal digit.
pub open spec fn digit_char(n: int) -> char {
    if n == 0 {
        '0'
    } else if n == 1 {
        '1'
    } else if n == 2 {
        '2'
    } else if n == 3 {
        '3'
    } else if n == 4 {
        '4'
    } else if n == 5 {
        '5'
    } else if n == 6 {
        '6'
    } else if n == 7 {
        '7'
    } else if n == 8 {
        '8'
    } else {
        '9'
    }
}

/// The last two decimal digits of `n`.
pub open spec fn two_digits(n: int) -> Seq<char> {
    seq![digit_char(n / 10 % 10), digit_char(n % 10)]
}

/// The last four decimal digits of `n`.
pub open spec fn four_digits(n: int) -> Seq<char> {
    seq![
        digit_char(n / 1000 % 10),
        digit_char(n / 100 % 10),
        digit_char(n / 10 % 10),
        digit_char(n % 10),
    ]
}

/// A year as text: four digits from 0 to 9999, else a sign and at least
/// four digits.
pub open spec fn year_text(year: int) -> Seq<char> {
    if 0 <= year <= 9999 {
        four_digits(year)
    } else if year < 0 {
        seq!['-'] + unsigned_year_text(-year)
    } else {
        seq!['+'] + unsigned_year_text(year)
    }
}

/// The digits of a year of up to six digits, padded with zeros to four.
pub open spec fn unsigned_year_text(n: int) -> Seq<char> {
    if n <= 9999 {
        four_digits(n)
    } else if n <= 99999 {
        seq![digit_char(n / 10000 % 10)] + four_digits(n)
    } else {
        seq![digit_char(n / 100000 % 10), digit_char(n / 10000 % 10)] + four_digits(n)
    }
}

/// The text of a month: its year, a hyphen, and two digits.
pub open spec fn month_text(date: CalendarDate) -> Seq<char> {
    year_text(date.year as int) + seq!['-'] + two_digits(date.month as int)
}

/// The text of a date: its month's text, a hyphen, and the day in two digits.
pub open spec fn date_text(date: CalendarDate) -> Seq<char> {
    month_text(date) + seq!['-'] + two_digits(date.day as int)
}

/// The date that the text is the text of, if it is the text of a date.
pub open spec fn date_named(text: Seq<char>) -> Option<CalendarDate> {
    if exists|d: CalendarDate| d.is_valid() && #[trigger] date_text(d) == text {
        Some(choose|d: CalendarDate| d.is_valid() && #[trigger] date_text(d) == text)
    } else {
        None
    }
}

/// The first day of the month that the text is the text of, if it is the
/// text of a month.
pub open spec fn month_named(text: Seq<char>) -> Option<CalendarDate> {
    if exists|d: CalendarDate| d.is_month_start() && #[trigger] month_text(d) == text {
        Some(choose|d: CalendarDate| d.is_month_start() && #[trigger] month_text(d) == text)
    } else {
        None
    }
}

/// A date's text names the date, and a month's text the month's first day.
pub proof fn lemma_text_names(d: CalendarDate)
    requires
        d.is_valid(),
    ensures
        date_named(date_text(d)) == Some(d),
        month_named(month_text(d)) == Some(CalendarDate { year: d.year, month: d.month, day: 1 }),
{
    let e = date_named(date_text(d))->0;
    lemma_date_text_injective(d, e);
    let first = CalendarDate { year: d.year, month: d.month, day: 1 };
    assert(first.is_month_start() && month_text(first) == month_text(d));
    let f = month_named(month_text(d))->0;
    lemma_month_text_injective(first, f);
}

/// A decimal digit is known by its character.
pub proof fn lemma_digit_char_injective(a: int, b: int)
    requires
        0 <= a <= 9,
        0 <= b <= 9,
        digit_char(a) == digit_char(b),
    ensures
        a == b,
{
}

/// Dividing by ten and then by `k` divides by ten times `k`.
proof fn lemma_divide_in_steps(x: int, k: int)
    requires
        0 <= x,
        0 < k,
    ensures
        x / 10 / k == x / (10 * k),
{
    let q = x / 10;
    let r = q / k;
    assert(q == k * r + q % k) by (nonlinear_arith)
        requires
            0 < k,
            r == q / k,
    ;
    assert(x == (10 * k) * r + (10 * (q % k) + x % 10)) by (nonlinear_arith)
        requires
            x == 10 * q + x % 10,
            q == k * r + q % k,
    ;
    assert(0 <= 10 * (q % k) + x % 10 < 10 * k) by (nonlinear_arith)
        requires
            0 <= q % k < k,
            0 <= x % 10 < 10,
    ;
    vstd::arithmetic::div_mod::lemma_fundamental_div_mod_converse(
        x,
        10 * k,
        r,
        10 * (q % k) + x % 10,
    );
}

/// A number below a million is the sum of its six decimal digits.
proof fn lemma_six_digits(x: int)
    requires
        0 <= x < 1000000,
    ensures
        x == (x % 10) + 10 * (x / 10 % 10) + 100 * (x / 100 % 10) + 1000 * (x / 1000 % 10) + 10000
            * (x / 10000 % 10) + 100000 * (x / 100000 % 10),
{
    let q1 = x / 10;
    let q2 = q1 / 10;
    let q3 = q2 / 10;
    let q4 = q3 / 10;
    let q5 = q4 / 10;
    lemma_divide_in_steps(x, 10);
    lemma_divide_in_steps(x, 100);
    lemma_divide_in_steps(x, 1000);
    lemma_divide_in_steps(x, 10000);
    lemma_divide_in_steps(q1, 10);
    lemma_divide_in_steps(q1, 100);
    lemma_divide_in_steps(q1, 1000);
    lemma_divide_in_steps(q2, 10);
    lemma_divide_in_steps(q2, 100);
    lemma_divide_in_steps(q3, 10);
    assert(x / 100 == q2);
    assert(x / 1000 == q3);
    assert(x / 10000 == q4);
    assert(x / 100000 == q5);
    assert(q5 < 10);
}

/// Where the sign and the digits of a year stand in its text.
proof fn lemma_year_text_digits(year: int)
    requires
        MIN_YEAR <= year <= MAX_YEAR,
    ensures
        ({
            let s = year_text(year);
            let x = if year < 0 {
                -year
            } else {
                year
            };
            let n = s.len() as int;
            &&& n == (if 0 <= year <= 9999 {
                4int
            } else if x <= 9999 {
                5
            } else if x <= 99999 {
                6
            } else {
                7
            })
            &&& s[n - 1] == digit_char(x % 10)
            &&& s[n - 2] == digit_char(x / 10 % 10)
            &&& s[n - 3] == digit_char(x / 100 % 10)
            &&& s[n - 4] == digit_char(x / 1000 % 10)
            &&& n >= 6 ==> s[n - 5] == digit_char(x / 10000 % 10)
            &&& n == 7 ==> s[n - 6] == digit_char(x / 100000 % 10)
            &&& n >= 5 ==> s[0] == (if year < 0 {
                '-'
            } else {
                '+'
            })
        }),
{
}

/// A year within the calendar's limits is known by its text.
pub proof fn lemma_year_text_injective(a: int, b: int)
    requires
        MIN_YEAR <= a <= MAX_YEAR,
        MIN_YEAR <= b <= MAX_YEAR,
        year_text(a) == year_text(b),
    ensures
        a == b,
{
    let x = if a < 0 {
        -a
    } else {
        a
    };
    let y = if b < 0 {
        -b
    } else {
        b
    };
    lemma_year_text_digits(a);
    lemma_year_text_digits(b);
    lemma_six_digits(x);
    lemma_six_digits(y);
    lemma_digit_char_injective(x % 10, y % 10);
    lemma_digit_char_injective(x / 10 % 10, y / 10 % 10);
    lemma_digit_char_injective(x / 100 % 10, y / 100 % 10);
    lemma_digit_char_injective(x / 1000 % 10, y / 1000 % 10);
    let n = year_text(a).len();
    if n >= 6 {
        lemma_digit_char_injective(x / 10000 % 10, y / 10000 % 10);
    }
    if n == 7 {
        lemma_digit_char_injective(x / 100000 % 10, y / 100000 % 10);
    }
    assert(x == y);
}

/// The text of a year is made of a sign and digits: it holds no hyphen
/// after its first character, and is four to seven characters long.
pub proof fn lemma_year_text_shape(year: int)
    requires
        MIN_YEAR <= year <= MAX_YEAR,
    ensures
        4 <= year_text(year).len() <= 7,
        forall|i: int| 1 <= i < year_text(year).len() ==> year_text(year)[i] != '-',
{
}

/// A month is known by its text.
pub proof fn lemma_month_text_injective(a: CalendarDate, b: CalendarDate)
    requires
        a.is_valid(),
        b.is_valid(),
        month_text(a) == month_text(b),
    ensures
        a.same_month(b),
{
    let ya = year_text(a.year as int);
    let yb = year_text(b.year as int);
    let s = month_text(a);
    let t = month_text(b);
    lemma_year_text_shape(a.year as int);
    lemma_year_text_shape(b.year as int);
    assert(ya.len() == yb.len()) by {
        assert(s.len() == ya.len() + 3);
        assert(t.len() == yb.len() + 3);
    }
    assert(ya =~= yb) by {
        assert forall|i: int| 0 <= i < ya.len() implies ya[i] == yb[i] by {
            assert(s[i] == ya[i]);
            assert(t[i] == yb[i]);
        }
    }
    lemma_year_text_injective(a.year as int, b.year as int);
    let n = ya.len() as int;
    assert(s[n + 1] == digit_char(a.month as int / 10 % 10));
    assert(t[n + 1] == digit_char(b.month as int / 10 % 10));
    assert(s[n + 2] == digit_char(a.month as int % 10));
    assert(t[n + 2] == digit_char(b.month as int % 10));
    lemma_digit_char_injective(a.month as int / 10 % 10, b.month as int / 10 % 10);
    lemma_digit_char_injective(a.month as int % 10, b.month as int % 10);
}

/// A date is known by its text.
pub proof fn lemma_date_text_injective(a: CalendarDate, b: CalendarDate)
    requires
        a.is_valid(),
        b.is_valid(),
        date_text(a) == date_text(b),
    ensures
        a == b,
{
    let s = date_text(a);
    let t = date_text(b);
    let ma = month_text(a);
    let mb = month_text(b);
    assert(ma.len() == mb.len()) by {
        assert(s.len() == ma.len() + 3);
        assert(t.len() == mb.len() + 3);
    }
    assert(ma =~= mb) by {
        assert forall|i: int| 0 <= i < ma.len() implies ma[i] == mb[i] by {
            assert(s[i] == ma[i]);
            assert(t[i] == mb[i]);
        }
    }
    lemma_month_text_injective(a, b);
    let n = ma.len() as int;
    assert(s[n + 1] == digit_char(a.day as int / 10 % 10));
    assert(t[n + 1] == digit_char(b.day as int / 10 % 10));
    assert(s[n + 2] == digit_char(a.day as int % 10));
    assert(t[n + 2] == digit_char(b.day as int % 10));
    lemma_digit_char_injective(a.day as int / 10 % 10, b.day as int / 10 % 10);
    lemma_digit_char_injective(a.day as int % 10, b.day as int % 10);
}

/// The days of a month are the days whose text begins with the month's
/// text.
pub proof fn lemma_month_text_begins_its_days(first: CalendarDate, d: CalendarDate)
    requires
        first.is_valid(),
        d.is_valid(),
    ensures
        d.same_month(first) <==> month_text(first).is_prefix_of(date_text(d)),
{
    let m = month_text(first);
    let t = date_text(d);
    let yf = year_text(first.year as int);
    let yd = year_text(d.year as int);
    lemma_year_text_shape(first.year as int);
    lemma_year_text_shape(d.year as int);
    let a = yf.len() as int;
    let b = yd.len() as int;
    assert(m.len() == a + 3 && t.len() == b + 6);
    if d.same_month(first) {
        assert(month_text(d) == m);
        assert(t.subrange(0, m.len() as int) =~= m);
    }
    if m.is_prefix_of(t) {
        assert(m =~= t.subrange(0, m.len() as int));
        assert forall|i: int| 0 <= i < m.len() implies m[i] == t[i] by {
            assert(t.subrange(0, m.len() as int)[i] == t[i]);
        }
        if a < b {
            assert(m[a] == '-');
            assert(t[a] == yd[a]);
        } else if b < a {
            assert(t[b] == '-');
            assert(m[b] == yf[b]);
        } else {
            assert(yf =~= yd) by {
                assert forall|i: int| 0 <= i < a implies yf[i] == yd[i] by {
                    assert(m[i] == yf[i]);
                    assert(t[i] == yd[i]);
                }
            }
            assert(month_text(d) =~= m) by {
                assert forall|i: int| 0 <= i < m.len() implies month_text(d)[i] == m[i] by {
                    assert(t[i] == month_text(d)[i]);
                }
            }
            lemma_month_text_injective(d, first);
        }
    }
}

/// Calls chrono's `NaiveDate::from_ymd_opt`, which by its documentation
/// returns a date exactly for a day that exists in a year within chrono's
/// limits; the date is handed back as the integers it was made from.
#[verifier::external_body]
fn chrono_from_ymd(year: i32, month: u32, day: u32) -> (r: Option<CalendarDate>)
    ensures
        r == (if (CalendarDate { year, month, day }).is_valid() {
            Some(CalendarDate { year, month, day })
        } else {
            None
        }),
{
    match NaiveDate::from_ymd_opt(year, month, day) {
        Some(d) => Some(CalendarDate { year: d.year(), month: d.month(), day: d.day() }),
        None => None,
    }
}

/// Calls chrono's `Datelike::weekday` and `Weekday::num_days_from_sunday` on
/// the date. Claimed: the result is the date's day number modulo 7, chrono
/// counting 0 for a Sunday and its calendar being the proleptic Gregorian
/// one, in which 1 January of year 1 is a Monday.
#[verifier::external_body]
fn chrono_days_from_sunday(date: CalendarDate) -> (r: u32)
    requires
        date.is_valid(),
    ensures
        r == date.weekday(),
{
    NaiveDate::from_ymd_opt(date.year, date.month, date.day).unwrap().weekday().num_days_from_sunday()
}

/// Calls chrono's `NaiveDate::checked_add_signed` with a `TimeDelta` of whole
/// days. Claimed: the result is the date that many days later (earlier, for a
/// negative count), and there is none exactly when that day lies outside
/// chrono's limits.
#[verifier::external_body]
fn chrono_add_days(date: CalendarDate, days: i64) -> (r: Option<CalendarDate>)
    requires
        date.is_valid(),
    ensures
        match r {
            Some(d) => d.is_valid() && d.day_number() == date.day_number() + days,
            None => !(min_day_number() <= date.day_number() + days <= max_day_number()),
        },
{
    let from = NaiveDate::from_ymd_opt(date.year, date.month, date.day)?;
    let d = from.checked_add_signed(TimeDelta::try_days(days)?)?;
    Some(CalendarDate { year: d.year(), month: d.month(), day: d.day() })
}

/// Calls chrono's `NaiveDate::parse_from_str` with the format `%Y-%m-%d`.
/// Claimed: a date that comes back exists, and the text that chrono itself
/// writes for a date is read back as that date. What else chrono accepts
/// is left open.
#[verifier::external_body]
fn chrono_parse_date(text: &str) -> (r: Option<CalendarDate>)
    ensures
        r matches Some(d) ==> d.is_valid(),
        forall|d: CalendarDate| d.is_valid() && text@ == #[trigger] date_text(d) ==> r == Some(d),
{
    match NaiveDate::parse_from_str(text, "%Y-%m-%d") {
        Ok(d) => Some(CalendarDate { year: d.year(), month: d.month(), day: d.day() }),
        Err(_) => None,
    }
}

/// Calls chrono's `NaiveDate::format` with the format `%Y-%m-%d`. Claimed:
/// the text is the zero-padded year, month and day with hyphens between,
/// the year signed when it lies outside 0 to 9999.
#[verifier::external_body]
fn chrono_format_date(date: CalendarDate) -> (r: String)
    requires
        date.is_valid(),
    ensures
        r@ == date_text(date),
{
    NaiveDate::from_ymd_opt(date.year, date.month, date.day).unwrap().format("%Y-%m-%d").to_string()
}

impl CalendarDate {
    /// The date of a year, month and day, if there is such a day.
    pub fn from_ymd_opt(year: i32, month: u32, day: u32) -> (r: Option<CalendarDate>)
        ensures
            r == (if (CalendarDate { year, month, day }).is_valid() {
                Some(CalendarDate { year, month, day })
            } else {
                None
            }),
    {
        chrono_from_ymd(year, month, day)
    }

    /// The date's weekday counted from Sunday: 0 for Sunday, 6 for Saturday.
    pub fn days_from_sunday(&self) -> (r: u32)
        requires
            self.is_valid(),
        ensures
            r == self.weekday(),
            r <= 6,
    {
        chrono_days_from_sunday(*self)
    }

    /// The date `days` days after this one, or before it for a negative
    /// count; `None` when that day lies outside the calendar's limits.
    pub fn checked_add_days(&self, days: i64) -> (r: Option<CalendarDate>)
        requires
            self.is_valid(),
        ensures
            r == (if min_day_number() <= self.day_number() + days <= max_day_number() {
                Some(date_on(self.day_number() + days))
            } else {
                None
            }),
            match r {
                Some(d) => d.is_valid() && d.day_number() == self.day_number() + days,
                None => !(min_day_number() <= self.day_number() + days <= max_day_number()),
            },
    {
        let r = chrono_add_days(*self, days);
        proof {
            if let Some(d) = r {
                lemma_date_on(d);
                lemma_day_number_bounds(d);
            }
        }
        r
    }

    /// The date as text.
    pub fn to_text(&self) -> (r: String)
        requires
            self.is_valid(),
        ensures
            r@ == date_text(*self),
    {
        chrono_format_date(*self)
    }

    /// Reads a date from its text. Only the text that `to_text` writes for a
    /// date is taken: anything else is no date.
    pub fn parse(text: &str) -> (r: Option<CalendarDate>)
        ensures
            r == date_named(text@),
            match r {
                Some(d) => d.is_valid() && text@ == date_text(d),
                None => forall|d: CalendarDate| d.is_valid() ==> text@ != #[trigger] date_text(d),
            },
    {
        match chrono_parse_date(text) {
            Some(d) => {
                let written = chrono_format_date(d);
                let given = String::from_str(text);
                if written == given {
                    proof {
                        lemma_text_names(d);
                    }
                    Some(d)
                } else {
                    proof {
                        assert forall|e: CalendarDate| e.is_valid() implies text@ != #[trigger] date_text(
                            e,
                        ) by {
                            if text@ == date_text(e) {
                                assert(e == d);
                            }
                        }
                    }
                    None
                }
            },
            None => None,
        }
    }
}

/// The text of the month that the date lies in.
pub fn month_to_text(date: &CalendarDate) -> (r: String)
    requires
        date.is_valid(),
    ensures
        r@ == month_text(*date),
{
    let full = date.to_text();
    let length = full.as_str().unicode_len();
    assert(date_text(*date).len() == month_text(*date).len() + 3);
    let month = full.as_str().substring_char(0, length - 3);
    assert(month@ =~= month_text(*date));
    String::from_str(month)
}

/// Reads a month from its text, a year and a month with a hyphen between,
/// and gives the month's first day. Only the text with which the text of
/// the month's days begins is taken: anything else is no month.
pub fn parse_month(text: &str) -> (r: Option<CalendarDate>)
    ensures
        r == month_named(text@),
        match r {
            Some(first) => first.is_month_start() && text@ == month_text(first),
            None => forall|d: CalendarDate| d.is_valid() ==> text@ != #[trigger] month_text(d),
        },
{
    let full = String::from_str(text).concat("-01");
    proof {
        reveal_strlit("-01");
        assert("-01"@ =~= seq!['-'] + two_digits(1));
    }
    match CalendarDate::parse(full.as_str()) {
        Some(d) => {
            proof {
                let tail = seq!['-'] + two_digits(d.day as int);
                assert(date_text(d) =~= month_text(d) + tail);
                assert(full@ =~= text@ + "-01"@);
                assert(text@.len() == month_text(d).len());
                assert(text@ =~= month_text(d)) by {
                    assert forall|i: int| 0 <= i < text@.len() implies text@[i] == month_text(
                        d,
                    )[i] by {
                        assert(full@[i] == text@[i]);
                        assert(date_text(d)[i] == month_text(d)[i]);
                    }
                }
                let n = text@.len() as int;
                assert(full@[n + 1] == '0' && full@[n + 2] == '1');
                assert(date_text(d)[n + 1] == digit_char(d.day as int / 10 % 10));
                assert(date_text(d)[n + 2] == digit_char(d.day as int % 10));
                assert(d.day == 1);
                lemma_text_names(d);
            }
            Some(d)
        },
        None => {
            proof {
                assert forall|d: CalendarDate| d.is_valid() implies text@ != #[trigger] month_text(
                    d,
                ) by {
                    if text@ == month_text(d) {
                        let first = CalendarDate { year: d.year, month: d.month, day: 1 };
                        assert(month_text(first) == month_text(d));
                        assert(date_text(first) =~= full@);
                    }
                }
            }
            None
        },
    }
}

} // verus!
