//! The weeks of a month: the Sunday-to-Saturday windows that between them
//! hold every day of the month, the first and the last of them reaching
//! into the neighbouring months where the month does not begin on a Sunday
//! or end on a Saturday.

use crate::calendar::{
    days_in_month, lemma_day_number_bounds, lemma_day_number_order, lemma_days_of_month,
    lemma_earlier_day_is_smaller, lemma_next_month_follows, MAX_YEAR, MIN_YEAR,
    max_day_number, min_day_number, month_end_number, CalendarDate,
};
use vstd::prelude::*;

verus! {

/// One week of a month's view: its place in the view, counted from 1, its
/// Sunday and its Saturday.
#[derive(Clone, Copy, Debug, PartialEq, Eq, Structural)]
pub struct WeekWindow {
    pub index: i32,
    pub start: CalendarDate,
    pub end: CalendarDate,
}

impl WeekWindow {
    /// The window runs from a day that exists to the sixth day after it.
    pub open spec fn wf(self) -> bool {
        &&& self.start.is_valid()
        &&& self.end.is_valid()
        &&& self.end.day_number() == self.start.day_number() + 6
    }

    /// The day of the week that lies `offset` days after its first day.
    pub fn day(&self, offset: u8) -> (d: CalendarDate)
        requires
            self.wf(),
            offset <= 6,
        ensures
            d.is_valid(),
            d.day_number() == self.start.day_number() + offset,
    {
        proof {
            lemma_day_number_bounds(self.start);
            lemma_day_number_bounds(self.end);
        }
        match self.start.checked_add_days(offset as i64) {
            Some(d) => d,
            // No day between two days that exist is missing.
            None => self.end,
        }
    }
}

/// The day number of the last day of the month that `first` begins.
pub open spec fn last_day_number(first: CalendarDate) -> int {
    month_end_number(first.year as int, first.month as int)
}

/// The day number of the Sunday on or before the first of the month.
pub open spec fn first_week_start(first: CalendarDate) -> int {
    first.day_number() - first.weekday()
}

/// The day number of the Sunday that begins week `k` of the month's view,
/// the weeks counted from 0.
pub open spec fn week_start(first: CalendarDate, k: int) -> int {
    first_week_start(first) + 7 * k
}

/// How many weeks the month's view has: as many as begin on or before the
/// month's last day.
pub open spec fn week_count(first: CalendarDate) -> int {
    (last_day_number(first) - first_week_start(first)) / 7 + 1
}

/// The month's view lies within the calendar's limits: its first Sunday,
/// and the Sunday after its last week.
pub open spec fn month_fits(first: CalendarDate) -> bool {
    min_day_number() <= first_week_start(first) && week_start(first, week_count(first))
        <= max_day_number()
}

/// The windows are the weeks of the month that `first` begins, in order.
pub open spec fn is_partition(windows: Seq<WeekWindow>, first: CalendarDate) -> bool {
    &&& windows.len() == week_count(first)
    &&& forall|k: int|
        0 <= k < windows.len() ==> {
            &&& (#[trigger] windows[k]).index == k + 1
            &&& windows[k].start.is_valid()
            &&& windows[k].start.day_number() == week_start(first, k)
            &&& windows[k].end.is_valid()
            &&& windows[k].end.day_number() == week_start(first, k) + 6
        }
}

/// Every week of a month's view is seven days from a Sunday to a Saturday,
/// each week begins the day after the one before it ends, the first begins
/// on or before the first of the month, and the last ends on or after the
/// month's last day. A month has at least four weeks and at most six.
pub proof fn lemma_weeks_in_sequence(first: CalendarDate, k: int)
    requires
        first.is_month_start(),
    ensures
        week_start(first, k) % 7 == 0,
        (week_start(first, k) + 6) % 7 == 6,
        week_start(first, k + 1) == (week_start(first, k) + 6) + 1,
        week_start(first, 0) <= first.day_number() <= week_start(first, 0) + 6,
        week_start(first, week_count(first) - 1) <= last_day_number(first) <= week_start(
            first,
            week_count(first) - 1,
        ) + 6,
        4 <= week_count(first) <= 6,
{
    lemma_next_month_follows(first.year as int, first.month as int);
}

/// Every day of the month lies in exactly one week of the month's view: the
/// week found by counting sevens from the first Sunday.
pub proof fn lemma_weeks_cover_month(first: CalendarDate, d: CalendarDate)
    requires
        first.is_month_start(),
        d.is_valid(),
        d.same_month(first),
    ensures
        ({
            let k = (d.day_number() - first_week_start(first)) / 7;
            &&& 0 <= k < week_count(first)
            &&& week_start(first, k) <= d.day_number() <= week_start(first, k) + 6
            &&& forall|j: int|
                j != k ==> !(week_start(first, j) <= d.day_number() <= #[trigger] week_start(
                    first,
                    j,
                ) + 6)
        }),
{
    lemma_days_of_month(first.year as int, first.month as int, d);
    lemma_next_month_follows(first.year as int, first.month as int);
}

/// The view of a month lies within the calendar's limits wherever the
/// month's year is neither the first nor the last there is.
pub proof fn lemma_month_fits(first: CalendarDate)
    requires
        first.is_month_start(),
        MIN_YEAR < first.year < MAX_YEAR,
    ensures
        month_fits(first),
{
    let before = CalendarDate { year: (first.year - 1) as i32, month: 12, day: 1 };
    let after = CalendarDate { year: (first.year + 1) as i32, month: 1, day: 31 };
    lemma_day_number_bounds(before);
    lemma_day_number_bounds(after);
    lemma_next_month_follows(first.year as int, first.month as int);
    lemma_earlier_day_is_smaller(
        before.year as int,
        12,
        1,
        first.year as int,
        first.month as int,
        1,
    );
    lemma_next_month_follows(before.year as int, 12);
    lemma_earlier_day_is_smaller(
        first.year as int,
        first.month as int,
        days_in_month(first.year as int, first.month as int),
        after.year as int,
        1,
        31,
    );
    lemma_next_month_follows(after.year as int, 1);
    assert(after.day_number() >= last_day_number(first) + 31) by {
        if first.month == 12 {
        } else {
            lemma_earlier_day_is_smaller(
                first.year as int,
                first.month as int,
                days_in_month(first.year as int, first.month as int),
                first.year as int,
                12,
                31,
            );
            lemma_next_month_follows(first.year as int, 12);
        }
    }
    assert(before.day_number() <= first.day_number() - 31) by {
        if first.month == 1 {
        } else {
            lemma_earlier_day_is_smaller(
                first.year as int,
                1,
                1,
                first.year as int,
                first.month as int,
                1,
            );
            lemma_next_month_follows(first.year as int, 1);
            lemma_earlier_day_is_smaller(
                first.year as int,
                1,
                31,
                first.year as int,
                first.month as int,
                1,
            );
        }
    }
}

/// The windows of a month's view stand as its weeks do: each is seven days
/// from a Sunday to a Saturday, each begins the day after the one before
/// it ends, the first begins on or before the first of the month, and the
/// last ends on or after the month's last day.
pub proof fn lemma_partition_in_sequence(windows: Seq<WeekWindow>, first: CalendarDate, k: int)
    requires
        first.is_month_start(),
        is_partition(windows, first),
        0 <= k < windows.len(),
    ensures
        windows[k].wf(),
        windows[k].start.weekday() == 0,
        windows[k].end.weekday() == 6,
        k + 1 < windows.len() ==> windows[k + 1].start.day_number() == windows[k].end.day_number()
            + 1,
        windows[0].start == first || windows[0].start.precedes(first),
        windows[windows.len() - 1].end.day_number() >= last_day_number(first),
        4 <= windows.len() <= 6,
{
    lemma_weeks_in_sequence(first, k);
    lemma_day_number_order(windows[0].start, first);
    if k + 1 < windows.len() {
        assert(windows[k + 1].start.day_number() == week_start(first, k + 1));
    }
    assert(windows[windows.len() - 1].end.day_number() == week_start(first, windows.len() - 1)
        + 6);
}

/// Every day of the month lies in exactly one window of the month's view:
/// it is not before that window's Sunday nor after its Saturday, and it is
/// before or after every other window.
pub proof fn lemma_partition_covers_month(
    windows: Seq<WeekWindow>,
    first: CalendarDate,
    d: CalendarDate,
)
    requires
        first.is_month_start(),
        is_partition(windows, first),
        d.is_valid(),
        d.same_month(first),
    ensures
        ({
            let k = (d.day_number() - first_week_start(first)) / 7;
            &&& 0 <= k < windows.len()
            &&& !d.precedes(windows[k].start)
            &&& !windows[k].end.precedes(d)
            &&& forall|j: int|
                0 <= j < windows.len() && j != k ==> d.precedes((#[trigger] windows[j]).start)
                    || windows[j].end.precedes(d)
        }),
{
    let k = (d.day_number() - first_week_start(first)) / 7;
    lemma_weeks_cover_month(first, d);
    lemma_day_number_order(d, windows[k].start);
    lemma_day_number_order(windows[k].end, d);
    assert forall|j: int| 0 <= j < windows.len() && j != k implies d.precedes(
        (#[trigger] windows[j]).start,
    ) || windows[j].end.precedes(d) by {
        lemma_day_number_order(d, windows[j].start);
        lemma_day_number_order(windows[j].end, d);
        assert(!(week_start(first, j) <= d.day_number() <= week_start(first, j) + 6));
    }
}

/// The weeks of the month that `first` begins, or `None` where the month's
/// view does not lie within the calendar's limits.
pub fn partition_weeks(first: CalendarDate) -> (r: Option<Vec<WeekWindow>>)
    requires
        first.is_month_start(),
    ensures
        r is Some <==> month_fits(first),
        r matches Some(windows) ==> is_partition(windows@, first),
{
    proof {
        lemma_next_month_follows(first.year as int, first.month as int);
        lemma_day_number_bounds(first);
    }
    let following = if first.month == 12 {
        CalendarDate::from_ymd_opt(first.year + 1, 1, 1)
    } else {
        CalendarDate::from_ymd_opt(first.year, first.month + 1, 1)
    };
    let month_end = match following {
        Some(next) => match next.checked_add_days(-1) {
            Some(d) => d,
            None => { return None; },
        },
        None => { return None; },
    };
    let from_sunday = first.days_from_sunday();
    let mut week_begin = match first.checked_add_days(-(from_sunday as i64)) {
        Some(d) => d,
        None => { return None; },
    };
    proof {
        lemma_day_number_bounds(week_begin);
    }
    let mut windows: Vec<WeekWindow> = Vec::new();
    let mut index: i32 = 1;
    while week_begin.not_after(&month_end)
        invariant
            first.is_month_start(),
            month_end.is_valid(),
            month_end.day_number() == last_day_number(first),
            last_day_number(first) == first.day_number() + days_in_month(
                first.year as int,
                first.month as int,
            ) - 1,
            min_day_number() <= first_week_start(first),
            week_begin.is_valid(),
            week_begin.day_number() == week_start(first, windows.len() as int),
            index == windows.len() + 1,
            windows.len() <= week_count(first),
            forall|k: int|
                0 <= k < windows.len() ==> {
                    &&& (#[trigger] windows[k]).index == k + 1
                    &&& windows[k].start.is_valid()
                    &&& windows[k].start.day_number() == week_start(first, k)
                    &&& windows[k].end.is_valid()
                    &&& windows[k].end.day_number() == week_start(first, k) + 6
                },
        decreases last_day_number(first) - week_begin.day_number() + 7,
    {
        let week_end = match week_begin.checked_add_days(6) {
            Some(d) => d,
            None => { return None; },
        };
        let next_begin = match week_begin.checked_add_days(7) {
            Some(d) => d,
            None => { return None; },
        };
        windows.push(WeekWindow { index, start: week_begin, end: week_end });
        week_begin = next_begin;
        index += 1;
    }
    proof {
        lemma_day_number_bounds(week_begin);
    }
    Some(windows)
}

} // verus!
