//! The monthly report: for each week of the month's view and each project,
//! the hours logged on the week's days that lie in the month, the balance
//! the project starts the week with, and the balance it is left with.
//!
//! A project starts the first week with its allotment for the month. What
//! is logged in a week is taken from the balance, and what is left is what
//! the next week starts with: the weeks do not start afresh. Days of a week
//! that lie in a neighbouring month belong to the week, not to the account.

use crate::calendar::{
    date_on, lemma_date_on, lemma_days_of_month, lemma_next_month_follows, CalendarDate,
};
use crate::dates::date_text;
use crate::dto::{
    record_of, records_of, DayHoursDto, ProjectDto, ProjectRecord, WeekRowDto, WeekSliceDto,
};
use crate::table::{amount_or_zero, AmountTable, Amounts};
use crate::weeks::{
    is_partition, last_day_number, month_fits, partition_weeks, week_count, week_start,
    WeekWindow,
};
use vstd::prelude::*;

verus! {

/// The day of the month that `first` begins which bears the day number `n`.
pub open spec fn day_of_month(first: CalendarDate, n: int) -> CalendarDate {
    CalendarDate { year: first.year, month: first.month, day: (n - first.day_number() + 1) as u32 }
}

/// The hours logged for the project on day `n` of the month; 0 where
/// nothing is logged.
pub open spec fn logged_on(entries: Amounts, project_id: i64, first: CalendarDate, n: int) -> int {
    amount_or_zero(entries, project_id, day_of_month(first, n))
}

/// The hours logged for the project on the days of the month from day
/// number `lo` to day number `hi`.
pub open spec fn logged_between(
    entries: Amounts,
    project_id: i64,
    first: CalendarDate,
    lo: int,
    hi: int,
) -> int
    decreases hi - lo + 1,
{
    if hi < lo {
        0
    } else {
        logged_between(entries, project_id, first, lo, hi - 1) + logged_on(
            entries,
            project_id,
            first,
            hi,
        )
    }
}

/// Of the seven days from day number `start`, the first that lies in the
/// month or after it.
pub open spec fn first_day_within(first: CalendarDate, start: int) -> int {
    if start < first.day_number() {
        first.day_number()
    } else {
        start
    }
}

/// Of the seven days from day number `start`, the last that lies in the
/// month or before it.
pub open spec fn last_day_within(first: CalendarDate, start: int) -> int {
    if start + 6 > last_day_number(first) {
        last_day_number(first)
    } else {
        start + 6
    }
}

/// How many of the seven days from day number `start` lie in the month.
pub open spec fn days_within(first: CalendarDate, start: int) -> int {
    if last_day_within(first, start) < first_day_within(first, start) {
        0
    } else {
        last_day_within(first, start) - first_day_within(first, start) + 1
    }
}

/// The hours logged for the project on those of the seven days from day
/// number `start` that lie in the month.
pub open spec fn window_total(
    entries: Amounts,
    project_id: i64,
    first: CalendarDate,
    start: int,
) -> int {
    logged_between(
        entries,
        project_id,
        first,
        first_day_within(first, start),
        last_day_within(first, start),
    )
}

/// The row is the project's account of the seven days from day number
/// `start`, for a project that has consumed `consumed` of its allotment
/// before: its days are those of the seven that lie in the month, in
/// order, each with its text and the hours logged on it.
pub open spec fn is_window_row(
    row: WeekRowDto,
    project: ProjectRecord,
    entries: Amounts,
    first: CalendarDate,
    start: int,
    consumed: int,
) -> bool {
    &&& row.project_code_id == project.id
    &&& row.project_code@ == project.code
    &&& row.allotted == project.allotted - consumed
    &&& row.total == window_total(entries, project.id, first, start)
    &&& row.remaining == project.allotted - consumed - window_total(
        entries,
        project.id,
        first,
        start,
    )
    &&& row.days@.len() == days_within(first, start)
    &&& forall|i: int|
        0 <= i < row.days@.len() ==> {
            &&& (#[trigger] row.days@[i]).date@ == date_text(
                day_of_month(first, first_day_within(first, start) + i),
            )
            &&& row.days@[i].hours == logged_on(
                entries,
                project.id,
                first,
                first_day_within(first, start) + i,
            )
        }
}

/// The first day of week `k` that lies in the month.
pub open spec fn week_first_day(first: CalendarDate, k: int) -> int {
    first_day_within(first, week_start(first, k))
}

/// The last day of week `k` that lies in the month.
pub open spec fn week_last_day(first: CalendarDate, k: int) -> int {
    last_day_within(first, week_start(first, k))
}

/// The hours logged for the project in week `k`, on days of the month.
pub open spec fn week_total(entries: Amounts, project_id: i64, first: CalendarDate, k: int) -> int {
    window_total(entries, project_id, first, week_start(first, k))
}

/// The hours logged for the project in the month before week `k`.
pub open spec fn consumed_before(
    entries: Amounts,
    project_id: i64,
    first: CalendarDate,
    k: int,
) -> int {
    logged_between(entries, project_id, first, first.day_number(), week_last_day(first, k - 1))
}

/// The balance a project starts week `k` with: its allotment for the month
/// less what was logged for it in the month before that week.
pub open spec fn starting_balance(
    allotted: int,
    entries: Amounts,
    project_id: i64,
    first: CalendarDate,
    k: int,
) -> int {
    allotted - consumed_before(entries, project_id, first, k)
}

/// The balance a project is left with after week `k`.
pub open spec fn remaining_balance(
    allotted: int,
    entries: Amounts,
    project_id: i64,
    first: CalendarDate,
    k: int,
) -> int {
    starting_balance(allotted, entries, project_id, first, k) - week_total(
        entries,
        project_id,
        first,
        k,
    )
}

/// The row is the project's account of week `k` of the month.
pub open spec fn is_week_row(
    row: WeekRowDto,
    project: ProjectRecord,
    entries: Amounts,
    first: CalendarDate,
    k: int,
) -> bool {
    is_window_row(
        row,
        project,
        entries,
        first,
        week_start(first, k),
        consumed_before(entries, project.id, first, k),
    )
}

/// The slice is week `k` of the month's report: the week's number and its
/// two ends as text, and a row for each project, in the projects' order.
pub open spec fn is_week_slice(
    slice: WeekSliceDto,
    projects: Seq<ProjectRecord>,
    entries: Amounts,
    first: CalendarDate,
    k: int,
) -> bool {
    &&& slice.week_index == k + 1
    &&& slice.start_date@ == date_text(date_on(week_start(first, k)))
    &&& slice.end_date@ == date_text(date_on(week_start(first, k) + 6))
    &&& slice.rows@.len() == projects.len()
    &&& forall|j: int|
        0 <= j < projects.len() ==> is_week_row(
            #[trigger] slice.rows@[j],
            projects[j],
            entries,
            first,
            k,
        )
}

/// The slices are the report of the month: one for each week of its view.
pub open spec fn is_report(
    weeks: Seq<WeekSliceDto>,
    projects: Seq<ProjectRecord>,
    entries: Amounts,
    first: CalendarDate,
) -> bool {
    &&& weeks.len() == week_count(first)
    &&& forall|k: int|
        0 <= k < weeks.len() ==> is_week_slice(#[trigger] weeks[k], projects, entries, first, k)
}

/// The most that a project may have consumed for `week_row` to account
/// for one more week of it.
pub open spec fn consumed_limit() -> int {
    0x1_0000_0000_0000_0000_0000_0000_0000
}

/// The hours logged over a span of days are those of its two parts.
pub proof fn lemma_logged_between_splits(
    entries: Amounts,
    project_id: i64,
    first: CalendarDate,
    lo: int,
    mid: int,
    hi: int,
)
    requires
        lo - 1 <= mid <= hi,
    ensures
        logged_between(entries, project_id, first, lo, hi) == logged_between(
            entries,
            project_id,
            first,
            lo,
            mid,
        ) + logged_between(entries, project_id, first, mid + 1, hi),
    decreases hi - mid,
{
    if mid < hi {
        lemma_logged_between_splits(entries, project_id, first, lo, mid, hi - 1);
    }
}

/// The hours logged over a span of days lie within what so many days can
/// hold.
pub proof fn lemma_logged_between_bounds(
    entries: Amounts,
    project_id: i64,
    first: CalendarDate,
    lo: int,
    hi: int,
)
    requires
        lo - 1 <= hi,
    ensures
        -(hi - lo + 1) * 0x8000_0000_0000_0000 <= logged_between(
            entries,
            project_id,
            first,
            lo,
            hi,
        ) <= (hi - lo + 1) * 0x8000_0000_0000_0000,
    decreases hi - lo + 1,
{
    if lo <= hi {
        lemma_logged_between_bounds(entries, project_id, first, lo, hi - 1);
    }
}

/// The balance is carried forward: a project starts the first week with
/// its allotment, is left after each week with what it started with less
/// what was logged in that week, and starts the next week with what it was
/// left with.
pub proof fn lemma_balance_carried_forward(
    allotted: int,
    entries: Amounts,
    project_id: i64,
    first: CalendarDate,
    k: int,
)
    requires
        first.is_month_start(),
        0 <= k,
    ensures
        starting_balance(allotted, entries, project_id, first, 0) == allotted,
        remaining_balance(allotted, entries, project_id, first, k) == starting_balance(
            allotted,
            entries,
            project_id,
            first,
            k,
        ) - week_total(entries, project_id, first, k),
        starting_balance(allotted, entries, project_id, first, k + 1) == remaining_balance(
            allotted,
            entries,
            project_id,
            first,
            k,
        ),
{
    lemma_next_month_follows(first.year as int, first.month as int);
    let begin = week_start(first, k);
    if first.day_number() <= begin <= last_day_number(first) {
        lemma_logged_between_splits(
            entries,
            project_id,
            first,
            first.day_number(),
            begin - 1,
            week_last_day(first, k),
        );
    }
}

/// In a report, every row's remaining balance is its starting balance less
/// its total, the rows of the first week start with the projects'
/// allotments, and every later row starts with what the row of the same
/// project was left with the week before.
pub proof fn lemma_report_balances(
    weeks: Seq<WeekSliceDto>,
    projects: Seq<ProjectRecord>,
    entries: Amounts,
    first: CalendarDate,
    k: int,
    j: int,
)
    requires
        first.is_month_start(),
        is_report(weeks, projects, entries, first),
        0 <= k < weeks.len(),
        0 <= j < projects.len(),
    ensures
        weeks[k].rows@[j].remaining == weeks[k].rows@[j].allotted - weeks[k].rows@[j].total,
        k == 0 ==> weeks[k].rows@[j].allotted == projects[j].allotted,
        k + 1 < weeks.len() ==> weeks[k + 1].rows@[j].allotted == weeks[k].rows@[j].remaining,
{
    lemma_balance_carried_forward(projects[j].allotted as int, entries, projects[j].id, first, k);
    assert(is_week_slice(weeks[k], projects, entries, first, k));
    assert(is_week_row(weeks[k].rows@[j], projects[j], entries, first, k));
    if k + 1 < weeks.len() {
        assert(is_week_slice(weeks[k + 1], projects, entries, first, k + 1));
        assert(is_week_row(weeks[k + 1].rows@[j], projects[j], entries, first, k + 1));
    }
}

/// One project's account of the seven days of a window, for the month
/// that `first` begins: the row, and what the project has consumed in the
/// month once the window is over. `consumed` is what it had consumed
/// before.
pub fn week_row(
    window: &WeekWindow,
    first: CalendarDate,
    project: &ProjectDto,
    entries: &AmountTable,
    consumed: i128,
) -> (r: (WeekRowDto, i128))
    requires
        first.is_month_start(),
        entries.wf(),
        window.wf(),
        -consumed_limit() <= consumed <= consumed_limit(),
    ensures
        is_window_row(
            r.0,
            record_of(*project),
            entries@,
            first,
            window.start.day_number(),
            consumed as int,
        ),
        r.1 == consumed + window_total(entries@, project.id, first, window.start.day_number()),
{
    let ghost begin = window.start.day_number();
    let ghost from = first_day_within(first, begin);
    let ghost to = last_day_within(first, begin);
    proof {
        lemma_next_month_follows(first.year as int, first.month as int);
    }
    let mut days: Vec<DayHoursDto> = Vec::new();
    let mut total: i128 = 0;
    let mut offset: u8 = 0;
    while offset < 7
        invariant
            first.is_month_start(),
            entries.wf(),
            window.wf(),
            window.start.day_number() == begin,
            from == first_day_within(first, begin),
            to == last_day_within(first, begin),
            first.day_number() <= last_day_number(first),
            offset <= 7,
            ({
                let done = if begin + offset - 1 > to {
                    to
                } else {
                    begin + offset - 1
                };
                &&& total == logged_between(entries@, project.id, first, from, done)
                &&& days@.len() == (if done < from {
                    0
                } else {
                    done - from + 1
                })
            }),
            -offset * 0x8000_0000_0000_0000 <= total <= offset * 0x8000_0000_0000_0000,
            forall|i: int|
                0 <= i < days@.len() ==> {
                    &&& (#[trigger] days@[i]).date@ == date_text(day_of_month(first, from + i))
                    &&& days@[i].hours == logged_on(entries@, project.id, first, from + i)
                },
        decreases 7 - offset,
    {
        let day = window.day(offset);
        let logged = match entries.get(project.id, day) {
            Some(hours) => hours,
            None => 0,
        };
        proof {
            lemma_days_of_month(first.year as int, first.month as int, day);
        }
        if day.in_month_of(&first) {
            assert(day == day_of_month(first, begin + offset));
            let text = day.to_text();
            days.push(DayHoursDto { date: text, hours: logged });
            total = total + logged as i128;
        }
        offset += 1;
    }
    let starting = project.allotted as i128 - consumed;
    let remaining = starting - total;
    let row = WeekRowDto {
        project_code_id: project.id,
        project_code: project.code.clone(),
        allotted: starting,
        days,
        total,
        remaining,
    };
    (row, consumed + total)
}

/// The rows of one window, a row for each project in the projects' order.
/// `consumed` holds for each project what it has consumed in the month:
/// before the window when the function is called, and after the window
/// when it returns.
pub fn week_rows(
    window: &WeekWindow,
    first: CalendarDate,
    projects: &Vec<ProjectDto>,
    entries: &AmountTable,
    consumed: &mut Vec<i128>,
) -> (rows: Vec<WeekRowDto>)
    requires
        first.is_month_start(),
        entries.wf(),
        window.wf(),
        old(consumed)@.len() == projects@.len(),
        forall|j: int|
            0 <= j < projects@.len() ==> -consumed_limit() <= (#[trigger] old(consumed)@[j])
                <= consumed_limit(),
    ensures
        rows@.len() == projects@.len(),
        forall|j: int|
            0 <= j < projects@.len() ==> is_window_row(
                #[trigger] rows@[j],
                record_of(projects@[j]),
                entries@,
                first,
                window.start.day_number(),
                old(consumed)@[j] as int,
            ),
        final(consumed)@.len() == projects@.len(),
        forall|j: int|
            0 <= j < projects@.len() ==> (#[trigger] final(consumed)@[j]) == old(consumed)@[j]
                + window_total(entries@, projects@[j].id, first, window.start.day_number()),
{
    let mut rows: Vec<WeekRowDto> = Vec::new();
    let mut j: usize = 0;
    while j < projects.len()
        invariant
            first.is_month_start(),
            entries.wf(),
            window.wf(),
            j <= projects@.len(),
            rows@.len() == j,
            consumed@.len() == projects@.len(),
            old(consumed)@.len() == projects@.len(),
            forall|i: int|
                0 <= i < j ==> is_window_row(
                    #[trigger] rows@[i],
                    record_of(projects@[i]),
                    entries@,
                    first,
                    window.start.day_number(),
                    old(consumed)@[i] as int,
                ),
            forall|i: int|
                0 <= i < j ==> (#[trigger] consumed@[i]) == old(consumed)@[i] + window_total(
                    entries@,
                    projects@[i].id,
                    first,
                    window.start.day_number(),
                ),
            forall|i: int|
                j <= i < projects@.len() ==> (#[trigger] consumed@[i]) == old(consumed)@[i],
            forall|i: int|
                0 <= i < projects@.len() ==> -consumed_limit() <= (#[trigger] old(consumed)@[i])
                    <= consumed_limit(),
        decreases projects@.len() - j,
    {
        let before = consumed[j];
        let (row, after) = week_row(window, first, &projects[j], entries, before);
        rows.push(row);
        consumed.set(j, after);
        j += 1;
    }
    rows
}

/// The report of the month that `first` begins: a slice for each week of
/// the month's view, each with a row for each project, in the projects'
/// order. There is no report where the month's view does not lie within
/// the calendar's limits.
pub fn weekly_report(
    first: CalendarDate,
    projects: &Vec<ProjectDto>,
    entries: &AmountTable,
) -> (r: Option<Vec<WeekSliceDto>>)
    requires
        first.is_month_start(),
        entries.wf(),
    ensures
        r is Some <==> month_fits(first),
        r matches Some(weeks) ==> is_report(weeks@, records_of(projects@), entries@, first),
{
    let windows = match partition_weeks(first) {
        Some(windows) => windows,
        None => { return None; },
    };
    let mut consumed: Vec<i128> = Vec::new();
    while consumed.len() < projects.len()
        invariant
            consumed@.len() <= projects@.len(),
            forall|j: int| 0 <= j < consumed@.len() ==> #[trigger] consumed@[j] == 0,
        decreases projects@.len() - consumed@.len(),
    {
        consumed.push(0);
    }
    proof {
        lemma_next_month_follows(first.year as int, first.month as int);
    }
    let mut weeks: Vec<WeekSliceDto> = Vec::new();
    let mut k: usize = 0;
    while k < windows.len()
        invariant
            first.is_month_start(),
            entries.wf(),
            is_partition(windows@, first),
            first.day_number() <= last_day_number(first) <= first.day_number() + 30,
            k <= windows@.len(),
            weeks@.len() == k,
            consumed@.len() == projects@.len(),
            forall|j: int|
                0 <= j < projects@.len() ==> (#[trigger] consumed@[j]) == consumed_before(
                    entries@,
                    projects@[j].id,
                    first,
                    k as int,
                ),
            forall|i: int|
                0 <= i < k ==> is_week_slice(
                    #[trigger] weeks@[i],
                    records_of(projects@),
                    entries@,
                    first,
                    i,
                ),
        decreases windows@.len() - k,
    {
        let window = windows[k];
        proof {
            assert forall|j: int| 0 <= j < projects@.len() implies -consumed_limit() <= (
            #[trigger] consumed@[j]) <= consumed_limit() by {
                if first.day_number() <= week_last_day(first, k - 1) {
                    lemma_logged_between_bounds(
                        entries@,
                        projects@[j].id,
                        first,
                        first.day_number(),
                        week_last_day(first, k - 1),
                    );
                }
            }
            assert forall|j: int| 0 <= j < projects@.len() implies consumed_before(
                entries@,
                projects@[j].id,
                first,
                k as int,
            ) + week_total(entries@, projects@[j].id, first, k as int) == consumed_before(
                entries@,
                projects@[j].id,
                first,
                k + 1,
            ) by {
                lemma_balance_carried_forward(0, entries@, projects@[j].id, first, k as int);
            }
        }
        let rows = week_rows(&window, first, projects, entries, &mut consumed);
        proof {
            lemma_date_on(window.start);
            lemma_date_on(window.end);
        }
        weeks.push(
            WeekSliceDto {
                week_index: window.index,
                start_date: window.start.to_text(),
                end_date: window.end.to_text(),
                rows,
            },
        );
        k += 1;
    }
    Some(weeks)
}

} // verus!
