//! What holds of a ledger and the reports drawn from it, whatever it was
//! asked before: what was logged is reported, once and where it belongs;
//! logging again replaces; a month without an allotment of its own falls
//! back on the project's; and a project that left is gone for good.

use crate::calendar::{
    lemma_day_number_order, lemma_days_of_month, lemma_next_month_follows, CalendarDate,
};
use crate::codes::text_precedes;
use crate::dates::{
    date_text, lemma_date_text_injective, lemma_month_text_begins_its_days, month_text,
};
use crate::dto::{ProjectRecord, WeekSliceDto};
use crate::model::{
    is_member, lemma_by_code, lemma_delete_project, lemma_row_of, lemma_same_projects,
    lemma_set_day_hours, LedgerState,
};
use crate::report::{
    day_of_month, is_report, is_week_row, is_week_slice, lemma_report_balances, week_first_day,
    week_last_day, week_total,
};
use crate::weeks::{first_week_start, last_day_number, lemma_weeks_cover_month, week_start};
use crate::table::Amounts;
use vstd::prelude::*;

verus! {

/// The first day of the month that the date lies in.
pub open spec fn month_start_of(date: CalendarDate) -> CalendarDate {
    CalendarDate { year: date.year, month: date.month, day: 1 }
}

/// Hours logged for a project on a day are reported for the month of that
/// day exactly once: in the row of the project, in the week that holds the
/// day, under the day's own text and with the hours that were logged. No
/// other cell of any row of the project bears that day's text.
pub proof fn lemma_logged_day_is_reported(
    state: LedgerState,
    id: i64,
    date: CalendarDate,
    hours: i64,
    weeks: Seq<WeekSliceDto>,
)
    requires
        state.wf(),
        state.has_project(id),
        date.is_valid(),
        ({
            let after = state.set_day_hours(id, date, hours);
            let first = month_start_of(date);
            is_report(weeks, after.month_projects(first), after.entries, first)
        }),
    ensures
        ({
            let first = month_start_of(date);
            let k = (date.day_number() - first_week_start(first)) / 7;
            let j = state.row_of(id, first);
            let i = date.day_number() - week_first_day(first, k);
            &&& 0 <= k < weeks.len()
            &&& 0 <= j < weeks[k].rows@.len()
            &&& 0 <= i < weeks[k].rows@[j].days@.len()
            &&& weeks[k].rows@[j].project_code_id == id
            &&& weeks[k].rows@[j].days@[i].date@ == date_text(date)
            &&& weeks[k].rows@[j].days@[i].hours == hours
            &&& forall|k2: int, j2: int, i2: int|
                0 <= k2 < weeks.len() && 0 <= j2 < weeks[k2].rows@.len() && 0 <= i2
                    < weeks[k2].rows@[j2].days@.len() && weeks[k2].rows@[j2].project_code_id == id
                    && (#[trigger] weeks[k2].rows@[j2].days@[i2]).date@ == date_text(date) ==> k2
                    == k && j2 == j && i2 == i
        }),
{
    let after = state.set_day_hours(id, date, hours);
    let first = month_start_of(date);
    let projects = after.month_projects(first);
    let k = (date.day_number() - first_week_start(first)) / 7;
    let j = state.row_of(id, first);
    let i = date.day_number() - week_first_day(first, k);
    lemma_same_projects(state, after);
    lemma_set_day_hours(state, id, date, hours);
    lemma_row_of(after, id, first);
    assert(after.resolved_projects(first) =~= state.resolved_projects(first));
    lemma_weeks_cover_month(first, date);
    lemma_days_of_month(first.year as int, first.month as int, date);
    lemma_next_month_follows(first.year as int, first.month as int);
    assert(is_week_slice(weeks[k], projects, after.entries, first, k));
    assert(projects[j].id == id);
    assert(is_week_row(weeks[k].rows@[j], projects[j], after.entries, first, k));
    assert(day_of_month(first, date.day_number()) == date);
    assert forall|k2: int, j2: int, i2: int|
        0 <= k2 < weeks.len() && 0 <= j2 < weeks[k2].rows@.len() && 0 <= i2
            < weeks[k2].rows@[j2].days@.len() && weeks[k2].rows@[j2].project_code_id == id && (
        #[trigger] weeks[k2].rows@[j2].days@[i2]).date@ == date_text(date) implies k2 == k && j2
        == j && i2 == i by {
        assert(is_week_slice(weeks[k2], projects, after.entries, first, k2));
        assert(is_week_row(weeks[k2].rows@[j2], projects[j2], after.entries, first, k2));
        assert(projects[j2].id == id);
        let n = week_first_day(first, k2) + i2;
        let other = day_of_month(first, n);
        assert(first.day_number() <= n <= last_day_number(first));
        assert(other.is_valid() && other.day_number() == n);
        lemma_date_text_injective(other, date);
        assert(week_start(first, k2) <= date.day_number() <= week_start(first, k2) + 6);
    }
}

/// A report of a ledger has in every week one row for each project of the
/// ledger, and the rows stand in the order of the projects' codes: no
/// row's code comes before the code of a row above it.
pub proof fn lemma_rows_stand_by_code(
    state: LedgerState,
    first: CalendarDate,
    weeks: Seq<WeekSliceDto>,
    k: int,
)
    requires
        state.wf(),
        is_report(weeks, state.month_projects(first), state.entries, first),
        0 <= k < weeks.len(),
    ensures
        weeks[k].rows@.len() == state.projects.len(),
        forall|i: int, j: int|
            0 <= i < j < weeks[k].rows@.len() ==> !text_precedes(
                (#[trigger] weeks[k].rows@[j]).project_code@,
                (#[trigger] weeks[k].rows@[i]).project_code@,
            ),
        forall|id: i64|
            state.has_project(id) ==> 0 <= state.row_of(id, first) < weeks[k].rows@.len()
                && weeks[k].rows@[#[trigger] state.row_of(id, first)].project_code_id == id,
{
    let projects = state.month_projects(first);
    lemma_by_code(state.resolved_projects(first));
    assert(is_week_slice(weeks[k], projects, state.entries, first, k));
    assert forall|i: int, j: int| 0 <= i < j < weeks[k].rows@.len() implies !text_precedes(
        (#[trigger] weeks[k].rows@[j]).project_code@,
        (#[trigger] weeks[k].rows@[i]).project_code@,
    ) by {
        assert(is_week_row(weeks[k].rows@[i], projects[i], state.entries, first, k));
        assert(is_week_row(weeks[k].rows@[j], projects[j], state.entries, first, k));
        assert(!text_precedes(projects[j].code, projects[i].code));
    }
    assert forall|id: i64| state.has_project(id) implies 0 <= state.row_of(id, first)
        < weeks[k].rows@.len() && weeks[k].rows@[#[trigger] state.row_of(
        id,
        first,
    )].project_code_id == id by {
        lemma_row_of(state, id, first);
        let j = state.row_of(id, first);
        assert(is_week_row(weeks[k].rows@[j], projects[j], state.entries, first, k));
    }
}

/// The days of every row of a report lie in the month of the report: the
/// text of each begins with the month's text.
pub proof fn lemma_reported_days_lie_in_month(
    weeks: Seq<WeekSliceDto>,
    projects: Seq<ProjectRecord>,
    entries: Amounts,
    first: CalendarDate,
    k: int,
    j: int,
    i: int,
)
    requires
        first.is_month_start(),
        is_report(weeks, projects, entries, first),
        0 <= k < weeks.len(),
        0 <= j < weeks[k].rows@.len(),
        0 <= i < weeks[k].rows@[j].days@.len(),
    ensures
        month_text(first).is_prefix_of(weeks[k].rows@[j].days@[i].date@),
{
    assert(is_week_slice(weeks[k], projects, entries, first, k));
    assert(is_week_row(weeks[k].rows@[j], projects[j], entries, first, k));
    lemma_next_month_follows(first.year as int, first.month as int);
    let day = day_of_month(first, week_first_day(first, k) + i);
    assert(day.is_valid() && day.same_month(first));
    lemma_month_text_begins_its_days(first, day);
}

/// Logging hours for a project on a day for which hours were logged
/// already leaves the ledger as if only the later hours had been logged:
/// there is one entry for the day, and every total reflects the later
/// hours alone.
pub proof fn lemma_logging_again_replaces(
    state: LedgerState,
    id: i64,
    date: CalendarDate,
    earlier: i64,
    later: i64,
)
    ensures
        state.set_day_hours(id, date, earlier).set_day_hours(id, date, later)
            == state.set_day_hours(id, date, later),
        state.set_day_hours(id, date, earlier).set_day_hours(id, date, later).entries[(id, date)]
            == later,
        forall|first: CalendarDate, k: int|
            week_total(
                state.set_day_hours(id, date, earlier).set_day_hours(id, date, later).entries,
                id,
                first,
                k,
            ) == #[trigger] week_total(state.set_day_hours(id, date, later).entries, id, first, k),
{
    let twice = state.set_day_hours(id, date, earlier).set_day_hours(id, date, later);
    let once = state.set_day_hours(id, date, later);
    assert(twice.entries =~= once.entries);
}

/// Allotting hours to a project for a month for which hours were allotted
/// already leaves the ledger as if only the later hours had been allotted.
pub proof fn lemma_allotting_again_replaces(
    state: LedgerState,
    id: i64,
    first: CalendarDate,
    earlier: i64,
    later: i64,
)
    ensures
        state.set_month_allotment(id, first, earlier).set_month_allotment(id, first, later)
            == state.set_month_allotment(id, first, later),
        state.set_month_allotment(id, first, later).month_allotment(id, first) == later,
{
    let twice = state.set_month_allotment(id, first, earlier).set_month_allotment(
        id,
        first,
        later,
    );
    let once = state.set_month_allotment(id, first, later);
    assert(twice.overrides =~= once.overrides);
}

/// A project for which no hours were allotted for the month starts the
/// month's first week with the hours it is allotted for any month.
pub proof fn lemma_month_starts_with_default(
    state: LedgerState,
    first: CalendarDate,
    weeks: Seq<WeekSliceDto>,
    id: i64,
)
    requires
        state.wf(),
        first.is_month_start(),
        state.has_project(id),
        !state.overrides.contains_key((id, first)),
        is_report(weeks, state.month_projects(first), state.entries, first),
    ensures
        ({
            let j = state.row_of(id, first);
            &&& state.month_allotment(id, first) == state.projects[state.place_of(id)].allotted
            &&& weeks.len() > 0
            &&& 0 <= j < weeks[0].rows@.len()
            &&& weeks[0].rows@[j].project_code_id == id
            &&& weeks[0].rows@[j].allotted == state.projects[state.place_of(id)].allotted
        }),
{
    let j = state.row_of(id, first);
    lemma_row_of(state, id, first);
    lemma_next_month_follows(first.year as int, first.month as int);
    lemma_report_balances(weeks, state.month_projects(first), state.entries, first, 0, j);
    assert(is_week_slice(weeks[0], state.month_projects(first), state.entries, first, 0));
    assert(is_week_row(
        weeks[0].rows@[j],
        state.month_projects(first)[j],
        state.entries,
        first,
        0,
    ));
}

/// Once a project has left the ledger, the ledger holds no hours and no
/// allotment for it, no report has a row for it, and no project that is
/// taken in later gets its identifier.
pub proof fn lemma_deleted_project_is_gone(
    state: LedgerState,
    id: i64,
    first: CalendarDate,
    weeks: Seq<WeekSliceDto>,
)
    requires
        state.wf(),
        state.has_project(id),
        ({
            let after = state.delete_project(id);
            is_report(weeks, after.month_projects(first), after.entries, first)
        }),
    ensures
        ({
            let after = state.delete_project(id);
            &&& after.wf()
            &&& !after.has_project(id)
            &&& forall|date: CalendarDate| !after.entries.contains_key((id, date))
            &&& forall|date: CalendarDate| !after.overrides.contains_key((id, date))
            &&& id < after.next_id
            &&& forall|k: int, j: int|
                0 <= k < weeks.len() && 0 <= j < weeks[k].rows@.len() ==> (
                #[trigger] weeks[k].rows@[j]).project_code_id != id
        }),
{
    let after = state.delete_project(id);
    let projects = after.month_projects(first);
    lemma_delete_project(state, id);
    lemma_by_code(after.resolved_projects(first));
    assert forall|k: int, j: int| 0 <= k < weeks.len() && 0 <= j < weeks[k].rows@.len() implies (
    #[trigger] weeks[k].rows@[j]).project_code_id != id by {
        assert(is_week_slice(weeks[k], projects, after.entries, first, k));
        assert(is_week_row(weeks[k].rows@[j], projects[j], after.entries, first, k));
        assert(is_member(projects[j], after.resolved_projects(first)));
        let from = choose|from: int|
            0 <= from < after.resolved_projects(first).len() && #[trigger] after.resolved_projects(
                first,
            )[from] == projects[j];
        assert(after.projects[from].id == projects[j].id);
    }
}

} // verus!
