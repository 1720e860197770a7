//! What a ledger holds, and what each request makes of it, as mathematics:
//! the projects in the order of their identifiers, the allotments that
//! were set for single months, and the hours logged day by day.

use crate::calendar::CalendarDate;
use crate::codes::{lemma_text_order, text_precedes};
use crate::dates::{month_named, month_text};
use crate::dto::{ProjectAllotmentDto, ProjectRecord};
use crate::error::LedgerError;
use crate::table::{without_project, Amounts};
use vstd::prelude::*;

verus! {

/// What a ledger holds.
pub struct LedgerState {
    /// The projects, in the order of their identifiers.
    pub projects: Seq<ProjectRecord>,
    /// The hours allotted to a project for a single month, held under the
    /// month's first day.
    pub overrides: Amounts,
    /// The hours logged for a project on a day.
    pub entries: Amounts,
    /// The identifier that the next new project gets.
    pub next_id: i64,
}

impl LedgerState {
    /// A ledger that holds nothing.
    pub open spec fn empty() -> LedgerState {
        LedgerState {
            projects: Seq::empty(),
            overrides: Amounts::empty(),
            entries: Amounts::empty(),
            next_id: 1,
        }
    }

    /// The ledger holds a project with the identifier.
    pub open spec fn has_project(self, id: i64) -> bool {
        exists|i: int| 0 <= i < self.projects.len() && (#[trigger] self.projects[i]).id == id
    }

    /// The place of the project with the identifier among the projects.
    pub open spec fn place_of(self, id: i64) -> int {
        choose|i: int| 0 <= i < self.projects.len() && (#[trigger] self.projects[i]).id == id
    }

    /// Some project bears the code.
    pub open spec fn code_in_use(self, code: Seq<char>) -> bool {
        exists|i: int| 0 <= i < self.projects.len() && (#[trigger] self.projects[i]).code == code
    }

    /// Some project other than the one with the identifier bears the code.
    pub open spec fn code_of_another(self, id: i64, code: Seq<char>) -> bool {
        exists|i: int|
            0 <= i < self.projects.len() && (#[trigger] self.projects[i]).code == code
                && self.projects[i].id != id
    }

    /// The ledger is in order: identifiers rise from project to project and
    /// lie below the next one to be given, no two projects bear the same
    /// code, and every allotment and every logged day belongs to a project
    /// that is there, the one under the first day of a month, the other
    /// under a day that exists.
    pub open spec fn wf(self) -> bool {
        &&& forall|i: int|
            0 <= i < self.projects.len() ==> (#[trigger] self.projects[i]).id < self.next_id
        &&& forall|i: int, j: int|
            0 <= i < j < self.projects.len() ==> (#[trigger] self.projects[i]).id < (
            #[trigger] self.projects[j]).id
        &&& forall|i: int, j: int|
            0 <= i < j < self.projects.len() ==> (#[trigger] self.projects[i]).code != (
            #[trigger] self.projects[j]).code
        &&& forall|key: (i64, CalendarDate)| #[trigger]
            self.overrides.contains_key(key) ==> self.has_project(key.0) && key.1.is_month_start()
        &&& forall|key: (i64, CalendarDate)| #[trigger]
            self.entries.contains_key(key) ==> self.has_project(key.0) && key.1.is_valid()
    }

    /// What becomes of a request for a new project with the code.
    pub open spec fn add_project_result(self, code: Seq<char>) -> Result<i64, LedgerError> {
        if self.code_in_use(code) {
            Err(LedgerError::Conflict)
        } else if self.next_id == i64::MAX {
            Err(LedgerError::StoreUnavailable)
        } else {
            Ok(self.next_id)
        }
    }

    /// The ledger with a new project after the others.
    pub open spec fn add_project(self, code: Seq<char>, allotted: i64) -> LedgerState {
        LedgerState {
            projects: self.projects.push(ProjectRecord { id: self.next_id, code, allotted }),
            next_id: (self.next_id + 1) as i64,
            ..self
        }
    }

    /// What becomes of a request to take in a project under an identifier
    /// of its own.
    pub open spec fn restore_project_result(self, id: i64, code: Seq<char>) -> Result<
        (),
        LedgerError,
    > {
        if id < self.next_id || self.code_in_use(code) {
            Err(LedgerError::Conflict)
        } else if id == i64::MAX {
            Err(LedgerError::StoreUnavailable)
        } else {
            Ok(())
        }
    }

    /// The ledger with a project under an identifier of its own after the
    /// others.
    pub open spec fn restore_project(self, id: i64, code: Seq<char>, allotted: i64) -> LedgerState {
        LedgerState {
            projects: self.projects.push(ProjectRecord { id, code, allotted }),
            next_id: (id + 1) as i64,
            ..self
        }
    }

    /// The ledger with every identifier up to `last` out of use: none of
    /// them is given to a project that is taken in later.
    pub open spec fn retire_identifiers(self, last: i64) -> LedgerState {
        LedgerState {
            next_id: if last < self.next_id {
                self.next_id
            } else if last == i64::MAX {
                last
            } else {
                (last + 1) as i64
            },
            ..self
        }
    }

    /// What becomes of a request to give a project another code.
    pub open spec fn update_project_result(self, id: i64, code: Seq<char>) -> Result<
        (),
        LedgerError,
    > {
        if !self.has_project(id) {
            Err(LedgerError::NotFound)
        } else if self.code_of_another(id, code) {
            Err(LedgerError::Conflict)
        } else {
            Ok(())
        }
    }

    /// The ledger with another code for a project.
    pub open spec fn update_project(self, id: i64, code: Seq<char>) -> LedgerState {
        let i = self.place_of(id);
        LedgerState {
            projects: self.projects.update(i, ProjectRecord { code, ..self.projects[i] }),
            ..self
        }
    }

    /// What becomes of a request that names a project.
    pub open spec fn project_result(self, id: i64) -> Result<(), LedgerError> {
        if self.has_project(id) {
            Ok(())
        } else {
            Err(LedgerError::NotFound)
        }
    }

    /// What becomes of a request that names a project and, by its text, a
    /// day or a month: `named` is what the text names.
    pub open spec fn dated_result(self, id: i64, named: Option<CalendarDate>) -> Result<
        (),
        LedgerError,
    > {
        if named is None {
            Err(LedgerError::InvalidInput)
        } else {
            self.project_result(id)
        }
    }

    /// The ledger without a project, its allotments and its logged days.
    pub open spec fn delete_project(self, id: i64) -> LedgerState {
        LedgerState {
            projects: self.projects.remove(self.place_of(id)),
            overrides: without_project(self.overrides, id),
            entries: without_project(self.entries, id),
            ..self
        }
    }

    /// The ledger with hours logged for a project on a day, in place of
    /// what was logged for the project on that day before.
    pub open spec fn set_day_hours(self, id: i64, date: CalendarDate, hours: i64) -> LedgerState {
        LedgerState { entries: self.entries.insert((id, date), hours), ..self }
    }

    /// The ledger with hours allotted to a project for the month that
    /// `first` begins, in place of what was allotted for that month before.
    pub open spec fn set_month_allotment(
        self,
        id: i64,
        first: CalendarDate,
        allotted: i64,
    ) -> LedgerState {
        LedgerState { overrides: self.overrides.insert((id, first), allotted), ..self }
    }

    /// The hours allotted to a project for the month that `first` begins:
    /// what was set for that month, and else what the project is allotted
    /// for any month.
    pub open spec fn month_allotment(self, id: i64, first: CalendarDate) -> i64 {
        if self.overrides.contains_key((id, first)) {
            self.overrides[(id, first)]
        } else {
            self.projects[self.place_of(id)].allotted
        }
    }

    /// The projects in the order of their codes, each with the hours
    /// allotted to it for the month that `first` begins: the order in which
    /// a report has its rows.
    pub open spec fn month_projects(self, first: CalendarDate) -> Seq<ProjectRecord> {
        by_code(self.resolved_projects(first))
    }

    /// The place of the project with the identifier among the projects in
    /// the order of their codes.
    pub open spec fn row_of(self, id: i64, first: CalendarDate) -> int {
        choose|j: int|
            0 <= j < self.month_projects(first).len() && (#[trigger] self.month_projects(
                first,
            )[j]).id == id
    }

    /// The projects in the order of their identifiers, each with the hours
    /// allotted to it for the month that `first` begins.
    pub open spec fn resolved_projects(self, first: CalendarDate) -> Seq<ProjectRecord> {
        Seq::new(
            self.projects.len(),
            |i: int|
                ProjectRecord {
                    allotted: self.month_allotment(self.projects[i].id, first),
                    ..self.projects[i]
                },
        )
    }
}

/// Where a project with the code goes among projects that stand in the
/// order of their codes, looking from place `from` on: before the first
/// whose code comes after its own, and so after those that bear its code.
pub open spec fn place_by_code(sorted: Seq<ProjectRecord>, code: Seq<char>, from: int) -> int
    decreases sorted.len() - from,
{
    if from < 0 || from >= sorted.len() || text_precedes(code, sorted[from].code) {
        from
    } else {
        place_by_code(sorted, code, from + 1)
    }
}

/// The projects in the order of their codes, those with the same code in
/// the order in which they stood.
pub open spec fn by_code(projects: Seq<ProjectRecord>) -> Seq<ProjectRecord>
    decreases projects.len(),
{
    if projects.len() == 0 {
        Seq::empty()
    } else {
        let sorted = by_code(projects.drop_last());
        sorted.insert(place_by_code(sorted, projects.last().code, 0), projects.last())
    }
}

/// No project's code comes before the code of a project that stands
/// before it.
pub open spec fn is_in_code_order(projects: Seq<ProjectRecord>) -> bool {
    forall|i: int, j: int|
        0 <= i < j < projects.len() ==> !text_precedes(
            (#[trigger] projects[j]).code,
            (#[trigger] projects[i]).code,
        )
}

/// The project is one of the projects.
pub open spec fn is_member(project: ProjectRecord, projects: Seq<ProjectRecord>) -> bool {
    exists|k: int| 0 <= k < projects.len() && #[trigger] projects[k] == project
}

/// Both sequences hold the same projects.
pub open spec fn same_members(a: Seq<ProjectRecord>, b: Seq<ProjectRecord>) -> bool {
    &&& a.len() == b.len()
    &&& forall|i: int| 0 <= i < a.len() ==> is_member(#[trigger] a[i], b)
    &&& forall|k: int| 0 <= k < b.len() ==> is_member(#[trigger] b[k], a)
}

/// No two of the projects have the same identifier.
pub open spec fn ids_distinct(projects: Seq<ProjectRecord>) -> bool {
    forall|i: int, j: int|
        0 <= i < j < projects.len() ==> (#[trigger] projects[i]).id != (#[trigger] projects[j]).id
}

/// The place found for a code lies after every project whose code does
/// not come after it, from `from` on, and before one whose code does.
pub proof fn lemma_place_by_code(sorted: Seq<ProjectRecord>, code: Seq<char>, from: int)
    requires
        0 <= from <= sorted.len(),
    ensures
        from <= place_by_code(sorted, code, from) <= sorted.len(),
        forall|t: int|
            from <= t < place_by_code(sorted, code, from) ==> !text_precedes(
                code,
                (#[trigger] sorted[t]).code,
            ),
        place_by_code(sorted, code, from) < sorted.len() ==> text_precedes(
            code,
            sorted[place_by_code(sorted, code, from)].code,
        ),
    decreases sorted.len() - from,
{
    if from < sorted.len() && !text_precedes(code, sorted[from].code) {
        lemma_place_by_code(sorted, code, from + 1);
    }
}

/// A project put among others is one more member.
proof fn lemma_members_grow(
    sorted: Seq<ProjectRecord>,
    rest: Seq<ProjectRecord>,
    at: int,
    last: ProjectRecord,
)
    requires
        same_members(sorted, rest),
        0 <= at <= sorted.len(),
    ensures
        same_members(sorted.insert(at, last), rest.push(last)),
{
    let after = sorted.insert(at, last);
    let all = rest.push(last);
    assert forall|i: int| 0 <= i < after.len() implies is_member(#[trigger] after[i], all) by {
        if i == at {
            assert(all[rest.len() as int] == after[i]);
        } else {
            let u = if i < at {
                i
            } else {
                i - 1
            };
            assert(after[i] == sorted[u]);
            assert(is_member(sorted[u], rest));
            let k = choose|k: int| 0 <= k < rest.len() && #[trigger] rest[k] == sorted[u];
            assert(all[k] == after[i]);
        }
    }
    assert forall|k: int| 0 <= k < all.len() implies is_member(#[trigger] all[k], after) by {
        if k == rest.len() {
            assert(after[at] == all[k]);
        } else {
            assert(rest[k] == all[k]);
            assert(is_member(rest[k], sorted));
            let u = choose|u: int| 0 <= u < sorted.len() && #[trigger] sorted[u] == rest[k];
            if u < at {
                assert(after[u] == all[k]);
            } else {
                assert(after[u + 1] == all[k]);
            }
        }
    }
}

/// A project put where its code belongs leaves the order of codes whole.
proof fn lemma_order_kept(sorted: Seq<ProjectRecord>, at: int, last: ProjectRecord)
    requires
        is_in_code_order(sorted),
        0 <= at <= sorted.len(),
        forall|t: int| 0 <= t < at ==> !text_precedes(last.code, (#[trigger] sorted[t]).code),
        at < sorted.len() ==> text_precedes(last.code, sorted[at].code),
    ensures
        is_in_code_order(sorted.insert(at, last)),
{
    let after = sorted.insert(at, last);
    assert forall|i: int, j: int| 0 <= i < j < after.len() implies !text_precedes(
        (#[trigger] after[j]).code,
        (#[trigger] after[i]).code,
    ) by {
        if i == at {
            let b = j - 1;
            assert(after[j] == sorted[b]);
            lemma_text_order(sorted[b].code, last.code, sorted[at].code);
            lemma_text_order(last.code, sorted[at].code, last.code);
            if b > at {
                assert(!text_precedes(sorted[b].code, sorted[at].code));
            }
        } else if j == at {
            assert(after[i] == sorted[i]);
        } else {
            let a = if i < at {
                i
            } else {
                i - 1
            };
            let b = if j < at {
                j
            } else {
                j - 1
            };
            assert(after[i] == sorted[a] && after[j] == sorted[b]);
            assert(!text_precedes(sorted[b].code, sorted[a].code));
        }
    }
}

/// A project put among others whose identifiers are not its own leaves
/// the identifiers distinct.
proof fn lemma_ids_kept(sorted: Seq<ProjectRecord>, at: int, last: ProjectRecord)
    requires
        ids_distinct(sorted),
        0 <= at <= sorted.len(),
        forall|t: int| 0 <= t < sorted.len() ==> (#[trigger] sorted[t]).id != last.id,
    ensures
        ids_distinct(sorted.insert(at, last)),
{
    let after = sorted.insert(at, last);
    assert forall|i: int, j: int| 0 <= i < j < after.len() implies (#[trigger] after[i]).id != (
    #[trigger] after[j]).id by {
        let a = if i < at {
            i
        } else {
            i - 1
        };
        let b = if j < at {
            j
        } else {
            j - 1
        };
        if i == at {
            assert(after[j] == sorted[b]);
        } else if j == at {
            assert(after[i] == sorted[a]);
        } else {
            assert(after[i] == sorted[a] && after[j] == sorted[b]);
            assert(sorted[a].id != sorted[b].id);
        }
    }
}

/// Putting projects in the order of their codes gives the same projects,
/// in the order of their codes, and with distinct identifiers if they had
/// distinct identifiers.
pub proof fn lemma_by_code(projects: Seq<ProjectRecord>)
    ensures
        same_members(by_code(projects), projects),
        is_in_code_order(by_code(projects)),
        ids_distinct(projects) ==> ids_distinct(by_code(projects)),
    decreases projects.len(),
{
    if projects.len() > 0 {
        let rest = projects.drop_last();
        let last = projects.last();
        let sorted = by_code(rest);
        let at = place_by_code(sorted, last.code, 0);
        lemma_by_code(rest);
        lemma_place_by_code(sorted, last.code, 0);
        assert(projects =~= rest.push(last));
        lemma_members_grow(sorted, rest, at, last);
        lemma_order_kept(sorted, at, last);
        if ids_distinct(projects) {
            assert(ids_distinct(rest)) by {
                assert forall|i: int, j: int| 0 <= i < j < rest.len() implies (
                #[trigger] rest[i]).id != (#[trigger] rest[j]).id by {
                    assert(projects[i].id != projects[j].id);
                }
            }
            assert forall|t: int| 0 <= t < sorted.len() implies (#[trigger] sorted[t]).id
                != last.id by {
                assert(is_member(sorted[t], rest));
                let k = choose|k: int| 0 <= k < rest.len() && #[trigger] rest[k] == sorted[t];
                assert(projects[k].id != projects[projects.len() - 1].id);
            }
            lemma_ids_kept(sorted, at, last);
        }
    }
}

/// In a report's order of projects every project of the ledger has one
/// place, and there it stands with its code and the hours allotted to it
/// for the month.
pub proof fn lemma_row_of(state: LedgerState, id: i64, first: CalendarDate)
    requires
        state.wf(),
        state.has_project(id),
    ensures
        ({
            let rows = state.month_projects(first);
            let j = state.row_of(id, first);
            &&& rows.len() == state.projects.len()
            &&& 0 <= j < rows.len()
            &&& rows[j].id == id
            &&& rows[j].code == state.projects[state.place_of(id)].code
            &&& rows[j].allotted == state.month_allotment(id, first)
            &&& forall|other: int| 0 <= other < rows.len() && rows[other].id == id ==> other == j
            &&& forall|other: int| 0 <= other < rows.len() ==> state.has_project(rows[other].id)
            &&& is_in_code_order(rows)
        }),
{
    let resolved = state.resolved_projects(first);
    let rows = state.month_projects(first);
    lemma_by_code(resolved);
    assert(ids_distinct(resolved)) by {
        assert forall|i: int, j: int| 0 <= i < j < resolved.len() implies (
        #[trigger] resolved[i]).id != (#[trigger] resolved[j]).id by {
            assert(state.projects[i].id < state.projects[j].id);
        }
    }
    let k = state.place_of(id);
    assert(resolved[k].id == id);
    assert(is_member(resolved[k], rows));
    let found = choose|i: int| 0 <= i < rows.len() && #[trigger] rows[i] == resolved[k];
    assert(rows[found].id == id);
    let j = state.row_of(id, first);
    assert(found == j) by {
        if found < j {
            assert(rows[found].id != rows[j].id);
        }
        if j < found {
            assert(rows[j].id != rows[found].id);
        }
    }
    assert forall|other: int| 0 <= other < rows.len() && rows[other].id == id implies other
        == j by {
        if other < j {
            assert(rows[other].id != rows[j].id);
        }
        if j < other {
            assert(rows[j].id != rows[other].id);
        }
    }
    assert forall|other: int| 0 <= other < rows.len() implies state.has_project(
        rows[other].id,
    ) by {
        assert(is_member(rows[other], resolved));
        let from = choose|from: int|
            0 <= from < resolved.len() && #[trigger] resolved[from] == rows[other];
        assert(state.projects[from].id == rows[other].id);
    }
}

/// The list is that of the months for which hours were allotted to the
/// project, each with its hours, the latest month first.
pub open spec fn is_allotment_list(
    list: Seq<ProjectAllotmentDto>,
    overrides: Amounts,
    project_id: i64,
) -> bool {
    &&& forall|i: int|
        0 <= i < list.len() ==> {
            &&& month_named((#[trigger] list[i]).month@) matches Some(first)
            &&& overrides.contains_key((project_id, first))
            &&& overrides[(project_id, first)] == list[i].allotted
        }
    &&& forall|i: int, j: int|
        0 <= i < j < list.len() ==> month_named((#[trigger] list[j]).month@)->0.precedes(
            month_named((#[trigger] list[i]).month@)->0,
        )
    &&& forall|first: CalendarDate| #[trigger]
        overrides.contains_key((project_id, first)) ==> exists|i: int|
            0 <= i < list.len() && (#[trigger] list[i]).month@ == month_text(first)
}

/// In a ledger in order a project is known by its identifier.
pub proof fn lemma_place_of(state: LedgerState, i: int)
    requires
        state.wf(),
        0 <= i < state.projects.len(),
    ensures
        state.has_project(state.projects[i].id),
        state.place_of(state.projects[i].id) == i,
{
    let j = state.place_of(state.projects[i].id);
    if j < i {
        assert(state.projects[j].id < state.projects[i].id);
    }
    if i < j {
        assert(state.projects[i].id < state.projects[j].id);
    }
}

/// A ledger in order stays in order when it takes in a project under an
/// identifier not below the next one to be given, with a code that no
/// project bears. The projects it held it still holds.
pub proof fn lemma_restore_project(state: LedgerState, id: i64, code: Seq<char>, allotted: i64)
    requires
        state.wf(),
        state.next_id <= id < i64::MAX,
        !state.code_in_use(code),
    ensures
        state.restore_project(id, code, allotted).wf(),
        state.restore_project(id, code, allotted).has_project(id),
        forall|other: i64|
            state.has_project(other) ==> state.restore_project(id, code, allotted).has_project(
                other,
            ),
{
    let after = state.restore_project(id, code, allotted);
    let n = state.projects.len() as int;
    assert(after.projects[n].id == id);
    assert forall|other: i64| state.has_project(other) implies after.has_project(other) by {
        let i = state.place_of(other);
        assert(after.projects[i].id == other);
    }
    assert forall|i: int, j: int| 0 <= i < j < after.projects.len() implies (
    #[trigger] after.projects[i]).code != (#[trigger] after.projects[j]).code by {
        assert(after.projects[i] == state.projects[i]);
        if j < n {
            assert(after.projects[j] == state.projects[j]);
        }
    }
    assert forall|i: int, j: int| 0 <= i < j < after.projects.len() implies (
    #[trigger] after.projects[i]).id < (#[trigger] after.projects[j]).id by {
        assert(after.projects[i] == state.projects[i]);
        if j < n {
            assert(after.projects[j] == state.projects[j]);
        }
    }
    assert forall|i: int| 0 <= i < after.projects.len() implies (#[trigger] after.projects[i]).id
        < after.next_id by {
        if i < n {
            assert(after.projects[i] == state.projects[i]);
        }
    }
}

/// A ledger in order stays in order when a project of it gets a code that
/// no other project bears.
pub proof fn lemma_update_project(state: LedgerState, id: i64, code: Seq<char>)
    requires
        state.wf(),
        state.has_project(id),
        !state.code_of_another(id, code),
    ensures
        state.update_project(id, code).wf(),
        forall|other: i64| state.has_project(other) == state.update_project(id, code).has_project(other),
{
    let after = state.update_project(id, code);
    let at = state.place_of(id);
    assert forall|i: int| 0 <= i < after.projects.len() implies (#[trigger] after.projects[i]).id
        == state.projects[i].id by {}
    assert forall|other: i64| state.has_project(other) == after.has_project(other) by {
        if state.has_project(other) {
            let i = state.place_of(other);
            assert(after.projects[i].id == other);
        }
        if after.has_project(other) {
            let i = after.place_of(other);
            assert(state.projects[i].id == other);
        }
    }
    assert forall|i: int, j: int| 0 <= i < j < after.projects.len() implies (
    #[trigger] after.projects[i]).code != (#[trigger] after.projects[j]).code by {
        assert(state.projects[i].id < state.projects[j].id);
        assert(state.projects[i].code != state.projects[j].code);
    }
    assert forall|i: int, j: int| 0 <= i < j < after.projects.len() implies (
    #[trigger] after.projects[i]).id < (#[trigger] after.projects[j]).id by {
        assert(state.projects[i].id < state.projects[j].id);
    }
}

/// Ledgers with the same projects hold a project under the same
/// identifiers.
pub proof fn lemma_same_projects(a: LedgerState, b: LedgerState)
    requires
        a.projects == b.projects,
    ensures
        forall|id: i64| a.has_project(id) == b.has_project(id),
        forall|id: i64| a.place_of(id) == b.place_of(id),
{
    assert forall|id: i64| a.has_project(id) == b.has_project(id) by {
        if a.has_project(id) {
            assert(b.projects[a.place_of(id)].id == id);
        }
        if b.has_project(id) {
            assert(a.projects[b.place_of(id)].id == id);
        }
    }
}

/// A ledger in order stays in order when hours are logged for a project of
/// it on a day that exists.
pub proof fn lemma_set_day_hours(state: LedgerState, id: i64, date: CalendarDate, hours: i64)
    requires
        state.wf(),
        state.has_project(id),
        date.is_valid(),
    ensures
        state.set_day_hours(id, date, hours).wf(),
{
    let after = state.set_day_hours(id, date, hours);
    lemma_same_projects(state, after);
    assert forall|key: (i64, CalendarDate)| #[trigger]
        after.entries.contains_key(key) implies after.has_project(key.0) && key.1.is_valid() by {
        if key != (id, date) {
            assert(state.entries.contains_key(key));
        }
    }
}

/// A ledger in order stays in order when hours are allotted to a project
/// of it for a month.
pub proof fn lemma_set_month_allotment(
    state: LedgerState,
    id: i64,
    first: CalendarDate,
    allotted: i64,
)
    requires
        state.wf(),
        state.has_project(id),
        first.is_month_start(),
    ensures
        state.set_month_allotment(id, first, allotted).wf(),
{
    let after = state.set_month_allotment(id, first, allotted);
    lemma_same_projects(state, after);
    assert forall|key: (i64, CalendarDate)| #[trigger]
        after.overrides.contains_key(key) implies after.has_project(key.0)
        && key.1.is_month_start() by {
        if key != (id, first) {
            assert(state.overrides.contains_key(key));
        }
    }
}

/// A ledger in order stays in order when a project leaves it: the project
/// is gone, with everything that was held for it, and the others stay.
pub proof fn lemma_delete_project(state: LedgerState, id: i64)
    requires
        state.wf(),
        state.has_project(id),
    ensures
        state.delete_project(id).wf(),
        !state.delete_project(id).has_project(id),
        forall|other: i64|
            other != id ==> state.has_project(other) == state.delete_project(id).has_project(other),
{
    let after = state.delete_project(id);
    let at = state.place_of(id);
    assert forall|i: int| 0 <= i < after.projects.len() implies #[trigger] after.projects[i] == (
    if i < at {
        state.projects[i]
    } else {
        state.projects[i + 1]
    }) by {}
    assert forall|i: int, j: int| 0 <= i < j < after.projects.len() implies (
    #[trigger] after.projects[i]).id < (#[trigger] after.projects[j]).id && after.projects[i].code
        != after.projects[j].code by {
        let a = if i < at {
            i
        } else {
            i + 1
        };
        let b = if j < at {
            j
        } else {
            j + 1
        };
        assert(state.projects[a].id < state.projects[b].id);
        assert(state.projects[a].code != state.projects[b].code);
    }
    assert(!after.has_project(id)) by {
        if after.has_project(id) {
            let i = after.place_of(id);
            let a = if i < at {
                i
            } else {
                i + 1
            };
            lemma_place_of(state, a);
        }
    }
    assert forall|other: i64| other != id implies state.has_project(other) == after.has_project(
        other,
    ) by {
        if state.has_project(other) {
            let i = state.place_of(other);
            let a = if i < at {
                i
            } else {
                i - 1
            };
            assert(after.projects[a].id == other);
        }
        if after.has_project(other) {
            let i = after.place_of(other);
            let a = if i < at {
                i
            } else {
                i + 1
            };
            assert(state.projects[a].id == other);
        }
    }
    assert forall|i: int| 0 <= i < after.projects.len() implies (#[trigger] after.projects[i]).id
        < after.next_id by {
        let a = if i < at {
            i
        } else {
            i + 1
        };
        assert(state.projects[a].id < state.next_id);
    }
}

} // verus!
