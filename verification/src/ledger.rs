//! The ledger: projects with the hours allotted to them, allotments set
//! for single months, and the hours logged day by day; the requests that
//! change it; and the monthly report drawn from it.

use crate::calendar::CalendarDate;
use crate::codes::{code_before, normalized_code, text_precedes, trimmed};
use crate::dates::{
    date_named, lemma_text_names, month_named, month_text, month_to_text, parse_month,
};
use crate::dto::{
    record_of, records_of, ProjectAllotmentDto, ProjectDto, WeekSliceDto, SECONDS_PER_HOUR,
};
use crate::error::LedgerError;
use crate::model::{
    by_code, is_allotment_list, lemma_delete_project, lemma_place_of, lemma_restore_project,
    lemma_same_projects, lemma_set_day_hours, lemma_set_month_allotment, lemma_update_project,
    place_by_code, LedgerState,
};
use crate::report::{is_report, weekly_report};
use crate::table::{is_listing, key_of, AmountTable};
use crate::weeks::month_fits;
use vstd::prelude::*;
use vstd::string::*;

verus! {

/// A ledger.
pub struct Ledger {
    projects: Vec<ProjectDto>,
    allotments: AmountTable,
    entries: AmountTable,
    next_id: i64,
}

impl View for Ledger {
    type V = LedgerState;

    closed spec fn view(&self) -> LedgerState {
        LedgerState {
            projects: records_of(self.projects@),
            overrides: self.allotments@,
            entries: self.entries@,
            next_id: self.next_id,
        }
    }
}

/// Puts the project where its code belongs among projects that stand in
/// the order of their codes.
fn insert_by_code(listed: &mut Vec<ProjectDto>, project: ProjectDto)
    ensures
        records_of(final(listed)@) == records_of(old(listed)@).insert(
            place_by_code(records_of(old(listed)@), project.code@, 0),
            record_of(project),
        ),
{
    let ghost before = records_of(listed@);
    let mut at: usize = 0;
    let mut found = false;
    while at < listed.len() && !found
        invariant
            listed@ == old(listed)@,
            before == records_of(listed@),
            at <= listed@.len(),
            found ==> at < listed@.len() && text_precedes(project.code@, before[at as int].code),
            place_by_code(before, project.code@, 0) == place_by_code(
                before,
                project.code@,
                at as int,
            ),
        decreases listed@.len() - at + (if found {
            0int
        } else {
            1
        }),
    {
        if code_before(project.code.as_str(), listed[at].code.as_str()) {
            found = true;
        } else {
            at += 1;
        }
    }
    let ghost record = record_of(project);
    listed.insert(at, project);
    assert(records_of(listed@) =~= before.insert(at as int, record));
}

impl Ledger {
    /// The ledger is in order.
    pub closed spec fn wf(&self) -> bool {
        &&& self.allotments.wf()
        &&& self.entries.wf()
        &&& self@.wf()
    }

    /// What a ledger in order holds is in order.
    pub proof fn lemma_wf(&self)
        requires
            self.wf(),
        ensures
            self@.wf(),
    {
    }

    /// A ledger that holds nothing.
    pub fn new() -> (r: Ledger)
        ensures
            r.wf(),
            r@ == LedgerState::empty(),
    {
        let r = Ledger {
            projects: Vec::new(),
            allotments: AmountTable::new(),
            entries: AmountTable::new(),
            next_id: 1,
        };
        assert(r@.projects =~= Seq::empty());
        r
    }

    fn find_project(&self, id: i64) -> (r: Option<usize>)
        requires
            self.wf(),
        ensures
            match r {
                Some(i) => i < self.projects@.len() && self.projects@[i as int].id == id
                    && self@.has_project(id) && self@.place_of(id) == i,
                None => !self@.has_project(id),
            },
    {
        let mut i: usize = 0;
        while i < self.projects.len()
            invariant
                self.wf(),
                i <= self.projects@.len(),
                forall|k: int| 0 <= k < i ==> (#[trigger] self@.projects[k]).id != id,
            decreases self.projects@.len() - i,
        {
            if self.projects[i].id == id {
                proof {
                    assert(self@.projects[i as int].id == id);
                    lemma_place_of(self@, i as int);
                }
                return Some(i);
            }
            i += 1;
        }
        None
    }

    fn find_code(&self, code: &String) -> (r: Option<usize>)
        ensures
            match r {
                Some(i) => i < self.projects@.len() && self.projects@[i as int].code@ == code@
                    && self@.code_in_use(code@),
                None => !self@.code_in_use(code@),
            },
    {
        let mut i: usize = 0;
        while i < self.projects.len()
            invariant
                i <= self.projects@.len(),
                forall|k: int| 0 <= k < i ==> (#[trigger] self@.projects[k]).code != code@,
            decreases self.projects@.len() - i,
        {
            if self.projects[i].code == *code {
                assert(self@.projects[i as int].code == code@);
                return Some(i);
            }
            i += 1;
        }
        None
    }

    fn push_project(&mut self, id: i64, code: String, allotted: i64)
        requires
            old(self).wf(),
            old(self)@.next_id <= id < i64::MAX,
            !old(self)@.code_in_use(code@),
        ensures
            final(self).wf(),
            final(self)@ == old(self)@.restore_project(id, code@, allotted),
    {
        proof {
            lemma_restore_project(self@, id, code@, allotted);
        }
        let ghost code_text = code@;
        self.projects.push(ProjectDto { id, code, allotted });
        self.next_id = id + 1;
        assert(self@.projects =~= old(self)@.restore_project(id, code_text, allotted).projects);
    }

    /// Takes in a new project with the code, without the white space
    /// around it, and the hours allotted to it for any month, and returns
    /// the identifier the project was given. Refused where a project
    /// bears the code already, and where no identifier is left to give.
    pub fn add_project(&mut self, code: &str, allotted: i64) -> (r: Result<i64, LedgerError>)
        requires
            old(self).wf(),
        ensures
            final(self).wf(),
            r == old(self)@.add_project_result(trimmed(code@)),
            final(self)@ == (if r is Ok {
                old(self)@.add_project(trimmed(code@), allotted)
            } else {
                old(self)@
            }),
    {
        let code = normalized_code(code);
        if self.find_code(&code).is_some() {
            return Err(LedgerError::Conflict);
        }
        if self.next_id == i64::MAX {
            return Err(LedgerError::StoreUnavailable);
        }
        let id = self.next_id;
        self.push_project(id, code, allotted);
        Ok(id)
    }

    /// Takes in a project under an identifier of its own, as a ledger
    /// does that is read back from where it was kept. The identifier must
    /// not lie below the next one that the ledger would give.
    pub fn restore_project(&mut self, id: i64, code: &str, allotted: i64) -> (r: Result<
        (),
        LedgerError,
    >)
        requires
            old(self).wf(),
        ensures
            final(self).wf(),
            r == old(self)@.restore_project_result(id, trimmed(code@)),
            final(self)@ == (if r is Ok {
                old(self)@.restore_project(id, trimmed(code@), allotted)
            } else {
                old(self)@
            }),
    {
        let code = normalized_code(code);
        if id < self.next_id || self.find_code(&code).is_some() {
            return Err(LedgerError::Conflict);
        }
        if id == i64::MAX {
            return Err(LedgerError::StoreUnavailable);
        }
        self.push_project(id, code, allotted);
        Ok(())
    }

    /// Puts every identifier up to `last` out of use, as a ledger does
    /// that is read back from where it was kept and once held projects
    /// that have left it since.
    pub fn retire_identifiers(&mut self, last: i64)
        requires
            old(self).wf(),
        ensures
            final(self).wf(),
            final(self)@ == old(self)@.retire_identifiers(last),
    {
        proof {
            lemma_same_projects(self@, self@.retire_identifiers(last));
        }
        if last >= self.next_id {
            self.next_id = if last == i64::MAX {
                last
            } else {
                last + 1
            };
        }
    }

    /// Gives the project another code: the text given, without the white
    /// space around it. Refused where the ledger holds no such project,
    /// and where another project bears the code.
    pub fn update_project(&mut self, id: i64, code: &str) -> (r: Result<(), LedgerError>)
        requires
            old(self).wf(),
        ensures
            final(self).wf(),
            r == old(self)@.update_project_result(id, trimmed(code@)),
            final(self)@ == (if r is Ok {
                old(self)@.update_project(id, trimmed(code@))
            } else {
                old(self)@
            }),
    {
        let code = normalized_code(code);
        let at = match self.find_project(id) {
            Some(at) => at,
            None => { return Err(LedgerError::NotFound); },
        };
        match self.find_code(&code) {
            Some(other) => {
                if self.projects[other].id != id {
                    assert(self@.projects[other as int].code == code@);
                    return Err(LedgerError::Conflict);
                }
                proof {
                    assert forall|i: int|
                        0 <= i < self@.projects.len() && (#[trigger] self@.projects[i]).code
                            == code@ implies self@.projects[i].id == id by {
                        assert(self@.projects[other as int].code == code@);
                        if i < other {
                            assert(self@.projects[i].code != self@.projects[other as int].code);
                        }
                        if other < i {
                            assert(self@.projects[other as int].code != self@.projects[i].code);
                        }
                    }
                }
            },
            None => {},
        }
        proof {
            lemma_update_project(self@, id, code@);
        }
        let allotted = self.projects[at].allotted;
        let ghost code_text = code@;
        self.projects.set(at, ProjectDto { id, code, allotted });
        assert(self@.projects =~= old(self)@.update_project(id, code_text).projects);
        Ok(())
    }

    /// Drops the project, and with it the allotments set for it and the
    /// hours logged for it. Refused where the ledger holds no such
    /// project.
    pub fn delete_project(&mut self, id: i64) -> (r: Result<(), LedgerError>)
        requires
            old(self).wf(),
        ensures
            final(self).wf(),
            r == old(self)@.project_result(id),
            final(self)@ == (if r is Ok {
                old(self)@.delete_project(id)
            } else {
                old(self)@
            }),
    {
        let at = match self.find_project(id) {
            Some(at) => at,
            None => { return Err(LedgerError::NotFound); },
        };
        proof {
            lemma_delete_project(self@, id);
        }
        self.projects.remove(at);
        self.allotments.remove_project(id);
        self.entries.remove_project(id);
        assert(self@.projects =~= old(self)@.delete_project(id).projects);
        Ok(())
    }

    /// Logs hours for the project on the day that the text names, in
    /// place of what was logged for the project on that day before.
    /// Refused where the text names no day, and where the ledger holds no
    /// such project.
    pub fn set_day_hours(&mut self, project_code_id: i64, date: &str, hours: i64) -> (r: Result<
        (),
        LedgerError,
    >)
        requires
            old(self).wf(),
        ensures
            final(self).wf(),
            r == old(self)@.dated_result(project_code_id, date_named(date@)),
            final(self)@ == (if r is Ok {
                old(self)@.set_day_hours(project_code_id, date_named(date@)->0, hours)
            } else {
                old(self)@
            }),
    {
        let day = match CalendarDate::parse(date) {
            Some(day) => day,
            None => { return Err(LedgerError::InvalidInput); },
        };
        if self.find_project(project_code_id).is_none() {
            return Err(LedgerError::NotFound);
        }
        proof {
            lemma_set_day_hours(self@, project_code_id, day, hours);
        }
        self.entries.set(project_code_id, day, hours);
        Ok(())
    }

    /// Allots hours to the project for the month that the text names, in
    /// place of what was allotted to it for that month before. Refused
    /// where the text names no month, and where the ledger holds no such
    /// project.
    pub fn set_project_month_allotment(
        &mut self,
        project_code_id: i64,
        month: &str,
        allotted: i64,
    ) -> (r: Result<(), LedgerError>)
        requires
            old(self).wf(),
        ensures
            final(self).wf(),
            r == old(self)@.dated_result(project_code_id, month_named(month@)),
            final(self)@ == (if r is Ok {
                old(self)@.set_month_allotment(project_code_id, month_named(month@)->0, allotted)
            } else {
                old(self)@
            }),
    {
        let first = match parse_month(month) {
            Some(first) => first,
            None => { return Err(LedgerError::InvalidInput); },
        };
        if self.find_project(project_code_id).is_none() {
            return Err(LedgerError::NotFound);
        }
        proof {
            lemma_set_month_allotment(self@, project_code_id, first, allotted);
        }
        self.allotments.set(project_code_id, first, allotted);
        Ok(())
    }

    /// The projects, in the order of their identifiers.
    pub fn list_projects(&self) -> (r: Vec<ProjectDto>)
        requires
            self.wf(),
        ensures
            records_of(r@) == self@.projects,
    {
        let mut listed: Vec<ProjectDto> = Vec::new();
        let mut i: usize = 0;
        while i < self.projects.len()
            invariant
                i <= self.projects@.len(),
                listed@.len() == i,
                forall|k: int| 0 <= k < i ==> record_of(#[trigger] listed@[k]) == self@.projects[k],
            decreases self.projects@.len() - i,
        {
            let project = &self.projects[i];
            listed.push(
                ProjectDto { id: project.id, code: project.code.clone(), allotted: project.allotted },
            );
            i += 1;
        }
        assert(records_of(listed@) =~= self@.projects);
        listed
    }

    /// The months for which hours were allotted to the project, each with
    /// its hours, the latest month first. Refused where the ledger holds
    /// no such project.
    pub fn list_project_allotments(&self, project_code_id: i64) -> (r: Result<
        Vec<ProjectAllotmentDto>,
        LedgerError,
    >)
        requires
            self.wf(),
        ensures
            match r {
                Ok(list) => self@.has_project(project_code_id) && is_allotment_list(
                    list@,
                    self@.overrides,
                    project_code_id,
                ),
                Err(e) => e == LedgerError::NotFound && !self@.has_project(project_code_id),
            },
    {
        if self.find_project(project_code_id).is_none() {
            return Err(LedgerError::NotFound);
        }
        let rows = self.allotments.of_project(project_code_id);
        let mut list: Vec<ProjectAllotmentDto> = Vec::new();
        let mut i: usize = 0;
        while i < rows.len()
            invariant
                self.wf(),
                is_listing(rows@, self@.overrides, project_code_id),
                i <= rows@.len(),
                list@.len() == i,
                forall|k: int|
                    0 <= k < i ==> (#[trigger] list@[k]).month@ == month_text(rows@[k].date)
                        && list@[k].allotted == rows@[k].amount,
            decreases rows@.len() - i,
        {
            let row = rows[i];
            proof {
                assert(self@.overrides.contains_key(key_of(rows@[i as int])));
            }
            list.push(ProjectAllotmentDto { month: month_to_text(&row.date), allotted: row.amount });
            i += 1;
        }
        proof {
            assert forall|k: int| 0 <= k < rows@.len() implies month_named(
                month_text((#[trigger] rows@[k]).date),
            ) == Some(rows@[k].date) by {
                assert(self@.overrides.contains_key(key_of(rows@[k])));
                lemma_text_names(rows@[k].date);
            }
            assert forall|first: CalendarDate| #[trigger]
                self@.overrides.contains_key((project_code_id, first)) implies exists|k: int|
                0 <= k < list@.len() && (#[trigger] list@[k]).month@ == month_text(first) by {
                let k = choose|k: int| 0 <= k < rows@.len() && (#[trigger] rows@[k]).date == first;
                assert(list@[k].month@ == month_text(first));
            }
        }
        Ok(list)
    }

    /// The hours allotted to the project for the month that the text
    /// names: what was set for that month, and else what the project is
    /// allotted for any month. Refused where the text names no month, and
    /// where the ledger holds no such project.
    pub fn month_allotment(&self, project_code_id: i64, month: &str) -> (r: Result<
        i64,
        LedgerError,
    >)
        requires
            self.wf(),
        ensures
            r == (match self@.dated_result(project_code_id, month_named(month@)) {
                Ok(_) => Ok(self@.month_allotment(project_code_id, month_named(month@)->0)),
                Err(e) => Err(e),
            }),
    {
        let first = match parse_month(month) {
            Some(first) => first,
            None => { return Err(LedgerError::InvalidInput); },
        };
        let at = match self.find_project(project_code_id) {
            Some(at) => at,
            None => { return Err(LedgerError::NotFound); },
        };
        match self.allotments.get(project_code_id, first) {
            Some(allotted) => Ok(allotted),
            None => Ok(self.projects[at].allotted),
        }
    }

    /// The projects in the order of their codes, each with the hours
    /// allotted to it for the month that `first` begins.
    pub fn month_projects(&self, first: CalendarDate) -> (r: Vec<ProjectDto>)
        requires
            self.wf(),
        ensures
            records_of(r@) == self@.month_projects(first),
    {
        let ghost resolved = self@.resolved_projects(first);
        let mut listed: Vec<ProjectDto> = Vec::new();
        let mut i: usize = 0;
        assert(records_of(listed@) =~= by_code(resolved.subrange(0, 0)));
        while i < self.projects.len()
            invariant
                self.wf(),
                resolved == self@.resolved_projects(first),
                i <= self.projects@.len(),
                records_of(listed@) == by_code(resolved.subrange(0, i as int)),
            decreases self.projects@.len() - i,
        {
            let project = &self.projects[i];
            proof {
                assert(self@.projects[i as int].id == project.id);
                lemma_place_of(self@, i as int);
            }
            let allotted = match self.allotments.get(project.id, first) {
                Some(allotted) => allotted,
                None => project.allotted,
            };
            let resolved_project = ProjectDto {
                id: project.id,
                code: project.code.clone(),
                allotted,
            };
            proof {
                let upto = resolved.subrange(0, i + 1);
                assert(upto.drop_last() =~= resolved.subrange(0, i as int));
                assert(upto.last() == record_of(resolved_project));
            }
            insert_by_code(&mut listed, resolved_project);
            i += 1;
        }
        assert(resolved.subrange(0, i as int) =~= resolved);
        listed
    }

    /// The report of the month that the text names: for each week of the
    /// month's view and each project, in the order of the projects'
    /// codes, the hours logged on the week's days that lie in the
    /// month, and the balance carried from week to week. Refused where
    /// the text names no month, and where the month's view does not lie
    /// within the calendar's limits.
    pub fn get_weeks(&self, month: &str) -> (r: Result<Vec<WeekSliceDto>, LedgerError>)
        requires
            self.wf(),
        ensures
            match r {
                Ok(weeks) => month_named(month@) matches Some(first) && month_fits(first)
                    && is_report(weeks@, self@.month_projects(first), self@.entries, first),
                Err(e) => e == LedgerError::InvalidInput && !(month_named(month@) matches Some(
                    first,
                ) && month_fits(first)),
            },
    {
        let first = match parse_month(month) {
            Some(first) => first,
            None => { return Err(LedgerError::InvalidInput); },
        };
        let projects = self.month_projects(first);
        match weekly_report(first, &projects, &self.entries) {
            Some(weeks) => Ok(weeks),
            None => Err(LedgerError::InvalidInput),
        }
    }

    /// Where the ledger holds no project, takes in two to begin with:
    /// `PRJ-1001` with 40 hours and `PRJ-2002` with 20.
    pub fn ensure_sample_projects(&mut self)
        requires
            old(self).wf(),
        ensures
            final(self).wf(),
            final(self)@ == (if old(self)@.projects.len() == 0 && old(self)@.next_id < i64::MAX
                - 1 {
                old(self)@.add_project("PRJ-1001"@, (40 * SECONDS_PER_HOUR) as i64).add_project(
                    "PRJ-2002"@,
                    (20 * SECONDS_PER_HOUR) as i64,
                )
            } else {
                old(self)@
            }),
    {
        if self.projects.len() == 0 && self.next_id < i64::MAX - 1 {
            proof {
                reveal_strlit("PRJ-1001");
                reveal_strlit("PRJ-2002");
                assert(!self@.code_in_use("PRJ-1001"@));
                assert(!self@.code_in_use("PRJ-2002"@));
            }
            let first = self.next_id;
            self.push_project(first, String::from_str("PRJ-1001"), 40 * SECONDS_PER_HOUR);
            proof {
                let held = self@;
                assert(held.projects.len() == 1);
                assert forall|i: int| 0 <= i < held.projects.len() implies (
                #[trigger] held.projects[i]).code != "PRJ-2002"@ by {
                    assert(held.projects[i].code == "PRJ-1001"@);
                    assert("PRJ-1001"@[4] == '1');
                    assert("PRJ-2002"@[4] == '2');
                }
            }
            self.push_project(first + 1, String::from_str("PRJ-2002"), 20 * SECONDS_PER_HOUR);
        }
    }
}

} // verus!
