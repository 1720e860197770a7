//! The values that the ledger hands out: projects, a project's allotments
//! by month, and the weeks and rows of a monthly report. Hours are counted
//! in whole seconds throughout.

use vstd::prelude::*;

verus! {

/// The number of seconds in an hour.
pub const SECONDS_PER_HOUR: i64 = 3600;

/// A project: its identifier, its code, and the hours allotted to it.
#[derive(Debug, PartialEq, Eq)]
pub struct ProjectDto {
    pub id: i64,
    pub code: String,
    pub allotted: i64,
}

/// The hours allotted to a project for one month.
#[derive(Debug, PartialEq, Eq)]
pub struct ProjectAllotmentDto {
    pub month: String,
    pub allotted: i64,
}

/// The hours logged for a project on one day.
#[derive(Debug, PartialEq, Eq)]
pub struct DayHoursDto {
    pub date: String,
    pub hours: i64,
}

/// One project's account of one week. `allotted` is the balance that the
/// project starts the week with, not its allotment for the month. `days`
/// holds the week's days that lie in the month, in the order of the days.
#[derive(Debug, PartialEq, Eq)]
pub struct WeekRowDto {
    pub project_code_id: i64,
    pub project_code: String,
    pub allotted: i128,
    pub days: Vec<DayHoursDto>,
    pub total: i128,
    pub remaining: i128,
}

/// One week of a report: its place in the month's view, counted from 1,
/// its Sunday, its Saturday, and a row for each project.
#[derive(Debug, PartialEq, Eq)]
pub struct WeekSliceDto {
    pub week_index: i32,
    pub start_date: String,
    pub end_date: String,
    pub rows: Vec<WeekRowDto>,
}

/// A project as the contracts speak of it: its code is a sequence of
/// characters.
pub struct ProjectRecord {
    pub id: i64,
    pub code: Seq<char>,
    pub allotted: i64,
}

/// The record of a project.
pub open spec fn record_of(project: ProjectDto) -> ProjectRecord {
    ProjectRecord { id: project.id, code: project.code@, allotted: project.allotted }
}

/// The records of a sequence of projects.
pub open spec fn records_of(projects: Seq<ProjectDto>) -> Seq<ProjectRecord> {
    Seq::new(projects.len(), |i: int| record_of(projects[i]))
}

} // verus!
