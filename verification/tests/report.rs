use timekeeper::calendar::CalendarDate;
use timekeeper::dto::{DayHoursDto, ProjectDto};
use timekeeper::report::{week_row, week_rows, weekly_report};
use timekeeper::table::{Amount, AmountTable};
use timekeeper::weeks::WeekWindow;

fn date(year: i32, month: u32, day: u32) -> CalendarDate {
    CalendarDate { year, month, day }
}

fn project(id: i64, code: &str, allotted: i64) -> ProjectDto {
    ProjectDto { id, code: code.to_string(), allotted }
}

#[test]
fn a_row_counts_only_the_days_in_the_month() {
    let mut entries = AmountTable::new();
    entries.set(1, date(2024, 2, 28), 100);
    entries.set(1, date(2024, 3, 1), 8);
    entries.set(1, date(2024, 3, 2), 2);
    entries.set(2, date(2024, 3, 1), 1000);
    let window = WeekWindow { index: 1, start: date(2024, 2, 25), end: date(2024, 3, 2) };
    let (row, consumed) = week_row(&window, date(2024, 3, 1), &project(1, "A", 40), &entries, 0);
    assert_eq!(row.project_code_id, 1);
    assert_eq!(row.project_code, "A");
    assert_eq!(row.allotted, 40);
    assert_eq!(row.total, 10);
    assert_eq!(row.remaining, 30);
    assert_eq!(consumed, 10);
    assert_eq!(
        row.days,
        vec![
            DayHoursDto { date: "2024-03-01".to_string(), hours: 8 },
            DayHoursDto { date: "2024-03-02".to_string(), hours: 2 },
        ]
    );
}

#[test]
fn rows_follow_the_projects_and_update_what_was_consumed() {
    let mut entries = AmountTable::new();
    entries.set(1, date(2024, 3, 4), 5);
    entries.set(2, date(2024, 3, 9), 7);
    let window = WeekWindow { index: 2, start: date(2024, 3, 3), end: date(2024, 3, 9) };
    let projects = vec![project(2, "B", 20), project(1, "A", 40)];
    let mut consumed: Vec<i128> = vec![3, 8];
    let rows = week_rows(&window, date(2024, 3, 1), &projects, &entries, &mut consumed);
    assert_eq!(rows.len(), 2);
    assert_eq!((rows[0].project_code_id, rows[0].allotted, rows[0].total, rows[0].remaining), (2, 17, 7, 10));
    assert_eq!((rows[1].project_code_id, rows[1].allotted, rows[1].total, rows[1].remaining), (1, 32, 5, 27));
    assert_eq!(consumed, vec![10, 13]);
    assert_eq!(rows[0].days.len(), 7);
}

#[test]
fn a_report_has_a_slice_for_each_week() {
    let mut entries = AmountTable::new();
    entries.set(1, date(2024, 3, 1), 8);
    entries.set(1, date(2024, 3, 4), 8);
    let weeks = weekly_report(date(2024, 3, 1), &vec![project(1, "PRJ-1001", 40)], &entries).unwrap();
    assert_eq!(weeks.len(), 6);
    let seen: Vec<(i32, i128, i128, i128)> = weeks
        .iter()
        .map(|w| (w.week_index, w.rows[0].allotted, w.rows[0].total, w.rows[0].remaining))
        .collect();
    assert_eq!(
        seen,
        vec![(1, 40, 8, 32), (2, 32, 8, 24), (3, 24, 0, 24), (4, 24, 0, 24), (5, 24, 0, 24), (6, 24, 0, 24)]
    );
    assert!(weekly_report(date(262142, 12, 1), &vec![], &entries).is_none());
}

#[test]
fn a_table_holds_one_amount_for_a_project_and_a_date() {
    let mut table = AmountTable::new();
    assert_eq!(table.get(1, date(2024, 3, 1)), None);
    table.set(1, date(2024, 3, 1), 8);
    table.set(1, date(2024, 3, 2), 9);
    table.set(2, date(2024, 3, 1), 10);
    table.set(1, date(2024, 3, 1), -4);
    assert_eq!(table.get(1, date(2024, 3, 1)), Some(-4));
    assert_eq!(table.get(1, date(2024, 3, 2)), Some(9));
    assert_eq!(table.get(2, date(2024, 3, 1)), Some(10));
    assert_eq!(table.get(2, date(2024, 3, 2)), None);
    assert_eq!(
        table.of_project(1),
        vec![
            Amount { project_id: 1, date: date(2024, 3, 2), amount: 9 },
            Amount { project_id: 1, date: date(2024, 3, 1), amount: -4 },
        ]
    );
    table.remove_project(1);
    assert_eq!(table.get(1, date(2024, 3, 1)), None);
    assert_eq!(table.get(1, date(2024, 3, 2)), None);
    assert_eq!(table.get(2, date(2024, 3, 1)), Some(10));
    assert!(table.of_project(1).is_empty());
}
