use timekeeper::calendar::CalendarDate;
use timekeeper::dto::{
    DayHoursDto, ProjectAllotmentDto, ProjectDto, WeekRowDto, SECONDS_PER_HOUR,
};
use timekeeper::error::LedgerError;
use timekeeper::ledger::Ledger;

const H: i64 = SECONDS_PER_HOUR;

fn cell(date: &str, hours: i64) -> DayHoursDto {
    DayHoursDto { date: date.to_string(), hours }
}

fn row_of(rows: &[WeekRowDto], id: i64) -> &WeekRowDto {
    let found: Vec<&WeekRowDto> = rows.iter().filter(|r| r.project_code_id == id).collect();
    assert_eq!(found.len(), 1);
    found[0]
}

#[test]
fn march_2024_example() {
    let mut ledger = Ledger::new();
    let id = ledger.add_project("PRJ-1001", 40 * H).unwrap();
    ledger.set_day_hours(id, "2024-03-01", 8 * H).unwrap();
    ledger.set_day_hours(id, "2024-03-04", 8 * H).unwrap();
    let weeks = ledger.get_weeks("2024-03").unwrap();
    assert_eq!(weeks.len(), 6);

    assert_eq!(weeks[0].week_index, 1);
    assert_eq!(weeks[0].start_date, "2024-02-25");
    assert_eq!(weeks[0].end_date, "2024-03-02");
    let row = &weeks[0].rows[0];
    assert_eq!(row.project_code_id, id);
    assert_eq!(row.project_code, "PRJ-1001");
    assert_eq!(row.allotted, (40 * H) as i128);
    assert_eq!(row.total, (8 * H) as i128);
    assert_eq!(row.remaining, (32 * H) as i128);
    assert_eq!(row.days, vec![cell("2024-03-01", 8 * H), cell("2024-03-02", 0)]);

    assert_eq!(weeks[1].week_index, 2);
    assert_eq!(weeks[1].start_date, "2024-03-03");
    assert_eq!(weeks[1].end_date, "2024-03-09");
    let row = &weeks[1].rows[0];
    assert_eq!(row.allotted, (32 * H) as i128);
    assert_eq!(row.total, (8 * H) as i128);
    assert_eq!(row.remaining, (24 * H) as i128);
    assert_eq!(
        row.days,
        vec![
            cell("2024-03-03", 0),
            cell("2024-03-04", 8 * H),
            cell("2024-03-05", 0),
            cell("2024-03-06", 0),
            cell("2024-03-07", 0),
            cell("2024-03-08", 0),
            cell("2024-03-09", 0),
        ]
    );

    for week in &weeks[2..] {
        assert_eq!(week.rows[0].allotted, (24 * H) as i128);
        assert_eq!(week.rows[0].total, 0);
        assert_eq!(week.rows[0].remaining, (24 * H) as i128);
    }
    assert_eq!(weeks[5].start_date, "2024-03-31");
    assert_eq!(weeks[5].end_date, "2024-04-06");
    assert_eq!(weeks[5].rows[0].days, vec![cell("2024-03-31", 0)]);
}

#[test]
fn hours_in_a_neighbouring_month_are_not_counted() {
    let mut ledger = Ledger::new();
    let id = ledger.add_project("PRJ-1001", 40 * H).unwrap();
    ledger.set_day_hours(id, "2024-02-29", 5 * H).unwrap();
    ledger.set_day_hours(id, "2024-03-01", 8 * H).unwrap();
    ledger.set_day_hours(id, "2024-04-01", 3 * H).unwrap();
    let weeks = ledger.get_weeks("2024-03").unwrap();
    assert_eq!(weeks[0].rows[0].total, (8 * H) as i128);
    assert_eq!(weeks[0].rows[0].days, vec![cell("2024-03-01", 8 * H), cell("2024-03-02", 0)]);
    assert_eq!(weeks[5].rows[0].total, 0);
    assert_eq!(weeks[5].rows[0].remaining, (32 * H) as i128);
    let february = ledger.get_weeks("2024-02").unwrap();
    let last = &february[february.len() - 1];
    assert_eq!(last.start_date, "2024-02-25");
    assert_eq!(last.rows[0].total, (5 * H) as i128);
    assert_eq!(last.rows[0].days.len(), 5);
    assert_eq!(last.rows[0].days[4], cell("2024-02-29", 5 * H));
}

#[test]
fn balance_is_carried_from_week_to_week() {
    let mut ledger = Ledger::new();
    let a = ledger.add_project("A", 10 * H).unwrap();
    let b = ledger.add_project("B", 100 * H).unwrap();
    ledger.set_day_hours(a, "2024-06-01", 4 * H).unwrap();
    ledger.set_day_hours(a, "2024-06-05", 9 * H).unwrap();
    ledger.set_day_hours(a, "2024-06-30", -2 * H).unwrap();
    ledger.set_day_hours(b, "2024-06-17", 7 * H + 1).unwrap();
    let weeks = ledger.get_weeks("2024-06").unwrap();
    for id in [a, b] {
        for k in 0..weeks.len() {
            let row = row_of(&weeks[k].rows, id);
            assert_eq!(row.remaining, row.allotted - row.total);
            assert_eq!(row.total, row.days.iter().map(|d| d.hours as i128).sum::<i128>());
            if k + 1 < weeks.len() {
                assert_eq!(row_of(&weeks[k + 1].rows, id).allotted, row.remaining);
            }
        }
    }
    assert_eq!(row_of(&weeks[0].rows, a).allotted, (10 * H) as i128);
    assert_eq!(row_of(&weeks[0].rows, a).remaining, (6 * H) as i128);
    assert_eq!(row_of(&weeks[1].rows, a).remaining, (-3 * H) as i128);
    assert_eq!(row_of(&weeks[2].rows, a).allotted, (-3 * H) as i128);
    let last = weeks.len() - 1;
    assert_eq!(row_of(&weeks[last].rows, a).remaining, (-H) as i128);
    assert_eq!(row_of(&weeks[last].rows, b).remaining, (93 * H - 1) as i128);
}

#[test]
fn a_day_set_is_reported_once_on_its_date() {
    let mut ledger = Ledger::new();
    let id = ledger.add_project("PRJ-1001", 40 * H).unwrap();
    let other = ledger.add_project("PRJ-2002", 20 * H).unwrap();
    ledger.set_day_hours(id, "2024-03-14", 5400).unwrap();
    let weeks = ledger.get_weeks("2024-03").unwrap();
    let mut seen = 0;
    for week in &weeks {
        for day in &row_of(&week.rows, id).days {
            if day.date == "2024-03-14" {
                assert_eq!(day.hours, 5400);
                assert_eq!(week.week_index, 3);
                seen += 1;
            } else {
                assert_eq!(day.hours, 0);
            }
        }
        for day in &row_of(&week.rows, other).days {
            assert_eq!(day.hours, 0);
        }
    }
    assert_eq!(seen, 1);
}

#[test]
fn setting_a_day_twice_overwrites() {
    let mut ledger = Ledger::new();
    let id = ledger.add_project("PRJ-1001", 40 * H).unwrap();
    ledger.set_day_hours(id, "2024-03-04", 8 * H).unwrap();
    ledger.set_day_hours(id, "2024-03-04", 3 * H).unwrap();
    let weeks = ledger.get_weeks("2024-03").unwrap();
    assert_eq!(weeks[1].rows[0].total, (3 * H) as i128);
    assert_eq!(weeks[1].rows[0].remaining, (37 * H) as i128);
    assert_eq!(weeks[1].rows[0].days[1], cell("2024-03-04", 3 * H));
    assert_eq!(weeks[1].rows[0].days.len(), 7);
}

#[test]
fn a_month_without_an_allotment_of_its_own_uses_the_projects() {
    let mut ledger = Ledger::new();
    let id = ledger.add_project("PRJ-1001", 40 * H).unwrap();
    ledger.set_project_month_allotment(id, "2024-04", 12 * H).unwrap();
    assert_eq!(ledger.month_allotment(id, "2024-03"), Ok(40 * H));
    assert_eq!(ledger.month_allotment(id, "2024-04"), Ok(12 * H));
    assert_eq!(ledger.get_weeks("2024-03").unwrap()[0].rows[0].allotted, (40 * H) as i128);
    assert_eq!(ledger.get_weeks("2024-04").unwrap()[0].rows[0].allotted, (12 * H) as i128);
    ledger.set_project_month_allotment(id, "2024-04", 0).unwrap();
    assert_eq!(ledger.month_allotment(id, "2024-04"), Ok(0));
    assert_eq!(ledger.get_weeks("2024-04").unwrap()[0].rows[0].allotted, 0);
}

#[test]
fn deleting_a_project_takes_everything_of_it_away() {
    let mut ledger = Ledger::new();
    let a = ledger.add_project("A", 10 * H).unwrap();
    let b = ledger.add_project("B", 20 * H).unwrap();
    ledger.set_day_hours(a, "2024-03-04", 8 * H).unwrap();
    ledger.set_day_hours(b, "2024-03-04", 2 * H).unwrap();
    ledger.set_project_month_allotment(a, "2024-03", 99 * H).unwrap();
    assert_eq!(ledger.delete_project(a), Ok(()));
    let weeks = ledger.get_weeks("2024-03").unwrap();
    for week in &weeks {
        assert_eq!(week.rows.len(), 1);
        assert_eq!(week.rows[0].project_code_id, b);
    }
    assert_eq!(weeks[1].rows[0].total, (2 * H) as i128);
    assert_eq!(ledger.set_day_hours(a, "2024-03-05", H), Err(LedgerError::NotFound));
    assert_eq!(ledger.month_allotment(a, "2024-03"), Err(LedgerError::NotFound));
    assert_eq!(ledger.delete_project(a), Err(LedgerError::NotFound));
    // A project that takes the code anew is another project, with nothing logged.
    let again = ledger.add_project("A", 10 * H).unwrap();
    assert!(again != a);
    let weeks = ledger.get_weeks("2024-03").unwrap();
    assert_eq!(row_of(&weeks[1].rows, again).total, 0);
    assert_eq!(row_of(&weeks[0].rows, again).allotted, (10 * H) as i128);
}

#[test]
fn codes_are_trimmed_and_unique() {
    let mut ledger = Ledger::new();
    let a = ledger.add_project("  PRJ-1001\t\n", 40 * H).unwrap();
    assert_eq!(a, 1);
    assert_eq!(ledger.add_project("PRJ-1001", 1), Err(LedgerError::Conflict));
    assert_eq!(ledger.add_project(" PRJ-1001 ", 1), Err(LedgerError::Conflict));
    let b = ledger.add_project("PRJ 1001", 2).unwrap();
    assert_eq!(b, 2);
    assert_eq!(
        ledger.list_projects(),
        vec![
            ProjectDto { id: 1, code: "PRJ-1001".to_string(), allotted: 40 * H },
            ProjectDto { id: 2, code: "PRJ 1001".to_string(), allotted: 2 },
        ]
    );
}

#[test]
fn renaming_a_project() {
    let mut ledger = Ledger::new();
    let a = ledger.add_project("A", 1).unwrap();
    let b = ledger.add_project("B", 2).unwrap();
    assert_eq!(ledger.update_project(a, "B"), Err(LedgerError::Conflict));
    assert_eq!(ledger.update_project(a, " B "), Err(LedgerError::Conflict));
    assert_eq!(ledger.update_project(99, "C"), Err(LedgerError::NotFound));
    assert_eq!(ledger.update_project(99, "B"), Err(LedgerError::NotFound));
    assert_eq!(ledger.update_project(a, "A"), Ok(()));
    assert_eq!(ledger.update_project(a, "  C  "), Ok(()));
    assert_eq!(ledger.update_project(b, "A"), Ok(()));
    assert_eq!(
        ledger.list_projects(),
        vec![
            ProjectDto { id: a, code: "C".to_string(), allotted: 1 },
            ProjectDto { id: b, code: "A".to_string(), allotted: 2 },
        ]
    );
    let weeks = ledger.get_weeks("2024-03").unwrap();
    assert_eq!(weeks[0].rows[0].project_code, "A");
    assert_eq!(weeks[0].rows[0].project_code_id, b);
    assert_eq!(weeks[0].rows[1].project_code, "C");
    assert_eq!(weeks[0].rows[1].project_code_id, a);
}

#[test]
fn rows_stand_in_the_order_of_the_codes() {
    let mut ledger = Ledger::new();
    for (code, allotted) in [("b", 1), ("B", 2), ("a", 3), ("ab", 4), ("", 5), ("\u{e9}", 6), ("Z9", 7)] {
        ledger.add_project(code, allotted).unwrap();
    }
    ledger.set_day_hours(3, "2024-03-05", 10).unwrap();
    let weeks = ledger.get_weeks("2024-03").unwrap();
    for week in &weeks {
        let codes: Vec<&str> = week.rows.iter().map(|r| r.project_code.as_str()).collect();
        assert_eq!(codes, vec!["", "B", "Z9", "a", "ab", "b", "\u{e9}"]);
        let ids: Vec<i64> = week.rows.iter().map(|r| r.project_code_id).collect();
        assert_eq!(ids, vec![5, 2, 7, 3, 4, 1, 6]);
    }
    assert_eq!(weeks[0].rows[3].allotted, 3);
    assert_eq!(weeks[1].rows[3].total, 10);
    assert_eq!(weeks[2].rows[3].allotted, -7);
    assert_eq!(weeks[2].rows[5].allotted, 1);
    // The projects themselves are listed in the order of their identifiers.
    let ids: Vec<i64> = ledger.list_projects().iter().map(|p| p.id).collect();
    assert_eq!(ids, vec![1, 2, 3, 4, 5, 6, 7]);
    // Another code, another place.
    ledger.update_project(3, "c").unwrap();
    let weeks = ledger.get_weeks("2024-03").unwrap();
    let ids: Vec<i64> = weeks[0].rows.iter().map(|r| r.project_code_id).collect();
    assert_eq!(ids, vec![5, 2, 7, 4, 1, 3, 6]);
}

#[test]
fn requests_with_text_that_names_nothing_are_refused() {
    let mut ledger = Ledger::new();
    let id = ledger.add_project("A", 1).unwrap();
    assert_eq!(ledger.get_weeks("2024-13").err(), Some(LedgerError::InvalidInput));
    assert_eq!(ledger.get_weeks("2024-3").err(), Some(LedgerError::InvalidInput));
    assert_eq!(ledger.get_weeks("").err(), Some(LedgerError::InvalidInput));
    assert_eq!(ledger.get_weeks("+262142-12").err(), Some(LedgerError::InvalidInput));
    assert_eq!(ledger.set_day_hours(id, "2024-02-30", 1), Err(LedgerError::InvalidInput));
    assert_eq!(ledger.set_day_hours(99, "2024-02-30", 1), Err(LedgerError::InvalidInput));
    assert_eq!(ledger.set_day_hours(99, "2024-02-28", 1), Err(LedgerError::NotFound));
    assert_eq!(
        ledger.set_project_month_allotment(id, "2024-03-01", 1),
        Err(LedgerError::InvalidInput)
    );
    assert_eq!(ledger.set_project_month_allotment(99, "2024-03", 1), Err(LedgerError::NotFound));
    assert_eq!(ledger.month_allotment(id, "2024"), Err(LedgerError::InvalidInput));
    // Nothing was written by any of them.
    let weeks = ledger.get_weeks("2024-02").unwrap();
    for week in &weeks {
        assert_eq!(week.rows[0].total, 0);
        assert_eq!(week.rows[0].allotted, 1);
    }
}

#[test]
fn a_ledger_without_projects_reports_weeks_without_rows() {
    let ledger = Ledger::new();
    let weeks = ledger.get_weeks("2024-03").unwrap();
    assert_eq!(weeks.len(), 6);
    for week in &weeks {
        assert!(week.rows.is_empty());
    }
    assert!(ledger.list_projects().is_empty());
}

#[test]
fn sample_projects_are_taken_in_once() {
    let mut ledger = Ledger::new();
    ledger.ensure_sample_projects();
    let expected = vec![
        ProjectDto { id: 1, code: "PRJ-1001".to_string(), allotted: 40 * H },
        ProjectDto { id: 2, code: "PRJ-2002".to_string(), allotted: 20 * H },
    ];
    assert_eq!(ledger.list_projects(), expected);
    ledger.ensure_sample_projects();
    assert_eq!(ledger.list_projects(), expected);
    ledger.delete_project(1).unwrap();
    ledger.ensure_sample_projects();
    assert_eq!(
        ledger.list_projects(),
        vec![ProjectDto { id: 2, code: "PRJ-2002".to_string(), allotted: 20 * H }]
    );
    ledger.delete_project(2).unwrap();
    ledger.ensure_sample_projects();
    assert_eq!(
        ledger.list_projects(),
        vec![
            ProjectDto { id: 3, code: "PRJ-1001".to_string(), allotted: 40 * H },
            ProjectDto { id: 4, code: "PRJ-2002".to_string(), allotted: 20 * H },
        ]
    );
}

#[test]
fn restored_projects_keep_their_identifiers() {
    let mut ledger = Ledger::new();
    assert_eq!(ledger.restore_project(3, "C", 30), Ok(()));
    assert_eq!(ledger.restore_project(7, " G ", 70), Ok(()));
    assert_eq!(ledger.restore_project(7, "H", 1), Err(LedgerError::Conflict));
    assert_eq!(ledger.restore_project(5, "E", 1), Err(LedgerError::Conflict));
    assert_eq!(ledger.restore_project(9, "G", 1), Err(LedgerError::Conflict));
    assert_eq!(ledger.restore_project(i64::MAX, "Z", 1), Err(LedgerError::StoreUnavailable));
    assert_eq!(ledger.add_project("N", 80), Ok(8));
    assert_eq!(
        ledger.list_projects(),
        vec![
            ProjectDto { id: 3, code: "C".to_string(), allotted: 30 },
            ProjectDto { id: 7, code: "G".to_string(), allotted: 70 },
            ProjectDto { id: 8, code: "N".to_string(), allotted: 80 },
        ]
    );
    assert_eq!(ledger.restore_project(i64::MAX - 1, "Y", 1), Ok(()));
    assert_eq!(ledger.add_project("X", 1), Err(LedgerError::StoreUnavailable));
    assert_eq!(ledger.add_project("Y", 1), Err(LedgerError::Conflict));
}

#[test]
fn extreme_hours_do_not_overflow() {
    let mut ledger = Ledger::new();
    let id = ledger.add_project("A", i64::MIN).unwrap();
    for day in 1..=31 {
        ledger.set_day_hours(id, &format!("2024-03-{day:02}"), i64::MAX).unwrap();
    }
    let weeks = ledger.get_weeks("2024-03").unwrap();
    let last = &weeks[weeks.len() - 1].rows[0];
    assert_eq!(last.remaining, i64::MIN as i128 - 31 * (i64::MAX as i128));
    assert_eq!(weeks[0].rows[0].total, 2 * (i64::MAX as i128));
}

#[test]
fn error_messages() {
    assert_eq!(LedgerError::InvalidInput.message(), "invalid month or date");
    assert_eq!(LedgerError::NotFound.message(), "no such project");
    assert_eq!(LedgerError::Conflict.message(), "project code already in use");
    assert_eq!(LedgerError::StoreUnavailable.message(), "ledger store unavailable");
}

#[test]
fn allotments_are_listed_latest_month_first() {
    let mut ledger = Ledger::new();
    let a = ledger.add_project("A", 10 * H).unwrap();
    let b = ledger.add_project("B", 20 * H).unwrap();
    assert_eq!(ledger.list_project_allotments(a), Ok(vec![]));
    ledger.set_project_month_allotment(a, "2024-03", 3 * H).unwrap();
    ledger.set_project_month_allotment(a, "2023-12", 12 * H).unwrap();
    ledger.set_project_month_allotment(b, "2024-05", 5 * H).unwrap();
    ledger.set_project_month_allotment(a, "2024-11", 11 * H).unwrap();
    ledger.set_project_month_allotment(a, "2024-04", 4 * H).unwrap();
    ledger.set_project_month_allotment(a, "2024-03", 33 * H).unwrap();
    let month = |m: &str, allotted: i64| ProjectAllotmentDto { month: m.to_string(), allotted };
    assert_eq!(
        ledger.list_project_allotments(a),
        Ok(vec![
            month("2024-11", 11 * H),
            month("2024-04", 4 * H),
            month("2024-03", 33 * H),
            month("2023-12", 12 * H),
        ])
    );
    assert_eq!(ledger.list_project_allotments(b), Ok(vec![month("2024-05", 5 * H)]));
    assert_eq!(ledger.list_project_allotments(99), Err(LedgerError::NotFound));
}

#[test]
fn retired_identifiers_are_not_given_again() {
    let mut ledger = Ledger::new();
    assert_eq!(ledger.add_project("A", 1), Ok(1));
    ledger.retire_identifiers(10);
    assert_eq!(ledger.add_project("B", 1), Ok(11));
    ledger.retire_identifiers(5);
    assert_eq!(ledger.add_project("C", 1), Ok(12));
    ledger.delete_project(12).unwrap();
    assert_eq!(ledger.add_project("D", 1), Ok(13));
    ledger.retire_identifiers(i64::MAX);
    assert_eq!(ledger.add_project("E", 1), Err(LedgerError::StoreUnavailable));
}

#[test]
fn month_projects_carry_the_months_allotment() {
    let mut ledger = Ledger::new();
    let a = ledger.add_project("A", 10 * H).unwrap();
    let b = ledger.add_project("B", 20 * H).unwrap();
    ledger.set_project_month_allotment(b, "2024-03", 7 * H).unwrap();
    let march = CalendarDate { year: 2024, month: 3, day: 1 };
    let april = CalendarDate { year: 2024, month: 4, day: 1 };
    assert_eq!(
        ledger.month_projects(march),
        vec![
            ProjectDto { id: a, code: "A".to_string(), allotted: 10 * H },
            ProjectDto { id: b, code: "B".to_string(), allotted: 7 * H },
        ]
    );
    assert_eq!(ledger.month_projects(april), ledger.list_projects());
    ledger.update_project(a, "Z").unwrap();
    assert_eq!(
        ledger.month_projects(march),
        vec![
            ProjectDto { id: b, code: "B".to_string(), allotted: 7 * H },
            ProjectDto { id: a, code: "Z".to_string(), allotted: 10 * H },
        ]
    );
}
