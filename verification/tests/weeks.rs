use timekeeper::calendar::CalendarDate;
use timekeeper::weeks::{partition_weeks, WeekWindow};

fn date(year: i32, month: u32, day: u32) -> CalendarDate {
    CalendarDate::from_ymd_opt(year, month, day).unwrap()
}

#[test]
fn march_2024_has_six_weeks_from_february_25() {
    let weeks = partition_weeks(date(2024, 3, 1)).unwrap();
    assert_eq!(weeks.len(), 6);
    assert_eq!(weeks[0], WeekWindow { index: 1, start: date(2024, 2, 25), end: date(2024, 3, 2) });
    assert_eq!(weeks[1], WeekWindow { index: 2, start: date(2024, 3, 3), end: date(2024, 3, 9) });
    assert_eq!(weeks[2], WeekWindow { index: 3, start: date(2024, 3, 10), end: date(2024, 3, 16) });
    assert_eq!(weeks[3], WeekWindow { index: 4, start: date(2024, 3, 17), end: date(2024, 3, 23) });
    assert_eq!(weeks[4], WeekWindow { index: 5, start: date(2024, 3, 24), end: date(2024, 3, 30) });
    assert_eq!(weeks[5], WeekWindow { index: 6, start: date(2024, 3, 31), end: date(2024, 4, 6) });
}

#[test]
fn february_2015_is_exactly_four_weeks() {
    // 1 February 2015 is a Sunday and the month has 28 days.
    let weeks = partition_weeks(date(2015, 2, 1)).unwrap();
    assert_eq!(weeks.len(), 4);
    assert_eq!(weeks[0].start, date(2015, 2, 1));
    assert_eq!(weeks[3].end, date(2015, 2, 28));
}

#[test]
fn december_runs_into_january_of_the_next_year() {
    let weeks = partition_weeks(date(2024, 12, 1)).unwrap();
    assert_eq!(weeks.len(), 5);
    assert_eq!(weeks[0].start, date(2024, 12, 1));
    assert_eq!(weeks[4].start, date(2024, 12, 29));
    assert_eq!(weeks[4].end, date(2025, 1, 4));
}

#[test]
fn windows_are_contiguous_sundays_to_saturdays_and_cover_the_month() {
    for (year, month) in [(2023, 1), (2024, 2), (2024, 3), (2024, 6), (1999, 12), (2100, 2)] {
        let first = date(year, month, 1);
        let weeks = partition_weeks(first).unwrap();
        assert!(!weeks.is_empty());
        for (k, week) in weeks.iter().enumerate() {
            assert_eq!(week.index as usize, k + 1);
            assert_eq!(week.start.days_from_sunday(), 0);
            assert_eq!(week.end.days_from_sunday(), 6);
            assert_eq!(week.start.checked_add_days(6), Some(week.end));
            if k + 1 < weeks.len() {
                assert_eq!(week.end.checked_add_days(1), Some(weeks[k + 1].start));
            }
        }
        assert!(weeks[0].start.not_after(&first));
        let mut day = first;
        while day.in_month_of(&first) {
            let holding = weeks
                .iter()
                .filter(|w| w.start.not_after(&day) && day.not_after(&w.end))
                .count();
            assert_eq!(holding, 1);
            day = day.checked_add_days(1).unwrap();
        }
        let last = day.checked_add_days(-1).unwrap();
        assert!(last.not_after(&weeks[weeks.len() - 1].end));
        assert!(weeks[weeks.len() - 1].start.not_after(&last));
    }
}

#[test]
fn the_last_month_of_the_calendar_has_no_view() {
    assert_eq!(partition_weeks(date(262142, 12, 1)), None);
    assert_eq!(partition_weeks(date(-262143, 1, 1)), None);
    assert!(partition_weeks(date(262142, 11, 1)).is_some());
    assert!(partition_weeks(date(-262143, 2, 1)).is_some());
}

#[test]
fn week_window_day_counts_from_its_sunday() {
    let week = WeekWindow { index: 1, start: date(2024, 2, 25), end: date(2024, 3, 2) };
    assert_eq!(week.day(0), date(2024, 2, 25));
    assert_eq!(week.day(4), date(2024, 2, 29));
    assert_eq!(week.day(5), date(2024, 3, 1));
    assert_eq!(week.day(6), date(2024, 3, 2));
}
