use timekeeper::calendar::CalendarDate;
use timekeeper::dates::{month_to_text, parse_month};

fn date(year: i32, month: u32, day: u32) -> CalendarDate {
    CalendarDate { year, month, day }
}

#[test]
fn from_ymd_opt_takes_only_days_that_exist() {
    assert_eq!(CalendarDate::from_ymd_opt(2024, 2, 29), Some(date(2024, 2, 29)));
    assert_eq!(CalendarDate::from_ymd_opt(2023, 2, 29), None);
    assert_eq!(CalendarDate::from_ymd_opt(2100, 2, 29), None);
    assert_eq!(CalendarDate::from_ymd_opt(2000, 2, 29), Some(date(2000, 2, 29)));
    assert_eq!(CalendarDate::from_ymd_opt(2024, 4, 31), None);
    assert_eq!(CalendarDate::from_ymd_opt(2024, 0, 1), None);
    assert_eq!(CalendarDate::from_ymd_opt(2024, 13, 1), None);
    assert_eq!(CalendarDate::from_ymd_opt(2024, 1, 0), None);
    assert_eq!(CalendarDate::from_ymd_opt(262143, 1, 1), None);
    assert_eq!(CalendarDate::from_ymd_opt(-262144, 12, 31), None);
    assert!(CalendarDate::from_ymd_opt(262142, 12, 31).is_some());
    assert!(CalendarDate::from_ymd_opt(-262143, 1, 1).is_some());
}

#[test]
fn weekdays_count_from_sunday() {
    assert_eq!(date(2024, 3, 1).days_from_sunday(), 5);
    assert_eq!(date(2024, 2, 25).days_from_sunday(), 0);
    assert_eq!(date(1970, 1, 1).days_from_sunday(), 4);
    assert_eq!(date(1, 1, 1).days_from_sunday(), 1);
    assert_eq!(date(0, 12, 31).days_from_sunday(), 0);
    assert_eq!(date(-1, 1, 1).days_from_sunday(), 5);
}

#[test]
fn adding_days_crosses_months_and_years() {
    assert_eq!(date(2024, 2, 28).checked_add_days(1), Some(date(2024, 2, 29)));
    assert_eq!(date(2024, 2, 28).checked_add_days(2), Some(date(2024, 3, 1)));
    assert_eq!(date(2023, 2, 28).checked_add_days(1), Some(date(2023, 3, 1)));
    assert_eq!(date(2024, 12, 31).checked_add_days(1), Some(date(2025, 1, 1)));
    assert_eq!(date(2024, 1, 1).checked_add_days(-1), Some(date(2023, 12, 31)));
    assert_eq!(date(2024, 3, 1).checked_add_days(-5), Some(date(2024, 2, 25)));
    assert_eq!(date(2024, 3, 1).checked_add_days(0), Some(date(2024, 3, 1)));
    assert_eq!(date(1, 1, 1).checked_add_days(-1), Some(date(0, 12, 31)));
}

#[test]
fn adding_days_stops_at_the_calendars_limits() {
    assert_eq!(date(262142, 12, 31).checked_add_days(1), None);
    assert_eq!(date(-262143, 1, 1).checked_add_days(-1), None);
    assert_eq!(date(262142, 12, 31).checked_add_days(0), Some(date(262142, 12, 31)));
    assert_eq!(date(262142, 12, 25).checked_add_days(6), Some(date(262142, 12, 31)));
    assert_eq!(date(2024, 1, 1).checked_add_days(i64::MAX), None);
    assert_eq!(date(2024, 1, 1).checked_add_days(i64::MIN), None);
    assert_eq!(date(2024, 1, 1).checked_add_days(4_000_000_000), None);
}

#[test]
fn dates_are_written_with_zero_padding() {
    assert_eq!(date(2024, 3, 1).to_text(), "2024-03-01");
    assert_eq!(date(2024, 12, 31).to_text(), "2024-12-31");
    assert_eq!(date(987, 6, 5).to_text(), "0987-06-05");
    assert_eq!(date(0, 1, 1).to_text(), "0000-01-01");
    assert_eq!(date(9999, 12, 31).to_text(), "9999-12-31");
}

#[test]
fn years_outside_four_digits_are_written_with_a_sign() {
    assert_eq!(date(-1, 1, 1).to_text(), "-0001-01-01");
    assert_eq!(date(-9999, 2, 3).to_text(), "-9999-02-03");
    assert_eq!(date(10000, 12, 31).to_text(), "+10000-12-31");
    assert_eq!(date(-12345, 1, 9).to_text(), "-12345-01-09");
    assert_eq!(date(262142, 12, 31).to_text(), "+262142-12-31");
    assert_eq!(date(-262143, 1, 1).to_text(), "-262143-01-01");
}

#[test]
fn parse_reads_what_to_text_writes() {
    for d in [
        date(2024, 3, 1),
        date(2024, 2, 29),
        date(0, 1, 1),
        date(9999, 12, 31),
        date(-1, 1, 1),
        date(10000, 12, 31),
        date(262142, 12, 31),
        date(-262143, 1, 1),
        date(123, 4, 5),
    ] {
        assert_eq!(CalendarDate::parse(&d.to_text()), Some(d));
    }
}

#[test]
fn parse_takes_no_other_text() {
    assert_eq!(CalendarDate::parse("2024-03-01"), Some(date(2024, 3, 1)));
    assert_eq!(CalendarDate::parse("2024-3-1"), None);
    assert_eq!(CalendarDate::parse("2024-03-1"), None);
    assert_eq!(CalendarDate::parse(" 2024-03-01"), None);
    assert_eq!(CalendarDate::parse("2024-03-01 "), None);
    assert_eq!(CalendarDate::parse("+2024-03-01"), None);
    assert_eq!(CalendarDate::parse("2024-02-30"), None);
    assert_eq!(CalendarDate::parse("2023-02-29"), None);
    assert_eq!(CalendarDate::parse("2024-13-01"), None);
    assert_eq!(CalendarDate::parse("2024/03/01"), None);
    assert_eq!(CalendarDate::parse("24-03-01"), None);
    assert_eq!(CalendarDate::parse(""), None);
    assert_eq!(CalendarDate::parse("yesterday"), None);
}

#[test]
fn parse_month_gives_the_first_day() {
    assert_eq!(parse_month("2024-03"), Some(date(2024, 3, 1)));
    assert_eq!(parse_month("2024-12"), Some(date(2024, 12, 1)));
    assert_eq!(parse_month("0000-01"), Some(date(0, 1, 1)));
    assert_eq!(parse_month("-0001-12"), Some(date(-1, 12, 1)));
    assert_eq!(parse_month("+10000-01"), Some(date(10000, 1, 1)));
}

#[test]
fn parse_month_takes_no_other_text() {
    assert_eq!(parse_month("2024-3"), None);
    assert_eq!(parse_month("2024-13"), None);
    assert_eq!(parse_month("2024-00"), None);
    assert_eq!(parse_month("2024"), None);
    assert_eq!(parse_month("2024-03-01"), None);
    assert_eq!(parse_month("2024-03-"), None);
    assert_eq!(parse_month(" 2024-03"), None);
    assert_eq!(parse_month(""), None);
    assert_eq!(parse_month("March 2024"), None);
}

#[test]
fn dates_compare_by_year_then_month_then_day() {
    assert!(date(2024, 2, 29).not_after(&date(2024, 3, 1)));
    assert!(date(2024, 3, 1).not_after(&date(2024, 3, 1)));
    assert!(!date(2024, 3, 2).not_after(&date(2024, 3, 1)));
    assert!(date(2023, 12, 31).not_after(&date(2024, 1, 1)));
    assert!(!date(2024, 1, 1).not_after(&date(2023, 12, 31)));
    assert!(date(2024, 3, 1).in_month_of(&date(2024, 3, 31)));
    assert!(!date(2024, 3, 1).in_month_of(&date(2023, 3, 1)));
    assert!(!date(2024, 3, 1).in_month_of(&date(2024, 4, 1)));
}

#[test]
fn months_are_written_as_year_and_month() {
    assert_eq!(month_to_text(&date(2024, 3, 17)), "2024-03");
    assert_eq!(month_to_text(&date(5, 12, 1)), "0005-12");
    assert_eq!(month_to_text(&date(-44, 3, 15)), "-0044-03");
    assert_eq!(month_to_text(&date(12345, 1, 1)), "+12345-01");
    assert!(date(2024, 3, 1).is_before(&date(2024, 3, 2)));
    assert!(!date(2024, 3, 1).is_before(&date(2024, 3, 1)));
    assert!(date(2023, 12, 31).is_before(&date(2024, 1, 1)));
}
