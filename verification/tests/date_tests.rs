use calendar2pdf::date::{CalendarDate, MAX_YEAR, MIN_YEAR};

fn ymd(year: i32, month: u32, day: u32) -> CalendarDate {
    CalendarDate::from_ymd_opt(year, month, day).unwrap()
}

#[test]
fn existing_days_are_made() {
    assert_eq!(
        CalendarDate::from_ymd_opt(2024, 2, 29),
        Some(CalendarDate { year: 2024, month: 2, day: 29 })
    );
    assert_eq!(
        CalendarDate::from_ymd_opt(2000, 2, 29),
        Some(CalendarDate { year: 2000, month: 2, day: 29 })
    );
    assert!(CalendarDate::from_ymd_opt(2023, 12, 31).is_some());
    assert!(CalendarDate::from_ymd_opt(-4, 2, 29).is_some());
}

#[test]
fn missing_days_are_refused() {
    assert_eq!(CalendarDate::from_ymd_opt(2024, 2, 30), None);
    assert_eq!(CalendarDate::from_ymd_opt(2023, 2, 29), None);
    assert_eq!(CalendarDate::from_ymd_opt(1900, 2, 29), None);
    assert_eq!(CalendarDate::from_ymd_opt(2024, 4, 31), None);
    assert_eq!(CalendarDate::from_ymd_opt(2024, 0, 1), None);
    assert_eq!(CalendarDate::from_ymd_opt(2024, 13, 1), None);
    assert_eq!(CalendarDate::from_ymd_opt(2024, 1, 0), None);
    assert_eq!(CalendarDate::from_ymd_opt(2024, 1, 32), None);
}

#[test]
fn years_have_a_first_and_a_last() {
    assert!(CalendarDate::from_ymd_opt(MIN_YEAR, 1, 1).is_some());
    assert!(CalendarDate::from_ymd_opt(MAX_YEAR, 12, 31).is_some());
    assert_eq!(CalendarDate::from_ymd_opt(MIN_YEAR - 1, 12, 31), None);
    assert_eq!(CalendarDate::from_ymd_opt(MAX_YEAR + 1, 1, 1), None);
}

#[test]
fn days_are_counted_between_dates() {
    assert_eq!(ymd(2024, 1, 1).days_until(&ymd(2024, 1, 1)), 0);
    assert_eq!(ymd(2024, 1, 1).days_until(&ymd(2024, 1, 3)), 2);
    assert_eq!(ymd(2024, 1, 1).days_until(&ymd(2024, 3, 1)), 60);
    assert_eq!(ymd(2023, 1, 1).days_until(&ymd(2023, 3, 1)), 59);
    assert_eq!(ymd(1970, 1, 1).days_until(&ymd(2000, 1, 1)), 10_957);
    assert_eq!(ymd(1614, 1, 1).days_until(&ymd(2014, 1, 1)), 365 * 400 + 97);
    assert_eq!(ymd(1, 1, 1).days_until(&ymd(1970, 1, 1)), 719_162);
    assert_eq!(ymd(0, 1, 1).days_until(&ymd(1, 1, 1)), 366);
    assert_eq!(ymd(-1, 1, 1).days_until(&ymd(0, 1, 1)), 365);
}

#[test]
fn days_until_an_earlier_date_are_negative() {
    assert_eq!(ymd(2024, 1, 3).days_until(&ymd(2024, 1, 1)), -2);
    assert_eq!(ymd(2014, 1, 1).days_until(&ymd(2013, 1, 1)), -365);
}

#[test]
fn days_are_added() {
    assert_eq!(ymd(2022, 2, 20).plus_days(9), Some(ymd(2022, 3, 1)));
    assert_eq!(ymd(2022, 7, 31).plus_days(2), Some(ymd(2022, 8, 2)));
    assert_eq!(ymd(2024, 2, 28).plus_days(1), Some(ymd(2024, 2, 29)));
    assert_eq!(ymd(2023, 12, 31).plus_days(1), Some(ymd(2024, 1, 1)));
    assert_eq!(ymd(2024, 1, 1).plus_days(0), Some(ymd(2024, 1, 1)));
    assert_eq!(ymd(2024, 1, 1).plus_days(366), Some(ymd(2025, 1, 1)));
}

#[test]
fn no_day_lies_after_the_last() {
    assert_eq!(ymd(MAX_YEAR, 12, 31).plus_days(1), None);
    assert_eq!(ymd(MAX_YEAR, 12, 30).plus_days(1), Some(ymd(MAX_YEAR, 12, 31)));
    assert_eq!(ymd(2022, 7, 31).plus_days(1_000_000_000_000), None);
}

#[test]
fn adding_days_undoes_counting_them() {
    let start = ymd(2023, 11, 17);
    for n in 0..800u64 {
        let later = start.plus_days(n).unwrap();
        assert_eq!(start.days_until(&later), n as i64);
        assert!(start.is_le(&later));
        assert_eq!(later.is_le(&start), n == 0);
    }
}

#[test]
fn dates_are_ordered_by_year_month_day() {
    assert!(ymd(2023, 12, 31).is_le(&ymd(2024, 1, 1)));
    assert!(!ymd(2024, 1, 1).is_le(&ymd(2023, 12, 31)));
    assert!(ymd(2024, 1, 31).is_le(&ymd(2024, 2, 1)));
    assert!(!ymd(2024, 2, 1).is_le(&ymd(2024, 1, 31)));
    assert!(ymd(2024, 2, 1).is_le(&ymd(2024, 2, 2)));
    assert!(ymd(2024, 2, 2).is_le(&ymd(2024, 2, 2)));
    assert!(!ymd(2024, 2, 3).is_le(&ymd(2024, 2, 2)));
}

#[test]
fn iso_weeks_follow_the_thursday() {
    assert_eq!(ymd(2024, 1, 1).iso_week(), 1);
    assert_eq!(ymd(2024, 1, 7).iso_week(), 1);
    assert_eq!(ymd(2024, 1, 8).iso_week(), 2);
    assert_eq!(ymd(2024, 12, 30).iso_week(), 1);
    assert_eq!(ymd(2021, 1, 3).iso_week(), 53);
    assert_eq!(ymd(2020, 12, 31).iso_week(), 53);
    assert_eq!(ymd(2023, 1, 1).iso_week(), 52);
    assert_eq!(ymd(2019, 12, 30).iso_week(), 1);
}

#[test]
fn compact_tokens_are_read() {
    assert_eq!(CalendarDate::from_compact("20240101"), Some(ymd(2024, 1, 1)));
    assert_eq!(CalendarDate::from_compact("20241231"), Some(ymd(2024, 12, 31)));
    assert_eq!(CalendarDate::from_compact("20240229"), Some(ymd(2024, 2, 29)));
}

#[test]
fn compact_tokens_may_go_on_after_the_date() {
    assert_eq!(CalendarDate::from_compact("20240315T120000Z"), Some(ymd(2024, 3, 15)));
}

#[test]
fn tokens_without_a_date_are_refused() {
    assert_eq!(CalendarDate::from_compact(""), None);
    assert_eq!(CalendarDate::from_compact("tomorrow"), None);
    assert_eq!(CalendarDate::from_compact("20240230"), None);
    assert_eq!(CalendarDate::from_compact("20241301"), None);
    assert_eq!(CalendarDate::from_compact("2024"), None);
}
