use calendar2pdf::date::CalendarDate;
use calendar2pdf::events::{normalize, Event, RawEvent};
use calendar2pdf::printable::grid::{Grid, PageConfig};
use calendar2pdf::printable::place::{assign_line, PlacementEntry};
use calendar2pdf::printable::wrap::FontMetrics;
use calendar2pdf::printable::{base_calendar, write_events};

fn letter(columns: u32) -> PageConfig {
    PageConfig {
        columns,
        page_width: 612_000,
        page_height: 792_000,
        margin: 36_000,
        gutter: 10_000,
        title_height: 16_000,
        day_width: 10_000,
        lane_gutter: 5_000,
    }
}

fn unit() -> FontMetrics {
    FontMetrics { advances: vec![], fallback: 1 }
}

fn ymd(year: i32, month: u32, day: u32) -> CalendarDate {
    CalendarDate::from_ymd_opt(year, month, day).unwrap()
}

fn event(id: usize, start: CalendarDate, end: CalendarDate, summary: &str) -> Event {
    Event::new(id, start, end, summary.to_string()).unwrap()
}

fn entry(
    date: CalendarDate,
    source: usize,
    is_conflict: bool,
    line_text: &str,
    is_first_day: bool,
    is_last_day: bool,
) -> PlacementEntry {
    PlacementEntry {
        date,
        source,
        is_conflict,
        line_text: line_text.to_string(),
        is_first_day,
        is_last_day,
    }
}

fn grid_2024() -> Grid {
    base_calendar(&letter(4), ymd(2024, 1, 1)).unwrap()
}

#[test]
fn a_trip_of_three_days() {
    let raw = RawEvent {
        start: Some(ymd(2024, 1, 1)),
        end: Some(ymd(2024, 1, 3)),
        summary: Some("Trip".to_string()),
        location: None,
    };
    let events = normalize(&vec![raw], 0).unwrap();
    let got = write_events(&events, &grid_2024(), &unit(), 100);
    assert_eq!(
        got,
        vec![
            entry(ymd(2024, 1, 1), 0, false, "Trip", true, false),
            entry(ymd(2024, 1, 2), 0, false, "", false, false),
            entry(ymd(2024, 1, 3), 0, false, "", false, true),
        ]
    );
}

#[test]
fn two_calendars_do_not_conflict() {
    let events = vec![
        event(0, ymd(2024, 3, 15), ymd(2024, 3, 15), "Fair"),
        event(1, ymd(2024, 3, 14), ymd(2024, 3, 16), "Show"),
    ];
    let got = write_events(&events, &grid_2024(), &unit(), 100);
    assert_eq!(
        got,
        vec![
            entry(ymd(2024, 3, 15), 0, false, "Fair", true, true),
            entry(ymd(2024, 3, 14), 1, false, "Show", true, false),
            entry(ymd(2024, 3, 15), 1, false, "", false, false),
            entry(ymd(2024, 3, 16), 1, false, "", false, true),
        ]
    );
}

#[test]
fn the_later_of_two_events_of_a_calendar_conflicts() {
    let events = vec![
        event(0, ymd(2024, 3, 14), ymd(2024, 3, 15), "a"),
        event(0, ymd(2024, 3, 15), ymd(2024, 3, 17), "b"),
        event(0, ymd(2024, 3, 17), ymd(2024, 3, 17), "c"),
        event(1, ymd(2024, 3, 17), ymd(2024, 3, 17), "d"),
        event(1, ymd(2024, 3, 17), ymd(2024, 3, 17), "e"),
    ];
    let got = write_events(&events, &grid_2024(), &unit(), 100);
    assert_eq!(
        got,
        vec![
            entry(ymd(2024, 3, 14), 0, false, "a", true, false),
            entry(ymd(2024, 3, 15), 0, false, "", false, true),
            entry(ymd(2024, 3, 15), 0, true, "b", true, false),
            entry(ymd(2024, 3, 16), 0, false, "", false, false),
            entry(ymd(2024, 3, 17), 0, false, "", false, true),
            entry(ymd(2024, 3, 17), 0, true, "c", true, true),
            entry(ymd(2024, 3, 17), 1, false, "d", true, true),
            entry(ymd(2024, 3, 17), 1, true, "e", true, true),
        ]
    );
}

#[test]
fn the_order_of_the_events_decides_which_conflicts() {
    let a = || event(0, ymd(2024, 3, 15), ymd(2024, 3, 15), "a");
    let b = || event(0, ymd(2024, 3, 15), ymd(2024, 3, 15), "b");
    let day = ymd(2024, 3, 15);
    assert_eq!(
        write_events(&vec![a(), b()], &grid_2024(), &unit(), 100),
        vec![entry(day, 0, false, "a", true, true), entry(day, 0, true, "b", true, true)]
    );
    assert_eq!(
        write_events(&vec![b(), a()], &grid_2024(), &unit(), 100),
        vec![entry(day, 0, false, "b", true, true), entry(day, 0, true, "a", true, true)]
    );
}

#[test]
fn placing_twice_gives_the_same() {
    let events = vec![
        event(0, ymd(2024, 3, 14), ymd(2024, 3, 20), "one two three four five six seven"),
        event(1, ymd(2024, 3, 15), ymd(2024, 3, 17), "b"),
        event(0, ymd(2024, 3, 17), ymd(2024, 4, 2), "c d e f"),
        event(5, ymd(2023, 12, 17), ymd(2025, 1, 7), "long"),
    ];
    let grid = grid_2024();
    let first = write_events(&events, &grid, &unit(), 7);
    let second = write_events(&events, &grid, &unit(), 7);
    assert_eq!(first, second);
    assert_eq!(first.len(), 7 + 3 + 17 + 366);
    let other_grid = grid_2024();
    assert_eq!(write_events(&events, &other_grid, &unit(), 7), first);
}

#[test]
fn days_without_a_cell_are_skipped() {
    let events = vec![event(0, ymd(2023, 12, 30), ymd(2024, 1, 2), "New Year ahead")];
    let got = write_events(&events, &grid_2024(), &unit(), 8);
    // Two days have a cell, so two lines are asked for.
    assert_eq!(
        got,
        vec![
            entry(ymd(2024, 1, 1), 0, false, "New Year", false, false),
            entry(ymd(2024, 1, 2), 0, false, "ahead", false, true),
        ]
    );
    let events = vec![event(0, ymd(2024, 12, 31), ymd(2025, 1, 2), "Out")];
    assert_eq!(
        write_events(&events, &grid_2024(), &unit(), 8),
        vec![entry(ymd(2024, 12, 31), 0, false, "Out", true, false)]
    );
    let events = vec![event(0, ymd(2025, 1, 1), ymd(2025, 1, 2), "Gone")];
    assert_eq!(write_events(&events, &grid_2024(), &unit(), 8), vec![]);
}

#[test]
fn a_day_claimed_out_of_sight_still_conflicts_in_sight() {
    let events = vec![
        event(0, ymd(2023, 12, 30), ymd(2024, 1, 1), "a"),
        event(0, ymd(2023, 12, 31), ymd(2024, 1, 1), "b"),
    ];
    assert_eq!(
        write_events(&events, &grid_2024(), &unit(), 8),
        vec![
            entry(ymd(2024, 1, 1), 0, false, "a", false, true),
            entry(ymd(2024, 1, 1), 0, true, "b", false, true),
        ]
    );
}

#[test]
fn nothing_is_placed_without_cells() {
    let events = vec![
        event(0, ymd(2024, 3, 14), ymd(2024, 3, 20), "a"),
        event(1, ymd(2024, 3, 15), ymd(2024, 3, 17), "b"),
    ];
    assert_eq!(write_events(&events, &Grid::new(), &unit(), 8), vec![]);
    assert_eq!(write_events(&vec![], &grid_2024(), &unit(), 8), vec![]);
}

#[test]
fn lines_go_to_the_days_in_order() {
    let events = vec![event(0, ymd(2024, 3, 14), ymd(2024, 3, 17), "aaa bbb ccc ddd eee fff")];
    let got = write_events(&events, &grid_2024(), &unit(), 7);
    assert_eq!(
        got,
        vec![
            entry(ymd(2024, 3, 14), 0, false, "aaa bbb", true, false),
            entry(ymd(2024, 3, 15), 0, false, "ccc ddd", false, false),
            entry(ymd(2024, 3, 16), 0, false, "eee fff", false, false),
            entry(ymd(2024, 3, 17), 0, false, "", false, true),
        ]
    );
    // With two days there is room for two lines only.
    let events = vec![event(0, ymd(2024, 3, 14), ymd(2024, 3, 15), "aaa bbb ccc ddd eee fff")];
    let got = write_events(&events, &grid_2024(), &unit(), 7);
    assert_eq!(
        got,
        vec![
            entry(ymd(2024, 3, 14), 0, false, "aaa bbb", true, false),
            entry(ymd(2024, 3, 15), 0, false, "ccc ddd", false, true),
        ]
    );
}

#[test]
fn without_a_line_width_days_are_numbered() {
    let events = vec![
        event(0, ymd(2023, 12, 24), ymd(2024, 1, 3), "Holidays"),
        event(1, ymd(2024, 2, 1), ymd(2024, 2, 1), "Day"),
    ];
    for width in [0i64, -1, i64::MIN] {
        let got = write_events(&events, &grid_2024(), &unit(), width);
        assert_eq!(
            got,
            vec![
                entry(ymd(2024, 1, 1), 0, false, "9", false, false),
                entry(ymd(2024, 1, 2), 0, false, "10", false, false),
                entry(ymd(2024, 1, 3), 0, false, "11", false, true),
                entry(ymd(2024, 2, 1), 1, false, "1", true, true),
            ]
        );
    }
}

#[test]
fn a_day_gets_its_line_nothing_or_its_number() {
    let lines = vec!["one".to_string(), "two".to_string()];
    assert_eq!(assign_line(&lines, 4, 0, 10), "one");
    assert_eq!(assign_line(&lines, 4, 1, 11), "two");
    assert_eq!(assign_line(&lines, 4, 2, 12), "");
    assert_eq!(assign_line(&lines, 4, 3, 13), "");
    assert_eq!(assign_line(&lines, 4, 4, 14), "14");
    assert_eq!(assign_line(&lines, 4, 5, 0), "0");
    assert_eq!(assign_line(&lines, 0, 5, 7), "7");
    assert_eq!(assign_line(&lines, 0, 2, 1234567890), "1234567890");
    assert_eq!(assign_line(&lines, 0, 2, u64::MAX), "18446744073709551615");
    assert_eq!(assign_line(&vec![], 0, 0, 100), "100");
}
