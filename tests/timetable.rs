use timetable::date::CalendarDate;
use timetable::day::{raw_to_days, Day};
use timetable::error::ScheduleError;
use timetable::lesson::{raw_to_lesson, RawLesson};
use timetable::week::days_to_weeks;

fn record(date: &str, number: &str, kind: &str, subject: &str, subgroup: &str) -> RawLesson {
    RawLesson {
        date_lesson: date.to_string(),
        day_number: "1".to_string(),
        lesson_number: number.to_string(),
        lesson_type: kind.to_string(),
        subject: subject.to_string(),
        teacher_name: "Ivanova".to_string(),
        place: "Room 101".to_string(),
        subgroup: subgroup.to_string(),
    }
}

fn date(year: i32, month: u32, day: u32) -> CalendarDate {
    CalendarDate { year, month, day }
}

fn dates_of(days: &[Day]) -> Vec<CalendarDate> {
    days.iter().map(|d| d.date).collect()
}

#[test]
fn title_with_first_subgroup() {
    let l = raw_to_lesson(&record("2025-01-06", "1", "Lecture", "Algebra", "1")).unwrap();
    assert_eq!(l.title, "Lecture Algebra, subgroup 1");
    assert_eq!(l.position, 1);
    assert_eq!(l.teacher, "Ivanova");
    assert_eq!(l.place, "Room 101");
}

#[test]
fn title_with_second_subgroup() {
    let l = raw_to_lesson(&record("2025-01-06", "2", "Lab", "Physics", "2")).unwrap();
    assert_eq!(l.title, "Lab Physics, subgroup 2");
    assert!(l.title.ends_with(", subgroup 2"));
}

#[test]
fn title_without_subgroup() {
    for sub in ["0", "3", "7", "255", "+0"] {
        let l = raw_to_lesson(&record("2025-01-06", "3", "Seminar", "History", sub)).unwrap();
        assert_eq!(l.title, "Seminar History");
    }
}

#[test]
fn numbers_read_as_unsigned_bytes() {
    assert_eq!(raw_to_lesson(&record("2025-01-06", "+4", "L", "S", "0")).unwrap().position, 4);
    assert_eq!(raw_to_lesson(&record("2025-01-06", "255", "L", "S", "0")).unwrap().position, 255);
    assert_eq!(raw_to_lesson(&record("2025-01-06", "007", "L", "S", "0")).unwrap().position, 7);
    for bad in ["256", "", "+", "-1", " 1", "1a", "abc"] {
        assert!(matches!(
            raw_to_lesson(&record("2025-01-06", bad, "L", "S", "0")),
            Err(ScheduleError::Parse)
        ));
    }
}

#[test]
fn bad_subgroup_is_a_parse_error() {
    assert!(matches!(
        raw_to_lesson(&record("2025-01-06", "1", "L", "S", "x")),
        Err(ScheduleError::Parse)
    ));
    assert!(matches!(
        raw_to_days(vec![record("2025-01-06", "1", "L", "S", "300")]),
        Err(ScheduleError::Parse)
    ));
}

#[test]
fn non_numeric_lesson_number_fails_the_run() {
    let recs = vec![
        record("2025-01-06", "1", "Lecture", "Algebra", "0"),
        record("2025-01-07", "abc", "Lecture", "Algebra", "0"),
    ];
    assert!(matches!(raw_to_days(recs), Err(ScheduleError::Parse)));
}

#[test]
fn parse_error_wins_over_date_error() {
    let recs = vec![
        record("2025-13-06", "1", "Lecture", "Algebra", "0"),
        record("2025-01-07", "x", "Lecture", "Algebra", "0"),
    ];
    assert!(matches!(raw_to_days(recs), Err(ScheduleError::Parse)));
}

#[test]
fn bad_dates_are_date_errors() {
    for bad in ["2025-02-30", "2023-02-29", "2025-13-01", "2025-00-10", "2025-01", "2025-01-06-01", "2025/01/06", "", "2025-01-x"] {
        assert!(
            matches!(raw_to_days(vec![record(bad, "1", "L", "S", "0")]), Err(ScheduleError::DateParse)),
            "{bad}"
        );
    }
}

#[test]
fn leap_day_is_a_date() {
    let days = raw_to_days(vec![record("2024-02-29", "1", "L", "S", "0")]).unwrap();
    assert_eq!(days[0].date, date(2024, 2, 29));
    assert_eq!(days[0].day_of_week, 4);
}

#[test]
fn records_group_by_date_in_ascending_order() {
    let recs = vec![
        record("2025-01-07", "2", "Lecture", "Algebra", "0"),
        record("2025-01-06", "1", "Lab", "Physics", "1"),
        record("2025-01-07", "1", "Seminar", "History", "2"),
    ];
    let days = raw_to_days(recs).unwrap();
    assert_eq!(dates_of(&days), vec![date(2025, 1, 6), date(2025, 1, 7)]);
    assert_eq!(days[0].day_of_week, 1);
    assert_eq!(days[1].day_of_week, 2);
    assert_eq!(days[0].lessons.len(), 1);
    assert_eq!(days[0].lessons[0].title, "Lab Physics, subgroup 1");
    let titles: Vec<&str> = days[1].lessons.iter().map(|l| l.title.as_str()).collect();
    assert_eq!(titles, vec!["Lecture Algebra", "Seminar History, subgroup 2"]);
    let positions: Vec<u8> = days[1].lessons.iter().map(|l| l.position).collect();
    assert_eq!(positions, vec![2, 1]);
}

#[test]
fn two_weeks_from_three_dates() {
    let recs = vec![
        record("2025-01-13", "1", "Lecture", "Algebra", "0"),
        record("2025-01-06", "1", "Lecture", "Algebra", "0"),
        record("2025-01-07", "1", "Lecture", "Algebra", "0"),
    ];
    let weeks = days_to_weeks(raw_to_days(recs).unwrap()).unwrap();
    assert_eq!(weeks.len(), 2);
    assert_eq!(dates_of(&weeks[0]), vec![date(2025, 1, 6), date(2025, 1, 7)]);
    assert_eq!(dates_of(&weeks[1]), vec![date(2025, 1, 13)]);
    assert_eq!(weeks[0][0].day_of_week, 1);
    assert_eq!(weeks[0][1].day_of_week, 2);
    assert_eq!(weeks[1][0].day_of_week, 1);
}

#[test]
fn sunday_closes_the_week() {
    let recs = vec![
        record("2025-01-08", "1", "L", "S", "0"),
        record("2025-01-12", "1", "L", "S", "0"),
        record("2025-01-13", "1", "L", "S", "0"),
    ];
    let days = raw_to_days(recs).unwrap();
    assert_eq!(days[1].day_of_week, 7);
    let weeks = days_to_weeks(days).unwrap();
    assert_eq!(dates_of(&weeks[0]), vec![date(2025, 1, 8), date(2025, 1, 12)]);
    assert_eq!(dates_of(&weeks[1]), vec![date(2025, 1, 13)]);
}

#[test]
fn a_skipped_week_leaves_no_empty_week() {
    let recs = vec![
        record("2025-01-06", "1", "L", "S", "0"),
        record("2025-01-20", "1", "L", "S", "0"),
        record("2025-01-22", "1", "L", "S", "0"),
    ];
    let weeks = days_to_weeks(raw_to_days(recs).unwrap()).unwrap();
    assert_eq!(weeks.len(), 2);
    assert_eq!(dates_of(&weeks[0]), vec![date(2025, 1, 6)]);
    assert_eq!(dates_of(&weeks[1]), vec![date(2025, 1, 20), date(2025, 1, 22)]);
}

#[test]
fn week_spans_a_year_end() {
    let recs = vec![
        record("2024-12-30", "1", "L", "S", "0"),
        record("2025-01-05", "1", "L", "S", "0"),
    ];
    let weeks = days_to_weeks(raw_to_days(recs).unwrap()).unwrap();
    assert_eq!(weeks.len(), 1);
    assert_eq!(dates_of(&weeks[0]), vec![date(2024, 12, 30), date(2025, 1, 5)]);
}

#[test]
fn empty_input_gives_no_days_and_no_weeks() {
    let days = raw_to_days(Vec::new()).unwrap();
    assert!(days.is_empty());
    assert!(matches!(days_to_weeks(days), Err(ScheduleError::EmptyInput)));
}

#[test]
fn weeks_concatenate_to_the_days() {
    let stamps = ["2025-01-06", "2025-01-09", "2025-01-14", "2025-01-15", "2025-02-03"];
    let recs: Vec<RawLesson> = stamps.iter().map(|s| record(s, "1", "L", "S", "0")).collect();
    let days = raw_to_days(recs).unwrap();
    let expected = dates_of(&days);
    let weeks = days_to_weeks(days).unwrap();
    let flat: Vec<CalendarDate> = weeks.iter().flat_map(|w| w.iter().map(|d| d.date)).collect();
    assert_eq!(flat, expected);
    assert_eq!(weeks.len(), 3);
}

#[test]
fn splitting_again_gives_the_same_weeks() {
    let stamps = ["2025-03-03", "2025-03-04", "2025-03-11", "2025-03-16", "2025-03-17"];
    let recs: Vec<RawLesson> = stamps.iter().map(|s| record(s, "1", "L", "S", "0")).collect();
    let weeks = days_to_weeks(raw_to_days(recs).unwrap()).unwrap();
    let shape: Vec<Vec<CalendarDate>> = weeks.iter().map(|w| dates_of(w)).collect();
    let flat: Vec<Day> = weeks.into_iter().flatten().collect();
    let again = days_to_weeks(flat).unwrap();
    let shape_again: Vec<Vec<CalendarDate>> = again.iter().map(|w| dates_of(w)).collect();
    assert_eq!(shape_again, shape);
    assert_eq!(shape.len(), 3);
}

#[test]
fn dates_sort_as_strings() {
    let recs = vec![
        record("2025-9-30", "1", "L", "S", "0"),
        record("2025-10-01", "1", "L", "S", "0"),
    ];
    let days = raw_to_days(recs).unwrap();
    assert_eq!(dates_of(&days), vec![date(2025, 10, 1), date(2025, 9, 30)]);
}

#[test]
fn equal_date_strings_share_one_day() {
    let recs = vec![
        record("2025-01-06", "1", "A", "One", "0"),
        record("2025-01-08", "1", "B", "Two", "0"),
        record("2025-01-06", "2", "C", "Three", "0"),
        record("2025-01-08", "3", "D", "Four", "0"),
        record("2025-01-06", "4", "E", "Five", "0"),
    ];
    let days = raw_to_days(recs).unwrap();
    assert_eq!(days.len(), 2);
    let first: Vec<&str> = days[0].lessons.iter().map(|l| l.title.as_str()).collect();
    let second: Vec<&str> = days[1].lessons.iter().map(|l| l.title.as_str()).collect();
    assert_eq!(first, vec!["A One", "C Three", "E Five"]);
    assert_eq!(second, vec!["B Two", "D Four"]);
    assert_eq!(days[1].day_of_week, 3);
}
