use infoscreen::clock::{DateTime, Instant, Wait};
use infoscreen::color::ColorSet;
use infoscreen::locale::Locale;
use infoscreen::names::NameSet;
use infoscreen::timetable::{TimeBlock, TimeEntry, TimeEntryColorSet, Timetable};
use infoscreen::watch::{lectures_fetched, ExamWatch, LectureFetch};

const HOUR: i64 = 3600;

fn at(secs: i64) -> DateTime {
    DateTime { at: Instant { secs, nanos: 0 }, offset: 0 }
}

fn names(list: &[&str]) -> NameSet {
    let mut set = NameSet::new();
    set.extend(list.iter().map(|s| s.to_string()).collect());
    set
}

fn entry(abbr: &str, start: i64, end: i64, is_exam: bool) -> TimeEntry {
    TimeEntry {
        title: format!("Title {abbr}"),
        abbr: abbr.to_string(),
        time_start: at(start),
        time_end: Instant { secs: end, nanos: 0 },
        locations: names(&["K001"]),
        courses: names(&["IN1"]),
        is_exam,
    }
}

fn colors() -> TimeEntryColorSet {
    let course = ColorSet { default: 1, map: vec![("^IN".to_string(), 2)] };
    let location = ColorSet { default: 3, map: vec![("^K".to_string(), 4)] };
    TimeEntryColorSet::compile(course, location).unwrap()
}

fn abbrs(block: &TimeBlock) -> Vec<&str> {
    block.entries.iter().map(|e| e.abbr.as_str()).collect()
}

#[test]
fn entries_are_shown_with_colors() {
    let mut e = entry("MA", 0, 1, true);
    e.locations = names(&["X1", "K002"]);
    e.courses = names(&["MB", "IN2"]);
    let shown = e.clone().into_ui(&colors());
    assert_eq!(shown.title, "Title MA");
    assert_eq!(shown.abbr, "MA");
    assert_eq!(shown.lecturers, "");
    assert!(shown.is_exam);
    let tags: Vec<_> = shown.locations.iter().map(|t| (t.title.as_str(), t.color.argb)).collect();
    assert_eq!(tags, vec![("K002", 4), ("X1", 3)]);
    let tags: Vec<_> = shown.courses.iter().map(|t| (t.title.as_str(), t.color.argb)).collect();
    assert_eq!(tags, vec![("IN2", 2), ("MB", 1)]);
}

#[test]
fn entries_without_locations_show_a_stand_in() {
    let mut e = entry("MA", 0, 1, false);
    e.locations = NameSet::new();
    e.courses = NameSet::new();
    let shown = e.into_ui(&colors());
    assert_eq!(shown.locations.len(), 1);
    assert_eq!(shown.locations[0].title, "N/A");
    assert_eq!(shown.locations[0].color.argb, 3);
    assert!(shown.courses.is_empty());
}

#[test]
fn entries_are_grouped_by_their_start() {
    let mut table = Timetable::new();
    let now = at(10 * HOUR);
    let new = vec![
        entry("B", 11 * HOUR, 12 * HOUR, false),
        entry("C", 10 * HOUR, 11 * HOUR, false),
        entry("A", 11 * HOUR, 13 * HOUR, false),
    ];
    let blocks = table.update(new, now, &colors(), &Locale::posix()).unwrap();
    assert_eq!(blocks.len(), 2);
    assert_eq!((blocks[0].time.as_str(), abbrs(&blocks[0])), ("10:00", vec!["C"]));
    assert_eq!((blocks[1].time.as_str(), abbrs(&blocks[1])), ("11:00", vec!["A", "B"]));
    assert_eq!(blocks[0].date, "");
    let total: usize = blocks.iter().map(|b| b.entries.len()).sum();
    assert_eq!(total, 3);
}

#[test]
fn entries_that_are_over_are_dropped_with_all_before_them() {
    let mut table = Timetable::new();
    let new = vec![
        entry("LONG", 1 * HOUR, 20 * HOUR, false),
        entry("PAST", 2 * HOUR, 3 * HOUR, false),
        entry("NEXT", 9 * HOUR, 11 * HOUR, false),
    ];
    let blocks = table.update(new, at(9 * HOUR), &colors(), &Locale::posix()).unwrap();
    assert_eq!(blocks.len(), 1);
    assert_eq!(abbrs(&blocks[0]), vec!["NEXT"]);
    // An entry that ends right now is not over.
    let blocks = table.update(vec![], at(11 * HOUR), &colors(), &Locale::posix()).unwrap();
    assert!(blocks.is_empty());
    assert!(table.update(vec![], at(11 * HOUR + 1), &colors(), &Locale::posix()).is_none());
}

#[test]
fn nothing_is_shown_without_entries() {
    let mut table = Timetable::new();
    assert!(table.update(vec![], at(0), &colors(), &Locale::posix()).is_none());
}

#[test]
fn lectures_are_left_out_after_half_an_hour() {
    let mut table = Timetable::new();
    let new = vec![entry("A", 8 * HOUR, 10 * HOUR, false)];
    let now = at(8 * HOUR + 1800);
    assert_eq!(table.update(new, now, &colors(), &Locale::posix()).unwrap().len(), 1);
    let now = at(8 * HOUR + 1801);
    assert_eq!(table.update(vec![], now, &colors(), &Locale::posix()).unwrap().len(), 0);
}

#[test]
fn exams_are_shown_until_they_are_over() {
    let mut table = Timetable::new();
    let new = vec![entry("A", 8 * HOUR, 10 * HOUR, true), entry("L", 9 * HOUR, 12 * HOUR, false)];
    let now = at(10 * HOUR);
    let blocks = table.update(new, now, &colors(), &Locale::posix()).unwrap();
    assert_eq!(blocks.len(), 2);
    let blocks = table.update(vec![], at(10 * HOUR + 1), &colors(), &Locale::posix()).unwrap();
    // The exam is over, and the lecture that is first now started long ago.
    assert!(blocks.is_empty());
}

#[test]
fn blocks_of_other_days_stand_under_their_date() {
    let mut table = Timetable::new();
    let day = 24 * HOUR;
    let new = vec![
        entry("A", 12 * HOUR, 13 * HOUR, false),
        entry("B", day + 8 * HOUR, day + 9 * HOUR, false),
        entry("C", day + 9 * HOUR, day + 10 * HOUR, false),
        entry("D", 2 * day + 8 * HOUR, 2 * day + 9 * HOUR, false),
    ];
    let blocks = table.update(new, at(11 * HOUR), &colors(), &Locale::posix()).unwrap();
    let dates: Vec<_> = blocks.iter().map(|b| b.date.as_str()).collect();
    assert_eq!(dates, vec!["", "Friday,  2. January", "", "Saturday,  3. January"]);
}

#[test]
fn blocks_ascend_and_keep_all_entries() {
    let mut table = Timetable::new();
    let new = (0..20).map(|i| entry(&format!("E{i}"), ((i * 7) % 5) * HOUR, 30 * HOUR, true)).collect();
    let blocks = table.update(new, at(0), &colors(), &Locale::posix()).unwrap();
    let times: Vec<_> = blocks.iter().map(|b| b.time.as_str()).collect();
    assert_eq!(times, vec!["00:00", "01:00", "02:00", "03:00", "04:00"]);
    assert_eq!(blocks.iter().map(|b| b.entries.len()).sum::<usize>(), 20);
}

#[test]
fn failed_exam_fetches_are_reported_in_times_of_exams() {
    let now = Instant { secs: 10 * HOUR, nanos: 0 };
    let mut watch = ExamWatch::new();
    let step = watch.fetched(None, now);
    assert!(!step.report);
    assert_eq!(step.sleep, Wait::seconds(30));
    let exams = vec![entry("B", 11 * HOUR, 13 * HOUR, true), entry("A", 9 * HOUR, 12 * HOUR, true)];
    let step = watch.fetched(Some(exams), now);
    assert!(watch.is_exam_phase);
    assert_eq!(step.exam_end.unwrap().at.secs, 11 * HOUR);
    assert_eq!(step.sleep, Wait::seconds(3 * 3600));
    let sent: Vec<_> = step.send.unwrap().iter().map(|e| e.abbr.clone()).collect();
    assert_eq!(sent, vec!["A", "B"]);
    let step = watch.fetched(None, now);
    assert!(step.report);
    assert!(step.send.is_none());
    assert!(watch.is_exam_phase);
}

#[test]
fn fetches_without_exams_change_nothing() {
    let now = Instant { secs: 0, nanos: 0 };
    let mut watch = ExamWatch { is_exam_phase: true };
    let step = watch.fetched(Some(vec![]), now);
    assert!(watch.is_exam_phase && !step.report && step.send.is_none() && step.exam_end.is_none());
    assert_eq!(step.sleep, Wait::seconds(30));
}

#[test]
fn exams_that_are_over_end_the_time_of_exams() {
    let mut watch = ExamWatch { is_exam_phase: true };
    let now = Instant { secs: 20 * HOUR, nanos: 0 };
    let step = watch.fetched(Some(vec![entry("A", 9 * HOUR, 12 * HOUR, true)]), now);
    assert!(!watch.is_exam_phase);
    assert_eq!(step.sleep, Wait::seconds(30));
    let end = Instant { secs: 12 * HOUR, nanos: 0 };
    let step = watch.fetched(Some(vec![entry("A", 9 * HOUR, 12 * HOUR, true)]), end);
    assert!(!watch.is_exam_phase);
    assert_eq!(step.sleep, Wait::seconds(0));
}

#[test]
fn lectures_are_fetched_again_when_the_latest_is_over() {
    let now = Instant { secs: 8 * HOUR, nanos: 0 };
    let entries = vec![
        entry("A", 12 * HOUR, 13 * HOUR, false),
        entry("B", 12 * HOUR, 14 * HOUR, false),
        entry("C", 9 * HOUR, 18 * HOUR, false),
    ];
    let step = lectures_fetched(LectureFetch::Times(entries), now);
    assert_eq!(step.sleep, Wait::seconds(6 * 3600));
    assert_eq!(step.send.unwrap().len(), 3);
    assert!(step.keep_base && step.status.is_none());
    let step = lectures_fetched(LectureFetch::Times(vec![]), now);
    assert_eq!(step.sleep, Wait::seconds(30));
}

#[test]
fn failed_lecture_fetches_are_reported() {
    let now = Instant { secs: 0, nanos: 0 };
    let step = lectures_fetched(LectureFetch::BaseFailed("x".to_string()), now);
    assert_eq!(step.status.unwrap(), "failed to load lecture base data: x");
    assert!(!step.keep_base && step.send.is_none());
    let step = lectures_fetched(LectureFetch::TimesFailed("y".to_string()), now);
    assert_eq!(step.status.unwrap(), "failed to load lecture timetable: y");
    assert!(!step.keep_base);
    assert_eq!(step.sleep, Wait::seconds(30));
}

#[test]
fn an_update_without_new_entries_changes_nothing() {
    let mut table = Timetable::new();
    let now = at(9 * HOUR);
    let new = vec![
        entry("PAST", 2 * HOUR, 3 * HOUR, false),
        entry("NEXT", 9 * HOUR, 11 * HOUR, false),
        entry("LAST", 10 * HOUR, 11 * HOUR, false),
    ];
    let first = table.update(new, now, &colors(), &Locale::posix()).unwrap();
    let second = table.update(vec![], now, &colors(), &Locale::posix()).unwrap();
    let shown = |blocks: &Vec<TimeBlock>| -> Vec<String> {
        blocks.iter().map(|b| format!("{} {:?}", b.time, abbrs(b))).collect()
    };
    assert_eq!(shown(&first), shown(&second));
    assert_eq!(first.len(), 2);
}
