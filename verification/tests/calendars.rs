use chrono::TimeZone;
use infoscreen::agenda::{self, Agenda, Calendar, Event, ItemError, Task, Zones};
use infoscreen::clock::{DateTime, Instant};
use infoscreen::color::Color;
use infoscreen::date::Date;
use infoscreen::ical::{self, Property};
use infoscreen::rows::{self, Row, RowError, Rows};

const FILE: &str = "BEGIN:VCALENDAR\r\nVERSION:2.0\r\nX-WR-CALNAME:Fachschaft (FSIM)\r\n\
X-APPLE-CALENDAR-COLOR:#112233\r\n\
BEGIN:VEVENT\r\nSUMMARY:Sum\r\n mer\r\nLOCATION:K001\r\nDTSTART:20240501T080000Z\r\n\
DTEND:20240501T100000Z\r\nEND:VEVENT\r\n\
BEGIN:VEVENT\r\nSUMMARY:Day\r\nDTSTART;VALUE=DATE:20240502\r\nDTEND;VALUE=DATE:20240503\r\nEND:VEVENT\r\n\
BEGIN:VEVENT\r\nSUMMARY:Zoned\r\nDTSTART;TZID=Europe/Berlin:20240501T120000\r\n\
DTEND;TZID=Europe/Berlin:20240501T130000\r\nEND:VEVENT\r\n\
BEGIN:VEVENT\r\nSUMMARY:Float\r\nDTSTART:20240501T090000\r\nDTEND:20240501T093000\r\nEND:VEVENT\r\n\
BEGIN:VEVENT\r\nDTSTART:20240501T080000Z\r\nDTEND:20240501T100000Z\r\nEND:VEVENT\r\n\
BEGIN:VEVENT\r\nSUMMARY:Endless\r\nDTSTART:20240501T080000Z\r\nEND:VEVENT\r\n\
BEGIN:VTODO\r\nSUMMARY:Task\r\nDUE:20240601T000000Z\r\nPRIORITY:3\r\nPERCENT-COMPLETE:40\r\n\
COMPLETED:20240502T120000Z\r\nEND:VTODO\r\n\
BEGIN:VTODO\r\nSUMMARY:Plain\r\nPRIORITY:11\r\nCOMPLETED:20240502T120000\r\nEND:VTODO\r\n\
BEGIN:VTODO\r\nPRIORITY:1\r\nEND:VTODO\r\n\
END:VCALENDAR\r\n";

fn utc(y: i32, m: u32, d: u32, h: u32) -> i64 {
    chrono::Utc.with_ymd_and_hms(y, m, d, h, 0, 0).unwrap().timestamp()
}

fn local(y: i32, m: u32, d: u32, h: u32, min: u32) -> i64 {
    chrono::Local.with_ymd_and_hms(y, m, d, h, min, 0).single().unwrap().timestamp()
}

fn property(key: &str, value: &str) -> Property {
    Property { key: key.to_string(), value: value.to_string(), tzid: None, kind: None }
}

fn at(secs: i64) -> Instant {
    Instant { secs, nanos: 0 }
}

const NO_ZONES: Zones = Zones { start: None, end: None, completed: None };

fn event(summary: &str, start: i64, end: i64) -> Event {
    Event {
        summary: summary.to_string(),
        organizer: "o".to_string(),
        location: "l".to_string(),
        color: Color { argb: 5 },
        time_start: at(start),
        time_end: at(end),
        categories: vec!["a".to_string(), "b".to_string()],
    }
}

fn task(summary: &str, due: Option<i64>, priority: Option<u32>, start: Option<i64>) -> Task {
    Task {
        summary: summary.to_string(),
        organizer: "o".to_string(),
        color: Color { argb: 5 },
        time_start: start.map(at),
        time_due: due.map(at),
        priority,
        completed: None,
        progress: 7,
    }
}

#[test]
fn events_of_a_file_are_read() {
    let calendar = Calendar::read(FILE).unwrap();
    let rows: Vec<_> = calendar.events.iter().map(|e| (e.summary.as_str(), e.time_start.secs, e.time_end.secs)).collect();
    assert_eq!(rows, vec![
        ("Summer", utc(2024, 5, 1, 8), utc(2024, 5, 1, 10)),
        ("Day", local(2024, 5, 2, 0, 0), local(2024, 5, 3, 0, 0)),
        ("Zoned", utc(2024, 5, 1, 10), utc(2024, 5, 1, 11)),
        ("Float", local(2024, 5, 1, 9, 0), local(2024, 5, 1, 9, 30)),
    ]);
    assert_eq!(calendar.events[0].location, "K001");
    assert_eq!(calendar.events[1].location, "");
}

#[test]
fn items_have_the_name_and_color_of_their_calendar() {
    let calendar = Calendar::read(FILE).unwrap();
    assert!(calendar.events.iter().all(|e| e.organizer == "Fachschaft" && e.color.argb == 0xFF112233));
    assert!(calendar.tasks.iter().all(|t| t.organizer == "Fachschaft" && t.color.argb == 0xFF112233));
    let bare = Calendar::read("BEGIN:VCALENDAR\nBEGIN:VTODO\nSUMMARY:x\nEND:VTODO\nEND:VCALENDAR\n").unwrap();
    assert_eq!(bare.tasks[0].organizer, "");
    assert_eq!(bare.tasks[0].color.argb, 0xFFFFFFFF);
}

#[test]
fn tasks_of_a_file_are_read() {
    let calendar = Calendar::read(FILE).unwrap();
    assert_eq!(calendar.tasks.len(), 2);
    let t = &calendar.tasks[0];
    assert_eq!(t.summary, "Task");
    assert_eq!(t.time_due, Some(at(utc(2024, 6, 1, 0))));
    assert_eq!(t.time_start, None);
    assert_eq!(t.priority, Some(3));
    assert_eq!(t.progress, 40);
    assert_eq!(t.completed, Some(at(utc(2024, 5, 2, 12))));
    let t = &calendar.tasks[1];
    assert_eq!(t.priority, None);
    assert_eq!(t.progress, 0);
    assert_eq!(t.completed, Some(at(local(2024, 5, 2, 12, 0))));
}

#[test]
fn files_that_cannot_be_read_are_errors() {
    let file = "BEGIN:VCALENDAR\r\nEND:VEVENT\r\n";
    let e = Calendar::read(file).unwrap_err();
    assert!(e.starts_with("failed to parse calendar: error"), "{e}");
    let e = Rows::read(file).unwrap_err();
    assert!(e.starts_with("failed to parse calendar: error"), "{e}");
}

#[test]
fn files_without_components_are_empty_calendars() {
    let calendar = Calendar::read("no calendar").unwrap();
    assert!(calendar.events.is_empty() && calendar.tasks.is_empty());
    let rows = Rows::read("").unwrap();
    assert!(rows.events.is_empty() && rows.tasks.is_empty());
}

#[test]
fn events_are_made_of_properties() {
    let p = vec![
        property("SUMMARY", "S"),
        property("CATEGORIES", "a,b"),
        property("X-WR-CALNAME", "cal"),
        property("X-APPLE-CALENDAR-COLOR", "#01020304"),
        property("DTSTART", "20240501T080000Z"),
        property("DTEND", "20240501T090000"),
        property("SUMMARY", "second"),
    ];
    assert_eq!(Event::try_from(&p, NO_ZONES).err(), Some(ItemError::EndTime));
    let zone = DateTime { at: at(99), offset: 0 };
    let e = Event::try_from(&p, Zones { start: None, end: Some(zone), completed: None }).unwrap();
    assert_eq!(e.summary, "S");
    assert_eq!(e.organizer, "cal");
    assert_eq!(e.categories, vec!["a", "b"]);
    assert_eq!(e.color.argb, 0x01020304);
    assert_eq!(e.time_start, at(utc(2024, 5, 1, 8)));
    assert_eq!(e.time_end, at(99));
}

#[test]
fn items_that_cannot_be_read_are_errors() {
    assert_eq!(Event::try_from(&vec![], NO_ZONES).err(), Some(ItemError::Summary));
    let p = vec![property("SUMMARY", "S"), property("DTSTART", "nonsense")];
    assert_eq!(Event::try_from(&p, NO_ZONES).err(), Some(ItemError::StartTime));
    assert_eq!(Task::try_from(&vec![], NO_ZONES).err(), Some(ItemError::Summary));
    assert_eq!(ItemError::Summary.message(), "summary missing");
    assert_eq!(ItemError::StartTime.message(), "missing start time");
    assert_eq!(ItemError::EndTime.message(), "missing end time");
}

#[test]
fn tasks_are_made_of_properties() {
    let p = vec![
        property("SUMMARY", "S"),
        property("PRIORITY", "10"),
        property("PERCENT-COMPLETE", "256"),
        property("COMPLETED", "20240502T120000"),
        property("DTSTART", "20240501T080000Z"),
    ];
    let t = Task::try_from(&p, NO_ZONES).unwrap();
    assert_eq!((t.priority, t.progress, t.completed), (Some(10), 0, None));
    assert_eq!(t.time_start, Some(at(utc(2024, 5, 1, 8))));
    assert_eq!(t.organizer, "");
    assert_eq!(t.color, Color::unset());
    let zone = DateTime { at: at(5), offset: 0 };
    let t = Task::try_from(&p, Zones { start: None, end: None, completed: Some(zone) }).unwrap();
    assert_eq!(t.completed, Some(at(5)));
}

#[test]
fn unknown_zones_give_no_time() {
    let mut p = property("DTSTART", "20240501T080000");
    p.tzid = Some("Nowhere/Land".to_string());
    assert_eq!(ical::find_time(&vec![p], "DTSTART", None), None);
    let mut p = property("DTSTART", "20240501");
    assert_eq!(ical::find_time(&vec![p], "DTSTART", None), None);
    p = property("DTSTART", "20240501");
    p.kind = Some("DATE".to_string());
    assert!(ical::find_when(&vec![p], "DTSTART").is_some());
}

#[test]
fn events_are_shown() {
    let shown = event("s", 1_700_000_000, 1 << 32).to_ui();
    assert_eq!(shown.categories, "a, b");
    assert_eq!((shown.time_start, shown.time_end), (1_700_000_000, 0));
    assert_eq!((shown.summary.as_str(), shown.location.as_str(), shown.organizer.as_str()), ("s", "l", "o"));
    assert_eq!(shown.color.argb, 5);
}

#[test]
fn tasks_are_shown() {
    let shown = task("t", Some(9), Some(4), None).to_ui();
    assert_eq!((shown.time_due, shown.time_start, shown.priority), (9, 0, 4));
    assert!(!shown.complete);
    assert_eq!(shown.progress, 7);
    assert_eq!(task("t", None, None, None).to_ui().priority, i32::MAX);
}

#[test]
fn the_agenda_keeps_what_is_not_over() {
    let mut a = Agenda::new();
    let mut done = task("done", None, None, None);
    done.completed = Some(at(1000));
    let mut later = task("later", None, None, None);
    later.completed = Some(at(1000 + 3601));
    let calendar = Calendar {
        events: vec![event("b", 60, 100), event("old", 0, 50), event("a", 55, 51)],
        tasks: vec![done, later, task("open", Some(1), None, None)],
    };
    a.add_calendar(calendar, at(50), at(1000), 60);
    let more = Calendar { events: vec![event("c", 60, 99)], tasks: vec![] };
    a.add_calendar(more, at(50), at(1000), 60);
    let (events, tasks) = a.show();
    let names: Vec<_> = events.iter().map(|e| e.summary.as_str()).collect();
    assert_eq!(names, vec!["a", "b", "c"]);
    let names: Vec<_> = tasks.iter().map(|t| t.summary.as_str()).collect();
    assert_eq!(names, vec!["open", "later"]);
}

#[test]
fn tasks_are_shown_by_urgency() {
    let mut a = Agenda::new();
    let tasks = vec![
        task("none1", None, Some(1), Some(1)),
        task("none2", None, None, None),
        task("late", Some(20), Some(1), None),
        task("noprio", Some(10), None, Some(1)),
        task("noprio2", Some(10), None, Some(0)),
        task("low", Some(10), Some(9), None),
        task("high", Some(10), Some(1), None),
        task("highstart", Some(10), Some(1), Some(3)),
        task("highearly", Some(10), Some(1), Some(2)),
    ];
    a.add_calendar(Calendar { events: vec![], tasks }, at(0), at(0), 0);
    let (_, shown) = a.show();
    let names: Vec<_> = shown.iter().map(|t| t.summary.as_str()).collect();
    assert_eq!(names, vec!["highearly", "highstart", "high", "low", "noprio", "noprio2", "late", "none1", "none2"]);
}

#[test]
fn events_are_over_before_yesterday() {
    let now = infoscreen::clock::sec_to_dt(1_714_564_800);
    let deadline = agenda::deadline(now).unwrap();
    let (y, m, d) = now.date().plus_days(-1).ymd();
    assert_eq!(deadline.at.secs, local(y, m, d, 0, 0));
    assert!(deadline.is_midnight());
}

#[test]
fn rows_of_a_file_are_read() {
    let r = Rows::read(FILE).unwrap();
    let events: Vec<_> = r.events.iter().map(|e| (e.summary.as_str(), e.time_start as i64, e.time_end as i64)).collect();
    assert_eq!(events, vec![
        ("Summer", utc(2024, 5, 1, 8), utc(2024, 5, 1, 10)),
        ("Day", local(2024, 5, 2, 0, 0), local(2024, 5, 3, 0, 0)),
        ("Zoned", utc(2024, 5, 1, 10), utc(2024, 5, 1, 11)),
        ("Endless", utc(2024, 5, 1, 8), 0),
    ]);
    assert!(r.tasks.is_empty());
}

#[test]
fn rows_are_made_of_properties() {
    let mut p = vec![property("SUMMARY", "S"), property("CATEGORIES", "a,b"), property("LOCATION", "L")];
    assert_eq!(Row::try_from(&p, None, None).err(), Some(RowError::StartTime));
    p.push(property("DTSTART", "20240501T080000"));
    assert_eq!(Row::try_from(&p, None, None).err(), Some(RowError::ToUtc));
    p[3] = property("DTSTART", "20240501");
    p[3].kind = Some("DATE".to_string());
    assert_eq!(Row::try_from(&p, None, None).err(), Some(RowError::ToDateTime));
    let zone = DateTime { at: at(77), offset: 0 };
    let row = Row::try_from(&p, Some(zone), None).unwrap();
    assert_eq!((row.summary.as_str(), row.location.as_str(), row.categories.as_str()), ("S", "L", "a, b"));
    assert_eq!((row.time_start, row.time_end), (77, 0));
    assert_eq!(row.organiser, "");
    assert_eq!(Row::try_from(&vec![], None, None).err(), Some(RowError::Summary));
    assert_eq!(RowError::Summary.message(), "summary missing");
    assert_eq!(RowError::StartTime.message(), "missing start time");
    assert_eq!(RowError::ToUtc.message(), "failed to convert datetime to UTC");
    assert_eq!(RowError::ToDateTime.message(), "failed to convert date to datetime");
}

#[test]
fn recent_rows_are_listed_by_start() {
    let row = |summary: &str, start: i32, end: i32| Row {
        summary: summary.to_string(),
        location: String::new(),
        categories: String::new(),
        time_start: start,
        time_end: end,
        organiser: String::new(),
    };
    let today = Date { days: 2 };
    let list = rows::add_recent(vec![row("x", 9, 0)], vec![row("old", 1, 86400), row("new", 2, 86401)], today);
    let sorted = rows::sort_rows(list);
    let names: Vec<_> = sorted.iter().map(|r| r.summary.as_str()).collect();
    assert_eq!(names, vec!["new", "x"]);
}

#[test]
fn failures_on_short_lines_are_told_in_files_with_long_ones() {
    let line = "X".repeat(100_000);
    for (bad, at) in [
        (format!("BEGIN:VCALENDAR\r\nX-NOTE:{line}\r\nEND:VEVENT{line}\r\n"), "line 3"),
        (format!("BEGIN:VCALENDAR\r\nX-NOTE:{line} BEGIN:VEVENT \r\nEND:VEVENT\r\n"), "line 3"),
        (format!("BEGIN:A\nX:{line}BEGIN:B   \nEND\n"), "line 3"),
        (format!("BEGIN:A\nBEGIN:B\nX:{line} \nEND:A\nX:{line}\n"), "line 4"),
    ] {
        let why = Calendar::read(&bad).unwrap_err();
        assert!(why.starts_with(&format!("failed to parse calendar: error: 0: at {at}")), "{}", &why[..80]);
    }
}

#[test]
fn files_that_fail_on_long_lines_are_errors() {
    let line = "X".repeat(100_000);
    let long = "failed to parse calendar: error: in a file with long lines";
    let fails = |text: &str| Calendar::read(text).unwrap_err();
    assert_eq!(fails(&format!("BEGIN:A\nBEGIN:{line}\nEND:{line}BEGIN:Y\nEND:Z\n")), long);
    assert_eq!(fails(&format!("BEGIN:A\n{line} END\n")), long);
    assert_eq!(fails(&format!("BEGIN:A\n{} END\n", &line[..65_534])), long);
    let told = fails(&format!("BEGIN:A\n{} END\n", &line[..65_533]));
    assert!(told.starts_with("failed to parse calendar: error: 0: at line 2"));
    let wide = "\u{fc}".repeat(40_000);
    assert_eq!(fails(&format!("BEGIN:A\n{wide} END\n")), long);
    let good = format!("BEGIN:VCALENDAR\r\nX-WR-CALNAME:{line}\r\nBEGIN:VTODO\r\nSUMMARY:x\r\nEND:VTODO\r\nEND:VCALENDAR\r\n");
    assert_eq!(Calendar::read(&good).unwrap().tasks[0].organizer.len(), 100_000);
}
