use chrono::TimeZone;
use infoscreen::clock::{DateTime, Instant};
use infoscreen::date::Date;
use infoscreen::untis::{self, Class, Department, Lecture, LectureError, Params, RawLecture, Room, SchoolYear, Session, SubId, Subject, TimetableType, UntisData};

fn class(id: u32, name: &str, active: bool, did: Option<u32>) -> Class {
    Class { id, name: name.to_string(), long_name: String::new(), active, did }
}

fn subject(id: u32, name: &str, long_name: &str, active: bool) -> Subject {
    Subject { id, name: name.to_string(), long_name: long_name.to_string(), active }
}

fn room(id: u32, name: &str, active: bool) -> Room {
    Room {
        id,
        name: name.to_string(),
        long_name: String::new(),
        building: String::new(),
        active,
        did: None,
    }
}

fn data() -> UntisData {
    UntisData::collect(
        7,
        vec![class(1, "IN1", true, Some(7)), class(2, "MB1", true, Some(8)), class(3, "IN2", false, Some(7)), class(4, "IN3", true, None)],
        vec![subject(10, "IM_MA1", "Mathematik", true), subject(11, "OLD", "Alt", false)],
        vec![room(20, "K002", true), room(21, "K001", true), room(22, "K999", false)],
    )
}

fn lecture(id: u32, subjects: &[u32], rooms: &[u32]) -> Lecture {
    Lecture {
        id,
        date: Date::from_ymd(2024, 5, 1).unwrap(),
        start_time: 8 * 3600,
        end_time: 9 * 3600 + 1800,
        class_ids: vec![1],
        lecturer_ids: vec![],
        subject_ids: subjects.to_vec(),
        room_ids: rooms.to_vec(),
    }
}

fn at(secs: i64) -> Option<DateTime> {
    Some(DateTime { at: Instant { secs, nanos: 0 }, offset: 0 })
}

#[test]
fn dates_are_read_from_numbers() {
    assert_eq!(untis::parse_untis_date(20240229), Date::from_ymd(2024, 2, 29).unwrap());
    for code in [20230229, 20231301, 0] {
        assert!(!untis::is_untis_date(code));
    }
    assert!(untis::is_untis_date(101));
    assert_eq!(untis::parse_untis_date(101), Date::from_ymd(0, 1, 1).unwrap());
    let wrapped = 4294960101u32;
    assert_eq!(untis::parse_untis_date(wrapped), Date::from_ymd((wrapped as i32) / 10000, 1, 1).unwrap());
}

#[test]
fn numbers_of_dates_read_back() {
    for (y, m, d) in [(0, 1, 1), (1970, 12, 31), (2024, 2, 29), (214748, 12, 31)] {
        let date = Date::from_ymd(y, m, d).unwrap();
        let code = untis::date_number(date);
        assert_eq!(code, y as u32 * 10000 + m * 100 + d);
        assert_eq!(untis::parse_untis_date(code), date);
    }
    // Later years need the bit that is taken as the sign.
    let late = Date::from_ymd(214749, 1, 1).unwrap();
    assert_ne!(untis::parse_untis_date(untis::date_number(late)), late);
}

#[test]
fn times_are_read_from_numbers() {
    for (code, second) in [(815, 29700), (5, 300), (0, 0), (2359, 86340)] {
        assert!(untis::is_untis_time(code));
        assert_eq!(untis::parse_untis_time(code), second);
    }
    for code in [2400, 860, 4294967295] {
        assert!(!untis::is_untis_time(code));
    }
}

#[test]
fn lectures_are_read_from_numbers() {
    let mut raw = RawLecture {
        id: 5,
        date: 20240501,
        start_time: 815,
        end_time: 945,
        classes: vec![SubId { id: 1 }],
        lecturers: vec![],
        subjects: vec![SubId { id: 2 }, SubId { id: 3 }],
        rooms: vec![SubId { id: 4 }],
    };
    let l = Lecture::read(&raw).unwrap();
    assert_eq!(l.id, 5);
    assert_eq!(l.date, Date::from_ymd(2024, 5, 1).unwrap());
    assert_eq!((l.start_time, l.end_time), (29700, 35100));
    assert_eq!(l.class_ids, vec![1]);
    assert!(l.lecturer_ids.is_empty());
    assert_eq!(l.subject_ids, vec![2, 3]);
    assert_eq!(l.room_ids, vec![4]);
    raw.end_time = 999;
    assert!(Lecture::read(&raw).is_none());
    raw.end_time = 945;
    raw.start_time = 2500;
    assert!(Lecture::read(&raw).is_none());
    raw.start_time = 815;
    raw.date = 20240532;
    assert!(Lecture::read(&raw).is_none());
}

#[test]
fn school_years_are_read_from_numbers() {
    let y = SchoolYear::read(1, "SS24".to_string(), 20240315, 20240930).unwrap();
    assert_eq!(y.name, "SS24");
    assert_eq!(y.start_date.ymd(), (2024, 3, 15));
    assert_eq!(y.end_date.ymd(), (2024, 9, 30));
    assert!(SchoolYear::read(1, String::new(), 20240315, 20240931).is_none());
}

#[test]
fn requests_name_their_methods() {
    let (session, login) = Session::create("school", "user", "word");
    assert_eq!(session.school(), "school");
    assert_eq!(login.method, "authenticate");
    assert!(matches!(&login.params, Params::Login { user, password } if user == "user" && password == "word"));
    assert_eq!(Session::url(), "https://kephiso.webuntis.com/WebUntis/jsonrpc.do");
    let plain = [
        (session.departments(), "getDepartments"),
        (session.rooms(), "getRooms"),
        (session.school_years(), "getSchoolyears"),
        (session.subjects(), "getSubjects"),
        (session.classes(), "getKlassen"),
    ];
    for (request, method) in plain {
        assert_eq!(request.method, method);
        assert_eq!(request.id, 1);
        assert!(matches!(request.params, Params::Nothing));
    }
}

#[test]
fn timetables_are_asked_for_days() {
    let (session, _) = Session::create("s", "u", "p");
    let from = Date::from_ymd(2024, 5, 1).unwrap();
    let to = Date::from_ymd(2024, 12, 31).unwrap();
    let request = session.timetable(TimetableType::Room, 42, from, to);
    assert_eq!(request.method, "getTimetable");
    match request.params {
        Params::Timetable { kind, id, start_date, end_date } => {
            assert_eq!((kind, id, start_date, end_date), (4, 42, 20240501, 20241231));
        }
        _ => panic!("no timetable"),
    }
    let codes = [TimetableType::Class, TimetableType::Teacher, TimetableType::Subject, TimetableType::Student];
    assert_eq!(codes.map(|t| t.code()), [1, 2, 3, 5]);
}

#[test]
fn refusals_are_put_in_words() {
    assert_eq!(Session::refusal(-8520, "not authenticated"), "request failed: -8520 - not authenticated");
}

#[test]
fn the_department_is_found_by_name() {
    let departments = vec![
        Department { id: 3, name: "M".to_string() },
        Department { id: 7, name: "IM".to_string() },
        Department { id: 9, name: "IM".to_string() },
    ];
    assert_eq!(untis::find_department(&departments, "IM"), Some(7));
    assert_eq!(untis::find_department(&departments, "X"), None);
}

#[test]
fn only_active_items_of_the_department_are_kept() {
    let d = data();
    assert_eq!(d.class_ids(), vec![1]);
    assert_eq!(d.classes[&1].name, "IN1");
    assert!(d.subjects.contains_key(&10) && !d.subjects.contains_key(&11));
    assert!(d.rooms.contains_key(&20) && d.rooms.contains_key(&21) && !d.rooms.contains_key(&22));
    let twice = UntisData::collect(7, vec![], vec![subject(1, "a", "", true), subject(1, "b", "", true)], vec![]);
    assert_eq!(twice.subjects[&1].name, "b");
    let mut ids = UntisData::collect(
        1,
        (0..50).map(|i| class(i, "c", true, Some(1))).collect(),
        vec![],
        vec![],
    )
    .class_ids();
    ids.sort();
    assert_eq!(ids, (0..50).collect::<Vec<u32>>());
}

#[test]
fn lectures_are_entered_with_their_subject_and_rooms() {
    let d = data();
    let l = lecture(100, &[10], &[20, 99, 21, 22]);
    let table = untis::enter_lecture(vec![], &d, "IM", "IN1", &l, at(1000), at(2000)).unwrap();
    assert_eq!(table.len(), 1);
    let (id, e) = &table[0];
    assert_eq!(*id, 100);
    assert_eq!(e.title, "Mathematik");
    assert_eq!(e.abbr, "MA1");
    assert!(!e.is_exam);
    assert_eq!(e.time_start.at.secs, 1000);
    assert_eq!(e.time_end.secs, 2000);
    assert_eq!(*e.locations.names(), vec!["K001", "K002"]);
    assert_eq!(*e.courses.names(), vec!["IN1"]);
}

#[test]
fn a_lecture_of_several_courses_has_one_row() {
    let d = data();
    let a = lecture(100, &[10], &[20]);
    let b = lecture(100, &[10], &[21]);
    let table = untis::enter_lecture(vec![], &d, "IM", "IN2", &a, at(1000), at(2000)).unwrap();
    let table = untis::enter_lecture(table, &d, "IM", "IN1", &b, at(5000), at(6000)).unwrap();
    let table = untis::enter_lecture(table, &d, "IM", "IN1", &lecture(101, &[10], &[]), at(1), at(2)).unwrap();
    let entries = untis::table_entries(table);
    assert_eq!(entries.len(), 2);
    assert_eq!(entries[0].time_start.at.secs, 1000);
    assert_eq!(*entries[0].courses.names(), vec!["IN1", "IN2"]);
    assert_eq!(*entries[0].locations.names(), vec!["K001", "K002"]);
    assert!(entries[1].locations.names().is_empty());
}

#[test]
fn the_plan_of_several_courses_lists_what_was_seen() {
    let d = data();
    let seen = [
        ("IN2", vec![lecture(100, &[10], &[20]), lecture(101, &[10], &[21])]),
        ("IN1", vec![lecture(100, &[10], &[21, 99]), lecture(102, &[], &[20])]),
        ("IN2", vec![lecture(100, &[10], &[20])]),
    ];
    let mut table = vec![];
    for (course, lectures) in &seen {
        for l in lectures {
            let start = at(1000 * table.len() as i64);
            table = untis::enter_lecture(table, &d, "IM", course, l, start, at(9000)).unwrap();
        }
    }
    let rows: Vec<_> = table.iter().map(|(id, e)| (*id, e.courses.names().join(" "), e.locations.names().join(" "), e.time_start.at.secs)).collect();
    assert_eq!(rows, vec![
        (100, "IN1 IN2".to_string(), "K001 K002".to_string(), 0),
        (101, "IN2".to_string(), "K001".to_string(), 1000),
    ]);
}

#[test]
fn lectures_without_a_subject_are_passed_over() {
    let table = untis::enter_lecture(vec![], &data(), "IM", "IN1", &lecture(1, &[], &[20]), None, None);
    assert!(table.unwrap().is_empty());
}

#[test]
fn lectures_that_cannot_be_entered_are_errors() {
    let d = data();
    let enter = |l: &Lecture, s, e| untis::enter_lecture(vec![], &d, "IM", "IN1", l, s, e).err();
    assert_eq!(enter(&lecture(1, &[11], &[]), at(1), at(2)), Some(LectureError::UnknownSubject));
    assert_eq!(enter(&lecture(1, &[10], &[]), None, None), Some(LectureError::StartTime));
    assert_eq!(enter(&lecture(1, &[10], &[]), at(1), None), Some(LectureError::EndTime));
    assert_eq!(LectureError::StartTime.message(), "failed to convert lecture start time");
    assert_eq!(LectureError::EndTime.message(), "failed to convert lecture end time");
    assert_eq!(LectureError::UnknownSubject.message(), "unknown subject");
}

#[test]
fn lectures_start_on_the_local_clock() {
    let d = data();
    let table = untis::enter_lectures(vec![], &d, "IM", "IN1", &vec![lecture(1, &[10], &[])]).unwrap();
    let start = chrono::Local.with_ymd_and_hms(2024, 5, 1, 8, 0, 0).latest().unwrap();
    let end = chrono::Local.with_ymd_and_hms(2024, 5, 1, 9, 30, 0).latest().unwrap();
    assert_eq!(table[0].1.time_start.at.secs, start.timestamp());
    assert_eq!(table[0].1.time_start.clock(), "08:00");
    assert_eq!(table[0].1.time_end.secs, end.timestamp());
    let bad = vec![lecture(1, &[10], &[]), lecture(2, &[11], &[])];
    assert_eq!(
        untis::enter_lectures(vec![], &d, "IM", "IN1", &bad).err(),
        Some(LectureError::UnknownSubject),
    );
}

#[test]
fn lectures_are_fetched_for_some_days() {
    let today = Date::from_ymd(2024, 5, 1).unwrap();
    let (from, to) = untis::lecture_days(today, -1, 3).unwrap();
    assert_eq!(from.ymd(), (2024, 4, 30));
    assert_eq!(to.ymd(), (2024, 5, 3));
    let last = Date { days: infoscreen::date::MAX_DAY };
    assert_eq!(untis::lecture_days(last, 0, 1), None);
    assert_eq!(untis::lecture_days(last, 1, 0), None);
    let first = Date { days: infoscreen::date::MIN_DAY };
    assert_eq!(untis::lecture_days(first, -1, 5), None);
}
