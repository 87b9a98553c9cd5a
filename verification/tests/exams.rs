use chrono::TimeZone;
use infoscreen::clock::{DateTime, Instant, MAX_SECS};
use infoscreen::othr_ptp::{read_cell, read_plan, Cell, Faculty, LoginError, PlanError, Session};

fn part(list: &[(&str, Option<&str>)]) -> Vec<(String, Option<String>)> {
    list.iter().map(|(a, b)| (a.to_string(), b.map(|s| s.to_string()))).collect()
}

fn cell(minutes: &str, room: &str, courses: &[&str], lectures: &[(&str, Option<&str>)]) -> Cell {
    let courses: Vec<_> = courses.iter().map(|c| (*c, None)).collect();
    vec![
        part(&[("Fr.&nbsp;08.07., 14:15", None)]),
        part(&[(minutes, None)]),
        part(&[(room, None)]),
        part(&courses),
        part(lectures),
    ]
}

fn at(secs: i64) -> DateTime {
    DateTime { at: Instant { secs, nanos: 0 }, offset: 0 }
}

#[test]
fn faculties_have_numbers() {
    let all = [Faculty::A, Faculty::ANK, Faculty::B, Faculty::BW, Faculty::EI, Faculty::IM, Faculty::M];
    assert_eq!(all.map(|f| f.code()), [1, 2, 3, 4, 5, 6, 7]);
}

#[test]
fn the_first_form_picks_the_faculty() {
    let form = Session::create(Faculty::IM).faculty_form();
    assert_eq!(form.len(), 11);
    let value = |k: &str| form.iter().find(|(n, _)| n == k).map(|(_, v)| v.as_str());
    assert_eq!(value("form:loginGuestProject_input"), Some("6"));
    assert_eq!(value("javax.faces.source"), Some("form:loginGuestProject"));
    assert_eq!(value("javax.faces.behavior.event"), Some("valueChange"));
    assert_eq!(value("form:loginPassword"), Some(""));
    assert_eq!(Session::login_url(), "https://ptp.othr.de/ptp/login/guest.xhtml");
    assert_eq!(Session::rooms_url(), "https://ptp.othr.de/ptp/view/general/rooms.xhtml");
}

#[test]
fn the_second_form_presses_the_button() {
    let session = Session::create(Faculty::EI);
    let form = session.login_form("<x><button id=\"form:j_1\" name=\"n\">").unwrap();
    let expected = [
        ("jakarta.faces.ViewState", "stateless"),
        ("form", "form"),
        ("form:loginGuestProject_input", "5"),
        ("form:j_1", ""),
    ];
    assert_eq!(form, expected.map(|(a, b)| (a.to_string(), b.to_string())).to_vec());
}

#[test]
fn a_button_named_like_a_field_takes_its_place() {
    let form = Session::create(Faculty::A).login_form("<button id=\"form\"").unwrap();
    assert_eq!(form.len(), 3);
    assert_eq!(form[1], ("form".to_string(), String::new()));
    assert_eq!(form[2].1, "1");
}

#[test]
fn pages_without_a_button_are_refused() {
    let session = Session::create(Faculty::M);
    assert_eq!(session.login_form("<p>").err(), Some(LoginError::StartNotFound));
    assert_eq!(session.login_form("<button id=\"abc").err(), Some(LoginError::EndNotFound));
    assert_eq!(LoginError::StartNotFound.message(), "form id start not found");
    assert_eq!(LoginError::EndNotFound.message(), "form id end not found");
}

#[test]
fn cells_hold_exams() {
    let c = cell(" (90\u{202f}min) ", " K-Foyer ", &[" IN1 ", "IN2", "IN3"], &[
        (" MA1 ", Some("Prof. X Y Mathematik 1")),
        ("PG", None),
    ]);
    let exams = read_cell(&c, at(1000)).unwrap();
    assert_eq!(exams.len(), 2);
    assert_eq!(exams[0].title, "Mathematik 1");
    assert_eq!(exams[0].abbr, "MA1");
    assert_eq!(*exams[0].courses.names(), vec!["IN1"]);
    assert_eq!(*exams[0].locations.names(), vec!["K000"]);
    assert_eq!(exams[0].time_start, at(1000));
    assert_eq!(exams[0].time_end, Instant { secs: 6400, nanos: 0 });
    assert!(exams[0].is_exam);
    assert_eq!(exams[1].title, "");
    assert_eq!(exams[1].abbr, "PG");
}

#[test]
fn cells_without_a_length_or_a_room_hold_none() {
    let lectures = [("MA", None)];
    for minutes in ["", "(90min)", "(x\u{202f}min)", "()\u{202f}min"] {
        assert!(read_cell(&cell(minutes, "K1", &["IN1"], &lectures), at(0)).unwrap().is_empty());
    }
    let mut c = cell("(90\u{202f}min)", "K1", &["IN1"], &lectures);
    c[2].clear();
    assert!(read_cell(&c, at(0)).unwrap().is_empty());
    c[1].clear();
    assert!(read_cell(&c, at(0)).unwrap().is_empty());
    assert_eq!(read_cell(&cell("((+90\u{202f}min", "K1", &["IN1"], &lectures), at(0)).unwrap().len(), 1);
}

#[test]
fn exams_that_never_end_are_errors() {
    let c = cell("(9223372036854775807\u{202f}min)", "K1", &["IN1"], &[("MA", None)]);
    assert_eq!(read_cell(&c, at(0)).err(), Some(PlanError::OutOfRange));
    let c = cell("(1\u{202f}min)", "K1", &["IN1"], &[("MA", None)]);
    assert_eq!(read_cell(&c, at(MAX_SECS)).err(), Some(PlanError::OutOfRange));
    let plan = read_plan(&vec![c], &vec![Some(at(MAX_SECS))]);
    assert_eq!(plan.err(), Some(PlanError::OutOfRange));
}

#[test]
fn an_exam_in_several_rooms_stands_in_the_plan_once() {
    let cells = vec![
        cell("(90\u{202f}min)", "K002", &["IN1"], &[("MA", Some("a b c First"))]),
        cell("(60\u{202f}min)", "K001", &["IN1"], &[("MA", Some("a b c Second"))]),
        cell("(60\u{202f}min)", "K003", &["IN2"], &[("MA", None)]),
        cell("(60\u{202f}min)", "K004", &["IN1"], &[("MA", None)]),
        cell("(60\u{202f}min)", "K005", &["IN1"], &[("PG", None)]),
        cell("(60\u{202f}min)", "K006", &["IN1"], &[("PG", None)]),
    ];
    let starts = vec![Some(at(0)), Some(at(0)), Some(at(0)), Some(at(60)), Some(at(0)), None];
    let plan = read_plan(&cells, &starts).unwrap();
    let rows: Vec<_> = plan.iter().map(|e| (e.abbr.as_str(), e.time_start.at.secs, e.courses.names()[0].as_str(), e.locations.names().clone())).collect();
    assert_eq!(rows, vec![
        ("MA", 0, "IN1", vec!["K001".to_string(), "K002".to_string()]),
        ("MA", 0, "IN2", vec!["K003".to_string()]),
        ("MA", 60, "IN1", vec!["K004".to_string()]),
        ("PG", 0, "IN1", vec!["K005".to_string()]),
    ]);
    assert_eq!(plan[0].title, "First");
    assert_eq!(plan[0].time_end.secs, 5400);
}

fn page(start: &str) -> String {
    format!(
        "<html><body><table class=\"autoTable\"><tbody>\
         <tr class=\"ui-widget-content\">\
         <td class=\"tableColumn\">\
         <div class=\"inner head\"><span>{start}</span><span>K-Foyer</span></div>\
         <div class=\"inner head\"><span><span>IN1</span><span><span>x</span><span>(90\u{202f}min)</span></span></span></div>\
         <div class=\"inner\"><span><span><a title=\"Prof. A B Mathe 1\">MA1</a></span></span></div>\
         </td>\
         <td class=\"tableColumn\"></td>\
         <td class=\"other\"><div class=\"inner head\"><span>x</span></div></td>\
         </tr></tbody></table></body></html>"
    )
}

#[test]
fn exams_are_found_in_a_page() {
    let session = Session::create(Faculty::IM);
    let exams = session.fetch(&page("Fr.&nbsp;08.07., 14:15"), 2022).unwrap();
    let start = chrono::Local.with_ymd_and_hms(2022, 7, 8, 14, 15, 0).single().unwrap();
    assert_eq!(exams.len(), 1);
    assert_eq!(exams[0].time_start.at.secs, start.timestamp());
    assert_eq!(exams[0].time_start.clock(), "14:15");
    assert_eq!(exams[0].time_end.secs, start.timestamp() + 5400);
    assert_eq!(exams[0].abbr, "MA1");
    assert_eq!(exams[0].title, "Mathe 1");
    assert_eq!(*exams[0].courses.names(), vec!["IN1"]);
    assert_eq!(*exams[0].locations.names(), vec!["K000"]);
}

#[test]
fn a_space_does_not_end_the_length_of_an_exam() {
    let c = cell("(90 min)", "K1", &["IN1"], &[("MA", None)]);
    assert!(read_cell(&c, at(0)).unwrap().is_empty());
    let html = page("08.07., 14:15").replace('\u{202f}', " ");
    assert!(Session::create(Faculty::IM).fetch(&html, 2022).unwrap().is_empty());
}

fn room_cell(room: &str) -> String {
    format!(
        "<td class=\"tableColumn\">\
         <div class=\"inner head\"><span>Fr.&nbsp;08.07., 14:15</span><span>{room}</span></div>\
         <div class=\"inner head\"><span><span>IN2</span><span><span>MA1</span><span>(90\u{202f}min)</span></span></span></div>\
         <div class=\"inner\"><span><span><a title=\"1 2 3 Mathe 1\">MA1</a></span></span></div>\
         </td>"
    )
}

#[test]
fn the_rooms_of_an_exam_come_together() {
    let table = |cells: String| {
        format!("<table class=\"autoTable\"><tbody><tr class=\"ui-widget-content\">{cells}</tr></tbody></table>")
    };
    let session = Session::create(Faculty::IM);
    let one = session.fetch(&table(room_cell("K001")), 2022).unwrap();
    assert_eq!(one.len(), 1);
    assert_eq!(one[0].title, "Mathe 1");
    assert_eq!(one[0].abbr, "MA1");
    assert_eq!(*one[0].courses.names(), vec!["IN2"]);
    assert_eq!(*one[0].locations.names(), vec!["K001"]);
    assert_eq!(one[0].time_start.clock(), "14:15");
    assert_eq!(one[0].time_end.secs - one[0].time_start.at.secs, 5400);
    assert!(one[0].is_exam);
    let two = session.fetch(&table(room_cell("K001") + &room_cell("K-Foyer")), 2022).unwrap();
    assert_eq!(two.len(), 1);
    assert_eq!(*two[0].locations.names(), vec!["K000", "K001"]);
}

#[test]
fn the_plan_has_the_exams_of_its_cells_and_no_others() {
    let cells = vec![
        cell("(90\u{202f}min)", "K1", &["IN1", "IN2"], &[("MA", None), ("PG", None)]),
        cell("(90\u{202f}min)", "K2", &["IN2", "IN1"], &[("PG", None), ("MA", None)]),
    ];
    let plan = read_plan(&cells, &vec![Some(at(0)), Some(at(0))]).unwrap();
    assert_eq!(plan.len(), 2);
    for exam in &plan {
        assert_eq!(*exam.locations.names(), vec!["K1", "K2"]);
        assert_eq!(exam.courses.names().len(), 1);
        assert!(exam.is_exam);
    }
}

#[test]
fn cells_without_a_readable_start_are_passed_over() {
    let session = Session::create(Faculty::IM);
    for start in ["", "  ", "tomorrow", "31.02., 10:00", "08.07., 25:15"] {
        assert!(session.fetch(&page(start), 2022).unwrap().is_empty(), "{start}");
    }
    assert_eq!(session.fetch(&page("08.07., 14:15"), 2022).unwrap().len(), 1);
    assert!(session.fetch("", 2022).unwrap().is_empty());
}
