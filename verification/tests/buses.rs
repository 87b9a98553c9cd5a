use chrono::TimeZone;
use infoscreen::clock::{DateTime, Instant, Wait};
use infoscreen::departures::{self, Board, BusStop, Departure, RawStop, RawTime, StopError, Time};
use std::cmp::Ordering;

fn time(y: &str, mo: &str, d: &str, h: &str, mi: &str) -> RawTime {
    RawTime {
        year: y.to_string(),
        month: mo.to_string(),
        day: d.to_string(),
        hour: h.to_string(),
        minute: mi.to_string(),
    }
}

fn raw() -> RawStop {
    RawStop {
        time_sched: time("2024", "05", "01", "08", "30"),
        time_real: Some(time("2024", "5", "1", "8", "33")),
        symbol: "1".to_string(),
        direction: "Regensburg Prüfening".to_string(),
        proj_direction: "H".to_string(),
    }
}

fn departure(line: &str, destination: &str, sched: i64, real: i64, into_city: bool, idx: usize) -> Departure {
    Departure {
        time_sched: DateTime { at: Instant { secs: sched, nanos: 0 }, offset: 0 },
        time_real: Instant { secs: real, nanos: 0 },
        line: line.to_string(),
        line_destination: destination.to_string(),
        into_city,
        local_stop_idx: idx,
    }
}

fn stop(title: &str, distance: u32, lines: &[(&str, &[&str])]) -> (String, BusStop) {
    let stops_into_city = lines
        .iter()
        .map(|(l, ds)| (l.to_string(), ds.iter().map(|d| d.to_string()).collect()))
        .collect();
    (format!("id-{title}"), BusStop { title: title.to_string(), color: 0, distance, stops_into_city })
}

#[test]
fn departures_are_read() {
    let d = Departure::read(&raw()).unwrap();
    let sched = chrono::Local.with_ymd_and_hms(2024, 5, 1, 8, 30, 0).latest().unwrap();
    assert_eq!(d.time_sched.at.secs, sched.timestamp());
    assert_eq!(d.time_sched.clock(), "08:30");
    assert_eq!(d.time_real.secs, sched.timestamp() + 180);
    assert_eq!(d.line, "1");
    assert_eq!(d.line_destination, "Regensburg Prüfening");
    assert!(!d.into_city);
    assert_eq!(d.local_stop_idx, 0);
}

#[test]
fn departures_without_a_real_time_leave_as_scheduled() {
    let mut r = raw();
    r.time_real = None;
    let d = Departure::read(&r).unwrap();
    assert_eq!(d.time_real, d.time_sched.at);
    r.time_real = Some(time("2024", "02", "30", "08", "33"));
    let d = Departure::read(&r).unwrap();
    assert_eq!(d.time_real, d.time_sched.at);
}

#[test]
fn buses_go_into_the_city() {
    let mut r = raw();
    r.proj_direction = "R".to_string();
    assert!(Departure::read(&r).unwrap().into_city);
    r.proj_direction = "H".to_string();
    r.direction = "Regensburg Hbf/Albertstraße".to_string();
    assert!(Departure::read(&r).unwrap().into_city);
}

#[test]
fn departures_need_a_scheduled_time() {
    let mut r = raw();
    r.time_sched = time("2024", "13", "01", "08", "30");
    assert!(matches!(Departure::read(&r), Err(StopError::ScheduledTime)));
    r.time_sched = time("2024", "12", "01", "24", "30");
    assert!(matches!(Departure::read(&r), Err(StopError::ScheduledTime)));
    r.time_sched = time("2024", "12", "01", "23", "60");
    assert!(matches!(Departure::read(&r), Err(StopError::ScheduledTime)));
    assert!(matches!(Departure::at_times(&r, None, None), Err(StopError::ScheduledTime)));
}

#[test]
fn departures_need_numbers() {
    let mut r = raw();
    r.time_sched = time("2024", "x", "y", "08", "30");
    assert!(matches!(Departure::read(&r), Err(StopError::Number(s)) if s == "x"));
    r = raw();
    r.time_real = Some(time("2024", "1", "1", "1", ""));
    assert!(matches!(Departure::read(&r), Err(StopError::Number(s)) if s.is_empty()));
}

#[test]
fn times_are_numbers() {
    let t = time("2024", "+5", "01", "008", "30").read().unwrap();
    assert_eq!(t, Time { year: 2024, month: 5, day: 1, hour: 8, minute: 30 });
    assert!(Time { year: u32::MAX, month: 1, day: 1, hour: 0, minute: 0 }.latest().is_some());
    assert!(Time { year: 300000, month: 1, day: 1, hour: 0, minute: 0 }.latest().is_none());
}

#[test]
fn departures_are_equal_by_stop_time_line_and_destination() {
    let a = departure("1", "X", 10, 20, true, 0);
    let b = departure("1", "X", 10, 99, false, 0);
    assert!(a == b);
    assert!(a != departure("1", "X", 10, 20, true, 1));
    assert!(a != departure("1", "X", 11, 20, true, 0));
    assert!(a != departure("2", "X", 10, 20, true, 0));
    assert!(a != departure("1", "Y", 10, 20, true, 0));
}

#[test]
fn departures_are_ordered_by_line_destination_and_time() {
    let a = departure("1", "X", 10, 20, true, 0);
    assert_eq!(a.partial_cmp(&departure("1", "X", 10, 0, false, 5)), Some(Ordering::Equal));
    assert_eq!(a.partial_cmp(&departure("1", "X", 11, 0, true, 0)), Some(Ordering::Less));
    assert_eq!(a.partial_cmp(&departure("1", "A", 11, 0, true, 0)), Some(Ordering::Greater));
    assert_eq!(a.partial_cmp(&departure("10", "A", 0, 0, true, 0)), Some(Ordering::Less));
}

#[test]
fn lists_hold_the_last_of_equal_departures_in_order() {
    let list = departures::list_departures(vec![
        departure("2", "X", 10, 1, true, 0),
        departure("1", "Y", 10, 2, true, 0),
        departure("2", "X", 10, 3, true, 0),
        departure("1", "X", 20, 4, true, 0),
        departure("1", "X", 5, 5, true, 0),
    ]);
    let reals: Vec<_> = list.iter().map(|d| d.time_real.secs).collect();
    assert_eq!(reals, vec![5, 4, 2, 3]);
}

#[test]
fn stops_are_sorted_by_distance() {
    let sorted = departures::sort_stops(vec![stop("b", 300, &[]), stop("a", 100, &[]), stop("c", 300, &[])]);
    let titles: Vec<_> = sorted.iter().map(|s| s.1.title.as_str()).collect();
    assert_eq!(titles, vec!["a", "b", "c"]);
    assert!(departures::check_stops(&sorted).is_ok());
    assert_eq!(departures::check_stops(&vec![]), Err("empty bus schedule".to_string()));
}

#[test]
fn fetched_departures_arrive_at_their_stop() {
    let (_, s) = stop("a", 100, &[("1", &["Regensburg Hbf", "Arcaden"])]);
    let fetched = vec![
        departure("1", "Regensburg Hbf", 50, 50, false, 0),
        departure("1", "Regensburg Uni", 40, 40, true, 0),
        departure("2", "Arcaden", 60, 60, true, 0),
    ];
    let now = Instant { secs: 45, nanos: 0 };
    let (list, next) = departures::arrive_at_stop(&fetched, 3, &s, "Regensburg", now);
    assert_eq!(next, Instant { secs: 40, nanos: 0 });
    let rows: Vec<_> = list.iter().map(|d| (d.line.as_str(), d.line_destination.as_str(), d.into_city, d.local_stop_idx)).collect();
    assert_eq!(rows, vec![("1", "Hbf", true, 3), ("1", "Uni", false, 3), ("2", "Arcaden", true, 3)]);
    let (_, next) = departures::arrive_at_stop(&vec![], 0, &s, "", now);
    assert_eq!(next, now);
}

#[test]
fn pauses_grow_when_departures_are_long_ago() {
    let now = Instant { secs: 1_000_000, nanos: 0 };
    let ago = |secs: i64| Instant { secs: 1_000_000 - secs, nanos: 0 };
    assert_eq!(departures::pause_after_fetch(true, 120, now, now), Wait::seconds(10));
    assert_eq!(departures::pause_after_fetch(true, u32::MAX, now, now), Wait::seconds(10));
    assert_eq!(departures::pause_after_fetch(false, 120, now, now), Wait::seconds(120));
    assert_eq!(departures::pause_after_fetch(false, 1, ago(1200), now), Wait::seconds(1));
    assert_eq!(departures::pause_after_fetch(false, 1, ago(1201), now), Wait::seconds(600));
    assert_eq!(departures::pause_after_fetch(false, 1, ago(-50), now), Wait::seconds(1));
    let half = Instant { secs: 1_000_000 - 1201, nanos: 500_000_000 };
    assert_eq!(departures::pause_after_fetch(false, 1, half, now), Wait::seconds(600));
}

#[test]
fn the_board_shows_departures_by_time_and_direction() {
    let stops = departures::sort_stops(vec![stop("near", 100, &[]), stop("far", 500, &[])]);
    let mut board = Board::new();
    let now = Instant { secs: 1000, nanos: 0 };
    let new = vec![
        departure("1", "A", 2000, 2060, true, 0),
        departure("2", "B", 1500, 1500, true, 0),
        departure("3", "C", 1200, 1800, false, 0),
        departure("4", "D", 900, 1000, false, 0),
    ];
    let (into, from) = board.update(new, &stops, now);
    let rows: Vec<_> = into.iter().map(|d| (d.line.as_str(), d.delay, d.deadline)).collect();
    assert_eq!(rows, vec![("2", 0, 25), ("1", 1, 34)]);
    let rows: Vec<_> = from.iter().map(|d| (d.line.as_str(), d.delay, d.time.as_str())).collect();
    assert_eq!(rows, vec![("3", 10, "00:20")]);
    assert_eq!(into[0].final_stop, "B");
    assert_eq!(into[0].local_stop_idx, 0);
    let (into, from) = board.update(vec![], &stops, Instant { secs: 1800, nanos: 0 });
    assert_eq!((into.len(), from.len()), (1, 0));
}

#[test]
fn the_board_shows_lines_at_their_nearest_stop() {
    let stops = departures::sort_stops(vec![stop("near", 100, &[]), stop("far", 500, &[])]);
    let mut board = Board::new();
    let now = Instant { secs: 0, nanos: 0 };
    let (into, _) = board.update(vec![departure("1", "A", 50, 50, true, 1)], &stops, now);
    assert_eq!(into.len(), 1);
    let (into, _) = board.update(vec![departure("1", "A", 60, 60, true, 0)], &stops, now);
    assert_eq!(into.iter().map(|d| d.local_stop_idx).collect::<Vec<_>>(), vec![0]);
    let (into, _) = board.update(vec![departure("1", "A", 70, 70, true, 1)], &stops, now);
    assert_eq!(into.len(), 1);
}

#[test]
fn of_equally_near_stops_the_first_one_is_shown() {
    let stops = vec![stop("a", 500, &[]), stop("b", 100, &[]), stop("c", 100, &[])];
    let mut board = Board::new();
    let now = Instant { secs: 0, nanos: 0 };
    board.update(vec![departure("1", "A", 50, 50, true, 0)], &stops, now);
    board.update(vec![departure("1", "A", 51, 51, true, 2)], &stops, now);
    board.update(vec![departure("1", "A", 52, 52, true, 1), departure("1", "A", 53, 53, true, 2)], &stops, now);
    let (into, _) = board.update(vec![departure("1", "A", 54, 54, true, 0)], &stops, now);
    let rows: Vec<_> = into.iter().map(|d| (d.time.as_str(), d.local_stop_idx)).collect();
    assert_eq!(rows, vec![("00:00", 2), ("00:00", 2)]);
}

#[test]
fn of_departures_at_one_time_the_nearer_stop_comes_first() {
    let stops = departures::sort_stops(vec![stop("near", 100, &[]), stop("far", 500, &[])]);
    let mut board = Board::new();
    let new = vec![departure("1", "A", 50, 50, true, 1), departure("2", "A", 50, 50, true, 0)];
    let (into, _) = board.update(new, &stops, Instant { secs: 0, nanos: 0 });
    assert_eq!(into.iter().map(|d| d.line.as_str()).collect::<Vec<_>>(), vec!["2", "1"]);
}

#[test]
fn every_departure_is_shown_once() {
    let stops = vec![stop("near", 100, &[])];
    let mut board = Board::new();
    let new = (0..10).map(|i| departure(&i.to_string(), "A", 100 - i, 100 - i, i % 3 == 0, 0)).collect();
    let (into, from) = board.update(new, &stops, Instant { secs: 0, nanos: 0 });
    assert_eq!((into.len(), from.len()), (4, 6));
    assert!(into.windows(2).all(|w| w[0].deadline <= w[1].deadline));
}

#[test]
fn departures_are_asked_for_a_stop() {
    let query = departures::query_for("de:09362:11111");
    assert_eq!(query.len(), 11);
    assert_eq!(query[0], ("outputFormat".to_string(), "JSON".to_string()));
    assert_eq!(query[9], ("limit".to_string(), "60".to_string()));
    assert_eq!(query[10], ("name_dm".to_string(), "de:09362:11111".to_string()));
    assert_eq!(departures::schedule_url(), "https://mobile.defas-fgi.de/beg/json/XML_DM_REQUEST");
}

#[test]
fn an_update_without_new_departures_changes_nothing() {
    let stops = vec![stop("near", 100, &[])];
    let mut board = Board::new();
    let now = Instant { secs: 10, nanos: 0 };
    let new = vec![departure("1", "A", 5, 5, true, 0), departure("2", "A", 50, 60, true, 0)];
    let (first, _) = board.update(new, &stops, now);
    let (second, from) = board.update(vec![], &stops, now);
    assert_eq!((first.len(), second.len(), from.len()), (1, 1, 0));
    assert_eq!(first[0].line, second[0].line);
}
