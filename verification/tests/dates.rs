use chrono::{Datelike, NaiveDate, TimeZone, Timelike};
use infoscreen::clock::{sec_to_dt, DateTime, Instant, Wait, WallTime, MAX_SECS, MIN_SECS};
use infoscreen::date::Date;
use infoscreen::face::{self, Face, TimeRange};
use infoscreen::locale::{locale, Locale};

fn utc(y: i32, m: u32, d: u32, h: i64, min: i64, s: i64) -> DateTime {
    let date = Date::from_ymd(y, m, d).unwrap();
    DateTime {
        at: Instant { secs: date.days as i64 * 86400 + h * 3600 + min * 60 + s, nanos: 0 },
        offset: 0,
    }
}

#[test]
fn dates_have_their_day_numbers() {
    assert_eq!(Date::from_ymd(1970, 1, 1).unwrap().days, 0);
    assert_eq!(Date::from_ymd(2024, 2, 29).unwrap().days, 19782);
    assert_eq!(Date::from_ymd(2023, 2, 29), None);
    assert_eq!(Date::from_ymd(2023, 13, 1), None);
    assert_eq!(Date::from_ymd(2023, 0, 1), None);
    assert_eq!(Date::from_ymd(1900, 2, 29), None);
    assert_eq!(Date::from_ymd(262143, 1, 1), None);
    assert_eq!(Date::from_ymd(262142, 12, 31).unwrap().days, infoscreen::date::MAX_DAY);
    assert_eq!(Date::from_ymd(-262143, 1, 1).unwrap().days, infoscreen::date::MIN_DAY);
}

#[test]
fn day_numbers_have_their_dates() {
    for days in [-96465292, -719529, -1, 0, 59, 19782, 95026236] {
        let date = Date { days };
        let (y, m, d) = date.ymd();
        assert_eq!(Date::from_ymd(y, m, d), Some(date));
        let same = NaiveDate::from_epoch_days(days).unwrap();
        assert_eq!((same.year(), same.month(), same.day()), (y, m, d));
    }
    assert_eq!(Date::from_ymd(2024, 2, 28).unwrap().plus_days(2).ymd(), (2024, 3, 1));
}

#[test]
fn an_earlier_date_has_the_smaller_number() {
    let a = Date::from_ymd(2023, 12, 31).unwrap();
    let b = Date::from_ymd(2024, 1, 1).unwrap();
    assert_eq!(a.days + 1, b.days);
}

#[test]
fn the_wall_clock_follows_the_offset() {
    let t = DateTime { at: Instant { secs: -1, nanos: 5 }, offset: 3600 };
    assert_eq!(t.date(), Date { days: 0 });
    assert_eq!((t.hour(), t.minute(), t.second()), (0, 59, 59));
    assert_eq!(t.clock(), "00:59");
    assert_eq!(t.day_month(), "01.01");
    let u = DateTime { at: Instant { secs: 0, nanos: 0 }, offset: -3600 };
    assert_eq!(u.date(), Date { days: -1 });
    assert_eq!(u.clock(), "23:00");
    assert_eq!(u.day_month(), "31.12");
    assert!(!u.is_midnight());
    assert!(utc(2024, 5, 1, 0, 0, 0).is_midnight());
    assert_eq!(utc(2024, 5, 1, 9, 5, 0).clock(), "09:05");
    assert_eq!(utc(2024, 12, 24, 18, 0, 0).day_month(), "24.12");
}

#[test]
fn instants_are_ordered() {
    let a = Instant { secs: 1, nanos: 0 };
    let b = Instant { secs: 1, nanos: 1 };
    assert!(a.is_earlier(b));
    assert!(!b.is_earlier(a));
    assert!(!a.is_earlier(a));
    assert!(a.fits());
    assert!(Instant { secs: 59, nanos: 1_500_000_000 }.fits());
    assert!(!Instant { secs: 58, nanos: 1_500_000_000 }.fits());
    assert!(Instant { secs: -1, nanos: 1_500_000_000 }.fits());
}

#[test]
fn waiting_ends_on_time() {
    let now = Instant { secs: 10, nanos: 600_000_000 };
    let end = Instant { secs: 12, nanos: 100_000_000 };
    assert_eq!(end.until(now), Some(Wait { secs: 1, nanos: 500_000_000 }));
    assert_eq!(now.until(end), None);
    assert_eq!(now.until(now), Some(Wait { secs: 0, nanos: 0 }));
    assert_eq!(Wait::seconds(30), Wait { secs: 30, nanos: 0 });
}

#[test]
fn differences_are_rounded_toward_zero() {
    let a = Instant { secs: 0, nanos: 0 };
    let b = Instant { secs: 119, nanos: 999_999_999 };
    assert_eq!(b.minutes_from(a), 1);
    assert_eq!(a.minutes_from(b), -1);
    assert_eq!(b.secs_from(a), 119);
    assert_eq!(a.secs_from(b), -119);
    assert_eq!(b.millis_from(a), 119_999);
    assert_eq!(a.millis_from(b), -119_999);
}

#[test]
fn minutes_are_added_within_the_calendar() {
    let a = Instant { secs: 100, nanos: 7 };
    assert_eq!(a.plus_minutes(90), Some(Instant { secs: 5500, nanos: 7 }));
    assert_eq!(a.plus_minutes(-2), Some(Instant { secs: -20, nanos: 7 }));
    assert_eq!(a.plus_minutes(i64::MAX), None);
    assert_eq!(a.plus_minutes(i64::MIN), None);
    assert_eq!(Instant { secs: MAX_SECS, nanos: 0 }.plus_minutes(1), None);
    assert_eq!(Instant { secs: MIN_SECS, nanos: 0 }.plus_minutes(-1), None);
}

#[test]
fn days_have_midnights() {
    let d = Date::from_ymd(1970, 1, 3).unwrap();
    assert_eq!(d.midnight(), WallTime { secs: 172800, nanos: 0 });
    assert_eq!(d.at_second(3661), WallTime { secs: 176461, nanos: 0 });
}

#[test]
fn seconds_are_shown_on_the_local_clock() {
    for sec in [0, 1_700_000_000, -86_401, i32::MAX, i32::MIN] {
        let t = sec_to_dt(sec);
        let local = chrono::Local.timestamp_opt(sec as i64, 0).unwrap();
        assert_eq!(t.at, Instant { secs: sec as i64, nanos: 0 });
        assert_eq!(t.offset, local.offset().local_minus_utc());
        assert_eq!(t.hour(), local.hour());
        assert_eq!(face::fmt_time(sec), local.format("%H:%M").to_string());
        assert_eq!(face::fmt_date_event(sec), local.format("%d.%m").to_string());
        assert_eq!(face::is_midnight(sec), local.num_seconds_from_midnight() == 0);
        let posix = Locale::posix();
        let format = if local.month() == 1 { "%A, %e. %B %Y" } else { "%A, %e. %B" };
        assert_eq!(face::fmt_date(sec, &posix), local.format(format).to_string());
    }
}

#[test]
fn days_between_seconds_are_counted() {
    assert_eq!(face::time_in_days(0, 86400 * 2 + 5), 2);
    assert_eq!(face::time_in_days(86400, 0), -1);
    assert_eq!(face::time_in_days(86399, 0), 0);
    assert_eq!(face::time_in_days(i32::MIN, i32::MAX), 49710);
}

#[test]
fn minutes_and_seconds_are_counted_for_the_screen() {
    assert_eq!(face::unix_minute(Instant { secs: 3599, nanos: 0 }), 59);
    assert_eq!(face::unix_minute(Instant { secs: -61, nanos: 0 }), -1);
    assert_eq!(face::unix_second(Instant { secs: 1 << 32, nanos: 0 }), 0);
    assert_eq!(face::unix_second(Instant { secs: 1_700_000_000, nanos: 9 }), 1_700_000_000);
}

#[test]
fn the_system_locale_is_used_where_it_is_known() {
    let (german, problem) = locale(Some("de-DE"));
    assert_eq!(german.name(), "de_DE");
    assert_eq!(problem, None);
    let (posix, problem) = locale(Some("xx-YY"));
    assert_eq!(posix.name(), "POSIX");
    assert_eq!(problem.unwrap(), "parse system locale 'xx-YY'");
    let (posix, problem) = locale(None);
    assert_eq!(posix.name(), "POSIX");
    assert_eq!(problem.unwrap(), "detect system locale");
    assert!(Locale::of_name("nowhere").is_none());
}

#[test]
fn dates_are_written_in_words() {
    let german = Locale::of_name("de_DE").unwrap();
    let may = Date::from_ymd(2024, 5, 1).unwrap();
    assert_eq!(german.date_text(may), "Mittwoch,  1. Mai");
    assert_eq!(german.clock_date_text(may), "Mittwoch,  1. Mai");
    let january = Date::from_ymd(2024, 1, 15).unwrap();
    assert_eq!(german.date_text(january), "Montag, 15. Januar");
    assert_eq!(german.clock_date_text(january), "Montag, 15. Januar 2024");
    assert_eq!(Locale::posix().clock_date_text(january), "Monday, 15. January 2024");
}

#[test]
fn the_face_changes_with_minutes_and_days() {
    let posix = Locale::posix();
    let mut f = Face::at(utc(2024, 5, 1, 23, 58, 59));
    let tick = f.tick(utc(2024, 5, 1, 23, 59, 30), &posix);
    assert_eq!(tick.secs, 30);
    assert_eq!(tick.time.unwrap(), "23:59");
    assert_eq!(tick.date, None);
    let tick = f.tick(utc(2024, 5, 2, 0, 0, 1), &posix);
    assert_eq!(tick.time.unwrap(), "00:00");
    assert_eq!(tick.date.unwrap(), "Thursday,  2. May");
    assert_eq!(f, Face::at(utc(2024, 5, 2, 0, 0, 1)));
}

#[test]
fn a_shown_face_stays() {
    let posix = Locale::posix();
    let now = utc(2024, 5, 1, 12, 0, 0);
    let mut f = Face::at(now);
    let tick = f.tick(now, &posix);
    assert_eq!(tick.time, None);
    assert_eq!(tick.date, None);
}

#[test]
fn the_first_tick_changes_everything() {
    let now = Instant { secs: 1_700_000_000, nanos: 0 };
    let mut f = Face::start(now);
    let tick = f.tick(face::days_later(now, 0), &Locale::posix());
    assert!(tick.time.is_some());
    assert!(tick.date.is_some());
}

#[test]
fn the_first_tick_changes_the_time_on_every_day() {
    let now = Instant { secs: 1_700_000_000, nanos: 0 };
    for days in [-400, -2, -1, 0, 1, 30] {
        for late in [0, 59, 780] {
            let mut f = Face::start(now);
            let later = face::days_later(Instant { secs: now.secs + late, nanos: 0 }, days);
            let tick = f.tick(later, &Locale::posix());
            assert!(tick.time.is_some());
            assert_eq!(tick.day_time(later), Some(face::day_time(later)));
            assert!(days == -1 || tick.date.is_some());
            let again = f.tick(later, &Locale::posix());
            assert_eq!((again.time.is_none(), again.day_time(later)), (true, None));
        }
    }
}

#[test]
fn an_unchanged_face_is_right_within_the_hour() {
    let posix = Locale::posix();
    let t = utc(2024, 5, 1, 12, 30, 5);
    let mut f = Face::at(t);
    let now = utc(2024, 5, 1, 12, 30, 55);
    assert_eq!(f.tick(now, &posix).time, None);
    assert_eq!(now.clock(), t.clock());
}

#[test]
fn days_are_added_to_a_point_in_time() {
    let now = Instant { secs: 1_700_000_000, nanos: 3 };
    assert_eq!(face::days_later(now, -2).at, Instant { secs: 1_699_827_200, nanos: 3 });
    assert_eq!(face::days_later(now, 1).at.secs, 1_700_086_400);
}

#[test]
fn the_screen_is_off_over_midnight() {
    let range = TimeRange { start: 1900, end: 300 };
    assert_eq!(face::day_time(utc(2024, 5, 1, 19, 5, 0)), 1905);
    assert!(range.is_off(1900));
    assert!(range.is_off(2359));
    assert!(range.is_off(0));
    assert!(range.is_off(299));
    assert!(!range.is_off(300));
    assert!(!range.is_off(1859));
}

#[test]
fn countdowns_end() {
    let end = Instant { secs: 100, nanos: 0 };
    let just_over = Instant { secs: 100, nanos: 500_000 };
    assert_eq!(face::exam_time_left(end, Instant { secs: 98, nanos: 0 }), Some(2000));
    assert_eq!(face::exam_time_left(end, end), Some(0));
    assert_eq!(face::exam_time_left(end, just_over), Some(0));
    assert_eq!(face::exam_time_left(end, Instant { secs: 101, nanos: 0 }), None);
    assert_eq!(face::countdown_left(end, Instant { secs: 98, nanos: 0 }), Some(2000));
    assert_eq!(face::countdown_left(end, end), None);
    let local = chrono::Local.with_ymd_and_hms(2023, 7, 28, 12, 0, 0).single();
    assert_eq!(face::countdown_end().map(|t| t.at.secs), local.map(|t| t.timestamp()));
}
