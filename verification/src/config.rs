//! Settings and their defaults.

use vstd::prelude::*;
use crate::color::ColorSet;
use crate::face::TimeRange;

verus! {

/// A name and a password.
#[derive(Clone, Debug)]
pub struct Auth {
    pub username: String,
    pub password: String,
}

impl Default for Auth {
    fn default() -> (r: Auth)
        ensures
            r.username@ == Seq::<char>::empty(),
            r.password@ == Seq::<char>::empty(),
    {
        Auth { username: String::new(), password: String::new() }
    }
}

/// How lectures are fetched: for which school and faculty, by whom, and for how
/// many days.
#[derive(Clone, Debug)]
pub struct UntisConfig {
    pub school: String,
    pub auth: Auth,
    pub faculty: String,
    pub day_range: u16,
}

impl Default for UntisConfig {
    fn default() -> (r: UntisConfig)
        ensures
            r.school@ == Seq::<char>::empty(),
            r.auth.username@ == Seq::<char>::empty(),
            r.auth.password@ == Seq::<char>::empty(),
            r.faculty@ == "IM"@,
            r.day_range == 3,
    {
        UntisConfig {
            school: String::new(),
            auth: Auth::default(),
            faculty: "IM".to_owned(),
            day_range: 3,
        }
    }
}

/// The settings of the timetable.
#[derive(Debug)]
pub struct Config {
    pub day_offset: i16,
    pub time_off: TimeRange,
    pub untis: Option<UntisConfig>,
    pub newsfeed_url: Option<String>,
    pub course_colors: ColorSet,
    pub location_colors: ColorSet,
}

fn gray() -> (r: ColorSet)
    ensures
        r.default == 0xFF_666666,
        r.map@.len() == 0,
{
    ColorSet { default: 0xFF_666666, map: Vec::new() }
}

impl Default for Config {
    fn default() -> (r: Config)
        ensures
            r.day_offset == 0,
            r.time_off == (TimeRange { start: 1900, end: 300 }),
            r.untis is None,
            r.newsfeed_url is None,
            r.course_colors.default == 0xFF_666666,
            r.course_colors.map@.len() == 0,
            r.location_colors.default == 0xFF_666666,
            r.location_colors.map@.len() == 0,
    {
        Config {
            day_offset: 0,
            time_off: TimeRange { start: 1900, end: 300 },
            untis: None,
            newsfeed_url: None,
            course_colors: gray(),
            location_colors: gray(),
        }
    }
}

/// Where a calendar is found, and how it is called.
#[derive(Clone, Debug)]
pub struct CalendarOpt {
    pub name: String,
    pub color: Option<u32>,
    pub url: String,
    pub auth: Option<Auth>,
}

/// The settings of the agenda: the seconds between updates, a number of minutes,
/// and the calendars. A completed task is kept where it was completed later than
/// that many minutes from now.
#[derive(Debug)]
pub struct AgendaConfig {
    pub update_rate: u32,
    pub show_completed_tasks: u16,
    pub calendar: Vec<CalendarOpt>,
}

impl Default for AgendaConfig {
    fn default() -> (r: AgendaConfig)
        ensures
            r.update_rate == 120,
            r.show_completed_tasks == 60,
            r.calendar@.len() == 0,
    {
        AgendaConfig { update_rate: 120, show_completed_tasks: 60, calendar: Vec::new() }
    }
}

impl AgendaConfig {
    /// An agenda needs calendars.
    pub fn check(&self) -> (r: Result<(), String>)
        ensures
            match r {
                Ok(_) => self.calendar@.len() > 0,
                Err(e) => self.calendar@.len() == 0 && e@ == "no calendars configured!"@,
            },
    {
        if self.calendar.len() == 0 {
            Err("no calendars configured!".to_owned())
        } else {
            Ok(())
        }
    }
}

} // verus!
