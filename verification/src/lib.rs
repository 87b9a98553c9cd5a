//! The logic of three display programs: a faculty's timetable, the departures
//! of the bus stops nearby, and a list of events and tasks.

pub mod text;
pub mod order;
pub mod names;
pub mod date;
pub mod clock;
pub mod locale;
pub mod untis;
pub mod lists;
pub mod color;
pub mod timetable;
pub mod watch;
pub mod othr_ptp;
pub mod numbers;
pub mod departures;
pub mod ical;
pub mod agenda;
pub mod rows;
pub mod news;
pub mod face;
pub mod status;
pub mod config;
