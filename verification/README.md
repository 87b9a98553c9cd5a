# infoscreen

The logic of display programs for the screens of a faculty, written and verified
in Verus:

- the timetable of a faculty: lectures from the WebUntis service and exams from the
  exam plan, with a clock, a countdown and headlines;
- the departures of the bus stops nearby, into the city and out of it;
- the events and tasks of calendars, as an agenda and as a plain list.

`src/` is the library. Every function states what it gives for every input, or,
where the time zone of the machine decides, what holds of every outcome. Laws that
hold of several functions together stand there as public proof functions.
Calls of other crates (`chrono`, `icalendar`, `scraper`, `feed_rs`, `regex`,
`hex_color`) go through small wrappers whose contracts are trusted.

| module | what it holds |
| --- | --- |
| `text`, `numbers`, `lists`, `order`, `names` | texts, numbers, sorting, ordered sets |
| `date`, `clock`, `locale`, `face` | dates, points in time, the wall clock, the clock face |
| `timetable`, `watch`, `untis`, `othr_ptp`, `color` | the timetable and where it comes from |
| `news` | headlines of a news feed |
| `departures` | the departure board |
| `ical`, `agenda`, `rows` | calendar files, the agenda, the plain list |
| `status`, `config` | messages and settings |

`app/` is the program around the library: settings, requests and a text screen.
`tests/` runs the library with the real crates.
