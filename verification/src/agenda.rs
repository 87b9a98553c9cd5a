//! Events and tasks of calendars, and how they are shown.

use vstd::prelude::*;
use crate::clock::{earlier, gives_single, midnight_of, ordinary, shows, single_at, DateTime, Instant, WallTime};
use crate::color::{code_or_white, color_code_number, color_of_code, packed, Color};
use crate::date::{Date, MIN_DAY};
use crate::ical::{self, ask_completed_zone, ask_zone, completed_of, completed_wall, file_read, find_completed, find_priority, find_progress, find_time, find_value, find_when, local_wall, priority_of, progress_of, time_of, value_of, when_of, zone_fits, CalendarText, CalendarTextView, ComponentView, Property, PropertyView};
use crate::lists::{self, filter_picks, pick_grows, pick_of_none, picked, picked_are_kept};
use crate::numbers::{to_signed, signed_bits, wrap_i32, wrapped};
use crate::order::{sorted, sorted_in_order, sorted_keeps_equals, sorted_len, sorted_same_values, stable_sort, Order};
use crate::text::{self, joined, pieces, trimmed, without_suffixes};

verus! {

// ---------------------------------------------------------------------------
// Events
// ---------------------------------------------------------------------------

/// An event of a calendar.
#[derive(Debug)]
pub struct Event {
    pub summary: String,
    pub organizer: String,
    pub location: String,
    pub color: Color,
    pub time_start: Instant,
    pub time_end: Instant,
    pub categories: Vec<String>,
}

/// What an `Event` holds.
#[verifier::ext_equal]
pub struct EventView {
    pub summary: Seq<char>,
    pub organizer: Seq<char>,
    pub location: Seq<char>,
    pub color: Color,
    pub time_start: Instant,
    pub time_end: Instant,
    pub categories: Seq<Seq<char>>,
}

impl DeepView for Event {
    type V = EventView;

    open spec fn deep_view(&self) -> EventView {
        EventView {
            summary: self.summary@,
            organizer: self.organizer@,
            location: self.location@,
            color: self.color,
            time_start: self.time_start,
            time_end: self.time_end,
            categories: self.categories.deep_view(),
        }
    }
}

/// Why an event or a task could not be read.
#[derive(Clone, Copy, Debug, PartialEq, Eq, Structural)]
pub enum ItemError {
    Summary,
    StartTime,
    EndTime,
}

impl ItemError {
    /// The error in words.
    pub fn message(self) -> (r: String)
        ensures
            r@ == (match self {
                ItemError::Summary => "summary missing"@,
                ItemError::StartTime => "missing start time"@,
                ItemError::EndTime => "missing end time"@,
            }),
    {
        match self {
            ItemError::Summary => "summary missing".to_owned(),
            ItemError::StartTime => "missing start time".to_owned(),
            ItemError::EndTime => "missing end time".to_owned(),
        }
    }
}

/// What the machine's time zone gives for the times of an event or a task: its
/// start, its end or when it is due, and when it was completed.
#[derive(Clone, Copy, Debug, PartialEq, Eq, Structural)]
pub struct Zones {
    pub start: Option<DateTime>,
    pub end: Option<DateTime>,
    pub completed: Option<DateTime>,
}

/// A text, and an empty one where there is none.
pub open spec fn or_empty(s: Option<Seq<char>>) -> Seq<char> {
    match s {
        Some(v) => v,
        None => Seq::empty(),
    }
}

fn text_or_empty(s: Option<&str>) -> (r: String)
    ensures
        r@ == or_empty(s.deep_view()),
{
    match s {
        Some(v) => v.to_owned(),
        None => String::new(),
    }
}

/// The categories of a component.
pub open spec fn categories_of(p: Seq<PropertyView>) -> Seq<Seq<char>> {
    match value_of(p, "CATEGORIES"@) {
        Some(v) => pieces(v, ","@),
        None => Seq::empty(),
    }
}

/// The color that an event gives itself: red, green, blue and alpha, taken as
/// alpha, red, green and blue.
pub open spec fn own_color(p: Seq<PropertyView>) -> Color {
    let c = code_or_white(value_of(p, "X-APPLE-CALENDAR-COLOR"@));
    Color { argb: packed(c.0, c.1, c.2, c.3) as u32 }
}

/// The event of some properties: it needs a summary, a start and an end.
pub open spec fn event_of(p: Seq<PropertyView>, zones: Zones) -> Result<EventView, ItemError> {
    match value_of(p, "SUMMARY"@) {
        None => Err(ItemError::Summary),
        Some(summary) => match time_of(p, "DTSTART"@, zones.start) {
            None => Err(ItemError::StartTime),
            Some(time_start) => match time_of(p, "DTEND"@, zones.end) {
                None => Err(ItemError::EndTime),
                Some(time_end) => Ok(
                    EventView {
                        summary,
                        organizer: or_empty(value_of(p, "X-WR-CALNAME"@)),
                        location: or_empty(value_of(p, "LOCATION"@)),
                        color: own_color(p),
                        time_start,
                        time_end,
                        categories: categories_of(p),
                    },
                ),
            },
        },
    }
}

/// Whether a result holds the event, or the error, of `value`.
pub open spec fn is_event(
    result: Result<Event, ItemError>,
    value: Result<EventView, ItemError>,
) -> bool {
    match (result, value) {
        (Ok(e), Ok(v)) => e.deep_view() == v,
        (Err(e), Err(f)) => e == f,
        _ => false,
    }
}

impl Event {
    /// The event of some properties, where `zones` is what the machine's time
    /// zone gives for its times.
    pub fn try_from(p: &Vec<Property>, zones: Zones) -> (r: Result<Event, ItemError>)
        ensures
            is_event(r, event_of(p.deep_view(), zones)),
    {
        let summary: String = match find_value(p, "SUMMARY") {
            Some(s) => s.to_owned(),
            None => {
                return Err(ItemError::Summary);
            },
        };
        let organizer: String = text_or_empty(find_value(p, "X-WR-CALNAME"));
        let color: Color = Color::from_argb_encoded(
            color_code_number(find_value(p, "X-APPLE-CALENDAR-COLOR")),
        );
        let location: String = text_or_empty(find_value(p, "LOCATION"));
        proof {
            reveal_strlit(",");
        }
        let categories: Vec<String> = match find_value(p, "CATEGORIES") {
            Some(s) => text::split(s, ","),
            None => lists::empty(),
        };
        let time_start: Instant = match find_time(p, "DTSTART", zones.start) {
            Some(t) => t,
            None => {
                return Err(ItemError::StartTime);
            },
        };
        let time_end: Instant = match find_time(p, "DTEND", zones.end) {
            Some(t) => t,
            None => {
                return Err(ItemError::EndTime);
            },
        };
        Ok(Event { summary, organizer, location, color, time_start, time_end, categories })
    }
}

/// An event as it is shown.
#[derive(Debug)]
pub struct ShownEvent {
    pub summary: String,
    pub location: String,
    pub organizer: String,
    pub color: Color,
    pub categories: String,
    pub time_start: i32,
    pub time_end: i32,
}

/// What a `ShownEvent` holds.
#[verifier::ext_equal]
pub struct ShownEventView {
    pub summary: Seq<char>,
    pub location: Seq<char>,
    pub organizer: Seq<char>,
    pub color: Color,
    pub categories: Seq<char>,
    pub time_start: i32,
    pub time_end: i32,
}

impl DeepView for ShownEvent {
    type V = ShownEventView;

    open spec fn deep_view(&self) -> ShownEventView {
        ShownEventView {
            summary: self.summary@,
            location: self.location@,
            organizer: self.organizer@,
            color: self.color,
            categories: self.categories@,
            time_start: self.time_start,
            time_end: self.time_end,
        }
    }
}

/// The seconds of a point in time, as far as they fit in 32 bits.
pub open spec fn short_secs(t: Instant) -> i32 {
    wrapped(t.secs as int) as i32
}

/// An event as it is shown.
pub open spec fn event_shown(e: EventView) -> ShownEventView {
    ShownEventView {
        summary: e.summary,
        location: e.location,
        organizer: e.organizer,
        color: e.color,
        categories: joined(e.categories, ", "@),
        time_start: short_secs(e.time_start),
        time_end: short_secs(e.time_end),
    }
}

impl Event {
    /// The event as it is shown.
    pub fn to_ui(&self) -> (r: ShownEvent)
        ensures
            r.deep_view() == event_shown(self.deep_view()),
    {
        ShownEvent {
            summary: self.summary.clone(),
            location: self.location.clone(),
            organizer: self.organizer.clone(),
            color: self.color,
            categories: text::join(&self.categories, ", "),
            time_start: wrap_i32(self.time_start.secs),
            time_end: wrap_i32(self.time_end.secs),
        }
    }
}

// ---------------------------------------------------------------------------
// Tasks
// ---------------------------------------------------------------------------

/// A task of a calendar.
#[derive(Debug)]
pub struct Task {
    pub summary: String,
    pub organizer: String,
    pub color: Color,
    pub time_start: Option<Instant>,
    pub time_due: Option<Instant>,
    pub priority: Option<u32>,
    pub completed: Option<Instant>,
    pub progress: u8,
}

/// What a `Task` holds.
#[verifier::ext_equal]
pub struct TaskView {
    pub summary: Seq<char>,
    pub organizer: Seq<char>,
    pub color: Color,
    pub time_start: Option<Instant>,
    pub time_due: Option<Instant>,
    pub priority: Option<u32>,
    pub completed: Option<Instant>,
    pub progress: u8,
}

impl DeepView for Task {
    type V = TaskView;

    open spec fn deep_view(&self) -> TaskView {
        TaskView {
            summary: self.summary@,
            organizer: self.organizer@,
            color: self.color,
            time_start: self.time_start,
            time_due: self.time_due,
            priority: self.priority,
            completed: self.completed,
            progress: self.progress,
        }
    }
}

/// The task of some properties: it needs a summary.
pub open spec fn task_of(p: Seq<PropertyView>, zones: Zones) -> Result<TaskView, ItemError> {
    match value_of(p, "SUMMARY"@) {
        None => Err(ItemError::Summary),
        Some(summary) => Ok(
            TaskView {
                summary,
                organizer: Seq::empty(),
                color: Color { argb: 0 },
                time_start: time_of(p, "DTSTART"@, zones.start),
                time_due: time_of(p, "DUE"@, zones.end),
                priority: match priority_of(p) {
                    Some(n) => Some(n as u32),
                    None => None,
                },
                completed: completed_of(p, zones.completed),
                progress: match progress_of(p) {
                    Some(n) => n as u8,
                    None => 0,
                },
            },
        ),
    }
}

/// Whether a result holds the task, or the error, of `value`.
pub open spec fn is_task(
    result: Result<Task, ItemError>,
    value: Result<TaskView, ItemError>,
) -> bool {
    match (result, value) {
        (Ok(e), Ok(v)) => e.deep_view() == v,
        (Err(e), Err(f)) => e == f,
        _ => false,
    }
}

impl Task {
    /// The task of some properties, where `zones` is what the machine's time
    /// zone gives for its times.
    pub fn try_from(p: &Vec<Property>, zones: Zones) -> (r: Result<Task, ItemError>)
        ensures
            is_task(r, task_of(p.deep_view(), zones)),
    {
        let summary: String = match find_value(p, "SUMMARY") {
            Some(s) => s.to_owned(),
            None => {
                return Err(ItemError::Summary);
            },
        };
        let progress: u8 = match find_progress(p) {
            Some(n) => n,
            None => 0,
        };
        Ok(
            Task {
                summary,
                organizer: String::new(),
                color: Color::unset(),
                time_start: find_time(p, "DTSTART", zones.start),
                time_due: find_time(p, "DUE", zones.end),
                priority: find_priority(p),
                completed: find_completed(p, zones.completed),
                progress,
            },
        )
    }
}

/// A task as it is shown.
#[derive(Debug)]
pub struct ShownTask {
    pub summary: String,
    pub organizer: String,
    pub color: Color,
    pub time_start: i32,
    pub time_due: i32,
    pub priority: i32,
    pub complete: bool,
    pub progress: i32,
}

/// What a `ShownTask` holds.
#[verifier::ext_equal]
pub struct ShownTaskView {
    pub summary: Seq<char>,
    pub organizer: Seq<char>,
    pub color: Color,
    pub time_start: i32,
    pub time_due: i32,
    pub priority: i32,
    pub complete: bool,
    pub progress: i32,
}

impl DeepView for ShownTask {
    type V = ShownTaskView;

    open spec fn deep_view(&self) -> ShownTaskView {
        ShownTaskView {
            summary: self.summary@,
            organizer: self.organizer@,
            color: self.color,
            time_start: self.time_start,
            time_due: self.time_due,
            priority: self.priority,
            complete: self.complete,
            progress: self.progress,
        }
    }
}

/// The seconds of a point in time, and 0 where there is none.
pub open spec fn secs_or_zero(t: Option<Instant>) -> i32 {
    match t {
        Some(t) => short_secs(t),
        None => 0,
    }
}

/// A task as it is shown: without a priority it comes last.
pub open spec fn task_shown(t: TaskView) -> ShownTaskView {
    ShownTaskView {
        summary: t.summary,
        organizer: t.organizer,
        color: t.color,
        time_start: secs_or_zero(t.time_start),
        time_due: secs_or_zero(t.time_due),
        priority: match t.priority {
            Some(p) => signed_bits(p) as i32,
            None => i32::MAX,
        },
        complete: t.completed is Some,
        progress: t.progress as i32,
    }
}

fn short_or_zero(t: Option<Instant>) -> (r: i32)
    ensures
        r == secs_or_zero(t),
{
    match t {
        Some(t) => wrap_i32(t.secs),
        None => 0,
    }
}

impl Task {
    /// The task as it is shown.
    pub fn to_ui(&self) -> (r: ShownTask)
        ensures
            r.deep_view() == task_shown(self.deep_view()),
    {
        let priority: i32 = match self.priority {
            Some(p) => to_signed(p),
            None => i32::MAX,
        };
        ShownTask {
            summary: self.summary.clone(),
            organizer: self.organizer.clone(),
            color: self.color,
            time_start: short_or_zero(self.time_start),
            time_due: short_or_zero(self.time_due),
            priority,
            complete: self.completed.is_some(),
            progress: self.progress as i32,
        }
    }
}

// ---------------------------------------------------------------------------
// Calendars
// ---------------------------------------------------------------------------

/// The events and tasks of a calendar.
#[derive(Debug)]
pub struct Calendar {
    pub events: Vec<Event>,
    pub tasks: Vec<Task>,
}

/// What a `Calendar` holds.
#[verifier::ext_equal]
pub struct CalendarView {
    pub events: Seq<EventView>,
    pub tasks: Seq<TaskView>,
}

impl DeepView for Calendar {
    type V = CalendarView;

    open spec fn deep_view(&self) -> CalendarView {
        CalendarView { events: self.events.deep_view(), tasks: self.tasks.deep_view() }
    }
}

/// The name of a calendar, which stands for the organizer of what is in it.
pub open spec fn calendar_name(p: Seq<PropertyView>) -> Seq<char> {
    trimmed(without_suffixes(or_empty(value_of(p, "X-WR-CALNAME"@)), "(FSIM)"@))
}

/// The color of a calendar.
pub open spec fn calendar_color(p: Seq<PropertyView>) -> Color {
    let c = code_or_white(value_of(p, "X-APPLE-CALENDAR-COLOR"@));
    Color { argb: packed(255, c.0, c.1, c.2) as u32 }
}

/// The events among some components, with the organizer and color of their
/// calendar. Those that cannot be read are passed over.
pub open spec fn events_of(
    components: Seq<ComponentView>,
    zones: Seq<(Zones, Zones)>,
    organizer: Seq<char>,
    color: Color,
) -> Seq<EventView>
    decreases components.len(),
{
    if components.len() == 0 {
        Seq::empty()
    } else {
        let events = events_of(components.drop_last(), zones.drop_last(), organizer, color);
        match components.last().event {
            Some(p) => match event_of(p, zones.last().0) {
                Ok(e) => events.push(EventView { organizer, color, ..e }),
                Err(_) => events,
            },
            None => events,
        }
    }
}

/// The tasks among some components, with the organizer and color of their
/// calendar. Those that cannot be read are passed over.
pub open spec fn tasks_of(
    components: Seq<ComponentView>,
    zones: Seq<(Zones, Zones)>,
    organizer: Seq<char>,
    color: Color,
) -> Seq<TaskView>
    decreases components.len(),
{
    if components.len() == 0 {
        Seq::empty()
    } else {
        let tasks = tasks_of(components.drop_last(), zones.drop_last(), organizer, color);
        match components.last().todo {
            Some(p) => match task_of(p, zones.last().1) {
                Ok(t) => tasks.push(TaskView { organizer, color, ..t }),
                Err(_) => tasks,
            },
            None => tasks,
        }
    }
}

/// The calendar of a file, where `zones` is what the machine's time zone gives
/// for the times of its components.
pub open spec fn calendar_of(text: CalendarTextView, zones: Seq<(Zones, Zones)>) -> CalendarView {
    let organizer = calendar_name(text.properties);
    let color = calendar_color(text.properties);
    CalendarView {
        events: events_of(text.components, zones, organizer, color),
        tasks: tasks_of(text.components, zones, organizer, color),
    }
}

/// Whether `zones` can be what the machine's time zone gives for the times of a
/// component.
pub open spec fn component_fits(component: ComponentView, zones: (Zones, Zones)) -> bool {
    &&& component.event matches Some(p) ==> {
        &&& zone_fits(local_wall(when_of(p, "DTSTART"@)), zones.0.start)
        &&& zone_fits(local_wall(when_of(p, "DTEND"@)), zones.0.end)
    }
    &&& component.todo matches Some(p) ==> {
        &&& zone_fits(local_wall(when_of(p, "DTSTART"@)), zones.1.start)
        &&& zone_fits(local_wall(when_of(p, "DUE"@)), zones.1.end)
        &&& zone_fits(completed_wall(p), zones.1.completed)
    }
}

/// Whether `zones` can be what the machine's time zone gives for the times of
/// all components.
pub open spec fn zones_fit(components: Seq<ComponentView>, zones: Seq<(Zones, Zones)>) -> bool {
    &&& zones.len() == components.len()
    &&& forall|i: int|
        0 <= i < components.len() ==> component_fits(#[trigger] components[i], #[trigger] zones[i])
}

/// Whether a result is the calendar of a file, for some times that the
/// machine's time zone can give, or what is said of a file that cannot be read.
pub open spec fn is_calendar(body: Seq<char>, result: Result<Calendar, String>) -> bool {
    match (file_read(body), result) {
        (Ok(text), Ok(calendar)) => is_calendar_of(text, calendar),
        (Err(why), Err(e)) => e@ == "failed to parse calendar: "@ + why,
        _ => false,
    }
}

/// Whether a calendar is that of a file, for some times that the machine's time
/// zone can give.
pub open spec fn is_calendar_of(text: CalendarTextView, calendar: Calendar) -> bool {
    exists|zones: Seq<(Zones, Zones)>| #[trigger]
        zones_fit(text.components, zones) && calendar.deep_view() == calendar_of(text, zones)
}

impl Calendar {
    /// The calendar of a file, where `zones` is what the machine's time zone
    /// gives for the times of its components, as events and as tasks.
    pub fn at_times(text: &CalendarText, zones: &Vec<(Zones, Zones)>) -> (r: Calendar)
        requires
            zones@.len() == text.components@.len(),
        ensures
            r.deep_view() == calendar_of(text.deep_view(), zones@),
    {
        let name: String = text_or_empty(find_value(&text.properties, "X-WR-CALNAME"));
        let bare: String = text::trim_end_matches(name.as_str(), "(FSIM)");
        let organizer: String = text::trim(bare.as_str());
        let color: Color = color_of_code(find_value(&text.properties, "X-APPLE-CALENDAR-COLOR"));
        assert(color == calendar_color(text.properties.deep_view()));
        let ghost all = text.components.deep_view();
        let mut events: Vec<Event> = lists::empty();
        let mut tasks: Vec<Task> = lists::empty();
        let mut i: usize = 0;
        while i < text.components.len()
            invariant
                all == text.components.deep_view(),
                zones@.len() == text.components@.len(),
                i <= text.components@.len(),
                events.deep_view() == events_of(
                    all.take(i as int),
                    zones@.take(i as int),
                    organizer@,
                    color,
                ),
                tasks.deep_view() == tasks_of(
                    all.take(i as int),
                    zones@.take(i as int),
                    organizer@,
                    color,
                ),
            decreases text.components@.len() - i,
        {
            proof {
                assert(all.take(i + 1).drop_last() =~= all.take(i as int));
                assert(zones@.take(i + 1).drop_last() =~= zones@.take(i as int));
                assert(all.take(i + 1).last() == text.components@[i as int].deep_view());
                assert(zones@.take(i + 1).last() == zones@[i as int]);
            }
            match &text.components[i].event {
                Some(p) => match Event::try_from(p, zones[i].0) {
                    Ok(e) => {
                        let event: Event = Event {
                            summary: e.summary,
                            organizer: organizer.clone(),
                            location: e.location,
                            color,
                            time_start: e.time_start,
                            time_end: e.time_end,
                            categories: e.categories,
                        };
                        lists::put(&mut events, event);
                    },
                    Err(_) => {},
                },
                None => {},
            }
            match &text.components[i].todo {
                Some(p) => match Task::try_from(p, zones[i].1) {
                    Ok(t) => {
                        let task: Task = Task {
                            summary: t.summary,
                            organizer: organizer.clone(),
                            color,
                            time_start: t.time_start,
                            time_due: t.time_due,
                            priority: t.priority,
                            completed: t.completed,
                            progress: t.progress,
                        };
                        lists::put(&mut tasks, task);
                    },
                    Err(_) => {},
                },
                None => {},
            }
            i = i + 1;
        }
        assert(all.take(i as int) =~= all);
        assert(zones@.take(i as int) =~= zones@);
        Calendar { events, tasks }
    }

    /// Reads a calendar file. The points in time of days and times without a
    /// zone are those that the machine's time zone gives, if it gives exactly one.
    pub fn read(body: &str) -> (r: Result<Calendar, String>)
        ensures
            is_calendar(body@, r),
    {
        let text: CalendarText = match ical::read_calendar(body) {
            Ok(text) => text,
            Err(why) => {
                let mut e: String = "failed to parse calendar: ".to_owned();
                e.append(why.as_str());
                return Err(e);
            },
        };
        let ghost all = text.components.deep_view();
        let mut zones: Vec<(Zones, Zones)> = Vec::new();
        let mut i: usize = 0;
        while i < text.components.len()
            invariant
                all == text.components.deep_view(),
                i <= text.components@.len(),
                zones@.len() == i,
                forall|j: int|
                    0 <= j < i ==> component_fits(#[trigger] all[j], #[trigger] zones@[j]),
            decreases text.components@.len() - i,
        {
            assert(all[i as int] == text.components@[i as int].deep_view());
            let event: Zones = match &text.components[i].event {
                Some(p) => Zones {
                    start: ask_zone(&find_when(p, "DTSTART")),
                    end: ask_zone(&find_when(p, "DTEND")),
                    completed: None,
                },
                None => Zones { start: None, end: None, completed: None },
            };
            let todo: Zones = match &text.components[i].todo {
                Some(p) => Zones {
                    start: ask_zone(&find_when(p, "DTSTART")),
                    end: ask_zone(&find_when(p, "DUE")),
                    completed: ask_completed_zone(p),
                },
                None => Zones { start: None, end: None, completed: None },
            };
            let z: (Zones, Zones) = (event, todo);
            assert(component_fits(all[i as int], z));
            zones.push(z);
            i = i + 1;
        }
        assert(zones_fit(text.deep_view().components, zones@));
        let calendar: Calendar = Calendar::at_times(&text, &zones);
        assert(is_calendar_of(text.deep_view(), calendar));
        Ok(calendar)
    }
}

// ---------------------------------------------------------------------------
// The agenda
// ---------------------------------------------------------------------------

/// The order of events by the time at which they start.
pub struct ByStart;

impl Order<Event> for ByStart {
    open spec fn before(a: EventView, b: EventView) -> bool {
        earlier(a.time_start, b.time_start)
    }

    proof fn asymmetric(a: EventView, b: EventView) {
    }

    proof fn divides(a: EventView, b: EventView, c: EventView) {
    }

    fn is_before(a: &Event, b: &Event) -> (r: bool) {
        a.time_start.is_earlier(b.time_start)
    }
}

/// The order of two values that may be missing: a missing one comes after all
/// others, and two missing ones are not told apart by anything else.
pub open spec fn time_first(a: Option<Instant>, b: Option<Instant>) -> bool {
    match (a, b) {
        (Some(x), Some(y)) => earlier(x, y),
        (Some(_), None) => true,
        _ => false,
    }
}

/// Whether a task comes before another: by the time at which it is due; of two
/// that are due together by priority; of two of one priority by their start. A
/// task that lacks one of these comes after those that have it, and two that
/// lack it rank equal.
pub open spec fn more_urgent(a: TaskView, b: TaskView) -> bool {
    ||| time_first(a.time_due, b.time_due)
    ||| a.time_due is Some && a.time_due == b.time_due && match (a.priority, b.priority) {
        (Some(p), Some(q)) => p < q || (p == q && time_first(a.time_start, b.time_start)),
        (Some(_), None) => true,
        _ => false,
    }
}

/// The order of tasks by their urgency.
pub struct ByUrgency;

impl Order<Task> for ByUrgency {
    open spec fn before(a: TaskView, b: TaskView) -> bool {
        more_urgent(a, b)
    }

    proof fn asymmetric(a: TaskView, b: TaskView) {
    }

    proof fn divides(a: TaskView, b: TaskView, c: TaskView) {
    }

    fn is_before(a: &Task, b: &Task) -> (r: bool) {
        match (a.time_due, b.time_due) {
            (Some(x), Some(y)) => {
                if x != y {
                    return x.is_earlier(y);
                }
            },
            (Some(_), None) => {
                return true;
            },
            _ => {
                return false;
            },
        }
        match (a.priority, b.priority) {
            (Some(p), Some(q)) => {
                if p != q {
                    return p < q;
                }
            },
            (Some(_), None) => {
                return true;
            },
            _ => {
                return false;
            },
        }
        match (a.time_start, b.time_start) {
            (Some(x), Some(y)) => x.is_earlier(y),
            (Some(_), None) => true,
            _ => false,
        }
    }
}

/// The events that end after a deadline.
pub open spec fn kept_events(events: Seq<EventView>, deadline: Instant) -> Seq<EventView> {
    events.filter(|e: EventView| earlier(deadline, e.time_end))
}

/// Whether a task is kept: if it is not completed, or later than `after`.
pub open spec fn keeps_task(t: TaskView, after: Instant) -> bool {
    match t.completed {
        Some(done) => earlier(after, done),
        None => true,
    }
}

/// The tasks that are not completed, or later than `after`.
pub open spec fn kept_tasks(tasks: Seq<TaskView>, after: Instant) -> Seq<TaskView> {
    tasks.filter(|t: TaskView| keeps_task(t, after))
}

/// A point in time, some minutes later.
pub open spec fn minutes_later(t: Instant, minutes: u16) -> Instant {
    Instant { secs: (t.secs + 60 * minutes) as i64, nanos: t.nanos }
}

/// Events as they are shown: in the order of their start.
pub open spec fn events_shown(events: Seq<EventView>) -> Seq<ShownEventView> {
    sorted::<Event, ByStart>(events).map_values(|e: EventView| event_shown(e))
}

/// Tasks as they are shown: in the order of their urgency.
pub open spec fn tasks_shown(tasks: Seq<TaskView>) -> Seq<ShownTaskView> {
    sorted::<Task, ByUrgency>(tasks).map_values(|t: TaskView| task_shown(t))
}

/// The point in time before which events are over for the agenda: the start of
/// yesterday in the machine's time zone, where there is exactly one.
pub fn deadline(now: DateTime) -> (r: Option<DateTime>)
    requires
        now.valid(),
        MIN_DAY < now.spec_date().days,
    ensures
        r matches Some(t) ==> shows(
            t,
            midnight_of(Date { days: (now.spec_date().days - 1) as i32 }),
        ),
        gives_single(midnight_of(Date { days: (now.spec_date().days - 1) as i32 }), r),
{
    let yesterday: Date = now.date().plus_days(-1);
    single_at(yesterday.midnight())
}

/// The events and tasks of all calendars.
#[derive(Debug)]
pub struct Agenda {
    events: Vec<Event>,
    tasks: Vec<Task>,
}

impl Agenda {
    /// The events.
    pub closed spec fn events(self) -> Seq<EventView> {
        self.events.deep_view()
    }

    /// The tasks.
    pub closed spec fn tasks(self) -> Seq<TaskView> {
        self.tasks.deep_view()
    }

    /// An empty agenda.
    pub fn new() -> (r: Agenda)
        ensures
            r.events() == Seq::<EventView>::empty(),
            r.tasks() == Seq::<TaskView>::empty(),
    {
        Agenda { events: lists::empty(), tasks: lists::empty() }
    }

    /// Adds a calendar: its events that end after the deadline, and its tasks
    /// that are not completed, or later than some minutes from now.
    pub fn add_calendar(
        &mut self,
        calendar: Calendar,
        deadline: Instant,
        now: Instant,
        show_completed: u16,
    )
        requires
            ordinary(now),
            crate::clock::in_span(now.secs + 60 * show_completed),
        ensures
            final(self).events() == old(self).events() + kept_events(
                calendar.events.deep_view(),
                deadline,
            ),
            final(self).tasks() == old(self).tasks() + kept_tasks(
                calendar.tasks.deep_view(),
                minutes_later(now, show_completed),
            ),
    {
        let after: Instant = Instant {
            secs: now.secs + 60 * (show_completed as i64),
            nanos: now.nanos,
        };
        let ghost all_events = calendar.events.deep_view();
        let ghost all_tasks = calendar.tasks.deep_view();
        let ghost old_events = self.events.deep_view();
        let ghost old_tasks = self.tasks.deep_view();
        let ghost keep_event = |e: EventView| earlier(deadline, e.time_end);
        let ghost keep_task = |t: TaskView| keeps_task(t, after);
        assert(old_events + all_events.take(0).filter(keep_event) =~= old_events);
        assert(old_tasks + all_tasks.take(0).filter(keep_task) =~= old_tasks);
        for e in it: calendar.events
            invariant
                it.seq() == calendar.events@,
                all_events == calendar.events.deep_view(),
                keep_event == (|e: EventView| earlier(deadline, e.time_end)),
                self.tasks.deep_view() == old_tasks,
                self.events.deep_view() == old_events + all_events.take(it.index()).filter(
                    keep_event,
                ),
        {
            let ghost i = it.index();
            assert(all_events[i] == calendar.events@[i].deep_view());
            assert(all_events.take(i + 1).drop_last() =~= all_events.take(i));
            let ghost kept = all_events.take(i).filter(keep_event);
            proof {
                reveal(Seq::filter);
            }
            if deadline.is_earlier(e.time_end) {
                lists::put(&mut self.events, e);
                assert((old_events + kept).push(all_events[i]) =~= old_events + kept.push(
                    all_events[i],
                ));
            }
        }
        assert(all_events.take(all_events.len() as int) =~= all_events);
        for t in it: calendar.tasks
            invariant
                it.seq() == calendar.tasks@,
                all_tasks == calendar.tasks.deep_view(),
                keep_task == (|t: TaskView| keeps_task(t, after)),
                self.events.deep_view() == old_events + all_events.filter(keep_event),
                self.tasks.deep_view() == old_tasks + all_tasks.take(it.index()).filter(keep_task),
        {
            let ghost i = it.index();
            assert(all_tasks[i] == calendar.tasks@[i].deep_view());
            assert(all_tasks.take(i + 1).drop_last() =~= all_tasks.take(i));
            let ghost kept = all_tasks.take(i).filter(keep_task);
            proof {
                reveal(Seq::filter);
            }
            let keep: bool = match t.completed {
                Some(done) => after.is_earlier(done),
                None => true,
            };
            if keep {
                lists::put(&mut self.tasks, t);
                assert((old_tasks + kept).push(all_tasks[i]) =~= old_tasks + kept.push(
                    all_tasks[i],
                ));
            }
        }
        assert(all_tasks.take(all_tasks.len() as int) =~= all_tasks);
    }

    /// What the agenda shows: the events in the order of their start, and the
    /// tasks in the order of their urgency.
    pub fn show(self) -> (r: (Vec<ShownEvent>, Vec<ShownTask>))
        ensures
            r.0.deep_view() == events_shown(self.events()),
            r.1.deep_view() == tasks_shown(self.tasks()),
    {
        let events: Vec<Event> = stable_sort::<Event, ByStart>(self.events);
        let tasks: Vec<Task> = stable_sort::<Task, ByUrgency>(self.tasks);
        let ghost es = events.deep_view();
        let ghost ts = tasks.deep_view();
        let ghost show_event = |e: EventView| event_shown(e);
        let ghost show_task = |t: TaskView| task_shown(t);
        let mut shown_events: Vec<ShownEvent> = lists::empty();
        let mut i: usize = 0;
        while i < events.len()
            invariant
                es == events.deep_view(),
                show_event == (|e: EventView| event_shown(e)),
                i <= events@.len(),
                shown_events.deep_view() == es.take(i as int).map_values(show_event),
            decreases events@.len() - i,
        {
            assert(es[i as int] == events@[i as int].deep_view());
            lists::put(&mut shown_events, events[i].to_ui());
            assert(es.take(i + 1).map_values(show_event) =~= es.take(i as int).map_values(
                show_event,
            ).push(show_event(es[i as int])));
            i = i + 1;
        }
        assert(es.take(i as int) =~= es);
        let mut shown_tasks: Vec<ShownTask> = lists::empty();
        let mut j: usize = 0;
        while j < tasks.len()
            invariant
                ts == tasks.deep_view(),
                show_task == (|t: TaskView| task_shown(t)),
                j <= tasks@.len(),
                shown_tasks.deep_view() == ts.take(j as int).map_values(show_task),
            decreases tasks@.len() - j,
        {
            assert(ts[j as int] == tasks@[j as int].deep_view());
            lists::put(&mut shown_tasks, tasks[j].to_ui());
            assert(ts.take(j + 1).map_values(show_task) =~= ts.take(j as int).map_values(
                show_task,
            ).push(show_task(ts[j as int])));
            j = j + 1;
        }
        assert(ts.take(j as int) =~= ts);
        (shown_events, shown_tasks)
    }
}

// ---------------------------------------------------------------------------
// Laws of the agenda
// ---------------------------------------------------------------------------

/// No event stands in front of one that starts before it.
pub proof fn events_are_in_order(events: Seq<EventView>, i: int, j: int)
    requires
        0 <= i < j < events.len(),
    ensures
        sorted::<Event, ByStart>(events).len() == events.len(),
        !earlier(
            sorted::<Event, ByStart>(events)[j].time_start,
            sorted::<Event, ByStart>(events)[i].time_start,
        ),
{
    sorted_len::<Event, ByStart>(events);
    sorted_in_order::<Event, ByStart>(events);
    let r = sorted::<Event, ByStart>(events);
    assert(!ByStart::before(r[j], r[i]));
}

/// No task without a time at which it is due stands in front of one that has
/// it, and of two that have it the earlier one stands in front.
pub proof fn tasks_due_come_first(tasks: Seq<TaskView>, i: int, j: int)
    requires
        0 <= i < j < tasks.len(),
    ensures
        sorted::<Task, ByUrgency>(tasks).len() == tasks.len(),
        ({
            let a = sorted::<Task, ByUrgency>(tasks)[i];
            let b = sorted::<Task, ByUrgency>(tasks)[j];
            match (a.time_due, b.time_due) {
                (Some(x), Some(y)) => !earlier(y, x),
                (None, due) => due is None,
                _ => true,
            }
        }),
{
    sorted_len::<Task, ByUrgency>(tasks);
    sorted_in_order::<Task, ByUrgency>(tasks);
    let r = sorted::<Task, ByUrgency>(tasks);
    assert(!ByUrgency::before(r[j], r[i]));
}

/// Of two tasks that are due together, one without a priority never stands in front
/// of one that has it, nor one with the higher number; and of two with one priority
/// one without a start never stands in front of one that has it, nor the later one.
pub proof fn tasks_due_together_go_by_priority(tasks: Seq<TaskView>, i: int, j: int)
    requires
        0 <= i < j < tasks.len(),
    ensures
        ({
            let a = sorted::<Task, ByUrgency>(tasks)[i];
            let b = sorted::<Task, ByUrgency>(tasks)[j];
            a.time_due is Some && a.time_due == b.time_due ==> match (a.priority, b.priority) {
                (Some(p), Some(q)) => p <= q && (p == q ==> match (a.time_start, b.time_start) {
                    (Some(x), Some(y)) => !earlier(y, x),
                    (None, start) => start is None,
                    _ => true,
                }),
                (None, priority) => priority is None,
                _ => true,
            }
        }),
{
    sorted_len::<Task, ByUrgency>(tasks);
    sorted_in_order::<Task, ByUrgency>(tasks);
    let r = sorted::<Task, ByUrgency>(tasks);
    assert(!ByUrgency::before(r[j], r[i]));
}

/// All tasks are shown. Those that agree in what they are ordered by, or lack the
/// same of it, stay as they were.
pub proof fn tasks_are_all_shown(
    tasks: Seq<TaskView>,
    due: Instant,
    priority: u32,
    start: Option<Instant>,
)
    ensures
        sorted::<Task, ByUrgency>(tasks).to_multiset() == tasks.to_multiset(),
        tasks_shown(tasks).len() == tasks.len(),
        forall|i: int|
            0 <= i < tasks.len() ==> #[trigger] tasks_shown(tasks)[i] == task_shown(
                sorted::<Task, ByUrgency>(tasks)[i],
            ),
        sorted::<Task, ByUrgency>(tasks).filter(|t: TaskView| t.time_due is None) == tasks.filter(
            |t: TaskView| t.time_due is None,
        ),
        sorted::<Task, ByUrgency>(tasks).filter(
            |t: TaskView| t.time_due == Some(due) && t.priority is None,
        ) == tasks.filter(|t: TaskView| t.time_due == Some(due) && t.priority is None),
        sorted::<Task, ByUrgency>(tasks).filter(
            |t: TaskView|
                t.time_due == Some(due) && t.priority == Some(priority) && t.time_start == start,
        ) == tasks.filter(
            |t: TaskView|
                t.time_due == Some(due) && t.priority == Some(priority) && t.time_start == start,
        ),
{
    sorted_len::<Task, ByUrgency>(tasks);
    sorted_same_values::<Task, ByUrgency>(tasks);
    sorted_keeps_equals::<Task, ByUrgency>(tasks, |t: TaskView| t.time_due is None);
    sorted_keeps_equals::<Task, ByUrgency>(
        tasks,
        |t: TaskView| t.time_due == Some(due) && t.priority is None,
    );
    sorted_keeps_equals::<Task, ByUrgency>(
        tasks,
        |t: TaskView|
            t.time_due == Some(due) && t.priority == Some(priority) && t.time_start == start,
    );
}

/// All events are shown, and those that start together stay as they were.
pub proof fn events_are_all_shown(events: Seq<EventView>, start: Instant)
    ensures
        sorted::<Event, ByStart>(events).to_multiset() == events.to_multiset(),
        events_shown(events).len() == events.len(),
        forall|i: int|
            0 <= i < events.len() ==> #[trigger] events_shown(events)[i] == event_shown(
                sorted::<Event, ByStart>(events)[i],
            ),
        sorted::<Event, ByStart>(events).filter(|e: EventView| e.time_start == start)
            == events.filter(|e: EventView| e.time_start == start),
{
    sorted_len::<Event, ByStart>(events);
    sorted_same_values::<Event, ByStart>(events);
    sorted_keeps_equals::<Event, ByStart>(events, |e: EventView| e.time_start == start);
}

/// Of an added calendar exactly those events come to the agenda that end after the
/// deadline, whenever they started, in their order.
pub proof fn events_after_the_deadline_are_kept(events: Seq<EventView>, deadline: Instant)
    ensures
        picked(
            events,
            kept_events(events, deadline),
            |e: EventView|
                deadline.secs < e.time_end.secs || deadline.secs == e.time_end.secs
                    && deadline.nanos < e.time_end.nanos,
            |e: EventView| e,
        ),
        forall|e: EventView| #[trigger]
            kept_events(events, deadline).contains(e) <==> events.contains(e) && (deadline.secs
                < e.time_end.secs || deadline.secs == e.time_end.secs && deadline.nanos
                < e.time_end.nanos),
{
    let keep = |e: EventView|
        deadline.secs < e.time_end.secs || deadline.secs == e.time_end.secs && deadline.nanos
            < e.time_end.nanos;
    let as_is = |e: EventView| e;
    let r = kept_events(events, deadline);
    assert((|e: EventView| earlier(deadline, e.time_end)) =~= keep);
    filter_picks(events, keep, as_is);
    assert(events.filter(keep).map_values(as_is) =~= r);
    picked_are_kept(events, r, keep, as_is);
    assert forall|e: EventView| events.contains(e) && keep(e) implies #[trigger] r.contains(e) by {
        assert(r.contains(as_is(e)));
    }
}

/// An event of an added calendar that goes on is among the events of the agenda,
/// whenever it started, as are all that were there before.
pub proof fn events_that_go_on_are_kept(
    before: Seq<EventView>,
    events: Seq<EventView>,
    deadline: Instant,
    now: Instant,
    e: EventView,
)
    requires
        !earlier(now, deadline),
        events.contains(e) && earlier(now, e.time_end) || before.contains(e),
    ensures
        (before + kept_events(events, deadline)).contains(e),
{
    let kept = kept_events(events, deadline);
    let all = before + kept;
    if before.contains(e) {
        let i = choose|i: int| 0 <= i < before.len() && before[i] == e;
        assert(all[i] == e);
    } else {
        events_after_the_deadline_are_kept(events, deadline);
        let i = choose|i: int| 0 <= i < kept.len() && kept[i] == e;
        assert(all[before.len() + i] == e);
    }
}

/// Of an added calendar exactly those tasks come to the agenda that are not
/// completed, or that are so only later than some minutes from now, in their order.
pub proof fn tasks_to_do_are_kept(tasks: Seq<TaskView>, now: Instant, minutes: u16)
    requires
        ordinary(now),
    ensures
        picked(
            tasks,
            kept_tasks(tasks, minutes_later(now, minutes)),
            |t: TaskView|
                t.completed matches Some(done) ==> now.secs + 60 * minutes < done.secs || now.secs
                    + 60 * minutes == done.secs && now.nanos < done.nanos,
            |t: TaskView| t,
        ),
{
    let after = minutes_later(now, minutes);
    let keep = |t: TaskView|
        t.completed matches Some(done) ==> now.secs + 60 * minutes < done.secs || now.secs + 60
            * minutes == done.secs && now.nanos < done.nanos;
    let as_is = |t: TaskView| t;
    assert((|t: TaskView| keeps_task(t, after)) =~= keep);
    filter_picks(tasks, keep, as_is);
    assert(tasks.filter(keep).map_values(as_is) =~= kept_tasks(tasks, after));
}

/// An event is what its properties say. It is refused only without a summary, a
/// start or an end, and the first of these that is missing is reported.
pub proof fn events_are_as_written(p: Seq<PropertyView>, zones: Zones)
    ensures
        event_of(p, zones) is Ok <==> value_of(p, "SUMMARY"@) is Some && time_of(
            p,
            "DTSTART"@,
            zones.start,
        ) is Some && time_of(p, "DTEND"@, zones.end) is Some,
        event_of(p, zones) == Err::<EventView, ItemError>(ItemError::Summary) <==> value_of(
            p,
            "SUMMARY"@,
        ) is None,
        event_of(p, zones) == Err::<EventView, ItemError>(ItemError::EndTime) <==> value_of(
            p,
            "SUMMARY"@,
        ) is Some && time_of(p, "DTSTART"@, zones.start) is Some && time_of(
            p,
            "DTEND"@,
            zones.end,
        ) is None,
        event_of(p, zones) matches Ok(e) ==> {
            &&& Some(e.summary) == value_of(p, "SUMMARY"@)
            &&& Some(e.time_start) == time_of(p, "DTSTART"@, zones.start)
            &&& Some(e.time_end) == time_of(p, "DTEND"@, zones.end)
            &&& match value_of(p, "LOCATION"@) {
                Some(v) => e.location == v,
                None => e.location.len() == 0,
            }
            &&& match value_of(p, "X-WR-CALNAME"@) {
                Some(v) => e.organizer == v,
                None => e.organizer.len() == 0,
            }
            &&& match value_of(p, "CATEGORIES"@) {
                Some(v) => e.categories.len() > 0 && joined(e.categories, ","@) == v
                    && forall|i: int|
                    0 <= i < e.categories.len() ==> !text::has_part(
                        #[trigger] e.categories[i],
                        ","@,
                    ),
                None => e.categories.len() == 0,
            }
        },
{
    reveal_strlit(",");
    if let Some(v) = value_of(p, "CATEGORIES"@) {
        text::split_then_join(v, ","@);
        text::pieces_hold_no_separator(v, ","@);
    }
}

/// A task is what its properties say. It is refused only without a summary.
pub proof fn tasks_are_as_written(p: Seq<PropertyView>, zones: Zones)
    ensures
        match value_of(p, "SUMMARY"@) {
            Some(summary) => task_of(p, zones) matches Ok(t) && {
                &&& t.summary == summary
                &&& t.time_start == time_of(p, "DTSTART"@, zones.start)
                &&& t.time_due == time_of(p, "DUE"@, zones.end)
                &&& t.completed == completed_of(p, zones.completed)
                &&& match priority_of(p) {
                    Some(n) => t.priority matches Some(m) && m == n,
                    None => t.priority is None,
                }
                &&& match progress_of(p) {
                    Some(n) => t.progress == n,
                    None => t.progress == 0,
                }
            },
            None => task_of(p, zones) == Err::<TaskView, ItemError>(ItemError::Summary),
        },
{
    ical::tasks_have_their_numbers(p);
    if let Some(v) = value_of(p, "PRIORITY"@) {
        text::numbers_are_not_negative(v);
    }
    if let Some(v) = value_of(p, "PERCENT-COMPLETE"@) {
        text::numbers_are_not_negative(v);
    }
}

/// The events of a calendar are those of all its components that have one that can
/// be read, and its tasks likewise, in the order of the file and otherwise unchanged.
pub proof fn calendars_hold_all_items(
    components: Seq<ComponentView>,
    zones: Seq<(Zones, Zones)>,
    organizer: Seq<char>,
    color: Color,
)
    requires
        zones.len() == components.len(),
    ensures
        picked(
            Seq::new(components.len(), |i: int| (components[i], zones[i])),
            events_of(components, zones, organizer, color),
            |c: (ComponentView, (Zones, Zones))|
                c.0.event matches Some(p) && event_of(p, c.1.0) is Ok,
            |c: (ComponentView, (Zones, Zones))|
                EventView { organizer, color, ..event_of(c.0.event->0, c.1.0)->Ok_0 },
        ),
        picked(
            Seq::new(components.len(), |i: int| (components[i], zones[i])),
            tasks_of(components, zones, organizer, color),
            |c: (ComponentView, (Zones, Zones))|
                c.0.todo matches Some(p) && task_of(p, c.1.1) is Ok,
            |c: (ComponentView, (Zones, Zones))|
                TaskView { organizer, color, ..task_of(c.0.todo->0, c.1.1)->Ok_0 },
        ),
    decreases components.len(),
{
    let s = Seq::new(components.len(), |i: int| (components[i], zones[i]));
    let keep_event = |c: (ComponentView, (Zones, Zones))|
        c.0.event matches Some(p) && event_of(p, c.1.0) is Ok;
    let event = |c: (ComponentView, (Zones, Zones))|
        EventView { organizer, color, ..event_of(c.0.event->0, c.1.0)->Ok_0 };
    let keep_task = |c: (ComponentView, (Zones, Zones))|
        c.0.todo matches Some(p) && task_of(p, c.1.1) is Ok;
    let task = |c: (ComponentView, (Zones, Zones))|
        TaskView { organizer, color, ..task_of(c.0.todo->0, c.1.1)->Ok_0 };
    if components.len() == 0 {
        pick_of_none(s, keep_event, event);
        pick_of_none(s, keep_task, task);
    } else {
        let a = components.drop_last();
        let b = zones.drop_last();
        calendars_hold_all_items(a, b, organizer, color);
        assert(s.drop_last() =~= Seq::new(a.len(), |i: int| (a[i], b[i])));
        pick_grows(s, events_of(a, b, organizer, color), keep_event, event);
        pick_grows(s, tasks_of(a, b, organizer, color), keep_task, task);
    }
}

/// The machine's time zone is asked for every time on the wall clock in a calendar:
/// an event with a summary whose times it knows is in the calendar, at these times.
pub proof fn local_events_are_found(
    text: CalendarTextView,
    calendar: Calendar,
    i: int,
    start: WallTime,
    end: WallTime,
)
    requires
        is_calendar_of(text, calendar),
        0 <= i < text.components.len(),
        text.components[i].event matches Some(p) && value_of(p, "SUMMARY"@) is Some && local_wall(
            when_of(p, "DTSTART"@),
        ) == Some(start) && local_wall(when_of(p, "DTEND"@)) == Some(end),
        !gives_single(start, None),
        !gives_single(end, None),
    ensures
        exists|k: int| #[trigger]
            holds_event(calendar.events.deep_view(), k, start, end) && Some(
                calendar.events.deep_view()[k].summary,
            ) == value_of(text.components[i].event->0, "SUMMARY"@),
{
    let zones = choose|zones: Seq<(Zones, Zones)>| #[trigger]
        zones_fit(text.components, zones) && calendar.deep_view() == calendar_of(text, zones);
    let organizer = calendar_name(text.properties);
    let color = calendar_color(text.properties);
    let p = text.components[i].event->0;
    assert(component_fits(text.components[i], zones[i]));
    ical::local_times_are_lost_only_to_the_zone(p, "DTSTART"@, zones[i].0.start, start);
    ical::local_times_are_lost_only_to_the_zone(p, "DTEND"@, zones[i].0.end, end);
    calendars_hold_all_items(text.components, zones, organizer, color);
    let s = Seq::new(text.components.len(), |i: int| (text.components[i], zones[i]));
    let keep = |c: (ComponentView, (Zones, Zones))|
        c.0.event matches Some(p) && event_of(p, c.1.0) is Ok;
    let event = |c: (ComponentView, (Zones, Zones))|
        EventView { organizer, color, ..event_of(c.0.event->0, c.1.0)->Ok_0 };
    let r = calendar.events.deep_view();
    assert(r == events_of(text.components, zones, organizer, color));
    picked_are_kept(s, r, keep, event);
    assert(s[i] == (text.components[i], zones[i]));
    assert(s.contains(s[i]));
    assert(r.contains(event(s[i])));
    let k = choose|k: int| 0 <= k < r.len() && r[k] == event(s[i]);
    let x = zones[i].0.start->0;
    let y = zones[i].0.end->0;
    assert(is_time_for(start, x) && is_time_for(end, y));
    assert(holds_event(r, k, start, end));
}

/// Whether the machine's time zone gives a point in time for a time on the wall clock.
pub open spec fn is_time_for(wall: WallTime, t: DateTime) -> bool {
    gives_single(wall, Some(t)) && shows(t, wall)
}

/// Whether the event at a place starts and ends when the machine's time zone says
/// for two times on the wall clock.
pub open spec fn holds_event(
    events: Seq<EventView>,
    k: int,
    start: WallTime,
    end: WallTime,
) -> bool {
    &&& 0 <= k < events.len()
    &&& exists|x: DateTime| #[trigger] is_time_for(start, x) && x.at == events[k].time_start
    &&& exists|y: DateTime| #[trigger] is_time_for(end, y) && y.at == events[k].time_end
}

/// The name of a calendar is cut at its end, and nowhere else: without the suffix,
/// however often it stands there, and without white space.
pub proof fn calendars_are_named(p: Seq<PropertyView>, q: Seq<PropertyView>, name: Seq<char>)
    requires
        value_of(p, "X-WR-CALNAME"@) == Some(name),
        value_of(q, "X-WR-CALNAME"@) == Some(name + "(FSIM)"@),
    ensures
        calendar_name(q) == calendar_name(p),
        !("(FSIM)"@).is_suffix_of(name) ==> calendar_name(p) == trimmed(name),
{
    reveal_strlit("(FSIM)");
    text::affixes_are_taken_off(name, "(FSIM)"@);
}

/// The color of a calendar is opaque, with the red, green and blue of its code; that
/// of an event in itself holds the bytes of its code as they stand. Without a code
/// that can be read they are white.
pub proof fn colors_come_from_codes(p: Seq<PropertyView>, code: Seq<char>)
    ensures
        value_of(p, "X-APPLE-CALENDAR-COLOR"@) is None ==> calendar_color(p).argb == 0xFFFF_FFFF
            && own_color(p).argb == 0xFFFF_FFFF,
        value_of(p, "X-APPLE-CALENDAR-COLOR"@) == Some(code) ==> match crate::color::hex_color(
            code,
        ) {
            Some((r, g, b, a)) => {
                &&& calendar_color(p).argb == 0xFF00_0000 + r * 0x1_0000 + g * 0x1_00 + b
                &&& own_color(p).argb == r * 0x1_000000 + g * 0x1_0000 + b * 0x1_00 + a
            },
            None => calendar_color(p).argb == 0xFFFF_FFFF && own_color(p).argb == 0xFFFF_FFFF,
        },
{
}

/// An event is shown with its own texts and color, its categories separated by
/// commas, and its times in seconds.
pub proof fn events_are_shown_whole(e: EventView)
    requires
        i32::MIN <= e.time_start.secs <= i32::MAX,
        i32::MIN <= e.time_end.secs <= i32::MAX,
    ensures
        event_shown(e).summary == e.summary,
        event_shown(e).location == e.location,
        event_shown(e).organizer == e.organizer,
        event_shown(e).color == e.color,
        event_shown(e).categories == joined(e.categories, ", "@),
        event_shown(e).time_start == e.time_start.secs,
        event_shown(e).time_end == e.time_end.secs,
{
    crate::numbers::small_numbers_stay(e.time_start.secs as int);
    crate::numbers::small_numbers_stay(e.time_end.secs as int);
}

/// A task is shown with its own texts, color and progress, its times in seconds or
/// as 0, and as complete where it was completed. Without a priority it has the
/// largest number.
pub proof fn tasks_are_shown_whole(t: TaskView)
    requires
        t.time_start matches Some(x) ==> i32::MIN <= x.secs <= i32::MAX,
        t.time_due matches Some(x) ==> i32::MIN <= x.secs <= i32::MAX,
        t.priority matches Some(n) ==> n <= i32::MAX,
    ensures
        task_shown(t).summary == t.summary,
        task_shown(t).organizer == t.organizer,
        task_shown(t).color == t.color,
        task_shown(t).progress == t.progress,
        task_shown(t).complete <==> t.completed is Some,
        match t.time_start {
            Some(x) => task_shown(t).time_start == x.secs,
            None => task_shown(t).time_start == 0,
        },
        match t.time_due {
            Some(x) => task_shown(t).time_due == x.secs,
            None => task_shown(t).time_due == 0,
        },
        match t.priority {
            Some(n) => task_shown(t).priority == n,
            None => task_shown(t).priority == i32::MAX,
        },
{
    if let Some(x) = t.time_start {
        crate::numbers::small_numbers_stay(x.secs as int);
    }
    if let Some(x) = t.time_due {
        crate::numbers::small_numbers_stay(x.secs as int);
    }
}

/// All events and tasks of a calendar have its name as their organizer, and its
/// color.
pub proof fn items_carry_their_calendar(text: CalendarTextView, zones: Seq<(Zones, Zones)>)
    requires
        zones.len() == text.components.len(),
    ensures
        forall|i: int|
            0 <= i < calendar_of(text, zones).events.len() ==> (#[trigger] calendar_of(
                text,
                zones,
            ).events[i]).organizer == calendar_name(text.properties) && calendar_of(
                text,
                zones,
            ).events[i].color == calendar_color(text.properties),
        forall|i: int|
            0 <= i < calendar_of(text, zones).tasks.len() ==> (#[trigger] calendar_of(
                text,
                zones,
            ).tasks[i]).organizer == calendar_name(text.properties) && calendar_of(
                text,
                zones,
            ).tasks[i].color == calendar_color(text.properties),
{
    items_carry(
        text.components,
        zones,
        calendar_name(text.properties),
        calendar_color(text.properties),
    );
}

proof fn items_carry(
    components: Seq<ComponentView>,
    zones: Seq<(Zones, Zones)>,
    organizer: Seq<char>,
    color: Color,
)
    requires
        zones.len() == components.len(),
    ensures
        forall|i: int|
            0 <= i < events_of(components, zones, organizer, color).len() ==> (
            #[trigger] events_of(components, zones, organizer, color)[i]).organizer == organizer
                && events_of(components, zones, organizer, color)[i].color == color,
        forall|i: int|
            0 <= i < tasks_of(components, zones, organizer, color).len() ==> (
            #[trigger] tasks_of(components, zones, organizer, color)[i]).organizer == organizer
                && tasks_of(components, zones, organizer, color)[i].color == color,
    decreases components.len(),
{
    if components.len() > 0 {
        items_carry(components.drop_last(), zones.drop_last(), organizer, color);
        let es = events_of(components, zones, organizer, color);
        let old_es = events_of(components.drop_last(), zones.drop_last(), organizer, color);
        assert forall|i: int| 0 <= i < es.len() implies (#[trigger] es[i]).organizer == organizer
            && es[i].color == color by {
            if i < old_es.len() {
                assert(es[i] == old_es[i]);
            }
        }
        let ts = tasks_of(components, zones, organizer, color);
        let old_ts = tasks_of(components.drop_last(), zones.drop_last(), organizer, color);
        assert forall|i: int| 0 <= i < ts.len() implies (#[trigger] ts[i]).organizer == organizer
            && ts[i].color == color by {
            if i < old_ts.len() {
                assert(ts[i] == old_ts[i]);
            }
        }
    }
}

/// The machine's time zone is asked for every time on the wall clock at which a task
/// starts, is due or was completed.
pub proof fn local_times_of_tasks_are_asked_for(
    components: Seq<ComponentView>,
    zones: Seq<(Zones, Zones)>,
    i: int,
    wall: WallTime,
)
    requires
        zones_fit(components, zones),
        0 <= i < components.len(),
        components[i].todo is Some,
    ensures
        ({
            let p = components[i].todo->0;
            &&& local_wall(when_of(p, "DTSTART"@)) == Some(wall) ==> gives_single(
                wall,
                zones[i].1.start,
            )
            &&& local_wall(when_of(p, "DUE"@)) == Some(wall) ==> gives_single(wall, zones[i].1.end)
            &&& completed_wall(p) == Some(wall) ==> gives_single(wall, zones[i].1.completed)
        }),
{
    assert(component_fits(components[i], zones[i]));
}

/// An event or a task that was read is the one that its value says, and so is an error.
pub proof fn items_come_to_their_value(
    event: Result<Event, ItemError>,
    event_value: Result<EventView, ItemError>,
    task: Result<Task, ItemError>,
    task_value: Result<TaskView, ItemError>,
)
    requires
        is_event(event, event_value),
        is_task(task, task_value),
    ensures
        match event {
            Ok(e) => event_value == Ok::<EventView, ItemError>(e.deep_view()),
            Err(e) => event_value == Err::<EventView, ItemError>(e),
        },
        match task {
            Ok(t) => task_value == Ok::<TaskView, ItemError>(t.deep_view()),
            Err(e) => task_value == Err::<TaskView, ItemError>(e),
        },
{
}

/// A file that can be read gives a calendar; what is said of another one is reported.
pub proof fn readable_files_give_calendars(body: Seq<char>, result: Result<Calendar, String>)
    requires
        is_calendar(body, result),
    ensures
        file_read(body) is Ok <==> result is Ok,
        file_read(body) matches Ok(text) ==> exists|zones: Seq<(Zones, Zones)>| #[trigger]
            zones_fit(text.components, zones) && (result->Ok_0).deep_view() == calendar_of(
                text,
                zones,
            ),
        file_read(body) matches Err(why) ==> (result->Err_0)@ == "failed to parse calendar: "@
            + why,
{
}

} // verus!
