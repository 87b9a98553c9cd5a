//! The plain list of a calendar: events and tasks alike as rows.

use vstd::prelude::*;
use crate::agenda::or_empty;
use crate::clock::{gives_single, DateTime, WallTime};
use crate::date::Date;
use crate::ical::{self, ask_zone, dt_convert, file_read, find_value, find_when, instant_of, local_wall, value_of, when_of, zone_fits, CalendarText, CalendarTextView, ComponentView, Property, PropertyView, When, WhenView};
use crate::lists::{self, filter_picks, pick_grows, pick_of_none, picked, picked_are_kept};
use crate::numbers::{wrap_i32, wrapped};
use crate::order::{sorted, sorted_in_order, sorted_keeps_equals, sorted_len, sorted_same_values, stable_sort, Order};
use crate::text::{self, replaced};

verus! {

/// An event or a task as a row of the list.
#[derive(Debug)]
pub struct Row {
    pub summary: String,
    pub location: String,
    pub categories: String,
    pub time_start: i32,
    pub time_end: i32,
    pub organiser: String,
}

/// What a `Row` holds.
#[verifier::ext_equal]
pub struct RowView {
    pub summary: Seq<char>,
    pub location: Seq<char>,
    pub categories: Seq<char>,
    pub time_start: i32,
    pub time_end: i32,
    pub organiser: Seq<char>,
}

impl DeepView for Row {
    type V = RowView;

    open spec fn deep_view(&self) -> RowView {
        RowView {
            summary: self.summary@,
            location: self.location@,
            categories: self.categories@,
            time_start: self.time_start,
            time_end: self.time_end,
            organiser: self.organiser@,
        }
    }
}

/// Why a component is no row.
#[derive(Clone, Copy, Debug, PartialEq, Eq, Structural)]
pub enum RowError {
    Summary,
    StartTime,
    ToUtc,
    ToDateTime,
}

impl RowError {
    /// The error in words.
    pub fn message(self) -> (r: String)
        ensures
            r@ == (match self {
                RowError::Summary => "summary missing"@,
                RowError::StartTime => "missing start time"@,
                RowError::ToUtc => "failed to convert datetime to UTC"@,
                RowError::ToDateTime => "failed to convert date to datetime"@,
            }),
    {
        match self {
            RowError::Summary => "summary missing".to_owned(),
            RowError::StartTime => "missing start time".to_owned(),
            RowError::ToUtc => "failed to convert datetime to UTC".to_owned(),
            RowError::ToDateTime => "failed to convert date to datetime".to_owned(),
        }
    }
}

/// The seconds of a time, as far as they fit in 32 bits. Times without a zone
/// are not converted; for days `zone` is what the machine's time zone gives.
pub open spec fn row_secs(time: WhenView, zone: Option<DateTime>) -> Result<i32, RowError> {
    match time {
        WhenView::Floating(_) => Err(RowError::ToUtc),
        WhenView::Date(_) => match instant_of(time, zone) {
            Some(t) => Ok(wrapped(t.secs as int) as i32),
            None => Err(RowError::ToDateTime),
        },
        _ => match instant_of(time, zone) {
            Some(t) => Ok(wrapped(t.secs as int) as i32),
            None => Err(RowError::ToUtc),
        },
    }
}

fn convert(time: &When, zone: Option<DateTime>) -> (r: Result<i32, RowError>)
    requires
        time.deep_view().valid(),
    ensures
        r == row_secs(time.deep_view(), zone),
{
    match time {
        When::Floating(_) => Err(RowError::ToUtc),
        When::Date(_) => match dt_convert(time, zone) {
            Some(t) => Ok(wrap_i32(t.secs)),
            None => Err(RowError::ToDateTime),
        },
        _ => match dt_convert(time, zone) {
            Some(t) => Ok(wrap_i32(t.secs)),
            None => Err(RowError::ToUtc),
        },
    }
}

/// The seconds of the start of a component.
pub open spec fn start_secs(p: Seq<PropertyView>, zone: Option<DateTime>) -> Result<
    i32,
    RowError,
> {
    match when_of(p, "DTSTART"@) {
        None => Err(RowError::StartTime),
        Some(time) => row_secs(time, zone),
    }
}

/// The seconds of the end of a component, and 0 where there is none.
pub open spec fn end_secs(p: Seq<PropertyView>, zone: Option<DateTime>) -> i32 {
    match when_of(p, "DTEND"@) {
        None => 0,
        Some(time) => match row_secs(time, zone) {
            Ok(secs) => secs,
            Err(_) => 0,
        },
    }
}

/// The row of some properties: it needs a summary and a start.
pub open spec fn row_of(
    p: Seq<PropertyView>,
    start: Option<DateTime>,
    end: Option<DateTime>,
) -> Result<RowView, RowError> {
    match value_of(p, "SUMMARY"@) {
        None => Err(RowError::Summary),
        Some(summary) => match start_secs(p, start) {
            Err(e) => Err(e),
            Ok(time_start) => Ok(
                RowView {
                    summary,
                    location: or_empty(value_of(p, "LOCATION"@)),
                    categories: match value_of(p, "CATEGORIES"@) {
                        Some(v) => replaced(v, ","@, ", "@),
                        None => Seq::empty(),
                    },
                    time_start,
                    time_end: end_secs(p, end),
                    organiser: Seq::empty(),
                },
            ),
        },
    }
}

/// Whether a result holds the row, or the error, of `value`.
pub open spec fn is_row(result: Result<Row, RowError>, value: Result<RowView, RowError>) -> bool {
    match (result, value) {
        (Ok(row), Ok(v)) => row.deep_view() == v,
        (Err(e), Err(f)) => e == f,
        _ => false,
    }
}

impl Row {
    /// The row of some properties, where `start` and `end` are what the
    /// machine's time zone gives for its days.
    pub fn try_from(
        p: &Vec<Property>,
        start: Option<DateTime>,
        end: Option<DateTime>,
    ) -> (r: Result<Row, RowError>)
        ensures
            is_row(r, row_of(p.deep_view(), start, end)),
    {
        let summary: String = match find_value(p, "SUMMARY") {
            Some(s) => s.to_owned(),
            None => {
                return Err(RowError::Summary);
            },
        };
        let location: String = match find_value(p, "LOCATION") {
            Some(s) => s.to_owned(),
            None => String::new(),
        };
        proof {
            reveal_strlit(",");
        }
        let categories: String = match find_value(p, "CATEGORIES") {
            Some(s) => text::replace(s, ",", ", "),
            None => String::new(),
        };
        let time_start: i32 = match find_when(p, "DTSTART") {
            Some(time) => match convert(&time, start) {
                Ok(secs) => secs,
                Err(e) => {
                    return Err(e);
                },
            },
            None => {
                return Err(RowError::StartTime);
            },
        };
        let time_end: i32 = match find_when(p, "DTEND") {
            Some(time) => match convert(&time, end) {
                Ok(secs) => secs,
                Err(_) => 0,
            },
            None => 0,
        };
        Ok(Row { summary, location, categories, time_start, time_end, organiser: String::new() })
    }
}

/// The properties of an event (`todo` is false) or of a task (`todo` is true).
pub open spec fn properties_of(component: ComponentView, todo: bool) -> Option<
    Seq<PropertyView>,
> {
    if todo {
        component.todo
    } else {
        component.event
    }
}

/// What the machine's time zone gives for a start and an end.
pub type Pair = (Option<DateTime>, Option<DateTime>);

/// What the machine's time zone gives for an event or a task.
pub open spec fn zone_of(zones: (Pair, Pair), todo: bool) -> Pair {
    if todo {
        zones.1
    } else {
        zones.0
    }
}

/// The rows of the events or of the tasks among some components. Those that are
/// no row are passed over.
pub open spec fn rows_of(
    components: Seq<ComponentView>,
    zones: Seq<(Pair, Pair)>,
    todo: bool,
) -> Seq<RowView>
    decreases components.len(),
{
    if components.len() == 0 {
        Seq::empty()
    } else {
        let rows = rows_of(components.drop_last(), zones.drop_last(), todo);
        match properties_of(components.last(), todo) {
            Some(p) => match row_of(
                p,
                zone_of(zones.last(), todo).0,
                zone_of(zones.last(), todo).1,
            ) {
                Ok(row) => rows.push(row),
                Err(_) => rows,
            },
            None => rows,
        }
    }
}

/// The rows of a calendar: its events and its tasks.
#[derive(Debug)]
pub struct Rows {
    pub events: Vec<Row>,
    pub tasks: Vec<Row>,
}

/// Whether `zone` can be what the machine's time zone gives for the start and
/// the end of some properties.
pub open spec fn pair_fits(
    p: Seq<PropertyView>,
    zone: Pair,
) -> bool {
    &&& zone_fits(local_wall(when_of(p, "DTSTART"@)), zone.0)
    &&& zone_fits(local_wall(when_of(p, "DTEND"@)), zone.1)
}

/// Whether `zones` can be what the machine's time zone gives for a component, as
/// an event and as a task.
pub open spec fn component_fits(component: ComponentView, zones: (Pair, Pair)) -> bool {
    &&& component.event matches Some(p) ==> pair_fits(p, zones.0)
    &&& component.todo matches Some(p) ==> pair_fits(p, zones.1)
}

/// Whether `zones` can be what the machine's time zone gives for all components.
pub open spec fn zones_fit(
    components: Seq<ComponentView>,
    zones: Seq<(Pair, Pair)>,
) -> bool {
    &&& zones.len() == components.len()
    &&& forall|i: int|
        0 <= i < components.len() ==> component_fits(#[trigger] components[i], #[trigger] zones[i])
}

/// Whether rows are those of a file, for some times that the machine's time
/// zone can give.
pub open spec fn are_rows_of(text: CalendarTextView, rows: Rows) -> bool {
    exists|zones: Seq<(Pair, Pair)>| #[trigger]
        zones_fit(text.components, zones) && rows.events.deep_view() == rows_of(
            text.components,
            zones,
            false,
        ) && rows.tasks.deep_view() == rows_of(text.components, zones, true)
}

/// Whether a result holds the rows of a file, for some times that the machine's
/// time zone can give, or what is said of a file that cannot be read.
pub open spec fn are_rows(body: Seq<char>, result: Result<Rows, String>) -> bool {
    match (file_read(body), result) {
        (Ok(text), Ok(rows)) => are_rows_of(text, rows),
        (Err(why), Err(e)) => e@ == "failed to parse calendar: "@ + why,
        _ => false,
    }
}

impl Rows {
    /// The rows of a file, where `zones` is what the machine's time zone gives
    /// for the days of its components.
    pub fn at_times(
        text: &CalendarText,
        zones: &Vec<(Pair, Pair)>,
    ) -> (r: Rows)
        requires
            zones@.len() == text.components@.len(),
        ensures
            r.events.deep_view() == rows_of(text.deep_view().components, zones@, false),
            r.tasks.deep_view() == rows_of(text.deep_view().components, zones@, true),
    {
        let ghost all = text.components.deep_view();
        let mut events: Vec<Row> = lists::empty();
        let mut tasks: Vec<Row> = lists::empty();
        let mut i: usize = 0;
        while i < text.components.len()
            invariant
                all == text.components.deep_view(),
                zones@.len() == text.components@.len(),
                i <= text.components@.len(),
                events.deep_view() == rows_of(all.take(i as int), zones@.take(i as int), false),
                tasks.deep_view() == rows_of(all.take(i as int), zones@.take(i as int), true),
            decreases text.components@.len() - i,
        {
            proof {
                assert(all.take(i + 1).drop_last() =~= all.take(i as int));
                assert(zones@.take(i + 1).drop_last() =~= zones@.take(i as int));
                assert(all.take(i + 1).last() == text.components@[i as int].deep_view());
                assert(zones@.take(i + 1).last() == zones@[i as int]);
            }
            match &text.components[i].event {
                Some(p) => match Row::try_from(p, zones[i].0.0, zones[i].0.1) {
                    Ok(row) => {
                        lists::put(&mut events, row);
                    },
                    Err(_) => {},
                },
                None => {},
            }
            match &text.components[i].todo {
                Some(p) => match Row::try_from(p, zones[i].1.0, zones[i].1.1) {
                    Ok(row) => {
                        lists::put(&mut tasks, row);
                    },
                    Err(_) => {},
                },
                None => {},
            }
            i = i + 1;
        }
        assert(all.take(i as int) =~= all);
        assert(zones@.take(i as int) =~= zones@);
        Rows { events, tasks }
    }

    /// Reads a calendar file. The points in time of days are those that the
    /// machine's time zone gives, if it gives exactly one.
    pub fn read(body: &str) -> (r: Result<Rows, String>)
        ensures
            are_rows(body@, r),
    {
        let text: CalendarText = match ical::read_calendar(body) {
            Ok(text) => text,
            Err(why) => {
                let mut e: String = "failed to parse calendar: ".to_owned();
                e.append(why.as_str());
                return Err(e);
            },
        };
        let ghost all = text.components.deep_view();
        let mut zones: Vec<(Pair, Pair)> = Vec::new();
        let mut i: usize = 0;
        while i < text.components.len()
            invariant
                all == text.components.deep_view(),
                i <= text.components@.len(),
                zones@.len() == i,
                forall|j: int|
                    0 <= j < i ==> component_fits(#[trigger] all[j], #[trigger] zones@[j]),
            decreases text.components@.len() - i,
        {
            assert(all[i as int] == text.components@[i as int].deep_view());
            let event: Pair = match &text.components[i].event {
                Some(p) => (
                    ask_zone(&find_when(p, "DTSTART")),
                    ask_zone(&find_when(p, "DTEND")),
                ),
                None => (None, None),
            };
            let todo: Pair = match &text.components[i].todo {
                Some(p) => (
                    ask_zone(&find_when(p, "DTSTART")),
                    ask_zone(&find_when(p, "DTEND")),
                ),
                None => (None, None),
            };
            let z: (Pair, Pair) = (event, todo);
            assert(component_fits(all[i as int], z));
            zones.push(z);
            i = i + 1;
        }
        assert(zones_fit(text.deep_view().components, zones@));
        let rows: Rows = Rows::at_times(&text, &zones);
        assert(are_rows_of(text.deep_view(), rows));
        Ok(rows)
    }
}

// ---------------------------------------------------------------------------
// The list
// ---------------------------------------------------------------------------

/// The order of rows by their start.
pub struct ByStart;

impl Order<Row> for ByStart {
    open spec fn before(a: RowView, b: RowView) -> bool {
        a.time_start < b.time_start
    }

    proof fn asymmetric(a: RowView, b: RowView) {
    }

    proof fn divides(a: RowView, b: RowView, c: RowView) {
    }

    fn is_before(a: &Row, b: &Row) -> (r: bool) {
        a.time_start < b.time_start
    }
}

/// The rows that ended less than a day before the start of a day.
pub open spec fn recent(rows: Seq<RowView>, today: Date) -> Seq<RowView> {
    rows.filter(|row: RowView| row.time_end + 86400 > today.days * 86400)
}

/// Adds the rows of a calendar that ended less than a day before the start of a
/// day to a list.
pub fn add_recent(list: Vec<Row>, rows: Vec<Row>, today: Date) -> (r: Vec<Row>)
    ensures
        r.deep_view() == list.deep_view() + recent(rows.deep_view(), today),
{
    let ghost before = list.deep_view();
    let ghost all = rows.deep_view();
    let ghost keep = |row: RowView| row.time_end + 86400 > today.days * 86400;
    let mut r: Vec<Row> = list;
    assert(before + all.take(0).filter(keep) =~= before);
    for row in it: rows
        invariant
            it.seq() == rows@,
            all == rows.deep_view(),
            keep == (|row: RowView| row.time_end + 86400 > today.days * 86400),
            r.deep_view() == before + all.take(it.index()).filter(keep),
    {
        let ghost i = it.index();
        assert(all[i] == rows@[i].deep_view());
        assert(all.take(i + 1).drop_last() =~= all.take(i));
        let ghost kept = all.take(i).filter(keep);
        proof {
            reveal(Seq::filter);
        }
        if row.time_end as i64 + 86400 > today.days as i64 * 86400 {
            lists::put(&mut r, row);
            assert((before + kept).push(all[i]) =~= before + kept.push(all[i]));
        }
    }
    assert(all.take(all.len() as int) =~= all);
    r
}

/// Puts the rows in the order of their start.
pub fn sort_rows(rows: Vec<Row>) -> (r: Vec<Row>)
    ensures
        r.deep_view() == sorted::<Row, ByStart>(rows.deep_view()),
{
    stable_sort::<Row, ByStart>(rows)
}

// ---------------------------------------------------------------------------
// Laws of the list
// ---------------------------------------------------------------------------

/// A row has the seconds of its time where they fit in 32 bits: of a point in time in
/// UTC, of one in a zone that is known, and of the midnight that the machine's time
/// zone gives for a day. A time without a zone has none.
pub proof fn rows_have_the_seconds_of_their_times(time: WhenView, zone: Option<DateTime>)
    ensures
        time is Floating ==> row_secs(time, zone) == Err::<i32, RowError>(RowError::ToUtc),
        time matches WhenView::Utc(t) ==> (i32::MIN <= t.secs <= i32::MAX ==> row_secs(time, zone)
            == Ok::<i32, RowError>(t.secs as i32)),
        time is Date ==> match zone {
            Some(t) => row_secs(time, zone) is Ok && (i32::MIN <= t.at.secs <= i32::MAX
                ==> row_secs(time, zone) == Ok::<i32, RowError>(t.at.secs as i32)),
            None => row_secs(time, zone) == Err::<i32, RowError>(RowError::ToDateTime),
        },
        time is Zoned ==> match instant_of(time, zone) {
            Some(t) => row_secs(time, zone) is Ok && (i32::MIN <= t.secs <= i32::MAX ==> row_secs(
                time,
                zone,
            ) == Ok::<i32, RowError>(t.secs as i32)),
            None => row_secs(time, zone) == Err::<i32, RowError>(RowError::ToUtc),
        },
{
    if let Some(t) = instant_of(time, zone) {
        if i32::MIN <= t.secs <= i32::MAX {
            crate::numbers::small_numbers_stay(t.secs as int);
        }
    }
}

/// A row is what the properties say. It is refused only without a summary or a start;
/// without an end it has 0 in its place.
pub proof fn rows_are_as_written(
    p: Seq<PropertyView>,
    start: Option<DateTime>,
    end: Option<DateTime>,
)
    ensures
        value_of(p, "SUMMARY"@) is None ==> row_of(p, start, end) == Err::<RowView, RowError>(
            RowError::Summary,
        ),
        value_of(p, "SUMMARY"@) is Some && when_of(p, "DTSTART"@) is None ==> row_of(
            p,
            start,
            end,
        ) == Err::<RowView, RowError>(RowError::StartTime),
        value_of(p, "SUMMARY"@) matches Some(summary) ==> (when_of(p, "DTSTART"@) matches Some(
            time,
        ) ==> match (row_secs(time, start), row_of(p, start, end)) {
            (Ok(secs), Ok(row)) => {
                &&& row.summary == summary
                &&& row.time_start == secs
                &&& row.organiser.len() == 0
                &&& match value_of(p, "LOCATION"@) {
                    Some(v) => row.location == v,
                    None => row.location.len() == 0,
                }
                &&& match value_of(p, "CATEGORIES"@) {
                    Some(v) => row.categories == replaced(v, ","@, ", "@),
                    None => row.categories.len() == 0,
                }
                &&& match when_of(p, "DTEND"@) {
                    Some(last) => match row_secs(last, end) {
                        Ok(n) => row.time_end == n,
                        Err(_) => row.time_end == 0,
                    },
                    None => row.time_end == 0,
                }
            },
            (Err(e), Err(f)) => e == f,
            _ => false,
        }),
{
}

/// The list has a row for each component of the kind that can be one, in the order of
/// the file, and no others.
pub proof fn lists_hold_all_rows(
    components: Seq<ComponentView>,
    zones: Seq<(Pair, Pair)>,
    todo: bool,
)
    requires
        zones.len() == components.len(),
    ensures
        picked(
            Seq::new(components.len(), |i: int| (components[i], zones[i])),
            rows_of(components, zones, todo),
            |c: (ComponentView, (Pair, Pair))|
                if todo {
                    c.0.todo matches Some(p) && row_of(p, c.1.1.0, c.1.1.1) is Ok
                } else {
                    c.0.event matches Some(p) && row_of(p, c.1.0.0, c.1.0.1) is Ok
                },
            |c: (ComponentView, (Pair, Pair))|
                if todo {
                    row_of(c.0.todo->0, c.1.1.0, c.1.1.1)->Ok_0
                } else {
                    row_of(c.0.event->0, c.1.0.0, c.1.0.1)->Ok_0
                },
        ),
    decreases components.len(),
{
    let s = Seq::new(components.len(), |i: int| (components[i], zones[i]));
    let keep = |c: (ComponentView, (Pair, Pair))|
        if todo {
            c.0.todo matches Some(p) && row_of(p, c.1.1.0, c.1.1.1) is Ok
        } else {
            c.0.event matches Some(p) && row_of(p, c.1.0.0, c.1.0.1) is Ok
        };
    let row = |c: (ComponentView, (Pair, Pair))|
        if todo {
            row_of(c.0.todo->0, c.1.1.0, c.1.1.1)->Ok_0
        } else {
            row_of(c.0.event->0, c.1.0.0, c.1.0.1)->Ok_0
        };
    if components.len() == 0 {
        pick_of_none(s, keep, row);
    } else {
        let a = components.drop_last();
        let b = zones.drop_last();
        lists_hold_all_rows(a, b, todo);
        assert(s.drop_last() =~= Seq::new(a.len(), |i: int| (a[i], b[i])));
        pick_grows(s, rows_of(a, b, todo), keep, row);
    }
}

/// The machine's time zone is asked for every day and every time without a zone at
/// which a component starts or ends.
pub proof fn local_times_of_rows_are_asked_for(
    components: Seq<ComponentView>,
    zones: Seq<(Pair, Pair)>,
    i: int,
    wall: WallTime,
)
    requires
        zones_fit(components, zones),
        0 <= i < components.len(),
    ensures
        components[i].event matches Some(p) ==> {
            &&& local_wall(when_of(p, "DTSTART"@)) == Some(wall) ==> gives_single(
                wall,
                zones[i].0.0,
            )
            &&& local_wall(when_of(p, "DTEND"@)) == Some(wall) ==> gives_single(wall, zones[i].0.1)
        },
        components[i].todo matches Some(p) ==> {
            &&& local_wall(when_of(p, "DTSTART"@)) == Some(wall) ==> gives_single(
                wall,
                zones[i].1.0,
            )
            &&& local_wall(when_of(p, "DTEND"@)) == Some(wall) ==> gives_single(wall, zones[i].1.1)
        },
{
    assert(component_fits(components[i], zones[i]));
}

/// A row is added to the list if and only if it ended less than a day before the start
/// of the day, whenever it started; all that were there stay in front.
pub proof fn recent_rows_are_added(list: Seq<RowView>, rows: Seq<RowView>, today: Date)
    ensures
        picked(
            rows,
            recent(rows, today),
            |row: RowView| 86400 * today.days - row.time_end < 86400,
            |row: RowView| row,
        ),
        forall|row: RowView|
            list.contains(row) || (rows.contains(row) && 86400 * today.days - row.time_end < 86400)
                <==> #[trigger] (list + recent(rows, today)).contains(row),
{
    let keep = |row: RowView| 86400 * today.days - row.time_end < 86400;
    let as_is = |row: RowView| row;
    let r = recent(rows, today);
    let all = list + r;
    assert((|row: RowView| row.time_end + 86400 > today.days * 86400) =~= keep);
    filter_picks(rows, keep, as_is);
    assert(rows.filter(keep).map_values(as_is) =~= r);
    picked_are_kept(rows, r, keep, as_is);
    assert forall|row: RowView|
        list.contains(row) || (rows.contains(row) && keep(row)) <==> #[trigger] all.contains(
            row,
        ) by {
        if list.contains(row) {
            let i = choose|i: int| 0 <= i < list.len() && list[i] == row;
            assert(all[i] == row);
        }
        if rows.contains(row) && keep(row) {
            assert(r.contains(as_is(row)));
            let i = choose|i: int| 0 <= i < r.len() && r[i] == row;
            assert(all[list.len() + i] == row);
        }
        if all.contains(row) && !list.contains(row) {
            let i = choose|i: int| 0 <= i < all.len() && all[i] == row;
            if i < list.len() {
                assert(list[i] == row);
            }
            assert(r[i - list.len()] == row);
            assert(r.contains(row));
        }
    }
}

/// Rows come in the order of their start. None is lost, and those that start together
/// stay as they were.
pub proof fn rows_go_by_their_start(rows: Seq<RowView>, start: i32)
    ensures
        ({
            let r = sorted::<Row, ByStart>(rows);
            &&& r.len() == rows.len()
            &&& r.to_multiset() == rows.to_multiset()
            &&& forall|i: int, j: int|
                0 <= i < j < r.len() ==> (#[trigger] r[i]).time_start <= (
                #[trigger] r[j]).time_start
            &&& r.filter(|row: RowView| row.time_start == start) == rows.filter(
                |row: RowView| row.time_start == start,
            )
        }),
{
    let r = sorted::<Row, ByStart>(rows);
    sorted_len::<Row, ByStart>(rows);
    sorted_same_values::<Row, ByStart>(rows);
    sorted_in_order::<Row, ByStart>(rows);
    sorted_keeps_equals::<Row, ByStart>(rows, |row: RowView| row.time_start == start);
    assert forall|i: int, j: int| 0 <= i < j < r.len() implies (#[trigger] r[i]).time_start <= (
    #[trigger] r[j]).time_start by {
        assert(!ByStart::before(r[j], r[i]));
    }
}

/// A row that was read is the one that its value says, and so is an error. A file that
/// can be read gives the rows of its components; what is said of another one is
/// reported.
pub proof fn rows_come_to_their_value(
    row: Result<Row, RowError>,
    value: Result<RowView, RowError>,
    body: Seq<char>,
    rows: Result<Rows, String>,
)
    requires
        is_row(row, value),
        are_rows(body, rows),
    ensures
        match row {
            Ok(r) => value == Ok::<RowView, RowError>(r.deep_view()),
            Err(e) => value == Err::<RowView, RowError>(e),
        },
        match (file_read(body), rows) {
            (Ok(text), Ok(r)) => exists|zones: Seq<(Pair, Pair)>| #[trigger]
                zones_fit(text.components, zones) && r.events.deep_view() == rows_of(
                    text.components,
                    zones,
                    false,
                ) && r.tasks.deep_view() == rows_of(text.components, zones, true),
            (Err(why), Err(e)) => e@ == "failed to parse calendar: "@ + why,
            _ => false,
        },
{
}

} // verus!
