//! Calendar files: their components, properties and times.

use icalendar::{parser, Calendar, CalendarComponent, CalendarDateTime, Component as _, DatePerhapsTime, Property as Prop};
use std::collections::BTreeMap;
use vstd::prelude::*;
use crate::clock::{gives_single, in_span, midnight_of, nanos_fit, parse_wall, parsed_wall, shows, single_at, DateTime, Instant, WallTime};
use crate::date::Date;
use crate::text::{self, in_range, joined, pieces, unsigned_number};

verus! {

// ---------------------------------------------------------------------------
// Components and properties
// ---------------------------------------------------------------------------

/// A property of a calendar or of one of its components: its name, its value,
/// and the parameters `TZID` and `VALUE`.
#[derive(Debug)]
pub struct Property {
    pub key: String,
    pub value: String,
    pub tzid: Option<String>,
    pub kind: Option<String>,
}

/// What a `Property` holds.
#[verifier::ext_equal]
pub struct PropertyView {
    pub key: Seq<char>,
    pub value: Seq<char>,
    pub tzid: Option<Seq<char>>,
    pub kind: Option<Seq<char>>,
}

impl DeepView for Property {
    type V = PropertyView;

    open spec fn deep_view(&self) -> PropertyView {
        PropertyView {
            key: self.key@,
            value: self.value@,
            tzid: self.tzid.deep_view(),
            kind: self.kind.deep_view(),
        }
    }
}

/// A component of a calendar: the properties of an event or of a task, where it
/// is one.
#[derive(Debug)]
pub struct Component {
    pub event: Option<Vec<Property>>,
    pub todo: Option<Vec<Property>>,
}

/// What a `Component` holds.
#[verifier::ext_equal]
pub struct ComponentView {
    pub event: Option<Seq<PropertyView>>,
    pub todo: Option<Seq<PropertyView>>,
}

impl DeepView for Component {
    type V = ComponentView;

    open spec fn deep_view(&self) -> ComponentView {
        ComponentView { event: self.event.deep_view(), todo: self.todo.deep_view() }
    }
}

/// A calendar file.
#[derive(Debug)]
pub struct CalendarText {
    pub properties: Vec<Property>,
    pub components: Vec<Component>,
}

/// What a `CalendarText` holds.
#[verifier::ext_equal]
pub struct CalendarTextView {
    pub properties: Seq<PropertyView>,
    pub components: Seq<ComponentView>,
}

impl DeepView for CalendarText {
    type V = CalendarTextView;

    open spec fn deep_view(&self) -> CalendarTextView {
        CalendarTextView {
            properties: self.properties.deep_view(),
            components: self.components.deep_view(),
        }
    }
}

/// The pieces of each part between the occurrences of `pat`.
pub open spec fn cut(parts: Seq<Seq<char>>, pat: Seq<char>) -> Seq<Seq<char>> {
    parts.map_values(|part: Seq<char>| pieces(part, pat)).flatten()
}

/// A calendar file without the line breaks that only fold long lines: those
/// that a space or a tab follows.
pub open spec fn unfolded(s: Seq<char>) -> Seq<char> {
    let parts = cut(cut(cut(pieces(s, "\r\n "@), "\n "@), "\r\n\t"@), "\n\t"@);
    joined(parts, Seq::empty())
}

/// `icalendar::parser::unfold` joins folded lines: it splits at `\r\n ` and
/// `\n `, then at the same with a tab, and puts the pieces together.
#[verifier::external_body]
fn unfold(s: &str) -> (r: String)
    ensures
        r@ == unfolded(s@),
{
    parser::unfold(s)
}

/// What `icalendar::parser::read_calendar` reads from a file with unfolded
/// lines, or what it says of one that it cannot read.
pub uninterp spec fn calendar_read(text: Seq<char>) -> Result<CalendarTextView, Seq<char>>;

/// The number of bytes of a character in UTF-8.
pub open spec fn utf8_len(c: char) -> int {
    if (c as u32) < 0x80 {
        1
    } else if (c as u32) < 0x800 {
        2
    } else if (c as u32) < 0x10000 {
        3
    } else {
        4
    }
}

/// The number of bytes in UTF-8 that stand in front of position `k`, on its line.
pub open spec fn bytes_before(s: Seq<char>, k: int) -> int
    decreases k,
{
    if k <= 0 || s[k - 1] == '\n' {
        0
    } else {
        bytes_before(s, k - 1) + utf8_len(s[k - 1])
    }
}

/// What is left of a file with unfolded lines where
/// `icalendar::parser::read_calendar_simple` fails on it.
pub uninterp spec fn rest_at_failure(text: Seq<char>) -> Option<Seq<char>>;

/// `icalendar::parser::read_calendar_simple` reads the files that
/// `icalendar::parser::read_calendar` reads, and fails on the others, at the
/// place at which the other one fails too. Its error holds what is left of the
/// file there.
#[verifier::external_body]
fn find_failure(text: &str) -> (r: Option<String>)
    ensures
        r.deep_view() == rest_at_failure(text@),
        r is None <==> calendar_read(text@) is Ok,
        r matches Some(rest) ==> rest@.len() <= text@.len() && text@.skip(
            text@.len() - rest@.len(),
        ) == rest@,
{
    parser::read_calendar_simple(text).err().map(|e| e.input.to_owned())
}

/// Whether a character is white space: a space, a tab or a part of a line break.
pub open spec fn is_blank(c: char) -> bool {
    c == ' ' || c == '\t' || c == '\r' || c == '\n'
}

/// Whether a line breaks at position `k`.
pub open spec fn breaks_at(s: Seq<char>, k: int) -> bool {
    s[k] == '\n' || (s[k] == '\r' && k + 1 < s.len() && s[k + 1] == '\n')
}

/// Whether nothing but white space stands from position `k` up to `end`.
pub open spec fn blank_up_to(s: Seq<char>, k: int, end: int) -> bool {
    forall|j: int| k <= j < end ==> is_blank(#[trigger] s[j])
}

/// Whether two characters are the same letter, small or large.
pub open spec fn same_letter(c: char, small: char, large: char) -> bool {
    c == small || c == large
}

/// Whether a component begins at position `k`: with `BEGIN:`, in letters of any
/// size.
pub open spec fn begins_at(s: Seq<char>, k: int) -> bool {
    &&& 0 <= k && k + 6 <= s.len()
    &&& same_letter(s[k], 'b', 'B')
    &&& same_letter(s[k + 1], 'e', 'E')
    &&& same_letter(s[k + 2], 'g', 'G')
    &&& same_letter(s[k + 3], 'i', 'I')
    &&& same_letter(s[k + 4], 'n', 'N')
    &&& s[k + 5] == ':'
}

/// Whether a component ends at position `k`: with `END:`, in letters of any size.
pub open spec fn ends_at(s: Seq<char>, k: int) -> bool {
    &&& 0 <= k && k + 4 <= s.len()
    &&& same_letter(s[k], 'e', 'E')
    &&& same_letter(s[k + 1], 'n', 'N')
    &&& same_letter(s[k + 2], 'd', 'D')
    &&& s[k + 3] == ':'
}

/// The start of the line of position `k`.
pub open spec fn line_start(s: Seq<char>, k: int) -> int
    decreases k,
{
    if k <= 0 || s[k - 1] == '\n' {
        k
    } else {
        line_start(s, k - 1)
    }
}

/// Whether neither white space nor, where `colons` are not allowed, a colon
/// stands on the line in front of position `k`.
pub open spec fn clear_before(s: Seq<char>, k: int, colons: bool) -> bool {
    forall|j: int|
        line_start(s, k) <= j < k ==> !is_blank(#[trigger] s[j]) && (colons || s[j] != ':')
}

/// Whether something new can start at position `k`: at the start of a line, or
/// behind the names of components that end or begin there, or of a property
/// without a value. `closed` asks for components that end.
pub open spec fn can_start_at(s: Seq<char>, k: int, closed: bool) -> bool {
    let i = line_start(s, k);
    ||| i == k
    ||| ends_at(s, i) && clear_before(s, k, true)
    ||| !closed && begins_at(s, i) && clear_before(s, k, true)
    ||| !closed && clear_before(s, k, false)
}

/// Whether the parser can point at position `k` of a file on which it fails at
/// position `end`: at the failure, at white space in front of it with which a
/// property starts, and at the start of a component in front of it.
pub open spec fn pointed_at(s: Seq<char>, end: int, k: int) -> bool {
    0 <= k <= end && {
        ||| k == end
        ||| blank_up_to(s, k, end) && !breaks_at(s, k) && can_start_at(s, k, false)
        ||| begins_at(s, k) && can_start_at(s, k, true)
    }
}

/// Whether no place at which the parser can point has more than 65534 bytes in
/// front of it, on its line, for a failure at position `end`.
pub open spec fn short_up_to(s: Seq<char>, end: int) -> bool {
    forall|k: int| #[trigger] pointed_at(s, end, k) ==> bytes_before(s, k) <= 65534
}

/// Whether the parser reads a file, or can point at every place that it would.
pub open spec fn short_lines(s: Seq<char>) -> bool {
    match rest_at_failure(s) {
        Some(rest) => short_up_to(s, s.len() - rest.len()),
        None => true,
    }
}

fn is_begin(v: &Vec<char>, k: usize) -> (r: bool)
    requires
        k <= v@.len(),
    ensures
        r == begins_at(v@, k as int),
{
    v.len() - k >= 6 && (v[k] == 'b' || v[k] == 'B') && (v[k + 1] == 'e' || v[k + 1] == 'E') && (
    v[k + 2] == 'g' || v[k + 2] == 'G') && (v[k + 3] == 'i' || v[k + 3] == 'I') && (v[k + 4] == 'n'
        || v[k + 4] == 'N') && v[k + 5] == ':'
}

fn is_end(v: &Vec<char>, k: usize) -> (r: bool)
    requires
        k <= v@.len(),
    ensures
        r == ends_at(v@, k as int),
{
    v.len() - k >= 4 && (v[k] == 'e' || v[k] == 'E') && (v[k + 1] == 'n' || v[k + 1] == 'N') && (
    v[k + 2] == 'd' || v[k + 2] == 'D') && v[k + 3] == ':'
}

fn skip_back(v: &Vec<char>, end: usize) -> (r: usize)
    requires
        end <= v@.len(),
    ensures
        r <= end,
        forall|k: int| 0 <= k <= end ==> (#[trigger] blank_up_to(v@, k, end as int) <==> r <= k),
{
    let mut k: usize = end;
    while k > 0 && (v[k - 1] == ' ' || v[k - 1] == '\t' || v[k - 1] == '\r' || v[k - 1] == '\n')
        invariant
            k <= end <= v@.len(),
            blank_up_to(v@, k as int, end as int),
        decreases k,
    {
        k = k - 1;
    }
    k
}

fn has_short_lines(text: &str, rest: &str) -> (r: bool)
    requires
        rest_at_failure(text@) == Some(rest@),
        rest@.len() <= text@.len(),
    ensures
        r == short_lines(text@),
{
    let v: Vec<char> = text::chars_of(text);
    let w: Vec<char> = text::chars_of(rest);
    let n: usize = v.len();
    let end: usize = n - w.len();
    let blank: usize = skip_back(&v, end);
    let mut bytes: u128 = 0;
    let mut line: usize = 0;
    let mut blanks: bool = false;
    let mut colons: bool = false;
    let mut k: usize = 0;
    loop
        invariant
            v@ == text@,
            n == v@.len(),
            rest_at_failure(text@) == Some(rest@),
            end == n - rest@.len(),
            blank <= end,
            forall|k: int|
                0 <= k <= end ==> (#[trigger] blank_up_to(v@, k, end as int) <==> blank <= k),
            k <= end <= n,
            bytes == bytes_before(v@, k as int),
            bytes <= 4 * k,
            line <= k,
            line == line_start(v@, k as int),
            !blanks == clear_before(v@, k as int, true),
            !(blanks || colons) == clear_before(v@, k as int, false),
            forall|i: int|
                i < k && #[trigger] pointed_at(v@, end as int, i) ==> bytes_before(v@, i) <= 65534,
        decreases end - k,
    {
        let at_break: bool = k < n && (v[k] == '\n' || (v[k] == '\r' && n - k > 1 && v[k + 1]
            == '\n'));
        let after_end: bool = line == k || (is_end(&v, line) && !blanks);
        let after_name: bool = after_end || (is_begin(&v, line) && !blanks) || !(blanks || colons);
        let pointed: bool = k == end || (blank <= k && !at_break && after_name) || (is_begin(&v, k)
            && after_end);
        assert(blank_up_to(v@, k as int, end as int) <==> blank <= k);
        assert(pointed == pointed_at(v@, end as int, k as int));
        if pointed && bytes > 65534 {
            assert(!short_up_to(v@, end as int));
            return false;
        }
        if k == end {
            assert(short_up_to(v@, end as int));
            return true;
        }
        let code: u32 = v[k] as u32;
        let c: char = v[k];
        let ghost old_k = k as int;
        if c == '\n' {
            bytes = 0;
            line = k + 1;
            blanks = false;
            colons = false;
        } else {
            let width: u128 = if code < 0x80 {
                1
            } else if code < 0x800 {
                2
            } else if code < 0x10000 {
                3
            } else {
                4
            };
            bytes = bytes + width;
            blanks = blanks || c == ' ' || c == '\t' || c == '\r';
            colons = colons || c == ':';
        }
        k = k + 1;
        assert(bytes == bytes_before(v@, k as int));
        proof {
            if c != '\n' {
                assert(line_start(v@, k as int) == line_start(v@, old_k));
                line_starts_before(v@, old_k);
                assert(clear_before(v@, k as int, true) == (clear_before(v@, old_k, true)
                    && !is_blank(c))) by {
                    assert(v@[old_k] == c);
                }
                assert(clear_before(v@, k as int, false) == (clear_before(v@, old_k, false)
                    && !is_blank(c) && c != ':')) by {
                    assert(v@[old_k] == c);
                }
            }
        }
    }
}

proof fn line_starts_before(s: Seq<char>, k: int)
    requires
        0 <= k,
    ensures
        0 <= line_start(s, k) <= k,
    decreases k,
{
    if k > 0 && s[k - 1] != '\n' {
        line_starts_before(s, k - 1);
    }
}

/// `icalendar::parser::read_calendar` reads a file with unfolded lines; this
/// gives the properties of the `icalendar::Calendar` that holds what it reads.
/// Where it fails it points at that place, and at the starts of what it was
/// reading there, and panics if one of them has too many bytes in front of it.
#[verifier::external_body]
fn read_properties(text: &str) -> (r: Result<Vec<Property>, String>)
    requires
        short_lines(text@),
    ensures
        match (r, calendar_read(text@)) {
            (Ok(properties), Ok(v)) => properties.deep_view() == v.properties,
            (Err(e), Err(why)) => e@ == why,
            _ => false,
        },
{
    let property = |p: &Prop| Property {
        key: p.key().to_owned(),
        value: p.value().to_owned(),
        tzid: p.get_param_as("TZID", |v| Some(v.to_owned())),
        kind: p.get_param_as("VALUE", |v| Some(v.to_owned())),
    };
    let c = Calendar::from(parser::read_calendar(text)?);
    Ok(c.properties.iter().map(property).collect())
}

/// `icalendar::parser::read_calendar` reads a file with unfolded lines; this
/// gives the components of the `icalendar::Calendar` that holds what it reads,
/// with their properties of which there is one each. Where it fails it points at
/// that place, and at the starts of what it was reading there, and panics if one
/// of them has too many bytes in front of it.
#[verifier::external_body]
fn read_components(text: &str) -> (r: Result<Vec<Component>, String>)
    requires
        short_lines(text@),
    ensures
        match (r, calendar_read(text@)) {
            (Ok(components), Ok(v)) => components.deep_view() == v.components,
            (Err(e), Err(why)) => e@ == why,
            _ => false,
        },
{
    let property = |p: &Prop| Property {
        key: p.key().to_owned(),
        value: p.value().to_owned(),
        tzid: p.get_param_as("TZID", |v| Some(v.to_owned())),
        kind: p.get_param_as("VALUE", |v| Some(v.to_owned())),
    };
    let list = |m: &BTreeMap<String, Prop>| m.values().map(property).collect();
    let component = |c: &CalendarComponent| Component {
        event: c.as_event().map(|e| list(e.properties())),
        todo: c.as_todo().map(|t| list(t.properties())),
    };
    let c = Calendar::from(parser::read_calendar(text)?);
    Ok(c.components.iter().map(component).collect())
}

/// Whether a result holds the calendar, or the error, of `value`.
pub open spec fn comes_to(
    result: Result<CalendarText, String>,
    value: Result<CalendarTextView, Seq<char>>,
) -> bool {
    match (result, value) {
        (Ok(c), Ok(v)) => c.deep_view() == v,
        (Err(e), Err(v)) => e@ == v,
        _ => false,
    }
}

/// What is read from a calendar file, folded lines and all, or what is said of
/// one that cannot be read.
pub open spec fn file_read(body: Seq<char>) -> Result<CalendarTextView, Seq<char>> {
    let text = unfolded(body);
    if !short_lines(text) {
        Err("error: in a file with long lines"@)
    } else {
        calendar_read(text)
    }
}

/// Reads a calendar file, folded lines and all.
pub fn read_calendar(body: &str) -> (r: Result<CalendarText, String>)
    ensures
        comes_to(r, file_read(body@)),
{
    let text: String = unfold(body);
    match find_failure(text.as_str()) {
        Some(rest) => {
            if !has_short_lines(text.as_str(), rest.as_str()) {
                return Err("error: in a file with long lines".to_owned());
            }
        },
        None => {},
    }
    match (read_properties(text.as_str()), read_components(text.as_str())) {
        (Ok(properties), Ok(components)) => Ok(CalendarText { properties, components }),
        (Err(e), _) => Err(e),
        (_, Err(e)) => Err(e),
    }
}

/// The first property of a name.
pub open spec fn property_of(properties: Seq<PropertyView>, key: Seq<char>) -> Option<PropertyView>
    decreases properties.len(),
{
    if properties.len() == 0 {
        None
    } else if properties[0].key == key {
        Some(properties[0])
    } else {
        property_of(properties.skip(1), key)
    }
}

/// The value of the first property of a name.
pub open spec fn value_of(properties: Seq<PropertyView>, key: Seq<char>) -> Option<Seq<char>> {
    match property_of(properties, key) {
        Some(p) => Some(p.value),
        None => None,
    }
}

/// Finds the first property of a name.
pub fn find_property<'a>(properties: &'a Vec<Property>, key: &str) -> (r: Option<&'a Property>)
    ensures
        match r {
            Some(p) => property_of(properties.deep_view(), key@) == Some(p.deep_view()),
            None => property_of(properties.deep_view(), key@) is None,
        },
{
    let ghost all = properties.deep_view();
    let mut i: usize = 0;
    assert(all.skip(0) =~= all);
    while i < properties.len()
        invariant
            all == properties.deep_view(),
            i <= properties@.len(),
            property_of(all, key@) == property_of(all.skip(i as int), key@),
        decreases properties@.len() - i,
    {
        assert(all.skip(i as int)[0] == properties@[i as int].deep_view());
        if text::same_text(properties[i].key.as_str(), key) {
            return Some(&properties[i]);
        }
        assert(all.skip(i as int).skip(1) =~= all.skip(i + 1));
        i = i + 1;
    }
    None
}

/// Finds the value of the first property of a name.
pub fn find_value<'a>(properties: &'a Vec<Property>, key: &str) -> (r: Option<&'a str>)
    ensures
        match r {
            Some(v) => value_of(properties.deep_view(), key@) == Some(v@),
            None => value_of(properties.deep_view(), key@) is None,
        },
{
    match find_property(properties, key) {
        Some(p) => Some(p.value.as_str()),
        None => None,
    }
}

// ---------------------------------------------------------------------------
// Times
// ---------------------------------------------------------------------------

/// When something is: on a day, at a time on the wall clock, at a point in
/// time, or at a time on the wall clock of a time zone. Days are counted from
/// January 1, 1970; times are seconds and nanoseconds.
#[derive(Debug)]
pub enum When {
    Date(i32),
    Floating((i64, u32)),
    Utc((i64, u32)),
    Zoned((i64, u32), String),
}

/// What a `When` holds.
pub enum WhenView {
    Date(Date),
    Floating(WallTime),
    Utc(Instant),
    Zoned(WallTime, Seq<char>),
}

impl DeepView for When {
    type V = WhenView;

    open spec fn deep_view(&self) -> WhenView {
        match self {
            When::Date(days) => WhenView::Date(Date { days: *days }),
            When::Floating(t) => WhenView::Floating(WallTime { secs: t.0, nanos: t.1 }),
            When::Utc(t) => WhenView::Utc(Instant { secs: t.0, nanos: t.1 }),
            When::Zoned(t, tzid) => WhenView::Zoned(WallTime { secs: t.0, nanos: t.1 }, tzid@),
        }
    }
}

impl WhenView {
    /// Whether the calendar and the wall clock can show it.
    pub open spec fn valid(self) -> bool {
        match self {
            WhenView::Date(d) => d.valid(),
            WhenView::Floating(w) => w.valid(),
            WhenView::Utc(t) => in_span(t.secs as int) && nanos_fit(t.secs as int, t.nanos as int),
            WhenView::Zoned(w, _) => w.valid(),
        }
    }
}

/// What `icalendar::DatePerhapsTime::from_property` reads from a property.
pub uninterp spec fn when_read(
    key: Seq<char>,
    value: Seq<char>,
    tzid: Option<Seq<char>>,
    kind: Option<Seq<char>>,
) -> Option<WhenView>;

/// `icalendar::DatePerhapsTime::from_property` reads a date, or a date and a
/// time, from a property, by its name, its value and the parameters `TZID` and
/// `VALUE`. It reads with `chrono`, so the calendar and the wall clock can show
/// what it gives.
#[verifier::external_body]
fn read_when(key: &str, value: &str, tzid: Option<&str>, kind: Option<&str>) -> (r: Option<When>)
    ensures
        r.deep_view() == when_read(key@, value@, tzid.deep_view(), kind.deep_view()),
        r matches Some(w) ==> w.deep_view().valid(),
{
    let mut p = Prop::new(key, value);
    tzid.map(|v| drop(p.add_parameter("TZID", v)));
    kind.map(|v| drop(p.add_parameter("VALUE", v)));
    let at = |t: chrono::DateTime<chrono::Utc>| (t.timestamp(), t.timestamp_subsec_nanos());
    Some(match DatePerhapsTime::from_property(&p)? {
        DatePerhapsTime::Date(d) => When::Date(d.to_epoch_days()),
        DatePerhapsTime::DateTime(CalendarDateTime::Floating(t)) => When::Floating(at(t.and_utc())),
        DatePerhapsTime::DateTime(CalendarDateTime::Utc(t)) => When::Utc(at(t)),
        DatePerhapsTime::DateTime(CalendarDateTime::WithTimezone { date_time, tzid }) =>
            When::Zoned(at(date_time.and_utc()), tzid),
    })
}

/// The point in time that `icalendar::CalendarDateTime::try_into_utc` gives for
/// a time on the wall clock of a time zone: seconds and nanoseconds.
pub uninterp spec fn zoned_read(secs: int, nanos: int, tzid: Seq<char>) -> Option<(int, int)>;

/// `icalendar::CalendarDateTime::try_into_utc` gives the point in time at which
/// the wall clock of a time zone shows `wall`, if the zone is known and there
/// is exactly one, on the calendar.
#[verifier::external_body]
fn read_zoned(wall: WallTime, tzid: &str) -> (r: Option<Instant>)
    requires
        wall.valid(),
    ensures
        match r {
            Some(t) => zoned_read(wall.secs as int, wall.nanos as int, tzid@) == Some(
                (t.secs as int, t.nanos as int),
            ) && in_span(t.secs as int),
            None => zoned_read(wall.secs as int, wall.nanos as int, tzid@) is None,
        },
{
    let date_time = chrono::DateTime::from_timestamp(wall.secs, wall.nanos)?.naive_utc();
    let zoned = CalendarDateTime::WithTimezone { date_time, tzid: tzid.to_owned() };
    zoned.try_into_utc().map(|t| Instant { secs: t.timestamp(), nanos: t.timestamp_subsec_nanos() })
}

/// The point in time that `icalendar::Todo::get_completed` reads: seconds and
/// nanoseconds.
pub uninterp spec fn completed_read(value: Seq<char>) -> Option<(int, int)>;

/// `icalendar::Todo::get_completed` reads the property `COMPLETED` as a time in
/// UTC, on the calendar.
#[verifier::external_body]
fn read_completed(value: &str) -> (r: Option<Instant>)
    ensures
        match r {
            Some(t) => completed_read(value@) == Some((t.secs as int, t.nanos as int)) && in_span(
                t.secs as int,
            ),
            None => completed_read(value@) is None,
        },
{
    let t = icalendar::Todo::new().add_property("COMPLETED", value).get_completed()?;
    Some(Instant { secs: t.timestamp(), nanos: t.timestamp_subsec_nanos() })
}

/// When a property says that something is.
pub open spec fn property_when(p: PropertyView) -> Option<WhenView> {
    when_read(p.key, p.value, p.tzid, p.kind)
}

/// When the property of a name says that something is.
pub open spec fn when_of(properties: Seq<PropertyView>, key: Seq<char>) -> Option<WhenView> {
    match property_of(properties, key) {
        Some(p) => property_when(p),
        None => None,
    }
}

/// Finds when the property of a name says that something is.
pub fn find_when(properties: &Vec<Property>, key: &str) -> (r: Option<When>)
    ensures
        r.deep_view() == when_of(properties.deep_view(), key@),
        r matches Some(w) ==> w.deep_view().valid(),
{
    match find_property(properties, key) {
        Some(p) => {
            let tzid: Option<&str> = match &p.tzid {
                Some(s) => Some(s.as_str()),
                None => None,
            };
            let kind: Option<&str> = match &p.kind {
                Some(s) => Some(s.as_str()),
                None => None,
            };
            read_when(p.key.as_str(), p.value.as_str(), tzid, kind)
        },
        None => None,
    }
}

/// The time on the wall clock that has to be found in the machine's time zone.
pub open spec fn local_wall(time: Option<WhenView>) -> Option<WallTime> {
    match time {
        Some(WhenView::Date(d)) => Some(midnight_of(d)),
        Some(WhenView::Floating(w)) => Some(w),
        _ => None,
    }
}

/// Whether `zone` is what the machine's time zone gives: it is asked for every
/// time on the wall clock.
pub open spec fn zone_fits(wall: Option<WallTime>, zone: Option<DateTime>) -> bool {
    &&& zone matches Some(t) ==> (wall matches Some(w) && shows(t, w))
    &&& wall matches Some(w) ==> gives_single(w, zone)
}

/// The point in time of a time, where `zone` is what the machine's time zone
/// gives for days and times without a zone.
pub open spec fn instant_of(time: WhenView, zone: Option<DateTime>) -> Option<Instant> {
    match time {
        WhenView::Date(_) | WhenView::Floating(_) => match zone {
            Some(t) => Some(t.at),
            None => None,
        },
        WhenView::Utc(t) => Some(t),
        WhenView::Zoned(w, tzid) => match zoned_read(w.secs as int, w.nanos as int, tzid) {
            Some((secs, nanos)) => Some(Instant { secs: secs as i64, nanos: nanos as u32 }),
            None => None,
        },
    }
}

/// What the machine's time zone gives for a time, if it is asked.
pub fn ask_zone(time: &Option<When>) -> (r: Option<DateTime>)
    requires
        time matches Some(w) ==> w.deep_view().valid(),
    ensures
        zone_fits(local_wall(time.deep_view()), r),
{
    match time {
        Some(When::Date(days)) => single_at(Date { days: *days }.midnight()),
        Some(When::Floating(t)) => single_at(WallTime { secs: t.0, nanos: t.1 }),
        _ => None,
    }
}

/// The point in time of a time, where `zone` is what the machine's time zone
/// gives for days and times without a zone.
pub fn dt_convert(time: &When, zone: Option<DateTime>) -> (r: Option<Instant>)
    requires
        time.deep_view().valid(),
    ensures
        r == instant_of(time.deep_view(), zone),
{
    match time {
        When::Date(_) => match zone {
            Some(t) => Some(t.at),
            None => None,
        },
        When::Floating(_) => match zone {
            Some(t) => Some(t.at),
            None => None,
        },
        When::Utc(t) => Some(Instant { secs: t.0, nanos: t.1 }),
        When::Zoned(t, tzid) => read_zoned(WallTime { secs: t.0, nanos: t.1 }, tzid.as_str()),
    }
}

/// The point in time that the property of a name gives.
pub open spec fn time_of(
    properties: Seq<PropertyView>,
    key: Seq<char>,
    zone: Option<DateTime>,
) -> Option<Instant> {
    match when_of(properties, key) {
        Some(w) => instant_of(w, zone),
        None => None,
    }
}

/// Finds the point in time that the property of a name gives.
pub fn find_time(properties: &Vec<Property>, key: &str, zone: Option<DateTime>) -> (r: Option<
    Instant,
>)
    ensures
        r == time_of(properties.deep_view(), key@, zone),
{
    match find_when(properties, key) {
        Some(w) => dt_convert(&w, zone),
        None => None,
    }
}

// ---------------------------------------------------------------------------
// Tasks
// ---------------------------------------------------------------------------

/// How times without a zone are written.
pub open spec fn naive_format() -> Seq<char> {
    "%Y%m%dT%H%M%S"@
}

/// The priority of a task, from 0 to 10.
pub open spec fn priority_of(properties: Seq<PropertyView>) -> Option<int> {
    match value_of(properties, "PRIORITY"@) {
        Some(v) => in_range(unsigned_number(v), 0, 10),
        None => None,
    }
}

/// Finds the priority of a task.
pub fn find_priority(properties: &Vec<Property>) -> (r: Option<u32>)
    ensures
        match r {
            Some(n) => priority_of(properties.deep_view()) == Some(n as int),
            None => priority_of(properties.deep_view()) is None,
        },
{
    match find_value(properties, "PRIORITY") {
        Some(v) => match text::parse_unsigned(v, 10) {
            Some(n) => Some(n as u32),
            None => None,
        },
        None => None,
    }
}

/// How much of a task is done, in percent.
pub open spec fn progress_of(properties: Seq<PropertyView>) -> Option<int> {
    match value_of(properties, "PERCENT-COMPLETE"@) {
        Some(v) => in_range(unsigned_number(v), 0, 255),
        None => None,
    }
}

/// Finds how much of a task is done.
pub fn find_progress(properties: &Vec<Property>) -> (r: Option<u8>)
    ensures
        match r {
            Some(n) => progress_of(properties.deep_view()) == Some(n as int),
            None => progress_of(properties.deep_view()) is None,
        },
{
    match find_value(properties, "PERCENT-COMPLETE") {
        Some(v) => match text::parse_unsigned(v, 255) {
            Some(n) => Some(n as u8),
            None => None,
        },
        None => None,
    }
}

/// The time on the wall clock at which a task was completed, where it is
/// written without a zone.
pub open spec fn completed_wall(properties: Seq<PropertyView>) -> Option<WallTime> {
    match value_of(properties, "COMPLETED"@) {
        Some(v) => match completed_read(v) {
            Some(_) => None,
            None => match parsed_wall(v, naive_format()) {
                Some((secs, nanos)) => Some(WallTime { secs: secs as i64, nanos: nanos as u32 }),
                None => None,
            },
        },
        None => None,
    }
}

/// The point in time at which a task was completed. Where it is written without
/// a zone, `zone` is what the machine's time zone gives.
pub open spec fn completed_of(
    properties: Seq<PropertyView>,
    zone: Option<DateTime>,
) -> Option<Instant> {
    match value_of(properties, "COMPLETED"@) {
        Some(v) => match completed_read(v) {
            Some((secs, nanos)) => Some(Instant { secs: secs as i64, nanos: nanos as u32 }),
            None => match (parsed_wall(v, naive_format()), zone) {
                (Some(_), Some(t)) => Some(t.at),
                _ => None,
            },
        },
        None => None,
    }
}

/// What the machine's time zone gives for the time at which a task was
/// completed, if it is asked.
pub fn ask_completed_zone(properties: &Vec<Property>) -> (r: Option<DateTime>)
    ensures
        zone_fits(completed_wall(properties.deep_view()), r),
{
    match find_value(properties, "COMPLETED") {
        Some(v) => match read_completed(v) {
            Some(_) => None,
            None => match parse_wall(v, "%Y%m%dT%H%M%S") {
                Some(w) => single_at(w),
                None => None,
            },
        },
        None => None,
    }
}

/// Finds the point in time at which a task was completed.
pub fn find_completed(properties: &Vec<Property>, zone: Option<DateTime>) -> (r: Option<Instant>)
    ensures
        r == completed_of(properties.deep_view(), zone),
{
    match find_value(properties, "COMPLETED") {
        Some(v) => match read_completed(v) {
            Some(t) => Some(t),
            None => match (parse_wall(v, "%Y%m%dT%H%M%S"), zone) {
                (Some(_), Some(t)) => Some(t.at),
                _ => None,
            },
        },
        None => None,
    }
}

// ---------------------------------------------------------------------------
// Laws of calendar files
// ---------------------------------------------------------------------------

/// A file that the parser reads is read as it is, once its lines are unfolded, and
/// so is one without lines of more than 65534 bytes.
pub proof fn files_with_short_lines_are_read(body: Seq<char>)
    ensures
        rest_at_failure(unfolded(body)) is None ==> file_read(body) == calendar_read(
            unfolded(body),
        ),
        (forall|k: int|
            0 <= k <= unfolded(body).len() ==> #[trigger] bytes_before(unfolded(body), k) <= 65534)
            && (rest_at_failure(unfolded(body)) matches Some(rest) ==> rest.len() <= unfolded(
            body,
        ).len()) ==> file_read(body) == calendar_read(unfolded(body)),
        file_read(body) == calendar_read(unfolded(body)) || file_read(body) is Err,
{
}

/// The first property of a name counts; without one there is none.
pub proof fn first_property_counts(properties: Seq<PropertyView>, key: Seq<char>, k: int)
    requires
        0 <= k <= properties.len(),
        forall|j: int| 0 <= j < k ==> (#[trigger] properties[j]).key != key,
        k < properties.len() ==> properties[k].key == key,
    ensures
        property_of(properties, key) == (if k < properties.len() {
            Some(properties[k])
        } else {
            None
        }),
        k < properties.len() ==> value_of(properties, key) == Some(properties[k].value),
        k == properties.len() ==> value_of(properties, key) is None && when_of(
            properties,
            key,
        ) is None,
        k < properties.len() ==> when_of(properties, key) == when_read(
            key,
            properties[k].value,
            properties[k].tzid,
            properties[k].kind,
        ),
    decreases properties.len(),
{
    if k > 0 {
        let rest = properties.skip(1);
        assert(properties[0].key != key);
        assert forall|j: int| 0 <= j < k - 1 implies (#[trigger] rest[j]).key != key by {
            assert(rest[j] == properties[j + 1]);
        }
        first_property_counts(rest, key, k - 1);
    }
}

/// A time in UTC is the point in time itself, whatever the machine's time zone is;
/// so is one with a zone of its own. A day is its midnight, and a time without a
/// zone is what the wall clock shows: only these are asked for in the machine's
/// time zone, and are what it gives.
pub proof fn times_are_found_in_their_zone(time: WhenView, zone: Option<DateTime>)
    ensures
        time matches WhenView::Utc(t) ==> instant_of(time, zone) == Some(t) && local_wall(
            Some(time),
        ) is None,
        time matches WhenView::Zoned(w, tzid) ==> local_wall(Some(time)) is None && match (
            zoned_read(w.secs as int, w.nanos as int, tzid),
            instant_of(time, zone),
        ) {
            (Some(r), Some(t)) => t.secs == r.0 as i64 && t.nanos == r.1 as u32,
            (None, None) => true,
            _ => false,
        },
        time matches WhenView::Date(d) ==> local_wall(Some(time)) == Some(
            WallTime { secs: (86400 * d.days) as i64, nanos: 0 },
        ),
        time matches WhenView::Floating(w) ==> local_wall(Some(time)) == Some(w),
        time is Date || time is Floating ==> {
            &&& zone is None ==> instant_of(time, zone) is None
            &&& zone matches Some(t) ==> instant_of(time, zone) == Some(t.at)
        },
        local_wall(None) is None,
{
}

/// A point in time that needs the machine's time zone is lost only where the time
/// zone gives none; else it is the one that it gave.
pub proof fn local_times_are_lost_only_to_the_zone(
    properties: Seq<PropertyView>,
    key: Seq<char>,
    zone: Option<DateTime>,
    wall: WallTime,
)
    requires
        local_wall(when_of(properties, key)) == Some(wall),
        zone_fits(Some(wall), zone),
    ensures
        match time_of(properties, key, zone) {
            Some(t) => zone matches Some(z) && z.at == t && gives_single(wall, Some(z)) && shows(
                z,
                wall,
            ),
            None => gives_single(wall, None),
        },
{
}

/// The time at which a task was completed is read as a time in UTC; only where
/// that fails, as a time on the wall clock in the machine's time zone.
pub proof fn completed_times_are_read(properties: Seq<PropertyView>, zone: Option<DateTime>)
    requires
        zone_fits(completed_wall(properties), zone),
    ensures
        value_of(properties, "COMPLETED"@) is None ==> completed_of(properties, zone) is None,
        value_of(properties, "COMPLETED"@) matches Some(v) ==> match completed_read(v) {
            Some(r) => completed_of(properties, zone) matches Some(t) && t.secs == r.0 as i64
                && t.nanos == r.1 as u32,
            None => match parsed_wall(v, "%Y%m%dT%H%M%S"@) {
                Some(w) => {
                    let wall = WallTime { secs: w.0 as i64, nanos: w.1 as u32 };
                    match completed_of(properties, zone) {
                        Some(t) => zone matches Some(z) && z.at == t && gives_single(
                            wall,
                            Some(z),
                        ),
                        None => gives_single(wall, None),
                    }
                },
                None => completed_of(properties, zone) is None,
            },
        },
{
}

/// A task has the priority and the progress that its properties say, where they are
/// numbers in range.
pub proof fn tasks_have_their_numbers(properties: Seq<PropertyView>)
    ensures
        match value_of(properties, "PRIORITY"@) {
            Some(v) => match unsigned_number(v) {
                Some(n) => priority_of(properties) == (if n <= 10 {
                    Some(n)
                } else {
                    None
                }),
                None => priority_of(properties) is None,
            },
            None => priority_of(properties) is None,
        },
        match value_of(properties, "PERCENT-COMPLETE"@) {
            Some(v) => match unsigned_number(v) {
                Some(n) => progress_of(properties) == (if n <= 255 {
                    Some(n)
                } else {
                    None
                }),
                None => progress_of(properties) is None,
            },
            None => progress_of(properties) is None,
        },
{
    if let Some(v) = value_of(properties, "PRIORITY"@) {
        text::numbers_are_not_negative(v);
    }
    if let Some(v) = value_of(properties, "PERCENT-COMPLETE"@) {
        text::numbers_are_not_negative(v);
    }
}

/// A calendar that was read is the one that its value says, and so is what is said of
/// one that cannot be read.
pub proof fn calendars_come_to_their_value(
    result: Result<CalendarText, String>,
    value: Result<CalendarTextView, Seq<char>>,
)
    requires
        comes_to(result, value),
    ensures
        match result {
            Ok(text) => value == Ok::<CalendarTextView, Seq<char>>(text.deep_view()),
            Err(e) => value == Err::<CalendarTextView, Seq<char>>(e@),
        },
{
}

// ---------------------------------------------------------------------------
// Laws of long lines
// ---------------------------------------------------------------------------

/// A letter in its small form.
pub open spec fn small(c: char) -> char {
    if 'A' <= c <= 'Z' {
        (c as u32 + 32) as char
    } else {
        c
    }
}

/// Components begin with `BEGIN:` and end with `END:`, in letters of any size, and
/// with nothing else.
pub proof fn components_begin_and_end(s: Seq<char>, k: int)
    requires
        0 <= k,
    ensures
        begins_at(s, k) <==> k + 6 <= s.len() && s.subrange(k, k + 6).map_values(|c: char| small(c))
            == "begin:"@,
        ends_at(s, k) <==> k + 4 <= s.len() && s.subrange(k, k + 4).map_values(|c: char| small(c))
            == "end:"@,
{
    reveal_strlit("begin:");
    reveal_strlit("end:");
    let f = |c: char| small(c);
    if k + 6 <= s.len() {
        let t = s.subrange(k, k + 6).map_values(f);
        assert(t[0] == small(s[k]) && t[1] == small(s[k + 1]) && t[2] == small(s[k + 2]));
        assert(t[3] == small(s[k + 3]) && t[4] == small(s[k + 4]) && t[5] == small(s[k + 5]));
        if begins_at(s, k) {
            assert(t =~= "begin:"@);
        }
        if t == "begin:"@ {
            assert(t[0] == 'b' && t[1] == 'e' && t[2] == 'g' && t[3] == 'i' && t[4] == 'n' && t[5]
                == ':');
        }
    }
    if k + 4 <= s.len() {
        let t = s.subrange(k, k + 4).map_values(f);
        assert(t[0] == small(s[k]) && t[1] == small(s[k + 1]) && t[2] == small(s[k + 2]) && t[3]
            == small(s[k + 3]));
        if ends_at(s, k) {
            assert(t =~= "end:"@);
        }
        if t == "end:"@ {
            assert(t[0] == 'e' && t[1] == 'n' && t[2] == 'd' && t[3] == ':');
        }
    }
}

/// The line of a position starts behind the last line break in front of it, or at the
/// start of the file. The bytes in front of the position are those of the characters
/// in between: up to four each, and one each in ASCII.
pub proof fn lines_start_behind_breaks(s: Seq<char>, k: int)
    requires
        0 <= k <= s.len(),
    ensures
        0 <= line_start(s, k) <= k,
        line_start(s, k) == 0 || s[line_start(s, k) - 1] == '\n',
        forall|j: int| line_start(s, k) <= j < k ==> #[trigger] s[j] != '\n',
        k - line_start(s, k) <= bytes_before(s, k) <= 4 * (k - line_start(s, k)),
        (forall|j: int| line_start(s, k) <= j < k ==> #[trigger] s[j] as u32 <= 0x7F)
            ==> bytes_before(s, k) == k - line_start(s, k),
    decreases k,
{
    if k > 0 && s[k - 1] != '\n' {
        lines_start_behind_breaks(s, k - 1);
    }
}

/// A character takes one byte in ASCII, two up to U+07FF, three up to U+FFFF, and else
/// four.
pub proof fn characters_have_bytes(c: char)
    ensures
        utf8_len(c) == 1 <==> c as u32 <= 0x7F,
        utf8_len(c) <= 2 <==> c as u32 <= 0x7FF,
        utf8_len(c) <= 3 <==> c as u32 <= 0xFFFF,
        1 <= utf8_len(c) <= 4,
{
}

/// The parser points at the place where it fails, at the components that begin in front
/// of it, at the start of a line or behind those that end there, and at white space in
/// front of it with which something starts that is no line break. It points nowhere
/// else.
pub proof fn parsers_point_at_starts(s: Seq<char>, end: int, k: int)
    requires
        0 <= k <= end <= s.len(),
    ensures
        pointed_at(s, end, end),
        !pointed_at(s, end, end + 1),
        begins_at(s, k) && line_start(s, k) == k ==> pointed_at(s, end, k),
        begins_at(s, k) && ends_at(s, line_start(s, k)) && (forall|j: int|
            line_start(s, k) <= j < k ==> !seq![' ', '\t', '\r', '\n'].contains(#[trigger] s[j]))
            ==> pointed_at(s, end, k),
        k < end && line_start(s, k) == k && (s[k] == ' ' || s[k] == '\t') && (forall|j: int|
            k <= j < end ==> seq![' ', '\t', '\r', '\n'].contains(#[trigger] s[j]))
            ==> pointed_at(s, end, k),
        pointed_at(s, end, k) && k < end && !begins_at(s, k) ==> (forall|j: int|
            k <= j < end ==> seq![' ', '\t', '\r', '\n'].contains(#[trigger] s[j])) && s[k] != '\n'
            && !(s[k] == '\r' && k + 1 < s.len() && s[k + 1] == '\n'),
        pointed_at(s, end, k) && k < end && begins_at(s, k) && line_start(s, k) < k ==> forall|
            j: int,
        |
            line_start(s, k) <= j < k ==> !seq![' ', '\t', '\r', '\n'].contains(#[trigger] s[j]),
{
    let blanks = seq![' ', '\t', '\r', '\n'];
    assert forall|c: char| is_blank(c) <==> #[trigger] blanks.contains(c) by {
        assert(blanks[0] == ' ' && blanks[1] == '\t' && blanks[2] == '\r' && blanks[3] == '\n');
    }
    if begins_at(s, k) && ends_at(s, line_start(s, k)) && (forall|j: int|
        line_start(s, k) <= j < k ==> !blanks.contains(#[trigger] s[j])) {
        assert(clear_before(s, k, true));
    }
    if k < end && line_start(s, k) == k && (forall|j: int|
        k <= j < end ==> blanks.contains(#[trigger] s[j])) {
        assert(blank_up_to(s, k, end));
    }
    if pointed_at(s, end, k) && k < end {
        if begins_at(s, k) {
            assert(!is_blank(s[k]));
            assert(!blank_up_to(s, k, end));
            if line_start(s, k) < k {
                assert(clear_before(s, k, true));
            }
        } else {
            assert(blank_up_to(s, k, end));
        }
    }
}

/// A file on which the parser fails has short lines if it points only at places with
/// fewer than 65535 bytes in front of them.
pub proof fn lines_are_short_up_to_65534_bytes(s: Seq<char>, rest: Seq<char>)
    requires
        rest_at_failure(s) == Some(rest),
    ensures
        short_lines(s) <==> !exists|k: int| #[trigger]
            pointed_at(s, s.len() - rest.len(), k) && bytes_before(s, k) >= 65535,
{
}

} // verus!
