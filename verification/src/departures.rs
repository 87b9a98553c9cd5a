//! Departures of buses from the stops nearby.

use vstd::prelude::*;
use vstd::std_specs::cmp::{PartialEqSpec, PartialOrdSpec};
use crate::clock::{clock_text, earlier, gives_latest, latest_at, nanos_since, ordinary, time_on, toward_zero, DateTime, Instant, Wait, WallTime};
use crate::date::{day_number, valid_ymd, Date};
use crate::face::unix_minute;
use crate::lists::{self, filter_picks, picked, picked_are_kept};
use crate::names::has_name;
use crate::numbers::{signed_bits, to_signed, wrap_i32, wrapped};
use crate::order::{rank, rank_is_bounded, sorted, sorted_draws, sorted_in_order, sorted_keeps_equals, sorted_len, sorted_same_values, stable_sort, text_before, text_is_before, texts_chain, texts_compare, Order};
use crate::text::{self, after_prefix, has_part, in_range, trimmed, unsigned_number};

verus! {

// ---------------------------------------------------------------------------
// Reading departures
// ---------------------------------------------------------------------------

/// A time as the timetable service sends it: numbers, written out.
#[derive(Debug)]
pub struct RawTime {
    pub year: String,
    pub month: String,
    pub day: String,
    pub hour: String,
    pub minute: String,
}

/// A departure as the timetable service sends it.
#[derive(Debug)]
pub struct RawStop {
    pub time_sched: RawTime,
    pub time_real: Option<RawTime>,
    pub symbol: String,
    pub direction: String,
    pub proj_direction: String,
}

/// Year, month, day, hour and minute.
#[derive(Clone, Copy, Debug, PartialEq, Eq, Structural)]
pub struct Time {
    pub year: u32,
    pub month: u32,
    pub day: u32,
    pub hour: u32,
    pub minute: u32,
}

/// Why a departure could not be read.
#[derive(Debug)]
pub enum StopError {
    /// A text that is not a number.
    Number(String),
    /// The wall clock never shows the scheduled time.
    ScheduledTime,
}

/// What a `StopError` holds.
pub enum StopErrorView {
    Number(Seq<char>),
    ScheduledTime,
}

impl DeepView for StopError {
    type V = StopErrorView;

    open spec fn deep_view(&self) -> StopErrorView {
        match self {
            StopError::Number(text) => StopErrorView::Number(text@),
            StopError::ScheduledTime => StopErrorView::ScheduledTime,
        }
    }
}

/// The number between 0 and 4294967295 that a text stands for.
pub open spec fn number_of(text: Seq<char>) -> Option<int> {
    in_range(unsigned_number(text), 0, u32::MAX as int)
}

/// The first of some texts that is no number.
pub open spec fn first_bad(texts: Seq<Seq<char>>) -> Option<Seq<char>>
    decreases texts.len(),
{
    if texts.len() == 0 {
        None
    } else if number_of(texts[0]) is None {
        Some(texts[0])
    } else {
        first_bad(texts.skip(1))
    }
}

/// The texts of a time.
pub open spec fn time_texts(raw: RawTime) -> Seq<Seq<char>> {
    seq![raw.year@, raw.month@, raw.day@, raw.hour@, raw.minute@]
}

fn read_number(text: &String) -> (r: Result<u32, StopError>)
    ensures
        match r {
            Ok(n) => number_of(text@) == Some(n as int),
            Err(e) => number_of(text@) is None && e.deep_view() == StopErrorView::Number(text@),
        },
{
    match text::parse_u32(text.as_str()) {
        Some(n) => Ok(n),
        None => Err(StopError::Number(text.clone())),
    }
}

impl RawTime {
    /// Reads the numbers of a time.
    pub fn read(&self) -> (r: Result<Time, StopError>)
        ensures
            match r {
                Ok(t) => {
                    &&& first_bad(time_texts(*self)) is None
                    &&& number_of(self.year@) == Some(t.year as int)
                    &&& number_of(self.month@) == Some(t.month as int)
                    &&& number_of(self.day@) == Some(t.day as int)
                    &&& number_of(self.hour@) == Some(t.hour as int)
                    &&& number_of(self.minute@) == Some(t.minute as int)
                },
                Err(e) => first_bad(time_texts(*self)) matches Some(bad) && e.deep_view()
                    == StopErrorView::Number(bad),
            },
    {
        proof {
            reveal_with_fuel(first_bad, 6);
            let s = time_texts(*self);
            assert(s.skip(1) =~= seq![self.month@, self.day@, self.hour@, self.minute@]);
            assert(s.skip(1).skip(1) =~= seq![self.day@, self.hour@, self.minute@]);
            assert(s.skip(1).skip(1).skip(1) =~= seq![self.hour@, self.minute@]);
            assert(s.skip(1).skip(1).skip(1).skip(1) =~= seq![self.minute@]);
        }
        let year: u32 = match read_number(&self.year) {
            Ok(n) => n,
            Err(e) => {
                return Err(e);
            },
        };
        let month: u32 = match read_number(&self.month) {
            Ok(n) => n,
            Err(e) => {
                return Err(e);
            },
        };
        let day: u32 = match read_number(&self.day) {
            Ok(n) => n,
            Err(e) => {
                return Err(e);
            },
        };
        let hour: u32 = match read_number(&self.hour) {
            Ok(n) => n,
            Err(e) => {
                return Err(e);
            },
        };
        let minute: u32 = match read_number(&self.minute) {
            Ok(n) => n,
            Err(e) => {
                return Err(e);
            },
        };
        Ok(Time { year, month, day, hour, minute })
    }
}

impl Time {
    /// Whether the calendar and the wall clock can show the time.
    pub open spec fn shown(self) -> bool {
        &&& valid_ymd(signed_bits(self.year), self.month as int, self.day as int)
        &&& self.hour < 24
        &&& self.minute < 60
    }

    /// Whether the calendar and the wall clock show the time at a point in time.
    pub open spec fn at(self, t: DateTime) -> bool {
        &&& self.shown()
        &&& t.valid()
        &&& t.at.nanos == 0
        &&& t.spec_date().is_ymd(signed_bits(self.year), self.month as int, self.day as int)
        &&& t.spec_second_of_day() == self.hour * 3600 + self.minute * 60
    }

    /// The time on the wall clock.
    pub open spec fn wall(self) -> WallTime {
        time_on(
            Date {
                days: day_number(
                    signed_bits(self.year),
                    self.month as int,
                    self.day as int,
                ) as i32,
            },
            (self.hour * 3600 + self.minute * 60) as u32,
        )
    }

    /// Whether `r` is what the machine's time zone gives for the time.
    pub open spec fn comes_at(self, r: Option<DateTime>) -> bool {
        if self.shown() {
            gives_latest(self.wall(), r)
        } else {
            r is None
        }
    }

    /// A point in time at which the calendar and the wall clock show the time,
    /// where the machine's time zone has one; of two the one it lists last.
    pub fn latest(self) -> (r: Option<DateTime>)
        ensures
            self.comes_at(r),
            r matches Some(t) ==> self.at(t),
    {
        if self.hour >= 24 || self.minute >= 60 {
            return None;
        }
        match Date::from_ymd(to_signed(self.year), self.month, self.day) {
            Some(date) => {
                let r: Option<DateTime> = latest_at(
                    date.at_second(self.hour * 3600 + self.minute * 60),
                );
                r
            },
            None => None,
        }
    }
}

/// A departure of a bus.
#[derive(Debug)]
pub struct Departure {
    pub time_sched: DateTime,
    pub time_real: Instant,
    pub line: String,
    pub line_destination: String,
    pub into_city: bool,
    pub local_stop_idx: usize,
}

/// What a `Departure` holds.
#[verifier::ext_equal]
pub struct DepartureView {
    pub time_sched: DateTime,
    pub time_real: Instant,
    pub line: Seq<char>,
    pub line_destination: Seq<char>,
    pub into_city: bool,
    pub local_stop_idx: usize,
}

impl DeepView for Departure {
    type V = DepartureView;

    open spec fn deep_view(&self) -> DepartureView {
        DepartureView {
            time_sched: self.time_sched,
            time_real: self.time_real,
            line: self.line@,
            line_destination: self.line_destination@,
            into_city: self.into_city,
            local_stop_idx: self.local_stop_idx,
        }
    }
}

impl DepartureView {
    /// Whether both times are on the calendar, outside of leap seconds.
    pub open spec fn valid(self) -> bool {
        self.time_sched.valid() && ordinary(self.time_sched.at) && ordinary(self.time_real)
    }
}

impl Clone for Departure {
    fn clone(&self) -> (r: Self)
        ensures
            r.deep_view() == self.deep_view(),
    {
        Departure {
            time_sched: self.time_sched,
            time_real: self.time_real,
            line: self.line.clone(),
            line_destination: self.line_destination.clone(),
            into_city: self.into_city,
            local_stop_idx: self.local_stop_idx,
        }
    }
}

/// Whether a bus goes into the city, by what the service says of its line.
pub open spec fn goes_into_city(raw: RawStop) -> bool {
    raw.proj_direction@ == "R"@ || has_part(raw.direction@, "Hbf"@)
}

/// The departure that the service sent, where `sched` and `actual` are the points
/// in time of its scheduled and its real time. Without a real one it leaves as
/// scheduled.
pub open spec fn departure_of(
    raw: RawStop,
    sched: Option<DateTime>,
    actual: Option<DateTime>,
) -> Result<DepartureView, StopErrorView> {
    match sched {
        None => Err(StopErrorView::ScheduledTime),
        Some(s) => Ok(
            DepartureView {
                time_sched: s,
                time_real: match actual {
                    Some(t) => t.at,
                    None => s.at,
                },
                line: raw.symbol@,
                line_destination: raw.direction@,
                into_city: goes_into_city(raw),
                local_stop_idx: 0,
            },
        ),
    }
}

/// The first number of a departure that is none.
pub open spec fn bad_number(raw: RawStop) -> Option<Seq<char>> {
    match first_bad(time_texts(raw.time_sched)) {
        Some(bad) => Some(bad),
        None => match raw.time_real {
            Some(actual) => first_bad(time_texts(actual)),
            None => None,
        },
    }
}

/// Whether the texts of a time are those of the numbers of `time`.
pub open spec fn is_time(raw: RawTime, time: Time) -> bool {
    &&& number_of(raw.year@) == Some(time.year as int)
    &&& number_of(raw.month@) == Some(time.month as int)
    &&& number_of(raw.day@) == Some(time.day as int)
    &&& number_of(raw.hour@) == Some(time.hour as int)
    &&& number_of(raw.minute@) == Some(time.minute as int)
}

/// Whether `t` can be the point in time of a time that the service sent.
pub open spec fn is_time_at(raw: RawTime, t: DateTime) -> bool {
    exists|time: Time| #[trigger] is_time(raw, time) && time.at(t)
}

/// Whether `r` is what the machine's time zone gives for a time that the service
/// sent.
pub open spec fn is_time_given(raw: RawTime, r: Option<DateTime>) -> bool {
    exists|time: Time| #[trigger] is_time(raw, time) && time.comes_at(r)
}

/// Whether `sched` and `actual` can be the points in time of the scheduled and the
/// real time of a departure.
pub open spec fn times_fit(
    raw: RawStop,
    sched: Option<DateTime>,
    actual: Option<DateTime>,
) -> bool {
    &&& sched matches Some(t) ==> is_time_at(raw.time_sched, t)
    &&& actual matches Some(t) ==> (raw.time_real matches Some(r) && is_time_at(r, t))
    &&& is_time_given(raw.time_sched, sched)
    &&& match raw.time_real {
        Some(r) => is_time_given(r, actual),
        None => actual is None,
    }
}

/// Whether a result holds the departure, or the error, of `value`.
pub open spec fn comes_to(
    result: Result<Departure, StopError>,
    value: Result<DepartureView, StopErrorView>,
) -> bool {
    match (result, value) {
        (Ok(d), Ok(v)) => d.deep_view() == v,
        (Err(e), Err(v)) => e.deep_view() == v,
        _ => false,
    }
}

/// Whether a result is what the service sent comes to, for some points in time
/// of its scheduled and its real time.
pub open spec fn is_departure(raw: RawStop, result: Result<Departure, StopError>) -> bool {
    match bad_number(raw) {
        Some(bad) => comes_to(result, Err(StopErrorView::Number(bad))),
        None => exists|sched: Option<DateTime>, actual: Option<DateTime>| #[trigger]
            times_fit(raw, sched, actual) && comes_to(result, departure_of(raw, sched, actual)),
    }
}

impl Departure {
    /// The departure that the service sent, where `sched` and `actual` are the
    /// points in time of its scheduled and its real time.
    pub fn at_times(
        raw: &RawStop,
        sched: Option<DateTime>,
        actual: Option<DateTime>,
    ) -> (r: Result<Departure, StopError>)
        ensures
            comes_to(r, departure_of(*raw, sched, actual)),
    {
        match sched {
            None => Err(StopError::ScheduledTime),
            Some(time_sched) => {
                let time_real: Instant = match actual {
                    Some(t) => t.at,
                    None => time_sched.at,
                };
                let into_city: bool = text::same_text(raw.proj_direction.as_str(), "R")
                    || text::contains(raw.direction.as_str(), "Hbf");
                Ok(
                    Departure {
                        time_sched,
                        time_real,
                        line: raw.symbol.clone(),
                        line_destination: raw.direction.clone(),
                        into_city,
                        local_stop_idx: 0,
                    },
                )
            },
        }
    }

    /// The departure that the service sent, at the points in time that the
    /// machine's time zone gives: the ones listed last where there are two.
    pub fn read(raw: &RawStop) -> (r: Result<Departure, StopError>)
        ensures
            is_departure(*raw, r),
            r matches Ok(d) ==> d.deep_view().valid(),
    {
        let time: Time = match raw.time_sched.read() {
            Ok(time) => time,
            Err(e) => {
                return Err(e);
            },
        };
        assert(is_time(raw.time_sched, time));
        let actual: Option<DateTime> = match &raw.time_real {
            Some(raw_real) => {
                let time_real: Time = match raw_real.read() {
                    Ok(time_real) => time_real,
                    Err(e) => {
                        return Err(e);
                    },
                };
                assert(is_time(*raw_real, time_real));
                time_real.latest()
            },
            None => None,
        };
        let sched: Option<DateTime> = time.latest();
        assert(times_fit(*raw, sched, actual));
        Departure::at_times(raw, sched, actual)
    }
}

// ---------------------------------------------------------------------------
// Laws of reading
// ---------------------------------------------------------------------------

/// The text that is reported is the first one that is no number, and none is
/// reported where all are.
pub proof fn first_bad_is_first(texts: Seq<Seq<char>>)
    ensures
        match first_bad(texts) {
            Some(bad) => exists|k: int|
                0 <= k < texts.len() && #[trigger] texts[k] == bad && number_of(bad) is None
                    && forall|j: int| 0 <= j < k ==> number_of(#[trigger] texts[j]) is Some,
            None => forall|j: int| 0 <= j < texts.len() ==> number_of(#[trigger] texts[j]) is Some,
        },
    decreases texts.len(),
{
    if texts.len() > 0 && number_of(texts[0]) is Some {
        let rest = texts.skip(1);
        first_bad_is_first(rest);
        match first_bad(rest) {
            Some(bad) => {
                let k = choose|k: int|
                    0 <= k < rest.len() && #[trigger] rest[k] == bad && number_of(bad) is None
                        && forall|j: int| 0 <= j < k ==> number_of(#[trigger] rest[j]) is Some;
                assert(texts[k + 1] == bad);
                assert forall|j: int| 0 <= j < k + 1 implies number_of(
                    #[trigger] texts[j],
                ) is Some by {
                    if j > 0 {
                        assert(rest[j - 1] == texts[j]);
                    }
                }
            },
            None => {
                assert forall|j: int| 0 <= j < texts.len() implies number_of(
                    #[trigger] texts[j],
                ) is Some by {
                    if j > 0 {
                        assert(rest[j - 1] == texts[j]);
                    }
                }
            },
        }
    }
}

/// Whether all numbers of a time are numbers.
pub open spec fn all_numbers(raw: RawTime) -> bool {
    &&& number_of(raw.year@) is Some
    &&& number_of(raw.month@) is Some
    &&& number_of(raw.day@) is Some
    &&& number_of(raw.hour@) is Some
    &&& number_of(raw.minute@) is Some
}

proof fn times_have_five_numbers(raw: RawTime)
    ensures
        first_bad(time_texts(raw)) is None <==> all_numbers(raw),
{
    let s = time_texts(raw);
    first_bad_is_first(s);
    assert(s[0] == raw.year@ && s[1] == raw.month@ && s[2] == raw.day@ && s[3] == raw.hour@ && s[4]
        == raw.minute@);
}

/// A departure is refused for its numbers if and only if one of the scheduled or
/// of the real time is none.
pub proof fn numbers_are_all_read(raw: RawStop)
    ensures
        bad_number(raw) is None <==> all_numbers(raw.time_sched) && (raw.time_real matches Some(r)
            ==> all_numbers(r)),
        bad_number(raw) matches Some(bad) ==> number_of(bad) is None,
{
    times_have_five_numbers(raw.time_sched);
    first_bad_is_first(time_texts(raw.time_sched));
    if raw.time_real is Some {
        times_have_five_numbers(raw.time_real->0);
        first_bad_is_first(time_texts(raw.time_real->0));
    }
}

/// A departure has the line, the destination and the scheduled time that the
/// service sent. It leaves at its real time where it has one, else as scheduled;
/// and it goes into the city where its direction is `R` or its destination holds
/// `Hbf`. Only without a scheduled time there is none.
pub proof fn departure_is_as_sent(raw: RawStop, sched: DateTime, actual: Option<DateTime>)
    ensures
        departure_of(raw, Some(sched), actual) matches Ok(d) && {
            &&& d.time_sched == sched
            &&& actual matches Some(t) ==> d.time_real == t.at
            &&& actual is None ==> d.time_real == sched.at
            &&& d.line == raw.symbol@
            &&& d.line_destination == raw.direction@
            &&& raw.proj_direction@ == "R"@ ==> d.into_city
            &&& raw.proj_direction@ != "R"@ ==> d.into_city == has_part(raw.direction@, "Hbf"@)
        },
        departure_of(raw, None, actual) == Err::<DepartureView, StopErrorView>(
            StopErrorView::ScheduledTime,
        ),
{
}

/// A departure that was read is the one that its value says, and so is an error.
pub proof fn departures_come_to_their_value(
    result: Result<Departure, StopError>,
    value: Result<DepartureView, StopErrorView>,
)
    requires
        comes_to(result, value),
    ensures
        match result {
            Ok(d) => value == Ok::<DepartureView, StopErrorView>(d.deep_view()),
            Err(e) => value == Err::<DepartureView, StopErrorView>(e.deep_view()),
        },
{
}

/// A time can be shown if its day is one of the calendar, its hour one of the day and
/// its minute one of the hour. It is shown when the wall clock shows that hour and
/// that minute of that day.
pub proof fn times_are_shown_on_the_clock(time: Time, t: DateTime)
    ensures
        time.shown() <==> valid_ymd(
            signed_bits(time.year),
            time.month as int,
            time.day as int,
        ) && time.hour <= 23 && time.minute <= 59,
        time.at(t) ==> t.valid() && t.spec_hour() == time.hour && t.spec_minute() == time.minute
            && t.spec_second_of_day() % 60 == 0 && t.at.nanos == 0 && t.spec_date().is_ymd(
            signed_bits(time.year),
            time.month as int,
            time.day as int,
        ),
{
}

/// Whether the machine's time zone gives the point in time `at` for a time.
pub open spec fn is_given(time: Time, at: Instant) -> bool {
    exists|t: DateTime| #![trigger t.valid()] t.at == at && gives_latest(time.wall(), Some(t))
}

/// A departure whose numbers can be read is refused only where the machine's
/// time zone has no time for its scheduled one. It has the scheduled time that the
/// time zone gave, and the real time that the time zone gave; it leaves as
/// scheduled only without a real time, or where the time zone has none for it.
pub proof fn departures_have_their_times(
    raw: RawStop,
    result: Result<Departure, StopError>,
    sched: Time,
    actual: Time,
)
    requires
        is_departure(raw, result),
        bad_number(raw) is None,
        is_time(raw.time_sched, sched),
        raw.time_real matches Some(r) ==> is_time(r, actual),
    ensures
        match result {
            Ok(d) => sched.shown() && gives_latest(sched.wall(), Some(d.time_sched)),
            Err(_) => sched.shown() ==> gives_latest(sched.wall(), None),
        },
        result matches Ok(d) ==> if raw.time_real is Some && actual.shown() {
            is_given(actual, d.time_real) || (gives_latest(actual.wall(), None) && d.time_real
                == d.time_sched.at)
        } else {
            d.time_real == d.time_sched.at
        },
{
    let (s, a) = choose|s: Option<DateTime>, a: Option<DateTime>| #[trigger]
        times_fit(raw, s, a) && comes_to(result, departure_of(raw, s, a));
    let time = choose|time: Time| #[trigger] is_time(raw.time_sched, time) && time.comes_at(s);
    assert(time == sched);
    if result is Ok {
        assert(result->Ok_0.deep_view().time_sched == s->0);
        if raw.time_real is Some {
            let other = choose|time: Time| #[trigger]
                is_time(raw.time_real->0, time) && time.comes_at(a);
            assert(other == actual);
            if a is Some {
                assert((a->0).valid() || !(a->0).valid());
            }
        }
    }
}

// ---------------------------------------------------------------------------
// Equal departures and their order
// ---------------------------------------------------------------------------

/// Whether two departures are the same: from one stop, at one scheduled time,
/// of one line with one destination.
pub open spec fn same_departure(a: DepartureView, b: DepartureView) -> bool {
    &&& a.local_stop_idx == b.local_stop_idx
    &&& a.time_sched.at == b.time_sched.at
    &&& a.line == b.line
    &&& a.line_destination == b.line_destination
}

impl PartialEq for Departure {
    fn eq(&self, other: &Self) -> (r: bool) {
        self.local_stop_idx == other.local_stop_idx && self.time_sched.at == other.time_sched.at
            && self.line == other.line && self.line_destination == other.line_destination
    }
}

impl vstd::std_specs::cmp::PartialEqSpecImpl for Departure {
    open spec fn obeys_eq_spec() -> bool {
        true
    }

    open spec fn eq_spec(&self, other: &Self) -> bool {
        same_departure(self.deep_view(), other.deep_view())
    }
}

impl Eq for Departure {

}

/// Whether a departure comes before another: by line, then by destination, then
/// by scheduled time.
pub open spec fn listed_before(a: DepartureView, b: DepartureView) -> bool {
    ||| text_before(a.line, b.line)
    ||| a.line == b.line && text_before(a.line_destination, b.line_destination)
    ||| a.line == b.line && a.line_destination == b.line_destination && earlier(
        a.time_sched.at,
        b.time_sched.at,
    )
}

impl PartialOrd for Departure {
    fn partial_cmp(&self, other: &Self) -> (r: Option<std::cmp::Ordering>) {
        proof {
            texts_compare(self.line@, other.line@);
            texts_compare(self.line_destination@, other.line_destination@);
        }
        if ByLine::is_before(self, other) {
            Some(std::cmp::Ordering::Less)
        } else if ByLine::is_before(other, self) {
            Some(std::cmp::Ordering::Greater)
        } else {
            Some(std::cmp::Ordering::Equal)
        }
    }
}

impl vstd::std_specs::cmp::PartialOrdSpecImpl for Departure {
    open spec fn obeys_partial_cmp_spec() -> bool {
        true
    }

    open spec fn partial_cmp_spec(&self, other: &Self) -> Option<std::cmp::Ordering> {
        if listed_before(self.deep_view(), other.deep_view()) {
            Some(std::cmp::Ordering::Less)
        } else if listed_before(other.deep_view(), self.deep_view()) {
            Some(std::cmp::Ordering::Greater)
        } else {
            Some(std::cmp::Ordering::Equal)
        }
    }
}

/// The order of departures by line, then by destination, then by scheduled time.
pub struct ByLine;

impl Order<Departure> for ByLine {
    open spec fn before(a: DepartureView, b: DepartureView) -> bool {
        listed_before(a, b)
    }

    proof fn asymmetric(a: DepartureView, b: DepartureView) {
        texts_compare(a.line, b.line);
        texts_compare(a.line_destination, b.line_destination);
    }

    proof fn divides(a: DepartureView, b: DepartureView, c: DepartureView) {
        texts_compare(a.line, b.line);
        texts_compare(b.line, c.line);
        texts_compare(a.line, c.line);
        texts_compare(a.line_destination, b.line_destination);
        texts_compare(b.line_destination, c.line_destination);
        texts_compare(a.line_destination, c.line_destination);
        if text_before(b.line, a.line) && text_before(c.line, b.line) {
            texts_chain(c.line, b.line, a.line);
        }
        if text_before(b.line_destination, a.line_destination) && text_before(
            c.line_destination,
            b.line_destination,
        ) {
            texts_chain(c.line_destination, b.line_destination, a.line_destination);
        }
    }

    fn is_before(a: &Departure, b: &Departure) -> (r: bool) {
        proof {
            texts_compare(a.line@, b.line@);
            texts_compare(a.line_destination@, b.line_destination@);
        }
        if !text::same_text(a.line.as_str(), b.line.as_str()) {
            return text_is_before(a.line.as_str(), b.line.as_str());
        }
        if !text::same_text(a.line_destination.as_str(), b.line_destination.as_str()) {
            return text_is_before(a.line_destination.as_str(), b.line_destination.as_str());
        }
        a.time_sched.at.is_earlier(b.time_sched.at)
    }
}

/// Departures in the order of their lines, each place taken once: one more
/// takes the place of the one that ranks equal, or its own.
pub open spec fn with_departure(s: Seq<DepartureView>, d: DepartureView) -> Seq<DepartureView> {
    let k = rank::<Departure, ByLine>(d, s);
    if k < s.len() && !listed_before(d, s[k]) {
        s.update(k, d)
    } else {
        s.insert(k, d)
    }
}

/// Departures with each of some more.
pub open spec fn with_departures(s: Seq<DepartureView>, ds: Seq<DepartureView>) -> Seq<
    DepartureView,
>
    decreases ds.len(),
{
    if ds.len() == 0 {
        s
    } else {
        with_departure(with_departures(s, ds.drop_last()), ds.last())
    }
}

/// Whether each departure is listed before all that follow it.
pub open spec fn listed(s: Seq<DepartureView>) -> bool {
    forall|i: int, j: int| 0 <= i < j < s.len() ==> listed_before(#[trigger] s[i], #[trigger] s[j])
}

fn put_departure(list: &mut Vec<Departure>, d: Departure)
    ensures
        final(list).deep_view() == with_departure(old(list).deep_view(), d.deep_view()),
{
    let ghost s = list.deep_view();
    let ghost x = d.deep_view();
    let mut k: usize = 0;
    assert(s.skip(0) =~= s);
    while k < list.len() && ByLine::is_before(&list[k], &d)
        invariant
            k <= list@.len(),
            s == list.deep_view(),
            s == old(list).deep_view(),
            x == d.deep_view(),
            rank::<Departure, ByLine>(x, s) == k + rank::<Departure, ByLine>(x, s.skip(k as int)),
        decreases list@.len() - k,
    {
        assert(s.skip(k as int)[0] == list@[k as int].deep_view());
        assert(s.skip(k as int).skip(1) =~= s.skip(k + 1));
        k = k + 1;
    }
    assert(k < s.len() ==> s.skip(k as int)[0] == list@[k as int].deep_view());
    assert(k < s.len() ==> s[k as int] == list@[k as int].deep_view());
    assert(rank::<Departure, ByLine>(x, s) == k);
    if k < list.len() && !ByLine::is_before(&d, &list[k]) {
        list.set(k, d);
        assert(list.deep_view() =~= s.update(k as int, x));
    } else {
        list.insert(k, d);
        assert(list.deep_view() =~= s.insert(k as int, x));
    }
}

/// Lists departures in the order of their lines; of those that rank equal the
/// last one stays.
pub fn list_departures(departures: Vec<Departure>) -> (r: Vec<Departure>)
    ensures
        r.deep_view() == with_departures(Seq::empty(), departures.deep_view()),
{
    let ghost all = departures.deep_view();
    let mut r: Vec<Departure> = lists::empty();
    for d in it: departures
        invariant
            it.seq() == departures@,
            all == departures.deep_view(),
            r.deep_view() == with_departures(Seq::empty(), all.take(it.index())),
    {
        let ghost i = it.index();
        assert(all[i] == departures@[i].deep_view());
        assert(all.take(i + 1).drop_last() =~= all.take(i));
        put_departure(&mut r, d);
    }
    assert(all.take(all.len() as int) =~= all);
    r
}

/// Adding a departure to a list keeps it in order.
pub proof fn list_stays_in_order(s: Seq<DepartureView>, d: DepartureView)
    requires
        listed(s),
    ensures
        listed(with_departure(s, d)),
        with_departure(s, d).contains(d),
        forall|x: DepartureView|
            s.contains(x) && (listed_before(x, d) || listed_before(d, x))
                ==> #[trigger] with_departure(s, d).contains(x),
        forall|x: DepartureView| #[trigger]
            with_departure(s, d).contains(x) ==> x == d || s.contains(x),
{
    let r = with_departure(s, d);
    rank_is_bounded::<Departure, ByLine>(d, s);
    let k = rank::<Departure, ByLine>(d, s);
    let taken = k < s.len() && !listed_before(d, s[k]);
    assert(r[k] == d);
    assert forall|i: int| k <= i < s.len() && (taken ==> k < i) implies listed_before(
        d,
        #[trigger] s[i],
    ) by {
        if i > k {
            assert(listed_before(s[k], s[i]));
            ByLine::divides(s[k], d, s[i]);
        }
    }
    assert forall|i: int, j: int| 0 <= i < j < r.len() implies listed_before(
        #[trigger] r[i],
        #[trigger] r[j],
    ) by {
        let a = if taken || i < k {
            i
        } else {
            i - 1
        };
        let b = if taken || j < k {
            j
        } else {
            j - 1
        };
        if i == k {
            assert(r[j] == s[b]);
        } else if j == k {
            assert(r[i] == s[a]);
        } else {
            assert(r[i] == s[a] && r[j] == s[b]);
        }
    }
    assert forall|x: DepartureView|
        s.contains(x) && (listed_before(x, d) || listed_before(d, x)) implies #[trigger] r.contains(
        x,
    ) by {
        let i = choose|i: int| 0 <= i < s.len() && s[i] == x;
        if taken && i == k {
            assert(false);
        }
        assert(r[if taken || i < k {
            i
        } else {
            i + 1
        }] == x);
    }
    assert forall|x: DepartureView| #[trigger] r.contains(x) implies x == d || s.contains(x) by {
        let i = choose|i: int| 0 <= i < r.len() && r[i] == x;
        if i != k {
            assert(s[if taken || i < k {
                i
            } else {
                i - 1
            }] == x);
        }
    }
}

/// Whether two departures take one place in a list: those of one line with one
/// destination, scheduled for one time.
pub open spec fn one_place(a: DepartureView, b: DepartureView) -> bool {
    a.line == b.line && a.line_destination == b.line_destination && a.time_sched.at
        == b.time_sched.at
}

/// Departures are listed by line, those of a line by destination, and those with
/// one destination by scheduled time; two that agree in all of it take one place.
pub proof fn lists_go_by_line(a: DepartureView, b: DepartureView)
    ensures
        a.line != b.line ==> listed_before(a, b) == text_before(a.line, b.line),
        a.line == b.line && a.line_destination != b.line_destination ==> listed_before(a, b)
            == text_before(a.line_destination, b.line_destination),
        a.line == b.line && a.line_destination == b.line_destination ==> listed_before(a, b)
            == earlier(a.time_sched.at, b.time_sched.at),
        one_place(a, b) <==> !listed_before(a, b) && !listed_before(b, a),
{
    texts_compare(a.line, b.line);
    texts_compare(a.line_destination, b.line_destination);
}

/// Departures are the same if they leave one stop, take one place in a list, and
/// only then.
pub proof fn same_departures_share_a_stop(a: DepartureView, b: DepartureView)
    ensures
        same_departure(a, b) <==> one_place(a, b) && a.local_stop_idx == b.local_stop_idx,
{
}

/// Departures compare equal if they are the same: from one stop, at one scheduled time,
/// of one line with one destination. When they really leave does not matter.
pub proof fn equal_departures_are_the_same(a: Departure, b: Departure)
    ensures
        Departure::obeys_eq_spec(),
        a.eq_spec(&b) <==> a.local_stop_idx == b.local_stop_idx && a.time_sched.at
            == b.time_sched.at && a.line@ == b.line@ && a.line_destination@ == b.line_destination@,
{
}

/// Departures always compare, as they are listed.
pub proof fn departures_compare_as_listed(a: Departure, b: Departure)
    ensures
        Departure::obeys_partial_cmp_spec(),
        a.partial_cmp_spec(&b) is Some,
        a.partial_cmp_spec(&b) == Some(std::cmp::Ordering::Less) <==> listed_before(
            a.deep_view(),
            b.deep_view(),
        ),
        a.partial_cmp_spec(&b) == Some(std::cmp::Ordering::Greater) <==> listed_before(
            b.deep_view(),
            a.deep_view(),
        ),
{
    ByLine::asymmetric(a.deep_view(), b.deep_view());
}

/// Of the departures that come to a list, the last one for each place is on it
/// afterwards; and each that was on it before, unless another came for its place.
/// Nothing else is on it.
pub proof fn last_departures_are_listed(s: Seq<DepartureView>, ds: Seq<DepartureView>)
    requires
        listed(s),
    ensures
        forall|k: int|
            0 <= k < ds.len() && (forall|j: int| k < j < ds.len() ==> !one_place(ds[k], ds[j]))
                ==> with_departures(s, ds).contains(#[trigger] ds[k]),
        forall|x: DepartureView|
            s.contains(x) && (forall|j: int| 0 <= j < ds.len() ==> !one_place(x, ds[j]))
                ==> #[trigger] with_departures(s, ds).contains(x),
        forall|x: DepartureView| #[trigger]
            with_departures(s, ds).contains(x) ==> s.contains(x) || ds.contains(x),
    decreases ds.len(),
{
    if ds.len() > 0 {
        let front = ds.drop_last();
        let d = ds.last();
        let before = with_departures(s, front);
        let r = with_departures(s, ds);
        last_departures_are_listed(s, front);
        lists_stay_in_order(s, front);
        list_stays_in_order(before, d);
        departures_are_drawn(s, ds);
        assert forall|k: int|
            0 <= k < ds.len() && (forall|j: int| k < j < ds.len() ==> !one_place(
                ds[k],
                ds[j],
            )) implies r.contains(#[trigger] ds[k]) by {
            if k < front.len() {
                assert(front[k] == ds[k]);
                assert forall|j: int| k < j < front.len() implies !one_place(
                    front[k],
                    front[j],
                ) by {
                    assert(front[j] == ds[j]);
                }
                assert(before.contains(front[k]));
                assert(!one_place(ds[k], ds[ds.len() - 1]));
                lists_go_by_line(ds[k], d);
            }
        }
        assert forall|x: DepartureView|
            s.contains(x) && (forall|j: int| 0 <= j < ds.len() ==> !one_place(
                x,
                ds[j],
            )) implies #[trigger] r.contains(x) by {
            assert forall|j: int| 0 <= j < front.len() implies !one_place(x, front[j]) by {
                assert(front[j] == ds[j]);
            }
            assert(before.contains(x));
            assert(!one_place(x, ds[ds.len() - 1]));
            lists_go_by_line(x, d);
        }
    }
}

// ---------------------------------------------------------------------------
// Stops
// ---------------------------------------------------------------------------

/// A stop nearby: its distance in meters, and for some lines the destinations
/// that lie towards the city.
#[derive(Debug)]
pub struct BusStop {
    pub title: String,
    pub color: u32,
    pub distance: u32,
    pub stops_into_city: Vec<(String, Vec<String>)>,
}

/// What a `BusStop` holds.
#[verifier::ext_equal]
pub struct BusStopView {
    pub title: Seq<char>,
    pub color: u32,
    pub distance: u32,
    pub stops_into_city: Seq<(Seq<char>, Seq<Seq<char>>)>,
}

impl DeepView for BusStop {
    type V = BusStopView;

    open spec fn deep_view(&self) -> BusStopView {
        BusStopView {
            title: self.title@,
            color: self.color,
            distance: self.distance,
            stops_into_city: self.stops_into_city.deep_view(),
        }
    }
}

/// The order of stops, each with its name, by their distance.
pub struct ByDistance;

impl Order<(String, BusStop)> for ByDistance {
    open spec fn before(a: (Seq<char>, BusStopView), b: (Seq<char>, BusStopView)) -> bool {
        a.1.distance < b.1.distance
    }

    proof fn asymmetric(a: (Seq<char>, BusStopView), b: (Seq<char>, BusStopView)) {
    }

    proof fn divides(
        a: (Seq<char>, BusStopView),
        b: (Seq<char>, BusStopView),
        c: (Seq<char>, BusStopView),
    ) {
    }

    fn is_before(a: &(String, BusStop), b: &(String, BusStop)) -> (r: bool) {
        a.1.distance < b.1.distance
    }
}

/// Puts the stops in the order of their distance.
pub fn sort_stops(stops: Vec<(String, BusStop)>) -> (r: Vec<(String, BusStop)>)
    ensures
        r.deep_view() == sorted::<(String, BusStop), ByDistance>(stops.deep_view()),
{
    stable_sort::<(String, BusStop), ByDistance>(stops)
}

/// A departure board needs stops.
pub fn check_stops(stops: &Vec<(String, BusStop)>) -> (r: Result<(), String>)
    ensures
        match r {
            Ok(_) => stops@.len() > 0,
            Err(e) => stops@.len() == 0 && e@ == "empty bus schedule"@,
        },
{
    if stops.len() == 0 {
        Err("empty bus schedule".to_owned())
    } else {
        Ok(())
    }
}

/// The destinations of a line that lie towards the city, where they are known.
pub open spec fn destinations_of(
    lines: Seq<(Seq<char>, Seq<Seq<char>>)>,
    line: Seq<char>,
) -> Option<Seq<Seq<char>>>
    decreases lines.len(),
{
    if lines.len() == 0 {
        None
    } else if lines[0].0 == line {
        Some(lines[0].1)
    } else {
        destinations_of(lines.skip(1), line)
    }
}

fn find_line(lines: &Vec<(String, Vec<String>)>, line: &str) -> (r: Option<usize>)
    ensures
        match r {
            Some(i) => i < lines@.len() && destinations_of(lines.deep_view(), line@) == Some(
                lines.deep_view()[i as int].1,
            ),
            None => destinations_of(lines.deep_view(), line@) is None,
        },
{
    let ghost all = lines.deep_view();
    let mut i: usize = 0;
    assert(all.skip(0) =~= all);
    while i < lines.len()
        invariant
            all == lines.deep_view(),
            i <= lines@.len(),
            destinations_of(all, line@) == destinations_of(all.skip(i as int), line@),
        decreases lines@.len() - i,
    {
        assert(all.skip(i as int)[0] == lines@[i as int].deep_view());
        if text::same_text(lines[i].0.as_str(), line) {
            return Some(i);
        }
        assert(all.skip(i as int).skip(1) =~= all.skip(i + 1));
        i = i + 1;
    }
    None
}

/// A departure from the stop at a place in the list: whether it goes into the
/// city is what the stop knows of its line, where it knows it, and its
/// destination goes without a prefix.
pub open spec fn at_stop(
    d: DepartureView,
    stop_idx: usize,
    lines: Seq<(Seq<char>, Seq<Seq<char>>)>,
    strip: Seq<char>,
) -> DepartureView {
    DepartureView {
        local_stop_idx: stop_idx,
        into_city: match destinations_of(lines, d.line) {
            Some(names) => names.contains(d.line_destination),
            None => d.into_city,
        },
        line_destination: match after_prefix(d.line_destination, strip) {
            Some(rest) => trimmed(rest),
            None => d.line_destination,
        },
        ..d
    }
}

/// Departures from the stop at a place in the list.
pub open spec fn all_at_stop(
    ds: Seq<DepartureView>,
    stop_idx: usize,
    lines: Seq<(Seq<char>, Seq<Seq<char>>)>,
    strip: Seq<char>,
) -> Seq<DepartureView> {
    ds.map_values(|d: DepartureView| at_stop(d, stop_idx, lines, strip))
}

/// The destinations of a line are those of its first entry; a line without an
/// entry has none.
pub proof fn first_entry_of_a_line_counts(
    lines: Seq<(Seq<char>, Seq<Seq<char>>)>,
    line: Seq<char>,
    k: int,
)
    requires
        0 <= k <= lines.len(),
        forall|j: int| 0 <= j < k ==> (#[trigger] lines[j]).0 != line,
        k < lines.len() ==> lines[k].0 == line,
    ensures
        destinations_of(lines, line) == (if k < lines.len() {
            Some(lines[k].1)
        } else {
            None
        }),
    decreases lines.len(),
{
    if k > 0 {
        let rest = lines.skip(1);
        assert(lines[0].0 != line);
        assert forall|j: int| 0 <= j < k - 1 implies (#[trigger] rest[j]).0 != line by {
            assert(rest[j] == lines[j + 1]);
        }
        first_entry_of_a_line_counts(rest, line, k - 1);
    }
}

/// A departure that is placed at a stop keeps its line and its times. Where the
/// stop lists no destinations for the line, it also keeps its direction; where it
/// does, the departure goes into the city if its destination is listed. The
/// destination is cut only where it begins with the prefix.
pub proof fn placed_departures_keep(
    ds: Seq<DepartureView>,
    stop_idx: usize,
    lines: Seq<(Seq<char>, Seq<Seq<char>>)>,
    strip: Seq<char>,
    i: int,
)
    requires
        0 <= i < ds.len(),
    ensures
        all_at_stop(ds, stop_idx, lines, strip).len() == ds.len(),
        ({
            let d = ds[i];
            let r = all_at_stop(ds, stop_idx, lines, strip)[i];
            &&& r.local_stop_idx == stop_idx
            &&& r.line == d.line
            &&& r.time_sched == d.time_sched
            &&& r.time_real == d.time_real
            &&& (forall|j: int| 0 <= j < lines.len() ==> (#[trigger] lines[j]).0 != d.line)
                ==> r.into_city == d.into_city
            &&& forall|k: int|
                0 <= k < lines.len() && (#[trigger] lines[k]).0 == d.line && (forall|j: int|
                    0 <= j < k ==> (#[trigger] lines[j]).0 != d.line) ==> r.into_city
                    == lines[k].1.contains(d.line_destination)
            &&& forall|rest: Seq<char>|
                d.line_destination == #[trigger] (strip + rest) ==> r.line_destination == trimmed(
                    rest,
                )
            &&& !strip.is_prefix_of(d.line_destination) ==> r.line_destination
                == d.line_destination
        }),
{
    let d = ds[i];
    let r = all_at_stop(ds, stop_idx, lines, strip)[i];
    assert(r == at_stop(d, stop_idx, lines, strip));
    if forall|j: int| 0 <= j < lines.len() ==> (#[trigger] lines[j]).0 != d.line {
        first_entry_of_a_line_counts(lines, d.line, lines.len() as int);
    }
    assert forall|k: int|
        0 <= k < lines.len() && (#[trigger] lines[k]).0 == d.line && (forall|j: int|
            0 <= j < k ==> (#[trigger] lines[j]).0 != d.line) implies r.into_city
        == lines[k].1.contains(d.line_destination) by {
        first_entry_of_a_line_counts(lines, d.line, k);
    }
    assert forall|rest: Seq<char>|
        d.line_destination == #[trigger] (strip + rest) implies r.line_destination == trimmed(
        rest,
    ) by {
        assert((strip + rest).take(strip.len() as int) =~= strip);
        assert((strip + rest).skip(strip.len() as int) =~= rest);
    }
}

/// Stops come in the order of their distance. None is lost, and those that are
/// equally far stay as they were.
pub proof fn stops_go_by_distance(stops: Seq<(Seq<char>, BusStopView)>, distance: u32)
    ensures
        sorted::<(String, BusStop), ByDistance>(stops).to_multiset() == stops.to_multiset(),
        forall|i: int, j: int|
            0 <= i < j < stops.len() ==> (#[trigger] sorted::<(String, BusStop), ByDistance>(
                stops,
            )[i]).1.distance <= (#[trigger] sorted::<(String, BusStop), ByDistance>(
                stops,
            )[j]).1.distance,
        sorted::<(String, BusStop), ByDistance>(stops).filter(
            |stop: (Seq<char>, BusStopView)| stop.1.distance == distance,
        ) == stops.filter(|stop: (Seq<char>, BusStopView)| stop.1.distance == distance),
{
    sorted_len::<(String, BusStop), ByDistance>(stops);
    sorted_same_values::<(String, BusStop), ByDistance>(stops);
    sorted_in_order::<(String, BusStop), ByDistance>(stops);
    sorted_keeps_equals::<(String, BusStop), ByDistance>(
        stops,
        |stop: (Seq<char>, BusStopView)| stop.1.distance == distance,
    );
    let r = sorted::<(String, BusStop), ByDistance>(stops);
    assert forall|i: int, j: int| 0 <= i < j < stops.len() implies (#[trigger] r[i]).1.distance
        <= (#[trigger] r[j]).1.distance by {
        assert(!ByDistance::before(r[j], r[i]));
    }
}

/// The distances are those of the stops, in their order.
pub proof fn distances_are_those_of_stops(stops: Seq<(Seq<char>, BusStopView)>, i: int)
    requires
        0 <= i < stops.len(),
    ensures
        stop_distances(stops).len() == stops.len(),
        stop_distances(stops)[i] == stops[i].1.distance,
{
}

/// The earliest of `t` and the scheduled times of departures.
pub open spec fn earliest(ds: Seq<DepartureView>, t: Instant) -> Instant
    decreases ds.len(),
{
    if ds.len() == 0 {
        t
    } else {
        let e = earliest(ds.drop_last(), t);
        if earlier(ds.last().time_sched.at, e) {
            ds.last().time_sched.at
        } else {
            e
        }
    }
}

/// The earliest time is `t` or a scheduled one, and no scheduled one is earlier,
/// nor is `t`.
pub proof fn earliest_is_least(ds: Seq<DepartureView>, t: Instant)
    ensures
        !earlier(t, earliest(ds, t)),
        forall|i: int|
            0 <= i < ds.len() ==> !earlier((#[trigger] ds[i]).time_sched.at, earliest(ds, t)),
        earliest(ds, t) == t || exists|i: int|
            0 <= i < ds.len() && (#[trigger] ds[i]).time_sched.at == earliest(ds, t),
    decreases ds.len(),
{
    if ds.len() > 0 {
        let front = ds.drop_last();
        earliest_is_least(front, t);
        assert forall|i: int| 0 <= i < ds.len() implies !earlier(
            (#[trigger] ds[i]).time_sched.at,
            earliest(ds, t),
        ) by {
            if i < front.len() {
                assert(front[i] == ds[i]);
            }
        }
        if earliest(ds, t) != t && earliest(ds, t) == earliest(front, t) {
            let i = choose|i: int|
                0 <= i < front.len() && (#[trigger] front[i]).time_sched.at == earliest(front, t);
            assert(ds[i].time_sched.at == earliest(ds, t));
        } else if earliest(ds, t) != t {
            assert(ds[ds.len() - 1].time_sched.at == earliest(ds, t));
        }
    }
}

/// Whether all departures are valid.
pub open spec fn all_valid(ds: Seq<DepartureView>) -> bool {
    forall|i: int| 0 <= i < ds.len() ==> (#[trigger] ds[i]).valid()
}

fn place(d: &Departure, stop_idx: usize, stop: &BusStop, strip: &str) -> (r: Departure)
    ensures
        r.deep_view() == at_stop(
            d.deep_view(),
            stop_idx,
            stop.stops_into_city.deep_view(),
            strip@,
        ),
{
    let into_city: bool = match find_line(&stop.stops_into_city, d.line.as_str()) {
        Some(i) => {
            assert(stop.stops_into_city.deep_view()[i as int]
                == stop.stops_into_city@[i as int].deep_view());
            has_name(&stop.stops_into_city[i].1, d.line_destination.as_str())
        },
        None => d.into_city,
    };
    let line_destination: String = match text::strip_prefix(d.line_destination.as_str(), strip) {
        Some(rest) => text::trim(rest.as_str()),
        None => d.line_destination.clone(),
    };
    Departure {
        time_sched: d.time_sched,
        time_real: d.time_real,
        line: d.line.clone(),
        line_destination,
        into_city,
        local_stop_idx: stop_idx,
    }
}

/// Takes the departures that were fetched for a stop: gives them as they go on
/// the list, and the earliest scheduled time, if it is before `dep_next`.
pub fn arrive_at_stop(
    departures: &Vec<Departure>,
    stop_idx: usize,
    stop: &BusStop,
    strip: &str,
    dep_next: Instant,
) -> (r: (Vec<Departure>, Instant))
    requires
        all_valid(departures.deep_view()),
        ordinary(dep_next),
    ensures
        r.0.deep_view() == with_departures(
            Seq::empty(),
            all_at_stop(
                departures.deep_view(),
                stop_idx,
                stop.stops_into_city.deep_view(),
                strip@,
            ),
        ),
        r.1 == earliest(departures.deep_view(), dep_next),
        ordinary(r.1),
        forall|n: nat| stop_idx < n ==> #[trigger] all_placed(r.0.deep_view(), n),
{
    let ghost all = departures.deep_view();
    let ghost lines = stop.stops_into_city.deep_view();
    let mut placed: Vec<Departure> = lists::empty();
    let mut next: Instant = dep_next;
    let mut i: usize = 0;
    while i < departures.len()
        invariant
            all == departures.deep_view(),
            all_valid(all),
            lines == stop.stops_into_city.deep_view(),
            i <= departures@.len(),
            placed.deep_view() == all_at_stop(all.take(i as int), stop_idx, lines, strip@),
            next == earliest(all.take(i as int), dep_next),
            ordinary(next),
        decreases departures@.len() - i,
    {
        assert(all[i as int] == departures@[i as int].deep_view());
        assert(all[i as int].valid());
        assert(all.take(i + 1).drop_last() =~= all.take(i as int));
        let d: Departure = place(&departures[i], stop_idx, stop, strip);
        lists::put(&mut placed, d);
        assert(all_at_stop(all.take(i + 1), stop_idx, lines, strip@) =~= all_at_stop(
            all.take(i as int),
            stop_idx,
            lines,
            strip@,
        ).push(at_stop(all[i as int], stop_idx, lines, strip@)));
        if departures[i].time_sched.at.is_earlier(next) {
            next = departures[i].time_sched.at;
        }
        i = i + 1;
    }
    assert(all.take(i as int) =~= all);
    proof {
        let ds = all_at_stop(all, stop_idx, lines, strip@);
        assert forall|n: nat| stop_idx < n implies #[trigger] all_placed(
            with_departures(Seq::empty(), ds),
            n,
        ) by {
            assert forall|i: int| 0 <= i < ds.len() implies (#[trigger] ds[i]).valid()
                && ds[i].local_stop_idx < n by {
                assert(all[i].valid());
            }
            with_departures_is_placed(Seq::empty(), ds, n);
        }
    }
    (list_departures(placed), next)
}

/// The time until departures are fetched again: a short one after a failure,
/// half the time since the earliest departure where that is long ago, else the
/// usual one.
pub open spec fn fetch_pause(
    failed: bool,
    update_rate: u32,
    dep_next: Instant,
    now: Instant,
) -> Wait {
    if failed {
        Wait::spec_secs(10)
    } else if nanos_since(now, dep_next) > update_rate * 20 * 60 * 1_000_000_000 {
        Wait::spec_secs((nanos_since(now, dep_next) / 1_000_000_000 / 2) as u64)
    } else {
        Wait::spec_secs(update_rate as u64)
    }
}

/// Tells how long to wait before departures are fetched again.
pub fn pause_after_fetch(
    failed: bool,
    update_rate: u32,
    dep_next: Instant,
    now: Instant,
) -> (r: Wait)
    requires
        failed || update_rate * 20 <= u32::MAX,
        ordinary(dep_next),
        ordinary(now),
    ensures
        r == fetch_pause(failed, update_rate, dep_next, now),
{
    if failed {
        return Wait::seconds(10);
    }
    let wait: Option<Wait> = now.until(dep_next);
    let threshold: u64 = update_rate as u64 * 20 * 60;
    match wait {
        Some(w) => {
            proof {
                crate::clock::wait_ends_on_time(now, dep_next);
            }
            if w.secs > threshold || (w.secs == threshold && w.nanos > 0) {
                Wait::seconds(w.secs / 2)
            } else {
                Wait::seconds(update_rate as u64)
            }
        },
        None => Wait::seconds(update_rate as u64),
    }
}

/// After a failure departures are fetched again in ten seconds. Where the
/// earliest departure was more than twenty times the update rate, in minutes,
/// ago, half of the whole seconds since then pass, else the seconds of the update
/// rate.
pub proof fn fetching_goes_on(update_rate: u32, dep_next: Instant, now: Instant)
    requires
        ordinary(dep_next),
        ordinary(now),
        update_rate * 20 <= u32::MAX,
    ensures
        fetch_pause(true, update_rate, dep_next, now) == (Wait { secs: 10, nanos: 0 }),
        fetch_pause(false, update_rate, dep_next, now).nanos == 0,
        ({
            let since = (now.secs * 1_000_000_000 + now.nanos) - (dep_next.secs * 1_000_000_000
                + dep_next.nanos);
            let pause = fetch_pause(false, update_rate, dep_next, now).secs;
            if since > update_rate * 1_200_000_000_000 {
                2 * pause * 1_000_000_000 <= since < (2 * pause + 2) * 1_000_000_000
            } else {
                pause == update_rate
            }
        }),
{
}

// ---------------------------------------------------------------------------
// The board
// ---------------------------------------------------------------------------

/// The nearest stop of a line: its place in the list, and its distance.
pub type Nearest = Seq<(Seq<char>, (usize, u32))>;

/// The nearest stop of a line, where one is known.
pub open spec fn nearest_of(near: Nearest, line: Seq<char>) -> Option<(usize, u32)>
    decreases near.len(),
{
    if near.len() == 0 {
        None
    } else if near[0].0 == line {
        Some(near[0].1)
    } else {
        nearest_of(near.skip(1), line)
    }
}

/// The nearest stops of lines, once a line has been seen at a stop.
pub open spec fn with_line(near: Nearest, line: Seq<char>, idx: usize, distance: u32) -> Nearest
    decreases near.len(),
{
    if near.len() == 0 {
        seq![(line, (idx, distance))]
    } else if near[0].0 == line {
        if distance < near[0].1.1 {
            seq![(line, (idx, distance))] + near.skip(1)
        } else {
            near
        }
    } else {
        seq![near[0]] + with_line(near.skip(1), line, idx, distance)
    }
}

/// A line that was seen at a stop has that stop or a nearer one as its nearest;
/// the nearest stops of all other lines stay.
pub proof fn nearest_stop_is_kept(
    near: Nearest,
    line: Seq<char>,
    idx: usize,
    distance: u32,
    other: Seq<char>,
)
    ensures
        nearest_of(with_line(near, line, idx, distance), line) == (match nearest_of(near, line) {
            Some(n) => if distance < n.1 {
                Some((idx, distance))
            } else {
                Some(n)
            },
            None => Some((idx, distance)),
        }),
        other != line ==> nearest_of(with_line(near, line, idx, distance), other) == nearest_of(
            near,
            other,
        ),
    decreases near.len(),
{
    let r = with_line(near, line, idx, distance);
    if near.len() == 0 {
        assert(r.skip(1) =~= near);
    } else if near[0].0 == line {
        if distance < near[0].1.1 {
            assert(r.skip(1) =~= near.skip(1));
        }
    } else {
        nearest_stop_is_kept(near.skip(1), line, idx, distance, other);
        assert(r.skip(1) =~= with_line(near.skip(1), line, idx, distance));
    }
}

/// The nearest stops of lines, once departures have been seen at their stops,
/// which have the given distances.
pub open spec fn with_lines(
    near: Nearest,
    ds: Seq<DepartureView>,
    distances: Seq<u32>,
) -> Nearest
    decreases ds.len(),
{
    if ds.len() == 0 {
        near
    } else {
        let d = ds.last();
        with_line(
            with_lines(near, ds.drop_last(), distances),
            d.line,
            d.local_stop_idx,
            distances[d.local_stop_idx as int],
        )
    }
}

/// Whether a departure stays on the board: if it has not left yet and is from
/// the nearest stop of its line.
pub open spec fn stays(d: DepartureView, near: Nearest, now: Instant) -> bool {
    earlier(now, d.time_real) && match nearest_of(near, d.line) {
        Some(n) => n.0 == d.local_stop_idx,
        None => true,
    }
}

/// The departures that stay on the board.
pub open spec fn staying(ds: Seq<DepartureView>, near: Nearest, now: Instant) -> Seq<
    DepartureView,
> {
    ds.filter(|d: DepartureView| stays(d, near, now))
}

/// The order of departures, each with the distance of its stop, by real time,
/// then by distance.
pub struct ByTime;

impl Order<(u32, Departure)> for ByTime {
    open spec fn before(a: (u32, DepartureView), b: (u32, DepartureView)) -> bool {
        earlier(a.1.time_real, b.1.time_real) || (a.1.time_real == b.1.time_real && a.0 < b.0)
    }

    proof fn asymmetric(a: (u32, DepartureView), b: (u32, DepartureView)) {
    }

    proof fn divides(
        a: (u32, DepartureView),
        b: (u32, DepartureView),
        c: (u32, DepartureView),
    ) {
    }

    fn is_before(a: &(u32, Departure), b: &(u32, Departure)) -> (r: bool) {
        a.1.time_real.is_earlier(b.1.time_real) || (a.1.time_real == b.1.time_real && a.0 < b.0)
    }
}

/// Departures with the distances of their stops.
pub open spec fn with_distances(ds: Seq<DepartureView>, distances: Seq<u32>) -> Seq<
    (u32, DepartureView),
> {
    ds.map_values(|d: DepartureView| (distances[d.local_stop_idx as int], d))
}

/// Departures in the order of their real times, nearer stops first.
pub open spec fn by_time(ds: Seq<DepartureView>, distances: Seq<u32>) -> Seq<
    (u32, DepartureView),
> {
    sorted::<(u32, Departure), ByTime>(with_distances(ds, distances))
}

/// A departure as it is shown.
#[derive(Debug)]
pub struct ShownDeparture {
    pub time: String,
    pub delay: i32,
    pub deadline: i32,
    pub line: String,
    pub final_stop: String,
    pub local_stop_idx: i32,
}

/// What a `ShownDeparture` holds.
#[verifier::ext_equal]
pub struct ShownDepartureView {
    pub time: Seq<char>,
    pub delay: i32,
    pub deadline: i32,
    pub line: Seq<char>,
    pub final_stop: Seq<char>,
    pub local_stop_idx: i32,
}

impl DeepView for ShownDeparture {
    type V = ShownDepartureView;

    open spec fn deep_view(&self) -> ShownDepartureView {
        ShownDepartureView {
            time: self.time@,
            delay: self.delay,
            deadline: self.deadline,
            line: self.line@,
            final_stop: self.final_stop@,
            local_stop_idx: self.local_stop_idx,
        }
    }
}

/// The whole minutes by which a departure is late.
pub open spec fn delay_minutes(d: DepartureView) -> int {
    toward_zero(
        toward_zero(nanos_since(d.time_real, d.time_sched.at), 1_000_000_000),
        60,
    )
}

/// A departure as it is shown: when it is scheduled, by how many minutes it is
/// late, and the minute at which it leaves.
pub open spec fn departure_shown(d: DepartureView) -> ShownDepartureView {
    ShownDepartureView {
        time: clock_text(d.time_sched),
        delay: wrapped(delay_minutes(d)) as i32,
        deadline: wrapped(toward_zero(d.time_real.secs as int, 60)) as i32,
        line: d.line,
        final_stop: d.line_destination,
        local_stop_idx: wrapped(d.local_stop_idx as int) as i32,
    }
}

impl Departure {
    /// The departure as it is shown.
    pub fn into_ui(self) -> (r: ShownDeparture)
        requires
            self.deep_view().valid(),
        ensures
            r.deep_view() == departure_shown(self.deep_view()),
    {
        let low: u64 = (self.local_stop_idx as u64) % 0x1_0000_0000;
        ShownDeparture {
            time: self.time_sched.clock(),
            delay: wrap_i32(self.time_real.minutes_from(self.time_sched.at)),
            deadline: unix_minute(self.time_real),
            line: self.line,
            final_stop: self.line_destination,
            local_stop_idx: to_signed(low as u32),
        }
    }
}

/// The distances of stops.
pub open spec fn stop_distances(stops: Seq<(Seq<char>, BusStopView)>) -> Seq<u32> {
    stops.map_values(|stop: (Seq<char>, BusStopView)| stop.1.distance)
}

/// Whether departures are valid and from stops of a list of that length.
pub open spec fn all_placed(ds: Seq<DepartureView>, stops: nat) -> bool {
    forall|i: int|
        0 <= i < ds.len() ==> (#[trigger] ds[i]).valid() && ds[i].local_stop_idx < stops
}

/// What the board shows in one direction.
pub open spec fn direction_shown(
    ds: Seq<(u32, DepartureView)>,
    into_city: bool,
) -> Seq<ShownDepartureView> {
    ds.filter(|d: (u32, DepartureView)| d.1.into_city == into_city).map_values(
        |d: (u32, DepartureView)| departure_shown(d.1),
    )
}

/// The departures on the board, and the nearest stop of each line seen so far.
#[derive(Debug)]
pub struct Board {
    near: Vec<(String, (usize, u32))>,
    entries: Vec<Departure>,
}

fn see_line(near: &mut Vec<(String, (usize, u32))>, line: &str, idx: usize, distance: u32)
    ensures
        final(near).deep_view() == with_line(old(near).deep_view(), line@, idx, distance),
{
    let ghost all = near.deep_view();
    let mut i: usize = 0;
    assert(all.skip(0) =~= all);
    assert(all.take(0) + with_line(all, line@, idx, distance) =~= with_line(
        all,
        line@,
        idx,
        distance,
    ));
    while i < near.len()
        invariant
            all == near.deep_view(),
            all == old(near).deep_view(),
            i <= near@.len(),
            with_line(all, line@, idx, distance) == all.take(i as int) + with_line(
                all.skip(i as int),
                line@,
                idx,
                distance,
            ),
        decreases near@.len() - i,
    {
        assert(all[i as int] == near@[i as int].deep_view());
        assert(all.skip(i as int)[0] == all[i as int]);
        assert(all.skip(i as int).skip(1) =~= all.skip(i + 1));
        if text::same_text(near[i].0.as_str(), line) {
            assert(all.take(i as int) + all.skip(i as int) =~= all);
            if distance < near[i].1.1 {
                near.set(i, (line.to_owned(), (idx, distance)));
                assert(near.deep_view() =~= all.take(i as int) + (seq![(line@, (idx, distance))]
                    + all.skip(i + 1)));
            }
            return;
        }
        assert(all.take(i + 1) + with_line(all.skip(i + 1), line@, idx, distance) =~= all.take(
            i as int,
        ) + (seq![all[i as int]] + with_line(all.skip(i + 1), line@, idx, distance)));
        i = i + 1;
    }
    assert(all.take(i as int) + seq![(line@, (idx, distance))] =~= all.push(
        (line@, (idx, distance)),
    ));
    lists::put(near, (line.to_owned(), (idx, distance)));
}

fn find_nearest(near: &Vec<(String, (usize, u32))>, line: &str) -> (r: Option<(usize, u32)>)
    ensures
        r == nearest_of(near.deep_view(), line@),
{
    let ghost all = near.deep_view();
    let mut i: usize = 0;
    assert(all.skip(0) =~= all);
    while i < near.len()
        invariant
            all == near.deep_view(),
            i <= near@.len(),
            nearest_of(all, line@) == nearest_of(all.skip(i as int), line@),
        decreases near@.len() - i,
    {
        assert(all.skip(i as int)[0] == near@[i as int].deep_view());
        if text::same_text(near[i].0.as_str(), line) {
            return Some(near[i].1);
        }
        assert(all.skip(i as int).skip(1) =~= all.skip(i + 1));
        i = i + 1;
    }
    None
}

proof fn with_departure_is_placed(s: Seq<DepartureView>, d: DepartureView, stops: nat)
    requires
        all_placed(s, stops),
        d.valid(),
        d.local_stop_idx < stops,
    ensures
        all_placed(with_departure(s, d), stops),
{
    rank_is_bounded::<Departure, ByLine>(d, s);
    let k = rank::<Departure, ByLine>(d, s);
    let r = with_departure(s, d);
    assert forall|i: int| 0 <= i < r.len() implies (#[trigger] r[i]).valid()
        && r[i].local_stop_idx < stops by {
        if i != k {
            let j = if r.len() == s.len() || i < k {
                i
            } else {
                i - 1
            };
            assert(r[i] == s[j]);
        }
    }
}

proof fn with_departures_is_placed(
    s: Seq<DepartureView>,
    ds: Seq<DepartureView>,
    stops: nat,
)
    requires
        all_placed(s, stops),
        all_placed(ds, stops),
    ensures
        all_placed(with_departures(s, ds), stops),
    decreases ds.len(),
{
    if ds.len() > 0 {
        let front = ds.drop_last();
        assert forall|i: int| 0 <= i < front.len() implies (#[trigger] front[i]).valid()
            && front[i].local_stop_idx < stops by {
            assert(front[i] == ds[i]);
        }
        with_departures_is_placed(s, front, stops);
        assert(ds[ds.len() - 1].valid());
        with_departure_is_placed(with_departures(s, front), ds.last(), stops);
    }
}

fn keep_staying(
    entries: Vec<Departure>,
    near: &Vec<(String, (usize, u32))>,
    now: Instant,
    Ghost(stops): Ghost<nat>,
) -> (r: Vec<Departure>)
    requires
        all_placed(entries.deep_view(), stops),
    ensures
        r.deep_view() == staying(entries.deep_view(), near.deep_view(), now),
        all_placed(r.deep_view(), stops),
{
    let ghost all = entries.deep_view();
    let ghost keep = |d: DepartureView| stays(d, near.deep_view(), now);
    let mut r: Vec<Departure> = lists::empty();
    assert(all.take(0).filter(keep) =~= Seq::empty());
    for d in it: entries
        invariant
            it.seq() == entries@,
            all == entries.deep_view(),
            all_placed(all, stops),
            keep == (|d: DepartureView| stays(d, near.deep_view(), now)),
            r.deep_view() == all.take(it.index()).filter(keep),
            all_placed(r.deep_view(), stops),
    {
        let ghost i = it.index();
        assert(all[i] == entries@[i].deep_view());
        assert(all[i].valid() && all[i].local_stop_idx < stops);
        assert(all.take(i + 1).drop_last() =~= all.take(i));
        let ghost old_r = r.deep_view();
        proof {
            reveal(Seq::filter);
        }
        let at_nearest: bool = match find_nearest(near, d.line.as_str()) {
            Some(n) => n.0 == d.local_stop_idx,
            None => true,
        };
        if now.is_earlier(d.time_real) && at_nearest {
            lists::put(&mut r, d);
            assert(r.deep_view() == old_r.push(all[i]));
        }
    }
    assert(all.take(all.len() as int) =~= all);
    r
}

fn show_direction(
    departures: &Vec<(u32, Departure)>,
    into_city: bool,
) -> (r: Vec<ShownDeparture>)
    requires
        forall|i: int|
            0 <= i < departures@.len() ==> (#[trigger] departures@[i]).1.deep_view().valid(),
    ensures
        r.deep_view() == direction_shown(departures.deep_view(), into_city),
{
    let ghost all = departures.deep_view();
    let ghost keep = |d: (u32, DepartureView)| d.1.into_city == into_city;
    let ghost show = |d: (u32, DepartureView)| departure_shown(d.1);
    let mut r: Vec<ShownDeparture> = lists::empty();
    let mut i: usize = 0;
    assert(all.take(0).filter(keep).map_values(show) =~= Seq::empty());
    while i < departures.len()
        invariant
            all == departures.deep_view(),
            forall|i: int|
                0 <= i < departures@.len() ==> (#[trigger] departures@[i]).1.deep_view().valid(),
            keep == (|d: (u32, DepartureView)| d.1.into_city == into_city),
            show == (|d: (u32, DepartureView)| departure_shown(d.1)),
            i <= departures@.len(),
            r.deep_view() == all.take(i as int).filter(keep).map_values(show),
        decreases departures@.len() - i,
    {
        assert(all[i as int] == departures@[i as int].deep_view());
        assert(all.take(i + 1).drop_last() =~= all.take(i as int));
        let ghost old_kept = all.take(i as int).filter(keep);
        proof {
            reveal(Seq::filter);
        }
        if departures[i].1.into_city == into_city {
            let d: ShownDeparture = departures[i].1.clone().into_ui();
            lists::put(&mut r, d);
            assert(old_kept.push(all[i as int]).map_values(show) =~= old_kept.map_values(show).push(
                show(all[i as int]),
            ));
        }
        i = i + 1;
    }
    assert(all.take(i as int) =~= all);
    r
}

impl Board {
    #[verifier::type_invariant]
    spec fn in_order(self) -> bool {
        listed(self.entries.deep_view())
    }

    /// The departures on the board.
    pub closed spec fn entries(self) -> Seq<DepartureView> {
        self.entries.deep_view()
    }

    /// The nearest stops of the lines seen so far.
    pub closed spec fn nearest(self) -> Nearest {
        self.near.deep_view()
    }

    /// An empty board.
    pub fn new() -> (r: Board)
        ensures
            r.entries() == Seq::<DepartureView>::empty(),
            r.nearest() == Seq::<(Seq<char>, (usize, u32))>::empty(),
            listed(r.entries()),
    {
        Board { near: lists::empty(), entries: lists::empty() }
    }

    /// Takes departures that were fetched, drops those that have left or are
    /// not from the nearest stop of their line, and gives what is now shown:
    /// the buses into the city, and those out of it.
    pub fn update(
        &mut self,
        new_entries: Vec<Departure>,
        stops: &Vec<(String, BusStop)>,
        now: Instant,
    ) -> (r: (Vec<ShownDeparture>, Vec<ShownDeparture>))
        requires
            all_placed(old(self).entries(), stops@.len()),
            all_placed(new_entries.deep_view(), stops@.len()),
        ensures
            final(self).nearest() == with_lines(
                old(self).nearest(),
                new_entries.deep_view(),
                stop_distances(stops.deep_view()),
            ),
            final(self).entries() == staying(
                with_departures(old(self).entries(), new_entries.deep_view()),
                final(self).nearest(),
                now,
            ),
            all_placed(final(self).entries(), stops@.len()),
            listed(final(self).entries()),
            r.0.deep_view() == direction_shown(
                by_time(final(self).entries(), stop_distances(stops.deep_view())),
                true,
            ),
            r.1.deep_view() == direction_shown(
                by_time(final(self).entries(), stop_distances(stops.deep_view())),
                false,
            ),
    {
        proof {
            use_type_invariant(&*self);
        }
        let ghost n = stops@.len();
        let ghost distances = stop_distances(stops.deep_view());
        let ghost ds = new_entries.deep_view();
        let mut near: Vec<(String, (usize, u32))> = Vec::new();
        let mut entries: Vec<Departure> = Vec::new();
        std::mem::swap(&mut near, &mut self.near);
        std::mem::swap(&mut entries, &mut self.entries);
        for d in it: new_entries
            invariant
                it.seq() == new_entries@,
                ds == new_entries.deep_view(),
                n == stops@.len(),
                distances == stop_distances(stops.deep_view()),
                all_placed(ds, n),
                all_placed(entries.deep_view(), n),
                near.deep_view() == with_lines(
                    old(self).nearest(),
                    ds.take(it.index()),
                    distances,
                ),
                entries.deep_view() == with_departures(old(self).entries(), ds.take(it.index())),
        {
            let ghost i = it.index();
            assert(ds[i] == new_entries@[i].deep_view());
            assert(ds[i].valid() && ds[i].local_stop_idx < n);
            assert(ds.take(i + 1).drop_last() =~= ds.take(i));
            assert(ds.take(i + 1).last() == ds[i]);
            let idx: usize = d.local_stop_idx;
            assert(stops.deep_view()[idx as int] == stops@[idx as int].deep_view());
            assert(distances[idx as int] == stops@[idx as int].1.distance);
            see_line(&mut near, d.line.as_str(), idx, stops[idx].1.distance);
            proof {
                with_departure_is_placed(entries.deep_view(), ds[i], n);
            }
            put_departure(&mut entries, d);
        }
        assert(ds.take(ds.len() as int) =~= ds);
        let kept: Vec<Departure> = keep_staying(entries, &near, now, Ghost(n));
        let ghost k = kept.deep_view();
        proof {
            lists_stay_in_order(old(self).entries(), ds);
            staying_are_due(with_departures(old(self).entries(), ds), near.deep_view(), now);
        }
        let mut ranked: Vec<(u32, Departure)> = lists::empty();
        let mut i: usize = 0;
        while i < kept.len()
            invariant
                k == kept.deep_view(),
                n == stops@.len(),
                distances == stop_distances(stops.deep_view()),
                all_placed(k, n),
                i <= kept@.len(),
                ranked.deep_view() == with_distances(k.take(i as int), distances),
            decreases kept@.len() - i,
        {
            assert(k[i as int] == kept@[i as int].deep_view());
            assert(k[i as int].valid() && k[i as int].local_stop_idx < n);
            let idx: usize = kept[i].local_stop_idx;
            assert(stops.deep_view()[idx as int] == stops@[idx as int].deep_view());
            assert(distances[idx as int] == stops@[idx as int].1.distance);
            lists::put(&mut ranked, (stops[idx].1.distance, kept[i].clone()));
            assert(with_distances(k.take(i + 1), distances) =~= with_distances(
                k.take(i as int),
                distances,
            ).push((distances[idx as int], k[i as int])));
            i = i + 1;
        }
        assert(k.take(i as int) =~= k);
        let ghost unsorted = ranked.deep_view();
        let ordered: Vec<(u32, Departure)> = stable_sort::<(u32, Departure), ByTime>(ranked);
        proof {
            sorted_draws::<(u32, Departure), ByTime>(unsorted);
            assert forall|i: int| 0 <= i < ordered@.len() implies (
            #[trigger] ordered@[i]).1.deep_view().valid() by {
                assert(ordered.deep_view()[i] == ordered@[i].deep_view());
                assert(unsorted.contains(ordered.deep_view()[i]));
                let j = choose|j: int|
                    0 <= j < unsorted.len() && unsorted[j] == ordered.deep_view()[i];
                assert(k[j].valid());
            }
        }
        let into_city: Vec<ShownDeparture> = show_direction(&ordered, true);
        let from_city: Vec<ShownDeparture> = show_direction(&ordered, false);
        self.near = near;
        self.entries = kept;
        (into_city, from_city)
    }
}

// ---------------------------------------------------------------------------
// Laws of the board
// ---------------------------------------------------------------------------

/// Adding departures to a list keeps it in order.
pub proof fn lists_stay_in_order(s: Seq<DepartureView>, ds: Seq<DepartureView>)
    requires
        listed(s),
    ensures
        listed(with_departures(s, ds)),
    decreases ds.len(),
{
    if ds.len() > 0 {
        lists_stay_in_order(s, ds.drop_last());
        list_stays_in_order(with_departures(s, ds.drop_last()), ds.last());
    }
}

/// The departures that stay are in order if all were, none of them has left, and
/// each is from the nearest stop of its line.
pub proof fn staying_are_due(ds: Seq<DepartureView>, near: Nearest, now: Instant)
    requires
        listed(ds),
    ensures
        listed(staying(ds, near, now)),
        forall|i: int|
            0 <= i < staying(ds, near, now).len() ==> stays(
                #[trigger] staying(ds, near, now)[i],
                near,
                now,
            ) && ds.contains(staying(ds, near, now)[i]),
        forall|d: DepartureView|
            ds.contains(d) && stays(d, near, now) ==> #[trigger] staying(
                ds,
                near,
                now,
            ).contains(d),
    decreases ds.len(),
{
    reveal(Seq::filter);
    let keep = |d: DepartureView| stays(d, near, now);
    let r = staying(ds, near, now);
    if ds.len() > 0 {
        let front = ds.drop_last();
        let kept = staying(front, near, now);
        assert forall|i: int, j: int| 0 <= i < j < front.len() implies listed_before(
            #[trigger] front[i],
            #[trigger] front[j],
        ) by {
            assert(front[i] == ds[i] && front[j] == ds[j]);
        }
        staying_are_due(front, near, now);
        assert forall|i: int| 0 <= i < r.len() implies stays(#[trigger] r[i], near, now)
            && ds.contains(r[i]) by {
            if i < kept.len() {
                assert(r[i] == kept[i]);
                let m = choose|m: int| 0 <= m < front.len() && front[m] == kept[i];
                assert(ds[m] == r[i]);
            } else {
                assert(ds[ds.len() - 1] == r[i]);
            }
        }
        assert forall|i: int, j: int| 0 <= i < j < r.len() implies listed_before(
            #[trigger] r[i],
            #[trigger] r[j],
        ) by {
            assert(r[i] == kept[i]);
            if j < kept.len() {
                assert(r[j] == kept[j]);
            } else {
                let m = choose|m: int| 0 <= m < front.len() && front[m] == kept[i];
                assert(listed_before(ds[m], ds[ds.len() - 1]));
            }
        }
        assert forall|d: DepartureView|
            ds.contains(d) && stays(d, near, now) implies #[trigger] r.contains(d) by {
            let m = choose|m: int| 0 <= m < ds.len() && ds[m] == d;
            if m < front.len() {
                assert(front[m] == d);
                assert(kept.contains(d));
                let i = choose|i: int| 0 <= i < kept.len() && kept[i] == d;
                assert(r[i] == d);
            } else {
                assert(r[r.len() - 1] == d);
            }
        }
    }
}

/// The board misses nothing and holds nothing else: a departure stays if and only
/// if it was there, its real time is not over, and its stop is the nearest one
/// that is known for its line. When it was scheduled does not matter. Those that
/// stay do so in their order.
pub proof fn due_departures_stay(ds: Seq<DepartureView>, near: Nearest, now: Instant)
    ensures
        picked(
            ds,
            staying(ds, near, now),
            |d: DepartureView|
                (now.secs < d.time_real.secs || now.secs == d.time_real.secs && now.nanos
                    < d.time_real.nanos) && (nearest_of(near, d.line) matches Some(n) ==> n.0
                    == d.local_stop_idx),
            |d: DepartureView| d,
        ),
        forall|d: DepartureView| #[trigger]
            staying(ds, near, now).contains(d) <==> ds.contains(d) && (now.secs < d.time_real.secs
                || now.secs == d.time_real.secs && now.nanos < d.time_real.nanos) && (nearest_of(
                near,
                d.line,
            ) matches Some(n) ==> n.0 == d.local_stop_idx),
{
    let keep = |d: DepartureView|
        (now.secs < d.time_real.secs || now.secs == d.time_real.secs && now.nanos
            < d.time_real.nanos) && (nearest_of(near, d.line) matches Some(n) ==> n.0
            == d.local_stop_idx);
    let as_is = |d: DepartureView| d;
    let r = staying(ds, near, now);
    assert((|d: DepartureView| stays(d, near, now)) =~= keep);
    filter_picks(ds, keep, as_is);
    assert(ds.filter(keep).map_values(as_is) =~= r);
    picked_are_kept(ds, r, keep, as_is);
    assert forall|d: DepartureView| ds.contains(d) && keep(d) implies #[trigger] r.contains(d) by {
        assert(r.contains(as_is(d)));
    }
}

/// An update without new departures, at the time of the last one, changes nothing.
pub proof fn quiet_update_keeps_departures(ds: Seq<DepartureView>, near: Nearest, now: Instant)
    ensures
        staying(with_departures(staying(ds, near, now), Seq::empty()), near, now) == staying(
            ds,
            near,
            now,
        ),
    decreases ds.len(),
{
    reveal(Seq::filter);
    if ds.len() > 0 {
        let front = ds.drop_last();
        quiet_update_keeps_departures(front, near, now);
        if stays(ds.last(), near, now) {
            assert(staying(ds, near, now).drop_last() =~= staying(front, near, now));
        }
    }
}

/// The nearest stop of a line is no farther away than any stop at which the line
/// was seen.
pub proof fn nearest_is_least(
    near: Nearest,
    ds: Seq<DepartureView>,
    distances: Seq<u32>,
    i: int,
)
    requires
        0 <= i < ds.len(),
    ensures
        nearest_of(with_lines(near, ds, distances), ds[i].line) matches Some(n) && n.1
            <= distances[ds[i].local_stop_idx as int],
    decreases ds.len(),
{
    let front = ds.drop_last();
    let d = ds.last();
    let before = with_lines(near, front, distances);
    let line = ds[i].line;
    nearest_stop_is_kept(
        before,
        d.line,
        d.local_stop_idx,
        distances[d.local_stop_idx as int],
        line,
    );
    if i < front.len() {
        assert(front[i] == ds[i]);
        nearest_is_least(near, front, distances, i);
    }
}

/// An update of the board: the departures that came, and the time.
pub type Update = (Seq<DepartureView>, Instant);

/// All departures of some updates, in the order in which they came.
pub open spec fn all_received(updates: Seq<Update>) -> Seq<DepartureView>
    decreases updates.len(),
{
    if updates.len() == 0 {
        Seq::empty()
    } else {
        all_received(updates.drop_last()) + updates.last().0
    }
}

/// The nearest stops of lines after some updates of an empty board.
pub open spec fn nearest_after(updates: Seq<Update>, distances: Seq<u32>) -> Nearest
    decreases updates.len(),
{
    if updates.len() == 0 {
        Seq::empty()
    } else {
        with_lines(nearest_after(updates.drop_last(), distances), updates.last().0, distances)
    }
}

/// The departures on the board after some updates of an empty one.
pub open spec fn board_after(updates: Seq<Update>, distances: Seq<u32>) -> Seq<DepartureView>
    decreases updates.len(),
{
    if updates.len() == 0 {
        Seq::empty()
    } else {
        staying(
            with_departures(board_after(updates.drop_last(), distances), updates.last().0),
            nearest_after(updates, distances),
            updates.last().1,
        )
    }
}

/// Whether the departure at the place `k` is the first one of its line from a
/// stop to which no other stop of that line is nearer.
pub open spec fn is_nearest(
    ds: Seq<DepartureView>,
    distances: Seq<u32>,
    line: Seq<char>,
    k: int,
) -> bool {
    let distance = |i: int| distances[ds[i].local_stop_idx as int];
    &&& 0 <= k < ds.len()
    &&& ds[k].line == line
    &&& forall|j: int|
        0 <= j < ds.len() && (#[trigger] ds[j]).line == line ==> distance(k) <= distance(j) && (j
            < k ==> distance(k) < distance(j))
}

/// The nearest stop of a line is that of the first departure of the line from a
/// stop to which no other one is nearer; a line without departures has none.
pub proof fn nearest_is_first_least(
    ds: Seq<DepartureView>,
    distances: Seq<u32>,
    line: Seq<char>,
)
    ensures
        match nearest_of(with_lines(Seq::empty(), ds, distances), line) {
            Some(n) => exists|k: int| #[trigger]
                is_nearest(ds, distances, line, k) && n == (
                    ds[k].local_stop_idx,
                    distances[ds[k].local_stop_idx as int],
                ),
            None => forall|j: int| 0 <= j < ds.len() ==> (#[trigger] ds[j]).line != line,
        },
    decreases ds.len(),
{
    if ds.len() > 0 {
        let front = ds.drop_last();
        let d = ds.last();
        let last = ds.len() - 1;
        let before = with_lines(Seq::empty(), front, distances);
        nearest_is_first_least(front, distances, line);
        nearest_stop_is_kept(
            before,
            d.line,
            d.local_stop_idx,
            distances[d.local_stop_idx as int],
            line,
        );
        assert forall|j: int| 0 <= j < last implies #[trigger] ds[j] == front[j] by {}
        match nearest_of(before, line) {
            Some(n) => {
                let k = choose|k: int| #[trigger]
                    is_nearest(front, distances, line, k) && n == (
                        front[k].local_stop_idx,
                        distances[front[k].local_stop_idx as int],
                    );
                if d.line == line && distances[d.local_stop_idx as int] < n.1 {
                    assert(is_nearest(ds, distances, line, last));
                } else {
                    assert(is_nearest(ds, distances, line, k));
                }
            },
            None => {
                if d.line == line {
                    assert(is_nearest(ds, distances, line, last));
                }
            },
        }
    }
}

proof fn lines_add_up(
    near: Nearest,
    a: Seq<DepartureView>,
    b: Seq<DepartureView>,
    distances: Seq<u32>,
)
    ensures
        with_lines(with_lines(near, a, distances), b, distances) == with_lines(
            near,
            a + b,
            distances,
        ),
    decreases b.len(),
{
    if b.len() == 0 {
        assert(a + b =~= a);
    } else {
        lines_add_up(near, a, b.drop_last(), distances);
        assert((a + b).drop_last() =~= a + b.drop_last());
    }
}

proof fn nearest_adds_up(updates: Seq<Update>, distances: Seq<u32>)
    ensures
        nearest_after(updates, distances) == with_lines(
            Seq::empty(),
            all_received(updates),
            distances,
        ),
    decreases updates.len(),
{
    if updates.len() > 0 {
        nearest_adds_up(updates.drop_last(), distances);
        lines_add_up(
            Seq::empty(),
            all_received(updates.drop_last()),
            updates.last().0,
            distances,
        );
    }
}

proof fn departures_are_drawn(s: Seq<DepartureView>, ds: Seq<DepartureView>)
    requires
        listed(s),
    ensures
        forall|x: DepartureView| #[trigger]
            with_departures(s, ds).contains(x) ==> s.contains(x) || ds.contains(x),
    decreases ds.len(),
{
    if ds.len() > 0 {
        let front = ds.drop_last();
        departures_are_drawn(s, front);
        lists_stay_in_order(s, front);
        list_stays_in_order(with_departures(s, front), ds.last());
        assert forall|x: DepartureView| #[trigger]
            with_departures(s, ds).contains(x) implies s.contains(x) || ds.contains(x) by {
            if x == ds.last() {
                assert(ds[ds.len() - 1] == x);
            } else if front.contains(x) {
                let i = choose|i: int| 0 <= i < front.len() && front[i] == x;
                assert(ds[i] == x);
            }
        }
    }
}

proof fn board_is_received(updates: Seq<Update>, distances: Seq<u32>)
    ensures
        listed(board_after(updates, distances)),
        forall|i: int|
            0 <= i < board_after(updates, distances).len() ==> all_received(updates).contains(
                #[trigger] board_after(updates, distances)[i],
            ),
    decreases updates.len(),
{
    if updates.len() > 0 {
        let before = board_after(updates.drop_last(), distances);
        let known = all_received(updates.drop_last());
        let new = updates.last().0;
        let near = nearest_after(updates, distances);
        let now = updates.last().1;
        let all = with_departures(before, new);
        let r = board_after(updates, distances);
        board_is_received(updates.drop_last(), distances);
        lists_stay_in_order(before, new);
        departures_are_drawn(before, new);
        staying_are_due(all, near, now);
        assert forall|i: int| 0 <= i < r.len() implies all_received(updates).contains(
            #[trigger] r[i],
        ) by {
            assert(all.contains(staying(all, near, now)[i]));
            if before.contains(r[i]) {
                let j = choose|j: int| 0 <= j < before.len() && before[j] == r[i];
                assert(known.contains(before[j]));
                let m = choose|m: int| 0 <= m < known.len() && known[m] == r[i];
                assert((known + new)[m] == r[i]);
            } else {
                let m = choose|m: int| 0 <= m < new.len() && new[m] == r[i];
                assert((known + new)[known.len() + m] == r[i]);
            }
        }
    }
}

/// However often the board was updated, each departure on it was received, has
/// not left yet, and is from the nearest of all stops at which its line was ever
/// seen: of equally near ones the one that was received first.
pub proof fn board_shows_nearest_stops(updates: Seq<Update>, distances: Seq<u32>, i: int)
    requires
        0 <= i < board_after(updates, distances).len(),
    ensures
        all_received(updates).contains(board_after(updates, distances)[i]),
        earlier(updates.last().1, board_after(updates, distances)[i].time_real),
        exists|k: int| #[trigger]
            is_nearest(
                all_received(updates),
                distances,
                board_after(updates, distances)[i].line,
                k,
            ) && board_after(updates, distances)[i].local_stop_idx == all_received(
                updates,
            )[k].local_stop_idx,
{
    let r = board_after(updates, distances);
    let ds = all_received(updates);
    let near = nearest_after(updates, distances);
    let before = board_after(updates.drop_last(), distances);
    let all = with_departures(before, updates.last().0);
    board_is_received(updates, distances);
    board_is_received(updates.drop_last(), distances);
    lists_stay_in_order(before, updates.last().0);
    staying_are_due(all, near, updates.last().1);
    assert(stays(staying(all, near, updates.last().1)[i], near, updates.last().1));
    nearest_adds_up(updates, distances);
    nearest_is_first_least(ds, distances, r[i].line);
    assert(ds.contains(r[i]));
    let j = choose|j: int| 0 <= j < ds.len() && ds[j] == r[i];
    assert(ds[j].line == r[i].line);
    assert(nearest_of(near, r[i].line) is Some);
}

/// However often the board was updated, a departure of the last update is on it
/// if it is not over, no later one of the update takes its place, and its stop is
/// the nearest one at which its line was ever seen. So is one that was on it
/// before, if none of the update takes its place.
pub proof fn board_misses_no_departure(
    updates: Seq<Update>,
    distances: Seq<u32>,
    d: DepartureView,
    k: int,
)
    requires
        updates.len() > 0,
        earlier(updates.last().1, d.time_real),
        is_nearest(all_received(updates), distances, d.line, k),
        d.local_stop_idx == all_received(updates)[k].local_stop_idx,
        ({
            let new = updates.last().0;
            ||| exists|i: int|
                0 <= i < new.len() && #[trigger] new[i] == d && forall|j: int|
                    i < j < new.len() ==> !one_place(d, new[j])
            ||| board_after(updates.drop_last(), distances).contains(d) && forall|j: int|
                0 <= j < new.len() ==> !one_place(d, new[j])
        }),
    ensures
        board_after(updates, distances).contains(d),
{
    let ds = all_received(updates);
    let near = nearest_after(updates, distances);
    let before = board_after(updates.drop_last(), distances);
    let new = updates.last().0;
    let all = with_departures(before, new);
    board_is_received(updates.drop_last(), distances);
    last_departures_are_listed(before, new);
    if !(before.contains(d) && forall|j: int| 0 <= j < new.len() ==> !one_place(d, new[j])) {
        let i = choose|i: int|
            0 <= i < new.len() && #[trigger] new[i] == d && forall|j: int|
                i < j < new.len() ==> !one_place(d, new[j]);
        assert(all.contains(new[i]));
    }
    assert(all.contains(d));
    nearest_adds_up(updates, distances);
    nearest_is_first_least(ds, distances, d.line);
    assert(ds[k].line == d.line);
    let n = nearest_of(near, d.line)->0;
    let m = choose|m: int| #[trigger]
        is_nearest(ds, distances, d.line, m) && n == (
            ds[m].local_stop_idx,
            distances[ds[m].local_stop_idx as int],
        );
    assert(ds[m].line == d.line);
    assert(m == k);
    due_departures_stay(all, near, updates.last().1);
}

/// All departures are shown, each as often as it is there and with the distance
/// of its stop; those with one real time and one distance in the order in which
/// they are listed.
pub proof fn departures_are_all_shown(
    ds: Seq<DepartureView>,
    distances: Seq<u32>,
    time: Instant,
    distance: u32,
)
    ensures
        by_time(ds, distances).to_multiset() == Seq::new(
            ds.len(),
            |i: int| (distances[ds[i].local_stop_idx as int], ds[i]),
        ).to_multiset(),
        by_time(ds, distances).filter(
            |d: (u32, DepartureView)| d.1.time_real == time && d.0 == distance,
        ) == Seq::new(ds.len(), |i: int| (distances[ds[i].local_stop_idx as int], ds[i])).filter(
            |d: (u32, DepartureView)| d.1.time_real == time && d.0 == distance,
        ),
{
    let all = with_distances(ds, distances);
    assert(all =~= Seq::new(ds.len(), |i: int| (distances[ds[i].local_stop_idx as int], ds[i])));
    sorted_same_values::<(u32, Departure), ByTime>(all);
    sorted_keeps_equals::<(u32, Departure), ByTime>(
        all,
        |d: (u32, DepartureView)| d.1.time_real == time && d.0 == distance,
    );
}

/// In each direction all departures are shown that go there, in their order, and
/// no others.
pub proof fn departures_are_shown_in_their_direction(
    ds: Seq<(u32, DepartureView)>,
    into_city: bool,
)
    ensures
        picked(
            ds,
            direction_shown(ds, into_city),
            |d: (u32, DepartureView)| d.1.into_city <==> into_city,
            |d: (u32, DepartureView)| departure_shown(d.1),
        ),
{
    let keep = |d: (u32, DepartureView)| d.1.into_city <==> into_city;
    let f = |d: (u32, DepartureView)| departure_shown(d.1);
    assert((|d: (u32, DepartureView)| d.1.into_city == into_city) =~= keep);
    filter_picks(ds, keep, f);
}

/// A departure is shown with its line, its destination and its scheduled time. Of
/// a delay, and of the time until it leaves since the start of 1970, whole minutes
/// are shown.
pub proof fn departures_are_shown_by_the_minute(d: DepartureView)
    requires
        d.valid(),
        0 <= d.time_real.secs < 60 * 0x8000_0000,
        d.local_stop_idx < 0x8000_0000,
        -60 * 0x8000_0000 < d.time_real.secs - d.time_sched.at.secs < 60 * 0x7fff_ffff,
    ensures
        departure_shown(d).time == clock_text(d.time_sched),
        departure_shown(d).line == d.line,
        departure_shown(d).final_stop == d.line_destination,
        departure_shown(d).local_stop_idx == d.local_stop_idx,
        60 * departure_shown(d).deadline <= d.time_real.secs < 60 * departure_shown(d).deadline
            + 60,
        ({
            let late = (d.time_real.secs * 1_000_000_000 + d.time_real.nanos) - (
            d.time_sched.at.secs * 1_000_000_000 + d.time_sched.at.nanos);
            let delay = departure_shown(d).delay * 60_000_000_000;
            if late >= 0 {
                delay <= late < delay + 60_000_000_000
            } else {
                delay - 60_000_000_000 < late <= delay
            }
        }),
{
    let late = nanos_since(d.time_real, d.time_sched.at);
    let secs = toward_zero(late, 1_000_000_000);
    let minutes = toward_zero(secs, 60);
    crate::clock::rounding_cuts_off(late, 1_000_000_000);
    crate::clock::rounding_cuts_off(secs, 60);
    crate::clock::rounding_cuts_off(d.time_real.secs as int, 60);
    crate::numbers::small_numbers_stay(minutes);
    crate::numbers::small_numbers_stay(toward_zero(d.time_real.secs as int, 60));
    crate::numbers::small_numbers_stay(d.local_stop_idx as int);
}

/// Departures are shown in the order of their real times, and those with one real
/// time in the order of their distance.
pub proof fn departures_are_in_order(ds: Seq<DepartureView>, distances: Seq<u32>, i: int, j: int)
    requires
        0 <= i < j < ds.len(),
    ensures
        by_time(ds, distances).len() == ds.len(),
        !earlier(by_time(ds, distances)[j].1.time_real, by_time(ds, distances)[i].1.time_real),
        by_time(ds, distances)[i].1.time_real == by_time(ds, distances)[j].1.time_real ==> by_time(
            ds,
            distances,
        )[i].0 <= by_time(ds, distances)[j].0,
{
    let all = with_distances(ds, distances);
    sorted_len::<(u32, Departure), ByTime>(all);
    sorted_in_order::<(u32, Departure), ByTime>(all);
    let r = by_time(ds, distances);
    assert(!ByTime::before(r[j], r[i]));
}

/// Every departure is shown in exactly one direction.
pub proof fn directions_share_departures(ds: Seq<(u32, DepartureView)>)
    ensures
        direction_shown(ds, true).len() + direction_shown(ds, false).len() == ds.len(),
    decreases ds.len(),
{
    reveal(Seq::filter);
    if ds.len() > 0 {
        directions_share_departures(ds.drop_last());
    }
}

// ---------------------------------------------------------------------------
// Asking for departures
// ---------------------------------------------------------------------------

/// The address of the timetable service.
pub fn schedule_url() -> (r: &'static str)
    ensures
        r@ == "https://mobile.defas-fgi.de/beg/json/XML_DM_REQUEST"@,
{
    "https://mobile.defas-fgi.de/beg/json/XML_DM_REQUEST"
}

/// What the timetable service is asked for a stop.
pub open spec fn schedule_query(stop: Seq<char>) -> Seq<(Seq<char>, Seq<char>)> {
    seq![
        ("outputFormat"@, "JSON"@),
        ("language"@, "de"@),
        ("stateless"@, "1"@),
        ("type_dm"@, "stop"@),
        ("mode"@, "direct"@),
        ("useRealtime"@, "1"@),
        ("ptOptionActive"@, "1"@),
        ("mergeDep"@, "1"@),
        ("deleteAssignedStops_dm"@, "1"@),
        ("limit"@, "60"@),
        ("name_dm"@, stop),
    ]
}

/// The timetable service is asked for one stop, and in the same way for every
/// one: for up to sixty departures directly from it, with their real times.
pub proof fn every_stop_is_asked_for(stop: Seq<char>, other: Seq<char>)
    ensures
        schedule_query(stop).contains(("name_dm"@, stop)),
        schedule_query(stop).contains(("type_dm"@, "stop"@)),
        schedule_query(stop).contains(("mode"@, "direct"@)),
        schedule_query(stop).contains(("useRealtime"@, "1"@)),
        schedule_query(stop).contains(("limit"@, "60"@)),
        schedule_query(stop).contains(("outputFormat"@, "JSON"@)),
        schedule_query(stop).contains(("language"@, "de"@)),
        schedule_query(stop).contains(("stateless"@, "1"@)),
        schedule_query(stop).contains(("ptOptionActive"@, "1"@)),
        schedule_query(stop).contains(("mergeDep"@, "1"@)),
        schedule_query(stop).contains(("deleteAssignedStops_dm"@, "1"@)),
        schedule_query(stop).len() == 11,
        schedule_query(stop).drop_last() == schedule_query(other).drop_last(),
{
    let q = schedule_query(stop);
    assert(q[0] == ("outputFormat"@, "JSON"@) && q[1] == ("language"@, "de"@) && q[2] == (
        "stateless"@,
        "1"@,
    ) && q[3] == ("type_dm"@, "stop"@) && q[4] == ("mode"@, "direct"@));
    assert(q[5] == ("useRealtime"@, "1"@) && q[6] == ("ptOptionActive"@, "1"@) && q[7] == (
        "mergeDep"@,
        "1"@,
    ) && q[8] == ("deleteAssignedStops_dm"@, "1"@) && q[9] == ("limit"@, "60"@));
    assert(q[10] == ("name_dm"@, stop));
    assert(q.drop_last() =~= schedule_query(other).drop_last());
}

/// Asks the timetable service for the departures from a stop.
pub fn query_for(stop: &str) -> (r: Vec<(String, String)>)
    ensures
        r.deep_view() == schedule_query(stop@),
{
    let mut r: Vec<(String, String)> = lists::empty();
    lists::put(&mut r, text::pair("outputFormat", "JSON"));
    lists::put(&mut r, text::pair("language", "de"));
    lists::put(&mut r, text::pair("stateless", "1"));
    lists::put(&mut r, text::pair("type_dm", "stop"));
    lists::put(&mut r, text::pair("mode", "direct"));
    lists::put(&mut r, text::pair("useRealtime", "1"));
    lists::put(&mut r, text::pair("ptOptionActive", "1"));
    lists::put(&mut r, text::pair("mergeDep", "1"));
    lists::put(&mut r, text::pair("deleteAssignedStops_dm", "1"));
    lists::put(&mut r, text::pair("limit", "60"));
    lists::put(&mut r, text::pair("name_dm", stop));
    assert(r.deep_view() =~= schedule_query(stop@));
    r
}

} // verus!
