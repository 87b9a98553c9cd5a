//! Points in time, the wall clock, and how both are written.

use chrono::{NaiveDateTime, NaiveTime, TimeZone};
use vstd::prelude::*;
use crate::date::{valid_ymd, Date, MAX_DAY, MIN_DAY};
use crate::text::two_digits;

verus! {

/// The first second of the first day of the calendar.
pub const MIN_SECS: i64 = -8334601228800;

/// The last second of the last day of the calendar.
pub const MAX_SECS: i64 = 8210266876799;

/// Whether a second, counted from the start of January 1, 1970, lies on a day
/// of the calendar.
pub open spec fn in_span(secs: int) -> bool {
    MIN_SECS <= secs <= MAX_SECS
}

/// Whether a count of nanoseconds can go with a second: up to one second, and
/// up to two in the last second of a minute, which may be followed by a leap
/// second.
pub open spec fn nanos_fit(secs: int, nanos: int) -> bool {
    nanos < 1_000_000_000 || (nanos < 2_000_000_000 && secs % 60 == 59)
}

/// `x / d`, rounded toward zero.
pub open spec fn toward_zero(x: int, d: int) -> int {
    if x >= 0 {
        x / d
    } else {
        -((-x) / d)
    }
}

fn div_toward_zero(x: i128, d: i128) -> (r: i128)
    requires
        d > 0,
        -0x4000_0000_0000_0000_0000_0000_0000_0000 < x < 0x4000_0000_0000_0000_0000_0000_0000_0000,
    ensures
        r == toward_zero(x as int, d as int),
        x >= 0 ==> 0 <= r <= x,
        x < 0 ==> x <= r <= 0,
{
    if x >= 0 {
        let q: u128 = (x as u128) / (d as u128);
        assert(q <= x) by (nonlinear_arith)
            requires
                q == x as int / d as int,
                d > 0,
                x >= 0,
        ;
        q as i128
    } else {
        let y: u128 = (-x) as u128;
        let q: u128 = y / (d as u128);
        assert(q <= y) by (nonlinear_arith)
            requires
                q == y as int / d as int,
                d > 0,
        ;
        -(q as i128)
    }
}

// ---------------------------------------------------------------------------
// Points in time
// ---------------------------------------------------------------------------

/// A point in time: seconds since the start of January 1, 1970, UTC, and
/// nanoseconds.
#[derive(Clone, Copy, Debug, PartialEq, Eq, Structural)]
pub struct Instant {
    pub secs: i64,
    pub nanos: u32,
}

impl DeepView for Instant {
    type V = Instant;

    open spec fn deep_view(&self) -> Instant {
        *self
    }
}

/// Whether `a` is earlier than `b`.
pub open spec fn earlier(a: Instant, b: Instant) -> bool {
    a.secs < b.secs || (a.secs == b.secs && a.nanos < b.nanos)
}

/// Whether a point in time lies on the calendar and outside of leap seconds.
pub open spec fn ordinary(a: Instant) -> bool {
    in_span(a.secs as int) && a.nanos < 1_000_000_000
}

/// The nanoseconds from `b` to `a`.
pub open spec fn nanos_since(a: Instant, b: Instant) -> int {
    (a.secs - b.secs) * 1_000_000_000 + (a.nanos - b.nanos)
}

/// A length of time that is not negative.
#[derive(Clone, Copy, Debug, PartialEq, Eq, Structural)]
pub struct Wait {
    pub secs: u64,
    pub nanos: u32,
}

impl Wait {
    /// A number of whole seconds.
    pub open spec fn spec_secs(secs: u64) -> Wait {
        Wait { secs, nanos: 0 }
    }

    /// A number of whole seconds.
    pub fn seconds(secs: u64) -> (r: Wait)
        ensures
            r == Wait::spec_secs(secs),
    {
        Wait { secs, nanos: 0 }
    }
}

/// The time from `b` to `a`, where `a` is not the earlier one.
pub open spec fn wait_until(a: Instant, b: Instant) -> Option<Wait> {
    if earlier(a, b) {
        None
    } else {
        Some(
            Wait {
                secs: (nanos_since(a, b) / 1_000_000_000) as u64,
                nanos: (nanos_since(a, b) % 1_000_000_000) as u32,
            },
        )
    }
}

impl Instant {
    /// Whether `self` is earlier than `other`.
    pub fn is_earlier(self, other: Instant) -> (r: bool)
        ensures
            r == earlier(self, other),
    {
        self.secs < other.secs || (self.secs == other.secs && self.nanos < other.nanos)
    }

    /// Whether the nanoseconds can go with the second.
    pub fn fits(self) -> (r: bool)
        requires
            in_span(self.secs as int),
        ensures
            r == nanos_fit(self.secs as int, self.nanos as int),
    {
        let shifted: u64 = (self.secs - MIN_SECS) as u64;
        self.nanos < 1_000_000_000 || (self.nanos < 2_000_000_000 && shifted % 60 == 59)
    }

    /// The point in time that is `minutes` later, where it lies on the calendar.
    pub fn plus_minutes(self, minutes: i64) -> (r: Option<Instant>)
        requires
            ordinary(self),
        ensures
            r is Some <==> in_span(self.secs + 60 * minutes),
            r matches Some(t) ==> t.secs == self.secs + 60 * minutes && t.nanos == self.nanos,
    {
        let secs: i128 = self.secs as i128 + 60 * (minutes as i128);
        if MIN_SECS as i128 <= secs && secs <= MAX_SECS as i128 {
            Some(Instant { secs: secs as i64, nanos: self.nanos })
        } else {
            None
        }
    }

    /// The nanoseconds from `other` to `self`.
    fn nanos_from(self, other: Instant) -> (r: i128)
        requires
            ordinary(self),
            ordinary(other),
        ensures
            r == nanos_since(self, other),
            -0x4000_0000_0000_0000_0000_0000 < r < 0x4000_0000_0000_0000_0000_0000,
    {
        (self.secs as i128 - other.secs as i128) * 1_000_000_000 + (self.nanos as i128
            - other.nanos as i128)
    }

    /// The time from `now` to `self`, where `self` is not over.
    pub fn until(self, now: Instant) -> (r: Option<Wait>)
        requires
            ordinary(self),
            ordinary(now),
        ensures
            r == wait_until(self, now),
    {
        if self.is_earlier(now) {
            return None;
        }
        let n: u128 = self.nanos_from(now) as u128;
        Some(Wait { secs: (n / 1_000_000_000) as u64, nanos: (n % 1_000_000_000) as u32 })
    }

    /// The milliseconds from `now` to `self`, rounded toward zero.
    pub fn millis_from(self, now: Instant) -> (r: i64)
        requires
            ordinary(self),
            ordinary(now),
        ensures
            r == toward_zero(nanos_since(self, now), 1_000_000),
    {
        proof {
            let x = nanos_since(self, now);
            assert(-17_000_000_000_000_000_000_000 < x < 17_000_000_000_000_000_000_000);
        }
        div_toward_zero(self.nanos_from(now), 1_000_000) as i64
    }

    /// The seconds from `other` to `self`, rounded toward zero.
    pub fn secs_from(self, other: Instant) -> (r: i64)
        requires
            ordinary(self),
            ordinary(other),
        ensures
            r == toward_zero(nanos_since(self, other), 1_000_000_000),
            -17_000_000_000_000 < r < 17_000_000_000_000,
    {
        proof {
            let x = nanos_since(self, other);
            assert(-17_000_000_000_000_000_000_000 < x < 17_000_000_000_000_000_000_000);
        }
        div_toward_zero(self.nanos_from(other), 1_000_000_000) as i64
    }

    /// The whole minutes from `other` to `self`, rounded toward zero.
    pub fn minutes_from(self, other: Instant) -> (r: i64)
        requires
            ordinary(self),
            ordinary(other),
        ensures
            r == toward_zero(toward_zero(nanos_since(self, other), 1_000_000_000), 60),
    {
        div_toward_zero(self.secs_from(other) as i128, 60) as i64
    }
}

/// Of two points in time exactly one of three holds: the first is earlier,
/// the second is, or they are the same.
pub proof fn instants_compare(a: Instant, b: Instant)
    ensures
        earlier(a, b) || earlier(b, a) || a == b,
        !(earlier(a, b) && earlier(b, a)),
        !earlier(a, a),
{
}

/// A point in time is earlier than another if nanoseconds pass from it to the
/// other one.
pub proof fn time_passes(a: Instant, b: Instant)
    requires
        a.nanos < 1_000_000_000,
        b.nanos < 1_000_000_000,
    ensures
        earlier(a, b) <==> a.secs * 1_000_000_000 + a.nanos < b.secs * 1_000_000_000 + b.nanos,
        earlier(a, b) <==> nanos_since(b, a) > 0,
        nanos_since(b, a) == (b.secs * 1_000_000_000 + b.nanos) - (a.secs * 1_000_000_000
            + a.nanos),
{
}

/// Rounding toward zero cuts off less than a whole part, and never changes the
/// sign.
pub proof fn rounding_cuts_off(x: int, d: int)
    requires
        d > 0,
    ensures
        x >= 0 ==> 0 <= toward_zero(x, d) && d * toward_zero(x, d) <= x < d * toward_zero(x, d)
            + d,
        x <= 0 ==> toward_zero(x, d) <= 0 && d * toward_zero(x, d) - d < x <= d * toward_zero(
            x,
            d,
        ),
{
    if x >= 0 {
        assert(0 <= x / d && d * (x / d) <= x < d * (x / d) + d) by (nonlinear_arith)
            requires
                x >= 0,
                d > 0,
        ;
    }
    if x <= 0 {
        let y = -x;
        assert(0 <= y / d && d * (y / d) <= y < d * (y / d) + d) by (nonlinear_arith)
            requires
                y >= 0,
                d > 0,
        ;
        assert(d * (-(y / d)) == -(d * (y / d))) by (nonlinear_arith);
        if x == 0 {
            assert(y / d == 0 && x / d == 0);
        }
    }
}

/// What `wait_until` gives, added to the time it was asked for, is the time
/// waited for.
pub proof fn wait_ends_on_time(a: Instant, b: Instant)
    requires
        ordinary(a),
        ordinary(b),
        !earlier(a, b),
    ensures
        wait_until(a, b) matches Some(w) && w.nanos < 1_000_000_000 && b.secs * 1_000_000_000
            + b.nanos + w.secs * 1_000_000_000 + w.nanos == a.secs * 1_000_000_000 + a.nanos,
{
}

// ---------------------------------------------------------------------------
// The wall clock
// ---------------------------------------------------------------------------

/// What a calendar and a wall clock show: seconds since the start of January
/// 1, 1970, as if every day had 86400 of them, and nanoseconds.
#[derive(Clone, Copy, Debug, PartialEq, Eq, Structural)]
pub struct WallTime {
    pub secs: i64,
    pub nanos: u32,
}

/// A point in time, and by how many seconds the wall clock is ahead of UTC then.
#[derive(Clone, Copy, Debug, PartialEq, Eq, Structural)]
pub struct DateTime {
    pub at: Instant,
    pub offset: i32,
}

impl DeepView for DateTime {
    type V = DateTime;

    open spec fn deep_view(&self) -> DateTime {
        *self
    }
}

impl WallTime {
    /// Whether the wall clock can show this.
    pub open spec fn valid(self) -> bool {
        in_span(self.secs as int) && nanos_fit(self.secs as int, self.nanos as int)
    }
}

/// Midnight at the start of a day.
pub open spec fn midnight_of(date: Date) -> WallTime {
    WallTime { secs: (date.days * 86400) as i64, nanos: 0 }
}

/// A second of a day.
pub open spec fn time_on(date: Date, second: u32) -> WallTime {
    WallTime { secs: (date.days * 86400 + second) as i64, nanos: 0 }
}

/// A second of a day stands that many seconds behind its midnight, and every day has
/// 86400 of them.
pub proof fn seconds_follow_midnight(date: Date, second: u32)
    requires
        date.valid(),
        second < 86400,
    ensures
        midnight_of(date).secs == 86400 * date.days,
        midnight_of(date).nanos == 0,
        time_on(date, second).secs == midnight_of(date).secs + second,
        time_on(date, second).nanos == 0,
{
}

impl Date {
    /// Midnight at the start of the day.
    pub fn midnight(self) -> (r: WallTime)
        requires
            self.valid(),
        ensures
            r == midnight_of(self),
            r.valid(),
    {
        WallTime { secs: self.days as i64 * 86400, nanos: 0 }
    }

    /// A second of the day.
    pub fn at_second(self, second: u32) -> (r: WallTime)
        requires
            self.valid(),
            second < 86400,
        ensures
            r == time_on(self, second),
            r.valid(),
    {
        WallTime { secs: self.days as i64 * 86400 + second as i64, nanos: 0 }
    }
}

impl DateTime {
    /// The second that the wall clock shows.
    pub open spec fn wall(self) -> int {
        self.at.secs + self.offset
    }

    /// Whether the point in time is on the calendar, and the wall clock less
    /// than a day away from it.
    pub open spec fn near_calendar(self) -> bool {
        &&& in_span(self.at.secs as int)
        &&& self.at.nanos < 2_000_000_000
        &&& -86400 < self.offset < 86400
    }

    /// Whether both the point in time and the wall clock are on the calendar.
    pub open spec fn valid(self) -> bool {
        self.near_calendar() && in_span(self.wall())
    }

    /// The day on the wall calendar.
    pub open spec fn spec_date(self) -> Date {
        Date { days: (self.wall() / 86400) as i32 }
    }

    /// The second of the day on the wall clock.
    pub open spec fn spec_second_of_day(self) -> int {
        self.wall() % 86400
    }

    /// The hour on the wall clock.
    pub open spec fn spec_hour(self) -> int {
        self.spec_second_of_day() / 3600
    }

    /// The minute on the wall clock.
    pub open spec fn spec_minute(self) -> int {
        self.spec_second_of_day() / 60 % 60
    }

    /// The day on the wall calendar.
    pub fn date(self) -> (r: Date)
        requires
            self.valid(),
        ensures
            r == self.spec_date(),
            r.valid(),
            r.days == self.wall() / 86400,
    {
        let shifted: u64 = (self.at.secs + self.offset as i64 - MIN_SECS) as u64;
        let days: i64 = (shifted / 86400) as i64 + MIN_DAY as i64;
        assert(MIN_SECS == MIN_DAY * 86400);
        assert(MAX_SECS == MAX_DAY * 86400 + 86399);
        Date { days: days as i32 }
    }

    /// The second of the day on the wall clock.
    pub fn second_of_day(self) -> (r: u32)
        requires
            self.near_calendar(),
        ensures
            r == self.spec_second_of_day(),
            r < 86400,
    {
        let shifted: u64 = (self.at.secs + self.offset as i64 - MIN_SECS + 86400) as u64;
        assert(MIN_SECS == MIN_DAY * 86400);
        (shifted % 86400) as u32
    }

    /// The hour on the wall clock.
    pub fn hour(self) -> (r: u32)
        requires
            self.near_calendar(),
        ensures
            r == self.spec_hour(),
            r < 24,
    {
        self.second_of_day() / 3600
    }

    /// The minute on the wall clock.
    pub fn minute(self) -> (r: u32)
        requires
            self.near_calendar(),
        ensures
            r == self.spec_minute(),
            r < 60,
    {
        self.second_of_day() / 60 % 60
    }

    /// The second on the wall clock.
    pub fn second(self) -> (r: u32)
        requires
            self.near_calendar(),
        ensures
            r == self.spec_second_of_day() % 60,
            r < 60,
    {
        self.second_of_day() % 60
    }

    /// Whether the wall clock shows midnight.
    pub fn is_midnight(self) -> (r: bool)
        requires
            self.near_calendar(),
        ensures
            r == (self.spec_second_of_day() == 0),
    {
        self.second_of_day() == 0
    }

    /// The wall clock as hours and minutes, two digits each.
    pub fn clock(self) -> (r: String)
        requires
            self.near_calendar(),
        ensures
            r@ == clock_text(self),
    {
        chrono_clock(self.second_of_day())
    }

    /// The wall calendar as day and month, two digits each.
    pub fn day_month(self) -> (r: String)
        requires
            self.near_calendar(),
        ensures
            r@ == wall_day_month(self),
    {
        let wall: i64 = self.at.secs + self.offset as i64;
        if wall < MIN_SECS {
            return chrono_day_month(1970, 12, 31);
        }
        if wall > MAX_SECS {
            return chrono_day_month(1970, 1, 1);
        }
        let (y, m, d): (i32, u32, u32) = self.date().ymd();
        chrono_day_month(y, m, d)
    }
}

/// The wall clock shows the time of the point in time, ahead by the offset: a
/// day of 86400 seconds, and on it hours, minutes and seconds.
pub proof fn wall_clock_adds_up(t: DateTime)
    requires
        t.valid(),
    ensures
        t.spec_date().days * 86400 + t.spec_hour() * 3600 + t.spec_minute() * 60
            + t.spec_second_of_day() % 60 == t.at.secs + t.offset,
        0 <= t.spec_hour() < 24,
        0 <= t.spec_minute() < 60,
{
    assert(MIN_SECS == MIN_DAY * 86400);
    assert(MAX_SECS == MAX_DAY * 86400 + 86399);
    let s = t.spec_second_of_day();
    assert(s / 3600 == s / 60 / 60);
}

/// Hours and minutes as a clock shows them.
pub open spec fn hour_minute_text(second: int) -> Seq<char> {
    two_digits(second / 3600) + seq![':'] + two_digits(second / 60 % 60)
}

/// The wall clock as hours and minutes.
pub open spec fn clock_text(t: DateTime) -> Seq<char> {
    hour_minute_text(t.spec_second_of_day())
}

/// Day and month as a date is written in short.
pub open spec fn day_month_text(m: int, d: int) -> Seq<char> {
    two_digits(d) + seq!['.'] + two_digits(m)
}

/// `chrono::NaiveTime::format` with `%H:%M` writes hour and minute with two
/// digits each and a colon between them.
#[verifier::external_body]
fn chrono_clock(second: u32) -> (r: String)
    requires
        second < 86400,
    ensures
        r@ == hour_minute_text(second as int),
{
    NaiveTime::from_num_seconds_from_midnight_opt(second, 0).unwrap().format("%H:%M").to_string()
}

/// The day and the month of a date.
pub open spec fn day_month_of(date: Date) -> Seq<char> {
    day_month_text(date.spec_ymd().1, date.spec_ymd().2)
}

/// The wall calendar as day and month. The wall clock can be a day ahead of the
/// end of the calendar, or a day behind its start.
pub open spec fn wall_day_month(t: DateTime) -> Seq<char> {
    if t.wall() < MIN_SECS {
        day_month_text(12, 31)
    } else if t.wall() > MAX_SECS {
        day_month_text(1, 1)
    } else {
        day_month_of(t.spec_date())
    }
}

/// `chrono::NaiveDate::format` with `%d.%m` writes the day of the month and
/// the month with two digits each and a full stop between them.
#[verifier::external_body]
fn chrono_day_month(year: i32, month: u32, day: u32) -> (r: String)
    requires
        valid_ymd(year as int, month as int, day as int),
    ensures
        r@ == day_month_text(month as int, day as int),
{
    chrono::NaiveDate::from_ymd_opt(year, month, day).unwrap().format("%d.%m").to_string()
}

/// The clock is written with its hour and its minute, and a date on the calendar with
/// its day and its month, two digits each.
pub proof fn clocks_and_dates_are_written(t: DateTime, y: int, m: int, d: int)
    requires
        t.valid(),
        t.spec_date().is_ymd(y, m, d),
    ensures
        clock_text(t) == two_digits(t.spec_hour()) + seq![':'] + two_digits(t.spec_minute()),
        wall_day_month(t) == two_digits(d) + seq!['.'] + two_digits(m),
{
    t.spec_date().ymd_is_unique(y, m, d);
}

// ---------------------------------------------------------------------------
// The time zone of the machine
// ---------------------------------------------------------------------------

/// Whether `t` is a point in time at which the wall clock shows `wall`.
pub open spec fn shows(t: DateTime, wall: WallTime) -> bool {
    t.valid() && t.wall() == wall.secs && t.at.nanos == wall.nanos
}

/// `chrono::Local.from_local_datetime(..).latest()` gives a point in time at
/// which a clock in the machine's time zone shows `wall`, of two the one that
/// `chrono` lists last. Which one that is, and whether there is one, is the
/// time zone's; of every outcome it holds that the clock then shows `wall`.
#[verifier::external_body]
pub(crate) fn local_latest(wall: WallTime) -> (r: Option<DateTime>)
    requires
        wall.valid(),
    ensures
        r matches Some(t) ==> shows(t, wall),
{
    let naive = chrono::DateTime::from_timestamp(wall.secs, wall.nanos)?.naive_utc();
    chrono::Local.from_local_datetime(&naive).latest().map(
        |t|
            DateTime {
                at: Instant { secs: t.timestamp(), nanos: t.timestamp_subsec_nanos() },
                offset: t.offset().local_minus_utc(),
            },
    )
}

/// `chrono::Local.from_local_datetime(..).single()` gives the point in time at
/// which a clock in the machine's time zone shows `wall`, if there is exactly
/// one. Which one that is, and whether there is one, is the time zone's; of
/// every outcome it holds that the clock then shows `wall`.
#[verifier::external_body]
pub(crate) fn local_single(wall: WallTime) -> (r: Option<DateTime>)
    requires
        wall.valid(),
    ensures
        r matches Some(t) ==> shows(t, wall),
{
    let naive = chrono::DateTime::from_timestamp(wall.secs, wall.nanos)?.naive_utc();
    chrono::Local.from_local_datetime(&naive).single().map(
        |t|
            DateTime {
                at: Instant { secs: t.timestamp(), nanos: t.timestamp_subsec_nanos() },
                offset: t.offset().local_minus_utc(),
            },
    )
}

/// `chrono::DateTime::with_timezone(&Local)` keeps the point in time and adds
/// the offset that the machine's time zone has then, which is less than a day.
#[verifier::external_body]
pub(crate) fn local_at(at: Instant) -> (r: DateTime)
    requires
        in_span(at.secs as int),
        nanos_fit(at.secs as int, at.nanos as int),
    ensures
        r.at == at,
        -86400 < r.offset < 86400,
{
    let utc = chrono::DateTime::from_timestamp(at.secs, at.nanos).unwrap();
    DateTime { at, offset: utc.with_timezone(&chrono::Local).offset().local_minus_utc() }
}

/// Whether `r` is an answer of the machine's time zone to the question for the
/// only point in time at which its clock shows `wall`.
pub closed spec fn gives_single(wall: WallTime, r: Option<DateTime>) -> bool {
    call_ensures(local_single, (wall,), r)
}

/// Whether `r` is an answer of the machine's time zone to the question for the
/// last of the points in time at which its clock shows `wall`.
pub closed spec fn gives_latest(wall: WallTime, r: Option<DateTime>) -> bool {
    call_ensures(local_latest, (wall,), r)
}

/// Whether `r` is an answer of the machine's time zone to the question what its
/// clock shows at a point in time.
pub closed spec fn gives_local(at: Instant, r: DateTime) -> bool {
    call_ensures(local_at, (at,), r)
}

/// An answer of the machine's time zone is one that `chrono` gave, and none that was
/// changed, or left out, on the way.
pub(crate) proof fn answers_are_the_time_zones(
    wall: WallTime,
    at: Instant,
    r: Option<DateTime>,
    t: DateTime,
)
    ensures
        gives_single(wall, r) ==> call_ensures(local_single, (wall,), r),
        gives_latest(wall, r) ==> call_ensures(local_latest, (wall,), r),
        gives_local(at, t) ==> call_ensures(local_at, (at,), t),
{
}

fn ask<A, B, F: Fn(A) -> B>(zone: F, question: A) -> (r: B)
    requires
        call_requires(zone, (question,)),
    ensures
        call_ensures(zone, (question,), r),
{
    zone(question)
}

/// The only point in time at which a clock in the machine's time zone shows
/// `wall`, as the time zone gives it.
pub fn single_at(wall: WallTime) -> (r: Option<DateTime>)
    requires
        wall.valid(),
    ensures
        gives_single(wall, r),
        r matches Some(t) ==> shows(t, wall),
{
    ask(local_single, wall)
}

/// The last of the points in time at which a clock in the machine's time zone
/// shows `wall`, as the time zone gives it.
pub fn latest_at(wall: WallTime) -> (r: Option<DateTime>)
    requires
        wall.valid(),
    ensures
        gives_latest(wall, r),
        r matches Some(t) ==> shows(t, wall),
{
    ask(local_latest, wall)
}

/// What a clock in the machine's time zone shows at a point in time, as the time
/// zone gives it.
pub fn shown_at(at: Instant) -> (r: DateTime)
    requires
        in_span(at.secs as int),
        nanos_fit(at.secs as int, at.nanos as int),
    ensures
        gives_local(at, r),
        r.at == at,
        -86400 < r.offset < 86400,
{
    ask(local_at, at)
}

/// The point in time `sec` seconds after the start of January 1, 1970, UTC, on
/// the wall clock.
pub fn sec_to_dt(sec: i32) -> (r: DateTime)
    ensures
        r.valid(),
        r.at == (Instant { secs: sec as i64, nanos: 0 }),
        gives_local(Instant { secs: sec as i64, nanos: 0 }, r),
{
    shown_at(Instant { secs: sec as i64, nanos: 0 })
}

// ---------------------------------------------------------------------------
// Reading and writing dates
// ---------------------------------------------------------------------------

/// What `chrono::NaiveDateTime::parse_from_str` reads from a text by a format:
/// the seconds and the nanoseconds that a wall clock shows.
pub uninterp spec fn parsed_wall(text: Seq<char>, format: Seq<char>) -> Option<(int, int)>;

/// `chrono::NaiveDateTime::parse_from_str` reads a date and a time by a
/// format, or fails. What it reads stands on the calendar, and holds whole
/// seconds where the format has hours and minutes only.
#[verifier::external_body]
pub(crate) fn parse_wall(text: &str, format: &str) -> (r: Option<WallTime>)
    ensures
        match r {
            Some(w) => parsed_wall(text@, format@) == Some((w.secs as int, w.nanos as int))
                && w.valid(),
            None => parsed_wall(text@, format@) is None,
        },
        r matches Some(w) ==> format@ == "%d.%m., %H:%M %Y"@ ==> w.nanos == 0,
{
    let naive = NaiveDateTime::parse_from_str(text, format).ok()?.and_utc();
    Some(WallTime { secs: naive.timestamp(), nanos: naive.timestamp_subsec_nanos() })
}

} // verus!
