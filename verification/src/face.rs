//! The clock face, and times as the screens ask for them.

use vstd::arithmetic::div_mod::lemma_mod_multiples_vanish;
use vstd::prelude::*;
use crate::clock::{clock_text, day_month_of, gives_local, gives_single, nanos_since, ordinary, sec_to_dt, shown_at, single_at, time_on, toward_zero, DateTime, Instant, MAX_SECS, MIN_SECS};
use crate::date::{day_number, Date};
use crate::locale::{clock_date, Locale};
use crate::numbers::{wrap_i32, wrapped};

verus! {

// ---------------------------------------------------------------------------
// The clock face
// ---------------------------------------------------------------------------

/// What the clock face shows: a date, and a time that it knows the minute of.
#[derive(Clone, Copy, Debug, PartialEq, Eq, Structural)]
pub struct Face {
    pub date: Date,
    pub minute: u32,
}

/// What changes on the clock face.
#[derive(Debug)]
pub struct Tick {
    pub secs: i32,
    pub time: Option<String>,
    pub date: Option<String>,
}

/// What a `Tick` holds.
#[verifier::ext_equal]
pub struct TickView {
    pub secs: i32,
    pub time: Option<Seq<char>>,
    pub date: Option<Seq<char>>,
}

impl DeepView for Tick {
    type V = TickView;

    open spec fn deep_view(&self) -> TickView {
        TickView {
            secs: self.secs,
            time: self.time.deep_view(),
            date: self.date.deep_view(),
        }
    }
}

impl Face {
    /// The face that shows a time.
    pub open spec fn showing(t: DateTime) -> Face {
        Face { date: t.spec_date(), minute: t.spec_minute() as u32 }
    }

    /// What changes when the face goes on to a time: the time where the minute
    /// is another one, and the date where the day is.
    pub open spec fn change(self, now: DateTime, locale: Seq<char>) -> TickView {
        TickView {
            secs: (now.spec_second_of_day() % 60) as i32,
            time: if self.minute == now.spec_minute() {
                None
            } else {
                Some(clock_text(now))
            },
            date: if self.date == now.spec_date() {
                None
            } else {
                Some(clock_date(now.spec_date(), locale))
            },
        }
    }

    /// The face that shows a time.
    pub fn at(t: DateTime) -> (r: Face)
        requires
            t.valid(),
        ensures
            r == Face::showing(t),
    {
        Face { date: t.date(), minute: t.minute() }
    }

    /// The face with which the clock starts: it shows the time a day and a
    /// minute ago, so that everything on it changes.
    pub fn start(now: Instant) -> (r: Face)
        requires
            MIN_SECS + 172860 <= now.secs <= MAX_SECS,
            now.nanos < 1_000_000_000,
        ensures
            exists|t: DateTime| #[trigger]
                t.valid() && t.at.secs == now.secs - 86460 && r == Face::showing(t) && gives_local(
                    Instant { secs: (now.secs - 86460) as i64, nanos: now.nanos },
                    t,
                ),
    {
        let t: DateTime = shown_at(Instant { secs: now.secs - 86460, nanos: now.nanos });
        assert(t.valid());
        Face::at(t)
    }

    /// Goes on to a time, and gives what changes.
    pub fn tick(&mut self, now: DateTime, locale: &Locale) -> (r: Tick)
        requires
            now.valid(),
        ensures
            *final(self) == Face::showing(now),
            r.deep_view() == old(self).change(now, locale.spec_name()),
    {
        let minute: u32 = now.minute();
        let time: Option<String> = if minute != self.minute {
            self.minute = minute;
            Some(now.clock())
        } else {
            None
        };
        let day: Date = now.date();
        let date: Option<String> = if day != self.date {
            self.date = day;
            Some(locale.clock_date_text(day))
        } else {
            None
        };
        Tick { secs: now.second() as i32, time, date }
    }
}

/// A face that shows a time has nothing to change at that time.
pub proof fn shown_face_stays(t: DateTime, locale: Seq<char>)
    requires
        t.valid(),
    ensures
        Face::showing(t).change(t, locale).time is None,
        Face::showing(t).change(t, locale).date is None,
{
}

/// A face that goes on within 59 minutes keeps showing the right time: where it
/// does not change, the clock shows what it did.
pub proof fn face_is_current(t: DateTime, now: DateTime, locale: Seq<char>)
    requires
        t.valid(),
        now.valid(),
        t.wall() <= now.wall() < t.wall() + 3540,
        Face::showing(t).change(now, locale).time is None,
    ensures
        clock_text(now) == clock_text(t),
{
    minute_parts(t.wall());
    minute_parts(now.wall());
    same_minute(t.wall() / 60, now.wall() / 60);
}

proof fn minute_parts(a: int)
    ensures
        a % 86400 / 60 == a / 60 % 1440,
        a % 86400 / 3600 == a / 60 % 1440 / 60,
{
    let s = a % 86400;
    assert(a / 60 == 1440 * (a / 86400) + s / 60);
    assert(0 <= s / 60 < 1440);
    assert(s / 3600 == s / 60 / 60);
}

proof fn same_minute(m: int, n: int)
    requires
        m <= n < m + 60,
        m % 1440 % 60 == n % 1440 % 60,
    ensures
        m == n,
{
    minute_of_hour(m);
    minute_of_hour(n);
    assert(n - m == 60 * (n / 60 - m / 60));
}

proof fn minute_of_hour(m: int)
    ensures
        m % 1440 % 60 == m % 60,
{
    lemma_mod_multiples_vanish(24 * (m / 1440), m % 1440, 60);
    assert(m == 60 * (24 * (m / 1440)) + m % 1440);
}

/// The time changes on a face exactly where the minute is another one than that
/// of the time it shows, and the date exactly where the day is.
pub proof fn face_changes_with_minute(t: DateTime, now: DateTime, locale: Seq<char>)
    requires
        t.valid(),
        now.valid(),
    ensures
        Face::showing(t).change(now, locale).time is Some <==> t.spec_minute()
            != now.spec_minute(),
        Face::showing(t).change(now, locale).date is Some <==> t.spec_date() != now.spec_date(),
{
}

proof fn minutes_between(a: int, b: int, minutes: int, late: int)
    requires
        b - a == 60 * minutes + late,
        0 <= late <= 780,
    ensures
        minutes <= b / 60 - a / 60 <= minutes + 13,
{
    assert(a == 60 * (a / 60) + a % 60);
    assert(b == 60 * (b / 60) + b % 60);
}

proof fn minutes_differ(m: int, n: int, q: int)
    requires
        15 * q + 1 <= n - m <= 15 * q + 14,
    ensures
        m % 60 != n % 60,
{
    let a = m / 60;
    let b = n / 60;
    assert(m == 60 * a + m % 60);
    assert(n == 60 * b + n % 60);
    if m % 60 == n % 60 {
        quarters_differ(60 * (b - a) - 15 * q, 4 * (b - a) - q);
    }
}

proof fn quarters_differ(minutes: int, quarters: int)
    requires
        minutes == 15 * quarters,
    ensures
        !(1 <= minutes <= 14),
{
    if quarters <= 0 {
        assert(minutes <= 0);
    } else {
        assert(minutes >= 15);
    }
}

proof fn days_differ(a: int, b: int)
    requires
        b - a >= 86400,
    ensures
        a / 86400 < b / 86400,
{
}

/// On its first tick a clock that starts changes the time, on whichever day it
/// runs: up to 13 minutes after it was started, and even if the wall clock was
/// set by some quarters of an hour. It changes the date too, where the wall
/// clock is at least a day away from that of the face.
pub proof fn first_tick_changes_time(
    t: DateTime,
    now: DateTime,
    days: int,
    late: int,
    quarters: int,
    locale: Seq<char>,
)
    requires
        t.valid(),
        now.valid(),
        now.at.secs == t.at.secs + 86460 + 86400 * days + late,
        0 <= late <= 780,
        now.offset == t.offset + 900 * quarters,
    ensures
        Face::showing(t).change(now, locale).time is Some,
        now.wall() - t.wall() >= 86400 || t.wall() - now.wall() >= 86400 ==> Face::showing(
            t,
        ).change(now, locale).date is Some,
{
    let a = t.wall();
    let b = now.wall();
    let q = 96 + 96 * days + quarters;
    minute_parts(a);
    minute_parts(b);
    minute_of_hour(a / 60);
    minute_of_hour(b / 60);
    minutes_between(a, b, 15 * q + 1, late);
    minutes_differ(a / 60, b / 60, q);
    if b - a >= 86400 {
        days_differ(a, b);
    }
    if a - b >= 86400 {
        days_differ(b, a);
    }
    assert(t.spec_date().days == a / 86400);
    assert(now.spec_date().days == b / 86400);
}

impl Tick {
    /// The time of day as a number, where the time changes.
    pub fn day_time(&self, now: DateTime) -> (r: Option<u32>)
        requires
            now.valid(),
        ensures
            r == (if self.time is Some {
                Some(day_time_of(now) as u32)
            } else {
                None
            }),
    {
        match &self.time {
            Some(_) => Some(day_time(now)),
            None => None,
        }
    }
}

/// The point in time that is some days later, on the wall clock.
pub fn days_later(now: Instant, days: i16) -> (r: DateTime)
    requires
        MIN_SECS + 86400 <= now.secs + 86400 * days <= MAX_SECS - 86400,
        now.nanos < 1_000_000_000,
    ensures
        r.valid(),
        r.at == (Instant { secs: (now.secs + 86400 * days) as i64, nanos: now.nanos }),
        gives_local(Instant { secs: (now.secs + 86400 * days) as i64, nanos: now.nanos }, r),
{
    shown_at(
        Instant {
            secs: (now.secs as i128 + 86400 * (days as i128)) as i64,
            nanos: now.nanos,
        },
    )
}

/// The time of day as a number: hours and minutes, one after the other.
pub open spec fn day_time_of(t: DateTime) -> int {
    t.spec_hour() * 100 + t.spec_minute()
}

/// The time of day as a number.
pub fn day_time(t: DateTime) -> (r: u32)
    requires
        t.valid(),
    ensures
        r == day_time_of(t),
{
    t.hour() * 100 + t.minute()
}

/// From which to which time of day the screen is off, over midnight.
#[derive(Clone, Copy, Debug, PartialEq, Eq, Structural)]
pub struct TimeRange {
    pub start: u32,
    pub end: u32,
}

impl TimeRange {
    /// Whether the screen is off at a time of day.
    pub fn is_off(self, day_time: u32) -> (r: bool)
        ensures
            r == (self.start <= day_time || day_time < self.end),
            !r <==> self.end <= day_time < self.start,
    {
        day_time >= self.start || day_time < self.end
    }
}

/// The milliseconds until `end`, where it is not over.
pub fn exam_time_left(end: Instant, now: Instant) -> (r: Option<i64>)
    requires
        ordinary(end),
        ordinary(now),
    ensures
        r == (if toward_zero(nanos_since(end, now), 1_000_000) >= 0 {
            Some(toward_zero(nanos_since(end, now), 1_000_000) as i64)
        } else {
            None
        }),
        r is None <==> nanos_since(end, now) <= -1_000_000,
        r matches Some(left) ==> 0 <= left && (nanos_since(end, now) >= 0 ==> left * 1_000_000
            <= nanos_since(end, now) < left * 1_000_000 + 1_000_000),
{
    proof {
        crate::clock::rounding_cuts_off(nanos_since(end, now), 1_000_000);
    }
    let left: i64 = end.millis_from(now);
    if left >= 0 {
        Some(left)
    } else {
        None
    }
}

/// The point in time, in the machine's time zone, that the countdown runs to:
/// noon on July 28, 2023.
pub fn countdown_end() -> (r: Option<DateTime>)
    ensures
        r matches Some(t) ==> {
            &&& t.valid()
            &&& t.spec_date().is_ymd(2023, 7, 28)
            &&& t.spec_second_of_day() == 43200
            &&& t.at.nanos == 0
        },
        gives_single(time_on(Date { days: day_number(2023, 7, 28) as i32 }, 43200), r),
{
    match Date::from_ymd(2023, 7, 28) {
        Some(date) => single_at(date.at_second(43200)),
        None => None,
    }
}

/// The milliseconds until the countdown ends, where there are any left.
pub fn countdown_left(end: Instant, now: Instant) -> (r: Option<i64>)
    requires
        ordinary(end),
        ordinary(now),
    ensures
        r == (if toward_zero(nanos_since(end, now), 1_000_000) > 0 {
            Some(toward_zero(nanos_since(end, now), 1_000_000) as i64)
        } else {
            None
        }),
        r is None <==> nanos_since(end, now) < 1_000_000,
        r matches Some(left) ==> left * 1_000_000 <= nanos_since(end, now) < left * 1_000_000
            + 1_000_000,
{
    proof {
        crate::clock::rounding_cuts_off(nanos_since(end, now), 1_000_000);
    }
    let left: i64 = end.millis_from(now);
    if left > 0 {
        Some(left)
    } else {
        None
    }
}

// ---------------------------------------------------------------------------
// Times by their seconds
// ---------------------------------------------------------------------------

/// Whether `t` is a time on the wall clock for a number of seconds since the
/// start of January 1, 1970, UTC.
pub open spec fn is_second(t: DateTime, sec: i32) -> bool {
    t.valid() && t.at == (Instant { secs: sec as i64, nanos: 0 }) && gives_local(t.at, t)
}

/// The wall clock at a second, as hours and minutes.
pub fn fmt_time(sec: i32) -> (r: String)
    ensures
        exists|t: DateTime| #[trigger] is_second(t, sec) && r@ == clock_text(t),
{
    let t: DateTime = sec_to_dt(sec);
    assert(is_second(t, sec));
    t.clock()
}

/// The date at a second, in words.
pub fn fmt_date(sec: i32, locale: &Locale) -> (r: String)
    ensures
        exists|t: DateTime| #[trigger]
            is_second(t, sec) && r@ == clock_date(t.spec_date(), locale.spec_name()),
{
    let t: DateTime = sec_to_dt(sec);
    assert(is_second(t, sec));
    locale.clock_date_text(t.date())
}

/// The date at a second, as day and month.
pub fn fmt_date_event(sec: i32) -> (r: String)
    ensures
        exists|t: DateTime| #[trigger]
            is_second(t, sec) && r@ == day_month_of(t.spec_date()),
{
    let t: DateTime = sec_to_dt(sec);
    assert(is_second(t, sec));
    t.day_month()
}

/// Whether the wall clock shows midnight at a second.
pub fn is_midnight(sec: i32) -> (r: bool)
    ensures
        exists|t: DateTime| #[trigger]
            is_second(t, sec) && r == (t.spec_second_of_day() == 0),
{
    let t: DateTime = sec_to_dt(sec);
    assert(is_second(t, sec));
    t.is_midnight()
}

/// The whole days between two seconds.
pub fn time_in_days(start: i32, end: i32) -> (r: i32)
    ensures
        r == toward_zero(end - start, 86400),
        start <= end ==> 86400 * r <= end - start < 86400 * r + 86400,
        end <= start ==> 86400 * r - 86400 < end - start <= 86400 * r,
{
    let diff: i64 = end as i64 - start as i64;
    if diff >= 0 {
        (diff as u64 / 86400) as i32
    } else {
        -(((-diff) as u64 / 86400) as i32)
    }
}

/// The minutes since the start of January 1, 1970, UTC, as far as they fit in
/// 32 bits.
pub fn unix_minute(t: Instant) -> (r: i32)
    requires
        i64::MIN < t.secs,
    ensures
        r == wrapped(toward_zero(t.secs as int, 60)),
        0 <= t.secs < 60 * 0x8000_0000 ==> 60 * r <= t.secs < 60 * r + 60,
{
    let minute: i64 = if t.secs >= 0 {
        (t.secs as u64 / 60) as i64
    } else {
        -(((-t.secs) as u64 / 60) as i64)
    };
    wrap_i32(minute)
}

/// The seconds since the start of January 1, 1970, UTC, as far as they fit in 32
/// bits.
pub fn unix_second(t: Instant) -> (r: i32)
    ensures
        r == wrapped(t.secs as int),
        i32::MIN <= t.secs <= i32::MAX ==> r == t.secs,
        (t.secs - r) % 0x1_0000_0000 == 0,
{
    wrap_i32(t.secs)
}

// ---------------------------------------------------------------------------
// Laws of the face
// ---------------------------------------------------------------------------

/// On a tick the seconds are those of the wall clock. The time is written anew if and
/// only if the minute is another one than that on the face, and the date if and only
/// if the day is.
pub proof fn ticks_write_what_differs(face: Face, now: DateTime, locale: Seq<char>)
    requires
        now.valid(),
    ensures
        face.change(now, locale).secs == now.wall() % 60,
        face.minute == now.spec_minute() ==> face.change(now, locale).time is None,
        face.minute != now.spec_minute() ==> face.change(now, locale).time == Some(clock_text(now)),
        face.date == now.spec_date() ==> face.change(now, locale).date is None,
        face.date != now.spec_date() ==> face.change(now, locale).date == Some(
            clock_date(now.spec_date(), locale),
        ),
{
    seconds_of_days(now.wall());
}

proof fn seconds_of_days(wall: int)
    ensures
        wall % 86400 % 60 == wall % 60,
{
    vstd::arithmetic::div_mod::lemma_mod_mod(wall, 60, 1440);
}

/// The hour and the minute can be read back from the time of day as a number.
pub proof fn times_of_day_read_back(t: DateTime)
    requires
        t.valid(),
    ensures
        day_time_of(t) / 100 == t.spec_hour(),
        day_time_of(t) % 100 == t.spec_minute(),
        0 <= day_time_of(t) < 2400,
{
    crate::clock::wall_clock_adds_up(t);
}

/// A time for a second is that second, in the machine's time zone.
pub proof fn seconds_are_shown_in_the_zone(t: DateTime, sec: i32)
    ensures
        is_second(t, sec) ==> t.at.secs == sec && t.at.nanos == 0 && gives_local(t.at, t),
{
}

} // verus!
