//! Calendar dates.

use chrono::Datelike;
use vstd::prelude::*;

verus! {

/// The first year that has dates.
pub const MIN_YEAR: i32 = -262143;

/// The last year that has dates.
pub const MAX_YEAR: i32 = 262142;

/// The number of the first day, January 1 of the first year.
pub const MIN_DAY: i32 = -96465292;

/// The number of the last day, December 31 of the last year.
pub const MAX_DAY: i32 = 95026236;

/// Whether a year of the Gregorian calendar has a February 29.
pub open spec fn leap(y: int) -> bool {
    y % 4 == 0 && (y % 100 != 0 || y % 400 == 0)
}

/// The number of days of a month.
pub open spec fn month_days(y: int, m: int) -> int {
    if m == 2 {
        if leap(y) {
            29
        } else {
            28
        }
    } else if m == 4 || m == 6 || m == 9 || m == 11 {
        30
    } else {
        31
    }
}

/// The number of days of a year that come before a month.
pub open spec fn days_before_month(y: int, m: int) -> int
    decreases m,
{
    if m <= 1 {
        0
    } else {
        days_before_month(y, m - 1) + month_days(y, m - 1)
    }
}

/// Whether a date stands in the calendar.
pub open spec fn valid_ymd(y: int, m: int, d: int) -> bool {
    &&& MIN_YEAR <= y <= MAX_YEAR
    &&& 1 <= m <= 12
    &&& 1 <= d <= month_days(y, m)
}

/// The number of the first day of a year, counted from January 1, 1970.
pub open spec fn year_start(y: int) -> int {
    365 * (y - 1) + (y - 1) / 4 - (y - 1) / 100 + (y - 1) / 400 - 719162
}

/// The number of a day, counted from January 1, 1970.
pub open spec fn day_number(y: int, m: int, d: int) -> int {
    year_start(y) + days_before_month(y, m) + d - 1
}

/// Whether the first date is the earlier one.
pub open spec fn ymd_before(y: int, m: int, d: int, y2: int, m2: int, d2: int) -> bool {
    y < y2 || (y == y2 && (m < m2 || (m == m2 && d < d2)))
}

proof fn year_starts_step(y: int, y2: int)
    requires
        y <= y2,
    ensures
        year_start(y) <= year_start(y2),
        y < y2 ==> year_start(y) + 365 + (if leap(y) {
            1int
        } else {
            0int
        }) <= year_start(y2),
    decreases y2 - y,
{
    if y < y2 {
        year_starts_step(y + 1, y2);
        assert(year_start(y + 1) == year_start(y) + 365 + (if leap(y) {
            1int
        } else {
            0int
        }));
    }
}

proof fn months_step(y: int, m: int, m2: int)
    requires
        1 <= m <= m2 <= 13,
    ensures
        0 <= days_before_month(y, m) <= days_before_month(y, m2),
        m < m2 ==> days_before_month(y, m) + month_days(y, m) <= days_before_month(y, m2),
        days_before_month(y, 13) == 365 + (if leap(y) {
            1int
        } else {
            0int
        }),
    decreases m2 - m,
{
    reveal_with_fuel(days_before_month, 14);
    if m < m2 {
        months_step(y, m + 1, m2);
    }
}

/// An earlier date has the smaller day number.
pub proof fn days_follow_dates(y: int, m: int, d: int, y2: int, m2: int, d2: int)
    requires
        valid_ymd(y, m, d),
        valid_ymd(y2, m2, d2),
        ymd_before(y, m, d, y2, m2, d2),
    ensures
        day_number(y, m, d) < day_number(y2, m2, d2),
{
    months_step(y, m, 13);
    months_step(y2, 1, m2);
    if y < y2 {
        year_starts_step(y, y2);
    } else if m < m2 {
        months_step(y, m, m2);
    }
}

/// Days follow each other without a gap: within a month, from month to month, and from
/// year to year. A year has 365 days, and 366 where it is a leap year; January 1, 1970,
/// is the first day that is counted.
pub proof fn days_follow_each_other(y: int, m: int, d: int)
    requires
        1 <= m <= 12,
    ensures
        day_number(y, m, d + 1) == day_number(y, m, d) + 1,
        m < 12 ==> day_number(y, m + 1, 1) == day_number(y, m, month_days(y, m)) + 1,
        day_number(y + 1, 1, 1) == day_number(y, 12, 31) + 1,
        day_number(y + 1, 1, 1) - day_number(y, 1, 1) == (if month_days(y, 2) == 29 {
            366int
        } else {
            365int
        }),
        day_number(1970, 1, 1) == 0,
        y % 4 != 0 ==> month_days(y, 2) == 28,
        y % 4 == 0 && y % 100 != 0 ==> month_days(y, 2) == 29,
        y % 400 == 0 ==> month_days(y, 2) == 29,
        y % 100 == 0 && y % 400 != 0 ==> month_days(y, 2) == 28,
{
    months_step(y, 1, 13);
    assert(days_before_month(y, 13) == days_before_month(y, 12) + month_days(y, 12));
    assert(year_start(y + 1) == year_start(y) + 365 + (if leap(y) {
        1int
    } else {
        0int
    }));
}

/// No two dates have the same day number.
pub proof fn day_number_is_injective(y: int, m: int, d: int, y2: int, m2: int, d2: int)
    requires
        valid_ymd(y, m, d),
        valid_ymd(y2, m2, d2),
        day_number(y, m, d) == day_number(y2, m2, d2),
    ensures
        y == y2 && m == m2 && d == d2,
{
    if ymd_before(y, m, d, y2, m2, d2) {
        days_follow_dates(y, m, d, y2, m2, d2);
    }
    if ymd_before(y2, m2, d2, y, m, d) {
        days_follow_dates(y2, m2, d2, y, m, d);
    }
}

/// The day numbers of the calendar's dates lie between its first and last day.
pub proof fn day_number_is_bounded(y: int, m: int, d: int)
    requires
        valid_ymd(y, m, d),
    ensures
        MIN_DAY <= day_number(y, m, d) <= MAX_DAY,
{
    reveal_with_fuel(days_before_month, 14);
    assert(day_number(MIN_YEAR as int, 1, 1) == MIN_DAY);
    assert(day_number(MAX_YEAR as int, 12, 31) == MAX_DAY);
    if ymd_before(MIN_YEAR as int, 1, 1, y, m, d) {
        days_follow_dates(MIN_YEAR as int, 1, 1, y, m, d);
    }
    if ymd_before(y, m, d, MAX_YEAR as int, 12, 31) {
        days_follow_dates(y, m, d, MAX_YEAR as int, 12, 31);
    }
}

/// `chrono::NaiveDate::from_ymd_opt` gives the date where it stands in the
/// proleptic Gregorian calendar and in the years that `NaiveDate` covers;
/// `to_epoch_days` counts its days from January 1, 1970.
#[verifier::external_body]
fn chrono_day(year: i32, month: u32, day: u32) -> (r: Option<i32>)
    ensures
        r == (if valid_ymd(year as int, month as int, day as int) {
            Some(day_number(year as int, month as int, day as int) as i32)
        } else {
            None
        }),
{
    chrono::NaiveDate::from_ymd_opt(year, month, day).map(|d| d.to_epoch_days())
}

/// `chrono::NaiveDate::from_epoch_days` gives the date with a day number, for
/// all day numbers of the years that `NaiveDate` covers.
#[verifier::external_body]
fn chrono_ymd(days: i32) -> (r: Option<(i32, u32, u32)>)
    ensures
        match r {
            Some(t) => valid_ymd(t.0 as int, t.1 as int, t.2 as int) && day_number(
                t.0 as int,
                t.1 as int,
                t.2 as int,
            ) == days,
            None => !(MIN_DAY <= days <= MAX_DAY),
        },
{
    chrono::NaiveDate::from_epoch_days(days).map(|d| (d.year(), d.month(), d.day()))
}

/// A day of the calendar, by its number counted from January 1, 1970.
#[derive(Clone, Copy, Debug, PartialEq, Eq, Structural)]
pub struct Date {
    pub days: i32,
}

impl Date {
    /// Whether the day stands in the calendar.
    pub open spec fn valid(self) -> bool {
        MIN_DAY <= self.days <= MAX_DAY
    }

    /// Whether the day has this year, month and day of the month.
    pub open spec fn is_ymd(self, y: int, m: int, d: int) -> bool {
        valid_ymd(y, m, d) && day_number(y, m, d) == self.days
    }

    /// The year, the month and the day of the month.
    pub open spec fn spec_ymd(self) -> (int, int, int) {
        choose|t: (int, int, int)| #[trigger] self.is_ymd(t.0, t.1, t.2)
    }

    /// A day has one year, one month and one day of the month.
    pub proof fn ymd_is_unique(self, y: int, m: int, d: int)
        requires
            self.is_ymd(y, m, d),
        ensures
            self.spec_ymd() == (y, m, d),
    {
        let t = (y, m, d);
        assert(self.is_ymd(t.0, t.1, t.2));
        let u = self.spec_ymd();
        day_number_is_injective(y, m, d, u.0, u.1, u.2);
    }

    /// The day with this year, month and day of the month.
    pub fn from_ymd(year: i32, month: u32, day: u32) -> (r: Option<Date>)
        ensures
            r is Some <==> valid_ymd(year as int, month as int, day as int),
            r matches Some(date) ==> date.valid() && date.is_ymd(
                year as int,
                month as int,
                day as int,
            ),
    {
        match chrono_day(year, month, day) {
            Some(days) => {
                proof {
                    day_number_is_bounded(year as int, month as int, day as int);
                }
                Some(Date { days })
            },
            None => None,
        }
    }

    /// The year, the month and the day of the month.
    pub fn ymd(self) -> (r: (i32, u32, u32))
        requires
            self.valid(),
        ensures
            self.is_ymd(r.0 as int, r.1 as int, r.2 as int),
            self.spec_ymd() == (r.0 as int, r.1 as int, r.2 as int),
    {
        match chrono_ymd(self.days) {
            Some(t) => {
                proof {
                    self.ymd_is_unique(t.0 as int, t.1 as int, t.2 as int);
                }
                t
            },
            None => (0, 0, 0),
        }
    }

    /// The day that is `n` days later.
    pub fn plus_days(self, n: i32) -> (r: Date)
        requires
            MIN_DAY <= self.days + n <= MAX_DAY,
        ensures
            r.valid(),
            r.days == self.days + n,
    {
        Date { days: self.days + n }
    }
}

} // verus!
