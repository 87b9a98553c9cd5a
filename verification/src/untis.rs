//! The timetable service of the school.

use std::collections::HashMap;
use vstd::prelude::*;
use crate::clock::{gives_latest, latest_at, shows, time_on, toward_zero, DateTime};
use crate::date::{day_number, days_follow_dates, valid_ymd, Date, MAX_DAY, MIN_DAY};
use crate::lists::{self, pick_grows, pick_of_none, picked};
use crate::names::{with_name, with_names, with_names_adds, NameSet};
use crate::numbers::{signed_bits, to_signed};
use crate::text::{self, signed_decimal, without_prefixes};
use crate::timetable::{all_valid, TimeEntry, TimeEntryView};

verus! {

/// What a timetable can be asked for.
#[derive(Clone, Copy, Debug, PartialEq, Eq, Structural)]
pub enum TimetableType {
    Class,
    Teacher,
    Subject,
    Room,
    Student,
}

impl TimetableType {
    /// The number that the service knows the kind of timetable by.
    pub open spec fn spec_code(self) -> u32 {
        match self {
            TimetableType::Class => 1,
            TimetableType::Teacher => 2,
            TimetableType::Subject => 3,
            TimetableType::Room => 4,
            TimetableType::Student => 5,
        }
    }

    /// The number that the service knows the kind of timetable by.
    pub fn code(self) -> (r: u32)
        ensures
            r == self.spec_code(),
    {
        match self {
            TimetableType::Class => 1,
            TimetableType::Teacher => 2,
            TimetableType::Subject => 3,
            TimetableType::Room => 4,
            TimetableType::Student => 5,
        }
    }
}

/// A department of the school.
#[derive(Clone, Debug)]
pub struct Department {
    pub id: u32,
    pub name: String,
}

/// A year of the school, from its first to its last day.
#[derive(Clone, Debug)]
pub struct SchoolYear {
    pub id: u32,
    pub name: String,
    pub start_date: Date,
    pub end_date: Date,
}

/// A subject that is taught.
#[derive(Clone, Debug)]
pub struct Subject {
    pub id: u32,
    pub name: String,
    pub long_name: String,
    pub active: bool,
}

/// A class, and the department it belongs to.
#[derive(Clone, Debug)]
pub struct Class {
    pub id: u32,
    pub name: String,
    pub long_name: String,
    pub active: bool,
    pub did: Option<u32>,
}

/// A room, and the department it belongs to.
#[derive(Clone, Debug)]
pub struct Room {
    pub id: u32,
    pub name: String,
    pub long_name: String,
    pub building: String,
    pub active: bool,
    pub did: Option<u32>,
}

/// A lecture: its day, its first and last second of that day, and what it is about.
#[derive(Debug)]
pub struct Lecture {
    pub id: u32,
    pub date: Date,
    pub start_time: u32,
    pub end_time: u32,
    pub class_ids: Vec<u32>,
    pub lecturer_ids: Vec<u32>,
    pub subject_ids: Vec<u32>,
    pub room_ids: Vec<u32>,
}

impl Lecture {
    /// Whether the day stands in the calendar and the times on the clock.
    pub open spec fn valid(self) -> bool {
        self.date.valid() && self.start_time < 86400 && self.end_time < 86400
    }
}

// ---------------------------------------------------------------------------
// Dates and times as numbers
// ---------------------------------------------------------------------------

/// A date as a number: year, month and day, one after the other.
pub open spec fn date_code(date: Date) -> int {
    let (y, m, d) = date.spec_ymd();
    y * 10000 + m * 100 + d
}

/// The number of a date, from the year 0 on.
pub fn date_number(date: Date) -> (r: u32)
    requires
        date.valid(),
        day_number(0, 1, 1) <= date.days,
    ensures
        r == date_code(date),
{
    let (y, m, d): (i32, u32, u32) = date.ymd();
    proof {
        if y < 0 {
            days_follow_dates(y as int, m as int, d as int, 0, 1, 1);
        }
    }
    y as u32 * 10000 + m * 100 + d
}

/// The year of a date by its number.
pub open spec fn code_year(code: u32) -> int {
    toward_zero(signed_bits(code), 10000)
}

/// The month of a date by its number.
pub open spec fn code_month(code: u32) -> int {
    code as int / 100 % 100
}

/// The day of the month of a date by its number.
pub open spec fn code_day(code: u32) -> int {
    code as int % 100
}

/// Whether a number is that of a date.
pub open spec fn is_date(code: u32) -> bool {
    valid_ymd(code_year(code), code_month(code), code_day(code))
}

/// Whether a number is that of a time: its hour and its minute are such.
pub open spec fn is_time(code: u32) -> bool {
    code / 100 < 24 && code % 100 < 60
}

fn date_of(code: u32) -> (r: Option<Date>)
    ensures
        r is Some <==> is_date(code),
        r matches Some(date) ==> date.valid() && date.is_ymd(
            code_year(code),
            code_month(code),
            code_day(code),
        ),
{
    let signed: i32 = to_signed(code);
    let year: i32 = if signed >= 0 {
        (signed as u32 / 10000) as i32
    } else {
        -(((-(signed as i64)) as u64 / 10000) as i32)
    };
    Date::from_ymd(year, code / 100 % 100, code % 100)
}

/// Tells whether a number is that of a date.
pub fn is_untis_date(code: u32) -> (r: bool)
    ensures
        r == is_date(code),
{
    date_of(code).is_some()
}

/// Tells whether a number is that of a time.
pub fn is_untis_time(code: u32) -> (r: bool)
    ensures
        r == is_time(code),
{
    code / 100 < 24 && code % 100 < 60
}

/// The date of a number.
pub fn parse_untis_date(code: u32) -> (r: Date)
    requires
        is_date(code),
    ensures
        r.valid(),
        r.is_ymd(code_year(code), code_month(code), code_day(code)),
{
    date_of(code).unwrap()
}

/// The number of a date from the year 0 to the year 214748 is read back as that date.
pub proof fn date_code_reads_back(date: Date, y: int, m: int, d: int)
    requires
        date.is_ymd(y, m, d),
        0 <= y <= 214748,
    ensures
        code_year(date_code(date) as u32) == y,
        code_month(date_code(date) as u32) == m,
        code_day(date_code(date) as u32) == d,
{
    date.ymd_is_unique(y, m, d);
    code_holds_parts(y, m, d, date_code(date) as u32);
}

proof fn code_holds_parts(y: int, m: int, d: int, code: u32)
    requires
        0 <= y <= 214748,
        0 <= m <= 12,
        0 <= d <= 31,
        code == y * 10000 + m * 100 + d,
    ensures
        code_year(code) == y,
        code_month(code) == m,
        code_day(code) == d,
{
    assert(code as int % 100 == d);
    assert(code as int / 100 == y * 100 + m);
}

/// The second of the day of a number that holds hours and minutes.
pub fn parse_untis_time(code: u32) -> (r: u32)
    requires
        is_time(code),
    ensures
        r == code / 100 * 3600 + code % 100 * 60,
        r < 86400,
{
    code / 100 * 3600 + code % 100 * 60
}

/// Something that a lecture has, by its number.
#[derive(Clone, Copy, Debug, PartialEq, Eq, Structural)]
pub struct SubId {
    pub id: u32,
}

/// The numbers of a list.
pub open spec fn sub_ids(list: Seq<SubId>) -> Seq<u32> {
    list.map_values(|s: SubId| s.id)
}

/// The numbers of a list.
pub fn parse_subids(list: &Vec<SubId>) -> (r: Vec<u32>)
    ensures
        r@ == sub_ids(list@),
{
    let mut r: Vec<u32> = Vec::new();
    let mut i: usize = 0;
    while i < list.len()
        invariant
            i <= list@.len(),
            r@ == sub_ids(list@.take(i as int)),
        decreases list@.len() - i,
    {
        r.push(list[i].id);
        assert(sub_ids(list@.take(i + 1)) =~= sub_ids(list@.take(i as int)).push(
            list@[i as int].id,
        ));
        i = i + 1;
    }
    assert(list@.take(i as int) =~= list@);
    r
}

/// A lecture as the service sends it.
#[derive(Debug)]
pub struct RawLecture {
    pub id: u32,
    pub date: u32,
    pub start_time: u32,
    pub end_time: u32,
    pub classes: Vec<SubId>,
    pub lecturers: Vec<SubId>,
    pub subjects: Vec<SubId>,
    pub rooms: Vec<SubId>,
}

/// Whether the numbers of a lecture are those of a date and two times.
pub open spec fn readable_lecture(raw: RawLecture) -> bool {
    is_date(raw.date) && is_time(raw.start_time) && is_time(raw.end_time)
}

impl Lecture {
    /// The lecture that the service sent, where its numbers are those of a date
    /// and two times.
    pub fn read(raw: &RawLecture) -> (r: Option<Lecture>)
        ensures
            r is Some <==> readable_lecture(*raw),
            r matches Some(l) ==> {
                &&& l.valid()
                &&& l.id == raw.id
                &&& l.date.is_ymd(code_year(raw.date), code_month(raw.date), code_day(raw.date))
                &&& l.start_time == raw.start_time / 100 * 3600 + raw.start_time % 100 * 60
                &&& l.end_time == raw.end_time / 100 * 3600 + raw.end_time % 100 * 60
                &&& l.class_ids@ == sub_ids(raw.classes@)
                &&& l.lecturer_ids@ == sub_ids(raw.lecturers@)
                &&& l.subject_ids@ == sub_ids(raw.subjects@)
                &&& l.room_ids@ == sub_ids(raw.rooms@)
            },
    {
        if !is_untis_date(raw.date) || !is_untis_time(raw.start_time) || !is_untis_time(
            raw.end_time,
        ) {
            return None;
        }
        Some(
            Lecture {
                id: raw.id,
                date: parse_untis_date(raw.date),
                start_time: parse_untis_time(raw.start_time),
                end_time: parse_untis_time(raw.end_time),
                class_ids: parse_subids(&raw.classes),
                lecturer_ids: parse_subids(&raw.lecturers),
                subject_ids: parse_subids(&raw.subjects),
                room_ids: parse_subids(&raw.rooms),
            },
        )
    }
}

impl SchoolYear {
    /// The school year that the service sent, where its numbers are those of dates.
    pub fn read(id: u32, name: String, start: u32, end: u32) -> (r: Option<SchoolYear>)
        ensures
            r is Some <==> is_date(start) && is_date(end),
            r matches Some(y) ==> {
                &&& y.id == id
                &&& y.name == name
                &&& y.start_date.is_ymd(code_year(start), code_month(start), code_day(start))
                &&& y.end_date.is_ymd(code_year(end), code_month(end), code_day(end))
            },
    {
        if !is_untis_date(start) || !is_untis_date(end) {
            return None;
        }
        Some(
            SchoolYear {
                id,
                name,
                start_date: parse_untis_date(start),
                end_date: parse_untis_date(end),
            },
        )
    }
}

// ---------------------------------------------------------------------------
// Requests
// ---------------------------------------------------------------------------

/// What goes along with a request.
#[derive(Debug)]
pub enum Params {
    Nothing,
    Login { user: String, password: String },
    Timetable { kind: u32, id: u32, start_date: u32, end_date: u32 },
}

/// A call of the service.
#[derive(Debug)]
pub struct Request {
    pub id: u64,
    pub method: String,
    pub params: Params,
}

/// A visit of the service for a school.
#[derive(Debug)]
pub struct Session {
    school: String,
}

fn plain_request(method: &str) -> (r: Request)
    ensures
        r.id == 1,
        r.method@ == method@,
        r.params is Nothing,
{
    Request { id: 1, method: method.to_owned(), params: Params::Nothing }
}

impl Session {
    /// The school that is asked for.
    pub closed spec fn spec_school(self) -> Seq<char> {
        self.school@
    }

    /// The school that is asked for.
    pub fn school(&self) -> (r: &str)
        ensures
            r@ == self.spec_school(),
    {
        self.school.as_str()
    }

    /// The address of the service.
    pub fn url() -> (r: &'static str)
        ensures
            r@ == "https://kephiso.webuntis.com/WebUntis/jsonrpc.do"@,
    {
        "https://kephiso.webuntis.com/WebUntis/jsonrpc.do"
    }

    /// A visit for a school, and the request that opens it.
    pub fn create(school: &str, user: &str, pass: &str) -> (r: (Session, Request))
        ensures
            r.0.spec_school() == school@,
            r.1.id == 1,
            r.1.method@ == "authenticate"@,
            r.1.params matches Params::Login { user: u, password: p } && u@ == user@ && p@ == pass@,
    {
        (
            Session { school: school.to_owned() },
            Request {
                id: 1,
                method: "authenticate".to_owned(),
                params: Params::Login { user: user.to_owned(), password: pass.to_owned() },
            },
        )
    }

    /// Asks for the departments.
    pub fn departments(&self) -> (r: Request)
        ensures
            r.id == 1,
            r.method@ == "getDepartments"@,
            r.params is Nothing,
    {
        plain_request("getDepartments")
    }

    /// Asks for the rooms.
    pub fn rooms(&self) -> (r: Request)
        ensures
            r.id == 1,
            r.method@ == "getRooms"@,
            r.params is Nothing,
    {
        plain_request("getRooms")
    }

    /// Asks for the school years.
    pub fn school_years(&self) -> (r: Request)
        ensures
            r.id == 1,
            r.method@ == "getSchoolyears"@,
            r.params is Nothing,
    {
        plain_request("getSchoolyears")
    }

    /// Asks for the subjects.
    pub fn subjects(&self) -> (r: Request)
        ensures
            r.id == 1,
            r.method@ == "getSubjects"@,
            r.params is Nothing,
    {
        plain_request("getSubjects")
    }

    /// Asks for the classes.
    pub fn classes(&self) -> (r: Request)
        ensures
            r.id == 1,
            r.method@ == "getKlassen"@,
            r.params is Nothing,
    {
        plain_request("getKlassen")
    }

    /// Asks for the timetable of something, from one day to another.
    pub fn timetable(
        &self,
        filter_type: TimetableType,
        filter_id: u32,
        start: Date,
        end: Date,
    ) -> (r: Request)
        requires
            start.valid(),
            end.valid(),
            day_number(0, 1, 1) <= start.days,
            day_number(0, 1, 1) <= end.days,
        ensures
            r.id == 1,
            r.method@ == "getTimetable"@,
            r.params matches Params::Timetable { kind, id, start_date, end_date } && {
                &&& kind == filter_type.spec_code()
                &&& id == filter_id
                &&& start_date == date_code(start)
                &&& end_date == date_code(end)
            },
    {
        Request {
            id: 1,
            method: "getTimetable".to_owned(),
            params: Params::Timetable {
                kind: filter_type.code(),
                id: filter_id,
                start_date: date_number(start),
                end_date: date_number(end),
            },
        }
    }

    /// What is said of a request that the service refused.
    pub fn refusal(code: i64, message: &str) -> (r: String)
        ensures
            r@ == "request failed: "@ + signed_decimal(code as int) + " - "@ + message@,
    {
        let mut r: String = "request failed: ".to_owned();
        let digits: String = text::signed_decimal_text(code);
        r.append(digits.as_str());
        r.append(" - ");
        r.append(message);
        r
    }
}

// ---------------------------------------------------------------------------
// What lectures refer to
// ---------------------------------------------------------------------------

/// The number of the department of a name.
pub open spec fn department_of(departments: Seq<Department>, faculty: Seq<char>) -> Option<u32>
    decreases departments.len(),
{
    if departments.len() == 0 {
        None
    } else if departments[0].name@ == faculty {
        Some(departments[0].id)
    } else {
        department_of(departments.skip(1), faculty)
    }
}

/// Finds the first department of a name.
pub fn find_department(departments: &Vec<Department>, faculty: &str) -> (r: Option<u32>)
    ensures
        r == department_of(departments@, faculty@),
{
    let mut i: usize = 0;
    assert(departments@.skip(0) =~= departments@);
    while i < departments.len()
        invariant
            i <= departments@.len(),
            department_of(departments@, faculty@) == department_of(
                departments@.skip(i as int),
                faculty@,
            ),
        decreases departments@.len() - i,
    {
        assert(departments@.skip(i as int)[0] == departments@[i as int]);
        if text::same_text(departments[i].name.as_str(), faculty) {
            return Some(departments[i].id);
        }
        assert(departments@.skip(i as int).skip(1) =~= departments@.skip(i + 1));
        i = i + 1;
    }
    None
}

/// The items that are kept, by their numbers: where several have the same, the
/// last one.
pub open spec fn by_id<T>(
    items: Seq<T>,
    id: spec_fn(T) -> u32,
    keep: spec_fn(T) -> bool,
) -> Map<u32, T>
    decreases items.len(),
{
    if items.len() == 0 {
        Map::empty()
    } else {
        let m = by_id(items.drop_last(), id, keep);
        if keep(items.last()) {
            m.insert(id(items.last()), items.last())
        } else {
            m
        }
    }
}

/// A number has an item if one that is kept has that number, and it is one of those.
pub proof fn by_id_holds_kept_items<T>(
    items: Seq<T>,
    id: spec_fn(T) -> u32,
    keep: spec_fn(T) -> bool,
    n: u32,
)
    ensures
        by_id(items, id, keep).contains_key(n) <==> exists|i: int|
            0 <= i < items.len() && keep(#[trigger] items[i]) && id(items[i]) == n,
        by_id(items, id, keep).contains_key(n) ==> {
            let t = by_id(items, id, keep)[n];
            items.contains(t) && keep(t) && id(t) == n
        },
    decreases items.len(),
{
    if items.len() > 0 {
        let front = items.drop_last();
        by_id_holds_kept_items(front, id, keep, n);
        let last = items.last();
        assert(items[items.len() - 1] == last);
        if exists|i: int| 0 <= i < front.len() && keep(#[trigger] front[i]) && id(front[i]) == n {
            let i = choose|i: int|
                0 <= i < front.len() && keep(#[trigger] front[i]) && id(front[i]) == n;
            assert(items[i] == front[i]);
        }
        if exists|i: int| 0 <= i < items.len() && keep(#[trigger] items[i]) && id(items[i]) == n {
            let i = choose|i: int|
                0 <= i < items.len() && keep(#[trigger] items[i]) && id(items[i]) == n;
            if i < front.len() {
                assert(front[i] == items[i]);
            }
        }
        if by_id(front, id, keep).contains_key(n) {
            let t = by_id(front, id, keep)[n];
            let j = choose|j: int| 0 <= j < front.len() && front[j] == t;
            assert(items[j] == t);
        }
    }
}

/// Of several items with one number the last one that is kept counts.
pub proof fn last_item_counts<T>(
    items: Seq<T>,
    id: spec_fn(T) -> u32,
    keep: spec_fn(T) -> bool,
    k: int,
)
    requires
        0 <= k < items.len(),
        keep(items[k]),
        forall|j: int| k < j < items.len() && keep(#[trigger] items[j]) ==> id(items[j]) != id(
            items[k],
        ),
    ensures
        by_id(items, id, keep).contains_key(id(items[k])),
        by_id(items, id, keep)[id(items[k])] == items[k],
    decreases items.len(),
{
    let front = items.drop_last();
    if k < front.len() {
        assert(front[k] == items[k]);
        assert forall|j: int| k < j < front.len() && keep(#[trigger] front[j]) implies id(front[j])
            != id(front[k]) by {
            assert(front[j] == items[j]);
        }
        last_item_counts(front, id, keep, k);
        assert(items[items.len() - 1] == items.last());
    }
}

/// The first department of a name counts; without one there is none.
pub proof fn first_department_counts(departments: Seq<Department>, faculty: Seq<char>, k: int)
    requires
        0 <= k <= departments.len(),
        forall|j: int| 0 <= j < k ==> (#[trigger] departments[j]).name@ != faculty,
        k < departments.len() ==> departments[k].name@ == faculty,
    ensures
        department_of(departments, faculty) == (if k < departments.len() {
            Some(departments[k].id)
        } else {
            None
        }),
    decreases departments.len(),
{
    if k > 0 {
        let rest = departments.skip(1);
        assert(departments[0].name@ != faculty);
        assert forall|j: int| 0 <= j < k - 1 implies (#[trigger] rest[j]).name@ != faculty by {
            assert(rest[j] == departments[j + 1]);
        }
        first_department_counts(rest, faculty, k - 1);
    }
}

/// The classes of a department, and all subjects and rooms, by their numbers,
/// as far as they are active.
pub struct UntisData {
    pub classes: HashMap<u32, Class>,
    pub subjects: HashMap<u32, Subject>,
    pub rooms: HashMap<u32, Room>,
}

impl UntisData {
    /// Takes what the service knows, for the classes of one department.
    pub fn collect(
        department: u32,
        classes: Vec<Class>,
        subjects: Vec<Subject>,
        rooms: Vec<Room>,
    ) -> (r: UntisData)
        ensures
            r.classes@ == by_id(
                classes@,
                |c: Class| c.id,
                |c: Class| c.active && c.did == Some(department),
            ),
            r.subjects@ == by_id(subjects@, |s: Subject| s.id, |s: Subject| s.active),
            r.rooms@ == by_id(rooms@, |r: Room| r.id, |r: Room| r.active),
            forall|n: u32| #[trigger]
                r.classes@.contains_key(n) <==> exists|i: int|
                    0 <= i < classes@.len() && (#[trigger] classes@[i]).id == n && classes@[i].active
                        && classes@[i].did == Some(department),
            forall|n: u32| #[trigger]
                r.subjects@.contains_key(n) <==> exists|i: int|
                    0 <= i < subjects@.len() && (#[trigger] subjects@[i]).id == n
                        && subjects@[i].active,
            forall|n: u32| #[trigger]
                r.rooms@.contains_key(n) <==> exists|i: int|
                    0 <= i < rooms@.len() && (#[trigger] rooms@[i]).id == n && rooms@[i].active,
    {
        broadcast use vstd::std_specs::hash::group_hash_axioms;

        let ghost class_id = |c: Class| c.id;
        let ghost class_kept = |c: Class| c.active && c.did == Some(department);
        let ghost subject_id = |s: Subject| s.id;
        let ghost subject_kept = |s: Subject| s.active;
        let ghost room_id = |r: Room| r.id;
        let ghost room_kept = |r: Room| r.active;
        let mut class_map: HashMap<u32, Class> = HashMap::new();
        assert(class_map@ =~= Map::empty());
        for class in it: classes
            invariant
                it.seq() == classes@,
                class_id == (|c: Class| c.id),
                class_kept == (|c: Class| c.active && c.did == Some(department)),
                class_map@ == by_id(classes@.take(it.index()), class_id, class_kept),
        {
            assert(classes@.take(it.index() + 1).drop_last() =~= classes@.take(it.index()));
            let ours: bool = match class.did {
                Some(did) => did == department,
                None => false,
            };
            if class.active && ours {
                class_map.insert(class.id, class);
            }
        }
        assert(classes@.take(classes@.len() as int) =~= classes@);
        let mut subject_map: HashMap<u32, Subject> = HashMap::new();
        assert(subject_map@ =~= Map::empty());
        for subject in it: subjects
            invariant
                it.seq() == subjects@,
                subject_id == (|s: Subject| s.id),
                subject_kept == (|s: Subject| s.active),
                subject_map@ == by_id(subjects@.take(it.index()), subject_id, subject_kept),
        {
            assert(subjects@.take(it.index() + 1).drop_last() =~= subjects@.take(it.index()));
            if subject.active {
                subject_map.insert(subject.id, subject);
            }
        }
        assert(subjects@.take(subjects@.len() as int) =~= subjects@);
        let mut room_map: HashMap<u32, Room> = HashMap::new();
        assert(room_map@ =~= Map::empty());
        for room in it: rooms
            invariant
                it.seq() == rooms@,
                room_id == (|r: Room| r.id),
                room_kept == (|r: Room| r.active),
                room_map@ == by_id(rooms@.take(it.index()), room_id, room_kept),
        {
            assert(rooms@.take(it.index() + 1).drop_last() =~= rooms@.take(it.index()));
            if room.active {
                room_map.insert(room.id, room);
            }
        }
        assert(rooms@.take(rooms@.len() as int) =~= rooms@);
        proof {
            assert forall|n: u32| #[trigger]
                class_map@.contains_key(n) <==> exists|i: int|
                    0 <= i < classes@.len() && (#[trigger] classes@[i]).id == n && classes@[i].active
                        && classes@[i].did == Some(department) by {
                by_id_holds_kept_items(classes@, class_id, class_kept, n);
            }
            assert forall|n: u32| #[trigger]
                subject_map@.contains_key(n) <==> exists|i: int|
                    0 <= i < subjects@.len() && (#[trigger] subjects@[i]).id == n
                        && subjects@[i].active by {
                by_id_holds_kept_items(subjects@, subject_id, subject_kept, n);
            }
            assert forall|n: u32| #[trigger]
                room_map@.contains_key(n) <==> exists|i: int|
                    0 <= i < rooms@.len() && (#[trigger] rooms@[i]).id == n && rooms@[i].active by {
                by_id_holds_kept_items(rooms@, room_id, room_kept, n);
            }
        }
        UntisData { classes: class_map, subjects: subject_map, rooms: room_map }
    }
}

// ---------------------------------------------------------------------------
// Lectures
// ---------------------------------------------------------------------------

/// Why the lectures could not be had.
#[derive(Clone, Copy, Debug, PartialEq, Eq, Structural)]
pub enum LectureError {
    /// A lecture is about a subject that is not known.
    UnknownSubject,
    /// No point in time shows the start of a lecture on the wall clock.
    StartTime,
    /// No point in time shows the end of a lecture on the wall clock.
    EndTime,
}

impl LectureError {
    /// The error in words.
    pub fn message(self) -> (r: String)
        ensures
            r@ == (match self {
                LectureError::UnknownSubject => "unknown subject"@,
                LectureError::StartTime => "failed to convert lecture start time"@,
                LectureError::EndTime => "failed to convert lecture end time"@,
            }),
    {
        match self {
            LectureError::UnknownSubject => "unknown subject".to_owned(),
            LectureError::StartTime => "failed to convert lecture start time".to_owned(),
            LectureError::EndTime => "failed to convert lecture end time".to_owned(),
        }
    }
}

/// The days of the lectures that are fetched: from today, shifted by some days,
/// for some days, where both ends stand in the calendar.
pub fn lecture_days(today: Date, day_offset: i16, day_range: u16) -> (r: Option<(Date, Date)>)
    requires
        today.valid(),
    ensures
        r is Some <==> MIN_DAY <= today.days + day_offset <= MAX_DAY && today.days + day_offset
            + day_range <= MAX_DAY,
        r matches Some((from, to)) ==> from.valid() && to.valid() && from.days == today.days
            + day_offset && to.days == from.days + day_range,
{
    let first: i64 = today.days as i64 + day_offset as i64;
    let last: i64 = first + day_range as i64;
    if (MIN_DAY as i64) <= first && last <= MAX_DAY as i64 {
        Some((Date { days: first as i32 }, Date { days: last as i32 }))
    } else {
        None
    }
}

/// The names of the rooms of some numbers, as far as they are known.
pub open spec fn room_names(rooms: Map<u32, Room>, ids: Seq<u32>) -> Seq<Seq<char>>
    decreases ids.len(),
{
    if ids.len() == 0 {
        Seq::empty()
    } else {
        let names = room_names(rooms, ids.drop_last());
        if rooms.contains_key(ids.last()) {
            names.push(rooms[ids.last()].name@)
        } else {
            names
        }
    }
}

/// The entry of a lecture, before the courses and locations it is seen for.
pub open spec fn bare_entry(
    subject: Subject,
    faculty: Seq<char>,
    start: DateTime,
    end: DateTime,
) -> TimeEntryView {
    TimeEntryView {
        title: subject.long_name@,
        abbr: without_prefixes(subject.name@, faculty + "_"@),
        time_start: start,
        time_end: end.at,
        locations: Seq::empty(),
        courses: Seq::empty(),
        is_exam: false,
    }
}

/// An entry that is seen for a course, in some rooms.
pub open spec fn seen_for(
    e: TimeEntryView,
    course: Seq<char>,
    rooms: Seq<Seq<char>>,
) -> TimeEntryView {
    TimeEntryView {
        courses: with_name(e.courses, course),
        locations: with_names(e.locations, rooms),
        ..e
    }
}

/// Entries by the numbers of their lectures, once the lecture of a number has
/// been seen for a course. A lecture that was not there comes last, as `fresh`.
pub open spec fn with_seen(
    table: Seq<(u32, TimeEntryView)>,
    id: u32,
    fresh: TimeEntryView,
    course: Seq<char>,
    rooms: Seq<Seq<char>>,
) -> Seq<(u32, TimeEntryView)>
    decreases table.len(),
{
    if table.len() == 0 {
        seq![(id, seen_for(fresh, course, rooms))]
    } else if table[0].0 == id {
        seq![(id, seen_for(table[0].1, course, rooms))] + table.skip(1)
    } else {
        seq![table[0]] + with_seen(table.skip(1), id, fresh, course, rooms)
    }
}

/// Entries by the numbers of their lectures, once a lecture has been seen for a
/// course; `start` and `end` are the points in time of its start and end.
pub open spec fn with_lecture(
    table: Seq<(u32, TimeEntryView)>,
    data: UntisData,
    faculty: Seq<char>,
    course: Seq<char>,
    lecture: Lecture,
    start: Option<DateTime>,
    end: Option<DateTime>,
) -> Result<Seq<(u32, TimeEntryView)>, LectureError> {
    let ids = lecture.subject_ids@;
    if ids.len() == 0 {
        Ok(table)
    } else if !data.subjects@.contains_key(ids[0]) {
        Err(LectureError::UnknownSubject)
    } else {
        match (start, end) {
            (None, _) => Err(LectureError::StartTime),
            (_, None) => Err(LectureError::EndTime),
            (Some(s), Some(e)) => Ok(
                with_seen(
                    table,
                    lecture.id,
                    bare_entry(data.subjects@[ids[0]], faculty, s, e),
                    course,
                    room_names(data.rooms@, lecture.room_ids@),
                ),
            ),
        }
    }
}

/// Entries by the numbers of their lectures, once some lectures have been seen
/// for a course; `zones` holds the points in time of their starts and ends.
pub open spec fn with_lectures(
    table: Seq<(u32, TimeEntryView)>,
    data: UntisData,
    faculty: Seq<char>,
    course: Seq<char>,
    lectures: Seq<Lecture>,
    zones: Seq<(Option<DateTime>, Option<DateTime>)>,
) -> Result<Seq<(u32, TimeEntryView)>, LectureError>
    decreases lectures.len(),
{
    if lectures.len() == 0 {
        Ok(table)
    } else {
        match with_lectures(
            table,
            data,
            faculty,
            course,
            lectures.drop_last(),
            zones.drop_last(),
        ) {
            Err(e) => Err(e),
            Ok(t) => with_lecture(
                t,
                data,
                faculty,
                course,
                lectures.last(),
                zones.last().0,
                zones.last().1,
            ),
        }
    }
}

/// Whether `zones` can be the points in time of the starts and ends of lectures.
pub open spec fn zones_fit(
    lectures: Seq<Lecture>,
    zones: Seq<(Option<DateTime>, Option<DateTime>)>,
) -> bool {
    &&& zones.len() == lectures.len()
    &&& forall|i: int| 0 <= i < lectures.len() ==> zone_fits(#[trigger] lectures[i], #[trigger] zones[i])
}

/// Whether two points in time can be those of the start and end of a lecture.
pub open spec fn zone_fits(
    lecture: Lecture,
    zone: (Option<DateTime>, Option<DateTime>),
) -> bool {
    &&& zone.0 matches Some(t) ==> shows(t, time_on(lecture.date, lecture.start_time))
    &&& zone.1 matches Some(t) ==> shows(t, time_on(lecture.date, lecture.end_time))
    &&& gives_latest(time_on(lecture.date, lecture.start_time), zone.0)
    &&& gives_latest(time_on(lecture.date, lecture.end_time), zone.1)
}

/// Whether a result holds the entries, or the error, of `value`.
pub open spec fn comes_to(
    result: Result<Vec<(u32, TimeEntry)>, LectureError>,
    value: Result<Seq<(u32, TimeEntryView)>, LectureError>,
) -> bool {
    match (result, value) {
        (Ok(entries), Ok(views)) => entries.deep_view() == views,
        (Err(e), Err(f)) => e == f,
        _ => false,
    }
}

/// Whether a result is what lectures come to, for some points in time of their
/// starts and ends.
pub open spec fn are_lectures(
    table: Seq<(u32, TimeEntryView)>,
    data: UntisData,
    faculty: Seq<char>,
    course: Seq<char>,
    lectures: Seq<Lecture>,
    result: Result<Vec<(u32, TimeEntry)>, LectureError>,
) -> bool {
    exists|zones: Seq<(Option<DateTime>, Option<DateTime>)>| #[trigger]
        zones_fit(lectures, zones) && comes_to(
            result,
            with_lectures(table, data, faculty, course, lectures, zones),
        )
}

/// Whether the entries of a table are valid.
pub open spec fn table_valid(table: Seq<(u32, TimeEntryView)>) -> bool {
    forall|i: int| 0 <= i < table.len() ==> (#[trigger] table[i]).1.valid()
}

fn name_rooms(rooms: &HashMap<u32, Room>, ids: &Vec<u32>) -> (r: Vec<String>)
    ensures
        r.deep_view() == room_names(rooms@, ids@),
{
    broadcast use vstd::std_specs::hash::group_hash_axioms;

    let mut r: Vec<String> = lists::empty();
    let mut i: usize = 0;
    while i < ids.len()
        invariant
            i <= ids@.len(),
            r.deep_view() == room_names(rooms@, ids@.take(i as int)),
        decreases ids@.len() - i,
    {
        assert(ids@.take(i + 1).drop_last() =~= ids@.take(i as int));
        match rooms.get(&ids[i]) {
            Some(room) => {
                lists::put(&mut r, room.name.clone());
            },
            None => {},
        }
        i = i + 1;
    }
    assert(ids@.take(i as int) =~= ids@);
    r
}

fn see(entry: TimeEntry, course: &str, rooms: Vec<String>) -> (r: TimeEntry)
    ensures
        r.deep_view() == seen_for(entry.deep_view(), course@, rooms.deep_view()),
{
    let mut r: TimeEntry = entry;
    r.courses.insert(course.to_owned());
    r.locations.extend(rooms);
    r
}

fn enter(
    table: Vec<(u32, TimeEntry)>,
    id: u32,
    fresh: TimeEntry,
    course: &str,
    rooms: Vec<String>,
) -> (r: Vec<(u32, TimeEntry)>)
    ensures
        r.deep_view() == with_seen(
            table.deep_view(),
            id,
            fresh.deep_view(),
            course@,
            rooms.deep_view(),
        ),
{
    let ghost all = table.deep_view();
    let ghost f = fresh.deep_view();
    let ghost names = rooms.deep_view();
    let mut r: Vec<(u32, TimeEntry)> = table;
    let mut i: usize = 0;
    assert(all.skip(0) =~= all);
    assert(all.take(0) + with_seen(all, id, f, course@, names) =~= with_seen(
        all,
        id,
        f,
        course@,
        names,
    ));
    while i < r.len()
        invariant
            all == table.deep_view(),
            all == r.deep_view(),
            f == fresh.deep_view(),
            names == rooms.deep_view(),
            i <= r@.len(),
            with_seen(all, id, f, course@, names) == all.take(i as int) + with_seen(
                all.skip(i as int),
                id,
                f,
                course@,
                names,
            ),
        decreases r@.len() - i,
    {
        assert(all[i as int] == r@[i as int].deep_view());
        assert(all.skip(i as int)[0] == all[i as int]);
        assert(all.skip(i as int).skip(1) =~= all.skip(i + 1));
        if r[i].0 == id {
            assert(all[i as int] == (id, r@[i as int].1.deep_view()));
            let e: TimeEntry = see(r[i].1.clone(), course, rooms);
            let ghost seen = e.deep_view();
            assert(seen == seen_for(all[i as int].1, course@, names));
            r.set(i, (id, e));
            assert(r.deep_view() =~= all.take(i as int) + (seq![(id, seen)] + all.skip(i + 1)));
            return r;
        }
        assert(all.take(i + 1) + with_seen(all.skip(i + 1), id, f, course@, names) =~= all.take(
            i as int,
        ) + (seq![all[i as int]] + with_seen(all.skip(i + 1), id, f, course@, names)));
        i = i + 1;
    }
    let e: TimeEntry = see(fresh, course, rooms);
    assert(all.take(i as int) + seq![(id, e.deep_view())] =~= all.push((id, e.deep_view())));
    lists::put(&mut r, (id, e));
    r
}

/// Enters a lecture that is seen for a course into a table; `start` and `end`
/// are the points in time of its start and end.
pub fn enter_lecture(
    table: Vec<(u32, TimeEntry)>,
    data: &UntisData,
    faculty: &str,
    course: &str,
    lecture: &Lecture,
    start: Option<DateTime>,
    end: Option<DateTime>,
) -> (r: Result<Vec<(u32, TimeEntry)>, LectureError>)
    ensures
        comes_to(
            r,
            with_lecture(table.deep_view(), *data, faculty@, course@, *lecture, start, end),
        ),
{
    broadcast use vstd::std_specs::hash::group_hash_axioms;

    if lecture.subject_ids.len() == 0 {
        return Ok(table);
    }
    let subject: &Subject = match data.subjects.get(&lecture.subject_ids[0]) {
        Some(subject) => subject,
        None => {
            return Err(LectureError::UnknownSubject);
        },
    };
    let rooms: Vec<String> = name_rooms(&data.rooms, &lecture.room_ids);
    let time_start: DateTime = match start {
        Some(t) => t,
        None => {
            return Err(LectureError::StartTime);
        },
    };
    let time_end: DateTime = match end {
        Some(t) => t,
        None => {
            return Err(LectureError::EndTime);
        },
    };
    let mut prefix: String = faculty.to_owned();
    prefix.append("_");
    let fresh: TimeEntry = TimeEntry {
        title: subject.long_name.clone(),
        abbr: text::trim_start_matches(subject.name.as_str(), prefix.as_str()),
        time_start,
        time_end: time_end.at,
        locations: NameSet::new(),
        courses: NameSet::new(),
        is_exam: false,
    };
    Ok(enter(table, lecture.id, fresh, course, rooms))
}

proof fn with_seen_is_valid(
    table: Seq<(u32, TimeEntryView)>,
    id: u32,
    fresh: TimeEntryView,
    course: Seq<char>,
    rooms: Seq<Seq<char>>,
)
    requires
        table_valid(table),
        fresh.valid(),
    ensures
        table_valid(with_seen(table, id, fresh, course, rooms)),
    decreases table.len(),
{
    let r = with_seen(table, id, fresh, course, rooms);
    if table.len() > 0 {
        let t = table.skip(1);
        assert forall|i: int| 0 <= i < t.len() implies (#[trigger] t[i]).1.valid() by {
            assert(t[i] == table[i + 1]);
        }
        with_seen_is_valid(t, id, fresh, course, rooms);
        assert(table[0].1.valid());
        assert forall|i: int| 0 <= i < r.len() implies (#[trigger] r[i]).1.valid() by {
            if i > 0 {
                if table[0].0 == id {
                    assert(r[i] == t[i - 1]);
                } else {
                    assert(r[i] == with_seen(t, id, fresh, course, rooms)[i - 1]);
                }
            }
        }
    }
}

proof fn lecture_failure_stays(
    table: Seq<(u32, TimeEntryView)>,
    data: UntisData,
    faculty: Seq<char>,
    course: Seq<char>,
    lectures: Seq<Lecture>,
    zones: Seq<(Option<DateTime>, Option<DateTime>)>,
    n: int,
)
    requires
        0 <= n <= lectures.len(),
        zones.len() == lectures.len(),
        with_lectures(table, data, faculty, course, lectures.take(n), zones.take(n)) is Err,
    ensures
        with_lectures(table, data, faculty, course, lectures, zones) == with_lectures(
            table,
            data,
            faculty,
            course,
            lectures.take(n),
            zones.take(n),
        ),
    decreases lectures.len(),
{
    if n == lectures.len() {
        assert(lectures.take(n) =~= lectures);
        assert(zones.take(n) =~= zones);
    } else {
        assert(lectures.drop_last().take(n) =~= lectures.take(n));
        assert(zones.drop_last().take(n) =~= zones.take(n));
        lecture_failure_stays(
            table,
            data,
            faculty,
            course,
            lectures.drop_last(),
            zones.drop_last(),
            n,
        );
    }
}

/// What the machine's time zone gives for the starts and ends of lectures.
fn ask_zones(lectures: &Vec<Lecture>) -> (r: Vec<(Option<DateTime>, Option<DateTime>)>)
    requires
        forall|i: int| 0 <= i < lectures@.len() ==> (#[trigger] lectures@[i]).valid(),
    ensures
        zones_fit(lectures@, r@),
{
    let mut r: Vec<(Option<DateTime>, Option<DateTime>)> = Vec::new();
    let mut i: usize = 0;
    while i < lectures.len()
        invariant
            i <= lectures@.len(),
            r@.len() == i,
            forall|i: int| 0 <= i < lectures@.len() ==> (#[trigger] lectures@[i]).valid(),
            forall|j: int| 0 <= j < i ==> zone_fits(#[trigger] lectures@[j], #[trigger] r@[j]),
        decreases lectures@.len() - i,
    {
        let l: &Lecture = &lectures[i];
        let start: Option<DateTime> = latest_at(l.date.at_second(l.start_time));
        let end: Option<DateTime> = latest_at(l.date.at_second(l.end_time));
        r.push((start, end));
        i = i + 1;
    }
    r
}

/// Enters the lectures of a course into a table. The points in time of their
/// starts and ends are those that the machine's time zone gives: the ones
/// listed last where there are two.
pub fn enter_lectures(
    table: Vec<(u32, TimeEntry)>,
    data: &UntisData,
    faculty: &str,
    course: &str,
    lectures: &Vec<Lecture>,
) -> (r: Result<Vec<(u32, TimeEntry)>, LectureError>)
    requires
        table_valid(table.deep_view()),
        forall|i: int| 0 <= i < lectures@.len() ==> (#[trigger] lectures@[i]).valid(),
    ensures
        are_lectures(table.deep_view(), *data, faculty@, course@, lectures@, r),
        r matches Ok(t) ==> table_valid(t.deep_view()),
{
    let ghost before = table.deep_view();
    let zones: Vec<(Option<DateTime>, Option<DateTime>)> = ask_zones(lectures);
    let mut r: Vec<(u32, TimeEntry)> = table;
    let mut i: usize = 0;
    assert(zones@.take(0) =~= Seq::empty());
    while i < lectures.len()
        invariant
            i <= lectures@.len(),
            zones_fit(lectures@, zones@),
            table_valid(r.deep_view()),
            before == table.deep_view(),
            with_lectures(
                before,
                *data,
                faculty@,
                course@,
                lectures@.take(i as int),
                zones@.take(i as int),
            ) == Ok::<Seq<(u32, TimeEntryView)>, LectureError>(r.deep_view()),
        decreases lectures@.len() - i,
    {
        let l: &Lecture = &lectures[i];
        let (start, end): (Option<DateTime>, Option<DateTime>) = zones[i];
        let ghost t = r.deep_view();
        proof {
            assert(zone_fits(lectures@[i as int], zones@[i as int]));
            assert(lectures@.take(i + 1).drop_last() =~= lectures@.take(i as int));
            assert(zones@.take(i + 1).drop_last() =~= zones@.take(i as int));
            assert(lectures@.take(i + 1).last() == *l);
            assert(zones@.take(i + 1).last() == (start, end));
        }
        match enter_lecture(r, data, faculty, course, l, start, end) {
            Ok(next) => {
                proof {
                    if l.subject_ids@.len() > 0 {
                        with_seen_is_valid(
                            t,
                            l.id,
                            bare_entry(
                                data.subjects@[l.subject_ids@[0]],
                                faculty@,
                                start->0,
                                end->0,
                            ),
                            course@,
                            room_names(data.rooms@, l.room_ids@),
                        );
                    }
                }
                r = next;
            },
            Err(e) => {
                proof {
                    lecture_failure_stays(
                        before,
                        *data,
                        faculty@,
                        course@,
                        lectures@,
                        zones@,
                        i + 1,
                    );
                }
                return Err(e);
            },
        }
        i = i + 1;
    }
    assert(lectures@.take(i as int) =~= lectures@);
    assert(zones@.take(i as int) =~= zones@);
    Ok(r)
}

impl UntisData {
    /// The numbers of the classes, each of them once, in no particular order.
    pub fn class_ids(&self) -> (r: Vec<u32>)
        ensures
            r@.to_set() == self.classes@.dom(),
            r@.no_duplicates(),
    {
        broadcast use vstd::std_specs::hash::group_hash_axioms;

        let mut r: Vec<u32> = Vec::new();
        for id in it: self.classes.keys()
            invariant
                r@ == it.seq().unref().take(it.index()),
                it.seq().unref().to_set() == self.classes@.dom(),
                it.seq().no_duplicates(),
                it.index() == it.seq().len() ==> r@ == it.seq().unref(),
        {
            r.push(*id);
        }
        r
    }
}

/// The entries of a table.
pub open spec fn entries_of(table: Seq<(u32, TimeEntryView)>) -> Seq<TimeEntryView> {
    table.map_values(|row: (u32, TimeEntryView)| row.1)
}

/// Takes the entries out of a table.
pub fn table_entries(table: Vec<(u32, TimeEntry)>) -> (r: Vec<TimeEntry>)
    ensures
        r.deep_view() == entries_of(table.deep_view()),
        table_valid(table.deep_view()) ==> all_valid(r.deep_view()),
{
    let ghost all = table.deep_view();
    let mut r: Vec<TimeEntry> = lists::empty();
    for row in it: table
        invariant
            it.seq() == table@,
            all == table.deep_view(),
            r.deep_view() == entries_of(all.take(it.index())),
    {
        let ghost i = it.index();
        assert(all[i] == table@[i].deep_view());
        assert(entries_of(all.take(i + 1)) =~= entries_of(all.take(i)).push(all[i].1));
        lists::put(&mut r, row.1);
    }
    assert(all.take(all.len() as int) =~= all);
    assert(table_valid(all) ==> all_valid(r.deep_view())) by {
        if table_valid(all) {
            assert forall|i: int| 0 <= i < r.deep_view().len() implies (
            #[trigger] r.deep_view()[i]).valid() by {
                assert(all[i].1.valid());
            }
        }
    }
    r
}

// ---------------------------------------------------------------------------
// Laws of the lectures
// ---------------------------------------------------------------------------

/// Whether no two rows have the same number.
pub open spec fn unique_ids(table: Seq<(u32, TimeEntryView)>) -> bool {
    forall|i: int, j: int|
        0 <= i < j < table.len() ==> (#[trigger] table[i]).0 != (#[trigger] table[j]).0
}

/// Whether an entry lists a course and some rooms.
pub open spec fn lists_lecture(e: TimeEntryView, course: Seq<char>, rooms: Seq<Seq<char>>) -> bool {
    e.courses.contains(course) && forall|n: Seq<char>| #[trigger]
        rooms.contains(n) ==> e.locations.contains(n)
}

proof fn rooms_are_listed(e: TimeEntryView, course: Seq<char>, rooms: Seq<Seq<char>>)
    ensures
        lists_lecture(seen_for(e, course, rooms), course, rooms),
{
    name_is_added(e.courses, course, course);
    assert forall|n: Seq<char>| #[trigger] rooms.contains(n) implies seen_for(
        e,
        course,
        rooms,
    ).locations.contains(n) by {
        with_names_adds(e.locations, rooms, n);
    }
}

/// After a lecture has been seen for a course its row lists that course and its
/// rooms. The other rows are as they were, and a new row comes last.
pub proof fn lecture_is_seen(
    table: Seq<(u32, TimeEntryView)>,
    id: u32,
    fresh: TimeEntryView,
    course: Seq<char>,
    rooms: Seq<Seq<char>>,
)
    ensures
        exists|i: int|
            0 <= i < with_seen(table, id, fresh, course, rooms).len() && (#[trigger] with_seen(
                table,
                id,
                fresh,
                course,
                rooms,
            )[i]).0 == id && lists_lecture(
                with_seen(table, id, fresh, course, rooms)[i].1,
                course,
                rooms,
            ),
        table.len() <= with_seen(table, id, fresh, course, rooms).len() <= table.len() + 1,
        forall|i: int|
            0 <= i < table.len() ==> (#[trigger] with_seen(table, id, fresh, course, rooms)[i]).0
                == table[i].0 && (table[i].0 != id ==> with_seen(
                table,
                id,
                fresh,
                course,
                rooms,
            )[i] == table[i]),
        with_seen(table, id, fresh, course, rooms).len() > table.len() ==> with_seen(
            table,
            id,
            fresh,
            course,
            rooms,
        ).last() == (id, seen_for(fresh, course, rooms)) && forall|i: int|
            0 <= i < table.len() ==> (#[trigger] table[i]).0 != id,
    decreases table.len(),
{
    let r = with_seen(table, id, fresh, course, rooms);
    if table.len() == 0 {
        rooms_are_listed(fresh, course, rooms);
        assert(r[0].0 == id);
    } else if table[0].0 == id {
        rooms_are_listed(table[0].1, course, rooms);
        assert(r[0].0 == id);
    } else {
        let t = table.skip(1);
        let rest = with_seen(t, id, fresh, course, rooms);
        lecture_is_seen(t, id, fresh, course, rooms);
        let k = choose|i: int|
            0 <= i < rest.len() && (#[trigger] rest[i]).0 == id && lists_lecture(
                rest[i].1,
                course,
                rooms,
            );
        assert(r[k + 1] == rest[k]);
        assert forall|i: int| 0 <= i < table.len() implies (#[trigger] r[i]).0 == table[i].0 && (
        table[i].0 != id ==> r[i] == table[i]) by {
            if i > 0 {
                assert(r[i] == rest[i - 1]);
                assert(t[i - 1] == table[i]);
            }
        }
        if r.len() > table.len() {
            assert(r.last() == rest.last());
            assert forall|i: int| 0 <= i < table.len() implies (#[trigger] table[i]).0 != id by {
                if i > 0 {
                    assert(t[i - 1] == table[i]);
                }
            }
        }
    }
}

/// Every lecture has one row, however many courses it is seen for.
pub proof fn lectures_have_one_row(
    table: Seq<(u32, TimeEntryView)>,
    id: u32,
    fresh: TimeEntryView,
    course: Seq<char>,
    rooms: Seq<Seq<char>>,
)
    requires
        unique_ids(table),
    ensures
        unique_ids(with_seen(table, id, fresh, course, rooms)),
{
    let r = with_seen(table, id, fresh, course, rooms);
    lecture_is_seen(table, id, fresh, course, rooms);
    assert forall|i: int, j: int| 0 <= i < j < r.len() implies (#[trigger] r[i]).0 != (
    #[trigger] r[j]).0 by {
        assert(r[i].0 == table[i].0);
        if j < table.len() {
            assert(r[j].0 == table[j].0);
        }
    }
}

/// Every lecture has one row, however many lectures are seen for a course.
pub proof fn lecture_lists_have_one_row(
    table: Seq<(u32, TimeEntryView)>,
    data: UntisData,
    faculty: Seq<char>,
    course: Seq<char>,
    lectures: Seq<Lecture>,
    zones: Seq<(Option<DateTime>, Option<DateTime>)>,
)
    requires
        unique_ids(table),
    ensures
        with_lectures(table, data, faculty, course, lectures, zones) matches Ok(t) ==> unique_ids(
            t,
        ),
    decreases lectures.len(),
{
    if lectures.len() > 0 {
        let front = lectures.drop_last();
        lecture_lists_have_one_row(table, data, faculty, course, front, zones.drop_last());
        let l = lectures.last();
        if let Ok(t) = with_lectures(table, data, faculty, course, front, zones.drop_last()) {
            if let (Some(s), Some(e)) = zones.last() {
                lectures_have_one_row(
                    t,
                    l.id,
                    bare_entry(data.subjects@[l.subject_ids@[0]], faculty, s, e),
                    course,
                    room_names(data.rooms@, l.room_ids@),
                );
            }
        }
    }
}

/// The lectures that are seen for a course: its name, the lectures, and the
/// points in time of their starts and ends.
pub type CourseLectures = (Seq<char>, Seq<Lecture>, Seq<(Option<DateTime>, Option<DateTime>)>);

/// Entries by the numbers of their lectures, once the lectures of some courses
/// have been seen, one course after the other.
pub open spec fn lecture_plan(
    data: UntisData,
    faculty: Seq<char>,
    courses: Seq<CourseLectures>,
) -> Result<Seq<(u32, TimeEntryView)>, LectureError>
    decreases courses.len(),
{
    if courses.len() == 0 {
        Ok(Seq::empty())
    } else {
        let c = courses.last();
        match lecture_plan(data, faculty, courses.drop_last()) {
            Err(e) => Err(e),
            Ok(table) => with_lectures(table, data, faculty, c.0, c.1, c.2),
        }
    }
}

/// Whether the lecture at the place `j` of the course at the place `i` has a
/// number, and a subject.
pub open spec fn is_seen(courses: Seq<CourseLectures>, i: int, j: int, id: u32) -> bool {
    &&& 0 <= i < courses.len()
    &&& 0 <= j < courses[i].1.len()
    &&& courses[i].1[j].id == id
    &&& courses[i].1[j].subject_ids@.len() > 0
}

/// Whether a lecture of a number is seen for a course.
pub open spec fn seen_for_course(courses: Seq<CourseLectures>, id: u32, course: Seq<char>) -> bool {
    exists|i: int, j: int| #[trigger] is_seen(courses, i, j, id) && courses[i].0 == course
}

/// Whether a lecture of a number is seen in a room.
pub open spec fn seen_in_room(
    data: UntisData,
    courses: Seq<CourseLectures>,
    id: u32,
    room: Seq<char>,
) -> bool {
    exists|i: int, j: int| #[trigger]
        is_seen(courses, i, j, id) && room_names(
            data.rooms@,
            courses[i].1[j].room_ids@,
        ).contains(room)
}

/// Whether the lecture at a place is the first one of its number.
pub open spec fn is_first(courses: Seq<CourseLectures>, i: int, j: int, id: u32) -> bool {
    is_seen(courses, i, j, id) && forall|k: int, l: int| #[trigger]
        is_seen(courses, k, l, id) ==> i < k || (i == k && j <= l)
}

/// Whether an entry has the subject and the times of the first lecture of a
/// number.
pub open spec fn comes_from_first(
    data: UntisData,
    faculty: Seq<char>,
    courses: Seq<CourseLectures>,
    id: u32,
    e: TimeEntryView,
) -> bool {
    exists|i: int, j: int| #[trigger]
        is_first(courses, i, j, id) && courses[i].2[j].0 is Some && courses[i].2[j].1 is Some && e
            == (TimeEntryView {
            courses: e.courses,
            locations: e.locations,
            ..bare_entry(
                data.subjects@[courses[i].1[j].subject_ids@[0]],
                faculty,
                courses[i].2[j].0->0,
                courses[i].2[j].1->0,
            )
        })
}

/// Whether a row lists the courses and the rooms for which its lecture is seen,
/// and no others, and is else as the first lecture of its number.
pub open spec fn row_fits(
    data: UntisData,
    faculty: Seq<char>,
    courses: Seq<CourseLectures>,
    row: (u32, TimeEntryView),
) -> bool {
    &&& forall|n: Seq<char>| #[trigger]
        row.1.courses.contains(n) <==> seen_for_course(courses, row.0, n)
    &&& forall|n: Seq<char>| #[trigger]
        row.1.locations.contains(n) <==> seen_in_room(data, courses, row.0, n)
    &&& comes_from_first(data, faculty, courses, row.0, row.1)
}

/// Whether a table has one row for each lecture that is seen, and no others, and
/// each row fits.
pub open spec fn is_plan(
    data: UntisData,
    faculty: Seq<char>,
    courses: Seq<CourseLectures>,
    table: Seq<(u32, TimeEntryView)>,
) -> bool {
    &&& unique_ids(table)
    &&& forall|k: int|
        0 <= k < table.len() ==> row_fits(data, faculty, courses, #[trigger] table[k])
    &&& forall|i: int, j: int, id: u32| #[trigger]
        is_seen(courses, i, j, id) ==> has_row(table, id)
}

/// Whether a table has a row for a number.
pub open spec fn has_row(table: Seq<(u32, TimeEntryView)>, id: u32) -> bool {
    exists|k: int| 0 <= k < table.len() && (#[trigger] table[k]).0 == id
}

proof fn name_is_added(s: Seq<Seq<char>>, x: Seq<char>, n: Seq<char>)
    ensures
        with_name(s, x).contains(n) <==> s.contains(n) || n == x,
{
    with_names_adds(s, seq![x], n);
    assert(seq![x][0] == x);
    assert(seq![x].skip(1) =~= Seq::empty());
    assert(with_names(s, seq![x]) == with_names(with_name(s, x), seq![x].skip(1)));
}

proof fn rows_are_kept(
    table: Seq<(u32, TimeEntryView)>,
    id: u32,
    fresh: TimeEntryView,
    course: Seq<char>,
    rooms: Seq<Seq<char>>,
)
    requires
        unique_ids(table),
    ensures
        forall|k: int|
            0 <= k < table.len() ==> #[trigger] with_seen(table, id, fresh, course, rooms)[k] == (
            if table[k].0 == id {
                (id, seen_for(table[k].1, course, rooms))
            } else {
                table[k]
            }),
        with_seen(table, id, fresh, course, rooms).len() == table.len() + (if has_row(table, id) {
            0int
        } else {
            1
        }),
    decreases table.len(),
{
    let r = with_seen(table, id, fresh, course, rooms);
    if table.len() > 0 {
        let t = table.skip(1);
        assert forall|i: int, j: int| 0 <= i < j < t.len() implies (#[trigger] t[i]).0 != (
        #[trigger] t[j]).0 by {
            assert(t[i] == table[i + 1]);
            assert(t[j] == table[j + 1]);
        }
        rows_are_kept(t, id, fresh, course, rooms);
        let rest = with_seen(t, id, fresh, course, rooms);
        if table[0].0 == id {
            assert(has_row(table, id));
            assert forall|k: int| 0 <= k < table.len() implies #[trigger] r[k] == (if table[k].0
                == id {
                (id, seen_for(table[k].1, course, rooms))
            } else {
                table[k]
            }) by {
                if k > 0 {
                    assert(table[0].0 != table[k].0);
                }
            }
        } else {
            assert(has_row(t, id) == has_row(table, id)) by {
                if has_row(t, id) {
                    let k = choose|k: int| 0 <= k < t.len() && (#[trigger] t[k]).0 == id;
                    assert(table[k + 1].0 == id);
                }
                if has_row(table, id) {
                    let k = choose|k: int| 0 <= k < table.len() && (#[trigger] table[k]).0 == id;
                    assert(t[k - 1].0 == id);
                }
            }
            assert forall|k: int| 0 <= k < table.len() implies #[trigger] r[k] == (if table[k].0
                == id {
                (id, seen_for(table[k].1, course, rooms))
            } else {
                table[k]
            }) by {
                if k > 0 {
                    assert(r[k] == rest[k - 1]);
                    assert(t[k - 1] == table[k]);
                }
            }
        }
    }
}

/// Whether `all` is `some` with one more lecture at the end of the last course.
spec fn is_longer(some: Seq<CourseLectures>, all: Seq<CourseLectures>) -> bool {
    &&& all.len() > 0
    &&& all.last().1.len() > 0
    &&& all.last().2.len() == all.last().1.len()
    &&& some == all.drop_last().push(
        (all.last().0, all.last().1.drop_last(), all.last().2.drop_last()),
    )
}

proof fn seen_stays(
    some: Seq<CourseLectures>,
    all: Seq<CourseLectures>,
    i: int,
    j: int,
    id: u32,
)
    requires
        is_longer(some, all),
    ensures
        is_seen(all, i, j, id) == (is_seen(some, i, j, id) || {
            &&& i == all.len() - 1
            &&& j == all.last().1.len() - 1
            &&& all.last().1.last().id == id
            &&& all.last().1.last().subject_ids@.len() > 0
        }),
        is_seen(some, i, j, id) ==> all[i].0 == some[i].0 && all[i].1[j] == some[i].1[j] && (
        some[i].2.len() == some[i].1.len() ==> all[i].2[j] == some[i].2[j]),
{
}

proof fn sightings_add_up(
    data: UntisData,
    some: Seq<CourseLectures>,
    all: Seq<CourseLectures>,
    id: u32,
    n: Seq<char>,
)
    requires
        is_longer(some, all),
    ensures
        ({
            let l = all.last().1.last();
            let new = l.id == id && l.subject_ids@.len() > 0;
            &&& seen_for_course(all, id, n) == (seen_for_course(some, id, n) || (new
                && all.last().0 == n))
            &&& seen_in_room(data, all, id, n) == (seen_in_room(data, some, id, n) || (new
                && room_names(data.rooms@, l.room_ids@).contains(n)))
        }),
{
    let last = all.len() - 1;
    let at = all.last().1.len() - 1;
    seen_stays(some, all, last, at, id);
    if seen_for_course(all, id, n) {
        let (i, j) = choose|i: int, j: int| #[trigger]
            is_seen(all, i, j, id) && all[i].0 == n;
        seen_stays(some, all, i, j, id);
    }
    if seen_for_course(some, id, n) {
        let (i, j) = choose|i: int, j: int| #[trigger]
            is_seen(some, i, j, id) && some[i].0 == n;
        seen_stays(some, all, i, j, id);
        assert(is_seen(all, i, j, id));
    }
    if seen_in_room(data, all, id, n) {
        let (i, j) = choose|i: int, j: int| #[trigger]
            is_seen(all, i, j, id) && room_names(
                data.rooms@,
                all[i].1[j].room_ids@,
            ).contains(n);
        seen_stays(some, all, i, j, id);
    }
    if seen_in_room(data, some, id, n) {
        let (i, j) = choose|i: int, j: int| #[trigger]
            is_seen(some, i, j, id) && room_names(
                data.rooms@,
                some[i].1[j].room_ids@,
            ).contains(n);
        seen_stays(some, all, i, j, id);
        assert(is_seen(all, i, j, id));
    }
}

proof fn first_stays(
    data: UntisData,
    faculty: Seq<char>,
    some: Seq<CourseLectures>,
    all: Seq<CourseLectures>,
    id: u32,
    e: TimeEntryView,
    f: TimeEntryView,
)
    requires
        is_longer(some, all),
        forall|i: int| 0 <= i < some.len() ==> (#[trigger] some[i]).2.len() == some[i].1.len(),
        comes_from_first(data, faculty, some, id, e),
        f == (TimeEntryView { courses: f.courses, locations: f.locations, ..e }),
    ensures
        comes_from_first(data, faculty, all, id, f),
{
    let (i, j) = choose|i: int, j: int| #[trigger]
        is_first(some, i, j, id) && some[i].2[j].0 is Some && some[i].2[j].1 is Some && e == (
        TimeEntryView {
            courses: e.courses,
            locations: e.locations,
            ..bare_entry(
                data.subjects@[some[i].1[j].subject_ids@[0]],
                faculty,
                some[i].2[j].0->0,
                some[i].2[j].1->0,
            )
        });
    seen_stays(some, all, i, j, id);
    assert(is_first(all, i, j, id)) by {
        assert forall|k: int, l: int| #[trigger] is_seen(all, k, l, id) implies i < k || (i == k
            && j <= l) by {
            seen_stays(some, all, k, l, id);
        }
    }
}

proof fn lecture_joins_plan(
    data: UntisData,
    faculty: Seq<char>,
    some: Seq<CourseLectures>,
    all: Seq<CourseLectures>,
    table: Seq<(u32, TimeEntryView)>,
)
    requires
        is_longer(some, all),
        forall|i: int| 0 <= i < some.len() ==> (#[trigger] some[i]).2.len() == some[i].1.len(),
        is_plan(data, faculty, some, table),
    ensures
        with_lecture(
            table,
            data,
            faculty,
            all.last().0,
            all.last().1.last(),
            all.last().2.last().0,
            all.last().2.last().1,
        ) matches Ok(t) ==> is_plan(data, faculty, all, t),
{
    let course = all.last().0;
    let l = all.last().1.last();
    let zone = all.last().2.last();
    let rooms = room_names(data.rooms@, l.room_ids@);
    if let Ok(r) = with_lecture(table, data, faculty, course, l, zone.0, zone.1) {
        if l.subject_ids@.len() == 0 {
            assert forall|k: int| 0 <= k < r.len() implies row_fits(
                data,
                faculty,
                all,
                #[trigger] r[k],
            ) by {
                assert(row_fits(data, faculty, some, table[k]));
                assert forall|n: Seq<char>| #[trigger]
                    r[k].1.courses.contains(n) <==> seen_for_course(all, r[k].0, n) by {
                    sightings_add_up(data, some, all, r[k].0, n);
                }
                assert forall|n: Seq<char>| #[trigger]
                    r[k].1.locations.contains(n) <==> seen_in_room(data, all, r[k].0, n) by {
                    sightings_add_up(data, some, all, r[k].0, n);
                }
                first_stays(data, faculty, some, all, r[k].0, r[k].1, r[k].1);
            }
            assert forall|i: int, j: int, id: u32| #[trigger]
                is_seen(all, i, j, id) implies has_row(r, id) by {
                seen_stays(some, all, i, j, id);
            }
        } else {
            let fresh = bare_entry(data.subjects@[l.subject_ids@[0]], faculty, zone.0->0, zone.1->0);
            rows_are_kept(table, l.id, fresh, course, rooms);
            lectures_have_one_row(table, l.id, fresh, course, rooms);
            lecture_is_seen(table, l.id, fresh, course, rooms);
            assert forall|k: int| 0 <= k < r.len() implies row_fits(
                data,
                faculty,
                all,
                #[trigger] r[k],
            ) by {
                let id = r[k].0;
                if k < table.len() {
                    assert(row_fits(data, faculty, some, table[k]));
                    assert forall|n: Seq<char>| #[trigger]
                        r[k].1.courses.contains(n) <==> seen_for_course(all, id, n) by {
                        sightings_add_up(data, some, all, id, n);
                        name_is_added(table[k].1.courses, course, n);
                        assert(table[k].1.courses.contains(n) <==> seen_for_course(some, id, n));
                    }
                    assert forall|n: Seq<char>| #[trigger]
                        r[k].1.locations.contains(n) <==> seen_in_room(data, all, id, n) by {
                        sightings_add_up(data, some, all, id, n);
                        with_names_adds(table[k].1.locations, rooms, n);
                        assert(table[k].1.locations.contains(n) <==> seen_in_room(
                            data,
                            some,
                            id,
                            n,
                        ));
                    }
                    first_stays(data, faculty, some, all, id, table[k].1, r[k].1);
                } else {
                    assert(!has_row(table, l.id));
                    assert(r[k] == (l.id, seen_for(fresh, course, rooms)));
                    assert forall|i: int, j: int| !#[trigger] is_seen(some, i, j, id) by {
                        if is_seen(some, i, j, id) {
                            assert(has_row(table, id));
                        }
                    }
                    assert forall|n: Seq<char>| #[trigger]
                        r[k].1.courses.contains(n) <==> seen_for_course(all, id, n) by {
                        sightings_add_up(data, some, all, id, n);
                        name_is_added(fresh.courses, course, n);
                    }
                    assert forall|n: Seq<char>| #[trigger]
                        r[k].1.locations.contains(n) <==> seen_in_room(data, all, id, n) by {
                        sightings_add_up(data, some, all, id, n);
                        with_names_adds(fresh.locations, rooms, n);
                    }
                    let i = all.len() - 1;
                    let j = all.last().1.len() - 1;
                    seen_stays(some, all, i, j, id);
                    assert(is_first(all, i, j, id)) by {
                        assert forall|m: int, o: int| #[trigger] is_seen(all, m, o, id) implies i
                            < m || (i == m && j <= o) by {
                            seen_stays(some, all, m, o, id);
                        }
                    }
                    assert(comes_from_first(data, faculty, all, id, r[k].1));
                }
            }
            assert forall|i: int, j: int, id: u32| #[trigger]
                is_seen(all, i, j, id) implies has_row(r, id) by {
                seen_stays(some, all, i, j, id);
                if is_seen(some, i, j, id) {
                    let k = choose|k: int| 0 <= k < table.len() && (#[trigger] table[k]).0 == id;
                    assert(r[k].0 == table[k].0);
                } else {
                    let k = choose|k: int|
                        0 <= k < r.len() && (#[trigger] r[k]).0 == l.id && lists_lecture(
                            r[k].1,
                            course,
                            rooms,
                        );
                    assert(r[k].0 == id);
                }
            }
        }
    }
}

proof fn empty_course_joins_plan(
    data: UntisData,
    faculty: Seq<char>,
    some: Seq<CourseLectures>,
    all: Seq<CourseLectures>,
    table: Seq<(u32, TimeEntryView)>,
)
    requires
        all.len() > 0,
        all.last().1.len() == 0,
        some == all.drop_last(),
        is_plan(data, faculty, some, table),
    ensures
        is_plan(data, faculty, all, table),
{
    assert forall|i: int, j: int, id: u32| #[trigger] is_seen(all, i, j, id) == is_seen(
        some,
        i,
        j,
        id,
    ) by {}
    assert forall|k: int| 0 <= k < table.len() implies row_fits(
        data,
        faculty,
        all,
        #[trigger] table[k],
    ) by {
        let id = table[k].0;
        assert(row_fits(data, faculty, some, table[k]));
        assert forall|n: Seq<char>| seen_for_course(all, id, n) == #[trigger] seen_for_course(
            some,
            id,
            n,
        ) by {
            if seen_for_course(some, id, n) {
                let (i, j) = choose|i: int, j: int| #[trigger]
                    is_seen(some, i, j, id) && some[i].0 == n;
                assert(is_seen(all, i, j, id) && all[i].0 == n);
            }
        }
        assert forall|n: Seq<char>| seen_in_room(data, all, id, n) == #[trigger] seen_in_room(
            data,
            some,
            id,
            n,
        ) by {
            if seen_in_room(data, some, id, n) {
                let (i, j) = choose|i: int, j: int| #[trigger]
                    is_seen(some, i, j, id) && room_names(
                        data.rooms@,
                        some[i].1[j].room_ids@,
                    ).contains(n);
                assert(is_seen(all, i, j, id) && all[i] == some[i]);
            }
        }
        let e = table[k].1;
        let (i, j) = choose|i: int, j: int| #[trigger]
            is_first(some, i, j, id) && some[i].2[j].0 is Some && some[i].2[j].1 is Some && e == (
            TimeEntryView {
                courses: e.courses,
                locations: e.locations,
                ..bare_entry(
                    data.subjects@[some[i].1[j].subject_ids@[0]],
                    faculty,
                    some[i].2[j].0->0,
                    some[i].2[j].1->0,
                )
            });
        assert(all[i] == some[i]);
        assert(is_first(all, i, j, id)) by {
            assert(is_seen(all, i, j, id));
            assert forall|m: int, o: int| #[trigger] is_seen(all, m, o, id) implies i < m || (i == m
                && j <= o) by {
                assert(is_seen(some, m, o, id));
            }
        }
    }
}

proof fn course_joins_plan(
    data: UntisData,
    faculty: Seq<char>,
    some: Seq<CourseLectures>,
    c: CourseLectures,
    table: Seq<(u32, TimeEntryView)>,
)
    requires
        forall|i: int| 0 <= i < some.len() ==> (#[trigger] some[i]).2.len() == some[i].1.len(),
        c.2.len() == c.1.len(),
        is_plan(data, faculty, some, table),
    ensures
        with_lectures(table, data, faculty, c.0, c.1, c.2) matches Ok(t) ==> is_plan(
            data,
            faculty,
            some.push(c),
            t,
        ),
    decreases c.1.len(),
{
    let all = some.push(c);
    assert(all.drop_last() =~= some);
    if c.1.len() == 0 {
        empty_course_joins_plan(data, faculty, some, all, table);
    } else {
        let d = (c.0, c.1.drop_last(), c.2.drop_last());
        course_joins_plan(data, faculty, some, d, table);
        if let Ok(t) = with_lectures(table, data, faculty, d.0, d.1, d.2) {
            let before = some.push(d);
            assert(is_longer(before, all));
            assert forall|i: int| 0 <= i < before.len() implies (#[trigger] before[i]).2.len()
                == before[i].1.len() by {
                if i < some.len() {
                    assert(before[i] == some[i]);
                }
            }
            lecture_joins_plan(data, faculty, before, all, t);
        }
    }
}

/// The combined plan of all courses has one row for each lecture that is seen
/// for some course, and no others. A row lists exactly the courses for which its
/// lecture is seen, and exactly the rooms; its subject and its times are those of
/// the first lecture of its number.
pub proof fn plan_lists_every_lecture(
    data: UntisData,
    faculty: Seq<char>,
    courses: Seq<CourseLectures>,
)
    requires
        forall|i: int|
            0 <= i < courses.len() ==> (#[trigger] courses[i]).2.len() == courses[i].1.len(),
    ensures
        lecture_plan(data, faculty, courses) matches Ok(table) ==> is_plan(
            data,
            faculty,
            courses,
            table,
        ),
    decreases courses.len(),
{
    if courses.len() > 0 {
        let some = courses.drop_last();
        let c = courses.last();
        assert forall|i: int| 0 <= i < some.len() implies (#[trigger] some[i]).2.len()
            == some[i].1.len() by {
            assert(some[i] == courses[i]);
        }
        plan_lists_every_lecture(data, faculty, some);
        if let Ok(table) = lecture_plan(data, faculty, some) {
            assert(courses[courses.len() - 1].2.len() == courses[courses.len() - 1].1.len());
            course_joins_plan(data, faculty, some, c, table);
            assert(some.push(c) =~= courses);
        }
    }
}

/// Every date from the year 0 to the year 214748 is that of its number.
pub proof fn numbers_of_dates_are_dates(date: Date, y: int, m: int, d: int)
    requires
        date.is_ymd(y, m, d),
        0 <= y <= 214748,
    ensures
        is_date(date_code(date) as u32),
        date_code(date) == 10000 * y + 100 * m + d,
{
    date.ymd_is_unique(y, m, d);
    code_holds_parts(y, m, d, date_code(date) as u32);
}

/// The numbers of times are those with an hour of the day and a minute of the hour.
pub proof fn numbers_of_times_hold_hours_and_minutes(hour: u32, minute: u32, code: u32)
    requires
        code == 100 * hour + minute,
        minute < 100,
    ensures
        is_time(code) <==> hour <= 23 && minute <= 59,
        code / 100 * 3600 + code % 100 * 60 == 3600 * hour + 60 * minute,
{
    assert(code / 100 == hour);
    assert(code % 100 == minute);
}

/// A lecture can be read if and only if its day is one of the calendar and its
/// times are on the clock, whatever they are.
pub proof fn lectures_on_the_calendar_are_readable(raw: RawLecture)
    ensures
        readable_lecture(raw) <==> valid_ymd(
            code_year(raw.date),
            code_month(raw.date),
            code_day(raw.date),
        ) && raw.start_time / 100 <= 23 && raw.start_time % 100 <= 59 && raw.end_time / 100 <= 23
            && raw.end_time % 100 <= 59,
        sub_ids(raw.subjects@).len() == raw.subjects@.len(),
        forall|i: int|
            0 <= i < raw.subjects@.len() ==> #[trigger] sub_ids(raw.subjects@)[i]
                == raw.subjects@[i].id,
{
}

/// Of the rooms of a lecture all that are known are named, in their order, and no
/// others.
pub proof fn known_rooms_are_named(rooms: Map<u32, Room>, ids: Seq<u32>)
    ensures
        picked(
            ids,
            room_names(rooms, ids),
            |id: u32| rooms.contains_key(id),
            |id: u32| rooms[id].name@,
        ),
    decreases ids.len(),
{
    let keep = |id: u32| rooms.contains_key(id);
    let name = |id: u32| rooms[id].name@;
    if ids.len() == 0 {
        pick_of_none(ids, keep, name);
    } else {
        known_rooms_are_named(rooms, ids.drop_last());
        pick_grows(ids, room_names(rooms, ids.drop_last()), keep, name);
    }
}

/// An entry has the title of its subject, the times of its lecture, and is no exam.
/// Its abbreviation is the name of the subject without the faculty in front.
pub proof fn lectures_are_named_by_subject(
    subject: Subject,
    faculty: Seq<char>,
    start: DateTime,
    end: DateTime,
    short: Seq<char>,
)
    requires
        !(faculty + "_"@).is_prefix_of(short),
    ensures
        ({
            let e = bare_entry(subject, faculty, start, end);
            &&& e.title == subject.long_name@
            &&& e.time_start == start
            &&& e.time_end == end.at
            &&& !e.is_exam
            &&& e.courses.len() == 0
            &&& e.locations.len() == 0
            &&& subject.name@ == faculty + "_"@ + short ==> e.abbr == short
            &&& subject.name@ == short ==> e.abbr == short
        }),
{
    reveal_strlit("_");
    text::affixes_are_taken_off(short, faculty + "_"@);
}

/// Whether a lecture has a subject that is known.
pub open spec fn is_known(data: UntisData, l: Lecture) -> bool {
    l.subject_ids@.len() > 0 && data.subjects@.contains_key(l.subject_ids@[0])
}

/// Whether a lecture is a reason for an error: its subject is not known, or the
/// machine's time zone has no time for its start, or for its end.
pub open spec fn is_reason(data: UntisData, l: Lecture, e: LectureError) -> bool {
    match e {
        LectureError::UnknownSubject => l.subject_ids@.len() > 0 && !is_known(data, l),
        LectureError::StartTime => is_known(data, l) && gives_latest(
            time_on(l.date, l.start_time),
            None,
        ),
        LectureError::EndTime => is_known(data, l) && gives_latest(
            time_on(l.date, l.end_time),
            None,
        ),
    }
}

/// Lectures are refused only for one that is about an unknown subject or whose times
/// the machine's time zone does not have; and where they are not, each is without a
/// subject or about one that is known, at times that the time zone gave.
pub proof fn lectures_fail_for_a_reason(
    table: Seq<(u32, TimeEntryView)>,
    data: UntisData,
    faculty: Seq<char>,
    course: Seq<char>,
    lectures: Seq<Lecture>,
    result: Result<Vec<(u32, TimeEntry)>, LectureError>,
)
    requires
        are_lectures(table, data, faculty, course, lectures, result),
    ensures
        match result {
            Ok(_) => forall|i: int|
                0 <= i < lectures.len() ==> (#[trigger] lectures[i]).subject_ids@.len() == 0
                    || is_known(data, lectures[i]),
            Err(e) => exists|i: int|
                0 <= i < lectures.len() && is_reason(data, #[trigger] lectures[i], e),
        },
{
    let zones = choose|zones: Seq<(Option<DateTime>, Option<DateTime>)>| #[trigger]
        zones_fit(lectures, zones) && comes_to(
            result,
            with_lectures(table, data, faculty, course, lectures, zones),
        );
    lecture_lists_fail_for_a_reason(table, data, faculty, course, lectures, zones);
}

proof fn lecture_lists_fail_for_a_reason(
    table: Seq<(u32, TimeEntryView)>,
    data: UntisData,
    faculty: Seq<char>,
    course: Seq<char>,
    lectures: Seq<Lecture>,
    zones: Seq<(Option<DateTime>, Option<DateTime>)>,
)
    requires
        zones_fit(lectures, zones),
    ensures
        match with_lectures(table, data, faculty, course, lectures, zones) {
            Ok(_) => forall|i: int|
                0 <= i < lectures.len() ==> (#[trigger] lectures[i]).subject_ids@.len() == 0
                    || is_known(data, lectures[i]),
            Err(e) => exists|i: int|
                0 <= i < lectures.len() && is_reason(data, #[trigger] lectures[i], e),
        },
    decreases lectures.len(),
{
    if lectures.len() > 0 {
        let a = lectures.drop_last();
        let b = zones.drop_last();
        let n = a.len() as int;
        assert forall|i: int| 0 <= i < a.len() implies zone_fits(#[trigger] a[i], #[trigger] b[i]) by {
            assert(zone_fits(lectures[i], zones[i]));
        }
        lecture_lists_fail_for_a_reason(table, data, faculty, course, a, b);
        assert(zone_fits(lectures[n], zones[n]));
        match with_lectures(table, data, faculty, course, a, b) {
            Err(e) => {
                let i = choose|i: int| 0 <= i < a.len() && is_reason(data, #[trigger] a[i], e);
                assert(is_reason(data, lectures[i], e));
            },
            Ok(t) => {
                match with_lectures(table, data, faculty, course, lectures, zones) {
                    Ok(_) => {
                        assert forall|i: int| 0 <= i < lectures.len() implies (
                        #[trigger] lectures[i]).subject_ids@.len() == 0 || is_known(
                            data,
                            lectures[i],
                        ) by {
                            if i < n {
                                assert(a[i] == lectures[i]);
                            }
                        }
                    },
                    Err(e) => {
                        assert(is_reason(data, lectures[n], e));
                    },
                }
            },
        }
    }
}

/// A lecture without a subject changes nothing. One about a known subject, whose
/// start and end the time zone gives, is entered at these times.
pub proof fn lectures_are_entered(
    table: Seq<(u32, TimeEntryView)>,
    data: UntisData,
    faculty: Seq<char>,
    course: Seq<char>,
    l: Lecture,
    start: DateTime,
    end: DateTime,
)
    ensures
        l.subject_ids@.len() == 0 ==> with_lecture(
            table,
            data,
            faculty,
            course,
            l,
            Some(start),
            Some(end),
        ) == Ok::<Seq<(u32, TimeEntryView)>, LectureError>(table),
        is_known(data, l) ==> (with_lecture(
            table,
            data,
            faculty,
            course,
            l,
            Some(start),
            Some(end),
        ) matches Ok(t) && has_row(t, l.id) && (!has_row(table, l.id) ==> t.last().1.time_start
            == start && t.last().1.time_end == end.at && t.last().0 == l.id)),
{
    if is_known(data, l) {
        let fresh = bare_entry(data.subjects@[l.subject_ids@[0]], faculty, start, end);
        let rooms = room_names(data.rooms@, l.room_ids@);
        lecture_is_seen(table, l.id, fresh, course, rooms);
        let t = with_seen(table, l.id, fresh, course, rooms);
        if !has_row(table, l.id) && t.len() == table.len() {
            let i = choose|i: int| 0 <= i < t.len() && (#[trigger] t[i]).0 == l.id;
            assert(table[i].0 == l.id);
        }
    }
}

/// The entries of a table are those of its rows, in their order.
pub proof fn tables_hold_their_entries(table: Seq<(u32, TimeEntryView)>, i: int)
    requires
        0 <= i < table.len(),
    ensures
        entries_of(table).len() == table.len(),
        entries_of(table)[i] == table[i].1,
{
}

/// Entries that were had are those that their value says, and so is an error.
pub proof fn lectures_come_to_their_value(
    result: Result<Vec<(u32, TimeEntry)>, LectureError>,
    value: Result<Seq<(u32, TimeEntryView)>, LectureError>,
)
    requires
        comes_to(result, value),
    ensures
        match result {
            Ok(table) => value == Ok::<Seq<(u32, TimeEntryView)>, LectureError>(table.deep_view()),
            Err(e) => value == Err::<Seq<(u32, TimeEntryView)>, LectureError>(e),
        },
{
}

} // verus!
