//! The exam plan of the school, as its web pages show it.

use scraper::{ElementRef, Html, Selector};
use vstd::prelude::*;
use crate::clock::{gives_single, in_span, ordinary, parse_wall, parsed_wall, single_at, DateTime, Instant, WallTime};
use crate::lists;
use crate::names::{with_name, with_names, with_names_adds, NameSet};
use crate::text::{self, after_words, decimal, in_range, replaced, signed_decimal, signed_number, split_first, trimmed, without_prefixes};
use crate::timetable::{all_valid, TimeEntry, TimeEntryView};

verus! {

// ---------------------------------------------------------------------------
// Logging in
// ---------------------------------------------------------------------------

/// A faculty of the school.
#[derive(Clone, Copy, Debug, PartialEq, Eq, Structural)]
pub enum Faculty {
    A,
    ANK,
    B,
    BW,
    EI,
    IM,
    M,
}

impl Faculty {
    /// The number by which the exam plan knows the faculty.
    pub open spec fn spec_code(self) -> u32 {
        match self {
            Faculty::A => 1,
            Faculty::ANK => 2,
            Faculty::B => 3,
            Faculty::BW => 4,
            Faculty::EI => 5,
            Faculty::IM => 6,
            Faculty::M => 7,
        }
    }

    /// The number by which the exam plan knows the faculty.
    pub fn code(self) -> (r: u32)
        ensures
            r == self.spec_code(),
    {
        match self {
            Faculty::A => 1,
            Faculty::ANK => 2,
            Faculty::B => 3,
            Faculty::BW => 4,
            Faculty::EI => 5,
            Faculty::IM => 6,
            Faculty::M => 7,
        }
    }
}

/// The values of a form, each under its name.
pub type Form = Seq<(Seq<char>, Seq<char>)>;

/// A form with a value set: in place of the one that has the name already, or
/// at the end.
pub open spec fn with_field(form: Form, name: Seq<char>, value: Seq<char>) -> Form
    decreases form.len(),
{
    if form.len() == 0 {
        seq![(name, value)]
    } else if form[0].0 == name {
        seq![(name, value)] + form.skip(1)
    } else {
        seq![form[0]] + with_field(form.skip(1), name, value)
    }
}

/// Setting a value gives the form that value under that name, and leaves the
/// values of all other names as they are.
pub proof fn field_is_set(form: Form, name: Seq<char>, value: Seq<char>)
    ensures
        with_field(form, name, value).contains((name, value)),
        forall|f: (Seq<char>, Seq<char>)|
            f.0 != name ==> #[trigger] with_field(form, name, value).contains(f) == form.contains(
                f,
            ),
    decreases form.len(),
{
    let r = with_field(form, name, value);
    if form.len() == 0 {
        assert(r[0] == (name, value));
    } else if form[0].0 == name {
        assert(r[0] == (name, value));
        assert forall|f: (Seq<char>, Seq<char>)| f.0 != name implies #[trigger] r.contains(f)
            == form.contains(f) by {
            if r.contains(f) {
                let i = choose|i: int| 0 <= i < r.len() && r[i] == f;
                assert(form[i] == f);
            }
            if form.contains(f) {
                let i = choose|i: int| 0 <= i < form.len() && form[i] == f;
                assert(r[i] == f);
            }
        }
    } else {
        let t = form.skip(1);
        let rest = with_field(t, name, value);
        field_is_set(t, name, value);
        let k = choose|k: int| 0 <= k < rest.len() && rest[k] == (name, value);
        assert(r[k + 1] == (name, value));
        assert forall|f: (Seq<char>, Seq<char>)| f.0 != name implies #[trigger] r.contains(f)
            == form.contains(f) by {
            assert(rest.contains(f) == t.contains(f));
            if r.contains(f) {
                let i = choose|i: int| 0 <= i < r.len() && r[i] == f;
                if i == 0 {
                    assert(form[0] == f);
                } else {
                    assert(rest[i - 1] == f);
                    let j = choose|j: int| 0 <= j < t.len() && t[j] == f;
                    assert(form[j + 1] == f);
                }
            }
            if form.contains(f) {
                let i = choose|i: int| 0 <= i < form.len() && form[i] == f;
                if i == 0 {
                    assert(r[0] == f);
                } else {
                    assert(t[i - 1] == f);
                    let j = choose|j: int| 0 <= j < rest.len() && rest[j] == f;
                    assert(r[j + 1] == f);
                }
            }
        }
    }
}

fn set_field(form: &mut Vec<(String, String)>, name: &str, value: &str)
    ensures
        final(form).deep_view() == with_field(old(form).deep_view(), name@, value@),
{
    let ghost all = form.deep_view();
    let mut i: usize = 0;
    assert(all.skip(0) =~= all);
    assert(all.take(0) + with_field(all, name@, value@) =~= with_field(all, name@, value@));
    while i < form.len()
        invariant
            all == form.deep_view(),
            all == old(form).deep_view(),
            i <= form@.len(),
            with_field(all, name@, value@) == all.take(i as int) + with_field(
                all.skip(i as int),
                name@,
                value@,
            ),
        decreases form@.len() - i,
    {
        assert(all.skip(i as int)[0] == form@[i as int].deep_view());
        assert(all.skip(i as int).skip(1) =~= all.skip(i + 1));
        if text::same_text(form[i].0.as_str(), name) {
            form.set(i, (name.to_owned(), value.to_owned()));
            assert(form.deep_view() =~= all.take(i as int) + (seq![(name@, value@)] + all.skip(
                i + 1,
            )));
            return;
        }
        assert(all.take(i + 1) + with_field(all.skip(i + 1), name@, value@) =~= all.take(i as int)
            + (seq![all[i as int]] + with_field(all.skip(i + 1), name@, value@)));
        i = i + 1;
    }
    assert(all.take(i as int) + seq![(name@, value@)] =~= all.push((name@, value@)));
    lists::put(form, (name.to_owned(), value.to_owned()));
}

/// A visit of the exam plan as a guest.
#[derive(Clone, Copy, Debug, PartialEq, Eq, Structural)]
pub struct Session {
    pub faculty: Faculty,
}

/// Why a guest could not log in.
#[derive(Clone, Copy, Debug, PartialEq, Eq, Structural)]
pub enum LoginError {
    /// The page has no button.
    StartNotFound,
    /// The name of the button does not end.
    EndNotFound,
}

impl LoginError {
    /// The error in words.
    pub fn message(self) -> (r: String)
        ensures
            r@ == (match self {
                LoginError::StartNotFound => "form id start not found"@,
                LoginError::EndNotFound => "form id end not found"@,
            }),
    {
        match self {
            LoginError::StartNotFound => "form id start not found".to_owned(),
            LoginError::EndNotFound => "form id end not found".to_owned(),
        }
    }
}

/// The form that picks the faculty.
pub open spec fn faculty_form(fid: Seq<char>) -> Form {
    seq![
        ("javax.faces.partial.ajax"@, "true"@),
        ("javax.faces.source"@, "form:loginGuestProject"@),
        ("javax.faces.partial.execute"@, "form:loginGuestProject"@),
        ("javax.faces.partial.render"@, "form"@),
        ("javax.faces.behavior.event"@, "valueChange"@),
        ("javax.faces.partial.event"@, "change"@),
        ("javax.faces.ViewState"@, "stateless"@),
        ("form"@, "form"@),
        ("form:loginGuestProject_input"@, fid),
        ("form:loginUsername"@, ""@),
        ("form:loginPassword"@, ""@),
    ]
}

/// The form that logs in with the button of a name.
pub open spec fn button_form(fid: Seq<char>, button: Seq<char>) -> Form {
    with_field(
        seq![
            ("jakarta.faces.ViewState"@, "stateless"@),
            ("form"@, "form"@),
            ("form:loginGuestProject_input"@, fid),
        ],
        button,
        ""@,
    )
}

/// The name of the first button of a page.
pub open spec fn button_name(page: Seq<char>) -> Result<Seq<char>, LoginError> {
    match split_first(page, "<button id=\""@) {
        None => Err(LoginError::StartNotFound),
        Some((_, rest)) => match split_first(rest, "\""@) {
            None => Err(LoginError::EndNotFound),
            Some((name, _)) => Ok(name),
        },
    }
}

impl Session {
    /// A visit for the exams of a faculty.
    pub fn create(faculty: Faculty) -> (r: Session)
        ensures
            r.faculty == faculty,
    {
        Session { faculty }
    }

    /// The page at which guests log in.
    pub fn login_url() -> (r: String)
        ensures
            r@ == "https://ptp.othr.de/ptp"@ + "/login/guest.xhtml"@,
    {
        let mut r: String = "https://ptp.othr.de/ptp".to_owned();
        r.append("/login/guest.xhtml");
        r
    }

    /// The page with the exams of all rooms.
    pub fn rooms_url() -> (r: String)
        ensures
            r@ == "https://ptp.othr.de/ptp"@ + "/view/general/rooms.xhtml"@,
    {
        let mut r: String = "https://ptp.othr.de/ptp".to_owned();
        r.append("/view/general/rooms.xhtml");
        r
    }

    /// The form that is sent first: it picks the faculty.
    pub fn faculty_form(&self) -> (r: Vec<(String, String)>)
        ensures
            r.deep_view() == faculty_form(decimal(self.faculty.spec_code() as nat)),
    {
        let fid: String = text::decimal_text(self.faculty.code() as u64);
        let mut r: Vec<(String, String)> = lists::empty();
        lists::put(&mut r, text::pair("javax.faces.partial.ajax", "true"));
        lists::put(&mut r, text::pair("javax.faces.source", "form:loginGuestProject"));
        lists::put(&mut r, text::pair("javax.faces.partial.execute", "form:loginGuestProject"));
        lists::put(&mut r, text::pair("javax.faces.partial.render", "form"));
        lists::put(&mut r, text::pair("javax.faces.behavior.event", "valueChange"));
        lists::put(&mut r, text::pair("javax.faces.partial.event", "change"));
        lists::put(&mut r, text::pair("javax.faces.ViewState", "stateless"));
        lists::put(&mut r, text::pair("form", "form"));
        lists::put(&mut r, text::pair("form:loginGuestProject_input", fid.as_str()));
        lists::put(&mut r, text::pair("form:loginUsername", ""));
        lists::put(&mut r, text::pair("form:loginPassword", ""));
        assert(r.deep_view() =~= faculty_form(fid@));
        r
    }

    /// The form that is sent second: it logs in with the button that the
    /// answer to the first one has.
    pub fn login_form(&self, page: &str) -> (r: Result<Vec<(String, String)>, LoginError>)
        ensures
            match r {
                Ok(form) => button_name(page@) is Ok && form.deep_view() == button_form(
                    decimal(self.faculty.spec_code() as nat),
                    button_name(page@)->Ok_0,
                ),
                Err(e) => button_name(page@) == Err::<Seq<char>, LoginError>(e),
            },
    {
        let rest: String = match text::split_once(page, "<button id=\"") {
            Some((_, rest)) => rest,
            None => {
                return Err(LoginError::StartNotFound);
            },
        };
        let button: String = match text::split_once(rest.as_str(), "\"") {
            Some((name, _)) => name,
            None => {
                return Err(LoginError::EndNotFound);
            },
        };
        let fid: String = text::decimal_text(self.faculty.code() as u64);
        let mut r: Vec<(String, String)> = lists::empty();
        lists::put(&mut r, text::pair("jakarta.faces.ViewState", "stateless"));
        lists::put(&mut r, text::pair("form", "form"));
        lists::put(&mut r, text::pair("form:loginGuestProject_input", fid.as_str()));
        assert(r.deep_view() =~= seq![
            ("jakarta.faces.ViewState"@, "stateless"@),
            ("form"@, "form"@),
            ("form:loginGuestProject_input"@, fid@),
        ]);
        set_field(&mut r, button.as_str(), "");
        Ok(r)
    }
}

// ---------------------------------------------------------------------------
// Reading the plan
// ---------------------------------------------------------------------------

/// What the elements that a selector finds hold: their inner HTML and the value
/// of an attribute.
pub type Found = Seq<(Seq<char>, Option<Seq<char>>)>;

/// What `scraper` finds in a page: for each element that the selector `cell`
/// finds, and for each of the selectors `parts`, the elements that it finds in
/// there.
pub uninterp spec fn selected_parts(
    html: Seq<char>,
    cell: Seq<char>,
    parts: Seq<Seq<char>>,
    attr: Seq<char>,
) -> Seq<Seq<Seq<(Seq<char>, Option<Seq<char>>)>>>;

/// The cells of the plan.
pub open spec fn cell_selector() -> Seq<char> {
    "table.autoTable > tbody > tr.ui-widget-content > td.tableColumn"@
}

/// The parts of a cell: when its exams start, how long they take, their room,
/// the courses and the lectures.
pub open spec fn part_selectors() -> Seq<Seq<char>> {
    seq![
        "div.inner.head:first-child > span:first-child"@,
        "div.inner.head > span > span:last-child > span:last-child"@,
        "div.inner.head:first-child > span:last-child"@,
        "div.inner.head > span > span:first-child"@,
        "div.inner > span > span > a"@,
    ]
}

/// `scraper::Html::parse_document` reads a page and `ElementRef::select` finds
/// elements in it by a `Selector`; `inner_html` and `Element::attr` give what
/// they hold. Each cell found comes with one list for each of the parts.
/// `Selector::parse` reads each of the selectors of the plan.
#[verifier::external_body]
fn select_parts(html: &str, cell: &str, parts: &Vec<String>, attr: &str) -> (r: Vec<
    Vec<Vec<(String, Option<String>)>>,
>)
    requires
        cell@ == cell_selector(),
        parts.deep_view() == part_selectors(),
    ensures
        r.deep_view() == selected_parts(html@, cell@, parts.deep_view(), attr@),
        forall|i: int|
            0 <= i < r.deep_view().len() ==> (#[trigger] r.deep_view()[i]).len() == parts@.len(),
{
    let cell = Selector::parse(cell).unwrap();
    let parts: Vec<Selector> = parts.iter().map(|p| Selector::parse(p).unwrap()).collect();
    let held = |e: ElementRef| (e.inner_html(), e.value().attr(attr).map(str::to_owned));
    let found = |c: ElementRef, p: &Selector| c.select(p).map(held).collect();
    let cells = |c: ElementRef| parts.iter().map(|p| found(c, p)).collect();
    Html::parse_document(html).select(&cell).map(cells).collect()
}

/// The cells of the plan that a page shows.
pub open spec fn plan_cells(html: Seq<char>) -> Seq<Seq<Found>> {
    selected_parts(html, cell_selector(), part_selectors(), "title"@)
}

/// How the start of an exam is written, once the year has been added.
pub open spec fn exam_format() -> Seq<char> {
    "%d.%m., %H:%M %Y"@
}

/// The start of an exam as it is written, without the weekday and with the year.
pub open spec fn exam_date_text(text: Seq<char>, year: int) -> Seq<char> {
    let date = match split_first(text, ";"@) {
        Some((_, date)) => date,
        None => text,
    };
    trimmed(date) + " "@ + signed_decimal(year)
}

/// When the exams of a cell start, on the wall clock.
pub open spec fn cell_start(cell: Seq<Found>, year: int) -> Option<(int, int)> {
    if cell[0].len() == 0 || trimmed(cell[0][0].0).len() == 0 {
        None
    } else {
        parsed_wall(exam_date_text(cell[0][0].0, year), exam_format())
    }
}

/// How many minutes the exams of a cell take. A narrow no-break space stands
/// between the number and its unit.
pub open spec fn cell_minutes(cell: Seq<Found>) -> Option<int> {
    if cell[1].len() == 0 {
        None
    } else {
        match split_first(trimmed(cell[1][0].0), "\u{202F}"@) {
            Some((time, _)) => in_range(
                signed_number(trimmed(without_prefixes(time, "("@))),
                i64::MIN as int,
                i64::MAX as int,
            ),
            None => None,
        }
    }
}

/// The room of a cell.
pub open spec fn cell_room(cell: Seq<Found>) -> Seq<char> {
    replaced(trimmed(cell[2][0].0), "-Foyer"@, "000"@)
}

/// An exam of a cell.
pub open spec fn cell_exam(
    cell: Seq<Found>,
    i: int,
    start: DateTime,
    minutes: int,
) -> TimeEntryView {
    TimeEntryView {
        title: match cell[4][i].1 {
            Some(title) => after_words(title, 3),
            None => Seq::empty(),
        },
        abbr: trimmed(cell[4][i].0),
        time_start: start,
        time_end: Instant { secs: (start.at.secs + 60 * minutes) as i64, nanos: start.at.nanos },
        locations: seq![cell_room(cell)],
        courses: seq![trimmed(cell[3][i].0)],
        is_exam: true,
    }
}

/// Why the plan could not be read.
#[derive(Clone, Copy, Debug, PartialEq, Eq, Structural)]
pub enum PlanError {
    /// An exam ends at no time of the calendar.
    OutOfRange,
}

/// The exams of a cell, which start at `start`: one for each course that has a
/// lecture, where the cell has a length and a room.
pub open spec fn cell_exams(cell: Seq<Found>, start: DateTime) -> Result<
    Seq<TimeEntryView>,
    PlanError,
> {
    match cell_minutes(cell) {
        None => Ok(Seq::empty()),
        Some(minutes) => if !in_span(start.at.secs + 60 * minutes) {
            Err(PlanError::OutOfRange)
        } else if cell[2].len() == 0 {
            Ok(Seq::empty())
        } else {
            Ok(
                Seq::new(
                    if cell[3].len() <= cell[4].len() {
                        cell[3].len()
                    } else {
                        cell[4].len()
                    },
                    |i: int| cell_exam(cell, i, start, minutes),
                ),
            )
        },
    }
}

/// Whether two entries are of one exam: of one start, abbreviation and course.
pub open spec fn same_exam(a: TimeEntryView, b: TimeEntryView) -> bool {
    a.time_start.at == b.time_start.at && a.abbr == b.abbr && a.courses[0] == b.courses[0]
}

/// The exams `s` with one more: where it is there already, its locations are added.
pub open spec fn with_exam(s: Seq<TimeEntryView>, e: TimeEntryView) -> Seq<TimeEntryView>
    decreases s.len(),
{
    if s.len() == 0 {
        seq![e]
    } else if same_exam(s[0], e) {
        seq![TimeEntryView { locations: with_names(s[0].locations, e.locations), ..s[0] }]
            + s.skip(1)
    } else {
        seq![s[0]] + with_exam(s.skip(1), e)
    }
}

/// The exams `s` with each of `es`.
pub open spec fn with_exams(s: Seq<TimeEntryView>, es: Seq<TimeEntryView>) -> Seq<TimeEntryView>
    decreases es.len(),
{
    if es.len() == 0 {
        s
    } else {
        with_exam(with_exams(s, es.drop_last()), es.last())
    }
}

/// The exams of all cells, where `starts` holds the points in time at which
/// those of each cell start, if they are known.
pub open spec fn plan_exams(cells: Seq<Seq<Found>>, starts: Seq<Option<DateTime>>) -> Result<
    Seq<TimeEntryView>,
    PlanError,
>
    decreases cells.len(),
{
    if cells.len() == 0 {
        Ok(Seq::empty())
    } else {
        match plan_exams(cells.drop_last(), starts.drop_last()) {
            Err(e) => Err(e),
            Ok(s) => match starts.last() {
                None => Ok(s),
                Some(start) => match cell_exams(cells.last(), start) {
                    Err(e) => Err(e),
                    Ok(es) => Ok(with_exams(s, es)),
                },
            },
        }
    }
}

/// Whether `start` can be the point in time at which the exams of a cell start:
/// what the machine's time zone gives for the time that the cell says. The wall
/// clock then shows that time.
pub open spec fn start_fits(cell: Seq<Found>, year: int, start: Option<DateTime>) -> bool {
    &&& start matches Some(t) ==> match cell_start(cell, year) {
        Some((secs, nanos)) => t.valid() && t.wall() == secs && t.at.nanos == nanos && nanos == 0,
        None => false,
    }
    &&& cell_start(cell, year) matches Some((secs, nanos)) ==> gives_single(
        WallTime { secs: secs as i64, nanos: nanos as u32 },
        start,
    )
}

/// Whether `starts` can be the points in time at which the exams of the cells start.
pub open spec fn starts_fit(
    cells: Seq<Seq<Found>>,
    year: int,
    starts: Seq<Option<DateTime>>,
) -> bool {
    &&& starts.len() == cells.len()
    &&& forall|i: int|
        0 <= i < cells.len() ==> start_fits(#[trigger] cells[i], year, #[trigger] starts[i])
}

/// Whether a result holds the entries, or the error, of `value`.
pub open spec fn comes_to(
    result: Result<Vec<TimeEntry>, PlanError>,
    value: Result<Seq<TimeEntryView>, PlanError>,
) -> bool {
    match (result, value) {
        (Ok(entries), Ok(views)) => entries.deep_view() == views,
        (Err(e), Err(f)) => e == f,
        _ => false,
    }
}

/// Whether a result is what the cells come to, for some points in time at which
/// their exams can start.
pub open spec fn is_plan(
    cells: Seq<Seq<Found>>,
    year: int,
    result: Result<Vec<TimeEntry>, PlanError>,
) -> bool {
    exists|starts: Seq<Option<DateTime>>| #[trigger]
        starts_fit(cells, year, starts) && comes_to(result, plan_exams(cells, starts))
}

/// A cell of the plan.
pub type Cell = Vec<Vec<(String, Option<String>)>>;

fn read_start(cell: &Cell, year: i32) -> (r: Option<WallTime>)
    requires
        cell@.len() == 5,
    ensures
        match r {
            Some(w) => cell_start(cell.deep_view(), year as int) == Some(
                (w.secs as int, w.nanos as int),
            ) && w.valid() && w.nanos == 0,
            None => cell_start(cell.deep_view(), year as int) is None,
        },
{
    let ghost c = cell.deep_view();
    assert(c[0] == cell@[0].deep_view());
    if cell[0].len() == 0 {
        return None;
    }
    assert(c[0][0] == cell@[0]@[0].deep_view());
    let given: &str = cell[0][0].0.as_str();
    if text::trim(given).as_str().is_empty() {
        return None;
    }
    let date: String = match text::split_once(given, ";") {
        Some((_, date)) => date,
        None => given.to_owned(),
    };
    let mut full: String = text::trim(date.as_str());
    full.append(" ");
    let digits: String = text::signed_decimal_text(year as i64);
    full.append(digits.as_str());
    assert(full@ == exam_date_text(given@, year as int));
    parse_wall(full.as_str(), "%d.%m., %H:%M %Y")
}

fn read_minutes(cell: &Cell) -> (r: Option<i64>)
    requires
        cell@.len() == 5,
    ensures
        match r {
            Some(n) => cell_minutes(cell.deep_view()) == Some(n as int),
            None => cell_minutes(cell.deep_view()) is None,
        },
{
    let ghost c = cell.deep_view();
    assert(c[1] == cell@[1].deep_view());
    if cell[1].len() == 0 {
        return None;
    }
    assert(c[1][0] == cell@[1]@[0].deep_view());
    let given: String = text::trim(cell[1][0].0.as_str());
    match text::split_once(given.as_str(), "\u{202F}") {
        Some((time, _)) => {
            let bare: String = text::trim_start_matches(time.as_str(), "(");
            let number: String = text::trim(bare.as_str());
            text::parse_i64(number.as_str())
        },
        None => None,
    }
}

fn one_name(name: String) -> (r: NameSet)
    ensures
        r.deep_view() == seq![name@],
{
    let mut r: NameSet = NameSet::new();
    let ghost x = name@;
    r.insert(name);
    proof {
        let none = Seq::<Seq<char>>::empty();
        assert(!none.contains(x));
        assert(with_name(none, x) =~= seq![x]);
    }
    r
}

/// The exams of a cell, which start at a point in time.
pub fn read_cell(cell: &Cell, start: DateTime) -> (r: Result<Vec<TimeEntry>, PlanError>)
    requires
        cell@.len() == 5,
        start.valid(),
        ordinary(start.at),
    ensures
        comes_to(r, cell_exams(cell.deep_view(), start)),
        r matches Ok(exams) ==> all_valid(exams.deep_view()) && all_single(exams.deep_view()),
{
    let ghost c = cell.deep_view();
    let minutes: i64 = match read_minutes(cell) {
        Some(n) => n,
        None => {
            return Ok(lists::empty());
        },
    };
    let end: Instant = match start.at.plus_minutes(minutes) {
        Some(t) => t,
        None => {
            return Err(PlanError::OutOfRange);
        },
    };
    assert(c[2] == cell@[2].deep_view());
    assert(c[3] == cell@[3].deep_view());
    assert(c[4] == cell@[4].deep_view());
    if cell[2].len() == 0 {
        return Ok(lists::empty());
    }
    assert(c[2][0] == cell@[2]@[0].deep_view());
    let trimmed_room: String = text::trim(cell[2][0].0.as_str());
    proof {
        reveal_strlit("-Foyer");
    }
    let room: String = text::replace(trimmed_room.as_str(), "-Foyer", "000");
    let n: usize = if cell[3].len() <= cell[4].len() {
        cell[3].len()
    } else {
        cell[4].len()
    };
    let ghost all = Seq::new(n as nat, |i: int| cell_exam(c, i, start, minutes as int));
    let mut r: Vec<TimeEntry> = lists::empty();
    let mut i: usize = 0;
    assert(all.take(0) =~= Seq::empty());
    while i < n
        invariant
            c == cell.deep_view(),
            cell@.len() == 5,
            c[2].len() > 0,
            c[3] == cell@[3].deep_view(),
            c[4] == cell@[4].deep_view(),
            n <= cell@[3]@.len(),
            n <= cell@[4]@.len(),
            i <= n,
            room@ == cell_room(c),
            start.valid(),
            ordinary(start.at),
            ordinary(end),
            end == (Instant {
                secs: (start.at.secs + 60 * minutes) as i64,
                nanos: start.at.nanos,
            }),
            all == Seq::new(n as nat, |i: int| cell_exam(c, i, start, minutes as int)),
            r.deep_view() == all.take(i as int),
            all_valid(r.deep_view()),
            all_single(r.deep_view()),
        decreases n - i,
    {
        assert(c[3][i as int] == cell@[3]@[i as int].deep_view());
        assert(c[4][i as int] == cell@[4]@[i as int].deep_view());
        let title: String = match &cell[4][i].1 {
            Some(title) => text::skip_words(title.as_str(), 3),
            None => String::new(),
        };
        let e: TimeEntry = TimeEntry {
            title,
            abbr: text::trim(cell[4][i].0.as_str()),
            time_start: start,
            time_end: end,
            locations: one_name(room.clone()),
            courses: one_name(text::trim(cell[3][i].0.as_str())),
            is_exam: true,
        };
        assert(title_of(c[4][i as int].1) == e.title@);
        assert(e.deep_view() =~= cell_exam(c, i as int, start, minutes as int));
        assert(e.deep_view() == all[i as int]);
        lists::put(&mut r, e);
        assert(all.take(i + 1) =~= all.take(i as int).push(all[i as int]));
        i = i + 1;
    }
    assert(all.take(i as int) =~= all);
    Ok(r)
}

spec fn title_of(attr: Option<Seq<char>>) -> Seq<char> {
    match attr {
        Some(title) => after_words(title, 3),
        None => Seq::empty(),
    }
}

/// Whether each entry has at least one course.
pub open spec fn all_single(s: Seq<TimeEntryView>) -> bool {
    forall|i: int| 0 <= i < s.len() ==> (#[trigger] s[i]).courses.len() > 0
}

proof fn with_exam_is_valid(s: Seq<TimeEntryView>, e: TimeEntryView)
    requires
        all_valid(s),
        all_single(s),
        e.valid(),
        e.courses.len() > 0,
    ensures
        all_valid(with_exam(s, e)),
        all_single(with_exam(s, e)),
    decreases s.len(),
{
    let r = with_exam(s, e);
    if s.len() > 0 {
        let t = s.skip(1);
        assert forall|i: int| 0 <= i < t.len() implies (#[trigger] t[i]).valid()
            && t[i].courses.len() > 0 by {
            assert(t[i] == s[i + 1]);
        }
        with_exam_is_valid(t, e);
        assert(s[0].valid() && s[0].courses.len() > 0);
        assert forall|i: int| 0 <= i < r.len() implies (#[trigger] r[i]).valid()
            && r[i].courses.len() > 0 by {
            if i > 0 {
                if same_exam(s[0], e) {
                    assert(r[i] == t[i - 1]);
                } else {
                    assert(r[i] == with_exam(t, e)[i - 1]);
                }
            }
        }
    }
}

impl TimeEntry {
    fn is_same_exam(&self, other: &TimeEntry) -> (r: bool)
        requires
            self.deep_view().courses.len() > 0,
            other.deep_view().courses.len() > 0,
        ensures
            r == same_exam(self.deep_view(), other.deep_view()),
    {
        let a: &Vec<String> = self.courses.names();
        let b: &Vec<String> = other.courses.names();
        assert(a.deep_view()[0] == a@[0]@);
        assert(b.deep_view()[0] == b@[0]@);
        self.time_start.at == other.time_start.at && text::same_text(
            self.abbr.as_str(),
            other.abbr.as_str(),
        ) && text::same_text(a[0].as_str(), b[0].as_str())
    }
}

fn add_exam(exams: &mut Vec<TimeEntry>, e: TimeEntry)
    requires
        all_single(old(exams).deep_view()),
        e.deep_view().courses.len() > 0,
    ensures
        final(exams).deep_view() == with_exam(old(exams).deep_view(), e.deep_view()),
{
    let ghost all = exams.deep_view();
    let ghost x = e.deep_view();
    let mut i: usize = 0;
    assert(all.skip(0) =~= all);
    assert(all.take(0) + with_exam(all, x) =~= with_exam(all, x));
    while i < exams.len()
        invariant
            all == exams.deep_view(),
            all == old(exams).deep_view(),
            x == e.deep_view(),
            x.courses.len() > 0,
            all_single(all),
            i <= exams@.len(),
            with_exam(all, x) == all.take(i as int) + with_exam(all.skip(i as int), x),
        decreases exams@.len() - i,
    {
        assert(all[i as int] == exams@[i as int].deep_view());
        assert(all.skip(i as int)[0] == all[i as int]);
        assert(all.skip(i as int).skip(1) =~= all.skip(i + 1));
        assert(all[i as int].courses.len() > 0);
        if exams[i].is_same_exam(&e) {
            let mut known: TimeEntry = exams[i].clone();
            let added: Vec<String> = crate::names::copy_names(e.locations.names());
            known.locations.extend(added);
            let ghost merged = known.deep_view();
            assert(merged == (TimeEntryView {
                locations: with_names(all[i as int].locations, x.locations),
                ..all[i as int]
            }));
            exams.set(i, known);
            assert(exams.deep_view() =~= all.take(i as int) + (seq![merged] + all.skip(i + 1)));
            return;
        }
        assert(all.take(i + 1) + with_exam(all.skip(i + 1), x) =~= all.take(i as int) + (seq![
            all[i as int],
        ] + with_exam(all.skip(i + 1), x)));
        i = i + 1;
    }
    assert(all.take(i as int) + seq![x] =~= all.push(x));
    lists::put(exams, e);
}

fn add_exams(exams: &mut Vec<TimeEntry>, new: Vec<TimeEntry>)
    requires
        all_valid(old(exams).deep_view()),
        all_single(old(exams).deep_view()),
        all_valid(new.deep_view()),
        all_single(new.deep_view()),
    ensures
        final(exams).deep_view() == with_exams(old(exams).deep_view(), new.deep_view()),
        all_valid(final(exams).deep_view()),
        all_single(final(exams).deep_view()),
{
    let ghost es = new.deep_view();
    let ghost before = exams.deep_view();
    let mut i: usize = 0;
    while i < new.len()
        invariant
            es == new.deep_view(),
            all_valid(es),
            all_single(es),
            i <= new@.len(),
            exams.deep_view() == with_exams(before, es.take(i as int)),
            all_valid(exams.deep_view()),
            all_single(exams.deep_view()),
        decreases new@.len() - i,
    {
        assert(es[i as int] == new@[i as int].deep_view());
        assert(es[i as int].valid() && es[i as int].courses.len() > 0);
        proof {
            with_exam_is_valid(exams.deep_view(), es[i as int]);
            assert(es.take(i + 1).drop_last() =~= es.take(i as int));
        }
        add_exam(exams, new[i].clone());
        i = i + 1;
    }
    assert(es.take(i as int) =~= es);
}

/// The exams of all cells, which start at known points in time.
pub fn read_plan(cells: &Vec<Cell>, starts: &Vec<Option<DateTime>>) -> (r: Result<
    Vec<TimeEntry>,
    PlanError,
>)
    requires
        starts@.len() == cells@.len(),
        forall|i: int| 0 <= i < cells@.len() ==> (#[trigger] cells@[i])@.len() == 5,
        forall|i: int|
            0 <= i < starts@.len() ==> ((#[trigger] starts@[i]) matches Some(t) ==> t.valid()
                && ordinary(t.at)),
    ensures
        comes_to(r, plan_exams(cells.deep_view(), starts@)),
        r matches Ok(exams) ==> all_valid(exams.deep_view()),
{
    let ghost all = cells.deep_view();
    let mut r: Vec<TimeEntry> = lists::empty();
    let mut i: usize = 0;
    while i < cells.len()
        invariant
            all == cells.deep_view(),
            starts@.len() == cells@.len(),
            forall|i: int| 0 <= i < cells@.len() ==> (#[trigger] cells@[i])@.len() == 5,
            forall|i: int|
                0 <= i < starts@.len() ==> ((#[trigger] starts@[i]) matches Some(t) ==> t.valid()
                    && ordinary(t.at)),
            i <= cells@.len(),
            plan_exams(all.take(i as int), starts@.take(i as int)) == Ok::<
                Seq<TimeEntryView>,
                PlanError,
            >(r.deep_view()),
            all_valid(r.deep_view()),
            all_single(r.deep_view()),
        decreases cells@.len() - i,
    {
        proof {
            assert(all.take(i + 1).drop_last() =~= all.take(i as int));
            assert(starts@.take(i + 1).drop_last() =~= starts@.take(i as int));
            assert(all.take(i + 1).last() == cells@[i as int].deep_view());
            assert(starts@.take(i + 1).last() == starts@[i as int]);
        }
        match starts[i] {
            None => {},
            Some(start) => match read_cell(&cells[i], start) {
                Ok(exams) => {
                    add_exams(&mut r, exams);
                },
                Err(e) => {
                    proof {
                        failure_stays(all, starts@, i + 1);
                    }
                    return Err(e);
                },
            },
        }
        i = i + 1;
    }
    assert(all.take(i as int) =~= all);
    assert(starts@.take(i as int) =~= starts@);
    Ok(r)
}

proof fn failure_stays(cells: Seq<Seq<Found>>, starts: Seq<Option<DateTime>>, n: int)
    requires
        0 <= n <= cells.len(),
        starts.len() == cells.len(),
        plan_exams(cells.take(n), starts.take(n)) is Err,
    ensures
        plan_exams(cells, starts) == plan_exams(cells.take(n), starts.take(n)),
    decreases cells.len(),
{
    if n == cells.len() {
        assert(cells.take(n) =~= cells);
        assert(starts.take(n) =~= starts);
    } else {
        assert(cells.drop_last().take(n) =~= cells.take(n));
        assert(starts.drop_last().take(n) =~= starts.take(n));
        failure_stays(cells.drop_last(), starts.drop_last(), n);
    }
}

fn plan_selectors() -> (r: Vec<String>)
    ensures
        r.deep_view() == part_selectors(),
        r@.len() == 5,
{
    let mut r: Vec<String> = lists::empty();
    lists::put(&mut r, "div.inner.head:first-child > span:first-child".to_owned());
    lists::put(&mut r, "div.inner.head > span > span:last-child > span:last-child".to_owned());
    lists::put(&mut r, "div.inner.head:first-child > span:last-child".to_owned());
    lists::put(&mut r, "div.inner.head > span > span:first-child".to_owned());
    lists::put(&mut r, "div.inner > span > span > a".to_owned());
    assert(r.deep_view() =~= part_selectors());
    r
}

impl Session {
    /// The exams that a page of the plan shows, all of them in one year. The
    /// points in time at which they start are those that the machine's time
    /// zone gives, and cells for which it gives none are passed over.
    pub fn fetch(&self, html: &str, year: i32) -> (r: Result<Vec<TimeEntry>, PlanError>)
        ensures
            is_plan(plan_cells(html@), year as int, r),
            r matches Ok(exams) ==> all_valid(exams.deep_view()),
    {
        let parts: Vec<String> = plan_selectors();
        let cells: Vec<Cell> = select_parts(
            html,
            "table.autoTable > tbody > tr.ui-widget-content > td.tableColumn",
            &parts,
            "title",
        );
        let ghost all = cells.deep_view();
        assert forall|i: int| 0 <= i < cells@.len() implies (#[trigger] cells@[i])@.len() == 5 by {
            assert(all[i].len() == 5);
            assert(all[i] == cells@[i].deep_view());
        }
        let mut starts: Vec<Option<DateTime>> = Vec::new();
        let mut i: usize = 0;
        while i < cells.len()
            invariant
                all == cells.deep_view(),
                forall|i: int| 0 <= i < cells@.len() ==> (#[trigger] cells@[i])@.len() == 5,
                i <= cells@.len(),
                starts@.len() == i,
                forall|j: int|
                    0 <= j < i ==> start_fits(
                        #[trigger] all[j],
                        year as int,
                        #[trigger] starts@[j],
                    ),
            decreases cells@.len() - i,
        {
            assert(all[i as int] == cells@[i as int].deep_view());
            let start: Option<DateTime> = match read_start(&cells[i], year) {
                Some(wall) => single_at(wall),
                None => None,
            };
            assert(start_fits(all[i as int], year as int, start));
            starts.push(start);
            i = i + 1;
        }
        assert(starts_fit(all, year as int, starts@));
        assert forall|i: int| 0 <= i < starts@.len() implies ((#[trigger] starts@[i]) matches Some(
            t,
        ) ==> t.valid() && ordinary(t.at)) by {
            assert(start_fits(all[i], year as int, starts@[i]));
        }
        let r: Result<Vec<TimeEntry>, PlanError> = read_plan(&cells, &starts);
        assert(is_plan(all, year as int, r));
        r
    }
}

// ---------------------------------------------------------------------------
// Laws of the plan
// ---------------------------------------------------------------------------

/// Whether no two entries are of one exam.
pub open spec fn all_different(s: Seq<TimeEntryView>) -> bool {
    forall|i: int, j: int|
        0 <= i < j < s.len() ==> !same_exam(#[trigger] s[i], #[trigger] s[j])
}

/// An exam that is added is there afterwards, with the locations it came with.
/// All exams that were there are still there, in their places and with the
/// locations they had.
pub proof fn exam_is_added(s: Seq<TimeEntryView>, e: TimeEntryView)
    ensures
        exists|i: int|
            0 <= i < with_exam(s, e).len() && same_exam(#[trigger] with_exam(s, e)[i], e)
                && forall|n: Seq<char>|
                e.locations.contains(n) ==> with_exam(s, e)[i].locations.contains(n),
        s.len() <= with_exam(s, e).len() <= s.len() + 1,
        forall|i: int|
            0 <= i < s.len() ==> same_exam(s[i], #[trigger] with_exam(s, e)[i]) && forall|
                n: Seq<char>,
            |
                s[i].locations.contains(n) ==> with_exam(s, e)[i].locations.contains(n),
        forall|i: int| s.len() <= i < with_exam(s, e).len() ==> #[trigger] with_exam(s, e)[i] == e,
    decreases s.len(),
{
    let r = with_exam(s, e);
    if s.len() == 0 {
        assert(r[0] == e);
    } else if same_exam(s[0], e) {
        assert forall|n: Seq<char>| e.locations.contains(n) implies r[0].locations.contains(n) by {
            with_names_adds(s[0].locations, e.locations, n);
        }
        assert(same_exam(r[0], e));
        assert forall|i: int| 0 <= i < s.len() implies same_exam(s[i], #[trigger] r[i]) && forall|
            n: Seq<char>,
        |
            s[i].locations.contains(n) ==> r[i].locations.contains(n) by {
            if i > 0 {
                assert(r[i] == s[i]);
            } else {
                assert forall|n: Seq<char>| s[0].locations.contains(n) implies r[0].locations.contains(
                    n,
                ) by {
                    with_names_adds(s[0].locations, e.locations, n);
                }
            }
        }
    } else {
        let t = s.skip(1);
        let rest = with_exam(t, e);
        exam_is_added(t, e);
        let k = choose|i: int|
            0 <= i < rest.len() && same_exam(#[trigger] rest[i], e) && forall|n: Seq<char>|
                e.locations.contains(n) ==> rest[i].locations.contains(n);
        assert(r[k + 1] == rest[k]);
        assert forall|i: int| 0 <= i < s.len() implies same_exam(s[i], #[trigger] r[i]) && forall|
            n: Seq<char>,
        |
            s[i].locations.contains(n) ==> r[i].locations.contains(n) by {
            if i > 0 {
                assert(r[i] == rest[i - 1]);
                assert(t[i - 1] == s[i]);
            }
        }
        assert forall|i: int| s.len() <= i < r.len() implies #[trigger] r[i] == e by {
            assert(r[i] == rest[i - 1]);
        }
    }
}

proof fn new_exam_is_new(s: Seq<TimeEntryView>, e: TimeEntryView)
    ensures
        with_exam(s, e).len() > s.len() ==> forall|i: int|
            0 <= i < s.len() ==> !same_exam(#[trigger] s[i], e),
    decreases s.len(),
{
    if s.len() > 0 && !same_exam(s[0], e) {
        new_exam_is_new(s.skip(1), e);
        if with_exam(s, e).len() > s.len() {
            assert forall|i: int| 0 <= i < s.len() implies !same_exam(#[trigger] s[i], e) by {
                if i > 0 {
                    assert(s.skip(1)[i - 1] == s[i]);
                }
            }
        }
    }
}

/// Adding an exam to different exams leaves them all different.
pub proof fn exams_stay_different(s: Seq<TimeEntryView>, e: TimeEntryView)
    requires
        all_different(s),
    ensures
        all_different(with_exam(s, e)),
{
    let r = with_exam(s, e);
    exam_is_added(s, e);
    new_exam_is_new(s, e);
    assert forall|i: int, j: int| 0 <= i < j < r.len() implies !same_exam(
        #[trigger] r[i],
        #[trigger] r[j],
    ) by {
        assert(same_exam(s[i], r[i]));
        if j < s.len() {
            assert(same_exam(s[j], r[j]));
            assert(!same_exam(s[i], s[j]));
        } else {
            assert(!same_exam(s[i], e));
        }
    }
}

/// No exam stands in the plan twice.
pub proof fn plan_has_no_exam_twice(cells: Seq<Seq<Found>>, starts: Seq<Option<DateTime>>)
    requires
        starts.len() == cells.len(),
    ensures
        plan_exams(cells, starts) matches Ok(s) ==> all_different(s),
    decreases cells.len(),
{
    if cells.len() > 0 {
        plan_has_no_exam_twice(cells.drop_last(), starts.drop_last());
        if let Ok(s) = plan_exams(cells.drop_last(), starts.drop_last()) {
            if let Some(start) = starts.last() {
                if let Ok(es) = cell_exams(cells.last(), start) {
                    all_stay_different(s, es);
                }
            }
        }
    }
}

proof fn all_stay_different(s: Seq<TimeEntryView>, es: Seq<TimeEntryView>)
    requires
        all_different(s),
    ensures
        all_different(with_exams(s, es)),
    decreases es.len(),
{
    if es.len() > 0 {
        all_stay_different(s, es.drop_last());
        exams_stay_different(with_exams(s, es.drop_last()), es.last());
    }
}

/// Whether `e` is one of the exams of the cell `i`.
pub open spec fn is_cell_exam(
    cells: Seq<Seq<Found>>,
    starts: Seq<Option<DateTime>>,
    i: int,
    e: TimeEntryView,
) -> bool {
    0 <= i < cells.len() && match starts[i] {
        None => false,
        Some(start) => match cell_exams(cells[i], start) {
            Err(_) => false,
            Ok(es) => es.contains(e),
        },
    }
}

/// Whether the exam `e` stands in `s`, with all of its locations.
pub open spec fn stands_in(s: Seq<TimeEntryView>, e: TimeEntryView) -> bool {
    exists|m: int|
        0 <= m < s.len() && same_exam(#[trigger] s[m], e) && forall|n: Seq<char>|
            e.locations.contains(n) ==> s[m].locations.contains(n)
}

/// Whether an exam of some cell is of the same exam as `x` and at the location `n`.
pub open spec fn takes_place_at(
    cells: Seq<Seq<Found>>,
    starts: Seq<Option<DateTime>>,
    x: TimeEntryView,
    n: Seq<char>,
) -> bool {
    exists|i: int, e: TimeEntryView| #[trigger]
        is_cell_exam(cells, starts, i, e) && same_exam(x, e) && e.locations.contains(n)
}

/// Whether `x` is an exam of some cell, save for the locations, and each of its
/// locations comes from a cell.
pub open spec fn comes_from_cells(
    cells: Seq<Seq<Found>>,
    starts: Seq<Option<DateTime>>,
    x: TimeEntryView,
) -> bool {
    &&& exists|i: int, e: TimeEntryView| #[trigger]
        is_cell_exam(cells, starts, i, e) && x == (TimeEntryView { locations: x.locations, ..e })
    &&& forall|n: Seq<char>| #[trigger]
        x.locations.contains(n) ==> takes_place_at(cells, starts, x, n)
}

proof fn exams_stay(s: Seq<TimeEntryView>, es: Seq<TimeEntryView>, e: TimeEntryView)
    requires
        stands_in(s, e) || es.contains(e),
    ensures
        stands_in(with_exams(s, es), e),
    decreases es.len(),
{
    if es.len() > 0 {
        let before = with_exams(s, es.drop_last());
        exam_is_added(before, es.last());
        if e != es.last() {
            if es.contains(e) {
                let j = choose|j: int| 0 <= j < es.len() && es[j] == e;
                assert(es.drop_last()[j] == e);
            }
            exams_stay(s, es.drop_last(), e);
            let m = choose|m: int|
                0 <= m < before.len() && same_exam(#[trigger] before[m], e) && forall|n: Seq<char>|
                    e.locations.contains(n) ==> before[m].locations.contains(n);
            assert(same_exam(with_exam(before, es.last())[m], e));
        }
    }
}

/// Each exam of each cell stands in the plan, with the room of the cell among
/// its locations.
pub proof fn plan_has_every_exam(
    cells: Seq<Seq<Found>>,
    starts: Seq<Option<DateTime>>,
    i: int,
    e: TimeEntryView,
)
    requires
        starts.len() == cells.len(),
        is_cell_exam(cells, starts, i, e),
    ensures
        e.locations == seq![cell_room(cells[i])],
        plan_exams(cells, starts) matches Ok(s) ==> stands_in(s, e),
    decreases cells.len(),
{
    let es = cell_exams(cells[i], starts[i]->0)->Ok_0;
    let k = choose|k: int| 0 <= k < es.len() && es[k] == e;
    assert(es[k].locations == seq![cell_room(cells[i])]);
    if plan_exams(cells, starts) is Ok {
        let s = plan_exams(cells.drop_last(), starts.drop_last())->Ok_0;
        if i < cells.len() - 1 {
            plan_has_every_exam(cells.drop_last(), starts.drop_last(), i, e);
        }
        if let Some(start) = starts.last() {
            exams_stay(s, cell_exams(cells.last(), start)->Ok_0, e);
        }
    }
}

proof fn exam_comes_from_cells(
    cells: Seq<Seq<Found>>,
    starts: Seq<Option<DateTime>>,
    s: Seq<TimeEntryView>,
    i: int,
    e: TimeEntryView,
)
    requires
        forall|m: int| 0 <= m < s.len() ==> comes_from_cells(cells, starts, #[trigger] s[m]),
        is_cell_exam(cells, starts, i, e),
    ensures
        forall|m: int|
            0 <= m < with_exam(s, e).len() ==> comes_from_cells(
                cells,
                starts,
                #[trigger] with_exam(s, e)[m],
            ),
    decreases s.len(),
{
    let r = with_exam(s, e);
    assert forall|m: int| 0 <= m < r.len() implies comes_from_cells(
        cells,
        starts,
        #[trigger] r[m],
    ) by {
        if s.len() == 0 {
            assert(r[m] == e);
            assert(e == (TimeEntryView { locations: e.locations, ..e }));
        } else if same_exam(s[0], e) {
            if m > 0 {
                assert(r[m] == s[m]);
            } else {
                let x = r[0];
                assert(comes_from_cells(cells, starts, s[0]));
                let (j, f) = choose|j: int, f: TimeEntryView| #[trigger]
                    is_cell_exam(cells, starts, j, f) && s[0] == (TimeEntryView {
                        locations: s[0].locations,
                        ..f
                    });
                assert(x == (TimeEntryView { locations: x.locations, ..f }));
                assert forall|n: Seq<char>| #[trigger]
                    x.locations.contains(n) implies takes_place_at(cells, starts, x, n) by {
                    with_names_adds(s[0].locations, e.locations, n);
                    if s[0].locations.contains(n) {
                        assert(takes_place_at(cells, starts, s[0], n));
                        let (j, f) = choose|j: int, f: TimeEntryView| #[trigger]
                            is_cell_exam(cells, starts, j, f) && same_exam(s[0], f)
                                && f.locations.contains(n);
                        assert(same_exam(x, f));
                    } else {
                        assert(same_exam(x, e));
                    }
                }
            }
        } else {
            let t = s.skip(1);
            assert forall|m: int| 0 <= m < t.len() implies comes_from_cells(
                cells,
                starts,
                #[trigger] t[m],
            ) by {
                assert(t[m] == s[m + 1]);
            }
            exam_comes_from_cells(cells, starts, t, i, e);
            if m == 0 {
                assert(r[0] == s[0]);
            } else {
                assert(r[m] == with_exam(t, e)[m - 1]);
            }
        }
    }
}

proof fn exams_come_from_cells(
    cells: Seq<Seq<Found>>,
    starts: Seq<Option<DateTime>>,
    s: Seq<TimeEntryView>,
    i: int,
    es: Seq<TimeEntryView>,
)
    requires
        forall|m: int| 0 <= m < s.len() ==> comes_from_cells(cells, starts, #[trigger] s[m]),
        forall|k: int| 0 <= k < es.len() ==> is_cell_exam(cells, starts, i, #[trigger] es[k]),
    ensures
        forall|m: int|
            0 <= m < with_exams(s, es).len() ==> comes_from_cells(
                cells,
                starts,
                #[trigger] with_exams(s, es)[m],
            ),
    decreases es.len(),
{
    if es.len() > 0 {
        assert forall|k: int| 0 <= k < es.drop_last().len() implies is_cell_exam(
            cells,
            starts,
            i,
            #[trigger] es.drop_last()[k],
        ) by {
            assert(es.drop_last()[k] == es[k]);
        }
        exams_come_from_cells(cells, starts, s, i, es.drop_last());
        assert(is_cell_exam(cells, starts, i, es[es.len() - 1]));
        exam_comes_from_cells(cells, starts, with_exams(s, es.drop_last()), i, es.last());
    }
}

proof fn more_cells_keep_exams(
    cells: Seq<Seq<Found>>,
    starts: Seq<Option<DateTime>>,
    x: TimeEntryView,
)
    requires
        cells.len() > 0,
        starts.len() == cells.len(),
        comes_from_cells(cells.drop_last(), starts.drop_last(), x),
    ensures
        comes_from_cells(cells, starts, x),
{
    let c = cells.drop_last();
    let t = starts.drop_last();
    let (j, f) = choose|j: int, f: TimeEntryView| #[trigger]
        is_cell_exam(c, t, j, f) && x == (TimeEntryView { locations: x.locations, ..f });
    assert(is_cell_exam(cells, starts, j, f));
    assert forall|n: Seq<char>| #[trigger] x.locations.contains(n) implies takes_place_at(
        cells,
        starts,
        x,
        n,
    ) by {
        assert(takes_place_at(c, t, x, n));
        let (j, f) = choose|j: int, f: TimeEntryView| #[trigger]
            is_cell_exam(c, t, j, f) && same_exam(x, f) && f.locations.contains(n);
        assert(is_cell_exam(cells, starts, j, f));
    }
}

/// Nothing stands in the plan but exams of its cells: each entry is an exam with
/// one course, as a cell shows it, and each of its locations is the room of a
/// cell that shows it.
pub proof fn plan_has_no_other_exam(
    cells: Seq<Seq<Found>>,
    starts: Seq<Option<DateTime>>,
    s: Seq<TimeEntryView>,
    m: int,
)
    requires
        starts.len() == cells.len(),
        plan_exams(cells, starts) == Ok::<Seq<TimeEntryView>, PlanError>(s),
        0 <= m < s.len(),
    ensures
        comes_from_cells(cells, starts, s[m]),
        s[m].is_exam,
        s[m].courses.len() == 1,
    decreases cells.len(),
{
    let before = plan_exams(cells.drop_last(), starts.drop_last())->Ok_0;
    assert forall|k: int| 0 <= k < before.len() implies comes_from_cells(
        cells,
        starts,
        #[trigger] before[k],
    ) by {
        plan_has_no_other_exam(cells.drop_last(), starts.drop_last(), before, k);
        more_cells_keep_exams(cells, starts, before[k]);
    }
    if let Some(start) = starts.last() {
        let es = cell_exams(cells.last(), start)->Ok_0;
        let i = cells.len() - 1;
        assert forall|k: int| 0 <= k < es.len() implies is_cell_exam(
            cells,
            starts,
            i,
            #[trigger] es[k],
        ) by {
            assert(es.contains(es[k]));
        }
        exams_come_from_cells(cells, starts, before, i, es);
    }
    assert(comes_from_cells(cells, starts, s[m]));
    let (j, f) = choose|j: int, f: TimeEntryView| #[trigger]
        is_cell_exam(cells, starts, j, f) && s[m] == (TimeEntryView {
            locations: s[m].locations,
            ..f
        });
    let fs = cell_exams(cells[j], starts[j]->0)->Ok_0;
    let k = choose|k: int| 0 <= k < fs.len() && fs[k] == f;
    assert(fs[k].is_exam && fs[k].courses.len() == 1);
}

// ---------------------------------------------------------------------------
// Laws of reading
// ---------------------------------------------------------------------------

/// Two entries are of one exam if they agree in the start, the abbreviation and the
/// course, and only then; where it takes place does not matter.
pub proof fn exams_agree_in_three_things(a: TimeEntryView, b: TimeEntryView)
    ensures
        a.time_start.at != b.time_start.at || a.abbr != b.abbr || a.courses.first()
            != b.courses.first() ==> !same_exam(a, b),
        a.time_start.at == b.time_start.at && a.abbr == b.abbr && a.courses.first()
            == b.courses.first() ==> same_exam(a, b),
{
}

/// Only the first entry of the same exam changes when one is added, and only in its
/// locations: it then has those of both, and no others.
pub proof fn exams_gain_only_locations(s: Seq<TimeEntryView>, e: TimeEntryView, k: int)
    requires
        0 <= k <= s.len(),
        forall|i: int| 0 <= i < k ==> !same_exam(#[trigger] s[i], e),
        k < s.len() ==> same_exam(s[k], e),
    ensures
        k == s.len() ==> with_exam(s, e) == s.push(e),
        k < s.len() ==> with_exam(s, e).len() == s.len() && with_exam(s, e)[k] == (TimeEntryView {
            locations: with_exam(s, e)[k].locations,
            ..s[k]
        }),
        k < s.len() ==> forall|n: Seq<char>| #[trigger]
            with_exam(s, e)[k].locations.contains(n) <==> s[k].locations.contains(n)
                || e.locations.contains(n),
        forall|i: int| 0 <= i < s.len() && i != k ==> #[trigger] with_exam(s, e)[i] == s[i],
    decreases s.len(),
{
    let r = with_exam(s, e);
    if s.len() == 0 {
        assert(r =~= s.push(e));
    } else if k == 0 {
        assert(r[0] == (TimeEntryView {
            locations: with_names(s[0].locations, e.locations),
            ..s[0]
        }));
        assert forall|n: Seq<char>| #[trigger] r[0].locations.contains(n) <==> s[0].locations.contains(
            n,
        ) || e.locations.contains(n) by {
            with_names_adds(s[0].locations, e.locations, n);
        }
    } else {
        let t = s.skip(1);
        assert(!same_exam(s[0], e));
        assert forall|i: int| 0 <= i < k - 1 implies !same_exam(#[trigger] t[i], e) by {
            assert(t[i] == s[i + 1]);
        }
        exams_gain_only_locations(t, e, k - 1);
        let rest = with_exam(t, e);
        assert(r == seq![s[0]] + rest);
        if k == s.len() {
            assert(r =~= s.push(e));
        } else {
            assert(r[k] == rest[k - 1]);
            assert(t[k - 1] == s[k]);
        }
        assert forall|i: int| 0 <= i < s.len() && i != k implies #[trigger] r[i] == s[i] by {
            if i > 0 {
                assert(r[i] == rest[i - 1]);
                assert(t[i - 1] == s[i]);
            }
        }
    }
}

/// A cell with a length and a room holds an exam for each course that has a lecture
/// at its place: it starts when the cell does, ends after the minutes of the cell,
/// and takes place in its room. Without a length or a room the cell holds none, and
/// it fails only where its exams end at no time of the calendar.
pub proof fn cells_hold_their_exams(cell: Seq<Found>, start: DateTime)
    ensures
        match cell_minutes(cell) {
            None => cell_exams(cell, start) == Ok::<Seq<TimeEntryView>, PlanError>(Seq::empty()),
            Some(minutes) => match cell_exams(cell, start) {
                Err(_) => !in_span(start.at.secs + 60 * minutes),
                Ok(es) => {
                    &&& in_span(start.at.secs + 60 * minutes)
                    &&& cell[2].len() == 0 ==> es.len() == 0
                    &&& cell[2].len() > 0 ==> es.len() == (if cell[3].len() < cell[4].len() {
                        cell[3].len()
                    } else {
                        cell[4].len()
                    })
                    &&& forall|i: int|
                        0 <= i < es.len() ==> {
                            &&& (#[trigger] es[i]).time_start == start
                            &&& es[i].time_end.secs == start.at.secs + 60 * minutes
                            &&& es[i].time_end.nanos == start.at.nanos
                            &&& es[i].is_exam
                            &&& es[i].abbr == trimmed(cell[4][i].0)
                            &&& es[i].courses == seq![trimmed(cell[3][i].0)]
                            &&& es[i].locations == seq![cell_room(cell)]
                            &&& match cell[4][i].1 {
                                Some(title) => es[i].title == after_words(title, 3),
                                None => es[i].title.len() == 0,
                            }
                        }
                },
            },
        },
{
}

/// Of a number in brackets, up to a narrow no-break space, the length of an exam is
/// read; without such a space there is none.
pub proof fn lengths_are_read(cell: Seq<Found>, digits: Seq<char>, rest: Seq<char>)
    requires
        cell[1].len() > 0,
        digits.len() > 0,
        text::all_digits(digits),
        text::digits_value(digits) <= i64::MAX,
    ensures
        trimmed(cell[1][0].0) == "("@ + digits + "\u{202F}"@ + rest ==> cell_minutes(cell) == Some(
            text::digits_value(digits),
        ),
        !text::has_part(trimmed(cell[1][0].0), "\u{202F}"@) ==> cell_minutes(cell) is None,
{
    reveal_strlit("(");
    reveal_strlit("\u{202F}");
    let open = "("@;
    let space = "\u{202F}"@;
    let s = trimmed(cell[1][0].0);
    text::split_is_first(s, space);
    if s == open + digits + space + rest {
        let k: int = 1 + digits.len() as int;
        let front = open + digits;
        assert forall|i: int| 0 <= i < k implies s[i] != '\u{202F}' by {
            if i > 0 {
                assert(s[i] == digits[i - 1]);
                assert(text::is_digit(digits[i - 1]));
            }
        }
        assert(s[k] == '\u{202F}');
        assert(s.subrange(k, k + 1) =~= space);
        assert(text::occurs_at(s, space, k));
        assert(text::has_part(s, space));
        let (a, b) = split_first(s, space)->0;
        assert(s[a.len() as int] == (a + space + b)[a.len() as int]);
        if a.len() > k {
            assert(!text::occurs_at(s, space, k));
        }
        assert(a.len() == k);
        assert(a =~= front) by {
            assert(a =~= s.take(k));
        }
        text::affixes_are_taken_off(digits, open);
        if open.is_prefix_of(digits) {
            assert(digits[0] == open[0]);
            assert(text::is_digit(digits[0]));
        }
        assert(without_prefixes(a, open) == digits);
        digits_are_not_trimmed(digits);
        text::numbers_are_digits(digits);
        text::numbers_are_not_negative(digits);
    }
}

proof fn digits_are_not_trimmed(s: Seq<char>)
    requires
        text::all_digits(s),
    ensures
        trimmed(s) == s,
{
    text::trimming_takes_white_space(s);
    let (a, b) = choose|a: int, b: int|
        0 <= a <= b <= s.len() && trimmed(s) == #[trigger] s.subrange(a, b) && (forall|i: int|
            0 <= i < a || b <= i < s.len() ==> text::is_white(#[trigger] s[i])) && (a < b
            ==> !text::is_white(s[a]) && !text::is_white(s[b - 1]));
    if a > 0 {
        assert(text::is_white(s[0]) && text::is_digit(s[0]));
    }
    if b < s.len() {
        assert(text::is_white(s[b]) && text::is_digit(s[b]));
    }
    assert(s.subrange(0, s.len() as int) =~= s);
}

/// A room is named as the cell names it; only a foyer has a number in place of its
/// name.
pub proof fn rooms_are_named(cell: Seq<Found>, house: Seq<char>, rest: Seq<char>)
    requires
        !text::has_part(rest, "-Foyer"@),
        forall|j: int|
            0 <= j < house.len() ==> !#[trigger] text::occurs_at(
                house + "-Foyer"@ + rest,
                "-Foyer"@,
                j,
            ),
    ensures
        trimmed(cell[2][0].0) == rest ==> cell_room(cell) == rest,
        trimmed(cell[2][0].0) == house + "-Foyer"@ + rest ==> cell_room(cell) == house + "000"@
            + rest,
{
    reveal_strlit("-Foyer");
    text::replacing_goes_on(house, "-Foyer"@, rest, "000"@);
}

/// The start of an exam is read from what follows the first semicolon, without white
/// space around it and with the year behind it. Only a cell that says nothing there
/// has no start, or one that says no date and time.
pub proof fn starts_are_read(cell: Seq<Found>, year: int, day: Seq<char>, date: Seq<char>)
    requires
        cell[0].len() > 0,
        trimmed(cell[0][0].0).len() > 0,
    ensures
        cell_start(cell, year) == parsed_wall(
            exam_date_text(cell[0][0].0, year),
            "%d.%m., %H:%M %Y"@,
        ),
        !text::has_part(date, ";"@) ==> exam_date_text(date, year) == trimmed(date) + " "@
            + signed_decimal(year),
        !text::has_part(day, ";"@) ==> exam_date_text(day + ";"@ + date, year) == trimmed(date)
            + " "@ + signed_decimal(year),
{
    reveal_strlit(";");
    let sep = ";"@;
    text::split_is_first(date, sep);
    let s = day + sep + date;
    text::split_is_first(s, sep);
    if !text::has_part(day, sep) {
        let k = day.len() as int;
        assert(s.subrange(k, k + 1) =~= sep);
        assert(text::occurs_at(s, sep, k));
        assert(text::has_part(s, sep));
        let (a, b) = split_first(s, sep)->0;
        if a.len() > k {
            assert(!text::occurs_at(s, sep, k));
        }
        if a.len() < k {
            let m = a.len() as int;
            assert(s[m] == (a + sep + b)[m]);
            assert(day[m] == ';');
            assert(day.subrange(m, m + 1) =~= sep);
            assert(text::occurs_at(day, sep, m));
        }
        assert(b =~= date) by {
            assert(b =~= s.skip(k + 1));
        }
    }
}

/// A plan fails only where the exams of one of its cells do.
pub proof fn plan_fails_only_for_a_cell(cells: Seq<Seq<Found>>, starts: Seq<Option<DateTime>>)
    requires
        starts.len() == cells.len(),
    ensures
        plan_exams(cells, starts) is Err <==> exists|i: int|
            0 <= i < cells.len() && (#[trigger] starts[i]) is Some && cell_exams(
                cells[i],
                starts[i]->0,
            ) is Err,
    decreases cells.len(),
{
    if cells.len() > 0 {
        let a = cells.drop_last();
        let b = starts.drop_last();
        let n = a.len() as int;
        plan_fails_only_for_a_cell(a, b);
        if plan_exams(a, b) is Err {
            let i = choose|i: int|
                0 <= i < a.len() && (#[trigger] b[i]) is Some && cell_exams(a[i], b[i]->0) is Err;
            assert(starts[i] is Some && cell_exams(cells[i], starts[i]->0) is Err);
        }
        if plan_exams(cells, starts) is Ok {
            assert forall|i: int|
                0 <= i < cells.len() && (#[trigger] starts[i]) is Some implies cell_exams(
                cells[i],
                starts[i]->0,
            ) is Ok by {
                if i < n {
                    assert(b[i] == starts[i] && a[i] == cells[i]);
                }
            }
        } else if plan_exams(a, b) is Ok {
            assert(starts[n] is Some);
        }
    }
}

/// Whether the machine's time zone gives the point in time `t` for a time on the
/// wall clock, and all exams of a cell that then start stand in a plan.
pub open spec fn is_planned_at(
    wall: WallTime,
    cell: Seq<Found>,
    plan: Seq<TimeEntryView>,
    t: DateTime,
) -> bool {
    &&& gives_single(wall, Some(t))
    &&& t.wall() == wall.secs
    &&& t.at.nanos == wall.nanos
    &&& cell_exams(cell, t) matches Ok(es) && forall|k: int|
        0 <= k < es.len() ==> stands_in(plan, #[trigger] es[k])
}

/// A cell is passed over only where it has no start that can be read, or where the
/// machine's time zone gives no single point in time for it. All exams of every
/// other cell stand in the plan, at the time that the time zone gave.
pub proof fn cells_with_a_start_are_planned(
    cells: Seq<Seq<Found>>,
    year: int,
    result: Result<Vec<TimeEntry>, PlanError>,
    i: int,
    wall: WallTime,
)
    requires
        is_plan(cells, year, result),
        0 <= i < cells.len(),
        cell_start(cells[i], year) == Some((wall.secs as int, wall.nanos as int)),
        !gives_single(wall, None),
        result is Ok,
    ensures
        exists|t: DateTime| #[trigger]
            is_planned_at(wall, cells[i], result->Ok_0.deep_view(), t),
{
    let starts = choose|starts: Seq<Option<DateTime>>| #[trigger]
        starts_fit(cells, year, starts) && comes_to(result, plan_exams(cells, starts));
    assert(start_fits(cells[i], year, starts[i]));
    let t = starts[i]->0;
    plan_fails_only_for_a_cell(cells, starts);
    let es = cell_exams(cells[i], t)->Ok_0;
    assert forall|k: int| 0 <= k < es.len() implies stands_in(
        result->Ok_0.deep_view(),
        #[trigger] es[k],
    ) by {
        assert(es.contains(es[k]));
        plan_has_every_exam(cells, starts, i, es[k]);
    }
    assert(is_planned_at(wall, cells[i], result->Ok_0.deep_view(), t));
}

/// Whether exams of a cell that start when the machine's time zone says end at no time
/// of the calendar.
pub open spec fn never_ends(cell: Seq<Found>, year: int, t: DateTime) -> bool {
    &&& cell_start(cell, year) matches Some((secs, nanos)) && gives_single(
        WallTime { secs: secs as i64, nanos: nanos as u32 },
        Some(t),
    )
    &&& cell_minutes(cell) matches Some(minutes) && !in_span(t.at.secs + 60 * minutes)
}

/// A page of the plan is refused only where the exams of one of its cells end at no
/// time of the calendar.
pub proof fn plans_fail_for_a_reason(
    cells: Seq<Seq<Found>>,
    year: int,
    result: Result<Vec<TimeEntry>, PlanError>,
)
    requires
        is_plan(cells, year, result),
        result is Err,
    ensures
        exists|i: int, t: DateTime|
            0 <= i < cells.len() && #[trigger] never_ends(cells[i], year, t),
{
    let starts = choose|starts: Seq<Option<DateTime>>| #[trigger]
        starts_fit(cells, year, starts) && comes_to(result, plan_exams(cells, starts));
    plan_fails_only_for_a_cell(cells, starts);
    let i = choose|i: int|
        0 <= i < cells.len() && (#[trigger] starts[i]) is Some && cell_exams(
            cells[i],
            starts[i]->0,
        ) is Err;
    assert(start_fits(cells[i], year, starts[i]));
    cells_hold_their_exams(cells[i], starts[i]->0);
    assert(never_ends(cells[i], year, starts[i]->0));
}

/// Exams that were read are those that their value says, and so is an error.
pub proof fn exams_come_to_their_value(
    result: Result<Vec<TimeEntry>, PlanError>,
    value: Result<Seq<TimeEntryView>, PlanError>,
)
    requires
        comes_to(result, value),
    ensures
        match result {
            Ok(exams) => value == Ok::<Seq<TimeEntryView>, PlanError>(exams.deep_view()),
            Err(e) => value == Err::<Seq<TimeEntryView>, PlanError>(e),
        },
{
}

/// The button of a page is its first one, and its name goes up to the next quotation
/// mark. A page without a button, or without the mark, has none.
pub proof fn first_button_is_pressed(before: Seq<char>, name: Seq<char>, after: Seq<char>)
    requires
        forall|j: int|
            0 <= j < before.len() ==> !#[trigger] text::occurs_at(
                before + "<button id=\""@ + (name + "\""@ + after),
                "<button id=\""@,
                j,
            ),
        !text::has_part(name, "\""@),
    ensures
        button_name(before + "<button id=\""@ + (name + "\""@ + after)) == Ok::<
            Seq<char>,
            LoginError,
        >(name),
        button_name(before + "<button id=\""@ + (name + "\""@ + after)) is Ok,
{
    reveal_strlit("<button id=\"");
    reveal_strlit("\"");
    let start = "<button id=\""@;
    let quote = "\""@;
    let rest = name + quote + after;
    let page = before + start + rest;
    text::split_is_first(page, start);
    let k = before.len() as int;
    assert(page.subrange(k, k + start.len()) =~= start);
    assert(text::occurs_at(page, start, k));
    assert(text::has_part(page, start));
    let (a, b) = split_first(page, start)->0;
    assert(a.len() <= k) by {
        if a.len() > k {
            assert(!text::occurs_at(page, start, k));
        }
    }
    assert(a.len() == k) by {
        if a.len() < k {
            let m = a.len() as int;
            assert(page.subrange(m, m + start.len()) =~= start) by {
                assert((a + start + b).subrange(m, m + start.len()) =~= start);
            }
            assert(text::occurs_at(page, start, m));
        }
    }
    assert(b =~= rest) by {
        assert(b =~= page.skip(k + start.len()));
        assert(page.skip(k + start.len()) =~= rest);
    }
    text::split_is_first(rest, quote);
    let n = name.len() as int;
    assert(rest.subrange(n, n + 1) =~= quote);
    assert(text::occurs_at(rest, quote, n));
    assert(text::has_part(rest, quote));
    let (c, d) = split_first(rest, quote)->0;
    if c.len() > n {
        assert(!text::occurs_at(rest, quote, n));
    }
    if c.len() < n {
        let m = c.len() as int;
        assert(rest[m] == (c + quote + d)[m]);
        assert(name.subrange(m, m + 1) =~= quote);
        assert(text::occurs_at(name, quote, m));
    }
    assert(c =~= name) by {
        assert(c =~= rest.take(n));
    }
}

/// A page without a button is refused, and so is one whose last button has no end.
pub proof fn pages_without_a_button_are_refused(page: Seq<char>)
    ensures
        button_name(page) == Err::<Seq<char>, LoginError>(LoginError::StartNotFound)
            <==> !text::has_part(page, "<button id=\""@),
        button_name(page) matches Ok(name) ==> text::has_part(
            page,
            "<button id=\""@ + name + "\""@,
        ),
{
    let start = "<button id=\""@;
    let quote = "\""@;
    text::split_is_first(page, start);
    if let Some((a, rest)) = split_first(page, start) {
        text::split_is_first(rest, quote);
        if let Some((name, b)) = split_first(rest, quote) {
            assert(page =~= a + (start + name + quote) + b);
            text::parts_are_surrounded(page, start + name + quote);
        }
    }
}

/// The first form picks the faculty by its number, and is else the same for all.
pub proof fn first_form_picks_the_faculty(fid: Seq<char>, other: Seq<char>)
    ensures
        faculty_form(fid).contains(("form:loginGuestProject_input"@, fid)),
        faculty_form(fid).contains(("javax.faces.partial.ajax"@, "true"@)),
        faculty_form(fid).contains(("javax.faces.source"@, "form:loginGuestProject"@)),
        faculty_form(fid).contains(("javax.faces.partial.execute"@, "form:loginGuestProject"@)),
        faculty_form(fid).contains(("javax.faces.partial.render"@, "form"@)),
        faculty_form(fid).contains(("javax.faces.behavior.event"@, "valueChange"@)),
        faculty_form(fid).contains(("javax.faces.partial.event"@, "change"@)),
        faculty_form(fid).contains(("javax.faces.ViewState"@, "stateless"@)),
        faculty_form(fid).contains(("form"@, "form"@)),
        faculty_form(fid).contains(("form:loginUsername"@, ""@)),
        faculty_form(fid).contains(("form:loginPassword"@, ""@)),
        faculty_form(fid).update(8, ("form:loginGuestProject_input"@, other)) == faculty_form(
            other,
        ),
{
    let f = faculty_form(fid);
    assert(f[0] == ("javax.faces.partial.ajax"@, "true"@));
    assert(f[1] == ("javax.faces.source"@, "form:loginGuestProject"@));
    assert(f[2] == ("javax.faces.partial.execute"@, "form:loginGuestProject"@));
    assert(f[3] == ("javax.faces.partial.render"@, "form"@));
    assert(f[4] == ("javax.faces.behavior.event"@, "valueChange"@));
    assert(f[5] == ("javax.faces.partial.event"@, "change"@));
    assert(f[6] == ("javax.faces.ViewState"@, "stateless"@));
    assert(f[7] == ("form"@, "form"@));
    assert(f[8] == ("form:loginGuestProject_input"@, fid));
    assert(f[9] == ("form:loginUsername"@, ""@));
    assert(f[10] == ("form:loginPassword"@, ""@));
    assert(f.update(8, ("form:loginGuestProject_input"@, other)) =~= faculty_form(other));
}

/// The second form presses the button, and has the faculty and the rest of its
/// values unless the button has their name.
pub proof fn second_form_presses_the_button(fid: Seq<char>, button: Seq<char>)
    ensures
        button_form(fid, button).contains((button, ""@)),
        button != "form:loginGuestProject_input"@ ==> button_form(fid, button).contains(
            ("form:loginGuestProject_input"@, fid),
        ),
        button != "form"@ ==> button_form(fid, button).contains(("form"@, "form"@)),
        button != "jakarta.faces.ViewState"@ ==> button_form(fid, button).contains(
            ("jakarta.faces.ViewState"@, "stateless"@),
        ),
{
    let f: Form = seq![
        ("jakarta.faces.ViewState"@, "stateless"@),
        ("form"@, "form"@),
        ("form:loginGuestProject_input"@, fid),
    ];
    field_is_set(f, button, ""@);
    assert(f[0] == ("jakarta.faces.ViewState"@, "stateless"@));
    assert(f[1] == ("form"@, "form"@));
    assert(f[2] == ("form:loginGuestProject_input"@, fid));
}

} // verus!
