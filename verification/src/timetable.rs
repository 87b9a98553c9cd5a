//! The timetable of lectures and exams, and how it is shown.

use vstd::prelude::*;
use crate::clock::{clock_text, earlier, ordinary, DateTime, Instant};
use crate::color::{all_compile, first_hit, first_matching_rule_colors, regex_finds, rule_colors, rule_hits, Color, ColorRules, ColorSet};
use crate::date::Date;
use crate::lists::{self, filter_picks, picked, picked_are_kept, picked_at};
use crate::locale::{localized_date, long_format, Locale};
use crate::names::{ascending, NameSet};
use crate::order::{in_order, sorted, sorted_draws, sorted_in_order, sorted_keeps_equals, sorted_keeps_order, sorted_len, sorted_same_values, stable_sort, text_before, text_is_before, texts_chain, texts_compare, Order};

verus! {

// ---------------------------------------------------------------------------
// Entries
// ---------------------------------------------------------------------------

/// A lecture or an exam.
#[derive(Debug)]
pub struct TimeEntry {
    pub title: String,
    pub abbr: String,
    pub time_start: DateTime,
    pub time_end: Instant,
    pub locations: NameSet,
    pub courses: NameSet,
    pub is_exam: bool,
}

/// What a `TimeEntry` holds.
#[verifier::ext_equal]
pub struct TimeEntryView {
    pub title: Seq<char>,
    pub abbr: Seq<char>,
    pub time_start: DateTime,
    pub time_end: Instant,
    pub locations: Seq<Seq<char>>,
    pub courses: Seq<Seq<char>>,
    pub is_exam: bool,
}

impl DeepView for TimeEntry {
    type V = TimeEntryView;

    open spec fn deep_view(&self) -> TimeEntryView {
        TimeEntryView {
            title: self.title@,
            abbr: self.abbr@,
            time_start: self.time_start,
            time_end: self.time_end,
            locations: self.locations.deep_view(),
            courses: self.courses.deep_view(),
            is_exam: self.is_exam,
        }
    }
}

impl TimeEntryView {
    /// Whether the entry starts and ends on the calendar, outside of leap seconds.
    pub open spec fn valid(self) -> bool {
        self.time_start.valid() && ordinary(self.time_start.at) && ordinary(self.time_end)
    }
}

/// Whether all entries are valid.
pub open spec fn all_valid(entries: Seq<TimeEntryView>) -> bool {
    forall|i: int| 0 <= i < entries.len() ==> (#[trigger] entries[i]).valid()
}

impl Clone for TimeEntry {
    fn clone(&self) -> (r: Self)
        ensures
            r.deep_view() == self.deep_view(),
    {
        TimeEntry {
            title: self.title.clone(),
            abbr: self.abbr.clone(),
            time_start: self.time_start,
            time_end: self.time_end,
            locations: self.locations.clone(),
            courses: self.courses.clone(),
            is_exam: self.is_exam,
        }
    }
}

// ---------------------------------------------------------------------------
// Entries as they are shown
// ---------------------------------------------------------------------------

/// A location or a course, with its color.
#[derive(Debug)]
pub struct Tag {
    pub title: String,
    pub color: Color,
}

/// What a `Tag` holds.
#[verifier::ext_equal]
pub struct TagView {
    pub title: Seq<char>,
    pub color: Color,
}

impl DeepView for Tag {
    type V = TagView;

    open spec fn deep_view(&self) -> TagView {
        TagView { title: self.title@, color: self.color }
    }
}

/// An entry as it is shown.
#[derive(Debug)]
pub struct Entry {
    pub title: String,
    pub abbr: String,
    pub is_exam: bool,
    pub lecturers: String,
    pub locations: Vec<Tag>,
    pub courses: Vec<Tag>,
}

/// What an `Entry` holds.
#[verifier::ext_equal]
pub struct EntryView {
    pub title: Seq<char>,
    pub abbr: Seq<char>,
    pub is_exam: bool,
    pub lecturers: Seq<char>,
    pub locations: Seq<TagView>,
    pub courses: Seq<TagView>,
}

impl DeepView for Entry {
    type V = EntryView;

    open spec fn deep_view(&self) -> EntryView {
        EntryView {
            title: self.title@,
            abbr: self.abbr@,
            is_exam: self.is_exam,
            lecturers: self.lecturers@,
            locations: self.locations.deep_view(),
            courses: self.courses.deep_view(),
        }
    }
}

/// Which of the two sets of patterns does not compile.
#[derive(Clone, Copy, Debug, PartialEq, Eq, Structural)]
pub enum ColorError {
    Course,
    Location,
}

/// The colors of courses and locations.
#[derive(Debug)]
pub struct TimeEntryColorSet {
    pub course: ColorRules,
    pub location: ColorRules,
}

impl TimeEntryColorSet {
    /// The colors of both sets, where all patterns compile. The courses are
    /// looked at first.
    pub fn compile(course: ColorSet, location: ColorSet) -> (r: Result<
        TimeEntryColorSet,
        ColorError,
    >)
        ensures
            match r {
                Ok(c) => all_compile(course.map.deep_view()) && all_compile(
                    location.map.deep_view(),
                ) && c.course.rules() == course.map.deep_view() && c.course.default()
                    == course.default && c.location.rules() == location.map.deep_view()
                    && c.location.default() == location.default,
                Err(ColorError::Course) => !all_compile(course.map.deep_view()),
                Err(ColorError::Location) => all_compile(course.map.deep_view()) && !all_compile(
                    location.map.deep_view(),
                ),
            },
    {
        match ColorRules::compile(course) {
            None => Err(ColorError::Course),
            Some(course) => match ColorRules::compile(location) {
                None => Err(ColorError::Location),
                Some(location) => Ok(TimeEntryColorSet { course, location }),
            },
        }
    }
}

/// A name with the color that the rules give it.
pub open spec fn tag(rules: ColorRules, name: Seq<char>) -> TagView {
    TagView {
        title: name,
        color: Color {
            argb: first_hit(
                rule_hits(rules.rules(), name),
                rule_colors(rules.rules()),
                rules.default(),
            ),
        },
    }
}

/// Names with the colors that the rules give them.
pub open spec fn tags(rules: ColorRules, names: Seq<Seq<char>>) -> Seq<TagView> {
    names.map_values(|name: Seq<char>| tag(rules, name))
}

/// Locations with their colors, and a stand-in where there are none.
pub open spec fn location_tags(rules: ColorRules, names: Seq<Seq<char>>) -> Seq<TagView> {
    if names.len() == 0 {
        seq![TagView { title: "N/A"@, color: Color { argb: rules.default() } }]
    } else {
        tags(rules, names)
    }
}

/// The titles of tags.
pub open spec fn tag_titles(tags: Seq<TagView>) -> Seq<Seq<char>> {
    tags.map_values(|t: TagView| t.title)
}

/// An entry as it is shown.
pub open spec fn entry_shown(e: TimeEntryView, colors: TimeEntryColorSet) -> EntryView {
    EntryView {
        title: e.title,
        abbr: e.abbr,
        is_exam: e.is_exam,
        lecturers: ""@,
        locations: location_tags(colors.location, e.locations),
        courses: tags(colors.course, e.courses),
    }
}

/// Entries as they are shown.
pub open spec fn entries_shown(s: Seq<TimeEntryView>, colors: TimeEntryColorSet) -> Seq<EntryView> {
    s.map_values(|e: TimeEntryView| entry_shown(e, colors))
}

fn tag_names(rules: &ColorRules, names: &Vec<String>) -> (r: Vec<Tag>)
    ensures
        r.deep_view() == tags(*rules, names.deep_view()),
{
    let mut r: Vec<Tag> = lists::empty();
    let mut i: usize = 0;
    let ghost all = names.deep_view();
    while i < names.len()
        invariant
            all == names.deep_view(),
            i <= names@.len(),
            r.deep_view() == tags(*rules, all.take(i as int)),
        decreases names@.len() - i,
    {
        let color: Color = rules.color_of(names[i].as_str());
        let t: Tag = Tag { title: names[i].clone(), color };
        assert(all[i as int] == names@[i as int]@);
        assert(t.deep_view() == tag(*rules, all[i as int]));
        lists::put(&mut r, t);
        assert(tags(*rules, all.take(i + 1)) =~= tags(*rules, all.take(i as int)).push(
            tag(*rules, all[i as int]),
        ));
        i = i + 1;
    }
    assert(all.take(i as int) =~= all);
    r
}

impl TimeEntry {
    /// The entry as it is shown, its locations and courses in color and in
    /// order, none of them twice.
    pub fn into_ui(self, colors: &TimeEntryColorSet) -> (r: Entry)
        ensures
            r.deep_view() == entry_shown(self.deep_view(), *colors),
            ascending(tag_titles(r.deep_view().locations)),
            ascending(tag_titles(r.deep_view().courses)),
    {
        let mut locations: Vec<Tag> = tag_names(&colors.location, self.locations.names());
        if locations.len() == 0 {
            assert(self.locations.deep_view().len() == 0) by {
                assert(locations.deep_view().len() == tags(
                    colors.location,
                    self.locations.deep_view(),
                ).len());
            }
            lists::put(
                &mut locations,
                Tag { title: "N/A".to_owned(), color: colors.location.default_color() },
            );
            assert(locations.deep_view() =~= location_tags(
                colors.location,
                self.locations.deep_view(),
            ));
        } else {
            assert(locations.deep_view().len() == tags(
                colors.location,
                self.locations.deep_view(),
            ).len());
            assert(tag_titles(locations.deep_view()) =~= self.locations.deep_view());
        }
        let courses: Vec<Tag> = tag_names(&colors.course, self.courses.names());
        assert(tag_titles(courses.deep_view()) =~= self.courses.deep_view());
        Entry {
            title: self.title,
            abbr: self.abbr,
            is_exam: self.is_exam,
            lecturers: "".to_owned(),
            locations,
            courses,
        }
    }
}

// ---------------------------------------------------------------------------
// The table
// ---------------------------------------------------------------------------

/// The order of entries by the time at which they start.
pub struct ByStart;

impl Order<TimeEntry> for ByStart {
    open spec fn before(a: TimeEntryView, b: TimeEntryView) -> bool {
        earlier(a.time_start.at, b.time_start.at)
    }

    proof fn asymmetric(a: TimeEntryView, b: TimeEntryView) {
    }

    proof fn divides(a: TimeEntryView, b: TimeEntryView, c: TimeEntryView) {
    }

    fn is_before(a: &TimeEntry, b: &TimeEntry) -> (r: bool) {
        a.time_start.at.is_earlier(b.time_start.at)
    }
}

/// The order of entries by the time at which they end.
pub struct ByEnd;

impl Order<TimeEntry> for ByEnd {
    open spec fn before(a: TimeEntryView, b: TimeEntryView) -> bool {
        earlier(a.time_end, b.time_end)
    }

    proof fn asymmetric(a: TimeEntryView, b: TimeEntryView) {
    }

    proof fn divides(a: TimeEntryView, b: TimeEntryView, c: TimeEntryView) {
    }

    fn is_before(a: &TimeEntry, b: &TimeEntry) -> (r: bool) {
        a.time_end.is_earlier(b.time_end)
    }
}

/// The order of entries by their abbreviations.
pub struct ByAbbr;

impl Order<TimeEntry> for ByAbbr {
    open spec fn before(a: TimeEntryView, b: TimeEntryView) -> bool {
        text_before(a.abbr, b.abbr)
    }

    proof fn asymmetric(a: TimeEntryView, b: TimeEntryView) {
        texts_compare(a.abbr, b.abbr);
    }

    proof fn divides(a: TimeEntryView, b: TimeEntryView, c: TimeEntryView) {
        texts_compare(a.abbr, b.abbr);
        if text_before(b.abbr, a.abbr) {
            texts_chain(b.abbr, a.abbr, c.abbr);
        }
    }

    fn is_before(a: &TimeEntry, b: &TimeEntry) -> (r: bool) {
        text_is_before(a.abbr.as_str(), b.abbr.as_str())
    }
}

/// The number of entries up to and with the last one that is over.
pub open spec fn past_count(s: Seq<TimeEntryView>, now: Instant) -> int
    decreases s.len(),
{
    if s.len() == 0 {
        0
    } else if earlier(s.last().time_end, now) {
        s.len() as int
    } else {
        past_count(s.drop_last(), now)
    }
}

/// The entries in order of their start, without those up to the last one that
/// is over.
pub open spec fn remaining(s: Seq<TimeEntryView>, now: Instant) -> Seq<TimeEntryView> {
    let all = sorted::<TimeEntry, ByStart>(s);
    all.skip(past_count(all, now))
}

/// Whether an entry is left out: in times of exams once it is over, else when
/// it started more than half an hour ago.
pub open spec fn left_out(e: TimeEntryView, exam_phase: bool, now: Instant) -> bool {
    if exam_phase {
        earlier(e.time_end, now)
    } else {
        let late = e.time_start.at.secs + 1800;
        late < now.secs || (late == now.secs && e.time_start.at.nanos < now.nanos)
    }
}

/// The entries that are shown. The first entry tells whether it is a time of exams.
pub open spec fn current(s: Seq<TimeEntryView>, now: Instant) -> Seq<TimeEntryView> {
    s.filter(|e: TimeEntryView| !left_out(e, s[0].is_exam, now))
}

/// The entries in groups of those that follow each other and start together.
pub open spec fn groups(s: Seq<TimeEntryView>) -> Seq<Seq<TimeEntryView>>
    decreases s.len(),
{
    if s.len() == 0 {
        Seq::empty()
    } else {
        let g = groups(s.drop_last());
        let e = s.last();
        if g.len() > 0 && g.last()[0].time_start.at == e.time_start.at {
            g.drop_last().push(g.last().push(e))
        } else {
            g.push(seq![e])
        }
    }
}

/// Whether a block shows its date: if it is not of today and the last date
/// shown is not its own.
pub open spec fn shows_date(date: Date, today: Date, dated: Option<Date>) -> bool {
    date != today && dated != Some(date)
}

/// The last date that groups show.
pub open spec fn last_dated(g: Seq<Seq<TimeEntryView>>, today: Date) -> Option<Date>
    decreases g.len(),
{
    if g.len() == 0 {
        None
    } else {
        let before = last_dated(g.drop_last(), today);
        let date = g.last()[0].time_start.spec_date();
        if shows_date(date, today, before) {
            Some(date)
        } else {
            before
        }
    }
}

/// Entries that start together, as they are shown.
#[derive(Debug)]
pub struct TimeBlock {
    pub date: String,
    pub time: String,
    pub entries: Vec<Entry>,
}

/// What a `TimeBlock` holds.
#[verifier::ext_equal]
pub struct TimeBlockView {
    pub date: Seq<char>,
    pub time: Seq<char>,
    pub entries: Seq<EntryView>,
}

impl DeepView for TimeBlock {
    type V = TimeBlockView;

    open spec fn deep_view(&self) -> TimeBlockView {
        TimeBlockView {
            date: self.date@,
            time: self.time@,
            entries: self.entries.deep_view(),
        }
    }
}

/// A group as it is shown, where `dated` is the last date shown before it.
pub open spec fn block(
    group: Seq<TimeEntryView>,
    today: Date,
    dated: Option<Date>,
    colors: TimeEntryColorSet,
    locale: Seq<char>,
) -> TimeBlockView {
    let start = group[0].time_start;
    TimeBlockView {
        date: if shows_date(start.spec_date(), today, dated) {
            localized_date(start.spec_date().days as int, long_format(), locale)
        } else {
            ""@
        },
        time: clock_text(start),
        entries: entries_shown(sorted::<TimeEntry, ByAbbr>(group), colors),
    }
}

/// Groups as they are shown.
pub open spec fn blocks(
    g: Seq<Seq<TimeEntryView>>,
    today: Date,
    colors: TimeEntryColorSet,
    locale: Seq<char>,
) -> Seq<TimeBlockView> {
    Seq::new(
        g.len(),
        |k: int| block(g[k], today, last_dated(g.take(k), today), colors, locale),
    )
}

/// What the table shows: nothing new where no entries remain, else the groups
/// of the entries that are not left out.
pub open spec fn table_shown(
    s: Seq<TimeEntryView>,
    now: DateTime,
    colors: TimeEntryColorSet,
    locale: Seq<char>,
) -> Option<Seq<TimeBlockView>> {
    if s.len() == 0 {
        None
    } else {
        Some(blocks(groups(current(s, now.at)), now.spec_date(), colors, locale))
    }
}

fn count_past(entries: &Vec<TimeEntry>, now: Instant) -> (r: usize)
    ensures
        r == past_count(entries.deep_view(), now),
        r <= entries@.len(),
{
    let ghost all = entries.deep_view();
    let mut n: usize = entries.len();
    assert(all.take(n as int) =~= all);
    while n > 0
        invariant
            all == entries.deep_view(),
            n <= entries@.len(),
            past_count(all, now) == past_count(all.take(n as int), now),
        decreases n,
    {
        assert(all.take(n as int).last() == entries@[n - 1].deep_view());
        if entries[n - 1].time_end.is_earlier(now) {
            return n;
        }
        assert(all.take(n as int).drop_last() =~= all.take(n - 1));
        n = n - 1;
    }
    n
}

impl TimeEntry {
    fn is_left_out(&self, exam_phase: bool, now: Instant) -> (r: bool)
        requires
            ordinary(self.time_start.at),
        ensures
            r == left_out(self.deep_view(), exam_phase, now),
    {
        if exam_phase {
            self.time_end.is_earlier(now)
        } else {
            Instant {
                secs: self.time_start.at.secs + 1800,
                nanos: self.time_start.at.nanos,
            }.is_earlier(now)
        }
    }
}

fn choose_current(entries: &Vec<TimeEntry>, now: Instant) -> (r: Vec<TimeEntry>)
    requires
        entries@.len() > 0,
        all_valid(entries.deep_view()),
    ensures
        r.deep_view() == current(entries.deep_view(), now),
        all_valid(r.deep_view()),
{
    let ghost all = entries.deep_view();
    let exam_phase: bool = entries[0].is_exam;
    let ghost keep = |e: TimeEntryView| !left_out(e, all[0].is_exam, now);
    let mut r: Vec<TimeEntry> = lists::empty();
    let mut i: usize = 0;
    assert(all.take(0).filter(keep) =~= Seq::empty());
    assert(exam_phase == all[0].is_exam);
    while i < entries.len()
        invariant
            all == entries.deep_view(),
            all_valid(all),
            exam_phase == all[0].is_exam,
            keep == (|e: TimeEntryView| !left_out(e, all[0].is_exam, now)),
            i <= entries@.len(),
            r.deep_view() == all.take(i as int).filter(keep),
            all_valid(r.deep_view()),
        decreases entries@.len() - i,
    {
        assert(all[i as int] == entries@[i as int].deep_view());
        assert(all.take(i + 1).drop_last() =~= all.take(i as int));
        assert(all[i as int].valid());
        let ghost old_r = r.deep_view();
        proof {
            reveal(Seq::filter);
        }
        if !entries[i].is_left_out(exam_phase, now) {
            lists::put(&mut r, entries[i].clone());
            assert(r.deep_view() == old_r.push(all[i as int]));
        }
        i = i + 1;
    }
    assert(all.take(i as int) =~= all);
    r
}

fn group_entries(entries: Vec<TimeEntry>) -> (r: Vec<Vec<TimeEntry>>)
    ensures
        r.deep_view() == groups(entries.deep_view()),
{
    let ghost all = entries.deep_view();
    let mut r: Vec<Vec<TimeEntry>> = lists::empty();
    let mut i: usize = 0;
    while i < entries.len()
        invariant
            all == entries.deep_view(),
            i <= entries@.len(),
            r.deep_view() == groups(all.take(i as int)),
            forall|k: int| 0 <= k < r@.len() ==> (#[trigger] r@[k])@.len() > 0,
        decreases entries@.len() - i,
    {
        let ghost done = r.deep_view();
        let e: TimeEntry = entries[i].clone();
        assert(e.deep_view() == all[i as int]);
        proof {
            assert(all.take(i + 1).drop_last() =~= all.take(i as int));
            assert(all.take(i + 1).last() == all[i as int]);
        }
        let n: usize = r.len();
        let joins: bool = n > 0 && r[n - 1][0].time_start.at == e.time_start.at;
        assert(joins == (done.len() > 0 && done.last()[0].time_start.at
            == all[i as int].time_start.at)) by {
            if n > 0 {
                assert(done.last() == r@[n - 1].deep_view());
                assert(done.last()[0] == r@[n - 1]@[0].deep_view());
            }
        }
        if joins {
            match r.pop() {
                Some(last) => {
                    let mut last: Vec<TimeEntry> = last;
                    assert(last.deep_view() == done.last());
                    assert(r.deep_view() =~= done.drop_last());
                    lists::put(&mut last, e);
                    lists::put(&mut r, last);
                },
                None => {},
            }
        } else {
            let mut single: Vec<TimeEntry> = lists::empty();
            lists::put(&mut single, e);
            assert(single.deep_view() =~= seq![all[i as int]]);
            lists::put(&mut r, single);
        }
        i = i + 1;
    }
    assert(all.take(i as int) =~= all);
    r
}

proof fn groups_are_valid(s: Seq<TimeEntryView>)
    requires
        all_valid(s),
    ensures
        forall|k: int|
            0 <= k < groups(s).len() ==> (#[trigger] groups(s)[k]).len() > 0 && all_valid(
                groups(s)[k],
            ),
    decreases s.len(),
{
    if s.len() > 0 {
        let t = s.drop_last();
        assert forall|i: int| 0 <= i < t.len() implies (#[trigger] t[i]).valid() by {
            assert(t[i] == s[i]);
        }
        groups_are_valid(t);
        let g = groups(t);
        let all = groups(s);
        assert(s[s.len() - 1].valid());
        assert forall|k: int| 0 <= k < all.len() implies (#[trigger] all[k]).len() > 0
            && all_valid(all[k]) by {
            if k < g.len() {
                assert(g[k].len() > 0 && all_valid(g[k]));
            }
        }
    }
}

fn show_entries(entries: Vec<TimeEntry>, colors: &TimeEntryColorSet) -> (r: Vec<Entry>)
    ensures
        r.deep_view() == entries_shown(entries.deep_view(), *colors),
{
    let ghost all = entries.deep_view();
    let mut r: Vec<Entry> = lists::empty();
    let mut i: usize = 0;
    while i < entries.len()
        invariant
            all == entries.deep_view(),
            i <= entries@.len(),
            r.deep_view() == entries_shown(all.take(i as int), *colors),
        decreases entries@.len() - i,
    {
        let e: Entry = entries[i].clone().into_ui(colors);
        assert(e.deep_view() == entry_shown(all[i as int], *colors));
        lists::put(&mut r, e);
        assert(entries_shown(all.take(i + 1), *colors) =~= entries_shown(
            all.take(i as int),
            *colors,
        ).push(entry_shown(all[i as int], *colors)));
        i = i + 1;
    }
    assert(all.take(i as int) =~= all);
    r
}

fn show_blocks(
    groups: Vec<Vec<TimeEntry>>,
    today: Date,
    colors: &TimeEntryColorSet,
    locale: &Locale,
) -> (r: Vec<TimeBlock>)
    requires
        forall|k: int|
            0 <= k < groups.deep_view().len() ==> (#[trigger] groups.deep_view()[k]).len() > 0
                && all_valid(groups.deep_view()[k]),
    ensures
        r.deep_view() == blocks(groups.deep_view(), today, *colors, locale.spec_name()),
{
    let ghost all = groups.deep_view();
    let ghost name = locale.spec_name();
    let mut rest: Vec<Vec<TimeEntry>> = groups;
    let mut r: Vec<TimeBlock> = lists::empty();
    let mut dated: Option<Date> = None;
    assert(all.skip(0) =~= all);
    assert(blocks(all, today, *colors, name).take(0) =~= Seq::empty());
    while rest.len() > 0
        invariant
            name == locale.spec_name(),
            r@.len() + rest@.len() == all.len(),
            rest.deep_view() == all.skip(r@.len() as int),
            forall|k: int|
                0 <= k < all.len() ==> (#[trigger] all[k]).len() > 0 && all_valid(all[k]),
            dated == last_dated(all.take(r@.len() as int), today),
            r.deep_view() == blocks(all, today, *colors, name).take(r@.len() as int),
        decreases rest@.len(),
    {
        let ghost k = r@.len() as int;
        let ghost before = rest.deep_view();
        assert(before[0] == all[k]);
        let group: Vec<TimeEntry> = rest.remove(0);
        assert(group.deep_view() == all[k]);
        assert(rest.deep_view() =~= all.skip(k + 1)) by {
            assert forall|i: int| 0 <= i < rest@.len() implies rest.deep_view()[i] == all.skip(
                k + 1,
            )[i] by {
                assert(before[i + 1] == rest@[i].deep_view());
                assert(before[i + 1] == all[k + 1 + i]);
            }
        }
        proof {
            assert(all[k].len() > 0 && all_valid(all[k]));
            assert(all[k][0].valid());
            assert(all[k][0] == group@[0].deep_view());
            assert(all.take(k + 1).drop_last() =~= all.take(k));
            assert(all.take(k + 1).last() == all[k]);
        }
        let start: DateTime = group[0].time_start;
        let date: Date = start.date();
        let fresh: bool = date != today && match dated {
            Some(d) => d != date,
            None => true,
        };
        assert(fresh == shows_date(date, today, dated));
        let ghost dated_before = dated;
        let date_text: String = if fresh {
            dated = Some(date);
            locale.date_text(date)
        } else {
            "".to_owned()
        };
        let entries: Vec<Entry> = show_entries(stable_sort::<TimeEntry, ByAbbr>(group), colors);
        let b: TimeBlock = TimeBlock { date: date_text, time: start.clock(), entries };
        assert(b.deep_view() == block(all[k], today, dated_before, *colors, name));
        assert(blocks(all, today, *colors, name)[k] == b.deep_view());
        lists::put(&mut r, b);
        assert(blocks(all, today, *colors, name).take(k + 1) =~= blocks(
            all,
            today,
            *colors,
            name,
        ).take(k).push(blocks(all, today, *colors, name)[k]));
    }
    assert(blocks(all, today, *colors, name).take(r@.len() as int) =~= blocks(
        all,
        today,
        *colors,
        name,
    ));
    r
}

/// The entries that the timetable holds.
#[derive(Debug)]
pub struct Timetable {
    entries: Vec<TimeEntry>,
}

impl DeepView for Timetable {
    type V = Seq<TimeEntryView>;

    closed spec fn deep_view(&self) -> Seq<TimeEntryView> {
        self.entries.deep_view()
    }
}

proof fn remaining_are_valid(s: Seq<TimeEntryView>, now: Instant)
    requires
        all_valid(s),
    ensures
        all_valid(sorted::<TimeEntry, ByStart>(s)),
        all_valid(remaining(s, now)),
{
    let all = sorted::<TimeEntry, ByStart>(s);
    sorted_draws::<TimeEntry, ByStart>(s);
    assert forall|i: int| 0 <= i < all.len() implies (#[trigger] all[i]).valid() by {
        assert(s.contains(all[i]));
    }
    past_count_is_bounded(all, now);
    let n = past_count(all, now);
    assert forall|i: int| 0 <= i < all.skip(n).len() implies (#[trigger] all.skip(n)[i]).valid() by {
        assert(all.skip(n)[i] == all[n + i]);
    }
}

proof fn past_count_is_bounded(s: Seq<TimeEntryView>, now: Instant)
    ensures
        0 <= past_count(s, now) <= s.len(),
    decreases s.len(),
{
    if s.len() > 0 && !earlier(s.last().time_end, now) {
        past_count_is_bounded(s.drop_last(), now);
    }
}

impl Timetable {
    /// A timetable without entries.
    pub fn new() -> (r: Timetable)
        ensures
            r.deep_view() == Seq::<TimeEntryView>::empty(),
    {
        Timetable { entries: lists::empty() }
    }

    /// Adds entries, drops those that are over, and gives what is now shown:
    /// nothing new where no entries remain.
    pub fn update(
        &mut self,
        new_entries: Vec<TimeEntry>,
        now: DateTime,
        colors: &TimeEntryColorSet,
        locale: &Locale,
    ) -> (r: Option<Vec<TimeBlock>>)
        requires
            now.valid(),
            all_valid(old(self).deep_view()),
            all_valid(new_entries.deep_view()),
        ensures
            final(self).deep_view() == remaining(
                old(self).deep_view() + new_entries.deep_view(),
                now.at,
            ),
            all_valid(final(self).deep_view()),
            r.deep_view() == table_shown(
                final(self).deep_view(),
                now,
                *colors,
                locale.spec_name(),
            ),
    {
        let ghost all = self.entries.deep_view() + new_entries.deep_view();
        proof {
            assert forall|i: int| 0 <= i < all.len() implies (#[trigger] all[i]).valid() by {
                let n = self.entries.deep_view().len();
                if i < n {
                    assert(all[i] == self.entries.deep_view()[i]);
                } else {
                    assert(all[i] == new_entries.deep_view()[i - n]);
                }
            }
            remaining_are_valid(all, now.at);
        }
        let mut held: Vec<TimeEntry> = Vec::new();
        std::mem::swap(&mut held, &mut self.entries);
        let entries: Vec<TimeEntry> = stable_sort::<TimeEntry, ByStart>(
            lists::concat(held, new_entries),
        );
        let n: usize = count_past(&entries, now.at);
        let entries: Vec<TimeEntry> = lists::without_front(entries, n);
        assert(entries.deep_view() == remaining(all, now.at));
        if entries.len() == 0 {
            self.entries = entries;
            return None;
        }
        let chosen: Vec<TimeEntry> = choose_current(&entries, now.at);
        proof {
            groups_are_valid(chosen.deep_view());
        }
        let grouped: Vec<Vec<TimeEntry>> = group_entries(chosen);
        let r: Vec<TimeBlock> = show_blocks(grouped, now.date(), colors, locale);
        self.entries = entries;
        Some(r)
    }
}

// ---------------------------------------------------------------------------
// Laws of the table
// ---------------------------------------------------------------------------

/// No entry that remains is over, and those that remain are in order of their start.
pub proof fn nothing_over_remains(s: Seq<TimeEntryView>, now: Instant)
    ensures
        forall|i: int|
            0 <= i < remaining(s, now).len() ==> !earlier(
                (#[trigger] remaining(s, now)[i]).time_end,
                now,
            ),
        in_order::<TimeEntry, ByStart>(remaining(s, now)),
{
    let all = sorted::<TimeEntry, ByStart>(s);
    let n = past_count(all, now);
    past_count_is_bounded(all, now);
    after_past(all, now);
    sorted_in_order::<TimeEntry, ByStart>(s);
    let r = remaining(s, now);
    assert forall|i: int| 0 <= i < r.len() implies !earlier((#[trigger] r[i]).time_end, now) by {
        assert(r[i] == all[n + i]);
    }
    assert forall|i: int, j: int| 0 <= i < j < r.len() implies !ByStart::before(
        #[trigger] r[j],
        #[trigger] r[i],
    ) by {
        assert(r[i] == all[n + i]);
        assert(r[j] == all[n + j]);
    }
}

/// An update without new entries, at the time of the last one, changes nothing.
pub proof fn quiet_update_keeps_entries(s: Seq<TimeEntryView>, now: Instant)
    ensures
        remaining(remaining(s, now) + Seq::empty(), now) == remaining(s, now),
{
    let r = remaining(s, now);
    assert(r + Seq::empty() =~= r);
    nothing_over_remains(s, now);
    sorted_keeps_order::<TimeEntry, ByStart>(r);
    past_count_is_bounded(r, now);
    if past_count(r, now) > 0 {
        last_past_is_over(r, now);
    }
    assert(r.skip(0) =~= r);
}

proof fn last_past_is_over(s: Seq<TimeEntryView>, now: Instant)
    requires
        past_count(s, now) > 0,
    ensures
        past_count(s, now) <= s.len(),
        earlier(s[past_count(s, now) - 1].time_end, now),
    decreases s.len(),
{
    if !earlier(s.last().time_end, now) {
        last_past_is_over(s.drop_last(), now);
    }
}

proof fn after_past(s: Seq<TimeEntryView>, now: Instant)
    ensures
        forall|i: int|
            past_count(s, now) <= i < s.len() ==> !earlier((#[trigger] s[i]).time_end, now),
    decreases s.len(),
{
    past_count_is_bounded(s, now);
    if s.len() > 0 && !earlier(s.last().time_end, now) {
        after_past(s.drop_last(), now);
        assert forall|i: int| past_count(s, now) <= i < s.len() implies !earlier(
            (#[trigger] s[i]).time_end,
            now,
        ) by {
            if i < s.len() - 1 {
                assert(s.drop_last()[i] == s[i]);
            }
        }
    }
}

/// The entries of a group start together, and no group is empty.
pub proof fn groups_start_together(s: Seq<TimeEntryView>)
    ensures
        forall|k: int| 0 <= k < groups(s).len() ==> (#[trigger] groups(s)[k]).len() > 0,
        forall|k: int, i: int|
            0 <= k < groups(s).len() && 0 <= i < groups(s)[k].len() ==> (
            #[trigger] groups(s)[k][i]).time_start.at == groups(s)[k][0].time_start.at,
    decreases s.len(),
{
    if s.len() > 0 {
        groups_start_together(s.drop_last());
        let g = groups(s.drop_last());
        let all = groups(s);
        assert forall|k: int, i: int| 0 <= k < all.len() && 0 <= i < all[k].len() implies (
        #[trigger] all[k][i]).time_start.at == all[k][0].time_start.at by {
            if k < g.len() && i < g[k].len() {
                assert(g[k].len() > 0);
                assert(all[k][i] == g[k][i]);
                assert(all[k][0] == g[k][0]);
            }
        }
        assert forall|k: int| 0 <= k < all.len() implies (#[trigger] all[k]).len() > 0 by {
            if k < g.len() {
                assert(g[k].len() > 0);
            }
        }
    }
}

/// The groups one after the other are the entries they were made from.
pub proof fn groups_keep_entries(s: Seq<TimeEntryView>)
    ensures
        groups(s).flatten() == s,
    decreases s.len(),
{
    groups(s).lemma_flatten_and_flatten_alt_are_equivalent();
    if s.len() == 0 {
        assert(groups(s).flatten_alt() =~= s);
    } else {
        let t = s.drop_last();
        let g = groups(t);
        let e = s.last();
        groups_keep_entries(t);
        g.lemma_flatten_and_flatten_alt_are_equivalent();
        if g.len() > 0 && g.last()[0].time_start.at == e.time_start.at {
            let all = g.drop_last().push(g.last().push(e));
            assert(all.drop_last() =~= g.drop_last());
            assert(all.flatten_alt() =~= g.flatten_alt().push(e));
        } else {
            let all = g.push(seq![e]);
            assert(all.drop_last() =~= g);
            assert(all.flatten_alt() =~= g.flatten_alt().push(e));
        }
        assert(t.push(e) =~= s);
    }
}

/// The groups of entries that are in order of their start each start later
/// than the ones in front of them.
pub proof fn groups_ascend(s: Seq<TimeEntryView>)
    requires
        in_order::<TimeEntry, ByStart>(s),
    ensures
        forall|j: int, k: int|
            0 <= j < k < groups(s).len() ==> earlier(
                (#[trigger] groups(s)[j])[0].time_start.at,
                (#[trigger] groups(s)[k])[0].time_start.at,
            ),
        s.len() > 0 ==> groups(s).len() > 0 && groups(s).last()[0].time_start.at
            == s.last().time_start.at,
    decreases s.len(),
{
    if s.len() > 0 {
        let t = s.drop_last();
        let g = groups(t);
        let all = groups(s);
        assert forall|i: int, j: int| 0 <= i < j < t.len() implies !ByStart::before(
            #[trigger] t[j],
            #[trigger] t[i],
        ) by {
            assert(t[i] == s[i]);
            assert(t[j] == s[j]);
        }
        groups_ascend(t);
        groups_start_together(t);
        if t.len() > 0 {
            assert(!ByStart::before(s[s.len() - 1], s[t.len() - 1]));
            assert(t.last() == s[t.len() - 1]);
        }
        assert forall|j: int, k: int| 0 <= j < k < all.len() implies earlier(
            (#[trigger] all[j])[0].time_start.at,
            (#[trigger] all[k])[0].time_start.at,
        ) by {
            if k < g.len() {
                assert(g[j].len() > 0 && g[k].len() > 0);
                assert(earlier(g[j][0].time_start.at, g[k][0].time_start.at));
                assert(all[k][0] == g[k][0]);
                assert(all[j][0] == g[j][0]);
            } else {
                assert(g[j].len() > 0);
                assert(all[j][0] == g[j][0]);
                if j < g.len() - 1 {
                    assert(earlier(g[j][0].time_start.at, g[g.len() - 1][0].time_start.at));
                }
            }
        }
        if g.len() > 0 {
            assert(g[g.len() - 1].len() > 0);
        }
    }
}

/// A block that is not of today stands under its date: the last date shown at
/// or above it is its own.
pub proof fn blocks_stand_under_their_date(g: Seq<Seq<TimeEntryView>>, today: Date, k: int)
    requires
        0 <= k < g.len(),
        g[k][0].time_start.spec_date() != today,
    ensures
        last_dated(g.take(k + 1), today) == Some(g[k][0].time_start.spec_date()),
{
    assert(g.take(k + 1).last() == g[k]);
}

/// Every entry shows at least one location, and one for each that it has.
pub proof fn entries_show_a_location(e: TimeEntryView, colors: TimeEntryColorSet)
    ensures
        entry_shown(e, colors).locations.len() == (if e.locations.len() == 0 {
            1
        } else {
            e.locations.len()
        }),
        entry_shown(e, colors).courses.len() == e.courses.len(),
{
}

/// An entry is shown with its title and abbreviation, as an exam if it is one, with
/// a tag for each of its courses and locations in their order, and with a stand-in
/// where it has no location.
pub proof fn entries_are_shown_whole(e: TimeEntryView, colors: TimeEntryColorSet)
    ensures
        entry_shown(e, colors).title == e.title,
        entry_shown(e, colors).abbr == e.abbr,
        entry_shown(e, colors).is_exam == e.is_exam,
        entry_shown(e, colors).lecturers == ""@,
        tag_titles(entry_shown(e, colors).courses) == e.courses,
        tag_titles(entry_shown(e, colors).locations) == (if e.locations.len() == 0 {
            seq!["N/A"@]
        } else {
            e.locations
        }),
        e.locations.len() == 0 ==> entry_shown(e, colors).locations[0].color.argb
            == colors.location.default(),
{
    assert(tag_titles(entry_shown(e, colors).courses) =~= e.courses);
    if e.locations.len() > 0 {
        assert(tag_titles(entry_shown(e, colors).locations) =~= e.locations);
    } else {
        assert(tag_titles(entry_shown(e, colors).locations) =~= seq!["N/A"@]);
    }
}

/// A tag has the color of the first rule whose pattern is found in its name, and
/// the default color where none is.
pub proof fn tags_are_colored_by_rules(
    rules: ColorRules,
    names: Seq<Seq<char>>,
    i: int,
    k: int,
)
    requires
        0 <= i < names.len(),
        0 <= k <= rules.rules().len(),
        forall|j: int| 0 <= j < k ==> !regex_finds((#[trigger] rules.rules()[j]).0, names[i]),
        k < rules.rules().len() ==> regex_finds(rules.rules()[k].0, names[i]),
    ensures
        tags(rules, names).len() == names.len(),
        tags(rules, names)[i].title == names[i],
        tags(rules, names)[i].color.argb == (if k < rules.rules().len() {
            rules.rules()[k].1
        } else {
            rules.default()
        }),
        location_tags(rules, names) == tags(rules, names),
{
    first_matching_rule_colors(rules.rules(), names[i], rules.default(), k);
}

/// Entries leave the table only up to one that is over, in the order of their
/// start, in which those that start together stay as they were. So an entry
/// remains if it starts later than each one that is over.
pub proof fn only_past_entries_leave(s: Seq<TimeEntryView>, now: Instant, start: Instant)
    ensures
        ({
            let all = sorted::<TimeEntry, ByStart>(s);
            let n = all.len() - remaining(s, now).len();
            &&& all.to_multiset() == s.to_multiset()
            &&& forall|i: int, j: int|
                0 <= i < j < all.len() ==> !earlier(
                    (#[trigger] all[j]).time_start.at,
                    (#[trigger] all[i]).time_start.at,
                )
            &&& all.filter(|e: TimeEntryView| e.time_start.at == start) == s.filter(
                |e: TimeEntryView| e.time_start.at == start,
            )
            &&& 0 <= n <= all.len()
            &&& remaining(s, now) == all.skip(n)
            &&& n > 0 ==> earlier(all[n - 1].time_end, now)
        }),
        forall|e: TimeEntryView|
            s.contains(e) && (forall|f: TimeEntryView| #[trigger]
                s.contains(f) && earlier(f.time_end, now) ==> earlier(
                    f.time_start.at,
                    e.time_start.at,
                )) ==> #[trigger] remaining(s, now).contains(e),
{
    broadcast use vstd::seq_lib::group_to_multiset_ensures;

    let all = sorted::<TimeEntry, ByStart>(s);
    let r = remaining(s, now);
    sorted_len::<TimeEntry, ByStart>(s);
    sorted_same_values::<TimeEntry, ByStart>(s);
    sorted_in_order::<TimeEntry, ByStart>(s);
    sorted_draws::<TimeEntry, ByStart>(s);
    sorted_keeps_equals::<TimeEntry, ByStart>(s, |e: TimeEntryView| e.time_start.at == start);
    past_count_is_bounded(all, now);
    let n = past_count(all, now);
    if n > 0 {
        last_past_is_over(all, now);
    }
    assert forall|i: int, j: int| 0 <= i < j < all.len() implies !earlier(
        (#[trigger] all[j]).time_start.at,
        (#[trigger] all[i]).time_start.at,
    ) by {
        assert(!ByStart::before(all[j], all[i]));
    }
    assert forall|e: TimeEntryView|
        s.contains(e) && (forall|f: TimeEntryView| #[trigger]
            s.contains(f) && earlier(f.time_end, now) ==> earlier(
                f.time_start.at,
                e.time_start.at,
            )) implies #[trigger] r.contains(e) by {
        assert(s.to_multiset().contains(e));
        assert(all.contains(e));
        let i = choose|i: int| 0 <= i < all.len() && all[i] == e;
        if i < n {
            assert(s.contains(all[n - 1]));
            if i < n - 1 {
                assert(!ByStart::before(all[n - 1], all[i]));
            }
        } else {
            assert(r[i - n] == e);
        }
    }
}

/// An entry is shown if and only if it is there and, in times of exams, is not
/// over, else started no more than half an hour ago. Whether it is an exam itself
/// does not matter. The entries are shown in their order.
pub proof fn entries_are_shown_in_time(s: Seq<TimeEntryView>, now: Instant)
    requires
        s.len() > 0,
    ensures
        s[0].is_exam ==> picked(
            s,
            current(s, now),
            |e: TimeEntryView| !earlier(e.time_end, now),
            |e: TimeEntryView| e,
        ),
        !s[0].is_exam ==> picked(
            s,
            current(s, now),
            |e: TimeEntryView|
                now.secs < e.time_start.at.secs + 1800 || now.secs == e.time_start.at.secs + 1800
                    && now.nanos <= e.time_start.at.nanos,
            |e: TimeEntryView| e,
        ),
{
    let as_is = |e: TimeEntryView| e;
    let kept = |e: TimeEntryView| !left_out(e, s[0].is_exam, now);
    if s[0].is_exam {
        let keep = |e: TimeEntryView| !earlier(e.time_end, now);
        assert(kept =~= keep);
        filter_picks(s, keep, as_is);
        assert(s.filter(keep).map_values(as_is) =~= current(s, now));
    } else {
        let keep = |e: TimeEntryView|
            now.secs < e.time_start.at.secs + 1800 || now.secs == e.time_start.at.secs + 1800
                && now.nanos <= e.time_start.at.nanos;
        assert(kept =~= keep);
        filter_picks(s, keep, as_is);
        assert(s.filter(keep).map_values(as_is) =~= current(s, now));
    }
}

proof fn current_is_in_order(s: Seq<TimeEntryView>, now: Instant)
    requires
        in_order::<TimeEntry, ByStart>(s),
    ensures
        in_order::<TimeEntry, ByStart>(current(s, now)),
{
    let as_is = |e: TimeEntryView| e;
    let kept = |e: TimeEntryView| !left_out(e, s[0].is_exam, now);
    let r = current(s, now);
    filter_picks(s, kept, as_is);
    assert(s.filter(kept).map_values(as_is) =~= r);
    let places = choose|places: Seq<int>| #[trigger] picked_at(s, r, kept, as_is, places);
    assert forall|i: int, j: int| 0 <= i < j < r.len() implies !ByStart::before(
        #[trigger] r[j],
        #[trigger] r[i],
    ) by {
        assert(places[i] < places[j]);
        assert(!ByStart::before(s[places[j]], s[places[i]]));
    }
}

proof fn groups_hold_entries(s: Seq<TimeEntryView>, e: TimeEntryView)
    requires
        s.contains(e),
    ensures
        exists|k: int| 0 <= k < groups(s).len() && (#[trigger] groups(s)[k]).contains(e),
    decreases s.len(),
{
    let t = s.drop_last();
    let g = groups(t);
    let all = groups(s);
    let i = choose|i: int| 0 <= i < s.len() && s[i] == e;
    if i < t.len() {
        assert(t[i] == e);
        groups_hold_entries(t, e);
        let k = choose|k: int| 0 <= k < g.len() && (#[trigger] g[k]).contains(e);
        let m = choose|m: int| 0 <= m < g[k].len() && g[k][m] == e;
        assert(all[k][m] == e);
    } else {
        let k = all.len() - 1;
        assert(all[k][all[k].len() - 1] == e);
    }
}

/// Whether an entry is in exactly one of some groups, and shown in its block.
pub open spec fn is_shown_once(
    g: Seq<Seq<TimeEntryView>>,
    shown: Seq<TimeBlockView>,
    e: TimeEntryView,
    colors: TimeEntryColorSet,
) -> bool {
    &&& g.len() == shown.len()
    &&& exists|k: int|
        0 <= k < g.len() && (#[trigger] g[k]).contains(e) && shown[k].entries.contains(
            entry_shown(e, colors),
        ) && forall|j: int| 0 <= j < g.len() && j != k ==> !(#[trigger] g[j]).contains(e)
}

/// Every entry that remains and has not started is in exactly one of the blocks
/// that are shown, lecture or exam.
pub proof fn entries_ahead_are_shown(
    s: Seq<TimeEntryView>,
    now: DateTime,
    colors: TimeEntryColorSet,
    locale: Seq<char>,
    e: TimeEntryView,
)
    requires
        remaining(s, now.at).contains(e),
        !earlier(e.time_start.at, now.at),
    ensures
        table_shown(remaining(s, now.at), now, colors, locale) matches Some(shown) && is_shown_once(
            groups(current(remaining(s, now.at), now.at)),
            shown,
            e,
            colors,
        ),
{
    broadcast use vstd::seq_lib::group_to_multiset_ensures;

    let r = remaining(s, now.at);
    let c = current(r, now.at);
    let g = groups(c);
    let as_is = |e: TimeEntryView| e;
    nothing_over_remains(s, now.at);
    entries_are_shown_in_time(r, now.at);
    let i = choose|i: int| 0 <= i < r.len() && r[i] == e;
    assert(!earlier(r[i].time_end, now.at));
    if r[0].is_exam {
        picked_are_kept(r, c, |e: TimeEntryView| !earlier(e.time_end, now.at), as_is);
    } else {
        picked_are_kept(
            r,
            c,
            |e: TimeEntryView|
                now.at.secs < e.time_start.at.secs + 1800 || now.at.secs == e.time_start.at.secs
                    + 1800 && now.at.nanos <= e.time_start.at.nanos,
            as_is,
        );
    }
    assert(c.contains(as_is(e)));
    groups_hold_entries(c, e);
    current_is_in_order(r, now.at);
    groups_ascend(c);
    groups_start_together(c);
    let k = choose|k: int| 0 <= k < g.len() && (#[trigger] g[k]).contains(e);
    let m = choose|m: int| 0 <= m < g[k].len() && g[k][m] == e;
    assert(g[k][m].time_start.at == g[k][0].time_start.at);
    assert forall|j: int| 0 <= j < g.len() && j != k implies !(#[trigger] g[j]).contains(e) by {
        if g[j].contains(e) {
            let n = choose|n: int| 0 <= n < g[j].len() && g[j][n] == e;
            assert(g[j][n].time_start.at == g[j][0].time_start.at);
            if j < k {
                assert(earlier(g[j][0].time_start.at, g[k][0].time_start.at));
            } else {
                assert(earlier(g[k][0].time_start.at, g[j][0].time_start.at));
            }
        }
    }
    let sorted_group = sorted::<TimeEntry, ByAbbr>(g[k]);
    sorted_same_values::<TimeEntry, ByAbbr>(g[k]);
    assert(g[k].to_multiset().contains(e));
    assert(sorted_group.contains(e));
    let x = choose|x: int| 0 <= x < sorted_group.len() && sorted_group[x] == e;
    let shown = blocks(g, now.spec_date(), colors, locale);
    assert(shown[k].entries[x] == entry_shown(e, colors));
}

proof fn last_dated_is_not_today(g: Seq<Seq<TimeEntryView>>, today: Date, j: int, k: int)
    requires
        0 <= j < k <= g.len(),
        g[j][0].time_start.spec_date() != today,
        forall|m: int| j < m < k ==> (#[trigger] g[m])[0].time_start.spec_date() == today,
    ensures
        last_dated(g.take(k), today) == Some(g[j][0].time_start.spec_date()),
    decreases k,
{
    assert(g.take(k).drop_last() =~= g.take(k - 1));
    assert(g.take(k).last() == g[k - 1]);
    if j < k - 1 {
        last_dated_is_not_today(g, today, j, k - 1);
    }
}

proof fn today_is_not_dated(g: Seq<Seq<TimeEntryView>>, today: Date, k: int)
    requires
        0 <= k <= g.len(),
        forall|m: int| 0 <= m < k ==> (#[trigger] g[m])[0].time_start.spec_date() == today,
    ensures
        last_dated(g.take(k), today) is None,
    decreases k,
{
    if k > 0 {
        assert(g.take(k).drop_last() =~= g.take(k - 1));
        assert(g.take(k).last() == g[k - 1]);
        today_is_not_dated(g, today, k - 1);
    }
}

/// A block of today shows no date. Another one does, unless the block above it, of
/// those that are not of today, has the same date.
pub proof fn each_date_is_shown_once(
    g: Seq<Seq<TimeEntryView>>,
    today: Date,
    colors: TimeEntryColorSet,
    locale: Seq<char>,
    k: int,
)
    requires
        0 <= k < g.len(),
    ensures
        blocks(g, today, colors, locale).len() == g.len(),
        ({
            let date = g[k][0].time_start.spec_date();
            let shown = blocks(g, today, colors, locale)[k].date;
            let text = localized_date(date.days as int, long_format(), locale);
            &&& date == today ==> shown == ""@
            &&& date != today && (forall|m: int|
                0 <= m < k ==> (#[trigger] g[m])[0].time_start.spec_date() == today) ==> shown
                == text
            &&& forall|j: int|
                #![trigger g[j]]
                0 <= j < k && date != today && g[j][0].time_start.spec_date() != today && (
                forall|m: int|
                    j < m < k ==> (#[trigger] g[m])[0].time_start.spec_date() == today)
                    ==> shown == (if g[j][0].time_start.spec_date() == date {
                    ""@
                } else {
                    text
                })
        }),
{
    let date = g[k][0].time_start.spec_date();
    let shown = blocks(g, today, colors, locale)[k].date;
    let text = localized_date(date.days as int, long_format(), locale);
    if forall|m: int| 0 <= m < k ==> (#[trigger] g[m])[0].time_start.spec_date() == today {
        today_is_not_dated(g, today, k);
    }
    assert forall|j: int|
        #![trigger g[j]]
        0 <= j < k && date != today && g[j][0].time_start.spec_date() != today && (forall|m: int|
            j < m < k ==> (#[trigger] g[m])[0].time_start.spec_date() == today) implies shown == (
    if g[j][0].time_start.spec_date() == date {
        ""@
    } else {
        text
    }) by {
        last_dated_is_not_today(g, today, j, k);
    }
}

/// A block shows when its entries start, and all of them in the order of their
/// abbreviations; those with one abbreviation stay as they were.
pub proof fn blocks_show_all_entries(
    g: Seq<Seq<TimeEntryView>>,
    today: Date,
    colors: TimeEntryColorSet,
    locale: Seq<char>,
    k: int,
    abbr: Seq<char>,
)
    requires
        0 <= k < g.len(),
    ensures
        ({
            let shown = blocks(g, today, colors, locale)[k];
            let all = sorted::<TimeEntry, ByAbbr>(g[k]);
            &&& shown.time == clock_text(g[k][0].time_start)
            &&& shown.entries.len() == all.len()
            &&& forall|i: int|
                0 <= i < all.len() ==> #[trigger] shown.entries[i] == entry_shown(all[i], colors)
            &&& all.to_multiset() == g[k].to_multiset()
            &&& forall|i: int, j: int|
                0 <= i < j < all.len() ==> !text_before(
                    (#[trigger] all[j]).abbr,
                    (#[trigger] all[i]).abbr,
                )
            &&& all.filter(|e: TimeEntryView| e.abbr == abbr) == g[k].filter(
                |e: TimeEntryView| e.abbr == abbr,
            )
        }),
{
    let all = sorted::<TimeEntry, ByAbbr>(g[k]);
    sorted_len::<TimeEntry, ByAbbr>(g[k]);
    sorted_same_values::<TimeEntry, ByAbbr>(g[k]);
    sorted_in_order::<TimeEntry, ByAbbr>(g[k]);
    assert forall|i: int, j: int| 0 <= i < j < all.len() implies !text_before(
        (#[trigger] all[j]).abbr,
        (#[trigger] all[i]).abbr,
    ) by {
        assert(!ByAbbr::before(all[j], all[i]));
    }
    texts_compare(abbr, abbr);
    sorted_keeps_equals::<TimeEntry, ByAbbr>(g[k], |e: TimeEntryView| e.abbr == abbr);
}

} // verus!
