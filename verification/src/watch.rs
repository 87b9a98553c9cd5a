//! When exams and lectures are fetched again, and what becomes of a fetch.

use vstd::prelude::*;
use crate::clock::{earlier, ordinary, wait_until, DateTime, Instant, Wait};
use crate::order::{sorted, sorted_draws, sorted_in_order, sorted_keeps_equals, sorted_len, sorted_same_values, stable_sort, Order};
use crate::timetable::{all_valid, ByEnd, TimeEntry, TimeEntryView};

verus! {

/// The time until `end`, and half a minute where that is over.
pub open spec fn wait_or_retry(end: Instant, now: Instant) -> Wait {
    match wait_until(end, now) {
        Some(w) => w,
        None => Wait::spec_secs(30),
    }
}

fn wait_for(end: Instant, now: Instant) -> (r: Wait)
    requires
        ordinary(end),
        ordinary(now),
    ensures
        r == wait_or_retry(end, now),
{
    match end.until(now) {
        Some(w) => w,
        None => Wait::seconds(30),
    }
}

// ---------------------------------------------------------------------------
// Exams
// ---------------------------------------------------------------------------

/// Keeps track of whether it is a time of exams.
#[derive(Clone, Copy, Debug, PartialEq, Eq, Structural)]
pub struct ExamWatch {
    pub is_exam_phase: bool,
}

/// What follows a fetch of exams.
#[derive(Debug)]
pub struct ExamStep {
    /// Whether a failed fetch is reported.
    pub report: bool,
    /// When the last exam starts.
    pub exam_end: Option<DateTime>,
    /// The entries to be added to the timetable.
    pub send: Option<Vec<TimeEntry>>,
    /// The time until the next fetch.
    pub sleep: Wait,
}

/// What an `ExamStep` holds.
#[verifier::ext_equal]
pub struct ExamStepView {
    pub report: bool,
    pub exam_end: Option<DateTime>,
    pub send: Option<Seq<TimeEntryView>>,
    pub sleep: Wait,
}

impl DeepView for ExamStep {
    type V = ExamStepView;

    open spec fn deep_view(&self) -> ExamStepView {
        ExamStepView {
            report: self.report,
            exam_end: self.exam_end,
            send: self.send.deep_view(),
            sleep: self.sleep,
        }
    }
}

/// The step after a fetch that failed or brought nothing.
pub open spec fn idle_exam_step(report: bool) -> ExamStepView {
    ExamStepView { report, exam_end: None, send: None, sleep: Wait::spec_secs(30) }
}

/// Whether `now` lies between the start of the first and the end of the last
/// of some exams, in order of their ends.
pub open spec fn exams_run(exams: Seq<TimeEntryView>, now: Instant) -> bool {
    !earlier(now, exams[0].time_start.at) && earlier(now, exams.last().time_end)
}

/// The step after a fetch that brought exams, in order of their ends.
pub open spec fn exam_step(exams: Seq<TimeEntryView>, now: Instant) -> ExamStepView {
    ExamStepView {
        report: false,
        exam_end: Some(exams.last().time_start),
        send: Some(exams),
        sleep: wait_or_retry(exams.last().time_end, now),
    }
}

impl ExamWatch {
    /// At first it is no time of exams.
    pub fn new() -> (r: ExamWatch)
        ensures
            !r.is_exam_phase,
    {
        ExamWatch { is_exam_phase: false }
    }

    /// Takes the result of a fetch. A failed one is reported in times of exams
    /// only; else it counts as one that brought nothing.
    pub fn fetched(&mut self, exams: Option<Vec<TimeEntry>>, now: Instant) -> (r: ExamStep)
        requires
            ordinary(now),
            exams matches Some(v) ==> all_valid(v.deep_view()),
        ensures
            match exams {
                None => *final(self) == *old(self) && r.deep_view() == idle_exam_step(
                    old(self).is_exam_phase,
                ),
                Some(v) => if v@.len() == 0 {
                    *final(self) == *old(self) && r.deep_view() == idle_exam_step(false)
                } else {
                    let ended = sorted::<TimeEntry, ByEnd>(v.deep_view());
                    final(self).is_exam_phase == exams_run(ended, now) && r.deep_view()
                        == exam_step(ended, now)
                },
            },
            r.report <==> exams is None && old(self).is_exam_phase,
            r.send is Some <==> (exams matches Some(v) && v@.len() > 0),
            r.exam_end is Some <==> r.send is Some,
            r.send is None ==> final(self).is_exam_phase == old(self).is_exam_phase && r.sleep == (
            Wait { secs: 30, nanos: 0 }),
    {
        match exams {
            None => ExamStep {
                report: self.is_exam_phase,
                exam_end: None,
                send: None,
                sleep: Wait::seconds(30),
            },
            Some(v) => {
                if v.len() == 0 {
                    return ExamStep {
                        report: false,
                        exam_end: None,
                        send: None,
                        sleep: Wait::seconds(30),
                    };
                }
                let ghost given = v.deep_view();
                proof {
                    sorted_len::<TimeEntry, ByEnd>(given);
                    sorted_draws::<TimeEntry, ByEnd>(given);
                }
                let ended: Vec<TimeEntry> = stable_sort::<TimeEntry, ByEnd>(v);
                let ghost s = ended.deep_view();
                let n: usize = ended.len();
                assert(s.len() == given.len());
                proof {
                    assert(given.contains(s[n - 1]));
                    assert(s[n - 1] == ended@[n - 1].deep_view());
                    assert(s[0] == ended@[0].deep_view());
                }
                let first: Instant = ended[0].time_start.at;
                let last: DateTime = ended[n - 1].time_start;
                let end: Instant = ended[n - 1].time_end;
                self.is_exam_phase = !now.is_earlier(first) && now.is_earlier(end);
                ExamStep {
                    report: false,
                    exam_end: Some(last),
                    send: Some(ended),
                    sleep: wait_for(end, now),
                }
            },
        }
    }
}

// ---------------------------------------------------------------------------
// Lectures
// ---------------------------------------------------------------------------

/// The position of the last of the entries that start latest.
pub open spec fn latest(s: Seq<TimeEntryView>) -> int
    decreases s.len(),
{
    if s.len() <= 1 {
        0
    } else {
        let k = latest(s.drop_last());
        if earlier(s.last().time_start.at, s[k].time_start.at) {
            k
        } else {
            s.len() - 1
        }
    }
}

/// No entry starts later than the latest, and those behind it start earlier.
pub proof fn latest_is_last_maximum(s: Seq<TimeEntryView>)
    requires
        s.len() > 0,
    ensures
        0 <= latest(s) < s.len(),
        forall|i: int|
            0 <= i < s.len() ==> !earlier(
                s[latest(s)].time_start.at,
                (#[trigger] s[i]).time_start.at,
            ),
        forall|i: int|
            latest(s) < i < s.len() ==> earlier(
                (#[trigger] s[i]).time_start.at,
                s[latest(s)].time_start.at,
            ),
    decreases s.len(),
{
    if s.len() > 1 {
        let t = s.drop_last();
        latest_is_last_maximum(t);
        assert forall|i: int| 0 <= i < s.len() implies !earlier(
            s[latest(s)].time_start.at,
            (#[trigger] s[i]).time_start.at,
        ) by {
            if i < t.len() {
                assert(t[i] == s[i]);
            }
        }
        assert forall|i: int| latest(s) < i < s.len() implies earlier(
            (#[trigger] s[i]).time_start.at,
            s[latest(s)].time_start.at,
        ) by {
            if i < t.len() {
                assert(t[i] == s[i]);
            }
        }
    }
}

/// The time until lectures are fetched again: until the one that starts latest
/// is over, and half a minute where there is none or that is over.
pub open spec fn lecture_pause(s: Seq<TimeEntryView>, now: Instant) -> Wait {
    if s.len() == 0 {
        Wait::spec_secs(30)
    } else {
        wait_or_retry(s[latest(s)].time_end, now)
    }
}

fn find_latest(entries: &Vec<TimeEntry>) -> (r: usize)
    requires
        entries@.len() > 0,
    ensures
        r == latest(entries.deep_view()),
        r < entries@.len(),
{
    let ghost all = entries.deep_view();
    let mut k: usize = 0;
    let mut i: usize = 1;
    assert(latest(all.take(1)) == 0);
    while i < entries.len()
        invariant
            all == entries.deep_view(),
            1 <= i <= entries@.len(),
            k < i,
            k == latest(all.take(i as int)),
        decreases entries@.len() - i,
    {
        proof {
            assert(all.take(i + 1).drop_last() =~= all.take(i as int));
            assert(all.take(i + 1).last() == entries@[i as int].deep_view());
            assert(all.take(i + 1)[k as int] == entries@[k as int].deep_view());
        }
        if !entries[i].time_start.at.is_earlier(entries[k].time_start.at) {
            k = i;
        }
        i = i + 1;
    }
    assert(all.take(i as int) =~= all);
    k
}

/// What a fetch of lectures came to.
#[derive(Debug)]
pub enum LectureFetch {
    /// The base data could not be had, for a reason.
    BaseFailed(String),
    /// The lectures could not be had, for a reason.
    TimesFailed(String),
    /// The lectures.
    Times(Vec<TimeEntry>),
}

/// What follows a fetch of lectures.
#[derive(Debug)]
pub struct LectureStep {
    /// Whether the base data can be used again.
    pub keep_base: bool,
    /// What is reported.
    pub status: Option<String>,
    /// The entries to be added to the timetable.
    pub send: Option<Vec<TimeEntry>>,
    /// The time until the next fetch.
    pub sleep: Wait,
}

/// What a `LectureStep` holds.
#[verifier::ext_equal]
pub struct LectureStepView {
    pub keep_base: bool,
    pub status: Option<Seq<char>>,
    pub send: Option<Seq<TimeEntryView>>,
    pub sleep: Wait,
}

impl DeepView for LectureStep {
    type V = LectureStepView;

    open spec fn deep_view(&self) -> LectureStepView {
        LectureStepView {
            keep_base: self.keep_base,
            status: self.status.deep_view(),
            send: self.send.deep_view(),
            sleep: self.sleep,
        }
    }
}

/// What follows a fetch of lectures.
pub open spec fn lecture_step(fetch: LectureFetch, now: Instant) -> LectureStepView {
    match fetch {
        LectureFetch::BaseFailed(why) => LectureStepView {
            keep_base: false,
            status: Some("failed to load lecture base data: "@ + why@),
            send: None,
            sleep: Wait::spec_secs(30),
        },
        LectureFetch::TimesFailed(why) => LectureStepView {
            keep_base: false,
            status: Some("failed to load lecture timetable: "@ + why@),
            send: None,
            sleep: Wait::spec_secs(30),
        },
        LectureFetch::Times(entries) => LectureStepView {
            keep_base: true,
            status: None,
            send: Some(entries.deep_view()),
            sleep: lecture_pause(entries.deep_view(), now),
        },
    }
}

/// Takes what a fetch of lectures came to. After a failure the base data is
/// fetched anew.
pub fn lectures_fetched(fetch: LectureFetch, now: Instant) -> (r: LectureStep)
    requires
        ordinary(now),
        fetch matches LectureFetch::Times(v) ==> all_valid(v.deep_view()),
    ensures
        r.deep_view() == lecture_step(fetch, now),
{
    match fetch {
        LectureFetch::BaseFailed(why) => {
            let mut status: String = "failed to load lecture base data: ".to_owned();
            status.append(why.as_str());
            LectureStep {
                keep_base: false,
                status: Some(status),
                send: None,
                sleep: Wait::seconds(30),
            }
        },
        LectureFetch::TimesFailed(why) => {
            let mut status: String = "failed to load lecture timetable: ".to_owned();
            status.append(why.as_str());
            LectureStep {
                keep_base: false,
                status: Some(status),
                send: None,
                sleep: Wait::seconds(30),
            }
        },
        LectureFetch::Times(entries) => {
            let sleep: Wait = if entries.len() == 0 {
                Wait::seconds(30)
            } else {
                let k: usize = find_latest(&entries);
                assert(entries.deep_view()[k as int] == entries@[k as int].deep_view());
                assert(entries.deep_view()[k as int].valid());
                wait_for(entries[k].time_end, now)
            };
            LectureStep { keep_base: true, status: None, send: Some(entries), sleep }
        },
    }
}

// ---------------------------------------------------------------------------
// Laws of the watches
// ---------------------------------------------------------------------------

/// A wait that starts now ends on time, to the nanosecond; where that is over, it
/// takes half a minute.
pub proof fn waits_end_on_time(end: Instant, now: Instant)
    requires
        ordinary(end),
        ordinary(now),
    ensures
        ({
            let w = wait_or_retry(end, now);
            let at = now.secs * 1_000_000_000 + now.nanos;
            let goal = end.secs * 1_000_000_000 + end.nanos;
            if goal < at {
                w.secs == 30 && w.nanos == 0
            } else {
                at + w.secs * 1_000_000_000 + w.nanos == goal && w.nanos < 1_000_000_000
            }
        }),
{
    if !earlier(end, now) {
        crate::clock::wait_ends_on_time(end, now);
    }
}

/// Exams are handed on, all of them, in the order of their ends; those that end
/// together stay as they were.
pub proof fn exams_go_by_their_ends(exams: Seq<TimeEntryView>, end: Instant)
    ensures
        ({
            let r = sorted::<TimeEntry, ByEnd>(exams);
            &&& r.len() == exams.len()
            &&& r.to_multiset() == exams.to_multiset()
            &&& forall|i: int, j: int|
                0 <= i < j < r.len() ==> !earlier(
                    (#[trigger] r[j]).time_end,
                    (#[trigger] r[i]).time_end,
                )
            &&& r.filter(|e: TimeEntryView| e.time_end == end) == exams.filter(
                |e: TimeEntryView| e.time_end == end,
            )
        }),
{
    let r = sorted::<TimeEntry, ByEnd>(exams);
    sorted_len::<TimeEntry, ByEnd>(exams);
    sorted_same_values::<TimeEntry, ByEnd>(exams);
    sorted_in_order::<TimeEntry, ByEnd>(exams);
    sorted_keeps_equals::<TimeEntry, ByEnd>(exams, |e: TimeEntryView| e.time_end == end);
    assert forall|i: int, j: int| 0 <= i < j < r.len() implies !earlier(
        (#[trigger] r[j]).time_end,
        (#[trigger] r[i]).time_end,
    ) by {
        assert(!ByEnd::before(r[j], r[i]));
    }
}

/// It is a time of exams as soon as the one that ends first has started, and until
/// none goes on any more. Exams are fetched again when the last one is over, and its
/// start is shown as their end.
pub proof fn exams_run_until_the_last_is_over(exams: Seq<TimeEntryView>, now: Instant)
    requires
        exams.len() > 0,
    ensures
        ({
            let r = sorted::<TimeEntry, ByEnd>(exams);
            let step = exam_step(r, now);
            &&& exams_run(r, now) <==> !earlier(now, r[0].time_start.at) && exists|i: int|
                0 <= i < exams.len() && earlier(now, (#[trigger] exams[i]).time_end)
            &&& !step.report
            &&& step.send == Some(r)
            &&& exists|i: int|
                0 <= i < exams.len() && step.exam_end == Some((#[trigger] exams[i]).time_start)
                    && step.sleep == wait_or_retry(exams[i].time_end, now) && forall|j: int|
                    0 <= j < exams.len() ==> !earlier(
                        exams[i].time_end,
                        (#[trigger] exams[j]).time_end,
                    )
        }),
{
    broadcast use vstd::seq_lib::group_to_multiset_ensures;

    let r = sorted::<TimeEntry, ByEnd>(exams);
    exams_go_by_their_ends(exams, now);
    sorted_draws::<TimeEntry, ByEnd>(exams);
    let n = r.len() - 1;
    assert(exams.contains(r[n]));
    let m = choose|m: int| 0 <= m < exams.len() && exams[m] == r[n];
    assert forall|j: int| 0 <= j < exams.len() implies !earlier(
        exams[m].time_end,
        (#[trigger] exams[j]).time_end,
    ) by {
        assert(exams.to_multiset().contains(exams[j]));
        assert(r.contains(exams[j]));
        let i = choose|i: int| 0 <= i < r.len() && r[i] == exams[j];
        if i < n {
            assert(!earlier(r[n].time_end, r[i].time_end));
        }
    }
    if exists|i: int| 0 <= i < exams.len() && earlier(now, (#[trigger] exams[i]).time_end) {
        let i = choose|i: int| 0 <= i < exams.len() && earlier(now, (#[trigger] exams[i]).time_end);
        assert(!earlier(exams[m].time_end, exams[i].time_end));
    }
    assert(exams[m].time_end == r.last().time_end);
}

/// A fetch that brought nothing hands nothing on, and is tried again in half a minute.
pub proof fn idle_fetches_are_tried_again(report: bool)
    ensures
        idle_exam_step(report).report == report,
        idle_exam_step(report).exam_end is None,
        idle_exam_step(report).send is None,
        idle_exam_step(report).sleep == (Wait { secs: 30, nanos: 0 }),
{
}

/// Lectures are fetched again when the one that starts latest is over, of several
/// the last one; without lectures, in half a minute.
pub proof fn lectures_are_fetched_after_the_latest(s: Seq<TimeEntryView>, now: Instant, k: int)
    requires
        s.len() > 0 ==> 0 <= k < s.len(),
        forall|i: int|
            0 <= i < s.len() ==> !earlier(s[k].time_start.at, (#[trigger] s[i]).time_start.at),
        forall|i: int|
            k < i < s.len() ==> earlier((#[trigger] s[i]).time_start.at, s[k].time_start.at),
    ensures
        s.len() > 0 ==> lecture_pause(s, now) == wait_or_retry(s[k].time_end, now),
        s.len() == 0 ==> lecture_pause(s, now) == (Wait { secs: 30, nanos: 0 }),
{
    if s.len() > 0 {
        latest_is_last_maximum(s);
        let m = latest(s);
        assert(!earlier(s[m].time_start.at, s[k].time_start.at));
        if m < k {
            assert(earlier(s[k].time_start.at, s[m].time_start.at));
        } else if k < m {
            assert(earlier(s[m].time_start.at, s[k].time_start.at));
        }
    }
}

/// Lectures that were had are handed on, with nothing to report, and the base data is
/// kept. After a failure nothing is handed on, the reason is reported, and all is
/// fetched anew in half a minute.
pub proof fn failed_fetches_start_anew(fetch: LectureFetch, now: Instant)
    ensures
        match fetch {
            LectureFetch::Times(entries) => lecture_step(fetch, now).keep_base && lecture_step(
                fetch,
                now,
            ).status is None && lecture_step(fetch, now).send == Some(entries.deep_view())
                && lecture_step(fetch, now).sleep == lecture_pause(entries.deep_view(), now),
            _ => !lecture_step(fetch, now).keep_base && lecture_step(fetch, now).send is None
                && lecture_step(fetch, now).sleep == (Wait { secs: 30, nanos: 0 }),
        },
        fetch matches LectureFetch::BaseFailed(why) ==> lecture_step(fetch, now).status == Some(
            "failed to load lecture base data: "@ + why@,
        ),
        fetch matches LectureFetch::TimesFailed(why) ==> lecture_step(fetch, now).status == Some(
            "failed to load lecture timetable: "@ + why@,
        ),
{
}

} // verus!
