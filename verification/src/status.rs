//! What is said when something fails.

use vstd::prelude::*;
use crate::text::{self, replaced};

verus! {

/// The cause of an error, each part of it on a line of its own.
pub open spec fn cause_lines(cause: Seq<char>) -> Seq<char> {
    replaced(cause, ": "@, "\n"@)
}

fn split_cause(cause: &str) -> (r: String)
    ensures
        r@ == cause_lines(cause@),
{
    proof {
        reveal_strlit(": ");
    }
    text::replace(cause, ": ", "\n")
}

/// An error as it is shown: what happened, and its cause on the lines below, if
/// there is one.
pub open spec fn showable(message: Seq<char>, cause: Seq<char>) -> Seq<char> {
    if cause_lines(cause).len() == 0 {
        message
    } else {
        message + "\n"@ + cause_lines(cause)
    }
}

/// An error as it is shown. A missing cause is an empty one.
pub fn error_showable(message: &str, cause: &str) -> (r: String)
    ensures
        r@ == showable(message@, cause@),
{
    let lines: String = split_cause(cause);
    let mut r: String = message.to_owned();
    if !lines.as_str().is_empty() {
        r.append("\n");
        r.append(lines.as_str());
    }
    r
}

/// What the departure board says of an error: what happened, and its cause on
/// the lines below, which may be empty.
pub fn departure_status(message: &str, cause: &str) -> (r: String)
    ensures
        r@ == message@ + "\n"@ + cause_lines(cause@),
{
    let lines: String = split_cause(cause);
    let mut r: String = message.to_owned();
    r.append("\n");
    r.append(lines.as_str());
    r
}

/// What keeps a screen up to date.
#[derive(Clone, Copy, Debug, PartialEq, Eq, Structural)]
pub enum Updater {
    Lectures,
    Headlines,
    Table,
    Exams,
    Other,
}

/// What is said of an updater that has ended, before the reason.
pub open spec fn ended(updater: Updater) -> Seq<char> {
    match updater {
        Updater::Lectures => "failed to update lectures: "@,
        Updater::Headlines => "failed to update headlines: "@,
        Updater::Table => "failed to update table: "@,
        Updater::Exams => "failed to update exams: "@,
        Updater::Other => "failed to update: "@,
    }
}

/// What is said of an updater that has ended, for a reason.
pub fn update_failed(updater: Updater, reason: &str) -> (r: String)
    ensures
        r@ == ended(updater) + reason@,
{
    let mut r: String = match updater {
        Updater::Lectures => "failed to update lectures: ".to_owned(),
        Updater::Headlines => "failed to update headlines: ".to_owned(),
        Updater::Table => "failed to update table: ".to_owned(),
        Updater::Exams => "failed to update exams: ".to_owned(),
        Updater::Other => "failed to update: ".to_owned(),
    };
    r.append(reason);
    r
}

/// What is said of a panic: its message, where it is an owned or a literal text,
/// else what is known of it.
pub fn panic_description(owned: Option<String>, literal: Option<&str>, debug: &str) -> (r: String)
    ensures
        r@ == (match (owned, literal) {
            (Some(s), _) => s@,
            (None, Some(s)) => s@,
            (None, None) => "unknown panic type: "@ + debug@,
        }),
{
    match owned {
        Some(s) => s,
        None => match literal {
            Some(s) => s.to_owned(),
            None => {
                let mut r: String = "unknown panic type: ".to_owned();
                r.append(debug);
                r
            },
        },
    }
}

// ---------------------------------------------------------------------------
// Laws of what is said
// ---------------------------------------------------------------------------

/// Each part of a cause stands on a line of its own: a line ends where a colon and a
/// space separate two parts, and nowhere else.
pub proof fn causes_are_split_at_colons(part: Seq<char>, rest: Seq<char>)
    requires
        forall|j: int|
            0 <= j < part.len() ==> !#[trigger] text::occurs_at(part + ": "@ + rest, ": "@, j),
    ensures
        cause_lines(part + ": "@ + rest) == part + "\n"@ + cause_lines(rest),
        !text::has_part(rest, ": "@) ==> cause_lines(rest) == rest,
{
    reveal_strlit(": ");
    text::replacing_goes_on(part, ": "@, rest, "\n"@);
}

/// What happened stands first, and its cause on the lines below; without a cause there
/// is nothing below.
pub proof fn messages_stand_above_causes(message: Seq<char>, cause: Seq<char>)
    ensures
        showable(message, Seq::empty()) == message,
        cause.len() > 0 && cause_lines(cause).len() > 0 ==> showable(message, cause) == message
            + "\n"@ + cause_lines(cause),
        message.is_prefix_of(showable(message, cause)),
{
    reveal_strlit(": ");
    let none = Seq::<char>::empty();
    text::split_is_first(none, ": "@);
    if text::has_part(none, ": "@) {
        let i = choose|i: int| text::occurs_at(none, ": "@, i);
        assert(i + 2 <= 0);
    }
    assert(text::pieces(none, ": "@) == seq![none]);
    assert(cause_lines(none) == none);
}

/// An updater that has ended is named.
pub proof fn ended_updaters_are_named(updater: Updater)
    ensures
        updater is Lectures ==> ended(updater) == "failed to update lectures: "@,
        updater is Headlines ==> ended(updater) == "failed to update headlines: "@,
        updater is Table ==> ended(updater) == "failed to update table: "@,
        updater is Exams ==> ended(updater) == "failed to update exams: "@,
        updater is Other ==> ended(updater) == "failed to update: "@,
{
}

} // verus!
