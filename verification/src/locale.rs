//! The language in which dates are written.

use vstd::prelude::*;
use crate::date::{Date, MAX_DAY, MIN_DAY};
use crate::text::{self, replaced};

verus! {

/// Whether `chrono::Locale` has a locale of this name.
pub uninterp spec fn locale_known(name: Seq<char>) -> bool;

/// `chrono::Locale::try_from` finds a locale by its name. `POSIX` is one of them.
#[verifier::external_body]
fn chrono_knows_locale(name: &str) -> (r: bool)
    ensures
        r == locale_known(name@),
        name@ == "POSIX"@ ==> r,
{
    chrono::Locale::try_from(name).is_ok()
}

/// What `chrono::NaiveDate::format_localized` writes for a day number, by a
/// format, in the locale of a name.
pub uninterp spec fn localized_date(days: int, format: Seq<char>, locale: Seq<char>) -> Seq<char>;

/// `chrono::NaiveDate::format_localized` writes a date in words.
#[verifier::external_body]
fn chrono_localized(days: i32, format: &str, locale: &str) -> (r: String)
    requires
        MIN_DAY <= days <= MAX_DAY,
        format@ == long_format() || format@ == year_format(),
        locale_known(locale@),
    ensures
        r@ == localized_date(days as int, format@, locale@),
{
    let locale = chrono::Locale::try_from(locale).unwrap();
    chrono::NaiveDate::from_epoch_days(days).unwrap().format_localized(format, locale).to_string()
}

/// The format of a date with its weekday and the name of its month.
pub open spec fn long_format() -> Seq<char> {
    "%A, %e. %B"@
}

/// The format of a date with its weekday, the name of its month, and its year.
pub open spec fn year_format() -> Seq<char> {
    "%A, %e. %B %Y"@
}

/// A language, by the name of its locale.
#[derive(Debug)]
pub struct Locale {
    name: String,
}

impl Locale {
    #[verifier::type_invariant]
    spec fn known(self) -> bool {
        locale_known(self.name@)
    }

    /// The name of the locale.
    pub closed spec fn spec_name(self) -> Seq<char> {
        self.name@
    }

    /// The name of the locale.
    pub fn name(&self) -> (r: &str)
        ensures
            r@ == self.spec_name(),
            locale_known(r@),
    {
        proof {
            use_type_invariant(self);
        }
        self.name.as_str()
    }

    /// The locale without a language.
    pub fn posix() -> (r: Locale)
        ensures
            r.spec_name() == "POSIX"@,
    {
        let _known: bool = chrono_knows_locale("POSIX");
        Locale { name: "POSIX".to_owned() }
    }

    /// The locale of a name, where there is one.
    pub fn of_name(name: &str) -> (r: Option<Locale>)
        ensures
            match r {
                Some(l) => locale_known(name@) && l.spec_name() == name@,
                None => !locale_known(name@),
            },
    {
        if chrono_knows_locale(name) {
            Some(Locale { name: name.to_owned() })
        } else {
            None
        }
    }

    /// A date with its weekday and the name of its month.
    pub fn date_text(&self, date: Date) -> (r: String)
        requires
            date.valid(),
        ensures
            r@ == localized_date(date.days as int, long_format(), self.spec_name()),
    {
        proof {
            use_type_invariant(self);
        }
        chrono_localized(date.days, "%A, %e. %B", self.name.as_str())
    }

    /// A date as the clock shows it: with its year in January, as a reminder
    /// of the new year.
    pub fn clock_date_text(&self, date: Date) -> (r: String)
        requires
            date.valid(),
        ensures
            r@ == clock_date(date, self.spec_name()),
    {
        proof {
            use_type_invariant(self);
        }
        let (y, m, d): (i32, u32, u32) = date.ymd();
        if m == 1 {
            chrono_localized(date.days, "%A, %e. %B %Y", self.name.as_str())
        } else {
            chrono_localized(date.days, "%A, %e. %B", self.name.as_str())
        }
    }
}

/// A date as the clock shows it: with its year in January.
pub open spec fn clock_date(date: Date, locale: Seq<char>) -> Seq<char> {
    localized_date(
        date.days as int,
        if date.spec_ymd().1 == 1 {
            year_format()
        } else {
            long_format()
        },
        locale,
    )
}

/// The name of a locale as the system gives it, with `_` for `-`.
pub open spec fn locale_name(system: Seq<char>) -> Seq<char> {
    replaced(system, seq!['-'], seq!['_'])
}

/// Why the system's locale is not used.
pub open spec fn locale_problem(system: Option<Seq<char>>) -> Option<Seq<char>> {
    match system {
        None => Some("detect system locale"@),
        Some(s) => if locale_known(locale_name(s)) {
            None
        } else {
            Some("parse system locale '"@ + s + "'"@)
        },
    }
}

/// The locale for the name that the system gives, and what failed where there
/// is none: then it is the one without a language.
pub fn locale(system: Option<&str>) -> (r: (Locale, Option<String>))
    ensures
        r.1.deep_view() == locale_problem(
            match system {
                Some(s) => Some(s@),
                None => None,
            },
        ),
        match (system, r.1) {
            (Some(s), None) => r.0.spec_name() == locale_name(s@),
            _ => r.0.spec_name() == "POSIX"@,
        },
{
    match system {
        None => (Locale::posix(), Some("detect system locale".to_owned())),
        Some(s) => {
            proof {
                reveal_strlit("-");
                reveal_strlit("_");
                assert("-"@ =~= seq!['-']);
                assert("_"@ =~= seq!['_']);
            }
            let name: String = text::replace(s, "-", "_");
            match Locale::of_name(name.as_str()) {
                Some(l) => (l, None),
                None => {
                    let mut why: String = "parse system locale '".to_owned();
                    why.append(s);
                    why.append("'");
                    (Locale::posix(), Some(why))
                },
            }
        },
    }
}

// ---------------------------------------------------------------------------
// Laws of locales
// ---------------------------------------------------------------------------

/// The clock shows the year in January and in no other month; the weekday, the day and
/// the month it always shows.
pub proof fn years_are_shown_in_january(date: Date, y: int, m: int, d: int, locale: Seq<char>)
    requires
        date.is_ymd(y, m, d),
    ensures
        m == 1 ==> clock_date(date, locale) == localized_date(
            date.days as int,
            "%A, %e. %B %Y"@,
            locale,
        ),
        m != 1 ==> clock_date(date, locale) == localized_date(
            date.days as int,
            "%A, %e. %B"@,
            locale,
        ),
        long_format() == "%A, %e. %B"@,
{
    date.ymd_is_unique(y, m, d);
}

/// In the name of a locale each hyphen becomes an underscore, and nothing else changes.
pub proof fn hyphens_become_underscores(language: Seq<char>, rest: Seq<char>)
    requires
        !text::has_part(language, seq!['-']),
    ensures
        locale_name(language) == language,
        locale_name(language + seq!['-'] + rest) == language + seq!['_'] + locale_name(rest),
{
    let pat = seq!['-'];
    let s = language + pat + rest;
    assert forall|j: int| 0 <= j < language.len() implies !#[trigger] text::occurs_at(s, pat, j) by {
        if text::occurs_at(s, pat, j) {
            assert(s.subrange(j, j + 1)[0] == '-');
            assert(language.subrange(j, j + 1) =~= pat);
            assert(text::occurs_at(language, pat, j));
        }
    }
    text::replacing_goes_on(language, pat, rest, seq!['_']);
    let none = Seq::<char>::empty();
    assert forall|j: int| 0 <= j < none.len() implies !#[trigger] text::occurs_at(
        none + pat + language,
        pat,
        j,
    ) by {}
    text::replacing_goes_on(none, pat, language, seq!['_']);
}

/// The system's locale is used if it gives one that is known.
pub proof fn known_locales_are_used(system: Seq<char>)
    ensures
        locale_known(locale_name(system)) ==> locale_problem(Some(system)) is None,
        !locale_known(locale_name(system)) ==> locale_problem(Some(system)) == Some(
            "parse system locale '"@ + system + "'"@,
        ),
        locale_problem(None) == Some("detect system locale"@),
{
}

} // verus!
