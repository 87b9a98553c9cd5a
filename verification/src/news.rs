//! Headlines of a news feed.

use vstd::prelude::*;
use crate::clock::{clock_text, gives_local, in_span, nanos_fit, shown_at, wall_day_month, DateTime, Instant, Wait, MAX_SECS, MIN_SECS};
use crate::lists::{self, pick_grows, pick_of_none, picked, picked_are_kept};
use crate::text::{self, trimmed, without_suffixes};

verus! {

// ---------------------------------------------------------------------------
// Feeds that can be read
// ---------------------------------------------------------------------------

/// Whether a byte is white space in XML.
pub open spec fn is_blank(b: u8) -> bool {
    b == 9 || b == 10 || b == 13 || b == 32
}

/// The first position at or after `k` that holds no white space.
pub open spec fn after_blanks(data: Seq<u8>, k: int) -> int
    decreases data.len() - k,
{
    if 0 <= k < data.len() && is_blank(data[k]) {
        after_blanks(data, k + 1)
    } else {
        k
    }
}

/// The first position at or after `k` that holds a byte; the length if there is
/// none.
pub open spec fn find_byte(data: Seq<u8>, b: u8, k: int) -> int
    decreases data.len() - k,
{
    if 0 <= k < data.len() && data[k] != b {
        find_byte(data, b, k + 1)
    } else {
        k
    }
}

/// Whether the bytes of a name stand at position `i`.
pub open spec fn stands_at(data: Seq<u8>, name: Seq<u8>, i: int) -> bool {
    0 <= i && i + name.len() <= data.len() && data.subrange(i, i + name.len()) == name
}

/// Whether the bytes of a name stand somewhere.
pub open spec fn mentions(data: Seq<u8>, name: Seq<u8>) -> bool {
    exists|i: int| stands_at(data, name, i)
}

/// The namespace of elements on media: `http://search.yahoo.com/mrss/`.
pub open spec fn media_name() -> Seq<u8> {
    seq![
        104u8, 116, 116, 112, 58, 47, 47, 115, 101, 97, 114, 99, 104, 46, 121, 97, 104, 111, 111,
        46, 99, 111, 109, 47, 109, 114, 115, 115, 47,
    ]
}

/// The namespace of elements on podcasts:
/// `http://www.itunes.com/dtds/podcast-1.0.dtd`.
pub open spec fn podcast_name() -> Seq<u8> {
    seq![
        104u8, 116, 116, 112, 58, 47, 47, 119, 119, 119, 46, 105, 116, 117, 110, 101, 115, 46, 99,
        111, 109, 47, 100, 116, 100, 115, 47, 112, 111, 100, 99, 97, 115, 116, 45, 49, 46, 48, 46,
        100, 116, 100,
    ]
}

/// The names of the attributes that hold a time of play: `time`, `start`, `end`.
pub open spec fn time_names() -> Seq<Seq<u8>> {
    seq![
        seq![116u8, 105, 109, 101],
        seq![115u8, 116, 97, 114, 116],
        seq![101u8, 110, 100],
    ]
}

/// The name of the element that holds a time of play: `duration`.
pub open spec fn duration_name() -> Seq<u8> {
    seq![100u8, 117, 114, 97, 116, 105, 111, 110]
}

/// The names of the elements with those attributes: `thumbnail`, and twice `text`.
pub open spec fn time_tags() -> Seq<Seq<u8>> {
    seq![
        seq![116u8, 104, 117, 109, 98, 110, 97, 105, 108],
        seq![116u8, 101, 120, 116],
        seq![116u8, 101, 120, 116],
    ]
}

/// What starts a section of plain text: `<![CDATA[`.
pub open spec fn section_start() -> Seq<u8> {
    seq![60u8, 33, 91, 67, 68, 65, 84, 65, 91]
}

/// What ends a section of plain text and starts the end of an element: `]]></`.
pub open spec fn section_end() -> Seq<u8> {
    seq![93u8, 93, 62, 60, 47]
}

/// The end of the tag that goes on at position `k`: the first `>` outside of
/// quotes, where `quote` is the quote that is open there, and 0 if there is none.
pub open spec fn tag_end(data: Seq<u8>, k: int, quote: u8) -> int
    decreases data.len() - k,
{
    if !(0 <= k < data.len()) {
        k
    } else if quote != 0 {
        tag_end(
            data,
            k + 1,
            if data[k] == quote {
                0
            } else {
                quote
            },
        )
    } else if data[k] == 62 {
        k
    } else if data[k] == 34 || data[k] == 39 {
        tag_end(data, k + 1, data[k])
    } else {
        tag_end(data, k + 1, 0)
    }
}

/// The first white space at or after position `k`; `end` if there is none before.
pub open spec fn name_end(data: Seq<u8>, k: int, end: int) -> int
    decreases end - k,
{
    if 0 <= k < end && k < data.len() && !is_blank(data[k]) {
        name_end(data, k + 1, end)
    } else {
        k
    }
}

/// Whether a tag starts at position `i` that begins an element of a name, with
/// or without a prefix.
pub open spec fn tag_named(data: Seq<u8>, i: int, name: Seq<u8>) -> bool {
    let at = name_end(data, i + 1, tag_end(data, i + 1, 0)) - name.len();
    &&& 0 <= i < data.len() && data[i] == 60
    &&& i < at
    &&& stands_at(data, name, at)
    &&& at == i + 1 || data[at - 1] == 58
    &&& data[i + 1] != 47
}

/// Whether an attribute can start at position `i`: behind white space or behind
/// the quote that ends another one.
pub open spec fn attribute_at(data: Seq<u8>, i: int) -> bool {
    0 < i <= data.len() && (is_blank(data[i - 1]) || data[i - 1] == 34 || data[i - 1] == 39)
}

/// The quoted value that is set for the name that ends before position `k`.
pub open spec fn value_after(data: Seq<u8>, k: int) -> Option<Seq<u8>> {
    let eq = after_blanks(data, k);
    let open = after_blanks(data, eq + 1);
    if eq < data.len() && data[eq] == 61 && open < data.len() && (data[open] == 34 || data[open]
        == 39) {
        Some(data.subrange(open + 1, find_byte(data, data[open], open + 1)))
    } else {
        None
    }
}

/// Whether a byte is a decimal digit.
pub open spec fn is_digit(b: u8) -> bool {
    48 <= b <= 57
}

/// The value of a digit of base 16; 16 for a byte that is none.
pub open spec fn digit_value(b: u8) -> int {
    if 48 <= b <= 57 {
        b - 48
    } else if 97 <= b <= 102 {
        b - 87
    } else if 65 <= b <= 70 {
        b - 55
    } else {
        16
    }
}

/// The number that the digits from position `i` up to `e` stand for.
pub open spec fn number(t: Seq<u8>, i: int, e: int, base: int) -> int
    decreases e - i,
{
    if e <= i {
        0
    } else {
        number(t, i, e - 1, base) * base + digit_value(t[e - 1])
    }
}

/// The first position at or after `k` that holds no digit.
pub open spec fn digits_end(t: Seq<u8>, k: int) -> int
    decreases t.len() - k,
{
    if 0 <= k < t.len() && is_digit(t[k]) {
        digits_end(t, k + 1)
    } else {
        k
    }
}

/// The first position at or after `k` that holds a digit; the length if there is
/// none.
pub open spec fn first_digit(t: Seq<u8>, k: int) -> int
    decreases t.len() - k,
{
    if 0 <= k < t.len() && !is_digit(t[k]) {
        first_digit(t, k + 1)
    } else {
        k
    }
}

/// Whether minutes and seconds follow at position `e`: twice a colon and two digits.
pub open spec fn clock_after(t: Seq<u8>, e: int) -> bool {
    &&& 0 <= e && e + 6 <= t.len()
    &&& t[e] == 58 && is_digit(t[e + 1]) && is_digit(t[e + 2])
    &&& t[e + 3] == 58 && is_digit(t[e + 4]) && is_digit(t[e + 5])
}

/// Whether a number starts at position `k` that minutes and seconds follow.
pub open spec fn clock_at(t: Seq<u8>, k: int) -> bool {
    &&& 0 <= k < t.len() && is_digit(t[k])
    &&& k == 0 || !is_digit(t[k - 1])
    &&& clock_after(t, digits_end(t, k))
}

/// The first position at or after `k` at which hours, minutes and seconds start;
/// the length if there is none.
pub open spec fn first_clock(t: Seq<u8>, k: int) -> int
    decreases t.len() - k,
{
    if 0 <= k < t.len() && !clock_at(t, k) {
        first_clock(t, k + 1)
    } else {
        k
    }
}

/// The seconds of a time of play: its first hours, minutes and seconds, or else
/// its first number.
pub open spec fn play_seconds(t: Seq<u8>) -> int {
    let c = first_clock(t, 0);
    if c < t.len() {
        let e = digits_end(t, c);
        number(t, c, e, 10) * 3600 + number(t, e + 1, e + 3, 10) * 60 + number(t, e + 4, e + 6, 10)
    } else {
        let i = first_digit(t, 0);
        number(t, i, digits_end(t, i), 10)
    }
}

/// Whether digits of a base stand from position `i` up to `e`.
pub open spec fn all_digits(v: Seq<u8>, i: int, e: int, base: int) -> bool {
    forall|j: int| i <= j < e ==> digit_value(#[trigger] v[j]) < base
}

/// The character that is referred to by its number at position `k`, and where the
/// reference ends.
pub open spec fn reference_at(v: Seq<u8>, k: int) -> Option<(int, int)> {
    let hex = k + 2 < v.len() && v[k + 2] == 120;
    let base: int = if hex {
        16
    } else {
        10
    };
    let i = if hex {
        k + 3
    } else {
        k + 2
    };
    let e = find_byte(v, 59, i);
    if 0 <= k && k + 1 < v.len() && v[k] == 38 && v[k + 1] == 35 && i < e < v.len() && all_digits(
        v,
        i,
        e,
        base,
    ) {
        Some((number(v, i, e, base), e + 1))
    } else {
        None
    }
}

/// A text from position `k` on, with the characters that are referred to by their
/// numbers in their places; nothing where one of them is not in ASCII.
pub open spec fn resolved(v: Seq<u8>, k: int) -> Option<Seq<u8>>
    decreases v.len() - k,
{
    if !(0 <= k < v.len()) {
        Some(Seq::empty())
    } else {
        let (b, next) = match reference_at(v, k) {
            Some((code, next)) => (code, next),
            None => (v[k] as int, k + 1),
        };
        if b >= 128 || next <= k {
            None
        } else {
            match resolved(v, next) {
                Some(rest) => Some(seq![b as u8] + rest),
                None => None,
            }
        }
    }
}

/// Whether a time of play is written in ASCII, and its seconds can be counted,
/// with references to characters by their numbers and without.
pub open spec fn plain_time(v: Seq<u8>) -> bool {
    &&& forall|i: int| 0 <= i < v.len() ==> #[trigger] v[i] < 128 && v[i] != 27
    &&& play_seconds(v) < u64::MAX
    &&& resolved(v, 0) matches Some(t) && play_seconds(t) < u64::MAX
}

/// Whether the text from position `k` on is plain, up to the next tag, which is
/// one of an element.
pub open spec fn plain_up_to_tag(data: Seq<u8>, k: int) -> bool {
    let end = find_byte(data, 60, k);
    &&& plain_time(data.subrange(k, end))
    &&& end + 1 < data.len() ==> data[end + 1] != 33 && data[end + 1] != 63
}

/// Whether nothing but a section of plain text stands between position `k` and
/// the end of an element, and the section is plain up to the first `]`.
pub open spec fn plain_section(data: Seq<u8>, k: int) -> bool {
    let end = find_byte(data, 93, k + 9);
    &&& stands_at(data, section_start(), k)
    &&& plain_time(data.subrange(k + 9, end))
    &&& stands_at(data, section_end(), end)
}

/// The name of the attribute that binds a prefix to a namespace: `xmlns`, and the
/// prefix behind a colon.
pub open spec fn binding_name(prefix: Seq<u8>) -> Seq<u8> {
    if prefix.len() == 0 {
        seq![120u8, 109, 108, 110, 115]
    } else {
        seq![120u8, 109, 108, 110, 115, 58] + prefix
    }
}

/// The prefix of the element whose tag is at position `i` and whose name ends with
/// the one that stands at position `at`.
pub open spec fn prefix_of(data: Seq<u8>, i: int, at: int) -> Seq<u8> {
    if at <= i + 1 {
        Seq::empty()
    } else {
        data.subrange(i + 1, find_byte(data, 58, i + 1))
    }
}

/// Whether the attribute at position `k` binds a prefix to a namespace. A colon
/// may stand behind its name where there is no prefix.
pub open spec fn binds_at(data: Seq<u8>, prefix: Seq<u8>, space: Seq<u8>, k: int) -> bool {
    let e = k + binding_name(prefix).len();
    let after = if prefix.len() == 0 && e < data.len() && data[e] == 58 {
        e + 1
    } else {
        e
    };
    &&& stands_at(data, binding_name(prefix), k)
    &&& attribute_at(data, k)
    &&& value_after(data, after) matches Some(v) && squeezed(v) == space
}

/// Whether the tag at position `i` begins an element of a name that is in a
/// namespace: its prefix is bound to it somewhere.
pub open spec fn tag_in(data: Seq<u8>, i: int, name: Seq<u8>, space: Seq<u8>) -> bool {
    let at = name_end(data, i + 1, tag_end(data, i + 1, 0)) - name.len();
    tag_named(data, i, name) && exists|k: int| #[trigger]
        binds_at(data, prefix_of(data, i, at), space, k)
}

/// Whether a byte stands somewhere from position `i` up to `e`.
pub open spec fn holds(data: Seq<u8>, b: u8, i: int, e: int) -> bool {
    exists|j: int| i <= j < e && #[trigger] data[j] == b
}

/// Whether the times of play in the attributes of a name are plain in the tag at
/// position `i`.
pub open spec fn plain_tag(data: Seq<u8>, i: int, n: int) -> bool {
    let end = tag_end(data, i + 1, 0);
    tag_in(data, i, time_tags()[n], media_name()) ==> !holds(data, 27, i, end) && forall|k: int|
        i < k < end && #[trigger] stands_at(data, time_names()[n], k) && attribute_at(data, k) ==> (
        value_after(data, k + time_names()[n].len()) matches Some(v) ==> plain_time(v))
}

/// Whether the times of play in attributes are plain.
pub open spec fn plain_attributes(data: Seq<u8>) -> bool {
    forall|i: int, n: int| 0 <= n < 3 ==> #[trigger] plain_tag(data, i, n)
}

/// Whether the time of play in the element whose tag is at position `i` is plain.
pub open spec fn plain_duration(data: Seq<u8>, i: int) -> bool {
    let end = tag_end(data, i + 1, 0);
    tag_in(data, i, duration_name(), podcast_name()) ==> {
        ||| end >= data.len()
        ||| data[end - 1] == 47
        ||| plain_up_to_tag(data, end + 1)
        ||| plain_section(data, end + 1)
    }
}

/// Whether the times of play in elements are plain.
pub open spec fn plain_durations(data: Seq<u8>) -> bool {
    forall|i: int| #[trigger] plain_duration(data, i)
}

/// Whether a byte can stand between the letters of a name in an encoding that is
/// not made of ASCII: a zero byte, or one of a sequence that switches between
/// sets of characters.
pub open spec fn is_filler(b: u8) -> bool {
    b == 0 || b == 27 || b == 36 || b == 40 || b == 64 || b == 66 || b == 73 || b == 74
}

/// The bytes that are no fillers.
pub open spec fn squeezed(data: Seq<u8>) -> Seq<u8> {
    data.filter(|b: u8| !is_filler(b))
}

/// Whether the name in the tag at position `i` can only be read as what it is in
/// ASCII: it does not switch between sets of characters, and with a zero byte in
/// it it is not made of pairs of bytes.
pub open spec fn clear_tag(data: Seq<u8>, i: int) -> bool {
    let e = name_end(data, i + 1, tag_end(data, i + 1, 0));
    0 <= i < data.len() && data[i] == 60 ==> {
        &&& !holds(data, 27, i + 1, e)
        &&& holds(data, 0, i + 1, e) ==> (e - i - 1) % 2 == 1
    }
}

/// Whether all names can only be read as what they are in ASCII.
pub open spec fn clear_tags(data: Seq<u8>) -> bool {
    forall|i: int| #[trigger] clear_tag(data, i)
}

/// Whether the times of play of a feed are plain, as far as it can have some, and
/// so are the names of the elements that hold them.
pub open spec fn readable_feed(data: Seq<u8>) -> bool {
    &&& mentions(squeezed(data), media_name()) ==> clear_tags(data) && plain_attributes(data)
    &&& mentions(squeezed(data), podcast_name()) ==> clear_tags(data) && plain_durations(data)
}

fn skip_blanks(data: &Vec<u8>, from: usize) -> (r: usize)
    requires
        from <= data@.len(),
    ensures
        r == after_blanks(data@, from as int),
        from <= r <= data.len(),
{
    let n: usize = data.len();
    let mut k: usize = from;
    while k < n && (data[k] == 9 || data[k] == 10 || data[k] == 13 || data[k] == 32)
        invariant
            n == data@.len(),
            from <= k <= n,
            after_blanks(data@, from as int) == after_blanks(data@, k as int),
        decreases n - k,
    {
        k = k + 1;
    }
    k
}

proof fn number_grows(t: Seq<u8>, i: int, k: int, e: int, base: int)
    requires
        k <= e,
        base >= 1,
    ensures
        0 <= number(t, i, k, base) <= number(t, i, e, base),
    decreases e - i,
{
    if e > i {
        number_grows(t, i, if k < e { k } else { e - 1 }, e - 1, base);
        let n = number(t, i, e - 1, base);
        assert(n * base >= n) by (nonlinear_arith)
            requires
                n >= 0,
                base >= 1,
        ;
    }
}

fn value_of_digit(b: u8) -> (r: u8)
    ensures
        r == digit_value(b),
        r <= 16,
{
    if 48 <= b && b <= 57 {
        b - 48
    } else if 97 <= b && b <= 102 {
        b - 87
    } else if 65 <= b && b <= 70 {
        b - 55
    } else {
        16
    }
}

/// The number of some digits, where it is not too large.
fn read_number(t: &Vec<u8>, i: usize, e: usize, base: u128) -> (r: Option<u64>)
    requires
        i <= e <= t@.len(),
        base == 10 || base == 16,
    ensures
        match r {
            Some(n) => n == number(t@, i as int, e as int, base as int),
            None => number(t@, i as int, e as int, base as int) > u64::MAX,
        },
{
    let mut n: u128 = 0;
    let mut k: usize = i;
    while k < e
        invariant
            i <= k <= e <= t@.len(),
            base == 10 || base == 16,
            n == number(t@, i as int, k as int, base as int),
            n <= u64::MAX,
        decreases e - k,
    {
        assert(n * base <= u64::MAX * 16) by (nonlinear_arith)
            requires
                n <= u64::MAX,
                base <= 16,
        ;
        n = n * base + value_of_digit(t[k]) as u128;
        k = k + 1;
        assert(n == number(t@, i as int, k as int, base as int));
        if n > 0xffff_ffff_ffff_ffff {
            proof {
                number_grows(t@, i as int, k as int, e as int, base as int);
            }
            return None;
        }
    }
    Some(n as u64)
}

fn skip_digits(t: &Vec<u8>, from: usize) -> (r: usize)
    requires
        from <= t@.len(),
    ensures
        r == digits_end(t@, from as int),
        from <= r <= t@.len(),
{
    let n: usize = t.len();
    let mut k: usize = from;
    while k < n && 48 <= t[k] && t[k] <= 57
        invariant
            n == t@.len(),
            from <= k <= n,
            digits_end(t@, from as int) == digits_end(t@, k as int),
        decreases n - k,
    {
        k = k + 1;
    }
    k
}

fn digit_at(t: &Vec<u8>, k: usize) -> (r: bool)
    requires
        k < t@.len(),
    ensures
        r == is_digit(t@[k as int]),
{
    48 <= t[k] && t[k] <= 57
}

fn is_clock(t: &Vec<u8>, k: usize) -> (r: bool)
    requires
        k < t@.len(),
    ensures
        r == clock_at(t@, k as int),
{
    if !digit_at(t, k) || (k > 0 && digit_at(t, k - 1)) {
        return false;
    }
    let e: usize = skip_digits(t, k);
    t.len() - e >= 6 && t[e] == 58 && digit_at(t, e + 1) && digit_at(t, e + 2) && t[e + 3] == 58
        && digit_at(t, e + 4) && digit_at(t, e + 5)
}

fn can_count_seconds(t: &Vec<u8>) -> (r: bool)
    ensures
        r == (play_seconds(t@) < u64::MAX),
{
    let n: usize = t.len();
    let mut c: usize = 0;
    while c < n && !is_clock(t, c)
        invariant
            n == t@.len(),
            c <= n,
            first_clock(t@, 0) == first_clock(t@, c as int),
        decreases n - c,
    {
        c = c + 1;
    }
    if c < n {
        let e: usize = skip_digits(t, c);
        proof {
            number_grows(t@, e + 1, e + 1, e + 3, 10);
            number_grows(t@, e + 4, e + 4, e + 6, 10);
        }
        match (read_number(t, c, e, 10), read_number(t, e + 1, e + 3, 10), read_number(
            t,
            e + 4,
            e + 6,
            10,
        )) {
            (Some(hours), Some(minutes), Some(seconds)) => {
                hours as u128 * 3600 + minutes as u128 * 60 + (seconds as u128)
                    < 0xffff_ffff_ffff_ffff
            },
            _ => {
                proof {
                    number_grows(t@, c as int, c as int, e as int, 10);
                }
                false
            },
        }
    } else {
        let mut i: usize = 0;
        while i < n && !digit_at(t, i)
            invariant
                n == t@.len(),
                i <= n,
                first_digit(t@, 0) == first_digit(t@, i as int),
            decreases n - i,
        {
            i = i + 1;
        }
        let e: usize = skip_digits(t, i);
        match read_number(t, i, e, 10) {
            Some(seconds) => seconds < 0xffff_ffff_ffff_ffff,
            None => false,
        }
    }
}

fn are_digits(v: &Vec<u8>, i: usize, e: usize, base: u8) -> (r: bool)
    requires
        i <= e <= v@.len(),
    ensures
        r == all_digits(v@, i as int, e as int, base as int),
{
    let mut j: usize = i;
    while j < e
        invariant
            i <= j <= e <= v@.len(),
            all_digits(v@, i as int, j as int, base as int),
        decreases e - j,
    {
        if value_of_digit(v[j]) >= base {
            assert(digit_value(v@[j as int]) >= base);
            return false;
        }
        j = j + 1;
    }
    true
}

/// The character that is referred to by its number at a position, or 128 for one
/// that is not in ASCII.
fn read_reference(v: &Vec<u8>, k: usize) -> (r: Option<(u8, usize)>)
    requires
        k < v@.len(),
    ensures
        match r {
            Some((b, next)) => k < next <= v@.len() && (reference_at(v@, k as int) matches Some(
                (code, end),
            ) && next == end && b == (if code < 128 {
                code
            } else {
                128
            })),
            None => reference_at(v@, k as int) is None,
        },
{
    let n: usize = v.len();
    if v[k] != 38 || n - k < 2 || v[k + 1] != 35 {
        return None;
    }
    let hex: bool = n - k > 2 && v[k + 2] == 120;
    let base: u8 = if hex {
        16
    } else {
        10
    };
    let i: usize = if hex {
        k + 3
    } else {
        k + 2
    };
    let e: usize = seek(v, 59, i);
    if i >= e || e >= n || !are_digits(v, i, e, base) {
        return None;
    }
    proof {
        number_grows(v@, i as int, i as int, e as int, base as int);
    }
    match read_number(v, i, e, base as u128) {
        Some(code) => if code < 128 {
            Some((code as u8, e + 1))
        } else {
            Some((128, e + 1))
        },
        None => Some((128, e + 1)),
    }
}

fn resolve(v: &Vec<u8>) -> (r: Option<Vec<u8>>)
    ensures
        match r {
            Some(t) => resolved(v@, 0) == Some(t@),
            None => resolved(v@, 0) is None,
        },
{
    let n: usize = v.len();
    let mut r: Vec<u8> = Vec::new();
    let mut k: usize = 0;
    while k < n
        invariant
            n == v@.len(),
            k <= n,
            match resolved(v@, k as int) {
                Some(rest) => resolved(v@, 0) == Some(r@ + rest),
                None => resolved(v@, 0) is None,
            },
        decreases n - k,
    {
        let ghost done = r@;
        let (b, next): (u8, usize) = match read_reference(v, k) {
            Some((b, next)) => (b, next),
            None => (v[k], k + 1),
        };
        if b >= 128 {
            return None;
        }
        r.push(b);
        proof {
            if let Some(rest) = resolved(v@, next as int) {
                assert(done + (seq![b] + rest) =~= r@ + rest);
            }
        }
        k = next;
    }
    assert(r@ + Seq::<u8>::empty() =~= r@);
    Some(r)
}

fn is_plain_time(data: &Vec<u8>, from: usize, to: usize) -> (r: bool)
    requires
        from <= to <= data@.len(),
    ensures
        r == plain_time(data@.subrange(from as int, to as int)),
{
    let ghost all = data@.subrange(from as int, to as int);
    let mut v: Vec<u8> = Vec::new();
    let mut k: usize = from;
    while k < to
        invariant
            all == data@.subrange(from as int, to as int),
            from <= k <= to <= data@.len(),
            v@ == data@.subrange(from as int, k as int),
            forall|i: int| 0 <= i < v@.len() ==> #[trigger] v@[i] < 128 && v@[i] != 27,
        decreases to - k,
    {
        let b: u8 = data[k];
        assert(all[k - from] == b);
        if b >= 128 || b == 27 {
            return false;
        }
        v.push(b);
        k = k + 1;
        assert(v@ =~= data@.subrange(from as int, k as int));
    }
    assert(v@ == all);
    match resolve(&v) {
        Some(t) => can_count_seconds(&v) && can_count_seconds(&t),
        None => false,
    }
}

fn has_byte(data: &Vec<u8>, b: u8, from: usize, to: usize) -> (r: bool)
    requires
        from <= to <= data@.len(),
    ensures
        r == holds(data@, b, from as int, to as int),
{
    let mut k: usize = from;
    while k < to
        invariant
            from <= k <= to <= data@.len(),
            forall|j: int| from <= j < k ==> #[trigger] data@[j] != b,
        decreases to - k,
    {
        if data[k] == b {
            return true;
        }
        k = k + 1;
    }
    false
}

fn stands(data: &Vec<u8>, i: usize, name: &Vec<u8>) -> (r: bool)
    requires
        i <= data@.len(),
    ensures
        r == stands_at(data@, name@, i as int),
        r ==> i + name.len() <= data.len(),
{
    let n: usize = data.len();
    if name.len() > n - i {
        return false;
    }
    let mut k: usize = 0;
    while k < name.len()
        invariant
            n == data@.len(),
            i + name@.len() <= n,
            k <= name@.len(),
            forall|j: int| 0 <= j < k ==> data@[i + j] == #[trigger] name@[j],
        decreases name@.len() - k,
    {
        if data[i + k] != name[k] {
            assert(data@.subrange(i as int, i + name@.len())[k as int] != name@[k as int]);
            return false;
        }
        k = k + 1;
    }
    assert(data@.subrange(i as int, i + name@.len()) =~= name@);
    true
}

fn finds(data: &Vec<u8>, name: &Vec<u8>) -> (r: bool)
    requires
        name@.len() > 0,
    ensures
        r == mentions(data@, name@),
{
    let n: usize = data.len();
    let mut i: usize = 0;
    while i < n
        invariant
            n == data@.len(),
            i <= n,
            forall|k: int| 0 <= k < i ==> !stands_at(data@, name@, k),
        decreases n - i,
    {
        if stands(data, i, name) {
            return true;
        }
        i = i + 1;
    }
    false
}

fn seek(data: &Vec<u8>, b: u8, from: usize) -> (r: usize)
    requires
        from <= data@.len(),
    ensures
        r == find_byte(data@, b, from as int),
        from <= r <= data.len(),
{
    let n: usize = data.len();
    let mut k: usize = from;
    while k < n && data[k] != b
        invariant
            n == data@.len(),
            from <= k <= n,
            find_byte(data@, b, from as int) == find_byte(data@, b, k as int),
        decreases n - k,
    {
        k = k + 1;
    }
    k
}

/// Whether the value set for the name that ends before position `k` is a plain
/// time, or there is none.
fn has_plain_value(data: &Vec<u8>, k: usize) -> (r: bool)
    requires
        k <= data@.len(),
    ensures
        r == (value_after(data@, k as int) matches Some(v) ==> plain_time(v)),
{
    let n: usize = data.len();
    let eq: usize = skip_blanks(data, k);
    if eq >= n || data[eq] != 61 {
        return true;
    }
    let open: usize = skip_blanks(data, eq + 1);
    if open >= n || (data[open] != 34 && data[open] != 39) {
        return true;
    }
    let end: usize = seek(data, data[open], open + 1);
    is_plain_time(data, open + 1, end)
}

fn seek_tag_end(data: &Vec<u8>, from: usize) -> (r: usize)
    requires
        from <= data@.len(),
    ensures
        r == tag_end(data@, from as int, 0),
        from <= r <= data@.len(),
        r < data@.len() ==> data@[r as int] == 62,
{
    let n: usize = data.len();
    let mut quote: u8 = 0;
    let mut k: usize = from;
    while k < n && (quote != 0 || data[k] != 62)
        invariant
            n == data@.len(),
            from <= k <= n,
            tag_end(data@, from as int, 0) == tag_end(data@, k as int, quote),
        decreases n - k,
    {
        let b: u8 = data[k];
        if quote != 0 {
            if b == quote {
                quote = 0;
            }
        } else if b == 34 || b == 39 {
            quote = b;
        }
        k = k + 1;
    }
    k
}

fn seek_name_end(data: &Vec<u8>, from: usize, end: usize) -> (r: usize)
    requires
        from <= end <= data@.len(),
    ensures
        r == name_end(data@, from as int, end as int),
        from <= r <= end,
{
    let mut k: usize = from;
    while k < end && !(data[k] == 9 || data[k] == 10 || data[k] == 13 || data[k] == 32)
        invariant
            from <= k <= end <= data@.len(),
            name_end(data@, from as int, end as int) == name_end(data@, k as int, end as int),
        decreases end - k,
    {
        k = k + 1;
    }
    k
}

fn has_clear_tags(data: &Vec<u8>) -> (r: bool)
    ensures
        r == clear_tags(data@),
{
    let n: usize = data.len();
    let mut i: usize = 0;
    while i < n
        invariant
            n == data@.len(),
            i <= n,
            forall|k: int| k < i ==> #[trigger] clear_tag(data@, k),
        decreases n - i,
    {
        if data[i] == 60 {
            let end: usize = seek_tag_end(data, i + 1);
            let e: usize = seek_name_end(data, i + 1, end);
            if has_byte(data, 27, i + 1, e) || (has_byte(data, 0, i + 1, e) && (e - i - 1) % 2
                != 1) {
                assert(!clear_tag(data@, i as int));
                return false;
            }
        }
        i = i + 1;
    }
    true
}

fn is_named(data: &Vec<u8>, i: usize, end: usize, name: &Vec<u8>) -> (r: bool)
    requires
        i < end <= data@.len(),
        end == tag_end(data@, i + 1, 0),
        data@[i as int] == 60,
        name@.len() > 0,
    ensures
        r == tag_named(data@, i as int, name@),
{
    let k: usize = seek_name_end(data, i + 1, end);
    if k - (i + 1) < name.len() {
        return false;
    }
    let at: usize = k - name.len();
    stands(data, at, name) && (at == i + 1 || data[at - 1] == 58) && data[i + 1] != 47
}

fn squeeze(data: &Vec<u8>, from: usize, to: usize) -> (r: Vec<u8>)
    requires
        from <= to <= data@.len(),
    ensures
        r@ == squeezed(data@.subrange(from as int, to as int)),
{
    let ghost keep = |b: u8| !is_filler(b);
    let mut r: Vec<u8> = Vec::new();
    let mut i: usize = from;
    assert(data@.subrange(from as int, from as int).filter(keep) =~= Seq::empty()) by {
        reveal(Seq::filter);
    }
    while i < to
        invariant
            from <= i <= to <= data@.len(),
            keep == (|b: u8| !is_filler(b)),
            r@ == data@.subrange(from as int, i as int).filter(keep),
        decreases to - i,
    {
        let b: u8 = data[i];
        proof {
            reveal(Seq::filter);
            let s = data@.subrange(from as int, i + 1);
            assert(s.drop_last() =~= data@.subrange(from as int, i as int));
            assert(s.last() == b);
        }
        if !(b == 0 || b == 27 || b == 36 || b == 40 || b == 64 || b == 66 || b == 73 || b == 74) {
            r.push(b);
        }
        i = i + 1;
    }
    r
}

/// Whether the value set for the name that ends before position `k` is a namespace.
fn has_space(data: &Vec<u8>, k: usize, space: &Vec<u8>) -> (r: bool)
    requires
        k <= data@.len(),
    ensures
        r == (value_after(data@, k as int) matches Some(v) && squeezed(v) == space@),
{
    let n: usize = data.len();
    let eq: usize = skip_blanks(data, k);
    if eq >= n || data[eq] != 61 {
        return false;
    }
    let open: usize = skip_blanks(data, eq + 1);
    if open >= n || (data[open] != 34 && data[open] != 39) {
        return false;
    }
    let end: usize = seek(data, data[open], open + 1);
    let v: Vec<u8> = squeeze(data, open + 1, end);
    assert(v@.subrange(0, v@.len() as int) =~= v@);
    v.len() == space.len() && stands(&v, 0, space)
}

/// Whether a prefix is bound to a namespace somewhere.
fn is_bound(data: &Vec<u8>, name: &Vec<u8>, space: &Vec<u8>, Ghost(prefix): Ghost<Seq<u8>>) -> (r:
    bool)
    requires
        name@ == binding_name(prefix),
    ensures
        r == (exists|k: int| #[trigger] binds_at(data@, prefix, space@, k)),
{
    let n: usize = data.len();
    let mut k: usize = 1;
    while k < n
        invariant
            n == data@.len(),
            1 <= k,
            name@ == binding_name(prefix),
            forall|j: int| j < k ==> !#[trigger] binds_at(data@, prefix, space@, j),
        decreases n - k,
    {
        let b: u8 = data[k - 1];
        let starts: bool = b == 9 || b == 10 || b == 13 || b == 32 || b == 34 || b == 39;
        assert(starts == attribute_at(data@, k as int));
        if starts && stands(data, k, name) {
            let e: usize = k + name.len();
            let after: usize = if name.len() == 5 && e < n && data[e] == 58 {
                e + 1
            } else {
                e
            };
            assert((name@.len() == 5) == (prefix.len() == 0));
            if has_space(data, after, space) {
                assert(binds_at(data@, prefix, space@, k as int));
                return true;
            }
        }
        k = k + 1;
    }
    assert forall|j: int| !#[trigger] binds_at(data@, prefix, space@, j) by {
        if stands_at(data@, binding_name(prefix), j) {
            assert(binding_name(prefix).len() > 0);
            assert(j < n);
        }
    }
    false
}

fn is_in(data: &Vec<u8>, i: usize, end: usize, name: &Vec<u8>, space: &Vec<u8>) -> (r: bool)
    requires
        i < end <= data@.len(),
        end == tag_end(data@, i + 1, 0),
        data@[i as int] == 60,
        name@.len() > 0,
    ensures
        r == tag_in(data@, i as int, name@, space@),
{
    if !is_named(data, i, end, name) {
        return false;
    }
    let at: usize = seek_name_end(data, i + 1, end) - name.len();
    let mut attribute: Vec<u8> = vec![120u8, 109, 108, 110, 115];
    let ghost prefix = prefix_of(data@, i as int, at as int);
    if at > i + 1 {
        let colon: usize = seek(data, 58, i + 1);
        attribute.push(58);
        let mut k: usize = i + 1;
        assert(data@.subrange(i + 1, i + 1) =~= Seq::empty());
        assert(attribute@ =~= seq![120u8, 109, 108, 110, 115, 58] + data@.subrange(i + 1, i + 1));
        while k < colon
            invariant
                i < k <= colon <= data@.len(),
                attribute@ == seq![120u8, 109, 108, 110, 115, 58] + data@.subrange(
                    i + 1,
                    k as int,
                ),
            decreases colon - k,
        {
            attribute.push(data[k]);
            k = k + 1;
            assert(attribute@ =~= seq![120u8, 109, 108, 110, 115, 58] + data@.subrange(
                i + 1,
                k as int,
            ));
        }
        if colon == i + 1 {
            attribute = vec![120u8, 109, 108, 110, 115];
        }
    }
    assert(attribute@ =~= binding_name(prefix));
    is_bound(data, &attribute, space, Ghost(prefix))
}

fn media_space() -> (r: Vec<u8>)
    ensures
        r@ == media_name(),
{
    let r: Vec<u8> = vec![
        104u8, 116, 116, 112, 58, 47, 47, 115, 101, 97, 114, 99, 104, 46, 121, 97, 104, 111, 111,
        46, 99, 111, 109, 47, 109, 114, 115, 115, 47,
    ];
    assert(r@ =~= media_name());
    r
}

fn podcast_space() -> (r: Vec<u8>)
    ensures
        r@ == podcast_name(),
{
    let r: Vec<u8> = vec![
        104u8, 116, 116, 112, 58, 47, 47, 119, 119, 119, 46, 105, 116, 117, 110, 101, 115, 46, 99,
        111, 109, 47, 100, 116, 100, 115, 47, 112, 111, 100, 99, 97, 115, 116, 45, 49, 46, 48, 46,
        100, 116, 100,
    ];
    assert(r@ =~= podcast_name());
    r
}

fn is_plain_tag(
    data: &Vec<u8>,
    i: usize,
    end: usize,
    tag: &Vec<u8>,
    name: &Vec<u8>,
    Ghost(m): Ghost<int>,
) -> (r: bool)
    requires
        i < end <= data@.len(),
        end == tag_end(data@, i + 1, 0),
        data@[i as int] == 60,
        0 <= m < 3,
        tag@ == time_tags()[m],
        name@ == time_names()[m],
        tag@.len() > 0,
    ensures
        r == plain_tag(data@, i as int, m),
{
    if !is_in(data, i, end, tag, &media_space()) {
        return true;
    }
    if has_byte(data, 27, i, end) {
        return false;
    }
    let n: usize = data.len();
    let mut k: usize = i + 1;
    while k < end
        invariant
            n == data@.len(),
            i < k <= end <= n,
            end == tag_end(data@, i + 1, 0),
            0 <= m < 3,
            name@ == time_names()[m],
            tag_in(data@, i as int, time_tags()[m], media_name()),
            !holds(data@, 27, i as int, end as int),
            forall|j: int|
                i < j < k && #[trigger] stands_at(data@, time_names()[m], j) && attribute_at(
                    data@,
                    j,
                ) ==> (value_after(data@, j + time_names()[m].len()) matches Some(v)
                    ==> plain_time(v)),
        decreases end - k,
    {
        let b: u8 = data[k - 1];
        let starts: bool = b == 9 || b == 10 || b == 13 || b == 32 || b == 34 || b == 39;
        assert(starts == attribute_at(data@, k as int));
        if starts && stands(data, k, name) && !has_plain_value(data, k + name.len()) {
            assert(stands_at(data@, time_names()[m], k as int));
            return false;
        }
        k = k + 1;
    }
    true
}

fn has_plain_attributes(data: &Vec<u8>) -> (r: bool)
    ensures
        r == plain_attributes(data@),
{
    let thumbnail: Vec<u8> = vec![116u8, 104, 117, 109, 98, 110, 97, 105, 108];
    let text: Vec<u8> = vec![116u8, 101, 120, 116];
    let time: Vec<u8> = vec![116u8, 105, 109, 101];
    let start: Vec<u8> = vec![115u8, 116, 97, 114, 116];
    let end: Vec<u8> = vec![101u8, 110, 100];
    assert(thumbnail@ =~= time_tags()[0]);
    assert(text@ =~= time_tags()[1]);
    assert(text@ =~= time_tags()[2]);
    assert(time@ =~= time_names()[0]);
    assert(start@ =~= time_names()[1]);
    assert(end@ =~= time_names()[2]);
    let n: usize = data.len();
    let mut i: usize = 0;
    while i < n
        invariant
            n == data@.len(),
            i <= n,
            thumbnail@ == time_tags()[0],
            text@ == time_tags()[1],
            text@ == time_tags()[2],
            time@ == time_names()[0],
            start@ == time_names()[1],
            end@ == time_names()[2],
            thumbnail@.len() == 9,
            text@.len() == 4,
            forall|k: int, m: int| 0 <= m < 3 && k < i ==> #[trigger] plain_tag(data@, k, m),
        decreases n - i,
    {
        if data[i] == 60 {
            let to: usize = seek_tag_end(data, i + 1);
            if !is_plain_tag(data, i, to, &thumbnail, &time, Ghost(0)) {
                assert(!plain_tag(data@, i as int, 0));
                return false;
            }
            if !is_plain_tag(data, i, to, &text, &start, Ghost(1)) {
                assert(!plain_tag(data@, i as int, 1));
                return false;
            }
            if !is_plain_tag(data, i, to, &text, &end, Ghost(2)) {
                assert(!plain_tag(data@, i as int, 2));
                return false;
            }
        }
        assert forall|m: int| 0 <= m < 3 implies #[trigger] plain_tag(data@, i as int, m) by {
            assert(m == 0 || m == 1 || m == 2);
        }
        i = i + 1;
    }
    true
}

fn is_plain_duration(data: &Vec<u8>, i: usize, name: &Vec<u8>) -> (r: bool)
    requires
        i < data@.len(),
        data@[i as int] == 60,
        name@ == duration_name(),
        name@.len() == 8,
    ensures
        r == plain_duration(data@, i as int),
{
    let n: usize = data.len();
    let end: usize = seek_tag_end(data, i + 1);
    if end >= n || data[end - 1] == 47 || !is_in(data, i, end, name, &podcast_space()) {
        return true;
    }
    let to: usize = seek(data, 60, end + 1);
    if is_plain_time(data, end + 1, to) && (n - to <= 1 || (data[to + 1] != 33 && data[to + 1]
        != 63)) {
        return true;
    }
    let section: Vec<u8> = vec![60u8, 33, 91, 67, 68, 65, 84, 65, 91];
    let after: Vec<u8> = vec![93u8, 93, 62, 60, 47];
    assert(section@ =~= section_start());
    assert(after@ =~= section_end());
    if !stands(data, end + 1, &section) {
        return false;
    }
    let from: usize = end + 10;
    let close: usize = seek(data, 93, from);
    is_plain_time(data, from, close) && stands(data, close, &after)
}

fn has_plain_durations(data: &Vec<u8>) -> (r: bool)
    ensures
        r == plain_durations(data@),
{
    let name: Vec<u8> = vec![100u8, 117, 114, 97, 116, 105, 111, 110];
    assert(name@ =~= duration_name());
    let n: usize = data.len();
    let mut i: usize = 0;
    while i < n
        invariant
            n == data@.len(),
            i <= n,
            name@ == duration_name(),
            name@.len() == 8,
            forall|k: int| k < i ==> #[trigger] plain_duration(data@, k),
        decreases n - i,
    {
        if data[i] == 60 && !is_plain_duration(data, i, &name) {
            return false;
        }
        i = i + 1;
    }
    true
}

/// Tells whether a feed can be read.
pub fn is_readable_feed(data: &Vec<u8>) -> (r: bool)
    ensures
        r == readable_feed(data@),
{
    let media: Vec<u8> = media_space();
    let podcast: Vec<u8> = podcast_space();
    assert(data@.subrange(0, data@.len() as int) =~= data@);
    let bare: Vec<u8> = squeeze(data, 0, data.len());
    let has_media: bool = finds(&bare, &media);
    let has_podcast: bool = finds(&bare, &podcast);
    if !has_media && !has_podcast {
        return true;
    }
    has_clear_tags(data) && (!has_media || has_plain_attributes(data)) && (!has_podcast
        || has_plain_durations(data))
}

// ---------------------------------------------------------------------------
// Headlines
// ---------------------------------------------------------------------------

/// An item of a feed: its title, and when it was published, as far as known.
pub type Item = (Option<Seq<char>>, Option<Instant>);

/// What `feed_rs::parser::parse` reads from a feed, or what it says of one that
/// it cannot read.
pub uninterp spec fn feed_read(data: Seq<u8>) -> Result<
    Seq<(Option<Seq<char>>, Option<Instant>)>,
    Seq<char>,
>;

/// Whether a result holds the items, or the error, of `value`.
pub open spec fn are_items(
    result: Result<Vec<(Option<String>, Option<Instant>)>, String>,
    value: Result<Seq<Item>, Seq<char>>,
) -> bool {
    match (result, value) {
        (Ok(items), Ok(v)) => items.deep_view() == v,
        (Err(e), Err(v)) => e@ == v,
        _ => false,
    }
}

/// `feed_rs::parser::parse` reads a feed in one of several formats. Its entries
/// come with the text of their title and the point in time at which they were
/// published. It reads times of play from attributes of elements on media and
/// from elements on podcasts, each known by its namespace, and panics where their
/// seconds are too many or a digit is not in ASCII; a readable feed has none of
/// these. A feed that is not readable need not make it panic: which elements and
/// attributes it finds in a feed is not stated.
#[verifier::external_body]
fn parse_feed(data: &Vec<u8>) -> (r: Result<Vec<(Option<String>, Option<Instant>)>, String>)
    requires
        readable_feed(data@),
    ensures
        are_items(r, feed_read(data@)),
{
    let feed = feed_rs::parser::parse(data.as_slice()).map_err(|e| e.to_string())?;
    let at = |t: chrono::DateTime<chrono::Utc>| Instant {
        secs: t.timestamp(),
        nanos: t.timestamp_subsec_nanos(),
    };
    Ok(feed.entries.into_iter().map(|e| (e.title.map(|t| t.content), e.published.map(at))).collect())
}

/// A headline as it is shown: its title, and the date and time at which it was
/// published.
#[derive(Debug)]
pub struct Headline {
    pub title: String,
    pub date: String,
    pub time: String,
}

/// What a `Headline` holds.
#[verifier::ext_equal]
pub struct HeadlineView {
    pub title: Seq<char>,
    pub date: Seq<char>,
    pub time: Seq<char>,
}

impl DeepView for Headline {
    type V = HeadlineView;

    open spec fn deep_view(&self) -> HeadlineView {
        HeadlineView { title: self.title@, date: self.date@, time: self.time@ }
    }
}

/// A headline that was published at a point in time: its title without colons
/// at its end and without white space around it.
pub open spec fn headline_of(title: Seq<char>, t: DateTime) -> HeadlineView {
    HeadlineView {
        title: trimmed(without_suffixes(title, ":"@)),
        date: wall_day_month(t),
        time: clock_text(t),
    }
}

impl Headline {
    /// The headline that was published at a point in time.
    pub fn at_time(title: &str, t: DateTime) -> (r: Headline)
        requires
            t.near_calendar(),
        ensures
            r.deep_view() == headline_of(title@, t),
    {
        let bare: String = text::trim_end_matches(title, ":");
        Headline { title: text::trim(bare.as_str()), date: t.day_month(), time: t.clock() }
    }
}

/// The headlines of a feed: of the items with a title and a time, where `zones`
/// holds the times on the wall clock.
pub open spec fn headlines_of(items: Seq<Item>, zones: Seq<Option<DateTime>>) -> Seq<HeadlineView>
    decreases items.len(),
{
    if items.len() == 0 {
        Seq::empty()
    } else {
        let rest = headlines_of(items.drop_last(), zones.drop_last());
        match (items.last().0, zones.last()) {
            (Some(title), Some(t)) => rest.push(headline_of(title, t)),
            _ => rest,
        }
    }
}

/// Whether `zone` can be the time on the wall clock of a point in time: there is
/// one for every point in time on the calendar.
pub open spec fn zone_fits(published: Option<Instant>, zone: Option<DateTime>) -> bool {
    match (published, zone) {
        (Some(at), Some(t)) => t.at == at && t.near_calendar() && gives_local(at, t),
        (Some(at), None) => !(in_span(at.secs as int) && nanos_fit(
            at.secs as int,
            at.nanos as int,
        )),
        (None, _) => zone is None,
    }
}

/// Whether `zones` can be the times on the wall clock of items.
pub open spec fn zones_fit(items: Seq<Item>, zones: Seq<Option<DateTime>>) -> bool {
    &&& zones.len() == items.len()
    &&& forall|i: int| 0 <= i < items.len() ==> zone_fits((#[trigger] items[i]).1, #[trigger] zones[i])
}

/// Whether headlines are those of items, for some times on the wall clock.
pub open spec fn are_headlines(items: Seq<Item>, headlines: Seq<HeadlineView>) -> bool {
    exists|zones: Seq<Option<DateTime>>| #[trigger]
        zones_fit(items, zones) && headlines == headlines_of(items, zones)
}

/// Why there are no headlines.
#[derive(Debug)]
pub enum FeedError {
    /// The feed may have times of play, and they may not be plain.
    Times,
    /// The feed cannot be read, for a reason.
    Parse(String),
}

/// Whether a result is what a feed comes to.
pub open spec fn is_news(data: Seq<u8>, result: Result<Vec<Headline>, FeedError>) -> bool {
    if !readable_feed(data) {
        result matches Err(FeedError::Times)
    } else {
        match (feed_read(data), result) {
            (Ok(items), Ok(headlines)) => are_headlines(items, headlines.deep_view()),
            (Err(why), Err(FeedError::Parse(e))) => e@ == why,
            _ => false,
        }
    }
}

/// The headlines of items, where `zones` holds the times on the wall clock.
pub fn headlines_at(
    items: &Vec<(Option<String>, Option<Instant>)>,
    zones: &Vec<Option<DateTime>>,
) -> (r: Vec<Headline>)
    requires
        zones@.len() == items@.len(),
        forall|i: int|
            0 <= i < zones@.len() ==> ((#[trigger] zones@[i]) matches Some(t) ==> t.near_calendar()),
    ensures
        r.deep_view() == headlines_of(items.deep_view(), zones@),
{
    let ghost all = items.deep_view();
    let mut r: Vec<Headline> = lists::empty();
    let mut i: usize = 0;
    while i < items.len()
        invariant
            all == items.deep_view(),
            zones@.len() == items@.len(),
            forall|i: int|
                0 <= i < zones@.len() ==> ((#[trigger] zones@[i]) matches Some(t) ==> t.near_calendar()),
            i <= items@.len(),
            r.deep_view() == headlines_of(all.take(i as int), zones@.take(i as int)),
        decreases items@.len() - i,
    {
        proof {
            assert(all.take(i + 1).drop_last() =~= all.take(i as int));
            assert(zones@.take(i + 1).drop_last() =~= zones@.take(i as int));
            assert(all.take(i + 1).last() == items@[i as int].deep_view());
            assert(zones@.take(i + 1).last() == zones@[i as int]);
        }
        match (&items[i].0, zones[i]) {
            (Some(title), Some(t)) => {
                lists::put(&mut r, Headline::at_time(title.as_str(), t));
            },
            _ => {},
        }
        i = i + 1;
    }
    assert(all.take(i as int) =~= all);
    assert(zones@.take(i as int) =~= zones@);
    r
}

/// Reads the headlines of a feed, with the dates and times that the machine's
/// wall clock showed when they were published.
pub fn read_headlines(data: &Vec<u8>) -> (r: Result<Vec<Headline>, FeedError>)
    ensures
        is_news(data@, r),
{
    if !is_readable_feed(data) {
        return Err(FeedError::Times);
    }
    let items: Vec<(Option<String>, Option<Instant>)> = match parse_feed(data) {
        Ok(items) => items,
        Err(e) => {
            return Err(FeedError::Parse(e));
        },
    };
    let ghost all = items.deep_view();
    let mut zones: Vec<Option<DateTime>> = Vec::new();
    let mut i: usize = 0;
    while i < items.len()
        invariant
            all == items.deep_view(),
            i <= items@.len(),
            zones@.len() == i,
            forall|j: int| 0 <= j < i ==> zone_fits((#[trigger] all[j]).1, #[trigger] zones@[j]),
        decreases items@.len() - i,
    {
        assert(all[i as int] == items@[i as int].deep_view());
        let zone: Option<DateTime> = match items[i].1 {
            Some(at) => {
                if MIN_SECS <= at.secs && at.secs <= MAX_SECS && at.fits() {
                    Some(shown_at(at))
                } else {
                    None
                }
            },
            None => None,
        };
        assert(zone_fits(all[i as int].1, zone));
        zones.push(zone);
        i = i + 1;
    }
    assert(zones_fit(all, zones@));
    assert forall|i: int| 0 <= i < zones@.len() implies ((#[trigger] zones@[i]) matches Some(t)
        ==> t.near_calendar()) by {
        assert(zone_fits(all[i].1, zones@[i]));
    }
    let r: Vec<Headline> = headlines_at(&items, &zones);
    assert(are_headlines(all, r.deep_view()));
    Ok(r)
}

/// Tells how long to wait before headlines are read again: an hour, or ten
/// seconds where that failed.
pub fn headline_pause(failed: bool) -> (r: Wait)
    ensures
        r == Wait::spec_secs(
            if failed {
                10
            } else {
                3600
            },
        ),
{
    if failed {
        Wait::seconds(10)
    } else {
        Wait::seconds(3600)
    }
}

// ---------------------------------------------------------------------------
// Laws of the news
// ---------------------------------------------------------------------------

/// A feed that mentions neither of the namespaces in which times of play stand can be
/// read, and so can one in plain bytes without an element that holds such a time.
pub proof fn feeds_without_times_are_readable(data: Seq<u8>)
    ensures
        !mentions(squeezed(data), media_name()) && !mentions(squeezed(data), podcast_name())
            ==> readable_feed(data),
        (forall|j: int| 0 <= j < data.len() ==> #[trigger] data[j] != 0 && data[j] != 27) && (
        forall|i: int|
            !#[trigger] tag_named(data, i, duration_name()) && !tag_named(data, i, time_tags()[0])
                && !tag_named(data, i, time_tags()[1])) ==> readable_feed(data),
{
    if (forall|j: int| 0 <= j < data.len() ==> #[trigger] data[j] != 0 && data[j] != 27) && (
    forall|i: int|
        !#[trigger] tag_named(data, i, duration_name()) && !tag_named(data, i, time_tags()[0])
            && !tag_named(data, i, time_tags()[1])) {
        assert(time_tags()[2] == time_tags()[1]);
        assert forall|i: int| #[trigger] clear_tag(data, i) by {
            let e = name_end(data, i + 1, tag_end(data, i + 1, 0));
            if 0 <= i < data.len() {
                names_end_in_data(data, i + 1, tag_end(data, i + 1, 0));
            }
        }
        assert forall|i: int, n: int| 0 <= n < 3 implies #[trigger] plain_tag(data, i, n) by {
            assert(!tag_named(data, i, duration_name()));
        }
        assert forall|i: int| #[trigger] plain_duration(data, i) by {
            assert(!tag_named(data, i, duration_name()));
        }
    }
}

proof fn names_end_in_data(data: Seq<u8>, k: int, end: int)
    requires
        0 <= k <= data.len(),
    ensures
        name_end(data, k, end) <= data.len(),
    decreases end - k,
{
    if k < end && k < data.len() && !is_blank(data[k]) {
        names_end_in_data(data, k + 1, end);
    }
}

/// There is a headline for each item that has a title and a time, in the order of the
/// feed, and no other.
pub proof fn dated_items_have_headlines(items: Seq<Item>, zones: Seq<Option<DateTime>>)
    requires
        zones.len() == items.len(),
    ensures
        picked(
            Seq::new(items.len(), |i: int| (items[i], zones[i])),
            headlines_of(items, zones),
            |c: (Item, Option<DateTime>)| c.0.0 is Some && c.1 is Some,
            |c: (Item, Option<DateTime>)| headline_of(c.0.0->0, c.1->0),
        ),
    decreases items.len(),
{
    let s = Seq::new(items.len(), |i: int| (items[i], zones[i]));
    let keep = |c: (Item, Option<DateTime>)| c.0.0 is Some && c.1 is Some;
    let headline = |c: (Item, Option<DateTime>)| headline_of(c.0.0->0, c.1->0);
    if items.len() == 0 {
        pick_of_none(s, keep, headline);
    } else {
        let a = items.drop_last();
        let b = zones.drop_last();
        dated_items_have_headlines(a, b);
        assert(s.drop_last() =~= Seq::new(a.len(), |i: int| (a[i], b[i])));
        pick_grows(s, headlines_of(a, b), keep, headline);
    }
}

/// Whether `t` is what the clock in the machine's time zone shows at a point in time.
pub open spec fn is_local(at: Instant, t: DateTime) -> bool {
    t.at == at && gives_local(at, t)
}

/// Every item with a title that was published at a time of the calendar has a
/// headline, with what the wall clock showed then.
pub proof fn published_items_have_headlines(
    items: Seq<Item>,
    headlines: Seq<HeadlineView>,
    i: int,
    title: Seq<char>,
    at: Instant,
)
    requires
        are_headlines(items, headlines),
        0 <= i < items.len(),
        items[i] == (Some(title), Some(at)),
        in_span(at.secs as int),
        nanos_fit(at.secs as int, at.nanos as int),
    ensures
        exists|t: DateTime| #[trigger] is_local(at, t) && headlines.contains(headline_of(title, t)),
{
    let zones = choose|zones: Seq<Option<DateTime>>| #[trigger]
        zones_fit(items, zones) && headlines == headlines_of(items, zones);
    assert(zone_fits(items[i].1, zones[i]));
    let t = zones[i]->0;
    let s = Seq::new(items.len(), |i: int| (items[i], zones[i]));
    let keep = |c: (Item, Option<DateTime>)| c.0.0 is Some && c.1 is Some;
    let headline = |c: (Item, Option<DateTime>)| headline_of(c.0.0->0, c.1->0);
    dated_items_have_headlines(items, zones);
    picked_are_kept(s, headlines, keep, headline);
    assert(s.contains(s[i]));
    assert(headlines.contains(headline(s[i])));
    assert(is_local(at, t));
}

/// A headline is its title, without colons at its end, however many, and without
/// white space around it, with the date and the time of the wall clock.
pub proof fn headlines_lose_only_colons(title: Seq<char>, t: DateTime)
    ensures
        headline_of(title + ":"@, t) == headline_of(title, t),
        !(":"@).is_suffix_of(title) ==> headline_of(title, t).title == trimmed(title),
        headline_of(title, t).date == wall_day_month(t),
        headline_of(title, t).time == clock_text(t),
{
    reveal_strlit(":");
    text::affixes_are_taken_off(title, ":"@);
}

/// A readable feed gives headlines, or what is said of it; another one is refused.
pub proof fn readable_feeds_give_headlines(
    data: Seq<u8>,
    result: Result<Vec<Headline>, FeedError>,
)
    requires
        is_news(data, result),
    ensures
        readable_feed(data) ==> match (feed_read(data), result) {
            (Ok(items), Ok(headlines)) => are_headlines(items, headlines.deep_view()),
            (Err(why), Err(FeedError::Parse(e))) => e@ == why,
            _ => false,
        },
        !readable_feed(data) ==> result == Err::<Vec<Headline>, FeedError>(FeedError::Times),
{
}

proof fn numbers_have_their_size(t: Seq<u8>, i: int, e: int)
    requires
        i <= e <= i + 15,
    ensures
        0 <= 9 * number(t, i, e, 10) <= 16 * (vstd::arithmetic::power::pow(10, (e - i) as nat) - 1),
    decreases e - i,
{
    reveal(vstd::arithmetic::power::pow);
    if i < e {
        numbers_have_their_size(t, i, e - 1);
    }
}

proof fn numbers_are_small(t: Seq<u8>, i: int, e: int)
    requires
        e <= i + 15,
    ensures
        0 <= number(t, i, e, 10) <= 2_000_000_000_000_000,
{
    if i < e {
        let n = (e - i) as nat;
        numbers_have_their_size(t, i, e);
        vstd::arithmetic::power::lemma_pow_increases(10, n, 15);
        assert(vstd::arithmetic::power::pow(10, 15) == 1_000_000_000_000_000) by {
            reveal_with_fuel(vstd::arithmetic::power::pow, 16);
        }
    }
}

proof fn places_lie_in_text(t: Seq<u8>, k: int)
    requires
        0 <= k <= t.len(),
    ensures
        k <= digits_end(t, k) <= t.len(),
        k <= first_digit(t, k) <= t.len(),
        k <= first_clock(t, k) <= t.len(),
    decreases t.len() - k,
{
    if k < t.len() {
        places_lie_in_text(t, k + 1);
    }
}

proof fn short_times_can_be_counted(t: Seq<u8>)
    requires
        t.len() <= 15,
    ensures
        play_seconds(t) < u64::MAX,
{
    places_lie_in_text(t, 0);
    let c = first_clock(t, 0);
    if c < t.len() {
        places_lie_in_text(t, c);
        let e = digits_end(t, c);
        numbers_are_small(t, c, e);
        numbers_are_small(t, e + 1, e + 3);
        numbers_are_small(t, e + 4, e + 6);
    } else {
        let i = first_digit(t, 0);
        places_lie_in_text(t, i);
        numbers_are_small(t, i, digits_end(t, i));
    }
}

proof fn texts_without_references_stay(v: Seq<u8>, k: int)
    requires
        0 <= k <= v.len(),
        forall|i: int| 0 <= i < v.len() ==> #[trigger] v[i] < 128 && v[i] != 38,
    ensures
        resolved(v, k) == Some(v.skip(k)),
    decreases v.len() - k,
{
    if k < v.len() {
        texts_without_references_stay(v, k + 1);
        assert(v[k] != 38);
        assert(seq![v[k]] + v.skip(k + 1) =~= v.skip(k));
    } else {
        assert(v.skip(k) =~= Seq::<u8>::empty());
    }
}

/// A time of play of up to fifteen characters is plain, if they are in ASCII and none
/// of them starts a reference or a switch to another set of characters.
pub proof fn short_times_are_plain(v: Seq<u8>)
    requires
        v.len() <= 15,
        forall|i: int| 0 <= i < v.len() ==> #[trigger] v[i] < 128 && v[i] != 27 && v[i] != 38,
    ensures
        plain_time(v),
{
    short_times_can_be_counted(v);
    texts_without_references_stay(v, 0);
    assert(v.skip(0) =~= v);
}

// ---------------------------------------------------------------------------
// Laws of scanning
// ---------------------------------------------------------------------------

/// White space is skipped, all of it, and nothing else.
pub proof fn blanks_are_skipped(data: Seq<u8>, k: int)
    requires
        0 <= k <= data.len(),
    ensures
        k <= after_blanks(data, k) <= data.len(),
        forall|j: int|
            k <= j < after_blanks(data, k) ==> seq![9u8, 10, 13, 32].contains(#[trigger] data[j]),
        after_blanks(data, k) < data.len() ==> !seq![9u8, 10, 13, 32].contains(
            data[after_blanks(data, k)],
        ),
    decreases data.len() - k,
{
    let blanks = seq![9u8, 10, 13, 32];
    assert(blanks[0] == 9 && blanks[1] == 10 && blanks[2] == 13 && blanks[3] == 32);
    if k < data.len() && is_blank(data[k]) {
        blanks_are_skipped(data, k + 1);
    }
}

/// The first place of a byte is found: it stands there, and nowhere before.
pub proof fn bytes_are_found_first(data: Seq<u8>, b: u8, k: int)
    requires
        0 <= k <= data.len(),
    ensures
        k <= find_byte(data, b, k) <= data.len(),
        find_byte(data, b, k) < data.len() ==> data[find_byte(data, b, k)] == b,
        forall|j: int| k <= j < find_byte(data, b, k) ==> #[trigger] data[j] != b,
    decreases data.len() - k,
{
    if k < data.len() && data[k] != b {
        bytes_are_found_first(data, b, k + 1);
    }
}

/// The value of an attribute is what stands behind its equals sign between two quotes of
/// one kind.
pub proof fn values_stand_between_quotes(
    data: Seq<u8>,
    k: int,
    quote: u8,
    value: Seq<u8>,
    rest: Seq<u8>,
)
    requires
        0 <= k <= data.len(),
        quote == 34 || quote == 39,
        !value.contains(quote),
    ensures
        data.skip(k) == seq![61u8, quote] + value + seq![quote] + rest ==> value_after(data, k)
            == Some(value),
        k < data.len() && data[k] != 61 && !is_blank(data[k]) ==> value_after(data, k) is None,
{
    let t = seq![61u8, quote] + value + seq![quote] + rest;
    if data.skip(k) == t {
        assert(data.skip(k).len() == data.len() - k);
        assert forall|j: int| 0 <= j < t.len() implies data[k + j] == #[trigger] t[j] by {
            assert(data.skip(k)[j] == data[k + j]);
        }
        assert(data[k] == t[0] && data[k + 1] == t[1]);
        let open = k + 1;
        let e = k + 2 + value.len();
        assert(data[e] == t[2 + value.len() as int]);
        assert forall|j: int| open + 1 <= j < e implies #[trigger] data[j] != quote by {
            assert(data[j] == t[j - k]);
            assert(value[j - k - 2] == data[j]);
            assert(value.contains(value[j - k - 2]));
        }
        bytes_are_found_first(data, quote, open + 1);
        let f = find_byte(data, quote, open + 1);
        if e < f {
            assert(data[e] != quote);
        }
        assert(f == e);
        assert(data.subrange(open + 1, e) =~= value) by {
            assert forall|j: int| 0 <= j < value.len() implies data.subrange(open + 1, e)[j]
                == value[j] by {
                assert(data[open + 1 + j] == t[2 + j]);
            }
        }
    }
}

/// A number has its digits in their places, and ends where they do.
pub proof fn digits_make_numbers(t: Seq<u8>, i: int, e: int)
    requires
        0 <= i < e <= t.len(),
        forall|j: int| i <= j < e ==> is_digit(#[trigger] t[j]),
        e == t.len() || !is_digit(t[e]),
    ensures
        digits_end(t, i) == e,
        number(t, i, e, 10) == 10 * number(t, i, e - 1, 10) + (t[e - 1] - 48),
        number(t, i, i, 10) == 0,
    decreases e - i,
{
    reveal_with_fuel(digits_end, 2);
    assert(is_digit(t[i]));
    assert(is_digit(t[e - 1]));
    if i + 1 < e {
        digits_make_numbers(t, i + 1, e);
    }
}

/// A text in ASCII as bytes.
pub open spec fn ascii(s: Seq<char>) -> Seq<u8> {
    s.map_values(|c: char| c as u8)
}

/// The names that are looked for are these.
pub proof fn names_are_in_ascii(prefix: Seq<u8>)
    ensures
        media_name() == ascii("http://search.yahoo.com/mrss/"@),
        podcast_name() == ascii("http://www.itunes.com/dtds/podcast-1.0.dtd"@),
        duration_name() == ascii("duration"@),
        time_tags() == seq![ascii("thumbnail"@), ascii("text"@), ascii("text"@)],
        time_names() == seq![ascii("time"@), ascii("start"@), ascii("end"@)],
        section_start() == ascii("<![CDATA["@),
        section_end() == ascii("]]></"@),
        binding_name(Seq::empty()) == ascii("xmlns"@),
        prefix.len() > 0 ==> binding_name(prefix) == ascii("xmlns:"@) + prefix,
{
    reveal_strlit("http://search.yahoo.com/mrss/");
    reveal_strlit("http://www.itunes.com/dtds/podcast-1.0.dtd");
    reveal_strlit("duration");
    reveal_strlit("thumbnail");
    reveal_strlit("text");
    reveal_strlit("time");
    reveal_strlit("start");
    reveal_strlit("end");
    reveal_strlit("<![CDATA[");
    reveal_strlit("]]></");
    reveal_strlit("xmlns");
    reveal_strlit("xmlns:");
    assert(media_name() =~= ascii("http://search.yahoo.com/mrss/"@));
    assert(podcast_name() =~= ascii("http://www.itunes.com/dtds/podcast-1.0.dtd"@));
    assert(duration_name() =~= ascii("duration"@));
    assert(time_tags()[0] =~= ascii("thumbnail"@));
    assert(time_tags()[1] =~= ascii("text"@));
    assert(time_tags()[2] =~= ascii("text"@));
    assert(time_tags() =~= seq![ascii("thumbnail"@), ascii("text"@), ascii("text"@)]);
    assert(time_names()[0] =~= ascii("time"@));
    assert(time_names()[1] =~= ascii("start"@));
    assert(time_names()[2] =~= ascii("end"@));
    assert(time_names() =~= seq![ascii("time"@), ascii("start"@), ascii("end"@)]);
    assert(section_start() =~= ascii("<![CDATA["@));
    assert(section_end() =~= ascii("]]></"@));
    assert(binding_name(Seq::empty()) =~= ascii("xmlns"@));
    if prefix.len() > 0 {
        assert(ascii("xmlns:"@) =~= seq![120u8, 109, 108, 110, 115, 58]);
    }
}

/// An attribute starts behind white space or a quote, and nowhere else.
pub proof fn attributes_start_behind_blanks(data: Seq<u8>, i: int)
    requires
        0 < i <= data.len(),
    ensures
        attribute_at(data, i) <==> seq![9u8, 10, 13, 32, 34, 39].contains(data[i - 1]),
        !attribute_at(data, 0),
        !attribute_at(data, (data.len() + 1) as int),
{
    let marks = seq![9u8, 10, 13, 32, 34, 39];
    assert(marks[0] == 9 && marks[1] == 10 && marks[2] == 13 && marks[3] == 32 && marks[4] == 34
        && marks[5] == 39);
}

/// A tag ends with its first `>`; one between quotes does not count.
pub proof fn tags_end_outside_of_quotes(data: Seq<u8>, k: int, m: int, quote: u8)
    requires
        0 <= k <= m < data.len(),
    ensures
        (forall|j: int|
            k <= j < m ==> #[trigger] data[j] != 62 && data[j] != 34 && data[j] != 39) ==> {
            &&& data[m] == 62 ==> tag_end(data, k, 0) == m
            &&& data[m] == 34 || data[m] == 39 ==> tag_end(data, k, 0) == tag_end(
                data,
                m + 1,
                data[m],
            )
        },
        quote != 0 && data[m] == quote && (forall|j: int| k <= j < m ==> #[trigger] data[j] != quote)
            ==> tag_end(data, k, quote) == tag_end(data, m + 1, 0),
    decreases m - k,
{
    if k < m {
        tags_end_outside_of_quotes(data, k + 1, m, quote);
    }
}

proof fn names_go_to_the_end(data: Seq<u8>, k: int, end: int)
    requires
        0 <= k <= end <= data.len(),
        forall|j: int| k <= j < end ==> !is_blank(#[trigger] data[j]),
    ensures
        name_end(data, k, end) == end,
    decreases end - k,
{
    if k < end {
        names_go_to_the_end(data, k + 1, end);
    }
}

/// An element of a name is found by its tag, with a prefix and without; a tag that ends
/// an element is none that begins it.
pub proof fn elements_are_found_by_name(data: Seq<u8>, i: int, prefix: Seq<u8>, name: Seq<u8>)
    requires
        0 <= i,
        i + 1 + prefix.len() + name.len() < data.len(),
        name.len() > 0,
        data[i] == 60,
        data.subrange(i + 1, i + 1 + prefix.len() + name.len()) == prefix + name,
        data[i + 1 + prefix.len() + name.len()] == 62,
        forall|j: int|
            i < j < i + 1 + prefix.len() + name.len() ==> !is_blank(#[trigger] data[j]) && data[j]
                != 62 && data[j] != 34 && data[j] != 39,
    ensures
        data[i + 1] != 47 && (prefix.len() == 0 || prefix.last() == 58) ==> tag_named(
            data,
            i,
            name,
        ),
        data[i + 1] == 47 ==> !tag_named(data, i, name),
        prefix.len() > 0 && prefix.last() != 58 ==> !tag_named(data, i, name),
{
    let end = i + 1 + prefix.len() + name.len();
    tags_end_outside_of_quotes(data, i + 1, end, 0);
    names_go_to_the_end(data, i + 1, end);
    let at = end - name.len();
    let all = data.subrange(i + 1, end);
    assert(data.subrange(at, end) =~= name) by {
        assert forall|j: int| 0 <= j < name.len() implies data.subrange(at, end)[j] == name[j] by {
            assert(all[prefix.len() + j] == (prefix + name)[prefix.len() + j]);
        }
    }
    if prefix.len() > 0 {
        assert(all[prefix.len() - 1] == (prefix + name)[prefix.len() - 1]);
    }
}

/// A byte stands in a part if the part contains it.
pub proof fn parts_hold_their_bytes(data: Seq<u8>, b: u8, i: int, e: int)
    requires
        0 <= i <= e <= data.len(),
    ensures
        holds(data, b, i, e) <==> data.subrange(i, e).contains(b),
{
    let t = data.subrange(i, e);
    if holds(data, b, i, e) {
        let j = choose|j: int| i <= j < e && #[trigger] data[j] == b;
        assert(t[j - i] == b);
    }
    if t.contains(b) {
        let j = choose|j: int| 0 <= j < t.len() && t[j] == b;
        assert(data[i + j] == b);
    }
}

/// The digits of base 10 are those from 0 to 9; those of base 16 go on with six letters
/// of either size.
pub proof fn digits_are_of_their_base(b: u8)
    ensures
        digit_value(b) < 10 <==> 48 <= b <= 57,
        digit_value(b) < 16 <==> 48 <= b <= 57 || 65 <= b <= 70 || 97 <= b <= 102,
        48 <= b <= 57 ==> digit_value(b) == b - 48,
        65 <= b <= 70 ==> digit_value(b) == 10 + b - 65 && digit_value((b + 32) as u8)
            == digit_value(b),
        all_digits(seq![b], 0, 1, 10) <==> 48 <= b <= 57,
        all_digits(seq![b], 0, 1, 16) <==> digit_value(b) < 16,
{
    assert(seq![b][0] == b);
}

/// The first digit of a text is one, with none in front of it.
pub proof fn digits_are_found_first(t: Seq<u8>, k: int)
    requires
        0 <= k <= t.len(),
    ensures
        k <= first_digit(t, k) <= t.len(),
        first_digit(t, k) < t.len() ==> 48 <= t[first_digit(t, k)] <= 57,
        forall|j: int| k <= j < first_digit(t, k) ==> !(48 <= #[trigger] t[j] <= 57),
    decreases t.len() - k,
{
    if k < t.len() && !is_digit(t[k]) {
        digits_are_found_first(t, k + 1);
    }
}

/// A time of play that is plain is in ASCII, as it is written and with all references in
/// it resolved, and its seconds can be counted either way.
pub proof fn plain_times_are_in_ascii(v: Seq<u8>)
    requires
        plain_time(v),
    ensures
        forall|i: int| 0 <= i < v.len() ==> #[trigger] v[i] <= 127 && v[i] != 27,
        resolved(v, 0) matches Some(t) && (forall|i: int| 0 <= i < t.len() ==> #[trigger] t[i] <= 127)
            && play_seconds(t) < 0xFFFF_FFFF_FFFF_FFFF,
        play_seconds(v) < 0xFFFF_FFFF_FFFF_FFFF,
{
    resolved_texts_are_in_ascii(v, 0);
}

proof fn resolved_texts_are_in_ascii(v: Seq<u8>, k: int)
    ensures
        resolved(v, k) matches Some(t) ==> forall|i: int| 0 <= i < t.len() ==> #[trigger] t[i] <= 127,
    decreases v.len() - k,
{
    if 0 <= k < v.len() {
        let (b, next) = match reference_at(v, k) {
            Some((code, next)) => (code, next),
            None => (v[k] as int, k + 1),
        };
        if let Some((code, _)) = reference_at(v, k) {
            let hex = k + 2 < v.len() && v[k + 2] == 120;
            let i = if hex {
                k + 3
            } else {
                k + 2
            };
            let e = find_byte(v, 59, i);
            number_grows(v, i, i, e, if hex {
                16
            } else {
                10
            });
        }
        if next > k {
            resolved_texts_are_in_ascii(v, next);
        }
    }
}

/// Whether a time of play is short, in ASCII, and without references.
pub open spec fn is_short_time(v: Seq<u8>) -> bool {
    v.len() <= 15 && forall|i: int|
        0 <= i < v.len() ==> #[trigger] v[i] < 128 && v[i] != 27 && v[i] != 38
}

/// An element with a short time of play up to the next tag is plain, and so is one
/// without content.
pub proof fn short_durations_are_plain(data: Seq<u8>, i: int, end: int)
    requires
        0 <= i < end < data.len(),
        end == tag_end(data, i + 1, 0),
    ensures
        data[end - 1] == 47 ==> plain_duration(data, i),
        is_short_time(data.subrange(end + 1, find_byte(data, 60, end + 1))) && (find_byte(
            data,
            60,
            end + 1,
        ) + 1 < data.len() ==> data[find_byte(data, 60, end + 1) + 1] != 33 && data[find_byte(
            data,
            60,
            end + 1,
        ) + 1] != 63) ==> plain_duration(data, i),
{
    let v = data.subrange(end + 1, find_byte(data, 60, end + 1));
    if is_short_time(v) {
        short_times_are_plain(v);
    }
}

/// A tag in which all attributes have short values is plain, where it does not switch
/// between sets of characters.
pub proof fn short_attributes_are_plain(data: Seq<u8>, i: int, n: int)
    requires
        0 <= i,
        0 <= n < 3,
        forall|j: int| i <= j < tag_end(data, i + 1, 0) ==> #[trigger] data[j] != 27,
        forall|k: int| #[trigger] value_after(data, k) matches Some(v) ==> is_short_time(v),
    ensures
        plain_tag(data, i, n),
{
    let end = tag_end(data, i + 1, 0);
    assert forall|k: int|
        i < k < end && #[trigger] stands_at(data, time_names()[n], k) && attribute_at(
            data,
            k,
        ) implies (value_after(data, k + time_names()[n].len()) matches Some(v) ==> plain_time(
        v,
    )) by {
        if let Some(v) = value_after(data, k + time_names()[n].len()) {
            short_times_are_plain(v);
        }
    }
}

} // verus!
