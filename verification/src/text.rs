//! Text as sequences of characters: trimming, splitting, replacing, joining
//! and reading decimal numbers.

use vstd::prelude::*;

verus! {

/// `String::push` appends one character.
pub assume_specification[ String::push ](s: &mut String, c: char)
    ensures
        final(s)@ == old(s)@.push(c),
;

/// The characters of a string.
pub fn chars_of(s: &str) -> (r: Vec<char>)
    ensures
        r@ == s@,
{
    let mut r: Vec<char> = Vec::new();
    for c in it: s.chars()
        invariant
            r@ == s@.take(it.index()),
            it.seq() == s@,
    {
        r.push(c);
    }
    r
}

/// The string that holds the characters `v[from..to]`.
pub fn range_string(v: &Vec<char>, from: usize, to: usize) -> (r: String)
    requires
        from <= to <= v@.len(),
    ensures
        r@ == v@.subrange(from as int, to as int),
{
    let mut r: String = String::new();
    let mut i: usize = from;
    while i < to
        invariant
            from <= i <= to <= v@.len(),
            r@ == v@.subrange(from as int, i as int),
        decreases to - i,
    {
        r.push(v[i]);
        i = i + 1;
    }
    r
}

/// Whether two pieces of text are equal.
pub fn same_text(a: &str, b: &str) -> (r: bool)
    ensures
        r == (a@ == b@),
{
    let x: Vec<char> = chars_of(a);
    let y: Vec<char> = chars_of(b);
    if x.len() != y.len() {
        return false;
    }
    let mut i: usize = 0;
    while i < x.len()
        invariant
            x@ == a@,
            y@ == b@,
            x@.len() == y@.len(),
            i <= x@.len(),
            a@.take(i as int) == b@.take(i as int),
        decreases x@.len() - i,
    {
        if x[i] != y[i] {
            return false;
        }
        assert(a@.take(i + 1) == a@.take(i as int).push(a@[i as int]));
        assert(b@.take(i + 1) == b@.take(i as int).push(b@[i as int]));
        i = i + 1;
    }
    assert(a@.take(i as int) == a@);
    assert(b@.take(i as int) == b@);
    true
}

/// A name and a value.
pub fn pair(name: &str, value: &str) -> (r: (String, String))
    ensures
        r.deep_view() == (name@, value@),
{
    (name.to_owned(), value.to_owned())
}

// ---------------------------------------------------------------------------
// White space
// ---------------------------------------------------------------------------

/// The characters with the Unicode property `White_Space`.
pub open spec fn is_white(c: char) -> bool {
    let n = c as u32;
    ||| 0x09 <= n <= 0x0D
    ||| n == 0x20
    ||| n == 0x85
    ||| n == 0xA0
    ||| n == 0x1680
    ||| 0x2000 <= n <= 0x200A
    ||| n == 0x2028
    ||| n == 0x2029
    ||| n == 0x202F
    ||| n == 0x205F
    ||| n == 0x3000
}

/// Tests a character for white space.
pub fn white(c: char) -> (r: bool)
    ensures
        r == is_white(c),
{
    let n: u32 = c as u32;
    (0x09 <= n && n <= 0x0D) || n == 0x20 || n == 0x85 || n == 0xA0 || n == 0x1680 || (0x2000 <= n
        && n <= 0x200A) || n == 0x2028 || n == 0x2029 || n == 0x202F || n == 0x205F || n == 0x3000
}

/// `s` without its leading white space.
pub open spec fn trim_start(s: Seq<char>) -> Seq<char>
    decreases s.len(),
{
    if s.len() > 0 && is_white(s[0]) {
        trim_start(s.skip(1))
    } else {
        s
    }
}

/// `s` without its trailing white space.
pub open spec fn trim_end(s: Seq<char>) -> Seq<char>
    decreases s.len(),
{
    if s.len() > 0 && is_white(s.last()) {
        trim_end(s.drop_last())
    } else {
        s
    }
}

/// `s` without white space on either side.
pub open spec fn trimmed(s: Seq<char>) -> Seq<char> {
    trim_end(trim_start(s))
}

/// Removes white space on both sides.
pub fn trim(s: &str) -> (r: String)
    ensures
        r@ == trimmed(s@),
{
    let v: Vec<char> = chars_of(s);
    let mut lo: usize = 0;
    assert(s@.skip(0) == s@);
    while lo < v.len() && white(v[lo])
        invariant
            v@ == s@,
            lo <= v@.len(),
            trim_start(s@) == trim_start(s@.skip(lo as int)),
        decreases v@.len() - lo,
    {
        assert(s@.skip(lo as int).skip(1) == s@.skip(lo + 1));
        lo = lo + 1;
    }
    let mut hi: usize = v.len();
    assert(s@.subrange(lo as int, hi as int) == s@.skip(lo as int));
    while lo < hi && white(v[hi - 1])
        invariant
            v@ == s@,
            lo <= hi <= v@.len(),
            trimmed(s@) == trim_end(s@.subrange(lo as int, hi as int)),
        decreases hi - lo,
    {
        assert(s@.subrange(lo as int, hi as int).drop_last() == s@.subrange(lo as int, hi - 1));
        hi = hi - 1;
    }
    range_string(&v, lo, hi)
}

/// Trimming twice is trimming once.
pub proof fn trim_is_idempotent(s: Seq<char>)
    ensures
        trimmed(trimmed(s)) == trimmed(s),
{
    trim_start_head(s);
    trim_end_keeps_head(trim_start(s));
    trim_end_last(trim_start(s));
}

proof fn trim_start_head(s: Seq<char>)
    ensures
        trim_start(s).len() > 0 ==> !is_white(trim_start(s)[0]),
    decreases s.len(),
{
    if s.len() > 0 && is_white(s[0]) {
        trim_start_head(s.skip(1));
    }
}

proof fn trim_end_last(s: Seq<char>)
    ensures
        trim_end(s).len() > 0 ==> !is_white(trim_end(s).last()),
    decreases s.len(),
{
    if s.len() > 0 && is_white(s.last()) {
        trim_end_last(s.drop_last());
    }
}

proof fn trim_end_keeps_head(s: Seq<char>)
    ensures
        trim_end(s).len() > 0 ==> s.len() > 0 && trim_end(s)[0] == s[0],
    decreases s.len(),
{
    if s.len() > 0 && is_white(s.last()) {
        trim_end_keeps_head(s.drop_last());
    }
}

// ---------------------------------------------------------------------------
// Searching and splitting
// ---------------------------------------------------------------------------

/// Whether `pat` stands in `s` at position `i`.
pub open spec fn occurs_at(s: Seq<char>, pat: Seq<char>, i: int) -> bool {
    &&& 0 <= i
    &&& i + pat.len() <= s.len()
    &&& s.subrange(i, i + pat.len()) == pat
}

/// The first position at or after `i` at which `pat` stands in `s`.
pub open spec fn find_from(s: Seq<char>, pat: Seq<char>, i: int) -> Option<int>
    decreases s.len() + 1 - i,
{
    if i < 0 || i + pat.len() > s.len() {
        None
    } else if occurs_at(s, pat, i) {
        Some(i)
    } else {
        find_from(s, pat, i + 1)
    }
}

/// Whether `pat` stands somewhere in `s`.
pub open spec fn has_part(s: Seq<char>, pat: Seq<char>) -> bool {
    exists|i: int| occurs_at(s, pat, i)
}

/// `find_from` gives the least position, and none only where there is none.
pub proof fn find_is_first(s: Seq<char>, pat: Seq<char>, i: int)
    requires
        0 <= i,
    ensures
        match find_from(s, pat, i) {
            Some(k) => i <= k && occurs_at(s, pat, k) && forall|j: int|
                i <= j < k ==> !occurs_at(s, pat, j),
            None => forall|j: int| i <= j ==> !occurs_at(s, pat, j),
        },
    decreases s.len() + 1 - i,
{
    if i + pat.len() <= s.len() && !occurs_at(s, pat, i) {
        find_is_first(s, pat, i + 1);
    }
}

/// The text before and after the first `pat` in `s`.
pub open spec fn split_first(s: Seq<char>, pat: Seq<char>) -> Option<(Seq<char>, Seq<char>)> {
    match find_from(s, pat, 0) {
        Some(i) => Some((s.take(i), s.skip(i + pat.len()))),
        None => None,
    }
}

/// The pieces of `s` between the occurrences of `pat`, from left to right.
pub open spec fn pieces(s: Seq<char>, pat: Seq<char>) -> Seq<Seq<char>>
    decreases s.len(),
{
    match split_first(s, pat) {
        Some((a, b)) => if b.len() < s.len() {
            seq![a] + pieces(b, pat)
        } else {
            seq![s]
        },
        None => seq![s],
    }
}

/// The pieces in order, with `sep` between each two.
pub open spec fn joined(parts: Seq<Seq<char>>, sep: Seq<char>) -> Seq<char>
    decreases parts.len(),
{
    if parts.len() == 0 {
        Seq::empty()
    } else if parts.len() == 1 {
        parts[0]
    } else {
        parts[0] + sep + joined(parts.skip(1), sep)
    }
}

/// `s` with `with` in place of every `pat`.
pub open spec fn replaced(s: Seq<char>, pat: Seq<char>, with: Seq<char>) -> Seq<char> {
    joined(pieces(s, pat), with)
}

fn match_at(v: &Vec<char>, pat: &Vec<char>, i: usize) -> (r: bool)
    requires
        i + pat@.len() <= v@.len(),
    ensures
        r == occurs_at(v@, pat@, i as int),
{
    let n: usize = v.len();
    let mut k: usize = 0;
    while k < pat.len()
        invariant
            n == v@.len(),
            i + pat@.len() <= n,
            k <= pat@.len(),
            forall|j: int| 0 <= j < k ==> v@[i + j] == pat@[j],
        decreases pat@.len() - k,
    {
        if v[i + k] != pat[k] {
            assert(v@.subrange(i as int, i + pat@.len())[k as int] != pat@[k as int]);
            return false;
        }
        k = k + 1;
    }
    assert(v@.subrange(i as int, i + pat@.len()) =~= pat@);
    true
}

fn find(v: &Vec<char>, pat: &Vec<char>, from: usize) -> (r: Option<usize>)
    ensures
        match r {
            Some(i) => find_from(v@, pat@, from as int) == Some(i as int) && from <= i && i
                + pat.len() <= v.len(),
            None => find_from(v@, pat@, from as int) is None,
        },
{
    let mut i: usize = from;
    if v.len() < pat.len() {
        return None;
    }
    let last: usize = v.len() - pat.len();
    while i <= last
        invariant
            from <= i,
            last == v@.len() - pat@.len(),
            last < usize::MAX || pat@.len() == 0,
            find_from(v@, pat@, from as int) == find_from(v@, pat@, i as int),
        decreases last + 1 - i,
    {
        if match_at(v, pat, i) {
            return Some(i);
        }
        assert(pat@.len() > 0) by {
            if pat@.len() == 0 {
                assert(v@.subrange(i as int, i as int) =~= pat@);
            }
        }
        i = i + 1;
    }
    None
}

proof fn find_shift(s: Seq<char>, pat: Seq<char>, k: int, i: int)
    requires
        0 <= k <= s.len(),
        0 <= i,
    ensures
        find_from(s, pat, k + i) == (match find_from(s.skip(k), pat, i) {
            Some(j) => Some(k + j),
            None => None,
        }),
    decreases s.len() + 1 - k - i,
{
    let t = s.skip(k);
    if k + i + pat.len() <= s.len() {
        assert(t.subrange(i, i + pat.len()) =~= s.subrange(k + i, k + i + pat.len()));
        if !occurs_at(t, pat, i) {
            find_shift(s, pat, k, i + 1);
        }
    }
}

/// Whether `pat` stands somewhere in `s`.
pub fn contains(s: &str, pat: &str) -> (r: bool)
    ensures
        r == has_part(s@, pat@),
{
    let v: Vec<char> = chars_of(s);
    let p: Vec<char> = chars_of(pat);
    proof {
        find_is_first(s@, pat@, 0);
    }
    find(&v, &p, 0).is_some()
}

/// The text before and the text after the first `pat`.
pub fn split_once(s: &str, pat: &str) -> (r: Option<(String, String)>)
    ensures
        r.deep_view() == split_first(s@, pat@),
{
    let v: Vec<char> = chars_of(s);
    let p: Vec<char> = chars_of(pat);
    let n: usize = v.len();
    match find(&v, &p, 0) {
        Some(i) => {
            let a: String = range_string(&v, 0, i);
            let b: String = range_string(&v, i + p.len(), n);
            assert(a@ =~= s@.take(i as int));
            assert(b@ =~= s@.skip(i + pat@.len()));
            Some((a, b))
        },
        None => None,
    }
}

/// The pieces of `s` between the occurrences of `pat`.
pub fn split(s: &str, pat: &str) -> (r: Vec<String>)
    requires
        pat@.len() > 0,
    ensures
        r.deep_view() == pieces(s@, pat@),
{
    let v: Vec<char> = chars_of(s);
    let p: Vec<char> = chars_of(pat);
    let mut r: Vec<String> = Vec::new();
    let mut at: usize = 0;
    assert(s@.skip(0) == s@);
    assert(r.deep_view() + pieces(s@, pat@) =~= pieces(s@, pat@));
    loop
        invariant
            v@ == s@,
            p@ == pat@,
            pat@.len() > 0,
            at <= s@.len(),
            r.deep_view() + pieces(s@.skip(at as int), pat@) == pieces(s@, pat@),
        decreases s@.len() - at,
    {
        let ghost rest = s@.skip(at as int);
        proof {
            find_shift(s@, pat@, at as int, 0);
        }
        match find(&v, &p, at) {
            Some(i) => {
                let a: String = range_string(&v, at, i);
                assert(a@ =~= rest.take(i - at));
                let ghost before = r.deep_view();
                r.push(a);
                assert(r.deep_view() =~= before.push(a@));
                assert(rest.skip(i - at + pat@.len()) =~= s@.skip(i + pat@.len()));
                assert(pieces(rest, pat@) == seq![a@] + pieces(s@.skip(i + pat@.len()), pat@));
                assert(before + (seq![a@] + pieces(s@.skip(i + pat@.len()), pat@)) =~= before.push(
                    a@,
                ) + pieces(s@.skip(i + pat@.len()), pat@));
                at = i + p.len();
            },
            None => {
                let a: String = range_string(&v, at, v.len());
                assert(a@ =~= rest);
                let ghost before = r.deep_view();
                r.push(a);
                assert(r.deep_view() =~= before.push(a@));
                assert(before + seq![a@] =~= before.push(a@));
                return r;
            },
        }
    }
}

/// The parts in order, with `sep` between each two.
pub fn join(parts: &Vec<String>, sep: &str) -> (r: String)
    ensures
        r@ == joined(parts.deep_view(), sep@),
{
    let mut r: String = String::new();
    let mut i: usize = parts.len();
    let ghost all = parts.deep_view();
    assert(joined(all.skip(i as int), sep@) =~= Seq::empty());
    while i > 0
        invariant
            all == parts.deep_view(),
            i <= parts@.len(),
            r@ == joined(all.skip(i as int), sep@),
        decreases i,
    {
        i = i - 1;
        let ghost rest = all.skip(i as int);
        assert(rest.skip(1) =~= all.skip(i + 1));
        assert(rest[0] == parts@[i as int]@);
        let mut head: String = parts[i].clone();
        if i + 1 < parts.len() {
            head.append(sep);
            head.append(r.as_str());
        }
        r = head;
    }
    assert(all.skip(0) =~= all);
    r
}

/// `s` with `with` in place of every `pat`.
pub fn replace(s: &str, pat: &str, with: &str) -> (r: String)
    requires
        pat@.len() > 0,
    ensures
        r@ == replaced(s@, pat@, with@),
{
    let parts: Vec<String> = split(s, pat);
    join(&parts, with)
}

/// The pieces of a text, joined by what they were split at, are the text.
pub proof fn split_then_join(s: Seq<char>, pat: Seq<char>)
    requires
        pat.len() > 0,
    ensures
        joined(pieces(s, pat), pat) == s,
        pieces(s, pat).len() > 0,
    decreases s.len(),
{
    find_is_first(s, pat, 0);
    match split_first(s, pat) {
        Some((a, b)) => {
            let i = find_from(s, pat, 0)->0;
            split_then_join(b, pat);
            let rest = pieces(b, pat);
            let all = seq![a] + rest;
            assert(all.skip(1) =~= rest);
            assert(all[0] == a);
            assert(s =~= a + pat + b) by {
                assert(s.subrange(i, i + pat.len()) == pat);
                assert forall|k: int| 0 <= k < pat.len() implies s[i + k] == pat[k] by {
                    assert(s.subrange(i, i + pat.len())[k] == pat[k]);
                }
            }
        },
        None => {},
    }
}

// ---------------------------------------------------------------------------
// Prefixes and suffixes
// ---------------------------------------------------------------------------

/// Whether `s` begins with `pat`.
pub open spec fn begins(s: Seq<char>, pat: Seq<char>) -> bool {
    occurs_at(s, pat, 0)
}

/// Whether `s` ends with `pat`.
pub open spec fn ends(s: Seq<char>, pat: Seq<char>) -> bool {
    occurs_at(s, pat, s.len() - pat.len())
}

/// What follows `pat` in `s`, where `s` begins with it.
pub open spec fn after_prefix(s: Seq<char>, pat: Seq<char>) -> Option<Seq<char>> {
    if begins(s, pat) {
        Some(s.skip(pat.len() as int))
    } else {
        None
    }
}

/// `s` without any number of leading `pat`.
pub open spec fn without_prefixes(s: Seq<char>, pat: Seq<char>) -> Seq<char>
    decreases s.len(),
{
    if pat.len() > 0 && begins(s, pat) {
        without_prefixes(s.skip(pat.len() as int), pat)
    } else {
        s
    }
}

/// `s` without any number of trailing `pat`.
pub open spec fn without_suffixes(s: Seq<char>, pat: Seq<char>) -> Seq<char>
    decreases s.len(),
{
    if pat.len() > 0 && ends(s, pat) {
        without_suffixes(s.take(s.len() - pat.len()), pat)
    } else {
        s
    }
}

/// Removes one leading `pat`.
pub fn strip_prefix(s: &str, pat: &str) -> (r: Option<String>)
    ensures
        r.deep_view() == after_prefix(s@, pat@),
{
    let v: Vec<char> = chars_of(s);
    let p: Vec<char> = chars_of(pat);
    if p.len() <= v.len() && match_at(&v, &p, 0) {
        let r: String = range_string(&v, p.len(), v.len());
        assert(r@ =~= s@.skip(pat@.len() as int));
        Some(r)
    } else {
        None
    }
}

/// Removes every leading `pat`.
pub fn trim_start_matches(s: &str, pat: &str) -> (r: String)
    ensures
        r@ == without_prefixes(s@, pat@),
{
    let v: Vec<char> = chars_of(s);
    let p: Vec<char> = chars_of(pat);
    let n: usize = v.len();
    let mut at: usize = 0;
    assert(s@.skip(0) == s@);
    while 0 < p.len() && p.len() <= n - at && match_at(&v, &p, at)
        invariant
            v@ == s@,
            p@ == pat@,
            n == s@.len(),
            at <= n,
            without_prefixes(s@, pat@) == without_prefixes(s@.skip(at as int), pat@),
        decreases n - at,
    {
        proof {
            let rest = s@.skip(at as int);
            assert(rest.subrange(0, pat@.len() as int) =~= s@.subrange(
                at as int,
                at + pat@.len(),
            ));
            assert(rest.skip(pat@.len() as int) =~= s@.skip(at + pat@.len()));
        }
        at = at + p.len();
    }
    proof {
        let rest = s@.skip(at as int);
        if pat@.len() <= rest.len() {
            assert(rest.subrange(0, pat@.len() as int) =~= s@.subrange(
                at as int,
                at + pat@.len(),
            ));
        }
        assert(rest =~= s@.subrange(at as int, n as int));
    }
    range_string(&v, at, n)
}

/// Removes every trailing `pat`.
pub fn trim_end_matches(s: &str, pat: &str) -> (r: String)
    ensures
        r@ == without_suffixes(s@, pat@),
{
    let v: Vec<char> = chars_of(s);
    let p: Vec<char> = chars_of(pat);
    let mut to: usize = v.len();
    assert(s@.take(to as int) == s@);
    while 0 < p.len() && p.len() <= to && match_at(&v, &p, to - p.len())
        invariant
            v@ == s@,
            p@ == pat@,
            to <= s@.len(),
            without_suffixes(s@, pat@) == without_suffixes(s@.take(to as int), pat@),
        decreases to,
    {
        proof {
            let rest = s@.take(to as int);
            assert(rest.subrange(to - pat@.len(), to as int) =~= s@.subrange(
                to - pat@.len(),
                to as int,
            ));
            assert(rest.take(to - pat@.len()) =~= s@.take(to - pat@.len()));
        }
        to = to - p.len();
    }
    proof {
        let rest = s@.take(to as int);
        if pat@.len() <= to {
            assert(rest.subrange(to - pat@.len(), to as int) =~= s@.subrange(
                to - pat@.len(),
                to as int,
            ));
        }
        assert(rest =~= s@.subrange(0, to as int));
    }
    range_string(&v, 0, to)
}

/// What is left of `s` once up to `n` pieces, each ended by one white space
/// character, have been taken off its front.
pub open spec fn after_words(s: Seq<char>, n: nat) -> Seq<char>
    decreases n, s.len(),
{
    if n == 0 || !exists|i: int| 0 <= i < s.len() && is_white(s[i]) {
        s
    } else {
        after_words(s.skip(first_white(s) + 1), (n - 1) as nat)
    }
}

/// The position of the first white space character; the length if there is none.
pub open spec fn first_white(s: Seq<char>) -> int
    decreases s.len(),
{
    if s.len() == 0 || is_white(s[0]) {
        0
    } else {
        1 + first_white(s.skip(1))
    }
}

proof fn first_white_is_first(s: Seq<char>, k: int)
    requires
        0 <= k <= s.len(),
        forall|i: int| 0 <= i < k ==> !is_white(s[i]),
        k == s.len() || is_white(s[k]),
    ensures
        first_white(s) == k,
    decreases s.len(),
{
    if s.len() > 0 && k > 0 {
        first_white_is_first(s.skip(1), k - 1);
    }
}

/// Takes up to `n` pieces off the front of `s`, each with the one white space
/// character that ends it.
pub fn skip_words(s: &str, n: usize) -> (r: String)
    ensures
        r@ == after_words(s@, n as nat),
{
    let v: Vec<char> = chars_of(s);
    let len: usize = v.len();
    let mut at: usize = 0;
    let mut left: usize = n;
    let mut i: usize = 0;
    assert(s@.skip(0) == s@);
    while left > 0 && i < len
        invariant
            v@ == s@,
            len == s@.len(),
            at <= i <= len,
            forall|j: int| at <= j < i ==> !is_white(s@[j]),
            after_words(s@, n as nat) == after_words(s@.skip(at as int), left as nat),
        decreases len - i,
    {
        let ghost rest = s@.skip(at as int);
        if white(v[i]) {
            proof {
                assert(rest[i - at] == s@[i as int]);
                first_white_is_first(rest, i - at);
                assert(rest.skip(i - at + 1) =~= s@.skip(i + 1));
            }
            at = i + 1;
            left = left - 1;
        }
        i = i + 1;
    }
    proof {
        let rest = s@.skip(at as int);
        assert(rest =~= s@.subrange(at as int, len as int));
        if left > 0 {
            assert forall|j: int| 0 <= j < rest.len() implies !is_white(rest[j]) by {
                assert(rest[j] == s@[at + j]);
            }
        }
    }
    range_string(&v, at, len)
}

// ---------------------------------------------------------------------------
// Decimal numbers
// ---------------------------------------------------------------------------

/// Whether `c` is one of the ten decimal digits.
pub open spec fn is_digit(c: char) -> bool {
    '0' <= c <= '9'
}

/// The value of a decimal digit.
pub open spec fn digit(c: char) -> int {
    c as int - '0' as int
}

/// Whether `s` holds digits only.
pub open spec fn all_digits(s: Seq<char>) -> bool {
    forall|i: int| 0 <= i < s.len() ==> is_digit(#[trigger] s[i])
}

/// The number that a sequence of digits stands for.
pub open spec fn digits_value(s: Seq<char>) -> int
    decreases s.len(),
{
    if s.len() == 0 {
        0
    } else {
        digits_value(s.drop_last()) * 10 + digit(s.last())
    }
}

/// The number that one or more digits stand for.
pub open spec fn digits_number(s: Seq<char>) -> Option<int> {
    if s.len() > 0 && all_digits(s) {
        Some(digits_value(s))
    } else {
        None
    }
}

/// An unsigned number: digits, with or without a plus sign in front.
pub open spec fn unsigned_number(s: Seq<char>) -> Option<int> {
    if s.len() > 0 && s[0] == '+' {
        digits_number(s.skip(1))
    } else {
        digits_number(s)
    }
}

/// A signed number: digits, with or without a sign in front.
pub open spec fn signed_number(s: Seq<char>) -> Option<int> {
    if s.len() > 0 && s[0] == '-' {
        match digits_number(s.skip(1)) {
            Some(n) => Some(-n),
            None => None,
        }
    } else {
        unsigned_number(s)
    }
}

/// `n`, if it is between `lo` and `hi`.
pub open spec fn in_range(n: Option<int>, lo: int, hi: int) -> Option<int> {
    match n {
        Some(k) => if lo <= k <= hi {
            Some(k)
        } else {
            None
        },
        None => None,
    }
}

proof fn digits_grow(s: Seq<char>, k: int)
    requires
        0 <= k <= s.len(),
        all_digits(s),
    ensures
        0 <= digits_value(s.take(k)) <= digits_value(s),
    decreases s.len(),
{
    if k == s.len() {
        assert(s.take(k) =~= s);
        if s.len() > 0 {
            digits_grow(s.drop_last(), k - 1);
            assert(is_digit(s[s.len() - 1]));
        }
    } else {
        assert(s.drop_last().take(k) =~= s.take(k));
        digits_grow(s.drop_last(), k);
        assert(is_digit(s[s.len() - 1]));
    }
}

fn read_digits(v: &Vec<char>, from: usize, max: u64) -> (r: Option<u64>)
    requires
        from <= v@.len(),
    ensures
        match r {
            Some(n) => in_range(digits_number(v@.skip(from as int)), 0, max as int) == Some(
                n as int,
            ),
            None => in_range(digits_number(v@.skip(from as int)), 0, max as int) is None,
        },
{
    let ghost s = v@.skip(from as int);
    let len: usize = v.len();
    if from == len {
        return None;
    }
    let mut acc: u128 = 0;
    let mut i: usize = from;
    assert(s.take(0) =~= Seq::<char>::empty());
    while i < len
        invariant
            s == v@.skip(from as int),
            len == v@.len(),
            from <= i <= len,
            acc <= max,
            acc == digits_value(s.take(i - from)),
            forall|j: int| 0 <= j < i - from ==> is_digit(#[trigger] s[j]),
        decreases len - i,
    {
        let c: char = v[i];
        assert(s[i - from] == c);
        if c < '0' || '9' < c {
            return None;
        }
        proof {
            assert(s.take(i - from + 1).drop_last() =~= s.take(i - from));
            assert(s.take(i - from + 1).last() == c);
        }
        acc = acc * 10 + (c as u32 - '0' as u32) as u128;
        if acc > max as u128 {
            proof {
                if all_digits(s) {
                    digits_grow(s, i - from + 1);
                }
            }
            return None;
        }
        i = i + 1;
    }
    assert(s.take(len - from) =~= s);
    proof {
        digits_grow(s, s.len() as int);
    }
    Some(acc as u64)
}

/// Reads an unsigned number of at most `max`.
pub fn parse_unsigned(s: &str, max: u64) -> (r: Option<u64>)
    ensures
        match r {
            Some(n) => in_range(unsigned_number(s@), 0, max as int) == Some(n as int),
            None => in_range(unsigned_number(s@), 0, max as int) is None,
        },
{
    let v: Vec<char> = chars_of(s);
    if v.len() > 0 && v[0] == '+' {
        read_digits(&v, 1, max)
    } else {
        assert(v@.skip(0) =~= v@);
        read_digits(&v, 0, max)
    }
}

/// Reads an unsigned number that fits in a `u32`.
pub fn parse_u32(s: &str) -> (r: Option<u32>)
    ensures
        match r {
            Some(n) => in_range(unsigned_number(s@), 0, u32::MAX as int) == Some(n as int),
            None => in_range(unsigned_number(s@), 0, u32::MAX as int) is None,
        },
{
    match parse_unsigned(s, u32::MAX as u64) {
        Some(n) => Some(n as u32),
        None => None,
    }
}

/// Reads a signed number that fits in an `i64`.
pub fn parse_i64(s: &str) -> (r: Option<i64>)
    ensures
        match r {
            Some(n) => in_range(signed_number(s@), i64::MIN as int, i64::MAX as int) == Some(
                n as int,
            ),
            None => in_range(signed_number(s@), i64::MIN as int, i64::MAX as int) is None,
        },
{
    let v: Vec<char> = chars_of(s);
    if v.len() > 0 && v[0] == '-' {
        let limit: u64 = 0x8000_0000_0000_0000;
        proof {
            if all_digits(s@.skip(1)) {
                digits_grow(s@.skip(1), s@.skip(1).len() as int);
                assert(s@.skip(1).take(s@.skip(1).len() as int) =~= s@.skip(1));
            }
        }
        match read_digits(&v, 1, limit) {
            Some(n) => Some((-(n as i128)) as i64),
            None => None,
        }
    } else {
        proof {
            let body = if s@.len() > 0 && s@[0] == '+' {
                s@.skip(1)
            } else {
                s@
            };
            if all_digits(body) {
                digits_grow(body, body.len() as int);
                assert(body.take(body.len() as int) =~= body);
            }
        }
        match parse_unsigned(s, i64::MAX as u64) {
            Some(n) => Some(n as i64),
            None => None,
        }
    }
}

/// The character of a decimal digit.
pub open spec fn digit_char(d: int) -> char {
    ('0' as int + d) as char
}

/// A number between 0 and 99 as two digits.
pub open spec fn two_digits(n: int) -> Seq<char> {
    seq![digit_char(n / 10), digit_char(n % 10)]
}

/// A number in decimal, without leading zeros.
pub open spec fn decimal(n: nat) -> Seq<char>
    decreases n,
{
    if n < 10 {
        seq![digit_char(n as int)]
    } else {
        decimal(n / 10).push(digit_char((n % 10) as int))
    }
}

/// A signed number in decimal, without leading zeros.
pub open spec fn signed_decimal(n: int) -> Seq<char> {
    if n < 0 {
        seq!['-'] + decimal((-n) as nat)
    } else {
        decimal(n as nat)
    }
}

/// Writes a number in decimal.
pub fn decimal_text(n: u64) -> (r: String)
    ensures
        r@ == decimal(n as nat),
    decreases n,
{
    let d: u8 = (n % 10) as u8;
    let c: char = (48u8 + d) as char;
    let mut r: String = if n < 10 {
        String::new()
    } else {
        decimal_text(n / 10)
    };
    r.push(c);
    assert(n < 10 ==> r@ =~= seq![c]);
    r
}

/// Writes a signed number in decimal.
pub fn signed_decimal_text(n: i64) -> (r: String)
    ensures
        r@ == signed_decimal(n as int),
{
    if n < 0 {
        let mut r: String = String::new();
        r.push('-');
        let body: String = decimal_text((-(n as i128)) as u64);
        assert(r@ =~= seq!['-']);
        r.append(body.as_str());
        r
    } else {
        decimal_text(n as u64)
    }
}

/// What is written in decimal reads back as the number it was written from.
pub proof fn decimal_reads_back(n: nat)
    ensures
        unsigned_number(decimal(n)) == Some(n as int),
        decimal(n).len() > 0,
        all_digits(decimal(n)),
        digits_value(decimal(n)) == n,
    decreases n,
{
    reveal_with_fuel(digits_value, 2);
    if n >= 10 {
        decimal_reads_back(n / 10);
        assert(decimal(n).last() == digit_char((n % 10) as int));
        assert(decimal(n).drop_last() =~= decimal(n / 10));
        assert forall|i: int| 0 <= i < decimal(n).len() implies is_digit(
            #[trigger] decimal(n)[i],
        ) by {
            if i < decimal(n / 10).len() {
                assert(decimal(n)[i] == decimal(n / 10)[i]);
            }
        }
    } else {
        assert(decimal(n).drop_last() =~= Seq::<char>::empty());
    }
    assert(is_digit(decimal(n)[0]));
}

// ---------------------------------------------------------------------------
// Laws of texts
// ---------------------------------------------------------------------------

/// White space is what Unicode lists as such.
pub proof fn white_space_is_listed(c: char)
    ensures
        c as u32 <= 0x7F ==> (is_white(c) <==> c == ' ' || '\t' <= c <= '\r'),
        is_white(c) <==> {
            ||| c as u32 <= 0x7F && (c == ' ' || '\t' <= c <= '\r')
            ||| seq![0x85u32, 0xA0u32, 0x1680u32, 0x2028u32, 0x2029u32].contains(c as u32)
            ||| seq![0x202Fu32, 0x205Fu32, 0x3000u32].contains(c as u32)
            ||| c as u32 / 16 == 0x200 && c as u32 % 16 <= 10
        },
{
    let a = seq![0x85u32, 0xA0u32, 0x1680u32, 0x2028u32, 0x2029u32];
    let b = seq![0x202Fu32, 0x205Fu32, 0x3000u32];
    assert(a[0] == 0x85 && a[1] == 0xA0 && a[2] == 0x1680 && a[3] == 0x2028 && a[4] == 0x2029);
    assert(b[0] == 0x202F && b[1] == 0x205F && b[2] == 0x3000);
}

/// Trimming takes white space off both ends, all of it, and nothing else.
pub proof fn trimming_takes_white_space(s: Seq<char>)
    ensures
        exists|a: int, b: int|
            0 <= a <= b <= s.len() && trimmed(s) == #[trigger] s.subrange(a, b) && (forall|i: int|
                0 <= i < a || b <= i < s.len() ==> is_white(#[trigger] s[i])) && (a < b
                ==> !is_white(s[a]) && !is_white(s[b - 1])),
{
    let a = trim_start_cut(s);
    let t = s.skip(a);
    let n = trim_end_cut(t);
    let b = a + n;
    assert(s.subrange(a, b) =~= t.take(n));
    assert forall|i: int| 0 <= i < a || b <= i < s.len() implies is_white(#[trigger] s[i]) by {
        if b <= i {
            assert(t[i - a] == s[i]);
        }
    }
    if a < b {
        assert(t[0] == s[a]);
        assert(t[n - 1] == s[b - 1]);
    }
}

proof fn trim_start_cut(s: Seq<char>) -> (a: int)
    ensures
        0 <= a <= s.len(),
        trim_start(s) == s.skip(a),
        forall|i: int| 0 <= i < a ==> is_white(#[trigger] s[i]),
        a < s.len() ==> !is_white(s[a]),
    decreases s.len(),
{
    if s.len() > 0 && is_white(s[0]) {
        let t = s.skip(1);
        let a = trim_start_cut(t);
        assert(t.skip(a) =~= s.skip(a + 1));
        assert forall|i: int| 0 <= i < a + 1 implies is_white(#[trigger] s[i]) by {
            if i > 0 {
                assert(t[i - 1] == s[i]);
            }
        }
        if a < t.len() {
            assert(t[a] == s[a + 1]);
        }
        a + 1
    } else {
        assert(s.skip(0) =~= s);
        0
    }
}

proof fn trim_end_cut(s: Seq<char>) -> (n: int)
    ensures
        0 <= n <= s.len(),
        trim_end(s) == s.take(n),
        forall|i: int| n <= i < s.len() ==> is_white(#[trigger] s[i]),
        n > 0 ==> !is_white(s[n - 1]),
    decreases s.len(),
{
    if s.len() > 0 && is_white(s.last()) {
        let t = s.drop_last();
        let n = trim_end_cut(t);
        assert(t.take(n) =~= s.take(n));
        assert forall|i: int| n <= i < s.len() implies is_white(#[trigger] s[i]) by {
            if i < t.len() {
                assert(t[i] == s[i]);
            }
        }
        if n > 0 {
            assert(t[n - 1] == s[n - 1]);
        }
        n
    } else {
        assert(s.take(s.len() as int) =~= s);
        s.len() as int
    }
}

/// A text is split at the first place where the separator stands, into what is in
/// front of it and what follows; it is not split where there is none.
pub proof fn split_is_first(s: Seq<char>, pat: Seq<char>)
    ensures
        match split_first(s, pat) {
            Some((a, b)) => s == a + pat + b && forall|j: int|
                0 <= j < a.len() ==> !#[trigger] occurs_at(s, pat, j),
            None => !has_part(s, pat),
        },
        split_first(s, pat) is Some <==> has_part(s, pat),
{
    find_is_first(s, pat, 0);
    match find_from(s, pat, 0) {
        Some(i) => {
            assert(s =~= s.take(i) + s.subrange(i, i + pat.len()) + s.skip(i + pat.len()));
        },
        None => {},
    }
}

/// A text has a part if it is that part with something in front of it and behind it.
pub proof fn parts_are_surrounded(s: Seq<char>, pat: Seq<char>)
    ensures
        has_part(s, pat) <==> exists|a: Seq<char>, b: Seq<char>| s == #[trigger] (a + pat + b),
{
    if has_part(s, pat) {
        let i = choose|i: int| occurs_at(s, pat, i);
        assert(s =~= s.take(i) + pat + s.skip(i + pat.len())) by {
            assert(s =~= s.take(i) + s.subrange(i, i + pat.len()) + s.skip(i + pat.len()));
        }
    }
    if exists|a: Seq<char>, b: Seq<char>| s == #[trigger] (a + pat + b) {
        let (a, b) = choose|a: Seq<char>, b: Seq<char>| s == #[trigger] (a + pat + b);
        assert(s.subrange(a.len() as int, (a.len() + pat.len()) as int) =~= pat);
        assert(occurs_at(s, pat, a.len() as int));
    }
}

/// No piece of a text that was split holds the separator.
pub proof fn pieces_hold_no_separator(s: Seq<char>, pat: Seq<char>)
    requires
        pat.len() > 0,
    ensures
        forall|i: int| 0 <= i < pieces(s, pat).len() ==> !has_part(#[trigger] pieces(s, pat)[i], pat),
    decreases s.len(),
{
    find_is_first(s, pat, 0);
    match find_from(s, pat, 0) {
        Some(k) => {
            let a = s.take(k);
            let b = s.skip(k + pat.len());
            pieces_hold_no_separator(b, pat);
            assert forall|j: int| !occurs_at(a, pat, j) by {
                if occurs_at(a, pat, j) {
                    assert(s.subrange(j, j + pat.len()) =~= a.subrange(j, j + pat.len()));
                    assert(occurs_at(s, pat, j));
                }
            }
            assert(pieces(s, pat) == seq![a] + pieces(b, pat));
        },
        None => {
            assert(pieces(s, pat) == seq![s]);
        },
    }
}

/// Joining puts the separator between each two parts, and nowhere else.
pub proof fn joining_puts_separators_between(
    first: Seq<char>,
    parts: Seq<Seq<char>>,
    sep: Seq<char>,
)
    ensures
        joined(Seq::empty(), sep) == Seq::<char>::empty(),
        joined(seq![first], sep) == first,
        parts.len() > 0 ==> joined(seq![first] + parts, sep) == first + sep + joined(parts, sep),
{
    let all = seq![first] + parts;
    assert(all.skip(1) =~= parts);
}

/// In a text without the pattern nothing is replaced; else the first one is, and
/// then those in what follows it.
pub proof fn replacing_goes_on(
    a: Seq<char>,
    pat: Seq<char>,
    b: Seq<char>,
    with: Seq<char>,
)
    requires
        pat.len() > 0,
        forall|j: int| 0 <= j < a.len() ==> !#[trigger] occurs_at(a + pat + b, pat, j),
    ensures
        replaced(a + pat + b, pat, with) == a + with + replaced(b, pat, with),
        !has_part(b, pat) ==> replaced(b, pat, with) == b,
{
    let s = a + pat + b;
    find_is_first(s, pat, 0);
    assert(s.subrange(a.len() as int, (a.len() + pat.len()) as int) =~= pat);
    assert(occurs_at(s, pat, a.len() as int));
    let k = find_from(s, pat, 0)->0;
    assert(k == a.len());
    assert(s.take(k) =~= a);
    assert(s.skip(k + pat.len()) =~= b);
    split_then_join(b, pat);
    joining_puts_separators_between(a, pieces(b, pat), with);
    find_is_first(b, pat, 0);
    if !has_part(b, pat) {
        assert(pieces(b, pat) == seq![b]);
    }
}

/// What follows a prefix is what stands behind it.
pub proof fn prefixes_stand_in_front(s: Seq<char>, pat: Seq<char>, rest: Seq<char>)
    ensures
        after_prefix(s, pat) == Some(rest) <==> s == pat + rest,
        after_prefix(s, pat) is None <==> !pat.is_prefix_of(s),
{
    if begins(s, pat) {
        assert(s =~= s.subrange(0, pat.len() as int) + s.skip(pat.len() as int));
        assert(pat.is_prefix_of(s));
    }
    if s == pat + rest {
        assert(s.subrange(0, pat.len() as int) =~= pat);
        assert(s.skip(pat.len() as int) =~= rest);
    }
    if pat.is_prefix_of(s) {
        assert(s.subrange(0, pat.len() as int) =~= pat);
    }
}

/// Taking prefixes and suffixes off takes each of them off, and only them.
pub proof fn affixes_are_taken_off(s: Seq<char>, pat: Seq<char>)
    requires
        pat.len() > 0,
    ensures
        without_prefixes(pat + s, pat) == without_prefixes(s, pat),
        !pat.is_prefix_of(s) ==> without_prefixes(s, pat) == s,
        without_suffixes(s + pat, pat) == without_suffixes(s, pat),
        !pat.is_suffix_of(s) ==> without_suffixes(s, pat) == s,
{
    let p = pat + s;
    assert(p.subrange(0, pat.len() as int) =~= pat);
    assert(p.skip(pat.len() as int) =~= s);
    let q = s + pat;
    assert(q.subrange(s.len() as int, q.len() as int) =~= pat);
    assert(q.take(q.len() - pat.len()) =~= s);
    if begins(s, pat) {
        assert(pat.is_prefix_of(s));
    }
    if ends(s, pat) {
        assert(pat.is_suffix_of(s));
    }
}

/// Words are taken off one after the other, each with the one white space
/// character that ends it, until enough are or none is left.
pub proof fn words_are_taken_off(word: Seq<char>, c: char, rest: Seq<char>, n: nat)
    requires
        forall|i: int| 0 <= i < word.len() ==> !is_white(#[trigger] word[i]),
        is_white(c),
    ensures
        after_words(word.push(c) + rest, n + 1) == after_words(rest, n),
        after_words(word, n) == word,
        after_words(rest, 0) == rest,
{
    let s = word.push(c) + rest;
    assert(s[word.len() as int] == c);
    assert forall|i: int| 0 <= i < word.len() implies !is_white(#[trigger] s[i]) by {
        assert(s[i] == word[i]);
    }
    first_white_is_first(s, word.len() as int);
    assert(s.skip((word.len() + 1) as int) =~= rest);
}

/// Digits stand for a number with or without a plus sign in front, and for the
/// number below zero with a minus sign. A text that holds anything else stands for
/// none, nor does one without digits.
pub proof fn numbers_are_digits(s: Seq<char>)
    ensures
        s.len() > 0 && all_digits(s) ==> {
            &&& unsigned_number(s) == Some(digits_value(s))
            &&& unsigned_number(seq!['+'] + s) == Some(digits_value(s))
            &&& signed_number(s) == Some(digits_value(s))
            &&& signed_number(seq!['+'] + s) == Some(digits_value(s))
            &&& signed_number(seq!['-'] + s) == Some(-digits_value(s))
        },
        !all_digits(s) || s.len() == 0 ==> {
            &&& unsigned_number(seq!['+'] + s) is None
            &&& unsigned_number(seq!['-'] + s) is None
            &&& signed_number(seq!['+'] + s) is None
            &&& signed_number(seq!['-'] + s) is None
            &&& s.len() == 0 || s[0] != '+' ==> unsigned_number(s) is None
            &&& s.len() == 0 || (s[0] != '+' && s[0] != '-') ==> signed_number(s) is None
        },
{
    let p = seq!['+'] + s;
    let m = seq!['-'] + s;
    assert(p.skip(1) =~= s);
    assert(m.skip(1) =~= s);
    assert(!is_digit(m[0]));
    if s.len() > 0 && all_digits(s) {
        assert(is_digit(s[0]));
    }
}

/// A further digit makes a number ten times as large, and adds its own value.
pub proof fn digits_have_places(s: Seq<char>, d: int)
    requires
        0 <= d <= 9,
    ensures
        digits_value(s.push(digit_char(d))) == 10 * digits_value(s) + d,
        digits_value(Seq::empty()) == 0,
        is_digit(digit_char(d)),
{
    assert(s.push(digit_char(d)).drop_last() =~= s);
}

/// A number is taken where it lies in the range, as it is.
pub proof fn ranges_hold_their_ends(n: int, lo: int, hi: int)
    ensures
        in_range(Some(n), lo, hi) == (if n < lo || n > hi {
            None
        } else {
            Some(n)
        }),
        in_range(None, lo, hi) is None,
{
}

/// Two digits read back as the number they were written for.
pub proof fn two_digits_read_back(n: int)
    requires
        0 <= n < 100,
    ensures
        two_digits(n).len() == 2,
        all_digits(two_digits(n)),
        digits_value(two_digits(n)) == n,
{
    let s = two_digits(n);
    reveal_with_fuel(digits_value, 3);
    assert(s.drop_last() =~= seq![digit_char(n / 10)]);
    assert(s.drop_last().drop_last() =~= Seq::empty());
}

/// A number below zero is written with a minus sign in front, and no other one.
pub proof fn signed_numbers_read_back(n: int)
    ensures
        signed_number(signed_decimal(n)) == Some(n),
        n >= 0 ==> signed_decimal(n) == decimal(n as nat),
        n < 0 ==> signed_decimal(n) == seq!['-'] + signed_decimal(-n),
{
    let m: nat = if n < 0 {
        (-n) as nat
    } else {
        n as nat
    };
    decimal_reads_back(m);
    numbers_are_digits(decimal(m));
}

/// An unsigned number is not negative.
pub proof fn numbers_are_not_negative(s: Seq<char>)
    ensures
        unsigned_number(s) matches Some(n) ==> n >= 0,
{
    let t = if s.len() > 0 && s[0] == '+' {
        s.skip(1)
    } else {
        s
    };
    if all_digits(t) {
        digits_grow(t, 0);
        assert(t.take(t.len() as int) =~= t);
    }
}

} // verus!
