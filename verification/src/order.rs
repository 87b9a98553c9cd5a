//! Orders and the stable sort.

use vstd::prelude::*;
use crate::text;

verus! {

// ---------------------------------------------------------------------------
// The order of texts
// ---------------------------------------------------------------------------

/// Whether `a` comes before `b`, character by character.
pub open spec fn text_before(a: Seq<char>, b: Seq<char>) -> bool
    decreases a.len(),
{
    if b.len() == 0 {
        false
    } else if a.len() == 0 {
        true
    } else if a[0] == b[0] {
        text_before(a.skip(1), b.skip(1))
    } else {
        a[0] < b[0]
    }
}

/// A text comes before another at the first place where they differ: there it
/// has the lower character, or it has ended.
pub proof fn texts_differ_somewhere(a: Seq<char>, b: Seq<char>)
    ensures
        text_before(a, b) <==> exists|k: int|
            0 <= k <= a.len() && k < b.len() && #[trigger] a.take(k) == b.take(k) && (k == a.len()
                || a[k] < b[k]),
    decreases a.len(),
{
    if b.len() == 0 {
    } else if a.len() == 0 {
        assert(a.take(0) =~= b.take(0));
    } else if a[0] == b[0] {
        let x = a.skip(1);
        let y = b.skip(1);
        texts_differ_somewhere(x, y);
        if text_before(x, y) {
            let k = choose|k: int|
                0 <= k <= x.len() && k < y.len() && #[trigger] x.take(k) == y.take(k) && (k
                    == x.len() || x[k] < y[k]);
            assert(a.take(k + 1) =~= seq![a[0]] + x.take(k));
            assert(b.take(k + 1) =~= seq![b[0]] + y.take(k));
        }
        if exists|k: int|
            0 <= k <= a.len() && k < b.len() && #[trigger] a.take(k) == b.take(k) && (k == a.len()
                || a[k] < b[k]) {
            let k = choose|k: int|
                0 <= k <= a.len() && k < b.len() && #[trigger] a.take(k) == b.take(k) && (k
                    == a.len() || a[k] < b[k]);
            assert(k > 0);
            assert(x.take(k - 1) =~= a.take(k).skip(1));
            assert(y.take(k - 1) =~= b.take(k).skip(1));
            assert(x.take(k - 1) == y.take(k - 1));
        }
    } else {
        assert(a.take(0) =~= b.take(0));
        if exists|k: int|
            0 <= k <= a.len() && k < b.len() && #[trigger] a.take(k) == b.take(k) && (k == a.len()
                || a[k] < b[k]) {
            let k = choose|k: int|
                0 <= k <= a.len() && k < b.len() && #[trigger] a.take(k) == b.take(k) && (k
                    == a.len() || a[k] < b[k]);
            if k > 0 {
                assert(a.take(k)[0] == a[0] && b.take(k)[0] == b[0]);
            }
        }
    }
}

/// Of two different texts exactly one comes before the other, and no text
/// comes before itself.
pub proof fn texts_compare(a: Seq<char>, b: Seq<char>)
    ensures
        !text_before(a, a),
        !(text_before(a, b) && text_before(b, a)),
        a != b ==> text_before(a, b) || text_before(b, a),
    decreases a.len(),
{
    if a.len() > 0 {
        texts_compare(a.skip(1), if b.len() > 0 {
            b.skip(1)
        } else {
            b
        });
        if b.len() > 0 && a[0] == b[0] && a.skip(1) == b.skip(1) {
            assert(a =~= seq![a[0]] + a.skip(1));
            assert(b =~= seq![b[0]] + b.skip(1));
        }
    } else if b.len() == 0 {
        assert(a =~= b);
    }
}

/// The order of texts is transitive.
pub proof fn texts_chain(a: Seq<char>, b: Seq<char>, c: Seq<char>)
    requires
        text_before(a, b),
        text_before(b, c),
    ensures
        text_before(a, c),
    decreases a.len(),
{
    if a.len() > 0 && a[0] == b[0] && b[0] == c[0] {
        texts_chain(a.skip(1), b.skip(1), c.skip(1));
    }
}

/// Whether `a` comes before `b`.
pub fn text_is_before(a: &str, b: &str) -> (r: bool)
    ensures
        r == text_before(a@, b@),
{
    let x: Vec<char> = text::chars_of(a);
    let y: Vec<char> = text::chars_of(b);
    let mut i: usize = 0;
    assert(a@.skip(0) =~= a@);
    assert(b@.skip(0) =~= b@);
    while i < x.len() && i < y.len()
        invariant
            x@ == a@,
            y@ == b@,
            i <= a@.len(),
            i <= b@.len(),
            text_before(a@, b@) == text_before(a@.skip(i as int), b@.skip(i as int)),
        decreases a@.len() - i,
    {
        assert(a@.skip(i as int)[0] == a@[i as int]);
        assert(b@.skip(i as int)[0] == b@[i as int]);
        if x[i] != y[i] {
            return x[i] < y[i];
        }
        assert(a@.skip(i as int).skip(1) =~= a@.skip(i + 1));
        assert(b@.skip(i as int).skip(1) =~= b@.skip(i + 1));
        i = i + 1;
    }
    i < y.len()
}

// ---------------------------------------------------------------------------
// Sorting
// ---------------------------------------------------------------------------

/// An order of the values of `T` in which different values may rank equal.
pub trait Order<T: DeepView> {
    /// Whether `a` ranks before `b`.
    spec fn before(a: T::V, b: T::V) -> bool;

    /// Of two values at most one ranks before the other.
    proof fn asymmetric(a: T::V, b: T::V)
        ensures
            !(Self::before(a, b) && Self::before(b, a)),
    ;

    /// A value that ranks before another ranks before, or is outranked by,
    /// every third one.
    proof fn divides(a: T::V, b: T::V, c: T::V)
        requires
            Self::before(a, c),
        ensures
            Self::before(a, b) || Self::before(b, c),
    ;

    /// Tests whether `a` ranks before `b`.
    fn is_before(a: &T, b: &T) -> (r: bool)
        ensures
            r == Self::before(a.deep_view(), b.deep_view()),
    ;
}

/// How many of the first values of `s` rank before `x`.
pub open spec fn rank<T: DeepView, O: Order<T>>(x: T::V, s: Seq<T::V>) -> int
    decreases s.len(),
{
    if s.len() == 0 || !O::before(s[0], x) {
        0
    } else {
        1 + rank::<T, O>(x, s.skip(1))
    }
}

/// The values of `s` in order; values that rank equal keep their places
/// relative to each other.
pub open spec fn sorted<T: DeepView, O: Order<T>>(s: Seq<T::V>) -> Seq<T::V>
    decreases s.len(),
{
    if s.len() == 0 {
        s
    } else {
        let rest = sorted::<T, O>(s.skip(1));
        rest.insert(rank::<T, O>(s[0], rest), s[0])
    }
}

/// Whether no value of `s` ranks before one that stands in front of it.
pub open spec fn in_order<T: DeepView, O: Order<T>>(s: Seq<T::V>) -> bool {
    forall|i: int, j: int| 0 <= i < j < s.len() ==> !O::before(#[trigger] s[j], #[trigger] s[i])
}

/// `rank` splits `s`: all in front of it rank before `x`, the value at it does not.
pub proof fn rank_is_bounded<T: DeepView, O: Order<T>>(x: T::V, s: Seq<T::V>)
    ensures
        0 <= rank::<T, O>(x, s) <= s.len(),
        forall|i: int| 0 <= i < rank::<T, O>(x, s) ==> O::before(#[trigger] s[i], x),
        rank::<T, O>(x, s) < s.len() ==> !O::before(s[rank::<T, O>(x, s)], x),
    decreases s.len(),
{
    if s.len() > 0 && O::before(s[0], x) {
        let t = s.skip(1);
        rank_is_bounded::<T, O>(x, t);
        let k = rank::<T, O>(x, t);
        assert forall|i: int| 0 <= i < k + 1 implies O::before(#[trigger] s[i], x) by {
            if i > 0 {
                assert(t[i - 1] == s[i]);
            }
        }
        if k < t.len() {
            assert(t[k] == s[k + 1]);
        }
    }
}

proof fn rank_is_unique<T: DeepView, O: Order<T>>(x: T::V, s: Seq<T::V>, k: int)
    requires
        0 <= k <= s.len(),
        forall|i: int| 0 <= i < k ==> O::before(#[trigger] s[i], x),
        k < s.len() ==> !O::before(s[k], x),
    ensures
        rank::<T, O>(x, s) == k,
    decreases s.len(),
{
    if k > 0 {
        let t = s.skip(1);
        assert(O::before(s[0], x));
        assert forall|i: int| 0 <= i < k - 1 implies O::before(#[trigger] t[i], x) by {
            assert(t[i] == s[i + 1]);
        }
        rank_is_unique::<T, O>(x, t, k - 1);
    }
}

/// A sorted sequence has the length of the one it came from.
pub proof fn sorted_len<T: DeepView, O: Order<T>>(s: Seq<T::V>)
    ensures
        sorted::<T, O>(s).len() == s.len(),
    decreases s.len(),
{
    if s.len() > 0 {
        sorted_len::<T, O>(s.skip(1));
        rank_is_bounded::<T, O>(s[0], sorted::<T, O>(s.skip(1)));
    }
}

/// Sorting puts the values in order.
pub proof fn sorted_in_order<T: DeepView, O: Order<T>>(s: Seq<T::V>)
    ensures
        in_order::<T, O>(sorted::<T, O>(s)),
    decreases s.len(),
{
    if s.len() > 0 {
        let x = s[0];
        let rest = sorted::<T, O>(s.skip(1));
        sorted_in_order::<T, O>(s.skip(1));
        rank_is_bounded::<T, O>(x, rest);
        let k = rank::<T, O>(x, rest);
        let out = rest.insert(k, x);
        assert forall|i: int, j: int| 0 <= i < j < out.len() implies !O::before(
            #[trigger] out[j],
            #[trigger] out[i],
        ) by {
            if j == k {
                assert(out[i] == rest[i]);
                O::asymmetric(rest[i], x);
            } else if i == k {
                assert(out[j] == rest[j - 1]);
                if O::before(rest[j - 1], x) {
                    O::divides(rest[j - 1], rest[k], x);
                    assert(j - 1 != k);
                }
            } else {
                let a = if i < k {
                    i
                } else {
                    i - 1
                };
                let b = if j < k {
                    j
                } else {
                    j - 1
                };
                assert(out[i] == rest[a]);
                assert(out[j] == rest[b]);
            }
        }
    }
}

/// Sorting keeps every value as often as it was there.
pub proof fn sorted_same_values<T: DeepView, O: Order<T>>(s: Seq<T::V>)
    ensures
        sorted::<T, O>(s).to_multiset() == s.to_multiset(),
    decreases s.len(),
{
    if s.len() > 0 {
        let rest = sorted::<T, O>(s.skip(1));
        sorted_same_values::<T, O>(s.skip(1));
        rank_is_bounded::<T, O>(s[0], rest);
        let k = rank::<T, O>(s[0], rest);
        vstd::seq_lib::to_multiset_insert(rest, k, s[0]);
        vstd::seq_lib::to_multiset_insert(s.skip(1), 0, s[0]);
        assert(s.skip(1).insert(0, s[0]) =~= s);
    }
}

/// Sorting draws its values from those it is given.
pub proof fn sorted_draws<T: DeepView, O: Order<T>>(s: Seq<T::V>)
    ensures
        forall|i: int|
            0 <= i < sorted::<T, O>(s).len() ==> s.contains(#[trigger] sorted::<T, O>(s)[i]),
    decreases s.len(),
{
    if s.len() > 0 {
        let rest = sorted::<T, O>(s.skip(1));
        let all = sorted::<T, O>(s);
        sorted_draws::<T, O>(s.skip(1));
        rank_is_bounded::<T, O>(s[0], rest);
        let k = rank::<T, O>(s[0], rest);
        assert forall|i: int| 0 <= i < all.len() implies s.contains(#[trigger] all[i]) by {
            if i == k {
                assert(s[0] == all[i]);
            } else {
                let j = if i < k {
                    i
                } else {
                    i - 1
                };
                assert(rest[j] == all[i]);
                let m = choose|m: int| 0 <= m < s.skip(1).len() && s.skip(1)[m] == rest[j];
                assert(s[m + 1] == all[i]);
            }
        }
    }
}

/// A sequence that is in order is not changed by sorting.
pub proof fn sorted_keeps_order<T: DeepView, O: Order<T>>(s: Seq<T::V>)
    requires
        in_order::<T, O>(s),
    ensures
        sorted::<T, O>(s) == s,
    decreases s.len(),
{
    if s.len() > 0 {
        let t = s.skip(1);
        assert forall|i: int, j: int| 0 <= i < j < t.len() implies !O::before(
            #[trigger] t[j],
            #[trigger] t[i],
        ) by {
            assert(t[i] == s[i + 1]);
            assert(t[j] == s[j + 1]);
        }
        sorted_keeps_order::<T, O>(t);
        if t.len() > 0 {
            assert(t[0] == s[1]);
        }
        assert(t.insert(0, s[0]) =~= s);
    }
}

/// Sorting is stable: the values that rank equal with `x` come out in the
/// order in which they went in.
pub proof fn sorted_is_stable<T: DeepView, O: Order<T>>(s: Seq<T::V>, x: T::V)
    ensures
        sorted::<T, O>(s).filter(|y: T::V| !O::before(x, y) && !O::before(y, x)) == s.filter(
            |y: T::V| !O::before(x, y) && !O::before(y, x),
        ),
    decreases s.len(),
{
    let same = |y: T::V| !O::before(x, y) && !O::before(y, x);
    if s.len() > 0 {
        let h = s[0];
        let rest = sorted::<T, O>(s.skip(1));
        sorted_is_stable::<T, O>(s.skip(1), x);
        rank_is_bounded::<T, O>(h, rest);
        let k = rank::<T, O>(h, rest);
        let front = rest.take(k);
        let back = rest.skip(k);
        assert(rest =~= front + back);
        assert(rest.insert(k, h) =~= front + (seq![h] + back));
        assert(s =~= seq![h] + s.skip(1));
        Seq::filter_distributes_over_add(front, seq![h] + back, same);
        Seq::filter_distributes_over_add(seq![h], back, same);
        Seq::filter_distributes_over_add(front, back, same);
        Seq::filter_distributes_over_add(seq![h], s.skip(1), same);
        if same(h) {
            assert forall|i: int| 0 <= i < front.len() implies !same(#[trigger] front[i]) by {
                assert(front[i] == rest[i]);
                O::divides(rest[i], x, h);
            }
            front.lemma_all_neg_filter_empty(same);
            assert(front.filter(same) + back.filter(same) =~= back.filter(same));
            assert(front.filter(same) + (seq![h] + back).filter(same) =~= (seq![h]
                + back).filter(same));
        } else {
            seq![h].lemma_all_neg_filter_empty(same);
            assert((seq![h] + back).filter(same) =~= back.filter(same));
            assert((seq![h] + s.skip(1)).filter(same) =~= s.skip(1).filter(same));
        }
    }
}

/// Values of which none ranks before another come out in the order in which they
/// went in.
pub proof fn sorted_keeps_equals<T: DeepView, O: Order<T>>(
    s: Seq<T::V>,
    same: spec_fn(T::V) -> bool,
)
    requires
        forall|y: T::V, z: T::V| same(y) && same(z) ==> !#[trigger] O::before(y, z),
    ensures
        sorted::<T, O>(s).filter(same) == s.filter(same),
    decreases s.len(),
{
    if s.len() > 0 {
        let h = s[0];
        let rest = sorted::<T, O>(s.skip(1));
        sorted_keeps_equals::<T, O>(s.skip(1), same);
        rank_is_bounded::<T, O>(h, rest);
        let k = rank::<T, O>(h, rest);
        let front = rest.take(k);
        let back = rest.skip(k);
        assert(rest =~= front + back);
        assert(rest.insert(k, h) =~= front + (seq![h] + back));
        assert(s =~= seq![h] + s.skip(1));
        Seq::filter_distributes_over_add(front, seq![h] + back, same);
        Seq::filter_distributes_over_add(seq![h], back, same);
        Seq::filter_distributes_over_add(front, back, same);
        Seq::filter_distributes_over_add(seq![h], s.skip(1), same);
        if same(h) {
            assert forall|i: int| 0 <= i < front.len() implies !same(#[trigger] front[i]) by {
                assert(front[i] == rest[i]);
                assert(O::before(rest[i], h));
            }
            front.lemma_all_neg_filter_empty(same);
            assert(front.filter(same) + back.filter(same) =~= back.filter(same));
            assert(front.filter(same) + (seq![h] + back).filter(same) =~= (seq![h]
                + back).filter(same));
        } else {
            seq![h].lemma_all_neg_filter_empty(same);
            assert((seq![h] + back).filter(same) =~= back.filter(same));
            assert((seq![h] + s.skip(1)).filter(same) =~= s.skip(1).filter(same));
        }
    }
}

/// Sorts the items, keeping those that rank equal in place.
pub fn stable_sort<T: DeepView, O: Order<T>>(items: Vec<T>) -> (r: Vec<T>)
    ensures
        r.deep_view() == sorted::<T, O>(items.deep_view()),
{
    let ghost all = items.deep_view();
    let mut rest: Vec<T> = items;
    let mut out: Vec<T> = Vec::new();
    assert(all.skip(all.len() as int) =~= Seq::empty());
    assert(out.deep_view() =~= Seq::empty());
    assert(all.take(rest@.len() as int) =~= all);
    while rest.len() > 0
        invariant
            rest@.len() <= all.len(),
            rest.deep_view() == all.take(rest@.len() as int),
            out.deep_view() == sorted::<T, O>(all.skip(rest@.len() as int)),
        decreases rest@.len(),
    {
        let ghost m = rest@.len();
        let ghost done = out.deep_view();
        let ghost old_rest = rest.deep_view();
        match rest.pop() {
            Some(x) => {
                assert(rest.deep_view() =~= all.take(m - 1)) by {
                    assert forall|i: int| 0 <= i < m - 1 implies rest.deep_view()[i] == all[i] by {
                        assert(old_rest[i] == all.take(m as int)[i]);
                    }
                }
                assert(x.deep_view() == all[m - 1]) by {
                    assert(old_rest[m - 1] == all.take(m as int)[m - 1]);
                }
                let mut k: usize = 0;
                while k < out.len() && O::is_before(&out[k], &x)
                    invariant
                        k <= out@.len(),
                        out.deep_view() == done,
                        forall|i: int|
                            0 <= i < k ==> O::before(#[trigger] done[i], x.deep_view()),
                    decreases out@.len() - k,
                {
                    assert(done[k as int] == out@[k as int].deep_view());
                    k = k + 1;
                }
                proof {
                    if k < done.len() {
                        assert(done[k as int] == out@[k as int].deep_view());
                    }
                    rank_is_unique::<T, O>(x.deep_view(), done, k as int);
                    assert(all.skip(m - 1).skip(1) =~= all.skip(m as int));
                }
                let ghost xv = x.deep_view();
                out.insert(k, x);
                assert(out.deep_view() =~= done.insert(k as int, xv));
            },
            None => {},
        }
    }
    assert(all.skip(0) =~= all);
    out
}

} // verus!
