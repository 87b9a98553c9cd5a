//! Lists by the values of their items.

use vstd::prelude::*;

verus! {

/// Adds an item at the end.
pub fn put<T: DeepView>(list: &mut Vec<T>, item: T)
    ensures
        final(list).deep_view() == old(list).deep_view().push(item.deep_view()),
        final(list)@ == old(list)@.push(item),
{
    let ghost before = list.deep_view();
    let ghost value = item.deep_view();
    list.push(item);
    assert(list.deep_view() =~= before.push(value));
}

/// A list without items.
pub fn empty<T: DeepView>() -> (r: Vec<T>)
    ensures
        r.deep_view() == Seq::<T::V>::empty(),
        r@ == Seq::<T>::empty(),
{
    let r: Vec<T> = Vec::new();
    assert(r.deep_view() =~= Seq::<T::V>::empty());
    r
}

/// The items of both lists, those of the first one in front.
pub fn concat<T: DeepView>(first: Vec<T>, second: Vec<T>) -> (r: Vec<T>)
    ensures
        r.deep_view() == first.deep_view() + second.deep_view(),
        r@ == first@ + second@,
{
    let ghost a = first.deep_view();
    let ghost b = second.deep_view();
    let mut r: Vec<T> = first;
    let mut rest: Vec<T> = second;
    r.append(&mut rest);
    assert(r.deep_view() =~= a + b);
    r
}

/// The items from position `n` on.
pub fn without_front<T: DeepView>(list: Vec<T>, n: usize) -> (r: Vec<T>)
    requires
        n <= list@.len(),
    ensures
        r.deep_view() == list.deep_view().skip(n as int),
        r@ == list@.skip(n as int),
{
    let ghost all = list.deep_view();
    let mut front: Vec<T> = list;
    let r: Vec<T> = front.split_off(n);
    assert(r.deep_view() =~= all.skip(n as int));
    r
}

// ---------------------------------------------------------------------------
// Picking items
// ---------------------------------------------------------------------------

/// Whether `r` holds, in their order, what `f` makes of the items of `s` at some
/// places: those of all items that are to be kept, and no others.
pub open spec fn picked_at<A, B>(
    s: Seq<A>,
    r: Seq<B>,
    keep: spec_fn(A) -> bool,
    f: spec_fn(A) -> B,
    places: Seq<int>,
) -> bool {
    &&& places.len() == r.len()
    &&& forall|i: int, j: int|
        0 <= i < j < places.len() ==> #[trigger] places[i] < #[trigger] places[j]
    &&& forall|i: int|
        0 <= i < places.len() ==> 0 <= #[trigger] places[i] < s.len() && keep(s[places[i]]) && r[i]
            == f(s[places[i]])
    &&& forall|j: int| 0 <= j < s.len() && keep(#[trigger] s[j]) ==> places.contains(j)
}

/// Whether `r` holds what `f` makes of the items of `s` that are to be kept: of
/// each of them, in their order, and of no others.
pub open spec fn picked<A, B>(
    s: Seq<A>,
    r: Seq<B>,
    keep: spec_fn(A) -> bool,
    f: spec_fn(A) -> B,
) -> bool {
    exists|places: Seq<int>| #[trigger] picked_at(s, r, keep, f, places)
}

/// What is picked grows by the last item, where it is to be kept.
pub proof fn pick_grows<A, B>(
    s: Seq<A>,
    r: Seq<B>,
    keep: spec_fn(A) -> bool,
    f: spec_fn(A) -> B,
)
    requires
        s.len() > 0,
        picked(s.drop_last(), r, keep, f),
    ensures
        keep(s.last()) ==> picked(s, r.push(f(s.last())), keep, f),
        !keep(s.last()) ==> picked(s, r, keep, f),
{
    let front = s.drop_last();
    let places = choose|places: Seq<int>| #[trigger] picked_at(front, r, keep, f, places);
    assert forall|j: int| 0 <= j < front.len() implies #[trigger] s[j] == front[j] by {}
    if keep(s.last()) {
        let more = places.push(s.len() - 1);
        assert forall|j: int| 0 <= j < s.len() && keep(#[trigger] s[j]) implies more.contains(
            j,
        ) by {
            if j < front.len() {
                assert(places.contains(j));
                let i = choose|i: int| 0 <= i < places.len() && places[i] == j;
                assert(more[i] == j);
            } else {
                assert(more[places.len() as int] == j);
            }
        }
        assert(picked_at(s, r.push(f(s.last())), keep, f, more));
    } else {
        assert forall|j: int| 0 <= j < s.len() && keep(#[trigger] s[j]) implies places.contains(
            j,
        ) by {
            assert(front[j] == s[j]);
        }
        assert(picked_at(s, r, keep, f, places));
    }
}

/// Nothing is picked from an empty list.
pub proof fn pick_of_none<A, B>(s: Seq<A>, keep: spec_fn(A) -> bool, f: spec_fn(A) -> B)
    requires
        s.len() == 0,
    ensures
        picked(s, Seq::<B>::empty(), keep, f),
{
    assert(picked_at(s, Seq::<B>::empty(), keep, f, Seq::empty()));
}

/// A filter picks the items that it keeps.
pub proof fn filter_picks<A, B>(s: Seq<A>, keep: spec_fn(A) -> bool, f: spec_fn(A) -> B)
    ensures
        picked(s, s.filter(keep).map_values(f), keep, f),
    decreases s.len(),
{
    reveal(Seq::filter);
    let r = s.filter(keep).map_values(f);
    if s.len() == 0 {
        pick_of_none(s, keep, f);
        assert(r =~= Seq::empty());
    } else {
        let front = s.drop_last();
        let before = front.filter(keep).map_values(f);
        filter_picks(front, keep, f);
        pick_grows(s, before, keep, f);
        if keep(s.last()) {
            assert(r =~= before.push(f(s.last())));
        } else {
            assert(r =~= before);
        }
    }
}

/// An item that is to be kept is among those that are picked, and no other one is.
pub proof fn picked_are_kept<A, B>(
    s: Seq<A>,
    r: Seq<B>,
    keep: spec_fn(A) -> bool,
    f: spec_fn(A) -> B,
)
    requires
        picked(s, r, keep, f),
    ensures
        forall|x: A| s.contains(x) && keep(x) ==> r.contains(#[trigger] f(x)),
        forall|y: B| #[trigger]
            r.contains(y) ==> exists|x: A| #[trigger] s.contains(x) && keep(x) && f(x) == y,
{
    let places = choose|places: Seq<int>| #[trigger] picked_at(s, r, keep, f, places);
    assert forall|x: A| s.contains(x) && keep(x) implies r.contains(#[trigger] f(x)) by {
        let j = choose|j: int| 0 <= j < s.len() && s[j] == x;
        assert(places.contains(j));
        let i = choose|i: int| 0 <= i < places.len() && places[i] == j;
        assert(r[i] == f(x));
    }
    assert forall|y: B| #[trigger] r.contains(y) implies exists|x: A| #[trigger]
        s.contains(x) && keep(x) && f(x) == y by {
        let i = choose|i: int| 0 <= i < r.len() && r[i] == y;
        assert(s.contains(s[places[i]]));
    }
}

} // verus!
