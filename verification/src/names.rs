//! Ordered sets of names.

use vstd::prelude::*;
use crate::order::{rank, rank_is_bounded, text_before, text_is_before, texts_chain, texts_compare, Order};

verus! {

/// The order of texts, character by character.
pub struct ByText;

impl Order<String> for ByText {
    open spec fn before(a: Seq<char>, b: Seq<char>) -> bool {
        text_before(a, b)
    }

    proof fn asymmetric(a: Seq<char>, b: Seq<char>) {
        texts_compare(a, b);
    }

    proof fn divides(a: Seq<char>, b: Seq<char>, c: Seq<char>) {
        texts_compare(a, b);
        if text_before(b, a) {
            texts_chain(b, a, c);
        }
    }

    fn is_before(a: &String, b: &String) -> (r: bool) {
        text_is_before(a.as_str(), b.as_str())
    }
}

/// Whether each name comes before all that follow it.
pub open spec fn ascending(s: Seq<Seq<char>>) -> bool {
    forall|i: int, j: int| 0 <= i < j < s.len() ==> text_before(#[trigger] s[i], #[trigger] s[j])
}

/// `s` with `x` at its place in the order, where it was not there already.
pub open spec fn with_name(s: Seq<Seq<char>>, x: Seq<char>) -> Seq<Seq<char>> {
    if s.contains(x) {
        s
    } else {
        s.insert(rank::<String, ByText>(x, s), x)
    }
}

/// `s` with each of the names `xs`.
pub open spec fn with_names(s: Seq<Seq<char>>, xs: Seq<Seq<char>>) -> Seq<Seq<char>>
    decreases xs.len(),
{
    if xs.len() == 0 {
        s
    } else {
        with_names(with_name(s, xs[0]), xs.skip(1))
    }
}

/// Adding a name to an ascending sequence keeps it ascending and adds that
/// name and no other.
pub proof fn with_name_is_ordered_insert(s: Seq<Seq<char>>, x: Seq<char>)
    requires
        ascending(s),
    ensures
        ascending(with_name(s, x)),
        with_name(s, x).to_set() == s.to_set().insert(x),
{
    let r = with_name(s, x);
    if s.contains(x) {
        assert(s.to_set().insert(x) =~= s.to_set());
    } else {
        rank_is_bounded::<String, ByText>(x, s);
        let k = rank::<String, ByText>(x, s);
        assert forall|i: int, j: int| 0 <= i < j < r.len() implies text_before(
            #[trigger] r[i],
            #[trigger] r[j],
        ) by {
            if i == k {
                assert(r[j] == s[j - 1]);
                texts_compare(s[j - 1], x);
                assert(s.contains(s[j - 1]));
                if k < j - 1 && text_before(s[j - 1], x) {
                    assert(text_before(s[k], s[j - 1]));
                    texts_chain(s[k], s[j - 1], x);
                }
            } else if j == k {
                assert(r[i] == s[i]);
            } else {
                let a = if i < k {
                    i
                } else {
                    i - 1
                };
                let b = if j < k {
                    j
                } else {
                    j - 1
                };
                assert(r[i] == s[a] && r[j] == s[b]);
            }
        }
        assert forall|n: Seq<char>| r.to_set().contains(n) == s.to_set().insert(x).contains(n) by {
            if s.contains(n) {
                let i = choose|i: int| 0 <= i < s.len() && s[i] == n;
                assert(r[if i < k {
                    i
                } else {
                    i + 1
                }] == n);
            }
            if n == x {
                assert(r[k] == n);
            }
            if r.contains(n) && n != x {
                let i = choose|i: int| 0 <= i < r.len() && r[i] == n;
                assert(s[if i < k {
                    i
                } else {
                    i - 1
                }] == n);
            }
        }
        assert(r.to_set() =~= s.to_set().insert(x));
    }
}

/// Adding several names to an ascending sequence keeps it ascending and adds
/// those names and no others.
pub proof fn with_names_is_ordered_union(s: Seq<Seq<char>>, xs: Seq<Seq<char>>)
    requires
        ascending(s),
    ensures
        ascending(with_names(s, xs)),
        with_names(s, xs).to_set() == s.to_set().union(xs.to_set()),
    decreases xs.len(),
{
    if xs.len() == 0 {
        assert(s.to_set().union(xs.to_set()) =~= s.to_set());
    } else {
        with_name_is_ordered_insert(s, xs[0]);
        with_names_is_ordered_union(with_name(s, xs[0]), xs.skip(1));
        assert forall|n: Seq<char>| xs.contains(n) == (n == xs[0] || xs.skip(1).contains(n)) by {
            if xs.contains(n) && n != xs[0] {
                let i = choose|i: int| 0 <= i < xs.len() && xs[i] == n;
                assert(xs.skip(1)[i - 1] == n);
            }
            if xs.skip(1).contains(n) {
                let i = choose|i: int| 0 <= i < xs.skip(1).len() && xs.skip(1)[i] == n;
                assert(xs[i + 1] == n);
            }
        }
        assert(s.to_set().insert(xs[0]).union(xs.skip(1).to_set()) =~= s.to_set().union(
            xs.to_set(),
        ));
    }
}

/// Adding names adds them and no others.
pub proof fn with_names_adds(s: Seq<Seq<char>>, xs: Seq<Seq<char>>, n: Seq<char>)
    ensures
        with_names(s, xs).contains(n) <==> s.contains(n) || xs.contains(n),
    decreases xs.len(),
{
    if xs.len() > 0 {
        let x = xs[0];
        let t = with_name(s, x);
        with_names_adds(t, xs.skip(1), n);
        assert(t.contains(n) == (s.contains(n) || n == x)) by {
            if !s.contains(x) {
                rank_is_bounded::<String, ByText>(x, s);
                let k = rank::<String, ByText>(x, s);
                assert(t[k] == x);
                if s.contains(n) {
                    let i = choose|i: int| 0 <= i < s.len() && s[i] == n;
                    assert(t[if i < k {
                        i
                    } else {
                        i + 1
                    }] == n);
                }
                if t.contains(n) && n != x {
                    let i = choose|i: int| 0 <= i < t.len() && t[i] == n;
                    assert(s[if i < k {
                        i
                    } else {
                        i - 1
                    }] == n);
                }
            }
        }
        if xs.contains(n) && n != x {
            let i = choose|i: int| 0 <= i < xs.len() && xs[i] == n;
            assert(xs.skip(1)[i - 1] == n);
        }
        if xs.skip(1).contains(n) {
            let i = choose|i: int| 0 <= i < xs.skip(1).len() && xs.skip(1)[i] == n;
            assert(xs[i + 1] == n);
        }
    }
}

/// A set of names, listed in order.
#[derive(Debug, PartialEq, Eq)]
pub struct NameSet {
    items: Vec<String>,
}

impl DeepView for NameSet {
    type V = Seq<Seq<char>>;

    closed spec fn deep_view(&self) -> Seq<Seq<char>> {
        self.items.deep_view()
    }
}

impl Clone for NameSet {
    fn clone(&self) -> (r: Self)
        ensures
            r.deep_view() == self.deep_view(),
    {
        proof {
            use_type_invariant(self);
        }
        NameSet { items: copy_names(&self.items) }
    }
}

/// A copy of a list of names.
pub fn copy_names(names: &Vec<String>) -> (r: Vec<String>)
    ensures
        r.deep_view() == names.deep_view(),
{
    let mut r: Vec<String> = Vec::new();
    let mut i: usize = 0;
    while i < names.len()
        invariant
            i <= names@.len(),
            r@.len() == i,
            forall|j: int| 0 <= j < i ==> #[trigger] r@[j]@ == names@[j]@,
        decreases names@.len() - i,
    {
        r.push(names[i].clone());
        i = i + 1;
    }
    assert(r.deep_view() =~= names.deep_view());
    r
}

/// Whether `x` is one of the names.
pub fn has_name(names: &Vec<String>, x: &str) -> (r: bool)
    ensures
        r == names.deep_view().contains(x@),
{
    let mut i: usize = 0;
    while i < names.len()
        invariant
            i <= names@.len(),
            forall|j: int| 0 <= j < i ==> #[trigger] names.deep_view()[j] != x@,
        decreases names@.len() - i,
    {
        assert(names.deep_view()[i as int] == names@[i as int]@);
        if crate::text::same_text(names[i].as_str(), x) {
            return true;
        }
        i = i + 1;
    }
    false
}

impl NameSet {
    #[verifier::type_invariant]
    spec fn in_order(self) -> bool {
        ascending(self.items.deep_view())
    }

    /// A set without names.
    pub fn new() -> (r: NameSet)
        ensures
            r.deep_view() == Seq::<Seq<char>>::empty(),
    {
        let items: Vec<String> = Vec::new();
        assert(items.deep_view() =~= Seq::empty());
        NameSet { items }
    }

    /// The names in order, none of them twice.
    pub fn names(&self) -> (r: &Vec<String>)
        ensures
            r.deep_view() == self.deep_view(),
            ascending(r.deep_view()),
    {
        proof {
            use_type_invariant(self);
        }
        &self.items
    }

    /// Adds a name, where it is not there already.
    pub fn insert(&mut self, name: String)
        ensures
            final(self).deep_view() == with_name(old(self).deep_view(), name@),
    {
        proof {
            use_type_invariant(&*self);
        }
        let ghost s = self.items.deep_view();
        if has_name(&self.items, name.as_str()) {
            return;
        }
        let mut k: usize = 0;
        assert(s.skip(0) =~= s);
        while k < self.items.len() && text_is_before(self.items[k].as_str(), name.as_str())
            invariant
                k <= self.items@.len(),
                self.items.deep_view() == s,
                rank::<String, ByText>(name@, s) == k + rank::<String, ByText>(
                    name@,
                    s.skip(k as int),
                ),
            decreases self.items@.len() - k,
        {
            assert(s.skip(k as int)[0] == self.items@[k as int]@);
            assert(s.skip(k as int).skip(1) =~= s.skip(k + 1));
            k = k + 1;
        }
        assert(k < s.len() ==> s.skip(k as int)[0] == self.items@[k as int]@);
        let ghost x = name@;
        let mut items: Vec<String> = Vec::new();
        assert(items.deep_view() =~= Seq::empty());
        std::mem::swap(&mut items, &mut self.items);
        items.insert(k, name);
        assert(items.deep_view() =~= s.insert(k as int, x));
        proof {
            with_name_is_ordered_insert(s, x);
        }
        self.items = items;
    }

    /// Adds each of the names.
    pub fn extend(&mut self, names: Vec<String>)
        ensures
            final(self).deep_view() == with_names(old(self).deep_view(), names.deep_view()),
    {
        let mut i: usize = 0;
        let ghost xs = names.deep_view();
        assert(xs.skip(0) =~= xs);
        while i < names.len()
            invariant
                i <= names@.len(),
                xs == names.deep_view(),
                with_names(old(self).deep_view(), xs) == with_names(
                    self.deep_view(),
                    xs.skip(i as int),
                ),
            decreases names@.len() - i,
        {
            assert(xs.skip(i as int)[0] == names@[i as int]@);
            assert(xs.skip(i as int).skip(1) =~= xs.skip(i + 1));
            self.insert(names[i].clone());
            i = i + 1;
        }
    }
}

} // verus!
