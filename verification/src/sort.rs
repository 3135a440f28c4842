//! Stable sorting of values that are ordered by their views.

use vstd::prelude::*;

use crate::text::{lemma_text_leq_order, text_leq, text_not_after};

verus! {

/// A total preorder: any two values compare, and comparing is transitive.
pub open spec fn total_preorder<V>(leq: spec_fn(V, V) -> bool) -> bool {
    &&& forall|a: V, b: V| #[trigger] leq(a, b) || leq(b, a)
    &&& forall|a: V, b: V, c: V| #[trigger] leq(a, b) && #[trigger] leq(b, c) ==> leq(a, c)
}

/// Values that are sorted by a total preorder on their views.
pub trait Ordered: View + Sized {
    spec fn leq(a: Self::V, b: Self::V) -> bool;

    proof fn leq_is_total_preorder()
        ensures
            forall|a: Self::V, b: Self::V| #[trigger] Self::leq(a, b) || Self::leq(b, a),
            forall|a: Self::V, b: Self::V, c: Self::V|
                #[trigger] Self::leq(a, b) && #[trigger] Self::leq(b, c) ==> Self::leq(a, c),
    ;

    fn not_after(&self, other: &Self) -> (leq: bool)
        ensures
            leq == Self::leq(self@, other@),
    ;
}

/// The order of `T`'s views as a function value.
pub open spec fn leq_of<T: Ordered>() -> spec_fn(T::V, T::V) -> bool {
    |a: T::V, b: T::V| T::leq(a, b)
}

/// The views of a sequence's elements.
pub open spec fn views<T: View>(s: Seq<T>) -> Seq<T::V> {
    s.map_values(|x: T| x@)
}

/// `s` with `x` put behind the last element that it does not come before.
pub open spec fn insert_sorted<V>(s: Seq<V>, x: V, leq: spec_fn(V, V) -> bool) -> Seq<V>
    decreases s.len(),
{
    if s.len() == 0 || leq(s.last(), x) {
        s.push(x)
    } else {
        insert_sorted(s.drop_last(), x, leq).push(s.last())
    }
}

/// The elements of `s` in ascending order, equal ones in the order of `s`.
pub open spec fn stable_sort<V>(s: Seq<V>, leq: spec_fn(V, V) -> bool) -> Seq<V>
    decreases s.len(),
{
    if s.len() == 0 {
        s
    } else {
        insert_sorted(stable_sort(s.drop_last(), leq), s.last(), leq)
    }
}

/// Two sequences merged from their ends; of equal last elements, the second
/// sequence's comes last.
spec fn merge_ends<V>(a: Seq<V>, b: Seq<V>, leq: spec_fn(V, V) -> bool) -> Seq<V>
    decreases a.len() + b.len(),
{
    if b.len() == 0 {
        a
    } else if a.len() == 0 || leq(a.last(), b.last()) {
        merge_ends(a, b.drop_last(), leq).push(b.last())
    } else {
        merge_ends(a.drop_last(), b, leq).push(a.last())
    }
}

proof fn lemma_merge_insert<V>(a: Seq<V>, b: Seq<V>, x: V, leq: spec_fn(V, V) -> bool)
    requires
        total_preorder(leq),
    ensures
        merge_ends(a, insert_sorted(b, x, leq), leq) == insert_sorted(
            merge_ends(a, b, leq),
            x,
            leq,
        ),
    decreases a.len() + b.len(),
{
    let m = merge_ends(a, b, leq);
    if b.len() == 0 || leq(b.last(), x) {
        assert(b.push(x).drop_last() =~= b);
        if a.len() > 0 && !leq(a.last(), x) {
            if b.len() > 0 {
                assert(!leq(a.last(), b.last()));
            }
            if b.len() == 0 {
                assert(merge_ends(a.drop_last(), b, leq) == a.drop_last());
                assert(a.drop_last().push(a.last()) =~= a);
            }
            assert(m == merge_ends(a.drop_last(), b, leq).push(a.last()));
            lemma_merge_insert(a.drop_last(), b, x, leq);
            assert(m.drop_last() =~= merge_ends(a.drop_last(), b, leq));
        } else {
            if b.len() == 0 {
                assert(m == a);
            } else if a.len() == 0 || leq(a.last(), b.last()) {
                assert(m.last() == b.last());
            } else {
                assert(m.last() == a.last());
            }
        }
    } else {
        let rest = insert_sorted(b.drop_last(), x, leq);
        assert(rest.push(b.last()).drop_last() =~= rest);
        if a.len() == 0 || leq(a.last(), b.last()) {
            lemma_merge_insert(a, b.drop_last(), x, leq);
            assert(m.drop_last() =~= merge_ends(a, b.drop_last(), leq));
        } else {
            lemma_merge_insert(a.drop_last(), b, x, leq);
            assert(m.drop_last() =~= merge_ends(a.drop_last(), b, leq));
            assert(leq(x, b.last()));
        }
    }
}

proof fn lemma_merge_sorted<V>(a: Seq<V>, b: Seq<V>, leq: spec_fn(V, V) -> bool)
    requires
        total_preorder(leq),
    ensures
        merge_ends(stable_sort(a, leq), stable_sort(b, leq), leq) == stable_sort(a + b, leq),
    decreases b.len(),
{
    if b.len() == 0 {
        assert(a + b =~= a);
    } else {
        lemma_merge_sorted(a, b.drop_last(), leq);
        lemma_merge_insert(
            stable_sort(a, leq),
            stable_sort(b.drop_last(), leq),
            b.last(),
            leq,
        );
        assert((a + b).drop_last() =~= a + b.drop_last());
    }
}

impl Ordered for String {
    open spec fn leq(a: Seq<char>, b: Seq<char>) -> bool {
        text_leq(a, b)
    }

    proof fn leq_is_total_preorder() {
        lemma_text_leq_order();
    }

    fn not_after(&self, other: &Self) -> (leq: bool) {
        text_not_after(self.as_str(), other.as_str())
    }
}

fn reverse<T: View>(v: Vec<T>) -> (r: Vec<T>)
    ensures
        views(r@) == views(v@).reverse(),
{
    let mut v = v;
    let ghost whole = v@;
    let mut r: Vec<T> = Vec::new();
    while v.len() > 0
        invariant
            views(whole).reverse() == views(r@) + views(v@).reverse(),
        decreases v@.len(),
    {
        let ghost before = v@;
        let ghost done = r@;
        if let Some(x) = v.pop() {
            r.push(x);
            proof {
                assert(before =~= v@.push(x));
                assert(views(r@) =~= views(done).push(x@));
                assert(views(before).reverse() =~= seq![x@] + views(v@).reverse());
                assert(views(done) + views(before).reverse() =~= views(r@) + views(v@).reverse());
            }
        }
    }
    assert(views(v@).reverse() =~= Seq::empty());
    assert(views(r@) =~= views(whole).reverse());
    r
}

fn merge<T: Ordered>(a: Vec<T>, b: Vec<T>) -> (r: Vec<T>)
    ensures
        views(r@) == merge_ends(views(a@), views(b@), leq_of::<T>()),
{
    let mut a = a;
    let mut b = b;
    let ghost leq = leq_of::<T>();
    let ghost whole = merge_ends(views(a@), views(b@), leq);
    let mut backward: Vec<T> = Vec::new();
    while a.len() > 0 || b.len() > 0
        invariant
            leq == leq_of::<T>(),
            whole == merge_ends(views(a@), views(b@), leq) + views(backward@).reverse(),
        decreases a@.len() + b@.len(),
    {
        let ghost a0 = a@;
        let ghost b0 = b@;
        let ghost back0 = backward@;
        let from_b = if b.len() == 0 {
            false
        } else if a.len() == 0 {
            true
        } else {
            a[a.len() - 1].not_after(&b[b.len() - 1])
        };
        let popped = if from_b {
            b.pop()
        } else {
            a.pop()
        };
        if let Some(x) = popped {
            backward.push(x);
            proof {
                assert(views(backward@) =~= views(back0).push(x@));
                assert(views(backward@).reverse() =~= seq![x@] + views(back0).reverse());
                if from_b {
                    assert(views(b@) =~= views(b0).drop_last());
                    assert(views(b0).last() == x@);
                } else {
                    assert(views(a@) =~= views(a0).drop_last());
                    assert(views(a0).last() == x@);
                    if b0.len() == 0 {
                        assert(views(b0) =~= Seq::empty());
                        assert(views(a0) =~= views(a@).push(x@));
                    }
                }
                assert(merge_ends(views(a0), views(b0), leq) == merge_ends(
                    views(a@),
                    views(b@),
                    leq,
                ).push(x@));
                assert(whole =~= merge_ends(views(a@), views(b@), leq)
                    + views(backward@).reverse());
            }
        }
    }
    proof {
        assert(views(a@) =~= Seq::empty());
        assert(views(b@) =~= Seq::empty());
        assert(whole =~= views(backward@).reverse());
    }
    reverse(backward)
}

/// Sorts a vector, keeping equal elements in their order.
pub fn sort<T: Ordered>(unsorted: Vec<T>) -> (sorted: Vec<T>)
    ensures
        views(sorted@) == stable_sort(views(unsorted@), leq_of::<T>()),
    decreases unsorted@.len(),
{
    let mut left = unsorted;
    let ghost whole = left@;
    let ghost leq = leq_of::<T>();
    let n = left.len();
    if n < 2 {
        proof {
            if n == 1 {
                assert(views(whole).drop_last() =~= Seq::empty());
                assert(stable_sort(views(whole).drop_last(), leq) =~= Seq::empty());
                assert(views(whole) =~= Seq::empty().push(views(whole).last()));
            } else {
                assert(views(whole) =~= Seq::empty());
            }
        }
        return left;
    }
    let right = left.split_off(n / 2);
    proof {
        assert(views(whole) =~= views(left@) + views(right@));
        T::leq_is_total_preorder();
        assert forall|a: T::V, b: T::V| #[trigger] leq(a, b) || leq(b, a) by {
            assert(T::leq(a, b) || T::leq(b, a));
        }
        assert forall|a: T::V, b: T::V, c: T::V|
            #[trigger] leq(a, b) && #[trigger] leq(b, c) implies leq(a, c) by {
            assert(T::leq(a, b) && T::leq(b, c));
        }
        lemma_merge_sorted(views(left@), views(right@), leq);
    }
    merge(sort(left), sort(right))
}

proof fn lemma_insert_multiset<V>(s: Seq<V>, x: V, leq: spec_fn(V, V) -> bool)
    ensures
        insert_sorted(s, x, leq).to_multiset() =~= s.push(x).to_multiset(),
    decreases s.len(),
{
    broadcast use vstd::seq_lib::group_to_multiset_ensures;

    if s.len() > 0 && !leq(s.last(), x) {
        lemma_insert_multiset(s.drop_last(), x, leq);
        assert(s =~= s.drop_last().push(s.last()));
    }
}

/// Sorting keeps every element as often as it occurs.
pub proof fn lemma_sort_permutes<V>(s: Seq<V>, leq: spec_fn(V, V) -> bool)
    ensures
        stable_sort(s, leq).to_multiset() == s.to_multiset(),
        stable_sort(s, leq).len() == s.len(),
    decreases s.len(),
{
    broadcast use vstd::seq_lib::group_to_multiset_ensures;

    if s.len() > 0 {
        let rest = stable_sort(s.drop_last(), leq);
        lemma_sort_permutes(s.drop_last(), leq);
        lemma_insert_multiset(rest, s.last(), leq);
        assert(s =~= s.drop_last().push(s.last()));
        assert(stable_sort(s, leq).to_multiset().len() == s.to_multiset().len());
    }
}

/// Whether the elements are in ascending order.
pub open spec fn ascending<V>(s: Seq<V>, leq: spec_fn(V, V) -> bool) -> bool {
    forall|i: int, j: int| 0 <= i < j < s.len() ==> leq(#[trigger] s[i], #[trigger] s[j])
}

spec fn bounded<V>(s: Seq<V>, y: V, leq: spec_fn(V, V) -> bool) -> bool {
    forall|i: int| 0 <= i < s.len() ==> leq(#[trigger] s[i], y)
}

proof fn lemma_insert_ascending<V>(s: Seq<V>, x: V, leq: spec_fn(V, V) -> bool)
    requires
        total_preorder(leq),
        ascending(s, leq),
    ensures
        ascending(insert_sorted(s, x, leq), leq),
        forall|y: V|
            bounded(s, y, leq) && leq(x, y) ==> #[trigger] bounded(
                insert_sorted(s, x, leq),
                y,
                leq,
            ),
    decreases s.len(),
{
    let r = insert_sorted(s, x, leq);
    if s.len() > 0 && !leq(s.last(), x) {
        let front = s.drop_last();
        let inserted = insert_sorted(front, x, leq);
        lemma_insert_ascending(front, x, leq);
        assert(leq(x, s.last()));
        assert(bounded(front, s.last(), leq));
        assert(bounded(inserted, s.last(), leq));
        assert forall|y: V| bounded(s, y, leq) && leq(x, y) implies #[trigger] bounded(
            r,
            y,
            leq,
        ) by {
            assert(bounded(front, y, leq));
            assert(bounded(inserted, y, leq));
            assert(leq(s[s.len() - 1], y));
        }
    } else {
        assert forall|i: int, j: int| 0 <= i < j < r.len() implies leq(
            #[trigger] r[i],
            #[trigger] r[j],
        ) by {
            if j == s.len() && i < s.len() - 1 {
                assert(leq(s[i], s[s.len() - 1]));
            }
        }
    }
}

/// Sorting leaves the elements in ascending order.
pub proof fn lemma_sort_ascending<V>(s: Seq<V>, leq: spec_fn(V, V) -> bool)
    requires
        total_preorder(leq),
    ensures
        ascending(stable_sort(s, leq), leq),
    decreases s.len(),
{
    if s.len() > 0 {
        lemma_sort_ascending(s.drop_last(), leq);
        lemma_insert_ascending(stable_sort(s.drop_last(), leq), s.last(), leq);
    }
}

proof fn lemma_insert_filter<V>(
    s: Seq<V>,
    x: V,
    leq: spec_fn(V, V) -> bool,
    class: spec_fn(V) -> bool,
)
    requires
        forall|a: V, b: V| #[trigger] class(a) && #[trigger] class(b) ==> leq(a, b),
    ensures
        insert_sorted(s, x, leq).filter(class) == s.push(x).filter(class),
    decreases s.len(),
{
    broadcast use Seq::lemma_filter_push;

    if s.len() > 0 && !leq(s.last(), x) {
        let front = s.drop_last();
        lemma_insert_filter(front, x, leq, class);
        assert(s =~= front.push(s.last()));
    }
}

/// Sorting keeps the order of elements that compare as equal.
pub proof fn lemma_sort_keeps_class<V>(
    s: Seq<V>,
    leq: spec_fn(V, V) -> bool,
    class: spec_fn(V) -> bool,
)
    requires
        forall|a: V, b: V| #[trigger] class(a) && #[trigger] class(b) ==> leq(a, b),
    ensures
        stable_sort(s, leq).filter(class) == s.filter(class),
    decreases s.len(),
{
    broadcast use Seq::lemma_filter_push;

    if s.len() > 0 {
        let rest = stable_sort(s.drop_last(), leq);
        lemma_sort_keeps_class(s.drop_last(), leq, class);
        lemma_insert_filter(rest, s.last(), leq, class);
        assert(s =~= s.drop_last().push(s.last()));
    }
}

proof fn lemma_insert_map<V, W>(
    s: Seq<V>,
    x: V,
    f: spec_fn(V) -> W,
    leq: spec_fn(V, V) -> bool,
    image_leq: spec_fn(W, W) -> bool,
)
    requires
        forall|a: V, b: V| #[trigger] leq(a, b) == image_leq(f(a), f(b)),
    ensures
        insert_sorted(s.map_values(f), f(x), image_leq) == insert_sorted(s, x, leq).map_values(f),
    decreases s.len(),
{
    if s.len() == 0 || leq(s.last(), x) {
        if s.len() > 0 {
            assert(s.map_values(f).last() == f(s.last()));
        }
        assert(s.push(x).map_values(f) =~= s.map_values(f).push(f(x)));
    } else {
        let front = s.drop_last();
        assert(s.map_values(f).last() == f(s.last()));
        assert(s.map_values(f).drop_last() =~= front.map_values(f));
        lemma_insert_map(front, x, f, leq, image_leq);
        assert(insert_sorted(front, x, leq).push(s.last()).map_values(f) =~= insert_sorted(
            front,
            x,
            leq,
        ).map_values(f).push(f(s.last())));
    }
}

/// Sorting images is taking the images of what was sorted.
pub proof fn lemma_sort_map<V, W>(
    s: Seq<V>,
    f: spec_fn(V) -> W,
    leq: spec_fn(V, V) -> bool,
    image_leq: spec_fn(W, W) -> bool,
)
    requires
        forall|a: V, b: V| #[trigger] leq(a, b) == image_leq(f(a), f(b)),
    ensures
        stable_sort(s.map_values(f), image_leq) == stable_sort(s, leq).map_values(f),
    decreases s.len(),
{
    if s.len() == 0 {
        assert(s.map_values(f) =~= Seq::empty());
    } else {
        let front = s.drop_last();
        lemma_sort_map(front, f, leq, image_leq);
        assert(s.map_values(f).drop_last() =~= front.map_values(f));
        lemma_insert_map(stable_sort(front, leq), s.last(), f, leq, image_leq);
    }
}

/// Whether something holds of all elements.
pub open spec fn all_are<V>(s: Seq<V>, p: spec_fn(V) -> bool) -> bool {
    forall|i: int| 0 <= i < s.len() ==> p(#[trigger] s[i])
}

/// Whether something holds between any two elements.
pub open spec fn pairwise<V>(s: Seq<V>, p: spec_fn(V, V) -> bool) -> bool {
    forall|i: int, j: int|
        0 <= i < s.len() && 0 <= j < s.len() && i != j ==> p(#[trigger] s[i], #[trigger] s[j])
}

proof fn lemma_insert_all<V>(s: Seq<V>, x: V, leq: spec_fn(V, V) -> bool, p: spec_fn(V) -> bool)
    requires
        all_are(s, p),
        p(x),
    ensures
        all_are(insert_sorted(s, x, leq), p),
    decreases s.len(),
{
    if s.len() > 0 && !leq(s.last(), x) {
        lemma_insert_all(s.drop_last(), x, leq, p);
    }
}

/// What holds of all elements holds of them when they are sorted.
pub proof fn lemma_sort_all<V>(s: Seq<V>, leq: spec_fn(V, V) -> bool, p: spec_fn(V) -> bool)
    requires
        all_are(s, p),
    ensures
        all_are(stable_sort(s, leq), p),
    decreases s.len(),
{
    if s.len() > 0 {
        lemma_sort_all(s.drop_last(), leq, p);
        lemma_insert_all(stable_sort(s.drop_last(), leq), s.last(), leq, p);
    }
}

proof fn lemma_insert_pairwise<V>(
    s: Seq<V>,
    x: V,
    leq: spec_fn(V, V) -> bool,
    p: spec_fn(V, V) -> bool,
)
    requires
        pairwise(s, p),
        all_are(s, |y: V| p(x, y) && p(y, x)),
    ensures
        pairwise(insert_sorted(s, x, leq), p),
    decreases s.len(),
{
    if s.len() > 0 && !leq(s.last(), x) {
        let front = s.drop_last();
        let last = s.last();
        let near = |y: V| p(last, y) && p(y, last);
        lemma_insert_pairwise(front, x, leq, p);
        assert(s[s.len() - 1] == last);
        assert((|y: V| p(x, y) && p(y, x))(last));
        lemma_insert_all(front, x, leq, near);
        let inner = insert_sorted(front, x, leq);
        assert forall|i: int| 0 <= i < inner.len() implies p(last, #[trigger] inner[i]) && p(
            inner[i],
            last,
        ) by {
            assert(near(inner[i]));
        }
    } else {
        assert forall|i: int| 0 <= i < s.len() implies p(x, #[trigger] s[i]) && p(s[i], x) by {
            assert((|y: V| p(x, y) && p(y, x))(s[i]));
        }
    }
}

/// What holds between any two elements holds between any two of them when they
/// are sorted.
pub proof fn lemma_sort_pairwise<V>(
    s: Seq<V>,
    leq: spec_fn(V, V) -> bool,
    p: spec_fn(V, V) -> bool,
)
    requires
        pairwise(s, p),
    ensures
        pairwise(stable_sort(s, leq), p),
    decreases s.len(),
{
    if s.len() > 0 {
        let front = s.drop_last();
        let near = |y: V| p(s.last(), y) && p(y, s.last());
        lemma_sort_pairwise(front, leq, p);
        assert(s[s.len() - 1] == s.last());
        lemma_sort_all(front, leq, near);
        lemma_insert_pairwise(stable_sort(front, leq), s.last(), leq, p);
    }
}

} // verus!
