//! Stable sorting of values by an order on their views.
use vstd::prelude::*;

verus! {

/// A type whose values are compared through their views.
pub trait Ordered: View + Sized {
    /// Whether `a` sorts strictly before `b`.
    spec fn before(a: Self::V, b: Self::V) -> bool;

    fn less(&self, other: &Self) -> (b: bool)
        ensures
            b == Self::before(self@, other@),
    ;
}

/// Where `x` goes when inserted into `s` after every element it does not sort before, counting
/// from the end: the insertion point that keeps equal elements in arrival order.
pub open spec fn insert_point<T: Ordered>(s: Seq<T::V>, x: T::V) -> int
    decreases s.len(),
{
    if s.len() == 0 {
        0
    } else if T::before(x, s.last()) {
        insert_point::<T>(s.drop_last(), x)
    } else {
        s.len() as int
    }
}

/// `s` stably sorted, as successive insertions.
pub open spec fn sorted<T: Ordered>(s: Seq<T::V>) -> Seq<T::V>
    decreases s.len(),
{
    if s.len() == 0 {
        Seq::empty()
    } else {
        let before = sorted::<T>(s.drop_last());
        before.insert(insert_point::<T>(before, s.last()), s.last())
    }
}

/// The views of `v`.
pub open spec fn views<T: View>(v: Seq<T>) -> Seq<T::V> {
    v.map_values(|x: T| x@)
}

/// Inserts `x` at its stable place.
fn insert_sorted<T: Ordered>(items: &mut Vec<T>, x: T)
    ensures
        views(final(items)@) == views(old(items)@).insert(
            insert_point::<T>(views(old(items)@), x@),
            x@,
        ),
{
    let ghost sv = views(items@);
    let mut i: usize = items.len();
    assert(sv.take(i as int) =~= sv);
    while i > 0 && x.less(&items[i - 1])
        invariant
            i <= items@.len(),
            sv == views(items@),
            insert_point::<T>(sv, x@) == insert_point::<T>(sv.take(i as int), x@),
        decreases i,
    {
        assert(sv[i - 1] == items@[i - 1]@);
        assert(sv.take(i as int).drop_last() =~= sv.take(i - 1));
        assert(sv.take(i as int).last() == sv[i - 1]);
        i -= 1;
    }
    if i > 0 {
        assert(sv[i - 1] == items@[i - 1]@);
        assert(sv.take(i as int).last() == sv[i - 1]);
    }
    let ghost xv = x@;
    items.insert(i, x);
    assert(views(items@) =~= sv.insert(i as int, xv));
}

/// `items` stably sorted by `Ordered::before`.
pub fn sort_items<T: Ordered>(items: Vec<T>) -> (r: Vec<T>)
    ensures
        views(r@) == sorted::<T>(views(items@)),
{
    let ghost orig = views(items@);
    let total = items.len();
    let mut rest = items;
    let mut out: Vec<T> = Vec::new();
    let mut i: usize = 0;
    assert(orig.take(0) =~= Seq::<T::V>::empty());
    while rest.len() > 0
        invariant
            orig.len() == total,
            i + rest@.len() == total,
            views(rest@) == orig.skip(i as int),
            views(out@) == sorted::<T>(orig.take(i as int)),
        decreases rest.len(),
    {
        let ghost rv = views(rest@);
        let ghost rs = rest@;
        let x = rest.remove(0);
        assert(x@ == rv[0]);
        assert(orig[i as int] == rv[0]);
        let ghost pre = orig.take(i + 1);
        assert(pre.drop_last() =~= orig.take(i as int));
        assert(pre.last() == orig[i as int]);
        insert_sorted(&mut out, x);
        proof {
            assert(rest@ =~= rs.subrange(1, rs.len() as int));
            let nv = views(rest@);
            assert forall|j: int| 0 <= j < nv.len() implies #[trigger] nv[j] == orig.skip(i + 1)[j] by {
                assert(rest@[j] == rs[j + 1]);
                assert(rv[j + 1] == orig.skip(i as int)[j + 1]);
            }
        }
        i += 1;
        assert(views(rest@) =~= orig.skip(i as int));
    }
    assert(orig.take(i as int) =~= orig);
    out
}

/// Whether `T::before` is a strict weak order on views: never both ways round, and an element
/// that does not sort before a second, which does not sort before a third, does not sort before
/// the third either.
pub open spec fn strict_weak<T: Ordered>() -> bool {
    &&& forall|a: T::V, b: T::V| #[trigger] T::before(a, b) ==> !T::before(b, a)
    &&& forall|a: T::V, b: T::V, c: T::V|
        #![trigger T::before(a, b), T::before(b, c)]
        !T::before(a, b) && !T::before(b, c) ==> !T::before(a, c)
}

/// Whether no element of `s` sorts before an earlier one.
pub open spec fn in_order<T: Ordered>(s: Seq<T::V>) -> bool {
    forall|i: int, j: int| 0 <= i < j < s.len() ==> !T::before(#[trigger] s[j], #[trigger] s[i])
}

/// Where `insert_point` puts `x`: after everything `x` does not sort before, counting from the
/// end, so `x` sorts before every element after it.
pub proof fn lemma_insert_point_facts<T: Ordered>(s: Seq<T::V>, x: T::V)
    ensures
        0 <= insert_point::<T>(s, x) <= s.len(),
        forall|k: int| insert_point::<T>(s, x) <= k < s.len() ==> T::before(x, #[trigger] s[k]),
        insert_point::<T>(s, x) > 0 ==> !T::before(x, s[insert_point::<T>(s, x) - 1]),
    decreases s.len(),
{
    if s.len() > 0 && T::before(x, s.last()) {
        let t = s.drop_last();
        lemma_insert_point_facts::<T>(t, x);
        assert forall|k: int| insert_point::<T>(s, x) <= k < s.len() implies T::before(x, #[trigger] s[k]) by {
            if k < s.len() - 1 {
                assert(s[k] == t[k]);
            }
        }
        if insert_point::<T>(s, x) > 0 {
            assert(s[insert_point::<T>(s, x) - 1] == t[insert_point::<T>(t, x) - 1]);
        }
    }
}

/// Stable sorting under a strict weak order leaves every element after all that sort before it.
pub proof fn lemma_sorted_in_order<T: Ordered>(s: Seq<T::V>)
    requires
        strict_weak::<T>(),
    ensures
        in_order::<T>(sorted::<T>(s)),
        sorted::<T>(s).len() == s.len(),
    decreases s.len(),
{
    if s.len() > 0 {
        let t = sorted::<T>(s.drop_last());
        lemma_sorted_in_order::<T>(s.drop_last());
        let x = s.last();
        let p = insert_point::<T>(t, x);
        lemma_insert_point_facts::<T>(t, x);
        let u = t.insert(p, x);
        assert(u == sorted::<T>(s));
        assert forall|i: int, j: int| 0 <= i < j < u.len() implies !T::before(#[trigger] u[j], #[trigger] u[i]) by {
            if i == p {
                assert(u[j] == t[j - 1]);
                assert(T::before(x, t[j - 1]));
            } else if j == p {
                assert(u[i] == t[i]);
                assert(!T::before(x, t[p - 1]));
                if i < p - 1 {
                    assert(!T::before(t[p - 1], t[i]));
                    assert(!T::before(x, t[p - 1]) && !T::before(t[p - 1], t[i]) ==> !T::before(x, t[i]));
                }
            } else {
                let a = if i < p { i } else { i - 1 };
                let b = if j < p { j } else { j - 1 };
                assert(u[i] == t[a]);
                assert(u[j] == t[b]);
                assert(a < b);
            }
        }
    }
}

/// Sorting only moves elements: everything in `sorted(s)` is in `s`.
pub proof fn lemma_sorted_elements<T: Ordered>(s: Seq<T::V>)
    ensures
        forall|y: T::V| #[trigger] sorted::<T>(s).contains(y) ==> s.contains(y),
    decreases s.len(),
{
    if s.len() > 0 {
        let t = sorted::<T>(s.drop_last());
        lemma_sorted_elements::<T>(s.drop_last());
        lemma_insert_point_facts::<T>(t, s.last());
        let p = insert_point::<T>(t, s.last());
        assert forall|y: T::V| #[trigger] sorted::<T>(s).contains(y) implies s.contains(y) by {
            let u = t.insert(p, s.last());
            let k = choose|k: int| 0 <= k < u.len() && u[k] == y;
            if k == p {
                assert(s[s.len() - 1] == y);
            } else {
                let m = if k < p { k } else { k - 1 };
                assert(t[m] == y);
                assert(t.contains(y));
                let n = choose|n: int| 0 <= n < s.drop_last().len() && s.drop_last()[n] == y;
                assert(s[n] == y);
            }
        }
    }
}

/// Sorting keeps every element and adds none.
pub proof fn lemma_sorted_permutes<T: Ordered>(s: Seq<T::V>)
    ensures
        sorted::<T>(s).len() == s.len(),
        sorted::<T>(s).to_multiset() == s.to_multiset(),
    decreases s.len(),
{
    broadcast use vstd::seq_lib::group_to_multiset_ensures;
    if s.len() > 0 {
        let before = sorted::<T>(s.drop_last());
        lemma_sorted_permutes::<T>(s.drop_last());
        lemma_insert_point_facts::<T>(before, s.last());
        let p = insert_point::<T>(before, s.last());
        assert(before.insert(p, s.last()) =~= before.take(p).push(s.last()) + before.skip(p));
        assert(before =~= before.take(p) + before.skip(p));
        vstd::seq_lib::lemma_multiset_commutative(before.take(p).push(s.last()), before.skip(p));
        vstd::seq_lib::lemma_multiset_commutative(before.take(p), before.skip(p));
        assert(s =~= s.drop_last().push(s.last()));
    }
}

} // verus!
