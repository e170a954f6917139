//! The order on element values, read from their `Ord` implementation.
use core::cmp::Ordering;
use vstd::laws_cmp::{obeys_cmp, obeys_cmp_ord, obeys_cmp_partial_ord, obeys_partial_cmp_spec_properties};
use vstd::laws_eq::{obeys_concrete_eq, obeys_eq_spec_properties};
use vstd::prelude::*;
use vstd::std_specs::cmp::{OrdSpec, PartialEqSpec, PartialOrdSpec};

verus! {

/// `a` comes strictly before `b`.
pub open spec fn lt<T: Ord>(a: T, b: T) -> bool {
    a.partial_cmp_spec(&b) == Some(Ordering::Less)
}

/// `a` may stand before `b` in a sorted sequence.
pub open spec fn le<T: Ord>(a: T, b: T) -> bool {
    !lt(b, a)
}

/// Every earlier element is at most every later one.
pub open spec fn sorted<T: Ord>(s: Seq<T>) -> bool {
    forall|i: int, j: int| 0 <= i < j < s.len() ==> le(#[trigger] s[i], #[trigger] s[j])
}

/// A lawful `Ord` makes `<` decide `lt`.
pub(crate) proof fn lemma_partial_cmp_obeyed<T: Ord>()
    requires
        obeys_cmp::<T>(),
    ensures
        T::obeys_partial_cmp_spec(),
{
    reveal(obeys_cmp_partial_ord);
}

proof fn lemma_total<T: Ord>(x: T, y: T)
    requires
        obeys_cmp::<T>(),
    ensures
        lt(x, y) || lt(y, x) || x.eq_spec(&y),
        !(lt(x, y) && x.eq_spec(&y)),
        !(lt(y, x) && x.eq_spec(&y)),
        !(lt(x, y) && lt(y, x)),
{
    reveal(obeys_cmp_partial_ord);
    reveal(obeys_cmp_ord);
    reveal(obeys_partial_cmp_spec_properties);
    reveal(obeys_eq_spec_properties);
    assert(x.partial_cmp_spec(&y) == Some(x.cmp_spec(&y)));
    assert(y.partial_cmp_spec(&x) == Some(y.cmp_spec(&x)));
    assert(x.eq_spec(&y) <==> x.partial_cmp_spec(&y) == Some(Ordering::Equal));
    assert(y.eq_spec(&x) <==> y.partial_cmp_spec(&x) == Some(Ordering::Equal));
    assert(x.partial_cmp_spec(&y) == Some(Ordering::Less) <==> y.partial_cmp_spec(&x) == Some(
        Ordering::Greater,
    ));
}

proof fn lemma_lt_trans<T: Ord>(x: T, y: T, z: T)
    requires
        obeys_cmp::<T>(),
        lt(x, y),
        lt(y, z),
    ensures
        lt(x, z),
{
    reveal(obeys_partial_cmp_spec_properties);
}

proof fn lemma_eq_trans<T: Ord>(x: T, y: T, z: T)
    requires
        obeys_cmp::<T>(),
        x.eq_spec(&y),
        y.eq_spec(&z),
    ensures
        x.eq_spec(&z),
        z.eq_spec(&x),
{
    reveal(obeys_partial_cmp_spec_properties);
    reveal(obeys_eq_spec_properties);
}

/// Strictly before, then at most: strictly before.
pub(crate) proof fn lemma_lt_le_trans<T: Ord>(x: T, y: T, z: T)
    requires
        obeys_cmp::<T>(),
        lt(x, y),
        le(y, z),
    ensures
        lt(x, z),
{
    lemma_total(x, z);
    lemma_total(y, z);
    lemma_total(x, y);
    if z.eq_spec(&x) || x.eq_spec(&z) {
        reveal(obeys_partial_cmp_spec_properties);
        reveal(obeys_eq_spec_properties);
        if y.eq_spec(&z) {
            lemma_eq_trans(x, z, y);
        } else {
            lemma_total(z, y);
            lemma_total(z, x);
        }
    } else if lt(z, x) {
        lemma_lt_trans(z, x, y);
        lemma_total(y, z);
        if y.eq_spec(&z) {
            reveal(obeys_eq_spec_properties);
            lemma_total(z, y);
        }
    }
}

/// At most is transitive.
pub(crate) proof fn lemma_le_trans<T: Ord>(x: T, y: T, z: T)
    requires
        obeys_cmp::<T>(),
        le(x, y),
        le(y, z),
    ensures
        le(x, z),
{
    if lt(z, x) {
        lemma_lt_le_trans(z, x, y);
    }
}

/// Strictly before excludes strictly after.
pub(crate) proof fn lemma_lt_asym<T: Ord>(x: T, y: T)
    requires
        obeys_cmp::<T>(),
        lt(x, y),
    ensures
        le(x, y),
{
    lemma_total(x, y);
}

/// `v` placed after every element it is not less than, before the rest.
pub open spec fn insert_sorted<T: Ord>(s: Seq<T>, v: T) -> Seq<T>
    decreases s.len(),
{
    if s.len() == 0 {
        seq![v]
    } else if lt(v, s[0]) {
        seq![v] + s
    } else {
        seq![s[0]] + insert_sorted(s.drop_first(), v)
    }
}

/// What a list holds after `vs` went into an empty one, first to last.
pub open spec fn build<T: Ord>(vs: Seq<T>) -> Seq<T>
    decreases vs.len(),
{
    if vs.len() == 0 {
        Seq::empty()
    } else {
        insert_sorted(build(vs.drop_last()), vs.last())
    }
}

/// Position of the first element that `v` is less than, or the length.
spec fn first_above<T: Ord>(s: Seq<T>, v: T) -> int
    decreases s.len(),
{
    if s.len() == 0 {
        0
    } else if lt(v, s[0]) {
        0
    } else {
        1 + first_above(s.drop_first(), v)
    }
}

proof fn lemma_first_above<T: Ord>(s: Seq<T>, v: T)
    ensures
        0 <= first_above(s, v) <= s.len(),
        forall|i: int| 0 <= i < first_above(s, v) ==> le(#[trigger] s[i], v),
        first_above(s, v) < s.len() ==> lt(v, s[first_above(s, v)]),
    decreases s.len(),
{
    if s.len() > 0 && !lt(v, s[0]) {
        let t = s.drop_first();
        lemma_first_above(t, v);
        assert forall|i: int| 0 <= i < first_above(s, v) implies le(#[trigger] s[i], v) by {
            if i > 0 {
                assert(s[i] == t[i - 1]);
            }
        }
    }
}

/// Inserting at a position with nothing greater before it and something
/// greater at it is inserting in order.
pub(crate) proof fn lemma_insert_at<T: Ord>(s: Seq<T>, k: int, v: T)
    requires
        0 <= k <= s.len(),
        forall|i: int| 0 <= i < k ==> le(#[trigger] s[i], v),
        k < s.len() ==> lt(v, s[k]),
    ensures
        s.insert(k, v) == insert_sorted(s, v),
    decreases s.len(),
{
    if k == 0 {
        if s.len() == 0 {
            assert(s.insert(k, v) =~= seq![v]);
        } else {
            assert(s.insert(k, v) =~= seq![v] + s);
        }
    } else {
        let t = s.drop_first();
        assert(le(s[0], v));
        assert forall|i: int| 0 <= i < k - 1 implies le(#[trigger] t[i], v) by {
            assert(t[i] == s[i + 1]);
        }
        lemma_insert_at(t, k - 1, v);
        assert(s.insert(k, v) =~= seq![s[0]] + t.insert(k - 1, v));
    }
}

/// Inserting at such a position keeps a sorted sequence sorted.
pub(crate) proof fn lemma_insert_at_sorted<T: Ord>(s: Seq<T>, k: int, v: T)
    requires
        obeys_cmp::<T>(),
        sorted(s),
        0 <= k <= s.len(),
        forall|i: int| 0 <= i < k ==> le(#[trigger] s[i], v),
        k < s.len() ==> lt(v, s[k]),
    ensures
        sorted(s.insert(k, v)),
{
    let t = s.insert(k, v);
    assert forall|i: int, j: int| 0 <= i < j < t.len() implies le(#[trigger] t[i], #[trigger] t[j]) by {
        if j > k && i <= k {
            if j - 1 > k {
                assert(le(s[k], s[j - 1]));
                lemma_lt_le_trans(v, s[k], s[j - 1]);
            }
            lemma_lt_asym(v, s[j - 1]);
            if i < k {
                lemma_le_trans(s[i], v, s[j - 1]);
            }
        }
    }
}

/// Inserting in order keeps a sorted sequence sorted, adds exactly `v` to
/// its elements and makes it one longer.
pub proof fn lemma_insert_sorted<T: Ord>(s: Seq<T>, v: T)
    requires
        obeys_cmp::<T>(),
        sorted(s),
    ensures
        sorted(insert_sorted(s, v)),
        insert_sorted(s, v).to_multiset() == s.to_multiset().insert(v),
        insert_sorted(s, v).len() == s.len() + 1,
{
    let k = first_above(s, v);
    lemma_first_above(s, v);
    lemma_insert_at(s, k, v);
    lemma_insert_at_sorted(s, k, v);
    vstd::seq_lib::to_multiset_insert(s, k, v);
}

/// Whatever values go in, in whatever order, the list ends up sorted, as
/// long as the number of values, and holding each value as often as it
/// went in: none is lost and none is doubled.
pub proof fn lemma_build<T: Ord>(vs: Seq<T>)
    requires
        obeys_cmp::<T>(),
    ensures
        sorted(build(vs)),
        build(vs).len() == vs.len(),
        build(vs).to_multiset() == vs.to_multiset(),
    decreases vs.len(),
{
    broadcast use vstd::multiset::group_multiset_axioms;
    broadcast use vstd::seq_lib::group_to_multiset_ensures;

    if vs.len() == 0 {
        assert(build(vs) =~= Seq::<T>::empty());
        assert(vs.to_multiset().len() == 0);
        assert(vs.to_multiset() =~= build(vs).to_multiset());
    } else {
        let front = vs.drop_last();
        lemma_build(front);
        lemma_insert_sorted(build(front), vs.last());
        vstd::seq_lib::to_multiset_build(front, vs.last());
        assert(front.push(vs.last()) =~= vs);
    }
}

/// Two sorted sequences with the same elements are the same sequence, for
/// values whose equality is identity.
pub proof fn lemma_sorted_unique<T: Ord>(s: Seq<T>, t: Seq<T>)
    requires
        obeys_cmp::<T>(),
        obeys_concrete_eq::<T>(),
        sorted(s),
        sorted(t),
        s.to_multiset() == t.to_multiset(),
    ensures
        s == t,
    decreases s.len(),
{
    broadcast use vstd::multiset::group_multiset_axioms;
    broadcast use vstd::seq_lib::group_to_multiset_ensures;

    if s.len() == 0 {
        vstd::seq_lib::to_multiset_len(s);
        vstd::seq_lib::to_multiset_len(t);
        assert(t.len() == 0);
        assert(s =~= t);
    } else {
        vstd::seq_lib::to_multiset_len(s);
        vstd::seq_lib::to_multiset_len(t);
        assert(t.len() == s.len());
        assert(s.to_multiset().contains(s[0]));
        assert(t.contains(s[0]));
        let j = choose|j: int| 0 <= j < t.len() && t[j] == s[0];
        assert(t.to_multiset().contains(t[0]));
        assert(s.contains(t[0]));
        let i = choose|i: int| 0 <= i < s.len() && s[i] == t[0];
        if j > 0 {
            assert(le(t[0], t[j]));
        }
        if i > 0 {
            assert(le(s[0], s[i]));
        }
        lemma_total(s[0], t[0]);
        reveal(obeys_concrete_eq);
        assert(s[0] == t[0]);
        let s1 = s.drop_first();
        let t1 = t.drop_first();
        assert(s =~= s1.insert(0, s[0]));
        assert(t =~= t1.insert(0, t[0]));
        vstd::seq_lib::to_multiset_insert(s1, 0, s[0]);
        vstd::seq_lib::to_multiset_insert(t1, 0, t[0]);
        assert forall|x: T| s1.to_multiset().count(x) == t1.to_multiset().count(x) by {
            assert(s1.to_multiset().insert(s[0]).count(x) == t1.to_multiset().insert(s[0]).count(x));
        }
        assert(s1.to_multiset() =~= t1.to_multiset());
        assert(sorted(s1)) by {
            assert forall|a: int, b: int| 0 <= a < b < s1.len() implies le(
                #[trigger] s1[a],
                #[trigger] s1[b],
            ) by {
                assert(le(s[a + 1], s[b + 1]));
            }
        }
        assert(sorted(t1)) by {
            assert forall|a: int, b: int| 0 <= a < b < t1.len() implies le(
                #[trigger] t1[a],
                #[trigger] t1[b],
            ) by {
                assert(le(t[a + 1], t[b + 1]));
            }
        }
        lemma_sorted_unique(s1, t1);
    }
}

/// Inserting the same values in any two orders gives the same list, for
/// values whose equality is identity.
pub proof fn lemma_build_any_order<T: Ord>(vs: Seq<T>, ws: Seq<T>)
    requires
        obeys_cmp::<T>(),
        obeys_concrete_eq::<T>(),
        vs.to_multiset() == ws.to_multiset(),
    ensures
        build(vs) == build(ws),
{
    lemma_build(vs);
    lemma_build(ws);
    lemma_sorted_unique(build(vs), build(ws));
}

/// In a sorted sequence, whatever stands between two equal values is equal
/// to them: equal values sit side by side.
pub proof fn lemma_equal_values_adjacent<T: Ord>(s: Seq<T>, i: int, m: int, j: int)
    requires
        obeys_cmp::<T>(),
        sorted(s),
        0 <= i < m < j < s.len(),
        s[i].eq_spec(&s[j]),
    ensures
        s[i].eq_spec(&s[m]),
{
    assert(le(s[i], s[m]));
    assert(le(s[m], s[j]));
    lemma_total(s[i], s[m]);
    if lt(s[i], s[m]) {
        lemma_lt_le_trans(s[i], s[m], s[j]);
        lemma_total(s[i], s[j]);
    }
}

/// Two values inserted in order one after the other give the same sequence
/// whichever goes in first, for values whose equality is identity.
pub proof fn lemma_insert_sorted_commutes<T: Ord>(s: Seq<T>, a: T, b: T)
    requires
        obeys_cmp::<T>(),
        obeys_concrete_eq::<T>(),
        sorted(s),
    ensures
        insert_sorted(insert_sorted(s, a), b) == insert_sorted(insert_sorted(s, b), a),
{
    broadcast use vstd::multiset::group_multiset_axioms;

    lemma_insert_sorted(s, a);
    lemma_insert_sorted(insert_sorted(s, a), b);
    lemma_insert_sorted(s, b);
    lemma_insert_sorted(insert_sorted(s, b), a);
    assert(s.to_multiset().insert(a).insert(b) =~= s.to_multiset().insert(b).insert(a));
    lemma_sorted_unique(
        insert_sorted(insert_sorted(s, a), b),
        insert_sorted(insert_sorted(s, b), a),
    );
}

} // verus!
