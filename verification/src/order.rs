//! The comparator contract shared by every sorting algorithm, and the
//! general laws that hold of sorted permutations.
//!
//! A comparator is an executable closure `f(&a, &b) -> bool` meaning "`a` may
//! stand at or before `b`".  A specification-level relation `c` describes the
//! closure when every call answers as `c` does ([`decides`]).  The order a
//! sort establishes from `c` is [`may_precede`]: `a` may precede `b` when `c`
//! places `a` before `b` or does not demand `b` before `a`.  This single
//! reading covers both non-strict comparators (such as `<=`) and strict ones
//! (such as `<`), and each algorithm promises its output sorted under
//! `may_precede(c)` for every relation `c` its comparator decides.

use vstd::prelude::*;
use vstd::relations::{
    antisymmetric, asymmetric, reflexive, sorted_by, strongly_connected, transitive,
};

verus! {

/// The order a sort establishes from the comparator relation `c`:
/// `a` may precede `b` when `c` places `a` before `b`, or at least does not
/// place `b` strictly before `a`.
pub open spec fn may_precede<T>(c: spec_fn(T, T) -> bool) -> spec_fn(T, T) -> bool {
    |a: T, b: T| c(a, b) || !c(b, a)
}

/// The closure can be called on any pair of elements.
pub open spec fn comparator_callable<T, F: Fn(&T, &T) -> bool>(f: F) -> bool {
    forall|a: T, b: T| #[trigger] call_requires(f, (&a, &b))
}

/// Every call of the closure answers as the relation `c` does: the closure
/// behaves as a pure predicate and `c` is its meaning.
pub open spec fn decides<T, F: Fn(&T, &T) -> bool>(f: F, c: spec_fn(T, T) -> bool) -> bool {
    forall|a: T, b: T, r: bool| #[trigger] call_ensures(f, (&a, &b), r) ==> r == c(a, b)
}

/// A relation every algorithm can sort by: its [`may_precede`] order must be
/// transitive.
pub open spec fn sort_order<T>(c: spec_fn(T, T) -> bool) -> bool {
    transitive(may_precede(c))
}

/// A strict relation (such as `<`, never `<=`): beyond [`sort_order`], it
/// never holds in both directions at once.
pub open spec fn strict_order<T>(c: spec_fn(T, T) -> bool) -> bool {
    &&& sort_order(c)
    &&& asymmetric(c)
}

/// A relation that accepts ties (such as `<=`): transitive and relating
/// every pair in at least one direction.
pub open spec fn total_order<T>(c: spec_fn(T, T) -> bool) -> bool {
    &&& transitive(c)
    &&& strongly_connected(c)
}

/// A tie-accepting total relation is one every algorithm can sort by, and
/// its complement is transitive.
pub proof fn lemma_total_order_properties<T>(c: spec_fn(T, T) -> bool)
    requires
        total_order(c),
    ensures
        sort_order(c),
        forall|x: T, y: T, z: T|
            #![trigger c(x, y), c(y, z)]
            !c(x, y) && !c(y, z) ==> !c(x, z),
{
    assert forall|x: T, y: T, z: T|
        #[trigger] may_precede(c)(x, y) && #[trigger] may_precede(c)(y, z) implies may_precede(
        c,
    )(x, z) by {
        assert(c(x, y) || c(y, x));
        assert(c(y, z) || c(z, y));
    }
    assert forall|x: T, y: T, z: T|
        #![trigger c(x, y), c(y, z)]
        !c(x, y) && !c(y, z) implies !c(x, z) by {
        if c(x, z) {
            assert(c(y, x));
            assert(c(z, y));
            assert(c(x, y));
        }
    }
}

/// A strict relation is itself transitive, and its complement is transitive.
pub proof fn lemma_strict_order_properties<T>(c: spec_fn(T, T) -> bool)
    requires
        strict_order(c),
    ensures
        transitive(c),
        forall|x: T, y: T, z: T|
            #![trigger c(x, y), c(y, z)]
            !c(x, y) && !c(y, z) ==> !c(x, z),
{
    lemma_strict_negative_transitive(c);
    assert forall|x: T, y: T, z: T| #[trigger] c(x, y) && #[trigger] c(y, z) implies c(x, z) by {
        if !c(x, z) {
            assert(may_precede(c)(z, x));
            assert(may_precede(c)(x, y));
            assert(may_precede(c)(z, y));
            assert(!c(z, y));
        }
    }
}

/// A comparator every algorithm accepts: callable everywhere, and deciding
/// some relation whose [`may_precede`] order is transitive.
pub open spec fn sort_comparator<T, F: Fn(&T, &T) -> bool>(f: F) -> bool {
    &&& comparator_callable(f)
    &&& exists|c: spec_fn(T, T) -> bool| #[trigger] decides(f, c) && sort_order(c)
}

/// A comparator for quicksort and heapsort: callable everywhere, and deciding
/// some strict relation.
pub open spec fn strict_comparator<T, F: Fn(&T, &T) -> bool>(f: F) -> bool {
    &&& comparator_callable(f)
    &&& exists|c: spec_fn(T, T) -> bool| #[trigger] decides(f, c) && strict_order(c)
}

/// Under every relation the comparator decides, `a` may precede `b`.  The
/// sorting algorithms promise their output sorted by this order.
pub open spec fn always_precedes<T, F: Fn(&T, &T) -> bool>(f: F) -> spec_fn(T, T) -> bool {
    |a: T, b: T|
        forall|c: spec_fn(T, T) -> bool|
            #[trigger] decides(f, c) && sort_order(c) ==> may_precede(c)(a, b)
}

/// Under every strict relation the comparator decides, `a` may precede `b`:
/// what quicksort and heapsort promise of their output.
pub open spec fn always_precedes_strict<T, F: Fn(&T, &T) -> bool>(f: F) -> spec_fn(T, T) -> bool {
    |a: T, b: T|
        forall|c: spec_fn(T, T) -> bool|
            #[trigger] decides(f, c) && strict_order(c) ==> may_precede(c)(a, b)
}

/// A call of the comparator on `(a, b)` can only return true.
pub open spec fn always_accepts<T, F: Fn(&T, &T) -> bool>(f: F, a: T, b: T) -> bool {
    forall|c: spec_fn(T, T) -> bool| #[trigger] decides(f, c) && sort_order(c) ==> c(a, b)
}

/// A call of the comparator on `(a, b)` can only return false.
pub open spec fn always_rejects<T, F: Fn(&T, &T) -> bool>(f: F, a: T, b: T) -> bool {
    forall|c: spec_fn(T, T) -> bool| #[trigger] decides(f, c) && sort_order(c) ==> !c(a, b)
}

/// Every strict relation the comparator decides rejects `(a, b)`.
pub open spec fn always_rejects_strict<T, F: Fn(&T, &T) -> bool>(f: F, a: T, b: T) -> bool {
    forall|c: spec_fn(T, T) -> bool| #[trigger] decides(f, c) && strict_order(c) ==> !c(a, b)
}

/// The orders [`always_precedes`] and [`always_precedes_strict`] are
/// transitive and reflexive, whatever the comparator is.
pub proof fn lemma_always_precedes_transitive<T, F: Fn(&T, &T) -> bool>(f: F)
    ensures
        transitive(always_precedes(f)),
        transitive(always_precedes_strict(f)),
        reflexive(always_precedes(f)),
        reflexive(always_precedes_strict(f)),
{
    let ap = always_precedes(f);
    let aps = always_precedes_strict(f);
    assert forall|x: T, y: T, z: T| #[trigger] ap(x, y) && #[trigger] ap(y, z) implies ap(
        x,
        z,
    ) by {
        assert forall|c: spec_fn(T, T) -> bool|
            #[trigger] decides(f, c) && sort_order(c) implies may_precede(c)(x, z) by {
            assert(may_precede(c)(x, y));
            assert(may_precede(c)(y, z));
        }
    }
    assert forall|x: T, y: T, z: T| #[trigger] aps(x, y) && #[trigger] aps(y, z) implies aps(
        x,
        z,
    ) by {
        assert forall|c: spec_fn(T, T) -> bool|
            #[trigger] decides(f, c) && strict_order(c) implies may_precede(c)(x, z) by {
            assert(may_precede(c)(x, y));
            assert(may_precede(c)(y, z));
        }
    }
    assert(forall|x: T| #[trigger] ap(x, x));
    assert(forall|x: T| #[trigger] aps(x, x));
}

/// What the comparator must accept, it may pass; and what it must reject in
/// one direction, it may pass in the other.
pub proof fn lemma_verdict_precedes<T, F: Fn(&T, &T) -> bool>(f: F, a: T, b: T)
    ensures
        always_accepts(f, a, b) ==> always_precedes(f)(a, b) && always_precedes_strict(f)(a, b),
        always_rejects(f, b, a) ==> always_precedes(f)(a, b) && always_precedes_strict(f)(a, b),
        always_rejects_strict(f, b, a) ==> always_precedes_strict(f)(a, b),
{
}

/// A pair the comparator must accept is rejected in the reverse direction by
/// every strict relation it decides.
pub proof fn lemma_accepts_asymmetric<T, F: Fn(&T, &T) -> bool>(f: F, a: T, b: T)
    requires
        always_accepts(f, a, b),
    ensures
        always_rejects_strict(f, b, a),
{
}

/// A pair the comparator must reject outright is also rejected by every
/// strict relation it decides.
pub proof fn lemma_rejects_strict<T, F: Fn(&T, &T) -> bool>(f: F, a: T, b: T)
    requires
        always_rejects(f, a, b),
    ensures
        always_rejects_strict(f, a, b),
{
}

/// For the strict relations a comparator decides, "not before" is
/// transitive.
pub proof fn lemma_rejects_negative_transitive<T, F: Fn(&T, &T) -> bool>(f: F, x: T, y: T, z: T)
    requires
        always_rejects_strict(f, x, y),
        always_rejects_strict(f, y, z),
    ensures
        always_rejects_strict(f, x, z),
{
    assert forall|c: spec_fn(T, T) -> bool|
        #[trigger] decides(f, c) && strict_order(c) implies !c(x, z) by {
        lemma_strict_negative_transitive(c);
        assert(!c(x, y));
        assert(!c(y, z));
    }
}

/// A strict comparator never accepts a pair of equal elements.
pub proof fn lemma_strict_no_self_accept<T, F: Fn(&T, &T) -> bool>(f: F, x: T)
    requires
        strict_comparator(f),
    ensures
        !always_accepts(f, x, x),
{
    let c = choose|c: spec_fn(T, T) -> bool| #[trigger] decides(f, c) && strict_order(c);
    if always_accepts(f, x, x) {
        assert(c(x, x));
    }
}

/// A strict comparator is also a comparator every algorithm accepts.
pub proof fn lemma_strict_is_sort<T, F: Fn(&T, &T) -> bool>(f: F)
    requires
        strict_comparator(f),
    ensures
        sort_comparator(f),
{
    let c = choose|c: spec_fn(T, T) -> bool| #[trigger] decides(f, c) && strict_order(c);
    assert(decides(f, c) && sort_order(c));
}

/// The quantified forms of the verdict lemmas, for use as ambient facts
/// inside a proof: what the comparator must accept or reject orders the pair
/// under every relation it decides, rejection in the strict relations is
/// transitive, and no strict relation accepts a pair of equal elements.
pub proof fn lemma_verdicts_ambient<T, F: Fn(&T, &T) -> bool>(f: F)
    ensures
        forall|a: T, b: T|
            #[trigger] always_accepts(f, a, b) ==> always_precedes(f)(a, b)
                && always_precedes_strict(f)(a, b) && always_rejects_strict(f, b, a),
        forall|a: T, b: T|
            #[trigger] always_rejects(f, a, b) ==> always_precedes(f)(b, a)
                && always_precedes_strict(f)(b, a) && always_rejects_strict(f, a, b),
        forall|a: T, b: T|
            #[trigger] always_rejects_strict(f, a, b) ==> always_precedes_strict(f)(b, a),
        forall|x: T, y: T, z: T|
            #![trigger always_rejects_strict(f, x, y), always_rejects_strict(f, y, z)]
            always_rejects_strict(f, x, y) && always_rejects_strict(f, y, z)
                ==> always_rejects_strict(f, x, z),
        forall|x: T| #[trigger] always_rejects_strict(f, x, x),
{
    assert forall|a: T, b: T| #[trigger] always_accepts(f, a, b) implies always_precedes(f)(a, b)
        && always_precedes_strict(f)(a, b) && always_rejects_strict(f, b, a) by {
        lemma_verdict_precedes(f, a, b);
        lemma_accepts_asymmetric(f, a, b);
    }
    assert forall|a: T, b: T| #[trigger] always_rejects(f, a, b) implies always_precedes(f)(b, a)
        && always_precedes_strict(f)(b, a) && always_rejects_strict(f, a, b) by {
        lemma_verdict_precedes(f, b, a);
        lemma_rejects_strict(f, a, b);
    }
    assert forall|a: T, b: T| #[trigger] always_rejects_strict(f, a, b) implies always_precedes_strict(
        f,
    )(b, a) by {
        lemma_verdict_precedes(f, b, a);
    }
    assert forall|x: T, y: T, z: T|
        always_rejects_strict(f, x, y) && #[trigger] always_rejects_strict(f, x, y)
            && #[trigger] always_rejects_strict(f, y, z) implies always_rejects_strict(
        f,
        x,
        z,
    ) by {
        lemma_rejects_negative_transitive(f, x, y, z);
    }
    assert forall|x: T| #[trigger] always_rejects_strict(f, x, x) by {
        assert forall|c: spec_fn(T, T) -> bool|
            #[trigger] decides(f, c) && strict_order(c) implies !c(x, x) by {
            if c(x, x) {
                assert(!c(x, x));
            }
        }
    }
}

/// A sequence sorted for every relation a comparator decides is sorted for
/// each relation the caller knows the comparator to decide.
pub proof fn lemma_sorted_for_decider<T, F: Fn(&T, &T) -> bool>(
    f: F,
    c: spec_fn(T, T) -> bool,
    s: Seq<T>,
)
    requires
        decides(f, c),
        sort_order(c),
        sorted_by(s, always_precedes(f)),
    ensures
        sorted_by(s, may_precede(c)),
{
    assert forall|i: int, j: int| 0 <= i < j < s.len() implies #[trigger] may_precede(c)(
        s[i],
        s[j],
    ) by {
        assert(always_precedes(f)(s[i], s[j]));
    }
}

/// As [`lemma_sorted_for_decider`], for the output of the strict algorithms.
pub proof fn lemma_sorted_for_strict_decider<T, F: Fn(&T, &T) -> bool>(
    f: F,
    c: spec_fn(T, T) -> bool,
    s: Seq<T>,
)
    requires
        decides(f, c),
        strict_order(c),
        sorted_by(s, always_precedes_strict(f)),
    ensures
        sorted_by(s, may_precede(c)),
{
    assert forall|i: int, j: int| 0 <= i < j < s.len() implies #[trigger] may_precede(c)(
        s[i],
        s[j],
    ) by {
        assert(always_precedes_strict(f)(s[i], s[j]));
    }
}

/// Whether every adjacent pair of `s` is accepted by the relation `c`.
pub open spec fn pairwise_accepted<T>(s: Seq<T>, c: spec_fn(T, T) -> bool) -> bool {
    forall|k: int| 0 < k < s.len() ==> c(#[trigger] s[k - 1], s[k])
}

/// Reports whether every adjacent pair of `list` is accepted by the
/// comparator: the adjacent-pair reading of sortedness, under every relation
/// the comparator decides.
pub fn is_sorted<U, T>(list: &Vec<T>, in_order: U) -> (r: bool) where U: Fn(&T, &T) -> bool
    requires
        comparator_callable(in_order),
    ensures
        forall|c: spec_fn(T, T) -> bool|
            #[trigger] decides(in_order, c) ==> r == pairwise_accepted(list@, c),
{
    let mut output = true;
    let ghost mut bad: int = 0;
    let mut i: usize = 1;
    while i < list.len() && output
        invariant
            1 <= i,
            i <= list.len() || list.len() <= 1,
            comparator_callable(in_order),
            output ==> forall|c: spec_fn(T, T) -> bool| #[trigger] decides(in_order, c)
                ==> forall|k: int| 0 < k < i ==> c(#[trigger] list@[k - 1], list@[k]),
            !output ==> 0 < bad < list@.len() && (forall|c: spec_fn(T, T) -> bool|
                #[trigger] decides(in_order, c) ==> !c(list@[bad - 1], list@[bad])),
        decreases list@.len() - i + (if output { 1int } else { 0int }),
    {
        if !in_order(&list[i - 1], &list[i]) {
            output = false;
            proof {
                bad = i as int;
            }
        } else {
            i += 1;
        }
    }
    output
}

/// The order [`may_precede`] relates every pair of elements, in one direction
/// or the other, whatever the comparator relation is.
pub proof fn lemma_may_precede_total<T>(c: spec_fn(T, T) -> bool)
    ensures
        strongly_connected(may_precede(c)),
        reflexive(may_precede(c)),
{
}

proof fn lemma_adjacent_chain<T>(s: Seq<T>, le: spec_fn(T, T) -> bool, i: int, j: int)
    requires
        transitive(le),
        forall|k: int| 0 < k < s.len() ==> le(#[trigger] s[k - 1], s[k]),
        0 <= i < j < s.len(),
    ensures
        le(s[i], s[j]),
    decreases j - i,
{
    if i + 1 < j {
        lemma_adjacent_chain(s, le, i, j - 1);
        assert(le(s[j - 1], s[j]));
    } else {
        assert(le(s[j - 1], s[j]));
    }
}

/// A sequence whose adjacent pairs stand in a transitive order is sorted
/// under that order.
pub proof fn lemma_sorted_from_adjacent<T>(s: Seq<T>, le: spec_fn(T, T) -> bool)
    requires
        transitive(le),
        forall|k: int| 0 < k < s.len() ==> le(#[trigger] s[k - 1], s[k]),
    ensures
        sorted_by(s, le),
{
    assert forall|i: int, j: int| 0 <= i < j < s.len() implies #[trigger] le(s[i], s[j]) by {
        lemma_adjacent_chain(s, le, i, j);
    }
}

/// When the comparator relation itself is total, a sequence sorted under
/// [`may_precede`] has every adjacent pair accepted by the comparator.
pub proof fn lemma_sorted_adjacent_pairs<T>(s: Seq<T>, c: spec_fn(T, T) -> bool)
    requires
        sorted_by(s, may_precede(c)),
        strongly_connected(c),
    ensures
        pairwise_accepted(s, c),
{
    assert forall|k: int| 0 < k < s.len() implies c(#[trigger] s[k - 1], s[k]) by {
        assert(may_precede(c)(s[k - 1], s[k]));
        assert(c(s[k - 1], s[k]) || c(s[k], s[k - 1]));
    }
}

/// For a strict comparator relation, "not before" is transitive.
pub proof fn lemma_strict_negative_transitive<T>(c: spec_fn(T, T) -> bool)
    requires
        asymmetric(c),
        transitive(may_precede(c)),
    ensures
        forall|x: T, y: T, z: T|
            #![trigger c(x, y), c(y, z)]
            !c(x, y) && !c(y, z) ==> !c(x, z),
{
    assert forall|x: T, y: T, z: T|
        #![trigger c(x, y), c(y, z)]
        !c(x, y) && !c(y, z) implies !c(x, z) by {
        assert(may_precede(c)(z, y));
        assert(may_precede(c)(y, x));
        assert(may_precede(c)(z, x));
    }
}

/// Two sequences sorted under the same antisymmetric order and holding the
/// same elements are equal: a sort's output is determined by its input, and
/// sorting an already-sorted sequence returns it unchanged.
pub proof fn lemma_sorted_permutation_equal<T>(s: Seq<T>, t: Seq<T>, c: spec_fn(T, T) -> bool)
    requires
        transitive(may_precede(c)),
        antisymmetric(may_precede(c)),
        sorted_by(s, may_precede(c)),
        sorted_by(t, may_precede(c)),
        s.to_multiset() == t.to_multiset(),
    ensures
        s == t,
{
    lemma_may_precede_total(c);
    vstd::seq_lib::lemma_sorted_unique(s, t, may_precede(c));
    assert(s =~= t);
}

/// A permutation of the empty sequence is empty.
pub proof fn lemma_permutation_of_empty<T>(s: Seq<T>, t: Seq<T>)
    requires
        s.to_multiset() == t.to_multiset(),
        s.len() == 0,
    ensures
        t == s,
{
    broadcast use vstd::seq_lib::group_to_multiset_ensures;

    assert(s.to_multiset().len() == s.len());
    assert(t.to_multiset().len() == t.len());
    assert(t =~= s);
}

/// A permutation of a one-element sequence is that sequence itself.
pub proof fn lemma_permutation_of_singleton<T>(s: Seq<T>, t: Seq<T>)
    requires
        s.to_multiset() == t.to_multiset(),
        s.len() == 1,
    ensures
        t == s,
{
    broadcast use vstd::seq_lib::group_to_multiset_ensures;

    assert(s.to_multiset().len() == s.len());
    assert(t.to_multiset().len() == t.len());
    assert(t.contains(t[0]));
    assert(t.to_multiset().count(t[0]) > 0);
    assert(s.to_multiset().count(t[0]) > 0);
    assert(s.contains(t[0]));
    assert(t =~= s);
}

/// Every element of a permutation occurs in the original sequence.
pub proof fn lemma_permutation_elements<T>(s: Seq<T>, t: Seq<T>)
    requires
        s.to_multiset() == t.to_multiset(),
    ensures
        forall|k: int| 0 <= k < t.len() ==> s.contains(#[trigger] t[k]),
{
    broadcast use vstd::seq_lib::group_to_multiset_ensures;

    assert forall|k: int| 0 <= k < t.len() implies s.contains(#[trigger] t[k]) by {
        assert(t.contains(t[k]));
        assert(t.to_multiset().count(t[k]) > 0);
        assert(s.to_multiset().count(t[k]) > 0);
    }
}

/// Exchanging two positions of a sequence leaves its multiset of elements
/// unchanged.
pub proof fn lemma_swap_preserves_multiset<T>(s: Seq<T>, i: int, j: int)
    requires
        0 <= i < s.len(),
        0 <= j < s.len(),
    ensures
        s.update(i, s[j]).update(j, s[i]).to_multiset() == s.to_multiset(),
{
    broadcast use vstd::seq_lib::group_to_multiset_ensures;
    broadcast use vstd::multiset::group_multiset_axioms;

    if i == j {
        assert(s.update(i, s[j]).update(j, s[i]) =~= s);
    } else {
        let s1 = s.update(i, s[j]);
        assert(s1[j] == s[j]);
        assert(s1.to_multiset() =~= s.to_multiset().remove(s[i]).insert(s[j]));
        assert(s1.update(j, s[i]).to_multiset() =~= s1.to_multiset().remove(s[j]).insert(s[i]));
        assert(s1.update(j, s[i]).to_multiset() =~= s.to_multiset());
    }
}

/// A comparator taken by reference decides the same relations as the closure
/// it points at.
pub proof fn lemma_comparator_unref<T, U: Fn(&T, &T) -> bool>(f: &U)
    ensures
        comparator_callable::<T, U>(*f) ==> comparator_callable::<T, &U>(f),
        forall|c: spec_fn(T, T) -> bool|
            #[trigger] decides::<T, U>(*f, c) ==> decides::<T, &U>(f, c),
        forall|c: spec_fn(T, T) -> bool|
            #[trigger] decides::<T, &U>(f, c) ==> decides::<T, U>(*f, c),
        sort_comparator::<T, U>(*f) ==> sort_comparator::<T, &U>(f),
{
    if sort_comparator::<T, U>(*f) {
        let c = choose|c: spec_fn(T, T) -> bool| #[trigger] decides::<T, U>(*f, c)
            && sort_order(c);
        assert(decides::<T, &U>(f, c) && sort_order(c));
    }
}

/// `T::clone` produces values equal to their originals.  The sorts that copy
/// elements out of borrowed sequences need this to promise that their output
/// holds the very elements of the input.
pub open spec fn clone_exact<T: Clone>() -> bool {
    forall|a: T, b: T| #[trigger] cloned::<T>(a, b) ==> b == a
}

} // verus!
