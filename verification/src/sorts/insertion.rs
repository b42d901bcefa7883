//! In-place insertion sort.

use vstd::prelude::*;
use vstd::relations::{sorted_by, transitive};

use crate::order::{always_precedes, decides, lemma_always_precedes_transitive, sort_comparator};
use crate::vecops::swap_entries;

verus! {

/// Where an element lands in a sorted prefix: after the rightmost element
/// that may stay before it, so elements it ties with keep their places.
pub open spec fn insert_into<T>(s: Seq<T>, x: T, c: spec_fn(T, T) -> bool) -> Seq<T>
    decreases s.len(),
{
    if s.len() == 0 {
        seq![x]
    } else if c(s.last(), x) {
        s.push(x)
    } else {
        insert_into(s.drop_last(), x, c).push(s.last())
    }
}

/// The exact sequence insertion sort produces for the relation `c`: each
/// element in turn inserted into the sorted prefix of those before it.
pub open spec fn insertion_sort_spec<T>(s: Seq<T>, c: spec_fn(T, T) -> bool) -> Seq<T>
    decreases s.len(),
{
    if s.len() == 0 {
        Seq::empty()
    } else {
        insert_into(insertion_sort_spec(s.drop_last(), c), s.last(), c)
    }
}

proof fn lemma_insert_into_at<T>(s: Seq<T>, x: T, c: spec_fn(T, T) -> bool, j: int)
    requires
        0 <= j <= s.len(),
        j > 0 ==> c(s[j - 1], x),
        forall|k: int| j <= k < s.len() ==> !c(#[trigger] s[k], x),
    ensures
        insert_into(s, x, c) == s.subrange(0, j) + seq![x] + s.subrange(j, s.len() as int),
    decreases s.len(),
{
    if s.len() == 0 {
        assert(insert_into(s, x, c) =~= s.subrange(0, 0) + seq![x] + s.subrange(0, 0));
    } else if j == s.len() {
        assert(c(s.last(), x));
        assert(s.push(x) =~= s.subrange(0, j) + seq![x] + s.subrange(j, s.len() as int));
    } else {
        assert(!c(s.last(), x));
        let pre = s.drop_last();
        assert forall|k: int| j <= k < pre.len() implies !c(#[trigger] pre[k], x) by {
            assert(pre[k] == s[k]);
        }
        assert(j > 0 ==> pre[j - 1] == s[j - 1]);
        lemma_insert_into_at(pre, x, c, j);
        assert((pre.subrange(0, j) + seq![x] + pre.subrange(j, pre.len() as int)).push(s.last())
            =~= s.subrange(0, j) + seq![x] + s.subrange(j, s.len() as int));
    }
}

/// An already-sorted sequence is a fixed point of insertion sort: sorting
/// it again returns it unchanged, ties and all.
pub proof fn lemma_insertion_sorted_fixed<T>(s: Seq<T>, c: spec_fn(T, T) -> bool)
    requires
        sorted_by(s, c),
    ensures
        insertion_sort_spec(s, c) == s,
    decreases s.len(),
{
    if s.len() == 0 {
        assert(insertion_sort_spec(s, c) =~= s);
    } else {
        assert(sorted_by(s.drop_last(), c)) by {
            assert forall|a: int, b: int| 0 <= a < b < s.len() - 1 implies #[trigger] c(
                s.drop_last()[a],
                s.drop_last()[b],
            ) by {
                assert(s.drop_last()[a] == s[a]);
                assert(s.drop_last()[b] == s[b]);
                assert(c(s[a], s[b]));
            }
        }
        lemma_insertion_sorted_fixed(s.drop_last(), c);
        if s.len() == 1 {
            assert(insert_into(Seq::<T>::empty(), s.last(), c) == seq![s.last()]);
            assert(seq![s.last()] =~= s);
        } else {
            assert(c(s[s.len() - 2], s[s.len() - 1]));
            assert(s.drop_last().last() == s[s.len() - 2]);
            assert(insert_into(s.drop_last(), s.last(), c) == s.drop_last().push(s.last()));
            assert(s.drop_last().push(s.last()) =~= s);
        }
    }
}

/// Sorts `list` in place: each element in turn is shifted backward through
/// the already-sorted prefix until it is in order.
///
/// # Params
/// - `list` - The `Vec` to sort.
/// - `in_order` - The closure to use to sort the array.  Determines if its
///   first argument may come before its second argument.
pub fn insertion_sort<T, U>(list: &mut Vec<T>, in_order: U) where U: Fn(&T, &T) -> bool
    requires
        sort_comparator(in_order),
    ensures
        final(list)@.to_multiset() == old(list)@.to_multiset(),
        final(list)@.len() == old(list)@.len(),
        sorted_by(final(list)@, always_precedes(in_order)),
        forall|c: spec_fn(T, T) -> bool|
            #[trigger] decides(in_order, c) ==> final(list)@ == insertion_sort_spec(
                old(list)@,
                c,
            ),
{
    let ghost le = always_precedes(in_order);
    proof {
        lemma_always_precedes_transitive(in_order);
    }
    if list.len() <= 1 {
        proof {
            assert forall|c: spec_fn(T, T) -> bool| #[trigger] decides(in_order, c) implies list@
                == insertion_sort_spec(list@, c) by {
                if list@.len() == 1 {
                    assert(insertion_sort_spec(list@.drop_last(), c) == Seq::<T>::empty());
                    assert(insert_into(Seq::<T>::empty(), list@.last(), c) == seq![list@.last()]);
                    assert(seq![list@.last()] =~= list@);
                }
            }
        }
        return ;
    }
    let mut i: usize = 1;
    proof {
        assert forall|c: spec_fn(T, T) -> bool| #[trigger] decides(in_order, c) implies list@
            .subrange(0, 1) == insertion_sort_spec(list@.subrange(0, 1), c) by {
            let s1 = list@.subrange(0, 1);
            assert(insertion_sort_spec(s1.drop_last(), c) == Seq::<T>::empty());
            assert(insert_into(Seq::<T>::empty(), s1.last(), c) == seq![s1.last()]);
            assert(seq![s1.last()] =~= s1);
        }
    }
    while i < list.len()
        invariant
            sort_comparator(in_order),
            le == always_precedes(in_order),
            transitive(le),
            1 <= i <= list@.len(),
            list@.len() == old(list)@.len(),
            list@.to_multiset() == old(list)@.to_multiset(),
            sorted_by(list@.subrange(0, i as int), le),
            forall|k: int| i as int <= k < list@.len() ==> list@[k] == old(list)@[k],
            forall|c: spec_fn(T, T) -> bool|
                #[trigger] decides(in_order, c) ==> list@.subrange(0, i as int)
                    == insertion_sort_spec(old(list)@.subrange(0, i as int), c),
        decreases list@.len() - i,
    {
        let mut j: usize = i;
        let ghost pre_fix = list@.subrange(0, i as int);
        let ghost x = list@[i as int];
        proof {
            assert forall|a: int, b: int| 0 <= a < b < i as int implies le(
                #[trigger] list@[a],
                #[trigger] list@[b],
            ) by {
                assert(pre_fix[a] == list@[a]);
                assert(pre_fix[b] == list@[b]);
                assert(le(pre_fix[a], pre_fix[b]));
            }
        }
        while j >= 1 && !in_order(&list[j - 1], &list[j])
            invariant
                sort_comparator(in_order),
                le == always_precedes(in_order),
                transitive(le),
                0 <= j <= i < list@.len(),
                list@.len() == old(list)@.len(),
                list@.to_multiset() == old(list)@.to_multiset(),
                pre_fix.len() == i as int,
                list@.subrange(0, j as int) == pre_fix.subrange(0, j as int),
                list@[j as int] == x,
                list@.subrange(j as int + 1, i as int + 1) == pre_fix.subrange(
                    j as int,
                    i as int,
                ),
                forall|k: int| (i as int) < k && k < list@.len() ==> list@[k] == old(list)@[k],
                forall|c: spec_fn(T, T) -> bool, k: int|
                    #![trigger decides(in_order, c), pre_fix[k]]
                    decides(in_order, c) && j as int <= k < i as int ==> !c(pre_fix[k], x),
                forall|a: int, b: int|
                    0 <= a < b <= i as int && a != j as int && b != j as int ==> le(
                        #[trigger] list@[a],
                        #[trigger] list@[b],
                    ),
                forall|b: int| j < b <= i as int ==> le(list@[j as int], #[trigger] list@[b]),
            decreases j,
        {
            proof {
                assert(list@[j - 1] == pre_fix[j - 1]) by {
                    assert(list@.subrange(0, j as int)[j - 1] == list@[j - 1]);
                    assert(pre_fix.subrange(0, j as int)[j - 1] == pre_fix[j - 1]);
                }
                assert(le(list@[j as int], list@[j - 1]));
            }
            let ghost before = list@;
            swap_entries(list, j - 1, j);
            proof {
                assert forall|m: int| 0 <= m < j as int - 1 implies #[trigger] list@.subrange(
                    0,
                    j as int - 1,
                )[m] == pre_fix.subrange(0, j as int - 1)[m] by {
                    assert(list@[m] == before[m]);
                    assert(before.subrange(0, j as int)[m] == before[m]);
                    assert(pre_fix.subrange(0, j as int)[m] == pre_fix[m]);
                }
                assert(list@.subrange(0, j as int - 1) =~= pre_fix.subrange(0, j as int - 1));
                assert(list@[j as int - 1] == x);
                assert forall|m: int| 0 <= m < i as int + 1 - j as int implies #[trigger] list@
                    .subrange(j as int, i as int + 1)[m] == pre_fix.subrange(
                    j as int - 1,
                    i as int,
                )[m] by {
                    if m == 0 {
                        assert(list@[j as int] == before[j as int - 1]);
                        assert(before.subrange(0, j as int)[j as int - 1] == before[j as int
                            - 1]);
                        assert(pre_fix.subrange(0, j as int)[j as int - 1] == pre_fix[j as int
                            - 1]);
                    } else {
                        assert(list@[j as int + m] == before[j as int + m]);
                        assert(before.subrange(j as int + 1, i as int + 1)[m - 1] == before[j
                            as int + m]);
                        assert(pre_fix.subrange(j as int, i as int)[m - 1] == pre_fix[j as int
                            + m - 1]);
                    }
                }
                assert(list@.subrange(j as int, i as int + 1) =~= pre_fix.subrange(
                    j as int - 1,
                    i as int,
                ));
            }
            j -= 1;
        }
        proof {
            let prefix1 = list@.subrange(0, i as int + 1);
            assert forall|a: int, b: int| 0 <= a < b < prefix1.len() implies le(
                #[trigger] prefix1[a],
                #[trigger] prefix1[b],
            ) by {
                assert(prefix1[a] == list@[a]);
                assert(prefix1[b] == list@[b]);
                if b == j && a < j {
                    assert(le(list@[j - 1], list@[j as int]));
                    if a < j - 1 {
                        assert(le(list@[a], list@[j - 1]));
                    }
                }
            }
            assert forall|c: spec_fn(T, T) -> bool| #[trigger] decides(in_order, c) implies list@
                .subrange(0, i as int + 1) == insertion_sort_spec(
                old(list)@.subrange(0, i as int + 1),
                c,
            ) by {
                if j >= 1 {
                    assert(list@[j - 1] == pre_fix[j - 1]) by {
                        assert(list@.subrange(0, j as int)[j - 1] == list@[j - 1]);
                        assert(pre_fix.subrange(0, j as int)[j - 1] == pre_fix[j - 1]);
                    }
                    assert(c(pre_fix[j - 1], x));
                }
                assert(forall|k: int| j as int <= k < pre_fix.len() ==> !c(#[trigger] pre_fix[k], x));
                lemma_insert_into_at(pre_fix, x, c, j as int);
                assert(prefix1 =~= pre_fix.subrange(0, j as int) + seq![x] + pre_fix.subrange(
                    j as int,
                    i as int,
                )) by {
                    assert(forall|k: int|
                        0 <= k < j as int ==> #[trigger] prefix1[k] == list@.subrange(
                            0,
                            j as int,
                        )[k]);
                    assert(forall|k: int|
                        (j as int) + 1 <= k < i as int + 1 ==> #[trigger] prefix1[k] == list@
                            .subrange(j as int + 1, i as int + 1)[k - j - 1]);
                }
                assert(prefix1 == insert_into(pre_fix, x, c));
                let whole = old(list)@.subrange(0, i as int + 1);
                assert(whole.drop_last() =~= old(list)@.subrange(0, i as int));
                assert(whole.last() == old(list)@[i as int]);
                assert(x == old(list)@[i as int]);
                assert(pre_fix == insertion_sort_spec(old(list)@.subrange(0, i as int), c));
                assert(insertion_sort_spec(whole, c) == insert_into(
                    insertion_sort_spec(whole.drop_last(), c),
                    whole.last(),
                    c,
                ));
            }
        }
        i += 1;
    }
    proof {
        assert(list@.subrange(0, list@.len() as int) =~= list@);
        assert(old(list)@.subrange(0, old(list)@.len() as int) =~= old(list)@);
    }
}

} // verus!
