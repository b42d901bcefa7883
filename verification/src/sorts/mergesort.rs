//! Top-down merge sort, and the k-way merge primitive it is built on.
//!
//! The merge primitive works over a vector of cursors, one per input
//! sequence: [`find_next_element`] scans the current front element of every
//! input, picks the one that must come first under the comparator (the
//! leftmost source wins ties), and advances that cursor.

use vstd::arithmetic::div_mod::{lemma_fundamental_div_mod, lemma_mod_bound};
use vstd::arithmetic::mul::lemma_mul_inequality;
use vstd::multiset::Multiset;
use vstd::prelude::*;
use vstd::relations::{reflexive, sorted_by, transitive};

use crate::order::{
    always_precedes, clone_exact, decides, lemma_always_precedes_transitive,
    lemma_strict_order_properties, lemma_total_order_properties, sort_comparator, strict_order,
    total_order,
};
use crate::vecops::{clone_value, subvec};

verus! {

/// Every cursor is within bounds of its sequence.
pub open spec fn cursors_ok<T>(s: Seq<(usize, &Vec<T>)>) -> bool {
    forall|k: int| 0 <= k < s.len() ==> (#[trigger] s[k]).0 <= s[k].1@.len()
}

/// The elements already consumed: the union, over all cursors, of each
/// sequence's prefix up to its cursor.
pub open spec fn consumed_multiset<T>(s: Seq<(usize, &Vec<T>)>) -> Multiset<T>
    decreases s.len(),
{
    if s.len() == 0 {
        Multiset::empty()
    } else {
        consumed_multiset(s.drop_last()).add(
            s.last().1@.subrange(0, s.last().0 as int).to_multiset(),
        )
    }
}

/// The union of all elements of all the sequences under the cursors.
pub open spec fn total_multiset<T>(s: Seq<(usize, &Vec<T>)>) -> Multiset<T>
    decreases s.len(),
{
    if s.len() == 0 {
        Multiset::empty()
    } else {
        total_multiset(s.drop_last()).add(s.last().1@.to_multiset())
    }
}

/// The views of the sequences under a cursor vector, as plain sequences.
pub open spec fn views_of<T>(s: Seq<(usize, &Vec<T>)>) -> Seq<Seq<T>> {
    s.map_values(|p: (usize, &Vec<T>)| p.1@)
}

/// The cursor positions of a cursor vector, as plain integers.
pub open spec fn cursors_of<T>(s: Seq<(usize, &Vec<T>)>) -> Seq<int> {
    s.map_values(|p: (usize, &Vec<T>)| p.0 as int)
}

/// One cursor per source, each within bounds of its source.
pub open spec fn cursors_within<T>(views: Seq<Seq<T>>, cursors: Seq<int>) -> bool {
    &&& cursors.len() == views.len()
    &&& forall|k: int| 0 <= k < views.len() ==> 0 <= #[trigger] cursors[k] <= views[k].len()
}

/// The source whose front the scan of [`find_next_element`] takes, among the
/// first `upto` sources: the leftmost unexhausted source becomes the
/// candidate, and a later source replaces it exactly when the candidate's
/// front may not stand before that source's front — so the leftmost source
/// wins ties.  `-1` when the first `upto` sources are all exhausted.
pub open spec fn scan_choice<T>(
    views: Seq<Seq<T>>,
    cursors: Seq<int>,
    c: spec_fn(T, T) -> bool,
    upto: int,
) -> int
    decreases upto,
{
    if upto <= 0 {
        -1
    } else {
        let prev = scan_choice(views, cursors, c, upto - 1);
        if cursors[upto - 1] >= views[upto - 1].len() {
            prev
        } else if prev == -1 {
            upto - 1
        } else if !c(views[prev][cursors[prev]], views[upto - 1][cursors[upto - 1]]) {
            upto - 1
        } else {
            prev
        }
    }
}

proof fn lemma_scan_choice_valid<T>(
    views: Seq<Seq<T>>,
    cursors: Seq<int>,
    c: spec_fn(T, T) -> bool,
    upto: int,
)
    requires
        cursors_within(views, cursors),
        0 <= upto <= views.len(),
    ensures
        scan_choice(views, cursors, c, upto) == -1 ==> forall|k: int|
            0 <= k < upto ==> #[trigger] cursors[k] == views[k].len(),
        scan_choice(views, cursors, c, upto) != -1 ==> {
            &&& 0 <= scan_choice(views, cursors, c, upto) < upto
            &&& cursors[scan_choice(views, cursors, c, upto)] < views[scan_choice(
                views,
                cursors,
                c,
                upto,
            )].len()
        },
    decreases upto,
{
    if upto > 0 {
        lemma_scan_choice_valid(views, cursors, c, upto - 1);
    }
}

/// The leftmost source wins ties: for a tie-accepting or strict relation,
/// the front the scan chooses is rejected by no later unexhausted front, and
/// every earlier unexhausted front is rejected before it — so among the
/// fronts that could come first, the one with the smallest source index is
/// taken.
pub proof fn lemma_scan_choice_leftmost<T>(
    views: Seq<Seq<T>>,
    cursors: Seq<int>,
    c: spec_fn(T, T) -> bool,
    upto: int,
)
    requires
        cursors_within(views, cursors),
        0 <= upto <= views.len(),
        total_order(c) || strict_order(c),
    ensures
        ({
            let ch = scan_choice(views, cursors, c, upto);
            forall|k: int|
                0 <= k < upto && #[trigger] cursors[k] < views[k].len() && k != ch ==> if k < ch {
                    !c(views[k][cursors[k]], views[ch][cursors[ch]])
                } else {
                    c(views[ch][cursors[ch]], views[k][cursors[k]])
                }
        }),
    decreases upto,
{
    if total_order(c) {
        lemma_total_order_properties(c);
    } else {
        lemma_strict_order_properties(c);
    }
    if upto > 0 {
        lemma_scan_choice_valid(views, cursors, c, upto - 1);
        lemma_scan_choice_leftmost(views, cursors, c, upto - 1);
        let prev = scan_choice(views, cursors, c, upto - 1);
        let ch = scan_choice(views, cursors, c, upto);
        assert forall|k: int|
            0 <= k < upto && #[trigger] cursors[k] < views[k].len() && k != ch implies if k < ch {
            !c(views[k][cursors[k]], views[ch][cursors[ch]])
        } else {
            c(views[ch][cursors[ch]], views[k][cursors[k]])
        } by {
            let fk = views[k][cursors[k]];
            let fch = views[ch][cursors[ch]];
            if k == upto - 1 {
                // the last source was scanned and the candidate kept
                assert(ch == prev);
                assert(c(views[prev][cursors[prev]], fk));
            } else if ch == upto - 1 {
                // the last source's front replaced the candidate
                let fprev = views[prev][cursors[prev]];
                assert(!c(fprev, fch));
                if k == prev {
                } else if k < prev {
                    assert(!c(fk, fprev));
                    assert(!c(fk, fch));
                } else {
                    assert(c(fprev, fk));
                    if c(fk, fch) {
                        assert(c(fprev, fch));
                    }
                }
            } else {
                assert(ch == prev);
            }
        }
    }
}

/// How many elements remain under the cursors.
pub open spec fn remaining_of<T>(views: Seq<Seq<T>>, cursors: Seq<int>) -> int
    decreases views.len(),
{
    if views.len() == 0 {
        0
    } else {
        remaining_of(views.drop_last(), cursors.drop_last()) + views.last().len() - cursors[views.len()
            - 1]
    }
}

proof fn lemma_remaining_of_nonneg<T>(views: Seq<Seq<T>>, cursors: Seq<int>)
    requires
        cursors_within(views, cursors),
    ensures
        remaining_of(views, cursors) >= 0,
    decreases views.len(),
{
    if views.len() > 0 {
        assert(cursors_within(views.drop_last(), cursors.drop_last())) by {
            assert(forall|k: int|
                0 <= k < views.len() - 1 ==> #[trigger] cursors.drop_last()[k] == cursors[k]);
            assert(forall|k: int|
                0 <= k < views.len() - 1 ==> #[trigger] views.drop_last()[k] == views[k]);
        }
        lemma_remaining_of_nonneg(views.drop_last(), cursors.drop_last());
    }
}

proof fn lemma_remaining_of_advance<T>(views: Seq<Seq<T>>, cursors: Seq<int>, sel: int)
    requires
        cursors.len() == views.len(),
        0 <= sel < views.len(),
    ensures
        remaining_of(views, cursors.update(sel, cursors[sel] + 1)) == remaining_of(
            views,
            cursors,
        ) - 1,
    decreases views.len(),
{
    let post = cursors.update(sel, cursors[sel] + 1);
    if sel == views.len() - 1 {
        assert(post.drop_last() =~= cursors.drop_last());
    } else {
        assert(post.drop_last() =~= cursors.drop_last().update(sel, cursors[sel] + 1));
        lemma_remaining_of_advance(views.drop_last(), cursors.drop_last(), sel);
    }
}

/// The sequence the cursor-driven merge emits: repeatedly take the front the
/// scan chooses and advance that cursor, until every source is exhausted.
pub open spec fn kmerge<T>(views: Seq<Seq<T>>, cursors: Seq<int>, c: spec_fn(T, T) -> bool) -> Seq<
    T,
>
    decreases remaining_of(views, cursors)
        when cursors_within(views, cursors)
        via kmerge_decreases::<T>
{
    let ch = scan_choice(views, cursors, c, views.len() as int);
    if ch == -1 {
        Seq::empty()
    } else {
        seq![views[ch][cursors[ch]]] + kmerge(views, cursors.update(ch, cursors[ch] + 1), c)
    }
}

#[via_fn]
proof fn kmerge_decreases<T>(views: Seq<Seq<T>>, cursors: Seq<int>, c: spec_fn(T, T) -> bool) {
    let ch = scan_choice(views, cursors, c, views.len() as int);
    if cursors_within(views, cursors) && ch != -1 {
        lemma_scan_choice_valid(views, cursors, c, views.len() as int);
        lemma_remaining_of_advance(views, cursors, ch);
        assert(cursors_within(views, cursors.update(ch, cursors[ch] + 1)));
        lemma_remaining_of_nonneg(views, cursors.update(ch, cursors[ch] + 1));
    }
}

proof fn lemma_cursorvec_abstraction<T>(s: Seq<(usize, &Vec<T>)>)
    requires
        cursors_ok(s),
    ensures
        cursors_within(views_of(s), cursors_of(s)),
        views_of(s).len() == s.len(),
        cursors_of(s).len() == s.len(),
        forall|k: int| 0 <= k < s.len() ==> #[trigger] views_of(s)[k] == s[k].1@,
        forall|k: int| 0 <= k < s.len() ==> #[trigger] cursors_of(s)[k] == s[k].0 as int,
{
    assert forall|k: int| 0 <= k < views_of(s).len() implies 0 <= #[trigger] cursors_of(s)[k]
        <= views_of(s)[k].len() by {
        assert((s[k]).0 <= s[k].1@.len());
    }
}

proof fn lemma_kmerge_right_only<T>(l: Seq<T>, r: Seq<T>, c: spec_fn(T, T) -> bool, j: int)
    requires
        0 <= j <= r.len(),
    ensures
        kmerge(seq![l, r], seq![l.len() as int, j], c) == r.skip(j),
    decreases r.len() - j,
{
    let vw = seq![l, r];
    let cu = seq![l.len() as int, j];
    assert(cursors_within(vw, cu));
    assert(scan_choice(vw, cu, c, 0) == -1);
    assert(scan_choice(vw, cu, c, 1) == -1);
    let ch = scan_choice(vw, cu, c, 2);
    if j < r.len() {
        assert(ch == 1);
        lemma_kmerge_right_only(l, r, c, j + 1);
        assert(cu.update(1, j + 1) =~= seq![l.len() as int, j + 1]);
        assert(seq![r[j]] + r.skip(j + 1) =~= r.skip(j));
    } else {
        assert(ch == -1);
        assert(r.skip(j) =~= Seq::<T>::empty());
    }
}

proof fn lemma_kmerge_left_only<T>(l: Seq<T>, r: Seq<T>, c: spec_fn(T, T) -> bool, i: int)
    requires
        0 <= i <= l.len(),
    ensures
        kmerge(seq![l, r], seq![i, r.len() as int], c) == l.skip(i),
    decreases l.len() - i,
{
    let vw = seq![l, r];
    let cu = seq![i, r.len() as int];
    assert(cursors_within(vw, cu));
    assert(scan_choice(vw, cu, c, 0) == -1);
    let ch = scan_choice(vw, cu, c, 2);
    if i < l.len() {
        assert(scan_choice(vw, cu, c, 1) == 0);
        assert(ch == 0);
        lemma_kmerge_left_only(l, r, c, i + 1);
        assert(cu.update(0, i + 1) =~= seq![i + 1, r.len() as int]);
        assert(seq![l[i]] + l.skip(i + 1) =~= l.skip(i));
    } else {
        assert(scan_choice(vw, cu, c, 1) == -1);
        assert(ch == -1);
        assert(l.skip(i) =~= Seq::<T>::empty());
    }
}

/// The empty sequence is an identity of the two-way merge: merging with an
/// empty side returns the other side element for element.
pub proof fn lemma_merge_empty_side<T>(l: Seq<T>, r: Seq<T>, c: spec_fn(T, T) -> bool)
    ensures
        l.len() == 0 ==> kmerge(seq![l, r], seq![0int, 0int], c) == r,
        r.len() == 0 ==> kmerge(seq![l, r], seq![0int, 0int], c) == l,
{
    if l.len() == 0 {
        lemma_kmerge_right_only(l, r, c, 0);
        assert(seq![l.len() as int, 0int] =~= seq![0int, 0int]);
        assert(r.skip(0) =~= r);
    }
    if r.len() == 0 {
        lemma_kmerge_left_only(l, r, c, 0);
        assert(seq![0int, r.len() as int] =~= seq![0int, 0int]);
        assert(l.skip(0) =~= l);
    }
}

/// What one successful step of [`find_next_element`] did: the cursor at
/// `sel` moved past `x`, every other cursor is unchanged, and `x` may precede
/// every element that was under a cursor, in the order `le`.
pub open spec fn advanced_at<T>(
    pre: Seq<(usize, &Vec<T>)>,
    post: Seq<(usize, &Vec<T>)>,
    x: T,
    le: spec_fn(T, T) -> bool,
    sel: int,
) -> bool {
    &&& 0 <= sel < pre.len()
    &&& (pre[sel].0 as int) < pre[sel].1@.len()
    &&& (pre[sel].0 as int) < usize::MAX
    &&& x == pre[sel].1@[pre[sel].0 as int]
    &&& post == pre.update(sel, (((pre[sel].0 + 1) as usize), pre[sel].1))
    &&& forall|k: int|
        0 <= k < pre.len() && ((#[trigger] pre[k]).0 as int) < pre[k].1@.len() ==> le(
            x,
            pre[k].1@[pre[k].0 as int],
        )
}

proof fn lemma_empty_to_multiset<T>()
    ensures
        Seq::<T>::empty().to_multiset() == Multiset::<T>::empty(),
{
    broadcast use vstd::multiset::group_multiset_axioms;

    assert forall|x: T| Seq::<T>::empty().to_multiset().count(x) == 0 by {
        broadcast use vstd::seq_lib::group_to_multiset_ensures;

        assert(!Seq::<T>::empty().contains(x));
    }
    assert(Seq::<T>::empty().to_multiset() =~= Multiset::<T>::empty());
}

proof fn lemma_consumed_advance<T>(pre: Seq<(usize, &Vec<T>)>, sel: int)
    requires
        0 <= sel < pre.len(),
        (pre[sel].0 as int) < pre[sel].1@.len(),
        (pre[sel].0 as int) < usize::MAX,
    ensures
        consumed_multiset(pre.update(sel, (((pre[sel].0 + 1) as usize), pre[sel].1)))
            == consumed_multiset(pre).insert(pre[sel].1@[pre[sel].0 as int]),
    decreases pre.len(),
{
    broadcast use vstd::seq_lib::group_to_multiset_ensures;
    broadcast use vstd::multiset::group_multiset_axioms;

    let post = pre.update(sel, (((pre[sel].0 + 1) as usize), pre[sel].1));
    if sel == pre.len() - 1 {
        assert(post.drop_last() =~= pre.drop_last());
        let lst = pre.last().1@;
        let cur = pre[sel].0 as int;
        assert(lst.subrange(0, cur + 1) =~= lst.subrange(0, cur).push(lst[cur]));
        assert(lst.subrange(0, cur + 1).to_multiset() =~= lst.subrange(
            0,
            cur,
        ).to_multiset().insert(lst[cur]));
        assert(consumed_multiset(post) == consumed_multiset(post.drop_last()).add(
            post.last().1@.subrange(0, post.last().0 as int).to_multiset(),
        ));
        assert(post.last().1@ == lst);
        assert(post.last().0 as int == cur + 1);
        assert(consumed_multiset(pre) == consumed_multiset(pre.drop_last()).add(
            lst.subrange(0, cur).to_multiset(),
        ));
        assert(consumed_multiset(post) =~= consumed_multiset(pre).insert(lst[cur]));
    } else {
        assert(post.drop_last() =~= pre.drop_last().update(
            sel,
            (((pre[sel].0 + 1) as usize), pre[sel].1),
        ));
        lemma_consumed_advance(pre.drop_last(), sel);
        assert(post.last() == pre.last());
        assert(consumed_multiset(post) =~= consumed_multiset(pre).insert(
            pre[sel].1@[pre[sel].0 as int],
        ));
    }
}

proof fn lemma_consumed_complete<T>(s: Seq<(usize, &Vec<T>)>)
    requires
        forall|k: int| 0 <= k < s.len() ==> (#[trigger] s[k]).0 == s[k].1@.len(),
    ensures
        consumed_multiset(s) == total_multiset(s),
    decreases s.len(),
{
    if s.len() > 0 {
        lemma_consumed_complete(s.drop_last());
        assert(s.last().1@.subrange(0, s.last().0 as int) =~= s.last().1@);
    }
}

/// Finds the element to add next (such as a minimum or maximum) across the
/// sequences under the cursors, and advances the cursor it came from.
///
/// # Params
/// - `indices` - A `Vec` of tuples, containing the (current index, list for
///   that index).  Keeps track of the current index into that `Vec` and also
///   the `Vec` itself.
/// - `in_order` - The closure that determines if its first argument comes
///   before its second argument.
///
/// # Returns
/// - `Some(T)` holding the next element, or `None` once every cursor has
///   reached the end of its sequence; beside it, the index of the cursor the
///   element came from, kept only for the proof.
fn find_next_element<'a, T, U>(indices: &mut Vec<(usize, &'a Vec<T>)>, in_order: &U) -> (out: (
    Option<T>,
    Ghost<int>,
)) where T: Clone, U: Fn(&T, &T) -> bool
    requires
        sort_comparator(*in_order),
        clone_exact::<T>(),
        cursors_ok(old(indices)@),
    ensures
        cursors_ok(final(indices)@),
        out.0 is None ==> final(indices)@ == old(indices)@,
        out.0 is None ==> forall|k: int|
            0 <= k < old(indices)@.len() ==> (#[trigger] old(indices)@[k]).0
                == old(indices)@[k].1@.len(),
        out.0 matches Some(x) ==> advanced_at(
            old(indices)@,
            final(indices)@,
            x,
            always_precedes(*in_order),
            out.1@,
        ),
        out.0 is None ==> forall|c: spec_fn(T, T) -> bool|
            #[trigger] decides(*in_order, c) ==> scan_choice(
                views_of(old(indices)@),
                cursors_of(old(indices)@),
                c,
                old(indices)@.len() as int,
            ) == -1,
        out.0 is Some ==> forall|c: spec_fn(T, T) -> bool|
            #[trigger] decides(*in_order, c) ==> scan_choice(
                views_of(old(indices)@),
                cursors_of(old(indices)@),
                c,
                old(indices)@.len() as int,
            ) == out.1@,
{
    let ghost le = always_precedes(*in_order);
    proof {
        lemma_always_precedes_transitive(*in_order);
    }
    let mut element_to_add: Option<&T> = None;
    let mut element_list_idx: Option<usize> = None;
    let mut i: usize = 0;
    while i < indices.len()
        invariant
            sort_comparator(*in_order),
            le == always_precedes(*in_order),
            transitive(le),
            reflexive(le),
            cursors_ok(indices@),
            0 <= i <= indices@.len(),
            element_to_add matches None <==> element_list_idx matches None,
            forall|c: spec_fn(T, T) -> bool|
                #[trigger] decides(*in_order, c) ==> scan_choice(
                    views_of(indices@),
                    cursors_of(indices@),
                    c,
                    i as int,
                ) == (match element_list_idx {
                    None => -1int,
                    Some(bi) => bi as int,
                }),
            element_to_add matches None ==> forall|k: int|
                0 <= k < i as int ==> (#[trigger] indices@[k]).0 == indices@[k].1@.len(),
            element_list_idx matches Some(bi) ==> {
                &&& 0 <= (bi as int) < i as int
                &&& ((#[trigger] indices@[bi as int]).0 as int) < indices@[bi as int].1@.len()
                &&& element_to_add matches Some(e) && *e == indices@[bi as int].1@[indices@[bi
                    as int].0 as int]
                &&& forall|k: int|
                    0 <= k < i as int && ((#[trigger] indices@[k]).0 as int)
                        < indices@[k].1@.len() ==> le(
                        indices@[bi as int].1@[indices@[bi as int].0 as int],
                        indices@[k].1@[indices@[k].0 as int],
                    )
            },
        decreases indices@.len() - i,
    {
        let pair = indices[i];
        let idx = pair.0;
        let list = pair.1;
        if idx < list.len() {
            // if we haven't taken an element or the current element is out of
            // the order we want
            if element_to_add.is_none() || !in_order(
                element_to_add.expect("Attempted to compare None value with element"),
                &list[idx],
            ) {
                proof {
                    let ii = i as int;
                    let here = indices@[ii].1@[indices@[ii].0 as int];
                    match element_list_idx {
                        Some(bi) => {
                            let there = indices@[bi as int].1@[indices@[bi as int].0 as int];
                            assert(le(here, there));
                            assert forall|k: int|
                                0 <= k < ii + 1 && ((#[trigger] indices@[k]).0 as int)
                                    < indices@[k].1@.len() implies le(
                                here,
                                indices@[k].1@[indices@[k].0 as int],
                            ) by {
                                if k < ii {
                                    assert(le(there, indices@[k].1@[indices@[k].0 as int]));
                                }
                            }
                        },
                        None => {},
                    }
                    let vw = views_of(indices@);
                    let cu = cursors_of(indices@);
                    assert forall|c: spec_fn(T, T) -> bool|
                        #[trigger] decides(*in_order, c) implies scan_choice(
                        vw,
                        cu,
                        c,
                        ii + 1,
                    ) == ii by {
                        assert(vw[ii] == indices@[ii].1@);
                        assert(cu[ii] == indices@[ii].0 as int);
                        match element_list_idx {
                            Some(bi) => {
                                assert(scan_choice(vw, cu, c, ii) == bi as int);
                                assert(vw[bi as int] == indices@[bi as int].1@);
                                assert(cu[bi as int] == indices@[bi as int].0 as int);
                                assert(!c(
                                    vw[bi as int][cu[bi as int]],
                                    vw[ii][cu[ii]],
                                ));
                            },
                            None => {
                                assert(scan_choice(vw, cu, c, ii) == -1);
                            },
                        }
                    }
                }
                // this is our new element to add
                element_to_add = Some(&list[idx]);
                element_list_idx = Some(i);
            } else {
                proof {
                    let ii = i as int;
                    match element_list_idx {
                        Some(bi) => {
                            assert(le(
                                indices@[bi as int].1@[indices@[bi as int].0 as int],
                                indices@[ii].1@[indices@[ii].0 as int],
                            ));
                        },
                        None => {},
                    }
                    let vw = views_of(indices@);
                    let cu = cursors_of(indices@);
                    assert forall|c: spec_fn(T, T) -> bool|
                        #[trigger] decides(*in_order, c) implies scan_choice(
                        vw,
                        cu,
                        c,
                        ii + 1,
                    ) == (match element_list_idx {
                        None => -1int,
                        Some(bi) => bi as int,
                    }) by {
                        assert(vw[ii] == indices@[ii].1@);
                        assert(cu[ii] == indices@[ii].0 as int);
                        match element_list_idx {
                            Some(bi) => {
                                assert(scan_choice(vw, cu, c, ii) == bi as int);
                                assert(vw[bi as int] == indices@[bi as int].1@);
                                assert(cu[bi as int] == indices@[bi as int].0 as int);
                                assert(c(vw[bi as int][cu[bi as int]], vw[ii][cu[ii]]));
                            },
                            None => {},
                        }
                    }
                }
            }
        } else {
            proof {
                let ii = i as int;
                let vw = views_of(indices@);
                let cu = cursors_of(indices@);
                assert forall|c: spec_fn(T, T) -> bool|
                    #[trigger] decides(*in_order, c) implies scan_choice(vw, cu, c, ii + 1) == (
                match element_list_idx {
                    None => -1int,
                    Some(bi) => bi as int,
                }) by {
                    assert(vw[ii] == indices@[ii].1@);
                    assert(cu[ii] == indices@[ii].0 as int);
                    assert(cu[ii] >= vw[ii].len());
                }
            }
        }
        i += 1;
    }
    let output = match element_to_add {
        None => (None, Ghost(0int)),
        Some(element) => {
            match element_list_idx {
                None => (None, Ghost(0int)),
                Some(old_idx) => {
                    // update the indices vec, as we have pulled out a value
                    let pair = indices[old_idx];
                    let new_idx = pair.0;
                    let vec_ref = pair.1;

                    let limit = vec_ref.len();
                    proof {
                        assert((new_idx as int) < limit as int);
                    }

                    // incrementing the index
                    indices.set(old_idx, (new_idx + 1, vec_ref));
                    let next = clone_value(element);
                    proof {
                        assert(advanced_at(
                            old(indices)@,
                            indices@,
                            next,
                            always_precedes(*in_order),
                            old_idx as int,
                        ));
                    }
                    (Some(next), Ghost(old_idx as int))
                },
            }
        },
    };
    output
}

/// How many elements are still under the cursors.
pub open spec fn remaining_count<T>(s: Seq<(usize, &Vec<T>)>) -> int
    decreases s.len(),
{
    if s.len() == 0 {
        0
    } else {
        remaining_count(s.drop_last()) + s.last().1@.len() - s.last().0
    }
}

proof fn lemma_remaining_nonneg<T>(s: Seq<(usize, &Vec<T>)>)
    requires
        cursors_ok(s),
    ensures
        remaining_count(s) >= 0,
    decreases s.len(),
{
    if s.len() > 0 {
        assert(cursors_ok(s.drop_last())) by {
            assert(forall|k: int|
                0 <= k < s.len() - 1 ==> s.drop_last()[k] == (#[trigger] s[k]));
        }
        lemma_remaining_nonneg(s.drop_last());
        assert((s[s.len() - 1].0 as int) <= s[s.len() - 1].1@.len());
    }
}

proof fn lemma_remaining_advance<T>(pre: Seq<(usize, &Vec<T>)>, sel: int)
    requires
        0 <= sel < pre.len(),
        (pre[sel].0 as int) < usize::MAX,
    ensures
        remaining_count(pre.update(sel, (((pre[sel].0 + 1) as usize), pre[sel].1)))
            == remaining_count(pre) - 1,
    decreases pre.len(),
{
    let post = pre.update(sel, (((pre[sel].0 + 1) as usize), pre[sel].1));
    if sel == pre.len() - 1 {
        assert(post.drop_last() =~= pre.drop_last());
    } else {
        assert(post.drop_last() =~= pre.drop_last().update(
            sel,
            (((pre[sel].0 + 1) as usize), pre[sel].1),
        ));
        lemma_remaining_advance(pre.drop_last(), sel);
        assert(post.last() == pre.last());
    }
}

proof fn lemma_total_same_sources<T>(s: Seq<(usize, &Vec<T>)>, t: Seq<(usize, &Vec<T>)>)
    requires
        s.len() == t.len(),
        forall|k: int| 0 <= k < s.len() ==> (#[trigger] s[k]).1 == t[k].1,
    ensures
        total_multiset(s) == total_multiset(t),
    decreases s.len(),
{
    if s.len() > 0 {
        assert(forall|k: int|
            0 <= k < s.len() - 1 ==> (#[trigger] s.drop_last()[k]).1 == t.drop_last()[k].1);
        lemma_total_same_sources(s.drop_last(), t.drop_last());
        assert(s.last().1 == t.last().1);
    }
}

/// Drains every source: repeatedly takes the next element across all cursors
/// and appends it, until all cursors reach their sequence ends.
fn merge_from_sources<'a, T, U>(indices: &mut Vec<(usize, &'a Vec<T>)>, in_order: &U) -> (merged:
    Vec<T>) where T: Clone, U: Fn(&T, &T) -> bool
    requires
        sort_comparator(*in_order),
        clone_exact::<T>(),
        forall|k: int| 0 <= k < old(indices)@.len() ==> (#[trigger] old(indices)@[k]).0 == 0,
        forall|k: int|
            0 <= k < old(indices)@.len() ==> sorted_by(
                (#[trigger] old(indices)@[k]).1@,
                always_precedes(*in_order),
            ),
    ensures
        merged@.to_multiset() == total_multiset(old(indices)@),
        sorted_by(merged@, always_precedes(*in_order)),
        forall|c: spec_fn(T, T) -> bool|
            #[trigger] decides(*in_order, c) ==> merged@ == kmerge(
                views_of(old(indices)@),
                cursors_of(old(indices)@),
                c,
            ),
{
    broadcast use vstd::seq_lib::group_to_multiset_ensures;

    let ghost le = always_precedes(*in_order);
    proof {
        lemma_always_precedes_transitive(*in_order);
    }
    let ghost start = indices@;
    let mut merged: Vec<T> = Vec::new();
    proof {
        lemma_consumed_empty(start);
        lemma_remaining_nonneg(start);
    }
    proof {
        assert forall|c: spec_fn(T, T) -> bool| #[trigger] decides(*in_order, c) implies kmerge(
            views_of(start),
            cursors_of(start),
            c,
        ) == merged@ + kmerge(views_of(start), cursors_of(indices@), c) by {
            assert(merged@ + kmerge(views_of(start), cursors_of(start), c) =~= kmerge(
                views_of(start),
                cursors_of(start),
                c,
            ));
        }
    }
    let mut finished = false;
    while !finished
        invariant
            sort_comparator(*in_order),
            clone_exact::<T>(),
            le == always_precedes(*in_order),
            transitive(le),
            reflexive(le),
            cursors_ok(indices@),
            indices@.len() == start.len(),
            forall|k: int| 0 <= k < start.len() ==> (#[trigger] indices@[k]).1 == start[k].1,
            forall|k: int| 0 <= k < start.len() ==> sorted_by((#[trigger] start[k]).1@, le),
            views_of(indices@) == views_of(start),
            forall|c: spec_fn(T, T) -> bool|
                #[trigger] decides(*in_order, c) ==> kmerge(
                    views_of(start),
                    cursors_of(start),
                    c,
                ) == merged@ + kmerge(views_of(start), cursors_of(indices@), c),
            merged@.to_multiset() == consumed_multiset(indices@),
            sorted_by(merged@, le),
            forall|m: int, k: int, p: int|
                #![trigger merged@[m], indices@[k].1@[p]]
                0 <= m < merged@.len() && 0 <= k < indices@.len() && (indices@[k].0 as int) <= p
                    < indices@[k].1@.len() ==> le(merged@[m], indices@[k].1@[p]),
            finished ==> forall|k: int|
                0 <= k < indices@.len() ==> (#[trigger] indices@[k]).0 == indices@[k].1@.len(),
        decreases remaining_count(indices@) + (if finished { 0int } else { 1int }),
    {
        let ghost pre = indices@;
        let found = find_next_element(indices, in_order);
        let element_to_add = found.0;
        let ghost sel = found.1@;

        match element_to_add {
            None => {
                proof {
                    lemma_remaining_nonneg(indices@);
                }
                // break from the loop and cause the resulting merged list to
                // be returned
                finished = true;
            },
            Some(element) => {
                proof {
                    broadcast use vstd::seq_lib::group_to_multiset_ensures;
                    broadcast use vstd::multiset::group_multiset_axioms;

                    lemma_consumed_advance(pre, sel);
                    lemma_remaining_advance(pre, sel);
                    lemma_remaining_nonneg(indices@);
                    let x = pre[sel].1@[pre[sel].0 as int];
                    assert(element == x);
                    assert(merged@.push(element).to_multiset() =~= consumed_multiset(indices@));
                    assert forall|a: int, b: int|
                        0 <= a < b < merged@.len() + 1 implies le(
                        merged@.push(element)[a],
                        merged@.push(element)[b],
                    ) by {
                        if b == merged@.len() {
                            assert(le(merged@[a], pre[sel].1@[pre[sel].0 as int]));
                        } else {
                            assert(le(merged@[a], merged@[b]));
                        }
                    }
                    assert(views_of(indices@) =~= views_of(start));
                    let vw = views_of(start);
                    let x = pre[sel].1@[pre[sel].0 as int];
                    assert forall|c: spec_fn(T, T) -> bool|
                        #[trigger] decides(*in_order, c) implies kmerge(
                        vw,
                        cursors_of(start),
                        c,
                    ) == merged@.push(element) + kmerge(vw, cursors_of(indices@), c) by {
                        let cupre = cursors_of(pre);
                        let cupost = cursors_of(indices@);
                        lemma_cursorvec_abstraction(pre);
                        assert(views_of(pre) == vw);
                        assert(scan_choice(vw, cupre, c, pre.len() as int) == sel);
                        assert(cursors_within(vw, cupre));
                        assert(kmerge(vw, cupre, c) == seq![vw[sel][cupre[sel]]] + kmerge(
                            vw,
                            cupre.update(sel, cupre[sel] + 1),
                            c,
                        ));
                        assert(vw[sel][cupre[sel]] == x);
                        assert(cupost =~= cupre.update(sel, cupre[sel] + 1)) by {
                            lemma_cursorvec_abstraction(indices@);
                        }
                        assert(kmerge(vw, cursors_of(start), c) == merged@ + kmerge(
                            vw,
                            cupre,
                            c,
                        ));
                        assert(merged@.push(element) + kmerge(vw, cupost, c) =~= merged@ + (seq![
                            x,
                        ] + kmerge(vw, cupost, c)));
                    }
                    assert forall|m: int, k: int, p: int|
                        #![trigger merged@.push(element)[m], indices@[k].1@[p]]
                        0 <= m < merged@.len() + 1 && 0 <= k < indices@.len() && (indices@[k].0
                            as int) <= p < indices@[k].1@.len() implies le(
                        merged@.push(element)[m],
                        indices@[k].1@[p],
                    ) by {
                        assert(indices@[k].1 == pre[k].1);
                        if m < merged@.len() {
                            assert((pre[k].0 as int) <= p);
                            assert(le(merged@[m], pre[k].1@[p]));
                        } else {
                            if k == sel {
                                assert(le(pre[sel].1@[pre[sel].0 as int], pre[sel].1@[p]));
                            } else {
                                assert(le(x, pre[k].1@[pre[k].0 as int]));
                                if p > pre[k].0 as int {
                                    assert(le(pre[k].1@[pre[k].0 as int], pre[k].1@[p]));
                                }
                            }
                        }
                    }
                }
                merged.push(element);
            },
        }
    }
    proof {
        lemma_consumed_complete(indices@);
        lemma_total_same_sources(indices@, start);
        assert forall|c: spec_fn(T, T) -> bool| #[trigger] decides(*in_order, c) implies merged@
            == kmerge(views_of(start), cursors_of(start), c) by {
            let vw = views_of(start);
            let cu = cursors_of(indices@);
            lemma_cursorvec_abstraction(indices@);
            assert(views_of(indices@) == vw);
            assert(cursors_within(vw, cu));
            lemma_scan_choice_valid(vw, cu, c, vw.len() as int);
            let ch = scan_choice(vw, cu, c, vw.len() as int);
            if ch != -1 {
                assert(cu[ch] == indices@[ch].0 as int);
                assert(vw[ch] == indices@[ch].1@);
                assert((indices@[ch]).0 == indices@[ch].1@.len());
                assert(false);
            }
            assert(kmerge(vw, cu, c) == Seq::<T>::empty());
            assert(merged@ + kmerge(vw, cu, c) =~= merged@);
        }
    }
    merged
}

proof fn lemma_consumed_empty<T>(s: Seq<(usize, &Vec<T>)>)
    requires
        forall|k: int| 0 <= k < s.len() ==> (#[trigger] s[k]).0 == 0,
    ensures
        consumed_multiset(s) == Multiset::<T>::empty(),
    decreases s.len(),
{
    broadcast use vstd::multiset::group_multiset_axioms;

    if s.len() > 0 {
        assert(forall|k: int|
            0 <= k < s.len() - 1 ==> (#[trigger] s.drop_last()[k]).0 == 0);
        lemma_consumed_empty(s.drop_last());
        assert(s.last().1@.subrange(0, 0) =~= Seq::<T>::empty());
        lemma_empty_to_multiset::<T>();
        assert(consumed_multiset(s) =~= Multiset::<T>::empty());
    }
}

/// The union of the elements of a collection of sequences.
pub open spec fn multiset_of_all<T>(ls: Seq<Seq<T>>) -> Multiset<T>
    decreases ls.len(),
{
    if ls.len() == 0 {
        Multiset::empty()
    } else {
        multiset_of_all(ls.drop_last()).add(ls.last().to_multiset())
    }
}

proof fn lemma_total_is_multiset_of_all<T>(s: Seq<(usize, &Vec<T>)>, vs: Seq<Seq<T>>)
    requires
        s.len() == vs.len(),
        forall|k: int| 0 <= k < s.len() ==> (#[trigger] s[k]).1@ == vs[k],
    ensures
        total_multiset(s) == multiset_of_all(vs),
    decreases s.len(),
{
    if s.len() > 0 {
        assert(forall|k: int|
            0 <= k < s.len() - 1 ==> (#[trigger] s.drop_last()[k]).1@ == vs.drop_last()[k]);
        lemma_total_is_multiset_of_all(s.drop_last(), vs.drop_last());
        assert(s.last().1@ == vs.last());
    }
}

/// Merges the elements from two different vectors into one vector, in the
/// proper sorting order.
///
/// # Params
/// - `left` - The left `Vec` to merge.
/// - `right` - The right `Vec` to merge.
/// - `in_order` - The closure that determines if its first argument comes
///   before its second argument.
///
/// # Returns
/// - The merged `Vec`.
fn merge_vecs<T, U>(left: &Vec<T>, right: &Vec<T>, in_order: &U) -> (merged: Vec<T>) where
    T: Clone,
    U: Fn(&T, &T) -> bool,

    requires
        sort_comparator(*in_order),
        clone_exact::<T>(),
        sorted_by(left@, always_precedes(*in_order)),
        sorted_by(right@, always_precedes(*in_order)),
    ensures
        merged@.to_multiset() == left@.to_multiset().add(right@.to_multiset()),
        sorted_by(merged@, always_precedes(*in_order)),
        forall|c: spec_fn(T, T) -> bool|
            #[trigger] decides(*in_order, c) ==> merged@ == kmerge(
                seq![left@, right@],
                seq![0int, 0int],
                c,
            ),
{
    // add all the elements to the resulting vec
    let mut indicies: Vec<(usize, &Vec<T>)> = Vec::new();
    indicies.push((0, left));
    indicies.push((0, right));
    proof {
        assert(views_of(indicies@) =~= seq![left@, right@]);
        assert(cursors_of(indicies@) =~= seq![0int, 0int]);
    }
    proof {
        broadcast use vstd::multiset::group_multiset_axioms;

        let s = indicies@;
        assert(s.drop_last().drop_last() =~= Seq::<(usize, &Vec<T>)>::empty());
        assert(s.drop_last().last() == (0usize, left));
        assert(s.last() == (0usize, right));
        assert(total_multiset(s.drop_last().drop_last()) == Multiset::<T>::empty());
        assert(total_multiset(s.drop_last()) =~= Multiset::<T>::empty().add(
            left@.to_multiset(),
        ));
        assert(total_multiset(s) =~= left@.to_multiset().add(right@.to_multiset()));
    }
    merge_from_sources(&mut indicies, in_order)
}

/// Merges the elements from one or more different vectors into one vector,
/// in the proper sorting order.
///
/// # Params
/// - `lists` - The `Vec`s to merge.
/// - `in_order` - The closure that determines if its first argument comes
///   before its second argument.
///
/// # Returns
/// - The merged `Vec`.
#[allow(dead_code)]
fn merge_multiple<T, U>(lists: &Vec<Vec<T>>, in_order: &U) -> (merged: Vec<T>) where
    T: Clone,
    U: Fn(&T, &T) -> bool,

    requires
        sort_comparator(*in_order),
        clone_exact::<T>(),
        forall|k: int|
            0 <= k < lists@.len() ==> sorted_by(
                (#[trigger] lists@[k])@,
                always_precedes(*in_order),
            ),
    ensures
        merged@.to_multiset() == multiset_of_all(lists@.map_values(|l: Vec<T>| l@)),
        sorted_by(merged@, always_precedes(*in_order)),
        forall|c: spec_fn(T, T) -> bool|
            #[trigger] decides(*in_order, c) ==> merged@ == kmerge(
                lists@.map_values(|l: Vec<T>| l@),
                Seq::new(lists@.len(), |k: int| 0int),
                c,
            ),
{
    let mut indicies: Vec<(usize, &Vec<T>)> = Vec::new();
    // add all the elements to the resulting vec
    let mut k: usize = 0;
    while k < lists.len()
        invariant
            0 <= k <= lists@.len(),
            indicies@.len() == k,
            forall|m: int| 0 <= m < k as int ==> (#[trigger] indicies@[m]).0 == 0,
            forall|m: int| 0 <= m < k as int ==> (#[trigger] indicies@[m]).1@ == lists@[m]@,
        decreases lists@.len() - k,
    {
        indicies.push((0, &lists[k]));
        k += 1;
    }
    proof {
        lemma_total_is_multiset_of_all(indicies@, lists@.map_values(|l: Vec<T>| l@));
        assert(views_of(indicies@) =~= lists@.map_values(|l: Vec<T>| l@));
        assert(cursors_of(indicies@) =~= Seq::new(lists@.len(), |k: int| 0int));
    }
    merge_from_sources(&mut indicies, in_order)
}

/// The exact sequence the top-down merge sort returns for the relation `c`:
/// split at the midpoint, sort both halves, and merge them with the leftmost
/// half winning ties.
pub open spec fn merge_sort_spec<T>(s: Seq<T>, c: spec_fn(T, T) -> bool) -> Seq<T>
    decreases s.len(),
{
    if s.len() <= 1 {
        s
    } else {
        kmerge(
            seq![
                merge_sort_spec(s.subrange(0, s.len() as int / 2), c),
                merge_sort_spec(s.subrange(s.len() as int / 2, s.len() as int), c),
            ],
            seq![0int, 0int],
            c,
        )
    }
}

proof fn lemma_kmerge_all_left_first<T>(a: Seq<T>, b: Seq<T>, c: spec_fn(T, T) -> bool, i: int)
    requires
        0 <= i <= a.len(),
        b.len() > 0,
        forall|k: int| i <= k < a.len() ==> c(#[trigger] a[k], b[0]),
    ensures
        kmerge(seq![a, b], seq![i, 0int], c) == a.skip(i) + b,
    decreases a.len() - i,
{
    let vw = seq![a, b];
    let cu = seq![i, 0int];
    assert(cursors_within(vw, cu));
    assert(scan_choice(vw, cu, c, 0) == -1);
    let ch = scan_choice(vw, cu, c, 2);
    if i < a.len() {
        assert(scan_choice(vw, cu, c, 1) == 0);
        assert(c(a[i], b[0]));
        assert(ch == 0);
        lemma_kmerge_all_left_first(a, b, c, i + 1);
        assert(cu.update(0, i + 1) =~= seq![i + 1, 0int]);
        assert(seq![a[i]] + (a.skip(i + 1) + b) =~= a.skip(i) + b);
    } else {
        lemma_kmerge_right_only(a, b, c, 0);
        assert(cu =~= seq![a.len() as int, 0int]);
        assert(a.skip(i) + b =~= b.skip(0));
    }
}

/// An already-sorted sequence is a fixed point of the top-down merge sort:
/// sorting it again returns it unchanged, ties and all.
pub proof fn lemma_merge_sort_sorted_fixed<T>(s: Seq<T>, c: spec_fn(T, T) -> bool)
    requires
        sorted_by(s, c),
    ensures
        merge_sort_spec(s, c) == s,
    decreases s.len(),
{
    if s.len() > 1 {
        let mid = s.len() as int / 2;
        let first = s.subrange(0, mid);
        let second = s.subrange(mid, s.len() as int);
        assert(sorted_by(first, c)) by {
            assert forall|a: int, b: int| 0 <= a < b < first.len() implies #[trigger] c(
                first[a],
                first[b],
            ) by {
                assert(first[a] == s[a]);
                assert(first[b] == s[b]);
                assert(c(s[a], s[b]));
            }
        }
        assert(sorted_by(second, c)) by {
            assert forall|a: int, b: int| 0 <= a < b < second.len() implies #[trigger] c(
                second[a],
                second[b],
            ) by {
                assert(second[a] == s[mid + a]);
                assert(second[b] == s[mid + b]);
                assert(c(s[mid + a], s[mid + b]));
            }
        }
        lemma_merge_sort_sorted_fixed(first, c);
        lemma_merge_sort_sorted_fixed(second, c);
        assert(forall|k: int| 0 <= k < first.len() ==> c(#[trigger] first[k], second[0])) by {
            assert forall|k: int| 0 <= k < first.len() implies c(#[trigger] first[k], second[0]) by {
                assert(first[k] == s[k]);
                assert(second[0] == s[mid]);
                assert(c(s[k], s[mid]));
            }
        }
        lemma_kmerge_all_left_first(first, second, c, 0);
        assert(first.skip(0) + second =~= s);
    }
}

/// Performs a merge sort on a list of elements.
///
/// # Params
/// - `list` - The `Vec<T>` to sort.
/// - `in_order` - The closure to use to sort the array.  Determines if its
///   first argument comes before its second argument.
///
/// # Returns
/// - The sorted `Vec<T>`.
pub fn merge_sort_top_down<T, U>(list: &Vec<T>, in_order: &U) -> (out: Vec<T>) where
    T: Clone,
    U: Fn(&T, &T) -> bool,

    requires
        sort_comparator(*in_order),
        clone_exact::<T>(),
    ensures
        out@.to_multiset() == list@.to_multiset(),
        out@.len() == list@.len(),
        sorted_by(out@, always_precedes(*in_order)),
        forall|c: spec_fn(T, T) -> bool|
            #[trigger] decides(*in_order, c) ==> out@ == merge_sort_spec(list@, c),
    decreases list@.len(),
{
    broadcast use vstd::seq_lib::group_to_multiset_ensures;

    if list.len() <= 1 {
        // we have a sorted list
        let out = subvec(list, 0, list.len());
        proof {
            assert(list@.subrange(0, list@.len() as int) =~= list@);
        }
        return out;
    }
    let midpoint = list.len() / 2;
    let first = subvec(list, 0, midpoint);
    let second = subvec(list, midpoint, list.len());
    let left = merge_sort_top_down(&first, in_order);
    let right = merge_sort_top_down(&second, in_order);

    let merged = merge_vecs(&left, &right, in_order);
    proof {
        vstd::seq_lib::lemma_multiset_commutative(first@, second@);
        assert(first@ + second@ =~= list@);
        assert(merged@.to_multiset().len() == merged@.len());
        assert(list@.to_multiset().len() == list@.len());
        assert forall|c: spec_fn(T, T) -> bool| #[trigger] decides(*in_order, c) implies merged@
            == merge_sort_spec(list@, c) by {
            assert(left@ == merge_sort_spec(first@, c));
            assert(right@ == merge_sort_spec(second@, c));
            assert(first@ == list@.subrange(0, list@.len() as int / 2));
            assert(second@ == list@.subrange(list@.len() as int / 2, list@.len() as int));
        }
    }
    merged
}

/// The failures the parallel merge sort can report.
#[derive(Clone, Copy, Debug, PartialEq, Eq, Structural)]
pub enum SortError {
    /// The requested worker count cannot perform any work.
    InvalidConfiguration,
    /// A worker terminated abnormally.
    ExecutionFailure,
}

/// Where the chunk handed to worker `k` ends: the last worker absorbs the
/// division remainder.
pub open spec fn chunk_end(len: int, work: int, nt: int, k: int) -> int {
    if k == nt - 1 {
        len
    } else {
        k * work + work
    }
}

/// The contiguous slice of `s` handed to worker `k`.
pub open spec fn thread_chunk<T>(s: Seq<T>, work: int, nt: int, k: int) -> Seq<T> {
    s.subrange(k * work, chunk_end(s.len() as int, work, nt, k))
}

/// Splits `list` into the contiguous chunks the parallel merge sort hands
/// to its workers: `num_threads` slices of `len / num_threads` elements, the
/// last absorbing the remainder.
///
/// # Params
/// - `list` - The `Vec<T>` to split.
/// - `num_threads` - How many workers the chunks are for; must be positive.
///
/// # Returns
/// - `Ok` with one chunk per worker, or `Err(SortError::InvalidConfiguration)`
///   when `num_threads` is zero.
pub fn partition_for_workers<T: Clone>(list: &Vec<T>, num_threads: u32) -> (out: Result<
    Vec<Vec<T>>,
    SortError,
>)
    requires
        num_threads != 0 ==> clone_exact::<T>(),
    ensures
        num_threads == 0 <==> out == Err::<Vec<Vec<T>>, SortError>(
            SortError::InvalidConfiguration,
        ),
        num_threads != 0 ==> out matches Ok(_),
        out matches Ok(chunks) ==> {
            &&& chunks@.len() == num_threads as int
            &&& forall|k: int|
                0 <= k < num_threads as int ==> (#[trigger] chunks@[k])@ == thread_chunk(
                    list@,
                    list@.len() as int / num_threads as int,
                    num_threads as int,
                    k,
                )
        },
{
    if num_threads == 0 {
        return Err(SortError::InvalidConfiguration);
    }
    let ghost l = list@.len() as int;
    let ghost nt = num_threads as int;
    let work = list.len() / (num_threads as usize);
    let ghost w = work as int;
    proof {
        lemma_fundamental_div_mod(l, nt);
        lemma_mod_bound(l, nt);
        assert(nt * w <= l);
    }
    let mut chunks: Vec<Vec<T>> = Vec::new();
    let mut i: u32 = 0;
    while i < num_threads
        invariant
            clone_exact::<T>(),
            l == list@.len() as int,
            nt == num_threads as int,
            w == work as int,
            0 < nt,
            nt * w <= l,
            l <= usize::MAX,
            0 <= i as int <= nt,
            chunks@.len() == i as int,
            forall|k: int|
                0 <= k < i as int ==> (#[trigger] chunks@[k])@ == thread_chunk(list@, w, nt, k),
        decreases nt - i as int,
    {
        proof {
            lemma_mul_inequality(i as int + 1, nt, w);
            assert((i as int + 1) * w == i as int * w + w) by (nonlinear_arith);
            assert(i as int * w >= 0) by (nonlinear_arith)
                requires
                    i as int >= 0,
                    w >= 0,
            ;
        }
        let start = (i as usize) * work;
        let end = if i == num_threads - 1 {
            list.len()
        } else {
            start + work
        };
        chunks.push(subvec(list, start, end));
        i += 1;
    }
    Ok(chunks)
}

/// The chunk decomposition covers the whole sequence: the chunks of
/// [`partition_for_workers`] together hold exactly the elements of `s`.
pub proof fn lemma_chunks_multiset<T>(s: Seq<T>, nt: int)
    requires
        0 < nt,
    ensures
        multiset_of_all(
            Seq::new(nt as nat, |k: int| thread_chunk(s, s.len() as int / nt, nt, k)),
        ) == s.to_multiset(),
{
    let l = s.len() as int;
    let w = l / nt;
    lemma_fundamental_div_mod(l, nt);
    lemma_mod_bound(l, nt);
    lemma_chunk_prefix(s, w, nt, nt);
    assert(Seq::new(nt as nat, |k: int| thread_chunk(s, w, nt, k)).subrange(0, nt) =~= Seq::new(
        nt as nat,
        |k: int| thread_chunk(s, w, nt, k),
    ));
    assert(s.subrange(0, l) =~= s);
}

proof fn lemma_chunk_prefix<T>(s: Seq<T>, w: int, nt: int, j: int)
    requires
        0 < nt,
        0 <= w,
        nt * w <= s.len(),
        0 <= j <= nt,
    ensures
        multiset_of_all(
            Seq::new(nt as nat, |k: int| thread_chunk(s, w, nt, k)).subrange(0, j),
        ) == s.subrange(
            0,
            if j == nt {
                s.len() as int
            } else {
                j * w
            },
        ).to_multiset(),
    decreases j,
{
    broadcast use vstd::seq_lib::group_to_multiset_ensures;
    broadcast use vstd::multiset::group_multiset_axioms;

    let all = Seq::new(nt as nat, |k: int| thread_chunk(s, w, nt, k));
    if j == 0 {
        assert(all.subrange(0, 0) =~= Seq::<Seq<T>>::empty());
        assert(s.subrange(0, 0) =~= Seq::<T>::empty());
        lemma_empty_to_multiset::<T>();
    } else {
        lemma_chunk_prefix(s, w, nt, j - 1);
        lemma_mul_inequality(j, nt, w);
        assert(j * w == (j - 1) * w + w) by (nonlinear_arith);
        assert((j - 1) * w >= 0) by (nonlinear_arith)
            requires
                j - 1 >= 0,
                w >= 0,
        ;
        let pos = (j - 1) * w;
        let pos2 = if j == nt {
            s.len() as int
        } else {
            j * w
        };
        assert(all.subrange(0, j).drop_last() =~= all.subrange(0, j - 1));
        assert(all.subrange(0, j).last() == thread_chunk(s, w, nt, j - 1));
        vstd::seq_lib::lemma_multiset_commutative(s.subrange(0, pos), s.subrange(pos, pos2));
        assert(s.subrange(0, pos) + s.subrange(pos, pos2) =~= s.subrange(0, pos2));
        assert(thread_chunk(s, w, nt, j - 1) == s.subrange(pos, pos2));
    }
}

proof fn lemma_multiset_of_all_congruent<T>(vs: Seq<Seq<T>>, ws: Seq<Seq<T>>)
    requires
        vs.len() == ws.len(),
        forall|k: int|
            0 <= k < vs.len() ==> (#[trigger] vs[k]).to_multiset() == ws[k].to_multiset(),
    ensures
        multiset_of_all(vs) == multiset_of_all(ws),
    decreases vs.len(),
{
    if vs.len() > 0 {
        assert(forall|k: int|
            0 <= k < vs.len() - 1 ==> (#[trigger] vs.drop_last()[k]).to_multiset()
                == ws.drop_last()[k].to_multiset());
        lemma_multiset_of_all_congruent(vs.drop_last(), ws.drop_last());
        assert(vs.last().to_multiset() == ws[vs.len() - 1].to_multiset());
    }
}

/// Sorted worker results fold back to a permutation of the input: when each
/// result holds exactly the elements of its chunk, all results together hold
/// exactly the elements of the original sequence.
pub proof fn lemma_worker_results_cover<T>(s: Seq<T>, nt: int, vs: Seq<Seq<T>>)
    requires
        0 < nt,
        vs.len() == nt,
        forall|k: int|
            0 <= k < nt ==> (#[trigger] vs[k]).to_multiset() == thread_chunk(
                s,
                s.len() as int / nt,
                nt,
                k,
            ).to_multiset(),
    ensures
        multiset_of_all(vs) == s.to_multiset(),
{
    let chunks = Seq::new(nt as nat, |k: int| thread_chunk(s, s.len() as int / nt, nt, k));
    lemma_multiset_of_all_congruent(vs, chunks);
    lemma_chunks_multiset(s, nt);
}

/// The exact sequence the combine step returns for the relation `c`: the
/// sorted results merged into a running accumulator, leftmost first.
pub open spec fn fold_merge<T>(vs: Seq<Seq<T>>, c: spec_fn(T, T) -> bool) -> Seq<T>
    decreases vs.len(),
{
    if vs.len() == 0 {
        Seq::empty()
    } else {
        kmerge(seq![fold_merge(vs.drop_last(), c), vs.last()], seq![0int, 0int], c)
    }
}

/// Folds already-sorted sequences into one sorted sequence, merging each in
/// turn into a running accumulator, leftmost first: the combine step of the
/// parallel merge sort.
///
/// # Params
/// - `results` - The sorted `Vec`s to fold together.
/// - `in_order` - The closure that determines if its first argument comes
///   before its second argument.
///
/// # Returns
/// - The merged `Vec`.
pub fn merge_sorted_results<T, U>(results: &Vec<Vec<T>>, in_order: &U) -> (merged: Vec<T>) where
    T: Clone,
    U: Fn(&T, &T) -> bool,

    requires
        sort_comparator(*in_order),
        clone_exact::<T>(),
        forall|k: int|
            0 <= k < results@.len() ==> sorted_by(
                (#[trigger] results@[k])@,
                always_precedes(*in_order),
            ),
    ensures
        merged@.to_multiset() == multiset_of_all(results@.map_values(|l: Vec<T>| l@)),
        sorted_by(merged@, always_precedes(*in_order)),
        forall|c: spec_fn(T, T) -> bool|
            #[trigger] decides(*in_order, c) ==> merged@ == fold_merge(
                results@.map_values(|l: Vec<T>| l@),
                c,
            ),
{
    let ghost le = always_precedes(*in_order);
    let ghost vs = results@.map_values(|l: Vec<T>| l@);
    let mut merged: Vec<T> = Vec::new();
    proof {
        assert(vs.subrange(0, 0) =~= Seq::<Seq<T>>::empty());
        assert(merged@ =~= Seq::<T>::empty());
        lemma_empty_to_multiset::<T>();
    }
    let mut k: usize = 0;
    while k < results.len()
        invariant
            sort_comparator(*in_order),
            clone_exact::<T>(),
            le == always_precedes(*in_order),
            vs == results@.map_values(|l: Vec<T>| l@),
            0 <= k as int <= results@.len(),
            forall|m: int|
                0 <= m < results@.len() ==> sorted_by((#[trigger] results@[m])@, le),
            sorted_by(merged@, le),
            merged@.to_multiset() == multiset_of_all(vs.subrange(0, k as int)),
            forall|c: spec_fn(T, T) -> bool|
                #[trigger] decides(*in_order, c) ==> merged@ == fold_merge(
                    vs.subrange(0, k as int),
                    c,
                ),
        decreases results@.len() - k as int,
    {
        let next = merge_vecs(&merged, &results[k], in_order);
        proof {
            assert(vs.subrange(0, k as int + 1).drop_last() =~= vs.subrange(0, k as int));
            assert(vs.subrange(0, k as int + 1).last() == (results@[k as int])@);
        }
        merged = next;
        k += 1;
    }
    proof {
        assert(vs.subrange(0, vs.len() as int) =~= vs);
    }
    merged
}

} // verus!
