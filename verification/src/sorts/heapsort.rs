//! Heapsort over an explicit 1-indexed binary heap.

use vstd::multiset::Multiset;
use vstd::prelude::*;
use vstd::relations::{sorted_by, transitive};

use crate::order::{
    always_accepts, always_precedes_strict, always_rejects, always_rejects_strict,
    lemma_always_precedes_transitive, lemma_verdicts_ambient, strict_comparator,
};
use crate::vecops::swap_entries;

verus! {

/// Struct to represent a Heap with generics, as it will not always be
/// possible to save the size as the first element in the vector, due to what
/// may be stored in it (could be something that isn't a number).
pub struct Heap<T> where T: Clone {
    size: usize,
    list: Vec<Option<T>>,
}

impl<T> Heap<T> where T: Clone {
    /// The backing store is well formed: an unused sentinel at index 0, a
    /// value in every other slot, and the logical size within bounds.
    pub closed spec fn well_formed(self) -> bool {
        &&& 1 <= self.list@.len()
        &&& (self.size as int) < self.list@.len()
        &&& self.list@[0] is None
        &&& forall|k: int| 1 <= k < self.list@.len() ==> (#[trigger] self.list@[k]) is Some
    }

    /// The value at 1-indexed position `k`.
    pub closed spec fn at(self, k: int) -> T {
        self.list@[k]->0
    }

    /// The stored values in backing order, sentinel excluded.
    pub closed spec fn entries(self) -> Seq<T> {
        Seq::new((self.list@.len() - 1) as nat, |k: int| self.list@[k + 1]->0)
    }

    /// How many values are still inside the logical heap.
    pub closed spec fn spec_size(self) -> int {
        self.size as int
    }

    /// No parent at or above position `lo` comes strictly before either of
    /// its children, within the logical heap, under every strict relation
    /// the comparator decides.
    pub closed spec fn heap_ordered_from<F: Fn(&T, &T) -> bool>(self, f: F, lo: int) -> bool {
        forall|k: int|
            2 <= k <= self.size as int && lo <= k / 2 ==> always_rejects_strict(
                f,
                self.at(k / 2),
                #[trigger] self.at(k),
            )
    }

    /// The max/min-heap property over the whole logical heap.
    pub closed spec fn heap_ordered<F: Fn(&T, &T) -> bool>(self, f: F) -> bool {
        self.heap_ordered_from(f, 1)
    }

    /// Creates a new `Heap` from a list of `T`, inserting a `None` at the
    /// beginning to make math easier.
    ///
    /// # Params
    /// - `list` - The `Vec` of `T` to create a `Heap` from.
    pub fn new(list: Vec<T>) -> (h: Self)
        ensures
            h.well_formed(),
            h.spec_size() == list@.len(),
            h.entries() == list@,
    {
        let ghost orig = list@;
        let list_size = list.len();
        // new list starting with `None` to make math easier when performing
        // operations on the vector
        let mut new_list: Vec<Option<T>> = Vec::new();
        new_list.push(None);
        let mut rest = list;
        while rest.len() > 0
            invariant
                rest@.len() <= orig.len(),
                rest@ == orig.subrange(orig.len() - rest@.len(), orig.len() as int),
                new_list@.len() == 1 + orig.len() - rest@.len(),
                new_list@[0] is None,
                forall|k: int| 1 <= k < new_list@.len() ==> (#[trigger] new_list@[k]) is Some,
                forall|k: int|
                    1 <= k < new_list@.len() ==> (#[trigger] new_list@[k])->0 == orig[k - 1],
            decreases rest@.len(),
        {
            let ghost done = orig.len() - rest@.len();
            let element = rest.remove(0);
            new_list.push(Some(element));
            proof {
                assert(element == orig[done]);
                assert(rest@ =~= orig.subrange(orig.len() - rest@.len(), orig.len() as int));
            }
        }
        let h = Self { size: list_size, list: new_list };
        proof {
            assert(h.entries() =~= orig);
        }
        h
    }

    /// Heapifies the `Heap` list, ordering the heap as a min/max heap.
    ///
    /// # Params
    /// - `in_order` - The closure to sort the heap with.
    pub fn heapify<U>(&mut self, in_order: &U) where U: Fn(&T, &T) -> bool
        requires
            strict_comparator(*in_order),
            old(self).well_formed(),
        ensures
            final(self).well_formed(),
            final(self).spec_size() == old(self).spec_size(),
            final(self).entries().len() == old(self).entries().len(),
            final(self).entries().to_multiset() == old(self).entries().to_multiset(),
            forall|k: int|
                old(self).spec_size() <= k < final(self).entries().len()
                    ==> final(self).entries()[k] == old(self).entries()[k],
            final(self).heap_ordered(*in_order),
    {
        let mut i = self.size / 2;
        proof {
            assert forall|k: int|
                2 <= k <= self.size as int && i as int + 1 <= k / 2 implies always_rejects_strict(
                *in_order,
                self.at(k / 2),
                #[trigger] self.at(k),
            ) by {
                vstd::arithmetic::div_mod::lemma_div_is_ordered(k, self.size as int, 2);
            }
        }
        while i > 0
            invariant
                strict_comparator(*in_order),
                self.well_formed(),
                self.spec_size() == old(self).spec_size(),
                self.entries().len() == old(self).entries().len(),
                self.entries().to_multiset() == old(self).entries().to_multiset(),
                forall|k: int|
                    old(self).spec_size() <= k < self.entries().len() ==> self.entries()[k] == old(
                        self,
                    ).entries()[k],
                0 <= i as int <= self.size as int,
                self.heap_ordered_from(*in_order, i as int + 1),
            decreases i,
        {
            let ghost prev = *self;
            // percolate down from this parent
            self.percolate_down(i, in_order);
            proof {
                assert forall|k: int|
                    old(self).spec_size() <= k < self.entries().len() implies self.entries()[k]
                    == old(self).entries()[k] by {
                    assert(self.at(k + 1) == prev.at(k + 1));
                    assert(self.entries()[k] == self.at(k + 1));
                    assert(prev.entries()[k] == prev.at(k + 1));
                }
            }
            i -= 1;
        }
    }

    /// Performs a percolate down on the heap from the parent index.
    ///
    /// # Params
    /// - `parent_idx` - The parent index to percolate down from.
    /// - `in_order` - The closure to sort the heap with.
    fn percolate_down<U>(&mut self, parent_idx: usize, in_order: &U) where U: Fn(&T, &T) -> bool
        requires
            strict_comparator(*in_order),
            old(self).well_formed(),
            1 <= parent_idx,
            old(self).heap_ordered_from(*in_order, parent_idx as int + 1),
        ensures
            final(self).well_formed(),
            final(self).size == old(self).size,
            final(self).list@.len() == old(self).list@.len(),
            final(self).heap_ordered_from(*in_order, parent_idx as int),
            forall|k: int|
                1 <= k < final(self).list@.len() && !(parent_idx as int <= k
                    <= final(self).size as int) ==> #[trigger] final(self).at(k) == old(self).at(
                    k,
                ),
            forall|k: int|
                1 <= k < final(self).list@.len() && !in_subtree(k, parent_idx as int)
                    ==> #[trigger] final(self).at(k) == old(self).at(k),
            final(self).entries().to_multiset() == old(self).entries().to_multiset(),
            heap_section(*final(self), parent_idx as int).to_multiset() == heap_section(
                *old(self),
                parent_idx as int,
            ).to_multiset(),
    {
        let ghost start = parent_idx as int;
        let mut parent_idx = parent_idx;
        while parent_idx <= self.size / 2
            invariant
                strict_comparator(*in_order),
                self.well_formed(),
                self.size == old(self).size,
                self.list@.len() == old(self).list@.len(),
                1 <= start <= parent_idx as int,
                in_subtree(parent_idx as int, start),
                forall|k: int|
                    1 <= k < self.list@.len() && !(start <= k <= self.size as int)
                        ==> #[trigger] self.at(k) == old(self).at(k),
                forall|k: int|
                    1 <= k < self.list@.len() && !in_subtree(k, start) ==> #[trigger] self.at(k)
                        == old(self).at(k),
                self.entries().to_multiset() == old(self).entries().to_multiset(),
                heap_section(*self, start).to_multiset() == heap_section(
                    *old(self),
                    start,
                ).to_multiset(),
                forall|k: int|
                    2 <= k <= self.size as int && start <= k / 2 && k / 2 != parent_idx as int
                        ==> always_rejects_strict(*in_order, self.at(k / 2), #[trigger] self.at(k)),
                parent_idx as int != start ==> 2 <= parent_idx as int && forall|k: int|
                    2 <= k <= self.size as int && k / 2 == parent_idx as int
                        ==> always_rejects_strict(
                        *in_order,
                        self.at(parent_idx as int / 2),
                        #[trigger] self.at(k),
                    ),
            decreases self.size as int - parent_idx as int,
        {
            proof {
                lemma_verdicts_ambient(*in_order);
                vstd::arithmetic::div_mod::lemma_fundamental_div_mod(self.size as int, 2);
                vstd::arithmetic::mul::lemma_mul_inequality(
                    parent_idx as int,
                    self.size as int / 2,
                    2,
                );
                assert(2 * (parent_idx as int) <= self.size as int);
            }
            // while the parent index has at least one child

            // find the larger of the two children (if the second child
            // exists)
            let mut max_child_idx = parent_idx * 2;

            if max_child_idx + 1 <= self.size {
                let take_second = match (&self.list[max_child_idx], &self.list[max_child_idx + 1]) {
                    (Some(first), Some(second)) => in_order(first, second),
                    _ => {
                        proof {
                            assert(false);
                        }
                        false
                    },
                };
                if take_second {
                    // if the second child exists and is larger than the
                    // first child then the second child is now the max
                    max_child_idx += 1;
                }
            }
            let ghost other = if max_child_idx as int == 2 * parent_idx as int {
                2 * parent_idx as int + 1
            } else {
                2 * parent_idx as int
            };
            proof {
                assert(other <= self.size as int ==> always_rejects_strict(
                    *in_order,
                    self.at(max_child_idx as int),
                    self.at(other),
                ));
            }

            let do_swap = match (&self.list[parent_idx], &self.list[max_child_idx]) {
                (Some(parent), Some(child)) => in_order(parent, child),
                _ => {
                    proof {
                        assert(false);
                    }
                    false
                },
            };
            let ghost pre = *self;
            if do_swap {
                // swap elements
                swap_entries(&mut self.list, parent_idx, max_child_idx);
            }
            proof {
                let pi = parent_idx as int;
                let m = max_child_idx as int;
                if do_swap {
                    assert(self.entries() =~= pre.entries().update(pi - 1, pre.at(m)).update(
                        m - 1,
                        pre.at(pi),
                    ));
                    crate::order::lemma_swap_preserves_multiset(pre.entries(), pi - 1, m - 1);
                    lemma_section_swap(pre, *self, start, pi, m);
                }
                assert forall|k: int|
                    2 <= k <= self.size as int && start <= k / 2 && k / 2 != m
                    implies always_rejects_strict(
                    *in_order,
                    self.at(k / 2),
                    #[trigger] self.at(k),
                ) by {
                    let q = k / 2;
                    assert(2 * q == k || 2 * q + 1 == k) by (nonlinear_arith)
                        requires
                            q == k / 2,
                            k >= 2,
                    ;
                    if do_swap {
                        if q == pi {
                            if k == m {
                                assert(always_accepts(*in_order, pre.at(pi), pre.at(m)));
                                assert(always_rejects_strict(*in_order, pre.at(m), pre.at(pi)));
                            } else {
                                assert(k == other);
                                assert(always_rejects_strict(*in_order, pre.at(m), pre.at(k)));
                            }
                        } else if k == pi {
                            assert(q == pi / 2);
                            assert(pi != start);
                            assert(always_rejects_strict(*in_order, pre.at(pi / 2), pre.at(m)));
                        } else if k == m {
                            assert(q == m / 2);
                            assert(false);
                        } else {
                            assert(always_rejects_strict(*in_order, pre.at(q), pre.at(k)));
                        }
                    } else {
                        if q == pi {
                            if k == m {
                                assert(always_rejects(*in_order, pre.at(pi), pre.at(m)));
                            } else {
                                assert(k == other);
                                assert(always_rejects_strict(*in_order, pre.at(pi), pre.at(m)));
                                assert(always_rejects_strict(*in_order, pre.at(m), pre.at(k)));
                                assert(always_rejects_strict(*in_order, pre.at(pi), pre.at(k)));
                            }
                        } else {
                            assert(always_rejects_strict(*in_order, pre.at(q), pre.at(k)));
                        }
                    }
                }
                assert forall|k: int|
                    2 <= k <= self.size as int && k / 2 == m implies always_rejects_strict(
                    *in_order,
                    self.at(m / 2),
                    #[trigger] self.at(k),
                ) by {
                    assert(m / 2 == pi) by (nonlinear_arith)
                        requires
                            m == 2 * pi || m == 2 * pi + 1,
                            pi >= 1,
                    ;
                    assert(k != pi && k != m) by (nonlinear_arith)
                        requires
                            k / 2 == m,
                            m == 2 * pi || m == 2 * pi + 1,
                            pi >= 1,
                            k >= 2,
                    ;
                    if do_swap {
                        assert(self.at(pi) == pre.at(m));
                        assert(self.at(k) == pre.at(k));
                        assert(always_rejects_strict(*in_order, pre.at(m), pre.at(k)));
                    } else {
                        assert(always_rejects(*in_order, pre.at(pi), pre.at(m)));
                        assert(always_rejects_strict(*in_order, pre.at(pi), pre.at(m)));
                        assert(always_rejects_strict(*in_order, pre.at(m), pre.at(k)));
                        assert(always_rejects_strict(*in_order, pre.at(pi), pre.at(k)));
                    }
                }
                assert(m >= 2 * start) by (nonlinear_arith)
                    requires
                        m == 2 * (parent_idx as int) || m == 2 * (parent_idx as int) + 1,
                        parent_idx as int >= start,
                        start >= 1,
                ;
                assert forall|k: int|
                    1 <= k < self.list@.len() && !(start <= k <= self.size as int) implies #[trigger]
                self.at(k) == old(self).at(k) by {
                    assert(pre.at(k) == old(self).at(k));
                }
                assert(in_subtree(m, start)) by {
                    assert(m / 2 == pi) by (nonlinear_arith)
                        requires
                            m == 2 * pi || m == 2 * pi + 1,
                            pi >= 1,
                    ;
                }
                assert forall|k: int|
                    1 <= k < self.list@.len() && !in_subtree(k, start) implies #[trigger] self.at(
                    k,
                ) == old(self).at(k) by {
                    assert(k != pi && k != m);
                    assert(pre.at(k) == old(self).at(k));
                }
            }

            // now set the parent_idx to be the index where we just swapped
            // this parent to
            parent_idx = max_child_idx;
        }
    }

    /// Deletes the max/min element in the heap, adding it at the end of the
    /// heap and decreasing the size of the heap.
    ///
    /// # Params
    /// - `in_order` - The closure to sort the heap with.
    fn delete_max_or_min<U>(&mut self, in_order: &U) where U: Fn(&T, &T) -> bool
        requires
            strict_comparator(*in_order),
            old(self).well_formed(),
            1 <= old(self).spec_size(),
            old(self).heap_ordered(*in_order),
        ensures
            final(self).well_formed(),
            final(self).spec_size() == old(self).spec_size() - 1,
            final(self).entries().len() == old(self).entries().len(),
            final(self).heap_ordered(*in_order),
            final(self).entries()[old(self).spec_size() - 1] == old(self).entries()[0],
            forall|k: int|
                old(self).spec_size() <= k < final(self).entries().len()
                    ==> final(self).entries()[k] == old(self).entries()[k],
            final(self).entries().to_multiset() == old(self).entries().to_multiset(),
            final(self).entries().subrange(0, final(self).spec_size()).to_multiset() == old(
                self,
            ).entries().subrange(0, old(self).spec_size()).to_multiset().remove(
                old(self).entries()[0],
            ),
    {
        broadcast use vstd::seq_lib::group_to_multiset_ensures;
        broadcast use vstd::multiset::group_multiset_axioms;

        let ghost n = old(self).spec_size();

        // swap first and last element in the heap
        swap_entries(&mut self.list, 1, self.size);
        self.size = self.size - 1;
        let ghost mid = *self;
        proof {
            assert(mid.entries() =~= old(self).entries().update(0, old(self).at(n)).update(
                n - 1,
                old(self).at(1),
            ));
            crate::order::lemma_swap_preserves_multiset(old(self).entries(), 0, n - 1);
            assert forall|k: int|
                2 <= k <= mid.size as int && 2 <= k / 2 implies always_rejects_strict(
                *in_order,
                mid.at(k / 2),
                #[trigger] mid.at(k),
            ) by {
                assert(k / 2 >= 2 ==> k >= 4) by (nonlinear_arith);
                assert(mid.at(k) == old(self).at(k));
                assert(mid.at(k / 2) == old(self).at(k / 2));
                assert(always_rejects_strict(*in_order, old(self).at(k / 2), old(self).at(k)));
            }
        }
        self.percolate_down(1, in_order);
        proof {
            let fin = *self;
            assert forall|k: int| n <= k < fin.entries().len() implies fin.entries()[k]
                == old(self).entries()[k] by {
                assert(fin.at(k + 1) == mid.at(k + 1));
                assert(fin.entries()[k] == fin.at(k + 1));
                assert(mid.entries()[k] == mid.at(k + 1));
            }
            assert(fin.entries()[n - 1] == fin.at(n));
            assert(fin.at(n) == mid.at(n));
            assert(fin.entries()[n - 1] == old(self).entries()[0]);
            // the heap part lost exactly the old root
            assert(heap_section(fin, 1).to_multiset() == heap_section(mid, 1).to_multiset());
            assert(heap_section(fin, 1) =~= fin.entries().subrange(0, fin.spec_size()));
            assert(heap_section(mid, 1) =~= mid.entries().subrange(0, n - 1));
            let old_part = old(self).entries().subrange(0, n);
            let mid_part = mid.entries().subrange(0, n - 1);
            if n == 1 {
                assert(mid_part =~= Seq::<T>::empty());
                assert(old_part =~= Seq::<T>::empty().push(old(self).entries()[0]));
                assert(old_part.to_multiset() =~= Multiset::<T>::empty().insert(
                    old(self).entries()[0],
                ));
                assert(mid_part.to_multiset() =~= old_part.to_multiset().remove(
                    old(self).entries()[0],
                ));
            } else {
                let upd = old_part.update(0, old(self).at(n));
                assert(mid_part =~= upd.subrange(0, n - 1));
                assert(upd.to_multiset() == old_part.to_multiset().remove(old_part[0]).insert(
                    old(self).at(n),
                ));
                assert(upd.subrange(0, n - 1) =~= upd.remove(n - 1));
                assert(upd.remove(n - 1).to_multiset() == upd.to_multiset().remove(upd[n - 1]));
                assert(upd[n - 1] == old(self).at(n));
                assert(mid_part.to_multiset() =~= old_part.to_multiset().remove(old_part[0]));
                assert(old_part[0] == old(self).entries()[0]);
            }
        }
    }

    /// Obtains a sorted list from the `Heap` data, converting the
    /// `Vec<Option<T>>` back to a `Vec<T>`.
    ///
    /// # Returns
    /// - The sorted list.
    fn obtain_sorted_list(self) -> (out: Vec<T>)
        requires
            self.well_formed(),
        ensures
            out@ == self.entries(),
    {
        let ghost orig = self.list@;
        let mut output_list: Vec<T> = Vec::new();
        let mut rest = self.list;
        while rest.len() > 0
            invariant
                1 <= orig.len(),
                orig[0] is None,
                forall|k: int| 1 <= k < orig.len() ==> (#[trigger] orig[k]) is Some,
                rest@.len() <= orig.len(),
                rest@ == orig.subrange(orig.len() - rest@.len(), orig.len() as int),
                output_list@.len() == (if orig.len() == rest@.len() {
                    0int
                } else {
                    orig.len() - rest@.len() - 1
                }),
                forall|m: int|
                    0 <= m < output_list@.len() ==> (#[trigger] output_list@[m]) == orig[m + 1]->0,
            decreases rest@.len(),
        {
            let ghost done = orig.len() - rest@.len();
            let element = rest.remove(0);
            proof {
                assert(element == orig[done]);
                assert(rest@ =~= orig.subrange(orig.len() - rest@.len(), orig.len() as int));
            }
            match element {
                Some(value) => {
                    output_list.push(value);
                },
                None => {  /* do nothing */
                },
            }
        }
        proof {
            assert(output_list@ =~= self.entries());
        }
        output_list
    }
}

/// Within a well-ordered heap, the root never comes strictly after any
/// element of the logical heap.
proof fn lemma_heap_root_bound<T: Clone, F: Fn(&T, &T) -> bool>(h: Heap<T>, f: F, k: int)
    requires
        h.well_formed(),
        h.heap_ordered(f),
        1 <= k <= h.spec_size(),
    ensures
        always_rejects_strict(f, h.at(1), h.at(k)),
    decreases k,
{
    lemma_verdicts_ambient(f);
    if k > 1 {
        lemma_heap_root_bound(h, f, k / 2);
        assert(always_rejects_strict(f, h.at(k / 2), h.at(k)));
    }
}

/// Performs a heapsort on a list of elements.
///
/// # Params
/// - `list` - The `Vec<T>` to sort.
/// - `in_order` - The closure to use to sort the array.  Determines if its
///   first argument comes before its second argument.
///
/// # Returns
/// - The sorted `Vec<T>`.
///
/// # Notes
/// - The comparator must be strict: use `<` or `>`, never `<=` or `>=`.
pub fn heap_sort<T, U>(list: Vec<T>, in_order: &U) -> (out: Vec<T>) where
    T: Clone,
    U: Fn(&T, &T) -> bool,

    requires
        strict_comparator(*in_order),
    ensures
        out@.to_multiset() == list@.to_multiset(),
        out@.len() == list@.len(),
        sorted_by(out@, always_precedes_strict(*in_order)),
{
    broadcast use vstd::seq_lib::group_to_multiset_ensures;
    broadcast use vstd::multiset::group_multiset_axioms;

    let ghost le = always_precedes_strict(*in_order);
    proof {
        lemma_always_precedes_transitive(*in_order);
    }
    let mut the_heap = Heap::new(list);
    the_heap.heapify(in_order);

    while the_heap.size > 0
        invariant
            strict_comparator(*in_order),
            le == always_precedes_strict(*in_order),
            transitive(le),
            the_heap.well_formed(),
            the_heap.entries().len() == list@.len(),
            the_heap.entries().to_multiset() == list@.to_multiset(),
            the_heap.heap_ordered(*in_order),
            forall|a: int, b: int|
                #![trigger the_heap.entries()[a], the_heap.entries()[b]]
                the_heap.spec_size() <= a < b < the_heap.entries().len() ==> le(
                    the_heap.entries()[a],
                    the_heap.entries()[b],
                ),
            forall|a: int, b: int|
                #![trigger the_heap.entries()[a], the_heap.entries()[b]]
                0 <= a < the_heap.spec_size() && the_heap.spec_size() <= b
                    < the_heap.entries().len() ==> le(
                    the_heap.entries()[a],
                    the_heap.entries()[b],
                ),
        decreases the_heap.spec_size(),
    {
        let ghost pre = the_heap;
        the_heap.delete_max_or_min(in_order);
        proof {
            broadcast use vstd::seq_lib::group_to_multiset_ensures;
            broadcast use vstd::multiset::group_multiset_axioms;

            lemma_verdicts_ambient(*in_order);
            let s = pre.spec_size();
            let es = the_heap.entries();
            let old_es = pre.entries();
            let root = old_es[0];
            assert(es[s - 1] == root);
            assert forall|m: int| 0 <= m < s implies le(#[trigger] old_es[m], root) by {
                lemma_heap_root_bound(pre, *in_order, m + 1);
                assert(always_rejects_strict(*in_order, pre.at(1), pre.at(m + 1)));
                assert(old_es[m] == pre.at(m + 1));
                assert(root == pre.at(1));
            }
            assert forall|a: int, b: int|
                #![trigger es[a], es[b]]
                the_heap.spec_size() <= a < b < es.len() implies le(es[a], es[b]) by {
                if a == s - 1 {
                    assert(es[b] == old_es[b]);
                    assert(le(old_es[0], old_es[b]));
                } else {
                    assert(es[a] == old_es[a]);
                    assert(es[b] == old_es[b]);
                    assert(le(old_es[a], old_es[b]));
                }
            }
            assert forall|a: int, b: int|
                #![trigger es[a], es[b]]
                0 <= a < the_heap.spec_size() && the_heap.spec_size() <= b < es.len() implies le(
                es[a],
                es[b],
            ) by {
                let new_part = es.subrange(0, s - 1);
                assert(new_part[a] == es[a]);
                assert(new_part.contains(es[a]));
                assert(new_part.to_multiset().count(es[a]) > 0);
                assert(old_es.subrange(0, s).to_multiset().count(es[a]) > 0);
                assert(old_es.subrange(0, s).contains(es[a]));
                let m = choose|m: int|
                    0 <= m < old_es.subrange(0, s).len() && old_es.subrange(0, s)[m] == es[a];
                assert(old_es[m] == es[a]);
                if b == s - 1 {
                    assert(le(old_es[m], root));
                } else {
                    assert(es[b] == old_es[b]);
                    assert(le(old_es[m], old_es[b]));
                }
            }
        }
    }
    proof {
        let es = the_heap.entries();
        assert forall|a: int, b: int| 0 <= a < b < es.len() implies le(
            #[trigger] es[a],
            #[trigger] es[b],
        ) by {}
    }
    let out = the_heap.obtain_sorted_list();
    proof {
        assert(out@.to_multiset().len() == out@.len());
        assert(list@.to_multiset().len() == list@.len());
    }
    out
}

/// Whether heap position `k` lies in the subtree rooted at position `root`,
/// in the implicit binary layout where position `k` has parent `k / 2`.
pub open spec fn in_subtree(k: int, root: int) -> bool
    decreases k,
{
    if k < root || k < 1 {
        false
    } else if k == root {
        true
    } else {
        in_subtree(k / 2, root)
    }
}

/// The values of the logical heap from position `lo` on.
pub closed spec fn heap_section<T: Clone>(h: Heap<T>, lo: int) -> Seq<T>
    recommends
        1 <= lo,
{
    h.entries().subrange(lo - 1, h.spec_size())
}

proof fn lemma_section_swap<T: Clone>(pre: Heap<T>, post: Heap<T>, lo: int, i: int, j: int)
    requires
        1 <= lo <= i <= j,
        j <= pre.spec_size(),
        pre.spec_size() == post.spec_size(),
        pre.spec_size() < pre.list@.len(),
        pre.list@.len() == post.list@.len(),
        post.entries() == pre.entries().update(i - 1, pre.at(j)).update(j - 1, pre.at(i)),
    ensures
        heap_section(post, lo).to_multiset() == heap_section(pre, lo).to_multiset(),
{
    let a = heap_section(pre, lo);
    assert(pre.entries()[i - 1] == pre.at(i));
    assert(pre.entries()[j - 1] == pre.at(j));
    crate::order::lemma_swap_preserves_multiset(a, i - lo, j - lo);
    assert(heap_section(post, lo) =~= a.update(i - lo, a[j - lo]).update(j - lo, a[i - lo]));
}

} // verus!
