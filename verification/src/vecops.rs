//! Small verified vector operations shared by the sorting algorithms.

use vstd::prelude::*;

use crate::order::clone_exact;

verus! {

/// Exchanges the elements at positions `i` and `j` of `list`.
pub fn swap_entries<T>(list: &mut Vec<T>, i: usize, j: usize)
    requires
        i < old(list).len(),
        j < old(list).len(),
    ensures
        final(list)@ == old(list)@.update(i as int, old(list)@[j as int]).update(
            j as int,
            old(list)@[i as int],
        ),
        final(list)@.to_multiset() == old(list)@.to_multiset(),
        final(list)@.len() == old(list)@.len(),
{
    proof {
        crate::order::lemma_swap_preserves_multiset(list@, i as int, j as int);
    }
    let ghost target = list@.update(i as int, list@[j as int]).update(j as int, list@[i as int]);
    // two elements of a vector cannot be borrowed mutably at once, so the
    // exchange goes through a temporary popped off the end
    if i != j {
        let last_idx = list.len() - 1;
        let mut tmp = list.pop().unwrap();
        if i == last_idx {
            list.set_and_swap(j, &mut tmp);
            list.push(tmp);
        } else if j == last_idx {
            list.set_and_swap(i, &mut tmp);
            list.push(tmp);
        } else {
            list.set_and_swap(i, &mut tmp);
            list.set_and_swap(j, &mut tmp);
            list.set_and_swap(i, &mut tmp);
            list.push(tmp);
        }
    }
    proof {
        assert(list@ =~= target);
    }
}

/// Copies the elements at positions `start..end` of `list` into a new vector.
pub fn subvec<T: Clone>(list: &Vec<T>, start: usize, end: usize) -> (out: Vec<T>)
    requires
        start <= end <= list.len(),
        clone_exact::<T>(),
    ensures
        out@ == list@.subrange(start as int, end as int),
{
    let mut out: Vec<T> = Vec::new();
    proof {
        assert(out@ =~= list@.subrange(start as int, start as int));
    }
    let mut k = start;
    while k < end
        invariant
            start <= k <= end <= list.len(),
            clone_exact::<T>(),
            out@ == list@.subrange(start as int, k as int),
        decreases end - k,
    {
        out.push(clone_value(&list[k]));
        k += 1;
        proof {
            assert(out@ =~= list@.subrange(start as int, k as int));
        }
    }
    out
}

/// Clones one element; under [`clone_exact`] the copy equals the original.
pub fn clone_value<T: Clone>(x: &T) -> (out: T)
    requires
        clone_exact::<T>(),
    ensures
        out == *x,
{
    let out = x.clone();
    proof {
        assert(cloned::<T>(*x, out));
    }
    out
}

} // verus!
