//! Exchanging two elements of a slice.
use vstd::prelude::*;

use crate::ordering::{is_permutation, lemma_swap_permutes, swapped};

verus! {

/// Exchanges the values at positions `i` and `j` of `arr`.
pub fn swap(arr: &mut [i32], i: usize, j: usize)
    requires
        i < old(arr)@.len(),
        j < old(arr)@.len(),
    ensures
        final(arr)@ == swapped(old(arr)@, i as int, j as int),
        is_permutation(old(arr)@, final(arr)@),
{
    proof {
        lemma_swap_permutes(arr@, i as int, j as int);
    }
    let a = arr[i];
    let b = arr[j];
    arr[i] = b;
    arr[j] = a;
    assert(arr@ =~= swapped(old(arr)@, i as int, j as int));
}

} // verus!
