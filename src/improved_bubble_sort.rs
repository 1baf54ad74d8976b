//! Bubble sort that shrinks its scan window by one element per pass and stops
//! after the first pass that exchanges nothing.
use vstd::prelude::*;

use crate::ordering::{
    is_permutation, is_sorted, lemma_sorted_permutation_unique, sorted_between,
};
use crate::swap::swap;

verus! {

/// Sorts `array` in place into non-decreasing order.
///
/// Each pass moves the largest value of the unsorted prefix to the end of that
/// prefix; the sort ends after a pass that makes no exchange. Slices of length
/// zero or one are left untouched.
pub fn improved_bubble_sort(array: &mut [i32])
    ensures
        is_permutation(old(array)@, final(array)@),
        is_sorted(final(array)@),
        is_sorted(old(array)@) ==> final(array)@ == old(array)@,
        old(array)@.len() <= 1 ==> final(array)@ == old(array)@,
{
    let n = array.len();
    if n <= 1 {
        return;
    }
    let mut i: usize = 0;
    let mut swapped_any = true;

    while swapped_any
        invariant
            n == array@.len(),
            n >= 2,
            i <= n,
            swapped_any ==> i < n,
            is_permutation(old(array)@, array@),
            sorted_between(array@, n - i, n as int),
            forall|p: int, q: int|
                0 <= p < n - i <= q < n ==> #[trigger] array@[p] <= #[trigger] array@[q],
            !swapped_any ==> is_sorted(array@),
        decreases n - i,
    {
        swapped_any = false;
        let end = n - i - 1;
        let mut j: usize = 0;
        while j < end
            invariant
                n == array@.len(),
                i < n,
                end == n - i - 1,
                j <= end,
                is_permutation(old(array)@, array@),
                sorted_between(array@, n - i, n as int),
                forall|p: int, q: int|
                    0 <= p < n - i <= q < n ==> #[trigger] array@[p] <= #[trigger] array@[q],
                forall|k: int| 0 <= k < j ==> #[trigger] array@[k] <= array@[j as int],
                swapped_any ==> 0 < end,
                !swapped_any ==> sorted_between(array@, 0, j + 1),
            decreases end - j,
        {
            if array[j] > array[j + 1] {
                swap(array, j, j + 1);
                swapped_any = true;
            }
            j += 1;
        }
        i += 1;
    }
    proof {
        if is_sorted(old(array)@) {
            lemma_sorted_permutation_unique(old(array)@, array@);
        }
    }
}

} // verus!
