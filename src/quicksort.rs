//! Recursive quicksort over an inclusive index range, with Lomuto partitioning
//! around the first element of the range.
use vstd::prelude::*;

use crate::ordering::{
    is_permutation, lemma_permutation_keeps_lower_bound, lemma_permutation_keeps_upper_bound,
    lemma_permute_range, lemma_sorted_permutation_unique, lemma_swap_permutes, same_outside,
    sorted_between, swapped,
};
use crate::swap::swap;

verus! {

/// Sorts the inclusive range `[low, high]` of `arr` in place into
/// non-decreasing order and leaves every other position untouched.
///
/// When `low >= high` the range holds at most one element and nothing
/// changes; `high` need not then be a position of `arr`, so an empty slice
/// may be passed with `high == 0`.
pub fn quicksort(arr: &mut [i32], low: usize, high: usize)
    requires
        low < high ==> high < old(arr)@.len(),
    ensures
        same_outside(old(arr)@, final(arr)@, low as int, high + 1),
        is_permutation(old(arr)@, final(arr)@),
        low < high ==> is_permutation(
            old(arr)@.subrange(low as int, high + 1),
            final(arr)@.subrange(low as int, high + 1),
        ),
        low < high ==> sorted_between(final(arr)@, low as int, high + 1),
        sorted_between(old(arr)@, low as int, high + 1) ==> final(arr)@ == old(arr)@,
        low >= high ==> final(arr)@ == old(arr)@,
    decreases high - low,
{
    if low < high {
        let ghost a0 = arr@;
        let pivot_idx = partition(arr, low, high);
        let ghost a1 = arr@;
        let ghost pivot = a1[pivot_idx as int];

        if pivot_idx > low {
            quicksort(arr, low, pivot_idx - 1);
        }
        let ghost a2 = arr@;
        proof {
            let lo = low as int;
            let p = pivot_idx as int;
            if p > lo {
                lemma_permutation_keeps_upper_bound(a1.subrange(lo, p), a2.subrange(lo, p), pivot);
                assert forall|k: int| lo <= k < p implies #[trigger] a2[k] <= pivot by {
                    assert(a2.subrange(lo, p)[k - lo] == a2[k]);
                }
            }
        }
        if pivot_idx < high {
            quicksort(arr, pivot_idx + 1, high);
        }
        let ghost a3 = arr@;
        proof {
            let lo = low as int;
            let hi = high as int;
            let p = pivot_idx as int;
            if p < hi {
                assert forall|k: int| 0 <= k < hi - p implies #[trigger] a2.subrange(
                    p + 1,
                    hi + 1,
                )[k] > pivot by {
                    assert(a2[p + 1 + k] == a1[p + 1 + k]);
                }
                lemma_permutation_keeps_lower_bound(
                    a2.subrange(p + 1, hi + 1),
                    a3.subrange(p + 1, hi + 1),
                    pivot,
                );
                assert forall|k: int| p < k <= hi implies #[trigger] a3[k] > pivot by {
                    assert(a3.subrange(p + 1, hi + 1)[k - p - 1] == a3[k]);
                }
            }
            assert(a3[p] == pivot);
            assert(sorted_between(a3, lo, hi + 1)) by {
                assert forall|i: int, j: int| lo <= i <= j < hi + 1 implies #[trigger] a3[i]
                    <= #[trigger] a3[j] by {
                    if j < p {
                        assert(a3[i] == a2[i] && a3[j] == a2[j]);
                        if i < j {
                            assert(sorted_between(a2, lo, p));
                        }
                    } else if i > p {
                        if i < j {
                            assert(sorted_between(a3, p + 1, hi + 1));
                        }
                    } else {
                        if i < p {
                            assert(a3[i] == a2[i]);
                            assert(a3[i] <= pivot);
                        }
                        if j > p {
                            assert(a3[j] > pivot);
                        }
                    }
                }
            }
            // Each step permutes a sub-range of `[low, high]` and keeps the rest.
            let r0 = a0.subrange(lo, hi + 1);
            let r1 = a1.subrange(lo, hi + 1);
            let r2 = a2.subrange(lo, hi + 1);
            let r3 = a3.subrange(lo, hi + 1);
            if p > lo {
                assert(r1.subrange(0, p - lo) =~= a1.subrange(lo, p));
                assert(r2.subrange(0, p - lo) =~= a2.subrange(lo, p));
                lemma_permute_range(r1, r2, 0, p - lo);
            } else {
                assert(r1 =~= r2);
            }
            if p < hi {
                assert(r2.subrange(p + 1 - lo, hi + 1 - lo) =~= a2.subrange(p + 1, hi + 1));
                assert(r3.subrange(p + 1 - lo, hi + 1 - lo) =~= a3.subrange(p + 1, hi + 1));
                lemma_permute_range(r2, r3, p + 1 - lo, hi + 1 - lo);
            } else {
                assert(r2 =~= r3);
            }
            assert(is_permutation(r0, r3));
            lemma_permute_range(a0, a3, lo, hi + 1);
            if sorted_between(a0, lo, hi + 1) {
                lemma_sorted_permutation_unique(r0, r3);
                assert(a0 =~= a3) by {
                    assert forall|k: int| lo <= k <= hi implies a0[k] == a3[k] by {
                        assert(r0[k - lo] == r3[k - lo]);
                    }
                }
            }
        }
    }
}

/// The Lomuto scan of `[j, high]`, with `i` the last position known to hold a
/// value not above the pivot `s[low]`: each value at `j` that is not above the
/// pivot is exchanged with the one just after `i`, which then moves up by one.
/// Gives the sequence after the scan and the final `i`.
spec fn lomuto_scan(s: Seq<i32>, low: int, i: int, j: int, high: int) -> (Seq<i32>, int)
    decreases high + 1 - j,
{
    if j > high {
        (s, i)
    } else if s[j] <= s[low] {
        lomuto_scan(swapped(s, i + 1, j), low, i + 1, j + 1, high)
    } else {
        lomuto_scan(s, low, i, j + 1, high)
    }
}

/// Lomuto partition of `[low, high]` of `s` around `s[low]`: the scan of
/// `[low + 1, high]` from `i == low`, then the pivot exchanged with position
/// `i`. Gives the partitioned sequence and the pivot's new position.
spec fn lomuto_partition(s: Seq<i32>, low: int, high: int) -> (Seq<i32>, int) {
    let (t, i) = lomuto_scan(s, low, low, low + 1, high);
    (swapped(t, low, i), i)
}

/// Partitions `[low, high]` of `arr` around the value at `low` by the Lomuto
/// scheme, and returns the position that this value ends at.
///
/// Values not above the pivot end before the returned position, values above
/// it after; positions outside the range are untouched.
fn partition(arr: &mut [i32], low: usize, high: usize) -> (p: usize)
    requires
        low <= high < old(arr)@.len(),
    ensures
        (final(arr)@, p as int) == lomuto_partition(old(arr)@, low as int, high as int),
        low <= p <= high,
        final(arr)@[p as int] == old(arr)@[low as int],
        forall|k: int| low <= k < p ==> #[trigger] final(arr)@[k] <= final(arr)@[p as int],
        forall|k: int| p < k <= high ==> #[trigger] final(arr)@[k] > final(arr)@[p as int],
        same_outside(old(arr)@, final(arr)@, low as int, high + 1),
        is_permutation(
            old(arr)@.subrange(low as int, high + 1),
            final(arr)@.subrange(low as int, high + 1),
        ),
{
    let n = arr.len();
    let pivot_idx = low;
    let ghost pivot = arr@[low as int];
    let mut i = pivot_idx;
    let mut j = pivot_idx + 1;

    while j <= high
        invariant
            low <= high < arr@.len(),
            n == arr@.len(),
            pivot_idx == low,
            lomuto_scan(arr@, low as int, i as int, j as int, high as int) == lomuto_scan(
                old(arr)@,
                low as int,
                low as int,
                low + 1,
                high as int,
            ),
            low <= i < j <= high + 1,
            arr@[low as int] == pivot,
            forall|k: int| low < k <= i ==> #[trigger] arr@[k] <= pivot,
            forall|k: int| i < k < j ==> #[trigger] arr@[k] > pivot,
            same_outside(old(arr)@, arr@, low as int, high + 1),
            is_permutation(
                old(arr)@.subrange(low as int, high + 1),
                arr@.subrange(low as int, high + 1),
            ),
        decreases high + 1 - j,
    {
        if arr[j] <= arr[pivot_idx] {
            i += 1;
            let ghost before = arr@;
            swap_in_range(arr, low, high, i, j);
            assert forall|k: int| low < k <= i implies #[trigger] arr@[k] <= pivot by {
                if k < i {
                    assert(arr@[k] == before[k]);
                }
            }
            assert forall|k: int| i < k < j + 1 implies #[trigger] arr@[k] > pivot by {
                if k < j {
                    assert(arr@[k] == before[k]);
                } else {
                    assert(arr@[k] == before[i as int]);
                }
            }
        }
        j += 1;
    }
    swap_in_range(arr, low, high, pivot_idx, i);
    i
}

/// Exchanges the values at positions `i` and `j` of the range `[low, high]`
/// of `arr`, which permutes the range and leaves the rest alone.
fn swap_in_range(arr: &mut [i32], low: usize, high: usize, i: usize, j: usize)
    requires
        low <= i <= high,
        low <= j <= high,
        high < old(arr)@.len(),
    ensures
        final(arr)@ == swapped(old(arr)@, i as int, j as int),
        same_outside(old(arr)@, final(arr)@, low as int, high + 1),
        is_permutation(
            old(arr)@.subrange(low as int, high + 1),
            final(arr)@.subrange(low as int, high + 1),
        ),
{
    let ghost before = arr@;
    swap(arr, i, j);
    proof {
        let lo = low as int;
        let hi = high as int;
        let r = before.subrange(lo, hi + 1);
        lemma_swap_permutes(r, i - lo, j - lo);
        assert(arr@.subrange(lo, hi + 1) =~= swapped(r, i - lo, j - lo));
    }
}

} // verus!
