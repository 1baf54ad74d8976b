//! The mathematical model shared by the sorts: ordered ranges of a sequence,
//! bounds on a range, and the facts about permutations that the proofs need.
use vstd::prelude::*;

verus! {

broadcast use vstd::seq_lib::group_to_multiset_ensures;

/// Every pair of positions in `[lo, hi)` of `s` is in non-decreasing order.
pub open spec fn sorted_between(s: Seq<i32>, lo: int, hi: int) -> bool {
    forall|i: int, j: int| lo <= i <= j < hi ==> #[trigger] s[i] <= #[trigger] s[j]
}

/// The whole of `s` is in non-decreasing order.
pub open spec fn is_sorted(s: Seq<i32>) -> bool {
    sorted_between(s, 0, s.len() as int)
}

/// `t` holds the same values as `s`, each as often.
pub open spec fn is_permutation(s: Seq<i32>, t: Seq<i32>) -> bool {
    s.to_multiset() == t.to_multiset()
}

/// `s` and `t` agree at every position outside `[lo, hi)`.
pub open spec fn same_outside(s: Seq<i32>, t: Seq<i32>, lo: int, hi: int) -> bool {
    &&& s.len() == t.len()
    &&& forall|k: int| 0 <= k < s.len() && !(lo <= k < hi) ==> #[trigger] s[k] == t[k]
}

/// `s` with the values at positions `i` and `j` exchanged.
pub open spec fn swapped(s: Seq<i32>, i: int, j: int) -> Seq<i32> {
    s.update(i, s[j]).update(j, s[i])
}

/// Exchanging two values keeps the multiset of a sequence.
pub proof fn lemma_swap_permutes(s: Seq<i32>, i: int, j: int)
    requires
        0 <= i < s.len(),
        0 <= j < s.len(),
    ensures
        is_permutation(s, swapped(s, i, j)),
{
    broadcast use vstd::seq_lib::to_multiset_update;
    broadcast use vstd::multiset::group_multiset_axioms;

    let s1 = s.update(i, s[j]);
    assert(s1.to_multiset() == s.to_multiset().insert(s[j]).remove(s[i]));
    assert(s1.update(j, s[i]).to_multiset() == s1.to_multiset().insert(s[i]).remove(s1[j]));
    assert(swapped(s, i, j).to_multiset() =~= s.to_multiset());
}

/// Every value of a permutation of `s` occurs in `s`.
pub proof fn lemma_permutation_contains(s: Seq<i32>, t: Seq<i32>, k: int)
    requires
        is_permutation(s, t),
        0 <= k < t.len(),
    ensures
        s.contains(t[k]),
{
    assert(t.to_multiset().count(t[k]) > 0);
    assert(s.to_multiset().count(t[k]) > 0);
}

/// An upper bound on every value of `s` bounds every value of a permutation of `s`.
pub proof fn lemma_permutation_keeps_upper_bound(s: Seq<i32>, t: Seq<i32>, x: i32)
    requires
        is_permutation(s, t),
        forall|k: int| 0 <= k < s.len() ==> #[trigger] s[k] <= x,
    ensures
        forall|k: int| 0 <= k < t.len() ==> #[trigger] t[k] <= x,
{
    assert forall|k: int| 0 <= k < t.len() implies #[trigger] t[k] <= x by {
        lemma_permutation_contains(s, t, k);
    }
}

/// A strict lower bound on every value of `s` bounds every value of a permutation of `s`.
pub proof fn lemma_permutation_keeps_lower_bound(s: Seq<i32>, t: Seq<i32>, x: i32)
    requires
        is_permutation(s, t),
        forall|k: int| 0 <= k < s.len() ==> #[trigger] s[k] > x,
    ensures
        forall|k: int| 0 <= k < t.len() ==> #[trigger] t[k] > x,
{
    assert forall|k: int| 0 <= k < t.len() implies #[trigger] t[k] > x by {
        lemma_permutation_contains(s, t, k);
    }
}

/// Permuting the range `[lo, hi)` and leaving the rest in place permutes the whole.
pub proof fn lemma_permute_range(s: Seq<i32>, t: Seq<i32>, lo: int, hi: int)
    requires
        0 <= lo <= hi <= s.len(),
        same_outside(s, t, lo, hi),
        is_permutation(s.subrange(lo, hi), t.subrange(lo, hi)),
    ensures
        is_permutation(s, t),
{
    broadcast use vstd::seq_lib::lemma_multiset_commutative;

    let n = s.len() as int;
    assert(s =~= s.subrange(0, lo) + s.subrange(lo, hi) + s.subrange(hi, n));
    assert(t =~= t.subrange(0, lo) + t.subrange(lo, hi) + t.subrange(hi, n));
    assert(s.subrange(0, lo) =~= t.subrange(0, lo));
    assert(s.subrange(hi, n) =~= t.subrange(hi, n));
}

/// A sorted sequence is the only sorted arrangement of its values: sorting a
/// sequence that is already sorted leaves it as it is.
pub proof fn lemma_sorted_permutation_unique(s: Seq<i32>, t: Seq<i32>)
    requires
        is_sorted(s),
        is_sorted(t),
        is_permutation(s, t),
    ensures
        s == t,
    decreases s.len(),
{
    assert(s.len() == s.to_multiset().len());
    assert(t.len() == t.to_multiset().len());
    if s.len() > 0 {
        lemma_permutation_contains(s, t, 0);
        lemma_permutation_contains(t, s, 0);
        assert(s[0] == t[0]);
        let s1 = s.remove(0);
        let t1 = t.remove(0);
        assert(s1.to_multiset() == s.to_multiset().remove(s[0]));
        assert(t1.to_multiset() == t.to_multiset().remove(t[0]));
        assert(is_sorted(s1)) by {
            assert forall|i: int, j: int| 0 <= i <= j < s1.len() implies s1[i] <= s1[j] by {
                assert(s1[i] == s[i + 1] && s1[j] == s[j + 1]);
            }
        }
        assert(is_sorted(t1)) by {
            assert forall|i: int, j: int| 0 <= i <= j < t1.len() implies t1[i] <= t1[j] by {
                assert(t1[i] == t[i + 1] && t1[j] == t[j + 1]);
            }
        }
        lemma_sorted_permutation_unique(s1, t1);
        assert(s =~= t) by {
            assert forall|k: int| 0 <= k < s.len() implies s[k] == t[k] by {
                if k > 0 {
                    assert(s1[k - 1] == t1[k - 1]);
                }
            }
        }
    } else {
        assert(s =~= t);
    }
}

} // verus!
