//! Quick sort: the last value of the active window is the pivot; the
//! window is rearranged so that everything at most the pivot precedes it,
//! and both sides are sorted recursively. The partition scheme does not
//! preserve the relative order of equal values.

use vstd::prelude::*;

verus! {

use vstd::slice::slice_to_vec;

use crate::order::exchange;
use crate::order::lemma_swap_subrange_multiset;
use crate::order::lemma_values_carry_over;
use crate::order::sorted;

broadcast use vstd::seq_lib::group_to_multiset_ensures;

/// Rearranges the window `[lo, hi)` around its last value: afterwards the
/// returned position `p` holds that pivot, everything in `[lo, p]` is at
/// most the pivot, and everything in `(p, hi)` is greater.
pub fn partition(arr: &mut Vec<i32>, lo: usize, hi: usize) -> (p: usize)
    requires
        lo < hi <= old(arr)@.len(),
    ensures
        lo <= p < hi,
        final(arr)@.len() == old(arr)@.len(),
        final(arr)@.subrange(lo as int, hi as int).to_multiset()
            == old(arr)@.subrange(lo as int, hi as int).to_multiset(),
        forall|k: int|
            0 <= k < lo || hi <= k < old(arr)@.len() ==> final(arr)@[k] == old(arr)@[k],
        forall|k: int| lo <= k <= p ==> final(arr)@[k] <= final(arr)@[p as int],
        forall|k: int| p < k < hi ==> final(arr)@[k] > final(arr)@[p as int],
{
    let n = arr.len();
    let pivot = arr[hi - 1];
    let mut i = lo;
    let mut j = lo;
    while j < hi - 1
        invariant
            lo <= i <= j <= hi - 1,
            hi <= n,
            n == arr@.len(),
            n == old(arr)@.len(),
            arr@[hi - 1] == pivot,
            arr@.subrange(lo as int, hi as int).to_multiset()
                == old(arr)@.subrange(lo as int, hi as int).to_multiset(),
            forall|k: int| 0 <= k < lo || hi <= k < n ==> arr@[k] == old(arr)@[k],
            forall|k: int| lo <= k < i ==> arr@[k] <= pivot,
            forall|k: int| i <= k < j ==> arr@[k] > pivot,
        decreases hi - 1 - j,
    {
        if arr[j] <= pivot {
            let ghost before = arr@;
            exchange(arr, i, j);
            proof {
                lemma_swap_subrange_multiset(before, lo as int, hi as int, i as int, j as int);
            }
            i = i + 1;
        }
        j = j + 1;
    }
    let ghost before = arr@;
    exchange(arr, i, hi - 1);
    proof {
        lemma_swap_subrange_multiset(before, lo as int, hi as int, i as int, hi - 1);
        assert(arr@[i as int] == pivot);
        assert forall|k: int| i < k < hi implies arr@[k] > arr@[i as int] by {
            if k == hi - 1 {
                if i < hi - 1 {
                    assert(arr@[k] == before[i as int]);
                }
            } else {
                assert(before[k] > pivot);
            }
        }
    }
    i
}

/// Sorts the window `[lo, hi)` in place, leaving everything outside it
/// untouched.
pub fn quick_sort_helper(arr: &mut Vec<i32>, lo: usize, hi: usize)
    requires
        lo <= hi <= old(arr)@.len(),
    ensures
        final(arr)@.len() == old(arr)@.len(),
        final(arr)@.subrange(lo as int, hi as int).to_multiset()
            == old(arr)@.subrange(lo as int, hi as int).to_multiset(),
        sorted(final(arr)@.subrange(lo as int, hi as int)),
        forall|k: int|
            0 <= k < lo || hi <= k < old(arr)@.len() ==> final(arr)@[k] == old(arr)@[k],
    decreases hi - lo,
{
    if hi - lo >= 2 {
        let ghost s0 = arr@;
        let p = partition(arr, lo, hi);
        let ghost s1 = arr@;
        let ghost pivot = s1[p as int];
        quick_sort_helper(arr, lo, p);
        let ghost s2 = arr@;
        quick_sort_helper(arr, p + 1, hi);
        let ghost s3 = arr@;
        proof {
            let loi = lo as int;
            let hii = hi as int;
            let pi = p as int;
            // The right window was untouched by the left recursion.
            assert(s2.subrange(pi + 1, hii) =~= s1.subrange(pi + 1, hii));
            // The left window and the pivot were untouched by the right recursion.
            assert(s3.subrange(loi, pi) =~= s2.subrange(loi, pi));
            assert(s3[pi] == s1[pi]);
            // Values of the left window stay at most the pivot.
            assert forall|k: int| 0 <= k < s1.subrange(loi, pi).len()
                implies s1.subrange(loi, pi)[k] <= pivot by {
                assert(s1[loi + k] <= s1[pi]);
            }
            lemma_values_carry_over(
                s1.subrange(loi, pi),
                s3.subrange(loi, pi),
                |x: i32| x <= pivot,
            );
            // Values of the right window stay greater than the pivot.
            let rightw = s1.subrange(pi + 1, hii);
            assert forall|k: int| 0 <= k < rightw.len() implies rightw[k] > pivot by {
                assert(s1[pi + 1 + k] > s1[pi]);
            }
            lemma_values_carry_over(
                s1.subrange(pi + 1, hii),
                s3.subrange(pi + 1, hii),
                |x: i32| x > pivot,
            );
            // The whole window is sorted.
            let w = s3.subrange(loi, hii);
            assert forall|a: int, b: int| 0 <= a <= b < w.len() implies w[a] <= w[b] by {
                let left = s3.subrange(loi, pi);
                let right = s3.subrange(pi + 1, hii);
                if b < pi - loi {
                    assert(left[a] <= left[b]);
                } else if b == pi - loi {
                    if a < b {
                        assert(left[a] <= pivot);
                    }
                } else {
                    assert(right[b - (pi - loi) - 1] > pivot);
                    if a < pi - loi {
                        assert(left[a] <= pivot);
                    } else if a == pi - loi {
                    } else {
                        assert(right[a - (pi - loi) - 1] <= right[b - (pi - loi) - 1]);
                    }
                }
            }
            // The window's multiset is unchanged from before the partition.
            assert(s3.subrange(loi, hii)
                =~= (s3.subrange(loi, pi) + s3.subrange(pi, pi + 1)) + s3.subrange(pi + 1, hii));
            assert(s1.subrange(loi, hii)
                =~= (s1.subrange(loi, pi) + s1.subrange(pi, pi + 1)) + s1.subrange(pi + 1, hii));
            assert(s3.subrange(pi, pi + 1) =~= s1.subrange(pi, pi + 1));
            vstd::seq_lib::lemma_multiset_commutative(s3.subrange(loi, pi), s3.subrange(pi, pi + 1));
            vstd::seq_lib::lemma_multiset_commutative(
                s3.subrange(loi, pi) + s3.subrange(pi, pi + 1),
                s3.subrange(pi + 1, hii),
            );
            vstd::seq_lib::lemma_multiset_commutative(s1.subrange(loi, pi), s1.subrange(pi, pi + 1));
            vstd::seq_lib::lemma_multiset_commutative(
                s1.subrange(loi, pi) + s1.subrange(pi, pi + 1),
                s1.subrange(pi + 1, hii),
            );
            assert(s3.subrange(loi, hii).to_multiset() =~= s1.subrange(loi, hii).to_multiset());
        }
    } else {
        proof {
            let w = old(arr)@.subrange(lo as int, hi as int);
            assert(sorted(w));
        }
    }
}

/// Quick sort: copies the input and sorts the copy in place.
pub fn quick_sort(arr: &Vec<i32>) -> (r: Vec<i32>)
    ensures
        sorted(r@),
        r@.to_multiset() == arr@.to_multiset(),
        r@.len() == arr@.len(),
{
    let mut result = slice_to_vec(arr.as_slice());
    let n = result.len();
    if n <= 1 {
        return result;
    }
    let ghost before = result@;
    quick_sort_helper(&mut result, 0, n);
    proof {
        assert(result@.subrange(0, n as int) =~= result@);
        assert(before.subrange(0, n as int) =~= before);
    }
    result
}

} // verus!
