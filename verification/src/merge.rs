//! Merge sort: the input is split at the midpoint, both halves are sorted
//! recursively, and the sorted halves are interleaved. The merge step's
//! contract is exact — `merge_seq` takes the front of the left half
//! whenever the two fronts are equal, which is what makes merge sort
//! stable.

use vstd::prelude::*;

verus! {

use vstd::multiset::Multiset;
use vstd::seq_lib::lemma_multiset_commutative;
use vstd::slice::slice_subrange;
use vstd::slice::slice_to_vec;

use crate::order::sorted;

broadcast use {vstd::seq_lib::group_to_multiset_ensures, vstd::multiset::group_multiset_axioms};

/// The interleaving of two sequences that repeatedly takes the smaller
/// front value, favouring the left sequence on ties.
pub open spec fn merge_seq(a: Seq<i32>, b: Seq<i32>) -> Seq<i32>
    decreases a.len() + b.len(),
{
    if a.len() == 0 {
        b
    } else if b.len() == 0 {
        a
    } else if a[0] <= b[0] {
        seq![a[0]] + merge_seq(a.drop_first(), b)
    } else {
        seq![b[0]] + merge_seq(a, b.drop_first())
    }
}

/// Interleaving two sorted sequences yields a sorted sequence holding the
/// values of both.
pub proof fn lemma_merge_seq_ensures(a: Seq<i32>, b: Seq<i32>)
    requires
        sorted(a),
        sorted(b),
    ensures
        sorted(merge_seq(a, b)),
        merge_seq(a, b).to_multiset() == a.to_multiset().add(b.to_multiset()),
        merge_seq(a, b).len() == a.len() + b.len(),
    decreases a.len() + b.len(),
{
    let m = merge_seq(a, b);
    if a.len() == 0 {
        assert forall|v: i32| a.to_multiset().count(v) == 0 by {
            assert(!a.contains(v));
        }
        assert(a.to_multiset() =~= Multiset::<i32>::empty());
        assert(m.to_multiset() =~= a.to_multiset().add(b.to_multiset()));
    } else if b.len() == 0 {
        assert forall|v: i32| b.to_multiset().count(v) == 0 by {
            assert(!b.contains(v));
        }
        assert(b.to_multiset() =~= Multiset::<i32>::empty());
        assert(m.to_multiset() =~= a.to_multiset().add(b.to_multiset()));
    } else if a[0] <= b[0] {
        let a1 = a.drop_first();
        assert(sorted(a1)) by {
            assert forall|i: int, j: int| 0 <= i <= j < a1.len() implies a1[i] <= a1[j] by {
                assert(a[i + 1] <= a[j + 1]);
            }
        }
        lemma_merge_seq_ensures(a1, b);
        let rest = merge_seq(a1, b);
        assert forall|k: int| 0 <= k < rest.len() implies a[0] <= #[trigger] rest[k] by {
            assert(rest.contains(rest[k]));
            assert(rest.to_multiset().count(rest[k]) > 0);
            if a1.to_multiset().count(rest[k]) > 0 {
                assert(a1.contains(rest[k]));
                let w = choose|w: int| 0 <= w < a1.len() && a1[w] == rest[k];
                assert(a[0] <= a[w + 1]);
            } else {
                assert(b.to_multiset().count(rest[k]) > 0);
                assert(b.contains(rest[k]));
                let w = choose|w: int| 0 <= w < b.len() && b[w] == rest[k];
                assert(b[0] <= b[w]);
            }
        }
        assert(m == seq![a[0]] + rest);
        assert forall|i: int, j: int| 0 <= i <= j < m.len() implies m[i] <= m[j] by {
            if i == 0 {
                if j > 0 {
                    assert(m[j] == rest[j - 1]);
                }
            } else {
                assert(rest[i - 1] <= rest[j - 1]);
            }
        }
        assert(seq![a[0]] =~= Seq::<i32>::empty().push(a[0]));
        lemma_multiset_commutative(seq![a[0]], rest);
        assert(a =~= seq![a[0]] + a1);
        lemma_multiset_commutative(seq![a[0]], a1);
        assert(m.to_multiset() =~= a.to_multiset().add(b.to_multiset()));
    } else {
        let b1 = b.drop_first();
        assert(sorted(b1)) by {
            assert forall|i: int, j: int| 0 <= i <= j < b1.len() implies b1[i] <= b1[j] by {
                assert(b[i + 1] <= b[j + 1]);
            }
        }
        lemma_merge_seq_ensures(a, b1);
        let rest = merge_seq(a, b1);
        assert forall|k: int| 0 <= k < rest.len() implies b[0] <= #[trigger] rest[k] by {
            assert(rest.contains(rest[k]));
            assert(rest.to_multiset().count(rest[k]) > 0);
            if a.to_multiset().count(rest[k]) > 0 {
                assert(a.contains(rest[k]));
                let w = choose|w: int| 0 <= w < a.len() && a[w] == rest[k];
                assert(a[0] <= a[w]);
            } else {
                assert(b1.to_multiset().count(rest[k]) > 0);
                assert(b1.contains(rest[k]));
                let w = choose|w: int| 0 <= w < b1.len() && b1[w] == rest[k];
                assert(b[0] <= b[w + 1]);
            }
        }
        assert(m == seq![b[0]] + rest);
        assert forall|i: int, j: int| 0 <= i <= j < m.len() implies m[i] <= m[j] by {
            if i == 0 {
                if j > 0 {
                    assert(m[j] == rest[j - 1]);
                }
            } else {
                assert(rest[i - 1] <= rest[j - 1]);
            }
        }
        assert(seq![b[0]] =~= Seq::<i32>::empty().push(b[0]));
        lemma_multiset_commutative(seq![b[0]], rest);
        assert(b =~= seq![b[0]] + b1);
        lemma_multiset_commutative(seq![b[0]], b1);
        assert(m.to_multiset() =~= a.to_multiset().add(b.to_multiset()));
    }
}


/// The tie rule that makes merge sort stable: when the two fronts are
/// equal, the interleaving takes the left one first and goes on with the
/// rest of the left half.
pub proof fn lemma_merge_seq_takes_left_on_ties(a: Seq<i32>, b: Seq<i32>)
    requires
        a.len() > 0,
        b.len() > 0,
        a[0] == b[0],
    ensures
        merge_seq(a, b)[0] == a[0],
        merge_seq(a, b).drop_first() == merge_seq(a.drop_first(), b),
{
    assert(merge_seq(a, b) == seq![a[0]] + merge_seq(a.drop_first(), b));
    assert((seq![a[0]] + merge_seq(a.drop_first(), b)).drop_first() =~= merge_seq(
        a.drop_first(),
        b,
    ));
}

/// Interleaves two vectors by repeatedly taking the smaller front value;
/// on ties the left vector's value is taken first.
pub fn merge(left: &Vec<i32>, right: &Vec<i32>) -> (r: Vec<i32>)
    ensures
        r@ == merge_seq(left@, right@),
{
    let mut result: Vec<i32> = Vec::new();
    let mut i: usize = 0;
    let mut j: usize = 0;
    proof {
        assert(left@.skip(0) =~= left@);
        assert(right@.skip(0) =~= right@);
        assert(result@ + merge_seq(left@, right@) =~= merge_seq(left@, right@));
    }
    while i < left.len() && j < right.len()
        invariant
            i <= left@.len(),
            j <= right@.len(),
            merge_seq(left@, right@) == result@ + merge_seq(
                left@.skip(i as int),
                right@.skip(j as int),
            ),
        decreases left@.len() - i + right@.len() - j,
    {
        let ghost la = left@.skip(i as int);
        let ghost rb = right@.skip(j as int);
        if left[i] <= right[j] {
            proof {
                assert(la[0] == left@[i as int]);
                assert(la.drop_first() =~= left@.skip(i + 1));
                assert(merge_seq(la, rb) == seq![la[0]] + merge_seq(la.drop_first(), rb));
                assert((result@ + seq![left@[i as int]]) + merge_seq(left@.skip(i + 1), rb)
                    =~= result@ + (seq![left@[i as int]] + merge_seq(left@.skip(i + 1), rb)));
            }
            let x = left[i];
            result.push(x);
            i = i + 1;
        } else {
            proof {
                assert(rb[0] == right@[j as int]);
                assert(rb.drop_first() =~= right@.skip(j + 1));
                assert(merge_seq(la, rb) == seq![rb[0]] + merge_seq(la, rb.drop_first()));
                assert((result@ + seq![right@[j as int]]) + merge_seq(la, right@.skip(j + 1))
                    =~= result@ + (seq![right@[j as int]] + merge_seq(la, right@.skip(j + 1))));
            }
            let x = right[j];
            result.push(x);
            j = j + 1;
        }
    }
    while i < left.len()
        invariant
            i <= left@.len(),
            j <= right@.len(),
            i < left@.len() ==> j == right@.len(),
            merge_seq(left@, right@) == result@ + merge_seq(
                left@.skip(i as int),
                right@.skip(j as int),
            ),
        decreases left@.len() - i,
    {
        proof {
            let la = left@.skip(i as int);
            let rb = right@.skip(j as int);
            assert(rb.len() == 0);
            assert(merge_seq(la, rb) == la);
            assert(la =~= seq![left@[i as int]] + left@.skip(i + 1));
            assert(merge_seq(left@.skip(i + 1), rb) == left@.skip(i + 1));
            assert((result@ + seq![left@[i as int]]) + left@.skip(i + 1)
                =~= result@ + (seq![left@[i as int]] + left@.skip(i + 1)));
        }
        let x = left[i];
        result.push(x);
        i = i + 1;
    }
    while j < right.len()
        invariant
            i == left@.len(),
            j <= right@.len(),
            merge_seq(left@, right@) == result@ + merge_seq(
                left@.skip(i as int),
                right@.skip(j as int),
            ),
        decreases right@.len() - j,
    {
        proof {
            let la = left@.skip(i as int);
            let rb = right@.skip(j as int);
            assert(la.len() == 0);
            assert(merge_seq(la, rb) == rb);
            assert(rb =~= seq![right@[j as int]] + right@.skip(j + 1));
            assert(merge_seq(la, right@.skip(j + 1)) == right@.skip(j + 1));
            assert((result@ + seq![right@[j as int]]) + right@.skip(j + 1)
                =~= result@ + (seq![right@[j as int]] + right@.skip(j + 1)));
        }
        let x = right[j];
        result.push(x);
        j = j + 1;
    }
    proof {
        let la = left@.skip(i as int);
        let rb = right@.skip(j as int);
        assert(la.len() == 0);
        assert(rb.len() == 0);
        assert(merge_seq(la, rb) == rb);
        assert(result@ + rb =~= result@);
    }
    result
}

/// Merge sort: splits at the midpoint (left-biased for odd lengths),
/// sorts each half, and interleaves the sorted halves.
pub fn merge_sort(arr: &Vec<i32>) -> (r: Vec<i32>)
    ensures
        sorted(r@),
        r@.to_multiset() == arr@.to_multiset(),
        r@.len() == arr@.len(),
    decreases arr@.len(),
{
    if arr.len() <= 1 {
        return slice_to_vec(arr.as_slice());
    }
    let mid = arr.len() / 2;
    let left_part = slice_to_vec(slice_subrange(arr.as_slice(), 0, mid));
    let right_part = slice_to_vec(slice_subrange(arr.as_slice(), mid, arr.len()));
    let left_sorted = merge_sort(&left_part);
    let right_sorted = merge_sort(&right_part);
    let r = merge(&left_sorted, &right_sorted);
    proof {
        lemma_merge_seq_ensures(left_sorted@, right_sorted@);
        assert(arr@ =~= left_part@ + right_part@);
        lemma_multiset_commutative(left_part@, right_part@);
        assert(r@.to_multiset() =~= arr@.to_multiset());
    }
    r
}

} // verus!
