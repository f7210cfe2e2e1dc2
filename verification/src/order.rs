//! The order and permutation vocabulary shared by every sorting routine:
//! what it means for a sequence to be sorted, which sequence rearrangements
//! preserve the multiset of values, and the uniqueness of sorted
//! arrangements.

use vstd::prelude::*;

verus! {

use vstd::relations::sorted_by;
use vstd::relations::total_ordering;
use vstd::seq_lib::lemma_multiset_commutative;
use vstd::seq_lib::lemma_sorted_unique;

broadcast use vstd::seq_lib::group_to_multiset_ensures;

/// A sequence is sorted when its values never decrease from left to right.
pub open spec fn sorted(s: Seq<i32>) -> bool {
    forall|i: int, j: int| 0 <= i <= j < s.len() ==> s[i] <= s[j]
}

/// The sequence `s` with the values at positions `i` and `j` exchanged.
pub open spec fn swap_seq(s: Seq<i32>, i: int, j: int) -> Seq<i32> {
    s.update(i, s[j]).update(j, s[i])
}

/// Exchanging two positions leaves the multiset of values unchanged.
pub proof fn lemma_swap_multiset(s: Seq<i32>, i: int, j: int)
    requires
        0 <= i < s.len(),
        0 <= j < s.len(),
    ensures
        swap_seq(s, i, j).to_multiset() == s.to_multiset(),
{
    if i == j {
        assert(swap_seq(s, i, j) =~= s);
    } else {
        let s1 = s.update(i, s[j]);
        assert(s1[j] == s[j]);
        assert(s1.to_multiset() == s.to_multiset().insert(s[j]).remove(s[i]));
        assert(swap_seq(s, i, j).to_multiset() == s1.to_multiset().insert(s[i]).remove(s[j]));
        assert(s.contains(s[i]));
        assert(s.contains(s[j]));
        assert(swap_seq(s, i, j).to_multiset() =~= s.to_multiset());
    }
}

/// Exchanging two positions inside a window leaves the multiset of that
/// window unchanged.
pub proof fn lemma_swap_subrange_multiset(s: Seq<i32>, lo: int, hi: int, i: int, j: int)
    requires
        0 <= lo <= i < hi <= s.len(),
        lo <= j < hi,
    ensures
        swap_seq(s, i, j).subrange(lo, hi).to_multiset() == s.subrange(lo, hi).to_multiset(),
{
    let t = s.subrange(lo, hi);
    assert(swap_seq(s, i, j).subrange(lo, hi) =~= swap_seq(t, i - lo, j - lo));
    lemma_swap_multiset(t, i - lo, j - lo);
}

/// Two sequences of the same length that agree outside a window and whose
/// windows hold the same multiset hold the same multiset overall.
pub proof fn lemma_multiset_from_window(s1: Seq<i32>, s2: Seq<i32>, lo: int, hi: int)
    requires
        s1.len() == s2.len(),
        0 <= lo <= hi <= s1.len(),
        s2.subrange(lo, hi).to_multiset() == s1.subrange(lo, hi).to_multiset(),
        forall|k: int| 0 <= k < lo ==> s2[k] == s1[k],
        forall|k: int| hi <= k < s1.len() ==> s2[k] == s1[k],
    ensures
        s2.to_multiset() == s1.to_multiset(),
{
    let n = s1.len() as int;
    assert(s2.subrange(0, lo) =~= s1.subrange(0, lo));
    assert(s2.subrange(hi, n) =~= s1.subrange(hi, n));
    assert(s1 =~= (s1.subrange(0, lo) + s1.subrange(lo, hi)) + s1.subrange(hi, n));
    assert(s2 =~= (s2.subrange(0, lo) + s2.subrange(lo, hi)) + s2.subrange(hi, n));
    lemma_multiset_commutative(s1.subrange(0, lo), s1.subrange(lo, hi));
    lemma_multiset_commutative(s1.subrange(0, lo) + s1.subrange(lo, hi), s1.subrange(hi, n));
    lemma_multiset_commutative(s2.subrange(0, lo), s2.subrange(lo, hi));
    lemma_multiset_commutative(s2.subrange(0, lo) + s2.subrange(lo, hi), s2.subrange(hi, n));
}

/// A property that holds of every value of a sequence holds of every value
/// of any rearrangement of it.
pub proof fn lemma_values_carry_over<A>(a: Seq<A>, b: Seq<A>, p: spec_fn(A) -> bool)
    requires
        a.to_multiset() == b.to_multiset(),
        forall|k: int| 0 <= k < a.len() ==> p(#[trigger] a[k]),
    ensures
        forall|k: int| 0 <= k < b.len() ==> p(#[trigger] b[k]),
{
    assert forall|k: int| 0 <= k < b.len() implies p(#[trigger] b[k]) by {
        assert(b.contains(b[k]));
        assert(b.to_multiset().count(b[k]) > 0);
        assert(a.to_multiset().count(b[k]) > 0);
        assert(a.contains(b[k]));
        let w = choose|w: int| 0 <= w < a.len() && a[w] == b[k];
        assert(p(a[w]));
    }
}

/// Sorted arrangements are unique: two sorted sequences holding the same
/// multiset of values are equal.
///
/// Read one way, this says that every routine meeting the sorting contract
/// returns an already-sorted input unchanged, value for value. Read another
/// way, it says that any two routines meeting the contract agree on every
/// input — for instance, bucket sort given a single bucket returns exactly
/// what a plain insertion sort of the whole input returns.
pub proof fn lemma_sorted_permutation_unique(a: Seq<i32>, b: Seq<i32>)
    requires
        sorted(a),
        sorted(b),
        a.to_multiset() == b.to_multiset(),
    ensures
        a == b,
{
    let le = |x: i32, y: i32| x <= y;
    assert forall|x: i32, y: i32| #[trigger] le(x, y) && #[trigger] le(y, x) implies x == y by {}
    assert(total_ordering(le));
    assert forall|i: int, j: int| 0 <= i < j < a.len() implies #[trigger] le(a[i], a[j]) by {
        assert(a[i] <= a[j]);
    }
    assert forall|i: int, j: int| 0 <= i < j < b.len() implies #[trigger] le(b[i], b[j]) by {
        assert(b[i] <= b[j]);
    }
    assert(sorted_by(a, le));
    assert(sorted_by(b, le));
    lemma_sorted_unique(a, b, le);
    assert(a =~= b);
}

/// Exchanges the values at positions `i` and `j`.
pub(crate) fn exchange(v: &mut Vec<i32>, i: usize, j: usize)
    requires
        i < old(v)@.len(),
        j < old(v)@.len(),
    ensures
        final(v)@ == swap_seq(old(v)@, i as int, j as int),
        final(v)@.len() == old(v)@.len(),
{
    let x = v[i];
    let y = v[j];
    v[i] = y;
    v[j] = x;
    assert(v@ =~= swap_seq(old(v)@, i as int, j as int));
}

} // verus!
