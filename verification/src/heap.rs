//! Heap sort: an implicit binary max-heap is built over the vector by
//! sifting every internal node down, then the root — the maximum — is
//! repeatedly exchanged with the last unsorted position and the shrunken
//! heap is repaired.

use vstd::prelude::*;

verus! {

use vstd::slice::slice_to_vec;

use crate::order::exchange;
use crate::order::lemma_multiset_from_window;
use crate::order::lemma_swap_multiset;
use crate::order::lemma_values_carry_over;
use crate::order::sorted;

broadcast use vstd::seq_lib::group_to_multiset_ensures;

/// Position `k` respects the max-heap shape within the first `n` values:
/// neither of its children (when inside the heap) exceeds it.
pub open spec fn node_ok(s: Seq<i32>, n: int, k: int) -> bool {
    &&& (2 * k + 1 < n ==> s[k] >= s[2 * k + 1])
    &&& (2 * k + 2 < n ==> s[k] >= s[2 * k + 2])
}

/// Every position from `from` up to `n` respects the max-heap shape.
pub open spec fn heap_upto(s: Seq<i32>, n: int, from: int) -> bool {
    forall|k: int| from <= k < n ==> #[trigger] node_ok(s, n, k)
}

/// In a full max-heap over the first `n` values, the root bounds them all.
pub proof fn lemma_heap_root_max(s: Seq<i32>, n: int, k: int)
    requires
        0 <= k < n <= s.len(),
        heap_upto(s, n, 0),
    ensures
        s[k] <= s[0],
    decreases k,
{
    if k > 0 {
        let parent = (k - 1) / 2;
        assert(0 <= parent < k);
        assert(k == 2 * parent + 1 || k == 2 * parent + 2);
        assert(node_ok(s, n, parent));
        lemma_heap_root_max(s, n, parent);
    }
}

/// Sifts the value at position `i` down until the first `n` positions from
/// `i` on all respect the max-heap shape. Everything before `i` and from
/// `n` on is untouched.
pub fn heapify(arr: &mut Vec<i32>, n: usize, i: usize)
    requires
        i < n <= old(arr)@.len(),
        heap_upto(old(arr)@, n as int, i as int + 1),
    ensures
        final(arr)@.len() == old(arr)@.len(),
        heap_upto(final(arr)@, n as int, i as int),
        final(arr)@.subrange(i as int, n as int).to_multiset()
            == old(arr)@.subrange(i as int, n as int).to_multiset(),
        forall|k: int|
            0 <= k < i || n <= k < old(arr)@.len() ==> final(arr)@[k] == old(arr)@[k],
{
    let mut j = i;
    loop
        invariant
            i <= j < n <= arr@.len(),
            arr@.len() == old(arr)@.len(),
            arr@.subrange(i as int, n as int).to_multiset()
                == old(arr)@.subrange(i as int, n as int).to_multiset(),
            forall|k: int|
                0 <= k < i || n <= k < old(arr)@.len() ==> arr@[k] == old(arr)@[k],
            forall|k: int|
                i <= k < n && k != j ==> #[trigger] node_ok(arr@, n as int, k),
            j > i ==> i <= (j - 1) / 2,
            j > i ==> (2 * j + 1 < n ==> arr@[(j - 1) / 2] >= arr@[2 * j + 1]),
            j > i ==> (2 * j + 2 < n ==> arr@[(j - 1) / 2] >= arr@[2 * j + 2]),
        ensures
            arr@.len() == old(arr)@.len(),
            heap_upto(arr@, n as int, i as int),
            arr@.subrange(i as int, n as int).to_multiset()
                == old(arr)@.subrange(i as int, n as int).to_multiset(),
            forall|k: int|
                0 <= k < i || n <= k < old(arr)@.len() ==> arr@[k] == old(arr)@[k],
        decreases n - j,
    {
        let mut largest = j;
        if j + 1 <= n - 1 - j {
            let left = 2 * j + 1;
            if arr[left] > arr[largest] {
                largest = left;
            }
            if left + 1 < n {
                let right = left + 1;
                if arr[right] > arr[largest] {
                    largest = right;
                }
            }
        }
        if largest == j {
            proof {
                assert(node_ok(arr@, n as int, j as int));
            }
            break;
        }
        let ghost s = arr@;
        exchange(arr, j, largest);
        proof {
            crate::order::lemma_swap_subrange_multiset(
                s,
                i as int,
                n as int,
                j as int,
                largest as int,
            );
            let t = arr@;
            let ji = j as int;
            let gi = largest as int;
            assert(gi == 2 * ji + 1 || gi == 2 * ji + 2);
            assert(t[ji] == s[gi] && t[gi] == s[ji]);
            assert(s[gi] >= s[ji]);
            assert(2 * ji + 1 < n ==> s[gi] >= s[2 * ji + 1]);
            assert(2 * ji + 2 < n ==> s[gi] >= s[2 * ji + 2]);
            assert forall|k: int|
                i <= k < n && k != gi implies #[trigger] node_ok(t, n as int, k) by {
                if k == ji {
                    assert(2 * ji + 1 < n);
                } else if ji > i && k == (ji - 1) / 2 {
                    assert(ji == 2 * k + 1 || ji == 2 * k + 2);
                    assert(node_ok(s, n as int, k));
                } else {
                    assert(k != ji && k != gi);
                    assert(2 * k + 1 != ji && 2 * k + 2 != ji) by {
                        if 2 * k + 1 == ji || 2 * k + 2 == ji {
                            assert(k == (ji - 1) / 2);
                            assert(ji > i);
                        }
                    }
                    assert(2 * k + 1 != gi && 2 * k + 2 != gi) by {
                        if 2 * k + 1 == gi || 2 * k + 2 == gi {
                            assert(k == (gi - 1) / 2);
                            assert(k == ji);
                        }
                    }
                    assert(node_ok(s, n as int, k));
                }
            }
            assert((gi - 1) / 2 == ji);
            assert(node_ok(s, n as int, gi));
            assert(2 * gi + 1 < n ==> t[ji] >= t[2 * gi + 1]);
            assert(2 * gi + 2 < n ==> t[ji] >= t[2 * gi + 2]);
        }
        j = largest;
    }
}

/// Heap sort: builds a max-heap over the copy, then repeatedly moves the
/// root behind the shrinking heap.
pub fn heap_sort(arr: &Vec<i32>) -> (r: Vec<i32>)
    ensures
        sorted(r@),
        r@.to_multiset() == arr@.to_multiset(),
        r@.len() == arr@.len(),
{
    let mut result = slice_to_vec(arr.as_slice());
    let n = result.len();
    if n <= 1 {
        return result;
    }
    proof {
        assert forall|k: int| n / 2 <= k < n implies #[trigger] node_ok(result@, n as int, k) by {
            assert(2 * k + 1 >= n);
        }
    }
    let mut i = n / 2;
    while i > 0
        invariant
            i <= n,
            n == result@.len(),
            n == arr@.len(),
            result@.to_multiset() == arr@.to_multiset(),
            heap_upto(result@, n as int, i as int),
        decreases i,
    {
        i = i - 1;
        let ghost before = result@;
        heapify(&mut result, n, i);
        proof {
            lemma_multiset_from_window(before, result@, i as int, n as int);
        }
    }
    let mut m = n;
    while m > 1
        invariant
            1 <= m <= n,
            n == result@.len(),
            n == arr@.len(),
            result@.to_multiset() == arr@.to_multiset(),
            heap_upto(result@, m as int, 0),
            sorted(result@.subrange(m as int, n as int)),
            forall|a: int, b: int| 0 <= a < m <= b < n ==> result@[a] <= result@[b],
        decreases m,
    {
        m = m - 1;
        let ghost s = result@;
        exchange(&mut result, 0, m);
        proof {
            lemma_swap_multiset(s, 0, m as int);
            let t = result@;
            let mi = m as int;
            assert forall|k: int| 0 <= k < mi + 1 implies #[trigger] s[k] <= s[0] by {
                lemma_heap_root_max(s, mi + 1, k);
            }
            // The moved root extends the sorted tail.
            assert forall|a: int, b: int| 0 <= a < mi <= b < n implies t[a] <= t[b] by {
                if a == 0 {
                    assert(t[0] == s[mi]);
                } else {
                    assert(t[a] == s[a]);
                }
                if b == mi {
                    assert(t[b] == s[0]);
                } else {
                    assert(t[b] == s[b]);
                    assert(s[0] <= s[b]);
                }
            }
            let tail = t.subrange(mi, n as int);
            assert forall|a: int, b: int| 0 <= a <= b < tail.len() implies tail[a] <= tail[b] by {
                if a == 0 {
                    if b > 0 {
                        assert(tail[b] == s[mi + b]);
                        assert(tail[a] == s[0]);
                    }
                } else {
                    assert(s.subrange(mi + 1, n as int)[a - 1]
                        <= s.subrange(mi + 1, n as int)[b - 1]);
                }
            }
            assert(sorted(t.subrange(mi, n as int)));
            // The prefix is a heap except at the root.
            assert forall|k: int| 0 < k < mi implies #[trigger] node_ok(t, mi, k) by {
                assert(node_ok(s, mi + 1, k));
                assert(t[k] == s[k]);
                assert(2 * k + 1 < mi ==> t[2 * k + 1] == s[2 * k + 1]);
                assert(2 * k + 2 < mi ==> t[2 * k + 2] == s[2 * k + 2]);
            }
        }
        let ghost t = result@;
        heapify(&mut result, m, 0);
        proof {
            lemma_multiset_from_window(t, result@, 0, m as int);
            let u = result@;
            let mi = m as int;
            // Values in the repaired prefix are still bounded by the tail.
            assert forall|k: int| 0 <= k < t.subrange(0, mi).len()
                implies t.subrange(0, mi)[k] <= t[mi] by {
                assert(t.subrange(0, mi)[k] == t[k]);
            }
            lemma_values_carry_over(
                t.subrange(0, mi),
                u.subrange(0, mi),
                |x: i32| x <= t[mi],
            );
            assert forall|a: int, b: int| 0 <= a < mi <= b < n implies u[a] <= u[b] by {
                assert(u.subrange(0, mi)[a] == u[a]);
                assert(u[a] <= t[mi]);
                assert(u[b] == t[b]);
                assert(t.subrange(mi, n as int)[0] <= t.subrange(mi, n as int)[b - mi]);
            }
            assert(u.subrange(mi, n as int) =~= t.subrange(mi, n as int));
        }
    }
    proof {
        let s = result@;
        assert forall|a: int, b: int| 0 <= a <= b < n implies s[a] <= s[b] by {
            if a >= 1 {
                assert(s.subrange(1, n as int)[a - 1] <= s.subrange(1, n as int)[b - 1]);
            } else if b >= 1 {
                assert(s[a] <= s[b]);
            }
        }
    }
    result
}

} // verus!
