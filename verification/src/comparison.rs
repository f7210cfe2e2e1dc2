//! The in-place comparison sorts: bubble, selection, insertion and shell
//! sort. Each copies its input, rearranges the copy by exchanging
//! positions, and returns it; the contract of each states that the result
//! is sorted and holds exactly the input's multiset of values.

use vstd::prelude::*;

verus! {

use vstd::slice::slice_to_vec;

use crate::order::exchange;
use crate::order::lemma_swap_multiset;
use crate::order::sorted;

broadcast use vstd::seq_lib::group_to_multiset_ensures;

/// Bubble sort: repeatedly exchanges adjacent values that are out of
/// order, and stops early once a whole pass needs no exchange.
pub fn bubble_sort(arr: &Vec<i32>) -> (r: Vec<i32>)
    ensures
        sorted(r@),
        r@.to_multiset() == arr@.to_multiset(),
        r@.len() == arr@.len(),
{
    let mut result = slice_to_vec(arr.as_slice());
    let n = result.len();
    let mut i: usize = 0;
    while i < n
        invariant_except_break
            i <= n,
            n == result@.len(),
            n == arr@.len(),
            result@.to_multiset() == arr@.to_multiset(),
            sorted(result@.subrange(n - i, n as int)),
            forall|a: int, b: int|
                0 <= a < n - i <= b < n ==> result@[a] <= result@[b],
        ensures
            sorted(result@.subrange(0, n as int)),
            result@.to_multiset() == arr@.to_multiset(),
            result@.len() == n,
        decreases n - i,
    {
        let mut swapped = false;
        let mut j: usize = 0;
        while j < n - i - 1
            invariant
                i < n,
                j <= n - i - 1,
                n == result@.len(),
                n == arr@.len(),
                result@.to_multiset() == arr@.to_multiset(),
                sorted(result@.subrange(n - i, n as int)),
                forall|a: int, b: int|
                    0 <= a < n - i <= b < n ==> result@[a] <= result@[b],
                forall|k: int| 0 <= k < j ==> result@[k] <= result@[j as int],
                !swapped ==> sorted(result@.subrange(0, j + 1)),
            decreases n - i - 1 - j,
        {
            if result[j] > result[j + 1] {
                let ghost before = result@;
                exchange(&mut result, j, j + 1);
                swapped = true;
                proof {
                    lemma_swap_multiset(before, j as int, j + 1);
                    assert(result@.subrange(n - i, n as int)
                        =~= before.subrange(n - i, n as int));
                }
            } else {
                proof {
                    if !swapped {
                        let s = result@;
                        assert forall|a: int, b: int|
                            0 <= a <= b < j + 2 implies s[a] <= s[b] by {
                            if b < j + 1 {
                                assert(s.subrange(0, j + 1)[a] <= s.subrange(0, j + 1)[b]);
                            } else if a < j + 1 {
                                assert(s.subrange(0, j + 1)[a] <= s.subrange(0, j + 1)[j as int]);
                            }
                        }
                        assert(sorted(s.subrange(0, j + 2)));
                    }
                }
            }
            j = j + 1;
        }
        if !swapped {
            proof {
                let s = result@;
                assert(sorted(s.subrange(0, n - i)));
                assert forall|a: int, b: int| 0 <= a <= b < n implies s[a] <= s[b] by {
                    if b < n - i {
                        assert(s.subrange(0, n - i)[a] <= s.subrange(0, n - i)[b]);
                    } else if a < n - i {
                    } else {
                        assert(s.subrange(n - i, n as int)[a - (n - i)]
                            <= s.subrange(n - i, n as int)[b - (n - i)]);
                    }
                }
                assert(s.subrange(0, n as int) =~= s);
            }
            break;
        }
        proof {
            let s = result@;
            assert forall|a: int, b: int|
                0 <= a < n - i - 1 <= b < n implies s[a] <= s[b] by {
                if b > n - i - 1 {
                    assert(s[n - i - 1] <= s[b]);
                }
            }
            let t = s.subrange(n - i - 1, n as int);
            assert forall|a: int, b: int| 0 <= a <= b < t.len() implies t[a] <= t[b] by {
                if a == 0 {
                    assert(t[a] == s[n - i - 1]);
                    assert(t[b] == s[b + (n - i - 1)]);
                } else {
                    assert(s.subrange(n - i, n as int)[a - 1]
                        <= s.subrange(n - i, n as int)[b - 1]);
                }
            }
            assert(sorted(s.subrange(n - i - 1, n as int)));
        }
        i = i + 1;
    }
    proof {
        assert(result@.subrange(0, n as int) =~= result@);
    }
    result
}

/// Selection sort: for each position, finds the least remaining value and
/// exchanges it into place.
pub fn selection_sort(arr: &Vec<i32>) -> (r: Vec<i32>)
    ensures
        sorted(r@),
        r@.to_multiset() == arr@.to_multiset(),
        r@.len() == arr@.len(),
{
    let mut result = slice_to_vec(arr.as_slice());
    let n = result.len();
    let mut i: usize = 0;
    while i < n
        invariant
            i <= n,
            n == result@.len(),
            n == arr@.len(),
            result@.to_multiset() == arr@.to_multiset(),
            sorted(result@.subrange(0, i as int)),
            forall|a: int, b: int| 0 <= a < i <= b < n ==> result@[a] <= result@[b],
        decreases n - i,
    {
        let mut min_idx = i;
        let mut j = i + 1;
        while j < n
            invariant
                i <= min_idx < j <= n,
                j >= i + 1,
                n == result@.len(),
                forall|k: int| i <= k < j ==> result@[min_idx as int] <= result@[k],
            decreases n - j,
        {
            if result[j] < result[min_idx] {
                min_idx = j;
            }
            j = j + 1;
        }
        let ghost before = result@;
        exchange(&mut result, i, min_idx);
        proof {
            lemma_swap_multiset(before, i as int, min_idx as int);
            let s = result@;
            assert(result@.subrange(0, i as int) =~= before.subrange(0, i as int));
            assert forall|a: int, b: int|
                0 <= a < i + 1 <= b < n implies s[a] <= s[b] by {
                if a == i {
                    assert(s[a] == before[min_idx as int]);
                } else {
                    assert(before[a] <= before[i as int]);
                    assert(before[a] <= before[b]);
                }
            }
            assert forall|a: int, b: int|
                0 <= a <= b < i + 1 implies s[a] <= s[b] by {
                if b == i {
                    if a < i {
                        assert(before[a] <= before[min_idx as int]);
                    }
                } else {
                    assert(before.subrange(0, i as int)[a] <= before.subrange(0, i as int)[b]);
                }
            }
            assert(sorted(s.subrange(0, i + 1)));
        }
        i = i + 1;
    }
    proof {
        assert(result@.subrange(0, n as int) =~= result@);
    }
    result
}

/// Insertion sort: each value sinks leftwards past its strictly greater
/// predecessors, so values equal to it keep their relative order.
pub fn insertion_sort(arr: &Vec<i32>) -> (r: Vec<i32>)
    ensures
        sorted(r@),
        r@.to_multiset() == arr@.to_multiset(),
        r@.len() == arr@.len(),
{
    let mut result = slice_to_vec(arr.as_slice());
    let n = result.len();
    if n <= 1 {
        return result;
    }
    let mut i: usize = 1;
    while i < n
        invariant
            1 <= i <= n,
            n == result@.len(),
            n == arr@.len(),
            result@.to_multiset() == arr@.to_multiset(),
            sorted(result@.subrange(0, i as int)),
        decreases n - i,
    {
        let mut j = i;
        proof {
            assert forall|a: int, b: int|
                0 <= a <= b <= i && a != j && b != j implies result@[a] <= result@[b] by {
                assert(result@.subrange(0, i as int)[a] <= result@.subrange(0, i as int)[b]);
            }
        }
        while j >= 1 && result[j - 1] > result[j]
            invariant
                j <= i < n,
                n == result@.len(),
                n == arr@.len(),
                result@.to_multiset() == arr@.to_multiset(),
                forall|a: int, b: int|
                    0 <= a <= b <= i && a != j && b != j ==> result@[a] <= result@[b],
                forall|b: int| j < b <= i ==> result@[j as int] <= result@[b],
            decreases j,
        {
            let ghost before = result@;
            exchange(&mut result, j - 1, j);
            proof {
                lemma_swap_multiset(before, j - 1, j as int);
                let s = result@;
                assert forall|a: int, b: int|
                    0 <= a <= b <= i && a != j - 1 && b != j - 1 implies s[a] <= s[b] by {
                    if b == j {
                        if a < j - 1 {
                            assert(before[a] <= before[j - 1]);
                        }
                    } else if a == j {
                        assert(before[j - 1] <= before[b]);
                    } else {
                        assert(before[a] <= before[b]);
                    }
                }
                assert forall|b: int| j - 1 < b <= i implies s[j - 1] <= #[trigger] s[b] by {
                    if b == j {
                        assert(s[j as int] == before[j - 1]);
                    } else {
                        assert(before[j as int] <= before[b]);
                    }
                }
            }
            j = j - 1;
        }
        proof {
            let s = result@;
            assert forall|a: int, b: int| 0 <= a <= b <= i implies s[a] <= s[b] by {
                if a == j && b != j {
                    assert(s[j as int] <= s[b]);
                } else if b == j && a != j {
                    assert(j >= 1);
                    assert(s[a] <= s[j - 1]);
                    assert(s[j - 1] <= s[j as int]);
                }
            }
            assert(sorted(s.subrange(0, i + 1)));
        }
        i = i + 1;
    }
    proof {
        assert(result@.subrange(0, n as int) =~= result@);
    }
    result
}

/// One shell-sort pass with the given gap: every value sinks leftwards in
/// strides of `gap` past strictly greater values. A pass with gap one is a
/// full insertion sort and leaves the vector sorted.
fn gap_pass(result: &mut Vec<i32>, gap: usize)
    requires
        gap >= 1,
    ensures
        final(result)@.len() == old(result)@.len(),
        final(result)@.to_multiset() == old(result)@.to_multiset(),
        gap == 1 ==> sorted(final(result)@),
{
    let n = result.len();
    let mut i = gap;
    while i < n
        invariant
            1 <= gap <= i,
            n == result@.len(),
            result@.to_multiset() == old(result)@.to_multiset(),
            gap == 1 && i <= n ==> sorted(result@.subrange(0, i as int)),
            gap == 1 && i > n ==> sorted(result@),
        decreases n - i,
    {
        let mut j = i;
        proof {
            if gap == 1 {
                assert forall|a: int, b: int|
                    0 <= a <= b <= i && a != j && b != j implies result@[a] <= result@[b] by {
                    assert(result@.subrange(0, i as int)[a] <= result@.subrange(0, i as int)[b]);
                }
            }
        }
        while j >= gap && result[j - gap] > result[j]
            invariant
                j <= i < n,
                1 <= gap,
                n == result@.len(),
                result@.to_multiset() == old(result)@.to_multiset(),
                gap == 1 ==> forall|a: int, b: int|
                    0 <= a <= b <= i && a != j && b != j ==> result@[a] <= result@[b],
                gap == 1 ==> forall|b: int| j < b <= i ==> result@[j as int] <= result@[b],
            decreases j,
        {
            let ghost before = result@;
            exchange(result, j - gap, j);
            proof {
                lemma_swap_multiset(before, j - gap, j as int);
                if gap == 1 {
                    let s = result@;
                    assert forall|a: int, b: int|
                        0 <= a <= b <= i && a != j - 1 && b != j - 1 implies s[a] <= s[b] by {
                        if b == j {
                            if a < j - 1 {
                                assert(before[a] <= before[j - 1]);
                            }
                        } else if a == j {
                            assert(before[j - 1] <= before[b]);
                        } else {
                            assert(before[a] <= before[b]);
                        }
                    }
                    assert forall|b: int| j - 1 < b <= i implies s[j - 1] <= #[trigger] s[b] by {
                        if b == j {
                            assert(s[j as int] == before[j - 1]);
                        } else {
                            assert(before[j as int] <= before[b]);
                        }
                    }
                }
            }
            j = j - gap;
        }
        proof {
            if gap == 1 {
                let s = result@;
                assert forall|a: int, b: int| 0 <= a <= b <= i implies s[a] <= s[b] by {
                    if a == j && b != j {
                        assert(s[j as int] <= s[b]);
                    } else if b == j && a != j {
                        assert(j >= 1);
                        assert(s[a] <= s[j - 1]);
                        assert(s[j - 1] <= s[j as int]);
                    }
                }
                assert(sorted(s.subrange(0, i + 1)));
            }
        }
        i = i + 1;
    }
    proof {
        if gap == 1 {
            if i <= n {
                assert(i == n);
                assert(result@.subrange(0, n as int) =~= result@);
            }
        }
    }
}

/// Shell sort: insertion-sort passes over a halving gap sequence, ending
/// with a gap of one.
pub fn shell_sort(arr: &Vec<i32>) -> (r: Vec<i32>)
    ensures
        sorted(r@),
        r@.to_multiset() == arr@.to_multiset(),
        r@.len() == arr@.len(),
{
    let mut result = slice_to_vec(arr.as_slice());
    let n = result.len();
    let mut gap = n / 2;
    proof {
        if gap == 0 {
            assert(n <= 1);
        }
    }
    while gap >= 1
        invariant
            result@.len() == arr@.len(),
            result@.to_multiset() == arr@.to_multiset(),
            gap == 0 ==> sorted(result@),
        decreases gap,
    {
        gap_pass(&mut result, gap);
        gap = gap / 2;
    }
    result
}

} // verus!
