//! Bucket sort: the value range is cut into a caller-chosen number of
//! equally wide buckets, each value drops into the bucket its offset from
//! the least value selects, each bucket is insertion-sorted, and the
//! buckets are concatenated in order.

use vstd::prelude::*;

verus! {

use vstd::arithmetic::div_mod::lemma_div_is_ordered;
use vstd::arithmetic::div_mod::lemma_multiply_divide_lt;
use vstd::arithmetic::mul::lemma_mul_inequality;
use vstd::multiset::Multiset;

use crate::comparison::insertion_sort;
use crate::order::lemma_values_carry_over;
use crate::order::sorted;

broadcast use {vstd::seq_lib::group_to_multiset_ensures, vstd::multiset::group_multiset_axioms};

/// Which bucket a value falls into: its offset from the least value,
/// scaled by the bucket count over the whole span.
pub open spec fn bucket_slot(v: i32, minv: i32, span: int, count: int) -> int {
    (v - minv) * count / span
}

/// Bucket slots lie in range and never decrease as the value grows.
proof fn lemma_bucket_slot_bounds(v: i32, minv: i32, span: int, count: int)
    requires
        minv <= v,
        v - minv < span,
        count >= 1,
    ensures
        0 <= bucket_slot(v, minv, span, count) < count,
{
    lemma_mul_inequality(0, v - minv, count);
    lemma_div_is_ordered(0, (v - minv) * count, span);
    assert((v - minv) * count < span * count) by (nonlinear_arith)
        requires
            v - minv < span,
            count >= 1,
    ;
    lemma_multiply_divide_lt((v - minv) * count, span, count);
}

/// A greater value never falls into an earlier bucket.
proof fn lemma_bucket_slot_mono(v1: i32, v2: i32, minv: i32, span: int, count: int)
    requires
        v1 <= v2,
        span >= 1,
        count >= 0,
    ensures
        bucket_slot(v1, minv, span, count) <= bucket_slot(v2, minv, span, count),
{
    lemma_mul_inequality(v1 - minv, v2 - minv, count);
    lemma_div_is_ordered((v1 - minv) * count, (v2 - minv) * count, span);
}

/// The values of a row of buckets, all together.
spec fn flat_multiset(bs: Seq<Seq<i32>>) -> Multiset<i32>
    decreases bs.len(),
{
    if bs.len() == 0 {
        Multiset::empty()
    } else {
        bs[0].to_multiset().add(flat_multiset(bs.drop_first()))
    }
}

/// Pushing one value into one bucket adds exactly that value to the row.
proof fn lemma_flat_multiset_push_into(bs: Seq<Seq<i32>>, j: int, v: i32)
    requires
        0 <= j < bs.len(),
    ensures
        flat_multiset(bs.update(j, bs[j].push(v))) == flat_multiset(bs).insert(v),
    decreases j,
{
    let bs2 = bs.update(j, bs[j].push(v));
    if j == 0 {
        assert(bs2.drop_first() =~= bs.drop_first());
        assert(bs2[0].to_multiset() == bs[0].to_multiset().insert(v));
        assert(flat_multiset(bs2) =~= flat_multiset(bs).insert(v));
    } else {
        assert(bs2[0] == bs[0]);
        assert(bs2.drop_first() =~= bs.drop_first().update(j - 1, bs.drop_first()[j - 1].push(v)));
        lemma_flat_multiset_push_into(bs.drop_first(), j - 1, v);
        assert(flat_multiset(bs2) =~= flat_multiset(bs).insert(v));
    }
}

/// Appending one bucket to the row adds exactly that bucket's values.
proof fn lemma_flat_multiset_push(bs: Seq<Seq<i32>>, b: Seq<i32>)
    ensures
        flat_multiset(bs.push(b)) == flat_multiset(bs).add(b.to_multiset()),
    decreases bs.len(),
{
    if bs.len() == 0 {
        assert(bs.push(b)[0] == b);
        assert(bs.push(b).drop_first() =~= bs);
        assert(flat_multiset(bs.push(b)) =~= flat_multiset(bs).add(b.to_multiset()));
    } else {
        assert(bs.push(b)[0] == bs[0]);
        assert(bs.push(b).drop_first() =~= bs.drop_first().push(b));
        lemma_flat_multiset_push(bs.drop_first(), b);
        assert(flat_multiset(bs.push(b)) =~= flat_multiset(bs).add(b.to_multiset()));
    }
}

/// A row of empty buckets holds nothing.
proof fn lemma_flat_multiset_empty(bs: Seq<Seq<i32>>)
    requires
        forall|j: int| 0 <= j < bs.len() ==> (#[trigger] bs[j]).len() == 0,
    ensures
        flat_multiset(bs) == Multiset::<i32>::empty(),
    decreases bs.len(),
{
    if bs.len() > 0 {
        assert forall|j: int| 0 <= j < bs.drop_first().len()
            implies (#[trigger] bs.drop_first()[j]).len() == 0 by {
            assert(bs.drop_first()[j] == bs[j + 1]);
        }
        lemma_flat_multiset_empty(bs.drop_first());
        assert(bs[0].to_multiset().len() == 0);
        assert(flat_multiset(bs) =~= Multiset::<i32>::empty());
    }
}

/// Bucket sort. The bucket count must be at least one; the input may
/// otherwise be anything, duplicates and negatives included.
#[verifier::loop_isolation(false)]
#[verifier::rlimit(60)]
pub fn bucket_sort(arr: &Vec<i32>, num_buckets: usize) -> (r: Vec<i32>)
    requires
        num_buckets >= 1,
    ensures
        sorted(r@),
        r@.to_multiset() == arr@.to_multiset(),
        r@.len() == arr@.len(),
{
    let n = arr.len();
    if n == 0 {
        let r: Vec<i32> = Vec::new();
        proof {
            assert(r@ =~= arr@);
        }
        return r;
    }
    let mut min_val = arr[0];
    let mut max_val = arr[0];
    let mut t: usize = 1;
    while t < n
        invariant
            1 <= t <= n,
            forall|k: int| 0 <= k < t ==> min_val <= #[trigger] arr@[k],
            forall|k: int| 0 <= k < t ==> #[trigger] arr@[k] <= max_val,
        decreases n - t,
    {
        let v = arr[t];
        if v < min_val {
            min_val = v;
        }
        if v > max_val {
            max_val = v;
        }
        t = t + 1;
    }
    let ghost span = max_val as int - min_val as int + 1;
    let ghost bc = num_buckets as int;
    let mut buckets: Vec<Vec<i32>> = Vec::new();
    let mut b: usize = 0;
    while b < num_buckets
        invariant
            b <= num_buckets,
            buckets@.len() == b,
            forall|j: int| 0 <= j < b ==> (#[trigger] buckets@[j])@.len() == 0,
        decreases num_buckets - b,
    {
        let fresh: Vec<i32> = Vec::new();
        buckets.push(fresh);
        b = b + 1;
    }
    let ghost views0 = buckets@.map_values(|bk: Vec<i32>| bk@);
    proof {
        assert forall|j: int| 0 <= j < views0.len() implies (#[trigger] views0[j]).len() == 0 by {
            assert(views0[j] == buckets@[j]@);
        }
        lemma_flat_multiset_empty(views0);
        assert(arr@.take(0) =~= Seq::<i32>::empty());
        assert(arr@.take(0).to_multiset().len() == 0);
        assert(flat_multiset(views0) =~= arr@.take(0).to_multiset());
    }
    t = 0;
    while t < n
        invariant
            t <= n,
            buckets@.len() == num_buckets,
            flat_multiset(buckets@.map_values(|bk: Vec<i32>| bk@)) == arr@.take(
                t as int,
            ).to_multiset(),
            forall|j: int, k: int|
                #![trigger buckets@[j]@[k]]
                0 <= j < num_buckets && 0 <= k < buckets@[j]@.len() ==> min_val
                    <= buckets@[j]@[k] <= max_val && bucket_slot(
                    buckets@[j]@[k],
                    min_val,
                    span,
                    bc,
                ) == j,
        decreases n - t,
    {
        let v = arr[t];
        proof {
            assert(min_val <= v);
            assert(v <= max_val);
        }
        let diff = (v as i64 - min_val as i64) as u128;
        proof {
            assert(diff as int == v as int - min_val as int);
            assert(diff <= 0xFFFF_FFFFu128);
            assert(diff * (num_buckets as u128) < 0x1_0000_0000_0000_0000_0000_0000u128)
                by (nonlinear_arith)
                requires
                    diff <= 0xFFFF_FFFFu128,
                    num_buckets as u128 <= 0xFFFF_FFFF_FFFF_FFFFu128,
            ;
        }
        let prod = diff * (num_buckets as u128);
        let span_wide = (max_val as i64 - min_val as i64 + 1) as u128;
        proof {
            assert(prod as int == (v as int - min_val as int) * bc) by (nonlinear_arith)
                requires
                    diff as int == v as int - min_val as int,
                    prod == diff * (num_buckets as u128),
                    bc == num_buckets as int,
            ;
            assert(span_wide as int == span);
            lemma_bucket_slot_bounds(v, min_val, span, bc);
            assert((prod / span_wide) as int == bucket_slot(v, min_val, span, bc));
        }
        let raw = (prod / span_wide) as usize;
        proof {
            assert(raw as int == bucket_slot(v, min_val, span, bc));
        }
        // Guards the top edge of the range, as division-based bucket
        // assignment classically requires.
        let idx = if raw == num_buckets {
            num_buckets - 1
        } else {
            raw
        };
        let ghost views_before = buckets@.map_values(|bk: Vec<i32>| bk@);
        buckets[idx].push(v);
        proof {
            let views_after = buckets@.map_values(|bk: Vec<i32>| bk@);
            assert(views_after =~= views_before.update(
                idx as int,
                views_before[idx as int].push(v),
            ));
            lemma_flat_multiset_push_into(views_before, idx as int, v);
            assert(arr@.take(t + 1) =~= arr@.take(t as int).push(v));
        }
        t = t + 1;
    }
    proof {
        assert(arr@.take(n as int) =~= arr@);
    }
    let ghost views = buckets@.map_values(|bk: Vec<i32>| bk@);
    let mut result: Vec<i32> = Vec::new();
    proof {
        lemma_flat_multiset_empty(views.take(0));
        assert(result@.to_multiset().len() == 0);
        assert(result@.to_multiset() =~= flat_multiset(views.take(0)));
    }
    b = 0;
    while b < num_buckets
        invariant
            b <= num_buckets,
            buckets@.len() == num_buckets,
            views == buckets@.map_values(|bk: Vec<i32>| bk@),
            sorted(result@),
            result@.to_multiset() == flat_multiset(views.take(b as int)),
            forall|k: int|
                0 <= k < result@.len() ==> min_val <= #[trigger] result@[k] <= max_val
                    && bucket_slot(result@[k], min_val, span, bc) < b,
        decreases num_buckets - b,
    {
        proof {
            assert(views.take(b + 1) =~= views.take(b as int).push(views[b as int]));
            lemma_flat_multiset_push(views.take(b as int), views[b as int]);
            assert(views[b as int] == buckets@[b as int]@);
        }
        if buckets[b].len() > 0 {
            let sorted_b = insertion_sort(&buckets[b]);
            proof {
                lemma_values_carry_over::<i32>(
                    buckets@[b as int]@,
                    sorted_b@,
                    |x: i32| min_val <= x <= max_val && bucket_slot(x, min_val, span, bc)
                        == b as int,
                );
            }
            let ghost result_start = result@;
            let mut t2: usize = 0;
            while t2 < sorted_b.len()
                invariant
                    t2 <= sorted_b@.len(),
                    result@ == result_start + sorted_b@.take(t2 as int),
                decreases sorted_b@.len() - t2,
            {
                let x = sorted_b[t2];
                result.push(x);
                proof {
                    assert(sorted_b@.take(t2 + 1) =~= sorted_b@.take(t2 as int).push(x));
                    assert(result_start + sorted_b@.take(t2 as int).push(x)
                        =~= (result_start + sorted_b@.take(t2 as int)).push(x));
                }
                t2 = t2 + 1;
            }
            proof {
                assert(sorted_b@.take(sorted_b@.len() as int) =~= sorted_b@);
                assert(result@ == result_start + sorted_b@);
                vstd::seq_lib::lemma_multiset_commutative(result_start, sorted_b@);
                // The appended values keep the result sorted: they ascend
                // among themselves and every earlier value sits in an
                // earlier bucket.
                assert forall|i: int, j: int| 0 <= i <= j < result@.len()
                    implies result@[i] <= result@[j] by {
                    let m = result_start.len() as int;
                    if j >= m {
                        assert(result@[j] == sorted_b@[j - m]);
                        if i >= m {
                            assert(sorted_b@[i - m] <= sorted_b@[j - m]);
                        } else {
                            assert(result@[i] == result_start[i]);
                            assert(bucket_slot(result_start[i], min_val, span, bc) < b as int);
                            assert(bucket_slot(sorted_b@[j - m], min_val, span, bc) == b as int);
                            if result@[i] > result@[j] {
                                lemma_bucket_slot_mono(
                                    result@[j],
                                    result@[i],
                                    min_val,
                                    span,
                                    bc,
                                );
                                assert(false);
                            }
                        }
                    } else {
                        assert(result@[i] == result_start[i]);
                        assert(result@[j] == result_start[j]);
                    }
                }
            }
        } else {
            proof {
                assert(buckets@[b as int]@.len() == 0);
                assert(views[b as int].to_multiset().len() == 0);
                assert(result@.to_multiset() =~= flat_multiset(views.take(b + 1)));
            }
        }
        b = b + 1;
    }
    proof {
        assert(views.take(num_buckets as int) =~= views);
        assert(result@.to_multiset().len() == arr@.to_multiset().len());
    }
    result
}

} // verus!
