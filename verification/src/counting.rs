//! Counting sort: tallies how often each value between the least and the
//! greatest input value occurs, turns the tallies into cumulative
//! positions, and places each input value — scanning the input backwards,
//! which keeps equal values in their original order — directly into its
//! slot of the output.

use vstd::prelude::*;

verus! {

use crate::counts::count_le;
use crate::counts::count_of;
use crate::counts::lemma_count_le_above;
use crate::counts::lemma_count_le_below;
use crate::counts::lemma_count_le_len;
use crate::counts::lemma_count_le_mono;
use crate::counts::lemma_count_le_step;
use crate::counts::lemma_count_of_concat;
use crate::counts::lemma_count_of_contains;
use crate::counts::lemma_count_of_interval;
use crate::counts::lemma_count_of_len;
use crate::counts::lemma_count_of_push;
use crate::counts::lemma_multiset_from_counts;
use crate::counts::lemma_seq_max_ensures;
use crate::counts::lemma_seq_min_ensures;
use crate::counts::seq_max;
use crate::counts::seq_min;
use crate::counts::value_span;
use crate::order::sorted;

broadcast use vstd::seq_lib::group_to_multiset_ensures;

/// Finds the value `w` whose slot of the cumulative-count table the
/// position `k` falls into.
proof fn region_of(s: Seq<i32>, lo: int, hi: int, k: int) -> (w: int)
    requires
        lo <= hi,
        count_le(s, lo - 1) <= k < count_le(s, hi),
    ensures
        lo <= w <= hi,
        count_le(s, w - 1) <= k < count_le(s, w),
    decreases hi - lo,
{
    if lo == hi {
        lo
    } else if count_le(s, hi - 1) <= k {
        hi
    } else {
        region_of(s, lo, hi - 1, k)
    }
}

/// Counting sort. The value span of the input (greatest minus least value,
/// plus one) must fit the count table's index type; inputs of any other
/// shape, duplicates and negatives included, are accepted.
#[verifier::loop_isolation(false)]
#[verifier::rlimit(80)]
pub fn counting_sort(arr: &Vec<i32>) -> (r: Vec<i32>)
    requires
        value_span(arr@) <= usize::MAX as int,
    ensures
        sorted(r@),
        r@.to_multiset() == arr@.to_multiset(),
        r@.len() == arr@.len(),
{
    let n = arr.len();
    if n == 0 {
        let r: Vec<i32> = Vec::new();
        proof {
            assert(r@ =~= arr@);
        }
        return r;
    }
    let mut min_val = arr[0];
    let mut max_val = arr[0];
    let mut t: usize = 1;
    while t < n
        invariant
            1 <= t <= n,
            forall|k: int| 0 <= k < t ==> min_val <= #[trigger] arr@[k],
            forall|k: int| 0 <= k < t ==> #[trigger] arr@[k] <= max_val,
            exists|k: int| 0 <= k < t && arr@[k] == min_val,
            exists|k: int| 0 <= k < t && arr@[k] == max_val,
        decreases n - t,
    {
        let v = arr[t];
        if v < min_val {
            min_val = v;
        }
        if v > max_val {
            max_val = v;
        }
        proof {
            assert(arr@[t as int] == v);
        }
        t = t + 1;
    }
    proof {
        lemma_seq_min_ensures(arr@);
        lemma_seq_max_ensures(arr@);
        assert(min_val as int == seq_min(arr@)) by {
            let w0 = choose|w0: int| 0 <= w0 < arr@.len() && arr@[w0] == seq_min(arr@);
            assert(min_val <= arr@[w0]);
            let w1 = choose|w1: int| 0 <= w1 < n && arr@[w1] == min_val;
            assert(arr@[w1] >= seq_min(arr@));
        }
        assert(max_val as int == seq_max(arr@)) by {
            let w0 = choose|w0: int| 0 <= w0 < arr@.len() && arr@[w0] == seq_max(arr@);
            assert(arr@[w0] <= max_val);
            let w1 = choose|w1: int| 0 <= w1 < n && arr@[w1] == max_val;
            assert(arr@[w1] <= seq_max(arr@));
        }
    }
    let range_i = max_val as i64 - min_val as i64 + 1;
    let range = range_i as usize;
    proof {
        assert(range as int == max_val as int - min_val as int + 1);
    }
    let mut cnt: Vec<usize> = vec![0; range];
    proof {
        assert(arr@.take(0) =~= Seq::<i32>::empty());
        assert forall|d: int| 0 <= d < range
            implies cnt@[d] as nat == count_of(
            arr@.take(0),
            ((min_val as int + d) as i32),
        ) by {
            assert(count_of(arr@.take(0), ((min_val as int + d) as i32)) == 0);
        }
    }
    t = 0;
    while t < n
        invariant
            t <= n,
            cnt@.len() == range,
            forall|d: int|
                0 <= d < range ==> #[trigger] cnt@[d] as nat == count_of(
                    arr@.take(t as int),
                    ((min_val as int + d) as i32),
                ),
        decreases n - t,
    {
        let v = arr[t];
        let idx = (v as i64 - min_val as i64) as usize;
        proof {
            assert(min_val <= v);
            assert(v <= max_val);
            assert(idx as int == v as int - min_val as int);
            assert(idx < range);
            lemma_count_of_len(arr@.take(t as int), ((min_val as int + idx) as i32));
        }
        let c = cnt[idx];
        cnt[idx] = c + 1;
        proof {
            assert(arr@.take(t + 1) =~= arr@.take(t as int).push(arr@[t as int]));
            assert forall|d: int|
                0 <= d < range implies #[trigger] cnt@[d] as nat == count_of(
                arr@.take(t + 1),
                ((min_val as int + d) as i32),
            ) by {
                let w = (min_val as int + d) as i32;
                lemma_count_of_push(arr@.take(t as int), arr@[t as int], w);
                if d != idx {
                    assert(w != v);
                }
            }
        }
        t = t + 1;
    }
    proof {
        assert(arr@.take(n as int) =~= arr@);
        lemma_count_le_step(arr@, min_val);
        lemma_count_le_below(arr@, min_val as int - 1);
    }
    let mut d: usize = 1;
    while d < range
        invariant
            1 <= d <= range,
            cnt@.len() == range,
            forall|e: int|
                0 <= e < d ==> #[trigger] cnt@[e] as nat == count_le(arr@, min_val as int + e),
            forall|e: int|
                d <= e < range ==> #[trigger] cnt@[e] as nat == count_of(
                    arr@,
                    ((min_val as int + e) as i32),
                ),
        decreases range - d,
    {
        proof {
            lemma_count_le_step(arr@, ((min_val as int + d) as i32));
            lemma_count_le_len(arr@, min_val as int + d);
        }
        let a = cnt[d - 1];
        let b = cnt[d];
        cnt[d] = a + b;
        d = d + 1;
    }
    let mut output: Vec<i32> = vec![0; n];
    proof {
        assert(arr@.skip(n as int) =~= Seq::<i32>::empty());
        assert forall|dd: int|
            0 <= dd < range implies #[trigger] cnt@[dd] as nat + count_of(
            arr@.skip(n as int),
            ((min_val as int + dd) as i32),
        ) == count_le(arr@, min_val as int + dd) by {
            assert(count_of(arr@.skip(n as int), ((min_val as int + dd) as i32)) == 0);
        }
    }
    t = n;
    while t > 0
        invariant
            t <= n,
            cnt@.len() == range,
            output@.len() == n,
            forall|dd: int|
                0 <= dd < range ==> #[trigger] cnt@[dd] as nat + count_of(
                    arr@.skip(t as int),
                    ((min_val as int + dd) as i32),
                ) == count_le(arr@, min_val as int + dd),
            forall|dd: int, k: int|
                #![trigger cnt@[dd], output@[k]]
                0 <= dd < range && cnt@[dd] <= k < count_le(arr@, min_val as int + dd)
                    ==> output@[k] == ((min_val as int + dd) as i32),
        decreases t,
    {
        t = t - 1;
        let v = arr[t];
        let idx = (v as i64 - min_val as i64) as usize;
        let ghost suffix_old = arr@.skip(t + 1);
        let ghost suffix_new = arr@.skip(t as int);
        proof {
            assert(min_val <= v);
            assert(v <= max_val);
            assert(idx as int == v as int - min_val as int);
            assert(idx < range);
            assert(((min_val as int + idx) as i32) == v);
            assert(suffix_new[0] == v);
            assert(suffix_new.drop_first() =~= suffix_old);
            assert(count_of(suffix_new, v) == 1 + count_of(suffix_old, v));
            // cnt[idx] stays at least one above the start of its slot.
            lemma_count_le_step(arr@, v);
            assert(arr@ =~= arr@.take(t + 1) + suffix_old);
            lemma_count_of_concat(arr@.take(t + 1), suffix_old, v);
            assert(arr@.take(t + 1) =~= arr@.take(t as int).push(v));
            lemma_count_of_push(arr@.take(t as int), v, v);
            assert(cnt@[idx as int] as nat >= count_le(arr@, min_val as int + idx - 1) + 1);
            lemma_count_le_len(arr@, min_val as int + idx);
        }
        let ghost cnt0 = cnt@;
        let ghost out0 = output@;
        let pos = cnt[idx] - 1;
        output[pos] = v;
        cnt[idx] = pos;
        proof {
            assert(output@ == out0.update(pos as int, v));
            assert(cnt@ == cnt0.update(idx as int, pos));
            assert forall|dd: int|
                0 <= dd < range implies #[trigger] cnt@[dd] as nat + count_of(
                suffix_new,
                ((min_val as int + dd) as i32),
            ) == count_le(arr@, min_val as int + dd) by {
                let w = (min_val as int + dd) as i32;
                assert(cnt0[dd] as nat + count_of(suffix_old, w) == count_le(
                    arr@,
                    min_val as int + dd,
                ));
                if dd == idx {
                } else {
                    assert(w != v);
                    assert(count_of(suffix_new, w) == count_of(suffix_old, w));
                }
            }
            assert forall|dd: int, k: int|
                #![trigger cnt@[dd], output@[k]]
                0 <= dd < range && cnt@[dd] <= k < count_le(arr@, min_val as int + dd)
                    implies output@[k] == ((min_val as int + dd) as i32) by {
                let w = (min_val as int + dd) as i32;
                if dd == idx {
                    if k > pos {
                        assert(cnt0[dd] <= k);
                        assert(out0[k] == w);
                        assert(output@[k] == out0[k]);
                    }
                } else {
                    // The touched position lies in another value's slot.
                    assert(w != v);
                    lemma_count_le_len(arr@, min_val as int + dd);
                    assert(cnt0[dd] as nat + count_of(suffix_old, w) == count_le(
                        arr@,
                        min_val as int + dd,
                    ));
                    assert(count_of(suffix_old, w) <= count_of(arr@, w)) by {
                        assert(arr@ =~= arr@.take(t + 1) + suffix_old);
                        lemma_count_of_concat(arr@.take(t + 1), suffix_old, w);
                        lemma_count_of_len(arr@.take(t + 1), w);
                    }
                    lemma_count_le_step(arr@, w);
                    assert(cnt0[dd] as nat >= count_le(arr@, min_val as int + dd - 1));
                    if dd < idx {
                        lemma_count_le_mono(arr@, min_val as int + dd, min_val as int + idx - 1);
                        assert(k < pos);
                    } else {
                        lemma_count_le_mono(arr@, min_val as int + idx, min_val as int + dd - 1);
                        assert(k > pos);
                    }
                    assert(out0[k] == w);
                    assert(output@[k] == out0[k]);
                }
            }
        }
    }
    proof {
        assert(arr@.skip(0) =~= arr@);
        lemma_placement_complete(arr@, output@, cnt@, min_val, max_val);
    }
    output
}


/// Once the backward placement pass has run to completion, the output is
/// sorted and holds the input's values: every counter has come down to
/// the start of its value's slot, so the slots tile the output.
proof fn lemma_placement_complete(s: Seq<i32>, out: Seq<i32>, cnt: Seq<usize>, minv: i32, maxv: i32)
    requires
        out.len() == s.len(),
        s.len() > 0,
        minv as int <= maxv as int,
        cnt.len() == maxv as int - minv as int + 1,
        forall|k: int| 0 <= k < s.len() ==> minv <= #[trigger] s[k],
        forall|k: int| 0 <= k < s.len() ==> #[trigger] s[k] <= maxv,
        forall|dd: int|
            0 <= dd < cnt.len() ==> #[trigger] cnt[dd] as nat + count_of(
                s,
                ((minv as int + dd) as i32),
            ) == count_le(s, minv as int + dd),
        forall|dd: int, k: int|
            #![trigger cnt[dd], out[k]]
            0 <= dd < cnt.len() && cnt[dd] <= k < count_le(s, minv as int + dd)
                ==> out[k] == ((minv as int + dd) as i32),
    ensures
        sorted(out),
        out.to_multiset() == s.to_multiset(),
{
    lemma_count_le_below(s, minv as int - 1);
    lemma_count_le_above(s, maxv as int);
    // Each slot's counter has come down to the slot's start.
    assert forall|dd: int|
        0 <= dd < cnt.len() implies #[trigger] cnt[dd] as nat == count_le(
        s,
        minv as int + dd - 1,
    ) by {
        let w = (minv as int + dd) as i32;
        lemma_count_le_step(s, w);
    }
    lemma_placement_value_map(s, out, cnt, minv, maxv);
    lemma_placement_sorted(s, out, minv, maxv);
    assert forall|v: i32| count_of(out, v) == count_of(s, v) by {
        lemma_per_value_count(s, out, cnt, minv, maxv, v);
    }
    lemma_multiset_from_counts(out, s);
}

/// Every output position holds the value of the cumulative-count slot it
/// lies in.
proof fn lemma_placement_value_map(
    s: Seq<i32>,
    out: Seq<i32>,
    cnt: Seq<usize>,
    minv: i32,
    maxv: i32,
)
    requires
        out.len() == s.len(),
        s.len() > 0,
        minv as int <= maxv as int,
        cnt.len() == maxv as int - minv as int + 1,
        count_le(s, minv as int - 1) == 0,
        count_le(s, maxv as int) == s.len(),
        forall|dd: int|
            0 <= dd < cnt.len() ==> #[trigger] cnt[dd] as nat == count_le(
                s,
                minv as int + dd - 1,
            ),
        forall|dd: int, k: int|
            #![trigger cnt[dd], out[k]]
            0 <= dd < cnt.len() && cnt[dd] <= k < count_le(s, minv as int + dd)
                ==> out[k] == ((minv as int + dd) as i32),
    ensures
        forall|k: int|
            #![trigger out[k]]
            0 <= k < s.len() ==> exists|w: int|
                #![trigger count_le(s, w)]
                minv as int <= w <= maxv as int && count_le(s, w - 1) <= k < count_le(s, w)
                    && out[k] == ((w) as i32),
{
    assert forall|k: int|
        #![trigger out[k]]
        0 <= k < s.len() implies exists|w: int|
        #![trigger count_le(s, w)]
        minv as int <= w <= maxv as int && count_le(s, w - 1) <= k < count_le(s, w)
            && out[k] == ((w) as i32) by {
        let w = region_of(s, minv as int, maxv as int, k);
        let dd = w - minv as int;
        assert(cnt[dd] as nat == count_le(s, w - 1));
        assert(out[k] == ((minv as int + dd) as i32));
    }
}

/// An output whose every position holds its slot's value is sorted.
proof fn lemma_placement_sorted(s: Seq<i32>, out: Seq<i32>, minv: i32, maxv: i32)
    requires
        out.len() == s.len(),
        forall|k: int|
            #![trigger out[k]]
            0 <= k < s.len() ==> exists|w: int|
                #![trigger count_le(s, w)]
                minv as int <= w <= maxv as int && count_le(s, w - 1) <= k < count_le(s, w)
                    && out[k] == ((w) as i32),
    ensures
        sorted(out),
{
    assert forall|a: int, b: int| 0 <= a <= b < out.len() implies out[a] <= out[b] by {
        let wa = choose|wa: int|
            #![trigger count_le(s, wa)]
            minv as int <= wa <= maxv as int && count_le(s, wa - 1) <= a < count_le(s, wa)
                && out[a] == ((wa) as i32);
        let wb = choose|wb: int|
            #![trigger count_le(s, wb)]
            minv as int <= wb <= maxv as int && count_le(s, wb - 1) <= b < count_le(s, wb)
                && out[b] == ((wb) as i32);
        if wa > wb {
            lemma_count_le_mono(s, wb, wa - 1);
            assert(false);
        }
    }
}

/// Each value occurs in the placed output exactly as often as in the
/// input.
proof fn lemma_per_value_count(
    s: Seq<i32>,
    out: Seq<i32>,
    cnt: Seq<usize>,
    minv: i32,
    maxv: i32,
    v: i32,
)
    requires
        out.len() == s.len(),
        s.len() > 0,
        minv as int <= maxv as int,
        cnt.len() == maxv as int - minv as int + 1,
        forall|dd: int|
            0 <= dd < cnt.len() ==> #[trigger] cnt[dd] as nat == count_le(
                s,
                minv as int + dd - 1,
            ),
        forall|dd: int, k: int|
            #![trigger cnt[dd], out[k]]
            0 <= dd < cnt.len() && cnt[dd] <= k < count_le(s, minv as int + dd)
                ==> out[k] == ((minv as int + dd) as i32),
        count_le(s, minv as int - 1) == 0,
        count_le(s, maxv as int) == s.len(),
        forall|k: int|
            #![trigger out[k]]
            0 <= k < s.len() ==> exists|w: int|
                #![trigger count_le(s, w)]
                minv as int <= w <= maxv as int && count_le(s, w - 1) <= k < count_le(s, w)
                    && out[k] == ((w) as i32),
    ensures
        count_of(out, v) == count_of(s, v),
{
    let n = s.len() as int;
    if minv <= v && v <= maxv {
        let a = count_le(s, v as int - 1);
        let b = count_le(s, v as int);
        lemma_count_le_mono(s, v as int - 1, v as int);
        lemma_count_le_len(s, v as int);
        lemma_count_le_mono(s, v as int, maxv as int);
        assert forall|k: int| a <= k < b implies #[trigger] out[k] == v by {
            let dd = v as int - minv as int;
            assert(cnt[dd] as nat == a);
            assert(out[k] == ((minv as int + dd) as i32));
        }
        assert forall|k: int| 0 <= k < a || b <= k < n implies #[trigger] out[k] != v by {
            let w = choose|w: int|
                #![trigger count_le(s, w)]
                minv as int <= w <= maxv as int && count_le(s, w - 1) <= k < count_le(s, w)
                    && out[k] == ((w) as i32);
            if w == v as int {
                assert(false);
            } else if w < v as int {
                lemma_count_le_mono(s, w, v as int - 1);
            } else {
                lemma_count_le_mono(s, v as int, w - 1);
            }
        }
        lemma_count_of_interval(out, v, a as int, b as int);
        lemma_count_le_step(s, v);
    } else {
        if count_of(s, v) > 0 {
            lemma_count_of_contains(s, v);
            let k = choose|k: int| 0 <= k < s.len() && s[k] == v;
            assert(count_le(s, minv as int - 1) >= 0);
            lemma_count_le_range_member(s, k, minv, maxv);
            assert(false);
        }
        if count_of(out, v) > 0 {
            lemma_count_of_contains(out, v);
            let k = choose|k: int| 0 <= k < out.len() && out[k] == v;
            let w = choose|w: int|
                #![trigger count_le(s, w)]
                minv as int <= w <= maxv as int && count_le(s, w - 1) <= k < count_le(s, w)
                    && out[k] == ((w) as i32);
            assert(false);
        }
    }
}

/// A value found in the sequence lies between the given bounds when every
/// position does.
proof fn lemma_count_le_range_member(s: Seq<i32>, k: int, minv: i32, maxv: i32)
    requires
        0 <= k < s.len(),
        count_le(s, minv as int - 1) == 0,
        count_le(s, maxv as int) == s.len(),
    ensures
        minv <= s[k] <= maxv,
    decreases s.len(),
{
    lemma_count_le_len(s.drop_first(), minv as int - 1);
    lemma_count_le_len(s.drop_first(), maxv as int);
    if k == 0 {
    } else {
        lemma_count_le_range_member(s.drop_first(), k - 1, minv, maxv);
        assert(s.drop_first()[k - 1] == s[k]);
    }
}

} // verus!
