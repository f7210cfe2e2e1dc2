//! Radix sort over base-ten digits, least significant first. Each digit
//! pass is a stable counting sort by one digit; negative inputs are split
//! off, sorted by magnitude, then reversed and re-negated so the whole
//! result ascends.

use vstd::prelude::*;

verus! {

use vstd::arithmetic::div_mod::lemma_div_denominator;
use vstd::arithmetic::div_mod::lemma_div_is_strictly_smaller;
use vstd::arithmetic::div_mod::lemma_mod_breakdown;
use vstd::arithmetic::div_mod::lemma_small_mod;

use crate::counts::count_of;
use crate::counts::lemma_count_of_concat;
use crate::counts::lemma_count_of_multiset;
use crate::counts::lemma_count_of_push;
use crate::counts::lemma_multiset_from_counts;
use crate::order::lemma_values_carry_over;
use crate::order::sorted;

broadcast use vstd::seq_lib::group_to_multiset_ensures;

/// The base-ten digit of `x` selected by the divisor `exp` (one for the
/// ones digit, ten for the tens digit, and so on).
pub open spec fn digit_of(x: u32, exp: u64) -> int
    recommends
        exp >= 1,
{
    ((x as int) / (exp as int)) % 10
}

/// The subsequence of `s` whose values carry digit `d`, in their original
/// order.
pub open spec fn sel(s: Seq<u32>, exp: u64, d: int) -> Seq<u32>
    decreases s.len(),
{
    if s.len() == 0 {
        Seq::empty()
    } else if digit_of(s[0], exp) == d {
        seq![s[0]] + sel(s.drop_first(), exp, d)
    } else {
        sel(s.drop_first(), exp, d)
    }
}

/// The concatenation of the digit subsequences from digit `d` upward.
pub open spec fn buckets_from(s: Seq<u32>, exp: u64, d: int) -> Seq<u32>
    decreases 10 - d,
{
    if d < 0 || d >= 10 {
        Seq::empty()
    } else {
        sel(s, exp, d) + buckets_from(s, exp, d + 1)
    }
}

/// What one stable digit pass produces: the values with digit zero first,
/// then digit one, and so on, each group in input order.
pub open spec fn pass_spec(s: Seq<u32>, exp: u64) -> Seq<u32> {
    buckets_from(s, exp, 0)
}

/// Where digit `d`'s group starts in the pass output.
pub open spec fn placed_before(s: Seq<u32>, exp: u64, d: int) -> nat
    decreases d,
{
    if d <= 0 {
        0
    } else {
        placed_before(s, exp, d - 1) + sel(s, exp, d - 1).len()
    }
}

/// A sequence of magnitudes in non-decreasing order.
pub open spec fn sorted_mags(s: Seq<u32>) -> bool {
    forall|i: int, j: int| 0 <= i <= j < s.len() ==> s[i] <= s[j]
}

/// Non-decreasing in the remainder modulo `m` — that is, sorted by the
/// digits below `m`.
pub open spec fn sorted_mod(s: Seq<u32>, m: int) -> bool {
    forall|i: int, j: int|
        0 <= i <= j < s.len() ==> (s[i] as int) % m <= (s[j] as int) % m
}

/// Appending a value extends exactly its digit's subsequence.
proof fn lemma_sel_push(s: Seq<u32>, x: u32, exp: u64, d: int)
    ensures
        sel(s.push(x), exp, d) == (if digit_of(x, exp) == d {
            sel(s, exp, d).push(x)
        } else {
            sel(s, exp, d)
        }),
    decreases s.len(),
{
    if s.len() == 0 {
        assert(s.push(x)[0] == x);
        assert(s.push(x).drop_first() =~= s);
        if digit_of(x, exp) == d {
            assert(sel(s.push(x), exp, d) =~= sel(s, exp, d).push(x));
        }
    } else {
        assert(s.push(x)[0] == s[0]);
        assert(s.push(x).drop_first() =~= s.drop_first().push(x));
        lemma_sel_push(s.drop_first(), x, exp, d);
        if digit_of(s[0], exp) == d {
            if digit_of(x, exp) == d {
                assert(seq![s[0]] + sel(s.drop_first(), exp, d).push(x)
                    =~= (seq![s[0]] + sel(s.drop_first(), exp, d)).push(x));
            }
        }
    }
}

/// The digit subsequence of a concatenation is the concatenation of the
/// digit subsequences.
proof fn lemma_sel_concat(a: Seq<u32>, b: Seq<u32>, exp: u64, d: int)
    ensures
        sel(a + b, exp, d) == sel(a, exp, d) + sel(b, exp, d),
    decreases a.len(),
{
    if a.len() == 0 {
        assert(a + b =~= b);
        assert(sel(a, exp, d) + sel(b, exp, d) =~= sel(b, exp, d));
    } else {
        assert((a + b)[0] == a[0]);
        assert((a + b).drop_first() =~= a.drop_first() + b);
        lemma_sel_concat(a.drop_first(), b, exp, d);
        if digit_of(a[0], exp) == d {
            assert(seq![a[0]] + (sel(a.drop_first(), exp, d) + sel(b, exp, d))
                =~= (seq![a[0]] + sel(a.drop_first(), exp, d)) + sel(b, exp, d));
        }
    }
}

/// A digit subsequence is never longer than the sequence itself.
proof fn lemma_sel_len(s: Seq<u32>, exp: u64, d: int)
    ensures
        sel(s, exp, d).len() <= s.len(),
    decreases s.len(),
{
    if s.len() > 0 {
        lemma_sel_len(s.drop_first(), exp, d);
    }
}

/// Every value of a digit subsequence carries that digit and occurs in
/// the original sequence.
proof fn lemma_sel_values(s: Seq<u32>, exp: u64, d: int)
    ensures
        forall|k: int|
            0 <= k < sel(s, exp, d).len() ==> digit_of(#[trigger] sel(s, exp, d)[k], exp) == d,
        forall|k: int|
            0 <= k < sel(s, exp, d).len() ==> exists|i: int|
                0 <= i < s.len() && s[i] == #[trigger] sel(s, exp, d)[k],
    decreases s.len(),
{
    if s.len() > 0 {
        lemma_sel_values(s.drop_first(), exp, d);
        let t = sel(s.drop_first(), exp, d);
        assert forall|k: int|
            0 <= k < sel(s, exp, d).len() implies digit_of(#[trigger] sel(s, exp, d)[k], exp)
            == d && exists|i: int| 0 <= i < s.len() && s[i] == sel(s, exp, d)[k] by {
            if digit_of(s[0], exp) == d {
                if k == 0 {
                    assert(sel(s, exp, d)[0] == s[0]);
                } else {
                    assert(sel(s, exp, d)[k] == t[k - 1]);
                    let i0 = choose|i0: int|
                        0 <= i0 < s.drop_first().len() && s.drop_first()[i0] == t[k - 1];
                    assert(s[i0 + 1] == sel(s, exp, d)[k]);
                }
            } else {
                assert(sel(s, exp, d)[k] == t[k]);
                let i0 = choose|i0: int|
                    0 <= i0 < s.drop_first().len() && s.drop_first()[i0] == t[k];
                assert(s[i0 + 1] == sel(s, exp, d)[k]);
            }
        }
    }
}

/// Selecting a digit keeps the order of the remainders below `m`.
proof fn lemma_sel_sorted_mod(s: Seq<u32>, exp: u64, d: int, m: int)
    requires
        sorted_mod(s, m),
    ensures
        sorted_mod(sel(s, exp, d), m),
    decreases s.len(),
{
    if s.len() > 0 {
        assert forall|i: int, j: int| 0 <= i <= j < s.drop_first().len()
            implies (s.drop_first()[i] as int) % m <= (s.drop_first()[j] as int) % m by {
            assert((s[i + 1] as int) % m <= (s[j + 1] as int) % m);
        }
        lemma_sel_sorted_mod(s.drop_first(), exp, d, m);
        lemma_sel_values(s.drop_first(), exp, d);
        let t = sel(s.drop_first(), exp, d);
        if digit_of(s[0], exp) == d {
            assert forall|i: int, j: int| 0 <= i <= j < sel(s, exp, d).len()
                implies (sel(s, exp, d)[i] as int) % m <= (sel(s, exp, d)[j] as int) % m by {
                if i == 0 {
                    if j > 0 {
                        assert(sel(s, exp, d)[j] == t[j - 1]);
                        let w = choose|w: int|
                            0 <= w < s.drop_first().len() && s.drop_first()[w] == t[j - 1];
                        assert((s[0] as int) % m <= (s[w + 1] as int) % m);
                    }
                } else {
                    assert((t[i - 1] as int) % m <= (t[j - 1] as int) % m);
                }
            }
        }
    }
}

/// How often a value occurs in a digit subsequence: as often as in the
/// whole sequence when it carries the digit, else not at all.
proof fn lemma_sel_count(s: Seq<u32>, exp: u64, d: int, v: u32)
    ensures
        count_of(sel(s, exp, d), v) == (if digit_of(v, exp) == d {
            count_of(s, v)
        } else {
            0nat
        }),
    decreases s.len(),
{
    if s.len() > 0 {
        lemma_sel_count(s.drop_first(), exp, d, v);
        if digit_of(s[0], exp) == d {
            assert(sel(s, exp, d) == seq![s[0]] + sel(s.drop_first(), exp, d));
            lemma_count_of_concat(seq![s[0]], sel(s.drop_first(), exp, d), v);
            assert(seq![s[0]].drop_first() =~= Seq::<u32>::empty());
            assert(count_of(Seq::<u32>::empty(), v) == 0);
        }
    }
}

/// How often a value occurs in the groups from digit `d` upward.
proof fn lemma_buckets_count(s: Seq<u32>, exp: u64, d: int, v: u32)
    requires
        0 <= d <= 10,
    ensures
        count_of(buckets_from(s, exp, d), v) == (if d <= digit_of(v, exp) < 10 {
            count_of(s, v)
        } else {
            0nat
        }),
    decreases 10 - d,
{
    if d >= 10 {
        assert(count_of(buckets_from(s, exp, d), v) == 0);
    } else {
        lemma_buckets_count(s, exp, d + 1, v);
        lemma_sel_count(s, exp, d, v);
        lemma_count_of_concat(sel(s, exp, d), buckets_from(s, exp, d + 1), v);
    }
}

/// Every digit is between zero and nine.
proof fn lemma_digit_bounds(x: u32, exp: u64)
    requires
        exp >= 1,
    ensures
        0 <= digit_of(x, exp) < 10,
{
}

/// A digit pass keeps the multiset of values.
pub proof fn lemma_pass_multiset(s: Seq<u32>, exp: u64)
    requires
        exp >= 1,
    ensures
        pass_spec(s, exp).to_multiset() == s.to_multiset(),
        pass_spec(s, exp).len() == s.len(),
{
    assert forall|v: u32| count_of(pass_spec(s, exp), v) == count_of(s, v) by {
        lemma_buckets_count(s, exp, 0, v);
        lemma_digit_bounds(v, exp);
    }
    lemma_multiset_from_counts(pass_spec(s, exp), s);
    assert(pass_spec(s, exp).to_multiset().len() == s.to_multiset().len());
}

/// The group starts never decrease.
proof fn lemma_placed_before_mono(s: Seq<u32>, exp: u64, d: int, e: int)
    requires
        d <= e,
    ensures
        placed_before(s, exp, d) <= placed_before(s, exp, e),
    decreases e - d,
{
    if d < e {
        lemma_placed_before_mono(s, exp, d, e - 1);
    }
}

/// The groups from digit `d` on fill the output from `d`'s start to the
/// end.
proof fn lemma_buckets_len(s: Seq<u32>, exp: u64, d: int)
    requires
        0 <= d <= 10,
    ensures
        buckets_from(s, exp, d).len() + placed_before(s, exp, d) == placed_before(s, exp, 10),
    decreases 10 - d,
{
    if d < 10 {
        lemma_buckets_len(s, exp, d + 1);
    }
}

/// Digit `d`'s group occupies exactly its slot of the pass output.
proof fn lemma_bucket_slot(s: Seq<u32>, exp: u64, d: int)
    requires
        0 <= d < 10,
    ensures
        placed_before(s, exp, d) + sel(s, exp, d).len() <= pass_spec(s, exp).len(),
        pass_spec(s, exp).subrange(
            placed_before(s, exp, d) as int,
            placed_before(s, exp, d) as int + sel(s, exp, d).len() as int,
        ) == sel(s, exp, d),
{
    lemma_buckets_len(s, exp, 0);
    lemma_buckets_len(s, exp, d);
    lemma_buckets_len(s, exp, d + 1);
    lemma_bucket_slot_from(s, exp, 0, d);
}

/// Helper: within the groups from digit `e` on, digit `d`'s group sits at
/// its relative slot.
proof fn lemma_bucket_slot_from(s: Seq<u32>, exp: u64, e: int, d: int)
    requires
        0 <= e <= d < 10,
    ensures
        placed_before(s, exp, d) - placed_before(s, exp, e) + sel(s, exp, d).len()
            <= buckets_from(s, exp, e).len(),
        buckets_from(s, exp, e).subrange(
            placed_before(s, exp, d) - placed_before(s, exp, e),
            placed_before(s, exp, d) - placed_before(s, exp, e) + sel(s, exp, d).len(),
        ) == sel(s, exp, d),
    decreases d - e,
{
    lemma_buckets_len(s, exp, e);
    lemma_buckets_len(s, exp, d);
    lemma_buckets_len(s, exp, d + 1);
    lemma_placed_before_mono(s, exp, e, d);
    if e == d {
        assert(buckets_from(s, exp, d).subrange(0, sel(s, exp, d).len() as int)
            =~= sel(s, exp, d));
    } else {
        lemma_bucket_slot_from(s, exp, e + 1, d);
        let lo = placed_before(s, exp, d) - placed_before(s, exp, e + 1);
        let w = sel(s, exp, d).len() as int;
        lemma_placed_before_mono(s, exp, e + 1, d);
        assert(buckets_from(s, exp, e).subrange(
            lo + sel(s, exp, e).len(),
            lo + sel(s, exp, e).len() + w,
        ) =~= buckets_from(s, exp, e + 1).subrange(lo, lo + w));
    }
}

/// A pass by digit `exp` turns order below `exp` into order below ten
/// times `exp`.
pub proof fn lemma_pass_sorted(s: Seq<u32>, exp: u64)
    requires
        exp >= 1,
        sorted_mod(s, exp as int),
    ensures
        sorted_mod(pass_spec(s, exp), 10 * (exp as int)),
{
    let p = pass_spec(s, exp);
    let m = 10 * (exp as int);
    lemma_pass_multiset(s, exp);
    assert forall|i: int, j: int| 0 <= i <= j < p.len()
        implies (p[i] as int) % m <= (p[j] as int) % m by {
        let di = slot_of(s, exp, i);
        let dj = slot_of(s, exp, j);
        lemma_bucket_slot(s, exp, di);
        lemma_bucket_slot(s, exp, dj);
        let seli = sel(s, exp, di);
        let selj = sel(s, exp, dj);
        let oi = i - placed_before(s, exp, di);
        let oj = j - placed_before(s, exp, dj);
        assert(p[i] == seli[oi]);
        assert(p[j] == selj[oj]);
        lemma_sel_values(s, exp, di);
        lemma_sel_values(s, exp, dj);
        assert(digit_of(p[i], exp) == di);
        assert(digit_of(p[j], exp) == dj);
        lemma_mod_breakdown(p[i] as int, exp as int, 10);
        lemma_mod_breakdown(p[j] as int, exp as int, 10);
        assert((p[i] as int) % m == (exp as int) * di + (p[i] as int) % (exp as int));
        assert((p[j] as int) % m == (exp as int) * dj + (p[j] as int) % (exp as int));
        if di == dj {
            // Same group: the group keeps the input's order below `exp`.
            lemma_sel_sorted_mod(s, exp, di, exp as int);
            assert((seli[oi] as int) % (exp as int) <= (seli[oj] as int) % (exp as int));
        } else {
            // Different groups appear in digit order.
            assert(di < dj) by {
                if di > dj {
                    lemma_placed_before_mono(s, exp, dj + 1, di);
                    assert(false);
                }
            }
            assert((p[i] as int) % (exp as int) < exp as int);
            assert((exp as int) * di + (exp as int) <= (exp as int) * dj) by (nonlinear_arith)
                requires
                    di < dj,
                    exp >= 1,
            ;
        }
    }
}

/// The digit whose slot contains position `k` of the pass output.
proof fn slot_of(s: Seq<u32>, exp: u64, k: int) -> (d: int)
    requires
        0 <= k < pass_spec(s, exp).len(),
    ensures
        0 <= d < 10,
        placed_before(s, exp, d) <= k < placed_before(s, exp, d) + sel(s, exp, d).len(),
{
    lemma_buckets_len(s, exp, 0);
    slot_of_from(s, exp, 9, k)
}

/// Helper: searches the groups downward for the one containing `k`.
proof fn slot_of_from(s: Seq<u32>, exp: u64, hi: int, k: int) -> (d: int)
    requires
        0 <= hi < 10,
        0 <= k < placed_before(s, exp, hi + 1),
    ensures
        0 <= d <= hi,
        placed_before(s, exp, d) <= k < placed_before(s, exp, d) + sel(s, exp, d).len(),
    decreases hi,
{
    if k >= placed_before(s, exp, hi) {
        hi
    } else {
        slot_of_from(s, exp, hi - 1, k)
    }
}


/// One stable counting-sort pass over the digit selected by `exp`:
/// afterwards the vector holds its old values grouped by that digit in
/// ascending digit order, each group in its old order.
#[verifier::loop_isolation(false)]
#[verifier::rlimit(60)]
pub fn counting_sort_by_digit(arr: &mut Vec<u32>, exp: u64)
    requires
        exp >= 1,
    ensures
        final(arr)@ == pass_spec(old(arr)@, exp),
{
    let n = arr.len();
    let ghost s = arr@;
    let mut cnt: Vec<usize> = vec![0; 10];
    proof {
        assert(s.take(0) =~= Seq::<u32>::empty());
        assert forall|d: int| 0 <= d < 10
            implies #[trigger] cnt@[d] as nat == sel(s.take(0), exp, d).len() by {
            assert(sel(s.take(0), exp, d) == Seq::<u32>::empty());
        }
    }
    let mut t: usize = 0;
    while t < n
        invariant
            t <= n,
            cnt@.len() == 10,
            forall|d: int|
                0 <= d < 10 ==> #[trigger] cnt@[d] as nat == sel(s.take(t as int), exp, d).len(),
        decreases n - t,
    {
        let v = arr[t];
        let dig = ((v as u64 / exp) % 10) as usize;
        proof {
            assert(dig as int == digit_of(v, exp));
            lemma_sel_len(s.take(t as int), exp, dig as int);
        }
        let c = cnt[dig];
        cnt[dig] = c + 1;
        proof {
            assert(s.take(t + 1) =~= s.take(t as int).push(s[t as int]));
            assert forall|d: int|
                0 <= d < 10 implies #[trigger] cnt@[d] as nat == sel(s.take(t + 1), exp, d).len() by {
                lemma_sel_push(s.take(t as int), s[t as int], exp, d);
            }
        }
        t = t + 1;
    }
    proof {
        assert(s.take(n as int) =~= s);
        lemma_pass_multiset(s, exp);
        lemma_buckets_len(s, exp, 0);
        assert(placed_before(s, exp, 10) == n);
        assert(cnt@[0] as nat == placed_before(s, exp, 1));
    }
    let mut d: usize = 1;
    while d < 10
        invariant
            1 <= d <= 10,
            cnt@.len() == 10,
            forall|e: int|
                0 <= e < d ==> #[trigger] cnt@[e] as nat == placed_before(s, exp, e + 1),
            forall|e: int| d <= e < 10 ==> #[trigger] cnt@[e] as nat == sel(s, exp, e).len(),
        decreases 10 - d,
    {
        proof {
            lemma_placed_before_mono(s, exp, d as int + 1, 10);
        }
        let a = cnt[d - 1];
        let b = cnt[d];
        cnt[d] = a + b;
        d = d + 1;
    }
    let mut output: Vec<u32> = vec![0; n];
    proof {
        assert(s.skip(n as int) =~= Seq::<u32>::empty());
        assert forall|dd: int|
            0 <= dd < 10 implies #[trigger] cnt@[dd] as nat + sel(
            s.skip(n as int),
            exp,
            dd,
        ).len() == placed_before(s, exp, dd + 1) by {
            assert(sel(s.skip(n as int), exp, dd) == Seq::<u32>::empty());
        }
        assert forall|dd: int|
            0 <= dd < 10 implies output@.subrange(
            #[trigger] cnt@[dd] as int,
            placed_before(s, exp, dd + 1) as int,
        ) == sel(s.skip(n as int), exp, dd) by {
            lemma_placed_before_mono(s, exp, dd + 1, 10);
            assert(output@.subrange(cnt@[dd] as int, placed_before(s, exp, dd + 1) as int)
                =~= sel(s.skip(n as int), exp, dd));
        }
    }
    t = n;
    while t > 0
        invariant
            t <= n,
            cnt@.len() == 10,
            output@.len() == n,
            forall|dd: int|
                0 <= dd < 10 ==> #[trigger] cnt@[dd] as nat + sel(
                    s.skip(t as int),
                    exp,
                    dd,
                ).len() == placed_before(s, exp, dd + 1),
            forall|dd: int|
                0 <= dd < 10 ==> output@.subrange(
                    #[trigger] cnt@[dd] as int,
                    placed_before(s, exp, dd + 1) as int,
                ) == sel(s.skip(t as int), exp, dd),
        decreases t,
    {
        t = t - 1;
        let v = arr[t];
        let dig = ((v as u64 / exp) % 10) as usize;
        let ghost suf_old = s.skip(t + 1);
        let ghost suf_new = s.skip(t as int);
        proof {
            assert(dig as int == digit_of(v, exp));
            assert(suf_new[0] == v);
            assert(suf_new.drop_first() =~= suf_old);
            assert(sel(suf_new, exp, dig as int) == seq![v] + sel(suf_old, exp, dig as int));
            assert(s =~= s.take(t + 1) + suf_old);
            lemma_sel_concat(s.take(t + 1), suf_old, exp, dig as int);
            assert(s.take(t + 1) =~= s.take(t as int).push(v));
            lemma_sel_push(s.take(t as int), v, exp, dig as int);
            assert(sel(s, exp, dig as int).len() >= 1 + sel(suf_old, exp, dig as int).len());
            assert(cnt@[dig as int] as nat >= placed_before(s, exp, dig as int) + 1);
            lemma_placed_before_mono(s, exp, dig as int + 1, 10);
        }
        let pos = cnt[dig] - 1;
        let ghost cnt0 = cnt@;
        let ghost out0 = output@;
        output[pos] = v;
        cnt[dig] = pos;
        proof {
            assert(output@ == out0.update(pos as int, v));
            assert(cnt@ == cnt0.update(dig as int, pos));
            assert forall|dd: int|
                0 <= dd < 10 implies #[trigger] cnt@[dd] as nat + sel(
                suf_new,
                exp,
                dd,
            ).len() == placed_before(s, exp, dd + 1) by {
                if dd != dig {
                    assert(sel(suf_new, exp, dd) == sel(suf_old, exp, dd));
                }
            }
            assert forall|dd: int|
                0 <= dd < 10 implies output@.subrange(
                #[trigger] cnt@[dd] as int,
                placed_before(s, exp, dd + 1) as int,
            ) == sel(suf_new, exp, dd) by {
                let hi = placed_before(s, exp, dd + 1) as int;
                if dd == dig {
                    assert(out0.subrange(pos + 1, hi) == sel(suf_old, exp, dd));
                    assert(output@.subrange(pos as int, hi)
                        =~= seq![v] + out0.subrange(pos + 1, hi));
                } else {
                    assert(sel(suf_new, exp, dd) == sel(suf_old, exp, dd));
                    // The touched position lies in another digit's slot.
                    lemma_placed_before_mono(s, exp, dd + 1, 10);
                    lemma_sel_concat(s.take(t + 1), suf_old, exp, dd);
                    assert(sel(suf_old, exp, dd).len() <= sel(s, exp, dd).len());
                    assert(cnt0[dd] as nat >= placed_before(s, exp, dd));
                    if dd < dig {
                        lemma_placed_before_mono(s, exp, dd + 1, dig as int);
                        assert(hi <= pos);
                    } else {
                        lemma_placed_before_mono(s, exp, dig as int + 1, dd);
                        assert(cnt0[dd] > pos);
                    }
                    assert(output@.subrange(cnt0[dd] as int, hi)
                        =~= out0.subrange(cnt0[dd] as int, hi));
                }
            }
        }
    }
    proof {
        assert(s.skip(0) =~= s);
        let p = pass_spec(s, exp);
        assert forall|k: int| 0 <= k < n implies output@[k] == p[k] by {
            let dd = slot_of(s, exp, k);
            lemma_bucket_slot(s, exp, dd);
            assert(cnt@[dd] as nat == placed_before(s, exp, dd));
            let lo = placed_before(s, exp, dd) as int;
            let hi = placed_before(s, exp, dd + 1) as int;
            assert(output@.subrange(lo, hi) == sel(s, exp, dd));
            assert(output@[k] == output@.subrange(lo, hi)[k - lo]);
            assert(p[k] == p.subrange(lo, lo + sel(s, exp, dd).len() as int)[k - lo]);
        }
        assert(output@ =~= p);
    }
    *arr = output;
}

/// A magnitude mapped from a negative value: its absolute value.
pub open spec fn mag_of(x: i32) -> u32
    recommends
        x < 0,
{
    (-(x as int)) as u32
}

/// The magnitudes of the negative values of `s`, in their original order.
pub open spec fn neg_mags_of(s: Seq<i32>) -> Seq<u32>
    decreases s.len(),
{
    if s.len() == 0 {
        Seq::empty()
    } else if s[0] < 0 {
        seq![mag_of(s[0])] + neg_mags_of(s.drop_first())
    } else {
        neg_mags_of(s.drop_first())
    }
}

/// The non-negative values of `s`, in their original order.
pub open spec fn nonneg_vals_of(s: Seq<i32>) -> Seq<u32>
    decreases s.len(),
{
    if s.len() == 0 {
        Seq::empty()
    } else if s[0] >= 0 {
        seq![s[0] as u32] + nonneg_vals_of(s.drop_first())
    } else {
        nonneg_vals_of(s.drop_first())
    }
}

/// The reversed, re-negated form of a magnitude sequence.
spec fn rev_negs(m: Seq<u32>) -> Seq<i32>
    decreases m.len(),
{
    if m.len() == 0 {
        Seq::empty()
    } else {
        seq![((-(m.last() as int)) as i32)] + rev_negs(m.drop_last())
    }
}

/// The values of a magnitude sequence read back as signed values.
spec fn as_i32s(m: Seq<u32>) -> Seq<i32>
    decreases m.len(),
{
    if m.len() == 0 {
        Seq::empty()
    } else {
        seq![(m[0] as i32)] + as_i32s(m.drop_first())
    }
}

/// Appending a value extends exactly one of the two partitions.
proof fn lemma_split_push(s: Seq<i32>, x: i32)
    ensures
        neg_mags_of(s.push(x)) == (if x < 0 {
            neg_mags_of(s).push(mag_of(x))
        } else {
            neg_mags_of(s)
        }),
        nonneg_vals_of(s.push(x)) == (if x >= 0 {
            nonneg_vals_of(s).push(x as u32)
        } else {
            nonneg_vals_of(s)
        }),
    decreases s.len(),
{
    if s.len() == 0 {
        assert(s.push(x)[0] == x);
        assert(s.push(x).drop_first() =~= s);
        if x < 0 {
            assert(neg_mags_of(s.push(x)) =~= neg_mags_of(s).push(mag_of(x)));
        } else {
            assert(nonneg_vals_of(s.push(x)) =~= nonneg_vals_of(s).push(x as u32));
        }
    } else {
        assert(s.push(x)[0] == s[0]);
        assert(s.push(x).drop_first() =~= s.drop_first().push(x));
        lemma_split_push(s.drop_first(), x);
        if s[0] < 0 && x < 0 {
            assert(seq![mag_of(s[0])] + neg_mags_of(s.drop_first()).push(mag_of(x))
                =~= (seq![mag_of(s[0])] + neg_mags_of(s.drop_first())).push(mag_of(x)));
        }
        if s[0] >= 0 && x >= 0 {
            assert(seq![s[0] as u32] + nonneg_vals_of(s.drop_first()).push(x as u32)
                =~= (seq![s[0] as u32] + nonneg_vals_of(s.drop_first())).push(x as u32));
        }
    }
}

/// Magnitudes of negative values are at least one and at most `2^31`;
/// kept non-negative values fit a signed word.
proof fn lemma_split_bounds(s: Seq<i32>)
    ensures
        forall|k: int|
            0 <= k < neg_mags_of(s).len() ==> 1 <= #[trigger] neg_mags_of(s)[k] <= 0x8000_0000u32,
        forall|k: int|
            0 <= k < nonneg_vals_of(s).len() ==> #[trigger] nonneg_vals_of(s)[k]
                <= i32::MAX as u32,
    decreases s.len(),
{
    if s.len() > 0 {
        lemma_split_bounds(s.drop_first());
        if s[0] < 0 {
            assert(neg_mags_of(s)[0] == mag_of(s[0]));
            assert forall|k: int| 0 <= k < neg_mags_of(s).len()
                implies 1 <= #[trigger] neg_mags_of(s)[k] <= 0x8000_0000u32 by {
                if k > 0 {
                    assert(neg_mags_of(s)[k] == neg_mags_of(s.drop_first())[k - 1]);
                }
            }
            assert forall|k: int| 0 <= k < nonneg_vals_of(s).len()
                implies #[trigger] nonneg_vals_of(s)[k] <= i32::MAX as u32 by {
                assert(nonneg_vals_of(s)[k] == nonneg_vals_of(s.drop_first())[k]);
            }
        } else {
            assert forall|k: int| 0 <= k < nonneg_vals_of(s).len()
                implies #[trigger] nonneg_vals_of(s)[k] <= i32::MAX as u32 by {
                if k > 0 {
                    assert(nonneg_vals_of(s)[k] == nonneg_vals_of(s.drop_first())[k - 1]);
                }
            }
            assert forall|k: int| 0 <= k < neg_mags_of(s).len()
                implies 1 <= #[trigger] neg_mags_of(s)[k] <= 0x8000_0000u32 by {
                assert(neg_mags_of(s)[k] == neg_mags_of(s.drop_first())[k]);
            }
        }
    }
}

/// A negative value occurs in `s` exactly as often as its magnitude
/// occurs among the negative magnitudes.
proof fn lemma_neg_count(s: Seq<i32>, v: i32)
    requires
        v < 0,
    ensures
        count_of(neg_mags_of(s), mag_of(v)) == count_of(s, v),
    decreases s.len(),
{
    if s.len() > 0 {
        lemma_neg_count(s.drop_first(), v);
        if s[0] < 0 {
            assert(neg_mags_of(s) == seq![mag_of(s[0])] + neg_mags_of(s.drop_first()));
            lemma_count_of_concat(seq![mag_of(s[0])], neg_mags_of(s.drop_first()), mag_of(v));
            assert(seq![mag_of(s[0])].drop_first() =~= Seq::<u32>::empty());
            assert(count_of(Seq::<u32>::empty(), mag_of(v)) == 0);
            assert((mag_of(s[0]) == mag_of(v)) == (s[0] == v));
        }
    }
}

/// A non-negative value occurs in `s` exactly as often as its unsigned
/// form occurs among the kept non-negative values.
proof fn lemma_nonneg_count(s: Seq<i32>, v: i32)
    requires
        v >= 0,
    ensures
        count_of(nonneg_vals_of(s), v as u32) == count_of(s, v),
    decreases s.len(),
{
    if s.len() > 0 {
        lemma_nonneg_count(s.drop_first(), v);
        if s[0] >= 0 {
            assert(nonneg_vals_of(s) == seq![s[0] as u32] + nonneg_vals_of(s.drop_first()));
            lemma_count_of_concat(seq![s[0] as u32], nonneg_vals_of(s.drop_first()), v as u32);
            assert(seq![s[0] as u32].drop_first() =~= Seq::<u32>::empty());
            assert(count_of(Seq::<u32>::empty(), v as u32) == 0);
            assert((s[0] as u32 == v as u32) == (s[0] == v));
        }
    }
}

/// Index form of the reversed, re-negated magnitudes.
proof fn lemma_rev_negs_index(m: Seq<u32>)
    requires
        forall|k: int| 0 <= k < m.len() ==> #[trigger] m[k] <= 0x8000_0000u32,
    ensures
        rev_negs(m).len() == m.len(),
        forall|k: int|
            0 <= k < m.len() ==> #[trigger] rev_negs(m)[k] as int == -(m[m.len() - 1 - k] as int),
    decreases m.len(),
{
    if m.len() > 0 {
        assert forall|k: int| 0 <= k < m.drop_last().len()
            implies #[trigger] m.drop_last()[k] <= 0x8000_0000u32 by {
            assert(m.drop_last()[k] == m[k]);
        }
        lemma_rev_negs_index(m.drop_last());
        assert forall|k: int| 0 <= k < m.len()
            implies #[trigger] rev_negs(m)[k] as int == -(m[m.len() - 1 - k] as int) by {
            if k == 0 {
                assert(rev_negs(m)[0] as int == -(m.last() as int));
            } else {
                assert(rev_negs(m)[k] == rev_negs(m.drop_last())[k - 1]);
                assert(m.drop_last()[m.drop_last().len() - 1 - (k - 1)] == m[m.len() - 1 - k]);
            }
        }
    }
}

/// Counts in the reversed, re-negated magnitudes.
proof fn lemma_rev_negs_count(m: Seq<u32>, v: i32)
    requires
        forall|k: int| 0 <= k < m.len() ==> 1 <= #[trigger] m[k] <= 0x8000_0000u32,
    ensures
        count_of(rev_negs(m), v) == (if v < 0 {
            count_of(m, mag_of(v))
        } else {
            0nat
        }),
    decreases m.len(),
{
    if m.len() > 0 {
        assert forall|k: int| 0 <= k < m.drop_last().len()
            implies 1 <= #[trigger] m.drop_last()[k] <= 0x8000_0000u32 by {
            assert(m.drop_last()[k] == m[k]);
        }
        lemma_rev_negs_count(m.drop_last(), v);
        let x = (-(m.last() as int)) as i32;
        assert(rev_negs(m) == seq![x] + rev_negs(m.drop_last()));
        lemma_count_of_concat(seq![x], rev_negs(m.drop_last()), v);
        assert(seq![x].drop_first() =~= Seq::<i32>::empty());
        assert(count_of(Seq::<i32>::empty(), v) == 0);
        assert(m =~= m.drop_last().push(m.last()));
        lemma_count_of_push(m.drop_last(), m.last(), (if v < 0 {
            mag_of(v)
        } else {
            0u32
        }));
        if v < 0 {
            assert((x == v) == (m.last() == mag_of(v)));
        } else {
            assert(x < 0);
        }
    }
}

/// Counts in magnitudes read back as signed values.
proof fn lemma_as_i32s_count(m: Seq<u32>, v: i32)
    requires
        forall|k: int| 0 <= k < m.len() ==> #[trigger] m[k] <= i32::MAX as u32,
    ensures
        count_of(as_i32s(m), v) == (if v >= 0 {
            count_of(m, v as u32)
        } else {
            0nat
        }),
    decreases m.len(),
{
    if m.len() > 0 {
        assert forall|k: int| 0 <= k < m.drop_first().len()
            implies #[trigger] m.drop_first()[k] <= i32::MAX as u32 by {
            assert(m.drop_first()[k] == m[k + 1]);
        }
        lemma_as_i32s_count(m.drop_first(), v);
        let x = m[0] as i32;
        assert(as_i32s(m) == seq![x] + as_i32s(m.drop_first()));
        lemma_count_of_concat(seq![x], as_i32s(m.drop_first()), v);
        assert(seq![x].drop_first() =~= Seq::<i32>::empty());
        assert(count_of(Seq::<i32>::empty(), v) == 0);
        assert(count_of(m, (if v >= 0 {
            v as u32
        } else {
            0u32
        })) == (if m[0] == (if v >= 0 {
            v as u32
        } else {
            0u32
        }) {
            1nat
        } else {
            0nat
        }) + count_of(m.drop_first(), (if v >= 0 {
            v as u32
        } else {
            0u32
        })));
        if v >= 0 {
            assert((x == v) == (m[0] == v as u32));
        } else {
            assert(x >= 0);
        }
    }
}


/// Index form of magnitudes read back as signed values.
proof fn lemma_as_i32s_index(m: Seq<u32>)
    ensures
        as_i32s(m).len() == m.len(),
        forall|k: int| 0 <= k < m.len() ==> #[trigger] as_i32s(m)[k] == (m[k] as i32),
    decreases m.len(),
{
    if m.len() > 0 {
        lemma_as_i32s_index(m.drop_first());
        assert forall|k: int| 0 <= k < m.len()
            implies #[trigger] as_i32s(m)[k] == (m[k] as i32) by {
            if k > 0 {
                assert(as_i32s(m)[k] == as_i32s(m.drop_first())[k - 1]);
                assert(m.drop_first()[k - 1] == m[k]);
            }
        }
    }
}

/// Sorts a vector of magnitudes with one stable digit pass per base-ten
/// digit of the greatest value, least significant digit first.
#[verifier::loop_isolation(false)]
fn sort_mags(arr: Vec<u32>) -> (r: Vec<u32>)
    ensures
        sorted_mags(r@),
        r@.to_multiset() == arr@.to_multiset(),
        r@.len() == arr@.len(),
{
    let mut v = arr;
    let ghost orig = v@;
    let n = v.len();
    if n == 0 {
        return v;
    }
    let mut max_val = v[0];
    let mut t: usize = 1;
    while t < n
        invariant
            1 <= t <= n,
            n == v@.len(),
            forall|k: int| 0 <= k < t ==> #[trigger] v@[k] <= max_val,
        decreases n - t,
    {
        if v[t] > max_val {
            max_val = v[t];
        }
        t = t + 1;
    }
    let max64 = max_val as u64;
    let mut exp: u64 = 1;
    proof {
        assert forall|i: int, j: int| 0 <= i <= j < v@.len()
            implies (v@[i] as int) % (exp as int) <= (v@[j] as int) % (exp as int) by {
            assert((v@[i] as int) % 1 == 0);
            assert((v@[j] as int) % 1 == 0);
        }
    }
    while max64 / exp > 0
        invariant
            exp >= 1,
            v@.len() == n,
            v@.to_multiset() == orig.to_multiset(),
            forall|k: int| 0 <= k < v@.len() ==> #[trigger] v@[k] <= max_val,
            sorted_mod(v@, exp as int),
        decreases max64 as int / exp as int,
    {
        proof {
            assert(exp <= max64) by {
                if exp > max64 {
                    vstd::arithmetic::div_mod::lemma_basic_div_specific_divisor(exp as int);
                }
            }
        }
        let ghost before = v@;
        counting_sort_by_digit(&mut v, exp);
        proof {
            lemma_pass_multiset(before, exp);
            lemma_pass_sorted(before, exp);
            lemma_values_carry_over::<u32>(before, v@, |x: u32| x <= max_val);
            lemma_div_denominator(max64 as int, exp as int, 10);
            lemma_div_is_strictly_smaller(max64 as int / exp as int, 10);
        }
        exp = exp * 10;
    }
    proof {
        assert(max64 < exp) by {
            if exp <= max64 {
                vstd::arithmetic::div_mod::lemma_div_is_ordered(
                    exp as int,
                    max64 as int,
                    exp as int,
                );
                vstd::arithmetic::div_mod::lemma_div_by_self(exp as int);
            }
        }
        assert forall|i: int, j: int| 0 <= i <= j < v@.len() implies v@[i] <= v@[j] by {
            lemma_small_mod(v@[i] as nat, exp as nat);
            lemma_small_mod(v@[j] as nat, exp as nat);
        }
    }
    v
}

/// Radix sort: negative values are split off and sorted by magnitude,
/// the non-negative values are sorted on their own, and the negative
/// partition returns reversed and re-negated in front of the rest.
#[verifier::loop_isolation(false)]
#[verifier::rlimit(60)]
pub fn radix_sort(arr: &Vec<i32>) -> (r: Vec<i32>)
    ensures
        sorted(r@),
        r@.to_multiset() == arr@.to_multiset(),
        r@.len() == arr@.len(),
{
    let n = arr.len();
    let mut negs: Vec<u32> = Vec::new();
    let mut pos: Vec<u32> = Vec::new();
    let mut t: usize = 0;
    proof {
        assert(arr@.take(0) =~= Seq::<i32>::empty());
    }
    while t < n
        invariant
            t <= n,
            negs@ == neg_mags_of(arr@.take(t as int)),
            pos@ == nonneg_vals_of(arr@.take(t as int)),
        decreases n - t,
    {
        let x = arr[t];
        proof {
            assert(arr@.take(t + 1) =~= arr@.take(t as int).push(x));
            lemma_split_push(arr@.take(t as int), x);
        }
        if x < 0 {
            negs.push((-(x as i64)) as u32);
        } else {
            pos.push(x as u32);
        }
        t = t + 1;
    }
    proof {
        assert(arr@.take(n as int) =~= arr@);
        lemma_split_bounds(arr@);
    }
    let negs_sorted = sort_mags(negs);
    let pos_sorted = sort_mags(pos);
    proof {
        lemma_values_carry_over::<u32>(
            neg_mags_of(arr@),
            negs_sorted@,
            |x: u32| 1 <= x <= 0x8000_0000u32,
        );
        lemma_values_carry_over::<u32>(
            nonneg_vals_of(arr@),
            pos_sorted@,
            |x: u32| x <= i32::MAX as u32,
        );
    }
    let mut result: Vec<i32> = Vec::new();
    let nl = negs_sorted.len();
    t = 0;
    while t < nl
        invariant
            t <= nl,
            nl == negs_sorted@.len(),
            result@.len() == t,
            forall|k: int|
                0 <= k < t ==> #[trigger] result@[k] as int == -(negs_sorted@[nl - 1 - k] as int),
        decreases nl - t,
    {
        let m = negs_sorted[nl - 1 - t];
        proof {
            assert(1 <= m <= 0x8000_0000u32);
        }
        result.push((-(m as i64)) as i32);
        t = t + 1;
    }
    let pl = pos_sorted.len();
    t = 0;
    while t < pl
        invariant
            t <= pl,
            pl == pos_sorted@.len(),
            result@.len() == nl + t,
            forall|k: int|
                0 <= k < nl ==> #[trigger] result@[k] as int == -(negs_sorted@[nl - 1 - k] as int),
            forall|k: int|
                0 <= k < t ==> #[trigger] result@[nl + k] as int == pos_sorted@[k] as int,
        decreases pl - t,
    {
        let m = pos_sorted[t];
        proof {
            assert(m <= i32::MAX as u32);
        }
        result.push(m as i32);
        t = t + 1;
    }
    proof {
        let part1 = result@.take(nl as int);
        let part2 = result@.skip(nl as int);
        lemma_rev_negs_index(negs_sorted@);
        assert(part1 =~= rev_negs(negs_sorted@));
        lemma_as_i32s_index(pos_sorted@);
        assert forall|k: int| 0 <= k < pl implies part2[k] == #[trigger] as_i32s(pos_sorted@)[k] by {
            assert(result@[nl + k] as int == pos_sorted@[k] as int);
            assert(part2[k] == result@[nl + k]);
            assert(pos_sorted@[k] <= i32::MAX as u32);
        }
        assert(part2 =~= as_i32s(pos_sorted@));
        // The result ascends: negatives first, then the rest.
        assert forall|i: int, j: int| 0 <= i <= j < result@.len()
            implies result@[i] <= result@[j] by {
            if j < nl {
                assert(negs_sorted@[nl - 1 - j] <= negs_sorted@[nl - 1 - i]);
            } else if i >= nl {
                let ki = i - nl;
                let kj = j - nl;
                assert(result@[nl + ki] as int == pos_sorted@[ki] as int);
                assert(result@[nl + kj] as int == pos_sorted@[kj] as int);
                assert(pos_sorted@[ki] <= pos_sorted@[kj]);
            } else {
                let kj = j - nl;
                assert(result@[i] as int == -(negs_sorted@[nl - 1 - i] as int));
                assert(1 <= negs_sorted@[nl - 1 - i]);
                assert(result@[nl + kj] as int == pos_sorted@[kj] as int);
            }
        }
        // The result holds exactly the input values.
        assert(result@ =~= part1 + part2);
        assert forall|w: i32| count_of(result@, w) == count_of(arr@, w) by {
            lemma_count_of_concat(part1, part2, w);
            lemma_rev_negs_count(negs_sorted@, w);
            lemma_as_i32s_count(pos_sorted@, w);
            lemma_count_of_multiset(negs_sorted@, (if w < 0 { mag_of(w) } else { 0u32 }));
            lemma_count_of_multiset(neg_mags_of(arr@), (if w < 0 { mag_of(w) } else { 0u32 }));
            lemma_count_of_multiset(pos_sorted@, (if w >= 0 { w as u32 } else { 0u32 }));
            lemma_count_of_multiset(nonneg_vals_of(arr@), (if w >= 0 { w as u32 } else { 0u32 }));
            if w < 0 {
                lemma_neg_count(arr@, w);
            } else {
                lemma_nonneg_count(arr@, w);
            }
        }
        lemma_multiset_from_counts(result@, arr@);
        assert(result@.to_multiset().len() == arr@.to_multiset().len());
    }
    result
}
} // verus!
