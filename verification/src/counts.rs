//! Counting vocabulary for the distribution sorts: how often a value
//! occurs in a sequence, how many values lie at or below a bound, and how
//! those counts relate to the multiset view.

use vstd::prelude::*;

verus! {

use vstd::multiset::Multiset;
use vstd::seq_lib::lemma_multiset_commutative;

broadcast use {vstd::seq_lib::group_to_multiset_ensures, vstd::multiset::group_multiset_axioms};

/// How many positions of `s` hold exactly `v`.
pub open spec fn count_of<A>(s: Seq<A>, v: A) -> nat
    decreases s.len(),
{
    if s.len() == 0 {
        0
    } else {
        (if s[0] == v {
            1nat
        } else {
            0nat
        }) + count_of(s.drop_first(), v)
    }
}

/// How many positions of `s` hold a value at most `bound`.
pub open spec fn count_le(s: Seq<i32>, bound: int) -> nat
    decreases s.len(),
{
    if s.len() == 0 {
        0
    } else {
        (if s[0] <= bound {
            1nat
        } else {
            0nat
        }) + count_le(s.drop_first(), bound)
    }
}

/// `count_of` agrees with the multiset view of the sequence.
pub proof fn lemma_count_of_multiset<A>(s: Seq<A>, v: A)
    ensures
        count_of(s, v) == s.to_multiset().count(v),
    decreases s.len(),
{
    if s.len() == 0 {
        assert(!s.contains(v));
    } else {
        lemma_count_of_multiset(s.drop_first(), v);
        assert(s =~= seq![s[0]] + s.drop_first());
        lemma_multiset_commutative(seq![s[0]], s.drop_first());
        assert(seq![s[0]] =~= Seq::<A>::empty().push(s[0]));
        assert(seq![s[0]].to_multiset() =~= Multiset::<A>::empty().insert(s[0]));
    }
}

/// Two sequences with the same value counts hold the same multiset.
pub proof fn lemma_multiset_from_counts<A>(a: Seq<A>, b: Seq<A>)
    requires
        forall|v: A| count_of(a, v) == count_of(b, v),
    ensures
        a.to_multiset() == b.to_multiset(),
{
    assert forall|v: A| a.to_multiset().count(v) == b.to_multiset().count(v) by {
        lemma_count_of_multiset(a, v);
        lemma_count_of_multiset(b, v);
    }
    assert(a.to_multiset() =~= b.to_multiset());
}

/// Counts add up across a concatenation.
pub proof fn lemma_count_of_concat<A>(a: Seq<A>, b: Seq<A>, v: A)
    ensures
        count_of(a + b, v) == count_of(a, v) + count_of(b, v),
{
    lemma_count_of_multiset(a + b, v);
    lemma_count_of_multiset(a, v);
    lemma_count_of_multiset(b, v);
    lemma_multiset_commutative(a, b);
}

/// Appending one value raises its count by one and no other.
pub proof fn lemma_count_of_push<A>(s: Seq<A>, x: A, v: A)
    ensures
        count_of(s.push(x), v) == count_of(s, v) + (if x == v {
            1nat
        } else {
            0nat
        }),
{
    assert(s.push(x) =~= s + seq![x]);
    lemma_count_of_concat(s, seq![x], v);
    assert(count_of(seq![x], v) == (if x == v {
        1nat
    } else {
        0nat
    })) by {
        assert(seq![x].len() == 1);
        assert(seq![x][0] == x);
        assert(seq![x].drop_first() =~= Seq::<A>::empty());
        assert(count_of(seq![x].drop_first(), v) == 0);
    }
}

/// No count exceeds the sequence's length.
pub proof fn lemma_count_of_len<A>(s: Seq<A>, v: A)
    ensures
        count_of(s, v) <= s.len(),
    decreases s.len(),
{
    if s.len() > 0 {
        lemma_count_of_len(s.drop_first(), v);
    }
}

/// A value counted at least once occurs at some position.
pub proof fn lemma_count_of_contains<A>(s: Seq<A>, v: A)
    requires
        count_of(s, v) > 0,
    ensures
        exists|k: int| 0 <= k < s.len() && s[k] == v,
{
    lemma_count_of_multiset(s, v);
    assert(s.contains(v));
}

/// The bounded count never exceeds the sequence's length.
pub proof fn lemma_count_le_len(s: Seq<i32>, bound: int)
    ensures
        count_le(s, bound) <= s.len(),
    decreases s.len(),
{
    if s.len() > 0 {
        lemma_count_le_len(s.drop_first(), bound);
    }
}

/// Raising the bound to a value adds exactly that value's count.
pub proof fn lemma_count_le_step(s: Seq<i32>, v: i32)
    ensures
        count_le(s, v as int) == count_le(s, v as int - 1) + count_of(s, v),
    decreases s.len(),
{
    if s.len() > 0 {
        lemma_count_le_step(s.drop_first(), v);
    }
}

/// The bounded count grows with the bound.
pub proof fn lemma_count_le_mono(s: Seq<i32>, b1: int, b2: int)
    requires
        b1 <= b2,
    ensures
        count_le(s, b1) <= count_le(s, b2),
    decreases s.len(),
{
    if s.len() > 0 {
        lemma_count_le_mono(s.drop_first(), b1, b2);
    }
}

/// A bound below every value counts nothing.
pub proof fn lemma_count_le_below(s: Seq<i32>, bound: int)
    requires
        forall|k: int| 0 <= k < s.len() ==> #[trigger] s[k] > bound,
    ensures
        count_le(s, bound) == 0,
    decreases s.len(),
{
    if s.len() > 0 {
        assert forall|k: int| 0 <= k < s.drop_first().len()
            implies #[trigger] s.drop_first()[k] > bound by {
            assert(s[k + 1] > bound);
        }
        lemma_count_le_below(s.drop_first(), bound);
    }
}

/// A bound at or above every value counts everything.
pub proof fn lemma_count_le_above(s: Seq<i32>, bound: int)
    requires
        forall|k: int| 0 <= k < s.len() ==> #[trigger] s[k] <= bound,
    ensures
        count_le(s, bound) == s.len(),
    decreases s.len(),
{
    if s.len() > 0 {
        assert forall|k: int| 0 <= k < s.drop_first().len()
            implies #[trigger] s.drop_first()[k] <= bound by {
            assert(s[k + 1] <= bound);
        }
        lemma_count_le_above(s.drop_first(), bound);
    }
}

/// Appending one value raises the bounded count exactly when the value is
/// within the bound.
pub proof fn lemma_count_le_push(s: Seq<i32>, x: i32, bound: int)
    ensures
        count_le(s.push(x), bound) == count_le(s, bound) + (if x <= bound {
            1nat
        } else {
            0nat
        }),
    decreases s.len(),
{
    if s.len() == 0 {
        assert(s.push(x)[0] == x);
        assert(s.push(x).drop_first() =~= Seq::<i32>::empty());
        assert(count_le(s.push(x).drop_first(), bound) == 0);
    } else {
        assert(s.push(x)[0] == s[0]);
        assert(s.push(x).drop_first() =~= s.drop_first().push(x));
        lemma_count_le_push(s.drop_first(), x, bound);
    }
}

/// When an interval of positions holds exactly the occurrences of `v`, its
/// width is the count of `v`.
pub proof fn lemma_count_of_interval(s: Seq<i32>, v: i32, a: int, b: int)
    requires
        0 <= a <= b <= s.len(),
        forall|k: int| a <= k < b ==> #[trigger] s[k] == v,
        forall|k: int| 0 <= k < a || b <= k < s.len() ==> #[trigger] s[k] != v,
    ensures
        count_of(s, v) == b - a,
    decreases s.len(),
{
    if s.len() == 0 {
    } else {
        let t = s.drop_first();
        if a > 0 {
            assert(s[0] != v);
            assert forall|k: int| a - 1 <= k < b - 1 implies #[trigger] t[k] == v by {
                assert(s[k + 1] == v);
            }
            assert forall|k: int| 0 <= k < a - 1 || b - 1 <= k < t.len()
                implies #[trigger] t[k] != v by {
                assert(s[k + 1] != v);
            }
            lemma_count_of_interval(t, v, a - 1, b - 1);
        } else if b > 0 {
            assert(s[0] == v);
            assert forall|k: int| 0 <= k < b - 1 implies #[trigger] t[k] == v by {
                assert(s[k + 1] == v);
            }
            assert forall|k: int| b - 1 <= k < t.len() implies #[trigger] t[k] != v by {
                assert(s[k + 1] != v);
            }
            lemma_count_of_interval(t, v, 0, b - 1);
        } else {
            assert(s[0] != v);
            assert forall|k: int| 0 <= k < t.len() implies #[trigger] t[k] != v by {
                assert(s[k + 1] != v);
            }
            lemma_count_of_interval(t, v, 0, 0);
        }
    }
}

/// The greatest value of a sequence, as an unbounded integer.
pub open spec fn seq_max(s: Seq<i32>) -> int
    decreases s.len(),
{
    if s.len() == 0 {
        0
    } else if s.len() == 1 {
        s[0] as int
    } else if s[0] as int >= seq_max(s.drop_first()) {
        s[0] as int
    } else {
        seq_max(s.drop_first())
    }
}

/// The least value of a sequence, as an unbounded integer.
pub open spec fn seq_min(s: Seq<i32>) -> int
    decreases s.len(),
{
    if s.len() == 0 {
        0
    } else if s.len() == 1 {
        s[0] as int
    } else if s[0] as int <= seq_min(s.drop_first()) {
        s[0] as int
    } else {
        seq_min(s.drop_first())
    }
}

/// The greatest value bounds every position and is attained somewhere.
pub proof fn lemma_seq_max_ensures(s: Seq<i32>)
    requires
        s.len() > 0,
    ensures
        forall|k: int| 0 <= k < s.len() ==> #[trigger] s[k] <= seq_max(s),
        exists|k: int| 0 <= k < s.len() && s[k] == seq_max(s),
    decreases s.len(),
{
    if s.len() == 1 {
        assert(s[0] as int == seq_max(s));
    } else {
        lemma_seq_max_ensures(s.drop_first());
        assert forall|k: int| 0 <= k < s.len() implies #[trigger] s[k] <= seq_max(s) by {
            if k > 0 {
                assert(s.drop_first()[k - 1] <= seq_max(s.drop_first()));
            }
        }
        if s[0] as int >= seq_max(s.drop_first()) {
            assert(s[0] == seq_max(s));
        } else {
            let w = choose|w: int|
                0 <= w < s.drop_first().len() && s.drop_first()[w] == seq_max(s.drop_first());
            assert(s[w + 1] == seq_max(s));
        }
    }
}

/// The least value bounds every position and is attained somewhere.
pub proof fn lemma_seq_min_ensures(s: Seq<i32>)
    requires
        s.len() > 0,
    ensures
        forall|k: int| 0 <= k < s.len() ==> #[trigger] s[k] >= seq_min(s),
        exists|k: int| 0 <= k < s.len() && s[k] == seq_min(s),
    decreases s.len(),
{
    if s.len() == 1 {
        assert(s[0] as int == seq_min(s));
    } else {
        lemma_seq_min_ensures(s.drop_first());
        assert forall|k: int| 0 <= k < s.len() implies #[trigger] s[k] >= seq_min(s) by {
            if k > 0 {
                assert(s.drop_first()[k - 1] >= seq_min(s.drop_first()));
            }
        }
        if s[0] as int <= seq_min(s.drop_first()) {
            assert(s[0] == seq_min(s));
        } else {
            let w = choose|w: int|
                0 <= w < s.drop_first().len() && s.drop_first()[w] == seq_min(s.drop_first());
            assert(s[w + 1] == seq_min(s));
        }
    }
}

/// How many distinct values a sequence spans, from its least to its
/// greatest.
pub open spec fn value_span(s: Seq<i32>) -> int {
    if s.len() == 0 {
        0
    } else {
        seq_max(s) - seq_min(s) + 1
    }
}

} // verus!
