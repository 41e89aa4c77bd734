//! Sums and occurrence counts over sequences of integers.

use vstd::prelude::*;

verus! {

/// The sum of the items of `s`.
pub open spec fn total(s: Seq<u32>) -> nat
    decreases s.len(),
{
    if s.len() == 0 {
        0
    } else {
        total(s.drop_last()) + s.last() as nat
    }
}

/// The number of positions of `s` that hold `v`.
pub open spec fn count(s: Seq<u32>, v: u32) -> nat
    decreases s.len(),
{
    if s.len() == 0 {
        0
    } else {
        count(s.drop_last(), v) + if s.last() == v {
            1nat
        } else {
            0nat
        }
    }
}

/// The sum of a prefix grows by the item that follows it.
pub proof fn lemma_total_take(s: Seq<u32>, n: int)
    requires
        0 <= n < s.len(),
    ensures
        total(s.take(n + 1)) == total(s.take(n)) + s[n],
        total(s.take(0)) == 0,
{
    assert(s.take(n + 1).drop_last() =~= s.take(n));
}

/// A sequence is its own longest prefix.
pub proof fn lemma_take_all(s: Seq<u32>)
    ensures
        s.take(s.len() as int) == s,
{
    assert(s.take(s.len() as int) =~= s);
}

/// A prefix sums to no more than the whole.
pub proof fn lemma_total_prefix(s: Seq<u32>, n: int)
    requires
        0 <= n <= s.len(),
    ensures
        total(s.take(n)) <= total(s),
    decreases s.len() - n,
{
    if n == s.len() {
        lemma_take_all(s);
    } else {
        lemma_total_take(s, n);
        lemma_total_prefix(s, n + 1);
    }
}

/// No item is larger than the sum.
pub proof fn lemma_total_bounds_item(s: Seq<u32>, i: int)
    requires
        0 <= i < s.len(),
    ensures
        s[i] <= total(s),
{
    lemma_total_take(s, i);
    lemma_total_prefix(s, i + 1);
}

/// Items that are each at most `bound` sum to at most `bound` times their
/// number.
pub proof fn lemma_total_bounded(s: Seq<u32>, bound: nat)
    requires
        forall|i: int| 0 <= i < s.len() ==> s[i] <= bound,
    ensures
        total(s) <= s.len() * bound,
    decreases s.len(),
{
    if s.len() > 0 {
        lemma_total_bounded(s.drop_last(), bound);
        assert((s.len() - 1) * bound + bound == s.len() * bound) by (nonlinear_arith);
    }
}

/// Replacing one item moves the sum by the difference.
pub proof fn lemma_total_update(s: Seq<u32>, i: int, v: u32)
    requires
        0 <= i < s.len(),
    ensures
        total(s.update(i, v)) == total(s) - s[i] + v,
    decreases s.len(),
{
    if i == s.len() - 1 {
        assert(s.update(i, v).drop_last() =~= s.drop_last());
    } else {
        lemma_total_update(s.drop_last(), i, v);
        assert(s.update(i, v).drop_last() =~= s.drop_last().update(i, v));
    }
}

/// The count over a prefix grows by one exactly where the next item is `v`.
pub proof fn lemma_count_take(s: Seq<u32>, n: int, v: u32)
    requires
        0 <= n < s.len(),
    ensures
        count(s.take(n + 1), v) == count(s.take(n), v) + if s[n] == v {
            1nat
        } else {
            0nat
        },
        count(s.take(0), v) == 0,
{
    assert(s.take(n + 1).drop_last() =~= s.take(n));
}

/// A prefix holds `v` no more often than the whole.
pub proof fn lemma_count_prefix(s: Seq<u32>, n: int, v: u32)
    requires
        0 <= n <= s.len(),
    ensures
        count(s.take(n), v) <= count(s, v),
    decreases s.len() - n,
{
    if n == s.len() {
        lemma_take_all(s);
    } else {
        lemma_count_take(s, n, v);
        lemma_count_prefix(s, n + 1, v);
    }
}

/// Replacing one item moves one occurrence from the old value to the new.
pub proof fn lemma_count_update(s: Seq<u32>, i: int, w: u32, v: u32)
    requires
        0 <= i < s.len(),
    ensures
        count(s.update(i, w), v) + (if s[i] == v {
            1nat
        } else {
            0nat
        }) == count(s, v) + (if w == v {
            1nat
        } else {
            0nat
        }),
    decreases s.len(),
{
    if i == s.len() - 1 {
        assert(s.update(i, w).drop_last() =~= s.drop_last());
    } else {
        lemma_count_update(s.drop_last(), i, w, v);
        assert(s.update(i, w).drop_last() =~= s.drop_last().update(i, w));
    }
}

/// A value that is counted occurs somewhere.
pub proof fn lemma_count_witness(s: Seq<u32>, v: u32) -> (i: int)
    requires
        count(s, v) > 0,
    ensures
        0 <= i < s.len(),
        s[i] == v,
    decreases s.len(),
{
    if s.last() == v {
        s.len() - 1
    } else {
        lemma_count_witness(s.drop_last(), v)
    }
}

/// A value that occurs is counted.
pub proof fn lemma_count_positive(s: Seq<u32>, i: int)
    requires
        0 <= i < s.len(),
    ensures
        count(s, s[i]) > 0,
    decreases s.len(),
{
    if i < s.len() - 1 {
        lemma_count_positive(s.drop_last(), i);
    }
}

/// A sequence that repeats one value holds it everywhere and nothing else.
pub proof fn lemma_count_constant(len: nat, w: u32, v: u32)
    ensures
        count(Seq::new(len, |i: int| w), v) == if w == v {
            len
        } else {
            0
        },
    decreases len,
{
    if len > 0 {
        lemma_count_constant((len - 1) as nat, w, v);
        assert(Seq::new(len, |i: int| w).drop_last() =~= Seq::new((len - 1) as nat, |i: int| w));
    }
}

} // verus!
