//! Finite sums of integer sequences, and the handful of facts about them
//! that the flow and shortest-path arguments rest on.

use vstd::prelude::*;

verus! {

/// The sum of the first `k` entries of `s`.
pub open spec fn partial_sum(s: Seq<int>, k: int) -> int
    decreases k,
{
    if k <= 0 {
        0
    } else {
        partial_sum(s, k - 1) + s[k - 1]
    }
}

/// The sum of all entries of `s`.
pub open spec fn total(s: Seq<int>) -> int {
    partial_sum(s, s.len() as int)
}

/// Sequences that agree on their first `k` entries have the same partial sum.
pub proof fn lemma_partial_sum_agree(s: Seq<int>, t: Seq<int>, k: int)
    requires
        forall|i: int| 0 <= i < k ==> s[i] == t[i],
    ensures
        partial_sum(s, k) == partial_sum(t, k),
    decreases k,
{
    if k > 0 {
        lemma_partial_sum_agree(s, t, k - 1);
    }
}

/// A pointwise bound carries over to the partial sums.
pub proof fn lemma_partial_sum_le(s: Seq<int>, t: Seq<int>, k: int)
    requires
        forall|i: int| 0 <= i < k ==> s[i] <= t[i],
    ensures
        partial_sum(s, k) <= partial_sum(t, k),
    decreases k,
{
    if k > 0 {
        lemma_partial_sum_le(s, t, k - 1);
    }
}

/// Entries that are all zero add up to zero.
pub proof fn lemma_partial_sum_zero(s: Seq<int>, k: int)
    requires
        forall|i: int| 0 <= i < k ==> s[i] == 0,
    ensures
        partial_sum(s, k) == 0,
    decreases k,
{
    if k > 0 {
        lemma_partial_sum_zero(s, k - 1);
    }
}

/// Entries that are all non-negative add up to a non-negative number.
pub proof fn lemma_partial_sum_nonneg(s: Seq<int>, k: int)
    requires
        forall|i: int| 0 <= i < k ==> s[i] >= 0,
    ensures
        partial_sum(s, k) >= 0,
    decreases k,
{
    if k > 0 {
        lemma_partial_sum_nonneg(s, k - 1);
    }
}

/// Entries between zero and `bound` add up to at most `k * bound`.
pub proof fn lemma_partial_sum_bounded(s: Seq<int>, k: int, bound: int)
    requires
        0 <= k,
        forall|i: int| 0 <= i < k ==> s[i] <= bound,
    ensures
        partial_sum(s, k) <= k * bound,
    decreases k,
{
    if k > 0 {
        lemma_partial_sum_bounded(s, k - 1, bound);
        assert(k * bound == (k - 1) * bound + bound) by (nonlinear_arith);
    } else {
        assert(k * bound == 0) by (nonlinear_arith)
            requires
                k == 0,
        ;
    }
}

/// The partial sum of a pointwise sum is the sum of the partial sums.
pub proof fn lemma_partial_sum_plus(a: Seq<int>, b: Seq<int>, c: Seq<int>, k: int)
    requires
        forall|i: int| 0 <= i < k ==> c[i] == a[i] + b[i],
    ensures
        partial_sum(c, k) == partial_sum(a, k) + partial_sum(b, k),
    decreases k,
{
    if k > 0 {
        lemma_partial_sum_plus(a, b, c, k - 1);
    }
}

/// The partial sum of a pointwise difference is the difference of the partial sums.
pub proof fn lemma_partial_sum_minus(a: Seq<int>, b: Seq<int>, c: Seq<int>, k: int)
    requires
        forall|i: int| 0 <= i < k ==> c[i] == a[i] - b[i],
    ensures
        partial_sum(c, k) == partial_sum(a, k) - partial_sum(b, k),
    decreases k,
{
    if k > 0 {
        lemma_partial_sum_minus(a, b, c, k - 1);
    }
}

/// Where `t` differs from `s` at the one index `j` only, the partial sums
/// differ by what the entry at `j` changed by.
pub proof fn lemma_partial_sum_one_change(s: Seq<int>, t: Seq<int>, k: int, j: int)
    requires
        0 <= j < k,
        forall|i: int| 0 <= i < k && i != j ==> s[i] == t[i],
    ensures
        partial_sum(t, k) - partial_sum(s, k) == t[j] - s[j],
    decreases k,
{
    if k - 1 == j {
        lemma_partial_sum_agree(s, t, k - 1);
    } else {
        lemma_partial_sum_one_change(s, t, k - 1, j);
    }
}

/// Entries that are none of them negative add up to at least any one of
/// them.
pub proof fn lemma_partial_sum_covers(s: Seq<int>, k: int, j: int)
    requires
        0 <= j < k,
        forall|i: int| 0 <= i < k ==> s[i] >= 0,
    ensures
        partial_sum(s, k) >= s[j],
    decreases k,
{
    if k - 1 == j {
        lemma_partial_sum_nonneg(s, k - 1);
    } else {
        lemma_partial_sum_covers(s, k - 1, j);
    }
}

/// Entries that are none of them negative add up to at least any two of
/// them together.
pub proof fn lemma_partial_sum_covers_two(s: Seq<int>, k: int, i: int, j: int)
    requires
        0 <= i < j < k,
        forall|i: int| 0 <= i < k ==> s[i] >= 0,
    ensures
        partial_sum(s, k) >= s[i] + s[j],
    decreases k,
{
    if k - 1 == j {
        lemma_partial_sum_covers(s, k - 1, i);
    } else {
        lemma_partial_sum_covers_two(s, k - 1, i, j);
    }
}

/// Where the sum is above zero, so is one of the entries.
pub proof fn lemma_partial_sum_has_positive(s: Seq<int>, k: int) -> (j: int)
    requires
        partial_sum(s, k) > 0,
    ensures
        0 <= j < k,
        s[j] > 0,
    decreases k,
{
    if s[k - 1] > 0 {
        k - 1
    } else {
        lemma_partial_sum_has_positive(s, k - 1)
    }
}

} // verus!
