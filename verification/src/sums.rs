//! Prefix sums over integer sequences, with the lemmas the cached
//! per-cell aggregates rely on.

use vstd::prelude::*;

verus! {

/// Sum of the first `k` entries of `vals`.
pub open spec fn sum_prefix(vals: Seq<int>, k: int) -> int
    decreases k,
{
    if k <= 0 {
        0
    } else {
        sum_prefix(vals, k - 1) + vals[k - 1]
    }
}

/// The sum depends only on the first `k` entries.
pub proof fn lemma_sum_prefix_congruence(v1: Seq<int>, v2: Seq<int>, k: int)
    requires
        forall|i: int| 0 <= i < k ==> v1[i] == v2[i],
    ensures
        sum_prefix(v1, k) == sum_prefix(v2, k),
    decreases k,
{
    if k > 0 {
        lemma_sum_prefix_congruence(v1, v2, k - 1);
    }
}

/// Replacing entry `j` changes the sum by the difference at `j`.
pub proof fn lemma_sum_prefix_update(vals: Seq<int>, k: int, j: int, x: int)
    requires
        0 <= j < k,
        k <= vals.len(),
    ensures
        sum_prefix(vals.update(j, x), k) == sum_prefix(vals, k) - vals[j] + x,
    decreases k,
{
    if j == k - 1 {
        lemma_sum_prefix_congruence(vals.update(j, x), vals, k - 1);
    } else {
        lemma_sum_prefix_update(vals, k - 1, j, x);
    }
}

/// With nonnegative entries, the sum is at least each single entry.
pub proof fn lemma_sum_prefix_element_bound(vals: Seq<int>, k: int, j: int)
    requires
        0 <= j < k,
        k <= vals.len(),
        forall|i: int| 0 <= i < k ==> vals[i] >= 0,
    ensures
        vals[j] <= sum_prefix(vals, k),
        sum_prefix(vals, k) >= 0,
    decreases k,
{
    if j < k - 1 {
        lemma_sum_prefix_element_bound(vals, k - 1, j);
    } else if k >= 2 {
        lemma_sum_prefix_element_bound(vals, k - 1, 0);
    }
}

/// With nonnegative entries, the sum is nonnegative.
pub proof fn lemma_sum_prefix_nonneg(vals: Seq<int>, k: int)
    requires
        forall|i: int| 0 <= i < k ==> vals[i] >= 0,
    ensures
        sum_prefix(vals, k) >= 0,
    decreases k,
{
    if k > 0 {
        lemma_sum_prefix_nonneg(vals, k - 1);
    }
}

/// Entrywise smaller sequences have smaller sums.
pub proof fn lemma_sum_prefix_pointwise_le(v1: Seq<int>, v2: Seq<int>, k: int)
    requires
        forall|i: int| 0 <= i < k ==> v1[i] <= v2[i],
    ensures
        sum_prefix(v1, k) <= sum_prefix(v2, k),
    decreases k,
{
    if k > 0 {
        lemma_sum_prefix_pointwise_le(v1, v2, k - 1);
    }
}

/// If every entry of `v1` is at most `c` times the matching entry of `v2`,
/// the same holds of the sums.
pub proof fn lemma_sum_prefix_scaled_le(v1: Seq<int>, v2: Seq<int>, c: int, k: int)
    requires
        c >= 0,
        forall|i: int| 0 <= i < k ==> 0 <= v2[i] && v1[i] <= c * v2[i],
    ensures
        sum_prefix(v1, k) <= c * sum_prefix(v2, k),
    decreases k,
{
    if k > 0 {
        lemma_sum_prefix_scaled_le(v1, v2, c, k - 1);
        let s2 = sum_prefix(v2, k - 1);
        let e2 = v2[k - 1];
        assert(c * s2 + c * e2 == c * (s2 + e2)) by (nonlinear_arith);
    }
}

/// With nonnegative entries beyond `k1`, longer prefixes have larger sums.
pub proof fn lemma_sum_prefix_monotonic(vals: Seq<int>, k1: int, k2: int)
    requires
        0 <= k1 <= k2,
        forall|i: int| k1 <= i < k2 ==> vals[i] >= 0,
    ensures
        sum_prefix(vals, k1) <= sum_prefix(vals, k2),
    decreases k2 - k1,
{
    if k1 < k2 {
        lemma_sum_prefix_monotonic(vals, k1, k2 - 1);
    }
}

/// A prefix of zeroes sums to zero.
pub proof fn lemma_sum_prefix_all_zero(vals: Seq<int>, k: int)
    requires
        forall|i: int| 0 <= i < k ==> vals[i] == 0,
    ensures
        sum_prefix(vals, k) == 0,
    decreases k,
{
    if k > 0 {
        lemma_sum_prefix_all_zero(vals, k - 1);
    }
}

/// With nonnegative entries, the sum is at least any two distinct entries.
pub proof fn lemma_sum_prefix_two_elements(vals: Seq<int>, k: int, i: int, j: int)
    requires
        0 <= i < j < k,
        k <= vals.len(),
        forall|m: int| 0 <= m < k ==> vals[m] >= 0,
    ensures
        vals[i] + vals[j] <= sum_prefix(vals, k),
    decreases k,
{
    if j == k - 1 {
        lemma_sum_prefix_element_bound(vals, k - 1, i);
    } else {
        lemma_sum_prefix_two_elements(vals, k - 1, i, j);
    }
}

/// If every entry is at least one, the sum is at least the count.
pub proof fn lemma_sum_prefix_at_least_count(vals: Seq<int>, k: int)
    requires
        forall|i: int| 0 <= i < k ==> vals[i] >= 1,
    ensures
        sum_prefix(vals, k) >= k,
    decreases k,
{
    if k > 0 {
        lemma_sum_prefix_at_least_count(vals, k - 1);
    }
}

} // verus!
