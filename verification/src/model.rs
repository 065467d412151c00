//! The mathematical model shared by both solvers: prefix sums, sums over a
//! selection of items, the recursive value oracle, and the laws that relate
//! them (monotonicity in capacity, and optimality of the oracle over all
//! feasible selections).

use vstd::prelude::*;

verus! {

/// Well-formed item lists: aligned values and weights, all non-negative, a
/// total value that fits `i64` (so no subset sum can overflow), and a length
/// addressable through the `i64` item indices of the solver interfaces.
pub open spec fn items_wf(v: Seq<i64>, w: Seq<i64>) -> bool {
    &&& v.len() == w.len()
    &&& forall|i: int| 0 <= i < v.len() ==> v[i] >= 0
    &&& forall|i: int| 0 <= i < w.len() ==> w[i] >= 0
    &&& sum_prefix(v, v.len() as int) <= i64::MAX
    &&& v.len() <= i64::MAX
}

/// Sum of the first `n` entries of `x`.
pub open spec fn sum_prefix(x: Seq<i64>, n: int) -> int
    decreases n,
{
    if n <= 0 {
        0
    } else {
        sum_prefix(x, n - 1) + x[n - 1]
    }
}

/// Sum of the entries of `x` among the first `n` that are selected by `c`.
pub open spec fn sum_sel(x: Seq<i64>, c: Seq<bool>, n: int) -> int
    decreases n,
{
    if n <= 0 {
        0
    } else {
        sum_sel(x, c, n - 1) + if c[n - 1] {
            x[n - 1] as int
        } else {
            0
        }
    }
}

/// The value oracle: the maximum total value achievable with items `0..=j`
/// under capacity `k`. Items are considered last-first: item `j` is either
/// skipped, or (when its weight fits) taken, whichever yields more.
pub open spec fn optimal(v: Seq<i64>, w: Seq<i64>, k: int, j: int) -> int
    decreases j + 1,
{
    if j < 0 {
        0
    } else if w[j] <= k {
        let skip = optimal(v, w, k, j - 1);
        let take = v[j] + optimal(v, w, k - w[j], j - 1);
        if skip >= take {
            skip
        } else {
            take
        }
    } else {
        optimal(v, w, k, j - 1)
    }
}

/// A selected sum of non-negative entries is itself non-negative.
pub proof fn lemma_sum_sel_nonneg(x: Seq<i64>, c: Seq<bool>, n: int)
    requires
        n <= x.len(),
        forall|i: int| 0 <= i < x.len() ==> x[i] >= 0,
    ensures
        sum_sel(x, c, n) >= 0,
    decreases n,
{
    if n > 0 {
        lemma_sum_sel_nonneg(x, c, n - 1);
    }
}

/// With non-negative entries, a selected sum never exceeds the full prefix sum.
pub proof fn lemma_sum_sel_le_prefix(x: Seq<i64>, c: Seq<bool>, n: int)
    requires
        n <= x.len(),
        forall|i: int| 0 <= i < x.len() ==> x[i] >= 0,
    ensures
        sum_sel(x, c, n) <= sum_prefix(x, n),
    decreases n,
{
    if n > 0 {
        lemma_sum_sel_le_prefix(x, c, n - 1);
    }
}

/// With non-negative entries, prefix sums grow with the prefix length.
pub proof fn lemma_sum_prefix_monotone(x: Seq<i64>, n1: int, n2: int)
    requires
        n1 <= n2 <= x.len(),
        forall|i: int| 0 <= i < x.len() ==> x[i] >= 0,
    ensures
        sum_prefix(x, n1) <= sum_prefix(x, n2),
    decreases n2 - n1,
{
    if n1 < n2 {
        lemma_sum_prefix_monotone(x, n1, n2 - 1);
    }
}

/// How a selected sum changes when one selection flag is rewritten.
pub proof fn lemma_sum_sel_update(x: Seq<i64>, c: Seq<bool>, n: int, t: int, b: bool)
    requires
        0 <= t < c.len(),
        n <= c.len(),
    ensures
        sum_sel(x, c.update(t, b), n) == sum_sel(x, c, n) + if t < n {
            (if b { x[t] as int } else { 0 }) - (if c[t] { x[t] as int } else { 0 })
        } else {
            0
        },
    decreases n,
{
    if n > 0 {
        lemma_sum_sel_update(x, c, n - 1, t, b);
    }
}

/// A selection with no flag set sums to zero.
pub proof fn lemma_sum_sel_all_false(x: Seq<i64>, c: Seq<bool>, n: int)
    requires
        forall|i: int| 0 <= i < n ==> !c[i],
    ensures
        sum_sel(x, c, n) == 0,
    decreases n,
{
    if n > 0 {
        lemma_sum_sel_all_false(x, c, n - 1);
    }
}

/// The oracle value is non-negative and bounded by the total value of the
/// items it may use.
pub proof fn lemma_optimal_bounds(v: Seq<i64>, w: Seq<i64>, k: int, j: int)
    requires
        j < v.len(),
        v.len() == w.len(),
        forall|i: int| 0 <= i < v.len() ==> v[i] >= 0,
    ensures
        0 <= optimal(v, w, k, j),
        optimal(v, w, k, j) <= sum_prefix(v, j + 1),
    decreases j + 1,
{
    if j >= 0 {
        lemma_optimal_bounds(v, w, k, j - 1);
        lemma_optimal_bounds(v, w, k - w[j], j - 1);
    }
}

/// Raising the capacity while holding the items fixed never decreases the
/// optimal value.
pub proof fn lemma_optimal_monotone_capacity(v: Seq<i64>, w: Seq<i64>, k1: int, k2: int, j: int)
    requires
        j < v.len(),
        v.len() == w.len(),
        k1 <= k2,
    ensures
        optimal(v, w, k1, j) <= optimal(v, w, k2, j),
    decreases j + 1,
{
    if j >= 0 {
        lemma_optimal_monotone_capacity(v, w, k1, k2, j - 1);
        if w[j] <= k1 {
            lemma_optimal_monotone_capacity(v, w, k1 - w[j], k2 - w[j], j - 1);
        }
    }
}

/// Every feasible selection of the items `0..=j` is worth at most the oracle
/// value: the oracle is an exact optimum, not merely achievable.
pub proof fn lemma_selection_le_optimal(v: Seq<i64>, w: Seq<i64>, k: int, c: Seq<bool>, j: int)
    requires
        v.len() == w.len(),
        c.len() == v.len(),
        j < v.len(),
        forall|i: int| 0 <= i < v.len() ==> v[i] >= 0,
        forall|i: int| 0 <= i < w.len() ==> w[i] >= 0,
        forall|i: int| j < i < c.len() ==> !c[i],
        sum_sel(w, c, w.len() as int) <= k,
    ensures
        sum_sel(v, c, v.len() as int) <= optimal(v, w, k, j),
    decreases j + 1,
{
    let n = v.len() as int;
    if j < 0 {
        lemma_sum_sel_all_false(v, c, n);
    } else if c[j] {
        // Item j is selected, so it must fit: all other selected weights are
        // non-negative.
        let c0 = c.update(j, false);
        lemma_sum_sel_update(w, c, n, j, false);
        lemma_sum_sel_nonneg(w, c0, n);
        assert(w[j] <= k);
        lemma_sum_sel_update(v, c, n, j, false);
        lemma_selection_le_optimal(v, w, k - w[j], c0, j - 1);
    } else {
        lemma_selection_le_optimal(v, w, k, c, j - 1);
        lemma_optimal_monotone_capacity(v, w, k - w[j], k, j - 1);
    }
}

/// The oracle optimum is not only an upper bound: some feasible selection of
/// the items `0..=j` attains it. Together with the upper-bound law this
/// makes the oracle exactly the maximum value over all feasible subsets.
pub proof fn lemma_optimal_achievable(v: Seq<i64>, w: Seq<i64>, k: int, j: int) -> (c: Seq<bool>)
    requires
        v.len() == w.len(),
        j < v.len(),
        k >= 0,
        forall|i: int| 0 <= i < v.len() ==> v[i] >= 0,
        forall|i: int| 0 <= i < w.len() ==> w[i] >= 0,
    ensures
        c.len() == v.len(),
        forall|i: int| 0 <= i < c.len() && j < i ==> !c[i],
        sum_sel(w, c, w.len() as int) <= k,
        sum_sel(v, c, v.len() as int) == optimal(v, w, k, j),
    decreases j + 1,
{
    let n = v.len() as int;
    if j < 0 {
        let c = Seq::new(v.len(), |i: int| false);
        lemma_sum_sel_all_false(v, c, n);
        lemma_sum_sel_all_false(w, c, n);
        c
    } else if w[j] <= k {
        let skip = optimal(v, w, k, j - 1);
        let take = v[j] + optimal(v, w, k - w[j], j - 1);
        if skip >= take {
            lemma_optimal_achievable(v, w, k, j - 1)
        } else {
            let c0 = lemma_optimal_achievable(v, w, k - w[j], j - 1);
            let c = c0.update(j, true);
            lemma_sum_sel_update(v, c0, n, j, true);
            lemma_sum_sel_update(w, c0, n, j, true);
            assert forall|i: int| 0 <= i < c.len() && j < i implies !c[i] by {
                assert(c[i] == c0[i]);
            }
            c
        }
    } else {
        lemma_optimal_achievable(v, w, k, j - 1)
    }
}

/// Every feasible, consistent solution is worth at most the oracle optimum,
/// which is exactly the value both solvers return.
pub proof fn lemma_feasible_value_le_optimal(v: Seq<i64>, w: Seq<i64>, k: int, c: Seq<bool>)
    requires
        items_wf(v, w),
        c.len() == v.len(),
        sum_sel(w, c, w.len() as int) <= k,
    ensures
        sum_sel(v, c, v.len() as int) <= optimal(v, w, k, v.len() - 1),
{
    lemma_selection_le_optimal(v, w, k, c, v.len() - 1);
}

} // verus!
