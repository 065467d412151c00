//! Exact solvers for the 0/1 knapsack problem.
//!
//! Given items with non-negative integer values and weights and an integer
//! capacity, both solvers return the maximum achievable total value together
//! with the membership of each item in an optimal subset. The two solvers are
//! independent implementations of the same contract: a dynamic-programming
//! solver built on a compressed memoization of the value oracle, and a
//! best-first branch-and-bound search guided by a fractional-relaxation bound.

use vstd::prelude::*;

pub mod branch_and_bound;
pub mod dynamic_programming;
pub mod model;

pub use branch_and_bound::bounding_solve;
pub use dynamic_programming::dynamic_solve;

verus! {

use crate::model::items_wf;

/// A knapsack instance: maximize the total value of a subset of items whose
/// total weight does not exceed the capacity.
pub struct Problem {
    /// Value of each item.
    pub v: Vec<i64>,
    /// Weight of each item, index-aligned with `v`.
    pub w: Vec<i64>,
    /// Capacity: the largest admissible total weight.
    pub k: i64,
}

impl Problem {
    /// A well-formed instance: aligned item lists, non-negative entries, a
    /// non-negative capacity, and a total value small enough that no subset
    /// sum can overflow `i64`.
    pub open spec fn wf(self) -> bool {
        &&& items_wf(self.v@, self.w@)
        &&& self.k >= 0
    }
}

/// The result of a solve call: the optimal total value and, for every item of
/// the instance, whether it belongs to the chosen subset (in original item
/// order).
#[derive(Debug)]
pub struct Solution {
    pub value: i64,
    pub contained: Vec<bool>,
}

/// Builds a validated instance from item values, item weights and a capacity.
pub fn build_problem(v: Vec<i64>, w: Vec<i64>, k: i64) -> (p: Problem)
    requires
        items_wf(v@, w@),
        k >= 0,
    ensures
        p.v@ == v@,
        p.w@ == w@,
        p.k == k,
        p.wf(),
{
    Problem { v, w, k }
}

} // verus!
