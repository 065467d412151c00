//! The dynamic-programming solver: the recursive value oracle, a compressed
//! per-item-count cache of it (a monotone step function of capacity recorded
//! only at its points of increase), and the reconstruction of an optimal
//! subset by walking the items in reverse.

use vstd::prelude::*;

verus! {

use crate::{Problem, Solution};
use crate::model::{
    items_wf, optimal, sum_prefix, sum_sel, lemma_optimal_bounds, lemma_optimal_monotone_capacity,
    lemma_sum_prefix_monotone, lemma_sum_sel_le_prefix, lemma_sum_sel_nonneg, lemma_sum_sel_update,
};

/// The value of a compressed step-function row at capacity `c`: the value of
/// the entry with the largest threshold not exceeding `c`, found by scanning
/// from the high end.
pub open spec fn row_lookup(row: Seq<(i64, i64)>, c: int) -> int
    decreases row.len(),
{
    if row.len() == 0 {
        0
    } else if row.last().0 <= c {
        row.last().1 as int
    } else {
        row_lookup(row.drop_last(), c)
    }
}

/// The compressed memoization of the value oracle: one row per item count,
/// each an ascending list of `(capacity threshold, value)` pairs recording
/// the oracle as a step function of capacity at its points of increase.
pub struct OracleCache {
    data: Vec<Vec<(i64, i64)>>,
    gv: Ghost<Seq<i64>>,
    gw: Ghost<Seq<i64>>,
    gk: Ghost<int>,
}

impl OracleCache {
    /// The item values this cache was built for.
    pub closed spec fn vals(self) -> Seq<i64> {
        self.gv@
    }

    /// The item weights this cache was built for.
    pub closed spec fn wts(self) -> Seq<i64> {
        self.gw@
    }

    /// The largest capacity the cache covers.
    pub closed spec fn cap(self) -> int {
        self.gk@
    }

    /// How many item-count rows the cache holds.
    pub closed spec fn rows(self) -> int {
        self.data@.len() as int
    }

    /// The cache contents as a sequence of rows.
    pub closed spec fn table(self) -> Seq<Seq<(i64, i64)>> {
        Seq::new(self.data@.len(), |e: int| self.data@[e]@)
    }

    /// A row for item count `e` that correctly represents the oracle for all
    /// capacities up to `cdone`.
    pub open spec fn row_wf(row: Seq<(i64, i64)>, v: Seq<i64>, w: Seq<i64>, e: int, cdone: int) -> bool {
        &&& row.len() >= 1
        &&& row[0].0 == 0
        &&& forall|t: int| 0 <= t < row.len() ==> 0 <= #[trigger] row[t].0 <= cdone
        &&& row.last().1 == optimal(v, w, cdone, e)
        &&& forall|c: int| 0 <= c <= cdone ==> row_lookup(row, c) == optimal(v, w, c, e)
    }

    /// Row `e` is completely built, up to the cache's full capacity.
    pub closed spec fn row_complete(self, e: int) -> bool {
        Self::row_wf(self.data@[e]@, self.gv@, self.gw@, e, self.gk@)
    }

    /// The inputs the cache was built from are themselves well-formed.
    pub closed spec fn inputs_wf(self) -> bool {
        &&& items_wf(self.gv@, self.gw@)
        &&& 0 <= self.gk@ <= i64::MAX
    }

    /// A fully built cache: every row represents the oracle for its item
    /// count over every capacity in range.
    pub closed spec fn wf(self) -> bool {
        &&& self.inputs_wf()
        &&& forall|e: int| 0 <= e < self.rows() ==> self.row_complete(e)
    }

    /// Records the oracle value for the given item count and capacity.
    /// Capacities must be presented in ascending order with their oracle
    /// values, which are non-decreasing: a new entry is appended only where
    /// the value strictly increases over the row's last entry.
    pub fn store(&mut self, elements: usize, capacity: i64, value: i64)
        requires
            elements as int <= old(self).table().len(),
            elements as int == old(self).table().len() ==> value >= 0,
            (elements as int) < old(self).table().len() ==> old(self).table()[elements as int].len()
                >= 1 && old(self).table()[elements as int].last().1 <= value,
        ensures
            final(self).vals() == old(self).vals(),
            final(self).wts() == old(self).wts(),
            final(self).cap() == old(self).cap(),
            elements as int == old(self).table().len() ==> {
                &&& final(self).table().len() == old(self).table().len() + 1
                &&& forall|e: int| 0 <= e < old(self).table().len() ==> final(self).table()[e]
                    == old(self).table()[e]
                &&& final(self).table()[elements as int] == if value > 0 {
                    seq![(0i64, 0i64), (capacity, value)]
                } else {
                    seq![(0i64, 0i64)]
                }
            },
            (elements as int) < old(self).table().len() ==> {
                &&& final(self).table().len() == old(self).table().len()
                &&& forall|e: int| 0 <= e < old(self).table().len() && e != elements as int
                    ==> final(self).table()[e] == old(self).table()[e]
                &&& final(self).table()[elements as int] == if value
                    > old(self).table()[elements as int].last().1 {
                    old(self).table()[elements as int].push((capacity, value))
                } else {
                    old(self).table()[elements as int]
                }
            },
    {
        if elements >= self.data.len() {
            let mut fresh: Vec<(i64, i64)> = Vec::new();
            fresh.push((0, 0));
            self.data.push(fresh);
        }
        let row = &self.data[elements];
        let last = row[row.len() - 1];
        if last.1 < value {
            self.data[elements].push((capacity, value));
        }
        proof {
            if elements as int == old(self).table().len() {
                if value > 0 {
                    assert(self.table()[elements as int] =~= seq![(0i64, 0i64), (capacity, value)]);
                } else {
                    assert(self.table()[elements as int] =~= seq![(0i64, 0i64)]);
                }
            }
        }
    }

    /// Builds the full cache bottom-up: for every item count, the oracle is
    /// evaluated at every capacity from `0` to `capacity` and compressed into
    /// a step-function row. Each row is computed incrementally from the
    /// previous row's cache rather than re-derived from scratch.
    pub fn build(capacity: i64, w: &Vec<i64>, v: &Vec<i64>) -> (cache: OracleCache)
        requires
            items_wf(v@, w@),
            capacity >= 0,
        ensures
            cache.wf(),
            cache.vals() == v@,
            cache.wts() == w@,
            cache.cap() == capacity as int,
            cache.rows() == w@.len(),
    {
        let mut cache = OracleCache {
            data: Vec::new(),
            gv: Ghost(v@),
            gw: Ghost(w@),
            gk: Ghost(capacity as int),
        };
        let n = w.len();
        let mut elements: usize = 0;
        while elements < n
            invariant
                items_wf(v@, w@),
                capacity >= 0,
                n == w@.len(),
                elements <= n,
                cache.vals() == v@,
                cache.wts() == w@,
                cache.cap() == capacity as int,
                cache.rows() == elements as int,
                forall|e: int| 0 <= e < elements ==> cache.row_complete(e),
            decreases n - elements,
        {
            let ei = elements as i64;
            let mut cu: u64 = 0;
            while cu <= capacity as u64
                invariant
                    items_wf(v@, w@),
                    capacity >= 0,
                    n == w@.len(),
                    elements < n,
                    ei == elements as i64,
                    0 <= cu <= capacity as u64 + 1,
                    cache.vals() == v@,
                    cache.wts() == w@,
                    cache.cap() == capacity as int,
                    cu == 0 ==> cache.rows() == elements as int,
                    cu > 0 ==> cache.rows() == elements + 1 && OracleCache::row_wf(
                        cache.table()[elements as int],
                        v@,
                        w@,
                        elements as int,
                        cu - 1,
                    ),
                    forall|e: int| 0 <= e < elements ==> cache.row_complete(e),
                decreases capacity as u64 + 1 - cu,
            {
                let c = cu as i64;
                let val = if w[elements] <= c {
                    let a = cache.get(c, ei - 1);
                    let t = cache.get(c - w[elements], ei - 1);
                    proof {
                        lemma_optimal_bounds(v@, w@, c - w@[elements as int], ei - 1);
                        assert(v@[ei as int] + sum_prefix(v@, ei as int) == sum_prefix(
                            v@,
                            ei + 1,
                        ));
                        lemma_sum_prefix_monotone(v@, ei + 1, v@.len() as int);
                    }
                    let b = v[elements] + t;
                    if a >= b {
                        a
                    } else {
                        b
                    }
                } else {
                    cache.get(c, ei - 1)
                };
                assert(val as int == optimal(v@, w@, c as int, elements as int));
                proof {
                    lemma_optimal_bounds(v@, w@, c as int, elements as int);
                    if c > 0 {
                        lemma_optimal_monotone_capacity(v@, w@, c - 1, c as int, elements as int);
                    }
                }
                let ghost oldcache = cache;
                cache.store(elements, c, val);
                proof {
                    let e = elements as int;
                    let row = cache.table()[e];
                    if c == 0 {
                        assert(row_lookup(row, 0) == optimal(v@, w@, 0, e));
                        assert(OracleCache::row_wf(row, v@, w@, e, 0));
                    } else {
                        let oldrow = oldcache.table()[e];
                        if val > oldrow.last().1 {
                            assert(row == oldrow.push((c, val)));
                            assert(row.last() == (c, val));
                            assert(row.drop_last() =~= oldrow);
                            assert forall|cq: int| 0 <= cq <= c implies row_lookup(row, cq)
                                == optimal(v@, w@, cq, e) by {
                                if cq < c {
                                    assert(row_lookup(row, cq) == row_lookup(oldrow, cq));
                                }
                            }
                            assert(OracleCache::row_wf(row, v@, w@, e, c as int));
                        } else {
                            assert(row == oldrow);
                            assert(val == oldrow.last().1);
                            assert(row_lookup(row, c as int) == row.last().1);
                            assert(OracleCache::row_wf(row, v@, w@, e, c as int));
                        }
                    }
                    assert forall|e2: int| 0 <= e2 < elements implies cache.row_complete(e2) by {
                        assert(oldcache.row_complete(e2));
                        assert(cache.table()[e2] == oldcache.table()[e2]);
                    }
                }
                cu += 1;
            }
            proof {
                assert(cache.row_complete(elements as int));
                assert forall|e2: int| 0 <= e2 < elements + 1 implies cache.row_complete(e2) by {}
            }
            elements += 1;
        }
        cache
    }

    /// A fully built cache supports `get` on every row: callers holding
    /// `wf()` may derive `get`'s per-row preconditions from this.
    pub proof fn lemma_wf_supports_get(self, e: int)
        requires
            self.wf(),
            e < self.rows(),
        ensures
            self.inputs_wf(),
            e >= 0 ==> self.row_complete(e),
    {
    }

    /// Looks the oracle value up in the compressed row for the given item
    /// count: the supremum of the step function at or below `capacity`,
    /// found by scanning the thresholds from the high end downward.
    pub fn get(&self, capacity: i64, elements: i64) -> (r: i64)
        requires
            self.inputs_wf(),
            elements < self.rows(),
            elements >= 0 ==> 0 <= capacity <= self.cap() && self.row_complete(elements as int),
        ensures
            r as int == optimal(self.vals(), self.wts(), capacity as int, elements as int),
    {
        if elements < 0 {
            return 0;
        }
        let nrows = self.data.len();
        assert((elements as int) < nrows as int);
        let eu = elements as usize;
        assert(eu as int == elements as int);
        let row = &self.data[eu];
        let ghost rs = row@;
        let mut idx: usize = row.len();
        proof {
            assert(self.row_complete(elements as int));
            assert(rs == self.data@[elements as int]@);
            assert(Self::row_wf(rs, self.gv@, self.gw@, elements as int, self.gk@));
            assert(rs.subrange(0, rs.len() as int) =~= rs);
        }
        while row[idx - 1].0 > capacity
            invariant
                1 <= idx <= rs.len(),
                rs == row@,
                capacity >= 0,
                Self::row_wf(rs, self.gv@, self.gw@, elements as int, self.gk@),
                row_lookup(rs.subrange(0, idx as int), capacity as int) == row_lookup(
                    rs,
                    capacity as int,
                ),
            decreases idx,
        {
            assert(idx > 1) by {
                assert(rs[0].0 == 0);
            }
            proof {
                let pre = rs.subrange(0, idx as int);
                assert(pre.last() == rs[idx - 1]);
                assert(pre.drop_last() =~= rs.subrange(0, idx - 1));
            }
            idx -= 1;
        }
        proof {
            let pre = rs.subrange(0, idx as int);
            assert(pre.last() == rs[idx - 1]);
            assert(rs.subrange(0, rs.len() as int) =~= rs);
        }
        row[idx - 1].1
    }
}

/// The value oracle evaluated directly from its recurrence: the maximum total
/// value achievable with items `0..=j` under capacity `k`.
pub fn oracle(k: i64, j: i64, w: &Vec<i64>, v: &Vec<i64>) -> (r: i64)
    requires
        items_wf(v@, w@),
        j < v@.len(),
    ensures
        r as int == optimal(v@, w@, k as int, j as int),
    decreases j + 1,
{
    if j < 0 {
        0
    } else {
        let n = v.len();
        assert((j as int) < n as int);
        let ju = j as usize;
        if w[ju] <= k {
            let last_selection = oracle(k, j - 1, w, v);
            let taken = oracle(k - w[ju], j - 1, w, v);
            proof {
                lemma_optimal_bounds(v@, w@, k - w@[j as int], j - 1);
                assert(v@[j as int] + sum_prefix(v@, j as int) == sum_prefix(v@, j + 1));
                lemma_sum_prefix_monotone(v@, j + 1, v@.len() as int);
            }
            let new_selection = v[ju] + taken;
            if last_selection >= new_selection {
                last_selection
            } else {
                new_selection
            }
        } else {
            oracle(k, j - 1, w, v)
        }
    }
}

/// The value oracle answered from the cache where its rows reach, and from
/// the raw recurrence where the query looks one item further forward than
/// the cache supports.
pub fn cached_oracle(k: i64, j: i64, w: &Vec<i64>, v: &Vec<i64>, cache: &OracleCache) -> (r: i64)
    requires
        items_wf(v@, w@),
        cache.wf(),
        cache.vals() == v@,
        cache.wts() == w@,
        j < v@.len(),
        j - 1 < cache.rows(),
        j >= 0 ==> 0 <= k <= cache.cap(),
    ensures
        r as int == optimal(v@, w@, k as int, j as int),
{
    if j < 0 {
        0
    } else {
        let n = v.len();
        assert((j as int) < n as int);
        let ju = j as usize;
        if w[ju] <= k {
            let last_selection = cache.get(k, j - 1);
            let taken = cache.get(k - w[ju], j - 1);
            proof {
                lemma_optimal_bounds(v@, w@, k - w@[j as int], j - 1);
                assert(v@[j as int] + sum_prefix(v@, j as int) == sum_prefix(v@, j + 1));
                lemma_sum_prefix_monotone(v@, j + 1, v@.len() as int);
            }
            let new_selection = v[ju] + taken;
            if last_selection >= new_selection {
                last_selection
            } else {
                new_selection
            }
        } else {
            oracle(k, j - 1, w, v)
        }
    }
}

/// Solves the instance exactly by dynamic programming: builds the oracle
/// cache once, then walks the items from last to first, including an item
/// exactly where doing so strictly increases the reachable value; the
/// inclusion flags are built back-to-front and reversed at the end.
pub fn dynamic_solve(p: Problem) -> (s: Solution)
    requires
        p.wf(),
    ensures
        s.contained@.len() == p.v@.len(),
        s.value as int == optimal(p.v@, p.w@, p.k as int, p.v@.len() - 1),
        s.value as int == sum_sel(p.v@, s.contained@, p.v@.len() as int),
        sum_sel(p.w@, s.contained@, p.w@.len() as int) <= p.k,
{
    let cache = OracleCache::build(p.k, &p.w, &p.v);

    let n = p.w.len();
    let mut k = p.k;
    let mut value: i64 = 0;
    let mut contained: Vec<bool> = Vec::new();
    let ghost mut m: Seq<bool> = Seq::new(n as nat, |x: int| false);
    proof {
        crate::model::lemma_sum_sel_all_false(p.v@, m, n as int);
        crate::model::lemma_sum_sel_all_false(p.w@, m, n as int);
    }
    let mut rem = n;
    while rem > 0
        invariant
            p.wf(),
            cache.wf(),
            cache.vals() == p.v@,
            cache.wts() == p.w@,
            cache.cap() == p.k as int,
            cache.rows() == p.w@.len(),
            n == p.w@.len(),
            rem <= n,
            m.len() == n,
            contained@.len() == n - rem,
            forall|t: int| 0 <= t < contained@.len() ==> contained@[t] == m[n - 1 - t],
            forall|x: int| 0 <= x < rem ==> !m[x],
            value as int == sum_sel(p.v@, m, n as int),
            k as int == p.k - sum_sel(p.w@, m, n as int),
            0 <= k <= p.k,
            value as int + optimal(p.v@, p.w@, k as int, rem as int - 1) == optimal(
                p.v@,
                p.w@,
                p.k as int,
                n as int - 1,
            ),
        decreases rem,
    {
        rem -= 1;
        let i = rem as i64;
        let previous = cached_oracle(k, i - 1, &p.w, &p.v, &cache);
        let current = cached_oracle(k, i, &p.w, &p.v, &cache);
        if previous < current {
            proof {
                assert(p.w@[i as int] <= k);
                assert(current as int == p.v@[i as int] + optimal(
                    p.v@,
                    p.w@,
                    k - p.w@[i as int],
                    i - 1,
                ));
                lemma_sum_sel_update(p.v@, m, n as int, i as int, true);
                lemma_sum_sel_update(p.w@, m, n as int, i as int, true);
                lemma_sum_sel_le_prefix(p.v@, m.update(i as int, true), n as int);
                lemma_sum_sel_nonneg(p.w@, m.update(i as int, true), n as int);
            }
            contained.push(true);
            proof {
                m = m.update(i as int, true);
            }
            k -= p.w[rem];
            value += p.v[rem];
        } else {
            contained.push(false);
        }
    }
    let mut fin: Vec<bool> = Vec::new();
    let mut t: usize = 0;
    while t < n
        invariant
            t <= n,
            n == contained@.len(),
            m.len() == n,
            fin@.len() == t,
            forall|x: int| 0 <= x < n ==> contained@[x] == m[n - 1 - x],
            forall|q: int| 0 <= q < t ==> fin@[q] == m[q],
        decreases n - t,
    {
        fin.push(contained[n - 1 - t]);
        t += 1;
    }
    proof {
        assert(fin@ =~= m);
    }
    Solution { value, contained: fin }
}

} // verus!
