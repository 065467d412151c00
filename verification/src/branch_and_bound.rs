//! The branch-and-bound solver: items are ranked by value-to-weight ratio
//! (the efficiency order), and a best-first search over take/skip decisions
//! explores partial assignments ordered by an optimistic bound obtained from
//! the fractional relaxation of the remaining items. Ratios are compared
//! exactly by cross-multiplication, and the bound is the integer floor of the
//! fractional estimate, which keeps it an upper bound on any integral
//! completion.

use vstd::prelude::*;
use vstd::pervasive::VecAdditionalExecFns;

verus! {

use crate::{Problem, Solution};
use crate::model::{
    optimal, sum_sel, lemma_feasible_value_le_optimal, lemma_sum_sel_all_false,
    lemma_sum_sel_le_prefix, lemma_sum_sel_nonneg, lemma_sum_sel_update,
};

/// Item `a` has a strictly larger value-to-weight ratio than item `b`,
/// compared exactly by cross-multiplication.
pub open spec fn ratio_gt(v: Seq<i64>, w: Seq<i64>, a: int, b: int) -> bool {
    v[a] * w[b] > v[b] * w[a]
}

/// Item `a` comes no later than item `b` in efficiency order: strictly
/// larger ratio, or an equal ratio broken by original item index (the
/// deterministic tie-break).
pub open spec fn eff_before(v: Seq<i64>, w: Seq<i64>, a: int, b: int) -> bool {
    ||| ratio_gt(v, w, a, b)
    ||| (v[a] * w[b] == v[b] * w[a] && a <= b)
}

/// Some position of `s` holds the item index `x`.
pub open spec fn appears(s: Seq<usize>, x: int) -> bool {
    exists|i: int| 0 <= i < s.len() && #[trigger] (s[i] as int) == x
}

/// An efficiency ordering: a duplicate-free arrangement of all item indices.
pub open spec fn seq_wf(s: Seq<usize>, n: int) -> bool {
    &&& s.len() == n
    &&& forall|i: int| 0 <= i < s.len() ==> (s[i] as int) < n
    &&& forall|i: int, j: int| 0 <= i < j < s.len() ==> s[i] != s[j]
}

/// The efficiency-order precedence is transitive (weights are positive, so
/// every ratio is finite).
pub proof fn lemma_eff_before_trans(v: Seq<i64>, w: Seq<i64>, a: int, b: int, c: int)
    requires
        v.len() == w.len(),
        0 <= a < v.len(),
        0 <= b < v.len(),
        0 <= c < v.len(),
        forall|i: int| 0 <= i < v.len() ==> v[i] >= 0,
        forall|i: int| 0 <= i < w.len() ==> w[i] >= 1,
        eff_before(v, w, a, b),
        eff_before(v, w, b, c),
    ensures
        eff_before(v, w, a, c),
{
    let va = v[a] as int;
    let vb = v[b] as int;
    let vc = v[c] as int;
    let wa = w[a] as int;
    let wb = w[b] as int;
    let wc = w[c] as int;
    if va * wb == vb * wa && vb * wc == vc * wb {
        assert(va * wc == vc * wa) by (nonlinear_arith)
            requires
                va * wb == vb * wa,
                vb * wc == vc * wb,
                wa >= 1,
                wb >= 1,
                wc >= 1;
    } else {
        assert(va * wc > vc * wa) by (nonlinear_arith)
            requires
                va * wb >= vb * wa,
                vb * wc >= vc * wb,
                va * wb > vb * wa || vb * wc > vc * wb,
                wa >= 1,
                wb >= 1,
                wc >= 1,
                va >= 0,
                vb >= 0,
                vc >= 0;
    }
}

/// Exact comparison of two item ratios by cross-multiplication, avoiding
/// overflow by widening the products.
fn ratio_gt_exec(v: &Vec<i64>, w: &Vec<i64>, a: usize, b: usize) -> (r: bool)
    requires
        v@.len() == w@.len(),
        a < v@.len(),
        b < v@.len(),
        forall|i: int| 0 <= i < v@.len() ==> v@[i] >= 0,
        forall|i: int| 0 <= i < w@.len() ==> w@[i] >= 0,
    ensures
        r == ratio_gt(v@, w@, a as int, b as int),
{
    let lhs = mul_wide(v[a], w[b]);
    let rhs = mul_wide(v[b], w[a]);
    lhs > rhs
}

/// Multiplies two non-negative `i64` values without overflow by widening.
fn mul_wide(x: i64, y: i64) -> (r: u128)
    requires
        x >= 0,
        y >= 0,
    ensures
        r as int == x as int * y as int,
{
    let xu = x as u128;
    let yu = y as u128;
    proof {
        assert(xu as int * yu as int <= u128::MAX as int) by (nonlinear_arith)
            requires
                0 <= xu as int <= i64::MAX as int,
                0 <= yu as int <= i64::MAX as int;
    }
    xu * yu
}

/// Ranks the items by descending value-to-weight ratio; items of equal ratio
/// keep their original relative order, so the result is uniquely determined.
pub fn find_optimal_sequence(problem: &Problem) -> (s: Vec<usize>)
    requires
        problem.wf(),
        forall|i: int| 0 <= i < problem.w@.len() ==> problem.w@[i] >= 1,
    ensures
        seq_wf(s@, problem.v@.len() as int),
        forall|i: int, j: int| 0 <= i < j < s@.len() ==> eff_before(
            problem.v@,
            problem.w@,
            s@[i] as int,
            s@[j] as int,
        ),
        forall|x: int| 0 <= x < s@.len() ==> #[trigger] appears(s@, x),
{
    let n = problem.v.len();
    let mut s: Vec<usize> = Vec::new();
    let mut t: usize = 0;
    while t < n
        invariant
            t <= n,
            s@.len() == t,
            forall|q: int| 0 <= q < t ==> s@[q] == q,
        decreases n - t,
    {
        s.push(t);
        t += 1;
    }
    proof {
        assert forall|x: int| 0 <= x < s@.len() implies #[trigger] appears(s@, x) by {
            assert(s@[x] as int == x);
        }
    }
    let mut i: usize = 1;
    while i < n
        invariant
            problem.wf(),
            forall|q: int| 0 <= q < problem.w@.len() ==> problem.w@[q] >= 1,
            n == problem.v@.len(),
            1 <= i <= n || (n == 0 && i == 1),
            s@.len() == n,
            forall|x: int| 0 <= x < s@.len() ==> #[trigger] appears(s@, x),
            forall|q: int| 0 <= q < s@.len() ==> (s@[q] as int) < n,
            forall|q: int, r: int| 0 <= q < r < s@.len() ==> s@[q] != s@[r],
            forall|q: int| i <= q < n ==> s@[q] == q,
            forall|q: int| 0 <= q < i && q < n ==> (s@[q] as int) < i,
            forall|q: int, r: int| 0 <= q < r < i ==> eff_before(
                problem.v@,
                problem.w@,
                s@[q] as int,
                s@[r] as int,
            ),
        decreases n - i,
    {
        let mut j: usize = i;
        while j > 0 && ratio_gt_exec(&problem.v, &problem.w, s[j], s[j - 1])
            invariant
                problem.wf(),
                forall|q: int| 0 <= q < problem.w@.len() ==> problem.w@[q] >= 1,
                n == problem.v@.len(),
                1 <= i < n,
                j <= i,
                s@.len() == n,
                forall|x: int| 0 <= x < s@.len() ==> #[trigger] appears(s@, x),
                forall|q: int| 0 <= q < s@.len() ==> (s@[q] as int) < n,
                forall|q: int, r: int| 0 <= q < r < s@.len() ==> s@[q] != s@[r],
                forall|q: int| i < q < n ==> s@[q] == q,
                s@[j as int] == i,
                forall|q: int| 0 <= q <= i && q != j ==> (s@[q] as int) < i,
                forall|q: int, r: int| 0 <= q < r <= i && q != j && r != j ==> eff_before(
                    problem.v@,
                    problem.w@,
                    s@[q] as int,
                    s@[r] as int,
                ),
                forall|r: int| j < r <= i ==> eff_before(
                    problem.v@,
                    problem.w@,
                    s@[j as int] as int,
                    s@[r] as int,
                ),
            decreases j,
        {
            let ghost olds = s@;
            let a = s[j];
            let b = s[j - 1];
            s.set(j, b);
            s.set(j - 1, a);
            proof {
                assert(ratio_gt(problem.v@, problem.w@, a as int, b as int));
                assert(eff_before(problem.v@, problem.w@, a as int, b as int));
                assert forall|q: int, r: int|
                    0 <= q < r < s@.len() implies s@[q] != s@[r] by {
                    assert(s@[q] == olds[if q == j { j - 1 } else if q == j - 1 { j as int } else { q }]);
                    assert(s@[r] == olds[if r == j { j - 1 } else if r == j - 1 { j as int } else { r }]);
                }
                assert forall|x: int| 0 <= x < s@.len() implies #[trigger] appears(s@, x) by {
                    assert(appears(olds, x));
                    let i0 = choose|i0: int| 0 <= i0 < olds.len() && #[trigger] (olds[i0] as int)
                        == x;
                    let i1 = if i0 == j { j - 1 } else if i0 == j - 1 { j as int } else { i0 };
                    assert(s@[i1] as int == x);
                }
            }
            j -= 1;
        }
        proof {
            let v = problem.v@;
            let w = problem.w@;
            if j > 0 {
                assert(!ratio_gt(v, w, s@[j as int] as int, s@[j - 1] as int));
                assert((s@[j - 1] as int) < i && s@[j as int] == i);
                assert(eff_before(v, w, s@[j - 1] as int, s@[j as int] as int));
            }
            assert forall|q: int, r: int|
                0 <= q < r <= i implies eff_before(v, w, s@[q] as int, s@[r] as int) by {
                if r == j && q < j {
                    lemma_eff_before_trans(
                        v,
                        w,
                        s@[q] as int,
                        s@[j - 1] as int,
                        s@[j as int] as int,
                    );
                } else if q == j && r > j {
                } else {
                }
            }
        }
        i += 1;
    }
    s
}

/// The original-index membership flags induced by the take/skip decisions
/// `dec`, which follow the ordering `s`: original item `x` is in if and only
/// if some decided position chose it.
pub open spec fn mark(n: int, s: Seq<usize>, dec: Seq<bool>) -> Seq<bool> {
    Seq::new(n as nat, |x: int| exists|i: int| 0 <= i < dec.len() && dec[i] && s[i] as int == x)
}

/// Extending the decisions by one take marks exactly the chosen item, which
/// was unmarked before; extending by one skip marks nothing.
pub proof fn lemma_mark_push(n: int, s: Seq<usize>, dec: Seq<bool>, take: bool)
    requires
        seq_wf(s, n),
        dec.len() < s.len(),
    ensures
        !mark(n, s, dec)[s[dec.len() as int] as int],
        take ==> mark(n, s, dec.push(true)) == mark(n, s, dec).update(
            s[dec.len() as int] as int,
            true,
        ),
        !take ==> mark(n, s, dec.push(false)) == mark(n, s, dec),
{
    let d = dec.len() as int;
    let pos = s[d] as int;
    let m0 = mark(n, s, dec);
    assert(!m0[pos]) by {
        if m0[pos] {
            let i = choose|i: int| 0 <= i < dec.len() && dec[i] && s[i] as int == pos;
            assert(s[i] == s[d]);
            assert(false);
        }
    }
    if take {
        let m1 = mark(n, s, dec.push(true));
        let m2 = m0.update(pos, true);
        assert forall|x: int| 0 <= x < n implies m1[x] == m2[x] by {
            if x == pos {
                assert(dec.push(true)[d] && s[d] as int == x);
                assert(m1[x]);
            } else {
                if m1[x] {
                    let i = choose|i: int|
                        0 <= i < dec.push(true).len() && dec.push(true)[i] && s[i] as int == x;
                    assert(i < dec.len() && dec[i] && s[i] as int == x);
                    assert(m0[x]);
                }
                if m0[x] {
                    let i = choose|i: int| 0 <= i < dec.len() && dec[i] && s[i] as int == x;
                    assert(dec.push(true)[i] && s[i] as int == x);
                    assert(m1[x]);
                }
            }
        }
        assert(m1 =~= m2);
    } else {
        let m1 = mark(n, s, dec.push(false));
        assert forall|x: int| 0 <= x < n implies m1[x] == m0[x] by {
            if m1[x] {
                let i = choose|i: int|
                    0 <= i < dec.push(false).len() && dec.push(false)[i] && s[i] as int == x;
                assert(i < dec.len() && dec[i] && s[i] as int == x);
                assert(m0[x]);
            }
            if m0[x] {
                let i = choose|i: int| 0 <= i < dec.len() && dec[i] && s[i] as int == x;
                assert(dec.push(false)[i] && s[i] as int == x);
                assert(m1[x]);
            }
        }
        assert(m1 =~= m0);
    }
}

/// No decisions mark no items.
pub proof fn lemma_mark_none(n: int, s: Seq<usize>, dec: Seq<bool>)
    requires
        dec.len() == 0,
    ensures
        forall|x: int| 0 <= x < n ==> !mark(n, s, dec)[x],
{
}

/// A partial assignment in the search tree: the value and room accumulated
/// from the decisions made so far, an optimistic bound on any completion,
/// and the take/skip decisions themselves, indexed in efficiency order.
pub struct Node {
    pub value: i64,
    pub room: i64,
    pub estimate: i64,
    pub contained: Vec<bool>,
}

/// A node whose fields account exactly for its decisions: its value is the sum
/// of the taken items' values, and its room is whatever the taken items'
/// weights leave of the capacity.
pub open spec fn node_wf(node: Node, v: Seq<i64>, w: Seq<i64>, k: int, s: Seq<usize>) -> bool {
    let m = mark(v.len() as int, s, node.contained@);
    &&& node.contained@.len() <= s.len()
    &&& node.value as int == sum_sel(v, m, v.len() as int)
    &&& node.room as int == k - sum_sel(w, m, w.len() as int)
    &&& node.room >= 0
}

/// Copies a decision vector element by element.
fn clone_flags(src: &Vec<bool>) -> (r: Vec<bool>)
    ensures
        r@ == src@,
{
    let mut r: Vec<bool> = Vec::new();
    let mut t: usize = 0;
    while t < src.len()
        invariant
            t <= src@.len(),
            r@.len() == t,
            forall|q: int| 0 <= q < t ==> r@[q] == src@[q],
        decreases src@.len() - t,
    {
        r.push(src[t]);
        t += 1;
    }
    proof {
        assert(r@ =~= src@);
    }
    r
}

/// Copies a node field by field.
fn clone_node(node: &Node) -> (r: Node)
    ensures
        r.value == node.value,
        r.room == node.room,
        r.estimate == node.estimate,
        r.contained@ == node.contained@,
{
    Node {
        value: node.value,
        room: node.room,
        estimate: node.estimate,
        contained: clone_flags(&node.contained),
    }
}

/// The root of the search tree: nothing decided, nothing taken, the full
/// capacity as room.
pub fn new_node(p: &Problem) -> (node: Node)
    requires
        p.wf(),
    ensures
        node.value == 0,
        node.room == p.k,
        node.estimate == 0,
        node.contained@.len() == 0,
{
    Node { value: 0, room: p.k, estimate: 0, contained: Vec::new() }
}

/// The greedy fractional fill of the items `s[e..]` into `room`: items are
/// taken whole in efficiency order while they fit, and the first item that
/// does not fit contributes the floor of its proportional value and ends the
/// fill.
pub open spec fn greedy_bound(v: Seq<i64>, w: Seq<i64>, s: Seq<usize>, room: int, e: int) -> int
    decreases s.len() - e,
{
    if e < 0 || e >= s.len() || room <= 0 {
        0
    } else if w[s[e] as int] <= room {
        v[s[e] as int] + greedy_bound(v, w, s, room - w[s[e] as int], e + 1)
    } else {
        (v[s[e] as int] as int) * room / (w[s[e] as int] as int)
    }
}

/// Inputs over which the bound is analysed: aligned non-negative values,
/// positive weights, and an index sequence into them.
pub open spec fn ranked_inputs(v: Seq<i64>, w: Seq<i64>, s: Seq<usize>) -> bool {
    &&& v.len() == w.len()
    &&& forall|i: int| 0 <= i < s.len() ==> (s[i] as int) < v.len()
    &&& forall|i: int| 0 <= i < v.len() ==> v[i] >= 0
    &&& forall|i: int| 0 <= i < w.len() ==> w[i] >= 1
}

/// The suffix `s[e..]` is in efficiency order.
pub open spec fn sorted_from(v: Seq<i64>, w: Seq<i64>, s: Seq<usize>, e: int) -> bool {
    forall|i: int, j: int| e <= i < j < s.len() ==> eff_before(v, w, s[i] as int, s[j] as int)
}

/// The whole (integer) part of the greedy fractional fill: the values of the
/// items taken whole before the fill stops.
pub open spec fn gb_int(v: Seq<i64>, w: Seq<i64>, s: Seq<usize>, room: int, e: int) -> int
    decreases s.len() - e,
{
    if e < 0 || e >= s.len() || room <= 0 {
        0
    } else if w[s[e] as int] <= room {
        v[s[e] as int] + gb_int(v, w, s, room - w[s[e] as int], e + 1)
    } else {
        0
    }
}

/// The numerator of the single fractional term of the greedy fill: the
/// partially fitting item's value times the room left for it, or zero when
/// every remaining item fits whole.
pub open spec fn gb_num(v: Seq<i64>, w: Seq<i64>, s: Seq<usize>, room: int, e: int) -> int
    decreases s.len() - e,
{
    if e < 0 || e >= s.len() || room <= 0 {
        0
    } else if w[s[e] as int] <= room {
        gb_num(v, w, s, room - w[s[e] as int], e + 1)
    } else {
        (v[s[e] as int] as int) * room
    }
}

/// The denominator of the single fractional term of the greedy fill: the
/// partially fitting item's weight, or one when there is no such item.
pub open spec fn gb_den(v: Seq<i64>, w: Seq<i64>, s: Seq<usize>, room: int, e: int) -> int
    decreases s.len() - e,
{
    if e < 0 || e >= s.len() || room <= 0 {
        1
    } else if w[s[e] as int] <= room {
        gb_den(v, w, s, room - w[s[e] as int], e + 1)
    } else {
        w[s[e] as int] as int
    }
}

/// The greedy bound is exactly its whole part plus the floored fractional
/// term, whose numerator and denominator are well behaved.
proof fn lemma_gb_parts(v: Seq<i64>, w: Seq<i64>, s: Seq<usize>, room: int, e: int)
    requires
        ranked_inputs(v, w, s),
        room >= 0,
    ensures
        gb_den(v, w, s, room, e) >= 1,
        gb_num(v, w, s, room, e) >= 0,
        greedy_bound(v, w, s, room, e) == gb_int(v, w, s, room, e) + gb_num(v, w, s, room, e)
            / gb_den(v, w, s, room, e),
    decreases s.len() - e,
{
    if e < 0 || e >= s.len() || room <= 0 {
    } else if w[s[e] as int] <= room {
        lemma_gb_parts(v, w, s, room - w[s[e] as int], e + 1);
    } else {
        assert(v[s[e] as int] * room >= 0) by (nonlinear_arith)
            requires
                v[s[e] as int] >= 0,
                room >= 0;
    }
}

/// A ratio `rn/rd` at least every value-to-weight ratio of the items
/// `s[e..]`, stated by cross-multiplication.
pub open spec fn dominates(v: Seq<i64>, w: Seq<i64>, s: Seq<usize>, rn: int, rd: int, e: int) -> bool {
    forall|i: int| e <= i < s.len() ==> rn * w[s[i] as int] >= v[s[i] as int] * rd
}

/// Rate bound: the greedy fill extracts at most `rn/rd` of value per unit of
/// room when that ratio dominates every remaining item.
proof fn lemma_gb_rate(v: Seq<i64>, w: Seq<i64>, s: Seq<usize>, room: int, e: int, rn: int, rd: int)
    requires
        ranked_inputs(v, w, s),
        room >= 0,
        rd >= 1,
        rn >= 0,
        dominates(v, w, s, rn, rd, e),
    ensures
        rd * (gb_den(v, w, s, room, e) * gb_int(v, w, s, room, e) + gb_num(v, w, s, room, e))
            <= room * rn * gb_den(v, w, s, room, e),
    decreases s.len() - e,
{
    lemma_gb_parts(v, w, s, room, e);
    if e < 0 || e >= s.len() || room <= 0 {
        assert(room * rn >= 0) by (nonlinear_arith)
            requires
                room >= 0,
                rn >= 0;
        let d0 = gb_den(v, w, s, room, e);
        let i0 = gb_int(v, w, s, room, e);
        let n0 = gb_num(v, w, s, room, e);
        assert(d0 == 1 && i0 == 0 && n0 == 0);
        assert(rd * (d0 * i0 + n0) <= room * rn * d0) by (nonlinear_arith)
            requires
                d0 == 1,
                i0 == 0,
                n0 == 0,
                room * rn >= 0;
    } else {
        let ve = v[s[e] as int] as int;
        let we = w[s[e] as int] as int;
        if we <= room {
            lemma_gb_parts(v, w, s, room - we, e + 1);
            lemma_gb_rate(v, w, s, room - we, e + 1, rn, rd);
            let ip = gb_int(v, w, s, room - we, e + 1);
            let np = gb_num(v, w, s, room - we, e + 1);
            let dp = gb_den(v, w, s, room - we, e + 1);
            assert(rn * we >= ve * rd);
            assert(rd * (dp * (ve + ip) + np) <= room * rn * dp) by (nonlinear_arith)
                requires
                    rd * (dp * ip + np) <= (room - we) * rn * dp,
                    rn * we >= ve * rd,
                    dp >= 1,
                    ve >= 0,
                    we >= 1,
                    rd >= 1,
                    rn >= 0,
                    room >= we;
            assert(gb_int(v, w, s, room, e) == ve + ip);
            assert(gb_num(v, w, s, room, e) == np);
            assert(gb_den(v, w, s, room, e) == dp);
            assert(rd * (gb_den(v, w, s, room, e) * gb_int(v, w, s, room, e) + gb_num(
                v,
                w,
                s,
                room,
                e,
            )) <= room * rn * gb_den(v, w, s, room, e));
        } else {
            assert(rn * we >= ve * rd);
            assert(rd * (we * 0 + ve * room) <= room * rn * we) by (nonlinear_arith)
                requires
                    rn * we >= ve * rd,
                    room >= 0,
                    rd >= 1,
                    ve >= 0;
            assert(gb_int(v, w, s, room, e) == 0);
            assert(gb_num(v, w, s, room, e) == ve * room);
            assert(gb_den(v, w, s, room, e) == we);
            assert(rd * (gb_den(v, w, s, room, e) * gb_int(v, w, s, room, e) + gb_num(
                v,
                w,
                s,
                room,
                e,
            )) <= room * rn * gb_den(v, w, s, room, e));
        }
    }
}

/// Lipschitz bound: shrinking the room by `delta = a - b` lowers the greedy
/// fill by at most `delta` times a ratio `rn/rd` that dominates the suffix.
#[verifier::rlimit(100)]
proof fn lemma_gb_lipschitz(
    v: Seq<i64>,
    w: Seq<i64>,
    s: Seq<usize>,
    a: int,
    b: int,
    e: int,
    rn: int,
    rd: int,
)
    requires
        ranked_inputs(v, w, s),
        sorted_from(v, w, s, e),
        0 <= b <= a,
        rd >= 1,
        rn >= 0,
        dominates(v, w, s, rn, rd, e),
    ensures
        rd * (gb_den(v, w, s, b, e) * (gb_den(v, w, s, a, e) * gb_int(v, w, s, a, e) + gb_num(
            v,
            w,
            s,
            a,
            e,
        ))) <= rd * (gb_den(v, w, s, a, e) * (gb_den(v, w, s, b, e) * gb_int(v, w, s, b, e)
            + gb_num(v, w, s, b, e))) + (a - b) * rn * (gb_den(v, w, s, a, e) * gb_den(
            v,
            w,
            s,
            b,
            e,
        )),
    decreases s.len() - e,
{
    lemma_gb_parts(v, w, s, a, e);
    lemma_gb_parts(v, w, s, b, e);
    let ia = gb_int(v, w, s, a, e);
    let na = gb_num(v, w, s, a, e);
    let da = gb_den(v, w, s, a, e);
    let ib = gb_int(v, w, s, b, e);
    let nb = gb_num(v, w, s, b, e);
    let db = gb_den(v, w, s, b, e);
    if e < 0 || e >= s.len() || a <= 0 {
        assert(ia == ib && na == nb && da == db);
        assert(rd * (db * (da * ia + na)) <= rd * (da * (db * ib + nb)) + (a - b) * rn * (da * db))
            by (nonlinear_arith)
            requires
                ia == ib,
                na == nb,
                da == db,
                da >= 1,
                0 <= b <= a,
                rn >= 0;
    } else {
        let ve = v[s[e] as int] as int;
        let we = w[s[e] as int] as int;
        assert(rn * we >= ve * rd);
        if we <= b {
            lemma_gb_lipschitz(v, w, s, a - we, b - we, e + 1, rn, rd);
            let ia2 = gb_int(v, w, s, a - we, e + 1);
            let na2 = gb_num(v, w, s, a - we, e + 1);
            let da2 = gb_den(v, w, s, a - we, e + 1);
            let ib2 = gb_int(v, w, s, b - we, e + 1);
            let nb2 = gb_num(v, w, s, b - we, e + 1);
            let db2 = gb_den(v, w, s, b - we, e + 1);
            assert(ia == ve + ia2 && na == na2 && da == da2);
            assert(ib == ve + ib2 && nb == nb2 && db == db2);
            assert(rd * (db * (da * ia + na)) <= rd * (da * (db * ib + nb)) + (a - b) * rn * (da
                * db)) by (nonlinear_arith)
                requires
                    rd * (db2 * (da2 * ia2 + na2)) <= rd * (da2 * (db2 * ib2 + nb2)) + ((a - we) - (
                    b - we)) * rn * (da2 * db2),
                    ia == ve + ia2,
                    na == na2,
                    da == da2,
                    ib == ve + ib2,
                    nb == nb2,
                    db == db2,
                    rd >= 1,
                    rn >= 0;
        } else if we <= a {
            // The front item fits the larger room but not the smaller one:
            // bound the whole fill at `a` by the front item's own ratio.
            assert forall|i: int| e + 1 <= i < s.len() implies ve * w[s[i] as int] >= v[s[i] as int]
                * we by {
                assert(eff_before(v, w, s[e] as int, s[i] as int));
            }
            lemma_gb_rate(v, w, s, a - we, e + 1, ve, we);
            lemma_gb_parts(v, w, s, a - we, e + 1);
            let ia2 = gb_int(v, w, s, a - we, e + 1);
            let na2 = gb_num(v, w, s, a - we, e + 1);
            let da2 = gb_den(v, w, s, a - we, e + 1);
            assert(ia == ve + ia2 && na == na2 && da == da2);
            if b > 0 {
                assert(ib == 0 && nb == ve * b && db == we);
                assert(we * (da2 * (ve + ia2) + na2) <= a * ve * da2) by (nonlinear_arith)
                    requires
                        we * (da2 * ia2 + na2) <= (a - we) * ve * da2,
                        we >= 1,
                        ve >= 0,
                        da2 >= 1,
                        we <= a;
                assert(rd * (db * (da * ia + na)) <= rd * (a * ve * da2)) by (nonlinear_arith)
                    requires
                        we * (da2 * (ve + ia2) + na2) <= a * ve * da2,
                        da == da2,
                        db == we,
                        ia == ve + ia2,
                        na == na2,
                        rd >= 1;
                assert(rd * (a * ve * da2) <= rd * (da2 * (ve * b)) + (a - b) * rn * (da2 * we))
                    by (nonlinear_arith)
                    requires
                        rn * we >= ve * rd,
                        0 < b <= a,
                        da2 >= 1,
                        rd >= 1,
                        rn >= 0,
                        ve >= 0,
                        we >= 1;
                assert(rd * (da * (db * ib + nb)) == rd * (da2 * (ve * b))) by (nonlinear_arith)
                    requires
                        ib == 0,
                        nb == ve * b,
                        da == da2,
                        db == we;
            } else {
                assert(ib == 0 && nb == 0 && db == 1);
                assert(rd * (db * (da * ia + na)) <= rd * (da * (db * ib + nb)) + (a - b) * rn * (
                da * db)) by (nonlinear_arith)
                    requires
                        we * (da2 * ia2 + na2) <= (a - we) * ve * da2,
                        rn * we >= ve * rd,
                        ia == ve + ia2,
                        na == na2,
                        da == da2,
                        ib == 0,
                        nb == 0,
                        db == 1,
                        da2 >= 1,
                        we >= 1,
                        ve >= 0,
                        rd >= 1,
                        rn >= 0,
                        b == 0,
                        we <= a;
            }
        } else {
            assert(ia == 0 && na == ve * a && da == we);
            if b > 0 {
                assert(ib == 0 && nb == ve * b && db == we);
                assert(rd * (db * (da * ia + na)) <= rd * (da * (db * ib + nb)) + (a - b) * rn * (
                da * db)) by (nonlinear_arith)
                    requires
                        rn * we >= ve * rd,
                        ia == 0,
                        na == ve * a,
                        da == we,
                        ib == 0,
                        nb == ve * b,
                        db == we,
                        we >= 1,
                        ve >= 0,
                        rd >= 1,
                        rn >= 0,
                        0 < b <= a;
            } else {
                assert(ib == 0 && nb == 0 && db == 1);
                assert(rd * (db * (da * ia + na)) <= rd * (da * (db * ib + nb)) + (a - b) * rn * (
                da * db)) by (nonlinear_arith)
                    requires
                        rn * we >= ve * rd,
                        ia == 0,
                        na == ve * a,
                        da == we,
                        ib == 0,
                        nb == 0,
                        db == 1,
                        we >= 1,
                        ve >= 0,
                        rd >= 1,
                        rn >= 0,
                        b == 0,
                        0 < a;
            }
        }
    }
}

/// The value (with `x = v`) or weight (with `x = w`) that a full decision
/// vector selects from the suffix `s[e..]`.
pub open spec fn sel_tail(x: Seq<i64>, s: Seq<usize>, fd: Seq<bool>, e: int) -> int
    decreases s.len() - e,
{
    if e < 0 || e >= s.len() {
        0
    } else {
        (if fd[e] {
            x[s[e] as int] as int
        } else {
            0
        }) + sel_tail(x, s, fd, e + 1)
    }
}

/// A selected tail of non-negative entries is non-negative.
proof fn lemma_sel_tail_nonneg(x: Seq<i64>, s: Seq<usize>, fd: Seq<bool>, e: int)
    requires
        forall|i: int| 0 <= i < s.len() ==> (s[i] as int) < x.len(),
        forall|i: int| 0 <= i < x.len() ==> x[i] >= 0,
    ensures
        sel_tail(x, s, fd, e) >= 0,
    decreases s.len() - e,
{
    if 0 <= e < s.len() {
        lemma_sel_tail_nonneg(x, s, fd, e + 1);
    }
}

/// Admissibility of the greedy bound: whatever a feasible completion selects
/// from the (efficiency-sorted) suffix is worth at most the greedy fill of
/// the available room, stated over the fill's exact fractional parts.
proof fn lemma_gb_admissible(v: Seq<i64>, w: Seq<i64>, s: Seq<usize>, fd: Seq<bool>, room: int, e: int)
    requires
        ranked_inputs(v, w, s),
        sorted_from(v, w, s, e),
        fd.len() == s.len(),
        0 <= room,
        0 <= e,
        sel_tail(w, s, fd, e) <= room,
    ensures
        gb_den(v, w, s, room, e) * sel_tail(v, s, fd, e) <= gb_den(v, w, s, room, e) * gb_int(
            v,
            w,
            s,
            room,
            e,
        ) + gb_num(v, w, s, room, e),
    decreases s.len() - e,
{
    lemma_gb_parts(v, w, s, room, e);
    if e >= s.len() {
        assert(gb_den(v, w, s, room, e) * 0 <= gb_den(v, w, s, room, e) * 0 + 0)
            by (nonlinear_arith);
    } else {
        let ve = v[s[e] as int] as int;
        let we = w[s[e] as int] as int;
        let sv2 = sel_tail(v, s, fd, e + 1);
        let sw2 = sel_tail(w, s, fd, e + 1);
        lemma_sel_tail_nonneg(w, s, fd, e + 1);
        lemma_sel_tail_nonneg(v, s, fd, e + 1);
        if room == 0 {
            if fd[e] {
                assert(sel_tail(w, s, fd, e) == we + sw2);
                assert(false);
            } else {
                lemma_gb_admissible(v, w, s, fd, 0, e + 1);
                assert(gb_den(v, w, s, 0, e + 1) == 1 && gb_int(v, w, s, 0, e + 1) == 0
                    && gb_num(v, w, s, 0, e + 1) == 0);
                assert(sel_tail(v, s, fd, e) == sv2);
            }
        } else if we <= room {
            if fd[e] {
                lemma_gb_admissible(v, w, s, fd, room - we, e + 1);
                let i1 = gb_int(v, w, s, room - we, e + 1);
                let n1 = gb_num(v, w, s, room - we, e + 1);
                let d1 = gb_den(v, w, s, room - we, e + 1);
                assert(gb_int(v, w, s, room, e) == ve + i1);
                assert(gb_num(v, w, s, room, e) == n1);
                assert(gb_den(v, w, s, room, e) == d1);
                assert(sel_tail(v, s, fd, e) == ve + sv2);
                assert(d1 * (ve + sv2) <= d1 * (ve + i1) + n1) by (nonlinear_arith)
                    requires
                        d1 * sv2 <= d1 * i1 + n1,
                        d1 >= 1;
            } else {
                assert forall|i: int| e + 1 <= i < s.len() implies ve * w[s[i] as int] >= v[s[
                    i
                ] as int] * we by {
                    assert(eff_before(v, w, s[e] as int, s[i] as int));
                }
                lemma_gb_admissible(v, w, s, fd, room, e + 1);
                lemma_gb_lipschitz(v, w, s, room, room - we, e + 1, ve, we);
                lemma_gb_parts(v, w, s, room, e + 1);
                lemma_gb_parts(v, w, s, room - we, e + 1);
                let i2 = gb_int(v, w, s, room, e + 1);
                let n2 = gb_num(v, w, s, room, e + 1);
                let d2 = gb_den(v, w, s, room, e + 1);
                let i1 = gb_int(v, w, s, room - we, e + 1);
                let n1 = gb_num(v, w, s, room - we, e + 1);
                let d1 = gb_den(v, w, s, room - we, e + 1);
                assert(gb_int(v, w, s, room, e) == ve + i1);
                assert(gb_num(v, w, s, room, e) == n1);
                assert(gb_den(v, w, s, room, e) == d1);
                assert(sel_tail(v, s, fd, e) == sv2);
                assert(d1 * sv2 <= d1 * (ve + i1) + n1) by (nonlinear_arith)
                    requires
                        d2 * sv2 <= d2 * i2 + n2,
                        we * (d1 * (d2 * i2 + n2)) <= we * (d2 * (d1 * i1 + n1)) + (room - (room
                            - we)) * ve * (d2 * d1),
                        d1 >= 1,
                        d2 >= 1,
                        we >= 1,
                        ve >= 0;
            }
        } else {
            if fd[e] {
                assert(sel_tail(w, s, fd, e) == we + sw2);
                assert(false);
            } else {
                assert forall|i: int| e + 1 <= i < s.len() implies ve * w[s[i] as int] >= v[s[
                    i
                ] as int] * we by {
                    assert(eff_before(v, w, s[e] as int, s[i] as int));
                }
                lemma_gb_admissible(v, w, s, fd, room, e + 1);
                lemma_gb_rate(v, w, s, room, e + 1, ve, we);
                lemma_gb_parts(v, w, s, room, e + 1);
                let i2 = gb_int(v, w, s, room, e + 1);
                let n2 = gb_num(v, w, s, room, e + 1);
                let d2 = gb_den(v, w, s, room, e + 1);
                assert(gb_int(v, w, s, room, e) == 0);
                assert(gb_num(v, w, s, room, e) == ve * room);
                assert(gb_den(v, w, s, room, e) == we);
                assert(sel_tail(v, s, fd, e) == sv2);
                assert(we * sv2 <= we * 0 + ve * room) by (nonlinear_arith)
                    requires
                        d2 * sv2 <= d2 * i2 + n2,
                        we * (d2 * i2 + n2) <= room * ve * d2,
                        d2 >= 1,
                        we >= 1,
                        ve >= 0;
            }
        }
    }
}

/// `fd` extends `dec`: it agrees with `dec` on every decided position.
pub open spec fn extends(fd: Seq<bool>, dec: Seq<bool>) -> bool {
    &&& dec.len() <= fd.len()
    &&& forall|i: int| 0 <= i < dec.len() ==> fd[i] == dec[i]
}

/// The total value a full decision vector (in ordering `s`) selects.
pub open spec fn assignment_value(v: Seq<i64>, s: Seq<usize>, fd: Seq<bool>) -> int {
    sum_sel(v, mark(s.len() as int, s, fd), v.len() as int)
}

/// The total weight a full decision vector (in ordering `s`) selects.
pub open spec fn assignment_weight(w: Seq<i64>, s: Seq<usize>, fd: Seq<bool>) -> int {
    sum_sel(w, mark(s.len() as int, s, fd), w.len() as int)
}

/// A full selection splits into what its first `d` decisions select and what
/// the rest of the decisions select from the suffix.
proof fn lemma_sel_split(x: Seq<i64>, s: Seq<usize>, fd: Seq<bool>, d: int)
    requires
        seq_wf(s, s.len() as int),
        s.len() == x.len(),
        fd.len() == s.len(),
        0 <= d <= s.len(),
    ensures
        sum_sel(x, mark(s.len() as int, s, fd), x.len() as int) == sum_sel(
            x,
            mark(s.len() as int, s, fd.take(d)),
            x.len() as int,
        ) + sel_tail(x, s, fd, d),
    decreases s.len() - d,
{
    let n = s.len() as int;
    if d == n {
        assert(fd.take(d) =~= fd);
    } else {
        lemma_sel_split(x, s, fd, d + 1);
        assert(fd.take(d).len() == d);
        lemma_mark_push(n, s, fd.take(d), fd[d]);
        assert(fd.take(d).push(fd[d]) =~= fd.take(d + 1));
        lemma_sum_sel_update(
            x,
            mark(n, s, fd.take(d)),
            x.len() as int,
            s[d] as int,
            true,
        );
    }
}

/// The fractional-relaxation bound of a node: starting from its accumulated
/// value and room, the remaining items are filled greedily in efficiency
/// order; the first item that no longer fits contributes the floor of its
/// proportional value and exhausts the room. The result never underestimates
/// the node's own value, a fully decided node is bounded by exactly its
/// value, and the bound is admissible: no feasible completion of the node's
/// decisions is worth more.
pub fn estimate(node: &Node, sequence: &Vec<usize>, p: &Problem) -> (r: i64)
    requires
        p.wf(),
        forall|i: int| 0 <= i < p.w@.len() ==> p.w@[i] >= 1,
        seq_wf(sequence@, p.v@.len() as int),
        sorted_from(p.v@, p.w@, sequence@, 0),
        node_wf(*node, p.v@, p.w@, p.k as int, sequence@),
    ensures
        r as int == node.value + greedy_bound(
            p.v@,
            p.w@,
            sequence@,
            node.room as int,
            node.contained@.len() as int,
        ),
        r >= node.value,
        node.contained@.len() == sequence@.len() ==> r == node.value,
        forall|fd: Seq<bool>| fd.len() == sequence@.len() && extends(fd, node.contained@)
            && #[trigger] assignment_weight(p.w@, sequence@, fd) <= p.k as int
            ==> assignment_value(p.v@, sequence@, fd) <= r as int,
{
    let n = sequence.len();
    if node.contained.len() == n {
        proof {
            assert forall|fd: Seq<bool>|
                fd.len() == sequence@.len() && extends(fd, node.contained@) && assignment_weight(
                    p.w@,
                    sequence@,
                    fd,
                ) <= p.k as int implies assignment_value(p.v@, sequence@, fd)
                <= node.value as int by {
                assert(fd =~= node.contained@);
            }
        }
        return node.value;
    }
    let mut room = node.room;
    let mut index = node.contained.len();
    let mut value = node.value;
    let ghost mut dec_ext = node.contained@;
    while room > 0 && index < n
        invariant
            p.wf(),
            forall|q: int| 0 <= q < p.w@.len() ==> p.w@[q] >= 1,
            seq_wf(sequence@, p.v@.len() as int),
            n == p.v@.len(),
            node.contained@.len() <= index <= n,
            room >= 0,
            value >= node.value,
            room > 0 ==> dec_ext.len() == index as int && value as int == sum_sel(
                p.v@,
                mark(n as int, sequence@, dec_ext),
                n as int,
            ),
            node.value + greedy_bound(
                p.v@,
                p.w@,
                sequence@,
                node.room as int,
                node.contained@.len() as int,
            ) == value + greedy_bound(p.v@, p.w@, sequence@, room as int, index as int),
        decreases n - index,
    {
        let pos = sequence[index];
        let wt = p.w[pos];
        proof {
            lemma_mark_push(n as int, sequence@, dec_ext, true);
            lemma_sum_sel_update(
                p.v@,
                mark(n as int, sequence@, dec_ext),
                n as int,
                sequence@[index as int] as int,
                true,
            );
            lemma_sum_sel_le_prefix(
                p.v@,
                mark(n as int, sequence@, dec_ext.push(true)),
                n as int,
            );
        }
        if wt <= room {
            room -= wt;
            value += p.v[pos];
            proof {
                dec_ext = dec_ext.push(true);
            }
        } else {
            let frac_wide = mul_wide(p.v[pos], room) / (wt as u128);
            proof {
                let vp = p.v@[pos as int] as int;
                let rm = room as int;
                let wd = wt as int;
                assert(vp * rm / wd <= vp) by (nonlinear_arith)
                    requires
                        vp >= 0,
                        0 <= rm < wd;
                assert(vp * rm / wd >= 0) by (nonlinear_arith)
                    requires
                        vp >= 0,
                        0 <= rm,
                        wd >= 1;
            }
            let frac = frac_wide as i64;
            proof {
                assert(greedy_bound(p.v@, p.w@, sequence@, room as int, index as int)
                    == (p.v@[pos as int] as int) * (room as int) / (p.w@[pos as int] as int));
                assert(frac as int == (p.v@[pos as int] as int) * (room as int) / (
                p.w@[pos as int] as int));
            }
            value += frac;
            room = 0;
        }
        index += 1;
    }
    proof {
        let v = p.v@;
        let w = p.w@;
        let sq = sequence@;
        let d = node.contained@.len() as int;
        assert(greedy_bound(v, w, sq, room as int, index as int) == 0);
        assert forall|fd: Seq<bool>|
            fd.len() == sq.len() && extends(fd, node.contained@) && assignment_weight(w, sq, fd)
                <= p.k as int implies assignment_value(v, sq, fd) <= value as int by {
            assert(fd.take(d) =~= node.contained@);
            lemma_sel_split(w, sq, fd, d);
            lemma_sel_split(v, sq, fd, d);
            assert(sel_tail(w, sq, fd, d) <= node.room as int);
            lemma_gb_admissible(v, w, sq, fd, node.room as int, d);
            lemma_gb_parts(v, w, sq, node.room as int, d);
            let den = gb_den(v, w, sq, node.room as int, d);
            let num = gb_num(v, w, sq, node.room as int, d);
            let whole = gb_int(v, w, sq, node.room as int, d);
            let selv = sel_tail(v, sq, fd, d);
            assert(selv <= whole + num / den) by (nonlinear_arith)
                requires
                    den * selv <= den * whole + num,
                    den >= 1,
                    num >= 0;
        }
    }
    value
}

/// Expands a partial assignment by one decision on the next item in
/// efficiency order. Taking an item that does not fit the remaining room
/// yields no child, and a fully decided node has no children at all.
pub fn build_next_node(parent: &Node, sequence: &Vec<usize>, take: bool, p: &Problem) -> (r: Option<
    Node,
>)
    requires
        p.wf(),
        forall|i: int| 0 <= i < p.w@.len() ==> p.w@[i] >= 1,
        seq_wf(sequence@, p.v@.len() as int),
        sorted_from(p.v@, p.w@, sequence@, 0),
        node_wf(*parent, p.v@, p.w@, p.k as int, sequence@),
    ensures
        r is None <==> (parent.contained@.len() == sequence@.len() || (take
            && parent.contained@.len() < sequence@.len() && p.w@[sequence@[parent.contained@.len() as int] as int]
            > parent.room)),
        r matches Some(child) ==> {
            &&& node_wf(child, p.v@, p.w@, p.k as int, sequence@)
            &&& child.contained@ == parent.contained@.push(take)
            &&& child.value >= parent.value
            &&& child.estimate >= child.value
            &&& (child.contained@.len() == sequence@.len() ==> child.estimate == child.value)
            &&& child.estimate as int == child.value + greedy_bound(
                p.v@,
                p.w@,
                sequence@,
                child.room as int,
                child.contained@.len() as int,
            )
            &&& forall|fd: Seq<bool>| fd.len() == sequence@.len() && extends(fd, child.contained@)
                && #[trigger] assignment_weight(p.w@, sequence@, fd) <= p.k as int
                ==> assignment_value(p.v@, sequence@, fd) <= child.estimate as int
        },
{
    let n = sequence.len();
    if parent.contained.len() == n {
        return None;
    }
    let mut node = clone_node(parent);
    let ghost dec = parent.contained@;
    let ghost d = dec.len() as int;
    proof {
        lemma_mark_push(n as int, sequence@, dec, take);
        lemma_sum_sel_update(
            p.v@,
            mark(n as int, sequence@, dec),
            n as int,
            sequence@[d] as int,
            true,
        );
        lemma_sum_sel_update(
            p.w@,
            mark(n as int, sequence@, dec),
            n as int,
            sequence@[d] as int,
            true,
        );
        lemma_sum_sel_le_prefix(p.v@, mark(n as int, sequence@, dec.push(true)), n as int);
    }
    if take {
        let index = node.contained.len();
        let pos = sequence[index];
        let wt = p.w[pos];
        if node.room < wt {
            return None;
        }
        node.room -= wt;
        node.value += p.v[pos];
    }
    node.contained.push(take);
    let est = estimate(&node, sequence, p);
    node.estimate = est;
    Some(node)
}

/// A termination measure for the best-first search: each frontier node with
/// `d` of `n` decisions made counts for `3^(n - d)`. Expanding a node
/// replaces its weight by at most two weights a third its size, so the
/// measure strictly shrinks with every expansion.
pub open spec fn pow3(e: nat) -> int
    decreases e,
{
    if e == 0 {
        1
    } else {
        3 * pow3((e - 1) as nat)
    }
}

/// Powers of three are positive.
pub proof fn lemma_pow3_positive(e: nat)
    ensures
        pow3(e) >= 1,
    decreases e,
{
    if e > 0 {
        lemma_pow3_positive((e - 1) as nat);
    }
}

pub open spec fn frontier_measure(q: Seq<Node>, n: int) -> int
    decreases q.len(),
{
    if q.len() == 0 {
        0
    } else {
        frontier_measure(q.drop_last(), n) + pow3((n - q.last().contained@.len() as int) as nat)
    }
}

/// The frontier measure is non-negative.
proof fn lemma_measure_nonneg(q: Seq<Node>, n: int)
    ensures
        frontier_measure(q, n) >= 0,
    decreases q.len(),
{
    if q.len() > 0 {
        lemma_measure_nonneg(q.drop_last(), n);
        lemma_pow3_positive((n - q.last().contained@.len() as int) as nat);
    }
}

/// Removing a node subtracts exactly its weight from the frontier measure.
proof fn lemma_measure_remove(q: Seq<Node>, n: int, idx: int)
    requires
        0 <= idx < q.len(),
    ensures
        frontier_measure(q.remove(idx), n) == frontier_measure(q, n) - pow3(
            (n - q[idx].contained@.len() as int) as nat,
        ),
    decreases q.len(),
{
    if idx == q.len() - 1 {
        assert(q.remove(idx) =~= q.drop_last());
    } else {
        assert(q.remove(idx).drop_last() =~= q.drop_last().remove(idx));
        assert(q.remove(idx).last() == q.last());
        lemma_measure_remove(q.drop_last(), n, idx);
    }
}

/// Appending a node adds exactly its weight to the frontier measure.
proof fn lemma_measure_push(q: Seq<Node>, n: int, x: Node)
    ensures
        frontier_measure(q.push(x), n) == frontier_measure(q, n) + pow3(
            (n - x.contained@.len() as int) as nat,
        ),
{
    assert(q.push(x).drop_last() =~= q);
    assert(q.push(x).last() == x);
}

/// The position of a highest-bound node in the frontier; among equal bounds
/// the earliest is chosen, which keeps the search deterministic.
fn peek_max(queue: &Vec<Node>) -> (idx: usize)
    requires
        queue@.len() >= 1,
    ensures
        idx < queue@.len(),
        forall|t: int| 0 <= t < queue@.len() ==> queue@[t].estimate <= queue@[idx as int].estimate,
{
    let mut best: usize = 0;
    let mut t: usize = 1;
    while t < queue.len()
        invariant
            best < t <= queue@.len(),
            forall|q: int| 0 <= q < t ==> queue@[q].estimate <= queue@[best as int].estimate,
        decreases queue@.len() - t,
    {
        if queue[t].estimate > queue[best].estimate {
            best = t;
        }
        t += 1;
    }
    best
}

/// Solves the instance exactly by best-first branch-and-bound: nodes are
/// expanded in order of their optimistic bound, an incumbent records the
/// best value found, and the search stops as soon as no frontier bound
/// exceeds the incumbent. The incumbent's decisions, padded with skips, are
/// mapped from efficiency order back to original item indices.
pub fn bounding_solve(problem: Problem) -> (s: Solution)
    requires
        problem.wf(),
        forall|i: int| 0 <= i < problem.w@.len() ==> problem.w@[i] >= 1,
    ensures
        s.contained@.len() == problem.v@.len(),
        s.value as int == sum_sel(problem.v@, s.contained@, problem.v@.len() as int),
        sum_sel(problem.w@, s.contained@, problem.w@.len() as int) <= problem.k,
        s.value as int == optimal(problem.v@, problem.w@, problem.k as int, problem.v@.len() - 1),
{
    let ghost v = problem.v@;
    let ghost w = problem.w@;
    let ghost kk = problem.k as int;
    let n = problem.v.len();
    let opt_sequence = find_optimal_sequence(&problem);
    let ghost sq = opt_sequence@;
    let mut start = new_node(&problem);
    proof {
        lemma_mark_none(n as int, sq, start.contained@);
        lemma_sum_sel_all_false(v, mark(n as int, sq, start.contained@), n as int);
        lemma_sum_sel_all_false(w, mark(n as int, sq, start.contained@), n as int);
        assert(node_wf(start, v, w, kk, sq));
    }
    let e0 = estimate(&start, &opt_sequence, &problem);
    start.estimate = e0;

    let mut local_max = clone_node(&start);
    let mut queue: Vec<Node> = Vec::new();
    queue.push(start);
    proof {
        assert(sorted_from(v, w, sq, 0));
        assert forall|fd: Seq<bool>|
            fd.len() == n && #[trigger] assignment_weight(w, sq, fd) <= kk implies (
            assignment_value(v, sq, fd) <= local_max.value as int || exists|t: int|
                0 <= t < queue@.len() && #[trigger] extends(fd, queue@[t].contained@)
                    && assignment_value(v, sq, fd) <= queue@[t].estimate as int) by {
            assert(queue@[0].contained@.len() == 0);
            assert(extends(fd, queue@[0].contained@));
            assert(assignment_value(v, sq, fd) <= queue@[0].estimate as int);
        }
    }
    let mut top = peek_max(&queue);
    while local_max.value < queue[top].estimate
        invariant
            problem.wf(),
            forall|q: int| 0 <= q < w.len() ==> w[q] >= 1,
            v == problem.v@,
            w == problem.w@,
            kk == problem.k as int,
            n == v.len(),
            seq_wf(sq, n as int),
            sq == opt_sequence@,
            queue@.len() >= 1,
            (top as int) < queue@.len(),
            forall|t: int| 0 <= t < queue@.len() ==> queue@[t].estimate <= queue@[top as int].estimate,
            forall|t: int| 0 <= t < queue@.len() ==> node_wf(#[trigger] queue@[t], v, w, kk, sq),
            forall|t: int| 0 <= t < queue@.len() && #[trigger] queue@[t].contained@.len() == n
                ==> queue@[t].estimate <= local_max.value,
            node_wf(local_max, v, w, kk, sq),
            sorted_from(v, w, sq, 0),
            forall|fd: Seq<bool>| fd.len() == n && #[trigger] assignment_weight(w, sq, fd) <= kk
                ==> assignment_value(v, sq, fd) <= local_max.value as int || exists|t: int|
                    0 <= t < queue@.len() && #[trigger] extends(fd, queue@[t].contained@)
                        && assignment_value(v, sq, fd) <= queue@[t].estimate as int,
        decreases frontier_measure(queue@, n as int),
    {
        let ghost q0 = queue@;
        let ghost top0 = top as int;
        let ghost lm0 = local_max.value as int;
        let node = queue.remove(top);
        let ghost q1 = queue@;
        proof {
            lemma_measure_remove(q0, n as int, top as int);
        }
        proof {
            assert(node.contained@.len() < n);
            assert forall|t: int| 0 <= t < queue@.len() implies node_wf(
                #[trigger] queue@[t],
                v,
                w,
                kk,
                sq,
            ) && (queue@[t].contained@.len() == n ==> queue@[t].estimate <= local_max.value) by {
                if t < top as int {
                } else {
                }
            }
        }
        let ghost d = node.contained@.len() as int;
        let ghost mut gnt: Option<Node> = Option::None;
        let next_true = build_next_node(&node, &opt_sequence, true, &problem);
        if let Some(nt) = next_true {
            if local_max.value < nt.value {
                local_max = clone_node(&nt);
            }
            proof {
                lemma_measure_push(queue@, n as int, nt);
                gnt = Option::Some(nt);
            }
            queue.push(nt);
        }
        let ghost mut gnf: Option<Node> = Option::None;
        let next_false = build_next_node(&node, &opt_sequence, false, &problem);
        if let Some(nf) = next_false {
            if local_max.value < nf.value {
                local_max = clone_node(&nf);
            }
            proof {
                lemma_measure_push(queue@, n as int, nf);
                gnf = Option::Some(nf);
            }
            queue.push(nf);
        }
        top = peek_max(&queue);
        proof {
            assert(lm0 <= local_max.value as int);
            assert forall|fd: Seq<bool>|
                fd.len() == n && #[trigger] assignment_weight(w, sq, fd) <= kk implies (
            assignment_value(v, sq, fd) <= local_max.value as int || exists|t: int|
                0 <= t < queue@.len() && #[trigger] extends(fd, queue@[t].contained@)
                    && assignment_value(v, sq, fd) <= queue@[t].estimate as int) by {
                if assignment_value(v, sq, fd) <= lm0 {
                } else {
                    let t0 = choose|t0: int|
                        0 <= t0 < q0.len() && #[trigger] extends(fd, q0[t0].contained@)
                            && assignment_value(v, sq, fd) <= q0[t0].estimate as int;
                    if t0 == top0 {
                        assert(q0[t0] == node);
                        assert(fd.take(d) =~= node.contained@);
                        if fd[d] {
                            assert(extends(fd, node.contained@.push(true)));
                            match gnt {
                                Option::Some(ntv) => {
                                    assert(queue@[q1.len() as int] == ntv);
                                    assert(extends(fd, ntv.contained@));
                                    assert(assignment_value(v, sq, fd) <= ntv.estimate as int);
                                },
                                Option::None => {
                                    // taking the next item does not fit, so fd is infeasible
                                    assert(w[sq[d] as int] > node.room);
                                    lemma_sel_split(w, sq, fd, d);
                                    lemma_sel_tail_nonneg(w, sq, fd, d + 1);
                                    assert(sel_tail(w, sq, fd, d) >= w[sq[d] as int]);
                                    assert(false);
                                },
                            }
                        } else {
                            assert(extends(fd, node.contained@.push(false)));
                            match gnf {
                                Option::Some(nfv) => {
                                    let pos = q1.len() as int + if gnt is Some {
                                        1int
                                    } else {
                                        0int
                                    };
                                    assert(queue@[pos] == nfv);
                                    assert(extends(fd, nfv.contained@));
                                    assert(assignment_value(v, sq, fd) <= nfv.estimate as int);
                                },
                                Option::None => {
                                    assert(false);
                                },
                            }
                        }
                    } else {
                        let t1 = if t0 < top0 {
                            t0
                        } else {
                            t0 - 1
                        };
                        assert(queue@[t1] == q0[t0]);
                    }
                }
            }
        }
        proof {
            let e = (n as int - d - 1) as nat;
            lemma_pow3_positive(e);
            assert((n as int - d) as nat == e + 1);
            assert(pow3((e + 1) as nat) == 3 * pow3(e));
            lemma_measure_nonneg(queue@, n as int);
            assert(frontier_measure(queue@, n as int) < frontier_measure(q0, n as int));
        }
    }

    let ghost best = local_max.value as int;
    proof {
        assert forall|fd: Seq<bool>|
            fd.len() == n && #[trigger] assignment_weight(w, sq, fd) <= kk implies
            assignment_value(v, sq, fd) <= best by {
            if !(assignment_value(v, sq, fd) <= local_max.value as int) {
                let t = choose|t: int|
                    0 <= t < queue@.len() && #[trigger] extends(fd, queue@[t].contained@)
                        && assignment_value(v, sq, fd) <= queue@[t].estimate as int;
                assert(queue@[t].estimate <= queue@[top as int].estimate);
            }
        }
        let c = crate::model::lemma_optimal_achievable(v, w, kk, n as int - 1);
        let fd = Seq::new(n as nat, |i: int| c[sq[i] as int]);
        assert forall|x: int| 0 <= x < n implies mark(n as int, sq, fd)[x] == c[x] by {
            if mark(n as int, sq, fd)[x] {
                let i = choose|i: int| 0 <= i < fd.len() && fd[i] && sq[i] as int == x;
                assert(c[x]);
            }
            if c[x] {
                assert(appears(sq, x));
                let i = choose|i: int| 0 <= i < sq.len() && #[trigger] (sq[i] as int) == x;
                assert(fd[i]);
                assert(mark(n as int, sq, fd)[x]);
            }
        }
        assert(mark(n as int, sq, fd) =~= c);
        assert(assignment_weight(w, sq, fd) <= kk);
        assert(optimal(v, w, kk, n as int - 1) <= best);
    }
    while local_max.contained.len() < n
        invariant
            seq_wf(sq, n as int),
            n == v.len(),
            node_wf(local_max, v, w, kk, sq),
            local_max.value as int == best,
        decreases n - local_max.contained@.len(),
    {
        proof {
            lemma_mark_push(n as int, sq, local_max.contained@, false);
        }
        local_max.contained.push(false);
    }

    let ghost dec = local_max.contained@;
    let mut value: i64 = 0;
    let mut contained: Vec<bool> = Vec::new();
    let mut t: usize = 0;
    while t < n
        invariant
            t <= n,
            contained@.len() == t,
            forall|q: int| 0 <= q < t ==> !contained@[q],
        decreases n - t,
    {
        contained.push(false);
        t += 1;
    }
    proof {
        lemma_mark_none(n as int, sq, dec.take(0));
        assert(contained@ =~= mark(n as int, sq, dec.take(0)));
        lemma_sum_sel_all_false(v, contained@, n as int);
    }
    let mut i: usize = 0;
    while i < n
        invariant
            problem.wf(),
            v == problem.v@,
            w == problem.w@,
            n == v.len(),
            seq_wf(sq, n as int),
            sq == opt_sequence@,
            i <= n,
            dec == local_max.contained@,
            dec.len() == n,
            contained@.len() == n,
            contained@ == mark(n as int, sq, dec.take(i as int)),
            value as int == sum_sel(v, contained@, n as int),
        decreases n - i,
    {
        proof {
            assert(dec.take(i as int).len() == i);
            lemma_mark_push(n as int, sq, dec.take(i as int), dec[i as int]);
            assert(dec.take(i as int).push(dec[i as int]) =~= dec.take(i as int + 1));
            lemma_sum_sel_update(
                v,
                mark(n as int, sq, dec.take(i as int)),
                n as int,
                sq[i as int] as int,
                true,
            );
            lemma_sum_sel_le_prefix(v, mark(n as int, sq, dec.take(i as int + 1)), n as int);
        }
        if local_max.contained[i] {
            let pos = opt_sequence[i];
            value += problem.v[pos];
            contained.set(pos, true);
        }
        i += 1;
    }
    proof {
        assert(dec.take(n as int) =~= dec);
        assert(value == local_max.value);
        lemma_sum_sel_nonneg(w, mark(n as int, sq, dec), n as int);
        lemma_feasible_value_le_optimal(v, w, kk, contained@);
        assert(value as int == best);
        assert(value as int == optimal(v, w, kk, n as int - 1));
    }
    Solution { value, contained }
}

} // verus!
