//! What holds of every result of the solver.
use vstd::prelude::*;

use crate::solver::{
    all_free, free_count, lemma_free_ratio_positive, free_count_upto, free_ratio, free_ratio_upto, limits_wf, lock_of,
    locked_total, locked_upto, pass, relax, scaled_size, solve, CellLimit, CellSizes, Relaxed,
};

verus! {

/// Sum of the minimum sizes of the free cells among the first `k`.
pub open spec fn free_min_upto(limits: Seq<CellLimit>, locks: Seq<Option<u32>>, k: int) -> int
    decreases k,
{
    if k <= 0 {
        0
    } else {
        free_min_upto(limits, locks, k - 1) + if locks[k - 1] is None {
            limits[k - 1].min_size as int
        } else {
            0
        }
    }
}

/// Sum of the minimum sizes of all cells.
pub open spec fn min_total(limits: Seq<CellLimit>) -> int {
    free_min_upto(limits, all_free(limits.len() as int), limits.len() as int)
}

/// Sum of the ratios of all cells.
pub open spec fn ratio_total(limits: Seq<CellLimit>) -> int {
    free_ratio(limits, all_free(limits.len() as int))
}

/// Sum of the first `k` of the scaled sizes.
pub open spec fn sizes_upto(s: Seq<u128>, k: int) -> int
    decreases k,
{
    if k <= 0 {
        0
    } else {
        sizes_upto(s, k - 1) + s[k - 1]
    }
}

pub open spec fn sizes_total(s: Seq<u128>) -> int {
    sizes_upto(s, s.len() as int)
}

/// No maximum can bind: each one is at least the whole extent and the minimum.
pub open spec fn no_binding_max(limits: Seq<CellLimit>, total: int) -> bool {
    forall|i: int|
        0 <= i < limits.len() && (#[trigger] limits[i]).max_size is Some ==> {
            let m = limits[i].max_size->0;
            m >= total && m >= limits[i].min_size
        }
}

/// Each maximum is at least its minimum.
pub open spec fn bounds_ordered(limits: Seq<CellLimit>) -> bool {
    forall|i: int|
        0 <= i < limits.len() && (#[trigger] limits[i]).max_size is Some ==> limits[i].max_size->0
            >= limits[i].min_size
}

/// `b` is one of the bounds of `l`.
pub open spec fn is_bound(l: CellLimit, b: u32) -> bool {
    b == l.min_size || l.max_size == Some(b)
}

/// Every locked cell sits at one of its bounds.
pub open spec fn locked_at_bounds(limits: Seq<CellLimit>, locks: Seq<Option<u32>>) -> bool {
    forall|i: int|
        0 <= i < locks.len() && (#[trigger] locks[i]) is Some ==> is_bound(
            limits[i],
            locks[i]->0,
        )
}

/// Every locked cell sits at its minimum.
pub open spec fn locked_at_min(limits: Seq<CellLimit>, locks: Seq<Option<u32>>) -> bool {
    forall|i: int|
        0 <= i < locks.len() && (#[trigger] locks[i]) is Some ==> locks[i]->0 == limits[i].min_size
}

/// `next` keeps every lock of `locks`.
pub open spec fn extends(locks: Seq<Option<u32>>, next: Seq<Option<u32>>) -> bool {
    &&& next.len() == locks.len()
    &&& forall|i: int| 0 <= i < locks.len() && (#[trigger] locks[i]) is Some ==> next[i] == locks[i]
}

proof fn lemma_free_ratio_nonneg(limits: Seq<CellLimit>, locks: Seq<Option<u32>>, k: int)
    requires
        0 <= k <= locks.len(),
    ensures
        0 <= free_ratio_upto(limits, locks, k),
        0 <= free_min_upto(limits, locks, k),
        0 <= locked_upto(locks, k),
    decreases k,
{
    if k > 0 {
        lemma_free_ratio_nonneg(limits, locks, k - 1);
    }
}

/// A free cell's ratio is at most the free ratio sum.
proof fn lemma_ratio_le_free_ratio(
    limits: Seq<CellLimit>,
    locks: Seq<Option<u32>>,
    i: int,
    k: int,
)
    requires
        0 <= i < k <= locks.len(),
        locks[i] is None,
    ensures
        limits[i].ratio <= free_ratio_upto(limits, locks, k),
    decreases k,
{
    lemma_free_ratio_nonneg(limits, locks, k - 1);
    if i < k - 1 {
        lemma_ratio_le_free_ratio(limits, locks, i, k - 1);
    }
}

proof fn lemma_count_nonneg(locks: Seq<Option<u32>>, k: int)
    requires
        0 <= k <= locks.len(),
    ensures
        0 <= free_count_upto(locks, k) <= k,
    decreases k,
{
    if k > 0 {
        lemma_count_nonneg(locks, k - 1);
    }
}

/// Locking cells never frees one: the free count falls by the cells newly
/// locked, and where it does not fall nothing changed.
proof fn lemma_extension_count(locks: Seq<Option<u32>>, next: Seq<Option<u32>>, k: int)
    requires
        extends(locks, next),
        0 <= k <= locks.len(),
    ensures
        free_count_upto(next, k) <= free_count_upto(locks, k),
        free_count_upto(next, k) == free_count_upto(locks, k) ==> forall|i: int|
            0 <= i < k ==> next[i] == locks[i],
    decreases k,
{
    if k > 0 {
        lemma_extension_count(locks, next, k - 1);
        if locks[k - 1] is Some {
            assert(next[k - 1] == locks[k - 1]);
        }
    }
}

/// Where every newly locked cell takes a positive bound, a pass that locks a
/// cell takes a positive amount.
proof fn lemma_taken_positive(locks: Seq<Option<u32>>, next: Seq<Option<u32>>, k: int)
    requires
        extends(locks, next),
        0 <= k <= locks.len(),
        forall|i: int|
            0 <= i < k && locks[i] is None && (#[trigger] next[i]) is Some ==> next[i]->0 > 0,
    ensures
        locked_upto(next, k) - locked_upto(locks, k) >= 0,
        free_count_upto(next, k) < free_count_upto(locks, k) ==> locked_upto(next, k)
            - locked_upto(locks, k) > 0,
    decreases k,
{
    if k > 0 {
        lemma_taken_positive(locks, next, k - 1);
        lemma_extension_count(locks, next, k - 1);
        if locks[k - 1] is Some {
            assert(next[k - 1] == locks[k - 1]);
        }
    }
}

/// Cells newly locked at their minimum move their minimum from the free sum to
/// the locked sum.
proof fn lemma_min_moves(limits: Seq<CellLimit>, locks: Seq<Option<u32>>, next: Seq<Option<u32>>, k: int)
    requires
        extends(locks, next),
        0 <= k <= locks.len(),
        forall|i: int|
            0 <= i < k && locks[i] is None && (#[trigger] next[i]) is Some ==> next[i]->0
                == limits[i].min_size,
    ensures
        locked_upto(next, k) + free_min_upto(limits, next, k) == locked_upto(locks, k)
            + free_min_upto(limits, locks, k),
    decreases k,
{
    if k > 0 {
        lemma_min_moves(limits, locks, next, k - 1);
        if locks[k - 1] is Some {
            assert(next[k - 1] == locks[k - 1]);
        }
    }
}

/// Summed over free cells: shares no larger than the minimums (each
/// `t * ratio <= min * rs`) give `t * free_ratio <= rs * free_min`.
proof fn lemma_sum_le(limits: Seq<CellLimit>, locks: Seq<Option<u32>>, t: int, rs: int, k: int)
    requires
        0 <= k <= locks.len(),
        forall|i: int|
            0 <= i < k && (#[trigger] locks[i]) is None ==> t * limits[i].ratio <= limits[i].min_size
                * rs,
    ensures
        t * free_ratio_upto(limits, locks, k) <= rs * free_min_upto(limits, locks, k),
    decreases k,
{
    if k > 0 {
        lemma_sum_le(limits, locks, t, rs, k - 1);
        let a = free_ratio_upto(limits, locks, k - 1);
        let b = free_min_upto(limits, locks, k - 1);
        if locks[k - 1] is None {
            let r = limits[k - 1].ratio as int;
            let m = limits[k - 1].min_size as int;
            assert(t * (a + r) <= rs * (b + m)) by (nonlinear_arith)
                requires t * a <= rs * b, t * r <= m * rs;
        }
    }
}

/// Summed over free cells: shares above the minimums give
/// `t * free_ratio > rs * free_min` as soon as one cell is free.
proof fn lemma_sum_gt(limits: Seq<CellLimit>, locks: Seq<Option<u32>>, t: int, rs: int, k: int)
    requires
        0 <= k <= locks.len(),
        forall|i: int|
            0 <= i < k && (#[trigger] locks[i]) is None ==> t * limits[i].ratio > limits[i].min_size
                * rs,
    ensures
        t * free_ratio_upto(limits, locks, k) >= rs * free_min_upto(limits, locks, k),
        free_count_upto(locks, k) > 0 ==> t * free_ratio_upto(limits, locks, k) > rs
            * free_min_upto(limits, locks, k),
    decreases k,
{
    if k > 0 {
        lemma_sum_gt(limits, locks, t, rs, k - 1);
        let a = free_ratio_upto(limits, locks, k - 1);
        let b = free_min_upto(limits, locks, k - 1);
        if locks[k - 1] is None {
            let r = limits[k - 1].ratio as int;
            let m = limits[k - 1].min_size as int;
            assert(t * (a + r) > rs * (b + m)) by (nonlinear_arith)
                requires t * a >= rs * b, t * r > m * rs;
        }
    }
}

/// The scaled sizes of a stopped relaxation sum to the locked bounds times the
/// ratio sum, plus the remainder times the free ratios.
proof fn lemma_scaled_sum(limits: Seq<CellLimit>, r: Relaxed, s: Seq<u128>, k: int)
    requires
        0 <= k <= s.len(),
        s.len() == r.locks.len(),
        forall|i: int|
            0 <= i < s.len() ==> #[trigger] s[i] == scaled_size(limits[i], r.locks[i], r),
    ensures
        sizes_upto(s, k) == r.ratio_sum * locked_upto(r.locks, k) + r.target * free_ratio_upto(
            limits,
            r.locks,
            k,
        ),
    decreases k,
{
    if k > 0 {
        lemma_scaled_sum(limits, r, s, k - 1);
        let a = locked_upto(r.locks, k - 1);
        let b = free_ratio_upto(limits, r.locks, k - 1);
        let rs = r.ratio_sum;
        let t = r.target;
        assert(s[k - 1] == scaled_size(limits[k - 1], r.locks[k - 1], r));
        match r.locks[k - 1] {
            Some(v) => {
                assert(rs * a + t * b + v * rs == rs * (a + v) + t * b) by (nonlinear_arith);
            },
            None => {
                let q = limits[k - 1].ratio as int;
                assert(rs * a + t * b + t * q == rs * a + t * (b + q)) by (nonlinear_arith);
            },
        }
    }
}

/// What holds of a pass where no maximum binds: a free cell locks exactly when
/// its share is at most its minimum, and then at its minimum.
proof fn lemma_pass_no_max(limits: Seq<CellLimit>, locks: Seq<Option<u32>>, t: int, total: int)
    requires
        limits_wf(limits),
        locks.len() == limits.len(),
        no_binding_max(limits, total),
        0 <= t <= total,
        free_count(locks) > 0,
    ensures
        ({
            let rs = free_ratio(limits, locks);
            let next = pass(limits, locks, t, rs);
            &&& rs > 0
            &&& extends(locks, next)
            &&& forall|i: int|
                0 <= i < locks.len() && (#[trigger] locks[i]) is None ==> (next[i] is Some
                    <==> t * limits[i].ratio <= limits[i].min_size * rs)
            &&& forall|i: int|
                0 <= i < locks.len() && locks[i] is None && (#[trigger] next[i]) is Some
                    ==> next[i]->0 == limits[i].min_size
        }),
{
    let n = locks.len() as int;
    let rs = free_ratio(limits, locks);
    let next = pass(limits, locks, t, rs);
    lemma_free_ratio_positive(limits, locks, n);
    assert forall|i: int| 0 <= i < n && (#[trigger] locks[i]) is None implies (next[i] is Some
        <==> t * limits[i].ratio <= limits[i].min_size * rs) && (next[i] is Some ==> next[i]->0
        == limits[i].min_size) by {
        let l = limits[i];
        lemma_ratio_le_free_ratio(limits, locks, i, n);
        if l.max_size is Some {
            let m = l.max_size->0;
            assert(t * l.ratio <= m * rs) by (nonlinear_arith)
                requires 0 <= t <= total, total <= m, 0 <= l.ratio <= rs;
        }
    }
}

/// Invariant of the relaxation for the sum law: locks at minimums, a remainder
/// that is the extent less the locked bounds, and no less than the free
/// minimums.
proof fn lemma_relax_sum(limits: Seq<CellLimit>, locks: Seq<Option<u32>>, t: int, total: int)
    requires
        limits_wf(limits),
        locks.len() == limits.len(),
        no_binding_max(limits, total),
        locked_at_min(limits, locks),
        free_count(locks) > 0,
        0 <= t <= total,
        t == total - locked_total(locks),
        t >= free_min_upto(limits, locks, locks.len() as int),
    ensures
        ({
            let r = relax(limits, locks, t);
            &&& r.locks.len() == limits.len()
            &&& r.ratio_sum * locked_total(r.locks) + r.target * free_ratio(limits, r.locks) == total
                * r.ratio_sum
        }),
    decreases free_count(locks),
{
    let n = locks.len() as int;
    let rs = free_ratio(limits, locks);
    let next = pass(limits, locks, t, rs);
    let taken = locked_total(next) - locked_total(locks);
    lemma_pass_no_max(limits, locks, t, total);
    lemma_min_moves(limits, locks, next, n);
    lemma_extension_count(locks, next, n);
    lemma_free_ratio_nonneg(limits, next, n);
    lemma_count_nonneg(next, n);
    let fm = free_min_upto(limits, locks, n);
    let fm2 = free_min_upto(limits, next, n);
    assert(taken == fm - fm2);
    assert(locked_at_min(limits, next));
    if 0 < free_count(next) < free_count(locks) && taken != 0 {
        assert(t - taken >= fm2);
        lemma_relax_sum(limits, next, t - taken, total);
    } else {
        let rs2 = free_ratio(limits, next);
        // the ratio of the cells locked in this pass, times the remainder,
        // equals the bounds they took times the ratio sum
        let lt = locked_total(locks);
        if free_count(next) == free_count(locks) {
            assert(next =~= locks);
            assert(rs * (total - t) + t * rs == total * rs) by (nonlinear_arith);
        } else if free_count(next) == 0 {
            lemma_no_free_no_min(limits, next, n);
            assert forall|i: int| 0 <= i < n && (#[trigger] locks[i]) is None implies t
                * limits[i].ratio <= limits[i].min_size * rs by {
                assert(next[i] is Some);
            }
            lemma_sum_le(limits, locks, t, rs, n);
            assert(t * rs <= rs * fm);
            assert(t <= fm) by (nonlinear_arith)
                requires t * rs <= rs * fm, rs > 0;
            assert(locked_total(next) == total);
            assert(rs * total + t * 0 == total * rs) by (nonlinear_arith);
        } else {
            // taken == 0 with a new lock: the remainder was zero
            if t > 0 {
                assert forall|i: int|
                    0 <= i < n && locks[i] is None && (#[trigger] next[i]) is Some implies next[i]->0
                    > 0 by {
                    let l = limits[i];
                    assert(l.min_size > 0) by (nonlinear_arith)
                        requires t * l.ratio <= l.min_size * rs, t > 0, l.ratio > 0, rs > 0;
                }
                lemma_taken_positive(locks, next, n);
            }
            assert(t == 0);
            assert(locked_total(next) == total);
            assert(rs * total + 0 * rs2 == total * rs) by (nonlinear_arith);
        }
    }
}

proof fn lemma_none_counts(locks: Seq<Option<u32>>, i: int, k: int)
    requires
        0 <= i < k <= locks.len(),
        locks[i] is None,
    ensures
        free_count_upto(locks, k) > 0,
    decreases k,
{
    lemma_count_nonneg(locks, k - 1);
    if i < k - 1 {
        lemma_none_counts(locks, i, k - 1);
    }
}

proof fn lemma_no_free_no_min(limits: Seq<CellLimit>, locks: Seq<Option<u32>>, k: int)
    requires
        0 <= k <= locks.len(),
        free_count_upto(locks, k) == 0,
    ensures
        free_min_upto(limits, locks, k) == 0,
        free_ratio_upto(limits, locks, k) == 0,
        forall|i: int| 0 <= i < k ==> (#[trigger] locks[i]) is Some,
    decreases k,
{
    if k > 0 {
        lemma_count_nonneg(locks, k - 1);
        lemma_no_free_no_min(limits, locks, k - 1);
    }
}

proof fn lemma_all_free_sums(limits: Seq<CellLimit>, k: int)
    requires
        0 <= k <= limits.len(),
    ensures
        free_count_upto(all_free(limits.len() as int), k) == k,
        locked_upto(all_free(limits.len() as int), k) == 0,
    decreases k,
{
    if k > 0 {
        lemma_all_free_sums(limits, k - 1);
    }
}

proof fn lemma_all_locked_count(locks: Seq<Option<u32>>, k: int)
    requires
        0 <= k <= locks.len(),
        forall|i: int| 0 <= i < k ==> (#[trigger] locks[i]) is Some,
    ensures
        free_count_upto(locks, k) == 0,
    decreases k,
{
    if k > 0 {
        lemma_all_locked_count(locks, k - 1);
    }
}

/// Where the relaxation stops: free cells are those whose last share lies
/// within their bounds, locked ones sit at a bound, and the last pass shared a
/// remainder of at least zero among a positive ratio sum.
proof fn lemma_relax_stops_within(limits: Seq<CellLimit>, locks: Seq<Option<u32>>, t: int)
    requires
        limits_wf(limits),
        locks.len() == limits.len(),
        locked_at_bounds(limits, locks),
        free_count(locks) > 0,
        0 <= t,
    ensures
        ({
            let r = relax(limits, locks, t);
            &&& r.locks.len() == limits.len()
            &&& r.ratio_sum > 0
            &&& 0 <= r.target <= t
            &&& locked_at_bounds(limits, r.locks)
            &&& forall|i: int|
                0 <= i < limits.len() && (#[trigger] r.locks[i]) is None ==> limits[i].ratio
                    <= r.ratio_sum
            &&& forall|i: int|
                0 <= i < limits.len() && (#[trigger] r.locks[i]) is None ==> lock_of(
                    limits[i],
                    r.target,
                    r.ratio_sum,
                ) is None
        }),
    decreases free_count(locks),
{
    let n = locks.len() as int;
    let rs = free_ratio(limits, locks);
    let next = pass(limits, locks, t, rs);
    let taken = locked_total(next) - locked_total(locks);
    lemma_free_ratio_positive(limits, locks, n);
    assert(locked_at_bounds(limits, next));
    lemma_locked_grows(locks, next, n);
    assert forall|i: int| 0 <= i < n && (#[trigger] next[i]) is None implies limits[i].ratio
        <= rs by {
        lemma_ratio_le_free_ratio(limits, locks, i, n);
    }
    if 0 < free_count(next) < free_count(locks) && taken != 0 {
        lemma_relax_stops_within(limits, next, if t - taken > 0 { t - taken } else { 0 });
    }
}

proof fn lemma_locked_grows(locks: Seq<Option<u32>>, next: Seq<Option<u32>>, k: int)
    requires
        extends(locks, next),
        0 <= k <= locks.len(),
    ensures
        locked_upto(locks, k) <= locked_upto(next, k),
    decreases k,
{
    if k > 0 {
        lemma_locked_grows(locks, next, k - 1);
        if locks[k - 1] is Some {
            assert(next[k - 1] == locks[k - 1]);
        }
    }
}

/// The solver's common denominator is positive.
pub proof fn lemma_sizes_fit(limits: Seq<CellLimit>, total: int, r: CellSizes)
    requires
        limits_wf(limits),
        0 <= total,
        r.solves(limits, total),
    ensures
        r.scale > 0,
{
    let n = limits.len() as int;
    if n > 0 {
        lemma_all_free_sums(limits, n);
        lemma_relax_stops_within(limits, all_free(n), total);
    }
}

/// Invariant of the relaxation for the floor law: locks at minimums, and a
/// remainder that is zero or short of the free minimums.
proof fn lemma_relax_floor(limits: Seq<CellLimit>, locks: Seq<Option<u32>>, t: int, total: int)
    requires
        limits_wf(limits),
        locks.len() == limits.len(),
        no_binding_max(limits, total),
        locked_at_min(limits, locks),
        free_count(locks) > 0,
        0 <= t <= total,
        t == 0 || t < free_min_upto(limits, locks, locks.len() as int),
    ensures
        ({
            let r = relax(limits, locks, t);
            &&& r.locks.len() == limits.len()
            &&& forall|i: int|
                0 <= i < limits.len() ==> #[trigger] r.locks[i] == Some(limits[i].min_size)
        }),
    decreases free_count(locks),
{
    let n = locks.len() as int;
    let rs = free_ratio(limits, locks);
    let next = pass(limits, locks, t, rs);
    let taken = locked_total(next) - locked_total(locks);
    lemma_pass_no_max(limits, locks, t, total);
    lemma_min_moves(limits, locks, next, n);
    lemma_extension_count(locks, next, n);
    lemma_free_ratio_nonneg(limits, next, n);
    let fm = free_min_upto(limits, locks, n);
    assert(locked_at_min(limits, next));
    if t == 0 {
        assert forall|i: int| 0 <= i < n implies (#[trigger] next[i]) is Some by {
            if locks[i] is None {
                assert(0 * limits[i].ratio <= limits[i].min_size * rs) by (nonlinear_arith)
                    requires rs > 0;
            }
        }
        lemma_all_locked_count(next, n);
    } else {
        assert(free_count(next) < free_count(locks)) by {
            if free_count(next) == free_count(locks) {
                assert forall|i: int| 0 <= i < n && (#[trigger] locks[i]) is None implies t
                    * limits[i].ratio > limits[i].min_size * rs by {
                    assert(next[i] == locks[i]);
                }
                lemma_sum_gt(limits, locks, t, rs, n);
                assert(t * rs > rs * fm);
                assert(t > fm) by (nonlinear_arith)
                    requires t * rs > rs * fm, rs > 0;
            }
        }
        assert forall|i: int|
            0 <= i < n && locks[i] is None && (#[trigger] next[i]) is Some implies next[i]->0
            > 0 by {
            let l = limits[i];
            assert(l.min_size > 0) by (nonlinear_arith)
                requires t * l.ratio <= l.min_size * rs, t > 0, l.ratio > 0, rs > 0;
        }
        lemma_taken_positive(locks, next, n);
        if free_count(next) > 0 {
            lemma_relax_floor(limits, next, if t - taken > 0 { t - taken } else { 0 }, total);
        } else {
            lemma_count_nonneg(next, n);
            lemma_no_free_no_min(limits, next, n);
        }
    }
}

/// Every size lies within its cell's bounds: at least the minimum, and at most
/// the maximum where there is one, given that each maximum is at least its
/// minimum.
pub proof fn lemma_sizes_within_bounds(limits: Seq<CellLimit>, total: int, r: CellSizes)
    requires
        limits_wf(limits),
        bounds_ordered(limits),
        0 <= total,
        r.solves(limits, total),
    ensures
        forall|i: int|
            0 <= i < limits.len() ==> {
                &&& #[trigger] r.sizes@[i] >= limits[i].min_size * r.scale
                &&& limits[i].max_size is Some ==> r.sizes@[i] <= limits[i].max_size->0 * r.scale
            },
{
    let n = limits.len() as int;
    if n > 0 {
        lemma_all_free_sums(limits, n);
        lemma_relax_stops_within(limits, all_free(n), total);
        let s = solve(limits, total);
        assert forall|i: int| 0 <= i < n implies {
            &&& #[trigger] r.sizes@[i] >= limits[i].min_size * r.scale
            &&& limits[i].max_size is Some ==> r.sizes@[i] <= limits[i].max_size->0 * r.scale
        } by {
            let l = limits[i];
            let rs = s.ratio_sum;
            assert(r.sizes@[i] == scaled_size(l, s.locks[i], s));
            if s.locks[i] is Some {
                let b = s.locks[i]->0;
                assert(is_bound(l, b));
                assert(b * rs >= l.min_size * rs) by (nonlinear_arith)
                    requires b >= l.min_size, rs > 0;
                if l.max_size is Some {
                    let m = l.max_size->0;
                    assert(b * rs <= m * rs) by (nonlinear_arith)
                        requires b <= m, rs > 0;
                }
            } else {
                assert(lock_of(l, s.target, rs) is None);
            }
        }
    }
}

/// Where the minimums fit in the extent and no maximum can bind, the sizes of
/// one or more cells add up to exactly the extent.
pub proof fn lemma_sizes_fill_extent(limits: Seq<CellLimit>, total: int, r: CellSizes)
    requires
        limits_wf(limits),
        limits.len() > 0,
        0 <= min_total(limits) <= total,
        no_binding_max(limits, total),
        r.solves(limits, total),
    ensures
        sizes_total(r.sizes@) == total * r.scale,
{
    let n = limits.len() as int;
    let locks = all_free(n);
    lemma_all_free_sums(limits, n);
    lemma_relax_sum(limits, locks, total, total);
    let s = solve(limits, total);
    lemma_scaled_sum(limits, s, r.sizes@, n);
}

/// Sum of the first `k` sizes of the solution, each times the solver's scale.
pub open spec fn solved_upto(limits: Seq<CellLimit>, total: int, k: int) -> int
    decreases k,
{
    if k <= 0 {
        0
    } else {
        solved_upto(limits, total, k - 1) + scaled_size(
            limits[k - 1],
            solve(limits, total).locks[k - 1],
            solve(limits, total),
        )
    }
}

proof fn lemma_solved_split(limits: Seq<CellLimit>, total: int, k: int)
    requires
        0 <= k <= limits.len(),
    ensures
        ({
            let r = solve(limits, total);
            solved_upto(limits, total, k) == r.ratio_sum * locked_upto(r.locks, k) + r.target
                * free_ratio_upto(limits, r.locks, k)
        }),
    decreases k,
{
    if k > 0 {
        lemma_solved_split(limits, total, k - 1);
        let r = solve(limits, total);
        let a = locked_upto(r.locks, k - 1);
        let b = free_ratio_upto(limits, r.locks, k - 1);
        let rs = r.ratio_sum;
        let t = r.target;
        match r.locks[k - 1] {
            Some(v) => {
                assert(rs * a + t * b + v * rs == rs * (a + v) + t * b) by (nonlinear_arith);
            },
            None => {
                let q = limits[k - 1].ratio as int;
                assert(rs * a + t * b + t * q == rs * a + t * (b + q)) by (nonlinear_arith);
            },
        }
    }
}

/// Where the minimums fit in the extent and no maximum can bind, the solved
/// sizes of one or more cells add up to exactly the extent (each size taken
/// times the solver's scale).
pub proof fn lemma_solution_fills_extent(limits: Seq<CellLimit>, total: int)
    requires
        limits_wf(limits),
        limits.len() > 0,
        min_total(limits) <= total,
        no_binding_max(limits, total),
    ensures
        solved_upto(limits, total, limits.len() as int) == total * solve(limits, total).ratio_sum,
{
    let n = limits.len() as int;
    lemma_all_free_sums(limits, n);
    lemma_free_ratio_nonneg(limits, all_free(n), n);
    lemma_relax_sum(limits, all_free(n), total, total);
    lemma_solved_split(limits, total, n);
}

/// Where the minimums overflow the extent and no maximum can bind, every cell
/// is sized at exactly its minimum.
pub proof fn lemma_overflow_sizes_at_min(limits: Seq<CellLimit>, total: int, r: CellSizes)
    requires
        limits_wf(limits),
        0 <= total < min_total(limits),
        no_binding_max(limits, total),
        r.solves(limits, total),
    ensures
        forall|i: int|
            0 <= i < limits.len() ==> #[trigger] r.sizes@[i] == limits[i].min_size * r.scale,
{
    let n = limits.len() as int;
    if n > 0 {
        let locks = all_free(n);
        lemma_all_free_sums(limits, n);
        lemma_relax_floor(limits, locks, total, total);
        let s = solve(limits, total);
        assert forall|i: int| 0 <= i < n implies #[trigger] r.sizes@[i] == limits[i].min_size
            * r.scale by {
            assert(r.sizes@[i] == scaled_size(limits[i], s.locks[i], s));
        }
    }
}

/// With every minimum at zero and no maximum that can bind, each size is
/// exactly its ratio's part of the extent: `size / scale == total * ratio / ratio_total`.
pub proof fn lemma_sizes_proportional(limits: Seq<CellLimit>, total: int, r: CellSizes)
    requires
        limits_wf(limits),
        0 <= total,
        forall|i: int| 0 <= i < limits.len() ==> (#[trigger] limits[i]).min_size == 0,
        no_binding_max(limits, total),
        r.solves(limits, total),
    ensures
        forall|i: int|
            0 <= i < limits.len() ==> #[trigger] r.sizes@[i] * ratio_total(limits) == total
                * limits[i].ratio * r.scale,
{
    let n = limits.len() as int;
    if n > 0 {
        let locks = all_free(n);
        lemma_all_free_sums(limits, n);
        lemma_pass_no_max(limits, locks, total, total);
        let rs = free_ratio(limits, locks);
        let next = pass(limits, locks, total, rs);
        let s = solve(limits, total);
        if total > 0 {
            assert forall|i: int| 0 <= i < n implies #[trigger] next[i] is None by {
                let q = limits[i].ratio;
                assert(total * q > 0) by (nonlinear_arith)
                    requires total > 0, q > 0;
            }
            assert(next =~= locks);
            assert forall|i: int| 0 <= i < n implies #[trigger] r.sizes@[i] * ratio_total(limits)
                == total * limits[i].ratio * r.scale by {
                assert(r.sizes@[i] == scaled_size(limits[i], s.locks[i], s));
            }
        } else {
            assert forall|i: int| 0 <= i < n implies #[trigger] next[i] is Some by {
                assert(0 * limits[i].ratio <= limits[i].min_size * rs);
            }
            lemma_all_locked_count(next, n);
            assert forall|i: int| 0 <= i < n implies #[trigger] r.sizes@[i] * ratio_total(limits)
                == total * limits[i].ratio * r.scale by {
                assert(r.sizes@[i] == scaled_size(limits[i], s.locks[i], s));
                assert(s.locks[i] == Some(0u32));
            }
        }
    }
}

} // verus!
