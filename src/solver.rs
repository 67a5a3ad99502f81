//! The constraint solver that shares a ribbon's extent among its cells.
//!
//! Every free cell takes a share of what is left in proportion to its ratio.
//! A cell whose share falls to its minimum, or rises above its maximum, is
//! locked at that bound and leaves the pool; what it took or gave back is shared
//! again among the cells still free, in passes, until a pass locks no new cell
//! or leaves the remainder unchanged. All cells free at the start of a pass are
//! judged against that pass's remainder and ratio sum, so cells that reach a
//! bound in one pass lock together.
//!
//! Bounds and extent are whole units and the result is exact: each size is a rational
//! number, given over one common denominator.
use vstd::prelude::*;

use crate::geometry::ContentRatio;

verus! {

/// How one cell competes for space along a ribbon's main axis, and how much of
/// its area the content takes when the ribbon stacks its cells.
#[derive(Clone, Copy, Debug, PartialEq, Eq, Structural)]
pub struct CellLimit {
    pub ratio: u32,
    pub min_size: u32,
    pub max_size: Option<u32>,
    pub content_ratio: ContentRatio,
}

impl CellLimit {
    pub open spec fn wf(&self) -> bool {
        self.ratio > 0
    }

    /// A limit with the given ratio and bounds; content fills the whole cell
    /// unless a content ratio is given.
    pub fn new(
        ratio: u32,
        min_size: u32,
        max_size: Option<u32>,
        content_ratio: Option<ContentRatio>,
    ) -> (r: CellLimit)
        ensures
            r.ratio == ratio,
            r.min_size == min_size,
            r.max_size == max_size,
            content_ratio is Some ==> r.content_ratio == content_ratio->0,
            content_ratio is None ==> r.content_ratio == ContentRatio::full_spec(),
    {
        let content_ratio = match content_ratio {
            Some(c) => c,
            None => ContentRatio::full(),
        };
        CellLimit { ratio, min_size, max_size, content_ratio }
    }

    /// Pins the cell at exactly `size`.
    pub fn set_size(&mut self, size: u32)
        ensures
            final(self).min_size == size,
            final(self).max_size == Some(size),
            final(self).ratio == old(self).ratio,
            final(self).content_ratio == old(self).content_ratio,
    {
        self.min_size = size;
        self.max_size = Some(size);
    }
}

impl Default for CellLimit {
    fn default() -> (r: CellLimit)
        ensures
            r.ratio == 1,
            r.min_size == 0,
            r.max_size is None,
            r.content_ratio == ContentRatio::full_spec(),
    {
        CellLimit { ratio: 1, min_size: 0, max_size: None, content_ratio: ContentRatio::full() }
    }
}

/// The sizes the solver gives: cell `i` has size `sizes[i] / scale`.
pub struct CellSizes {
    pub scale: u64,
    pub sizes: Vec<u128>,
}

/// Where the relaxation stops: the bound at which each cell is locked (`None`
/// for a cell still free), and the remainder and the ratio sum of the free
/// cells that the last pass shared out.
pub ghost struct Relaxed {
    pub locks: Seq<Option<u32>>,
    pub target: int,
    pub ratio_sum: int,
}

/// The bound at which a free cell is locked in a pass that shares `t` among
/// free cells whose ratios sum to `rs`, or `None` when its share
/// `t * ratio / rs` lies above its minimum and not above its maximum.
pub open spec fn lock_of(l: CellLimit, t: int, rs: int) -> Option<u32> {
    if t * l.ratio <= l.min_size * rs {
        match l.max_size {
            Some(m) => if l.min_size > m { Some(m) } else { Some(l.min_size) },
            None => Some(l.min_size),
        }
    } else {
        match l.max_size {
            Some(m) => if t * l.ratio > m * rs { Some(m) } else { None },
            None => None,
        }
    }
}

/// Sum of the ratios of the free cells among the first `k`.
pub open spec fn free_ratio_upto(limits: Seq<CellLimit>, locks: Seq<Option<u32>>, k: int) -> int
    decreases k,
{
    if k <= 0 {
        0
    } else {
        free_ratio_upto(limits, locks, k - 1) + if locks[k - 1] is None {
            limits[k - 1].ratio as int
        } else {
            0
        }
    }
}

/// Sum of the bounds of the locked cells among the first `k`.
pub open spec fn locked_upto(locks: Seq<Option<u32>>, k: int) -> int
    decreases k,
{
    if k <= 0 {
        0
    } else {
        locked_upto(locks, k - 1) + match locks[k - 1] {
            Some(b) => b as int,
            None => 0,
        }
    }
}

/// Number of free cells among the first `k`.
pub open spec fn free_count_upto(locks: Seq<Option<u32>>, k: int) -> int
    decreases k,
{
    if k <= 0 {
        0
    } else {
        free_count_upto(locks, k - 1) + if locks[k - 1] is None {
            1int
        } else {
            0
        }
    }
}

pub open spec fn free_ratio(limits: Seq<CellLimit>, locks: Seq<Option<u32>>) -> int {
    free_ratio_upto(limits, locks, locks.len() as int)
}

pub open spec fn locked_total(locks: Seq<Option<u32>>) -> int {
    locked_upto(locks, locks.len() as int)
}

pub open spec fn free_count(locks: Seq<Option<u32>>) -> int {
    free_count_upto(locks, locks.len() as int)
}

/// One pass: every cell free at its start is judged against the same remainder
/// `t` and ratio sum `rs`.
pub open spec fn pass(
    limits: Seq<CellLimit>,
    locks: Seq<Option<u32>>,
    t: int,
    rs: int,
) -> Seq<Option<u32>> {
    Seq::new(
        locks.len(),
        |i: int|
            if locks[i] is None {
                lock_of(limits[i], t, rs)
            } else {
                locks[i]
            },
    )
}

/// Passes from the given locks and remainder `t` until a pass locks no new
/// cell, locks the last free one, or leaves the remainder unchanged. A
/// remainder that falls below zero goes on as zero.
pub open spec fn relax(limits: Seq<CellLimit>, locks: Seq<Option<u32>>, t: int) -> Relaxed
    decreases free_count(locks),
{
    let rs = free_ratio(limits, locks);
    let next = pass(limits, locks, t, rs);
    let taken = locked_total(next) - locked_total(locks);
    if 0 < free_count(next) < free_count(locks) && taken != 0 {
        relax(
            limits,
            next,
            if t - taken > 0 {
                t - taken
            } else {
                0
            },
        )
    } else {
        Relaxed { locks: next, target: t, ratio_sum: rs }
    }
}

pub open spec fn all_free(n: int) -> Seq<Option<u32>> {
    Seq::new(n as nat, |i: int| None::<u32>)
}

/// The relaxation of `limits` over the extent `total`, all cells free at first.
pub open spec fn solve(limits: Seq<CellLimit>, total: int) -> Relaxed {
    relax(limits, all_free(limits.len() as int), total)
}

/// Size of a cell times the ratio sum of the last pass: its bound if it is
/// locked, else its share of the last remainder.
pub open spec fn scaled_size(l: CellLimit, lock: Option<u32>, r: Relaxed) -> int {
    match lock {
        Some(b) => b * r.ratio_sum,
        None => r.target * l.ratio,
    }
}

pub open spec fn limits_wf(limits: Seq<CellLimit>) -> bool {
    forall|i: int| 0 <= i < limits.len() ==> (#[trigger] limits[i]).wf()
}

/// The common denominator of the solver's sizes.
pub open spec fn solved_scale(limits: Seq<CellLimit>, total: int) -> int {
    if limits.len() == 0 {
        1
    } else {
        solve(limits, total).ratio_sum
    }
}

impl CellSizes {
    /// `self` holds the solver's sizes for `limits` over `total`.
    pub open spec fn solves(&self, limits: Seq<CellLimit>, total: int) -> bool {
        &&& self.scale == solved_scale(limits, total)
        &&& self.sizes@.len() == limits.len()
        &&& forall|i: int|
            0 <= i < limits.len() ==> #[trigger] self.sizes@[i] == scaled_size(
                limits[i],
                solve(limits, total).locks[i],
                solve(limits, total),
            )
    }
}

proof fn lemma_upto_agree(
    limits: Seq<CellLimit>,
    a: Seq<Option<u32>>,
    b: Seq<Option<u32>>,
    k: int,
)
    requires
        0 <= k <= a.len(),
        k <= b.len(),
        forall|i: int| 0 <= i < k ==> a[i] == b[i],
    ensures
        free_ratio_upto(limits, a, k) == free_ratio_upto(limits, b, k),
        locked_upto(a, k) == locked_upto(b, k),
        free_count_upto(a, k) == free_count_upto(b, k),
    decreases k,
{
    if k > 0 {
        lemma_upto_agree(limits, a, b, k - 1);
    }
}

proof fn lemma_upto_bounds(limits: Seq<CellLimit>, locks: Seq<Option<u32>>, k: int)
    requires
        0 <= k <= locks.len(),
        k <= limits.len(),
    ensures
        0 <= free_ratio_upto(limits, locks, k) <= k * 0xffff_ffff,
        0 <= locked_upto(locks, k) <= k * 0xffff_ffff,
        0 <= free_count_upto(locks, k) <= k,
    decreases k,
{
    if k > 0 {
        lemma_upto_bounds(limits, locks, k - 1);
    }
}

/// A free cell among the first `k` makes their free ratio sum positive.
pub(crate) proof fn lemma_free_ratio_positive(limits: Seq<CellLimit>, locks: Seq<Option<u32>>, k: int)
    requires
        0 <= k <= locks.len(),
        k <= limits.len(),
        limits_wf(limits),
        free_count_upto(locks, k) > 0,
    ensures
        free_ratio_upto(limits, locks, k) > 0,
    decreases k,
{
    lemma_upto_bounds(limits, locks, k - 1);
    if free_count_upto(locks, k - 1) > 0 {
        lemma_free_ratio_positive(limits, locks, k - 1);
    } else {
        assert(limits[k - 1].wf());
    }
}

/// `lock_of` computed on bounded integers.
fn lock_cell(l: &CellLimit, t: u64, rs: u64) -> (r: Option<u32>)
    ensures
        r == lock_of(*l, t as int, rs as int),
{
    proof {
        assert(t * l.ratio <= 0xffff_ffff_ffff_ffffu64 * 0xffff_ffffu64) by (nonlinear_arith)
            requires t <= 0xffff_ffff_ffff_ffffu64, l.ratio <= 0xffff_ffffu32;
        assert(l.min_size * rs <= 0xffff_ffffu64 * 0xffff_ffff_ffff_ffffu64) by (nonlinear_arith)
            requires l.min_size <= 0xffff_ffffu32, rs <= 0xffff_ffff_ffff_ffffu64;
        if l.max_size is Some {
            let m = l.max_size->0;
            assert(m * rs <= 0xffff_ffffu64 * 0xffff_ffff_ffff_ffffu64) by (nonlinear_arith)
                requires m <= 0xffff_ffffu32, rs <= 0xffff_ffff_ffff_ffffu64;
        }
    }
    let share: u128 = t as u128 * l.ratio as u128;
    if share <= l.min_size as u128 * rs as u128 {
        match l.max_size {
            Some(m) => if l.min_size > m {
                Some(m)
            } else {
                Some(l.min_size)
            },
            None => Some(l.min_size),
        }
    } else {
        match l.max_size {
            Some(m) => if share > m as u128 * rs as u128 {
                Some(m)
            } else {
                None
            },
            None => None,
        }
    }
}

/// Shares `target` among cells with the given limits: the sizes that `solve`
/// describes, over one common denominator.
pub fn adjust_cells(limits: &Vec<CellLimit>, target: u64) -> (r: CellSizes)
    requires
        limits@.len() <= u32::MAX,
        limits_wf(limits@),
    ensures
        r.solves(limits@, target as int),
{
    let n = limits.len();
    if n == 0 {
        return CellSizes { scale: 1, sizes: Vec::new() };
    }
    let ghost lim = limits@;
    let mut locks: Vec<Option<u32>> = Vec::new();
    let mut rs: u64 = 0;
    let mut i: usize = 0;
    while i < n
        invariant
            lim == limits@,
            n == lim.len(),
            n <= u32::MAX,
            i <= n,
            locks@ == all_free(i as int),
            rs == free_ratio_upto(lim, locks@, i as int),
            rs <= i * 0xffff_ffff,
        decreases n - i,
    {
        let ghost before = locks@;
        locks.push(None);
        proof {
            lemma_upto_agree(lim, before, locks@, i as int);
            assert(locks@ =~= all_free(i + 1));
            assert(rs + limits@[i as int].ratio <= (i + 1) * 0xffff_ffff);
        }
        rs = rs + limits[i].ratio as u64;
        i = i + 1;
    }
    proof {
        assert(free_count_upto(locks@, n as int) == n) by {
            assert forall|k: int| 0 <= k <= n implies free_count_upto(locks@, k) == k by {
                lemma_free_count_all_free(locks@, k);
            }
        }
    }
    let mut t: u64 = target;
    let mut free: usize = n;
    loop
        invariant
            lim == limits@,
            n == lim.len(),
            0 < n <= u32::MAX,
            limits_wf(lim),
            locks@.len() == n,
            relax(lim, locks@, t as int) == solve(lim, target as int),
            rs == free_ratio(lim, locks@),
            free == free_count(locks@),
            0 < free,
            t <= target,
        decreases free,
    {
        proof {
            lemma_upto_bounds(lim, locks@, n as int);
            lemma_free_ratio_positive(lim, locks@, n as int);
        }
        let ghost next_spec = pass(lim, locks@, t as int, rs as int);
        let mut next = locks.clone();
        let mut taken: u128 = 0;
        let mut freed: u128 = 0;
        let mut newly: usize = 0;
        let mut j: usize = 0;
        while j < n
            invariant
                lim == limits@,
                n == lim.len(),
                n <= u32::MAX,
                locks@.len() == n,
                next@.len() == n,
                next_spec == pass(lim, locks@, t as int, rs as int),
                j <= n,
                forall|k: int| 0 <= k < j ==> next@[k] == next_spec[k],
                forall|k: int| j <= k < n ==> next@[k] == locks@[k],
                taken == locked_upto(next@, j as int) - locked_upto(locks@, j as int),
                freed == free_ratio_upto(lim, locks@, j as int) - free_ratio_upto(
                    lim,
                    next@,
                    j as int,
                ),
                newly == free_count_upto(locks@, j as int) - free_count_upto(next@, j as int),
            decreases n - j,
        {
            let ghost before = next@;
            proof {
                lemma_upto_bounds(lim, next@, j as int);
                lemma_upto_bounds(lim, locks@, j as int);
            }
            if locks[j].is_none() {
                if let Some(v) = lock_cell(&limits[j], t, rs) {
                    next.set(j, Some(v));
                    taken = taken + v as u128;
                    freed = freed + limits[j].ratio as u128;
                    newly = newly + 1;
                }
            }
            proof {
                lemma_upto_agree(lim, before, next@, j as int);
            }
            j = j + 1;
        }
        proof {
            assert(next@ =~= next_spec);
            lemma_upto_bounds(lim, next@, n as int);
        }
        if newly == 0 || newly == free || taken == 0 {
            return solved_sizes(limits, &next, t, rs);
        }
        t = if taken > t as u128 {
            0
        } else {
            t - taken as u64
        };
        rs = rs - freed as u64;
        free = free - newly;
        locks = next;
    }
}

proof fn lemma_free_count_all_free(locks: Seq<Option<u32>>, k: int)
    requires
        0 <= k <= locks.len(),
        forall|i: int| 0 <= i < locks.len() ==> locks[i] is None,
    ensures
        free_count_upto(locks, k) == k,
    decreases k,
{
    if k > 0 {
        lemma_free_count_all_free(locks, k - 1);
    }
}

/// The sizes once the relaxation has stopped at `locks`, remainder `t` and
/// ratio sum `rs`.
fn solved_sizes(limits: &Vec<CellLimit>, locks: &Vec<Option<u32>>, t: u64, rs: u64) -> (r:
    CellSizes)
    requires
        locks@.len() == limits@.len(),
    ensures
        r.scale == rs,
        r.sizes@.len() == limits@.len(),
        forall|i: int|
            0 <= i < limits@.len() ==> #[trigger] r.sizes@[i] == scaled_size(
                limits@[i],
                locks@[i],
                Relaxed { locks: locks@, target: t as int, ratio_sum: rs as int },
            ),
{
    let ghost rel = Relaxed { locks: locks@, target: t as int, ratio_sum: rs as int };
    let mut sizes: Vec<u128> = Vec::new();
    let mut i: usize = 0;
    while i < limits.len()
        invariant
            locks@.len() == limits@.len(),
            i <= limits@.len(),
            rel == (Relaxed { locks: locks@, target: t as int, ratio_sum: rs as int }),
            sizes@.len() == i,
            forall|k: int|
                0 <= k < i ==> #[trigger] sizes@[k] == scaled_size(limits@[k], locks@[k], rel),
        decreases limits@.len() - i,
    {
        let s: u128 = match locks[i] {
            Some(b) => {
                proof {
                    assert(b * rs <= 0xffff_ffffu64 * 0xffff_ffff_ffff_ffffu64) by (nonlinear_arith)
                        requires b <= 0xffff_ffffu32, rs <= 0xffff_ffff_ffff_ffffu64;
                }
                b as u128 * rs as u128
            },
            None => {
                proof {
                    let r = limits@[i as int].ratio;
                    assert(t * r <= 0xffff_ffff_ffff_ffffu64 * 0xffff_ffffu64) by (nonlinear_arith)
                        requires t <= 0xffff_ffff_ffff_ffffu64, r <= 0xffff_ffffu32;
                }
                t as u128 * limits[i].ratio as u128
            },
        };
        sizes.push(s);
        i = i + 1;
    }
    CellSizes { scale: rs, sizes }
}

} // verus!
