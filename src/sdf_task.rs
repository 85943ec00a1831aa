use vstd::prelude::*;
use crate::arith::pow2;
use std::cmp::Ordering;

verus! {

/// `v` squared.
pub open spec fn sq(v: int) -> int {
    v * v
}

/// Squared Euclidean distance between pixels `(qx, qy)` and `(px, py)`.
pub open spec fn dist_sqr(qx: int, qy: int, px: int, py: int) -> int {
    sq(qx - px) + sq(qy - py)
}

/// Distance along one axis from `q` to the interval `[lo, lo + len)` of pixels.
pub open spec fn gap(q: int, lo: int, len: int) -> int {
    if q < lo {
        lo - q
    } else if q >= lo + len {
        q - (lo + len - 1)
    } else {
        0
    }
}

/// Squared distance from pixel `(qx, qy)` to the nearest pixel of the block of
/// level `k` at `(x, y)`: zero when the pixel lies in the block.
pub open spec fn bound_sqr(qx: int, qy: int, k: nat, x: int, y: int) -> int {
    sq(gap(qx, x * pow2(k), pow2(k) as int)) + sq(gap(qy, y * pow2(k), pow2(k) as int))
}

/// No pixel of a block is closer than its bound.
pub proof fn lemma_bound_admissible(qx: int, qy: int, k: nat, x: int, y: int, px: int, py: int)
    requires
        crate::pyramid::in_block(k, x, y, px, py),
    ensures
        0 <= bound_sqr(qx, qy, k, x, y) <= dist_sqr(qx, qy, px, py),
{
    assert((x + 1) * pow2(k) == x * pow2(k) + pow2(k)) by (nonlinear_arith);
    assert((y + 1) * pow2(k) == y * pow2(k) + pow2(k)) by (nonlinear_arith);
    lemma_gap_le(qx, x * pow2(k), pow2(k) as int, px);
    lemma_gap_le(qy, y * pow2(k), pow2(k) as int, py);
}

proof fn lemma_gap_le(q: int, lo: int, len: int, p: int)
    requires
        lo <= p < lo + len,
    ensures
        0 <= sq(gap(q, lo, len)) <= sq(q - p),
{
    let g = gap(q, lo, len);
    assert(0 <= g);
    assert(g <= q - p || g <= p - q);
    assert(sq(g) <= sq(q - p)) by (nonlinear_arith)
        requires
            0 <= g,
            g <= q - p || g <= p - q,
    ;
    assert(0 <= sq(g)) by (nonlinear_arith);
}

/// At the finest level the bound is the exact distance.
pub proof fn lemma_bound_exact(qx: int, qy: int, x: int, y: int)
    ensures
        bound_sqr(qx, qy, 0, x, y) == dist_sqr(qx, qy, x, y),
        crate::pyramid::in_block(0, x, y, x, y),
{
    assert(pow2(0) == 1);
    assert(x * 1 == x && y * 1 == y);
    assert(sq(gap(qx, x, 1)) == sq(qx - x)) by (nonlinear_arith);
    assert(sq(gap(qy, y, 1)) == sq(qy - y)) by (nonlinear_arith);
}

/// One candidate block of a search: the block of level `level` at `(x, y)`,
/// and the least squared distance from the query pixel to any of its pixels.
#[derive(Clone, Copy, Debug, PartialEq, Eq, Structural)]
pub struct SdfTask {
    pub x: u32,
    pub y: u32,
    pub level: u8,
    pub best_case_dst_sqr: u64,
}

impl SdfTask {
    /// Orders tasks by priority: the task with the smaller bound is the
    /// greater one, so that it comes first out of a max-first queue.
    pub fn priority_cmp(&self, other: &SdfTask) -> (r: Ordering)
        ensures
            (r == Ordering::Greater) == (self.best_case_dst_sqr < other.best_case_dst_sqr),
            (r == Ordering::Less) == (self.best_case_dst_sqr > other.best_case_dst_sqr),
            (r == Ordering::Equal) == (self.best_case_dst_sqr == other.best_case_dst_sqr),
    {
        if self.best_case_dst_sqr < other.best_case_dst_sqr {
            Ordering::Greater
        } else if self.best_case_dst_sqr > other.best_case_dst_sqr {
            Ordering::Less
        } else {
            Ordering::Equal
        }
    }
}

/// The largest coordinate bound of the geometry below: `2^30`.
pub const MAX_SIDE: u64 = 1073741824;

/// Distance along one axis from `q` to the interval `[lo, lo + len)`.
fn axis_gap(q: u64, lo: u64, len: u64) -> (r: u64)
    requires
        len >= 1,
        lo + len <= MAX_SIDE,
        q < MAX_SIDE,
    ensures
        r == gap(q as int, lo as int, len as int),
        r < MAX_SIDE,
{
    if q < lo {
        lo - q
    } else if q >= lo + len {
        q - (lo + len - 1)
    } else {
        0
    }
}

/// The task for the block of level `level` at `(x, y)`, as seen from `(qx, qy)`;
/// `span` is the side of the block in pixels.
pub fn make_task(qx: u32, qy: u32, level: u8, x: u32, y: u32, span: u64) -> (r: SdfTask)
    requires
        span == pow2(level as nat),
        (x + 1) * span <= MAX_SIDE,
        (y + 1) * span <= MAX_SIDE,
        qx < MAX_SIDE,
        qy < MAX_SIDE,
    ensures
        r.x == x,
        r.y == y,
        r.level == level,
        r.best_case_dst_sqr == bound_sqr(qx as int, qy as int, level as nat, x as int, y as int),
{
    proof {
        crate::arith::lemma_pow2_pos(level as nat);
        assert((x + 1) * span == x * span + span) by (nonlinear_arith);
        assert((y + 1) * span == y * span + span) by (nonlinear_arith);
        assert(0 <= x * span && 0 <= y * span) by (nonlinear_arith)
            requires
                span >= 1,
        ;
    }
    let gx = axis_gap(qx as u64, x as u64 * span, span);
    let gy = axis_gap(qy as u64, y as u64 * span, span);
    proof {
        assert(gx * gx < MAX_SIDE * MAX_SIDE) by (nonlinear_arith)
            requires
                gx < MAX_SIDE,
        ;
        assert(gy * gy < MAX_SIDE * MAX_SIDE) by (nonlinear_arith)
            requires
                gy < MAX_SIDE,
        ;
    }
    SdfTask { x, y, level, best_case_dst_sqr: gx * gx + gy * gy }
}

/// Number of blocks in the tree below a block of level `k`, itself included.
pub open spec fn nodes(k: nat) -> nat
    decreases k,
{
    if k == 0 {
        1
    } else {
        1 + 4 * nodes((k - 1) as nat)
    }
}

/// Number of blocks that a queue of tasks can still lead to.
pub open spec fn weight(s: Seq<SdfTask>) -> nat
    decreases s.len(),
{
    if s.len() == 0 {
        0
    } else {
        weight(s.drop_last()) + nodes(s.last().level as nat)
    }
}

pub proof fn lemma_weight_push(s: Seq<SdfTask>, t: SdfTask)
    ensures
        weight(s.push(t)) == weight(s) + nodes(t.level as nat),
{
    assert(s.push(t).drop_last() =~= s);
}

pub proof fn lemma_weight_remove(s: Seq<SdfTask>, i: int)
    requires
        0 <= i < s.len(),
    ensures
        weight(s.remove(i)) + nodes(s[i].level as nat) == weight(s),
    decreases s.len(),
{
    if i == s.len() - 1 {
        assert(s.remove(i) =~= s.drop_last());
    } else {
        lemma_weight_remove(s.drop_last(), i);
        assert(s.remove(i).drop_last() =~= s.drop_last().remove(i));
        assert(s.remove(i).last() == s.last());
    }
}

/// Index of a task with the least bound.
pub fn min_index(queue: &Vec<SdfTask>) -> (r: usize)
    requires
        queue@.len() > 0,
    ensures
        r < queue@.len(),
        forall|j: int|
            0 <= j < queue@.len() ==> queue@[r as int].best_case_dst_sqr
                <= #[trigger] queue@[j].best_case_dst_sqr,
{
    let mut best: usize = 0;
    let mut i: usize = 1;
    while i < queue.len()
        invariant
            1 <= i <= queue@.len(),
            best < queue@.len(),
            forall|j: int|
                0 <= j < i ==> queue@[best as int].best_case_dst_sqr
                    <= #[trigger] queue@[j].best_case_dst_sqr,
        decreases queue@.len() - i,
    {
        if queue[i].best_case_dst_sqr < queue[best].best_case_dst_sqr {
            best = i;
        }
        i = i + 1;
    }
    best
}

} // verus!
