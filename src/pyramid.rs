use vstd::prelude::*;
use crate::arith::{pow2, lemma_cell_index, lemma_row_before, lemma_pow2_pos};
use crate::bitmap::BinaryImage;

verus! {

/// What a pyramid cell records of the block of finest pixels beneath it.
#[derive(Clone, Copy, Debug, PartialEq, Eq, Structural)]
pub enum Summary {
    /// Every pixel of the block is background.
    Background,
    /// Every pixel of the block is foreground.
    Foreground,
    /// The block holds pixels of both colours.
    Mixed,
}

/// The summary of a single pixel of the given colour.
pub open spec fn color_summary(fg: bool) -> Summary {
    if fg {
        Summary::Foreground
    } else {
        Summary::Background
    }
}

/// The summary of a block made of four sub-blocks.
pub open spec fn combine(a: Summary, b: Summary, c: Summary, d: Summary) -> Summary {
    if a == b && b == c && c == d && a != Summary::Mixed {
        a
    } else {
        Summary::Mixed
    }
}

/// The summary of the block of side `2^k` whose top-left pixel is
/// `(x * 2^k, y * 2^k)`, in an image of side `n` stored row-major in `img`.
pub open spec fn block(img: Seq<bool>, n: int, k: nat, x: int, y: int) -> Summary
    decreases k,
{
    if k == 0 {
        color_summary(img[y * n + x])
    } else {
        combine(
            block(img, n, (k - 1) as nat, 2 * x, 2 * y),
            block(img, n, (k - 1) as nat, 2 * x + 1, 2 * y),
            block(img, n, (k - 1) as nat, 2 * x, 2 * y + 1),
            block(img, n, (k - 1) as nat, 2 * x + 1, 2 * y + 1),
        )
    }
}

/// Whether pixel `(px, py)` lies in the block of level `k` at `(x, y)`.
pub open spec fn in_block(k: nat, x: int, y: int, px: int, py: int) -> bool {
    &&& x * pow2(k) <= px < (x + 1) * pow2(k)
    &&& y * pow2(k) <= py < (y + 1) * pow2(k)
}

/// Entry `(x, y)` of a row-major grid of side `s`.
pub open spec fn grid_at(g: Seq<Summary>, s: int, x: int, y: int) -> Summary {
    g[y * s + x]
}

/// Combines four summaries into the summary of their union.
pub fn merge(a: Summary, b: Summary, c: Summary, d: Summary) -> (r: Summary)
    ensures
        r == combine(a, b, c, d),
{
    if a == b && b == c && c == d && a != Summary::Mixed {
        a
    } else {
        Summary::Mixed
    }
}

/// A block that is not mixed holds only pixels of its colour.
pub proof fn lemma_uniform_block(img: Seq<bool>, n: int, k: nat, x: int, y: int, px: int, py: int)
    requires
        block(img, n, k, x, y) != Summary::Mixed,
        in_block(k, x, y, px, py),
    ensures
        block(img, n, k, x, y) == color_summary(img[py * n + px]),
    decreases k,
{
    if k == 0 {
        assert(pow2(0) == 1);
        assert(px == x && py == y) by (nonlinear_arith)
            requires
                x * 1 <= px < (x + 1) * 1,
                y * 1 <= py < (y + 1) * 1,
        ;
    } else {
        let (cx, cy) = lemma_child_containing(k, x, y, px, py);
        lemma_uniform_block(img, n, (k - 1) as nat, cx, cy, px, py);
    }
}

/// A pixel of a block of level `k > 0` lies in one of its four children.
pub proof fn lemma_child_containing(k: nat, x: int, y: int, px: int, py: int) -> (c: (int, int))
    requires
        k > 0,
        in_block(k, x, y, px, py),
    ensures
        c.0 == 2 * x || c.0 == 2 * x + 1,
        c.1 == 2 * y || c.1 == 2 * y + 1,
        in_block((k - 1) as nat, c.0, c.1, px, py),
{
    let h = pow2((k - 1) as nat);
    assert(pow2(k) == 2 * h);
    assert(x * pow2(k) == (2 * x) * h) by (nonlinear_arith)
        requires
            pow2(k) == 2 * h,
    ;
    assert((x + 1) * pow2(k) == (2 * x + 2) * h) by (nonlinear_arith)
        requires
            pow2(k) == 2 * h,
    ;
    assert(y * pow2(k) == (2 * y) * h) by (nonlinear_arith)
        requires
            pow2(k) == 2 * h,
    ;
    assert((y + 1) * pow2(k) == (2 * y + 2) * h) by (nonlinear_arith)
        requires
            pow2(k) == 2 * h,
    ;
    assert((2 * x + 1) * h == (2 * x) * h + h) by (nonlinear_arith);
    assert((2 * x + 2) * h == (2 * x) * h + 2 * h) by (nonlinear_arith);
    assert((2 * y + 1) * h == (2 * y) * h + h) by (nonlinear_arith);
    assert((2 * y + 2) * h == (2 * y) * h + 2 * h) by (nonlinear_arith);
    let cx = if px < (2 * x + 1) * h {
        2 * x
    } else {
        2 * x + 1
    };
    let cy = if py < (2 * y + 1) * h {
        2 * y
    } else {
        2 * y + 1
    };
    (cx, cy)
}

/// Builds the summaries of level `k + 1` from those of level `k`.
fn coarsen(prev: &Vec<Summary>, half: usize, Ghost(img): Ghost<Seq<bool>>, Ghost(n): Ghost<int>, Ghost(k): Ghost<nat>) -> (r: Vec<Summary>)
    requires
        prev@.len() == (2 * half) * (2 * half),
        forall|x: int, y: int|
            0 <= x < 2 * half && 0 <= y < 2 * half ==> #[trigger] grid_at(prev@, 2 * half, x, y)
                == block(img, n, k, x, y),
    ensures
        r@.len() == half * half,
        forall|x: int, y: int|
            0 <= x < half && 0 <= y < half ==> #[trigger] grid_at(r@, half as int, x, y)
                == block(img, n, k + 1, x, y),
{
    let plen = prev.len();
    assert(2 * half <= plen) by (nonlinear_arith)
        requires
            plen == (2 * half) * (2 * half),
    ;
    let s2: usize = half * 2;
    let mut out: Vec<Summary> = Vec::new();
    let mut y: usize = 0;
    while y < half
        invariant
            s2 == 2 * half,
            plen == prev@.len(),
            prev@.len() == s2 * s2,
            forall|x: int, y: int|
                0 <= x < s2 && 0 <= y < s2 ==> #[trigger] grid_at(prev@, s2 as int, x, y)
                    == block(img, n, k, x, y),
            y <= half,
            out@.len() == y * half,
            forall|xx: int, yy: int|
                0 <= xx < half && 0 <= yy < y ==> #[trigger] grid_at(out@, half as int, xx, yy)
                    == block(img, n, k + 1, xx, yy),
        decreases half - y,
    {
        let mut x: usize = 0;
        while x < half
            invariant
                s2 == 2 * half,
                plen == prev@.len(),
                prev@.len() == s2 * s2,
                forall|x: int, y: int|
                    0 <= x < s2 && 0 <= y < s2 ==> #[trigger] grid_at(prev@, s2 as int, x, y)
                        == block(img, n, k, x, y),
                y < half,
                x <= half,
                out@.len() == y * half + x,
                forall|xx: int, yy: int|
                    0 <= xx < half && 0 <= yy < y ==> #[trigger] grid_at(out@, half as int, xx, yy)
                        == block(img, n, k + 1, xx, yy),
                forall|xx: int|
                    0 <= xx < x ==> #[trigger] grid_at(out@, half as int, xx, y as int)
                        == block(img, n, k + 1, xx, y as int),
            decreases half - x,
        {
            proof {
                lemma_cell_index(s2 as int, 2 * x + 1, 2 * y + 1);
                lemma_cell_index(s2 as int, 2 * x + 1, 2 * y as int);
                lemma_cell_index(s2 as int, 2 * x as int, 2 * y + 1);
                lemma_cell_index(s2 as int, 2 * x as int, 2 * y as int);
            }
            let row0: usize = (2 * y) * s2;
            let row1: usize = (2 * y + 1) * s2;
            let a = prev[row0 + 2 * x];
            let b = prev[row0 + 2 * x + 1];
            let c = prev[row1 + 2 * x];
            let d = prev[row1 + 2 * x + 1];
            proof {
                assert(a == grid_at(prev@, s2 as int, 2 * x as int, 2 * y as int));
                assert(b == grid_at(prev@, s2 as int, 2 * x + 1, 2 * y as int));
                assert(c == grid_at(prev@, s2 as int, 2 * x as int, 2 * y + 1));
                assert(d == grid_at(prev@, s2 as int, 2 * x + 1, 2 * y + 1));
            }
            let old_out = Ghost(out@);
            out.push(merge(a, b, c, d));
            proof {
                lemma_cell_index(half as int, x as int, y as int);
                assert(grid_at(out@, half as int, x as int, y as int) == block(img, n, k + 1, x as int, y as int));
                assert forall|xx: int, yy: int|
                    0 <= xx < half && 0 <= yy < y implies #[trigger] grid_at(out@, half as int, xx, yy)
                        == block(img, n, k + 1, xx, yy) by {
                    lemma_row_before(half as int, xx, yy, y as int);
                    assert(grid_at(out@, half as int, xx, yy) == grid_at(old_out@, half as int, xx, yy));
                }
                assert forall|xx: int|
                    0 <= xx < x + 1 implies #[trigger] grid_at(out@, half as int, xx, y as int)
                        == block(img, n, k + 1, xx, y as int) by {
                    if xx < x {
                        assert(grid_at(out@, half as int, xx, y as int) == grid_at(old_out@, half as int, xx, y as int));
                    }
                }
            }
            x = x + 1;
        }
        proof {
            assert((y + 1) * half == y * half + half) by (nonlinear_arith);
        }
        y = y + 1;
    }
    out
}

/// A stack of ever coarser summaries of a binary image. Level `0` has one
/// cell per pixel; level `k + 1` has half the side of level `k`, each of its
/// cells summarising a 2 by 2 block of level `k`; the last level is 1 by 1.
pub struct Pyramid {
    pub image: BinaryImage,
    /// `levels[k]` holds the cells of level `k`, row-major.
    pub levels: Vec<Vec<Summary>>,
    /// `sides[k]` is the side of level `k`.
    pub sides: Vec<usize>,
    /// `spans[k]` is the side, in pixels, of the block under one cell of level `k`.
    pub spans: Vec<u64>,
}

impl Pyramid {
    /// Index of the coarsest level.
    pub open spec fn top(&self) -> nat {
        self.image.log_side as nat
    }

    /// Cell `(x, y)` of level `k`.
    pub open spec fn cell_spec(&self, k: int, x: int, y: int) -> Summary {
        grid_at(self.levels@[k]@, self.sides@[k] as int, x, y)
    }

    pub open spec fn wf(&self) -> bool {
        let m = self.top();
        &&& self.image.wf()
        &&& self.levels@.len() == m + 1
        &&& self.sides@.len() == m + 1
        &&& self.spans@.len() == m + 1
        &&& forall|k: int|
            0 <= k <= m ==> {
                &&& #[trigger] self.sides@[k] == pow2((m - k) as nat)
                &&& self.spans@[k] == pow2(k as nat)
                &&& self.levels@[k]@.len() == self.sides@[k] * self.sides@[k]
            }
        &&& forall|k: int, x: int, y: int|
            0 <= k <= m && 0 <= x < self.sides@[k] && 0 <= y < self.sides@[k]
                ==> #[trigger] self.cell_spec(k, x, y) == block(
                self.image.pixels@,
                self.image.side as int,
                k as nat,
                x,
                y,
            )
    }

    /// Builds all levels of the pyramid over `image`.
    pub fn new(image: BinaryImage) -> (r: Pyramid)
        requires
            image.wf(),
        ensures
            r.wf(),
            r.image == image,
            r.levels@.len() == image.log_side + 1,
            r.sides@[image.log_side as int] == 1,
            r.levels@[image.log_side as int]@.len() == 1,
    {
        let ghost img = image.pixels@;
        let ghost n = image.side as int;
        let m = image.log_side;
        let mut base: Vec<Summary> = Vec::new();
        let mut i: usize = 0;
        while i < image.pixels.len()
            invariant
                image.wf(),
                i <= image.pixels@.len(),
                base@.len() == i,
                forall|j: int| 0 <= j < i ==> #[trigger] base@[j] == color_summary(image.pixels@[j]),
            decreases image.pixels@.len() - i,
        {
            let fg = image.pixels[i];
            base.push(if fg { Summary::Foreground } else { Summary::Background });
            i = i + 1;
        }
        proof {
            assert forall|x: int, y: int|
                0 <= x < n && 0 <= y < n implies #[trigger] grid_at(base@, n, x, y)
                    == block(img, n, 0, x, y) by {
                lemma_cell_index(n, x, y);
            }
        }
        let mut levels: Vec<Vec<Summary>> = Vec::new();
        levels.push(base);
        let mut sides: Vec<usize> = Vec::new();
        sides.push(image.side);
        let mut spans: Vec<u64> = Vec::new();
        spans.push(1);
        let mut k: usize = 0;
        let mut s: usize = image.side;
        let mut span: u64 = 1;
        while k < m
            invariant
                image.wf(),
                m == image.log_side,
                img == image.pixels@,
                n == image.side,
                k <= m,
                s == pow2((m - k) as nat),
                span == pow2(k as nat),
                levels@.len() == k + 1,
                sides@.len() == k + 1,
                spans@.len() == k + 1,
                forall|kk: int|
                    0 <= kk <= k ==> {
                        &&& #[trigger] sides@[kk] == pow2((m - kk) as nat)
                        &&& spans@[kk] == pow2(kk as nat)
                        &&& levels@[kk]@.len() == sides@[kk] * sides@[kk]
                    },
                forall|kk: int, x: int, y: int|
                    0 <= kk <= k && 0 <= x < sides@[kk] && 0 <= y < sides@[kk]
                        ==> #[trigger] grid_at(levels@[kk]@, sides@[kk] as int, x, y)
                        == block(img, n, kk as nat, x, y),
            decreases m - k,
        {
            proof {
                assert(pow2((m - k) as nat) == 2 * pow2((m - k - 1) as nat));
                lemma_pow2_pos((m - k - 1) as nat);
                crate::arith::lemma_pow2_mono(k as nat, m as nat);
                crate::arith::lemma_pow2_add(k as nat, (m - k) as nat);
                assert(span * s == image.side);
                assert(span * 2 <= image.side) by (nonlinear_arith)
                    requires
                        span * s == image.side,
                        s >= 2,
                ;
            }
            let half = s / 2;
            assert(sides@[k as int] == s);
            let next = coarsen(&levels[k], half, Ghost(img), Ghost(n), Ghost(k as nat));
            let ghost before = levels@;
            levels.push(next);
            sides.push(half);
            span = span * 2;
            spans.push(span);
            s = half;
            k = k + 1;
            proof {
                assert forall|kk: int, x: int, y: int|
                    0 <= kk <= k && 0 <= x < sides@[kk] && 0 <= y < sides@[kk]
                        implies #[trigger] grid_at(levels@[kk]@, sides@[kk] as int, x, y)
                        == block(img, n, kk as nat, x, y) by {
                    if kk < k {
                        assert(levels@[kk] == before[kk]);
                    }
                }
            }
        }
        proof {
            assert(pow2(0) == 1);
            assert(sides@[m as int] == 1);
        }
        Pyramid { image, levels, sides, spans }
    }

    /// Number of levels: one more than the base-two logarithm of the side.
    pub fn levels_count(&self) -> (r: usize)
        requires
            self.wf(),
        ensures
            r == self.top() + 1,
    {
        self.levels.len()
    }

    /// The cells of level `k`, row-major.
    pub fn level(&self, k: usize) -> (r: &Vec<Summary>)
        requires
            self.wf(),
            k <= self.top(),
        ensures
            r@ == self.levels@[k as int]@,
    {
        &self.levels[k]
    }

    /// Side of level `k`.
    pub fn side_at(&self, k: usize) -> (r: usize)
        requires
            self.wf(),
            k <= self.top(),
        ensures
            r == pow2((self.top() - k) as nat),
    {
        self.sides[k]
    }

    /// Cell `(x, y)` of level `k`: the summary of the block of side `2^k`
    /// whose top-left pixel is `(x * 2^k, y * 2^k)`.
    pub fn cell(&self, k: usize, x: usize, y: usize) -> (r: Summary)
        requires
            self.wf(),
            k <= self.top(),
            x < pow2((self.top() - k) as nat),
            y < pow2((self.top() - k) as nat),
        ensures
            r == block(self.image.pixels@, self.image.side as int, k as nat, x as int, y as int),
    {
        let s = self.sides[k];
        let len = self.levels[k].len();
        proof {
            lemma_cell_index(s as int, x as int, y as int);
            assert(self.cell_spec(k as int, x as int, y as int) == block(self.image.pixels@, self.image.side as int, k as nat, x as int, y as int));
        }
        self.levels[k][y * s + x]
    }
}

} // verus!
