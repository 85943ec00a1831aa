use vstd::prelude::*;
use crate::arith::{pow2, lemma_pow2_pos, lemma_pow2_mono};

verus! {

/// The largest base-two logarithm of an image side that the library handles.
pub const MAX_LOG_SIDE: usize = 30;

/// Whether a grey value counts as foreground: values at or above the
/// midpoint 128 do, darker ones are background.
pub fn is_foreground(v: u8) -> (r: bool)
    ensures
        r == (v >= 128),
{
    v >= 128
}

/// The grey value of canvas pixel `(x, y)` when a `w` by `h` image is centred
/// on a canvas of side `side`; the margin is white.
pub open spec fn padded_value(w: int, h: int, grey: Seq<u8>, side: int, x: int, y: int) -> u8 {
    let ox = (side - w) / 2;
    let oy = (side - h) / 2;
    if ox <= x < ox + w && oy <= y < oy + h {
        grey[(y - oy) * w + (x - ox)]
    } else {
        255
    }
}

/// Entry `(x, y)` of a row-major grid of grey values of side `s`.
pub open spec fn grey_at(g: Seq<u8>, s: int, x: int, y: int) -> u8 {
    g[y * s + x]
}

/// The side of the canvas for a `w` by `h` image: the least power of two
/// that is at least `w` and `h`.
pub fn canvas_side(width: u32, height: u32) -> (r: u32)
    requires
        1 <= width <= crate::sdf_task::MAX_SIDE,
        1 <= height <= crate::sdf_task::MAX_SIDE,
    ensures
        exists|k: nat| k <= MAX_LOG_SIDE && pow2(k) == r,
        width <= r,
        height <= r,
        r == 1 || r < 2 * width || r < 2 * height,
{
    let big = if width > height {
        width
    } else {
        height
    };
    let mut s: u32 = 1;
    let ghost mut k: nat = 0;
    proof {
        crate::arith::lemma_pow2_30();
    }
    while s < big
        invariant
            s == pow2(k),
            1 <= big <= 1073741824,
            s == 1 || s < 2 * big,
            s <= 1073741824,
            pow2(30) == 1073741824,
            k <= 30,
        decreases 1073741824 - s,
    {
        proof {
            if k >= 30 {
                lemma_pow2_mono(30, k);
            }
            lemma_pow2_mono(k + 1, 30);
            assert(pow2(k + 1) == 2 * pow2(k));
            lemma_pow2_pos(k);
        }
        s = s * 2;
        proof {
            k = k + 1;
        }
    }
    s
}

/// Centres a row-major `width` by `height` grey image on a white square
/// canvas whose side is the least power of two that holds it; returns the
/// side and the canvas.
pub fn pad_to_square(width: u32, height: u32, grey: &Vec<u8>) -> (r: (u32, Vec<u8>))
    requires
        1 <= width <= crate::sdf_task::MAX_SIDE,
        1 <= height <= crate::sdf_task::MAX_SIDE,
        grey@.len() == width * height,
        4 * width * width <= usize::MAX,
        4 * height * height <= usize::MAX,
    ensures
        exists|k: nat| k <= MAX_LOG_SIDE && pow2(k) == r.0,
        width <= r.0,
        height <= r.0,
        r.0 == 1 || r.0 < 2 * width || r.0 < 2 * height,
        r.1@.len() == r.0 * r.0,
        forall|x: int, y: int|
            0 <= x < r.0 && 0 <= y < r.0 ==> #[trigger] grey_at(r.1@, r.0 as int, x, y)
                == padded_value(width as int, height as int, grey@, r.0 as int, x, y),
{
    let side = canvas_side(width, height);
    let ox = (side - width) / 2;
    let oy = (side - height) / 2;
    proof {
        assert(side * side <= usize::MAX) by (nonlinear_arith)
            requires
                side < 2 * width || side < 2 * height || side == 1,
                4 * width * width <= usize::MAX,
                4 * height * height <= usize::MAX,
                1 <= width,
                1 <= height,
        ;
    }
    let n = side as usize;
    let glen = grey.len();
    let mut out: Vec<u8> = Vec::new();
    let mut y: usize = 0;
    while y < n
        invariant
            n == side,
            n * n <= usize::MAX,
            ox == (side - width) / 2,
            oy == (side - height) / 2,
            width <= side,
            height <= side,
            grey@.len() == width * height,
            glen == grey@.len(),
            y <= n,
            out@.len() == y * n,
            forall|xx: int, yy: int|
                0 <= xx < n && 0 <= yy < y ==> #[trigger] grey_at(out@, n as int, xx, yy)
                    == padded_value(width as int, height as int, grey@, n as int, xx, yy),
        decreases n - y,
    {
        let mut x: usize = 0;
        while x < n
            invariant
                n == side,
                n * n <= usize::MAX,
                ox == (side - width) / 2,
                oy == (side - height) / 2,
                width <= side,
                height <= side,
                grey@.len() == width * height,
                glen == grey@.len(),
                y < n,
                x <= n,
                out@.len() == y * n + x,
                forall|xx: int, yy: int|
                    0 <= xx < n && 0 <= yy < y ==> #[trigger] grey_at(out@, n as int, xx, yy)
                        == padded_value(width as int, height as int, grey@, n as int, xx, yy),
                forall|xx: int|
                    0 <= xx < x ==> #[trigger] grey_at(out@, n as int, xx, y as int)
                        == padded_value(width as int, height as int, grey@, n as int, xx, y as int),
            decreases n - x,
        {
            let xs = x as u32;
            let ys = y as u32;
            let v = if xs >= ox && xs < ox + width && ys >= oy && ys < oy + height {
                proof {
                    crate::arith::lemma_rect_index(width as int, height as int, (xs - ox) as int, (ys - oy) as int);
                }
                grey[((ys - oy) as usize) * (width as usize) + ((xs - ox) as usize)]
            } else {
                255
            };
            let ghost before = out@;
            out.push(v);
            proof {
                crate::arith::lemma_cell_index(n as int, x as int, y as int);
                assert forall|xx: int, yy: int|
                    0 <= xx < n && 0 <= yy < y implies #[trigger] grey_at(out@, n as int, xx, yy)
                        == padded_value(width as int, height as int, grey@, n as int, xx, yy) by {
                    crate::arith::lemma_row_before(n as int, xx, yy, y as int);
                    assert(grey_at(out@, n as int, xx, yy) == grey_at(before, n as int, xx, yy));
                }
                assert forall|xx: int|
                    0 <= xx < x + 1 implies #[trigger] grey_at(out@, n as int, xx, y as int)
                        == padded_value(width as int, height as int, grey@, n as int, xx, y as int) by {
                    if xx < x {
                        assert(grey_at(out@, n as int, xx, y as int) == grey_at(before, n as int, xx, y as int));
                    }
                }
            }
            x = x + 1;
        }
        proof {
            assert((y + 1) * n == y * n + n) by (nonlinear_arith);
        }
        y = y + 1;
    }
    (side, out)
}

/// A square image of foreground / background pixels whose side is a power of two.
/// Pixel `(x, y)` is stored at index `y * side + x`; `true` means foreground.
pub struct BinaryImage {
    pub side: usize,
    pub log_side: usize,
    pub pixels: Vec<bool>,
}

impl BinaryImage {
    pub open spec fn wf(&self) -> bool {
        &&& self.log_side <= MAX_LOG_SIDE
        &&& self.side == pow2(self.log_side as nat)
        &&& self.pixels@.len() == self.side * self.side
    }

    /// Colour of pixel `(x, y)`.
    pub open spec fn pixel_spec(&self, x: int, y: int) -> bool {
        self.pixels@[y * self.side + x]
    }

    /// Thresholds a row-major grey image of `width` by `height` values.
    /// Succeeds exactly when the image is square, its side is a power of two
    /// no larger than `2^MAX_LOG_SIDE`, and `grey` holds one value per pixel.
    pub fn from_grey(width: u32, height: u32, grey: &Vec<u8>) -> (r: Option<BinaryImage>)
        ensures
            r is Some <==> (width == height && grey@.len() == width * height && exists|
                k: nat,
            | k <= MAX_LOG_SIDE && pow2(k) == width),
            r matches Some(img) ==> {
                &&& img.wf()
                &&& img.side == width
                &&& forall|i: int|
                    0 <= i < grey@.len() ==> #[trigger] img.pixels@[i] == (grey@[i] >= 128)
            },
    {
        if width != height || width == 0 {
            proof {
                if width == 0 {
                    assert forall|k: nat| k <= MAX_LOG_SIDE implies pow2(k) != width by {
                        lemma_pow2_pos(k);
                    }
                }
            }
            return None;
        }
        let side = width as u64;
        let mut span: u64 = 1;
        let mut log: usize = 0;
        while span < side && log < MAX_LOG_SIDE
            invariant
                span == pow2(log as nat),
                log <= MAX_LOG_SIDE,
                1 <= side <= u32::MAX,
                log == 0 || span < 2 * side,
                forall|k: nat| k < log ==> #[trigger] pow2(k) < side,
            decreases MAX_LOG_SIDE - log,
        {
            proof {
                assert forall|k: nat| k < log + 1 implies #[trigger] pow2(k) < side by {
                    if k < log {
                    } else {
                        assert(k == log);
                    }
                }
            }
            span = span * 2;
            log = log + 1;
        }
        if span != side {
            proof {
                assert forall|k: nat| k <= MAX_LOG_SIDE implies pow2(k) != width by {
                    if k < log {
                    } else if k == log {
                    } else {
                        lemma_pow2_mono((log + 1) as nat, k);
                        if span >= side {
                            assert(pow2((log + 1) as nat) == 2 * span);
                        } else {
                            assert(log == MAX_LOG_SIDE);
                        }
                    }
                }
            }
            return None;
        }
        assert(side * side <= u64::MAX) by (nonlinear_arith)
            requires
                side <= u32::MAX,
        ;
        if grey.len() as u64 != side * side {
            return None;
        }
        let n = width as usize;
        let mut pixels: Vec<bool> = Vec::new();
        let mut i: usize = 0;
        while i < grey.len()
            invariant
                i <= grey@.len(),
                pixels@.len() == i,
                forall|j: int| 0 <= j < i ==> #[trigger] pixels@[j] == (grey@[j] >= 128),
            decreases grey@.len() - i,
        {
            pixels.push(is_foreground(grey[i]));
            i = i + 1;
        }
        Some(BinaryImage { side: n, log_side: log, pixels })
    }

    /// Colour of pixel `(x, y)`: `true` for foreground.
    pub fn pixel(&self, x: usize, y: usize) -> (r: bool)
        requires
            self.wf(),
            x < self.side,
            y < self.side,
        ensures
            r == self.pixel_spec(x as int, y as int),
    {
        proof {
            crate::arith::lemma_cell_index(self.side as int, x as int, y as int);
        }
        let len = self.pixels.len();
        self.pixels[y * self.side + x]
    }
}

} // verus!
