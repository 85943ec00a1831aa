use vstd::prelude::*;
use crate::arith::{pow2, lemma_pow2_30, lemma_pow2_mono, lemma_block_fits};
use crate::pyramid::{
    Pyramid,
    Summary,
    block,
    in_block,
    color_summary,
    lemma_uniform_block,
    lemma_child_containing,
};
use crate::sdf_task::{
    SdfTask,
    MAX_SIDE,
    bound_sqr,
    dist_sqr,
    make_task,
    min_index,
    nodes,
    weight,
    lemma_bound_admissible,
    lemma_bound_exact,
    lemma_weight_push,
    lemma_weight_remove,
};

verus! {

/// Whether `(px, py)` is a pixel of the image whose colour is not `own`.
pub open spec fn differs(img: Seq<bool>, n: int, own: bool, px: int, py: int) -> bool {
    &&& 0 <= px < n
    &&& 0 <= py < n
    &&& img[py * n + px] != own
}

/// Whether `r` is the squared distance from `(qx, qy)` to the nearest pixel
/// of the other colour, or `None` when every pixel has the colour of `(qx, qy)`.
pub open spec fn is_nearest(img: Seq<bool>, n: int, qx: int, qy: int, r: Option<u64>) -> bool {
    let own = img[qy * n + qx];
    match r {
        None => forall|px: int, py: int| !#[trigger] differs(img, n, own, px, py),
        Some(d) => {
            &&& exists|px: int, py: int|
                #[trigger] differs(img, n, own, px, py) && dist_sqr(qx, qy, px, py) == d
            &&& forall|px: int, py: int|
                #[trigger] differs(img, n, own, px, py) ==> d <= dist_sqr(qx, qy, px, py)
        },
    }
}

/// A task names a block of the pyramid and carries its bound from `(qx, qy)`.
pub open spec fn task_ok(pyr: &Pyramid, qx: int, qy: int, t: SdfTask) -> bool {
    let m = pyr.top();
    &&& t.level <= m
    &&& t.x < pow2((m - t.level) as nat)
    &&& t.y < pow2((m - t.level) as nat)
    &&& t.best_case_dst_sqr == bound_sqr(qx, qy, t.level as nat, t.x as int, t.y as int)
}

/// Some task of the queue has `(px, py)` in its block.
pub open spec fn covered(queue: Seq<SdfTask>, px: int, py: int) -> bool {
    exists|i: int|
        0 <= i < queue.len() && #[trigger] in_block(
            queue[i].level as nat,
            queue[i].x as int,
            queue[i].y as int,
            px,
            py,
        )
}

/// Squared distance from pixel `(qx, qy)` to the nearest pixel of the other
/// colour, found by a best-first search over the pyramid; `None` when the
/// image has a single colour. With `prune` set, blocks of the query's own
/// colour are dropped whole; the result is the same either way.
pub fn nearest_differing(pyr: &Pyramid, qx: u32, qy: u32, prune: bool) -> (r: Option<u64>)
    requires
        pyr.wf(),
        qx < pyr.image.side,
        qy < pyr.image.side,
    ensures
        is_nearest(pyr.image.pixels@, pyr.image.side as int, qx as int, qy as int, r),
{
    let ghost img = pyr.image.pixels@;
    let ghost n = pyr.image.side as int;
    let own = pyr.image.pixel(qx as usize, qy as usize);
    let own_summary = if own {
        Summary::Foreground
    } else {
        Summary::Background
    };
    let m = pyr.image.log_side;
    proof {
        lemma_pow2_30();
        lemma_pow2_mono(m as nat, 30);
        assert(pow2((m - 0) as nat) == n);
        assert(pyr.sides@[m as int] == pow2(0));
        assert(pyr.spans@[m as int] == pow2(m as nat));
    }
    let mut queue: Vec<SdfTask> = Vec::new();
    queue.push(make_task(qx, qy, m as u8, 0, 0, pyr.spans[m]));
    proof {
        assert forall|px: int, py: int| differs(img, n, own, px, py) implies covered(queue@, px, py) by {
            assert(0 * pow2(m as nat) == 0);
            assert((0 + 1) * pow2(m as nat) == n);
            assert(in_block(queue@[0].level as nat, queue@[0].x as int, queue@[0].y as int, px, py));
        }
    }
    while queue.len() > 0
        invariant
            pyr.wf(),
            m == pyr.image.log_side,
            img == pyr.image.pixels@,
            n == pyr.image.side,
            n == pow2(m as nat),
            n <= MAX_SIDE,
            qx < n,
            qy < n,
            own == img[qy * n + qx],
            own_summary == color_summary(own),
            forall|i: int| 0 <= i < queue@.len() ==> task_ok(pyr, qx as int, qy as int, #[trigger] queue@[i]),
            forall|px: int, py: int| #[trigger] differs(img, n, own, px, py) ==> covered(queue@, px, py),
        decreases weight(queue@),
    {
        let idx = min_index(&queue);
        let ghost old_q = queue@;
        let t = queue.remove(idx);
        proof {
            lemma_weight_remove(old_q, idx as int);
            assert(task_ok(pyr, qx as int, qy as int, old_q[idx as int]));
            assert forall|i: int| 0 <= i < queue@.len() implies task_ok(pyr, qx as int, qy as int, #[trigger] queue@[i]) by {
                if i < idx {
                    assert(queue@[i] == old_q[i]);
                } else {
                    assert(queue@[i] == old_q[i + 1]);
                }
            }
        }
        if t.level == 0 {
            let c = pyr.cell(0, t.x as usize, t.y as usize);
            if c != own_summary {
                proof {
                    lemma_bound_exact(qx as int, qy as int, t.x as int, t.y as int);
                    assert(differs(img, n, own, t.x as int, t.y as int));
                    assert forall|px: int, py: int| #[trigger] differs(img, n, own, px, py) implies t.best_case_dst_sqr
                        <= dist_sqr(qx as int, qy as int, px, py) by {
                        let i = choose|i: int|
                            0 <= i < old_q.len() && #[trigger] in_block(
                                old_q[i].level as nat,
                                old_q[i].x as int,
                                old_q[i].y as int,
                                px,
                                py,
                            );
                        lemma_bound_admissible(qx as int, qy as int, old_q[i].level as nat, old_q[i].x as int, old_q[i].y as int, px, py);
                        assert(task_ok(pyr, qx as int, qy as int, old_q[i]));
                    }
                }
                return Some(t.best_case_dst_sqr);
            }
            proof {
                assert forall|px: int, py: int| differs(img, n, own, px, py) implies covered(queue@, px, py) by {
                    let i = choose|i: int|
                        0 <= i < old_q.len() && #[trigger] in_block(
                            old_q[i].level as nat,
                            old_q[i].x as int,
                            old_q[i].y as int,
                            px,
                            py,
                        );
                    if i == idx {
                        assert(pow2(0) == 1);
                        assert(px == t.x && py == t.y) by (nonlinear_arith)
                            requires
                                t.x * 1 <= px < (t.x + 1) * 1,
                                t.y * 1 <= py < (t.y + 1) * 1,
                        ;
                    } else if i < idx {
                        assert(queue@[i] == old_q[i]);
                    } else {
                        assert(queue@[i - 1] == old_q[i]);
                    }
                }
            }
        } else {
            let s = pyr.cell(t.level as usize, t.x as usize, t.y as usize);
            if prune && s == own_summary {
                proof {
                    assert forall|px: int, py: int| differs(img, n, own, px, py) implies covered(queue@, px, py) by {
                        let i = choose|i: int|
                            0 <= i < old_q.len() && #[trigger] in_block(
                                old_q[i].level as nat,
                                old_q[i].x as int,
                                old_q[i].y as int,
                                px,
                                py,
                            );
                        if i == idx {
                            lemma_uniform_block(img, n, t.level as nat, t.x as int, t.y as int, px, py);
                        } else if i < idx {
                            assert(queue@[i] == old_q[i]);
                        } else {
                            assert(queue@[i - 1] == old_q[i]);
                        }
                    }
                }
            } else {
                let k: u8 = t.level - 1;
                let span = pyr.spans[k as usize];
                proof {
                    assert(pow2((m - k) as nat) == 2 * pow2((m - t.level) as nat));
                    lemma_pow2_mono((m - k) as nat, 30);
                    lemma_pow2_30();
                    assert(task_ok(pyr, qx as int, qy as int, t));
                    assert(pyr.sides@[k as int] == pow2((m - k) as nat));
                    assert(span == pow2(k as nat));
                }
                let cx: u32 = 2 * t.x;
                let cy: u32 = 2 * t.y;
                proof {
                    lemma_block_fits(m as nat, k as nat, cx + 1);
                    lemma_block_fits(m as nat, k as nat, cy + 1);
                    lemma_block_fits(m as nat, k as nat, cx as int);
                    lemma_block_fits(m as nat, k as nat, cy as int);
                }
                let ghost mid = queue@;
                queue.push(make_task(qx, qy, k, cx, cy, span));
                queue.push(make_task(qx, qy, k, cx + 1, cy, span));
                queue.push(make_task(qx, qy, k, cx, cy + 1, span));
                queue.push(make_task(qx, qy, k, cx + 1, cy + 1, span));
                proof {
                    let l = mid.len() as int;
                    assert(queue@ == mid.push(queue@[l]).push(queue@[l + 1]).push(queue@[l + 2]).push(queue@[l + 3]));
                    lemma_weight_push(mid, queue@[l]);
                    lemma_weight_push(mid.push(queue@[l]), queue@[l + 1]);
                    lemma_weight_push(mid.push(queue@[l]).push(queue@[l + 1]), queue@[l + 2]);
                    lemma_weight_push(mid.push(queue@[l]).push(queue@[l + 1]).push(queue@[l + 2]), queue@[l + 3]);
                    assert(nodes(t.level as nat) == 1 + 4 * nodes(k as nat));
                    assert forall|i: int| 0 <= i < queue@.len() implies task_ok(pyr, qx as int, qy as int, #[trigger] queue@[i]) by {
                        if i < l {
                            assert(queue@[i] == mid[i]);
                        }
                    }
                    assert forall|px: int, py: int| differs(img, n, own, px, py) implies covered(queue@, px, py) by {
                        let i = choose|i: int|
                            0 <= i < old_q.len() && #[trigger] in_block(
                                old_q[i].level as nat,
                                old_q[i].x as int,
                                old_q[i].y as int,
                                px,
                                py,
                            );
                        if i == idx {
                            let (ccx, ccy) = lemma_child_containing(t.level as nat, t.x as int, t.y as int, px, py);
                            if ccx == cx && ccy == cy {
                                assert(in_block(queue@[l].level as nat, queue@[l].x as int, queue@[l].y as int, px, py));
                            } else if ccx == cx + 1 && ccy == cy {
                                assert(in_block(queue@[l + 1].level as nat, queue@[l + 1].x as int, queue@[l + 1].y as int, px, py));
                            } else if ccx == cx && ccy == cy + 1 {
                                assert(in_block(queue@[l + 2].level as nat, queue@[l + 2].x as int, queue@[l + 2].y as int, px, py));
                            } else {
                                assert(in_block(queue@[l + 3].level as nat, queue@[l + 3].x as int, queue@[l + 3].y as int, px, py));
                            }
                        } else if i < idx {
                            assert(queue@[i] == old_q[i]);
                        } else {
                            assert(queue@[i - 1] == old_q[i]);
                        }
                    }
                }
            }
        }
    }
    proof {
        assert forall|px: int, py: int| !#[trigger] differs(img, n, own, px, py) by {
            if differs(img, n, own, px, py) {
                assert(covered(queue@, px, py));
            }
        }
    }
    None
}

/// The nearest distance is unique: any two results that meet the search's
/// contract agree, so a search with pruning and one without it give the same
/// value for every pixel.
pub proof fn lemma_nearest_unique(img: Seq<bool>, n: int, qx: int, qy: int, a: Option<u64>, b: Option<u64>)
    requires
        is_nearest(img, n, qx, qy, a),
        is_nearest(img, n, qx, qy, b),
    ensures
        a == b,
{
    let own = img[qy * n + qx];
    match (a, b) {
        (Some(da), Some(db)) => {
            let (px, py) = choose|px: int, py: int|
                #[trigger] differs(img, n, own, px, py) && dist_sqr(qx, qy, px, py) == da;
            let (rx, ry) = choose|rx: int, ry: int|
                #[trigger] differs(img, n, own, rx, ry) && dist_sqr(qx, qy, rx, ry) == db;
            assert(db <= da);
            assert(da <= db);
        },
        (Some(da), None) => {
            let (px, py) = choose|px: int, py: int|
                #[trigger] differs(img, n, own, px, py) && dist_sqr(qx, qy, px, py) == da;
        },
        (None, Some(db)) => {
            let (px, py) = choose|px: int, py: int|
                #[trigger] differs(img, n, own, px, py) && dist_sqr(qx, qy, px, py) == db;
        },
        (None, None) => {},
    }
}

/// A pixel whose colour fills the disc of squared radius `radius` around it
/// is farther than that from the other colour.
pub proof fn lemma_far_from_boundary(img: Seq<bool>, n: int, qx: int, qy: int, d: u64, radius: int)
    requires
        is_nearest(img, n, qx, qy, Some(d)),
        forall|px: int, py: int|
            0 <= px < n && 0 <= py < n && dist_sqr(qx, qy, px, py) <= radius ==> #[trigger] img[py
                * n + px] == img[qy * n + qx],
    ensures
        d > radius,
{
    let own = img[qy * n + qx];
    let (px, py) = choose|px: int, py: int|
        #[trigger] differs(img, n, own, px, py) && dist_sqr(qx, qy, px, py) == d;
    assert(img[py * n + px] != own);
}

/// In an image of a single colour no pixel of the other colour is found, so
/// every sample saturates: at `0` for foreground, `2 * top` for background.
pub proof fn lemma_single_colour_saturates(
    img: Seq<bool>,
    n: int,
    c: bool,
    qx: int,
    qy: int,
    smp: Sample,
    sat: int,
    top: int,
    v: int,
)
    requires
        img.len() == n * n,
        0 <= qx < n,
        0 <= qy < n,
        forall|i: int| 0 <= i < img.len() ==> #[trigger] img[i] == c,
        sample_ok(img, n, qx, qy, smp),
        crate::quantize::is_quantized(v, smp, sat, top),
    ensures
        smp.dist_sqr is None,
        v == if c {
            0
        } else {
            2 * top
        },
{
    crate::arith::lemma_cell_index(n, qx, qy);
    if let Some(d) = smp.dist_sqr {
        let own = img[qy * n + qx];
        let (px, py) = choose|px: int, py: int|
            #[trigger] differs(img, n, own, px, py) && dist_sqr(qx, qy, px, py) == d;
        crate::arith::lemma_cell_index(n, px, py);
    }
}

/// The result of the search for one output pixel.
#[derive(Clone, Copy, Debug)]
pub struct Sample {
    /// Whether the pixel searched from is foreground; its signed distance is
    /// then negative.
    pub inside: bool,
    /// Squared distance to the nearest pixel of the other colour; `None` when
    /// the image has a single colour.
    pub dist_sqr: Option<u64>,
}

/// The pixel of an image of side `n` searched from for output coordinate `o`
/// of a field of side `out`: the middle of the `n / out` pixels it stands for.
pub open spec fn source_coord(n: int, out: int, o: int) -> int {
    o * (n / out) + (n / out) / 2
}

/// Entry `(x, y)` of a row-major grid of side `s`.
pub open spec fn sample_at(g: Seq<Sample>, s: int, x: int, y: int) -> Sample {
    g[y * s + x]
}

/// Whether `smp` is the correct sample of the image for pixel `(qx, qy)`.
pub open spec fn sample_ok(img: Seq<bool>, n: int, qx: int, qy: int, smp: Sample) -> bool {
    &&& smp.inside == img[qy * n + qx]
    &&& is_nearest(img, n, qx, qy, smp.dist_sqr)
}

/// Samples one pixel of the image.
pub fn sample_pixel(pyr: &Pyramid, qx: u32, qy: u32) -> (r: Sample)
    requires
        pyr.wf(),
        qx < pyr.image.side,
        qy < pyr.image.side,
    ensures
        sample_ok(pyr.image.pixels@, pyr.image.side as int, qx as int, qy as int, r),
{
    let inside = pyr.image.pixel(qx as usize, qy as usize);
    let dist_sqr = nearest_differing(pyr, qx, qy, true);
    Sample { inside, dist_sqr }
}

/// The distance field of side `out_side` over the pyramid's image, row-major:
/// output pixel `(ox, oy)` holds the sample of image pixel
/// `(source_coord(ox), source_coord(oy))`.
pub fn calculate_sdf(pyr: &Pyramid, out_side: usize) -> (r: Vec<Sample>)
    requires
        pyr.wf(),
        1 <= out_side <= pyr.image.side,
    ensures
        r@.len() == out_side * out_side,
        forall|ox: int, oy: int|
            0 <= ox < out_side && 0 <= oy < out_side ==> sample_ok(
                pyr.image.pixels@,
                pyr.image.side as int,
                source_coord(pyr.image.side as int, out_side as int, ox),
                source_coord(pyr.image.side as int, out_side as int, oy),
                #[trigger] sample_at(r@, out_side as int, ox, oy),
            ),
{
    let ghost img = pyr.image.pixels@;
    let n = pyr.image.side;
    let scale = n / out_side;
    proof {
        assert(scale * out_side <= n) by (nonlinear_arith)
            requires
                scale == n / out_side,
                out_side >= 1,
        ;
        assert(scale >= 1) by (nonlinear_arith)
            requires
                scale == n / out_side,
                1 <= out_side <= n,
        ;
        lemma_pow2_30();
        lemma_pow2_mono(pyr.image.log_side as nat, 30);
    }
    let mut out: Vec<Sample> = Vec::new();
    let mut oy: usize = 0;
    while oy < out_side
        invariant
            pyr.wf(),
            img == pyr.image.pixels@,
            n == pyr.image.side,
            n <= MAX_SIDE,
            1 <= out_side <= n,
            scale == n / out_side,
            scale * out_side <= n,
            scale >= 1,
            oy <= out_side,
            out@.len() == oy * out_side,
            forall|xx: int, yy: int|
                0 <= xx < out_side && 0 <= yy < oy ==> sample_ok(
                    img,
                    n as int,
                    source_coord(n as int, out_side as int, xx),
                    source_coord(n as int, out_side as int, yy),
                    #[trigger] sample_at(out@, out_side as int, xx, yy),
                ),
        decreases out_side - oy,
    {
        let mut ox: usize = 0;
        while ox < out_side
            invariant
                pyr.wf(),
                img == pyr.image.pixels@,
                n == pyr.image.side,
                n <= MAX_SIDE,
                1 <= out_side <= n,
                scale == n / out_side,
                scale * out_side <= n,
                scale >= 1,
                oy < out_side,
                ox <= out_side,
                out@.len() == oy * out_side + ox,
                forall|xx: int, yy: int|
                    0 <= xx < out_side && 0 <= yy < oy ==> sample_ok(
                        img,
                        n as int,
                        source_coord(n as int, out_side as int, xx),
                        source_coord(n as int, out_side as int, yy),
                        #[trigger] sample_at(out@, out_side as int, xx, yy),
                    ),
                forall|xx: int|
                    0 <= xx < ox ==> sample_ok(
                        img,
                        n as int,
                        source_coord(n as int, out_side as int, xx),
                        source_coord(n as int, out_side as int, oy as int),
                        #[trigger] sample_at(out@, out_side as int, xx, oy as int),
                    ),
            decreases out_side - ox,
        {
            proof {
                assert((ox + 1) * scale <= out_side * scale) by (nonlinear_arith)
                    requires
                        ox + 1 <= out_side,
                ;
                assert((ox + 1) * scale == ox * scale + scale) by (nonlinear_arith);
                assert((oy + 1) * scale <= out_side * scale) by (nonlinear_arith)
                    requires
                        oy + 1 <= out_side,
                ;
                assert((oy + 1) * scale == oy * scale + scale) by (nonlinear_arith);
            }
            let qx = ox * scale + scale / 2;
            let qy = oy * scale + scale / 2;
            let smp = sample_pixel(pyr, qx as u32, qy as u32);
            let ghost before = out@;
            out.push(smp);
            proof {
                crate::arith::lemma_cell_index(out_side as int, ox as int, oy as int);
                assert forall|xx: int, yy: int|
                    0 <= xx < out_side && 0 <= yy < oy implies sample_ok(
                        img,
                        n as int,
                        source_coord(n as int, out_side as int, xx),
                        source_coord(n as int, out_side as int, yy),
                        #[trigger] sample_at(out@, out_side as int, xx, yy),
                    ) by {
                    crate::arith::lemma_row_before(out_side as int, xx, yy, oy as int);
                    assert(sample_at(out@, out_side as int, xx, yy) == sample_at(before, out_side as int, xx, yy));
                }
                assert forall|xx: int|
                    0 <= xx < ox + 1 implies sample_ok(
                        img,
                        n as int,
                        source_coord(n as int, out_side as int, xx),
                        source_coord(n as int, out_side as int, oy as int),
                        #[trigger] sample_at(out@, out_side as int, xx, oy as int),
                    ) by {
                    if xx < ox {
                        assert(sample_at(out@, out_side as int, xx, oy as int) == sample_at(before, out_side as int, xx, oy as int));
                    }
                }
            }
            ox = ox + 1;
        }
        proof {
            assert((oy + 1) * out_side == oy * out_side + out_side) by (nonlinear_arith);
        }
        oy = oy + 1;
    }
    out
}

} // verus!
