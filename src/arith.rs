use vstd::prelude::*;

verus! {

/// `2^k` as a natural number.
pub open spec fn pow2(k: nat) -> nat
    decreases k,
{
    if k == 0 {
        1
    } else {
        2 * pow2((k - 1) as nat)
    }
}

/// `2^30`, the largest image side handled.
pub proof fn lemma_pow2_30()
    ensures
        pow2(30) == 1073741824,
{
    reveal_with_fuel(pow2, 31);
}

pub proof fn lemma_pow2_pos(k: nat)
    ensures
        pow2(k) >= 1,
    decreases k,
{
    if k > 0 {
        lemma_pow2_pos((k - 1) as nat);
    }
}

pub proof fn lemma_pow2_add(a: nat, b: nat)
    ensures
        pow2(a) * pow2(b) == pow2(a + b),
    decreases a,
{
    if a > 0 {
        lemma_pow2_add((a - 1) as nat, b);
        assert(pow2(a + b) == 2 * pow2(((a - 1) as nat + b) as nat));
        assert(pow2(a) * pow2(b) == 2 * (pow2((a - 1) as nat) * pow2(b))) by (nonlinear_arith)
            requires
                pow2(a) == 2 * pow2((a - 1) as nat),
        ;
    } else {
        assert(pow2(a) == 1);
    }
}

pub proof fn lemma_pow2_mono(a: nat, b: nat)
    requires
        a <= b,
    ensures
        pow2(a) <= pow2(b),
    decreases b,
{
    if a < b {
        lemma_pow2_mono(a, (b - 1) as nat);
        lemma_pow2_pos((b - 1) as nat);
    }
}

/// Row-major cell indices stay inside a `s` by `s` grid.
pub proof fn lemma_cell_index(s: int, x: int, y: int)
    requires
        0 <= x < s,
        0 <= y < s,
    ensures
        0 <= y * s + x < s * s,
        y * s + x + 1 <= s * s,
{
    assert(y * s + x < s * s) by (nonlinear_arith)
        requires
            0 <= x < s,
            0 <= y < s,
    ;
    assert(0 <= y * s) by (nonlinear_arith)
        requires
            0 <= y,
            0 <= s,
    ;
}

/// A block of level `k` at column `x < 2^(m - k)` ends inside the image of side `2^m`.
pub proof fn lemma_block_fits(m: nat, k: nat, x: int)
    requires
        k <= m,
        0 <= x < pow2((m - k) as nat),
    ensures
        (x + 1) * pow2(k) <= pow2(m),
        0 <= x * pow2(k),
{
    lemma_pow2_add((m - k) as nat, k);
    assert(((m - k) as nat + k) as nat == m);
    let a = pow2((m - k) as nat);
    let b = pow2(k);
    assert((x + 1) * b <= a * b) by (nonlinear_arith)
        requires
            x + 1 <= a,
            0 <= b,
    ;
    assert(0 <= x * b) by (nonlinear_arith)
        requires
            0 <= x,
            0 <= b,
    ;
}

/// Row-major indices stay inside a `w` by `h` grid.
pub proof fn lemma_rect_index(w: int, h: int, x: int, y: int)
    requires
        0 <= x < w,
        0 <= y < h,
    ensures
        0 <= y * w + x < w * h,
{
    assert(y * w + x < w * h) by (nonlinear_arith)
        requires
            0 <= x < w,
            0 <= y < h,
    ;
    assert(0 <= y * w) by (nonlinear_arith)
        requires
            0 <= y,
            0 <= w,
    ;
}

/// Earlier rows of a row-major grid come before later ones.
pub proof fn lemma_row_before(s: int, xx: int, yy: int, y: int)
    requires
        0 <= xx < s,
        0 <= yy < y,
    ensures
        yy * s + xx < y * s,
        0 <= yy * s + xx,
{
    assert(yy * s + xx < y * s) by (nonlinear_arith)
        requires
            0 <= xx < s,
            0 <= yy < y,
    ;
    assert(0 <= yy * s) by (nonlinear_arith)
        requires
            0 <= yy,
            0 <= s,
    ;
}

} // verus!
