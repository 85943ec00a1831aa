use vstd::prelude::*;
use byteorder::ByteOrder;
use crate::sdf_task::sq;
use crate::search::Sample;

verus! {

/// Steps on each side of the midpoint of 16-bit output.
pub const TOP16: u32 = 32767;

/// Steps on each side of the midpoint of 8-bit grey output.
pub const TOP8: u32 = 127;

/// Whether `m` is the number of steps, out of `top`, that a distance of
/// `sqrt(dsq)` takes at saturation distance `sat`: the largest `m <= top`
/// with `m <= sqrt(dsq) / sat * top`, i.e. that fraction rounded down and
/// clamped to `top`.
pub open spec fn is_level(m: int, dsq: int, sat: int, top: int) -> bool {
    &&& 0 <= m <= top
    &&& sq(m * sat) <= dsq * sq(top)
    &&& (m == top || sq((m + 1) * sat) > dsq * sq(top))
}

/// The output value of a sample: `top` is the midpoint; background pixels
/// (positive distance) lie above it and foreground pixels below. A sample
/// with no pixel of the other colour saturates.
pub open spec fn is_quantized(r: int, s: Sample, sat: int, top: int) -> bool {
    match s.dist_sqr {
        None => r == if s.inside {
            0
        } else {
            2 * top
        },
        Some(d) => if s.inside {
            r <= top && is_level(top - r, d as int, sat, top)
        } else {
            r >= top && is_level(r - top, d as int, sat, top)
        },
    }
}

fn fits(m: u32, dsq: u64, sat: u32, top: u32) -> (r: bool)
    requires
        m <= top <= TOP16,
    ensures
        r == (sq(m * sat) <= dsq * sq(top as int)),
{
    proof {
        assert(m * sat <= 140733193355265) by (nonlinear_arith)
            requires
                m <= 32767,
                sat <= 0xffff_ffff,
        ;
        assert((m * sat) * (m * sat) <= (32767 * 0xffff_ffff) * (32767 * 0xffff_ffff)) by (nonlinear_arith)
            requires
                m * sat <= 32767 * 0xffff_ffff,
        ;
        assert(top * top <= 32767 * 32767) by (nonlinear_arith)
            requires
                top <= 32767,
        ;
        assert(dsq * (top * top) <= 0xffff_ffff_ffff_ffff * (32767 * 32767)) by (nonlinear_arith)
            requires
                top * top <= 32767 * 32767,
                dsq <= 0xffff_ffff_ffff_ffff,
        ;
    }
    let ms: u128 = m as u128 * sat as u128;
    assert(ms * ms <= 19805831711970404748503220225) by (nonlinear_arith)
        requires
            ms <= 140733193355265,
    ;
    let lhs: u128 = ms * ms;
    let tt: u128 = top as u128 * top as u128;
    lhs <= dsq as u128 * tt
}

/// The number of steps, out of `top`, of a distance `sqrt(dsq)`.
pub fn level_of(dsq: u64, sat: u32, top: u32) -> (m: u32)
    requires
        sat > 0,
        top <= TOP16,
    ensures
        is_level(m as int, dsq as int, sat as int, top as int),
{
    let mut lo: u32 = 0;
    let mut hi: u32 = top + 1;
    proof {
        assert(sq(0 * sat as int) == 0);
        assert(0 <= dsq * sq(top as int)) by (nonlinear_arith);
    }
    while hi - lo > 1
        invariant
            lo < hi <= top + 1,
            top <= TOP16,
            sq(lo * sat) <= dsq * sq(top as int),
            hi == top + 1 || sq(hi * sat) > dsq * sq(top as int),
        decreases hi - lo,
    {
        let mid = lo + (hi - lo) / 2;
        if fits(mid, dsq, sat, top) {
            lo = mid;
        } else {
            hi = mid;
        }
    }
    lo
}

/// Quantizes a sample on `2 * top + 1` steps around the midpoint `top`.
pub fn quantize(s: Sample, sat: u32, top: u32) -> (r: u32)
    requires
        sat > 0,
        top <= TOP16,
    ensures
        is_quantized(r as int, s, sat as int, top as int),
        r <= 2 * top,
{
    match s.dist_sqr {
        None => if s.inside {
            0
        } else {
            2 * top
        },
        Some(d) => {
            let m = level_of(d, sat, top);
            if s.inside {
                top - m
            } else {
                top + m
            }
        },
    }
}

/// The 16-bit value of a sample: `32767` for a distance of zero, `0` and
/// `65534` for distances of `-sat` and `+sat` or beyond.
pub fn to_u16(s: Sample, sat: u32) -> (r: u16)
    requires
        sat > 0,
    ensures
        is_quantized(r as int, s, sat as int, TOP16 as int),
{
    quantize(s, sat, TOP16) as u16
}

/// The 8-bit grey value of a sample: `127` for a distance of zero, `0` and
/// `254` for distances of `-sat` and `+sat` or beyond.
pub fn to_grey(s: Sample, sat: u32) -> (r: u8)
    requires
        sat > 0,
    ensures
        is_quantized(r as int, s, sat as int, TOP8 as int),
{
    quantize(s, sat, TOP8) as u8
}

/// Quantizes every sample of a field to 16 bits.
pub fn field_to_u16(field: &Vec<Sample>, sat: u32) -> (r: Vec<u16>)
    requires
        sat > 0,
    ensures
        r@.len() == field@.len(),
        forall|i: int|
            0 <= i < field@.len() ==> is_quantized(#[trigger] r@[i] as int, field@[i], sat as int, TOP16 as int),
{
    let mut out: Vec<u16> = Vec::new();
    let mut i: usize = 0;
    while i < field.len()
        invariant
            sat > 0,
            i <= field@.len(),
            out@.len() == i,
            forall|j: int|
                0 <= j < i ==> is_quantized(#[trigger] out@[j] as int, field@[j], sat as int, TOP16 as int),
        decreases field@.len() - i,
    {
        out.push(to_u16(field[i], sat));
        i = i + 1;
    }
    out
}

/// Quantizes every sample of a field to 8-bit grey values.
pub fn field_to_grey(field: &Vec<Sample>, sat: u32) -> (r: Vec<u8>)
    requires
        sat > 0,
    ensures
        r@.len() == field@.len(),
        forall|i: int|
            0 <= i < field@.len() ==> is_quantized(#[trigger] r@[i] as int, field@[i], sat as int, TOP8 as int),
{
    let mut out: Vec<u8> = Vec::new();
    let mut i: usize = 0;
    while i < field.len()
        invariant
            sat > 0,
            i <= field@.len(),
            out@.len() == i,
            forall|j: int|
                0 <= j < i ==> is_quantized(#[trigger] out@[j] as int, field@[j], sat as int, TOP8 as int),
        decreases field@.len() - i,
    {
        out.push(to_grey(field[i], sat));
        i = i + 1;
    }
    out
}

/// Relies on `byteorder::LittleEndian::write_u16`: it stores the low byte
/// of `n` first and the high byte second.
#[verifier::external_body]
fn le_bytes(n: u16) -> (r: (u8, u8))
    ensures
        r.0 == n % 256,
        r.1 == n / 256,
{
    let mut buf = [0u8; 2];
    byteorder::LittleEndian::write_u16(&mut buf, n);
    (buf[0], buf[1])
}

/// The values in little-endian byte order, two bytes each.
pub fn encode_u16_le(values: &Vec<u16>) -> (r: Vec<u8>)
    requires
        values@.len() * 2 <= usize::MAX,
    ensures
        r@.len() == 2 * values@.len(),
        forall|i: int|
            0 <= i < values@.len() ==> r@[2 * i] == #[trigger] values@[i] % 256 && r@[2 * i + 1]
                == values@[i] / 256,
{
    let mut out: Vec<u8> = Vec::new();
    let mut i: usize = 0;
    while i < values.len()
        invariant
            i <= values@.len(),
            out@.len() == 2 * i,
            forall|j: int|
                0 <= j < i ==> out@[2 * j] == #[trigger] values@[j] % 256 && out@[2 * j + 1]
                    == values@[j] / 256,
        decreases values@.len() - i,
    {
        let (lo, hi) = le_bytes(values[i]);
        out.push(lo);
        out.push(hi);
        i = i + 1;
    }
    out
}

/// A distance of exactly the saturation distance takes every step, and a
/// distance of zero takes none: so `+sat` and `-sat` quantize to `2 * top`
/// and `0`, and zero to the midpoint `top`.
pub proof fn lemma_saturation_round_trip(sat: int, top: int, m: int)
    requires
        sat > 0,
        top >= 0,
    ensures
        is_level(m, sat * sat, sat, top) ==> m == top,
        is_level(m, 0, sat, top) ==> m == 0,
{
    if is_level(m, sat * sat, sat, top) && m < top {
        assert(sq((m + 1) * sat) <= (sat * sat) * sq(top)) by (nonlinear_arith)
            requires
                0 <= m,
                m + 1 <= top,
                sat > 0,
        ;
    }
    if is_level(m, 0, sat, top) {
        assert(m == 0) by (nonlinear_arith)
            requires
                0 <= m,
                sq(m * sat) <= 0 * sq(top),
                sat > 0,
        ;
    }
}

} // verus!
