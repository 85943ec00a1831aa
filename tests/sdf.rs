use sdfgen::bitmap::{canvas_side, is_foreground, pad_to_square, BinaryImage};
use sdfgen::pyramid::{merge, Pyramid, Summary};
use sdfgen::quantize::{encode_u16_le, field_to_grey, field_to_u16, level_of, to_grey, to_u16};
use sdfgen::sdf_task::{make_task, min_index, SdfTask};
use sdfgen::search::{calculate_sdf, nearest_differing, sample_pixel, Sample};
use std::cmp::Ordering;

fn image_from_bits(side: u32, bits: &[bool]) -> BinaryImage {
    let grey: Vec<u8> = bits.iter().map(|&b| if b { 255 } else { 0 }).collect();
    BinaryImage::from_grey(side, side, &grey).expect("square power-of-two image")
}

fn brute_force(side: usize, bits: &[bool], qx: usize, qy: usize) -> Option<u64> {
    let own = bits[qy * side + qx];
    let mut best: Option<u64> = None;
    for py in 0..side {
        for px in 0..side {
            if bits[py * side + px] != own {
                let dx = px as i64 - qx as i64;
                let dy = py as i64 - qy as i64;
                let d = (dx * dx + dy * dy) as u64;
                best = Some(match best {
                    Some(b) if b <= d => b,
                    _ => d,
                });
            }
        }
    }
    best
}

fn random_bits(side: usize, seed: u64, density: u64) -> Vec<bool> {
    let mut state = seed;
    let mut out = Vec::new();
    for _ in 0..side * side {
        state = state.wrapping_mul(6364136223846793005).wrapping_add(1442695040888963407);
        out.push((state >> 33) % 100 < density);
    }
    out
}

fn signed_distance(s: &Sample) -> f64 {
    let d = (s.dist_sqr.expect("a pixel of the other colour") as f64).sqrt();
    if s.inside {
        -d
    } else {
        d
    }
}

#[test]
fn threshold_midpoint() {
    assert!(!is_foreground(0));
    assert!(!is_foreground(127));
    assert!(is_foreground(128));
    assert!(is_foreground(255));
}

#[test]
fn from_grey_rejects_bad_shapes() {
    assert!(BinaryImage::from_grey(4, 2, &vec![0; 8]).is_none());
    assert!(BinaryImage::from_grey(3, 3, &vec![0; 9]).is_none());
    assert!(BinaryImage::from_grey(0, 0, &vec![]).is_none());
    assert!(BinaryImage::from_grey(4, 4, &vec![0; 15]).is_none());
    let img = BinaryImage::from_grey(2, 2, &vec![0, 200, 127, 128]).unwrap();
    assert_eq!(img.side, 2);
    assert_eq!(img.log_side, 1);
    assert_eq!(img.pixels, vec![false, true, false, true]);
    assert!(img.pixel(1, 0));
    assert!(!img.pixel(0, 1));
}

#[test]
fn canvas_is_least_power_of_two() {
    assert_eq!(canvas_side(1, 1), 1);
    assert_eq!(canvas_side(4, 4), 4);
    assert_eq!(canvas_side(5, 3), 8);
    assert_eq!(canvas_side(2, 8), 8);
    assert_eq!(canvas_side(9, 9), 16);
}

#[test]
fn padding_centres_image_on_white() {
    // 3 wide, 2 high: canvas 4, offsets (0, 1).
    let grey = vec![1, 2, 3, 4, 5, 6];
    let (side, canvas) = pad_to_square(3, 2, &grey);
    assert_eq!(side, 4);
    assert_eq!(
        canvas,
        vec![255, 255, 255, 255, 1, 2, 3, 255, 4, 5, 6, 255, 255, 255, 255, 255]
    );
    let (side, canvas) = pad_to_square(2, 2, &vec![7, 8, 9, 10]);
    assert_eq!(side, 2);
    assert_eq!(canvas, vec![7, 8, 9, 10]);
}

#[test]
fn merge_summaries() {
    let (f, b, m) = (Summary::Foreground, Summary::Background, Summary::Mixed);
    assert_eq!(merge(f, f, f, f), f);
    assert_eq!(merge(b, b, b, b), b);
    assert_eq!(merge(b, f, b, b), m);
    assert_eq!(merge(m, m, m, m), m);
}

#[test]
fn pyramid_level_count() {
    for n in 0..7u32 {
        let side = 1u32 << n;
        let img = image_from_bits(side, &vec![false; (side * side) as usize]);
        let pyr = Pyramid::new(img);
        assert_eq!(pyr.levels_count(), n as usize + 1);
        assert_eq!(pyr.level(n as usize).len(), 1);
        assert_eq!(pyr.side_at(n as usize), 1);
        for k in 0..=n as usize {
            assert_eq!(pyr.side_at(k), (side >> k) as usize);
        }
    }
}

#[test]
fn pyramid_cells_summarise_blocks() {
    // 4x4, foreground only at (1, 1).
    let mut bits = vec![false; 16];
    bits[1 * 4 + 1] = true;
    let pyr = Pyramid::new(image_from_bits(4, &bits));
    assert_eq!(pyr.cell(0, 1, 1), Summary::Foreground);
    assert_eq!(pyr.cell(0, 2, 2), Summary::Background);
    assert_eq!(pyr.cell(1, 0, 0), Summary::Mixed);
    assert_eq!(pyr.cell(1, 1, 0), Summary::Background);
    assert_eq!(pyr.cell(1, 1, 1), Summary::Background);
    assert_eq!(pyr.cell(2, 0, 0), Summary::Mixed);
}

#[test]
fn task_priority_prefers_smaller_bound() {
    let a = SdfTask { x: 0, y: 0, level: 1, best_case_dst_sqr: 2 };
    let b = SdfTask { x: 1, y: 0, level: 1, best_case_dst_sqr: 5 };
    assert_eq!(a.priority_cmp(&b), Ordering::Greater);
    assert_eq!(b.priority_cmp(&a), Ordering::Less);
    assert_eq!(a.priority_cmp(&a), Ordering::Equal);
    assert_eq!(min_index(&vec![b, a, b]), 1);
}

#[test]
fn task_bound_is_distance_to_block() {
    // Block of level 1 at (1, 0) covers pixels x in 2..4, y in 0..2.
    let t = make_task(0, 3, 1, 1, 0, 2);
    assert_eq!(t.best_case_dst_sqr, 2 * 2 + 2 * 2);
    let inside = make_task(3, 1, 1, 1, 0, 2);
    assert_eq!(inside.best_case_dst_sqr, 0);
    let exact = make_task(0, 0, 0, 3, 4, 1);
    assert_eq!(exact.best_case_dst_sqr, 25);
}

#[test]
fn single_foreground_pixel_scenario() {
    let mut bits = vec![false; 16];
    bits[1 * 4 + 1] = true;
    let pyr = Pyramid::new(image_from_bits(4, &bits));
    let field = calculate_sdf(&pyr, 4);
    assert_eq!(field.len(), 16);
    let at = |x: usize, y: usize| field[y * 4 + x];
    // The foreground pixel itself is one pixel from the background.
    assert!(at(1, 1).inside);
    assert_eq!(at(1, 1).dist_sqr, Some(1));
    for (x, y) in [(0, 1), (2, 1), (1, 0), (1, 2)] {
        assert!(!at(x, y).inside);
        assert_eq!(signed_distance(&at(x, y)), 1.0);
    }
    for (x, y) in [(0, 0), (2, 0), (0, 2), (2, 2)] {
        assert_eq!(signed_distance(&at(x, y)), 2f64.sqrt());
    }
    assert_eq!(at(3, 3).dist_sqr, Some(8));
}

#[test]
fn search_matches_brute_force() {
    for (side, seed, density) in [(4, 1, 50), (8, 2, 10), (16, 3, 3), (16, 4, 60), (32, 5, 1), (64, 6, 2)] {
        let bits = random_bits(side, seed, density);
        let pyr = Pyramid::new(image_from_bits(side as u32, &bits));
        for qy in 0..side {
            for qx in 0..side {
                let expected = brute_force(side, &bits, qx, qy);
                assert_eq!(nearest_differing(&pyr, qx as u32, qy as u32, true), expected);
            }
        }
    }
}

#[test]
fn pruning_does_not_change_results() {
    for seed in 10..20u64 {
        let bits = random_bits(16, seed, 15);
        let pyr = Pyramid::new(image_from_bits(16, &bits));
        for qy in 0..16u32 {
            for qx in 0..16u32 {
                assert_eq!(
                    nearest_differing(&pyr, qx, qy, true),
                    nearest_differing(&pyr, qx, qy, false)
                );
            }
        }
    }
}

#[test]
fn far_inside_homogeneous_region() {
    // 32x32 with a foreground square covering 4..28 in both axes.
    let side = 32usize;
    let mut bits = vec![false; side * side];
    for y in 4..28 {
        for x in 4..28 {
            bits[y * side + x] = true;
        }
    }
    let pyr = Pyramid::new(image_from_bits(side as u32, &bits));
    let centre = sample_pixel(&pyr, 16, 16);
    assert!(centre.inside);
    assert!(signed_distance(&centre) <= -12.0);
    assert_eq!(centre.dist_sqr, brute_force(side, &bits, 16, 16));
    let outside = sample_pixel(&pyr, 0, 0);
    assert!(!outside.inside);
    assert_eq!(outside.dist_sqr, Some(32));
}

#[test]
fn single_colour_image_saturates() {
    for side in [1u32, 2, 8] {
        let bits = vec![false; (side * side) as usize];
        let pyr = Pyramid::new(image_from_bits(side, &bits));
        let field = calculate_sdf(&pyr, side as usize);
        assert!(field.iter().all(|s| s.dist_sqr.is_none() && !s.inside));
        assert!(field_to_u16(&field, 5).iter().all(|&v| v == 65534));
        assert!(field_to_grey(&field, 5).iter().all(|&v| v == 254));
    }
    let pyr = Pyramid::new(image_from_bits(4, &vec![true; 16]));
    let field = calculate_sdf(&pyr, 2);
    assert!(field_to_u16(&field, 3).iter().all(|&v| v == 0));
    assert!(field_to_grey(&field, 3).iter().all(|&v| v == 0));
}

#[test]
fn smaller_output_samples_block_centres() {
    // 8x8, foreground only at (6, 2); output 2x2 samples pixels 2 and 6.
    let mut bits = vec![false; 64];
    bits[2 * 8 + 6] = true;
    let pyr = Pyramid::new(image_from_bits(8, &bits));
    let field = calculate_sdf(&pyr, 2);
    assert_eq!(field.len(), 4);
    assert_eq!(field[0].dist_sqr, Some(16));
    assert!(field[1].inside);
    assert_eq!(field[1].dist_sqr, Some(1));
    assert_eq!(field[2].dist_sqr, Some(32));
    assert_eq!(field[3].dist_sqr, Some(16));
}

#[test]
fn saturation_extremes_and_midpoint() {
    let d = 6u64;
    let out = Sample { inside: false, dist_sqr: Some(d * d) };
    let inn = Sample { inside: true, dist_sqr: Some(d * d) };
    let zero = Sample { inside: false, dist_sqr: Some(0) };
    assert_eq!(to_u16(out, 6), 65534);
    assert_eq!(to_u16(inn, 6), 0);
    assert_eq!(to_u16(zero, 6), 32767);
    assert_eq!(to_grey(out, 6), 254);
    assert_eq!(to_grey(inn, 6), 0);
    assert_eq!(to_grey(zero, 6), 127);
    let beyond = Sample { inside: false, dist_sqr: Some(1000) };
    assert_eq!(to_u16(beyond, 6), 65534);
}

#[test]
fn quantization_levels() {
    assert_eq!(level_of(1, 4, 32767), 8191);
    assert_eq!(level_of(2, 4, 127), 44);
    assert_eq!(level_of(2, 1, 127), 127);
    assert_eq!(level_of(0, 9, 127), 0);
    assert_eq!(to_u16(Sample { inside: true, dist_sqr: Some(1) }, 4), 32767 - 8191);
    assert_eq!(to_grey(Sample { inside: false, dist_sqr: Some(2) }, 4), 127 + 44);
}

#[test]
fn little_endian_encoding() {
    assert_eq!(encode_u16_le(&vec![0x1234, 0xfffe, 0]), vec![0x34, 0x12, 0xfe, 0xff, 0, 0]);
}
