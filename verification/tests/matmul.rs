use annapura::arith::Arith;
use annapura::matmul::{matmul_blocked, matmul_ikj, matmul_naive};

/// Single-precision arithmetic.
struct F32;

impl Arith for F32 {
    type Num = f32;

    fn from_i8(v: i8) -> f32 {
        v as f32
    }
    fn from_u64(v: u64) -> f32 {
        v as f32
    }
    fn from_bits(bits: u32) -> f32 {
        f32::from_bits(bits)
    }
    fn empty_sum() -> f32 {
        core::iter::empty::<f32>().sum()
    }
    fn infinity() -> f32 {
        f32::INFINITY
    }
    fn neg_infinity() -> f32 {
        f32::NEG_INFINITY
    }
    fn plus(a: f32, b: f32) -> f32 {
        a + b
    }
    fn minus(a: f32, b: f32) -> f32 {
        a - b
    }
    fn times(a: f32, b: f32) -> f32 {
        a * b
    }
    fn divide(a: f32, b: f32) -> f32 {
        a / b
    }
    fn negate(a: f32) -> f32 {
        -a
    }
    fn abs(a: f32) -> f32 {
        a.abs()
    }
    fn sqrt(a: f32) -> f32 {
        a.sqrt()
    }
    fn exp(a: f32) -> f32 {
        a.exp()
    }
    fn powf(base: f32, e: f32) -> f32 {
        base.powf(e)
    }
    fn sin_cos(a: f32) -> (f32, f32) {
        a.sin_cos()
    }
    fn max(a: f32, b: f32) -> f32 {
        a.max(b)
    }
    fn min(a: f32, b: f32) -> f32 {
        a.min(b)
    }
    fn exceeds(a: f32, b: f32) -> bool {
        a > b
    }
}

#[test]
fn identity_times_identity_is_identity() {
    let id: Vec<f32> = vec![1., 0., 0., 0., 1., 0., 0., 0., 1.];
    let mut out = vec![0.0_f32; 9];
    matmul_naive::<F32>(&id, &id, &mut out, 3, 3, 3);
    assert_eq!(out, id);
}

#[test]
fn two_by_two_known_answer() {
    // [[1,2],[3,4]] · [[5,6],[7,8]] = [[19,22],[43,50]]
    let a = vec![1., 2., 3., 4.];
    let b = vec![5., 6., 7., 8.];
    let mut c = vec![0.0_f32; 4];
    matmul_naive::<F32>(&a, &b, &mut c, 2, 2, 2);
    assert_eq!(c, vec![19., 22., 43., 50.]);
}

#[test]
fn rectangular_two_by_three_times_three_by_two() {
    // A = [[1,2,3],[4,5,6]], B = [[1,2],[3,4],[5,6]]
    // row 0 · col 0 = 1*1+2*3+3*5 = 22; row 0 · col 1 = 1*2+2*4+3*6 = 28
    // row 1 · col 0 = 4*1+5*3+6*5 = 49; row 1 · col 1 = 4*2+5*4+6*6 = 64
    let a = vec![1., 2., 3., 4., 5., 6.];
    let b = vec![1., 2., 3., 4., 5., 6.];
    let mut c = vec![0.0_f32; 4];
    matmul_naive::<F32>(&a, &b, &mut c, 2, 2, 3);
    assert_eq!(c, vec![22., 28., 49., 64.]);
}

/// Tiny deterministic pseudo-random fill, so optimization-equivalence tests
/// don't depend on `rand`. Outputs values in roughly `[-1, 1)`.
fn pseudo_fill(rows: usize, cols: usize, seed: u64) -> Vec<f32> {
    let mut state = seed.wrapping_mul(0x9E3779B97F4A7C15);
    (0..rows * cols)
        .map(|_| {
            state = state
                .wrapping_mul(6364136223846793005)
                .wrapping_add(1442695040888963407);
            ((state >> 33) as u32 as f64 / u32::MAX as f64 * 2.0 - 1.0) as f32
        })
        .collect()
}

#[test]
fn ikj_matches_naive_square() {
    let a = pseudo_fill(64, 48, 1);
    let b = pseudo_fill(48, 80, 2);
    let mut c_naive = vec![123.0_f32; 64 * 80]; // overwritten, whatever it holds
    let mut c_ikj = vec![456.0_f32; 64 * 80];
    matmul_naive::<F32>(&a, &b, &mut c_naive, 64, 80, 48);
    matmul_ikj::<F32>(&a, &b, &mut c_ikj, 64, 80, 48);
    for i in 0..c_naive.len() {
        assert!(
            (c_naive[i] - c_ikj[i]).abs() < 1e-3,
            "mismatch at {}: {} vs {}",
            i, c_naive[i], c_ikj[i]
        );
    }
}

#[test]
fn ikj_matches_naive_known_answer() {
    let a = vec![1., 2., 3., 4.];
    let b = vec![5., 6., 7., 8.];
    let mut c = vec![0.0_f32; 4];
    matmul_ikj::<F32>(&a, &b, &mut c, 2, 2, 2);
    assert_eq!(c, vec![19., 22., 43., 50.]);
}

#[test]
fn ikj_zeroes_c_first() {
    // If the function forgot c.fill(0), the junk values would corrupt the result.
    let a = vec![1.0, 0.0, 0.0, 1.0];
    let b = vec![1.0, 0.0, 0.0, 1.0];
    let mut c = vec![999.0_f32; 4];
    matmul_ikj::<F32>(&a, &b, &mut c, 2, 2, 2);
    assert_eq!(c, vec![1.0, 0.0, 0.0, 1.0]);
}

#[test]
fn blocked_matches_naive_block_aligned() {
    // 128 = 2 × 64, exercises clean block boundaries on all three dims.
    let a = pseudo_fill(128, 128, 7);
    let b = pseudo_fill(128, 128, 11);
    let mut c_naive = vec![0.0_f32; 128 * 128];
    let mut c_blocked = vec![0.0_f32; 128 * 128];
    matmul_naive::<F32>(&a, &b, &mut c_naive, 128, 128, 128);
    matmul_blocked::<F32>(&a, &b, &mut c_blocked, 128, 128, 128);
    for i in 0..c_naive.len() {
        assert!((c_naive[i] - c_blocked[i]).abs() < 1e-2);
    }
}

#[test]
fn blocked_matches_naive_misaligned() {
    // 75×85×60 — none divisible by 64. Tests edge-block handling.
    let a = pseudo_fill(75, 60, 13);
    let b = pseudo_fill(60, 85, 17);
    let mut c_naive = vec![0.0_f32; 75 * 85];
    let mut c_blocked = vec![0.0_f32; 75 * 85];
    matmul_naive::<F32>(&a, &b, &mut c_naive, 75, 85, 60);
    matmul_blocked::<F32>(&a, &b, &mut c_blocked, 75, 85, 60);
    for i in 0..c_naive.len() {
        assert!(
            (c_naive[i] - c_blocked[i]).abs() < 1e-3,
            "mismatch at {}: {} vs {}",
            i, c_naive[i], c_blocked[i]
        );
    }
}

#[test]
fn blocked_known_answer() {
    let a = vec![1., 2., 3., 4.];
    let b = vec![5., 6., 7., 8.];
    let mut c = vec![0.0_f32; 4];
    matmul_blocked::<F32>(&a, &b, &mut c, 2, 2, 2);
    assert_eq!(c, vec![19., 22., 43., 50.]);
}

/// The kernels agree bit for bit, not only up to rounding.
#[test]
fn kernels_agree_exactly() {
    let a = pseudo_fill(75, 60, 3);
    let b = pseudo_fill(60, 85, 4);
    let mut c_naive = vec![1.0_f32; 75 * 85];
    let mut c_ikj = vec![2.0_f32; 75 * 85];
    let mut c_blocked = vec![3.0_f32; 75 * 85];
    matmul_naive::<F32>(&a, &b, &mut c_naive, 75, 85, 60);
    matmul_ikj::<F32>(&a, &b, &mut c_ikj, 75, 85, 60);
    matmul_blocked::<F32>(&a, &b, &mut c_blocked, 75, 85, 60);
    assert_eq!(c_naive, c_ikj);
    assert_eq!(c_naive, c_blocked);
}

#[test]
fn empty_inner_dimension_gives_zeros() {
    let mut c = vec![5.0_f32; 4];
    matmul_blocked::<F32>(&[], &[], &mut c, 2, 2, 0);
    assert_eq!(c, vec![0.0; 4]);
}
