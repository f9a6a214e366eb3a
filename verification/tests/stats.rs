use annapura::arith::Arith;
use annapura::stats::{abs_max, argmax, diff_stats, l2, TensorStats};

/// Single-precision arithmetic.
struct F32;

impl Arith for F32 {
    type Num = f32;

    fn from_i8(v: i8) -> f32 {
        v as f32
    }
    fn from_u64(v: u64) -> f32 {
        v as f32
    }
    fn from_bits(bits: u32) -> f32 {
        f32::from_bits(bits)
    }
    fn empty_sum() -> f32 {
        core::iter::empty::<f32>().sum()
    }
    fn infinity() -> f32 {
        f32::INFINITY
    }
    fn neg_infinity() -> f32 {
        f32::NEG_INFINITY
    }
    fn plus(a: f32, b: f32) -> f32 {
        a + b
    }
    fn minus(a: f32, b: f32) -> f32 {
        a - b
    }
    fn times(a: f32, b: f32) -> f32 {
        a * b
    }
    fn divide(a: f32, b: f32) -> f32 {
        a / b
    }
    fn negate(a: f32) -> f32 {
        -a
    }
    fn abs(a: f32) -> f32 {
        a.abs()
    }
    fn sqrt(a: f32) -> f32 {
        a.sqrt()
    }
    fn exp(a: f32) -> f32 {
        a.exp()
    }
    fn powf(base: f32, e: f32) -> f32 {
        base.powf(e)
    }
    fn sin_cos(a: f32) -> (f32, f32) {
        a.sin_cos()
    }
    fn max(a: f32, b: f32) -> f32 {
        a.max(b)
    }
    fn min(a: f32, b: f32) -> f32 {
        a.min(b)
    }
    fn exceeds(a: f32, b: f32) -> bool {
        a > b
    }
}

#[test]
fn argmax_finds_the_first_greatest() {
    assert_eq!(argmax::<F32>(&[1.0, 5.0, 3.0, 5.0]), 1);
    assert_eq!(argmax::<F32>(&[-4.0, -2.0, -3.0]), 1);
    assert_eq!(argmax::<F32>(&[7.0]), 0);
    assert_eq!(argmax::<F32>(&[]), 0);
    // Nothing exceeds the start where all numbers are the least.
    assert_eq!(argmax::<F32>(&[f32::NEG_INFINITY, f32::NAN]), 0);
    assert_eq!(argmax::<F32>(&[f32::NAN, 1.0]), 1);
}

#[test]
fn norms_and_differences() {
    assert_eq!(l2::<F32>(&[3.0, 4.0]), 5.0);
    assert_eq!(l2::<F32>(&[]), 0.0);
    assert_eq!(abs_max::<F32>(&[1.0, -6.0, 2.0]), 6.0);
    assert_eq!(abs_max::<F32>(&[]), 0.0);
    let (max, rms) = diff_stats::<F32>(&[1.0, 2.0, 3.0, 4.0], &[1.0, 4.0, 3.0, 2.0]);
    assert_eq!((max, rms), (2.0, 2.0_f32.sqrt()));
    assert_eq!(diff_stats::<F32>(&[5.0], &[5.0]), (0.0, 0.0));
}

#[test]
fn tensor_statistics() {
    let s = TensorStats::<F32>::of(&[1.0, -3.0, 2.0, 4.0]);
    assert_eq!((s.min, s.max, s.mean, s.abs_max), (-3.0, 4.0, 1.0, 4.0));
    let none = TensorStats::<F32>::of(&[]);
    assert_eq!((none.min, none.max), (f32::INFINITY, f32::NEG_INFINITY));
    assert!(none.mean.is_nan());
}
