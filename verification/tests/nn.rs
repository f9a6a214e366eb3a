use annapura::arith::Arith;
use annapura::nn::{
    add_in_place, linear, mul_in_place, rmsnorm, rope_heads, rope_inplace, silu_in_place,
    softmax_in_place,
};

/// Single-precision arithmetic.
struct F32;

impl Arith for F32 {
    type Num = f32;

    fn from_i8(v: i8) -> f32 {
        v as f32
    }
    fn from_u64(v: u64) -> f32 {
        v as f32
    }
    fn from_bits(bits: u32) -> f32 {
        f32::from_bits(bits)
    }
    fn empty_sum() -> f32 {
        core::iter::empty::<f32>().sum()
    }
    fn infinity() -> f32 {
        f32::INFINITY
    }
    fn neg_infinity() -> f32 {
        f32::NEG_INFINITY
    }
    fn plus(a: f32, b: f32) -> f32 {
        a + b
    }
    fn minus(a: f32, b: f32) -> f32 {
        a - b
    }
    fn times(a: f32, b: f32) -> f32 {
        a * b
    }
    fn divide(a: f32, b: f32) -> f32 {
        a / b
    }
    fn negate(a: f32) -> f32 {
        -a
    }
    fn abs(a: f32) -> f32 {
        a.abs()
    }
    fn sqrt(a: f32) -> f32 {
        a.sqrt()
    }
    fn exp(a: f32) -> f32 {
        a.exp()
    }
    fn powf(base: f32, e: f32) -> f32 {
        base.powf(e)
    }
    fn sin_cos(a: f32) -> (f32, f32) {
        a.sin_cos()
    }
    fn max(a: f32, b: f32) -> f32 {
        a.max(b)
    }
    fn min(a: f32, b: f32) -> f32 {
        a.min(b)
    }
    fn exceeds(a: f32, b: f32) -> bool {
        a > b
    }
}

fn rms(x: &[f32]) -> f32 {
    (x.iter().map(|v| v * v).sum::<f32>() / x.len() as f32).sqrt()
}

#[test]
fn unit_weight_normalizes_to_unit_rms() {
    // y = x / rms(x) * 1 → rms(y) should be 1.
    let x = vec![1.0, 2.0, 3.0, 4.0];
    let w = vec![1.0; 4];
    let mut y = vec![0.0; 4];
    rmsnorm::<F32>(&x, &w, 0.0, &mut y);
    assert!((rms(&y) - 1.0).abs() < 1e-6, "rms(y) = {}", rms(&y));
}

#[test]
fn scalar_weight_scales_the_output() {
    let x = vec![1.0, 2.0, 3.0, 4.0];
    let w = vec![2.0; 4];
    let mut y = vec![0.0; 4];
    rmsnorm::<F32>(&x, &w, 0.0, &mut y);
    assert!((rms(&y) - 2.0).abs() < 1e-6);
}

#[test]
fn known_two_element_answer() {
    // x = [1, 2], w = [1, 1], eps = 0
    // sum(x²) = 5; mean = 2.5; rms = √2.5 ≈ 1.5811
    // scale = 1/rms ≈ 0.6325
    // y = [0.6325, 1.2649]
    let x = vec![1.0, 2.0];
    let w = vec![1.0, 1.0];
    let mut y = vec![0.0; 2];
    rmsnorm::<F32>(&x, &w, 0.0, &mut y);
    assert!((y[0] - 0.63245553).abs() < 1e-6);
    assert!((y[1] - 1.26491106).abs() < 1e-6);
}

#[test]
fn zero_input_stays_zero_via_eps() {
    // mean_sq = 0; scale = 1/√ε. Output = 0 * scale * w = 0 exactly. The eps
    // matters here: without it scale would be NaN/Inf.
    let x = vec![0.0; 8];
    let w = vec![1.5; 8];
    let mut y = vec![1.0; 8];
    rmsnorm::<F32>(&x, &w, 1e-5, &mut y);
    assert!(y.iter().all(|&v| v == 0.0));
}

#[test]
fn linear_identity_matrix_returns_input() {
    // W = I_3 → y = x
    let w = vec![
        1., 0., 0.,
        0., 1., 0.,
        0., 0., 1.,
    ];
    let x = vec![1.5, -2.0, 3.0];
    let mut y = vec![0.0; 3];
    linear::<F32>(&x, &w, &mut y);
    assert_eq!(y, x);
}

#[test]
fn linear_known_rectangular_answer() {
    // x ∈ R², W ∈ R^{3×2}; y[j] = sum_i(x[i]*W[j,i])
    // W rows:  [1,2], [3,4], [5,6]   x = [10, 20]
    // y = [10+40, 30+80, 50+120] = [50, 110, 170]
    let w = vec![1., 2., 3., 4., 5., 6.];
    let x = vec![10.0, 20.0];
    let mut y = vec![0.0; 3];
    linear::<F32>(&x, &w, &mut y);
    assert_eq!(y, vec![50.0, 110.0, 170.0]);
}

#[test]
fn rope_at_position_zero_is_identity() {
    let mut x = vec![1.0, 2.0, 3.0, 4.0];
    let original = x.clone();
    rope_inplace::<F32>(&mut x, 0, 10000.0);
    for (a, b) in x.iter().zip(&original) {
        assert!((a - b).abs() < 1e-6);
    }
}

#[test]
fn rope_preserves_l2_norm() {
    let mut x = vec![1.5, -0.7, 0.3, 2.1, -1.0, 0.0, 0.5, -2.5];
    let n0: f32 = x.iter().map(|v| v * v).sum::<f32>().sqrt();
    rope_inplace::<F32>(&mut x, 17, 10000.0);
    let n1: f32 = x.iter().map(|v| v * v).sum::<f32>().sqrt();
    assert!((n0 - n1).abs() < 1e-5, "{} vs {}", n0, n1);
}

#[test]
fn rope_two_dim_unit_x_axis_rotates_to_known_angle() {
    // d = 2, freq = 10000^0 = 1, angle = pos · 1 = pos.
    // x = (1, 0) at pos = 1 → (cos 1, sin 1)
    let mut x = vec![1.0, 0.0];
    rope_inplace::<F32>(&mut x, 1, 10000.0);
    assert!((x[0] - 1.0_f32.cos()).abs() < 1e-6);
    assert!((x[1] - 1.0_f32.sin()).abs() < 1e-6);
}

#[test]
fn rope_heads_with_one_head_equals_rope_inplace() {
    let mut a = vec![0.5, -1.0, 2.0, 0.3];
    let mut b = a.clone();
    rope_inplace::<F32>(&mut a, 7, 10000.0);
    rope_heads::<F32>(&mut b, 4, 7, 10000.0);
    assert_eq!(a, b);
}

#[test]
fn rope_heads_rotates_each_head_independently() {
    // Two heads of dim 2. Each should rotate as if it were alone.
    let mut multi = vec![1.0, 0.0, 1.0, 0.0];
    let mut single = vec![1.0, 0.0];
    rope_heads::<F32>(&mut multi, 2, 1, 10000.0);
    rope_inplace::<F32>(&mut single, 1, 10000.0);
    assert!((multi[0] - single[0]).abs() < 1e-6);
    assert!((multi[1] - single[1]).abs() < 1e-6);
    assert!((multi[2] - single[0]).abs() < 1e-6);
    assert!((multi[3] - single[1]).abs() < 1e-6);
}

#[test]
fn softmax_divides_exponentials_by_their_sum() {
    let mut x = vec![0.0, 0.0, 0.0, 0.0];
    softmax_in_place::<F32>(&mut x);
    assert_eq!(x, vec![0.25; 4]);
    let mut y = vec![1000.0, -1000.0];
    softmax_in_place::<F32>(&mut y);
    assert_eq!(y, vec![1.0, 0.0]);
    let mut none: Vec<f32> = vec![];
    softmax_in_place::<F32>(&mut none);
    assert!(none.is_empty());
}

#[test]
fn elementwise_operations() {
    let mut x = vec![1.0, 2.0, 3.0];
    add_in_place::<F32>(&mut x, &[10.0, 20.0, 30.0]);
    assert_eq!(x, vec![11.0, 22.0, 33.0]);
    mul_in_place::<F32>(&mut x, &[2.0, 0.0, -1.0]);
    assert_eq!(x, vec![22.0, 0.0, -33.0]);
    let mut g = vec![0.0, 2.0];
    silu_in_place::<F32>(&mut g);
    assert_eq!(g, vec![0.0, 2.0 / (1.0 + (-2.0_f32).exp())]);
}

#[test]
fn no_heads_are_left_alone() {
    let mut none: Vec<f32> = vec![];
    rope_heads::<F32>(&mut none, 3, 1, 10000.0);
    assert!(none.is_empty());
}

#[test]
fn rope_preserves_each_pair() {
    let x = vec![1.5, -0.7, 0.3, 2.1, -1.0, 0.0, 0.5, -2.5];
    let mut y = x.clone();
    rope_inplace::<F32>(&mut y, 17, 10000.0);
    for i in 0..4 {
        let before: f32 = x[2 * i] * x[2 * i] + x[2 * i + 1] * x[2 * i + 1];
        let after: f32 = y[2 * i] * y[2 * i] + y[2 * i + 1] * y[2 * i + 1];
        assert!((before - after).abs() < 1e-5);
    }
}

#[test]
fn rope_adds_positions() {
    let x = vec![1.5, -0.7, 0.3, 2.1, -1.0, 0.0, 0.5, -2.5];
    let mut twice = x.clone();
    rope_inplace::<F32>(&mut twice, 3, 10000.0);
    rope_inplace::<F32>(&mut twice, 5, 10000.0);
    let mut once = x.clone();
    rope_inplace::<F32>(&mut once, 8, 10000.0);
    for (a, b) in twice.iter().zip(&once) {
        assert!((a - b).abs() < 1e-5, "{} vs {}", a, b);
    }
    assert!((once[0] - x[0]).abs() > 0.1);
}

#[test]
fn equal_weights_scale_the_mean_square() {
    let x = vec![1.0, -2.0, 3.0, 0.5];
    let mut y = vec![0.0; 4];
    rmsnorm::<F32>(&x, &[3.0; 4], 0.25, &mut y);
    let mean = |v: &[f32]| v.iter().map(|a| a * a).sum::<f32>() / v.len() as f32;
    let (mx, my) = (mean(&x), mean(&y));
    assert!((my * (mx + 0.25) - 9.0 * mx).abs() < 1e-3);
}
