use annapura::arith::Arith;
use annapura::attention::{attention, attention_pattern, KvCache};

/// Single-precision arithmetic.
struct F32;

impl Arith for F32 {
    type Num = f32;

    fn from_i8(v: i8) -> f32 {
        v as f32
    }
    fn from_u64(v: u64) -> f32 {
        v as f32
    }
    fn from_bits(bits: u32) -> f32 {
        f32::from_bits(bits)
    }
    fn empty_sum() -> f32 {
        core::iter::empty::<f32>().sum()
    }
    fn infinity() -> f32 {
        f32::INFINITY
    }
    fn neg_infinity() -> f32 {
        f32::NEG_INFINITY
    }
    fn plus(a: f32, b: f32) -> f32 {
        a + b
    }
    fn minus(a: f32, b: f32) -> f32 {
        a - b
    }
    fn times(a: f32, b: f32) -> f32 {
        a * b
    }
    fn divide(a: f32, b: f32) -> f32 {
        a / b
    }
    fn negate(a: f32) -> f32 {
        -a
    }
    fn abs(a: f32) -> f32 {
        a.abs()
    }
    fn sqrt(a: f32) -> f32 {
        a.sqrt()
    }
    fn exp(a: f32) -> f32 {
        a.exp()
    }
    fn powf(base: f32, e: f32) -> f32 {
        base.powf(e)
    }
    fn sin_cos(a: f32) -> (f32, f32) {
        a.sin_cos()
    }
    fn max(a: f32, b: f32) -> f32 {
        a.max(b)
    }
    fn min(a: f32, b: f32) -> f32 {
        a.min(b)
    }
    fn exceeds(a: f32, b: f32) -> bool {
        a > b
    }
}

#[test]
fn single_position_attends_to_itself() {
    // With only pos 0 in the cache, softmax over [score_0] = [1.0].
    // Output should equal V[0, kv_head=0].
    let head_dim = 4;
    let n_heads = 1;
    let n_kv_heads = 1;
    let kv_dim = n_kv_heads * head_dim;
    let mut cache = KvCache::<F32>::new(8, kv_dim);
    let v0 = vec![10.0, 20.0, 30.0, 40.0];
    cache.store(0, &[1.0, 0.0, 0.0, 0.0], &v0);

    let q = vec![1.0, 0.0, 0.0, 0.0];
    let mut out = vec![0.0_f32; head_dim];
    attention::<F32>(&q, &cache, 0, n_heads, n_kv_heads, head_dim, &mut out);
    assert_eq!(out, v0);
}

#[test]
fn attention_picks_the_matching_key() {
    // Two positions. K[0] = [1, 0, ...], K[1] = [0, 1, 0, ...].
    // Q = K[1] direction → attention concentrates on position 1.
    let head_dim = 4;
    let n_heads = 1;
    let n_kv_heads = 1;
    let kv_dim = head_dim;
    let mut cache = KvCache::<F32>::new(8, kv_dim);

    let k0 = vec![1.0, 0.0, 0.0, 0.0];
    let v0 = vec![1.0; head_dim];
    let k1 = vec![0.0, 1.0, 0.0, 0.0];
    let v1 = vec![9.0; head_dim];
    cache.store(0, &k0, &v0);
    cache.store(1, &k1, &v1);

    // Big q magnitude so softmax sharply concentrates on the match.
    let q = vec![0.0, 100.0, 0.0, 0.0];
    let mut out = vec![0.0_f32; head_dim];
    attention::<F32>(&q, &cache, 1, n_heads, n_kv_heads, head_dim, &mut out);

    for &v in &out {
        assert!((v - 9.0).abs() < 1e-4, "expected ~9.0, got {}", v);
    }
}

#[test]
fn gqa_one_kv_head_serves_all_query_heads() {
    // n_heads = 4, n_kv_heads = 1: all four Q heads share the single KV head.
    // If we set Q identically across heads, all four head outputs should match.
    let head_dim = 2;
    let n_heads = 4;
    let n_kv_heads = 1;
    let kv_dim = n_kv_heads * head_dim;
    let mut cache = KvCache::<F32>::new(4, kv_dim);
    cache.store(0, &[1.0, 0.0], &[7.0, 8.0]);
    cache.store(1, &[0.0, 1.0], &[3.0, 4.0]);

    // Same query for all four heads.
    let q = vec![0.5, 0.5,  0.5, 0.5,  0.5, 0.5,  0.5, 0.5];
    let mut out = vec![0.0_f32; n_heads * head_dim];
    attention::<F32>(&q, &cache, 1, n_heads, n_kv_heads, head_dim, &mut out);

    // All four head outputs should be identical (they share K, V).
    let h0 = &out[0..2];
    for h in 1..4 {
        let hi = &out[h * head_dim..(h + 1) * head_dim];
        assert!((hi[0] - h0[0]).abs() < 1e-6);
        assert!((hi[1] - h0[1]).abs() < 1e-6);
    }
}

#[test]
fn attention_pattern_sums_to_one() {
    let head_dim = 4;
    let n_heads = 2;
    let n_kv_heads = 1;
    let kv_dim = head_dim;
    let mut cache = KvCache::<F32>::new(4, kv_dim);
    cache.store(0, &[0.1, 0.2, 0.3, 0.4], &[1.0; 4]);
    cache.store(1, &[0.5, 0.6, 0.7, 0.8], &[1.0; 4]);
    cache.store(2, &[0.9, 1.0, 1.1, 1.2], &[1.0; 4]);

    let q = vec![1.0; n_heads * head_dim];
    let pattern = attention_pattern::<F32>(&q, &cache, 2, n_heads, n_kv_heads, head_dim);

    assert_eq!(pattern.len(), 3);
    let s: f32 = pattern.iter().sum();
    assert!((s - 1.0).abs() < 1e-6, "sum = {}", s);
}

#[test]
fn stored_rows_are_read_back_by_head() {
    let mut cache = KvCache::<F32>::new(3, 4);
    assert_eq!((cache.max_seq_len, cache.kv_dim, cache.k.len()), (3, 4, 12));
    assert!(cache.k.iter().all(|&v| v == 0.0));
    cache.store(1, &[1.0, 2.0, 3.0, 4.0], &[5.0, 6.0, 7.0, 8.0]);
    cache.store(2, &[9.0; 4], &[10.0; 4]);
    assert_eq!(cache.k_at(1, 0, 2), &[1.0, 2.0]);
    assert_eq!(cache.k_at(1, 1, 2), &[3.0, 4.0]);
    assert_eq!(cache.v_at(1, 1, 2), &[7.0, 8.0]);
    assert_eq!(cache.k_at(0, 1, 2), &[0.0, 0.0]);
    assert_eq!(cache.v_at(2, 0, 4), &[10.0; 4]);
}

#[test]
fn later_positions_do_not_matter() {
    let mut a = KvCache::<F32>::new(4, 2);
    let mut b = KvCache::<F32>::new(4, 2);
    for c in [&mut a, &mut b] {
        c.store(0, &[0.3, 0.7], &[1.0, 2.0]);
        c.store(1, &[-0.4, 0.2], &[3.0, 4.0]);
    }
    b.store(2, &[9.0, 9.0], &[-9.0, -9.0]);
    let q = [0.5, -0.25];
    let (mut x, mut y) = (vec![0.0; 2], vec![7.0; 2]);
    attention::<F32>(&q, &a, 1, 1, 1, 2, &mut x);
    attention::<F32>(&q, &b, 1, 1, 1, 2, &mut y);
    assert_eq!(x, y);
}

#[test]
fn pattern_averages_the_heads() {
    let mut cache = KvCache::<F32>::new(2, 2);
    cache.store(0, &[1.0, 0.0], &[0.0; 2]);
    cache.store(1, &[1.0, 0.0], &[0.0; 2]);
    // Equal scores: every head spreads evenly.
    let p = attention_pattern::<F32>(&[3.0, 5.0], &cache, 1, 2, 2, 1);
    assert_eq!(p, vec![0.5, 0.5]);
}

#[test]
fn every_position_has_a_positive_part() {
    let mut cache = KvCache::<F32>::new(3, 2);
    cache.store(0, &[-4.0, 1.0], &[1.0, 1.0]);
    cache.store(1, &[0.0, -2.0], &[1.0, 1.0]);
    cache.store(2, &[3.0, 0.5], &[1.0, 1.0]);
    let pattern = attention_pattern::<F32>(&[1.0, 0.0, -1.0, 2.0], &cache, 2, 2, 1, 2);
    assert_eq!(pattern.len(), 3);
    for p in pattern {
        assert!(p > 0.0 && p <= 1.0);
    }
}
