use annapura::arith::Arith;
use annapura::gguf::TensorType;
use annapura::quant::{dequantize_q8_0, dequantize_to_f32, widen_half, QuantError};
use half::f16;

/// Single-precision arithmetic.
struct F32;

impl Arith for F32 {
    type Num = f32;

    fn from_i8(v: i8) -> f32 {
        v as f32
    }
    fn from_u64(v: u64) -> f32 {
        v as f32
    }
    fn from_bits(bits: u32) -> f32 {
        f32::from_bits(bits)
    }
    fn empty_sum() -> f32 {
        core::iter::empty::<f32>().sum()
    }
    fn infinity() -> f32 {
        f32::INFINITY
    }
    fn neg_infinity() -> f32 {
        f32::NEG_INFINITY
    }
    fn plus(a: f32, b: f32) -> f32 {
        a + b
    }
    fn minus(a: f32, b: f32) -> f32 {
        a - b
    }
    fn times(a: f32, b: f32) -> f32 {
        a * b
    }
    fn divide(a: f32, b: f32) -> f32 {
        a / b
    }
    fn negate(a: f32) -> f32 {
        -a
    }
    fn abs(a: f32) -> f32 {
        a.abs()
    }
    fn sqrt(a: f32) -> f32 {
        a.sqrt()
    }
    fn exp(a: f32) -> f32 {
        a.exp()
    }
    fn powf(base: f32, e: f32) -> f32 {
        base.powf(e)
    }
    fn sin_cos(a: f32) -> (f32, f32) {
        a.sin_cos()
    }
    fn max(a: f32, b: f32) -> f32 {
        a.max(b)
    }
    fn min(a: f32, b: f32) -> f32 {
        a.min(b)
    }
    fn exceeds(a: f32, b: f32) -> bool {
        a > b
    }
}

#[test]
fn q8_0_known_block_dequantizes_to_expected_values() {
    // One block: scale = 2.0 (f16), quants = [-128, -64, 0, 64, 127, 0×27].
    let mut src = Vec::with_capacity(34);
    src.extend_from_slice(&f16::from_f32(2.0).to_bits().to_le_bytes());
    let mut quants = [0i8; 32];
    quants[0] = -128;
    quants[1] = -64;
    quants[2] = 0;
    quants[3] = 64;
    quants[4] = 127;
    for q in &quants {
        src.push(*q as u8);
    }

    let mut dst = vec![0.0_f32; 32];
    dequantize_q8_0::<F32>(&src, 32, &mut dst);

    assert_eq!(dst[0], -256.0);
    assert_eq!(dst[1], -128.0);
    assert_eq!(dst[2], 0.0);
    assert_eq!(dst[3], 128.0);
    assert_eq!(dst[4], 254.0);
    for i in 5..32 {
        assert_eq!(dst[i], 0.0);
    }
}

#[test]
fn q8_0_two_blocks_use_independent_scales() {
    let mut src = Vec::with_capacity(68);
    // block 0: scale=1.0, quants[0]=10
    src.extend_from_slice(&f16::from_f32(1.0).to_bits().to_le_bytes());
    src.push(10);
    src.extend_from_slice(&[0u8; 31]);
    // block 1: scale=0.5, quants[0]=10
    src.extend_from_slice(&f16::from_f32(0.5).to_bits().to_le_bytes());
    src.push(10);
    src.extend_from_slice(&[0u8; 31]);

    let mut dst = vec![0.0_f32; 64];
    dequantize_q8_0::<F32>(&src, 64, &mut dst);
    assert_eq!(dst[0], 10.0);
    assert_eq!(dst[32], 5.0);
}

#[test]
fn f32_passthrough_is_identity() {
    let src: Vec<u8> = [1.5f32, -2.25, 3.14]
        .iter()
        .flat_map(|f| f.to_le_bytes())
        .collect();
    let mut dst = vec![0.0_f32; 3];
    dequantize_to_f32::<F32>(TensorType::F32, &src, &mut dst).unwrap();
    assert_eq!(dst, vec![1.5, -2.25, 3.14]);
}

#[test]
fn every_half_widens_as_the_half_crate_does() {
    for h in 0..=u16::MAX {
        let want = f16::from_bits(h).to_f32();
        let got = widen_half(h);
        if want.is_nan() {
            assert!(f32::from_bits(got).is_nan(), "{:#06x}", h);
            assert_eq!(got, f16::from_bits(h).to_f32_const().to_bits(), "{:#06x}", h);
        } else {
            assert_eq!(got, want.to_bits(), "{:#06x}", h);
        }
    }
}

#[test]
fn halves_are_dequantized() {
    let src: Vec<u8> = [1.5f32, -0.25, 65504.0, 6.0e-8]
        .iter()
        .flat_map(|f| f16::from_f32(*f).to_le_bytes())
        .collect();
    let mut dst = vec![0.0_f32; 4];
    dequantize_to_f32::<F32>(TensorType::F16, &src, &mut dst).unwrap();
    assert_eq!(dst, vec![1.5, -0.25, 65504.0, f16::from_f32(6.0e-8).to_f32()]);
}

#[test]
fn q8_0_leaves_the_rest_of_the_buffer() {
    let mut src = vec![0u8; 34];
    src[..2].copy_from_slice(&f16::from_f32(0.5).to_le_bytes());
    src[33] = 0x80;
    let mut dst = vec![9.0_f32; 34];
    dequantize_q8_0::<F32>(&src, 32, &mut dst);
    assert_eq!((dst[0], dst[31], dst[32], dst[33]), (0.0, -64.0, 9.0, 9.0));
    let mut whole = vec![1.0_f32; 32];
    dequantize_to_f32::<F32>(TensorType::Q8_0, &src, &mut whole).unwrap();
    assert_eq!(&whole[..], &dst[..32]);
}

#[test]
fn other_formats_are_refused() {
    let mut dst = vec![3.0_f32; 2];
    for t in [TensorType::Q4_0, TensorType::Q5_1, TensorType::Q8_1, TensorType::Q6K] {
        let r = dequantize_to_f32::<F32>(t, &[1, 2, 3], &mut dst);
        assert_eq!(r, Err(QuantError::Unsupported(t)));
    }
    assert_eq!(dst, vec![3.0, 3.0]);
}
