use annapura::accelerator::{Accelerator, Instruction, MATMUL_TILE};
use annapura::arith::Arith;
use annapura::compiler::{compile_linear, compile_rmsnorm, retile_weight};
use annapura::nn::{linear, rmsnorm};
use annapura::simulate::linear_on_sim;

/// Single-precision arithmetic.
struct F32;

impl Arith for F32 {
    type Num = f32;

    fn from_i8(v: i8) -> f32 {
        v as f32
    }
    fn from_u64(v: u64) -> f32 {
        v as f32
    }
    fn from_bits(bits: u32) -> f32 {
        f32::from_bits(bits)
    }
    fn empty_sum() -> f32 {
        core::iter::empty::<f32>().sum()
    }
    fn infinity() -> f32 {
        f32::INFINITY
    }
    fn neg_infinity() -> f32 {
        f32::NEG_INFINITY
    }
    fn plus(a: f32, b: f32) -> f32 {
        a + b
    }
    fn minus(a: f32, b: f32) -> f32 {
        a - b
    }
    fn times(a: f32, b: f32) -> f32 {
        a * b
    }
    fn divide(a: f32, b: f32) -> f32 {
        a / b
    }
    fn negate(a: f32) -> f32 {
        -a
    }
    fn abs(a: f32) -> f32 {
        a.abs()
    }
    fn sqrt(a: f32) -> f32 {
        a.sqrt()
    }
    fn exp(a: f32) -> f32 {
        a.exp()
    }
    fn powf(base: f32, e: f32) -> f32 {
        base.powf(e)
    }
    fn sin_cos(a: f32) -> (f32, f32) {
        a.sin_cos()
    }
    fn max(a: f32, b: f32) -> f32 {
        a.max(b)
    }
    fn min(a: f32, b: f32) -> f32 {
        a.min(b)
    }
    fn exceeds(a: f32, b: f32) -> bool {
        a > b
    }
}

/// Pseudo-random fill — keeps tests deterministic without depending on `rand`.
fn pseudo(n: usize, seed: u64) -> Vec<f32> {
    let mut s = seed.wrapping_mul(0x9E3779B97F4A7C15);
    (0..n)
        .map(|_| {
            s = s.wrapping_mul(6364136223846793005).wrapping_add(1442695040888963407);
            ((s >> 33) as u32 as f64 / u32::MAX as f64 * 2.0 - 1.0) as f32
        })
        .collect()
}

#[test]
fn retile_preserves_data() {
    let in_dim = 32;
    let out_dim = 32;
    let w = pseudo(in_dim * out_dim, 1);
    let tiled = retile_weight(&w, in_dim, out_dim);
    // Spot check: tile[0,0] at k=2, j=5 should equal W[0*16 + 5][0*16 + 2] = W[5][2].
    let expected = w[5 * in_dim + 2];
    let got = tiled[2 * MATMUL_TILE + 5];
    assert_eq!(expected, got);
}

#[test]
fn compile_linear_emits_expected_program_size() {
    let prog = compile_linear::<f32>(64, 32, 0, 100, 200);
    // 32/16 output tiles × 64/16 input tiles = 2 × 4 = 8 MatVecTile instructions.
    assert_eq!(prog.len(), 8);
    // First instruction of each output tile resets; rest accumulate.
    for (i, instr) in prog.iter().enumerate() {
        if let Instruction::MatVecTile { accumulate, .. } = *instr {
            let position_in_tile = i % (64 / 16);
            let expected = position_in_tile != 0;
            assert_eq!(accumulate, expected, "instr {}: accumulate mismatch", i);
        } else {
            panic!("expected MatVecTile, got {:?}", instr);
        }
    }
}

/// THE money test: compile a linear, run it through the simulator,
/// verify it produces the same answer as our CPU reference kernel.
#[test]
fn end_to_end_linear_matches_cpu_reference() {
    let in_dim = 64;
    let out_dim = 32;
    let x = pseudo(in_dim, 7);
    let w = pseudo(in_dim * out_dim, 11);

    // CPU reference (the oracle).
    let mut y_cpu = vec![0.0_f32; out_dim];
    linear::<F32>(&x, &w, &mut y_cpu);

    // Simulator path: retile, set up SRAM, compile program, run.
    let w_tiled = retile_weight(&w, in_dim, out_dim);

    let sram_size = in_dim + (in_dim * out_dim) + out_dim;
    let mut acc = Accelerator::<F32>::new(sram_size, 0);
    let x_addr = 0;
    let w_addr = in_dim;
    let y_addr = w_addr + in_dim * out_dim;
    acc.sram[x_addr..x_addr + in_dim].copy_from_slice(&x);
    acc.sram[w_addr..w_addr + in_dim * out_dim].copy_from_slice(&w_tiled);

    let program = compile_linear(in_dim, out_dim, x_addr, w_addr, y_addr);
    let n_instr = program.len();
    acc.run(&program).unwrap();
    assert_eq!(acc.instr_count, n_instr as u64);

    for j in 0..out_dim {
        let got = acc.sram[y_addr + j];
        let want = y_cpu[j];
        assert!(
            (got - want).abs() < 1e-3,
            "y[{}]: simulator {} vs CPU {} (diff {})",
            j, got, want, (got - want).abs()
        );
    }
}

#[test]
fn end_to_end_rmsnorm_matches_cpu_reference() {
    let n = 256;
    let eps = 1e-5;
    let x = pseudo(n, 23);
    let gamma = pseudo(n, 29);

    let mut y_cpu = vec![0.0_f32; n];
    rmsnorm::<F32>(&x, &gamma, eps, &mut y_cpu);

    let sram_size = 3 * n;
    let mut acc = Accelerator::<F32>::new(sram_size, 0);
    let x_addr = 0;
    let g_addr = n;
    let y_addr = 2 * n;
    acc.sram[x_addr..x_addr + n].copy_from_slice(&x);
    acc.sram[g_addr..g_addr + n].copy_from_slice(&gamma);

    let program = compile_rmsnorm::<F32>(n, eps, x_addr, g_addr, y_addr);
    acc.run(&program).unwrap();

    for i in 0..n {
        let got = acc.sram[y_addr + i];
        let want = y_cpu[i];
        assert!(
            (got - want).abs() < 1e-4,
            "y[{}]: simulator {} vs CPU {} (diff {})",
            i, got, want, (got - want).abs()
        );
    }
}

/// Larger case: 256×128. ~128 MatVecTile instructions, more chances for
/// indexing bugs to manifest.
#[test]
fn end_to_end_larger_linear_matches_cpu_reference() {
    let in_dim = 256;
    let out_dim = 128;
    let x = pseudo(in_dim, 13);
    let w = pseudo(in_dim * out_dim, 17);

    let mut y_cpu = vec![0.0_f32; out_dim];
    linear::<F32>(&x, &w, &mut y_cpu);

    let w_tiled = retile_weight(&w, in_dim, out_dim);
    let sram_size = in_dim + (in_dim * out_dim) + out_dim;
    let mut acc = Accelerator::<F32>::new(sram_size, 0);
    acc.sram[0..in_dim].copy_from_slice(&x);
    acc.sram[in_dim..in_dim + in_dim * out_dim].copy_from_slice(&w_tiled);

    let program = compile_linear(in_dim, out_dim, 0, in_dim, in_dim + in_dim * out_dim);
    acc.run(&program).unwrap();

    for j in 0..out_dim {
        let got = acc.sram[in_dim + in_dim * out_dim + j];
        let want = y_cpu[j];
        assert!((got - want).abs() < 1e-3, "y[{}]: {} vs {}", j, got, want);
    }
}

#[test]
fn tiled_layout_is_a_permutation() {
    let (in_dim, out_dim) = (48, 32);
    let w: Vec<u32> = (0..in_dim as u32 * out_dim as u32).collect();
    let tiled = retile_weight(&w, in_dim, out_dim);
    for i in 0..out_dim {
        for k in 0..in_dim {
            let at = ((i / 16) * (in_dim / 16) + k / 16) * 256 + (k % 16) * 16 + i % 16;
            assert_eq!(tiled[at], w[i * in_dim + k]);
        }
    }
    let mut sorted = tiled.clone();
    sorted.sort();
    assert_eq!(sorted, w);
    assert!(retile_weight::<u32>(&[], 0, 16).is_empty());
}

#[test]
fn linear_program_addresses_its_tiles() {
    let prog = compile_linear::<f32>(32, 32, 1000, 2000, 5000);
    assert_eq!(prog.len(), 4);
    match prog[3] {
        Instruction::MatVecTile { x_sram, w_sram, y_sram, accumulate } => {
            assert_eq!((x_sram, w_sram, y_sram, accumulate), (1016, 2768, 5016, true));
        }
        _ => panic!("not a tile"),
    }
    assert!(compile_linear::<f32>(0, 32, 0, 0, 0).is_empty());
    assert!(compile_linear::<f32>(32, 0, 0, 0, 0).is_empty());
}

#[test]
fn machine_and_cpu_agree_to_the_last_bit() {
    let x = pseudo(48, 3);
    let w = pseudo(48 * 32, 5);
    let mut y = vec![0.0; 32];
    linear::<F32>(&x, &w, &mut y);
    let run = linear_on_sim::<F32>(&x, &w, 32);
    assert_eq!(run.y, y);
    assert_eq!(run.instructions, 6);
    // Every instruction covers 256 weights.
    assert_eq!(run.instructions as usize * 256, 48 * 32);
    let none = linear_on_sim::<F32>(&[], &[], 16);
    assert_eq!((none.y, none.instructions), (vec![0.0; 16], 0));
}

#[test]
fn linear_program_changes_only_its_outputs() {
    let (x, w) = (pseudo(16, 1), pseudo(16 * 16, 2));
    let mut acc = Accelerator::<F32>::new(400, 0);
    for v in acc.sram.iter_mut() {
        *v = 5.0;
    }
    acc.sram[32..48].copy_from_slice(&x);
    acc.sram[64..320].copy_from_slice(&retile_weight(&w, 16, 16));
    let before = acc.sram.clone();
    acc.run(&compile_linear(16, 16, 32, 64, 8)).unwrap();
    let mut y = vec![0.0; 16];
    linear::<F32>(&x, &w, &mut y);
    assert_eq!(&acc.sram[8..24], &y[..]);
    assert_eq!(&acc.sram[..8], &before[..8]);
    assert_eq!(&acc.sram[24..], &before[24..]);
}

#[test]
fn rmsnorm_program_also_works_in_place() {
    let n = 64;
    let (x, gamma) = (pseudo(n, 23), pseudo(n, 29));
    let mut apart = Accelerator::<F32>::new(3 * n, 0);
    apart.sram[..n].copy_from_slice(&x);
    apart.sram[n..2 * n].copy_from_slice(&gamma);
    apart.run(&compile_rmsnorm::<F32>(n, 1e-5, 0, n, 2 * n)).unwrap();
    let mut same = Accelerator::<F32>::new(2 * n, 0);
    same.sram[..n].copy_from_slice(&x);
    same.sram[n..].copy_from_slice(&gamma);
    let program = compile_rmsnorm::<F32>(n, 1e-5, 0, n, 0);
    assert_eq!(program.len(), 7 + 7 * 2);
    same.run(&program).unwrap();
    assert_eq!(&apart.sram[2 * n..], &same.sram[..n]);
    assert_eq!(&same.sram[n..], &gamma[..]);
    assert_eq!(compile_rmsnorm::<F32>(0, 1e-5, 0, 0, 0).len(), 7);
}

#[test]
fn rmsnorm_program_is_rmsnorm_where_no_rounding_interferes() {
    // Small whole numbers: all sums of squares are exact in any order, and the
    // length is a power of two.
    let n = 64;
    let x: Vec<f32> = (0..n).map(|i| (i % 7) as f32 - 3.0).collect();
    let gamma: Vec<f32> = (0..n).map(|i| (i % 5) as f32).collect();
    let mut want = vec![0.0; n];
    rmsnorm::<F32>(&x, &gamma, 0.5, &mut want);
    let mut acc = Accelerator::<F32>::new(3 * n, 0);
    acc.sram[..n].copy_from_slice(&x);
    acc.sram[n..2 * n].copy_from_slice(&gamma);
    acc.run(&compile_rmsnorm::<F32>(n, 0.5, 0, n, 2 * n)).unwrap();
    assert_eq!(&acc.sram[2 * n..], &want[..]);
}
