use annapura::accelerator::Instruction;
use annapura::arith::Arith;
use annapura::perf_model::{
    cycle_cost, midrange_1g_4p, toy_1g_1p, trainium_2g_16p, PipelineModel,
};

/// Double-precision arithmetic.
struct F64;

impl Arith for F64 {
    type Num = f64;

    fn from_i8(v: i8) -> f64 {
        v as f64
    }
    fn from_u64(v: u64) -> f64 {
        v as f64
    }
    fn from_bits(bits: u32) -> f64 {
        f32::from_bits(bits) as f64
    }
    fn empty_sum() -> f64 {
        core::iter::empty::<f64>().sum()
    }
    fn infinity() -> f64 {
        f64::INFINITY
    }
    fn neg_infinity() -> f64 {
        f64::NEG_INFINITY
    }
    fn plus(a: f64, b: f64) -> f64 {
        a + b
    }
    fn minus(a: f64, b: f64) -> f64 {
        a - b
    }
    fn times(a: f64, b: f64) -> f64 {
        a * b
    }
    fn divide(a: f64, b: f64) -> f64 {
        a / b
    }
    fn negate(a: f64) -> f64 {
        -a
    }
    fn abs(a: f64) -> f64 {
        a.abs()
    }
    fn sqrt(a: f64) -> f64 {
        a.sqrt()
    }
    fn exp(a: f64) -> f64 {
        a.exp()
    }
    fn powf(base: f64, e: f64) -> f64 {
        base.powf(e)
    }
    fn sin_cos(a: f64) -> (f64, f64) {
        a.sin_cos()
    }
    fn max(a: f64, b: f64) -> f64 {
        a.max(b)
    }
    fn min(a: f64, b: f64) -> f64 {
        a.min(b)
    }
    fn exceeds(a: f64, b: f64) -> bool {
        a > b
    }
}

#[test]
fn cycle_costs_match_design() {
    assert_eq!(cycle_cost::<f32>(&Instruction::LoadVec { v: 0, sram_addr: 0 }), 1);
    assert_eq!(cycle_cost::<f32>(&Instruction::VSplat { v: 0, scalar: 0.0 }), 1);
    assert_eq!(cycle_cost::<f32>(&Instruction::VSilu { v_in: 0, v_out: 0 }), 8);
    assert_eq!(cycle_cost::<f32>(&Instruction::VRsqrt { v_in: 0, v_out: 0 }), 8);
    assert_eq!(cycle_cost::<f32>(&Instruction::VReduceSum { v_in: 0, v_out: 0 }), 4);
    assert_eq!(
        cycle_cost::<f32>(&Instruction::MatVecTile { x_sram: 0, w_sram: 0, y_sram: 0, accumulate: false }),
        16
    );
    assert_eq!(cycle_cost::<f32>(&Instruction::MatMulTile { a_sram: 0, b_sram: 0 }), 16);
    assert_eq!(
        cycle_cost::<f32>(&Instruction::LoadDram { dram_addr: 0, sram_addr: 0, len: 64 }),
        // 100 latency + 64/32 = 2 burst → 102
        102
    );
}

#[test]
fn empty_program_takes_zero_cycles() {
    let m = toy_1g_1p::<F64>();
    assert_eq!(m.predict_cycles::<f32>(&[]), 0);
}

#[test]
fn one_matvec_costs_16_with_one_pipe() {
    let m = toy_1g_1p::<F64>();
    let p: Vec<Instruction<f32>> = vec![Instruction::MatVecTile { x_sram: 0, w_sram: 0, y_sram: 0, accumulate: false }];
    assert_eq!(m.predict_cycles(&p), 16);
}

#[test]
fn parallel_pipes_amortize_matmul_cost() {
    let p: Vec<Instruction<f32>> = (0..16)
        .map(|_| Instruction::MatVecTile {
            x_sram: 0, w_sram: 0, y_sram: 0, accumulate: false,
        })
        .collect();
    // 16 matvec × 16 cycles = 256 compute cycles
    assert_eq!(toy_1g_1p::<F64>().predict_cycles(&p), 256);
    // With 4 pipes: 256 / 4 = 64 cycles
    let m4 = PipelineModel::<F64> { clock_ghz: 1.0, n_matmul_pipes: 4 };
    assert_eq!(m4.predict_cycles(&p), 64);
    // With 16 pipes: 256 / 16 = 16 cycles
    let m16 = PipelineModel::<F64> { clock_ghz: 1.0, n_matmul_pipes: 16 };
    assert_eq!(m16.predict_cycles(&p), 16);
}

#[test]
fn non_compute_does_not_parallelize_with_extra_pipes() {
    // Pure vector ops — adding matmul pipes shouldn't help.
    let p: Vec<Instruction<f32>> = (0..100)
        .map(|_| Instruction::VAdd { a: 0, b: 1, c: 2 })
        .collect();
    let m1 = PipelineModel::<F64> { clock_ghz: 1.0, n_matmul_pipes: 1 };
    let m16 = PipelineModel::<F64> { clock_ghz: 1.0, n_matmul_pipes: 16 };
    assert_eq!(m1.predict_cycles(&p), 100);
    assert_eq!(m16.predict_cycles(&p), 100);
}

#[test]
fn predict_ms_scales_with_frequency() {
    let p: Vec<Instruction<f32>> = vec![Instruction::MatVecTile { x_sram: 0, w_sram: 0, y_sram: 0, accumulate: false }; 1000];
    // 1000 × 16 = 16000 cycles on 1 pipe.
    // At 1 GHz: 16 µs. At 2 GHz: 8 µs.
    let m1g = PipelineModel::<F64> { clock_ghz: 1.0, n_matmul_pipes: 1 };
    let m2g = PipelineModel::<F64> { clock_ghz: 2.0, n_matmul_pipes: 1 };
    let t1 = m1g.predict_ms(&p);
    let t2 = m2g.predict_ms(&p);
    assert!((t1 - 0.016).abs() < 1e-9);
    assert!((t2 - 0.008).abs() < 1e-9);
}

#[test]
fn every_instruction_has_its_cost() {
    let reg = |i: Instruction<f32>| cycle_cost(&i);
    assert_eq!(reg(Instruction::StoreVec { v: 0, sram_addr: 0 }), 1);
    assert_eq!(reg(Instruction::VAdd { a: 0, b: 0, c: 0 }), 1);
    assert_eq!(reg(Instruction::VMul { a: 0, b: 0, c: 0 }), 1);
    assert_eq!(reg(Instruction::VFma { a: 0, b: 0, c: 0, d: 0 }), 1);
    assert_eq!(reg(Instruction::VMax { a: 0, b: 0, c: 0 }), 1);
    assert_eq!(reg(Instruction::VSwapPairs { v_in: 0, v_out: 0 }), 1);
    assert_eq!(reg(Instruction::VBroadcastLane { v_in: 0, v_out: 0, lane: 0 }), 1);
    assert_eq!(reg(Instruction::VExp { v_in: 0, v_out: 0 }), 8);
    assert_eq!(reg(Instruction::VReduceMax { v_in: 0, v_out: 0 }), 4);
    assert_eq!(reg(Instruction::MatAccumClear), 1);
    assert_eq!(reg(Instruction::MatAccumStore { sram_dst: 0 }), 1);
    assert_eq!(reg(Instruction::StoreDram { sram_addr: 0, dram_addr: 0, len: 0 }), 100);
    assert_eq!(reg(Instruction::StoreDram { sram_addr: 0, dram_addr: 0, len: 33 }), 102);
}

#[test]
fn the_longer_of_both_paths_counts() {
    let mut p: Vec<Instruction<f32>> = vec![Instruction::MatMulTile { a_sram: 0, b_sram: 0 }; 3];
    p.push(Instruction::LoadDram { dram_addr: 0, sram_addr: 0, len: 1 });
    // 48 cycles on the matrix pipes beside 101 on the port.
    assert_eq!(toy_1g_1p::<F64>().predict_cycles(&p), 101);
    let tiles: Vec<Instruction<f32>> = vec![Instruction::MatMulTile { a_sram: 0, b_sram: 0 }; 100];
    let mut last = u64::MAX;
    for pipes in 1..40 {
        let m = PipelineModel::<F64> { clock_ghz: 1.0, n_matmul_pipes: pipes };
        let cycles = m.predict_cycles(&tiles);
        assert_eq!(cycles, (1600 + pipes as u64 - 1) / pipes as u64);
        assert!(cycles <= last);
        last = cycles;
    }
    let (mid, large) = (midrange_1g_4p::<F64>(), trainium_2g_16p::<F64>());
    assert_eq!((mid.clock_ghz, mid.n_matmul_pipes), (1.0, 4));
    assert_eq!((large.clock_ghz, large.n_matmul_pipes), (2.0, 16));
}
