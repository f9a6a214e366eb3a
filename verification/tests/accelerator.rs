use annapura::accelerator::{
    Access, Accelerator, Fault, Instruction, MATMUL_TILE, MATMUL_TILE_ELEMENTS, VECTOR_LANES,
};
use annapura::arith::Arith;
use annapura::matmul::matmul_naive;

/// Single-precision arithmetic.
struct F32;

impl Arith for F32 {
    type Num = f32;

    fn from_i8(v: i8) -> f32 {
        v as f32
    }
    fn from_u64(v: u64) -> f32 {
        v as f32
    }
    fn from_bits(bits: u32) -> f32 {
        f32::from_bits(bits)
    }
    fn empty_sum() -> f32 {
        core::iter::empty::<f32>().sum()
    }
    fn infinity() -> f32 {
        f32::INFINITY
    }
    fn neg_infinity() -> f32 {
        f32::NEG_INFINITY
    }
    fn plus(a: f32, b: f32) -> f32 {
        a + b
    }
    fn minus(a: f32, b: f32) -> f32 {
        a - b
    }
    fn times(a: f32, b: f32) -> f32 {
        a * b
    }
    fn divide(a: f32, b: f32) -> f32 {
        a / b
    }
    fn negate(a: f32) -> f32 {
        -a
    }
    fn abs(a: f32) -> f32 {
        a.abs()
    }
    fn sqrt(a: f32) -> f32 {
        a.sqrt()
    }
    fn exp(a: f32) -> f32 {
        a.exp()
    }
    fn powf(base: f32, e: f32) -> f32 {
        base.powf(e)
    }
    fn sin_cos(a: f32) -> (f32, f32) {
        a.sin_cos()
    }
    fn max(a: f32, b: f32) -> f32 {
        a.max(b)
    }
    fn min(a: f32, b: f32) -> f32 {
        a.min(b)
    }
    fn exceeds(a: f32, b: f32) -> bool {
        a > b
    }
}

fn new_acc(sram: usize) -> Accelerator<F32> {
    Accelerator::<F32>::new(sram, 1024)
}

#[test]
fn vsplat_then_vadd() {
    let mut acc = new_acc(128);
    acc.execute(&Instruction::VSplat { v: 0, scalar: 1.0 }).unwrap();
    acc.execute(&Instruction::VSplat { v: 1, scalar: 2.0 }).unwrap();
    acc.execute(&Instruction::VAdd { a: 0, b: 1, c: 2 }).unwrap();
    assert_eq!(acc.vregs[2], [3.0; VECTOR_LANES]);
}

#[test]
fn vfma_lanewise() {
    let mut acc = new_acc(128);
    acc.execute(&Instruction::VSplat { v: 0, scalar: 0.0 }).unwrap();
    acc.vregs[0][0] = 1.0;
    acc.vregs[0][1] = 2.0;
    acc.vregs[0][2] = 3.0;
    acc.execute(&Instruction::VSplat { v: 1, scalar: 0.0 }).unwrap();
    acc.vregs[1][0] = 4.0;
    acc.vregs[1][1] = 5.0;
    acc.vregs[1][2] = 6.0;
    acc.execute(&Instruction::VSplat { v: 2, scalar: 0.5 }).unwrap();
    acc.execute(&Instruction::VFma { a: 0, b: 1, c: 2, d: 3 }).unwrap();
    assert_eq!(acc.vregs[3][0], 4.5);
    assert_eq!(acc.vregs[3][1], 10.5);
    assert_eq!(acc.vregs[3][2], 18.5);
}

#[test]
fn loadvec_storevec_roundtrip() {
    let mut acc = new_acc(128);
    for i in 0..VECTOR_LANES {
        acc.sram[i] = i as f32;
    }
    acc.execute(&Instruction::LoadVec { v: 5, sram_addr: 0 }).unwrap();
    for i in 0..VECTOR_LANES {
        assert_eq!(acc.vregs[5][i], i as f32);
    }
    acc.execute(&Instruction::StoreVec { v: 5, sram_addr: 64 }).unwrap();
    for i in 0..VECTOR_LANES {
        assert_eq!(acc.sram[64 + i], i as f32);
    }
}

#[test]
fn vsilu_matches_cpu_silu() {
    let mut acc = new_acc(64);
    for (lane, &v) in [-2.0_f32, -1.0, 0.0, 1.0, 2.0].iter().enumerate() {
        acc.vregs[0][lane] = v;
    }
    acc.execute(&Instruction::VSilu { v_in: 0, v_out: 1 }).unwrap();
    for (lane, &v) in [-2.0_f32, -1.0, 0.0, 1.0, 2.0].iter().enumerate() {
        let expected = v / (1.0 + (-v).exp());
        assert!((acc.vregs[1][lane] - expected).abs() < 1e-6);
    }
}

#[test]
fn vreduce_sum_broadcasts_total_to_all_lanes() {
    let mut acc = new_acc(64);
    for k in 0..VECTOR_LANES {
        acc.vregs[0][k] = k as f32; // 0+1+...+31 = 496
    }
    acc.execute(&Instruction::VReduceSum { v_in: 0, v_out: 1 }).unwrap();
    for k in 0..VECTOR_LANES {
        assert_eq!(acc.vregs[1][k], 496.0);
    }
}

#[test]
fn vswap_pairs_swaps_adjacent_lanes() {
    let mut acc = new_acc(64);
    for k in 0..VECTOR_LANES {
        acc.vregs[0][k] = k as f32;
    }
    acc.execute(&Instruction::VSwapPairs { v_in: 0, v_out: 1 }).unwrap();
    for k in 0..VECTOR_LANES / 2 {
        assert_eq!(acc.vregs[1][2 * k], (2 * k + 1) as f32);
        assert_eq!(acc.vregs[1][2 * k + 1], (2 * k) as f32);
    }
}

#[test]
fn vexp_lanewise_matches_libm() {
    let mut acc = new_acc(64);
    for (lane, &v) in [-1.0_f32, 0.0, 1.0, 2.0].iter().enumerate() {
        acc.vregs[0][lane] = v;
    }
    acc.execute(&Instruction::VExp { v_in: 0, v_out: 1 }).unwrap();
    for (lane, &v) in [-1.0_f32, 0.0, 1.0, 2.0].iter().enumerate() {
        let expected = v.exp();
        assert!((acc.vregs[1][lane] - expected).abs() < 1e-6);
    }
}

#[test]
fn vreduce_max_broadcasts_max_to_all_lanes() {
    let mut acc = new_acc(64);
    for k in 0..VECTOR_LANES {
        acc.vregs[0][k] = k as f32; // max = 31
    }
    acc.vregs[0][7] = 100.0;
    acc.execute(&Instruction::VReduceMax { v_in: 0, v_out: 1 }).unwrap();
    for k in 0..VECTOR_LANES {
        assert_eq!(acc.vregs[1][k], 100.0);
    }
}

#[test]
fn vbroadcast_lane_copies_one_lane_everywhere() {
    let mut acc = new_acc(64);
    for k in 0..VECTOR_LANES {
        acc.vregs[0][k] = (k as f32) * 0.5;
    }
    acc.execute(&Instruction::VBroadcastLane { v_in: 0, v_out: 1, lane: 5 }).unwrap();
    for k in 0..VECTOR_LANES {
        assert_eq!(acc.vregs[1][k], 2.5);
    }
}

#[test]
fn vmax_lanewise_is_pointwise_max() {
    let mut acc = new_acc(64);
    for k in 0..VECTOR_LANES {
        acc.vregs[0][k] = k as f32;
        acc.vregs[1][k] = (VECTOR_LANES as f32) - (k as f32);
    }
    acc.execute(&Instruction::VMax { a: 0, b: 1, c: 2 }).unwrap();
    for k in 0..VECTOR_LANES {
        let expected = (k as f32).max((VECTOR_LANES as f32) - (k as f32));
        assert_eq!(acc.vregs[2][k], expected);
    }
}

#[test]
fn vbroadcast_lane_out_of_range_errors() {
    let mut acc = new_acc(64);
    assert!(acc
        .execute(&Instruction::VBroadcastLane { v_in: 0, v_out: 1, lane: 32 })
        .is_err());
}

#[test]
fn vrsqrt_lanewise() {
    let mut acc = new_acc(64);
    for (lane, &v) in [1.0_f32, 4.0, 16.0, 100.0].iter().enumerate() {
        acc.vregs[0][lane] = v;
    }
    acc.execute(&Instruction::VRsqrt { v_in: 0, v_out: 1 }).unwrap();
    for (lane, &v) in [1.0_f32, 4.0, 16.0, 100.0].iter().enumerate() {
        let expected = 1.0 / v.sqrt();
        assert!((acc.vregs[1][lane] - expected).abs() < 1e-6);
    }
}

#[test]
fn instr_count_increments_on_success() {
    let mut acc = new_acc(64);
    acc.run(&[
        Instruction::VSplat { v: 0, scalar: 1.0 },
        Instruction::VSplat { v: 1, scalar: 2.0 },
        Instruction::VAdd { a: 0, b: 1, c: 2 },
    ]).unwrap();
    assert_eq!(acc.instr_count, 3);
}

#[test]
fn out_of_range_vreg_errors() {
    let mut acc = new_acc(64);
    assert!(acc.execute(&Instruction::VSplat { v: 200, scalar: 0.0 }).is_err());
    assert_eq!(acc.instr_count, 0);
}

#[test]
fn out_of_bounds_sram_errors() {
    let mut acc = new_acc(VECTOR_LANES - 1);
    assert!(acc.execute(&Instruction::LoadVec { v: 0, sram_addr: 0 }).is_err());
}

// ===== Matrix unit + DRAM tests =====

#[test]
fn mat_accum_clear_zeros_register() {
    let mut acc = new_acc(MATMUL_TILE_ELEMENTS * 2);
    acc.matrix_accum[3][7] = 42.0;
    acc.execute(&Instruction::MatAccumClear).unwrap();
    for row in &acc.matrix_accum {
        assert!(row.iter().all(|&v| v == 0.0));
    }
}

#[test]
fn matmul_tile_identity_times_identity_is_identity() {
    let mut acc = new_acc(MATMUL_TILE_ELEMENTS * 3);
    // Lay out two identity matrices: A at offset 0, B at offset 256.
    for i in 0..MATMUL_TILE {
        acc.sram[i * MATMUL_TILE + i] = 1.0;
        acc.sram[MATMUL_TILE_ELEMENTS + i * MATMUL_TILE + i] = 1.0;
    }
    acc.execute(&Instruction::MatAccumClear).unwrap();
    acc.execute(&Instruction::MatMulTile { a_sram: 0, b_sram: MATMUL_TILE_ELEMENTS }).unwrap();
    for i in 0..MATMUL_TILE {
        for j in 0..MATMUL_TILE {
            let expected = if i == j { 1.0 } else { 0.0 };
            assert_eq!(acc.matrix_accum[i][j], expected);
        }
    }
}

#[test]
fn matmul_tile_accumulates_across_calls() {
    // Run MatMulTile twice with the same identity inputs. Accumulator
    // should double.
    let mut acc = new_acc(MATMUL_TILE_ELEMENTS * 3);
    for i in 0..MATMUL_TILE {
        acc.sram[i * MATMUL_TILE + i] = 1.0;
        acc.sram[MATMUL_TILE_ELEMENTS + i * MATMUL_TILE + i] = 1.0;
    }
    acc.execute(&Instruction::MatAccumClear).unwrap();
    acc.execute(&Instruction::MatMulTile { a_sram: 0, b_sram: MATMUL_TILE_ELEMENTS }).unwrap();
    acc.execute(&Instruction::MatMulTile { a_sram: 0, b_sram: MATMUL_TILE_ELEMENTS }).unwrap();
    for i in 0..MATMUL_TILE {
        assert_eq!(acc.matrix_accum[i][i], 2.0);
    }
}

#[test]
fn matmul_tile_known_answer_then_store() {
    // A = ones, B = ones. A·B[i][j] = sum_k 1*1 = 16. Whole accumulator
    // is 16.0 after one MatMulTile, then MatAccumStore copies it to SRAM.
    let mut acc = new_acc(MATMUL_TILE_ELEMENTS * 4);
    for i in 0..MATMUL_TILE_ELEMENTS {
        acc.sram[i] = 1.0;
        acc.sram[MATMUL_TILE_ELEMENTS + i] = 1.0;
    }
    acc.execute(&Instruction::MatAccumClear).unwrap();
    acc.execute(&Instruction::MatMulTile { a_sram: 0, b_sram: MATMUL_TILE_ELEMENTS }).unwrap();
    let dst = MATMUL_TILE_ELEMENTS * 2;
    acc.execute(&Instruction::MatAccumStore { sram_dst: dst }).unwrap();
    for i in 0..MATMUL_TILE_ELEMENTS {
        assert_eq!(acc.sram[dst + i], 16.0);
    }
}

#[test]
fn matmul_tile_matches_cpu_reference() {
    // Random-ish 16×16 inputs, cross-check vs the naive CPU matmul kernel.
    let mut acc = new_acc(MATMUL_TILE_ELEMENTS * 3);
    let a: Vec<f32> = (0..MATMUL_TILE_ELEMENTS)
        .map(|i| ((i * 31 + 7) % 41) as f32 / 41.0 - 0.5)
        .collect();
    let b: Vec<f32> = (0..MATMUL_TILE_ELEMENTS)
        .map(|i| ((i * 37 + 11) % 43) as f32 / 43.0 - 0.5)
        .collect();
    acc.sram[..MATMUL_TILE_ELEMENTS].copy_from_slice(&a);
    acc.sram[MATMUL_TILE_ELEMENTS..MATMUL_TILE_ELEMENTS * 2].copy_from_slice(&b);

    acc.execute(&Instruction::MatAccumClear).unwrap();
    acc.execute(&Instruction::MatMulTile { a_sram: 0, b_sram: MATMUL_TILE_ELEMENTS }).unwrap();

    let mut reference = vec![0.0_f32; MATMUL_TILE_ELEMENTS];
    matmul_naive::<F32>(&a, &b, &mut reference, MATMUL_TILE, MATMUL_TILE, MATMUL_TILE);

    for i in 0..MATMUL_TILE {
        for j in 0..MATMUL_TILE {
            let got = acc.matrix_accum[i][j];
            let want = reference[i * MATMUL_TILE + j];
            assert!((got - want).abs() < 1e-4, "[{},{}]: {} vs {}", i, j, got, want);
        }
    }
}

#[test]
fn dram_sram_roundtrip() {
    let mut acc = Accelerator::<F32>::new(64, 64);
    for i in 0..64 {
        acc.dram[i] = i as f32;
    }
    acc.execute(&Instruction::LoadDram { dram_addr: 8, sram_addr: 16, len: 32 }).unwrap();
    for i in 0..32 {
        assert_eq!(acc.sram[16 + i], (8 + i) as f32);
    }
    // Modify a few SRAM cells, push back to a different DRAM region.
    for i in 0..32 {
        acc.sram[16 + i] *= -1.0;
    }
    acc.execute(&Instruction::StoreDram { sram_addr: 16, dram_addr: 0, len: 32 }).unwrap();
    for i in 0..32 {
        assert_eq!(acc.dram[i], -((8 + i) as f32));
    }
}

#[test]
fn dram_overrun_errors() {
    let mut acc = Accelerator::<F32>::new(64, 64);
    assert!(acc
        .execute(&Instruction::LoadDram { dram_addr: 50, sram_addr: 0, len: 32 })
        .is_err());
}

// ===== MatVecTile tests =====

#[test]
fn matvec_tile_identity_passes_x_through() {
    let mut acc = new_acc(MATMUL_TILE_ELEMENTS * 2 + MATMUL_TILE * 4);
    // x = [0.5, 1.0, 1.5, ...] at sram[0..16]
    for i in 0..MATMUL_TILE {
        acc.sram[i] = (i as f32 + 1.0) * 0.5;
    }
    // W tile = identity at sram[16..16+256]
    // For matvec semantics, tile[k][j] = 1 if k==j else 0 reproduces y = x.
    for k in 0..MATMUL_TILE {
        acc.sram[MATMUL_TILE + k * MATMUL_TILE + k] = 1.0;
    }
    let y_addr = MATMUL_TILE + MATMUL_TILE_ELEMENTS;
    acc.execute(&Instruction::MatVecTile {
        x_sram: 0,
        w_sram: MATMUL_TILE,
        y_sram: y_addr,
        accumulate: false,
    })
    .unwrap();
    for i in 0..MATMUL_TILE {
        assert_eq!(acc.sram[y_addr + i], (i as f32 + 1.0) * 0.5);
    }
}

#[test]
fn matvec_tile_accumulates_on_second_call() {
    let mut acc = new_acc(MATMUL_TILE * 4 + MATMUL_TILE_ELEMENTS * 2);
    for i in 0..MATMUL_TILE {
        acc.sram[i] = 1.0; // x = ones
        acc.sram[MATMUL_TILE + i * MATMUL_TILE + i] = 1.0; // tile = identity
    }
    let y_addr = MATMUL_TILE + MATMUL_TILE_ELEMENTS;
    acc.execute(&Instruction::MatVecTile {
        x_sram: 0, w_sram: MATMUL_TILE, y_sram: y_addr, accumulate: false,
    }).unwrap();
    acc.execute(&Instruction::MatVecTile {
        x_sram: 0, w_sram: MATMUL_TILE, y_sram: y_addr, accumulate: true,
    }).unwrap();
    for i in 0..MATMUL_TILE {
        assert_eq!(acc.sram[y_addr + i], 2.0);
    }
}

#[test]
fn matvec_tile_accumulate_false_resets_y() {
    // If accumulate=false, prior contents of y should be ignored.
    let mut acc = new_acc(MATMUL_TILE * 4 + MATMUL_TILE_ELEMENTS * 2);
    for i in 0..MATMUL_TILE {
        acc.sram[i] = 1.0;
        acc.sram[MATMUL_TILE + i * MATMUL_TILE + i] = 1.0;
    }
    let y_addr = MATMUL_TILE + MATMUL_TILE_ELEMENTS;
    // Poison y with garbage; the first MatVec should overwrite it.
    for i in 0..MATMUL_TILE {
        acc.sram[y_addr + i] = 99999.0;
    }
    acc.execute(&Instruction::MatVecTile {
        x_sram: 0, w_sram: MATMUL_TILE, y_sram: y_addr, accumulate: false,
    }).unwrap();
    for i in 0..MATMUL_TILE {
        assert_eq!(acc.sram[y_addr + i], 1.0);
    }
}

#[test]
fn each_fault_is_reported_and_changes_nothing() {
    let mut acc = Accelerator::<F32>::new(300, 10);
    acc.sram[7] = 7.0;
    let before = acc.sram.clone();
    let range = |access, start, end, capacity| Err(Fault::OutOfRange { access, start, end, capacity });
    let cases: Vec<(Instruction<f32>, Result<(), Fault>)> = vec![
        (Instruction::VAdd { a: 0, b: 32, c: 99 }, Err(Fault::Register { index: 32 })),
        (Instruction::VFma { a: 0, b: 0, c: 0, d: 40 }, Err(Fault::Register { index: 40 })),
        (Instruction::VBroadcastLane { v_in: 0, v_out: 0, lane: 32 }, Err(Fault::Lane { lane: 32 })),
        (
            Instruction::VBroadcastLane { v_in: 0, v_out: 33, lane: 32 },
            Err(Fault::Register { index: 33 }),
        ),
        (
            Instruction::LoadVec { v: 0, sram_addr: usize::MAX },
            Err(Fault::AddressOverflow { access: Access::LoadVec }),
        ),
        (Instruction::LoadVec { v: 0, sram_addr: 269 }, range(Access::LoadVec, 269, 301, 300)),
        (Instruction::StoreVec { v: 0, sram_addr: 300 }, range(Access::StoreVec, 300, 332, 300)),
        (
            Instruction::MatMulTile { a_sram: 45, b_sram: 0 },
            range(Access::MatMulA, 45, 301, 300),
        ),
        (
            Instruction::MatMulTile { a_sram: 0, b_sram: 45 },
            range(Access::MatMulB, 45, 301, 300),
        ),
        (Instruction::MatAccumStore { sram_dst: 45 }, range(Access::AccumStore, 45, 301, 300)),
        (
            Instruction::MatVecTile { x_sram: 285, w_sram: 45, y_sram: 285, accumulate: true },
            range(Access::MatVecX, 285, 301, 300),
        ),
        (
            Instruction::MatVecTile { x_sram: 0, w_sram: 45, y_sram: 285, accumulate: true },
            range(Access::MatVecW, 45, 301, 300),
        ),
        (
            Instruction::MatVecTile { x_sram: 0, w_sram: 0, y_sram: 285, accumulate: true },
            range(Access::MatVecY, 285, 301, 300),
        ),
        (
            Instruction::LoadDram { dram_addr: 8, sram_addr: 0, len: 3 },
            range(Access::DramLoadSource, 8, 11, 10),
        ),
        (
            Instruction::LoadDram { dram_addr: 0, sram_addr: 298, len: 3 },
            range(Access::DramLoadTarget, 298, 301, 300),
        ),
        (
            Instruction::StoreDram { sram_addr: 298, dram_addr: 8, len: 3 },
            range(Access::DramStoreSource, 298, 301, 300),
        ),
        (
            Instruction::StoreDram { sram_addr: 0, dram_addr: 8, len: 3 },
            range(Access::DramStoreTarget, 8, 11, 10),
        ),
    ];
    for (instr, want) in cases {
        assert_eq!(acc.execute(&instr), want, "{:?}", instr);
    }
    assert_eq!(acc.instr_count, 0);
    assert_eq!(acc.sram, before);
}

#[test]
fn a_program_stops_at_its_first_fault() {
    let mut acc = new_acc(64);
    let result = acc.run(&[
        Instruction::VSplat { v: 0, scalar: 4.0 },
        Instruction::StoreVec { v: 0, sram_addr: 8 },
        Instruction::VSplat { v: 77, scalar: 5.0 },
        Instruction::VSplat { v: 0, scalar: 6.0 },
    ]);
    assert_eq!(result, Err(Fault::Register { index: 77 }));
    assert_eq!(acc.instr_count, 2);
    assert_eq!(acc.vregs[0][0], 4.0);
    assert_eq!((acc.sram[7], acc.sram[8], acc.sram[39], acc.sram[40]), (0.0, 4.0, 4.0, 0.0));
}

#[test]
fn a_fresh_machine_is_all_zero() {
    let acc = Accelerator::<F32>::new(5, 7);
    assert_eq!((acc.sram.len(), acc.dram.len(), acc.instr_count), (5, 7, 0));
    assert_eq!(acc.sram_size_bytes(), 20);
    assert!(acc.sram.iter().chain(acc.dram.iter()).all(|&v| v == 0.0));
    assert!(acc.vregs.iter().all(|r| r.iter().all(|&v| v == 0.0)));
    assert!(acc.matrix_accum.iter().all(|r| r.iter().all(|&v| v == 0.0)));
}

#[test]
fn matvec_tile_reads_weights_that_it_has_overwritten() {
    // The outputs lie on the first row of the weights: output 0 is written before
    // column 1 is read, so only column 0 sees the old first row.
    let mut acc = new_acc(300);
    for k in 0..16 {
        acc.sram[k] = 1.0;
    }
    for p in 16..272 {
        acc.sram[p] = 1.0;
    }
    acc.execute(&Instruction::MatVecTile { x_sram: 0, w_sram: 16, y_sram: 17, accumulate: false })
        .unwrap();
    // y[0] at 17 is 16; it is also the weight of input 0 for output 1.
    assert_eq!(acc.sram[17], 16.0);
    assert_eq!(acc.sram[18], 31.0);
    assert_eq!(acc.sram[19], 46.0);
}

#[test]
fn in_place_vector_instructions_read_before_they_write() {
    let mut acc = new_acc(64);
    for k in 0..VECTOR_LANES {
        acc.vregs[4][k] = k as f32;
    }
    acc.execute(&Instruction::VSwapPairs { v_in: 4, v_out: 4 }).unwrap();
    assert_eq!((acc.vregs[4][0], acc.vregs[4][1], acc.vregs[4][31]), (1.0, 0.0, 30.0));
    acc.execute(&Instruction::VSwapPairs { v_in: 4, v_out: 4 }).unwrap();
    for k in 0..VECTOR_LANES {
        assert_eq!(acc.vregs[4][k], k as f32);
    }
    acc.execute(&Instruction::VMul { a: 4, b: 4, c: 4 }).unwrap();
    assert_eq!(acc.vregs[4][5], 25.0);
    acc.execute(&Instruction::VBroadcastLane { v_in: 4, v_out: 4, lane: 3 }).unwrap();
    assert_eq!(acc.vregs[4], [9.0; VECTOR_LANES]);
}
