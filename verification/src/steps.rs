//! What the instructions of the accelerator do, written out.
//!
//! Each law gives the machine after an instruction as an expression over the
//! machine before it: every lane and every element that is written, and nothing
//! else that changes.

use vstd::prelude::*;

use crate::accelerator::{
    fault_of, lemma_runnable, matvec_column_is, matvec_is, matvec_output_is, range_fault,
    register_fault, run_is, runnable, step_is, tile_column, tile_row, trace_is, Accelerator, Access,
    Fault, Instruction, Machine,
};
use crate::arith::{int_is, mac_is, Arith};
use crate::plain::{
    follows, law_silu_written_out, lemma_greatest, lemma_mac_folds, lemma_rsqrt, lemma_total, Ops,
};

verus! {

/// A vector register is refused exactly where its number is 32 or more.
pub proof fn law_register_faults(raw: u8)
    ensures
        raw < 32 ==> register_fault(raw) is None,
        raw >= 32 ==> register_fault(raw) == Some(Fault::Register { index: raw as usize }),
{
}

/// A range of memory is refused exactly where its end is no address or lies behind
/// the end of the memory.
pub proof fn law_range_faults(start: usize, len: usize, capacity: nat, access: Access)
    ensures
        start + len <= usize::MAX && start + len <= capacity ==> range_fault(
            start,
            len,
            capacity,
            access,
        ) is None,
        start + len > usize::MAX ==> range_fault(start, len, capacity, access) == Some(
            Fault::AddressOverflow { access },
        ),
        capacity < start + len <= usize::MAX ==> range_fault(start, len, capacity, access) == Some(
            Fault::OutOfRange {
                access,
                start,
                end: (start + len) as usize,
                capacity: capacity as usize,
            },
        ),
{
}

/// An instruction has the fault of the first of its operands that is refused, and
/// none where none is.
pub proof fn law_instruction_faults<T>(sram: nat, dram: nat, instr: Instruction<T>)
    requires
        sram <= usize::MAX,
        dram <= usize::MAX,
    ensures
        match instr {
            Instruction::LoadVec { v, sram_addr } => if v >= 32 {
                fault_of(sram, dram, instr) == Some(Fault::Register { index: v as usize })
            } else if sram_addr + 32 > sram {
                fault_of(sram, dram, instr) == range_fault(sram_addr, 32, sram, Access::LoadVec)
            } else {
                fault_of(sram, dram, instr) is None
            },
            Instruction::StoreVec { v, sram_addr } => if v >= 32 {
                fault_of(sram, dram, instr) == Some(Fault::Register { index: v as usize })
            } else if sram_addr + 32 > sram {
                fault_of(sram, dram, instr) == range_fault(sram_addr, 32, sram, Access::StoreVec)
            } else {
                fault_of(sram, dram, instr) is None
            },
            Instruction::VAdd { a, b, c }
            | Instruction::VMul { a, b, c }
            | Instruction::VMax { a, b, c } => if a >= 32 {
                fault_of(sram, dram, instr) == Some(Fault::Register { index: a as usize })
            } else if b >= 32 {
                fault_of(sram, dram, instr) == Some(Fault::Register { index: b as usize })
            } else if c >= 32 {
                fault_of(sram, dram, instr) == Some(Fault::Register { index: c as usize })
            } else {
                fault_of(sram, dram, instr) is None
            },
            Instruction::VFma { a, b, c, d } => if a >= 32 {
                fault_of(sram, dram, instr) == Some(Fault::Register { index: a as usize })
            } else if b >= 32 {
                fault_of(sram, dram, instr) == Some(Fault::Register { index: b as usize })
            } else if c >= 32 {
                fault_of(sram, dram, instr) == Some(Fault::Register { index: c as usize })
            } else if d >= 32 {
                fault_of(sram, dram, instr) == Some(Fault::Register { index: d as usize })
            } else {
                fault_of(sram, dram, instr) is None
            },
            Instruction::VSplat { v, .. } => if v >= 32 {
                fault_of(sram, dram, instr) == Some(Fault::Register { index: v as usize })
            } else {
                fault_of(sram, dram, instr) is None
            },
            Instruction::VSilu { v_in, v_out }
            | Instruction::VReduceSum { v_in, v_out }
            | Instruction::VRsqrt { v_in, v_out }
            | Instruction::VSwapPairs { v_in, v_out }
            | Instruction::VExp { v_in, v_out }
            | Instruction::VReduceMax { v_in, v_out } => if v_in >= 32 {
                fault_of(sram, dram, instr) == Some(Fault::Register { index: v_in as usize })
            } else if v_out >= 32 {
                fault_of(sram, dram, instr) == Some(Fault::Register { index: v_out as usize })
            } else {
                fault_of(sram, dram, instr) is None
            },
            Instruction::VBroadcastLane { v_in, v_out, lane } => if v_in >= 32 {
                fault_of(sram, dram, instr) == Some(Fault::Register { index: v_in as usize })
            } else if v_out >= 32 {
                fault_of(sram, dram, instr) == Some(Fault::Register { index: v_out as usize })
            } else if lane >= 32 {
                fault_of(sram, dram, instr) == Some(Fault::Lane { lane: lane as usize })
            } else {
                fault_of(sram, dram, instr) is None
            },
            Instruction::MatAccumClear => fault_of(sram, dram, instr) is None,
            Instruction::MatMulTile { a_sram, b_sram } => if a_sram + 256 > sram {
                fault_of(sram, dram, instr) == range_fault(a_sram, 256, sram, Access::MatMulA)
            } else if b_sram + 256 > sram {
                fault_of(sram, dram, instr) == range_fault(b_sram, 256, sram, Access::MatMulB)
            } else {
                fault_of(sram, dram, instr) is None
            },
            Instruction::MatAccumStore { sram_dst } => if sram_dst + 256 > sram {
                fault_of(sram, dram, instr) == range_fault(sram_dst, 256, sram, Access::AccumStore)
            } else {
                fault_of(sram, dram, instr) is None
            },
            Instruction::MatVecTile { x_sram, w_sram, y_sram, .. } => if x_sram + 16 > sram {
                fault_of(sram, dram, instr) == range_fault(x_sram, 16, sram, Access::MatVecX)
            } else if w_sram + 256 > sram {
                fault_of(sram, dram, instr) == range_fault(w_sram, 256, sram, Access::MatVecW)
            } else if y_sram + 16 > sram {
                fault_of(sram, dram, instr) == range_fault(y_sram, 16, sram, Access::MatVecY)
            } else {
                fault_of(sram, dram, instr) is None
            },
            Instruction::LoadDram { dram_addr, sram_addr, len } => if dram_addr + len > dram {
                fault_of(sram, dram, instr) == range_fault(
                    dram_addr,
                    len,
                    dram,
                    Access::DramLoadSource,
                )
            } else if sram_addr + len > sram {
                fault_of(sram, dram, instr) == range_fault(
                    sram_addr,
                    len,
                    sram,
                    Access::DramLoadTarget,
                )
            } else {
                fault_of(sram, dram, instr) is None
            },
            Instruction::StoreDram { sram_addr, dram_addr, len } => if sram_addr + len > sram {
                fault_of(sram, dram, instr) == range_fault(
                    sram_addr,
                    len,
                    sram,
                    Access::DramStoreSource,
                )
            } else if dram_addr + len > dram {
                fault_of(sram, dram, instr) == range_fault(
                    dram_addr,
                    len,
                    dram,
                    Access::DramStoreTarget,
                )
            } else {
                fault_of(sram, dram, instr) is None
            },
        },
{
}

/// What a vector instruction writes, lane by lane, into the register it names: no
/// other register changes, and no memory.
#[verifier::rlimit(50)]
pub proof fn law_vector_steps_written_out<A: Arith>(
    o: Ops<A::Num>,
    pre: Machine<A::Num>,
    instr: Instruction<A::Num>,
    post: Machine<A::Num>,
)
    requires
        follows::<A>(o),
        pre.shaped(),
        fault_of(pre.sram.len(), pre.dram.len(), instr) is None,
        step_is::<A>(pre, instr, post),
    ensures
        instr matches Instruction::VAdd { a, b, c } ==> post == (Machine {
            vregs: pre.vregs.update(
                c as int,
                Seq::new(
                    32,
                    |l: int| (o.plus)(pre.vregs[a as int][l], pre.vregs[b as int][l]),
                ),
            ),
            instr_count: pre.instr_count + 1,
            ..pre
        }),
        instr matches Instruction::VMul { a, b, c } ==> post == (Machine {
            vregs: pre.vregs.update(
                c as int,
                Seq::new(
                    32,
                    |l: int| (o.times)(pre.vregs[a as int][l], pre.vregs[b as int][l]),
                ),
            ),
            instr_count: pre.instr_count + 1,
            ..pre
        }),
        instr matches Instruction::VMax { a, b, c } ==> post == (Machine {
            vregs: pre.vregs.update(
                c as int,
                Seq::new(
                    32,
                    |l: int| (o.max)(pre.vregs[a as int][l], pre.vregs[b as int][l]),
                ),
            ),
            instr_count: pre.instr_count + 1,
            ..pre
        }),
        instr matches Instruction::VFma { a, b, c, d } ==> post == (Machine {
            vregs: pre.vregs.update(
                d as int,
                Seq::new(
                    32,
                    |l: int|
                        (o.plus)(
                            (o.times)(pre.vregs[a as int][l], pre.vregs[b as int][l]),
                            pre.vregs[c as int][l],
                        ),
                ),
            ),
            instr_count: pre.instr_count + 1,
            ..pre
        }),
        instr matches Instruction::VSplat { v, scalar } ==> post == (Machine {
            vregs: pre.vregs.update(
                v as int,
                Seq::new(
                    32,
                    |l: int| scalar,
                ),
            ),
            instr_count: pre.instr_count + 1,
            ..pre
        }),
        instr matches Instruction::VSilu { v_in, v_out } ==> post == (Machine {
            vregs: pre.vregs.update(
                v_out as int,
                Seq::new(
                    32,
                    |l: int| (o.over)(
                        pre.vregs[v_in as int][l],
                        (o.plus)((o.int)(1), (o.exp)((o.negate)(pre.vregs[v_in as int][l]))),
                    ),
                ),
            ),
            instr_count: pre.instr_count + 1,
            ..pre
        }),
        instr matches Instruction::VRsqrt { v_in, v_out } ==> post == (Machine {
            vregs: pre.vregs.update(
                v_out as int,
                Seq::new(
                    32,
                    |l: int| (o.over)((o.int)(1), (o.sqrt)(pre.vregs[v_in as int][l])),
                ),
            ),
            instr_count: pre.instr_count + 1,
            ..pre
        }),
        instr matches Instruction::VExp { v_in, v_out } ==> post == (Machine {
            vregs: pre.vregs.update(
                v_out as int,
                Seq::new(
                    32,
                    |l: int| (o.exp)(pre.vregs[v_in as int][l]),
                ),
            ),
            instr_count: pre.instr_count + 1,
            ..pre
        }),
        instr matches Instruction::VSwapPairs { v_in, v_out } ==> post == (Machine {
            vregs: pre.vregs.update(
                v_out as int,
                Seq::new(
                    32,
                    |l: int| if l % 2 == 0 {
                        pre.vregs[v_in as int][l + 1]
                    } else {
                        pre.vregs[v_in as int][l - 1]
                    },
                ),
            ),
            instr_count: pre.instr_count + 1,
            ..pre
        }),
        instr matches Instruction::VBroadcastLane { v_in, v_out, lane } ==> post == (Machine {
            vregs: pre.vregs.update(
                v_out as int,
                Seq::new(
                    32,
                    |l: int| pre.vregs[v_in as int][lane as int],
                ),
            ),
            instr_count: pre.instr_count + 1,
            ..pre
        }),
        instr matches Instruction::VReduceSum { v_in, v_out } ==> post == (Machine {
            vregs: pre.vregs.update(
                v_out as int,
                Seq::new(
                    32,
                    |l: int| pre.vregs[v_in as int].fold_left(o.empty, o.plus),
                ),
            ),
            instr_count: pre.instr_count + 1,
            ..pre
        }),
        instr matches Instruction::VReduceMax { v_in, v_out } ==> post == (Machine {
            vregs: pre.vregs.update(
                v_out as int,
                Seq::new(
                    32,
                    |l: int| pre.vregs[v_in as int].fold_left(o.low, o.max),
                ),
            ),
            instr_count: pre.instr_count + 1,
            ..pre
        }),
{
    match instr {
        Instruction::VAdd { a, b, c } => {
            let lanes = Seq::new(
                32,
                |l: int| (o.plus)(pre.vregs[a as int][l], pre.vregs[b as int][l]),
            );
            assert(post.vregs[c as int] =~= lanes);
            assert(post.vregs =~= pre.vregs.update(c as int, lanes));
        },
        Instruction::VMul { a, b, c } => {
            let lanes = Seq::new(
                32,
                |l: int| (o.times)(pre.vregs[a as int][l], pre.vregs[b as int][l]),
            );
            assert(post.vregs[c as int] =~= lanes);
            assert(post.vregs =~= pre.vregs.update(c as int, lanes));
        },
        Instruction::VMax { a, b, c } => {
            let lanes = Seq::new(
                32,
                |l: int| (o.max)(pre.vregs[a as int][l], pre.vregs[b as int][l]),
            );
            assert(post.vregs[c as int] =~= lanes);
            assert(post.vregs =~= pre.vregs.update(c as int, lanes));
        },
        Instruction::VFma { a, b, c, d } => {
            let lanes = Seq::new(
                32,
                |l: int|
                    (o.plus)(
                        (o.times)(pre.vregs[a as int][l], pre.vregs[b as int][l]),
                        pre.vregs[c as int][l],
                    ),
            );
            assert(post.vregs[d as int] =~= lanes);
            assert(post.vregs =~= pre.vregs.update(d as int, lanes));
        },
        Instruction::VSplat { v, scalar } => {
            let lanes = Seq::new(
                32,
                |l: int| scalar,
            );
            assert(post.vregs[v as int] =~= lanes);
            assert(post.vregs =~= pre.vregs.update(v as int, lanes));
        },
        Instruction::VSilu { v_in, v_out } => {
            let lanes = Seq::new(
                32,
                |l: int| (o.over)(
                    pre.vregs[v_in as int][l],
                    (o.plus)((o.int)(1), (o.exp)((o.negate)(pre.vregs[v_in as int][l]))),
                ),
            );
            assert forall|l: int| 0 <= l < 32 implies #[trigger] post.vregs[v_out as int][l]
                == lanes[l] by {
                law_silu_written_out::<A>(
                    o,
                    pre.vregs[v_in as int][l],
                    post.vregs[v_out as int][l],
                );
            }
            assert(post.vregs[v_out as int] =~= lanes);
            assert(post.vregs =~= pre.vregs.update(v_out as int, lanes));
        },
        Instruction::VRsqrt { v_in, v_out } => {
            let lanes = Seq::new(
                32,
                |l: int| (o.over)((o.int)(1), (o.sqrt)(pre.vregs[v_in as int][l])),
            );
            assert forall|l: int| 0 <= l < 32 implies #[trigger] post.vregs[v_out as int][l]
                == lanes[l] by {
                lemma_rsqrt::<A>(o, pre.vregs[v_in as int][l], post.vregs[v_out as int][l]);
            }
            assert(post.vregs[v_out as int] =~= lanes);
            assert(post.vregs =~= pre.vregs.update(v_out as int, lanes));
        },
        Instruction::VExp { v_in, v_out } => {
            let lanes = Seq::new(
                32,
                |l: int| (o.exp)(pre.vregs[v_in as int][l]),
            );
            assert(post.vregs[v_out as int] =~= lanes);
            assert(post.vregs =~= pre.vregs.update(v_out as int, lanes));
        },
        Instruction::VSwapPairs { v_in, v_out } => {
            let lanes = Seq::new(
                32,
                |l: int| if l % 2 == 0 {
                    pre.vregs[v_in as int][l + 1]
                } else {
                    pre.vregs[v_in as int][l - 1]
                },
            );
            assert(post.vregs[v_out as int] =~= lanes);
            assert(post.vregs =~= pre.vregs.update(v_out as int, lanes));
        },
        Instruction::VBroadcastLane { v_in, v_out, lane } => {
            let lanes = Seq::new(
                32,
                |l: int| pre.vregs[v_in as int][lane as int],
            );
            assert(post.vregs[v_out as int] =~= lanes);
            assert(post.vregs =~= pre.vregs.update(v_out as int, lanes));
        },
        Instruction::VReduceSum { v_in, v_out } => {
            let lanes = Seq::new(
                32,
                |l: int| pre.vregs[v_in as int].fold_left(o.empty, o.plus),
            );
            lemma_total::<A>(o, pre.vregs[v_in as int], post.vregs[v_out as int][0]);
            assert(post.vregs[v_out as int] =~= lanes);
            assert(post.vregs =~= pre.vregs.update(v_out as int, lanes));
        },
        Instruction::VReduceMax { v_in, v_out } => {
            let lanes = Seq::new(
                32,
                |l: int| pre.vregs[v_in as int].fold_left(o.low, o.max),
            );
            lemma_greatest::<A>(o, pre.vregs[v_in as int], post.vregs[v_out as int][0]);
            assert(post.vregs[v_out as int] =~= lanes);
            assert(post.vregs =~= pre.vregs.update(v_out as int, lanes));
        },
        _ => {},
    }
}

/// What the instructions that move data write: the elements of the target range
/// come from the source, one for one, and all others stay.
pub proof fn law_moves_written_out<A: Arith>(
    pre: Machine<A::Num>,
    instr: Instruction<A::Num>,
    post: Machine<A::Num>,
)
    requires
        pre.shaped(),
        fault_of(pre.sram.len(), pre.dram.len(), instr) is None,
        step_is::<A>(pre, instr, post),
    ensures
        instr matches Instruction::LoadVec { v, sram_addr } ==> post == (Machine {
            vregs: pre.vregs.update(v as int, Seq::new(32, |l: int| pre.sram[sram_addr + l])),
            instr_count: pre.instr_count + 1,
            ..pre
        }),
        instr matches Instruction::StoreVec { v, sram_addr } ==> post == (Machine {
            sram: Seq::new(
                pre.sram.len(),
                |p: int|
                    if sram_addr <= p < sram_addr + 32 {
                        pre.vregs[v as int][p - sram_addr]
                    } else {
                        pre.sram[p]
                    },
            ),
            instr_count: pre.instr_count + 1,
            ..pre
        }),
        instr matches Instruction::LoadDram { dram_addr, sram_addr, len } ==> post == (Machine {
            sram: Seq::new(
                pre.sram.len(),
                |p: int|
                    if sram_addr <= p < sram_addr + len {
                        pre.dram[dram_addr + (p - sram_addr)]
                    } else {
                        pre.sram[p]
                    },
            ),
            instr_count: pre.instr_count + 1,
            ..pre
        }),
        instr matches Instruction::StoreDram { sram_addr, dram_addr, len } ==> post == (Machine {
            dram: Seq::new(
                pre.dram.len(),
                |p: int|
                    if dram_addr <= p < dram_addr + len {
                        pre.sram[sram_addr + (p - dram_addr)]
                    } else {
                        pre.dram[p]
                    },
            ),
            instr_count: pre.instr_count + 1,
            ..pre
        }),
        instr matches Instruction::MatAccumStore { sram_dst } ==> post == (Machine {
            sram: Seq::new(
                pre.sram.len(),
                |p: int|
                    if sram_dst <= p < sram_dst + 256 {
                        pre.accum[(p - sram_dst) / 16][(p - sram_dst) % 16]
                    } else {
                        pre.sram[p]
                    },
            ),
            instr_count: pre.instr_count + 1,
            ..pre
        }),
{
    match instr {
        Instruction::LoadVec { v, sram_addr } => {
            let lanes = Seq::new(32, |l: int| pre.sram[sram_addr + l]);
            assert(post.vregs[v as int] =~= lanes);
            assert(post.vregs =~= pre.vregs.update(v as int, lanes));
        },
        _ => {},
    }
}

/// The first `n` columns of a matrix-vector tile, one after the other.
proof fn lemma_matvec_folds<A: Arith>(
    o: Ops<A::Num>,
    pre: Seq<A::Num>,
    post: Seq<A::Num>,
    x: Seq<A::Num>,
    w: int,
    y: int,
    accumulate: bool,
    n: nat,
)
    requires
        follows::<A>(o),
        matvec_is::<A>(pre, post, x, w, y, accumulate, n),
    ensures
        post == Seq::new(n, |j: int| j).fold_left(
            pre,
            |m: Seq<A::Num>, j: int|
                m.update(
                    y + j,
                    Seq::new(16, |k: int| (o.times)(x[k], m[w + k * 16 + j])).fold_left(
                        if accumulate {
                            m[y + j]
                        } else {
                            (o.int)(0)
                        },
                        o.plus,
                    ),
                ),
        ),
    decreases n,
{
    if n > 0 {
        let m = (n - 1) as nat;
        let mid = choose|mid: Seq<A::Num>|
            {
                &&& matvec_is::<A>(pre, mid, x, w, y, accumulate, m)
                &&& #[trigger] matvec_column_is::<A>(mid, post, x, w, y, n - 1, accumulate)
            };
        lemma_matvec_folds::<A>(o, pre, mid, x, w, y, accumulate, m);
        let c = tile_column(mid, w, n - 1);
        let init = choose|init: A::Num|
            {
                &&& if accumulate {
                    init == mid[y + n - 1]
                } else {
                    int_is::<A>(0, init)
                }
                &&& #[trigger] mac_is::<A>(init, x, c, 16, post[y + n - 1])
            };
        assert(matvec_output_is::<A>(mid, x, w, y, n - 1, accumulate, post[y + (n - 1)]));
        lemma_mac_folds::<A>(o, init, x, c, 16, post[y + n - 1]);
        assert(Seq::new(16, |k: int| (o.times)(x[k], c[k])) =~= Seq::new(
            16,
            |k: int| (o.times)(x[k], mid[w + k * 16 + (n - 1)]),
        ));
        assert(Seq::new(n, |j: int| j).drop_last() =~= Seq::new(m, |j: int| j));
    }
}

/// What the matrix instructions compute. A product of two tiles adds, to each
/// element of the accumulator, the products of its row and its column in order. A
/// matrix-vector tile writes its 16 outputs one after the other: each is the sum of
/// the products of all 16 inputs with the weights of its column, on top of what was
/// there or of zero.
#[verifier::rlimit(50)]
pub proof fn law_matrix_steps_written_out<A: Arith>(
    o: Ops<A::Num>,
    pre: Machine<A::Num>,
    instr: Instruction<A::Num>,
    post: Machine<A::Num>,
)
    requires
        follows::<A>(o),
        pre.shaped(),
        fault_of(pre.sram.len(), pre.dram.len(), instr) is None,
        step_is::<A>(pre, instr, post),
    ensures
        instr matches Instruction::MatAccumClear ==> post == (Machine {
            accum: Seq::new(16, |i: int| Seq::new(16, |j: int| (o.int)(0))),
            instr_count: pre.instr_count + 1,
            ..pre
        }),
        instr matches Instruction::MatMulTile { a_sram, b_sram } ==> post == (Machine {
            accum: Seq::new(
                16,
                |i: int|
                    Seq::new(
                        16,
                        |j: int|
                            Seq::new(
                                16,
                                |k: int|
                                    (o.times)(
                                        pre.sram[a_sram + i * 16 + k],
                                        pre.sram[b_sram + k * 16 + j],
                                    ),
                            ).fold_left(pre.accum[i][j], o.plus),
                    ),
            ),
            instr_count: pre.instr_count + 1,
            ..pre
        }),
        instr matches Instruction::MatVecTile { x_sram, w_sram, y_sram, accumulate } ==> post == (
        Machine {
            sram: Seq::new(16, |j: int| j).fold_left(
                pre.sram,
                |m: Seq<A::Num>, j: int|
                    m.update(
                        y_sram + j,
                        Seq::new(
                            16,
                            |k: int| (o.times)(pre.sram[x_sram + k], m[w_sram + k * 16 + j]),
                        ).fold_left(
                            if accumulate {
                                m[y_sram + j]
                            } else {
                                (o.int)(0)
                            },
                            o.plus,
                        ),
                    ),
            ),
            instr_count: pre.instr_count + 1,
            ..pre
        }),
{
    match instr {
        Instruction::MatAccumClear => {
            assert(post.accum =~~= Seq::new(16, |i: int| Seq::new(16, |j: int| (o.int)(0))));
        },
        Instruction::MatMulTile { a_sram, b_sram } => {
            let plain = Seq::new(
                16,
                |i: int|
                    Seq::new(
                        16,
                        |j: int|
                            Seq::new(
                                16,
                                |k: int|
                                    (o.times)(
                                        pre.sram[a_sram + i * 16 + k],
                                        pre.sram[b_sram + k * 16 + j],
                                    ),
                            ).fold_left(pre.accum[i][j], o.plus),
                    ),
            );
            assert forall|i: int, j: int| 0 <= i < 16 && 0 <= j < 16 implies
                #[trigger] post.accum[i][j] == plain[i][j] by {
                let r = tile_row(pre.sram, a_sram as int, i);
                let c = tile_column(pre.sram, b_sram as int, j);
                lemma_mac_folds::<A>(o, pre.accum[i][j], r, c, 16, post.accum[i][j]);
                assert(Seq::new(16, |k: int| (o.times)(r[k], c[k])) =~= Seq::new(
                    16,
                    |k: int|
                        (o.times)(
                            pre.sram[a_sram + i * 16 + k],
                            pre.sram[b_sram + k * 16 + j],
                        ),
                ));
            }
            assert(post.accum =~~= plain);
        },
        Instruction::MatVecTile { x_sram, w_sram, y_sram, accumulate } => {
            let x = pre.sram.subrange(x_sram as int, x_sram + 16);
            lemma_matvec_folds::<A>(
                o,
                pre.sram,
                post.sram,
                x,
                w_sram as int,
                y_sram as int,
                accumulate,
                16,
            );
            let step = |m: Seq<A::Num>, j: int|
                m.update(
                    y_sram + j,
                    Seq::new(16, |k: int| (o.times)(x[k], m[w_sram + k * 16 + j])).fold_left(
                        if accumulate {
                            m[y_sram + j]
                        } else {
                            (o.int)(0)
                        },
                        o.plus,
                    ),
                );
            let plain = |m: Seq<A::Num>, j: int|
                m.update(
                    y_sram + j,
                    Seq::new(
                        16,
                        |k: int| (o.times)(pre.sram[x_sram + k], m[w_sram + k * 16 + j]),
                    ).fold_left(
                        if accumulate {
                            m[y_sram + j]
                        } else {
                            (o.int)(0)
                        },
                        o.plus,
                    ),
                );
            assert forall|m: Seq<A::Num>, j: int| #[trigger] step(m, j) == plain(m, j) by {
                assert(Seq::new(16, |k: int| (o.times)(x[k], m[w_sram + k * 16 + j]))
                    =~= Seq::new(
                    16,
                    |k: int| (o.times)(pre.sram[x_sram + k], m[w_sram + k * 16 + j]),
                ));
            }
            assert(step =~= plain);
        },
        _ => {},
    }
}

/// The machines between the first `n` instructions of a program.
proof fn lemma_trace_has_machines<A: Arith>(
    pre: Machine<A::Num>,
    program: Seq<Instruction<A::Num>>,
    n: nat,
    post: Machine<A::Num>,
) -> (states: Seq<Machine<A::Num>>)
    requires
        trace_is::<A>(pre, program, n, post),
    ensures
        states.len() == n + 1,
        states[0] == pre,
        states[n as int] == post,
        forall|i: int|
            #![trigger states[i]]
            0 <= i < n ==> step_is::<A>(states[i], program[i], states[i + 1]),
    decreases n,
{
    if n == 0 {
        seq![pre]
    } else {
        let mid = choose|mid: Machine<A::Num>|
            trace_is::<A>(pre, program, (n - 1) as nat, mid) && #[trigger] step_is::<A>(
                mid,
                program[n - 1],
                post,
            );
        let before = lemma_trace_has_machines::<A>(pre, program, (n - 1) as nat, mid);
        before.push(post)
    }
}

/// A run executes the instructions of a program in their order, each on the machine
/// that the one before left. It ends at the first that has a fault, which it
/// reports and which changes nothing, or after the last.
pub proof fn law_run_goes_to_the_first_fault<A: Arith>(
    before: Machine<A::Num>,
    program: Seq<Instruction<A::Num>>,
    after: Machine<A::Num>,
    result: Result<(), Fault>,
)
    requires
        run_is::<A>(before, program, after, result),
    ensures
        exists|states: Seq<Machine<A::Num>>|
            {
                let n = states.len() - 1;
                let faults = program.map_values(
                    |i: Instruction<A::Num>| fault_of(before.sram.len(), before.dram.len(), i),
                );
                &&& 0 <= n <= program.len()
                &&& #[trigger] states[0] == before
                &&& states[n] == after
                &&& forall|i: int|
                    #![trigger states[i]]
                    0 <= i < n ==> faults[i] is None && step_is::<A>(
                        states[i],
                        program[i],
                        states[i + 1],
                    )
                &&& after.instr_count == before.instr_count + n
                &&& n == program.len() ==> result == Ok::<(), Fault>(())
                &&& n < program.len() ==> faults[n] is Some && result == Err::<(), Fault>(
                    faults[n]->0,
                )
            },
{
    let (sram, dram) = (before.sram.len(), before.dram.len());
    let n = runnable(sram, dram, program);
    lemma_runnable(sram, dram, program);
    let states = lemma_trace_has_machines::<A>(before, program, n, after);
    let faults = program.map_values(|i: Instruction<A::Num>| fault_of(sram, dram, i));
    assert(states[0] == before);
    assert forall|i: int| #![trigger states[i]] 0 <= i < n implies faults[i] is None
        && step_is::<A>(states[i], program[i], states[i + 1]) by {
        assert(fault_of(sram, dram, program[i]) is None);
    }
}

/// The state of the machine is what its memories and registers hold.
pub proof fn law_machine_state<A: Arith>(acc: &Accelerator<A>, i: int, l: int)
    ensures
        acc@.sram == acc.sram@,
        acc@.dram == acc.dram@,
        acc@.instr_count == acc.instr_count,
        acc@.vregs.len() == 32,
        0 <= i < 32 && 0 <= l < 32 ==> acc@.vregs[i].len() == 32 && acc@.vregs[i][l]
            == acc.vregs@[i]@[l],
        acc@.accum.len() == 16,
        0 <= i < 16 && 0 <= l < 16 ==> acc@.accum[i].len() == 16 && acc@.accum[i][l]
            == acc.matrix_accum@[i]@[l],
{
}

} // verus!
