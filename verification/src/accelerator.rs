//! Toy ML accelerator: a vector machine with on-chip SRAM and a matmul tile.
//!
//! - 32 vector registers of 32 lanes each
//! - one matrix accumulator register of 16 by 16
//! - an SRAM scratchpad, sized when the machine is made
//! - DRAM as a separate buffer; `LoadDram` and `StoreDram` move data across
//!
//! This is the functional simulator: what each instruction does to the machine,
//! not how long it takes.

use vstd::prelude::*;

use crate::arith::{
    dot_is, exp_is, fma_is, greatest, greatest_is, int_is, lemma_mac_push, mac_is, max_is,
    mul_add, product_is, rsqrt, rsqrt_is, silu, silu_is, sum_is, total, total_is, Arith,
};

use crate::buffer::{copy_range, overwrite, repeated};
use crate::matmul::{column, matmul_is, row};

verus! {

/// Lanes of a vector register.
pub const VECTOR_LANES: usize = 32;

/// How many vector registers there are.
pub const N_VECTOR_REGS: usize = 32;

/// Edge of a matrix tile.
pub const MATMUL_TILE: usize = 16;

/// Elements of a matrix tile.
pub const MATMUL_TILE_ELEMENTS: usize = 256;

/// One instruction, over scalars of type `T`.
#[derive(Debug, Clone, Copy)]
pub enum Instruction<T> {
    /// `vregs[v] = sram[sram_addr .. sram_addr + VECTOR_LANES]`
    LoadVec { v: u8, sram_addr: usize },
    /// `sram[sram_addr .. sram_addr + VECTOR_LANES] = vregs[v]`
    StoreVec { v: u8, sram_addr: usize },
    /// `vregs[c] = vregs[a] + vregs[b]`, lane by lane
    VAdd { a: u8, b: u8, c: u8 },
    /// `vregs[c] = vregs[a] * vregs[b]`, lane by lane
    VMul { a: u8, b: u8, c: u8 },
    /// `vregs[d] = vregs[a] * vregs[b] + vregs[c]`, lane by lane
    VFma { a: u8, b: u8, c: u8, d: u8 },
    /// `vregs[v] = [scalar; VECTOR_LANES]`
    VSplat { v: u8, scalar: T },
    /// `vregs[v_out] = silu(vregs[v_in])`, lane by lane
    VSilu { v_in: u8, v_out: u8 },
    /// `vregs[v_out] = [sum(vregs[v_in]); VECTOR_LANES]`
    VReduceSum { v_in: u8, v_out: u8 },
    /// `vregs[v_out] = 1 / sqrt(vregs[v_in])`, lane by lane
    VRsqrt { v_in: u8, v_out: u8 },
    /// Swaps adjacent lanes: `(2k, 2k + 1)` become `(2k + 1, 2k)`.
    VSwapPairs { v_in: u8, v_out: u8 },
    /// `vregs[v_out] = exp(vregs[v_in])`, lane by lane
    VExp { v_in: u8, v_out: u8 },
    /// `vregs[v_out] = [max(vregs[v_in]); VECTOR_LANES]`
    VReduceMax { v_in: u8, v_out: u8 },
    /// `vregs[c] = max(vregs[a], vregs[b])`, lane by lane
    VMax { a: u8, b: u8, c: u8 },
    /// `vregs[v_out] = [vregs[v_in][lane]; VECTOR_LANES]`
    VBroadcastLane { v_in: u8, v_out: u8, lane: u8 },
    /// Zeroes the matrix accumulator.
    MatAccumClear,
    /// `matrix_accum += A * B` for two row-major tiles in SRAM.
    MatMulTile { a_sram: usize, b_sram: usize },
    /// `sram[sram_dst .. sram_dst + 256] = matrix_accum`, row-major
    MatAccumStore { sram_dst: usize },
    /// Matrix-vector tile: 16 elements of `x`, a tile of weights laid out so that
    /// `w_sram[k * 16 + j]` belongs to input `k` and output `j`, and 16 outputs
    /// at `y_sram`, which are added to where `accumulate` holds and overwritten
    /// where it does not.
    MatVecTile { x_sram: usize, w_sram: usize, y_sram: usize, accumulate: bool },
    /// `sram[sram_addr .. sram_addr + len] = dram[dram_addr .. dram_addr + len]`
    LoadDram { dram_addr: usize, sram_addr: usize, len: usize },
    /// `dram[dram_addr .. dram_addr + len] = sram[sram_addr .. sram_addr + len]`
    StoreDram { sram_addr: usize, dram_addr: usize, len: usize },
}

/// Which access of which instruction.
#[derive(Debug, Clone, Copy, PartialEq, Eq, Structural)]
pub enum Access {
    LoadVec,
    StoreVec,
    MatMulA,
    MatMulB,
    AccumStore,
    MatVecX,
    MatVecW,
    MatVecY,
    DramLoadSource,
    DramLoadTarget,
    DramStoreSource,
    DramStoreTarget,
}

/// Why an instruction was refused.
#[derive(Debug, Clone, Copy, PartialEq, Eq, Structural)]
pub enum Fault {
    /// There is no vector register of this number.
    Register { index: usize },
    /// There is no lane of this number.
    Lane { lane: usize },
    /// The end of the accessed range is no address.
    AddressOverflow { access: Access },
    /// The accessed range `start..end` is not within the memory.
    OutOfRange { access: Access, start: usize, end: usize, capacity: usize },
}

/// The fault of naming vector register `raw`, if any.
pub open spec fn register_fault(raw: u8) -> Option<Fault> {
    if raw >= N_VECTOR_REGS {
        Some(Fault::Register { index: raw as usize })
    } else {
        None
    }
}

/// The fault of accessing `len` elements from `start`, of `capacity`, if any.
pub open spec fn range_fault(start: usize, len: usize, capacity: nat, access: Access) -> Option<
    Fault,
> {
    if start + len > usize::MAX {
        Some(Fault::AddressOverflow { access })
    } else if start + len > capacity {
        Some(
            Fault::OutOfRange {
                access,
                start,
                end: (start + len) as usize,
                capacity: capacity as usize,
            },
        )
    } else {
        None
    }
}

/// The first of two faults.
pub open spec fn either(first: Option<Fault>, second: Option<Fault>) -> Option<Fault> {
    if first is Some {
        first
    } else {
        second
    }
}

/// The fault of an instruction on a machine with `sram` and `dram` elements of
/// memory, if any: the first one, in the order in which its operands are looked
/// at. It does not depend on what the machine holds.
pub open spec fn fault_of<T>(sram: nat, dram: nat, instr: Instruction<T>) -> Option<Fault> {
    match instr {
        Instruction::LoadVec { v, sram_addr } => either(
            register_fault(v),
            range_fault(sram_addr, VECTOR_LANES, sram, Access::LoadVec),
        ),
        Instruction::StoreVec { v, sram_addr } => either(
            register_fault(v),
            range_fault(sram_addr, VECTOR_LANES, sram, Access::StoreVec),
        ),
        Instruction::VAdd { a, b, c } | Instruction::VMul { a, b, c } | Instruction::VMax {
            a,
            b,
            c,
        } => either(register_fault(a), either(register_fault(b), register_fault(c))),
        Instruction::VFma { a, b, c, d } => either(
            register_fault(a),
            either(register_fault(b), either(register_fault(c), register_fault(d))),
        ),
        Instruction::VSplat { v, .. } => register_fault(v),
        Instruction::VSilu { v_in, v_out }
        | Instruction::VReduceSum { v_in, v_out }
        | Instruction::VRsqrt { v_in, v_out }
        | Instruction::VSwapPairs { v_in, v_out }
        | Instruction::VExp { v_in, v_out }
        | Instruction::VReduceMax { v_in, v_out } => either(
            register_fault(v_in),
            register_fault(v_out),
        ),
        Instruction::VBroadcastLane { v_in, v_out, lane } => either(
            register_fault(v_in),
            either(
                register_fault(v_out),
                if lane >= VECTOR_LANES {
                    Some(Fault::Lane { lane: lane as usize })
                } else {
                    None
                },
            ),
        ),
        Instruction::MatAccumClear => None,
        Instruction::MatMulTile { a_sram, b_sram } => either(
            range_fault(a_sram, MATMUL_TILE_ELEMENTS, sram, Access::MatMulA),
            range_fault(b_sram, MATMUL_TILE_ELEMENTS, sram, Access::MatMulB),
        ),
        Instruction::MatAccumStore { sram_dst } => range_fault(
            sram_dst,
            MATMUL_TILE_ELEMENTS,
            sram,
            Access::AccumStore,
        ),
        Instruction::MatVecTile { x_sram, w_sram, y_sram, .. } => either(
            range_fault(x_sram, MATMUL_TILE, sram, Access::MatVecX),
            either(
                range_fault(w_sram, MATMUL_TILE_ELEMENTS, sram, Access::MatVecW),
                range_fault(y_sram, MATMUL_TILE, sram, Access::MatVecY),
            ),
        ),
        Instruction::LoadDram { dram_addr, sram_addr, len } => either(
            range_fault(dram_addr, len, dram, Access::DramLoadSource),
            range_fault(sram_addr, len, sram, Access::DramLoadTarget),
        ),
        Instruction::StoreDram { sram_addr, dram_addr, len } => either(
            range_fault(sram_addr, len, sram, Access::DramStoreSource),
            range_fault(dram_addr, len, dram, Access::DramStoreTarget),
        ),
    }
}

/// The state of the machine.
#[verifier::ext_equal]
pub struct Machine<T> {
    pub sram: Seq<T>,
    pub dram: Seq<T>,
    pub vregs: Seq<Seq<T>>,
    pub accum: Seq<Seq<T>>,
    pub instr_count: nat,
}

/// The rows of a square of edge 16, one after the other.
pub open spec fn flattened<T>(rows: Seq<Seq<T>>) -> Seq<T> {
    Seq::new(MATMUL_TILE_ELEMENTS as nat, |p: int| rows[p / 16][p % 16])
}

/// Row `i` of the tile at `at`.
pub open spec fn tile_row<T>(s: Seq<T>, at: int, i: int) -> Seq<T> {
    Seq::new(MATMUL_TILE as nat, |k: int| s[at + i * 16 + k])
}

/// Column `j` of the tile at `at`.
pub open spec fn tile_column<T>(s: Seq<T>, at: int, j: int) -> Seq<T> {
    Seq::new(MATMUL_TILE as nat, |k: int| s[at + k * 16 + j])
}

/// Only vector register `c` has been written.
pub open spec fn register_written<T>(pre: Machine<T>, post: Machine<T>, c: u8) -> bool {
    &&& post.sram == pre.sram
    &&& post.dram == pre.dram
    &&& post.accum == pre.accum
    &&& post.vregs.len() == pre.vregs.len()
    &&& post.vregs[c as int].len() == VECTOR_LANES
    &&& forall|i: int|
        0 <= i < pre.vregs.len() && i != c ==> #[trigger] post.vregs[i] == pre.vregs[i]
}

/// `r` is an outcome of the dot product of `x` and column `j` of the weights at
/// `w`, on top of output `j` at `y`, or of zero.
pub open spec fn matvec_output_is<A: Arith>(
    pre: Seq<A::Num>,
    x: Seq<A::Num>,
    w: int,
    y: int,
    j: int,
    accumulate: bool,
    r: A::Num,
) -> bool {
    exists|init: A::Num|
        {
            &&& if accumulate {
                init == pre[y + j]
            } else {
                int_is::<A>(0, init)
            }
            &&& #[trigger] mac_is::<A>(init, x, tile_column(pre, w, j), MATMUL_TILE as nat, r)
        }
}

/// Column `j` of a matrix-vector tile: `post` is `pre` but for output `j`.
pub open spec fn matvec_column_is<A: Arith>(
    pre: Seq<A::Num>,
    post: Seq<A::Num>,
    x: Seq<A::Num>,
    w: int,
    y: int,
    j: int,
    accumulate: bool,
) -> bool {
    &&& matvec_output_is::<A>(pre, x, w, y, j, accumulate, post[y + j])
    &&& post == pre.update(y + j, post[y + j])
}

/// The first `n` columns of a matrix-vector tile, one after the other: each
/// reads the weights as the columns before it left them.
pub open spec fn matvec_is<A: Arith>(
    pre: Seq<A::Num>,
    post: Seq<A::Num>,
    x: Seq<A::Num>,
    w: int,
    y: int,
    accumulate: bool,
    n: nat,
) -> bool
    decreases n,
{
    if n == 0 {
        post == pre
    } else {
        exists|mid: Seq<A::Num>|
            {
                &&& matvec_is::<A>(pre, mid, x, w, y, accumulate, (n - 1) as nat)
                &&& #[trigger] matvec_column_is::<A>(mid, post, x, w, y, n - 1, accumulate)
            }
    }
}

/// `post` is an outcome of executing `instr` in `pre`, where it has no fault.
pub open spec fn step_is<A: Arith>(
    pre: Machine<A::Num>,
    instr: Instruction<A::Num>,
    post: Machine<A::Num>,
) -> bool {
    &&& post.instr_count == pre.instr_count + 1
    &&& match instr {
        Instruction::LoadVec { v, sram_addr } => {
            &&& register_written(pre, post, v)
            &&& post.vregs[v as int] == pre.sram.subrange(sram_addr as int, sram_addr + 32)
        },
        Instruction::StoreVec { v, sram_addr } => post == (Machine {
            sram: overwrite(pre.sram, sram_addr as int, pre.vregs[v as int]),
            instr_count: post.instr_count,
            ..pre
        }),
        Instruction::VAdd { a, b, c } => {
            &&& register_written(pre, post, c)
            &&& forall|l: int|
                0 <= l < VECTOR_LANES ==> sum_is::<A>(
                    pre.vregs[a as int][l],
                    pre.vregs[b as int][l],
                    #[trigger] post.vregs[c as int][l],
                )
        },
        Instruction::VMul { a, b, c } => {
            &&& register_written(pre, post, c)
            &&& forall|l: int|
                0 <= l < VECTOR_LANES ==> product_is::<A>(
                    pre.vregs[a as int][l],
                    pre.vregs[b as int][l],
                    #[trigger] post.vregs[c as int][l],
                )
        },
        Instruction::VFma { a, b, c, d } => {
            &&& register_written(pre, post, d)
            &&& forall|l: int|
                0 <= l < VECTOR_LANES ==> fma_is::<A>(
                    pre.vregs[a as int][l],
                    pre.vregs[b as int][l],
                    pre.vregs[c as int][l],
                    #[trigger] post.vregs[d as int][l],
                )
        },
        Instruction::VSplat { v, scalar } => {
            &&& register_written(pre, post, v)
            &&& forall|l: int|
                0 <= l < VECTOR_LANES ==> #[trigger] post.vregs[v as int][l] == scalar
        },
        Instruction::VSilu { v_in, v_out } => {
            &&& register_written(pre, post, v_out)
            &&& forall|l: int|
                0 <= l < VECTOR_LANES ==> silu_is::<A>(
                    pre.vregs[v_in as int][l],
                    #[trigger] post.vregs[v_out as int][l],
                )
        },
        Instruction::VReduceSum { v_in, v_out } => {
            &&& register_written(pre, post, v_out)
            &&& total_is::<A>(pre.vregs[v_in as int], post.vregs[v_out as int][0])
            &&& forall|l: int|
                0 <= l < VECTOR_LANES ==> #[trigger] post.vregs[v_out as int][l]
                    == post.vregs[v_out as int][0]
        },
        Instruction::VRsqrt { v_in, v_out } => {
            &&& register_written(pre, post, v_out)
            &&& forall|l: int|
                0 <= l < VECTOR_LANES ==> rsqrt_is::<A>(
                    pre.vregs[v_in as int][l],
                    #[trigger] post.vregs[v_out as int][l],
                )
        },
        Instruction::VSwapPairs { v_in, v_out } => {
            &&& register_written(pre, post, v_out)
            &&& forall|l: int|
                0 <= l < VECTOR_LANES ==> #[trigger] post.vregs[v_out as int][l]
                    == pre.vregs[v_in as int][if l % 2 == 0 {
                    l + 1
                } else {
                    l - 1
                }]
        },
        Instruction::VExp { v_in, v_out } => {
            &&& register_written(pre, post, v_out)
            &&& forall|l: int|
                0 <= l < VECTOR_LANES ==> exp_is::<A>(
                    pre.vregs[v_in as int][l],
                    #[trigger] post.vregs[v_out as int][l],
                )
        },
        Instruction::VReduceMax { v_in, v_out } => {
            &&& register_written(pre, post, v_out)
            &&& greatest_is::<A>(pre.vregs[v_in as int], post.vregs[v_out as int][0])
            &&& forall|l: int|
                0 <= l < VECTOR_LANES ==> #[trigger] post.vregs[v_out as int][l]
                    == post.vregs[v_out as int][0]
        },
        Instruction::VMax { a, b, c } => {
            &&& register_written(pre, post, c)
            &&& forall|l: int|
                0 <= l < VECTOR_LANES ==> max_is::<A>(
                    pre.vregs[a as int][l],
                    pre.vregs[b as int][l],
                    #[trigger] post.vregs[c as int][l],
                )
        },
        Instruction::VBroadcastLane { v_in, v_out, lane } => {
            &&& register_written(pre, post, v_out)
            &&& forall|l: int|
                0 <= l < VECTOR_LANES ==> #[trigger] post.vregs[v_out as int][l]
                    == pre.vregs[v_in as int][lane as int]
        },
        Instruction::MatAccumClear => {
            &&& post == (Machine {
                accum: post.accum,
                instr_count: post.instr_count,
                ..pre
            })
            &&& square(post.accum)
            &&& int_is::<A>(0, post.accum[0][0])
            &&& forall|i: int, j: int|
                0 <= i < MATMUL_TILE && 0 <= j < MATMUL_TILE ==> #[trigger] post.accum[i][j]
                    == post.accum[0][0]
        },
        Instruction::MatMulTile { a_sram, b_sram } => {
            &&& post == (Machine {
                accum: post.accum,
                instr_count: post.instr_count,
                ..pre
            })
            &&& square(post.accum)
            &&& forall|i: int, j: int|
                0 <= i < MATMUL_TILE && 0 <= j < MATMUL_TILE ==> mac_is::<A>(
                    pre.accum[i][j],
                    tile_row(pre.sram, a_sram as int, i),
                    tile_column(pre.sram, b_sram as int, j),
                    MATMUL_TILE as nat,
                    #[trigger] post.accum[i][j],
                )
        },
        Instruction::MatAccumStore { sram_dst } => post == (Machine {
            sram: overwrite(pre.sram, sram_dst as int, flattened(pre.accum)),
            instr_count: post.instr_count,
            ..pre
        }),
        Instruction::MatVecTile { x_sram, w_sram, y_sram, accumulate } => {
            &&& post == (Machine { sram: post.sram, instr_count: post.instr_count, ..pre })
            &&& matvec_is::<A>(
                pre.sram,
                post.sram,
                pre.sram.subrange(x_sram as int, x_sram + 16),
                w_sram as int,
                y_sram as int,
                accumulate,
                MATMUL_TILE as nat,
            )
        },
        Instruction::LoadDram { dram_addr, sram_addr, len } => post == (Machine {
            sram: overwrite(
                pre.sram,
                sram_addr as int,
                pre.dram.subrange(dram_addr as int, dram_addr + len),
            ),
            instr_count: post.instr_count,
            ..pre
        }),
        Instruction::StoreDram { sram_addr, dram_addr, len } => post == (Machine {
            dram: overwrite(
                pre.dram,
                dram_addr as int,
                pre.sram.subrange(sram_addr as int, sram_addr + len),
            ),
            instr_count: post.instr_count,
            ..pre
        }),
    }
}

/// A square of edge 16.
pub open spec fn square<T>(rows: Seq<Seq<T>>) -> bool {
    &&& rows.len() == MATMUL_TILE
    &&& forall|i: int| 0 <= i < MATMUL_TILE ==> (#[trigger] rows[i]).len() == MATMUL_TILE
}

impl<T> Machine<T> {
    /// The register files have their sizes.
    pub open spec fn shaped(self) -> bool {
        &&& square(self.accum)
        &&& self.vregs.len() == N_VECTOR_REGS
        &&& forall|i: int|
            0 <= i < N_VECTOR_REGS ==> (#[trigger] self.vregs[i]).len() == VECTOR_LANES
    }
}

/// The machine, over the scalars of `A`.
pub struct Accelerator<A: Arith> {
    pub sram: Vec<A::Num>,
    pub dram: Vec<A::Num>,
    pub vregs: Box<[[A::Num; VECTOR_LANES]; N_VECTOR_REGS]>,
    pub matrix_accum: [[A::Num; MATMUL_TILE]; MATMUL_TILE],
    /// How many instructions have been executed.
    pub instr_count: u64,
}

/// The rows of a two-dimensional array.
pub open spec fn rows_of<T, const N: usize, const M: usize>(a: [[T; N]; M]) -> Seq<Seq<T>> {
    Seq::new(M as nat, |i: int| a@[i]@)
}

impl<A: Arith> Accelerator<A> {
    /// The state of the machine.
    pub open spec fn view(&self) -> Machine<A::Num> {
        Machine {
            sram: self.sram@,
            dram: self.dram@,
            vregs: rows_of(*self.vregs),
            accum: rows_of(self.matrix_accum),
            instr_count: self.instr_count as nat,
        }
    }
}

impl<A: Arith> Accelerator<A> {
    /// A machine with the given amounts of memory, all zero.
    pub fn new(sram_elements: usize, dram_elements: usize) -> (acc: Self)
        ensures
            acc@.shaped(),
            acc.instr_count == 0,
            acc@.sram.len() == sram_elements,
            acc@.dram.len() == dram_elements,
            exists|zero: A::Num|
                #[trigger] int_is::<A>(0, zero) && acc@ == (Machine {
                    sram: Seq::new(sram_elements as nat, |i: int| zero),
                    dram: Seq::new(dram_elements as nat, |i: int| zero),
                    vregs: Seq::new(32, |i: int| Seq::new(32, |l: int| zero)),
                    accum: Seq::new(16, |i: int| Seq::new(16, |l: int| zero)),
                    instr_count: 0,
                }),
    {
        let zero = A::from_i8(0);
        let acc = Accelerator {
            sram: repeated(zero, sram_elements),
            dram: repeated(zero, dram_elements),
            vregs: Box::new([[zero; VECTOR_LANES]; N_VECTOR_REGS]),
            matrix_accum: [[zero; MATMUL_TILE]; MATMUL_TILE],
            instr_count: 0,
        };
        proof {
            assert(int_is::<A>(0, zero));
            assert(acc@.vregs =~~= Seq::new(32, |i: int| Seq::new(32, |l: int| zero)));
            assert(acc@.accum =~~= Seq::new(16, |i: int| Seq::new(16, |l: int| zero)));
        }
        acc
    }

    /// How many bytes the SRAM takes, at four bytes per element.
    pub fn sram_size_bytes(&self) -> (n: usize)
        requires
            self@.sram.len() * 4 <= usize::MAX,
        ensures
            n == self@.sram.len() * 4,
    {
        self.sram.len() * 4
    }
}

/// The number of vector register `raw`, if there is one.
fn idx(raw: u8) -> (r: Result<usize, Fault>)
    ensures
        match register_fault(raw) {
            Some(f) => r == Err::<usize, Fault>(f),
            None => r == Ok::<usize, Fault>(raw as usize) && raw < N_VECTOR_REGS,
        },
{
    let i = raw as usize;
    if i >= N_VECTOR_REGS {
        return Err(Fault::Register { index: i });
    }
    Ok(i)
}

/// The end of a range of `len` elements from `start`, if it is within `capacity`.
fn checked_end(start: usize, len: usize, capacity: usize, access: Access) -> (r: Result<
    usize,
    Fault,
>)
    ensures
        match range_fault(start, len, capacity as nat, access) {
            Some(f) => r == Err::<usize, Fault>(f),
            None => r == Ok::<usize, Fault>((start + len) as usize) && start + len <= capacity,
        },
{
    match start.checked_add(len) {
        Some(end) => if end > capacity {
            Err(Fault::OutOfRange { access, start, end, capacity })
        } else {
            Ok(end)
        },
        None => Err(Fault::AddressOverflow { access }),
    }
}

/// The sum, lane by lane.
fn lanes_add<A: Arith>(
    a: &[A::Num; VECTOR_LANES],
    b: &[A::Num; VECTOR_LANES],
) -> (r: [A::Num; VECTOR_LANES])
    ensures
        forall|l: int| 0 <= l < VECTOR_LANES ==> sum_is::<A>(a[l], b[l], #[trigger] r[l]),
{
    let mut r = *a;
    for i in 0..VECTOR_LANES
        invariant
            forall|l: int| 0 <= l < i ==> sum_is::<A>(a[l], b[l], #[trigger] r[l]),
    {
        r[i] = A::plus(a[i], b[i]);
    }
    r
}

/// The product, lane by lane.
fn lanes_mul<A: Arith>(
    a: &[A::Num; VECTOR_LANES],
    b: &[A::Num; VECTOR_LANES],
) -> (r: [A::Num; VECTOR_LANES])
    ensures
        forall|l: int| 0 <= l < VECTOR_LANES ==> product_is::<A>(a[l], b[l], #[trigger] r[l]),
{
    let mut r = *a;
    for i in 0..VECTOR_LANES
        invariant
            forall|l: int| 0 <= l < i ==> product_is::<A>(a[l], b[l], #[trigger] r[l]),
    {
        r[i] = A::times(a[i], b[i]);
    }
    r
}

/// The maximum, lane by lane.
fn lanes_max<A: Arith>(
    a: &[A::Num; VECTOR_LANES],
    b: &[A::Num; VECTOR_LANES],
) -> (r: [A::Num; VECTOR_LANES])
    ensures
        forall|l: int| 0 <= l < VECTOR_LANES ==> max_is::<A>(a[l], b[l], #[trigger] r[l]),
{
    let mut r = *a;
    for i in 0..VECTOR_LANES
        invariant
            forall|l: int| 0 <= l < i ==> max_is::<A>(a[l], b[l], #[trigger] r[l]),
    {
        r[i] = A::max(a[i], b[i]);
    }
    r
}

/// The exponential, lane by lane.
fn lanes_exp<A: Arith>(a: &[A::Num; VECTOR_LANES]) -> (r: [A::Num; VECTOR_LANES])
    ensures
        forall|l: int| 0 <= l < VECTOR_LANES ==> exp_is::<A>(a[l], #[trigger] r[l]),
{
    let mut r = *a;
    for i in 0..VECTOR_LANES
        invariant
            forall|l: int| 0 <= l < i ==> exp_is::<A>(a[l], #[trigger] r[l]),
    {
        r[i] = A::exp(a[i]);
    }
    r
}

/// `a * b + c`, lane by lane.
fn lanes_fma<A: Arith>(
    a: &[A::Num; VECTOR_LANES],
    b: &[A::Num; VECTOR_LANES],
    c: &[A::Num; VECTOR_LANES],
) -> (r: [A::Num; VECTOR_LANES])
    ensures
        forall|l: int| 0 <= l < VECTOR_LANES ==> fma_is::<A>(a[l], b[l], c[l], #[trigger] r[l]),
{
    let mut r = *a;
    for i in 0..VECTOR_LANES
        invariant
            forall|l: int| 0 <= l < i ==> fma_is::<A>(a[l], b[l], c[l], #[trigger] r[l]),
    {
        let p = A::times(a[i], b[i]);
        r[i] = A::plus(p, c[i]);
        assert(product_is::<A>(a[i as int], b[i as int], p));
    }
    r
}

/// The SiLU activation, lane by lane.
fn lanes_silu<A: Arith>(a: &[A::Num; VECTOR_LANES]) -> (r: [A::Num; VECTOR_LANES])
    ensures
        forall|l: int| 0 <= l < VECTOR_LANES ==> silu_is::<A>(a[l], #[trigger] r[l]),
{
    let mut r = *a;
    for i in 0..VECTOR_LANES
        invariant
            forall|l: int| 0 <= l < i ==> silu_is::<A>(a[l], #[trigger] r[l]),
    {
        r[i] = silu::<A>(a[i]);
    }
    r
}

/// The reciprocal square root, lane by lane.
fn lanes_rsqrt<A: Arith>(a: &[A::Num; VECTOR_LANES]) -> (r: [A::Num; VECTOR_LANES])
    ensures
        forall|l: int| 0 <= l < VECTOR_LANES ==> rsqrt_is::<A>(a[l], #[trigger] r[l]),
{
    let mut r = *a;
    for i in 0..VECTOR_LANES
        invariant
            forall|l: int| 0 <= l < i ==> rsqrt_is::<A>(a[l], #[trigger] r[l]),
    {
        r[i] = rsqrt::<A>(a[i]);
    }
    r
}

/// Adjacent lanes swapped.
fn lanes_swap_pairs<T: Copy>(a: &[T; VECTOR_LANES]) -> (r: [T; VECTOR_LANES])
    ensures
        forall|l: int|
            0 <= l < VECTOR_LANES ==> #[trigger] r[l] == a[if l % 2 == 0 {
                l + 1
            } else {
                l - 1
            }],
{
    let mut r = *a;
    for k in 0..16
        invariant
            forall|l: int|
                0 <= l < 2 * k ==> #[trigger] r[l] == a[if l % 2 == 0 {
                    l + 1
                } else {
                    l - 1
                }],
    {
        r[2 * k] = a[2 * k + 1];
        r[2 * k + 1] = a[2 * k];
    }
    r
}

/// One element of a product of tiles: `init` plus the products of row `i` of the
/// tile at `a` with column `j` of the tile at `b`.
fn tile_dot<A: Arith>(
    sram: &[A::Num],
    init: A::Num,
    a: usize,
    b: usize,
    i: usize,
    j: usize,
) -> (acc: A::Num)
    requires
        a + MATMUL_TILE_ELEMENTS <= sram.len(),
        b + MATMUL_TILE_ELEMENTS <= sram.len(),
        i < MATMUL_TILE,
        j < MATMUL_TILE,
    ensures
        mac_is::<A>(
            init,
            tile_row(sram@, a as int, i as int),
            tile_column(sram@, b as int, j as int),
            MATMUL_TILE as nat,
            acc,
        ),
{
    let ghost row = tile_row(sram@, a as int, i as int);
    let ghost column = tile_column(sram@, b as int, j as int);
    let mut acc = init;
    for k in 0..MATMUL_TILE
        invariant
            a + MATMUL_TILE_ELEMENTS <= sram.len(),
            b + MATMUL_TILE_ELEMENTS <= sram.len(),
            i < MATMUL_TILE,
            j < MATMUL_TILE,
            row == tile_row(sram@, a as int, i as int),
            column == tile_column(sram@, b as int, j as int),
            mac_is::<A>(init, row, column, k as nat, acc),
    {
        let s = acc;
        acc = mul_add::<A>(s, sram[a + i * MATMUL_TILE + k], sram[b + k * MATMUL_TILE + j]);
        proof {
            lemma_mac_push::<A>(init, row, column, k as nat, s, acc);
        }
    }
    acc
}

/// The matrix accumulator after adding the product of two tiles.
fn accumulate_tiles<A: Arith>(
    sram: &[A::Num],
    accum: &[[A::Num; MATMUL_TILE]; MATMUL_TILE],
    a: usize,
    b: usize,
) -> (r: [[A::Num; MATMUL_TILE]; MATMUL_TILE])
    requires
        a + MATMUL_TILE_ELEMENTS <= sram.len(),
        b + MATMUL_TILE_ELEMENTS <= sram.len(),
    ensures
        forall|i: int, j: int|
            0 <= i < MATMUL_TILE && 0 <= j < MATMUL_TILE ==> mac_is::<A>(
                accum[i][j],
                tile_row(sram@, a as int, i),
                tile_column(sram@, b as int, j),
                MATMUL_TILE as nat,
                #[trigger] r[i][j],
            ),
{
    let mut r = *accum;
    for i in 0..MATMUL_TILE
        invariant
            a + MATMUL_TILE_ELEMENTS <= sram.len(),
            b + MATMUL_TILE_ELEMENTS <= sram.len(),
            forall|p: int, q: int|
                0 <= p < i && 0 <= q < MATMUL_TILE ==> mac_is::<A>(
                    accum[p][q],
                    tile_row(sram@, a as int, p),
                    tile_column(sram@, b as int, q),
                    MATMUL_TILE as nat,
                    #[trigger] r[p][q],
                ),
            forall|p: int, q: int|
                i <= p < MATMUL_TILE && 0 <= q < MATMUL_TILE ==> #[trigger] r[p][q] == accum[p][q],
    {
        for j in 0..MATMUL_TILE
            invariant
                i < MATMUL_TILE,
                a + MATMUL_TILE_ELEMENTS <= sram.len(),
                b + MATMUL_TILE_ELEMENTS <= sram.len(),
                forall|p: int, q: int|
                    0 <= p < i && 0 <= q < MATMUL_TILE || p == i && 0 <= q < j ==> mac_is::<A>(
                        accum[p][q],
                        tile_row(sram@, a as int, p),
                        tile_column(sram@, b as int, q),
                        MATMUL_TILE as nat,
                        #[trigger] r[p][q],
                    ),
                forall|p: int, q: int|
                    i < p < MATMUL_TILE && 0 <= q < MATMUL_TILE || p == i && j <= q < MATMUL_TILE
                        ==> #[trigger] r[p][q] == accum[p][q],
        {
            let acc = tile_dot::<A>(sram, r[i][j], a, b, i, j);
            r[i][j] = acc;
        }
    }
    r
}

/// Writes the matrix accumulator to memory, row by row.
fn store_tile<T: Copy>(sram: &mut Vec<T>, at: usize, accum: &[[T; MATMUL_TILE]; MATMUL_TILE])
    requires
        at + MATMUL_TILE_ELEMENTS <= old(sram).len(),
    ensures
        final(sram)@ == overwrite(old(sram)@, at as int, flattened(rows_of(*accum))),
{
    let ghost before = sram@;
    let ghost flat = flattened(rows_of(*accum));
    for i in 0..MATMUL_TILE
        invariant
            at + MATMUL_TILE_ELEMENTS <= sram.len(),
            flat == flattened(rows_of(*accum)),
            sram@ == overwrite(before, at as int, flat.take(i * 16)),
    {
        for j in 0..MATMUL_TILE
            invariant
                i < MATMUL_TILE,
                at + MATMUL_TILE_ELEMENTS <= sram.len(),
                flat == flattened(rows_of(*accum)),
                sram@ == overwrite(before, at as int, flat.take(i * 16 + j)),
        {
            sram[at + i * MATMUL_TILE + j] = accum[i][j];
            proof {
                assert((i * 16 + j) / 16 == i && (i * 16 + j) % 16 == j);
                assert(flat[i * 16 + j] == accum[i as int][j as int]);
                assert(sram@ =~= overwrite(before, at as int, flat.take(i * 16 + j + 1)));
            }
        }
    }
    assert(flat.take(256) =~= flat);
}

/// One column of a matrix-vector tile.
fn matvec_column<A: Arith>(
    sram: &[A::Num],
    x: &[A::Num; MATMUL_TILE],
    init: A::Num,
    w: usize,
    j: usize,
) -> (acc: A::Num)
    requires
        w + MATMUL_TILE_ELEMENTS <= sram.len(),
        j < MATMUL_TILE,
    ensures
        mac_is::<A>(init, x@, tile_column(sram@, w as int, j as int), MATMUL_TILE as nat, acc),
{
    let ghost column = tile_column(sram@, w as int, j as int);
    let mut acc = init;
    for k in 0..MATMUL_TILE
        invariant
            w + MATMUL_TILE_ELEMENTS <= sram.len(),
            j < MATMUL_TILE,
            column == tile_column(sram@, w as int, j as int),
            mac_is::<A>(init, x@, column, k as nat, acc),
    {
        let s = acc;
        acc = mul_add::<A>(s, x[k], sram[w + k * MATMUL_TILE + j]);
        proof {
            lemma_mac_push::<A>(init, x@, column, k as nat, s, acc);
        }
    }
    acc
}

/// A matrix-vector tile.
fn matvec_tile<A: Arith>(
    sram: &mut Vec<A::Num>,
    x: usize,
    w: usize,
    y: usize,
    accumulate: bool,
)
    requires
        x + MATMUL_TILE <= old(sram).len(),
        w + MATMUL_TILE_ELEMENTS <= old(sram).len(),
        y + MATMUL_TILE <= old(sram).len(),
    ensures
        final(sram).len() == old(sram).len(),
        matvec_is::<A>(
            old(sram)@,
            final(sram)@,
            old(sram)@.subrange(x as int, x + 16),
            w as int,
            y as int,
            accumulate,
            MATMUL_TILE as nat,
        ),
{
    let ghost before = sram@;
    let zero = A::from_i8(0);
    let mut x_buf = [zero; MATMUL_TILE];
    for k in 0..MATMUL_TILE
        invariant
            x + MATMUL_TILE <= sram.len(),
            sram@ == before,
            forall|i: int| 0 <= i < k ==> #[trigger] x_buf[i] == before[x + i],
    {
        x_buf[k] = sram[x + k];
    }
    let ghost input = before.subrange(x as int, x + 16);
    assert(x_buf@ =~= input);
    for j in 0..MATMUL_TILE
        invariant
            w + MATMUL_TILE_ELEMENTS <= sram.len(),
            y + MATMUL_TILE <= sram.len(),
            sram@.len() == before.len(),
            x_buf@ == input,
            matvec_is::<A>(before, sram@, input, w as int, y as int, accumulate, j as nat),
    {
        let init = if accumulate {
            sram[y + j]
        } else {
            A::from_i8(0)
        };
        let ghost mid = sram@;
        let acc = matvec_column::<A>(sram, &x_buf, init, w, j);
        sram[y + j] = acc;
        proof {
            assert(accumulate || int_is::<A>(0, init));
            assert(mac_is::<A>(init, input, tile_column(mid, w as int, j as int), 16, acc));
            assert(sram@ =~= mid.update(y + j, sram@[y + j]));
            assert(matvec_column_is::<A>(
                mid,
                sram@,
                input,
                w as int,
                y as int,
                (j + 1) - 1,
                accumulate,
            ));
        }
    }
}

/// A vector register's worth of memory.
fn load_lanes<T: Copy>(sram: &[T], at: usize) -> (r: [T; VECTOR_LANES])
    requires
        at + VECTOR_LANES <= sram.len(),
    ensures
        r@ == sram@.subrange(at as int, at + 32),
{
    let mut r = [sram[at]; VECTOR_LANES];
    for i in 0..VECTOR_LANES
        invariant
            at + VECTOR_LANES <= sram.len(),
            forall|l: int| 0 <= l < i ==> #[trigger] r[l] == sram@[at + l],
    {
        r[i] = sram[at + i];
    }
    assert(r@ =~= sram@.subrange(at as int, at + 32));
    r
}

impl<A: Arith> Accelerator<A> {
    /// Executes one instruction. It is refused, and nothing changes, exactly
    /// where it has a fault.
    pub fn execute(&mut self, instr: &Instruction<A::Num>) -> (result: Result<(), Fault>)
        requires
            old(self).instr_count < u64::MAX,
        ensures
            match fault_of(old(self)@.sram.len(), old(self)@.dram.len(), *instr) {
                Some(fault) => result == Err::<(), Fault>(fault) && *final(self) == *old(self),
                None => result == Ok::<(), Fault>(()) && step_is::<A>(
                    old(self)@,
                    *instr,
                    final(self)@,
                ),
            },
    {
        match *instr {
            Instruction::LoadVec { v, sram_addr } => {
                let v = idx(v)?;
                checked_end(sram_addr, VECTOR_LANES, self.sram.len(), Access::LoadVec)?;
                let r = load_lanes(&self.sram, sram_addr);
                self.vregs[v] = r;
            },
            Instruction::StoreVec { v, sram_addr } => {
                let v = idx(v)?;
                checked_end(sram_addr, VECTOR_LANES, self.sram.len(), Access::StoreVec)?;
                let r = self.vregs[v];
                copy_range(&mut self.sram, sram_addr, &r, 0, VECTOR_LANES);
                assert(r@.subrange(0, 32) =~= r@);
            },
            Instruction::VAdd { a, b, c } => {
                let a = idx(a)?;
                let b = idx(b)?;
                let c = idx(c)?;
                let r = lanes_add::<A>(&self.vregs[a], &self.vregs[b]);
                self.vregs[c] = r;
            },
            Instruction::VMul { a, b, c } => {
                let a = idx(a)?;
                let b = idx(b)?;
                let c = idx(c)?;
                let r = lanes_mul::<A>(&self.vregs[a], &self.vregs[b]);
                self.vregs[c] = r;
            },
            Instruction::VFma { a, b, c, d } => {
                let a = idx(a)?;
                let b = idx(b)?;
                let c = idx(c)?;
                let d = idx(d)?;
                let r = lanes_fma::<A>(&self.vregs[a], &self.vregs[b], &self.vregs[c]);
                self.vregs[d] = r;
            },
            Instruction::VSplat { v, scalar } => {
                let v = idx(v)?;
                self.vregs[v] = [scalar; VECTOR_LANES];
            },
            Instruction::VSilu { v_in, v_out } => {
                let v_in = idx(v_in)?;
                let v_out = idx(v_out)?;
                let r = lanes_silu::<A>(&self.vregs[v_in]);
                self.vregs[v_out] = r;
            },
            Instruction::VReduceSum { v_in, v_out } => {
                let v_in = idx(v_in)?;
                let v_out = idx(v_out)?;
                let src = self.vregs[v_in];
                let sum = total::<A>(&src);
                self.vregs[v_out] = [sum; VECTOR_LANES];
            },
            Instruction::VRsqrt { v_in, v_out } => {
                let v_in = idx(v_in)?;
                let v_out = idx(v_out)?;
                let r = lanes_rsqrt::<A>(&self.vregs[v_in]);
                self.vregs[v_out] = r;
            },
            Instruction::VSwapPairs { v_in, v_out } => {
                let v_in = idx(v_in)?;
                let v_out = idx(v_out)?;
                let r = lanes_swap_pairs(&self.vregs[v_in]);
                self.vregs[v_out] = r;
            },
            Instruction::VExp { v_in, v_out } => {
                let v_in = idx(v_in)?;
                let v_out = idx(v_out)?;
                let r = lanes_exp::<A>(&self.vregs[v_in]);
                self.vregs[v_out] = r;
            },
            Instruction::VReduceMax { v_in, v_out } => {
                let v_in = idx(v_in)?;
                let v_out = idx(v_out)?;
                let src = self.vregs[v_in];
                let m = greatest::<A>(&src);
                self.vregs[v_out] = [m; VECTOR_LANES];
            },
            Instruction::VMax { a, b, c } => {
                let a = idx(a)?;
                let b = idx(b)?;
                let c = idx(c)?;
                let r = lanes_max::<A>(&self.vregs[a], &self.vregs[b]);
                self.vregs[c] = r;
            },
            Instruction::VBroadcastLane { v_in, v_out, lane } => {
                let v_in = idx(v_in)?;
                let v_out = idx(v_out)?;
                let l = lane as usize;
                if l >= VECTOR_LANES {
                    return Err(Fault::Lane { lane: l });
                }
                let scalar = self.vregs[v_in][l];
                self.vregs[v_out] = [scalar; VECTOR_LANES];
            },
            Instruction::MatAccumClear => {
                let zero = A::from_i8(0);
                self.matrix_accum = [[zero; MATMUL_TILE]; MATMUL_TILE];
            },
            Instruction::MatMulTile { a_sram, b_sram } => {
                checked_end(a_sram, MATMUL_TILE_ELEMENTS, self.sram.len(), Access::MatMulA)?;
                checked_end(b_sram, MATMUL_TILE_ELEMENTS, self.sram.len(), Access::MatMulB)?;
                let r = accumulate_tiles::<A>(&self.sram, &self.matrix_accum, a_sram, b_sram);
                self.matrix_accum = r;
            },
            Instruction::MatAccumStore { sram_dst } => {
                checked_end(sram_dst, MATMUL_TILE_ELEMENTS, self.sram.len(), Access::AccumStore)?;
                store_tile(&mut self.sram, sram_dst, &self.matrix_accum);
            },
            Instruction::MatVecTile { x_sram, w_sram, y_sram, accumulate } => {
                checked_end(x_sram, MATMUL_TILE, self.sram.len(), Access::MatVecX)?;
                checked_end(w_sram, MATMUL_TILE_ELEMENTS, self.sram.len(), Access::MatVecW)?;
                checked_end(y_sram, MATMUL_TILE, self.sram.len(), Access::MatVecY)?;
                matvec_tile::<A>(&mut self.sram, x_sram, w_sram, y_sram, accumulate);
            },
            Instruction::LoadDram { dram_addr, sram_addr, len } => {
                checked_end(dram_addr, len, self.dram.len(), Access::DramLoadSource)?;
                checked_end(sram_addr, len, self.sram.len(), Access::DramLoadTarget)?;
                copy_range(&mut self.sram, sram_addr, &self.dram, dram_addr, len);
            },
            Instruction::StoreDram { sram_addr, dram_addr, len } => {
                checked_end(sram_addr, len, self.sram.len(), Access::DramStoreSource)?;
                checked_end(dram_addr, len, self.dram.len(), Access::DramStoreTarget)?;
                copy_range(&mut self.dram, dram_addr, &self.sram, sram_addr, len);
            },
        }
        self.instr_count += 1;
        Ok(())
    }
}

/// `post` is an outcome of executing the first `n` instructions of `program`,
/// one after the other, from `pre`.
pub open spec fn trace_is<A: Arith>(
    pre: Machine<A::Num>,
    program: Seq<Instruction<A::Num>>,
    n: nat,
    post: Machine<A::Num>,
) -> bool
    decreases n,
{
    if n == 0 {
        post == pre
    } else {
        exists|mid: Machine<A::Num>|
            trace_is::<A>(pre, program, (n - 1) as nat, mid) && #[trigger] step_is::<A>(
                mid,
                program[n - 1],
                post,
            )
    }
}

/// How many instructions of `program` come before the first one with a fault.
pub open spec fn runnable<T>(sram: nat, dram: nat, program: Seq<Instruction<T>>) -> nat
    decreases program.len(),
{
    if program.len() == 0 || fault_of(sram, dram, program[0]) is Some {
        0
    } else {
        1 + runnable(sram, dram, program.skip(1))
    }
}

/// The instructions before the first one with a fault have none; the one after
/// them has.
pub proof fn lemma_runnable<T>(sram: nat, dram: nat, program: Seq<Instruction<T>>)
    ensures
        runnable(sram, dram, program) <= program.len(),
        forall|i: int|
            0 <= i < runnable(sram, dram, program) ==> #[trigger] fault_of(sram, dram, program[i])
                is None,
        runnable(sram, dram, program) < program.len() ==> fault_of(
            sram,
            dram,
            program[runnable(sram, dram, program) as int],
        ) is Some,
    decreases program.len(),
{
    if program.len() > 0 && fault_of(sram, dram, program[0]) is None {
        lemma_runnable(sram, dram, program.skip(1));
        assert forall|i: int| 0 <= i < runnable(sram, dram, program) implies #[trigger] fault_of(
            sram,
            dram,
            program[i],
        ) is None by {
            if i > 0 {
                assert(program.skip(1)[i - 1] == program[i]);
            }
        }
    }
}

/// One instruction keeps the sizes of the memories and of the register files.
pub proof fn law_step_keeps_sizes<A: Arith>(
    pre: Machine<A::Num>,
    instr: Instruction<A::Num>,
    post: Machine<A::Num>,
)
    requires
        pre.shaped(),
        fault_of(pre.sram.len(), pre.dram.len(), instr) is None,
        step_is::<A>(pre, instr, post),
    ensures
        post.shaped(),
        post.sram.len() == pre.sram.len(),
        post.dram.len() == pre.dram.len(),
{
    if let Instruction::MatVecTile { x_sram, w_sram, y_sram, accumulate } = instr {
        lemma_matvec_len::<A>(
            pre.sram,
            post.sram,
            pre.sram.subrange(x_sram as int, x_sram + 16),
            w_sram as int,
            y_sram as int,
            accumulate,
            16,
        );
    }
}

/// A matrix-vector tile keeps the size of the memory.
proof fn lemma_matvec_len<A: Arith>(
    pre: Seq<A::Num>,
    post: Seq<A::Num>,
    x: Seq<A::Num>,
    w: int,
    y: int,
    accumulate: bool,
    n: nat,
)
    requires
        0 <= y,
        y + n <= pre.len(),
        matvec_is::<A>(pre, post, x, w, y, accumulate, n),
    ensures
        post.len() == pre.len(),
    decreases n,
{
    if n > 0 {
        let mid = choose|mid: Seq<A::Num>|
            {
                &&& matvec_is::<A>(pre, mid, x, w, y, accumulate, (n - 1) as nat)
                &&& #[trigger] matvec_column_is::<A>(mid, post, x, w, y, n - 1, accumulate)
            };
        lemma_matvec_len::<A>(pre, mid, x, w, y, accumulate, (n - 1) as nat);
    }
}

/// Every machine has register files of the right sizes.
pub proof fn law_machine_is_shaped<A: Arith>(acc: &Accelerator<A>)
    ensures
        acc@.shaped(),
{
}

/// `after` and `result` are an outcome of running `program` on the machine
/// `before`: up to its end, or to the first instruction that has a fault, which is
/// the result.
pub open spec fn run_is<A: Arith>(
    before: Machine<A::Num>,
    program: Seq<Instruction<A::Num>>,
    after: Machine<A::Num>,
    result: Result<(), Fault>,
) -> bool {
    let (sram, dram) = (before.sram.len(), before.dram.len());
    let n = runnable(sram, dram, program);
    &&& trace_is::<A>(before, program, n, after)
    &&& after.instr_count == before.instr_count + n
    &&& n == program.len() ==> result == Ok::<(), Fault>(())
    &&& n < program.len() ==> result == Err::<(), Fault>(
        fault_of(sram, dram, program[n as int])->0,
    )
}

impl<A: Arith> Accelerator<A> {
    /// Executes a program up to its end or to the first instruction that has a
    /// fault, which is reported; what the instructions before it did stays.
    pub fn run(&mut self, program: &[Instruction<A::Num>]) -> (result: Result<(), Fault>)
        requires
            old(self).instr_count + program@.len() <= u64::MAX,
        ensures
            run_is::<A>(old(self)@, program@, final(self)@, result),
    {
        let ghost before = self@;
        proof {
            lemma_runnable(before.sram.len(), before.dram.len(), program@);
        }
        let ghost n = runnable(before.sram.len(), before.dram.len(), program@);
        for i in 0..program.len()
            invariant
                i <= n,
                n == runnable(before.sram.len(), before.dram.len(), program@),
                n <= program@.len(),
                forall|k: int|
                    0 <= k < n ==> #[trigger] fault_of(
                        before.sram.len(),
                        before.dram.len(),
                        program@[k],
                    ) is None,
                n < program@.len() ==> fault_of(
                    before.sram.len(),
                    before.dram.len(),
                    program@[n as int],
                ) is Some,
                before == old(self)@,
                self@.sram.len() == before.sram.len(),
                self@.dram.len() == before.dram.len(),
                self.instr_count == before.instr_count + i,
                before.instr_count + program@.len() <= u64::MAX,
                trace_is::<A>(before, program@, i as nat, self@),
        {
            let ghost mid = self@;
            assert(i < n ==> fault_of(
                before.sram.len(),
                before.dram.len(),
                program@[i as int],
            ) is None);
            self.execute(&program[i])?;
            proof {
                law_step_keeps_sizes::<A>(mid, program@[i as int], self@);
                assert(trace_is::<A>(before, program@, ((i + 1) - 1) as nat, mid));
                assert(trace_is::<A>(before, program@, (i + 1) as nat, self@));
            }
        }
        Ok(())
    }
}

/// What the first `n` columns of a matrix-vector tile do where the outputs lie
/// apart from the weights: each output is computed from the memory as it was
/// before, and the rest of the memory stays.
pub open spec fn matvec_apart_is<A: Arith>(
    pre: Seq<A::Num>,
    post: Seq<A::Num>,
    x: Seq<A::Num>,
    w: int,
    y: int,
    accumulate: bool,
    n: nat,
) -> bool {
    &&& post.len() == pre.len()
    &&& forall|j: int|
        #![trigger post[y + j]]
        0 <= j < n ==> matvec_output_is::<A>(pre, x, w, y, j, accumulate, post[y + j])
    &&& forall|p: int|
        0 <= p < pre.len() && !(y <= p < y + n) ==> #[trigger] post[p] == pre[p]
}

/// A matrix-vector tile whose outputs lie apart from its weights computes every
/// output from the weights as they were before the instruction.
pub proof fn law_matvec_apart<A: Arith>(
    pre: Seq<A::Num>,
    post: Seq<A::Num>,
    x: Seq<A::Num>,
    w: int,
    y: int,
    accumulate: bool,
    n: nat,
)
    requires
        n <= MATMUL_TILE,
        0 <= y,
        y + MATMUL_TILE <= pre.len(),
        0 <= w,
        w + MATMUL_TILE_ELEMENTS <= pre.len(),
        y + MATMUL_TILE <= w || w + MATMUL_TILE_ELEMENTS <= y,
        matvec_is::<A>(pre, post, x, w, y, accumulate, n),
    ensures
        matvec_apart_is::<A>(pre, post, x, w, y, accumulate, n),
    decreases n,
{
    if n > 0 {
        let m = (n - 1) as nat;
        let mid = choose|mid: Seq<A::Num>|
            {
                &&& matvec_is::<A>(pre, mid, x, w, y, accumulate, m)
                &&& #[trigger] matvec_column_is::<A>(mid, post, x, w, y, n - 1, accumulate)
            };
        law_matvec_apart::<A>(pre, mid, x, w, y, accumulate, m);
        assert(tile_column(mid, w, n - 1) =~= tile_column(pre, w, n - 1));
        assert forall|j: int| #![trigger post[y + j]] 0 <= j < n implies matvec_output_is::<A>(
            pre,
            x,
            w,
            y,
            j,
            accumulate,
            post[y + j],
        ) by {
            if j < m {
                assert(post[y + j] == mid[y + j]);
            } else {
                assert(mid[y + j] == pre[y + j]);
            }
        }
    }
}

/// A register loaded from memory and stored elsewhere copies the memory.
pub proof fn law_load_then_store<A: Arith>(
    before: Machine<A::Num>,
    loaded: Machine<A::Num>,
    stored: Machine<A::Num>,
    v: u8,
    from: usize,
    to: usize,
)
    requires
        before.shaped(),
        v < N_VECTOR_REGS,
        from + VECTOR_LANES <= before.sram.len(),
        to + VECTOR_LANES <= before.sram.len(),
        step_is::<A>(before, Instruction::LoadVec { v, sram_addr: from }, loaded),
        step_is::<A>(loaded, Instruction::StoreVec { v, sram_addr: to }, stored),
    ensures
        stored.sram == overwrite(
            before.sram,
            to as int,
            before.sram.subrange(from as int, from + 32),
        ),
        stored.dram == before.dram,
{
}

/// What is moved from DRAM to SRAM and back arrives as it was.
pub proof fn law_dram_round_trip<A: Arith>(
    before: Machine<A::Num>,
    loaded: Machine<A::Num>,
    stored: Machine<A::Num>,
    from: usize,
    mid: usize,
    to: usize,
    len: usize,
)
    requires
        from + len <= before.dram.len(),
        to + len <= before.dram.len(),
        mid + len <= before.sram.len(),
        step_is::<A>(
            before,
            Instruction::LoadDram { dram_addr: from, sram_addr: mid, len },
            loaded,
        ),
        step_is::<A>(
            loaded,
            Instruction::StoreDram { sram_addr: mid, dram_addr: to, len },
            stored,
        ),
    ensures
        stored.dram == overwrite(
            before.dram,
            to as int,
            before.dram.subrange(from as int, from + len),
        ),
        from == to ==> stored.dram == before.dram,
{
    let data = before.dram.subrange(from as int, from + len);
    assert(loaded.sram.subrange(mid as int, mid + len) =~= data);
    if from == to {
        assert(overwrite(before.dram, to as int, data) =~= before.dram);
    }
}

/// Swapping adjacent lanes twice gives back the register.
pub proof fn law_swap_pairs_twice<A: Arith>(
    before: Machine<A::Num>,
    once: Machine<A::Num>,
    twice: Machine<A::Num>,
    a: u8,
    b: u8,
    c: u8,
)
    requires
        before.shaped(),
        a < N_VECTOR_REGS,
        b < N_VECTOR_REGS,
        c < N_VECTOR_REGS,
        step_is::<A>(before, Instruction::VSwapPairs { v_in: a, v_out: b }, once),
        step_is::<A>(once, Instruction::VSwapPairs { v_in: b, v_out: c }, twice),
    ensures
        twice.vregs[c as int] == before.vregs[a as int],
{
    assert forall|l: int| 0 <= l < VECTOR_LANES implies #[trigger] twice.vregs[c as int][l]
        == before.vregs[a as int][l] by {
        let m = if l % 2 == 0 {
            l + 1
        } else {
            l - 1
        };
        assert(twice.vregs[c as int][l] == once.vregs[b as int][m]);
        assert(once.vregs[b as int][m] == before.vregs[a as int][l]);
    }
    assert(twice.vregs[c as int] =~= before.vregs[a as int]);
}

/// Clearing the accumulator and multiplying two tiles leaves in it the matrix
/// product that the matmul kernels compute.
pub proof fn law_tile_is_matmul<A: Arith>(
    before: Machine<A::Num>,
    cleared: Machine<A::Num>,
    after: Machine<A::Num>,
    a: usize,
    b: usize,
)
    requires
        before.shaped(),
        a + MATMUL_TILE_ELEMENTS <= before.sram.len(),
        b + MATMUL_TILE_ELEMENTS <= before.sram.len(),
        step_is::<A>(before, Instruction::MatAccumClear, cleared),
        step_is::<A>(cleared, Instruction::MatMulTile { a_sram: a, b_sram: b }, after),
    ensures
        matmul_is::<A>(
            before.sram.subrange(a as int, a + 256),
            before.sram.subrange(b as int, b + 256),
            flattened(after.accum),
            16,
            16,
            16,
        ),
{
    let left = before.sram.subrange(a as int, a + 256);
    let right = before.sram.subrange(b as int, b + 256);
    let c = flattened(after.accum);
    let zero = cleared.accum[0][0];
    assert forall|i: int, j: int| #![trigger c[i * 16 + j]] 0 <= i < 16 && 0 <= j
        < 16 implies dot_is::<A>(row(left, 16, i), column(right, 16, 16, j), c[i * 16 + j]) by {
        assert((i * 16 + j) / 16 == i && (i * 16 + j) % 16 == j);
        assert(c[i * 16 + j] == after.accum[i][j]);
        assert(cleared.accum[i][j] == zero);
        assert(tile_row(before.sram, a as int, i) =~= row(left, 16, i));
        assert(tile_column(before.sram, b as int, j) =~= column(right, 16, 16, j));
        assert(int_is::<A>(0, zero));
    }
}

/// A program none of whose instructions has a fault runs to its end.
pub proof fn lemma_all_runnable<T>(sram: nat, dram: nat, program: Seq<Instruction<T>>)
    requires
        forall|p: int|
            0 <= p < program.len() ==> #[trigger] fault_of(sram, dram, program[p]) is None,
    ensures
        runnable(sram, dram, program) == program.len(),
{
    lemma_runnable(sram, dram, program);
}

} // verus!
