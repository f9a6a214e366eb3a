//! Lowers neural-net operations to accelerator programs.
//!
//! The programs assume where their operands lie in SRAM. Vectors are contiguous.
//! Weights have to be brought into the tiled layout of [`retile_weight`] first.

use vstd::prelude::*;

use crate::accelerator::{
    fault_of, law_matvec_apart, lemma_all_runnable, matvec_output_is, run_is, runnable, step_is,
    tile_column, trace_is, Fault, Instruction, Machine, MATMUL_TILE, MATMUL_TILE_ELEMENTS,
    VECTOR_LANES,
};
use crate::arith::{
    deterministic, dot_is, fma_is, int_is, lemma_mac_concat, lemma_mac_same, mac_is, product_is,
    reciprocal, reciprocal_is, rsqrt_is, sum_is, total_is, Arith,
};
use crate::buffer::overwrite;
use crate::matmul::{lemma_index_in_matrix, lemma_index_injective, row};
use crate::nn::{law_linear_unique, linear_is, product3_is};

verus! {

/// Where the tiled layout keeps the weight of input `k` for output `i`: tiles of
/// 16 outputs by 16 inputs, one after the other, the tiles of one slab of
/// outputs together, and in each tile the outputs of one input together.
pub open spec fn tiled_index(in_dim: int, i: int, k: int) -> int {
    ((i / 16) * (in_dim / 16) + k / 16) * 256 + (k % 16) * 16 + i % 16
}

/// `tiled` is the row-major matrix `w` of `out_dim` rows in the tiled layout.
pub open spec fn retiled_is<T>(w: Seq<T>, in_dim: nat, out_dim: nat, tiled: Seq<T>) -> bool {
    &&& tiled.len() == in_dim * out_dim
    &&& forall|i: int, k: int|
        0 <= i < out_dim && 0 <= k < in_dim ==> #[trigger] tiled[tiled_index(in_dim as int, i, k)]
            == w[i * in_dim + k]
}

/// The tiled layout has a place within the matrix for every weight.
pub proof fn law_tiled_index_in_matrix(in_dim: int, out_dim: int, i: int, k: int)
    requires
        in_dim % 16 == 0,
        out_dim % 16 == 0,
        0 <= i < out_dim,
        0 <= k < in_dim,
    ensures
        0 <= tiled_index(in_dim, i, k) < in_dim * out_dim,
{
    let (t, o) = (in_dim / 16, out_dim / 16);
    let (a, b) = (i / 16, k / 16);
    assert(0 <= a * t && a * t + t <= o * t) by (nonlinear_arith)
        requires
            0 <= a < o,
            0 <= t,
    ;
    assert(in_dim * out_dim == (o * t) * 256) by (nonlinear_arith)
        requires
            in_dim == t * 16,
            out_dim == o * 16,
    ;
}

/// No two weights share a place in the tiled layout.
pub proof fn law_tiled_index_injective(in_dim: int, i: int, k: int, i2: int, k2: int)
    requires
        in_dim % 16 == 0,
        0 <= i,
        0 <= k < in_dim,
        0 <= i2,
        0 <= k2 < in_dim,
        tiled_index(in_dim, i, k) == tiled_index(in_dim, i2, k2),
    ensures
        i == i2,
        k == k2,
{
    let t = in_dim / 16;
    let (a, b) = ((i / 16) * t + k / 16, (i2 / 16) * t + k2 / 16);
    assert(a * 256 + (k % 16) * 16 + i % 16 == b * 256 + (k2 % 16) * 16 + i2 % 16);
    assert(a == b && k % 16 == k2 % 16 && i % 16 == i2 % 16);
    lemma_index_injective(i / 16, k / 16, i2 / 16, k2 / 16, t);
}

/// Re-lays a row-major `out_dim` by `in_dim` matrix out in tiles.
pub fn retile_weight<T: Copy>(w_row_major: &[T], in_dim: usize, out_dim: usize) -> (out: Vec<T>)
    requires
        w_row_major@.len() == in_dim * out_dim,
        in_dim % MATMUL_TILE == 0,
        out_dim % MATMUL_TILE == 0,
    ensures
        retiled_is(w_row_major@, in_dim as nat, out_dim as nat, out@),
{
    let ghost w = w_row_major@;
    let in_tiles: usize = in_dim / MATMUL_TILE;
    let out_tiles: usize = out_dim / MATMUL_TILE;
    let mut out: Vec<T> = Vec::with_capacity(w_row_major.len());
    assert(0 * in_tiles == 0) by (nonlinear_arith);
    for ot in 0..out_tiles
        invariant
            w == w_row_major@,
            w_row_major.len() == in_dim * out_dim,
            in_dim == in_tiles * 16,
            out_dim == out_tiles * 16,
            out@.len() == (ot * in_tiles) * 256,
            tiled_so_far(w, in_dim as nat, out_dim as nat, out@),
    {
        for it in 0..in_tiles
            invariant
                w == w_row_major@,
                w_row_major.len() == in_dim * out_dim,
                in_dim == in_tiles * 16,
                out_dim == out_tiles * 16,
                ot < out_tiles,
                out@.len() == (ot * in_tiles + it) * 256,
                tiled_so_far(w, in_dim as nat, out_dim as nat, out@),
        {
            for k_tile in 0..MATMUL_TILE
                invariant
                    w == w_row_major@,
                    w_row_major.len() == in_dim * out_dim,
                    in_dim == in_tiles * 16,
                    out_dim == out_tiles * 16,
                    ot < out_tiles,
                    it < in_tiles,
                    out@.len() == (ot * in_tiles + it) * 256 + k_tile * 16,
                    tiled_so_far(w, in_dim as nat, out_dim as nat, out@),
            {
                for j_tile in 0..MATMUL_TILE
                    invariant
                        w == w_row_major@,
                        w_row_major.len() == in_dim * out_dim,
                        in_dim == in_tiles * 16,
                        out_dim == out_tiles * 16,
                        ot < out_tiles,
                        it < in_tiles,
                        k_tile < MATMUL_TILE,
                        out@.len() == (ot * in_tiles + it) * 256 + k_tile * 16 + j_tile,
                        tiled_so_far(w, in_dim as nat, out_dim as nat, out@),
                {
                    let out_i: usize = ot * MATMUL_TILE + j_tile;
                    let in_k: usize = it * MATMUL_TILE + k_tile;
                    proof {
                        assert(out_i * in_dim + in_k < in_dim * out_dim && 0 <= out_i * in_dim)
                            by (nonlinear_arith)
                            requires
                                0 <= out_i < out_dim,
                                0 <= in_k < in_dim,
                        ;
                        assert(tiled_index(in_dim as int, out_i as int, in_k as int)
                            == out@.len());
                        lemma_tile_one_more(
                            w,
                            in_dim as nat,
                            out_dim as nat,
                            out@,
                            out_i as int,
                            in_k as int,
                        );
                    }
                    out.push(w_row_major[out_i * in_dim + in_k]);
                }
            }
        }
        assert((ot + 1) * in_tiles == ot * in_tiles + in_tiles) by (nonlinear_arith);
    }
    proof {
        assert((out_tiles * in_tiles) * 256 == in_dim * out_dim) by (nonlinear_arith)
            requires
                in_dim == in_tiles * 16,
                out_dim == out_tiles * 16,
        ;
        assert forall|i: int, k: int| 0 <= i < out_dim && 0 <= k
            < in_dim implies #[trigger] out@[tiled_index(in_dim as int, i, k)] == w[i * in_dim
            + k] by {
            law_tiled_index_in_matrix(in_dim as int, out_dim as int, i, k);
        }
    }
    out
}

/// `tiled` is the beginning of the tiled layout of `w`.
spec fn tiled_so_far<T>(w: Seq<T>, in_dim: nat, out_dim: nat, tiled: Seq<T>) -> bool {
    forall|i: int, k: int|
        0 <= i < out_dim && 0 <= k < in_dim && tiled_index(in_dim as int, i, k) < tiled.len()
            ==> #[trigger] tiled[tiled_index(in_dim as int, i, k)] == w[i * in_dim + k]
}

/// The tiled layout grows by the weight whose place comes next.
proof fn lemma_tile_one_more<T>(
    w: Seq<T>,
    in_dim: nat,
    out_dim: nat,
    tiled: Seq<T>,
    i: int,
    k: int,
)
    requires
        in_dim % 16 == 0,
        out_dim % 16 == 0,
        0 <= i < out_dim,
        0 <= k < in_dim,
        tiled_index(in_dim as int, i, k) == tiled.len(),
        tiled_so_far(w, in_dim, out_dim, tiled),
    ensures
        tiled_so_far(w, in_dim, out_dim, tiled.push(w[i * in_dim + k])),
{
    let after = tiled.push(w[i * in_dim + k]);
    assert forall|i2: int, k2: int|
        0 <= i2 < out_dim && 0 <= k2 < in_dim && tiled_index(in_dim as int, i2, k2)
            < after.len() implies #[trigger] after[tiled_index(in_dim as int, i2, k2)] == w[i2
        * in_dim + k2] by {
        law_tiled_index_in_matrix(in_dim as int, out_dim as int, i2, k2);
        if tiled_index(in_dim as int, i2, k2) == tiled.len() {
            law_tiled_index_injective(in_dim as int, i, k, i2, k2);
        } else {
            assert(after[tiled_index(in_dim as int, i2, k2)] == tiled[tiled_index(
                in_dim as int,
                i2,
                k2,
            )]);
        }
    }
}

/// The instruction for input slab `it` of output slab `ot`.
pub open spec fn linear_tile<T>(
    in_tiles: int,
    x_addr: int,
    w_addr: int,
    y_addr: int,
    ot: int,
    it: int,
) -> Instruction<T> {
    Instruction::MatVecTile {
        x_sram: (x_addr + it * 16) as usize,
        w_sram: (w_addr + (ot * in_tiles + it) * 256) as usize,
        y_sram: (y_addr + ot * 16) as usize,
        accumulate: it != 0,
    }
}

/// `program` computes a matrix-vector product: for each slab of 16 outputs, one
/// instruction per slab of 16 inputs, of which the first overwrites.
pub open spec fn linear_program_is<T>(
    program: Seq<Instruction<T>>,
    in_dim: int,
    out_dim: int,
    x_addr: int,
    w_addr: int,
    y_addr: int,
) -> bool {
    &&& program.len() == (out_dim / 16) * (in_dim / 16)
    &&& forall|ot: int, it: int|
        #![trigger linear_tile::<T>(in_dim / 16, x_addr, w_addr, y_addr, ot, it)]
        0 <= ot < out_dim / 16 && 0 <= it < in_dim / 16 ==> program[ot * (in_dim / 16) + it]
            == linear_tile::<T>(in_dim / 16, x_addr, w_addr, y_addr, ot, it)
}

/// Lowers `y = W x`. `in_dim` and `out_dim` are multiples of the tile edge. When
/// the program runs, `x` lies at `x_addr`, the tiled weights lie at `w_addr`, and
/// `y` goes to `y_addr`.
pub fn compile_linear<T>(
    in_dim: usize,
    out_dim: usize,
    x_addr: usize,
    w_addr: usize,
    y_addr: usize,
) -> (prog: Vec<Instruction<T>>)
    requires
        in_dim % MATMUL_TILE == 0,
        out_dim % MATMUL_TILE == 0,
        out_dim > 0 ==> y_addr + out_dim - MATMUL_TILE <= usize::MAX,
        in_dim > 0 && out_dim > 0 ==> x_addr + in_dim - MATMUL_TILE <= usize::MAX,
        in_dim > 0 && out_dim > 0 ==> w_addr + in_dim * out_dim - MATMUL_TILE_ELEMENTS
            <= usize::MAX,
    ensures
        linear_program_is(
            prog@,
            in_dim as int,
            out_dim as int,
            x_addr as int,
            w_addr as int,
            y_addr as int,
        ),
{
    let in_tiles: usize = in_dim / MATMUL_TILE;
    let out_tiles: usize = out_dim / MATMUL_TILE;
    let mut prog: Vec<Instruction<T>> = Vec::new();
    assert(in_dim * out_dim == (out_tiles * in_tiles) * 256) by (nonlinear_arith)
        requires
            in_dim == in_tiles * 16,
            out_dim == out_tiles * 16,
    ;
    assert(0 * in_tiles == 0) by (nonlinear_arith);
    for ot in 0..out_tiles
        invariant
            in_dim == in_tiles * 16,
            out_dim == out_tiles * 16,
            out_dim > 0 ==> y_addr + out_dim - 16 <= usize::MAX,
            in_dim > 0 && out_dim > 0 ==> x_addr + in_dim - 16 <= usize::MAX,
            in_dim > 0 && out_dim > 0 ==> w_addr + (out_tiles * in_tiles) * 256 - 256
                <= usize::MAX,
            prog@.len() == ot * in_tiles,
            forall|o: int, i: int|
                #![trigger linear_tile::<T>(
                    in_tiles as int,
                    x_addr as int,
                    w_addr as int,
                    y_addr as int,
                    o,
                    i,
                )]
                0 <= o < ot && 0 <= i < in_tiles ==> prog@[o * in_tiles + i] == linear_tile::<T>(
                    in_tiles as int,
                    x_addr as int,
                    w_addr as int,
                    y_addr as int,
                    o,
                    i,
                ),
    {
        let y_tile_addr: usize = y_addr + ot * MATMUL_TILE;
        for it in 0..in_tiles
            invariant
                in_dim == in_tiles * 16,
                out_dim == out_tiles * 16,
                ot < out_tiles,
                y_tile_addr == y_addr + ot * 16,
                in_dim > 0 && out_dim > 0 ==> x_addr + in_dim - 16 <= usize::MAX,
                in_dim > 0 && out_dim > 0 ==> w_addr + (out_tiles * in_tiles) * 256 - 256
                    <= usize::MAX,
                prog@.len() == ot * in_tiles + it,
                forall|o: int, i: int|
                    #![trigger linear_tile::<T>(
                        in_tiles as int,
                        x_addr as int,
                        w_addr as int,
                        y_addr as int,
                        o,
                        i,
                    )]
                    0 <= o < ot && 0 <= i < in_tiles || o == ot && 0 <= i < it ==> prog@[o
                        * in_tiles + i] == linear_tile::<T>(
                        in_tiles as int,
                        x_addr as int,
                        w_addr as int,
                        y_addr as int,
                        o,
                        i,
                    ),
        {
            proof {
                lemma_index_in_matrix(ot as int, it as int, out_tiles as int, in_tiles as int);
                assert forall|o: int, i: int|
                    0 <= o < ot && 0 <= i < in_tiles implies 0 <= #[trigger] (o * in_tiles + i)
                    < ot * in_tiles by {
                    lemma_index_in_matrix(o, i, ot as int, in_tiles as int);
                }
            }
            let x_tile_addr: usize = x_addr + it * MATMUL_TILE;
            let w_tile_addr: usize = w_addr + (ot * in_tiles + it) * MATMUL_TILE_ELEMENTS;
            prog.push(
                Instruction::MatVecTile {
                    x_sram: x_tile_addr,
                    w_sram: w_tile_addr,
                    y_sram: y_tile_addr,
                    accumulate: it != 0,
                },
            );
        }
        assert((ot + 1) * in_tiles == ot * in_tiles + in_tiles) by (nonlinear_arith);
    }
    prog
}

/// The operands of a matrix-vector product in SRAM.
pub struct LinearLayout {
    pub in_dim: int,
    pub out_dim: int,
    pub x_addr: int,
    pub w_addr: int,
    pub y_addr: int,
}

impl LinearLayout {
    /// The operands consist of whole tiles and lie within a memory of `sram`
    /// elements.
    pub open spec fn within(self, sram: nat) -> bool {
        &&& self.in_dim >= 0
        &&& self.out_dim >= 0
        &&& self.in_dim % 16 == 0
        &&& self.out_dim % 16 == 0
        &&& self.x_addr >= 0
        &&& self.w_addr >= 0
        &&& self.y_addr >= 0
        &&& self.x_addr + self.in_dim <= sram
        &&& self.w_addr + self.in_dim * self.out_dim <= sram
        &&& self.y_addr + self.out_dim <= sram
    }

    /// The outputs lie apart from the inputs and from the weights.
    pub open spec fn apart(self) -> bool {
        &&& self.y_addr + self.out_dim <= self.x_addr || self.x_addr + self.in_dim <= self.y_addr
        &&& self.y_addr + self.out_dim <= self.w_addr || self.w_addr + self.in_dim * self.out_dim
            <= self.y_addr
    }

    /// What lies in the memory as `x`.
    pub open spec fn input<T>(self, sram: Seq<T>) -> Seq<T> {
        sram.subrange(self.x_addr, self.x_addr + self.in_dim)
    }

    /// What lies in the memory as the tiled weights.
    pub open spec fn weights<T>(self, sram: Seq<T>) -> Seq<T> {
        sram.subrange(self.w_addr, self.w_addr + self.in_dim * self.out_dim)
    }

    /// What lies in the memory as `y`.
    pub open spec fn output<T>(self, sram: Seq<T>) -> Seq<T> {
        sram.subrange(self.y_addr, self.y_addr + self.out_dim)
    }
}

/// A program for a matrix-vector product whose operands lie within the SRAM has
/// no fault.
pub proof fn law_linear_program_runs<T>(
    program: Seq<Instruction<T>>,
    at: LinearLayout,
    sram: usize,
    dram: nat,
)
    requires
        at.within(sram as nat),
        linear_program_is(program, at.in_dim, at.out_dim, at.x_addr, at.w_addr, at.y_addr),
    ensures
        runnable(sram as nat, dram, program) == program.len(),
{
    let t = at.in_dim / 16;
    let o = at.out_dim / 16;
    assert forall|p: int| 0 <= p < program.len() implies #[trigger] fault_of(
        sram as nat,
        dram,
        program[p],
    ) is None by {
        let (ot, it) = (p / t, p % t);
        assert(t > 0) by (nonlinear_arith)
            requires
                0 <= p < o * t,
                t >= 0,
        ;
        vstd::arithmetic::div_mod::lemma_fundamental_div_mod(p, t);
        assert(ot * t == t * ot) by (nonlinear_arith);
        assert(0 <= ot < o) by (nonlinear_arith)
            requires
                0 <= p < o * t,
                p == ot * t + it,
                0 <= it < t,
                t > 0,
        ;
        assert(program[ot * t + it] == linear_tile::<T>(
            t,
            at.x_addr,
            at.w_addr,
            at.y_addr,
            ot,
            it,
        ));
        lemma_index_in_matrix(ot, it, o, t);
        assert(at.in_dim * at.out_dim == (o * t) * 256) by (nonlinear_arith)
            requires
                at.in_dim == t * 16,
                at.out_dim == o * 16,
        ;
    }
    lemma_all_runnable(sram as nat, dram, program);
}

/// A program for a matrix-vector product multiplies every weight once: each of
/// its instructions covers 256 of them.
pub proof fn law_linear_program_covers_weights<T>(
    program: Seq<Instruction<T>>,
    in_dim: int,
    out_dim: int,
    x_addr: int,
    w_addr: int,
    y_addr: int,
)
    requires
        in_dim % 16 == 0,
        out_dim % 16 == 0,
        linear_program_is(program, in_dim, out_dim, x_addr, w_addr, y_addr),
    ensures
        program.len() * 256 == in_dim * out_dim,
{
    let (t, o) = (in_dim / 16, out_dim / 16);
    assert((o * t) * 256 == in_dim * out_dim) by (nonlinear_arith)
        requires
            in_dim == t * 16,
            out_dim == o * 16,
    ;
}

/// How far a program for a matrix-vector product has come after `it`
/// instructions of output slab `ot`: the slabs before are done, the outputs of
/// this slab cover the first `it` slabs of inputs, and nothing else has changed.
spec fn linear_progress<A: Arith>(
    at: LinearLayout,
    w: Seq<A::Num>,
    before: Machine<A::Num>,
    now: Machine<A::Num>,
    ot: int,
    it: int,
) -> bool {
    let x = at.input(before.sram);
    &&& now == (Machine { sram: now.sram, instr_count: now.instr_count, ..before })
    &&& now.sram.len() == before.sram.len()
    &&& forall|p: int|
        0 <= p < before.sram.len() && !(at.y_addr <= p < at.y_addr + at.out_dim)
            ==> #[trigger] now.sram[p] == before.sram[p]
    &&& forall|j: int|
        0 <= j < ot * 16 ==> #[trigger] dot_is::<A>(
            x,
            row(w, at.in_dim as nat, j),
            now.sram[at.y_addr + j],
        )
    &&& it > 0 ==> forall|j: int|
        ot * 16 <= j < ot * 16 + 16 ==> #[trigger] partial_dot_is::<A>(
            x,
            row(w, at.in_dim as nat, j),
            it * 16,
            now.sram[at.y_addr + j],
        )
}

/// `r` is an outcome of the dot product of the first `n` pairs, from zero.
spec fn partial_dot_is<A: Arith>(x: Seq<A::Num>, w: Seq<A::Num>, n: int, r: A::Num) -> bool {
    exists|z: A::Num| #[trigger] int_is::<A>(0, z) && mac_is::<A>(z, x, w, n as nat, r)
}

/// One instruction of a program for a matrix-vector product.
proof fn lemma_linear_step<A: Arith>(
    at: LinearLayout,
    w: Seq<A::Num>,
    before: Machine<A::Num>,
    mid: Machine<A::Num>,
    now: Machine<A::Num>,
    ot: int,
    it: int,
)
    requires
        before.sram.len() <= usize::MAX,
        at.within(before.sram.len()),
        at.apart(),
        retiled_is(w, at.in_dim as nat, at.out_dim as nat, at.weights(before.sram)),
        0 <= ot < at.out_dim / 16,
        0 <= it < at.in_dim / 16,
        linear_progress::<A>(at, w, before, mid, ot, it),
        step_is::<A>(
            mid,
            linear_tile(at.in_dim / 16, at.x_addr, at.w_addr, at.y_addr, ot, it),
            now,
        ),
    ensures
        linear_progress::<A>(at, w, before, now, ot, it + 1),
{
    let t = at.in_dim / 16;
    let o = at.out_dim / 16;
    let x = at.input(before.sram);
    let tiled = at.weights(before.sram);
    let x_tile = at.x_addr + it * 16;
    let w_tile = at.w_addr + (ot * t + it) * 256;
    let y_tile = at.y_addr + ot * 16;
    lemma_index_in_matrix(ot, it, o, t);
    assert(at.in_dim * at.out_dim == (o * t) * 256) by (nonlinear_arith)
        requires
            at.in_dim == t * 16,
            at.out_dim == o * 16,
    ;
    let input = mid.sram.subrange(x_tile, x_tile + 16);
    law_matvec_apart::<A>(mid.sram, now.sram, input, w_tile, y_tile, it != 0, 16);
    assert forall|j: int| 0 <= j < ot * 16 implies #[trigger] dot_is::<A>(
        x,
        row(w, at.in_dim as nat, j),
        now.sram[at.y_addr + j],
    ) by {
        assert(now.sram[at.y_addr + j] == mid.sram[at.y_addr + j]);
        assert(dot_is::<A>(x, row(w, at.in_dim as nat, j), mid.sram[at.y_addr + j]));
    }
    assert forall|j: int| ot * 16 <= j < ot * 16 + 16 implies #[trigger] partial_dot_is::<A>(
        x,
        row(w, at.in_dim as nat, j),
        (it + 1) * 16,
        now.sram[at.y_addr + j],
    ) by {
        let c = j - ot * 16;
        let r = row(w, at.in_dim as nat, j);
        let column = tile_column(mid.sram, w_tile, c);
        assert(now.sram[y_tile + c] == now.sram[at.y_addr + j]);
        assert(matvec_output_is::<A>(
            mid.sram,
            input,
            w_tile,
            y_tile,
            c,
            it != 0,
            now.sram[y_tile + c],
        ));
        let init = choose|init: A::Num|
            {
                &&& if it != 0 {
                    init == mid.sram[y_tile + c]
                } else {
                    int_is::<A>(0, init)
                }
                &&& #[trigger] mac_is::<A>(init, input, column, 16, now.sram[y_tile + c])
            };
        assert forall|k: int| 0 <= k < 16 implies #[trigger] input[k] == x[it * 16 + k] by {
            assert(mid.sram[x_tile + k] == before.sram[x_tile + k]);
        }
        assert forall|k: int| 0 <= k < 16 implies #[trigger] column[k] == r[it * 16 + k] by {
            let p = w_tile + k * 16 + c;
            assert(mid.sram[p] == before.sram[p]);
            assert(tiled_index(at.in_dim, j, it * 16 + k) == (ot * t + it) * 256 + k * 16 + c);
            assert(tiled[tiled_index(at.in_dim, j, it * 16 + k)] == w[j * at.in_dim + (it * 16
                + k)]);
        }
        if it == 0 {
            lemma_mac_same::<A>(init, input, column, x, r, 16, now.sram[y_tile + c]);
        } else {
            assert(partial_dot_is::<A>(x, r, it * 16, mid.sram[at.y_addr + j]));
            let z = choose|z: A::Num|
                #[trigger] int_is::<A>(0, z) && mac_is::<A>(
                    z,
                    x,
                    r,
                    (it * 16) as nat,
                    mid.sram[at.y_addr + j],
                );
            lemma_mac_concat::<A>(
                z,
                x,
                r,
                (it * 16) as nat,
                init,
                input,
                column,
                16,
                now.sram[y_tile + c],
            );
        }
    }
}

/// A program for a matrix-vector product, up to instruction `it` of output slab
/// `ot`.
proof fn lemma_linear_trace<A: Arith>(
    program: Seq<Instruction<A::Num>>,
    at: LinearLayout,
    w: Seq<A::Num>,
    before: Machine<A::Num>,
    now: Machine<A::Num>,
    ot: int,
    it: int,
)
    requires
        before.sram.len() <= usize::MAX,
        at.within(before.sram.len()),
        at.apart(),
        at.in_dim > 0,
        retiled_is(w, at.in_dim as nat, at.out_dim as nat, at.weights(before.sram)),
        linear_program_is(program, at.in_dim, at.out_dim, at.x_addr, at.w_addr, at.y_addr),
        0 <= ot <= at.out_dim / 16,
        0 <= it <= at.in_dim / 16,
        it > 0 ==> ot < at.out_dim / 16,
        trace_is::<A>(before, program, (ot * (at.in_dim / 16) + it) as nat, now),
    ensures
        linear_progress::<A>(at, w, before, now, ot, it),
    decreases ot, it,
{
    let t = at.in_dim / 16;
    assert(0 <= ot * t) by (nonlinear_arith)
        requires
            0 <= ot,
            0 <= t,
    ;
    if it > 0 {
        let n = (ot * t + it) as nat;
        let mid = choose|mid: Machine<A::Num>|
            trace_is::<A>(before, program, (n - 1) as nat, mid) && #[trigger] step_is::<A>(
                mid,
                program[n - 1],
                now,
            );
        lemma_linear_trace::<A>(program, at, w, before, mid, ot, it - 1);
        assert(program[ot * t + (it - 1)] == linear_tile::<A::Num>(
            t,
            at.x_addr,
            at.w_addr,
            at.y_addr,
            ot,
            it - 1,
        ));
        lemma_linear_step::<A>(at, w, before, mid, now, ot, it - 1);
    } else if ot > 0 {
        assert((ot - 1) * t + t == ot * t) by (nonlinear_arith);
        lemma_linear_trace::<A>(program, at, w, before, now, ot - 1, t);
        let x = at.input(before.sram);
        assert forall|j: int| 0 <= j < ot * 16 implies #[trigger] dot_is::<A>(
            x,
            row(w, at.in_dim as nat, j),
            now.sram[at.y_addr + j],
        ) by {
            if j >= (ot - 1) * 16 {
                assert(partial_dot_is::<A>(
                    x,
                    row(w, at.in_dim as nat, j),
                    t * 16,
                    now.sram[at.y_addr + j],
                ));
            }
        }
    } else {
        assert(0 * t == 0) by (nonlinear_arith);
    }
}

/// A program for a matrix-vector product leaves in SRAM what [`crate::nn::linear`]
/// computes, and changes nothing else but the instruction count: for tiled
/// weights, and outputs that lie apart from the inputs and the weights.
pub proof fn law_linear_program<A: Arith>(
    program: Seq<Instruction<A::Num>>,
    at: LinearLayout,
    w: Seq<A::Num>,
    before: Machine<A::Num>,
    after: Machine<A::Num>,
)
    requires
        before.sram.len() <= usize::MAX,
        at.within(before.sram.len()),
        at.apart(),
        at.in_dim > 0,
        retiled_is(w, at.in_dim as nat, at.out_dim as nat, at.weights(before.sram)),
        linear_program_is(program, at.in_dim, at.out_dim, at.x_addr, at.w_addr, at.y_addr),
        trace_is::<A>(before, program, program.len(), after),
    ensures
        linear_is::<A>(at.input(before.sram), w, at.output(after.sram)),
        after == (Machine {
            sram: overwrite(before.sram, at.y_addr, at.output(after.sram)),
            instr_count: after.instr_count,
            ..before
        }),
{
    let o = at.out_dim / 16;
    let t = at.in_dim / 16;
    lemma_linear_trace::<A>(program, at, w, before, after, o, 0);
    let x = at.input(before.sram);
    let y = at.output(after.sram);
    assert forall|j: int| 0 <= j < y.len() implies dot_is::<A>(
        x,
        row(w, x.len(), j),
        #[trigger] y[j],
    ) by {
        assert(dot_is::<A>(x, row(w, at.in_dim as nat, j), after.sram[at.y_addr + j]));
    }
    assert(after.sram =~= overwrite(before.sram, at.y_addr, y));
}

/// Where the arithmetic is deterministic, running a program for a matrix-vector
/// product succeeds, takes one instruction per tile of the weights, and leaves in
/// SRAM the very numbers that [`crate::nn::linear`] computes; no other memory
/// changes.
pub proof fn law_linear_run_matches_cpu<A: Arith>(
    program: Seq<Instruction<A::Num>>,
    at: LinearLayout,
    w: Seq<A::Num>,
    before: Machine<A::Num>,
    after: Machine<A::Num>,
    result: Result<(), Fault>,
    y: Seq<A::Num>,
)
    requires
        deterministic::<A>(),
        before.sram.len() <= usize::MAX,
        at.within(before.sram.len()),
        at.apart(),
        at.in_dim > 0,
        retiled_is(w, at.in_dim as nat, at.out_dim as nat, at.weights(before.sram)),
        linear_program_is(program, at.in_dim, at.out_dim, at.x_addr, at.w_addr, at.y_addr),
        run_is::<A>(before, program, after, result),
        y.len() == at.out_dim,
        linear_is::<A>(at.input(before.sram), w, y),
    ensures
        result is Ok,
        after.instr_count == before.instr_count + (at.in_dim / 16) * (at.out_dim / 16),
        after.sram == overwrite(before.sram, at.y_addr, y),
        at.output(after.sram) == y,
        after.dram == before.dram,
{
    law_linear_program_runs(program, at, before.sram.len() as usize, before.dram.len());
    law_linear_program::<A>(program, at, w, before, after);
    law_linear_unique::<A>(at.input(before.sram), w, at.output(after.sram), y);
    let (t, o) = (at.in_dim / 16, at.out_dim / 16);
    assert(o * t == t * o) by (nonlinear_arith);
}

/// The operands of an RMS normalisation in SRAM.
pub struct RmsnormLayout {
    pub n: int,
    pub x_addr: int,
    pub gamma_addr: int,
    pub y_addr: int,
}

/// Instruction `p` of a program for an RMS normalisation: the squares are added
/// up lane by lane in register 0, chunk by chunk; the lanes are added up, and the
/// scale goes to register 1; then each chunk is scaled and weighted.
pub open spec fn rmsnorm_instruction<T>(
    at: RmsnormLayout,
    zero: T,
    inv_n: T,
    eps: T,
    p: int,
) -> Instruction<T> {
    let chunks = at.n / 32;
    let mid = 1 + 2 * chunks;
    if p == 0 {
        Instruction::VSplat { v: 0, scalar: zero }
    } else if p < mid {
        if (p - 1) % 2 == 0 {
            Instruction::LoadVec { v: 3, sram_addr: (at.x_addr + ((p - 1) / 2) * 32) as usize }
        } else {
            Instruction::VFma { a: 3, b: 3, c: 0, d: 0 }
        }
    } else if p == mid {
        Instruction::VReduceSum { v_in: 0, v_out: 0 }
    } else if p == mid + 1 {
        Instruction::VSplat { v: 2, scalar: inv_n }
    } else if p == mid + 2 {
        Instruction::VMul { a: 0, b: 2, c: 0 }
    } else if p == mid + 3 {
        Instruction::VSplat { v: 2, scalar: eps }
    } else if p == mid + 4 {
        Instruction::VAdd { a: 0, b: 2, c: 0 }
    } else if p == mid + 5 {
        Instruction::VRsqrt { v_in: 0, v_out: 1 }
    } else {
        let q = p - (mid + 6);
        let off = (q / 5) * 32;
        if q % 5 == 0 {
            Instruction::LoadVec { v: 3, sram_addr: (at.x_addr + off) as usize }
        } else if q % 5 == 1 {
            Instruction::LoadVec { v: 4, sram_addr: (at.gamma_addr + off) as usize }
        } else if q % 5 == 2 {
            Instruction::VMul { a: 3, b: 1, c: 5 }
        } else if q % 5 == 3 {
            Instruction::VMul { a: 5, b: 4, c: 5 }
        } else {
            Instruction::StoreVec { v: 5, sram_addr: (at.y_addr + off) as usize }
        }
    }
}

/// The program for an RMS normalisation.
pub open spec fn rmsnorm_program<T>(at: RmsnormLayout, zero: T, inv_n: T, eps: T) -> Seq<
    Instruction<T>,
> {
    Seq::new(
        (7 + 7 * (at.n / 32)) as nat,
        |p: int| rmsnorm_instruction(at, zero, inv_n, eps, p),
    )
}

/// Lowers `y = rmsnorm(x, gamma, eps)`. `n` is a multiple of the vector length.
/// When the program runs, `x` lies at `x_addr` and `gamma` at `gamma_addr`, and
/// `y` goes to `y_addr`.
pub fn compile_rmsnorm<A: Arith>(
    n: usize,
    eps: A::Num,
    x_addr: usize,
    gamma_addr: usize,
    y_addr: usize,
) -> (prog: Vec<Instruction<A::Num>>)
    requires
        n % VECTOR_LANES == 0,
        n > 0 ==> x_addr + n - VECTOR_LANES <= usize::MAX,
        n > 0 ==> gamma_addr + n - VECTOR_LANES <= usize::MAX,
        n > 0 ==> y_addr + n - VECTOR_LANES <= usize::MAX,
    ensures
        exists|zero: A::Num, inv_n: A::Num|
            {
                &&& #[trigger] int_is::<A>(0, zero)
                &&& #[trigger] reciprocal_is::<A>(n as u64, inv_n)
                &&& prog@ == rmsnorm_program(
                    RmsnormLayout {
                        n: n as int,
                        x_addr: x_addr as int,
                        gamma_addr: gamma_addr as int,
                        y_addr: y_addr as int,
                    },
                    zero,
                    inv_n,
                    eps,
                )
            },
{
    let n_chunks: usize = n / VECTOR_LANES;
    let zero = A::from_i8(0);
    let inv_n = reciprocal::<A>(n as u64);
    let ghost at = RmsnormLayout {
        n: n as int,
        x_addr: x_addr as int,
        gamma_addr: gamma_addr as int,
        y_addr: y_addr as int,
    };
    let mut prog: Vec<Instruction<A::Num>> = Vec::new();
    prog.push(Instruction::VSplat { v: 0, scalar: zero });
    for i in 0..n_chunks
        invariant
            n == n_chunks * 32,
            at.n == n,
            at.x_addr == x_addr,
            n > 0 ==> x_addr + n - 32 <= usize::MAX,
            prog@.len() == 1 + 2 * i,
            forall|p: int|
                0 <= p < prog@.len() ==> #[trigger] prog@[p] == rmsnorm_instruction(
                    at,
                    zero,
                    inv_n,
                    eps,
                    p,
                ),
    {
        let off: usize = x_addr + i * VECTOR_LANES;
        prog.push(Instruction::LoadVec { v: 3, sram_addr: off });
        prog.push(Instruction::VFma { a: 3, b: 3, c: 0, d: 0 });
    }
    prog.push(Instruction::VReduceSum { v_in: 0, v_out: 0 });
    prog.push(Instruction::VSplat { v: 2, scalar: inv_n });
    prog.push(Instruction::VMul { a: 0, b: 2, c: 0 });
    prog.push(Instruction::VSplat { v: 2, scalar: eps });
    prog.push(Instruction::VAdd { a: 0, b: 2, c: 0 });
    prog.push(Instruction::VRsqrt { v_in: 0, v_out: 1 });
    for i in 0..n_chunks
        invariant
            n == n_chunks * 32,
            at.n == n,
            at.x_addr == x_addr,
            at.gamma_addr == gamma_addr,
            at.y_addr == y_addr,
            n > 0 ==> x_addr + n - 32 <= usize::MAX,
            n > 0 ==> gamma_addr + n - 32 <= usize::MAX,
            n > 0 ==> y_addr + n - 32 <= usize::MAX,
            prog@.len() == 7 + 2 * n_chunks + 5 * i,
            forall|p: int|
                0 <= p < prog@.len() ==> #[trigger] prog@[p] == rmsnorm_instruction(
                    at,
                    zero,
                    inv_n,
                    eps,
                    p,
                ),
    {
        let off: usize = i * VECTOR_LANES;
        prog.push(Instruction::LoadVec { v: 3, sram_addr: x_addr + off });
        prog.push(Instruction::LoadVec { v: 4, sram_addr: gamma_addr + off });
        prog.push(Instruction::VMul { a: 3, b: 1, c: 5 });
        prog.push(Instruction::VMul { a: 5, b: 4, c: 5 });
        prog.push(Instruction::StoreVec { v: 5, sram_addr: y_addr + off });
    }
    proof {
        assert(int_is::<A>(0, zero) && reciprocal_is::<A>(n as u64, inv_n));
        assert(prog@ =~= rmsnorm_program(at, zero, inv_n, eps));
    }
    prog
}

impl RmsnormLayout {
    /// The operands consist of whole chunks and lie within a memory of `sram`
    /// elements.
    pub open spec fn within(self, sram: nat) -> bool {
        &&& self.n >= 0
        &&& self.n % 32 == 0
        &&& self.x_addr >= 0
        &&& self.gamma_addr >= 0
        &&& self.y_addr >= 0
        &&& self.x_addr + self.n <= sram
        &&& self.gamma_addr + self.n <= sram
        &&& self.y_addr + self.n <= sram
    }

    /// No chunk of `y` is written over a part of the operand at `addr` that is
    /// still to be read: `y` begins at or before it, or behind it, or there is
    /// only one chunk.
    pub open spec fn spares(self, addr: int) -> bool {
        self.y_addr <= addr || addr + self.n <= self.y_addr || self.n <= 32
    }

    /// What lies in the memory as `x`.
    pub open spec fn input<T>(self, sram: Seq<T>) -> Seq<T> {
        sram.subrange(self.x_addr, self.x_addr + self.n)
    }

    /// What lies in the memory as `gamma`.
    pub open spec fn gamma<T>(self, sram: Seq<T>) -> Seq<T> {
        sram.subrange(self.gamma_addr, self.gamma_addr + self.n)
    }

    /// What lies in the memory as `y`.
    pub open spec fn output<T>(self, sram: Seq<T>) -> Seq<T> {
        sram.subrange(self.y_addr, self.y_addr + self.n)
    }
}

/// `r` is an outcome of adding up, from `zero`, the squares of lane `l` of the
/// first `chunks` chunks of `x`.
pub open spec fn lane_squares_is<A: Arith>(
    x: Seq<A::Num>,
    zero: A::Num,
    l: int,
    chunks: nat,
    r: A::Num,
) -> bool
    decreases chunks,
{
    if chunks == 0 {
        r == zero
    } else {
        exists|s: A::Num|
            {
                &&& lane_squares_is::<A>(x, zero, l, (chunks - 1) as nat, s)
                &&& #[trigger] fma_is::<A>(
                    x[(chunks - 1) * 32 + l],
                    x[(chunks - 1) * 32 + l],
                    s,
                    r,
                )
            }
    }
}

/// `scale` is an outcome of `1 / sqrt(sum * inv_n + eps)`, where `sum` is the sum
/// of the squares of `x`: first within each lane, then over the lanes.
pub open spec fn lane_scale_is<A: Arith>(
    x: Seq<A::Num>,
    zero: A::Num,
    inv_n: A::Num,
    eps: A::Num,
    scale: A::Num,
) -> bool {
    exists|lanes: Seq<A::Num>, sum: A::Num, mean: A::Num, shifted: A::Num|
        {
            &&& lanes.len() == 32
            &&& forall|l: int|
                0 <= l < 32 ==> lane_squares_is::<A>(
                    x,
                    zero,
                    l,
                    x.len() / 32,
                    #[trigger] lanes[l],
                )
            &&& #[trigger] total_is::<A>(lanes, sum)
            &&& #[trigger] product_is::<A>(sum, inv_n, mean)
            &&& #[trigger] sum_is::<A>(mean, eps, shifted)
            &&& rsqrt_is::<A>(shifted, scale)
        }
}

/// `r` is an outcome of `(x[i] * scale) * gamma[i]`.
pub open spec fn normalised_is<A: Arith>(
    x: Seq<A::Num>,
    gamma: Seq<A::Num>,
    zero: A::Num,
    inv_n: A::Num,
    eps: A::Num,
    i: int,
    r: A::Num,
) -> bool {
    exists|scale: A::Num|
        {
            &&& #[trigger] lane_scale_is::<A>(x, zero, inv_n, eps, scale)
            &&& product3_is::<A>(x[i], scale, gamma[i], r)
        }
}

/// A program for an RMS normalisation whose operands lie within the SRAM has no
/// fault.
pub proof fn law_rmsnorm_program_runs<T>(
    at: RmsnormLayout,
    zero: T,
    inv_n: T,
    eps: T,
    sram: usize,
    dram: nat,
)
    requires
        at.within(sram as nat),
    ensures
        runnable(sram as nat, dram, rmsnorm_program(at, zero, inv_n, eps)) == rmsnorm_program(
            at,
            zero,
            inv_n,
            eps,
        ).len(),
{
    let program = rmsnorm_program(at, zero, inv_n, eps);
    assert forall|p: int| 0 <= p < program.len() implies #[trigger] fault_of(
        sram as nat,
        dram,
        program[p],
    ) is None by {
        let c = at.n / 32;
        let q = p - (7 + 2 * c);
        assert(program[p] == rmsnorm_instruction(at, zero, inv_n, eps, p));
        assert(0 <= q ==> q / 5 < c);
        assert(0 < p < 1 + 2 * c ==> 0 <= (p - 1) / 2 < c);
    }
    lemma_all_runnable(sram as nat, dram, program);
}

/// The machine before the last of `n` instructions.
proof fn lemma_last_step<A: Arith>(
    before: Machine<A::Num>,
    program: Seq<Instruction<A::Num>>,
    n: int,
    now: Machine<A::Num>,
) -> (mid: Machine<A::Num>)
    requires
        n > 0,
        trace_is::<A>(before, program, n as nat, now),
    ensures
        trace_is::<A>(before, program, (n - 1) as nat, mid),
        step_is::<A>(mid, program[n - 1], now),
{
    choose|mid: Machine<A::Num>|
        trace_is::<A>(before, program, (n - 1) as nat, mid) && #[trigger] step_is::<A>(
            mid,
            program[n - 1],
            now,
        )
}

/// The first pass, after `i` chunks: register 0 holds the squares lane by lane.
proof fn lemma_rmsnorm_squares<A: Arith>(
    at: RmsnormLayout,
    zero: A::Num,
    inv_n: A::Num,
    eps: A::Num,
    before: Machine<A::Num>,
    now: Machine<A::Num>,
    i: int,
)
    requires
        before.shaped(),
        before.sram.len() <= usize::MAX,
        at.within(before.sram.len()),
        0 <= i <= at.n / 32,
        trace_is::<A>(before, rmsnorm_program(at, zero, inv_n, eps), (1 + 2 * i) as nat, now),
    ensures
        now.shaped(),
        now.sram == before.sram,
        now.dram == before.dram,
        now.accum == before.accum,
        forall|l: int|
            0 <= l < 32 ==> lane_squares_is::<A>(
                at.input(before.sram),
                zero,
                l,
                i as nat,
                #[trigger] now.vregs[0][l],
            ),
    decreases i,
{
    let program = rmsnorm_program(at, zero, inv_n, eps);
    let x = at.input(before.sram);
    if i == 0 {
        let mid = lemma_last_step::<A>(before, program, 1, now);
        assert(mid == before);
        assert(program[0] == rmsnorm_instruction(at, zero, inv_n, eps, 0));
    } else {
        let n = 1 + 2 * i;
        let loaded = lemma_last_step::<A>(before, program, n, now);
        let start = lemma_last_step::<A>(before, program, n - 1, loaded);
        lemma_rmsnorm_squares::<A>(at, zero, inv_n, eps, before, start, i - 1);
        assert(program[n - 2] == rmsnorm_instruction(at, zero, inv_n, eps, n - 2));
        assert(program[n - 1] == rmsnorm_instruction(at, zero, inv_n, eps, n - 1));
        assert(program[n - 2] == Instruction::<A::Num>::LoadVec {
            v: 3,
            sram_addr: (at.x_addr + (i - 1) * 32) as usize,
        });
        assert(program[n - 1] == Instruction::<A::Num>::VFma { a: 3, b: 3, c: 0, d: 0 });
        assert forall|l: int| 0 <= l < 32 implies lane_squares_is::<A>(
            x,
            zero,
            l,
            i as nat,
            #[trigger] now.vregs[0][l],
        ) by {
            let s = loaded.vregs[0][l];
            assert(s == start.vregs[0][l]);
            assert(loaded.vregs[3][l] == x[(i - 1) * 32 + l]);
            assert(fma_is::<A>(loaded.vregs[3][l], loaded.vregs[3][l], s, now.vregs[0][l]));
            assert(lane_squares_is::<A>(x, zero, l, (i - 1) as nat, s));
        }
    }
}

/// Between the passes: register 1 holds the scale.
proof fn lemma_rmsnorm_scale<A: Arith>(
    at: RmsnormLayout,
    zero: A::Num,
    inv_n: A::Num,
    eps: A::Num,
    before: Machine<A::Num>,
    now: Machine<A::Num>,
)
    requires
        before.shaped(),
        before.sram.len() <= usize::MAX,
        at.within(before.sram.len()),
        trace_is::<A>(
            before,
            rmsnorm_program(at, zero, inv_n, eps),
            (7 + 2 * (at.n / 32)) as nat,
            now,
        ),
    ensures
        now.shaped(),
        now.sram == before.sram,
        now.dram == before.dram,
        now.accum == before.accum,
        forall|l: int|
            0 <= l < 32 ==> lane_scale_is::<A>(
                at.input(before.sram),
                zero,
                inv_n,
                eps,
                #[trigger] now.vregs[1][l],
            ),
{
    let program = rmsnorm_program(at, zero, inv_n, eps);
    let x = at.input(before.sram);
    let n = 7 + 2 * (at.n / 32);
    let s5 = lemma_last_step::<A>(before, program, n, now);
    let s4 = lemma_last_step::<A>(before, program, n - 1, s5);
    let s3 = lemma_last_step::<A>(before, program, n - 2, s4);
    let s2 = lemma_last_step::<A>(before, program, n - 3, s3);
    let s1 = lemma_last_step::<A>(before, program, n - 4, s2);
    let s0 = lemma_last_step::<A>(before, program, n - 5, s1);
    lemma_rmsnorm_squares::<A>(at, zero, inv_n, eps, before, s0, at.n / 32);
    assert(program[n - 1] == Instruction::<A::Num>::VRsqrt { v_in: 0, v_out: 1 });
    assert(program[n - 2] == Instruction::<A::Num>::VAdd { a: 0, b: 2, c: 0 });
    assert(program[n - 3] == Instruction::<A::Num>::VSplat { v: 2, scalar: eps });
    assert(program[n - 4] == Instruction::<A::Num>::VMul { a: 0, b: 2, c: 0 });
    assert(program[n - 5] == Instruction::<A::Num>::VSplat { v: 2, scalar: inv_n });
    assert(program[n - 6] == Instruction::<A::Num>::VReduceSum { v_in: 0, v_out: 0 });
    let lanes = s0.vregs[0];
    let sum = s1.vregs[0][0];
    assert forall|l: int| 0 <= l < 32 implies lane_scale_is::<A>(
        x,
        zero,
        inv_n,
        eps,
        #[trigger] now.vregs[1][l],
    ) by {
        assert(s1.vregs[0][l] == sum);
        assert(s2.vregs[0][l] == sum && s2.vregs[2][l] == inv_n);
        let mean = s3.vregs[0][l];
        assert(product_is::<A>(sum, inv_n, mean));
        assert(s4.vregs[0][l] == mean && s4.vregs[2][l] == eps);
        let shifted = s5.vregs[0][l];
        assert(sum_is::<A>(mean, eps, shifted));
        assert(rsqrt_is::<A>(shifted, now.vregs[1][l]));
        assert(total_is::<A>(lanes, sum));
    }
}

/// What one chunk of the second pass does: the 32 elements at `x` are scaled by
/// register 1, weighted by those at `gamma` and written to `y`.
spec fn chunk_normalised<A: Arith>(
    pre: Machine<A::Num>,
    post: Machine<A::Num>,
    x: int,
    gamma: int,
    y: int,
) -> bool {
    &&& post.shaped()
    &&& post.dram == pre.dram
    &&& post.accum == pre.accum
    &&& post.vregs[1] == pre.vregs[1]
    &&& post.sram.len() == pre.sram.len()
    &&& forall|p: int|
        0 <= p < pre.sram.len() && !(y <= p < y + 32) ==> #[trigger] post.sram[p] == pre.sram[p]
    &&& forall|l: int|
        #![trigger post.sram[y + l]]
        0 <= l < 32 ==> product3_is::<A>(
            pre.sram[x + l],
            pre.vregs[1][l],
            pre.sram[gamma + l],
            post.sram[y + l],
        )
}

/// One chunk of the second pass.
proof fn lemma_rmsnorm_chunk<A: Arith>(
    s0: Machine<A::Num>,
    s1: Machine<A::Num>,
    s2: Machine<A::Num>,
    s3: Machine<A::Num>,
    s4: Machine<A::Num>,
    now: Machine<A::Num>,
    x: usize,
    gamma: usize,
    y: usize,
)
    requires
        s0.shaped(),
        x + 32 <= s0.sram.len(),
        gamma + 32 <= s0.sram.len(),
        y + 32 <= s0.sram.len(),
        step_is::<A>(s0, Instruction::LoadVec { v: 3, sram_addr: x }, s1),
        step_is::<A>(s1, Instruction::LoadVec { v: 4, sram_addr: gamma }, s2),
        step_is::<A>(s2, Instruction::VMul { a: 3, b: 1, c: 5 }, s3),
        step_is::<A>(s3, Instruction::VMul { a: 5, b: 4, c: 5 }, s4),
        step_is::<A>(s4, Instruction::StoreVec { v: 5, sram_addr: y }, now),
    ensures
        chunk_normalised::<A>(s0, now, x as int, gamma as int, y as int),
{
    assert forall|l: int| #![trigger now.sram[y + l]] 0 <= l < 32 implies product3_is::<A>(
        s0.sram[x + l],
        s0.vregs[1][l],
        s0.sram[gamma + l],
        now.sram[y + l],
    ) by {
        let p = s3.vregs[5][l];
        assert(s2.vregs[3] == s1.vregs[3] && s2.vregs[1] == s0.vregs[1]);
        assert(s2.vregs[3][l] == s0.sram[x + l]);
        assert(product_is::<A>(s0.sram[x + l], s0.vregs[1][l], p));
        assert(s3.vregs[4] == s2.vregs[4]);
        assert(s2.vregs[4][l] == s0.sram[gamma + l]);
        assert(product_is::<A>(p, s0.sram[gamma + l], s4.vregs[5][l]));
        assert(now.sram[y + l] == s4.vregs[5][l]);
    }
}

/// The instructions of chunk `i` of the second pass.
proof fn lemma_rmsnorm_chunk_program<T>(at: RmsnormLayout, zero: T, inv_n: T, eps: T, i: int)
    requires
        0 <= i < at.n / 32,
    ensures
        ({
            let program = rmsnorm_program(at, zero, inv_n, eps);
            let n = 7 + 2 * (at.n / 32) + 5 * i;
            let x = (at.x_addr + i * 32) as usize;
            let gamma = (at.gamma_addr + i * 32) as usize;
            let y = (at.y_addr + i * 32) as usize;
            &&& program[n] == Instruction::<T>::LoadVec { v: 3, sram_addr: x }
            &&& program[n + 1] == Instruction::<T>::LoadVec { v: 4, sram_addr: gamma }
            &&& program[n + 2] == Instruction::<T>::VMul { a: 3, b: 1, c: 5 }
            &&& program[n + 3] == Instruction::<T>::VMul { a: 5, b: 4, c: 5 }
            &&& program[n + 4] == Instruction::<T>::StoreVec { v: 5, sram_addr: y }
        }),
{
}

/// Chunk `i` of the second pass, from the machine before it.
proof fn lemma_rmsnorm_chunk_back<A: Arith>(
    at: RmsnormLayout,
    zero: A::Num,
    inv_n: A::Num,
    eps: A::Num,
    before: Machine<A::Num>,
    now: Machine<A::Num>,
    i: int,
) -> (s0: Machine<A::Num>)
    requires
        before.sram.len() <= usize::MAX,
        at.within(before.sram.len()),
        0 <= i < at.n / 32,
        trace_is::<A>(
            before,
            rmsnorm_program(at, zero, inv_n, eps),
            (7 + 2 * (at.n / 32) + 5 * i + 5) as nat,
            now,
        ),
    ensures
        trace_is::<A>(
            before,
            rmsnorm_program(at, zero, inv_n, eps),
            (7 + 2 * (at.n / 32) + 5 * i) as nat,
            s0,
        ),
        s0.shaped() && s0.sram.len() == before.sram.len() ==> chunk_normalised::<A>(
            s0,
            now,
            at.x_addr + i * 32,
            at.gamma_addr + i * 32,
            at.y_addr + i * 32,
        ),
{
    let program = rmsnorm_program(at, zero, inv_n, eps);
    lemma_rmsnorm_chunk_program(at, zero, inv_n, eps, i);
    let n = 7 + 2 * (at.n / 32) + 5 * i;
    let s4 = lemma_last_step::<A>(before, program, n + 5, now);
    let s3 = lemma_last_step::<A>(before, program, n + 4, s4);
    let s2 = lemma_last_step::<A>(before, program, n + 3, s3);
    let s1 = lemma_last_step::<A>(before, program, n + 2, s2);
    let s0 = lemma_last_step::<A>(before, program, n + 1, s1);
    if s0.shaped() && s0.sram.len() == before.sram.len() {
        lemma_rmsnorm_chunk::<A>(
            s0,
            s1,
            s2,
            s3,
            s4,
            now,
            (at.x_addr + i * 32) as usize,
            (at.gamma_addr + i * 32) as usize,
            (at.y_addr + i * 32) as usize,
        );
    }
    s0
}

/// The second pass, after `i` chunks: they are written, and nothing else.
proof fn lemma_rmsnorm_chunks<A: Arith>(
    at: RmsnormLayout,
    zero: A::Num,
    inv_n: A::Num,
    eps: A::Num,
    before: Machine<A::Num>,
    now: Machine<A::Num>,
    i: int,
)
    requires
        before.shaped(),
        before.sram.len() <= usize::MAX,
        at.within(before.sram.len()),
        at.spares(at.x_addr),
        at.spares(at.gamma_addr),
        0 <= i <= at.n / 32,
        trace_is::<A>(
            before,
            rmsnorm_program(at, zero, inv_n, eps),
            (7 + 2 * (at.n / 32) + 5 * i) as nat,
            now,
        ),
    ensures
        now.shaped(),
        now.dram == before.dram,
        now.accum == before.accum,
        now.sram.len() == before.sram.len(),
        forall|p: int|
            0 <= p < before.sram.len() && !(at.y_addr <= p < at.y_addr + i * 32)
                ==> #[trigger] now.sram[p] == before.sram[p],
        forall|k: int|
            0 <= k < i * 32 ==> #[trigger] normalised_is::<A>(
                at.input(before.sram),
                at.gamma(before.sram),
                zero,
                inv_n,
                eps,
                k,
                now.sram[at.y_addr + k],
            ),
        forall|l: int|
            0 <= l < 32 ==> lane_scale_is::<A>(
                at.input(before.sram),
                zero,
                inv_n,
                eps,
                #[trigger] now.vregs[1][l],
            ),
    decreases i,
{
    let x = at.input(before.sram);
    let gamma = at.gamma(before.sram);
    if i == 0 {
        lemma_rmsnorm_scale::<A>(at, zero, inv_n, eps, before, now);
    } else {
        let s0 = lemma_rmsnorm_chunk_back::<A>(at, zero, inv_n, eps, before, now, i - 1);
        lemma_rmsnorm_chunks::<A>(at, zero, inv_n, eps, before, s0, i - 1);
        let off = (i - 1) * 32;
        assert forall|k: int| 0 <= k < i * 32 implies #[trigger] normalised_is::<A>(
            x,
            gamma,
            zero,
            inv_n,
            eps,
            k,
            now.sram[at.y_addr + k],
        ) by {
            if k < off {
                assert(now.sram[at.y_addr + k] == s0.sram[at.y_addr + k]);
            } else {
                let l = k - off;
                let scale = s0.vregs[1][l];
                assert(s0.sram[at.x_addr + off + l] == x[k]);
                assert(s0.sram[at.gamma_addr + off + l] == gamma[k]);
                assert(now.sram[at.y_addr + off + l] == now.sram[at.y_addr + k]);
                assert(lane_scale_is::<A>(x, zero, inv_n, eps, scale));
            }
        }
    }
}

/// A program for an RMS normalisation leaves in SRAM, for each element of `x`,
/// the element times the scale of `x` times its weight, and changes no other
/// memory: wherever no chunk of `y` is written over an operand that is still to
/// be read, so also in place.
pub proof fn law_rmsnorm_program<A: Arith>(
    at: RmsnormLayout,
    zero: A::Num,
    inv_n: A::Num,
    eps: A::Num,
    before: Machine<A::Num>,
    after: Machine<A::Num>,
)
    requires
        before.shaped(),
        before.sram.len() <= usize::MAX,
        at.within(before.sram.len()),
        at.spares(at.x_addr),
        at.spares(at.gamma_addr),
        trace_is::<A>(
            before,
            rmsnorm_program(at, zero, inv_n, eps),
            rmsnorm_program(at, zero, inv_n, eps).len(),
            after,
        ),
    ensures
        forall|i: int|
            0 <= i < at.n ==> #[trigger] normalised_is::<A>(
                at.input(before.sram),
                at.gamma(before.sram),
                zero,
                inv_n,
                eps,
                i,
                at.output(after.sram)[i],
            ),
        after.sram == overwrite(before.sram, at.y_addr, at.output(after.sram)),
        after.dram == before.dram,
        after.accum == before.accum,
{
    lemma_rmsnorm_chunks::<A>(at, zero, inv_n, eps, before, after, at.n / 32);
    let y = at.output(after.sram);
    assert forall|i: int| 0 <= i < at.n implies #[trigger] normalised_is::<A>(
        at.input(before.sram),
        at.gamma(before.sram),
        zero,
        inv_n,
        eps,
        i,
        y[i],
    ) by {
        assert(y[i] == after.sram[at.y_addr + i]);
    }
    assert(after.sram =~= overwrite(before.sram, at.y_addr, y));
}

} // verus!
