//! What compiled programs leave in memory, written out.

use vstd::prelude::*;

use crate::accelerator::{run_is, Fault, Instruction, Machine};
use crate::arith::{fma_is, int_is, product_is, reciprocal_is, sum_is, total_is, Arith};
use crate::compiler::{
    lane_scale_is, lane_squares_is, law_linear_program, law_linear_program_runs,
    law_rmsnorm_program, law_rmsnorm_program_runs, linear_program_is, linear_tile, normalised_is,
    retiled_is, rmsnorm_program, tiled_index, LinearLayout, RmsnormLayout,
};
use crate::nn::product3_is;
use crate::plain::{follows, law_linear_written_out, lemma_rsqrt, lemma_total, Ops};

verus! {

/// Tiles of 16 by 16 weights stand one after the other, those of the same 16 outputs
/// together. In tile `(a, b)` the weight of input `b * 16 + k` for output
/// `a * 16 + j` stands at place `k * 16 + j`.
pub proof fn law_tiles_written_out<T>(
    w: Seq<T>,
    in_tiles: nat,
    out_tiles: nat,
    tiled: Seq<T>,
    a: int,
    b: int,
    k: int,
    j: int,
)
    requires
        retiled_is(w, in_tiles * 16, out_tiles * 16, tiled),
        0 <= a < out_tiles,
        0 <= b < in_tiles,
        0 <= k < 16,
        0 <= j < 16,
    ensures
        tiled.len() == (in_tiles * 16) * (out_tiles * 16),
        tiled[(a * in_tiles + b) * 256 + k * 16 + j] == w[(a * 16 + j) * (in_tiles * 16) + b * 16
            + k],
{
    let (row, col) = (a * 16 + j, b * 16 + k);
    assert(row / 16 == a && row % 16 == j);
    assert(col / 16 == b && col % 16 == k);
    assert((in_tiles * 16) / 16 == in_tiles);
    assert(tiled_index((in_tiles * 16) as int, row, col) == (a * in_tiles + b) * 256 + k * 16 + j);
}

/// A program for a matrix-vector product has one instruction per tile of weights,
/// in the order of the tiles. Each multiplies its tile with its 16 inputs, into
/// its 16 outputs; the first of an output overwrites, the others add.
pub proof fn law_linear_program_written_out<T>(
    program: Seq<Instruction<T>>,
    in_tiles: nat,
    out_tiles: nat,
    x_addr: int,
    w_addr: int,
    y_addr: int,
    a: int,
    b: int,
)
    requires
        linear_program_is(
            program,
            in_tiles * 16int,
            out_tiles * 16int,
            x_addr,
            w_addr,
            y_addr,
        ),
        0 <= a < out_tiles,
        0 <= b < in_tiles,
    ensures
        program.len() == out_tiles * in_tiles,
        program[a * in_tiles + b] == (Instruction::<T>::MatVecTile {
            x_sram: (x_addr + b * 16) as usize,
            w_sram: (w_addr + (a * in_tiles + b) * 256) as usize,
            y_sram: (y_addr + a * 16) as usize,
            accumulate: b > 0,
        }),
{
    assert((in_tiles * 16) as int / 16 == in_tiles);
    assert((out_tiles * 16) as int / 16 == out_tiles);
    assert(program[a * in_tiles + b] == linear_tile::<T>(
        (in_tiles * 16) as int / 16,
        x_addr,
        w_addr,
        y_addr,
        a,
        b,
    ));
}

/// Running a program for a matrix-vector product leaves at `y_addr`, for each
/// output, the sum of the products of all inputs with the weights of its row, and
/// no other place changes.
#[verifier::rlimit(50)]
pub proof fn law_linear_run_written_out<A: Arith>(
    o: Ops<A::Num>,
    program: Seq<Instruction<A::Num>>,
    in_dim: nat,
    out_dim: nat,
    x_addr: nat,
    w_addr: nat,
    y_addr: nat,
    w: Seq<A::Num>,
    before: Machine<A::Num>,
    after: Machine<A::Num>,
    result: Result<(), Fault>,
)
    requires
        follows::<A>(o),
        before.sram.len() <= usize::MAX,
        in_dim > 0,
        in_dim % 16 == 0,
        out_dim % 16 == 0,
        x_addr + in_dim <= before.sram.len(),
        w_addr + in_dim * out_dim <= before.sram.len(),
        y_addr + out_dim <= before.sram.len(),
        y_addr + out_dim <= x_addr || x_addr + in_dim <= y_addr,
        y_addr + out_dim <= w_addr || w_addr + in_dim * out_dim <= y_addr,
        retiled_is(
            w,
            in_dim,
            out_dim,
            before.sram.subrange(w_addr as int, (w_addr + in_dim * out_dim) as int),
        ),
        linear_program_is(
            program,
            in_dim as int,
            out_dim as int,
            x_addr as int,
            w_addr as int,
            y_addr as int,
        ),
        run_is::<A>(before, program, after, result),
    ensures
        result == Ok::<(), Fault>(()),
        after == (Machine {
            sram: Seq::new(
                before.sram.len(),
                |p: int|
                    if y_addr <= p < y_addr + out_dim {
                        Seq::new(
                            in_dim,
                            |i: int|
                                (o.times)(before.sram[x_addr + i], w[(p - y_addr) * in_dim + i]),
                        ).fold_left((o.int)(0), o.plus)
                    } else {
                        before.sram[p]
                    },
            ),
            instr_count: before.instr_count + program.len(),
            ..before
        }),
{
    let at = LinearLayout {
        in_dim: in_dim as int,
        out_dim: out_dim as int,
        x_addr: x_addr as int,
        w_addr: w_addr as int,
        y_addr: y_addr as int,
    };
    law_linear_program_runs(program, at, before.sram.len() as usize, before.dram.len());
    law_linear_program::<A>(program, at, w, before, after);
    let x = at.input(before.sram);
    let y = at.output(after.sram);
    let plain = Seq::new(
        before.sram.len(),
        |p: int|
            if y_addr <= p < y_addr + out_dim {
                Seq::new(
                    in_dim,
                    |i: int| (o.times)(before.sram[x_addr + i], w[(p - y_addr) * in_dim + i]),
                ).fold_left((o.int)(0), o.plus)
            } else {
                before.sram[p]
            },
    );
    assert forall|p: int| 0 <= p < before.sram.len() implies #[trigger] after.sram[p]
        == plain[p] by {
        if y_addr <= p < y_addr + out_dim {
            let j = p - y_addr;
            law_linear_written_out::<A>(o, x, w, y, j);
            assert(Seq::new(x.len(), |i: int| (o.times)(x[i], w[j * x.len() + i]))
                =~= Seq::new(
                in_dim,
                |i: int| (o.times)(before.sram[x_addr + i], w[j * in_dim + i]),
            ));
            assert(y[j] == after.sram[p]);
        }
    }
    assert(after.sram =~= plain);
}

/// The squares of one lane, added up.
proof fn lemma_lane_folds<A: Arith>(
    o: Ops<A::Num>,
    x: Seq<A::Num>,
    zero: A::Num,
    l: int,
    chunks: nat,
    r: A::Num,
)
    requires
        follows::<A>(o),
        lane_squares_is::<A>(x, zero, l, chunks, r),
    ensures
        r == Seq::new(chunks, |c: int| (o.times)(x[c * 32 + l], x[c * 32 + l])).fold_left(
            zero,
            |s: A::Num, square: A::Num| (o.plus)(square, s),
        ),
    decreases chunks,
{
    if chunks > 0 {
        let m = (chunks - 1) as nat;
        let s = choose|s: A::Num|
            {
                &&& lane_squares_is::<A>(x, zero, l, m, s)
                &&& #[trigger] fma_is::<A>(
                    x[(chunks - 1) * 32 + l],
                    x[(chunks - 1) * 32 + l],
                    s,
                    r,
                )
            };
        lemma_lane_folds::<A>(o, x, zero, l, m, s);
        assert(Seq::new(
            chunks,
            |c: int| (o.times)(x[c * 32 + l], x[c * 32 + l]),
        ).drop_last() =~= Seq::new(m, |c: int| (o.times)(x[c * 32 + l], x[c * 32 + l])));
    }
}

/// Running a program for an RMS normalisation leaves at `y_addr` each element times
/// the scale times its weight, and no other place of the memory changes. The scale
/// comes of the squares of all elements, added up within each of 32 lanes and then
/// over the lanes.
#[verifier::rlimit(50)]
pub proof fn law_rmsnorm_run_written_out<A: Arith>(
    o: Ops<A::Num>,
    at: RmsnormLayout,
    zero: A::Num,
    inv_n: A::Num,
    eps: A::Num,
    before: Machine<A::Num>,
    after: Machine<A::Num>,
    result: Result<(), Fault>,
)
    requires
        follows::<A>(o),
        int_is::<A>(0, zero),
        reciprocal_is::<A>(at.n as u64, inv_n),
        before.shaped(),
        before.sram.len() <= usize::MAX,
        0 <= at.n,
        at.n % 32 == 0,
        0 <= at.x_addr,
        0 <= at.gamma_addr,
        0 <= at.y_addr,
        at.x_addr + at.n <= before.sram.len(),
        at.gamma_addr + at.n <= before.sram.len(),
        at.y_addr + at.n <= before.sram.len(),
        at.y_addr <= at.x_addr || at.x_addr + at.n <= at.y_addr || at.n <= 32,
        at.y_addr <= at.gamma_addr || at.gamma_addr + at.n <= at.y_addr
            || at.n <= 32,
        run_is::<A>(before, rmsnorm_program(at, zero, inv_n, eps), after, result),
    ensures
        result == Ok::<(), Fault>(()),
        ({
            let lanes = Seq::new(
                32,
                |l: int|
                    Seq::new(
                        (at.n / 32) as nat,
                        |c: int|
                            (o.times)(
                                before.sram[at.x_addr + (c * 32 + l)],
                                before.sram[at.x_addr + (c * 32 + l)],
                            ),
                    ).fold_left(
                        (o.int)(0),
                        |s: A::Num, square: A::Num| (o.plus)(square, s),
                    ),
            );
            let mean = (o.times)(
                lanes.fold_left(o.empty, o.plus),
                (o.over)((o.int)(1), (o.count)(at.n as u64)),
            );
            let scale = (o.over)((o.int)(1), (o.sqrt)((o.plus)(mean, eps)));
            after.sram == Seq::new(
                before.sram.len(),
                |p: int|
                    if at.y_addr <= p < at.y_addr + at.n {
                        (o.times)(
                            (o.times)(before.sram[at.x_addr + (p - at.y_addr)], scale),
                            before.sram[at.gamma_addr + (p - at.y_addr)],
                        )
                    } else {
                        before.sram[p]
                    },
            )
        }),
        after.dram == before.dram,
        after.accum == before.accum,
{
    law_rmsnorm_program_runs(at, zero, inv_n, eps, before.sram.len() as usize, before.dram.len());
    law_rmsnorm_program::<A>(at, zero, inv_n, eps, before, after);
    let x = at.input(before.sram);
    let gamma = at.gamma(before.sram);
    let y = at.output(after.sram);
    let plain = Seq::new(
        32,
        |l: int|
            Seq::new(
                (at.n / 32) as nat,
                |c: int|
                    (o.times)(
                        before.sram[at.x_addr + (c * 32 + l)],
                        before.sram[at.x_addr + (c * 32 + l)],
                    ),
            ).fold_left((o.int)(0), |s: A::Num, square: A::Num| (o.plus)(square, s)),
    );
    let mean = (o.times)(
        plain.fold_left(o.empty, o.plus),
        (o.over)((o.int)(1), (o.count)(at.n as u64)),
    );
    let root = (o.over)((o.int)(1), (o.sqrt)((o.plus)(mean, eps)));
    assert forall|p: int| at.y_addr <= p < at.y_addr + at.n implies #[trigger] after.sram[p] == (
    o.times)(
        (o.times)(before.sram[at.x_addr + (p - at.y_addr)], root),
        before.sram[at.gamma_addr + (p - at.y_addr)],
    ) by {
        let i = p - at.y_addr;
        assert(y[i] == after.sram[p]);
        assert(normalised_is::<A>(x, gamma, zero, inv_n, eps, i, y[i]));
        let scale = choose|scale: A::Num|
            {
                &&& #[trigger] lane_scale_is::<A>(x, zero, inv_n, eps, scale)
                &&& product3_is::<A>(x[i], scale, gamma[i], y[i])
            };
        let (lanes, sum, shifted_mean, shifted) = choose|
            lanes: Seq<A::Num>,
            sum: A::Num,
            mean: A::Num,
            shifted: A::Num,
        |
            {
                &&& lanes.len() == 32
                &&& forall|l: int|
                    0 <= l < 32 ==> lane_squares_is::<A>(
                        x,
                        zero,
                        l,
                        x.len() / 32,
                        #[trigger] lanes[l],
                    )
                &&& #[trigger] total_is::<A>(lanes, sum)
                &&& #[trigger] product_is::<A>(sum, inv_n, mean)
                &&& #[trigger] sum_is::<A>(mean, eps, shifted)
                &&& crate::arith::rsqrt_is::<A>(shifted, scale)
            };
        assert forall|l: int| 0 <= l < 32 implies #[trigger] lanes[l] == plain[l] by {
            lemma_lane_folds::<A>(o, x, zero, l, x.len() / 32, lanes[l]);
            assert(Seq::new(
                x.len() / 32,
                |c: int| (o.times)(x[c * 32 + l], x[c * 32 + l]),
            ) =~= Seq::new(
                (at.n / 32) as nat,
                |c: int|
                    (o.times)(
                        before.sram[at.x_addr + (c * 32 + l)],
                        before.sram[at.x_addr + (c * 32 + l)],
                    ),
            ));
        }
        assert(lanes =~= plain);
        lemma_total::<A>(o, lanes, sum);
        lemma_rsqrt::<A>(o, shifted, scale);
        assert(scale == root);
    }
}

} // verus!
