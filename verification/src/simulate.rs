//! Runs compiled operations on a fresh machine.

use vstd::prelude::*;

use crate::accelerator::{trace_is, Accelerator, Instruction, Machine, MATMUL_TILE};
use crate::arith::{dot_is, int_is, mac_is, Arith};
use crate::buffer::copy_range;
use crate::compiler::{
    compile_linear, law_linear_program, law_linear_program_runs, linear_program_is, retile_weight,
    LinearLayout,
};
use crate::matmul::row;
use crate::nn::linear_is;

verus! {

/// What running a matrix-vector product on the machine gave.
pub struct LinearRun<A: Arith> {
    pub y: Vec<A::Num>,
    /// How many instructions the machine executed.
    pub instructions: u64,
}

/// Computes `y = W x` on the machine: the weights are tiled, the operands laid
/// out in SRAM one after the other, the operation compiled and run, and the
/// outputs read back. The result is what [`crate::nn::linear`] computes.
pub fn linear_on_sim<A: Arith>(x: &[A::Num], w: &[A::Num], out_dim: usize) -> (run: LinearRun<A>)
    requires
        x@.len() % (MATMUL_TILE as nat) == 0,
        out_dim % MATMUL_TILE == 0,
        w@.len() == x@.len() * out_dim,
        x@.len() + x@.len() * out_dim + out_dim <= usize::MAX,
    ensures
        run.y@.len() == out_dim,
        linear_is::<A>(x@, w@, run.y@),
        run.instructions == (out_dim / 16) * (x@.len() as int / 16),
{
    let in_dim: usize = x.len();
    let tiled: Vec<A::Num> = retile_weight(w, in_dim, out_dim);
    let w_addr: usize = in_dim;
    let y_addr: usize = in_dim + w.len();
    let mut acc: Accelerator<A> = Accelerator::new(y_addr + out_dim, 0);
    let ghost fresh = acc@;
    copy_range(&mut acc.sram, 0, x, 0, in_dim);
    copy_range(&mut acc.sram, w_addr, tiled.as_slice(), 0, tiled.len());
    let program: Vec<Instruction<A::Num>> = compile_linear(in_dim, out_dim, 0, w_addr, y_addr);
    let ghost before = acc@;
    let ghost at = LinearLayout {
        in_dim: in_dim as int,
        out_dim: out_dim as int,
        x_addr: 0,
        w_addr: w_addr as int,
        y_addr: y_addr as int,
    };
    proof {
        assert(at.input(before.sram) =~= x@);
        assert(at.weights(before.sram) =~= tiled@);
        law_linear_program_runs(program@, at, acc.sram.len(), before.dram.len());
        assert(program.len() <= u64::MAX);
    }
    let result = acc.run(program.as_slice());
    assert(result is Ok);
    let instructions: u64 = acc.instr_count;
    let mut y: Vec<A::Num> = Vec::with_capacity(out_dim);
    proof {
        if in_dim > 0 {
            law_linear_program::<A>(program@, at, w@, before, acc@);
        } else {
            assert(0 * out_dim == 0) by (nonlinear_arith);
            assert(before.sram =~= fresh.sram);
            lemma_no_input::<A>(x@, w@, fresh, at, before, acc@, program@);
        }
    }
    for j in 0..out_dim
        invariant
            y_addr + out_dim <= acc.sram.len(),
            y@ == acc.sram@.subrange(y_addr as int, y_addr + j),
    {
        y.push(acc.sram[y_addr + j]);
        assert(y@ =~= acc.sram@.subrange(y_addr as int, y_addr + j + 1));
    }
    LinearRun { y, instructions }
}

/// Without inputs the outputs are the zeros of a fresh machine.
proof fn lemma_no_input<A: Arith>(
    x: Seq<A::Num>,
    w: Seq<A::Num>,
    fresh: Machine<A::Num>,
    at: LinearLayout,
    before: Machine<A::Num>,
    after: Machine<A::Num>,
    program: Seq<Instruction<A::Num>>,
)
    requires
        x.len() == 0,
        at.in_dim == 0,
        at.within(before.sram.len()),
        before.sram == fresh.sram,
        exists|zero: A::Num|
            #[trigger] int_is::<A>(0, zero) && fresh.sram == Seq::new(
                fresh.sram.len(),
                |i: int| zero,
            ),
        linear_program_is(program, at.in_dim, at.out_dim, at.x_addr, at.w_addr, at.y_addr),
        trace_is::<A>(before, program, program.len(), after),
    ensures
        linear_is::<A>(x, w, at.output(after.sram)),
        after.sram.len() == before.sram.len(),
{
    assert((at.out_dim / 16) * 0 == 0) by (nonlinear_arith);
    assert(after == before);
    let zero = choose|zero: A::Num|
        #[trigger] int_is::<A>(0, zero) && fresh.sram == Seq::new(
            fresh.sram.len(),
            |i: int| zero,
        );
    let y = at.output(after.sram);
    assert forall|j: int| 0 <= j < y.len() implies dot_is::<A>(
        x,
        row(w, x.len(), j),
        #[trigger] y[j],
    ) by {
        assert(y[j] == zero);
        assert(mac_is::<A>(zero, x, row(w, x.len(), j), 0, y[j]));
    }
}

} // verus!
