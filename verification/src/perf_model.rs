//! A latency-based performance model of the accelerator.
//!
//! Each instruction has a fixed latency in cycles. Matrix instructions run in
//! parallel on a number of pipes; the others share one port. A program takes the
//! longer of the two times. Hazards, contention and stalls are not modelled.

use vstd::prelude::*;

use crate::accelerator::Instruction;
use crate::arith::{count_is, int_is, product_is, quotient_is, Arith};

verus! {

/// `a / b`, rounded up.
pub open spec fn ceil_div(a: int, b: int) -> int {
    (a + b - 1) / b
}

/// `a / b`, rounded up.
fn div_ceil(a: u64, b: u64) -> (r: u64)
    requires
        b > 0,
    ensures
        r == ceil_div(a as int, b as int),
{
    let (q, rest) = (a / b, a % b);
    proof {
        let (a, b, q, rest) = (a as int, b as int, q as int, rest as int);
        vstd::arithmetic::div_mod::lemma_fundamental_div_mod(a, b);
        let up: int = if rest > 0 {
            1
        } else {
            0
        };
        assert(a + b - 1 == (q + up) * b + (rest + b - 1 - up * b)) by (nonlinear_arith)
            requires
                a == b * q + rest,
        ;
        assert(up * b == (if rest > 0 {
            b
        } else {
            0
        })) by (nonlinear_arith)
            requires
                up == (if rest > 0 {
                    1int
                } else {
                    0
                }),
        ;
        vstd::arithmetic::div_mod::lemma_fundamental_div_mod_converse(
            a + b - 1,
            b,
            q + up,
            rest + b - 1 - up * b,
        );
        assert(rest > 0 ==> q < u64::MAX) by (nonlinear_arith)
            requires
                a == b * q + rest,
                a <= u64::MAX,
                b > 0,
        ;
    }
    if rest > 0 {
        q + 1
    } else {
        q
    }
}

/// The latency of an instruction, in cycles: simple vector instructions take one,
/// reductions over the lanes 4, transcendental functions 8, a tile of the matrix
/// unit 16; a DRAM transfer takes 100, and one per burst of 32 elements.
pub open spec fn cost_of<T>(instr: Instruction<T>) -> int {
    match instr {
        Instruction::LoadVec { .. } | Instruction::StoreVec { .. } => 1,
        Instruction::VAdd { .. }
        | Instruction::VMul { .. }
        | Instruction::VFma { .. }
        | Instruction::VMax { .. }
        | Instruction::VSplat { .. }
        | Instruction::VSwapPairs { .. }
        | Instruction::VBroadcastLane { .. } => 1,
        Instruction::VReduceSum { .. } | Instruction::VReduceMax { .. } => 4,
        Instruction::VSilu { .. } | Instruction::VRsqrt { .. } | Instruction::VExp { .. } => 8,
        Instruction::MatAccumClear | Instruction::MatAccumStore { .. } => 1,
        Instruction::MatMulTile { .. } | Instruction::MatVecTile { .. } => 16,
        Instruction::LoadDram { len, .. } | Instruction::StoreDram { len, .. } => 100 + ceil_div(
            len as int,
            32,
        ),
    }
}

/// The latency of an instruction, in cycles.
pub fn cycle_cost<T>(instr: &Instruction<T>) -> (cycles: u64)
    ensures
        cycles == cost_of(*instr),
{
    match instr {
        Instruction::LoadVec { .. } | Instruction::StoreVec { .. } => 1,
        Instruction::VAdd { .. }
        | Instruction::VMul { .. }
        | Instruction::VFma { .. }
        | Instruction::VMax { .. }
        | Instruction::VSplat { .. }
        | Instruction::VSwapPairs { .. }
        | Instruction::VBroadcastLane { .. } => 1,
        Instruction::VReduceSum { .. } | Instruction::VReduceMax { .. } => 4,
        Instruction::VSilu { .. } | Instruction::VRsqrt { .. } | Instruction::VExp { .. } => 8,
        Instruction::MatAccumClear | Instruction::MatAccumStore { .. } => 1,
        Instruction::MatMulTile { .. } | Instruction::MatVecTile { .. } => 16,
        Instruction::LoadDram { len, .. } | Instruction::StoreDram { len, .. } => 100 + div_ceil(
            *len as u64,
            32,
        ),
    }
}

/// The instruction runs on a pipe of the matrix unit.
pub open spec fn on_matrix_pipe<T>(instr: Instruction<T>) -> bool {
    instr is MatMulTile || instr is MatVecTile
}

/// The cycles of those of the first `n` instructions that run on the matrix
/// pipes, or of those that do not.
pub open spec fn cycles_on<T>(program: Seq<Instruction<T>>, n: nat, matrix: bool) -> int
    decreases n,
{
    if n == 0 {
        0
    } else {
        cycles_on(program, (n - 1) as nat, matrix) + (if on_matrix_pipe(program[n - 1]) == matrix {
            cost_of(program[n - 1])
        } else {
            0
        })
    }
}

/// The cycles that a program takes on `pipes` matrix pipes.
pub open spec fn predicted<T>(program: Seq<Instruction<T>>, pipes: int) -> int {
    let compute = ceil_div(cycles_on(program, program.len(), true), pipes);
    let other = cycles_on(program, program.len(), false);
    if compute > other {
        compute
    } else {
        other
    }
}

/// Cycles add up and never get fewer.
pub proof fn lemma_cycles_grow<T>(program: Seq<Instruction<T>>, m: nat, n: nat, matrix: bool)
    requires
        m <= n,
    ensures
        0 <= cycles_on(program, m, matrix) <= cycles_on(program, n, matrix),
    decreases n,
{
    if n > 0 {
        let last = cost_of(program[n - 1]);
        assert(last >= 0);
        if m < n {
            lemma_cycles_grow(program, m, (n - 1) as nat, matrix);
        } else {
            lemma_cycles_grow(program, (n - 1) as nat, (n - 1) as nat, matrix);
        }
    }
}

/// A hardware configuration.
pub struct PipelineModel<A: Arith> {
    pub clock_ghz: A::Num,
    pub n_matmul_pipes: u32,
}

impl<A: Arith> Clone for PipelineModel<A> {
    fn clone(&self) -> (m: Self)
        ensures
            m == *self,
    {
        PipelineModel { clock_ghz: self.clock_ghz, n_matmul_pipes: self.n_matmul_pipes }
    }
}

impl<A: Arith> Copy for PipelineModel<A> {

}

/// `ms` is an outcome of `cycles / (clock_ghz * 1e9) * 1000`.
pub open spec fn milliseconds_are<A: Arith>(cycles: u64, clock_ghz: A::Num, ms: A::Num) -> bool {
    exists|count: A::Num, giga: A::Num, hertz: A::Num, seconds: A::Num, thousand: A::Num|
        {
            &&& count_is::<A>(cycles, count)
            &&& count_is::<A>(1_000_000_000, giga)
            &&& #[trigger] product_is::<A>(clock_ghz, giga, hertz)
            &&& #[trigger] quotient_is::<A>(count, hertz, seconds)
            &&& count_is::<A>(1000, thousand)
            &&& #[trigger] product_is::<A>(seconds, thousand, ms)
        }
}

impl<A: Arith> PipelineModel<A> {
    /// How many cycles a program takes.
    pub fn predict_cycles<T>(&self, program: &[Instruction<T>]) -> (cycles: u64)
        requires
            self.n_matmul_pipes >= 1,
            cycles_on(program@, program@.len(), true) <= u64::MAX,
            cycles_on(program@, program@.len(), false) <= u64::MAX,
        ensures
            cycles == predicted(program@, self.n_matmul_pipes as int),
    {
        let mut compute_cycles: u64 = 0;
        let mut other_cycles: u64 = 0;
        for i in 0..program.len()
            invariant
                cycles_on(program@, program@.len(), true) <= u64::MAX,
                cycles_on(program@, program@.len(), false) <= u64::MAX,
                compute_cycles == cycles_on(program@, i as nat, true),
                other_cycles == cycles_on(program@, i as nat, false),
        {
            proof {
                lemma_cycles_grow(program@, (i + 1) as nat, program@.len(), true);
                lemma_cycles_grow(program@, (i + 1) as nat, program@.len(), false);
            }
            let cost = cycle_cost(&program[i]);
            match &program[i] {
                Instruction::MatMulTile { .. } | Instruction::MatVecTile { .. } => {
                    compute_cycles = compute_cycles + cost;
                },
                _ => {
                    other_cycles = other_cycles + cost;
                },
            }
        }
        let compute_per_pipe = div_ceil(compute_cycles, self.n_matmul_pipes as u64);
        if compute_per_pipe > other_cycles {
            compute_per_pipe
        } else {
            other_cycles
        }
    }

    /// How many milliseconds a program takes.
    pub fn predict_ms<T>(&self, program: &[Instruction<T>]) -> (ms: A::Num)
        requires
            self.n_matmul_pipes >= 1,
            cycles_on(program@, program@.len(), true) <= u64::MAX,
            cycles_on(program@, program@.len(), false) <= u64::MAX,
        ensures
            milliseconds_are::<A>(
                predicted(program@, self.n_matmul_pipes as int) as u64,
                self.clock_ghz,
                ms,
            ),
    {
        let cycles = self.predict_cycles(program);
        let count = A::from_u64(cycles);
        let giga = A::from_u64(1_000_000_000);
        let hertz = A::times(self.clock_ghz, giga);
        let seconds = A::divide(count, hertz);
        let thousand = A::from_u64(1000);
        let ms = A::times(seconds, thousand);
        assert(product_is::<A>(self.clock_ghz, giga, hertz));
        assert(quotient_is::<A>(count, hertz, seconds));
        assert(product_is::<A>(seconds, thousand, ms));
        ms
    }
}

/// A toy chip: 1 GHz, one matrix pipe.
pub fn toy_1g_1p<A: Arith>() -> (m: PipelineModel<A>)
    ensures
        int_is::<A>(1, m.clock_ghz),
        m.n_matmul_pipes == 1,
{
    PipelineModel { clock_ghz: A::from_i8(1), n_matmul_pipes: 1 }
}

/// A mid-range chip: 1 GHz, four matrix pipes.
pub fn midrange_1g_4p<A: Arith>() -> (m: PipelineModel<A>)
    ensures
        int_is::<A>(1, m.clock_ghz),
        m.n_matmul_pipes == 4,
{
    PipelineModel { clock_ghz: A::from_i8(1), n_matmul_pipes: 4 }
}

/// A large chip: 2 GHz, sixteen matrix pipes.
pub fn trainium_2g_16p<A: Arith>() -> (m: PipelineModel<A>)
    ensures
        int_is::<A>(2, m.clock_ghz),
        m.n_matmul_pipes == 16,
{
    PipelineModel { clock_ghz: A::from_i8(2), n_matmul_pipes: 16 }
}

/// More matrix pipes never make a program slower.
pub proof fn law_more_pipes<T>(program: Seq<Instruction<T>>, p: int, q: int)
    requires
        1 <= p <= q,
    ensures
        predicted(program, q) <= predicted(program, p),
{
    let c = cycles_on(program, program.len(), true);
    lemma_cycles_grow(program, program.len(), program.len(), true);
    let (cp, cq) = (ceil_div(c, p), ceil_div(c, q));
    vstd::arithmetic::div_mod::lemma_fundamental_div_mod(c + p - 1, p);
    vstd::arithmetic::div_mod::lemma_fundamental_div_mod(c + q - 1, q);
    vstd::arithmetic::div_mod::lemma_mod_bound(c + p - 1, p);
    vstd::arithmetic::div_mod::lemma_mod_bound(c + q - 1, q);
    assert(cq <= cp) by (nonlinear_arith)
        requires
            1 <= p <= q,
            0 <= c,
            c + p - 1 == p * cp + (c + p - 1) % p,
            0 <= (c + p - 1) % p < p,
            c + q - 1 == q * cq + (c + q - 1) % q,
            0 <= (c + q - 1) % q < q,
    ;
}

/// A program without matrix instructions takes the same time on any number of
/// matrix pipes: the sum of its latencies.
pub proof fn law_pipes_only_help_matrix<T>(program: Seq<Instruction<T>>, pipes: int)
    requires
        1 <= pipes,
        forall|i: int| 0 <= i < program.len() ==> !on_matrix_pipe(#[trigger] program[i]),
    ensures
        predicted(program, pipes) == cycles_on(program, program.len(), false),
{
    lemma_no_matrix_cycles(program, program.len());
    lemma_cycles_grow(program, program.len(), program.len(), false);
    vstd::arithmetic::div_mod::lemma_basic_div(pipes - 1, pipes);
}

/// Without matrix instructions no cycles are spent on the matrix pipes.
proof fn lemma_no_matrix_cycles<T>(program: Seq<Instruction<T>>, n: nat)
    requires
        n <= program.len(),
        forall|i: int| 0 <= i < program.len() ==> !on_matrix_pipe(#[trigger] program[i]),
    ensures
        cycles_on(program, n, true) == 0,
    decreases n,
{
    if n > 0 {
        lemma_no_matrix_cycles(program, (n - 1) as nat);
    }
}

/// A program of tile instructions of the matrix unit takes 16 cycles for each,
/// spread over the pipes.
pub proof fn law_tiles_spread_over_pipes<T>(program: Seq<Instruction<T>>, pipes: int)
    requires
        1 <= pipes,
        forall|i: int| 0 <= i < program.len() ==> on_matrix_pipe(#[trigger] program[i]),
    ensures
        predicted(program, pipes) == ceil_div(16 * (program.len() as int), pipes),
{
    lemma_all_matrix_cycles(program, program.len());
    vstd::arithmetic::div_mod::lemma_div_pos_is_pos(16 * (program.len() as int) + pipes - 1, pipes);
}

/// Where all instructions are tile instructions, all cycles are spent on the
/// matrix pipes.
proof fn lemma_all_matrix_cycles<T>(program: Seq<Instruction<T>>, n: nat)
    requires
        n <= program.len(),
        forall|i: int| 0 <= i < program.len() ==> on_matrix_pipe(#[trigger] program[i]),
    ensures
        cycles_on(program, n, true) == 16 * n,
        cycles_on(program, n, false) == 0,
    decreases n,
{
    if n > 0 {
        lemma_all_matrix_cycles(program, (n - 1) as nat);
    }
}

/// The cycles of two programs, one after the other, add up on either kind of pipe;
/// an instruction costs its latency on the pipe that it runs on, and nothing on the
/// other; and nothing takes no time.
pub proof fn law_cycles_add_up<T>(
    first: Seq<Instruction<T>>,
    second: Seq<Instruction<T>>,
    instr: Instruction<T>,
    matrix: bool,
)
    ensures
        cycles_on(first + second, (first + second).len(), matrix) == cycles_on(
            first,
            first.len(),
            matrix,
        ) + cycles_on(second, second.len(), matrix),
        cycles_on(seq![instr], 1, matrix) == (if matrix == (instr is MatMulTile
            || instr is MatVecTile) {
            cost_of(instr)
        } else {
            0
        }),
        cycles_on(Seq::<Instruction<T>>::empty(), 0, matrix) == 0,
        cost_of(instr) > 0,
{
    lemma_cycles_same(first + second, first, first.len(), matrix);
    lemma_cycles_behind(first, second, second.len(), matrix);
    assert(cycles_on(seq![instr], 0, matrix) == 0);
    if let Instruction::LoadDram { len, .. } = instr {
        vstd::arithmetic::div_mod::lemma_div_pos_is_pos(len + 31, 32);
    }
    if let Instruction::StoreDram { len, .. } = instr {
        vstd::arithmetic::div_mod::lemma_div_pos_is_pos(len + 31, 32);
    }
}

/// Cycles depend only on the instructions that they count.
proof fn lemma_cycles_same<T>(
    a: Seq<Instruction<T>>,
    b: Seq<Instruction<T>>,
    n: nat,
    matrix: bool,
)
    requires
        n <= a.len(),
        n <= b.len(),
        forall|i: int| 0 <= i < n ==> #[trigger] a[i] == b[i],
    ensures
        cycles_on(a, n, matrix) == cycles_on(b, n, matrix),
    decreases n,
{
    if n > 0 {
        lemma_cycles_same(a, b, (n - 1) as nat, matrix);
        assert(a[n - 1] == b[n - 1]);
    }
}

/// The cycles of the first `n` instructions behind a program.
proof fn lemma_cycles_behind<T>(
    first: Seq<Instruction<T>>,
    second: Seq<Instruction<T>>,
    n: nat,
    matrix: bool,
)
    requires
        n <= second.len(),
    ensures
        cycles_on(first + second, first.len() + n, matrix) == cycles_on(
            first,
            first.len(),
            matrix,
        ) + cycles_on(second, n, matrix),
    decreases n,
{
    if n == 0 {
        lemma_cycles_same(first + second, first, first.len(), matrix);
    } else {
        lemma_cycles_behind(first, second, (n - 1) as nat, matrix);
        assert((first + second)[first.len() + n - 1] == second[n - 1]);
    }
}

/// A program takes as long as the slower of its two kinds of work, and no longer:
/// enough cycles for the matrix instructions on all pipes together, enough for the
/// others, and with one cycle less one of the two would not fit.
pub proof fn law_prediction_is_the_longer_time<T>(program: Seq<Instruction<T>>, pipes: int)
    requires
        1 <= pipes,
    ensures
        ({
            let t = predicted(program, pipes);
            let compute = cycles_on(program, program.len(), true);
            let other = cycles_on(program, program.len(), false);
            &&& 0 <= t
            &&& compute <= t * pipes
            &&& other <= t
            &&& t > 0 ==> (t - 1) * pipes < compute || t - 1 < other
        }),
{
    let compute = cycles_on(program, program.len(), true);
    let q = ceil_div(compute, pipes);
    lemma_cycles_grow(program, program.len(), program.len(), true);
    lemma_cycles_grow(program, program.len(), program.len(), false);
    vstd::arithmetic::div_mod::lemma_fundamental_div_mod(compute + pipes - 1, pipes);
    vstd::arithmetic::div_mod::lemma_mod_bound(compute + pipes - 1, pipes);
    let rest = (compute + pipes - 1) % pipes;
    assert(compute <= q * pipes && (q - 1) * pipes < compute && q >= 0) by (nonlinear_arith)
        requires
            0 <= compute,
            1 <= pipes,
            compute + pipes - 1 == pipes * q + rest,
            0 <= rest < pipes,
    ;
    let t = predicted(program, pipes);
    assert(q <= t ==> q * pipes <= t * pipes) by (nonlinear_arith)
        requires
            1 <= pipes,
    ;
}

/// Instructions never make a program faster: one that is run before or behind
/// another takes nothing from its time, and the two take no longer together than
/// one after the other. The order of the two does not matter.
pub proof fn law_more_instructions_take_longer<T>(
    first: Seq<Instruction<T>>,
    second: Seq<Instruction<T>>,
    pipes: int,
)
    requires
        1 <= pipes,
    ensures
        predicted(first, pipes) <= predicted(first + second, pipes),
        predicted(second, pipes) <= predicted(first + second, pipes),
        predicted(first + second, pipes) <= predicted(first, pipes) + predicted(second, pipes),
        predicted(first + second, pipes) == predicted(second + first, pipes),
{
    let any = Instruction::MatAccumClear::<T>;
    law_cycles_add_up(first, second, any, true);
    law_cycles_add_up(first, second, any, false);
    law_cycles_add_up(second, first, any, true);
    law_cycles_add_up(second, first, any, false);
    law_prediction_is_the_longer_time(first, pipes);
    law_prediction_is_the_longer_time(second, pipes);
    law_prediction_is_the_longer_time(first + second, pipes);
    let (a, b, t) = (
        predicted(first, pipes),
        predicted(second, pipes),
        predicted(first + second, pipes),
    );
    let (ca, cb) = (
        cycles_on(first, first.len(), true),
        cycles_on(second, second.len(), true),
    );
    lemma_cycles_grow(first, first.len(), first.len(), true);
    lemma_cycles_grow(second, second.len(), second.len(), true);
    lemma_cycles_grow(first, first.len(), first.len(), false);
    lemma_cycles_grow(second, second.len(), second.len(), false);
    assert(t * pipes <= (a - 1) * pipes || t > a - 1) by (nonlinear_arith)
        requires
            1 <= pipes,
    ;
    assert(t * pipes <= (b - 1) * pipes || t > b - 1) by (nonlinear_arith)
        requires
            1 <= pipes,
    ;
    assert(ca + cb <= a * pipes + b * pipes);
    assert((a + b) * pipes == a * pipes + b * pipes) by (nonlinear_arith);
    assert((a + b) * pipes <= (t - 1) * pipes || a + b > t - 1) by (nonlinear_arith)
        requires
            1 <= pipes,
    ;
}

/// A DRAM transfer costs 100 cycles and one per burst of 32 elements begun: a longer
/// one never costs less, and 32 elements more cost one cycle more.
pub proof fn law_transfer_costs(dram_addr: usize, sram_addr: usize, len: usize, more: usize)
    requires
        len + 32 == more,
    ensures
        ({
            let load = cost_of(Instruction::<u8>::LoadDram { dram_addr, sram_addr, len });
            let longer = cost_of(Instruction::<u8>::LoadDram { dram_addr, sram_addr, len: more });
            let store = cost_of(Instruction::<u8>::StoreDram { sram_addr, dram_addr, len });
            &&& load == store
            &&& longer == load + 1
            &&& (load - 100) * 32 >= len
            &&& len > 0 ==> (load - 101) * 32 < len
            &&& len == 0 ==> load == 100
        }),
{
}

/// What instructions cost, but for transfers: tiles of the matrix unit the most, then
/// transcendental functions, then reductions, and everything else one cycle.
pub proof fn law_instruction_costs<T>(instr: Instruction<T>)
    ensures
        !(instr is LoadDram) && !(instr is StoreDram) ==> cost_of(instr) == if instr is MatMulTile
            || instr is MatVecTile {
            16
        } else if instr is VSilu || instr is VRsqrt || instr is VExp {
            8
        } else if instr is VReduceSum || instr is VReduceMax {
            4
        } else {
            1int
        },
{
}

/// The matrix instructions of a program take 16 cycles each, however they are mixed
/// with others, and the others take nothing from them.
pub proof fn law_matrix_cycles_count_tiles<T>(program: Seq<Instruction<T>>)
    ensures
        cycles_on(program, program.len(), true) == 16 * program.filter(
            |i: Instruction<T>| i is MatMulTile || i is MatVecTile,
        ).len(),
        cycles_on(program, program.len(), false) >= program.filter(
            |i: Instruction<T>| !(i is MatMulTile || i is MatVecTile),
        ).len(),
    decreases program.len(),
{
    reveal(Seq::filter);
    if program.len() > 0 {
        let rest = program.drop_last();
        law_matrix_cycles_count_tiles(rest);
        lemma_cycles_same(program, rest, rest.len(), true);
        lemma_cycles_same(program, rest, rest.len(), false);
        law_cycles_add_up(rest, rest, program.last(), true);
    }
}

} // verus!
