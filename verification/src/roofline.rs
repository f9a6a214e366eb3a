//! The roofline model: how long the linear operations of a model take on a piece
//! of hardware that is limited by its arithmetic and by its memory bandwidth.

use vstd::prelude::*;

use crate::arith::{
    count_is, exceeds_is, int_is, max_is, product_is, quotient_is, running_sum_is, sum_is,
    lemma_running_sum_push, Arith,
};
use crate::transformer::Config;

verus! {

/// A piece of hardware.
pub struct Hardware<A: Arith> {
    /// Peak arithmetic throughput, in 10^9 operations per second.
    pub peak_gflops: A::Num,
    /// Peak memory bandwidth, in 10^9 bytes per second.
    pub peak_bw_gbs: A::Num,
}

/// What limits an operation.
#[derive(Debug, Clone, Copy, PartialEq, Eq, Structural)]
pub enum Bound {
    Memory,
    Compute,
}

/// `ms` is an outcome of `amount / (giga_per_second * 1e9) * 1000`.
pub open spec fn span_is<A: Arith>(amount: A::Num, giga_per_second: A::Num, ms: A::Num) -> bool {
    exists|giga: A::Num, rate: A::Num, seconds: A::Num, thousand: A::Num|
        {
            &&& count_is::<A>(1_000_000_000, giga)
            &&& #[trigger] product_is::<A>(giga_per_second, giga, rate)
            &&& #[trigger] quotient_is::<A>(amount, rate, seconds)
            &&& count_is::<A>(1000, thousand)
            &&& #[trigger] product_is::<A>(seconds, thousand, ms)
        }
}

/// Milliseconds for an amount of work at a rate.
fn span<A: Arith>(amount: A::Num, giga_per_second: A::Num) -> (ms: A::Num)
    ensures
        span_is::<A>(amount, giga_per_second, ms),
{
    let giga = A::from_u64(1_000_000_000);
    let rate = A::times(giga_per_second, giga);
    let seconds = A::divide(amount, rate);
    let thousand = A::from_u64(1000);
    let ms = A::times(seconds, thousand);
    assert(product_is::<A>(giga_per_second, giga, rate));
    assert(quotient_is::<A>(amount, rate, seconds));
    assert(product_is::<A>(seconds, thousand, ms));
    ms
}

impl<A: Arith> Hardware<A> {
    /// The arithmetic intensity at which both limits meet, in operations per
    /// byte.
    pub fn ridge(&self) -> (r: A::Num)
        ensures
            quotient_is::<A>(self.peak_gflops, self.peak_bw_gbs, r),
    {
        A::divide(self.peak_gflops, self.peak_bw_gbs)
    }

    /// How many milliseconds an operation takes: the longer of the time for its
    /// arithmetic and the time for its memory accesses.
    pub fn time_ms(&self, flops: A::Num, bytes: A::Num) -> (ms: A::Num)
        ensures
            exists|compute_ms: A::Num, memory_ms: A::Num|
                {
                    &&& span_is::<A>(flops, self.peak_gflops, compute_ms)
                    &&& span_is::<A>(bytes, self.peak_bw_gbs, memory_ms)
                    &&& #[trigger] max_is::<A>(compute_ms, memory_ms, ms)
                },
    {
        let compute_ms = span::<A>(flops, self.peak_gflops);
        let memory_ms = span::<A>(bytes, self.peak_bw_gbs);
        let ms = A::max(compute_ms, memory_ms);
        assert(max_is::<A>(compute_ms, memory_ms, ms));
        ms
    }

    /// What limits an operation of arithmetic intensity `ai`: the memory, where
    /// the ridge exceeds it.
    pub fn bound(&self, ai: A::Num) -> (b: Bound)
        ensures
            exists|ridge: A::Num|
                {
                    &&& #[trigger] quotient_is::<A>(self.peak_gflops, self.peak_bw_gbs, ridge)
                    &&& exceeds_is::<A>(ridge, ai, b == Bound::Memory)
                },
    {
        let ridge = self.ridge();
        let below = A::exceeds(ridge, ai);
        assert(exceeds_is::<A>(ridge, ai, below));
        if below {
            Bound::Memory
        } else {
            Bound::Compute
        }
    }
}

/// A linear operation of a block.
#[derive(Debug, Clone, Copy, PartialEq, Eq, Structural)]
pub enum Projection {
    Q,
    K,
    V,
    O,
    Gate,
    Up,
    Down,
}

/// A matrix-vector product.
#[derive(Debug, Clone, Copy, PartialEq, Eq, Structural)]
pub struct LinearOp {
    pub projection: Projection,
    pub in_dim: usize,
    pub out_dim: usize,
}

impl LinearOp {
    /// The sizes can be computed with.
    pub open spec fn sized(self) -> bool {
        &&& self.in_dim * self.out_dim <= usize::MAX
        &&& (self.in_dim + self.out_dim) * 4 <= usize::MAX
    }

    /// `r` is an outcome of the number of arithmetic operations: two per weight.
    pub open spec fn flops_are<A: Arith>(self, r: A::Num) -> bool {
        exists|two: A::Num, weights: A::Num|
            {
                &&& int_is::<A>(2, two)
                &&& count_is::<A>((self.in_dim * self.out_dim) as u64, weights)
                &&& #[trigger] product_is::<A>(two, weights, r)
            }
    }

    /// `r` is an outcome of the number of bytes accessed: 34 per 32 weights, and
    /// four per input and output.
    pub open spec fn bytes_are<A: Arith>(self, r: A::Num) -> bool {
        exists|
            weights: A::Num,
            block_bytes: A::Num,
            block: A::Num,
            per_weight: A::Num,
            weight_bytes: A::Num,
            activation_bytes: A::Num,
        |
            {
                &&& count_is::<A>((self.in_dim * self.out_dim) as u64, weights)
                &&& count_is::<A>(34, block_bytes)
                &&& count_is::<A>(32, block)
                &&& #[trigger] quotient_is::<A>(block_bytes, block, per_weight)
                &&& #[trigger] product_is::<A>(weights, per_weight, weight_bytes)
                &&& count_is::<A>(
                    ((self.in_dim + self.out_dim) * 4) as u64,
                    activation_bytes,
                )
                &&& #[trigger] sum_is::<A>(weight_bytes, activation_bytes, r)
            }
    }

    /// The number of arithmetic operations.
    pub fn flops<A: Arith>(&self) -> (r: A::Num)
        requires
            self.in_dim * self.out_dim <= usize::MAX,
        ensures
            self.flops_are::<A>(r),
    {
        let two = A::from_i8(2);
        let weights = A::from_u64((self.in_dim * self.out_dim) as u64);
        let r = A::times(two, weights);
        assert(int_is::<A>(2, two) && product_is::<A>(two, weights, r));
        r
    }

    /// The number of bytes accessed.
    pub fn bytes<A: Arith>(&self) -> (r: A::Num)
        requires
            self.sized(),
        ensures
            self.bytes_are::<A>(r),
    {
        let weights = A::from_u64((self.in_dim * self.out_dim) as u64);
        let block_bytes = A::from_u64(34);
        let block = A::from_u64(32);
        let per_weight = A::divide(block_bytes, block);
        let weight_bytes = A::times(weights, per_weight);
        let activation_bytes = A::from_u64(((self.in_dim + self.out_dim) * 4) as u64);
        let r = A::plus(weight_bytes, activation_bytes);
        assert(quotient_is::<A>(block_bytes, block, per_weight));
        assert(product_is::<A>(weights, per_weight, weight_bytes));
        assert(sum_is::<A>(weight_bytes, activation_bytes, r));
        r
    }

    /// The arithmetic intensity: operations per byte.
    pub fn ai<A: Arith>(&self) -> (r: A::Num)
        requires
            self.sized(),
        ensures
            exists|flops: A::Num, bytes: A::Num|
                {
                    &&& self.flops_are::<A>(flops)
                    &&& self.bytes_are::<A>(bytes)
                    &&& #[trigger] quotient_is::<A>(flops, bytes, r)
                },
    {
        let flops = self.flops::<A>();
        let bytes = self.bytes::<A>();
        let r = A::divide(flops, bytes);
        assert(quotient_is::<A>(flops, bytes, r));
        r
    }
}

/// The linear operations of one block, in the order in which they are carried
/// out.
pub open spec fn layer_ops_of<A: Arith>(cfg: &Config<A>) -> Seq<LinearOp> {
    seq![
        LinearOp { projection: Projection::Q, in_dim: cfg.hidden, out_dim: cfg.hidden },
        LinearOp { projection: Projection::K, in_dim: cfg.hidden, out_dim: cfg.kv_dim },
        LinearOp { projection: Projection::V, in_dim: cfg.hidden, out_dim: cfg.kv_dim },
        LinearOp { projection: Projection::O, in_dim: cfg.hidden, out_dim: cfg.hidden },
        LinearOp { projection: Projection::Gate, in_dim: cfg.hidden, out_dim: cfg.intermediate },
        LinearOp { projection: Projection::Up, in_dim: cfg.hidden, out_dim: cfg.intermediate },
        LinearOp { projection: Projection::Down, in_dim: cfg.intermediate, out_dim: cfg.hidden },
    ]
}

/// The linear operations of one block.
pub fn layer_ops<A: Arith>(cfg: &Config<A>) -> (ops: Vec<LinearOp>)
    ensures
        ops@ == layer_ops_of::<A>(cfg),
{
    vec![
        LinearOp { projection: Projection::Q, in_dim: cfg.hidden, out_dim: cfg.hidden },
        LinearOp { projection: Projection::K, in_dim: cfg.hidden, out_dim: cfg.kv_dim },
        LinearOp { projection: Projection::V, in_dim: cfg.hidden, out_dim: cfg.kv_dim },
        LinearOp { projection: Projection::O, in_dim: cfg.hidden, out_dim: cfg.hidden },
        LinearOp { projection: Projection::Gate, in_dim: cfg.hidden, out_dim: cfg.intermediate },
        LinearOp { projection: Projection::Up, in_dim: cfg.hidden, out_dim: cfg.intermediate },
        LinearOp { projection: Projection::Down, in_dim: cfg.intermediate, out_dim: cfg.hidden },
    ]
}

/// What some linear operations cost together.
pub struct Totals<A: Arith> {
    pub flops: A::Num,
    pub bytes: A::Num,
}

/// `r` is an outcome of adding up, from zero, the operations of all `ops`, with
/// the outcomes `each`.
pub open spec fn flops_total_is<A: Arith>(
    ops: Seq<LinearOp>,
    each: Seq<A::Num>,
    r: A::Num,
) -> bool {
    &&& each.len() == ops.len()
    &&& forall|i: int| 0 <= i < ops.len() ==> ops[i].flops_are::<A>(#[trigger] each[i])
    &&& sum_from_zero_is::<A>(each, r)
}

/// `r` is an outcome of adding up, from zero, the bytes of all `ops`, with the
/// outcomes `each`.
pub open spec fn bytes_total_is<A: Arith>(
    ops: Seq<LinearOp>,
    each: Seq<A::Num>,
    r: A::Num,
) -> bool {
    &&& each.len() == ops.len()
    &&& forall|i: int| 0 <= i < ops.len() ==> ops[i].bytes_are::<A>(#[trigger] each[i])
    &&& sum_from_zero_is::<A>(each, r)
}

/// `r` is an outcome of adding numbers up from zero, in ascending order.
pub open spec fn sum_from_zero_is<A: Arith>(xs: Seq<A::Num>, r: A::Num) -> bool {
    exists|zero: A::Num|
        #[trigger] int_is::<A>(0, zero) && running_sum_is::<A>(zero, xs, xs.len(), r)
}

/// The sum of some numbers, from zero.
fn sum_from_zero<A: Arith>(xs: &Vec<A::Num>) -> (r: A::Num)
    ensures
        sum_from_zero_is::<A>(xs@, r),
{
    let zero = A::from_i8(0);
    let mut r = zero;
    for i in 0..xs.len()
        invariant
            running_sum_is::<A>(zero, xs@, i as nat, r),
    {
        let s = r;
        r = A::plus(s, xs[i]);
        proof {
            lemma_running_sum_push::<A>(zero, xs@, i as nat, s, r);
        }
    }
    assert(int_is::<A>(0, zero));
    r
}

impl<A: Arith> Totals<A> {
    /// The cost of some linear operations.
    pub fn of(ops: &Vec<LinearOp>) -> (t: Self)
        requires
            forall|i: int| 0 <= i < ops@.len() ==> (#[trigger] ops@[i]).sized(),
        ensures
            exists|each: Seq<A::Num>| #[trigger] flops_total_is::<A>(ops@, each, t.flops),
            exists|each: Seq<A::Num>| #[trigger] bytes_total_is::<A>(ops@, each, t.bytes),
    {
        let mut flops: Vec<A::Num> = Vec::new();
        let mut bytes: Vec<A::Num> = Vec::new();
        for i in 0..ops.len()
            invariant
                forall|k: int| 0 <= k < ops@.len() ==> (#[trigger] ops@[k]).sized(),
                flops@.len() == i,
                bytes@.len() == i,
                forall|k: int| 0 <= k < i ==> ops@[k].flops_are::<A>(#[trigger] flops@[k]),
                forall|k: int| 0 <= k < i ==> ops@[k].bytes_are::<A>(#[trigger] bytes@[k]),
        {
            let op = ops[i];
            flops.push(op.flops::<A>());
            bytes.push(op.bytes::<A>());
        }
        let t = Totals { flops: sum_from_zero::<A>(&flops), bytes: sum_from_zero::<A>(&bytes) };
        assert(flops_total_is::<A>(ops@, flops@, t.flops));
        assert(bytes_total_is::<A>(ops@, bytes@, t.bytes));
        t
    }

    /// The cost of `layers` times as much.
    pub fn times(&self, layers: usize) -> (t: Self)
        ensures
            exists|n: A::Num|
                {
                    &&& #[trigger] count_is::<A>(layers as u64, n)
                    &&& product_is::<A>(self.flops, n, t.flops)
                    &&& product_is::<A>(self.bytes, n, t.bytes)
                },
    {
        let n = A::from_u64(layers as u64);
        assert(count_is::<A>(layers as u64, n));
        Totals { flops: A::times(self.flops, n), bytes: A::times(self.bytes, n) }
    }

    /// The arithmetic intensity: operations per byte.
    pub fn ai(&self) -> (r: A::Num)
        ensures
            quotient_is::<A>(self.flops, self.bytes, r),
    {
        A::divide(self.flops, self.bytes)
    }
}

} // verus!
