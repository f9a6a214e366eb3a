//! What the kernels and the compiled programs compute where the arithmetic is
//! exact.
//!
//! Where addition and multiplication are functions, products of matrices and
//! vectors can be written down.
//!
//! A program may add numbers up in another order than the kernel it stands for,
//! which floating-point arithmetic notices in the last bits. Over an arithmetic
//! whose addition is associative and commutative, both are the same.

use vstd::prelude::*;

use crate::accelerator::{run_is, Fault, Machine};
use crate::arith::{
    count_is, dot_is, empty_sum_is, fma_is, inner_is, int_is, mac_is, mul_add_is, product_is,
    quotient_is, reciprocal_is, rsqrt_is, running_sum_is, sum_is, total_is, Arith,
};
use crate::buffer::overwrite;
use crate::compiler::{
    lane_scale_is, lane_squares_is, law_rmsnorm_program, law_rmsnorm_program_runs, normalised_is,
    rmsnorm_program, RmsnormLayout,
};
use crate::matmul::{column, matmul_is, row};
use crate::nn::{linear_is, product3_is, rms_scale_is, rmsnorm_is};

verus! {

/// Addition, multiplication and zero of an exact arithmetic.
#[verifier::reject_recursive_types(N)]
pub struct Exact<N> {
    pub plus: spec_fn(N, N) -> N,
    pub times: spec_fn(N, N) -> N,
    pub zero: N,
}

/// Every outcome of an addition, of a multiplication and of zero of `A` is that
/// of `e`.
pub open spec fn computed_by<A: Arith>(e: Exact<A::Num>) -> bool {
    &&& forall|a: A::Num, b: A::Num, r: A::Num|
        #[trigger] sum_is::<A>(a, b, r) ==> r == (e.plus)(a, b)
    &&& forall|a: A::Num, b: A::Num, r: A::Num|
        #[trigger] product_is::<A>(a, b, r) ==> r == (e.times)(a, b)
    &&& forall|r: A::Num| #[trigger] int_is::<A>(0, r) ==> r == e.zero
}

/// The outcomes of the operations of `A` are those of `e`, whose addition is
/// associative and commutative, with zero as its neutral element; dividing by a
/// count is multiplying by its reciprocal; and reciprocal square roots have one
/// outcome.
pub open spec fn exact_by<A: Arith>(e: Exact<A::Num>) -> bool {
    &&& computed_by::<A>(e)
    &&& forall|r: A::Num| #[trigger] empty_sum_is::<A>(r) ==> r == e.zero
    &&& forall|n: u64, inv: A::Num, count: A::Num, s: A::Num, r: A::Num|
        #[trigger] reciprocal_is::<A>(n, inv) && #[trigger] count_is::<A>(n, count)
            && #[trigger] quotient_is::<A>(s, count, r) ==> r == (e.times)(s, inv)
    &&& forall|a: A::Num, r: A::Num, s: A::Num|
        #[trigger] rsqrt_is::<A>(a, r) && #[trigger] rsqrt_is::<A>(a, s) ==> r == s
    &&& adds_up(e)
}

/// `((0 + x[0] * w[0]) + x[1] * w[1]) + ...` over the first `n` pairs.
pub open spec fn dot<N>(e: Exact<N>, x: Seq<N>, w: Seq<N>, n: nat) -> N
    decreases n,
{
    if n == 0 {
        e.zero
    } else {
        (e.plus)(dot(e, x, w, (n - 1) as nat), (e.times)(x[n - 1], w[n - 1]))
    }
}

/// Where addition and multiplication are functions, a chain of multiply-adds has
/// one outcome, which can be written down.
pub proof fn lemma_mac_is_dot<A: Arith>(
    e: Exact<A::Num>,
    x: Seq<A::Num>,
    w: Seq<A::Num>,
    n: nat,
    r: A::Num,
)
    requires
        computed_by::<A>(e),
        mac_is::<A>(e.zero, x, w, n, r),
    ensures
        r == dot(e, x, w, n),
    decreases n,
{
    if n > 0 {
        let s = choose|s: A::Num|
            mac_is::<A>(e.zero, x, w, (n - 1) as nat, s) && #[trigger] mul_add_is::<A>(
                s,
                x[n - 1],
                w[n - 1],
                r,
            );
        lemma_mac_is_dot::<A>(e, x, w, (n - 1) as nat, s);
        let p = choose|p: A::Num|
            #[trigger] product_is::<A>(x[n - 1], w[n - 1], p) && sum_is::<A>(s, p, r);
        assert(p == (e.times)(x[n - 1], w[n - 1]));
    }
}

/// Where addition and multiplication are functions, element `j` of a
/// matrix-vector product is the dot product of `x` and row `j` of the weights.
pub proof fn law_linear_is_dot_products<A: Arith>(
    e: Exact<A::Num>,
    x: Seq<A::Num>,
    w: Seq<A::Num>,
    y: Seq<A::Num>,
)
    requires
        computed_by::<A>(e),
        linear_is::<A>(x, w, y),
    ensures
        forall|j: int|
            0 <= j < y.len() ==> #[trigger] y[j] == dot(e, x, row(w, x.len(), j), x.len()),
{
    assert forall|j: int| 0 <= j < y.len() implies #[trigger] y[j] == dot(
        e,
        x,
        row(w, x.len(), j),
        x.len(),
    ) by {
        lemma_dot_is_dot::<A>(e, x, row(w, x.len(), j), y[j]);
    }
}

/// Where addition and multiplication are functions, element `(i, j)` of a matrix
/// product is the dot product of row `i` and column `j`.
pub proof fn law_matmul_is_dot_products<A: Arith>(
    e: Exact<A::Num>,
    a: Seq<A::Num>,
    b: Seq<A::Num>,
    c: Seq<A::Num>,
    m: nat,
    n: nat,
    k: nat,
)
    requires
        computed_by::<A>(e),
        matmul_is::<A>(a, b, c, m, n, k),
    ensures
        forall|i: int, j: int|
            #![trigger c[i * n + j]]
            0 <= i < m && 0 <= j < n ==> c[i * n + j] == dot(
                e,
                row(a, k, i),
                column(b, k, n, j),
                k,
            ),
{
    assert forall|i: int, j: int| #![trigger c[i * n + j]] 0 <= i < m && 0 <= j < n implies c[i * n
        + j] == dot(e, row(a, k, i), column(b, k, n, j), k) by {
        lemma_dot_is_dot::<A>(e, row(a, k, i), column(b, k, n, j), c[i * n + j]);
    }
}

/// Where addition and multiplication are functions, a dot product has one
/// outcome, which can be written down.
proof fn lemma_dot_is_dot<A: Arith>(
    e: Exact<A::Num>,
    x: Seq<A::Num>,
    w: Seq<A::Num>,
    r: A::Num,
)
    requires
        computed_by::<A>(e),
        dot_is::<A>(x, w, r),
    ensures
        r == dot(e, x, w, x.len()),
{
    let z = choose|z: A::Num| #[trigger] int_is::<A>(0, z) && mac_is::<A>(z, x, w, x.len(), r);
    assert(z == e.zero);
    lemma_mac_is_dot::<A>(e, x, w, x.len(), r);
}

/// Addition is associative and commutative, with zero as its neutral element.
pub open spec fn adds_up<N>(e: Exact<N>) -> bool {
    &&& commutes(e)
    &&& associates(e)
    &&& zero_is_neutral(e)
}

/// `a + b == b + a`
#[verifier::opaque]
pub open spec fn commutes<N>(e: Exact<N>) -> bool {
    forall|a: N, b: N| #[trigger] (e.plus)(a, b) == (e.plus)(b, a)
}

/// `(a + b) + c == a + (b + c)`
#[verifier::opaque]
pub open spec fn associates<N>(e: Exact<N>) -> bool {
    forall|a: N, b: N, c: N|
        #[trigger] (e.plus)((e.plus)(a, b), c) == (e.plus)(a, (e.plus)(b, c))
}

/// `0 + a == a`
#[verifier::opaque]
pub open spec fn zero_is_neutral<N>(e: Exact<N>) -> bool {
    forall|a: N| #[trigger] (e.plus)(e.zero, a) == a
}

/// Addition commutes.
pub proof fn lemma_swap<N>(e: Exact<N>, a: N, b: N)
    requires
        adds_up(e),
    ensures
        (e.plus)(a, b) == (e.plus)(b, a),
{
    reveal(commutes);
}

/// Addition associates.
pub proof fn lemma_shift<N>(e: Exact<N>, a: N, b: N, c: N)
    requires
        adds_up(e),
    ensures
        (e.plus)((e.plus)(a, b), c) == (e.plus)(a, (e.plus)(b, c)),
{
    reveal(associates);
}

/// Zero adds nothing.
pub proof fn lemma_zero<N>(e: Exact<N>, a: N)
    requires
        adds_up(e),
    ensures
        (e.plus)(e.zero, a) == a,
        (e.plus)(a, e.zero) == a,
{
    reveal(zero_is_neutral);
    lemma_swap(e, a, e.zero);
}

/// The square of number `i`.
spec fn square<N>(e: Exact<N>, x: Seq<N>, i: int) -> N {
    (e.times)(x[i], x[i])
}

/// The sum of the squares of `n` numbers, from number `from` on.
spec fn squares<N>(e: Exact<N>, x: Seq<N>, from: int, n: nat) -> N
    decreases n,
{
    if n == 0 {
        e.zero
    } else {
        (e.plus)(squares(e, x, from, (n - 1) as nat), square(e, x, from + n - 1))
    }
}

/// The sum of the squares of lane `l` of the first `c` chunks.
spec fn lane<N>(e: Exact<N>, x: Seq<N>, l: int, c: nat) -> N
    decreases c,
{
    if c == 0 {
        e.zero
    } else {
        (e.plus)(square(e, x, (c - 1) * 32 + l), lane(e, x, l, (c - 1) as nat))
    }
}

/// The sum of the first `n` lanes.
spec fn lanes<N>(e: Exact<N>, x: Seq<N>, c: nat, n: nat) -> N
    decreases n,
{
    if n == 0 {
        e.zero
    } else {
        (e.plus)(lanes(e, x, c, (n - 1) as nat), lane(e, x, n - 1, c))
    }
}

/// `(a + b) + (c + d) == (a + d) + (b + c)`
pub proof fn lemma_regroup<N>(e: Exact<N>, a: N, b: N, c: N, d: N)
    requires
        adds_up(e),
    ensures
        (e.plus)((e.plus)(a, b), (e.plus)(c, d)) == (e.plus)((e.plus)(a, d), (e.plus)(b, c)),
{
    let p = e.plus;
    lemma_shift(e, a, b, p(c, d));
    lemma_shift(e, b, c, d);
    lemma_swap(e, p(b, c), d);
    lemma_shift(e, a, d, p(b, c));
}

/// A run of squares, after `m` numbers, goes on with the numbers behind them.
proof fn lemma_squares_go_on<N>(e: Exact<N>, x: Seq<N>, m: nat, n: nat)
    requires
        adds_up(e),
    ensures
        squares(e, x, 0, m + n) == (e.plus)(squares(e, x, 0, m), squares(e, x, m as int, n)),
    decreases n,
{
    let p = e.plus;
    let s = squares(e, x, 0, m);
    if n == 0 {
        lemma_zero(e, s);
    } else {
        lemma_squares_go_on(e, x, m, (n - 1) as nat);
        let rest = squares(e, x, m as int, (n - 1) as nat);
        let last = square(e, x, m + n - 1);
        assert(squares(e, x, 0, (m + n) as nat) == p(squares(e, x, 0, (m + n - 1) as nat), last));
        lemma_shift(e, s, rest, last);
    }
}

/// One more chunk adds its squares to the lanes.
proof fn lemma_one_more_chunk<N>(e: Exact<N>, x: Seq<N>, c: nat, n: nat)
    requires
        adds_up(e),
    ensures
        lanes(e, x, c + 1, n) == (e.plus)(lanes(e, x, c, n), squares(e, x, (c * 32) as int, n)),
    decreases n,
{
    let p = e.plus;
    if n == 0 {
        lemma_zero(e, e.zero);
    } else {
        let m = (n - 1) as nat;
        lemma_one_more_chunk(e, x, c, m);
        let (a, b) = (lanes(e, x, c, m), squares(e, x, (c * 32) as int, m));
        let (sq, before) = (square(e, x, c * 32 + n - 1), lane(e, x, n - 1, c));
        assert(lane(e, x, n - 1, c + 1) == p(sq, before));
        lemma_regroup(e, a, b, sq, before);
    }
}

/// Without chunks the lanes are zero.
proof fn lemma_no_chunks<N>(e: Exact<N>, x: Seq<N>, n: nat)
    requires
        adds_up(e),
    ensures
        lanes(e, x, 0, n) == e.zero,
    decreases n,
{
    if n > 0 {
        lemma_no_chunks(e, x, (n - 1) as nat);
        lemma_zero(e, e.zero);
    }
}

/// Adding up lane by lane and then over the lanes is adding up in order.
proof fn lemma_lanes_are_squares<N>(e: Exact<N>, x: Seq<N>, c: nat)
    requires
        adds_up(e),
    ensures
        lanes(e, x, c, 32) == squares(e, x, 0, c * 32),
    decreases c,
{
    if c == 0 {
        lemma_no_chunks(e, x, 32);
    } else {
        let d = (c - 1) as nat;
        lemma_lanes_are_squares(e, x, d);
        lemma_one_more_chunk(e, x, d, 32);
        lemma_squares_go_on(e, x, d * 32, 32);
        assert(d * 32 + 32 == c * 32);
    }
}

/// A vector times itself is the sum of its squares.
proof fn lemma_dot_is_squares<N>(e: Exact<N>, x: Seq<N>, n: nat)
    ensures
        dot(e, x, x, n) == squares(e, x, 0, n),
    decreases n,
{
    if n > 0 {
        lemma_dot_is_squares(e, x, (n - 1) as nat);
    }
}

/// The squares of a lane have one outcome.
proof fn lemma_lane_squares<A: Arith>(
    e: Exact<A::Num>,
    x: Seq<A::Num>,
    l: int,
    c: nat,
    r: A::Num,
)
    requires
        exact_by::<A>(e),
        lane_squares_is::<A>(x, e.zero, l, c, r),
    ensures
        r == lane(e, x, l, c),
    decreases c,
{
    if c > 0 {
        let v = x[(c - 1) * 32 + l];
        let s = choose|s: A::Num|
            {
                &&& lane_squares_is::<A>(x, e.zero, l, (c - 1) as nat, s)
                &&& #[trigger] fma_is::<A>(x[(c - 1) * 32 + l], x[(c - 1) * 32 + l], s, r)
            };
        lemma_lane_squares::<A>(e, x, l, (c - 1) as nat, s);
        let p = choose|p: A::Num|
            #[trigger] product_is::<A>(v, v, p) && sum_is::<A>(p, s, r);
        assert(p == (e.times)(v, v));
    }
}

/// The sum of the lanes has one outcome.
proof fn lemma_lane_total<A: Arith>(
    e: Exact<A::Num>,
    x: Seq<A::Num>,
    c: nat,
    all: Seq<A::Num>,
    n: nat,
    r: A::Num,
)
    requires
        exact_by::<A>(e),
        n <= all.len(),
        forall|l: int| 0 <= l < all.len() ==> #[trigger] all[l] == lane(e, x, l, c),
        running_sum_is::<A>(e.zero, all, n, r),
    ensures
        r == lanes(e, x, c, n),
    decreases n,
{
    if n > 0 {
        let s = choose|s: A::Num|
            running_sum_is::<A>(e.zero, all, (n - 1) as nat, s) && #[trigger] sum_is::<A>(
                s,
                all[n - 1],
                r,
            );
        lemma_lane_total::<A>(e, x, c, all, (n - 1) as nat, s);
        assert(all[n - 1] == lane(e, x, n - 1, c));
    }
}

/// The mean of the squares of `x`, plus `eps`.
spec fn shifted_mean<N>(e: Exact<N>, x: Seq<N>, inv_n: N, eps: N) -> N {
    (e.plus)((e.times)(squares(e, x, 0, x.len()), inv_n), eps)
}

/// Over an exact arithmetic, the scale that a program computes comes of the mean
/// of the squares.
proof fn lemma_lane_scale<A: Arith>(
    e: Exact<A::Num>,
    x: Seq<A::Num>,
    inv_n: A::Num,
    eps: A::Num,
    scale: A::Num,
)
    requires
        exact_by::<A>(e),
        x.len() % 32 == 0,
        lane_scale_is::<A>(x, e.zero, inv_n, eps, scale),
    ensures
        rsqrt_is::<A>(shifted_mean(e, x, inv_n, eps), scale),
{
    let c = x.len() / 32;
    let (all, sum, mean, shifted) = choose|
        all: Seq<A::Num>,
        sum: A::Num,
        mean: A::Num,
        shifted: A::Num,
    |
        {
            &&& all.len() == 32
            &&& forall|l: int|
                0 <= l < 32 ==> lane_squares_is::<A>(
                    x,
                    e.zero,
                    l,
                    x.len() / 32,
                    #[trigger] all[l],
                )
            &&& #[trigger] total_is::<A>(all, sum)
            &&& #[trigger] product_is::<A>(sum, inv_n, mean)
            &&& #[trigger] sum_is::<A>(mean, eps, shifted)
            &&& rsqrt_is::<A>(shifted, scale)
        };
    assert forall|l: int| 0 <= l < all.len() implies #[trigger] all[l] == lane(e, x, l, c) by {
        lemma_lane_squares::<A>(e, x, l, c, all[l]);
    }
    let start = choose|z: A::Num|
        #[trigger] empty_sum_is::<A>(z) && running_sum_is::<A>(z, all, all.len(), sum);
    assert(start == e.zero);
    lemma_lane_total::<A>(e, x, c, all, 32, sum);
    lemma_lanes_are_squares(e, x, c);
    assert(c * 32 == x.len());
}

/// Over an exact arithmetic, the scale of a vector comes of the mean of the
/// squares.
proof fn lemma_rms_scale<A: Arith>(
    e: Exact<A::Num>,
    x: Seq<A::Num>,
    inv_n: A::Num,
    eps: A::Num,
    scale: A::Num,
)
    requires
        exact_by::<A>(e),
        reciprocal_is::<A>(x.len() as u64, inv_n),
        rms_scale_is::<A>(x, eps, scale),
    ensures
        rsqrt_is::<A>(shifted_mean(e, x, inv_n, eps), scale),
{
    let (total, n, mean, shifted) = choose|
        total: A::Num,
        n: A::Num,
        mean: A::Num,
        shifted: A::Num,
    |
        {
            &&& inner_is::<A>(x, x, total)
            &&& count_is::<A>(x.len() as u64, n)
            &&& #[trigger] quotient_is::<A>(total, n, mean)
            &&& #[trigger] sum_is::<A>(mean, eps, shifted)
            &&& rsqrt_is::<A>(shifted, scale)
        };
    let start = choose|z: A::Num|
        #[trigger] empty_sum_is::<A>(z) && mac_is::<A>(z, x, x, x.len(), total);
    assert(start == e.zero);
    lemma_mac_is_dot::<A>(e, x, x, x.len(), total);
    lemma_dot_is_squares(e, x, x.len());
    assert(count_is::<A>(x.len() as u64, n));
    assert(mean == (e.times)(total, inv_n));
}

/// Over an exact arithmetic, running a program for an RMS normalisation succeeds
/// and leaves in SRAM the very numbers that [`crate::nn::rmsnorm`] computes,
/// wherever no chunk of the outputs is written over an operand that is still to be
/// read, so also in place; no other memory changes.
pub proof fn law_rmsnorm_run_matches_cpu<A: Arith>(
    e: Exact<A::Num>,
    at: RmsnormLayout,
    zero: A::Num,
    inv_n: A::Num,
    eps: A::Num,
    before: Machine<A::Num>,
    after: Machine<A::Num>,
    result: Result<(), Fault>,
    y: Seq<A::Num>,
)
    requires
        exact_by::<A>(e),
        int_is::<A>(0, zero),
        reciprocal_is::<A>(at.n as u64, inv_n),
        before.shaped(),
        before.sram.len() <= usize::MAX,
        at.within(before.sram.len()),
        at.spares(at.x_addr),
        at.spares(at.gamma_addr),
        run_is::<A>(before, rmsnorm_program(at, zero, inv_n, eps), after, result),
        rmsnorm_is::<A>(at.input(before.sram), at.gamma(before.sram), eps, y),
    ensures
        result is Ok,
        at.output(after.sram) == y,
        after.sram == overwrite(before.sram, at.y_addr, y),
        after.dram == before.dram,
{
    law_rmsnorm_program_runs(at, zero, inv_n, eps, before.sram.len() as usize, before.dram.len());
    law_rmsnorm_program::<A>(at, zero, inv_n, eps, before, after);
    let x = at.input(before.sram);
    let gamma = at.gamma(before.sram);
    let out = at.output(after.sram);
    let scale = choose|scale: A::Num|
        {
            &&& #[trigger] rms_scale_is::<A>(x, eps, scale)
            &&& forall|i: int|
                0 <= i < x.len() ==> product3_is::<A>(x[i], scale, gamma[i], #[trigger] y[i])
        };
    lemma_rms_scale::<A>(e, x, inv_n, eps, scale);
    assert forall|i: int| 0 <= i < at.n implies #[trigger] out[i] == y[i] by {
        assert(normalised_is::<A>(x, gamma, zero, inv_n, eps, i, out[i]));
        let other = choose|other: A::Num|
            {
                &&& #[trigger] lane_scale_is::<A>(x, zero, inv_n, eps, other)
                &&& product3_is::<A>(x[i], other, gamma[i], out[i])
            };
        lemma_lane_scale::<A>(e, x, inv_n, eps, other);
        assert(other == scale);
        assert(product3_is::<A>(x[i], scale, gamma[i], y[i]));
    }
    assert(out =~= y);
}

} // verus!
