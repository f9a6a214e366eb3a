//! What the kernels compute, written out.
//!
//! Where every operation has a value of its own, as it has for floating-point
//! numbers, a result can be written down as an expression: over plain indices of
//! the inputs, with sums and maxima as folds. Rounding is no obstacle, since the
//! expressions say in which order things are added.

use vstd::prelude::*;

use crate::arith::{
    abs_is, bits_are, count_is, dot_is, empty_sum_is, exceeds_is, greatest_is, infinity_is,
    inner_is, int_is, least_is, mac_is, max_is, min_is, mul_add_is, neg_infinity_is, product_is,
    quotient_is, reciprocal_is, rsqrt_is, running_max_is, running_min_is, running_sum_is, silu_is,
    sin_cos_is, sqrt_is, sum_is, total_is, Arith,
};
use crate::attention::{
    attention_is, average_at, average_is, given_to, head_at, head_attention_is, inv_sqrt_is,
    pattern_is, score_is, value_column, weighted_sum_is, weights_are,
};
use crate::gguf::TensorType;
use crate::matmul::{column, lemma_row_in_matrix, matmul_is, row};
use crate::nn::{
    angle_is, exp_above_is, head, lemma_angle_parts, linear_is, pair_rotated, product3_is,
    rms_scale_is, rmsnorm_is, rope_is, rotation_is, softmax_is,
};
use crate::perf_model::milliseconds_are;
use crate::quant::{dequantized_is, element_is, half_is, le_u16, q8_0_is, widened};
use crate::roofline::{bytes_total_is, flops_total_is, span_is, LinearOp};
use crate::stats::{
    abs_max_is, argmax_is, differences_are, distance_is, distances_are, l2_is, leader_is, leads,
    mean_is, peak_is, running_abs_max_is,
};
use crate::transformer::{gated_at, gated_is, size_mb_is, sums_are, LayerWeights};

verus! {

/// The values of the operations on numbers.
#[verifier::reject_recursive_types(N)]
pub struct Ops<N> {
    pub int: spec_fn(i8) -> N,
    pub count: spec_fn(u64) -> N,
    pub bits: spec_fn(u32) -> N,
    pub empty: N,
    pub low: N,
    pub high: N,
    pub plus: spec_fn(N, N) -> N,
    pub minus: spec_fn(N, N) -> N,
    pub times: spec_fn(N, N) -> N,
    pub over: spec_fn(N, N) -> N,
    pub negate: spec_fn(N) -> N,
    pub abs: spec_fn(N) -> N,
    pub sqrt: spec_fn(N) -> N,
    pub exp: spec_fn(N) -> N,
    pub pow: spec_fn(N, N) -> N,
    pub sin: spec_fn(N) -> N,
    pub cos: spec_fn(N) -> N,
    pub max: spec_fn(N, N) -> N,
    pub min: spec_fn(N, N) -> N,
    pub gt: spec_fn(N, N) -> bool,
}

/// Every outcome of an operation of `A` is its value in `o`.
pub open spec fn follows<A: Arith>(o: Ops<A::Num>) -> bool {
    &&& forall|v: i8, r: A::Num| #[trigger] call_ensures(A::from_i8, (v,), r) ==> r == (o.int)(v)
    &&& forall|v: u64, r: A::Num|
        #[trigger] call_ensures(A::from_u64, (v,), r) ==> r == (o.count)(v)
    &&& forall|v: u32, r: A::Num|
        #[trigger] call_ensures(A::from_bits, (v,), r) ==> r == (o.bits)(v)
    &&& forall|r: A::Num| #[trigger] call_ensures(A::empty_sum, (), r) ==> r == o.empty
    &&& forall|r: A::Num| #[trigger] call_ensures(A::neg_infinity, (), r) ==> r == o.low
    &&& forall|r: A::Num| #[trigger] call_ensures(A::infinity, (), r) ==> r == o.high
    &&& forall|a: A::Num, b: A::Num, r: A::Num|
        #[trigger] call_ensures(A::plus, (a, b), r) ==> r == (o.plus)(a, b)
    &&& forall|a: A::Num, b: A::Num, r: A::Num|
        #[trigger] call_ensures(A::minus, (a, b), r) ==> r == (o.minus)(a, b)
    &&& forall|a: A::Num, b: A::Num, r: A::Num|
        #[trigger] call_ensures(A::times, (a, b), r) ==> r == (o.times)(a, b)
    &&& forall|a: A::Num, b: A::Num, r: A::Num|
        #[trigger] call_ensures(A::divide, (a, b), r) ==> r == (o.over)(a, b)
    &&& forall|a: A::Num, r: A::Num|
        #[trigger] call_ensures(A::negate, (a,), r) ==> r == (o.negate)(a)
    &&& forall|a: A::Num, r: A::Num| #[trigger] call_ensures(A::abs, (a,), r) ==> r == (o.abs)(a)
    &&& forall|a: A::Num, r: A::Num| #[trigger] call_ensures(A::sqrt, (a,), r) ==> r == (o.sqrt)(a)
    &&& forall|a: A::Num, r: A::Num| #[trigger] call_ensures(A::exp, (a,), r) ==> r == (o.exp)(a)
    &&& forall|a: A::Num, b: A::Num, r: A::Num|
        #[trigger] call_ensures(A::powf, (a, b), r) ==> r == (o.pow)(a, b)
    &&& forall|a: A::Num, s: A::Num, c: A::Num|
        #[trigger] call_ensures(A::sin_cos, (a,), (s, c)) ==> s == (o.sin)(a) && c == (o.cos)(a)
    &&& forall|a: A::Num, b: A::Num, r: A::Num|
        #[trigger] call_ensures(A::max, (a, b), r) ==> r == (o.max)(a, b)
    &&& forall|a: A::Num, b: A::Num, r: A::Num|
        #[trigger] call_ensures(A::min, (a, b), r) ==> r == (o.min)(a, b)
    &&& forall|a: A::Num, b: A::Num, r: bool|
        #[trigger] call_ensures(A::exceeds, (a, b), r) ==> r == (o.gt)(a, b)
}

/// A chain of multiply-adds, as a fold.
pub proof fn lemma_mac_folds<A: Arith>(
    o: Ops<A::Num>,
    init: A::Num,
    x: Seq<A::Num>,
    w: Seq<A::Num>,
    n: nat,
    r: A::Num,
)
    requires
        follows::<A>(o),
        mac_is::<A>(init, x, w, n, r),
    ensures
        r == Seq::new(n, |i: int| (o.times)(x[i], w[i])).fold_left(init, o.plus),
    decreases n,
{
    let all = Seq::new(n, |i: int| (o.times)(x[i], w[i]));
    if n > 0 {
        let m = (n - 1) as nat;
        let s = choose|s: A::Num|
            mac_is::<A>(init, x, w, m, s) && #[trigger] mul_add_is::<A>(s, x[n - 1], w[n - 1], r);
        lemma_mac_folds::<A>(o, init, x, w, m, s);
        assert(all.drop_last() =~= Seq::new(m, |i: int| (o.times)(x[i], w[i])));
        let p = choose|p: A::Num|
            #[trigger] product_is::<A>(x[n - 1], w[n - 1], p) && sum_is::<A>(s, p, r);
        assert(p == (o.times)(x[n - 1], w[n - 1]));
    }
}

/// A sum, as a fold.
pub proof fn lemma_sum_folds<A: Arith>(
    o: Ops<A::Num>,
    init: A::Num,
    xs: Seq<A::Num>,
    n: nat,
    r: A::Num,
)
    requires
        follows::<A>(o),
        n <= xs.len(),
        running_sum_is::<A>(init, xs, n, r),
    ensures
        r == xs.take(n as int).fold_left(init, o.plus),
    decreases n,
{
    if n > 0 {
        let m = (n - 1) as nat;
        let s = choose|s: A::Num|
            running_sum_is::<A>(init, xs, m, s) && #[trigger] sum_is::<A>(s, xs[n - 1], r);
        lemma_sum_folds::<A>(o, init, xs, m, s);
        assert(xs.take(n as int).drop_last() =~= xs.take(m as int));
    }
}

/// A maximum, as a fold.
proof fn lemma_max_folds<A: Arith>(
    o: Ops<A::Num>,
    init: A::Num,
    xs: Seq<A::Num>,
    n: nat,
    r: A::Num,
)
    requires
        follows::<A>(o),
        n <= xs.len(),
        running_max_is::<A>(init, xs, n, r),
    ensures
        r == xs.take(n as int).fold_left(init, o.max),
    decreases n,
{
    if n > 0 {
        let m = (n - 1) as nat;
        let s = choose|s: A::Num|
            running_max_is::<A>(init, xs, m, s) && #[trigger] max_is::<A>(s, xs[n - 1], r);
        lemma_max_folds::<A>(o, init, xs, m, s);
        assert(xs.take(n as int).drop_last() =~= xs.take(m as int));
    }
}

/// A minimum, as a fold.
proof fn lemma_min_folds<A: Arith>(
    o: Ops<A::Num>,
    init: A::Num,
    xs: Seq<A::Num>,
    n: nat,
    r: A::Num,
)
    requires
        follows::<A>(o),
        n <= xs.len(),
        running_min_is::<A>(init, xs, n, r),
    ensures
        r == xs.take(n as int).fold_left(init, o.min),
    decreases n,
{
    if n > 0 {
        let m = (n - 1) as nat;
        let s = choose|s: A::Num|
            running_min_is::<A>(init, xs, m, s) && #[trigger] min_is::<A>(s, xs[n - 1], r);
        lemma_min_folds::<A>(o, init, xs, m, s);
        assert(xs.take(n as int).drop_last() =~= xs.take(m as int));
    }
}

/// The total, the greatest and the least of some numbers are folds over all of
/// them, in their order.
pub proof fn law_reductions_written_out<A: Arith>(
    o: Ops<A::Num>,
    xs: Seq<A::Num>,
    total: A::Num,
    greatest: A::Num,
    least: A::Num,
)
    requires
        follows::<A>(o),
        total_is::<A>(xs, total),
        greatest_is::<A>(xs, greatest),
        least_is::<A>(xs, least),
    ensures
        total == xs.fold_left(o.empty, o.plus),
        greatest == xs.fold_left(o.low, o.max),
        least == xs.fold_left(o.high, o.min),
{
    lemma_total::<A>(o, xs, total);
    lemma_greatest::<A>(o, xs, greatest);
    let z = choose|z: A::Num|
        #[trigger] infinity_is::<A>(z) && running_min_is::<A>(z, xs, xs.len(), least);
    lemma_min_folds::<A>(o, z, xs, xs.len(), least);
    assert(xs.take(xs.len() as int) =~= xs);
}

/// The total of some numbers.
pub proof fn lemma_total<A: Arith>(o: Ops<A::Num>, xs: Seq<A::Num>, r: A::Num)
    requires
        follows::<A>(o),
        total_is::<A>(xs, r),
    ensures
        r == xs.fold_left(o.empty, o.plus),
{
    let z = choose|z: A::Num|
        #[trigger] empty_sum_is::<A>(z) && running_sum_is::<A>(z, xs, xs.len(), r);
    lemma_sum_folds::<A>(o, z, xs, xs.len(), r);
    assert(xs.take(xs.len() as int) =~= xs);
}

/// The greatest of some numbers.
pub proof fn lemma_greatest<A: Arith>(o: Ops<A::Num>, xs: Seq<A::Num>, r: A::Num)
    requires
        follows::<A>(o),
        greatest_is::<A>(xs, r),
    ensures
        r == xs.fold_left(o.low, o.max),
{
    let z = choose|z: A::Num|
        #[trigger] neg_infinity_is::<A>(z) && running_max_is::<A>(z, xs, xs.len(), r);
    lemma_max_folds::<A>(o, z, xs, xs.len(), r);
    assert(xs.take(xs.len() as int) =~= xs);
}

/// The sum of the products of two vectors.
pub proof fn lemma_inner<A: Arith>(
    o: Ops<A::Num>,
    x: Seq<A::Num>,
    w: Seq<A::Num>,
    r: A::Num,
)
    requires
        follows::<A>(o),
        inner_is::<A>(x, w, r),
    ensures
        r == Seq::new(x.len(), |i: int| (o.times)(x[i], w[i])).fold_left(o.empty, o.plus),
{
    let z = choose|z: A::Num|
        #[trigger] empty_sum_is::<A>(z) && mac_is::<A>(z, x, w, x.len(), r);
    lemma_mac_folds::<A>(o, z, x, w, x.len(), r);
}

/// The dot product of two vectors.
proof fn lemma_dot<A: Arith>(o: Ops<A::Num>, x: Seq<A::Num>, w: Seq<A::Num>, r: A::Num)
    requires
        follows::<A>(o),
        dot_is::<A>(x, w, r),
    ensures
        r == Seq::new(x.len(), |i: int| (o.times)(x[i], w[i])).fold_left((o.int)(0), o.plus),
{
    let z = choose|z: A::Num| #[trigger] int_is::<A>(0, z) && mac_is::<A>(z, x, w, x.len(), r);
    lemma_mac_folds::<A>(o, z, x, w, x.len(), r);
}

/// `1 / sqrt(a)`
pub proof fn lemma_rsqrt<A: Arith>(o: Ops<A::Num>, a: A::Num, r: A::Num)
    requires
        follows::<A>(o),
        rsqrt_is::<A>(a, r),
    ensures
        r == (o.over)((o.int)(1), (o.sqrt)(a)),
{
}

/// Output `j` of a matrix-vector product is the sum, from zero, of the products of
/// all inputs with their weights in row `j`.
pub proof fn law_linear_written_out<A: Arith>(
    o: Ops<A::Num>,
    x: Seq<A::Num>,
    w: Seq<A::Num>,
    y: Seq<A::Num>,
    j: int,
)
    requires
        follows::<A>(o),
        linear_is::<A>(x, w, y),
        0 <= j < y.len(),
    ensures
        y[j] == Seq::new(x.len(), |i: int| (o.times)(x[i], w[j * x.len() + i])).fold_left(
            (o.int)(0),
            o.plus,
        ),
{
    let r = row(w, x.len(), j);
    lemma_dot::<A>(o, x, r, y[j]);
    assert(Seq::new(x.len(), |i: int| (o.times)(x[i], r[i])) =~= Seq::new(
        x.len(),
        |i: int| (o.times)(x[i], w[j * x.len() + i]),
    ));
}

/// Element `(i, j)` of a matrix product is the sum, from zero, of the products of
/// all elements of row `i` with those of column `j`; the product has a place for
/// each, and no more.
pub proof fn law_matmul_written_out<A: Arith>(
    o: Ops<A::Num>,
    a: Seq<A::Num>,
    b: Seq<A::Num>,
    c: Seq<A::Num>,
    m: nat,
    n: nat,
    k: nat,
    i: int,
    j: int,
)
    requires
        follows::<A>(o),
        matmul_is::<A>(a, b, c, m, n, k),
        0 <= i < m,
        0 <= j < n,
    ensures
        c.len() == m * n,
        c[i * n + j] == Seq::new(k, |p: int| (o.times)(a[i * k + p], b[p * n + j])).fold_left(
            (o.int)(0),
            o.plus,
        ),
{
    let (x, w) = (row(a, k, i), column(b, k, n, j));
    lemma_dot::<A>(o, x, w, c[i * n + j]);
    assert(Seq::new(x.len(), |p: int| (o.times)(x[p], w[p])) =~= Seq::new(
        k,
        |p: int| (o.times)(a[i * k + p], b[p * n + j]),
    ));
}

/// Element `i` of an RMS normalisation is `x[i]`, times one over the root of the
/// mean of all squares plus `eps`, times its weight.
pub proof fn law_rmsnorm_written_out<A: Arith>(
    o: Ops<A::Num>,
    x: Seq<A::Num>,
    weight: Seq<A::Num>,
    eps: A::Num,
    y: Seq<A::Num>,
    i: int,
)
    requires
        follows::<A>(o),
        rmsnorm_is::<A>(x, weight, eps, y),
        0 <= i < x.len(),
    ensures
        y.len() == x.len(),
        ({
            let squares = Seq::new(x.len(), |p: int| (o.times)(x[p], x[p])).fold_left(
                o.empty,
                o.plus,
            );
            let mean = (o.over)(squares, (o.count)(x.len() as u64));
            let scale = (o.over)((o.int)(1), (o.sqrt)((o.plus)(mean, eps)));
            y[i] == (o.times)((o.times)(x[i], scale), weight[i])
        }),
{
    let scale = choose|scale: A::Num|
        {
            &&& #[trigger] rms_scale_is::<A>(x, eps, scale)
            &&& forall|i: int|
                0 <= i < x.len() ==> product3_is::<A>(x[i], scale, weight[i], #[trigger] y[i])
        };
    let (total, n, mean, shifted) = choose|
        total: A::Num,
        n: A::Num,
        mean: A::Num,
        shifted: A::Num,
    |
        {
            &&& inner_is::<A>(x, x, total)
            &&& count_is::<A>(x.len() as u64, n)
            &&& #[trigger] quotient_is::<A>(total, n, mean)
            &&& #[trigger] sum_is::<A>(mean, eps, shifted)
            &&& rsqrt_is::<A>(shifted, scale)
        };
    lemma_inner::<A>(o, x, x, total);
    lemma_rsqrt::<A>(o, shifted, scale);
    assert(product3_is::<A>(x[i], scale, weight[i], y[i]));
}

/// Element `i` of a softmax is the exponential of `x[i]` less the greatest, over the
/// sum of the exponentials of all.
pub proof fn law_softmax_written_out<A: Arith>(
    o: Ops<A::Num>,
    x: Seq<A::Num>,
    y: Seq<A::Num>,
    i: int,
)
    requires
        follows::<A>(o),
        softmax_is::<A>(x, y),
        0 <= i < x.len(),
    ensures
        y.len() == x.len(),
        ({
            let m = x.fold_left(o.low, o.max);
            let e = Seq::new(x.len(), |p: int| (o.exp)((o.minus)(x[p], m)));
            y[i] == (o.over)(e[i], e.fold_left(o.empty, o.plus))
        }),
{
    let (m, e, t) = choose|m: A::Num, e: Seq<A::Num>, t: A::Num|
        {
            &&& #[trigger] greatest_is::<A>(x, m)
            &&& e.len() == x.len()
            &&& forall|i: int| 0 <= i < x.len() ==> exp_above_is::<A>(x[i], m, #[trigger] e[i])
            &&& #[trigger] total_is::<A>(e, t)
            &&& forall|i: int| 0 <= i < x.len() ==> quotient_is::<A>(e[i], t, #[trigger] y[i])
        };
    lemma_greatest::<A>(o, x, m);
    lemma_total::<A>(o, e, t);
    let plain = Seq::new(x.len(), |p: int| (o.exp)((o.minus)(x[p], m)));
    assert forall|p: int| 0 <= p < x.len() implies #[trigger] e[p] == plain[p] by {
        assert(exp_above_is::<A>(x[p], m, e[p]));
    }
    assert(e =~= plain);
    assert(quotient_is::<A>(e[i], t, y[i]));
}

/// Pair `i` of a rotary embedding, for every pair of the vector, is turned by the
/// angle `pos * freq_base ^ (-2 i / d)`.
pub proof fn law_rope_written_out<A: Arith>(
    o: Ops<A::Num>,
    x: Seq<A::Num>,
    pos: u64,
    freq_base: A::Num,
    y: Seq<A::Num>,
    i: int,
)
    requires
        follows::<A>(o),
        rope_is::<A>(x, pos, freq_base, y),
        0 <= 2 * i,
        2 * i + 1 < x.len(),
    ensures
        y.len() == x.len(),
        ({
            let e = (o.over)(
                (o.times)((o.int)((-2) as i8), (o.count)(i as u64)),
                (o.count)(x.len() as u64),
            );
            let angle = (o.times)((o.count)(pos), (o.pow)(freq_base, e));
            let (s, c) = ((o.sin)(angle), (o.cos)(angle));
            &&& y[2 * i] == (o.minus)((o.times)(x[2 * i], c), (o.times)(x[2 * i + 1], s))
            &&& y[2 * i + 1] == (o.plus)((o.times)(x[2 * i], s), (o.times)(x[2 * i + 1], c))
        }),
{
    assert(pair_rotated::<A>(x, pos, freq_base, y, i));
    let (angle, s, c) = choose|angle: A::Num, s: A::Num, c: A::Num|
        {
            &&& angle_is::<A>(pos, i as u64, x.len() as u64, freq_base, angle)
            &&& #[trigger] sin_cos_is::<A>(angle, s, c)
            &&& rotation_is::<A>(x[2 * i], x[2 * i + 1], s, c, y[2 * i], y[2 * i + 1])
        };
    let parts = lemma_angle_parts::<A>(pos, i as u64, x.len() as u64, freq_base, angle);
}

/// Pair `i` of head `h`, for every pair of every head, is turned by the angle
/// `pos * freq_base ^ (-2 i / head_dim)`: the frequencies start anew in each head.
pub proof fn law_rope_heads_written_out<A: Arith>(
    o: Ops<A::Num>,
    x: Seq<A::Num>,
    head_dim: nat,
    pos: u64,
    freq_base: A::Num,
    y: Seq<A::Num>,
    h: int,
    i: int,
)
    requires
        follows::<A>(o),
        head_dim > 0,
        x.len() % head_dim == 0,
        y.len() == x.len(),
        forall|h: int|
            0 <= h < x.len() / head_dim ==> #[trigger] rope_is::<A>(
                head(x, head_dim, h),
                pos,
                freq_base,
                head(y, head_dim, h),
            ),
        0 <= h < x.len() / head_dim,
        0 <= 2 * i,
        2 * i + 1 < head_dim,
    ensures
        ({
            let e = (o.over)(
                (o.times)((o.int)((-2) as i8), (o.count)(i as u64)),
                (o.count)(head_dim as u64),
            );
            let angle = (o.times)((o.count)(pos), (o.pow)(freq_base, e));
            let (s, c) = ((o.sin)(angle), (o.cos)(angle));
            let at = h * head_dim + 2 * i;
            &&& y[at] == (o.minus)((o.times)(x[at], c), (o.times)(x[at + 1], s))
            &&& y[at + 1] == (o.plus)((o.times)(x[at], s), (o.times)(x[at + 1], c))
        }),
{
    let (a, b) = (head(x, head_dim, h), head(y, head_dim, h));
    let d = head_dim as int;
    vstd::arithmetic::div_mod::lemma_fundamental_div_mod(x.len() as int, d);
    let heads = x.len() as int / d;
    assert(heads * d == d * heads) by (nonlinear_arith);
    lemma_row_in_matrix(h, heads, d);
    assert((h + 1) * d == h * d + d) by (nonlinear_arith);
    assert(rope_is::<A>(a, pos, freq_base, b));
    law_rope_written_out::<A>(o, a, pos, freq_base, b, i);
    assert(a[2 * i] == x[h * d + 2 * i] && a[2 * i + 1] == x[h * d + 2 * i + 1]);
    assert(b[2 * i] == y[h * d + 2 * i] && b[2 * i + 1] == y[h * d + 2 * i + 1]);
}

/// The attention weights of a query head `q` on a key/value head, written out.
proof fn lemma_weights<A: Arith>(
    o: Ops<A::Num>,
    q: Seq<A::Num>,
    k: Seq<A::Num>,
    kv_dim: int,
    kv_h: int,
    n: nat,
    inv_sqrt_d: A::Num,
    weights: Seq<A::Num>,
    p: int,
)
    requires
        follows::<A>(o),
        n > 0,
        0 <= kv_dim,
        0 <= kv_h,
        (n - 1) * kv_dim + (kv_h + 1) * q.len() <= k.len(),
        weights_are::<A>(q, k, kv_dim, kv_h, n, inv_sqrt_d, weights),
        0 <= p < n,
    ensures
        weights.len() == n,
        ({
            let d = q.len() as int;
            let scores = Seq::new(
                n,
                |t: int|
                    (o.times)(
                        Seq::new(
                            q.len(),
                            |i: int| (o.times)(q[i], k[t * kv_dim + kv_h * d + i]),
                        ).fold_left(o.empty, o.plus),
                        inv_sqrt_d,
                    ),
            );
            let m = scores.fold_left(o.low, o.max);
            let e = Seq::new(n, |t: int| (o.exp)((o.minus)(scores[t], m)));
            weights[p] == (o.over)(e[p], e.fold_left(o.empty, o.plus))
        }),
{
    let d = q.len() as int;
    let scores = choose|scores: Seq<A::Num>|
        {
            &&& scores.len() == n
            &&& forall|p: int|
                0 <= p < n ==> score_is::<A>(
                    q,
                    head_at(k, kv_dim, p, kv_h, q.len() as int),
                    inv_sqrt_d,
                    #[trigger] scores[p],
                )
            &&& #[trigger] softmax_is::<A>(scores, weights)
        };
    let plain = Seq::new(
        n,
        |t: int|
            (o.times)(
                Seq::new(q.len(), |i: int| (o.times)(q[i], k[t * kv_dim + kv_h * d + i])).fold_left(
                    o.empty,
                    o.plus,
                ),
                inv_sqrt_d,
            ),
    );
    assert forall|t: int| 0 <= t < n implies #[trigger] scores[t] == plain[t] by {
        let key = head_at(k, kv_dim, t, kv_h, d);
        assert(score_is::<A>(q, key, inv_sqrt_d, scores[t]));
        let dot = choose|dot: A::Num|
            inner_is::<A>(q, key, dot) && #[trigger] product_is::<A>(dot, inv_sqrt_d, scores[t]);
        lemma_inner::<A>(o, q, key, dot);
        assert(t * kv_dim <= (n - 1) * kv_dim && 0 <= t * kv_dim) by (nonlinear_arith)
            requires
                0 <= t <= n - 1,
                0 <= kv_dim,
        ;
        assert((kv_h + 1) * d == kv_h * d + d && 0 <= kv_h * d) by (nonlinear_arith)
            requires
                0 <= kv_h,
                0 <= d,
        ;
        assert(Seq::new(q.len(), |i: int| (o.times)(q[i], key[i])) =~= Seq::new(
            q.len(),
            |i: int| (o.times)(q[i], k[t * kv_dim + kv_h * d + i]),
        ));
    }
    assert(scores =~= plain);
    law_softmax_written_out::<A>(o, scores, weights, p);
}

/// Query heads come in groups of `n_heads / n_kv_heads`, one after the other, and
/// group `g` attends to key/value head `g`: element `d` of the output of head `r` of
/// group `g` is the sum over the positions of the values of key/value head `g`, each
/// weighted by the softmax of the scaled dot products of the query of that very head
/// with the keys of key/value head `g`.
#[verifier::rlimit(50)]
pub proof fn law_attention_written_out<A: Arith>(
    o: Ops<A::Num>,
    q: Seq<A::Num>,
    k: Seq<A::Num>,
    v: Seq<A::Num>,
    kv_dim: int,
    n_kv_heads: int,
    per: int,
    head_dim: usize,
    n: nat,
    out: Seq<A::Num>,
    g: int,
    r: int,
    d: int,
)
    requires
        follows::<A>(o),
        n > 0,
        0 <= kv_dim,
        0 <= g < n_kv_heads,
        0 <= r < per,
        0 <= d < head_dim,
        q.len() == (n_kv_heads * per) * head_dim,
        out.len() == (n_kv_heads * per) * head_dim,
        (n - 1) * kv_dim + n_kv_heads * head_dim <= k.len(),
        (n - 1) * kv_dim + n_kv_heads * head_dim <= v.len(),
        attention_is::<A>(q, k, v, kv_dim, n_kv_heads * per, n_kv_heads, head_dim, n, out),
    ensures
        ({
            let hd = head_dim as int;
            let h = g * per + r;
            let root = (o.over)((o.int)(1), (o.sqrt)((o.count)(head_dim as u64)));
            let scores = Seq::new(
                n,
                |t: int|
                    (o.times)(
                        Seq::new(
                            head_dim as nat,
                            |i: int| (o.times)(q[h * hd + i], k[t * kv_dim + g * hd + i]),
                        ).fold_left(o.empty, o.plus),
                        root,
                    ),
            );
            let m = scores.fold_left(o.low, o.max);
            let e = Seq::new(n, |t: int| (o.exp)((o.minus)(scores[t], m)));
            let total = e.fold_left(o.empty, o.plus);
            out[h * hd + d] == Seq::new(
                n,
                |t: int| (o.times)((o.over)(e[t], total), v[t * kv_dim + g * hd + d]),
            ).fold_left((o.int)(0), o.plus)
        }),
{
    let hd = head_dim as int;
    let n_heads = n_kv_heads * per;
    let h = g * per + r;
    lemma_group(g, r, per, n_kv_heads);
    let root = choose|inv_sqrt_d: A::Num|
        {
            &&& #[trigger] inv_sqrt_is::<A>(head_dim as u64, inv_sqrt_d)
            &&& forall|h: int|
                0 <= h < n_heads ==> #[trigger] head_attention_is::<A>(
                    head(q, head_dim as nat, h),
                    k,
                    v,
                    kv_dim,
                    h / (n_heads / n_kv_heads),
                    n,
                    inv_sqrt_d,
                    head(out, head_dim as nat, h),
                )
        };
    let count = choose|count: A::Num|
        #[trigger] count_is::<A>(head_dim as u64, count) && rsqrt_is::<A>(count, root);
    lemma_rsqrt::<A>(o, count, root);
    let (q_h, out_h) = (head(q, hd as nat, h), head(out, hd as nat, h));
    lemma_row_in_matrix(h, n_heads, hd);
    lemma_row_in_matrix(g, n_kv_heads, hd);
    assert((h + 1) * hd == h * hd + hd && (g + 1) * hd == g * hd + hd) by (nonlinear_arith);
    assert(head_attention_is::<A>(q_h, k, v, kv_dim, g, n, root, out_h));
    let weights = choose|weights: Seq<A::Num>|
        {
            &&& #[trigger] weights_are::<A>(q_h, k, kv_dim, g, n, root, weights)
            &&& forall|d: int|
                0 <= d < q_h.len() ==> weighted_sum_is::<A>(
                    weights,
                    value_column(v, kv_dim, g, q_h.len() as int, n, d),
                    #[trigger] out_h[d],
                )
        };
    let column = value_column(v, kv_dim, g, hd, n, d);
    assert(weighted_sum_is::<A>(weights, column, out_h[d]));
    let zero = choose|zero: A::Num|
        #[trigger] int_is::<A>(0, zero) && mac_is::<A>(
            zero,
            weights,
            column,
            column.len(),
            out_h[d],
        );
    lemma_mac_folds::<A>(o, zero, weights, column, n, out_h[d]);
    let scores = Seq::new(
        n,
        |t: int|
            (o.times)(
                Seq::new(
                    head_dim as nat,
                    |i: int| (o.times)(q[h * hd + i], k[t * kv_dim + g * hd + i]),
                ).fold_left(o.empty, o.plus),
                root,
            ),
    );
    let by_head = Seq::new(
        n,
        |t: int|
            (o.times)(
                Seq::new(
                    q_h.len(),
                    |i: int| (o.times)(q_h[i], k[t * kv_dim + g * hd + i]),
                ).fold_left(o.empty, o.plus),
                root,
            ),
    );
    assert forall|t: int| 0 <= t < n implies #[trigger] scores[t] == by_head[t] by {
        assert(Seq::new(
            head_dim as nat,
            |i: int| (o.times)(q[h * hd + i], k[t * kv_dim + g * hd + i]),
        ) =~= Seq::new(q_h.len(), |i: int| (o.times)(q_h[i], k[t * kv_dim + g * hd + i])));
    }
    assert(scores =~= by_head);
    let m = scores.fold_left(o.low, o.max);
    let e = Seq::new(n, |t: int| (o.exp)((o.minus)(scores[t], m)));
    let total = e.fold_left(o.empty, o.plus);
    let plain = Seq::new(
        n,
        |t: int| (o.times)((o.over)(e[t], total), v[t * kv_dim + g * hd + d]),
    );
    let made = Seq::new(n, |t: int| (o.times)(weights[t], column[t]));
    assert forall|t: int| 0 <= t < n implies #[trigger] made[t] == plain[t] by {
        lemma_weights::<A>(o, q_h, k, kv_dim, g, n, root, weights, t);
        assert(t * kv_dim <= (n - 1) * kv_dim && 0 <= t * kv_dim) by (nonlinear_arith)
            requires
                0 <= t <= n - 1,
                0 <= kv_dim,
        ;
        assert(column[t] == v[t * kv_dim + g * hd + d]);
    }
    assert(made =~= plain);
}

/// Head `r` of group `g` is in group `g`.
pub proof fn lemma_group(g: int, r: int, per: int, groups: int)
    requires
        0 <= g < groups,
        0 <= r < per,
    ensures
        0 <= g * per + r < groups * per,
        (groups * per) / groups == per,
        (g * per + r) / ((groups * per) / groups) == g,
{
    assert(0 <= g * per && g * per + per <= groups * per) by (nonlinear_arith)
        requires
            0 <= g < groups,
            0 <= per,
    ;
    vstd::arithmetic::div_mod::lemma_div_multiples_vanish(per, groups);
    assert(groups * per == per * groups) by (nonlinear_arith);
    vstd::arithmetic::div_mod::lemma_fundamental_div_mod_converse(g * per + r, per, g, r);
}

/// The attention pattern gives a position the mean over all query heads of the
/// weights that it has in them; a head of group `g` has those of its own query on
/// the keys of key/value head `g`.
pub proof fn law_pattern_written_out<A: Arith>(
    o: Ops<A::Num>,
    q: Seq<A::Num>,
    k: Seq<A::Num>,
    kv_dim: int,
    n_heads: u64,
    n_kv_heads: int,
    head_dim: usize,
    pattern: Seq<A::Num>,
    p: int,
)
    requires
        follows::<A>(o),
        0 <= kv_dim,
        0 < n_kv_heads <= n_heads,
        n_heads * head_dim <= q.len(),
        (pattern.len() - 1) * kv_dim + ((n_heads - 1) / (n_heads as int / n_kv_heads) + 1)
            * head_dim <= k.len(),
        pattern_is::<A>(q, k, kv_dim, n_heads, n_kv_heads, head_dim, pattern),
        0 <= p < pattern.len(),
    ensures
        ({
            let (hd, n) = (head_dim as int, pattern.len());
            let per = n_heads as int / n_kv_heads;
            let root = (o.over)((o.int)(1), (o.sqrt)((o.count)(head_dim as u64)));
            let scores = |h: int|
                Seq::new(
                    n,
                    |t: int|
                        (o.times)(
                            Seq::new(
                                head_dim as nat,
                                |i: int|
                                    (o.times)(q[h * hd + i], k[t * kv_dim + (h / per) * hd + i]),
                            ).fold_left(o.empty, o.plus),
                            root,
                        ),
                );
            let e = |h: int|
                Seq::new(
                    n,
                    |t: int|
                        (o.exp)((o.minus)(scores(h)[t], scores(h).fold_left(o.low, o.max))),
                );
            let weight = |h: int| (o.over)(e(h)[p], e(h).fold_left(o.empty, o.plus));
            pattern[p] == (o.times)(
                Seq::new(n_heads as nat, weight).fold_left((o.int)(0), o.plus),
                (o.over)((o.int)(1), (o.count)(n_heads)),
            )
        }),
{
    let (hd, n) = (head_dim as int, pattern.len());
    let per = n_heads as int / n_kv_heads;
    let (root, inv_n, weights) = choose|
        inv_sqrt_d: A::Num,
        inv_n: A::Num,
        weights: Seq<Seq<A::Num>>,
    |
        {
            &&& #[trigger] inv_sqrt_is::<A>(head_dim as u64, inv_sqrt_d)
            &&& reciprocal_is::<A>(n_heads, inv_n)
            &&& weights.len() == n_heads
            &&& forall|h: int|
                0 <= h < n_heads ==> weights_are::<A>(
                    head(q, head_dim as nat, h),
                    k,
                    kv_dim,
                    h / (n_heads as int / n_kv_heads),
                    pattern.len(),
                    inv_sqrt_d,
                    #[trigger] weights[h],
                )
            &&& #[trigger] average_is::<A>(weights, inv_n, pattern)
        };
    let count = choose|count: A::Num|
        #[trigger] count_is::<A>(head_dim as u64, count) && rsqrt_is::<A>(count, root);
    lemma_rsqrt::<A>(o, count, root);
    assert(average_at::<A>(weights, inv_n, p, pattern[p]));
    let (zero, s) = choose|zero: A::Num, s: A::Num|
        {
            &&& int_is::<A>(0, zero)
            &&& #[trigger] running_sum_is::<A>(zero, given_to(weights, p), weights.len(), s)
            &&& product_is::<A>(s, inv_n, pattern[p])
        };
    let given = given_to(weights, p);
    lemma_sum_folds::<A>(o, zero, given, n_heads as nat, s);
    assert(given.take(n_heads as int) =~= given);
    let scores = |h: int|
        Seq::new(
            n,
            |t: int|
                (o.times)(
                    Seq::new(
                        head_dim as nat,
                        |i: int| (o.times)(q[h * hd + i], k[t * kv_dim + (h / per) * hd + i]),
                    ).fold_left(o.empty, o.plus),
                    root,
                ),
        );
    let e = |h: int|
        Seq::new(
            n,
            |t: int| (o.exp)((o.minus)(scores(h)[t], scores(h).fold_left(o.low, o.max))),
        );
    let weight = |h: int| (o.over)(e(h)[p], e(h).fold_left(o.empty, o.plus));
    vstd::arithmetic::div_mod::lemma_div_non_zero(n_heads as int, n_kv_heads);
    assert forall|h: int| 0 <= h < n_heads implies #[trigger] given[h] == weight(h) by {
        let (q_h, kv_h) = (head(q, hd as nat, h), h / per);
        lemma_row_in_matrix(h, n_heads as int, hd);
        assert((h + 1) * hd == h * hd + hd) by (nonlinear_arith);
        vstd::arithmetic::div_mod::lemma_div_is_ordered(h, n_heads - 1, per);
        vstd::arithmetic::div_mod::lemma_div_pos_is_pos(h, per);
        let top = (n_heads - 1) / per + 1;
        assert((kv_h + 1) * hd <= top * hd) by (nonlinear_arith)
            requires
                kv_h + 1 <= top,
                0 <= hd,
        ;
        assert(weights_are::<A>(q_h, k, kv_dim, kv_h, n, root, weights[h]));
        lemma_weights::<A>(o, q_h, k, kv_dim, kv_h, n, root, weights[h], p);
        let by_head = Seq::new(
            n,
            |t: int|
                (o.times)(
                    Seq::new(
                        q_h.len(),
                        |i: int| (o.times)(q_h[i], k[t * kv_dim + kv_h * hd + i]),
                    ).fold_left(o.empty, o.plus),
                    root,
                ),
        );
        assert forall|t: int| 0 <= t < n implies #[trigger] by_head[t] == scores(h)[t] by {
            assert(Seq::new(
                head_dim as nat,
                |i: int| (o.times)(q[h * hd + i], k[t * kv_dim + kv_h * hd + i]),
            ) =~= Seq::new(
                q_h.len(),
                |i: int| (o.times)(q_h[i], k[t * kv_dim + kv_h * hd + i]),
            ));
        }
        assert(by_head =~= scores(h));
        let m = by_head.fold_left(o.low, o.max);
        assert(Seq::new(n, |t: int| (o.exp)((o.minus)(by_head[t], m))) =~= e(h));
        assert(given[h] == weights[h][p]);
    }
    assert(given =~= Seq::new(n_heads as nat, weight));
}

/// `silu(x)` is `x` over one plus the exponential of `-x`.
pub proof fn law_silu_written_out<A: Arith>(o: Ops<A::Num>, x: A::Num, r: A::Num)
    requires
        follows::<A>(o),
        silu_is::<A>(x, r),
    ensures
        r == (o.over)(x, (o.plus)((o.int)(1), (o.exp)((o.negate)(x)))),
{
}

/// The gated part of a feed-forward network multiplies `silu` of each gate with the
/// number at the same place; sums are taken place by place.
pub proof fn law_gates_and_sums_written_out<A: Arith>(
    o: Ops<A::Num>,
    gate: Seq<A::Num>,
    up: Seq<A::Num>,
    y: Seq<A::Num>,
    a: Seq<A::Num>,
    b: Seq<A::Num>,
    z: Seq<A::Num>,
)
    requires
        follows::<A>(o),
        gated_is::<A>(gate, up, y),
        sums_are::<A>(a, b, z),
    ensures
        y == Seq::new(
            gate.len(),
            |i: int|
                (o.times)(
                    (o.over)(gate[i], (o.plus)((o.int)(1), (o.exp)((o.negate)(gate[i])))),
                    up[i],
                ),
        ),
        z == Seq::new(a.len(), |i: int| (o.plus)(a[i], b[i])),
{
    let plain = Seq::new(
        gate.len(),
        |i: int|
            (o.times)(
                (o.over)(gate[i], (o.plus)((o.int)(1), (o.exp)((o.negate)(gate[i])))),
                up[i],
            ),
    );
    assert forall|i: int| 0 <= i < y.len() implies #[trigger] y[i] == plain[i] by {
        assert(gated_at::<A>(gate[i], up[i], y[i]));
        let s = choose|s: A::Num|
            #[trigger] silu_is::<A>(gate[i], s) && product_is::<A>(s, up[i], y[i]);
        law_silu_written_out::<A>(o, gate[i], s);
    }
    assert(y =~= plain);
    assert forall|i: int| 0 <= i < z.len() implies #[trigger] z[i] == (o.plus)(a[i], b[i]) by {
        assert(sum_is::<A>(a[i], b[i], z[i]));
    }
    assert(z =~= Seq::new(a.len(), |i: int| (o.plus)(a[i], b[i])));
}

/// The Euclidean norm is the root of the sum of all squares.
pub proof fn law_norm_written_out<A: Arith>(o: Ops<A::Num>, x: Seq<A::Num>, r: A::Num)
    requires
        follows::<A>(o),
        l2_is::<A>(x, r),
    ensures
        r == (o.sqrt)(
            Seq::new(x.len(), |i: int| (o.times)(x[i], x[i])).fold_left(o.empty, o.plus),
        ),
{
    let s = choose|s: A::Num| inner_is::<A>(x, x, s) && #[trigger] sqrt_is::<A>(s, r);
    lemma_inner::<A>(o, x, x, s);
}

/// The greatest so far, as a fold.
proof fn lemma_peak_folds<A: Arith>(
    o: Ops<A::Num>,
    xs: Seq<A::Num>,
    start: A::Num,
    n: nat,
    r: A::Num,
)
    requires
        follows::<A>(o),
        n <= xs.len(),
        peak_is::<A>(xs, start, n, r),
    ensures
        r == xs.take(n as int).fold_left(
            start,
            |m: A::Num, x: A::Num|
                if (o.gt)(x, m) {
                    x
                } else {
                    m
                },
        ),
    decreases n,
{
    if n > 0 {
        let m = (n - 1) as nat;
        let (s, higher) = choose|s: A::Num, higher: bool|
            {
                &&& peak_is::<A>(xs, start, m, s)
                &&& #[trigger] exceeds_is::<A>(xs[n - 1], s, higher)
                &&& r == (if higher {
                    xs[n - 1]
                } else {
                    s
                })
            };
        lemma_peak_folds::<A>(o, xs, start, m, s);
        assert(xs.take(n as int).drop_last() =~= xs.take(m as int));
    }
}

/// Two vectors are compared by the distances of all their elements: the greatest of
/// them, from zero, and the root of the mean of their squares.
pub proof fn law_differences_written_out<A: Arith>(
    o: Ops<A::Num>,
    a: Seq<A::Num>,
    b: Seq<A::Num>,
    d: Seq<A::Num>,
    max: A::Num,
    rms: A::Num,
)
    requires
        follows::<A>(o),
        distances_are::<A>(a, b, d),
        differences_are::<A>(d, max, rms),
    ensures
        ({
            let far = Seq::new(a.len(), |i: int| (o.abs)((o.minus)(a[i], b[i])));
            let squares = Seq::new(a.len(), |i: int| (o.times)(far[i], far[i]));
            &&& max == far.fold_left(
                (o.int)(0),
                |m: A::Num, x: A::Num|
                    if (o.gt)(x, m) {
                        x
                    } else {
                        m
                    },
            )
            &&& rms == (o.sqrt)(
                (o.over)(squares.fold_left((o.int)(0), o.plus), (o.count)(a.len() as u64)),
            )
        }),
{
    let far = Seq::new(a.len(), |i: int| (o.abs)((o.minus)(a[i], b[i])));
    assert forall|i: int| 0 <= i < a.len() implies #[trigger] d[i] == far[i] by {
        assert(distance_is::<A>(a[i], b[i], d[i]));
    }
    assert(d =~= far);
    let (zero, sum, n, mean) = choose|zero: A::Num, sum: A::Num, n: A::Num, mean: A::Num|
        {
            &&& int_is::<A>(0, zero)
            &&& peak_is::<A>(d, zero, d.len(), max)
            &&& #[trigger] mac_is::<A>(zero, d, d, d.len(), sum)
            &&& count_is::<A>(d.len() as u64, n)
            &&& #[trigger] quotient_is::<A>(sum, n, mean)
            &&& sqrt_is::<A>(mean, rms)
        };
    lemma_peak_folds::<A>(o, d, zero, d.len(), max);
    assert(d.take(d.len() as int) =~= d);
    lemma_mac_folds::<A>(o, zero, d, d, d.len(), sum);
    assert(Seq::new(d.len(), |i: int| (o.times)(d[i], d[i])) =~= Seq::new(
        a.len(),
        |i: int| (o.times)(far[i], far[i]),
    ));
}

/// The greatest magnitude so far, as a fold.
proof fn lemma_abs_max_folds<A: Arith>(
    o: Ops<A::Num>,
    start: A::Num,
    xs: Seq<A::Num>,
    n: nat,
    r: A::Num,
)
    requires
        follows::<A>(o),
        n <= xs.len(),
        running_abs_max_is::<A>(start, xs, n, r),
    ensures
        r == Seq::new(n, |i: int| (o.abs)(xs[i])).fold_left(start, o.max),
    decreases n,
{
    if n > 0 {
        let m = (n - 1) as nat;
        let (s, a) = choose|s: A::Num, a: A::Num|
            {
                &&& running_abs_max_is::<A>(start, xs, m, s)
                &&& #[trigger] abs_is::<A>(xs[n - 1], a)
                &&& #[trigger] max_is::<A>(s, a, r)
            };
        lemma_abs_max_folds::<A>(o, start, xs, m, s);
        assert(Seq::new(n, |i: int| (o.abs)(xs[i])).drop_last() =~= Seq::new(
            m,
            |i: int| (o.abs)(xs[i]),
        ));
    }
}

/// The mean is the sum of all numbers over how many they are, and the greatest
/// magnitude the greatest of the magnitudes of all, from zero.
pub proof fn law_tensor_statistics_written_out<A: Arith>(
    o: Ops<A::Num>,
    xs: Seq<A::Num>,
    mean: A::Num,
    abs_max: A::Num,
)
    requires
        follows::<A>(o),
        mean_is::<A>(xs, mean),
        abs_max_is::<A>(xs, abs_max),
    ensures
        mean == (o.over)(xs.fold_left(o.empty, o.plus), (o.count)(xs.len() as u64)),
        abs_max == Seq::new(xs.len(), |i: int| (o.abs)(xs[i])).fold_left((o.int)(0), o.max),
{
    let (total, n) = choose|total: A::Num, n: A::Num|
        {
            &&& total_is::<A>(xs, total)
            &&& count_is::<A>(xs.len() as u64, n)
            &&& #[trigger] quotient_is::<A>(total, n, mean)
        };
    lemma_total::<A>(o, xs, total);
    let zero = choose|zero: A::Num|
        #[trigger] int_is::<A>(0, zero) && running_abs_max_is::<A>(
            zero,
            xs,
            xs.len(),
            abs_max,
        );
    lemma_abs_max_folds::<A>(o, zero, xs, xs.len(), abs_max);
}

/// Times are amounts over rates, in milliseconds: cycles over the clock, and work
/// over a peak rate, each rate in units of 10^9 per second.
pub proof fn law_times_written_out<A: Arith>(
    o: Ops<A::Num>,
    cycles: u64,
    clock_ghz: A::Num,
    ms: A::Num,
    amount: A::Num,
    rate: A::Num,
    span: A::Num,
)
    requires
        follows::<A>(o),
        milliseconds_are::<A>(cycles, clock_ghz, ms),
        span_is::<A>(amount, rate, span),
    ensures
        ms == (o.times)(
            (o.over)((o.count)(cycles), (o.times)(clock_ghz, (o.count)(1_000_000_000))),
            (o.count)(1000),
        ),
        span == (o.times)(
            (o.over)(amount, (o.times)(rate, (o.count)(1_000_000_000))),
            (o.count)(1000),
        ),
{
}

/// A matrix-vector product takes two operations per weight; it reads 34 bytes per 32
/// weights, and four bytes per input and per output.
pub proof fn law_linear_costs_written_out<A: Arith>(
    o: Ops<A::Num>,
    op: LinearOp,
    flops: A::Num,
    bytes: A::Num,
)
    requires
        follows::<A>(o),
        op.flops_are::<A>(flops),
        op.bytes_are::<A>(bytes),
    ensures
        flops == (o.times)((o.int)(2), (o.count)((op.in_dim * op.out_dim) as u64)),
        bytes == (o.plus)(
            (o.times)(
                (o.count)((op.in_dim * op.out_dim) as u64),
                (o.over)((o.count)(34), (o.count)(32)),
            ),
            (o.count)(((op.in_dim + op.out_dim) * 4) as u64),
        ),
{
}

/// The costs of some operations are added up over all of them, from zero.
pub proof fn law_totals_written_out<A: Arith>(
    o: Ops<A::Num>,
    ops: Seq<LinearOp>,
    flops_each: Seq<A::Num>,
    flops: A::Num,
    bytes_each: Seq<A::Num>,
    bytes: A::Num,
)
    requires
        follows::<A>(o),
        flops_total_is::<A>(ops, flops_each, flops),
        bytes_total_is::<A>(ops, bytes_each, bytes),
    ensures
        flops == Seq::new(
            ops.len(),
            |i: int|
                (o.times)((o.int)(2), (o.count)((ops[i].in_dim * ops[i].out_dim) as u64)),
        ).fold_left((o.int)(0), o.plus),
        bytes == Seq::new(
            ops.len(),
            |i: int|
                (o.plus)(
                    (o.times)(
                        (o.count)((ops[i].in_dim * ops[i].out_dim) as u64),
                        (o.over)((o.count)(34), (o.count)(32)),
                    ),
                    (o.count)(((ops[i].in_dim + ops[i].out_dim) * 4) as u64),
                ),
        ).fold_left((o.int)(0), o.plus),
{
    let z1 = choose|zero: A::Num|
        #[trigger] int_is::<A>(0, zero) && running_sum_is::<A>(
            zero,
            flops_each,
            flops_each.len(),
            flops,
        );
    let z2 = choose|zero: A::Num|
        #[trigger] int_is::<A>(0, zero) && running_sum_is::<A>(
            zero,
            bytes_each,
            bytes_each.len(),
            bytes,
        );
    lemma_sum_folds::<A>(o, z1, flops_each, flops_each.len(), flops);
    lemma_sum_folds::<A>(o, z2, bytes_each, bytes_each.len(), bytes);
    assert(flops_each.take(flops_each.len() as int) =~= flops_each);
    assert(bytes_each.take(bytes_each.len() as int) =~= bytes_each);
    let f = Seq::new(
        ops.len(),
        |i: int| (o.times)((o.int)(2), (o.count)((ops[i].in_dim * ops[i].out_dim) as u64)),
    );
    let b = Seq::new(
        ops.len(),
        |i: int|
            (o.plus)(
                (o.times)(
                    (o.count)((ops[i].in_dim * ops[i].out_dim) as u64),
                    (o.over)((o.count)(34), (o.count)(32)),
                ),
                (o.count)(((ops[i].in_dim + ops[i].out_dim) * 4) as u64),
            ),
    );
    assert forall|i: int| 0 <= i < ops.len() implies #[trigger] flops_each[i] == f[i]
        && bytes_each[i] == b[i] by {
        assert(ops[i].flops_are::<A>(flops_each[i]));
        assert(ops[i].bytes_are::<A>(bytes_each[i]));
        law_linear_costs_written_out::<A>(o, ops[i], flops_each[i], bytes_each[i]);
    }
    assert forall|i: int| 0 <= i < ops.len() implies #[trigger] bytes_each[i] == b[i] by {
        assert(flops_each[i] == f[i]);
    }
    assert(flops_each =~= f);
    assert(bytes_each =~= b);
}

/// The size of a block counts four bytes for each weight of its two norms, and one
/// for each other weight.
pub proof fn law_size_written_out<A: Arith, F: Arith>(
    o: Ops<F::Num>,
    layer: &LayerWeights<A>,
    mb: F::Num,
)
    requires
        follows::<F>(o),
        size_mb_is::<A, F>(layer, mb),
    ensures
        mb == (o.over)(
            (o.count)(
                (4 * layer.attn_norm@.len() + 4 * layer.ffn_norm@.len() + layer.wq@.len()
                    + layer.wk@.len() + layer.wv@.len() + layer.wo@.len() + layer.w_gate@.len()
                    + layer.w_up@.len() + layer.w_down@.len()) as u64,
            ),
            (o.count)(1_000_000),
        ),
{
}

/// Element `i` of block `b` of `Q8_0` bytes is the scale of that block, which its
/// first two bytes hold as a 16-bit float, times its own byte, taken as a signed
/// number.
pub proof fn law_q8_0_written_out<A: Arith>(
    o: Ops<A::Num>,
    src: Seq<u8>,
    b: int,
    i: int,
    r: A::Num,
)
    requires
        follows::<A>(o),
        0 <= b,
        0 <= i < 32,
        q8_0_is::<A>(src, b * 32 + i, r),
    ensures
        exists|s: u32|
            {
                &&& #[trigger] widened((src[b * 34] + 256 * src[b * 34 + 1]) as u16, s)
                &&& r == (o.times)(
                    (o.bits)(s),
                    (o.int)(
                        if src[b * 34 + 2 + i] < 128 {
                            src[b * 34 + 2 + i] as i8
                        } else {
                            (src[b * 34 + 2 + i] - 256) as i8
                        },
                    ),
                )
            },
{
    let k = b * 32 + i;
    assert(k / 32 == b && k % 32 == i);
    let byte = src[b * 34 + 2 + i];
    assert(byte >= 128 ==> byte as i8 == byte - 256) by (bit_vector);
    let (scale, q) = choose|scale: A::Num, q: A::Num|
        {
            &&& half_is::<A>(le_u16(src, (k / 32) * 34), scale)
            &&& int_is::<A>(src[(k / 32) * 34 + 2 + k % 32] as i8, q)
            &&& #[trigger] product_is::<A>(scale, q, r)
        };
    let s = choose|s: u32|
        #[trigger] widened(le_u16(src, (k / 32) * 34), s) && bits_are::<A>(s, scale);
    assert(widened((src[b * 34] + 256 * src[b * 34 + 1]) as u16, s));
}

/// Every element of dequantized bytes comes of its own bytes: four little-endian
/// ones of a 32-bit float, two of a 16-bit float, or its place in its `Q8_0` block.
#[verifier::rlimit(50)]
pub proof fn law_elements_written_out<A: Arith>(
    o: Ops<A::Num>,
    dtype: TensorType,
    src: Seq<u8>,
    dst: Seq<A::Num>,
    i: int,
)
    requires
        follows::<A>(o),
        dequantized_is::<A>(dtype, src, dst),
        0 <= i < dst.len(),
    ensures
        dtype == TensorType::F32 || dtype == TensorType::F16 || dtype == TensorType::Q8_0,
        dtype == TensorType::F32 ==> dst[i] == (o.bits)(
            (src[4 * i] + 256 * src[4 * i + 1] + 65536 * src[4 * i + 2] + 16777216 * src[4 * i
                + 3]) as u32,
        ),
        dtype == TensorType::F16 ==> exists|s: u32|
            #[trigger] widened((src[2 * i] + 256 * src[2 * i + 1]) as u16, s) && dst[i]
                == (o.bits)(s),
        dtype == TensorType::Q8_0 ==> exists|s: u32|
            {
                let at = (i / 32) * 34;
                let byte = src[at + 2 + i % 32];
                &&& #[trigger] widened(
                    (src[(i / 32) * 34] + 256 * src[(i / 32) * 34 + 1]) as u16,
                    s,
                )
                &&& dst[i] == (o.times)(
                    (o.bits)(s),
                    (o.int)(
                        if byte < 128 {
                            byte as i8
                        } else {
                            (byte - 256) as i8
                        },
                    ),
                )
            },
{
    assert(element_is::<A>(dtype, src, i, dst[i]));
    if dtype == TensorType::F16 {
        let s = choose|s: u32|
            #[trigger] widened(le_u16(src, 2 * i), s) && bits_are::<A>(s, dst[i]);
        assert(widened((src[2 * i] + 256 * src[2 * i + 1]) as u16, s));
    }
    if dtype == TensorType::Q8_0 {
        let b = i / 32;
        assert(i == b * 32 + i % 32);
        law_q8_0_written_out::<A>(o, src, b, i % 32, dst[i]);
        let s = choose|s: u32|
            {
                &&& #[trigger] widened((src[b * 34] + 256 * src[b * 34 + 1]) as u16, s)
                &&& dst[i] == (o.times)(
                    (o.bits)(s),
                    (o.int)(
                        if src[b * 34 + 2 + i % 32] < 128 {
                            src[b * 34 + 2 + i % 32] as i8
                        } else {
                            (src[b * 34 + 2 + i % 32] - 256) as i8
                        },
                    ),
                )
            };
        assert(widened((src[(i / 32) * 34] + 256 * src[(i / 32) * 34 + 1]) as u16, s));
    }
}

/// The leader so far, as a fold over the indices.
proof fn lemma_leads_folds<A: Arith>(
    o: Ops<A::Num>,
    xs: Seq<A::Num>,
    start: A::Num,
    n: nat,
    i: int,
    v: A::Num,
)
    requires
        follows::<A>(o),
        leads::<A>(xs, start, n, i, v),
    ensures
        (i, v) == Seq::new(n, |k: int| k).fold_left(
            (0int, start),
            |best: (int, A::Num), k: int|
                if (o.gt)(xs[k], best.1) {
                    (k, xs[k])
                } else {
                    best
                },
        ),
    decreases n,
{
    if n > 0 {
        let m = (n - 1) as nat;
        let (j, u, beaten) = choose|j: int, u: A::Num, beaten: bool|
            {
                &&& leads::<A>(xs, start, m, j, u)
                &&& #[trigger] exceeds_is::<A>(xs[n - 1], u, beaten)
                &&& #[trigger] leader_is::<A>(xs, n - 1, j, u, beaten, i, v)
            };
        lemma_leads_folds::<A>(o, xs, start, m, j, u);
        assert(Seq::new(n, |k: int| k).drop_last() =~= Seq::new(m, |k: int| k));
    }
}

/// The index of the greatest number goes over all numbers in their order, and changes
/// only where a number exceeds the best so far.
pub proof fn law_argmax_written_out<A: Arith>(o: Ops<A::Num>, xs: Seq<A::Num>, i: int)
    requires
        follows::<A>(o),
        argmax_is::<A>(xs, i),
    ensures
        i == Seq::new(xs.len(), |k: int| k).fold_left(
            (0int, o.low),
            |best: (int, A::Num), k: int|
                if (o.gt)(xs[k], best.1) {
                    (k, xs[k])
                } else {
                    best
                },
        ).0,
{
    let (start, v) = choose|start: A::Num, v: A::Num|
        {
            &&& neg_infinity_is::<A>(start)
            &&& #[trigger] leads::<A>(xs, start, xs.len(), i, v)
        };
    lemma_leads_folds::<A>(o, xs, start, xs.len(), i, v);
}

/// The query heads of group `g` read key/value head `g` and no other: where two caches
/// agree on that head at all positions so far, the outputs of the group are the
/// same, whatever the other heads hold.
#[verifier::rlimit(50)]
pub proof fn law_group_reads_its_own_head<A: Arith>(
    o: Ops<A::Num>,
    q: Seq<A::Num>,
    k1: Seq<A::Num>,
    v1: Seq<A::Num>,
    k2: Seq<A::Num>,
    v2: Seq<A::Num>,
    kv_dim: int,
    n_kv_heads: int,
    per: int,
    head_dim: usize,
    n: nat,
    out1: Seq<A::Num>,
    out2: Seq<A::Num>,
    g: int,
    r: int,
    d: int,
)
    requires
        follows::<A>(o),
        n > 0,
        0 <= kv_dim,
        0 <= g < n_kv_heads,
        0 <= r < per,
        0 <= d < head_dim,
        q.len() == (n_kv_heads * per) * head_dim,
        out1.len() == (n_kv_heads * per) * head_dim,
        out2.len() == (n_kv_heads * per) * head_dim,
        (n - 1) * kv_dim + n_kv_heads * head_dim <= k1.len(),
        (n - 1) * kv_dim + n_kv_heads * head_dim <= v1.len(),
        (n - 1) * kv_dim + n_kv_heads * head_dim <= k2.len(),
        (n - 1) * kv_dim + n_kv_heads * head_dim <= v2.len(),
        attention_is::<A>(q, k1, v1, kv_dim, n_kv_heads * per, n_kv_heads, head_dim, n, out1),
        attention_is::<A>(q, k2, v2, kv_dim, n_kv_heads * per, n_kv_heads, head_dim, n, out2),
        forall|t: int, i: int|
            #![trigger k1[t * kv_dim + g * head_dim + i]]
            #![trigger k2[t * kv_dim + g * head_dim + i]]
            0 <= t < n && 0 <= i < head_dim ==> k1[t * kv_dim + g * head_dim + i] == k2[t * kv_dim
                + g * head_dim + i],
        forall|t: int, i: int|
            #![trigger v1[t * kv_dim + g * head_dim + i]]
            #![trigger v2[t * kv_dim + g * head_dim + i]]
            0 <= t < n && 0 <= i < head_dim ==> v1[t * kv_dim + g * head_dim + i] == v2[t * kv_dim
                + g * head_dim + i],
    ensures
        out1[(g * per + r) * head_dim + d] == out2[(g * per + r) * head_dim + d],
{
    let hd = head_dim as int;
    let h = g * per + r;
    let root = (o.over)((o.int)(1), (o.sqrt)((o.count)(head_dim as u64)));
    law_attention_written_out::<A>(
        o,
        q,
        k1,
        v1,
        kv_dim,
        n_kv_heads,
        per,
        head_dim,
        n,
        out1,
        g,
        r,
        d,
    );
    law_attention_written_out::<A>(
        o,
        q,
        k2,
        v2,
        kv_dim,
        n_kv_heads,
        per,
        head_dim,
        n,
        out2,
        g,
        r,
        d,
    );
    let s1 = Seq::new(
        n,
        |t: int|
            (o.times)(
                Seq::new(
                    head_dim as nat,
                    |i: int| (o.times)(q[h * hd + i], k1[t * kv_dim + g * hd + i]),
                ).fold_left(o.empty, o.plus),
                root,
            ),
    );
    let s2 = Seq::new(
        n,
        |t: int|
            (o.times)(
                Seq::new(
                    head_dim as nat,
                    |i: int| (o.times)(q[h * hd + i], k2[t * kv_dim + g * hd + i]),
                ).fold_left(o.empty, o.plus),
                root,
            ),
    );
    assert forall|t: int| 0 <= t < n implies #[trigger] s1[t] == s2[t] by {
        assert(Seq::new(
            head_dim as nat,
            |i: int| (o.times)(q[h * hd + i], k1[t * kv_dim + g * hd + i]),
        ) =~= Seq::new(
            head_dim as nat,
            |i: int| (o.times)(q[h * hd + i], k2[t * kv_dim + g * hd + i]),
        ));
    }
    assert(s1 =~= s2);
    let m = s1.fold_left(o.low, o.max);
    let e = Seq::new(n, |t: int| (o.exp)((o.minus)(s1[t], m)));
    let total = e.fold_left(o.empty, o.plus);
    assert(Seq::new(n, |t: int| (o.times)((o.over)(e[t], total), v1[t * kv_dim + g * hd + d]))
        =~= Seq::new(
        n,
        |t: int| (o.times)((o.over)(e[t], total), v2[t * kv_dim + g * hd + d]),
    ));
}

} // verus!
