//! Neural-net primitives, scalar by scalar.

use vstd::prelude::*;

use crate::arith::{
    count_is, deterministic, difference_is, dot_is, empty_sum_is, exp_is, greatest, greatest_is,
    inner, inner_is, int_is, lemma_dot_unique, lemma_mac_push, lemma_running_max_unique,
    lemma_running_sum_unique, mac_is, mul_add, neg_infinity_is, power_is, product_is, quotient_is,
    rsqrt, rsqrt_is, running_max_is, running_sum_is, silu, silu_is, sin_cos_is, single_valued,
    sum_is, total, total_is, Arith,
};
use crate::matmul::{lemma_row_in_matrix, row};

verus! {

/// `scale` is an outcome of `1 / sqrt(mean(x * x) + eps)`.
pub open spec fn rms_scale_is<A: Arith>(x: Seq<A::Num>, eps: A::Num, scale: A::Num) -> bool {
    exists|total: A::Num, n: A::Num, mean: A::Num, shifted: A::Num|
        {
            &&& inner_is::<A>(x, x, total)
            &&& count_is::<A>(x.len() as u64, n)
            &&& #[trigger] quotient_is::<A>(total, n, mean)
            &&& #[trigger] sum_is::<A>(mean, eps, shifted)
            &&& rsqrt_is::<A>(shifted, scale)
        }
}

/// `r` is an outcome of `(a * b) * c`.
pub open spec fn product3_is<A: Arith>(a: A::Num, b: A::Num, c: A::Num, r: A::Num) -> bool {
    exists|p: A::Num| #[trigger] product_is::<A>(a, b, p) && product_is::<A>(p, c, r)
}

/// `y` is an outcome of the RMS normalisation of `x`: each element times the
/// scale of the vector, times its weight.
pub open spec fn rmsnorm_is<A: Arith>(
    x: Seq<A::Num>,
    weight: Seq<A::Num>,
    eps: A::Num,
    y: Seq<A::Num>,
) -> bool {
    &&& y.len() == x.len()
    &&& exists|scale: A::Num|
        {
            &&& #[trigger] rms_scale_is::<A>(x, eps, scale)
            &&& forall|i: int|
                0 <= i < x.len() ==> product3_is::<A>(x[i], scale, weight[i], #[trigger] y[i])
        }
}

/// `y` is an outcome of the matrix-vector product `W x`, for `w` row-major with
/// one row per element of `y`: element `j` is the dot product of `x` and row
/// `j`, accumulated from zero.
pub open spec fn linear_is<A: Arith>(x: Seq<A::Num>, w: Seq<A::Num>, y: Seq<A::Num>) -> bool {
    forall|j: int|
        0 <= j < y.len() ==> dot_is::<A>(x, row(w, x.len(), j), #[trigger] y[j])
}

/// `angle` is an outcome of the rotation angle of pair `i` of `d / 2` at
/// position `pos`: `pos * freq_base ^ ((-2 * i) / d)`.
pub open spec fn angle_is<A: Arith>(
    pos: u64,
    i: u64,
    d: u64,
    freq_base: A::Num,
    angle: A::Num,
) -> bool {
    exists|
        at: A::Num,
        minus_two: A::Num,
        index: A::Num,
        top: A::Num,
        dim: A::Num,
        e: A::Num,
        omega: A::Num,
    |
        {
            &&& count_is::<A>(pos, at)
            &&& int_is::<A>((-2) as i8, minus_two)
            &&& count_is::<A>(i, index)
            &&& #[trigger] product_is::<A>(minus_two, index, top)
            &&& count_is::<A>(d, dim)
            &&& #[trigger] quotient_is::<A>(top, dim, e)
            &&& #[trigger] power_is::<A>(freq_base, e, omega)
            &&& #[trigger] product_is::<A>(at, omega, angle)
        }
}

/// `(a2, b2)` is an outcome of rotating `(a, b)`, for the sine `s` and the cosine
/// `c` of the angle: `(a * c - b * s, a * s + b * c)`.
pub open spec fn rotation_is<A: Arith>(
    a: A::Num,
    b: A::Num,
    s: A::Num,
    c: A::Num,
    a2: A::Num,
    b2: A::Num,
) -> bool {
    exists|ac: A::Num, bs: A::Num, sa: A::Num, bc: A::Num|
        {
            &&& product_is::<A>(a, c, ac)
            &&& product_is::<A>(b, s, bs)
            &&& #[trigger] difference_is::<A>(ac, bs, a2)
            &&& product_is::<A>(a, s, sa)
            &&& product_is::<A>(b, c, bc)
            &&& #[trigger] sum_is::<A>(sa, bc, b2)
        }
}

/// Pair `i` of `y` is an outcome of rotating pair `i` of `x` by its angle.
pub open spec fn pair_rotated<A: Arith>(
    x: Seq<A::Num>,
    pos: u64,
    freq_base: A::Num,
    y: Seq<A::Num>,
    i: int,
) -> bool {
    exists|angle: A::Num, s: A::Num, c: A::Num|
        {
            &&& angle_is::<A>(pos, i as u64, x.len() as u64, freq_base, angle)
            &&& #[trigger] sin_cos_is::<A>(angle, s, c)
            &&& rotation_is::<A>(x[2 * i], x[2 * i + 1], s, c, y[2 * i], y[2 * i + 1])
        }
}

/// `y` is an outcome of the rotary embedding of `x` at position `pos`.
pub open spec fn rope_is<A: Arith>(
    x: Seq<A::Num>,
    pos: u64,
    freq_base: A::Num,
    y: Seq<A::Num>,
) -> bool {
    &&& y.len() == x.len()
    &&& forall|i: int|
        0 <= i < x.len() / 2 ==> #[trigger] pair_rotated::<A>(x, pos, freq_base, y, i)
}

/// The slice of `x` that belongs to head `h`.
pub open spec fn head<T>(x: Seq<T>, head_dim: nat, h: int) -> Seq<T> {
    x.subrange(h * head_dim, (h + 1) * head_dim)
}

/// `r` is an outcome of `exp(x - m)`.
pub open spec fn exp_above_is<A: Arith>(x: A::Num, m: A::Num, r: A::Num) -> bool {
    exists|d: A::Num| #[trigger] difference_is::<A>(x, m, d) && exp_is::<A>(d, r)
}

/// `y` is an outcome of the softmax of `x`: the exponentials of the elements
/// less their maximum, each divided by the sum of all.
pub open spec fn softmax_is<A: Arith>(x: Seq<A::Num>, y: Seq<A::Num>) -> bool {
    &&& y.len() == x.len()
    &&& exists|m: A::Num, e: Seq<A::Num>, t: A::Num|
        {
            &&& #[trigger] greatest_is::<A>(x, m)
            &&& e.len() == x.len()
            &&& forall|i: int| 0 <= i < x.len() ==> exp_above_is::<A>(x[i], m, #[trigger] e[i])
            &&& #[trigger] total_is::<A>(e, t)
            &&& forall|i: int| 0 <= i < x.len() ==> quotient_is::<A>(e[i], t, #[trigger] y[i])
        }
}

/// RMSNorm: `out[i] = x[i] * scale * weight[i]` with
/// `scale = 1 / sqrt(mean(x * x) + eps)`.
pub fn rmsnorm<A: Arith>(x: &[A::Num], weight: &[A::Num], eps: A::Num, out: &mut [A::Num])
    requires
        x@.len() == weight@.len(),
        old(out)@.len() == x@.len(),
    ensures
        rmsnorm_is::<A>(x@, weight@, eps, final(out)@),
{
    let total = inner::<A>(x, x);
    let n = A::from_u64(x.len() as u64);
    let mean = A::divide(total, n);
    let shifted = A::plus(mean, eps);
    let scale = rsqrt::<A>(shifted);
    assert(count_is::<A>(x@.len() as u64, n));
    assert(quotient_is::<A>(total, n, mean) && sum_is::<A>(mean, eps, shifted));
    assert(rms_scale_is::<A>(x@, eps, scale));
    for i in 0..x.len()
        invariant
            x@.len() == weight@.len(),
            out@.len() == x@.len(),
            forall|k: int|
                0 <= k < i ==> product3_is::<A>(x@[k], scale, weight@[k], #[trigger] out@[k]),
    {
        let p = A::times(x[i], scale);
        out[i] = A::times(p, weight[i]);
        assert(product_is::<A>(x@[i as int], scale, p));
    }
}

/// Matrix-vector projection: `y = W x`, without a bias. `w` is row-major, with
/// one row of `x.len()` elements per element of `y`.
pub fn linear<A: Arith>(x: &[A::Num], w: &[A::Num], y: &mut [A::Num])
    requires
        w@.len() == x@.len() * old(y)@.len(),
    ensures
        final(y)@.len() == old(y)@.len(),
        linear_is::<A>(x@, w@, final(y)@),
{
    let in_dim: usize = x.len();
    let out_dim: usize = y.len();
    for j in 0..out_dim
        invariant
            in_dim == x.len(),
            y@.len() == out_dim,
            w.len() == in_dim * out_dim,
            forall|p: int|
                0 <= p < j ==> dot_is::<A>(x@, row(w@, in_dim as nat, p), #[trigger] y@[p]),
    {
        proof {
            lemma_row_in_matrix(j as int, out_dim as int, in_dim as int);
            assert(out_dim * in_dim == in_dim * out_dim) by (nonlinear_arith);
        }
        let off: usize = j * in_dim;
        let ghost r = row(w@, in_dim as nat, j as int);
        let zero = A::from_i8(0);
        let mut acc = zero;
        for i in 0..in_dim
            invariant
                in_dim == x.len(),
                off == j * in_dim,
                off + in_dim <= w.len(),
                r == row(w@, in_dim as nat, j as int),
                mac_is::<A>(zero, x@, r, i as nat, acc),
        {
            let s = acc;
            acc = mul_add::<A>(s, x[i], w[off + i]);
            proof {
                lemma_mac_push::<A>(zero, x@, r, i as nat, s, acc);
            }
        }
        y[j] = acc;
        assert(int_is::<A>(0, zero));
    }
}

/// Rotates the pairs of `x[off..off + d]` at position `pos`.
fn rope_range<A: Arith>(x: &mut [A::Num], off: usize, d: usize, pos: usize, freq_base: A::Num)
    requires
        d % 2 == 0,
        off + d <= old(x).len(),
    ensures
        final(x)@.len() == old(x)@.len(),
        forall|p: int|
            0 <= p < old(x)@.len() && !(off <= p < off + d) ==> #[trigger] final(x)@[p]
                == old(x)@[p],
        rope_is::<A>(
            old(x)@.subrange(off as int, off + d),
            pos as u64,
            freq_base,
            final(x)@.subrange(off as int, off + d),
        ),
{
    let ghost before = x@;
    let ghost part = before.subrange(off as int, off + d);
    let at = A::from_u64(pos as u64);
    for i in 0..d / 2
        invariant
            d % 2 == 0,
            off + d <= x.len(),
            x@.len() == before.len(),
            part == before.subrange(off as int, off + d),
            count_is::<A>(pos as u64, at),
            forall|p: int|
                0 <= p < before.len() && !(off <= p < off + 2 * i) ==> #[trigger] x@[p]
                    == before[p],
            forall|k: int|
                0 <= k < i ==> #[trigger] pair_rotated::<A>(
                    part,
                    pos as u64,
                    freq_base,
                    x@.subrange(off as int, off + d),
                    k,
                ),
    {
        let minus_two = A::from_i8(-2);
        let index = A::from_u64(i as u64);
        let top = A::times(minus_two, index);
        let dim = A::from_u64(d as u64);
        let e = A::divide(top, dim);
        let omega = A::powf(freq_base, e);
        let angle = A::times(at, omega);
        let (s, c) = A::sin_cos(angle);
        let a = x[off + 2 * i];
        let b = x[off + 2 * i + 1];
        let ac = A::times(a, c);
        let bs = A::times(b, s);
        let sa = A::times(a, s);
        let bc = A::times(b, c);
        let ghost mid = x@.subrange(off as int, off + d);
        let a2 = A::minus(ac, bs);
        let b2 = A::plus(sa, bc);
        x[off + 2 * i] = a2;
        x[off + 2 * i + 1] = b2;
        proof {
            let after = x@.subrange(off as int, off + d);
            assert(product_is::<A>(minus_two, index, top));
            assert(quotient_is::<A>(top, dim, e));
            assert(power_is::<A>(freq_base, e, omega));
            assert(product_is::<A>(at, omega, angle));
            assert(angle_is::<A>(pos as u64, i as u64, d as u64, freq_base, angle));
            assert(sin_cos_is::<A>(angle, s, c));
            assert(difference_is::<A>(ac, bs, a2) && sum_is::<A>(sa, bc, b2));
            assert(rotation_is::<A>(a, b, s, c, a2, b2));
            assert(pair_rotated::<A>(part, pos as u64, freq_base, after, i as int));
            assert forall|k: int| 0 <= k < i implies #[trigger] pair_rotated::<A>(
                part,
                pos as u64,
                freq_base,
                after,
                k,
            ) by {
                assert(pair_rotated::<A>(part, pos as u64, freq_base, mid, k));
                assert(after[2 * k] == mid[2 * k] && after[2 * k + 1] == mid[2 * k + 1]);
            }
        }
    }
}

/// Rotary positional embedding, over interleaved pairs: pair `i` of a vector of
/// `d` elements is rotated by `pos * freq_base ^ (-2 i / d)`.
pub fn rope_inplace<A: Arith>(x: &mut [A::Num], pos: usize, freq_base: A::Num)
    requires
        old(x)@.len() % 2 == 0,
    ensures
        rope_is::<A>(old(x)@, pos as u64, freq_base, final(x)@),
{
    let d: usize = x.len();
    let ghost before = x@;
    rope_range::<A>(x, 0, d, pos, freq_base);
    proof {
        assert(before.subrange(0, d as int) =~= before);
        assert(x@.subrange(0, d as int) =~= x@);
    }
}

/// Applies the rotary embedding to each head of a multi-head vector.
pub fn rope_heads<A: Arith>(x: &mut [A::Num], head_dim: usize, pos: usize, freq_base: A::Num)
    requires
        head_dim > 0,
        old(x)@.len() % (head_dim as nat) == 0,
        head_dim % 2 == 0 || old(x)@.len() == 0,
    ensures
        final(x)@.len() == old(x)@.len(),
        forall|h: int|
            0 <= h < old(x)@.len() / (head_dim as nat) ==> #[trigger] rope_is::<A>(
                head(old(x)@, head_dim as nat, h),
                pos as u64,
                freq_base,
                head(final(x)@, head_dim as nat, h),
            ),
{
    let ghost before = x@;
    let heads: usize = x.len() / head_dim;
    proof {
        vstd::arithmetic::div_mod::lemma_fundamental_div_mod(before.len() as int, head_dim as int);
        assert(heads * head_dim == head_dim * heads) by (nonlinear_arith);
    }
    for h in 0..heads
        invariant
            head_dim > 0,
            head_dim % 2 == 0 || before.len() == 0,
            heads * head_dim == before.len(),
            x@.len() == before.len(),
            x.len() == before.len(),
            forall|p: int| h * head_dim <= p < before.len() ==> #[trigger] x@[p] == before[p],
            forall|g: int|
                0 <= g < h ==> #[trigger] rope_is::<A>(
                    head(before, head_dim as nat, g),
                    pos as u64,
                    freq_base,
                    head(x@, head_dim as nat, g),
                ),
    {
        proof {
            lemma_row_in_matrix(h as int, heads as int, head_dim as int);
            assert((h + 1) * head_dim == h * head_dim + head_dim) by (nonlinear_arith);
            assert(before.len() > 0);
        }
        let off: usize = h * head_dim;
        let ghost mid = x@;
        rope_range::<A>(x, off, head_dim, pos, freq_base);
        proof {
            let n = head_dim as nat;
            assert(mid.subrange(off as int, off + head_dim) =~= head(before, n, h as int));
            assert(x@.subrange(off as int, off + head_dim) =~= head(x@, n, h as int));
            assert forall|g: int| 0 <= g < h implies #[trigger] rope_is::<A>(
                head(before, n, g),
                pos as u64,
                freq_base,
                head(x@, n, g),
            ) by {
                assert((g + 1) * n <= h * n && 0 <= g * n) by (nonlinear_arith)
                    requires
                        0 <= g < h,
                ;
                assert((g + 1) * n == g * n + n) by (nonlinear_arith);
                assert(head(x@, n, g) =~= head(mid, n, g));
            }
        }
    }
}

/// Softmax, in place.
pub fn softmax_in_place<A: Arith>(x: &mut [A::Num])
    ensures
        softmax_is::<A>(old(x)@, final(x)@),
{
    let ghost before = x@;
    let len: usize = x.len();
    let m = greatest::<A>(x);
    for i in 0..len
        invariant
            len == x@.len(),
            x@.len() == before.len(),
            forall|k: int| 0 <= k < i ==> exp_above_is::<A>(before[k], m, #[trigger] x@[k]),
            forall|k: int| i <= k < before.len() ==> #[trigger] x@[k] == before[k],
    {
        let d = A::minus(x[i], m);
        x[i] = A::exp(d);
        assert(difference_is::<A>(before[i as int], m, d));
    }
    let ghost e = x@;
    let t = total::<A>(x);
    for i in 0..len
        invariant
            len == x@.len(),
            x@.len() == e.len(),
            forall|k: int| 0 <= k < i ==> quotient_is::<A>(e[k], t, #[trigger] x@[k]),
            forall|k: int| i <= k < e.len() ==> #[trigger] x@[k] == e[k],
    {
        x[i] = A::divide(x[i], t);
    }
    assert(greatest_is::<A>(before, m) && total_is::<A>(e, t));
}

/// `x[i] += y[i]`
pub fn add_in_place<A: Arith>(x: &mut [A::Num], y: &[A::Num])
    requires
        old(x)@.len() == y@.len(),
    ensures
        final(x)@.len() == old(x)@.len(),
        forall|i: int|
            0 <= i < y@.len() ==> sum_is::<A>(old(x)@[i], y@[i], #[trigger] final(x)@[i]),
{
    let ghost before = x@;
    let len: usize = x.len();
    for i in 0..len
        invariant
            len == x@.len(),
            x@.len() == before.len(),
            x@.len() == y@.len(),
            forall|k: int| 0 <= k < i ==> sum_is::<A>(before[k], y@[k], #[trigger] x@[k]),
            forall|k: int| i <= k < before.len() ==> #[trigger] x@[k] == before[k],
    {
        x[i] = A::plus(x[i], y[i]);
    }
}

/// `x[i] *= y[i]`
pub fn mul_in_place<A: Arith>(x: &mut [A::Num], y: &[A::Num])
    requires
        old(x)@.len() == y@.len(),
    ensures
        final(x)@.len() == old(x)@.len(),
        forall|i: int|
            0 <= i < y@.len() ==> product_is::<A>(old(x)@[i], y@[i], #[trigger] final(x)@[i]),
{
    let ghost before = x@;
    let len: usize = x.len();
    for i in 0..len
        invariant
            len == x@.len(),
            x@.len() == before.len(),
            x@.len() == y@.len(),
            forall|k: int| 0 <= k < i ==> product_is::<A>(before[k], y@[k], #[trigger] x@[k]),
            forall|k: int| i <= k < before.len() ==> #[trigger] x@[k] == before[k],
    {
        x[i] = A::times(x[i], y[i]);
    }
}

/// `x[i] = x[i] / (1 + exp(-x[i]))`
pub fn silu_in_place<A: Arith>(x: &mut [A::Num])
    ensures
        final(x)@.len() == old(x)@.len(),
        forall|i: int| 0 <= i < old(x)@.len() ==> silu_is::<A>(old(x)@[i], #[trigger] final(x)@[i]),
{
    let ghost before = x@;
    let len: usize = x.len();
    for i in 0..len
        invariant
            len == x@.len(),
            x@.len() == before.len(),
            forall|k: int| 0 <= k < i ==> silu_is::<A>(before[k], #[trigger] x@[k]),
            forall|k: int| i <= k < before.len() ==> #[trigger] x@[k] == before[k],
    {
        x[i] = silu::<A>(x[i]);
    }
}

/// Where the arithmetic is deterministic, a matrix-vector product has one
/// outcome, however it was computed.
pub proof fn law_linear_unique<A: Arith>(
    x: Seq<A::Num>,
    w: Seq<A::Num>,
    y1: Seq<A::Num>,
    y2: Seq<A::Num>,
)
    requires
        deterministic::<A>(),
        y1.len() == y2.len(),
        linear_is::<A>(x, w, y1),
        linear_is::<A>(x, w, y2),
    ensures
        y1 == y2,
{
    assert forall|j: int| 0 <= j < y1.len() implies #[trigger] y1[j] == y2[j] by {
        lemma_dot_unique::<A>(x, row(w, x.len(), j), y1[j], y2[j]);
    }
    assert(y1 =~= y2);
}

/// A vector of one head is rotated as a whole: what [`rope_heads`] gives for it
/// is what [`rope_inplace`] gives.
pub proof fn law_rope_one_head<A: Arith>(
    x: Seq<A::Num>,
    pos: u64,
    freq_base: A::Num,
    y: Seq<A::Num>,
)
    requires
        y.len() == x.len(),
    ensures
        rope_is::<A>(head(x, x.len(), 0), pos, freq_base, head(y, x.len(), 0)) <==> rope_is::<A>(
            x,
            pos,
            freq_base,
            y,
        ),
{
    let n = x.len();
    assert(0 * n == 0 && 1 * n == n) by (nonlinear_arith);
    assert(head(x, n, 0) =~= x);
    assert(head(y, n, 0) =~= y);
}

/// Where every operation has one outcome, so has a softmax.
pub proof fn lemma_softmax_unique<A: Arith>(x: Seq<A::Num>, y1: Seq<A::Num>, y2: Seq<A::Num>)
    requires
        single_valued::<A>(),
        softmax_is::<A>(x, y1),
        softmax_is::<A>(x, y2),
    ensures
        y1 == y2,
{
    let (m1, e1, t1) = choose|m: A::Num, e: Seq<A::Num>, t: A::Num|
        {
            &&& #[trigger] greatest_is::<A>(x, m)
            &&& e.len() == x.len()
            &&& forall|i: int| 0 <= i < x.len() ==> exp_above_is::<A>(x[i], m, #[trigger] e[i])
            &&& #[trigger] total_is::<A>(e, t)
            &&& forall|i: int| 0 <= i < x.len() ==> quotient_is::<A>(e[i], t, #[trigger] y1[i])
        };
    let (m2, e2, t2) = choose|m: A::Num, e: Seq<A::Num>, t: A::Num|
        {
            &&& #[trigger] greatest_is::<A>(x, m)
            &&& e.len() == x.len()
            &&& forall|i: int| 0 <= i < x.len() ==> exp_above_is::<A>(x[i], m, #[trigger] e[i])
            &&& #[trigger] total_is::<A>(e, t)
            &&& forall|i: int| 0 <= i < x.len() ==> quotient_is::<A>(e[i], t, #[trigger] y2[i])
        };
    let z1 = choose|z: A::Num|
        #[trigger] neg_infinity_is::<A>(z) && running_max_is::<A>(z, x, x.len(), m1);
    let z2 = choose|z: A::Num|
        #[trigger] neg_infinity_is::<A>(z) && running_max_is::<A>(z, x, x.len(), m2);
    assert(z1 == z2);
    lemma_running_max_unique::<A>(z1, x, x.len(), m1, m2);
    assert forall|i: int| 0 <= i < x.len() implies #[trigger] e1[i] == e2[i] by {
        assert(exp_above_is::<A>(x[i], m1, e1[i]) && exp_above_is::<A>(x[i], m1, e2[i]));
        let d1 = choose|d: A::Num|
            #[trigger] difference_is::<A>(x[i], m1, d) && exp_is::<A>(d, e1[i]);
        let d2 = choose|d: A::Num|
            #[trigger] difference_is::<A>(x[i], m1, d) && exp_is::<A>(d, e2[i]);
        assert(d1 == d2);
    }
    assert(e1 =~= e2);
    let a1 = choose|z: A::Num|
        #[trigger] empty_sum_is::<A>(z) && running_sum_is::<A>(z, e1, e1.len(), t1);
    let a2 = choose|z: A::Num|
        #[trigger] empty_sum_is::<A>(z) && running_sum_is::<A>(z, e1, e1.len(), t2);
    assert(a1 == a2);
    lemma_running_sum_unique::<A>(a1, e1, e1.len(), t1, t2);
    assert forall|i: int| 0 <= i < x.len() implies #[trigger] y1[i] == y2[i] by {
        assert(quotient_is::<A>(e1[i], t1, y1[i]) && quotient_is::<A>(e1[i], t1, y2[i]));
    }
    assert(y1 =~= y2);
}

/// Vectors whose heads are the same are the same.
pub proof fn lemma_heads_make_whole<T>(x: Seq<T>, y: Seq<T>, heads: int, head_dim: nat)
    requires
        x.len() == heads * head_dim,
        y.len() == heads * head_dim,
        forall|h: int|
            0 <= h < heads ==> #[trigger] head(x, head_dim, h) == head(y, head_dim, h),
    ensures
        x == y,
{
    assert forall|i: int| 0 <= i < x.len() implies #[trigger] x[i] == y[i] by {
        let d = head_dim as int;
        let (h, j) = (i / d, i % d);
        assert(d > 0 && 0 <= h < heads && 0 <= j < d && h * d + j == i) by (nonlinear_arith)
            requires
                0 <= i < heads * d,
                d >= 0,
                h == i / d,
                j == i % d,
        ;
        lemma_row_in_matrix(h, heads, d);
        assert((h + 1) * d == h * d + d) by (nonlinear_arith);
        assert(head(x, head_dim, h) == head(y, head_dim, h));
        assert(head(x, head_dim, h)[j] == x[i] && head(y, head_dim, h)[j] == y[i]);
    }
    assert(x =~= y);
}

/// The operations that a rotary embedding consists of have one outcome each.
pub open spec fn rotates_once<A: Arith>() -> bool {
    &&& deterministic::<A>()
    &&& forall|n: u64, r: A::Num, s: A::Num|
        #[trigger] count_is::<A>(n, r) && #[trigger] count_is::<A>(n, s) ==> r == s
    &&& forall|a: A::Num, b: A::Num, r: A::Num, s: A::Num|
        #[trigger] difference_is::<A>(a, b, r) && #[trigger] difference_is::<A>(a, b, s) ==> r == s
    &&& forall|a: A::Num, b: A::Num, r: A::Num, s: A::Num|
        #[trigger] quotient_is::<A>(a, b, r) && #[trigger] quotient_is::<A>(a, b, s) ==> r == s
    &&& forall|a: A::Num, b: A::Num, r: A::Num, s: A::Num|
        #[trigger] power_is::<A>(a, b, r) && #[trigger] power_is::<A>(a, b, s) ==> r == s
    &&& forall|a: A::Num, s1: A::Num, c1: A::Num, s2: A::Num, c2: A::Num|
        #[trigger] sin_cos_is::<A>(a, s1, c1) && #[trigger] sin_cos_is::<A>(a, s2, c2) ==> s1 == s2
            && c1 == c2
}

/// Where every operation has one outcome, so has a rotation angle.
proof fn lemma_angle_unique<A: Arith>(
    pos: u64,
    i: u64,
    d: u64,
    freq_base: A::Num,
    a1: A::Num,
    a2: A::Num,
)
    requires
        rotates_once::<A>(),
        angle_is::<A>(pos, i, d, freq_base, a1),
        angle_is::<A>(pos, i, d, freq_base, a2),
    ensures
        a1 == a2,
{
    let (at1, m1, n1, top1, dim1, e1, o1) = lemma_angle_parts::<A>(pos, i, d, freq_base, a1);
    let (at2, m2, n2, top2, dim2, e2, o2) = lemma_angle_parts::<A>(pos, i, d, freq_base, a2);
    assert(m1 == m2 && n1 == n2);
    assert(top1 == top2 && dim1 == dim2);
    assert(e1 == e2);
    assert(at1 == at2 && o1 == o2);
}

/// What a rotation angle is made of: the position, minus two, the number of the
/// pair, their product, the dimension, the exponent and the frequency.
pub proof fn lemma_angle_parts<A: Arith>(
    pos: u64,
    i: u64,
    d: u64,
    freq_base: A::Num,
    angle: A::Num,
) -> (parts: (A::Num, A::Num, A::Num, A::Num, A::Num, A::Num, A::Num))
    requires
        angle_is::<A>(pos, i, d, freq_base, angle),
    ensures
        count_is::<A>(pos, parts.0),
        int_is::<A>((-2) as i8, parts.1),
        count_is::<A>(i, parts.2),
        product_is::<A>(parts.1, parts.2, parts.3),
        count_is::<A>(d, parts.4),
        quotient_is::<A>(parts.3, parts.4, parts.5),
        power_is::<A>(freq_base, parts.5, parts.6),
        product_is::<A>(parts.0, parts.6, angle),
{
    choose|
        at: A::Num,
        minus_two: A::Num,
        index: A::Num,
        top: A::Num,
        dim: A::Num,
        e: A::Num,
        omega: A::Num,
    |
        {
            &&& count_is::<A>(pos, at)
            &&& int_is::<A>((-2) as i8, minus_two)
            &&& count_is::<A>(i, index)
            &&& #[trigger] product_is::<A>(minus_two, index, top)
            &&& count_is::<A>(d, dim)
            &&& #[trigger] quotient_is::<A>(top, dim, e)
            &&& #[trigger] power_is::<A>(freq_base, e, omega)
            &&& #[trigger] product_is::<A>(at, omega, angle)
        }
}

/// Where every operation has one outcome, so has the rotation of a pair.
proof fn lemma_pair_unique<A: Arith>(
    x: Seq<A::Num>,
    pos: u64,
    freq_base: A::Num,
    y1: Seq<A::Num>,
    y2: Seq<A::Num>,
    i: int,
)
    requires
        rotates_once::<A>(),
        pair_rotated::<A>(x, pos, freq_base, y1, i),
        pair_rotated::<A>(x, pos, freq_base, y2, i),
    ensures
        y1[2 * i] == y2[2 * i],
        y1[2 * i + 1] == y2[2 * i + 1],
{
    let (a1, s1, c1) = choose|angle: A::Num, s: A::Num, c: A::Num|
        {
            &&& angle_is::<A>(pos, i as u64, x.len() as u64, freq_base, angle)
            &&& #[trigger] sin_cos_is::<A>(angle, s, c)
            &&& rotation_is::<A>(x[2 * i], x[2 * i + 1], s, c, y1[2 * i], y1[2 * i + 1])
        };
    let (a2, s2, c2) = choose|angle: A::Num, s: A::Num, c: A::Num|
        {
            &&& angle_is::<A>(pos, i as u64, x.len() as u64, freq_base, angle)
            &&& #[trigger] sin_cos_is::<A>(angle, s, c)
            &&& rotation_is::<A>(x[2 * i], x[2 * i + 1], s, c, y2[2 * i], y2[2 * i + 1])
        };
    lemma_angle_unique::<A>(pos, i as u64, x.len() as u64, freq_base, a1, a2);
    assert(s1 == s2 && c1 == c2);
    let (ac1, bs1, sa1, bc1) = choose|ac: A::Num, bs: A::Num, sa: A::Num, bc: A::Num|
        {
            &&& product_is::<A>(x[2 * i], c1, ac)
            &&& product_is::<A>(x[2 * i + 1], s1, bs)
            &&& #[trigger] difference_is::<A>(ac, bs, y1[2 * i])
            &&& product_is::<A>(x[2 * i], s1, sa)
            &&& product_is::<A>(x[2 * i + 1], c1, bc)
            &&& #[trigger] sum_is::<A>(sa, bc, y1[2 * i + 1])
        };
    let (ac2, bs2, sa2, bc2) = choose|ac: A::Num, bs: A::Num, sa: A::Num, bc: A::Num|
        {
            &&& product_is::<A>(x[2 * i], c1, ac)
            &&& product_is::<A>(x[2 * i + 1], s1, bs)
            &&& #[trigger] difference_is::<A>(ac, bs, y2[2 * i])
            &&& product_is::<A>(x[2 * i], s1, sa)
            &&& product_is::<A>(x[2 * i + 1], c1, bc)
            &&& #[trigger] sum_is::<A>(sa, bc, y2[2 * i + 1])
        };
    assert(ac1 == ac2 && bs1 == bs2 && sa1 == sa2 && bc1 == bc2);
}

/// Where every operation has one outcome, so has the rotary embedding of a vector.
pub proof fn law_rope_unique<A: Arith>(
    x: Seq<A::Num>,
    pos: u64,
    freq_base: A::Num,
    y1: Seq<A::Num>,
    y2: Seq<A::Num>,
)
    requires
        rotates_once::<A>(),
        x.len() % 2 == 0,
        rope_is::<A>(x, pos, freq_base, y1),
        rope_is::<A>(x, pos, freq_base, y2),
    ensures
        y1 == y2,
{
    assert forall|j: int| 0 <= j < x.len() implies #[trigger] y1[j] == y2[j] by {
        let i = j / 2;
        assert(pair_rotated::<A>(x, pos, freq_base, y1, i));
        assert(pair_rotated::<A>(x, pos, freq_base, y2, i));
        lemma_pair_unique::<A>(x, pos, freq_base, y1, y2, i);
    }
    assert(y1 =~= y2);
}

/// Where every operation has one outcome, [`rope_heads`] leaves in each head the
/// very numbers that [`rope_inplace`] gives for that head alone, at the same
/// position.
pub proof fn law_rope_heads_is_rope_per_head<A: Arith>(
    x: Seq<A::Num>,
    head_dim: nat,
    pos: u64,
    freq_base: A::Num,
    y: Seq<A::Num>,
    alone: Seq<Seq<A::Num>>,
)
    requires
        rotates_once::<A>(),
        head_dim > 0,
        head_dim % 2 == 0,
        x.len() % head_dim == 0,
        y.len() == x.len(),
        alone.len() == x.len() / head_dim,
        forall|h: int|
            0 <= h < x.len() / head_dim ==> #[trigger] rope_is::<A>(
                head(x, head_dim, h),
                pos,
                freq_base,
                head(y, head_dim, h),
            ),
        forall|h: int|
            0 <= h < x.len() / head_dim ==> rope_is::<A>(
                head(x, head_dim, h),
                pos,
                freq_base,
                #[trigger] alone[h],
            ),
    ensures
        forall|h: int| 0 <= h < x.len() / head_dim ==> head(y, head_dim, h) == #[trigger] alone[h],
{
    let heads = (x.len() / head_dim) as int;
    let d = head_dim as int;
    assert forall|h: int| 0 <= h < heads implies head(y, head_dim, h) == #[trigger] alone[h] by {
        vstd::arithmetic::div_mod::lemma_fundamental_div_mod(x.len() as int, d);
        assert(heads * d == d * heads) by (nonlinear_arith);
        lemma_row_in_matrix(h, heads, d);
        assert((h + 1) * d == h * d + d) by (nonlinear_arith);
        assert(rope_is::<A>(head(x, head_dim, h), pos, freq_base, head(y, head_dim, h)));
        law_rope_unique::<A>(head(x, head_dim, h), pos, freq_base, head(y, head_dim, h), alone[h]);
    }
}

} // verus!
