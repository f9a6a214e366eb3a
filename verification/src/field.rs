//! What the kernels promise over the real numbers.
//!
//! Over floating-point numbers a rotation keeps the length of a vector, and a
//! softmax sums to one, but for the rounding. Over an arithmetic that is an
//! ordered field both hold as they are written.

use vstd::prelude::*;

use crate::arith::{
    count_is, difference_is, empty_sum_is, exp_is, greatest_is, inner_is, int_is, mac_is, power_is,
    product_is, quotient_is, reciprocal_is, rsqrt_is, running_sum_is, sin_cos_is, sqrt_is, sum_is,
    total_is, Arith,
};
use crate::attention::{
    attention_is, average_at, average_is, given_to, head_at, head_attention_is, inv_sqrt_is,
    pattern_is, score_is, value_column, weighted_sum_is, weights_are,
};
use crate::exact::{
    adds_up, computed_by, dot, lemma_mac_is_dot, lemma_regroup, lemma_shift, lemma_swap, lemma_zero,
    Exact,
};
use crate::matmul::lemma_row_in_matrix;
use crate::nn::{
    angle_is, exp_above_is, head, lemma_angle_parts, pair_rotated, product3_is, rms_scale_is,
    rmsnorm_is, rope_is, rotation_is, softmax_is,
};
use crate::perf_model::milliseconds_are;
use crate::plain::lemma_group;

verus! {

/// Addition and multiplication with zero and one, their inverses, and which
/// numbers are positive.
#[verifier::reject_recursive_types(N)]
pub struct Field<N> {
    pub ring: Exact<N>,
    pub one: N,
    pub negative: spec_fn(N) -> N,
    pub inverse: spec_fn(N) -> N,
    pub positive: spec_fn(N) -> bool,
}

/// `a * b == b * a`
#[verifier::opaque]
pub open spec fn times_commutes<N>(f: Field<N>) -> bool {
    forall|a: N, b: N| #[trigger] (f.ring.times)(a, b) == (f.ring.times)(b, a)
}

/// `(a * b) * c == a * (b * c)`
#[verifier::opaque]
pub open spec fn times_associates<N>(f: Field<N>) -> bool {
    forall|a: N, b: N, c: N|
        #[trigger] (f.ring.times)((f.ring.times)(a, b), c) == (f.ring.times)(
            a,
            (f.ring.times)(b, c),
        )
}

/// `(a + b) * c == a * c + b * c`
#[verifier::opaque]
pub open spec fn distributes<N>(f: Field<N>) -> bool {
    forall|a: N, b: N, c: N|
        #[trigger] (f.ring.times)((f.ring.plus)(a, b), c) == (f.ring.plus)(
            (f.ring.times)(a, c),
            (f.ring.times)(b, c),
        )
}

/// `1 * a == a`
#[verifier::opaque]
pub open spec fn one_is_neutral<N>(f: Field<N>) -> bool {
    forall|a: N| #[trigger] (f.ring.times)(f.one, a) == a
}

/// `a + -a == 0`
#[verifier::opaque]
pub open spec fn negates<N>(f: Field<N>) -> bool {
    forall|a: N| (f.ring.plus)(a, #[trigger] (f.negative)(a)) == f.ring.zero
}

/// `a * (1 / a) == 1`, but for zero.
#[verifier::opaque]
pub open spec fn inverts<N>(f: Field<N>) -> bool {
    forall|a: N| a != f.ring.zero ==> (f.ring.times)(a, #[trigger] (f.inverse)(a)) == f.one
}

/// One is positive and zero is not; every other number is positive or has a
/// positive negative; sums and products of positive numbers are positive.
#[verifier::opaque]
pub open spec fn orders<N>(f: Field<N>) -> bool {
    &&& (f.positive)(f.one)
    &&& !(f.positive)(f.ring.zero)
    &&& forall|a: N|
        a != f.ring.zero ==> (f.positive)(a) || (f.positive)(#[trigger] (f.negative)(a))
    &&& forall|a: N, b: N|
        (f.positive)(a) && (f.positive)(b) ==> (f.positive)(#[trigger] (f.ring.plus)(a, b))
    &&& forall|a: N, b: N|
        (f.positive)(a) && (f.positive)(b) ==> (f.positive)(#[trigger] (f.ring.times)(a, b))
}

/// `f` is an ordered field.
pub open spec fn is_field<N>(f: Field<N>) -> bool {
    &&& adds_up(f.ring)
    &&& times_commutes(f)
    &&& times_associates(f)
    &&& distributes(f)
    &&& one_is_neutral(f)
    &&& negates(f)
    &&& inverts(f)
    &&& orders(f)
}

/// `1 + 1 + ...`, `n` times.
pub open spec fn count<N>(f: Field<N>, n: nat) -> N
    decreases n,
{
    if n == 0 {
        f.ring.zero
    } else {
        (f.ring.plus)(count(f, (n - 1) as nat), f.one)
    }
}

/// The outcomes of the operations of `A` are those of the ordered field `f`:
/// exponentials are positive, square roots are exact, and sine and cosine lie on
/// the unit circle.
pub open spec fn real_by<A: Arith>(f: Field<A::Num>) -> bool {
    &&& is_field(f)
    &&& computed_by::<A>(f.ring)
    &&& forall|r: A::Num| #[trigger] empty_sum_is::<A>(r) ==> r == f.ring.zero
    &&& forall|r: A::Num| #[trigger] int_is::<A>(1, r) ==> r == f.one
    &&& forall|n: u64, r: A::Num| #[trigger] count_is::<A>(n, r) ==> r == count(f, n as nat)
    &&& forall|a: A::Num, b: A::Num, r: A::Num|
        #[trigger] difference_is::<A>(a, b, r) ==> r == (f.ring.plus)(a, (f.negative)(b))
    &&& forall|a: A::Num, b: A::Num, r: A::Num|
        b != f.ring.zero && #[trigger] quotient_is::<A>(a, b, r) ==> r == (f.ring.times)(
            a,
            (f.inverse)(b),
        )
    &&& forall|a: A::Num, r: A::Num| #[trigger] exp_is::<A>(a, r) ==> (f.positive)(r)
    &&& forall|a: A::Num, r: A::Num|
        (f.positive)(a) && #[trigger] sqrt_is::<A>(a, r) ==> (f.ring.times)(r, r) == a
    &&& forall|a: A::Num, s: A::Num, c: A::Num|
        #[trigger] sin_cos_is::<A>(a, s, c) ==> (f.ring.plus)(
            (f.ring.times)(s, s),
            (f.ring.times)(c, c),
        ) == f.one
    &&& forall|s: A::Num, c: A::Num|
        #[trigger] sin_cos_is::<A>(f.ring.zero, s, c) ==> s == f.ring.zero && c == f.one
}

/// Multiplication commutes.
proof fn lemma_times_swap<N>(f: Field<N>, a: N, b: N)
    requires
        is_field(f),
    ensures
        (f.ring.times)(a, b) == (f.ring.times)(b, a),
{
    reveal(times_commutes);
}

/// Multiplication associates.
proof fn lemma_times_shift<N>(f: Field<N>, a: N, b: N, c: N)
    requires
        is_field(f),
    ensures
        (f.ring.times)((f.ring.times)(a, b), c) == (f.ring.times)(a, (f.ring.times)(b, c)),
{
    reveal(times_associates);
}

/// Multiplication distributes over addition.
proof fn lemma_spread<N>(f: Field<N>, a: N, b: N, c: N)
    requires
        is_field(f),
    ensures
        (f.ring.times)((f.ring.plus)(a, b), c) == (f.ring.plus)(
            (f.ring.times)(a, c),
            (f.ring.times)(b, c),
        ),
{
    reveal(distributes);
}

/// One multiplies to nothing else.
proof fn lemma_one<N>(f: Field<N>, a: N)
    requires
        is_field(f),
    ensures
        (f.ring.times)(f.one, a) == a,
        (f.ring.times)(a, f.one) == a,
{
    reveal(one_is_neutral);
    lemma_times_swap(f, a, f.one);
}

/// A number and its negative add up to zero.
proof fn lemma_negate<N>(f: Field<N>, a: N)
    requires
        is_field(f),
    ensures
        (f.ring.plus)(a, (f.negative)(a)) == f.ring.zero,
        (f.ring.plus)((f.negative)(a), a) == f.ring.zero,
{
    reveal(negates);
    lemma_swap(f.ring, a, (f.negative)(a));
}

/// A number times its inverse is one.
proof fn lemma_invert<N>(f: Field<N>, a: N)
    requires
        is_field(f),
        a != f.ring.zero,
    ensures
        (f.ring.times)(a, (f.inverse)(a)) == f.one,
        (f.ring.times)((f.inverse)(a), a) == f.one,
{
    reveal(inverts);
    lemma_times_swap(f, a, (f.inverse)(a));
}

/// A number has one negative.
proof fn lemma_negative_unique<N>(f: Field<N>, a: N, b: N)
    requires
        is_field(f),
        (f.ring.plus)(a, b) == f.ring.zero,
    ensures
        b == (f.negative)(a),
{
    let n = (f.negative)(a);
    lemma_negate(f, a);
    lemma_shift(f.ring, n, a, b);
    lemma_zero(f.ring, n);
    lemma_zero(f.ring, b);
}

/// Zero times a number is zero.
proof fn lemma_zero_times<N>(f: Field<N>, a: N)
    requires
        is_field(f),
    ensures
        (f.ring.times)(f.ring.zero, a) == f.ring.zero,
        (f.ring.times)(a, f.ring.zero) == f.ring.zero,
{
    let zero = f.ring.zero;
    let z = (f.ring.times)(zero, a);
    lemma_zero(f.ring, zero);
    lemma_spread(f, zero, zero, a);
    assert((f.ring.plus)(z, z) == z);
    lemma_negate(f, z);
    lemma_shift(f.ring, z, z, (f.negative)(z));
    lemma_zero(f.ring, z);
    lemma_times_swap(f, a, zero);
}

/// The negative of a factor is the negative of the product.
proof fn lemma_negative_times<N>(f: Field<N>, a: N, b: N)
    requires
        is_field(f),
    ensures
        (f.ring.times)((f.negative)(a), b) == (f.negative)((f.ring.times)(a, b)),
        (f.ring.times)(b, (f.negative)(a)) == (f.negative)((f.ring.times)(a, b)),
{
    let n = (f.negative)(a);
    lemma_negate(f, a);
    lemma_spread(f, a, n, b);
    lemma_zero_times(f, b);
    lemma_negative_unique(f, (f.ring.times)(a, b), (f.ring.times)(n, b));
    lemma_times_swap(f, b, n);
}

/// The square of a negative is the square.
proof fn lemma_negative_squared<N>(f: Field<N>, a: N)
    requires
        is_field(f),
    ensures
        (f.ring.times)((f.negative)(a), (f.negative)(a)) == (f.ring.times)(a, a),
{
    let n = (f.negative)(a);
    let square = (f.ring.times)(a, a);
    lemma_negative_times(f, a, n);
    lemma_negative_times(f, a, a);
    lemma_negate(f, square);
    lemma_negative_unique(f, (f.negative)(square), square);
}

/// `(a * b) * (c * d) == (a * d) * (c * b)`
proof fn lemma_exchange<N>(f: Field<N>, a: N, b: N, c: N, d: N)
    requires
        is_field(f),
    ensures
        (f.ring.times)((f.ring.times)(a, b), (f.ring.times)(c, d)) == (f.ring.times)(
            (f.ring.times)(a, d),
            (f.ring.times)(c, b),
        ),
{
    let t = f.ring.times;
    lemma_times_shift(f, a, b, t(c, d));
    lemma_times_swap(f, b, t(c, d));
    lemma_times_swap(f, c, d);
    lemma_times_shift(f, d, c, b);
    lemma_times_shift(f, a, d, t(c, b));
}

/// `(a * b) * (a * b) == (a * a) * (b * b)`
proof fn lemma_square_of_product<N>(f: Field<N>, a: N, b: N)
    requires
        is_field(f),
    ensures
        (f.ring.times)((f.ring.times)(a, b), (f.ring.times)(a, b)) == (f.ring.times)(
            (f.ring.times)(a, a),
            (f.ring.times)(b, b),
        ),
{
    lemma_times_swap(f, a, b);
    lemma_exchange(f, a, b, b, a);
}

/// `(a + b) + (c + d) == (a + c) + (b + d)`
proof fn lemma_interchange<N>(f: Field<N>, a: N, b: N, c: N, d: N)
    requires
        is_field(f),
    ensures
        (f.ring.plus)((f.ring.plus)(a, b), (f.ring.plus)(c, d)) == (f.ring.plus)(
            (f.ring.plus)(a, c),
            (f.ring.plus)(b, d),
        ),
{
    lemma_swap(f.ring, c, d);
    lemma_regroup(f.ring, a, b, d, c);
}

/// `(a + b) * (a + b) == (a * a + b * b) + (a * b + a * b)`
proof fn lemma_square_of_sum<N>(f: Field<N>, a: N, b: N)
    requires
        is_field(f),
    ensures
        (f.ring.times)((f.ring.plus)(a, b), (f.ring.plus)(a, b)) == (f.ring.plus)(
            (f.ring.plus)((f.ring.times)(a, a), (f.ring.times)(b, b)),
            (f.ring.plus)((f.ring.times)(a, b), (f.ring.times)(a, b)),
        ),
{
    let t = f.ring.times;
    let s = (f.ring.plus)(a, b);
    lemma_spread(f, a, b, s);
    lemma_times_swap(f, a, s);
    lemma_times_swap(f, b, s);
    lemma_spread(f, a, b, a);
    lemma_spread(f, a, b, b);
    lemma_times_swap(f, a, b);
    lemma_regroup(f.ring, t(a, a), t(a, b), t(a, b), t(b, b));
}

/// The pair `(a, b)`, turned by the angle of sine `s` and cosine `c`:
/// `(a * c - b * s, a * s + b * c)`.
pub open spec fn turned<N>(f: Field<N>, a: N, b: N, s: N, c: N) -> (N, N) {
    (
        (f.ring.plus)((f.ring.times)(a, c), (f.negative)((f.ring.times)(b, s))),
        (f.ring.plus)((f.ring.times)(a, s), (f.ring.times)(b, c)),
    )
}

/// Rotating a pair keeps the sum of its squares, where the squares of sine and
/// cosine add up to one.
proof fn lemma_rotation<N>(f: Field<N>, a: N, b: N, s: N, c: N)
    requires
        is_field(f),
        (f.ring.plus)((f.ring.times)(s, s), (f.ring.times)(c, c)) == f.one,
    ensures
        ({
            let (a2, b2) = turned(f, a, b, s, c);
            (f.ring.plus)((f.ring.times)(a2, a2), (f.ring.times)(b2, b2)) == (f.ring.plus)(
                (f.ring.times)(a, a),
                (f.ring.times)(b, b),
            )
        }),
{
    let (p, t) = (f.ring.plus, f.ring.times);
    let (ac, bs, sa, bc) = (t(a, c), t(b, s), t(a, s), t(b, c));
    let n = (f.negative)(bs);
    let cross = t(sa, bc);
    lemma_square_of_sum(f, ac, n);
    lemma_square_of_sum(f, sa, bc);
    lemma_negative_squared(f, bs);
    lemma_exchange(f, a, s, b, c);
    lemma_negative_times(f, bs, ac);
    lemma_times_swap(f, bs, ac);
    let minus = (f.negative)(cross);
    assert(t(ac, n) == minus);
    lemma_negate(f, cross);
    lemma_interchange(f, minus, minus, cross, cross);
    lemma_zero(f.ring, f.ring.zero);
    assert(p(p(minus, minus), p(cross, cross)) == f.ring.zero);
    let (u, v) = (p(t(ac, ac), t(bs, bs)), p(t(sa, sa), t(bc, bc)));
    lemma_interchange(f, u, p(minus, minus), v, p(cross, cross));
    lemma_zero(f.ring, p(u, v));
    lemma_pair_squares(f, a, b, s, c);
}

/// `((a c)^2 + (b s)^2) + ((a s)^2 + (b c)^2) == a^2 + b^2`, where the squares of
/// `s` and `c` add up to one.
proof fn lemma_pair_squares<N>(f: Field<N>, a: N, b: N, s: N, c: N)
    requires
        is_field(f),
        (f.ring.plus)((f.ring.times)(s, s), (f.ring.times)(c, c)) == f.one,
    ensures
        ({
            let (p, t) = (f.ring.plus, f.ring.times);
            p(
                p(t(t(a, c), t(a, c)), t(t(b, s), t(b, s))),
                p(t(t(a, s), t(a, s)), t(t(b, c), t(b, c))),
            ) == p(t(a, a), t(b, b))
        }),
{
    let (p, t) = (f.ring.plus, f.ring.times);
    let (aa, bb, ss, cc) = (t(a, a), t(b, b), t(s, s), t(c, c));
    let sum = p(aa, bb);
    lemma_square_of_product(f, a, c);
    lemma_square_of_product(f, b, s);
    lemma_square_of_product(f, a, s);
    lemma_square_of_product(f, b, c);
    lemma_regroup(f.ring, t(aa, cc), t(bb, ss), t(aa, ss), t(bb, cc));
    lemma_spread(f, aa, bb, cc);
    lemma_swap(f.ring, t(bb, ss), t(aa, ss));
    lemma_spread(f, aa, bb, ss);
    lemma_times_swap(f, sum, cc);
    lemma_times_swap(f, sum, ss);
    lemma_swap(f.ring, t(cc, sum), t(ss, sum));
    lemma_spread(f, ss, cc, sum);
    lemma_one(f, sum);
}

/// A sum of products has one outcome, which can be written down.
proof fn lemma_inner_is_dot<A: Arith>(
    f: Field<A::Num>,
    x: Seq<A::Num>,
    w: Seq<A::Num>,
    r: A::Num,
)
    requires
        real_by::<A>(f),
        inner_is::<A>(x, w, r),
    ensures
        r == dot(f.ring, x, w, x.len()),
{
    let z = choose|z: A::Num|
        #[trigger] empty_sum_is::<A>(z) && mac_is::<A>(z, x, w, x.len(), r);
    assert(z == f.ring.zero);
    lemma_mac_is_dot::<A>(f.ring, x, w, x.len(), r);
}

/// A rotated pair of `y`, in numbers.
proof fn lemma_rotated_pair<A: Arith>(
    f: Field<A::Num>,
    x: Seq<A::Num>,
    pos: u64,
    freq_base: A::Num,
    y: Seq<A::Num>,
    i: int,
) -> (turn: (A::Num, A::Num, A::Num))
    requires
        real_by::<A>(f),
        pair_rotated::<A>(x, pos, freq_base, y, i),
    ensures
        angle_is::<A>(pos, i as u64, x.len() as u64, freq_base, turn.0),
        sin_cos_is::<A>(turn.0, turn.1, turn.2),
        (f.ring.plus)((f.ring.times)(turn.1, turn.1), (f.ring.times)(turn.2, turn.2)) == f.one,
        pos == 0 ==> turn.1 == f.ring.zero && turn.2 == f.one,
        y[2 * i] == turned(f, x[2 * i], x[2 * i + 1], turn.1, turn.2).0,
        y[2 * i + 1] == turned(f, x[2 * i], x[2 * i + 1], turn.1, turn.2).1,
{
    let (angle, s, c) = choose|angle: A::Num, s: A::Num, c: A::Num|
        {
            &&& angle_is::<A>(pos, i as u64, x.len() as u64, freq_base, angle)
            &&& #[trigger] sin_cos_is::<A>(angle, s, c)
            &&& rotation_is::<A>(x[2 * i], x[2 * i + 1], s, c, y[2 * i], y[2 * i + 1])
        };
    if pos == 0 {
        let (at, omega) = choose|at: A::Num, omega: A::Num|
            count_is::<A>(pos, at) && #[trigger] product_is::<A>(at, omega, angle);
        assert(at == f.ring.zero);
        lemma_zero_times(f, omega);
        assert(angle == f.ring.zero);
    }
    (angle, s, c)
}

/// Over a field, the rotary embedding keeps the length of each pair: the sum of
/// its two squares is what it was.
pub proof fn law_rope_preserves_pairs<A: Arith>(
    f: Field<A::Num>,
    x: Seq<A::Num>,
    pos: u64,
    freq_base: A::Num,
    y: Seq<A::Num>,
    i: int,
)
    requires
        real_by::<A>(f),
        0 <= i < x.len() / 2,
        rope_is::<A>(x, pos, freq_base, y),
    ensures
        (f.ring.plus)(
            (f.ring.times)(y[2 * i], y[2 * i]),
            (f.ring.times)(y[2 * i + 1], y[2 * i + 1]),
        ) == (f.ring.plus)(
            (f.ring.times)(x[2 * i], x[2 * i]),
            (f.ring.times)(x[2 * i + 1], x[2 * i + 1]),
        ),
{
    assert(pair_rotated::<A>(x, pos, freq_base, y, i));
    let (_, s, c) = lemma_rotated_pair::<A>(f, x, pos, freq_base, y, i);
    lemma_rotation(f, x[2 * i], x[2 * i + 1], s, c);
}

/// Over a field, the rotary embedding keeps the length of a vector: the sum of
/// its squares is what it was.
pub proof fn law_rope_preserves_norm<A: Arith>(
    f: Field<A::Num>,
    x: Seq<A::Num>,
    pos: u64,
    freq_base: A::Num,
    y: Seq<A::Num>,
    before: A::Num,
    after: A::Num,
)
    requires
        real_by::<A>(f),
        x.len() % 2 == 0,
        rope_is::<A>(x, pos, freq_base, y),
        inner_is::<A>(x, x, before),
        inner_is::<A>(y, y, after),
    ensures
        before == after,
{
    lemma_inner_is_dot::<A>(f, x, x, before);
    lemma_inner_is_dot::<A>(f, y, y, after);
    lemma_pairs_keep_squares::<A>(f, x, pos, freq_base, y, x.len() / 2);
    assert(x.len() / 2 * 2 == x.len());
}

/// Over a field, rotating pairs keeps the sum of the squares.
proof fn lemma_pairs_keep_squares<A: Arith>(
    f: Field<A::Num>,
    x: Seq<A::Num>,
    pos: u64,
    freq_base: A::Num,
    y: Seq<A::Num>,
    n: nat,
)
    requires
        real_by::<A>(f),
        rope_is::<A>(x, pos, freq_base, y),
        n <= x.len() / 2,
    ensures
        dot(f.ring, x, x, n * 2) == dot(f.ring, y, y, n * 2),
    decreases n,
{
    if n > 0 {
        let m = (n - 1) as nat;
        lemma_pairs_keep_squares::<A>(f, x, pos, freq_base, y, m);
        let i = 2 * m as int;
        law_rope_preserves_pairs::<A>(f, x, pos, freq_base, y, m as int);
        lemma_two_squares(f, x, i as nat);
        lemma_two_squares(f, y, i as nat);
        assert(n * 2 == i + 2 && m * 2 == i);
    }
}

/// Two more squares.
proof fn lemma_two_squares<N>(f: Field<N>, x: Seq<N>, n: nat)
    requires
        is_field(f),
    ensures
        dot(f.ring, x, x, n + 2) == (f.ring.plus)(
            dot(f.ring, x, x, n),
            (f.ring.plus)(
                (f.ring.times)(x[n as int], x[n as int]),
                (f.ring.times)(x[n as int + 1], x[n as int + 1]),
            ),
        ),
{
    let t = f.ring.times;
    assert(dot(f.ring, x, x, n + 1) == (f.ring.plus)(
        dot(f.ring, x, x, n),
        t(x[n as int], x[n as int]),
    ));
    lemma_shift(
        f.ring,
        dot(f.ring, x, x, n),
        t(x[n as int], x[n as int]),
        t(x[n as int + 1], x[n as int + 1]),
    );
}

/// Over a field, the rotary embedding leaves a vector at position zero as it is.
pub proof fn law_rope_at_zero<A: Arith>(
    f: Field<A::Num>,
    x: Seq<A::Num>,
    freq_base: A::Num,
    y: Seq<A::Num>,
)
    requires
        real_by::<A>(f),
        x.len() % 2 == 0,
        rope_is::<A>(x, 0, freq_base, y),
    ensures
        y == x,
{
    assert forall|j: int| 0 <= j < x.len() implies #[trigger] y[j] == x[j] by {
        let i = j / 2;
        assert(pair_rotated::<A>(x, 0, freq_base, y, i));
        let (_, s, c) = lemma_rotated_pair::<A>(f, x, 0, freq_base, y, i);
        let (a, b) = (x[2 * i], x[2 * i + 1]);
        lemma_one(f, a);
        lemma_one(f, b);
        lemma_zero_times(f, a);
        lemma_zero_times(f, b);
        lemma_zero(f.ring, f.ring.zero);
        lemma_negative_unique(f, f.ring.zero, f.ring.zero);
        lemma_zero(f.ring, a);
        lemma_zero(f.ring, b);
    }
    assert(y =~= x);
}

/// `((0 + xs[0]) + xs[1]) + ...` over the first `n` numbers.
pub open spec fn sum<N>(f: Field<N>, xs: Seq<N>, n: nat) -> N
    decreases n,
{
    if n == 0 {
        f.ring.zero
    } else {
        (f.ring.plus)(sum(f, xs, (n - 1) as nat), xs[n - 1])
    }
}

/// A sum has one outcome, which can be written down.
proof fn lemma_running_sum_is_sum<A: Arith>(
    f: Field<A::Num>,
    xs: Seq<A::Num>,
    n: nat,
    r: A::Num,
)
    requires
        real_by::<A>(f),
        running_sum_is::<A>(f.ring.zero, xs, n, r),
    ensures
        r == sum(f, xs, n),
    decreases n,
{
    if n > 0 {
        let s = choose|s: A::Num|
            running_sum_is::<A>(f.ring.zero, xs, (n - 1) as nat, s) && #[trigger] sum_is::<A>(
                s,
                xs[n - 1],
                r,
            );
        lemma_running_sum_is_sum::<A>(f, xs, (n - 1) as nat, s);
    }
}

/// The total of a sequence is its sum.
proof fn lemma_total_is_sum<A: Arith>(f: Field<A::Num>, xs: Seq<A::Num>, r: A::Num)
    requires
        real_by::<A>(f),
        total_is::<A>(xs, r),
    ensures
        r == sum(f, xs, xs.len()),
{
    let z = choose|z: A::Num|
        #[trigger] empty_sum_is::<A>(z) && running_sum_is::<A>(z, xs, xs.len(), r);
    assert(z == f.ring.zero);
    lemma_running_sum_is_sum::<A>(f, xs, xs.len(), r);
}

/// A common factor stands before the sum.
proof fn lemma_sum_scaled<N>(f: Field<N>, xs: Seq<N>, k: N, ys: Seq<N>, n: nat)
    requires
        is_field(f),
        forall|i: int| 0 <= i < n ==> #[trigger] ys[i] == (f.ring.times)(xs[i], k),
    ensures
        sum(f, ys, n) == (f.ring.times)(sum(f, xs, n), k),
    decreases n,
{
    if n == 0 {
        lemma_zero_times(f, k);
    } else {
        let m = (n - 1) as nat;
        lemma_sum_scaled(f, xs, k, ys, m);
        lemma_spread(f, sum(f, xs, m), xs[m as int], k);
        assert(ys[m as int] == (f.ring.times)(xs[m as int], k));
    }
}

/// Sums are added number by number.
proof fn lemma_sum_added<N>(f: Field<N>, xs: Seq<N>, ys: Seq<N>, zs: Seq<N>, n: nat)
    requires
        is_field(f),
        forall|i: int| 0 <= i < n ==> #[trigger] zs[i] == (f.ring.plus)(xs[i], ys[i]),
    ensures
        sum(f, zs, n) == (f.ring.plus)(sum(f, xs, n), sum(f, ys, n)),
    decreases n,
{
    if n == 0 {
        lemma_zero(f.ring, f.ring.zero);
    } else {
        let m = (n - 1) as nat;
        lemma_sum_added(f, xs, ys, zs, m);
        assert(zs[m as int] == (f.ring.plus)(xs[m as int], ys[m as int]));
        lemma_interchange(f, sum(f, xs, m), sum(f, ys, m), xs[m as int], ys[m as int]);
    }
}

/// Positive numbers have a positive sum.
proof fn lemma_sum_positive<N>(f: Field<N>, xs: Seq<N>, n: nat)
    requires
        is_field(f),
        n > 0,
        forall|i: int| 0 <= i < n ==> (f.positive)(#[trigger] xs[i]),
    ensures
        (f.positive)(sum(f, xs, n)),
    decreases n,
{
    reveal(orders);
    let m = (n - 1) as nat;
    assert((f.positive)(xs[m as int]));
    assert(sum(f, xs, n) == (f.ring.plus)(sum(f, xs, m), xs[m as int]));
    if m == 0 {
        assert(sum(f, xs, 0) == f.ring.zero);
        lemma_zero(f.ring, xs[0]);
    } else {
        lemma_sum_positive(f, xs, m);
    }
}

/// A positive number is not zero.
proof fn lemma_positive<N>(f: Field<N>, a: N)
    requires
        is_field(f),
        (f.positive)(a),
    ensures
        a != f.ring.zero,
{
    reveal(orders);
}

/// A count is not zero, but for the count of nothing.
proof fn lemma_count_positive<N>(f: Field<N>, n: nat)
    requires
        is_field(f),
        n > 0,
    ensures
        (f.positive)(count(f, n)),
    decreases n,
{
    reveal(orders);
    if n == 1 {
        assert(count(f, 0) == f.ring.zero);
        lemma_zero(f.ring, f.one);
    } else {
        lemma_count_positive(f, (n - 1) as nat);
    }
}

/// The inverse of a positive number is positive.
proof fn lemma_inverse_positive<N>(f: Field<N>, a: N)
    requires
        is_field(f),
        (f.positive)(a),
    ensures
        (f.positive)((f.inverse)(a)),
{
    reveal(orders);
    let i = (f.inverse)(a);
    lemma_invert(f, a);
    lemma_zero_times(f, a);
    assert(i != f.ring.zero);
    if !(f.positive)(i) {
        assert((f.positive)((f.negative)(i)));
        assert((f.positive)((f.ring.times)((f.negative)(i), a)));
        lemma_negative_times(f, i, a);
        lemma_negate(f, f.one);
        assert((f.positive)((f.ring.plus)(f.one, (f.negative)(f.one))));
    }
}

/// The product of positive numbers is positive.
proof fn lemma_product_positive<N>(f: Field<N>, a: N, b: N)
    requires
        is_field(f),
        (f.positive)(a),
        (f.positive)(b),
    ensures
        (f.positive)((f.ring.times)(a, b)),
{
    reveal(orders);
}

/// Over a field, the elements of a softmax are positive and add up to one.
proof fn lemma_softmax_sum<A: Arith>(f: Field<A::Num>, x: Seq<A::Num>, y: Seq<A::Num>)
    requires
        real_by::<A>(f),
        x.len() > 0,
        softmax_is::<A>(x, y),
    ensures
        sum(f, y, y.len()) == f.one,
        forall|i: int| 0 <= i < y.len() ==> (f.positive)(#[trigger] y[i]),
{
    let (m, e, t) = choose|m: A::Num, e: Seq<A::Num>, t: A::Num|
        {
            &&& #[trigger] greatest_is::<A>(x, m)
            &&& e.len() == x.len()
            &&& forall|i: int| 0 <= i < x.len() ==> exp_above_is::<A>(x[i], m, #[trigger] e[i])
            &&& #[trigger] total_is::<A>(e, t)
            &&& forall|i: int| 0 <= i < x.len() ==> quotient_is::<A>(e[i], t, #[trigger] y[i])
        };
    lemma_total_is_sum::<A>(f, e, t);
    assert forall|i: int| 0 <= i < x.len() implies (f.positive)(#[trigger] e[i]) by {
        assert(exp_above_is::<A>(x[i], m, e[i]));
    }
    lemma_sum_positive(f, e, e.len());
    lemma_positive(f, t);
    let k = (f.inverse)(t);
    assert forall|i: int| 0 <= i < x.len() implies #[trigger] y[i] == (f.ring.times)(
        e[i],
        k,
    ) by {
        assert(quotient_is::<A>(e[i], t, y[i]));
    }
    lemma_sum_scaled(f, e, k, y, y.len());
    lemma_invert(f, t);
    lemma_inverse_positive(f, t);
    assert forall|i: int| 0 <= i < y.len() implies (f.positive)(#[trigger] y[i]) by {
        lemma_product_positive(f, e[i], k);
    }
}

/// Over a field, a softmax consists of positive numbers and sums to one.
pub proof fn law_softmax_sums_to_one<A: Arith>(
    f: Field<A::Num>,
    x: Seq<A::Num>,
    y: Seq<A::Num>,
    total: A::Num,
)
    requires
        real_by::<A>(f),
        x.len() > 0,
        softmax_is::<A>(x, y),
        total_is::<A>(y, total),
    ensures
        total == f.one,
        forall|i: int| 0 <= i < y.len() ==> (f.positive)(#[trigger] y[i]),
{
    lemma_softmax_sum::<A>(f, x, y);
    lemma_total_is_sum::<A>(f, y, total);
}

/// Over a field, the attention weights of a head are positive and sum to one.
proof fn lemma_weights_sum<A: Arith>(
    f: Field<A::Num>,
    q: Seq<A::Num>,
    k: Seq<A::Num>,
    kv_dim: int,
    kv_h: int,
    n: nat,
    inv_sqrt_d: A::Num,
    weights: Seq<A::Num>,
)
    requires
        real_by::<A>(f),
        n > 0,
        weights_are::<A>(q, k, kv_dim, kv_h, n, inv_sqrt_d, weights),
    ensures
        weights.len() == n,
        sum(f, weights, n) == f.one,
        forall|p: int| 0 <= p < n ==> (f.positive)(#[trigger] weights[p]),
{
    let scores = choose|scores: Seq<A::Num>|
        {
            &&& scores.len() == n
            &&& forall|p: int|
                0 <= p < n ==> score_is::<A>(
                    q,
                    head_at(k, kv_dim, p, kv_h, q.len() as int),
                    inv_sqrt_d,
                    #[trigger] scores[p],
                )
            &&& #[trigger] softmax_is::<A>(scores, weights)
        };
    lemma_softmax_sum::<A>(f, scores, weights);
}

/// Where each of `h` rows of `n` numbers sums to one, the sums over the columns
/// add up to `h`.
proof fn lemma_columns<N>(f: Field<N>, rows: Seq<Seq<N>>, n: nat, h: nat, columns: Seq<N>)
    requires
        is_field(f),
        h <= rows.len(),
        forall|g: int| 0 <= g < h ==> sum(f, #[trigger] rows[g], n) == f.one,
        forall|p: int| 0 <= p < n ==> #[trigger] columns[p] == sum(f, given_to(rows, p), h),
    ensures
        sum(f, columns, n) == count(f, h),
    decreases h,
{
    if h == 0 {
        assert forall|p: int| 0 <= p < n implies #[trigger] columns[p] == (f.ring.times)(
            columns[p],
            f.ring.zero,
        ) by {
            assert(columns[p] == sum(f, given_to(rows, p), 0));
            lemma_zero_times(f, columns[p]);
        }
        lemma_sum_scaled(f, columns, f.ring.zero, columns, n);
        lemma_zero_times(f, sum(f, columns, n));
    } else {
        let g = (h - 1) as nat;
        let before = Seq::new(n, |p: int| sum(f, given_to(rows, p), g));
        lemma_columns(f, rows, n, g, before);
        assert forall|p: int| 0 <= p < n implies #[trigger] columns[p] == (f.ring.plus)(
            before[p],
            rows[g as int][p],
        ) by {
            assert(given_to(rows, p)[g as int] == rows[g as int][p]);
        }
        lemma_sum_added(f, before, rows[g as int], columns, n);
    }
}

/// Over a field, an attention pattern averages weights that are positive and that
/// sum to one for each of its heads.
proof fn lemma_pattern_parts<A: Arith>(
    f: Field<A::Num>,
    q: Seq<A::Num>,
    k: Seq<A::Num>,
    kv_dim: int,
    n_heads: u64,
    n_kv_heads: int,
    head_dim: usize,
    pattern: Seq<A::Num>,
) -> (weights: Seq<Seq<A::Num>>)
    requires
        real_by::<A>(f),
        n_heads > 0,
        pattern.len() > 0,
        pattern_is::<A>(q, k, kv_dim, n_heads, n_kv_heads, head_dim, pattern),
    ensures
        weights.len() == n_heads,
        forall|h: int|
            0 <= h < n_heads ==> sum(f, #[trigger] weights[h], pattern.len()) == f.one,
        forall|h: int, p: int|
            0 <= h < n_heads && 0 <= p < pattern.len() ==> (f.positive)(#[trigger] weights[h][p]),
        forall|p: int|
            0 <= p < pattern.len() ==> #[trigger] pattern[p] == (f.ring.times)(
                sum(f, given_to(weights, p), n_heads as nat),
                (f.inverse)(count(f, n_heads as nat)),
            ),
{
    let (inv_sqrt_d, inv_n, weights) = choose|
        inv_sqrt_d: A::Num,
        inv_n: A::Num,
        weights: Seq<Seq<A::Num>>,
    |
        {
            &&& #[trigger] inv_sqrt_is::<A>(head_dim as u64, inv_sqrt_d)
            &&& reciprocal_is::<A>(n_heads, inv_n)
            &&& weights.len() == n_heads
            &&& forall|h: int|
                0 <= h < n_heads ==> weights_are::<A>(
                    head(q, head_dim as nat, h),
                    k,
                    kv_dim,
                    h / (n_heads as int / n_kv_heads),
                    pattern.len(),
                    inv_sqrt_d,
                    #[trigger] weights[h],
                )
            &&& #[trigger] average_is::<A>(weights, inv_n, pattern)
        };
    let n = pattern.len();
    let heads = n_heads as nat;
    assert forall|h: int| 0 <= h < heads implies sum(f, #[trigger] weights[h], n) == f.one && (
    forall|p: int| 0 <= p < n ==> (f.positive)(#[trigger] weights[h][p])) by {
        lemma_weights_sum::<A>(
            f,
            head(q, head_dim as nat, h),
            k,
            kv_dim,
            h / (n_heads as int / n_kv_heads),
            n,
            inv_sqrt_d,
            weights[h],
        );
    }
    let c = count(f, heads);
    lemma_count_positive(f, heads);
    lemma_positive(f, c);
    lemma_one(f, (f.inverse)(c));
    let (one, counted) = choose|one: A::Num, counted: A::Num|
        {
            &&& int_is::<A>(1, one)
            &&& count_is::<A>(n_heads, counted)
            &&& #[trigger] quotient_is::<A>(one, counted, inv_n)
        };
    assert(one == f.one && counted == c);
    assert(inv_n == (f.inverse)(c));
    assert forall|p: int| 0 <= p < n implies #[trigger] pattern[p] == (f.ring.times)(
        sum(f, given_to(weights, p), heads),
        inv_n,
    ) by {
        assert(average_at::<A>(weights, inv_n, p, pattern[p]));
        let (zero, s) = choose|zero: A::Num, s: A::Num|
            {
                &&& int_is::<A>(0, zero)
                &&& #[trigger] running_sum_is::<A>(zero, given_to(weights, p), weights.len(), s)
                &&& product_is::<A>(s, inv_n, pattern[p])
            };
        assert(zero == f.ring.zero);
        lemma_running_sum_is_sum::<A>(f, given_to(weights, p), heads, s);
    }
    weights
}

/// Over a field, an attention pattern sums to one.
pub proof fn law_attention_pattern_sums_to_one<A: Arith>(
    f: Field<A::Num>,
    q: Seq<A::Num>,
    k: Seq<A::Num>,
    kv_dim: int,
    n_heads: u64,
    n_kv_heads: int,
    head_dim: usize,
    pattern: Seq<A::Num>,
    total: A::Num,
)
    requires
        real_by::<A>(f),
        n_heads > 0,
        pattern.len() > 0,
        pattern_is::<A>(q, k, kv_dim, n_heads, n_kv_heads, head_dim, pattern),
        total_is::<A>(pattern, total),
    ensures
        total == f.one,
{
    let weights = lemma_pattern_parts::<A>(
        f,
        q,
        k,
        kv_dim,
        n_heads,
        n_kv_heads,
        head_dim,
        pattern,
    );
    let n = pattern.len();
    let heads = n_heads as nat;
    let columns = Seq::new(n, |p: int| sum(f, given_to(weights, p), heads));
    lemma_columns(f, weights, n, heads, columns);
    let c = count(f, heads);
    lemma_sum_scaled(f, columns, (f.inverse)(c), pattern, n);
    lemma_total_is_sum::<A>(f, pattern, total);
    lemma_count_positive(f, heads);
    lemma_positive(f, c);
    lemma_invert(f, c);
}

/// Over a field, every position has a positive part in an attention pattern.
pub proof fn law_attention_pattern_is_positive<A: Arith>(
    f: Field<A::Num>,
    q: Seq<A::Num>,
    k: Seq<A::Num>,
    kv_dim: int,
    n_heads: u64,
    n_kv_heads: int,
    head_dim: usize,
    pattern: Seq<A::Num>,
)
    requires
        real_by::<A>(f),
        n_heads > 0,
        pattern_is::<A>(q, k, kv_dim, n_heads, n_kv_heads, head_dim, pattern),
    ensures
        forall|p: int| 0 <= p < pattern.len() ==> (f.positive)(#[trigger] pattern[p]),
{
    if pattern.len() > 0 {
        let weights = lemma_pattern_parts::<A>(
            f,
            q,
            k,
            kv_dim,
            n_heads,
            n_kv_heads,
            head_dim,
            pattern,
        );
        let heads = n_heads as nat;
        lemma_count_positive(f, heads);
        lemma_inverse_positive(f, count(f, heads));
        assert forall|p: int| 0 <= p < pattern.len() implies (f.positive)(
            #[trigger] pattern[p],
        ) by {
            let given = given_to(weights, p);
            assert forall|h: int| 0 <= h < heads implies (f.positive)(#[trigger] given[h]) by {
                assert(given[h] == weights[h][p]);
            }
            lemma_sum_positive(f, given, heads);
            lemma_product_positive(f, sum(f, given, heads), (f.inverse)(count(f, heads)));
        }
    }
}

/// Over a field, a token that attends to one position alone gets the value that
/// is stored there.
pub proof fn law_single_position_gives_its_value<A: Arith>(
    f: Field<A::Num>,
    q: Seq<A::Num>,
    k: Seq<A::Num>,
    v: Seq<A::Num>,
    kv_dim: int,
    kv_h: int,
    inv_sqrt_d: A::Num,
    out: Seq<A::Num>,
)
    requires
        real_by::<A>(f),
        head_attention_is::<A>(q, k, v, kv_dim, kv_h, 1, inv_sqrt_d, out),
    ensures
        forall|d: int|
            0 <= d < q.len() ==> #[trigger] out[d] == head_at(
                v,
                kv_dim,
                0,
                kv_h,
                q.len() as int,
            )[d],
{
    let weights = choose|weights: Seq<A::Num>|
        {
            &&& #[trigger] weights_are::<A>(q, k, kv_dim, kv_h, 1, inv_sqrt_d, weights)
            &&& forall|d: int|
                0 <= d < q.len() ==> weighted_sum_is::<A>(
                    weights,
                    value_column(v, kv_dim, kv_h, q.len() as int, 1, d),
                    #[trigger] out[d],
                )
        };
    lemma_weights_sum::<A>(f, q, k, kv_dim, kv_h, 1, inv_sqrt_d, weights);
    assert(sum(f, weights, 0) == f.ring.zero);
    lemma_zero(f.ring, weights[0]);
    assert(weights[0] == f.one);
    assert forall|d: int| 0 <= d < q.len() implies #[trigger] out[d] == head_at(
        v,
        kv_dim,
        0,
        kv_h,
        q.len() as int,
    )[d] by {
        let column = value_column(v, kv_dim, kv_h, q.len() as int, 1, d);
        assert(weighted_sum_is::<A>(weights, column, out[d]));
        let zero = choose|zero: A::Num|
            #[trigger] int_is::<A>(0, zero) && mac_is::<A>(
                zero,
                weights,
                column,
                column.len(),
                out[d],
            );
        assert(zero == f.ring.zero);
        lemma_mac_is_dot::<A>(f.ring, weights, column, 1, out[d]);
        assert(dot(f.ring, weights, column, 0) == f.ring.zero);
        lemma_one(f, column[0]);
        lemma_zero(f.ring, column[0]);
    }
}

/// The squares of a scaled vector add up to the squares of the vector, times the
/// square of the scale.
proof fn lemma_squares_scaled<N>(f: Field<N>, x: Seq<N>, scale: N, y: Seq<N>, n: nat)
    requires
        is_field(f),
        forall|i: int| 0 <= i < n ==> #[trigger] y[i] == (f.ring.times)(x[i], scale),
    ensures
        dot(f.ring, y, y, n) == (f.ring.times)(
            dot(f.ring, x, x, n),
            (f.ring.times)(scale, scale),
        ),
    decreases n,
{
    let t = f.ring.times;
    if n == 0 {
        lemma_zero_times(f, t(scale, scale));
    } else {
        let m = (n - 1) as nat;
        let v = x[m as int];
        lemma_squares_scaled(f, x, scale, y, m);
        assert(y[m as int] == t(v, scale));
        lemma_square_of_product(f, v, scale);
        lemma_spread(f, dot(f.ring, x, x, m), t(v, v), t(scale, scale));
    }
}

/// The mean of the squares of `x`.
pub open spec fn mean_square<N>(f: Field<N>, x: Seq<N>) -> N {
    (f.ring.times)(dot(f.ring, x, x, x.len()), (f.inverse)(count(f, x.len())))
}

/// Over a field, the scale of an RMS normalisation squares to
/// `1 / (mean(x * x) + eps)`.
proof fn lemma_scale_squared<A: Arith>(
    f: Field<A::Num>,
    x: Seq<A::Num>,
    eps: A::Num,
    scale: A::Num,
)
    requires
        real_by::<A>(f),
        0 < x.len() <= u64::MAX,
        (f.positive)((f.ring.plus)(mean_square(f, x), eps)),
        rms_scale_is::<A>(x, eps, scale),
    ensures
        (f.ring.times)(
            (f.ring.times)(scale, scale),
            (f.ring.plus)(mean_square(f, x), eps),
        ) == f.one,
{
    let t = f.ring.times;
    let (total, n, mean, shifted) = choose|
        total: A::Num,
        n: A::Num,
        mean: A::Num,
        shifted: A::Num,
    |
        {
            &&& inner_is::<A>(x, x, total)
            &&& count_is::<A>(x.len() as u64, n)
            &&& #[trigger] quotient_is::<A>(total, n, mean)
            &&& #[trigger] sum_is::<A>(mean, eps, shifted)
            &&& rsqrt_is::<A>(shifted, scale)
        };
    lemma_inner_is_dot::<A>(f, x, x, total);
    lemma_count_positive(f, x.len());
    lemma_positive(f, n);
    assert(mean == mean_square(f, x));
    let (one, root) = choose|one: A::Num, root: A::Num|
        {
            &&& #[trigger] int_is::<A>(1, one)
            &&& #[trigger] sqrt_is::<A>(shifted, root)
            &&& quotient_is::<A>(one, root, scale)
        };
    assert(t(root, root) == shifted);
    lemma_positive(f, shifted);
    lemma_zero_times(f, f.ring.zero);
    assert(root != f.ring.zero);
    lemma_one(f, (f.inverse)(root));
    assert(scale == (f.inverse)(root));
    lemma_invert(f, root);
    lemma_square_of_product(f, scale, root);
    lemma_one(f, f.one);
}

/// Over a field, an RMS normalisation whose weights are all `g` leaves a vector
/// whose mean square is `g^2 * mean(x * x) / (mean(x * x) + eps)`: that is `g^2`
/// where `eps` is zero, and so one where the weights are one besides.
pub proof fn law_rmsnorm_normalises<A: Arith>(
    f: Field<A::Num>,
    x: Seq<A::Num>,
    weight: Seq<A::Num>,
    g: A::Num,
    eps: A::Num,
    y: Seq<A::Num>,
)
    requires
        real_by::<A>(f),
        0 < x.len() <= u64::MAX,
        weight.len() == x.len(),
        forall|i: int| 0 <= i < x.len() ==> #[trigger] weight[i] == g,
        (f.positive)((f.ring.plus)(mean_square(f, x), eps)),
        rmsnorm_is::<A>(x, weight, eps, y),
    ensures
        (f.ring.times)(mean_square(f, y), (f.ring.plus)(mean_square(f, x), eps)) == (f.ring.times)(
            (f.ring.times)(g, g),
            mean_square(f, x),
        ),
        eps == f.ring.zero ==> mean_square(f, y) == (f.ring.times)(g, g),
        eps == f.ring.zero && g == f.one ==> mean_square(f, y) == f.one,
{
    let t = f.ring.times;
    let scale = choose|scale: A::Num|
        {
            &&& #[trigger] rms_scale_is::<A>(x, eps, scale)
            &&& forall|i: int|
                0 <= i < x.len() ==> product3_is::<A>(x[i], scale, weight[i], #[trigger] y[i])
        };
    let k = t(scale, g);
    assert forall|i: int| 0 <= i < x.len() implies #[trigger] y[i] == t(x[i], k) by {
        assert(product3_is::<A>(x[i], scale, weight[i], y[i]));
        let p = choose|p: A::Num|
            #[trigger] product_is::<A>(x[i], scale, p) && product_is::<A>(p, weight[i], y[i]);
        assert(weight[i] == g);
        lemma_times_shift(f, x[i], scale, g);
    }
    lemma_squares_scaled(f, x, k, y, x.len());
    lemma_scale_squared::<A>(f, x, eps, scale);
    let (mx, my) = (mean_square(f, x), mean_square(f, y));
    let shifted = (f.ring.plus)(mx, eps);
    let (gg, kk) = (t(g, g), t(k, k));
    let (total, inv) = (dot(f.ring, x, x, x.len()), (f.inverse)(count(f, x.len())));
    lemma_times_move(f, total, kk, inv);
    assert(my == t(mx, kk));
    lemma_square_of_product(f, scale, g);
    lemma_times_move(f, t(scale, scale), gg, shifted);
    lemma_one(f, gg);
    lemma_times_shift(f, mx, kk, shifted);
    assert(t(my, shifted) == t(mx, gg));
    lemma_times_swap(f, mx, gg);
    if eps == f.ring.zero {
        lemma_zero(f.ring, mx);
        lemma_positive(f, mx);
        lemma_invert(f, mx);
        lemma_times_shift(f, my, mx, (f.inverse)(mx));
        lemma_one(f, my);
        lemma_times_shift(f, gg, mx, (f.inverse)(mx));
        lemma_one(f, f.one);
    }
}

/// `(a * b) * c == (a * c) * b`
proof fn lemma_times_move<N>(f: Field<N>, a: N, b: N, c: N)
    requires
        is_field(f),
    ensures
        (f.ring.times)((f.ring.times)(a, b), c) == (f.ring.times)((f.ring.times)(a, c), b),
{
    lemma_times_shift(f, a, b, c);
    lemma_times_swap(f, b, c);
    lemma_times_shift(f, a, c, b);
}

/// Numbers other than zero have a product other than zero.
proof fn lemma_product_not_zero<N>(f: Field<N>, a: N, b: N)
    requires
        is_field(f),
        a != f.ring.zero,
        b != f.ring.zero,
    ensures
        (f.ring.times)(a, b) != f.ring.zero,
{
    let i = (f.inverse)(a);
    lemma_invert(f, a);
    lemma_times_shift(f, i, a, b);
    lemma_one(f, b);
    lemma_zero_times(f, i);
}

/// `1 / (c * g)`, times `c`, is `1 / g`.
proof fn lemma_inverse_part<N>(f: Field<N>, c: N, g: N)
    requires
        is_field(f),
        c != f.ring.zero,
        g != f.ring.zero,
    ensures
        (f.ring.times)((f.inverse)((f.ring.times)(c, g)), c) == (f.inverse)(g),
{
    let t = f.ring.times;
    let i = (f.inverse)(t(c, g));
    lemma_product_not_zero(f, c, g);
    lemma_invert(f, t(c, g));
    lemma_times_shift(f, i, c, g);
    lemma_invert(f, g);
    lemma_times_shift(f, t(i, c), g, (f.inverse)(g));
    lemma_one(f, t(i, c));
    lemma_one(f, (f.inverse)(g));
}

/// Over a field, predicted time multiplied by clock is the same for every clock.
proof fn lemma_time_by_clock<A: Arith>(
    f: Field<A::Num>,
    cycles: u64,
    clock: A::Num,
    ms: A::Num,
)
    requires
        real_by::<A>(f),
        clock != f.ring.zero,
        milliseconds_are::<A>(cycles, clock, ms),
    ensures
        (f.ring.times)(ms, clock) == (f.ring.times)(
            (f.ring.times)(
                count(f, cycles as nat),
                (f.inverse)(count(f, 1_000_000_000)),
            ),
            count(f, 1000),
        ),
{
    let t = f.ring.times;
    let (n, giga, hertz, seconds, thousand) = choose|
        n: A::Num,
        giga: A::Num,
        hertz: A::Num,
        seconds: A::Num,
        thousand: A::Num,
    |
        {
            &&& count_is::<A>(cycles, n)
            &&& count_is::<A>(1_000_000_000, giga)
            &&& #[trigger] product_is::<A>(clock, giga, hertz)
            &&& #[trigger] quotient_is::<A>(n, hertz, seconds)
            &&& count_is::<A>(1000, thousand)
            &&& #[trigger] product_is::<A>(seconds, thousand, ms)
        };
    lemma_count_positive(f, 1_000_000_000);
    lemma_positive(f, giga);
    lemma_product_not_zero(f, clock, giga);
    lemma_times_move(f, seconds, thousand, clock);
    lemma_times_shift(f, n, (f.inverse)(hertz), clock);
    lemma_inverse_part(f, clock, giga);
}

/// Over a field, the predicted time is inverse to the clock: for the same number
/// of cycles, time multiplied by clock does not depend on the clock, and twice the
/// clock takes half the time.
pub proof fn law_time_is_inverse_to_clock<A: Arith>(
    f: Field<A::Num>,
    cycles: u64,
    clock1: A::Num,
    ms1: A::Num,
    clock2: A::Num,
    ms2: A::Num,
)
    requires
        real_by::<A>(f),
        clock1 != f.ring.zero,
        clock2 != f.ring.zero,
        milliseconds_are::<A>(cycles, clock1, ms1),
        milliseconds_are::<A>(cycles, clock2, ms2),
    ensures
        (f.ring.times)(ms1, clock1) == (f.ring.times)(ms2, clock2),
        clock2 == (f.ring.plus)(clock1, clock1) ==> ms1 == (f.ring.plus)(ms2, ms2),
{
    let (p, t) = (f.ring.plus, f.ring.times);
    lemma_time_by_clock::<A>(f, cycles, clock1, ms1);
    lemma_time_by_clock::<A>(f, cycles, clock2, ms2);
    if clock2 == p(clock1, clock1) {
        let i = (f.inverse)(clock1);
        lemma_times_sum(f, ms2, clock1, clock1);
        lemma_spread(f, ms2, ms2, clock1);
        assert(t(p(ms2, ms2), clock1) == t(ms1, clock1));
        lemma_invert(f, clock1);
        lemma_times_shift(f, ms1, clock1, i);
        lemma_times_shift(f, p(ms2, ms2), clock1, i);
        lemma_one(f, ms1);
        lemma_one(f, p(ms2, ms2));
    }
}

/// The negative of a sum is the sum of the negatives.
proof fn lemma_negative_sum<N>(f: Field<N>, a: N, b: N)
    requires
        is_field(f),
    ensures
        (f.negative)((f.ring.plus)(a, b)) == (f.ring.plus)((f.negative)(a), (f.negative)(b)),
{
    let (na, nb) = ((f.negative)(a), (f.negative)(b));
    lemma_negate(f, a);
    lemma_negate(f, b);
    lemma_interchange(f, a, b, na, nb);
    lemma_zero(f.ring, f.ring.zero);
    lemma_negative_unique(f, (f.ring.plus)(a, b), (f.ring.plus)(na, nb));
}

/// Turning a pair by one angle and then by another is turning it once, by the
/// sine and the cosine of the sum of the angles.
proof fn lemma_turn_twice<N>(f: Field<N>, a: N, b: N, s1: N, c1: N, s2: N, c2: N)
    requires
        is_field(f),
    ensures
        ({
            let (p, t) = (f.ring.plus, f.ring.times);
            let (a2, b2) = turned(f, a, b, s1, c1);
            let s = p(t(s1, c2), t(c1, s2));
            let c = p(t(c1, c2), (f.negative)(t(s1, s2)));
            turned(f, a2, b2, s2, c2) == turned(f, a, b, s, c)
        }),
{
    let (p, t) = (f.ring.plus, f.ring.times);
    let n = f.negative;
    let (a2, b2) = turned(f, a, b, s1, c1);
    let s = p(t(s1, c2), t(c1, s2));
    let c = p(t(c1, c2), n(t(s1, s2)));
    // a2 * k and b2 * k, term by term
    lemma_turned_times(f, a, b, s1, c1, s2);
    lemma_turned_times(f, a, b, s1, c1, c2);
    // a * s, b * s, a * c and b * c, term by term
    lemma_times_sum(f, a, t(s1, c2), t(c1, s2));
    lemma_times_sum(f, b, t(s1, c2), t(c1, s2));
    lemma_times_difference(f, a, t(c1, c2), t(s1, s2));
    lemma_times_difference(f, b, t(c1, c2), t(s1, s2));
    // the first element
    let (acc, bsc, ass, bcs) = (t(a, t(c1, c2)), t(b, t(s1, c2)), t(a, t(s1, s2)), t(b, t(c1, s2)));
    lemma_negative_sum(f, ass, bcs);
    lemma_interchange(f, acc, n(bsc), n(ass), n(bcs));
    lemma_negative_sum(f, bsc, bcs);
    // the second element
    let (acs, bss, asc, bcc) = (t(a, t(c1, s2)), t(b, t(s1, s2)), t(a, t(s1, c2)), t(b, t(c1, c2)));
    lemma_interchange(f, acs, n(bss), asc, bcc);
    lemma_swap(f.ring, acs, asc);
    lemma_swap(f.ring, n(bss), bcc);
}

/// A turned pair times a number.
proof fn lemma_turned_times<N>(f: Field<N>, a: N, b: N, s: N, c: N, k: N)
    requires
        is_field(f),
    ensures
        ({
            let (p, t) = (f.ring.plus, f.ring.times);
            let (a2, b2) = turned(f, a, b, s, c);
            &&& t(a2, k) == p(t(a, t(c, k)), (f.negative)(t(b, t(s, k))))
            &&& t(b2, k) == p(t(a, t(s, k)), t(b, t(c, k)))
        }),
{
    let t = f.ring.times;
    lemma_spread(f, t(a, c), (f.negative)(t(b, s)), k);
    lemma_negative_times(f, t(b, s), k);
    lemma_spread(f, t(a, s), t(b, c), k);
    lemma_times_shift(f, a, c, k);
    lemma_times_shift(f, b, s, k);
    lemma_times_shift(f, a, s, k);
    lemma_times_shift(f, b, c, k);
}

/// `a * (b + c) == a * b + a * c`
proof fn lemma_times_sum<N>(f: Field<N>, a: N, b: N, c: N)
    requires
        is_field(f),
    ensures
        (f.ring.times)(a, (f.ring.plus)(b, c)) == (f.ring.plus)(
            (f.ring.times)(a, b),
            (f.ring.times)(a, c),
        ),
{
    lemma_times_swap(f, a, (f.ring.plus)(b, c));
    lemma_spread(f, b, c, a);
    lemma_times_swap(f, a, b);
    lemma_times_swap(f, a, c);
}

/// `a * (b - c) == a * b - a * c`
proof fn lemma_times_difference<N>(f: Field<N>, a: N, b: N, c: N)
    requires
        is_field(f),
    ensures
        (f.ring.times)(a, (f.ring.plus)(b, (f.negative)(c))) == (f.ring.plus)(
            (f.ring.times)(a, b),
            (f.negative)((f.ring.times)(a, c)),
        ),
{
    lemma_times_sum(f, a, b, (f.negative)(c));
    lemma_negative_times(f, c, a);
    lemma_times_swap(f, a, c);
}

/// Counts add up.
proof fn lemma_count_sum<N>(f: Field<N>, m: nat, n: nat)
    requires
        is_field(f),
    ensures
        count(f, m + n) == (f.ring.plus)(count(f, m), count(f, n)),
    decreases n,
{
    if n == 0 {
        lemma_zero(f.ring, count(f, m));
    } else {
        lemma_count_sum(f, m, (n - 1) as nat);
        lemma_shift(f.ring, count(f, m), count(f, (n - 1) as nat), f.one);
    }
}

/// Sine and cosine of `A` obey the addition formulas; small integers and powers
/// have one outcome each.
pub open spec fn turns_by<A: Arith>(f: Field<A::Num>) -> bool {
    &&& forall|v: i8, r: A::Num, s: A::Num|
        #[trigger] int_is::<A>(v, r) && #[trigger] int_is::<A>(v, s) ==> r == s
    &&& forall|a: A::Num, b: A::Num, r: A::Num, s: A::Num|
        #[trigger] power_is::<A>(a, b, r) && #[trigger] power_is::<A>(a, b, s) ==> r == s
    &&& forall|
        a: A::Num,
        b: A::Num,
        s1: A::Num,
        c1: A::Num,
        s2: A::Num,
        c2: A::Num,
        s: A::Num,
        c: A::Num,
    |
        #[trigger] sin_cos_is::<A>(a, s1, c1) && #[trigger] sin_cos_is::<A>(b, s2, c2)
            && #[trigger] sin_cos_is::<A>((f.ring.plus)(a, b), s, c) ==> {
            &&& s == (f.ring.plus)((f.ring.times)(s1, c2), (f.ring.times)(c1, s2))
            &&& c == (f.ring.plus)(
                (f.ring.times)(c1, c2),
                (f.negative)((f.ring.times)(s1, s2)),
            )
        }
}

/// Over a field, the angles of a pair at two positions add up to its angle at the
/// sum of the positions.
proof fn lemma_angles_add<A: Arith>(
    f: Field<A::Num>,
    p: u64,
    q: u64,
    i: u64,
    d: u64,
    freq_base: A::Num,
    at_p: A::Num,
    at_q: A::Num,
    at_sum: A::Num,
)
    requires
        real_by::<A>(f),
        turns_by::<A>(f),
        d > 0,
        p + q <= u64::MAX,
        angle_is::<A>(p, i, d, freq_base, at_p),
        angle_is::<A>(q, i, d, freq_base, at_q),
        angle_is::<A>((p + q) as u64, i, d, freq_base, at_sum),
    ensures
        at_sum == (f.ring.plus)(at_p, at_q),
{
    let (n1, m1, _, t1, _, e1, o1) = lemma_angle_parts::<A>(p, i, d, freq_base, at_p);
    let (n2, m2, _, t2, _, e2, o2) = lemma_angle_parts::<A>(q, i, d, freq_base, at_q);
    let (n3, m3, _, t3, _, e3, o3) = lemma_angle_parts::<A>(
        (p + q) as u64,
        i,
        d,
        freq_base,
        at_sum,
    );
    assert(m1 == m2 && m2 == m3);
    assert(t1 == t2 && t2 == t3);
    lemma_count_positive(f, d as nat);
    lemma_positive(f, count(f, d as nat));
    assert(e1 == e2 && e2 == e3);
    assert(o1 == o2 && o2 == o3);
    lemma_count_sum(f, p as nat, q as nat);
    lemma_spread(f, n1, n2, o1);
}

/// Over a field, the rotary embedding at position `p` and then at position `q` is
/// the rotary embedding at position `p + q`.
pub proof fn law_rope_adds_positions<A: Arith>(
    f: Field<A::Num>,
    x: Seq<A::Num>,
    p: u64,
    q: u64,
    freq_base: A::Num,
    y: Seq<A::Num>,
    z: Seq<A::Num>,
    w: Seq<A::Num>,
)
    requires
        real_by::<A>(f),
        turns_by::<A>(f),
        x.len() % 2 == 0,
        x.len() <= u64::MAX,
        p + q <= u64::MAX,
        rope_is::<A>(x, p, freq_base, y),
        rope_is::<A>(y, q, freq_base, z),
        rope_is::<A>(x, (p + q) as u64, freq_base, w),
    ensures
        z == w,
{
    assert forall|j: int| 0 <= j < x.len() implies #[trigger] z[j] == w[j] by {
        let i = j / 2;
        assert(pair_rotated::<A>(x, p, freq_base, y, i));
        assert(pair_rotated::<A>(y, q, freq_base, z, i));
        assert(pair_rotated::<A>(x, (p + q) as u64, freq_base, w, i));
        let (a1, s1, c1) = lemma_rotated_pair::<A>(f, x, p, freq_base, y, i);
        let (a2, s2, c2) = lemma_rotated_pair::<A>(f, y, q, freq_base, z, i);
        let (a3, s3, c3) = lemma_rotated_pair::<A>(f, x, (p + q) as u64, freq_base, w, i);
        lemma_angles_add::<A>(f, p, q, i as u64, x.len() as u64, freq_base, a1, a2, a3);
        assert(sin_cos_is::<A>((f.ring.plus)(a1, a2), s3, c3));
        lemma_turn_twice(f, x[2 * i], x[2 * i + 1], s1, c1, s2, c2);
    }
    assert(z =~= w);
}

/// A vector times a constant one adds up to the constant times its sum.
proof fn lemma_dot_constant<N>(f: Field<N>, x: Seq<N>, w: Seq<N>, c: N, n: nat)
    requires
        is_field(f),
        forall|i: int| 0 <= i < n ==> #[trigger] w[i] == c,
    ensures
        dot(f.ring, x, w, n) == (f.ring.times)(sum(f, x, n), c),
    decreases n,
{
    if n == 0 {
        lemma_zero_times(f, c);
    } else {
        let m = (n - 1) as nat;
        lemma_dot_constant(f, x, w, c, m);
        assert(w[m as int] == c);
        lemma_spread(f, sum(f, x, m), x[m as int], c);
    }
}

/// Over a field, attention is an average: where all positions hold the same number
/// in element `d` of key/value head `g`, each of the query heads of group `g`, which
/// are `per` in a row, has that number in element `d` of its output.
pub proof fn law_attention_averages_its_group<A: Arith>(
    f: Field<A::Num>,
    q: Seq<A::Num>,
    k: Seq<A::Num>,
    v: Seq<A::Num>,
    kv_dim: int,
    n_kv_heads: int,
    per: int,
    head_dim: usize,
    n: nat,
    out: Seq<A::Num>,
    g: int,
    r: int,
    d: int,
    number: A::Num,
)
    requires
        real_by::<A>(f),
        n > 0,
        0 <= kv_dim,
        0 <= g < n_kv_heads,
        0 <= r < per,
        0 <= d < head_dim,
        q.len() == (n_kv_heads * per) * head_dim,
        out.len() == (n_kv_heads * per) * head_dim,
        (n - 1) * kv_dim + n_kv_heads * head_dim <= v.len(),
        attention_is::<A>(q, k, v, kv_dim, n_kv_heads * per, n_kv_heads, head_dim, n, out),
        forall|t: int|
            0 <= t < n ==> #[trigger] v[t * kv_dim + (g * head_dim + d)] == number,
    ensures
        out[(g * per + r) * head_dim + d] == number,
{
    let hd = head_dim as int;
    let n_heads = n_kv_heads * per;
    let h = g * per + r;
    lemma_group(g, r, per, n_kv_heads);
    let root = choose|inv_sqrt_d: A::Num|
        {
            &&& #[trigger] inv_sqrt_is::<A>(head_dim as u64, inv_sqrt_d)
            &&& forall|h: int|
                0 <= h < n_heads ==> #[trigger] head_attention_is::<A>(
                    head(q, head_dim as nat, h),
                    k,
                    v,
                    kv_dim,
                    h / (n_heads / n_kv_heads),
                    n,
                    inv_sqrt_d,
                    head(out, head_dim as nat, h),
                )
        };
    let (q_h, out_h) = (head(q, hd as nat, h), head(out, hd as nat, h));
    lemma_row_in_matrix(h, n_heads, hd);
    lemma_row_in_matrix(g, n_kv_heads, hd);
    assert((h + 1) * hd == h * hd + hd) by (nonlinear_arith);
    assert(head_attention_is::<A>(q_h, k, v, kv_dim, g, n, root, out_h));
    let weights = choose|weights: Seq<A::Num>|
        {
            &&& #[trigger] weights_are::<A>(q_h, k, kv_dim, g, n, root, weights)
            &&& forall|d: int|
                0 <= d < q_h.len() ==> weighted_sum_is::<A>(
                    weights,
                    value_column(v, kv_dim, g, q_h.len() as int, n, d),
                    #[trigger] out_h[d],
                )
        };
    lemma_weights_sum::<A>(f, q_h, k, kv_dim, g, n, root, weights);
    let column = value_column(v, kv_dim, g, hd, n, d);
    assert(weighted_sum_is::<A>(weights, column, out_h[d]));
    let zero = choose|zero: A::Num|
        #[trigger] int_is::<A>(0, zero) && mac_is::<A>(
            zero,
            weights,
            column,
            column.len(),
            out_h[d],
        );
    assert(zero == f.ring.zero);
    lemma_mac_is_dot::<A>(f.ring, weights, column, n, out_h[d]);
    assert forall|t: int| 0 <= t < n implies #[trigger] column[t] == number by {
        assert(t * kv_dim <= (n - 1) * kv_dim && 0 <= t * kv_dim) by (nonlinear_arith)
            requires
                0 <= t <= n - 1,
                0 <= kv_dim,
        ;
        assert(column[t] == v[t * kv_dim + (g * hd + d)]);
    }
    lemma_dot_constant(f, weights, column, number, n);
    lemma_one(f, number);
}

/// Over a field, every pair of a vector is turned, pair `i` by the angle
/// `pos * freq_base ^ e` with `e * d + 2 i == 0`: what was `(1, 0)` becomes cosine
/// and sine of that angle, and any other pair turns with it.
pub proof fn law_rope_turns_every_pair<A: Arith>(
    f: Field<A::Num>,
    x: Seq<A::Num>,
    pos: u64,
    freq_base: A::Num,
    y: Seq<A::Num>,
    i: int,
)
    requires
        real_by::<A>(f),
        forall|r: A::Num|
            #[trigger] int_is::<A>((-2) as i8, r) ==> (f.ring.plus)(r, count(f, 2))
                == f.ring.zero,
        x.len() <= u64::MAX,
        0 <= 2 * i,
        2 * i + 1 < x.len(),
        rope_is::<A>(x, pos, freq_base, y),
    ensures
        exists|e: A::Num, omega: A::Num, s: A::Num, c: A::Num|
            {
                let (p, t) = (f.ring.plus, f.ring.times);
                &&& p(t(e, count(f, x.len())), count(f, (2 * i) as nat)) == f.ring.zero
                &&& #[trigger] power_is::<A>(freq_base, e, omega)
                &&& #[trigger] sin_cos_is::<A>(
                    (f.ring.times)(count(f, pos as nat), omega),
                    s,
                    c,
                )
                &&& y[2 * i] == p(t(x[2 * i], c), (f.negative)(t(x[2 * i + 1], s)))
                &&& y[2 * i + 1] == p(t(x[2 * i], s), t(x[2 * i + 1], c))
                &&& x[2 * i] == f.one && x[2 * i + 1] == f.ring.zero ==> y[2 * i] == c && y[2 * i
                    + 1] == s
            },
{
    let (p, t) = (f.ring.plus, f.ring.times);
    assert(pair_rotated::<A>(x, pos, freq_base, y, i));
    let (angle, s, c) = lemma_rotated_pair::<A>(f, x, pos, freq_base, y, i);
    let (at, minus_two, index, top, dim, e, omega) = lemma_angle_parts::<A>(
        pos,
        i as u64,
        x.len() as u64,
        freq_base,
        angle,
    );
    lemma_count_positive(f, x.len());
    lemma_positive(f, dim);
    lemma_invert(f, dim);
    lemma_times_shift(f, top, (f.inverse)(dim), dim);
    lemma_one(f, top);
    assert(t(e, dim) == top);
    lemma_count_sum(f, i as nat, i as nat);
    assert((2 * i) as nat == (i as nat) + (i as nat));
    reveal_with_fuel(count, 3);
    lemma_zero(f.ring, f.one);
    lemma_spread(f, f.one, f.one, index);
    lemma_one(f, index);
    lemma_spread(f, minus_two, count(f, 2), index);
    lemma_zero_times(f, index);
    assert(p(t(e, dim), count(f, (2 * i) as nat)) == f.ring.zero);
    assert(power_is::<A>(freq_base, e, omega));
    assert(sin_cos_is::<A>(t(count(f, pos as nat), omega), s, c));
    if x[2 * i] == f.one && x[2 * i + 1] == f.ring.zero {
        lemma_one(f, c);
        lemma_one(f, s);
        lemma_zero_times(f, c);
        lemma_zero_times(f, s);
        lemma_zero(f.ring, f.ring.zero);
        lemma_negative_unique(f, f.ring.zero, f.ring.zero);
        lemma_zero(f.ring, c);
        lemma_zero(f.ring, s);
    }
}

} // verus!
