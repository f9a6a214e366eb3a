//! The scalar arithmetic that every numeric kernel of this crate is written over.
//!
//! The kernels never look inside a number: they load it, store it, and hand it
//! to one of the operations of [`Arith`]. An implementation of `Arith` picks the
//! machine type (`f32` for tensors, `f64` for the performance models). Nothing
//! is assumed of the operations, neither algebraic laws nor that they
//! are functions: the contracts of the kernels say *which* operations were
//! applied to *which* operands in *which* order, through the relations below
//! (`sum_is(a, b, r)`: `r` is an outcome of adding `b` to `a`). For an
//! arithmetic whose operations have one outcome each, [`deterministic`], such a
//! relation fixes the result completely.

use vstd::prelude::*;

verus! {

/// Scalar arithmetic over the number type `Num`.
pub trait Arith {
    /// A number.
    type Num: Copy;

    /// The number with the value of a small integer.
    fn from_i8(v: i8) -> Self::Num;

    /// The number nearest to a count.
    fn from_u64(v: u64) -> Self::Num;

    /// The number that an IEEE 754 binary32 bit pattern stands for.
    fn from_bits(bits: u32) -> Self::Num;

    /// The value that a sum over a sequence starts from.
    fn empty_sum() -> Self::Num;

    /// Positive infinity, where a running minimum starts from.
    fn infinity() -> Self::Num;

    /// Negative infinity, where a running maximum starts from.
    fn neg_infinity() -> Self::Num;

    /// `a + b`
    fn plus(a: Self::Num, b: Self::Num) -> Self::Num;

    /// `a - b`
    fn minus(a: Self::Num, b: Self::Num) -> Self::Num;

    /// `a * b`
    fn times(a: Self::Num, b: Self::Num) -> Self::Num;

    /// `a / b`
    fn divide(a: Self::Num, b: Self::Num) -> Self::Num;

    /// `-a`
    fn negate(a: Self::Num) -> Self::Num;

    /// `|a|`
    fn abs(a: Self::Num) -> Self::Num;

    /// The square root of `a`.
    fn sqrt(a: Self::Num) -> Self::Num;

    /// `e` to the power `a`.
    fn exp(a: Self::Num) -> Self::Num;

    /// `base` to the power `e`.
    fn powf(base: Self::Num, e: Self::Num) -> Self::Num;

    /// Sine and cosine of `a`, in this order.
    fn sin_cos(a: Self::Num) -> (Self::Num, Self::Num);

    /// The larger of the two.
    fn max(a: Self::Num, b: Self::Num) -> Self::Num;

    /// The smaller of the two.
    fn min(a: Self::Num, b: Self::Num) -> Self::Num;

    /// `a > b`
    fn exceeds(a: Self::Num, b: Self::Num) -> bool;
}

/// `r` is the number with the value of the integer `v`.
pub open spec fn int_is<A: Arith>(v: i8, r: A::Num) -> bool {
    call_ensures(A::from_i8, (v,), r)
}

/// `r` is the number nearest to the count `v`.
pub open spec fn count_is<A: Arith>(v: u64, r: A::Num) -> bool {
    call_ensures(A::from_u64, (v,), r)
}

/// `r` is the number that the bit pattern `bits` stands for.
pub open spec fn bits_are<A: Arith>(bits: u32, r: A::Num) -> bool {
    call_ensures(A::from_bits, (bits,), r)
}

/// `r` is the value that a sum starts from.
pub open spec fn empty_sum_is<A: Arith>(r: A::Num) -> bool {
    call_ensures(A::empty_sum, (), r)
}

/// `r` is positive infinity.
pub open spec fn infinity_is<A: Arith>(r: A::Num) -> bool {
    call_ensures(A::infinity, (), r)
}

/// `r` is negative infinity.
pub open spec fn neg_infinity_is<A: Arith>(r: A::Num) -> bool {
    call_ensures(A::neg_infinity, (), r)
}

/// `r` is an outcome of `a + b`.
pub open spec fn sum_is<A: Arith>(a: A::Num, b: A::Num, r: A::Num) -> bool {
    call_ensures(A::plus, (a, b), r)
}

/// `r` is an outcome of `a - b`.
pub open spec fn difference_is<A: Arith>(a: A::Num, b: A::Num, r: A::Num) -> bool {
    call_ensures(A::minus, (a, b), r)
}

/// `r` is an outcome of `a * b`.
pub open spec fn product_is<A: Arith>(a: A::Num, b: A::Num, r: A::Num) -> bool {
    call_ensures(A::times, (a, b), r)
}

/// `r` is an outcome of `a / b`.
pub open spec fn quotient_is<A: Arith>(a: A::Num, b: A::Num, r: A::Num) -> bool {
    call_ensures(A::divide, (a, b), r)
}

/// `r` is an outcome of `-a`.
pub open spec fn negation_is<A: Arith>(a: A::Num, r: A::Num) -> bool {
    call_ensures(A::negate, (a,), r)
}

/// `r` is an outcome of `|a|`.
pub open spec fn abs_is<A: Arith>(a: A::Num, r: A::Num) -> bool {
    call_ensures(A::abs, (a,), r)
}

/// `r` is an outcome of the square root of `a`.
pub open spec fn sqrt_is<A: Arith>(a: A::Num, r: A::Num) -> bool {
    call_ensures(A::sqrt, (a,), r)
}

/// `r` is an outcome of the exponential of `a`.
pub open spec fn exp_is<A: Arith>(a: A::Num, r: A::Num) -> bool {
    call_ensures(A::exp, (a,), r)
}

/// `r` is an outcome of `base` to the power `e`.
pub open spec fn power_is<A: Arith>(base: A::Num, e: A::Num, r: A::Num) -> bool {
    call_ensures(A::powf, (base, e), r)
}

/// `(s, c)` is an outcome of sine and cosine of `a`.
pub open spec fn sin_cos_is<A: Arith>(a: A::Num, s: A::Num, c: A::Num) -> bool {
    call_ensures(A::sin_cos, (a,), (s, c))
}

/// `r` is an outcome of the maximum of `a` and `b`.
pub open spec fn max_is<A: Arith>(a: A::Num, b: A::Num, r: A::Num) -> bool {
    call_ensures(A::max, (a, b), r)
}

/// `r` is an outcome of the minimum of `a` and `b`.
pub open spec fn min_is<A: Arith>(a: A::Num, b: A::Num, r: A::Num) -> bool {
    call_ensures(A::min, (a, b), r)
}

/// `r` is an outcome of the comparison `a > b`.
pub open spec fn exceeds_is<A: Arith>(a: A::Num, b: A::Num, r: bool) -> bool {
    call_ensures(A::exceeds, (a, b), r)
}

/// Small integers, additions and multiplications have one outcome each: all
/// that a chain of multiply-adds consists of.
pub open spec fn deterministic<A: Arith>() -> bool {
    &&& forall|v: i8, r: A::Num, s: A::Num|
        #[trigger] int_is::<A>(v, r) && #[trigger] int_is::<A>(v, s) ==> r == s
    &&& forall|a: A::Num, b: A::Num, r: A::Num, s: A::Num|
        #[trigger] sum_is::<A>(a, b, r) && #[trigger] sum_is::<A>(a, b, s) ==> r == s
    &&& forall|a: A::Num, b: A::Num, r: A::Num, s: A::Num|
        #[trigger] product_is::<A>(a, b, r) && #[trigger] product_is::<A>(a, b, s) ==> r == s
}

/// Besides what [`deterministic`] says, the operations that a softmax consists of
/// have one outcome each.
pub open spec fn single_valued<A: Arith>() -> bool {
    &&& deterministic::<A>()
    &&& forall|r: A::Num, s: A::Num|
        #[trigger] empty_sum_is::<A>(r) && #[trigger] empty_sum_is::<A>(s) ==> r == s
    &&& forall|r: A::Num, s: A::Num|
        #[trigger] neg_infinity_is::<A>(r) && #[trigger] neg_infinity_is::<A>(s) ==> r == s
    &&& forall|a: A::Num, b: A::Num, r: A::Num, s: A::Num|
        #[trigger] max_is::<A>(a, b, r) && #[trigger] max_is::<A>(a, b, s) ==> r == s
    &&& forall|a: A::Num, b: A::Num, r: A::Num, s: A::Num|
        #[trigger] difference_is::<A>(a, b, r) && #[trigger] difference_is::<A>(a, b, s) ==> r == s
    &&& forall|a: A::Num, b: A::Num, r: A::Num, s: A::Num|
        #[trigger] quotient_is::<A>(a, b, r) && #[trigger] quotient_is::<A>(a, b, s) ==> r == s
    &&& forall|a: A::Num, r: A::Num, s: A::Num|
        #[trigger] exp_is::<A>(a, r) && #[trigger] exp_is::<A>(a, s) ==> r == s
}

/// One multiply-add: `r` is an outcome of `acc + a * b`.
pub open spec fn mul_add_is<A: Arith>(acc: A::Num, a: A::Num, b: A::Num, r: A::Num) -> bool {
    exists|p: A::Num| #[trigger] product_is::<A>(a, b, p) && sum_is::<A>(acc, p, r)
}

/// `r` is an outcome of `((init + x[0] * w[0]) + x[1] * w[1]) + ...` over the
/// first `n` pairs, in ascending order.
pub open spec fn mac_is<A: Arith>(
    init: A::Num,
    x: Seq<A::Num>,
    w: Seq<A::Num>,
    n: nat,
    r: A::Num,
) -> bool
    decreases n,
{
    if n == 0 {
        r == init
    } else {
        exists|s: A::Num|
            mac_is::<A>(init, x, w, (n - 1) as nat, s) && #[trigger] mul_add_is::<A>(
                s,
                x[n - 1],
                w[n - 1],
                r,
            )
    }
}

/// `r` is an outcome of the dot product of `x` and `w`, accumulated from zero in
/// ascending order.
pub open spec fn dot_is<A: Arith>(x: Seq<A::Num>, w: Seq<A::Num>, r: A::Num) -> bool {
    exists|z: A::Num| #[trigger] int_is::<A>(0, z) && mac_is::<A>(z, x, w, x.len(), r)
}

/// `r` is an outcome of the sum of the products of the pairs of `x` and `w`, in
/// ascending order, from the value that a sum starts from.
pub open spec fn inner_is<A: Arith>(x: Seq<A::Num>, w: Seq<A::Num>, r: A::Num) -> bool {
    exists|z: A::Num| #[trigger] empty_sum_is::<A>(z) && mac_is::<A>(z, x, w, x.len(), r)
}

/// `r` is an outcome of `((init + xs[0]) + xs[1]) + ...` over the first `n`
/// numbers, in ascending order.
pub open spec fn running_sum_is<A: Arith>(init: A::Num, xs: Seq<A::Num>, n: nat, r: A::Num) -> bool
    decreases n,
{
    if n == 0 {
        r == init
    } else {
        exists|s: A::Num|
            running_sum_is::<A>(init, xs, (n - 1) as nat, s) && #[trigger] sum_is::<A>(
                s,
                xs[n - 1],
                r,
            )
    }
}

/// `r` is an outcome of summing `xs` in ascending order, from the value that a
/// sum starts from.
pub open spec fn total_is<A: Arith>(xs: Seq<A::Num>, r: A::Num) -> bool {
    exists|z: A::Num| #[trigger] empty_sum_is::<A>(z) && running_sum_is::<A>(z, xs, xs.len(), r)
}

/// `r` is an outcome of the running maximum `max(max(init, xs[0]), xs[1])...`
/// over the first `n` numbers.
pub open spec fn running_max_is<A: Arith>(init: A::Num, xs: Seq<A::Num>, n: nat, r: A::Num) -> bool
    decreases n,
{
    if n == 0 {
        r == init
    } else {
        exists|s: A::Num|
            running_max_is::<A>(init, xs, (n - 1) as nat, s) && #[trigger] max_is::<A>(
                s,
                xs[n - 1],
                r,
            )
    }
}

/// `r` is an outcome of the maximum of `xs`, taken in ascending order from
/// negative infinity.
pub open spec fn greatest_is<A: Arith>(xs: Seq<A::Num>, r: A::Num) -> bool {
    exists|z: A::Num| #[trigger] neg_infinity_is::<A>(z) && running_max_is::<A>(z, xs, xs.len(), r)
}

/// `r` is an outcome of the running minimum `min(min(init, xs[0]), xs[1])...`
/// over the first `n` numbers.
pub open spec fn running_min_is<A: Arith>(init: A::Num, xs: Seq<A::Num>, n: nat, r: A::Num) -> bool
    decreases n,
{
    if n == 0 {
        r == init
    } else {
        exists|s: A::Num|
            running_min_is::<A>(init, xs, (n - 1) as nat, s) && #[trigger] min_is::<A>(
                s,
                xs[n - 1],
                r,
            )
    }
}

/// `r` is an outcome of the minimum of `xs`, taken in ascending order from
/// positive infinity.
pub open spec fn least_is<A: Arith>(xs: Seq<A::Num>, r: A::Num) -> bool {
    exists|z: A::Num| #[trigger] infinity_is::<A>(z) && running_min_is::<A>(z, xs, xs.len(), r)
}

/// `r` is an outcome of `a * b + c`.
pub open spec fn fma_is<A: Arith>(a: A::Num, b: A::Num, c: A::Num, r: A::Num) -> bool {
    exists|p: A::Num| #[trigger]
        product_is::<A>(a, b, p) && sum_is::<A>(p, c, r)
}

/// `r` is an outcome of `x / (1 + exp(-x))`.
pub open spec fn silu_is<A: Arith>(x: A::Num, r: A::Num) -> bool {
    exists|n: A::Num, e: A::Num, one: A::Num, d: A::Num|
        {
            &&& #[trigger] negation_is::<A>(x, n)
            &&& #[trigger] exp_is::<A>(n, e)
            &&& int_is::<A>(1, one)
            &&& #[trigger] sum_is::<A>(one, e, d)
            &&& quotient_is::<A>(x, d, r)
        }
}

/// `r` is an outcome of `1 / sqrt(x)`.
pub open spec fn rsqrt_is<A: Arith>(x: A::Num, r: A::Num) -> bool {
    exists|one: A::Num, s: A::Num|
        {
            &&& #[trigger] int_is::<A>(1, one)
            &&& #[trigger] sqrt_is::<A>(x, s)
            &&& quotient_is::<A>(one, s, r)
        }
}

/// `r` is an outcome of `1 / n`.
pub open spec fn reciprocal_is<A: Arith>(n: u64, r: A::Num) -> bool {
    exists|one: A::Num, count: A::Num|
        {
            &&& int_is::<A>(1, one)
            &&& count_is::<A>(n, count)
            &&& #[trigger] quotient_is::<A>(one, count, r)
        }
}

/// Multiplies and adds.
pub fn mul_add<A: Arith>(acc: A::Num, a: A::Num, b: A::Num) -> (r: A::Num)
    ensures
        mul_add_is::<A>(acc, a, b, r),
{
    let p = A::times(a, b);
    let r = A::plus(acc, p);
    assert(product_is::<A>(a, b, p));
    r
}

/// `x / (1 + exp(-x))`
pub fn silu<A: Arith>(x: A::Num) -> (r: A::Num)
    ensures
        silu_is::<A>(x, r),
{
    let n = A::negate(x);
    let e = A::exp(n);
    let one = A::from_i8(1);
    let d = A::plus(one, e);
    let r = A::divide(x, d);
    assert(negation_is::<A>(x, n) && exp_is::<A>(n, e) && int_is::<A>(1, one));
    assert(sum_is::<A>(one, e, d));
    r
}

/// `1 / sqrt(x)`
pub fn rsqrt<A: Arith>(x: A::Num) -> (r: A::Num)
    ensures
        rsqrt_is::<A>(x, r),
{
    let one = A::from_i8(1);
    let s = A::sqrt(x);
    let r = A::divide(one, s);
    assert(int_is::<A>(1, one) && sqrt_is::<A>(x, s));
    r
}

/// `1 / n`
pub fn reciprocal<A: Arith>(n: u64) -> (r: A::Num)
    ensures
        reciprocal_is::<A>(n, r),
{
    let one = A::from_i8(1);
    let count = A::from_u64(n);
    let r = A::divide(one, count);
    assert(int_is::<A>(1, one) && count_is::<A>(n, count) && quotient_is::<A>(one, count, r));
    r
}

/// A chain of multiply-adds grows by one pair.
pub proof fn lemma_mac_push<A: Arith>(
    init: A::Num,
    x: Seq<A::Num>,
    w: Seq<A::Num>,
    n: nat,
    s: A::Num,
    r: A::Num,
)
    requires
        mac_is::<A>(init, x, w, n, s),
        mul_add_is::<A>(s, x[n as int], w[n as int], r),
    ensures
        mac_is::<A>(init, x, w, n + 1, r),
{
    assert(mac_is::<A>(init, x, w, ((n + 1) - 1) as nat, s));
}

/// A chain of multiply-adds depends only on the pairs that it covers.
pub proof fn lemma_mac_same<A: Arith>(
    init: A::Num,
    x1: Seq<A::Num>,
    w1: Seq<A::Num>,
    x2: Seq<A::Num>,
    w2: Seq<A::Num>,
    n: nat,
    r: A::Num,
)
    requires
        mac_is::<A>(init, x1, w1, n, r),
        forall|i: int| 0 <= i < n ==> #[trigger] x1[i] == x2[i],
        forall|i: int| 0 <= i < n ==> #[trigger] w1[i] == w2[i],
    ensures
        mac_is::<A>(init, x2, w2, n, r),
    decreases n,
{
    if n > 0 {
        let s = choose|s: A::Num|
            mac_is::<A>(init, x1, w1, (n - 1) as nat, s) && #[trigger] mul_add_is::<A>(
                s,
                x1[n - 1],
                w1[n - 1],
                r,
            );
        lemma_mac_same::<A>(init, x1, w1, x2, w2, (n - 1) as nat, s);
        assert(x1[n - 1] == x2[n - 1] && w1[n - 1] == w2[n - 1]);
    }
}

/// Two chains of multiply-adds, the second starting from the outcome of the
/// first, are one chain over the pairs of both.
pub proof fn lemma_mac_concat<A: Arith>(
    init: A::Num,
    x: Seq<A::Num>,
    w: Seq<A::Num>,
    m: nat,
    s: A::Num,
    x2: Seq<A::Num>,
    w2: Seq<A::Num>,
    n: nat,
    r: A::Num,
)
    requires
        mac_is::<A>(init, x, w, m, s),
        mac_is::<A>(s, x2, w2, n, r),
        forall|i: int| 0 <= i < n ==> #[trigger] x2[i] == x[m + i],
        forall|i: int| 0 <= i < n ==> #[trigger] w2[i] == w[m + i],
    ensures
        mac_is::<A>(init, x, w, m + n, r),
    decreases n,
{
    if n > 0 {
        let t = choose|t: A::Num|
            mac_is::<A>(s, x2, w2, (n - 1) as nat, t) && #[trigger] mul_add_is::<A>(
                t,
                x2[n - 1],
                w2[n - 1],
                r,
            );
        lemma_mac_concat::<A>(init, x, w, m, s, x2, w2, (n - 1) as nat, t);
        assert(x2[n - 1] == x[m + (n - 1)] && w2[n - 1] == w[m + (n - 1)]);
        lemma_mac_push::<A>(init, x, w, (m + n - 1) as nat, t, r);
    }
}

/// A sum grows by one number.
pub proof fn lemma_running_sum_push<A: Arith>(
    init: A::Num,
    xs: Seq<A::Num>,
    n: nat,
    s: A::Num,
    r: A::Num,
)
    requires
        running_sum_is::<A>(init, xs, n, s),
        sum_is::<A>(s, xs[n as int], r),
    ensures
        running_sum_is::<A>(init, xs, n + 1, r),
{
    assert(running_sum_is::<A>(init, xs, ((n + 1) - 1) as nat, s));
}

/// A sum depends only on the numbers that it covers.
pub proof fn lemma_running_sum_same<A: Arith>(
    init: A::Num,
    xs: Seq<A::Num>,
    ys: Seq<A::Num>,
    n: nat,
    r: A::Num,
)
    requires
        running_sum_is::<A>(init, xs, n, r),
        forall|i: int| 0 <= i < n ==> #[trigger] xs[i] == ys[i],
    ensures
        running_sum_is::<A>(init, ys, n, r),
    decreases n,
{
    if n > 0 {
        let s = choose|s: A::Num|
            running_sum_is::<A>(init, xs, (n - 1) as nat, s) && #[trigger] sum_is::<A>(
                s,
                xs[n - 1],
                r,
            );
        lemma_running_sum_same::<A>(init, xs, ys, (n - 1) as nat, s);
        assert(xs[n - 1] == ys[n - 1]);
    }
}

/// A running maximum grows by one number.
pub proof fn lemma_running_max_push<A: Arith>(
    init: A::Num,
    xs: Seq<A::Num>,
    n: nat,
    s: A::Num,
    r: A::Num,
)
    requires
        running_max_is::<A>(init, xs, n, s),
        max_is::<A>(s, xs[n as int], r),
    ensures
        running_max_is::<A>(init, xs, n + 1, r),
{
    assert(running_max_is::<A>(init, xs, ((n + 1) - 1) as nat, s));
}

/// Where the arithmetic is deterministic, so is a chain of multiply-adds.
pub proof fn lemma_mac_unique<A: Arith>(
    init: A::Num,
    x: Seq<A::Num>,
    w: Seq<A::Num>,
    n: nat,
    r1: A::Num,
    r2: A::Num,
)
    requires
        deterministic::<A>(),
        mac_is::<A>(init, x, w, n, r1),
        mac_is::<A>(init, x, w, n, r2),
    ensures
        r1 == r2,
    decreases n,
{
    if n > 0 {
        let s1 = choose|s: A::Num|
            mac_is::<A>(init, x, w, (n - 1) as nat, s) && #[trigger] mul_add_is::<A>(
                s,
                x[n - 1],
                w[n - 1],
                r1,
            );
        let s2 = choose|s: A::Num|
            mac_is::<A>(init, x, w, (n - 1) as nat, s) && #[trigger] mul_add_is::<A>(
                s,
                x[n - 1],
                w[n - 1],
                r2,
            );
        lemma_mac_unique::<A>(init, x, w, (n - 1) as nat, s1, s2);
        let p1 = choose|p: A::Num|
            #[trigger] product_is::<A>(x[n - 1], w[n - 1], p) && sum_is::<A>(s1, p, r1);
        let p2 = choose|p: A::Num|
            #[trigger] product_is::<A>(x[n - 1], w[n - 1], p) && sum_is::<A>(s2, p, r2);
        assert(p1 == p2);
        assert(sum_is::<A>(s1, p1, r1) && sum_is::<A>(s1, p1, r2));
    }
}

/// Where the arithmetic is deterministic, a dot product has one outcome.
pub proof fn lemma_dot_unique<A: Arith>(
    x: Seq<A::Num>,
    w: Seq<A::Num>,
    r1: A::Num,
    r2: A::Num,
)
    requires
        deterministic::<A>(),
        dot_is::<A>(x, w, r1),
        dot_is::<A>(x, w, r2),
    ensures
        r1 == r2,
{
    let z1 = choose|z: A::Num| #[trigger]
        int_is::<A>(0, z) && mac_is::<A>(z, x, w, x.len(), r1);
    let z2 = choose|z: A::Num| #[trigger]
        int_is::<A>(0, z) && mac_is::<A>(z, x, w, x.len(), r2);
    assert(z1 == z2);
    lemma_mac_unique::<A>(z1, x, w, x.len(), r1, r2);
}

/// The sum of a slice, in ascending order.
pub(crate) fn total<A: Arith>(xs: &[A::Num]) -> (r: A::Num)
    ensures
        total_is::<A>(xs@, r),
{
    let z = A::empty_sum();
    let mut r = z;
    for i in 0..xs.len()
        invariant
            running_sum_is::<A>(z, xs@, i as nat, r),
    {
        let s = r;
        r = A::plus(s, xs[i]);
        proof {
            lemma_running_sum_push::<A>(z, xs@, i as nat, s, r);
        }
    }
    assert(empty_sum_is::<A>(z));
    r
}

/// The maximum of a slice, from negative infinity.
pub(crate) fn greatest<A: Arith>(xs: &[A::Num]) -> (r: A::Num)
    ensures
        greatest_is::<A>(xs@, r),
{
    let z = A::neg_infinity();
    let mut r = z;
    for i in 0..xs.len()
        invariant
            running_max_is::<A>(z, xs@, i as nat, r),
    {
        let s = r;
        r = A::max(s, xs[i]);
        proof {
            lemma_running_max_push::<A>(z, xs@, i as nat, s, r);
        }
    }
    assert(neg_infinity_is::<A>(z));
    r
}

/// The sum of the products of the pairs of two slices, in ascending order.
pub(crate) fn inner<A: Arith>(x: &[A::Num], w: &[A::Num]) -> (r: A::Num)
    requires
        x@.len() == w@.len(),
    ensures
        inner_is::<A>(x@, w@, r),
{
    let z = A::empty_sum();
    let mut r = z;
    for i in 0..x.len()
        invariant
            x@.len() == w@.len(),
            mac_is::<A>(z, x@, w@, i as nat, r),
    {
        let s = r;
        r = mul_add::<A>(s, x[i], w[i]);
        proof {
            lemma_mac_push::<A>(z, x@, w@, i as nat, s, r);
        }
    }
    assert(empty_sum_is::<A>(z));
    r
}

/// Where every operation has one outcome, so has a sum of products.
pub proof fn lemma_inner_unique<A: Arith>(
    x: Seq<A::Num>,
    w: Seq<A::Num>,
    r1: A::Num,
    r2: A::Num,
)
    requires
        single_valued::<A>(),
        inner_is::<A>(x, w, r1),
        inner_is::<A>(x, w, r2),
    ensures
        r1 == r2,
{
    let z1 = choose|z: A::Num|
        #[trigger] empty_sum_is::<A>(z) && mac_is::<A>(z, x, w, x.len(), r1);
    let z2 = choose|z: A::Num|
        #[trigger] empty_sum_is::<A>(z) && mac_is::<A>(z, x, w, x.len(), r2);
    assert(z1 == z2);
    lemma_mac_unique::<A>(z1, x, w, x.len(), r1, r2);
}

/// Where addition has one outcome, so has a sum.
pub proof fn lemma_running_sum_unique<A: Arith>(
    init: A::Num,
    xs: Seq<A::Num>,
    n: nat,
    r1: A::Num,
    r2: A::Num,
)
    requires
        deterministic::<A>(),
        running_sum_is::<A>(init, xs, n, r1),
        running_sum_is::<A>(init, xs, n, r2),
    ensures
        r1 == r2,
    decreases n,
{
    if n > 0 {
        let m = (n - 1) as nat;
        let s1 = choose|s: A::Num|
            running_sum_is::<A>(init, xs, m, s) && #[trigger] sum_is::<A>(s, xs[n - 1], r1);
        let s2 = choose|s: A::Num|
            running_sum_is::<A>(init, xs, m, s) && #[trigger] sum_is::<A>(s, xs[n - 1], r2);
        lemma_running_sum_unique::<A>(init, xs, m, s1, s2);
        assert(sum_is::<A>(s1, xs[n - 1], r1) && sum_is::<A>(s1, xs[n - 1], r2));
    }
}

/// Where the maximum has one outcome, so has a running maximum.
pub proof fn lemma_running_max_unique<A: Arith>(
    init: A::Num,
    xs: Seq<A::Num>,
    n: nat,
    r1: A::Num,
    r2: A::Num,
)
    requires
        single_valued::<A>(),
        running_max_is::<A>(init, xs, n, r1),
        running_max_is::<A>(init, xs, n, r2),
    ensures
        r1 == r2,
    decreases n,
{
    if n > 0 {
        let m = (n - 1) as nat;
        let s1 = choose|s: A::Num|
            running_max_is::<A>(init, xs, m, s) && #[trigger] max_is::<A>(s, xs[n - 1], r1);
        let s2 = choose|s: A::Num|
            running_max_is::<A>(init, xs, m, s) && #[trigger] max_is::<A>(s, xs[n - 1], r2);
        lemma_running_max_unique::<A>(init, xs, m, s1, s2);
        assert(max_is::<A>(s1, xs[n - 1], r1) && max_is::<A>(s1, xs[n - 1], r2));
    }
}

} // verus!
