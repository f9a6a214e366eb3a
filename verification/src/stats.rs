//! Statistics over vectors of numbers.

use vstd::prelude::*;

use crate::arith::{
    abs_is, count_is, difference_is, exceeds_is, greatest, greatest_is, infinity_is, inner,
    inner_is, int_is, least_is, lemma_mac_push, mac_is, max_is, min_is, mul_add, neg_infinity_is,
    quotient_is, running_min_is, sqrt_is, total, total_is, Arith,
};

verus! {

/// Index `i`, with the number `v`, leads after the first `n` numbers: the first
/// of those that no later one exceeded, starting from index 0 with `start`.
pub open spec fn leads<A: Arith>(
    xs: Seq<A::Num>,
    start: A::Num,
    n: nat,
    i: int,
    v: A::Num,
) -> bool
    decreases n,
{
    if n == 0 {
        i == 0 && v == start
    } else {
        exists|j: int, u: A::Num, beaten: bool|
            {
                &&& leads::<A>(xs, start, (n - 1) as nat, j, u)
                &&& #[trigger] exceeds_is::<A>(xs[n - 1], u, beaten)
                &&& #[trigger] leader_is::<A>(xs, n - 1, j, u, beaten, i, v)
            }
    }
}

/// The leader after comparing number `k` with the leader before it.
pub open spec fn leader_is<A: Arith>(
    xs: Seq<A::Num>,
    k: int,
    j: int,
    u: A::Num,
    beaten: bool,
    i: int,
    v: A::Num,
) -> bool {
    if beaten {
        i == k && v == xs[k]
    } else {
        i == j && v == u
    }
}

/// `i` is an outcome of the index of the greatest number: the first one, where
/// several are equal; 0 where there is none.
pub open spec fn argmax_is<A: Arith>(xs: Seq<A::Num>, i: int) -> bool {
    exists|start: A::Num, v: A::Num|
        {
            &&& neg_infinity_is::<A>(start)
            &&& #[trigger] leads::<A>(xs, start, xs.len(), i, v)
        }
}

/// The index of the greatest number.
pub fn argmax<A: Arith>(logits: &[A::Num]) -> (i: usize)
    ensures
        argmax_is::<A>(logits@, i as int),
        logits@.len() > 0 ==> i < logits@.len(),
        logits@.len() == 0 ==> i == 0,
{
    let start = A::neg_infinity();
    let mut best: usize = 0;
    let mut best_value = start;
    for i in 0..logits.len()
        invariant
            leads::<A>(logits@, start, i as nat, best as int, best_value),
            best == 0 || best < i,
    {
        let v = logits[i];
        let ghost (j, u) = (best as int, best_value);
        let beaten = A::exceeds(v, best_value);
        if beaten {
            best = i;
            best_value = v;
        }
        proof {
            assert(exceeds_is::<A>(logits@[(i + 1) - 1], u, beaten));
            assert(leader_is::<A>(logits@, (i + 1) - 1, j, u, beaten, best as int, best_value));
            assert(leads::<A>(logits@, start, ((i + 1) - 1) as nat, j, u));
        }
    }
    assert(neg_infinity_is::<A>(start));
    best
}

/// `r` is an outcome of the Euclidean norm of `x`.
pub open spec fn l2_is<A: Arith>(x: Seq<A::Num>, r: A::Num) -> bool {
    exists|s: A::Num| inner_is::<A>(x, x, s) && #[trigger] sqrt_is::<A>(s, r)
}

/// The Euclidean norm.
pub fn l2<A: Arith>(x: &[A::Num]) -> (r: A::Num)
    ensures
        l2_is::<A>(x@, r),
{
    let s = inner::<A>(x, x);
    let r = A::sqrt(s);
    assert(sqrt_is::<A>(s, r));
    r
}

/// `r` is an outcome of `|a - b|`.
pub open spec fn distance_is<A: Arith>(a: A::Num, b: A::Num, r: A::Num) -> bool {
    exists|d: A::Num| #[trigger] difference_is::<A>(a, b, d) && abs_is::<A>(d, r)
}

/// `d` holds an outcome of the distance between each two elements of `a` and `b`.
pub open spec fn distances_are<A: Arith>(a: Seq<A::Num>, b: Seq<A::Num>, d: Seq<A::Num>) -> bool {
    &&& d.len() == a.len()
    &&& forall|i: int| 0 <= i < a.len() ==> distance_is::<A>(a[i], b[i], #[trigger] d[i])
}

/// `r` is an outcome of the greatest of the first `n` numbers, and `start`: each
/// one that exceeds the greatest so far replaces it.
pub open spec fn peak_is<A: Arith>(xs: Seq<A::Num>, start: A::Num, n: nat, r: A::Num) -> bool
    decreases n,
{
    if n == 0 {
        r == start
    } else {
        exists|s: A::Num, higher: bool|
            {
                &&& peak_is::<A>(xs, start, (n - 1) as nat, s)
                &&& #[trigger] exceeds_is::<A>(xs[n - 1], s, higher)
                &&& r == (if higher {
                    xs[n - 1]
                } else {
                    s
                })
            }
    }
}

/// `(max, rms)` is an outcome of comparing two vectors with the distances `d`
/// between their elements: the greatest distance, and the root of the mean
/// square.
pub open spec fn differences_are<A: Arith>(d: Seq<A::Num>, max: A::Num, rms: A::Num) -> bool {
    exists|zero: A::Num, sum: A::Num, n: A::Num, mean: A::Num|
        {
            &&& int_is::<A>(0, zero)
            &&& peak_is::<A>(d, zero, d.len(), max)
            &&& #[trigger] mac_is::<A>(zero, d, d, d.len(), sum)
            &&& count_is::<A>(d.len() as u64, n)
            &&& #[trigger] quotient_is::<A>(sum, n, mean)
            &&& sqrt_is::<A>(mean, rms)
        }
}

/// The greatest distance between the elements of two vectors, and the root of
/// their mean square distance.
pub fn diff_stats<A: Arith>(a: &[A::Num], b: &[A::Num]) -> (r: (A::Num, A::Num))
    requires
        a@.len() == b@.len(),
    ensures
        exists|d: Seq<A::Num>|
            #[trigger] distances_are::<A>(a@, b@, d) && differences_are::<A>(d, r.0, r.1),
{
    let zero = A::from_i8(0);
    let mut distances: Vec<A::Num> = Vec::new();
    for i in 0..a.len()
        invariant
            a@.len() == b@.len(),
            distances@.len() == i,
            forall|k: int|
                0 <= k < i ==> distance_is::<A>(a@[k], b@[k], #[trigger] distances@[k]),
    {
        let diff = A::minus(a[i], b[i]);
        let d = A::abs(diff);
        distances.push(d);
        assert(difference_is::<A>(a@[i as int], b@[i as int], diff));
    }
    let mut max_abs = zero;
    let mut sum_sq = zero;
    for i in 0..distances.len()
        invariant
            peak_is::<A>(distances@, zero, i as nat, max_abs),
            mac_is::<A>(zero, distances@, distances@, i as nat, sum_sq),
    {
        let d = distances[i];
        let ghost (m, s) = (max_abs, sum_sq);
        let higher = A::exceeds(d, max_abs);
        if higher {
            max_abs = d;
        }
        sum_sq = mul_add::<A>(sum_sq, d, d);
        proof {
            assert(exceeds_is::<A>(distances@[(i + 1) - 1], m, higher));
            assert(peak_is::<A>(distances@, zero, ((i + 1) - 1) as nat, m));
            lemma_mac_push::<A>(zero, distances@, distances@, i as nat, s, sum_sq);
        }
    }
    let n = A::from_u64(a.len() as u64);
    let mean = A::divide(sum_sq, n);
    let rms = A::sqrt(mean);
    proof {
        assert(int_is::<A>(0, zero) && count_is::<A>(distances@.len() as u64, n));
        assert(quotient_is::<A>(sum_sq, n, mean));
        assert(distances_are::<A>(a@, b@, distances@));
        assert(differences_are::<A>(distances@, max_abs, rms));
    }
    (max_abs, rms)
}

/// What is worth knowing of the numbers of a tensor.
pub struct TensorStats<A: Arith> {
    pub min: A::Num,
    pub max: A::Num,
    pub mean: A::Num,
    pub abs_max: A::Num,
}

/// `r` is an outcome of the greatest magnitude of the first `n` numbers, from
/// `start`.
pub open spec fn running_abs_max_is<A: Arith>(
    start: A::Num,
    xs: Seq<A::Num>,
    n: nat,
    r: A::Num,
) -> bool
    decreases n,
{
    if n == 0 {
        r == start
    } else {
        exists|s: A::Num, m: A::Num|
            {
                &&& running_abs_max_is::<A>(start, xs, (n - 1) as nat, s)
                &&& #[trigger] abs_is::<A>(xs[n - 1], m)
                &&& #[trigger] max_is::<A>(s, m, r)
            }
    }
}

/// `r` is an outcome of the greatest magnitude, from zero.
pub open spec fn abs_max_is<A: Arith>(xs: Seq<A::Num>, r: A::Num) -> bool {
    exists|zero: A::Num|
        #[trigger] int_is::<A>(0, zero) && running_abs_max_is::<A>(zero, xs, xs.len(), r)
}

/// `r` is an outcome of the mean.
pub open spec fn mean_is<A: Arith>(xs: Seq<A::Num>, r: A::Num) -> bool {
    exists|sum: A::Num, n: A::Num|
        {
            &&& total_is::<A>(xs, sum)
            &&& count_is::<A>(xs.len() as u64, n)
            &&& #[trigger] quotient_is::<A>(sum, n, r)
        }
}

/// The greatest magnitude.
pub fn abs_max<A: Arith>(xs: &[A::Num]) -> (r: A::Num)
    ensures
        abs_max_is::<A>(xs@, r),
{
    let zero = A::from_i8(0);
    let mut r = zero;
    for i in 0..xs.len()
        invariant
            running_abs_max_is::<A>(zero, xs@, i as nat, r),
    {
        let s = r;
        let m = A::abs(xs[i]);
        r = A::max(s, m);
        proof {
            assert(abs_is::<A>(xs@[(i + 1) - 1], m) && max_is::<A>(s, m, r));
            assert(running_abs_max_is::<A>(zero, xs@, ((i + 1) - 1) as nat, s));
        }
    }
    assert(int_is::<A>(0, zero));
    r
}

/// The least number, from positive infinity.
fn least<A: Arith>(xs: &[A::Num]) -> (r: A::Num)
    ensures
        least_is::<A>(xs@, r),
{
    let start = A::infinity();
    let mut r = start;
    for i in 0..xs.len()
        invariant
            running_min_is::<A>(start, xs@, i as nat, r),
    {
        let s = r;
        r = A::min(s, xs[i]);
        proof {
            assert(running_min_is::<A>(start, xs@, ((i + 1) - 1) as nat, s));
            assert(min_is::<A>(s, xs@[(i + 1) - 1], r));
        }
    }
    assert(infinity_is::<A>(start));
    r
}

impl<A: Arith> TensorStats<A> {
    /// The statistics of some numbers.
    pub fn of(xs: &[A::Num]) -> (stats: Self)
        ensures
            least_is::<A>(xs@, stats.min),
            greatest_is::<A>(xs@, stats.max),
            mean_is::<A>(xs@, stats.mean),
            abs_max_is::<A>(xs@, stats.abs_max),
    {
        let sum = total::<A>(xs);
        let n = A::from_u64(xs.len() as u64);
        let mean = A::divide(sum, n);
        assert(count_is::<A>(xs@.len() as u64, n) && quotient_is::<A>(sum, n, mean));
        TensorStats {
            min: least::<A>(xs),
            max: greatest::<A>(xs),
            mean,
            abs_max: abs_max::<A>(xs),
        }
    }
}

/// `gt` decides what `exceeds` answers, and orders the numbers up to equality;
/// `start` exceeds none of them.
pub open spec fn ordered_by<A: Arith>(
    gt: spec_fn(A::Num, A::Num) -> bool,
    start: A::Num,
) -> bool {
    &&& forall|a: A::Num, b: A::Num, r: bool| #[trigger] exceeds_is::<A>(a, b, r) ==> r == gt(a, b)
    &&& forall|a: A::Num, b: A::Num| #[trigger] gt(a, b) ==> !gt(b, a)
    &&& forall|a: A::Num, b: A::Num, c: A::Num|
        !#[trigger] gt(a, b) && !#[trigger] gt(b, c) ==> !gt(a, c)
    &&& forall|a: A::Num| !#[trigger] gt(start, a)
}

/// Where the comparison is an order, no number exceeds the one that [`argmax`]
/// finds, and it exceeds all before it.
pub proof fn law_argmax_finds_first_greatest<A: Arith>(
    xs: Seq<A::Num>,
    gt: spec_fn(A::Num, A::Num) -> bool,
    i: int,
)
    requires
        xs.len() > 0,
        argmax_is::<A>(xs, i),
        forall|start: A::Num|
            #[trigger] neg_infinity_is::<A>(start) ==> ordered_by::<A>(gt, start),
    ensures
        0 <= i < xs.len(),
        forall|k: int| 0 <= k < xs.len() ==> !gt(#[trigger] xs[k], xs[i]),
        forall|k: int| 0 <= k < i ==> gt(xs[i], #[trigger] xs[k]),
{
    let (start, v) = choose|start: A::Num, v: A::Num|
        {
            &&& neg_infinity_is::<A>(start)
            &&& #[trigger] leads::<A>(xs, start, xs.len(), i, v)
        };
    lemma_leads::<A>(xs, start, gt, xs.len(), i, v);
    if v == start {
        assert forall|k: int| 0 <= k < xs.len() implies !gt(#[trigger] xs[k], xs[i]) by {
            assert(!gt(xs[k], start));
            assert(!gt(start, xs[i]));
        }
    }
}

/// The leader is exceeded by none of the numbers so far, and exceeds all before
/// it, unless none of them exceeds the start.
proof fn lemma_leads<A: Arith>(
    xs: Seq<A::Num>,
    start: A::Num,
    gt: spec_fn(A::Num, A::Num) -> bool,
    n: nat,
    i: int,
    v: A::Num,
)
    requires
        n <= xs.len(),
        ordered_by::<A>(gt, start),
        leads::<A>(xs, start, n, i, v),
    ensures
        i == 0 || 0 <= i < n,
        forall|k: int| 0 <= k < n ==> !gt(#[trigger] xs[k], v),
        v == start && i == 0 || n > 0 && v == xs[i] && forall|k: int|
            0 <= k < i ==> gt(v, #[trigger] xs[k]),
    decreases n,
{
    if n > 0 {
        let (j, u, beaten) = choose|j: int, u: A::Num, beaten: bool|
            {
                &&& leads::<A>(xs, start, (n - 1) as nat, j, u)
                &&& #[trigger] exceeds_is::<A>(xs[n - 1], u, beaten)
                &&& #[trigger] leader_is::<A>(xs, n - 1, j, u, beaten, i, v)
            };
        lemma_leads::<A>(xs, start, gt, (n - 1) as nat, j, u);
        if beaten {
            assert forall|k: int| 0 <= k < n implies !gt(#[trigger] xs[k], v) by {
                if k < n - 1 && gt(xs[k], v) {
                    assert(!gt(v, xs[k]) && !gt(xs[k], u));
                    assert(gt(v, u));
                }
            }
            assert forall|k: int| 0 <= k < i implies gt(v, #[trigger] xs[k]) by {
                assert(!gt(xs[k], u));
                assert(gt(v, u));
            }
        }
    }
}

} // verus!
