//! Matrix multiplication kernels, row-major.

use vstd::prelude::*;

use crate::arith::Arith;
use crate::arith::deterministic;
use crate::arith::dot_is;
use crate::arith::int_is;
use crate::arith::mac_is;
use crate::arith::mul_add;
use crate::arith::mul_add_is;

verus! {

/// Row `i` of a row-major matrix with `k` columns.
pub open spec fn row<T>(a: Seq<T>, k: nat, i: int) -> Seq<T> {
    Seq::new(k, |kk: int| a[i * k + kk])
}

/// Column `j` of a row-major matrix with `k` rows and `n` columns.
pub open spec fn column<T>(b: Seq<T>, k: nat, n: nat, j: int) -> Seq<T> {
    Seq::new(k, |kk: int| b[kk * n + j])
}

/// `c` is an outcome of the matrix product of `a` (`m` by `k`) and `b` (`k` by
/// `n`): each element is the dot product of a row of `a` and a column of `b`,
/// accumulated from zero in ascending order.
pub open spec fn matmul_is<A: Arith>(
    a: Seq<A::Num>,
    b: Seq<A::Num>,
    c: Seq<A::Num>,
    m: nat,
    n: nat,
    k: nat,
) -> bool {
    &&& c.len() == m * n
    &&& forall|i: int, j: int|
        #![trigger c[i * n + j]]
        0 <= i < m && 0 <= j < n ==> dot_is::<A>(row(a, k, i), column(b, k, n, j), c[i * n + j])
}

/// An index into a row-major matrix is within it.
pub proof fn lemma_index_in_matrix(i: int, j: int, rows: int, cols: int)
    requires
        0 <= i < rows,
        0 <= j < cols,
    ensures
        0 <= i * cols + j < rows * cols,
        0 <= i * cols,
        i * cols + cols <= rows * cols,
{
    assert(0 <= i * cols && i * cols + cols <= rows * cols) by (nonlinear_arith)
        requires
            0 <= i < rows,
            0 <= cols,
    ;
}

/// A row of a row-major matrix is within it.
pub proof fn lemma_row_in_matrix(i: int, rows: int, cols: int)
    requires
        0 <= i < rows,
        0 <= cols,
    ensures
        0 <= i * cols,
        i * cols + cols <= rows * cols,
{
    assert(0 <= i * cols && i * cols + cols <= rows * cols) by (nonlinear_arith)
        requires
            0 <= i < rows,
            0 <= cols,
    ;
}

/// Two positions of a row-major matrix have one index only if they are the same.
pub proof fn lemma_index_injective(i1: int, j1: int, i2: int, j2: int, cols: int)
    requires
        0 <= j1 < cols,
        0 <= j2 < cols,
        i1 * cols + j1 == i2 * cols + j2,
    ensures
        i1 == i2,
        j1 == j2,
{
    assert(i1 == i2) by (nonlinear_arith)
        requires
            0 <= j1 < cols,
            0 <= j2 < cols,
            i1 * cols + j1 == i2 * cols + j2,
    ;
}

/// `c = a * b`: the textbook triple loop in `i, j, k` order.
pub fn matmul_naive<A: Arith>(
    a: &[A::Num],
    b: &[A::Num],
    c: &mut [A::Num],
    m: usize,
    n: usize,
    k: usize,
)
    requires
        a.len() == m * k,
        b.len() == k * n,
        old(c).len() == m * n,
    ensures
        matmul_is::<A>(a@, b@, final(c)@, m as nat, n as nat, k as nat),
{
    for i in 0..m
        invariant
            a.len() == m * k,
            b.len() == k * n,
            c.len() == m * n,
            forall|p: int, q: int|
                #![trigger c@[p * n + q]]
                0 <= p < i && 0 <= q < n ==> dot_is::<A>(
                    row(a@, k as nat, p),
                    column(b@, k as nat, n as nat, q),
                    c@[p * n + q],
                ),
    {
        for j in 0..n
            invariant
                i < m,
                a.len() == m * k,
                b.len() == k * n,
                c.len() == m * n,
                forall|p: int, q: int|
                    #![trigger c@[p * n + q]]
                    (0 <= p < i && 0 <= q < n) || (p == i && 0 <= q < j) ==> dot_is::<A>(
                        row(a@, k as nat, p),
                        column(b@, k as nat, n as nat, q),
                        c@[p * n + q],
                    ),
        {
            let ghost x = row(a@, k as nat, i as int);
            let ghost w = column(b@, k as nat, n as nat, j as int);
            let zero = A::from_i8(0);
            let mut acc = zero;
            for kk in 0..k
                invariant
                    i < m,
                    j < n,
                    a.len() == m * k,
                    b.len() == k * n,
                    x == row(a@, k as nat, i as int),
                    w == column(b@, k as nat, n as nat, j as int),
                    mac_is::<A>(zero, x, w, kk as nat, acc),
            {
                proof {
                    lemma_index_in_matrix(i as int, kk as int, m as int, k as int);
                    lemma_index_in_matrix(kk as int, j as int, k as int, n as int);
                }
                let ghost prev = acc;
                acc = mul_add::<A>(acc, a[i * k + kk], b[kk * n + j]);
                proof {
                    crate::arith::lemma_mac_push::<A>(zero, x, w, kk as nat, prev, acc);
                }
            }
            proof {
                lemma_index_in_matrix(i as int, j as int, m as int, n as int);
                assert(int_is::<A>(0, zero));
                assert(dot_is::<A>(x, w, acc));
            }
            let ghost before = c@;
            c[i * n + j] = acc;
            proof {
                assert forall|p: int, q: int|
                    #![trigger c@[p * n + q]]
                    (0 <= p < i && 0 <= q < n) || (p == i && 0 <= q < j + 1) implies dot_is::<A>(
                    row(a@, k as nat, p),
                    column(b@, k as nat, n as nat, q),
                    c@[p * n + q],
                ) by {
                    if p != i || q != j {
                        if p * n + q == i * n + j {
                            lemma_index_injective(p, q, i as int, j as int, n as int);
                        }
                        lemma_index_in_matrix(p, q, m as int, n as int);
                        assert(c@[p * n + q] == before[p * n + q]);
                    }
                }
            }
        }
    }
}

/// Every element of `c` is an outcome of its dot product so far: `count(i, j)`
/// pairs have been accumulated into element `(i, j)`, from `zero`.
pub open spec fn progress_is<A: Arith>(
    zero: A::Num,
    a: Seq<A::Num>,
    b: Seq<A::Num>,
    c: Seq<A::Num>,
    m: nat,
    n: nat,
    k: nat,
    count: spec_fn(int, int) -> nat,
) -> bool {
    &&& c.len() == m * n
    &&& forall|i: int, j: int|
        #![trigger c[i * n + j]]
        0 <= i < m && 0 <= j < n ==> mac_is::<A>(
            zero,
            row(a, k, i),
            column(b, k, n, j),
            count(i, j),
            c[i * n + j],
        )
}

/// `after` is `before` but for the `len` elements from `off`, each of which has
/// been increased by `x` times the element of `b` at the same distance from
/// `b_off`.
pub open spec fn row_accumulated<A: Arith>(
    before: Seq<A::Num>,
    after: Seq<A::Num>,
    off: int,
    x: A::Num,
    b: Seq<A::Num>,
    b_off: int,
    len: int,
) -> bool {
    &&& after.len() == before.len()
    &&& forall|p: int|
        0 <= p < before.len() ==> if off <= p < off + len {
            mul_add_is::<A>(before[p], x, b[b_off + (p - off)], #[trigger] after[p])
        } else {
            after[p] == before[p]
        }
}

/// Adds `x` times a run of `b` to a run of `c`: the innermost loop of the
/// row-wise kernels.
fn accumulate_row<A: Arith>(
    c: &mut [A::Num],
    off: usize,
    x: A::Num,
    b: &[A::Num],
    b_off: usize,
    len: usize,
)
    requires
        off + len <= old(c).len(),
        b_off + len <= b.len(),
    ensures
        row_accumulated::<A>(
            old(c)@,
            final(c)@,
            off as int,
            x,
            b@,
            b_off as int,
            len as int,
        ),
{
    let ghost before = c@;
    for j in 0..len
        invariant
            off + len <= c.len(),
            b_off + len <= b.len(),
            c.len() == before.len(),
            row_accumulated::<A>(before, c@, off as int, x, b@, b_off as int, j as int),
    {
        c[off + j] = mul_add::<A>(c[off + j], x, b[b_off + j]);
    }
}

/// Writes `v` to every element.
pub(crate) fn fill<T: Copy>(c: &mut [T], v: T)
    ensures
        final(c)@.len() == old(c)@.len(),
        forall|p: int| 0 <= p < final(c)@.len() ==> #[trigger] final(c)@[p] == v,
{
    let len = c.len();
    for p in 0..len
        invariant
            c@.len() == len,
            forall|q: int| 0 <= q < p ==> #[trigger] c@[q] == v,
    {
        c[p] = v;
    }
}

/// Accumulating one element of a row of `a` into a run of that row of `c` moves
/// exactly those dot products on by one pair.
proof fn lemma_row_step<A: Arith>(
    zero: A::Num,
    a: Seq<A::Num>,
    b: Seq<A::Num>,
    before: Seq<A::Num>,
    after: Seq<A::Num>,
    m: nat,
    n: nat,
    k: nat,
    count: spec_fn(int, int) -> nat,
    next: spec_fn(int, int) -> nat,
    i: int,
    jc: int,
    len: int,
    kk: int,
)
    requires
        progress_is::<A>(zero, a, b, before, m, n, k, count),
        0 <= i < m,
        0 <= jc,
        0 <= len,
        jc + len <= n,
        0 <= kk < k,
        row_accumulated::<A>(before, after, i * n + jc, a[i * k + kk], b, kk * n + jc, len),
        forall|q: int| jc <= q < jc + len ==> #[trigger] count(i, q) == kk,
        forall|p: int, q: int|
            0 <= p < m && 0 <= q < n ==> #[trigger] next(p, q) == if p == i && jc <= q < jc + len {
                (kk + 1) as nat
            } else {
                count(p, q)
            },
    ensures
        progress_is::<A>(zero, a, b, after, m, n, k, next),
{
    assert forall|p: int, q: int|
        #![trigger after[p * n + q]]
        0 <= p < m && 0 <= q < n implies mac_is::<A>(
        zero,
        row(a, k, p),
        column(b, k, n, q),
        next(p, q),
        after[p * n + q],
    ) by {
        lemma_index_in_matrix(p, q, m as int, n as int);
        let old_value = before[p * n + q];
        assert(mac_is::<A>(zero, row(a, k, p), column(b, k, n, q), count(p, q), old_value));
        if p == i && jc <= q < jc + len {
            assert(count(i, q) == kk);
            assert(b[kk * n + jc + (q - jc)] == column(b, k, n, q)[kk]);
            assert(row(a, k, p)[kk] == a[i * k + kk]);
            assert((kk * n + jc) + ((p * n + q) - (i * n + jc)) == kk * n + q);
            crate::arith::lemma_mac_push::<A>(
                zero,
                row(a, k, p),
                column(b, k, n, q),
                kk as nat,
                old_value,
                after[p * n + q],
            );
        } else {
            if i * n + jc <= p * n + q < i * n + jc + len {
                let q2 = p * n + q - i * n;
                lemma_index_injective(p, q, i, q2, n as int);
            }
        }
    }
}

/// When every dot product is complete, the matrix product is.
proof fn lemma_progress_complete<A: Arith>(
    zero: A::Num,
    a: Seq<A::Num>,
    b: Seq<A::Num>,
    c: Seq<A::Num>,
    m: nat,
    n: nat,
    k: nat,
    count: spec_fn(int, int) -> nat,
)
    requires
        int_is::<A>(0, zero),
        progress_is::<A>(zero, a, b, c, m, n, k, count),
        forall|p: int, q: int| 0 <= p < m && 0 <= q < n ==> #[trigger] count(p, q) == k,
    ensures
        matmul_is::<A>(a, b, c, m, n, k),
{
    assert forall|i: int, j: int|
        #![trigger c[i * n + j]]
        0 <= i < m && 0 <= j < n implies dot_is::<A>(
        row(a, k, i),
        column(b, k, n, j),
        c[i * n + j],
    ) by {
        assert(count(i, j) == k);
        assert(mac_is::<A>(zero, row(a, k, i), column(b, k, n, j), k, c[i * n + j]));
        assert(int_is::<A>(0, zero));
    }
}

/// `c = a * b` in `i, k, j` order: the innermost loop runs along a row of `b`
/// and a row of `c`. `c` is overwritten, whatever it held.
pub fn matmul_ikj<A: Arith>(
    a: &[A::Num],
    b: &[A::Num],
    c: &mut [A::Num],
    m: usize,
    n: usize,
    k: usize,
)
    requires
        a.len() == m * k,
        b.len() == k * n,
        old(c).len() == m * n,
    ensures
        matmul_is::<A>(a@, b@, final(c)@, m as nat, n as nat, k as nat),
{
    let zero = A::from_i8(0);
    fill(c, zero);
    proof {
        assert forall|p: int, q: int| 0 <= p < m && 0 <= q < n implies #[trigger] c@[p * n + q]
            == zero by {
            lemma_index_in_matrix(p, q, m as int, n as int);
        }
    }
    for i in 0..m
        invariant
            a.len() == m * k,
            b.len() == k * n,
            c.len() == m * n,
            progress_is::<A>(
                zero,
                a@,
                b@,
                c@,
                m as nat,
                n as nat,
                k as nat,
                |p: int, q: int| if p < i { k as nat } else { 0 },
            ),
    {
        for kk in 0..k
            invariant
                i < m,
                a.len() == m * k,
                b.len() == k * n,
                c.len() == m * n,
                progress_is::<A>(
                    zero,
                    a@,
                    b@,
                    c@,
                    m as nat,
                    n as nat,
                    k as nat,
                    |p: int, q: int| if p < i { k as nat } else if p == i { kk as nat } else { 0 },
                ),
        {
            proof {
                lemma_index_in_matrix(i as int, kk as int, m as int, k as int);
                lemma_row_in_matrix(kk as int, k as int, n as int);
                lemma_row_in_matrix(i as int, m as int, n as int);
            }
            let ghost before = c@;
            accumulate_row::<A>(c, i * n, a[i * k + kk], b, kk * n, n);
            proof {
                let count = |p: int, q: int|
                    if p < i { k as nat } else if p == i { kk as nat } else { 0 };
                let next = |p: int, q: int|
                    if p < i { k as nat } else if p == i { (kk + 1) as nat } else { 0 };
                lemma_row_step::<A>(
                    zero,
                    a@,
                    b@,
                    before,
                    c@,
                    m as nat,
                    n as nat,
                    k as nat,
                    count,
                    next,
                    i as int,
                    0,
                    n as int,
                    kk as int,
                );
            }
        }
    }
    proof {
        lemma_progress_complete::<A>(
            zero,
            a@,
            b@,
            c@,
            m as nat,
            n as nat,
            k as nat,
            |p: int, q: int| if p < m { k as nat } else { 0 },
        );
    }
}

/// Edge of the square blocks of [`matmul_blocked`].
pub const BLOCK: usize = 64;

/// How many pairs [`matmul_blocked`] has accumulated into element `(p, q)` once
/// the row blocks before `ic` are complete, and in the row block `ic..ic + mc`
/// the column blocks before `jc`, and in the block `jc..jc + nc` the pairs
/// before `kc`, and of the next `kl` pairs all for the first `i` rows and
/// `kk` for row `i`.
spec fn blocked_count(
    p: int,
    q: int,
    k: int,
    ic: int,
    mc: int,
    jc: int,
    nc: int,
    kc: int,
    kl: int,
    i: int,
    kk: int,
) -> nat {
    (if p < ic || (p < ic + mc && q < jc) {
        k
    } else if p < ic + mc && q < jc + nc {
        if p < ic + i {
            kc + kl
        } else if p == ic + i {
            kc + kk
        } else {
            kc
        }
    } else {
        0
    }) as nat
}

/// `c = a * b` in square blocks of edge [`BLOCK`], smaller at the far edges. `c`
/// is overwritten, whatever it held.
pub fn matmul_blocked<A: Arith>(
    a: &[A::Num],
    b: &[A::Num],
    c: &mut [A::Num],
    m: usize,
    n: usize,
    k: usize,
)
    requires
        a.len() == m * k,
        b.len() == k * n,
        old(c).len() == m * n,
    ensures
        matmul_is::<A>(a@, b@, final(c)@, m as nat, n as nat, k as nat),
{
    let zero = A::from_i8(0);
    fill(c, zero);
    let ghost (gm, gn, gk) = (m as nat, n as nat, k as nat);
    proof {
        assert forall|p: int, q: int| 0 <= p < m && 0 <= q < n implies #[trigger] c@[p * n + q]
            == zero by {
            lemma_index_in_matrix(p, q, m as int, n as int);
        }
    }
    let mut ic: usize = 0;
    while ic < m
        invariant
            ic <= m,
            a.len() == m * k,
            b.len() == k * n,
            c.len() == m * n,
            gm == m && gn == n && gk == k,
            progress_is::<A>(
                zero,
                a@,
                b@,
                c@,
                gm,
                gn,
                gk,
                |p: int, q: int| blocked_count(p, q, k as int, ic as int, 0, 0, 0, 0, 0, 0, 0),
            ),
        decreases m - ic,
    {
        let mc: usize = if m - ic < BLOCK { m - ic } else { BLOCK };
        let mut jc: usize = 0;
        while jc < n
            invariant
                0 < mc,
                ic + mc <= m,
                jc <= n,
                a.len() == m * k,
                b.len() == k * n,
                c.len() == m * n,
                gm == m && gn == n && gk == k,
                progress_is::<A>(
                    zero,
                    a@,
                    b@,
                    c@,
                    gm,
                    gn,
                    gk,
                    |p: int, q: int|
                        blocked_count(
                            p, q, k as int, ic as int, mc as int, jc as int, 0, 0, 0, 0, 0),
                ),
            decreases n - jc,
        {
            let nc: usize = if n - jc < BLOCK { n - jc } else { BLOCK };
            let mut kc: usize = 0;
            while kc < k
                invariant
                    0 < mc,
                    ic + mc <= m,
                    0 < nc,
                    jc + nc <= n,
                    kc <= k,
                    a.len() == m * k,
                    b.len() == k * n,
                    c.len() == m * n,
                    gm == m && gn == n && gk == k,
                    progress_is::<A>(
                        zero,
                        a@,
                        b@,
                        c@,
                        gm,
                        gn,
                        gk,
                        |p: int, q: int|
                            blocked_count(
                                p, q, k as int, ic as int, mc as int, jc as int, nc as int,
                                kc as int, 0, 0, 0),
                    ),
                decreases k - kc,
            {
                let kl: usize = if k - kc < BLOCK { k - kc } else { BLOCK };
                for i in 0..mc
                    invariant
                        ic + mc <= m,
                        jc + nc <= n,
                        0 < kl,
                        kc + kl <= k,
                        a.len() == m * k,
                        b.len() == k * n,
                        c.len() == m * n,
                        gm == m && gn == n && gk == k,
                        progress_is::<A>(
                            zero,
                            a@,
                            b@,
                            c@,
                            gm,
                            gn,
                            gk,
                            |p: int, q: int|
                                blocked_count(
                                    p, q, k as int, ic as int, mc as int, jc as int, nc as int,
                                    kc as int, kl as int, i as int, 0),
                        ),
                {
                    for kk in 0..kl
                        invariant
                            i < mc,
                            ic + mc <= m,
                            jc + nc <= n,
                            kc + kl <= k,
                            a.len() == m * k,
                            b.len() == k * n,
                            c.len() == m * n,
                            gm == m && gn == n && gk == k,
                            progress_is::<A>(
                                zero,
                                a@,
                                b@,
                                c@,
                                gm,
                                gn,
                                gk,
                                |p: int, q: int|
                                    blocked_count(
                                        p, q, k as int, ic as int, mc as int, jc as int,
                                        nc as int, kc as int, kl as int, i as int, kk as int),
                            ),
                    {
                        proof {
                            lemma_index_in_matrix(ic + i, kc + kk, m as int, k as int);
                            lemma_row_in_matrix(kc + kk, k as int, n as int);
                            lemma_row_in_matrix(ic + i, m as int, n as int);
                        }
                        let ghost before = c@;
                        accumulate_row::<A>(
                            c,
                            (ic + i) * n + jc,
                            a[(ic + i) * k + (kc + kk)],
                            b,
                            (kc + kk) * n + jc,
                            nc,
                        );
                        proof {
                            let count = |p: int, q: int|
                                blocked_count(
                                    p, q, k as int, ic as int, mc as int, jc as int, nc as int,
                                    kc as int, kl as int, i as int, kk as int);
                            let next = |p: int, q: int|
                                blocked_count(
                                    p, q, k as int, ic as int, mc as int, jc as int, nc as int,
                                    kc as int, kl as int, i as int, kk + 1);
                            lemma_row_step::<A>(
                                zero,
                                a@,
                                b@,
                                before,
                                c@,
                                gm,
                                gn,
                                gk,
                                count,
                                next,
                                ic + i,
                                jc as int,
                                nc as int,
                                kc + kk,
                            );
                        }
                    }
                }
                kc = kc + kl;
            }
            jc = jc + nc;
        }
        ic = ic + mc;
    }
    proof {
        lemma_progress_complete::<A>(
            zero,
            a@,
            b@,
            c@,
            gm,
            gn,
            gk,
            |p: int, q: int| blocked_count(p, q, k as int, ic as int, 0, 0, 0, 0, 0, 0, 0),
        );
    }
}

/// The three kernels compute the same product: where the arithmetic is
/// deterministic, any two outcomes of a matrix product are equal, element for
/// element and not only up to rounding, since every kernel accumulates each dot
/// product in the same order.
pub proof fn law_kernels_agree<A: Arith>(
    a: Seq<A::Num>,
    b: Seq<A::Num>,
    c1: Seq<A::Num>,
    c2: Seq<A::Num>,
    m: nat,
    n: nat,
    k: nat,
)
    requires
        deterministic::<A>(),
        matmul_is::<A>(a, b, c1, m, n, k),
        matmul_is::<A>(a, b, c2, m, n, k),
    ensures
        c1 == c2,
{
    assert forall|x: int| 0 <= x < m * n implies c1[x] == c2[x] by {
        let i = x / (n as int);
        let j = x % (n as int);
        assert(n > 0 && 0 <= i < m && 0 <= j < n && i * n + j == x) by (nonlinear_arith)
            requires
                0 <= x < m * n,
                i == x / (n as int),
                j == x % (n as int),
        ;
        assert(dot_is::<A>(row(a, k, i), column(b, k, n, j), c1[i * n + j]));
        assert(dot_is::<A>(row(a, k, i), column(b, k, n, j), c2[i * n + j]));
        crate::arith::lemma_dot_unique::<A>(
            row(a, k, i),
            column(b, k, n, j),
            c1[i * n + j],
            c2[i * n + j],
        );
    }
    assert(c1 =~= c2);
}

} // verus!
