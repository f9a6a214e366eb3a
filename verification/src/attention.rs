//! Scaled dot-product attention with a key/value cache and grouped queries.
//!
//! Once the key and the value of a token have been computed they are kept in the
//! cache and looked up from there. Several query heads share one key/value head.

use vstd::prelude::*;

use crate::arith::{
    count_is, inner, inner_is, int_is, lemma_inner_unique, lemma_mac_push, lemma_mac_unique,
    lemma_running_sum_push, lemma_running_sum_same, mac_is, mul_add, product_is, quotient_is,
    reciprocal, reciprocal_is, rsqrt, rsqrt_is, running_sum_is, single_valued, sqrt_is, Arith,
};
use crate::buffer::{copy_range, overwrite, repeated};
use crate::matmul::lemma_row_in_matrix;
use crate::nn::{head, lemma_heads_make_whole, lemma_softmax_unique, softmax_in_place, softmax_is};

verus! {

/// The keys and values of one layer: one row of `kv_dim` elements per token
/// position.
pub struct KvCache<A: Arith> {
    pub k: Vec<A::Num>,
    pub v: Vec<A::Num>,
    pub max_seq_len: usize,
    pub kv_dim: usize,
}

/// The part of row `pos` that belongs to head `h`.
pub open spec fn head_at<T>(rows: Seq<T>, kv_dim: int, pos: int, h: int, head_dim: int) -> Seq<T> {
    rows.subrange(pos * kv_dim + h * head_dim, pos * kv_dim + h * head_dim + head_dim)
}

impl<A: Arith> KvCache<A> {
    /// There is a row for every position.
    pub open spec fn wf(&self) -> bool {
        &&& self.k@.len() == self.max_seq_len * self.kv_dim
        &&& self.v@.len() == self.max_seq_len * self.kv_dim
    }

    /// An empty cache: all zero.
    pub fn new(max_seq_len: usize, kv_dim: usize) -> (cache: Self)
        requires
            max_seq_len * kv_dim <= usize::MAX,
        ensures
            cache.wf(),
            cache.max_seq_len == max_seq_len,
            cache.kv_dim == kv_dim,
            exists|zero: A::Num|
                {
                    &&& #[trigger] int_is::<A>(0, zero)
                    &&& cache.k@ == Seq::new((max_seq_len * kv_dim) as nat, |i: int| zero)
                    &&& cache.v@ == Seq::new((max_seq_len * kv_dim) as nat, |i: int| zero)
                },
    {
        let zero = A::from_i8(0);
        assert(int_is::<A>(0, zero));
        KvCache {
            k: repeated(zero, max_seq_len * kv_dim),
            v: repeated(zero, max_seq_len * kv_dim),
            max_seq_len,
            kv_dim,
        }
    }

    /// Writes the key and the value of the token at `pos`.
    pub fn store(&mut self, pos: usize, k: &[A::Num], v: &[A::Num])
        requires
            old(self).wf(),
            k@.len() == old(self).kv_dim,
            v@.len() == old(self).kv_dim,
            pos < old(self).max_seq_len,
        ensures
            final(self).wf(),
            final(self).max_seq_len == old(self).max_seq_len,
            final(self).kv_dim == old(self).kv_dim,
            final(self).k@ == overwrite(old(self).k@, pos * old(self).kv_dim, k@),
            final(self).v@ == overwrite(old(self).v@, pos * old(self).kv_dim, v@),
    {
        proof {
            lemma_row_in_matrix(pos as int, self.max_seq_len as int, self.kv_dim as int);
            assert(k@.subrange(0, k@.len() as int) =~= k@);
            assert(v@.subrange(0, v@.len() as int) =~= v@);
            assert(self.k.len() == self.max_seq_len * self.kv_dim);
        }
        let off: usize = pos * self.kv_dim;
        copy_range(&mut self.k, off, k, 0, self.kv_dim);
        copy_range(&mut self.v, off, v, 0, self.kv_dim);
    }

    /// The key of head `kv_head` at `pos`.
    pub fn k_at(&self, pos: usize, kv_head: usize, head_dim: usize) -> (r: &[A::Num])
        requires
            pos * self.kv_dim + kv_head * head_dim + head_dim <= self.k@.len(),
        ensures
            r@ == head_at(
                self.k@,
                self.kv_dim as int,
                pos as int,
                kv_head as int,
                head_dim as int,
            ),
    {
        head_slice(&self.k, self.kv_dim, pos, kv_head, head_dim)
    }

    /// The value of head `kv_head` at `pos`.
    pub fn v_at(&self, pos: usize, kv_head: usize, head_dim: usize) -> (r: &[A::Num])
        requires
            pos * self.kv_dim + kv_head * head_dim + head_dim <= self.v@.len(),
        ensures
            r@ == head_at(
                self.v@,
                self.kv_dim as int,
                pos as int,
                kv_head as int,
                head_dim as int,
            ),
    {
        head_slice(&self.v, self.kv_dim, pos, kv_head, head_dim)
    }
}

/// The part of row `pos` that belongs to a head.
fn head_slice<T>(
    rows: &Vec<T>,
    kv_dim: usize,
    pos: usize,
    kv_head: usize,
    head_dim: usize,
) -> (r: &[T])
    requires
        pos * kv_dim + kv_head * head_dim + head_dim <= rows@.len(),
    ensures
        r@ == head_at(rows@, kv_dim as int, pos as int, kv_head as int, head_dim as int),
{
    proof {
        assert(rows.len() <= usize::MAX);
        assert(0 <= pos * kv_dim && 0 <= kv_head * head_dim) by (nonlinear_arith);
    }
    let off: usize = pos * kv_dim + kv_head * head_dim;
    vstd::slice::slice_subrange(rows.as_slice(), off, off + head_dim)
}

/// What is stored for a position is read back head by head, and the other
/// positions read as before.
pub proof fn law_read_after_store<T>(
    rows: Seq<T>,
    kv_dim: int,
    pos: int,
    row: Seq<T>,
    other: int,
    h: int,
    head_dim: int,
)
    requires
        row.len() == kv_dim,
        0 <= pos,
        (pos + 1) * kv_dim <= rows.len(),
        0 <= other,
        (other + 1) * kv_dim <= rows.len(),
        0 <= h,
        0 <= head_dim,
        (h + 1) * head_dim <= kv_dim,
    ensures
        head_at(overwrite(rows, pos * kv_dim, row), kv_dim, pos, h, head_dim) == head(
            row,
            head_dim as nat,
            h,
        ),
        other != pos ==> head_at(overwrite(rows, pos * kv_dim, row), kv_dim, other, h, head_dim)
            == head_at(rows, kv_dim, other, h, head_dim),
{
    let after = overwrite(rows, pos * kv_dim, row);
    assert((h + 1) * head_dim == h * head_dim + head_dim && 0 <= h * head_dim) by (nonlinear_arith)
        requires
            0 <= h,
            0 <= head_dim,
    ;
    assert((pos + 1) * kv_dim == pos * kv_dim + kv_dim && 0 <= pos * kv_dim) by (nonlinear_arith)
        requires
            0 <= pos,
            0 <= kv_dim,
    ;
    assert((other + 1) * kv_dim == other * kv_dim + kv_dim && 0 <= other * kv_dim)
        by (nonlinear_arith)
        requires
            0 <= other,
            0 <= kv_dim,
    ;
    assert(head_at(after, kv_dim, pos, h, head_dim) =~= head(row, head_dim as nat, h));
    if other != pos {
        assert(other * kv_dim + kv_dim <= pos * kv_dim || pos * kv_dim + kv_dim <= other * kv_dim)
            by (nonlinear_arith)
            requires
                0 <= other,
                0 <= pos,
                0 <= kv_dim,
                other != pos,
        ;
        assert(head_at(after, kv_dim, other, h, head_dim) =~= head_at(
            rows,
            kv_dim,
            other,
            h,
            head_dim,
        ));
    }
}

/// `score` is an outcome of the dot product of `q` and `k`, times `inv_sqrt_d`.
pub open spec fn score_is<A: Arith>(
    q: Seq<A::Num>,
    k: Seq<A::Num>,
    inv_sqrt_d: A::Num,
    score: A::Num,
) -> bool {
    exists|dot: A::Num|
        inner_is::<A>(q, k, dot) && #[trigger] product_is::<A>(dot, inv_sqrt_d, score)
}

/// `weights` is an outcome of the attention of the query head `q` on the
/// positions `0..n` of key/value head `kv_h`: the softmax of the scores.
pub open spec fn weights_are<A: Arith>(
    q: Seq<A::Num>,
    k: Seq<A::Num>,
    kv_dim: int,
    kv_h: int,
    n: nat,
    inv_sqrt_d: A::Num,
    weights: Seq<A::Num>,
) -> bool {
    exists|scores: Seq<A::Num>|
        {
            &&& scores.len() == n
            &&& forall|p: int|
                0 <= p < n ==> score_is::<A>(
                    q,
                    head_at(k, kv_dim, p, kv_h, q.len() as int),
                    inv_sqrt_d,
                    #[trigger] scores[p],
                )
            &&& #[trigger] softmax_is::<A>(scores, weights)
        }
}

/// Element `d` of the values of head `kv_h` at the positions `0..n`.
pub open spec fn value_column<T>(
    v: Seq<T>,
    kv_dim: int,
    kv_h: int,
    head_dim: int,
    n: nat,
    d: int,
) -> Seq<T> {
    Seq::new(n, |p: int| head_at(v, kv_dim, p, kv_h, head_dim)[d])
}

/// `out` is an outcome of the attention of the query head `q`: the values at the
/// positions `0..n`, each weighted, added up from zero in ascending order.
pub open spec fn head_attention_is<A: Arith>(
    q: Seq<A::Num>,
    k: Seq<A::Num>,
    v: Seq<A::Num>,
    kv_dim: int,
    kv_h: int,
    n: nat,
    inv_sqrt_d: A::Num,
    out: Seq<A::Num>,
) -> bool {
    exists|weights: Seq<A::Num>|
        {
            &&& #[trigger] weights_are::<A>(q, k, kv_dim, kv_h, n, inv_sqrt_d, weights)
            &&& forall|d: int|
                0 <= d < q.len() ==> weighted_sum_is::<A>(
                    weights,
                    value_column(v, kv_dim, kv_h, q.len() as int, n, d),
                    #[trigger] out[d],
                )
        }
}

/// `r` is an outcome of adding up `weights[p] * values[p]` from zero.
pub open spec fn weighted_sum_is<A: Arith>(
    weights: Seq<A::Num>,
    values: Seq<A::Num>,
    r: A::Num,
) -> bool {
    exists|zero: A::Num|
        #[trigger] int_is::<A>(0, zero) && mac_is::<A>(zero, weights, values, values.len(), r)
}

/// `r` is an outcome of `1 / sqrt(n)`.
pub open spec fn inv_sqrt_is<A: Arith>(n: u64, r: A::Num) -> bool {
    exists|count: A::Num| #[trigger] count_is::<A>(n, count) && rsqrt_is::<A>(count, r)
}

/// `out` is an outcome of the attention of `n_heads` query heads on the positions
/// `0..n`: head `h` attends to key/value head `h / (n_heads / n_kv_heads)`.
pub open spec fn attention_is<A: Arith>(
    q: Seq<A::Num>,
    k: Seq<A::Num>,
    v: Seq<A::Num>,
    kv_dim: int,
    n_heads: int,
    n_kv_heads: int,
    head_dim: usize,
    n: nat,
    out: Seq<A::Num>,
) -> bool {
    exists|inv_sqrt_d: A::Num|
        {
            &&& #[trigger] inv_sqrt_is::<A>(head_dim as u64, inv_sqrt_d)
            &&& forall|h: int|
                0 <= h < n_heads ==> #[trigger] head_attention_is::<A>(
                    head(q, head_dim as nat, h),
                    k,
                    v,
                    kv_dim,
                    h / (n_heads / n_kv_heads),
                    n,
                    inv_sqrt_d,
                    head(out, head_dim as nat, h),
                )
        }
}

/// `1 / sqrt(n)`
fn inv_sqrt<A: Arith>(n: usize) -> (r: A::Num)
    ensures
        inv_sqrt_is::<A>(n as u64, r),
{
    let count = A::from_u64(n as u64);
    assert(count_is::<A>(n as u64, count));
    rsqrt::<A>(count)
}

/// Where rows of `kv_dim` elements hold a head at the positions `0..=cur_pos`,
/// so do those of the positions before.
proof fn lemma_head_in_rows(kv_dim: int, p: int, cur_pos: int, h: int, heads: int, head_dim: int)
    requires
        0 <= p <= cur_pos,
        0 <= h < heads,
        0 <= head_dim,
        0 <= kv_dim,
    ensures
        0 <= p * kv_dim,
        0 <= h * head_dim,
        p * kv_dim + h * head_dim + head_dim <= cur_pos * kv_dim + heads * head_dim,
{
    assert(0 <= p * kv_dim <= cur_pos * kv_dim) by (nonlinear_arith)
        requires
            0 <= p <= cur_pos,
            0 <= kv_dim,
    ;
    lemma_row_in_matrix(h, heads, head_dim);
}

/// The attention weights of one query head: `scores` is overwritten with them.
fn attention_weights<A: Arith>(
    q: &[A::Num],
    cache: &KvCache<A>,
    cur_pos: usize,
    kv_h: usize,
    inv_sqrt_d: A::Num,
    scores: &mut Vec<A::Num>,
)
    requires
        old(scores)@.len() == cur_pos + 1,
        cur_pos * cache.kv_dim + (kv_h + 1) * q@.len() <= cache.k@.len(),
    ensures
        final(scores)@.len() == cur_pos + 1,
        weights_are::<A>(
            q@,
            cache.k@,
            cache.kv_dim as int,
            kv_h as int,
            (cur_pos + 1) as nat,
            inv_sqrt_d,
            final(scores)@,
        ),
{
    let head_dim: usize = q.len();
    let n: usize = scores.len();
    for p in 0..n
        invariant
            n == cur_pos + 1,
            n == scores@.len(),
            head_dim == q@.len(),
            cur_pos * cache.kv_dim + (kv_h + 1) * head_dim <= cache.k@.len(),
            forall|i: int|
                0 <= i < p ==> score_is::<A>(
                    q@,
                    head_at(cache.k@, cache.kv_dim as int, i, kv_h as int, head_dim as int),
                    inv_sqrt_d,
                    #[trigger] scores@[i],
                ),
    {
        proof {
            lemma_head_in_rows(
                cache.kv_dim as int,
                p as int,
                cur_pos as int,
                kv_h as int,
                kv_h + 1,
                head_dim as int,
            );
        }
        let k = cache.k_at(p, kv_h, head_dim);
        let dot = inner::<A>(q, k);
        let score = A::times(dot, inv_sqrt_d);
        scores[p] = score;
        assert(product_is::<A>(dot, inv_sqrt_d, score));
        assert(score_is::<A>(q@, k@, inv_sqrt_d, score));
    }
    let ghost raw = scores@;
    softmax_in_place::<A>(scores.as_mut_slice());
    assert(softmax_is::<A>(raw, scores@));
}

/// Adds up the weighted values of a head into `out[off..off + head_dim]`.
fn weighted_values<A: Arith>(
    weights: &Vec<A::Num>,
    cache: &KvCache<A>,
    cur_pos: usize,
    kv_h: usize,
    head_dim: usize,
    out: &mut [A::Num],
    off: usize,
)
    requires
        weights@.len() == cur_pos + 1,
        cur_pos * cache.kv_dim + (kv_h + 1) * head_dim <= cache.v@.len(),
        off + head_dim <= old(out)@.len(),
    ensures
        final(out)@.len() == old(out)@.len(),
        forall|i: int|
            0 <= i < old(out)@.len() && !(off <= i < off + head_dim) ==> #[trigger] final(out)@[i]
                == old(out)@[i],
        forall|d: int|
            #![trigger final(out)@[off + d]]
            0 <= d < head_dim ==> weighted_sum_is::<A>(
                weights@,
                value_column(
                    cache.v@,
                    cache.kv_dim as int,
                    kv_h as int,
                    head_dim as int,
                    (cur_pos + 1) as nat,
                    d,
                ),
                final(out)@[off + d],
            ),
{
    let ghost before = out@;
    let n: usize = weights.len();
    let zero = A::from_i8(0);
    for d in 0..head_dim
        invariant
            off + head_dim <= out.len(),
            out@.len() == before.len(),
            forall|i: int| off <= i < off + d ==> #[trigger] out@[i] == zero,
            forall|i: int|
                0 <= i < before.len() && !(off <= i < off + d) ==> #[trigger] out@[i]
                    == before[i],
    {
        out[off + d] = zero;
    }
    for p in 0..n
        invariant
            n == cur_pos + 1,
            n == weights@.len(),
            cur_pos * cache.kv_dim + (kv_h + 1) * head_dim <= cache.v@.len(),
            off + head_dim <= out.len(),
            out@.len() == before.len(),
            forall|i: int|
                0 <= i < before.len() && !(off <= i < off + head_dim) ==> #[trigger] out@[i]
                    == before[i],
            forall|d: int|
                #![trigger out@[off + d]]
                0 <= d < head_dim ==> mac_is::<A>(
                    zero,
                    weights@,
                    value_column(
                        cache.v@,
                        cache.kv_dim as int,
                        kv_h as int,
                        head_dim as int,
                        n as nat,
                        d,
                    ),
                    p as nat,
                    out@[off + d],
                ),
    {
        proof {
            lemma_head_in_rows(
                cache.kv_dim as int,
                p as int,
                cur_pos as int,
                kv_h as int,
                kv_h + 1,
                head_dim as int,
            );
        }
        let v = cache.v_at(p, kv_h, head_dim);
        let w = weights[p];
        for d in 0..head_dim
            invariant
                p < n,
                n == weights@.len(),
                w == weights@[p as int],
                v@ == head_at(
                    cache.v@,
                    cache.kv_dim as int,
                    p as int,
                    kv_h as int,
                    head_dim as int,
                ),
                v@.len() == head_dim,
                off + head_dim <= out.len(),
                out@.len() == before.len(),
                forall|i: int|
                    0 <= i < before.len() && !(off <= i < off + head_dim) ==> #[trigger] out@[i]
                        == before[i],
                forall|e: int|
                    #![trigger out@[off + e]]
                    0 <= e < head_dim ==> mac_is::<A>(
                        zero,
                        weights@,
                        value_column(
                            cache.v@,
                            cache.kv_dim as int,
                            kv_h as int,
                            head_dim as int,
                            n as nat,
                            e,
                        ),
                        if e < d {
                            (p + 1) as nat
                        } else {
                            p as nat
                        },
                        out@[off + e],
                    ),
        {
            let s = out[off + d];
            let r = mul_add::<A>(s, w, v[d]);
            proof {
                let values = value_column(
                    cache.v@,
                    cache.kv_dim as int,
                    kv_h as int,
                    head_dim as int,
                    n as nat,
                    d as int,
                );
                assert(out@[off + d] == s);
                assert(values[p as int] == v@[d as int]);
                lemma_mac_push::<A>(zero, weights@, values, p as nat, s, r);
            }
            out[off + d] = r;
        }
    }
    assert(int_is::<A>(0, zero));
}

/// Attention of the current token, whose key and value are in `cache` at
/// `cur_pos`, on all positions up to it. Query head `h` attends to key/value head
/// `h / (n_heads / n_kv_heads)`; the outputs of the heads are concatenated in
/// `out`.
pub fn attention<A: Arith>(
    q: &[A::Num],
    cache: &KvCache<A>,
    cur_pos: usize,
    n_heads: usize,
    n_kv_heads: usize,
    head_dim: usize,
    out: &mut [A::Num],
)
    requires
        q@.len() == n_heads * head_dim,
        old(out)@.len() == n_heads * head_dim,
        n_kv_heads > 0,
        n_heads % n_kv_heads == 0,
        cur_pos < usize::MAX,
        n_heads > 0 ==> cur_pos * cache.kv_dim + n_kv_heads * head_dim <= cache.k@.len(),
        n_heads > 0 ==> cur_pos * cache.kv_dim + n_kv_heads * head_dim <= cache.v@.len(),
    ensures
        final(out)@.len() == old(out)@.len(),
        attention_is::<A>(
            q@,
            cache.k@,
            cache.v@,
            cache.kv_dim as int,
            n_heads as int,
            n_kv_heads as int,
            head_dim,
            (cur_pos + 1) as nat,
            final(out)@,
        ),
{
    let q_per_kv: usize = n_heads / n_kv_heads;
    let inv_sqrt_d = inv_sqrt::<A>(head_dim);
    let mut scores: Vec<A::Num> = repeated(A::from_i8(0), cur_pos + 1);
    for h in 0..n_heads
        invariant
            q.len() == n_heads * head_dim,
            out.len() == n_heads * head_dim,
            n_kv_heads > 0,
            n_heads % n_kv_heads == 0,
            q_per_kv == n_heads / n_kv_heads,
            cur_pos < usize::MAX,
            n_heads > 0 ==> cur_pos * cache.kv_dim + n_kv_heads * head_dim <= cache.k@.len(),
            n_heads > 0 ==> cur_pos * cache.kv_dim + n_kv_heads * head_dim <= cache.v@.len(),
            scores@.len() == cur_pos + 1,
            forall|g: int|
                0 <= g < h ==> #[trigger] head_attention_is::<A>(
                    head(q@, head_dim as nat, g),
                    cache.k@,
                    cache.v@,
                    cache.kv_dim as int,
                    g / (q_per_kv as int),
                    (cur_pos + 1) as nat,
                    inv_sqrt_d,
                    head(out@, head_dim as nat, g),
                ),
    {
        proof {
            lemma_row_in_matrix(h as int, n_heads as int, head_dim as int);
            lemma_kv_head(h as int, n_heads as int, n_kv_heads as int);
            lemma_row_in_matrix(h as int / q_per_kv as int, n_kv_heads as int, head_dim as int);
            assert((h + 1) * head_dim == h * head_dim + head_dim) by (nonlinear_arith);
        }
        let off: usize = h * head_dim;
        let q_h = vstd::slice::slice_subrange(q, off, off + head_dim);
        let kv_h: usize = h / q_per_kv;
        assert((kv_h + 1) * head_dim == kv_h * head_dim + head_dim) by (nonlinear_arith);
        attention_weights::<A>(q_h, cache, cur_pos, kv_h, inv_sqrt_d, &mut scores);
        let ghost mid = out@;
        weighted_values::<A>(&scores, cache, cur_pos, kv_h, head_dim, out, off);
        proof {
            let hd = head_dim as nat;
            assert(q_h@ =~= head(q@, hd, h as int));
            let out_h = head(out@, hd, h as int);
            assert forall|d: int| 0 <= d < head_dim implies weighted_sum_is::<A>(
                scores@,
                value_column(
                    cache.v@,
                    cache.kv_dim as int,
                    kv_h as int,
                    head_dim as int,
                    (cur_pos + 1) as nat,
                    d,
                ),
                #[trigger] out_h[d],
            ) by {
                assert(out_h[d] == out@[off + d]);
            }
            assert(head_attention_is::<A>(
                head(q@, hd, h as int),
                cache.k@,
                cache.v@,
                cache.kv_dim as int,
                kv_h as int,
                (cur_pos + 1) as nat,
                inv_sqrt_d,
                out_h,
            ));
            assert forall|g: int| 0 <= g < h implies #[trigger] head_attention_is::<A>(
                head(q@, hd, g),
                cache.k@,
                cache.v@,
                cache.kv_dim as int,
                g / (q_per_kv as int),
                (cur_pos + 1) as nat,
                inv_sqrt_d,
                head(out@, hd, g),
            ) by {
                assert((g + 1) * hd <= h * hd && 0 <= g * hd && (g + 1) * hd == g * hd + hd)
                    by (nonlinear_arith)
                    requires
                        0 <= g < h,
                ;
                assert(head(out@, hd, g) =~= head(mid, hd, g));
            }
        }
    }
}

/// The key/value head of a query head exists, where the query heads divide
/// evenly.
proof fn lemma_kv_head(h: int, n_heads: int, n_kv_heads: int)
    requires
        0 <= h < n_heads,
        n_kv_heads > 0,
        n_heads % n_kv_heads == 0,
    ensures
        n_heads / n_kv_heads > 0,
        0 <= h / (n_heads / n_kv_heads) < n_kv_heads,
{
    let per = n_heads / n_kv_heads;
    vstd::arithmetic::div_mod::lemma_fundamental_div_mod(n_heads, n_kv_heads);
    assert(per > 0) by (nonlinear_arith)
        requires
            n_heads == n_kv_heads * per,
            n_heads > 0,
            n_kv_heads > 0,
    ;
    vstd::arithmetic::div_mod::lemma_fundamental_div_mod(h, per);
    vstd::arithmetic::div_mod::lemma_mod_bound(h, per);
    let kv = h / per;
    assert(0 <= kv < n_kv_heads) by (nonlinear_arith)
        requires
            h == per * kv + h % per,
            0 <= h % per < per,
            0 <= h < n_kv_heads * per,
            per > 0,
    ;
}

/// What each head gives position `p`.
pub open spec fn given_to<T>(weights: Seq<Seq<T>>, p: int) -> Seq<T> {
    Seq::new(weights.len(), |h: int| weights[h][p])
}

/// `pattern` is an outcome of averaging the attention weights of all heads, for
/// each position: their sum from zero, times `inv_n`.
pub open spec fn average_is<A: Arith>(
    weights: Seq<Seq<A::Num>>,
    inv_n: A::Num,
    pattern: Seq<A::Num>,
) -> bool {
    forall|p: int|
        0 <= p < pattern.len() ==> average_at::<A>(weights, inv_n, p, #[trigger] pattern[p])
}

/// `r` is an outcome of averaging what all heads give position `p`.
pub open spec fn average_at<A: Arith>(
    weights: Seq<Seq<A::Num>>,
    inv_n: A::Num,
    p: int,
    r: A::Num,
) -> bool {
    exists|zero: A::Num, s: A::Num|
        {
            &&& int_is::<A>(0, zero)
            &&& #[trigger] running_sum_is::<A>(zero, given_to(weights, p), weights.len(), s)
            &&& product_is::<A>(s, inv_n, r)
        }
}

/// `pattern` is an outcome of the attention mass on the positions
/// `0..pattern.len()`, averaged over `n_heads` query heads.
pub open spec fn pattern_is<A: Arith>(
    q: Seq<A::Num>,
    k: Seq<A::Num>,
    kv_dim: int,
    n_heads: u64,
    n_kv_heads: int,
    head_dim: usize,
    pattern: Seq<A::Num>,
) -> bool {
    exists|inv_sqrt_d: A::Num, inv_n: A::Num, weights: Seq<Seq<A::Num>>|
        {
            &&& #[trigger] inv_sqrt_is::<A>(head_dim as u64, inv_sqrt_d)
            &&& reciprocal_is::<A>(n_heads, inv_n)
            &&& weights.len() == n_heads
            &&& forall|h: int|
                0 <= h < n_heads ==> weights_are::<A>(
                    head(q, head_dim as nat, h),
                    k,
                    kv_dim,
                    h / (n_heads as int / n_kv_heads),
                    pattern.len(),
                    inv_sqrt_d,
                    #[trigger] weights[h],
                )
            &&& #[trigger] average_is::<A>(weights, inv_n, pattern)
        }
}

/// How many key/value heads the query heads reach, in groups of
/// `n_heads / n_kv_heads`.
pub open spec fn kv_heads_reached(n_heads: int, n_kv_heads: int) -> int {
    (n_heads - 1) / (n_heads / n_kv_heads) + 1
}

/// The attention mass per position, averaged over the heads.
pub fn attention_pattern<A: Arith>(
    q: &[A::Num],
    cache: &KvCache<A>,
    cur_pos: usize,
    n_heads: usize,
    n_kv_heads: usize,
    head_dim: usize,
) -> (pattern: Vec<A::Num>)
    requires
        n_heads * head_dim <= q@.len(),
        n_kv_heads > 0,
        n_heads > 0 ==> n_kv_heads <= n_heads,
        cur_pos < usize::MAX,
        n_heads > 0 ==> cur_pos * cache.kv_dim + kv_heads_reached(n_heads as int, n_kv_heads as int)
            * head_dim <= cache.k@.len(),
    ensures
        pattern@.len() == cur_pos + 1,
        pattern_is::<A>(
            q@,
            cache.k@,
            cache.kv_dim as int,
            n_heads as u64,
            n_kv_heads as int,
            head_dim,
            pattern@,
        ),
{
    let q_per_kv: usize = n_heads / n_kv_heads;
    let inv_sqrt_d = inv_sqrt::<A>(head_dim);
    let zero = A::from_i8(0);
    let n: usize = cur_pos + 1;
    let mut sum: Vec<A::Num> = repeated(zero, n);
    let mut scores: Vec<A::Num> = repeated(zero, n);
    let ghost mut weights: Seq<Seq<A::Num>> = Seq::empty();
    for h in 0..n_heads
        invariant
            n_heads * head_dim <= q.len(),
            n_kv_heads > 0,
            n_heads > 0 ==> n_kv_heads <= n_heads,
            q_per_kv == n_heads / n_kv_heads,
            n == cur_pos + 1,
            n_heads > 0 ==> cur_pos * cache.kv_dim + kv_heads_reached(
                n_heads as int,
                n_kv_heads as int,
            ) * head_dim <= cache.k@.len(),
            scores@.len() == n,
            sum@.len() == n,
            weights.len() == h,
            forall|g: int|
                0 <= g < h ==> weights_are::<A>(
                    head(q@, head_dim as nat, g),
                    cache.k@,
                    cache.kv_dim as int,
                    g / (q_per_kv as int),
                    n as nat,
                    inv_sqrt_d,
                    #[trigger] weights[g],
                ),
            forall|p: int|
                0 <= p < n ==> running_sum_is::<A>(
                    zero,
                    given_to(weights, p),
                    h as nat,
                    #[trigger] sum@[p],
                ),
    {
        proof {
            lemma_row_in_matrix(h as int, n_heads as int, head_dim as int);
            lemma_kv_head_reached(h as int, n_heads as int, n_kv_heads as int);
            assert((h + 1) * head_dim == h * head_dim + head_dim) by (nonlinear_arith);
        }
        let off: usize = h * head_dim;
        let q_h = vstd::slice::slice_subrange(q, off, off + head_dim);
        let kv_h: usize = h / q_per_kv;
        proof {
            let reached = kv_heads_reached(n_heads as int, n_kv_heads as int);
            assert((kv_h + 1) * head_dim <= reached * head_dim) by (nonlinear_arith)
                requires
                    kv_h + 1 <= reached,
            ;
        }
        attention_weights::<A>(q_h, cache, cur_pos, kv_h, inv_sqrt_d, &mut scores);
        let ghost grown = weights.push(scores@);
        let ghost start = sum@;
        proof {
            assert(q_h@ =~= head(q@, head_dim as nat, h as int));
        }
        for p in 0..n
            invariant
                n == scores@.len(),
                n == sum@.len(),
                n == start.len(),
                weights.len() == h,
                grown == weights.push(scores@),
                forall|i: int| p <= i < n ==> #[trigger] sum@[i] == start[i],
                forall|i: int|
                    0 <= i < n ==> running_sum_is::<A>(
                        zero,
                        given_to(weights, i),
                        h as nat,
                        #[trigger] start[i],
                    ),
                forall|i: int|
                    0 <= i < p ==> running_sum_is::<A>(
                        zero,
                        given_to(grown, i),
                        (h + 1) as nat,
                        #[trigger] sum@[i],
                    ),
        {
            let s = sum[p];
            let r = A::plus(s, scores[p]);
            sum[p] = r;
            proof {
                let all = given_to(grown, p as int);
                assert(start[p as int] == s);
                lemma_running_sum_same::<A>(zero, given_to(weights, p as int), all, h as nat, s);
                assert(all[h as int] == scores@[p as int]);
                lemma_running_sum_push::<A>(zero, all, h as nat, s, r);
            }
        }
        proof {
            weights = grown;
        }
    }
    let inv_n = reciprocal::<A>(n_heads as u64);
    let ghost sums = sum@;
    for p in 0..n
        invariant
            n == sum@.len(),
            n == sums.len(),
            weights.len() == n_heads,
            int_is::<A>(0, zero),
            forall|i: int| p <= i < n ==> #[trigger] sum@[i] == sums[i],
            forall|i: int|
                0 <= i < n ==> running_sum_is::<A>(
                    zero,
                    given_to(weights, i),
                    n_heads as nat,
                    #[trigger] sums[i],
                ),
            forall|i: int|
                0 <= i < p ==> average_at::<A>(weights, inv_n, i, #[trigger] sum@[i]),
    {
        let s = sum[p];
        let r = A::times(s, inv_n);
        sum[p] = r;
        assert(sums[p as int] == s);
        assert(average_at::<A>(weights, inv_n, p as int, r));
    }
    assert(average_is::<A>(weights, inv_n, sum@));
    sum
}

/// The key/value head of a query head is among those reached.
proof fn lemma_kv_head_reached(h: int, n_heads: int, n_kv_heads: int)
    requires
        0 <= h < n_heads,
        0 < n_kv_heads <= n_heads,
    ensures
        n_heads / n_kv_heads > 0,
        0 <= h / (n_heads / n_kv_heads) < kv_heads_reached(n_heads, n_kv_heads),
{
    vstd::arithmetic::div_mod::lemma_div_non_zero(n_heads, n_kv_heads);
    let per = n_heads / n_kv_heads;
    vstd::arithmetic::div_mod::lemma_div_is_ordered(h, n_heads - 1, per);
    vstd::arithmetic::div_mod::lemma_div_pos_is_pos(h, per);
}

/// Attention looks at no position from `n` on: caches that agree before it give
/// the same outcomes.
pub proof fn law_attention_is_causal<A: Arith>(
    q: Seq<A::Num>,
    k1: Seq<A::Num>,
    v1: Seq<A::Num>,
    k2: Seq<A::Num>,
    v2: Seq<A::Num>,
    kv_dim: int,
    kv_h: int,
    n: nat,
    inv_sqrt_d: A::Num,
    out: Seq<A::Num>,
)
    requires
        forall|p: int|
            0 <= p < n ==> #[trigger] head_at(k1, kv_dim, p, kv_h, q.len() as int) == head_at(
                k2,
                kv_dim,
                p,
                kv_h,
                q.len() as int,
            ),
        forall|p: int|
            0 <= p < n ==> #[trigger] head_at(v1, kv_dim, p, kv_h, q.len() as int) == head_at(
                v2,
                kv_dim,
                p,
                kv_h,
                q.len() as int,
            ),
        head_attention_is::<A>(q, k1, v1, kv_dim, kv_h, n, inv_sqrt_d, out),
    ensures
        head_attention_is::<A>(q, k2, v2, kv_dim, kv_h, n, inv_sqrt_d, out),
{
    let hd = q.len() as int;
    let weights = choose|weights: Seq<A::Num>|
        {
            &&& #[trigger] weights_are::<A>(q, k1, kv_dim, kv_h, n, inv_sqrt_d, weights)
            &&& forall|d: int|
                0 <= d < q.len() ==> weighted_sum_is::<A>(
                    weights,
                    value_column(v1, kv_dim, kv_h, q.len() as int, n, d),
                    #[trigger] out[d],
                )
        };
    let scores = choose|scores: Seq<A::Num>|
        {
            &&& scores.len() == n
            &&& forall|p: int|
                0 <= p < n ==> score_is::<A>(
                    q,
                    head_at(k1, kv_dim, p, kv_h, q.len() as int),
                    inv_sqrt_d,
                    #[trigger] scores[p],
                )
            &&& #[trigger] softmax_is::<A>(scores, weights)
        };
    assert forall|p: int| 0 <= p < n implies score_is::<A>(
        q,
        head_at(k2, kv_dim, p, kv_h, hd),
        inv_sqrt_d,
        #[trigger] scores[p],
    ) by {
        assert(head_at(k1, kv_dim, p, kv_h, hd) == head_at(k2, kv_dim, p, kv_h, hd));
    }
    assert(weights_are::<A>(q, k2, kv_dim, kv_h, n, inv_sqrt_d, weights));
    assert forall|d: int| 0 <= d < q.len() implies weighted_sum_is::<A>(
        weights,
        value_column(v2, kv_dim, kv_h, hd, n, d),
        #[trigger] out[d],
    ) by {
        assert forall|p: int| 0 <= p < n implies head_at(v1, kv_dim, p, kv_h, hd)[d]
            == #[trigger] head_at(v2, kv_dim, p, kv_h, hd)[d] by {
            assert(head_at(v1, kv_dim, p, kv_h, hd) == head_at(v2, kv_dim, p, kv_h, hd));
        }
        assert(value_column(v1, kv_dim, kv_h, hd, n, d) =~= value_column(
            v2,
            kv_dim,
            kv_h,
            hd,
            n,
            d,
        ));
    }
}

/// Where every operation has one outcome, query heads with the same query that
/// share a key/value head have the same output.
pub proof fn law_same_query_same_output<A: Arith>(
    q: Seq<A::Num>,
    k: Seq<A::Num>,
    v: Seq<A::Num>,
    kv_dim: int,
    kv_h: int,
    n: nat,
    inv_sqrt_d: A::Num,
    out1: Seq<A::Num>,
    out2: Seq<A::Num>,
)
    requires
        single_valued::<A>(),
        out1.len() == q.len(),
        out2.len() == q.len(),
        head_attention_is::<A>(q, k, v, kv_dim, kv_h, n, inv_sqrt_d, out1),
        head_attention_is::<A>(q, k, v, kv_dim, kv_h, n, inv_sqrt_d, out2),
    ensures
        out1 == out2,
{
    let w1 = choose|weights: Seq<A::Num>|
        {
            &&& #[trigger] weights_are::<A>(q, k, kv_dim, kv_h, n, inv_sqrt_d, weights)
            &&& forall|d: int|
                0 <= d < q.len() ==> weighted_sum_is::<A>(
                    weights,
                    value_column(v, kv_dim, kv_h, q.len() as int, n, d),
                    #[trigger] out1[d],
                )
        };
    let w2 = choose|weights: Seq<A::Num>|
        {
            &&& #[trigger] weights_are::<A>(q, k, kv_dim, kv_h, n, inv_sqrt_d, weights)
            &&& forall|d: int|
                0 <= d < q.len() ==> weighted_sum_is::<A>(
                    weights,
                    value_column(v, kv_dim, kv_h, q.len() as int, n, d),
                    #[trigger] out2[d],
                )
        };
    lemma_weights_unique::<A>(q, k, kv_dim, kv_h, n, inv_sqrt_d, w1, w2);
    assert forall|d: int| 0 <= d < q.len() implies #[trigger] out1[d] == out2[d] by {
        let column = value_column(v, kv_dim, kv_h, q.len() as int, n, d);
        assert(weighted_sum_is::<A>(w1, column, out1[d]));
        assert(weighted_sum_is::<A>(w1, column, out2[d]));
        let z1 = choose|zero: A::Num|
            #[trigger] int_is::<A>(0, zero) && mac_is::<A>(zero, w1, column, n, out1[d]);
        let z2 = choose|zero: A::Num|
            #[trigger] int_is::<A>(0, zero) && mac_is::<A>(zero, w1, column, n, out2[d]);
        assert(z1 == z2);
        lemma_mac_unique::<A>(z1, w1, column, n, out1[d], out2[d]);
    }
    assert(out1 =~= out2);
}

/// Where every operation has one outcome, so have the attention weights.
proof fn lemma_weights_unique<A: Arith>(
    q: Seq<A::Num>,
    k: Seq<A::Num>,
    kv_dim: int,
    kv_h: int,
    n: nat,
    inv_sqrt_d: A::Num,
    w1: Seq<A::Num>,
    w2: Seq<A::Num>,
)
    requires
        single_valued::<A>(),
        weights_are::<A>(q, k, kv_dim, kv_h, n, inv_sqrt_d, w1),
        weights_are::<A>(q, k, kv_dim, kv_h, n, inv_sqrt_d, w2),
    ensures
        w1 == w2,
{
    let s1 = choose|scores: Seq<A::Num>|
        {
            &&& scores.len() == n
            &&& forall|p: int|
                0 <= p < n ==> score_is::<A>(
                    q,
                    head_at(k, kv_dim, p, kv_h, q.len() as int),
                    inv_sqrt_d,
                    #[trigger] scores[p],
                )
            &&& #[trigger] softmax_is::<A>(scores, w1)
        };
    let s2 = choose|scores: Seq<A::Num>|
        {
            &&& scores.len() == n
            &&& forall|p: int|
                0 <= p < n ==> score_is::<A>(
                    q,
                    head_at(k, kv_dim, p, kv_h, q.len() as int),
                    inv_sqrt_d,
                    #[trigger] scores[p],
                )
            &&& #[trigger] softmax_is::<A>(scores, w2)
        };
    assert forall|p: int| 0 <= p < n implies #[trigger] s1[p] == s2[p] by {
        let key = head_at(k, kv_dim, p, kv_h, q.len() as int);
        assert(score_is::<A>(q, key, inv_sqrt_d, s1[p]));
        assert(score_is::<A>(q, key, inv_sqrt_d, s2[p]));
        let d1 = choose|dot: A::Num|
            inner_is::<A>(q, key, dot) && #[trigger] product_is::<A>(dot, inv_sqrt_d, s1[p]);
        let d2 = choose|dot: A::Num|
            inner_is::<A>(q, key, dot) && #[trigger] product_is::<A>(dot, inv_sqrt_d, s2[p]);
        lemma_inner_unique::<A>(q, key, d1, d2);
        assert(product_is::<A>(d1, inv_sqrt_d, s1[p]) && product_is::<A>(d1, inv_sqrt_d, s2[p]));
    }
    assert(s1 =~= s2);
    lemma_softmax_unique::<A>(s1, w1, w2);
}

/// The operations that an attention consists of have one outcome each.
pub open spec fn attends_once<A: Arith>() -> bool {
    &&& single_valued::<A>()
    &&& forall|n: u64, r: A::Num, s: A::Num|
        #[trigger] count_is::<A>(n, r) && #[trigger] count_is::<A>(n, s) ==> r == s
    &&& forall|a: A::Num, r: A::Num, s: A::Num|
        #[trigger] sqrt_is::<A>(a, r) && #[trigger] sqrt_is::<A>(a, s) ==> r == s
}

/// Where every operation has one outcome, so has `1 / sqrt(a)`.
pub proof fn lemma_rsqrt_unique<A: Arith>(a: A::Num, r1: A::Num, r2: A::Num)
    requires
        attends_once::<A>(),
        rsqrt_is::<A>(a, r1),
        rsqrt_is::<A>(a, r2),
    ensures
        r1 == r2,
{
    let (one1, s1) = choose|one: A::Num, s: A::Num|
        {
            &&& #[trigger] int_is::<A>(1, one)
            &&& #[trigger] sqrt_is::<A>(a, s)
            &&& quotient_is::<A>(one, s, r1)
        };
    let (one2, s2) = choose|one: A::Num, s: A::Num|
        {
            &&& #[trigger] int_is::<A>(1, one)
            &&& #[trigger] sqrt_is::<A>(a, s)
            &&& quotient_is::<A>(one, s, r2)
        };
    assert(one1 == one2 && s1 == s2);
}

/// Where every operation has one outcome, so has `1 / sqrt(n)`.
proof fn lemma_inv_sqrt_unique<A: Arith>(n: u64, r1: A::Num, r2: A::Num)
    requires
        attends_once::<A>(),
        inv_sqrt_is::<A>(n, r1),
        inv_sqrt_is::<A>(n, r2),
    ensures
        r1 == r2,
{
    let c1 = choose|c: A::Num| #[trigger] count_is::<A>(n, c) && rsqrt_is::<A>(c, r1);
    let c2 = choose|c: A::Num| #[trigger] count_is::<A>(n, c) && rsqrt_is::<A>(c, r2);
    assert(c1 == c2);
    lemma_rsqrt_unique::<A>(c1, r1, r2);
}

/// Rows that agree up to position `n` hold the same heads there.
proof fn lemma_same_heads<T>(
    rows1: Seq<T>,
    rows2: Seq<T>,
    kv_dim: int,
    heads: int,
    head_dim: int,
    n: int,
    p: int,
    h: int,
)
    requires
        0 <= p < n,
        0 <= h < heads,
        0 <= head_dim,
        heads * head_dim <= kv_dim,
        n * kv_dim <= rows1.len(),
        n * kv_dim <= rows2.len(),
        rows1.subrange(0, n * kv_dim) == rows2.subrange(0, n * kv_dim),
    ensures
        head_at(rows1, kv_dim, p, h, head_dim) == head_at(rows2, kv_dim, p, h, head_dim),
{
    assert(0 <= kv_dim) by (nonlinear_arith)
        requires
            0 <= heads,
            0 <= head_dim,
            heads * head_dim <= kv_dim,
    ;
    lemma_head_in_rows(kv_dim, p, n - 1, h, heads, head_dim);
    assert((n - 1) * kv_dim + kv_dim == n * kv_dim) by (nonlinear_arith);
    let (a, b) = (
        head_at(rows1, kv_dim, p, h, head_dim),
        head_at(rows2, kv_dim, p, h, head_dim),
    );
    let off = p * kv_dim + h * head_dim;
    assert forall|d: int| 0 <= d < head_dim implies #[trigger] a[d] == b[d] by {
        let all = n * kv_dim;
        assert(0 <= off + d < all);
        assert(rows1.subrange(0, all)[off + d] == rows1[off + d]);
        assert(rows2.subrange(0, all)[off + d] == rows2[off + d]);
    }
    assert(a =~= b);
}

/// Where every operation has one outcome, attention depends on nothing but the
/// query and the positions `0..n`: on caches that agree there, the outputs are the
/// same, whatever follows in the caches and whatever was in the outputs before.
pub proof fn law_attention_ignores_later_positions<A: Arith>(
    q: Seq<A::Num>,
    k1: Seq<A::Num>,
    v1: Seq<A::Num>,
    k2: Seq<A::Num>,
    v2: Seq<A::Num>,
    kv_dim: int,
    n_heads: int,
    n_kv_heads: int,
    head_dim: usize,
    n: nat,
    out1: Seq<A::Num>,
    out2: Seq<A::Num>,
)
    requires
        attends_once::<A>(),
        n_kv_heads > 0,
        n_heads >= 0,
        n_heads % n_kv_heads == 0,
        n_kv_heads * head_dim <= kv_dim,
        q.len() == n_heads * head_dim,
        out1.len() == n_heads * head_dim,
        out2.len() == n_heads * head_dim,
        n * kv_dim <= k1.len(),
        n * kv_dim <= k2.len(),
        n * kv_dim <= v1.len(),
        n * kv_dim <= v2.len(),
        k1.subrange(0, n * kv_dim) == k2.subrange(0, n * kv_dim),
        v1.subrange(0, n * kv_dim) == v2.subrange(0, n * kv_dim),
        attention_is::<A>(q, k1, v1, kv_dim, n_heads, n_kv_heads, head_dim, n, out1),
        attention_is::<A>(q, k2, v2, kv_dim, n_heads, n_kv_heads, head_dim, n, out2),
    ensures
        out1 == out2,
{
    let hd = head_dim as nat;
    let per = n_heads / n_kv_heads;
    let d1 = choose|inv_sqrt_d: A::Num|
        {
            &&& #[trigger] inv_sqrt_is::<A>(head_dim as u64, inv_sqrt_d)
            &&& forall|h: int|
                0 <= h < n_heads ==> #[trigger] head_attention_is::<A>(
                    head(q, head_dim as nat, h),
                    k1,
                    v1,
                    kv_dim,
                    h / (n_heads / n_kv_heads),
                    n,
                    inv_sqrt_d,
                    head(out1, head_dim as nat, h),
                )
        };
    let d2 = choose|inv_sqrt_d: A::Num|
        {
            &&& #[trigger] inv_sqrt_is::<A>(head_dim as u64, inv_sqrt_d)
            &&& forall|h: int|
                0 <= h < n_heads ==> #[trigger] head_attention_is::<A>(
                    head(q, head_dim as nat, h),
                    k2,
                    v2,
                    kv_dim,
                    h / (n_heads / n_kv_heads),
                    n,
                    inv_sqrt_d,
                    head(out2, head_dim as nat, h),
                )
        };
    lemma_inv_sqrt_unique::<A>(head_dim as u64, d1, d2);
    assert forall|h: int| 0 <= h < n_heads implies #[trigger] head(out1, hd, h) == head(
        out2,
        hd,
        h,
    ) by {
        lemma_kv_head(h, n_heads, n_kv_heads);
        lemma_row_in_matrix(h, n_heads, hd as int);
        assert((h + 1) * hd == h * hd + hd) by (nonlinear_arith);
        let (kv_h, q_h) = (h / per, head(q, hd, h));
        assert forall|p: int| 0 <= p < n implies #[trigger] head_at(
            k1,
            kv_dim,
            p,
            kv_h,
            hd as int,
        ) == head_at(k2, kv_dim, p, kv_h, hd as int) by {
            lemma_same_heads(k1, k2, kv_dim, n_kv_heads, hd as int, n as int, p, kv_h);
        }
        assert forall|p: int| 0 <= p < n implies #[trigger] head_at(
            v1,
            kv_dim,
            p,
            kv_h,
            hd as int,
        ) == head_at(v2, kv_dim, p, kv_h, hd as int) by {
            lemma_same_heads(v1, v2, kv_dim, n_kv_heads, hd as int, n as int, p, kv_h);
        }
        law_attention_is_causal::<A>(
            q_h,
            k1,
            v1,
            k2,
            v2,
            kv_dim,
            kv_h,
            n,
            d1,
            head(out1, hd, h),
        );
        law_same_query_same_output::<A>(
            q_h,
            k2,
            v2,
            kv_dim,
            kv_h,
            n,
            d1,
            head(out1, hd, h),
            head(out2, hd, h),
        );
    }
    lemma_heads_make_whole(out1, out2, n_heads, hd);
    assert(out1 =~= out2);
}

} // verus!
