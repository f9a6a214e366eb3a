//! What is worth showing of a model file.

use vstd::prelude::*;

use crate::format::type_number;
use crate::gguf::{TensorInfo, TensorType};

verus! {

/// The tensor types, in their order.
pub open spec fn all_types() -> Seq<TensorType> {
    seq![
        TensorType::F32,
        TensorType::F16,
        TensorType::Q4_0,
        TensorType::Q4_1,
        TensorType::Q5_0,
        TensorType::Q5_1,
        TensorType::Q8_0,
        TensorType::Q8_1,
        TensorType::Q2K,
        TensorType::Q3K,
        TensorType::Q4K,
        TensorType::Q5K,
        TensorType::Q6K,
        TensorType::Q8K,
    ]
}

/// How many of the first `n` tensors have a type.
pub open spec fn count_of(tensors: Seq<TensorInfo>, dtype: TensorType, n: nat) -> nat
    decreases n,
{
    if n == 0 {
        0
    } else {
        count_of(tensors, dtype, (n - 1) as nat) + (if tensors[n - 1].dtype == dtype {
            1nat
        } else {
            0
        })
    }
}

/// The types among the first `n` that occur, in their order, each with the number
/// of its tensors.
pub open spec fn histogram_of(tensors: Seq<TensorInfo>, n: nat) -> Seq<(TensorType, nat)>
    decreases n,
{
    if n == 0 {
        Seq::empty()
    } else {
        let before = histogram_of(tensors, (n - 1) as nat);
        let dtype = all_types()[n - 1];
        let count = count_of(tensors, dtype, tensors.len());
        if count > 0 {
            before.push((dtype, count))
        } else {
            before
        }
    }
}

/// How many tensors have a type.
fn count_type(tensors: &Vec<TensorInfo>, dtype: TensorType) -> (n: usize)
    ensures
        n == count_of(tensors@, dtype, tensors@.len()),
{
    let mut n: usize = 0;
    for i in 0..tensors.len()
        invariant
            n == count_of(tensors@, dtype, i as nat),
            n <= i,
    {
        if tensors[i].dtype == dtype {
            n = n + 1;
        }
    }
    n
}

/// How many tensors there are of each type that occurs, in the order of the
/// types.
pub fn dtype_histogram(tensors: &Vec<TensorInfo>) -> (h: Vec<(TensorType, usize)>)
    ensures
        h@.map_values(|e: (TensorType, usize)| (e.0, e.1 as nat)) == histogram_of(tensors@, 14),
{
    let types: [TensorType; 14] = [
        TensorType::F32,
        TensorType::F16,
        TensorType::Q4_0,
        TensorType::Q4_1,
        TensorType::Q5_0,
        TensorType::Q5_1,
        TensorType::Q8_0,
        TensorType::Q8_1,
        TensorType::Q2K,
        TensorType::Q3K,
        TensorType::Q4K,
        TensorType::Q5K,
        TensorType::Q6K,
        TensorType::Q8K,
    ];
    assert(types@ =~= all_types());
    let mut h: Vec<(TensorType, usize)> = Vec::new();
    let ghost as_nat = |e: (TensorType, usize)| (e.0, e.1 as nat);
    assert(h@.map_values(as_nat) =~= Seq::empty());
    for i in 0..14
        invariant
            types@ == all_types(),
            as_nat == (|e: (TensorType, usize)| (e.0, e.1 as nat)),
            h@.map_values(as_nat) == histogram_of(tensors@, i as nat),
    {
        let dtype = types[i];
        let n = count_type(tensors, dtype);
        let ghost before = h@;
        if n > 0 {
            h.push((dtype, n));
            assert(h@.map_values(as_nat) =~= before.map_values(as_nat).push((dtype, n as nat)));
        }
    }
    h
}

/// How many tensors a histogram counts.
pub open spec fn counted(h: Seq<(TensorType, nat)>) -> nat
    decreases h.len(),
{
    if h.len() == 0 {
        0
    } else {
        counted(h.drop_last()) + h.last().1
    }
}

/// How many of the first `n` tensors have one of the first `k` types.
spec fn of_types(tensors: Seq<TensorInfo>, k: nat, n: nat) -> nat
    decreases k,
{
    if k == 0 {
        0
    } else {
        of_types(tensors, (k - 1) as nat, n) + count_of(tensors, all_types()[k - 1], n)
    }
}

/// A histogram leaves out only what does not occur.
proof fn lemma_histogram_counts(tensors: Seq<TensorInfo>, k: nat)
    ensures
        counted(histogram_of(tensors, k)) == of_types(tensors, k, tensors.len()),
    decreases k,
{
    if k > 0 {
        lemma_histogram_counts(tensors, (k - 1) as nat);
        let before = histogram_of(tensors, (k - 1) as nat);
        let dtype = all_types()[k - 1];
        let count = count_of(tensors, dtype, tensors.len());
        assert(before.push((dtype, count)).drop_last() =~= before);
    }
}

/// The place of a type among the types.
spec fn rank(dtype: TensorType) -> int {
    match dtype {
        TensorType::F32 => 0,
        TensorType::F16 => 1,
        TensorType::Q4_0 => 2,
        TensorType::Q4_1 => 3,
        TensorType::Q5_0 => 4,
        TensorType::Q5_1 => 5,
        TensorType::Q8_0 => 6,
        TensorType::Q8_1 => 7,
        TensorType::Q2K => 8,
        TensorType::Q3K => 9,
        TensorType::Q4K => 10,
        TensorType::Q5K => 11,
        TensorType::Q6K => 12,
        TensorType::Q8K => 13,
    }
}

/// One more tensor counts once, under its own type.
proof fn lemma_one_more(tensors: Seq<TensorInfo>, k: nat, n: nat)
    requires
        k <= 14,
        n > 0,
    ensures
        of_types(tensors, k, n) == of_types(tensors, k, (n - 1) as nat) + (if rank(
            tensors[n - 1].dtype,
        ) < k {
            1nat
        } else {
            0
        }),
    decreases k,
{
    if k > 0 {
        lemma_one_more(tensors, (k - 1) as nat, n);
        assert(all_types()[k - 1] == tensors[n - 1].dtype <==> rank(tensors[n - 1].dtype) == k
            - 1);
    }
}

/// Every tensor has exactly one of the types.
proof fn lemma_one_type_each(tensors: Seq<TensorInfo>, k: nat, n: nat)
    requires
        k <= 14,
    ensures
        n == 0 ==> of_types(tensors, k, n) == 0,
        k == 14 ==> of_types(tensors, k, n) == n,
    decreases n, k,
{
    if n > 0 {
        if k == 14 {
            lemma_one_type_each(tensors, k, (n - 1) as nat);
            lemma_one_more(tensors, k, n);
        }
    } else if k > 0 {
        lemma_one_type_each(tensors, (k - 1) as nat, n);
    }
}

/// The histogram counts every tensor, and each once.
pub proof fn law_histogram_counts_all(tensors: Seq<TensorInfo>)
    ensures
        counted(histogram_of(tensors, 14)) == tensors.len(),
{
    lemma_histogram_counts(tensors, 14);
    lemma_one_type_each(tensors, 14, tensors.len());
}

/// How many of the first tensors have a type, as a filter.
proof fn lemma_count_filters(tensors: Seq<TensorInfo>, dtype: TensorType, n: nat)
    requires
        n <= tensors.len(),
    ensures
        count_of(tensors, dtype, n) == tensors.take(n as int).filter(
            |t: TensorInfo| t.dtype == dtype,
        ).len(),
    decreases n,
{
    reveal(Seq::filter);
    if n > 0 {
        lemma_count_filters(tensors, dtype, (n - 1) as nat);
        assert(tensors.take(n as int).drop_last() =~= tensors.take(n - 1));
    }
}

/// The entries for the first `k` types.
proof fn lemma_histogram_entries(tensors: Seq<TensorInfo>, k: nat)
    requires
        k <= 14,
    ensures
        forall|i: int|
            0 <= i < histogram_of(tensors, k).len() ==> {
                let e = #[trigger] histogram_of(tensors, k)[i];
                &&& e.1 == count_of(tensors, e.0, tensors.len())
                &&& e.1 > 0
                &&& rank(e.0) < k
            },
        forall|i: int, j: int|
            0 <= i < j < histogram_of(tensors, k).len() ==> rank(
                (#[trigger] histogram_of(tensors, k)[i]).0,
            ) < rank((#[trigger] histogram_of(tensors, k)[j]).0),
        forall|t: TensorType|
            rank(t) < k && #[trigger] count_of(tensors, t, tensors.len()) > 0 ==> exists|i: int|
                0 <= i < histogram_of(tensors, k).len() && (#[trigger] histogram_of(
                    tensors,
                    k,
                )[i]).0 == t,
    decreases k,
{
    if k > 0 {
        lemma_histogram_entries(tensors, (k - 1) as nat);
        let before = histogram_of(tensors, (k - 1) as nat);
        let h = histogram_of(tensors, k);
        let dtype = all_types()[k - 1];
        assert(rank(dtype) == k - 1);
        assert forall|t: TensorType|
            rank(t) < k && #[trigger] count_of(tensors, t, tensors.len()) > 0 implies exists|
            i: int,
        |
            0 <= i < h.len() && (#[trigger] h[i]).0 == t by {
            if rank(t) < k - 1 {
                let i = choose|i: int| 0 <= i < before.len() && (#[trigger] before[i]).0 == t;
                assert(h[i] == before[i]);
            } else {
                assert(t == dtype);
                assert(h[before.len() as int].0 == t);
            }
        }
        assert forall|i: int, j: int| 0 <= i < j < h.len() implies rank((#[trigger] h[i]).0)
            < rank((#[trigger] h[j]).0) by {
            assert(h[i] == before[i]);
            if j < before.len() {
                assert(h[j] == before[j]);
            }
        }
        assert forall|i: int| 0 <= i < h.len() implies {
            let e = #[trigger] h[i];
            &&& e.1 == count_of(tensors, e.0, tensors.len())
            &&& e.1 > 0
            &&& rank(e.0) < k
        } by {
            if i < before.len() {
                assert(h[i] == before[i]);
            }
        }
    }
}

/// The histogram has one entry for each type that occurs and for no other: the number
/// of tensors that have it. The types are in the order of their numbers.
pub proof fn law_histogram_entries(tensors: Seq<TensorInfo>, i: int, j: int, t: TensorType)
    ensures
        ({
            let h = histogram_of(tensors, 14);
            &&& 0 <= i < h.len() ==> h[i].1 > 0 && h[i].1 == tensors.filter(
                |u: TensorInfo| u.dtype == h[i].0,
            ).len()
            &&& 0 <= i < j < h.len() ==> type_number(h[i].0) < type_number(h[j].0)
            &&& tensors.filter(|u: TensorInfo| u.dtype == t).len() > 0 ==> exists|k: int|
                0 <= k < h.len() && (#[trigger] h[k]).0 == t
        }),
{
    let h = histogram_of(tensors, 14);
    lemma_histogram_entries(tensors, 14);
    assert(tensors.take(tensors.len() as int) =~= tensors);
    lemma_count_filters(tensors, t, tensors.len());
    assert(rank(t) < 14);
    if 0 <= i < h.len() {
        lemma_count_filters(tensors, h[i].0, tensors.len());
        assert(h[i].1 == count_of(tensors, h[i].0, tensors.len()));
    }
    if 0 <= i < j < h.len() {
        assert(rank(h[i].0) < rank(h[j].0));
    }
}

} // verus!
