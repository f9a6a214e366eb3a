//! Buffers of scalars: filling them and copying between them.

use vstd::prelude::*;

verus! {

/// `s` with the elements from `at` on overwritten by `t`.
pub open spec fn overwrite<T>(s: Seq<T>, at: int, t: Seq<T>) -> Seq<T> {
    Seq::new(
        s.len(),
        |i: int|
            if at <= i < at + t.len() {
                t[i - at]
            } else {
                s[i]
            },
    )
}

/// A vector of `n` times `v`.
pub(crate) fn repeated<T: Copy>(v: T, n: usize) -> (r: Vec<T>)
    ensures
        r@ == Seq::new(n as nat, |i: int| v),
{
    let mut r: Vec<T> = Vec::with_capacity(n);
    for i in 0..n
        invariant
            r@ == Seq::new(i as nat, |j: int| v),
    {
        r.push(v);
        assert(r@ =~= Seq::new((i + 1) as nat, |j: int| v));
    }
    r
}

/// Copies `len` elements from `src[from..]` to `dst[at..]`.
pub(crate) fn copy_range<T: Copy>(dst: &mut Vec<T>, at: usize, src: &[T], from: usize, len: usize)
    requires
        at + len <= old(dst).len(),
        from + len <= src.len(),
    ensures
        final(dst)@ == overwrite(old(dst)@, at as int, src@.subrange(from as int, from + len)),
{
    let ghost before = dst@;
    for i in 0..len
        invariant
            at + len <= dst.len(),
            from + len <= src.len(),
            dst@ == overwrite(before, at as int, src@.subrange(from as int, from + i)),
    {
        dst[at + i] = src[from + i];
        assert(dst@ =~= overwrite(before, at as int, src@.subrange(from as int, from + i + 1)));
    }
}

} // verus!
