//! Deterministic parallel reductions.
//!
//! A slice is cut into fixed-size chunks that do not depend on the data, the thread count
//! or the machine; each chunk is reduced on its own (in parallel, by `rayon`); the chunk
//! results are then combined in index order. The result is a function of the input alone,
//! whatever the thread count.

use rayon::iter::{IntoParallelRefIterator, ParallelIterator};
use rayon::slice::ParallelSlice;
use vstd::prelude::*;

verus! {

/// The reduction chunk length. Changing it changes floating-point results in the last
/// bits: it is part of the numerical contract.
pub const REDUCTION_CHUNK: usize = 4096usize;

/// How many chunks of `len` a slice of `n` is cut into.
pub open spec fn chunk_count(n: int, len: int) -> int {
    (n + len - 1) / len
}

/// Chunk `i` of `xs` cut into chunks of `len`: all of length `len` but the last, which may
/// be shorter.
pub open spec fn chunk_of<T>(xs: Seq<T>, len: int, i: int) -> Seq<T> {
    xs.subrange(i * len, if (i + 1) * len < xs.len() { (i + 1) * len } else { xs.len() as int })
}

/// Whether folding `parts` with `combine` from `empty`, in index order, can give `r`.
pub open spec fn combined_in_order<A, FC: Fn(A, A) -> A>(combine: FC, empty: A, parts: Seq<A>, r: A) -> bool {
    exists|accs: Seq<A>|
        accs.len() == parts.len() + 1 && accs[0] == empty && accs[parts.len() as int] == r
            && forall|i: int| 0 <= i < parts.len() ==> #[trigger] combine.ensures((accs[i], parts[i]), accs[i + 1])
}

/// Whether `part` is what `f` can give for chunk `i` of `xs`.
pub open spec fn chunk_result<T, A, F: Fn(&[T]) -> A>(f: F, xs: Seq<T>, len: int, i: int, part: A) -> bool {
    exists|s: &[T]| s@ == chunk_of(xs, len, i) && #[trigger] f.ensures((s,), part)
}

/// Whether `parts` are what `f` gives for each chunk of `xs`, in order.
pub open spec fn chunk_results<T, A, F: Fn(&[T]) -> A>(f: F, xs: Seq<T>, len: int, parts: Seq<A>) -> bool {
    &&& parts.len() == chunk_count(xs.len() as int, len)
    &&& forall|i: int| 0 <= i < parts.len() ==> #[trigger] chunk_result(f, xs, len, i, parts[i])
}

/// Calls `par_chunks`, `map` and `collect` of `rayon`: each chunk of `xs` is handed to `f`
/// on some thread, and the results are collected in chunk order, as `rayon` documents for
/// an indexed parallel iterator. What `f` returns for a chunk is what its own contract
/// says.
#[verifier::external_body]
fn par_chunk_results<T: Sync, A: Send, F: Fn(&[T]) -> A + Sync>(xs: &[T], chunk_len: usize, f: &F) -> (r: Vec<A>)
    requires
        chunk_len > 0,
        forall|s: &[T]| #[trigger] f.requires((s,)),
    ensures
        chunk_results(*f, xs@, chunk_len as int, r@),
{
    xs.par_chunks(chunk_len).map(f).collect()
}

/// Reduce a slice in fixed-size chunks, combining the chunk results in index order.
///
/// `fold_chunk` must be a pure function of its chunk and `empty` an identity of `combine`;
/// `combine` is only ever applied in index order, so it need not be commutative. An empty
/// slice gives `empty`.
pub fn fixed_order_chunk_reduce<T: Sync, A: Send, FF: Fn(&[T]) -> A + Sync, FC: Fn(A, A) -> A>(
    xs: &[T],
    chunk_len: usize,
    fold_chunk: FF,
    empty: A,
    combine: FC,
) -> (r: A)
    requires
        chunk_len > 0,
        forall|s: &[T]| #[trigger] fold_chunk.requires((s,)),
        forall|a: A, b: A| #[trigger] combine.requires((a, b)),
    ensures
        exists|parts: Seq<A>| chunk_results(fold_chunk, xs@, chunk_len as int, parts) && combined_in_order(combine, empty, parts, r),
{
    if xs.len() == 0 {
        proof {
            let parts = Seq::<A>::empty();
            let accs = seq![empty];
            assert(chunk_count(0, chunk_len as int) == 0) by (nonlinear_arith)
                requires chunk_len > 0;
            assert(chunk_results(fold_chunk, xs@, chunk_len as int, parts));
            assert(accs.len() == parts.len() + 1 && accs[0] == empty && accs[parts.len() as int] == empty);
            assert(combined_in_order(combine, empty, parts, empty));
        }
        return empty;
    }
    let partials = par_chunk_results(xs, chunk_len, &fold_chunk);
    let ghost parts = partials@;
    let mut acc = empty;
    let ghost mut accs: Seq<A> = seq![empty];
    for part in it: partials
        invariant
            parts == it.seq(),
            accs.len() == it.index() + 1,
            accs[0] == empty,
            accs[it.index() as int] == acc,
            forall|i: int| 0 <= i < it.index() ==> #[trigger] combine.ensures((accs[i], parts[i]), accs[i + 1]),
            forall|a: A, b: A| #[trigger] combine.requires((a, b)),
    {
        let next = combine(acc, part);
        proof {
            accs = accs.push(next);
        }
        acc = next;
    }
    proof {
        assert(combined_in_order(combine, empty, parts, acc));
    }
    acc
}

/// Calls `par_iter`, `map` and `collect` of `rayon`: `f` is applied to every element on
/// some thread and the results are collected in index order, as `rayon` documents for an
/// indexed parallel iterator. Safe with any mapping function, unlike a reduction.
#[verifier::external_body]
pub fn fixed_order_map<T: Sync, A: Send, F: Fn(&T) -> A + Sync>(xs: &[T], f: F) -> (r: Vec<A>)
    requires
        forall|x: &T| #[trigger] f.requires((x,)),
    ensures
        r.len() == xs.len(),
        forall|i: int| 0 <= i < xs.len() ==> #[trigger] f.ensures((&xs@[i],), r@[i]),
{
    xs.par_iter().map(&f).collect()
}

/// Whether this build reduces in parallel. It changes no result, but a reader comparing two
/// run records is told. This library always hands its chunks to `rayon`.
pub fn is_parallel_build() -> (r: bool)
    ensures
        r,
{
    true
}

} // verus!
