//! Work that is handed out item by item to a thread pool.

use rayon::iter::{IndexedParallelIterator, IntoParallelIterator, ParallelIterator};
use vstd::prelude::*;

verus! {

/// Calls `f` on every index below `n` from the threads of the global `rayon`
/// pool, at least `min_len` consecutive indices to a task, and collects the
/// results in index order.
///
/// Claimed of `rayon::iter`: an indexed parallel iterator over `0..n`, mapped
/// by `f` and collected into a vector, holds at place `i` what one call `f(i)`
/// returned, whatever the number of threads and the grouping.
#[verifier::external_body]
fn par_indexed<R: Send, F: Fn(usize) -> R + Sync + Send>(n: usize, min_len: usize, f: F) -> (out: Vec<R>)
    requires
        forall|i: usize| i < n ==> call_requires(f, (i,)),
    ensures
        out@.len() == n,
        forall|i: int| 0 <= i < n ==> call_ensures(f, (i as usize,), #[trigger] out@[i]),
{
    (0..n).into_par_iter().with_min_len(min_len).map(f).collect()
}

/// `f` applied to every index below `n`, in index order: on the thread pool
/// when `parallel`, on the calling thread otherwise. The two paths meet one
/// contract, so which of them runs cannot be told from the result.
pub fn map_indexed<R: Send, F: Fn(usize) -> R + Sync + Send>(
    parallel: bool,
    n: usize,
    min_len: usize,
    f: F,
) -> (out: Vec<R>)
    requires
        forall|i: usize| i < n ==> call_requires(f, (i,)),
    ensures
        out@.len() == n,
        forall|i: int| 0 <= i < n ==> call_ensures(f, (i as usize,), #[trigger] out@[i]),
{
    if parallel {
        return par_indexed(n, min_len, f);
    }
    let mut out: Vec<R> = Vec::new();
    let mut i: usize = 0;
    while i < n
        invariant
            i <= n,
            out@.len() == i,
            forall|k: usize| k < n ==> call_requires(f, (k,)),
            forall|k: int| 0 <= k < i ==> call_ensures(f, (k as usize,), #[trigger] out@[k]),
        decreases n - i,
    {
        let r = f(i);
        out.push(r);
        i += 1;
    }
    out
}

} // verus!
