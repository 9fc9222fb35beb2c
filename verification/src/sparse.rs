//! Sparse square matrices by rows.

use crate::scalar::Scalar;
use crate::sorting::Keyed;
use crate::sorting::{lemma_run_holds, lemma_runs_follow};
use crate::sorting::{lemma_with_key_member, ordered, stably_sorted, starts_runs, with_key};
use crate::sorting::{run_starts, stable_sort};
use vstd::prelude::*;

verus! {

/// One stored entry.
#[derive(Debug, Clone, Copy)]
pub struct Entry<T> {
    pub row: u32,
    pub col: u32,
    pub value: T,
}

impl<T: Copy> Keyed for Entry<T> {
    open spec fn key(&self) -> (int, int) {
        (self.row as int, self.col as int)
    }

    fn sort_key(&self) -> (k: (u64, u64)) {
        (self.row as u64, self.col as u64)
    }
}

/// A sparse `n x n` matrix: entries by row, then by column; the entries of row
/// `i` stand at `indptr[i] .. indptr[i + 1]`.
pub struct Csr<T> {
    pub n: usize,
    pub indptr: Vec<usize>,
    pub entries: Vec<Entry<T>>,
}

impl<T: Scalar> Csr<T> {
    pub open spec fn wf(&self) -> bool {
        &&& self.n < usize::MAX
        &&& ordered(self.entries@)
        &&& starts_runs(self.entries@, self.n as int, self.indptr@)
        &&& forall|e: int|
            0 <= e < self.entries@.len() ==> (#[trigger] self.entries@[e]).row < self.n
                && self.entries@[e].col < self.n
    }

    /// Builds the matrix from entries in any order. Entries of one place keep
    /// their order and all count.
    pub fn from_triplets(n: usize, triplets: &Vec<Entry<T>>) -> (r: Self)
        requires
            n < usize::MAX,
            forall|e: int|
                0 <= e < triplets@.len() ==> (#[trigger] triplets@[e]).row < n
                    && triplets@[e].col < n,
        ensures
            r.wf(),
            r.n == n,
            stably_sorted(triplets@, r.entries@),
    {
        let entries = stable_sort(triplets);
        proof {
            assert forall|e: int| 0 <= e < entries@.len() implies (#[trigger] entries@[e]).row < n
                && entries@[e].col < n by {
                lemma_with_key_member(entries@, entries@[e]);
                lemma_with_key_member(triplets@, entries@[e]);
                assert(with_key(entries@, entries@[e].key()) == with_key(
                    triplets@,
                    entries@[e].key(),
                ));
                let m = choose|m: int| 0 <= m < triplets@.len() && triplets@[m] == entries@[e];
                assert(triplets@[m].row < n);
            }
        }
        let indptr = run_starts(&entries, n);
        Csr { n, indptr, entries }
    }

    /// First and past-the-last place of row `i`.
    pub fn row(&self, i: usize) -> (r: (usize, usize))
        requires
            self.wf(),
            i < self.n,
        ensures
            r.0 == self.indptr@[i as int],
            r.1 == self.indptr@[i + 1],
            r.0 <= r.1 <= self.entries@.len(),
    {
        proof {
            lemma_runs_follow(self.entries@, self.n as int, self.indptr@, i as int, i + 1);
        }
        (self.indptr[i], self.indptr[i + 1])
    }
}

/// The entries of row `i` are exactly those in its range.
pub proof fn row_holds_own_entries<T: Scalar>(m: &Csr<T>, i: int, e: int)
    requires
        m.wf(),
        0 <= i < m.n,
        0 <= e < m.entries@.len(),
    ensures
        m.entries@[e].row == i <==> m.indptr@[i] <= e < m.indptr@[i + 1],
{
    lemma_run_holds(m.entries@, m.n as int, m.indptr@, i, e);
}

} // verus!
