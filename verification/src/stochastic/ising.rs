//! The Ising model.
//!
//! Energy convention: `E(s) = - sum_i h_i s_i - sum_{i<j} J_ij s_i s_j` over
//! spins -1 and +1; the local field of spin `i` is `h_i + sum_j J_ij s_j`.

use crate::scalar::Scalar;
use crate::sparse::row_holds_own_entries;
use crate::sparse::{Csr, Entry};
use crate::sorting::{lemma_runs_follow, stably_sorted};
use crate::stochastic::maxcut::spins;
use vstd::prelude::*;

verus! {

/// A sparse Ising model: fields `h` and symmetric couplings `J`.
pub struct IsingModel<T> {
    pub n: usize,
    pub h: Vec<T>,
    /// Symmetric couplings: both (i, j) and (j, i) are stored.
    pub j: Csr<T>,
}

/// A spin as a sample.
pub open spec fn spin_value<T: Scalar>(s: i8) -> T {
    if s == 1 {
        T::of_count(1)
    } else {
        T::zero_value().difference(T::of_count(1))
    }
}

fn spin_sample<T: Scalar>(s: i8) -> (r: T)
    ensures
        r == spin_value::<T>(s),
{
    if s == 1 {
        T::from_count(1)
    } else {
        T::zero().minus(T::from_count(1))
    }
}

/// Both directions of the first `k` edges.
pub open spec fn both_ways<T: Scalar>(edges: Seq<(u32, u32, T)>, k: int) -> Seq<Entry<T>>
    decreases k,
{
    if k <= 0 {
        Seq::empty()
    } else {
        let (i, j, w) = edges[k - 1];
        both_ways(edges, k - 1).push(Entry { row: i, col: j, value: w }).push(
            Entry { row: j, col: i, value: w },
        )
    }
}

impl<T: Scalar> IsingModel<T> {
    pub open spec fn wf(&self) -> bool {
        &&& self.h@.len() == self.n
        &&& self.j.n == self.n
        &&& self.j.wf()
    }

    /// Builds from fields and an undirected edge list (i, j, J_ij).
    pub fn new(h: Vec<T>, edges: &Vec<(u32, u32, T)>) -> (r: Self)
        requires
            h@.len() < usize::MAX,
            forall|e: int|
                0 <= e < edges@.len() ==> {
                    &&& (#[trigger] edges@[e]).0 < h@.len()
                    &&& edges@[e].1 < h@.len()
                    &&& edges@[e].0 != edges@[e].1
                },
        ensures
            r.wf(),
            r.n == h@.len(),
            r.h@ == h@,
            stably_sorted(both_ways(edges@, edges@.len() as int), r.j.entries@),
    {
        let n: usize = h.len();
        let mut triplets: Vec<Entry<T>> = Vec::new();
        let mut e: usize = 0;
        while e < edges.len()
            invariant
                e <= edges@.len(),
                n == h@.len(),
                forall|k: int|
                    0 <= k < edges@.len() ==> {
                        &&& (#[trigger] edges@[k]).0 < h@.len()
                        &&& edges@[k].1 < h@.len()
                    },
                triplets@ == both_ways(edges@, e as int),
                forall|k: int|
                    0 <= k < triplets@.len() ==> (#[trigger] triplets@[k]).row < n
                        && triplets@[k].col < n,
            decreases edges@.len() - e,
        {
            let (i, j, w) = edges[e];
            assert(edges@[e as int].0 < n);
            triplets.push(Entry { row: i, col: j, value: w });
            triplets.push(Entry { row: j, col: i, value: w });
            e += 1;
        }
        IsingModel { n, h, j: Csr::from_triplets(n, &triplets) }
    }

    /// Energy after the entries up to `e` of row `i` were counted: those right
    /// of the diagonal.
    pub open spec fn energy_row(&self, s: Seq<i8>, i: int, e: int) -> T
        decreases i, 1int, e,
    {
        if e <= self.j.indptr@[i] {
            self.energy_before(s, i).difference(self.h@[i].product(spin_value::<T>(s[i])))
        } else {
            let x = self.j.entries@[e - 1];
            let before = self.energy_row(s, i, e - 1);
            if x.col > i {
                before.difference(
                    x.value.product(spin_value::<T>(s[i])).product(
                        spin_value::<T>(s[x.col as int]),
                    ),
                )
            } else {
                before
            }
        }
    }

    /// Energy of the rows before `i`.
    pub open spec fn energy_before(&self, s: Seq<i8>, i: int) -> T
        decreases i, 0int, 0int,
    {
        if i <= 0 {
            T::zero_value()
        } else {
            self.energy_row(s, i - 1, self.j.indptr@[i] as int)
        }
    }

    /// Energy of a spin assignment.
    pub open spec fn energy_of(&self, s: Seq<i8>) -> T {
        self.energy_before(s, self.n as int)
    }

    /// Energy of a spin assignment.
    pub fn energy(&self, s: &Vec<i8>) -> (r: T)
        requires
            self.wf(),
            spins(s@, self.n as int),
        ensures
            r == self.energy_of(s@),
    {
        let mut total = T::zero();
        let mut i: usize = 0;
        while i < self.n
            invariant
                i <= self.n,
                self.wf(),
                spins(s@, self.n as int),
                total == self.energy_before(s@, i as int),
            decreases self.n - i,
        {
            let si = spin_sample::<T>(s[i]);
            total = total.minus(self.h[i].times(si));
            let (from, to) = self.j.row(i);
            let mut e: usize = from;
            while e < to
                invariant
                    from <= e <= to <= self.j.entries@.len(),
                    from == self.j.indptr@[i as int],
                    to == self.j.indptr@[i + 1],
                    i < self.n,
                    self.wf(),
                    spins(s@, self.n as int),
                    si == spin_value::<T>(s@[i as int]),
                    total == self.energy_row(s@, i as int, e as int),
                decreases to - e,
            {
                let x = self.j.entries[e];
                assert(self.j.entries@[e as int].col < self.n);
                if x.col as usize > i {
                    total = total.minus(
                        x.value.times(si).times(spin_sample::<T>(s[x.col as usize])),
                    );
                }
                e += 1;
            }
            i += 1;
        }
        total
    }

    /// Local field of spin `i` after the entries up to `e` of its row.
    pub open spec fn field_upto(&self, s: Seq<i8>, i: int, e: int) -> T
        decreases e,
    {
        if e <= self.j.indptr@[i] {
            self.h@[i]
        } else {
            let x = self.j.entries@[e - 1];
            self.field_upto(s, i, e - 1).sum(x.value.product(spin_value::<T>(s[x.col as int])))
        }
    }

    /// Local field of spin `i`.
    pub open spec fn field_of(&self, s: Seq<i8>, i: int) -> T {
        self.field_upto(s, i, self.j.indptr@[i + 1] as int)
    }

    /// Local field of spin `i`.
    pub fn local_field(&self, i: usize, s: &Vec<i8>) -> (r: T)
        requires
            self.wf(),
            spins(s@, self.n as int),
            i < self.n,
        ensures
            r == self.field_of(s@, i as int),
    {
        let (from, to) = self.j.row(i);
        let mut l = self.h[i];
        let mut e: usize = from;
        while e < to
            invariant
                from <= e <= to <= self.j.entries@.len(),
                from == self.j.indptr@[i as int],
                to == self.j.indptr@[i + 1],
                i < self.n,
                self.wf(),
                spins(s@, self.n as int),
                l == self.field_upto(s@, i as int, e as int),
            decreases to - e,
        {
            let x = self.j.entries[e];
            assert(self.j.entries@[e as int].col < self.n);
            l = l.plus(x.value.times(spin_sample::<T>(s[x.col as usize])));
            e += 1;
        }
        l
    }

    /// Whether two spins are coupled.
    pub open spec fn coupled(&self, i: int, k: int) -> bool {
        exists|e: int|
            0 <= e < self.j.entries@.len() && (#[trigger] self.j.entries@[e]).row == i
                && self.j.entries@[e].col == k
    }
}

/// The local field of a spin depends only on the spins that it is coupled to.
pub proof fn field_is_local<T: Scalar>(m: &IsingModel<T>, s: Seq<i8>, t: Seq<i8>, i: int)
    requires
        m.wf(),
        0 <= i < m.n,
        s.len() == m.n,
        t.len() == m.n,
        forall|k: int| 0 <= k < m.n && m.coupled(i, k) ==> #[trigger] s[k] == t[k],
    ensures
        m.field_of(s, i) == m.field_of(t, i),
{
    lemma_runs_follow(m.j.entries@, m.n as int, m.j.indptr@, i, i + 1);
    lemma_field_is_local(m, s, t, i, m.j.indptr@[i + 1] as int);
}

proof fn lemma_field_is_local<T: Scalar>(
    m: &IsingModel<T>,
    s: Seq<i8>,
    t: Seq<i8>,
    i: int,
    e: int,
)
    requires
        m.wf(),
        0 <= i < m.n,
        s.len() == m.n,
        t.len() == m.n,
        e <= m.j.indptr@[i + 1],
        m.j.indptr@[i + 1] <= m.j.entries@.len(),
        forall|k: int| 0 <= k < m.n && m.coupled(i, k) ==> #[trigger] s[k] == t[k],
    ensures
        m.field_upto(s, i, e) == m.field_upto(t, i, e),
    decreases e,
{
    if e > m.j.indptr@[i] {
        lemma_field_is_local(m, s, t, i, e - 1);
        row_holds_own_entries(&m.j, i, e - 1);
        let x = m.j.entries@[e - 1];
        assert(m.coupled(i, x.col as int));
        assert(s[x.col as int] == t[x.col as int]);
    }
}

} // verus!
