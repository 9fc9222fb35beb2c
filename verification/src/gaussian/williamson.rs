//! Symplectic spectrum and the physicality check.
//!
//! A covariance is that of a quantum state exactly when its symplectic
//! eigenvalues are at least one. They are the square roots of the eigenvalues
//! of H.O.C.O^T.H, where H is the symmetric root of the covariance C and O the
//! symplectic form; the eigenvalues come in equal pairs.

use crate::gaussian::jacobi::{jacobi_eigh, Jacobi};
use crate::gaussian::state::{form_at, omega};
use crate::matrix::Matrix;
use crate::scalar::Scalar;
use vstd::prelude::*;

verus! {

/// What is not below zero.
pub open spec fn floored<T: Scalar>(x: T) -> T {
    if x.at_least(T::zero_value()) {
        x
    } else {
        T::zero_value()
    }
}

fn floor_at_zero<T: Scalar>(x: T) -> (r: T)
    ensures
        r == floored(x),
{
    if x.reaches(T::zero()) {
        x
    } else {
        T::zero()
    }
}

/// Sum over the first `n` eigenvectors of v(i, k) . root_k . v(j, k).
pub open spec fn blend<T: Scalar>(v: &Matrix<T>, roots: Seq<T>, i: int, j: int, n: int) -> T
    decreases n,
{
    if n <= 0 {
        T::zero_value()
    } else {
        blend(v, roots, i, j, n - 1).sum(
            v.at(i, n - 1).product(roots[n - 1]).product(v.at(j, n - 1)),
        )
    }
}

/// `h` is put together from the eigenvectors with these roots; the lower half
/// mirrors the upper.
pub open spec fn is_blend<T: Scalar>(h: &Matrix<T>, v: &Matrix<T>, roots: Seq<T>) -> bool {
    let n = v.rows as int;
    &&& h.shaped(n, n)
    &&& forall|i: int, j: int|
        0 <= i < n && 0 <= j < n ==> #[trigger] h.at(i, j) == (if i <= j {
            blend(v, roots, i, j, n)
        } else {
            blend(v, roots, j, i, n)
        })
}

fn blend_of<T: Scalar>(v: &Matrix<T>, roots: &Vec<T>, i: usize, j: usize) -> (r: T)
    requires
        v.wf(),
        v.rows == v.cols,
        roots@.len() == v.rows,
        i < v.rows,
        j < v.rows,
    ensures
        r == blend(v, roots@, i as int, j as int, v.rows as int),
{
    let n: usize = v.rows;
    let mut acc = T::zero();
    let mut k: usize = 0;
    while k < n
        invariant
            v.wf(),
            v.rows == v.cols,
            roots@.len() == v.rows,
            n == v.rows,
            i < n,
            j < n,
            k <= n,
            acc == blend(v, roots@, i as int, j as int, k as int),
        decreases n - k,
    {
        acc = acc.plus(v.get(i, k).times(roots[k]).times(v.get(j, k)));
        k += 1;
    }
    acc
}

/// Samples in order of rank.
pub open spec fn ascending<T: Scalar>(s: Seq<T>) -> bool {
    forall|i: int, j: int| 0 <= i <= j < s.len() ==> (#[trigger] s[i]).rank() <= (#[trigger] s[j]).rank()
}

/// The samples, the least first.
fn sorted<T: Scalar>(v: &Vec<T>) -> (r: Vec<T>)
    ensures
        ascending(r@),
        r@.to_multiset() == v@.to_multiset(),
        r@.len() == v@.len(),
{
    let n: usize = v.len();
    let mut out: Vec<T> = Vec::new();
    let mut k: usize = 0;
    assert(v@.take(0) =~= out@);
    while k < n
        invariant
            n == v@.len(),
            k <= n,
            out@.len() == k,
            ascending(out@),
            out@.to_multiset() == v@.take(k as int).to_multiset(),
        decreases n - k,
    {
        let x = v[k];
        let mut at: usize = k;
        while at > 0 && x.precedes(out[at - 1])
            invariant
                at <= k,
                out@.len() == k,
                ascending(out@),
                forall|i: int| at <= i < k ==> x.rank() < (#[trigger] out@[i]).rank(),
            ensures
                at <= k,
                at > 0 ==> out@[at - 1].rank() <= x.rank(),
                forall|i: int| at <= i < k ==> x.rank() < (#[trigger] out@[i]).rank(),
            decreases at,
        {
            at -= 1;
        }
        let ghost before = out@;
        out.insert(at, x);
        proof {
            broadcast use vstd::seq_lib::group_to_multiset_ensures;

            assert(out@.remove(at as int) =~= before);
            assert(out@[at as int] == x && out@.contains(x));
            assert(out@.to_multiset() =~= before.to_multiset().insert(x));
            assert(v@.take(k + 1) =~= v@.take(k as int).push(x));
            assert(out@.to_multiset() =~= v@.take(k + 1).to_multiset());
            assert forall|i: int, j: int| 0 <= i <= j < out@.len() implies (
            #[trigger] out@[i]).rank() <= (#[trigger] out@[j]).rank() by {
                if i < at {
                    assert(before[i].rank() <= before[at - 1].rank());
                }
                if i > at {
                    assert(out@[i] == before[i - 1]);
                }
                if j > at {
                    assert(out@[j] == before[j - 1]);
                }
            }
        }
        k += 1;
    }
    assert(v@.take(n as int) =~= v@);
    out
}

/// `m` is h.om.c.om^T.h.
pub open spec fn congruent<T: Scalar>(
    h: &Matrix<T>,
    om: &Matrix<T>,
    c: &Matrix<T>,
    m: &Matrix<T>,
    by: (Matrix<T>, Matrix<T>, Matrix<T>, Matrix<T>),
) -> bool {
    let (a, b, t, d) = by;
    &&& a.is_product(h, om)
    &&& b.is_product(&a, c)
    &&& t.is_transpose(om)
    &&& d.is_product(&b, &t)
    &&& m.is_product(&d, h)
}

/// The symplectic form as a matrix.
pub open spec fn is_form<T: Scalar>(om: &Matrix<T>, d: int) -> bool {
    &&& om.shaped(d, d)
    &&& forall|i: int, j: int|
        0 <= i < d && 0 <= j < d ==> #[trigger] om.at(i, j) == form_at::<T>(i, j)
}

impl<T: Scalar, R: Fn(T) -> T, M: Fn(T) -> T, S: Fn(T) -> T> Jacobi<T, R, M, S> {
    /// `roots` are the roots of the floored eigenvalues.
    pub open spec fn are_roots(&self, eig: Seq<T>, roots: Seq<T>) -> bool {
        &&& roots.len() == eig.len()
        &&& forall|k: int|
            0 <= k < eig.len() ==> call_ensures(
                self.root,
                (floored(eig[k]),),
                #[trigger] roots[k],
            )
    }

    pub open spec fn sqrt_from(
        &self,
        m: &Matrix<T>,
        h: &Matrix<T>,
        eig: Seq<T>,
        v: Matrix<T>,
        roots: Seq<T>,
    ) -> bool {
        self.is_eigen(m, eig, &v) && self.are_roots(eig, roots) && is_blend(h, &v, roots)
    }

    /// `h` is the symmetric root of `m`.
    pub open spec fn is_sqrt(&self, m: &Matrix<T>, h: &Matrix<T>) -> bool {
        exists|eig: Seq<T>, v: Matrix<T>, roots: Seq<T>|
            #[trigger] self.sqrt_from(m, h, eig, v, roots)
    }

    fn roots_of(&self, eig: &Vec<T>) -> (r: Vec<T>)
        requires
            self.ready(),
        ensures
            self.are_roots(eig@, r@),
    {
        let n: usize = eig.len();
        let mut roots: Vec<T> = Vec::new();
        let mut k: usize = 0;
        while k < n
            invariant
                self.ready(),
                n == eig@.len(),
                k <= n,
                roots@.len() == k,
                forall|i: int|
                    0 <= i < k ==> call_ensures(
                        self.root,
                        (floored(eig@[i]),),
                        #[trigger] roots@[i],
                    ),
            decreases n - k,
        {
            roots.push((self.root)(floor_at_zero(eig[k])));
            k += 1;
        }
        roots
    }

    /// What the spectrum is read from: the root of the covariance, the matrix
    /// whose eigenvalues count, those eigenvalues in order, and their roots.
    pub open spec fn spectrum_from(
        &self,
        cov: &Matrix<T>,
        nus: Seq<T>,
        half: T,
        h: Matrix<T>,
        m: Matrix<T>,
        order: Seq<T>,
        roots: Seq<T>,
    ) -> bool {
        &&& self.is_sqrt(cov, &h)
        &&& self.congruence(cov, &h, &m)
        &&& self.eigenvalues_in_order(&m, order)
        &&& self.are_roots(order, roots)
        &&& nus == Seq::new(
            (cov.rows / 2) as nat,
            |k: int| half.product(roots[2 * k].sum(roots[2 * k + 1])),
        )
    }

    pub open spec fn congruence(&self, cov: &Matrix<T>, h: &Matrix<T>, m: &Matrix<T>) -> bool {
        exists|om: Matrix<T>, by: (Matrix<T>, Matrix<T>, Matrix<T>, Matrix<T>)|
            #[trigger] is_form(&om, cov.rows as int) && #[trigger] congruent(h, &om, cov, m, by)
    }

    pub open spec fn eigenvalues_in_order(&self, m: &Matrix<T>, order: Seq<T>) -> bool {
        exists|eig: Seq<T>, v: Matrix<T>|
            #[trigger] self.is_eigen(m, eig, &v) && ascending(order) && order.to_multiset()
                == eig.to_multiset()
    }

    /// `nus` are the symplectic eigenvalues of `cov`.
    pub open spec fn is_spectrum(&self, cov: &Matrix<T>, nus: Seq<T>, half: T) -> bool {
        exists|h: Matrix<T>, m: Matrix<T>, order: Seq<T>, roots: Seq<T>|
            #[trigger] self.spectrum_from(cov, nus, half, h, m, order, roots)
    }

    pub open spec fn is_margin(&self, cov: &Matrix<T>, half: T, start: T, margin: T) -> bool {
        exists|nus: Seq<T>|
            #[trigger] self.is_spectrum(cov, nus, half) && margin == least(
                nus,
                start,
                nus.len() as int,
            ).difference(T::of_count(1))
    }

}

/// The least of the first `n` samples and `start`, the first of equals.
pub open spec fn least<T: Scalar>(s: Seq<T>, start: T, n: int) -> T
    decreases n,
{
    if n <= 0 {
        start
    } else if s[n - 1].less_than(least(s, start, n - 1)) {
        s[n - 1]
    } else {
        least(s, start, n - 1)
    }
}

/// The least of the samples and `start`.
pub fn least_of<T: Scalar>(v: &Vec<T>, start: T) -> (r: T)
    ensures
        r == least(v@, start, v@.len() as int),
{
    let n: usize = v.len();
    let mut best = start;
    let mut k: usize = 0;
    while k < n
        invariant
            n == v@.len(),
            k <= n,
            best == least(v@, start, k as int),
        decreases n - k,
    {
        if v[k].below(best) {
            best = v[k];
        }
        k += 1;
    }
    best
}

/// Symmetric root of a symmetric matrix; eigenvalues below zero count as
/// zero.
pub fn sym_sqrt<T: Scalar, R: Fn(T) -> T, M: Fn(T) -> T, S: Fn(T) -> T>(
    m: &Matrix<T>,
    solver: &Jacobi<T, R, M, S>,
) -> (h: Matrix<T>)
    requires
        solver.ready(),
        m.wf(),
        m.rows == m.cols,
    ensures
        solver.is_sqrt(m, &h),
        h.shaped(m.rows as int, m.rows as int),
{
    let n: usize = m.rows;
    let size: usize = m.data.len();
    let (eig, v) = jacobi_eigh(m, solver);
    let roots = solver.roots_of(&eig);
    let entry = |i: usize, j: usize| -> (e: T)
        requires
            v.wf(),
            v.rows == v.cols,
            roots@.len() == v.rows,
            i < v.rows,
            j < v.rows,
        ensures
            e == (if i <= j {
                blend(&v, roots@, i as int, j as int, v.rows as int)
            } else {
                blend(&v, roots@, j as int, i as int, v.rows as int)
            }),
        {
            if i <= j {
                blend_of(&v, &roots, i, j)
            } else {
                blend_of(&v, &roots, j, i)
            }
        };
    let h = Matrix::build(n, n, entry);
    proof {
        assert forall|i: int, j: int| 0 <= i < n && 0 <= j < n implies #[trigger] h.at(i, j)
            == (if i <= j {
            blend(&v, roots@, i, j, n as int)
        } else {
            blend(&v, roots@, j, i, n as int)
        }) by {
            let e = h.at(i as usize as int, j as usize as int);
        }
        assert(solver.sqrt_from(m, &h, eig@, v, roots@));
    }
    h
}

/// Symplectic eigenvalues of a covariance, in order: each the mean of a
/// pair of roots. `half` is one half.
pub fn symplectic_eigenvalues<T: Scalar, R: Fn(T) -> T, M: Fn(T) -> T, S: Fn(T) -> T>(
    cov: &Matrix<T>,
    half: T,
    solver: &Jacobi<T, R, M, S>,
) -> (nus: Vec<T>)
    requires
        solver.ready(),
        cov.wf(),
        cov.rows == cov.cols,
        cov.rows % 2 == 0,
    ensures
        solver.is_spectrum(cov, nus@, half),
        nus@.len() == cov.rows / 2,
{
    let size: usize = cov.data.len();
    let n: usize = cov.rows / 2;
    let om = omega::<T>(n);
    let h = sym_sqrt(cov, solver);
    let a = h.matmul(&om);
    let b = a.matmul(cov);
    let t = om.transpose();
    let d = b.matmul(&t);
    let m = d.matmul(&h);
    let (eig, v) = jacobi_eigh(&m, solver);
    let order = sorted(&eig);
    let roots = solver.roots_of(&order);
    let mut nus: Vec<T> = Vec::new();
    let mut k: usize = 0;
    while k < n
        invariant
            k <= n,
            2 * n == cov.rows,
            roots@.len() == 2 * n,
            nus@ == Seq::new(
                k as nat,
                |i: int| half.product(roots@[2 * i].sum(roots@[2 * i + 1])),
            ),
        decreases n - k,
    {
        nus.push(half.times(roots[2 * k].plus(roots[2 * k + 1])));
        assert(nus@ =~= Seq::new(
            (k + 1) as nat,
            |i: int| half.product(roots@[2 * i].sum(roots@[2 * i + 1])),
        ));
        k += 1;
    }
    proof {
        assert(is_form(&om, cov.rows as int));
        assert(congruent(&h, &om, cov, &m, (a, b, t, d)));
        assert(solver.is_eigen(&m, eig@, &v));
        assert(solver.eigenvalues_in_order(&m, order@));
        assert(solver.spectrum_from(cov, nus@, half, h, m, order@, roots@));
    }
    nus
}

/// The least symplectic eigenvalue, less one. `start` bounds them all from
/// above.
pub fn physicality_margin<T: Scalar, R: Fn(T) -> T, M: Fn(T) -> T, S: Fn(T) -> T>(
    cov: &Matrix<T>,
    half: T,
    start: T,
    solver: &Jacobi<T, R, M, S>,
) -> (r: T)
    requires
        solver.ready(),
        cov.wf(),
        cov.rows == cov.cols,
        cov.rows % 2 == 0,
    ensures
        solver.is_margin(cov, half, start, r),
{
    let nus = symplectic_eigenvalues(cov, half, solver);
    let least = least_of(&nus, start);
    least.minus(T::from_count(1))
}

/// `r` tells whether a covariance is that of a quantum state, to within `tol`.
pub open spec fn is_judged<T: Scalar, R: Fn(T) -> T, M: Fn(T) -> T, S: Fn(T) -> T>(
    cov: &Matrix<T>,
    half: T,
    start: T,
    tol: T,
    solver: &Jacobi<T, R, M, S>,
    r: bool,
) -> bool {
    exists|margin: T|
        #[trigger] solver.is_margin(cov, half, start, margin) && r == margin.at_least(
            tol.negative(),
        )
}

/// Whether a covariance is that of a quantum state, to within `tol`.
pub fn is_physical<T: Scalar, R: Fn(T) -> T, M: Fn(T) -> T, S: Fn(T) -> T>(
    cov: &Matrix<T>,
    half: T,
    start: T,
    tol: T,
    solver: &Jacobi<T, R, M, S>,
) -> (r: bool)
    requires
        solver.ready(),
        cov.wf(),
        cov.rows == cov.cols,
        cov.rows % 2 == 0,
    ensures
        exists|margin: T|
            #[trigger] solver.is_margin(cov, half, start, margin) && r == margin.at_least(
                tol.negative(),
            ),
        is_judged(cov, half, start, tol, solver, r),
{
    let margin = physicality_margin(cov, half, start, solver);
    margin.reaches(tol.opposite())
}

} // verus!
