//! Homodyne and heterodyne measurements.
//!
//! Given the outcome `m` of the quadrature `q`, the other modes are
//! conditioned by the Schur complement of its variance:
//!
//! ```text
//!   mean_A <- mean_A + cov_Aq.(m - mean_q)/cov_qq
//!   cov_AA <- cov_AA - cov_Aq.cov_Aq/cov_qq
//! ```
//!
//! and the measured mode is dropped.

use crate::gaussian::state::{GaussianState, Turn};
use crate::matrix::Matrix;
use crate::scalar::Scalar;
use vstd::prelude::*;

verus! {

/// The quadrature that stands at place `a` once mode `mode` is dropped.
pub open spec fn kept(mode: int, a: int) -> int {
    if a < 2 * mode {
        a
    } else {
        a + 2
    }
}

impl<T: Scalar> GaussianState<T> {
    /// Mean and variance of the quadrature at an angle, from the sine and
    /// cosine of the angle.
    pub open spec fn marginal(&self, mode: int, t: Turn<T>) -> (T, T) {
        let (x, p) = (2 * mode, 2 * mode + 1);
        let mean = t.cos.product(self.mean@[x]).sum(t.sin.product(self.mean@[p]));
        let var = t.cos.product(t.cos).product(self.cov.at(x, x)).sum(
            T::of_count(2).product(t.cos).product(t.sin).product(self.cov.at(x, p)),
        ).sum(t.sin.product(t.sin).product(self.cov.at(p, p)));
        (mean, var)
    }

    /// Mean and variance of the quadrature at an angle.
    pub fn homodyne_marginal(&self, mode: usize, t: Turn<T>) -> (r: (T, T))
        requires
            self.wf(),
            mode < self.modes(),
        ensures
            r == self.marginal(mode as int, t),
    {
        let n: usize = self.mean.len();
        let (x, p): (usize, usize) = (2 * mode, 2 * mode + 1);
        let mean = t.cos.times(self.mean[x]).plus(t.sin.times(self.mean[p]));
        let var = t.cos.times(t.cos).times(self.cov.get(x, x)).plus(
            T::from_count(2).times(t.cos).times(t.sin).times(self.cov.get(x, p)),
        ).plus(t.sin.times(t.sin).times(self.cov.get(p, p)));
        (mean, var)
    }

    /// `after` is `self` conditioned on the outcome `m` of the first
    /// quadrature of `mode`, without that mode.
    pub open spec fn conditioned(&self, mode: int, m: T, after: &Self) -> bool {
        let q = 2 * mode;
        let n = self.mean@.len() as int;
        let var = self.cov.at(q, q);
        let gain = m.difference(self.mean@[q]).quotient(var);
        &&& after.mean@ == Seq::new(
            (n - 2) as nat,
            |a: int|
                self.mean@[kept(mode, a)].sum(self.cov.at(kept(mode, a), q).product(gain)),
        )
        &&& after.cov.shaped(n - 2, n - 2)
        &&& forall|a: int, b: int|
            0 <= a < n - 2 && 0 <= b < n - 2 ==> #[trigger] after.cov.at(a, b) == self.cov.at(
                kept(mode, a),
                kept(mode, b),
            ).difference(
                self.cov.at(kept(mode, a), q).product(self.cov.at(kept(mode, b), q)).quotient(var),
            )
    }

    /// Conditions on the outcome `m` of the first quadrature of `mode` and
    /// drops the mode. The variance of that quadrature must be positive.
    pub fn project(&mut self, mode: usize, m: T)
        requires
            old(self).wf(),
            mode < old(self).modes(),
            T::zero_value().less_than(old(self).cov.at(2 * mode, 2 * mode)),
        ensures
            final(self).wf(),
            final(self).modes() == old(self).modes() - 1,
            old(self).conditioned(mode as int, m, final(self)),
    {
        let n: usize = self.mean.len();
        let size: usize = self.cov.data.len();
        let q: usize = 2 * mode;
        let var = self.cov.get(q, q);
        let gain = m.minus(self.mean[q]).over(var);
        let mut mean: Vec<T> = Vec::new();
        let mut a: usize = 0;
        while a < n - 2
            invariant
                self.wf(),
                n == self.mean@.len(),
                n >= 2,
                q == 2 * mode,
                q + 1 < n,
                a <= n - 2,
                mean@.len() == a,
                forall|k: int|
                    0 <= k < a ==> #[trigger] mean@[k] == self.mean@[kept(mode as int, k)].sum(
                        self.cov.at(kept(mode as int, k), q as int).product(gain),
                    ),
            decreases n - 2 - a,
        {
            let j: usize = if a < q {
                a
            } else {
                a + 2
            };
            mean.push(self.mean[j].plus(self.cov.get(j, q).times(gain)));
            a += 1;
        }
        let st: &Self = self;
        proof {
            assert((n - 2) * (n - 2) <= n * n) by (nonlinear_arith)
                requires
                    n >= 2,
            ;
        }
        let entry = |a: usize, b: usize| -> (e: T)
            requires
                st.wf(),
                q == 2 * mode,
                q + 1 < n,
                n == st.mean@.len(),
                a < n - 2,
                b < n - 2,
                var == st.cov.at(q as int, q as int),
            ensures
                e == st.cov.at(kept(mode as int, a as int), kept(mode as int, b as int)).difference(
                    st.cov.at(kept(mode as int, a as int), q as int).product(
                        st.cov.at(kept(mode as int, b as int), q as int),
                    ).quotient(var),
                ),
            {
                let ja: usize = if a < q {
                    a
                } else {
                    a + 2
                };
                let jb: usize = if b < q {
                    b
                } else {
                    b + 2
                };
                st.cov.get(ja, jb).minus(st.cov.get(ja, q).times(st.cov.get(jb, q)).over(var))
            };
        let cov = Matrix::build(n - 2, n - 2, entry);
        proof {
            assert forall|a: int, b: int|
                0 <= a < n - 2 && 0 <= b < n - 2 implies #[trigger] cov.at(a, b) == st.cov.at(
                kept(mode as int, a),
                kept(mode as int, b),
            ).difference(
                st.cov.at(kept(mode as int, a), q as int).product(
                    st.cov.at(kept(mode as int, b), q as int),
                ).quotient(var),
            ) by {
                let e = cov.at(a as usize as int, b as usize as int);
            }
            assert(mean@ =~= Seq::new(
                (n - 2) as nat,
                |a: int|
                    st.mean@[kept(mode as int, a)].sum(
                        st.cov.at(kept(mode as int, a), q as int).product(gain),
                    ),
            ));
        }
        self.mean = mean;
        self.cov = cov;
    }

    /// What [`GaussianState::homodyne_project`] makes of the state: the mode is
    /// turned, and then, where the variance is positive, conditioned on and
    /// dropped.
    pub open spec fn measured(
        &self,
        mode: int,
        t: Option<Turn<T>>,
        m: T,
        r: bool,
        after: &Self,
    ) -> bool {
        exists|turned: Self| #[trigger] self.measured_by(mode, t, m, r, after, turned)
    }

    pub open spec fn measured_by(
        &self,
        mode: int,
        t: Option<Turn<T>>,
        m: T,
        r: bool,
        after: &Self,
        turned: Self,
    ) -> bool {
        &&& match t {
            Some(x) => self.rotated(mode, x, &turned),
            None => turned == *self,
        }
        &&& turned.modes() == self.modes()
        &&& r == T::zero_value().less_than(turned.cov.at(2 * mode, 2 * mode))
        &&& if r {
            after.modes() == self.modes() - 1 && turned.conditioned(mode, m, after)
        } else {
            *after == turned
        }
    }

    /// Conditions on the outcome `m` of the quadrature at an angle (`None`:
    /// the first quadrature) and drops the mode. Where the variance of that
    /// quadrature is not positive there is nothing to condition on: the mode
    /// is only turned, and the answer is `false`.
    pub fn homodyne_project(&mut self, mode: usize, t: Option<Turn<T>>, m: T) -> (r: bool)
        requires
            old(self).wf(),
            mode < old(self).modes(),
        ensures
            final(self).wf(),
            old(self).measured(mode as int, t, m, r, final(self)),
    {
        if let Some(x) = t {
            self.rotate(mode, x);
        }
        let ghost turned = *self;
        let n: usize = self.mean.len();
        let var = self.cov.get(2 * mode, 2 * mode);
        assert(var == turned.cov.at(2 * mode, 2 * mode));
        let positive = T::zero().below(var);
        if positive {
            self.project(mode, m);
        }
        assert(old(self).measured_by(mode as int, t, m, positive, self, turned));
        positive
    }

    /// Means of the two heterodyne outcomes, and their covariance: xx, xp, pp.
    pub open spec fn heterodyned(&self, mode: int) -> ((T, T), (T, T, T)) {
        let (x, p) = (2 * mode, 2 * mode + 1);
        let one = T::of_count(1);
        (
            (self.mean@[x], self.mean@[p]),
            (self.cov.at(x, x).sum(one), self.cov.at(x, p), self.cov.at(p, p).sum(one)),
        )
    }

    /// Mean of the two heterodyne outcomes of a mode, and their covariance:
    /// that of the mode with one unit of vacuum noise on each quadrature.
    pub fn heterodyne_marginal(&self, mode: usize) -> (r: ((T, T), (T, T, T)))
        requires
            self.wf(),
            mode < self.modes(),
        ensures
            r == self.heterodyned(mode as int),
            r.0 == (self.mean@[2 * mode], self.mean@[2 * mode + 1]),
            r.1 == (
                self.cov.at(2 * mode, 2 * mode).sum(T::of_count(1)),
                self.cov.at(2 * mode, 2 * mode + 1),
                self.cov.at(2 * mode + 1, 2 * mode + 1).sum(T::of_count(1)),
            ),
    {
        let n: usize = self.mean.len();
        let (x, p): (usize, usize) = (2 * mode, 2 * mode + 1);
        let one = T::from_count(1);
        (
            (self.mean[x], self.mean[p]),
            (self.cov.get(x, x).plus(one), self.cov.get(x, p), self.cov.get(p, p).plus(one)),
        )
    }
}

/// The quadratures that stay are exactly those of the other modes, in order.
pub proof fn other_modes_stay(n: int, mode: int, a: int, j: int)
    requires
        0 <= mode < n,
        0 <= a < 2 * (n - 1),
        0 <= j < 2 * n,
    ensures
        0 <= kept(mode, a) < 2 * n,
        kept(mode, a) / 2 != mode,
        forall|b: int| a < b ==> kept(mode, a) < kept(mode, b),
        j / 2 != mode ==> exists|b: int| 0 <= b < 2 * (n - 1) && #[trigger] kept(mode, b) == j,
{
    if j / 2 != mode {
        let b = if j < 2 * mode {
            j
        } else {
            j - 2
        };
        assert(kept(mode, b) == j);
    }
}

} // verus!
