//! Fidelity between single-mode Gaussian states, in closed form.

use crate::gaussian::state::GaussianState;
use crate::matrix::Matrix;
use crate::scalar::Scalar;
use vstd::prelude::*;

verus! {

/// Determinant of [[a, b], [c, d]].
pub open spec fn det<T: Scalar>(a: T, b: T, c: T, d: T) -> T {
    a.product(d).difference(b.product(c))
}

/// Determinant of a 2x2 matrix.
pub open spec fn det_of<T: Scalar>(m: &Matrix<T>) -> T {
    det(m.at(0, 0), m.at(0, 1), m.at(1, 0), m.at(1, 1))
}

/// Determinant of the sum of two covariances.
pub open spec fn joint_det<T: Scalar>(x: &Matrix<T>, y: &Matrix<T>) -> T {
    det(
        x.at(0, 0).sum(y.at(0, 0)),
        x.at(0, 1).sum(y.at(0, 1)),
        x.at(1, 0).sum(y.at(1, 0)),
        x.at(1, 1).sum(y.at(1, 1)),
    )
}

/// Product of both determinants less one, not below zero.
pub open spec fn excess<T: Scalar>(x: &Matrix<T>, y: &Matrix<T>) -> T {
    let one = T::of_count(1);
    let e = det_of(x).difference(one).product(det_of(y).difference(one));
    if e.at_least(T::zero_value()) {
        e
    } else {
        T::zero_value()
    }
}

/// Distance of the means, measured by the inverse of the summed covariances.
pub open spec fn distance<T: Scalar>(a: &GaussianState<T>, b: &GaussianState<T>) -> T {
    let d0 = b.mean@[0].difference(a.mean@[0]);
    let d1 = b.mean@[1].difference(a.mean@[1]);
    let (s00, s01, s11) = (
        a.cov.at(0, 0).sum(b.cov.at(0, 0)),
        a.cov.at(0, 1).sum(b.cov.at(0, 1)),
        a.cov.at(1, 1).sum(b.cov.at(1, 1)),
    );
    s11.product(d0).product(d0).difference(
        T::of_count(2).product(s01).product(d0).product(d1),
    ).sum(s00.product(d1).product(d1)).quotient(joint_det(&a.cov, &b.cov))
}

/// The closed form, from the exponential and the two roots it holds:
/// 2.e / (root of joint determinant and excess - root of excess).
pub open spec fn fidelity_from<T: Scalar, E: Fn(T) -> T, R: Fn(T) -> T>(
    a: &GaussianState<T>,
    b: &GaussianState<T>,
    half: T,
    exp: E,
    root: R,
    f: T,
    by: (T, T, T),
) -> bool {
    let (e, r1, r2) = by;
    let small = excess(&a.cov, &b.cov);
    &&& call_ensures(exp, (half.negative().product(distance(a, b)),), e)
    &&& call_ensures(root, (joint_det(&a.cov, &b.cov).sum(small),), r1)
    &&& call_ensures(root, (small,), r2)
    &&& f == T::of_count(2).product(e).quotient(r1.difference(r2))
}

fn det_2x2<T: Scalar>(a: T, b: T, c: T, d: T) -> (r: T)
    ensures
        r == det(a, b, c, d),
{
    a.times(d).minus(b.times(c))
}

/// Fidelity between two single-mode states. `half` is one half.
pub fn fidelity_single_mode<T: Scalar, E: Fn(T) -> T, R: Fn(T) -> T>(
    a: &GaussianState<T>,
    b: &GaussianState<T>,
    half: T,
    exp: E,
    root: R,
) -> (f: T)
    requires
        a.wf(),
        b.wf(),
        a.modes() == 1,
        b.modes() == 1,
        forall|x: T| #[trigger] call_requires(exp, (x,)),
        forall|x: T| #[trigger] call_requires(root, (x,)),
    ensures
        exists|by: (T, T, T)| #[trigger] fidelity_from(a, b, half, exp, root, f, by),
{
    let (one, two) = (T::from_count(1), T::from_count(2));
    let x = a.mode_cov(0);
    let y = b.mode_cov(0);
    let (x00, x01, x10, x11) = (x.get(0, 0), x.get(0, 1), x.get(1, 0), x.get(1, 1));
    let (y00, y01, y10, y11) = (y.get(0, 0), y.get(0, 1), y.get(1, 0), y.get(1, 1));
    let (s00, s01, s10, s11) = (x00.plus(y00), x01.plus(y01), x10.plus(y10), x11.plus(y11));
    let joint = det_2x2(s00, s01, s10, s11);
    let e = det_2x2(x00, x01, x10, x11).minus(one).times(
        det_2x2(y00, y01, y10, y11).minus(one),
    );
    let small = if e.reaches(T::zero()) {
        e
    } else {
        T::zero()
    };
    let d0 = b.mean[0].minus(a.mean[0]);
    let d1 = b.mean[1].minus(a.mean[1]);
    let quad = s11.times(d0).times(d0).minus(two.times(s01).times(d0).times(d1)).plus(
        s00.times(d1).times(d1),
    ).over(joint);
    let g = exp(half.opposite().times(quad));
    let r1 = root(joint.plus(small));
    let r2 = root(small);
    let f = two.times(g).over(r1.minus(r2));
    assert(fidelity_from(a, b, half, exp, root, f, (g, r1, r2)));
    f
}

} // verus!
