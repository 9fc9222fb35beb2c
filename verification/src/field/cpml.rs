//! Coefficients of the convolutional perfectly matched layer.
//!
//! Inside a layer the stretching factor, the conductivity and the frequency
//! shift are graded with the depth `r` (0 at the interface, 1 at the wall):
//!
//! ```text
//!   sigma = sigma_max.r^m     kappa = 1 + (kappa_max - 1).r^m
//!   alpha = alpha_max.(1 - r)
//!   b = exp[-(sigma/kappa + alpha).dt]
//!   c = sigma.(b - 1) / [kappa.(sigma + kappa.alpha)]
//! ```
//!
//! Outside the layers they are inert: 1/kappa = b = 1 and c = 0. The power and
//! the exponential come in as functions.

use crate::field::grid3::{AxisTables, CpmlTables};
use crate::scalar::Scalar;
use vstd::prelude::*;

verus! {

/// Grading of the layers.
#[derive(Debug, Clone, Copy)]
pub struct CpmlParams<T> {
    /// Grading order.
    pub m: T,
    /// Multiplier on the near-optimal conductivity.
    pub sigma_scale: T,
    /// Near-optimal conductivity per unit of `m + 1`.
    pub sigma_unit: T,
    pub kappa_max: T,
    pub alpha_max: T,
}

/// The larger of two samples; the second where they cannot be compared.
pub open spec fn larger<T: Scalar>(a: T, b: T) -> T {
    if a.at_least(b) {
        a
    } else {
        b
    }
}

fn max_of<T: Scalar>(a: T, b: T) -> (r: T)
    ensures
        r == larger(a, b),
{
    if a.reaches(b) {
        a
    } else {
        b
    }
}

/// Depth of a position in the layers of an axis with `n` points: how far it
/// lies beyond the nearer interface, nothing between them.
pub open spec fn depth<T: Scalar>(pos: T, n: usize, npml: usize) -> T {
    let d = T::of_count(npml as u64);
    let far = T::of_count(n as u64).difference(T::of_count(1)).difference(d);
    larger(larger(d.difference(pos), pos.difference(far)), T::zero_value())
}

/// Relative depth, at most one.
pub open spec fn rel_depth<T: Scalar>(pos: T, n: usize, npml: usize) -> T {
    let r = depth(pos, n, npml).quotient(T::of_count(npml as u64));
    if T::of_count(1).at_least(r) {
        r
    } else {
        T::of_count(1)
    }
}

impl<T: Scalar> CpmlParams<T> {
    /// Conductivity where the graded power is `g`.
    pub open spec fn sigma(&self, g: T) -> T {
        self.sigma_scale.product(self.sigma_unit).product(self.m.sum(T::of_count(1))).product(g)
    }

    /// Stretching factor where the graded power is `g`.
    pub open spec fn kappa(&self, g: T) -> T {
        T::of_count(1).sum(self.kappa_max.difference(T::of_count(1)).product(g))
    }

    /// Frequency shift at relative depth `r`.
    pub open spec fn alpha(&self, r: T) -> T {
        self.alpha_max.product(T::of_count(1).difference(r))
    }

    /// What the exponential is taken of.
    pub open spec fn exponent(&self, r: T, g: T, dt: T) -> T {
        self.sigma(g).quotient(self.kappa(g)).sum(self.alpha(r)).negative().product(dt)
    }

    /// Coefficients at relative depth `r` with graded power `g` and decay `b`.
    pub open spec fn inside(&self, r: T, g: T, b: T) -> (T, T, T) {
        let (sigma, kappa) = (self.sigma(g), self.kappa(g));
        let denom = kappa.product(sigma.sum(kappa.product(self.alpha(r))));
        let c = if T::zero_value().less_than(sigma) && T::zero_value().less_than(denom) {
            sigma.product(b.difference(T::of_count(1))).quotient(denom)
        } else {
            T::zero_value()
        };
        (T::of_count(1).quotient(kappa), b, c)
    }

    /// Whether `k` are the coefficients at a position: inert outside the
    /// layers, graded inside.
    pub open spec fn coefficients<P: Fn(T) -> T, E: Fn(T) -> T>(
        &self,
        pos: T,
        n: usize,
        npml: usize,
        dt: T,
        power: P,
        exp: E,
        k: (T, T, T),
    ) -> bool {
        if npml == 0 || T::zero_value().at_least(depth(pos, n, npml)) {
            k == (T::of_count(1), T::of_count(1), T::zero_value())
        } else {
            let r = rel_depth(pos, n, npml);
            exists|g: T, b: T|
                #![trigger self.inside(r, g, b)]
                call_ensures(power, (r,), g) && call_ensures(exp, (self.exponent(r, g, dt),), b)
                    && k == self.inside(r, g, b)
        }
    }

    /// Coefficients (1/kappa, b, c) at a position along an axis with `n`
    /// points; `power` raises a relative depth to the grading order.
    pub fn coeffs<P: Fn(T) -> T, E: Fn(T) -> T>(
        &self,
        pos: T,
        n: usize,
        npml: usize,
        dt: T,
        power: &P,
        exp: &E,
    ) -> (k: (T, T, T))
        requires
            forall|x: T| #[trigger] call_requires(power, (x,)),
            forall|x: T| #[trigger] call_requires(exp, (x,)),
        ensures
            self.coefficients(pos, n, npml, dt, *power, *exp, k),
    {
        let one = T::from_count(1);
        let zero = T::zero();
        if npml == 0 {
            return (one, one, zero);
        }
        let d = T::from_count(npml as u64);
        let far = T::from_count(n as u64).minus(one).minus(d);
        let deep = max_of(max_of(d.minus(pos), pos.minus(far)), zero);
        if zero.reaches(deep) {
            return (one, one, zero);
        }
        let mut r = deep.over(d);
        if !one.reaches(r) {
            r = one;
        }
        let g = power(r);
        let sigma = self.sigma_scale.times(self.sigma_unit).times(self.m.plus(one)).times(g);
        let kappa = one.plus(self.kappa_max.minus(one).times(g));
        let alpha = self.alpha_max.times(one.minus(r));
        let b = exp(sigma.over(kappa).plus(alpha).opposite().times(dt));
        let denom = kappa.times(sigma.plus(kappa.times(alpha)));
        let c = if zero.below(sigma) && zero.below(denom) {
            sigma.times(b.minus(one)).over(denom)
        } else {
            zero
        };
        let k = (one.over(kappa), b, c);
        assert(r == rel_depth(pos, n, npml));
        assert(call_ensures(*power, (r,), g));
        assert(call_ensures(*exp, (self.exponent(r, g, dt),), b));
        assert(k == self.inside(r, g, b));
        k
    }

    /// One entry per position `i + offset`.
    pub open spec fn tabulates<P: Fn(T) -> T, E: Fn(T) -> T>(
        &self,
        t: AxisTables<T>,
        len: int,
        offset: Option<T>,
        n: usize,
        npml: usize,
        dt: T,
        power: P,
        exp: E,
    ) -> bool {
        &&& t.covers(len)
        &&& forall|i: int|
            0 <= i < len ==> self.coefficients(
                station(i, offset),
                n,
                npml,
                dt,
                power,
                exp,
                (#[trigger] t.inv_k@[i], t.b@[i], t.c@[i]),
            )
    }

    fn table<P: Fn(T) -> T, E: Fn(T) -> T>(
        &self,
        len: usize,
        offset: Option<T>,
        n: usize,
        npml: usize,
        dt: T,
        power: &P,
        exp: &E,
    ) -> (t: AxisTables<T>)
        requires
            forall|x: T| #[trigger] call_requires(power, (x,)),
            forall|x: T| #[trigger] call_requires(exp, (x,)),
        ensures
            self.tabulates(t, len as int, offset, n, npml, dt, *power, *exp),
    {
        let mut inv_k: Vec<T> = Vec::new();
        let mut b: Vec<T> = Vec::new();
        let mut c: Vec<T> = Vec::new();
        let mut i: usize = 0;
        while i < len
            invariant
                i <= len,
                inv_k@.len() == i,
                b@.len() == i,
                c@.len() == i,
                forall|x: T| #[trigger] call_requires(power, (x,)),
                forall|x: T| #[trigger] call_requires(exp, (x,)),
                forall|m: int|
                    0 <= m < i ==> self.coefficients(
                        station(m, offset),
                        n,
                        npml,
                        dt,
                        *power,
                        *exp,
                        (#[trigger] inv_k@[m], b@[m], c@[m]),
                    ),
            decreases len - i,
        {
            let pos = match offset {
                Some(h) => T::from_count(i as u64).plus(h),
                None => T::from_count(i as u64),
            };
            let k = self.coeffs(pos, n, npml, dt, power, exp);
            inv_k.push(k.0);
            b.push(k.1);
            c.push(k.2);
            i += 1;
        }
        AxisTables { inv_k, b, c }
    }

    /// Coefficients of an axis with `n` points, at its integer positions and,
    /// `half` a cell further, at its half positions.
    pub fn axis<P: Fn(T) -> T, E: Fn(T) -> T>(
        &self,
        n: usize,
        npml: usize,
        dt: T,
        half: T,
        power: &P,
        exp: &E,
    ) -> (t: CpmlTables<T>)
        requires
            n >= 1,
            forall|x: T| #[trigger] call_requires(power, (x,)),
            forall|x: T| #[trigger] call_requires(exp, (x,)),
        ensures
            self.tabulates(t.e, n as int, None, n, npml, dt, *power, *exp),
            self.tabulates(t.h, n - 1, Some(half), n, npml, dt, *power, *exp),
    {
        CpmlTables {
            e: self.table(n, None, n, npml, dt, power, exp),
            h: self.table(n - 1, Some(half), n, npml, dt, power, exp),
        }
    }
}

/// Position of entry `i` of a table.
pub open spec fn station<T: Scalar>(i: int, offset: Option<T>) -> T {
    match offset {
        Some(h) => T::of_count(i as u64).sum(h),
        None => T::of_count(i as u64),
    }
}

} // verus!
