//! Complex samples.

use crate::scalar::Scalar;
use vstd::prelude::*;

verus! {

/// A complex sample.
#[derive(Debug, Clone, Copy)]
pub struct Cx<T> {
    pub re: T,
    pub im: T,
}

impl<T: Scalar> Cx<T> {
    pub open spec fn nought() -> Cx<T> {
        Cx { re: T::zero_value(), im: T::zero_value() }
    }

    pub open spec fn unit() -> Cx<T> {
        Cx { re: T::of_count(1), im: T::zero_value() }
    }

    pub open spec fn sum(self, rhs: Cx<T>) -> Cx<T> {
        Cx { re: self.re.sum(rhs.re), im: self.im.sum(rhs.im) }
    }

    pub open spec fn difference(self, rhs: Cx<T>) -> Cx<T> {
        Cx { re: self.re.difference(rhs.re), im: self.im.difference(rhs.im) }
    }

    pub open spec fn product(self, rhs: Cx<T>) -> Cx<T> {
        Cx {
            re: self.re.product(rhs.re).difference(self.im.product(rhs.im)),
            im: self.re.product(rhs.im).sum(self.im.product(rhs.re)),
        }
    }

    pub open spec fn scaled(self, by: T) -> Cx<T> {
        Cx { re: self.re.product(by), im: self.im.product(by) }
    }

    pub open spec fn mirrored(self) -> Cx<T> {
        Cx { re: self.re, im: self.im.negative() }
    }

    pub open spec fn negated(self) -> Cx<T> {
        Cx { re: self.re.negative(), im: self.im.negative() }
    }

    /// Squared length.
    pub open spec fn power(self) -> T {
        self.re.product(self.re).sum(self.im.product(self.im))
    }

    /// The sample of length `r` in the direction `unit`.
    pub open spec fn polar(r: T, unit: Cx<T>) -> Cx<T> {
        Cx { re: r.product(unit.re), im: r.product(unit.im) }
    }

    pub fn zero() -> (r: Cx<T>)
        ensures
            r == Cx::<T>::nought(),
    {
        Cx { re: T::zero(), im: T::zero() }
    }

    pub fn one() -> (r: Cx<T>)
        ensures
            r == Cx::<T>::unit(),
    {
        Cx { re: T::from_count(1), im: T::zero() }
    }

    pub fn plus(self, rhs: Cx<T>) -> (r: Cx<T>)
        ensures
            r == self.sum(rhs),
    {
        Cx { re: self.re.plus(rhs.re), im: self.im.plus(rhs.im) }
    }

    pub fn minus(self, rhs: Cx<T>) -> (r: Cx<T>)
        ensures
            r == self.difference(rhs),
    {
        Cx { re: self.re.minus(rhs.re), im: self.im.minus(rhs.im) }
    }

    pub fn times(self, rhs: Cx<T>) -> (r: Cx<T>)
        ensures
            r == self.product(rhs),
    {
        Cx {
            re: self.re.times(rhs.re).minus(self.im.times(rhs.im)),
            im: self.re.times(rhs.im).plus(self.im.times(rhs.re)),
        }
    }

    pub fn scale(self, by: T) -> (r: Cx<T>)
        ensures
            r == self.scaled(by),
    {
        Cx { re: self.re.times(by), im: self.im.times(by) }
    }

    /// Complex conjugate.
    pub fn conj(self) -> (r: Cx<T>)
        ensures
            r == self.mirrored(),
    {
        Cx { re: self.re, im: self.im.opposite() }
    }

    pub fn opposite(self) -> (r: Cx<T>)
        ensures
            r == self.negated(),
    {
        Cx { re: self.re.opposite(), im: self.im.opposite() }
    }

    /// Squared length.
    pub fn norm_sq(self) -> (r: T)
        ensures
            r == self.power(),
    {
        self.re.times(self.re).plus(self.im.times(self.im))
    }

    /// The sample of length `r` in the direction `unit`.
    pub fn from_polar(r: T, unit: Cx<T>) -> (x: Cx<T>)
        ensures
            x == Cx::polar(r, unit),
    {
        Cx { re: r.times(unit.re), im: r.times(unit.im) }
    }
}

} // verus!
