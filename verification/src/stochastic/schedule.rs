//! Inverse temperatures: annealing schedules and replica ladders.

use crate::scalar::Scalar;
use crate::stochastic::exec::{schedule_ladder, Ladder};
use vstd::prelude::*;

verus! {

/// `r` lies between `lo` and `hi` at fraction `t`: on a straight line, or
/// `lo` times the ratio of the ends to the power of `t`.
pub open spec fn between<T: Scalar, P: Fn(T, T) -> T>(
    lo: T,
    hi: T,
    t: T,
    ladder: Ladder,
    pow: P,
    r: T,
) -> bool {
    match ladder {
        Ladder::Linear => r == lo.sum(hi.difference(lo).product(t)),
        Ladder::Geometric => exists|p: T|
            #[trigger] call_ensures(pow, (hi.quotient(lo), t), p) && r == lo.product(p),
    }
}

fn interpolate<T: Scalar, P: Fn(T, T) -> T>(lo: T, hi: T, t: T, ladder: Ladder, pow: &P) -> (r: T)
    requires
        forall|x: T, y: T| #[trigger] call_requires(pow, (x, y)),
    ensures
        between(lo, hi, t, ladder, *pow, r),
{
    match ladder {
        Ladder::Linear => lo.plus(hi.minus(lo).times(t)),
        Ladder::Geometric => {
            let p = pow(hi.over(lo), t);
            assert(call_ensures(*pow, (hi.quotient(lo), t), p));
            lo.times(p)
        },
    }
}

/// Annealing schedule: the inverse temperature moves from `beta0` to `beta1`.
pub struct Schedule<T> {
    pub sweeps: u64,
    pub beta0: T,
    pub beta1: T,
    /// `linear`, or geometric for any other.
    pub kind: String,
}

impl<T: Scalar> Schedule<T> {
    pub open spec fn ladder(&self) -> Ladder {
        if self.kind@ == "linear"@ {
            Ladder::Linear
        } else {
            Ladder::Geometric
        }
    }

    /// `beta` is the inverse temperature of a sweep. A schedule of at most one
    /// sweep is at its end.
    pub open spec fn is_beta<P: Fn(T, T) -> T>(&self, sweep: u64, pow: P, beta: T) -> bool {
        if self.sweeps <= 1 {
            beta == self.beta1
        } else {
            between(
                self.beta0,
                self.beta1,
                T::of_count(sweep).quotient(T::of_count((self.sweeps - 1) as u64)),
                self.ladder(),
                pow,
                beta,
            )
        }
    }

    /// Inverse temperature of a sweep; `pow` raises to a power.
    pub fn beta_at<P: Fn(T, T) -> T>(&self, sweep: u64, pow: &P) -> (beta: T)
        requires
            forall|x: T, y: T| #[trigger] call_requires(pow, (x, y)),
        ensures
            self.is_beta(sweep, *pow, beta),
    {
        if self.sweeps <= 1 {
            return self.beta1;
        }
        let t = T::from_count(sweep).over(T::from_count(self.sweeps - 1));
        interpolate(self.beta0, self.beta1, t, schedule_ladder(self.kind.as_str()), pow)
    }
}

/// Replica-exchange configuration.
#[derive(Debug, Clone, Copy)]
pub struct TemperingSpec<T> {
    /// Rungs of the ladder.
    pub replicas: usize,
    /// Inverse temperature of the hottest rung, the first.
    pub beta_min: T,
    /// Inverse temperature of the coldest rung, the last.
    pub beta_max: T,
    /// Sweeps between exchange rounds.
    pub swap_interval: u64,
    pub ladder: Ladder,
}

impl<T: Scalar> TemperingSpec<T> {
    /// At least one rung, and ends in order above zero.
    pub open spec fn valid(&self) -> bool {
        &&& self.replicas >= 1
        &&& T::zero_value().less_than(self.beta_min)
        &&& self.beta_max.at_least(self.beta_min)
    }

    /// `beta` is the inverse temperature of rung `i`.
    pub open spec fn is_rung<P: Fn(T, T) -> T>(&self, i: int, pow: P, beta: T) -> bool {
        if self.replicas == 1 {
            beta == self.beta_max
        } else {
            between(
                self.beta_min,
                self.beta_max,
                T::of_count(i as u64).quotient(T::of_count((self.replicas - 1) as u64)),
                self.ladder,
                pow,
                beta,
            )
        }
    }

    pub open spec fn are_betas<P: Fn(T, T) -> T>(&self, pow: P, betas: Seq<T>) -> bool {
        &&& betas.len() == self.replicas
        &&& forall|i: int|
            0 <= i < betas.len() ==> self.is_rung(i, pow, #[trigger] betas[i])
    }

    /// Inverse temperatures of the rungs, hottest first.
    pub fn betas<P: Fn(T, T) -> T>(&self, pow: &P) -> (r: Vec<T>)
        requires
            self.valid(),
            forall|x: T, y: T| #[trigger] call_requires(pow, (x, y)),
        ensures
            self.are_betas(*pow, r@),
    {
        let mut r: Vec<T> = Vec::new();
        if self.replicas == 1 {
            r.push(self.beta_max);
            return r;
        }
        let mut i: usize = 0;
        while i < self.replicas
            invariant
                i <= self.replicas,
                self.replicas > 1,
                forall|x: T, y: T| #[trigger] call_requires(pow, (x, y)),
                r@.len() == i,
                forall|k: int| 0 <= k < i ==> self.is_rung(k, *pow, #[trigger] r@[k]),
            decreases self.replicas - i,
        {
            let t = T::from_count(i as u64).over(T::from_count((self.replicas - 1) as u64));
            r.push(interpolate(self.beta_min, self.beta_max, t, self.ladder, pow));
            i += 1;
        }
        r
    }
}

} // verus!
