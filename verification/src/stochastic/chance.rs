//! The rules that turn a uniform draw into a decision: the Gibbs conditional of
//! a spin, and the Metropolis rule of an exchange.

use crate::scalar::Scalar;
use vstd::prelude::*;

verus! {

/// Exponent of the Gibbs conditional: `-2.beta.l`.
pub open spec fn exponent<T: Scalar>(beta: T, l: T) -> T {
    T::of_count(2).negative().product(beta).product(l)
}

/// `r` says whether the draw `u` puts a spin up: it lies below the logistic
/// function of `2.beta.l`, `1 / (1 + e^(-2.beta.l))`.
pub open spec fn tips<T: Scalar, E: Fn(T) -> T>(u: T, beta: T, l: T, exp: E, r: bool) -> bool {
    exists|e: T|
        #[trigger] call_ensures(exp, (exponent(beta, l),), e) && r == u.less_than(
            T::of_count(1).quotient(T::of_count(1).sum(e)),
        )
}

/// Whether the draw `u` puts a spin up that sees the local field `l` at
/// inverse temperature `beta`.
pub fn conditional<T: Scalar, E: Fn(T) -> T>(u: T, beta: T, l: T, exp: &E) -> (r: bool)
    requires
        forall|x: T| #[trigger] call_requires(exp, (x,)),
    ensures
        tips(u, beta, l, *exp, r),
{
    let x = T::from_count(2).opposite().times(beta).times(l);
    let e = exp(x);
    assert(call_ensures(*exp, (exponent(beta, l),), e));
    let p = T::from_count(1).over(T::from_count(1).plus(e));
    u.below(p)
}

/// `r` says whether the draw `u` accepts the log ratio `x`: it lies below
/// `e^x`, which for a draw below one is the chance `min(1, e^x)`.
pub open spec fn takes<T: Scalar, E: Fn(T) -> T>(u: T, x: T, exp: E, r: bool) -> bool {
    exists|e: T| #[trigger] call_ensures(exp, (x,), e) && r == u.less_than(e)
}

/// Whether the draw `u` accepts an exchange of log ratio `x`.
pub fn accepts<T: Scalar, E: Fn(T) -> T>(u: T, x: T, exp: &E) -> (r: bool)
    requires
        call_requires(exp, (x,)),
    ensures
        takes(u, x, *exp, r),
{
    let e = exp(x);
    assert(call_ensures(*exp, (x,), e));
    u.below(e)
}

/// `accept` never refuses a log ratio that is not negative.
pub open spec fn willing<T: Scalar, A: Fn(u64, usize, T) -> bool>(accept: A) -> bool {
    forall|r: u64, k: usize, x: T, b: bool|
        #[trigger] call_ensures(accept, (r, k, x), b) && x.at_least(T::zero_value()) ==> b
}

/// `accept` answers by the Metropolis rule on draws of `draw`.
pub open spec fn metropolis<
    T: Scalar,
    A: Fn(u64, usize, T) -> bool,
    U: Fn(u64, usize) -> T,
    E: Fn(T) -> T,
>(accept: A, draw: U, exp: E) -> bool {
    forall|r: u64, k: usize, x: T, b: bool| #[trigger]
        call_ensures(accept, (r, k, x), b) ==> exists|u: T|
            #[trigger] call_ensures(draw, (r, k), u) && takes(u, x, exp, b)
}

/// Where the scalar orders as numbers do, a value from one on lies above every
/// value below one.
pub open spec fn parted_at_one<T: Scalar>() -> bool {
    forall|u: T, e: T|
        #[trigger] u.less_than(T::of_count(1)) && #[trigger] e.at_least(T::of_count(1))
            ==> u.less_than(e)
}

/// `exp` is one or more from zero on.
pub open spec fn grows<T: Scalar, E: Fn(T) -> T>(exp: E) -> bool {
    forall|x: T, e: T|
        #[trigger] call_ensures(exp, (x,), e) && x.at_least(T::zero_value()) ==> e.at_least(
            T::of_count(1),
        )
}

/// The Metropolis rule always accepts a log ratio that is not negative: draws
/// lie below one, and the exponential is at least one there.
pub proof fn metropolis_is_willing<
    T: Scalar,
    A: Fn(u64, usize, T) -> bool,
    U: Fn(u64, usize) -> T,
    E: Fn(T) -> T,
>(accept: A, draw: U, exp: E)
    requires
        metropolis::<T, A, U, E>(accept, draw, exp),
        parted_at_one::<T>(),
        grows::<T, E>(exp),
        forall|r: u64, k: usize, u: T| #[trigger]
            call_ensures(draw, (r, k), u) ==> u.less_than(T::of_count(1)),
    ensures
        willing::<T, A>(accept),
{
    assert forall|r: u64, k: usize, x: T, b: bool|
        #[trigger] call_ensures(accept, (r, k, x), b) && x.at_least(T::zero_value()) implies b by {
        let u = choose|u: T| #[trigger] call_ensures(draw, (r, k), u) && takes(u, x, exp, b);
        let e = choose|e: T| #[trigger] call_ensures(exp, (x,), e) && b == u.less_than(e);
        assert(u.less_than(T::of_count(1)) && e.at_least(T::of_count(1)));
    }
}

} // verus!
