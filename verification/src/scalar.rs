//! The arithmetic that the solvers are written over.
//!
//! Grids, media, networks and cost models only ever combine samples by sum,
//! difference, product and quotient, and compare them. They are generic in the
//! sample type, so that a contract can say which operations meet which
//! operands, in which order, without fixing a representation. `i64` is the
//! exact instance (arithmetic modulo 2^64); a host brings its floating-point
//! instance.

use vstd::prelude::*;

verus! {

/// A sample type: a value that is copied freely and combined by the operations
/// below, each of them a function of its operands.
pub trait Scalar: Copy + Send + Sync {
    /// What [`Scalar::zero`] returns.
    spec fn zero_value() -> Self;

    /// What [`Scalar::plus`] returns.
    spec fn sum(self, rhs: Self) -> Self;

    /// What [`Scalar::minus`] returns.
    spec fn difference(self, rhs: Self) -> Self;

    /// What [`Scalar::times`] returns.
    spec fn product(self, rhs: Self) -> Self;

    /// What [`Scalar::reaches`] returns.
    spec fn at_least(self, threshold: Self) -> bool;

    /// What [`Scalar::below`] returns.
    spec fn less_than(self, rhs: Self) -> bool;

    /// What [`Scalar::over`] returns.
    spec fn quotient(self, rhs: Self) -> Self;

    /// What [`Scalar::opposite`] returns.
    spec fn negative(self) -> Self;

    /// Place of a sample in one total order of all samples.
    spec fn rank(self) -> u64;

    /// What [`Scalar::from_count`] returns.
    spec fn of_count(n: u64) -> Self;

    /// The neutral sample that fields start from.
    fn zero() -> (r: Self)
        ensures
            r == Self::zero_value(),
    ;

    /// `self + rhs`.
    fn plus(self, rhs: Self) -> (r: Self)
        ensures
            r == self.sum(rhs),
    ;

    /// `self - rhs`.
    fn minus(self, rhs: Self) -> (r: Self)
        ensures
            r == self.difference(rhs),
    ;

    /// `self * rhs`.
    fn times(self, rhs: Self) -> (r: Self)
        ensures
            r == self.product(rhs),
    ;

    /// `self >= threshold`.
    fn reaches(self, threshold: Self) -> (r: bool)
        ensures
            r == self.at_least(threshold),
    ;

    /// `self < rhs`.
    fn below(self, rhs: Self) -> (r: bool)
        ensures
            r == self.less_than(rhs),
    ;

    /// `self / rhs`.
    fn over(self, rhs: Self) -> (r: Self)
        ensures
            r == self.quotient(rhs),
    ;

    /// `-self`.
    fn opposite(self) -> (r: Self)
        ensures
            r == self.negative(),
    ;

    /// Whether `self` comes strictly before `rhs` in the total order.
    fn precedes(self, rhs: Self) -> (r: bool)
        ensures
            r == (self.rank() < rhs.rank()),
    ;

    /// The sample that stands for a whole number of events.
    fn from_count(n: u64) -> (r: Self)
        ensures
            r == Self::of_count(n),
    ;
}

/// Samples added up from zero, in order.
pub open spec fn running<T: Scalar>(vals: Seq<T>) -> T
    decreases vals.len(),
{
    if vals.len() == 0 {
        T::zero_value()
    } else {
        running(vals.drop_last()).sum(vals.last())
    }
}

/// `running` over one more sample.
pub proof fn lemma_running_push<T: Scalar>(vals: Seq<T>, x: T)
    ensures
        running(vals.push(x)) == running(vals).sum(x),
{
    assert(vals.push(x).drop_last() =~= vals);
}

/// The greatest of the first `n` samples and `start`.
pub open spec fn greatest<T: Scalar>(s: Seq<T>, start: T, n: int) -> T
    decreases n,
{
    if n <= 0 {
        start
    } else if greatest(s, start, n - 1).less_than(s[n - 1]) {
        s[n - 1]
    } else {
        greatest(s, start, n - 1)
    }
}

/// The sizes of some samples, as `size` gives them.
pub open spec fn sized<T: Scalar, S: Fn(T) -> T>(vals: Seq<T>, size: S, sizes: Seq<T>) -> bool {
    &&& sizes.len() == vals.len()
    &&& forall|k: int|
        0 <= k < vals.len() ==> call_ensures(size, (vals[k],), #[trigger] sizes[k])
}

/// `r` is the greatest size of the samples, none below zero.
pub open spec fn is_peak<T: Scalar, S: Fn(T) -> T>(vals: Seq<T>, size: S, r: T) -> bool {
    exists|sizes: Seq<T>|
        #[trigger] sized(vals, size, sizes) && r == greatest(
            sizes,
            T::zero_value(),
            sizes.len() as int,
        )
}

/// The greatest of a prefix depends on nothing after it.
pub proof fn lemma_greatest_prefix<T: Scalar>(a: Seq<T>, b: Seq<T>, start: T, k: int)
    requires
        k <= a.len() <= b.len(),
        forall|i: int| 0 <= i < a.len() ==> a[i] == b[i],
    ensures
        greatest(a, start, k) == greatest(b, start, k),
    decreases k,
{
    if k > 0 {
        lemma_greatest_prefix(a, b, start, k - 1);
    }
}

/// Greatest size of the samples of three lists, one after the other.
pub fn peak<T: Scalar, S: Fn(T) -> T>(a: &Vec<T>, b: &Vec<T>, c: &Vec<T>, size: &S) -> (r: T)
    requires
        forall|x: T| #[trigger] call_requires(size, (x,)),
        a@.len() + b@.len() + c@.len() <= usize::MAX,
    ensures
        is_peak(a@ + b@ + c@, *size, r),
{
    let ghost vals = a@ + b@ + c@;
    let (na, nb, nc): (usize, usize, usize) = (a.len(), b.len(), c.len());
    let mut best = T::zero();
    let ghost mut sizes: Seq<T> = Seq::empty();
    let mut k: usize = 0;
    while k < na + nb + nc
        invariant
            forall|x: T| #[trigger] call_requires(size, (x,)),
            na == a@.len(),
            nb == b@.len(),
            nc == c@.len(),
            na + nb + nc <= usize::MAX,
            vals == a@ + b@ + c@,
            k <= na + nb + nc,
            sizes.len() == k,
            forall|i: int|
                0 <= i < k ==> call_ensures(size, (vals[i],), #[trigger] sizes[i]),
            best == greatest(sizes, T::zero_value(), k as int),
        decreases na + nb + nc - k,
    {
        let v = if k < na {
            a[k]
        } else if k - na < nb {
            b[k - na]
        } else {
            c[k - na - nb]
        };
        assert(v == vals[k as int]);
        let x = size(v);
        let ghost before = sizes;
        proof {
            sizes = sizes.push(x);
            lemma_greatest_prefix(before, sizes, T::zero_value(), k as int);
        }
        if best.below(x) {
            best = x;
        }
        k += 1;
    }
    assert(sized(vals, *size, sizes));
    best
}

impl Scalar for i64 {
    open spec fn zero_value() -> i64 {
        0
    }

    open spec fn sum(self, rhs: i64) -> i64 {
        self.wrapping_add(rhs)
    }

    open spec fn difference(self, rhs: i64) -> i64 {
        self.wrapping_sub(rhs)
    }

    open spec fn product(self, rhs: i64) -> i64 {
        self.wrapping_mul(rhs)
    }

    open spec fn at_least(self, threshold: i64) -> bool {
        self >= threshold
    }

    open spec fn less_than(self, rhs: i64) -> bool {
        self < rhs
    }

    /// Whole-number division of what is not negative; anything else, and
    /// division by zero, is 0.
    open spec fn quotient(self, rhs: i64) -> i64 {
        if self >= 0 && rhs > 0 {
            (self as int / rhs as int) as i64
        } else {
            0
        }
    }

    open spec fn negative(self) -> i64 {
        0i64.wrapping_sub(self)
    }

    open spec fn rank(self) -> u64 {
        (self + 0x8000_0000_0000_0000) as u64
    }

    open spec fn of_count(n: u64) -> i64 {
        n as i64
    }

    fn zero() -> i64 {
        0
    }

    fn plus(self, rhs: i64) -> i64 {
        self.wrapping_add(rhs)
    }

    fn minus(self, rhs: i64) -> i64 {
        self.wrapping_sub(rhs)
    }

    fn times(self, rhs: i64) -> i64 {
        self.wrapping_mul(rhs)
    }

    fn reaches(self, threshold: i64) -> bool {
        self >= threshold
    }

    fn below(self, rhs: i64) -> bool {
        self < rhs
    }

    fn over(self, rhs: i64) -> i64 {
        if self >= 0 && rhs > 0 {
            self / rhs
        } else {
            0
        }
    }

    fn opposite(self) -> i64 {
        0i64.wrapping_sub(self)
    }

    fn precedes(self, rhs: i64) -> bool {
        self < rhs
    }

    fn from_count(n: u64) -> i64 {
        #[verifier::truncate]
        (n as i64)
    }
}

} // verus!
