//! How alike two states are, and what repeated detection adds up to.
//!
//! The laws are ones of exact arithmetic.

use crate::exact::{counts_at, exact_counts, exact_field, exact_reals, lemma_count_product};
use crate::exact::{lemma_is_quotient, lemma_opposites, lemma_quotient, lemma_quotients};
use crate::exact::{lemma_real_partners, lemma_spread, reals};
use crate::field::signals::single;
use crate::gaussian::exec::{circuit_work, GaussianOp};
use crate::gaussian::fidelity::{det_of, distance, excess, fidelity_from, joint_det};
use crate::gaussian::moments::quartered;
use crate::gaussian::shots::{squares, Detector, HomodyneReport};
use crate::gaussian::state::{GaussianState, Turn};
use crate::scalar::{running, Scalar};
use vstd::prelude::*;

verus! {

/// The root of a square that was not negative is what was squared, and the
/// exponential of zero is one.
pub open spec fn standard<T: Scalar, E: Fn(T) -> T, R: Fn(T) -> T>(exp: E, root: R) -> bool {
    &&& single(exp)
    &&& single(root)
    &&& forall|x: T, r: T|
        #![trigger x.product(x), call_ensures(root, (x.product(x),), r)]
        x.at_least(T::zero_value()) && call_ensures(root, (x.product(x),), r) ==> r == x
    &&& forall|e: T| #[trigger] call_ensures(exp, (T::zero_value(),), e) ==> e == T::of_count(1)
}

/// `x + x` is twice `x`.
proof fn lemma_twice<T: Scalar>(x: T)
    requires
        exact_counts::<T>(),
    ensures
        x.sum(x) == T::of_count(2).product(x),
        x.sum(x) == x.product(T::of_count(2)),
{
    let one = T::of_count(1);
    assert(counts_at::<T>(1, 1));
    reals(x, one, one);
    reals(x, T::of_count(2), one);
}

/// `(2.a).(2.d)` is four times `a.d`.
proof fn lemma_doubled<T: Scalar>(a: T, d: T)
    requires
        exact_counts::<T>(),
    ensures
        a.sum(a).product(d.sum(d)) == T::of_count(4).product(a.product(d)),
{
    let two = T::of_count(2);
    lemma_twice(a);
    lemma_twice(d);
    lemma_count_product::<T>(2, 2);
    reals(two, a, two.product(d));
    reals(a, two, d);
    reals(two, a, d);
    reals(two, two, a.product(d));
}

/// A state is like itself entirely: its fidelity with itself is one, where its
/// determinant is at least that of a pure state.
pub proof fn state_is_like_itself<T: Scalar, E: Fn(T) -> T, R: Fn(T) -> T>(
    a: &GaussianState<T>,
    half: T,
    exp: E,
    root: R,
    f: T,
    by: (T, T, T),
)
    requires
        quartered::<T>(),
        standard(exp, root),
        fidelity_from(a, a, half, exp, root, f, by),
        det_of(&a.cov).difference(T::of_count(1)).at_least(T::zero_value()),
        det_of(&a.cov).sum(T::of_count(1)).at_least(T::zero_value()),
        excess(&a.cov, &a.cov) == det_of(&a.cov).difference(T::of_count(1)).product(
            det_of(&a.cov).difference(T::of_count(1)),
        ),
        joint_det(&a.cov, &a.cov) != T::zero_value(),
    ensures
        f == T::of_count(1),
{
    let (zero, one, two, four) = (
        T::zero_value(),
        T::of_count(1),
        T::of_count(2),
        T::of_count(4),
    );
    let c = a.cov;
    let d = det_of(&c);
    // the means do not differ
    lemma_same(a.mean@[0]);
    lemma_same(a.mean@[1]);
    let (s00, s01, s11) = (
        c.at(0, 0).sum(c.at(0, 0)),
        c.at(0, 1).sum(c.at(0, 1)),
        c.at(1, 1).sum(c.at(1, 1)),
    );
    reals(s11.product(zero), zero, zero);
    reals(s11, zero, zero);
    reals(two.product(s01), zero, zero);
    reals(two.product(s01).product(zero), zero, zero);
    reals(s00, zero, zero);
    reals(s00.product(zero), zero, zero);
    lemma_same(zero);
    reals(zero, zero, zero);
    lemma_quotients(zero, zero, joint_det(&c, &c));
    assert(distance(a, a) == zero);
    reals(half.negative(), zero, zero);
    assert(by.0 == one);
    // the joint determinant is four times the own one
    let (p, q) = (c.at(0, 0).product(c.at(1, 1)), c.at(0, 1).product(c.at(1, 0)));
    lemma_doubled(c.at(0, 0), c.at(1, 1));
    lemma_doubled(c.at(0, 1), c.at(1, 0));
    lemma_spread(p, q, four);
    reals(four.product(p), four.product(q), zero);
    reals(p, q, zero);
    assert(joint_det(&c, &c) == four.product(d));
    // 4.d + (d - 1)^2 = (d + 1)^2
    lemma_completed(d);
    let (m, s) = (d.difference(one), d.sum(one));
    assert(by.1 == s) by {
        assert(call_ensures(root, (s.product(s),), by.1));
    }
    assert(by.2 == m) by {
        assert(call_ensures(root, (m.product(m),), by.2));
    }
    // (d + 1) - (d - 1) = 2
    reals(d, one, one);
    reals(s, d.sum(one.negative()), one);
    lemma_opposites(d, one.negative());
    lemma_opposites(one, one);
    lemma_real_partners(d, one, d.negative(), one);
    reals(d, d.negative(), d);
    assert(counts_at::<T>(1, 1));
    lemma_opposites(two, two);
    reals(two, one, one);
    reals(one, two, two);
    lemma_is_quotient(one, two, two);
}

/// `x - x` is nothing.
proof fn lemma_same<T: Scalar>(x: T)
    requires
        exact_reals::<T>(),
    ensures
        x.difference(x) == T::zero_value(),
{
    reals(x, x, x);
}

/// `4.d + (d - 1).(d - 1)` is `(d + 1).(d + 1)`.
proof fn lemma_completed<T: Scalar>(d: T)
    requires
        exact_counts::<T>(),
    ensures
        ({
            let (one, four) = (T::of_count(1), T::of_count(4));
            let (m, s) = (d.difference(one), d.sum(one));
            four.product(d).sum(m.product(m)) == s.product(s)
        }),
{
    let (one, two, four) = (T::of_count(1), T::of_count(2), T::of_count(4));
    let (m, s, n) = (d.difference(one), d.sum(one), one.negative());
    let dd = d.product(d);
    reals(d, one, one);
    reals(one, d, d);
    reals(one, one, one);
    // s.s = (dd + d) + (d + 1)
    reals(s, d, one);
    lemma_spread(d, one, d);
    reals(s, one, one);
    // m.m = (dd - d) + (-d + 1)
    reals(m, d, n);
    lemma_spread(d, one, d);
    lemma_spread(d, one, n);
    lemma_spread(d, one, one);
    lemma_spread(one, one, one);
    let e = d.negative();
    assert(d.product(n) == e);
    lemma_opposites(one, one);
    reals(one, n, n);
    assert(one.product(n) == n);
    assert(m.product(d) == dd.sum(e));
    assert(m.product(n) == e.sum(one));
    assert(m.product(m) == dd.sum(e).sum(e.sum(one)));
    assert(s.product(s) == dd.sum(d).sum(d.sum(one)));
    // 4.d = (d + d) + (d + d)
    lemma_twice(d);
    lemma_twice(d.sum(d));
    lemma_count_product::<T>(2, 2);
    reals(two, two, d);
    let w = d.sum(d);
    assert(four.product(d) == w.sum(w));
    // (w + w) + ((dd + e) + (e + 1)): each -d takes one d off
    lemma_real_partners(w, w, dd.sum(e), e.sum(one));
    reals(dd, e, w);
    reals(w, dd.sum(e), w);
    reals(dd, e, d.sum(d));
    reals(e, d, d);
    reals(d, e, d);
    lemma_opposites(d, d);
    assert(w.sum(dd.sum(e)) == dd.sum(d)) by {
        reals(dd.sum(e), w, w);
        assert(e.sum(w) == d);
    }
    assert(w.sum(e.sum(one)) == d.sum(one)) by {
        reals(w, e, one);
        reals(w, e, w);
        reals(e, w, w);
    }
}

/// Likeness goes both ways.
pub proof fn likeness_is_mutual<T: Scalar, E: Fn(T) -> T, R: Fn(T) -> T>(
    a: &GaussianState<T>,
    b: &GaussianState<T>,
    half: T,
    exp: E,
    root: R,
    f: T,
    g: T,
    by: (T, T, T),
    of: (T, T, T),
)
    requires
        exact_reals::<T>(),
        single(exp),
        single(root),
        fidelity_from(a, b, half, exp, root, f, by),
        fidelity_from(b, a, half, exp, root, g, of),
    ensures
        f == g,
{
    let (x, y) = (a.cov, b.cov);
    let one = T::of_count(1);
    reals(x.at(0, 0), y.at(0, 0), one);
    reals(x.at(0, 1), y.at(0, 1), one);
    reals(x.at(1, 0), y.at(1, 0), one);
    reals(x.at(1, 1), y.at(1, 1), one);
    assert(joint_det(&x, &y) == joint_det(&y, &x));
    reals(det_of(&x).difference(one), det_of(&y).difference(one), one);
    assert(excess(&x, &y) == excess(&y, &x));
    let (d0, d1) = (b.mean@[0].difference(a.mean@[0]), b.mean@[1].difference(a.mean@[1]));
    lemma_turned_round(a.mean@[0], b.mean@[0]);
    lemma_turned_round(a.mean@[1], b.mean@[1]);
    let (s00, s01, s11) = (
        x.at(0, 0).sum(y.at(0, 0)),
        x.at(0, 1).sum(y.at(0, 1)),
        x.at(1, 1).sum(y.at(1, 1)),
    );
    lemma_even(s11, d0, d0);
    lemma_even(T::of_count(2).product(s01), d0, d1);
    lemma_even(s00, d1, d1);
    assert(distance(a, b) == distance(b, a));
}

/// `a - b` is the opposite of `b - a`.
proof fn lemma_turned_round<T: Scalar>(a: T, b: T)
    requires
        exact_reals::<T>(),
    ensures
        a.difference(b) == b.difference(a).negative(),
{
    reals(a, b, a);
    reals(b, a, a);
    lemma_opposites(b, a.negative());
    lemma_opposites(a, a);
    reals(b.negative(), a, a);
}

/// Two opposites in a product go unseen.
proof fn lemma_even<T: Scalar>(k: T, x: T, y: T)
    requires
        exact_reals::<T>(),
    ensures
        k.product(x.negative()).product(y.negative()) == k.product(x).product(y),
{
    reals(k, x.negative(), y.negative());
    reals(k, x, y);
    lemma_spread(x, y, k);
}

/// Coherent states are alike by the distance of their amplitudes alone: their
/// fidelity is the exponential of its square, taken off.
pub proof fn coherent_states_overlap<T: Scalar, E: Fn(T) -> T, R: Fn(T) -> T>(
    a: &GaussianState<T>,
    b: &GaussianState<T>,
    half: T,
    exp: E,
    root: R,
    f: T,
    by: (T, T, T),
    re: T,
    im: T,
)
    requires
        quartered::<T>(),
        standard(exp, root),
        half.sum(half) == T::of_count(1),
        T::of_count(2).at_least(T::zero_value()),
        T::zero_value().at_least(T::zero_value()),
        a.cov.is_identity(2),
        b.cov.is_identity(2),
        b.mean@[0].difference(a.mean@[0]) == re.sum(re),
        b.mean@[1].difference(a.mean@[1]) == im.sum(im),
        fidelity_from(a, b, half, exp, root, f, by),
    ensures
        call_ensures(exp, (re.product(re).sum(im.product(im)).negative(),), f),
{
    let (zero, one, two, four) = (
        T::zero_value(),
        T::of_count(1),
        T::of_count(2),
        T::of_count(4),
    );
    let (x, y) = (a.cov, b.cov);
    assert(x.at(0, 0) == one && x.at(0, 1) == zero && x.at(1, 0) == zero && x.at(1, 1) == one);
    assert(y.at(0, 0) == one && y.at(0, 1) == zero && y.at(1, 0) == zero && y.at(1, 1) == one);
    assert(counts_at::<T>(1, 1));
    lemma_count_product::<T>(2, 2);
    lemma_opposites(zero, zero);
    reals(zero, zero, zero);
    reals(four, zero, zero);
    reals(one, one, one);
    reals(one, zero, zero);
    lemma_same(one);
    assert(joint_det(&x, &y) == four);
    assert(excess(&x, &y) == zero);
    reals(two, two, two);
    assert(by.1 == two) by {
        assert(call_ensures(root, (two.product(two),), by.1));
    }
    assert(by.2 == zero) by {
        assert(call_ensures(root, (zero.product(zero),), by.2));
    }
    reals(two, zero, zero);
    lemma_quotients(by.0, two, two);
    // 2.e over 2
    reals(two, by.0, by.0);
    lemma_is_quotient(by.0, two.product(by.0), two);
    assert(f == by.0);
    // the distance: (2.d0.d0 + 2.d1.d1) over 4
    let (d0, d1) = (re.sum(re), im.sum(im));
    lemma_doubled(re, re);
    lemma_doubled(im, im);
    let (rr, ii) = (re.product(re), im.product(im));
    reals(two, d0, d0);
    reals(two, d1, d1);
    lemma_opposites(d0, d1);
    lemma_opposites(d1, d1);
    reals(two, zero, d0);
    let k = rr.sum(ii);
    reals(two, four, rr);
    reals(two, four, ii);
    reals(four, two, rr);
    reals(two, four, k);
    reals(four, rr, ii);
    reals(two, four.product(rr), four.product(ii));
    reals(two.product(four.product(rr)), zero, zero);
    let dist = distance(a, b);
    assert(d0.product(d0) == four.product(rr));
    assert(d1.product(d1) == four.product(ii));
    let num = two.product(four.product(rr)).sum(two.product(four.product(ii)));
    assert(two.product(zero).product(d0).product(d1) == zero);
    assert(dist == num.quotient(four));
    reals(two, k, four);
    reals(k, four, two);
    assert(two.product(k).product(four) == num) by {
        reals(two, k, four);
        reals(k, four, four);
        reals(two, four, k);
        reals(four, k, two);
    }
    lemma_is_quotient(two.product(k), num, four);
    // -half.(2.k) = -k
    lemma_twice(half);
    reals(half, two.product(k), k);
    reals(half, two, k);
    reals(two, half, k);
    reals(k, one, one);
    reals(one, k, k);
}

/// A histogram spans ten deviations about its mean, and its bins share them
/// evenly.
pub proof fn histogram_spans_ten_deviations<T: Scalar, N, C, R>(mean: T, sd: T) where
    N: Fn(u64) -> T,
    C: Fn(T) -> i64,
    R: Fn(T) -> T,

    requires
        exact_field::<T>(),
        exact_counts::<T>(),
        T::of_count(41) != T::zero_value(),
    ensures
        ({
            let (lo, hi, width) = Detector::<T, N, C, R>::range(mean, sd);
            &&& lo.sum(hi) == mean.sum(mean)
            &&& hi.difference(lo) == T::of_count(10).product(sd)
            &&& width.product(T::of_count(41)) == hi.difference(lo)
        }),
{
    let five = T::of_count(5);
    let x = five.product(sd);
    let (lo, hi, width) = Detector::<T, N, C, R>::range(mean, sd);
    let n = x.negative();
    reals(mean, x, x);
    lemma_real_partners(mean, n, mean, x);
    reals(n, x, x);
    reals(x, n, n);
    reals(mean.sum(mean), x, x);
    // (mean + x) - (mean - x) = x + x
    reals(hi, lo, lo);
    lemma_opposites(mean, n);
    lemma_opposites(x, x);
    lemma_real_partners(mean, x, mean.negative(), x);
    reals(mean, mean.negative(), mean);
    lemma_opposites(x.sum(x), x);
    assert(counts_at::<T>(5, 5));
    lemma_spread(five, five, sd);
    lemma_quotient(hi.difference(lo), T::of_count(41));
}

/// A draw keeps its score: what it is off the mean, squared, is the variance
/// times the square of the normal draw.
pub proof fn draws_keep_their_score<T: Scalar, R: Fn(T) -> T>(
    g: &GaussianState<T>,
    mode: int,
    t: Turn<T>,
    normal: T,
    root: R,
    sample: T,
)
    requires
        exact_reals::<T>(),
        forall|x: T, r: T| #[trigger] call_ensures(root, (x,), r) ==> r.product(r) == x,
        g.samples_to(mode, t, normal, root, sample),
    ensures
        ({
            let (mean, variance) = g.marginal(mode, t);
            let off = sample.difference(mean);
            off.product(off) == variance.product(normal.product(normal))
        }),
        normal == T::zero_value() ==> sample == g.marginal(mode, t).0,
{
    let (mean, variance) = g.marginal(mode, t);
    let sd = choose|sd: T|
        #[trigger] call_ensures(root, (variance,), sd) && sample == mean.sum(sd.product(normal));
    let y = sd.product(normal);
    reals(mean, y, mean.negative());
    reals(y, mean, mean.negative());
    reals(mean.sum(y), mean, mean);
    reals(mean, mean.negative(), mean);
    reals(y, mean, mean);
    reals(sd, normal, y);
    reals(normal, sd, normal);
    reals(sd, normal, normal);
    reals(sd, sd, normal.product(normal));
    reals(sd, normal, sd);
    reals(sd, mean, mean);
    reals(mean, mean, mean);
}

/// A shot falls into the cell that it lies in: as many widths above the low end
/// as the place that its cell was taken of.
pub proof fn shots_fall_into_their_cells<T: Scalar, N, C, R>(
    d: &Detector<T, N, C, R>,
    mean: T,
    sd: T,
    k: u64,
    m: T,
    c: i64,
) -> (place: T) where N: Fn(u64) -> T, C: Fn(T) -> i64, R: Fn(T) -> T
    requires
        exact_field::<T>(),
        d.shot(mean, sd, k, m, c),
        Detector::<T, N, C, R>::range(mean, sd).2 != T::zero_value(),
    ensures
        call_ensures(d.cell, (place,), c),
        ({
            let (lo, hi, width) = Detector::<T, N, C, R>::range(mean, sd);
            place.product(width).sum(lo) == m
        }),
{
    let (lo, hi, width) = Detector::<T, N, C, R>::range(mean, sd);
    let place = m.difference(lo).quotient(width);
    lemma_quotient(m.difference(lo), width);
    reals(m, lo, lo);
    reals(m, lo.negative(), lo);
    reals(lo.negative(), lo, lo);
    reals(lo, lo.negative(), lo);
    reals(m, m, m);
    place
}

/// A report adds its shots up: the sample mean times their number is their sum,
/// and mean square and variance are apart by the square of the mean.
pub proof fn report_adds_its_shots_up<T: Scalar, N, C, R>(
    d: &Detector<T, N, C, R>,
    marginal: (T, T),
    sd: T,
    ms: Seq<T>,
    cs: Seq<i64>,
    r: &HomodyneReport<T>,
) where N: Fn(u64) -> T, C: Fn(T) -> i64, R: Fn(T) -> T
    requires
        exact_field::<T>(),
        0 < ms.len() <= u64::MAX,
        T::of_count(ms.len() as u64) != T::zero_value(),
        d.summed(marginal, sd, ms, cs, r),
        running(squares(ms)).quotient(T::of_count(ms.len() as u64)).difference(
            r.sample_mean.product(r.sample_mean),
        ).at_least(T::zero_value()),
    ensures
        ({
            let n = T::of_count(ms.len() as u64);
            &&& r.sample_mean.product(n) == running(ms)
            &&& r.sample_variance.sum(r.sample_mean.product(r.sample_mean)).product(n) == running(
                squares(ms),
            )
        }),
{
    let n = T::of_count(ms.len() as u64);
    lemma_quotient(running(ms), n);
    lemma_quotient(running(squares(ms)), n);
    let (q, m) = (running(squares(ms)).quotient(n), r.sample_mean.product(r.sample_mean));
    reals(q, m, m);
    reals(q, m.negative(), m);
    reals(m.negative(), m, m);
    reals(m, m.negative(), m);
    reals(q, q, q);
}

/// Work adds up over a circuit: elements after elements.
pub proof fn circuits_add_up<T: Scalar>(
    first: Seq<GaussianOp<T>>,
    second: Seq<GaussianOp<T>>,
    n: int,
    k: int,
)
    requires
        0 <= k <= second.len(),
    ensures
        circuit_work(first + second, n, first.len() + k) == circuit_work(
            first,
            n,
            first.len() as int,
        ) + circuit_work(second, n, k),
    decreases k,
{
    if k > 0 {
        circuits_add_up(first, second, n, k - 1);
        assert((first + second)[first.len() + k - 1] == second[k - 1]);
    } else {
        lemma_work_prefix(first, second, n, first.len() as int);
    }
}

proof fn lemma_work_prefix<T: Scalar>(
    first: Seq<GaussianOp<T>>,
    second: Seq<GaussianOp<T>>,
    n: int,
    k: int,
)
    requires
        0 <= k <= first.len(),
    ensures
        circuit_work(first + second, n, k) == circuit_work(first, n, k),
    decreases k,
{
    if k > 0 {
        lemma_work_prefix(first, second, n, k - 1);
        assert((first + second)[k - 1] == first[k - 1]);
    }
}

} // verus!
