//! What an interferometer and a mesh show at their outputs: how an
//! interferometer splits its inputs, and what the reported errors measure.
//!
//! The laws are ones of exact arithmetic; those on the largest error hold in any
//! order.

use crate::complex::Cx;
use crate::exact::{complex_numbers_are_exact, exact, exact_field, exact_reals, follows};
use crate::exact::{lemma_common_factor, lemma_opposites, lemma_quotient, lemma_spread, lifted};
use crate::exact::{monotone, reals, ring, upright};
use crate::photonic::clements::{defect, gram, universal_mesh_has_square_phases, Null};
use crate::photonic::components::{is_coupler, is_transfer, sandwiched};
use crate::photonic::mvm::OpticalMvm;
use crate::photonic::network::CMat;
use crate::photonic::rebuild::orthonormal;
use crate::photonic::run::{distance_sq, ideal, is_input, is_worst, power_sum, query_error};
use crate::photonic::run::{total_error, Bench, PhotonicReport};
use crate::scalar::{greatest, Scalar};
use vstd::prelude::*;

verus! {

/// Entries of a product of two 2x2 matrices.
proof fn lemma_product_entry<T: Scalar>(m: &CMat<T>, a: &CMat<T>, b: &CMat<T>, i: int, j: int)
    requires
        exact::<T>(),
        a.rows == 2,
        a.cols == 2,
        b.cols == 2,
        m.is_product(a, b),
        0 <= i < 2,
        0 <= j < 2,
    ensures
        m.at(i, j) == a.at(i, 0).product(b.at(0, j)).sum(a.at(i, 1).product(b.at(1, j))),
{
    let (x, y) = (a.at(i, 0).product(b.at(0, j)), a.at(i, 1).product(b.at(1, j)));
    assert(CMat::dot(a, b, i, j, 0) == Cx::<T>::nought());
    assert(CMat::dot(a, b, i, j, 1) == Cx::nought().sum(x));
    assert(CMat::dot(a, b, i, j, 2) == Cx::nought().sum(x).sum(y));
    ring(Cx::nought(), x, y);
    ring(x, Cx::nought(), y);
    assert(m.at(i, j) == CMat::dot(a, b, i, j, 2));
}

/// An interferometer of half-and-half couplers splits by its inner phase: twice
/// what stays on its arm is that phasor less one, the other way round on the
/// lower arm; twice what crosses is that phasor and one, a quarter turn on.
/// The input phase turns what enters above.
pub proof fn interferometer_splits_by_its_phase<T: Scalar>(
    c: &CMat<T>,
    t: T,
    theta: Cx<T>,
    phi: Cx<T>,
    p: &CMat<T>,
    q: &CMat<T>,
    m: &CMat<T>,
)
    requires
        exact_reals::<T>(),
        is_coupler(c, t, t),
        t.product(t).sum(t.product(t)) == T::of_count(1),
        is_transfer(p, theta, Cx::<T>::nought(), Cx::<T>::nought(), Cx::<T>::unit()),
        is_transfer(q, phi, Cx::<T>::nought(), Cx::<T>::nought(), Cx::<T>::unit()),
        sandwiched(c, p, q, m),
    ensures
        ({
            let (one, i) = (Cx::<T>::unit(), upright(T::of_count(1)));
            let twice = |a: int, b: int| m.at(a, b).sum(m.at(a, b));
            &&& twice(0, 0) == theta.difference(one).product(phi)
            &&& twice(0, 1) == i.product(theta.sum(one))
            &&& twice(1, 0) == i.product(theta.sum(one)).product(phi)
            &&& twice(1, 1) == one.difference(theta)
        }),
{
    complex_numbers_are_exact::<T>();
    let (cp, cpc) = choose|cp: CMat<T>, cpc: CMat<T>|
        #![trigger cp.is_product(c, p), cpc.is_product(&cp, c)]
        cp.is_product(c, p) && cpc.is_product(&cp, c) && m.is_product(&cpc, q);
    let (one, zero) = (Cx::<T>::unit(), Cx::<T>::nought());
    let (s, k) = (lifted(t), upright(t));
    assert(c.at(0, 0) == s && c.at(0, 1) == k && c.at(1, 0) == k && c.at(1, 1) == s);
    assert(p.at(0, 0) == theta && p.at(0, 1) == zero && p.at(1, 0) == zero && p.at(1, 1) == one);
    assert(q.at(0, 0) == phi && q.at(0, 1) == zero && q.at(1, 0) == zero && q.at(1, 1) == one);
    lemma_arms(c, p, &cp, s, k, theta, 0);
    lemma_arms(c, p, &cp, k, s, theta, 1);
    lemma_arms(&cpc, q, m, cpc.at(0, 0), cpc.at(0, 1), phi, 0);
    lemma_arms(&cpc, q, m, cpc.at(1, 0), cpc.at(1, 1), phi, 1);
    let (st, kt) = (s.product(theta), k.product(theta));
    lemma_product_entry(&cpc, &cp, c, 0, 0);
    lemma_product_entry(&cpc, &cp, c, 0, 1);
    lemma_product_entry(&cpc, &cp, c, 1, 0);
    lemma_product_entry(&cpc, &cp, c, 1, 1);
    // s.s = h, k.k = -h, s.k = h.i, with h twice one
    let h = lifted(t.product(t));
    let i = upright(T::of_count(1));
    lemma_halves(t);
    assert(s.product(s) == h && k.product(k) == h.negated());
    assert(s.product(k) == h.product(i) && k.product(s) == h.product(i));
    assert(h.sum(h) == one);
    // (s.theta).s = h.theta and so on
    lemma_behind(s, theta, s);
    lemma_behind(s, theta, k);
    lemma_behind(k, theta, s);
    lemma_behind(k, theta, k);
    ring(h, theta, one);
    ring(h, one, one);
    let n = h.negated();
    ring(h, theta, theta);
    ring(one, theta, one);
    // stays above: h.theta - h = h.(theta - 1)
    let less = theta.difference(one);
    ring(theta, one, one);
    ring(h, theta, one.negated());
    ring(h, one.negated(), one);
    ring(one.negated(), h, one);
    ring(one, h, h);
    assert(cpc.at(0, 0) == h.product(less));
    // crosses: h.i.theta + h.i = (h.i).(theta + 1)
    let hi = h.product(i);
    ring(hi, theta, one);
    ring(hi, one, one);
    assert(cpc.at(0, 1) == hi.product(theta.sum(one)));
    assert(cpc.at(1, 0) == hi.product(theta.sum(one)));
    // stays below: -(h.theta) + h = h.(1 - theta)
    ring(one, theta, theta);
    ring(h, one, theta.negated());
    ring(theta.negated(), h, h);
    ring(h, theta.negated(), h);
    ring(theta, h, h);
    ring(n, theta, theta);
    ring(h.product(theta).negated(), h, h);
    ring(h, h.product(theta).negated(), h);
    assert(cpc.at(1, 1) == h.product(one.difference(theta)));
    // twice h is one
    lemma_twice(h, less);
    lemma_twice(h, one.difference(theta));
    ring(h, i, theta.sum(one));
    lemma_twice(h, i.product(theta.sum(one)));
    lemma_common_factor(cpc.at(0, 0), cpc.at(0, 0), phi);
    lemma_common_factor(cpc.at(1, 0), cpc.at(1, 0), phi);
}

/// A phase on the upper arm multiplies the first column.
proof fn lemma_arms<T: Scalar>(
    a: &CMat<T>,
    p: &CMat<T>,
    m: &CMat<T>,
    x: Cx<T>,
    y: Cx<T>,
    z: Cx<T>,
    i: int,
)
    requires
        exact::<T>(),
        a.rows == 2,
        a.cols == 2,
        p.cols == 2,
        m.is_product(a, p),
        0 <= i < 2,
        a.at(i, 0) == x,
        a.at(i, 1) == y,
        p.at(0, 0) == z,
        p.at(0, 1) == Cx::<T>::nought(),
        p.at(1, 0) == Cx::<T>::nought(),
        p.at(1, 1) == Cx::<T>::unit(),
    ensures
        m.at(i, 0) == x.product(z),
        m.at(i, 1) == y,
{
    lemma_product_entry(m, a, p, i, 0);
    lemma_product_entry(m, a, p, i, 1);
    ring(x, z, z);
    ring(y, z, z);
    ring(x.product(z), z, z);
    ring(Cx::nought(), y, y);
    ring(y, Cx::nought(), y);
}

/// `(x.z).y` is `(x.y).z`.
proof fn lemma_behind<T: Scalar>(x: Cx<T>, z: Cx<T>, y: Cx<T>)
    requires
        exact::<T>(),
    ensures
        x.product(z).product(y) == x.product(y).product(z),
{
    ring(x, z, y);
    ring(z, y, y);
    ring(x, y, z);
}

/// `h.x + h.x` is `x`, where `h + h` is one.
proof fn lemma_twice<T: Scalar>(h: Cx<T>, x: Cx<T>)
    requires
        exact::<T>(),
        h.sum(h) == Cx::<T>::unit(),
    ensures
        h.product(x).sum(h.product(x)) == x,
{
    lemma_common_factor(h, h, x);
    ring(x, Cx::unit(), x);
    ring(Cx::unit(), x, x);
}

/// Products of the amplitudes of a half-and-half coupler.
proof fn lemma_halves<T: Scalar>(t: T)
    requires
        exact_reals::<T>(),
        t.product(t).sum(t.product(t)) == T::of_count(1),
    ensures
        ({
            let (s, k, h) = (lifted(t), upright(t), lifted(t.product(t)));
            let i = upright(T::of_count(1));
            &&& s.product(s) == h
            &&& k.product(k) == h.negated()
            &&& s.product(k) == h.product(i)
            &&& k.product(s) == h.product(i)
            &&& h.sum(h) == Cx::<T>::unit()
        }),
{
    let (zero, one, tt) = (T::zero_value(), T::of_count(1), t.product(t));
    lemma_opposites(t, tt);
    lemma_opposites(tt, t);
    lemma_opposites(zero, one);
    lemma_opposites(one, one);
    reals(t, zero, zero);
    reals(tt, zero, zero);
    reals(tt, one, one);
    reals(zero, tt, zero);
    reals(zero, zero, zero);
    reals(zero, one, one);
    lemma_opposites(tt.negative(), tt);
    reals(zero, tt, tt);
}

/// Power of a scaled sample.
proof fn lemma_scaled_power<T: Scalar>(z: Cx<T>, k: T)
    requires
        exact_reals::<T>(),
    ensures
        z.scaled(k).power() == k.product(k).product(z.power()),
{
    let (a, b, kk) = (z.re, z.im, k.product(k));
    lemma_scaled_square(a, k);
    lemma_scaled_square(b, k);
    reals(kk, a.product(a), b.product(b));
}

proof fn lemma_scaled_square<T: Scalar>(a: T, k: T)
    requires
        exact_reals::<T>(),
    ensures
        a.product(k).product(a.product(k)) == k.product(k).product(a.product(a)),
{
    reals(a, k, a);
    reals(k, a, a);
    reals(k, a, k.product(a));
    reals(a, k, a);
    reals(k, k, a.product(a));
    reals(a, k, k);
    reals(k, a, a);
}

proof fn lemma_power_scales<T: Scalar>(x: Seq<Cx<T>>, y: Seq<Cx<T>>, k: T, n: int)
    requires
        exact_reals::<T>(),
        0 <= n <= x.len(),
        x.len() == y.len(),
        forall|j: int| 0 <= j < x.len() ==> #[trigger] y[j] == x[j].scaled(k),
    ensures
        power_sum(y, n) == k.product(k).product(power_sum(x, n)),
    decreases n,
{
    let kk = k.product(k);
    reals(kk, kk, kk);
    if n > 0 {
        lemma_power_scales(x, y, k, n - 1);
        assert(y[n - 1] == x[n - 1].scaled(k));
        lemma_scaled_power(x[n - 1], k);
        reals(kk, power_sum(x, n - 1), x[n - 1].power());
    }
}

/// Inputs have unit length, and are in proportion to their draws.
pub proof fn inputs_have_unit_length<T: Scalar, I: Fn(usize, usize) -> Cx<T>, Q: Fn(T) -> T>(
    n: int,
    q: usize,
    inputs: I,
    root: Q,
    x: Seq<Cx<T>>,
    draws: Seq<Cx<T>>,
    norm: T,
    j: int,
)
    requires
        exact_field::<T>(),
        forall|y: T, r: T| #[trigger] call_ensures(root, (y,), r) ==> r.product(r) == y,
        norm != T::zero_value(),
        0 <= j < n,
        is_input(n, q, inputs, root, x, draws, norm),
    ensures
        x.len() == n,
        power_sum(x, n) == T::of_count(1),
        x[j].scaled(norm) == draws[j],
{
    let one = T::of_count(1);
    let k = one.quotient(norm);
    lemma_quotient(one, norm);
    lemma_power_scales(draws, x, k, n);
    let p = power_sum(draws, n);
    // (k.k).(norm.norm) = 1
    reals(k, k, norm.product(norm));
    reals(k, norm, norm);
    reals(one, norm, norm);
    reals(norm, one, one);
    reals(k, norm.product(norm), k);
    reals(k, norm, k);
    assert(k.product(k.product(norm.product(norm))) == one) by {
        reals(k, norm, norm);
        assert(k.product(norm.product(norm)) == norm);
    }
    let d = draws[j];
    reals(d.re, k, norm);
    reals(d.im, k, norm);
    reals(d.re, one, one);
    reals(d.im, one, one);
}

/// A mesh that shows the right powers makes no error.
pub proof fn right_powers_make_no_error<T: Scalar>(
    u: &CMat<T>,
    mvm: &OpticalMvm<T>,
    x: Seq<Cx<T>>,
    acc: T,
    k: int,
)
    requires
        exact_reals::<T>(),
        0 <= k,
        forall|j: int|
            0 <= j < k ==> (#[trigger] mvm.output(x, j)).power() == ideal(
                u,
                x,
                j,
                u.cols as int,
            ).power(),
    ensures
        query_error(u, mvm, x, acc, k) == acc,
    decreases k,
{
    let zero = T::zero_value();
    if k > 0 {
        right_powers_make_no_error(u, mvm, x, acc, k - 1);
        let p = mvm.output(x, k - 1).power();
        reals(p, p, p);
        reals(zero, zero, zero);
        reals(acc, zero, zero);
    }
}

/// Errors add up: over queries, and over the outputs of one, each by its
/// square.
pub proof fn errors_add_up<T: Scalar>(
    u: &CMat<T>,
    mvm: &OpticalMvm<T>,
    x: Seq<Cx<T>>,
    acc: T,
    k: int,
)
    requires
        exact_reals::<T>(),
        0 <= k,
    ensures
        query_error(u, mvm, x, acc, k) == acc.sum(query_error(u, mvm, x, T::zero_value(), k)),
        ({
            let off = ideal(u, x, k, u.cols as int).power().difference(mvm.output(x, k).power());
            query_error(u, mvm, x, acc, k + 1) == query_error(u, mvm, x, acc, k).sum(
                off.product(off),
            )
        }),
    decreases k,
{
    let zero = T::zero_value();
    if k > 0 {
        errors_add_up(u, mvm, x, acc, k - 1);
        let d = mvm.output(x, k - 1).power().difference(
            ideal(u, x, k - 1, u.cols as int).power(),
        );
        reals(acc, query_error(u, mvm, x, zero, k - 1), d.product(d));
    } else {
        reals(acc, zero, zero);
    }
    let (a, b) = (mvm.output(x, k).power(), ideal(u, x, k, u.cols as int).power());
    lemma_off(a, b);
}

/// `(a - b)` and `(b - a)` have one square.
proof fn lemma_off<T: Scalar>(a: T, b: T)
    requires
        exact_reals::<T>(),
    ensures
        a.difference(b).product(a.difference(b)) == b.difference(a).product(b.difference(a)),
{
    let d = a.difference(b);
    reals(a, b, a);
    reals(b, a, a);
    lemma_opposites(a, b.negative());
    lemma_opposites(b, a);
    reals(a.negative(), b, b);
    assert(b.difference(a) == d.negative());
    lemma_spread(d, d, d);
}

/// Errors of queries add up one query at a time.
pub proof fn queries_add_up<T: Scalar>(
    u: &CMat<T>,
    mvm: &OpticalMvm<T>,
    xs: Seq<Seq<Cx<T>>>,
    q: int,
)
    requires
        exact_reals::<T>(),
        0 <= q < xs.len(),
    ensures
        total_error(u, mvm, xs, 0) == T::zero_value(),
        total_error(u, mvm, xs, q + 1) == total_error(u, mvm, xs, q).sum(
            query_error(u, mvm, xs[q], T::zero_value(), u.rows as int),
        ),
{
    errors_add_up(u, mvm, xs[q], total_error(u, mvm, xs, q), u.rows as int);
}

/// The target acts linearly on its inputs.
pub proof fn target_acts_linearly<T: Scalar>(
    u: &CMat<T>,
    x: Seq<Cx<T>>,
    y: Seq<Cx<T>>,
    both: Seq<Cx<T>>,
    i: int,
    k: int,
)
    requires
        exact_reals::<T>(),
        0 <= k <= both.len(),
        forall|j: int| 0 <= j < both.len() ==> #[trigger] both[j] == x[j].sum(y[j]),
    ensures
        ideal(u, both, i, k) == ideal(u, x, i, k).sum(ideal(u, y, i, k)),
    decreases k,
{
    complex_numbers_are_exact::<T>();
    ring(Cx::<T>::nought(), Cx::nought(), Cx::nought());
    if k > 0 {
        target_acts_linearly(u, x, y, both, i, k - 1);
        assert(both[k - 1] == x[k - 1].sum(y[k - 1]));
        let e = u.at(i, k - 1);
        ring(e, x[k - 1], y[k - 1]);
        crate::exact::lemma_partners(
            ideal(u, x, i, k - 1),
            ideal(u, y, i, k - 1),
            e.product(x[k - 1]),
            e.product(y[k - 1]),
        );
    }
}

/// Of an input that lights one port alone the target makes the column of that
/// port.
pub proof fn target_picks_a_column<T: Scalar>(
    u: &CMat<T>,
    x: Seq<Cx<T>>,
    port: int,
    i: int,
    k: int,
)
    requires
        exact_reals::<T>(),
        0 <= port,
        0 <= k <= x.len(),
        forall|j: int|
            0 <= j < x.len() ==> #[trigger] x[j] == if j == port {
                Cx::<T>::unit()
            } else {
                Cx::<T>::nought()
            },
    ensures
        ideal(u, x, i, k) == (if port < k {
            u.at(i, port)
        } else {
            Cx::<T>::nought()
        }),
    decreases k,
{
    complex_numbers_are_exact::<T>();
    if k > 0 {
        target_picks_a_column(u, x, port, i, k - 1);
        let e = u.at(i, k - 1);
        let zero = Cx::<T>::nought();
        ring(e, e, e);
        ring(zero, e, e);
        ring(zero, zero, zero);
        ring(u.at(i, port), zero, zero);
        assert(x[k - 1] == if k - 1 == port {
            Cx::<T>::unit()
        } else {
            zero
        });
    }
}

/// The distance of a matrix from itself is nothing, and goes both ways.
pub proof fn distance_goes_both_ways<T: Scalar>(a: Seq<Cx<T>>, b: Seq<Cx<T>>, k: int)
    requires
        exact_reals::<T>(),
        0 <= k,
    ensures
        distance_sq(a, b, k) == distance_sq(b, a, k),
        distance_sq(a, a, k) == T::zero_value(),
    decreases k,
{
    let zero = T::zero_value();
    if k > 0 {
        distance_goes_both_ways(a, b, k - 1);
        lemma_off(a[k - 1].re, b[k - 1].re);
        lemma_off(a[k - 1].im, b[k - 1].im);
        reals(a[k - 1].re, a[k - 1].re, zero);
        reals(a[k - 1].im, a[k - 1].im, zero);
        reals(zero, zero, zero);
    }
}

/// One entry counts by its power: where two matrices differ from a third in one
/// entry alone, their distances differ by the powers there.
pub proof fn distance_counts_every_entry<T: Scalar>(
    a: Seq<Cx<T>>,
    b: Seq<Cx<T>>,
    c: Seq<Cx<T>>,
    at: int,
    k: int,
)
    requires
        exact_reals::<T>(),
        0 <= at < k,
        forall|j: int| 0 <= j < k && j != at ==> #[trigger] a[j] == c[j],
    ensures
        distance_sq(a, b, k).sum(c[at].difference(b[at]).power()) == distance_sq(c, b, k).sum(
            a[at].difference(b[at]).power(),
        ),
    decreases k,
{
    let (p, q) = (a[at].difference(b[at]).power(), c[at].difference(b[at]).power());
    if at == k - 1 {
        lemma_same_distance(a, b, c, k - 1);
        let d = distance_sq(a, b, k - 1);
        reals(d, p, q);
        reals(p, q, d);
        reals(d, q, p);
    } else {
        distance_counts_every_entry(a, b, c, at, k - 1);
        let (d, e) = (distance_sq(a, b, k - 1), distance_sq(c, b, k - 1));
        let z = a[k - 1].difference(b[k - 1]).power();
        reals(d, z, q);
        reals(z, q, d);
        reals(d, q, z);
        reals(e, z, p);
        reals(z, p, e);
        reals(e, p, z);
    }
}

proof fn lemma_same_distance<T: Scalar>(a: Seq<Cx<T>>, b: Seq<Cx<T>>, c: Seq<Cx<T>>, k: int)
    requires
        0 <= k,
        forall|j: int| 0 <= j < k ==> #[trigger] a[j] == c[j],
    ensures
        distance_sq(a, b, k) == distance_sq(c, b, k),
    decreases k,
{
    if k > 0 {
        lemma_same_distance(a, b, c, k - 1);
    }
}

/// The greatest of some samples is none below any of them, nor below the start,
/// and is one of them or the start.
pub proof fn greatest_is_one<T: Scalar>(s: Seq<T>, start: T, n: int, j: int)
    requires
        monotone::<T>(),
        0 <= j < n <= s.len(),
    ensures
        greatest(s, start, n).at_least(s[j]),
        greatest(s, start, n).at_least(start),
        greatest(s, start, n) == start || exists|k: int|
            0 <= k < n && #[trigger] s[k] == greatest(s, start, n),
    decreases n,
{
    let g = greatest(s, start, n - 1);
    follows(s[n - 1], s[n - 1], s[n - 1]);
    follows(g, s[n - 1], g);
    follows(s[n - 1], g, g);
    if n - 1 > 0 {
        let i: int = if j < n - 1 {
            j
        } else {
            0
        };
        greatest_is_one(s, start, n - 1, i);
        follows(s[n - 1], g, s[j]);
        follows(s[n - 1], g, start);
        if g != start {
            let k = choose|k: int| 0 <= k < n - 1 && #[trigger] s[k] == g;
            assert(s[k] == g);
        }
    } else {
        follows(start, start, start);
        follows(s[0], start, start);
        follows(start, s[0], start);
    }
    if g.less_than(s[n - 1]) {
        assert(s[n - 1] == greatest(s, start, n));
    }
}

/// The worst error is none below that of any entry.
pub proof fn worst_error_bounds_every_entry<T: Scalar, M: Fn(Cx<T>) -> T>(
    a: Seq<Cx<T>>,
    b: Seq<Cx<T>>,
    magnitude: M,
    r: T,
    sizes: Seq<T>,
    j: int,
)
    requires
        monotone::<T>(),
        is_worst(a, b, magnitude, r, sizes),
        0 <= j < a.len(),
    ensures
        call_ensures(magnitude, (a[j].difference(b[j]),), sizes[j]),
        r.at_least(sizes[j]),
{
    greatest_is_one(sizes, T::zero_value(), sizes.len() as int, j);
}

/// The defect of a unitary matrix is nothing.
pub proof fn unitary_matrices_have_no_defect<T: Scalar>(u: &CMat<T>, n: int, q: int)
    requires
        exact_reals::<T>(),
        n >= 1,
        u.rows == n,
        u.cols == n,
        orthonormal(n, u),
        0 <= q <= n * n,
    ensures
        defect(u, q) == T::zero_value(),
    decreases q,
{
    let zero = T::zero_value();
    if q > 0 {
        unitary_matrices_have_no_defect(u, n, q - 1);
        let (i, j) = ((q - 1) / n, (q - 1) % n);
        vstd::arithmetic::div_mod::lemma_fundamental_div_mod(q - 1, n);
        vstd::arithmetic::div_mod::lemma_mod_bound(q - 1, n);
        assert(0 <= i < n) by (nonlinear_arith)
            requires
                n >= 1,
                0 <= q - 1 < n * n,
                q - 1 == n * i + j,
                0 <= j < n,
        ;
        let g = gram(u, i, j, n);
        reals(g.re, g.re, zero);
        reals(g.im, g.im, zero);
        reals(zero, zero, zero);
    }
}

/// A bench that realizes a matrix sets as many phases as the matrix has real
/// degrees of freedom, each by one modulator event, and a query samples every
/// output once for a multiplication per input.
pub proof fn reports_count_their_events<
    T: Scalar,
    V: Fn(T) -> bool,
    R: Fn(Cx<T>, Cx<T>) -> Null<T>,
    L: Fn(Cx<T>, Cx<T>) -> Null<T>,
    A: Fn(Cx<T>) -> T,
    S: Fn(T) -> T,
    C: Fn(T) -> T,
    Q: Fn(T) -> T,
    M: Fn(Cx<T>) -> T,
    I: Fn(usize, usize) -> Cx<T>,
>(
    bench: &Bench<T, V, R, L, A, S, C, Q, M>,
    u: &CMat<T>,
    n_queries: usize,
    inputs: I,
    mvm: OpticalMvm<T>,
    rebuilt: CMat<T>,
    xs: Seq<Seq<Cx<T>>>,
    r: &PhotonicReport<T>,
)
    requires
        bench.reported(u, n_queries, inputs, mvm, rebuilt, xs, r),
        bench.embeds(u, Ok(mvm.mesh)),
        u.rows * u.rows <= u64::MAX,
        n_queries * (u.rows * u.rows) <= u64::MAX,
    ensures
        mvm.mesh.phases() == u.rows * u.rows,
        r.n_phases == mvm.mesh.phases(),
        r.ledger.modulator_events == r.n_phases,
        r.ledger.adc_samples == n_queries * u.rows,
        r.ledger.macs == u.rows * r.ledger.adc_samples,
        2 * r.n_mzis == u.rows * (u.rows - 1),
{
    let (n, q) = (u.rows as int, n_queries as int);
    universal_mesh_has_square_phases(n, mvm.mesh.mzis@.len() as int);
    assert(q * (n * n) == n * (q * n)) by (nonlinear_arith);
    assert(0 <= q * n <= q * (n * n)) by (nonlinear_arith)
        requires
            0 <= q,
            0 <= n,
    ;
}

} // verus!
