//! What the elements of a Gaussian circuit do to the moments of a state: which
//! of them keep photons and which make them, what a homodyne detector sees, and
//! how alike two states are.
//!
//! The laws are ones of exact arithmetic.

use crate::exact::{counts_at, exact_counts, exact_field, exact_reals, lemma_cancel};
use crate::exact::{lemma_count_product, lemma_opposites, lemma_quotient, lemma_real_partners};
use crate::exact::{lemma_spread, reals};
use crate::gaussian::measure::kept;
use crate::gaussian::state::{embeds_one, embeds_two, is_beamsplitter, is_rotation, is_squeezer};
use crate::gaussian::state::{is_two_mode_squeezer, row_times, Boost, GaussianState, Turn};
use crate::gaussian::symplectic::{circular, hyperbolic};
use crate::matrix::Matrix;
use crate::scalar::Scalar;
use vstd::prelude::*;

verus! {

/// Row `i` of the map takes `a` of quadrature `p` and `b` of quadrature `q`, and
/// nothing of any other.
pub open spec fn takes<T: Scalar>(s: &Matrix<T>, n: int, i: int, p: int, q: int, a: T, b: T) -> bool {
    &&& 0 <= p < n
    &&& 0 <= q < n
    &&& p != q
    &&& s.at(i, p) == a
    &&& s.at(i, q) == b
    &&& forall|k: int| 0 <= k < n && k != p && k != q ==> #[trigger] s.at(i, k) == T::zero_value()
}

/// The term at `k` of a sum that has been taken up to `n`.
spec fn reached<T: Scalar>(k: int, n: int, x: T) -> T {
    if k < n {
        x
    } else {
        T::zero_value()
    }
}

/// One more term of a sum of two terms.
proof fn lemma_term<T: Scalar>(x: T, y: T)
    requires
        exact_reals::<T>(),
    ensures
        x.sum(T::zero_value()) == x,
        T::zero_value().sum(x) == x,
        T::zero_value().product(y) == T::zero_value(),
        y.product(T::zero_value()) == T::zero_value(),
        x.sum(y) == y.sum(x),
{
    lemma_opposites(x, y);
    lemma_opposites(y, x);
    reals(x, y, y);
    reals(y, x, x);
}

proof fn lemma_row<T: Scalar>(s: &Matrix<T>, v: Seq<T>, n: int, i: int, p: int, q: int, a: T, b: T, m: int)
    requires
        exact_reals::<T>(),
        takes(s, n, i, p, q, a, b),
        0 <= m <= n,
    ensures
        row_times(s, v, i, m) == reached(p, m, a.product(v[p])).sum(
            reached(q, m, b.product(v[q])),
        ),
    decreases m,
{
    let zero = T::zero_value();
    lemma_term(zero, zero);
    if m > 0 {
        lemma_row(s, v, n, i, p, q, a, b, m - 1);
        let (x, y) = (a.product(v[p]), b.product(v[q]));
        lemma_term(x, y);
        lemma_term(y, x);
        lemma_term(x.sum(y), v[m - 1]);
        lemma_term(x, v[m - 1]);
        lemma_term(y, v[m - 1]);
        assert(m - 1 != p && m - 1 != q ==> s.at(i, m - 1) == zero);
    }
}

proof fn lemma_left<T: Scalar>(
    s: &Matrix<T>,
    c: &Matrix<T>,
    n: int,
    i: int,
    j: int,
    p: int,
    q: int,
    a: T,
    b: T,
    m: int,
)
    requires
        exact_reals::<T>(),
        takes(s, n, i, p, q, a, b),
        0 <= m <= n,
    ensures
        Matrix::dot(s, c, i, j, m) == reached(p, m, a.product(c.at(p, j))).sum(
            reached(q, m, b.product(c.at(q, j))),
        ),
    decreases m,
{
    let zero = T::zero_value();
    lemma_term(zero, zero);
    if m > 0 {
        lemma_left(s, c, n, i, j, p, q, a, b, m - 1);
        let (x, y) = (a.product(c.at(p, j)), b.product(c.at(q, j)));
        lemma_term(x, y);
        lemma_term(y, x);
        lemma_term(x.sum(y), c.at(m - 1, j));
        lemma_term(x, c.at(m - 1, j));
        lemma_term(y, c.at(m - 1, j));
        assert(m - 1 != p && m - 1 != q ==> s.at(i, m - 1) == zero);
    }
}

proof fn lemma_right<T: Scalar>(
    l: &Matrix<T>,
    t: &Matrix<T>,
    s: &Matrix<T>,
    n: int,
    i: int,
    j: int,
    p: int,
    q: int,
    a: T,
    b: T,
    m: int,
)
    requires
        exact_reals::<T>(),
        takes(s, n, j, p, q, a, b),
        forall|k: int| 0 <= k < n ==> #[trigger] t.at(k, j) == s.at(j, k),
        0 <= m <= n,
    ensures
        Matrix::dot(l, t, i, j, m) == reached(p, m, l.at(i, p).product(a)).sum(
            reached(q, m, l.at(i, q).product(b)),
        ),
    decreases m,
{
    let zero = T::zero_value();
    lemma_term(zero, zero);
    if m > 0 {
        lemma_right(l, t, s, n, i, j, p, q, a, b, m - 1);
        let (x, y) = (l.at(i, p).product(a), l.at(i, q).product(b));
        lemma_term(x, y);
        lemma_term(y, x);
        lemma_term(x.sum(y), l.at(i, m - 1));
        lemma_term(x, l.at(i, m - 1));
        lemma_term(y, l.at(i, m - 1));
        assert(t.at(m - 1, j) == s.at(j, m - 1));
        assert(m - 1 != p && m - 1 != q ==> s.at(j, m - 1) == zero);
    }
}

/// A map takes means and covariances along: what its rows take of two
/// quadratures each.
proof fn lemma_taken<T: Scalar>(
    g: &GaussianState<T>,
    s: &Matrix<T>,
    after: &GaussianState<T>,
    i: int,
    j: int,
    by: (int, int, T, T),
    of: (int, int, T, T),
)
    requires
        exact_reals::<T>(),
        g.wf(),
        g.transformed(s, after),
        s.shaped(g.mean@.len() as int, g.mean@.len() as int),
        0 <= i < g.mean@.len(),
        0 <= j < g.mean@.len(),
        takes(s, g.mean@.len() as int, i, by.0, by.1, by.2, by.3),
        takes(s, g.mean@.len() as int, j, of.0, of.1, of.2, of.3),
    ensures
        after.mean@.len() == g.mean@.len(),
        after.mean@[i] == by.2.product(g.mean@[by.0]).sum(by.3.product(g.mean@[by.1])),
        after.cov.at(i, j) == by.2.product(g.cov.at(by.0, of.0)).sum(
            by.3.product(g.cov.at(by.1, of.0)),
        ).product(of.2).sum(
            by.2.product(g.cov.at(by.0, of.1)).sum(by.3.product(g.cov.at(by.1, of.1))).product(
                of.3,
            ),
        ),
{
    let n = g.mean@.len() as int;
    lemma_row(s, g.mean@, n, i, by.0, by.1, by.2, by.3, n);
    let (left, turned) = choose|left: Matrix<T>, turned: Matrix<T>|
        #![trigger left.is_product(s, &g.cov), turned.is_transpose(s)]
        left.is_product(s, &g.cov) && turned.is_transpose(s) && after.cov.is_product(
            &left,
            &turned,
        );
    lemma_left(s, &g.cov, n, i, of.0, by.0, by.1, by.2, by.3, n);
    lemma_left(s, &g.cov, n, i, of.1, by.0, by.1, by.2, by.3, n);
    assert(left.at(i, of.0) == Matrix::dot(s, &g.cov, i, of.0, n));
    assert(left.at(i, of.1) == Matrix::dot(s, &g.cov, i, of.1, n));
    lemma_right(&left, &turned, s, n, i, j, of.0, of.1, of.2, of.3, n);
    assert(after.cov.at(i, j) == Matrix::dot(&left, &turned, i, j, n));
}

/// `(c.a + s.b).c + (c.d + s.e).s`, term by term.
proof fn lemma_form<T: Scalar>(c: T, s: T, a: T, b: T, d: T, e: T)
    requires
        exact_reals::<T>(),
    ensures
        c.product(a).sum(s.product(b)).product(c).sum(
            c.product(d).sum(s.product(e)).product(s),
        ) == c.product(c).product(a).sum(c.product(s).product(b)).sum(
            c.product(s).product(d).sum(s.product(s).product(e)),
        ),
{
    lemma_spread(c.product(a), s.product(b), c);
    lemma_spread(c.product(d), s.product(e), s);
    reals(c, a, c);
    reals(a, c, c);
    reals(c, c, a);
    reals(s, b, c);
    reals(b, c, s);
    reals(s, c, b);
    reals(c, s, b);
    reals(c, d, s);
    reals(d, s, c);
    reals(c, s, d);
    reals(s, e, s);
    reals(e, s, s);
    reals(s, s, e);
}

/// A turned pair keeps its trace.
proof fn lemma_trace<T: Scalar>(c: T, s: T, a: T, b: T, d: T, e: T)
    requires
        exact_reals::<T>(),
        c.product(c).sum(s.product(s)) == T::of_count(1),
    ensures
        ({
            let n = s.negative();
            c.product(a).sum(s.product(b)).product(c).sum(
                c.product(d).sum(s.product(e)).product(s),
            ).sum(
                n.product(a).sum(c.product(b)).product(n).sum(
                    n.product(d).sum(c.product(e)).product(c),
                ),
            ) == a.sum(e)
        }),
{
    let (n, one, zero) = (s.negative(), T::of_count(1), T::zero_value());
    lemma_form(c, s, a, b, d, e);
    lemma_form(n, c, a, b, d, e);
    let (cc, cs, ss) = (c.product(c), c.product(s), s.product(s));
    lemma_spread(s, s, s);
    reals(s, c, c);
    reals(c, s, s);
    reals(n, c, c);
    assert(n.product(n) == ss);
    assert(n.product(c) == cs.negative());
    let (ca, cb, cd, ce) = (cc.product(a), cs.product(b), cs.product(d), ss.product(e));
    let (sa, se) = (ss.product(a), cc.product(e));
    reals(cs, b, b);
    reals(cs, d, d);
    let (mb, md) = (cb.negative(), cd.negative());
    // ((ca + cb) + (cd + ce)) + ((sa - cb) + (-cd + se))
    lemma_real_partners(ca.sum(cb), cd.sum(ce), sa.sum(mb), md.sum(se));
    lemma_real_partners(ca, cb, sa, mb);
    lemma_real_partners(cd, ce, md, se);
    reals(cb, mb, mb);
    reals(cd, md, md);
    lemma_term(ca.sum(sa), zero);
    lemma_term(ce.sum(se), zero);
    lemma_spread(cc, ss, a);
    lemma_spread(ss, cc, e);
    reals(ss, cc, cc);
    reals(cc, ss, ss);
    reals(a, one, one);
    reals(one, a, a);
    reals(e, one, one);
    reals(one, e, e);
}

/// `(c.x + s.p)` squared, as a form of the products of `x` and `p`.
proof fn lemma_square_form<T: Scalar>(c: T, s: T, x: T, p: T)
    requires
        exact_reals::<T>(),
    ensures
        ({
            let u = c.product(x).sum(s.product(p));
            u.product(u) == c.product(x.product(x)).sum(s.product(p.product(x))).product(c).sum(
                c.product(x.product(p)).sum(s.product(p.product(p))).product(s),
            )
        }),
{
    let u = c.product(x).sum(s.product(p));
    reals(u, c.product(x), s.product(p));
    // u.(c.x) = (u.x).c
    reals(c, x, u);
    reals(u, x, c);
    reals(x, c, u);
    reals(c, x, x);
    reals(u, s, p);
    reals(s, p, p);
    reals(u, p, s);
    reals(p, s, s);
    lemma_spread(c.product(x), s.product(p), x);
    lemma_spread(c.product(x), s.product(p), p);
    reals(c, x, x);
    reals(s, p, x);
    reals(c, x, p);
    reals(s, p, p);
}

/// A turned pair keeps the sum of its squares.
proof fn lemma_turned_squares<T: Scalar>(c: T, s: T, x: T, p: T)
    requires
        exact_reals::<T>(),
        c.product(c).sum(s.product(s)) == T::of_count(1),
    ensures
        ({
            let u = c.product(x).sum(s.product(p));
            let v = s.negative().product(x).sum(c.product(p));
            u.product(u).sum(v.product(v)) == x.product(x).sum(p.product(p))
        }),
{
    lemma_square_form(c, s, x, p);
    lemma_square_form(s.negative(), c, x, p);
    lemma_trace(c, s, x.product(x), p.product(x), x.product(p), p.product(p));
}

/// Variances of both quadratures of a mode and the squares of their means.
pub open spec fn content<T: Scalar>(g: &GaussianState<T>, mode: int) -> T {
    let (x, p) = (2 * mode, 2 * mode + 1);
    g.cov.at(x, x).sum(g.cov.at(p, p)).sum(
        g.mean@[x].product(g.mean@[x]).sum(g.mean@[p].product(g.mean@[p])),
    )
}

/// Numbers that hold the counts of photon numbers.
pub open spec fn quartered<T: Scalar>() -> bool {
    &&& exact_field::<T>()
    &&& exact_counts::<T>()
    &&& T::of_count(2) != T::zero_value()
    &&& T::of_count(4) != T::zero_value()
}

/// Four times the photon number and two make up the content.
proof fn lemma_photons<T: Scalar>(g: &GaussianState<T>, mode: int)
    requires
        quartered::<T>(),
    ensures
        g.photons(mode).product(T::of_count(4)).sum(T::of_count(2)) == content(g, mode),
{
    let (x, p) = (2 * mode, 2 * mode + 1);
    let (mx, mp) = (g.mean@[x].product(g.mean@[x]), g.mean@[p].product(g.mean@[p]));
    let v = g.cov.at(x, x).sum(g.cov.at(p, p));
    reals(v, mx, mp);
    let e = content(g, mode);
    let two = T::of_count(2);
    lemma_quotient(e.difference(two), T::of_count(4));
    reals(e, two, two);
    reals(e, two.negative(), two);
    reals(two.negative(), two, two);
    reals(two, two.negative(), two);
    reals(e, e, e);
}

/// What is known of the content is known of the photons.
proof fn lemma_photons_are<T: Scalar>(g: &GaussianState<T>, mode: int, n: T)
    requires
        quartered::<T>(),
        content(g, mode) == n.product(T::of_count(4)).sum(T::of_count(2)),
    ensures
        g.photons(mode) == n,
{
    let (two, four) = (T::of_count(2), T::of_count(4));
    lemma_photons(g, mode);
    let (a, b) = (g.photons(mode).product(four), n.product(four));
    reals(a, two, two.negative());
    reals(b, two, two.negative());
    reals(two, two.negative(), two);
    reals(a, a, a);
    reals(b, b, b);
    reals(g.photons(mode), four, four);
    reals(n, four, four);
    lemma_cancel(g.photons(mode), n, four);
}

/// The rows of a one-mode element.
proof fn lemma_one_mode<T: Scalar>(s: &Matrix<T>, s2: &Matrix<T>, modes: int, mode: int, a: T, b: T, c: T, d: T)
    requires
        embeds_one(s, modes, mode, s2),
        crate::gaussian::state::is_two(s2, a, b, c, d),
        0 <= mode < modes,
    ensures
        takes(s, 2 * modes, 2 * mode, 2 * mode, 2 * mode + 1, a, b),
        takes(s, 2 * modes, 2 * mode + 1, 2 * mode, 2 * mode + 1, c, d),
{
    let (x, p, n) = (2 * mode, 2 * mode + 1, 2 * modes);
    assert(x / 2 == mode && x % 2 == 0 && p / 2 == mode && p % 2 == 1);
    assert(s2.at(0, 0) == a && s2.at(0, 1) == b && s2.at(1, 0) == c && s2.at(1, 1) == d);
    assert(s.at(x, x) == s2.at(x % 2, x % 2));
    assert(s.at(x, p) == s2.at(x % 2, p % 2));
    assert(s.at(p, x) == s2.at(p % 2, x % 2));
    assert(s.at(p, p) == s2.at(p % 2, p % 2));
    assert forall|k: int| 0 <= k < n && k != x && k != p implies #[trigger] s.at(x, k)
        == T::zero_value() by {
        assert(k / 2 != mode);
    }
    assert forall|k: int| 0 <= k < n && k != x && k != p implies #[trigger] s.at(p, k)
        == T::zero_value() by {
        assert(k / 2 != mode);
    }
}

/// A homodyne detector at an angle sees what one at rest sees of the mode
/// rotated by that angle: the mean and, where the covariance is symmetric, the
/// variance of its first quadrature.
pub proof fn rotating_turns_the_detector<T: Scalar>(
    g: &GaussianState<T>,
    mode: int,
    t: Turn<T>,
    after: &GaussianState<T>,
)
    requires
        exact_reals::<T>(),
        exact_counts::<T>(),
        g.wf(),
        0 <= mode < g.modes(),
        g.rotated(mode, t, after),
        g.cov.at(2 * mode, 2 * mode + 1) == g.cov.at(2 * mode + 1, 2 * mode),
    ensures
        after.mean@[2 * mode] == g.marginal(mode, t).0,
        after.cov.at(2 * mode, 2 * mode) == g.marginal(mode, t).1,
{
    let (s2, s) = choose|s2: Matrix<T>, s: Matrix<T>|
        #![trigger is_rotation(&s2, t), g.transformed(&s, after)]
        is_rotation(&s2, t) && embeds_one(&s, g.modes(), mode, &s2) && g.transformed(&s, after);
    let (c, d) = (t.cos, t.sin);
    lemma_one_mode(&s, &s2, g.modes(), mode, c, d, d.negative(), c);
    let (x, p) = (2 * mode, 2 * mode + 1);
    lemma_taken(g, &s, after, x, x, (x, p, c, d), (x, p, c, d));
    let (a, b, e) = (g.cov.at(x, x), g.cov.at(x, p), g.cov.at(p, p));
    lemma_form(c, d, a, b, b, e);
    // 2.c.d.b = c.d.b + c.d.b
    let (one, y) = (T::of_count(1), c.product(d).product(b));
    assert(counts_at::<T>(1, 1));
    reals(T::of_count(2), c, d);
    reals(T::of_count(2), c.product(d), b);
    lemma_spread(one, one, y);
    reals(y, one, one);
    reals(one, y, y);
    let (l, r) = (c.product(c).product(a), d.product(d).product(e));
    reals(l, y, y.sum(r));
    reals(y, y, r);
    reals(l, y.sum(y), r);
}

/// A rotation keeps the photons of its mode.
pub proof fn rotation_keeps_photons<T: Scalar>(
    g: &GaussianState<T>,
    mode: int,
    t: Turn<T>,
    after: &GaussianState<T>,
)
    requires
        quartered::<T>(),
        circular(t),
        g.wf(),
        0 <= mode < g.modes(),
        g.rotated(mode, t, after),
    ensures
        after.photons(mode) == g.photons(mode),
{
    let (s2, s) = choose|s2: Matrix<T>, s: Matrix<T>|
        #![trigger is_rotation(&s2, t), g.transformed(&s, after)]
        is_rotation(&s2, t) && embeds_one(&s, g.modes(), mode, &s2) && g.transformed(&s, after);
    let (c, d) = (t.cos, t.sin);
    let n = d.negative();
    lemma_one_mode(&s, &s2, g.modes(), mode, c, d, n, c);
    let (x, p) = (2 * mode, 2 * mode + 1);
    lemma_taken(g, &s, after, x, x, (x, p, c, d), (x, p, c, d));
    lemma_taken(g, &s, after, p, p, (x, p, n, c), (x, p, n, c));
    lemma_trace(c, d, g.cov.at(x, x), g.cov.at(p, x), g.cov.at(x, p), g.cov.at(p, p));
    lemma_turned_squares(c, d, g.mean@[x], g.mean@[p]);
    lemma_photons(g, mode);
    lemma_photons_are(after, mode, g.photons(mode));
}

/// The vacuum holds no photon.
pub proof fn vacuum_is_empty<T: Scalar>(g: &GaussianState<T>, mode: int)
    requires
        quartered::<T>(),
        0 <= mode < g.modes(),
        g.mean@.len() == 2 * g.modes(),
        g.cov.is_identity(g.mean@.len() as int),
        g.mean@ == Seq::new(g.mean@.len(), |k: int| T::zero_value()),
    ensures
        g.photons(mode) == T::zero_value(),
{
    let (zero, one) = (T::zero_value(), T::of_count(1));
    let (x, p) = (2 * mode, 2 * mode + 1);
    assert(g.cov.at(x, x) == one && g.cov.at(p, p) == one);
    lemma_term(zero, zero);
    assert(counts_at::<T>(1, 1));
    lemma_term(T::of_count(2), T::of_count(4));
    lemma_photons_are(g, mode, zero);
}

/// Squeezed vacuum holds the square of the hyperbolic sine of its strength in
/// photons, whatever the axis.
pub proof fn squeezing_makes_photons<T: Scalar>(
    g: &GaussianState<T>,
    mode: int,
    b: Boost<T>,
    t: Turn<T>,
    after: &GaussianState<T>,
)
    requires
        quartered::<T>(),
        circular(t),
        hyperbolic(b),
        g.wf(),
        0 <= mode < g.modes(),
        g.mean@.len() == 2 * g.modes(),
        g.cov.is_identity(g.mean@.len() as int),
        g.mean@ == Seq::new(g.mean@.len(), |k: int| T::zero_value()),
        g.squeezed_into(mode, b, t, after),
    ensures
        after.photons(mode) == b.sinh.product(b.sinh),
{
    let (s2, s) = choose|s2: Matrix<T>, s: Matrix<T>|
        #![trigger is_squeezer(&s2, b, t), g.transformed(&s, after)]
        is_squeezer(&s2, b, t) && embeds_one(&s, g.modes(), mode, &s2) && g.transformed(
            &s,
            after,
        );
    let (zero, one) = (T::zero_value(), T::of_count(1));
    let (ch, sh) = (b.cosh, b.sinh);
    let (k, m) = (sh.product(t.cos), sh.product(t.sin));
    let cross = sh.negative().product(t.sin);
    reals(sh, t.sin, zero);
    let (a, d) = (ch.difference(k), ch.sum(k));
    lemma_one_mode(&s, &s2, g.modes(), mode, a, cross, cross, d);
    let (x, p) = (2 * mode, 2 * mode + 1);
    lemma_taken(g, &s, after, x, x, (x, p, a, cross), (x, p, a, cross));
    lemma_taken(g, &s, after, p, p, (x, p, cross, d), (x, p, cross, d));
    assert(g.cov.at(x, x) == one && g.cov.at(p, p) == one);
    assert(g.cov.at(x, p) == zero && g.cov.at(p, x) == zero);
    lemma_unit_form(a, cross);
    lemma_unit_form(cross, d);
    lemma_term(a, a);
    lemma_term(cross, cross);
    lemma_term(d, d);
    lemma_term(zero, zero);
    assert(after.mean@[x] == zero && after.mean@[p] == zero);
    // (a^2 + m^2) + (m^2 + d^2) = 2.ch^2 + 2.k^2 + 2.m^2 = 4.sh^2 + 2
    lemma_spread(m, m, m);
    let (cc, ss) = (ch.product(ch), sh.product(sh));
    let (kk, mm) = (k.product(k), m.product(m));
    assert(cross == m.negative());
    assert(cross.product(cross) == mm);
    let (aa, dd) = (a.product(a), d.product(d));
    lemma_real_partners(aa, mm, mm, dd);
    reals(mm, dd, dd);
    reals(aa, mm, dd);
    lemma_real_partners(aa, mm, dd, mm);
    lemma_binomials(ch, k);
    assert(aa.sum(mm).sum(mm.sum(dd)) == cc.sum(kk).sum(cc.sum(kk)).sum(mm.sum(mm)));
    lemma_real_partners(cc.sum(kk), cc.sum(kk), mm, mm);
    reals(cc, kk, mm);
    // k^2 + m^2 = sh^2
    lemma_squares_of(sh, t.cos);
    lemma_squares_of(sh, t.sin);
    reals(ss, t.cos.product(t.cos), t.sin.product(t.sin));
    reals(ss, one, one);
    assert(kk.sum(mm) == ss);
    lemma_pair_content(cc, ss);
    lemma_term(cc.sum(ss).sum(cc.sum(ss)), zero);
    lemma_photons_are(after, mode, ss);
}

/// Where `cc - ss` is one, `(cc + ss) + (cc + ss)` is four times `ss` and two.
proof fn lemma_pair_content<T: Scalar>(cc: T, ss: T)
    requires
        exact_counts::<T>(),
        cc.difference(ss) == T::of_count(1),
    ensures
        cc.sum(ss).sum(cc.sum(ss)) == ss.product(T::of_count(4)).sum(T::of_count(2)),
{
    let (one, two) = (T::of_count(1), T::of_count(2));
    // cc = 1 + ss
    reals(cc, ss, ss);
    reals(cc, ss.negative(), ss);
    reals(ss.negative(), ss, ss);
    reals(ss, ss.negative(), ss);
    reals(cc, cc, cc);
    assert(cc == one.sum(ss));
    reals(one, ss, ss);
    let y = ss.sum(ss);
    assert(cc.sum(ss) == one.sum(y));
    lemma_real_partners(one, y, one, y);
    assert(counts_at::<T>(1, 1));
    assert(counts_at::<T>(2, 2));
    reals(ss, two, two);
    reals(ss, one, one);
    reals(two, y.sum(y), two);
    reals(y.sum(y), two, two);
}

/// The form of a row on the vacuum: the sum of its squares.
proof fn lemma_unit_form<T: Scalar>(a: T, b: T)
    requires
        exact_reals::<T>(),
    ensures
        ({
            let (zero, one) = (T::zero_value(), T::of_count(1));
            a.product(one).sum(b.product(zero)).product(a).sum(
                a.product(zero).sum(b.product(one)).product(b),
            ) == a.product(a).sum(b.product(b))
        }),
{
    let (zero, one) = (T::zero_value(), T::of_count(1));
    reals(a, one, one);
    reals(b, one, one);
    lemma_term(a, b);
    lemma_term(b, a);
}

/// `(x.y).(x.y)` is `(x.x).(y.y)`.
proof fn lemma_squares_of<T: Scalar>(x: T, y: T)
    requires
        exact_reals::<T>(),
    ensures
        x.product(y).product(x.product(y)) == x.product(x).product(y.product(y)),
{
    reals(x, y, x.product(y));
    reals(y, x, y);
    reals(x, y, y);
    reals(x, x, y.product(y));
}

/// `(c - k)^2 + (c + k)^2` is `(c.c + k.k)` twice.
proof fn lemma_binomials<T: Scalar>(c: T, k: T)
    requires
        exact_reals::<T>(),
    ensures
        ({
            let (a, d) = (c.difference(k), c.sum(k));
            let w = c.product(c).sum(k.product(k));
            a.product(a).sum(d.product(d)) == w.sum(w)
        }),
{
    let (a, d, n) = (c.difference(k), c.sum(k), k.negative());
    let (cc, ck, kk) = (c.product(c), c.product(k), k.product(k));
    reals(c, k, k);
    reals(k, c, c);
    // d.d = (cc + ck) + (ck + kk)
    reals(d, c, k);
    lemma_spread(c, k, c);
    lemma_spread(c, k, k);
    // a.a = (cc - ck) + (-ck + kk)
    reals(a, c, n);
    lemma_spread(c, k, c);
    lemma_spread(c, k, n);
    lemma_spread(k, k, k);
    lemma_spread(c, k, k);
    let m = ck.negative();
    lemma_opposites(kk, kk);
    reals(k, k, k);
    assert(d.product(d) == cc.sum(ck).sum(ck.sum(kk)));
    assert(a.product(c) == cc.sum(m));
    assert(c.product(n) == m);
    assert(k.product(n) == kk.negative());
    assert(a.product(n) == m.sum(kk));
    assert(a.product(a) == cc.sum(m).sum(m.sum(kk)));
    lemma_real_partners(cc.sum(m), m.sum(kk), cc.sum(ck), ck.sum(kk));
    lemma_real_partners(cc, m, cc, ck);
    lemma_real_partners(m, kk, ck, kk);
    reals(m, ck, ck);
    reals(ck, m, m);
    lemma_term(cc.sum(cc), cc);
    lemma_term(kk.sum(kk), cc);
    lemma_real_partners(cc, cc, kk, kk);
}

/// The rows of a two-mode element whose blocks are diagonal.
proof fn lemma_two_modes<T: Scalar>(
    s: &Matrix<T>,
    s4: &Matrix<T>,
    modes: int,
    a: int,
    b: int,
    k: (T, T, T, T),
    l: (T, T, T, T),
)
    requires
        embeds_two(s, modes, a, b, s4),
        crate::gaussian::state::is_four(s4, k.0, k.1, k.2, k.3, l.0, l.1, l.2, l.3),
        0 <= a < modes,
        0 <= b < modes,
        a != b,
    ensures
        takes(s, 2 * modes, 2 * a, 2 * a, 2 * b, k.0, k.1),
        takes(s, 2 * modes, 2 * a + 1, 2 * a + 1, 2 * b + 1, k.2, k.3),
        takes(s, 2 * modes, 2 * b, 2 * a, 2 * b, l.0, l.1),
        takes(s, 2 * modes, 2 * b + 1, 2 * a + 1, 2 * b + 1, l.2, l.3),
{
    use_rows(s, s4, modes, a, b, k, l, 2 * a);
    use_rows(s, s4, modes, a, b, k, l, 2 * a + 1);
    use_rows(s, s4, modes, a, b, k, l, 2 * b);
    use_rows(s, s4, modes, a, b, k, l, 2 * b + 1);
}

/// Row `i` of such an element, where it belongs to one of the two modes.
proof fn use_rows<T: Scalar>(
    s: &Matrix<T>,
    s4: &Matrix<T>,
    modes: int,
    a: int,
    b: int,
    k: (T, T, T, T),
    l: (T, T, T, T),
    i: int,
)
    requires
        embeds_two(s, modes, a, b, s4),
        crate::gaussian::state::is_four(s4, k.0, k.1, k.2, k.3, l.0, l.1, l.2, l.3),
        0 <= a < modes,
        0 <= b < modes,
        a != b,
        i / 2 == a || i / 2 == b,
        0 <= i < 2 * modes,
    ensures
        ({
            let r = i % 2;
            let (p, q) = (2 * a + r, 2 * b + r);
            let (x, y) = if i / 2 == a {
                if r == 0 {
                    (k.0, k.1)
                } else {
                    (k.2, k.3)
                }
            } else {
                if r == 0 {
                    (l.0, l.1)
                } else {
                    (l.2, l.3)
                }
            };
            takes(s, 2 * modes, i, p, q, x, y)
        }),
{
    let r = i % 2;
    let (p, q) = (2 * a + r, 2 * b + r);
    let o = T::zero_value();
    assert(s4.at(0, 0) == k.0 && s4.at(0, 1) == o && s4.at(0, 2) == k.1 && s4.at(0, 3) == o);
    assert(s4.at(1, 0) == o && s4.at(1, 1) == k.2 && s4.at(1, 2) == o && s4.at(1, 3) == k.3);
    assert(s4.at(2, 0) == l.0 && s4.at(2, 1) == o && s4.at(2, 2) == l.1 && s4.at(2, 3) == o);
    assert(s4.at(3, 0) == o && s4.at(3, 1) == l.2 && s4.at(3, 2) == o && s4.at(3, 3) == l.3);
    let at = crate::gaussian::state::slot(i, a, b);
    assert(crate::gaussian::state::slot(p, a, b) == r);
    assert(crate::gaussian::state::slot(q, a, b) == 2 + r);
    assert(s.at(i, p) == s4.at(at, r));
    assert(s.at(i, q) == s4.at(at, 2 + r));
    assert forall|m: int| 0 <= m < 2 * modes && m != p && m != q implies #[trigger] s.at(i, m)
        == o by {
        let to = crate::gaussian::state::slot(m, a, b);
        if to >= 0 {
            assert(s.at(i, m) == s4.at(at, to));
            assert(to == 1 - r || to == 3 - r);
        }
    }
}

/// A beamsplitter keeps photons: its two modes hold as many after as before.
pub proof fn beamsplitter_keeps_photons<T: Scalar>(
    g: &GaussianState<T>,
    a: int,
    b: int,
    t: Turn<T>,
    after: &GaussianState<T>,
)
    requires
        quartered::<T>(),
        circular(t),
        g.wf(),
        0 <= a < g.modes(),
        0 <= b < g.modes(),
        a != b,
        g.mixed_into(a, b, t, after),
    ensures
        after.photons(a).sum(after.photons(b)) == g.photons(a).sum(g.photons(b)),
        after.mean@[2 * a] == t.cos.product(g.mean@[2 * a]).sum(t.sin.product(g.mean@[2 * b])),
        after.mean@[2 * a + 1] == t.cos.product(g.mean@[2 * a + 1]).sum(
            t.sin.product(g.mean@[2 * b + 1]),
        ),
{
    let (s4, s) = choose|s4: Matrix<T>, s: Matrix<T>|
        #![trigger is_beamsplitter(&s4, t), g.transformed(&s, after)]
        is_beamsplitter(&s4, t) && embeds_two(&s, g.modes(), a, b, &s4) && g.transformed(&s, after);
    let (c, d) = (t.cos, t.sin);
    let n = d.negative();
    lemma_two_modes(&s, &s4, g.modes(), a, b, (c, d, c, d), (n, c, n, c));
    let (xa, pa, xb, pb) = (2 * a, 2 * a + 1, 2 * b, 2 * b + 1);
    lemma_taken(g, &s, after, xa, xa, (xa, xb, c, d), (xa, xb, c, d));
    lemma_taken(g, &s, after, xb, xb, (xa, xb, n, c), (xa, xb, n, c));
    lemma_taken(g, &s, after, pa, pa, (pa, pb, c, d), (pa, pb, c, d));
    lemma_taken(g, &s, after, pb, pb, (pa, pb, n, c), (pa, pb, n, c));
    lemma_trace(c, d, g.cov.at(xa, xa), g.cov.at(xb, xa), g.cov.at(xa, xb), g.cov.at(xb, xb));
    lemma_trace(c, d, g.cov.at(pa, pa), g.cov.at(pb, pa), g.cov.at(pa, pb), g.cov.at(pb, pb));
    lemma_turned_squares(c, d, g.mean@[xa], g.mean@[xb]);
    lemma_turned_squares(c, d, g.mean@[pa], g.mean@[pb]);
    lemma_contents(g, a, b);
    lemma_contents(after, a, b);
    // 4.(n_a + n_b) + 4
    lemma_photons(g, a);
    lemma_photons(g, b);
    lemma_photons(after, a);
    lemma_photons(after, b);
    lemma_both(g.photons(a), g.photons(b), after.photons(a), after.photons(b));
}

/// Contents of two modes, quadrature by quadrature.
proof fn lemma_contents<T: Scalar>(g: &GaussianState<T>, a: int, b: int)
    requires
        exact_reals::<T>(),
    ensures
        ({
            let (xa, pa, xb, pb) = (2 * a, 2 * a + 1, 2 * b, 2 * b + 1);
            let v = g.cov.at(xa, xa).sum(g.cov.at(xb, xb)).sum(
                g.cov.at(pa, pa).sum(g.cov.at(pb, pb)),
            );
            let m = g.mean@[xa].product(g.mean@[xa]).sum(g.mean@[xb].product(g.mean@[xb])).sum(
                g.mean@[pa].product(g.mean@[pa]).sum(g.mean@[pb].product(g.mean@[pb])),
            );
            content(g, a).sum(content(g, b)) == v.sum(m)
        }),
{
    let (xa, pa, xb, pb) = (2 * a, 2 * a + 1, 2 * b, 2 * b + 1);
    let (va, vb) = (g.cov.at(xa, xa).sum(g.cov.at(pa, pa)), g.cov.at(xb, xb).sum(g.cov.at(pb, pb)));
    let sq = |k: int| g.mean@[k].product(g.mean@[k]);
    let (ma, mb) = (sq(xa).sum(sq(pa)), sq(xb).sum(sq(pb)));
    lemma_real_partners(va, ma, vb, mb);
    lemma_real_partners(g.cov.at(xa, xa), g.cov.at(pa, pa), g.cov.at(xb, xb), g.cov.at(pb, pb));
    lemma_real_partners(sq(xa), sq(pa), sq(xb), sq(pb));
}

/// Photon numbers of two modes add up alike where their contents do.
proof fn lemma_both<T: Scalar>(x: T, y: T, u: T, v: T)
    requires
        quartered::<T>(),
        ({
            let (two, four) = (T::of_count(2), T::of_count(4));
            x.product(four).sum(two).sum(y.product(four).sum(two)) == u.product(four).sum(two).sum(
                v.product(four).sum(two),
            )
        }),
    ensures
        u.sum(v) == x.sum(y),
{
    let (two, four) = (T::of_count(2), T::of_count(4));
    lemma_real_partners(x.product(four), two, y.product(four), two);
    lemma_real_partners(u.product(four), two, v.product(four), two);
    lemma_spread(x, y, four);
    lemma_spread(u, v, four);
    let (p, q, w) = (x.sum(y).product(four), u.sum(v).product(four), two.sum(two));
    reals(p, w, w.negative());
    reals(q, w, w.negative());
    reals(w, w.negative(), w);
    reals(p, p, p);
    reals(q, q, q);
    reals(x.sum(y), four, four);
    reals(u.sum(v), four, four);
    lemma_cancel(u.sum(v), x.sum(y), four);
}

/// Two-mode squeezed vacuum holds the square of the hyperbolic sine of its
/// strength in photons in either mode; its first quadratures are correlated
/// and its second ones as much against each other.
pub proof fn entangling_makes_pairs<T: Scalar>(
    g: &GaussianState<T>,
    a: int,
    b: int,
    k: Boost<T>,
    after: &GaussianState<T>,
)
    requires
        quartered::<T>(),
        hyperbolic(k),
        g.wf(),
        0 <= a < g.modes(),
        0 <= b < g.modes(),
        a != b,
        g.mean@.len() == 2 * g.modes(),
        g.cov.is_identity(g.mean@.len() as int),
        g.mean@ == Seq::new(g.mean@.len(), |k: int| T::zero_value()),
        g.entangled_into(a, b, k, after),
    ensures
        after.photons(a) == k.sinh.product(k.sinh),
        after.photons(b) == k.sinh.product(k.sinh),
        ({
            let twice = k.cosh.product(k.sinh).sum(k.cosh.product(k.sinh));
            &&& after.cov.at(2 * a, 2 * b) == twice
            &&& after.cov.at(2 * a + 1, 2 * b + 1) == twice.negative()
        }),
{
    let (s4, s) = choose|s4: Matrix<T>, s: Matrix<T>|
        #![trigger is_two_mode_squeezer(&s4, k), g.transformed(&s, after)]
        is_two_mode_squeezer(&s4, k) && embeds_two(&s, g.modes(), a, b, &s4) && g.transformed(
            &s,
            after,
        );
    let (zero, one) = (T::zero_value(), T::of_count(1));
    let (c, d) = (k.cosh, k.sinh);
    let n = d.negative();
    lemma_two_modes(&s, &s4, g.modes(), a, b, (c, d, c, n), (d, c, n, c));
    let (xa, pa, xb, pb) = (2 * a, 2 * a + 1, 2 * b, 2 * b + 1);
    lemma_taken(g, &s, after, xa, xa, (xa, xb, c, d), (xa, xb, c, d));
    lemma_taken(g, &s, after, xb, xb, (xa, xb, d, c), (xa, xb, d, c));
    lemma_taken(g, &s, after, pa, pa, (pa, pb, c, n), (pa, pb, c, n));
    lemma_taken(g, &s, after, pb, pb, (pa, pb, n, c), (pa, pb, n, c));
    lemma_taken(g, &s, after, xa, xb, (xa, xb, c, d), (xa, xb, d, c));
    lemma_taken(g, &s, after, pa, pb, (pa, pb, c, n), (pa, pb, n, c));
    assert(g.cov.at(xa, xa) == one && g.cov.at(xb, xb) == one);
    assert(g.cov.at(pa, pa) == one && g.cov.at(pb, pb) == one);
    assert(g.cov.at(xa, xb) == zero && g.cov.at(xb, xa) == zero);
    assert(g.cov.at(pa, pb) == zero && g.cov.at(pb, pa) == zero);
    lemma_unit_form(c, d);
    lemma_unit_form(d, c);
    lemma_unit_form(c, n);
    lemma_unit_form(n, c);
    lemma_term(c, d);
    lemma_term(d, c);
    lemma_term(n, c);
    lemma_term(c, n);
    lemma_term(zero, zero);
    lemma_term(zero, c);
    lemma_term(zero, d);
    lemma_term(zero, n);
    let (cc, ss) = (c.product(c), d.product(d));
    lemma_spread(d, d, d);
    reals(ss, cc, cc);
    reals(cc, ss, ss);
    lemma_pair_content(cc, ss);
    lemma_term(cc.sum(ss).sum(cc.sum(ss)), zero);
    lemma_photons_are(after, a, ss);
    lemma_photons_are(after, b, ss);
    // c.1.d + d.1.c
    reals(c, one, one);
    reals(d, one, one);
    reals(n, one, one);
    reals(d, c, c);
    reals(c, d, d);
    let cd = c.product(d);
    lemma_spread(c, d, c);
    reals(d, c, d);
    lemma_opposites(cd, cd);
}

/// Displacing a mode adds photons: those of the amplitude, and its overlap with
/// what the mode held. Covariances and the other modes stay.
pub proof fn displacing_adds_photons<T: Scalar>(
    g: &GaussianState<T>,
    mode: int,
    re: T,
    im: T,
    after: &GaussianState<T>,
    other: int,
)
    requires
        quartered::<T>(),
        0 <= mode < g.modes(),
        g.mean@.len() == 2 * g.modes(),
        0 <= other < g.modes(),
        g.displaced_into(mode, re, im, after),
    ensures
        ({
            let (mx, mp) = (g.mean@[2 * mode], g.mean@[2 * mode + 1]);
            after.photons(mode) == g.photons(mode).sum(
                re.product(re).sum(im.product(im)).sum(mx.product(re).sum(mp.product(im))),
            )
        }),
        other != mode ==> after.photons(other) == g.photons(other),
{
    let (two, four) = (T::of_count(2), T::of_count(4));
    let (x, p) = (g.mean@[2 * mode], g.mean@[2 * mode + 1]);
    lemma_lifted(x, re);
    lemma_lifted(p, im);
    let (xx, pp) = (x.product(x), p.product(p));
    let (u, w) = (re.product(re).sum(x.product(re)), im.product(im).sum(p.product(im)));
    let v = g.cov.at(2 * mode, 2 * mode).sum(g.cov.at(2 * mode + 1, 2 * mode + 1));
    lemma_real_partners(xx, u.product(four), pp, w.product(four));
    lemma_spread(u, w, four);
    let more = u.sum(w).product(four);
    reals(v, xx.sum(pp), more);
    assert(content(after, mode) == content(g, mode).sum(more));
    lemma_photons(g, mode);
    let n = g.photons(mode);
    reals(n.product(four), two, more);
    reals(two, more, more);
    reals(n.product(four), more, two);
    lemma_spread(n, u.sum(w), four);
    lemma_photons_are(after, mode, n.sum(u.sum(w)));
    lemma_real_partners(re.product(re), x.product(re), im.product(im), p.product(im));
}

/// `(x + 2.r)` squared is `x.x` and four times `r.r + x.r`.
proof fn lemma_lifted<T: Scalar>(x: T, r: T)
    requires
        exact_counts::<T>(),
    ensures
        ({
            let y = x.sum(T::of_count(2).product(r));
            y.product(y) == x.product(x).sum(
                r.product(r).sum(x.product(r)).product(T::of_count(4)),
            )
        }),
{
    let (one, two, four) = (T::of_count(1), T::of_count(2), T::of_count(4));
    let t = two.product(r);
    let y = x.sum(t);
    reals(y, x, t);
    lemma_spread(x, t, x);
    lemma_spread(x, t, t);
    let (xx, xt, tt) = (x.product(x), x.product(t), t.product(t));
    reals(t, x, x);
    reals(x, t, t);
    // (xx + xt) + (xt + tt) = xx + ((xt + xt) + tt)
    reals(xx, xt, xt.sum(tt));
    reals(xt, xt, tt);
    // xt + xt = 4.(x.r)
    reals(x, two, r);
    reals(two, x, r);
    let xr = x.product(r);
    assert(xt == two.product(xr));
    lemma_spread(two, two, xr);
    assert(counts_at::<T>(2, 2));
    // tt = 4.(r.r)
    lemma_squares_of(two, r);
    lemma_count_product::<T>(2, 2);
    let rr = r.product(r);
    reals(four, rr, xr);
    reals(four.product(rr), four.product(xr), x);
    reals(rr.sum(xr), four, four);
}

/// Displacements add up.
pub proof fn displacements_add_up<T: Scalar>(
    g: &GaussianState<T>,
    mode: int,
    a: (T, T),
    b: (T, T),
    mid: &GaussianState<T>,
    twice: &GaussianState<T>,
    once: &GaussianState<T>,
)
    requires
        exact_reals::<T>(),
        g.mean@.len() == 2 * g.modes(),
        0 <= mode < g.modes(),
        g.displaced_into(mode, a.0, a.1, mid),
        mid.displaced_into(mode, b.0, b.1, twice),
        g.displaced_into(mode, a.0.sum(b.0), a.1.sum(b.1), once),
    ensures
        twice.mean@ == once.mean@,
        twice.cov == once.cov,
{
    let two = T::of_count(2);
    let (x, p) = (g.mean@[2 * mode], g.mean@[2 * mode + 1]);
    reals(two, a.0, b.0);
    reals(two, a.1, b.1);
    reals(x, two.product(a.0), two.product(b.0));
    reals(p, two.product(a.1), two.product(b.1));
    assert(twice.mean@ =~= once.mean@);
}

/// A coherent state holds the square of its amplitude in photons.
pub proof fn coherent_states_hold_their_amplitude<T: Scalar>(
    g: &GaussianState<T>,
    alphas: Seq<(T, T)>,
    k: int,
)
    requires
        quartered::<T>(),
        g.of_amplitudes(alphas),
        0 <= k < alphas.len(),
    ensures
        g.photons(k) == alphas[k].0.product(alphas[k].0).sum(alphas[k].1.product(alphas[k].1)),
{
    let (zero, one, two, four) = (
        T::zero_value(),
        T::of_count(1),
        T::of_count(2),
        T::of_count(4),
    );
    let (re, im) = alphas[k];
    assert(g.cov.at(2 * k, 2 * k) == one && g.cov.at(2 * k + 1, 2 * k + 1) == one);
    lemma_lifted(zero, re);
    lemma_lifted(zero, im);
    lemma_term(zero, re);
    lemma_term(zero, im);
    let (rr, ii) = (re.product(re), im.product(im));
    lemma_term(rr, rr);
    lemma_term(ii, ii);
    lemma_term(rr.product(four), zero);
    lemma_term(ii.product(four), zero);
    lemma_term(zero, zero);
    assert(counts_at::<T>(1, 1));
    lemma_spread(rr, ii, four);
    let m = rr.sum(ii).product(four);
    reals(two, m, m);
    lemma_photons_are(g, k, rr.sum(ii));
}

/// A thermal state holds its occupation in photons.
pub proof fn thermal_states_hold_their_occupation<T: Scalar>(
    g: &GaussianState<T>,
    nbars: Seq<T>,
    k: int,
)
    requires
        quartered::<T>(),
        g.of_occupations(nbars),
        0 <= k < nbars.len(),
    ensures
        g.photons(k) == nbars[k],
{
    let (zero, one, two, four) = (
        T::zero_value(),
        T::of_count(1),
        T::of_count(2),
        T::of_count(4),
    );
    let n = nbars[k];
    assert((2 * k) / 2 == k && (2 * k + 1) / 2 == k);
    let v = two.product(n).sum(one);
    assert(g.cov.at(2 * k, 2 * k) == v && g.cov.at(2 * k + 1, 2 * k + 1) == v);
    lemma_term(zero, zero);
    lemma_term(v.sum(v), zero);
    lemma_real_partners(two.product(n), one, two.product(n), one);
    assert(counts_at::<T>(1, 1));
    assert(counts_at::<T>(2, 2));
    lemma_spread(two, two, n);
    reals(four, n, n);
    lemma_photons_are(g, k, n);
}

/// Conditioning moves means by the outcome and takes off variance whatever it
/// is: a mean moves by its covariance with the outcome over the variance of the
/// outcome, per unit that the outcome is off its own mean; a covariance falls
/// by the product of both covariances with the outcome over that variance.
pub proof fn conditioning_follows_the_outcome<T: Scalar>(
    g: &GaussianState<T>,
    mode: int,
    m: T,
    after: &GaussianState<T>,
    a: int,
    b: int,
)
    requires
        exact_field::<T>(),
        g.conditioned(mode, m, after),
        g.cov.at(2 * mode, 2 * mode) != T::zero_value(),
        0 <= a < g.mean@.len() - 2,
        0 <= b < g.mean@.len() - 2,
    ensures
        ({
            let q = 2 * mode;
            let var = g.cov.at(q, q);
            let (i, j) = (kept(mode, a), kept(mode, b));
            &&& after.mean@[a].difference(g.mean@[i]).product(var) == g.cov.at(i, q).product(
                m.difference(g.mean@[q]),
            )
            &&& g.cov.at(i, j).difference(after.cov.at(a, b)).product(var) == g.cov.at(
                i,
                q,
            ).product(g.cov.at(j, q))
        }),
{
    let q = 2 * mode;
    let var = g.cov.at(q, q);
    let (i, j) = (kept(mode, a), kept(mode, b));
    let gain = m.difference(g.mean@[q]).quotient(var);
    let (x, y) = (g.mean@[i], g.cov.at(i, q).product(gain));
    // (x + y) - x = y
    reals(x, y, x.negative());
    reals(y, x, x.negative());
    reals(x.sum(y), x, x);
    reals(x, x.negative(), x);
    reals(y, x, x);
    lemma_quotient(m.difference(g.mean@[q]), var);
    reals(g.cov.at(i, q), gain, var);
    // c - (c - z) = z
    let c = g.cov.at(i, j);
    let z = g.cov.at(i, q).product(g.cov.at(j, q)).quotient(var);
    assert(after.cov.at(a, b) == c.difference(z));
    reals(c, z, z);
    reals(c, c.sum(z.negative()), z);
    lemma_opposites(c, z.negative());
    lemma_opposites(z, z);
    reals(c, c.negative(), z);
    lemma_opposites(z, c);
    lemma_quotient(g.cov.at(i, q).product(g.cov.at(j, q)), var);
}

/// A heterodyne detector sees both quadratures at once, each with one unit of
/// noise more than a homodyne detector sees of it alone.
pub proof fn heterodyne_pays_one_unit<T: Scalar>(g: &GaussianState<T>, mode: int)
    requires
        exact_reals::<T>(),
    ensures
        ({
            let (zero, one) = (T::zero_value(), T::of_count(1));
            let (x, p) = (Turn { sin: zero, cos: one }, Turn { sin: one, cos: zero });
            let (means, noise) = g.heterodyned(mode);
            &&& means.0 == g.marginal(mode, x).0
            &&& means.1 == g.marginal(mode, p).0
            &&& noise.0.difference(g.marginal(mode, x).1) == one
            &&& noise.2.difference(g.marginal(mode, p).1) == one
            &&& noise.1 == g.cov.at(2 * mode, 2 * mode + 1)
        }),
{
    let (zero, one, two) = (T::zero_value(), T::of_count(1), T::of_count(2));
    let (mx, mp) = (g.mean@[2 * mode], g.mean@[2 * mode + 1]);
    let (a, b, d) = (
        g.cov.at(2 * mode, 2 * mode),
        g.cov.at(2 * mode, 2 * mode + 1),
        g.cov.at(2 * mode + 1, 2 * mode + 1),
    );
    lemma_seen_whole(mx, mp);
    lemma_seen_whole(mp, mx);
    lemma_seen_whole(a, d);
    lemma_seen_whole(d, a);
    reals(one, one, one);
    reals(two, one, one);
    reals(two, zero, zero);
    lemma_term(two, one);
    lemma_term(two, zero);
    lemma_term(zero, one);
    lemma_term(one, zero);
    lemma_term(one, b);
    lemma_term(zero, b);
    lemma_term(zero, zero);
    lemma_term(a, a);
    lemma_term(d, d);
    lemma_above(a);
    lemma_above(d);
}

/// All of one and nothing of the other is the one.
proof fn lemma_seen_whole<T: Scalar>(x: T, y: T)
    requires
        exact_reals::<T>(),
    ensures
        T::of_count(1).product(x) == x,
        T::of_count(1).product(x).sum(T::zero_value().product(y)) == x,
        T::zero_value().product(y).sum(T::of_count(1).product(x)) == x,
{
    reals(x, T::of_count(1), x);
    reals(T::of_count(1), x, x);
    lemma_term(x, y);
}

/// `(v + 1) - v` is one.
proof fn lemma_above<T: Scalar>(v: T)
    requires
        exact_reals::<T>(),
    ensures
        v.sum(T::of_count(1)).difference(v) == T::of_count(1),
{
    let one = T::of_count(1);
    reals(v, one, v.negative());
    reals(one, v, v.negative());
    reals(v.sum(one), v, v);
    reals(v, v.negative(), v);
    reals(one, v, v);
}

} // verus!
