//! Rotations, squeezers, beamsplitters and two-mode squeezers keep the
//! symplectic form, on their own modes and embedded among others.
//!
//! The laws are ones of exact arithmetic, over scalars that are a commutative
//! ring.

use crate::exact::{exact_reals, lemma_opposites, reals};
use crate::gaussian::state::{embeds_one, embeds_two, form_at, is_beamsplitter, is_four};
use crate::gaussian::state::{is_rotation, is_squeezer, is_two, is_two_mode_squeezer, slot};
use crate::gaussian::state::{Boost, Turn};
use crate::matrix::Matrix;
use crate::scalar::Scalar;
use vstd::prelude::*;

verus! {

/// `x.q - y.p`: what two quadrature pairs add to the form of two rows.
pub open spec fn area<T: Scalar>(x: T, y: T, p: T, q: T) -> T {
    x.product(q).sum(y.product(p).negative())
}

/// What mode `k` adds to the form of rows `i` and `j`.
pub open spec fn pairing<T: Scalar>(s: &Matrix<T>, i: int, j: int, k: int) -> T {
    area(s.at(i, 2 * k), s.at(i, 2 * k + 1), s.at(j, 2 * k), s.at(j, 2 * k + 1))
}

/// The form of rows `i` and `j` over the first `n` modes.
pub open spec fn form_of<T: Scalar>(s: &Matrix<T>, i: int, j: int, n: int) -> T
    decreases n,
{
    if n <= 0 {
        T::zero_value()
    } else {
        form_of(s, i, j, n - 1).sum(pairing(s, i, j, n - 1))
    }
}

/// Every two rows have the form of their places: S.Omega.S^T is Omega.
pub open spec fn keeps_form<T: Scalar>(s: &Matrix<T>, n: int) -> bool {
    forall|i: int, j: int|
        0 <= i < 2 * n && 0 <= j < 2 * n ==> #[trigger] form_of(s, i, j, n) == form_at::<T>(i, j)
}

/// Sine and cosine lie on the unit circle.
pub open spec fn circular<T: Scalar>(t: Turn<T>) -> bool {
    t.cos.product(t.cos).sum(t.sin.product(t.sin)) == T::of_count(1)
}

/// Hyperbolic sine and cosine lie on the unit hyperbola.
pub open spec fn hyperbolic<T: Scalar>(b: Boost<T>) -> bool {
    b.cosh.product(b.cosh).difference(b.sinh.product(b.sinh)) == T::of_count(1)
}

proof fn lemma_area_turns<T: Scalar>(x: T, y: T, p: T, q: T)
    requires
        exact_reals::<T>(),
    ensures
        area(p, q, x, y) == area(x, y, p, q).negative(),
        area(x, y, x, y) == T::zero_value(),
        area(x, y, T::zero_value(), T::zero_value()) == T::zero_value(),
        area(T::zero_value(), T::zero_value(), x, y) == T::zero_value(),
{
    let zero = T::zero_value();
    let (u, v) = (x.product(q), y.product(p));
    reals(x, q, x);
    reals(y, p, x);
    reals(q, x, x);
    reals(p, y, x);
    lemma_opposites(u, v.negative());
    lemma_opposites(v, u);
    reals(u.negative(), v, x);
    reals(v, u.negative(), x);
    reals(x, y, x);
    reals(x.product(y), x, x);
    reals(x, zero, x);
    reals(y, zero, x);
    lemma_opposites(x, y);
    lemma_opposites(y, x);
    reals(zero, zero, zero);
}

/// A sum of which only the terms at two places count.
proof fn lemma_two_terms<T: Scalar>(s: &Matrix<T>, i: int, j: int, a: int, b: int, n: int)
    requires
        exact_reals::<T>(),
        a != b,
        n >= 0,
        forall|k: int|
            0 <= k < n && k != a && k != b ==> #[trigger] pairing(s, i, j, k) == T::zero_value(),
    ensures
        form_of(s, i, j, n) == (if 0 <= a < n {
            pairing(s, i, j, a)
        } else {
            T::zero_value()
        }).sum(
            if 0 <= b < n {
                pairing(s, i, j, b)
            } else {
                T::zero_value()
            },
        ),
    decreases n,
{
    let zero = T::zero_value();
    reals(zero, zero, zero);
    if n > 0 {
        lemma_two_terms(s, i, j, a, b, n - 1);
        let k = n - 1;
        let (x, y) = (pairing(s, i, j, a), pairing(s, i, j, b));
        reals(x, zero, zero);
        reals(zero, x, zero);
        reals(y, zero, zero);
        reals(zero, y, zero);
        reals(x, y, zero);
        reals(x.sum(y), zero, zero);
        if k != a && k != b {
            assert(pairing(s, i, j, k) == zero);
        }
    }
}

/// A map of one mode of unit area, embedded, keeps the form.
proof fn lemma_one_embedded<T: Scalar>(s: &Matrix<T>, n: int, mode: int, s2: &Matrix<T>)
    requires
        exact_reals::<T>(),
        0 <= mode < n,
        embeds_one(s, n, mode, s2),
        area(s2.at(0, 0), s2.at(0, 1), s2.at(1, 0), s2.at(1, 1)) == T::of_count(1),
    ensures
        keeps_form(s, n),
{
    let (zero, one) = (T::zero_value(), T::of_count(1));
    assert forall|i: int, j: int| 0 <= i < 2 * n && 0 <= j < 2 * n implies #[trigger] form_of(
        s,
        i,
        j,
        n,
    ) == form_at::<T>(i, j) by {
        let k = i / 2;
        assert forall|m: int| 0 <= m < n && m != k && m != -1 implies #[trigger] pairing(
            s,
            i,
            j,
            m,
        ) == zero by {
            assert(s.at(i, 2 * m) == zero && s.at(i, 2 * m + 1) == zero);
            lemma_area_turns(s.at(j, 2 * m), s.at(j, 2 * m + 1), zero, zero);
        }
        lemma_two_terms(s, i, j, k, -1, n);
        reals(pairing(s, i, j, k), zero, zero);
        if j / 2 != k {
            assert(s.at(j, 2 * k) == zero && s.at(j, 2 * k + 1) == zero);
            lemma_area_turns(s.at(i, 2 * k), s.at(i, 2 * k + 1), zero, zero);
        } else {
            assert(i == 2 * k + i % 2 && j == 2 * k + j % 2);
            assert((2 * k) / 2 == k && (2 * k + 1) / 2 == k && (2 * k) % 2 == 0 && (2 * k + 1) % 2
                == 1);
            let (x, y) = (s.at(2 * k, 2 * k), s.at(2 * k, 2 * k + 1));
            let (p, q) = (s.at(2 * k + 1, 2 * k), s.at(2 * k + 1, 2 * k + 1));
            assert(area(x, y, p, q) == one) by {
                if k != mode {
                    assert(x == one && y == zero && p == zero && q == one);
                    reals(one, one, one);
                    reals(zero, zero, zero);
                    lemma_opposites(one, one);
                    reals(one, zero, one);
                }
            }
            lemma_area_turns(x, y, p, q);
            lemma_area_turns(p, q, x, y);
        }
    }
}

/// What rows `p` and `q` of a map of two modes add up to.
pub open spec fn quad<T: Scalar>(m: &Matrix<T>, p: int, q: int) -> T {
    area(m.at(p, 0), m.at(p, 1), m.at(q, 0), m.at(q, 1)).sum(
        area(m.at(p, 2), m.at(p, 3), m.at(q, 2), m.at(q, 3)),
    )
}

/// A map of two modes that keeps their form, embedded, keeps the form.
proof fn lemma_two_embedded<T: Scalar>(s: &Matrix<T>, n: int, a: int, b: int, s4: &Matrix<T>)
    requires
        exact_reals::<T>(),
        0 <= a < n,
        0 <= b < n,
        a != b,
        embeds_two(s, n, a, b, s4),
        forall|p: int, q: int|
            0 <= p < 4 && 0 <= q < 4 ==> #[trigger] quad(s4, p, q) == form_at::<T>(p, q),
    ensures
        keeps_form(s, n),
{
    let (zero, one) = (T::zero_value(), T::of_count(1));
    assert forall|i: int, j: int| 0 <= i < 2 * n && 0 <= j < 2 * n implies #[trigger] form_of(
        s,
        i,
        j,
        n,
    ) == form_at::<T>(i, j) by {
        let (x, y) = (slot(i, a, b), slot(j, a, b));
        assert((2 * a) / 2 == a && (2 * a + 1) / 2 == a && (2 * a) % 2 == 0 && (2 * a + 1) % 2
            == 1);
        assert((2 * b) / 2 == b && (2 * b + 1) / 2 == b && (2 * b) % 2 == 0 && (2 * b + 1) % 2
            == 1);
        if x >= 0 && y >= 0 {
            assert forall|m: int| 0 <= m < n && m != a && m != b implies #[trigger] pairing(
                s,
                i,
                j,
                m,
            ) == zero by {
                assert(s.at(i, 2 * m) == zero && s.at(i, 2 * m + 1) == zero);
                lemma_area_turns(s.at(j, 2 * m), s.at(j, 2 * m + 1), zero, zero);
            }
            lemma_two_terms(s, i, j, a, b, n);
            assert(s.at(i, 2 * a) == s4.at(x, 0) && s.at(i, 2 * a + 1) == s4.at(x, 1));
            assert(s.at(i, 2 * b) == s4.at(x, 2) && s.at(i, 2 * b + 1) == s4.at(x, 3));
            assert(s.at(j, 2 * a) == s4.at(y, 0) && s.at(j, 2 * a + 1) == s4.at(y, 1));
            assert(s.at(j, 2 * b) == s4.at(y, 2) && s.at(j, 2 * b + 1) == s4.at(y, 3));
            assert(quad(s4, x, y) == form_at::<T>(x, y));
            assert(form_at::<T>(x, y) == form_at::<T>(i, j));
        } else {
            // one of the rows is a row of the identity, on a mode of its own
            let k = if x < 0 {
                i / 2
            } else {
                j / 2
            };
            assert forall|m: int| 0 <= m < n && m != k && m != -1 implies #[trigger] pairing(
                s,
                i,
                j,
                m,
            ) == zero by {
                if x < 0 {
                    assert(s.at(i, 2 * m) == zero && s.at(i, 2 * m + 1) == zero);
                    lemma_area_turns(s.at(j, 2 * m), s.at(j, 2 * m + 1), zero, zero);
                } else {
                    assert(s.at(j, 2 * m) == zero && s.at(j, 2 * m + 1) == zero);
                    lemma_area_turns(s.at(i, 2 * m), s.at(i, 2 * m + 1), zero, zero);
                }
            }
            lemma_two_terms(s, i, j, k, -1, n);
            reals(pairing(s, i, j, k), zero, zero);
            assert((2 * k) / 2 == k && (2 * k + 1) / 2 == k && (2 * k) % 2 == 0 && (2 * k + 1) % 2
                == 1);
            if i / 2 != j / 2 {
                if x < 0 {
                    assert(s.at(j, 2 * k) == zero && s.at(j, 2 * k + 1) == zero);
                    lemma_area_turns(s.at(i, 2 * k), s.at(i, 2 * k + 1), zero, zero);
                } else {
                    assert(s.at(i, 2 * k) == zero && s.at(i, 2 * k + 1) == zero);
                    lemma_area_turns(s.at(j, 2 * k), s.at(j, 2 * k + 1), zero, zero);
                }
            } else {
                assert(i == 2 * k + i % 2 && j == 2 * k + j % 2);
                assert(s.at(2 * k, 2 * k) == one && s.at(2 * k, 2 * k + 1) == zero);
                assert(s.at(2 * k + 1, 2 * k) == zero && s.at(2 * k + 1, 2 * k + 1) == one);
                reals(one, one, one);
                reals(zero, zero, zero);
                lemma_opposites(one, one);
                reals(one, zero, one);
                lemma_area_turns(one, zero, zero, one);
                lemma_area_turns(zero, one, one, zero);
            }
        }
    }
}

proof fn lemma_two_entries<T: Scalar>(m: &Matrix<T>, a: T, b: T, c: T, d: T)
    requires
        is_two(m, a, b, c, d),
    ensures
        m.at(0, 0) == a,
        m.at(0, 1) == b,
        m.at(1, 0) == c,
        m.at(1, 1) == d,
{
    assert(m.data@ == seq![a, b, c, d]);
}

/// Rotating a mode keeps the form.
pub proof fn rotation_keeps_form<T: Scalar>(
    s2: &Matrix<T>,
    t: Turn<T>,
    s: &Matrix<T>,
    n: int,
    mode: int,
)
    requires
        exact_reals::<T>(),
        circular(t),
        is_rotation(s2, t),
        0 <= mode < n,
        embeds_one(s, n, mode, s2),
    ensures
        keeps_form(s, n),
{
    let (c, x) = (t.cos, t.sin);
    lemma_two_entries(s2, c, x, x.negative(), c);
    // c.c - x.(-x) = c.c + x.x
    reals(x, x.negative(), x);
    reals(x, x, x);
    lemma_opposites(x.product(x), x);
    lemma_one_embedded(s, n, mode, s2);
}

/// Squeezing a mode keeps the form.
pub proof fn squeezer_keeps_form<T: Scalar>(
    s2: &Matrix<T>,
    b: Boost<T>,
    t: Turn<T>,
    s: &Matrix<T>,
    n: int,
    mode: int,
)
    requires
        exact_reals::<T>(),
        circular(t),
        hyperbolic(b),
        is_squeezer(s2, b, t),
        0 <= mode < n,
        embeds_one(s, n, mode, s2),
    ensures
        keeps_form(s, n),
{
    let (h, u) = (b.cosh, b.sinh);
    let (p, x) = (u.product(t.cos), u.product(t.sin));
    let cross = u.negative().product(t.sin);
    lemma_two_entries(s2, h.difference(p), cross, cross, h.sum(p));
    let (hh, uu) = (h.product(h), u.product(u));
    let (pp, xx) = (p.product(p), x.product(x));
    // cross = -x, cross.cross = x.x
    reals(u, t.sin, u);
    reals(x, x.negative(), u);
    reals(x, x, u);
    lemma_opposites(xx, u);
    assert(cross.product(cross) == xx);
    // (h - p).(h + p) = h.h - p.p
    let m = p.negative();
    let w = h.product(p);
    reals(h, p, u);
    reals(h.sum(m), h, p);
    reals(h, h.sum(m), u);
    reals(h, h, m);
    reals(p, h.sum(m), u);
    reals(h.sum(m), p, u);
    reals(p, h, m);
    reals(p, m, u);
    reals(m, p, u);
    reals(p, p, u);
    reals(h, m, u);
    reals(m, h, u);
    assert(h.sum(m).product(h) == hh.sum(w.negative()));
    assert(h.sum(m).product(p) == w.sum(pp.negative()));
    reals(hh, w.negative(), w.sum(pp.negative()));
    reals(w.negative(), w, pp.negative());
    reals(w, w.negative(), u);
    lemma_opposites(pp.negative(), u);
    assert(h.difference(p).product(h.sum(p)) == hh.sum(pp.negative()));
    // p.p + x.x = u.u
    lemma_square(u, t.cos);
    lemma_square(u, t.sin);
    reals(uu, t.cos.product(t.cos), t.sin.product(t.sin));
    reals(uu, u, u);
    assert(pp.sum(xx) == uu);
    lemma_opposites(pp, xx);
    reals(hh, pp.negative(), xx.negative());
    reals(hh, uu, u);
    lemma_one_embedded(s, n, mode, s2);
}

/// The square of a product is the product of the squares.
proof fn lemma_square<T: Scalar>(u: T, c: T)
    requires
        exact_reals::<T>(),
    ensures
        u.product(c).product(u.product(c)) == u.product(u).product(c.product(c)),
{
    reals(u, c, u.product(c));
    reals(c, u, c);
    reals(u, c, c);
    reals(u, u, c.product(c));
}

/// The rows of a map made of diagonal blocks.
proof fn lemma_four_entries<T: Scalar>(
    m: &Matrix<T>,
    a: T,
    b: T,
    c: T,
    d: T,
    e: T,
    f: T,
    g: T,
    h: T,
)
    requires
        is_four(m, a, b, c, d, e, f, g, h),
    ensures
        row_is(m, 0, a, T::zero_value(), b, T::zero_value()),
        row_is(m, 1, T::zero_value(), c, T::zero_value(), d),
        row_is(m, 2, e, T::zero_value(), f, T::zero_value()),
        row_is(m, 3, T::zero_value(), g, T::zero_value(), h),
{
    let o = T::zero_value();
    let list = seq![
        a, o, b, o,
        o, c, o, d,
        e, o, f, o,
        o, g, o, h,
    ];
    assert(m.data@ == list);
    assert(list[0] == a && list[1] == o && list[2] == b && list[3] == o);
    assert(list[4] == o && list[5] == c && list[6] == o && list[7] == d);
    assert(list[8] == e && list[9] == o && list[10] == f && list[11] == o);
    assert(list[12] == o && list[13] == g && list[14] == o && list[15] == h);
}

spec fn row_is<T: Scalar>(m: &Matrix<T>, r: int, a: T, b: T, c: T, d: T) -> bool {
    m.at(r, 0) == a && m.at(r, 1) == b && m.at(r, 2) == c && m.at(r, 3) == d
}

/// A map of two modes made of diagonal blocks keeps the form of the modes,
/// where its blocks are inverse to each other's transposes.
proof fn lemma_four_keeps<T: Scalar>(
    m: &Matrix<T>,
    a: T,
    b: T,
    c: T,
    d: T,
    e: T,
    f: T,
    g: T,
    h: T,
)
    requires
        exact_reals::<T>(),
        is_four(m, a, b, c, d, e, f, g, h),
        a.product(c).sum(b.product(d)) == T::of_count(1),
        a.product(g).sum(b.product(h)) == T::zero_value(),
        e.product(c).sum(f.product(d)) == T::zero_value(),
        e.product(g).sum(f.product(h)) == T::of_count(1),
    ensures
        forall|p: int, q: int|
            0 <= p < 4 && 0 <= q < 4 ==> #[trigger] quad(m, p, q) == form_at::<T>(p, q),
{
    let o = T::zero_value();
    lemma_four_entries(m, a, b, c, d, e, f, g, h);
    lemma_crossed(a, b, c, d);
    lemma_crossed(a, b, g, h);
    lemma_crossed(e, f, c, d);
    lemma_crossed(e, f, g, h);
    lemma_opposites(o, o);
    reals(o, o, o);
    assert forall|p: int, q: int| 0 <= p < 4 && 0 <= q < 4 implies #[trigger] quad(m, p, q)
        == form_at::<T>(p, q) by {
        if p % 2 == q % 2 {
            if p % 2 == 0 {
                lemma_flat(m.at(p, 0), m.at(q, 0));
                lemma_flat(m.at(p, 2), m.at(q, 2));
            } else {
                lemma_flat(m.at(p, 1), m.at(q, 1));
                lemma_flat(m.at(p, 3), m.at(q, 3));
            }
        }
    }
}

/// Two rows on the same quadrature have no area.
proof fn lemma_flat<T: Scalar>(x: T, p: T)
    requires
        exact_reals::<T>(),
    ensures
        area(x, T::zero_value(), p, T::zero_value()) == T::zero_value(),
        area(T::zero_value(), x, T::zero_value(), p) == T::zero_value(),
{
    let o = T::zero_value();
    reals(x, o, o);
    lemma_opposites(p, p);
    lemma_opposites(x, x);
    reals(o, o, o);
}

/// Two rows on opposite quadratures of two modes.
proof fn lemma_crossed<T: Scalar>(x: T, u: T, y: T, v: T)
    requires
        exact_reals::<T>(),
    ensures
        area(x, T::zero_value(), T::zero_value(), y).sum(
            area(u, T::zero_value(), T::zero_value(), v),
        ) == x.product(y).sum(u.product(v)),
        area(T::zero_value(), y, x, T::zero_value()).sum(
            area(T::zero_value(), v, u, T::zero_value()),
        ) == x.product(y).sum(u.product(v)).negative(),
{
    let o = T::zero_value();
    reals(o, o, o);
    lemma_opposites(o, o);
    reals(x.product(y), o, o);
    reals(u.product(v), o, o);
    lemma_area_turns(x, o, o, y);
    lemma_area_turns(u, o, o, v);
    lemma_opposites(x.product(y), u.product(v));
}

/// Mixing two modes on a beamsplitter keeps the form.
pub proof fn beamsplitter_keeps_form<T: Scalar>(
    s4: &Matrix<T>,
    t: Turn<T>,
    s: &Matrix<T>,
    n: int,
    a: int,
    b: int,
)
    requires
        exact_reals::<T>(),
        circular(t),
        is_beamsplitter(s4, t),
        0 <= a < n,
        0 <= b < n,
        a != b,
        embeds_two(s, n, a, b, s4),
    ensures
        keeps_form(s, n),
{
    let (c, x) = (t.cos, t.sin);
    let m = x.negative();
    let w = c.product(x);
    reals(c, x, c);
    reals(c, m, c);
    reals(x, c, c);
    reals(w, w.negative(), c);
    reals(w.negative(), w, c);
    reals(x, m, c);
    reals(x, x, c);
    lemma_opposites(x.product(x), c);
    reals(x.product(x), c.product(c), c);
    lemma_four_keeps(s4, c, x, c, x, m, c, m, c);
    lemma_two_embedded(s, n, a, b, s4);
}

/// Squeezing two modes together keeps the form.
pub proof fn two_mode_squeezer_keeps_form<T: Scalar>(
    s4: &Matrix<T>,
    boost: Boost<T>,
    s: &Matrix<T>,
    n: int,
    a: int,
    b: int,
)
    requires
        exact_reals::<T>(),
        hyperbolic(boost),
        is_two_mode_squeezer(s4, boost),
        0 <= a < n,
        0 <= b < n,
        a != b,
        embeds_two(s, n, a, b, s4),
    ensures
        keeps_form(s, n),
{
    let (c, x) = (boost.cosh, boost.sinh);
    let m = x.negative();
    let w = c.product(x);
    reals(c, x, c);
    reals(c, m, c);
    reals(x, c, c);
    reals(w, w.negative(), c);
    reals(w.negative(), w, c);
    reals(x, m, c);
    reals(x, x, c);
    let (cc, xx) = (c.product(c), x.product(x));
    reals(cc, xx, c);
    reals(cc, xx.negative(), c);
    lemma_four_keeps(s4, c, x, c, m, x, c, m, c);
    lemma_two_embedded(s, n, a, b, s4);
}

/// A row times a column of the form has one term, at the other quadrature of
/// the mode.
proof fn lemma_partner<T: Scalar>(s: &Matrix<T>, om: &Matrix<T>, n: int, i: int, l: int, k: int)
    requires
        exact_reals::<T>(),
        0 <= l < 2 * n,
        0 <= k <= 2 * n,
        forall|x: int, y: int|
            0 <= x < 2 * n && 0 <= y < 2 * n ==> #[trigger] om.at(x, y) == form_at::<T>(x, y),
    ensures
        ({
            let p = if l % 2 == 0 {
                l + 1
            } else {
                l - 1
            };
            Matrix::<T>::dot(s, om, i, l, k) == (if k > p {
                s.at(i, p).product(form_at::<T>(p, l))
            } else {
                T::zero_value()
            })
        }),
    decreases k,
{
    let zero = T::zero_value();
    let p = if l % 2 == 0 {
        l + 1
    } else {
        l - 1
    };
    if k > 0 {
        lemma_partner(s, om, n, i, l, k - 1);
        let x = s.at(i, k - 1);
        let w = s.at(i, p).product(form_at::<T>(p, l));
        assert(om.at(k - 1, l) == form_at::<T>(k - 1, l));
        reals(x, zero, zero);
        reals(w, zero, zero);
        reals(zero, w, zero);
        reals(zero, zero, zero);
    }
}

proof fn lemma_congruent<T: Scalar>(
    s: &Matrix<T>,
    om: &Matrix<T>,
    left: &Matrix<T>,
    turned: &Matrix<T>,
    n: int,
    i: int,
    j: int,
    k: int,
)
    requires
        exact_reals::<T>(),
        s.shaped(2 * n, 2 * n),
        om.shaped(2 * n, 2 * n),
        forall|x: int, y: int|
            0 <= x < 2 * n && 0 <= y < 2 * n ==> #[trigger] om.at(x, y) == form_at::<T>(x, y),
        left.is_product(s, om),
        turned.is_transpose(s),
        0 <= i < 2 * n,
        0 <= j < 2 * n,
        0 <= k <= n,
    ensures
        Matrix::<T>::dot(left, turned, i, j, 2 * k) == form_of(s, i, j, k),
    decreases k,
{
    if k > 0 {
        lemma_congruent(s, om, left, turned, n, i, j, k - 1);
        let m = k - 1;
        let (x, y) = (s.at(i, 2 * m), s.at(i, 2 * m + 1));
        let (p, q) = (s.at(j, 2 * m), s.at(j, 2 * m + 1));
        let one = T::of_count(1);
        lemma_partner(s, om, n, i, 2 * m, 2 * n);
        lemma_partner(s, om, n, i, 2 * m + 1, 2 * n);
        assert(left.at(i, 2 * m) == y.product(one.negative()));
        assert(left.at(i, 2 * m + 1) == x.product(one));
        assert(turned.at(2 * m, j) == p && turned.at(2 * m + 1, j) == q);
        // y.(-1) = -y
        reals(y, one.negative(), x);
        reals(one, y, x);
        reals(y, one, x);
        reals(x, one, x);
        reals(y, p, x);
        let f = form_of(s, i, j, m);
        let (u, v) = (x.product(q), y.product(p).negative());
        reals(f, v, u);
        reals(v, u, f);
        let g = Matrix::<T>::dot(left, turned, i, j, 2 * m);
        let h = Matrix::<T>::dot(left, turned, i, j, 2 * m + 1);
        assert(h == g.sum(v));
        assert(Matrix::<T>::dot(left, turned, i, j, 2 * k) == h.sum(u));
    }
}

/// A map that keeps the form is a congruence of it: S.Omega.S^T has the
/// entries of Omega.
pub proof fn form_is_congruent<T: Scalar>(
    s: &Matrix<T>,
    n: int,
    om: &Matrix<T>,
    left: &Matrix<T>,
    turned: &Matrix<T>,
    made: &Matrix<T>,
)
    requires
        exact_reals::<T>(),
        n >= 0,
        s.shaped(2 * n, 2 * n),
        keeps_form(s, n),
        om.shaped(2 * n, 2 * n),
        forall|x: int, y: int|
            0 <= x < 2 * n && 0 <= y < 2 * n ==> #[trigger] om.at(x, y) == form_at::<T>(x, y),
        left.is_product(s, om),
        turned.is_transpose(s),
        made.is_product(left, turned),
    ensures
        forall|i: int, j: int|
            0 <= i < 2 * n && 0 <= j < 2 * n ==> #[trigger] made.at(i, j) == om.at(i, j),
{
    assert forall|i: int, j: int| 0 <= i < 2 * n && 0 <= j < 2 * n implies #[trigger] made.at(i, j)
        == om.at(i, j) by {
        lemma_congruent(s, om, left, turned, n, i, j, n);
        assert(form_of(s, i, j, n) == form_at::<T>(i, j));
    }
}

} // verus!
