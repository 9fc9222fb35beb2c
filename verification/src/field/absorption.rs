//! What an absorbing layer is made of: stretching, conductivity and frequency
//! shift lead from their values at the interface to those at the wall, the
//! decay is that of the stretched layer, and both walls are alike.
//!
//! The laws are ones of exact arithmetic, those on depth of any order that sums
//! follow.

use crate::exact::{counts_at, exact_counts, exact_field, exact_reals, follows, lemma_opposites};
use crate::exact::lemma_quotient;
use crate::exact::{lemma_real_partners, lemma_signs_of, lemma_spread, monotone, reals};
use crate::field::cpml::{depth, larger, rel_depth, station, CpmlParams};
use crate::field::grid3::{remembered, AxisTables};
use crate::field::signals::single;
use crate::scalar::Scalar;
use vstd::prelude::*;

verus! {

/// `a + (b - a)` is `b`.
proof fn lemma_reached<T: Scalar>(a: T, b: T)
    requires
        exact_reals::<T>(),
    ensures
        a.sum(b.difference(a)) == b,
{
    reals(b, a, a);
    reals(a, b.sum(a.negative()), a);
    reals(b, a.negative(), a);
    reals(a.negative(), a, a);
    reals(a, a.negative(), a);
    reals(b, b, b);
}

/// Grading leads from the interface to the wall: where the graded power is
/// nothing there is no conductivity and no stretching, where it is one there is
/// all of both; the frequency shift is whole at the interface and gone at the
/// wall. In between conductivity and stretching follow the graded power.
pub proof fn grading_leads_from_interface_to_wall<T: Scalar>(p: CpmlParams<T>, g: T, h: T)
    requires
        exact_reals::<T>(),
    ensures
        p.sigma(T::zero_value()) == T::zero_value(),
        p.sigma(g.sum(h)) == p.sigma(g).sum(p.sigma(h)),
        p.kappa(T::zero_value()) == T::of_count(1),
        p.kappa(T::of_count(1)) == p.kappa_max,
        p.kappa(g.sum(h)).sum(T::of_count(1)) == p.kappa(g).sum(p.kappa(h)),
        p.alpha(T::zero_value()) == p.alpha_max,
        p.alpha(T::of_count(1)) == T::zero_value(),
        p.alpha(g.sum(h)).sum(p.alpha_max) == p.alpha(g).sum(p.alpha(h)),
{
    let (zero, one) = (T::zero_value(), T::of_count(1));
    let k = p.sigma_scale.product(p.sigma_unit).product(p.m.sum(one));
    reals(k, g, h);
    let d = p.kappa_max.difference(one);
    reals(d, g, h);
    reals(d, d, d);
    reals(one, zero, zero);
    lemma_reached(one, p.kappa_max);
    let (u, v) = (d.product(g), d.product(h));
    // (1 + (u + v)) + 1 = (1 + u) + (1 + v)
    lemma_real_partners(one, u, one, v);
    reals(one, u.sum(v), one);
    reals(one, one, u.sum(v));
    reals(u.sum(v), one, one);
    // alpha
    let a = p.alpha_max;
    reals(one, one, one);
    reals(one, zero, zero);
    lemma_opposites(zero, zero);
    reals(a, one, zero);
    lemma_spread(one, g, a);
    lemma_spread(one, h, a);
    lemma_spread(one, g.sum(h), a);
    reals(a, g, h);
    let (x, y) = (a.product(g), a.product(h));
    lemma_opposites(x, y);
    let (m, n) = (x.negative(), y.negative());
    lemma_real_partners(a, m, a, n);
    reals(a, m.sum(n), a);
    reals(a, a, m.sum(n));
    reals(m.sum(n), a, a);
}

/// Conductivity at the wall is the multiplier times the near-optimal one, which
/// is that of one unit times the order and one more.
pub proof fn conductivity_follows_its_factors<T: Scalar>(p: CpmlParams<T>, g: T, s: T)
    requires
        exact_reals::<T>(),
    ensures
        (CpmlParams { sigma_scale: p.sigma_scale.sum(s), ..p }).sigma(g) == p.sigma(g).sum(
            (CpmlParams { sigma_scale: s, ..p }).sigma(g),
        ),
        (CpmlParams { m: p.m.sum(T::of_count(1)), ..p }).sigma(T::of_count(1)) == p.sigma(
            T::of_count(1),
        ).sum(p.sigma_scale.product(p.sigma_unit)),
{
    let one = T::of_count(1);
    let (k, l) = (p.sigma_scale, s);
    lemma_spread(k, l, p.sigma_unit);
    lemma_spread(k.product(p.sigma_unit), l.product(p.sigma_unit), p.m.sum(one));
    lemma_spread(
        k.product(p.sigma_unit).product(p.m.sum(one)),
        l.product(p.sigma_unit).product(p.m.sum(one)),
        g,
    );
    let u = k.product(p.sigma_unit);
    reals(u, p.m.sum(one), one);
    reals(u.product(p.m.sum(one).sum(one)), one, one);
    reals(u.product(p.m.sum(one)), one, one);
    reals(u, one, one);
}

/// The decay of a layer is that of its conductivity over its stretching and of
/// its shift: kappa times the exponent takes off (sigma + kappa.alpha).dt.
pub proof fn layer_decays<T: Scalar>(p: CpmlParams<T>, r: T, g: T, dt: T)
    requires
        exact_field::<T>(),
        p.kappa(g) != T::zero_value(),
    ensures
        p.kappa(g).product(p.exponent(r, g, dt)).sum(
            p.sigma(g).sum(p.kappa(g).product(p.alpha(r))).product(dt),
        ) == T::zero_value(),
{
    let (s, k, a) = (p.sigma(g), p.kappa(g), p.alpha(r));
    let q = s.quotient(k);
    let y = q.sum(a);
    lemma_quotient(s, k);
    reals(k, q, a);
    reals(k, y.negative(), dt);
    reals(y, k, dt);
    reals(k, y, dt);
    reals(y.negative(), k, dt);
    let z = k.product(y);
    assert(k.product(y.negative()) == z.negative());
    reals(z, dt, dt);
    let w = z.product(dt);
    reals(w, w.negative(), w);
    reals(w.negative(), w, w);
}

/// The coefficients of a layer: the first inverts the stretching, the second is
/// the decay, and the memory takes up what the decay leaves of the
/// conductivity.
pub proof fn layer_coefficients<T: Scalar>(p: CpmlParams<T>, r: T, g: T, b: T)
    requires
        exact_field::<T>(),
        p.kappa(g) != T::zero_value(),
    ensures
        p.inside(r, g, b).0.product(p.kappa(g)) == T::of_count(1),
        p.inside(r, g, b).1 == b,
        ({
            let (s, k) = (p.sigma(g), p.kappa(g));
            let d = k.product(s.sum(k.product(p.alpha(r))));
            let zero = T::zero_value();
            zero.less_than(s) && zero.less_than(d) && d != zero ==> p.inside(r, g, b).2.product(d)
                == s.product(b.difference(T::of_count(1)))
        }),
        b == T::of_count(1) ==> p.inside(r, g, b).2.product(
            p.kappa(g).product(p.sigma(g).sum(p.kappa(g).product(p.alpha(r)))),
        ) == T::zero_value() || p.kappa(g).product(
            p.sigma(g).sum(p.kappa(g).product(p.alpha(r))),
        ) == T::zero_value(),
{
    let one = T::of_count(1);
    let (s, k) = (p.sigma(g), p.kappa(g));
    let d = k.product(s.sum(k.product(p.alpha(r))));
    lemma_quotient(one, k);
    if d != T::zero_value() {
        lemma_quotient(s.product(b.difference(one)), d);
    }
    reals(one, one, one);
    reals(s, one, one);
    lemma_opposites(d, d);
}

/// Of two different numbers exactly one is the larger.
pub open spec fn linear<T: Scalar>() -> bool {
    forall|a: T, b: T| #[trigger] a.at_least(b) == (a == b || !b.at_least(a))
}

/// Both walls are alike: a position is as deep as the one that lies as far from
/// the other wall.
pub proof fn walls_are_alike<T: Scalar>(pos: T, n: usize, npml: usize)
    requires
        exact_reals::<T>(),
        linear::<T>(),
    ensures
        ({
            let last = T::of_count(n as u64).difference(T::of_count(1));
            depth(last.difference(pos), n, npml) == depth(pos, n, npml)
        }),
{
    let last = T::of_count(n as u64).difference(T::of_count(1));
    let d = T::of_count(npml as u64);
    let far = last.difference(d);
    let mirror = last.difference(pos);
    // d - (last - pos) = pos - (last - d), (last - pos) - (last - d) = d - pos
    lemma_turned(d, last, pos);
    lemma_turned(pos, last, d);
    assert(d.difference(mirror) == pos.difference(far));
    lemma_between(last, pos, d);
    assert(mirror.difference(far) == d.difference(pos));
    let (x, y) = (d.difference(pos), pos.difference(far));
    assert(larger(x, y) == larger(y, x));
}

/// `a - (l - b)` is `(a + b) - l`, whichever of the two comes first.
proof fn lemma_turned<T: Scalar>(a: T, l: T, b: T)
    requires
        exact_reals::<T>(),
    ensures
        a.difference(l.difference(b)) == a.sum(b).sum(l.negative()),
        a.difference(l.difference(b)) == b.sum(a).sum(l.negative()),
{
    let n = b.negative();
    reals(l, b, b);
    reals(a, l.sum(n), a);
    lemma_opposites(l, n);
    lemma_opposites(b, b);
    reals(a, l.negative(), b);
    reals(l.negative(), b, a);
    reals(a, b, l.negative());
    reals(b, a, l.negative());
}

/// `(l - p) - (l - d)` is `d - p`.
proof fn lemma_between<T: Scalar>(l: T, p: T, d: T)
    requires
        exact_reals::<T>(),
    ensures
        l.difference(p).difference(l.difference(d)) == d.difference(p),
{
    let m = l.difference(p);
    lemma_turned(m, l, d);
    // (d + (l - p)) - l
    let n = p.negative();
    reals(l, p, p);
    reals(d, l.sum(n), l.negative());
    reals(l.sum(n), l.negative(), d);
    reals(l, n, l.negative());
    reals(n, l.negative(), l);
    reals(l, l.negative(), n);
    reals(l.negative(), n, l);
    lemma_opposites(n, n);
    reals(d, p, p);
}

/// Depth is never below zero, and relative depth lies between none and all.
pub proof fn depth_stays_in_the_layer<T: Scalar>(pos: T, n: usize, npml: usize)
    requires
        monotone::<T>(),
        T::zero_value().less_than(T::of_count(npml as u64)),
        T::of_count(1).at_least(T::zero_value()),
    ensures
        depth(pos, n, npml).at_least(T::zero_value()),
        rel_depth(pos, n, npml).at_least(T::zero_value()),
        T::of_count(1).at_least(rel_depth(pos, n, npml)),
{
    let (zero, one) = (T::zero_value(), T::of_count(1));
    let (d, width) = (depth(pos, n, npml), T::of_count(npml as u64));
    follows(zero, zero, zero);
    follows(d, zero, zero);
    follows(d, zero, width);
    follows(width, zero, zero);
    lemma_signs_of(d, width);
    follows(one, one, one);
}

/// Tables are mirror images of themselves: an entry is that of the place which
/// lies as far from the other wall, on the points of an axis as well as half
/// way between them.
pub proof fn tables_are_mirror_images<T: Scalar, P: Fn(T) -> T, E: Fn(T) -> T>(
    c: CpmlParams<T>,
    t: AxisTables<T>,
    half: Option<T>,
    n: usize,
    npml: usize,
    dt: T,
    power: P,
    exp: E,
    i: int,
)
    requires
        exact_counts::<T>(),
        linear::<T>(),
        single(power),
        single(exp),
        n >= 2,
        half matches Some(h) ==> h.sum(h) == T::of_count(1),
        c.tabulates(
            t,
            if half is Some {
                n - 1
            } else {
                n as int
            },
            half,
            n,
            npml,
            dt,
            power,
            exp,
        ),
        0 <= i < (if half is Some {
            n - 1
        } else {
            n as int
        }),
    ensures
        ({
            let j = if half is Some {
                n - 2 - i
            } else {
                n - 1 - i
            };
            &&& t.inv_k@[i] == t.inv_k@[j]
            &&& t.b@[i] == t.b@[j]
            &&& t.c@[i] == t.c@[j]
        }),
{
    let j = if half is Some {
        n - 2 - i
    } else {
        n - 1 - i
    };
    let one = T::of_count(1);
    let last = T::of_count(n as u64).difference(one);
    let (pos, mirror) = (station(i, half), station(j, half));
    lemma_last::<T>(n as u64);
    let (x, y) = (T::of_count(i as u64), T::of_count(j as u64));
    match half {
        None => {
            assert(counts_at::<T>(j as u64, i as u64));
            lemma_left_over(y, x);
        },
        Some(h) => {
            assert(counts_at::<T>(j as u64, i as u64));
            assert(counts_at::<T>((n - 2) as u64, 1));
            lemma_real_partners(y, x, h, h);
            lemma_real_partners(y, h, x, h);
            lemma_left_over(y.sum(h), x.sum(h));
        },
    }
    assert(mirror == last.difference(pos));
    walls_are_alike(pos, n, npml);
    assert(c.coefficients(pos, n, npml, dt, power, exp, (t.inv_k@[i], t.b@[i], t.c@[i])));
    assert(c.coefficients(mirror, n, npml, dt, power, exp, (t.inv_k@[j], t.b@[j], t.c@[j])));
    if npml != 0 && !T::zero_value().at_least(depth(pos, n, npml)) {
        let r = rel_depth(pos, n, npml);
        let (g, b) = choose|g: T, b: T|
            #![trigger c.inside(r, g, b)]
            call_ensures(power, (r,), g) && call_ensures(exp, (c.exponent(r, g, dt),), b) && (
            t.inv_k@[i],
            t.b@[i],
            t.c@[i],
        ) == c.inside(r, g, b);
        let (u, v) = choose|u: T, v: T|
            #![trigger c.inside(r, u, v)]
            call_ensures(power, (r,), u) && call_ensures(exp, (c.exponent(r, u, dt),), v) && (
            t.inv_k@[j],
            t.b@[j],
            t.c@[j],
        ) == c.inside(r, u, v);
        assert(g == u);
        assert(b == v);
    }
}

/// `n - 1` as a count.
proof fn lemma_last<T: Scalar>(n: u64)
    requires
        exact_counts::<T>(),
        n >= 1,
    ensures
        T::of_count(n).difference(T::of_count(1)) == T::of_count((n - 1) as u64),
{
    let one = T::of_count(1);
    assert(counts_at::<T>((n - 1) as u64, 1));
    lemma_left_over(T::of_count((n - 1) as u64), one);
}

/// `(y + x) - x` is `y`.
proof fn lemma_left_over<T: Scalar>(y: T, x: T)
    requires
        exact_reals::<T>(),
    ensures
        y.sum(x).difference(x) == y,
{
    reals(y, x, x.negative());
    reals(y.sum(x), x, x);
    reals(x, x.negative(), x);
    reals(y, y, y);
}

/// Depth counts from the nearer interface: in the near layer depth and position
/// make up the thickness, in the far one depth and what is left to the wall do,
/// and relative depth times the thickness is depth.
pub proof fn depth_counts_from_the_interface<T: Scalar>(pos: T, n: usize, npml: usize)
    requires
        exact_field::<T>(),
        T::of_count(npml as u64) != T::zero_value(),
    ensures
        ({
            let d = T::of_count(npml as u64);
            let last = T::of_count(n as u64).difference(T::of_count(1));
            let deep = depth(pos, n, npml);
            let (near, far) = (d.difference(pos), pos.difference(last.difference(d)));
            &&& near.at_least(far) && near.at_least(T::zero_value()) ==> deep.sum(pos) == d
            &&& !near.at_least(far) && far.at_least(T::zero_value()) ==> deep.sum(
                last.difference(pos),
            ) == d
            &&& !near.at_least(T::zero_value()) && !far.at_least(T::zero_value()) ==> deep
                == T::zero_value()
            &&& T::of_count(1).at_least(deep.quotient(d)) ==> rel_depth(pos, n, npml).product(d)
                == deep
        }),
{
    let d = T::of_count(npml as u64);
    let last = T::of_count(n as u64).difference(T::of_count(1));
    let deep = depth(pos, n, npml);
    let (near, far) = (d.difference(pos), pos.difference(last.difference(d)));
    lemma_quotient(deep, d);
    // (d - pos) + pos = d
    reals(d, pos, pos);
    reals(d, pos.negative(), pos);
    reals(pos.negative(), pos, pos);
    reals(pos, pos.negative(), pos);
    reals(d, d, d);
    // (pos - (last - d)) + (last - pos) = d
    lemma_turned(pos, last, d);
    let n = last.negative();
    let w = last.difference(pos);
    reals(last, pos, pos);
    reals(d, pos, n);
    lemma_real_partners(d.sum(pos), n, pos.negative(), last);
    reals(last, pos.negative(), last);
    lemma_real_partners(d, pos, pos.negative(), T::zero_value());
    reals(d.sum(pos), pos.negative(), n);
    reals(d, pos, pos.negative());
    reals(n, last, last);
    reals(last, n, n);
}

/// The memory of a layer is a fading sum: without a slope it fades by `b`, a
/// lasting slope `d` keeps it where `psi - b.psi = c.d`, and histories add up.
/// Outside the layers it stays as it is.
pub proof fn memory_is_a_fading_sum<T: Scalar>(b: T, c: T, psi: T, d: T, chi: T, e: T)
    requires
        exact_reals::<T>(),
    ensures
        remembered(true, b, c, psi, T::zero_value()) == b.product(psi),
        psi.difference(b.product(psi)) == c.product(d) ==> remembered(true, b, c, psi, d) == psi,
        remembered(true, b, c, psi.sum(chi), d.sum(e)) == remembered(true, b, c, psi, d).sum(
            remembered(true, b, c, chi, e),
        ),
        remembered(false, b, c, psi, d) == psi,
{
    reals(b.product(psi), c, c);
    reals(c, c, c);
    reals(c, T::zero_value(), c);
    lemma_reached(b.product(psi), psi);
    reals(b, psi, chi);
    reals(c, d, e);
    lemma_real_partners(b.product(psi), b.product(chi), c.product(d), c.product(e));
}

} // verus!
