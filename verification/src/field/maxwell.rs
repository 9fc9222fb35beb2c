//! The equations that the leapfrog steps keep: Faraday's and Ampere's laws on
//! the grid, the wall, the energy of the samples and the dispersion of a plane
//! wave.

use crate::exact::{exact_field, exact_reals, lemma_cancel, lemma_opposites, lemma_quotient};
use crate::exact::{lemma_real_partners, lemma_spread, monotone, reals};
use crate::field::grid::{cell, is_wavenumber, squares, Grid2d};
use crate::field::grid3::{coord, e_dims, h_dims, shifted, strip_e, strip_h, Axis, Grid3d};
use crate::field::lattice::flat;
use crate::field::monitor::PortMonitor;
use crate::field::run::{cell_updates, port_reads, reads, stride_of, SimRun, MAX_TRACE_POINTS};
use crate::field::run3::{coefficients, lattice_updates, probe_reads};
use crate::field::signals::single;
use crate::photonic::detection::greatest_is_one;
use crate::scalar::{greatest, is_peak, running, sized, Scalar};
use vstd::prelude::*;

verus! {

/// What a strip adds to a stretched difference: its memory, nothing elsewhere.
pub open spec fn kept_in<T: Scalar>(in_strip: bool, psi: T) -> T {
    if in_strip {
        psi
    } else {
        T::zero_value()
    }
}

/// The change from `x` to `x - a.(u - v) - [a.p] + [a.q]`, and the opposite one.
proof fn lemma_change<T: Scalar>(x: T, a: T, u: T, v: T, p: T, q: T, in_p: bool, in_q: bool)
    requires
        exact_reals::<T>(),
    ensures
        ({
            let down = x.difference(a.product(u.difference(v)));
            let down = if in_p {
                down.difference(a.product(p))
            } else {
                down
            };
            let down = if in_q {
                down.sum(a.product(q))
            } else {
                down
            };
            let curl = u.sum(kept_in(in_p, p)).difference(v.sum(kept_in(in_q, q)));
            down.sum(a.product(curl)) == x
        }),
        ({
            let up = x.sum(a.product(u.difference(v)));
            let up = if in_p {
                up.sum(a.product(p))
            } else {
                up
            };
            let up = if in_q {
                up.difference(a.product(q))
            } else {
                up
            };
            let curl = u.sum(kept_in(in_p, p)).difference(v.sum(kept_in(in_q, q)));
            up == x.sum(a.product(curl))
        }),
{
    let zero = T::zero_value();
    let (pp, qq) = (kept_in(in_p, p), kept_in(in_q, q));
    // curl = (u - v) + (pp - qq)
    let curl = u.sum(pp).difference(v.sum(qq));
    let (nv, nq) = (v.negative(), qq.negative());
    reals(u.sum(pp), v.sum(qq), zero);
    lemma_opposites(v, qq);
    lemma_real_partners(u, pp, nv, nq);
    reals(u, v, zero);
    let d = u.difference(v);
    assert(curl == d.sum(pp.sum(nq)));
    reals(a, d, pp.sum(nq));
    reals(a, pp, nq);
    lemma_spread(a, qq, zero);
    let (ad, ap, aq) = (a.product(d), a.product(pp), a.product(qq));
    assert(a.product(curl) == ad.sum(ap.sum(aq.negative())));
    reals(a, zero, zero);
    lemma_opposites(zero, zero);
    // upward
    let s = x.sum(ad);
    reals(s, ap, aq.negative());
    reals(s, zero, zero);
    reals(s.sum(ap), a.product(q), zero);
    reals(s.sum(ap), zero, zero);
    reals(s, a.product(q), zero);
    reals(x, ad, ap.sum(aq.negative()));
    assert(s.sum(ap).sum(aq.negative()) == x.sum(a.product(curl)));
    // downward
    let n = ad.negative();
    let t = x.sum(n);
    reals(x, ad, zero);
    reals(t, a.product(p), zero);
    reals(t, zero, zero);
    let m = ap.negative();
    reals(t.sum(m), zero, zero);
    let y = t.sum(m).sum(aq);
    // y + ad + (ap - aq) = x
    let z = ad.sum(ap.sum(aq.negative()));
    lemma_opposites(ad, ap.sum(aq.negative()));
    lemma_opposites(ap, aq.negative());
    lemma_opposites(aq, aq);
    reals(t, m, aq);
    reals(x, n, m.sum(aq));
    assert(y == x.sum(z.negative()));
    reals(x, z.negative(), z);
    reals(z.negative(), z, z);
    reals(z, z.negative(), z);
    reals(x, zero, zero);
    lemma_opposites(ap, ap);
    reals(t, zero, aq);
    lemma_opposites(aq, zero);
}

/// Faraday's law on a 2D grid: over a half step Hx falls, and Hy grows, by the
/// time step times the stretched difference of Ez, with what a strip keeps.
pub proof fn faraday_2d<T: Scalar>(g: &Grid2d<T>, i: int, j: int)
    requires
        exact_reals::<T>(),
    ensures
        ({
            let (h, psi) = g.hx_next(i, j);
            let slope = g.ez_of(i, j + 1).difference(g.ez_of(i, j)).product(
                g.cpml_y.h.inv_k@[j],
            ).sum(kept_in(strip_h(j, g.ny - 1, g.npml as int), psi));
            h.sum(g.dt.product(slope)) == g.hx_of(i, j)
        }),
        ({
            let (h, psi) = g.hy_next(i, j);
            let slope = g.ez_of(i + 1, j).difference(g.ez_of(i, j)).product(
                g.cpml_x.h.inv_k@[i],
            ).sum(kept_in(strip_h(i, g.nx - 1, g.npml as int), psi));
            h == g.hy_of(i, j).sum(g.dt.product(slope))
        }),
{
    let zero = T::zero_value();
    let dt = g.dt;
    {
        let (h, psi) = g.hx_next(i, j);
        let d = g.ez_of(i, j + 1).difference(g.ez_of(i, j));
        let k = g.cpml_y.h.inv_k@[j];
        reals(dt, d, k);
        let u = d.product(k);
        let inside = strip_h(j, g.ny - 1, g.npml as int);
        lemma_change(g.hx_of(i, j), dt, u, zero, psi, zero, inside, false);
        lemma_bare(u, kept_in(inside, psi));
    }
    {
        let (h, psi) = g.hy_next(i, j);
        let d = g.ez_of(i + 1, j).difference(g.ez_of(i, j));
        let k = g.cpml_x.h.inv_k@[i];
        reals(dt, k, d);
        reals(k, d, d);
        let u = d.product(k);
        let inside = strip_h(i, g.nx - 1, g.npml as int);
        lemma_change(g.hy_of(i, j), dt, u, zero, psi, zero, inside, false);
        lemma_bare(u, kept_in(inside, psi));
    }
}

/// Nothing taken off leaves what there was.
proof fn lemma_bare<T: Scalar>(u: T, p: T)
    requires
        exact_reals::<T>(),
    ensures
        u.difference(T::zero_value()) == u,
        u.sum(p).difference(T::zero_value().sum(T::zero_value())) == u.sum(p),
{
    let zero = T::zero_value();
    lemma_opposites(zero, zero);
    reals(u, zero, zero);
    reals(zero, zero, zero);
    reals(u.sum(p), zero, zero);
}

/// Ampere's law on a 2D grid: over a full step the permittivity times the
/// change of a free Ez is the time step times the stretched curl of H; on the
/// ring nothing changes.
pub proof fn ampere_2d<T: Scalar>(g: &Grid2d<T>, eps: T, i: int, j: int)
    requires
        exact_field::<T>(),
        eps != T::zero_value(),
        g.ce@[cell(g.ny as int, i, j)] == g.dt.quotient(eps),
    ensures
        ({
            let (e, px, py) = g.ez_next(i, j);
            let n = g.npml as int;
            let x = g.hy_of(i, j).difference(g.hy_of(i - 1, j)).product(g.cpml_x.e.inv_k@[i]);
            let y = g.hx_of(i, j).difference(g.hx_of(i, j - 1)).product(g.cpml_y.e.inv_k@[j]);
            let curl = x.sum(kept_in(strip_e(i, g.nx as int, n), px)).difference(
                y.sum(kept_in(strip_e(j, g.ny as int, n), py)),
            );
            if g.ez_free(i, j) {
                eps.product(e.difference(g.ez_of(i, j))) == g.dt.product(curl)
            } else {
                e == g.ez_of(i, j)
            }
        }),
{
    let (e, px, py) = g.ez_next(i, j);
    let n = g.npml as int;
    let x = g.hy_of(i, j).difference(g.hy_of(i - 1, j)).product(g.cpml_x.e.inv_k@[i]);
    let y = g.hx_of(i, j).difference(g.hx_of(i, j - 1)).product(g.cpml_y.e.inv_k@[j]);
    let (in_x, in_y) = (strip_e(i, g.nx as int, n), strip_e(j, g.ny as int, n));
    let curl = x.sum(kept_in(in_x, px)).difference(y.sum(kept_in(in_y, py)));
    let c = g.dt.quotient(eps);
    lemma_change(g.ez_of(i, j), c, x, y, px, py, in_x, in_y);
    if g.ez_free(i, j) {
        lemma_weighed(g.ez_of(i, j), g.dt, eps, curl);
    }
}

/// `eps.((x + (dt/eps).curl) - x)` is `dt.curl`.
proof fn lemma_weighed<T: Scalar>(x: T, dt: T, eps: T, curl: T)
    requires
        exact_field::<T>(),
        eps != T::zero_value(),
    ensures
        eps.product(x.sum(dt.quotient(eps).product(curl)).difference(x)) == dt.product(curl),
{
    let y = dt.quotient(eps).product(curl);
    reals(x, y, x.negative());
    reals(y, x, x.negative());
    reals(x.sum(y), x, x);
    reals(x, x.negative(), x);
    reals(y, x, x);
    lemma_quotient(dt, eps);
    reals(eps, dt.quotient(eps), curl);
}

/// Faraday's law on a 3D grid, along each axis: over a half step H falls by the
/// time step times the stretched curl of E.
pub proof fn faraday_3d<T: Scalar>(g: &Grid3d<T>, o: Axis, p: (int, int, int))
    requires
        exact_reals::<T>(),
    ensures
        ({
            let (a, b) = (o.after(), o.after().after());
            let (h, pa, pb) = g.h_next(o, p);
            let (i, j, n) = (coord(p, a), coord(p, b), g.npml as int);
            let u = g.e_diff(b, a, p).product(g.cpml(a).h.inv_k@[i]).sum(
                kept_in(strip_h(i, coord(g.points(), a) - 1, n), pa),
            );
            let v = g.e_diff(a, b, p).product(g.cpml(b).h.inv_k@[j]).sum(
                kept_in(strip_h(j, coord(g.points(), b) - 1, n), pb),
            );
            h.sum(g.dt.product(u.difference(v))) == g.h(o)[flat(h_dims(g.points(), o), p)]
        }),
{
    let (a, b) = (o.after(), o.after().after());
    let (h, pa, pb) = g.h_next(o, p);
    let (i, j, n) = (coord(p, a), coord(p, b), g.npml as int);
    lemma_change(
        g.h(o)[flat(h_dims(g.points(), o), p)],
        g.dt,
        g.e_diff(b, a, p).product(g.cpml(a).h.inv_k@[i]),
        g.e_diff(a, b, p).product(g.cpml(b).h.inv_k@[j]),
        pa,
        pb,
        strip_h(i, coord(g.points(), a) - 1, n),
        strip_h(j, coord(g.points(), b) - 1, n),
    );
}

/// Ampere's law on a 3D grid, along each axis: over a full step the
/// permittivity times the change of a free E is the time step times the
/// stretched curl of H; on the walls it is tangential to nothing changes.
pub proof fn ampere_3d<T: Scalar>(g: &Grid3d<T>, eps: T, o: Axis, p: (int, int, int))
    requires
        exact_field::<T>(),
        eps != T::zero_value(),
        g.ce(o)[flat(e_dims(g.points(), o), p)] == g.dt.quotient(eps),
    ensures
        ({
            let (a, b) = (o.after(), o.after().after());
            let (e, pa, pb) = g.e_next(o, p);
            let was = g.e(o)[flat(e_dims(g.points(), o), p)];
            let (i, j, n) = (coord(p, a), coord(p, b), g.npml as int);
            let u = g.h_diff(b, a, p).product(g.cpml(a).e.inv_k@[i]).sum(
                kept_in(strip_e(i, coord(g.points(), a), n), pa),
            );
            let v = g.h_diff(a, b, p).product(g.cpml(b).e.inv_k@[j]).sum(
                kept_in(strip_e(j, coord(g.points(), b), n), pb),
            );
            if g.e_free(o, p) {
                eps.product(e.difference(was)) == g.dt.product(u.difference(v))
            } else {
                e == was
            }
        }),
{
    let (a, b) = (o.after(), o.after().after());
    let (e, pa, pb) = g.e_next(o, p);
    let was = g.e(o)[flat(e_dims(g.points(), o), p)];
    let (i, j, n) = (coord(p, a), coord(p, b), g.npml as int);
    let u = g.h_diff(b, a, p).product(g.cpml(a).e.inv_k@[i]);
    let v = g.h_diff(a, b, p).product(g.cpml(b).e.inv_k@[j]);
    let in_a = strip_e(i, coord(g.points(), a), n);
    let in_b = strip_e(j, coord(g.points(), b), n);
    let curl = u.sum(kept_in(in_a, pa)).difference(v.sum(kept_in(in_b, pb)));
    lemma_change(was, g.dt.quotient(eps), u, v, pa, pb, in_a, in_b);
    if g.e_free(o, p) {
        lemma_weighed(was, g.dt, eps, curl);
    }
}

/// Differences are taken between neighbours: of a field that grows by the same
/// amount from sample to sample both are that amount.
pub proof fn differences_see_neighbours<T: Scalar>(
    g: &Grid3d<T>,
    of: Axis,
    a: Axis,
    p: (int, int, int),
    slope: T,
)
    requires
        exact_reals::<T>(),
    ensures
        ({
            let d = e_dims(g.points(), of);
            let e = g.e(of);
            e[flat(d, shifted(p, a, 1))] == e[flat(d, p)].sum(slope) ==> g.e_diff(of, a, p) == slope
        }),
        ({
            let d = h_dims(g.points(), of);
            let h = g.h(of);
            h[flat(d, p)] == h[flat(d, shifted(p, a, -1))].sum(slope) ==> g.h_diff(of, a, p)
                == slope
        }),
{
    lemma_step(g.e(of)[flat(e_dims(g.points(), of), p)], slope);
    lemma_step(g.h(of)[flat(h_dims(g.points(), of), shifted(p, a, -1))], slope);
}

/// `(x + s) - x` is `s`.
proof fn lemma_step<T: Scalar>(x: T, s: T)
    requires
        exact_reals::<T>(),
    ensures
        x.sum(s).difference(x) == s,
{
    reals(x, s, x.negative());
    reals(s, x, x.negative());
    reals(x.sum(s), x, x);
    reals(x, x.negative(), x);
    reals(s, x, x);
}

/// A coefficient times its permittivity is the time step.
pub proof fn coefficients_hold_the_step<T: Scalar>(dt: T, eps: Seq<T>, k: int)
    requires
        exact_field::<T>(),
        0 <= k < eps.len(),
        eps[k] != T::zero_value(),
    ensures
        coefficients(dt, eps).len() == eps.len(),
        coefficients(dt, eps)[k].product(eps[k]) == dt,
{
    lemma_quotient(dt, eps[k]);
}

/// Between two samples a node shows their mean: twice what it shows is their
/// sum. On a wall it shows the sample next to it.
pub proof fn node_shows_the_mean<T: Scalar>(g: &Grid3d<T>, half: T, o: Axis, p: (int, int, int))
    requires
        exact_reals::<T>(),
        half.sum(half) == T::of_count(1),
    ensures
        ({
            let d = e_dims(g.points(), o);
            let v = g.node_value(half, o, p);
            let (before, here) = (g.e(o)[flat(d, shifted(p, o, -1))], g.e(o)[flat(d, p)]);
            if coord(p, o) == 0 {
                v == here
            } else if coord(p, o) == coord(g.points(), o) - 1 {
                v == before
            } else if coord(p, o) < coord(g.points(), o) - 1 {
                v.sum(v) == before.sum(here)
            } else {
                true
            }
        }),
{
    let d = e_dims(g.points(), o);
    let s = g.e(o)[flat(d, shifted(p, o, -1))].sum(g.e(o)[flat(d, p)]);
    lemma_spread(half, half, s);
    reals(s, T::of_count(1), s);
    reals(T::of_count(1), s, s);
}

/// One sample less and another in its place.
proof fn lemma_exchanged<T: Scalar>(s: Seq<T>, t: Seq<T>, k: int)
    requires
        exact_reals::<T>(),
        0 <= k < s.len(),
        t =~= s.update(k, t[k]),
    ensures
        running(t).sum(s[k]) == running(s).sum(t[k]),
    decreases s.len(),
{
    let n = s.len() - 1;
    let (a, b) = (running(s.drop_last()), running(t.drop_last()));
    if k == n {
        assert(s.drop_last() =~= t.drop_last());
        reals(a, t[k], s[k]);
        reals(t[k], s[k], a);
        reals(a, s[k], t[k]);
    } else {
        assert(t.drop_last() =~= s.drop_last().update(k, t[k]));
        lemma_exchanged(s.drop_last(), t.drop_last(), k);
        let z = s[n];
        reals(b, z, s[k]);
        reals(z, s[k], b);
        reals(b, s[k], z);
        reals(a, z, t[k]);
        reals(z, t[k], a);
        reals(a, t[k], z);
    }
}

/// `(x + s) + p` and `(y + s) + q`, weighed, where `x + p` and `y + q` agree.
proof fn lemma_balance<T: Scalar>(h: T, x: T, y: T, s: T, p: T, q: T)
    requires
        exact_reals::<T>(),
        x.sum(p) == y.sum(q),
    ensures
        h.product(x.sum(s)).sum(h.product(p)) == h.product(y.sum(s)).sum(h.product(q)),
{
    reals(h, x.sum(s), p);
    reals(h, y.sum(s), q);
    reals(x, s, p);
    reals(s, p, x);
    reals(x, p, s);
    reals(y, s, q);
    reals(s, q, y);
    reals(y, q, s);
}

/// Energy counts every sample by its square: where two grids differ in one
/// sample of Ez, Hx or Hy, their energies differ by half the difference of the
/// squares, that of Ez times the permittivity there.
pub proof fn energy_counts_every_sample<T: Scalar>(
    g: &Grid2d<T>,
    m: &Grid2d<T>,
    half: T,
    k: int,
)
    requires
        exact_reals::<T>(),
        g.eps_r@ == m.eps_r@,
    ensures
        0 <= k < g.ez@.len() && m.ez@ =~= g.ez@.update(k, m.ez@[k]) && m.hx@ == g.hx@ && m.hy@
            == g.hy@ ==> ({
            let eps = g.eps_r@[k];
            m.stored(half).sum(half.product(eps.product(g.ez@[k].product(g.ez@[k]))))
                == g.stored(half).sum(half.product(eps.product(m.ez@[k].product(m.ez@[k]))))
        }),
        0 <= k < g.hx@.len() && m.hx@ =~= g.hx@.update(k, m.hx@[k]) && m.ez@ == g.ez@ && m.hy@
            == g.hy@ ==> m.stored(half).sum(half.product(g.hx@[k].product(g.hx@[k])))
            == g.stored(half).sum(half.product(m.hx@[k].product(m.hx@[k]))),
        0 <= k < g.hy@.len() && m.hy@ =~= g.hy@.update(k, m.hy@[k]) && m.ez@ == g.ez@ && m.hx@
            == g.hx@ ==> m.stored(half).sum(half.product(g.hy@[k].product(g.hy@[k])))
            == g.stored(half).sum(half.product(m.hy@[k].product(m.hy@[k]))),
{
    let part = |w: &Grid2d<T>|
        Seq::new(w.ez@.len(), |n: int| w.eps_r@[n].product(w.ez@[n]).product(w.ez@[n]));
    let (e, f) = (part(g), part(m));
    let (x, y) = (running(squares(g.hx@)), running(squares(g.hy@)));
    if 0 <= k < g.ez@.len() && m.ez@ =~= g.ez@.update(k, m.ez@[k]) && m.hx@ == g.hx@ && m.hy@
        == g.hy@ {
        let eps = g.eps_r@[k];
        assert(f =~= e.update(k, f[k]));
        lemma_exchanged(e, f, k);
        reals(eps, g.ez@[k], g.ez@[k]);
        reals(eps, m.ez@[k], m.ez@[k]);
        let (a, b) = (running(e), running(f));
        reals(a, x, y);
        reals(b, x, y);
        lemma_balance(half, b, a, x.sum(y), e[k], f[k]);
    }
    if 0 <= k < g.hx@.len() && m.hx@ =~= g.hx@.update(k, m.hx@[k]) && m.ez@ == g.ez@ && m.hy@
        == g.hy@ {
        assert(e =~= f);
        let (s, t) = (squares(g.hx@), squares(m.hx@));
        assert(t =~= s.update(k, t[k]));
        lemma_exchanged(s, t, k);
        let (a, b, c) = (running(s), running(t), running(e));
        lemma_aside(c, a, y);
        lemma_aside(c, b, y);
        lemma_balance(half, b, a, c.sum(y), s[k], t[k]);
    }
    if 0 <= k < g.hy@.len() && m.hy@ =~= g.hy@.update(k, m.hy@[k]) && m.ez@ == g.ez@ && m.hx@
        == g.hx@ {
        assert(e =~= f);
        let (s, t) = (squares(g.hy@), squares(m.hy@));
        assert(t =~= s.update(k, t[k]));
        lemma_exchanged(s, t, k);
        let (a, b, c) = (running(s), running(t), running(e));
        reals(c.sum(x), a, a);
        reals(c.sum(x), b, b);
        lemma_balance(half, b, a, c.sum(x), s[k], t[k]);
    }
}

/// `(c + a) + y` is `a + (c + y)`.
proof fn lemma_aside<T: Scalar>(c: T, a: T, y: T)
    requires
        exact_reals::<T>(),
    ensures
        c.sum(a).sum(y) == a.sum(c.sum(y)),
{
    reals(c, a, y);
    reals(a, c, y);
}

/// A plane wave along an axis meets the dispersion relation of the grid: the
/// sine of half its wavenumber, times the time step, is the sine of half the
/// phase of one step.
pub proof fn plane_wave_obeys_the_grid<
    T: Scalar,
    S: Fn(T) -> T,
    A: Fn(T) -> T,
    M: Fn(T) -> T,
>(
    omega: T,
    dt: T,
    sin: S,
    asin: A,
    magnitude: M,
    k: T,
    by: (T, T, T),
    half_k: T,
    half_phase: T,
    of_k: T,
    of_phase: T,
)
    requires
        exact_field::<T>(),
        T::of_count(2) == T::of_count(1).sum(T::of_count(1)),
        T::of_count(2) != T::zero_value(),
        dt != T::zero_value(),
        single(sin),
        forall|x: T, a: T| #[trigger] call_ensures(asin, (x,), a) ==> call_ensures(sin, (a,), x),
        is_wavenumber(omega, dt, sin, asin, magnitude, Some(k), by),
        half_k.sum(half_k) == k,
        half_phase.sum(half_phase) == omega.product(dt),
        call_ensures(sin, (half_k,), of_k),
        call_ensures(sin, (half_phase,), of_phase),
    ensures
        of_k.product(dt) == of_phase,
{
    let (wave, size, angle) = by;
    let (one, two) = (T::of_count(1), T::of_count(2));
    lemma_spread(one, one, half_k);
    lemma_spread(one, one, half_phase);
    reals(half_k, one, one);
    reals(one, half_k, one);
    reals(half_phase, one, one);
    reals(one, half_phase, one);
    lemma_cancel(half_k, angle, two);
    lemma_quotient(omega.product(dt), two);
    lemma_cancel(half_phase, omega.product(dt).quotient(two), two);
    let arg = wave.quotient(dt);
    assert(call_ensures(asin, (arg,), angle));
    assert(of_k == arg);
    assert(of_phase == wave);
    lemma_quotient(wave, dt);
}

/// A thinned trace holds no more points than may be shown, and no stride that
/// is smaller would do.
pub proof fn thinning_is_no_coarser_than_needed(n: int)
    requires
        n >= 1,
    ensures
        stride_of(n) >= 1,
        stride_of(n) * MAX_TRACE_POINTS >= n,
        (stride_of(n) - 1) * MAX_TRACE_POINTS < n,
{
    let m = MAX_TRACE_POINTS as int;
    vstd::arithmetic::div_mod::lemma_fundamental_div_mod(n - 1, m);
    let q = (n - 1) / m;
    assert((q + 1) * m == m * q + m && q * m == m * q) by (nonlinear_arith);
    vstd::arithmetic::div_mod::lemma_div_pos_is_pos(n - 1, m);
}

/// A slice lies in its plane and shows each of its nodes once: the coordinate
/// along the axis is the index, or the last of the grid where that is beyond,
/// and the rows and columns run over the other two.
pub proof fn slices_lie_in_their_plane<T: Scalar>(
    g: &Grid3d<T>,
    axis: Axis,
    index: int,
    p: (int, int),
    q: (int, int),
)
    requires
        g.nx >= 2,
        g.ny >= 2,
        g.nz >= 2,
        0 <= index,
        0 <= p.0 < g.slice_dims(axis).0,
        0 <= p.1 < g.slice_dims(axis).1,
    ensures
        ({
            let a = g.slice_node(axis, index, p.0, p.1);
            let b = g.slice_node(axis, index, q.0, q.1);
            &&& 0 <= a.0 < g.nx && 0 <= a.1 < g.ny && 0 <= a.2 < g.nz
            &&& index < coord(g.points(), axis) ==> coord(a, axis) == index
            &&& index >= coord(g.points(), axis) ==> coord(a, axis) == coord(g.points(), axis) - 1
            &&& a == b ==> p == q
            &&& coord(g.points(), axis) * (g.slice_dims(axis).0 * g.slice_dims(axis).1) == g.nx * (
            g.ny * g.nz)
        }),
{
    let (x, y, z) = (g.nx as int, g.ny as int, g.nz as int);
    assert(y * (x * z) == x * (y * z) && z * (x * y) == x * (y * z)) by (nonlinear_arith);
}

/// A slice shows Ez as it is sampled; at the far wall, where there is no sample,
/// it shows the nearest.
pub proof fn slices_show_the_samples<T: Scalar>(g: &Grid3d<T>, i: int, j: int, k: int)
    requires
        g.nz >= 2,
        0 <= k < g.nz,
    ensures
        k < g.nz - 1 ==> g.clamped_ez((i, j, k)) == g.ez@[flat(
            e_dims(g.points(), Axis::Z),
            (i, j, k),
        )],
        k == g.nz - 1 ==> g.clamped_ez((i, j, k)) == g.clamped_ez((i, j, k - 1)),
{
}

/// The greatest magnitude bounds every sample, is that of one unless all are
/// zero, and is not below zero.
pub proof fn peak_bounds_every_sample<T: Scalar, S: Fn(T) -> T>(
    vals: Seq<T>,
    size: S,
    peak: T,
    j: int,
) -> (at: (T, int))
    requires
        monotone::<T>(),
        is_peak(vals, size, peak),
        0 <= j < vals.len(),
    ensures
        call_ensures(size, (vals[j],), at.0),
        peak.at_least(at.0),
        peak.at_least(T::zero_value()),
        peak == T::zero_value() || (0 <= at.1 < vals.len() && call_ensures(
            size,
            (vals[at.1],),
            peak,
        )),
{
    let z = T::zero_value();
    let n = vals.len() as int;
    let sizes = choose|sizes: Seq<T>|
        #[trigger] sized(vals, size, sizes) && peak == greatest(sizes, z, sizes.len() as int);
    greatest_is_one(sizes, z, n, j);
    let k = choose|k: int| 0 <= k < n && #[trigger] sizes[k] == greatest(sizes, z, n);
    (sizes[j], k)
}

/// The work of a run counts each field component of each cell once a step: the
/// three of a plane and the six of space, over cells and steps that add up.
pub proof fn work_counts_every_component(nx: int, more: int, ny: int, nz: int, s: int, t: int)
    ensures
        cell_updates(1, 1, 1) == 3,
        lattice_updates((1, 1, 1), 1) == 6,
        cell_updates(nx + more, ny, s) == cell_updates(nx, ny, s) + cell_updates(more, ny, s),
        cell_updates(nx, ny, s) == cell_updates(ny, nx, s),
        cell_updates(nx, ny, s + t) == cell_updates(nx, ny, s) + cell_updates(nx, ny, t),
        lattice_updates((nx, ny, nz), s) == 2 * nz * cell_updates(nx, ny, s),
        probe_reads(1, 1) == 2,
        probe_reads(nx + more, s) == probe_reads(nx, s) + probe_reads(more, s),
        probe_reads(nx, s + t) == probe_reads(nx, s) + probe_reads(nx, t),
{
    assert(3 * ((nx + more) * ny) * s == 3 * (nx * ny) * s + 3 * (more * ny) * s) by (nonlinear_arith);
    assert(nx * ny == ny * nx) by (nonlinear_arith);
    assert(3 * (nx * ny) * (s + t) == 3 * (nx * ny) * s + 3 * (nx * ny) * t) by (nonlinear_arith);
    assert(6 * (nx * ny * nz) * s == 2 * nz * (3 * (nx * ny) * s)) by (nonlinear_arith);
    assert(2 * (nx + more) * s == 2 * nx * s + 2 * more * s) by (nonlinear_arith);
    assert(2 * nx * (s + t) == 2 * nx * s + 2 * nx * t) by (nonlinear_arith);
}

/// Every monitor of a run reads once a step: the probe, its spectrum and each
/// port.
pub proof fn monitors_read_once_a_step<T: Scalar>(run: &SimRun<T>)
    requires
        run.wf(),
    ensures
        reads(run) == (2 + run.ports@.len()) * run.done(),
{
    lemma_ports_read(run.ports@, run.done() as int);
    let (n, d) = (run.ports@.len() as int, run.done() as int);
    assert((2 + n) * d == d + d + n * d) by (nonlinear_arith);
}

proof fn lemma_ports_read<T>(ports: Seq<PortMonitor<T>>, done: int)
    requires
        forall|k: int| 0 <= k < ports.len() ==> (#[trigger] ports[k]).samples == done,
    ensures
        port_reads(ports) == ports.len() * done,
    decreases ports.len(),
{
    if ports.len() > 0 {
        let less = ports.drop_last();
        assert forall|k: int| 0 <= k < less.len() implies (#[trigger] less[k]).samples == done by {
            assert(less[k] == ports[k]);
        }
        lemma_ports_read(less, done);
        assert(ports[ports.len() - 1].samples == done);
        let n = ports.len() as int;
        assert((n - 1) * done + done == n * done) by (nonlinear_arith);
    } else {
        assert(0 * done == 0) by (nonlinear_arith);
    }
}

} // verus!
