//! What sources and monitors take from the clock: how the time step, the
//! moments and the time signatures of a run hang together.

use crate::complex::Cx;
use crate::exact::{exact_counts, exact_field, exact_reals, counts_at, follows, lemma_cancel};
use crate::exact::{lemma_opposites, lemma_quotient, lemma_quotients, lemma_real_partners};
use crate::exact::{lemma_signs_of, lemma_spread, monotone, reals};
use crate::field::clock::{are_phasors, is_time_step, moment, turned, Timing};
use crate::field::grid::Grid2d;
use crate::field::run::Beat;
use crate::field::grid3::{e_dims, Grid3d};
use crate::field::lattice::{flat, lemma_flat};
use crate::field::source::{injected, nonzero, Dipole3, ModeInjector, Source, SourceShape, TimeProfile};
use crate::field::source::Waveform;
use crate::photonic::propagation::{at_most_one_below, circular, on_angle};
use crate::scalar::Scalar;
use vstd::prelude::*;

verus! {

/// The step keeps to the Courant number: its square, once per axis, is the
/// square of that number, where the root is one.
pub proof fn step_keeps_to_the_courant_number<T: Scalar, R: Fn(T) -> T>(
    courant: T,
    axes: u64,
    root: R,
    dt: T,
)
    requires
        exact_field::<T>(),
        forall|r: T| #[trigger]
            call_ensures(root, (T::of_count(axes),), r) ==> r != T::zero_value() && r.product(r)
                == T::of_count(axes),
        is_time_step(courant, axes, root, dt),
    ensures
        T::of_count(axes).product(dt.product(dt)) == courant.product(courant),
{
    let n = T::of_count(axes);
    let r = choose|r: T| #[trigger] call_ensures(root, (n,), r) && dt == courant.quotient(r);
    lemma_quotient(courant, r);
    // (dt.r).(dt.r)
    reals(dt, r, dt.product(r));
    reals(r, dt, r);
    reals(dt, r, r);
    reals(dt, dt, r.product(r));
    reals(dt.product(dt), n, n);
}

/// Steps are evenly spaced: the first is done one step after the start, and
/// each one step after the one before.
pub proof fn steps_are_evenly_spaced<T: Scalar>(n: int, dt: T)
    requires
        exact_counts::<T>(),
        0 <= n < u64::MAX - 1,
    ensures
        moment(0, dt) == dt,
        moment(n + 1, dt) == moment(n, dt).sum(dt),
{
    let one = T::of_count(1);
    reals(dt, one, one);
    reals(one, dt, dt);
    assert(counts_at::<T>((n + 1) as u64, 1));
    lemma_spread(T::of_count((n + 1) as u64), one, dt);
}

/// The phasor at a later moment is the one at an earlier moment turned by that
/// of the time between.
pub proof fn phasors_turn_with_time<T: Scalar, E: Fn(T) -> T, S: Fn(T) -> T, C: Fn(T) -> T>(
    frequencies: Seq<T>,
    t: T,
    s: T,
    w: &Waveform<T, E, S, C>,
    p: Seq<Cx<T>>,
    q: Seq<Cx<T>>,
    r: Seq<Cx<T>>,
    backwards: bool,
    f: int,
)
    requires
        exact_reals::<T>(),
        circular(w.sin, w.cos),
        are_phasors(frequencies, t, backwards, w, p),
        are_phasors(frequencies, s, backwards, w, q),
        are_phasors(frequencies, t.sum(s), backwards, w, r),
        0 <= f < frequencies.len(),
    ensures
        r[f] == p[f].product(q[f]),
{
    let omega = if backwards {
        frequencies[f].negative()
    } else {
        frequencies[f]
    };
    let (x, y) = (omega.product(t), omega.product(s));
    reals(omega, t, s);
    assert(turned(x, w, p[f]) && turned(y, w, q[f]) && turned(x.sum(y), w, r[f]));
    let (a, b, c) = ((p[f].re, p[f].im), (q[f].re, q[f].im), (r[f].re, r[f].im));
    assert(on_angle(w.sin, w.cos, x, a));
    assert(on_angle(w.sin, w.cos, y, b));
    assert(on_angle(w.sin, w.cos, x.sum(y), c));
}

/// The cosine is even and the sine is odd.
pub open spec fn mirrors<T: Scalar, S: Fn(T) -> T, C: Fn(T) -> T>(sin: S, cos: C) -> bool {
    forall|x: T, a: (T, T), b: (T, T)|
        #![trigger on_angle(sin, cos, x, a), on_angle(sin, cos, x.negative(), b)]
        on_angle(sin, cos, x, a) && on_angle(sin, cos, x.negative(), b) ==> b.0 == a.0 && b.1
            == a.1.negative()
}

/// Probe and ports turn against each other: what one takes for a frequency is
/// the conjugate of what the others take.
pub proof fn probe_turns_against_ports<T: Scalar, E: Fn(T) -> T, S: Fn(T) -> T, C: Fn(T) -> T>(
    timing: &Timing<T>,
    t: T,
    w: &Waveform<T, E, S, C>,
    b: Beat<T>,
    f: int,
)
    requires
        exact_reals::<T>(),
        mirrors(w.sin, w.cos),
        timing.is_beat(t, w, b),
        timing.ports,
        0 <= f < timing.frequencies@.len(),
    ensures
        b.dft@[f] == b.ports@[f].mirrored(),
{
    let omega = timing.frequencies@[f];
    let x = omega.product(t);
    reals(omega, t, t);
    let (p, q) = (b.ports@[f], b.dft@[f]);
    assert(turned(x, w, p) && turned(x.negative(), w, q));
    assert(on_angle(w.sin, w.cos, x, (p.re, p.im)));
    assert(on_angle(w.sin, w.cos, x.negative(), (q.re, q.im)));
}

/// The function gives one value at a time.
pub open spec fn single<T: Scalar, F: Fn(T) -> T>(f: F) -> bool {
    forall|x: T, a: T, b: T|
        #![trigger call_ensures(f, (x,), a), call_ensures(f, (x,), b)]
        call_ensures(f, (x,), a) && call_ensures(f, (x,), b) ==> a == b
}

/// Functions under which a pulse keeps its shape: the exponential has one
/// value, the sine is odd.
pub open spec fn shapely<T: Scalar, E: Fn(T) -> T, S: Fn(T) -> T, C: Fn(T) -> T>(
    w: &Waveform<T, E, S, C>,
) -> bool {
    &&& single(w.exp)
    &&& single(w.sin)
    &&& single(w.cos)
    &&& forall|x: T, a: T, b: T|
        #![trigger call_ensures(w.sin, (x,), a), call_ensures(w.sin, (x.negative(),), b)]
        call_ensures(w.sin, (x,), a) && call_ensures(w.sin, (x.negative(),), b) ==> b
            == a.negative()
}

/// `(t0 + x) - t0` is `x`, `(t0 - x) - t0` its opposite.
proof fn lemma_about<T: Scalar>(t0: T, x: T)
    requires
        exact_reals::<T>(),
    ensures
        t0.sum(x).difference(t0) == x,
        t0.difference(x).difference(t0) == x.negative(),
{
    let n = t0.negative();
    reals(t0, x, n);
    reals(x, t0, n);
    reals(t0.sum(x), t0, n);
    reals(t0, n, n);
    reals(x, n, n);
    let y = x.negative();
    reals(t0, x, x);
    reals(t0, y, n);
    reals(y, t0, n);
    reals(t0.sum(y), t0, n);
    reals(y, n, n);
}

/// A pulse is symmetric about its centre: it is as high as long before as
/// after; under a carrier it is the opposite.
pub proof fn pulse_is_symmetric<T: Scalar, E: Fn(T) -> T, S: Fn(T) -> T, C: Fn(T) -> T>(
    omega: T,
    t0: T,
    tau: T,
    x: T,
    w: &Waveform<T, E, S, C>,
    before: T,
    after: T,
)
    requires
        exact_field::<T>(),
        tau != T::zero_value(),
        shapely(w),
    ensures
        ({
            let p = TimeProfile::Gaussian { t0, tau };
            p.is_value(t0.difference(x), w, before) && p.is_value(t0.sum(x), w, after) ==> before
                == after
        }),
        ({
            let p = TimeProfile::ModulatedGaussian { omega, t0, tau };
            p.is_value(t0.difference(x), w, before) && p.is_value(t0.sum(x), w, after) ==> before
                == after.negative()
        }),
{
    lemma_about(t0, x);
    let u = x.quotient(tau);
    lemma_quotients(x, x, tau);
    // (-(-u)).(-u) = (-u).u
    lemma_opposites(u, u);
    reals(u, u.negative(), u);
    reals(u.negative(), u, u);
    lemma_spread(omega, x, x);
    let g = TimeProfile::Gaussian { t0, tau };
    if g.is_value(t0.difference(x), w, before) && g.is_value(t0.sum(x), w, after) {
        let a = choose|by: (T, T)| #[trigger] g.valued(t0.difference(x), w, before, by);
        let b = choose|by: (T, T)| #[trigger] g.valued(t0.sum(x), w, after, by);
        assert(a.0 == b.0);
    }
    let m = TimeProfile::ModulatedGaussian { omega, t0, tau };
    if m.is_value(t0.difference(x), w, before) && m.is_value(t0.sum(x), w, after) {
        let a = choose|by: (T, T)| #[trigger] m.valued(t0.difference(x), w, before, by);
        let b = choose|by: (T, T)| #[trigger] m.valued(t0.sum(x), w, after, by);
        assert(a.0 == b.0);
        assert(a.1 == b.1.negative());
        lemma_spread(b.0, b.1, b.0);
    }
}

/// The width scales a pulse: one that is wider by a factor is as high that
/// many times as far from its centre.
pub proof fn width_scales_the_pulse<T: Scalar, E: Fn(T) -> T, S: Fn(T) -> T, C: Fn(T) -> T>(
    t0: T,
    tau: T,
    k: T,
    x: T,
    w: &Waveform<T, E, S, C>,
    narrow: T,
    wide: T,
)
    requires
        exact_field::<T>(),
        tau != T::zero_value(),
        k.product(tau) != T::zero_value(),
        shapely(w),
        (TimeProfile::Gaussian { t0, tau }).is_value(t0.sum(x), w, narrow),
        (TimeProfile::Gaussian { t0, tau: k.product(tau) }).is_value(
            t0.sum(k.product(x)),
            w,
            wide,
        ),
    ensures
        narrow == wide,
{
    lemma_about(t0, x);
    lemma_about(t0, k.product(x));
    let (u, v) = (x.quotient(tau), k.product(x).quotient(k.product(tau)));
    lemma_quotient(x, tau);
    lemma_quotient(k.product(x), k.product(tau));
    // (k.tau).u = k.x
    reals(k, tau, u);
    lemma_cancel(u, v, k.product(tau));
    let p = TimeProfile::Gaussian { t0, tau };
    let q = TimeProfile::Gaussian { t0, tau: k.product(tau) };
    let a = choose|by: (T, T)| #[trigger] p.valued(t0.sum(x), w, narrow, by);
    let b = choose|by: (T, T)| #[trigger] q.valued(t0.sum(k.product(x)), w, wide, by);
    assert(a.0 == b.0);
}

/// A pulse falls off: it is never above one, whatever the moment. Under
/// rounding too.
pub proof fn pulse_falls_off<T: Scalar, E: Fn(T) -> T, S: Fn(T) -> T, C: Fn(T) -> T>(
    t0: T,
    tau: T,
    t: T,
    w: &Waveform<T, E, S, C>,
    r: T,
)
    requires
        monotone::<T>(),
        at_most_one_below(w.exp),
        (TimeProfile::Gaussian { t0, tau }).is_value(t, w, r),
    ensures
        T::of_count(1).at_least(r),
{
    let p = TimeProfile::Gaussian { t0, tau };
    let a = choose|by: (T, T)| #[trigger] p.valued(t, w, r, by);
    let u = t.difference(t0).quotient(tau);
    let zero = T::zero_value();
    follows(u, zero, u.negative());
    follows(zero, u, u.negative());
    follows(u.negative(), zero, u);
    follows(zero, u.negative(), u);
    follows(u, zero, zero);
    lemma_signs_of(u.negative(), u);
    assert(zero.at_least(u.negative().product(u)));
}

/// A continuous wave starts from nothing, rises evenly about the middle of its
/// ramp, and is the carrier alone from there on.
pub proof fn wave_rises_over_its_ramp<T: Scalar, E: Fn(T) -> T, S: Fn(T) -> T, C: Fn(T) -> T>(
    omega: T,
    ramp: T,
    t: T,
    w: &Waveform<T, E, S, C>,
    r: T,
    mirror: T,
    carriers: (T, T),
)
    requires
        exact_field::<T>(),
        ramp != T::zero_value(),
        !T::zero_value().at_least(ramp),
        w.half.sum(w.half) == T::of_count(1),
        shapely(w),
        forall|x: T, a: T, b: T|
            #![trigger call_ensures(w.cos, (x,), a), call_ensures(w.cos, (w.half_turn.difference(x),), b)]
            call_ensures(w.cos, (x,), a) && call_ensures(w.cos, (w.half_turn.difference(x),), b)
                ==> b == a.negative(),
        call_ensures(w.sin, (omega.product(t),), carriers.0),
        call_ensures(w.sin, (omega.product(ramp.difference(t)),), carriers.1),
        (TimeProfile::Cw { omega, ramp }).is_value(t, w, r),
        (TimeProfile::Cw { omega, ramp }).is_value(ramp.difference(t), w, mirror),
    ensures
        t.at_least(ramp) ==> r == carriers.0,
        !t.at_least(ramp) && !ramp.difference(t).at_least(ramp) ==> r.product(carriers.1).sum(
            mirror.product(carriers.0),
        ) == carriers.0.product(carriers.1),
{
    let (one, p) = (T::of_count(1), TimeProfile::Cw { omega, ramp });
    let a = choose|by: (T, T)| #[trigger] p.valued(t, w, r, by);
    let s = ramp.difference(t);
    let b = choose|by: (T, T)| #[trigger] p.valued(s, w, mirror, by);
    assert(a.1 == carriers.0 && b.1 == carriers.1);
    reals(carriers.0, one, one);
    reals(one, carriers.0, one);
    if !t.at_least(ramp) && !s.at_least(ramp) {
        let (h, g) = (w.half_turn, w.half);
        let x = h.product(t).quotient(ramp);
        // h.(ramp - t) = h.ramp - h.t, and h.ramp over the ramp is h
        lemma_spread(ramp, t, h);
        lemma_quotients(h.product(ramp), h.product(t).negative(), ramp);
        lemma_quotients(h.product(t), h, ramp);
        crate::exact::lemma_is_quotient(h, h.product(ramp), ramp);
        reals(h, x, x);
        assert(h.product(s).quotient(ramp) == h.difference(x));
        assert(b.0 == a.0.negative());
        // g.(1 - c) + g.(1 + c) = 1
        let (c, d) = (a.0, a.0.negative());
        lemma_opposites(c, c);
        reals(one, c, c);
        reals(one, d, d);
        let (y, z) = (g.product(one.difference(c)), g.product(one.difference(d)));
        reals(g, one.sum(d), one.sum(c));
        lemma_real_partners(one, d, one, c);
        reals(d, c, c);
        reals(c, d, c);
        reals(one.sum(one), c, c);
        reals(g, one, one);
        assert(y.sum(z) == one);
        // y.a.b + z.b.a = (y + z).(a.b)
        let (m, n) = carriers;
        reals(y, m, n);
        reals(z, n, m);
        reals(n, m, m);
        lemma_spread(y, z, m.product(n));
        reals(m.product(n), one, one);
        reals(one, m.product(n), one);
    }
}

/// A wave without a ramp is the carrier alone.
pub proof fn wave_without_ramp_is_its_carrier<
    T: Scalar,
    E: Fn(T) -> T,
    S: Fn(T) -> T,
    C: Fn(T) -> T,
>(omega: T, ramp: T, t: T, w: &Waveform<T, E, S, C>, r: T, carrier: T)
    requires
        exact_reals::<T>(),
        shapely(w),
        T::zero_value().at_least(ramp),
        call_ensures(w.sin, (omega.product(t),), carrier),
        (TimeProfile::Cw { omega, ramp }).is_value(t, w, r),
    ensures
        r == carrier,
{
    let p = TimeProfile::Cw { omega, ramp };
    let a = choose|by: (T, T)| #[trigger] p.valued(t, w, r, by);
    assert(a.1 == carrier);
    reals(carrier, T::of_count(1), carrier);
    reals(T::of_count(1), carrier, carrier);
}

/// Sources add up: twice the amplitude, or twice the signal, adds twice as
/// much, on the same cells.
pub proof fn sources_add_up<T: Scalar>(
    s: Source<T>,
    more: T,
    signal: T,
    other: T,
    ny: int,
    i: int,
    j: int,
)
    requires
        exact_reals::<T>(),
        s.shape.drives(ny, i, j),
    ensures
        ({
            let both = Source { amplitude: s.amplitude.sum(more), ..s };
            let rest = Source { amplitude: more, ..s };
            (both.adds(ny, signal)(i, j))->0 == (s.adds(ny, signal)(i, j))->0.sum(
                (rest.adds(ny, signal)(i, j))->0,
            )
        }),
        (s.adds(ny, signal.sum(other))(i, j))->0 == (s.adds(ny, signal)(i, j))->0.sum(
            (s.adds(ny, other)(i, j))->0,
        ),
        s.amplitude == T::of_count(1) ==> s.adds(ny, signal)(i, j) == Some(signal),
{
    lemma_spread(s.amplitude, more, signal);
    reals(s.amplitude, signal, other);
    reals(signal, T::of_count(1), signal);
    reals(T::of_count(1), signal, signal);
}

/// A line that names no rows drives its whole column but the two ends; one that
/// names a single row is a point.
pub proof fn lines_and_points(i: usize, j: usize, ny: int, a: int, b: int)
    ensures
        (SourceShape::Line { i, j0: None, j1: None }).drives(ny, a, b) <==> a == i && 0 < b < ny - 1,
        (SourceShape::Line { i, j0: Some(j), j1: Some(j) }).drives(ny, a, b) <==> (
        SourceShape::Point { i, j }).drives(ny, a, b),
        (SourceShape::Point { i, j }).drives(ny, a, b) <==> a == i && b == j,
{
}

/// A mode source adds its signal in the shape of its profile: in its column and
/// off the ring, as much as the profile says, and nothing elsewhere.
pub proof fn mode_source_adds_its_profile<T: Scalar>(
    m: &ModeInjector<T>,
    ny: int,
    signal: T,
    other: T,
    j: int,
    i: int,
)
    requires
        exact_reals::<T>(),
        0 < j < ny - 1,
        nonzero(m.profile@[j]),
    ensures
        m.amplitude == T::of_count(1) ==> m.adds(ny, T::of_count(1))(m.i as int, j) == Some(
            m.profile@[j],
        ),
        (m.adds(ny, signal.sum(other))(m.i as int, j))->0 == (m.adds(ny, signal)(
            m.i as int,
            j,
        ))->0.sum((m.adds(ny, other)(m.i as int, j))->0),
        i != m.i ==> m.adds(ny, signal)(i, j) is None,
        m.adds(ny, signal)(m.i as int, 0) is None,
        m.adds(ny, signal)(m.i as int, ny - 1) is None,
{
    let (a, p, one) = (m.amplitude, m.profile@[j], T::of_count(1));
    reals(a, signal, other);
    lemma_spread(a.product(signal), a.product(other), p);
    reals(one, one, one);
    reals(p, one, one);
    reals(one, p, p);
}

/// A dipole adds its signal to its own sample: with an amplitude of one, the
/// signal itself, and two dipoles there as much as one of both amplitudes.
pub proof fn dipoles_add_up<T: Scalar>(
    d: Dipole3<T>,
    more: T,
    before: &Grid3d<T>,
    signal: T,
    after: &Grid3d<T>,
    both: &Grid3d<T>,
)
    requires
        exact_reals::<T>(),
        before.wf(),
        d.fits(before.points()),
        d.driven(before, signal, after),
        (Dipole3 { amplitude: d.amplitude.sum(more), ..d }).driven(before, signal, both),
    ensures
        ({
            let at = flat(
                e_dims(before.points(), d.axis),
                (d.i as int, d.j as int, d.k as int),
            );
            let was = before.e(d.axis)[at];
            &&& d.amplitude == T::of_count(1) ==> after.e(d.axis)[at] == was.sum(signal)
            &&& both.e(d.axis)[at] == after.e(d.axis)[at].sum(more.product(signal))
        }),
{
    let at = flat(e_dims(before.points(), d.axis), (d.i as int, d.j as int, d.k as int));
    lemma_flat(e_dims(before.points(), d.axis), (d.i as int, d.j as int, d.k as int));
    let was = before.e(d.axis)[at];
    assert(0 <= at < before.e(d.axis).len());
    assert(after.e(d.axis)[at] == was.sum(d.amplitude.product(signal)));
    lemma_spread(d.amplitude, more, signal);
    reals(was, d.amplitude.product(signal), more.product(signal));
    reals(signal, T::of_count(1), signal);
    reals(T::of_count(1), signal, signal);
}

/// A source adds to the field and to nothing else: the field differs by what
/// is injected, and two injections may change places.
pub proof fn injections_add_to_the_field<T: Scalar>(
    g: &Grid2d<T>,
    f: spec_fn(int, int) -> Option<T>,
    h: spec_fn(int, int) -> Option<T>,
    by_f: &Grid2d<T>,
    by_h: &Grid2d<T>,
    f_then_h: &Grid2d<T>,
    h_then_f: &Grid2d<T>,
    i: int,
    j: int,
)
    requires
        exact_reals::<T>(),
        injected(g, by_f, f),
        injected(g, by_h, h),
        injected(by_f, f_then_h, h),
        injected(by_h, h_then_f, f),
        0 <= i < g.nx,
        0 <= j < g.ny,
    ensures
        f(i, j) is None ==> by_f.ez_of(i, j) == g.ez_of(i, j),
        f(i, j) is Some ==> by_f.ez_of(i, j).difference(g.ez_of(i, j)) == f(i, j)->0,
        f_then_h.ez_of(i, j) == h_then_f.ez_of(i, j),
        f_then_h.same_h(g),
{
    let x = g.ez_of(i, j);
    if f(i, j) is Some {
        let s = f(i, j)->0;
        reals(x, s, x.negative());
        reals(s, x, x.negative());
        reals(x, x.negative(), s);
        reals(x.sum(s), x, x);
        reals(s, x, x);
        reals(x, x, x);
        reals(s, s, s);
        if h(i, j) is Some {
            let t = h(i, j)->0;
            reals(x, s, t);
            reals(x, t, s);
            reals(s, t, x);
        }
    }
}

} // verus!
