//! What light meets on its way: guides lose what their loss says and no more,
//! segments compose, rings are guides that close, couplers cross their share.

use crate::complex::Cx;
use crate::exact::{complex_numbers_are_exact, exact_field, exact_reals, follows, lemma_cancel};
use crate::exact::{lemma_opposites, lemma_quotient, lemma_quotients, lemma_real_partners};
use crate::exact::{lemma_signs_of, lemma_spread, lifted, monotone, reals, ring, ring_at, upright};
use crate::photonic::components::{add_drop, all_pass, couples, cross_of, is_coupler};
use crate::photonic::components::{AllPassRing, Optics, Waveguide};
use crate::photonic::network::CMat;
use crate::scalar::Scalar;
use crate::spiking::membrane::exponential;
use vstd::prelude::*;

verus! {

/// What a transfer is made of: the exponent of its loss, its amplitude, its
/// phase, and cosine and sine of that.
pub struct Passage<T> {
    pub exponent: T,
    pub amplitude: T,
    pub phase: T,
    pub cos: T,
    pub sin: T,
}

/// A guide loses what its loss says: the amplitude is ten to a power that,
/// twentyfold, takes off the decibels of the whole length; and the phase times
/// the wavelength is the optical length in full turns.
pub proof fn guide_loses_its_decibels<T: Scalar, P: Fn(T) -> T, S: Fn(T) -> T, C: Fn(T) -> T>(
    g: Waveguide<T>,
    lambda_um: T,
    optics: &Optics<T, P, S, C>,
    z: Cx<T>,
) -> (w: Passage<T>)
    requires
        exact_field::<T>(),
        g.is_transfer(lambda_um, optics, z),
        T::of_count(20) != T::zero_value(),
        lambda_um != T::zero_value(),
    ensures
        call_ensures(optics.ten_to, (w.exponent,), w.amplitude),
        T::of_count(20).product(w.exponent).sum(
            g.loss_db_per_cm.product(g.length_um.product(optics.cm_per_um)),
        ) == T::zero_value(),
        lambda_um.product(w.phase) == optics.full_turn.product(g.n_eff).product(g.length_um),
        call_ensures(optics.cos, (w.phase,), w.cos),
        call_ensures(optics.sin, (w.phase,), w.sin),
        z.re == w.amplitude.product(w.cos),
        z.im == w.amplitude.product(w.sin),
{
    let amp = choose|amp: T|
        #[trigger] call_ensures(optics.ten_to, (g.exponent(optics),), amp) && optics.is_polar(
            amp,
            g.phase(optics, lambda_um),
            z,
        );
    let by = choose|by: (T, T)| #[trigger] optics.polar(amp, g.phase(optics, lambda_um), z, by);
    let twenty = T::of_count(20);
    let l = g.length_um.product(optics.cm_per_um);
    let loss = g.loss_db_per_cm.product(l);
    lemma_quotient(g.loss_db_per_cm.negative().product(l), twenty);
    reals(g.loss_db_per_cm, l, l);
    reals(loss, loss.negative(), l);
    reals(loss.negative(), loss, l);
    let x = g.exponent(optics);
    reals(twenty, x, x);
    let k = optics.full_turn.product(g.n_eff);
    lemma_quotient(k, lambda_um);
    reals(lambda_um, k.quotient(lambda_um), g.length_um);
    Passage {
        exponent: x,
        amplitude: amp,
        phase: g.phase(optics, lambda_um),
        cos: by.0,
        sin: by.1,
    }
}

/// The power of what comes through is the square of the amplitude.
pub proof fn phase_keeps_power<T: Scalar>(z: Cx<T>, amplitude: T, cos: T, sin: T)
    requires
        exact_reals::<T>(),
        cos.product(cos).sum(sin.product(sin)) == T::of_count(1),
        z.re == amplitude.product(cos),
        z.im == amplitude.product(sin),
    ensures
        z.power() == amplitude.product(amplitude),
{
    lemma_squared(amplitude, cos);
    lemma_squared(amplitude, sin);
    let a = amplitude.product(amplitude);
    reals(a, cos.product(cos), sin.product(sin));
    reals(a, a, a);
}

proof fn lemma_squared<T: Scalar>(u: T, c: T)
    requires
        exact_reals::<T>(),
    ensures
        u.product(c).product(u.product(c)) == u.product(u).product(c.product(c)),
{
    reals(u, c, u.product(c));
    reals(c, u, c);
    reals(u, c, c);
    reals(u, u, c.product(c));
}

/// The function keeps order.
pub open spec fn rising<T: Scalar, P: Fn(T) -> T>(f: P) -> bool {
    forall|x: T, y: T, u: T, v: T|
        #![trigger call_ensures(f, (x,), u), call_ensures(f, (y,), v)]
        x.at_least(y) && call_ensures(f, (x,), u) && call_ensures(f, (y,), v) ==> u.at_least(v)
}

/// The function is at most one from zero down.
pub open spec fn at_most_one_below<T: Scalar, P: Fn(T) -> T>(f: P) -> bool {
    forall|x: T, u: T| #[trigger]
        call_ensures(f, (x,), u) && T::zero_value().at_least(x) ==> T::of_count(1).at_least(u)
}

/// A guide of a loss and a length that are not negative is passive: its
/// amplitude is at most one, and more loss or more length never raise it. Under
/// rounding too.
pub proof fn guide_is_passive<T: Scalar, P: Fn(T) -> T, S: Fn(T) -> T, C: Fn(T) -> T>(
    g: Waveguide<T>,
    h: Waveguide<T>,
    optics: &Optics<T, P, S, C>,
    a: T,
    b: T,
)
    requires
        monotone::<T>(),
        at_most_one_below::<T, P>(optics.ten_to),
        rising::<T, P>(optics.ten_to),
        T::zero_value().less_than(T::of_count(20)),
        optics.cm_per_um.at_least(T::zero_value()),
        g.loss_db_per_cm.at_least(T::zero_value()),
        g.length_um.at_least(T::zero_value()),
        h.loss_db_per_cm.at_least(g.loss_db_per_cm),
        h.length_um.at_least(g.length_um),
        call_ensures(optics.ten_to, (g.exponent(optics),), a),
        call_ensures(optics.ten_to, (h.exponent(optics),), b),
    ensures
        T::of_count(1).at_least(a),
        a.at_least(b),
{
    let (zero, twenty) = (T::zero_value(), T::of_count(20));
    let (lg, lh) = (
        g.length_um.product(optics.cm_per_um),
        h.length_um.product(optics.cm_per_um),
    );
    let (ng, nh) = (g.loss_db_per_cm.negative(), h.loss_db_per_cm.negative());
    lemma_signs_of(g.length_um, optics.cm_per_um);
    lemma_signs_of(g.loss_db_per_cm, lg);
    lemma_signs_of(ng, lg);
    lemma_signs_of(ng.product(lg), twenty);
    // lh >= lg and nh <= ng <= 0
    follows(h.length_um, g.length_um, optics.cm_per_um);
    follows(h.loss_db_per_cm, g.loss_db_per_cm, g.loss_db_per_cm);
    follows(ng, nh, lg);
    follows(h.loss_db_per_cm, zero, zero);
    follows(h.loss_db_per_cm, g.loss_db_per_cm, zero);
    lemma_signs_of(h.loss_db_per_cm, lh);
    follows(lh, lg, nh);
    follows(ng.product(lg), nh.product(lg), nh.product(lh));
    follows(ng.product(lg), nh.product(lh), twenty);
}

/// Cosine and sine of a sum, by those of the summands.
pub open spec fn circular<T: Scalar, S: Fn(T) -> T, C: Fn(T) -> T>(sin: S, cos: C) -> bool {
    forall|x: T, y: T, a: (T, T), b: (T, T), c: (T, T)|
        #![trigger on_angle(sin, cos, x, a), on_angle(sin, cos, y, b), on_angle(sin, cos, x.sum(y), c)]
        on_angle(sin, cos, x, a) && on_angle(sin, cos, y, b) && on_angle(sin, cos, x.sum(y), c)
            ==> c.0 == a.0.product(b.0).difference(a.1.product(b.1)) && c.1 == a.0.product(
            b.1,
        ).sum(a.1.product(b.0))
}

/// Cosine and sine of an angle.
pub open spec fn on_angle<T: Scalar, S: Fn(T) -> T, C: Fn(T) -> T>(
    sin: S,
    cos: C,
    x: T,
    a: (T, T),
) -> bool {
    call_ensures(cos, (x,), a.0) && call_ensures(sin, (x,), a.1)
}

/// Segments compose: a guide transfers what its two parts transfer one after
/// the other.
pub proof fn segments_compose<T: Scalar, P: Fn(T) -> T, S: Fn(T) -> T, C: Fn(T) -> T>(
    g: Waveguide<T>,
    h: Waveguide<T>,
    whole: Waveguide<T>,
    lambda_um: T,
    optics: &Optics<T, P, S, C>,
    zg: Cx<T>,
    zh: Cx<T>,
    z: Cx<T>,
)
    requires
        exact_field::<T>(),
        exponential::<T, P>(optics.ten_to),
        circular::<T, S, C>(optics.sin, optics.cos),
        T::of_count(20) != T::zero_value(),
        lambda_um != T::zero_value(),
        h.n_eff == g.n_eff,
        h.loss_db_per_cm == g.loss_db_per_cm,
        whole.n_eff == g.n_eff,
        whole.loss_db_per_cm == g.loss_db_per_cm,
        whole.length_um == g.length_um.sum(h.length_um),
        g.is_transfer(lambda_um, optics, zg),
        h.is_transfer(lambda_um, optics, zh),
        whole.is_transfer(lambda_um, optics, z),
    ensures
        z == zg.product(zh),
{
    let (p, q, w) = (
        guide_loses_its_decibels(g, lambda_um, optics, zg),
        guide_loses_its_decibels(h, lambda_um, optics, zh),
        guide_loses_its_decibels(whole, lambda_um, optics, z),
    );
    let twenty = T::of_count(20);
    // exponents add up
    let (lg, lh) = (
        g.length_um.product(optics.cm_per_um),
        h.length_um.product(optics.cm_per_um),
    );
    lemma_spread(g.length_um, h.length_um, optics.cm_per_um);
    reals(g.loss_db_per_cm, lg, lh);
    let (dg, dh) = (g.loss_db_per_cm.product(lg), g.loss_db_per_cm.product(lh));
    reals(twenty, p.exponent, q.exponent);
    lemma_sum_of_opposites(twenty.product(p.exponent), dg, twenty.product(q.exponent), dh);
    lemma_same_opposite(
        twenty.product(w.exponent),
        twenty.product(p.exponent.sum(q.exponent)),
        dg.sum(dh),
    );
    lemma_cancel(w.exponent, p.exponent.sum(q.exponent), twenty);
    // phases add up
    let k = optics.full_turn.product(g.n_eff);
    reals(k, g.length_um, h.length_um);
    reals(lambda_um, p.phase, q.phase);
    lemma_cancel(w.phase, p.phase.sum(q.phase), lambda_um);
    assert(w.amplitude == p.amplitude.product(q.amplitude));
    let (a, b, c) = ((p.cos, p.sin), (q.cos, q.sin), (w.cos, w.sin));
    assert(on_angle(optics.sin, optics.cos, p.phase, a));
    assert(on_angle(optics.sin, optics.cos, q.phase, b));
    assert(on_angle(optics.sin, optics.cos, p.phase.sum(q.phase), c));
    let (s, t) = (p.amplitude, q.amplitude);
    lemma_paired(s, t, p.cos, q.cos);
    lemma_paired(s, t, p.sin, q.sin);
    lemma_paired(s, t, p.cos, q.sin);
    lemma_paired(s, t, p.sin, q.cos);
    lemma_spread(p.cos.product(q.cos), p.sin.product(q.sin), s.product(t));
    reals(s.product(t), p.cos.product(q.sin), p.sin.product(q.cos));
    reals(zg.re.product(zh.re), zg.im.product(zh.im), s);
    assert(z.re == zg.product(zh).re);
    assert(z.im == zg.product(zh).im);
}

proof fn lemma_sum_of_opposites<T: Scalar>(a: T, b: T, c: T, d: T)
    requires
        exact_reals::<T>(),
        a.sum(b) == T::zero_value(),
        c.sum(d) == T::zero_value(),
    ensures
        a.sum(c).sum(b.sum(d)) == T::zero_value(),
{
    lemma_real_partners(a, b, c, d);
    reals(T::zero_value(), T::zero_value(), a);
}

proof fn lemma_same_opposite<T: Scalar>(a: T, b: T, c: T)
    requires
        exact_reals::<T>(),
        a.sum(c) == T::zero_value(),
        b.sum(c) == T::zero_value(),
    ensures
        a == b,
{
    let n = c.negative();
    reals(a, c, n);
    reals(b, c, n);
    reals(c, n, n);
    reals(a, a, a);
    reals(b, b, b);
}

/// `(s.x).(t.y) = (s.t).(x.y)`.
proof fn lemma_paired<T: Scalar>(s: T, t: T, x: T, y: T)
    requires
        exact_reals::<T>(),
    ensures
        s.product(x).product(t.product(y)) == s.product(t).product(x.product(y)),
{
    reals(s, x, t.product(y));
    reals(x, t, y);
    reals(t, x, y);
    reals(s, t, x.product(y));
}

/// A ring is a guide that closes: a round trip has the loss and the phase of a
/// straight guide of the ring's length.
pub proof fn ring_is_a_closed_guide<T: Scalar, P: Fn(T) -> T, S: Fn(T) -> T, C: Fn(T) -> T>(
    r: AllPassRing<T>,
    g: Waveguide<T>,
    lambda_um: T,
    optics: &Optics<T, P, S, C>,
)
    requires
        exact_field::<T>(),
        lambda_um != T::zero_value(),
        g.length_um == r.circumference_um,
        g.n_eff == r.n_eff,
        g.loss_db_per_cm == r.loss_db_per_cm,
    ensures
        r.exponent(optics) == g.exponent(optics),
        r.phase(optics.full_turn, lambda_um) == g.phase(optics, lambda_um),
{
    let n = r.loss_db_per_cm.negative();
    reals(n, r.circumference_um, optics.cm_per_um);
    let k = optics.full_turn.product(r.n_eff);
    let l = r.circumference_um;
    lemma_quotients(k, l, lambda_um);
    reals(k, l, l);
    reals(k.quotient(lambda_um), l, l);
}

/// The free spectral range times the optical length is the squared wavelength.
pub proof fn range_fits_the_ring<T: Scalar>(r: AllPassRing<T>, lambda_um: T)
    requires
        exact_field::<T>(),
        r.n_eff.product(r.circumference_um) != T::zero_value(),
    ensures
        r.range(lambda_um).product(r.n_eff.product(r.circumference_um)) == lambda_um.product(
            lambda_um,
        ),
{
    lemma_quotient(
        lambda_um.product(lambda_um),
        r.n_eff.product(r.circumference_um),
    );
}

/// A ring that is not coupled passes everything as it is, and one whose round
/// trip keeps exactly what the coupler passes lets nothing through.
pub proof fn ring_extremes<T: Scalar>(t: T, rt: Cx<T>)
    requires
        exact_reals::<T>(),
    ensures
        all_pass(T::of_count(1), rt).0 == all_pass(T::of_count(1), rt).1,
        all_pass(t, lifted(t)).0 == Cx::<T>::nought(),
{
    complex_numbers_are_exact::<T>();
    let one = T::of_count(1);
    assert(ring_at(rt, rt, rt, one));
    assert(lifted(one) == Cx::<T>::unit());
    ring(lifted(t), lifted(t), rt);
}

/// A ring whose second bus is not coupled is a ring on one bus, and drops
/// nothing.
pub proof fn uncoupled_bus_drops_nothing<T: Scalar>(t: T, k: T, rt: Cx<T>, half: Cx<T>)
    requires
        exact_reals::<T>(),
    ensures
        add_drop(t, T::of_count(1), k, T::zero_value(), rt, half).0 == all_pass(t, rt).0,
        add_drop(t, T::of_count(1), k, T::zero_value(), rt, half).1 == Cx::<T>::nought(),
        add_drop(t, T::of_count(1), k, T::zero_value(), rt, half).2 == all_pass(t, rt).1,
{
    let (one, zero) = (T::of_count(1), T::zero_value());
    reals(rt.re, one, one);
    reals(rt.im, one, one);
    reals(t, one, one);
    reals(k, zero, zero);
    reals(half.re.negative(), zero, zero);
    reals(half.im.negative(), zero, zero);
}

/// What a bus coupler crosses and what it passes make up the power.
pub proof fn bus_coupler_keeps_power<T: Scalar, R: Fn(T) -> T>(t: T, k: T, root: R)
    requires
        exact_reals::<T>(),
        call_ensures(root, (cross_of(t),), k),
        forall|x: T, y: T| #[trigger] call_ensures(root, (x,), y) ==> y.product(y) == x,
    ensures
        k.product(k).sum(t.product(t)) == T::of_count(1),
{
    let (one, tt) = (T::of_count(1), t.product(t));
    reals(one, tt, tt);
    reals(one, tt.negative(), tt);
    reals(tt.negative(), tt, tt);
    reals(tt, tt.negative(), tt);
    reals(one, one, one);
}

/// A coupler crosses its share of the power and passes the rest.
pub proof fn coupler_crosses_its_share<T: Scalar, R: Fn(T) -> T>(m: &CMat<T>, k: T, root: R)
    requires
        exact_reals::<T>(),
        couples(m, k, root),
        forall|x: T, y: T| #[trigger]
            call_ensures(root, (x,), y) ==> y.product(y) == x,
    ensures
        m.at(1, 0).power() == k,
        m.at(0, 1).power() == k,
        m.at(0, 0).power() == T::of_count(1).difference(k),
        m.at(1, 1).power() == T::of_count(1).difference(k),
{
    let (t, r) = choose|t: T, r: T|
        #![trigger is_coupler(m, t, r)]
        call_ensures(root, (T::of_count(1).difference(k),), t) && call_ensures(root, (k,), r)
            && is_coupler(m, t, r);
    let (a, b) = (lifted(t), upright(r));
    assert(m.data@ == seq![a, b, b, a]);
    let zero = T::zero_value();
    lemma_opposites(t.product(t), zero);
    lemma_opposites(r.product(r), zero);
    lemma_opposites(zero, zero);
    reals(t.product(t), zero, zero);
    reals(zero, zero, zero);
}

} // verus!
