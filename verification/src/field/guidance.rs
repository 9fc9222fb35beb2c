//! What guides, ports and scattering parameters are for: a mode meets the
//! dispersion relations of its guide, a port reads back the amplitude of the
//! mode it watches, and what leaves a device is its parameter times what comes
//! in.

use crate::complex::Cx;
use crate::exact::{exact_counts, exact_field, exact_reals, counts_at};
use crate::exact::{follows, lemma_cancel, lemma_is_quotient, lemma_opposites, lemma_quotient};
use crate::exact::{lemma_quotients, lemma_real_partners, lemma_spread, monotone, reals};
use crate::field::eps::{CellBox, DeviceSection, EpsSpec};
use crate::field::grid::Grid2d;
use crate::field::mode::{halved, is_unit, ringed, square_sum, ModeShape, ModeSolver, SlabMode};
use crate::field::mode::SlabWaveguide;
use crate::field::monitor::{FourierSums, PortMonitor};
use crate::field::signals::single;
use crate::field::sparams::{amplitude, is_column};
use crate::scalar::{running, Scalar};
use vstd::prelude::*;

verus! {

/// The root is one: its square is what it was taken of.
pub open spec fn square_root<T: Scalar, R: Fn(T) -> T>(root: R) -> bool {
    forall|x: T, r: T| #[trigger] call_ensures(root, (x,), r) ==> r.product(r) == x
}

/// `(a/b).(a/b)` times `b.b` is `a.a`.
proof fn lemma_square_of_quotient<T: Scalar>(a: T, b: T)
    requires
        exact_field::<T>(),
        b != T::zero_value(),
    ensures
        b.product(b).product(a.quotient(b).product(a.quotient(b))) == a.product(a),
{
    let q = a.quotient(b);
    lemma_quotient(a, b);
    reals(b, b, q.product(q));
    reals(b, q, q);
    reals(q, b, q);
    reals(b, q, b.product(q));
    reals(q, b, q);
    reals(b, b.product(q), q);
    reals(b.product(q), q, b);
    reals(b, q.product(b), q);
    reals(a, q, b);
    reals(b, a, q);
}

/// A mode meets the dispersion relations of its guide: the squares of its
/// propagation constant and of its transverse wavenumber make up the square of
/// the wavenumber in the core; those of the transverse wavenumber and of the
/// decay make up what core and cladding differ by, so that the square of the
/// propagation constant exceeds that of the decay by the square of the
/// wavenumber in the cladding. Its index is the propagation constant over the
/// frequency.
pub proof fn mode_obeys_its_dispersion<T: Scalar, R: Fn(T) -> T, G: Fn(T) -> T>(
    solver: &ModeSolver<T, R, G>,
    guide: &SlabWaveguide<T>,
    omega: T,
    m: usize,
    mode: SlabMode<T>,
    by: (T, T, T, T),
)
    requires
        exact_field::<T>(),
        square_root(solver.root),
        omega != T::zero_value(),
        guide.half_width != T::zero_value(),
        guide.half_width.product(guide.half_width) != T::zero_value(),
        solver.solved(guide, omega, m, Some(mode), by),
        by.0.product(by.0).difference(by.1.product(by.1)).at_least(T::zero_value()),
    ensures
        ({
            let (k, g, b) = (mode.kappa, mode.gamma, mode.beta);
            let ww = omega.product(omega);
            &&& mode.m == m
            &&& mode.omega == omega
            &&& mode.half_width == guide.half_width
            &&& mode.n_eff.product(omega) == b
            &&& b.product(b).sum(k.product(k)) == guide.eps_core.product(ww)
            &&& k.product(k).sum(g.product(g)).sum(guide.eps_clad.product(ww))
                == guide.eps_core.product(ww)
            &&& b.product(b) == g.product(g).sum(guide.eps_clad.product(ww))
        }),
{
    let (v, u, rest, beta) = by;
    let (w, zero) = (guide.half_width, T::zero_value());
    let (k, g) = (u.quotient(w), rest.quotient(w));
    let (core, clad) = (guide.eps_core, guide.eps_clad);
    let ww = omega.product(omega);
    lemma_quotient(beta, omega);
    // beta^2
    reals(core, omega, omega);
    let kk = k.product(k);
    let cw = core.product(ww);
    reals(cw, kk, kk);
    reals(cw, kk.negative(), kk);
    reals(kk.negative(), kk, kk);
    reals(kk, kk.negative(), kk);
    reals(cw, zero, zero);
    assert(beta.product(beta).sum(kk) == cw);
    // v^2 = omega^2.w^2.(core - clad)
    let contrast = core.difference(clad);
    let r = choose|r: T|
        #[trigger] call_ensures(solver.root, (contrast,), r) && v == guide.normalized(omega, r);
    let ow = omega.product(w);
    lemma_squares(ow, r);
    lemma_squares(omega, w);
    assert(v.product(v) == ww.product(w.product(w)).product(contrast));
    // (kappa^2 + gamma^2).w^2 = u^2 + rest^2 = v^2
    let gg = g.product(g);
    let w2 = w.product(w);
    lemma_square_of_quotient(u, w);
    lemma_square_of_quotient(rest, w);
    reals(w2, kk, gg);
    let (vv, uu) = (v.product(v), u.product(u));
    reals(vv, uu, uu);
    reals(uu, vv.sum(uu.negative()), uu);
    reals(vv, uu.negative(), uu);
    reals(uu.negative(), uu, uu);
    reals(uu, uu.negative(), uu);
    reals(vv, zero, zero);
    assert(w2.product(kk.sum(gg)) == vv);
    reals(ww, w2, contrast);
    reals(w2, ww, contrast);
    reals(w2, contrast, ww);
    reals(ww, contrast, ww);
    assert(vv == w2.product(ww.product(contrast)));
    lemma_cancel(kk.sum(gg), ww.product(contrast), w2);
    // + clad.omega^2
    lemma_spread(core, clad, ww);
    let cl = clad.product(ww);
    reals(core, ww, ww);
    reals(clad, ww, ww);
    reals(cw, cl.negative(), cl);
    reals(cl.negative(), cl, cl);
    reals(cl, cl.negative(), cl);
    assert(kk.sum(gg).sum(cl) == cw);
    // beta^2 + kappa^2 = kappa^2 + gamma^2 + clad.omega^2
    let bb = beta.product(beta);
    reals(kk, gg, cl);
    reals(bb, kk, kk);
    reals(kk, bb, bb);
    lemma_take_off(bb, gg.sum(cl), kk);
}

/// `(a.b).(a.b)` is `(a.a).(b.b)`.
proof fn lemma_squares<T: Scalar>(a: T, b: T)
    requires
        exact_reals::<T>(),
    ensures
        a.product(b).product(a.product(b)) == a.product(a).product(b.product(b)),
{
    reals(a, b, a.product(b));
    reals(b, a, b);
    reals(a, b, b);
    reals(a, a, b.product(b));
}

/// A summand can be taken off both sides.
proof fn lemma_take_off<T: Scalar>(x: T, y: T, a: T)
    requires
        exact_reals::<T>(),
        a.sum(x) == a.sum(y),
    ensures
        x == y,
{
    let n = a.negative();
    reals(n, a, x);
    reals(n, a, y);
    reals(a, n, n);
    lemma_opposites(x, x);
    lemma_opposites(y, y);
}

/// A halving keeps one end of its bracket and halves its width.
pub proof fn halving_halves<T: Scalar>(x: (T, T), y: (T, T), half: T, above: bool)
    requires
        exact_reals::<T>(),
        half.sum(half) == T::of_count(1),
        halved(x, y, half, above),
    ensures
        if above {
            y.0 == x.0
        } else {
            y.1 == x.1
        },
        y.1.difference(y.0).sum(y.1.difference(y.0)) == x.1.difference(x.0),
{
    let (a, b) = x;
    let (h, one) = (half, T::of_count(1));
    let (p, q) = (h.product(a), h.product(b));
    reals(h, a, b);
    // p + p = a, q + q = b
    lemma_spread(h, h, a);
    lemma_spread(h, h, b);
    reals(a, one, one);
    reals(one, a, one);
    reals(b, one, one);
    reals(one, b, one);
    let (m, n) = (p.negative(), q.negative());
    lemma_opposites(p, p);
    lemma_opposites(q, q);
    lemma_opposites(p, q);
    // (p + q) - (p + p) = q - p, (q + q) - (p + q) = q - p
    lemma_real_partners(p, q, m, m);
    lemma_real_partners(q, q, n, m);
    lemma_real_partners(q, q, m, n);
    reals(p, m, m);
    reals(q, n, n);
    reals(m, n, n);
    lemma_opposites(q.sum(m), q);
    lemma_opposites(q, p);
    reals(p.sum(q), a, a);
    reals(b, p.sum(q), a);
    reals(b, a, a);
    assert(y.1.difference(y.0) == q.sum(m));
    lemma_real_partners(q, m, q, m);
}

/// A bracket is a quarter turn wide at most: it starts where the one before
/// ends.
pub proof fn brackets_join<T: Scalar, R: Fn(T) -> T, G: Fn(T) -> T>(
    solver: &ModeSolver<T, R, G>,
    m: usize,
    v: T,
)
    requires
        exact_counts::<T>(),
        m < usize::MAX,
    ensures
        solver.low(0) == T::zero_value(),
        solver.low((m + 1) as usize) == solver.low(m).sum(solver.quarter_turn),
        solver.high(m, v) == v || solver.high(m, v) == solver.low((m + 1) as usize),
{
    let q = solver.quarter_turn;
    lemma_opposites(q, q);
    assert(counts_at::<T>(m as u64, 1));
    lemma_spread(T::of_count(m as u64), T::of_count(1), q);
    reals(q, T::of_count(1), q);
    reals(T::of_count(1), q, q);
}

/// A bracket keeps its root: an end that a halving moved lies on its own side,
/// the upper one above the root and the lower one not.
pub proof fn halving_keeps_the_root<T: Scalar, R: Fn(T) -> T, G: Fn(T) -> T>(
    solver: &ModeSolver<T, R, G>,
    m: usize,
    v: T,
    x: (T, T),
    y: (T, T),
)
    requires
        solver.narrows(m, v, x, y),
    ensures
        y.1 != x.1 ==> solver.is_above(m, v, y.1, true) && y.0 == x.0,
        y.0 != x.0 ==> solver.is_above(m, v, y.0, false) && y.1 == x.1,
{
}

/// Above the root is where the tangent side of the characteristic equation
/// outweighs the other: `u.tan(u - low)` less a number whose square and that of
/// `u` make up that of V.
pub proof fn sides_are_those_of_the_equation<T: Scalar, R: Fn(T) -> T, G: Fn(T) -> T>(
    solver: &ModeSolver<T, R, G>,
    m: usize,
    v: T,
    u: T,
    above: bool,
    by: (T, T),
)
    requires
        exact_reals::<T>(),
        square_root(solver.root),
        solver.judged(m, v, u, above, by),
        v.product(v).difference(u.product(u)).at_least(T::zero_value()),
    ensures
        by.1.product(by.1).sum(u.product(u)) == v.product(v),
        call_ensures(solver.tan, (u.difference(solver.low(m)),), by.0),
        above <==> T::zero_value().less_than(by.0.product(u).sum(by.1.negative())),
{
    let (vv, uu) = (v.product(v), u.product(u));
    lemma_about(uu, vv);
    reals(u, by.0, u);
    reals(u.product(by.0), by.1, u);
}

/// The lowest order is cut off only below the floor, and higher orders by the
/// start of their brackets.
pub proof fn cutoffs_follow_the_brackets<T: Scalar, R: Fn(T) -> T, G: Fn(T) -> T>(
    solver: &ModeSolver<T, R, G>,
    m: usize,
    v: T,
)
    requires
        exact_counts::<T>(),
        solver.cutoff_factor == T::of_count(1),
    ensures
        solver.cut_off(0, v) <==> solver.cutoff_floor.at_least(v),
        solver.cut_off(m, v) <==> solver.low(m).sum(solver.cutoff_floor).at_least(v),
{
    let (one, zero, f) = (T::of_count(1), T::zero_value(), solver.cutoff_floor);
    lemma_opposites(solver.quarter_turn, f);
    lemma_opposites(one, f);
    lemma_opposites(f, f);
    reals(solver.low(m), one, one);
}

/// Rows that lie as far on either side of the centre see the same of an even
/// mode and the opposite of an odd one.
pub proof fn rows_mirror_about_the_centre<T: Scalar, C, S, E, M, U>(
    mode: &SlabMode<T>,
    shape: &ModeShape<C, S, E, M, U>,
    center: T,
    values: Seq<T>,
    j: int,
    k: int,
) where C: Fn(T) -> T, S: Fn(T) -> T, E: Fn(T) -> T, M: Fn(T) -> T, U: Fn(T) -> T
    requires
        exact_reals::<T>(),
        mirrored_shape::<T, C, S, E, M, U>(shape),
        mode.sampled(shape, center, values),
        0 <= j < values.len(),
        0 <= k < values.len(),
        T::of_count(j as u64).sum(T::of_count(k as u64)) == center.sum(center),
    ensures
        mode.m % 2 == 0 ==> values[k] == values[j],
        mode.m % 2 == 1 ==> values[k] == values[j].negative(),
{
    let (x, y) = (T::of_count(j as u64), T::of_count(k as u64));
    let (s, n) = (x.difference(center), center.negative());
    // (x - c) + (y - c) = 0
    reals(x, center, center);
    reals(y, center, center);
    lemma_real_partners(x, n, y, n);
    lemma_opposites(center, center);
    let w = center.sum(center);
    reals(w, w.negative(), w);
    let t = y.difference(center);
    assert(s.sum(t) == T::zero_value());
    reals(s.negative(), s, t);
    reals(s, s.negative(), s);
    lemma_opposites(t, t);
    reals(s.negative(), s, s);
    reals(s.negative(), T::zero_value(), s);
    assert(t == s.negative());
    assert(mode.is_profile(shape, s, values[j]));
    assert(mode.is_profile(shape, t, values[k]));
    profile_has_a_parity(mode, shape, s, values[j], values[k]);
}

/// The functions of a shape are what they are named after, as far as signs go.
pub open spec fn mirrored_shape<T: Scalar, C, S, E, M, U>(
    shape: &ModeShape<C, S, E, M, U>,
) -> bool where C: Fn(T) -> T, S: Fn(T) -> T, E: Fn(T) -> T, M: Fn(T) -> T, U: Fn(T) -> T {
    &&& single::<T, E>(shape.exp)
    &&& single::<T, C>(shape.cos)
    &&& single::<T, S>(shape.sin)
    &&& single::<T, U>(shape.sign)
    &&& forall|x: T, a: T, b: T|
        #![trigger call_ensures(shape.cos, (x,), a), call_ensures(shape.cos, (x.negative(),), b)]
        call_ensures(shape.cos, (x,), a) && call_ensures(shape.cos, (x.negative(),), b) ==> b == a
    &&& forall|x: T, a: T, b: T|
        #![trigger call_ensures(shape.sin, (x,), a), call_ensures(shape.sin, (x.negative(),), b)]
        call_ensures(shape.sin, (x,), a) && call_ensures(shape.sin, (x.negative(),), b) ==> b
            == a.negative()
    &&& forall|x: T, a: T, b: T|
        #![trigger call_ensures(shape.sign, (x,), a), call_ensures(shape.sign, (x.negative(),), b)]
        call_ensures(shape.sign, (x,), a) && call_ensures(shape.sign, (x.negative(),), b) ==> b
            == a.negative()
    &&& forall|x: T, a: T, b: T|
        #![trigger call_ensures(shape.magnitude, (x,), a), call_ensures(shape.magnitude, (x.negative(),), b)]
        call_ensures(shape.magnitude, (x,), a) && call_ensures(
            shape.magnitude,
            (x.negative(),),
            b,
        ) ==> b == a
}

/// On the far side of its core an even mode is the same and an odd one the
/// opposite.
pub proof fn profile_has_a_parity<T: Scalar, C, S, E, M, U>(
    mode: &SlabMode<T>,
    shape: &ModeShape<C, S, E, M, U>,
    s: T,
    near: T,
    far: T,
) where C: Fn(T) -> T, S: Fn(T) -> T, E: Fn(T) -> T, M: Fn(T) -> T, U: Fn(T) -> T
    requires
        exact_reals::<T>(),
        mirrored_shape::<T, C, S, E, M, U>(shape),
        mode.is_profile(shape, s, near),
        mode.is_profile(shape, s.negative(), far),
    ensures
        mode.m % 2 == 0 ==> far == near,
        mode.m % 2 == 1 ==> far == near.negative(),
{
    let a = choose|by: (T, T, T, T)| #[trigger] mode.shaped(shape, s, near, by);
    let b = choose|by: (T, T, T, T)| #[trigger] mode.shaped(shape, s.negative(), far, by);
    assert(call_ensures(shape.magnitude, (s,), a.0));
    assert(call_ensures(shape.magnitude, (s.negative(),), b.0));
    assert(a.0 == b.0);
    lemma_spread(mode.kappa, s, s);
    if mode.half_width.at_least(a.0) {
    } else {
        assert(a.3 == b.3);
        assert(a.1 == b.1);
        if mode.m % 2 == 1 {
            assert(b.2 == a.2.negative());
            lemma_spread(a.1, a.2, a.3);
            reals(a.1.product(a.2), a.3, a.3);
        }
    }
}

/// Outside its core a mode decays: it is the value at the edge times an
/// exponential of the distance, and distances add up to products.
pub proof fn mode_decays_outside<T: Scalar, C, S, E, M, U>(
    mode: &SlabMode<T>,
    shape: &ModeShape<C, S, E, M, U>,
    s: T,
    size: T,
    value: T,
    edge: T,
    decay: T,
) where C: Fn(T) -> T, S: Fn(T) -> T, E: Fn(T) -> T, M: Fn(T) -> T, U: Fn(T) -> T
    requires
        exact_reals::<T>(),
        single(shape.exp),
        single(shape.cos),
        single(shape.magnitude),
        mode.m % 2 == 0,
        call_ensures(shape.magnitude, (s,), size),
        !mode.half_width.at_least(size),
        call_ensures(shape.magnitude, (mode.half_width,), mode.half_width),
        mode.half_width.at_least(mode.half_width),
        call_ensures(
            shape.exp,
            (mode.gamma.product(mode.half_width.difference(size)),),
            decay,
        ),
        mode.is_profile(shape, s, value),
        mode.is_profile(shape, mode.half_width, edge),
    ensures
        value == edge.product(decay),
{
    let a = choose|by: (T, T, T, T)| #[trigger] mode.shaped(shape, s, value, by);
    let b = choose|by: (T, T, T, T)| #[trigger] mode.shaped(shape, mode.half_width, edge, by);
    assert(call_ensures(shape.magnitude, (s,), a.0));
    assert(call_ensures(shape.magnitude, (mode.half_width,), b.0));
    assert(a.0 == size && b.0 == mode.half_width);
    let (w, g) = (mode.half_width, mode.gamma);
    // (-g).(size - w) = g.(w - size)
    lemma_spread(size, w, g.negative());
    lemma_spread(w, size, g);
    reals(g, size, w);
    reals(g, w, w);
    lemma_opposites(g.product(w), g);
    reals(g.product(w), g.product(size).negative(), g);
    reals(g.product(size).negative(), g.product(w), g);
    assert(call_ensures(shape.exp, (g.negative().product(size.difference(w)),), a.3));
    assert(a.3 == decay);
}

/// Values over their norm: each times the norm is the value.
proof fn lemma_unit_squares<T: Scalar>(v: Seq<T>, norm: T, n: int)
    requires
        exact_field::<T>(),
        norm != T::zero_value(),
        0 <= n <= v.len(),
    ensures
        norm.product(norm).product(
            square_sum(Seq::new(v.len(), |j: int| v[j].quotient(norm)), n),
        ) == square_sum(v, n),
    decreases n,
{
    let p = Seq::new(v.len(), |j: int| v[j].quotient(norm));
    let nn = norm.product(norm);
    reals(nn, nn, nn);
    if n > 0 {
        lemma_unit_squares(v, norm, n - 1);
        lemma_square_of_quotient(v[n - 1], norm);
        reals(nn, square_sum(p, n - 1), p[n - 1].product(p[n - 1]));
    }
}

/// A unit profile is one: its squares add up to one, it vanishes on the ring,
/// and its rows are in proportion to the values it was made of.
pub proof fn unit_profile_is_one<T: Scalar, R: Fn(T) -> T>(
    values: Seq<T>,
    root: R,
    p: Vec<T>,
    i: int,
    j: int,
)
    requires
        exact_field::<T>(),
        square_root(root),
        !T::zero_value().less_than(T::zero_value()),
        forall|x: T|
            x != T::zero_value() ==> #[trigger] x.product(x) != T::zero_value(),
        values.len() >= 3,
        is_unit(values, root, Some(p)),
        0 < i < values.len() - 1,
        0 < j < values.len() - 1,
    ensures
        p@.len() == values.len(),
        square_sum(p@, p@.len() as int) == T::of_count(1),
        p@[0] == T::zero_value(),
        p@.last() == T::zero_value(),
        p@[i].product(values[j]) == p@[j].product(values[i]),
{
    let v = ringed(values);
    let norm = choose|norm: T|
        {
            &&& #[trigger] call_ensures(root, (square_sum(v, values.len() as int),), norm)
            &&& Some(p) is Some <==> T::zero_value().less_than(norm)
            &&& Some(p) matches Some(p) ==> p@ == Seq::new(
                values.len(),
                |j: int| ringed(values)[j].quotient(norm),
            )
        };
    let zero = T::zero_value();
    assert(norm != zero);
    let (one, nn) = (T::of_count(1), norm.product(norm));
    lemma_unit_squares(v, norm, v.len() as int);
    assert(p@ =~= Seq::new(v.len(), |j: int| v[j].quotient(norm)));
    reals(nn, one, one);
    lemma_cancel(square_sum(p@, p@.len() as int), one, nn);
    lemma_quotients(one, one, norm);
    let (x, y) = (v[i], v[j]);
    lemma_quotients(x, y, norm);
    lemma_quotients(y, x, norm);
    reals(x.quotient(norm), y, x);
    reals(y.quotient(norm), x, x);
    reals(x, y, y);
}

/// A port reads back the amplitude of its mode: from a column that holds the
/// unit profile `a` times it sees `a`.
pub proof fn port_reads_back_the_amplitude<T: Scalar>(
    g: &Grid2d<T>,
    i: int,
    profile: Seq<T>,
    a: T,
)
    requires
        exact_reals::<T>(),
        profile.len() == g.ny,
        square_sum(profile, g.ny as int) == T::of_count(1),
        forall|j: int|
            0 <= j < g.ny ==> #[trigger] g.ez_of(i, j) == a.product(profile[j]),
    ensures
        PortMonitor::overlap(g, i, profile) == a,
{
    let terms = Seq::new(g.ny as nat, |j: int| g.ez_of(i, j).product(profile[j]));
    lemma_overlap(g, i, profile, a, g.ny as int);
    assert(terms.take(g.ny as int) =~= terms);
    reals(a, T::of_count(1), a);
}

proof fn lemma_overlap<T: Scalar>(g: &Grid2d<T>, i: int, profile: Seq<T>, a: T, n: int)
    requires
        exact_reals::<T>(),
        profile.len() == g.ny,
        0 <= n <= g.ny,
        forall|j: int|
            0 <= j < g.ny ==> #[trigger] g.ez_of(i, j) == a.product(profile[j]),
    ensures
        running(
            Seq::new(g.ny as nat, |j: int| g.ez_of(i, j).product(profile[j])).take(n),
        ) == a.product(square_sum(profile, n)),
    decreases n,
{
    let terms = Seq::new(g.ny as nat, |j: int| g.ez_of(i, j).product(profile[j]));
    reals(a, a, a);
    if n > 0 {
        lemma_overlap(g, i, profile, a, n - 1);
        assert(terms.take(n).drop_last() =~= terms.take(n - 1));
        let p = profile[n - 1];
        assert(terms[n - 1] == a.product(p).product(p));
        reals(a, p, p);
        reals(a, square_sum(profile, n - 1), p.product(p));
    }
}

/// A port takes up what it sees, turned by the phasor of the moment.
pub proof fn ports_take_up_what_they_see<T: Scalar>(
    port: &PortMonitor<T>,
    g: &Grid2d<T>,
    phases: Seq<Cx<T>>,
    after: &PortMonitor<T>,
    f: int,
    a: T,
)
    requires
        exact_reals::<T>(),
        port.recorded(g, phases, after),
        0 <= f < port.accum@.len(),
        port.profiles@[f]@.len() == g.ny,
        square_sum(port.profiles@[f]@, g.ny as int) == T::of_count(1),
        forall|j: int|
            0 <= j < g.ny ==> #[trigger] g.ez_of(port.i as int, j) == a.product(
                port.profiles@[f]@[j],
            ),
    ensures
        after.accum@[f].difference(port.accum@[f]) == phases[f].scaled(a),
        after.samples == port.samples + 1,
{
    port_reads_back_the_amplitude(g, port.i as int, port.profiles@[f]@, a);
    let (z, p) = (port.accum@[f], phases[f]);
    lemma_added(z.re, a.product(p.re));
    lemma_added(z.im, a.product(p.im));
    reals(a, p.re, a);
    reals(a, p.im, a);
}

/// `(x + y) - x` is `y`.
proof fn lemma_added<T: Scalar>(x: T, y: T)
    requires
        exact_reals::<T>(),
    ensures
        x.sum(y).difference(x) == y,
{
    reals(x, y, x.negative());
    reals(y, x, x.negative());
    reals(x.sum(y), x, x);
    reals(x, x.negative(), x);
    reals(y, x, x);
}

/// A port sees the sum of two columns as the sum of what it sees of each.
pub proof fn port_adds_waves_up<T: Scalar>(
    g: &Grid2d<T>,
    h: &Grid2d<T>,
    both: &Grid2d<T>,
    i: int,
    profile: Seq<T>,
    n: int,
)
    requires
        exact_reals::<T>(),
        h.ny == g.ny,
        both.ny == g.ny,
        forall|j: int|
            0 <= j < g.ny ==> #[trigger] both.ez_of(i, j) == g.ez_of(i, j).sum(h.ez_of(i, j)),
    ensures
        PortMonitor::overlap(both, i, profile) == PortMonitor::overlap(g, i, profile).sum(
            PortMonitor::overlap(h, i, profile),
        ),
{
    let t = |x: &Grid2d<T>| Seq::new(x.ny as nat, |j: int| x.ez_of(i, j).product(profile[j]));
    let (a, b, c) = (t(g), t(h), t(both));
    assert forall|j: int| 0 <= j < c.len() implies #[trigger] c[j] == a[j].sum(b[j]) by {
        lemma_spread(g.ez_of(i, j), h.ez_of(i, j), profile[j]);
        assert(both.ez_of(i, j) == g.ez_of(i, j).sum(h.ez_of(i, j)));
    }
    lemma_running_sum(a, b, c);
}

proof fn lemma_running_sum<T: Scalar>(a: Seq<T>, b: Seq<T>, c: Seq<T>)
    requires
        exact_reals::<T>(),
        a.len() == c.len(),
        b.len() == c.len(),
        forall|j: int| 0 <= j < c.len() ==> #[trigger] c[j] == a[j].sum(b[j]),
    ensures
        running(c) == running(a).sum(running(b)),
    decreases c.len(),
{
    let zero = T::zero_value();
    reals(zero, zero, zero);
    if c.len() > 0 {
        let n = c.len() - 1;
        assert(c[n] == a[n].sum(b[n]));
        lemma_running_sum(a.drop_last(), b.drop_last(), c.drop_last());
        lemma_real_partners(running(a.drop_last()), running(b.drop_last()), a[n], b[n]);
    }
}

/// Amplitudes scale with the time step.
pub proof fn amplitudes_scale_with_the_step<T: Scalar>(p: PortMonitor<T>, dt: T, ds: T, f: int)
    requires
        exact_reals::<T>(),
    ensures
        amplitude(p, dt.sum(ds), f) == amplitude(p, dt, f).sum(amplitude(p, ds, f)),
        amplitude(p, T::of_count(1), f) == p.accum@[f],
{
    let z = p.accum@[f];
    reals(z.re, dt, ds);
    reals(z.im, dt, ds);
}

/// Fourier amplitudes scale with the time step, and over a step of one they are
/// the sums.
pub proof fn spectra_scale_with_the_step<T: Scalar>(accum: Seq<Cx<T>>, dt: T, ds: T, k: int)
    requires
        exact_reals::<T>(),
        0 <= k < accum.len(),
    ensures
        FourierSums::spectrum(accum, dt.sum(ds))[k] == FourierSums::spectrum(accum, dt)[k].sum(
            FourierSums::spectrum(accum, ds)[k],
        ),
        FourierSums::spectrum(accum, T::of_count(1))[k] == accum[k],
{
    let z = accum[k];
    reals(z.re, dt, ds);
    reals(z.im, dt, ds);
}

/// Fourier sums take their samples up linearly: two samples at one moment count
/// as their sum, one by its phasor, and a sample of nothing changes nothing.
pub proof fn fourier_sums_are_linear<T: Scalar>(
    accum: Seq<Cx<T>>,
    x: T,
    y: T,
    phases: Seq<Cx<T>>,
    k: int,
)
    requires
        exact_reals::<T>(),
        0 <= k < accum.len(),
    ensures
        FourierSums::grown(accum, x.sum(y), phases)[k] == FourierSums::grown(
            FourierSums::grown(accum, x, phases),
            y,
            phases,
        )[k],
        FourierSums::grown(accum, T::zero_value(), phases)[k] == accum[k],
        FourierSums::grown(accum, T::of_count(1), phases)[k].difference(accum[k]) == phases[k],
        FourierSums::grown(accum, x, phases).len() == accum.len(),
{
    let (a, p) = (accum[k], phases[k]);
    lemma_taken_up(a.re, x, y, p.re);
    lemma_taken_up(a.im, x, y, p.im);
}

proof fn lemma_taken_up<T: Scalar>(a: T, x: T, y: T, p: T)
    requires
        exact_reals::<T>(),
    ensures
        a.sum(x.sum(y).product(p)) == a.sum(x.product(p)).sum(y.product(p)),
        a.sum(T::zero_value().product(p)) == a,
        a.sum(T::of_count(1).product(p)).difference(a) == p,
{
    let one = T::of_count(1);
    lemma_spread(x, y, p);
    reals(a, x.product(p), y.product(p));
    lemma_opposites(p, a);
    reals(a, a, a);
    reals(p, one, one);
    reals(one, p, p);
    let n = a.negative();
    reals(a, p, n);
    reals(p, a, n);
    reals(a.sum(p), a, a);
    reals(a, n, n);
    reals(p, p, p);
}

/// What leaves a device is its parameter times what comes in: at port 1 that
/// and the incident wave make up what the port saw, at every other port it is
/// what the port saw.
pub proof fn parameters_give_the_waves_back<
    T: Scalar,
    V: Fn(Cx<T>) -> bool,
    D: Fn(Cx<T>, Cx<T>) -> Cx<T>,
>(
    reference: Seq<PortMonitor<T>>,
    device: Seq<PortMonitor<T>>,
    dt: T,
    n: int,
    vanished: V,
    divide: D,
    s: Seq<Vec<Cx<T>>>,
    k: int,
    f: int,
)
    requires
        exact_reals::<T>(),
        forall|a: Cx<T>, b: Cx<T>, q: Cx<T>| #[trigger]
            call_ensures(divide, (a, b), q) && call_ensures(vanished, (b,), false) ==> q.product(b)
                == a,
        is_column(reference, device, dt, n, vanished, divide, s),
        0 <= k < s.len(),
        0 <= f < n,
    ensures
        ({
            let a = amplitude(reference[0], dt, f);
            let out = s[k]@[f].product(a);
            if k == 0 {
                out.sum(a) == amplitude(device[0], dt, f)
            } else {
                out == amplitude(device[k], dt, f)
            }
        }),
{
    let a = amplitude(reference[0], dt, f);
    assert(call_ensures(vanished, (a,), false));
    if k == 0 {
        let b = amplitude(device[0], dt, f);
        lemma_about(a.re, b.re);
        lemma_about(a.im, b.im);
    }
}

/// `(b - a) + a` is `b`.
proof fn lemma_about<T: Scalar>(a: T, b: T)
    requires
        exact_reals::<T>(),
    ensures
        b.difference(a).sum(a) == b,
{
    let n = a.negative();
    reals(b, a, a);
    reals(b, n, a);
    reals(n, a, a);
    reals(a, n, a);
    reals(b, b, b);
}

/// A device perturbs its guide by its contrast over its columns and nowhere
/// else, whatever the row.
pub proof fn device_adds_its_contrast<T: Scalar>(
    eps_r: T,
    j0: usize,
    j1: usize,
    background: T,
    d: DeviceSection<T>,
    i: int,
    j: int,
)
    requires
        exact_reals::<T>(),
    ensures
        ({
            let with = EpsSpec::WaveguideX { eps_r, j0, j1, background, device: Some(d) };
            let change = with.eps_at(i, j).difference(with.bare().eps_at(i, j));
            &&& d.i0 <= i < d.i1 ==> change == d.delta
            &&& !(d.i0 <= i < d.i1) ==> change == T::zero_value()
            &&& with.bare().eps_at(i, j) == if j0 <= j < j1 {
                eps_r
            } else {
                background
            }
        }),
{
    let base = if j0 <= j < j1 {
        eps_r
    } else {
        background
    };
    let n = base.negative();
    reals(base, d.delta, n);
    reals(d.delta, base, n);
    reals(base.sum(d.delta), base, n);
    reals(base, base, n);
    reals(base, n, n);
    reals(d.delta, n, n);
}

/// A guide is centred on its rows: its centre lies as far behind its first row
/// as before its last, and its width is the number of its rows.
pub proof fn guide_is_centred<T: Scalar>(eps: EpsSpec<T>, j0: usize, j1: usize, g: (SlabWaveguide<T>, T))
    requires
        exact_counts::<T>(),
        exact_field::<T>(),
        T::of_count(2) != T::zero_value(),
        eps matches EpsSpec::WaveguideX { j0: a, j1: b, .. } && a == j0 && b == j1,
        eps.countable_rows(),
        eps.guide() == Some(g),
    ensures
        g.0.half_width.sum(g.0.half_width) == T::of_count((j1 - j0) as u64),
        ({
            let (first, last) = (T::of_count(j0 as u64), T::of_count((j1 - 1) as u64));
            g.1.sum(g.1) == first.sum(last)
        }),
{
    let (one, two) = (T::of_count(1), T::of_count(2));
    assert(counts_at::<T>(1, 1));
    lemma_double(T::of_count((j1 - j0) as u64));
    let total = T::of_count((j0 + j1) as u64);
    lemma_double(total);
    lemma_double(one);
    let (x, y) = (total.quotient(two), one.quotient(two));
    reals(x, y, y);
    lemma_real_partners(x, y.negative(), x, y.negative());
    lemma_opposites(y, y);
    assert(counts_at::<T>(j0 as u64, (j1 - 1) as u64));
    assert(counts_at::<T>((j0 + j1 - 1) as u64, 1));
    let k = T::of_count((j0 + j1 - 1) as u64);
    reals(k, one, one.negative());
    reals(one, one.negative(), one);
    reals(k, one, one);
}

/// Two halves make a whole.
proof fn lemma_double<T: Scalar>(a: T)
    requires
        exact_counts::<T>(),
        exact_field::<T>(),
        T::of_count(2) != T::zero_value(),
    ensures
        a.quotient(T::of_count(2)).sum(a.quotient(T::of_count(2))) == a,
{
    let (one, two) = (T::of_count(1), T::of_count(2));
    let h = a.quotient(two);
    assert(counts_at::<T>(1, 1));
    lemma_quotient(a, two);
    reals(h, one, one);
}

/// Boxes are half open: one that is cut along an axis holds what its parts hold,
/// and no sample lies in both.
pub proof fn boxes_split(b: CellBox, cut: usize, p: (int, int, int))
    ensures
        b.i0 <= cut <= b.i1 ==> {
            let (l, r) = (CellBox { i1: cut, ..b }, CellBox { i0: cut, ..b });
            (b.holds(p) <==> l.holds(p) || r.holds(p)) && !(l.holds(p) && r.holds(p))
        },
        b.j0 <= cut <= b.j1 ==> {
            let (l, r) = (CellBox { j1: cut, ..b }, CellBox { j0: cut, ..b });
            (b.holds(p) <==> l.holds(p) || r.holds(p)) && !(l.holds(p) && r.holds(p))
        },
        b.k0 <= cut <= b.k1 ==> {
            let (l, r) = (CellBox { k1: cut, ..b }, CellBox { k0: cut, ..b });
            (b.holds(p) <==> l.holds(p) || r.holds(p)) && !(l.holds(p) && r.holds(p))
        },
        b.i1 <= b.i0 || b.j1 <= b.j0 || b.k1 <= b.k0 ==> !b.holds(p),
        b.i0 < b.i1 && b.j0 < b.j1 && b.k0 < b.k1 ==> b.holds(
            (b.i0 as int, b.j0 as int, b.k0 as int),
        ),
{
}

/// A slab is half open: one that is cut fills what its parts fill, and has no
/// more columns than lie between its ends.
pub proof fn slabs_split<T: Scalar>(
    eps_r: T,
    background: T,
    i0: usize,
    cut: usize,
    i1: usize,
    i: int,
    j: int,
)
    requires
        i0 <= cut <= i1,
        eps_r != background,
    ensures
        ({
            let fills = |a: usize, b: usize|
                (EpsSpec::Slab { eps_r, i0: a, i1: b, background }).eps_at(i, j) == eps_r;
            &&& fills(i0, i1) <==> fills(i0, cut) || fills(cut, i1)
            &&& !(fills(i0, cut) && fills(cut, i1))
            &&& i0 < i1 && i == i0 ==> fills(i0, i1)
        }),
        ({
            let fills = |a: usize, b: usize|
                (EpsSpec::WaveguideX { eps_r, j0: a, j1: b, background, device: None }).eps_at(
                    i,
                    j,
                ) == eps_r;
            &&& fills(i0, i1) <==> fills(i0, cut) || fills(cut, i1)
            &&& !(fills(i0, cut) && fills(cut, i1))
            &&& i0 < i1 && j == i0 ==> fills(i0, i1)
        }),
{
}

/// As many modes are guided as brackets begin below V: the bracket of the last
/// one does, and that of the next does not.
pub proof fn modes_are_counted_by_their_brackets<
    T: Scalar,
    R: Fn(T) -> T,
    G: Fn(T) -> T,
    C: Fn(T) -> usize,
>(guide: &SlabWaveguide<T>, omega: T, solver: &ModeSolver<T, R, G>, ceil: C, n: usize) -> (v: T)
    requires
        exact_field::<T>(),
        monotone::<T>(),
        T::zero_value().less_than(solver.quarter_turn),
        guide.has_modes(omega, solver, ceil, n),
        forall|x: T, m: usize| #[trigger]
            call_ensures(ceil, (x,), m) ==> T::of_count(m as u64).at_least(x) && (m > 0
                ==> T::of_count((m - 1) as u64).less_than(x)),
    ensures
        solver.is_v_number(guide, omega, v),
        solver.low(n).at_least(v),
        n > 0 ==> solver.low((n - 1) as usize).less_than(v),
{
    let q = solver.quarter_turn;
    let z = T::zero_value();
    let v = choose|v: T|
        #[trigger] solver.is_v_number(guide, omega, v) && call_ensures(ceil, (v.quotient(q),), n);
    let x = v.quotient(q);
    follows(z, q, q);
    follows(q, z, q);
    lemma_quotient(v, q);
    let c = T::of_count(n as u64);
    follows(c, x, q);
    if n > 0 {
        let b = T::of_count((n - 1) as u64);
        let low = solver.low((n - 1) as usize);
        lemma_is_quotient(b, low, q);
        follows(low, v, q);
        follows(b, x, q);
    }
    v
}

} // verus!
