//! Lossless optics: segments, couplers, phase shifters, interferometers and
//! whole meshes are unitary, and rings conserve power.
//!
//! The laws are ones of exact arithmetic, over scalars whose complex numbers
//! are a commutative ring with a conjugation.

use crate::complex::Cx;
use crate::exact::{conjugation, exact, lemma_common_factor, lemma_partners, lemma_past, lifted};
use crate::exact::{lifts, ring, ring_at, upright};
use crate::matrix::Matrix;
use crate::photonic::clements::{assembles, columns_mapped, gram, on_modes, row_times_t};
use crate::photonic::clements::{MziSetting, Wave};
use crate::photonic::components::{add_drop, all_pass, couples, is_coupler, is_transfer, sandwiched};
use crate::photonic::network::CMat;
use crate::photonic::rebuild::{forth, lemma_cancels, lemma_columns_keep};
use crate::photonic::rebuild::{lemma_cross, lemma_forth, lemma_one_term, lemma_sent_orthonormal};
use crate::photonic::rebuild::{mix, orthonormal, orthonormal_weights, sent, Weights};
use crate::scalar::Scalar;
use vstd::prelude::*;

verus! {

/// A complex number of unit length.
pub open spec fn on_circle<T: Scalar>(z: Cx<T>) -> bool {
    z.mirrored().product(z) == Cx::<T>::unit()
}

/// Two real numbers whose squares add up to one.
pub open spec fn pythagorean<T: Scalar>(x: T, y: T) -> bool {
    lifted(x).product(lifted(x)).sum(lifted(y).product(lifted(y))) == Cx::<T>::unit()
}

/// A wave that loses nothing.
pub open spec fn sound<T: Scalar>(w: Wave<T>) -> bool {
    on_circle(w.phasor) && pythagorean(w.cos, w.sin)
}

proof fn lemma_unit_mirrored<T: Scalar>()
    requires
        exact::<T>(),
    ensures
        Cx::<T>::unit().mirrored() == Cx::<T>::unit(),
{
    let one = Cx::<T>::unit();
    conjugation(one, one, T::of_count(1));
    assert(lifted(T::of_count(1)) == one);
}

/// Weights with rows and columns swapped are as orthonormal as before.
proof fn lemma_turned_weights<T: Scalar>(p: Weights<T>)
    requires
        exact::<T>(),
        orthonormal_weights(p),
    ensures
        orthonormal_weights(((p.0.0, p.1.0), (p.0.1, p.1.1))),
{
    let q = (
        (p.0.0.mirrored(), p.0.1.mirrored()),
        (p.1.0.mirrored(), p.1.1.mirrored()),
    );
    ring(q.0.0, p.0.0, p.0.0);
    ring(q.0.0, p.0.1, p.0.0);
    ring(q.0.1, p.0.0, p.0.0);
    ring(q.0.1, p.0.1, p.0.0);
    ring(q.1.0, p.1.0, p.0.0);
    ring(q.1.0, p.1.1, p.0.0);
    ring(q.1.1, p.1.0, p.0.0);
    ring(q.1.1, p.1.1, p.0.0);
    ring(q.0.0, p.1.0, p.0.0);
    ring(q.0.1, p.1.1, p.0.0);
    ring(q.1.0, p.0.0, p.0.0);
    ring(q.1.1, p.0.1, p.0.0);
}

/// The identity has orthonormal columns.
proof fn lemma_identity<T: Scalar>(n: int, a: &Matrix<Cx<T>>)
    requires
        exact::<T>(),
        a.is_identity(n),
        n >= 0,
    ensures
        orthonormal(n, a),
{
    let (one, zero) = (Cx::<T>::unit(), Cx::<T>::nought());
    lemma_unit_mirrored::<T>();
    assert forall|p: int, q: int| 0 <= p < n && 0 <= q < n implies #[trigger] gram(a, p, q, n) == (
    if p == q {
        one
    } else {
        zero
    }) by {
        lemma_one_term(n, a, p, q, n);
        assert(a.at(p, p) == one);
        assert(a.at(p, q) == (if p == q {
            one
        } else {
            zero
        }));
        ring(one, one, one);
        ring(one, zero, one);
    }
}

/// Phases of unit length on the rows leave inner products of columns alone.
proof fn lemma_screened<T: Scalar>(
    n: int,
    a: &Matrix<Cx<T>>,
    b: &Matrix<Cx<T>>,
    d: Seq<Cx<T>>,
    p: int,
    q: int,
    k: int,
)
    requires
        exact::<T>(),
        0 <= p < n,
        0 <= q < n,
        0 <= k <= n,
        forall|j: int| 0 <= j < n ==> on_circle(#[trigger] d[j]),
        forall|j: int, c: int|
            0 <= j < n && 0 <= c < n ==> #[trigger] b.at(j, c) == d[j].product(a.at(j, c)),
    ensures
        gram(b, p, q, k) == gram(a, p, q, k),
    decreases k,
{
    if k > 0 {
        lemma_screened(n, a, b, d, p, q, k - 1);
        let r = k - 1;
        let z = d[r];
        assert(on_circle(z));
        assert(b.at(r, p) == z.product(a.at(r, p)) && b.at(r, q) == z.product(a.at(r, q)));
        conjugation(z, a.at(r, p), z.re);
        lemma_cross(z.mirrored(), z, a.at(r, p).mirrored(), a.at(r, q));
    }
}

/// The matrices that a product of lossless blocks leads through are unitary.
proof fn lemma_blocks_keep<T: Scalar>(
    n: int,
    s: Seq<Matrix<Cx<T>>>,
    mzis: Seq<MziSetting<T>>,
    waves: Seq<Wave<T>>,
    k: int,
)
    requires
        exact::<T>(),
        n >= 0,
        assembles(s, n, mzis, waves),
        on_modes(mzis, n),
        forall|i: int| 0 <= i < mzis.len() ==> sound(#[trigger] waves[i]),
        0 <= k <= mzis.len(),
    ensures
        s[k].shaped(n, n),
        orthonormal(n, &s[k]),
    decreases k,
{
    if k == 0 {
        lemma_identity(n, &s[0]);
    } else {
        lemma_blocks_keep(n, s, mzis, waves, k - 1);
        let x = mzis[k - 1];
        let w = waves[k - 1];
        let m = x.mode as int;
        assert(sound(w));
        assert(x.mode + 1 < n);
        let (a, b) = (s[k - 1], s[k - 1 + 1]);
        assert(columns_mapped(
            &a,
            &b,
            m,
            |p: Cx<T>, q: Cx<T>|
                row_times_t(p, q, waves[k - 1].sin, waves[k - 1].cos, waves[k - 1].phasor),
        ));
        let f = forth(w);
        assert forall|r: int, c: int| 0 <= r < n && 0 <= c < n implies #[trigger] b.at(r, c) == (
        if c == m {
            mix(f.0, a.at(r, m), a.at(r, m + 1))
        } else if c == m + 1 {
            mix(f.1, a.at(r, m), a.at(r, m + 1))
        } else {
            a.at(r, c)
        }) by {
            lemma_forth(a.at(r, m), a.at(r, m + 1), w);
        }
        lemma_sent_orthonormal(w);
        lemma_turned_weights(sent(w));
        let (si, c, e) = (lifted(w.sin), lifted(w.cos), w.phasor);
        ring(e, c, e);
        ring(e, si, e);
        assert(f == ((sent(w).0.0, sent(w).1.0), (sent(w).0.1, sent(w).1.1)));
        lemma_columns_keep(n, &a, &b, m, f);
    }
}

/// A mesh is lossless: in exact arithmetic, with waves and output phasors of
/// unit length, the matrix that the mesh stands for has orthonormal columns.
pub proof fn mesh_is_unitary<T: Scalar>(
    n: int,
    mzis: Seq<MziSetting<T>>,
    waves: Seq<Wave<T>>,
    screen: Seq<Cx<T>>,
    s: Seq<Matrix<Cx<T>>>,
    made: &Matrix<Cx<T>>,
)
    requires
        exact::<T>(),
        n >= 0,
        on_modes(mzis, n),
        assembles(s, n, mzis, waves),
        forall|i: int| 0 <= i < mzis.len() ==> sound(#[trigger] waves[i]),
        forall|j: int| 0 <= j < n ==> on_circle(#[trigger] screen[j]),
        forall|j: int, c: int|
            0 <= j < n && 0 <= c < n ==> #[trigger] made.at(j, c) == screen[j].product(
                s[mzis.len() as int].at(j, c),
            ),
    ensures
        orthonormal(n, made),
{
    let last = s[mzis.len() as int];
    lemma_blocks_keep(n, s, mzis, waves, mzis.len() as int);
    assert forall|p: int, q: int| 0 <= p < n && 0 <= q < n implies #[trigger] gram(made, p, q, n)
        == (if p == q {
        Cx::<T>::unit()
    } else {
        Cx::nought()
    }) by {
        lemma_screened(n, &last, made, screen, p, q, n);
        assert(gram(&last, p, q, n) == gram(&last, p, q, n));
    }
}

proof fn lemma_negated_twice<T: Scalar>(y: Cx<T>)
    requires
        exact::<T>(),
    ensures
        y.negated().negated() == y,
{
    let (n, zero) = (y.negated(), Cx::<T>::nought());
    let m = n.negated();
    ring(y, n, m);
    ring(n, m, y);
    ring(zero, m, y);
    ring(m, zero, y);
}

/// `(p - q).(r - s)`, term by term.
proof fn lemma_expanded<T: Scalar>(p: Cx<T>, q: Cx<T>, r: Cx<T>, s: Cx<T>)
    requires
        exact::<T>(),
    ensures
        p.difference(q).product(r.difference(s)) == p.product(r).sum(p.product(s).negated()).sum(
            q.product(r).negated().sum(q.product(s)),
        ),
{
    let (m, n) = (q.negated(), s.negated());
    let d = p.sum(m);
    ring(p, q, p);
    ring(r, s, p);
    ring(d, r, n);
    ring(r, d, p);
    ring(r, p, m);
    ring(d, n, p);
    ring(n, p, m);
    ring(p, r, p);
    ring(q, r, p);
    ring(m, r, p);
    ring(s, p, p);
    ring(p, s, p);
    ring(s, m, p);
    ring(m, s, p);
    ring(q, s, p);
    lemma_negated_twice(q.product(s));
    assert(d.product(r) == p.product(r).sum(q.product(r).negated()));
    assert(d.product(n) == p.product(s).negated().sum(q.product(s)));
    lemma_partners(
        p.product(r),
        q.product(r).negated(),
        p.product(s).negated(),
        q.product(s),
    );
}

/// A ring without loss passes everything: where the round trip keeps its
/// length, numerator and denominator of the through-port transfer have the
/// same length.
pub proof fn lossless_ring_passes_all<T: Scalar>(t: T, rt: Cx<T>)
    requires
        exact::<T>(),
        on_circle(rt),
    ensures
        all_pass(t, rt).0.mirrored().product(all_pass(t, rt).0) == all_pass(
            t,
            rt,
        ).1.mirrored().product(all_pass(t, rt).1),
{
    let (one, a, f) = (Cx::<T>::unit(), lifted(t), rt.mirrored());
    assert(ring_at(rt, rt, rt, t));
    let (u, v) = (f.product(a), rt.product(a));
    lemma_unit_mirrored::<T>();
    conjugation(a, rt.negated(), t);
    conjugation(rt, a, t);
    conjugation(v, a, t);
    conjugation(one, v.negated(), t);
    ring(a, rt, a);
    ring(a, f, a);
    ring(one, v, a);
    ring(one, u, a);
    assert(a.difference(rt).mirrored() == a.difference(f));
    assert(one.difference(v).mirrored() == one.difference(u));
    lemma_expanded(a, f, a, rt);
    lemma_expanded(one, u, one, v);
    lemma_cross(f, rt, a, a);
    ring(one, one, a);
    ring(v, one, a);
    ring(u, one, a);
    let (b, c, d) = (v.negated(), u.negated(), a.product(a));
    ring(c, one, b);
    ring(d, b, b);
    ring(d.sum(b), c.sum(one), b);
    lemma_partners(one, c, b, d);
}

/// Where `a + x` and `b + y` are one, `a + b + x.y` is `1 + a.b`.
proof fn lemma_shares<T: Scalar>(a: Cx<T>, x: Cx<T>, b: Cx<T>, y: Cx<T>)
    requires
        exact::<T>(),
        a.sum(x) == Cx::<T>::unit(),
        b.sum(y) == Cx::<T>::unit(),
    ensures
        a.sum(b).sum(x.product(y)) == Cx::<T>::unit().sum(a.product(b)),
{
    let one = Cx::<T>::unit();
    let (ab, xb, xy) = (a.product(b), x.product(b), x.product(y));
    // b = a.b + x.b and x = x.b + x.y
    lemma_common_factor(a, x, b);
    ring(one, b, a);
    ring(b, one, a);
    ring(x, b, y);
    ring(x, one, a);
    assert(b == ab.sum(xb) && x == xb.sum(xy));
    ring(a, b, xy);
    ring(ab, xb, xy);
    ring(ab, x, a);
    ring(x, ab, a);
    ring(a, x, ab);
}

/// A ring between two buses conserves power: where half the ring keeps the
/// length of what goes round and the couplers are lossless, through and drop
/// transfer together have the length of the denominator.
pub proof fn lossless_ring_conserves_power<T: Scalar>(
    t1: T,
    t2: T,
    k1: T,
    k2: T,
    rt: Cx<T>,
    half: Cx<T>,
)
    requires
        exact::<T>(),
        on_circle(rt),
        on_circle(half),
        pythagorean(t1, k1),
        pythagorean(t2, k2),
    ensures
        ({
            let (through, drop, whole) = add_drop(t1, t2, k1, k2, rt, half);
            through.mirrored().product(through).sum(drop.mirrored().product(drop))
                == whole.mirrored().product(whole)
        }),
{
    let one = Cx::<T>::unit();
    let (a, b, f) = (lifted(t1), lifted(t2), rt.mirrored());
    let (k, l) = (lifted(k1), lifted(k2));
    let ab = a.product(b);
    assert(lifts(t1, t2) && lifts(k1, k2));
    assert(ring_at(rt, rt, rt, t2));
    assert(ring_at(rt, rt, rt, t1.product(t2)));
    lemma_unit_mirrored::<T>();
    // through
    let (fb, zb) = (f.product(b), rt.product(b));
    let (fab, zab) = (f.product(ab), rt.product(ab));
    conjugation(rt, b, t2);
    conjugation(zb, a, t1);
    conjugation(a, zb.negated(), t1);
    ring(a, zb, a);
    ring(a, fb, a);
    assert(a.difference(zb).mirrored() == a.difference(fb));
    lemma_expanded(a, fb, a, zb);
    lemma_cross(f, rt, b, b);
    lemma_past(a, rt, b);
    lemma_past(a, f, b);
    ring(fb, a, a);
    // whole
    conjugation(rt, ab, t1.product(t2));
    conjugation(zab, a, t1);
    conjugation(one, zab.negated(), t1);
    ring(one, zab, a);
    ring(one, fab, a);
    assert(one.difference(zab).mirrored() == one.difference(fab));
    lemma_expanded(one, fab, one, zab);
    lemma_cross(f, rt, ab, ab);
    ring(one, one, a);
    ring(zab, one, a);
    ring(fab, one, a);
    let (aa, bb) = (a.product(a), b.product(b));
    lemma_squares(a, b);
    // drop
    let (h, n, kl) = (half.mirrored(), half.negated(), k.product(l));
    assert(ring_at(n, n, n, k1.product(k2)));
    conjugation(half, half, k1);
    conjugation(n, kl, k1.product(k2));
    ring(h, half, a);
    ring(half, h, a);
    ring(half, n, a);
    ring(h, n, a);
    ring(n, h, a);
    ring(half, h.negated(), a);
    lemma_negated_twice(half.product(h));
    assert(n.mirrored().product(n) == one);
    lemma_cross(n.mirrored(), n, kl, kl);
    lemma_squares(k, l);
    let w = k.product(k).product(l.product(l));
    lemma_shares(aa, k.product(k), bb, l.product(l));
    // (aa + p) + (q + bb) + w = (p + q) + ((aa + bb) + w)
    let (p, q) = (zab.negated(), fab.negated());
    ring(q, bb, w);
    lemma_partners(aa, p, bb, q);
    ring(aa.sum(bb), p.sum(q), w);
    ring(p.sum(q), aa.sum(bb), w);
    let all = aa.product(bb);
    ring(q, all, w);
    lemma_partners(one, p, all, q);
    ring(one.sum(all), p.sum(q), w);
}

proof fn lemma_squares<T: Scalar>(a: Cx<T>, b: Cx<T>)
    requires
        exact::<T>(),
    ensures
        a.product(b).product(a.product(b)) == a.product(a).product(b.product(b)),
{
    ring(a, b, a.product(b));
    lemma_past(b, a, b);
    ring(a, a, b.product(b));
}

/// The columns of a transfer, as weights.
pub open spec fn columns_of<T: Scalar>(m: &CMat<T>) -> Weights<T> {
    ((m.at(0, 0), m.at(1, 0)), (m.at(0, 1), m.at(1, 1)))
}

/// A transfer with orthonormal rows and columns.
pub open spec fn lossless<T: Scalar>(m: &CMat<T>) -> bool {
    orthonormal_weights(columns_of(m))
}

proof fn lemma_entries<T: Scalar>(m: &CMat<T>, a: Cx<T>, b: Cx<T>, c: Cx<T>, d: Cx<T>)
    requires
        is_transfer(m, a, b, c, d),
    ensures
        m.shaped(2, 2),
        m.at(0, 0) == a,
        m.at(0, 1) == b,
        m.at(1, 0) == c,
        m.at(1, 1) == d,
{
    assert(m.data@ == seq![a, b, c, d]);
}

/// A lossless transfer is unitary.
proof fn lemma_lossless<T: Scalar>(m: &CMat<T>)
    requires
        exact::<T>(),
        lossless(m),
    ensures
        orthonormal(2, m),
{
    assert forall|p: int, q: int| 0 <= p < 2 && 0 <= q < 2 implies #[trigger] gram(m, p, q, 2) == (
    if p == q {
        Cx::<T>::unit()
    } else {
        Cx::nought()
    }) by {
        reveal_with_fuel(gram, 3);
        let t = m.at(0, p).mirrored().product(m.at(0, q));
        ring(Cx::nought(), t, t);
        ring(t, t, t);
    }
}

/// A phase shifter is lossless.
pub proof fn phase_shifter_is_unitary<T: Scalar>(m: &CMat<T>, phasor: Cx<T>)
    requires
        exact::<T>(),
        on_circle(phasor),
        is_transfer(m, phasor, Cx::<T>::nought(), Cx::<T>::nought(), Cx::<T>::unit()),
    ensures
        lossless(m),
        orthonormal(2, m),
{
    let (one, zero) = (Cx::<T>::unit(), Cx::<T>::nought());
    let f = phasor.mirrored();
    lemma_entries(m, phasor, zero, zero, one);
    lemma_unit_mirrored::<T>();
    conjugation(zero, zero, T::zero_value());
    ring(phasor, f, one);
    ring(zero, phasor, one);
    ring(phasor, zero, one);
    ring(zero, f, one);
    ring(f, zero, one);
    ring(one, one, one);
    ring(one, zero, one);
    ring(zero, one, one);
    ring(zero, zero, one);
    lemma_lossless(m);
}

/// A straight segment without loss is lossless.
pub proof fn segment_is_unitary<T: Scalar>(m: &CMat<T>, t: Cx<T>)
    requires
        exact::<T>(),
        on_circle(t),
        is_transfer(m, Cx::<T>::nought(), t, t, Cx::<T>::nought()),
    ensures
        lossless(m),
        orthonormal(2, m),
{
    let (one, zero) = (Cx::<T>::unit(), Cx::<T>::nought());
    let f = t.mirrored();
    lemma_entries(m, zero, t, t, zero);
    conjugation(zero, zero, T::zero_value());
    ring(t, f, one);
    ring(zero, t, one);
    ring(t, zero, one);
    ring(zero, f, one);
    ring(f, zero, one);
    ring(one, zero, one);
    ring(zero, one, one);
    ring(zero, zero, one);
    lemma_lossless(m);
}

/// A coupler whose amplitudes, squared, add up to one is lossless.
proof fn lemma_coupler<T: Scalar>(m: &CMat<T>, t: T, r: T)
    requires
        exact::<T>(),
        is_coupler(m, t, r),
        pythagorean(t, r),
    ensures
        lossless(m),
        orthonormal(2, m),
{
    let (a, b) = (lifted(t), upright(r));
    lemma_entries(m, a, b, b, a);
    conjugation(a, b, t);
    conjugation(a, b, r);
    let c = b.negated();
    let (x, y) = (lifted(t).product(lifted(t)), lifted(r).product(lifted(r)));
    ring(a, a, a);
    ring(b, b, a);
    ring(b, c, a);
    ring(c, b, a);
    ring(a, b, a);
    ring(b, a, a);
    ring(a, c, a);
    ring(c, a, a);
    // (-b).b = -(b.b) = --y = y
    lemma_negated_twice(y);
    assert(c.product(b) == y);
    ring(x, y, y);
    ring(y, x, y);
    let z = a.product(b);
    lemma_cancels(z, z);
    ring(z, z.negated(), z);
    let (p, q) = (((a, b), (b, a)), ((a, c), (c, a)));
    assert(columns_of(m) == p);
    assert(mix(q.0, a, b) == Cx::<T>::unit() && mix(q.1, b, a) == Cx::<T>::unit());
    assert(c.product(a) == z.negated() && a.product(c) == z.negated());
    lemma_lossless(m);
}

/// A directional coupler is lossless, where roots are exact.
pub proof fn coupler_is_unitary<T: Scalar, R: Fn(T) -> T>(m: &CMat<T>, k: T, root: R)
    requires
        exact::<T>(),
        couples(m, k, root),
        forall|x: T, y: T| #[trigger]
            call_ensures(root, (x,), y) ==> lifted(y).product(lifted(y)) == lifted(x),
    ensures
        lossless(m),
        orthonormal(2, m),
{
    let (t, r) = choose|t: T, r: T|
        #![trigger is_coupler(m, t, r)]
        call_ensures(root, (T::of_count(1).difference(k),), t) && call_ensures(root, (k,), r)
            && is_coupler(m, t, r);
    // (1 - k) + k = 1
    let (one, x) = (Cx::<T>::unit(), lifted(k));
    assert(lifts(T::of_count(1), k));
    ring(one, x, x);
    ring(one, x.negated(), x);
    ring(x.negated(), x, x);
    ring(x, x, x);
    lemma_coupler(m, t, r);
}

/// A unitary transfer times a lossless one is unitary.
proof fn lemma_product_keeps<T: Scalar>(a: &CMat<T>, b: &CMat<T>, m: &CMat<T>)
    requires
        exact::<T>(),
        a.shaped(2, 2),
        b.shaped(2, 2),
        m.is_product(a, b),
        orthonormal(2, a),
        lossless(b),
    ensures
        orthonormal(2, m),
{
    let w = columns_of(b);
    assert forall|r: int, k: int| 0 <= r < 2 && 0 <= k < 2 implies #[trigger] m.at(r, k) == (if k
        == 0 {
        mix(w.0, a.at(r, 0), a.at(r, 1))
    } else {
        mix(w.1, a.at(r, 0), a.at(r, 1))
    }) by {
        reveal_with_fuel(Matrix::dot, 3);
        assert(m.at(r, k) == CMat::<T>::dot(a, b, r, k, 2));
        let (x, y) = (a.at(r, 0).product(b.at(0, k)), a.at(r, 1).product(b.at(1, k)));
        assert(m.at(r, k) == Cx::<T>::nought().sum(x).sum(y));
        ring(Cx::nought(), x, y);
        ring(x, y, y);
        ring(a.at(r, 0), b.at(0, k), x);
        ring(a.at(r, 1), b.at(1, k), x);
    }
    lemma_columns_keep(2, a, m, 0, w);
}

/// An interferometer of lossless couplers and phase shifters is unitary.
pub proof fn interferometer_is_unitary<T: Scalar>(
    c: &CMat<T>,
    theta: Cx<T>,
    phi: Cx<T>,
    p: &CMat<T>,
    q: &CMat<T>,
    m: &CMat<T>,
)
    requires
        exact::<T>(),
        c.shaped(2, 2),
        lossless(c),
        on_circle(theta),
        on_circle(phi),
        is_transfer(p, theta, Cx::<T>::nought(), Cx::<T>::nought(), Cx::<T>::unit()),
        is_transfer(q, phi, Cx::<T>::nought(), Cx::<T>::nought(), Cx::<T>::unit()),
        sandwiched(c, p, q, m),
    ensures
        orthonormal(2, m),
{
    let (cp, cpc) = choose|cp: CMat<T>, cpc: CMat<T>|
        #![trigger cp.is_product(c, p), cpc.is_product(&cp, c)]
        cp.is_product(c, p) && cpc.is_product(&cp, c) && m.is_product(&cpc, q);
    phase_shifter_is_unitary(p, theta);
    phase_shifter_is_unitary(q, phi);
    lemma_entries(p, theta, Cx::nought(), Cx::nought(), Cx::unit());
    lemma_entries(q, phi, Cx::nought(), Cx::nought(), Cx::unit());
    lemma_lossless(c);
    lemma_product_keeps(c, p, &cp);
    lemma_product_keeps(&cp, c, &cpc);
    lemma_product_keeps(&cpc, q, m);
}

} // verus!
