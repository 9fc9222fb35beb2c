//! What a dispersive medium obeys: the Drude current and the Lorentz
//! polarization follow their equations of motion, centred in time, and E gives
//! up what they take.
//!
//! ```text
//!   (J' - J)/dt + gamma.(J' + J)/2 = omega_p^2.E
//!   (P' - 2P + P_prev)/dt^2 + gamma.(P' - P_prev)/(2dt) + omega0^2.P = omega_p^2.E
//! ```
//!
//! The laws are ones of exact arithmetic.

use crate::exact::{exact_field, exact_reals, lemma_cancel, lemma_opposites, lemma_quotient};
use crate::exact::{lemma_quotients, lemma_spread, reals};
use crate::field::eps::CellBox;
use crate::field::lattice::{at_place, volume};
use crate::field::medium3::{drude_list, drude_of, lorentz_list, lorentz_of, places, CompDisp};
use crate::field::medium3::{MaterialModel, MaterialRegion};
use crate::scalar::Scalar;
use vstd::prelude::*;

verus! {

/// One step of a Drude current from `j` to `next` under `e`, with every term on
/// the side where it is positive: `J' + x.(J' + J) = J + omega_p^2.dt.E` for x
/// half of gamma.dt.
pub open spec fn drude_moves<T: Scalar>(m: MaterialModel<T>, dt: T, j: T, e: T, next: T) -> bool {
    m matches MaterialModel::Drude { omega_p, gamma, eps_inf } ==> forall|x: T| #[trigger]
        T::of_count(2).product(x) == gamma.product(dt) ==> next.sum(x.product(next.sum(j)))
            == j.sum(omega_p.product(omega_p).product(dt).product(e))
}

/// One step of a Lorentz polarization from `prev` and `p` to `next` under `e`:
/// `(r + g).P' + (r - g).P_prev + omega0^2.P = 2r.P + omega_p^2.E` for r the
/// inverse of dt^2 and g gamma over 2dt.
pub open spec fn lorentz_moves<T: Scalar>(
    m: MaterialModel<T>,
    dt: T,
    prev: T,
    p: T,
    e: T,
    next: T,
) -> bool {
    m matches MaterialModel::Lorentz { omega_p, omega0, gamma, eps_inf } ==> forall|r: T, g: T|
        #![trigger r.product(dt.product(dt)), g.product(T::of_count(2).product(dt))]
        r.product(dt.product(dt)) == T::of_count(1) && g.product(T::of_count(2).product(dt))
            == gamma ==> r.sum(g).product(next).sum(r.difference(g).product(prev)).sum(
            omega0.product(omega0).product(p),
        ) == T::of_count(2).product(r).product(p).sum(omega_p.product(omega_p).product(e))
}

/// The divisors of a material's coefficients are not zero.
pub open spec fn solvable<T: Scalar>(m: MaterialModel<T>, dt: T) -> bool {
    let two = T::of_count(2);
    &&& two != T::zero_value()
    &&& dt != T::zero_value()
    &&& two.product(dt) != T::zero_value()
    &&& dt.product(dt) != T::zero_value()
    &&& m.high_frequency() != T::zero_value()
    &&& match m {
        MaterialModel::Drude { omega_p, gamma, eps_inf } => {
            T::of_count(1).sum(gamma.product(dt).quotient(two)) != T::zero_value()
        },
        MaterialModel::Lorentz { omega_p, omega0, gamma, eps_inf } => {
            T::of_count(1).quotient(dt.product(dt)).sum(gamma.quotient(two.product(dt)))
                != T::zero_value()
        },
    }
}

/// Places of a box are exactly the places of the lattice that it holds.
proof fn lemma_places_hold(d: (int, int, int), cells: CellBox, n: int)
    ensures
        forall|k: int|
            0 <= k < places(d, cells, n).len() ==> {
                &&& 0 <= #[trigger] places(d, cells, n)[k] < n
                &&& cells.holds(at_place(d, places(d, cells, n)[k]))
            },
        forall|q: int|
            0 <= q < n && #[trigger] cells.holds(at_place(d, q)) ==> places(d, cells, n).contains(
                q,
            ),
    decreases n,
{
    if n > 0 {
        lemma_places_hold(d, cells, n - 1);
        let before = places(d, cells, n - 1);
        let now = places(d, cells, n);
        assert forall|k: int| 0 <= k < now.len() implies {
            &&& 0 <= #[trigger] now[k] < n
            &&& cells.holds(at_place(d, now[k]))
        } by {
            if k < before.len() {
                assert(now[k] == before[k]);
            }
        }
        assert forall|q: int| 0 <= q < n && #[trigger] cells.holds(
            at_place(d, q),
        ) implies now.contains(q) by {
            if q < n - 1 {
                assert(before.contains(q));
                let k = choose|k: int| 0 <= k < before.len() && before[k] == q;
                assert(now[k] == q);
            } else {
                assert(now[before.len() as int] == q);
            }
        }
    }
}

/// `(1 + x).J' = (1 - x).J + f` is `J' + x.(J' + J) = J + f`.
proof fn lemma_centred<T: Scalar>(x: T, j: T, next: T, f: T)
    requires
        exact_reals::<T>(),
        T::of_count(1).sum(x).product(next) == T::of_count(1).difference(x).product(j).sum(f),
    ensures
        next.sum(x.product(next.sum(j))) == j.sum(f),
{
    let one = T::of_count(1);
    let (a, b) = (x.product(next), x.product(j));
    lemma_spread(one, x, next);
    lemma_spread(one, x, j);
    reals(one, next, x);
    reals(next, one, x);
    reals(one, j, x);
    reals(j, one, x);
    reals(x, next, j);
    // next + a = (j - b) + f
    reals(next, a, b);
    reals(j.sum(b.negative()), f, b);
    reals(f, b, j);
    reals(j.sum(b.negative()), b, f);
    reals(j, b.negative(), b);
    reals(b.negative(), b, j);
    reals(b, b.negative(), j);
    reals(j, j, j);
}

proof fn lemma_drude_step<T: Scalar>(
    c: &CompDisp<T>,
    d: (int, int, int),
    r: MaterialRegion<T>,
    dt: T,
    e: Seq<T>,
    after: &CompDisp<T>,
    at: int,
    k: int,
)
    requires
        exact_field::<T>(),
        c.wf(e.len() as int),
        c.saw(e, after),
        0 <= k < c.drude@.len(),
        solvable(r.model, dt),
        r.model is Drude,
        0 <= at < drude_of(d, r, dt, volume(d)).len(),
        c.drude@[k] == drude_of(d, r, dt, volume(d))[at],
    ensures
        drude_moves(r.model, dt, c.j@[k], e[c.drude@[k].idx as int], after.j@[k]),
        r.model.high_frequency().product(c.drude@[k].cj) == dt,
{
    let cell = c.drude@[k];
    let (one, two) = (T::of_count(1), T::of_count(2));
    match r.model {
        MaterialModel::Drude { omega_p, gamma, eps_inf } => {
            let x = gamma.product(dt).quotient(two);
            let den = one.sum(x);
            let (j, v, next) = (c.j@[k], e[cell.idx as int], after.j@[k]);
            assert(next == c.j_next(e, k));
            let w = omega_p.product(omega_p).product(dt);
            lemma_quotient(one.difference(x), den);
            lemma_quotient(w, den);
            lemma_quotient(gamma.product(dt), two);
            // den.(ka.j + kb.v)
            reals(den, cell.ka.product(j), cell.kb.product(v));
            reals(den, cell.ka, j);
            reals(den, cell.kb, v);
            lemma_centred(x, j, next, w.product(v));
            assert forall|y: T| #[trigger] two.product(y) == gamma.product(dt) implies next.sum(
                y.product(next.sum(j)),
            ) == j.sum(w.product(v)) by {
                lemma_cancel(x, y, two);
            }
            lemma_quotient(dt, eps_inf);
        },
        _ => {},
    }
}

/// Every Drude cell of a medium lies in a region of its material and follows
/// that material's equation of motion.
pub proof fn drude_current_obeys_its_equation<T: Scalar>(
    c: &CompDisp<T>,
    d: (int, int, int),
    regions: Seq<MaterialRegion<T>>,
    dt: T,
    e: Seq<T>,
    after: &CompDisp<T>,
    k: int,
) -> (i: int)
    requires
        exact_field::<T>(),
        c.drude@ == drude_list(d, regions, dt),
        volume(d) <= usize::MAX,
        forall|m: int| 0 <= m < regions.len() ==> solvable((#[trigger] regions[m]).model, dt),
        c.wf(e.len() as int),
        c.saw(e, after),
        0 <= k < c.drude@.len(),
    ensures
        0 <= i < regions.len(),
        regions[i].model is Drude,
        regions[i].cells.holds(at_place(d, c.drude@[k].idx as int)),
        drude_moves(regions[i].model, dt, c.j@[k], e[c.drude@[k].idx as int], after.j@[k]),
        regions[i].model.high_frequency().product(c.drude@[k].cj) == dt,
{
    assert(regions.take(regions.len() as int) =~= regions);
    lemma_drude_found(c, d, regions, dt, e, after, k, regions.len() as int)
}

proof fn lemma_drude_found<T: Scalar>(
    c: &CompDisp<T>,
    d: (int, int, int),
    regions: Seq<MaterialRegion<T>>,
    dt: T,
    e: Seq<T>,
    after: &CompDisp<T>,
    k: int,
    n: int,
) -> (i: int)
    requires
        exact_field::<T>(),
        0 <= n <= regions.len(),
        volume(d) <= usize::MAX,
        forall|m: int| 0 <= m < regions.len() ==> solvable((#[trigger] regions[m]).model, dt),
        c.wf(e.len() as int),
        c.saw(e, after),
        0 <= k < c.drude@.len(),
        k < drude_list(d, regions.take(n), dt).len(),
        c.drude@[k] == drude_list(d, regions.take(n), dt)[k],
    ensures
        0 <= i < regions.len(),
        regions[i].model is Drude,
        regions[i].cells.holds(at_place(d, c.drude@[k].idx as int)),
        drude_moves(regions[i].model, dt, c.j@[k], e[c.drude@[k].idx as int], after.j@[k]),
        regions[i].model.high_frequency().product(c.drude@[k].cj) == dt,
    decreases n,
{
    assert(n > 0);
    let part = regions.take(n);
    assert(part.drop_last() =~= regions.take(n - 1));
    assert(part.last() == regions[n - 1]);
    let before = drude_list(d, part.drop_last(), dt);
    if k < before.len() {
        assert(drude_list(d, part, dt)[k] == before[k]);
        lemma_drude_found(c, d, regions, dt, e, after, k, n - 1)
    } else {
        let r = regions[n - 1];
        assert(solvable(regions[n - 1].model, dt));
        let ps = places(d, r.cells, volume(d));
        lemma_places_hold(d, r.cells, volume(d));
        let at = k - before.len();
        assert(0 <= ps[at] < volume(d));
        lemma_drude_step(c, d, r, dt, e, after, at, k);
        n - 1
    }
}

/// A material fills its box: every place of a Drude region has a Drude cell,
/// and every place of a Lorentz region a Lorentz cell.
pub proof fn material_fills_its_box<T: Scalar>(
    d: (int, int, int),
    regions: Seq<MaterialRegion<T>>,
    dt: T,
    i: int,
    q: int,
) -> (k: int)
    requires
        0 <= i < regions.len(),
        volume(d) <= usize::MAX,
        0 <= q < volume(d),
        regions[i].cells.holds(at_place(d, q)),
    ensures
        regions[i].model is Drude ==> 0 <= k < drude_list(d, regions, dt).len() && drude_list(
            d,
            regions,
            dt,
        )[k].idx == q,
        regions[i].model is Lorentz ==> 0 <= k < lorentz_list(d, regions, dt).len()
            && lorentz_list(d, regions, dt)[k].idx == q,
    decreases regions.len(),
{
    let (rest, r) = (regions.drop_last(), regions.last());
    if i < rest.len() {
        let k = material_fills_its_box(d, rest, dt, i, q);
        assert(drude_list(d, regions, dt) == drude_list(d, rest, dt) + drude_of(
            d,
            r,
            dt,
            volume(d),
        ));
        assert(lorentz_list(d, regions, dt) == lorentz_list(d, rest, dt) + lorentz_of(
            d,
            r,
            dt,
            volume(d),
        ));
        k
    } else {
        lemma_places_hold(d, r.cells, volume(d));
        let ps = places(d, r.cells, volume(d));
        assert(ps.contains(q));
        let at = choose|at: int| 0 <= at < ps.len() && ps[at] == q;
        if r.model is Drude {
            drude_list(d, rest, dt).len() + at
        } else {
            lorentz_list(d, rest, dt).len() + at
        }
    }
}

/// An undriven Drude current decays by (1 - x)/(1 + x), for x half of gamma.dt.
pub proof fn undriven_current_decays<T: Scalar>(
    omega_p: T,
    gamma: T,
    eps_inf: T,
    dt: T,
    j: T,
    next: T,
    x: T,
)
    requires
        exact_reals::<T>(),
        drude_moves(MaterialModel::Drude { omega_p, gamma, eps_inf }, dt, j, T::zero_value(), next),
        T::of_count(2).product(x) == gamma.product(dt),
    ensures
        T::of_count(1).sum(x).product(next) == T::of_count(1).difference(x).product(j),
{
    let one = T::of_count(1);
    let w = omega_p.product(omega_p).product(dt);
    reals(w, w, w);
    reals(j, j, j);
    let (a, b) = (x.product(next), x.product(j));
    reals(x, next, j);
    reals(next, a, b);
    // (next + a) + b = j
    lemma_spread(one, x, next);
    lemma_spread(one, x, j);
    reals(one, next, x);
    reals(next, one, x);
    reals(one, j, x);
    reals(j, one, x);
    reals(next.sum(a), b, b.negative());
    reals(b, b, b);
    reals(next.sum(a), next, next);
}

/// In a constant field the steady Drude current is Ohmic: gamma.J is
/// omega_p^2.E.
pub proof fn steady_current_is_ohmic<T: Scalar>(
    omega_p: T,
    gamma: T,
    eps_inf: T,
    dt: T,
    j: T,
    e: T,
)
    requires
        exact_field::<T>(),
        T::of_count(2) != T::zero_value(),
        T::of_count(2) == T::of_count(1).sum(T::of_count(1)),
        dt != T::zero_value(),
        drude_moves(MaterialModel::Drude { omega_p, gamma, eps_inf }, dt, j, e, j),
    ensures
        gamma.product(j) == omega_p.product(omega_p).product(e),
{
    let (one, two) = (T::of_count(1), T::of_count(2));
    let g = gamma.product(dt);
    let x = g.quotient(two);
    lemma_quotient(g, two);
    let w = omega_p.product(omega_p);
    let f = w.product(dt).product(e);
    let y = x.product(j.sum(j));
    assert(j.sum(y) == j.sum(f));
    // y = f
    reals(j.negative(), j, y);
    reals(j.negative(), j, f);
    reals(j, j.negative(), y);
    lemma_opposites(y, f);
    lemma_opposites(f, y);
    assert(y == f);
    // x.(j + j) = x.(2.j) = g.j
    lemma_spread(one, one, j);
    reals(j, one, one);
    reals(one, j, one);
    reals(x, two, j);
    reals(two, x, j);
    // dt.(gamma.j) = dt.(w.e)
    reals(gamma, dt, j);
    reals(dt, gamma, j);
    reals(w, dt, e);
    reals(dt, w, e);
    lemma_cancel(gamma.product(j), w.product(e), dt);
}

/// E gives up what the current takes: each Drude cell lowers E at its place by
/// dt.J over the high-frequency permittivity, and leaves every other place.
pub proof fn current_is_taken_off<T: Scalar>(c: &CompDisp<T>, e: Seq<T>, k: int, eps_inf: T, dt: T)
    requires
        exact_reals::<T>(),
        c.wf(e.len() as int),
        0 <= k < c.drude@.len(),
        eps_inf.product(c.drude@[k].cj) == dt,
    ensures
        ({
            let (before, after) = (c.less_current(e, k), c.less_current(e, k + 1));
            let i = c.drude@[k].idx as int;
            &&& eps_inf.product(before[i].difference(after[i])) == dt.product(c.j@[k])
            &&& forall|m: int| 0 <= m < e.len() && m != i ==> #[trigger] after[m] == before[m]
        }),
{
    lemma_current_len(c, e, k);
    let before = c.less_current(e, k);
    let cell = c.drude@[k];
    let i = cell.idx as int;
    assert(c.drude@[k].idx < e.len());
    let y = cell.cj.product(c.j@[k]);
    lemma_taken(before[i], y);
    reals(eps_inf, cell.cj, c.j@[k]);
}

proof fn lemma_current_len<T: Scalar>(c: &CompDisp<T>, e: Seq<T>, n: int)
    requires
        c.wf(e.len() as int),
        n <= c.drude@.len(),
    ensures
        c.less_current(e, n).len() == e.len(),
    decreases n,
{
    if n > 0 {
        assert(c.drude@[n - 1].idx < e.len());
        lemma_current_len(c, e, n - 1);
    }
}

proof fn lemma_change_len<T: Scalar>(c: &CompDisp<T>, e: Seq<T>, n: int)
    requires
        c.wf(e.len() as int),
        n <= c.lorentz@.len(),
    ensures
        c.less_change(e, n).len() == e.len(),
    decreases n,
{
    if n > 0 {
        assert(c.lorentz@[n - 1].idx < e.len());
        lemma_change_len(c, e, n - 1);
    }
}

/// `a - (a - y)` is `y`.
proof fn lemma_taken<T: Scalar>(a: T, y: T)
    requires
        exact_reals::<T>(),
    ensures
        a.difference(a.difference(y)) == y,
{
    let n = y.negative();
    reals(a, y, y);
    reals(a, a.sum(n), a);
    lemma_opposites(a, n);
    lemma_opposites(y, a);
    reals(a, a.negative(), y);
    lemma_opposites(y, y);
}

proof fn lemma_lorentz_step<T: Scalar>(
    c: &CompDisp<T>,
    d: (int, int, int),
    r: MaterialRegion<T>,
    dt: T,
    e: Seq<T>,
    after: &CompDisp<T>,
    at: int,
    k: int,
)
    requires
        exact_field::<T>(),
        c.wf(e.len() as int),
        c.saw(e, after),
        0 <= k < c.lorentz@.len(),
        solvable(r.model, dt),
        r.model is Lorentz,
        0 <= at < lorentz_of(d, r, dt, volume(d)).len(),
        c.lorentz@[k] == lorentz_of(d, r, dt, volume(d))[at],
    ensures
        lorentz_moves(
            r.model,
            dt,
            c.p_prev@[k],
            c.p@[k],
            e[c.lorentz@[k].idx as int],
            after.p@[k],
        ),
        r.model.high_frequency().product(c.lorentz@[k].inv_eps_inf) == T::of_count(1),
        after.p_prev@[k] == c.p@[k],
        c.p@[k].sum(after.dp@[k]) == after.p@[k],
{
    let cell = c.lorentz@[k];
    let (one, two) = (T::of_count(1), T::of_count(2));
    match r.model {
        MaterialModel::Lorentz { omega_p, omega0, gamma, eps_inf } => {
            let dd = dt.product(dt);
            let (rate, drag) = (one.quotient(dd), gamma.quotient(two.product(dt)));
            let den = rate.sum(drag);
            let (pp, p, v, next) = (
                c.p_prev@[k],
                c.p@[k],
                e[cell.idx as int],
                after.p@[k],
            );
            assert(next == c.p_next(e, k));
            let (w0, wp) = (omega0.product(omega0), omega_p.product(omega_p));
            lemma_quotient(one, dd);
            lemma_quotient(gamma, two.product(dt));
            // 2/dt^2 = 2.rate
            lemma_quotients(one, two, dd);
            reals(two, one, one);
            let a = two.product(rate).difference(w0);
            let b = rate.difference(drag);
            lemma_quotient(a, den);
            lemma_quotient(b.negative(), den);
            lemma_quotient(wp, den);
            // den.next = a.p + (-b).pp + wp.v
            let (x, y, z) = (cell.c1.product(p), cell.c2.product(pp), cell.c3.product(v));
            reals(den, x.sum(y), z);
            reals(den, x, y);
            reals(den, cell.c1, p);
            reals(den, cell.c2, pp);
            reals(den, cell.c3, v);
            assert(den.product(next) == a.product(p).sum(b.negative().product(pp)).sum(
                wp.product(v),
            ));
            // a.p = 2.rate.p - w0.p
            let (s, t, u) = (two.product(rate).product(p), w0.product(p), b.product(pp));
            lemma_spread(two.product(rate), w0, p);
            reals(b, pp, p);
            let f = wp.product(v);
            assert(den.product(next) == s.sum(t.negative()).sum(u.negative()).sum(f));
            lemma_put_back(s, t, u, f);
            assert(den.product(next).sum(u).sum(t) == s.sum(f));
            assert forall|r2: T, g2: T|
                #![trigger r2.product(dt.product(dt)), g2.product(T::of_count(2).product(dt))]
                r2.product(dt.product(dt)) == one && g2.product(T::of_count(2).product(dt))
                    == gamma implies r2.sum(g2).product(next).sum(
                r2.difference(g2).product(pp),
            ).sum(w0.product(p)) == two.product(r2).product(p).sum(wp.product(v)) by {
                reals(r2, dd, one);
                reals(g2, two.product(dt), one);
                reals(rate, dd, one);
                reals(drag, two.product(dt), one);
                lemma_cancel(r2, rate, dd);
                lemma_cancel(g2, drag, two.product(dt));
            }
            lemma_quotient(one, eps_inf);
            // p + (next - p) = next
            reals(next, p, p);
            reals(next, p.negative(), p);
            reals(p.negative(), p, p);
            reals(p, p.negative(), p);
            reals(next, next, next);
            reals(p, next.sum(p.negative()), p);
        },
        _ => {},
    }
}

/// What was taken off a sum can be put back.
proof fn lemma_put_back<T: Scalar>(s: T, t: T, u: T, f: T)
    requires
        exact_reals::<T>(),
    ensures
        s.sum(t.negative()).sum(u.negative()).sum(f).sum(u).sum(t) == s.sum(f),
{
    let (a, m, n) = (s.sum(t.negative()), t.negative(), u.negative());
    // ((a + n) + f) + u = a + f
    reals(a.sum(n), f, u);
    reals(f, u, a);
    reals(a.sum(n), u, f);
    reals(a, n, u);
    reals(n, u, a);
    reals(u, n, a);
    reals(a, a, a);
    // ((s + m) + f) + t = s + f
    reals(s.sum(m), f, t);
    reals(f, t, s);
    reals(s.sum(m), t, f);
    reals(s, m, t);
    reals(m, t, s);
    reals(t, m, s);
    reals(s, s, s);
}

/// Every Lorentz cell of a medium lies in a region of its material and follows
/// that material's equation of motion; the polarization before is kept, and the
/// change is what it moved by.
pub proof fn lorentz_polarization_obeys_its_equation<T: Scalar>(
    c: &CompDisp<T>,
    d: (int, int, int),
    regions: Seq<MaterialRegion<T>>,
    dt: T,
    e: Seq<T>,
    after: &CompDisp<T>,
    k: int,
) -> (i: int)
    requires
        exact_field::<T>(),
        c.lorentz@ == lorentz_list(d, regions, dt),
        volume(d) <= usize::MAX,
        forall|m: int| 0 <= m < regions.len() ==> solvable((#[trigger] regions[m]).model, dt),
        c.wf(e.len() as int),
        c.saw(e, after),
        0 <= k < c.lorentz@.len(),
    ensures
        0 <= i < regions.len(),
        regions[i].model is Lorentz,
        regions[i].cells.holds(at_place(d, c.lorentz@[k].idx as int)),
        lorentz_moves(
            regions[i].model,
            dt,
            c.p_prev@[k],
            c.p@[k],
            e[c.lorentz@[k].idx as int],
            after.p@[k],
        ),
        regions[i].model.high_frequency().product(c.lorentz@[k].inv_eps_inf) == T::of_count(1),
        after.p_prev@[k] == c.p@[k],
        c.p@[k].sum(after.dp@[k]) == after.p@[k],
{
    assert(regions.take(regions.len() as int) =~= regions);
    lemma_lorentz_found(c, d, regions, dt, e, after, k, regions.len() as int)
}

proof fn lemma_lorentz_found<T: Scalar>(
    c: &CompDisp<T>,
    d: (int, int, int),
    regions: Seq<MaterialRegion<T>>,
    dt: T,
    e: Seq<T>,
    after: &CompDisp<T>,
    k: int,
    n: int,
) -> (i: int)
    requires
        exact_field::<T>(),
        0 <= n <= regions.len(),
        volume(d) <= usize::MAX,
        forall|m: int| 0 <= m < regions.len() ==> solvable((#[trigger] regions[m]).model, dt),
        c.wf(e.len() as int),
        c.saw(e, after),
        0 <= k < c.lorentz@.len(),
        k < lorentz_list(d, regions.take(n), dt).len(),
        c.lorentz@[k] == lorentz_list(d, regions.take(n), dt)[k],
    ensures
        0 <= i < regions.len(),
        regions[i].model is Lorentz,
        regions[i].cells.holds(at_place(d, c.lorentz@[k].idx as int)),
        lorentz_moves(
            regions[i].model,
            dt,
            c.p_prev@[k],
            c.p@[k],
            e[c.lorentz@[k].idx as int],
            after.p@[k],
        ),
        regions[i].model.high_frequency().product(c.lorentz@[k].inv_eps_inf) == T::of_count(1),
        after.p_prev@[k] == c.p@[k],
        c.p@[k].sum(after.dp@[k]) == after.p@[k],
    decreases n,
{
    assert(n > 0);
    let part = regions.take(n);
    assert(part.drop_last() =~= regions.take(n - 1));
    assert(part.last() == regions[n - 1]);
    let before = lorentz_list(d, part.drop_last(), dt);
    if k < before.len() {
        assert(lorentz_list(d, part, dt)[k] == before[k]);
        lemma_lorentz_found(c, d, regions, dt, e, after, k, n - 1)
    } else {
        let r = regions[n - 1];
        assert(solvable(regions[n - 1].model, dt));
        let ps = places(d, r.cells, volume(d));
        lemma_places_hold(d, r.cells, volume(d));
        let at = k - before.len();
        assert(0 <= ps[at] < volume(d));
        lemma_lorentz_step(c, d, r, dt, e, after, at, k);
        n - 1
    }
}

/// E gives up what the polarization takes: each Lorentz cell lowers E at its
/// place by the change of P over the high-frequency permittivity, and leaves
/// every other place.
pub proof fn change_is_taken_off<T: Scalar>(c: &CompDisp<T>, e: Seq<T>, k: int, eps_inf: T)
    requires
        exact_reals::<T>(),
        c.wf(e.len() as int),
        0 <= k < c.lorentz@.len(),
        eps_inf.product(c.lorentz@[k].inv_eps_inf) == T::of_count(1),
    ensures
        ({
            let (before, after) = (c.less_change(e, k), c.less_change(e, k + 1));
            let i = c.lorentz@[k].idx as int;
            &&& eps_inf.product(before[i].difference(after[i])) == c.dp@[k]
            &&& forall|m: int| 0 <= m < e.len() && m != i ==> #[trigger] after[m] == before[m]
        }),
{
    lemma_change_len(c, e, k);
    let before = c.less_change(e, k);
    let cell = c.lorentz@[k];
    assert(c.lorentz@[k].idx < e.len());
    let dp = c.dp@[k];
    let y = dp.product(cell.inv_eps_inf);
    lemma_taken(before[cell.idx as int], y);
    reals(eps_inf, cell.inv_eps_inf, dp);
    reals(dp, cell.inv_eps_inf, dp);
    reals(dp, T::of_count(1), dp);
    reals(T::of_count(1), dp, dp);
}

} // verus!
