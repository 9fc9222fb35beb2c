//! What a plane rotation of the diagonalization is for: it is one, it makes the
//! entry it was chosen for vanish, and it keeps the trace.
//!
//! The laws are ones of exact arithmetic.

use crate::exact::{counts_at, exact_counts, exact_field, exact_reals, follows, lemma_cancel};
use crate::exact::{lemma_opposites, lemma_quotient, lemma_real_partners};
use crate::exact::{lemma_spread, monotone, reals};
use crate::gaussian::jacobi::{turned_cols, Jacobi};
use crate::gaussian::williamson::{blend, is_blend, is_judged, least};
use crate::matrix::Matrix;
use crate::scalar::Scalar;
use vstd::prelude::*;

verus! {

/// The functions are what they are named after: roots square back, signs are
/// units, and a sign times its number is the magnitude.
pub open spec fn named<T: Scalar, R: Fn(T) -> T, M: Fn(T) -> T, S: Fn(T) -> T>(
    j: &Jacobi<T, R, M, S>,
) -> bool {
    &&& forall|x: T, r: T| #[trigger] call_ensures(j.root, (x,), r) ==> r.product(r) == x
    &&& forall|x: T, s: T| #[trigger] call_ensures(j.sign, (x,), s) ==> s.product(s) == T::of_count(1)
    &&& forall|x: T, s: T, m: T|
        #![trigger call_ensures(j.sign, (x,), s), call_ensures(j.magnitude, (x,), m)]
        call_ensures(j.sign, (x,), s) && call_ensures(j.magnitude, (x,), m) ==> s.product(x) == m
}

/// The tangent solves its equation: its square and twice its product with the
/// slope make up one.
proof fn lemma_tangent<T: Scalar>(tau: T, sg: T, mg: T, r1: T, t: T)
    requires
        exact_field::<T>(),
        exact_counts::<T>(),
        sg.product(sg) == T::of_count(1),
        sg.product(tau) == mg,
        r1.product(r1) == tau.product(tau).sum(T::of_count(1)),
        mg.sum(r1) != T::zero_value(),
        mg.sum(r1).product(mg.sum(r1)) != T::zero_value(),
        t == sg.quotient(mg.sum(r1)),
    ensures
        t.product(t).sum(T::of_count(2).product(t.product(tau))) == T::of_count(1),
{
    let (one, two, d) = (T::of_count(1), T::of_count(2), mg.sum(r1));
    lemma_quotient(sg, d);
    let dd = d.product(d);
    // t.t.dd = 1
    lemma_product_squares(t, d);
    let tt = t.product(t);
    reals(dd, tt, tt);
    assert(dd.product(tt) == one);
    // dd.(2.(t.tau)) = 2.(mg.d)
    let x = t.product(tau);
    reals(dd, two, x);
    reals(two, dd, x);
    reals(d, d, x);
    reals(d, t, tau);
    reals(t, d, tau);
    assert(d.product(x) == mg);
    assert(dd.product(x) == d.product(mg));
    assert(dd.product(two.product(x)) == two.product(d.product(mg)));
    // mg.mg = tau.tau
    lemma_product_squares(sg, tau);
    let (mm, aa) = (mg.product(mg), tau.product(tau));
    reals(aa, one, one);
    reals(one, aa, aa);
    assert(mm == aa);
    // dd = (mm + mr) + (mr + (mm + 1))
    let mr = mg.product(r1);
    reals(d, mg, r1);
    lemma_spread(mg, r1, mg);
    lemma_spread(mg, r1, r1);
    reals(r1, mg, mg);
    reals(mg, r1, r1);
    assert(dd == mm.sum(mr).sum(mr.sum(mm.sum(one))));
    // 2.(d.mg) = (mm + mr) + (mm + mr)
    assert(counts_at::<T>(1, 1));
    let w = mm.sum(mr);
    reals(w, one, one);
    reals(w, two, two);
    assert(two.product(d.product(mg)) == w.sum(w));
    // one + (w + w) = dd
    reals(mr, mm, one);
    reals(mm, mr, one);
    reals(mm, mr, mr);
    reals(w, w, one);
    reals(w.sum(w), one, one);
    reals(one, w.sum(w), one);
    assert(one.sum(w.sum(w)) == dd);
    reals(dd, tt, two.product(x));
    reals(dd, one, one);
    lemma_cancel(tt.sum(two.product(x)), one, dd);
}

/// `(x.y).(x.y)` is `(x.x).(y.y)`.
proof fn lemma_product_squares<T: Scalar>(x: T, y: T)
    requires
        exact_reals::<T>(),
    ensures
        x.product(y).product(x.product(y)) == x.product(x).product(y.product(y)),
{
    reals(x, y, x.product(y));
    reals(y, x, y);
    reals(x, y, y);
    reals(x, x, y.product(y));
}

/// A turn is a rotation, and makes the entry it was chosen for vanish: what it
/// makes of the two diagonal entries and of that entry adds up to nothing.
pub proof fn turn_makes_its_entry_vanish<
    T: Scalar,
    R: Fn(T) -> T,
    M: Fn(T) -> T,
    S: Fn(T) -> T,
>(
    j: &Jacobi<T, R, M, S>,
    app: T,
    apq: T,
    aqq: T,
    cs: (T, T),
    by: (T, T, T, T),
)
    requires
        exact_field::<T>(),
        exact_counts::<T>(),
        named(j),
        T::of_count(2).product(apq) != T::zero_value(),
        by.1.sum(by.2) != T::zero_value(),
        by.1.sum(by.2).product(by.1.sum(by.2)) != T::zero_value(),
        by.3 != T::zero_value(),
        j.turns_from(app, apq, aqq, cs, by),
    ensures
        ({
            let (c, s) = cs;
            let (cc, ss) = (c.product(c), s.product(s));
            &&& cc.sum(ss) == T::of_count(1)
            &&& cc.difference(ss).product(apq).sum(c.product(s).product(app.difference(aqq)))
                == T::zero_value()
        }),
{
    let (c, s) = cs;
    let (sg, mg, r1, r2) = by;
    let (zero, one, two) = (T::zero_value(), T::of_count(1), T::of_count(2));
    let tau = Jacobi::<T, R, M, S>::slope(app, apq, aqq);
    let t = sg.quotient(mg.sum(r1));
    lemma_tangent(tau, sg, mg, r1, t);
    let tt = t.product(t);
    // c.r2 = 1, and r2.r2 = 1 + t.t
    lemma_quotient(one, r2);
    lemma_product_squares(c, r2);
    reals(one, one, one);
    let (cc, ss, cs1) = (c.product(c), s.product(s), c.product(s));
    assert(cc.product(tt.sum(one)) == one);
    lemma_product_squares(t, c);
    reals(cc, tt, one);
    reals(cc, one, one);
    reals(tt, cc, cc);
    assert(ss == cc.product(tt));
    reals(ss, cc, cc);
    // c.s = cc.t
    reals(c, t, c);
    reals(t, c, c);
    reals(c, c, t);
    assert(cs1 == cc.product(t));
    // aqq - app = 2.apq.tau
    let d = aqq.difference(app);
    lemma_quotient(d, two.product(apq));
    // (cc - ss).apq + cs.(app - aqq) = cc.[(1 - tt).apq - t.d]
    let e = app.difference(aqq);
    reals(app, aqq, app);
    reals(aqq, app, app);
    lemma_opposites(aqq, app.negative());
    lemma_opposites(app, app);
    reals(aqq.negative(), app, app);
    assert(e == d.negative());
    let m = one.difference(tt);
    reals(one, tt, one);
    reals(cc, one, tt.negative());
    lemma_spread(cc, tt, cc);
    reals(cc, ss, ss);
    assert(cc.difference(ss) == cc.product(m));
    reals(cc, m, apq);
    reals(cc, t, e);
    lemma_spread(t, d, t);
    let (x, y) = (m.product(apq), t.product(d));
    reals(cc, x, t.product(e));
    assert(t.product(e) == y.negative());
    // y = 2.t.tau.apq = (1 - tt).apq
    let k = two.product(t.product(tau));
    // tt + k = 1, so m = k
    reals(tt, k, tt.negative());
    reals(k, tt, tt.negative());
    reals(tt, tt.negative(), tt);
    reals(k, one, one);
    reals(one, tt.negative(), one);
    assert(m == k) by {
        assert(tt.sum(k).sum(tt.negative()) == k) by {
            reals(k, tt, tt.negative());
        }
    }
    assert(y == k.product(apq)) by {
        // t.((2.apq).tau)
        reals(tau, two.product(apq), tau);
        reals(two, apq, tau);
        reals(t, two, apq.product(tau));
        reals(two, t, apq.product(tau));
        reals(apq, tau, t);
        reals(t, tau, apq);
        reals(two, t.product(tau), apq);
    }
    reals(x, x, x);
    reals(cc, zero, zero);
}

/// Turning the columns of a matrix keeps the squares of every row together, and
/// leaves all other columns.
pub proof fn turned_rows_keep_their_squares<T: Scalar>(
    before: &Matrix<T>,
    after: &Matrix<T>,
    p: int,
    q: int,
    c: T,
    s: T,
    i: int,
    j: int,
)
    requires
        exact_reals::<T>(),
        c.product(c).sum(s.product(s)) == T::of_count(1),
        turned_cols(before, after, p, q, c, s),
        0 <= i < before.rows,
        0 <= p < before.cols,
        0 <= q < before.cols,
        p != q,
        0 <= j < before.cols,
    ensures
        after.at(i, p).product(after.at(i, p)).sum(after.at(i, q).product(after.at(i, q)))
            == before.at(i, p).product(before.at(i, p)).sum(
            before.at(i, q).product(before.at(i, q)),
        ),
        j != p && j != q ==> after.at(i, j) == before.at(i, j),
{
    lemma_turned_pair(before.at(i, p), before.at(i, q), c, s);
}

/// `(c.x - s.y)` and `(s.x + c.y)` squared make up what `x` and `y` do.
proof fn lemma_turned_pair<T: Scalar>(x: T, y: T, c: T, s: T)
    requires
        exact_reals::<T>(),
        c.product(c).sum(s.product(s)) == T::of_count(1),
    ensures
        ({
            let (u, v) = (
                c.product(x).difference(s.product(y)),
                s.product(x).sum(c.product(y)),
            );
            u.product(u).sum(v.product(v)) == x.product(x).sum(y.product(y))
        }),
{
    let (one, zero) = (T::of_count(1), T::zero_value());
    let (a, b, d, e) = (c.product(x), s.product(y), s.product(x), c.product(y));
    let n = b.negative();
    reals(a, b, b);
    let (u, v) = (a.sum(n), d.sum(e));
    lemma_square_of_sum(a, n);
    lemma_square_of_sum(d, e);
    lemma_spread(b, b, b);
    lemma_spread(a, b, a);
    // a.n = -(d.e)
    reals(c, x, b);
    reals(x, s, y);
    reals(s, x, c.product(y));
    reals(x, c, y);
    reals(c, s, x.product(y));
    reals(s, c, x.product(y));
    reals(s, x, y);
    reals(x, y, s);
    assert(a.product(b) == d.product(e)) by {
        lemma_crossed(c, x, s, y);
    }
    let z = a.product(n);
    let w = d.product(e);
    assert(z == w.negative());
    let (aa, bb, dd, ee) = (a.product(a), b.product(b), d.product(d), e.product(e));
    // (aa + bb + 2z) + (dd + ee + 2w)
    lemma_real_partners(aa.sum(bb), z.sum(z), dd.sum(ee), w.sum(w));
    lemma_real_partners(z, z, w, w);
    reals(w, w.negative(), w);
    reals(w.negative(), w, w);
    reals(zero, zero, zero);
    reals(aa.sum(bb).sum(dd.sum(ee)), zero, zero);
    lemma_real_partners(aa, bb, dd, ee);
    reals(bb, ee, ee);
    lemma_product_squares(c, x);
    lemma_product_squares(s, x);
    lemma_product_squares(s, y);
    lemma_product_squares(c, y);
    let (cc, ss, xx, yy) = (c.product(c), s.product(s), x.product(x), y.product(y));
    lemma_spread(cc, ss, xx);
    lemma_spread(ss, cc, yy);
    reals(ss, cc, cc);
    reals(xx, one, one);
    reals(one, xx, xx);
    reals(yy, one, one);
    reals(one, yy, yy);
}

/// `(c.x).(s.y)` is `(s.x).(c.y)`.
proof fn lemma_crossed<T: Scalar>(c: T, x: T, s: T, y: T)
    requires
        exact_reals::<T>(),
    ensures
        c.product(x).product(s.product(y)) == s.product(x).product(c.product(y)),
{
    reals(c, x, s.product(y));
    reals(x, s, y);
    reals(s, x, y);
    reals(x, s, y);
    reals(c, s, x.product(y));
    reals(s, c, x.product(y));
    reals(s, x, c.product(y));
    reals(x, c, y);
    reals(c, x, y);
}

/// `(a + b)` squared.
proof fn lemma_square_of_sum<T: Scalar>(a: T, b: T)
    requires
        exact_reals::<T>(),
    ensures
        a.sum(b).product(a.sum(b)) == a.product(a).sum(b.product(b)).sum(
            a.product(b).sum(a.product(b)),
        ),
{
    let (aa, ab, bb) = (a.product(a), a.product(b), b.product(b));
    reals(a.sum(b), a, b);
    lemma_spread(a, b, a);
    lemma_spread(a, b, b);
    reals(b, a, a);
    // (aa + ab) + (ab + bb)
    lemma_real_partners(aa, ab, bb, ab);
    reals(ab, bb, bb);
    reals(bb, ab, ab);
}

/// The least of some samples is none above any of them, nor above the start,
/// and is one of them or the start.
pub proof fn least_is_one<T: Scalar>(s: Seq<T>, start: T, n: int, j: int)
    requires
        monotone::<T>(),
        0 <= j < n <= s.len(),
    ensures
        s[j].at_least(least(s, start, n)),
        start.at_least(least(s, start, n)),
        least(s, start, n) == start || exists|k: int|
            0 <= k < n && #[trigger] s[k] == least(s, start, n),
    decreases n,
{
    let g = least(s, start, n - 1);
    follows(s[n - 1], s[n - 1], s[n - 1]);
    follows(g, s[n - 1], g);
    follows(s[n - 1], g, g);
    if n - 1 > 0 {
        let i: int = if j < n - 1 {
            j
        } else {
            0
        };
        least_is_one(s, start, n - 1, i);
        follows(s[j], g, s[n - 1]);
        follows(start, g, s[n - 1]);
        if g != start {
            let k = choose|k: int| 0 <= k < n - 1 && #[trigger] s[k] == g;
            assert(s[k] == g);
        }
    } else {
        follows(start, start, start);
        follows(s[0], start, start);
        follows(start, s[0], start);
    }
    if s[n - 1].less_than(g) {
        assert(s[n - 1] == least(s, start, n));
    }
}

/// A symplectic eigenvalue is the mean of its pair of roots, each of which
/// squares to an eigenvalue that is not negative.
pub proof fn symplectic_eigenvalues_are_means<
    T: Scalar,
    R: Fn(T) -> T,
    M: Fn(T) -> T,
    S: Fn(T) -> T,
>(
    j: &Jacobi<T, R, M, S>,
    cov: &Matrix<T>,
    nus: Seq<T>,
    half: T,
    h: Matrix<T>,
    m: Matrix<T>,
    order: Seq<T>,
    roots: Seq<T>,
    k: int,
)
    requires
        exact_reals::<T>(),
        named(j),
        half.sum(half) == T::of_count(1),
        j.spectrum_from(cov, nus, half, h, m, order, roots),
        0 <= k < nus.len(),
        2 * k + 1 < order.len(),
        order[2 * k].at_least(T::zero_value()),
        order[2 * k + 1].at_least(T::zero_value()),
    ensures
        nus[k].sum(nus[k]) == roots[2 * k].sum(roots[2 * k + 1]),
        roots[2 * k].product(roots[2 * k]) == order[2 * k],
        roots[2 * k + 1].product(roots[2 * k + 1]) == order[2 * k + 1],
        nus.len() == cov.rows / 2,
{
    let s = roots[2 * k].sum(roots[2 * k + 1]);
    lemma_spread(half, half, s);
    reals(s, T::of_count(1), s);
    reals(T::of_count(1), s, s);
    let (p, q) = (roots[2 * k], roots[2 * k + 1]);
    assert(call_ensures(j.root, (order[2 * k],), p));
    assert(call_ensures(j.root, (order[2 * k + 1],), q));
}

/// The margin is what the least symplectic eigenvalue has above one.
pub proof fn margin_is_above_one<T: Scalar, R: Fn(T) -> T, M: Fn(T) -> T, S: Fn(T) -> T>(
    j: &Jacobi<T, R, M, S>,
    cov: &Matrix<T>,
    half: T,
    start: T,
    margin: T,
) -> (nus: Seq<T>)
    requires
        exact_reals::<T>(),
        j.is_margin(cov, half, start, margin),
    ensures
        j.is_spectrum(cov, nus, half),
        margin.sum(T::of_count(1)) == least(nus, start, nus.len() as int),
{
    let nus = choose|nus: Seq<T>|
        #[trigger] j.is_spectrum(cov, nus, half) && margin == least(
            nus,
            start,
            nus.len() as int,
        ).difference(T::of_count(1));
    let (l, one) = (least(nus, start, nus.len() as int), T::of_count(1));
    reals(l, one, one);
    reals(l, one.negative(), one);
    reals(one.negative(), one, one);
    reals(one, one.negative(), one);
    reals(l, l, l);
    nus
}

/// Product of the columns `a` and `b` over the first `n` rows.
pub open spec fn overlap<T: Scalar>(v: &Matrix<T>, a: int, b: int, n: int) -> T
    decreases n,
{
    if n <= 0 {
        T::zero_value()
    } else {
        overlap(v, a, b, n - 1).sum(v.at(n - 1, a).product(v.at(n - 1, b)))
    }
}

/// Entry `i` of `h` applied to column `m` of `v`, over the first `n` entries.
pub open spec fn image<T: Scalar>(h: &Matrix<T>, v: &Matrix<T>, i: int, m: int, n: int) -> T
    decreases n,
{
    if n <= 0 {
        T::zero_value()
    } else {
        image(h, v, i, m, n - 1).sum(h.at(i, n - 1).product(v.at(n - 1, m)))
    }
}

/// The same with the blend of the first `k` vectors in the place of `h`.
spec fn partial_image<T: Scalar>(
    v: &Matrix<T>,
    roots: Seq<T>,
    i: int,
    m: int,
    k: int,
    n: int,
) -> T
    decreases n,
{
    if n <= 0 {
        T::zero_value()
    } else {
        partial_image(v, roots, i, m, k, n - 1).sum(
            blend(v, roots, i, n - 1, k).product(v.at(n - 1, m)),
        )
    }
}

proof fn lemma_partial_image<T: Scalar>(
    v: &Matrix<T>,
    roots: Seq<T>,
    i: int,
    m: int,
    k: int,
    n: int,
)
    requires
        exact_reals::<T>(),
    ensures
        k <= 0 ==> partial_image(v, roots, i, m, k, n) == T::zero_value(),
        k > 0 ==> partial_image(v, roots, i, m, k, n) == partial_image(
            v,
            roots,
            i,
            m,
            k - 1,
            n,
        ).sum(v.at(i, k - 1).product(roots[k - 1]).product(overlap(v, k - 1, m, n))),
    decreases n,
{
    let z = T::zero_value();
    reals(z, z, z);
    if n <= 0 {
        let t = v.at(i, k - 1).product(roots[k - 1]);
        reals(t, z, z);
    } else {
        lemma_partial_image(v, roots, i, m, k, n - 1);
        let w = v.at(n - 1, m);
        if k <= 0 {
            reals(w, z, z);
            reals(z, w, z);
        } else {
            let t = v.at(i, k - 1).product(roots[k - 1]);
            let (b, u) = (blend(v, roots, i, n - 1, k - 1), v.at(n - 1, k - 1));
            let (p, o) = (partial_image(v, roots, i, m, k - 1, n - 1), overlap(v, k - 1, m, n - 1));
            lemma_spread(b, t.product(u), w);
            reals(b, t.product(u), w);
            reals(w, b, t.product(u));
            reals(b.sum(t.product(u)), w, w);
            reals(b, w, w);
            reals(t.product(u), w, w);
            reals(t, u, w);
            reals(t, o, u.product(w));
            lemma_real_partners(p, t.product(o), b.product(w), t.product(u.product(w)));
        }
    }
}

proof fn lemma_blend_mirrors<T: Scalar>(v: &Matrix<T>, roots: Seq<T>, i: int, j: int, n: int)
    requires
        exact_reals::<T>(),
    ensures
        blend(v, roots, i, j, n) == blend(v, roots, j, i, n),
    decreases n,
{
    if n > 0 {
        lemma_blend_mirrors(v, roots, i, j, n - 1);
        let (a, r, b) = (v.at(i, n - 1), roots[n - 1], v.at(j, n - 1));
        reals(a, r, b);
        reals(r, b, a);
        reals(b, r, a);
        reals(a, r.product(b), b);
    }
}

proof fn lemma_image<T: Scalar>(h: &Matrix<T>, v: &Matrix<T>, roots: Seq<T>, i: int, m: int, n: int)
    requires
        exact_reals::<T>(),
        is_blend(h, v, roots),
        0 <= i < v.rows,
        n <= v.rows,
    ensures
        image(h, v, i, m, n) == partial_image(v, roots, i, m, v.rows as int, n),
    decreases n,
{
    if n > 0 {
        lemma_image(h, v, roots, i, m, n - 1);
        lemma_blend_mirrors(v, roots, i, n - 1, v.rows as int);
        assert(h.at(i, n - 1) == blend(v, roots, i, n - 1, v.rows as int));
    }
}

proof fn lemma_images_gather<T: Scalar>(v: &Matrix<T>, roots: Seq<T>, i: int, m: int, k: int)
    requires
        exact_reals::<T>(),
        0 <= m < v.rows,
        0 <= k <= v.rows,
        forall|a: int, b: int|
            0 <= a < v.rows && 0 <= b < v.rows ==> #[trigger] overlap(v, a, b, v.rows as int) == (
            if a == b {
                T::of_count(1)
            } else {
                T::zero_value()
            }),
    ensures
        partial_image(v, roots, i, m, k, v.rows as int) == if m < k {
            v.at(i, m).product(roots[m])
        } else {
            T::zero_value()
        },
    decreases k,
{
    let n = v.rows as int;
    lemma_partial_image(v, roots, i, m, k, n);
    if k > 0 {
        lemma_images_gather(v, roots, i, m, k - 1);
        let (z, t) = (T::zero_value(), v.at(i, k - 1).product(roots[k - 1]));
        assert(overlap(v, k - 1, m, n) == if k - 1 == m {
            T::of_count(1)
        } else {
            z
        });
        let s = v.at(i, m).product(roots[m]);
        reals(t, T::of_count(1), z);
        reals(t, z, z);
        reals(s, z, z);
        reals(z, z, z);
        reals(z, t, t);
    }
}

/// The symmetric root has the eigenvectors of the covariance and the given
/// roots for eigenvalues: where the columns of `v` are orthonormal, it takes
/// each of them to itself times its root. It is symmetric.
pub proof fn blend_keeps_the_eigenvectors<T: Scalar>(
    h: &Matrix<T>,
    v: &Matrix<T>,
    roots: Seq<T>,
    i: int,
    m: int,
)
    requires
        exact_reals::<T>(),
        is_blend(h, v, roots),
        0 <= i < v.rows,
        0 <= m < v.rows,
        forall|a: int, b: int|
            0 <= a < v.rows && 0 <= b < v.rows ==> #[trigger] overlap(v, a, b, v.rows as int) == (
            if a == b {
                T::of_count(1)
            } else {
                T::zero_value()
            }),
    ensures
        image(h, v, i, m, v.rows as int) == v.at(i, m).product(roots[m]),
        h.at(i, m) == h.at(m, i),
{
    lemma_image(h, v, roots, i, m, v.rows as int);
    lemma_images_gather(v, roots, i, m, v.rows as int);
    lemma_blend_mirrors(v, roots, i, m, v.rows as int);
}

/// A covariance is taken for one of a quantum state where no symplectic
/// eigenvalue falls short of one by more than the tolerance.
pub proof fn physical_states_reach_one<
    T: Scalar,
    R: Fn(T) -> T,
    M: Fn(T) -> T,
    S: Fn(T) -> T,
>(j: &Jacobi<T, R, M, S>, cov: &Matrix<T>, half: T, start: T, tol: T, r: bool) -> (nus: Seq<T>)
    requires
        exact_reals::<T>(),
        monotone::<T>(),
        is_judged(cov, half, start, tol, j, r),
    ensures
        j.is_spectrum(cov, nus, half),
        r <==> least(nus, start, nus.len() as int).sum(tol).at_least(T::of_count(1)),
{
    let margin = choose|margin: T|
        #[trigger] j.is_margin(cov, half, start, margin) && r == margin.at_least(tol.negative());
    let nus = margin_is_above_one(j, cov, half, start, margin);
    let (one, zero, m) = (T::of_count(1), T::zero_value(), tol.negative());
    // margin + (1 + tol) against m + (1 + tol)
    let up = one.sum(tol);
    let down = up.negative();
    reals(margin, one, tol);
    reals(one, tol, m);
    reals(tol, m, one);
    reals(m, tol, one);
    reals(m, up, one);
    reals(up, m, one);
    reals(one, zero, zero);
    assert(m.sum(up) == one);
    follows(margin, m, up);
    follows(margin.sum(up), m.sum(up), down);
    reals(margin, up, down);
    reals(m, up, down);
    reals(up, down, up);
    reals(margin, zero, zero);
    reals(m, zero, zero);
    nus
}

} // verus!
