//! The star product as an algebra: a through connection is neutral on both
//! sides, and how three networks are grouped does not matter.
//!
//! Both follow from what a cascade is: the waves between two joined networks
//! are determined by the waves that come in, and the cascade sends out what the
//! networks send out then. The laws are ones of exact arithmetic.

use crate::complex::Cx;
use crate::exact::{exact, ring};
use crate::matrix::Matrix;
use crate::photonic::network::{advanced, forward_ok, largest, loop_matrix, loop_singular};
use crate::photonic::network::{loop_solved, plus_product, reduced, singular, sized, solves, stuck};
use crate::photonic::network::{swapped, CMat, Loops, Solver, Sparams};
use crate::photonic::solving::{alike, divides, elimination_is_faithful, elimination_solves};
use crate::photonic::solving::{inverts, lemma_off_both, pivotal};
use crate::photonic::waves::{added, along, applied, lemma_added, lemma_applied_adds};
use crate::photonic::waves::{lemma_applied_dark, lemma_applied_eye, lemma_applied_port};
use crate::photonic::waves::{lemma_applied_product, lemma_applied_rest, lemma_applied_still};
use crate::photonic::waves::{lemma_applied_sum, on_port, still};
use crate::scalar::Scalar;
use vstd::prelude::*;

verus! {

/// The waves `p` to the right and `q` to the left between `a` and `b`, while
/// `u` comes in from the left and `v` from the right.
pub open spec fn between<T: Scalar>(
    a: &Sparams<T>,
    b: &Sparams<T>,
    u: Seq<Cx<T>>,
    v: Seq<Cx<T>>,
    p: Seq<Cx<T>>,
    q: Seq<Cx<T>>,
) -> bool {
    &&& p == added(applied(&a.s21, u), applied(&a.s22, q))
    &&& q == added(applied(&b.s11, p), applied(&b.s12, v))
}

/// What a network sends out to the left.
pub open spec fn leftward<T: Scalar>(r: &Sparams<T>, u: Seq<Cx<T>>, v: Seq<Cx<T>>) -> Seq<Cx<T>> {
    added(applied(&r.s11, u), applied(&r.s12, v))
}

/// What a network sends out to the right.
pub open spec fn rightward<T: Scalar>(r: &Sparams<T>, u: Seq<Cx<T>>, v: Seq<Cx<T>>) -> Seq<Cx<T>> {
    added(applied(&r.s21, u), applied(&r.s22, v))
}

/// A wave that comes back from the loop of `p` and `q` as itself, with `t` fed
/// in.
spec fn rounds<T: Scalar>(p: &CMat<T>, q: &CMat<T>, t: Seq<Cx<T>>, y: Seq<Cx<T>>) -> bool {
    y == added(applied(p, applied(q, y)), t)
}

/// What solves a loop comes back from it, and nothing else does.
proof fn lemma_loop<T: Scalar, S: Fn(Cx<T>) -> T, D: Fn(Cx<T>, Cx<T>) -> Cx<T>>(
    p: &CMat<T>,
    q: &CMat<T>,
    rhs: &CMat<T>,
    x: &CMat<T>,
    n: int,
    how: &Solver<T, S, D>,
    u: Seq<Cx<T>>,
)
    requires
        exact::<T>(),
        divides(how),
        p.shaped(n, n),
        q.shaped(n, n),
        rhs.wf(),
        rhs.rows == n,
        loop_solved(p, q, rhs, x, how),
        u.len() == rhs.cols,
    ensures
        x.shaped(n, rhs.cols as int),
        rounds(p, q, applied(rhs, u), applied(x, u)),
{
    let m = choose|m: CMat<T>|
        #![trigger loop_matrix(p, q, &m)]
        loop_matrix(p, q, &m) && solves(&m, rhs, x, how);
    let (eye, pq) = choose|eye: CMat<T>, pq: CMat<T>|
        #![trigger eye.is_identity(p.rows as int), pq.is_product(p, q)]
        eye.is_identity(p.rows as int) && pq.is_product(p, q) && m.is_difference(&eye, &pq);
    elimination_solves(&m, rhs, x, how);
    assert(rhs.is_product(&m, x)) by {
        assert forall|i: int, j: int| 0 <= i < m.rows && 0 <= j < x.cols implies #[trigger] rhs.at(
            i,
            j,
        ) == Matrix::dot(&m, x, i, j, m.cols as int) by {
            assert(Matrix::dot(&m, x, i, j, m.rows as int) == rhs.at(i, j));
        }
    }
    let y = applied(x, u);
    lemma_applied_product(rhs, &m, x, u);
    lemma_applied_rest(&m, &eye, &pq, y);
    lemma_applied_product(&pq, p, q, y);
    lemma_added(applied(&m, y), applied(&pq, y), y);
}

/// Only one wave comes back from a loop as itself.
proof fn lemma_one_round<T: Scalar, S: Fn(Cx<T>) -> T, D: Fn(Cx<T>, Cx<T>) -> Cx<T>>(
    p: &CMat<T>,
    q: &CMat<T>,
    rhs: &CMat<T>,
    x: &CMat<T>,
    n: int,
    how: &Solver<T, S, D>,
    t: Seq<Cx<T>>,
    y: Seq<Cx<T>>,
    z: Seq<Cx<T>>,
)
    requires
        exact::<T>(),
        divides(how),
        inverts(how),
        p.shaped(n, n),
        q.shaped(n, n),
        rhs.rows == n,
        loop_solved(p, q, rhs, x, how),
        t.len() == n,
        rounds(p, q, t, y),
        rounds(p, q, t, z),
    ensures
        y == z,
{
    let m = choose|m: CMat<T>|
        #![trigger loop_matrix(p, q, &m)]
        loop_matrix(p, q, &m) && solves(&m, rhs, x, how);
    let (eye, pq) = choose|eye: CMat<T>, pq: CMat<T>|
        #![trigger eye.is_identity(p.rows as int), pq.is_product(p, q)]
        eye.is_identity(p.rows as int) && pq.is_product(p, q) && m.is_difference(&eye, &pq);
    lemma_left_over(p, q, &m, &eye, &pq, n, t, y);
    lemma_left_over(p, q, &m, &eye, &pq, n, t, z);
    assert forall|i: int| 0 <= i < n implies #[trigger] along(&m, y, i, n) == along(
        &m,
        z,
        i,
        n,
    ) by {
        assert(applied(&m, y)[i] == applied(&m, z)[i]);
    }
    assert(alike(&m, y, z, n));
    elimination_is_faithful(&m, rhs, x, how, y, z);
}

/// The matrix of a loop gives what was fed in.
proof fn lemma_left_over<T: Scalar>(
    p: &CMat<T>,
    q: &CMat<T>,
    m: &CMat<T>,
    eye: &CMat<T>,
    pq: &CMat<T>,
    n: int,
    t: Seq<Cx<T>>,
    y: Seq<Cx<T>>,
)
    requires
        exact::<T>(),
        p.shaped(n, n),
        q.shaped(n, n),
        eye.is_identity(n),
        pq.is_product(p, q),
        m.is_difference(eye, pq),
        t.len() == n,
        rounds(p, q, t, y),
    ensures
        y.len() == n,
        applied(m, y) == t,
{
    let w = applied(pq, y);
    lemma_applied_product(pq, p, q, y);
    lemma_applied_rest(m, eye, pq, y);
    assert(added(applied(m, y), w) == added(w, t));
    assert forall|i: int| 0 <= i < n implies #[trigger] applied(m, y)[i] == t[i] by {
        assert(added(applied(m, y), w)[i] == added(w, t)[i]);
        ring(w[i], t[i], t[i]);
        lemma_off_both(applied(m, y)[i], t[i], w[i]);
    }
    assert(applied(m, y) =~= t);
}

/// The wave in a loop that is fed from both sides.
proof fn lemma_fed<T: Scalar, S: Fn(Cx<T>) -> T, D: Fn(Cx<T>, Cx<T>) -> Cx<T>>(
    p: &CMat<T>,
    q: &CMat<T>,
    f: &CMat<T>,
    x: &CMat<T>,
    g: &CMat<T>,
    y: &CMat<T>,
    n: int,
    how: &Solver<T, S, D>,
    u: Seq<Cx<T>>,
    v: Seq<Cx<T>>,
)
    requires
        exact::<T>(),
        divides(how),
        p.shaped(n, n),
        q.shaped(n, n),
        f.wf(),
        f.rows == n,
        g.wf(),
        g.rows == n,
        loop_solved(p, q, f, x, how),
        loop_solved(p, q, g, y, how),
        u.len() == f.cols,
        v.len() == g.cols,
    ensures
        x.shaped(n, f.cols as int),
        y.shaped(n, g.cols as int),
        rounds(p, q, added(applied(f, u), applied(g, v)), added(applied(x, u), applied(y, v))),
{
    lemma_loop(p, q, f, x, n, how, u);
    lemma_loop(p, q, g, y, n, how, v);
    let (a, b) = (applied(x, u), applied(y, v));
    let (s, t) = (applied(f, u), applied(g, v));
    lemma_applied_adds(q, a, b);
    lemma_applied_adds(p, applied(q, a), applied(q, b));
    let (c, d) = (applied(p, applied(q, a)), applied(p, applied(q, b)));
    // (c + s) + (d + t) = (c + d) + (s + t)
    lemma_added(c, s, added(d, t));
    lemma_added(s, d, t);
    lemma_added(d, s, t);
    lemma_added(c, d, added(s, t));
}

/// The waves between two networks with a cascade: there are some.
proof fn lemma_meet<T: Scalar, S: Fn(Cx<T>) -> T, D: Fn(Cx<T>, Cx<T>) -> Cx<T>>(
    a: &Sparams<T>,
    b: &Sparams<T>,
    r: &Sparams<T>,
    how: &Solver<T, S, D>,
    u: Seq<Cx<T>>,
    v: Seq<Cx<T>>,
) -> (w: (Seq<Cx<T>>, Seq<Cx<T>>))
    requires
        exact::<T>(),
        divides(how),
        a.wf(),
        b.wf(),
        a.n_right == b.n_left,
        Sparams::cascades(a, b, r, how),
        u.len() == a.n_left,
        v.len() == b.n_right,
    ensures
        between(a, b, u, v, w.0, w.1),
{
    let n = a.n_right as int;
    let (k, e, d) = choose|k: Loops<T>, e: CMat<T>, d: CMat<T>|
        {
            &&& #[trigger] e.is_product(&b.s11, &a.s21)
            &&& #[trigger] d.is_product(&a.s22, &b.s12)
            &&& #[trigger] Sparams::looped(a, b, &k, &e, &d, how)
            &&& plus_product(&r.s11, &a.s11, &a.s12, &k.y_b11_a21)
            &&& r.s12.is_product(&a.s12, &k.y_b12)
            &&& r.s21.is_product(&b.s21, &k.x_a21)
            &&& plus_product(&r.s22, &b.s22, &b.s21, &k.x_a22_b12)
        };
    lemma_fed(&b.s11, &a.s22, &e, &k.y_b11_a21, &b.s12, &k.y_b12, n, how, u, v);
    let q = added(applied(&k.y_b11_a21, u), applied(&k.y_b12, v));
    let p = added(applied(&a.s21, u), applied(&a.s22, q));
    let (c, d) = (applied(&a.s21, u), applied(&a.s22, q));
    lemma_applied_product(&e, &b.s11, &a.s21, u);
    lemma_applied_adds(&b.s11, c, d);
    let (x, y, z) = (applied(&b.s11, c), applied(&b.s11, d), applied(&b.s12, v));
    // y + (x + z) = (x + y) + z
    lemma_added(y, x, z);
    (p, q)
}

/// The waves between two networks are what the cascade was made from, so it
/// sends out what the networks send out.
proof fn lemma_sends<T: Scalar, S: Fn(Cx<T>) -> T, D: Fn(Cx<T>, Cx<T>) -> Cx<T>>(
    a: &Sparams<T>,
    b: &Sparams<T>,
    r: &Sparams<T>,
    how: &Solver<T, S, D>,
    u: Seq<Cx<T>>,
    v: Seq<Cx<T>>,
    p: Seq<Cx<T>>,
    q: Seq<Cx<T>>,
)
    requires
        exact::<T>(),
        divides(how),
        inverts(how),
        a.wf(),
        b.wf(),
        a.n_right == b.n_left,
        Sparams::cascades(a, b, r, how),
        u.len() == a.n_left,
        v.len() == b.n_right,
        between(a, b, u, v, p, q),
    ensures
        leftward(r, u, v) == leftward(a, u, q),
        rightward(r, u, v) == rightward(b, p, v),
{
    let n = a.n_right as int;
    let (k, e, f) = choose|k: Loops<T>, e: CMat<T>, f: CMat<T>|
        {
            &&& #[trigger] e.is_product(&b.s11, &a.s21)
            &&& #[trigger] f.is_product(&a.s22, &b.s12)
            &&& #[trigger] Sparams::looped(a, b, &k, &e, &f, how)
            &&& plus_product(&r.s11, &a.s11, &a.s12, &k.y_b11_a21)
            &&& r.s12.is_product(&a.s12, &k.y_b12)
            &&& r.s21.is_product(&b.s21, &k.x_a21)
            &&& plus_product(&r.s22, &b.s22, &b.s21, &k.x_a22_b12)
        };
    let (c, d) = (applied(&a.s21, u), applied(&a.s22, q));
    let (g, h) = (applied(&b.s11, p), applied(&b.s12, v));
    lemma_applied_product(&e, &b.s11, &a.s21, u);
    lemma_applied_product(&f, &a.s22, &b.s12, v);
    // the wave to the left
    lemma_fed(&b.s11, &a.s22, &e, &k.y_b11_a21, &b.s12, &k.y_b12, n, how, u, v);
    let (s, t) = (applied(&k.y_b11_a21, u), applied(&k.y_b12, v));
    assert(rounds(&b.s11, &a.s22, added(applied(&e, u), h), q)) by {
        lemma_applied_adds(&b.s11, c, d);
        lemma_added(applied(&b.s11, d), applied(&b.s11, c), h);
    }
    lemma_one_round(
        &b.s11,
        &a.s22,
        &e,
        &k.y_b11_a21,
        n,
        how,
        added(applied(&e, u), h),
        q,
        added(s, t),
    );
    assert(leftward(r, u, v) == leftward(a, u, q)) by {
        let m = choose|m: CMat<T>| #[trigger]
            m.is_product(&a.s12, &k.y_b11_a21) && r.s11.is_sum(&a.s11, &m);
        lemma_applied_sum(&r.s11, &a.s11, &m, u);
        lemma_applied_product(&m, &a.s12, &k.y_b11_a21, u);
        lemma_applied_product(&r.s12, &a.s12, &k.y_b12, v);
        lemma_applied_adds(&a.s12, s, t);
        lemma_added(applied(&a.s11, u), applied(&a.s12, s), applied(&a.s12, t));
    }
    // the wave to the right
    lemma_fed(&a.s22, &b.s11, &a.s21, &k.x_a21, &f, &k.x_a22_b12, n, how, u, v);
    let (x, y) = (applied(&k.x_a21, u), applied(&k.x_a22_b12, v));
    assert(rounds(&a.s22, &b.s11, added(c, applied(&f, v)), p)) by {
        lemma_applied_adds(&a.s22, g, h);
        lemma_added(c, applied(&a.s22, g), applied(&a.s22, h));
        lemma_added(applied(&a.s22, g), c, applied(&a.s22, h));
    }
    lemma_one_round(
        &a.s22,
        &b.s11,
        &a.s21,
        &k.x_a21,
        n,
        how,
        added(c, applied(&f, v)),
        p,
        added(x, y),
    );
    assert(rightward(r, u, v) == rightward(b, p, v)) by {
        let m = choose|m: CMat<T>| #[trigger]
            m.is_product(&b.s21, &k.x_a22_b12) && r.s22.is_sum(&b.s22, &m);
        lemma_applied_sum(&r.s22, &b.s22, &m, v);
        lemma_applied_product(&m, &b.s21, &k.x_a22_b12, v);
        lemma_applied_product(&r.s21, &b.s21, &k.x_a21, u);
        lemma_applied_adds(&b.s21, x, y);
        let (i, j, l) = (applied(&b.s21, x), applied(&b.s22, v), applied(&b.s21, y));
        // i + (j + l) = (i + l) + j
        lemma_added(j, l, i);
        lemma_added(i, l, j);
    }
}

/// Both networks send out the same waves while `u` and `v` come in.
pub open spec fn answer_alike<T: Scalar>(
    r: &Sparams<T>,
    s: &Sparams<T>,
    u: Seq<Cx<T>>,
    v: Seq<Cx<T>>,
) -> bool {
    leftward(r, u, v) == leftward(s, u, v) && rightward(r, u, v) == rightward(s, u, v)
}

/// Both networks send out the same waves, whatever comes in.
pub open spec fn scatter_alike<T: Scalar>(r: &Sparams<T>, s: &Sparams<T>) -> bool {
    forall|u: Seq<Cx<T>>, v: Seq<Cx<T>>|
        u.len() == r.n_left && v.len() == r.n_right ==> #[trigger] answer_alike(r, s, u, v)
}

/// Networks that scatter alike have the same scattering matrix.
proof fn lemma_same_matrix<T: Scalar>(r: &Sparams<T>, s: &Sparams<T>)
    requires
        exact::<T>(),
        r.wf(),
        s.wf(),
        r.n_left == s.n_left,
        r.n_right == s.n_right,
        scatter_alike(r, s),
    ensures
        forall|i: int, j: int|
            0 <= i < r.n_left + r.n_right && 0 <= j < r.n_left + r.n_right
                ==> #[trigger] r.full_at(i, j) == s.full_at(i, j),
{
    let (l, n) = (r.n_left as int, r.n_right as int);
    assert forall|i: int, j: int| 0 <= i < l + n && 0 <= j < l + n implies #[trigger] r.full_at(
        i,
        j,
    ) == s.full_at(i, j) by {
        lemma_port_sent(r, i, j);
        lemma_port_sent(s, i, j);
        let (u, v) = if j < l {
            (on_port::<T>(l, j), still::<T>(n))
        } else {
            (still::<T>(l), on_port::<T>(n, j - l))
        };
        assert(answer_alike(r, s, u, v));
    }
}

/// A wave on one port comes out as a column of the scattering matrix.
proof fn lemma_port_sent<T: Scalar>(r: &Sparams<T>, i: int, j: int)
    requires
        exact::<T>(),
        r.wf(),
        0 <= i < r.n_left + r.n_right,
        0 <= j < r.n_left + r.n_right,
    ensures
        ({
            let (l, n) = (r.n_left as int, r.n_right as int);
            let (u, v) = if j < l {
                (on_port::<T>(l, j), still::<T>(n))
            } else {
                (still::<T>(l), on_port::<T>(n, j - l))
            };
            r.full_at(i, j) == (if i < l {
                leftward(r, u, v)[i]
            } else {
                rightward(r, u, v)[i - l]
            })
        }),
{
    let (l, n) = (r.n_left as int, r.n_right as int);
    lemma_applied_still(&r.s11);
    lemma_applied_still(&r.s12);
    lemma_applied_still(&r.s21);
    lemma_applied_still(&r.s22);
    if j < l {
        let u = on_port::<T>(l, j);
        if i < l {
            lemma_applied_port(&r.s11, i, j);
            lemma_added(applied(&r.s11, u), applied(&r.s11, u), applied(&r.s11, u));
        } else {
            lemma_applied_port(&r.s21, i - l, j);
            lemma_added(applied(&r.s21, u), applied(&r.s21, u), applied(&r.s21, u));
        }
    } else {
        let v = on_port::<T>(n, j - l);
        if i < l {
            lemma_applied_port(&r.s12, i, j - l);
            lemma_added(applied(&r.s12, v), applied(&r.s12, v), applied(&r.s12, v));
        } else {
            lemma_applied_port(&r.s22, i - l, j - l);
            lemma_added(applied(&r.s22, v), applied(&r.s22, v), applied(&r.s22, v));
        }
    }
}

/// A connection that sends everything through and nothing back.
pub open spec fn is_through<T: Scalar>(a: &Sparams<T>, n: int) -> bool {
    &&& a.wf()
    &&& a.n_left == n
    &&& a.n_right == n
    &&& a.s12.is_identity(n)
    &&& a.s21.is_identity(n)
    &&& forall|i: int, j: int|
        0 <= i < n && 0 <= j < n ==> #[trigger] a.s11.at(i, j) == Cx::<T>::nought()
    &&& forall|i: int, j: int|
        0 <= i < n && 0 <= j < n ==> #[trigger] a.s22.at(i, j) == Cx::<T>::nought()
}

proof fn lemma_through_sends<T: Scalar>(a: &Sparams<T>, n: int, u: Seq<Cx<T>>, v: Seq<Cx<T>>)
    requires
        exact::<T>(),
        is_through(a, n),
        u.len() == n,
        v.len() == n,
    ensures
        leftward(a, u, v) == v,
        rightward(a, u, v) == u,
{
    lemma_applied_dark(&a.s11, u);
    lemma_applied_dark(&a.s22, v);
    lemma_applied_eye(&a.s12, v);
    lemma_applied_eye(&a.s21, u);
    lemma_added(v, v, v);
    lemma_added(u, u, u);
}

/// A through connection in front of a network changes nothing.
pub proof fn through_is_neutral_before<
    T: Scalar,
    S: Fn(Cx<T>) -> T,
    D: Fn(Cx<T>, Cx<T>) -> Cx<T>,
>(a: &Sparams<T>, b: &Sparams<T>, r: &Sparams<T>, how: &Solver<T, S, D>)
    requires
        exact::<T>(),
        divides(how),
        inverts(how),
        is_through(a, b.n_left as int),
        b.wf(),
        r.wf(),
        Sparams::cascades(a, b, r, how),
    ensures
        forall|i: int, j: int|
            0 <= i < b.n_left + b.n_right && 0 <= j < b.n_left + b.n_right
                ==> #[trigger] r.full_at(i, j) == b.full_at(i, j),
{
    let n = b.n_left as int;
    assert forall|u: Seq<Cx<T>>, v: Seq<Cx<T>>|
        u.len() == r.n_left && v.len() == r.n_right implies #[trigger] answer_alike(
        r,
        b,
        u,
        v,
    ) by {
        let q = leftward(b, u, v);
        lemma_through_sends(a, n, u, q);
        assert(between(a, b, u, v, u, q));
        lemma_sends(a, b, r, how, u, v, u, q);
    }
    lemma_same_matrix(r, b);
}

/// A through connection behind a network changes nothing.
pub proof fn through_is_neutral_behind<
    T: Scalar,
    S: Fn(Cx<T>) -> T,
    D: Fn(Cx<T>, Cx<T>) -> Cx<T>,
>(a: &Sparams<T>, b: &Sparams<T>, r: &Sparams<T>, how: &Solver<T, S, D>)
    requires
        exact::<T>(),
        divides(how),
        inverts(how),
        a.wf(),
        is_through(b, a.n_right as int),
        r.wf(),
        Sparams::cascades(a, b, r, how),
    ensures
        forall|i: int, j: int|
            0 <= i < a.n_left + a.n_right && 0 <= j < a.n_left + a.n_right
                ==> #[trigger] r.full_at(i, j) == a.full_at(i, j),
{
    let n = a.n_right as int;
    assert forall|u: Seq<Cx<T>>, v: Seq<Cx<T>>|
        u.len() == r.n_left && v.len() == r.n_right implies #[trigger] answer_alike(
        r,
        a,
        u,
        v,
    ) by {
        let p = rightward(a, u, v);
        lemma_through_sends(b, n, p, v);
        assert(between(a, b, u, v, p, v));
        lemma_sends(a, b, r, how, u, v, p, v);
    }
    lemma_same_matrix(r, a);
}

/// A network that sends nothing back.
pub open spec fn is_matched<T: Scalar>(a: &Sparams<T>) -> bool {
    &&& forall|i: int, j: int|
        0 <= i < a.n_left && 0 <= j < a.n_left ==> #[trigger] a.s11.at(i, j) == Cx::<T>::nought()
    &&& forall|i: int, j: int|
        0 <= i < a.n_right && 0 <= j < a.n_right ==> #[trigger] a.s22.at(i, j)
            == Cx::<T>::nought()
}

/// Matched networks stay matched in a cascade, which sends waves through one
/// and then through the other.
pub proof fn matched_cascade_multiplies<
    T: Scalar,
    S: Fn(Cx<T>) -> T,
    D: Fn(Cx<T>, Cx<T>) -> Cx<T>,
>(
    a: &Sparams<T>,
    b: &Sparams<T>,
    r: &Sparams<T>,
    how: &Solver<T, S, D>,
    u: Seq<Cx<T>>,
    v: Seq<Cx<T>>,
)
    requires
        exact::<T>(),
        divides(how),
        inverts(how),
        a.wf(),
        b.wf(),
        a.n_right == b.n_left,
        is_matched(a),
        is_matched(b),
        Sparams::cascades(a, b, r, how),
        u.len() == a.n_left,
        v.len() == b.n_right,
    ensures
        leftward(r, u, v) == applied(&a.s12, applied(&b.s12, v)),
        rightward(r, u, v) == applied(&b.s21, applied(&a.s21, u)),
{
    let (p, q) = (applied(&a.s21, u), applied(&b.s12, v));
    lemma_applied_dark(&a.s22, q);
    lemma_applied_dark(&b.s11, p);
    lemma_added(p, p, p);
    lemma_added(q, q, q);
    assert(between(a, b, u, v, p, q));
    lemma_sends(a, b, r, how, u, v, p, q);
    lemma_applied_dark(&a.s11, u);
    lemma_applied_dark(&b.s22, v);
    let (x, y) = (applied(&a.s12, q), applied(&b.s21, p));
    lemma_added(x, x, x);
    lemma_added(y, y, y);
}

/// Grouping does not matter: where the cascades exist, joining `a` and `b`
/// first or `b` and `c` first gives the same scattering matrix.
pub proof fn star_is_associative<
    T: Scalar,
    S: Fn(Cx<T>) -> T,
    D: Fn(Cx<T>, Cx<T>) -> Cx<T>,
>(
    a: &Sparams<T>,
    b: &Sparams<T>,
    c: &Sparams<T>,
    ab: &Sparams<T>,
    bc: &Sparams<T>,
    left: &Sparams<T>,
    right: &Sparams<T>,
    how: &Solver<T, S, D>,
)
    requires
        exact::<T>(),
        divides(how),
        inverts(how),
        a.wf(),
        b.wf(),
        c.wf(),
        ab.wf(),
        bc.wf(),
        left.wf(),
        right.wf(),
        a.n_right == b.n_left,
        b.n_right == c.n_left,
        Sparams::cascades(a, b, ab, how),
        Sparams::cascades(ab, c, left, how),
        Sparams::cascades(b, c, bc, how),
        Sparams::cascades(a, bc, right, how),
    ensures
        forall|i: int, j: int|
            0 <= i < a.n_left + c.n_right && 0 <= j < a.n_left + c.n_right
                ==> #[trigger] left.full_at(i, j) == right.full_at(i, j),
{
    assert forall|u: Seq<Cx<T>>, v: Seq<Cx<T>>|
        u.len() == left.n_left && v.len() == left.n_right implies #[trigger] answer_alike(
        left,
        right,
        u,
        v,
    ) by {
        // the waves between `b` and `c`, then those between `a` and `b`
        let (p2, q2) = lemma_meet(ab, c, left, how, u, v);
        lemma_sends(ab, c, left, how, u, v, p2, q2);
        let (p1, q1) = lemma_meet(a, b, ab, how, u, q2);
        lemma_sends(a, b, ab, how, u, q2, p1, q1);
        // the same waves, seen by `b` and `c` joined first
        assert(between(b, c, p1, v, p2, q2));
        lemma_sends(b, c, bc, how, p1, v, p2, q2);
        assert(between(a, bc, u, v, p1, q1));
        lemma_sends(a, bc, right, how, u, v, p1, q1);
    }
    lemma_same_matrix(left, right);
}

/// One is of a size for a pivot, and not smaller than nothing.
pub open spec fn weighs<T: Scalar, S: Fn(Cx<T>) -> T, D: Fn(Cx<T>, Cx<T>) -> Cx<T>>(
    how: &Solver<T, S, D>,
) -> bool {
    &&& forall|s: T| #[trigger]
        call_ensures(how.size, (Cx::<T>::unit(),), s) ==> !s.less_than(how.tiny)
    &&& forall|s: T, t: T|
        #![trigger call_ensures(how.size, (Cx::<T>::unit(),), s), call_ensures(how.size, (Cx::<T>::nought(),), t)]
        call_ensures(how.size, (Cx::<T>::unit(),), s) && call_ensures(
            how.size,
            (Cx::<T>::nought(),),
            t,
        ) ==> !s.less_than(t)
}

proof fn lemma_first_is_largest<T: Scalar>(sizes: Seq<T>, from: int, to: int)
    requires
        forall|k: int| from < k < to ==> !sizes[from].less_than(#[trigger] sizes[k]),
    ensures
        largest(sizes, from, to) == from,
    decreases to - from,
{
    if to > from + 1 {
        lemma_first_is_largest(sizes, from, to - 1);
    }
}

/// Entries of the identity.
spec fn eye_like<T: Scalar>(m: &CMat<T>, n: int) -> bool {
    &&& m.rows == n
    &&& m.cols == n
    &&& forall|i: int, j: int|
        0 <= i < n && 0 <= j < n ==> #[trigger] m.at(i, j) == (if i == j {
            Cx::<T>::unit()
        } else {
            Cx::nought()
        })
}

/// The first entry of a column of the identity, from the diagonal down, is its
/// largest.
proof fn lemma_eye_pivot<T: Scalar, S: Fn(Cx<T>) -> T, D: Fn(Cx<T>, Cx<T>) -> Cx<T>>(
    m: &CMat<T>,
    n: int,
    col: int,
    sizes: Seq<T>,
    how: &Solver<T, S, D>,
)
    requires
        weighs(how),
        eye_like(m, n),
        0 <= col < n,
        sized(m, col, sizes, how.size),
    ensures
        largest(sizes, col, n) == col,
        !sizes[col].less_than(how.tiny),
{
    assert(m.at(col, col) == Cx::<T>::unit());
    assert(call_ensures(how.size, (Cx::<T>::unit(),), sizes[col]));
    assert forall|k: int| col < k < n implies !sizes[col].less_than(#[trigger] sizes[k]) by {
        assert(m.at(k, col) == Cx::<T>::nought());
        assert(call_ensures(how.size, (Cx::<T>::nought(),), sizes[k]));
    }
    lemma_first_is_largest(sizes, col, n);
}

/// Elimination leaves the identity as it is.
proof fn lemma_eye_stays<T: Scalar, S: Fn(Cx<T>) -> T, D: Fn(Cx<T>, Cx<T>) -> Cx<T>>(
    ms: Seq<(CMat<T>, CMat<T>)>,
    a: &CMat<T>,
    b: &CMat<T>,
    n: int,
    col: int,
    how: &Solver<T, S, D>,
    k: int,
)
    requires
        exact::<T>(),
        divides(how),
        weighs(how),
        eye_like(a, n),
        reduced(ms, a, b, col, how),
        0 <= k <= col <= n,
    ensures
        eye_like(&ms[k].0, n),
    decreases k,
{
    let (one, zero) = (Cx::<T>::unit(), Cx::<T>::nought());
    if k == 0 {
        assert(ms[0].0.same(a));
        assert forall|i: int, j: int| 0 <= i < n && 0 <= j < n implies #[trigger] ms[0].0.at(i, j)
            == (if i == j {
            one
        } else {
            zero
        }) by {
            assert(ms[0].0.at(i, j) == a.at(i, j));
        }
    } else {
        let c = k - 1;
        lemma_eye_stays(ms, a, b, n, col, how, c);
        assert(forward_ok(ms, c, how));
        let (sizes, f) = choose|sizes: Seq<T>, f: Seq<Cx<T>>|
            #[trigger] advanced(ms[c], ms[c + 1], c, sizes, f, how);
        let (m, m2) = (ms[c].0, ms[c + 1].0);
        lemma_eye_pivot(&m, n, c, sizes, how);
        assert(m.at(c, c) == one);
        assert(pivotal(one, how)) by {
            assert(call_ensures(how.size, (m.at(c, c),), sizes[c]));
        }
        assert forall|i: int, j: int| 0 <= i < n && 0 <= j < n implies #[trigger] m2.at(i, j) == (
        if i == j {
            one
        } else {
            zero
        }) by {
            assert(swapped(i, c, c) == i);
            if i > c {
                assert(m.at(i, c) == zero);
                assert(call_ensures(how.divide, (m.at(i, c), m.at(c, c)), f[i]));
                ring(f[i], one, zero);
                assert(f[i] == zero);
                let (x, y) = (m.at(i, j), m.at(c, j));
                ring(y, zero, zero);
                ring(zero, y, zero);
                ring(x, zero, zero);
                ring(zero, zero.negated(), zero);
                ring(zero.negated(), zero, zero);
            }
        }
    }
}

/// The identity is never singular.
proof fn lemma_eye_solvable<T: Scalar, S: Fn(Cx<T>) -> T, D: Fn(Cx<T>, Cx<T>) -> Cx<T>>(
    a: &CMat<T>,
    b: &CMat<T>,
    n: int,
    how: &Solver<T, S, D>,
)
    requires
        exact::<T>(),
        divides(how),
        weighs(how),
        eye_like(a, n),
    ensures
        !singular(a, b, how),
{
    if singular(a, b, how) {
        let (ms, col, sizes) = choose|ms: Seq<(CMat<T>, CMat<T>)>, col: int, sizes: Seq<T>|
            {
                &&& 0 <= col < a.rows
                &&& #[trigger] reduced(ms, a, b, col, how)
                &&& #[trigger] stuck(&ms[col].0, col, sizes, how)
            };
        lemma_eye_stays(ms, a, b, n, col, how, col);
        lemma_eye_pivot(&ms[col].0, n, col, sizes, how);
    }
}

/// A product with a matrix of zeros has zeros only.
proof fn lemma_dark_product<T: Scalar>(p: &CMat<T>, q: &CMat<T>, i: int, j: int, n: int, k: int)
    requires
        exact::<T>(),
        0 <= i < n,
        0 <= j < n,
        0 <= k <= n,
        (forall|x: int, y: int|
            0 <= x < n && 0 <= y < n ==> #[trigger] p.at(x, y) == Cx::<T>::nought()) || (forall|
            x: int,
            y: int,
        |
            0 <= x < n && 0 <= y < n ==> #[trigger] q.at(x, y) == Cx::<T>::nought()),
    ensures
        Matrix::dot(p, q, i, j, k) == Cx::<T>::nought(),
    decreases k,
{
    let zero = Cx::<T>::nought();
    if k > 0 {
        lemma_dark_product(p, q, i, j, n, k - 1);
        let (x, y) = (p.at(i, k - 1), q.at(k - 1, j));
        ring(x, zero, zero);
        ring(y, zero, zero);
        ring(zero, y, zero);
        ring(zero, zero, zero);
    }
}

/// A loop that nothing comes back from can be solved.
proof fn lemma_dark_loop<T: Scalar, S: Fn(Cx<T>) -> T, D: Fn(Cx<T>, Cx<T>) -> Cx<T>>(
    p: &CMat<T>,
    q: &CMat<T>,
    rhs: &CMat<T>,
    n: int,
    how: &Solver<T, S, D>,
)
    requires
        exact::<T>(),
        divides(how),
        weighs(how),
        p.shaped(n, n),
        q.shaped(n, n),
        (forall|x: int, y: int|
            0 <= x < n && 0 <= y < n ==> #[trigger] p.at(x, y) == Cx::<T>::nought()) || (forall|
            x: int,
            y: int,
        |
            0 <= x < n && 0 <= y < n ==> #[trigger] q.at(x, y) == Cx::<T>::nought()),
    ensures
        !loop_singular(p, q, rhs, how),
{
    let zero = Cx::<T>::nought();
    if loop_singular(p, q, rhs, how) {
        let m = choose|m: CMat<T>|
            #![trigger loop_matrix(p, q, &m)]
            loop_matrix(p, q, &m) && singular(&m, rhs, how);
        let (eye, pq) = choose|eye: CMat<T>, pq: CMat<T>|
            #![trigger eye.is_identity(p.rows as int), pq.is_product(p, q)]
            eye.is_identity(p.rows as int) && pq.is_product(p, q) && m.is_difference(&eye, &pq);
        assert forall|i: int, j: int| 0 <= i < n && 0 <= j < n implies #[trigger] m.at(i, j) == (
        if i == j {
            Cx::<T>::unit()
        } else {
            zero
        }) by {
            lemma_dark_product(p, q, i, j, n, n);
            assert(pq.at(i, j) == zero);
            let e = eye.at(i, j);
            ring(e, zero, zero);
            ring(zero, zero.negated(), zero);
            ring(zero.negated(), zero, zero);
        }
        lemma_eye_solvable(&m, rhs, n, how);
    }
}

/// A through connection is never resonant, on either side of a network.
pub proof fn through_never_resonates<
    T: Scalar,
    S: Fn(Cx<T>) -> T,
    D: Fn(Cx<T>, Cx<T>) -> Cx<T>,
>(a: &Sparams<T>, b: &Sparams<T>, how: &Solver<T, S, D>)
    requires
        exact::<T>(),
        divides(how),
        weighs(how),
        a.wf(),
        b.wf(),
        a.n_right == b.n_left,
        is_through(a, a.n_left as int) || is_through(b, b.n_left as int),
    ensures
        !Sparams::resonant(a, b, how),
{
    let n = a.n_right as int;
    if Sparams::resonant(a, b, how) {
        let rhs = choose|rhs: CMat<T>|
            #[trigger] rhs.wf() && (loop_singular(&b.s11, &a.s22, &rhs, how) || loop_singular(
                &a.s22,
                &b.s11,
                &rhs,
                how,
            ));
        lemma_dark_loop(&b.s11, &a.s22, &rhs, n, how);
        lemma_dark_loop(&a.s22, &b.s11, &rhs, n, how);
    }
}

} // verus!
