//! The angles that null an entry of a matrix.

use crate::complex::Cx;
use crate::exact::{exact, lifted, ring, ring_at};
use crate::photonic::clements::{row_times_t_inv, t_times_column, Null, Wave};
use crate::photonic::rebuild::{answers, nulls, Circle};
use crate::scalar::Scalar;
use vstd::prelude::*;

verus! {

/// The functions that angles are taken with.
pub struct Angles<M, A, G, S, C> {
    /// Absolute value.
    pub size: M,
    /// Angle of the point with this ordinate and abscissa.
    pub atan2: A,
    /// Argument.
    pub arg: G,
    pub sin: S,
    pub cos: C,
}

impl<M, A, G, S, C> Angles<M, A, G, S, C> {
    /// The functions take anything.
    pub open spec fn ready<T: Scalar>(&self) -> bool where
        M: Fn(Cx<T>) -> T,
        A: Fn(T, T) -> T,
        G: Fn(Cx<T>) -> T,
        S: Fn(T) -> T,
        C: Fn(T) -> T,
     {
        &&& forall|z: Cx<T>| #[trigger] call_requires(self.size, (z,))
        &&& forall|y: T, x: T| #[trigger] call_requires(self.atan2, (y, x))
        &&& forall|z: Cx<T>| #[trigger] call_requires(self.arg, (z,))
        &&& forall|x: T| #[trigger] call_requires(self.sin, (x,))
        &&& forall|x: T| #[trigger] call_requires(self.cos, (x,))
    }

    /// `t` is the angle whose tangent is the size of `p` over that of `q`.
    pub open spec fn tilts<T: Scalar>(&self, p: Cx<T>, q: Cx<T>, t: T) -> bool where
        M: Fn(Cx<T>) -> T,
        A: Fn(T, T) -> T,
     {
        exists|a: T, b: T|
            #![trigger call_ensures(self.atan2, (a, b), t)]
            call_ensures(self.size, (p,), a) && call_ensures(self.size, (q,), b) && call_ensures(
                self.atan2,
                (a, b),
                t,
            )
    }

    /// `t` is the argument of `p` less that of `q`.
    pub open spec fn lags<T: Scalar>(&self, p: Cx<T>, q: Cx<T>, t: T) -> bool where
        G: Fn(Cx<T>) -> T,
     {
        exists|x: T, y: T|
            #![trigger x.difference(y)]
            call_ensures(self.arg, (p,), x) && call_ensures(self.arg, (q,), y) && t
                == x.difference(y)
    }

    /// `w` is the wave of coupling angle `theta` and of a phase that is turned
    /// by `turn`.
    pub open spec fn is_wave<T: Scalar>(&self, theta: T, turn: T, w: Wave<T>) -> bool where
        S: Fn(T) -> T,
        C: Fn(T) -> T,
     {
        &&& call_ensures(self.sin, (theta,), w.sin)
        &&& call_ensures(self.cos, (theta,), w.cos)
        &&& call_ensures(self.cos, (turn,), w.phasor.re)
        &&& call_ensures(self.sin, (turn,), w.phasor.im)
    }

    /// `r` holds the angles for the left one of two neighbours `a` and `b` of a
    /// row, with the wave of the inverse block.
    pub open spec fn is_right<T: Scalar>(&self, a: Cx<T>, b: Cx<T>, r: Null<T>) -> bool where
        M: Fn(Cx<T>) -> T,
        A: Fn(T, T) -> T,
        G: Fn(Cx<T>) -> T,
        S: Fn(T) -> T,
        C: Fn(T) -> T,
     {
        &&& self.tilts(a, b, r.0)
        &&& self.lags(a, b, r.1)
        &&& self.is_wave(r.0, r.1.negative(), r.2)
    }

    /// `r` holds the angles for the lower one of two neighbours `a` and `b` of a
    /// column, with the wave of the block.
    pub open spec fn is_left<T: Scalar>(&self, a: Cx<T>, b: Cx<T>, r: Null<T>) -> bool where
        M: Fn(Cx<T>) -> T,
        A: Fn(T, T) -> T,
        G: Fn(Cx<T>) -> T,
        S: Fn(T) -> T,
        C: Fn(T) -> T,
     {
        &&& self.tilts(b, a, r.0)
        &&& self.lags(b.negated(), a, r.1)
        &&& self.is_wave(r.0, r.1, r.2)
    }

    fn wave<T: Scalar>(&self, theta: T, turn: T) -> (w: Wave<T>) where
        M: Fn(Cx<T>) -> T,
        A: Fn(T, T) -> T,
        G: Fn(Cx<T>) -> T,
        S: Fn(T) -> T,
        C: Fn(T) -> T,

        requires
            self.ready::<T>(),
        ensures
            self.is_wave(theta, turn, w),
    {
        let (sin, cos) = ((self.sin)(theta), (self.cos)(theta));
        let (re, im) = ((self.cos)(turn), (self.sin)(turn));
        Wave { sin, cos, phasor: Cx { re, im } }
    }

    /// Angles that null the left one of two neighbours of a row; the
    /// elimination applies the inverse block.
    pub fn null_right<T: Scalar>(&self, a: Cx<T>, b: Cx<T>) -> (r: Null<T>) where
        M: Fn(Cx<T>) -> T,
        A: Fn(T, T) -> T,
        G: Fn(Cx<T>) -> T,
        S: Fn(T) -> T,
        C: Fn(T) -> T,

        requires
            self.ready::<T>(),
        ensures
            self.is_right(a, b, r),
    {
        let (p, q) = ((self.size)(a), (self.size)(b));
        let theta = (self.atan2)(p, q);
        let (x, y) = ((self.arg)(a), (self.arg)(b));
        let phi = x.minus(y);
        let w = self.wave(theta, phi.opposite());
        (theta, phi, w)
    }

    /// Angles that null the lower one of two neighbours of a column.
    pub fn null_left<T: Scalar>(&self, a: Cx<T>, b: Cx<T>) -> (r: Null<T>) where
        M: Fn(Cx<T>) -> T,
        A: Fn(T, T) -> T,
        G: Fn(Cx<T>) -> T,
        S: Fn(T) -> T,
        C: Fn(T) -> T,

        requires
            self.ready::<T>(),
        ensures
            self.is_left(a, b, r),
    {
        let (p, q) = ((self.size)(b), (self.size)(a));
        let theta = (self.atan2)(p, q);
        let (x, y) = ((self.arg)(b.opposite()), (self.arg)(a));
        let phi = x.minus(y);
        let w = self.wave(theta, phi);
        (theta, phi, w)
    }

    /// The functions are those of a circle: sine and cosine are its own, a
    /// number is its size times the phasor of its argument, and the tangent of
    /// `atan2` is the quotient that it is asked for.
    pub open spec fn true_to<T: Scalar>(&self, o: Circle<T>) -> bool where
        M: Fn(Cx<T>) -> T,
        A: Fn(T, T) -> T,
        G: Fn(Cx<T>) -> T,
        S: Fn(T) -> T,
        C: Fn(T) -> T,
     {
        &&& forall|x: T, y: T| #[trigger] call_ensures(self.sin, (x,), y) ==> y == (o.sin)(x)
        &&& forall|x: T, y: T| #[trigger] call_ensures(self.cos, (x,), y) ==> y == (o.cos)(x)
        &&& forall|x: T| #[trigger] (o.turn)(x) == (Cx { re: (o.cos)(x), im: (o.sin)(x) })
        &&& forall|x: T| #[trigger] (o.back)(x) == (o.turn)(x.negative())
        &&& forall|x: T, y: T| #[trigger]
            (o.turn)(x.difference(y)) == (o.turn)(x).product((o.back)(y))
        &&& forall|x: T, y: T| #[trigger]
            (o.back)(x.difference(y)) == (o.back)(x).product((o.turn)(y))
        &&& forall|z: Cx<T>, r: T, t: T|
            #![trigger call_ensures(self.size, (z,), r), call_ensures(self.arg, (z,), t)]
            call_ensures(self.size, (z,), r) && call_ensures(self.arg, (z,), t) ==> z == lifted(
                r,
            ).product((o.turn)(t))
        &&& forall|z: Cx<T>, r: T|
            call_ensures(self.size, (z,), r) ==> #[trigger] call_ensures(
                self.size,
                (z.negated(),),
                r,
            )
        &&& forall|y: T, x: T, t: T| #[trigger]
            call_ensures(self.atan2, (y, x), t) ==> lifted(y).product(lifted((o.cos)(t))) == lifted(
                x,
            ).product(lifted((o.sin)(t)))
    }
}

/// What is subtracted from itself is nothing.
proof fn lemma_less_itself<T: Scalar>(a: Cx<T>)
    requires
        exact::<T>(),
    ensures
        a.difference(a) == Cx::<T>::nought(),
        a.negated().sum(a) == Cx::<T>::nought(),
{
    ring(a, a, a);
    ring(a.negated(), a, a);
    ring(a, a.negated(), a);
}

/// Angles of a row null its left entry.
proof fn lemma_right_nulls<T, M, A, G, S, C>(
    k: &Angles<M, A, G, S, C>,
    o: Circle<T>,
    pi: T,
    a: Cx<T>,
    b: Cx<T>,
    r: Null<T>,
) where
    T: Scalar,
    M: Fn(Cx<T>) -> T,
    A: Fn(T, T) -> T,
    G: Fn(Cx<T>) -> T,
    S: Fn(T) -> T,
    C: Fn(T) -> T,

    requires
        exact::<T>(),
        o.wf(pi),
        k.true_to(o),
        k.is_right(a, b, r),
    ensures
        r.2 == (Wave { sin: (o.sin)(r.0), cos: (o.cos)(r.0), phasor: (o.back)(r.1) }),
        row_times_t_inv(a, b, r.2.sin, r.2.cos, r.2.phasor).0 == Cx::<T>::nought(),
{
    let (p, q) = choose|p: T, q: T|
        #![trigger call_ensures(k.atan2, (p, q), r.0)]
        call_ensures(k.size, (a,), p) && call_ensures(k.size, (b,), q) && call_ensures(
            k.atan2,
            (p, q),
            r.0,
        );
    let (x, y) = choose|x: T, y: T|
        #![trigger x.difference(y)]
        call_ensures(k.arg, (a,), x) && call_ensures(k.arg, (b,), y) && r.1 == x.difference(y);
    assert(call_ensures(k.size, (a,), p) && call_ensures(k.arg, (a,), x));
    assert(call_ensures(k.size, (b,), q) && call_ensures(k.arg, (b,), y));
    let (lp, lq) = (lifted(p), lifted(q));
    let (tx, ty) = ((o.turn)(x), (o.turn)(y));
    let bx = (o.back)(x);
    let e = (o.back)(r.1);
    assert(e == (o.turn)(r.1.negative()));
    assert(e == bx.product(ty));
    assert(o.round(x, x));
    let (s, c) = (lifted(r.2.sin), lifted(r.2.cos));
    // a.e = p.ty
    assert(a.product(e) == lp.product(ty)) by {
        ring(lp, tx, e);
        ring(tx, bx, ty);
        ring(ty, ty, ty);
        ring(Cx::<T>::unit(), ty, ty);
        assert(tx.product(bx.product(ty)) == ty);
    }
    assert(a.product(e).product(c) == b.product(s)) by {
        ring(lp, ty, c);
        ring(ty, c, c);
        ring(lp, c, ty);
        ring(lq, s, ty);
        ring(lq, ty, s);
        ring(ty, s, s);
        ring(lp, c, c);
        ring(lq, s, s);
        assert(lp.product(c) == lq.product(s));
        assert(lp.product(ty).product(c) == lp.product(c).product(ty));
        assert(lq.product(ty).product(s) == lq.product(s).product(ty));
    }
    assert(ring_at(a.product(e), b, b, r.2.cos));
    assert(ring_at(b, b, b, r.2.sin));
    lemma_less_itself(b.product(s));
}

/// Angles of a column null its lower entry.
proof fn lemma_left_nulls<T, M, A, G, S, C>(
    k: &Angles<M, A, G, S, C>,
    o: Circle<T>,
    pi: T,
    a: Cx<T>,
    b: Cx<T>,
    r: Null<T>,
) where
    T: Scalar,
    M: Fn(Cx<T>) -> T,
    A: Fn(T, T) -> T,
    G: Fn(Cx<T>) -> T,
    S: Fn(T) -> T,
    C: Fn(T) -> T,

    requires
        exact::<T>(),
        o.wf(pi),
        k.true_to(o),
        k.is_left(a, b, r),
    ensures
        r.2 == o.wave(r.0, r.1),
        t_times_column(a, b, r.2.sin, r.2.cos, r.2.phasor).1 == Cx::<T>::nought(),
{
    let (p, q) = choose|p: T, q: T|
        #![trigger call_ensures(k.atan2, (p, q), r.0)]
        call_ensures(k.size, (b,), p) && call_ensures(k.size, (a,), q) && call_ensures(
            k.atan2,
            (p, q),
            r.0,
        );
    let nb = b.negated();
    let (x, y) = choose|x: T, y: T|
        #![trigger x.difference(y)]
        call_ensures(k.arg, (nb,), x) && call_ensures(k.arg, (a,), y) && r.1 == x.difference(y);
    assert(call_ensures(k.size, (a,), q) && call_ensures(k.arg, (a,), y));
    assert(call_ensures(k.size, (nb,), p) && call_ensures(k.arg, (nb,), x));
    let (lp, lq) = (lifted(p), lifted(q));
    let (tx, ty) = ((o.turn)(x), (o.turn)(y));
    let by = (o.back)(y);
    let e = (o.turn)(r.1);
    assert(e == tx.product(by));
    assert(o.round(y, y));
    let (s, c) = (lifted(r.2.sin), lifted(r.2.cos));
    // e.a = q.tx
    assert(e.product(a) == lq.product(tx)) by {
        ring(e, a, a);
        ring(lq, ty, e);
        ring(ty, e, e);
        ring(tx, by, ty);
        ring(by, ty, ty);
        ring(tx, tx, tx);
        assert(tx.product(by).product(ty) == tx);
        assert(e.product(ty) == tx);
        assert(ty.product(e) == tx);
        assert(a.product(e) == lq.product(ty.product(e)));
    }
    let nc = nb.product(c);
    assert(e.product(a).product(s) == nc) by {
        ring(lq, tx, s);
        ring(tx, s, s);
        ring(lq, s, tx);
        ring(lp, c, tx);
        ring(lp, tx, c);
        ring(tx, c, c);
        assert(lp.product(c) == lq.product(s));
        assert(lq.product(tx).product(s) == lq.product(s).product(tx));
        assert(lp.product(tx).product(c) == lp.product(c).product(tx));
    }
    ring(b, c, c);
    assert(ring_at(e.product(a), b, b, r.2.sin));
    assert(ring_at(b, b, b, r.2.cos));
    lemma_less_itself(b.product(c));
}

/// Angles taken this way null: with functions that are true to a circle, what
/// `right` and `left` answer nulls the entry that they are asked for, and comes
/// with the wave that belongs to it.
pub proof fn angles_null<T, M, A, G, S, C, R, L>(
    k: &Angles<M, A, G, S, C>,
    o: Circle<T>,
    pi: T,
    right: R,
    left: L,
) where
    T: Scalar,
    M: Fn(Cx<T>) -> T,
    A: Fn(T, T) -> T,
    G: Fn(Cx<T>) -> T,
    S: Fn(T) -> T,
    C: Fn(T) -> T,
    R: Fn(Cx<T>, Cx<T>) -> Null<T>,
    L: Fn(Cx<T>, Cx<T>) -> Null<T>,

    requires
        exact::<T>(),
        o.wf(pi),
        k.true_to(o),
        forall|a: Cx<T>, b: Cx<T>, r: Null<T>| #[trigger]
            call_ensures(right, (a, b), r) ==> k.is_right(a, b, r),
        forall|a: Cx<T>, b: Cx<T>, r: Null<T>| #[trigger]
            call_ensures(left, (a, b), r) ==> k.is_left(a, b, r),
    ensures
        answers(o, right, left),
        nulls(right, left),
{
    assert forall|a: Cx<T>, b: Cx<T>, theta: T, phi: T, w: Wave<T>| #[trigger]
        call_ensures(right, (a, b), (theta, phi, w)) implies w == (Wave {
        sin: (o.sin)(theta),
        cos: (o.cos)(theta),
        phasor: (o.back)(phi),
    }) && row_times_t_inv(a, b, w.sin, w.cos, w.phasor).0 == Cx::<T>::nought() by {
        lemma_right_nulls(k, o, pi, a, b, (theta, phi, w));
    }
    assert forall|a: Cx<T>, b: Cx<T>, theta: T, phi: T, w: Wave<T>| #[trigger]
        call_ensures(left, (a, b), (theta, phi, w)) implies w == o.wave(theta, phi)
        && t_times_column(a, b, w.sin, w.cos, w.phasor).1 == Cx::<T>::nought() by {
        lemma_left_nulls(k, o, pi, a, b, (theta, phi, w));
    }
}

} // verus!
