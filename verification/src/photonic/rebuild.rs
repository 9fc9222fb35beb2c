//! A mesh rebuilds its target: read backwards, the nullings of a matrix are
//! the blocks of the mesh that stands for it.
//!
//! The law is one of exact arithmetic, so it speaks of scalars whose complex
//! numbers are a commutative ring.

use crate::complex::Cx;
use crate::exact::{conjugation, exact, lemma_common_factor, lemma_partners, lemma_past};
use crate::exact::{lifted, ring, ring_at};
use crate::matrix::Matrix;
use crate::photonic::clements::{assembles, columns_mapped, commuted, eliminates, left_step};
use crate::photonic::clements::{decomposes, gram, on_modes, realizes, right_step, rights};
use crate::photonic::clements::{row_times_t, row_times_t_inv, step_ok, steps_before};
use crate::photonic::clements::{t_times_column, target, ClementsMesh, MeshError, MziSetting};
use crate::photonic::clements::{Null, Nulling, Wave};
use crate::scalar::Scalar;
use vstd::prelude::*;

verus! {

/// Sine, cosine and phasor of an angle, and the inverse phasor.
#[verifier::reject_recursive_types(T)]
pub struct Circle<T> {
    pub sin: spec_fn(T) -> T,
    pub cos: spec_fn(T) -> T,
    pub turn: spec_fn(T) -> Cx<T>,
    pub back: spec_fn(T) -> Cx<T>,
}

impl<T: Scalar> Circle<T> {
    /// The wave of an interferometer at these angles.
    pub open spec fn wave(self, theta: T, phi: T) -> Wave<T> {
        Wave { sin: (self.sin)(theta), cos: (self.cos)(theta), phasor: (self.turn)(phi) }
    }

    /// At every angle sine and cosine lie on the unit circle, and turning back
    /// undoes turning: it is turning in the mirror.
    pub open spec fn round(self, theta: T, phi: T) -> bool {
        let (s, c) = (lifted((self.sin)(theta)), lifted((self.cos)(theta)));
        &&& c.product(c).sum(s.product(s)) == Cx::<T>::unit()
        &&& (self.turn)(phi).product((self.back)(phi)) == Cx::<T>::unit()
        &&& (self.turn)(phi).mirrored() == (self.back)(phi)
        &&& (self.back)(phi).mirrored() == (self.turn)(phi)
    }

    /// The phasor of `x - y + pi` is the phasor of `x` turned back by `y` and
    /// by half a turn.
    pub open spec fn adds_up(self, x: T, y: T, pi: T) -> bool {
        (self.turn)(x.difference(y).sum(pi)) == (self.turn)(x).product((self.back)(y)).negated()
    }

    pub open spec fn wf(self, pi: T) -> bool {
        &&& forall|theta: T, phi: T| #[trigger] self.round(theta, phi)
        &&& forall|x: T, y: T| #[trigger] self.adds_up(x, y, pi)
    }
}

/// `p.0 . x + p.1 . y`.
pub open spec fn mix<T: Scalar>(p: (Cx<T>, Cx<T>), x: Cx<T>, y: Cx<T>) -> Cx<T> {
    p.0.product(x).sum(p.1.product(y))
}

/// Mixing down and mixing across commute.
proof fn lemma_mixes_commute<T: Scalar>(
    p: (Cx<T>, Cx<T>),
    q: (Cx<T>, Cx<T>),
    a: Cx<T>,
    b: Cx<T>,
    c: Cx<T>,
    d: Cx<T>,
)
    requires
        exact::<T>(),
    ensures
        mix(p, mix(q, a, b), mix(q, c, d)) == mix(q, mix(p, a, c), mix(p, b, d)),
{
    let (x, y, z, w) = (q.0.product(a), q.1.product(b), q.0.product(c), q.1.product(d));
    ring(p.0, x, y);
    ring(p.1, z, w);
    lemma_partners(p.0.product(x), p.0.product(y), p.1.product(z), p.1.product(w));
    lemma_past(p.0, q.0, a);
    lemma_past(p.0, q.1, b);
    lemma_past(p.1, q.0, c);
    lemma_past(p.1, q.1, d);
    ring(q.0, p.0.product(a), p.1.product(c));
    ring(q.1, p.0.product(b), p.1.product(d));
}

/// A mix of two mixes is a mix.
proof fn lemma_mix_of_mixes<T: Scalar>(
    p: (Cx<T>, Cx<T>),
    q: (Cx<T>, Cx<T>),
    r: (Cx<T>, Cx<T>),
    a: Cx<T>,
    b: Cx<T>,
)
    requires
        exact::<T>(),
    ensures
        mix(p, mix(q, a, b), mix(r, a, b)) == mix((mix(p, q.0, r.0), mix(p, q.1, r.1)), a, b),
{
    let (x, y, z, w) = (q.0.product(a), q.1.product(b), r.0.product(a), r.1.product(b));
    ring(p.0, x, y);
    ring(p.1, z, w);
    lemma_partners(p.0.product(x), p.0.product(y), p.1.product(z), p.1.product(w));
    ring(p.0, q.0, a);
    ring(p.1, r.0, a);
    ring(p.0, q.1, b);
    ring(p.1, r.1, b);
    lemma_common_factor(p.0.product(q.0), p.1.product(r.0), a);
    lemma_common_factor(p.0.product(q.1), p.1.product(r.1), b);
}

/// A mix with weights one and zero is its first part, with zero and one its
/// second.
proof fn lemma_mix_picks<T: Scalar>(a: Cx<T>, b: Cx<T>)
    requires
        exact::<T>(),
    ensures
        mix((Cx::unit(), Cx::nought()), a, b) == a,
        mix((Cx::nought(), Cx::unit()), a, b) == b,
{
    let (one, zero) = (Cx::<T>::unit(), Cx::<T>::nought());
    ring(a, one, zero);
    ring(b, one, zero);
    ring(one, a, a);
    ring(one, b, b);
    ring(zero, a, a);
    ring(zero, b, b);
    ring(zero, b, zero);
    ring(b, zero, zero);
    ring(a, zero, zero);
}

/// Weights of the two outputs of a block.
pub type Weights<T> = ((Cx<T>, Cx<T>), (Cx<T>, Cx<T>));

/// Columns times a block: `(a.cos + b.sin).e` and `-a.sin + b.cos`.
pub open spec fn forth<T: Scalar>(w: Wave<T>) -> Weights<T> {
    let (s, c, e) = (lifted(w.sin), lifted(w.cos), w.phasor);
    ((c.product(e), s.product(e)), (s.negated(), c))
}

/// Columns times the inverse of a block, and a block times rows.
pub open spec fn sent<T: Scalar>(w: Wave<T>) -> Weights<T> {
    let (s, c, e) = (lifted(w.sin), lifted(w.cos), w.phasor);
    ((e.product(c), s.negated()), (e.product(s), c))
}

pub proof fn lemma_forth<T: Scalar>(a: Cx<T>, b: Cx<T>, w: Wave<T>)
    requires
        exact::<T>(),
    ensures
        row_times_t(a, b, w.sin, w.cos, w.phasor) == (
            mix(forth(w).0, a, b),
            mix(forth(w).1, a, b),
        ),
{
    let (s, c, e) = (lifted(w.sin), lifted(w.cos), w.phasor);
    lemma_scaled(a, w.cos);
    lemma_scaled(b, w.sin);
    lemma_scaled(b, w.cos);
    lemma_scaled(a.negated(), w.sin);
    let (x, y) = (a.product(c), b.product(s));
    lemma_common_factor(x, y, e);
    ring(a, c, e);
    ring(b, s, e);
    ring(a, c.product(e), e);
    ring(b, s.product(e), e);
    ring(a, s, e);
    ring(s, a, e);
    ring(b, c, e);
}

proof fn lemma_scaled<T: Scalar>(a: Cx<T>, x: T)
    requires
        exact::<T>(),
    ensures
        a.scaled(x) == a.product(lifted(x)),
{
    assert(ring_at(a, a, a, x));
}

pub proof fn lemma_sent<T: Scalar>(a: Cx<T>, b: Cx<T>, w: Wave<T>)
    requires
        exact::<T>(),
    ensures
        row_times_t_inv(a, b, w.sin, w.cos, w.phasor) == (
            mix(sent(w).0, a, b),
            mix(sent(w).1, a, b),
        ),
        t_times_column(a, b, w.sin, w.cos, w.phasor) == (mix(sent(w).0, a, b), mix(sent(w).1, a, b)),
{
    let (s, c, e) = (lifted(w.sin), lifted(w.cos), w.phasor);
    ring(a, e, c);
    ring(e, a, c);
    lemma_scaled(a.product(e), w.cos);
    lemma_scaled(a.product(e), w.sin);
    lemma_scaled(b, w.sin);
    lemma_scaled(b, w.cos);
    ring(a, e.product(c), c);
    ring(a, e, s);
    ring(a, e.product(s), c);
    ring(a.product(e).product(c), b.product(s), c);
    ring(b, s, c);
    ring(s, b, c);
    ring(b, c, c);
}

/// A square table of complex numbers.
pub type Table<T> = spec_fn(int, int) -> Cx<T>;

pub open spec fn within(n: int, r: int, c: int) -> bool {
    0 <= r < n && 0 <= c < n
}

pub open spec fn entry<T: Scalar>(t: Table<T>, r: int, c: int) -> Cx<T> {
    t(r, c)
}

/// Tables with the same entries are the same.
proof fn lemma_same_table<T: Scalar>(x: Table<T>, y: Table<T>)
    requires
        forall|r: int, c: int| #[trigger] entry(x, r, c) == entry(y, r, c),
    ensures
        x == y,
{
    assert forall|r: int, c: int| #[trigger] x(r, c) == y(r, c) by {
        assert(entry(x, r, c) == entry(y, r, c));
    }
    assert(x =~= y);
}

/// The table of a matrix; zero outside.
pub open spec fn table<T: Scalar>(n: int, a: &Matrix<Cx<T>>) -> Table<T> {
    |r: int, c: int|
        if within(n, r, c) {
            a.at(r, c)
        } else {
            Cx::nought()
        }
}

/// Columns m and m+1 mixed.
pub open spec fn across<T: Scalar>(n: int, t: Table<T>, m: int, p: Weights<T>) -> Table<T> {
    |r: int, c: int|
        if !within(n, r, c) {
            Cx::nought()
        } else if c == m {
            mix(p.0, t(r, m), t(r, m + 1))
        } else if c == m + 1 {
            mix(p.1, t(r, m), t(r, m + 1))
        } else {
            t(r, c)
        }
}

/// Rows m and m+1 mixed.
pub open spec fn down<T: Scalar>(n: int, t: Table<T>, m: int, p: Weights<T>) -> Table<T> {
    |r: int, c: int|
        if !within(n, r, c) {
            Cx::nought()
        } else if r == m {
            mix(p.0, t(m, c), t(m + 1, c))
        } else if r == m + 1 {
            mix(p.1, t(m, c), t(m + 1, c))
        } else {
            t(r, c)
        }
}

/// Every row multiplied by its own number.
pub open spec fn screened<T: Scalar>(n: int, t: Table<T>, z: Seq<Cx<T>>) -> Table<T> {
    |r: int, c: int|
        if within(n, r, c) {
            z[r].product(t(r, c))
        } else {
            Cx::nought()
        }
}

/// The diagonal table of these numbers.
pub open spec fn diagonal<T: Scalar>(n: int, z: Seq<Cx<T>>) -> Table<T> {
    |r: int, c: int|
        if within(n, r, c) && r == c {
            z[r]
        } else {
            Cx::nought()
        }
}

/// Mixing rows and mixing columns commute.
proof fn lemma_commute<T: Scalar>(
    n: int,
    t: Table<T>,
    m: int,
    p: Weights<T>,
    k: int,
    q: Weights<T>,
)
    requires
        exact::<T>(),
        0 <= m && m + 1 < n,
        0 <= k && k + 1 < n,
    ensures
        down(n, across(n, t, k, q), m, p) == across(n, down(n, t, m, p), k, q),
{
    let x = down(n, across(n, t, k, q), m, p);
    let y = across(n, down(n, t, m, p), k, q);
    assert forall|r: int, c: int| #[trigger] entry(x, r, c) == entry(y, r, c) by {
        let (a, b, d, e) = (t(m, k), t(m, k + 1), t(m + 1, k), t(m + 1, k + 1));
        lemma_mixes_commute(p.0, q.0, a, b, d, e);
        lemma_mixes_commute(p.0, q.1, a, b, d, e);
        lemma_mixes_commute(p.1, q.0, a, b, d, e);
        lemma_mixes_commute(p.1, q.1, a, b, d, e);
    }
    lemma_same_table(x, y);
}

/// Weights that undo others.
pub open spec fn undoes<T: Scalar>(p: Weights<T>, q: Weights<T>) -> bool {
    let (one, zero) = (Cx::<T>::unit(), Cx::<T>::nought());
    &&& mix(p.0, q.0.0, q.1.0) == one
    &&& mix(p.0, q.0.1, q.1.1) == zero
    &&& mix(p.1, q.0.0, q.1.0) == zero
    &&& mix(p.1, q.0.1, q.1.1) == one
}

/// A table that is zero outside.
pub open spec fn bounded<T: Scalar>(n: int, t: Table<T>) -> bool {
    forall|r: int, c: int| !within(n, r, c) ==> #[trigger] t(r, c) == Cx::<T>::nought()
}

proof fn lemma_undone<T: Scalar>(n: int, t: Table<T>, m: int, p: Weights<T>, q: Weights<T>)
    requires
        exact::<T>(),
        0 <= m && m + 1 < n,
        undoes(p, q),
        bounded(n, t),
    ensures
        across(n, across(n, t, m, q), m, p) == t,
        down(n, down(n, t, m, q), m, p) == t,
{
    let x = across(n, across(n, t, m, q), m, p);
    assert forall|r: int, c: int| #[trigger] entry(x, r, c) == entry(t, r, c) by {
        let (a, b) = (t(r, m), t(r, m + 1));
        lemma_mix_of_mixes(p.0, q.0, q.1, a, b);
        lemma_mix_of_mixes(p.1, q.0, q.1, a, b);
        lemma_mix_picks(a, b);
    }
    lemma_same_table(x, t);
    let y = down(n, down(n, t, m, q), m, p);
    assert forall|r: int, c: int| #[trigger] entry(y, r, c) == entry(t, r, c) by {
        let (a, b) = (t(m, c), t(m + 1, c));
        lemma_mix_of_mixes(p.0, q.0, q.1, a, b);
        lemma_mix_of_mixes(p.1, q.0, q.1, a, b);
        lemma_mix_picks(a, b);
    }
    lemma_same_table(y, t);
}

/// Minus times minus.
proof fn lemma_signs<T: Scalar>(a: Cx<T>, b: Cx<T>)
    requires
        exact::<T>(),
    ensures
        a.negated().product(b.negated()) == a.product(b),
        a.product(b.negated()) == a.product(b).negated(),
        a.negated().negated() == a,
{
    let zero = Cx::<T>::nought();
    let m = a.negated();
    // -(-a) = (-(-a)) + (a + -a) = a
    ring(a, m, m.negated());
    ring(m, m.negated(), a);
    ring(a, m, zero);
    ring(m.negated(), zero, zero);
    ring(zero, m.negated(), zero);
    ring(a, zero, zero);
    assert(a.sum(m).sum(m.negated()) == a.sum(m.sum(m.negated())));
    assert(m.negated() == a);
    ring(a, b.negated(), zero);
    ring(b, a, zero);
    ring(b.negated(), a, zero);
    ring(a, b, zero);
    assert(a.product(b.negated()) == a.product(b).negated());
    ring(a, b.negated(), zero);
    let n = a.product(b);
    let o = n.negated();
    ring(n, o, o.negated());
    ring(o, o.negated(), n);
    ring(n, o, zero);
    ring(o.negated(), zero, zero);
    ring(zero, o.negated(), zero);
    assert(n.sum(o).sum(o.negated()) == n.sum(o.sum(o.negated())));
    assert(o.negated() == n);
}

/// A block with the phasor `e` undoes one with the inverse phasor `f`.
proof fn lemma_block_undoes<T: Scalar>(sin: T, cos: T, e: Cx<T>, f: Cx<T>)
    requires
        exact::<T>(),
        e.product(f) == Cx::<T>::unit(),
        lifted(cos).product(lifted(cos)).sum(lifted(sin).product(lifted(sin)))
            == Cx::<T>::unit(),
    ensures
        undoes(
            forth(Wave { sin, cos, phasor: e }),
            sent(Wave { sin, cos, phasor: f }),
        ),
{
    let (s, c) = (lifted(sin), lifted(cos));
    let one = Cx::<T>::unit();
    // (c.e).(f.c) + (s.e).(f.s)
    lemma_four(c, e, f);
    lemma_four(s, e, f);
    // (c.e).(-s) + (s.e).c
    lemma_signs(c.product(e), s);
    ring(c, e, s);
    ring(e, s, c);
    ring(c, s.product(e), s);
    ring(s, e, c);
    ring(s.product(e), c, c);
    ring(e, c, s);
    ring(c, e.product(s), s);
    let x = c.product(e).product(s);
    assert(x == s.product(e).product(c)) by {
        ring(c, e, s);
        ring(e, s, c);
        ring(s, e, c);
        ring(s.product(e), c, c);
    }
    ring(x.negated(), x, x);
    ring(x, x.negated(), x);
    // (-s).(f.c) + c.(f.s)
    let y = s.product(f.product(c));
    assert(y == c.product(f.product(s))) by {
        ring(f, c, s);
        ring(f, s, c);
        lemma_past(s, f, c);
        lemma_past(c, f, s);
        ring(s, c, c);
    }
    ring(s, f.product(c), c);
    ring(y.negated(), y, y);
    ring(y, y.negated(), y);
    // (-s).(-s) + c.c
    lemma_signs(s, s);
    ring(s.product(s), c.product(c), c);
}

/// `(a.e).(f.a) = a.a` where `e.f` is one.
proof fn lemma_four<T: Scalar>(a: Cx<T>, e: Cx<T>, f: Cx<T>)
    requires
        exact::<T>(),
        e.product(f) == Cx::<T>::unit(),
    ensures
        a.product(e).product(f.product(a)) == a.product(a),
{
    ring(a, e, f.product(a));
    ring(e, f, a);
    ring(a, Cx::unit(), a);
    ring(Cx::unit(), a, a);
}

/// The phasors of these angles.
pub open spec fn turns<T: Scalar>(o: Circle<T>, a: Seq<T>) -> Seq<Cx<T>> {
    a.map_values(|x: T| (o.turn)(x))
}

/// The weights of a programmed block.
pub open spec fn block<T: Scalar>(o: Circle<T>, x: MziSetting<T>) -> Weights<T> {
    forth(o.wave(x.theta, x.phi))
}

/// A table times the blocks of a list, from the left of the product to the
/// right.
pub open spec fn built<T: Scalar>(
    n: int,
    t: Table<T>,
    list: Seq<MziSetting<T>>,
    o: Circle<T>,
) -> Table<T>
    decreases list.len(),
{
    if list.len() == 0 {
        t
    } else {
        across(
            n,
            built(n, t, list.drop_last(), o),
            list.last().mode as int,
            block(o, list.last()),
        )
    }
}

/// The first block of a list may be multiplied on first.
proof fn lemma_built_first<T: Scalar>(
    n: int,
    t: Table<T>,
    x: MziSetting<T>,
    list: Seq<MziSetting<T>>,
    o: Circle<T>,
)
    ensures
        built(n, t, seq![x] + list, o) == built(
            n,
            across(n, t, x.mode as int, block(o, x)),
            list,
            o,
        ),
    decreases list.len(),
{
    let all = seq![x] + list;
    if list.len() == 0 {
        assert(all =~= seq![x]);
        assert(all.drop_last() =~= Seq::<MziSetting<T>>::empty());
        assert(built(n, t, all.drop_last(), o) == t);
    } else {
        lemma_built_first(n, t, x, list.drop_last(), o);
        assert(all.drop_last() =~= seq![x] + list.drop_last());
        assert(all.last() == list.last());
    }
}

/// Rows may be mixed before the blocks are multiplied on.
proof fn lemma_down_built<T: Scalar>(
    n: int,
    t: Table<T>,
    list: Seq<MziSetting<T>>,
    o: Circle<T>,
    m: int,
    p: Weights<T>,
)
    requires
        exact::<T>(),
        on_modes(list, n),
        0 <= m && m + 1 < n,
    ensures
        down(n, built(n, t, list, o), m, p) == built(n, down(n, t, m, p), list, o),
    decreases list.len(),
{
    if list.len() > 0 {
        let rest = list.drop_last();
        assert forall|k: int| 0 <= k < rest.len() implies (#[trigger] rest[k]).mode + 1 < n by {
            assert(list[k].mode + 1 < n);
        }
        let x = list.last();
        assert(list[list.len() - 1].mode + 1 < n);
        lemma_down_built(n, t, rest, o, m, p);
        lemma_commute(n, built(n, t, rest, o), m, p, x.mode as int, block(o, x));
    }
}

/// A row's number may be multiplied on before the blocks are.
proof fn lemma_screened_built<T: Scalar>(
    n: int,
    t: Table<T>,
    list: Seq<MziSetting<T>>,
    o: Circle<T>,
    z: Seq<Cx<T>>,
)
    requires
        exact::<T>(),
        on_modes(list, n),
    ensures
        screened(n, built(n, t, list, o), z) == built(n, screened(n, t, z), list, o),
    decreases list.len(),
{
    if list.len() > 0 {
        let rest = list.drop_last();
        assert forall|k: int| 0 <= k < rest.len() implies (#[trigger] rest[k]).mode + 1 < n by {
            assert(list[k].mode + 1 < n);
        }
        let x = list.last();
        let m = x.mode as int;
        assert(list[list.len() - 1].mode + 1 < n);
        let w = block(o, x);
        lemma_screened_built(n, t, rest, o, z);
        let inner = built(n, t, rest, o);
        let a = screened(n, across(n, inner, m, w), z);
        let b = across(n, screened(n, inner, z), m, w);
        assert forall|r: int, c: int| #[trigger] entry(a, r, c) == entry(b, r, c) by {
            if within(n, r, c) {
                lemma_factor_into_mix(z[r], w.0, inner(r, m), inner(r, m + 1));
                lemma_factor_into_mix(z[r], w.1, inner(r, m), inner(r, m + 1));
            }
        }
        lemma_same_table(a, b);
    }
}

proof fn lemma_factor_into_mix<T: Scalar>(z: Cx<T>, p: (Cx<T>, Cx<T>), x: Cx<T>, y: Cx<T>)
    requires
        exact::<T>(),
    ensures
        z.product(mix(p, x, y)) == mix(p, z.product(x), z.product(y)),
{
    ring(z, p.0.product(x), p.1.product(y));
    lemma_past(z, p.0, x);
    lemma_past(z, p.1, y);
}

/// A block passes through a diagonal: taken off on the left, with the phase
/// `phi`, it leaves another diagonal and stands on the right with another
/// phase.
proof fn lemma_through<T: Scalar>(
    n: int,
    a: Seq<T>,
    m: int,
    theta: T,
    phi: T,
    pi: T,
    o: Circle<T>,
)
    requires
        exact::<T>(),
        o.wf(pi),
        a.len() == n,
        0 <= m && m + 1 < n,
    ensures
        ({
            let w = Wave { sin: (o.sin)(theta), cos: (o.cos)(theta), phasor: (o.back)(phi) };
            let left = a.update(m, a[m + 1].difference(phi).sum(pi));
            let x = MziSetting {
                mode: m as usize,
                theta,
                phi: a[m].difference(a[m + 1]).sum(pi),
            };
            m <= usize::MAX ==> down(n, diagonal(n, turns(o, a)), m, forth(w)) == across(
                n,
                diagonal(n, turns(o, left)),
                m,
                block(o, x),
            )
        }),
{
    let zero = Cx::<T>::nought();
    let (s, c, f) = (lifted((o.sin)(theta)), lifted((o.cos)(theta)), (o.back)(phi));
    let (z0, z1, b1) = ((o.turn)(a[m]), (o.turn)(a[m + 1]), (o.back)(a[m + 1]));
    let left = a.update(m, a[m + 1].difference(phi).sum(pi));
    let turn = a[m].difference(a[m + 1]).sum(pi);
    let e = (o.turn)(turn);
    let y0 = (o.turn)(left[m]);
    assert(o.adds_up(a[m + 1], phi, pi));
    assert(o.adds_up(a[m], a[m + 1], pi));
    assert(o.round(theta, a[m + 1]));
    assert(y0 == z1.product(f).negated());
    assert(e == z0.product(b1).negated());
    assert(z1.product(b1) == Cx::<T>::unit());
    let w = Wave { sin: (o.sin)(theta), cos: (o.cos)(theta), phasor: f };
    let v = o.wave(theta, turn);
    let (p, q) = (forth(w), forth(v));
    // the four entries on the two modes
    assert(mix(p.0, z0, zero) == mix(q.0, y0, zero)) by {
        lemma_mix_first(p.0, z0);
        lemma_mix_first(q.0, y0);
        // e.y0 = z0.f
        lemma_signs(z0.product(b1), z1.product(f));
        ring(z0, b1, z1.product(f));
        ring(b1, z1, f);
        ring(b1, z1, zero);
        ring(z1, b1, zero);
        ring(Cx::unit(), f, zero);
        ring(f, Cx::unit(), zero);
        assert(e.product(y0) == z0.product(f));
        ring(c, e, y0);
        ring(c, f, z0);
        ring(z0, f, zero);
    }
    assert(mix(p.0, zero, z1) == mix(q.1, y0, zero)) by {
        lemma_mix_second(p.0, z1);
        lemma_mix_first(q.1, y0);
        lemma_signs(s, z1.product(f));
        ring(s, f, z1);
        ring(z1, f, zero);
    }
    assert(mix(p.1, z0, zero) == mix(q.0, zero, z1)) by {
        lemma_mix_first(p.1, z0);
        lemma_mix_second(q.0, z1);
        // (s.e).z1 = s.(e.z1) = s.(-z0)
        ring(s, e, z1);
        ring(z0.product(b1), z1, zero);
        ring(z0, b1, z1);
        ring(b1, z1, zero);
        ring(z0, Cx::unit(), zero);
        assert(e.product(z1) == z0.negated());
        lemma_signs(s, z0);
        ring(s, z0, zero);
    }
    assert(mix(p.1, zero, z1) == mix(q.1, zero, z1));
    assert(mix(p.0, zero, zero) == zero && mix(p.1, zero, zero) == zero && mix(
        q.0,
        zero,
        zero,
    ) == zero && mix(q.1, zero, zero) == zero) by {
        lemma_mix_first(p.0, zero);
        lemma_mix_first(p.1, zero);
        lemma_mix_first(q.0, zero);
        lemma_mix_first(q.1, zero);
        ring(p.0.0, zero, zero);
        ring(p.1.0, zero, zero);
        ring(q.0.0, zero, zero);
        ring(q.1.0, zero, zero);
    }
    let x = down(n, diagonal(n, turns(o, a)), m, p);
    let y = across(n, diagonal(n, turns(o, left)), m, q);
    assert forall|r: int, k: int| #[trigger] entry(x, r, k) == entry(y, r, k) by {
        if within(n, r, k) {
            assert(turns(o, a)[r] == (o.turn)(a[r]));
            assert(turns(o, left)[r] == (o.turn)(left[r]));
            assert(turns(o, a)[m] == z0 && turns(o, a)[m + 1] == z1);
            assert(turns(o, left)[m] == y0 && turns(o, left)[m + 1] == z1);
        }
    }
    lemma_same_table(x, y);
}

pub proof fn lemma_mix_first<T: Scalar>(p: (Cx<T>, Cx<T>), x: Cx<T>)
    requires
        exact::<T>(),
    ensures
        mix(p, x, Cx::nought()) == p.0.product(x),
{
    let zero = Cx::<T>::nought();
    ring(p.1, zero, zero);
    ring(p.0.product(x), zero, zero);
}

pub proof fn lemma_mix_second<T: Scalar>(p: (Cx<T>, Cx<T>), y: Cx<T>)
    requires
        exact::<T>(),
    ensures
        mix(p, Cx::nought(), y) == p.1.product(y),
{
    let zero = Cx::<T>::nought();
    ring(p.0, zero, zero);
    ring(zero, p.1.product(y), zero);
    ring(p.1.product(y), zero, zero);
}

/// The angles that `right` answers come with the wave of their inverse block,
/// those that `left` answers with the wave of their block.
pub open spec fn answers<
    T: Scalar,
    R: Fn(Cx<T>, Cx<T>) -> Null<T>,
    L: Fn(Cx<T>, Cx<T>) -> Null<T>,
>(o: Circle<T>, right: R, left: L) -> bool {
    &&& forall|a: Cx<T>, b: Cx<T>, theta: T, phi: T, w: Wave<T>| #[trigger]
        call_ensures(right, (a, b), (theta, phi, w)) ==> w == (Wave {
            sin: (o.sin)(theta),
            cos: (o.cos)(theta),
            phasor: (o.back)(phi),
        })
    &&& forall|a: Cx<T>, b: Cx<T>, theta: T, phi: T, w: Wave<T>| #[trigger]
        call_ensures(left, (a, b), (theta, phi, w)) ==> w == o.wave(theta, phi)
}

/// Every number below the total is the number of a step.
proof fn lemma_step_of(q: int, d: int) -> (r: (int, int))
    requires
        0 <= q < steps_before(d),
        0 <= d,
    ensures
        0 <= r.0 < d,
        0 <= r.1 <= r.0,
        steps_before(r.0) + r.1 == q,
    decreases d,
{
    if q < steps_before(d - 1) {
        lemma_step_of(q, d - 1)
    } else {
        (d - 1, q - steps_before(d - 1))
    }
}

proof fn lemma_table_bounded<T: Scalar>(n: int, a: &Matrix<Cx<T>>)
    ensures
        bounded(n, table(n, a)),
{
}

/// One nulling taken back: the table before it is the table after it with the
/// block multiplied on again, or taken off on the left.
proof fn lemma_taken_back<
    T: Scalar,
    R: Fn(Cx<T>, Cx<T>) -> Null<T>,
    L: Fn(Cx<T>, Cx<T>) -> Null<T>,
>(
    n: int,
    ws: Seq<Matrix<Cx<T>>>,
    log: Seq<Nulling<T>>,
    u: &Matrix<Cx<T>>,
    right: R,
    left: L,
    o: Circle<T>,
    pi: T,
    q: int,
)
    requires
        exact::<T>(),
        o.wf(pi),
        answers(o, right, left),
        eliminates(ws, log, n, u, right, left),
        n >= 1,
        log.len() == steps_before(n - 1),
        0 <= q < log.len(),
        ws[q].shaped(n, n),
    ensures
        log[q].mode + 1 < n,
        ws[q + 1].shaped(n, n),
        ({
            let x = log[q];
            let (before, after) = (table(n, &ws[q]), table(n, &ws[q + 1]));
            let m = x.mode as int;
            if x.left {
                before == down(
                    n,
                    after,
                    m,
                    forth(
                        Wave {
                            sin: (o.sin)(x.theta),
                            cos: (o.cos)(x.theta),
                            phasor: (o.back)(x.phi),
                        },
                    ),
                )
            } else {
                before == across(n, after, m, forth(o.wave(x.theta, x.phi)))
            }
        }),
{
    let (i, j) = lemma_step_of(q, n - 1);
    assert(step_ok(ws, log, n, i, j, right, left));
    let x = log[q];
    let (a, b) = (ws[q], ws[q + 1]);
    let (before, after) = (table(n, &a), table(n, &b));
    let (r, c) = target(n, i, j);
    let (sin, cos) = ((o.sin)(x.theta), (o.cos)(x.theta));
    let (e, f) = ((o.turn)(x.phi), (o.back)(x.phi));
    assert(o.round(x.theta, x.phi));
    ring(e, f, f);
    ring(f, e, f);
    lemma_table_bounded(n, &a);
    if i % 2 == 0 {
        let w = choose|w: Wave<T>|
            call_ensures(right, (a.at(r, c), a.at(r, c + 1)), (x.theta, x.phi, w))
                && #[trigger] right_step(&a, &b, c, w);
        assert forall|y: int, k: int| #[trigger] entry(after, y, k) == entry(
            across(n, before, c, sent(w)),
            y,
            k,
        ) by {
            if within(n, y, k) {
                assert(b.at(y, k) == b.at(y, k));
                lemma_sent(a.at(y, c), a.at(y, c + 1), w);
            }
        }
        lemma_same_table(after, across(n, before, c, sent(w)));
        lemma_block_undoes(sin, cos, e, f);
        lemma_undone(n, before, c, forth(o.wave(x.theta, x.phi)), sent(w));
    } else {
        let m = r - 1;
        let w = choose|w: Wave<T>|
            call_ensures(left, (a.at(r - 1, c), a.at(r, c)), (x.theta, x.phi, w))
                && #[trigger] left_step(&a, &b, r - 1, w);
        assert forall|y: int, k: int| #[trigger] entry(after, y, k) == entry(
            down(n, before, m, sent(w)),
            y,
            k,
        ) by {
            if within(n, y, k) {
                assert(b.at(y, k) == b.at(y, k));
                lemma_sent(a.at(m, k), a.at(m + 1, k), w);
            }
        }
        lemma_same_table(after, down(n, before, m, sent(w)));
        lemma_block_undoes(sin, cos, f, e);
        lemma_undone(n, before, m, forth(Wave { sin, cos, phasor: f }), sent(w));
    }
}

proof fn lemma_shapes<
    T: Scalar,
    R: Fn(Cx<T>, Cx<T>) -> Null<T>,
    L: Fn(Cx<T>, Cx<T>) -> Null<T>,
>(
    n: int,
    ws: Seq<Matrix<Cx<T>>>,
    log: Seq<Nulling<T>>,
    u: &Matrix<Cx<T>>,
    right: R,
    left: L,
    o: Circle<T>,
    pi: T,
    q: int,
)
    requires
        exact::<T>(),
        o.wf(pi),
        answers(o, right, left),
        eliminates(ws, log, n, u, right, left),
        n >= 1,
        log.len() == steps_before(n - 1),
        0 <= q <= log.len(),
        u.shaped(n, n),
    ensures
        ws[q].shaped(n, n),
    decreases q,
{
    if q > 0 {
        lemma_shapes(n, ws, log, u, right, left, o, pi, q - 1);
        lemma_taken_back(n, ws, log, u, right, left, o, pi, q - 1);
    }
}

/// The last `k` nullings, collected, lead from the diagonal back to where they
/// began.
proof fn lemma_collected<
    T: Scalar,
    R: Fn(Cx<T>, Cx<T>) -> Null<T>,
    L: Fn(Cx<T>, Cx<T>) -> Null<T>,
>(
    n: int,
    ws: Seq<Matrix<Cx<T>>>,
    log: Seq<Nulling<T>>,
    u: &Matrix<Cx<T>>,
    right: R,
    left: L,
    o: Circle<T>,
    alpha: Seq<T>,
    pi: T,
    k: int,
)
    requires
        exact::<T>(),
        o.wf(pi),
        answers(o, right, left),
        eliminates(ws, log, n, u, right, left),
        n >= 1,
        log.len() == steps_before(n - 1),
        0 <= k <= log.len(),
        u.shaped(n, n),
        alpha.len() == n,
        table(n, &ws[log.len() as int]) == diagonal(n, turns(o, alpha)),
    ensures
        ({
            let (a, blocks) = commuted(log, alpha, pi, k);
            let list = blocks + rights(log, k);
            &&& a.len() == n
            &&& on_modes(list, n)
            &&& built(n, diagonal(n, turns(o, a)), list, o) == table(n, &ws[log.len() - k])
        }),
    decreases k,
{
    if k == 0 {
        let list = commuted(log, alpha, pi, 0).1 + rights(log, 0);
        assert(list =~= Seq::<MziSetting<T>>::empty());
    } else {
        lemma_collected(n, ws, log, u, right, left, o, alpha, pi, k - 1);
        let q = log.len() - k;
        lemma_shapes(n, ws, log, u, right, left, o, pi, q);
        lemma_taken_back(n, ws, log, u, right, left, o, pi, q);
        let x = log[q];
        let m = x.mode as int;
        let (a, blocks) = commuted(log, alpha, pi, k - 1);
        let tail = rights(log, k - 1);
        let list = blocks + tail;
        if x.left {
            let y = MziSetting {
                mode: x.mode,
                theta: x.theta,
                phi: a[m].difference(a[m + 1]).sum(pi),
            };
            let more = seq![y] + list;
            assert((seq![y] + blocks) + tail =~= more);
            assert forall|i: int| 0 <= i < more.len() implies (#[trigger] more[i]).mode + 1 < n by {
                if i > 0 {
                    assert(more[i] == list[i - 1]);
                }
            }
            let w = Wave {
                sin: (o.sin)(x.theta),
                cos: (o.cos)(x.theta),
                phasor: (o.back)(x.phi),
            };
            let d = diagonal(n, turns(o, a));
            lemma_through(n, a, m, x.theta, x.phi, pi, o);
            let less = a.update(m, a[m + 1].difference(x.phi).sum(pi));
            lemma_built_first(n, diagonal(n, turns(o, less)), y, list, o);
            lemma_down_built(n, d, list, o, m, forth(w));
        } else {
            let y = MziSetting { mode: x.mode, theta: x.theta, phi: x.phi };
            let more = list.push(y);
            assert(blocks + tail.push(y) =~= more);
            assert forall|i: int| 0 <= i < more.len() implies (#[trigger] more[i]).mode + 1 < n by {
                if i < list.len() {
                    assert(more[i] == list[i]);
                }
            }
            assert(more.drop_last() =~= list);
        }
    }
}

/// The matrices that a product leads through are tables times its blocks.
proof fn lemma_assembled<T: Scalar>(
    n: int,
    s: Seq<Matrix<Cx<T>>>,
    mzis: Seq<MziSetting<T>>,
    waves: Seq<Wave<T>>,
    o: Circle<T>,
    k: int,
)
    requires
        exact::<T>(),
        assembles(s, n, mzis, waves),
        on_modes(mzis, n),
        forall|i: int|
            0 <= i < mzis.len() ==> #[trigger] waves[i] == o.wave(mzis[i].theta, mzis[i].phi),
        0 <= k <= mzis.len(),
        n >= 0,
    ensures
        s[k].shaped(n, n),
        table(n, &s[k]) == built(n, table(n, &s[0]), mzis.take(k), o),
    decreases k,
{
    if k == 0 {
        assert(mzis.take(0) =~= Seq::<MziSetting<T>>::empty());
    } else {
        lemma_assembled(n, s, mzis, waves, o, k - 1);
        let x = mzis[k - 1];
        let w = waves[k - 1];
        assert(x.mode + 1 < n);
        assert(w == o.wave(x.theta, x.phi));
        let list = mzis.take(k);
        assert(list.drop_last() =~= mzis.take(k - 1));
        assert(list.last() == x);
        let (a, b) = (s[k - 1], s[k - 1 + 1]);
        assert(columns_mapped(
            &a,
            &b,
            x.mode as int,
            |p: Cx<T>, q: Cx<T>|
                row_times_t(p, q, waves[k - 1].sin, waves[k - 1].cos, waves[k - 1].phasor),
        ));
        let t = across(n, table(n, &a), x.mode as int, block(o, x));
        assert forall|r: int, c: int| #[trigger] entry(table(n, &b), r, c) == entry(t, r, c) by {
            if within(n, r, c) {
                assert(b.at(r, c) == b.at(r, c));
                lemma_forth(a.at(r, x.mode as int), a.at(r, x.mode + 1), w);
            }
        }
        lemma_same_table(table(n, &b), t);
    }
}

/// Where the nullings of `u` end in the diagonal of the phasors `alpha`, the
/// matrix of the mesh that collects them is `u`, entry by entry.
proof fn lemma_mesh_rebuilds<
    T: Scalar,
    R: Fn(Cx<T>, Cx<T>) -> Null<T>,
    L: Fn(Cx<T>, Cx<T>) -> Null<T>,
    A: Fn(Cx<T>) -> T,
>(
    u: &Matrix<Cx<T>>,
    right: R,
    left: L,
    arg: A,
    pi: T,
    mesh: &ClementsMesh<T>,
    ws: Seq<Matrix<Cx<T>>>,
    log: Seq<Nulling<T>>,
    alpha: Seq<T>,
    o: Circle<T>,
    waves: Seq<Wave<T>>,
    screen: Seq<Cx<T>>,
    s: Seq<Matrix<Cx<T>>>,
    made: &Matrix<Cx<T>>,
)
    requires
        exact::<T>(),
        o.wf(pi),
        answers(o, right, left),
        u.wf(),
        u.rows == u.cols,
        u.rows >= 1,
        mesh.wf(),
        mesh.n == u.rows,
        realizes(u, right, left, arg, pi, mesh, ws, log, alpha),
        forall|r: int, c: int|
            0 <= r < u.rows && 0 <= c < u.rows ==> #[trigger] ws[log.len() as int].at(r, c) == (
            if r == c {
                (o.turn)(alpha[r])
            } else {
                Cx::nought()
            }),
        forall|k: int|
            0 <= k < mesh.mzis@.len() ==> #[trigger] waves[k] == o.wave(
                mesh.mzis@[k].theta,
                mesh.mzis@[k].phi,
            ),
        screen == turns(o, mesh.output_phases@),
        assembles(s, mesh.n as int, mesh.mzis@, waves),
        forall|j: int, c: int|
            0 <= j < mesh.n && 0 <= c < mesh.n ==> #[trigger] made.at(j, c) == screen[j].product(
                s[mesh.mzis@.len() as int].at(j, c),
            ),
    ensures
        forall|j: int, c: int|
            0 <= j < u.rows && 0 <= c < u.rows ==> #[trigger] made.at(j, c) == u.at(j, c),
{
    let n = u.rows as int;
    let len = log.len() as int;
    let all = mesh.mzis@;
    let last = table(n, &ws[len]);
    let d = diagonal(n, turns(o, alpha));
    assert forall|r: int, c: int| #[trigger] entry(last, r, c) == entry(d, r, c) by {
        if within(n, r, c) {
            assert(ws[len].at(r, c) == ws[len].at(r, c));
        }
    }
    lemma_same_table(last, d);
    lemma_collected(n, ws, log, u, right, left, o, alpha, pi, len);
    let (phases, blocks) = commuted(log, alpha, pi, len);
    assert(all == blocks + rights(log, len));
    lemma_assembled(n, s, all, waves, o, all.len() as int);
    assert(all.take(all.len() as int) =~= all);
    let first = table(n, &s[0]);
    let product = table(n, &s[all.len() as int]);
    lemma_screened_built(n, first, all, o, screen);
    let begin = screened(n, first, screen);
    let lit = diagonal(n, screen);
    assert forall|r: int, c: int| #[trigger] entry(begin, r, c) == entry(lit, r, c) by {
        if within(n, r, c) {
            let zero = Cx::<T>::nought();
            ring(screen[r], zero, zero);
            assert(s[0].at(r, c) == (if r == c {
                Cx::<T>::unit()
            } else {
                zero
            }));
        }
    }
    lemma_same_table(begin, lit);
    let end = screened(n, product, screen);
    assert(end == table(n, &ws[0]));
    assert forall|j: int, c: int| 0 <= j < n && 0 <= c < n implies #[trigger] made.at(j, c)
        == u.at(j, c) by {
        assert(entry(end, j, c) == made.at(j, c));
        assert(entry(table(n, &ws[0]), j, c) == ws[0].at(j, c));
        assert(ws[0].at(j, c) == u.at(j, c));
    }
}

/// The angles that `right` answers null the first of their two columns, those
/// that `left` answers the second of their two rows.
pub open spec fn nulls<
    T: Scalar,
    R: Fn(Cx<T>, Cx<T>) -> Null<T>,
    L: Fn(Cx<T>, Cx<T>) -> Null<T>,
>(right: R, left: L) -> bool {
    &&& forall|a: Cx<T>, b: Cx<T>, theta: T, phi: T, w: Wave<T>| #[trigger]
        call_ensures(right, (a, b), (theta, phi, w)) ==> row_times_t_inv(
            a,
            b,
            w.sin,
            w.cos,
            w.phasor,
        ).0 == Cx::<T>::nought()
    &&& forall|a: Cx<T>, b: Cx<T>, theta: T, phi: T, w: Wave<T>| #[trigger]
        call_ensures(left, (a, b), (theta, phi, w)) ==> t_times_column(
            a,
            b,
            w.sin,
            w.cos,
            w.phasor,
        ).1 == Cx::<T>::nought()
}

/// Entry (row, col) is among the targets before step j of anti-diagonal i.
pub open spec fn visited(n: int, i: int, j: int, row: int, col: int) -> bool {
    let at = n - 1 - (row - col);
    at < i || (at == i && (if i % 2 == 0 {
        n - 1 - row < j
    } else {
        col < j
    }))
}

/// All targets before step j of anti-diagonal i are zero.
pub open spec fn cleared<T: Scalar>(n: int, a: &Matrix<Cx<T>>, i: int, j: int) -> bool {
    forall|row: int, col: int|
        0 <= col < row < n && visited(n, i, j, row, col) ==> #[trigger] a.at(row, col) == Cx::<
            T,
        >::nought()
}

proof fn lemma_mix_of_zeros<T: Scalar>(w: Wave<T>)
    requires
        exact::<T>(),
    ensures
        ({
            let zero = Cx::<T>::nought();
            &&& row_times_t_inv(zero, zero, w.sin, w.cos, w.phasor) == (zero, zero)
            &&& t_times_column(zero, zero, w.sin, w.cos, w.phasor) == (zero, zero)
        }),
{
    let zero = Cx::<T>::nought();
    lemma_sent(zero, zero, w);
    lemma_mix_first(sent(w).0, zero);
    lemma_mix_first(sent(w).1, zero);
    ring(sent(w).0.0, zero, zero);
    ring(sent(w).1.0, zero, zero);
}

/// A step clears its target and nothing comes back.
proof fn lemma_cleared<
    T: Scalar,
    R: Fn(Cx<T>, Cx<T>) -> Null<T>,
    L: Fn(Cx<T>, Cx<T>) -> Null<T>,
>(
    n: int,
    ws: Seq<Matrix<Cx<T>>>,
    log: Seq<Nulling<T>>,
    i: int,
    j: int,
    right: R,
    left: L,
)
    requires
        exact::<T>(),
        nulls(right, left),
        0 <= i < n - 1,
        0 <= j <= i,
        step_ok(ws, log, n, i, j, right, left),
        ws[steps_before(i) + j].shaped(n, n),
        cleared(n, &ws[steps_before(i) + j], i, j),
    ensures
        cleared(n, &ws[steps_before(i) + j + 1], i, j + 1),
{
    let k = steps_before(i) + j;
    let (a, b) = (ws[k], ws[k + 1]);
    let x = log[k];
    let (r, c) = target(n, i, j);
    let zero = Cx::<T>::nought();
    if i % 2 == 0 {
        let w = choose|w: Wave<T>|
            call_ensures(right, (a.at(r, c), a.at(r, c + 1)), (x.theta, x.phi, w))
                && #[trigger] right_step(&a, &b, c, w);
        lemma_mix_of_zeros(w);
        assert forall|row: int, col: int|
            0 <= col < row < n && visited(n, i, j + 1, row, col) implies #[trigger] b.at(row, col)
            == zero by {
            if col == c || col == c + 1 {
                if row != r || col != c {
                    assert(row > r);
                    assert(visited(n, i, j, row, c));
                    assert(visited(n, i, j, row, c + 1));
                    assert(a.at(row, c) == zero && a.at(row, c + 1) == zero);
                }
            } else {
                assert(visited(n, i, j, row, col));
                assert(a.at(row, col) == zero);
            }
        }
    } else {
        let w = choose|w: Wave<T>|
            call_ensures(left, (a.at(r - 1, c), a.at(r, c)), (x.theta, x.phi, w))
                && #[trigger] left_step(&a, &b, r - 1, w);
        lemma_mix_of_zeros(w);
        assert forall|row: int, col: int|
            0 <= col < row < n && visited(n, i, j + 1, row, col) implies #[trigger] b.at(row, col)
            == zero by {
            if row == r || row == r - 1 {
                if row != r || col != c {
                    assert(col < c);
                    assert(visited(n, i, j, r, col));
                    assert(visited(n, i, j, r - 1, col));
                    assert(a.at(r, col) == zero && a.at(r - 1, col) == zero);
                }
            } else {
                assert(visited(n, i, j, row, col));
                assert(a.at(row, col) == zero);
            }
        }
    }
}

/// After all steps every entry below the diagonal is zero.
proof fn lemma_all_cleared<
    T: Scalar,
    R: Fn(Cx<T>, Cx<T>) -> Null<T>,
    L: Fn(Cx<T>, Cx<T>) -> Null<T>,
>(
    n: int,
    ws: Seq<Matrix<Cx<T>>>,
    log: Seq<Nulling<T>>,
    u: &Matrix<Cx<T>>,
    right: R,
    left: L,
    o: Circle<T>,
    pi: T,
    i: int,
    j: int,
)
    requires
        exact::<T>(),
        o.wf(pi),
        answers(o, right, left),
        nulls(right, left),
        eliminates(ws, log, n, u, right, left),
        n >= 1,
        log.len() == steps_before(n - 1),
        u.shaped(n, n),
        0 <= i <= n - 1,
        0 <= j <= i,
        steps_before(i) + j <= log.len(),
        0 <= steps_before(i),
        j == 0 || i < n - 1,
    ensures
        cleared(n, &ws[steps_before(i) + j], i, j),
    decreases i, j,
{
    if j > 0 {
        lemma_all_cleared(n, ws, log, u, right, left, o, pi, i, j - 1);
        lemma_shapes(n, ws, log, u, right, left, o, pi, steps_before(i) + j - 1);
        assert(step_ok(ws, log, n, i, j - 1, right, left));
        lemma_cleared(n, ws, log, i, j - 1, right, left);
    } else if i > 0 {
        // the last step of the anti-diagonal before
        let (h, l) = (i - 1, i - 1);
        lemma_steps_are_counted(h);
        lemma_all_cleared(n, ws, log, u, right, left, o, pi, h, l);
        lemma_shapes(n, ws, log, u, right, left, o, pi, steps_before(h) + l);
        assert(step_ok(ws, log, n, h, l, right, left));
        lemma_cleared(n, ws, log, h, l, right, left);
        assert(steps_before(i) == steps_before(h) + l + 1);
        let a = ws[steps_before(i)];
        assert forall|row: int, col: int|
            0 <= col < row < n && visited(n, i, 0, row, col) implies #[trigger] a.at(row, col)
            == Cx::<T>::nought() by {
            assert(visited(n, h, l + 1, row, col));
        }
    }
}

proof fn lemma_steps_are_counted(i: int)
    ensures
        steps_before(i) >= 0,
    decreases i,
{
    if i > 0 {
        lemma_steps_are_counted(i - 1);
    }
}

/// Weights whose rows, and whose columns, are orthonormal.
pub open spec fn orthonormal_weights<T: Scalar>(p: Weights<T>) -> bool {
    let (one, zero) = (Cx::<T>::unit(), Cx::<T>::nought());
    let q = (
        (p.0.0.mirrored(), p.0.1.mirrored()),
        (p.1.0.mirrored(), p.1.1.mirrored()),
    );
    // rows
    &&& mix(q.0, p.0.0, p.0.1) == one
    &&& mix(q.0, p.1.0, p.1.1) == zero
    &&& mix(q.1, p.0.0, p.0.1) == zero
    &&& mix(q.1, p.1.0, p.1.1) == one
    // columns
    &&& mix((p.0.0, p.1.0), q.0.0, q.1.0) == one
    &&& mix((p.0.0, p.1.0), q.0.1, q.1.1) == zero
    &&& mix((p.0.1, p.1.1), q.0.0, q.1.0) == zero
    &&& mix((p.0.1, p.1.1), q.0.1, q.1.1) == one
}

/// A product less itself, with its factors in another order.
pub proof fn lemma_cancels<T: Scalar>(a: Cx<T>, b: Cx<T>)
    requires
        exact::<T>(),
        a == b,
    ensures
        a.sum(b.negated()) == Cx::<T>::nought(),
        a.negated().sum(b) == Cx::<T>::nought(),
{
    ring(a, a.negated(), a);
}

pub proof fn lemma_sent_orthonormal<T: Scalar>(w: Wave<T>)
    requires
        exact::<T>(),
        w.phasor.mirrored().product(w.phasor) == Cx::<T>::unit(),
        lifted(w.cos).product(lifted(w.cos)).sum(lifted(w.sin).product(lifted(w.sin)))
            == Cx::<T>::unit(),
    ensures
        orthonormal_weights(sent(w)),
{
    let (s, c, e) = (lifted(w.sin), lifted(w.cos), w.phasor);
    let f = e.mirrored();
    let one = Cx::<T>::unit();
    conjugation(e, c, w.cos);
    conjugation(e, s, w.sin);
    conjugation(s, s, w.sin);
    conjugation(c, c, w.cos);
    let (ec, es, fc, fs, m) = (
        e.product(c),
        e.product(s),
        f.product(c),
        f.product(s),
        s.negated(),
    );
    assert(ec.mirrored() == fc && es.mirrored() == fs && m.mirrored() == m && c.mirrored() == c);
    ring(f, e, e);
    ring(e, f, e);
    // (f.c).(e.c) = c.c, (f.s).(e.s) = s.s, (f.c).(e.s) = c.s
    lemma_cross(f, e, c, c);
    lemma_cross(f, e, s, s);
    lemma_cross(f, e, c, s);
    lemma_cross(f, e, s, c);
    lemma_cross(e, f, c, c);
    lemma_cross(e, f, s, s);
    lemma_signs(s, s);
    lemma_signs(c, s);
    ring(s, c, c);
    ring(c, s, s);
    ring(s.product(s), c.product(c), c);
    lemma_cancels(c.product(s), s.product(c));
    lemma_cancels(s.product(c), c.product(s));
    // rows
    assert(mix((fc, m), ec, m) == one);
    assert(mix((fc, m), es, c) == Cx::<T>::nought());
    assert(mix((fs, c), ec, m) == Cx::<T>::nought());
    assert(mix((fs, c), es, c) == one);
    // columns
    assert(mix((ec, es), fc, fs) == one);
    assert(mix((ec, es), m, c) == Cx::<T>::nought()) by {
        lemma_signs(ec, s);
        ring(e, c, s);
        ring(e, s, c);
        lemma_cancels(ec.product(s), es.product(c));
    }
    assert(mix((m, c), fc, fs) == Cx::<T>::nought()) by {
        ring(s, fc, c);
        lemma_past(s, f, c);
        lemma_past(c, f, s);
        lemma_cancels(s.product(fc), c.product(fs));
    }
    assert(mix((m, c), m, c) == one);
}

/// `(f.a).(e.b) = a.b` where `f.e` is one.
pub proof fn lemma_cross<T: Scalar>(f: Cx<T>, e: Cx<T>, a: Cx<T>, b: Cx<T>)
    requires
        exact::<T>(),
        f.product(e) == Cx::<T>::unit(),
    ensures
        f.product(a).product(e.product(b)) == a.product(b),
{
    ring(f, a, e.product(b));
    lemma_past(a, e, b);
    ring(f, e, a.product(b));
    ring(Cx::unit(), a.product(b), a);
    ring(a.product(b), Cx::unit(), a);
}

/// The columns of a matrix are orthonormal: U^H.U is the identity.
pub open spec fn orthonormal<T: Scalar>(n: int, a: &Matrix<Cx<T>>) -> bool {
    forall|p: int, q: int|
        0 <= p < n && 0 <= q < n ==> #[trigger] gram(a, p, q, n) == (if p == q {
            Cx::<T>::unit()
        } else {
            Cx::nought()
        })
}

/// Inner product of two columns over the first `n` rows.
pub open spec fn inner<T: Scalar>(
    f: spec_fn(int) -> Cx<T>,
    g: spec_fn(int) -> Cx<T>,
    n: int,
) -> Cx<T>
    decreases n,
{
    if n <= 0 {
        Cx::nought()
    } else {
        inner(f, g, n - 1).sum(f(n - 1).mirrored().product(g(n - 1)))
    }
}

/// Column `q` of a matrix.
pub open spec fn column<T: Scalar>(a: &Matrix<Cx<T>>, q: int) -> spec_fn(int) -> Cx<T> {
    |r: int| a.at(r, q)
}

/// Two columns mixed, row by row.
pub open spec fn blended<T: Scalar>(
    w: (Cx<T>, Cx<T>),
    f: spec_fn(int) -> Cx<T>,
    g: spec_fn(int) -> Cx<T>,
) -> spec_fn(int) -> Cx<T> {
    |r: int| mix(w, f(r), g(r))
}

proof fn lemma_gram_is_inner<T: Scalar>(a: &Matrix<Cx<T>>, p: int, q: int, n: int)
    ensures
        gram(a, p, q, n) == inner(column(a, p), column(a, q), n),
    decreases n,
{
    if n > 0 {
        lemma_gram_is_inner(a, p, q, n - 1);
    }
}

proof fn lemma_inner_alike<T: Scalar>(
    f: spec_fn(int) -> Cx<T>,
    g: spec_fn(int) -> Cx<T>,
    h: spec_fn(int) -> Cx<T>,
    k: spec_fn(int) -> Cx<T>,
    n: int,
)
    requires
        forall|r: int| 0 <= r < n ==> #[trigger] f(r) == h(r),
        forall|r: int| 0 <= r < n ==> #[trigger] g(r) == k(r),
    ensures
        inner(f, g, n) == inner(h, k, n),
    decreases n,
{
    if n > 0 {
        lemma_inner_alike(f, g, h, k, n - 1);
    }
}

/// A mix may be taken out of either side of an inner product, out of the left
/// one in the mirror.
proof fn lemma_inner_blended<T: Scalar>(
    w: (Cx<T>, Cx<T>),
    f: spec_fn(int) -> Cx<T>,
    g: spec_fn(int) -> Cx<T>,
    h: spec_fn(int) -> Cx<T>,
    n: int,
)
    requires
        exact::<T>(),
        0 <= n,
    ensures
        inner(h, blended(w, f, g), n) == mix(w, inner(h, f, n), inner(h, g, n)),
        inner(blended(w, f, g), h, n) == mix(
            (w.0.mirrored(), w.1.mirrored()),
            inner(f, h, n),
            inner(g, h, n),
        ),
    decreases n,
{
    let zero = Cx::<T>::nought();
    let v = (w.0.mirrored(), w.1.mirrored());
    if n == 0 {
        lemma_mix_first(w, zero);
        lemma_mix_first(v, zero);
        ring(w.0, zero, zero);
        ring(v.0, zero, zero);
    } else {
        lemma_inner_blended(w, f, g, h, n - 1);
        let r = n - 1;
        let (x, y, z) = (f(r), g(r), h(r));
        let m = z.mirrored();
        lemma_factor_into_mix(m, w, x, y);
        lemma_mix_sum(w, inner(h, f, r), inner(h, g, r), m.product(x), m.product(y));
        conjugation(w.0.product(x), w.1.product(y), x.re);
        conjugation(w.0, x, x.re);
        conjugation(w.1, y, x.re);
        let (xm, ym) = (x.mirrored(), y.mirrored());
        assert(mix(w, x, y).mirrored() == mix(v, xm, ym));
        lemma_factor_into_mix(z, v, xm, ym);
        ring(z, mix(v, xm, ym), z);
        ring(z, xm, z);
        ring(z, ym, z);
        lemma_mix_sum(v, inner(f, h, r), inner(g, h, r), xm.product(z), ym.product(z));
    }
}

/// Mixes add up.
proof fn lemma_mix_sum<T: Scalar>(p: (Cx<T>, Cx<T>), a: Cx<T>, b: Cx<T>, c: Cx<T>, d: Cx<T>)
    requires
        exact::<T>(),
    ensures
        mix(p, a, b).sum(mix(p, c, d)) == mix(p, a.sum(c), b.sum(d)),
{
    ring(p.0, a, c);
    ring(p.1, b, d);
    lemma_partners(p.0.product(a), p.1.product(b), p.0.product(c), p.1.product(d));
}

/// `b` is `a` with columns m and m+1 replaced by two mixes of them.
pub open spec fn columns_mixed<T: Scalar>(
    n: int,
    a: &Matrix<Cx<T>>,
    b: &Matrix<Cx<T>>,
    m: int,
    s: Weights<T>,
) -> bool {
    forall|r: int, k: int|
        0 <= r < n && 0 <= k < n ==> #[trigger] b.at(r, k) == (if k == m {
            mix(s.0, a.at(r, m), a.at(r, m + 1))
        } else if k == m + 1 {
            mix(s.1, a.at(r, m), a.at(r, m + 1))
        } else {
            a.at(r, k)
        })
}

/// Columns stay orthonormal when two of them are mixed on orthonormal weights.
pub proof fn lemma_columns_keep<T: Scalar>(
    n: int,
    a: &Matrix<Cx<T>>,
    b: &Matrix<Cx<T>>,
    m: int,
    s: Weights<T>,
)
    requires
        exact::<T>(),
        0 <= m && m + 1 < n,
        a.shaped(n, n),
        columns_mixed(n, a, b, m, s),
        orthonormal_weights(s),
        orthonormal(n, a),
    ensures
        orthonormal(n, b),
{
    let (one, zero) = (Cx::<T>::unit(), Cx::<T>::nought());
    let (f, g) = (column(a, m), column(a, m + 1));
    let made = |q: int|
        if q == m {
            blended(s.0, f, g)
        } else if q == m + 1 {
            blended(s.1, f, g)
        } else {
            column(a, q)
        };
    assert forall|p: int, q: int| 0 <= p < n && 0 <= q < n implies #[trigger] gram(b, p, q, n) == (
    if p == q {
        one
    } else {
        zero
    }) by {
        assert forall|r: int| 0 <= r < n implies #[trigger] column(b, p)(r) == made(p)(r) by {
            assert(b.at(r, p) == b.at(r, p));
        }
        assert forall|r: int| 0 <= r < n implies #[trigger] column(b, q)(r) == made(q)(r) by {
            assert(b.at(r, q) == b.at(r, q));
        }
        lemma_gram_is_inner(b, p, q, n);
        lemma_inner_alike(column(b, p), column(b, q), made(p), made(q), n);
        lemma_gram_is_inner(a, p, q, n);
        assert(gram(a, p, q, n) == gram(a, p, q, n));
        let x = if p == m {
            s.0
        } else {
            s.1
        };
        let y = if q == m {
            s.0
        } else {
            s.1
        };
        let xm = (x.0.mirrored(), x.1.mirrored());
        let at_p = p == m || p == m + 1;
        let at_q = q == m || q == m + 1;
        lemma_gram_is_inner(a, m, q, n);
        lemma_gram_is_inner(a, m + 1, q, n);
        lemma_gram_is_inner(a, p, m, n);
        lemma_gram_is_inner(a, p, m + 1, n);
        lemma_gram_is_inner(a, m, m, n);
        lemma_gram_is_inner(a, m, m + 1, n);
        lemma_gram_is_inner(a, m + 1, m, n);
        lemma_gram_is_inner(a, m + 1, m + 1, n);
        assert(gram(a, m, m, n) == one && gram(a, m, m + 1, n) == zero && gram(a, m + 1, m, n)
            == zero && gram(a, m + 1, m + 1, n) == one);
        if at_p && at_q {
            lemma_inner_blended(x, f, g, made(q), n);
            lemma_inner_blended(y, f, g, f, n);
            lemma_inner_blended(y, f, g, g, n);
            // inner(f, made(q)) = y.0 and inner(g, made(q)) = y.1
            lemma_mix_first(y, one);
            lemma_mix_second(y, one);
            ring(y.0, one, one);
            ring(y.1, one, one);
            assert(gram(b, p, q, n) == mix(xm, y.0, y.1));
        } else if at_p {
            lemma_inner_blended(x, f, g, column(a, q), n);
            assert(gram(a, m, q, n) == zero && gram(a, m + 1, q, n) == zero);
            lemma_mix_first(xm, zero);
            ring(xm.0, zero, zero);
        } else if at_q {
            lemma_inner_blended(y, f, g, column(a, p), n);
            assert(gram(a, p, m, n) == zero && gram(a, p, m + 1, n) == zero);
            lemma_mix_first(y, zero);
            ring(y.0, zero, zero);
        }
    }
}

proof fn lemma_right_keeps<T: Scalar>(
    n: int,
    a: &Matrix<Cx<T>>,
    b: &Matrix<Cx<T>>,
    m: int,
    w: Wave<T>,
)
    requires
        exact::<T>(),
        0 <= m && m + 1 < n,
        a.shaped(n, n),
        right_step(a, b, m, w),
        orthonormal_weights(sent(w)),
        orthonormal(n, a),
    ensures
        orthonormal(n, b),
{
    assert forall|r: int, k: int| 0 <= r < n && 0 <= k < n implies #[trigger] b.at(r, k) == (if k
        == m {
        mix(sent(w).0, a.at(r, m), a.at(r, m + 1))
    } else if k == m + 1 {
        mix(sent(w).1, a.at(r, m), a.at(r, m + 1))
    } else {
        a.at(r, k)
    }) by {
        lemma_sent(a.at(r, m), a.at(r, m + 1), w);
    }
    lemma_columns_keep(n, a, b, m, sent(w));
}

/// Two rows mixed on orthonormal weights leave what they add to an inner
/// product.
proof fn lemma_pair_keeps<T: Scalar>(
    s: Weights<T>,
    x0: Cx<T>,
    x1: Cx<T>,
    y0: Cx<T>,
    y1: Cx<T>,
)
    requires
        exact::<T>(),
        orthonormal_weights(s),
    ensures
        mix(s.0, x0, x1).mirrored().product(mix(s.0, y0, y1)).sum(
            mix(s.1, x0, x1).mirrored().product(mix(s.1, y0, y1)),
        ) == x0.mirrored().product(y0).sum(x1.mirrored().product(y1)),
{
    let (a, b) = (x0.mirrored(), x1.mirrored());
    let p = (s.0.0.mirrored(), s.0.1.mirrored());
    let q = (s.1.0.mirrored(), s.1.1.mirrored());
    conjugation(s.0.0.product(x0), s.0.1.product(x1), x0.re);
    conjugation(s.1.0.product(x0), s.1.1.product(x1), x0.re);
    conjugation(s.0.0, x0, x0.re);
    conjugation(s.0.1, x1, x0.re);
    conjugation(s.1.0, x0, x0.re);
    conjugation(s.1.1, x1, x0.re);
    let (u, v) = (mix(p, a, b), mix(q, a, b));
    assert(mix(s.0, x0, x1).mirrored() == u && mix(s.1, x0, x1).mirrored() == v);
    lemma_mix_of_mixes((u, v), s.0, s.1, y0, y1);
    // u.s00 + v.s10 = a, u.s01 + v.s11 = b
    ring(u, s.0.0, u);
    ring(v, s.1.0, u);
    ring(u, s.0.1, u);
    ring(v, s.1.1, u);
    lemma_mix_of_mixes((s.0.0, s.1.0), p, q, a, b);
    lemma_mix_of_mixes((s.0.1, s.1.1), p, q, a, b);
    lemma_mix_picks(a, b);
    assert(mix((u, v), s.0.0, s.1.0) == mix((s.0.0, s.1.0), u, v));
    assert(mix((u, v), s.0.1, s.1.1) == mix((s.0.1, s.1.1), u, v));
}

proof fn lemma_left_gram<T: Scalar>(
    n: int,
    a: &Matrix<Cx<T>>,
    b: &Matrix<Cx<T>>,
    m: int,
    w: Wave<T>,
    p: int,
    q: int,
    k: int,
)
    requires
        exact::<T>(),
        0 <= m && m + 1 < n,
        a.shaped(n, n),
        left_step(a, b, m, w),
        orthonormal_weights(sent(w)),
        0 <= p < n,
        0 <= q < n,
        0 <= k <= n,
        k != m + 1,
    ensures
        gram(b, p, q, k) == gram(a, p, q, k),
    decreases k,
{
    if k > 0 {
        if k == m + 2 {
            lemma_left_gram(n, a, b, m, w, p, q, m);
            let s = sent(w);
            let (x0, x1, y0, y1) = (a.at(m, p), a.at(m + 1, p), a.at(m, q), a.at(m + 1, q));
            lemma_sent(x0, x1, w);
            lemma_sent(y0, y1, w);
            assert(b.at(m, p) == mix(s.0, x0, x1) && b.at(m + 1, p) == mix(s.1, x0, x1));
            assert(b.at(m, q) == mix(s.0, y0, y1) && b.at(m + 1, q) == mix(s.1, y0, y1));
            lemma_pair_keeps(s, x0, x1, y0, y1);
            let g = gram(a, p, q, m);
            let (c, d) = (
                b.at(m, p).mirrored().product(b.at(m, q)),
                b.at(m + 1, p).mirrored().product(b.at(m + 1, q)),
            );
            let (e, f) = (x0.mirrored().product(y0), x1.mirrored().product(y1));
            ring(g, c, d);
            ring(g, e, f);
            assert(gram(b, p, q, m + 1) == gram(b, p, q, m).sum(c));
            assert(gram(b, p, q, m + 2) == gram(b, p, q, m + 1).sum(d));
            assert(gram(a, p, q, m + 1) == g.sum(e));
            assert(gram(a, p, q, m + 2) == gram(a, p, q, m + 1).sum(f));
        } else {
            lemma_left_gram(n, a, b, m, w, p, q, k - 1);
            assert(b.at(k - 1, p) == a.at(k - 1, p));
            assert(b.at(k - 1, q) == a.at(k - 1, q));
        }
    }
}

/// Every step keeps the columns orthonormal.
proof fn lemma_steps_keep<
    T: Scalar,
    R: Fn(Cx<T>, Cx<T>) -> Null<T>,
    L: Fn(Cx<T>, Cx<T>) -> Null<T>,
>(
    n: int,
    ws: Seq<Matrix<Cx<T>>>,
    log: Seq<Nulling<T>>,
    u: &Matrix<Cx<T>>,
    right: R,
    left: L,
    o: Circle<T>,
    pi: T,
    k: int,
)
    requires
        exact::<T>(),
        o.wf(pi),
        answers(o, right, left),
        eliminates(ws, log, n, u, right, left),
        n >= 1,
        log.len() == steps_before(n - 1),
        u.shaped(n, n),
        orthonormal(n, u),
        0 <= k <= log.len(),
    ensures
        orthonormal(n, &ws[k]),
    decreases k,
{
    if k == 0 {
        let a = ws[0];
        assert forall|p: int, q: int| 0 <= p < n && 0 <= q < n implies #[trigger] gram(
            &a,
            p,
            q,
            n,
        ) == (if p == q {
            Cx::<T>::unit()
        } else {
            Cx::nought()
        }) by {
            lemma_gram_is_inner(&a, p, q, n);
            lemma_gram_is_inner(u, p, q, n);
            lemma_inner_alike(column(&a, p), column(&a, q), column(u, p), column(u, q), n);
            assert(gram(u, p, q, n) == gram(u, p, q, n));
        }
    } else {
        lemma_steps_keep(n, ws, log, u, right, left, o, pi, k - 1);
        lemma_shapes(n, ws, log, u, right, left, o, pi, k - 1);
        let (i, j) = lemma_step_of(k - 1, n - 1);
        assert(step_ok(ws, log, n, i, j, right, left));
        let x = log[k - 1];
        let (a, b) = (ws[k - 1], ws[k - 1 + 1]);
        let (r, c) = target(n, i, j);
        let (e, f) = ((o.turn)(x.phi), (o.back)(x.phi));
        assert(o.round(x.theta, x.phi));
        ring(e, f, f);
        if i % 2 == 0 {
            let w = choose|w: Wave<T>|
                call_ensures(right, (a.at(r, c), a.at(r, c + 1)), (x.theta, x.phi, w))
                    && #[trigger] right_step(&a, &b, c, w);
            lemma_sent_orthonormal(w);
            lemma_right_keeps(n, &a, &b, c, w);
        } else {
            let w = choose|w: Wave<T>|
                call_ensures(left, (a.at(r - 1, c), a.at(r, c)), (x.theta, x.phi, w))
                    && #[trigger] left_step(&a, &b, r - 1, w);
            lemma_sent_orthonormal(w);
            assert forall|p: int, q: int| 0 <= p < n && 0 <= q < n implies #[trigger] gram(
                &b,
                p,
                q,
                n,
            ) == (if p == q {
                Cx::<T>::unit()
            } else {
                Cx::nought()
            }) by {
                lemma_left_gram(n, &a, &b, r - 1, w, p, q, n);
                assert(gram(&a, p, q, n) == gram(&a, p, q, n));
            }
        }
    }
}

/// Where column `r` is zero but for its diagonal entry, an inner product with
/// it has one term.
pub proof fn lemma_one_term<T: Scalar>(n: int, a: &Matrix<Cx<T>>, r: int, q: int, k: int)
    requires
        exact::<T>(),
        0 <= r < n,
        0 <= k <= n,
        forall|x: int| 0 <= x < n && x != r ==> #[trigger] a.at(x, r) == Cx::<T>::nought(),
    ensures
        gram(a, r, q, k) == (if k > r {
            a.at(r, r).mirrored().product(a.at(r, q))
        } else {
            Cx::nought()
        }),
    decreases k,
{
    let zero = Cx::<T>::nought();
    if k > 0 {
        lemma_one_term(n, a, r, q, k - 1);
        conjugation(zero, zero, T::zero_value());
        let t = a.at(r, r).mirrored().product(a.at(r, q));
        ring(a.at(k - 1, q), zero, zero);
        ring(zero, a.at(k - 1, q), zero);
        ring(t, zero, zero);
        ring(zero, t, zero);
        ring(zero, zero, zero);
        if k - 1 != r {
            assert(a.at(k - 1, r) == zero);
        }
    }
}

/// A matrix with orthonormal columns and nothing below its diagonal has
/// nothing above it either, and its diagonal has unit length.
proof fn lemma_upper_cleared<T: Scalar>(n: int, a: &Matrix<Cx<T>>, r: int)
    requires
        exact::<T>(),
        orthonormal(n, a),
        forall|row: int, col: int|
            0 <= col < row < n ==> #[trigger] a.at(row, col) == Cx::<T>::nought(),
        0 <= r <= n,
    ensures
        forall|row: int, col: int|
            0 <= row < r && 0 <= col < n && row != col ==> #[trigger] a.at(row, col) == Cx::<
                T,
            >::nought(),
        forall|row: int|
            0 <= row < r ==> (#[trigger] a.at(row, row)).mirrored().product(a.at(row, row))
                == Cx::<T>::unit(),
    decreases r,
{
    if r > 0 {
        lemma_upper_cleared(n, a, r - 1);
        let x = r - 1;
        let zero = Cx::<T>::nought();
        let d = a.at(x, x);
        lemma_one_term(n, a, x, x, n);
        assert(gram(a, x, x, n) == Cx::<T>::unit());
        assert forall|col: int| 0 <= col < n && col != x implies #[trigger] a.at(x, col)
            == zero by {
            if col > x {
                let z = a.at(x, col);
                lemma_one_term(n, a, x, col, n);
                assert(gram(a, x, col, n) == zero);
                // z = (d.d*).z = d.(d*.z) = 0
                ring(d, d.mirrored(), z);
                ring(d, zero, zero);
                ring(z, Cx::unit(), zero);
                ring(Cx::unit(), z, zero);
                ring(d.mirrored(), d, zero);
            }
        }
    }
}

/// `arg` is the angle of every number of unit length.
pub open spec fn measures<T: Scalar, A: Fn(Cx<T>) -> T>(o: Circle<T>, arg: A) -> bool {
    forall|z: Cx<T>, t: T| #[trigger]
        call_ensures(arg, (z,), t) && z.mirrored().product(z) == Cx::<T>::unit() ==> (o.turn)(t)
            == z
}

/// Decomposing a unitary matrix and multiplying the mesh out again gives the
/// matrix back: in exact arithmetic, with angles that null exactly, waves and
/// output phasors of the programmed angles, every entry of the mesh's matrix is
/// that of `u`.
pub proof fn decomposing_round_trips<
    T: Scalar,
    V: Fn(T) -> bool,
    R: Fn(Cx<T>, Cx<T>) -> Null<T>,
    L: Fn(Cx<T>, Cx<T>) -> Null<T>,
    A: Fn(Cx<T>) -> T,
>(
    u: &Matrix<Cx<T>>,
    unitary: V,
    right: R,
    left: L,
    arg: A,
    pi: T,
    mesh: ClementsMesh<T>,
    o: Circle<T>,
    waves: Seq<Wave<T>>,
    screen: Seq<Cx<T>>,
    s: Seq<Matrix<Cx<T>>>,
    made: &Matrix<Cx<T>>,
)
    requires
        exact::<T>(),
        o.wf(pi),
        answers(o, right, left),
        nulls(right, left),
        measures(o, arg),
        u.wf(),
        u.rows >= 1,
        orthonormal(u.rows as int, u),
        decomposes(u, unitary, right, left, arg, pi, Ok::<_, MeshError<T>>(mesh)),
        forall|k: int|
            0 <= k < mesh.mzis@.len() ==> #[trigger] waves[k] == o.wave(
                mesh.mzis@[k].theta,
                mesh.mzis@[k].phi,
            ),
        screen == turns(o, mesh.output_phases@),
        assembles(s, mesh.n as int, mesh.mzis@, waves),
        forall|j: int, c: int|
            0 <= j < mesh.n && 0 <= c < mesh.n ==> #[trigger] made.at(j, c) == screen[j].product(
                s[mesh.mzis@.len() as int].at(j, c),
            ),
    ensures
        forall|j: int, c: int|
            0 <= j < u.rows && 0 <= c < u.rows ==> #[trigger] made.at(j, c) == u.at(j, c),
{
    let n = u.rows as int;
    let (ws, log, alpha) = choose|ws: Seq<Matrix<Cx<T>>>, log: Seq<Nulling<T>>, alpha: Seq<T>|
        #[trigger] realizes(u, right, left, arg, pi, &mesh, ws, log, alpha);
    let len = log.len() as int;
    lemma_steps_are_counted(n - 1);
    lemma_all_cleared(n, ws, log, u, right, left, o, pi, n - 1, 0);
    lemma_steps_keep(n, ws, log, u, right, left, o, pi, len);
    let last = ws[len];
    assert forall|row: int, col: int| 0 <= col < row < n implies #[trigger] last.at(row, col)
        == Cx::<T>::nought() by {
        assert(visited(n, n - 1, 0, row, col));
    }
    lemma_upper_cleared(n, &last, n);
    assert forall|r: int, c: int| 0 <= r < n && 0 <= c < n implies #[trigger] last.at(r, c) == (
    if r == c {
        (o.turn)(alpha[r])
    } else {
        Cx::nought()
    }) by {
        assert(call_ensures(arg, (last.at(r, r),), alpha[r]));
    }
    lemma_mesh_rebuilds(
        u,
        right,
        left,
        arg,
        pi,
        &mesh,
        ws,
        log,
        alpha,
        o,
        waves,
        screen,
        s,
        made,
    );
}

} // verus!
