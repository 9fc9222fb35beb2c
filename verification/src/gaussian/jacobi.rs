//! Cyclic Jacobi diagonalization of symmetric matrices.
//!
//! A sweep visits every pair (p, q) above the diagonal and turns that plane so
//! that the entry vanishes. Sweeps go on until what is left off the diagonal
//! is small against the whole matrix, or [`MAX_SWEEPS`] are done. Roots,
//! magnitudes and signs come in as functions.

use crate::matrix::Matrix;
use crate::scalar::Scalar;
use vstd::prelude::*;

verus! {

/// Most sweeps that are made.
pub const MAX_SWEEPS: usize = 64;

/// The functions and limits that the solver works with.
pub struct Jacobi<T, R, M, S> {
    /// Square root.
    pub root: R,
    /// Absolute value.
    pub magnitude: M,
    /// One with the sign of its argument.
    pub sign: S,
    /// Entries of at most this magnitude are left alone.
    pub tiny: T,
    /// Off-diagonal weight, relative to the whole, at which sweeps stop.
    pub relative: T,
}

/// The matrix under work and the turns made so far.
pub struct Turned<T> {
    pub a: Matrix<T>,
    pub v: Matrix<T>,
}

/// Columns p and q of `before` turned by (c, s).
pub open spec fn turned_cols<T: Scalar>(
    before: &Matrix<T>,
    after: &Matrix<T>,
    p: int,
    q: int,
    c: T,
    s: T,
) -> bool {
    &&& after.shaped(before.rows as int, before.cols as int)
    &&& forall|i: int, j: int|
        0 <= i < before.rows && 0 <= j < before.cols ==> #[trigger] after.at(i, j) == (if j == p {
            c.product(before.at(i, p)).difference(s.product(before.at(i, q)))
        } else if j == q {
            s.product(before.at(i, p)).sum(c.product(before.at(i, q)))
        } else {
            before.at(i, j)
        })
}

/// Rows p and q of `before` turned by (c, s).
pub open spec fn turned_rows<T: Scalar>(
    before: &Matrix<T>,
    after: &Matrix<T>,
    p: int,
    q: int,
    c: T,
    s: T,
) -> bool {
    &&& after.shaped(before.rows as int, before.cols as int)
    &&& forall|i: int, j: int|
        0 <= i < before.rows && 0 <= j < before.cols ==> #[trigger] after.at(i, j) == (if i == p {
            c.product(before.at(p, j)).difference(s.product(before.at(q, j)))
        } else if i == q {
            s.product(before.at(p, j)).sum(c.product(before.at(q, j)))
        } else {
            before.at(i, j)
        })
}

fn turn_cols<T: Scalar>(m: &mut Matrix<T>, p: usize, q: usize, c: T, s: T)
    requires
        old(m).wf(),
        p < q < old(m).cols,
    ensures
        turned_cols(old(m), final(m), p as int, q as int, c, s),
{
    let n: usize = m.rows;
    let ghost w = m.cols as int;
    let mut k: usize = 0;
    while k < n
        invariant
            n == old(m).rows,
            w == old(m).cols,
            m.shaped(n as int, w),
            p < q < w,
            k <= n,
            forall|i: int, j: int|
                0 <= i < n && 0 <= j < w ==> #[trigger] m.at(i, j) == (if i < k && j == p {
                    c.product(old(m).at(i, p as int)).difference(s.product(old(m).at(i, q as int)))
                } else if i < k && j == q {
                    s.product(old(m).at(i, p as int)).sum(c.product(old(m).at(i, q as int)))
                } else {
                    old(m).at(i, j)
                }),
        decreases n - k,
    {
        let x = m.get(k, p);
        let y = m.get(k, q);
        m.put(k, p, c.times(x).minus(s.times(y)));
        m.put(k, q, s.times(x).plus(c.times(y)));
        k += 1;
    }
}

fn turn_rows<T: Scalar>(m: &mut Matrix<T>, p: usize, q: usize, c: T, s: T)
    requires
        old(m).wf(),
        p < q < old(m).rows,
    ensures
        turned_rows(old(m), final(m), p as int, q as int, c, s),
{
    let w: usize = m.cols;
    let ghost n = m.rows as int;
    let mut k: usize = 0;
    while k < w
        invariant
            n == old(m).rows,
            w == old(m).cols,
            m.shaped(n, w as int),
            p < q < n,
            k <= w,
            forall|i: int, j: int|
                0 <= i < n && 0 <= j < w ==> #[trigger] m.at(i, j) == (if j < k && i == p {
                    c.product(old(m).at(p as int, j)).difference(s.product(old(m).at(q as int, j)))
                } else if j < k && i == q {
                    s.product(old(m).at(p as int, j)).sum(c.product(old(m).at(q as int, j)))
                } else {
                    old(m).at(i, j)
                }),
        decreases w - k,
    {
        let x = m.get(p, k);
        let y = m.get(q, k);
        m.put(p, k, c.times(x).minus(s.times(y)));
        m.put(q, k, s.times(x).plus(c.times(y)));
        k += 1;
    }
}

/// Squares above the diagonal of row `i`, up to column `j`.
pub open spec fn off_row<T: Scalar>(a: &Matrix<T>, i: int, j: int, acc: T) -> T
    decreases j - i,
{
    if j <= i + 1 {
        acc
    } else {
        off_row(a, i, j - 1, acc).sum(a.at(i, j - 1).product(a.at(i, j - 1)))
    }
}

/// Squares above the diagonal in the first `i` rows, added in order.
pub open spec fn off_sum<T: Scalar>(a: &Matrix<T>, i: int) -> T
    decreases i,
{
    if i <= 0 {
        T::zero_value()
    } else {
        off_row(a, i - 1, a.cols as int, off_sum(a, i - 1))
    }
}

/// Squares of the first `k` entries, added in order.
pub open spec fn weight<T: Scalar>(data: Seq<T>, k: int) -> T
    decreases k,
{
    if k <= 0 {
        T::zero_value()
    } else {
        weight(data, k - 1).sum(data[k - 1].product(data[k - 1]))
    }
}

/// The pairs of a sweep: row by row, each above the diagonal.
pub open spec fn pairs(n: int, p: int) -> Seq<(int, int)>
    decreases p,
{
    if p <= 0 {
        Seq::empty()
    } else {
        pairs(n, p - 1) + row_pairs(n, p - 1)
    }
}

pub open spec fn row_pairs(n: int, p: int) -> Seq<(int, int)> {
    Seq::new((n - 1 - p) as nat, |k: int| (p, p + 1 + k))
}

impl<T: Scalar, R: Fn(T) -> T, M: Fn(T) -> T, S: Fn(T) -> T> Jacobi<T, R, M, S> {
    /// The functions take any sample.
    pub open spec fn ready(&self) -> bool {
        &&& forall|x: T| #[trigger] call_requires(self.root, (x,))
        &&& forall|x: T| #[trigger] call_requires(self.magnitude, (x,))
        &&& forall|x: T| #[trigger] call_requires(self.sign, (x,))
    }

    /// The slope of the plane: half the difference on the diagonal over the
    /// entry that is to vanish.
    pub open spec fn slope(app: T, apq: T, aqq: T) -> T {
        aqq.difference(app).quotient(T::of_count(2).product(apq))
    }

    /// (c, s) turns the plane so that its off-diagonal entry vanishes: the
    /// tangent is the smaller root of t^2 + 2 t tau - 1.
    pub open spec fn turns_from(
        &self,
        app: T,
        apq: T,
        aqq: T,
        cs: (T, T),
        by: (T, T, T, T),
    ) -> bool {
        let tau = Self::slope(app, apq, aqq);
        let (sg, mg, r1, r2) = by;
        let t = sg.quotient(mg.sum(r1));
        &&& call_ensures(self.sign, (tau,), sg)
        &&& call_ensures(self.magnitude, (tau,), mg)
        &&& call_ensures(self.root, (tau.product(tau).sum(T::of_count(1)),), r1)
        &&& call_ensures(self.root, (t.product(t).sum(T::of_count(1)),), r2)
        &&& cs.0 == T::of_count(1).quotient(r2)
        &&& cs.1 == t.product(cs.0)
    }

    pub open spec fn is_turn(&self, app: T, apq: T, aqq: T, cs: (T, T)) -> bool {
        exists|by: (T, T, T, T)| #[trigger] self.turns_from(app, apq, aqq, cs, by)
    }

    /// Sine and cosine of the plane rotation.
    pub fn turn(&self, app: T, apq: T, aqq: T) -> (cs: (T, T))
        requires
            self.ready(),
        ensures
            self.is_turn(app, apq, aqq, cs),
    {
        let one = T::from_count(1);
        let tau = aqq.minus(app).over(T::from_count(2).times(apq));
        let sg = (self.sign)(tau);
        let mg = (self.magnitude)(tau);
        let r1 = (self.root)(tau.times(tau).plus(one));
        let t = sg.over(mg.plus(r1));
        let r2 = (self.root)(t.times(t).plus(one));
        let c = one.over(r2);
        let cs = (c, t.times(c));
        assert(self.turns_from(app, apq, aqq, cs, (sg, mg, r1, r2)));
        cs
    }

    /// The plane (p, q) is turned by (c, s), in the matrix and in the turns.
    pub open spec fn plane_turned(
        x: &Turned<T>,
        y: &Turned<T>,
        p: int,
        q: int,
        cs: (T, T),
        mid: Matrix<T>,
    ) -> bool {
        &&& turned_cols(&x.a, &mid, p, q, cs.0, cs.1)
        &&& turned_rows(&mid, &y.a, p, q, cs.0, cs.1)
        &&& turned_cols(&x.v, &y.v, p, q, cs.0, cs.1)
    }

    pub open spec fn turned_by(
        &self,
        x: &Turned<T>,
        y: &Turned<T>,
        p: int,
        q: int,
        cs: (T, T),
    ) -> bool {
        &&& self.is_turn(x.a.at(p, p), x.a.at(p, q), x.a.at(q, q), cs)
        &&& exists|mid: Matrix<T>| #[trigger] Self::plane_turned(x, y, p, q, cs, mid)
    }

    /// What the visit of a pair does, given the magnitude of its entry.
    pub open spec fn visited_at(
        &self,
        x: &Turned<T>,
        y: &Turned<T>,
        p: int,
        q: int,
        size: T,
    ) -> bool {
        &&& call_ensures(self.magnitude, (x.a.at(p, q),), size)
        &&& if self.tiny.at_least(size) {
            *y == *x
        } else {
            exists|cs: (T, T)| #[trigger] self.turned_by(x, y, p, q, cs)
        }
    }

    pub open spec fn visited(&self, x: &Turned<T>, y: &Turned<T>, p: int, q: int) -> bool {
        exists|size: T| #[trigger] self.visited_at(x, y, p, q, size)
    }

    /// `xs` visits the pairs in order.
    pub open spec fn visits(&self, xs: Seq<Turned<T>>, ps: Seq<(int, int)>) -> bool {
        &&& xs.len() == ps.len() + 1
        &&& forall|k: int| 0 <= k < ps.len() ==> #[trigger] self.visits_at(xs, ps, k)
    }

    pub open spec fn visits_at(&self, xs: Seq<Turned<T>>, ps: Seq<(int, int)>, k: int) -> bool {
        self.visited(&xs[k], &xs[k + 1], ps[k].0, ps[k].1)
    }

    /// One sweep leads from `x` to `y`.
    pub open spec fn swept(&self, x: &Turned<T>, y: &Turned<T>) -> bool {
        exists|xs: Seq<Turned<T>>| #[trigger] self.sweep_of(xs, x, y)
    }

    pub open spec fn sweep_of(&self, xs: Seq<Turned<T>>, x: &Turned<T>, y: &Turned<T>) -> bool {
        let n = x.a.rows as int;
        self.visits(xs, pairs(n, n)) && xs[0] == *x && xs.last() == *y
    }

    /// What is left off the diagonal is small against `scale`, or not.
    pub open spec fn judged(&self, a: &Matrix<T>, scale: T, settled: bool) -> bool {
        exists|off: T|
            #[trigger] call_ensures(self.root, (off_sum(a, a.rows as int),), off) && settled
                == self.relative.product(scale).at_least(off)
    }

    /// `xs` are the states after each sweep: from the matrix itself, sweep by
    /// sweep, to the first that is settled or to the last allowed.
    pub open spec fn diagonalizes(&self, m: &Matrix<T>, scale: T, xs: Seq<Turned<T>>) -> bool {
        &&& 1 <= xs.len() <= MAX_SWEEPS + 1
        &&& xs[0].a.same(m)
        &&& xs[0].v.is_identity(m.rows as int)
        &&& forall|k: int| 0 <= k < xs.len() - 1 ==> #[trigger] self.sweep_at(xs, k, scale)
        &&& xs.len() == MAX_SWEEPS + 1 || self.judged(&xs.last().a, scale, true)
    }

    pub open spec fn sweep_at(&self, xs: Seq<Turned<T>>, k: int, scale: T) -> bool {
        self.judged(&xs[k].a, scale, false) && self.swept(&xs[k], &xs[k + 1])
    }

    /// The weight of the matrix, floored at the least positive sample.
    pub open spec fn is_scale(&self, m: &Matrix<T>, scale: T) -> bool {
        exists|r: T|
            #[trigger] call_ensures(self.root, (weight(m.data@, m.data@.len() as int),), r)
                && scale == (if r.at_least(self.tiny) {
                r
            } else {
                self.tiny
            })
    }

    fn visit(&self, x: &mut Turned<T>, p: usize, q: usize)
        requires
            self.ready(),
            old(x).a.wf(),
            old(x).v.wf(),
            old(x).a.rows == old(x).a.cols,
            old(x).v.cols == old(x).a.cols,
            p < q < old(x).a.rows,
        ensures
            self.visited(old(x), final(x), p as int, q as int),
            final(x).a.shaped(old(x).a.rows as int, old(x).a.cols as int),
            final(x).v.shaped(old(x).v.rows as int, old(x).v.cols as int),
    {
        let ghost before = *x;
        let apq = x.a.get(p, q);
        let size = (self.magnitude)(apq);
        if self.tiny.reaches(size) {
            assert(self.visited_at(&before, x, p as int, q as int, size));
            return;
        }
        let cs = self.turn(x.a.get(p, p), apq, x.a.get(q, q));
        turn_cols(&mut x.a, p, q, cs.0, cs.1);
        let ghost mid = x.a;
        turn_rows(&mut x.a, p, q, cs.0, cs.1);
        turn_cols(&mut x.v, p, q, cs.0, cs.1);
        proof {
            assert(Self::plane_turned(&before, x, p as int, q as int, cs, mid));
            assert(self.turned_by(&before, x, p as int, q as int, cs));
            assert(self.visited_at(&before, x, p as int, q as int, size));
        }
    }

    proof fn lemma_visit(
        &self,
        xs: Seq<Turned<T>>,
        ps: Seq<(int, int)>,
        x: Turned<T>,
        pq: (int, int),
    )
        requires
            self.visits(xs, ps),
            self.visited(&xs.last(), &x, pq.0, pq.1),
        ensures
            self.visits(xs.push(x), ps.push(pq)),
    {
        assert forall|k: int| 0 <= k < ps.push(pq).len() implies #[trigger] self.visits_at(
            xs.push(x),
            ps.push(pq),
            k,
        ) by {
            if k < ps.len() {
                assert(self.visits_at(xs, ps, k));
            }
        }
    }

    fn sweep(&self, x: &mut Turned<T>)
        requires
            self.ready(),
            old(x).a.wf(),
            old(x).v.wf(),
            old(x).a.rows == old(x).a.cols,
            old(x).v.cols == old(x).a.cols,
        ensures
            self.swept(old(x), final(x)),
            final(x).a.shaped(old(x).a.rows as int, old(x).a.cols as int),
            final(x).v.shaped(old(x).v.rows as int, old(x).v.cols as int),
    {
        let n: usize = x.a.rows;
        let ghost before = *x;
        let ghost mut xs: Seq<Turned<T>> = seq![*x];
        let ghost mut ps: Seq<(int, int)> = Seq::empty();
        let mut p: usize = 0;
        while p < n
            invariant
                p <= n,
                n == before.a.rows,
                n == before.a.cols,
                self.ready(),
                x.a.shaped(n as int, n as int),
                x.v.shaped(before.v.rows as int, n as int),
                self.visits(xs, ps),
                xs[0] == before,
                xs.last() == *x,
                ps == pairs(n as int, p as int),
            decreases n - p,
        {
            let ghost base = ps;
            let mut q: usize = p + 1;
            assert(base + row_pairs(n as int, p as int).take(0) =~= base);
            while q < n
                invariant
                    p < q <= n,
                    n == before.a.rows,
                    n == before.a.cols,
                    self.ready(),
                    x.a.shaped(n as int, n as int),
                    x.v.shaped(before.v.rows as int, n as int),
                    self.visits(xs, ps),
                    xs[0] == before,
                    xs.last() == *x,
                    ps == base + row_pairs(n as int, p as int).take(q - p - 1),
                decreases n - q,
            {
                self.visit(x, p, q);
                proof {
                    self.lemma_visit(xs, ps, *x, (p as int, q as int));
                    xs = xs.push(*x);
                    ps = ps.push((p as int, q as int));
                    assert(ps =~= base + row_pairs(n as int, p as int).take(q - p));
                }
                q += 1;
            }
            assert(row_pairs(n as int, p as int).take(n - p - 1) =~= row_pairs(n as int, p as int));
            p += 1;
        }
        assert(self.sweep_of(xs, &before, x));
    }

    fn off_weight(a: &Matrix<T>) -> (r: T)
        requires
            a.wf(),
            a.rows == a.cols,
        ensures
            r == off_sum(a, a.rows as int),
    {
        let n: usize = a.rows;
        let mut acc = T::zero();
        let mut i: usize = 0;
        while i < n
            invariant
                a.wf(),
                a.rows == a.cols,
                n == a.rows,
                i <= n,
                acc == off_sum(a, i as int),
            decreases n - i,
        {
            let ghost base = acc;
            let mut j: usize = i + 1;
            while j < n
                invariant
                    a.wf(),
                    a.rows == a.cols,
                    n == a.rows,
                    i < j <= n,
                    acc == off_row(a, i as int, j as int, base),
                decreases n - j,
            {
                acc = acc.plus(a.get(i, j).times(a.get(i, j)));
                j += 1;
            }
            i += 1;
        }
        acc
    }

    fn whole_weight(m: &Matrix<T>) -> (r: T)
        ensures
            r == weight(m.data@, m.data@.len() as int),
    {
        let n: usize = m.data.len();
        let mut acc = T::zero();
        let mut k: usize = 0;
        while k < n
            invariant
                n == m.data@.len(),
                k <= n,
                acc == weight(m.data@, k as int),
            decreases n - k,
        {
            acc = acc.plus(m.data[k].times(m.data[k]));
            k += 1;
        }
        acc
    }

    pub open spec fn eigen_from(
        &self,
        m: &Matrix<T>,
        eig: Seq<T>,
        v: &Matrix<T>,
        scale: T,
        xs: Seq<Turned<T>>,
    ) -> bool {
        &&& self.is_scale(m, scale)
        &&& self.diagonalizes(m, scale, xs)
        &&& eig == Seq::new(m.rows as nat, |k: int| xs.last().a.at(k, k))
        &&& *v == xs.last().v
    }

    /// `eig` and `v` are what the sweeps leave of `m`.
    pub open spec fn is_eigen(&self, m: &Matrix<T>, eig: Seq<T>, v: &Matrix<T>) -> bool {
        exists|scale: T, xs: Seq<Turned<T>>| #[trigger] self.eigen_from(m, eig, v, scale, xs)
    }
}

/// Eigenvalues, as they stand on the diagonal, and eigenvectors as columns
/// of a symmetric matrix.
pub fn jacobi_eigh<T: Scalar, R: Fn(T) -> T, M: Fn(T) -> T, S: Fn(T) -> T>(
    m: &Matrix<T>,
    solver: &Jacobi<T, R, M, S>,
) -> (r: (Vec<T>, Matrix<T>))
    requires
        solver.ready(),
        m.wf(),
        m.rows == m.cols,
    ensures
        solver.is_eigen(m, r.0@, &r.1),
        r.0@.len() == m.rows,
        r.1.shaped(m.rows as int, m.rows as int),
{
    let n: usize = m.rows;
    let size: usize = m.data.len();
    let norm = (solver.root)(Jacobi::<T, R, M, S>::whole_weight(m));
    let scale = if norm.reaches(solver.tiny) {
        norm
    } else {
        solver.tiny
    };
    assert(solver.is_scale(m, scale)) by {
        assert(call_ensures(solver.root, (weight(m.data@, m.data@.len() as int),), norm));
    }
    let mut x = Turned { a: m.copy(), v: Matrix::identity(n) };
    let ghost mut xs: Seq<Turned<T>> = seq![x];
    let mut done: usize = 0;
    let mut settled = false;
    while done < MAX_SWEEPS && !settled
        invariant
            done <= MAX_SWEEPS,
            solver.ready(),
            n == m.rows,
            n == m.cols,
            x.a.shaped(n as int, n as int),
            x.v.shaped(n as int, n as int),
            xs.len() == done + 1,
            xs[0].a.same(m),
            xs[0].v.is_identity(n as int),
            xs.last() == x,
            forall|k: int| 0 <= k < done ==> #[trigger] solver.sweep_at(xs, k, scale),
            settled ==> solver.judged(&x.a, scale, true),
        decreases MAX_SWEEPS - done + (if settled {
            0int
        } else {
            1int
        }),
    {
        let off = (solver.root)(Jacobi::<T, R, M, S>::off_weight(&x.a));
        let small = solver.relative.times(scale).reaches(off);
        assert(solver.judged(&x.a, scale, small)) by {
            assert(call_ensures(solver.root, (off_sum(&x.a, x.a.rows as int),), off));
        }
        if small {
            settled = true;
        } else {
            let ghost before = x;
            let ghost old_xs = xs;
            solver.sweep(&mut x);
            proof {
                xs = xs.push(x);
                assert forall|k: int| 0 <= k < done + 1 implies #[trigger] solver.sweep_at(
                    xs,
                    k,
                    scale,
                ) by {
                    if k < done {
                        assert(solver.sweep_at(old_xs, k, scale));
                    }
                }
            }
            done += 1;
        }
    }
    let mut eig: Vec<T> = Vec::new();
    let mut i: usize = 0;
    while i < n
        invariant
            i <= n,
            x.a.shaped(n as int, n as int),
            eig@ == Seq::new(i as nat, |k: int| x.a.at(k, k)),
        decreases n - i,
    {
        eig.push(x.a.get(i, i));
        assert(eig@ =~= Seq::new((i + 1) as nat, |k: int| x.a.at(k, k)));
        i += 1;
    }
    assert(solver.diagonalizes(m, scale, xs));
    assert(solver.eigen_from(m, eig@, &x.v, scale, xs));
    (eig, x.v)
}

} // verus!
