//! Scattering networks and their cascade.
//!
//! A network has left and right ports; the star product joins the right ports
//! of one to the left ports of the next, all internal reflections summed:
//!
//! ```text
//!   S11 = A11 + A12.(I - B11.A22)^-1.B11.A21     S12 = A12.(I - B11.A22)^-1.B12
//!   S21 = B21.(I - A22.B11)^-1.A21               S22 = B22 + B21.(I - A22.B11)^-1.A22.B12
//! ```

use crate::complex::Cx;
use crate::field::source::nonzero;
use crate::matrix::Matrix;
use crate::scalar::Scalar;
use vstd::prelude::*;

verus! {

/// Complex matrices.
pub type CMat<T> = Matrix<Cx<T>>;

/// A scattering matrix with its ports split into left and right.
pub struct Sparams<T> {
    pub n_left: usize,
    pub n_right: usize,
    /// Reflection of the left ports.
    pub s11: CMat<T>,
    /// Transmission from right to left.
    pub s12: CMat<T>,
    /// Transmission from left to right.
    pub s21: CMat<T>,
    /// Reflection of the right ports.
    pub s22: CMat<T>,
}

impl<T: Scalar> Sparams<T> {
    /// Every block has its shape.
    pub open spec fn wf(&self) -> bool {
        let (l, r) = (self.n_left as int, self.n_right as int);
        &&& self.s11.shaped(l, l)
        &&& self.s12.shaped(l, r)
        &&& self.s21.shaped(r, l)
        &&& self.s22.shaped(r, r)
    }

    /// Entry of the whole scattering matrix.
    pub open spec fn full_at(&self, i: int, j: int) -> Cx<T> {
        let l = self.n_left as int;
        if i < l && j < l {
            self.s11.at(i, j)
        } else if i < l {
            self.s12.at(i, j - l)
        } else if j < l {
            self.s21.at(i - l, j)
        } else {
            self.s22.at(i - l, j - l)
        }
    }

    /// A perfect connection of `n` ports.
    pub fn through(n: usize) -> (r: Self)
        requires
            n * n <= usize::MAX,
        ensures
            r.wf(),
            r.n_left == n,
            r.n_right == n,
            r.s12.is_identity(n as int),
            r.s21.is_identity(n as int),
            forall|i: int, j: int|
                0 <= i < n && 0 <= j < n ==> #[trigger] r.s11.at(i, j) == Cx::<T>::nought(),
            forall|i: int, j: int|
                0 <= i < n && 0 <= j < n ==> #[trigger] r.s22.at(i, j) == Cx::<T>::nought(),
    {
        Sparams {
            n_left: n,
            n_right: n,
            s11: Matrix::zeros(n, n),
            s12: Matrix::identity(n),
            s21: Matrix::identity(n),
            s22: Matrix::zeros(n, n),
        }
    }

    /// Splits a square scattering matrix: its first `n_left` ports are the
    /// left ones.
    pub fn from_full(s: &CMat<T>, n_left: usize) -> (r: Self)
        requires
            s.wf(),
            s.rows == s.cols,
            n_left <= s.rows,
        ensures
            r.wf(),
            r.n_left == n_left,
            r.n_right == s.rows - n_left,
            forall|i: int, j: int|
                0 <= i < s.rows && 0 <= j < s.rows ==> #[trigger] r.full_at(i, j) == s.at(i, j),
    {
        let n_right: usize = s.rows - n_left;
        Sparams {
            n_left,
            n_right,
            s11: block(s, 0, 0, n_left, n_left),
            s12: block(s, 0, n_left, n_left, n_right),
            s21: block(s, n_left, 0, n_right, n_left),
            s22: block(s, n_left, n_left, n_right, n_right),
        }
    }

    /// A network without reflections that transmits by `m` from left to right
    /// and by its transpose back.
    pub fn from_transmission(m: &CMat<T>) -> (r: Self)
        requires
            m.wf(),
            m.cols * m.cols <= usize::MAX,
            m.rows * m.rows <= usize::MAX,
        ensures
            r.wf(),
            r.n_left == m.cols,
            r.n_right == m.rows,
            r.s21.same(m),
            r.s12.is_transpose(m),
            forall|i: int, j: int|
                0 <= i < m.cols && 0 <= j < m.cols ==> #[trigger] r.s11.at(i, j)
                    == Cx::<T>::nought(),
            forall|i: int, j: int|
                0 <= i < m.rows && 0 <= j < m.rows ==> #[trigger] r.s22.at(i, j)
                    == Cx::<T>::nought(),
    {
        Sparams {
            n_left: m.cols,
            n_right: m.rows,
            s11: Matrix::zeros(m.cols, m.cols),
            s12: m.transpose(),
            s21: m.copy(),
            s22: Matrix::zeros(m.rows, m.rows),
        }
    }

    /// The whole scattering matrix.
    pub fn full(&self) -> (r: CMat<T>)
        requires
            self.wf(),
            self.n_left + self.n_right <= usize::MAX,
            (self.n_left + self.n_right) * (self.n_left + self.n_right) <= usize::MAX,
        ensures
            r.shaped(self.n_left + self.n_right, self.n_left + self.n_right),
            forall|i: int, j: int|
                0 <= i < r.rows && 0 <= j < r.rows ==> #[trigger] r.at(i, j) == self.full_at(i, j),
    {
        let l: usize = self.n_left;
        let n: usize = l + self.n_right;
        let entry = |i: usize, j: usize| -> (e: Cx<T>)
            requires
                self.wf(),
                l == self.n_left,
                n == l + self.n_right,
                i < n,
                j < n,
            ensures
                e == self.full_at(i as int, j as int),
            {
                if i < l && j < l {
                    self.s11.get(i, j)
                } else if i < l {
                    self.s12.get(i, j - l)
                } else if j < l {
                    self.s21.get(i - l, j)
                } else {
                    self.s22.get(i - l, j - l)
                }
            };
        let r = Matrix::build(n, n, entry);
        assert forall|i: int, j: int| 0 <= i < n && 0 <= j < n implies #[trigger] r.at(i, j)
            == self.full_at(i, j) by {
            let e = r.at(i as usize as int, j as usize as int);
        }
        r
    }
}

/// Splitting a matrix and putting it together again gives it back, and the
/// other way round, entry by entry.
pub proof fn partition_round_trips<T: Scalar>(
    s: CMat<T>,
    split: Sparams<T>,
    whole: CMat<T>,
    i: int,
    j: int,
)
    requires
        s.wf(),
        s.rows == s.cols,
        split.wf(),
        split.n_left + split.n_right == s.rows,
        forall|i: int, j: int|
            0 <= i < s.rows && 0 <= j < s.rows ==> #[trigger] split.full_at(i, j) == s.at(i, j),
        whole.shaped(s.rows as int, s.rows as int),
        forall|i: int, j: int|
            0 <= i < s.rows && 0 <= j < s.rows ==> #[trigger] whole.at(i, j) == split.full_at(i, j),
        0 <= i < s.rows,
        0 <= j < s.rows,
    ensures
        whole.at(i, j) == s.at(i, j),
{
    assert(whole.at(i, j) == split.full_at(i, j));
}

/// The block of `nr` rows and `nc` columns at (r0, c0).
fn block<T: Scalar>(s: &CMat<T>, r0: usize, c0: usize, nr: usize, nc: usize) -> (r: CMat<T>)
    requires
        s.wf(),
        r0 + nr <= s.rows,
        c0 + nc <= s.cols,
    ensures
        r.shaped(nr as int, nc as int),
        forall|i: int, j: int|
            0 <= i < nr && 0 <= j < nc ==> #[trigger] r.at(i, j) == s.at(r0 + i, c0 + j),
{
    let size: usize = s.data.len();
    proof {
        assert(nr * nc <= s.rows * s.cols) by (nonlinear_arith)
            requires
                0 <= nr <= s.rows,
                0 <= nc <= s.cols,
        ;
    }
    let entry = |i: usize, j: usize| -> (e: Cx<T>)
        requires
            s.wf(),
            r0 + nr <= s.rows,
            c0 + nc <= s.cols,
            i < nr,
            j < nc,
        ensures
            e == s.at(r0 + i, c0 + j),
        { s.get(r0 + i, c0 + j) };
    let r = Matrix::build(nr, nc, entry);
    assert forall|i: int, j: int| 0 <= i < nr && 0 <= j < nc implies #[trigger] r.at(i, j) == s.at(
        r0 + i,
        c0 + j,
    ) by {
        let e = r.at(i as usize as int, j as usize as int);
    }
    r
}

/// Whether a complex sample differs from zero.
pub open spec fn is_nonzero<T: Scalar>(z: Cx<T>) -> bool {
    nonzero(z.re) || nonzero(z.im)
}

fn differs_from_zero<T: Scalar>(z: Cx<T>) -> (r: bool)
    ensures
        r == is_nonzero(z),
{
    !(z.re.reaches(T::zero()) && T::zero().reaches(z.re)) || !(z.im.reaches(T::zero())
        && T::zero().reaches(z.im))
}

/// First place of the largest of `sizes` from `from` up to `to`.
pub open spec fn largest<T: Scalar>(sizes: Seq<T>, from: int, to: int) -> int
    decreases to - from,
{
    if to <= from + 1 {
        from
    } else {
        let best = largest(sizes, from, to - 1);
        if sizes[best].less_than(sizes[to - 1]) {
            to - 1
        } else {
            best
        }
    }
}

/// The arithmetic of a solver: modulus, division, and the modulus below which
/// a pivot counts as none.
pub struct Solver<T, S, D> {
    pub size: S,
    pub divide: D,
    pub tiny: T,
}

/// `sizes` are the moduli of column `col`, from the diagonal down.
pub open spec fn sized<T: Scalar, S: Fn(Cx<T>) -> T>(
    m: &CMat<T>,
    col: int,
    sizes: Seq<T>,
    size: S,
) -> bool {
    &&& sizes.len() == m.rows
    &&& forall|r: int|
        col <= r < m.rows ==> call_ensures(size, (m.at(r, col),), #[trigger] sizes[r])
}

/// Row `r` after rows `p` and `q` have changed places.
pub open spec fn swapped(r: int, p: int, q: int) -> int {
    if r == p {
        q
    } else if r == q {
        p
    } else {
        r
    }
}

/// Factors by which the pivot row is taken off the rows below.
pub open spec fn factors<T: Scalar, D: Fn(Cx<T>, Cx<T>) -> Cx<T>>(
    m: &CMat<T>,
    col: int,
    p: int,
    f: Seq<Cx<T>>,
    divide: D,
) -> bool {
    &&& f.len() == m.rows
    &&& forall|r: int|
        col < r < m.rows ==> call_ensures(
            divide,
            (m.at(swapped(r, p, col), col), m.at(p, col)),
            #[trigger] f[r],
        )
}

/// One forward step: the pivot row `p` is brought up to `col` and taken off
/// the rows below it, in the matrix from column `col` on and in the right-hand
/// sides throughout.
pub open spec fn forward<T: Scalar>(
    m: &CMat<T>,
    x: &CMat<T>,
    col: int,
    p: int,
    f: Seq<Cx<T>>,
    m2: &CMat<T>,
    x2: &CMat<T>,
) -> bool {
    &&& m2.shaped(m.rows as int, m.cols as int)
    &&& x2.shaped(x.rows as int, x.cols as int)
    &&& forall|r: int, j: int|
        0 <= r < m.rows && 0 <= j < m.cols ==> #[trigger] m2.at(r, j) == (if r > col && j >= col
            && is_nonzero(f[r]) {
            m.at(swapped(r, p, col), j).difference(f[r].product(m.at(p, j)))
        } else {
            m.at(swapped(r, p, col), j)
        })
    &&& forall|r: int, j: int|
        0 <= r < x.rows && 0 <= j < x.cols ==> #[trigger] x2.at(r, j) == (if r > col && is_nonzero(
            f[r],
        ) {
            x.at(swapped(r, p, col), j).difference(f[r].product(x.at(p, j)))
        } else {
            x.at(swapped(r, p, col), j)
        })
}

/// One backward step: row `col` is divided by its pivot and taken off the rows
/// above it.
pub open spec fn backward<T: Scalar, D: Fn(Cx<T>, Cx<T>) -> Cx<T>>(
    m: &CMat<T>,
    x: &CMat<T>,
    col: int,
    x2: &CMat<T>,
    divide: D,
) -> bool {
    &&& x2.shaped(x.rows as int, x.cols as int)
    &&& forall|j: int|
        0 <= j < x.cols ==> call_ensures(
            divide,
            (x.at(col, j), m.at(col, col)),
            #[trigger] x2.at(col, j),
        )
    &&& forall|r: int, j: int|
        0 <= r < x.rows && r != col && 0 <= j < x.cols ==> #[trigger] x2.at(r, j) == (if r < col
            && is_nonzero(m.at(r, col)) {
            x.at(r, j).difference(m.at(r, col).product(x2.at(col, j)))
        } else {
            x.at(r, j)
        })
}

/// The forward pass over the first `n` columns.
pub open spec fn reduced<T: Scalar, S: Fn(Cx<T>) -> T, D: Fn(Cx<T>, Cx<T>) -> Cx<T>>(
    ms: Seq<(CMat<T>, CMat<T>)>,
    a: &CMat<T>,
    b: &CMat<T>,
    n: int,
    how: &Solver<T, S, D>,
) -> bool {
    &&& ms.len() == n + 1
    &&& ms[0].0.same(a)
    &&& ms[0].1.same(b)
    &&& forall|col: int| 0 <= col < n ==> #[trigger] forward_ok(ms, col, how)
}

/// One forward step with the largest pivot of its column.
pub open spec fn advanced<T: Scalar, S: Fn(Cx<T>) -> T, D: Fn(Cx<T>, Cx<T>) -> Cx<T>>(
    before: (CMat<T>, CMat<T>),
    after: (CMat<T>, CMat<T>),
    col: int,
    sizes: Seq<T>,
    f: Seq<Cx<T>>,
    how: &Solver<T, S, D>,
) -> bool {
    let p = largest(sizes, col, before.0.rows as int);
    &&& sized(&before.0, col, sizes, how.size)
    &&& !sizes[p].less_than(how.tiny)
    &&& factors(&before.0, col, p, f, how.divide)
    &&& forward(&before.0, &before.1, col, p, f, &after.0, &after.1)
}

/// The largest entry of a column is too small for a pivot.
pub open spec fn stuck<T: Scalar, S: Fn(Cx<T>) -> T, D: Fn(Cx<T>, Cx<T>) -> Cx<T>>(
    m: &CMat<T>,
    col: int,
    sizes: Seq<T>,
    how: &Solver<T, S, D>,
) -> bool {
    &&& sized(m, col, sizes, how.size)
    &&& sizes[largest(sizes, col, m.rows as int)].less_than(how.tiny)
}

pub open spec fn forward_ok<T: Scalar, S: Fn(Cx<T>) -> T, D: Fn(Cx<T>, Cx<T>) -> Cx<T>>(
    ms: Seq<(CMat<T>, CMat<T>)>,
    col: int,
    how: &Solver<T, S, D>,
) -> bool {
    exists|sizes: Seq<T>, f: Seq<Cx<T>>|
        #[trigger] advanced(ms[col], ms[col + 1], col, sizes, f, how)
}

/// The backward pass: `xs[k]` holds the right-hand sides after the rows from
/// the last down to `k` have been done.
pub open spec fn substituted<T: Scalar, D: Fn(Cx<T>, Cx<T>) -> Cx<T>>(
    xs: Seq<CMat<T>>,
    m: &CMat<T>,
    divide: D,
) -> bool {
    &&& xs.len() == m.rows + 1
    &&& forall|k: int|
        #![trigger xs[k]]
        0 <= k < m.rows ==> backward(m, &xs[k + 1], k, &xs[k], divide)
}

/// `x` is what elimination with pivoting makes of `a.x = b`.
pub open spec fn solves<T: Scalar, S: Fn(Cx<T>) -> T, D: Fn(Cx<T>, Cx<T>) -> Cx<T>>(
    a: &CMat<T>,
    b: &CMat<T>,
    x: &CMat<T>,
    how: &Solver<T, S, D>,
) -> bool {
    exists|ms: Seq<(CMat<T>, CMat<T>)>, xs: Seq<CMat<T>>|
        {
            &&& #[trigger] reduced(ms, a, b, a.rows as int, how)
            &&& #[trigger] substituted(xs, &ms[a.rows as int].0, how.divide)
            &&& xs[a.rows as int] == ms[a.rows as int].1
            &&& xs[0] == *x
        }
}

/// Elimination meets a column without a pivot.
pub open spec fn singular<T: Scalar, S: Fn(Cx<T>) -> T, D: Fn(Cx<T>, Cx<T>) -> Cx<T>>(
    a: &CMat<T>,
    b: &CMat<T>,
    how: &Solver<T, S, D>,
) -> bool {
    exists|ms: Seq<(CMat<T>, CMat<T>)>, col: int, sizes: Seq<T>|
        {
            &&& 0 <= col < a.rows
            &&& #[trigger] reduced(ms, a, b, col, how)
            &&& #[trigger] stuck(&ms[col].0, col, sizes, how)
        }
}

/// Exchanges rows `p` and `q`.
fn swap_rows<T: Scalar>(m: &mut CMat<T>, p: usize, q: usize)
    requires
        old(m).wf(),
        p < old(m).rows,
        q < old(m).rows,
    ensures
        final(m).shaped(old(m).rows as int, old(m).cols as int),
        forall|r: int, j: int|
            0 <= r < old(m).rows && 0 <= j < old(m).cols ==> #[trigger] final(m).at(r, j) == old(
                m,
            ).at(swapped(r, p as int, q as int), j),
{
    let mut j: usize = 0;
    while j < m.cols
        invariant
            j <= m.cols,
            p < m.rows,
            q < m.rows,
            m.shaped(old(m).rows as int, old(m).cols as int),
            forall|r: int, k: int|
                0 <= r < m.rows && 0 <= k < m.cols ==> #[trigger] m.at(r, k) == (if k < j {
                    old(m).at(swapped(r, p as int, q as int), k)
                } else {
                    old(m).at(r, k)
                }),
        decreases m.cols - j,
    {
        let (a, b) = (m.get(p, j), m.get(q, j));
        m.put(p, j, b);
        m.put(q, j, a);
        j += 1;
    }
}

/// Takes `f` times row `from` off row `r`, from column `start` on.
fn take_off<T: Scalar>(m: &mut CMat<T>, r: usize, from: usize, f: Cx<T>, start: usize)
    requires
        old(m).wf(),
        r < old(m).rows,
        from < old(m).rows,
        r != from,
    ensures
        final(m).shaped(old(m).rows as int, old(m).cols as int),
        forall|x: int, j: int|
            0 <= x < old(m).rows && 0 <= j < old(m).cols ==> #[trigger] final(m).at(x, j) == (if x
                == r && j >= start {
                old(m).at(x, j).difference(f.product(old(m).at(from as int, j)))
            } else {
                old(m).at(x, j)
            }),
{
    let mut j: usize = start;
    while j < m.cols
        invariant
            start <= j,
            j <= m.cols || j == start,
            r < m.rows,
            from < m.rows,
            r != from,
            m.shaped(old(m).rows as int, old(m).cols as int),
            forall|x: int, k: int|
                0 <= x < m.rows && 0 <= k < m.cols ==> #[trigger] m.at(x, k) == (if x == r && start
                    <= k < j {
                    old(m).at(x, k).difference(f.product(old(m).at(from as int, k)))
                } else {
                    old(m).at(x, k)
                }),
        decreases m.cols - j,
    {
        let e = m.get(r, j).minus(f.times(m.get(from, j)));
        m.put(r, j, e);
        j += 1;
    }
}

/// One forward step on both matrices.
fn step_forward<T: Scalar, S: Fn(Cx<T>) -> T, D: Fn(Cx<T>, Cx<T>) -> Cx<T>>(
    m: &mut CMat<T>,
    x: &mut CMat<T>,
    col: usize,
    how: &Solver<T, S, D>,
) -> (r: bool)
    requires
        old(m).wf(),
        old(m).rows == old(m).cols,
        old(x).wf(),
        old(x).rows == old(m).rows,
        col < old(m).rows,
        forall|a: Cx<T>| #[trigger] call_requires(how.size, (a,)),
        forall|a: Cx<T>, b: Cx<T>| #[trigger] call_requires(how.divide, (a, b)),
    ensures
        final(m).shaped(old(m).rows as int, old(m).cols as int),
        final(x).shaped(old(x).rows as int, old(x).cols as int),
        r ==> exists|sizes: Seq<T>, f: Seq<Cx<T>>|
            #[trigger] advanced(
                (*old(m), *old(x)),
                (*final(m), *final(x)),
                col as int,
                sizes,
                f,
                how,
            ),
        !r ==> exists|sizes: Seq<T>| #[trigger] stuck(old(m), col as int, sizes, how),
{
    let n: usize = m.rows;
    let size = &how.size;
    let divide = &how.divide;
    let mut p: usize = col;
    let mut best = size(m.get(col, col));
    let ghost mut sizes: Seq<T> = Seq::new(n as nat, |k: int| best);
    let mut r: usize = col + 1;
    while r < n
        invariant
            n == m.rows,
            m.rows == m.cols,
            m.wf(),
            col < n,
            col + 1 <= r <= n,
            col <= p < r,
            sizes.len() == n,
            size == how.size,
            forall|a: Cx<T>| #[trigger] call_requires(how.size, (a,)),
            forall|k: int|
                col <= k < r ==> call_ensures(
                    how.size,
                    (m.at(k, col as int),),
                    #[trigger] sizes[k],
                ),
            p == largest(sizes, col as int, r as int),
            best == sizes[p as int],
        decreases n - r,
    {
        let v = size(m.get(r, col));
        let ghost before = sizes;
        proof {
            sizes = sizes.update(r as int, v);
            lemma_largest_same(before, sizes, col as int, r as int);
        }
        if best.below(v) {
            best = v;
            p = r;
        }
        r += 1;
    }
    assert(sized(m, col as int, sizes, how.size));
    if best.below(how.tiny) {
        assert(stuck(old(m), col as int, sizes, how));
        return false;
    }
    swap_rows(m, p, col);
    swap_rows(x, p, col);
    let ghost (m1, x1) = (*m, *x);
    let piv = m.get(col, col);
    let ghost mut f: Seq<Cx<T>> = Seq::new(n as nat, |k: int| piv);
    let mut r: usize = col + 1;
    while r < n
        invariant
            n == m1.rows,
            m1.rows == m1.cols,
            x1.rows == n,
            m1.wf(),
            x1.wf(),
            m.shaped(n as int, n as int),
            x.shaped(n as int, x1.cols as int),
            col < n,
            col + 1 <= r <= n,
            piv == m1.at(col as int, col as int),
            divide == how.divide,
            forall|a: Cx<T>, b: Cx<T>| #[trigger] call_requires(how.divide, (a, b)),
            f.len() == n,
            forall|k: int|
                col < k < r ==> call_ensures(
                    how.divide,
                    (m1.at(k, col as int), piv),
                    #[trigger] f[k],
                ),
            forall|k: int, j: int|
                0 <= k < n && 0 <= j < n ==> #[trigger] m.at(k, j) == (if col < k < r && j >= col
                    && is_nonzero(f[k]) {
                    m1.at(k, j).difference(f[k].product(m1.at(col as int, j)))
                } else {
                    m1.at(k, j)
                }),
            forall|k: int, j: int|
                0 <= k < n && 0 <= j < x1.cols ==> #[trigger] x.at(k, j) == (if col < k < r
                    && is_nonzero(f[k]) {
                    x1.at(k, j).difference(f[k].product(x1.at(col as int, j)))
                } else {
                    x1.at(k, j)
                }),
        decreases n - r,
    {
        let q = divide(m.get(r, col), piv);
        proof {
            f = f.update(r as int, q);
        }
        if differs_from_zero(q) {
            take_off(m, r, col, q, col);
            take_off(x, r, col, q, 0);
        }
        r += 1;
    }
    proof {
        let p = p as int;
        assert(sized(old(m), col as int, sizes, how.size));
        assert forall|k: int| col < k < n implies call_ensures(
            how.divide,
            (old(m).at(swapped(k, p, col as int), col as int), old(m).at(p, col as int)),
            #[trigger] f[k],
        ) by {
            assert(m1.at(k, col as int) == old(m).at(swapped(k, p, col as int), col as int));
            assert(m1.at(col as int, col as int) == old(m).at(p, col as int));
        }
        assert(factors(old(m), col as int, p, f, how.divide));
        assert(forward(old(m), old(x), col as int, p, f, m, x));
        assert(advanced((*old(m), *old(x)), (*m, *x), col as int, sizes, f, how));
    }
    true
}

proof fn lemma_largest_same<T: Scalar>(a: Seq<T>, b: Seq<T>, from: int, to: int)
    requires
        0 <= from < to <= a.len(),
        a.len() == b.len(),
        forall|k: int| from <= k < to ==> a[k] == b[k],
    ensures
        largest(a, from, to) == largest(b, from, to),
        from <= largest(a, from, to) < to,
    decreases to - from,
{
    if to > from + 1 {
        lemma_largest_same(a, b, from, to - 1);
    }
}

/// One backward step.
fn step_backward<T: Scalar, D: Fn(Cx<T>, Cx<T>) -> Cx<T>>(
    m: &CMat<T>,
    x: &mut CMat<T>,
    col: usize,
    divide: &D,
)
    requires
        m.wf(),
        m.rows == m.cols,
        old(x).wf(),
        old(x).rows == m.rows,
        col < m.rows,
        forall|a: Cx<T>, b: Cx<T>| #[trigger] call_requires(divide, (a, b)),
    ensures
        backward(m, old(x), col as int, final(x), *divide),
{
    let piv = m.get(col, col);
    let mut j: usize = 0;
    while j < x.cols
        invariant
            m.wf(),
            m.rows == m.cols,
            col < m.rows,
            x.shaped(old(x).rows as int, old(x).cols as int),
            x.rows == m.rows,
            j <= x.cols,
            piv == m.at(col as int, col as int),
            forall|a: Cx<T>, b: Cx<T>| #[trigger] call_requires(divide, (a, b)),
            forall|k: int|
                0 <= k < j ==> call_ensures(
                    *divide,
                    (old(x).at(col as int, k), piv),
                    #[trigger] x.at(col as int, k),
                ),
            forall|r: int, k: int|
                0 <= r < x.rows && 0 <= k < x.cols && !(r == col && k < j) ==> #[trigger] x.at(r, k)
                    == old(x).at(r, k),
        decreases x.cols - j,
    {
        let ghost before = *x;
        let e = divide(x.get(col, j), piv);
        x.put(col, j, e);
        assert forall|k: int| 0 <= k < j + 1 implies call_ensures(
            *divide,
            (old(x).at(col as int, k), piv),
            #[trigger] x.at(col as int, k),
        ) by {
            if k < j {
                assert(x.at(col as int, k) == before.at(col as int, k));
            }
        }
        j += 1;
    }
    let ghost mid = *x;
    let mut r: usize = 0;
    while r < col
        invariant
            m.wf(),
            m.rows == m.cols,
            col < m.rows,
            mid.shaped(old(x).rows as int, old(x).cols as int),
            x.shaped(old(x).rows as int, old(x).cols as int),
            x.rows == m.rows,
            r <= col,
            forall|a: int, k: int|
                0 <= a < x.rows && 0 <= k < x.cols ==> #[trigger] x.at(a, k) == (if a < r
                    && is_nonzero(m.at(a, col as int)) {
                    mid.at(a, k).difference(m.at(a, col as int).product(mid.at(col as int, k)))
                } else {
                    mid.at(a, k)
                }),
        decreases col - r,
    {
        let f = m.get(r, col);
        if differs_from_zero(f) {
            take_off(x, r, col, f, 0);
        }
        r += 1;
    }
    assert forall|j: int| 0 <= j < x.cols implies call_ensures(
        *divide,
        (old(x).at(col as int, j), m.at(col as int, col as int)),
        #[trigger] x.at(col as int, j),
    ) by {
        assert(x.at(col as int, j) == mid.at(col as int, j));
    }
}

/// Solves `a.x = b` by elimination with pivoting; `None` where a column has no
/// pivot.
fn csolve<T: Scalar, S: Fn(Cx<T>) -> T, D: Fn(Cx<T>, Cx<T>) -> Cx<T>>(
    a: &CMat<T>,
    b: &CMat<T>,
    how: &Solver<T, S, D>,
) -> (r: Option<CMat<T>>)
    requires
        a.wf(),
        a.rows == a.cols,
        b.wf(),
        b.rows == a.rows,
        forall|x: Cx<T>| #[trigger] call_requires(how.size, (x,)),
        forall|x: Cx<T>, y: Cx<T>| #[trigger] call_requires(how.divide, (x, y)),
    ensures
        match r {
            Some(x) => x.shaped(b.rows as int, b.cols as int) && solves(a, b, &x, how),
            None => singular(a, b, how),
        },
{
    let n: usize = a.rows;
    let mut m = a.copy();
    let mut x = b.copy();
    let ghost mut ms: Seq<(CMat<T>, CMat<T>)> = seq![(m, x)];
    let mut col: usize = 0;
    while col < n
        invariant
            n == a.rows,
            n == a.cols,
            n == b.rows,
            col <= n,
            m.shaped(n as int, n as int),
            x.shaped(n as int, b.cols as int),
            forall|z: Cx<T>| #[trigger] call_requires(how.size, (z,)),
            forall|z: Cx<T>, y: Cx<T>| #[trigger] call_requires(how.divide, (z, y)),
            reduced(ms, a, b, col as int, how),
            ms[col as int] == (m, x),
        decreases n - col,
    {
        let ghost before = (m, x);
        let ghost old_ms = ms;
        if !step_forward(&mut m, &mut x, col, how) {
            proof {
                let sizes = choose|sizes: Seq<T>|
                    #[trigger] stuck(&before.0, col as int, sizes, how);
                assert(reduced(ms, a, b, col as int, how));
                assert(stuck(&ms[col as int].0, col as int, sizes, how));
            }
            return None;
        }
        proof {
            ms = ms.push((m, x));
            let (sizes, f) = choose|sizes: Seq<T>, f: Seq<Cx<T>>|
                #[trigger] advanced(before, (m, x), col as int, sizes, f, how);
            assert(advanced(ms[col as int], ms[col + 1], col as int, sizes, f, how));
            assert(forward_ok(ms, col as int, how));
            assert forall|c: int| 0 <= c < col + 1 implies #[trigger] forward_ok(ms, c, how) by {
                if c < col {
                    assert(forward_ok(old_ms, c, how));
                    assert(ms[c] == old_ms[c] && ms[c + 1] == old_ms[c + 1]);
                }
            }
        }
        col += 1;
    }
    let ghost mut back: Seq<CMat<T>> = seq![x];
    let ghost last = x;
    let mut left: usize = n;
    while left > 0
        invariant
            left <= n,
            m.shaped(n as int, n as int),
            x.shaped(n as int, b.cols as int),
            forall|z: Cx<T>, y: Cx<T>| #[trigger] call_requires(how.divide, (z, y)),
            back.len() == n - left + 1,
            back[0] == last,
            back[n - left] == x,
            forall|k: int|
                #![trigger back[k]]
                0 <= k < n - left ==> backward(
                    &m,
                    &back[k],
                    n - 1 - k,
                    &back[k + 1],
                    how.divide,
                ),
        decreases left,
    {
        left -= 1;
        step_backward(&m, &mut x, left, &how.divide);
        proof {
            back = back.push(x);
        }
    }
    proof {
        let xs = Seq::new((n + 1) as nat, |k: int| back[n - k]);
        assert forall|k: int|
            #![trigger xs[k]]
            0 <= k < n implies backward(&m, &xs[k + 1], k, &xs[k], how.divide) by {
            let q = n - 1 - k;
            assert(back[q] == xs[k + 1] && back[q + 1] == xs[k]);
        }
        assert(reduced(ms, a, b, a.rows as int, how));
        assert(substituted(xs, &ms[a.rows as int].0, how.divide));
        assert(solves(a, b, &x, how));
    }
    Some(x)
}

/// The four loops of a cascade: what each solve was asked and what it gave.
pub struct Loops<T> {
    pub y_b11_a21: CMat<T>,
    pub y_b12: CMat<T>,
    pub x_a21: CMat<T>,
    pub x_a22_b12: CMat<T>,
}

/// `eye - p.q`, the matrix of an internal loop.
pub open spec fn loop_matrix<T: Scalar>(p: &CMat<T>, q: &CMat<T>, m: &CMat<T>) -> bool {
    exists|eye: CMat<T>, pq: CMat<T>|
        #![trigger eye.is_identity(p.rows as int), pq.is_product(p, q)]
        eye.is_identity(p.rows as int) && pq.is_product(p, q) && m.is_difference(&eye, &pq)
}

/// `x` solves the loop of `p` and `q` for the right-hand side `rhs`.
pub open spec fn loop_solved<T: Scalar, S: Fn(Cx<T>) -> T, D: Fn(Cx<T>, Cx<T>) -> Cx<T>>(
    p: &CMat<T>,
    q: &CMat<T>,
    rhs: &CMat<T>,
    x: &CMat<T>,
    how: &Solver<T, S, D>,
) -> bool {
    exists|m: CMat<T>|
        #![trigger loop_matrix(p, q, &m)]
        loop_matrix(p, q, &m) && solves(&m, rhs, x, how)
}

/// `p.q` meets a loop that cannot be solved for `rhs`.
pub open spec fn loop_singular<T: Scalar, S: Fn(Cx<T>) -> T, D: Fn(Cx<T>, Cx<T>) -> Cx<T>>(
    p: &CMat<T>,
    q: &CMat<T>,
    rhs: &CMat<T>,
    how: &Solver<T, S, D>,
) -> bool {
    exists|m: CMat<T>|
        #![trigger loop_matrix(p, q, &m)]
        loop_matrix(p, q, &m) && singular(&m, rhs, how)
}

/// `m` is `a` plus `b.c`.
pub open spec fn plus_product<T: Scalar>(
    m: &CMat<T>,
    a: &CMat<T>,
    b: &CMat<T>,
    c: &CMat<T>,
) -> bool {
    exists|bc: CMat<T>| #[trigger] bc.is_product(b, c) && m.is_sum(a, &bc)
}

impl<T: Scalar> Sparams<T> {
    /// `r` is the cascade of `a` and `b`.
    pub open spec fn cascades<S: Fn(Cx<T>) -> T, D: Fn(Cx<T>, Cx<T>) -> Cx<T>>(
        a: &Self,
        b: &Self,
        r: &Self,
        how: &Solver<T, S, D>,
    ) -> bool {
        &&& r.n_left == a.n_left
        &&& r.n_right == b.n_right
        &&& exists|k: Loops<T>, b11_a21: CMat<T>, a22_b12: CMat<T>|
            {
                &&& #[trigger] b11_a21.is_product(&b.s11, &a.s21)
                &&& #[trigger] a22_b12.is_product(&a.s22, &b.s12)
                &&& #[trigger] Self::looped(a, b, &k, &b11_a21, &a22_b12, how)
                &&& plus_product(&r.s11, &a.s11, &a.s12, &k.y_b11_a21)
                &&& r.s12.is_product(&a.s12, &k.y_b12)
                &&& r.s21.is_product(&b.s21, &k.x_a21)
                &&& plus_product(&r.s22, &b.s22, &b.s21, &k.x_a22_b12)
            }
    }

    /// The loops of a cascade are solved.
    pub open spec fn looped<S: Fn(Cx<T>) -> T, D: Fn(Cx<T>, Cx<T>) -> Cx<T>>(
        a: &Self,
        b: &Self,
        k: &Loops<T>,
        b11_a21: &CMat<T>,
        a22_b12: &CMat<T>,
        how: &Solver<T, S, D>,
    ) -> bool {
        &&& loop_solved(&b.s11, &a.s22, b11_a21, &k.y_b11_a21, how)
        &&& loop_solved(&b.s11, &a.s22, &b.s12, &k.y_b12, how)
        &&& loop_solved(&a.s22, &b.s11, &a.s21, &k.x_a21, how)
        &&& loop_solved(&a.s22, &b.s11, a22_b12, &k.x_a22_b12, how)
    }

    /// Some loop of a cascade has no solution.
    pub open spec fn resonant<S: Fn(Cx<T>) -> T, D: Fn(Cx<T>, Cx<T>) -> Cx<T>>(
        a: &Self,
        b: &Self,
        how: &Solver<T, S, D>,
    ) -> bool {
        exists|rhs: CMat<T>|
            #[trigger] rhs.wf() && (loop_singular(&b.s11, &a.s22, &rhs, how) || loop_singular(
                &a.s22,
                &b.s11,
                &rhs,
                how,
            ))
    }

    /// All products of a cascade can be held.
    pub open spec fn holdable(a: &Self, b: &Self) -> bool {
        let (l, k, r) = (a.n_left, a.n_right, b.n_right);
        l * l <= usize::MAX && l * k <= usize::MAX && l * r <= usize::MAX && k * k <= usize::MAX && k
            * l <= usize::MAX && k * r <= usize::MAX && r * l <= usize::MAX && r * k <= usize::MAX
            && r * r <= usize::MAX
    }

    /// The star product: the right ports of `self` joined to the left ports of
    /// `other`. `None` where the interface is resonantly singular.
    pub fn star<S: Fn(Cx<T>) -> T, D: Fn(Cx<T>, Cx<T>) -> Cx<T>>(
        &self,
        other: &Self,
        how: &Solver<T, S, D>,
    ) -> (r: Option<Self>)
        requires
            self.wf(),
            other.wf(),
            self.n_right == other.n_left,
            Self::holdable(self, other),
            forall|x: Cx<T>| #[trigger] call_requires(how.size, (x,)),
            forall|x: Cx<T>, y: Cx<T>| #[trigger] call_requires(how.divide, (x, y)),
        ensures
            match r {
                Some(s) => s.wf() && Self::cascades(self, other, &s, how),
                None => Self::resonant(self, other, how),
            },
    {
        let n: usize = self.n_right;
        let eye: CMat<T> = Matrix::identity(n);
        let b11_a22 = other.s11.matmul(&self.s22);
        let a22_b11 = self.s22.matmul(&other.s11);
        let y = eye.minus(&b11_a22);
        let x = eye.minus(&a22_b11);
        assert(loop_matrix(&other.s11, &self.s22, &y)) by {
            assert(eye.is_identity(other.s11.rows as int) && b11_a22.is_product(
                &other.s11,
                &self.s22,
            ));
        }
        assert(loop_matrix(&self.s22, &other.s11, &x)) by {
            assert(eye.is_identity(self.s22.rows as int) && a22_b11.is_product(
                &self.s22,
                &other.s11,
            ));
        }
        let b11_a21 = other.s11.matmul(&self.s21);
        let a22_b12 = self.s22.matmul(&other.s12);
        let y_b11_a21 = match csolve(&y, &b11_a21, how) {
            Some(m) => m,
            None => {
                assert(b11_a21.wf() && loop_singular(&other.s11, &self.s22, &b11_a21, how));
                return None;
            },
        };
        let y_b12 = match csolve(&y, &other.s12, how) {
            Some(m) => m,
            None => {
                assert(other.s12.wf() && loop_singular(&other.s11, &self.s22, &other.s12, how));
                return None;
            },
        };
        let x_a21 = match csolve(&x, &self.s21, how) {
            Some(m) => m,
            None => {
                assert(self.s21.wf() && loop_singular(&self.s22, &other.s11, &self.s21, how));
                return None;
            },
        };
        let x_a22_b12 = match csolve(&x, &a22_b12, how) {
            Some(m) => m,
            None => {
                assert(a22_b12.wf() && loop_singular(&self.s22, &other.s11, &a22_b12, how));
                return None;
            },
        };
        let p11 = self.s12.matmul(&y_b11_a21);
        let p22 = other.s21.matmul(&x_a22_b12);
        let r = Sparams {
            n_left: self.n_left,
            n_right: other.n_right,
            s11: self.s11.plus(&p11),
            s12: self.s12.matmul(&y_b12),
            s21: other.s21.matmul(&x_a21),
            s22: other.s22.plus(&p22),
        };
        proof {
            let k = Loops { y_b11_a21, y_b12, x_a21, x_a22_b12 };
            assert(loop_solved(&other.s11, &self.s22, &b11_a21, &k.y_b11_a21, how));
            assert(loop_solved(&other.s11, &self.s22, &other.s12, &k.y_b12, how));
            assert(loop_solved(&self.s22, &other.s11, &self.s21, &k.x_a21, how));
            assert(loop_solved(&self.s22, &other.s11, &a22_b12, &k.x_a22_b12, how));
            assert(Self::looped(self, other, &k, &b11_a21, &a22_b12, how));
            assert(plus_product(&r.s11, &self.s11, &self.s12, &k.y_b11_a21)) by {
                assert(p11.is_product(&self.s12, &k.y_b11_a21));
            }
            assert(plus_product(&r.s22, &other.s22, &other.s21, &k.x_a22_b12)) by {
                assert(p22.is_product(&other.s21, &k.x_a22_b12));
            }
        }
        Some(r)
    }
}

/// Cascade of two 2-ports, port 0 left and port 1 right.
pub fn cascade_2port<T: Scalar, S: Fn(Cx<T>) -> T, D: Fn(Cx<T>, Cx<T>) -> Cx<T>>(
    a: &CMat<T>,
    b: &CMat<T>,
    how: &Solver<T, S, D>,
) -> (r: Option<CMat<T>>)
    requires
        a.shaped(2, 2),
        b.shaped(2, 2),
        forall|x: Cx<T>| #[trigger] call_requires(how.size, (x,)),
        forall|x: Cx<T>, y: Cx<T>| #[trigger] call_requires(how.divide, (x, y)),
    ensures
        exists|pa: Sparams<T>, pb: Sparams<T>|
            {
                &&& #[trigger] splits(a, &pa)
                &&& #[trigger] splits(b, &pb)
                &&& match r {
                    Some(m) => m.shaped(2, 2) && exists|c: Sparams<T>|
                        Sparams::cascades(&pa, &pb, &c, how) && #[trigger] splits(&m, &c),
                    None => Sparams::resonant(&pa, &pb, how),
                }
            },
{
    let pa = Sparams::from_full(a, 1);
    let pb = Sparams::from_full(b, 1);
    assert(splits(a, &pa) && splits(b, &pb));
    match pa.star(&pb, how) {
        Some(c) => {
            let m = c.full();
            assert(splits(&m, &c));
            Some(m)
        },
        None => None,
    }
}

/// `p` is the 2-port matrix `m`, split between its ports.
pub open spec fn splits<T: Scalar>(m: &CMat<T>, p: &Sparams<T>) -> bool {
    &&& p.wf()
    &&& p.n_left == 1
    &&& p.n_right == 1
    &&& forall|i: int, j: int|
        0 <= i < 2 && 0 <= j < 2 ==> #[trigger] p.full_at(i, j) == m.at(i, j)
}

/// The network of a device with two ports that looks the same from both
/// sides: reflection `s11` and transmission `s21` at either.
pub fn two_port<T: Scalar>(s11: Cx<T>, s21: Cx<T>) -> (r: Sparams<T>)
    ensures
        r.wf(),
        r.n_left == 1,
        r.n_right == 1,
        r.full_at(0, 0) == s11,
        r.full_at(1, 1) == s11,
        r.full_at(0, 1) == s21,
        r.full_at(1, 0) == s21,
{
    let mut full: CMat<T> = Matrix::zeros(2, 2);
    full.put(0, 0, s11);
    full.put(0, 1, s21);
    full.put(1, 0, s21);
    full.put(1, 1, s11);
    Sparams::from_full(&full, 1)
}

} // verus!
