//! Elimination solves: in exact arithmetic the matrix times what elimination
//! gives is the right-hand side, and nothing else is.

use crate::complex::Cx;
use crate::exact::{exact, lemma_common_factor, lemma_partners, ring};
use crate::matrix::Matrix;
use crate::photonic::network::{advanced, backward, forward_ok, is_nonzero, largest, reduced};
use crate::photonic::network::{solves, substituted, swapped, CMat, Solver};
use crate::photonic::waves::{along, lemma_along_dark};
use crate::scalar::Scalar;
use vstd::prelude::*;

verus! {

/// The arithmetic of a solver is exact: what counts as zero is zero, and a
/// quotient times its divisor is the dividend where the divisor can be a pivot.
pub open spec fn divides<T: Scalar, S: Fn(Cx<T>) -> T, D: Fn(Cx<T>, Cx<T>) -> Cx<T>>(
    how: &Solver<T, S, D>,
) -> bool {
    &&& forall|z: Cx<T>| !#[trigger] is_nonzero(z) ==> z == Cx::<T>::nought()
    &&& forall|z: Cx<T>, w: Cx<T>, q: Cx<T>| #[trigger]
        call_ensures(how.divide, (z, w), q) && pivotal(w, how) ==> q.product(w) == z
}

/// A number can be a pivot.
pub open spec fn pivotal<T: Scalar, S: Fn(Cx<T>) -> T, D: Fn(Cx<T>, Cx<T>) -> Cx<T>>(
    w: Cx<T>,
    how: &Solver<T, S, D>,
) -> bool {
    exists|s: T| #[trigger] call_ensures(how.size, (w,), s) && !s.less_than(how.tiny)
}

/// Row `r` of `m` times column `j` of `x`, from the first `k` terms.
pub open spec fn row_by<T: Scalar>(m: &CMat<T>, x: &CMat<T>, r: int, j: int, k: int) -> Cx<T> {
    Matrix::dot(m, x, r, j, k)
}

/// `x` solves `m.x = y`.
pub open spec fn solved<T: Scalar>(m: &CMat<T>, x: &CMat<T>, y: &CMat<T>, n: int) -> bool {
    forall|r: int, j: int|
        0 <= r < n && 0 <= j < y.cols ==> #[trigger] row_by(m, x, r, j, n) == y.at(r, j)
}

/// The first `k` columns hold zeros below pivots.
pub open spec fn cleared<T: Scalar, S: Fn(Cx<T>) -> T, D: Fn(Cx<T>, Cx<T>) -> Cx<T>>(
    m: &CMat<T>,
    n: int,
    k: int,
    how: &Solver<T, S, D>,
) -> bool {
    &&& forall|r: int, c: int|
        0 <= c < k && c < r < n ==> #[trigger] m.at(r, c) == Cx::<T>::nought()
    &&& forall|c: int| 0 <= c < k ==> pivotal(#[trigger] m.at(c, c), how)
}

proof fn lemma_largest_within<T: Scalar>(sizes: Seq<T>, from: int, to: int)
    requires
        from < to,
    ensures
        from <= largest(sizes, from, to) < to,
    decreases to - from,
{
    if to > from + 1 {
        lemma_largest_within(sizes, from, to - 1);
    }
}

/// Whatever is taken off can be put back.
proof fn lemma_back_again<T: Scalar>(a: Cx<T>, b: Cx<T>)
    requires
        exact::<T>(),
    ensures
        a.difference(b).sum(b) == a,
{
    ring(a, b, b);
    ring(a, b.negated(), b);
    ring(b.negated(), b, b);
    ring(b, b.negated(), b);
}

proof fn lemma_nothing_left<T: Scalar>(a: Cx<T>)
    requires
        exact::<T>(),
    ensures
        a.difference(a) == Cx::<T>::nought(),
        Cx::<T>::nought().product(a) == Cx::<T>::nought(),
        Cx::<T>::nought().sum(a) == a,
{
    ring(a, a, a);
    ring(Cx::<T>::nought(), a, a);
    ring(a, Cx::<T>::nought(), a);
}

/// A forward step clears its column and keeps those before it clear.
proof fn lemma_step_clears<T: Scalar, S: Fn(Cx<T>) -> T, D: Fn(Cx<T>, Cx<T>) -> Cx<T>>(
    before: (CMat<T>, CMat<T>),
    after: (CMat<T>, CMat<T>),
    n: int,
    col: int,
    sizes: Seq<T>,
    f: Seq<Cx<T>>,
    how: &Solver<T, S, D>,
)
    requires
        exact::<T>(),
        divides(how),
        0 <= col < n,
        before.0.rows == n,
        before.0.cols == n,
        cleared(&before.0, n, col, how),
        advanced(before, after, col, sizes, f, how),
    ensures
        cleared(&after.0, n, col + 1, how),
{
    let p = largest(sizes, col, n);
    lemma_largest_within(sizes, col, n);
    let (m, m2) = (before.0, after.0);
    let pivot = m.at(p, col);
    assert(call_ensures(how.size, (pivot,), sizes[p]));
    assert(pivotal(pivot, how));
    assert forall|r: int, c: int| 0 <= c < col + 1 && c < r < n implies #[trigger] m2.at(r, c)
        == Cx::<T>::nought() by {
        let q = swapped(r, p, col);
        if c < col {
            if r >= col {
                assert(q >= col);
            }
            assert(m.at(q, c) == Cx::<T>::nought());
        } else {
            assert(call_ensures(how.divide, (m.at(q, col), pivot), f[r]));
            assert(f[r].product(pivot) == m.at(q, col));
            if is_nonzero(f[r]) {
                lemma_nothing_left(m.at(q, col));
            } else {
                lemma_nothing_left(pivot);
            }
        }
    }
    assert forall|c: int| 0 <= c < col + 1 implies pivotal(#[trigger] m2.at(c, c), how) by {
        if c < col {
            assert(m2.at(c, c) == m.at(c, c));
        } else {
            assert(m2.at(col, col) == pivot);
        }
    }
}

/// Rows combine as their entries do.
proof fn lemma_rows_combine<T: Scalar>(
    m2: &CMat<T>,
    m: &CMat<T>,
    x: &CMat<T>,
    r: int,
    q: int,
    p: int,
    f: Cx<T>,
    j: int,
    k: int,
)
    requires
        exact::<T>(),
        forall|c: int|
            0 <= c < k ==> m.at(q, c) == (#[trigger] m2.at(r, c)).sum(f.product(m.at(p, c))),
    ensures
        row_by(m, x, q, j, k) == row_by(m2, x, r, j, k).sum(f.product(row_by(m, x, p, j, k))),
    decreases k,
{
    let zero = Cx::<T>::nought();
    if k <= 0 {
        ring(f, zero, zero);
        ring(zero, zero, zero);
    } else {
        lemma_rows_combine(m2, m, x, r, q, p, f, j, k - 1);
        let c = k - 1;
        let (a, b, z) = (m2.at(r, c), m.at(p, c), x.at(c, j));
        let (u, v) = (row_by(m2, x, r, j, c), row_by(m, x, p, j, c));
        assert(m.at(q, c) == a.sum(f.product(b)));
        lemma_common_factor(a, f.product(b), z);
        ring(f, b, z);
        ring(f, v, b.product(z));
        lemma_partners(u, f.product(v), a.product(z), f.product(b.product(z)));
    }
}

proof fn lemma_same_rows<T: Scalar>(
    m2: &CMat<T>,
    m: &CMat<T>,
    x: &CMat<T>,
    r: int,
    q: int,
    j: int,
    k: int,
)
    requires
        forall|c: int| 0 <= c < k ==> #[trigger] m2.at(r, c) == m.at(q, c),
    ensures
        row_by(m2, x, r, j, k) == row_by(m, x, q, j, k),
    decreases k,
{
    if k > 0 {
        lemma_same_rows(m2, m, x, r, q, j, k - 1);
        assert(m2.at(r, k - 1) == m.at(q, k - 1));
    }
}

/// What solves the system after a forward step solves the one before it.
proof fn lemma_step_back<T: Scalar, S: Fn(Cx<T>) -> T, D: Fn(Cx<T>, Cx<T>) -> Cx<T>>(
    before: (CMat<T>, CMat<T>),
    after: (CMat<T>, CMat<T>),
    x: &CMat<T>,
    n: int,
    col: int,
    sizes: Seq<T>,
    f: Seq<Cx<T>>,
    how: &Solver<T, S, D>,
)
    requires
        exact::<T>(),
        divides(how),
        0 <= col < n,
        before.0.rows == n,
        before.0.cols == n,
        before.1.rows == n,
        cleared(&before.0, n, col, how),
        advanced(before, after, col, sizes, f, how),
        solved(&after.0, x, &after.1, n),
    ensures
        solved(&before.0, x, &before.1, n),
{
    let p = largest(sizes, col, n);
    lemma_largest_within(sizes, col, n);
    let (m, y) = before;
    let (m2, y2) = after;
    assert forall|q: int, j: int| 0 <= q < n && 0 <= j < y.cols implies #[trigger] row_by(
        &m,
        x,
        q,
        j,
        n,
    ) == y.at(q, j) by {
        assert forall|c: int| 0 <= c < n implies #[trigger] m2.at(col, c) == m.at(p, c) by {}
        lemma_same_rows(&m2, &m, x, col, p, j, n);
        assert(row_by(&m2, x, col, j, n) == y2.at(col, j));
        assert(y2.at(col, j) == y.at(p, j));
        let r = swapped(q, p, col);
        assert(swapped(r, p, col) == q);
        assert(row_by(&m2, x, r, j, n) == y2.at(r, j));
        if r <= col || !is_nonzero(f[r]) {
            assert forall|c: int| 0 <= c < n implies #[trigger] m2.at(r, c) == m.at(q, c) by {}
            lemma_same_rows(&m2, &m, x, r, q, j, n);
            assert(y2.at(r, j) == y.at(q, j));
        } else {
            assert forall|c: int| 0 <= c < n implies m.at(q, c) == (#[trigger] m2.at(r, c)).sum(
                f[r].product(m.at(p, c)),
            ) by {
                if c < col {
                    assert(m.at(p, c) == Cx::<T>::nought());
                    ring(f[r], m2.at(r, c), m2.at(r, c));
                    ring(m2.at(r, c), m2.at(r, c), m2.at(r, c));
                } else {
                    lemma_back_again(m.at(q, c), f[r].product(m.at(p, c)));
                }
            }
            lemma_rows_combine(&m2, &m, x, r, q, p, f[r], j, n);
            lemma_back_again(y.at(q, j), f[r].product(y.at(p, j)));
        }
    }
}

/// Terms of row `r` from column `k` on.
spec fn tail<T: Scalar>(m: &CMat<T>, x: &CMat<T>, r: int, j: int, k: int, n: int) -> Cx<T>
    decreases n - k,
{
    if k >= n {
        Cx::nought()
    } else {
        m.at(r, k).product(x.at(k, j)).sum(tail(m, x, r, j, k + 1, n))
    }
}

/// A row is what comes before column `k` and what comes from there on.
proof fn lemma_row_splits<T: Scalar>(m: &CMat<T>, x: &CMat<T>, r: int, j: int, k: int, n: int)
    requires
        exact::<T>(),
        0 <= k <= n,
    ensures
        row_by(m, x, r, j, n) == row_by(m, x, r, j, k).sum(tail(m, x, r, j, k, n)),
    decreases n - k,
{
    let head = row_by(m, x, r, j, k);
    if k == n {
        ring(head, head, head);
    } else {
        lemma_row_splits(m, x, r, j, k + 1, n);
        ring(head, m.at(r, k).product(x.at(k, j)), tail(m, x, r, j, k + 1, n));
    }
}

/// Zeros at the head of a row add nothing.
proof fn lemma_empty_head<T: Scalar>(m: &CMat<T>, x: &CMat<T>, r: int, j: int, k: int)
    requires
        exact::<T>(),
        forall|c: int| 0 <= c < k ==> #[trigger] m.at(r, c) == Cx::<T>::nought(),
    ensures
        row_by(m, x, r, j, k) == Cx::<T>::nought(),
    decreases k,
{
    if k > 0 {
        lemma_empty_head(m, x, r, j, k - 1);
        assert(m.at(r, k - 1) == Cx::<T>::nought());
        lemma_nothing_left(x.at(k - 1, j));
        lemma_nothing_left(Cx::<T>::nought());
    }
}

/// What the rows from `k` on are once they are done, they stay.
proof fn lemma_rows_stay<T: Scalar, D: Fn(Cx<T>, Cx<T>) -> Cx<T>>(
    xs: Seq<CMat<T>>,
    m: &CMat<T>,
    divide: D,
    c: int,
    j: int,
    k: int,
)
    requires
        substituted(xs, m, divide),
        0 <= k <= c < m.rows,
        forall|i: int| 0 <= i <= m.rows ==> (#[trigger] xs[i]).shaped(
            m.rows as int,
            xs[0].cols as int,
        ),
        0 <= j < xs[0].cols,
    ensures
        xs[k].at(c, j) == xs[c].at(c, j),
    decreases c - k,
{
    if k < c {
        lemma_rows_stay(xs, m, divide, c, j, k + 1);
        assert(backward(m, &xs[k + 1], k, &xs[k], divide));
        assert(xs[k + 1].shaped(m.rows as int, xs[0].cols as int));
    }
}

/// Row `r` before its own turn is its right-hand side without what the rows
/// from `k` on took off it.
proof fn lemma_taken_off<T: Scalar, S: Fn(Cx<T>) -> T, D: Fn(Cx<T>, Cx<T>) -> Cx<T>>(
    xs: Seq<CMat<T>>,
    m: &CMat<T>,
    how: &Solver<T, S, D>,
    r: int,
    j: int,
    k: int,
)
    requires
        exact::<T>(),
        divides(how),
        substituted(xs, m, how.divide),
        0 <= r < k <= m.rows,
        forall|i: int| 0 <= i <= m.rows ==> (#[trigger] xs[i]).shaped(
            m.rows as int,
            xs[0].cols as int,
        ),
        0 <= j < xs[0].cols,
    ensures
        xs[k].at(r, j).sum(tail(m, &xs[0], r, j, k, m.rows as int)) == xs[m.rows as int].at(r, j),
    decreases m.rows - k,
{
    let n = m.rows as int;
    if k == n {
        ring(xs[n].at(r, j), xs[n].at(r, j), xs[n].at(r, j));
    } else {
        lemma_taken_off(xs, m, how, r, j, k + 1);
        assert(backward(m, &xs[k + 1], k, &xs[k], how.divide));
        assert(xs[k + 1].shaped(n, xs[0].cols as int));
        lemma_rows_stay(xs, m, how.divide, k, j, 0);
        let (a, t) = (m.at(r, k), tail(m, &xs[0], r, j, k + 1, n));
        let z = xs[0].at(k, j);
        assert(z == xs[k].at(k, j));
        let (now, then) = (xs[k].at(r, j), xs[k + 1].at(r, j));
        assert(now.sum(a.product(z)) == then) by {
            if is_nonzero(a) {
                lemma_back_again(then, a.product(z));
            } else {
                lemma_nothing_left(z);
                ring(now, now, now);
            }
        }
        ring(now, a.product(z), t);
    }
}

/// Backward substitution solves a triangular system.
proof fn lemma_substitution_solves<T: Scalar, S: Fn(Cx<T>) -> T, D: Fn(Cx<T>, Cx<T>) -> Cx<T>>(
    xs: Seq<CMat<T>>,
    m: &CMat<T>,
    how: &Solver<T, S, D>,
)
    requires
        exact::<T>(),
        divides(how),
        substituted(xs, m, how.divide),
        cleared(m, m.rows as int, m.rows as int, how),
        forall|i: int| 0 <= i <= m.rows ==> (#[trigger] xs[i]).shaped(
            m.rows as int,
            xs[0].cols as int,
        ),
    ensures
        solved(m, &xs[0], &xs[m.rows as int], m.rows as int),
{
    let n = m.rows as int;
    let x = &xs[0];
    let y = &xs[n];
    assert(xs[n].shaped(n, x.cols as int));
    assert forall|r: int, j: int| 0 <= r < n && 0 <= j < y.cols implies #[trigger] row_by(
        m,
        x,
        r,
        j,
        n,
    ) == y.at(r, j) by {
        lemma_taken_off(xs, m, how, r, j, r + 1);
        lemma_rows_stay(xs, m, how.divide, r, j, 0);
        assert(backward(m, &xs[r + 1], r, &xs[r], how.divide));
        assert(xs[r + 1].shaped(n, x.cols as int));
        let z = x.at(r, j);
        assert(call_ensures(how.divide, (xs[r + 1].at(r, j), m.at(r, r)), z));
        assert(pivotal(m.at(r, r), how));
        assert(z.product(m.at(r, r)) == xs[r + 1].at(r, j));
        ring(z, m.at(r, r), z);
        lemma_row_splits(m, x, r, j, r, n);
        lemma_empty_head(m, x, r, j, r);
        lemma_nothing_left(tail(m, x, r, j, r, n));
    }
}

proof fn lemma_steps<T: Scalar, S: Fn(Cx<T>) -> T, D: Fn(Cx<T>, Cx<T>) -> Cx<T>>(
    ms: Seq<(CMat<T>, CMat<T>)>,
    a: &CMat<T>,
    b: &CMat<T>,
    n: int,
    how: &Solver<T, S, D>,
    k: int,
)
    requires
        exact::<T>(),
        divides(how),
        a.rows == n,
        a.cols == n,
        b.rows == n,
        reduced(ms, a, b, n, how),
        0 <= k <= n,
    ensures
        ms[k].0.rows == n,
        ms[k].0.cols == n,
        ms[k].1.rows == n,
        ms[k].1.cols == b.cols,
        k > 0 ==> ms[k].1.wf(),
        cleared(&ms[k].0, n, k, how),
    decreases k,
{
    if k > 0 {
        lemma_steps(ms, a, b, n, how, k - 1);
        assert(forward_ok(ms, k - 1, how));
        let (sizes, f) = choose|sizes: Seq<T>, f: Seq<Cx<T>>|
            #[trigger] advanced(ms[k - 1], ms[k], k - 1, sizes, f, how);
        lemma_step_clears(ms[k - 1], ms[k], n, k - 1, sizes, f, how);
    }
}

proof fn lemma_steps_back<T: Scalar, S: Fn(Cx<T>) -> T, D: Fn(Cx<T>, Cx<T>) -> Cx<T>>(
    ms: Seq<(CMat<T>, CMat<T>)>,
    a: &CMat<T>,
    b: &CMat<T>,
    x: &CMat<T>,
    n: int,
    how: &Solver<T, S, D>,
    k: int,
)
    requires
        exact::<T>(),
        divides(how),
        a.rows == n,
        a.cols == n,
        b.rows == n,
        reduced(ms, a, b, n, how),
        0 <= k <= n,
        solved(&ms[n].0, x, &ms[n].1, n),
    ensures
        solved(&ms[k].0, x, &ms[k].1, n),
    decreases n - k,
{
    if k < n {
        lemma_steps_back(ms, a, b, x, n, how, k + 1);
        lemma_steps(ms, a, b, n, how, k);
        assert(forward_ok(ms, k, how));
        let (sizes, f) = choose|sizes: Seq<T>, f: Seq<Cx<T>>|
            #[trigger] advanced(ms[k], ms[k + 1], k, sizes, f, how);
        lemma_step_back(ms[k], ms[k + 1], x, n, k, sizes, f, how);
    }
}

proof fn lemma_shapes<T: Scalar, D: Fn(Cx<T>, Cx<T>) -> Cx<T>>(
    xs: Seq<CMat<T>>,
    m: &CMat<T>,
    divide: D,
    cols: int,
    k: int,
)
    requires
        substituted(xs, m, divide),
        xs[m.rows as int].shaped(m.rows as int, cols),
        0 <= k <= m.rows,
    ensures
        xs[k].shaped(m.rows as int, cols),
    decreases m.rows - k,
{
    if k < m.rows {
        lemma_shapes(xs, m, divide, cols, k + 1);
        assert(backward(m, &xs[k + 1], k, &xs[k], divide));
    }
}

/// Elimination solves its system: in exact arithmetic, every row of `a` times
/// every column of what elimination gives is the entry of `b` there.
pub proof fn elimination_solves<T: Scalar, S: Fn(Cx<T>) -> T, D: Fn(Cx<T>, Cx<T>) -> Cx<T>>(
    a: &CMat<T>,
    b: &CMat<T>,
    x: &CMat<T>,
    how: &Solver<T, S, D>,
)
    requires
        exact::<T>(),
        divides(how),
        a.rows == a.cols,
        b.rows == a.rows,
        b.wf(),
        solves(a, b, x, how),
    ensures
        x.shaped(a.rows as int, b.cols as int),
        forall|i: int, j: int|
            0 <= i < a.rows && 0 <= j < b.cols ==> #[trigger] Matrix::dot(
                a,
                x,
                i,
                j,
                a.rows as int,
            ) == b.at(i, j),
{
    let n = a.rows as int;
    let (ms, xs) = choose|ms: Seq<(CMat<T>, CMat<T>)>, xs: Seq<CMat<T>>|
        {
            &&& #[trigger] reduced(ms, a, b, n, how)
            &&& #[trigger] substituted(xs, &ms[n].0, how.divide)
            &&& xs[n] == ms[n].1
            &&& xs[0] == *x
        };
    lemma_steps(ms, a, b, n, how, n);
    let m = &ms[n].0;
    assert(xs[n].shaped(n, b.cols as int)) by {
        if n == 0 {
            assert(ms[0].1.same(b));
        }
    }
    assert forall|i: int| 0 <= i <= n implies (#[trigger] xs[i]).shaped(n, xs[0].cols as int) by {
        lemma_shapes(xs, m, how.divide, b.cols as int, i);
        lemma_shapes(xs, m, how.divide, b.cols as int, 0);
    }
    lemma_substitution_solves(xs, m, how);
    lemma_steps_back(ms, a, b, x, n, how, 0);
    lemma_shapes(xs, m, how.divide, b.cols as int, 0);
    assert forall|i: int, j: int| 0 <= i < n && 0 <= j < b.cols implies #[trigger] Matrix::dot(
        a,
        x,
        i,
        j,
        n,
    ) == b.at(i, j) by {
        assert(row_by(&ms[0].0, x, i, j, n) == ms[0].1.at(i, j));
        lemma_same_rows(&ms[0].0, a, x, i, i, j, n);
        assert(row_by(a, x, i, j, n) == Matrix::dot(a, x, i, j, n));
    }
}

/// Every number that can be a pivot has an inverse.
pub open spec fn inverts<T: Scalar, S: Fn(Cx<T>) -> T, D: Fn(Cx<T>, Cx<T>) -> Cx<T>>(
    how: &Solver<T, S, D>,
) -> bool {
    forall|w: Cx<T>| #[trigger]
        pivotal(w, how) ==> exists|v: Cx<T>| #[trigger] w.product(v) == Cx::<T>::unit()
}

/// Summands that are alike can be taken off.
pub proof fn lemma_off_both<T: Scalar>(a: Cx<T>, b: Cx<T>, c: Cx<T>)
    requires
        exact::<T>(),
        a.sum(c) == b.sum(c),
    ensures
        a == b,
{
    ring(a, c, c.negated());
    ring(b, c, c.negated());
    ring(c, c, c);
    ring(a, a, a);
    ring(b, b, b);
}

/// Rows act on a wave as they combine.
proof fn lemma_along_combines<T: Scalar>(
    m2: &CMat<T>,
    m: &CMat<T>,
    v: Seq<Cx<T>>,
    r: int,
    q: int,
    p: int,
    f: Cx<T>,
    k: int,
)
    requires
        exact::<T>(),
        forall|c: int|
            0 <= c < k ==> m.at(q, c) == (#[trigger] m2.at(r, c)).sum(f.product(m.at(p, c))),
    ensures
        along(m, v, q, k) == along(m2, v, r, k).sum(f.product(along(m, v, p, k))),
    decreases k,
{
    let zero = Cx::<T>::nought();
    if k <= 0 {
        ring(f, zero, zero);
        ring(zero, zero, zero);
    } else {
        lemma_along_combines(m2, m, v, r, q, p, f, k - 1);
        let c = k - 1;
        let (a, b, z) = (m2.at(r, c), m.at(p, c), v[c]);
        let (x, y) = (along(m2, v, r, c), along(m, v, p, c));
        assert(m.at(q, c) == a.sum(f.product(b)));
        lemma_common_factor(a, f.product(b), z);
        ring(f, b, z);
        ring(f, y, b.product(z));
        lemma_partners(x, f.product(y), a.product(z), f.product(b.product(z)));
    }
}

proof fn lemma_along_same<T: Scalar>(
    m2: &CMat<T>,
    m: &CMat<T>,
    v: Seq<Cx<T>>,
    r: int,
    q: int,
    k: int,
)
    requires
        forall|c: int| 0 <= c < k ==> #[trigger] m2.at(r, c) == m.at(q, c),
    ensures
        along(m2, v, r, k) == along(m, v, q, k),
    decreases k,
{
    if k > 0 {
        lemma_along_same(m2, m, v, r, q, k - 1);
        assert(m2.at(r, k - 1) == m.at(q, k - 1));
    }
}

/// Every row of `m` acts alike on both waves.
pub open spec fn alike<T: Scalar>(m: &CMat<T>, v: Seq<Cx<T>>, w: Seq<Cx<T>>, n: int) -> bool {
    forall|i: int| 0 <= i < n ==> #[trigger] along(m, v, i, n) == along(m, w, i, n)
}

/// Waves that a matrix cannot tell apart, it cannot after a forward step.
proof fn lemma_step_alike<T: Scalar, S: Fn(Cx<T>) -> T, D: Fn(Cx<T>, Cx<T>) -> Cx<T>>(
    before: (CMat<T>, CMat<T>),
    after: (CMat<T>, CMat<T>),
    v: Seq<Cx<T>>,
    w: Seq<Cx<T>>,
    n: int,
    col: int,
    sizes: Seq<T>,
    f: Seq<Cx<T>>,
    how: &Solver<T, S, D>,
)
    requires
        exact::<T>(),
        0 <= col < n,
        before.0.rows == n,
        before.0.cols == n,
        cleared(&before.0, n, col, how),
        advanced(before, after, col, sizes, f, how),
        alike(&before.0, v, w, n),
    ensures
        alike(&after.0, v, w, n),
{
    let p = largest(sizes, col, n);
    lemma_largest_within(sizes, col, n);
    let (m, m2) = (before.0, after.0);
    assert forall|r: int| 0 <= r < n implies #[trigger] along(&m2, v, r, n) == along(
        &m2,
        w,
        r,
        n,
    ) by {
        let q = swapped(r, p, col);
        assert(along(&m, v, q, n) == along(&m, w, q, n));
        assert(along(&m, v, p, n) == along(&m, w, p, n));
        if r <= col || !is_nonzero(f[r]) {
            assert forall|c: int| 0 <= c < n implies #[trigger] m2.at(r, c) == m.at(q, c) by {}
            lemma_along_same(&m2, &m, v, r, q, n);
            lemma_along_same(&m2, &m, w, r, q, n);
        } else {
            assert forall|c: int| 0 <= c < n implies m.at(q, c) == (#[trigger] m2.at(r, c)).sum(
                f[r].product(m.at(p, c)),
            ) by {
                if c < col {
                    assert(m.at(p, c) == Cx::<T>::nought());
                    ring(f[r], m2.at(r, c), m2.at(r, c));
                    ring(m2.at(r, c), m2.at(r, c), m2.at(r, c));
                } else {
                    lemma_back_again(m.at(q, c), f[r].product(m.at(p, c)));
                }
            }
            lemma_along_combines(&m2, &m, v, r, q, p, f[r], n);
            lemma_along_combines(&m2, &m, w, r, q, p, f[r], n);
            lemma_off_both(
                along(&m2, v, r, n),
                along(&m2, w, r, n),
                f[r].product(along(&m, v, p, n)),
            );
        }
    }
}

proof fn lemma_steps_alike<T: Scalar, S: Fn(Cx<T>) -> T, D: Fn(Cx<T>, Cx<T>) -> Cx<T>>(
    ms: Seq<(CMat<T>, CMat<T>)>,
    a: &CMat<T>,
    b: &CMat<T>,
    v: Seq<Cx<T>>,
    w: Seq<Cx<T>>,
    n: int,
    how: &Solver<T, S, D>,
    k: int,
)
    requires
        exact::<T>(),
        divides(how),
        a.rows == n,
        a.cols == n,
        b.rows == n,
        reduced(ms, a, b, n, how),
        0 <= k <= n,
        alike(a, v, w, n),
    ensures
        alike(&ms[k].0, v, w, n),
    decreases k,
{
    if k == 0 {
        assert forall|i: int| 0 <= i < n implies #[trigger] along(&ms[0].0, v, i, n) == along(
            &ms[0].0,
            w,
            i,
            n,
        ) by {
            lemma_along_same(&ms[0].0, a, v, i, i, n);
            lemma_along_same(&ms[0].0, a, w, i, i, n);
            assert(along(a, v, i, n) == along(a, w, i, n));
        }
    } else {
        lemma_steps_alike(ms, a, b, v, w, n, how, k - 1);
        lemma_steps(ms, a, b, n, how, k - 1);
        assert(forward_ok(ms, k - 1, how));
        let (sizes, f) = choose|sizes: Seq<T>, f: Seq<Cx<T>>|
            #[trigger] advanced(ms[k - 1], ms[k], k - 1, sizes, f, how);
        lemma_step_alike(ms[k - 1], ms[k], v, w, n, k - 1, sizes, f, how);
    }
}

/// Where two waves agree past place `k`, so do the first terms of a row that
/// acts alike on them.
proof fn lemma_shortened<T: Scalar>(
    m: &CMat<T>,
    v: Seq<Cx<T>>,
    w: Seq<Cx<T>>,
    r: int,
    k: int,
    n: int,
)
    requires
        exact::<T>(),
        0 <= k <= n,
        along(m, v, r, n) == along(m, w, r, n),
        forall|c: int| k <= c < n ==> #[trigger] v[c] == w[c],
    ensures
        along(m, v, r, k) == along(m, w, r, k),
    decreases n,
{
    if k < n {
        assert(v[n - 1] == w[n - 1]);
        lemma_off_both(
            along(m, v, r, n - 1),
            along(m, w, r, n - 1),
            m.at(r, n - 1).product(v[n - 1]),
        );
        lemma_shortened(m, v, w, r, k, n - 1);
    }
}

/// A triangular matrix with pivots on its diagonal tells all waves apart.
proof fn lemma_triangular_tells<T: Scalar, S: Fn(Cx<T>) -> T, D: Fn(Cx<T>, Cx<T>) -> Cx<T>>(
    m: &CMat<T>,
    v: Seq<Cx<T>>,
    w: Seq<Cx<T>>,
    n: int,
    how: &Solver<T, S, D>,
    k: int,
)
    requires
        exact::<T>(),
        inverts(how),
        cleared(m, n, n, how),
        alike(m, v, w, n),
        0 <= k <= n,
    ensures
        forall|c: int| k <= c < n ==> #[trigger] v[c] == w[c],
    decreases n - k,
{
    if k < n {
        lemma_triangular_tells(m, v, w, n, how, k + 1);
        assert(along(m, v, k, n) == along(m, w, k, n));
        lemma_shortened(m, v, w, k, k + 1, n);
        lemma_along_dark(m, v, k, k);
        lemma_along_dark(m, w, k, k);
        let d = m.at(k, k);
        lemma_nothing_left(d.product(v[k]));
        lemma_nothing_left(d.product(w[k]));
        assert(d.product(v[k]) == d.product(w[k]));
        assert(pivotal(d, how));
        let e = choose|e: Cx<T>| #[trigger] d.product(e) == Cx::<T>::unit();
        lemma_undo(d, e, v[k]);
        lemma_undo(d, e, w[k]);
        assert forall|c: int| k <= c < n implies #[trigger] v[c] == w[c] by {
            if c > k {
                assert(v[c] == w[c]);
            }
        }
    }
}

proof fn lemma_undo<T: Scalar>(d: Cx<T>, e: Cx<T>, x: Cx<T>)
    requires
        exact::<T>(),
        d.product(e) == Cx::<T>::unit(),
    ensures
        e.product(d.product(x)) == x,
{
    ring(d, e, x);
    ring(e, d, x);
    ring(x, Cx::unit(), x);
    ring(Cx::unit(), x, x);
}

/// Where elimination gives a solution, there is no other: waves on which every
/// row of the matrix acts alike are equal.
pub proof fn elimination_is_faithful<T: Scalar, S: Fn(Cx<T>) -> T, D: Fn(Cx<T>, Cx<T>) -> Cx<T>>(
    a: &CMat<T>,
    b: &CMat<T>,
    x: &CMat<T>,
    how: &Solver<T, S, D>,
    v: Seq<Cx<T>>,
    w: Seq<Cx<T>>,
)
    requires
        exact::<T>(),
        divides(how),
        inverts(how),
        a.rows == a.cols,
        b.rows == a.rows,
        solves(a, b, x, how),
        v.len() == a.rows,
        w.len() == a.rows,
        alike(a, v, w, a.rows as int),
    ensures
        v == w,
{
    let n = a.rows as int;
    let (ms, xs) = choose|ms: Seq<(CMat<T>, CMat<T>)>, xs: Seq<CMat<T>>|
        {
            &&& #[trigger] reduced(ms, a, b, n, how)
            &&& #[trigger] substituted(xs, &ms[n].0, how.divide)
            &&& xs[n] == ms[n].1
            &&& xs[0] == *x
        };
    lemma_steps(ms, a, b, n, how, n);
    lemma_steps_alike(ms, a, b, v, w, n, how, n);
    lemma_triangular_tells(&ms[n].0, v, w, n, how, 0);
    assert(v =~= w);
}

} // verus!
