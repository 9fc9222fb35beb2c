//! Matrices acting on waves, in exact arithmetic.

use crate::complex::Cx;
use crate::exact::{exact, lemma_common_factor, lemma_partners, ring};
use crate::matrix::Matrix;
use crate::photonic::network::CMat;
use crate::scalar::Scalar;
use vstd::prelude::*;

verus! {

/// Row `i` of `m` times a wave, from the first `n` terms.
pub open spec fn along<T: Scalar>(m: &CMat<T>, v: Seq<Cx<T>>, i: int, n: int) -> Cx<T>
    decreases n,
{
    if n <= 0 {
        Cx::nought()
    } else {
        along(m, v, i, n - 1).sum(m.at(i, n - 1).product(v[n - 1]))
    }
}

/// A matrix times a wave.
pub open spec fn applied<T: Scalar>(m: &CMat<T>, v: Seq<Cx<T>>) -> Seq<Cx<T>> {
    Seq::new(m.rows as nat, |i: int| along(m, v, i, m.cols as int))
}

/// Two waves on top of each other.
pub open spec fn added<T: Scalar>(v: Seq<Cx<T>>, w: Seq<Cx<T>>) -> Seq<Cx<T>> {
    Seq::new(v.len(), |i: int| v[i].sum(w[i]))
}

/// No wave.
pub open spec fn still<T: Scalar>(n: int) -> Seq<Cx<T>> {
    Seq::new(n as nat, |i: int| Cx::nought())
}

/// A wave of one on port `j` alone.
pub open spec fn on_port<T: Scalar>(n: int, j: int) -> Seq<Cx<T>> {
    Seq::new(
        n as nat,
        |i: int|
            if i == j {
                Cx::unit()
            } else {
                Cx::nought()
            },
    )
}

/// The order of waves does not matter, nor how they are grouped.
pub proof fn lemma_added<T: Scalar>(v: Seq<Cx<T>>, w: Seq<Cx<T>>, x: Seq<Cx<T>>)
    requires
        exact::<T>(),
        v.len() == w.len() == x.len(),
    ensures
        added(v, w) == added(w, v),
        added(added(v, w), x) == added(v, added(w, x)),
        added(v, still(v.len() as int)) == v,
        added(still(v.len() as int), v) == v,
{
    let zero = Cx::<T>::nought();
    assert forall|i: int| 0 <= i < v.len() implies #[trigger] added(v, w)[i] == added(w, v)[i] by {
        ring(v[i], w[i], zero);
    }
    assert(added(v, w) =~= added(w, v));
    assert forall|i: int| 0 <= i < v.len() implies #[trigger] added(added(v, w), x)[i] == added(
        v,
        added(w, x),
    )[i] by {
        ring(v[i], w[i], x[i]);
    }
    assert(added(added(v, w), x) =~= added(v, added(w, x)));
    assert forall|i: int| 0 <= i < v.len() implies #[trigger] added(v, still(v.len() as int))[i]
        == v[i] by {
        ring(v[i], zero, zero);
    }
    assert(added(v, still(v.len() as int)) =~= v);
    assert forall|i: int| 0 <= i < v.len() implies #[trigger] added(still(v.len() as int), v)[i]
        == v[i] by {
        ring(v[i], zero, zero);
        ring(zero, v[i], zero);
    }
    assert(added(still(v.len() as int), v) =~= v);
}

proof fn lemma_along_adds<T: Scalar>(
    m: &CMat<T>,
    v: Seq<Cx<T>>,
    w: Seq<Cx<T>>,
    s: Seq<Cx<T>>,
    i: int,
    n: int,
)
    requires
        exact::<T>(),
        forall|k: int| 0 <= k < n ==> #[trigger] s[k] == v[k].sum(w[k]),
    ensures
        along(m, s, i, n) == along(m, v, i, n).sum(along(m, w, i, n)),
    decreases n,
{
    let zero = Cx::<T>::nought();
    if n <= 0 {
        ring(zero, zero, zero);
    } else {
        lemma_along_adds(m, v, w, s, i, n - 1);
        let (e, k) = (m.at(i, n - 1), n - 1);
        assert(s[k] == v[k].sum(w[k]));
        ring(e, v[k], w[k]);
        lemma_partners(
            along(m, v, i, k),
            along(m, w, i, k),
            e.product(v[k]),
            e.product(w[k]),
        );
    }
}

/// A matrix acts on two waves as on each.
pub proof fn lemma_applied_adds<T: Scalar>(m: &CMat<T>, v: Seq<Cx<T>>, w: Seq<Cx<T>>)
    requires
        exact::<T>(),
        v.len() == m.cols,
        w.len() == m.cols,
    ensures
        applied(m, added(v, w)) == added(applied(m, v), applied(m, w)),
{
    assert forall|i: int| 0 <= i < m.rows implies #[trigger] applied(m, added(v, w))[i] == added(
        applied(m, v),
        applied(m, w),
    )[i] by {
        lemma_along_adds(m, v, w, added(v, w), i, m.cols as int);
    }
    assert(applied(m, added(v, w)) =~= added(applied(m, v), applied(m, w)));
}

/// Rows that add up act as their sum.
proof fn lemma_along_splits<T: Scalar>(
    m: &CMat<T>,
    a: &CMat<T>,
    b: &CMat<T>,
    v: Seq<Cx<T>>,
    i: int,
    n: int,
)
    requires
        exact::<T>(),
        forall|j: int| 0 <= j < n ==> #[trigger] m.at(i, j) == a.at(i, j).sum(b.at(i, j)),
    ensures
        along(m, v, i, n) == along(a, v, i, n).sum(along(b, v, i, n)),
    decreases n,
{
    let zero = Cx::<T>::nought();
    if n <= 0 {
        ring(zero, zero, zero);
    } else {
        lemma_along_splits(m, a, b, v, i, n - 1);
        let k = n - 1;
        let (x, y) = (a.at(i, k), b.at(i, k));
        assert(m.at(i, k) == x.sum(y));
        lemma_common_factor(x, y, v[k]);
        lemma_partners(
            along(a, v, i, k),
            along(b, v, i, k),
            x.product(v[k]),
            y.product(v[k]),
        );
    }
}

/// A sum of matrices acts as both.
pub proof fn lemma_applied_sum<T: Scalar>(m: &CMat<T>, a: &CMat<T>, b: &CMat<T>, v: Seq<Cx<T>>)
    requires
        exact::<T>(),
        m.is_sum(a, b),
        b.rows == a.rows,
        b.cols == a.cols,
    ensures
        applied(m, v) == added(applied(a, v), applied(b, v)),
{
    assert forall|i: int| 0 <= i < a.rows implies #[trigger] applied(m, v)[i] == added(
        applied(a, v),
        applied(b, v),
    )[i] by {
        lemma_along_splits(m, a, b, v, i, a.cols as int);
    }
    assert(applied(m, v) =~= added(applied(a, v), applied(b, v)));
}

proof fn lemma_along_eye<T: Scalar>(eye: &CMat<T>, v: Seq<Cx<T>>, i: int, n: int, k: int)
    requires
        exact::<T>(),
        eye.is_identity(n),
        0 <= i < n,
        0 <= k <= n,
    ensures
        along(eye, v, i, k) == (if k > i {
            v[i]
        } else {
            Cx::nought()
        }),
    decreases k,
{
    let (one, zero) = (Cx::<T>::unit(), Cx::<T>::nought());
    if k > 0 {
        lemma_along_eye(eye, v, i, n, k - 1);
        let x = v[k - 1];
        assert(eye.at(i, k - 1) == (if i == k - 1 {
            one
        } else {
            zero
        }));
        ring(x, one, zero);
        ring(one, x, zero);
        ring(x, zero, zero);
        ring(zero, x, zero);
        ring(v[i], zero, zero);
        ring(zero, zero, zero);
    }
}

/// The identity leaves waves alone.
pub proof fn lemma_applied_eye<T: Scalar>(eye: &CMat<T>, v: Seq<Cx<T>>)
    requires
        exact::<T>(),
        eye.is_identity(v.len() as int),
    ensures
        applied(eye, v) == v,
{
    assert forall|i: int| 0 <= i < v.len() implies #[trigger] applied(eye, v)[i] == v[i] by {
        lemma_along_eye(eye, v, i, v.len() as int, v.len() as int);
    }
    assert(applied(eye, v) =~= v);
}

/// The identity less a matrix, and the matrix, act together as the identity.
pub proof fn lemma_applied_rest<T: Scalar>(
    m: &CMat<T>,
    eye: &CMat<T>,
    b: &CMat<T>,
    v: Seq<Cx<T>>,
)
    requires
        exact::<T>(),
        eye.is_identity(v.len() as int),
        m.is_difference(eye, b),
        b.rows == v.len(),
        b.cols == v.len(),
    ensures
        added(applied(m, v), applied(b, v)) == v,
{
    let n = v.len() as int;
    assert forall|i: int| 0 <= i < n implies #[trigger] added(applied(m, v), applied(b, v))[i]
        == v[i] by {
        assert forall|j: int| 0 <= j < n implies #[trigger] eye.at(i, j) == m.at(i, j).sum(
            b.at(i, j),
        ) by {
            assert(m.at(i, j) == eye.at(i, j).difference(b.at(i, j)));
            let (x, y) = (eye.at(i, j), b.at(i, j));
            ring(x, y, y);
            ring(x, y.negated(), y);
            ring(y.negated(), y, y);
            ring(y, y.negated(), y);
        }
        lemma_along_splits(eye, m, b, v, i, n);
        lemma_along_eye(eye, v, i, n, n);
    }
    assert(added(applied(m, v), applied(b, v)) =~= v);
}

proof fn lemma_along_scaled<T: Scalar>(
    a: &CMat<T>,
    b: &CMat<T>,
    c: Seq<Cx<T>>,
    z: Cx<T>,
    i: int,
    j: int,
    n: int,
)
    requires
        exact::<T>(),
        forall|k: int| 0 <= k < n ==> #[trigger] c[k] == b.at(k, j).product(z),
    ensures
        along(a, c, i, n) == Matrix::dot(a, b, i, j, n).product(z),
    decreases n,
{
    let zero = Cx::<T>::nought();
    if n <= 0 {
        ring(z, zero, zero);
        ring(zero, z, zero);
    } else {
        lemma_along_scaled(a, b, c, z, i, j, n - 1);
        let k = n - 1;
        let (x, y) = (a.at(i, k), b.at(k, j));
        assert(c[k] == y.product(z));
        ring(x, y, z);
        lemma_common_factor(Matrix::dot(a, b, i, j, k), x.product(y), z);
    }
}

proof fn lemma_along_product<T: Scalar>(
    m: &CMat<T>,
    a: &CMat<T>,
    b: &CMat<T>,
    v: Seq<Cx<T>>,
    w: Seq<Cx<T>>,
    i: int,
    n: int,
)
    requires
        exact::<T>(),
        n >= 0,
        w.len() == a.cols,
        forall|k: int| 0 <= k < w.len() ==> #[trigger] w[k] == along(b, v, k, n),
        forall|j: int|
            0 <= j < n ==> #[trigger] m.at(i, j) == Matrix::dot(a, b, i, j, a.cols as int),
    ensures
        along(m, v, i, n) == along(a, w, i, a.cols as int),
    decreases n,
{
    let width = a.cols as int;
    if n == 0 {
        lemma_along_still(a, w, i, width);
    } else {
        let j = n - 1;
        let w0 = Seq::new(width as nat, |k: int| along(b, v, k, j));
        let c = Seq::new(width as nat, |k: int| b.at(k, j).product(v[j]));
        lemma_along_product(m, a, b, v, w0, i, j);
        assert forall|k: int| 0 <= k < width implies #[trigger] w[k] == w0[k].sum(c[k]) by {
            assert(w[k] == along(b, v, k, n));
        }
        lemma_along_adds(a, w0, c, w, i, width);
        lemma_along_scaled(a, b, c, v[j], i, j, width);
        assert(m.at(i, j) == Matrix::dot(a, b, i, j, width));
    }
}

proof fn lemma_along_still<T: Scalar>(a: &CMat<T>, w: Seq<Cx<T>>, i: int, n: int)
    requires
        exact::<T>(),
        forall|k: int| 0 <= k < n ==> #[trigger] w[k] == Cx::<T>::nought(),
    ensures
        along(a, w, i, n) == Cx::<T>::nought(),
    decreases n,
{
    let zero = Cx::<T>::nought();
    if n > 0 {
        lemma_along_still(a, w, i, n - 1);
        assert(w[n - 1] == zero);
        ring(a.at(i, n - 1), zero, zero);
        ring(zero, zero, zero);
    }
}

/// Nothing comes of nothing.
pub proof fn lemma_applied_still<T: Scalar>(m: &CMat<T>)
    requires
        exact::<T>(),
    ensures
        applied(m, still(m.cols as int)) == still::<T>(m.rows as int),
{
    assert forall|i: int| 0 <= i < m.rows implies #[trigger] applied(m, still(m.cols as int))[i]
        == still::<T>(m.rows as int)[i] by {
        lemma_along_still(m, still(m.cols as int), i, m.cols as int);
    }
    assert(applied(m, still(m.cols as int)) =~= still::<T>(m.rows as int));
}

/// Zeros let nothing through.
pub proof fn lemma_applied_dark<T: Scalar>(m: &CMat<T>, v: Seq<Cx<T>>)
    requires
        exact::<T>(),
        forall|i: int, j: int|
            0 <= i < m.rows && 0 <= j < m.cols ==> #[trigger] m.at(i, j) == Cx::<T>::nought(),
    ensures
        applied(m, v) == still::<T>(m.rows as int),
{
    assert forall|i: int| 0 <= i < m.rows implies #[trigger] applied(m, v)[i] == still::<T>(
        m.rows as int,
    )[i] by {
        lemma_along_dark(m, v, i, m.cols as int);
    }
    assert(applied(m, v) =~= still::<T>(m.rows as int));
}

pub proof fn lemma_along_dark<T: Scalar>(m: &CMat<T>, v: Seq<Cx<T>>, i: int, n: int)
    requires
        exact::<T>(),
        forall|j: int| 0 <= j < n ==> #[trigger] m.at(i, j) == Cx::<T>::nought(),
    ensures
        along(m, v, i, n) == Cx::<T>::nought(),
    decreases n,
{
    let zero = Cx::<T>::nought();
    if n > 0 {
        lemma_along_dark(m, v, i, n - 1);
        assert(m.at(i, n - 1) == zero);
        ring(v[n - 1], zero, zero);
        ring(zero, v[n - 1], zero);
        ring(zero, zero, zero);
    }
}

/// A product acts as its factors in turn.
pub proof fn lemma_applied_product<T: Scalar>(
    m: &CMat<T>,
    a: &CMat<T>,
    b: &CMat<T>,
    v: Seq<Cx<T>>,
)
    requires
        exact::<T>(),
        m.is_product(a, b),
        a.cols == b.rows,
    ensures
        applied(m, v) == applied(a, applied(b, v)),
{
    assert forall|i: int| 0 <= i < a.rows implies #[trigger] applied(m, v)[i] == applied(
        a,
        applied(b, v),
    )[i] by {
        lemma_along_product(m, a, b, v, applied(b, v), i, b.cols as int);
    }
    assert(applied(m, v) =~= applied(a, applied(b, v)));
}

proof fn lemma_along_port<T: Scalar>(m: &CMat<T>, n: int, i: int, j: int, k: int)
    requires
        exact::<T>(),
        0 <= j < n,
        0 <= k <= n,
    ensures
        along(m, on_port(n, j), i, k) == (if k > j {
            m.at(i, j)
        } else {
            Cx::nought()
        }),
    decreases k,
{
    let (one, zero) = (Cx::<T>::unit(), Cx::<T>::nought());
    if k > 0 {
        lemma_along_port(m, n, i, j, k - 1);
        let x = m.at(i, k - 1);
        ring(x, one, zero);
        ring(x, zero, zero);
        ring(zero, x, zero);
        ring(m.at(i, j), zero, zero);
        ring(zero, zero, zero);
    }
}

/// What a matrix makes of a wave on one port is that column of it.
pub proof fn lemma_applied_port<T: Scalar>(m: &CMat<T>, i: int, j: int)
    requires
        exact::<T>(),
        0 <= i < m.rows,
        0 <= j < m.cols,
    ensures
        applied(m, on_port(m.cols as int, j))[i] == m.at(i, j),
{
    lemma_along_port(m, m.cols as int, i, j, m.cols as int);
}

} // verus!
