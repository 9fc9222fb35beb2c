//! Dense row-major matrices over real or complex samples.

use crate::complex::Cx;
use crate::field::grid::{cell, cell_index, lemma_cell};
use crate::scalar::Scalar;
use vstd::prelude::*;

verus! {

/// What matrices are made of: real or complex samples.
pub trait Number: Copy {
    spec fn nil() -> Self;

    spec fn unity() -> Self;

    spec fn joined(self, rhs: Self) -> Self;

    spec fn less(self, rhs: Self) -> Self;

    spec fn multiplied(self, rhs: Self) -> Self;

    fn number_zero() -> (r: Self)
        ensures
            r == Self::nil(),
    ;

    fn number_one() -> (r: Self)
        ensures
            r == Self::unity(),
    ;

    fn number_add(self, rhs: Self) -> (r: Self)
        ensures
            r == self.joined(rhs),
    ;

    fn number_sub(self, rhs: Self) -> (r: Self)
        ensures
            r == self.less(rhs),
    ;

    fn number_mul(self, rhs: Self) -> (r: Self)
        ensures
            r == self.multiplied(rhs),
    ;
}

impl<T: Scalar> Number for T {
    open spec fn nil() -> Self {
        T::zero_value()
    }

    open spec fn unity() -> Self {
        T::of_count(1)
    }

    open spec fn joined(self, rhs: Self) -> Self {
        self.sum(rhs)
    }

    open spec fn less(self, rhs: Self) -> Self {
        self.difference(rhs)
    }

    open spec fn multiplied(self, rhs: Self) -> Self {
        self.product(rhs)
    }

    fn number_zero() -> Self {
        T::zero()
    }

    fn number_one() -> Self {
        T::from_count(1)
    }

    fn number_add(self, rhs: Self) -> Self {
        self.plus(rhs)
    }

    fn number_sub(self, rhs: Self) -> Self {
        self.minus(rhs)
    }

    fn number_mul(self, rhs: Self) -> Self {
        self.times(rhs)
    }
}

impl<T: Scalar> Number for Cx<T> {
    open spec fn nil() -> Self {
        Cx::<T>::nought()
    }

    open spec fn unity() -> Self {
        Cx::<T>::unit()
    }

    open spec fn joined(self, rhs: Self) -> Self {
        self.sum(rhs)
    }

    open spec fn less(self, rhs: Self) -> Self {
        self.difference(rhs)
    }

    open spec fn multiplied(self, rhs: Self) -> Self {
        self.product(rhs)
    }

    fn number_zero() -> Self {
        Cx::zero()
    }

    fn number_one() -> Self {
        Cx::one()
    }

    fn number_add(self, rhs: Self) -> Self {
        self.plus(rhs)
    }

    fn number_sub(self, rhs: Self) -> Self {
        self.minus(rhs)
    }

    fn number_mul(self, rhs: Self) -> Self {
        self.times(rhs)
    }
}

/// A dense matrix, row by row.
pub struct Matrix<E> {
    pub rows: usize,
    pub cols: usize,
    pub data: Vec<E>,
}

impl<E: Number> Matrix<E> {
    /// One entry per place.
    pub open spec fn wf(&self) -> bool {
        self.data@.len() == self.rows * self.cols
    }

    /// A sound matrix of this shape.
    pub open spec fn shaped(&self, rows: int, cols: int) -> bool {
        self.wf() && self.rows == rows && self.cols == cols
    }

    pub open spec fn at(&self, i: int, j: int) -> E {
        self.data@[cell(self.cols as int, i, j)]
    }

    /// Whether both hold the same entries.
    pub open spec fn same(&self, other: &Self) -> bool {
        self.rows == other.rows && self.cols == other.cols && self.data@ == other.data@
    }

    /// The matrix whose entry (i, j) is `f(i, j)`.
    pub fn build<F: Fn(usize, usize) -> E>(rows: usize, cols: usize, f: F) -> (r: Self)
        requires
            rows * cols <= usize::MAX,
            forall|i: usize, j: usize| i < rows && j < cols ==> call_requires(f, (i, j)),
        ensures
            r.shaped(rows as int, cols as int),
            forall|i: usize, j: usize|
                i < rows && j < cols ==> call_ensures(f, (i, j), #[trigger] r.at(i as int, j as int)),
    {
        let n: usize = rows * cols;
        let mut data: Vec<E> = Vec::new();
        let mut q: usize = 0;
        while q < n
            invariant
                q <= n,
                n == rows * cols,
                data@.len() == q,
                forall|i: usize, j: usize| i < rows && j < cols ==> call_requires(f, (i, j)),
                forall|m: int|
                    0 <= m < q ==> call_ensures(
                        f,
                        ((m / cols as int) as usize, (m % cols as int) as usize),
                        #[trigger] data@[m],
                    ),
            decreases n - q,
        {
            proof {
                assert(cols > 0) by (nonlinear_arith)
                    requires
                        0 <= q < rows * cols,
                        0 <= rows,
                        0 <= cols,
                ;
                crate::field::grid::lemma_place(rows as int, cols as int, q as int);
            }
            data.push(f(q / cols, q % cols));
            q += 1;
        }
        let r = Matrix { rows, cols, data };
        proof {
            assert forall|i: usize, j: usize| i < rows && j < cols implies call_ensures(
                f,
                (i, j),
                #[trigger] r.at(i as int, j as int),
            ) by {
                let (x, y, w) = (i as int, j as int, cols as int);
                lemma_cell(rows as int, w, x, y);
                vstd::arithmetic::div_mod::lemma_fundamental_div_mod_converse(
                    cell(w, x, y),
                    w,
                    x,
                    y,
                );
                let e = r.data@[cell(w, x, y)];
            }
        }
        r
    }

    /// All entries nil.
    pub fn zeros(rows: usize, cols: usize) -> (r: Self)
        requires
            rows * cols <= usize::MAX,
        ensures
            r.shaped(rows as int, cols as int),
            forall|i: int, j: int|
                0 <= i < rows && 0 <= j < cols ==> #[trigger] r.at(i, j) == E::nil(),
    {
        let entry = |i: usize, j: usize| -> (e: E)
                ensures
                    e == E::nil(),
                { E::number_zero() };
        let r = Self::build(rows, cols, entry);
        assert forall|i: int, j: int| 0 <= i < rows && 0 <= j < cols implies #[trigger] r.at(i, j)
            == E::nil() by {
            let e = r.at(i as usize as int, j as usize as int);
        }
        r
    }

    /// Ones on the diagonal.
    pub fn identity(n: usize) -> (r: Self)
        requires
            n * n <= usize::MAX,
        ensures
            r.is_identity(n as int),
    {
        let entry = |i: usize, j: usize| -> (e: E)
                ensures
                    e == (if i == j {
                        E::unity()
                    } else {
                        E::nil()
                    }),
                {
                    if i == j {
                        E::number_one()
                    } else {
                        E::number_zero()
                    }
                };
        let r = Self::build(n, n, entry);
        assert forall|i: int, j: int| 0 <= i < n && 0 <= j < n implies #[trigger] r.at(i, j) == (
        if i == j {
            E::unity()
        } else {
            E::nil()
        }) by {
            let e = r.at(i as usize as int, j as usize as int);
        }
        r
    }

    pub open spec fn is_identity(&self, n: int) -> bool {
        &&& self.shaped(n, n)
        &&& forall|i: int, j: int|
            0 <= i < n && 0 <= j < n ==> #[trigger] self.at(i, j) == (if i == j {
                E::unity()
            } else {
                E::nil()
            })
    }

    pub fn get(&self, i: usize, j: usize) -> (r: E)
        requires
            self.wf(),
            i < self.rows,
            j < self.cols,
        ensures
            r == self.at(i as int, j as int),
    {
        self.data[self.place(i, j)]
    }

    fn place(&self, i: usize, j: usize) -> (r: usize)
        requires
            self.wf(),
            i < self.rows,
            j < self.cols,
        ensures
            r == cell(self.cols as int, i as int, j as int),
            r < self.data@.len(),
    {
        let n: usize = self.data.len();
        cell_index(self.rows, self.cols, i, j)
    }

    pub fn put(&mut self, i: usize, j: usize, e: E)
        requires
            old(self).wf(),
            i < old(self).rows,
            j < old(self).cols,
        ensures
            final(self).shaped(old(self).rows as int, old(self).cols as int),
            forall|x: int, y: int|
                0 <= x < old(self).rows && 0 <= y < old(self).cols ==> #[trigger] final(self).at(
                    x,
                    y,
                ) == (if x == i && y == j {
                    e
                } else {
                    old(self).at(x, y)
                }),
    {
        let at: usize = self.place(i, j);
        self.data.set(at, e);
        proof {
            let (n, w) = (self.rows as int, self.cols as int);
            assert forall|x: int, y: int| 0 <= x < n && 0 <= y < w implies #[trigger] self.at(x, y)
                == (if x == i && y == j {
                e
            } else {
                old(self).at(x, y)
            }) by {
                lemma_cell(n, w, x, y);
                lemma_cells_differ(w, x, y, i as int, j as int);
            }
        }
    }

    /// Entry (i, j) of `a.b` from the first `n` terms, added in order.
    pub open spec fn dot(a: &Self, b: &Self, i: int, j: int, n: int) -> E
        decreases n,
    {
        if n <= 0 {
            E::nil()
        } else {
            Self::dot(a, b, i, j, n - 1).joined(a.at(i, n - 1).multiplied(b.at(n - 1, j)))
        }
    }

    /// `self` is the product of `a` and `b`.
    pub open spec fn is_product(&self, a: &Self, b: &Self) -> bool {
        &&& self.shaped(a.rows as int, b.cols as int)
        &&& forall|i: int, j: int|
            0 <= i < a.rows && 0 <= j < b.cols ==> #[trigger] self.at(i, j) == Self::dot(
                a,
                b,
                i,
                j,
                a.cols as int,
            )
    }

    fn dot_of(&self, b: &Self, i: usize, j: usize) -> (r: E)
        requires
            self.wf(),
            b.wf(),
            self.cols == b.rows,
            i < self.rows,
            j < b.cols,
        ensures
            r == Self::dot(self, b, i as int, j as int, self.cols as int),
    {
        let mut acc = E::number_zero();
        let mut k: usize = 0;
        while k < self.cols
            invariant
                self.wf(),
                b.wf(),
                self.cols == b.rows,
                i < self.rows,
                j < b.cols,
                k <= self.cols,
                acc == Self::dot(self, b, i as int, j as int, k as int),
            decreases self.cols - k,
        {
            acc = acc.number_add(self.get(i, k).number_mul(b.get(k, j)));
            k += 1;
        }
        acc
    }

    /// The product `self.b`.
    pub fn matmul(&self, b: &Self) -> (r: Self)
        requires
            self.wf(),
            b.wf(),
            self.cols == b.rows,
            self.rows * b.cols <= usize::MAX,
        ensures
            r.is_product(self, b),
    {
        let entry = |i: usize, j: usize| -> (e: E)
                requires
                    self.wf(),
                    b.wf(),
                    self.cols == b.rows,
                    i < self.rows,
                    j < b.cols,
                ensures
                    e == Self::dot(self, b, i as int, j as int, self.cols as int),
                { self.dot_of(b, i, j) };
        let r = Self::build(self.rows, b.cols, entry);
        assert forall|i: int, j: int| 0 <= i < self.rows && 0 <= j < b.cols implies #[trigger] r.at(
            i,
            j,
        ) == Self::dot(self, b, i, j, self.cols as int) by {
            let e = r.at(i as usize as int, j as usize as int);
        }
        r
    }

    /// `self` is `a` with rows and columns exchanged.
    pub open spec fn is_transpose(&self, a: &Self) -> bool {
        &&& self.shaped(a.cols as int, a.rows as int)
        &&& forall|i: int, j: int|
            0 <= i < a.cols && 0 <= j < a.rows ==> #[trigger] self.at(i, j) == a.at(j, i)
    }

    pub fn transpose(&self) -> (r: Self)
        requires
            self.wf(),
        ensures
            r.is_transpose(self),
    {
        let n: usize = self.data.len();
        assert(self.cols * self.rows == self.rows * self.cols) by (nonlinear_arith);
        let entry = |i: usize, j: usize| -> (e: E)
                requires
                    self.wf(),
                    i < self.cols,
                    j < self.rows,
                ensures
                    e == self.at(j as int, i as int),
                { self.get(j, i) };
        let r = Self::build(self.cols, self.rows, entry);
        assert forall|i: int, j: int|
            0 <= i < self.cols && 0 <= j < self.rows implies #[trigger] r.at(i, j) == self.at(
            j,
            i,
        ) by {
            let e = r.at(i as usize as int, j as usize as int);
        }
        r
    }

    /// `self` is `a` plus `b`, entry by entry.
    pub open spec fn is_sum(&self, a: &Self, b: &Self) -> bool {
        &&& self.shaped(a.rows as int, a.cols as int)
        &&& forall|i: int, j: int|
            0 <= i < a.rows && 0 <= j < a.cols ==> #[trigger] self.at(i, j) == a.at(i, j).joined(
                b.at(i, j),
            )
    }

    /// `self` is `a` minus `b`, entry by entry.
    pub open spec fn is_difference(&self, a: &Self, b: &Self) -> bool {
        &&& self.shaped(a.rows as int, a.cols as int)
        &&& forall|i: int, j: int|
            0 <= i < a.rows && 0 <= j < a.cols ==> #[trigger] self.at(i, j) == a.at(i, j).less(
                b.at(i, j),
            )
    }

    pub fn plus(&self, b: &Self) -> (r: Self)
        requires
            self.wf(),
            b.shaped(self.rows as int, self.cols as int),
        ensures
            r.is_sum(self, b),
    {
        let n: usize = self.data.len();
        let entry = |i: usize, j: usize| -> (e: E)
                requires
                    self.wf(),
                    b.shaped(self.rows as int, self.cols as int),
                    i < self.rows,
                    j < self.cols,
                ensures
                    e == self.at(i as int, j as int).joined(b.at(i as int, j as int)),
                { self.get(i, j).number_add(b.get(i, j)) };
        let r = Self::build(self.rows, self.cols, entry);
        assert forall|i: int, j: int|
            0 <= i < self.rows && 0 <= j < self.cols implies #[trigger] r.at(i, j) == self.at(
            i,
            j,
        ).joined(b.at(i, j)) by {
            let e = r.at(i as usize as int, j as usize as int);
        }
        r
    }

    pub fn minus(&self, b: &Self) -> (r: Self)
        requires
            self.wf(),
            b.shaped(self.rows as int, self.cols as int),
        ensures
            r.is_difference(self, b),
    {
        let n: usize = self.data.len();
        let entry = |i: usize, j: usize| -> (e: E)
                requires
                    self.wf(),
                    b.shaped(self.rows as int, self.cols as int),
                    i < self.rows,
                    j < self.cols,
                ensures
                    e == self.at(i as int, j as int).less(b.at(i as int, j as int)),
                { self.get(i, j).number_sub(b.get(i, j)) };
        let r = Self::build(self.rows, self.cols, entry);
        assert forall|i: int, j: int|
            0 <= i < self.rows && 0 <= j < self.cols implies #[trigger] r.at(i, j) == self.at(
            i,
            j,
        ).less(b.at(i, j)) by {
            let e = r.at(i as usize as int, j as usize as int);
        }
        r
    }

    /// A copy.
    pub fn copy(&self) -> (r: Self)
        requires
            self.wf(),
        ensures
            r.same(self),
            r.wf(),
    {
        let mut data: Vec<E> = Vec::new();
        let mut k: usize = 0;
        while k < self.data.len()
            invariant
                k <= self.data@.len(),
                data@ == self.data@.take(k as int),
            decreases self.data@.len() - k,
        {
            data.push(self.data[k]);
            k += 1;
            assert(self.data@.take(k as int) =~= self.data@.take(k - 1).push(self.data@[k - 1]));
        }
        assert(self.data@.take(self.data@.len() as int) =~= self.data@);
        Matrix { rows: self.rows, cols: self.cols, data }
    }
}

/// Different places of a row-major array hold different entries.
pub proof fn lemma_cells_differ(w: int, i: int, j: int, x: int, y: int)
    requires
        w >= 1,
        0 <= j < w,
        0 <= y < w,
    ensures
        cell(w, i, j) == cell(w, x, y) ==> i == x && j == y,
{
    if cell(w, i, j) == cell(w, x, y) {
        vstd::arithmetic::div_mod::lemma_fundamental_div_mod_converse(cell(w, i, j), w, i, j);
        vstd::arithmetic::div_mod::lemma_fundamental_div_mod_converse(cell(w, x, y), w, x, y);
    }
}

} // verus!
