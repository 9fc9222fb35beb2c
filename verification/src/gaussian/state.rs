//! States, symplectic maps and their embedding.
//!
//! Angles and squeezing strengths come in through the samples that a map is
//! made of: sine and cosine, hyperbolic sine and cosine.

use crate::matrix::Matrix;
use crate::scalar::Scalar;
use vstd::prelude::*;

verus! {

/// The symplectic form: one block [[0, 1], [-1, 0]] per mode.
pub open spec fn form_at<T: Scalar>(i: int, j: int) -> T {
    if i % 2 == 0 && j == i + 1 {
        T::of_count(1)
    } else if i % 2 == 1 && j + 1 == i {
        T::of_count(1).negative()
    } else {
        T::zero_value()
    }
}

/// The symplectic form on `n_modes` modes.
pub fn omega<T: Scalar>(n_modes: usize) -> (r: Matrix<T>)
    requires
        (2 * n_modes) * (2 * n_modes) <= usize::MAX,
        2 * n_modes <= usize::MAX,
    ensures
        r.shaped(2 * n_modes, 2 * n_modes),
        forall|i: int, j: int|
            0 <= i < 2 * n_modes && 0 <= j < 2 * n_modes ==> #[trigger] r.at(i, j) == form_at::<T>(
                i,
                j,
            ),
{
    let d: usize = 2 * n_modes;
    let entry = |i: usize, j: usize| -> (e: T)
        requires
            i < d,
            j < d,
        ensures
            e == form_at::<T>(i as int, j as int),
        {
            if i % 2 == 0 && j > 0 && j - 1 == i {
                T::from_count(1)
            } else if i % 2 == 1 && j == i - 1 {
                T::from_count(1).opposite()
            } else {
                T::zero()
            }
        };
    let r = Matrix::build(d, d, entry);
    assert forall|i: int, j: int| 0 <= i < d && 0 <= j < d implies #[trigger] r.at(i, j)
        == form_at::<T>(i, j) by {
        let e = r.at(i as usize as int, j as usize as int);
    }
    r
}

/// A 2x2 map, row by row.
pub open spec fn is_two<T: Scalar>(m: &Matrix<T>, a: T, b: T, c: T, d: T) -> bool {
    m.rows == 2 && m.cols == 2 && m.data@ =~= seq![a, b, c, d]
}

fn two_by_two<T: Scalar>(a: T, b: T, c: T, d: T) -> (r: Matrix<T>)
    ensures
        is_two(&r, a, b, c, d),
        r.shaped(2, 2),
{
    let mut data: Vec<T> = Vec::new();
    data.push(a);
    data.push(b);
    data.push(c);
    data.push(d);
    Matrix { rows: 2, cols: 2, data }
}

/// A 4x4 map made of 2x2 blocks that are diagonal: rows
/// (a, 0, b, 0), (0, c, 0, d), (e, 0, f, 0), (0, g, 0, h).
pub open spec fn is_four<T: Scalar>(
    m: &Matrix<T>,
    a: T,
    b: T,
    c: T,
    d: T,
    e: T,
    f: T,
    g: T,
    h: T,
) -> bool {
    let o = T::zero_value();
    m.rows == 4 && m.cols == 4 && m.data@ =~= seq![
        a, o, b, o,
        o, c, o, d,
        e, o, f, o,
        o, g, o, h,
    ]
}

fn four_by_four<T: Scalar>(a: T, b: T, c: T, d: T, e: T, f: T, g: T, h: T) -> (r: Matrix<T>)
    ensures
        is_four(&r, a, b, c, d, e, f, g, h),
        r.shaped(4, 4),
{
    let o = T::zero();
    let mut data: Vec<T> = Vec::new();
    data.push(a);
    data.push(o);
    data.push(b);
    data.push(o);
    data.push(o);
    data.push(c);
    data.push(o);
    data.push(d);
    data.push(e);
    data.push(o);
    data.push(f);
    data.push(o);
    data.push(o);
    data.push(g);
    data.push(o);
    data.push(h);
    Matrix { rows: 4, cols: 4, data }
}

/// Sine and cosine of an angle.
#[derive(Debug, Clone, Copy)]
pub struct Turn<T> {
    pub sin: T,
    pub cos: T,
}

/// Hyperbolic sine and cosine of a strength.
#[derive(Debug, Clone, Copy)]
pub struct Boost<T> {
    pub sinh: T,
    pub cosh: T,
}

pub open spec fn is_rotation<T: Scalar>(m: &Matrix<T>, t: Turn<T>) -> bool {
    is_two(m, t.cos, t.sin, t.sin.negative(), t.cos)
}

/// Phase rotation of one mode.
pub fn rotation<T: Scalar>(t: Turn<T>) -> (r: Matrix<T>)
    ensures
        is_rotation(&r, t),
        r.shaped(2, 2),
{
    two_by_two(t.cos, t.sin, t.sin.opposite(), t.cos)
}

pub open spec fn is_squeezer<T: Scalar>(m: &Matrix<T>, b: Boost<T>, t: Turn<T>) -> bool {
    let cross = b.sinh.negative().product(t.sin);
    is_two(
        m,
        b.cosh.difference(b.sinh.product(t.cos)),
        cross,
        cross,
        b.cosh.sum(b.sinh.product(t.cos)),
    )
}

/// Squeezer of one mode, its axis at half the angle of `t`.
pub fn squeezer<T: Scalar>(b: Boost<T>, t: Turn<T>) -> (r: Matrix<T>)
    ensures
        is_squeezer(&r, b, t),
        r.shaped(2, 2),
{
    let cross = b.sinh.opposite().times(t.sin);
    two_by_two(
        b.cosh.minus(b.sinh.times(t.cos)),
        cross,
        cross,
        b.cosh.plus(b.sinh.times(t.cos)),
    )
}

pub open spec fn is_beamsplitter<T: Scalar>(m: &Matrix<T>, t: Turn<T>) -> bool {
    let n = t.sin.negative();
    is_four(m, t.cos, t.sin, t.cos, t.sin, n, t.cos, n, t.cos)
}

/// Beamsplitter of two modes.
pub fn beamsplitter<T: Scalar>(t: Turn<T>) -> (r: Matrix<T>)
    ensures
        is_beamsplitter(&r, t),
        r.shaped(4, 4),
{
    let n = t.sin.opposite();
    four_by_four(t.cos, t.sin, t.cos, t.sin, n, t.cos, n, t.cos)
}

pub open spec fn is_two_mode_squeezer<T: Scalar>(m: &Matrix<T>, b: Boost<T>) -> bool {
    let n = b.sinh.negative();
    is_four(m, b.cosh, b.sinh, b.cosh, n, b.sinh, b.cosh, n, b.cosh)
}

/// Squeezer of two modes.
pub fn two_mode_squeezer<T: Scalar>(b: Boost<T>) -> (r: Matrix<T>)
    ensures
        is_two_mode_squeezer(&r, b),
        r.shaped(4, 4),
{
    let n = b.sinh.opposite();
    four_by_four(b.cosh, b.sinh, b.cosh, n, b.sinh, b.cosh, n, b.cosh)
}

/// Entry of the identity.
pub open spec fn kron<T: Scalar>(i: int, j: int) -> T {
    if i == j {
        T::of_count(1)
    } else {
        T::zero_value()
    }
}

/// `m` acts as `s2` on one mode and as the identity elsewhere.
pub open spec fn embeds_one<T: Scalar>(
    m: &Matrix<T>,
    n_modes: int,
    mode: int,
    s2: &Matrix<T>,
) -> bool {
    &&& m.shaped(2 * n_modes, 2 * n_modes)
    &&& forall|i: int, j: int|
        0 <= i < 2 * n_modes && 0 <= j < 2 * n_modes ==> #[trigger] m.at(i, j) == (if i / 2 == mode
            && j / 2 == mode {
            s2.at(i % 2, j % 2)
        } else {
            kron::<T>(i, j)
        })
}

/// Embeds a map of one mode.
pub fn embed_one_mode<T: Scalar>(n_modes: usize, mode: usize, s2: &Matrix<T>) -> (r: Matrix<T>)
    requires
        mode < n_modes,
        s2.shaped(2, 2),
        2 * n_modes <= usize::MAX,
        (2 * n_modes) * (2 * n_modes) <= usize::MAX,
    ensures
        embeds_one(&r, n_modes as int, mode as int, s2),
{
    let d: usize = 2 * n_modes;
    let entry = |i: usize, j: usize| -> (e: T)
        requires
            s2.shaped(2, 2),
        ensures
            e == (if i / 2 == mode && j / 2 == mode {
                s2.at(i as int % 2, j as int % 2)
            } else {
                kron::<T>(i as int, j as int)
            }),
        {
            if i / 2 == mode && j / 2 == mode {
                s2.get(i % 2, j % 2)
            } else if i == j {
                T::from_count(1)
            } else {
                T::zero()
            }
        };
    let r = Matrix::build(d, d, entry);
    assert forall|i: int, j: int| 0 <= i < d && 0 <= j < d implies #[trigger] r.at(i, j) == (if i
        / 2 == mode && j / 2 == mode {
        s2.at(i % 2, j % 2)
    } else {
        kron::<T>(i, j)
    }) by {
        let e = r.at(i as usize as int, j as usize as int);
    }
    r
}

/// Place of quadrature `i` inside the block of two modes: 0 and 1 for the
/// first, 2 and 3 for the second, -1 for any other.
pub open spec fn slot(i: int, a: int, b: int) -> int {
    if i / 2 == a {
        i % 2
    } else if i / 2 == b {
        2 + i % 2
    } else {
        -1
    }
}

/// `m` acts as `s4` on two modes and as the identity elsewhere.
pub open spec fn embeds_two<T: Scalar>(
    m: &Matrix<T>,
    n_modes: int,
    a: int,
    b: int,
    s4: &Matrix<T>,
) -> bool {
    &&& m.shaped(2 * n_modes, 2 * n_modes)
    &&& forall|i: int, j: int|
        0 <= i < 2 * n_modes && 0 <= j < 2 * n_modes ==> #[trigger] m.at(i, j) == (if slot(i, a, b)
            >= 0 && slot(j, a, b) >= 0 {
            s4.at(slot(i, a, b), slot(j, a, b))
        } else {
            kron::<T>(i, j)
        })
}

fn slot_of(i: usize, a: usize, b: usize) -> (r: Option<usize>)
    ensures
        match r {
            Some(k) => k == slot(i as int, a as int, b as int) && k < 4,
            None => slot(i as int, a as int, b as int) < 0,
        },
{
    if i / 2 == a {
        Some(i % 2)
    } else if i / 2 == b {
        Some(2 + i % 2)
    } else {
        None
    }
}

/// Embeds a map of two modes.
pub fn embed_two_mode<T: Scalar>(
    n_modes: usize,
    mode_a: usize,
    mode_b: usize,
    s4: &Matrix<T>,
) -> (r: Matrix<T>)
    requires
        mode_a < n_modes,
        mode_b < n_modes,
        mode_a != mode_b,
        s4.shaped(4, 4),
        2 * n_modes <= usize::MAX,
        (2 * n_modes) * (2 * n_modes) <= usize::MAX,
    ensures
        embeds_two(&r, n_modes as int, mode_a as int, mode_b as int, s4),
{
    let d: usize = 2 * n_modes;
    let entry = |i: usize, j: usize| -> (e: T)
        requires
            s4.shaped(4, 4),
        ensures
            ({
                let (x, y) = (
                    slot(i as int, mode_a as int, mode_b as int),
                    slot(j as int, mode_a as int, mode_b as int),
                );
                e == (if x >= 0 && y >= 0 {
                    s4.at(x, y)
                } else {
                    kron::<T>(i as int, j as int)
                })
            }),
        {
            match (slot_of(i, mode_a, mode_b), slot_of(j, mode_a, mode_b)) {
                (Some(x), Some(y)) => s4.get(x, y),
                _ => {
                    if i == j {
                        T::from_count(1)
                    } else {
                        T::zero()
                    }
                },
            }
        };
    let r = Matrix::build(d, d, entry);
    assert forall|i: int, j: int| 0 <= i < d && 0 <= j < d implies #[trigger] r.at(i, j) == (if slot(
        i,
        mode_a as int,
        mode_b as int,
    ) >= 0 && slot(j, mode_a as int, mode_b as int) >= 0 {
        s4.at(slot(i, mode_a as int, mode_b as int), slot(j, mode_a as int, mode_b as int))
    } else {
        kron::<T>(i, j)
    }) by {
        let e = r.at(i as usize as int, j as usize as int);
    }
    r
}

/// Row `i` of a matrix times a vector, the first `n` terms in order.
pub open spec fn row_times<T: Scalar>(m: &Matrix<T>, v: Seq<T>, i: int, n: int) -> T
    decreases n,
{
    if n <= 0 {
        T::zero_value()
    } else {
        row_times(m, v, i, n - 1).sum(m.at(i, n - 1).product(v[n - 1]))
    }
}

fn matvec<T: Scalar>(m: &Matrix<T>, v: &Vec<T>) -> (r: Vec<T>)
    requires
        m.wf(),
        m.cols == v@.len(),
    ensures
        r@ == Seq::new(m.rows as nat, |i: int| row_times(m, v@, i, m.cols as int)),
{
    let mut r: Vec<T> = Vec::new();
    let mut i: usize = 0;
    while i < m.rows
        invariant
            m.wf(),
            m.cols == v@.len(),
            i <= m.rows,
            r@.len() == i,
            forall|k: int| 0 <= k < i ==> #[trigger] r@[k] == row_times(m, v@, k, m.cols as int),
        decreases m.rows - i,
    {
        let mut acc = T::zero();
        let mut j: usize = 0;
        while j < m.cols
            invariant
                m.wf(),
                m.cols == v@.len(),
                i < m.rows,
                j <= m.cols,
                acc == row_times(m, v@, i as int, j as int),
            decreases m.cols - j,
        {
            acc = acc.plus(m.get(i, j).times(v[j]));
            j += 1;
        }
        r.push(acc);
        i += 1;
    }
    assert(r@ =~= Seq::new(m.rows as nat, |i: int| row_times(m, v@, i, m.cols as int)));
    r
}

/// A state of `n` modes: mean and covariance of its `2n` quadratures.
pub struct GaussianState<T> {
    pub mean: Vec<T>,
    pub cov: Matrix<T>,
}

impl<T: Scalar> GaussianState<T> {
    /// Modes of the state.
    pub open spec fn modes(&self) -> int {
        self.mean@.len() as int / 2
    }

    /// Two quadratures per mode, and a covariance to match.
    pub open spec fn wf(&self) -> bool {
        &&& self.mean@.len() % 2 == 0
        &&& self.cov.shaped(self.mean@.len() as int, self.mean@.len() as int)
    }

    /// The vacuum of `n_modes` modes.
    pub fn vacuum(n_modes: usize) -> (r: Self)
        requires
            2 * n_modes <= usize::MAX,
            (2 * n_modes) * (2 * n_modes) <= usize::MAX,
        ensures
            r.wf(),
            r.modes() == n_modes,
            r.mean@ == Seq::new((2 * n_modes) as nat, |k: int| T::zero_value()),
            r.cov.is_identity(2 * n_modes),
    {
        let d: usize = 2 * n_modes;
        GaussianState { mean: crate::field::lattice::filled(T::zero(), d), cov: Matrix::identity(d) }
    }

    /// Number of modes.
    pub fn n_modes(&self) -> (r: usize)
        ensures
            r == self.modes(),
    {
        self.mean.len() / 2
    }

    /// `after` is the state that the map `s` makes of `self`: S.cov.S^T, and
    /// S.mean.
    pub open spec fn transformed(&self, s: &Matrix<T>, after: &Self) -> bool {
        &&& exists|left: Matrix<T>, turned: Matrix<T>|
            #![trigger left.is_product(s, &self.cov), turned.is_transpose(s)]
            left.is_product(s, &self.cov) && turned.is_transpose(s) && after.cov.is_product(
                &left,
                &turned,
            )
        &&& after.mean@ == Seq::new(
            self.mean@.len(),
            |i: int| row_times(s, self.mean@, i, self.mean@.len() as int),
        )
    }

    /// Applies a map of all modes.
    pub fn apply_symplectic(&mut self, s: &Matrix<T>)
        requires
            old(self).wf(),
            s.shaped(old(self).mean@.len() as int, old(self).mean@.len() as int),
        ensures
            final(self).wf(),
            final(self).modes() == old(self).modes(),
            old(self).transformed(s, final(self)),
    {
        let n: usize = self.cov.data.len();
        let left = s.matmul(&self.cov);
        let turned = s.transpose();
        let cov = left.matmul(&turned);
        let mean = matvec(s, &self.mean);
        assert(left.is_product(s, &self.cov) && turned.is_transpose(s) && cov.is_product(
            &left,
            &turned,
        ));
        self.cov = cov;
        self.mean = mean;
    }

    fn dims_fit(&self) -> (d: usize)
        requires
            self.wf(),
        ensures
            d == self.mean@.len(),
            2 * self.modes() == d,
            (2 * self.modes()) * (2 * self.modes()) <= usize::MAX,
    {
        let n: usize = self.cov.data.len();
        self.mean.len()
    }

    /// Squeezes one mode.
    pub fn squeeze(&mut self, mode: usize, b: Boost<T>, t: Turn<T>)
        requires
            old(self).wf(),
            mode < old(self).modes(),
        ensures
            final(self).wf(),
            final(self).modes() == old(self).modes(),
            old(self).squeezed_into(mode as int, b, t, final(self)),
    {
        let d = self.dims_fit();
        let s2 = squeezer(b, t);
        let s = embed_one_mode(self.n_modes(), mode, &s2);
        self.apply_symplectic(&s);
        assert(is_squeezer(&s2, b, t) && old(self).transformed(&s, self));
    }

    /// `after` is `self` with one mode squeezed.
    pub open spec fn squeezed_into(&self, mode: int, b: Boost<T>, t: Turn<T>, after: &Self) -> bool {
        exists|s2: Matrix<T>, s: Matrix<T>|
            #![trigger is_squeezer(&s2, b, t), self.transformed(&s, after)]
            is_squeezer(&s2, b, t) && embeds_one(&s, self.modes(), mode, &s2) && self.transformed(
                &s,
                after,
            )
    }

    /// Rotates one mode.
    pub fn rotate(&mut self, mode: usize, t: Turn<T>)
        requires
            old(self).wf(),
            mode < old(self).modes(),
        ensures
            final(self).wf(),
            final(self).modes() == old(self).modes(),
            old(self).rotated(mode as int, t, final(self)),
    {
        let d = self.dims_fit();
        let s2 = rotation(t);
        let s = embed_one_mode(self.n_modes(), mode, &s2);
        self.apply_symplectic(&s);
        assert(is_rotation(&s2, t) && old(self).transformed(&s, self));
    }

    /// `after` is `self` with one mode rotated.
    pub open spec fn rotated(&self, mode: int, t: Turn<T>, after: &Self) -> bool {
        exists|s2: Matrix<T>, s: Matrix<T>|
            #![trigger is_rotation(&s2, t), self.transformed(&s, after)]
            is_rotation(&s2, t) && embeds_one(&s, self.modes(), mode, &s2) && self.transformed(
                &s,
                after,
            )
    }

    /// Displaces one mode by the amplitude (re, im): twice that is added to
    /// its means, and the covariance stays.
    pub fn displace(&mut self, mode: usize, re: T, im: T)
        requires
            old(self).wf(),
            mode < old(self).modes(),
        ensures
            final(self).wf(),
            final(self).modes() == old(self).modes(),
            old(self).displaced_into(mode as int, re, im, final(self)),
    {
        let n: usize = self.mean.len();
        let x = self.mean[2 * mode].plus(T::from_count(2).times(re));
        self.mean.set(2 * mode, x);
        let p = self.mean[2 * mode + 1].plus(T::from_count(2).times(im));
        self.mean.set(2 * mode + 1, p);
    }

    /// `after` is `self` with one mode displaced.
    pub open spec fn displaced_into(&self, mode: int, re: T, im: T, after: &Self) -> bool {
        &&& after.cov == self.cov
        &&& after.mean@ == self.mean@.update(
            2 * mode,
            self.mean@[2 * mode].sum(T::of_count(2).product(re)),
        ).update(2 * mode + 1, self.mean@[2 * mode + 1].sum(T::of_count(2).product(im)))
    }

    /// `after` is `self` with two modes mixed on a beamsplitter.
    pub open spec fn mixed_into(&self, a: int, b: int, t: Turn<T>, after: &Self) -> bool {
        exists|s4: Matrix<T>, s: Matrix<T>|
            #![trigger is_beamsplitter(&s4, t), self.transformed(&s, after)]
            is_beamsplitter(&s4, t) && embeds_two(&s, self.modes(), a, b, &s4)
                && self.transformed(&s, after)
    }

    /// `after` is `self` with two modes squeezed together.
    pub open spec fn entangled_into(&self, a: int, b: int, boost: Boost<T>, after: &Self) -> bool {
        exists|s4: Matrix<T>, s: Matrix<T>|
            #![trigger is_two_mode_squeezer(&s4, boost), self.transformed(&s, after)]
            is_two_mode_squeezer(&s4, boost) && embeds_two(&s, self.modes(), a, b, &s4)
                && self.transformed(&s, after)
    }

    /// Mixes two modes on a beamsplitter.
    pub fn beamsplit(&mut self, mode_a: usize, mode_b: usize, t: Turn<T>)
        requires
            old(self).wf(),
            mode_a < old(self).modes(),
            mode_b < old(self).modes(),
            mode_a != mode_b,
        ensures
            final(self).wf(),
            final(self).modes() == old(self).modes(),
            old(self).mixed_into(mode_a as int, mode_b as int, t, final(self)),
    {
        let d = self.dims_fit();
        let s4 = beamsplitter(t);
        let s = embed_two_mode(self.n_modes(), mode_a, mode_b, &s4);
        self.apply_symplectic(&s);
        assert(is_beamsplitter(&s4, t) && old(self).transformed(&s, self));
    }

    /// Squeezes two modes together.
    pub fn two_mode_squeeze(&mut self, mode_a: usize, mode_b: usize, b: Boost<T>)
        requires
            old(self).wf(),
            mode_a < old(self).modes(),
            mode_b < old(self).modes(),
            mode_a != mode_b,
        ensures
            final(self).wf(),
            final(self).modes() == old(self).modes(),
            old(self).entangled_into(mode_a as int, mode_b as int, b, final(self)),
    {
        let d = self.dims_fit();
        let s4 = two_mode_squeezer(b);
        let s = embed_two_mode(self.n_modes(), mode_a, mode_b, &s4);
        self.apply_symplectic(&s);
        assert(is_two_mode_squeezer(&s4, b) && old(self).transformed(&s, self));
    }

    /// The product of squeezed vacua: mode after mode is squeezed.
    pub fn squeezed(params: &Vec<(Boost<T>, Turn<T>)>) -> (r: Self)
        requires
            2 * params@.len() <= usize::MAX,
            (2 * params@.len()) * (2 * params@.len()) <= usize::MAX,
        ensures
            r.wf(),
            r.modes() == params@.len(),
            exists|s: Seq<GaussianState<T>>|
                {
                    &&& s.len() == params@.len() + 1
                    &&& s[0].cov.is_identity(2 * params@.len() as int)
                    &&& s[0].mean@ == Seq::new((2 * params@.len()) as nat, |k: int| T::zero_value())
                    &&& #[trigger] s[params@.len() as int] == r
                    &&& forall|k: int|
                        #![trigger params@[k]]
                        0 <= k < params@.len() ==> s[k].squeezed_into(
                            k,
                            params@[k].0,
                            params@[k].1,
                            &s[k + 1],
                        )
                },
    {
        let mut st = Self::vacuum(params.len());
        let ghost mut s: Seq<GaussianState<T>> = seq![st];
        let mut k: usize = 0;
        while k < params.len()
            invariant
                k <= params@.len(),
                st.wf(),
                st.modes() == params@.len(),
                s.len() == k + 1,
                s[0].cov.is_identity(2 * params@.len() as int),
                s[0].mean@ == Seq::new((2 * params@.len()) as nat, |m: int| T::zero_value()),
                s[k as int] == st,
                forall|m: int|
                    #![trigger params@[m]]
                    0 <= m < k ==> s[m].squeezed_into(
                        m,
                        params@[m].0,
                        params@[m].1,
                        &s[m + 1],
                    ),
            decreases params@.len() - k,
        {
            let (b, t) = params[k];
            st.squeeze(k, b, t);
            proof {
                s = s.push(st);
            }
            k += 1;
        }
        assert(s[params@.len() as int] == st);
        st
    }

    /// The state is a product of coherent states with these amplitudes.
    pub open spec fn of_amplitudes(&self, alphas: Seq<(T, T)>) -> bool {
        &&& self.modes() == alphas.len()
        &&& self.cov.is_identity(2 * alphas.len() as int)
        &&& forall|k: int|
            0 <= k < alphas.len() ==> self.mean@[2 * k] == T::zero_value().sum(
                T::of_count(2).product((#[trigger] alphas[k]).0),
            ) && self.mean@[2 * k + 1] == T::zero_value().sum(T::of_count(2).product(alphas[k].1))
    }

    /// The product of coherent states with these amplitudes.
    pub fn coherent(alphas: &Vec<(T, T)>) -> (r: Self)
        requires
            2 * alphas@.len() <= usize::MAX,
            (2 * alphas@.len()) * (2 * alphas@.len()) <= usize::MAX,
        ensures
            r.wf(),
            r.modes() == alphas@.len(),
            r.of_amplitudes(alphas@),
            r.cov.is_identity(2 * alphas@.len() as int),
            forall|k: int|
                0 <= k < alphas@.len() ==> r.mean@[2 * k] == T::zero_value().sum(
                    T::of_count(2).product((#[trigger] alphas@[k]).0),
                ) && r.mean@[2 * k + 1] == T::zero_value().sum(
                    T::of_count(2).product(alphas@[k].1),
                ),
    {
        let mut st = Self::vacuum(alphas.len());
        let mut k: usize = 0;
        while k < alphas.len()
            invariant
                k <= alphas@.len(),
                st.wf(),
                st.modes() == alphas@.len(),
                st.cov.is_identity(2 * alphas@.len() as int),
                forall|m: int|
                    0 <= m < k ==> st.mean@[2 * m] == T::zero_value().sum(
                        T::of_count(2).product((#[trigger] alphas@[m]).0),
                    ) && st.mean@[2 * m + 1] == T::zero_value().sum(
                        T::of_count(2).product(alphas@[m].1),
                    ),
                forall|q: int|
                    2 * k <= q < st.mean@.len() ==> #[trigger] st.mean@[q] == T::zero_value(),
            decreases alphas@.len() - k,
        {
            let (re, im) = alphas[k];
            let ghost before = st.mean@;
            st.displace(k, re, im);
            assert forall|m: int| 0 <= m < k + 1 implies st.mean@[2 * m] == T::zero_value().sum(
                T::of_count(2).product((#[trigger] alphas@[m]).0),
            ) && st.mean@[2 * m + 1] == T::zero_value().sum(
                T::of_count(2).product(alphas@[m].1),
            ) by {
                if m < k {
                    assert(st.mean@[2 * m] == before[2 * m]);
                    assert(st.mean@[2 * m + 1] == before[2 * m + 1]);
                }
            }
            k += 1;
        }
        st
    }

    /// The state is a product of thermal states with these occupations.
    pub open spec fn of_occupations(&self, nbars: Seq<T>) -> bool {
        &&& self.modes() == nbars.len()
        &&& self.mean@ == Seq::new((2 * nbars.len()) as nat, |k: int| T::zero_value())
        &&& forall|i: int, j: int|
            0 <= i < 2 * nbars.len() && 0 <= j < 2 * nbars.len() ==> #[trigger] self.cov.at(i, j)
                == (if i == j {
                T::of_count(2).product(nbars[i / 2]).sum(T::of_count(1))
            } else {
                T::zero_value()
            })
    }

    /// The product of thermal states with these occupations: each quadrature
    /// of mode `k` has variance `2.nbar + 1`.
    pub fn thermal(nbars: &Vec<T>) -> (r: Self)
        requires
            2 * nbars@.len() <= usize::MAX,
            (2 * nbars@.len()) * (2 * nbars@.len()) <= usize::MAX,
        ensures
            r.wf(),
            r.modes() == nbars@.len(),
            r.of_occupations(nbars@),
            r.mean@ == Seq::new((2 * nbars@.len()) as nat, |k: int| T::zero_value()),
            forall|i: int, j: int|
                0 <= i < 2 * nbars@.len() && 0 <= j < 2 * nbars@.len() ==> #[trigger] r.cov.at(i, j)
                    == (if i == j {
                    T::of_count(2).product(nbars@[i / 2]).sum(T::of_count(1))
                } else {
                    T::zero_value()
                }),
    {
        let d: usize = 2 * nbars.len();
        let entry = |i: usize, j: usize| -> (e: T)
            requires
                i < d,
                d == 2 * nbars@.len(),
            ensures
                e == (if i == j {
                    T::of_count(2).product(nbars@[i as int / 2]).sum(T::of_count(1))
                } else {
                    T::zero_value()
                }),
            {
                if i == j {
                    T::from_count(2).times(nbars[i / 2]).plus(T::from_count(1))
                } else {
                    T::zero()
                }
            };
        let cov = Matrix::build(d, d, entry);
        assert forall|i: int, j: int| 0 <= i < d && 0 <= j < d implies #[trigger] cov.at(i, j) == (
        if i == j {
            T::of_count(2).product(nbars@[i / 2]).sum(T::of_count(1))
        } else {
            T::zero_value()
        }) by {
            let e = cov.at(i as usize as int, j as usize as int);
        }
        GaussianState { mean: crate::field::lattice::filled(T::zero(), d), cov }
    }

    /// Means of one mode's quadratures.
    pub fn mode_mean(&self, mode: usize) -> (r: (T, T))
        requires
            self.wf(),
            mode < self.modes(),
        ensures
            r == (self.mean@[2 * mode], self.mean@[2 * mode + 1]),
    {
        let n: usize = self.mean.len();
        (self.mean[2 * mode], self.mean[2 * mode + 1])
    }

    /// Variances of one mode's quadratures.
    pub fn quadrature_variances(&self, mode: usize) -> (r: (T, T))
        requires
            self.wf(),
            mode < self.modes(),
        ensures
            r == (
                self.cov.at(2 * mode, 2 * mode),
                self.cov.at(2 * mode + 1, 2 * mode + 1),
            ),
    {
        let d = self.dims_fit();
        (self.cov.get(2 * mode, 2 * mode), self.cov.get(2 * mode + 1, 2 * mode + 1))
    }

    /// Covariance of one mode.
    pub fn mode_cov(&self, mode: usize) -> (r: Matrix<T>)
        requires
            self.wf(),
            mode < self.modes(),
        ensures
            is_two(
                &r,
                self.cov.at(2 * mode, 2 * mode),
                self.cov.at(2 * mode, 2 * mode + 1),
                self.cov.at(2 * mode + 1, 2 * mode),
                self.cov.at(2 * mode + 1, 2 * mode + 1),
            ),
            r.shaped(2, 2),
    {
        let d = self.dims_fit();
        let (x, p): (usize, usize) = (2 * mode, 2 * mode + 1);
        two_by_two(
            self.cov.get(x, x),
            self.cov.get(x, p),
            self.cov.get(p, x),
            self.cov.get(p, p),
        )
    }

    /// What [`GaussianState::mean_photon`] returns.
    pub open spec fn photons(&self, mode: int) -> T {
        let (mx, mp) = (self.mean@[2 * mode], self.mean@[2 * mode + 1]);
        let (vx, vp) = (
            self.cov.at(2 * mode, 2 * mode),
            self.cov.at(2 * mode + 1, 2 * mode + 1),
        );
        vx.sum(vp).sum(mx.product(mx)).sum(mp.product(mp)).difference(T::of_count(2)).quotient(
            T::of_count(4),
        )
    }

    /// Mean photon number of one mode: (tr cov + |mean|^2 - 2) / 4.
    pub fn mean_photon(&self, mode: usize) -> (r: T)
        requires
            self.wf(),
            mode < self.modes(),
        ensures
            r == self.photons(mode as int),
    {
        let (mx, mp) = self.mode_mean(mode);
        let (vx, vp) = self.quadrature_variances(mode);
        vx.plus(vp).plus(mx.times(mx)).plus(mp.times(mp)).minus(T::from_count(2)).over(
            T::from_count(4),
        )
    }
}

} // verus!
