//! Universal meshes of Mach-Zehnder interferometers.
//!
//! One interferometer acts on the adjacent modes (m, m+1) as
//!
//! ```text
//!   T = [ e^(i.phi).cos   -sin ]
//!       [ e^(i.phi).sin    cos ]
//! ```
//!
//! and a mesh is `U = D.T_1.T_2...T_M` with an output phase screen `D`. Sines,
//! cosines and phasors come in as functions of the programmed angles.

use crate::complex::Cx;
use crate::matrix::Matrix;
use crate::scalar::Scalar;
use vstd::prelude::*;

verus! {

/// One programmed interferometer, on modes (mode, mode+1).
#[derive(Debug, Clone, Copy)]
pub struct MziSetting<T> {
    pub mode: usize,
    pub theta: T,
    pub phi: T,
}

/// A programmed mesh; the settings in the order of the matrix product.
pub struct ClementsMesh<T> {
    pub n: usize,
    pub mzis: Vec<MziSetting<T>>,
    pub output_phases: Vec<T>,
}

/// Interferometers of a layer: the mode pairs from `layer % 2` in steps of two.
pub open spec fn layer_len(n: int, layer: int) -> int {
    (n - layer % 2) / 2
}

/// Interferometers of the first layers.
pub open spec fn placed(n: int, layers: int) -> int
    decreases layers,
{
    if layers <= 0 {
        0
    } else {
        placed(n, layers - 1) + layer_len(n, layers - 1)
    }
}

/// Two layers hold n-1 interferometers.
proof fn lemma_placed(n: int, h: int)
    requires
        n >= 1,
        h >= 0,
    ensures
        placed(n, 2 * h) == h * (n - 1),
        placed(n, 2 * h + 1) == h * (n - 1) + n / 2,
    decreases h,
{
    if h == 0 {
        assert(0 * (n - 1) == 0) by (nonlinear_arith);
        assert(placed(n, 0) == 0);
        assert(placed(n, 1) == placed(n, 0) + layer_len(n, 0));
    } else {
        lemma_placed(n, h - 1);
        let x = 2 * h;
        assert(x - 1 == 2 * (h - 1) + 1);
        assert(placed(n, x) == placed(n, x - 1) + layer_len(n, x - 1));
        assert(placed(n, x + 1) == placed(n, x) + layer_len(n, x));
        assert((x - 1) % 2 == 1 && x % 2 == 0);
        assert((h - 1) * (n - 1) + (n - 1) == h * (n - 1)) by (nonlinear_arith);
        assert(n / 2 + (n - 1) / 2 == n - 1);
    }
}

/// The rectangle is universal: over n layers it places exactly n(n-1)/2
/// interferometers.
pub proof fn rectangle_is_universal(n: int)
    requires
        n >= 1,
    ensures
        2 * placed(n, n) == n * (n - 1),
{
    let h = n / 2;
    lemma_placed(n, h);
    if n % 2 == 0 {
        assert(2 * (h * (n - 1)) == n * (n - 1)) by (nonlinear_arith)
            requires
                n == 2 * h,
        ;
    } else {
        assert(2 * (h * (n - 1) + h) == n * (n - 1)) by (nonlinear_arith)
            requires
                n == 2 * h + 1,
        ;
    }
}

proof fn lemma_placed_grows(n: int, a: int, b: int)
    requires
        n >= 1,
        a <= b,
    ensures
        0 <= placed(n, a) <= placed(n, b),
    decreases b - a, a,
{
    if a > 0 {
        lemma_placed_grows(n, a - 1, a - 1);
    }
    if a < b {
        lemma_placed_grows(n, a, b - 1);
    }
}

/// Settings of the first layers, in the canonical rectangular layout.
pub open spec fn laid_out<T>(
    mzis: Seq<MziSetting<T>>,
    n: int,
    settings: Seq<(T, T)>,
    layer: int,
    x: int,
) -> bool {
    let k = placed(n, layer) + x;
    &&& 0 <= k < mzis.len()
    &&& mzis[k].mode == layer % 2 + 2 * x
    &&& mzis[k].theta == settings[k].0
    &&& mzis[k].phi == settings[k].1
}

/// Modes that a mesh may drive.
pub open spec fn on_modes<T>(mzis: Seq<MziSetting<T>>, n: int) -> bool {
    forall|k: int| 0 <= k < mzis.len() ==> (#[trigger] mzis[k]).mode + 1 < n
}

impl<T: Scalar> ClementsMesh<T> {
    /// Every interferometer lies on two modes of the mesh, and every mode has
    /// an output phase.
    pub open spec fn wf(&self) -> bool {
        &&& on_modes(self.mzis@, self.n as int)
        &&& self.output_phases@.len() == self.n
    }

    /// The canonical rectangle from its angles, layer by layer.
    pub fn rectangular(n: usize, settings: &Vec<(T, T)>, output_phases: Vec<T>) -> (r: Self)
        requires
            n >= 1,
            2 * settings@.len() == n * (n - 1),
            output_phases@.len() == n,
        ensures
            r.wf(),
            r.n == n,
            r.output_phases == output_phases,
            r.mzis@.len() == settings@.len(),
            forall|layer: int, x: int|
                0 <= layer < n && 0 <= x < layer_len(n as int, layer) ==> #[trigger] laid_out(
                    r.mzis@,
                    n as int,
                    settings@,
                    layer,
                    x,
                ),
    {
        proof {
            rectangle_is_universal(n as int);
        }
        let mut mzis: Vec<MziSetting<T>> = Vec::new();
        let mut layer: usize = 0;
        while layer < n
            invariant
                layer <= n,
                n >= 1,
                settings@.len() == placed(n as int, n as int),
                mzis@.len() == placed(n as int, layer as int),
                on_modes(mzis@, n as int),
                forall|l: int, x: int|
                    0 <= l < layer && 0 <= x < layer_len(n as int, l) ==> #[trigger] laid_out(
                        mzis@,
                        n as int,
                        settings@,
                        l,
                        x,
                    ),
            decreases n - layer,
        {
            proof {
                lemma_placed_grows(n as int, layer + 1, n as int);
                lemma_placed_grows(n as int, layer as int, layer + 1);
            }
            let start: usize = layer % 2;
            let count: usize = (n - start) / 2;
            assert(count == layer_len(n as int, layer as int));
            let mut x: usize = 0;
            while x < count
                invariant
                    layer < n,
                    x <= count,
                    start == layer % 2,
                    count == layer_len(n as int, layer as int),
                    placed(n as int, layer as int) >= 0,
                    placed(n as int, layer as int) + count <= settings@.len(),
                    mzis@.len() == placed(n as int, layer as int) + x,
                    on_modes(mzis@, n as int),
                    forall|l: int, y: int|
                        0 <= l < layer && 0 <= y < layer_len(n as int, l) ==> #[trigger] laid_out(
                            mzis@,
                            n as int,
                            settings@,
                            l,
                            y,
                        ),
                    forall|y: int|
                        0 <= y < x ==> #[trigger] laid_out(
                            mzis@,
                            n as int,
                            settings@,
                            layer as int,
                            y,
                        ),
                decreases count - x,
            {
                let k: usize = mzis.len();
                let (theta, phi) = settings[k];
                let ghost before = mzis@;
                mzis.push(MziSetting { mode: start + 2 * x, theta, phi });
                proof {
                    assert forall|l: int, y: int|
                        0 <= l < layer && 0 <= y < layer_len(
                            n as int,
                            l,
                        ) implies #[trigger] laid_out(mzis@, n as int, settings@, l, y) by {
                        assert(laid_out(before, n as int, settings@, l, y));
                    }
                    assert forall|y: int| 0 <= y < x + 1 implies #[trigger] laid_out(
                        mzis@,
                        n as int,
                        settings@,
                        layer as int,
                        y,
                    ) by {
                        if y < x {
                            assert(laid_out(before, n as int, settings@, layer as int, y));
                        }
                    }
                }
                x += 1;
            }
            layer += 1;
        }
        ClementsMesh { n, mzis, output_phases }
    }

    /// Number of interferometers.
    pub fn n_mzis(&self) -> (r: usize)
        ensures
            r == self.mzis@.len(),
    {
        self.mzis.len()
    }

    /// Programmable phases: two per interferometer and one per mode.
    pub open spec fn phases(&self) -> int {
        2 * self.mzis@.len() + self.n
    }

    /// Number of programmable phases.
    pub fn n_phases(&self) -> (r: usize)
        requires
            2 * self.mzis@.len() + self.n <= usize::MAX,
        ensures
            r == 2 * self.mzis@.len() + self.n,
            r == self.phases(),
    {
        2 * self.mzis.len() + self.n
    }
}

/// A universal mesh of n modes has n^2 phases.
pub proof fn universal_mesh_has_square_phases(n: int, mzis: int)
    requires
        2 * mzis == n * (n - 1),
    ensures
        2 * mzis + n == n * n,
{
    assert(n * (n - 1) + n == n * n) by (nonlinear_arith);
}

/// Columns (a, b) of a row times T: (a.cos + b.sin).e^(i.phi) and
/// -a.sin + b.cos.
pub open spec fn row_times_t<T: Scalar>(
    a: Cx<T>,
    b: Cx<T>,
    s: T,
    c: T,
    eip: Cx<T>,
) -> (Cx<T>, Cx<T>) {
    (
        a.scaled(c).sum(b.scaled(s)).product(eip),
        a.negated().scaled(s).sum(b.scaled(c)),
    )
}

/// Columns (a, b) of a row times the inverse of T.
pub open spec fn row_times_t_inv<T: Scalar>(
    a: Cx<T>,
    b: Cx<T>,
    s: T,
    c: T,
    eim: Cx<T>,
) -> (Cx<T>, Cx<T>) {
    (
        a.product(eim).scaled(c).difference(b.scaled(s)),
        a.product(eim).scaled(s).sum(b.scaled(c)),
    )
}

/// T times a column with entries (a, b).
pub open spec fn t_times_column<T: Scalar>(
    a: Cx<T>,
    b: Cx<T>,
    s: T,
    c: T,
    eip: Cx<T>,
) -> (Cx<T>, Cx<T>) {
    (
        eip.product(a).scaled(c).difference(b.scaled(s)),
        eip.product(a).scaled(s).sum(b.scaled(c)),
    )
}

/// `after` is `before` with columns m and m+1 of every row replaced by `f` of
/// them.
pub open spec fn columns_mapped<T: Scalar>(
    before: &Matrix<Cx<T>>,
    after: &Matrix<Cx<T>>,
    m: int,
    f: spec_fn(Cx<T>, Cx<T>) -> (Cx<T>, Cx<T>),
) -> bool {
    &&& after.shaped(before.rows as int, before.cols as int)
    &&& forall|r: int, k: int|
        0 <= r < before.rows && 0 <= k < before.cols ==> #[trigger] after.at(r, k) == (if k == m {
            f(before.at(r, m), before.at(r, m + 1)).0
        } else if k == m + 1 {
            f(before.at(r, m), before.at(r, m + 1)).1
        } else {
            before.at(r, k)
        })
}

/// `after` is `before` with rows m and m+1 of every column replaced by `f` of
/// them.
pub open spec fn rows_mapped<T: Scalar>(
    before: &Matrix<Cx<T>>,
    after: &Matrix<Cx<T>>,
    m: int,
    f: spec_fn(Cx<T>, Cx<T>) -> (Cx<T>, Cx<T>),
) -> bool {
    &&& after.shaped(before.rows as int, before.cols as int)
    &&& forall|r: int, k: int|
        0 <= r < before.rows && 0 <= k < before.cols ==> #[trigger] after.at(r, k) == (if r == m {
            f(before.at(m, k), before.at(m + 1, k)).0
        } else if r == m + 1 {
            f(before.at(m, k), before.at(m + 1, k)).1
        } else {
            before.at(r, k)
        })
}

/// What a column pair becomes.
#[derive(Clone, Copy)]
enum Side {
    Forward,
    Inverse,
}

/// Replaces columns m and m+1 by their product with T or its inverse.
fn map_columns<T: Scalar>(u: &mut Matrix<Cx<T>>, side: Side, m: usize, s: T, c: T, e: Cx<T>)
    requires
        old(u).wf(),
        m + 1 < old(u).cols,
    ensures
        side is Forward ==> columns_mapped(
            old(u),
            final(u),
            m as int,
            |a: Cx<T>, b: Cx<T>| row_times_t(a, b, s, c, e),
        ),
        side is Inverse ==> columns_mapped(
            old(u),
            final(u),
            m as int,
            |a: Cx<T>, b: Cx<T>| row_times_t_inv(a, b, s, c, e),
        ),
{
    let mut r: usize = 0;
    while r < u.rows
        invariant
            r <= u.rows,
            u.shaped(old(u).rows as int, old(u).cols as int),
            m + 1 < u.cols,
            forall|x: int, k: int|
                0 <= x < u.rows && 0 <= k < u.cols ==> #[trigger] u.at(x, k) == (if x < r && k == m {
                    (if side is Forward {
                        row_times_t(old(u).at(x, m as int), old(u).at(x, m + 1), s, c, e)
                    } else {
                        row_times_t_inv(old(u).at(x, m as int), old(u).at(x, m + 1), s, c, e)
                    }).0
                } else if x < r && k == m + 1 {
                    (if side is Forward {
                        row_times_t(old(u).at(x, m as int), old(u).at(x, m + 1), s, c, e)
                    } else {
                        row_times_t_inv(old(u).at(x, m as int), old(u).at(x, m + 1), s, c, e)
                    }).1
                } else {
                    old(u).at(x, k)
                }),
        decreases u.rows - r,
    {
        let (a, b) = (u.get(r, m), u.get(r, m + 1));
        let (x, y) = match side {
            Side::Forward => (
                a.scale(c).plus(b.scale(s)).times(e),
                a.opposite().scale(s).plus(b.scale(c)),
            ),
            Side::Inverse => (
                a.times(e).scale(c).minus(b.scale(s)),
                a.times(e).scale(s).plus(b.scale(c)),
            ),
        };
        u.put(r, m, x);
        u.put(r, m + 1, y);
        r += 1;
    }
}

/// Replaces rows m and m+1 by T times them.
fn map_rows<T: Scalar>(u: &mut Matrix<Cx<T>>, m: usize, s: T, c: T, e: Cx<T>)
    requires
        old(u).wf(),
        m + 1 < old(u).rows,
    ensures
        rows_mapped(
            old(u),
            final(u),
            m as int,
            |a: Cx<T>, b: Cx<T>| t_times_column(a, b, s, c, e),
        ),
{
    let mut k: usize = 0;
    while k < u.cols
        invariant
            k <= u.cols,
            u.shaped(old(u).rows as int, old(u).cols as int),
            m + 1 < u.rows,
            forall|r: int, y: int|
                0 <= r < u.rows && 0 <= y < u.cols ==> #[trigger] u.at(r, y) == (if y < k && r == m {
                    t_times_column(old(u).at(m as int, y), old(u).at(m + 1, y), s, c, e).0
                } else if y < k && r == m + 1 {
                    t_times_column(old(u).at(m as int, y), old(u).at(m + 1, y), s, c, e).1
                } else {
                    old(u).at(r, y)
                }),
        decreases u.cols - k,
    {
        let (a, b) = (u.get(m, k), u.get(m + 1, k));
        let x = e.times(a).scale(c).minus(b.scale(s));
        let y = e.times(a).scale(s).plus(b.scale(c));
        u.put(m, k, x);
        u.put(m + 1, k, y);
        k += 1;
    }
}

/// What light sees of a programmed interferometer: sine and cosine of its
/// coupling angle, and the phasor of its phase.
#[derive(Debug, Clone, Copy)]
pub struct Wave<T> {
    pub sin: T,
    pub cos: T,
    pub phasor: Cx<T>,
}

/// `s` starts at the identity and takes the blocks from the left of the
/// product to the right.
pub open spec fn assembles<T: Scalar>(
    s: Seq<Matrix<Cx<T>>>,
    n: int,
    mzis: Seq<MziSetting<T>>,
    waves: Seq<Wave<T>>,
) -> bool {
    &&& s.len() == mzis.len() + 1
    &&& s[0].is_identity(n)
    &&& forall|k: int|
        #![trigger mzis[k]]
        0 <= k < mzis.len() ==> columns_mapped(
            &s[k],
            &s[k + 1],
            mzis[k].mode as int,
            |a: Cx<T>, b: Cx<T>| row_times_t(a, b, waves[k].sin, waves[k].cos, waves[k].phasor),
        )
}

/// Amplitudes after the last `k` blocks of the product: light meets the
/// rightmost block first.
pub open spec fn lit<T: Scalar>(
    mzis: Seq<MziSetting<T>>,
    waves: Seq<Wave<T>>,
    x: Seq<Cx<T>>,
    k: int,
) -> Seq<Cx<T>>
    decreases k,
{
    if k <= 0 {
        x
    } else {
        let v = lit(mzis, waves, x, k - 1);
        let q = mzis.len() - k;
        let m = mzis[q].mode as int;
        let w = waves[q];
        let y = t_times_column(v[m], v[m + 1], w.sin, w.cos, w.phasor);
        v.update(m, y.0).update(m + 1, y.1)
    }
}

impl<T: Scalar> ClementsMesh<T> {
    /// `made` is the matrix of the mesh with these waves and output phasors.
    pub open spec fn stands_for(
        &self,
        waves: Seq<Wave<T>>,
        screen: Seq<Cx<T>>,
        made: &Matrix<Cx<T>>,
    ) -> bool {
        &&& made.shaped(self.n as int, self.n as int)
        &&& exists|s: Seq<Matrix<Cx<T>>>|
            {
                &&& #[trigger] assembles(s, self.n as int, self.mzis@, waves)
                &&& forall|j: int, c: int|
                    0 <= j < self.n && 0 <= c < self.n ==> #[trigger] made.at(j, c)
                        == screen[j].product(s[self.mzis@.len() as int].at(j, c))
            }
    }

    /// The amplitudes that leave the mesh.
    pub open spec fn emerging(
        &self,
        waves: Seq<Wave<T>>,
        screen: Seq<Cx<T>>,
        x: Seq<Cx<T>>,
    ) -> Seq<Cx<T>> {
        Seq::new(
            self.n as nat,
            |j: int| screen[j].product(lit(self.mzis@, waves, x, self.mzis@.len() as int)[j]),
        )
    }

    /// The whole matrix `D.T_1...T_M`; `waves` belong to the interferometers,
    /// `screen` holds the output phasors.
    pub fn unitary(&self, waves: &Vec<Wave<T>>, screen: &Vec<Cx<T>>) -> (r: Matrix<Cx<T>>)
        requires
            self.wf(),
            self.n * self.n <= usize::MAX,
            waves@.len() == self.mzis@.len(),
            screen@.len() == self.n,
        ensures
            r.shaped(self.n as int, self.n as int),
            exists|s: Seq<Matrix<Cx<T>>>|
                {
                    &&& #[trigger] assembles(s, self.n as int, self.mzis@, waves@)
                    &&& forall|j: int, c: int|
                        0 <= j < self.n && 0 <= c < self.n ==> #[trigger] r.at(j, c)
                            == screen@[j].product(s[self.mzis@.len() as int].at(j, c))
                },
            self.stands_for(waves@, screen@, &r),
    {
        let mut u: Matrix<Cx<T>> = Matrix::identity(self.n);
        let ghost mut s: Seq<Matrix<Cx<T>>> = seq![u];
        let mut k: usize = 0;
        while k < self.mzis.len()
            invariant
                self.wf(),
                k <= self.mzis@.len(),
                waves@.len() == self.mzis@.len(),
                u.shaped(self.n as int, self.n as int),
                s.len() == k + 1,
                s[0].is_identity(self.n as int),
                s[k as int] == u,
                forall|m: int|
                    #![trigger self.mzis@[m]]
                    0 <= m < k ==> columns_mapped(
                        &s[m],
                        &s[m + 1],
                        self.mzis@[m].mode as int,
                        |a: Cx<T>, b: Cx<T>|
                            row_times_t(a, b, waves@[m].sin, waves@[m].cos, waves@[m].phasor),
                    ),
            decreases self.mzis@.len() - k,
        {
            let w = waves[k];
            assert(self.mzis@[k as int].mode + 1 < self.n);
            map_columns(&mut u, Side::Forward, self.mzis[k].mode, w.sin, w.cos, w.phasor);
            proof {
                s = s.push(u);
            }
            k += 1;
        }
        assert(assembles(s, self.n as int, self.mzis@, waves@));
        let n = self.n;
        let ur: &Matrix<Cx<T>> = &u;
        let entry = |j: usize, c: usize| -> (e: Cx<T>)
            requires
                ur.shaped(n as int, n as int),
                screen@.len() == n,
                j < n,
                c < n,
            ensures
                e == screen@[j as int].product(ur.at(j as int, c as int)),
            { screen[j].times(ur.get(j, c)) };
        let r = Matrix::build(n, n, entry);
        assert forall|j: int, c: int| 0 <= j < n && 0 <= c < n implies #[trigger] r.at(j, c)
            == screen@[j].product(s[self.mzis@.len() as int].at(j, c)) by {
            let e = r.at(j as usize as int, c as usize as int);
        }
        r
    }

    /// Sends amplitudes through the mesh, block by block, and through the
    /// output screen.
    pub fn apply(&self, x: &Vec<Cx<T>>, waves: &Vec<Wave<T>>, screen: &Vec<Cx<T>>) -> (r: Vec<
        Cx<T>,
    >)
        requires
            self.wf(),
            x@.len() == self.n,
            waves@.len() == self.mzis@.len(),
            screen@.len() == self.n,
        ensures
            r@ == Seq::new(
                self.n as nat,
                |j: int|
                    screen@[j].product(lit(self.mzis@, waves@, x@, self.mzis@.len() as int)[j]),
            ),
            r@ == self.emerging(waves@, screen@, x@),
    {
        let mut v: Vec<Cx<T>> = Vec::new();
        let mut j: usize = 0;
        while j < x.len()
            invariant
                j <= x@.len(),
                v@ == x@.take(j as int),
            decreases x@.len() - j,
        {
            v.push(x[j]);
            j += 1;
            assert(x@.take(j as int) =~= x@.take(j - 1).push(x@[j - 1]));
        }
        assert(x@.take(x@.len() as int) =~= x@);
        let total: usize = self.mzis.len();
        let mut k: usize = 0;
        while k < total
            invariant
                self.wf(),
                k <= total,
                total == self.mzis@.len(),
                waves@.len() == total,
                x@.len() == self.n,
                v@.len() == self.n,
                v@ == lit(self.mzis@, waves@, x@, k as int),
            decreases total - k,
        {
            let q: usize = total - 1 - k;
            let m: usize = self.mzis[q].mode;
            let w = waves[q];
            assert(self.mzis@[q as int].mode + 1 < self.n);
            let (a, b) = (v[m], v[m + 1]);
            let y0 = w.phasor.times(a).scale(w.cos).minus(b.scale(w.sin));
            let y1 = w.phasor.times(a).scale(w.sin).plus(b.scale(w.cos));
            v.set(m, y0);
            v.set(m + 1, y1);
            k += 1;
        }
        let mut r: Vec<Cx<T>> = Vec::new();
        let mut i: usize = 0;
        while i < self.n
            invariant
                i <= self.n,
                v@.len() == self.n,
                screen@.len() == self.n,
                r@.len() == i,
                forall|c: int| 0 <= c < i ==> #[trigger] r@[c] == screen@[c].product(v@[c]),
            decreases self.n - i,
        {
            r.push(screen[i].times(v[i]));
            i += 1;
        }
        assert(r@ =~= Seq::new(
            self.n as nat,
            |c: int| screen@[c].product(lit(self.mzis@, waves@, x@, self.mzis@.len() as int)[c]),
        ));
        r
    }
}

/// One nulling: which side it acted on, on which modes, at which angles.
#[derive(Debug, Clone, Copy)]
pub struct Nulling<T> {
    pub left: bool,
    pub mode: usize,
    pub theta: T,
    pub phi: T,
}

/// Angles that null an entry, and the wave that goes with them.
pub type Null<T> = (T, T, Wave<T>);

/// The entry that step j of anti-diagonal i nulls: even diagonals are walked
/// from the bottom up, odd ones from the top down.
pub open spec fn target(n: int, i: int, j: int) -> (int, int) {
    if i % 2 == 0 {
        (n - 1 - j, i - j)
    } else {
        (n - 1 - i + j, j)
    }
}

/// Every entry below the diagonal is nulled exactly once.
pub proof fn every_lower_entry_is_nulled_once(n: int, row: int, col: int)
    requires
        0 <= col < row < n,
    ensures
        exists|i: int, j: int|
            0 <= i < n - 1 && 0 <= j <= i && #[trigger] target(n, i, j) == (row, col),
        forall|i: int, j: int, x: int, y: int|
            0 <= i < n - 1 && 0 <= j <= i && 0 <= x < n - 1 && 0 <= y <= x && #[trigger] target(
                n,
                i,
                j,
            ) == (row, col) && #[trigger] target(n, x, y) == (row, col) ==> i == x && j == y,
{
    let i = n - 1 - (row - col);
    let j = if i % 2 == 0 {
        i - col
    } else {
        col
    };
    assert(target(n, i, j) == (row, col));
}

/// `after` is `before` times the inverse of a block, on columns m and m+1.
pub open spec fn right_step<T: Scalar>(
    before: &Matrix<Cx<T>>,
    after: &Matrix<Cx<T>>,
    m: int,
    w: Wave<T>,
) -> bool {
    columns_mapped(
        before,
        after,
        m,
        |a: Cx<T>, b: Cx<T>| row_times_t_inv(a, b, w.sin, w.cos, w.phasor),
    )
}

/// `after` is a block times `before`, on rows m and m+1.
pub open spec fn left_step<T: Scalar>(
    before: &Matrix<Cx<T>>,
    after: &Matrix<Cx<T>>,
    m: int,
    w: Wave<T>,
) -> bool {
    rows_mapped(
        before,
        after,
        m,
        |a: Cx<T>, b: Cx<T>| t_times_column(a, b, w.sin, w.cos, w.phasor),
    )
}

/// One step: `after` is `before` with the target of (i, j) nulled by the
/// angles that `right` or `left` gives for the two entries involved.
pub open spec fn nulled<
    T: Scalar,
    R: Fn(Cx<T>, Cx<T>) -> Null<T>,
    L: Fn(Cx<T>, Cx<T>) -> Null<T>,
>(
    n: int,
    i: int,
    j: int,
    before: &Matrix<Cx<T>>,
    after: &Matrix<Cx<T>>,
    x: Nulling<T>,
    right: R,
    left: L,
) -> bool {
    let (r, c) = target(n, i, j);
    if i % 2 == 0 {
        &&& !x.left
        &&& x.mode == c
        &&& nulled_right(r, c, before, after, x, right)
    } else {
        &&& x.left
        &&& x.mode == r - 1
        &&& nulled_left(r, c, before, after, x, left)
    }
}

/// Columns `c` and `c + 1` are mixed by what `right` answers for row `r`.
pub open spec fn nulled_right<T: Scalar, R: Fn(Cx<T>, Cx<T>) -> Null<T>>(
    r: int,
    c: int,
    before: &Matrix<Cx<T>>,
    after: &Matrix<Cx<T>>,
    x: Nulling<T>,
    right: R,
) -> bool {
    exists|w: Wave<T>|
        call_ensures(right, (before.at(r, c), before.at(r, c + 1)), (x.theta, x.phi, w))
            && #[trigger] right_step(before, after, c, w)
}

/// Rows `r - 1` and `r` are mixed by what `left` answers for column `c`.
pub open spec fn nulled_left<T: Scalar, L: Fn(Cx<T>, Cx<T>) -> Null<T>>(
    r: int,
    c: int,
    before: &Matrix<Cx<T>>,
    after: &Matrix<Cx<T>>,
    x: Nulling<T>,
    left: L,
) -> bool {
    exists|w: Wave<T>|
        call_ensures(left, (before.at(r - 1, c), before.at(r, c)), (x.theta, x.phi, w))
            && #[trigger] left_step(before, after, r - 1, w)
}

/// Steps of the anti-diagonals before `i`.
pub open spec fn steps_before(i: int) -> int
    decreases i,
{
    if i <= 0 {
        0
    } else {
        steps_before(i - 1) + i
    }
}

/// `ws` starts at `u` and takes the nulling steps in order; `log` records
/// them.
pub open spec fn eliminates<
    T: Scalar,
    R: Fn(Cx<T>, Cx<T>) -> Null<T>,
    L: Fn(Cx<T>, Cx<T>) -> Null<T>,
>(
    ws: Seq<Matrix<Cx<T>>>,
    log: Seq<Nulling<T>>,
    n: int,
    u: &Matrix<Cx<T>>,
    right: R,
    left: L,
) -> bool {
    &&& ws.len() == log.len() + 1
    &&& ws[0].same(u)
    &&& forall|i: int, j: int|
        0 <= i < n - 1 && 0 <= j <= i && steps_before(i) + j < log.len() ==> #[trigger] step_ok(
            ws,
            log,
            n,
            i,
            j,
            right,
            left,
        )
}

pub open spec fn step_ok<
    T: Scalar,
    R: Fn(Cx<T>, Cx<T>) -> Null<T>,
    L: Fn(Cx<T>, Cx<T>) -> Null<T>,
>(
    ws: Seq<Matrix<Cx<T>>>,
    log: Seq<Nulling<T>>,
    n: int,
    i: int,
    j: int,
    right: R,
    left: L,
) -> bool {
    let k = steps_before(i) + j;
    nulled(n, i, j, &ws[k], &ws[k + 1], log[k], right, left)
}

/// Steps of all anti-diagonals of an n x n matrix.
proof fn lemma_steps(i: int)
    requires
        i >= 0,
    ensures
        2 * steps_before(i) == i * (i + 1),
        steps_before(i) >= 0,
    decreases i,
{
    if i > 0 {
        lemma_steps(i - 1);
        assert((i - 1) * ((i - 1) + 1) + 2 * i == i * (i + 1)) by (nonlinear_arith);
        assert(steps_before(i) == steps_before(i - 1) + i);
    } else {
        assert(i * (i + 1) == 0) by (nonlinear_arith)
            requires
                i == 0,
        ;
    }
}

/// The nulling takes n(n-1)/2 steps.
pub proof fn nulling_takes_every_step(n: int)
    requires
        n >= 1,
    ensures
        2 * steps_before(n - 1) == n * (n - 1),
{
    lemma_steps(n - 1);
    assert((n - 1) * (n - 1 + 1) == n * (n - 1)) by (nonlinear_arith);
}

/// Walks the anti-diagonals and nulls every entry below the diagonal.
fn eliminate<T: Scalar, R: Fn(Cx<T>, Cx<T>) -> Null<T>, L: Fn(Cx<T>, Cx<T>) -> Null<T>>(
    u: &Matrix<Cx<T>>,
    right: &R,
    left: &L,
) -> (r: (Matrix<Cx<T>>, Vec<Nulling<T>>))
    requires
        u.wf(),
        u.rows == u.cols,
        u.rows >= 1,
        forall|a: Cx<T>, b: Cx<T>| #[trigger] call_requires(right, (a, b)),
        forall|a: Cx<T>, b: Cx<T>| #[trigger] call_requires(left, (a, b)),
    ensures
        r.0.shaped(u.rows as int, u.rows as int),
        r.1@.len() == steps_before(u.rows - 1),
        forall|k: int| 0 <= k < r.1@.len() ==> (#[trigger] r.1@[k]).mode + 1 < u.rows,
        exists|ws: Seq<Matrix<Cx<T>>>|
            #[trigger] eliminates(ws, r.1@, u.rows as int, u, *right, *left) && ws[r.1@.len() as int]
                == r.0,
{
    let n: usize = u.rows;
    let mut w = u.copy();
    let mut log: Vec<Nulling<T>> = Vec::new();
    let ghost mut ws: Seq<Matrix<Cx<T>>> = seq![w];
    proof {
        assert forall|a: int, b: int|
            0 <= a < n - 1 && 0 <= b <= a && steps_before(a) + b
                < log@.len() implies #[trigger] step_ok(
            ws,
            log@,
            n as int,
            a,
            b,
            *right,
            *left,
        ) by {
            lemma_steps(a);
        }
    }
    let mut i: usize = 0;
    while i < n - 1
        invariant
            n == u.rows,
            n >= 1,
            i <= n - 1,
            w.shaped(n as int, n as int),
            log@.len() == steps_before(i as int),
            forall|k: int| 0 <= k < log@.len() ==> (#[trigger] log@[k]).mode + 1 < n,
            eliminates(ws, log@, n as int, u, *right, *left),
            ws[log@.len() as int] == w,
            forall|a: Cx<T>, b: Cx<T>| #[trigger] call_requires(right, (a, b)),
            forall|a: Cx<T>, b: Cx<T>| #[trigger] call_requires(left, (a, b)),
        decreases n - i,
    {
        let mut j: usize = 0;
        while j <= i
            invariant
                n == u.rows,
                n >= 1,
                i < n - 1,
                j <= i + 1,
                w.shaped(n as int, n as int),
                log@.len() == steps_before(i as int) + j,
                forall|k: int| 0 <= k < log@.len() ==> (#[trigger] log@[k]).mode + 1 < n,
                eliminates(ws, log@, n as int, u, *right, *left),
                ws[log@.len() as int] == w,
                forall|a: Cx<T>, b: Cx<T>| #[trigger] call_requires(right, (a, b)),
                forall|a: Cx<T>, b: Cx<T>| #[trigger] call_requires(left, (a, b)),
            decreases i + 1 - j,
        {
            let ghost before = w;
            let ghost old_log = log@;
            let ghost old_ws = ws;
            let x: Nulling<T>;
            if i % 2 == 0 {
                let m: usize = i - j;
                let r: usize = n - 1 - j;
                let (theta, phi, wave) = right(w.get(r, m), w.get(r, m + 1));
                map_columns(&mut w, Side::Inverse, m, wave.sin, wave.cos, wave.phasor);
                x = Nulling { left: false, mode: m, theta, phi };
                proof {
                    assert(right_step(&before, &w, m as int, wave));
                    assert(call_ensures(
                        *right,
                        (before.at(r as int, m as int), before.at(r as int, m + 1)),
                        (x.theta, x.phi, wave),
                    ));
                    assert(nulled_right(r as int, m as int, &before, &w, x, *right));
                }
            } else {
                let m: usize = n - 2 - i + j;
                let c: usize = j;
                let (theta, phi, wave) = left(w.get(m, c), w.get(m + 1, c));
                map_rows(&mut w, m, wave.sin, wave.cos, wave.phasor);
                x = Nulling { left: true, mode: m, theta, phi };
                proof {
                    assert(left_step(&before, &w, m as int, wave));
                    assert(call_ensures(
                        *left,
                        (before.at(m as int, c as int), before.at(m + 1, c as int)),
                        (x.theta, x.phi, wave),
                    ));
                    assert(nulled_left(m + 1, c as int, &before, &w, x, *left));
                }
            }
            log.push(x);
            proof {
                ws = ws.push(w);
                assert(nulled(n as int, i as int, j as int, &before, &w, x, *right, *left));
                assert forall|a: int, b: int|
                    0 <= a < n - 1 && 0 <= b <= a && steps_before(a) + b
                        < log@.len() implies #[trigger] step_ok(
                    ws,
                    log@,
                    n as int,
                    a,
                    b,
                    *right,
                    *left,
                ) by {
                    lemma_steps(a);
                    let k = steps_before(a) + b;
                    if k < old_log.len() {
                        assert(step_ok(old_ws, old_log, n as int, a, b, *right, *left));
                        assert(ws[k] == old_ws[k] && ws[k + 1] == old_ws[k + 1]);
                    } else {
                        lemma_same_step(a, b, i as int, j as int);
                    }
                }
            }
            j += 1;
        }
        i += 1;
    }
    let r = (w, log);
    assert(eliminates(ws, r.1@, u.rows as int, u, *right, *left));
    assert(ws[r.1@.len() as int] == r.0);
    r
}

/// Two steps with the same number are the same step.
proof fn lemma_same_step(a: int, b: int, i: int, j: int)
    requires
        0 <= b <= a,
        0 <= j <= i,
        steps_before(a) + b == steps_before(i) + j,
    ensures
        a == i,
        b == j,
{
    if a < i {
        lemma_steps_grow(a + 1, i);
    } else if i < a {
        lemma_steps_grow(i + 1, a);
    }
}

proof fn lemma_steps_grow(a: int, b: int)
    requires
        0 <= a <= b,
    ensures
        steps_before(a) <= steps_before(b),
    decreases b - a,
{
    if a < b {
        lemma_steps_grow(a, b - 1);
    }
}

/// Phases and blocks once the last `k` left nullings of `log` (counted over
/// all of it) have been commuted through the diagonal: a block with angles
/// (theta, phi) on modes (m, m+1) leaves the phase alpha_(m+1) - phi + pi on
/// mode m and becomes a block with the phase alpha_m - alpha_(m+1) + pi.
pub open spec fn commuted<T: Scalar>(
    log: Seq<Nulling<T>>,
    alpha: Seq<T>,
    pi: T,
    k: int,
) -> (Seq<T>, Seq<MziSetting<T>>)
    decreases k,
{
    if k <= 0 {
        (alpha, Seq::empty())
    } else {
        let (a, blocks) = commuted(log, alpha, pi, k - 1);
        let x = log[log.len() - k];
        let m = x.mode as int;
        if x.left {
            (
                a.update(m, a[m + 1].difference(x.phi).sum(pi)),
                seq![
                    MziSetting {
                        mode: x.mode,
                        theta: x.theta,
                        phi: a[m].difference(a[m + 1]).sum(pi),
                    },
                ] + blocks,
            )
        } else {
            (a, blocks)
        }
    }
}

/// The blocks of the right nullings among the last `k`, last one first.
pub open spec fn rights<T: Scalar>(log: Seq<Nulling<T>>, k: int) -> Seq<MziSetting<T>>
    decreases k,
{
    if k <= 0 {
        Seq::empty()
    } else {
        let x = log[log.len() - k];
        if x.left {
            rights(log, k - 1)
        } else {
            rights(log, k - 1).push(MziSetting { mode: x.mode, theta: x.theta, phi: x.phi })
        }
    }
}

/// Why a matrix cannot be embedded in a mesh.
#[derive(Debug, Clone, Copy)]
pub enum MeshError<T> {
    NotSquare,
    /// Squared distance of U^H.U from the identity.
    NotUnitary(T),
}

/// Entry (i, j) of U^H.U, the first `n` terms in order.
pub open spec fn gram<T: Scalar>(u: &Matrix<Cx<T>>, i: int, j: int, n: int) -> Cx<T>
    decreases n,
{
    if n <= 0 {
        Cx::<T>::nought()
    } else {
        gram(u, i, j, n - 1).sum(u.at(n - 1, i).mirrored().product(u.at(n - 1, j)))
    }
}

/// Squared distance of U^H.U from the identity over the first `q` entries, row
/// by row.
pub open spec fn defect<T: Scalar>(u: &Matrix<Cx<T>>, q: int) -> T
    decreases q,
{
    if q <= 0 {
        T::zero_value()
    } else {
        let (i, j) = ((q - 1) / u.cols as int, (q - 1) % u.cols as int);
        let unit = if i == j {
            Cx::<T>::unit()
        } else {
            Cx::<T>::nought()
        };
        defect(u, q - 1).sum(gram(u, i, j, u.rows as int).difference(unit).power())
    }
}

/// Squared distance of U^H.U from the identity.
pub fn unitarity_defect<T: Scalar>(u: &Matrix<Cx<T>>) -> (r: T)
    requires
        u.wf(),
        u.rows == u.cols,
    ensures
        r == defect(u, u.rows * u.cols),
{
    let n: usize = u.data.len();
    let mut acc = T::zero();
    let mut q: usize = 0;
    while q < n
        invariant
            u.wf(),
            u.rows == u.cols,
            n == u.rows * u.cols,
            q <= n,
            acc == defect(u, q as int),
        decreases n - q,
    {
        proof {
            assert(u.cols > 0) by (nonlinear_arith)
                requires
                    0 <= q < u.rows * u.cols,
                    0 <= u.rows,
                    0 <= u.cols,
            ;
            crate::field::grid::lemma_place(u.rows as int, u.cols as int, q as int);
        }
        let (i, j): (usize, usize) = (q / u.cols, q % u.cols);
        let mut g: Cx<T> = Cx::zero();
        let mut k: usize = 0;
        while k < u.rows
            invariant
                u.wf(),
                u.rows == u.cols,
                i < u.cols,
                j < u.cols,
                k <= u.rows,
                g == gram(u, i as int, j as int, k as int),
            decreases u.rows - k,
        {
            g = g.plus(u.get(k, i).conj().times(u.get(k, j)));
            k += 1;
        }
        let unit = if i == j {
            Cx::one()
        } else {
            Cx::zero()
        };
        acc = acc.plus(g.minus(unit).norm_sq());
        q += 1;
    }
    acc
}

impl<T: Scalar> ClementsMesh<T> {
    /// The mesh that the log of an elimination stands for, with the diagonal
    /// phases `alpha` that it ended in.
    pub open spec fn collects(&self, log: Seq<Nulling<T>>, alpha: Seq<T>, pi: T) -> bool {
        let (phases, blocks) = commuted(log, alpha, pi, log.len() as int);
        &&& self.output_phases@ == phases
        &&& self.mzis@ == blocks + rights(log, log.len() as int)
    }

    /// The settings that realize a unitary matrix. `unitary` judges the
    /// squared distance of U^H.U from the identity; `right` and `left` give
    /// the angles that null an entry; `arg` is the phase of a sample.
    pub fn decompose<
        V: Fn(T) -> bool,
        R: Fn(Cx<T>, Cx<T>) -> Null<T>,
        L: Fn(Cx<T>, Cx<T>) -> Null<T>,
        A: Fn(Cx<T>) -> T,
    >(u: &Matrix<Cx<T>>, unitary: &V, right: &R, left: &L, arg: &A, pi: T) -> (r: Result<
        ClementsMesh<T>,
        MeshError<T>,
    >)
        requires
            u.wf(),
            u.rows >= 1,
            forall|d: T| #[trigger] call_requires(unitary, (d,)),
            forall|a: Cx<T>, b: Cx<T>| #[trigger] call_requires(right, (a, b)),
            forall|a: Cx<T>, b: Cx<T>| #[trigger] call_requires(left, (a, b)),
            forall|a: Cx<T>| #[trigger] call_requires(arg, (a,)),
        ensures
            decomposes(u, *unitary, *right, *left, *arg, pi, r),
    {
        if u.rows != u.cols {
            return Err(MeshError::NotSquare);
        }
        let d = unitarity_defect(u);
        if !unitary(d) {
            return Err(MeshError::NotUnitary(d));
        }
        let n: usize = u.rows;
        let (w, log) = eliminate(u, right, left);
        let mut alpha: Vec<T> = Vec::new();
        let mut j: usize = 0;
        while j < n
            invariant
                j <= n,
                w.shaped(n as int, n as int),
                alpha@.len() == j,
                forall|a: Cx<T>| #[trigger] call_requires(arg, (a,)),
                forall|k: int|
                    0 <= k < j ==> call_ensures(arg, (w.at(k, k),), #[trigger] alpha@[k]),
            decreases n - j,
        {
            let a = arg(w.get(j, j));
            alpha.push(a);
            j += 1;
        }
        let ghost alpha0 = alpha@;
        let mesh = collect(n, &log, alpha, pi);
        proof {
            nulling_takes_every_step(n as int);
            let ws = choose|ws: Seq<Matrix<Cx<T>>>|
                #[trigger] eliminates(ws, log@, n as int, u, *right, *left) && ws[log@.len() as int]
                    == w;
            assert(eliminates(ws, log@, u.rows as int, u, *right, *left));
            assert(mesh.collects(log@, alpha0, pi));
            assert(realizes(u, *right, *left, *arg, pi, &mesh, ws, log@, alpha0));
        }
        Ok(mesh)
    }
}

/// `mesh` collects the elimination `log` of `u`, which leads through `ws` to a
/// diagonal with phases `alpha`.
pub open spec fn realizes<
    T: Scalar,
    R: Fn(Cx<T>, Cx<T>) -> Null<T>,
    L: Fn(Cx<T>, Cx<T>) -> Null<T>,
    A: Fn(Cx<T>) -> T,
>(
    u: &Matrix<Cx<T>>,
    right: R,
    left: L,
    arg: A,
    pi: T,
    mesh: &ClementsMesh<T>,
    ws: Seq<Matrix<Cx<T>>>,
    log: Seq<Nulling<T>>,
    alpha: Seq<T>,
) -> bool {
    &&& eliminates(ws, log, u.rows as int, u, right, left)
    &&& log.len() == steps_before(u.rows - 1)
    &&& alpha.len() == u.rows
    &&& forall|j: int|
        0 <= j < u.rows ==> call_ensures(
            arg,
            (ws[log.len() as int].at(j, j),),
            #[trigger] alpha[j],
        )
    &&& mesh.collects(log, alpha, pi)
}

/// `r` is the mesh of `u`, or why it has none.
pub open spec fn decomposes<
    T: Scalar,
    V: Fn(T) -> bool,
    R: Fn(Cx<T>, Cx<T>) -> Null<T>,
    L: Fn(Cx<T>, Cx<T>) -> Null<T>,
    A: Fn(Cx<T>) -> T,
>(
    u: &Matrix<Cx<T>>,
    unitary: V,
    right: R,
    left: L,
    arg: A,
    pi: T,
    r: Result<ClementsMesh<T>, MeshError<T>>,
) -> bool {
    match r {
        Err(MeshError::NotSquare) => u.rows != u.cols,
        Err(MeshError::NotUnitary(d)) => u.rows == u.cols && d == defect(u, u.rows * u.cols)
            && call_ensures(unitary, (d,), false),
        Ok(mesh) => {
            &&& u.rows == u.cols
            &&& call_ensures(unitary, (defect(u, u.rows * u.cols),), true)
            &&& mesh.wf()
            &&& mesh.n == u.rows
            &&& 2 * mesh.mzis@.len() == u.rows * (u.rows - 1)
            &&& exists|ws: Seq<Matrix<Cx<T>>>, log: Seq<Nulling<T>>, alpha: Seq<T>|
                #[trigger] realizes(u, right, left, arg, pi, &mesh, ws, log, alpha)
        },
    }
}

/// Turns an elimination into a mesh: left nullings are commuted through the
/// diagonal, innermost first, and stand before the right ones, which are read
/// backwards.
fn collect<T: Scalar>(n: usize, log: &Vec<Nulling<T>>, alpha: Vec<T>, pi: T) -> (r: ClementsMesh<T>)
    requires
        alpha@.len() == n,
        forall|k: int| 0 <= k < log@.len() ==> (#[trigger] log@[k]).mode + 1 < n,
    ensures
        r.wf(),
        r.n == n,
        r.mzis@.len() == log@.len(),
        r.collects(log@, alpha@, pi),
{
    let total: usize = log.len();
    let ghost start = alpha@;
    let mut phases = alpha;
    // Both lists grow at the end, so the left blocks come out reversed.
    let mut primed: Vec<MziSetting<T>> = Vec::new();
    let mut tail: Vec<MziSetting<T>> = Vec::new();
    let mut k: usize = 0;
    while k < total
        invariant
            k <= total,
            total == log@.len(),
            phases@.len() == n,
            forall|m: int| 0 <= m < log@.len() ==> (#[trigger] log@[m]).mode + 1 < n,
            phases@ == commuted(log@, start, pi, k as int).0,
            primed@.reverse() == commuted(log@, start, pi, k as int).1,
            tail@ == rights(log@, k as int),
            primed@.len() + tail@.len() == k,
            on_modes(primed@, n as int),
            on_modes(tail@, n as int),
        decreases total - k,
    {
        let x = log[total - 1 - k];
        assert(log@[total - 1 - k].mode + 1 < n);
        if x.left {
            let m: usize = x.mode;
            let phi = phases[m].minus(phases[m + 1]).plus(pi);
            let a = phases[m + 1].minus(x.phi).plus(pi);
            let ghost before = primed@;
            phases.set(m, a);
            let b = MziSetting { mode: m, theta: x.theta, phi };
            primed.push(b);
            proof {
                assert(primed@.reverse() =~= seq![b] + before.reverse());
            }
        } else {
            tail.push(MziSetting { mode: x.mode, theta: x.theta, phi: x.phi });
        }
        k += 1;
    }
    let mut mzis: Vec<MziSetting<T>> = Vec::new();
    let count: usize = primed.len();
    let mut q: usize = 0;
    while q < count
        invariant
            q <= count,
            count == primed@.len(),
            mzis@ == primed@.reverse().take(q as int),
            on_modes(primed@, n as int),
            on_modes(mzis@, n as int),
        decreases count - q,
    {
        let b = primed[count - 1 - q];
        assert(primed@[count - 1 - q].mode + 1 < n);
        mzis.push(b);
        q += 1;
        assert(mzis@ =~= primed@.reverse().take(q as int));
    }
    assert(primed@.reverse().take(count as int) =~= primed@.reverse());
    let mut t: usize = 0;
    assert(mzis@ + tail@.take(0) =~= mzis@);
    let ghost head = mzis@;
    while t < tail.len()
        invariant
            t <= tail@.len(),
            mzis@ == head + tail@.take(t as int),
            on_modes(tail@, n as int),
            on_modes(mzis@, n as int),
        decreases tail@.len() - t,
    {
        assert(tail@[t as int].mode + 1 < n);
        mzis.push(tail[t]);
        t += 1;
        assert(mzis@ =~= head + tail@.take(t as int));
    }
    assert(tail@.take(tail@.len() as int) =~= tail@);
    ClementsMesh { n, mzis, output_phases: phases }
}

} // verus!
