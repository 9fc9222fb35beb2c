//! 2D Yee grid of the out-of-plane-E component set (Ez, Hx, Hy) with a
//! convolutional perfectly matched layer on all four sides.
//!
//! ```text
//!        Ez(i,j+1) -- Hy(i+1/2,j+1) -- Ez(i+1,j+1)
//!           |                             |
//!        Hx(i,j+1/2)                  Hx(i+1,j+1/2)
//!           |                             |
//!        Ez(i,j) ---- Hy(i+1/2,j) ---- Ez(i+1,j)
//! ```
//!
//! One leapfrog step moves H by half a step from E, then E by a full step from
//! H:
//!
//! ```text
//!   Hx <- Hx - dt . dEz/dy
//!   Hy <- Hy + dt . dEz/dx
//!   Ez <- Ez + (dt/eps) . [ dHy/dx - dHx/dy ]
//! ```
//!
//! with every derivative divided by its stretching factor, and the memory of
//! the absorbing strip that the sample lies in folded in. The outermost ring
//! of Ez is perfect electric conductor and never changes.

use crate::field::grid3::{quiet, remembered, strip_e, strip_h};
use crate::field::grid3::{in_strip_e, in_strip_h, CpmlTables};
use crate::field::lattice::flat;
use crate::field::lattice::{filled, sweep, Triple};
use crate::scalar::{lemma_running_push, running, Scalar};
use crate::scalar::{is_peak, peak};
use vstd::prelude::*;

verus! {

/// CPML thickness in cells where a job names none.
pub fn default_npml() -> (r: usize)
    ensures
        r == 10,
{
    10
}

/// 2D grid extents.
#[derive(Debug, Clone, Copy)]
pub struct GridSpec {
    /// Ez points along x.
    pub nx: usize,
    /// Ez points along y.
    pub ny: usize,
    /// CPML thickness in cells on each of the four sides.
    pub npml: usize,
}

impl GridSpec {
    /// The grid leaves interior cells beyond the absorbing layers, and its
    /// samples can be counted.
    pub open spec fn valid(&self) -> bool {
        &&& self.nx > 2 * self.npml + 2
        &&& self.ny > 2 * self.npml + 2
        &&& self.nx * self.ny <= usize::MAX
    }
}

/// Place of sample (i, j) in a row-major array with rows of `w` samples.
pub open spec fn cell(w: int, i: int, j: int) -> int {
    i * w + j
}

/// Samples of a lattice of `n` rows of `w` have places inside the array.
pub proof fn lemma_cell(n: int, w: int, i: int, j: int)
    requires
        0 <= i < n,
        0 <= j < w,
    ensures
        0 <= cell(w, i, j) < n * w,
{
    assert(0 <= i * w + j < n * w) by (nonlinear_arith)
        requires
            0 <= i < n,
            0 <= j < w,
    ;
}

/// Place of sample (i, j) in a row-major array.
pub fn cell_index(n: usize, w: usize, i: usize, j: usize) -> (r: usize)
    requires
        i < n,
        j < w,
        n * w <= usize::MAX,
    ensures
        r == cell(w as int, i as int, j as int),
        r < n * w,
{
    proof {
        lemma_cell(n as int, w as int, i as int, j as int);
        assert(0 <= i * w) by (nonlinear_arith)
            requires
                0 <= i,
                0 <= w,
        ;
    }
    i * w + j
}

/// 2D Yee grid with CPML on all four sides. Field arrays are public for
/// sources and monitors.
pub struct Grid2d<T> {
    pub nx: usize,
    pub ny: usize,
    pub npml: usize,
    pub dt: T,
    /// Ez at (i, j), nx rows of ny.
    pub ez: Vec<T>,
    /// Hx at (i, j+1/2), nx rows of ny-1.
    pub hx: Vec<T>,
    /// Hy at (i+1/2, j), nx-1 rows of ny.
    pub hy: Vec<T>,
    /// Relative permittivity of each cell.
    pub eps_r: Vec<T>,
    /// Update coefficient dt/eps of each cell.
    pub ce: Vec<T>,
    pub cpml_x: CpmlTables<T>,
    pub cpml_y: CpmlTables<T>,
    /// CPML memory variables, each shaped like its component.
    pub psi_ez_x: Vec<T>,
    pub psi_ez_y: Vec<T>,
    pub psi_hx_y: Vec<T>,
    pub psi_hy_x: Vec<T>,
}

impl<T: Scalar> Grid2d<T> {
    /// Extents leave an interior, and every array has its component's shape.
    pub open spec fn wf(&self) -> bool {
        &&& (GridSpec { nx: self.nx, ny: self.ny, npml: self.npml }).valid()
        &&& self.ez@.len() == self.nx * self.ny
        &&& self.hx@.len() == self.nx * (self.ny - 1)
        &&& self.hy@.len() == (self.nx - 1) * self.ny
        &&& self.eps_r@.len() == self.nx * self.ny
        &&& self.ce@.len() == self.nx * self.ny
        &&& self.psi_ez_x@.len() == self.nx * self.ny
        &&& self.psi_ez_y@.len() == self.nx * self.ny
        &&& self.psi_hx_y@.len() == self.nx * (self.ny - 1)
        &&& self.psi_hy_x@.len() == (self.nx - 1) * self.ny
        &&& self.cpml_x.e.covers(self.nx as int)
        &&& self.cpml_x.h.covers(self.nx - 1)
        &&& self.cpml_y.e.covers(self.ny as int)
        &&& self.cpml_y.h.covers(self.ny - 1)
    }

    pub open spec fn ez_of(&self, i: int, j: int) -> T {
        self.ez@[cell(self.ny as int, i, j)]
    }

    pub open spec fn hx_of(&self, i: int, j: int) -> T {
        self.hx@[cell(self.ny - 1, i, j)]
    }

    pub open spec fn hy_of(&self, i: int, j: int) -> T {
        self.hy@[cell(self.ny as int, i, j)]
    }

    /// Hx at (i, j) after a half step, with its memory.
    pub open spec fn hx_next(&self, i: int, j: int) -> (T, T) {
        let at = cell(self.ny - 1, i, j);
        let t = self.cpml_y.h;
        let d = self.ez_of(i, j + 1).difference(self.ez_of(i, j));
        let h = self.hx@[at].difference(self.dt.product(d).product(t.inv_k@[j]));
        let inside = strip_h(j, self.ny - 1, self.npml as int);
        let psi = remembered(inside, t.b@[j], t.c@[j], self.psi_hx_y@[at], d);
        (
            if inside {
                h.difference(self.dt.product(psi))
            } else {
                h
            },
            psi,
        )
    }

    /// Hy at (i, j) after a half step, with its memory.
    pub open spec fn hy_next(&self, i: int, j: int) -> (T, T) {
        let at = cell(self.ny as int, i, j);
        let t = self.cpml_x.h;
        let d = self.ez_of(i + 1, j).difference(self.ez_of(i, j));
        let h = self.hy@[at].sum(self.dt.product(t.inv_k@[i]).product(d));
        let inside = strip_h(i, self.nx - 1, self.npml as int);
        let psi = remembered(inside, t.b@[i], t.c@[i], self.psi_hy_x@[at], d);
        (
            if inside {
                h.sum(self.dt.product(psi))
            } else {
                h
            },
            psi,
        )
    }

    /// Whether Ez is free at (i, j): not on the outermost ring.
    pub open spec fn ez_free(&self, i: int, j: int) -> bool {
        1 <= i < self.nx - 1 && 1 <= j < self.ny - 1
    }

    /// Ez at (i, j) after a full step, with its two memories.
    pub open spec fn ez_next(&self, i: int, j: int) -> (T, T, T) {
        let at = cell(self.ny as int, i, j);
        if self.ez_free(i, j) {
            let (tx, ty) = (self.cpml_x.e, self.cpml_y.e);
            let in_x = strip_e(i, self.nx as int, self.npml as int);
            let in_y = strip_e(j, self.ny as int, self.npml as int);
            let dx = self.hy_of(i, j).difference(self.hy_of(i - 1, j));
            let dy = self.hx_of(i, j).difference(self.hx_of(i, j - 1));
            let px = remembered(in_x, tx.b@[i], tx.c@[i], self.psi_ez_x@[at], dx);
            let py = remembered(in_y, ty.b@[j], ty.c@[j], self.psi_ez_y@[at], dy);
            let curl = dx.product(tx.inv_k@[i]).difference(dy.product(ty.inv_k@[j]));
            let e0 = self.ez@[at].sum(self.ce@[at].product(curl));
            let e1 = if in_x {
                e0.sum(self.ce@[at].product(px))
            } else {
                e0
            };
            let e2 = if in_y {
                e1.difference(self.ce@[at].product(py))
            } else {
                e1
            };
            (e2, px, py)
        } else {
            (self.ez@[at], self.psi_ez_x@[at], self.psi_ez_y@[at])
        }
    }

    /// `self` and `other` agree on everything that no step changes.
    pub open spec fn same_setup(&self, other: &Self) -> bool {
        &&& self.nx == other.nx
        &&& self.ny == other.ny
        &&& self.npml == other.npml
        &&& self.dt == other.dt
        &&& self.eps_r@ == other.eps_r@
        &&& self.ce@ == other.ce@
        &&& self.cpml_x == other.cpml_x
        &&& self.cpml_y == other.cpml_y
    }

    pub open spec fn same_e(&self, other: &Self) -> bool {
        &&& self.ez@ == other.ez@
        &&& self.psi_ez_x@ == other.psi_ez_x@
        &&& self.psi_ez_y@ == other.psi_ez_y@
    }

    pub open spec fn same_h(&self, other: &Self) -> bool {
        &&& self.hx@ == other.hx@
        &&& self.hy@ == other.hy@
        &&& self.psi_hx_y@ == other.psi_hx_y@
        &&& self.psi_hy_x@ == other.psi_hy_x@
    }

    /// `after` holds at every H sample what a half step from `self` gives.
    pub open spec fn h_stepped(&self, after: &Self) -> bool {
        &&& forall|i: int, j: int|
            0 <= i < self.nx && 0 <= j < self.ny - 1 ==> ({
                let at = cell(self.ny - 1, i, j);
                (after.hx@[at], after.psi_hx_y@[at]) == #[trigger] self.hx_next(i, j)
            })
        &&& forall|i: int, j: int|
            0 <= i < self.nx - 1 && 0 <= j < self.ny ==> ({
                let at = cell(self.ny as int, i, j);
                (after.hy@[at], after.psi_hy_x@[at]) == #[trigger] self.hy_next(i, j)
            })
    }

    /// `after` holds at every Ez sample what a full step from `self` gives.
    pub open spec fn e_stepped(&self, after: &Self) -> bool {
        forall|i: int, j: int|
            0 <= i < self.nx && 0 <= j < self.ny ==> ({
                let at = cell(self.ny as int, i, j);
                (after.ez@[at], after.psi_ez_x@[at], after.psi_ez_y@[at])
                    == #[trigger] self.ez_next(i, j)
            })
    }

    /// `after` is one leapfrog step of `self`: the H half step, then the E step
    /// from what it left.
    pub open spec fn leapfrogged(&self, after: &Self) -> bool {
        exists|mid: Self|
            #![trigger self.h_stepped(&mid)]
            {
                &&& mid.wf()
                &&& mid.same_setup(self)
                &&& mid.same_e(self)
                &&& self.h_stepped(&mid)
                &&& after.same_setup(&mid)
                &&& after.same_h(&mid)
                &&& mid.e_stepped(after)
            }
    }

    /// Builds a grid at rest. `eps_r` is the relative permittivity of each
    /// cell, `ce` the matching coefficient dt/eps, `cpml` the coefficients of
    /// the x and the y axis.
    pub fn new(
        spec: &GridSpec,
        dt: T,
        eps_r: Vec<T>,
        ce: Vec<T>,
        cpml: (CpmlTables<T>, CpmlTables<T>),
    ) -> (r: Self)
        requires
            spec.valid(),
            eps_r@.len() == spec.nx * spec.ny,
            ce@.len() == spec.nx * spec.ny,
            cpml.0.e.covers(spec.nx as int) && cpml.0.h.covers(spec.nx - 1),
            cpml.1.e.covers(spec.ny as int) && cpml.1.h.covers(spec.ny - 1),
        ensures
            r.wf(),
            r.nx == spec.nx,
            r.ny == spec.ny,
            r.npml == spec.npml,
            r.dt == dt,
            r.eps_r == eps_r,
            r.ce == ce,
            r.cpml_x == cpml.0,
            r.cpml_y == cpml.1,
            r.ez@ == quiet::<T>(spec.nx * spec.ny),
            r.hx@ == quiet::<T>(spec.nx * (spec.ny - 1)),
            r.hy@ == quiet::<T>((spec.nx - 1) * spec.ny),
            r.psi_ez_x@ == quiet::<T>(spec.nx * spec.ny),
            r.psi_ez_y@ == quiet::<T>(spec.nx * spec.ny),
            r.psi_hx_y@ == quiet::<T>(spec.nx * (spec.ny - 1)),
            r.psi_hy_x@ == quiet::<T>((spec.nx - 1) * spec.ny),
    {
        proof {
            lemma_fewer(spec.nx as int, spec.ny as int);
        }
        let n: usize = spec.nx * spec.ny;
        let n_hx: usize = spec.nx * (spec.ny - 1);
        let n_hy: usize = (spec.nx - 1) * spec.ny;
        Grid2d {
            nx: spec.nx,
            ny: spec.ny,
            npml: spec.npml,
            dt,
            ez: filled(T::zero(), n),
            hx: filled(T::zero(), n_hx),
            hy: filled(T::zero(), n_hy),
            eps_r,
            ce,
            cpml_x: cpml.0,
            cpml_y: cpml.1,
            psi_ez_x: filled(T::zero(), n),
            psi_ez_y: filled(T::zero(), n),
            psi_hx_y: filled(T::zero(), n_hx),
            psi_hy_x: filled(T::zero(), n_hy),
        }
    }

    /// Ez at (i, j).
    pub fn ez_at(&self, i: usize, j: usize) -> (r: T)
        requires
            self.wf(),
            i < self.nx,
            j < self.ny,
        ensures
            r == self.ez_of(i as int, j as int),
    {
        self.ez[cell_index(self.nx, self.ny, i, j)]
    }

    /// Adds `v` onto Ez at (i, j) (soft sources).
    pub fn add_ez(&mut self, i: usize, j: usize, v: T)
        requires
            old(self).wf(),
            i < old(self).nx,
            j < old(self).ny,
        ensures
            final(self).wf(),
            final(self).same_setup(old(self)),
            final(self).same_h(old(self)),
            final(self).psi_ez_x@ == old(self).psi_ez_x@,
            final(self).psi_ez_y@ == old(self).psi_ez_y@,
            final(self).ez@ == old(self).ez@.update(
                cell(old(self).ny as int, i as int, j as int),
                old(self).ez_of(i as int, j as int).sum(v),
            ),
    {
        let at: usize = cell_index(self.nx, self.ny, i, j);
        let x = self.ez[at].plus(v);
        self.ez.set(at, x);
    }

    /// One leapfrog step: H by half a step from E, then E by a full step.
    pub fn step(&mut self)
        requires
            old(self).wf(),
        ensures
            final(self).wf(),
            final(self).same_setup(old(self)),
            old(self).leapfrogged(final(self)),
    {
        self.update_h();
        let ghost mid = *self;
        self.update_e();
        assert(old(self).h_stepped(&mid));
    }

    fn hx_cell(&self, i: usize, j: usize) -> (r: (T, T))
        requires
            self.wf(),
            i < self.nx,
            j < self.ny - 1,
        ensures
            r == self.hx_next(i as int, j as int),
    {
        proof {
            lemma_fewer(self.nx as int, self.ny as int);
        }
        let at: usize = cell_index(self.nx, self.ny - 1, i, j);
        let t = &self.cpml_y.h;
        let d = self.ez_at(i, j + 1).minus(self.ez_at(i, j));
        let mut h = self.hx[at].minus(self.dt.times(d).times(t.inv_k[j]));
        let mut psi = self.psi_hx_y[at];
        if in_strip_h(j, self.ny - 1, self.npml) {
            psi = t.b[j].times(psi).plus(t.c[j].times(d));
            h = h.minus(self.dt.times(psi));
        }
        (h, psi)
    }

    fn hy_cell(&self, i: usize, j: usize) -> (r: (T, T))
        requires
            self.wf(),
            i < self.nx - 1,
            j < self.ny,
        ensures
            r == self.hy_next(i as int, j as int),
    {
        proof {
            lemma_fewer(self.nx as int, self.ny as int);
        }
        let at: usize = cell_index(self.nx - 1, self.ny, i, j);
        let t = &self.cpml_x.h;
        let d = self.ez_at(i + 1, j).minus(self.ez_at(i, j));
        let mut h = self.hy[at].plus(self.dt.times(t.inv_k[i]).times(d));
        let mut psi = self.psi_hy_x[at];
        if in_strip_h(i, self.nx - 1, self.npml) {
            psi = t.b[i].times(psi).plus(t.c[i].times(d));
            h = h.plus(self.dt.times(psi));
        }
        (h, psi)
    }

    fn ez_cell(&self, i: usize, j: usize) -> (r: (T, T, T))
        requires
            self.wf(),
            i < self.nx,
            j < self.ny,
        ensures
            r == self.ez_next(i as int, j as int),
    {
        proof {
            lemma_fewer(self.nx as int, self.ny as int);
        }
        let at: usize = cell_index(self.nx, self.ny, i, j);
        let mut e = self.ez[at];
        let mut px = self.psi_ez_x[at];
        let mut py = self.psi_ez_y[at];
        if i < 1 || i >= self.nx - 1 || j < 1 || j >= self.ny - 1 {
            return (e, px, py);
        }
        let (tx, ty) = (&self.cpml_x.e, &self.cpml_y.e);
        let ce = self.ce[at];
        let dx = self.hy[cell_index(self.nx - 1, self.ny, i, j)].minus(
            self.hy[cell_index(self.nx - 1, self.ny, i - 1, j)],
        );
        let dy = self.hx[cell_index(self.nx, self.ny - 1, i, j)].minus(
            self.hx[cell_index(self.nx, self.ny - 1, i, j - 1)],
        );
        let curl = dx.times(tx.inv_k[i]).minus(dy.times(ty.inv_k[j]));
        e = e.plus(ce.times(curl));
        if in_strip_e(i, self.nx, self.npml) {
            px = tx.b[i].times(px).plus(tx.c[i].times(dx));
            e = e.plus(ce.times(px));
        }
        if in_strip_e(j, self.ny, self.npml) {
            py = ty.b[j].times(py).plus(ty.c[j].times(dy));
            e = e.minus(ce.times(py));
        }
        (e, px, py)
    }

    /// H half-step: both H components from the differences of Ez, plus the
    /// memories of the strips.
    pub fn update_h(&mut self)
        requires
            old(self).wf(),
        ensures
            final(self).wf(),
            final(self).same_setup(old(self)),
            final(self).same_e(old(self)),
            old(self).h_stepped(final(self)),
    {
        proof {
            lemma_fewer(self.nx as int, self.ny as int);
        }
        let g: &Self = self;
        let hx = |i: usize, j: usize| -> (t: Triple<T>)
            requires
                g.wf(),
                i < g.nx,
                j < g.ny - 1,
            ensures
                (t.0, t.1) == g.hx_next(i as int, j as int),
            {
                let t = g.hx_cell(i, j);
                (t.0, t.1, t.1)
            };
        let x = sweep2(g.nx, g.ny - 1, hx);
        let hy = |i: usize, j: usize| -> (t: Triple<T>)
            requires
                g.wf(),
                i < g.nx - 1,
                j < g.ny,
            ensures
                (t.0, t.1) == g.hy_next(i as int, j as int),
            {
                let t = g.hy_cell(i, j);
                (t.0, t.1, t.1)
            };
        let y = sweep2(g.nx - 1, g.ny, hy);
        proof {
            assert forall|i: int, j: int| 0 <= i < g.nx && 0 <= j < g.ny - 1 implies ({
                let at = cell(g.ny - 1, i, j);
                (x.0@[at], x.1@[at]) == #[trigger] g.hx_next(i, j)
            }) by {
                let (a, b) = (i as usize, j as usize);
                let at = cell((g.ny - 1) as int, a as int, b as int);
                assert(call_ensures(hx, (a, b), (x.0@[at], x.1@[at], x.2@[at])));
            }
            assert forall|i: int, j: int| 0 <= i < g.nx - 1 && 0 <= j < g.ny implies ({
                let at = cell(g.ny as int, i, j);
                (y.0@[at], y.1@[at]) == #[trigger] g.hy_next(i, j)
            }) by {
                let (a, b) = (i as usize, j as usize);
                let at = cell(g.ny as int, a as int, b as int);
                assert(call_ensures(hy, (a, b), (y.0@[at], y.1@[at], y.2@[at])));
            }
        }
        self.hx = x.0;
        self.psi_hx_y = x.1;
        self.hy = y.0;
        self.psi_hy_x = y.1;
    }

    /// E full step: Ez from the differences of H, plus the memories of the
    /// strips. The outermost ring never changes.
    pub fn update_e(&mut self)
        requires
            old(self).wf(),
        ensures
            final(self).wf(),
            final(self).same_setup(old(self)),
            final(self).same_h(old(self)),
            old(self).e_stepped(final(self)),
    {
        let g: &Self = self;
        let ez = |i: usize, j: usize| -> (t: Triple<T>)
            requires
                g.wf(),
                i < g.nx,
                j < g.ny,
            ensures
                t == g.ez_next(i as int, j as int),
            { g.ez_cell(i, j) };
        let z = sweep2(g.nx, g.ny, ez);
        proof {
            assert forall|i: int, j: int| 0 <= i < g.nx && 0 <= j < g.ny implies ({
                let at = cell(g.ny as int, i, j);
                (z.0@[at], z.1@[at], z.2@[at]) == #[trigger] g.ez_next(i, j)
            }) by {
                let (a, b) = (i as usize, j as usize);
                let at = cell(g.ny as int, a as int, b as int);
                assert(call_ensures(ez, (a, b), (z.0@[at], z.1@[at], z.2@[at])));
            }
        }
        self.ez = z.0;
        self.psi_ez_x = z.1;
        self.psi_ez_y = z.2;
    }

    /// What [`Grid2d::energy`] returns.
    pub open spec fn stored(&self, half: T) -> T {
        let e = Seq::new(
            self.ez@.len(),
            |k: int| self.eps_r@[k].product(self.ez@[k]).product(self.ez@[k]),
        );
        half.product(
            running(e).sum(running(squares(self.hx@))).sum(running(squares(self.hy@))),
        )
    }

    /// Field energy of the whole grid: `half` of the sum of eps.Ez^2, Hx^2 and
    /// Hy^2.
    pub fn energy(&self, half: T) -> (r: T)
        requires
            self.wf(),
        ensures
            r == self.stored(half),
    {
        let ghost e = Seq::new(
            self.ez@.len(),
            |k: int| self.eps_r@[k].product(self.ez@[k]).product(self.ez@[k]),
        );
        let mut acc = T::zero();
        let mut k: usize = 0;
        assert(e.take(0) =~= Seq::empty());
        while k < self.ez.len()
            invariant
                self.wf(),
                k <= self.ez@.len(),
                e == Seq::new(
                    self.ez@.len(),
                    |m: int| self.eps_r@[m].product(self.ez@[m]).product(self.ez@[m]),
                ),
                acc == running(e.take(k as int)),
            decreases self.ez@.len() - k,
        {
            let f = self.ez[k];
            let x = self.eps_r[k].times(f).times(f);
            acc = acc.plus(x);
            proof {
                assert(e.take(k + 1) =~= e.take(k as int).push(x));
                lemma_running_push(e.take(k as int), x);
            }
            k += 1;
        }
        assert(e.take(e.len() as int) =~= e);
        half.times(acc.plus(sum_squares(&self.hx)).plus(sum_squares(&self.hy)))
    }

    /// Greatest magnitude of Ez; `size` gives the magnitude of a sample.
    pub fn ez_max_abs<S: Fn(T) -> T>(&self, size: &S) -> (r: T)
        requires
            forall|x: T| #[trigger] call_requires(size, (x,)),
        ensures
            is_peak(self.ez@, *size, r),
    {
        let n: usize = self.ez.len();
        let none: Vec<T> = Vec::new();
        assert(self.ez@ + none@ + none@ =~= self.ez@);
        peak(&self.ez, &none, &none, size)
    }

    /// Copy of the Ez field for rendering.
    pub fn snapshot_ez(&self) -> (r: Vec<T>)
        ensures
            r@ == self.ez@,
    {
        let mut r: Vec<T> = Vec::new();
        let mut k: usize = 0;
        while k < self.ez.len()
            invariant
                k <= self.ez@.len(),
                r@ == self.ez@.take(k as int),
            decreases self.ez@.len() - k,
        {
            r.push(self.ez[k]);
            k += 1;
            assert(self.ez@.take(k as int) =~= self.ez@.take(k - 1).push(self.ez@[k - 1]));
        }
        assert(self.ez@.take(self.ez@.len() as int) =~= self.ez@);
        r
    }
}

pub open spec fn squares<T: Scalar>(v: Seq<T>) -> Seq<T> {
    v.map_values(|x: T| x.product(x))
}

fn sum_squares<T: Scalar>(v: &Vec<T>) -> (r: T)
    ensures
        r == running(squares(v@)),
{
    let mut acc = T::zero();
    let mut k: usize = 0;
    assert(squares(v@.take(0)) =~= Seq::empty());
    while k < v.len()
        invariant
            k <= v@.len(),
            acc == running(squares(v@.take(k as int))),
        decreases v@.len() - k,
    {
        acc = acc.plus(v[k].times(v[k]));
        proof {
            let x = v@[k as int];
            assert(squares(v@.take(k + 1)) =~= squares(v@.take(k as int)).push(x.product(x)));
            lemma_running_push(squares(v@.take(k as int)), x.product(x));
        }
        k += 1;
    }
    assert(v@.take(v@.len() as int) =~= v@);
    acc
}

/// H lattices have fewer samples than the Ez lattice.
pub proof fn lemma_fewer(nx: int, ny: int)
    requires
        nx >= 1,
        ny >= 1,
    ensures
        0 <= nx * (ny - 1) <= nx * ny,
        0 <= (nx - 1) * ny <= nx * ny,
{
    assert(0 <= nx * (ny - 1) <= nx * ny && 0 <= (nx - 1) * ny <= nx * ny) by (nonlinear_arith)
        requires
            nx >= 1,
            ny >= 1,
    ;
}

/// The three row-major arrays that hold at (i, j) the triple that `f` gives.
fn sweep2<T: Copy + Send + Sync, F: Fn(usize, usize) -> Triple<T> + Sync + Send>(
    n: usize,
    w: usize,
    f: F,
) -> (out: (Vec<T>, Vec<T>, Vec<T>))
    requires
        n >= 1,
        w >= 1,
        n * w <= usize::MAX,
        forall|i: usize, j: usize| i < n && j < w ==> call_requires(f, (i, j)),
    ensures
        out.0@.len() == n * w,
        out.1@.len() == n * w,
        out.2@.len() == n * w,
        forall|i: usize, j: usize|
            i < n && j < w ==> ({
                let at = #[trigger] cell(w as int, i as int, j as int);
                call_ensures(f, (i, j), (out.0@[at], out.1@[at], out.2@[at]))
            }),
{
    let fr: &F = &f;
    let one = |z: usize, i: usize, j: usize| -> (t: Triple<T>)
        requires
            i < n,
            j < w,
        ensures
            call_ensures(fr, (i, j), t),
        { fr(i, j) };
    assert(1 * n * w == n * w) by (nonlinear_arith);
    let out = sweep((1, n, w), one);
    proof {
        assert forall|i: usize, j: usize| i < n && j < w implies ({
            let at = #[trigger] cell(w as int, i as int, j as int);
            call_ensures(f, (i, j), (out.0@[at], out.1@[at], out.2@[at]))
        }) by {
            let d = (1usize as int, n as int, w as int);
            let at = flat(d, (0usize as int, i as int, j as int));
            assert((0 * n + i) * w + j == i * w + j) by (nonlinear_arith);
            assert(at == cell(w as int, i as int, j as int));
            assert(call_ensures(one, (0usize, i, j), (out.0@[at], out.1@[at], out.2@[at])));
        }
    }
    out
}

/// The outermost ring of Ez never changes.
pub proof fn ring_holds<T: Scalar>(before: &Grid2d<T>, after: &Grid2d<T>, i: int, j: int)
    requires
        before.wf(),
        before.e_stepped(after),
        0 <= i < before.nx,
        0 <= j < before.ny,
        !before.ez_free(i, j),
    ensures
        after.ez@[cell(before.ny as int, i, j)] == before.ez_of(i, j),
{
    assert(before.ez_next(i, j) == before.ez_next(i, j));
}

/// Every place of a row-major array is a sample.
pub proof fn lemma_place(n: int, w: int, at: int)
    requires
        w >= 1,
        0 <= at < n * w,
    ensures
        0 <= at / w < n,
        0 <= at % w < w,
        cell(w, at / w, at % w) == at,
{
    vstd::arithmetic::div_mod::lemma_fundamental_div_mod(at, w);
    let (q, r) = (at / w, at % w);
    assert(0 <= q < n) by (nonlinear_arith)
        requires
            at == w * q + r,
            0 <= r < w,
            0 <= at < n * w,
            w >= 1,
    ;
    assert(w * q == q * w) by (nonlinear_arith);
}

/// A step is a function of the grid: two H updates of one grid agree on every
/// sample and memory, and so do two E updates.
pub proof fn steps_are_reproducible<T: Scalar>(
    before: &Grid2d<T>,
    one: &Grid2d<T>,
    two: &Grid2d<T>,
)
    requires
        before.wf(),
        one.wf(),
        two.wf(),
        one.same_setup(before),
        two.same_setup(before),
    ensures
        before.h_stepped(one) && before.h_stepped(two) ==> one.same_h(two),
        before.e_stepped(one) && before.e_stepped(two) ==> one.same_e(two),
{
    let (nx, ny) = (before.nx as int, before.ny as int);
    if before.h_stepped(one) && before.h_stepped(two) {
        assert forall|at: int| 0 <= at < nx * (ny - 1) implies one.hx@[at] == two.hx@[at]
            && one.psi_hx_y@[at] == two.psi_hx_y@[at] by {
            lemma_place(nx, ny - 1, at);
            let (i, j) = (at / (ny - 1), at % (ny - 1));
            assert(before.hx_next(i, j) == before.hx_next(i, j));
        }
        assert forall|at: int| 0 <= at < (nx - 1) * ny implies one.hy@[at] == two.hy@[at]
            && one.psi_hy_x@[at] == two.psi_hy_x@[at] by {
            lemma_place(nx - 1, ny, at);
            let (i, j) = (at / ny, at % ny);
            assert(before.hy_next(i, j) == before.hy_next(i, j));
        }
        assert(one.hx@ =~= two.hx@);
        assert(one.psi_hx_y@ =~= two.psi_hx_y@);
        assert(one.hy@ =~= two.hy@);
        assert(one.psi_hy_x@ =~= two.psi_hy_x@);
    }
    if before.e_stepped(one) && before.e_stepped(two) {
        assert forall|at: int| 0 <= at < nx * ny implies one.ez@[at] == two.ez@[at]
            && one.psi_ez_x@[at] == two.psi_ez_x@[at] && one.psi_ez_y@[at]
            == two.psi_ez_y@[at] by {
            lemma_place(nx, ny, at);
            let (i, j) = (at / ny, at % ny);
            assert(before.ez_next(i, j) == before.ez_next(i, j));
        }
        assert(one.ez@ =~= two.ez@);
        assert(one.psi_ez_x@ =~= two.psi_ez_x@);
        assert(one.psi_ez_y@ =~= two.psi_ez_y@);
    }
}

/// `k` is the wavenumber of a plane wave along an axis of the grid: twice the
/// arc sine of sin(omega.dt/2)/dt, or nothing where that exceeds one and the
/// wave does not propagate.
pub open spec fn is_wavenumber<T: Scalar, S: Fn(T) -> T, A: Fn(T) -> T, M: Fn(T) -> T>(
    omega: T,
    dt: T,
    sin: S,
    asin: A,
    magnitude: M,
    k: Option<T>,
    by: (T, T, T),
) -> bool {
    let (wave, size, angle) = by;
    let arg = wave.quotient(dt);
    &&& call_ensures(sin, (omega.product(dt).quotient(T::of_count(2)),), wave)
    &&& call_ensures(magnitude, (arg,), size)
    &&& if T::of_count(1).less_than(size) {
        k is None
    } else {
        call_ensures(asin, (arg,), angle) && k == Some(T::of_count(2).product(angle))
    }
}

/// Wavenumber of a plane wave along an axis, from the dispersion relation of
/// the grid: sin(k/2) = sin(omega.dt/2)/dt.
pub fn yee_axis_wavenumber<T: Scalar, S: Fn(T) -> T, A: Fn(T) -> T, M: Fn(T) -> T>(
    omega: T,
    dt: T,
    sin: S,
    asin: A,
    magnitude: M,
) -> (k: Option<T>)
    requires
        forall|x: T| #[trigger] call_requires(sin, (x,)),
        forall|x: T| #[trigger] call_requires(asin, (x,)),
        forall|x: T| #[trigger] call_requires(magnitude, (x,)),
    ensures
        exists|by: (T, T, T)| #[trigger] is_wavenumber(omega, dt, sin, asin, magnitude, k, by),
{
    let two = T::from_count(2);
    let wave = sin(omega.times(dt).over(two));
    let arg = wave.over(dt);
    let size = magnitude(arg);
    if T::from_count(1).below(size) {
        assert(is_wavenumber(omega, dt, sin, asin, magnitude, None, (wave, size, size)));
        return None;
    }
    let angle = asin(arg);
    let k = Some(two.times(angle));
    assert(is_wavenumber(omega, dt, sin, asin, magnitude, k, (wave, size, angle)));
    k
}

} // verus!
