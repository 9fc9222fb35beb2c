//! 3D Yee grid: the full (Ex, Ey, Ez, Hx, Hy, Hz) leapfrog with a convolutional
//! perfectly matched layer (CPML) on all six faces.
//!
//! Component positions on the cell (i, j, k):
//!
//! ```text
//!   Ex(i+1/2, j, k)      Ey(i, j+1/2, k)      Ez(i, j, k+1/2)
//!   Hx(i, j+1/2, k+1/2)  Hy(i+1/2, j, k+1/2)  Hz(i+1/2, j+1/2, k)
//! ```
//!
//! A component has one sample less along each axis on which it sits at half
//! positions. Storage is row-major with z contiguous.
//!
//! The six curl equations are one equation read round the axes: with `a` and
//! `b` the two axes that follow `o` in the cycle x, y, z, x, ...
//!
//! ```text
//!   H_o <- H_o - dt . [ (dE_b/da)/k_a - (dE_a/db)/k_b ]
//!   E_o <- E_o + (dt/eps) . [ (dH_b/da)/k_a - (dH_a/db)/k_b ]
//! ```
//!
//! Inside an absorbing strip normal to `a` (or `b`) the matching memory
//! variable is advanced and folded in. The outermost tangential E samples are
//! perfect electric conductor and never change; with `npml = 0` the grid is a
//! conducting box.

use crate::field::lattice::{at_place, flat, inside, lemma_at_place, volume};
use crate::field::lattice::{filled, flat_index, sweep, Arrays, Triple, PAR_MIN_CELLS};
use crate::parallel::map_indexed;
use crate::scalar::is_peak;
use crate::scalar::{peak, Scalar};
use vstd::prelude::*;

verus! {

/// Axis selector (source polarization, snapshot slice normal).
#[derive(Debug, Clone, Copy, PartialEq, Eq, Structural)]
pub enum Axis {
    X,
    Y,
    Z,
}

/// Electric-field component selector (probes, DFT monitors).
#[derive(Debug, Clone, Copy, PartialEq, Eq, Structural)]
pub enum Comp {
    Ex,
    Ey,
    Ez,
}

/// What a snapshot slice samples.
#[derive(Debug, Clone, Copy, PartialEq, Eq, Structural)]
pub enum SliceField {
    /// Raw Ez samples (staggered at k+1/2; the slice index is clamped to the
    /// last Ez sample along its axis).
    Ez,
    /// A magnitude of the three components averaged onto the integer grid
    /// node (single-sided at the walls).
    EMag,
}

impl Default for SliceField {
    fn default() -> (r: Self)
        ensures
            r == SliceField::Ez,
    {
        SliceField::Ez
    }
}

impl Axis {
    /// What [`Axis::e_comp`] returns.
    pub open spec fn polarized(self) -> Comp {
        match self {
            Axis::X => Comp::Ex,
            Axis::Y => Comp::Ey,
            Axis::Z => Comp::Ez,
        }
    }

    /// The E component polarized along this axis.
    pub fn e_comp(self) -> (r: Comp)
        ensures
            r == self.polarized(),
    {
        match self {
            Axis::X => Comp::Ex,
            Axis::Y => Comp::Ey,
            Axis::Z => Comp::Ez,
        }
    }

    /// What [`Axis::next`] returns.
    pub open spec fn after(self) -> Axis {
        match self {
            Axis::X => Axis::Y,
            Axis::Y => Axis::Z,
            Axis::Z => Axis::X,
        }
    }

    /// The axis that follows in the cycle x, y, z, x, ...
    #[inline(always)]
    pub fn next(self) -> (r: Axis)
        ensures
            r == self.after(),
    {
        match self {
            Axis::X => Axis::Y,
            Axis::Y => Axis::Z,
            Axis::Z => Axis::X,
        }
    }
}

impl Comp {
    /// The axis a component is polarized along.
    pub open spec fn axis(self) -> Axis {
        match self {
            Comp::Ex => Axis::X,
            Comp::Ey => Axis::Y,
            Comp::Ez => Axis::Z,
        }
    }

    /// The axis this component is polarized along.
    pub fn along(self) -> (r: Axis)
        ensures
            r == self.axis(),
    {
        match self {
            Comp::Ex => Axis::X,
            Comp::Ey => Axis::Y,
            Comp::Ez => Axis::Z,
        }
    }
}

/// Coordinate of a point along an axis.
pub open spec fn coord(p: (int, int, int), a: Axis) -> int {
    match a {
        Axis::X => p.0,
        Axis::Y => p.1,
        Axis::Z => p.2,
    }
}

/// The point `by` samples further along an axis.
pub open spec fn shifted(p: (int, int, int), a: Axis, by: int) -> (int, int, int) {
    match a {
        Axis::X => (p.0 + by, p.1, p.2),
        Axis::Y => (p.0, p.1 + by, p.2),
        Axis::Z => (p.0, p.1, p.2 + by),
    }
}

/// Whether sample `i` of a half-position axis with `n_h` samples lies in an
/// absorbing strip `npml` samples thick.
pub open spec fn strip_h(i: int, n_h: int, npml: int) -> bool {
    i < npml || i >= n_h - npml
}

/// Whether sample `i` of an integer-position axis with `n` samples lies in an
/// absorbing strip; the outermost samples 0 and n-1 never do.
pub open spec fn strip_e(i: int, n: int, npml: int) -> bool {
    (1 <= i < npml) || (n - npml <= i < n - 1)
}

/// Memory variable of one absorbing strip after a step that saw the
/// difference `d`: the recursion `psi <- b.psi + c.d` inside the strip, the
/// old value outside.
pub open spec fn remembered<T: Scalar>(in_strip: bool, b: T, c: T, psi: T, d: T) -> T {
    if in_strip {
        b.product(psi).sum(c.product(d))
    } else {
        psi
    }
}

/// CPML coefficients of one axis at one kind of position: the reciprocal
/// stretching factor and the two constants of the memory recursion.
pub struct AxisTables<T> {
    pub inv_k: Vec<T>,
    pub b: Vec<T>,
    pub c: Vec<T>,
}

impl<T> AxisTables<T> {
    /// One entry per sample of an axis with `n` samples.
    pub open spec fn covers(&self, n: int) -> bool {
        &&& self.inv_k@.len() == n
        &&& self.b@.len() == n
        &&& self.c@.len() == n
    }
}

/// The axes in order.
pub open spec fn axis_of(n: int) -> Axis {
    if n == 0 {
        Axis::X
    } else if n == 1 {
        Axis::Y
    } else {
        Axis::Z
    }
}

/// CPML coefficients of one axis: `e` at integer positions, `h` at half
/// positions.
pub struct CpmlTables<T> {
    pub e: AxisTables<T>,
    pub h: AxisTables<T>,
}

/// 3D grid extents.
#[derive(Debug, Clone, Copy)]
pub struct Grid3Spec {
    /// Integer grid points along x.
    pub nx: usize,
    /// Integer grid points along y.
    pub ny: usize,
    /// Integer grid points along z.
    pub nz: usize,
    /// CPML thickness in cells on each of the six faces (0 = conducting box).
    pub npml: usize,
}

impl Grid3Spec {
    /// The grid leaves interior cells beyond the absorbing layers on every
    /// axis, and its samples can be counted.
    pub open spec fn valid(&self) -> bool {
        &&& self.nx > 2 * self.npml + 2
        &&& self.ny > 2 * self.npml + 2
        &&& self.nz > 2 * self.npml + 2
        &&& self.nx * self.ny * self.nz <= usize::MAX
    }
}

/// 3D Yee grid with CPML on all six faces. Field arrays are public for
/// monitors and the dispersive-media pass.
pub struct Grid3d<T> {
    pub nx: usize,
    pub ny: usize,
    pub nz: usize,
    pub npml: usize,
    pub dt: T,
    /// Ex at (i+1/2, j, k), dims (nx-1, ny, nz).
    pub ex: Vec<T>,
    /// Ey at (i, j+1/2, k), dims (nx, ny-1, nz).
    pub ey: Vec<T>,
    /// Ez at (i, j, k+1/2), dims (nx, ny, nz-1).
    pub ez: Vec<T>,
    /// Hx at (i, j+1/2, k+1/2), dims (nx, ny-1, nz-1).
    pub hx: Vec<T>,
    /// Hy at (i+1/2, j, k+1/2), dims (nx-1, ny, nz-1).
    pub hy: Vec<T>,
    /// Hz at (i+1/2, j+1/2, k), dims (nx-1, ny-1, nz).
    pub hz: Vec<T>,
    /// Update coefficients dt/eps at each E component's own position.
    pub ce_x: Vec<T>,
    pub ce_y: Vec<T>,
    pub ce_z: Vec<T>,
    pub cpml_x: CpmlTables<T>,
    pub cpml_y: CpmlTables<T>,
    pub cpml_z: CpmlTables<T>,
    /// CPML memory variables: one per (component, strip-normal derivative),
    /// each shaped like its component.
    pub psi_ex_y: Vec<T>,
    pub psi_ex_z: Vec<T>,
    pub psi_ey_z: Vec<T>,
    pub psi_ey_x: Vec<T>,
    pub psi_ez_x: Vec<T>,
    pub psi_ez_y: Vec<T>,
    pub psi_hx_y: Vec<T>,
    pub psi_hx_z: Vec<T>,
    pub psi_hy_z: Vec<T>,
    pub psi_hy_x: Vec<T>,
    pub psi_hz_x: Vec<T>,
    pub psi_hz_y: Vec<T>,
}

/// Samples of E along `o` on a grid of `n` integer points.
pub open spec fn e_dims(n: (int, int, int), o: Axis) -> (int, int, int) {
    shifted(n, o, -1)
}

/// Samples of H along `o` on a grid of `n` integer points.
pub open spec fn h_dims(n: (int, int, int), o: Axis) -> (int, int, int) {
    shifted(shifted(n, o.after(), -1), o.after().after(), -1)
}

impl<T: Scalar> Grid3d<T> {
    /// Integer grid points.
    pub open spec fn points(&self) -> (int, int, int) {
        (self.nx as int, self.ny as int, self.nz as int)
    }

    pub open spec fn e(&self, o: Axis) -> Seq<T> {
        match o {
            Axis::X => self.ex@,
            Axis::Y => self.ey@,
            Axis::Z => self.ez@,
        }
    }

    pub open spec fn h(&self, o: Axis) -> Seq<T> {
        match o {
            Axis::X => self.hx@,
            Axis::Y => self.hy@,
            Axis::Z => self.hz@,
        }
    }

    pub open spec fn ce(&self, o: Axis) -> Seq<T> {
        match o {
            Axis::X => self.ce_x@,
            Axis::Y => self.ce_y@,
            Axis::Z => self.ce_z@,
        }
    }

    pub open spec fn cpml(&self, o: Axis) -> CpmlTables<T> {
        match o {
            Axis::X => self.cpml_x,
            Axis::Y => self.cpml_y,
            Axis::Z => self.cpml_z,
        }
    }

    /// Memory of E along `o` for the derivative along the next axis.
    pub open spec fn psi_e_a(&self, o: Axis) -> Seq<T> {
        match o {
            Axis::X => self.psi_ex_y@,
            Axis::Y => self.psi_ey_z@,
            Axis::Z => self.psi_ez_x@,
        }
    }

    /// Memory of E along `o` for the derivative along the axis after the next.
    pub open spec fn psi_e_b(&self, o: Axis) -> Seq<T> {
        match o {
            Axis::X => self.psi_ex_z@,
            Axis::Y => self.psi_ey_x@,
            Axis::Z => self.psi_ez_y@,
        }
    }

    /// Memory of H along `o` for the derivative along the next axis.
    pub open spec fn psi_h_a(&self, o: Axis) -> Seq<T> {
        match o {
            Axis::X => self.psi_hx_y@,
            Axis::Y => self.psi_hy_z@,
            Axis::Z => self.psi_hz_x@,
        }
    }

    /// Memory of H along `o` for the derivative along the axis after the next.
    pub open spec fn psi_h_b(&self, o: Axis) -> Seq<T> {
        match o {
            Axis::X => self.psi_hx_z@,
            Axis::Y => self.psi_hy_x@,
            Axis::Z => self.psi_hz_y@,
        }
    }

    /// Extents leave an interior, and every array has its component's shape.
    pub open spec fn wf(&self) -> bool {
        &&& (Grid3Spec { nx: self.nx, ny: self.ny, nz: self.nz, npml: self.npml }).valid()
        &&& forall|o: Axis|
            #![trigger self.e(o)]
            #![trigger self.ce(o)]
            #![trigger self.psi_e_a(o)]
            #![trigger self.psi_e_b(o)]
            {
                &&& self.e(o).len() == volume(e_dims(self.points(), o))
                &&& self.ce(o).len() == volume(e_dims(self.points(), o))
                &&& self.psi_e_a(o).len() == volume(e_dims(self.points(), o))
                &&& self.psi_e_b(o).len() == volume(e_dims(self.points(), o))
            }
        &&& forall|o: Axis|
            #![trigger self.h(o)]
            #![trigger self.psi_h_a(o)]
            #![trigger self.psi_h_b(o)]
            {
                &&& self.h(o).len() == volume(h_dims(self.points(), o))
                &&& self.psi_h_a(o).len() == volume(h_dims(self.points(), o))
                &&& self.psi_h_b(o).len() == volume(h_dims(self.points(), o))
            }
        &&& forall|o: Axis|
            #![trigger self.cpml(o)]
            {
                &&& self.cpml(o).e.covers(coord(self.points(), o))
                &&& self.cpml(o).h.covers(coord(self.points(), o) - 1)
            }
    }

    /// Forward difference of E along `of`, taken along `a` at the H sample `p`.
    pub open spec fn e_diff(&self, of: Axis, a: Axis, p: (int, int, int)) -> T {
        let d = e_dims(self.points(), of);
        self.e(of)[flat(d, shifted(p, a, 1))].difference(self.e(of)[flat(d, p)])
    }

    /// Backward difference of H along `of`, taken along `a` at the E sample `p`.
    pub open spec fn h_diff(&self, of: Axis, a: Axis, p: (int, int, int)) -> T {
        let d = h_dims(self.points(), of);
        self.h(of)[flat(d, p)].difference(self.h(of)[flat(d, shifted(p, a, -1))])
    }

    /// H along `o` at `p` after a half step, with its two memory variables.
    pub open spec fn h_next(&self, o: Axis, p: (int, int, int)) -> (T, T, T) {
        let (a, b) = (o.after(), o.after().after());
        let at = flat(h_dims(self.points(), o), p);
        let (i, j) = (coord(p, a), coord(p, b));
        let (ta, tb) = (self.cpml(a).h, self.cpml(b).h);
        let in_a = strip_h(i, coord(self.points(), a) - 1, self.npml as int);
        let in_b = strip_h(j, coord(self.points(), b) - 1, self.npml as int);
        let (da, db) = (self.e_diff(b, a, p), self.e_diff(a, b, p));
        let pa = remembered(in_a, ta.b@[i], ta.c@[i], self.psi_h_a(o)[at], da);
        let pb = remembered(in_b, tb.b@[j], tb.c@[j], self.psi_h_b(o)[at], db);
        let curl = da.product(ta.inv_k@[i]).difference(db.product(tb.inv_k@[j]));
        let h0 = self.h(o)[at].difference(self.dt.product(curl));
        let h1 = if in_a {
            h0.difference(self.dt.product(pa))
        } else {
            h0
        };
        let h2 = if in_b {
            h1.sum(self.dt.product(pb))
        } else {
            h1
        };
        (h2, pa, pb)
    }

    /// Whether E along `o` is free at `p`: not on a wall that it is tangential to.
    pub open spec fn e_free(&self, o: Axis, p: (int, int, int)) -> bool {
        let (a, b) = (o.after(), o.after().after());
        &&& 1 <= coord(p, a) < coord(self.points(), a) - 1
        &&& 1 <= coord(p, b) < coord(self.points(), b) - 1
    }

    /// E along `o` at `p` after a full step, with its two memory variables.
    pub open spec fn e_next(&self, o: Axis, p: (int, int, int)) -> (T, T, T) {
        let (a, b) = (o.after(), o.after().after());
        let at = flat(e_dims(self.points(), o), p);
        if self.e_free(o, p) {
            let (i, j) = (coord(p, a), coord(p, b));
            let (ta, tb) = (self.cpml(a).e, self.cpml(b).e);
            let in_a = strip_e(i, coord(self.points(), a), self.npml as int);
            let in_b = strip_e(j, coord(self.points(), b), self.npml as int);
            let (da, db) = (self.h_diff(b, a, p), self.h_diff(a, b, p));
            let pa = remembered(in_a, ta.b@[i], ta.c@[i], self.psi_e_a(o)[at], da);
            let pb = remembered(in_b, tb.b@[j], tb.c@[j], self.psi_e_b(o)[at], db);
            let curl = da.product(ta.inv_k@[i]).difference(db.product(tb.inv_k@[j]));
            let e0 = self.e(o)[at].sum(self.ce(o)[at].product(curl));
            let e1 = if in_a {
                e0.sum(self.ce(o)[at].product(pa))
            } else {
                e0
            };
            let e2 = if in_b {
                e1.difference(self.ce(o)[at].product(pb))
            } else {
                e1
            };
            (e2, pa, pb)
        } else {
            (self.e(o)[at], self.psi_e_a(o)[at], self.psi_e_b(o)[at])
        }
    }

    /// `self` and `other` agree on everything that no step changes.
    pub open spec fn same_setup(&self, other: &Self) -> bool {
        &&& self.points() == other.points()
        &&& self.npml == other.npml
        &&& self.dt == other.dt
        &&& forall|o: Axis| #![trigger self.ce(o)] self.ce(o) == other.ce(o)
        &&& forall|o: Axis| #![trigger self.cpml(o)] self.cpml(o) == other.cpml(o)
    }

    /// `other` holds the same E samples and E memory.
    pub open spec fn same_e(&self, other: &Self) -> bool {
        forall|o: Axis|
            #![trigger self.e(o)]
            #![trigger self.psi_e_a(o)]
            #![trigger self.psi_e_b(o)]
            {
                &&& self.e(o) == other.e(o)
                &&& self.psi_e_a(o) == other.psi_e_a(o)
                &&& self.psi_e_b(o) == other.psi_e_b(o)
            }
    }

    /// `other` holds the same H samples and H memory.
    pub open spec fn same_h(&self, other: &Self) -> bool {
        forall|o: Axis|
            #![trigger self.h(o)]
            #![trigger self.psi_h_a(o)]
            #![trigger self.psi_h_b(o)]
            {
                &&& self.h(o) == other.h(o)
                &&& self.psi_h_a(o) == other.psi_h_a(o)
                &&& self.psi_h_b(o) == other.psi_h_b(o)
            }
    }

    /// `after` holds at every H sample what a half step from `self` gives.
    pub open spec fn h_stepped(&self, after: &Self) -> bool {
        forall|o: Axis, p: (int, int, int)|
            inside(h_dims(self.points(), o), p) ==> ({
                let at = flat(h_dims(self.points(), o), p);
                (after.h(o)[at], after.psi_h_a(o)[at], after.psi_h_b(o)[at])
                    == #[trigger] self.h_next(o, p)
            })
    }

    /// `after` holds at every E sample what a full step from `self` gives.
    pub open spec fn e_stepped(&self, after: &Self) -> bool {
        forall|o: Axis, p: (int, int, int)|
            inside(e_dims(self.points(), o), p) ==> ({
                let at = flat(e_dims(self.points(), o), p);
                (after.e(o)[at], after.psi_e_a(o)[at], after.psi_e_b(o)[at])
                    == #[trigger] self.e_next(o, p)
            })
    }

    /// `after` is one leapfrog step of `self`: the H half step, then the E step
    /// from what it left.
    pub open spec fn leapfrogged(&self, after: &Self) -> bool {
        exists|mid: Self|
            #![trigger self.h_stepped(&mid)]
            {
                &&& mid.wf()
                &&& mid.same_setup(self)
                &&& mid.same_e(self)
                &&& self.h_stepped(&mid)
                &&& after.same_setup(&mid)
                &&& after.same_h(&mid)
                &&& mid.e_stepped(after)
            }
    }

    /// All samples and memories are `zero`.
    pub open spec fn at_rest(&self) -> bool {
        forall|o: Axis|
            #![trigger self.e(o)]
            #![trigger self.h(o)]
            {
                &&& self.e(o) == quiet::<T>(volume(e_dims(self.points(), o)))
                &&& self.psi_e_a(o) == quiet::<T>(volume(e_dims(self.points(), o)))
                &&& self.psi_e_b(o) == quiet::<T>(volume(e_dims(self.points(), o)))
                &&& self.h(o) == quiet::<T>(volume(h_dims(self.points(), o)))
                &&& self.psi_h_a(o) == quiet::<T>(volume(h_dims(self.points(), o)))
                &&& self.psi_h_b(o) == quiet::<T>(volume(h_dims(self.points(), o)))
            }
    }

    /// Builds a grid at rest. `ce` holds the update coefficient dt/eps at each
    /// E component's own staggered position: `ce.0` shaped like Ex, `ce.1`
    /// like Ey, `ce.2` like Ez. `cpml` holds the coefficients of the x, y and
    /// z axis.
    pub fn new(
        spec: &Grid3Spec,
        dt: T,
        ce: (Vec<T>, Vec<T>, Vec<T>),
        cpml: (CpmlTables<T>, CpmlTables<T>, CpmlTables<T>),
    ) -> (r: Self)
        requires
            spec.valid(),
            ce.0@.len() == (spec.nx - 1) * spec.ny * spec.nz,
            ce.1@.len() == spec.nx * (spec.ny - 1) * spec.nz,
            ce.2@.len() == spec.nx * spec.ny * (spec.nz - 1),
            cpml.0.e.covers(spec.nx as int) && cpml.0.h.covers(spec.nx - 1),
            cpml.1.e.covers(spec.ny as int) && cpml.1.h.covers(spec.ny - 1),
            cpml.2.e.covers(spec.nz as int) && cpml.2.h.covers(spec.nz - 1),
        ensures
            r.wf(),
            r.at_rest(),
            r.points() == (spec.nx as int, spec.ny as int, spec.nz as int),
            r.npml == spec.npml,
            r.dt == dt,
            r.ce_x == ce.0,
            r.ce_y == ce.1,
            r.ce_z == ce.2,
            r.cpml_x == cpml.0,
            r.cpml_y == cpml.1,
            r.cpml_z == cpml.2,
    {
        let (nx, ny, nz): (usize, usize, usize) = (spec.nx, spec.ny, spec.nz);
        let sx: usize = ce.0.len();
        let sy: usize = ce.1.len();
        let sz: usize = ce.2.len();
        let tx: usize = box_samples(spec, nx, ny - 1, nz - 1);
        let ty: usize = box_samples(spec, nx - 1, ny, nz - 1);
        let tz: usize = box_samples(spec, nx - 1, ny - 1, nz);
        let r = Grid3d {
            nx,
            ny,
            nz,
            npml: spec.npml,
            dt,
            ex: filled(T::zero(), sx),
            ey: filled(T::zero(), sy),
            ez: filled(T::zero(), sz),
            hx: filled(T::zero(), tx),
            hy: filled(T::zero(), ty),
            hz: filled(T::zero(), tz),
            ce_x: ce.0,
            ce_y: ce.1,
            ce_z: ce.2,
            cpml_x: cpml.0,
            cpml_y: cpml.1,
            cpml_z: cpml.2,
            psi_ex_y: filled(T::zero(), sx),
            psi_ex_z: filled(T::zero(), sx),
            psi_ey_z: filled(T::zero(), sy),
            psi_ey_x: filled(T::zero(), sy),
            psi_ez_x: filled(T::zero(), sz),
            psi_ez_y: filled(T::zero(), sz),
            psi_hx_y: filled(T::zero(), tx),
            psi_hx_z: filled(T::zero(), tx),
            psi_hy_z: filled(T::zero(), ty),
            psi_hy_x: filled(T::zero(), ty),
            psi_hz_x: filled(T::zero(), tz),
            psi_hz_y: filled(T::zero(), tz),
        };
        proof {
            assert forall|o: Axis|
                #![trigger r.e(o)]
                #![trigger r.h(o)]
                {
                    &&& r.e(o) == quiet::<T>(volume(e_dims(r.points(), o)))
                    &&& r.psi_e_a(o) == quiet::<T>(volume(e_dims(r.points(), o)))
                    &&& r.psi_e_b(o) == quiet::<T>(volume(e_dims(r.points(), o)))
                    &&& r.h(o) == quiet::<T>(volume(h_dims(r.points(), o)))
                    &&& r.psi_h_a(o) == quiet::<T>(volume(h_dims(r.points(), o)))
                    &&& r.psi_h_b(o) == quiet::<T>(volume(h_dims(r.points(), o)))
                } by {
                match o {
                    Axis::X => {},
                    Axis::Y => {},
                    Axis::Z => {},
                }
            }
        }
        r
    }

    /// One leapfrog step (non-dispersive media).
    pub fn step(&mut self)
        requires
            old(self).wf(),
        ensures
            final(self).wf(),
            final(self).same_setup(old(self)),
            old(self).leapfrogged(final(self)),
    {
        self.update_h();
        let ghost mid = *self;
        self.update_e();
        proof {
            assert(old(self).h_stepped(&mid));
            assert forall|o: Axis| #![trigger self.ce(o)] self.ce(o) == old(self).ce(o) by {
                assert(mid.ce(o) == old(self).ce(o));
            }
            assert forall|o: Axis| #![trigger self.cpml(o)] self.cpml(o) == old(self).cpml(o) by {
                assert(mid.cpml(o) == old(self).cpml(o));
            }
        }
    }

    /// Sample dimensions of an E component: (along x, along y, along z).
    pub fn comp_dims(&self, comp: Comp) -> (r: (usize, usize, usize))
        requires
            self.wf(),
        ensures
            (r.0 as int, r.1 as int, r.2 as int) == e_dims(self.points(), comp.axis()),
    {
        self.e_shape(comp.along())
    }

    /// Reads an E component at its sample indices (i, j, k).
    pub fn e_at(&self, comp: Comp, i: usize, j: usize, k: usize) -> (r: T)
        requires
            self.wf(),
            inside(e_dims(self.points(), comp.axis()), (i as int, j as int, k as int)),
        ensures
            r == self.e(comp.axis())[flat(
                e_dims(self.points(), comp.axis()),
                (i as int, j as int, k as int),
            )],
    {
        self.e_sample(comp.along(), (i, j, k))
    }

    /// Adds `v` onto an E component sample (soft sources).
    pub fn add_e(&mut self, comp: Comp, i: usize, j: usize, k: usize, v: T)
        requires
            old(self).wf(),
            inside(e_dims(old(self).points(), comp.axis()), (i as int, j as int, k as int)),
        ensures
            final(self).wf(),
            final(self).same_setup(old(self)),
            final(self).same_h(old(self)),
            forall|o: Axis|
                #![trigger final(self).e(o)]
                #![trigger final(self).psi_e_a(o)]
                #![trigger final(self).psi_e_b(o)]
                {
                    &&& final(self).psi_e_a(o) == old(self).psi_e_a(o)
                    &&& final(self).psi_e_b(o) == old(self).psi_e_b(o)
                    &&& final(self).e(o) == (if o == comp.axis() {
                        let at = flat(e_dims(old(self).points(), o), (i as int, j as int, k as int));
                        old(self).e(o).update(at, old(self).e(o)[at].sum(v))
                    } else {
                        old(self).e(o)
                    })
                },
    {
        let o = comp.along();
        proof {
            self.lemma_dims(o);
            assert(self.e(o).len() == volume(e_dims(self.points(), o)));
        }
        let at: usize = flat_index(self.e_shape(o), i, j, k);
        match comp {
            Comp::Ex => {
                let x = self.ex[at].plus(v);
                self.ex.set(at, x);
            },
            Comp::Ey => {
                let x = self.ey[at].plus(v);
                self.ey.set(at, x);
            },
            Comp::Ez => {
                let x = self.ez[at].plus(v);
                self.ez.set(at, x);
            },
        }
        proof {
            assert forall|o: Axis|
                #![trigger self.e(o)]
                #![trigger self.ce(o)]
                #![trigger self.psi_e_a(o)]
                #![trigger self.psi_e_b(o)]
                {
                    &&& self.e(o).len() == volume(e_dims(self.points(), o))
                    &&& self.ce(o).len() == volume(e_dims(self.points(), o))
                    &&& self.psi_e_a(o).len() == volume(e_dims(self.points(), o))
                    &&& self.psi_e_b(o).len() == volume(e_dims(self.points(), o))
                } by {
                assert(old(self).e(o).len() == volume(e_dims(self.points(), o)));
            }
            assert forall|o: Axis|
                #![trigger self.h(o)]
                #![trigger self.psi_h_a(o)]
                #![trigger self.psi_h_b(o)]
                {
                    &&& self.h(o).len() == volume(h_dims(self.points(), o))
                    &&& self.psi_h_a(o).len() == volume(h_dims(self.points(), o))
                    &&& self.psi_h_b(o).len() == volume(h_dims(self.points(), o))
                } by {
                assert(old(self).h(o).len() == volume(h_dims(self.points(), o)));
            }
            assert forall|o: Axis| #![trigger self.cpml(o)] {
                &&& self.cpml(o).e.covers(coord(self.points(), o))
                &&& self.cpml(o).h.covers(coord(self.points(), o) - 1)
            } by {
                assert(old(self).cpml(o) == self.cpml(o));
            }
        }
    }

    /// E along `o` at the integer node `p`: the mean of the two samples beside
    /// it, or the one sample there is at a wall.
    pub open spec fn node_value(&self, half: T, o: Axis, p: (int, int, int)) -> T {
        let d = e_dims(self.points(), o);
        let i = coord(p, o);
        if i == 0 {
            self.e(o)[flat(d, p)]
        } else if i + 1 >= coord(self.points(), o) {
            self.e(o)[flat(d, shifted(p, o, -1))]
        } else {
            half.product(self.e(o)[flat(d, shifted(p, o, -1))].sum(self.e(o)[flat(d, p)]))
        }
    }

    /// E along `o` averaged onto an integer node; `half` is the weight of the mean.
    fn e_node(&self, half: T, o: Axis, p: (usize, usize, usize)) -> (r: T)
        requires
            self.wf(),
            inside(self.points(), (p.0 as int, p.1 as int, p.2 as int)),
        ensures
            r == self.node_value(half, o, (p.0 as int, p.1 as int, p.2 as int)),
    {
        let i: usize = pick(p, o);
        if i == 0 {
            self.e_sample(o, p)
        } else if i >= self.extent(o) - 1 {
            self.e_sample(o, moved_down(p, o))
        } else {
            half.times(self.e_sample(o, moved_down(p, o)).plus(self.e_sample(o, p)))
        }
    }

    /// The node that a slice shows at row `u`, column `v`.
    pub open spec fn slice_node(&self, axis: Axis, index: int, u: int, v: int) -> (int, int, int) {
        let last = coord(self.points(), axis) - 1;
        let w = if index < last {
            index
        } else {
            last
        };
        match axis {
            Axis::X => (w, u, v),
            Axis::Y => (u, w, v),
            Axis::Z => (u, v, w),
        }
    }

    /// Rows and columns of a slice: the two remaining axes in x, y, z order.
    pub open spec fn slice_dims(&self, axis: Axis) -> (int, int) {
        match axis {
            Axis::X => (self.ny as int, self.nz as int),
            Axis::Y => (self.nx as int, self.nz as int),
            Axis::Z => (self.nx as int, self.ny as int),
        }
    }

    /// Ez as a slice shows it at a node: the last sample stands for the wall too.
    pub open spec fn clamped_ez(&self, p: (int, int, int)) -> T {
        let k = if p.2 < self.nz - 2 {
            p.2
        } else {
            self.nz - 2
        };
        self.e(Axis::Z)[flat(e_dims(self.points(), Axis::Z), (p.0, p.1, k))]
    }

    /// Greatest magnitude of E; `size` gives the magnitude of a sample.
    pub fn max_abs_e<S: Fn(T) -> T>(&self, size: &S) -> (r: T)
        requires
            self.ex@.len() + self.ey@.len() + self.ez@.len() <= usize::MAX,
            forall|x: T| #[trigger] call_requires(size, (x,)),
        ensures
            is_peak(self.ex@ + self.ey@ + self.ez@, *size, r),
    {
        peak(&self.ex, &self.ey, &self.ez, size)
    }

    /// Extracts a 2D rendering slice normal to `axis` at sample `index`
    /// (clamped to the grid): `(n0, n1, data)` with `data[u.n1 + v]` over the
    /// two remaining axes. `magnitude` gives the length of a field vector, and
    /// `half` is the weight of the mean of two samples.
    pub fn slice<M: Fn(T, T, T) -> T>(
        &self,
        axis: Axis,
        index: usize,
        field: SliceField,
        half: T,
        magnitude: M,
    ) -> (r: (usize, usize, Vec<T>))
        requires
            self.wf(),
            forall|a: T, b: T, c: T| call_requires(magnitude, (a, b, c)),
        ensures
            (r.0 as int, r.1 as int) == self.slice_dims(axis),
            r.2@.len() == r.0 * r.1,
            forall|u: int, v: int|
                #![trigger self.slice_node(axis, index as int, u, v)]
                0 <= u < r.0 && 0 <= v < r.1 ==> ({
                    let p = self.slice_node(axis, index as int, u, v);
                    match field {
                        SliceField::Ez => r.2@[u * r.1 + v] == self.clamped_ez(p),
                        SliceField::EMag => call_ensures(
                            magnitude,
                            (
                                self.node_value(half, Axis::X, p),
                                self.node_value(half, Axis::Y, p),
                                self.node_value(half, Axis::Z, p),
                            ),
                            r.2@[u * r.1 + v],
                        ),
                    }
                }),
    {
        let (n0, n1): (usize, usize) = match axis {
            Axis::X => (self.ny, self.nz),
            Axis::Y => (self.nx, self.nz),
            Axis::Z => (self.nx, self.ny),
        };
        let last: usize = self.extent(axis) - 1;
        let w: usize = if index < last {
            index
        } else {
            last
        };
        proof {
            lemma_slice_fits(self.points());
        }
        let total: usize = n0 * n1;
        let mut data: Vec<T> = Vec::new();
        let mut q: usize = 0;
        while q < total
            invariant
                q <= total,
                total == n0 * n1,
                n1 >= 1,
                self.wf(),
                (n0 as int, n1 as int) == self.slice_dims(axis),
                last == coord(self.points(), axis) - 1,
                w == if index < last {
                    index
                } else {
                    last
                },
                data@.len() == q,
                forall|a: T, b: T, c: T| call_requires(magnitude, (a, b, c)),
                forall|m: int|
                    0 <= m < q ==> ({
                        let p = self.slice_node(axis, index as int, m / n1 as int, m % n1 as int);
                        match field {
                            SliceField::Ez => #[trigger] data@[m] == self.clamped_ez(p),
                            SliceField::EMag => call_ensures(
                                magnitude,
                                (
                                    self.node_value(half, Axis::X, p),
                                    self.node_value(half, Axis::Y, p),
                                    self.node_value(half, Axis::Z, p),
                                ),
                                data@[m],
                            ),
                        }
                    }),
            decreases total - q,
        {
            let u: usize = q / n1;
            let v: usize = q % n1;
            assert(u < n0) by {
                vstd::arithmetic::div_mod::lemma_fundamental_div_mod(q as int, n1 as int);
                assert(u < n0) by (nonlinear_arith)
                    requires
                        q == n1 * u + v,
                        0 <= v,
                        q < n0 * n1,
                        n1 >= 1,
                ;
            }
            let p: (usize, usize, usize) = match axis {
                Axis::X => (w, u, v),
                Axis::Y => (u, w, v),
                Axis::Z => (u, v, w),
            };
            assert(self.slice_node(axis, index as int, u as int, v as int) == (
                p.0 as int,
                p.1 as int,
                p.2 as int,
            ));
            let x = match field {
                SliceField::Ez => {
                    let k: usize = if p.2 < self.nz - 2 {
                        p.2
                    } else {
                        self.nz - 2
                    };
                    self.e_sample(Axis::Z, (p.0, p.1, k))
                },
                SliceField::EMag => magnitude(
                    self.e_node(half, Axis::X, p),
                    self.e_node(half, Axis::Y, p),
                    self.e_node(half, Axis::Z, p),
                ),
            };
            data.push(x);
            q += 1;
        }
        proof {
            assert forall|u: int, v: int|
                #![trigger self.slice_node(axis, index as int, u, v)]
                0 <= u < n0 && 0 <= v < n1 implies ({
                let p = self.slice_node(axis, index as int, u, v);
                match field {
                    SliceField::Ez => data@[u * n1 + v] == self.clamped_ez(p),
                    SliceField::EMag => call_ensures(
                        magnitude,
                        (
                            self.node_value(half, Axis::X, p),
                            self.node_value(half, Axis::Y, p),
                            self.node_value(half, Axis::Z, p),
                        ),
                        data@[u * n1 + v],
                    ),
                }
            }) by {
                let m = u * n1 + v;
                assert(0 <= m < total) by (nonlinear_arith)
                    requires
                        m == u * n1 + v,
                        total == n0 * n1,
                        0 <= u < n0,
                        0 <= v < n1,
                ;
                vstd::arithmetic::div_mod::lemma_fundamental_div_mod_converse(m, n1 as int, u, v);
                let x = data@[m];
            }
        }
        (n0, n1, data)
    }

    /// Every staggered lattice fits inside the lattice of integer points.
    proof fn lemma_dims(&self, o: Axis)
        requires
            self.wf(),
        ensures
            volume(e_dims(self.points(), o)) <= usize::MAX,
            volume(h_dims(self.points(), o)) <= usize::MAX,
    {
        let n = self.points();
        lemma_volume_mono(e_dims(n, o), n);
        lemma_volume_mono(h_dims(n, o), n);
    }

    #[inline(always)]
    fn e_ref(&self, o: Axis) -> (r: &Vec<T>)
        ensures
            r@ == self.e(o),
    {
        match o {
            Axis::X => &self.ex,
            Axis::Y => &self.ey,
            Axis::Z => &self.ez,
        }
    }

    #[inline(always)]
    fn h_ref(&self, o: Axis) -> (r: &Vec<T>)
        ensures
            r@ == self.h(o),
    {
        match o {
            Axis::X => &self.hx,
            Axis::Y => &self.hy,
            Axis::Z => &self.hz,
        }
    }

    #[inline(always)]
    fn ce_ref(&self, o: Axis) -> (r: &Vec<T>)
        ensures
            r@ == self.ce(o),
    {
        match o {
            Axis::X => &self.ce_x,
            Axis::Y => &self.ce_y,
            Axis::Z => &self.ce_z,
        }
    }

    #[inline(always)]
    fn cpml_ref(&self, o: Axis) -> (r: &CpmlTables<T>)
        ensures
            *r == self.cpml(o),
    {
        match o {
            Axis::X => &self.cpml_x,
            Axis::Y => &self.cpml_y,
            Axis::Z => &self.cpml_z,
        }
    }

    #[inline(always)]
    fn psi_e_ref(&self, o: Axis) -> (r: (&Vec<T>, &Vec<T>))
        ensures
            r.0@ == self.psi_e_a(o),
            r.1@ == self.psi_e_b(o),
    {
        match o {
            Axis::X => (&self.psi_ex_y, &self.psi_ex_z),
            Axis::Y => (&self.psi_ey_z, &self.psi_ey_x),
            Axis::Z => (&self.psi_ez_x, &self.psi_ez_y),
        }
    }

    #[inline(always)]
    fn psi_h_ref(&self, o: Axis) -> (r: (&Vec<T>, &Vec<T>))
        ensures
            r.0@ == self.psi_h_a(o),
            r.1@ == self.psi_h_b(o),
    {
        match o {
            Axis::X => (&self.psi_hx_y, &self.psi_hx_z),
            Axis::Y => (&self.psi_hy_z, &self.psi_hy_x),
            Axis::Z => (&self.psi_hz_x, &self.psi_hz_y),
        }
    }

    /// Integer grid points along an axis.
    #[inline(always)]
    fn extent(&self, o: Axis) -> (r: usize)
        ensures
            r == coord(self.points(), o),
    {
        match o {
            Axis::X => self.nx,
            Axis::Y => self.ny,
            Axis::Z => self.nz,
        }
    }

    #[inline(always)]
    fn e_shape(&self, o: Axis) -> (r: (usize, usize, usize))
        requires
            self.wf(),
        ensures
            (r.0 as int, r.1 as int, r.2 as int) == e_dims(self.points(), o),
    {
        match o {
            Axis::X => (self.nx - 1, self.ny, self.nz),
            Axis::Y => (self.nx, self.ny - 1, self.nz),
            Axis::Z => (self.nx, self.ny, self.nz - 1),
        }
    }

    #[inline(always)]
    fn h_shape(&self, o: Axis) -> (r: (usize, usize, usize))
        requires
            self.wf(),
        ensures
            (r.0 as int, r.1 as int, r.2 as int) == h_dims(self.points(), o),
    {
        match o {
            Axis::X => (self.nx, self.ny - 1, self.nz - 1),
            Axis::Y => (self.nx - 1, self.ny, self.nz - 1),
            Axis::Z => (self.nx - 1, self.ny - 1, self.nz),
        }
    }

    /// E along `of` at one of its samples.
    #[inline(always)]
    fn e_sample(&self, of: Axis, p: (usize, usize, usize)) -> (r: T)
        requires
            self.wf(),
            inside(e_dims(self.points(), of), (p.0 as int, p.1 as int, p.2 as int)),
        ensures
            r == self.e(of)[flat(
                e_dims(self.points(), of),
                (p.0 as int, p.1 as int, p.2 as int),
            )],
    {
        proof {
            self.lemma_dims(of);
        }
        let at: usize = flat_index(self.e_shape(of), p.0, p.1, p.2);
        self.e_ref(of)[at]
    }

    /// H along `of` at one of its samples.
    #[inline(always)]
    fn h_sample(&self, of: Axis, p: (usize, usize, usize)) -> (r: T)
        requires
            self.wf(),
            inside(h_dims(self.points(), of), (p.0 as int, p.1 as int, p.2 as int)),
        ensures
            r == self.h(of)[flat(
                h_dims(self.points(), of),
                (p.0 as int, p.1 as int, p.2 as int),
            )],
    {
        proof {
            self.lemma_dims(of);
        }
        let at: usize = flat_index(self.h_shape(of), p.0, p.1, p.2);
        self.h_ref(of)[at]
    }

    /// H along `o` at one sample after a half step, with its memory.
    #[inline(always)]
    fn h_cell(&self, o: Axis, i: usize, j: usize, k: usize) -> (r: (T, T, T))
        requires
            self.wf(),
            inside(h_dims(self.points(), o), (i as int, j as int, k as int)),
        ensures
            r == self.h_next(o, (i as int, j as int, k as int)),
    {
        proof {
            self.lemma_dims(o);
        }
        let (a, b) = (o.next(), o.next().next());
        let at: usize = flat_index(self.h_shape(o), i, j, k);
        let q: (usize, usize, usize) = (i, j, k);
        let (ca, cb): (usize, usize) = (pick(q, a), pick(q, b));
        let (ta, tb) = (&self.cpml_ref(a).h, &self.cpml_ref(b).h);
        let psi = self.psi_h_ref(o);
        let da = self.e_sample(b, moved_up(q, a)).minus(self.e_sample(b, q));
        let db = self.e_sample(a, moved_up(q, b)).minus(self.e_sample(a, q));
        let in_a = in_strip_h(ca, self.extent(a) - 1, self.npml);
        let in_b = in_strip_h(cb, self.extent(b) - 1, self.npml);
        let curl = da.times(ta.inv_k[ca]).minus(db.times(tb.inv_k[cb]));
        let mut h = self.h_ref(o)[at].minus(self.dt.times(curl));
        let mut pa = psi.0[at];
        if in_a {
            pa = ta.b[ca].times(pa).plus(ta.c[ca].times(da));
            h = h.minus(self.dt.times(pa));
        }
        let mut pb = psi.1[at];
        if in_b {
            pb = tb.b[cb].times(pb).plus(tb.c[cb].times(db));
            h = h.plus(self.dt.times(pb));
        }
        (h, pa, pb)
    }

    /// E along `o` at one sample after a full step, with its memory.
    #[inline(always)]
    fn e_cell(&self, o: Axis, i: usize, j: usize, k: usize) -> (r: (T, T, T))
        requires
            self.wf(),
            inside(e_dims(self.points(), o), (i as int, j as int, k as int)),
        ensures
            r == self.e_next(o, (i as int, j as int, k as int)),
    {
        proof {
            self.lemma_dims(o);
        }
        let (a, b) = (o.next(), o.next().next());
        let at: usize = flat_index(self.e_shape(o), i, j, k);
        let q: (usize, usize, usize) = (i, j, k);
        let (ca, cb): (usize, usize) = (pick(q, a), pick(q, b));
        let (na, nb): (usize, usize) = (self.extent(a), self.extent(b));
        let psi = self.psi_e_ref(o);
        let mut e = self.e_ref(o)[at];
        let mut pa = psi.0[at];
        let mut pb = psi.1[at];
        if ca < 1 || ca >= na - 1 || cb < 1 || cb >= nb - 1 {
            return (e, pa, pb);
        }
        let (ta, tb) = (&self.cpml_ref(a).e, &self.cpml_ref(b).e);
        let ce = self.ce_ref(o)[at];
        let da = self.h_sample(b, q).minus(self.h_sample(b, moved_down(q, a)));
        let db = self.h_sample(a, q).minus(self.h_sample(a, moved_down(q, b)));
        let curl = da.times(ta.inv_k[ca]).minus(db.times(tb.inv_k[cb]));
        e = e.plus(ce.times(curl));
        if in_strip_e(ca, na, self.npml) {
            pa = ta.b[ca].times(pa).plus(ta.c[ca].times(da));
            e = e.plus(ce.times(pa));
        }
        if in_strip_e(cb, nb, self.npml) {
            pb = tb.b[cb].times(pb).plus(tb.c[cb].times(db));
            e = e.minus(ce.times(pb));
        }
        (e, pa, pb)
    }

    /// Whether a step is handed out to the thread pool.
    fn parallel(&self) -> (r: bool)
        requires
            self.wf(),
        ensures
            r == (self.nx * self.ny * self.nz >= PAR_MIN_CELLS),
    {
        proof {
            assert(self.nx * self.ny <= self.nx * self.ny * self.nz) by (nonlinear_arith)
                requires
                    self.nz >= 1,
                    0 <= self.nx * self.ny,
            ;
            assert(0 <= self.nx * self.ny) by (nonlinear_arith)
                requires
                    self.nx >= 0,
                    self.ny >= 0,
            ;
        }
        self.nx * self.ny * self.nz >= PAR_MIN_CELLS
    }

    /// `r` holds every H sample along `o` after a half step, with both memories.
    pub open spec fn h_renewed(&self, o: Axis, r: &Arrays<T>) -> bool {
        let d = h_dims(self.points(), o);
        &&& r.0@.len() == volume(d)
        &&& r.1@.len() == volume(d)
        &&& r.2@.len() == volume(d)
        &&& forall|p: (int, int, int)|
            inside(d, p) ==> ({
                let at = flat(d, p);
                (r.0@[at], r.1@[at], r.2@[at]) == #[trigger] self.h_next(o, p)
            })
    }

    /// Every H sample along `o` as `cell` gives it.
    fn h_swept<F: Fn(usize, usize, usize) -> Triple<T>>(
        &self,
        o: Axis,
        cell: F,
    ) -> (r: Arrays<T>)
        requires
            self.wf(),
            forall|i: usize, j: usize, k: usize|
                inside(h_dims(self.points(), o), (i as int, j as int, k as int))
                    ==> #[trigger] call_requires(cell, (i, j, k)),
            forall|i: usize, j: usize, k: usize, t: Triple<T>|
                inside(h_dims(self.points(), o), (i as int, j as int, k as int))
                    && #[trigger] call_ensures(cell, (i, j, k), t) ==> t == self.h_next(
                    o,
                    (i as int, j as int, k as int),
                ),
        ensures
            self.h_renewed(o, &r),
    {
        proof {
            self.lemma_dims(o);
        }
        let r = sweep(self.h_shape(o), cell);
        proof {
            assert forall|p: (int, int, int)| inside(h_dims(self.points(), o), p) implies ({
                let at = flat(h_dims(self.points(), o), p);
                (r.0@[at], r.1@[at], r.2@[at]) == #[trigger] self.h_next(o, p)
            }) by {
                let (i, j, k) = (p.0 as usize, p.1 as usize, p.2 as usize);
                assert(p == (i as int, j as int, k as int));
                let at = flat(h_dims(self.points(), o), (i as int, j as int, k as int));
                assert(call_ensures(cell, (i, j, k), (r.0@[at], r.1@[at], r.2@[at])));
            }
        }
        r
    }

    /// Every H sample along `o` after a half step, with both memories.
    fn h_component(&self, o: Axis) -> (r: Arrays<T>)
        requires
            self.wf(),
        ensures
            self.h_renewed(o, &r),
    {
        match o {
            Axis::X => {
                let cell = |i: usize, j: usize, k: usize| -> (t: Triple<T>)
                    requires
                        self.wf(),
                        inside(h_dims(self.points(), Axis::X), (i as int, j as int, k as int)),
                    ensures
                        t == self.h_next(Axis::X, (i as int, j as int, k as int)),
                    { self.h_cell(Axis::X, i, j, k) };
                self.h_swept(Axis::X, cell)
            },
            Axis::Y => {
                let cell = |i: usize, j: usize, k: usize| -> (t: Triple<T>)
                    requires
                        self.wf(),
                        inside(h_dims(self.points(), Axis::Y), (i as int, j as int, k as int)),
                    ensures
                        t == self.h_next(Axis::Y, (i as int, j as int, k as int)),
                    { self.h_cell(Axis::Y, i, j, k) };
                self.h_swept(Axis::Y, cell)
            },
            Axis::Z => {
                let cell = |i: usize, j: usize, k: usize| -> (t: Triple<T>)
                    requires
                        self.wf(),
                        inside(h_dims(self.points(), Axis::Z), (i as int, j as int, k as int)),
                    ensures
                        t == self.h_next(Axis::Z, (i as int, j as int, k as int)),
                    { self.h_cell(Axis::Z, i, j, k) };
                self.h_swept(Axis::Z, cell)
            },
        }
    }

    /// `r` holds every E sample along `o` after a full step, with both memories.
    pub open spec fn e_renewed(&self, o: Axis, r: &Arrays<T>) -> bool {
        let d = e_dims(self.points(), o);
        &&& r.0@.len() == volume(d)
        &&& r.1@.len() == volume(d)
        &&& r.2@.len() == volume(d)
        &&& forall|p: (int, int, int)|
            inside(d, p) ==> ({
                let at = flat(d, p);
                (r.0@[at], r.1@[at], r.2@[at]) == #[trigger] self.e_next(o, p)
            })
    }

    /// Every E sample along `o` as `cell` gives it.
    fn e_swept<F: Fn(usize, usize, usize) -> Triple<T>>(
        &self,
        o: Axis,
        cell: F,
    ) -> (r: Arrays<T>)
        requires
            self.wf(),
            forall|i: usize, j: usize, k: usize|
                inside(e_dims(self.points(), o), (i as int, j as int, k as int))
                    ==> #[trigger] call_requires(cell, (i, j, k)),
            forall|i: usize, j: usize, k: usize, t: Triple<T>|
                inside(e_dims(self.points(), o), (i as int, j as int, k as int))
                    && #[trigger] call_ensures(cell, (i, j, k), t) ==> t == self.e_next(
                    o,
                    (i as int, j as int, k as int),
                ),
        ensures
            self.e_renewed(o, &r),
    {
        proof {
            self.lemma_dims(o);
        }
        let r = sweep(self.e_shape(o), cell);
        proof {
            assert forall|p: (int, int, int)| inside(e_dims(self.points(), o), p) implies ({
                let at = flat(e_dims(self.points(), o), p);
                (r.0@[at], r.1@[at], r.2@[at]) == #[trigger] self.e_next(o, p)
            }) by {
                let (i, j, k) = (p.0 as usize, p.1 as usize, p.2 as usize);
                assert(p == (i as int, j as int, k as int));
                let at = flat(e_dims(self.points(), o), (i as int, j as int, k as int));
                assert(call_ensures(cell, (i, j, k), (r.0@[at], r.1@[at], r.2@[at])));
            }
        }
        r
    }

    /// Every E sample along `o` after a full step, with both memories.
    fn e_component(&self, o: Axis) -> (r: Arrays<T>)
        requires
            self.wf(),
        ensures
            self.e_renewed(o, &r),
    {
        match o {
            Axis::X => {
                let cell = |i: usize, j: usize, k: usize| -> (t: Triple<T>)
                    requires
                        self.wf(),
                        inside(e_dims(self.points(), Axis::X), (i as int, j as int, k as int)),
                    ensures
                        t == self.e_next(Axis::X, (i as int, j as int, k as int)),
                    { self.e_cell(Axis::X, i, j, k) };
                self.e_swept(Axis::X, cell)
            },
            Axis::Y => {
                let cell = |i: usize, j: usize, k: usize| -> (t: Triple<T>)
                    requires
                        self.wf(),
                        inside(e_dims(self.points(), Axis::Y), (i as int, j as int, k as int)),
                    ensures
                        t == self.e_next(Axis::Y, (i as int, j as int, k as int)),
                    { self.e_cell(Axis::Y, i, j, k) };
                self.e_swept(Axis::Y, cell)
            },
            Axis::Z => {
                let cell = |i: usize, j: usize, k: usize| -> (t: Triple<T>)
                    requires
                        self.wf(),
                        inside(e_dims(self.points(), Axis::Z), (i as int, j as int, k as int)),
                    ensures
                        t == self.e_next(Axis::Z, (i as int, j as int, k as int)),
                    { self.e_cell(Axis::Z, i, j, k) };
                self.e_swept(Axis::Z, cell)
            },
        }
    }

    /// All three H components after a half step; with enough samples they are
    /// computed side by side.
    fn h_components(&self) -> (r: (Arrays<T>, Arrays<T>, Arrays<T>))
        requires
            self.wf(),
        ensures
            self.h_renewed(Axis::X, &r.0),
            self.h_renewed(Axis::Y, &r.1),
            self.h_renewed(Axis::Z, &r.2),
    {
        let one = |n: usize| -> (r: Arrays<T>)
            requires
                self.wf(),
                n < 3,
            ensures
                self.h_renewed(axis_of(n as int), &r),
            {
                if n == 0 {
                    self.h_component(Axis::X)
                } else if n == 1 {
                    self.h_component(Axis::Y)
                } else {
                    self.h_component(Axis::Z)
                }
            };
        let mut all = map_indexed(self.parallel(), 3, 1, one);
        proof {
            assert(call_ensures(one, (0usize,), all@[0]));
            assert(call_ensures(one, (1usize,), all@[1]));
            assert(call_ensures(one, (2usize,), all@[2]));
        }
        let (mut x, mut y, mut z): (Arrays<T>, Arrays<T>, Arrays<T>) = (
            (Vec::new(), Vec::new(), Vec::new()),
            (Vec::new(), Vec::new(), Vec::new()),
            (Vec::new(), Vec::new(), Vec::new()),
        );
        std::mem::swap(&mut all[0], &mut x);
        std::mem::swap(&mut all[1], &mut y);
        std::mem::swap(&mut all[2], &mut z);
        (x, y, z)
    }

    /// H half-step: all three H components from the curl of E, plus the CPML
    /// memory recursions.
    pub fn update_h(&mut self)
        requires
            old(self).wf(),
        ensures
            final(self).wf(),
            final(self).same_setup(old(self)),
            final(self).same_e(old(self)),
            old(self).h_stepped(final(self)),
    {
        let (x, y, z) = self.h_components();
        self.hx = x.0;
        self.psi_hx_y = x.1;
        self.psi_hx_z = x.2;
        self.hy = y.0;
        self.psi_hy_z = y.1;
        self.psi_hy_x = y.2;
        self.hz = z.0;
        self.psi_hz_x = z.1;
        self.psi_hz_y = z.2;
        proof {
            assert(self.same_setup(old(self)));
            assert(self.same_e(old(self)));
            assert forall|o: Axis|
                #![trigger self.e(o)]
                #![trigger self.ce(o)]
                #![trigger self.psi_e_a(o)]
                #![trigger self.psi_e_b(o)]
                {
                    &&& self.e(o).len() == volume(e_dims(self.points(), o))
                    &&& self.ce(o).len() == volume(e_dims(self.points(), o))
                    &&& self.psi_e_a(o).len() == volume(e_dims(self.points(), o))
                    &&& self.psi_e_b(o).len() == volume(e_dims(self.points(), o))
                } by {
                assert(old(self).e(o).len() == volume(e_dims(self.points(), o)));
                assert(self.e(o) == old(self).e(o));
                assert(self.ce(o) == old(self).ce(o));
            }
            assert forall|o: Axis| #![trigger self.cpml(o)] {
                &&& self.cpml(o).e.covers(coord(self.points(), o))
                &&& self.cpml(o).h.covers(coord(self.points(), o) - 1)
            } by {
                assert(old(self).cpml(o) == self.cpml(o));
            }
        }
    }

    /// All three E components after a full step; with enough samples they are
    /// computed side by side.
    fn e_components(&self) -> (r: (Arrays<T>, Arrays<T>, Arrays<T>))
        requires
            self.wf(),
        ensures
            self.e_renewed(Axis::X, &r.0),
            self.e_renewed(Axis::Y, &r.1),
            self.e_renewed(Axis::Z, &r.2),
    {
        let one = |n: usize| -> (r: Arrays<T>)
            requires
                self.wf(),
                n < 3,
            ensures
                self.e_renewed(axis_of(n as int), &r),
            {
                if n == 0 {
                    self.e_component(Axis::X)
                } else if n == 1 {
                    self.e_component(Axis::Y)
                } else {
                    self.e_component(Axis::Z)
                }
            };
        let mut all = map_indexed(self.parallel(), 3, 1, one);
        proof {
            assert(call_ensures(one, (0usize,), all@[0]));
            assert(call_ensures(one, (1usize,), all@[1]));
            assert(call_ensures(one, (2usize,), all@[2]));
        }
        let (mut x, mut y, mut z): (Arrays<T>, Arrays<T>, Arrays<T>) = (
            (Vec::new(), Vec::new(), Vec::new()),
            (Vec::new(), Vec::new(), Vec::new()),
            (Vec::new(), Vec::new(), Vec::new()),
        );
        std::mem::swap(&mut all[0], &mut x);
        std::mem::swap(&mut all[1], &mut y);
        std::mem::swap(&mut all[2], &mut z);
        (x, y, z)
    }

    /// E full step: all three E components from the curl of H, plus the CPML
    /// memory recursions. Tangential E on the outer boundary never changes.
    pub fn update_e(&mut self)
        requires
            old(self).wf(),
        ensures
            final(self).wf(),
            final(self).same_setup(old(self)),
            final(self).same_h(old(self)),
            old(self).e_stepped(final(self)),
    {
        let (x, y, z) = self.e_components();
        self.ex = x.0;
        self.psi_ex_y = x.1;
        self.psi_ex_z = x.2;
        self.ey = y.0;
        self.psi_ey_z = y.1;
        self.psi_ey_x = y.2;
        self.ez = z.0;
        self.psi_ez_x = z.1;
        self.psi_ez_y = z.2;
        proof {
            assert(self.same_setup(old(self)));
            assert(self.same_h(old(self)));
            assert forall|o: Axis|
                #![trigger self.e(o)]
                #![trigger self.ce(o)]
                #![trigger self.psi_e_a(o)]
                #![trigger self.psi_e_b(o)]
                {
                    &&& self.e(o).len() == volume(e_dims(self.points(), o))
                    &&& self.ce(o).len() == volume(e_dims(self.points(), o))
                    &&& self.psi_e_a(o).len() == volume(e_dims(self.points(), o))
                    &&& self.psi_e_b(o).len() == volume(e_dims(self.points(), o))
                } by {
                assert(old(self).e(o).len() == volume(e_dims(self.points(), o)));
                assert(self.ce(o) == old(self).ce(o));
            }
            assert forall|o: Axis|
                #![trigger self.h(o)]
                #![trigger self.psi_h_a(o)]
                #![trigger self.psi_h_b(o)]
                {
                    &&& self.h(o).len() == volume(h_dims(self.points(), o))
                    &&& self.psi_h_a(o).len() == volume(h_dims(self.points(), o))
                    &&& self.psi_h_b(o).len() == volume(h_dims(self.points(), o))
                } by {
                assert(old(self).h(o).len() == volume(h_dims(self.points(), o)));
                assert(self.h(o) == old(self).h(o));
            }
            assert forall|o: Axis| #![trigger self.cpml(o)] {
                &&& self.cpml(o).e.covers(coord(self.points(), o))
                &&& self.cpml(o).h.covers(coord(self.points(), o) - 1)
            } by {
                assert(old(self).cpml(o) == self.cpml(o));
            }
        }
    }
}

/// `n` samples of `zero`.
pub open spec fn quiet<T: Scalar>(n: int) -> Seq<T> {
    Seq::new(n as nat, |i: int| T::zero_value())
}

/// Samples of a box inside the grid.
fn box_samples(spec: &Grid3Spec, a: usize, b: usize, c: usize) -> (r: usize)
    requires
        spec.valid(),
        a <= spec.nx,
        b <= spec.ny,
        1 <= c <= spec.nz,
    ensures
        r == volume((a as int, b as int, c as int)),
{
    proof {
        lemma_volume_mono(
            (a as int, b as int, c as int),
            (spec.nx as int, spec.ny as int, spec.nz as int),
        );
        assert(0 <= a * b <= a * b * c) by (nonlinear_arith)
            requires
                0 <= a,
                0 <= b,
                1 <= c,
        ;
    }
    a * b * c
}

/// No face of the grid has more samples than the grid.
proof fn lemma_slice_fits(n: (int, int, int))
    requires
        n.0 >= 1,
        n.1 >= 1,
        n.2 >= 1,
    ensures
        n.1 * n.2 <= volume(n),
        n.0 * n.2 <= volume(n),
        n.0 * n.1 <= volume(n),
{
    let (x, y, z) = n;
    lemma_volume_mono((1, y, z), n);
    lemma_volume_mono((x, 1, z), n);
    lemma_volume_mono((x, y, 1), n);
    assert(1 * y * z == y * z && x * 1 * z == x * z && x * y * 1 == x * y) by (nonlinear_arith);
}

/// Tangential E on the walls never changes: at a sample that is not free a
/// full step leaves E and both of its memories as they were.
pub proof fn walls_hold<T: Scalar>(
    before: &Grid3d<T>,
    after: &Grid3d<T>,
    o: Axis,
    p: (int, int, int),
)
    requires
        before.wf(),
        before.e_stepped(after),
        inside(e_dims(before.points(), o), p),
        !before.e_free(o, p),
    ensures
        after.e(o)[flat(e_dims(before.points(), o), p)] == before.e(o)[flat(
            e_dims(before.points(), o),
            p,
        )],
{
    assert(before.e_next(o, p) == before.e_next(o, p));
}

/// Without absorbing layers no memory variable ever changes: the grid is a
/// conducting box and nothing else.
pub proof fn box_has_no_memory<T: Scalar>(
    before: &Grid3d<T>,
    after_h: &Grid3d<T>,
    after_e: &Grid3d<T>,
    o: Axis,
)
    requires
        before.wf(),
        before.npml == 0,
        after_h.wf(),
        after_h.points() == before.points(),
        after_e.wf(),
        after_e.points() == before.points(),
        before.h_stepped(after_h),
        before.e_stepped(after_e),
    ensures
        after_h.psi_h_a(o) == before.psi_h_a(o),
        after_h.psi_h_b(o) == before.psi_h_b(o),
        after_e.psi_e_a(o) == before.psi_e_a(o),
        after_e.psi_e_b(o) == before.psi_e_b(o),
{
    let n = before.points();
    let dh = h_dims(n, o);
    let de = e_dims(n, o);
    assert(after_h.h(o).len() == before.h(o).len());
    assert(after_e.e(o).len() == before.e(o).len());
    assert forall|at: int| 0 <= at < volume(dh) implies after_h.psi_h_a(o)[at]
        == before.psi_h_a(o)[at] && after_h.psi_h_b(o)[at] == before.psi_h_b(o)[at] by {
        lemma_at_place(dh, at);
        let p = at_place(dh, at);
        assert(before.h_next(o, p) == before.h_next(o, p));
    }
    assert forall|at: int| 0 <= at < volume(de) implies after_e.psi_e_a(o)[at]
        == before.psi_e_a(o)[at] && after_e.psi_e_b(o)[at] == before.psi_e_b(o)[at] by {
        lemma_at_place(de, at);
        let p = at_place(de, at);
        assert(before.e_next(o, p) == before.e_next(o, p));
    }
    assert(after_h.psi_h_a(o) =~= before.psi_h_a(o));
    assert(after_h.psi_h_b(o) =~= before.psi_h_b(o));
    assert(after_e.psi_e_a(o) =~= before.psi_e_a(o));
    assert(after_e.psi_e_b(o) =~= before.psi_e_b(o));
}

/// A step is bit-reproducible: whatever the number of threads and however the
/// planes are grouped, two H updates of one grid end in the same samples and
/// memories, and so do two E updates.
pub proof fn updates_are_reproducible<T: Scalar>(
    before: &Grid3d<T>,
    one: &Grid3d<T>,
    two: &Grid3d<T>,
)
    requires
        before.wf(),
        one.wf(),
        two.wf(),
        one.points() == before.points(),
        two.points() == before.points(),
    ensures
        before.h_stepped(one) && before.h_stepped(two) ==> one.same_h(two),
        before.e_stepped(one) && before.e_stepped(two) ==> one.same_e(two),
{
    let n = before.points();
    if before.h_stepped(one) && before.h_stepped(two) {
        assert forall|o: Axis|
            #![trigger one.h(o)]
            #![trigger one.psi_h_a(o)]
            #![trigger one.psi_h_b(o)]
            {
                &&& one.h(o) == two.h(o)
                &&& one.psi_h_a(o) == two.psi_h_a(o)
                &&& one.psi_h_b(o) == two.psi_h_b(o)
            } by {
            let d = h_dims(n, o);
            assert(one.h(o).len() == volume(d) && two.h(o).len() == volume(d));
            assert forall|at: int| 0 <= at < volume(d) implies one.h(o)[at] == two.h(o)[at]
                && one.psi_h_a(o)[at] == two.psi_h_a(o)[at] && one.psi_h_b(o)[at]
                == two.psi_h_b(o)[at] by {
                lemma_at_place(d, at);
                let p = at_place(d, at);
                assert(before.h_next(o, p) == before.h_next(o, p));
            }
            assert(one.h(o) =~= two.h(o));
            assert(one.psi_h_a(o) =~= two.psi_h_a(o));
            assert(one.psi_h_b(o) =~= two.psi_h_b(o));
        }
    }
    if before.e_stepped(one) && before.e_stepped(two) {
        assert forall|o: Axis|
            #![trigger one.e(o)]
            #![trigger one.psi_e_a(o)]
            #![trigger one.psi_e_b(o)]
            {
                &&& one.e(o) == two.e(o)
                &&& one.psi_e_a(o) == two.psi_e_a(o)
                &&& one.psi_e_b(o) == two.psi_e_b(o)
            } by {
            let d = e_dims(n, o);
            assert(one.e(o).len() == volume(d) && two.e(o).len() == volume(d));
            assert forall|at: int| 0 <= at < volume(d) implies one.e(o)[at] == two.e(o)[at]
                && one.psi_e_a(o)[at] == two.psi_e_a(o)[at] && one.psi_e_b(o)[at]
                == two.psi_e_b(o)[at] by {
                lemma_at_place(d, at);
                let p = at_place(d, at);
                assert(before.e_next(o, p) == before.e_next(o, p));
            }
            assert(one.e(o) =~= two.e(o));
            assert(one.psi_e_a(o) =~= two.psi_e_a(o));
            assert(one.psi_e_b(o) =~= two.psi_e_b(o));
        }
    }
}

/// Whether a half-position sample lies in an absorbing strip.
#[inline(always)]
pub(crate) fn in_strip_h(i: usize, n_h: usize, npml: usize) -> (r: bool)
    requires
        npml <= n_h,
    ensures
        r == strip_h(i as int, n_h as int, npml as int),
{
    i < npml || i >= n_h - npml
}

/// Whether an integer-position sample lies in an absorbing strip.
#[inline(always)]
pub(crate) fn in_strip_e(i: usize, n: usize, npml: usize) -> (r: bool)
    requires
        npml < n,
        i < n,
    ensures
        r == strip_e(i as int, n as int, npml as int),
{
    (i >= 1 && i < npml) || (i >= n - npml && i < n - 1)
}

/// Coordinate of a sample along an axis.
#[inline(always)]
fn pick(p: (usize, usize, usize), a: Axis) -> (r: usize)
    ensures
        r == coord((p.0 as int, p.1 as int, p.2 as int), a),
{
    match a {
        Axis::X => p.0,
        Axis::Y => p.1,
        Axis::Z => p.2,
    }
}

/// The next sample along an axis.
#[inline(always)]
fn moved_up(p: (usize, usize, usize), a: Axis) -> (r: (usize, usize, usize))
    requires
        coord((p.0 as int, p.1 as int, p.2 as int), a) < usize::MAX,
    ensures
        (r.0 as int, r.1 as int, r.2 as int) == shifted(
            (p.0 as int, p.1 as int, p.2 as int),
            a,
            1,
        ),
{
    match a {
        Axis::X => (p.0 + 1, p.1, p.2),
        Axis::Y => (p.0, p.1 + 1, p.2),
        Axis::Z => (p.0, p.1, p.2 + 1),
    }
}

/// The previous sample along an axis.
#[inline(always)]
fn moved_down(p: (usize, usize, usize), a: Axis) -> (r: (usize, usize, usize))
    requires
        coord((p.0 as int, p.1 as int, p.2 as int), a) >= 1,
    ensures
        (r.0 as int, r.1 as int, r.2 as int) == shifted(
            (p.0 as int, p.1 as int, p.2 as int),
            a,
            -1,
        ),
{
    match a {
        Axis::X => (p.0 - 1, p.1, p.2),
        Axis::Y => (p.0, p.1 - 1, p.2),
        Axis::Z => (p.0, p.1, p.2 - 1),
    }
}

/// A lattice that is no longer along any axis has no more samples.
pub proof fn lemma_volume_mono(d: (int, int, int), n: (int, int, int))
    requires
        0 <= d.0 <= n.0,
        0 <= d.1 <= n.1,
        0 <= d.2 <= n.2,
    ensures
        volume(d) <= volume(n),
{
    let (a, b, c) = d;
    let (x, y, z) = n;
    assert(0 <= a * b <= x * y) by (nonlinear_arith)
        requires
            0 <= a <= x,
            0 <= b <= y,
    ;
    assert(a * b * c <= x * y * z) by (nonlinear_arith)
        requires
            0 <= a * b <= x * y,
            0 <= c <= z,
    ;
}

} // verus!
