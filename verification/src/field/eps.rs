//! Permittivity layouts.

use crate::field::grid::{cell, lemma_cell};
use crate::field::grid3::{e_dims, Axis};
use crate::field::lattice::{at_place, volume};
use crate::field::mode::SlabWaveguide;
use crate::scalar::Scalar;
use vstd::arithmetic::div_mod::lemma_fundamental_div_mod_converse;
use vstd::prelude::*;

verus! {

/// A device section of a waveguide: the permittivity of every row of columns
/// `i0 <= i < i1` is shifted by `delta`.
#[derive(Debug, Clone, Copy)]
pub struct DeviceSection<T> {
    pub delta: T,
    /// First column of the section.
    pub i0: usize,
    /// One past the last column of the section.
    pub i1: usize,
}

/// Relative permittivity over a 2D grid.
#[derive(Debug, Clone, Copy)]
pub enum EpsSpec<T> {
    /// The same everywhere.
    Uniform { eps_r: T },
    /// A vertical slab: `eps_r` in columns `i0 <= i < i1`.
    Slab { eps_r: T, i0: usize, i1: usize, background: T },
    /// A horizontal waveguide: core `eps_r` in rows `j0 <= j < j1`, plus an
    /// optional device section.
    WaveguideX {
        eps_r: T,
        j0: usize,
        j1: usize,
        background: T,
        device: Option<DeviceSection<T>>,
    },
}

impl<T: Scalar> EpsSpec<T> {
    /// Relative permittivity of cell (i, j).
    pub open spec fn eps_at(self, i: int, j: int) -> T {
        match self {
            EpsSpec::Uniform { eps_r } => eps_r,
            EpsSpec::Slab { eps_r, i0, i1, background } => if i0 <= i < i1 {
                eps_r
            } else {
                background
            },
            EpsSpec::WaveguideX { eps_r, j0, j1, background, device } => {
                let base = if j0 <= j < j1 {
                    eps_r
                } else {
                    background
                };
                match device {
                    Some(d) => if d.i0 <= i < d.i1 {
                        base.sum(d.delta)
                    } else {
                        base
                    },
                    None => base,
                }
            },
        }
    }

    fn value(&self, i: usize, j: usize) -> (r: T)
        ensures
            r == self.eps_at(i as int, j as int),
    {
        match *self {
            EpsSpec::Uniform { eps_r } => eps_r,
            EpsSpec::Slab { eps_r, i0, i1, background } => if i0 <= i && i < i1 {
                eps_r
            } else {
                background
            },
            EpsSpec::WaveguideX { eps_r, j0, j1, background, device } => {
                let base = if j0 <= j && j < j1 {
                    eps_r
                } else {
                    background
                };
                match device {
                    Some(d) => if d.i0 <= i && i < d.i1 {
                        base.plus(d.delta)
                    } else {
                        base
                    },
                    None => base,
                }
            },
        }
    }

    /// Permittivity of every cell, row by row.
    pub fn build(&self, nx: usize, ny: usize) -> (r: Vec<T>)
        requires
            nx * ny <= usize::MAX,
        ensures
            r@.len() == nx * ny,
            forall|i: int, j: int|
                0 <= i < nx && 0 <= j < ny ==> r@[#[trigger] cell(ny as int, i, j)] == self.eps_at(
                    i,
                    j,
                ),
    {
        let n: usize = nx * ny;
        let mut r: Vec<T> = Vec::new();
        let mut q: usize = 0;
        while q < n
            invariant
                q <= n,
                n == nx * ny,
                r@.len() == q,
                forall|m: int|
                    0 <= m < q ==> #[trigger] r@[m] == self.eps_at(m / ny as int, m % ny as int),
            decreases n - q,
        {
            assert(ny > 0) by (nonlinear_arith)
                requires
                    0 <= q < nx * ny,
                    0 <= nx,
                    0 <= ny,
            ;
            r.push(self.value(q / ny, q % ny));
            q += 1;
        }
        assert forall|i: int, j: int| 0 <= i < nx && 0 <= j < ny implies r@[#[trigger] cell(
            ny as int,
            i,
            j,
        )] == self.eps_at(i, j) by {
            lemma_cell(nx as int, ny as int, i, j);
            lemma_fundamental_div_mod_converse(cell(ny as int, i, j), ny as int, i, j);
        }
        r
    }

    /// The layout with its device removed.
    pub open spec fn bare(self) -> EpsSpec<T> {
        match self {
            EpsSpec::WaveguideX { eps_r, j0, j1, background, device } => EpsSpec::WaveguideX {
                eps_r,
                j0,
                j1,
                background,
                device: None,
            },
            other => other,
        }
    }

    /// The reference layout of an extraction: a waveguide without its device;
    /// every other layout is its own reference.
    pub fn reference(&self) -> (r: EpsSpec<T>)
        ensures
            r == self.bare(),
    {
        match *self {
            EpsSpec::WaveguideX { eps_r, j0, j1, background, device } => EpsSpec::WaveguideX {
                eps_r,
                j0,
                j1,
                background,
                device: None,
            },
            other => other,
        }
    }

    /// The transverse waveguide problem of a waveguide layout whose core has
    /// rows and exceeds its cladding: core rows j0..j1 hold Ez points, so the
    /// core has half-width (j1 - j0)/2 about the line (j0 + j1)/2 - 1/2.
    pub open spec fn guide(self) -> Option<(SlabWaveguide<T>, T)> {
        let (one, two) = (T::of_count(1), T::of_count(2));
        match self {
            EpsSpec::WaveguideX { eps_r, j0, j1, background, device } => if j1 > j0
                && background.less_than(eps_r) {
                Some(
                    (
                        SlabWaveguide {
                            eps_core: eps_r,
                            eps_clad: background,
                            half_width: T::of_count((j1 - j0) as u64).quotient(two),
                        },
                        T::of_count((j0 + j1) as u64).quotient(two).difference(one.quotient(two)),
                    ),
                )
            } else {
                None
            },
            _ => None,
        }
    }

    /// The rows of the core can be added up.
    pub open spec fn countable_rows(self) -> bool {
        match self {
            EpsSpec::WaveguideX { eps_r, j0, j1, background, device } => j0 + j1 <= u64::MAX,
            _ => true,
        }
    }

    /// The transverse waveguide problem of the layout, with the line that its
    /// modes are centered on.
    pub fn slab_waveguide(&self) -> (r: Option<(SlabWaveguide<T>, T)>)
        requires
            self.countable_rows(),
        ensures
            r == self.guide(),
    {
        match *self {
            EpsSpec::WaveguideX { eps_r, j0, j1, background, device } => if j1 > j0
                && background.below(eps_r) {
                let (one, two) = (T::from_count(1), T::from_count(2));
                let guide = SlabWaveguide {
                    eps_core: eps_r,
                    eps_clad: background,
                    half_width: T::from_count((j1 - j0) as u64).over(two),
                };
                let center = T::from_count(j0 as u64 + j1 as u64).over(two).minus(one.over(two));
                Some((guide, center))
            } else {
                None
            },
            _ => None,
        }
    }
}

/// A reference has no device left: taking it again changes nothing, and
/// outside the device section it has the permittivity of the layout.
pub proof fn reference_is_bare<T: Scalar>(spec: EpsSpec<T>, i: int, j: int)
    ensures
        spec.bare().bare() == spec.bare(),
        spec.bare().guide() == spec.guide(),
        (match spec {
            EpsSpec::WaveguideX { eps_r, j0, j1, background, device: Some(d) } => !(d.i0 <= i
                < d.i1),
            _ => true,
        }) ==> spec.bare().eps_at(i, j) == spec.eps_at(i, j),
{
}

/// Relative permittivity over a 3D grid, sampled at each E component's own
/// position by its integer indices.
#[derive(Debug, Clone, Copy)]
pub enum EpsSpec3<T> {
    /// The same everywhere.
    Uniform { eps_r: T },
    /// `eps_r` inside the half-open cell box.
    Box { eps_r: T, background: T, cells: CellBox },
}

/// The half-open cell box [i0,i1) x [j0,j1) x [k0,k1).
#[derive(Debug, Clone, Copy)]
pub struct CellBox {
    pub i0: usize,
    pub i1: usize,
    pub j0: usize,
    pub j1: usize,
    pub k0: usize,
    pub k1: usize,
}

impl CellBox {
    /// Whether a sample with these integer indices lies in the box.
    pub open spec fn holds(self, p: (int, int, int)) -> bool {
        self.i0 <= p.0 < self.i1 && self.j0 <= p.1 < self.j1 && self.k0 <= p.2 < self.k1
    }

    /// Whether a sample with these integer indices lies in the box.
    pub fn contains(&self, i: usize, j: usize, k: usize) -> (r: bool)
        ensures
            r == self.holds((i as int, j as int, k as int)),
    {
        self.i0 <= i && i < self.i1 && self.j0 <= j && j < self.j1 && self.k0 <= k && k < self.k1
    }
}

impl<T: Scalar> EpsSpec3<T> {
    /// Relative permittivity at a sample.
    pub open spec fn eps_at(self, p: (int, int, int)) -> T {
        match self {
            EpsSpec3::Uniform { eps_r } => eps_r,
            EpsSpec3::Box { eps_r, background, cells } => if cells.holds(p) {
                eps_r
            } else {
                background
            },
        }
    }

    /// `v` holds the permittivity at every sample of the lattice `d`.
    pub open spec fn fills(self, d: (int, int, int), v: Seq<T>) -> bool {
        &&& v.len() == volume(d)
        &&& forall|at: int|
            0 <= at < volume(d) ==> #[trigger] v[at] == self.eps_at(at_place(d, at))
    }

    fn build_comp(&self, d: (usize, usize, usize)) -> (r: Vec<T>)
        requires
            volume((d.0 as int, d.1 as int, d.2 as int)) <= usize::MAX,
            d.0 >= 1,
            d.1 >= 1,
            d.2 >= 1,
        ensures
            self.fills((d.0 as int, d.1 as int, d.2 as int), r@),
    {
        let ghost dd = (d.0 as int, d.1 as int, d.2 as int);
        let (plane, n): (usize, usize) = lattice_sizes(d);
        let mut r: Vec<T> = Vec::new();
        let mut q: usize = 0;
        while q < n
            invariant
                q <= n,
                dd == (d.0 as int, d.1 as int, d.2 as int),
                d.2 >= 1,
                plane == d.1 * d.2,
                plane >= 1,
                n == volume(dd),
                r@.len() == q,
                forall|m: int|
                    0 <= m < q ==> #[trigger] r@[m] == self.eps_at(at_place(dd, m)),
            decreases n - q,
        {
            let x = match *self {
                EpsSpec3::Uniform { eps_r } => eps_r,
                EpsSpec3::Box { eps_r, background, cells } => if cells.contains(
                    q / plane,
                    (q % plane) / d.2,
                    (q % plane) % d.2,
                ) {
                    eps_r
                } else {
                    background
                },
            };
            r.push(x);
            q += 1;
        }
        r
    }

    /// Permittivity at the samples of each E component: shaped like Ex, Ey
    /// and Ez.
    pub fn build(&self, nx: usize, ny: usize, nz: usize) -> (r: (Vec<T>, Vec<T>, Vec<T>))
        requires
            nx >= 2,
            ny >= 2,
            nz >= 2,
            nx * ny * nz <= usize::MAX,
        ensures
            ({
                let n = (nx as int, ny as int, nz as int);
                &&& self.fills(e_dims(n, Axis::X), r.0@)
                &&& self.fills(e_dims(n, Axis::Y), r.1@)
                &&& self.fills(e_dims(n, Axis::Z), r.2@)
            }),
    {
        proof {
            let n = (nx as int, ny as int, nz as int);
            crate::field::grid3::lemma_volume_mono(e_dims(n, Axis::X), n);
            crate::field::grid3::lemma_volume_mono(e_dims(n, Axis::Y), n);
            crate::field::grid3::lemma_volume_mono(e_dims(n, Axis::Z), n);
        }
        (
            self.build_comp((nx - 1, ny, nz)),
            self.build_comp((nx, ny - 1, nz)),
            self.build_comp((nx, ny, nz - 1)),
        )
    }
}

/// Samples of a plane and of the whole of a lattice.
pub(crate) fn lattice_sizes(d: (usize, usize, usize)) -> (r: (usize, usize))
    requires
        volume((d.0 as int, d.1 as int, d.2 as int)) <= usize::MAX,
        d.0 >= 1,
        d.1 >= 1,
        d.2 >= 1,
    ensures
        r.0 == d.1 * d.2,
        r.0 >= 1,
        r.1 == volume((d.0 as int, d.1 as int, d.2 as int)),
{
    proof {
        crate::field::lattice::lemma_plane((d.0 as int, d.1 as int, d.2 as int));
        assert(d.0 * (d.1 * d.2) == d.0 * d.1 * d.2) by (nonlinear_arith);
    }
    let plane: usize = d.1 * d.2;
    (plane, d.0 * plane)
}

} // verus!
