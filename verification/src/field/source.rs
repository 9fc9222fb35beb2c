//! Soft sources: each step they add onto E, so that scattered waves pass
//! through them. The time signature of a step comes in as a sample.

use crate::field::grid::{cell, Grid2d};
use crate::field::grid3::{e_dims, Axis, Grid3d};
use crate::field::lattice::{flat, inside};
use crate::scalar::Scalar;
use vstd::prelude::*;

verus! {

/// Time signature of a source.
#[derive(Debug, Clone, Copy)]
pub enum TimeProfile<T> {
    /// exp(-((t - t0)/tau)^2).
    Gaussian { t0: T, tau: T },
    /// The Gaussian pulse times sin(omega.(t - t0)).
    ModulatedGaussian { omega: T, t0: T, tau: T },
    /// sin(omega.t) under a raised-cosine turn-on of `ramp`.
    Cw { omega: T, ramp: T },
}

/// The functions and constants that time signatures are made of.
pub struct Waveform<T, E, S, C> {
    pub exp: E,
    pub sin: S,
    pub cos: C,
    /// Half a turn.
    pub half_turn: T,
    /// One half.
    pub half: T,
}

impl<T: Scalar, E: Fn(T) -> T, S: Fn(T) -> T, C: Fn(T) -> T> Waveform<T, E, S, C> {
    /// The functions take any sample.
    pub open spec fn ready(&self) -> bool {
        &&& forall|x: T| #[trigger] call_requires(self.exp, (x,))
        &&& forall|x: T| #[trigger] call_requires(self.sin, (x,))
        &&& forall|x: T| #[trigger] call_requires(self.cos, (x,))
    }
}

impl<T: Scalar> TimeProfile<T> {
    /// `r` is the signature at `t`; `by` holds the samples taken, of the
    /// envelope and of the carrier.
    pub open spec fn valued<E: Fn(T) -> T, S: Fn(T) -> T, C: Fn(T) -> T>(
        &self,
        t: T,
        w: &Waveform<T, E, S, C>,
        r: T,
        by: (T, T),
    ) -> bool {
        let (envelope, carrier) = by;
        match *self {
            TimeProfile::Gaussian { t0, tau } => {
                let u = t.difference(t0).quotient(tau);
                call_ensures(w.exp, (u.negative().product(u),), envelope) && r == envelope
            },
            TimeProfile::ModulatedGaussian { omega, t0, tau } => {
                let u = t.difference(t0).quotient(tau);
                &&& call_ensures(w.exp, (u.negative().product(u),), envelope)
                &&& call_ensures(w.sin, (omega.product(t.difference(t0)),), carrier)
                &&& r == envelope.product(carrier)
            },
            TimeProfile::Cw { omega, ramp } => {
                let one = T::of_count(1);
                &&& call_ensures(w.sin, (omega.product(t),), carrier)
                &&& if T::zero_value().at_least(ramp) || t.at_least(ramp) {
                    r == one.product(carrier)
                } else {
                    &&& call_ensures(
                        w.cos,
                        (w.half_turn.product(t).quotient(ramp),),
                        envelope,
                    )
                    &&& r == w.half.product(one.difference(envelope)).product(carrier)
                }
            },
        }
    }

    pub open spec fn is_value<E: Fn(T) -> T, S: Fn(T) -> T, C: Fn(T) -> T>(
        &self,
        t: T,
        w: &Waveform<T, E, S, C>,
        r: T,
    ) -> bool {
        exists|by: (T, T)| #[trigger] self.valued(t, w, r, by)
    }

    /// The signature at `t`.
    pub fn eval<E: Fn(T) -> T, S: Fn(T) -> T, C: Fn(T) -> T>(
        &self,
        t: T,
        w: &Waveform<T, E, S, C>,
    ) -> (r: T)
        requires
            w.ready(),
        ensures
            self.is_value(t, w, r),
    {
        match *self {
            TimeProfile::Gaussian { t0, tau } => {
                let u = t.minus(t0).over(tau);
                let e = (w.exp)(u.opposite().times(u));
                assert(self.valued(t, w, e, (e, e)));
                e
            },
            TimeProfile::ModulatedGaussian { omega, t0, tau } => {
                let u = t.minus(t0).over(tau);
                let e = (w.exp)(u.opposite().times(u));
                let c = (w.sin)(omega.times(t.minus(t0)));
                let r = e.times(c);
                assert(self.valued(t, w, r, (e, c)));
                r
            },
            TimeProfile::Cw { omega, ramp } => {
                let one = T::from_count(1);
                if T::zero().reaches(ramp) || t.reaches(ramp) {
                    let c = (w.sin)(omega.times(t));
                    let r = one.times(c);
                    assert(self.valued(t, w, r, (c, c)));
                    r
                } else {
                    let e = (w.cos)(w.half_turn.times(t).over(ramp));
                    let c = (w.sin)(omega.times(t));
                    let r = w.half.times(one.minus(e)).times(c);
                    assert(self.valued(t, w, r, (e, c)));
                    r
                }
            },
        }
    }
}

/// Which Ez cells a source drives.
#[derive(Debug, Clone, Copy)]
pub enum SourceShape {
    /// A single cell.
    Point { i: usize, j: usize },
    /// Column `i`, rows `j0..=j1`; by default the whole interior.
    Line { i: usize, j0: Option<usize>, j1: Option<usize> },
}

impl SourceShape {
    /// Rows of the footprint, first and last, on a grid of `ny` rows.
    pub open spec fn rows(self, ny: int) -> (int, int) {
        match self {
            SourceShape::Point { i, j } => (j as int, j as int),
            SourceShape::Line { i, j0, j1 } => (
                if j0 is Some {
                    j0->0 as int
                } else {
                    1
                },
                if j1 is Some {
                    j1->0 as int
                } else {
                    ny - 2
                },
            ),
        }
    }

    pub open spec fn column(self) -> int {
        match self {
            SourceShape::Point { i, j } => i as int,
            SourceShape::Line { i, j0, j1 } => i as int,
        }
    }

    /// Whether cell (i, j) is driven.
    pub open spec fn drives(self, ny: int, i: int, j: int) -> bool {
        i == self.column() && self.rows(ny).0 <= j <= self.rows(ny).1
    }

    /// Every driven cell is a cell of the grid.
    pub open spec fn fits(self, nx: int, ny: int) -> bool {
        let (lo, hi) = self.rows(ny);
        lo <= hi ==> self.column() < nx && hi < ny
    }
}

/// Everything but Ez is as it was, and each cell of Ez has what `more` gives
/// for it on top, if anything.
pub open spec fn injected<T: Scalar>(
    before: &Grid2d<T>,
    after: &Grid2d<T>,
    more: spec_fn(int, int) -> Option<T>,
) -> bool {
    &&& after.same_setup(before)
    &&& after.same_h(before)
    &&& after.psi_ez_x@ == before.psi_ez_x@
    &&& after.psi_ez_y@ == before.psi_ez_y@
    &&& after.ez@.len() == before.ez@.len()
    &&& forall|i: int, j: int|
        #![trigger after.ez_of(i, j)]
        0 <= i < before.nx && 0 <= j < before.ny ==> after.ez_of(i, j) == (match more(i, j) {
            Some(s) => before.ez_of(i, j).sum(s),
            None => before.ez_of(i, j),
        })
}

/// A soft Ez source: footprint and amplitude.
#[derive(Debug, Clone, Copy)]
pub struct Source<T> {
    pub shape: SourceShape,
    pub amplitude: T,
}

impl<T: Scalar> Source<T> {
    /// What a source adds to a cell when its time signature is `signal`.
    pub open spec fn adds(self, ny: int, signal: T) -> spec_fn(int, int) -> Option<T> {
        |i: int, j: int|
            if self.shape.drives(ny, i, j) {
                Some(self.amplitude.product(signal))
            } else {
                None
            }
    }

    /// Adds `amplitude.signal` onto the driven cells.
    pub fn inject(&self, g: &mut Grid2d<T>, signal: T)
        requires
            old(g).wf(),
            self.shape.fits(old(g).nx as int, old(g).ny as int),
        ensures
            final(g).wf(),
            injected(old(g), final(g), self.adds(old(g).ny as int, signal)),
    {
        let s = self.amplitude.times(signal);
        let (i, lo, hi): (usize, usize, usize) = match self.shape {
            SourceShape::Point { i, j } => (i, j, j),
            SourceShape::Line { i, j0, j1 } => {
                let lo: usize = match j0 {
                    Some(j) => j,
                    None => 1,
                };
                let hi: usize = match j1 {
                    Some(j) => j,
                    None => g.ny - 2,
                };
                (i, lo, hi)
            },
        };
        if lo > hi {
            return ;
        }
        let mut j: usize = lo;
        while j <= hi
            invariant
                old(g).wf(),
                g.wf(),
                i < g.nx,
                lo <= j <= hi + 1,
                hi < g.ny,
                g.same_setup(old(g)),
                g.same_h(old(g)),
                g.psi_ez_x@ == old(g).psi_ez_x@,
                g.psi_ez_y@ == old(g).psi_ez_y@,
                g.ez@.len() == old(g).ez@.len(),
                forall|a: int, b: int|
                    #![trigger g.ez_of(a, b)]
                    0 <= a < g.nx && 0 <= b < g.ny ==> g.ez_of(a, b) == (if a == i && lo <= b < j {
                        old(g).ez_of(a, b).sum(s)
                    } else {
                        old(g).ez_of(a, b)
                    }),
            decreases hi + 1 - j,
        {
            let ghost before = *g;
            g.add_ez(i, j, s);
            proof {
                lemma_other_cells(&before, g, i as int, j as int, s);
            }
            j += 1;
        }
    }
}

/// Adding at one cell leaves every other cell as it was.
proof fn lemma_other_cells<T: Scalar>(
    before: &Grid2d<T>,
    after: &Grid2d<T>,
    i: int,
    j: int,
    s: T,
)
    requires
        before.wf(),
        after.nx == before.nx,
        after.ny == before.ny,
        0 <= i < before.nx,
        0 <= j < before.ny,
        after.ez@ == before.ez@.update(cell(before.ny as int, i, j), before.ez_of(i, j).sum(s)),
    ensures
        forall|a: int, b: int|
            #![trigger after.ez_of(a, b)]
            0 <= a < before.nx && 0 <= b < before.ny ==> after.ez_of(a, b) == (if a == i && b == j {
                before.ez_of(a, b).sum(s)
            } else {
                before.ez_of(a, b)
            }),
{
    let (nx, ny) = (before.nx as int, before.ny as int);
    crate::field::grid::lemma_cell(nx, ny, i, j);
    assert forall|a: int, b: int|
        #![trigger after.ez_of(a, b)]
        0 <= a < nx && 0 <= b < ny implies after.ez_of(a, b) == (if a == i && b == j {
        before.ez_of(a, b).sum(s)
    } else {
        before.ez_of(a, b)
    }) by {
        crate::field::grid::lemma_cell(nx, ny, a, b);
        if cell(ny, a, b) == cell(ny, i, j) {
            vstd::arithmetic::div_mod::lemma_fundamental_div_mod_converse(cell(ny, a, b), ny, a, b);
            vstd::arithmetic::div_mod::lemma_fundamental_div_mod_converse(cell(ny, i, j), ny, i, j);
        }
    }
}

/// A guided-mode line source: a sampled profile on one column.
pub struct ModeInjector<T> {
    pub i: usize,
    pub profile: Vec<T>,
    pub amplitude: T,
}

/// Whether a sample differs from zero.
pub open spec fn nonzero<T: Scalar>(x: T) -> bool {
    !(x.at_least(T::zero_value()) && T::zero_value().at_least(x))
}

impl<T: Scalar> ModeInjector<T> {
    /// What the source adds to a cell when its time signature is `signal`: in
    /// its column, off the ring, the signal weighted by the profile.
    pub open spec fn adds(&self, ny: int, signal: T) -> spec_fn(int, int) -> Option<T> {
        |i: int, j: int|
            if i == self.i && 1 <= j < ny - 1 && nonzero(self.profile@[j]) {
                Some(self.amplitude.product(signal).product(self.profile@[j]))
            } else {
                None
            }
    }

    /// Adds `amplitude.signal.profile` onto the column.
    pub fn inject(&self, g: &mut Grid2d<T>, signal: T)
        requires
            old(g).wf(),
            self.i < old(g).nx,
            self.profile@.len() == old(g).ny,
        ensures
            final(g).wf(),
            injected(old(g), final(g), self.adds(old(g).ny as int, signal)),
    {
        let s = self.amplitude.times(signal);
        let last: usize = g.ny - 1;
        let mut j: usize = 1;
        while j < last
            invariant
                old(g).wf(),
                g.wf(),
                self.i < g.nx,
                self.profile@.len() == g.ny,
                1 <= j <= last,
                last == g.ny - 1,
                s == self.amplitude.product(signal),
                g.same_setup(old(g)),
                g.same_h(old(g)),
                g.psi_ez_x@ == old(g).psi_ez_x@,
                g.psi_ez_y@ == old(g).psi_ez_y@,
                g.ez@.len() == old(g).ez@.len(),
                forall|a: int, b: int|
                    #![trigger g.ez_of(a, b)]
                    0 <= a < g.nx && 0 <= b < g.ny ==> g.ez_of(a, b) == (if a == self.i && 1 <= b
                        < j && nonzero(self.profile@[b]) {
                        old(g).ez_of(a, b).sum(s.product(self.profile@[b]))
                    } else {
                        old(g).ez_of(a, b)
                    }),
            decreases last - j,
        {
            let p = self.profile[j];
            if !(p.reaches(T::zero()) && T::zero().reaches(p)) {
                let ghost before = *g;
                let v = s.times(p);
                g.add_ez(self.i, j, v);
                proof {
                    lemma_other_cells(&before, g, self.i as int, j as int, v);
                }
            }
            j += 1;
        }
    }
}

/// A soft point dipole of a 3D grid.
#[derive(Debug, Clone, Copy)]
pub struct Dipole3<T> {
    pub i: usize,
    pub j: usize,
    pub k: usize,
    /// Polarization.
    pub axis: Axis,
    pub amplitude: T,
}

impl<T: Scalar> Dipole3<T> {
    /// Whether the driven sample exists on a grid of `n` points.
    pub open spec fn fits(self, n: (int, int, int)) -> bool {
        inside(e_dims(n, self.axis), (self.i as int, self.j as int, self.k as int))
    }

    /// `after` has `amplitude.signal` more at the driven sample, and is the
    /// same otherwise.
    pub open spec fn driven(self, before: &Grid3d<T>, signal: T, after: &Grid3d<T>) -> bool {
        &&& after.same_setup(before)
        &&& after.same_h(before)
        &&& forall|o: Axis|
            #![trigger after.e(o)]
            #![trigger after.psi_e_a(o)]
            #![trigger after.psi_e_b(o)]
            {
                &&& after.psi_e_a(o) == before.psi_e_a(o)
                &&& after.psi_e_b(o) == before.psi_e_b(o)
                &&& after.e(o) == (if o == self.axis {
                    let at = flat(
                        e_dims(before.points(), o),
                        (self.i as int, self.j as int, self.k as int),
                    );
                    before.e(o).update(
                        at,
                        before.e(o)[at].sum(self.amplitude.product(signal)),
                    )
                } else {
                    before.e(o)
                })
            }
    }

    /// Adds `amplitude.signal` onto the driven sample.
    pub fn inject(&self, g: &mut Grid3d<T>, signal: T)
        requires
            old(g).wf(),
            self.fits(old(g).points()),
        ensures
            final(g).wf(),
            self.driven(old(g), signal, final(g)),
    {
        let v = self.amplitude.times(signal);
        g.add_e(self.axis.e_comp(), self.i, self.j, self.k, v);
    }
}

} // verus!
