//! Monitors: time-series probes, running Fourier sums, and ports.
//!
//! A running Fourier sum adds one term `x(t).e^(iwt)` per step, so that no
//! time series has to be kept. The unit phasors of a step come in as samples,
//! one per frequency; probes turn them with the sign `-iwt`, ports with `+iwt`.

use crate::complex::Cx;
use crate::field::grid::Grid2d;
use crate::field::grid3::{e_dims, Comp, Grid3d};
use crate::field::lattice::{flat, inside};
use crate::scalar::{lemma_running_push, running, Scalar};
use vstd::prelude::*;

verus! {

/// Records Ez(i, j) of a 2D grid.
pub struct Probe<T> {
    pub i: usize,
    pub j: usize,
    /// One sample per record, in order.
    pub trace: Vec<T>,
}

impl<T: Scalar> Probe<T> {
    pub fn new(i: usize, j: usize) -> (r: Self)
        ensures
            r.i == i,
            r.j == j,
            r.trace@.len() == 0,
    {
        Probe { i, j, trace: Vec::new() }
    }

    /// Samples the grid's current state.
    pub fn record(&mut self, g: &Grid2d<T>)
        requires
            g.wf(),
            old(self).i < g.nx,
            old(self).j < g.ny,
        ensures
            final(self).i == old(self).i,
            final(self).j == old(self).j,
            final(self).trace@ == old(self).trace@.push(
                g.ez_of(old(self).i as int, old(self).j as int),
            ),
    {
        self.trace.push(g.ez_at(self.i, self.j));
    }

    /// Most recent sample; zero if there is none yet.
    pub fn last(&self) -> (r: T)
        ensures
            r == (if self.trace@.len() > 0 {
                self.trace@.last()
            } else {
                T::zero_value()
            }),
    {
        let n: usize = self.trace.len();
        if n > 0 {
            self.trace[n - 1]
        } else {
            T::zero()
        }
    }
}

/// Running Fourier sums of one real signal, one per frequency.
pub struct FourierSums<T> {
    pub accum: Vec<Cx<T>>,
    /// Terms added so far.
    pub samples: u64,
}

impl<T: Scalar> FourierSums<T> {
    /// Each sum after one more term: `x` in the direction of its phasor.
    pub open spec fn grown(accum: Seq<Cx<T>>, x: T, phases: Seq<Cx<T>>) -> Seq<Cx<T>> {
        Seq::new(accum.len(), |k: int| accum[k].sum(Cx::polar(x, phases[k])))
    }

    /// Amplitudes of the sums for a time step.
    pub open spec fn spectrum(accum: Seq<Cx<T>>, dt: T) -> Seq<Cx<T>> {
        Seq::new(accum.len(), |k: int| accum[k].scaled(dt))
    }

    fn new(n: usize) -> (r: Self)
        ensures
            r.accum@ == Seq::new(n as nat, |k: int| Cx::<T>::nought()),
            r.samples == 0,
    {
        let mut accum: Vec<Cx<T>> = Vec::new();
        let mut k: usize = 0;
        while k < n
            invariant
                k <= n,
                accum@ == Seq::new(k as nat, |m: int| Cx::<T>::nought()),
            decreases n - k,
        {
            accum.push(Cx::zero());
            k += 1;
            assert(accum@ =~= Seq::new(k as nat, |m: int| Cx::<T>::nought()));
        }
        FourierSums { accum, samples: 0 }
    }

    fn add_term(&mut self, x: T, phases: &Vec<Cx<T>>)
        requires
            phases@.len() == old(self).accum@.len(),
            old(self).samples < u64::MAX,
        ensures
            final(self).accum@ == Self::grown(old(self).accum@, x, phases@),
            final(self).samples == old(self).samples + 1,
    {
        let mut k: usize = 0;
        while k < self.accum.len()
            invariant
                k <= self.accum@.len(),
                phases@.len() == self.accum@.len(),
                self.accum@.len() == old(self).accum@.len(),
                self.samples == old(self).samples,
                forall|m: int|
                    0 <= m < self.accum@.len() ==> #[trigger] self.accum@[m] == (if m < k {
                        old(self).accum@[m].sum(Cx::polar(x, phases@[m]))
                    } else {
                        old(self).accum@[m]
                    }),
            decreases self.accum@.len() - k,
        {
            let a = self.accum[k].plus(Cx::from_polar(x, phases[k]));
            self.accum.set(k, a);
            k += 1;
        }
        self.samples = self.samples + 1;
        assert(self.accum@ =~= Self::grown(old(self).accum@, x, phases@));
    }

    /// The sums scaled by the time step.
    pub fn spectra(&self, dt: T) -> (r: Vec<Cx<T>>)
        ensures
            r@ == Self::spectrum(self.accum@, dt),
            r@ == Seq::new(self.accum@.len(), |k: int| self.accum@[k].scaled(dt)),
    {
        let mut r: Vec<Cx<T>> = Vec::new();
        let mut k: usize = 0;
        while k < self.accum.len()
            invariant
                k <= self.accum@.len(),
                r@.len() == k,
                forall|m: int| 0 <= m < k ==> #[trigger] r@[m] == self.accum@[m].scaled(dt),
            decreases self.accum@.len() - k,
        {
            r.push(self.accum[k].scale(dt));
            k += 1;
        }
        assert(r@ =~= Seq::new(self.accum@.len(), |k: int| self.accum@[k].scaled(dt)));
        r
    }
}

/// Running Fourier sums of Ez(i, j) of a 2D grid.
pub struct DftMonitor<T> {
    pub i: usize,
    pub j: usize,
    pub sums: FourierSums<T>,
}

impl<T: Scalar> DftMonitor<T> {
    /// A monitor of `n` frequencies.
    pub fn new(i: usize, j: usize, n: usize) -> (r: Self)
        ensures
            r.i == i,
            r.j == j,
            r.sums.accum@ == Seq::new(n as nat, |k: int| Cx::<T>::nought()),
            r.sums.samples == 0,
    {
        DftMonitor { i, j, sums: FourierSums::new(n) }
    }

    /// Adds the term of the current Ez; `phases` holds e^(-iwt) per frequency.
    pub fn record(&mut self, g: &Grid2d<T>, phases: &Vec<Cx<T>>)
        requires
            g.wf(),
            old(self).i < g.nx,
            old(self).j < g.ny,
            phases@.len() == old(self).sums.accum@.len(),
            old(self).sums.samples < u64::MAX,
        ensures
            final(self).i == old(self).i,
            final(self).j == old(self).j,
            final(self).sums.samples == old(self).sums.samples + 1,
            final(self).sums.accum@ == FourierSums::grown(
                old(self).sums.accum@,
                g.ez_of(old(self).i as int, old(self).j as int),
                phases@,
            ),
    {
        let x = g.ez_at(self.i, self.j);
        self.sums.add_term(x, phases);
    }

    /// Number of records so far.
    pub fn samples(&self) -> (r: u64)
        ensures
            r == self.sums.samples,
    {
        self.sums.samples
    }

    /// Fourier amplitudes: the sums scaled by the time step.
    pub fn spectra(&self, dt: T) -> (r: Vec<Cx<T>>)
        ensures
            r@ == FourierSums::spectrum(self.sums.accum@, dt),
            r@ == Seq::new(self.sums.accum@.len(), |k: int| self.sums.accum@[k].scaled(dt)),
    {
        self.sums.spectra(dt)
    }
}

/// Where a 3D probe sits: one E component at one sample.
#[derive(Debug, Clone, Copy)]
pub struct Probe3Spec {
    pub i: usize,
    pub j: usize,
    pub k: usize,
    pub component: Comp,
}

impl Probe3Spec {
    /// Whether the sample exists on a grid of `n` points.
    pub open spec fn fits(self, n: (int, int, int)) -> bool {
        inside(e_dims(n, self.component.axis()), (self.i as int, self.j as int, self.k as int))
    }

    /// What the probe sees.
    pub open spec fn sees<T: Scalar>(self, g: &Grid3d<T>) -> T {
        g.e(self.component.axis())[flat(
            e_dims(g.points(), self.component.axis()),
            (self.i as int, self.j as int, self.k as int),
        )]
    }
}

/// Records one E component sample of a 3D grid.
pub struct Probe3<T> {
    pub spec: Probe3Spec,
    pub trace: Vec<T>,
}

impl<T: Scalar> Probe3<T> {
    pub fn new(spec: Probe3Spec) -> (r: Self)
        ensures
            r.spec == spec,
            r.trace@.len() == 0,
    {
        Probe3 { spec, trace: Vec::new() }
    }

    /// Samples the grid's current state.
    pub fn record(&mut self, g: &Grid3d<T>)
        requires
            g.wf(),
            old(self).spec.fits(g.points()),
        ensures
            final(self).spec == old(self).spec,
            final(self).trace@ == old(self).trace@.push(old(self).spec.sees(g)),
    {
        let s = self.spec;
        self.trace.push(g.e_at(s.component, s.i, s.j, s.k));
    }

    /// Most recent sample; zero if there is none yet.
    pub fn last(&self) -> (r: T)
        ensures
            r == (if self.trace@.len() > 0 {
                self.trace@.last()
            } else {
                T::zero_value()
            }),
    {
        let n: usize = self.trace.len();
        if n > 0 {
            self.trace[n - 1]
        } else {
            T::zero()
        }
    }
}

/// Running Fourier sums of one E component sample of a 3D grid.
pub struct Dft3Monitor<T> {
    pub spec: Probe3Spec,
    pub sums: FourierSums<T>,
}

impl<T: Scalar> Dft3Monitor<T> {
    /// A monitor of `n` frequencies.
    pub fn new(spec: Probe3Spec, n: usize) -> (r: Self)
        ensures
            r.spec == spec,
            r.sums.accum@ == Seq::new(n as nat, |k: int| Cx::<T>::nought()),
            r.sums.samples == 0,
    {
        Dft3Monitor { spec, sums: FourierSums::new(n) }
    }

    /// Adds the term of the current sample; `phases` holds e^(-iwt) per
    /// frequency.
    pub fn record(&mut self, g: &Grid3d<T>, phases: &Vec<Cx<T>>)
        requires
            g.wf(),
            old(self).spec.fits(g.points()),
            phases@.len() == old(self).sums.accum@.len(),
            old(self).sums.samples < u64::MAX,
        ensures
            final(self).spec == old(self).spec,
            final(self).sums.samples == old(self).sums.samples + 1,
            final(self).sums.accum@ == FourierSums::grown(
                old(self).sums.accum@,
                old(self).spec.sees(g),
                phases@,
            ),
    {
        let s = self.spec;
        let x = g.e_at(s.component, s.i, s.j, s.k);
        self.sums.add_term(x, phases);
    }

    /// Number of records so far.
    pub fn samples(&self) -> (r: u64)
        ensures
            r == self.sums.samples,
    {
        self.sums.samples
    }

    /// Fourier amplitudes: the sums scaled by the time step.
    pub fn spectra(&self, dt: T) -> (r: Vec<Cx<T>>)
        ensures
            r@ == FourierSums::spectrum(self.sums.accum@, dt),
            r@ == Seq::new(self.sums.accum@.len(), |k: int| self.sums.accum@[k].scaled(dt)),
    {
        self.sums.spectra(dt)
    }
}

/// A port of a waveguide: a grid column and the mode order it projects onto.
#[derive(Debug, Clone, Copy)]
pub struct PortSpec {
    /// Grid column of the port plane.
    pub i: usize,
    /// Mode order (0 = fundamental).
    pub mode: usize,
}

/// A live port: one mode profile and one Fourier sum per frequency. Unlike a
/// probe, each frequency sees its own signal, the overlap of the column with
/// the mode at that frequency.
pub struct PortMonitor<T> {
    /// Grid column of the port plane.
    pub i: usize,
    /// Mode profile of each frequency on the Ez rows.
    pub profiles: Vec<Vec<T>>,
    pub accum: Vec<Cx<T>>,
    pub samples: u64,
}

impl<T: Scalar> PortMonitor<T> {
    /// One profile over `ny` rows per frequency.
    pub open spec fn wf(&self, ny: int) -> bool {
        &&& self.accum@.len() == self.profiles@.len()
        &&& forall|f: int| 0 <= f < self.profiles@.len() ==> (#[trigger] self.profiles@[f])@.len() == ny
    }

    /// Overlap of a column of Ez with a profile, row by row.
    pub open spec fn overlap(g: &Grid2d<T>, i: int, profile: Seq<T>) -> T {
        running(Seq::new(g.ny as nat, |j: int| g.ez_of(i, j).product(profile[j])))
    }

    /// `after` has one more term in every sum.
    pub open spec fn recorded(&self, g: &Grid2d<T>, phases: Seq<Cx<T>>, after: &Self) -> bool {
        &&& after.i == self.i
        &&& after.profiles == self.profiles
        &&& after.samples == self.samples + 1
        &&& after.accum@ =~= Seq::new(
            self.accum@.len(),
            |f: int|
                self.accum@[f].sum(
                    Cx::polar(Self::overlap(g, self.i as int, self.profiles@[f]@), phases[f]),
                ),
        )
    }

    /// A port whose frequencies have these profiles.
    pub fn new(i: usize, profiles: Vec<Vec<T>>) -> (r: Self)
        ensures
            r.i == i,
            r.profiles == profiles,
            r.accum@ == Seq::new(profiles@.len(), |f: int| Cx::<T>::nought()),
            r.samples == 0,
    {
        let sums = FourierSums::new(profiles.len());
        PortMonitor { i, profiles, accum: sums.accum, samples: 0 }
    }

    fn project(&self, g: &Grid2d<T>, f: usize) -> (r: T)
        requires
            g.wf(),
            self.i < g.nx,
            self.wf(g.ny as int),
            f < self.profiles@.len(),
        ensures
            r == Self::overlap(g, self.i as int, self.profiles@[f as int]@),
    {
        let ghost terms = Seq::new(
            g.ny as nat,
            |j: int| g.ez_of(self.i as int, j).product(self.profiles@[f as int]@[j]),
        );
        assert(self.profiles@[f as int]@.len() == g.ny);
        let mut acc = T::zero();
        let mut j: usize = 0;
        assert(terms.take(0) =~= Seq::empty());
        while j < g.ny
            invariant
                g.wf(),
                self.i < g.nx,
                j <= g.ny,
                f < self.profiles@.len(),
                self.profiles@[f as int]@.len() == g.ny,
                terms == Seq::new(
                    g.ny as nat,
                    |m: int| g.ez_of(self.i as int, m).product(self.profiles@[f as int]@[m]),
                ),
                acc == running(terms.take(j as int)),
            decreases g.ny - j,
        {
            let x = g.ez_at(self.i, j).times(self.profiles[f][j]);
            acc = acc.plus(x);
            proof {
                assert(terms.take(j + 1) =~= terms.take(j as int).push(x));
                lemma_running_push(terms.take(j as int), x);
            }
            j += 1;
        }
        assert(terms.take(terms.len() as int) =~= terms);
        acc
    }

    /// Projects the current column onto each frequency's mode and adds the
    /// terms; `phases` holds e^(+iwt) per frequency.
    pub fn record(&mut self, g: &Grid2d<T>, phases: &Vec<Cx<T>>)
        requires
            g.wf(),
            old(self).i < g.nx,
            old(self).wf(g.ny as int),
            phases@.len() == old(self).accum@.len(),
            old(self).samples < u64::MAX,
        ensures
            final(self).wf(g.ny as int),
            old(self).recorded(g, phases@, final(self)),
    {
        let mut f: usize = 0;
        while f < self.accum.len()
            invariant
                g.wf(),
                f <= self.accum@.len(),
                self.i == old(self).i,
                self.i < g.nx,
                self.profiles == old(self).profiles,
                self.samples == old(self).samples,
                self.wf(g.ny as int),
                self.accum@.len() == old(self).accum@.len(),
                phases@.len() == self.accum@.len(),
                forall|m: int|
                    0 <= m < self.accum@.len() ==> #[trigger] self.accum@[m] == (if m < f {
                        old(self).accum@[m].sum(
                            Cx::polar(
                                Self::overlap(g, self.i as int, self.profiles@[m]@),
                                phases@[m],
                            ),
                        )
                    } else {
                        old(self).accum@[m]
                    }),
            decreases self.accum@.len() - f,
        {
            let o = self.project(g, f);
            let a = self.accum[f].plus(Cx::from_polar(o, phases[f]));
            self.accum.set(f, a);
            f += 1;
        }
        self.samples = self.samples + 1;
    }

    /// Mode amplitudes: the sums scaled by the time step.
    pub fn amplitudes(&self, dt: T) -> (r: Vec<Cx<T>>)
        ensures
            r@ == FourierSums::spectrum(self.accum@, dt),
            r@ == Seq::new(self.accum@.len(), |k: int| self.accum@[k].scaled(dt)),
    {
        let mut r: Vec<Cx<T>> = Vec::new();
        let mut k: usize = 0;
        while k < self.accum.len()
            invariant
                k <= self.accum@.len(),
                r@.len() == k,
                forall|m: int| 0 <= m < k ==> #[trigger] r@[m] == self.accum@[m].scaled(dt),
            decreases self.accum@.len() - k,
        {
            r.push(self.accum[k].scale(dt));
            k += 1;
        }
        assert(r@ =~= Seq::new(self.accum@.len(), |k: int| self.accum@[k].scaled(dt)));
        r
    }

    /// Number of records so far.
    pub fn samples(&self) -> (r: u64)
        ensures
            r == self.samples,
    {
        self.samples
    }
}

} // verus!
