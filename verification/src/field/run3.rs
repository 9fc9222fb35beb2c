//! 3D runs: the leapfrog loop with dispersive media, a dipole, probes and
//! their Fourier sums.

use crate::complex::Cx;
use crate::field::eps::EpsSpec3;
use crate::field::grid3::{e_dims, Axis, Comp, CpmlTables, Grid3Spec, Grid3d};
use crate::field::lattice::{at_place, volume};
use crate::field::medium3::baked;
use crate::field::medium3::{DispMedia, MaterialRegion};
use crate::field::monitor::{Dft3Monitor, FourierSums, Probe3, Probe3Spec};
use crate::field::run::{next_stop, report_due};
use crate::field::source::Dipole3;
use crate::field::ticks::{lemma_ticks_alike, ticks, ticks_to, Part, Tick};
use crate::progress::{heard, lemma_heard_more, lemma_heard_nothing, Listener};
use crate::scalar::Scalar;
use crate::text::{decimal, decimal_text};
use vstd::prelude::*;

verus! {

/// A 3D job.
pub struct Field3Job<T> {
    pub nx: usize,
    pub ny: usize,
    pub nz: usize,
    pub steps: usize,
    pub courant: T,
    pub npml: usize,
    pub eps: EpsSpec3<T>,
    pub materials: Vec<MaterialRegion<T>>,
    pub source: Dipole3<T>,
    /// Probes; none means one Ez probe at the grid center.
    pub probes: Vec<Probe3Spec>,
    pub n_frequencies: usize,
}

/// Why a 3D job is refused.
#[derive(Debug, Clone, Copy, PartialEq, Eq, Structural)]
pub enum Field3Error {
    /// The layers leave no interior.
    GridTooSmall,
    CourantNotPositive,
    /// Index of the material whose parameters are not physical.
    Material(usize),
    /// Some sample of the permittivity, materials baked in, is not positive.
    EpsNotPositive,
    SourceOutside,
    /// Index of the probe.
    ProbeOutside(usize),
}

/// The absorbing layers leave an interior along an axis of `n` points.
pub open spec fn roomy(n: int, npml: int) -> bool {
    n > 2 * npml + 2
}

fn has_room(n: usize, npml: usize) -> (r: bool)
    ensures
        r == roomy(n as int, npml as int),
{
    n > 2 && (n - 3) / 2 >= npml
}

impl<T: Scalar> Field3Job<T> {
    pub open spec fn points(&self) -> (int, int, int) {
        (self.nx as int, self.ny as int, self.nz as int)
    }

    pub open spec fn center(&self) -> Probe3Spec {
        Probe3Spec {
            i: (self.nx as int / 2) as usize,
            j: (self.ny as int / 2) as usize,
            k: (self.nz as int / 2) as usize,
            component: Comp::Ez,
        }
    }

    /// The probes of the run.
    pub open spec fn watched(&self) -> Seq<Probe3Spec> {
        if self.probes@.len() == 0 {
            seq![self.center()]
        } else {
            self.probes@
        }
    }

    /// Permittivity of the component along `o`, with every material's
    /// high-frequency value baked in.
    pub open spec fn permittivity(&self, o: Axis) -> Seq<T> {
        let d = e_dims(self.points(), o);
        baked(
            d,
            self.materials@,
            Seq::new(volume(d) as nat, |at: int| self.eps.eps_at(at_place(d, at))),
        )
    }

    /// The permittivity is positive everywhere.
    pub open spec fn dense(&self) -> bool {
        forall|o: Axis| all_positive(#[trigger] self.permittivity(o))
    }

    /// The first of these that applies refuses the job.
    pub open spec fn fault(&self, e: Field3Error) -> bool {
        let n = self.points();
        let m = self.npml as int;
        if !(roomy(n.0, m) && roomy(n.1, m) && roomy(n.2, m)) {
            e == Field3Error::GridTooSmall
        } else if !T::zero_value().less_than(self.courant) {
            e == Field3Error::CourantNotPositive
        } else if exists|k: int|
            0 <= k < self.materials@.len() && !(#[trigger] self.materials@[k]).model.physical() {
            exists|k: int|
                0 <= k < self.materials@.len() && !(
                #[trigger] self.materials@[k]).model.physical() && (forall|q: int|
                    0 <= q < k ==> (#[trigger] self.materials@[q]).model.physical()) && e
                    == Field3Error::Material(k as usize)
        } else if !self.dense() {
            e == Field3Error::EpsNotPositive
        } else if !self.source.fits(n) {
            e == Field3Error::SourceOutside
        } else {
            exists|k: int|
                0 <= k < self.watched().len() && !(#[trigger] self.watched()[k]).fits(n) && (
                forall|q: int| 0 <= q < k ==> (#[trigger] self.watched()[q]).fits(n)) && e
                    == Field3Error::ProbeOutside(k as usize)
        }
    }

    /// Nothing refuses the job.
    pub open spec fn sound(&self) -> bool {
        let n = self.points();
        let m = self.npml as int;
        &&& roomy(n.0, m) && roomy(n.1, m) && roomy(n.2, m)
        &&& T::zero_value().less_than(self.courant)
        &&& forall|k: int|
            0 <= k < self.materials@.len() ==> (#[trigger] self.materials@[k]).model.physical()
        &&& self.dense()
        &&& self.source.fits(n)
        &&& forall|k: int|
            0 <= k < self.watched().len() ==> (#[trigger] self.watched()[k]).fits(n)
    }

    fn watch_list(&self) -> (r: Vec<Probe3Spec>)
        ensures
            r@ == self.watched(),
    {
        let mut r: Vec<Probe3Spec> = Vec::new();
        if self.probes.len() == 0 {
            r.push(
                Probe3Spec {
                    i: self.nx / 2,
                    j: self.ny / 2,
                    k: self.nz / 2,
                    component: Comp::Ez,
                },
            );
            return r;
        }
        let mut k: usize = 0;
        while k < self.probes.len()
            invariant
                k <= self.probes@.len(),
                self.probes@.len() > 0,
                r@ == self.probes@.take(k as int),
            decreases self.probes@.len() - k,
        {
            r.push(self.probes[k]);
            k += 1;
            assert(self.probes@.take(k as int) =~= self.probes@.take(k - 1).push(
                self.probes@[k - 1],
            ));
        }
        assert(self.probes@.take(self.probes@.len() as int) =~= self.probes@);
        r
    }
}

/// What one step takes from the clock: the time signature of the dipole and
/// the phasors of the probes.
pub struct Beat3<T> {
    pub signal: T,
    pub phases: Vec<Cx<T>>,
}

/// A 3D run.
pub struct Run3<T> {
    pub grid: Grid3d<T>,
    pub media: DispMedia<T>,
    pub probes: Vec<Probe3<T>>,
    pub dfts: Vec<Dft3Monitor<T>>,
}

/// Every value is greater than zero.
pub open spec fn all_positive<T: Scalar>(v: Seq<T>) -> bool {
    forall|k: int| 0 <= k < v.len() ==> T::zero_value().less_than(#[trigger] v[k])
}

fn positive_samples<T: Scalar>(v: &Vec<T>) -> (r: bool)
    ensures
        r == all_positive(v@),
{
    let mut k: usize = 0;
    while k < v.len()
        invariant
            k <= v@.len(),
            forall|q: int| 0 <= q < k ==> T::zero_value().less_than(#[trigger] v@[q]),
        decreases v@.len() - k,
    {
        if !T::zero().below(v[k]) {
            return false;
        }
        k += 1;
    }
    true
}

/// Coefficients dt/eps.
pub open spec fn coefficients<T: Scalar>(dt: T, eps: Seq<T>) -> Seq<T> {
    eps.map_values(|e: T| dt.quotient(e))
}

/// Coefficients dt/eps.
pub fn coefficients_of<T: Scalar>(dt: T, eps: &Vec<T>) -> (r: Vec<T>)
    ensures
        r@ == coefficients(dt, eps@),
{
    let mut r: Vec<T> = Vec::new();
    let mut k: usize = 0;
    while k < eps.len()
        invariant
            k <= eps@.len(),
            r@ == coefficients(dt, eps@.take(k as int)),
        decreases eps@.len() - k,
    {
        r.push(dt.over(eps[k]));
        k += 1;
        assert(coefficients(dt, eps@.take(k as int)) =~= coefficients(dt, eps@.take(k - 1)).push(
            dt.quotient(eps@[k - 1]),
        ));
    }
    assert(eps@.take(eps@.len() as int) =~= eps@);
    r
}

/// The media hold a cell somewhere.
pub open spec fn dispersive<T: Scalar>(m: &DispMedia<T>) -> bool {
    !(m.x.drude@.len() == 0 && m.x.lorentz@.len() == 0 && m.y.drude@.len() == 0
        && m.y.lorentz@.len() == 0 && m.z.drude@.len() == 0 && m.z.lorentz@.len() == 0)
}

/// The E arrays of `after` are those of `before` with the corrections of the
/// media; all else is the same.
pub open spec fn corrected<T: Scalar>(
    before: &Grid3d<T>,
    m: &DispMedia<T>,
    after: &Grid3d<T>,
) -> bool {
    &&& after.same_setup(before)
    &&& after.same_h(before)
    &&& after.e(Axis::X) == m.x.corrected(before.e(Axis::X))
    &&& after.e(Axis::Y) == m.y.corrected(before.e(Axis::Y))
    &&& after.e(Axis::Z) == m.z.corrected(before.e(Axis::Z))
    &&& forall|o: Axis|
        #![trigger after.psi_e_a(o)]
        #![trigger after.psi_e_b(o)]
        after.psi_e_a(o) == before.psi_e_a(o) && after.psi_e_b(o) == before.psi_e_b(o)
}

impl<T: Scalar> Run3<T> {
    /// Steps taken so far.
    pub open spec fn done(&self) -> nat {
        self.probes@[0].trace@.len()
    }

    /// Grid, media and monitors are sound and fit each other, there is a
    /// probe, and all monitors have seen the same steps.
    pub open spec fn wf(&self) -> bool {
        &&& self.grid.wf()
        &&& self.media.wf(self.grid.points())
        &&& self.probes@.len() > 0
        &&& self.dfts@.len() == self.probes@.len()
        &&& forall|k: int|
            0 <= k < self.probes@.len() ==> (#[trigger] self.probes@[k]).spec.fits(
                self.grid.points(),
            ) && self.probes@[k].trace@.len() == self.done()
        &&& forall|k: int|
            0 <= k < self.dfts@.len() ==> (#[trigger] self.dfts@[k]).spec.fits(
                self.grid.points(),
            ) && self.dfts@[k].sums.samples == self.done()
    }

    /// Everything at rest, laid out as the job says.
    pub open spec fn starts(
        &self,
        job: &Field3Job<T>,
        dt: T,
        cpml: (CpmlTables<T>, CpmlTables<T>, CpmlTables<T>),
    ) -> bool {
        let n = job.points();
        &&& self.grid.at_rest()
        &&& self.grid.points() == n
        &&& self.grid.npml == job.npml
        &&& self.grid.dt == dt
        &&& self.grid.cpml_x == cpml.0
        &&& self.grid.cpml_y == cpml.1
        &&& self.grid.cpml_z == cpml.2
        &&& forall|o: Axis|
            #![trigger self.grid.ce(o)]
            self.grid.ce(o) == coefficients(dt, job.permittivity(o))
        &&& self.media.holds(job.materials@, n, dt)
        &&& self.probes@.len() == job.watched().len()
        &&& forall|k: int|
            0 <= k < self.probes@.len() ==> (#[trigger] self.probes@[k]).spec == job.watched()[k]
                && self.probes@[k].trace@.len() == 0
        &&& self.dfts@.len() == job.watched().len()
        &&& forall|k: int|
            0 <= k < self.dfts@.len() ==> (#[trigger] self.dfts@[k]).spec == job.watched()[k]
                && self.dfts@[k].sums.accum@ == Seq::new(
                job.n_frequencies as nat,
                |f: int| Cx::<T>::nought(),
            )
    }

    /// Sets a job up, or says why it is refused. `dt` is the time step that
    /// belongs to the job's Courant number, `cpml` the layer coefficients of
    /// the three axes.
    pub fn prepare(
        job: &Field3Job<T>,
        dt: T,
        cpml: (CpmlTables<T>, CpmlTables<T>, CpmlTables<T>),
    ) -> (r: Result<Run3<T>, Field3Error>)
        requires
            job.nx * job.ny * job.nz <= usize::MAX,
            cpml.0.e.covers(job.nx as int) && cpml.0.h.covers(job.nx - 1),
            cpml.1.e.covers(job.ny as int) && cpml.1.h.covers(job.ny - 1),
            cpml.2.e.covers(job.nz as int) && cpml.2.h.covers(job.nz - 1),
        ensures
            match r {
                Ok(run) => job.sound() && run.wf() && run.starts(job, dt, cpml),
                Err(e) => job.fault(e),
            },
    {
        let (nx, ny, nz): (usize, usize, usize) = (job.nx, job.ny, job.nz);
        if !has_room(nx, job.npml) || !has_room(ny, job.npml) || !has_room(nz, job.npml) {
            return Err(Field3Error::GridTooSmall);
        }
        if !T::zero().below(job.courant) {
            return Err(Field3Error::CourantNotPositive);
        }
        let ghost n = job.points();
        let mut eps = job.eps.build(nx, ny, nz);
        let ghost eps0 = (eps.0@, eps.1@, eps.2@);
        let media = match DispMedia::build(&job.materials, (nx, ny, nz), dt, &mut eps) {
            Ok(m) => m,
            Err(k) => {
                assert(job.fault(Field3Error::Material(k)));
                return Err(Field3Error::Material(k));
            },
        };
        proof {
            lemma_baked_len(e_dims(n, Axis::X), job.materials@, eps0.0);
            lemma_baked_len(e_dims(n, Axis::Y), job.materials@, eps0.1);
            lemma_baked_len(e_dims(n, Axis::Z), job.materials@, eps0.2);
            lemma_filled(job, Axis::X, eps0.0);
            lemma_filled(job, Axis::Y, eps0.1);
            lemma_filled(job, Axis::Z, eps0.2);
        }
        if !(positive_samples(&eps.0) && positive_samples(&eps.1) && positive_samples(&eps.2)) {
            assert(!job.dense()) by {
                assert(job.permittivity(Axis::X) == eps.0@);
                assert(job.permittivity(Axis::Y) == eps.1@);
                assert(job.permittivity(Axis::Z) == eps.2@);
            }
            return Err(Field3Error::EpsNotPositive);
        }
        assert(job.dense()) by {
            assert forall|o: Axis| all_positive(#[trigger] job.permittivity(o)) by {
                match o {
                    Axis::X => {},
                    Axis::Y => {},
                    Axis::Z => {},
                }
            }
        }
        let ce = (
            coefficients_of(dt, &eps.0),
            coefficients_of(dt, &eps.1),
            coefficients_of(dt, &eps.2),
        );
        let spec = Grid3Spec { nx, ny, nz, npml: job.npml };
        let grid = Grid3d::new(&spec, dt, ce, cpml);
        let s = &job.source;
        let d = grid.comp_dims(s.axis.e_comp());
        if s.i >= d.0 || s.j >= d.1 || s.k >= d.2 {
            return Err(Field3Error::SourceOutside);
        }
        let specs = job.watch_list();
        let mut probes: Vec<Probe3<T>> = Vec::new();
        let mut dfts: Vec<Dft3Monitor<T>> = Vec::new();
        let mut k: usize = 0;
        while k < specs.len()
            invariant
                k <= specs@.len(),
                specs@ == job.watched(),
                grid.wf(),
                grid.points() == n,
                n == job.points(),
                roomy(n.0, job.npml as int) && roomy(n.1, job.npml as int) && roomy(
                    n.2,
                    job.npml as int,
                ),
                T::zero_value().less_than(job.courant),
                job.dense(),
                forall|q: int|
                    0 <= q < job.materials@.len() ==> (
                    #[trigger] job.materials@[q]).model.physical(),
                job.source.fits(n),
                forall|q: int| 0 <= q < k ==> (#[trigger] specs@[q]).fits(n),
                probes@.len() == k,
                dfts@.len() == k,
                forall|q: int|
                    0 <= q < k ==> (#[trigger] probes@[q]).spec == specs@[q]
                        && probes@[q].trace@.len() == 0,
                forall|q: int|
                    0 <= q < k ==> (#[trigger] dfts@[q]).spec == specs@[q]
                        && dfts@[q].sums.samples == 0 && dfts@[q].sums.accum@ == Seq::new(
                        job.n_frequencies as nat,
                        |f: int| Cx::<T>::nought(),
                    ),
            decreases specs@.len() - k,
        {
            let p = specs[k];
            let d = grid.comp_dims(p.component);
            if p.i >= d.0 || p.j >= d.1 || p.k >= d.2 {
                assert(!job.watched()[k as int].fits(n));
                assert(job.fault(Field3Error::ProbeOutside(k)));
                return Err(Field3Error::ProbeOutside(k));
            }
            probes.push(Probe3::new(p));
            dfts.push(Dft3Monitor::new(p, job.n_frequencies));
            k += 1;
        }
        let run = Run3 { grid, media, probes, dfts };
        proof {
            assert forall|o: Axis|
                #![trigger run.grid.ce(o)]
                run.grid.ce(o) == coefficients(dt, job.permittivity(o)) by {
                match o {
                    Axis::X => {},
                    Axis::Y => {},
                    Axis::Z => {},
                }
            }
            assert(run.probes@[0].trace@.len() == 0);
            assert(run.wf());
            assert(run.starts(job, dt, cpml));
        }
        Ok(run)
    }

    /// A beat has one phasor per frequency of every monitor.
    pub open spec fn matches(&self, b: &Beat3<T>) -> bool {
        forall|k: int|
            0 <= k < self.dfts@.len() ==> (#[trigger] self.dfts@[k]).sums.accum@.len()
                == b.phases@.len()
    }

    /// The field part of one step: the H half step; the media see E; the E
    /// step; the media correct E; the dipole adds its signal.
    pub open spec fn fields_stepped(
        &self,
        source: Dipole3<T>,
        signal: T,
        g1: Grid3d<T>,
        g2: Grid3d<T>,
        g3: Grid3d<T>,
        after: &Self,
    ) -> bool {
        &&& g1.wf() && g2.wf() && g3.wf()
        &&& g1.same_setup(&self.grid)
        &&& g1.same_e(&self.grid)
        &&& self.grid.h_stepped(&g1)
        &&& g2.same_setup(&g1)
        &&& g2.same_h(&g1)
        &&& g1.e_stepped(&g2)
        &&& if dispersive(&self.media) {
            &&& self.media.x.saw(g1.e(Axis::X), &after.media.x)
            &&& self.media.y.saw(g1.e(Axis::Y), &after.media.y)
            &&& self.media.z.saw(g1.e(Axis::Z), &after.media.z)
            &&& corrected(&g2, &after.media, &g3)
        } else {
            &&& after.media == self.media
            &&& g3 == g2
        }
        &&& source.driven(&g3, signal, &after.grid)
    }

    /// `after` is one step of `self`: the fields, then every monitor on what
    /// they are.
    pub open spec fn stepped(&self, source: Dipole3<T>, b: &Beat3<T>, after: &Self) -> bool {
        &&& exists|g1: Grid3d<T>, g2: Grid3d<T>, g3: Grid3d<T>|
            #[trigger] self.fields_stepped(source, b.signal, g1, g2, g3, after)
        &&& after.probes@.len() == self.probes@.len()
        &&& forall|k: int|
            0 <= k < self.probes@.len() ==> (#[trigger] after.probes@[k]).spec
                == self.probes@[k].spec && after.probes@[k].trace@ == self.probes@[k].trace@.push(
                self.probes@[k].spec.sees(&after.grid),
            )
        &&& after.dfts@.len() == self.dfts@.len()
        &&& forall|k: int|
            0 <= k < self.dfts@.len() ==> (#[trigger] after.dfts@[k]).spec == self.dfts@[k].spec
                && after.dfts@[k].sums.samples == self.dfts@[k].sums.samples + 1
                && after.dfts@[k].sums.accum@ == FourierSums::grown(
                self.dfts@[k].sums.accum@,
                self.dfts@[k].spec.sees(&after.grid),
                b.phases@,
            )
    }

    /// The field part of one step.
    fn step_fields(&mut self, source: &Dipole3<T>, signal: T)
        requires
            old(self).wf(),
            source.fits(old(self).grid.points()),
        ensures
            final(self).grid.wf(),
            final(self).grid.points() == old(self).grid.points(),
            final(self).media.wf(final(self).grid.points()),
            final(self).probes == old(self).probes,
            final(self).dfts == old(self).dfts,
            exists|g1: Grid3d<T>, g2: Grid3d<T>, g3: Grid3d<T>|
                #[trigger] old(self).fields_stepped(*source, signal, g1, g2, g3, final(self)),
    {
        let disp = !self.media.is_empty();
        let ghost n = self.grid.points();
        self.grid.update_h();
        let ghost g1 = self.grid;
        proof {
            assert(g1.e(Axis::X).len() == volume(e_dims(n, Axis::X)));
            assert(g1.e(Axis::Y).len() == volume(e_dims(n, Axis::Y)));
            assert(g1.e(Axis::Z).len() == volume(e_dims(n, Axis::Z)));
        }
        if disp {
            self.media.pre(&self.grid.ex, &self.grid.ey, &self.grid.ez);
        }
        self.grid.update_e();
        let ghost g2 = self.grid;
        proof {
            assert(g2.e(Axis::X).len() == volume(e_dims(n, Axis::X)));
            assert(g2.e(Axis::Y).len() == volume(e_dims(n, Axis::Y)));
            assert(g2.e(Axis::Z).len() == volume(e_dims(n, Axis::Z)));
        }
        if disp {
            self.media.post(&mut self.grid.ex, &mut self.grid.ey, &mut self.grid.ez);
        }
        let ghost g3 = self.grid;
        proof {
            lemma_only_e(&g2, &g3);
        }
        source.inject(&mut self.grid, signal);
        assert(old(self).fields_stepped(*source, signal, g1, g2, g3, self));
    }

    /// One step of the run.
    pub fn advance(&mut self, source: &Dipole3<T>, b: &Beat3<T>)
        requires
            old(self).wf(),
            old(self).done() < u64::MAX,
            old(self).matches(b),
            source.fits(old(self).grid.points()),
        ensures
            final(self).wf(),
            final(self).done() == old(self).done() + 1,
            final(self).grid.points() == old(self).grid.points(),
            old(self).stepped(*source, b, final(self)),
    {
        self.step_fields(source, b.signal);
        let ghost mid = *self;
        let mut k: usize = 0;
        while k < self.probes.len()
            invariant
                k <= self.probes@.len(),
                self.grid == mid.grid,
                self.grid.wf(),
                self.media == mid.media,
                self.dfts == mid.dfts,
                self.probes@.len() == old(self).probes@.len(),
                self.grid.points() == old(self).grid.points(),
                old(self).wf(),
                forall|m: int|
                    k <= m < self.probes@.len() ==> #[trigger] self.probes@[m]
                        == old(self).probes@[m],
                forall|m: int|
                    0 <= m < k ==> (#[trigger] self.probes@[m]).spec == old(self).probes@[m].spec
                        && self.probes@[m].trace@ == old(self).probes@[m].trace@.push(
                        old(self).probes@[m].spec.sees(&self.grid),
                    ),
            decreases self.probes@.len() - k,
        {
            assert(self.probes@[k as int] == old(self).probes@[k as int]);
            assert(old(self).probes@[k as int].spec.fits(self.grid.points()));
            self.probes[k].record(&self.grid);
            k += 1;
        }
        let mut m: usize = 0;
        while m < self.dfts.len()
            invariant
                m <= self.dfts@.len(),
                self.grid == mid.grid,
                self.grid.wf(),
                self.media == mid.media,
                self.dfts@.len() == old(self).dfts@.len(),
                self.grid.points() == old(self).grid.points(),
                old(self).wf(),
                old(self).done() < u64::MAX,
                old(self).matches(b),
                self.probes@.len() == old(self).probes@.len(),
                forall|q: int|
                    0 <= q < self.probes@.len() ==> (#[trigger] self.probes@[q]).spec
                        == old(self).probes@[q].spec && self.probes@[q].trace@
                        == old(self).probes@[q].trace@.push(
                        old(self).probes@[q].spec.sees(&self.grid),
                    ),
                forall|q: int|
                    m <= q < self.dfts@.len() ==> #[trigger] self.dfts@[q] == old(self).dfts@[q],
                forall|q: int|
                    0 <= q < m ==> (#[trigger] self.dfts@[q]).spec == old(self).dfts@[q].spec
                        && self.dfts@[q].sums.samples == old(self).dfts@[q].sums.samples + 1
                        && self.dfts@[q].sums.accum@ == FourierSums::grown(
                        old(self).dfts@[q].sums.accum@,
                        old(self).dfts@[q].spec.sees(&self.grid),
                        b.phases@,
                    ),
            decreases self.dfts@.len() - m,
        {
            assert(self.dfts@[m as int] == old(self).dfts@[m as int]);
            assert(old(self).dfts@[m as int].spec.fits(self.grid.points()));
            assert(old(self).dfts@[m as int].sums.accum@.len() == b.phases@.len());
            self.dfts[m].record(&self.grid, &b.phases);
            m += 1;
        }
        proof {
            let (g1, g2, g3) = choose|g1: Grid3d<T>, g2: Grid3d<T>, g3: Grid3d<T>|
                #[trigger] old(self).fields_stepped(*source, b.signal, g1, g2, g3, &mid);
            assert(old(self).fields_stepped(*source, b.signal, g1, g2, g3, self));
            assert(old(self).probes@[0].trace@.len() == old(self).done());
            assert(self.probes@[0].trace@.len() == old(self).done() + 1);
            assert forall|q: int| 0 <= q < self.probes@.len() implies (
            #[trigger] self.probes@[q]).spec.fits(self.grid.points())
                && self.probes@[q].trace@.len() == self.done() by {
                assert(old(self).probes@[q].spec.fits(self.grid.points()));
            }
            assert forall|q: int| 0 <= q < self.dfts@.len() implies (
            #[trigger] self.dfts@[q]).spec.fits(self.grid.points())
                && self.dfts@[q].sums.samples == self.done() by {
                assert(old(self).dfts@[q].spec.fits(self.grid.points()));
            }
        }
    }
}

/// Changing nothing but E samples keeps a grid sound.
proof fn lemma_only_e<T: Scalar>(before: &Grid3d<T>, after: &Grid3d<T>)
    requires
        before.wf(),
        after.nx == before.nx && after.ny == before.ny && after.nz == before.nz,
        after.npml == before.npml && after.dt == before.dt,
        after.ex@.len() == before.ex@.len(),
        after.ey@.len() == before.ey@.len(),
        after.ez@.len() == before.ez@.len(),
        after.hx == before.hx && after.hy == before.hy && after.hz == before.hz,
        after.ce_x == before.ce_x && after.ce_y == before.ce_y && after.ce_z == before.ce_z,
        after.cpml_x == before.cpml_x,
        after.cpml_y == before.cpml_y,
        after.cpml_z == before.cpml_z,
        after.psi_ex_y == before.psi_ex_y && after.psi_ex_z == before.psi_ex_z,
        after.psi_ey_z == before.psi_ey_z && after.psi_ey_x == before.psi_ey_x,
        after.psi_ez_x == before.psi_ez_x && after.psi_ez_y == before.psi_ez_y,
        after.psi_hx_y == before.psi_hx_y && after.psi_hx_z == before.psi_hx_z,
        after.psi_hy_z == before.psi_hy_z && after.psi_hy_x == before.psi_hy_x,
        after.psi_hz_x == before.psi_hz_x && after.psi_hz_y == before.psi_hz_y,
    ensures
        after.wf(),
        after.same_setup(before),
        after.same_h(before),
        forall|o: Axis|
            #![trigger after.psi_e_a(o)]
            #![trigger after.psi_e_b(o)]
            after.psi_e_a(o) == before.psi_e_a(o) && after.psi_e_b(o) == before.psi_e_b(o),
{
    assert forall|o: Axis|
        #![trigger after.e(o)]
        #![trigger after.ce(o)]
        #![trigger after.psi_e_a(o)]
        #![trigger after.psi_e_b(o)]
        {
            &&& after.e(o).len() == volume(e_dims(after.points(), o))
            &&& after.ce(o).len() == volume(e_dims(after.points(), o))
            &&& after.psi_e_a(o).len() == volume(e_dims(after.points(), o))
            &&& after.psi_e_b(o).len() == volume(e_dims(after.points(), o))
        } by {
        assert(before.e(o).len() == volume(e_dims(after.points(), o)));
    }
    assert forall|o: Axis|
        #![trigger after.h(o)]
        #![trigger after.psi_h_a(o)]
        #![trigger after.psi_h_b(o)]
        {
            &&& after.h(o).len() == before.h(o).len()
            &&& after.psi_h_a(o).len() == before.psi_h_a(o).len()
            &&& after.psi_h_b(o).len() == before.psi_h_b(o).len()
        } by {}
    assert forall|o: Axis| #![trigger after.cpml(o)] after.cpml(o) == before.cpml(o) by {}
}

/// What fills a component's lattice, materials baked in, is its permittivity.
proof fn lemma_filled<T: Scalar>(job: &Field3Job<T>, o: Axis, eps: Seq<T>)
    requires
        job.eps.fills(e_dims(job.points(), o), eps),
    ensures
        job.permittivity(o) == baked(e_dims(job.points(), o), job.materials@, eps),
{
    let d = e_dims(job.points(), o);
    assert(eps =~= Seq::new(volume(d) as nat, |at: int| job.eps.eps_at(at_place(d, at))));
}

/// Baking keeps the length.
proof fn lemma_baked_len<T: Scalar>(
    d: (int, int, int),
    regions: Seq<MaterialRegion<T>>,
    eps: Seq<T>,
)
    ensures
        baked(d, regions, eps).len() == eps.len(),
    decreases regions.len(),
{
    if regions.len() > 0 {
        lemma_baked_len(d, regions.drop_last(), eps);
    }
}

/// `s` leads from `from` to `to` in one step per beat.
pub open spec fn trail3<T: Scalar>(
    s: Seq<Run3<T>>,
    from: Run3<T>,
    to: Run3<T>,
    source: Dipole3<T>,
    beats: Seq<Beat3<T>>,
) -> bool {
    &&& s.len() == beats.len() + 1
    &&& s[0] == from
    &&& s[beats.len() as int] == to
    &&& forall|k: int|
        #![trigger beats[k]]
        0 <= k < beats.len() ==> s[k].stepped(source, &beats[k], &s[k + 1])
}

/// Takes one step per beat. About every hundredth of the way, and at the end,
/// `listener` is told the steps taken and what the first probe saw last.
pub fn simulate3<T: Scalar, L: Listener<Tick<T>>>(
    run: &mut Run3<T>,
    source: &Dipole3<T>,
    beats: &Vec<Beat3<T>>,
    listener: &mut L,
)
    requires
        old(run).wf(),
        old(run).done() + beats@.len() <= u64::MAX,
        source.fits(old(run).grid.points()),
        forall|k: int| 0 <= k < beats@.len() ==> old(run).matches(#[trigger] &beats@[k]),
    ensures
        final(run).wf(),
        final(run).done() == old(run).done() + beats@.len(),
        final(run).grid.points() == old(run).grid.points(),
        final(run).dfts@.len() == old(run).dfts@.len(),
        heard(
            *old(listener),
            ticks(Part::Whole, final(run).probes@[0].trace@.skip(old(run).done() as int)),
            *final(listener),
        ),
        exists|s: Seq<Run3<T>>| trail3(s, *old(run), *final(run), *source, beats@),
{
    let ghost mut s: Seq<Run3<T>> = seq![*run];
    let ghost first = run.done() as int;
    let ghost n = beats@.len() as int;
    let mut k: usize = 0;
    let mut stop: usize = if beats.len() > 0 {
        next_stop(0, beats.len())
    } else {
        0
    };
    proof {
        lemma_heard_nothing::<Tick<T>, L>(*listener);
    }
    while k < beats.len()
        invariant
            k <= beats@.len(),
            n == beats@.len(),
            first == old(run).done(),
            k < n ==> k < stop <= n && report_due(stop as int, n),
            forall|m: int| k < m < stop ==> !#[trigger] report_due(m, n),
            heard(
                *old(listener),
                ticks_to(Part::Whole, run.probes@[0].trace@.skip(first), n, k as int),
                *listener,
            ),
            run.wf(),
            run.done() == old(run).done() + k,
            old(run).done() + beats@.len() <= u64::MAX,
            run.grid.points() == old(run).grid.points(),
            source.fits(run.grid.points()),
            forall|m: int| 0 <= m < beats@.len() ==> old(run).matches(#[trigger] &beats@[m]),
            run.dfts@.len() == old(run).dfts@.len(),
            forall|m: int|
                0 <= m < run.dfts@.len() ==> (#[trigger] run.dfts@[m]).sums.accum@.len()
                    == old(run).dfts@[m].sums.accum@.len(),
            s.len() == k + 1,
            s[0] == *old(run),
            s[k as int] == *run,
            forall|m: int|
                #![trigger beats@[m]]
                0 <= m < k ==> s[m].stepped(*source, &beats@[m], &s[m + 1]),
        decreases beats@.len() - k,
    {
        let ghost before = *run;
        assert(old(run).matches(&beats@[k as int]));
        run.advance(source, &beats[k]);
        proof {
            s = s.push(*run);
            assert(before.stepped(*source, &beats@[k as int], run));
        }
        k += 1;
        proof {
            lemma_ticks_alike(
                Part::Whole,
                before.probes@[0].trace@.skip(first),
                run.probes@[0].trace@.skip(first),
                n,
                k - 1,
            );
        }
        if k == stop {
            let seen = run.probes[0].last();
            let tick = Tick { part: Part::Whole, done: k, seen };
            let ghost l = *listener;
            listener.hear(tick);
            proof {
                let to = ticks_to(Part::Whole, run.probes@[0].trace@.skip(first), n, k - 1);
                assert(seen == run.probes@[0].trace@.skip(first)[k - 1]);
                lemma_heard_more(*old(listener), to, l, tick, *listener);
            }
            if k < beats.len() {
                stop = next_stop(k, beats.len());
            }
        }
    }
    assert(trail3(s, *old(run), *run, *source, beats@));
}

/// Component updates of a run over a lattice.
pub open spec fn lattice_updates(points: (int, int, int), steps: int) -> int {
    6 * volume(points) * steps
}

/// Reads of as many probes over as many steps.
pub open spec fn probe_reads(probes: int, steps: int) -> int {
    2 * probes * steps
}

/// Events that a 3D job counts: six component updates per cell and step, one
/// read per probe and step, and one per Fourier monitor and step.
pub fn ledger3<T: Scalar>(steps: usize, run: &Run3<T>) -> (r: (u64, u64))
    requires
        run.wf(),
        6 * volume(run.grid.points()) * steps <= u64::MAX,
        2 * run.probes@.len() * run.done() <= u64::MAX,
    ensures
        r.0 == 6 * volume(run.grid.points()) * steps,
        r.0 == lattice_updates(run.grid.points(), steps as int),
        r.1 == 2 * run.probes@.len() * run.done(),
        r.1 == probe_reads(run.probes@.len() as int, run.done() as int),
{
    let g = &run.grid;
    let cells: u64 = cells_of(g.nx, g.ny, g.nz) as u64;
    let macs: u64 = if steps == 0 {
        assert(6 * volume(run.grid.points()) * 0 == 0) by (nonlinear_arith);
        0
    } else {
        assert(6 * cells <= 6 * cells * steps) by (nonlinear_arith)
            requires
                0 <= cells,
                1 <= steps,
        ;
        6 * cells * steps as u64
    };
    let done: u64 = run.probes[0].trace.len() as u64;
    let n: u64 = run.probes.len() as u64;
    proof {
        if done == 0 {
            assert(2 * n * 0 == 0) by (nonlinear_arith);
        } else {
            assert(2 * n <= 2 * n * done) by (nonlinear_arith)
                requires
                    0 <= n,
                    1 <= done,
            ;
        }
    }
    let reads: u64 = if done == 0 {
        0
    } else {
        2 * n * done
    };
    (macs, reads)
}

fn cells_of(nx: usize, ny: usize, nz: usize) -> (r: usize)
    requires
        nz >= 1,
        nx * ny * nz <= usize::MAX,
    ensures
        r == volume((nx as int, ny as int, nz as int)),
{
    assert(0 <= nx * ny <= nx * ny * nz) by (nonlinear_arith)
        requires
            0 <= nx,
            0 <= ny,
            1 <= nz,
    ;
    nx * ny * nz
}

/// Three numbers in brackets.
pub open spec fn triple(a: nat, b: nat, c: nat) -> Seq<char> {
    "("@ + decimal(a) + ", "@ + decimal(b) + ", "@ + decimal(c) + ")"@
}

fn triple_text(a: usize, b: usize, c: usize) -> (r: String)
    ensures
        r@ == triple(a as nat, b as nat, c as nat),
{
    let mut s = "(".to_string();
    s.append(decimal_text(a as u64).as_str());
    s.append(", ");
    s.append(decimal_text(b as u64).as_str());
    s.append(", ");
    s.append(decimal_text(c as u64).as_str());
    s.append(")");
    s
}

/// Name of a component in reports.
pub open spec fn comp_name(c: Comp) -> Seq<char> {
    match c {
        Comp::Ex => "Ex"@,
        Comp::Ey => "Ey"@,
        Comp::Ez => "Ez"@,
    }
}

/// The line that reports a sample outside its component's array.
pub open spec fn outside_line(
    what: Seq<char>,
    c: Comp,
    p: (nat, nat, nat),
    d: (nat, nat, nat),
) -> Seq<char> {
    what + ": "@ + comp_name(c) + " sample "@ + triple(p.0, p.1, p.2) + " outside dims "@ + triple(
        d.0,
        d.1,
        d.2,
    )
}

fn outside_text(
    what: &str,
    c: Comp,
    p: (usize, usize, usize),
    d: (usize, usize, usize),
) -> (r: String)
    ensures
        r@ == outside_line(
            what@,
            c,
            (p.0 as nat, p.1 as nat, p.2 as nat),
            (d.0 as nat, d.1 as nat, d.2 as nat),
        ),
{
    let mut s = what.to_string();
    s.append(": ");
    s.append(
        match c {
            Comp::Ex => "Ex",
            Comp::Ey => "Ey",
            Comp::Ez => "Ez",
        },
    );
    s.append(" sample ");
    s.append(triple_text(p.0, p.1, p.2).as_str());
    s.append(" outside dims ");
    s.append(triple_text(d.0, d.1, d.2).as_str());
    s
}

impl Field3Error {
    /// The line that reports the error of a job; one that quotes material
    /// parameters is left to whoever holds them.
    pub open spec fn line<T: Scalar>(self, job: &Field3Job<T>) -> Option<Seq<char>> {
        let d = |o: Axis|
            ({
                let e = e_dims(job.points(), o);
                (e.0 as nat, e.1 as nat, e.2 as nat)
            });
        match self {
            Field3Error::GridTooSmall => Some(
                "grid "@ + triple(job.nx as nat, job.ny as nat, job.nz as nat)
                    + " must exceed 2·npml + 2 = "@ + decimal((2 * job.npml + 2) as nat)
                    + " per axis"@,
            ),
            Field3Error::CourantNotPositive => Some("courant must be positive"@),
            Field3Error::Material(_) => None,
            Field3Error::EpsNotPositive => Some("eps_r must be positive"@),
            Field3Error::SourceOutside => Some(
                outside_line(
                    "source"@,
                    job.source.axis.polarized(),
                    (job.source.i as nat, job.source.j as nat, job.source.k as nat),
                    d(job.source.axis),
                ),
            ),
            Field3Error::ProbeOutside(k) => {
                let p = job.watched()[k as int];
                Some(
                    outside_line(
                        "probe"@,
                        p.component,
                        (p.i as nat, p.j as nat, p.k as nat),
                        d(p.component.axis()),
                    ),
                )
            },
        }
    }

    /// The line that reports the error of a job.
    pub fn message<T: Scalar>(&self, job: &Field3Job<T>) -> (r: Option<String>)
        requires
            job.fault(*self),
            2 * job.npml + 2 <= usize::MAX,
        ensures
            match r {
                Some(s) => self.line(job) == Some(s@),
                None => self.line(job) is None,
            },
    {
        match *self {
            Field3Error::GridTooSmall => {
                let mut s = "grid ".to_string();
                s.append(triple_text(job.nx, job.ny, job.nz).as_str());
                s.append(" must exceed 2·npml + 2 = ");
                s.append(decimal_text((2 * job.npml + 2) as u64).as_str());
                s.append(" per axis");
                Some(s)
            },
            Field3Error::CourantNotPositive => Some("courant must be positive".to_string()),
            Field3Error::Material(_) => None,
            Field3Error::EpsNotPositive => Some("eps_r must be positive".to_string()),
            Field3Error::SourceOutside => {
                let s = &job.source;
                let d = sample_dims(job, s.axis);
                Some(outside_text("source", s.axis.e_comp(), (s.i, s.j, s.k), d))
            },
            Field3Error::ProbeOutside(k) => {
                let specs = job.watch_list();
                let p = specs[k];
                let d = sample_dims(job, p.component.along());
                Some(outside_text("probe", p.component, (p.i, p.j, p.k), d))
            },
        }
    }
}

fn sample_dims<T: Scalar>(job: &Field3Job<T>, o: Axis) -> (r: (usize, usize, usize))
    requires
        job.nx >= 1,
        job.ny >= 1,
        job.nz >= 1,
    ensures
        (r.0 as int, r.1 as int, r.2 as int) == e_dims(job.points(), o),
{
    match o {
        Axis::X => (job.nx - 1, job.ny, job.nz),
        Axis::Y => (job.nx, job.ny - 1, job.nz),
        Axis::Z => (job.nx, job.ny, job.nz - 1),
    }
}

/// `run` is where a job ends: from rest, one step per beat.
pub open spec fn ran3<T: Scalar>(
    job: &Field3Job<T>,
    dt: T,
    cpml: (CpmlTables<T>, CpmlTables<T>, CpmlTables<T>),
    beats: Seq<Beat3<T>>,
    run: Run3<T>,
) -> bool {
    &&& run.wf()
    &&& run.done() == job.steps
    &&& run.grid.points() == job.points()
    &&& run.probes@.len() == job.watched().len()
    &&& exists|s: Seq<Run3<T>>|
        s.len() > 0 && s[0].wf() && s[0].starts(job, dt, cpml) && #[trigger] trail3(
            s,
            s[0],
            run,
            job.source,
            beats,
        )
}

/// Executor of 3D field jobs.
pub struct Field3Executor;

impl Field3Executor {
    /// Runs a job, or says why it is refused: sets it up and takes one step
    /// per beat. `listener` hears of the run; of a refused job it hears nothing.
    pub fn execute<T: Scalar, L: Listener<Tick<T>>>(
        &self,
        job: &Field3Job<T>,
        dt: T,
        cpml: (CpmlTables<T>, CpmlTables<T>, CpmlTables<T>),
        beats: &Vec<Beat3<T>>,
        listener: &mut L,
    ) -> (r: Result<Run3<T>, Field3Error>)
        requires
            job.nx * job.ny * job.nz <= usize::MAX,
            cpml.0.e.covers(job.nx as int) && cpml.0.h.covers(job.nx - 1),
            cpml.1.e.covers(job.ny as int) && cpml.1.h.covers(job.ny - 1),
            cpml.2.e.covers(job.nz as int) && cpml.2.h.covers(job.nz - 1),
            beats@.len() == job.steps,
            beats@.len() <= u64::MAX,
            forall|k: int|
                0 <= k < beats@.len() ==> (#[trigger] beats@[k]).phases@.len()
                    == job.n_frequencies,
        ensures
            match r {
                Ok(run) => {
                    &&& job.sound()
                    &&& ran3(job, dt, cpml, beats@, run)
                    &&& heard(
                        *old(listener),
                        ticks(Part::Whole, run.probes@[0].trace@),
                        *final(listener),
                    )
                },
                Err(e) => job.fault(e) && *final(listener) == *old(listener),
            },
    {
        let mut run = match Run3::prepare(job, dt, cpml) {
            Ok(run) => run,
            Err(e) => {
                return Err(e);
            },
        };
        let ghost start = run;
        proof {
            assert(run.probes@[0].trace@.len() == 0);
            assert(run.done() == 0);
            assert forall|k: int| 0 <= k < beats@.len() implies run.matches(
                #[trigger] &beats@[k],
            ) by {
                assert(beats@[k].phases@.len() == job.n_frequencies);
            }
        }
        simulate3(&mut run, &job.source, beats, listener);
        proof {
            assert(run.probes@[0].trace@.skip(0) =~= run.probes@[0].trace@);
            let s = choose|s: Seq<Run3<T>>| trail3(s, start, run, job.source, beats@);
            assert(s.len() > 0 && s[0].wf() && s[0].starts(job, dt, cpml));
            assert(trail3(s, s[0], run, job.source, beats@));
            assert(run.done() == job.steps);
        }
        Ok(run)
    }
}

} // verus!
