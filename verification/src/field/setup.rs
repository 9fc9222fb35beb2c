//! What a 2D job needs before it runs: the modes of its guide, the plan that
//! follows from them, and the ports and sources that carry them.

use crate::field::clock::Timing;
use crate::field::extraction::Rig;
use crate::field::grid3::CpmlTables;
use crate::field::job::FieldPlan;
use crate::field::mode::{is_unit, ModeShape, ModeSolver, SlabMode, SlabWaveguide};
use crate::field::monitor::{PortMonitor, PortSpec};
use crate::field::run::{Drive, FieldJob};
use crate::field::source::{ModeInjector, Source, TimeProfile};
use crate::scalar::Scalar;
use vstd::prelude::*;

verus! {

/// A guided-mode line source: the profile of a solved mode on one column.
#[derive(Debug, Clone, Copy)]
pub struct ModeSourceSpec<T> {
    /// Column of the source.
    pub i: usize,
    /// Mode order (0 = fundamental).
    pub mode: usize,
    /// Frequency at which the mode is solved.
    pub omega: T,
    pub time: TimeProfile<T>,
    pub amplitude: T,
}

/// Why a mode has no profile.
#[derive(Debug, Clone, Copy, PartialEq, Eq, Structural)]
pub enum ModeFault {
    /// There is no guide, or it does not guide the mode.
    NotGuided,
    /// The profile has no positive norm on the rows of the grid.
    Degenerate,
}

/// `r` is what [`SlabWaveguide::solve`] finds.
pub open spec fn is_mode<T: Scalar, R: Fn(T) -> T, G: Fn(T) -> T>(
    guide: &SlabWaveguide<T>,
    omega: T,
    m: usize,
    solver: &ModeSolver<T, R, G>,
    r: Option<SlabMode<T>>,
) -> bool {
    if guide.guides(omega) {
        exists|by: (T, T, T, T)| #[trigger] solver.solved(guide, omega, m, r, by)
    } else {
        r is None
    }
}

/// `r` is the profile of a solved mode on `ny` rows.
pub open spec fn is_sample<T, C, S, E, M, U, R>(
    mode: SlabMode<T>,
    ny: int,
    center: T,
    shape: &ModeShape<C, S, E, M, U>,
    root: R,
    r: Result<Vec<T>, ModeFault>,
) -> bool where
    T: Scalar,
    C: Fn(T) -> T,
    S: Fn(T) -> T,
    E: Fn(T) -> T,
    M: Fn(T) -> T,
    U: Fn(T) -> T,
    R: Fn(T) -> T,
 {
    if ny < 3 {
        r == Err::<Vec<T>, _>(ModeFault::Degenerate)
    } else {
        exists|values: Seq<T>|
            values.len() == ny && #[trigger] mode.sampled(shape, center, values) && match r {
                Ok(p) => is_unit(values, root, Some(p)),
                Err(e) => e == ModeFault::Degenerate && is_unit(values, root, None),
            }
    }
}

/// `r` is the profile of mode `m` of a guide on `ny` rows, or why there is
/// none.
pub open spec fn is_mode_profile<T, R, G, C, S, E, M, U>(
    guide: Option<(SlabWaveguide<T>, T)>,
    omega: T,
    m: usize,
    ny: int,
    solver: &ModeSolver<T, R, G>,
    shape: &ModeShape<C, S, E, M, U>,
    r: Result<Vec<T>, ModeFault>,
) -> bool where
    T: Scalar,
    R: Fn(T) -> T,
    G: Fn(T) -> T,
    C: Fn(T) -> T,
    S: Fn(T) -> T,
    E: Fn(T) -> T,
    M: Fn(T) -> T,
    U: Fn(T) -> T,
 {
    match guide {
        None => r == Err::<Vec<T>, _>(ModeFault::NotGuided),
        Some(g) => exists|mode: Option<SlabMode<T>>|
            #[trigger] is_mode(&g.0, omega, m, solver, mode) && match mode {
                None => r == Err::<Vec<T>, _>(ModeFault::NotGuided),
                Some(x) => is_sample(x, ny, g.1, shape, solver.root, r),
            },
    }
}

/// Solves mode `m` of a guide and samples its profile on `ny` rows.
pub fn mode_profile<T, R, G, C, S, E, M, U>(
    guide: &Option<(SlabWaveguide<T>, T)>,
    omega: T,
    m: usize,
    ny: usize,
    solver: &ModeSolver<T, R, G>,
    shape: &ModeShape<C, S, E, M, U>,
) -> (r: Result<Vec<T>, ModeFault>) where
    T: Scalar,
    R: Fn(T) -> T,
    G: Fn(T) -> T,
    C: Fn(T) -> T,
    S: Fn(T) -> T,
    E: Fn(T) -> T,
    M: Fn(T) -> T,
    U: Fn(T) -> T,

    requires
        solver.ready(),
        shape.ready::<T>(),
        m < usize::MAX,
    ensures
        is_mode_profile(*guide, omega, m, ny as int, solver, shape, r),
{
    let (slab, center) = match guide {
        Some((s, c)) => (s, *c),
        None => {
            return Err(ModeFault::NotGuided);
        },
    };
    let solved = slab.solve(omega, m, solver);
    assert(is_mode(slab, omega, m, solver, solved));
    let mode = match solved {
        Some(x) => x,
        None => {
            return Err(ModeFault::NotGuided);
        },
    };
    if ny < 3 {
        return Err(ModeFault::Degenerate);
    }
    let sampled = mode.sample(ny, center, shape, &solver.root);
    match sampled {
        Some(p) => Ok(p),
        None => Err(ModeFault::Degenerate),
    }
}

/// Profiles of the ports, port by port, frequency by frequency.
pub type Profiles<T> = Vec<Vec<Result<Vec<T>, ModeFault>>>;

/// Every entry is the profile of its port's mode at its frequency.
pub open spec fn are_profiles<T, R, G, C, S, E, M, U>(
    guide: Option<(SlabWaveguide<T>, T)>,
    ports: Seq<PortSpec>,
    frequencies: Seq<T>,
    ny: int,
    solver: &ModeSolver<T, R, G>,
    shape: &ModeShape<C, S, E, M, U>,
    r: Seq<Vec<Result<Vec<T>, ModeFault>>>,
) -> bool where
    T: Scalar,
    R: Fn(T) -> T,
    G: Fn(T) -> T,
    C: Fn(T) -> T,
    S: Fn(T) -> T,
    E: Fn(T) -> T,
    M: Fn(T) -> T,
    U: Fn(T) -> T,
 {
    &&& r.len() == ports.len()
    &&& forall|k: int| 0 <= k < r.len() ==> (#[trigger] r[k])@.len() == frequencies.len()
    &&& forall|k: int, f: int|
        0 <= k < r.len() && 0 <= f < frequencies.len() ==> is_mode_profile(
            guide,
            frequencies[f],
            ports[k].mode,
            ny,
            solver,
            shape,
            #[trigger] r[k]@[f],
        )
}

/// Solves and samples the mode of every port at every frequency.
pub fn profiles<T, R, G, C, S, E, M, U>(
    guide: &Option<(SlabWaveguide<T>, T)>,
    ports: &Vec<PortSpec>,
    frequencies: &Vec<T>,
    ny: usize,
    solver: &ModeSolver<T, R, G>,
    shape: &ModeShape<C, S, E, M, U>,
) -> (r: Profiles<T>) where
    T: Scalar,
    R: Fn(T) -> T,
    G: Fn(T) -> T,
    C: Fn(T) -> T,
    S: Fn(T) -> T,
    E: Fn(T) -> T,
    M: Fn(T) -> T,
    U: Fn(T) -> T,

    requires
        solver.ready(),
        shape.ready::<T>(),
        forall|k: int| 0 <= k < ports@.len() ==> (#[trigger] ports@[k]).mode < usize::MAX,
    ensures
        are_profiles(*guide, ports@, frequencies@, ny as int, solver, shape, r@),
{
    let mut r: Profiles<T> = Vec::new();
    let mut k: usize = 0;
    while k < ports.len()
        invariant
            k <= ports@.len(),
            solver.ready(),
            shape.ready::<T>(),
            forall|q: int| 0 <= q < ports@.len() ==> (#[trigger] ports@[q]).mode < usize::MAX,
            r@.len() == k,
            forall|q: int| 0 <= q < k ==> (#[trigger] r@[q])@.len() == frequencies@.len(),
            forall|q: int, f: int|
                0 <= q < k && 0 <= f < frequencies@.len() ==> is_mode_profile(
                    *guide,
                    frequencies@[f],
                    ports@[q].mode,
                    ny as int,
                    solver,
                    shape,
                    #[trigger] r@[q]@[f],
                ),
        decreases ports@.len() - k,
    {
        let m: usize = ports[k].mode;
        let mut row: Vec<Result<Vec<T>, ModeFault>> = Vec::new();
        let mut f: usize = 0;
        while f < frequencies.len()
            invariant
                f <= frequencies@.len(),
                solver.ready(),
                shape.ready::<T>(),
                m < usize::MAX,
                row@.len() == f,
                forall|q: int|
                    0 <= q < f ==> is_mode_profile(
                        *guide,
                        frequencies@[q],
                        m,
                        ny as int,
                        solver,
                        shape,
                        #[trigger] row@[q],
                    ),
            decreases frequencies@.len() - f,
        {
            row.push(mode_profile(guide, frequencies[f], m, ny, solver, shape));
            f += 1;
        }
        r.push(row);
        k += 1;
    }
    r
}

/// A profile has one value per row.
pub open spec fn spans<T>(r: Result<Vec<T>, ModeFault>, ny: int) -> bool {
    r matches Ok(p) ==> p@.len() == ny
}

proof fn lemma_profile_spans<T, R, G, C, S, E, M, U>(
    guide: Option<(SlabWaveguide<T>, T)>,
    omega: T,
    m: usize,
    ny: int,
    solver: &ModeSolver<T, R, G>,
    shape: &ModeShape<C, S, E, M, U>,
    r: Result<Vec<T>, ModeFault>,
) where
    T: Scalar,
    R: Fn(T) -> T,
    G: Fn(T) -> T,
    C: Fn(T) -> T,
    S: Fn(T) -> T,
    E: Fn(T) -> T,
    M: Fn(T) -> T,
    U: Fn(T) -> T,

    requires
        is_mode_profile(guide, omega, m, ny, solver, shape, r),
    ensures
        spans(r, ny),
{
}

/// A mode is guided, whatever its profile.
pub open spec fn guided<T>(r: Result<Vec<T>, ModeFault>) -> bool {
    r != Err::<Vec<T>, _>(ModeFault::NotGuided)
}

fn is_guided<T>(r: &Result<Vec<T>, ModeFault>) -> (b: bool)
    ensures
        b == guided(*r),
{
    match r {
        Ok(_) => true,
        Err(e) => *e != ModeFault::NotGuided,
    }
}

/// What drives a 2D job and what watches it.
pub struct FieldSetup<T> {
    pub job: FieldJob<T>,
    /// A source and its time signature.
    pub source: Option<(Source<T>, TimeProfile<T>)>,
    pub mode_source: Option<ModeSourceSpec<T>>,
    pub ports: Vec<PortSpec>,
    pub frequencies: Vec<T>,
}

/// The modes of a job: the profile of its mode source, if it has one, and
/// those of its ports.
pub struct Modes<T> {
    pub launch: Option<Result<Vec<T>, ModeFault>>,
    pub ports: Profiles<T>,
}

impl<T: Scalar> FieldSetup<T> {
    /// Every mode has a successor, and the rows of the guide can be added up.
    pub open spec fn solvable(&self) -> bool {
        &&& self.job.eps.countable_rows()
        &&& self.mode_source matches Some(m) ==> m.mode < usize::MAX
        &&& forall|k: int|
            0 <= k < self.ports@.len() ==> (#[trigger] self.ports@[k]).mode < usize::MAX
    }

    /// `m` holds the modes of this job.
    pub open spec fn has_modes<R, G, C, S, E, M, U>(
        &self,
        solver: &ModeSolver<T, R, G>,
        shape: &ModeShape<C, S, E, M, U>,
        m: &Modes<T>,
    ) -> bool where
        R: Fn(T) -> T,
        G: Fn(T) -> T,
        C: Fn(T) -> T,
        S: Fn(T) -> T,
        E: Fn(T) -> T,
        M: Fn(T) -> T,
        U: Fn(T) -> T,
     {
        let guide = self.job.eps.guide();
        &&& (m.launch is Some) == (self.mode_source is Some)
        &&& self.mode_source matches Some(s) ==> is_mode_profile(
            guide,
            s.omega,
            s.mode,
            self.job.ny as int,
            solver,
            shape,
            m.launch->0,
        )
        &&& are_profiles(
            guide,
            self.ports@,
            self.frequencies@,
            self.job.ny as int,
            solver,
            shape,
            m.ports@,
        )
    }

    /// `m` has a mode for the mode source and one per port and frequency, and
    /// every profile has one value per row.
    pub open spec fn fitted(&self, m: &Modes<T>) -> bool {
        let ny = self.job.ny as int;
        &&& (m.launch is Some) == (self.mode_source is Some)
        &&& m.launch is Some ==> spans(m.launch->0, ny)
        &&& m.ports@.len() == self.ports@.len()
        &&& forall|k: int|
            0 <= k < m.ports@.len() ==> (#[trigger] m.ports@[k])@.len() == self.frequencies@.len()
        &&& forall|k: int, f: int|
            0 <= k < m.ports@.len() && 0 <= f < m.ports@[k]@.len() ==> spans(
                #[trigger] m.ports@[k]@[f],
                ny,
            )
    }

    /// Solves every mode that the job names.
    pub fn modes<R, G, C, S, E, M, U>(
        &self,
        solver: &ModeSolver<T, R, G>,
        shape: &ModeShape<C, S, E, M, U>,
    ) -> (r: Modes<T>) where
        R: Fn(T) -> T,
        G: Fn(T) -> T,
        C: Fn(T) -> T,
        S: Fn(T) -> T,
        E: Fn(T) -> T,
        M: Fn(T) -> T,
        U: Fn(T) -> T,

        requires
            self.solvable(),
            solver.ready(),
            shape.ready::<T>(),
        ensures
            self.has_modes(solver, shape, &r),
            self.fitted(&r),
    {
        let guide = self.job.eps.slab_waveguide();
        let launch = match &self.mode_source {
            Some(s) => Some(mode_profile(&guide, s.omega, s.mode, self.job.ny, solver, shape)),
            None => None,
        };
        let ports = profiles(&guide, &self.ports, &self.frequencies, self.job.ny, solver, shape);
        proof {
            let ny = self.job.ny as int;
            if self.mode_source is Some {
                let s = self.mode_source->0;
                lemma_profile_spans(guide, s.omega, s.mode, ny, solver, shape, launch->0);
            }
            assert forall|k: int, f: int|
                0 <= k < ports@.len() && 0 <= f < ports@[k]@.len() implies spans(
                #[trigger] ports@[k]@[f],
                ny,
            ) by {
                lemma_profile_spans(
                    guide,
                    self.frequencies@[f],
                    self.ports@[k].mode,
                    ny,
                    solver,
                    shape,
                    ports@[k]@[f],
                );
            }
        }
        Modes { launch, ports }
    }

    /// The plan that a job and its modes make.
    pub open spec fn planned(&self, m: &Modes<T>, p: &FieldPlan) -> bool {
        &&& p.wf()
        &&& p.nx == self.job.nx
        &&& p.has_source == (self.source is Some)
        &&& p.launch == (match self.mode_source {
            Some(s) => Some(s.i),
            None => None,
        })
        &&& p.launch_guided == (m.launch is Some && guided(m.launch->0))
        &&& p.waveguide == (self.job.eps.guide() is Some)
        &&& p.ports@ == self.ports@
        &&& p.n_frequencies == self.frequencies@.len()
        &&& forall|k: int, f: int|
            0 <= k < m.ports@.len() && 0 <= f < self.frequencies@.len() ==> #[trigger] p.guided@[k]@[f]
                == guided(m.ports@[k]@[f])
    }

    /// Draws up the plan of a job from its modes.
    pub fn plan(&self, m: &Modes<T>) -> (p: FieldPlan)
        requires
            self.job.eps.countable_rows(),
            m.ports@.len() == self.ports@.len(),
            forall|k: int|
                0 <= k < m.ports@.len() ==> (#[trigger] m.ports@[k])@.len()
                    == self.frequencies@.len(),
        ensures
            self.planned(m, &p),
    {
        let nf: usize = self.frequencies.len();
        let mut table: Vec<Vec<bool>> = Vec::new();
        let mut ports: Vec<PortSpec> = Vec::new();
        let mut k: usize = 0;
        while k < self.ports.len()
            invariant
                k <= self.ports@.len(),
                nf == self.frequencies@.len(),
                m.ports@.len() == self.ports@.len(),
                forall|q: int| 0 <= q < m.ports@.len() ==> (#[trigger] m.ports@[q])@.len() == nf,
                ports@ == self.ports@.take(k as int),
                table@.len() == k,
                forall|q: int| 0 <= q < k ==> (#[trigger] table@[q])@.len() == nf,
                forall|q: int, f: int|
                    0 <= q < k && 0 <= f < nf ==> #[trigger] table@[q]@[f] == guided(
                        m.ports@[q]@[f],
                    ),
            decreases self.ports@.len() - k,
        {
            let mut row: Vec<bool> = Vec::new();
            let mut f: usize = 0;
            assert(m.ports@[k as int]@.len() == nf);
            while f < nf
                invariant
                    f <= nf,
                    k < m.ports@.len(),
                    m.ports@[k as int]@.len() == nf,
                    row@.len() == f,
                    forall|q: int|
                        0 <= q < f ==> #[trigger] row@[q] == guided(m.ports@[k as int]@[q]),
                decreases nf - f,
            {
                row.push(is_guided(&m.ports[k][f]));
                f += 1;
            }
            table.push(row);
            ports.push(self.ports[k]);
            k += 1;
            assert(self.ports@.take(k as int) =~= self.ports@.take(k - 1).push(
                self.ports@[k - 1],
            ));
        }
        assert(self.ports@.take(k as int) =~= self.ports@);
        FieldPlan {
            nx: self.job.nx,
            has_source: self.source.is_some(),
            launch: match &self.mode_source {
                Some(s) => Some(s.i),
                None => None,
            },
            launch_guided: match &m.launch {
                Some(l) => is_guided(l),
                None => false,
            },
            waveguide: self.job.eps.slab_waveguide().is_some(),
            ports,
            n_frequencies: nf,
            guided: table,
        }
    }

    /// `d` drives the job: its source, and its mode source with the profile
    /// of its mode, where that has one.
    pub open spec fn drives(&self, m: &Modes<T>, d: &Drive<T>) -> bool {
        &&& d.source == (match self.source {
            Some(s) => Some(s.0),
            None => None,
        })
        &&& match (self.mode_source, m.launch) {
            (Some(s), Some(Ok(p))) => {
                &&& d.injector is Some
                &&& d.injector->0.i == s.i
                &&& d.injector->0.amplitude == s.amplitude
                &&& d.injector->0.profile@ == p@
            },
            _ => d.injector is None,
        }
    }

    /// What drives a job.
    pub fn drive(&self, m: &Modes<T>) -> (d: Drive<T>)
        ensures
            self.drives(m, &d),
    {
        let injector = match (&self.mode_source, &m.launch) {
            (Some(s), Some(Ok(p))) => Some(
                ModeInjector { i: s.i, profile: copied(p), amplitude: s.amplitude },
            ),
            _ => None,
        };
        let source = match self.source {
            Some(s) => Some(s.0),
            None => None,
        };
        Drive { source, injector }
    }

    /// `t` is what the job asks of the clock.
    pub open spec fn times(&self, t: &Timing<T>) -> bool {
        &&& t.source == (match self.source {
            Some(s) => Some(s.1),
            None => None,
        })
        &&& t.mode_source == (match self.mode_source {
            Some(s) => Some(s.time),
            None => None,
        })
        &&& t.frequencies@ == self.frequencies@
        &&& t.ports == (self.ports@.len() > 0)
    }

    /// What the job asks of the clock.
    pub fn timing(&self) -> (t: Timing<T>)
        ensures
            self.times(&t),
    {
        Timing {
            source: match self.source {
                Some(s) => Some(s.1),
                None => None,
            },
            mode_source: match self.mode_source {
                Some(s) => Some(s.time),
                None => None,
            },
            frequencies: copied(&self.frequencies),
            ports: self.ports.len() > 0,
        }
    }

    /// Every port has a profile at every frequency.
    pub open spec fn sampled(m: &Modes<T>) -> bool {
        forall|k: int, f: int|
            0 <= k < m.ports@.len() && 0 <= f < m.ports@[k]@.len() ==> (
            #[trigger] m.ports@[k]@[f]) is Ok
    }

    /// `ports` are fresh ports with the profiles of their modes.
    pub open spec fn watches(&self, m: &Modes<T>, ports: Seq<PortMonitor<T>>) -> bool {
        &&& ports.len() == self.ports@.len()
        &&& forall|k: int| 0 <= k < ports.len() ==> #[trigger] self.watches_at(m, ports, k)
    }

    pub open spec fn watches_at(
        &self,
        m: &Modes<T>,
        ports: Seq<PortMonitor<T>>,
        k: int,
    ) -> bool {
        let p = ports[k];
        &&& p.i == self.ports@[k].i
        &&& p.samples == 0
        &&& p.accum@.len() == m.ports@[k]@.len()
        &&& p.profiles@.len() == m.ports@[k]@.len()
        &&& forall|f: int|
            0 <= f < p.profiles@.len() ==> (#[trigger] p.profiles@[f])@ == m.ports@[k]@[f]->Ok_0@
    }

    /// What one run of a job consumes.
    pub fn rig(&self, m: &Modes<T>, cpml: (CpmlTables<T>, CpmlTables<T>)) -> (r: Rig<T>)
        requires
            m.ports@.len() == self.ports@.len(),
            Self::sampled(m),
        ensures
            r.cpml == cpml,
            self.watches(m, r.ports@),
    {
        let mut ports: Vec<PortMonitor<T>> = Vec::new();
        let mut k: usize = 0;
        while k < self.ports.len()
            invariant
                k <= self.ports@.len(),
                m.ports@.len() == self.ports@.len(),
                Self::sampled(m),
                ports@.len() == k,
                forall|q: int| 0 <= q < k ==> #[trigger] self.watches_at(m, ports@, q),
            decreases self.ports@.len() - k,
        {
            let ghost before = ports@;
            let mut rows: Vec<Vec<T>> = Vec::new();
            let mut f: usize = 0;
            while f < m.ports[k].len()
                invariant
                    k < m.ports@.len(),
                    f <= m.ports@[k as int]@.len(),
                    Self::sampled(m),
                    rows@.len() == f,
                    forall|q: int|
                        0 <= q < f ==> (#[trigger] rows@[q])@ == m.ports@[k as int]@[q]->Ok_0@,
                decreases m.ports@[k as int]@.len() - f,
            {
                assert(m.ports@[k as int]@[f as int] is Ok);
                match &m.ports[k][f] {
                    Ok(p) => {
                        rows.push(copied(p));
                    },
                    Err(_) => {},
                }
                f += 1;
            }
            ports.push(PortMonitor::new(self.ports[k].i, rows));
            k += 1;
            assert forall|q: int| 0 <= q < k implies #[trigger] self.watches_at(m, ports@, q) by {
                if q < k - 1 {
                    assert(self.watches_at(m, before, q));
                }
            }
        }
        Rig { cpml, ports }
    }
}

pub(crate) fn copied<T: Scalar>(v: &Vec<T>) -> (r: Vec<T>)
    ensures
        r@ == v@,
{
    let mut r: Vec<T> = Vec::new();
    let mut k: usize = 0;
    while k < v.len()
        invariant
            k <= v@.len(),
            r@ == v@.take(k as int),
        decreases v@.len() - k,
    {
        r.push(v[k]);
        k += 1;
        assert(v@.take(k as int) =~= v@.take(k - 1).push(v@[k - 1]));
    }
    assert(v@.take(v@.len() as int) =~= v@);
    r
}

} // verus!
