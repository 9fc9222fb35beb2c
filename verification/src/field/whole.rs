//! Whole jobs: from what a job says to where it ends. The time step, the layer
//! coefficients and the beats of a run follow from the job and from the
//! elementary functions.

use crate::complex::Cx;
use crate::field::clock::{beats3, is_beat3, is_signal, is_time_step, moment, signals};
use crate::field::clock::{time_step, Timing};
use crate::field::cpml::CpmlParams;
use crate::field::eps::EpsSpec;
use crate::field::extraction::{darkens, lemma_tested_before_the_runs, ticks_of_both};
use crate::field::extraction::{Extraction, Rig};
use crate::field::gpu::{build_job_data, GpuError, GpuJob, JobData};
use crate::field::grid3::CpmlTables;
use crate::field::job::{Course, FieldError, FieldPlan};
use crate::field::lattice::volume;
use crate::field::run::{keeps_time, ran, Beat, Drive, FieldExecutor, FieldLedger, SimRun};
use crate::field::run3::{ledger3, ran3, Beat3, Field3Error, Field3Executor, Field3Job, Run3};
use crate::field::setup::{copied, FieldSetup, Modes};
use crate::field::source::{TimeProfile, Waveform};
use crate::field::sparams::is_column;
use crate::field::ticks::{ticks, Part, Tick};
use crate::progress::{heard, Listener};
use crate::scalar::Scalar;
use vstd::prelude::*;

verus! {

/// The functions that runs are timed with, and the grading of their layers.
pub struct Physics<T, R, P, E, S, C> {
    /// Square root.
    pub root: R,
    /// Raises a relative depth to the grading order.
    pub power: P,
    pub layers: CpmlParams<T>,
    pub wave: Waveform<T, E, S, C>,
}

impl<T, R, P, E, S, C> Physics<T, R, P, E, S, C> where
    T: Scalar,
    R: Fn(T) -> T,
    P: Fn(T) -> T,
    E: Fn(T) -> T,
    S: Fn(T) -> T,
    C: Fn(T) -> T,
 {
    /// The functions take any sample.
    pub open spec fn ready(&self) -> bool {
        &&& forall|x: T| #[trigger] call_requires(self.root, (x,))
        &&& forall|x: T| #[trigger] call_requires(self.power, (x,))
        &&& self.wave.ready()
    }

    /// `t` holds the layer coefficients of an axis with `n` points.
    pub open spec fn lines(&self, n: usize, npml: usize, dt: T, t: CpmlTables<T>) -> bool {
        let (power, exp) = (self.power, self.wave.exp);
        &&& self.layers.tabulates(t.e, n as int, None, n, npml, dt, power, exp)
        &&& self.layers.tabulates(
            t.h,
            n - 1,
            Some(self.wave.half),
            n,
            npml,
            dt,
            power,
            exp,
        )
    }

    fn axis(&self, n: usize, npml: usize, dt: T) -> (t: CpmlTables<T>)
        requires
            self.ready(),
            n >= 1,
        ensures
            self.lines(n, npml, dt, t),
    {
        self.layers.axis(n, npml, dt, self.wave.half, &self.power, &self.wave.exp)
    }

    /// The beats of a 3D run, from its first step on.
    pub open spec fn beats3(
        &self,
        time: TimeProfile<T>,
        frequencies: Seq<T>,
        dt: T,
        beats: Seq<Beat3<T>>,
    ) -> bool {
        forall|n: int|
            0 <= n < beats.len() ==> is_beat3(
                time,
                frequencies,
                moment(n, dt),
                &self.wave,
                #[trigger] beats[n],
            )
    }

    /// The signals of a source, from the first step on.
    pub open spec fn signals(&self, time: Option<TimeProfile<T>>, dt: T, s: Seq<T>) -> bool {
        forall|n: int|
            0 <= n < s.len() ==> is_signal(time, moment(n, dt), &self.wave, #[trigger] s[n])
    }

    /// `d` is what a host uploads for `steps` steps of a job.
    pub open spec fn uploads(
        &self,
        job: &GpuJob<T>,
        steps: usize,
        time: Option<TimeProfile<T>>,
        dt: T,
        d: JobData<T>,
    ) -> bool {
        exists|x: CpmlTables<T>, y: CpmlTables<T>, s: Seq<T>|
            #![trigger self.lines(job.nx, job.npml, dt, x), self.lines(job.ny, job.npml, dt, y),
                self.signals(time, dt, s)]
            {
                &&& self.lines(job.nx, job.npml, dt, x)
                &&& self.lines(job.ny, job.npml, dt, y)
                &&& s.len() == steps
                &&& self.signals(time, dt, s)
                &&& job.packs(dt, (x, y), s, d)
            }
    }

    /// `run` is where a 3D job ends.
    pub open spec fn ends3(
        &self,
        job: &Field3Job<T>,
        time: TimeProfile<T>,
        frequencies: Seq<T>,
        dt: T,
        run: Run3<T>,
    ) -> bool {
        exists|x: CpmlTables<T>, y: CpmlTables<T>, z: CpmlTables<T>, beats: Seq<Beat3<T>>|
            #![trigger self.lines(job.nx, job.npml, dt, x), self.lines(job.ny, job.npml, dt, y),
                self.lines(job.nz, job.npml, dt, z), self.beats3(time, frequencies, dt, beats)]
            {
                &&& self.lines(job.nx, job.npml, dt, x)
                &&& self.lines(job.ny, job.npml, dt, y)
                &&& self.lines(job.nz, job.npml, dt, z)
                &&& beats.len() == job.steps
                &&& self.beats3(time, frequencies, dt, beats)
                &&& ran3(job, dt, (x, y, z), beats, run)
            }
    }
}

/// Where a 3D job ended, and what it counted.
pub struct Outcome3<T> {
    pub run: Run3<T>,
    pub dt: T,
    pub macs: u64,
    pub adc_samples: u64,
}

/// Runs a 3D job, or says why it is refused. `time` is the signature of its
/// dipole. `listener` hears of the run; of a refused job it hears nothing.
pub fn run_job3<T, R, P, E, S, C, L>(
    job: &Field3Job<T>,
    time: &TimeProfile<T>,
    frequencies: &Vec<T>,
    physics: &Physics<T, R, P, E, S, C>,
    listener: &mut L,
) -> (r: Result<Outcome3<T>, Field3Error>) where
    T: Scalar,
    R: Fn(T) -> T,
    P: Fn(T) -> T,
    E: Fn(T) -> T,
    S: Fn(T) -> T,
    C: Fn(T) -> T,
    L: Listener<Tick<T>>,

    requires
        physics.ready(),
        frequencies@.len() == job.n_frequencies,
        job.nx * job.ny * job.nz <= usize::MAX,
        6 * volume(job.points()) * job.steps <= u64::MAX,
        2 * job.watched().len() * job.steps <= u64::MAX,
    ensures
        match r {
            Ok(x) => {
                &&& job.sound()
                &&& is_time_step(job.courant, 3, physics.root, x.dt)
                &&& physics.ends3(job, *time, frequencies@, x.dt, x.run)
                &&& x.macs == 6 * volume(job.points()) * job.steps
                &&& x.adc_samples == 2 * job.watched().len() * job.steps
                &&& heard(
                    *old(listener),
                    ticks(Part::Whole, x.run.probes@[0].trace@),
                    *final(listener),
                )
            },
            Err(e) => job.fault(e) && *final(listener) == *old(listener),
        },
{
    if job.nx == 0 || job.ny == 0 || job.nz == 0 {
        return Err(Field3Error::GridTooSmall);
    }
    let dt = time_step(job.courant, 3, &physics.root);
    let x = physics.axis(job.nx, job.npml, dt);
    let y = physics.axis(job.ny, job.npml, dt);
    let z = physics.axis(job.nz, job.npml, dt);
    let ghost (a, b, c) = (x, y, z);
    let beats = beats3(job.steps, dt, time, frequencies, &physics.wave);
    match Field3Executor.execute(job, dt, (x, y, z), &beats, listener) {
        Ok(run) => {
            let (macs, adc_samples) = ledger3(job.steps, &run);
            proof {
                assert(physics.lines(job.nx, job.npml, dt, a));
                assert(physics.lines(job.ny, job.npml, dt, b));
                assert(physics.lines(job.nz, job.npml, dt, c));
                assert(physics.beats3(*time, frequencies@, dt, beats@));
                assert(ran3(job, dt, (a, b, c), beats@, run));
            }
            Ok(Outcome3 { run, dt, macs, adc_samples })
        },
        Err(e) => Err(e),
    }
}

/// Where a 2D job ended, and what it counted.
pub enum Outcome<T> {
    /// One run.
    Plain(SimRun<T>, FieldLedger),
    /// A reference run and a device run.
    Extraction(Extraction<T>),
}

impl<T: Scalar> FieldSetup<T> {
    /// The verdict on a job with these modes.
    pub open spec fn judged(&self, m: &Modes<T>, r: Result<Course, FieldError>) -> bool {
        exists|p: FieldPlan| #[trigger] self.planned(m, &p) && p.verdict(r)
    }

    /// What an accepted job needs of its grid and its modes: sources and probe
    /// on the grid, a profile for every mode, and counters that hold the run.
    pub open spec fn runnable(&self, m: &Modes<T>) -> bool {
        let (nx, ny) = (self.job.nx as int, self.job.ny as int);
        &&& self.job.sound()
        &&& self.source matches Some(s) ==> s.0.shape.fits(nx, ny)
        &&& self.mode_source matches Some(s) ==> s.i < nx
        &&& m.launch matches Some(l) ==> l is Ok
        &&& Self::sampled(m)
        &&& self.job.steps <= u64::MAX
        &&& self.job.countable(self.ports@.len() as int)
    }

    /// The beats of a run of the job, from its first step on.
    pub open spec fn paced<E: Fn(T) -> T, S: Fn(T) -> T, C: Fn(T) -> T>(
        &self,
        w: &Waveform<T, E, S, C>,
        dt: T,
        beats: Seq<Beat<T>>,
    ) -> bool {
        exists|t: Timing<T>| #[trigger]
            self.times(&t) && forall|n: int|
                0 <= n < beats.len() ==> t.is_beat(moment(n, dt), w, #[trigger] beats[n])
    }

    /// What a run of the job takes: layer coefficients, fresh ports with the
    /// profiles of their modes, what drives it, and one beat per step.
    pub open spec fn equipped<R, P, E, S, C>(
        &self,
        m: &Modes<T>,
        physics: &Physics<T, R, P, E, S, C>,
        dt: T,
        rig: Rig<T>,
        drive: Drive<T>,
        beats: Seq<Beat<T>>,
    ) -> bool where
        R: Fn(T) -> T,
        P: Fn(T) -> T,
        E: Fn(T) -> T,
        S: Fn(T) -> T,
        C: Fn(T) -> T,
     {
        &&& physics.lines(self.job.nx, self.job.npml, dt, rig.cpml.0)
        &&& physics.lines(self.job.ny, self.job.npml, dt, rig.cpml.1)
        &&& self.watches(m, rig.ports@)
        &&& self.drives(m, &drive)
        &&& beats.len() == self.job.steps
        &&& self.paced(&physics.wave, dt, beats)
    }

    /// `run` is where one run over the job's layout ends.
    pub open spec fn ends<R, P, E, S, C>(
        &self,
        m: &Modes<T>,
        physics: &Physics<T, R, P, E, S, C>,
        dt: T,
        run: SimRun<T>,
    ) -> bool where
        R: Fn(T) -> T,
        P: Fn(T) -> T,
        E: Fn(T) -> T,
        S: Fn(T) -> T,
        C: Fn(T) -> T,
     {
        exists|rig: Rig<T>, drive: Drive<T>, beats: Seq<Beat<T>>| #[trigger]
            self.equipped(m, physics, dt, rig, drive, beats) && ran(
                &self.job,
                self.job.eps,
                dt,
                rig.cpml,
                rig.ports@,
                &drive,
                beats,
                run,
            )
    }

    /// `reference` and `device` are where the two runs of an extraction end,
    /// over the layout `bare` and over the job's own.
    pub open spec fn ends_twice<R, P, E, S, C>(
        &self,
        m: &Modes<T>,
        physics: &Physics<T, R, P, E, S, C>,
        dt: T,
        bare: EpsSpec<T>,
        reference: SimRun<T>,
        device: SimRun<T>,
    ) -> bool where
        R: Fn(T) -> T,
        P: Fn(T) -> T,
        E: Fn(T) -> T,
        S: Fn(T) -> T,
        C: Fn(T) -> T,
     {
        exists|one: Rig<T>, two: Rig<T>, drive: Drive<T>, beats: Seq<Beat<T>>|
            #![trigger self.equipped(m, physics, dt, one, drive, beats),
                self.equipped(m, physics, dt, two, drive, beats)]
            {
                &&& self.equipped(m, physics, dt, one, drive, beats)
                &&& self.equipped(m, physics, dt, two, drive, beats)
                &&& ran(&self.job, bare, dt, one.cpml, one.ports@, &drive, beats, reference)
                &&& ran(&self.job, self.job.eps, dt, two.cpml, two.ports@, &drive, beats, device)
            }
    }

    /// Frequency `f` is the first one at which no wave reaches the first port
    /// of the reference run. A listener that is `from` before both runs is `to`
    /// after them.
    pub open spec fn stays_dark<R, P, E, S, C, V, L>(
        &self,
        m: &Modes<T>,
        physics: &Physics<T, R, P, E, S, C>,
        dt: T,
        bare: EpsSpec<T>,
        f: int,
        vanished: V,
        from: L,
        to: L,
    ) -> bool where
        R: Fn(T) -> T,
        P: Fn(T) -> T,
        E: Fn(T) -> T,
        S: Fn(T) -> T,
        C: Fn(T) -> T,
        V: Fn(Cx<T>) -> bool,
        L: Listener<Tick<T>>,
     {
        exists|one: Rig<T>, two: Rig<T>, drive: Drive<T>, beats: Seq<Beat<T>>|
            #![trigger self.equipped(m, physics, dt, one, drive, beats),
                self.equipped(m, physics, dt, two, drive, beats)]
            {
                &&& self.equipped(m, physics, dt, one, drive, beats)
                &&& self.equipped(m, physics, dt, two, drive, beats)
                &&& darkens(
                    &self.job,
                    bare,
                    dt,
                    &one,
                    &two,
                    &drive,
                    beats,
                    f,
                    vanished,
                    from,
                    to,
                )
            }
    }

    /// The layout of the reference run.
    pub open spec fn bare(&self, reference_eps: Option<EpsSpec<T>>) -> EpsSpec<T> {
        match reference_eps {
            Some(e) => e,
            None => self.job.eps.bare(),
        }
    }

    fn equip<R, P, E, S, C>(
        &self,
        m: &Modes<T>,
        physics: &Physics<T, R, P, E, S, C>,
        dt: T,
    ) -> (rig: Rig<T>) where
        R: Fn(T) -> T,
        P: Fn(T) -> T,
        E: Fn(T) -> T,
        S: Fn(T) -> T,
        C: Fn(T) -> T,

        requires
            physics.ready(),
            self.fitted(m),
            self.runnable(m),
        ensures
            physics.lines(self.job.nx, self.job.npml, dt, rig.cpml.0),
            physics.lines(self.job.ny, self.job.npml, dt, rig.cpml.1),
            self.watches(m, rig.ports@),
    {
        let x = physics.axis(self.job.nx, self.job.npml, dt);
        let y = physics.axis(self.job.ny, self.job.npml, dt);
        self.rig(m, (x, y))
    }

    /// An equipped job meets what its runs ask for.
    proof fn lemma_equipped<R, P, E, S, C>(
        &self,
        m: &Modes<T>,
        physics: &Physics<T, R, P, E, S, C>,
        dt: T,
        plan: &FieldPlan,
        rig: &Rig<T>,
        drive: &Drive<T>,
        beats: Seq<Beat<T>>,
    ) where
        R: Fn(T) -> T,
        P: Fn(T) -> T,
        E: Fn(T) -> T,
        S: Fn(T) -> T,
        C: Fn(T) -> T,

        requires
            self.fitted(m),
            self.runnable(m),
            self.planned(m, plan),
            self.frequencies@.len() == self.job.n_frequencies,
            self.equipped(m, physics, dt, *rig, *drive, beats),
        ensures
            plan.tells(&self.job, drive),
            plan.rigs(&self.job, rig),
            drive.fits(self.job.nx as int, self.job.ny as int),
            keeps_time(&self.job, rig.ports@, beats),
    {
        let ports = rig.ports@;
        assert forall|k: int| 0 <= k < ports.len() implies {
            let p = #[trigger] ports[k];
            &&& p.i == plan.ports@[k].i
            &&& p.wf(self.job.ny as int)
            &&& p.accum@.len() == self.job.n_frequencies
            &&& p.samples == 0
        } by {
            assert(self.watches_at(m, ports, k));
            assert(m.ports@[k]@.len() == self.frequencies@.len());
            let p = ports[k];
            assert forall|f: int| 0 <= f < p.profiles@.len() implies (
            #[trigger] p.profiles@[f])@.len() == self.job.ny by {
                assert(m.ports@[k]@[f] is Ok);
            }
        }
        let t = choose|t: Timing<T>| #[trigger]
            self.times(&t) && forall|n: int|
                0 <= n < beats.len() ==> t.is_beat(
                    moment(n, dt),
                    &physics.wave,
                    #[trigger] beats[n],
                );
        assert forall|k: int| 0 <= k < beats.len() implies (#[trigger] beats[k]).dft@.len()
            == self.job.n_frequencies by {
            assert(t.is_beat(moment(k, dt), &physics.wave, beats[k]));
        }
        assert forall|k: int, q: int|
            #![trigger beats[k], ports[q]]
            0 <= k < beats.len() && 0 <= q < ports.len() implies beats[k].ports@.len()
            == ports[q].accum@.len() by {
            assert(t.is_beat(moment(k, dt), &physics.wave, beats[k]));
        }
    }
}

/// Runs a 2D job with solved modes, or says why it is refused: one run without
/// ports, a reference run and a device run with them. `listener` hears of the
/// runs; of a job that is refused before them it hears nothing.
pub fn run_job<T, R, P, E, S, C, V, D, L>(
    setup: &FieldSetup<T>,
    courant: T,
    reference_eps: Option<EpsSpec<T>>,
    modes: &Modes<T>,
    physics: &Physics<T, R, P, E, S, C>,
    vanished: V,
    divide: D,
    listener: &mut L,
) -> (r: Result<(T, Outcome<T>), FieldError>) where
    T: Scalar,
    R: Fn(T) -> T,
    P: Fn(T) -> T,
    E: Fn(T) -> T,
    S: Fn(T) -> T,
    C: Fn(T) -> T,
    V: Fn(Cx<T>) -> bool,
    D: Fn(Cx<T>, Cx<T>) -> Cx<T>,
    L: Listener<Tick<T>>,

    requires
        physics.ready(),
        setup.job.eps.countable_rows(),
        setup.fitted(modes),
        setup.frequencies@.len() == setup.job.n_frequencies,
        forall|c: Course| #[trigger] setup.judged(modes, Ok(c)) ==> setup.runnable(modes),
        forall|a: Cx<T>| #[trigger] call_requires(vanished, (a,)),
        forall|a: Cx<T>, b: Cx<T>| #[trigger] call_requires(divide, (a, b)),
    ensures
        ({
            let job = &setup.job;
            let bare = setup.bare(reference_eps);
            match r {
                Ok((dt, Outcome::Plain(run, ledger))) => {
                    &&& setup.judged(modes, Ok(Course::Plain))
                    &&& job.dense(job.eps)
                    &&& is_time_step(courant, 2, physics.root, dt)
                    &&& setup.ends(modes, physics, dt, run)
                    &&& ledger.macs == 3 * (job.nx * job.ny) * job.steps
                    &&& ledger.adc_samples == 2 * job.steps
                    &&& heard(
                        *old(listener),
                        ticks(Part::Whole, run.probe.trace@),
                        *final(listener),
                    )
                },
                Ok((dt, Outcome::Extraction(x))) => {
                    &&& setup.judged(modes, Ok(Course::Extraction))
                    &&& job.dense(bare) && job.dense(job.eps)
                    &&& is_time_step(courant, 2, physics.root, dt)
                    &&& setup.ends_twice(modes, physics, dt, bare, x.reference, x.device)
                    &&& x.sparams.frequencies@ == setup.frequencies@
                    &&& is_column(
                        x.reference.ports@,
                        x.device.ports@,
                        dt,
                        job.n_frequencies as int,
                        vanished,
                        divide,
                        x.sparams.s_col@,
                    )
                    &&& x.ledger.macs == 2 * (3 * (job.nx * job.ny) * job.steps)
                    &&& x.ledger.adc_samples == 2 * ((2 + setup.ports@.len()) * job.steps)
                    &&& heard(
                        *old(listener),
                        ticks_of_both(x.reference, x.device),
                        *final(listener),
                    )
                },
                Err(FieldError::EpsNotPositive) => {
                    &&& *final(listener) == *old(listener)
                    &&& {
                        ||| setup.judged(modes, Ok(Course::Plain)) && !job.dense(job.eps)
                        ||| setup.judged(modes, Ok(Course::Extraction)) && !(job.dense(bare)
                            && job.dense(job.eps))
                    }
                },
                Err(FieldError::NoIncidentWave(f)) => {
                    &&& setup.judged(modes, Ok(Course::Extraction))
                    &&& job.dense(bare) && job.dense(job.eps)
                    &&& f < job.n_frequencies
                    &&& exists|dt: T| #[trigger]
                        is_time_step(courant, 2, physics.root, dt) && setup.stays_dark(
                            modes,
                            physics,
                            dt,
                            bare,
                            f as int,
                            vanished,
                            *old(listener),
                            *final(listener),
                        )
                },
                Err(e) => setup.judged(modes, Err(e)) && *final(listener) == *old(listener),
            }
        }),
{
    let plan = setup.plan(modes);
    let course = match plan.course() {
        Ok(c) => c,
        Err(e) => {
            proof {
                assert(setup.judged(modes, Err(e)));
                if plan.ports@.len() > 0 && (plan.has_source || plan.launch is Some) {
                    lemma_tested_before_the_runs(&plan, e);
                }
            }
            return Err(e);
        },
    };
    assert(setup.judged(modes, Ok(course)));
    let dt = time_step(courant, 2, &physics.root);
    let drive = setup.drive(modes);
    let timing = setup.timing();
    let beats = timing.beats(setup.job.steps, dt, &physics.wave);
    let one = setup.equip(modes, physics, dt);
    let ghost first = one;
    proof {
        assert(setup.times(&timing));
        assert(setup.paced(&physics.wave, dt, beats@));
        assert(setup.equipped(modes, physics, dt, first, drive, beats@));
        setup.lemma_equipped(modes, physics, dt, &plan, &first, &drive, beats@);
    }
    match course {
        Course::Plain => {
            match FieldExecutor.run_plain(
                &plan,
                &setup.job,
                dt,
                one,
                &drive,
                &beats,
                listener,
            ) {
                Ok((run, ledger)) => {
                    assert(setup.equipped(modes, physics, dt, first, drive, beats@));
                    Ok((dt, Outcome::Plain(run, ledger)))
                },
                Err(e) => Err(e),
            }
        },
        Course::Extraction => {
            let two = setup.equip(modes, physics, dt);
            let ghost second = two;
            proof {
                assert(setup.equipped(modes, physics, dt, second, drive, beats@));
                setup.lemma_equipped(modes, physics, dt, &plan, &second, &drive, beats@);
            }
            match FieldExecutor.extract(
                &plan,
                &setup.job,
                reference_eps,
                copied(&setup.frequencies),
                dt,
                (one, two),
                &drive,
                &beats,
                vanished,
                divide,
                listener,
            ) {
                Ok(x) => {
                    assert(setup.equipped(modes, physics, dt, first, drive, beats@));
                    assert(setup.equipped(modes, physics, dt, second, drive, beats@));
                    Ok((dt, Outcome::Extraction(x)))
                },
                Err(e) => {
                    assert(setup.equipped(modes, physics, dt, first, drive, beats@));
                    assert(setup.equipped(modes, physics, dt, second, drive, beats@));
                    Err(e)
                },
            }
        },
    }
}

/// The Courant number that a job on the device runs with: its own, or one half
/// where that is not positive.
pub open spec fn device_courant<T: Scalar>(courant: T, half: T) -> T {
    if T::zero_value().less_than(courant) {
        courant
    } else {
        half
    }
}

/// The time step of a job on the device and everything that a host uploads for
/// it, or why it is refused. `time` is the signature of its source.
pub fn pack_job<T, R, P, E, S, C>(
    job: &GpuJob<T>,
    courant: T,
    steps: usize,
    time: Option<TimeProfile<T>>,
    physics: &Physics<T, R, P, E, S, C>,
) -> (r: Result<(T, JobData<T>), GpuError>) where
    T: Scalar,
    R: Fn(T) -> T,
    P: Fn(T) -> T,
    E: Fn(T) -> T,
    S: Fn(T) -> T,
    C: Fn(T) -> T,

    requires
        physics.ready(),
        job.nx * job.ny <= usize::MAX,
        steps <= u64::MAX,
    ensures
        match r {
            Ok((dt, d)) => {
                &&& job.fault() is None
                &&& is_time_step(
                    device_courant(courant, physics.wave.half),
                    2,
                    physics.root,
                    dt,
                )
                &&& physics.uploads(job, steps, time, dt, d)
            },
            Err(e) => job.fault() == Some(e),
        },
{
    let courant = if T::zero().below(courant) {
        courant
    } else {
        physics.wave.half
    };
    let dt = time_step(courant, 2, &physics.root);
    // An axis without points has no layers; such a job is refused.
    let nx: usize = if job.nx == 0 {
        1
    } else {
        job.nx
    };
    let ny: usize = if job.ny == 0 {
        1
    } else {
        job.ny
    };
    let cpml = (physics.axis(nx, job.npml, dt), physics.axis(ny, job.npml, dt));
    let signals = signals(steps, dt, time, &physics.wave);
    match build_job_data(job, dt, &cpml, &signals) {
        Ok(d) => {
            proof {
                assert(job.roomy());
                assert(physics.lines(job.nx, job.npml, dt, cpml.0));
                assert(physics.lines(job.ny, job.npml, dt, cpml.1));
                assert(physics.signals(time, dt, signals@));
                assert(job.packs(dt, (cpml.0, cpml.1), signals@, d));
            }
            Ok((dt, d))
        },
        Err(e) => Err(e),
    }
}

} // verus!
