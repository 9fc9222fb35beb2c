//! Whole 2D jobs: what is tested before a run, the runs, and what is made of
//! them.

use crate::complex::Cx;
use crate::field::eps::EpsSpec;
use crate::field::grid3::CpmlTables;
use crate::field::job::{Course, FieldError, FieldPlan};
use crate::field::monitor::PortMonitor;
use crate::field::run::{extraction_ledger, keeps_time, port_reads, ran, reads, run_ledger};
use crate::field::run::{tabulated, Beat, Drive, FieldExecutor, FieldJob, FieldLedger, SimRun};
use crate::field::sparams::{extract, first_dark, is_column, ExtractedSparams};
use crate::field::ticks::{ticks, Part, Tick};
use crate::progress::{heard, lemma_heard_on, Listener};
use crate::scalar::Scalar;
use vstd::prelude::*;

verus! {

/// What one run of a job consumes: layer coefficients and fresh ports.
pub struct Rig<T> {
    pub cpml: (CpmlTables<T>, CpmlTables<T>),
    pub ports: Vec<PortMonitor<T>>,
}

/// An extraction: the column, both runs and what they count together.
pub struct Extraction<T> {
    pub sparams: ExtractedSparams<T>,
    pub reference: SimRun<T>,
    pub device: SimRun<T>,
    pub ledger: FieldLedger,
}

impl FieldPlan {
    /// The plan is that of this job and of what drives it.
    pub open spec fn tells<T: Scalar>(&self, job: &FieldJob<T>, drive: &Drive<T>) -> bool {
        &&& self.wf()
        &&& self.nx == job.nx
        &&& self.n_frequencies == job.n_frequencies
        &&& self.has_source == (drive.source is Some)
        &&& self.launch is None ==> drive.injector is None
        &&& self.launch is Some && self.launch_guided ==> drive.injector is Some
            && drive.injector->0.i == self.launch->0
    }

    /// The rig has the ports of the plan, with one profile per frequency.
    pub open spec fn rigs<T: Scalar>(&self, job: &FieldJob<T>, rig: &Rig<T>) -> bool {
        &&& tabulated(job, rig.cpml)
        &&& rig.ports@.len() == self.ports@.len()
        &&& forall|k: int|
            0 <= k < rig.ports@.len() ==> {
                let p = #[trigger] rig.ports@[k];
                &&& p.i == self.ports@[k].i
                &&& p.wf(job.ny as int)
                &&& p.accum@.len() == job.n_frequencies
                &&& p.samples == 0
            }
    }
}

impl<T: Scalar> FieldJob<T> {
    /// A counter holds the updates and the reads of two runs with `n` ports.
    pub open spec fn countable(&self, n: int) -> bool {
        &&& 2 * (3 * (self.nx * self.ny) * self.steps) <= u64::MAX
        &&& 2 * ((2 + n) * self.steps) <= u64::MAX
    }
}

/// The reports of the two runs of an extraction.
pub open spec fn ticks_of_both<T>(reference: SimRun<T>, device: SimRun<T>) -> Seq<Tick<T>> {
    ticks(Part::Reference, reference.probe.trace@) + ticks(Part::Device, device.probe.trace@)
}

/// In the first of two runs, over the layout `bare`, frequency `f` is the first
/// one at which no wave reaches the first port. A listener that is `from` before
/// both runs is `to` after them.
pub open spec fn darkens<T: Scalar, V: Fn(Cx<T>) -> bool, L: Listener<Tick<T>>>(
    job: &FieldJob<T>,
    bare: EpsSpec<T>,
    dt: T,
    one: &Rig<T>,
    two: &Rig<T>,
    drive: &Drive<T>,
    beats: Seq<Beat<T>>,
    f: int,
    vanished: V,
    from: L,
    to: L,
) -> bool {
    exists|reference: SimRun<T>, device: SimRun<T>|
        #![trigger ticks_of_both(reference, device)]
        {
            &&& ran(job, bare, dt, one.cpml, one.ports@, drive, beats, reference)
            &&& ran(job, job.eps, dt, two.cpml, two.ports@, drive, beats, device)
            &&& first_dark(reference.ports@[0], dt, f, vanished)
            &&& heard(from, ticks_of_both(reference, device), to)
        }
}

/// Every port of a run has read once per step.
proof fn lemma_port_reads<T>(ports: Seq<PortMonitor<T>>, steps: int)
    requires
        forall|k: int| 0 <= k < ports.len() ==> (#[trigger] ports[k]).samples == steps,
    ensures
        port_reads(ports) == ports.len() * steps,
    decreases ports.len(),
{
    if ports.len() > 0 {
        let rest = ports.drop_last();
        assert forall|k: int| 0 <= k < rest.len() implies (#[trigger] rest[k]).samples
            == steps by {
            assert(rest[k] == ports[k]);
        }
        lemma_port_reads(rest, steps);
        assert(ports.len() * steps == rest.len() * steps + steps) by (nonlinear_arith)
            requires
                ports.len() == rest.len() + 1,
        ;
    } else {
        assert(0 * steps == 0);
    }
}

/// A run reads its probe, its Fourier monitor and every port once per step.
proof fn lemma_reads<T: Scalar>(run: &SimRun<T>)
    requires
        run.wf(),
    ensures
        reads(run) == (2 + run.ports@.len()) * run.done(),
{
    lemma_port_reads(run.ports@, run.done() as int);
    let (n, k) = (run.done() as int, run.ports@.len() as int);
    assert((2 + k) * n == n + n + k * n) by (nonlinear_arith);
}

impl FieldExecutor {
    /// Runs a job without ports, or says why it is refused.
    pub fn run_plain<T: Scalar, L: Listener<Tick<T>>>(
        &self,
        plan: &FieldPlan,
        job: &FieldJob<T>,
        dt: T,
        rig: Rig<T>,
        drive: &Drive<T>,
        beats: &Vec<Beat<T>>,
        listener: &mut L,
    ) -> (r: Result<(SimRun<T>, FieldLedger), FieldError>)
        requires
            plan.tells(job, drive),
            plan.ports@.len() == 0,
            plan.verdict(Ok(Course::Plain)) ==> {
                &&& job.sound()
                &&& plan.rigs(job, &rig)
                &&& drive.fits(job.nx as int, job.ny as int)
                &&& keeps_time(job, rig.ports@, beats@)
                &&& job.countable(0)
            },
        ensures
            match r {
                Ok((run, ledger)) => {
                    &&& plan.verdict(Ok(Course::Plain))
                    &&& job.dense(job.eps)
                    &&& ran(job, job.eps, dt, rig.cpml, rig.ports@, drive, beats@, run)
                    &&& ledger.macs == 3 * (job.nx * job.ny) * job.steps
                    &&& ledger.adc_samples == 2 * job.steps
                    &&& heard(
                        *old(listener),
                        ticks(Part::Whole, run.probe.trace@),
                        *final(listener),
                    )
                },
                Err(FieldError::EpsNotPositive) => plan.verdict(Ok(Course::Plain)) && !job.dense(
                    job.eps,
                ) && *final(listener) == *old(listener),
                Err(e) => plan.verdict(Err(e)) && *final(listener) == *old(listener),
            },
    {
        match plan.course() {
            Ok(_) => {},
            Err(e) => {
                proof {
                    lemma_tested_before_the_runs(plan, e);
                }
                return Err(e);
            },
        }
        if !job.is_dense(&job.eps) {
            return Err(FieldError::EpsNotPositive);
        }
        let run = self.execute(
            job,
            &job.eps,
            dt,
            rig.cpml,
            rig.ports,
            drive,
            beats,
            Part::Whole,
            listener,
        );
        proof {
            lemma_reads(&run);
            assert(3 * (job.nx * job.ny) * job.steps >= 0) by (nonlinear_arith)
                requires
                    job.nx >= 0,
                    job.ny >= 0,
                    job.steps >= 0,
            ;
        }
        let ledger = run_ledger(job.nx, job.ny, job.steps, &run);
        Ok((run, ledger))
    }

    /// Extracts scattering parameters, or says why not: one run over the
    /// reference layout, which is `reference_eps` or the job's own without its
    /// device, and one over the job's layout.
    pub fn extract<
        T: Scalar,
        V: Fn(Cx<T>) -> bool,
        D: Fn(Cx<T>, Cx<T>) -> Cx<T>,
        L: Listener<Tick<T>>,
    >(
        &self,
        plan: &FieldPlan,
        job: &FieldJob<T>,
        reference_eps: Option<EpsSpec<T>>,
        frequencies: Vec<T>,
        dt: T,
        rigs: (Rig<T>, Rig<T>),
        drive: &Drive<T>,
        beats: &Vec<Beat<T>>,
        vanished: V,
        divide: D,
        listener: &mut L,
    ) -> (r: Result<Extraction<T>, FieldError>)
        requires
            plan.tells(job, drive),
            plan.extraction_verdict(Ok(())) ==> {
                &&& job.sound()
                &&& plan.rigs(job, &rigs.0)
                &&& plan.rigs(job, &rigs.1)
                &&& drive.source is Some ==> drive.source->0.shape.fits(
                    job.nx as int,
                    job.ny as int,
                )
                &&& drive.injector is Some ==> drive.injector->0.profile@.len() == job.ny
                &&& keeps_time(job, rigs.0.ports@, beats@)
                &&& keeps_time(job, rigs.1.ports@, beats@)
                &&& job.countable(plan.ports@.len() as int)
            },
            forall|a: Cx<T>| #[trigger] call_requires(vanished, (a,)),
            forall|a: Cx<T>, b: Cx<T>| #[trigger] call_requires(divide, (a, b)),
        ensures
            ({
                let bare = match reference_eps {
                    Some(e) => e,
                    None => job.eps.bare(),
                };
                let nf = job.n_frequencies as int;
                match r {
                    Ok(x) => {
                        &&& plan.extraction_verdict(Ok(()))
                        &&& job.dense(bare) && job.dense(job.eps)
                        &&& ran(
                            job,
                            bare,
                            dt,
                            rigs.0.cpml,
                            rigs.0.ports@,
                            drive,
                            beats@,
                            x.reference,
                        )
                        &&& ran(
                            job,
                            job.eps,
                            dt,
                            rigs.1.cpml,
                            rigs.1.ports@,
                            drive,
                            beats@,
                            x.device,
                        )
                        &&& x.sparams.frequencies@ == frequencies@
                        &&& is_column(
                            x.reference.ports@,
                            x.device.ports@,
                            dt,
                            nf,
                            vanished,
                            divide,
                            x.sparams.s_col@,
                        )
                        &&& x.ledger.macs == 2 * (3 * (job.nx * job.ny) * job.steps)
                        &&& x.ledger.adc_samples == 2 * ((2 + plan.ports@.len()) * job.steps)
                        &&& heard(
                            *old(listener),
                            ticks_of_both(x.reference, x.device),
                            *final(listener),
                        )
                    },
                    Err(FieldError::EpsNotPositive) => {
                        &&& plan.extraction_verdict(Ok(()))
                        &&& !(job.dense(bare) && job.dense(job.eps))
                        &&& *final(listener) == *old(listener)
                    },
                    Err(FieldError::NoIncidentWave(f)) => {
                        &&& plan.extraction_verdict(Ok(()))
                        &&& job.dense(bare) && job.dense(job.eps)
                        &&& f < nf
                        &&& darkens(
                            job,
                            bare,
                            dt,
                            &rigs.0,
                            &rigs.1,
                            drive,
                            beats@,
                            f as int,
                            vanished,
                            *old(listener),
                            *final(listener),
                        )
                    },
                    Err(e) => plan.extraction_verdict(Err(e)) && *final(listener) == *old(listener),
                }
            }),
    {
        match plan.check_extraction() {
            Ok(_) => {},
            Err(e) => {
                proof {
                    lemma_tested_before_the_runs(plan, e);
                }
                return Err(e);
            },
        }
        proof {
            assert(plan.port_ok(0));
            assert forall|k: int| 0 <= k < plan.ports@.len() implies #[trigger] plan.port_ok(
                k,
            ) by {}
        }
        let bare = match reference_eps {
            Some(e) => e,
            None => job.eps.reference(),
        };
        if !job.is_dense(&bare) || !job.is_dense(&job.eps) {
            return Err(FieldError::EpsNotPositive);
        }
        let (first, second) = rigs;
        proof {
            assert(job.hosts(first.ports@)) by {
                assert forall|k: int| 0 <= k < first.ports@.len() implies (
                #[trigger] first.ports@[k]).i < job.nx by {
                    assert(plan.port_ok(k));
                }
            }
            assert(job.hosts(second.ports@)) by {
                assert forall|k: int| 0 <= k < second.ports@.len() implies (
                #[trigger] second.ports@[k]).i < job.nx by {
                    assert(plan.port_ok(k));
                }
            }
        }
        let reference = self.execute(
            job,
            &bare,
            dt,
            first.cpml,
            first.ports,
            drive,
            beats,
            Part::Reference,
            listener,
        );
        let ghost between = *listener;
        let device = self.execute(
            job,
            &job.eps,
            dt,
            second.cpml,
            second.ports,
            drive,
            beats,
            Part::Device,
            listener,
        );
        proof {
            lemma_heard_on(
                *old(listener),
                ticks(Part::Reference, reference.probe.trace@),
                between,
                ticks(Part::Device, device.probe.trace@),
                *listener,
            );
            assert(heard(*old(listener), ticks_of_both(reference, device), *listener));
        }
        let s_col = match extract(
            &reference.ports,
            &device.ports,
            dt,
            job.n_frequencies,
            vanished,
            divide,
        ) {
            Ok(s) => s,
            Err(f) => {
                assert(ran(
                    job,
                    bare,
                    dt,
                    rigs.0.cpml,
                    rigs.0.ports@,
                    drive,
                    beats@,
                    reference,
                ));
                return Err(FieldError::NoIncidentWave(f));
            },
        };
        proof {
            lemma_reads(&reference);
            lemma_reads(&device);
        }
        let ledger = extraction_ledger(job.nx, job.ny, job.steps, &reference, &device);
        Ok(
            Extraction {
                sparams: ExtractedSparams { frequencies, s_col },
                reference,
                device,
                ledger,
            },
        )
    }
}

/// The tests before the runs speak of neither permittivity nor an incident
/// wave.
pub(crate) proof fn lemma_tested_before_the_runs(plan: &FieldPlan, e: FieldError)
    requires
        plan.extraction_verdict(Err(e)) || plan.verdict(Err(e)),
    ensures
        !(e is NoIncidentWave),
        !(e is EpsNotPositive),
{
    if plan.extraction_verdict(Err(e)) && plan.n_frequencies > 0 && plan.launch is Some
        && plan.waveguide && plan.ports@.len() > 0 && plan.launch->0 < plan.ports@[0].i && exists|k: int|
        0 <= k < plan.ports@.len() && !#[trigger] plan.port_ok(k) {
        let k = choose|k: int|
            0 <= k < plan.ports@.len() && #[trigger] plan.port_fault(k, e) && (forall|m: int|
                0 <= m < k ==> #[trigger] plan.port_ok(m));
        assert(plan.port_fault(k, e));
    }
}

} // verus!
