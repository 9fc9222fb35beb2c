//! Homodyne sampling and what is reported of a circuit.

use crate::field::lattice::filled;
use crate::gaussian::exec::{circuit_work, element_ticks, lemma_work_grows, runs, shot_ticks};
use crate::gaussian::exec::{tally, GaussianExecutor, GaussianOp, GaussianTick, HIST_BINS};
use crate::gaussian::exec::SHOT_BATCH;
use crate::gaussian::jacobi::Jacobi;
use crate::gaussian::state::{GaussianState, Turn};
use crate::gaussian::williamson::least;
use crate::gaussian::williamson::{least_of, symplectic_eigenvalues};
use crate::progress::{heard, lemma_heard_more, lemma_heard_nothing, lemma_heard_on};
use crate::progress::Listener;
use crate::scalar::{greatest, lemma_running_push, running, Scalar};
use vstd::prelude::*;

verus! {

/// Outcome of one homodyne measurement.
#[derive(Debug, Clone, Copy)]
pub struct HomodyneOutcome<T> {
    pub mean: T,
    pub variance: T,
    pub sample: T,
}

impl<T: Scalar> GaussianState<T> {
    /// `sample` is drawn from the marginal by a standard normal draw.
    pub open spec fn samples_to<R: Fn(T) -> T>(
        &self,
        mode: int,
        t: Turn<T>,
        normal: T,
        root: R,
        sample: T,
    ) -> bool {
        let (mean, variance) = self.marginal(mode, t);
        exists|sd: T|
            #[trigger] call_ensures(root, (variance,), sd) && sample == mean.sum(
                sd.product(normal),
            )
    }

    /// Measures the quadrature at an angle: draws an outcome from its marginal,
    /// conditions the other modes on it and drops the mode. `turned` tells
    /// whether the angle is other than zero. Nothing where the variance is not
    /// positive, and the mode is then only turned.
    pub fn homodyne<R: Fn(T) -> T>(
        &mut self,
        mode: usize,
        t: Turn<T>,
        turned: bool,
        normal: T,
        root: &R,
    ) -> (r: Option<HomodyneOutcome<T>>)
        requires
            old(self).wf(),
            mode < old(self).modes(),
            forall|x: T| #[trigger] call_requires(root, (x,)),
        ensures
            final(self).wf(),
            exists|sample: T|
                {
                    &&& #[trigger] old(self).samples_to(mode as int, t, normal, *root, sample)
                    &&& old(self).measured(
                        mode as int,
                        if turned {
                            Some(t)
                        } else {
                            None
                        },
                        sample,
                        r is Some,
                        final(self),
                    )
                    &&& r matches Some(o) ==> o == (HomodyneOutcome {
                        mean: old(self).marginal(mode as int, t).0,
                        variance: old(self).marginal(mode as int, t).1,
                        sample,
                    })
                },
    {
        let (mean, variance) = self.homodyne_marginal(mode, t);
        let sd = root(variance);
        let sample = mean.plus(sd.times(normal));
        proof {
            assert(call_ensures(*root, (old(self).marginal(mode as int, t).1,), sd));
            assert(old(self).samples_to(mode as int, t, normal, *root, sample));
        }
        let turn = if turned {
            Some(t)
        } else {
            None
        };
        if self.homodyne_project(mode, turn, sample) {
            Some(HomodyneOutcome { mean, variance, sample })
        } else {
            None
        }
    }
}

/// Repeated homodyne detection of one quadrature, each shot on a fresh
/// preparation.
#[derive(Debug, Clone, Copy)]
pub struct HomodyneSpec<T> {
    pub mode: usize,
    pub turn: Turn<T>,
    pub shots: u64,
}

/// What is reported of repeated homodyne detection.
pub struct HomodyneReport<T> {
    pub marginal_mean: T,
    pub marginal_variance: T,
    pub sample_mean: T,
    pub sample_variance: T,
    pub sample_min: T,
    pub sample_max: T,
    /// Range of the histogram: five deviations on either side of the mean.
    pub lo: T,
    pub hi: T,
    pub counts: Vec<u64>,
}

/// The functions that sampling works with.
pub struct Detector<T, N, C, R> {
    /// Standard normal draw of a shot.
    pub normal: N,
    /// Whole cell that a place in the histogram falls into.
    pub cell: C,
    /// Square root.
    pub root: R,
    /// Above every sample.
    pub top: T,
}

impl<T: Scalar, N: Fn(u64) -> T, C: Fn(T) -> i64, R: Fn(T) -> T> Detector<T, N, C, R> {
    /// The functions take anything.
    pub open spec fn ready(&self) -> bool {
        &&& forall|k: u64| #[trigger] call_requires(self.normal, (k,))
        &&& forall|x: T| #[trigger] call_requires(self.cell, (x,))
        &&& forall|x: T| #[trigger] call_requires(self.root, (x,))
    }

    /// Low end, high end and bin width of the histogram.
    pub open spec fn range(mean: T, sd: T) -> (T, T, T) {
        let five = T::of_count(5);
        let lo = mean.difference(five.product(sd));
        let hi = mean.sum(five.product(sd));
        (lo, hi, hi.difference(lo).quotient(T::of_count(41)))
    }

    /// `m` is the outcome of shot `k`, and `c` its cell.
    pub open spec fn shot(&self, mean: T, sd: T, k: u64, m: T, c: i64) -> bool {
        let (lo, hi, width) = Self::range(mean, sd);
        &&& exists|z: T| #[trigger] call_ensures(self.normal, (k,), z) && m == mean.sum(
            sd.product(z),
        )
        &&& call_ensures(self.cell, (m.difference(lo).quotient(width),), c)
    }

    /// `ms` and `cs` are the outcomes and their cells.
    pub open spec fn shots(&self, mean: T, sd: T, ms: Seq<T>, cs: Seq<i64>) -> bool {
        &&& ms.len() == cs.len()
        &&& forall|k: int| 0 <= k < ms.len() ==> #[trigger] self.shot_at(mean, sd, ms, cs, k)
    }

    pub open spec fn shot_at(&self, mean: T, sd: T, ms: Seq<T>, cs: Seq<i64>, k: int) -> bool {
        self.shot(mean, sd, k as u64, ms[k], cs[k])
    }

    fn fire(&self, mean: T, sd: T, k: u64) -> (r: (T, i64))
        requires
            self.ready(),
        ensures
            self.shot(mean, sd, k, r.0, r.1),
    {
        let five = T::from_count(5);
        let lo = mean.minus(five.times(sd));
        let hi = mean.plus(five.times(sd));
        let width = hi.minus(lo).over(T::from_count(41));
        let z = (self.normal)(k);
        assert(call_ensures(self.normal, (k,), z));
        let m = mean.plus(sd.times(z));
        let c: i64 = (self.cell)(m.minus(lo).over(width));
        (m, c)
    }

    /// What the shots come to.
    pub open spec fn summed(
        &self,
        marginal: (T, T),
        sd: T,
        ms: Seq<T>,
        cs: Seq<i64>,
        r: &HomodyneReport<T>,
    ) -> bool {
        let (lo, hi, width) = Self::range(marginal.0, sd);
        let n = T::of_count(
            if ms.len() >= 1 {
                ms.len() as u64
            } else {
                1
            },
        );
        let mean = running(ms).quotient(n);
        &&& self.shots(marginal.0, sd, ms, cs)
        &&& r.marginal_mean == marginal.0
        &&& r.marginal_variance == marginal.1
        &&& r.lo == lo
        &&& r.hi == hi
        &&& r.sample_mean == mean
        &&& r.sample_variance == floor_zero(
            running(squares(ms)).quotient(n).difference(mean.product(mean)),
        )
        &&& r.sample_min == least(ms, self.top, ms.len() as int)
        &&& r.sample_max == greatest(ms, self.top.negative(), ms.len() as int)
        &&& r.counts@.len() == HIST_BINS
        &&& forall|b: int|
            0 <= b < HIST_BINS ==> #[trigger] r.counts@[b] == tally(cs, b, cs.len() as int)
    }

    /// `r` is the report of `shots` shots of a quadrature.
    pub open spec fn detected(&self, marginal: (T, T), shots: u64, r: &HomodyneReport<T>) -> bool {
        exists|sd: T, ms: Seq<T>, cs: Seq<i64>|
            #[trigger] self.summed(marginal, sd, ms, cs, r) && call_ensures(
                self.root,
                (marginal.1,),
                sd,
            ) && ms.len() == shots
    }

    /// Samples a quadrature of this mean and variance. `listener` hears of
    /// every batch of shots.
    pub fn detect<L: Listener<GaussianTick>>(
        &self,
        marginal: (T, T),
        shots: u64,
        listener: &mut L,
    ) -> (r: HomodyneReport<T>)
        requires
            self.ready(),
        ensures
            self.detected(marginal, shots, &r),
            heard(*old(listener), shot_ticks(shots as int, shots as int), *final(listener)),
    {
        proof {
            lemma_heard_nothing::<GaussianTick, L>(*listener);
        }
        let (mean, variance) = marginal;
        let sd = (self.root)(variance);
        let mut counts: Vec<u64> = filled(0u64, HIST_BINS);
        let (mut sum, mut sumsq) = (T::zero(), T::zero());
        let (mut low, mut high) = (self.top, self.top.opposite());
        let ghost mut ms: Seq<T> = Seq::empty();
        let ghost mut cs: Seq<i64> = Seq::empty();
        assert(squares(ms) =~= Seq::empty());
        let mut k: u64 = 0;
        while k < shots
            invariant
                self.ready(),
                k <= shots,
                heard(*old(listener), shot_ticks(shots as int, k as int), *listener),
                ms.len() == k,
                self.shots(mean, sd, ms, cs),
                sum == running(ms),
                sumsq == running(squares(ms)),
                low == least(ms, self.top, k as int),
                high == greatest(ms, self.top.negative(), k as int),
                counts@.len() == HIST_BINS,
                forall|b: int| 0 <= b < HIST_BINS ==> #[trigger] counts@[b] == tally(cs, b, k as int),
            decreases shots - k,
        {
            let (m, c): (T, i64) = self.fire(mean, sd, k);
            let ghost (old_ms, old_cs) = (ms, cs);
            let b: usize = if c < 0 {
                0
            } else if c > 40 {
                40
            } else {
                c as usize
            };
            proof {
                ms = ms.push(m);
                cs = cs.push(c);
                lemma_running_push(old_ms, m);
                lemma_running_push(squares(old_ms), m.product(m));
                assert(squares(ms) =~= squares(old_ms).push(m.product(m)));
                lemma_extremes_prefix(old_ms, ms, self.top, k as int);
                assert forall|i: int| 0 <= i < HIST_BINS implies tally(cs, i, k as int) == (
                #[trigger] counts@[i]) by {
                    lemma_tally_prefix(old_cs, cs, i, k as int);
                }
                lemma_tally_prefix(old_cs, cs, b as int, k as int);
                assert(counts@[b as int] <= k);
                assert forall|i: int| 0 <= i < ms.len() implies #[trigger] self.shot_at(
                    mean,
                    sd,
                    ms,
                    cs,
                    i,
                ) by {
                    if i < k {
                        assert(self.shot_at(mean, sd, old_ms, old_cs, i));
                    }
                }
            }
            sum = sum.plus(m);
            sumsq = sumsq.plus(m.times(m));
            if m.below(low) {
                low = m;
            }
            if high.below(m) {
                high = m;
            }
            let x: u64 = counts[b] + 1;
            counts.set(b, x);
            k += 1;
            if k % SHOT_BATCH == 0 || k == shots {
                let ghost l = *listener;
                listener.hear(GaussianTick::Shots(k));
                proof {
                    let to = shot_ticks(shots as int, k - 1);
                    lemma_heard_more(*old(listener), to, l, GaussianTick::Shots(k), *listener);
                }
            }
        }
        let five = T::from_count(5);
        let n = T::from_count(
            if shots >= 1 {
                shots
            } else {
                1
            },
        );
        let sample_mean = sum.over(n);
        let spread = sumsq.over(n).minus(sample_mean.times(sample_mean));
        let r = HomodyneReport {
            marginal_mean: mean,
            marginal_variance: variance,
            sample_mean,
            sample_variance: if spread.reaches(T::zero()) {
                spread
            } else {
                T::zero()
            },
            sample_min: low,
            sample_max: high,
            lo: mean.minus(five.times(sd)),
            hi: mean.plus(five.times(sd)),
            counts,
        };
        assert(self.summed(marginal, sd, ms, cs, &r));
        r
    }
}

/// What is not below zero.
pub open spec fn floor_zero<T: Scalar>(x: T) -> T {
    if x.at_least(T::zero_value()) {
        x
    } else {
        T::zero_value()
    }
}

pub open spec fn squares<T: Scalar>(ms: Seq<T>) -> Seq<T> {
    ms.map_values(|m: T| m.product(m))
}

proof fn lemma_extremes_prefix<T: Scalar>(a: Seq<T>, b: Seq<T>, top: T, k: int)
    requires
        k <= a.len() <= b.len(),
        forall|i: int| 0 <= i < a.len() ==> a[i] == b[i],
    ensures
        least(a, top, k) == least(b, top, k),
        greatest(a, top.negative(), k) == greatest(b, top.negative(), k),
    decreases k,
{
    if k > 0 {
        lemma_extremes_prefix(a, b, top, k - 1);
    }
}

proof fn lemma_tally_prefix(a: Seq<i64>, b: Seq<i64>, bin: int, k: int)
    requires
        k <= a.len() <= b.len(),
        forall|i: int| 0 <= i < a.len() ==> a[i] == b[i],
    ensures
        tally(a, bin, k) == tally(b, bin, k),
        0 <= k ==> 0 <= tally(a, bin, k) <= k,
    decreases k,
{
    if k > 0 {
        lemma_tally_prefix(a, b, bin, k - 1);
    }
}

/// Moments of one mode.
#[derive(Debug, Clone, Copy)]
pub struct ModeMoments<T> {
    pub mean_x: T,
    pub mean_p: T,
    pub var_x: T,
    pub var_p: T,
    pub mean_photons: T,
}

/// A circuit on the vacuum and, where asked for, its detection.
pub struct GaussianJob<T> {
    pub n_modes: usize,
    pub circuit: Vec<GaussianOp<T>>,
    pub homodyne: Option<HomodyneSpec<T>>,
    pub seed: u64,
}

/// What is reported of a job.
pub struct GaussianReport<T> {
    pub n_modes: usize,
    pub modes: Vec<ModeMoments<T>>,
    pub symplectic_eigenvalues: Vec<T>,
    pub symplectic_eig_min: T,
    pub physicality_margin: T,
    pub homodyne: Option<HomodyneReport<T>>,
    pub macs: u64,
    pub adc_samples: u64,
}

/// Moments of mode `k`.
pub open spec fn moments<T: Scalar>(s: &GaussianState<T>, k: int) -> ModeMoments<T> {
    ModeMoments {
        mean_x: s.mean@[2 * k],
        mean_p: s.mean@[2 * k + 1],
        var_x: s.cov.at(2 * k, 2 * k),
        var_p: s.cov.at(2 * k + 1, 2 * k + 1),
        mean_photons: s.photons(k),
    }
}

impl<T: Scalar> GaussianJob<T> {
    /// Elements and detection act on modes of the state, and the work can be
    /// counted.
    pub open spec fn valid(&self) -> bool {
        &&& 2 * self.n_modes <= usize::MAX
        &&& (2 * self.n_modes) * (2 * self.n_modes) <= usize::MAX
        &&& forall|k: int|
            0 <= k < self.circuit@.len() ==> (#[trigger] self.circuit@[k]).fits(
                self.n_modes as int,
            )
        &&& circuit_work(self.circuit@, self.n_modes as int, self.circuit@.len() as int)
            <= u64::MAX
        &&& self.homodyne matches Some(h) ==> h.mode < self.n_modes
    }

    /// Shots of the detection; none where there is none.
    pub open spec fn shots(&self) -> int {
        match self.homodyne {
            Some(h) => h.shots as int,
            None => 0,
        }
    }

    /// What the job tells of its progress.
    pub open spec fn ticks(&self) -> Seq<GaussianTick> {
        element_ticks(self.circuit@.len()) + shot_ticks(self.shots(), self.shots())
    }

    /// What an executor demands of a job.
    pub fn check(&self) -> (r: bool)
        ensures
            r == self.valid(),
    {
        let n: usize = self.n_modes;
        let d: u128 = 2 * (n as u128);
        if d > usize::MAX as u128 {
            return false;
        }
        assert(d * d <= u64::MAX * u64::MAX) by (nonlinear_arith)
            requires
                0 <= d <= u64::MAX,
        ;
        if d * d > usize::MAX as u128 {
            return false;
        }
        assert(d <= 0xffff_ffff) by (nonlinear_arith)
            requires
                0 <= d,
                d * d <= u64::MAX,
        ;
        assert(2 * d * d * d + d * d <= 2 * 0xffff_ffff * u64::MAX + u64::MAX && 2 * d * d
            <= 2 * u64::MAX && 0 <= 2 * d * d * d) by (nonlinear_arith)
            requires
                0 <= d <= 0xffff_ffff,
                d * d <= u64::MAX,
        ;
        let full: u128 = 2 * d * d * d + d * d;
        let mut work: u128 = 0;
        let mut k: usize = 0;
        while k < self.circuit.len()
            invariant
                k <= self.circuit@.len(),
                n == self.n_modes,
                d == 2 * n,
                full == 2 * d * d * d + d * d,
                full <= 2 * 0xffff_ffff * u64::MAX + u64::MAX,
                work == circuit_work(self.circuit@, n as int, k as int),
                work <= u64::MAX,
                forall|m: int| 0 <= m < k ==> (#[trigger] self.circuit@[m]).fits(n as int),
            decreases self.circuit@.len() - k,
        {
            if !self.circuit[k].is_fit(n) {
                return false;
            }
            let cost: u128 = match self.circuit[k] {
                GaussianOp::Displace { mode, re, im } => 2,
                _ => full,
            };
            assert(cost == self.circuit@[k as int].work(n as int));
            work = work + cost;
            k += 1;
            if work > u64::MAX as u128 {
                proof {
                    let all = self.circuit@.len() as int;
                    lemma_work_grows(self.circuit@, n as int, k as int, all);
                }
                return false;
            }
        }
        match &self.homodyne {
            Some(h) => h.mode < n,
            None => true,
        }
    }
}

/// What a job's final state comes to.
pub open spec fn reported<
    T: Scalar,
    R: Fn(T) -> T,
    M: Fn(T) -> T,
    S: Fn(T) -> T,
    N: Fn(u64) -> T,
    C: Fn(T) -> i64,
>(
    job: &GaussianJob<T>,
    solver: &Jacobi<T, R, M, S>,
    detector: &Detector<T, N, C, R>,
    half: T,
    state: &GaussianState<T>,
    r: &GaussianReport<T>,
) -> bool {
    &&& r.n_modes == job.n_modes
    &&& r.modes@ == Seq::new(job.n_modes as nat, |k: int| moments(state, k))
    &&& solver.is_spectrum(&state.cov, r.symplectic_eigenvalues@, half)
    &&& r.symplectic_eig_min == least(
        r.symplectic_eigenvalues@,
        detector.top,
        r.symplectic_eigenvalues@.len() as int,
    )
    &&& r.physicality_margin == r.symplectic_eig_min.difference(T::of_count(1))
    &&& r.macs == circuit_work(job.circuit@, job.n_modes as int, job.circuit@.len() as int)
    &&& match job.homodyne {
        Some(h) => r.homodyne is Some && detector.detected(
            state.marginal(h.mode as int, h.turn),
            h.shots,
            &r.homodyne->0,
        ) && r.adc_samples == h.shots,
        None => r.homodyne is None && r.adc_samples == 0,
    }
}

impl GaussianExecutor {
    /// Runs a job: its circuit on the vacuum, the moments and the symplectic
    /// spectrum of the state, and its detection where asked for. `listener`
    /// hears of every circuit element, then of every batch of shots.
    pub fn execute<
        T: Scalar,
        R: Fn(T) -> T,
        M: Fn(T) -> T,
        S: Fn(T) -> T,
        N: Fn(u64) -> T,
        C: Fn(T) -> i64,
        L: Listener<GaussianTick>,
    >(
        &self,
        job: &GaussianJob<T>,
        solver: &Jacobi<T, R, M, S>,
        detector: &Detector<T, N, C, R>,
        half: T,
        listener: &mut L,
    ) -> (r: GaussianReport<T>)
        requires
            job.valid(),
            solver.ready(),
            detector.ready(),
        ensures
            exists|state: GaussianState<T>, s: Seq<GaussianState<T>>|
                #[trigger] runs(s, job.n_modes as int, job.circuit@, state) && reported(
                    job,
                    solver,
                    detector,
                    half,
                    &state,
                    &r,
                ),
            heard(*old(listener), job.ticks(), *final(listener)),
    {
        let (state, macs) = self.run_circuit(job.n_modes, &job.circuit, listener);
        let ghost between = *listener;
        let ghost s = choose|s: Seq<GaussianState<T>>|
            runs(s, job.n_modes as int, job.circuit@, state);
        let nus = symplectic_eigenvalues(&state.cov, half, solver);
        let nu_min = least_of(&nus, detector.top);
        let mut modes: Vec<ModeMoments<T>> = Vec::new();
        let mut k: usize = 0;
        while k < job.n_modes
            invariant
                k <= job.n_modes,
                state.wf(),
                state.modes() == job.n_modes,
                modes@ == Seq::new(k as nat, |i: int| moments(&state, i)),
            decreases job.n_modes - k,
        {
            let (mean_x, mean_p) = state.mode_mean(k);
            let (var_x, var_p) = state.quadrature_variances(k);
            modes.push(
                ModeMoments { mean_x, mean_p, var_x, var_p, mean_photons: state.mean_photon(k) },
            );
            assert(modes@ =~= Seq::new((k + 1) as nat, |i: int| moments(&state, i)));
            k += 1;
        }
        let homodyne = match &job.homodyne {
            Some(h) => {
                let marginal = state.homodyne_marginal(h.mode, h.turn);
                Some(detector.detect(marginal, h.shots, listener))
            },
            None => None,
        };
        proof {
            let shots = job.shots();
            if job.homodyne is None {
                lemma_heard_nothing::<GaussianTick, L>(between);
            }
            lemma_heard_on(
                *old(listener),
                element_ticks(job.circuit@.len()),
                between,
                shot_ticks(shots, shots),
                *listener,
            );
        }
        let adc_samples: u64 = match &job.homodyne {
            Some(h) => h.shots,
            None => 0,
        };
        let r = GaussianReport {
            n_modes: job.n_modes,
            modes,
            symplectic_eigenvalues: nus,
            symplectic_eig_min: nu_min,
            physicality_margin: nu_min.minus(T::from_count(1)),
            homodyne,
            macs,
            adc_samples,
        };
        assert(runs(s, job.n_modes as int, job.circuit@, state));
        assert(reported(job, solver, detector, half, &state, &r));
        r
    }
}

} // verus!
