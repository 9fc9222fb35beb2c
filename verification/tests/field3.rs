//! Fields in space, dispersive media and device layouts.

use std::f64::consts::PI;
use tei_fabric::complex::Cx;
use tei_fabric::field::clock::time_step;
use tei_fabric::field::cpml::CpmlParams;
use tei_fabric::field::eps::{CellBox, EpsSpec, EpsSpec3};
use tei_fabric::field::gpu::{
    buffer_sizes, build_job_data, plan_steps, slot_offset, step_kernels, upload_steps, GpuError,
    GpuJob, JobData, SLOT_WORDS,
};
use tei_fabric::field::grid::{default_npml, yee_axis_wavenumber};
use tei_fabric::field::grid3::{Axis, Comp, CpmlTables, Grid3Spec, Grid3d, SliceField};
use tei_fabric::field::lattice::PAR_MIN_CELLS;
use tei_fabric::field::medium3::{MaterialModel, MaterialRegion};
use tei_fabric::field::monitor::{Dft3Monitor, Probe3, Probe3Spec};
use tei_fabric::field::run::thinned;
use tei_fabric::field::run3::{
    coefficients_of, ledger3, Field3Error, Field3Job, Run3,
};
use tei_fabric::field::source::{Dipole3, Source, SourceShape, TimeProfile, Waveform};
use tei_fabric::field::ticks::{Part, Tick};
use tei_fabric::field::whole::{pack_job, run_job3, Physics};
use tei_fabric::scalar::Scalar;

/// Double-precision samples.
#[derive(Debug, Clone, Copy, PartialEq, PartialOrd)]
struct Real(f64);

impl Scalar for Real {
    fn zero_value() -> Self {
        Real(0.0)
    }

    fn sum(self, rhs: Self) -> Self {
        Real(self.0 + rhs.0)
    }

    fn difference(self, rhs: Self) -> Self {
        Real(self.0 - rhs.0)
    }

    fn product(self, rhs: Self) -> Self {
        Real(self.0 * rhs.0)
    }

    fn at_least(self, threshold: Self) -> bool {
        self.0 >= threshold.0
    }

    fn less_than(self, rhs: Self) -> bool {
        self.0 < rhs.0
    }

    fn quotient(self, rhs: Self) -> Self {
        Real(self.0 / rhs.0)
    }

    fn negative(self) -> Self {
        Real(-self.0)
    }

    fn rank(self) -> u64 {
        let bits = self.0.to_bits();
        if bits >> 63 == 1 {
            !bits
        } else {
            bits | 1 << 63
        }
    }

    fn of_count(n: u64) -> Self {
        Real(n as f64)
    }

    fn zero() -> Self {
        Real(0.0)
    }

    fn plus(self, rhs: Self) -> Self {
        Real(self.0 + rhs.0)
    }

    fn minus(self, rhs: Self) -> Self {
        Real(self.0 - rhs.0)
    }

    fn times(self, rhs: Self) -> Self {
        Real(self.0 * rhs.0)
    }

    fn reaches(self, threshold: Self) -> bool {
        self.0 >= threshold.0
    }

    fn below(self, rhs: Self) -> bool {
        self.0 < rhs.0
    }

    fn over(self, rhs: Self) -> Self {
        Real(self.0 / rhs.0)
    }

    fn opposite(self) -> Self {
        Real(-self.0)
    }

    fn precedes(self, rhs: Self) -> bool {
        self.0.total_cmp(&rhs.0) == std::cmp::Ordering::Less
    }

    fn from_count(n: u64) -> Self {
        Real(n as f64)
    }
}

type Z = Cx<Real>;

fn sin(x: Real) -> Real {
    Real(x.0.sin())
}

fn cos(x: Real) -> Real {
    Real(x.0.cos())
}

fn exp(x: Real) -> Real {
    Real(x.0.exp())
}

fn magnitude(x: Real) -> Real {
    Real(x.0.abs())
}

fn phasor(a: f64) -> Z {
    Cx { re: Real(a.cos()), im: Real(a.sin()) }
}


fn cpml() -> CpmlParams<Real> {
    CpmlParams {
        m: Real(3.0),
        sigma_scale: Real(1.0),
        sigma_unit: Real(0.8),
        kappa_max: Real(3.0),
        alpha_max: Real(0.05),
    }
}

fn cube(r: Real) -> Real {
    Real(r.0.powf(3.0))
}

fn tables(n: usize, npml: usize, dt: f64) -> CpmlTables<Real> {
    cpml().axis(n, npml, Real(dt), Real(0.5), &cube, &exp)
}

type Wave = Waveform<Real, fn(Real) -> Real, fn(Real) -> Real, fn(Real) -> Real>;

fn waveform() -> Wave {
    Waveform { exp, sin, cos, half_turn: Real(PI), half: Real(0.5) }
}

fn eval(p: &TimeProfile<Real>, t: f64) -> Real {
    p.eval(Real(t), &waveform())
}

fn reals(v: &[f64]) -> Vec<Real> {
    v.iter().map(|&x| Real(x)).collect()
}

const DT: f64 = 0.5 / 1.7320508075688772;

fn tables3(n: (usize, usize, usize), npml: usize, dt: f64) -> (CpmlTables<Real>, CpmlTables<Real>, CpmlTables<Real>) {
    (tables(n.0, npml, dt), tables(n.1, npml, dt), tables(n.2, npml, dt))
}

fn vacuum_grid3(n: (usize, usize, usize), npml: usize, courant: f64) -> Grid3d<Real> {
    let dt = courant / 3f64.sqrt();
    let eps = EpsSpec3::Uniform { eps_r: Real(1.0) }.build(n.0, n.1, n.2);
    let ce = |e: &Vec<Real>| coefficients_of(Real(dt), e);
    Grid3d::new(
        &Grid3Spec { nx: n.0, ny: n.1, nz: n.2, npml },
        Real(dt),
        (ce(&eps.0), ce(&eps.1), ce(&eps.2)),
        tables3(n, npml, dt),
    )
}

fn dipole(i: usize, j: usize, k: usize) -> Dipole3<Real> {
    Dipole3 { i, j, k, axis: Axis::Z, amplitude: Real(1.0) }
}

fn gaussian(t0: f64, tau: f64) -> TimeProfile<Real> {
    TimeProfile::Gaussian { t0: Real(t0), tau: Real(tau) }
}

fn modulated(omega: f64, t0: f64, tau: f64) -> TimeProfile<Real> {
    TimeProfile::ModulatedGaussian { omega: Real(omega), t0: Real(t0), tau: Real(tau) }
}

fn probe_at(i: usize, j: usize, k: usize, component: Comp) -> Probe3Spec {
    Probe3Spec { i, j, k, component }
}

fn job(n: (usize, usize, usize), steps: usize, npml: usize) -> Field3Job<Real> {
    Field3Job {
        nx: n.0,
        ny: n.1,
        nz: n.2,
        steps,
        courant: Real(0.5),
        npml,
        eps: EpsSpec3::Uniform { eps_r: Real(1.0) },
        materials: Vec::new(),
        source: dipole(n.0 / 2, n.1 / 2, n.2 / 2),
        probes: Vec::new(),
        n_frequencies: 0,
    }
}

fn root(x: Real) -> Real {
    Real(x.0.sqrt())
}

fn run(
    job: &Field3Job<Real>,
    time: &TimeProfile<Real>,
    omegas: &[f64],
) -> Result<Run3<Real>, Field3Error> {
    told(job, time, omegas).0
}

/// A run, or why it is refused, and what it reported.
fn told(
    job: &Field3Job<Real>,
    time: &TimeProfile<Real>,
    omegas: &[f64],
) -> (Result<Run3<Real>, Field3Error>, Vec<Tick<Real>>) {
    let physics = Physics { root, power: cube, layers: cpml(), wave: waveform() };
    let mut ticks = Vec::new();
    let r = run_job3(job, time, &reals(omegas), &physics, &mut ticks).map(|out| {
        assert_eq!(out.dt, Real(DT));
        assert_eq!((out.macs, out.adc_samples), ledger3(job.steps, &out.run));
        out.run
    });
    assert!(r.is_ok() || ticks.is_empty(), "a refused job reports nothing");
    (r, ticks)
}

fn done(job: &Field3Job<Real>, time: &TimeProfile<Real>, omegas: &[f64]) -> Run3<Real> {
    match run(job, time, omegas) {
        Ok(r) => r,
        Err(_) => panic!("refused"),
    }
}

fn hann_dft(trace: &[Real], stride: usize, dt: f64, omega: f64) -> f64 {
    let n = trace.len();
    let (mut re, mut im) = (0.0f64, 0.0f64);
    for (m, v) in trace.iter().enumerate() {
        let t = (m * stride + 1) as f64 * dt;
        let w = 0.5 * (1.0 - (2.0 * PI * m as f64 / (n as f64 - 1.0)).cos());
        re += v.0 * w * (omega * t).cos();
        im -= v.0 * w * (omega * t).sin();
    }
    re.hypot(im)
}

#[test]
fn cavity_modes_match_analytic() {
    let mut job = job((25, 21, 17), 6000, 0);
    job.source = dipole(7, 6, 5);
    job.probes = vec![probe_at(15, 9, 11, Comp::Ez)];
    let r = done(&job, &modulated(0.26, 60.0, 15.0), &[]);
    let (stride, trace) = thinned(&r.probes[0].trace);
    let (lx, ly, lz) = (24.0f64, 20.0f64, 16.0f64);
    let mode = |m: f64, n: f64, p: f64| {
        PI * ((m / lx).powi(2) + (n / ly).powi(2) + (p / lz).powi(2)).sqrt()
    };
    let expected = [mode(1.0, 1.0, 0.0), mode(1.0, 1.0, 1.0), mode(2.0, 1.0, 0.0)];
    let dw = 5e-4;
    let omegas: Vec<f64> = (0..=320).map(|m| 0.16 + dw * m as f64).collect();
    let amp: Vec<f64> = omegas.iter().map(|&w| hann_dft(&trace, stride, DT, w)).collect();
    let max = amp.iter().fold(0.0f64, |a, &b| a.max(b));
    let mut peaks = Vec::new();
    for m in 1..amp.len() - 1 {
        if amp[m] > amp[m - 1] && amp[m] >= amp[m + 1] && amp[m] > 0.2 * max {
            let d = 0.5 * (amp[m - 1] - amp[m + 1]) / (amp[m - 1] - 2.0 * amp[m] + amp[m + 1]);
            peaks.push(omegas[m] + d * dw);
        }
    }
    assert_eq!(peaks.len(), 3, "three lines in band, got {peaks:?}");
    for (got, want) in peaks.iter().zip(&expected) {
        let rel = (got - want).abs() / want;
        assert!(rel < 0.01, "cavity mode {got} vs analytic {want} (off by {rel})");
    }
}

#[test]
fn dispersion_matches_yee_relation_3d() {
    let mut g = vacuum_grid3((120, 51, 51), 8, 0.5);
    let dt = g.dt.0;
    let period_steps = 24usize;
    let omega = 2.0 * PI / (period_steps as f64 * dt);
    let src = dipole(30, 25, 25);
    let time =
        TimeProfile::Cw { omega: Real(omega), ramp: Real(4.0 * period_steps as f64 * dt) };
    let xs: Vec<usize> = (60..=90).step_by(2).collect();
    let mut mons: Vec<Dft3Monitor<Real>> =
        xs.iter().map(|&i| Dft3Monitor::new(probe_at(i, 25, 25, Comp::Ez), 1)).collect();
    let warmup = 450usize;
    let accumulate = 14 * period_steps;
    for n in 0..warmup + accumulate {
        g.step();
        let t = (n + 1) as f64 * dt;
        src.inject(&mut g, eval(&time, t));
        if n >= warmup {
            for m in &mut mons {
                m.record(&g, &vec![phasor(-omega * t)]);
            }
        }
    }
    let phases: Vec<f64> = mons
        .iter()
        .map(|m| {
            let a = m.sums.accum[0];
            a.im.0.atan2(a.re.0)
        })
        .collect();
    let mut unwrapped = vec![phases[0]];
    for w in phases.windows(2) {
        let mut d = w[1] - w[0];
        while d > PI {
            d -= 2.0 * PI;
        }
        while d < -PI {
            d += 2.0 * PI;
        }
        unwrapped.push(unwrapped.last().unwrap() + d);
    }
    let n = xs.len() as f64;
    let xm = xs.iter().map(|&x| x as f64).sum::<f64>() / n;
    let ym = unwrapped.iter().sum::<f64>() / n;
    let (mut sxy, mut sxx) = (0.0, 0.0);
    for (&x, &y) in xs.iter().zip(&unwrapped) {
        sxy += (x as f64 - xm) * (y - ym);
        sxx += (x as f64 - xm) * (x as f64 - xm);
    }
    let k_measured = -(sxy / sxx);
    let asin = |x: Real| Real(x.0.asin());
    let k_theory =
        yee_axis_wavenumber(Real(omega), Real(dt), sin, asin, magnitude).expect("in band").0;
    assert!(k_theory.is_finite());
    let rel = (k_measured - k_theory).abs() / k_theory;
    assert!(rel < 0.01, "measured {k_measured}, exact {k_theory}, off by {rel}");
    assert!((k_theory - omega).abs() / omega > 0.015);
}

fn pulse_probe_trace_3d(
    n: (usize, usize, usize),
    src: (usize, usize, usize),
    prb: (usize, usize, usize),
    steps: usize,
    (t0, tau): (f64, f64),
) -> Vec<f64> {
    let mut g = vacuum_grid3(n, 10, 0.5);
    let dt = g.dt.0;
    let src = dipole(src.0, src.1, src.2);
    let time = gaussian(t0, tau);
    let mut probe = Probe3::new(probe_at(prb.0, prb.1, prb.2, Comp::Ez));
    for n in 0..steps {
        g.step();
        src.inject(&mut g, eval(&time, (n + 1) as f64 * dt));
        probe.record(&g);
    }
    probe.trace.iter().map(|x| x.0).collect()
}

#[test]
fn cpml3_reflection_below_minus_40_db() {
    let steps = 600;
    let pulse = (24.0, 8.0);
    let small = pulse_probe_trace_3d((60, 44, 44), (20, 22, 22), (45, 22, 22), steps, pulse);
    let reference =
        pulse_probe_trace_3d((160, 44, 44), (20, 22, 22), (45, 22, 22), steps, pulse);
    let incident_peak = reference.iter().fold(0.0f64, |a, &b| a.max(b.abs()));
    let reflected_peak =
        small.iter().zip(&reference).fold(0.0f64, |a, (&x, &y)| a.max((x - y).abs()));
    assert!(incident_peak > 0.0);
    let ratio = reflected_peak / incident_peak;
    assert!(ratio < 1e-2, "reflection {ratio} ({} dB)", 20.0 * ratio.log10());
}

#[test]
fn courant_stability_boundary_3d() {
    let run = |courant: f64, steps: usize| -> f64 {
        let mut g = vacuum_grid3((40, 40, 40), 8, courant);
        let dt = g.dt.0;
        let src = dipole(20, 20, 20);
        let time = gaussian(10.0, 3.0);
        for n in 0..steps {
            g.step();
            src.inject(&mut g, eval(&time, (n + 1) as f64 * dt));
        }
        g.max_abs_e(&magnitude).0
    };
    let unstable = run(1.02, 400);
    assert!(unstable > 1e6, "should diverge, max = {unstable}");
    let stable = run(0.98, 1200);
    assert!(stable.is_finite() && stable < 1e2, "should stay bounded, max = {stable}");
}

fn slab(model: MaterialModel<Real>, i0: usize, i1: usize) -> MaterialRegion<Real> {
    MaterialRegion { model, cells: CellBox { i0, i1, j0: 0, j1: 36, k0: 0, k1: 36 } }
}

fn slab_transmission(
    material: MaterialRegion<Real>,
    omega_c: f64,
    (t0, tau): (f64, f64),
    steps: usize,
) -> f64 {
    let run = |materials: Vec<MaterialRegion<Real>>| -> f64 {
        let mut job = job((78, 36, 36), steps, 8);
        job.materials = materials;
        job.source = dipole(12, 18, 18);
        job.probes = vec![probe_at(60, 18, 18, Comp::Ez)];
        job.n_frequencies = 1;
        let r = done(&job, &modulated(omega_c, t0, tau), &[omega_c]);
        let a = r.dfts[0].spectra(Real(DT))[0];
        a.re.0.hypot(a.im.0)
    };
    let (with, without) = rayon::join(|| run(vec![material]), || run(Vec::new()));
    assert!(without > 0.0);
    with / without
}

fn drude() -> MaterialModel<Real> {
    MaterialModel::Drude { omega_p: Real(0.5), gamma: Real(0.0), eps_inf: Real(1.0) }
}

#[test]
fn drude_below_plasma_reflects() {
    let t = slab_transmission(slab(drude(), 34, 46), 0.25, (120.0, 30.0), 950);
    assert!(t * t < 0.01, "below the plasma frequency, transmitted {}", t * t);
}

#[test]
fn drude_above_plasma_transmits() {
    let t = slab_transmission(slab(drude(), 34, 46), 1.0, (60.0, 15.0), 600);
    assert!(t * t > 0.5, "above the plasma frequency, transmitted {}", t * t);
}

#[test]
fn lorentz_resonance_absorption_bracket() {
    let lorentz = MaterialModel::Lorentz {
        omega_p: Real(0.3),
        omega0: Real(0.3),
        gamma: Real(0.05),
        eps_inf: Real(1.0),
    };
    let (t_on, t_off) = rayon::join(
        || slab_transmission(slab(lorentz, 34, 44), 0.3, (200.0, 50.0), 1400),
        || slab_transmission(slab(lorentz, 34, 44), 0.15, (200.0, 50.0), 1450),
    );
    assert!(t_on < 0.05, "on resonance {t_on}");
    assert!(t_off > 0.6, "off resonance {t_off}");
    assert!(t_on < 0.1 * t_off, "bracket: {t_on} against {t_off}");
}

#[test]
fn ade_vacuum_limit_matches_vacuum() {
    let mut bare = job((30, 26, 22), 400, 6);
    bare.source = dipole(9, 13, 11);
    bare.probes = vec![probe_at(21, 13, 11, Comp::Ez)];
    let cells = |i0: usize, i1: usize| CellBox { i0, i1, j0: 4, j1: 22, k0: 4, k1: 18 };
    let mut dispersive = job((30, 26, 22), 400, 6);
    dispersive.source = dipole(9, 13, 11);
    dispersive.probes = vec![probe_at(21, 13, 11, Comp::Ez)];
    dispersive.materials = vec![
        MaterialRegion {
            model: MaterialModel::Drude {
                omega_p: Real(0.0),
                gamma: Real(0.3),
                eps_inf: Real(1.0),
            },
            cells: cells(13, 17),
        },
        MaterialRegion {
            model: MaterialModel::Lorentz {
                omega_p: Real(0.0),
                omega0: Real(0.4),
                gamma: Real(0.1),
                eps_inf: Real(1.0),
            },
            cells: cells(17, 19),
        },
    ];
    let a = done(&bare, &gaussian(20.0, 6.0), &[]);
    let b = done(&dispersive, &gaussian(20.0, 6.0), &[]);
    assert!(a.media.is_empty() && !b.media.is_empty());
    assert_eq!(a.probes[0].trace.len(), b.probes[0].trace.len());
    let max_diff = a.probes[0]
        .trace
        .iter()
        .zip(&b.probes[0].trace)
        .fold(0.0f64, |m, (x, y)| m.max((x.0 - y.0).abs()));
    assert!(max_diff <= 1e-12, "must reduce to vacuum, off by {max_diff}");
}

fn hypot3(a: Real, b: Real, c: Real) -> Real {
    Real((a.0 * a.0 + b.0 * b.0 + c.0 * c.0).sqrt())
}

/// Fields, probes and sums agree bit for bit.
fn same(a: &Run3<Real>, b: &Run3<Real>) {
    for (x, y) in [
        (&a.grid.ex, &b.grid.ex),
        (&a.grid.ey, &b.grid.ey),
        (&a.grid.ez, &b.grid.ez),
        (&a.grid.hx, &b.grid.hx),
        (&a.grid.hy, &b.grid.hy),
        (&a.grid.hz, &b.grid.hz),
    ] {
        assert_eq!(x, y);
    }
    assert_eq!(a.probes.len(), b.probes.len());
    for (x, y) in a.probes.iter().zip(&b.probes) {
        assert_eq!(x.trace, y.trace);
    }
    for (x, y) in a.dfts.iter().zip(&b.dfts) {
        let flat = |v: &[Z]| -> Vec<(Real, Real)> { v.iter().map(|z| (z.re, z.im)).collect() };
        assert_eq!(flat(&x.sums.accum), flat(&y.sums.accum));
    }
}

#[test]
fn executor3_is_deterministic() {
    let mut job = job((36, 30, 26), 300, 10);
    job.eps = EpsSpec3::Box {
        eps_r: Real(4.0),
        background: Real(1.0),
        cells: CellBox { i0: 20, i1: 26, j0: 8, j1: 22, k0: 6, k1: 20 },
    };
    job.materials = vec![MaterialRegion {
        model: MaterialModel::Drude {
            omega_p: Real(0.6),
            gamma: Real(0.02),
            eps_inf: Real(1.0),
        },
        cells: CellBox { i0: 6, i1: 10, j0: 8, j1: 22, k0: 6, k1: 20 },
    }];
    job.source = dipole(13, 15, 13);
    job.probes = vec![probe_at(30, 15, 13, Comp::Ez)];
    job.n_frequencies = 2;
    let go = || match told(&job, &gaussian(20.0, 6.0), &[0.3, 0.5]) {
        (Ok(r), ticks) => (r, ticks),
        (Err(e), _) => panic!("refused: {e:?}"),
    };
    let ((r1, ticks), (r2, again)) = (go(), go());
    assert_eq!(ticks, again, "the same reports");
    assert_eq!(ticks.len(), 100, "one report per percent");
    assert_eq!(ticks.last().map(|t| t.done), Some(300));
    assert!(ticks.iter().all(|t| t.part == Part::Whole));
    assert!(ticks.iter().all(|t| r1.probes[0].trace[t.done - 1] == t.seen));
    assert_eq!(r1.probes[0].trace, r2.probes[0].trace, "runs must be bit-identical");
    same(&r1, &r2);
    let (macs, adc_samples) = ledger3(300, &r1);
    assert_eq!(macs, 6 * 36 * 30 * 26 * 300);
    assert_eq!(adc_samples, 300 + 300);
    let dft = r1.dfts[0].spectra(Real(DT));
    assert_eq!(dft.len(), 2);
    assert!(dft[0].norm_sq().0 > 0.0);
    assert_eq!(r1.probes[0].trace.len(), 300);
    let (n0, n1, data) =
        r1.grid.slice(Axis::Z, 13, SliceField::EMag, Real(0.5), hypot3);
    assert_eq!((n0, n1), (36, 30));
    assert_eq!(data.len(), 36 * 30);
    assert!(data.iter().all(|v| v.0.is_finite()));
}

#[test]
fn rayon_thread_count_invariant() {
    let mut job = job((48, 40, 40), 150, 10);
    job.eps = EpsSpec3::Box {
        eps_r: Real(2.25),
        background: Real(1.0),
        cells: CellBox { i0: 28, i1: 36, j0: 10, j1: 30, k0: 10, k1: 30 },
    };
    job.source = Dipole3 { axis: Axis::Y, ..dipole(14, 20, 20) };
    job.probes = vec![probe_at(40, 20, 20, Comp::Ey)];
    job.n_frequencies = 1;
    assert!(48 * 40 * 40 >= PAR_MIN_CELLS);
    let run_in_pool = |threads: usize| {
        rayon::ThreadPoolBuilder::new()
            .num_threads(threads)
            .build()
            .unwrap()
            .install(|| done(&job, &gaussian(16.0, 5.0), &[0.4]))
    };
    let r1 = run_in_pool(1);
    let r4 = run_in_pool(4);
    assert_eq!(r1.probes[0].trace, r4.probes[0].trace);
    same(&r1, &r4);
    let slice = |r: &Run3<Real>| r.grid.slice(Axis::X, 24, SliceField::EMag, Real(0.5), hypot3);
    assert_eq!(slice(&r1), slice(&r4));
    assert!(r1.probes[0].trace.iter().any(|x| x.0 != 0.0));
}

#[test]
fn job3_schema_defaults() {
    let plain = job((30, 30, 30), 50, default_npml());
    assert_eq!(plain.npml, 10);
    let r = done(&plain, &gaussian(12.0, 4.0), &[]);
    assert!((r.grid.dt.0 - DT).abs() < 1e-15);
    let p = &r.probes[0].spec;
    assert_eq!((p.i, p.j, p.k), (15, 15, 15), "default probe at grid center");
    assert!(matches!(p.component, Comp::Ez));
    let mut bad = job((30, 30, 30), 50, 10);
    bad.probes = vec![probe_at(999, 0, 0, Comp::Ez)];
    match run(&bad, &gaussian(12.0, 4.0), &[]) {
        Err(e) => {
            assert!(matches!(e, Field3Error::ProbeOutside(0)));
            assert!(e.message(&bad).expect("a line").contains("probe"));
        }
        Ok(_) => panic!("probe outside the grid"),
    }
}

#[test]
fn unfit_space_jobs_are_refused() {
    let time = gaussian(12.0, 4.0);
    let refused = |j: &Field3Job<Real>| match run(j, &time, &[]) {
        Err(e) => e,
        Ok(_) => panic!("accepted"),
    };
    let small = job((22, 30, 30), 5, 10);
    assert!(matches!(refused(&small), Field3Error::GridTooSmall));
    let mut still = job((30, 30, 30), 5, 10);
    still.courant = Real(0.0);
    assert!(matches!(refused(&still), Field3Error::CourantNotPositive));
    let mut outside = job((30, 30, 30), 5, 10);
    outside.source = dipole(15, 15, 29);
    assert!(matches!(refused(&outside), Field3Error::SourceOutside));
    let cells = CellBox { i0: 4, i1: 9, j0: 4, j1: 9, k0: 4, k1: 9 };
    let gain = MaterialModel::Drude {
        omega_p: Real(0.5),
        gamma: Real(-0.1),
        eps_inf: Real(1.0),
    };
    let mut active = job((30, 30, 30), 5, 10);
    active.materials = vec![
        MaterialRegion { model: drude(), cells },
        MaterialRegion { model: gain, cells },
    ];
    assert!(matches!(refused(&active), Field3Error::Material(1)));
    for eps_r in [0.0, -1.0, f64::NAN] {
        let mut empty = job((30, 30, 30), 5, 10);
        empty.eps = EpsSpec3::Uniform { eps_r: Real(eps_r) };
        let e = refused(&empty);
        assert!(matches!(e, Field3Error::EpsNotPositive));
        assert_eq!(e.message(&empty).as_deref(), Some("eps_r must be positive"));
        // a medium that fills the grid bakes its own permittivity in
        let everywhere = CellBox { i0: 0, i1: 30, j0: 0, j1: 30, k0: 0, k1: 30 };
        empty.materials = vec![MaterialRegion { model: drude(), cells: everywhere }];
        assert!(run(&empty, &time, &[]).is_ok());
    }
    let mut adrift = job((30, 30, 30), 5, 10);
    adrift.courant = Real(f64::NAN);
    assert!(matches!(refused(&adrift), Field3Error::CourantNotPositive));
    assert_eq!(time_step(Real(0.5), 3, &|x: Real| Real(x.0.sqrt())), Real(DT));
}

#[test]
fn small_boxes_have_no_memory() {
    // Without layers every memory variable stays zero and the walls hold.
    let mut g = vacuum_grid3((6, 6, 6), 0, 0.5);
    let src = dipole(3, 3, 2);
    for _ in 0..9 {
        g.step();
        src.inject(&mut g, Real(1.0));
    }
    assert!(g.psi_ez_x.iter().chain(&g.psi_hz_y).chain(&g.psi_ex_z).all(|x| x.0 == 0.0));
    assert_eq!(g.comp_dims(Comp::Ez), (6, 6, 5));
    for k in 0..5 {
        assert_eq!(g.e_at(Comp::Ez, 0, 2, k), Real(0.0));
        assert_eq!(g.e_at(Comp::Ez, 5, 2, k), Real(0.0));
    }
    assert!(g.e_at(Comp::Ez, 3, 3, 2).0 != 0.0);
    let (n0, n1, data) = g.slice(Axis::Z, 2, SliceField::Ez, Real(0.5), hypot3);
    assert_eq!((n0, n1, data.len()), (6, 6, 36));
}

fn gpu_job() -> GpuJob<Real> {
    GpuJob {
        nx: 20,
        ny: 18,
        npml: 4,
        eps: EpsSpec::Uniform { eps_r: Real(2.0) },
        source: Some(Source { shape: SourceShape::Point { i: 9, j: 8 }, amplitude: Real(3.0) }),
        has_mode_source: false,
        n_ports: 0,
        probe: None,
    }
}

fn gpu_data(job: &GpuJob<Real>) -> Result<JobData<Real>, GpuError> {
    let dt = 0.5 / 2f64.sqrt();
    let signals = vec![Real(1.0), Real(0.5)];
    build_job_data(job, Real(dt), &(tables(20, 4, dt), tables(18, 4, dt)), &signals)
}

#[test]
fn device_data_of_a_job() {
    let d = match gpu_data(&gpu_job()) {
        Ok(d) => d,
        Err(e) => panic!("{}", e.message()),
    };
    assert_eq!((d.params.nx, d.params.ny, d.params.npml), (20, 18, 4));
    assert_eq!(d.ce.len(), 360);
    assert_eq!(d.ce[0], Real(0.5 / 2f64.sqrt() / 2.0));
    assert_eq!(d.amps, vec![Real(3.0), Real(1.5)]);
    assert_eq!(d.params.probe_idx, 10 * 18 + 9);
    assert_eq!(d.coeff.len(), 3 * (20 + 19 + 18 + 17));
    assert!(d.has_source);
    let bytes = d.params.upload(0x3f80_0000);
    assert_eq!(bytes.len(), 48);
    assert_eq!(&bytes[0..4], &20u32.to_ne_bytes());
    assert_eq!(&bytes[4..8], &18u32.to_ne_bytes());
    let steps = upload_steps(&vec![1u32, 2]);
    assert_eq!(steps.len(), 4 * SLOT_WORDS * 2);
    assert!(matches!(gpu_data(&GpuJob { has_mode_source: true, ..gpu_job() }), Err(GpuError::ModeSource)));
    assert!(matches!(gpu_data(&GpuJob { n_ports: 1, ..gpu_job() }), Err(GpuError::Ports)));
    assert!(matches!(gpu_data(&GpuJob { npml: 9, ..gpu_job() }), Err(GpuError::NoInterior)));
    assert!(matches!(
        gpu_data(&GpuJob { probe: Some((20, 0)), ..gpu_job() }),
        Err(GpuError::ProbeOutside)
    ));
    assert!(matches!(
        gpu_data(&GpuJob { eps: EpsSpec::Uniform { eps_r: Real(0.0) }, ..gpu_job() }),
        Err(GpuError::EpsNotPositive)
    ));
}

#[test]
fn device_steps_come_in_chunks() {
    assert_eq!(plan_steps(0, 600, 1000), Some(vec![(0, 256), (256, 512), (512, 600)]));
    assert_eq!(plan_steps(900, 200, 1000), None);
    assert_eq!(plan_steps(7, 0, 10), Some(vec![]));
    assert_eq!(slot_offset(3), 768);
    let sizes = buffer_sizes(20, 18, 2, 30);
    assert_eq!(sizes.ez, 4 * 360);
    assert_eq!(sizes.hx, 4 * 20 * 17);
    assert_eq!(sizes.step, 512);
    assert_eq!(sizes.staging, 4 * 360);
    assert_eq!(step_kernels(true).len(), 4);
    assert_eq!(step_kernels(false).len(), 3);
}

#[test]
fn device_data_follows_the_clock() {
    let physics = Physics { root, power: cube, layers: cpml(), wave: waveform() };
    let time = gaussian(2.0, 1.0);
    let Ok((dt, d)) = pack_job(&gpu_job(), Real(0.5), 3, Some(time), &physics) else {
        panic!("refused");
    };
    assert_eq!(dt, Real(0.5 / 2f64.sqrt()));
    let amps: Vec<f64> = (1..=3).map(|n| 3.0 * eval(&time, n as f64 * dt.0).0).collect();
    assert_eq!(d.amps, reals(&amps));
    let x = tables(20, 4, dt.0);
    assert_eq!(d.coeff[..20], x.e.inv_k[..]);
    assert_eq!(d.coeff[20..40], x.e.b[..]);
    // a Courant number that is not positive gives way to one half
    for courant in [0.0, -1.0, f64::NAN] {
        let r = pack_job(&gpu_job(), Real(courant), 3, Some(time), &physics);
        assert_eq!(r.map(|x| x.0).ok(), Some(dt));
    }
    let flat = GpuJob { nx: 0, ..gpu_job() };
    let r = pack_job(&flat, Real(0.5), 3, Some(time), &physics);
    assert!(matches!(r, Err(GpuError::NoInterior)));
}
