//! Fields on the plane: propagation, layers, modes, ports and jobs.

use std::f64::consts::{FRAC_PI_2, PI};
use tei_fabric::complex::Cx;
use tei_fabric::field::clock::{signals, time_step, Timing};
use tei_fabric::field::cpml::CpmlParams;
use tei_fabric::field::eps::{DeviceSection, EpsSpec};
use tei_fabric::field::grid::{default_npml, yee_axis_wavenumber, Grid2d, GridSpec};
use tei_fabric::field::grid3::CpmlTables;
use tei_fabric::field::job::{Course, FieldError, FieldPlan};
use tei_fabric::field::mode::{ModeShape, ModeSolver, SlabMode, SlabWaveguide};
use tei_fabric::field::monitor::{DftMonitor, PortMonitor, PortSpec, Probe};
use tei_fabric::field::run::{
    next_stop, run_ledger, thinned, Beat, Drive, FieldExecutor, FieldJob,
    FieldLedger, MAX_TRACE_POINTS,
};
use tei_fabric::field::setup::{mode_profile, FieldSetup, ModeFault, ModeSourceSpec};
use tei_fabric::field::source::{Source, SourceShape, TimeProfile, Waveform};
use tei_fabric::field::sparams::{entries, extract, ExtractedSparams};
use tei_fabric::field::ticks::Part;
use tei_fabric::field::whole::{run_job, Outcome, Physics};
use tei_fabric::matrix::Matrix;
use tei_fabric::photonic::components::segment;
use tei_fabric::photonic::network::{Solver, Sparams};
use tei_fabric::scalar::Scalar;

/// Double-precision samples.
#[derive(Debug, Clone, Copy, PartialEq, PartialOrd)]
struct Real(f64);

impl Scalar for Real {
    fn zero_value() -> Self {
        Real(0.0)
    }

    fn sum(self, rhs: Self) -> Self {
        Real(self.0 + rhs.0)
    }

    fn difference(self, rhs: Self) -> Self {
        Real(self.0 - rhs.0)
    }

    fn product(self, rhs: Self) -> Self {
        Real(self.0 * rhs.0)
    }

    fn at_least(self, threshold: Self) -> bool {
        self.0 >= threshold.0
    }

    fn less_than(self, rhs: Self) -> bool {
        self.0 < rhs.0
    }

    fn quotient(self, rhs: Self) -> Self {
        Real(self.0 / rhs.0)
    }

    fn negative(self) -> Self {
        Real(-self.0)
    }

    fn rank(self) -> u64 {
        let bits = self.0.to_bits();
        if bits >> 63 == 1 {
            !bits
        } else {
            bits | 1 << 63
        }
    }

    fn of_count(n: u64) -> Self {
        Real(n as f64)
    }

    fn zero() -> Self {
        Real(0.0)
    }

    fn plus(self, rhs: Self) -> Self {
        Real(self.0 + rhs.0)
    }

    fn minus(self, rhs: Self) -> Self {
        Real(self.0 - rhs.0)
    }

    fn times(self, rhs: Self) -> Self {
        Real(self.0 * rhs.0)
    }

    fn reaches(self, threshold: Self) -> bool {
        self.0 >= threshold.0
    }

    fn below(self, rhs: Self) -> bool {
        self.0 < rhs.0
    }

    fn over(self, rhs: Self) -> Self {
        Real(self.0 / rhs.0)
    }

    fn opposite(self) -> Self {
        Real(-self.0)
    }

    fn precedes(self, rhs: Self) -> bool {
        self.0.total_cmp(&rhs.0) == std::cmp::Ordering::Less
    }

    fn from_count(n: u64) -> Self {
        Real(n as f64)
    }
}

type Z = Cx<Real>;

fn sin(x: Real) -> Real {
    Real(x.0.sin())
}

fn cos(x: Real) -> Real {
    Real(x.0.cos())
}

fn exp(x: Real) -> Real {
    Real(x.0.exp())
}

fn magnitude(x: Real) -> Real {
    Real(x.0.abs())
}

fn phasor(a: f64) -> Z {
    Cx { re: Real(a.cos()), im: Real(a.sin()) }
}

fn reals(v: &[f64]) -> Vec<Real> {
    v.iter().map(|&x| Real(x)).collect()
}

fn cpml() -> CpmlParams<Real> {
    CpmlParams {
        m: Real(3.0),
        sigma_scale: Real(1.0),
        sigma_unit: Real(0.8),
        kappa_max: Real(3.0),
        alpha_max: Real(0.05),
    }
}

fn cube(r: Real) -> Real {
    Real(r.0.powf(3.0))
}

fn tables(n: usize, npml: usize, dt: f64) -> CpmlTables<Real> {
    cpml().axis(n, npml, Real(dt), Real(0.5), &cube, &exp)
}

type Wave = Waveform<Real, fn(Real) -> Real, fn(Real) -> Real, fn(Real) -> Real>;

fn waveform() -> Wave {
    Waveform { exp, sin, cos, half_turn: Real(PI), half: Real(0.5) }
}

fn eval(p: &TimeProfile<Real>, t: f64) -> Real {
    p.eval(Real(t), &waveform())
}

fn root(x: Real) -> Real {
    Real(x.0.sqrt())
}

fn size(x: Z) -> f64 {
    x.re.0.hypot(x.im.0)
}

fn power(x: Z) -> f64 {
    x.norm_sq().0
}

fn divide(a: Z, b: Z) -> Z {
    let d = b.norm_sq().0;
    let n = a.times(b.conj());
    Cx { re: Real(n.re.0 / d), im: Real(n.im.0 / d) }
}

fn grid(nx: usize, ny: usize, npml: usize, courant: f64, eps: &[f64]) -> Grid2d<Real> {
    let dt = courant / 2f64.sqrt();
    Grid2d::new(
        &GridSpec { nx, ny, npml },
        Real(dt),
        reals(eps),
        eps.iter().map(|e| Real(dt / e)).collect(),
        (tables(nx, npml, dt), tables(ny, npml, dt)),
    )
}

fn vacuum_grid(nx: usize, ny: usize, npml: usize, courant: f64) -> Grid2d<Real> {
    grid(nx, ny, npml, courant, &vec![1.0; nx * ny])
}

fn point(i: usize, j: usize) -> Source<Real> {
    Source { shape: SourceShape::Point { i, j }, amplitude: Real(1.0) }
}

fn gaussian(t0: f64, tau: f64) -> TimeProfile<Real> {
    TimeProfile::Gaussian { t0: Real(t0), tau: Real(tau) }
}

fn yee(omega: f64, dt: f64) -> Option<f64> {
    let asin = |x: Real| Real(x.0.asin());
    yee_axis_wavenumber(Real(omega), Real(dt), sin, asin, magnitude).map(|k| k.0)
}

#[test]
fn numerical_dispersion_matches_yee_relation() {
    let (nx, ny, npml) = (140usize, 100usize, 10usize);
    let mut g = vacuum_grid(nx, ny, npml, 0.5);
    let dt = g.dt.0;
    let period_steps = 24usize;
    let omega = 2.0 * PI / (period_steps as f64 * dt);
    let src = point(40, ny / 2);
    let time =
        TimeProfile::Cw { omega: Real(omega), ramp: Real(4.0 * period_steps as f64 * dt) };
    let xs: Vec<usize> = (70..=100).step_by(2).collect();
    let mut mons: Vec<DftMonitor<Real>> =
        xs.iter().map(|&i| DftMonitor::new(i, ny / 2, 1)).collect();
    let warmup = 450usize;
    let accumulate = 14 * period_steps;
    for n in 0..warmup + accumulate {
        g.step();
        let t = (n + 1) as f64 * dt;
        src.inject(&mut g, eval(&time, t));
        if n >= warmup {
            for m in &mut mons {
                m.record(&g, &vec![phasor(-omega * t)]);
            }
        }
    }
    let phases: Vec<f64> = mons
        .iter()
        .map(|m| {
            let a = m.sums.accum[0];
            a.im.0.atan2(a.re.0)
        })
        .collect();
    let mut unwrapped = vec![phases[0]];
    for w in phases.windows(2) {
        let mut d = w[1] - w[0];
        while d > PI {
            d -= 2.0 * PI;
        }
        while d < -PI {
            d += 2.0 * PI;
        }
        unwrapped.push(unwrapped.last().unwrap() + d);
    }
    let n = xs.len() as f64;
    let xm = xs.iter().map(|&x| x as f64).sum::<f64>() / n;
    let ym = unwrapped.iter().sum::<f64>() / n;
    let (mut sxy, mut sxx) = (0.0, 0.0);
    for (&x, &y) in xs.iter().zip(&unwrapped) {
        sxy += (x as f64 - xm) * (y - ym);
        sxx += (x as f64 - xm) * (x as f64 - xm);
    }
    let k_measured = -(sxy / sxx);
    let k_theory = yee(omega, dt).expect("inside the band");
    assert!(k_theory.is_finite());
    let rel = (k_measured - k_theory).abs() / k_theory;
    assert!(rel < 0.01, "measured {k_measured}, exact {k_theory}, off by {rel}");
    assert!((k_theory - omega).abs() / omega > 0.015);
    assert!(yee(PI / dt, dt).is_none());
}

fn pulse_probe_trace(
    nx: usize,
    ny: usize,
    src_ij: (usize, usize),
    probe_ij: (usize, usize),
    steps: usize,
    eps: &[f64],
    (t0, tau): (f64, f64),
) -> Vec<f64> {
    let mut g = grid(nx, ny, 10, 0.5, eps);
    let dt = g.dt.0;
    let src = point(src_ij.0, src_ij.1);
    let time = gaussian(t0, tau);
    let mut probe = Probe::new(probe_ij.0, probe_ij.1);
    for n in 0..steps {
        g.step();
        src.inject(&mut g, eval(&time, (n + 1) as f64 * dt));
        probe.record(&g);
    }
    assert_eq!(probe.last(), probe.trace[steps - 1]);
    probe.trace.iter().map(|x| x.0).collect()
}

#[test]
fn cpml_reflection_below_minus_50_db() {
    let steps = 410;
    let pulse = (24.0, 8.0);
    let small =
        pulse_probe_trace(100, 100, (50, 50), (50, 22), steps, &vec![1.0; 100 * 100], pulse);
    let reference =
        pulse_probe_trace(200, 200, (100, 100), (100, 72), steps, &vec![1.0; 200 * 200], pulse);
    let incident_peak = reference.iter().fold(0.0f64, |a, &b| a.max(b.abs()));
    let reflected_peak =
        small.iter().zip(&reference).fold(0.0f64, |a, (&x, &y)| a.max((x - y).abs()));
    assert!(incident_peak > 0.0);
    let ratio = reflected_peak / incident_peak;
    assert!(ratio < 3e-3, "reflection {ratio} ({} dB)", 20.0 * ratio.log10());
}

#[test]
fn courant_stability_boundary() {
    let run = |courant: f64, steps: usize| -> f64 {
        let mut g = vacuum_grid(60, 60, 8, courant);
        let dt = g.dt.0;
        let src = point(30, 30);
        let time = gaussian(10.0, 3.0);
        for n in 0..steps {
            g.step();
            src.inject(&mut g, eval(&time, (n + 1) as f64 * dt));
        }
        g.ez_max_abs(&magnitude).0
    };
    let unstable = run(1.02, 500);
    assert!(unstable > 1e6, "should diverge, max = {unstable}");
    let stable = run(0.98, 1500);
    assert!(stable.is_finite() && stable < 1e2, "should stay bounded, max = {stable}");
}

#[test]
fn dielectric_slab_group_delay() {
    let (nx, ny) = (200usize, 80usize);
    let (i0, i1) = (95usize, 111usize);
    let steps = 640;
    let pulse = (45.0, 15.0);
    let src = (50, ny / 2);
    let prb = (150, ny / 2);
    let vacuum = pulse_probe_trace(nx, ny, src, prb, steps, &vec![1.0; nx * ny], pulse);
    let slab_eps: Vec<f64> = EpsSpec::Slab { eps_r: Real(4.0), i0, i1, background: Real(1.0) }
        .build(nx, ny)
        .iter()
        .map(|e| e.0)
        .collect();
    let slab = pulse_probe_trace(nx, ny, src, prb, steps, &slab_eps, pulse);
    let max_lag = 90usize;
    let corr: Vec<f64> = (0..=max_lag)
        .map(|l| vacuum[..steps - l].iter().zip(&slab[l..]).map(|(a, b)| a * b).sum())
        .collect();
    let lmax = corr.iter().enumerate().max_by(|a, b| a.1.total_cmp(b.1)).unwrap().0;
    assert!(lmax > 0 && lmax < max_lag, "correlation peak at edge");
    let (c0, c1, c2) = (corr[lmax - 1], corr[lmax], corr[lmax + 1]);
    let lag = lmax as f64 + 0.5 * (c0 - c2) / (c0 - 2.0 * c1 + c2);
    let dt = 0.5 / 2f64.sqrt();
    let expected = (2.0 - 1.0) * (i1 - i0) as f64 / dt;
    let rel = (lag - expected).abs() / expected;
    assert!(rel < 0.05, "slab delay {lag} steps, expected {expected} (off by {rel})");
}

/// The next magnetic half level, from copies of the state.
fn staggered_energy(g: &Grid2d<Real>) -> f64 {
    let mut next = vacuum_grid(g.nx, g.ny, g.npml, 0.5);
    next.ez = g.ez.clone();
    next.hx = g.hx.clone();
    next.hy = g.hy.clone();
    next.psi_ez_x = g.psi_ez_x.clone();
    next.psi_ez_y = g.psi_ez_y.clone();
    next.psi_hx_y = g.psi_hx_y.clone();
    next.psi_hy_x = g.psi_hy_x.clone();
    next.step();
    let e: f64 = g.ez.iter().map(|v| v.0 * v.0).sum();
    let hx: f64 = g.hx.iter().zip(&next.hx).map(|(a, b)| a.0 * b.0).sum();
    let hy: f64 = g.hy.iter().zip(&next.hy).map(|(a, b)| a.0 * b.0).sum();
    0.5 * (e + hx + hy)
}

#[test]
fn energy_decays_monotonically_after_source_off() {
    let mut g = vacuum_grid(90, 90, 10, 0.5);
    let dt = g.dt.0;
    let src = point(45, 45);
    let time = gaussian(24.0, 8.0);
    let drive = 160usize;
    for n in 0..drive {
        g.step();
        src.inject(&mut g, eval(&time, (n + 1) as f64 * dt));
    }
    let mut energies = vec![staggered_energy(&g)];
    for _ in 0..28 {
        for _ in 0..25 {
            g.step();
        }
        energies.push(staggered_energy(&g));
    }
    let e_first = energies[0];
    assert!(e_first > 0.0);
    for w in energies.windows(2) {
        assert!(w[1] <= w[0] * (1.0 + 1e-9) + 1e-30, "energy grew: {} -> {}", w[0], w[1]);
    }
    let e_last = *energies.last().unwrap();
    assert!(e_last < 1e-4 * e_first, "should have drained: {e_last} vs {e_first}");
}

/// Beats of a run with a source and no ports.
fn beats(steps: usize, dt: f64, time: &TimeProfile<Real>, omegas: &[f64]) -> Vec<Beat<Real>> {
    let asked = Timing {
        source: Some(*time),
        mode_source: None,
        frequencies: reals(omegas),
        ports: false,
    };
    asked.beats(steps, Real(dt), &waveform())
}

#[test]
fn executor_is_deterministic() {
    let eps = EpsSpec::Slab { eps_r: Real(4.0), i0: 50, i1: 58, background: Real(1.0) };
    let job = FieldJob {
        nx: 80,
        ny: 80,
        steps: 400,
        npml: default_npml(),
        eps,
        probe: None,
        n_frequencies: 2,
    };
    let dt = 0.5 / 2f64.sqrt();
    let run = || {
        let mut ticks = Vec::new();
        let r = FieldExecutor.execute(
            &job,
            &eps,
            Real(dt),
            (tables(80, 10, dt), tables(80, 10, dt)),
            Vec::new(),
            &Drive { source: Some(point(25, 40)), injector: None },
            &beats(400, dt, &gaussian(24.0, 8.0), &[0.2, 0.4]),
            Part::Whole,
            &mut ticks,
        );
        (r, ticks)
    };
    let ((r1, first), (r2, second)) = (run(), run());
    assert_eq!(first, second, "the same reports");
    assert_eq!(first.len(), 100, "one report per percent");
    assert_eq!(first.last().map(|t| t.done), Some(400));
    assert!(first.iter().all(|t| r1.probe.trace[t.done - 1] == t.seen));
    assert_eq!(r1.grid.ez, r2.grid.ez, "runs must be bit-identical");
    assert_eq!(r1.probe.trace, r2.probe.trace);
    let ledger = run_ledger(80, 80, 400, &r1);
    assert_eq!(ledger.macs, 3 * 80 * 80 * 400);
    assert_eq!(ledger.adc_samples, 400 + 400);
    let dft = r1.dft.spectra(Real(dt));
    assert_eq!(dft.len(), 2);
    assert!(size(dft[0]) > 0.0);
    let (stride, trace) = thinned(&r1.probe.trace);
    assert_eq!((stride, trace.len()), (1, 400));
    assert_eq!(r1.grid.snapshot_ez().len(), 80 * 80);
    assert_eq!((r1.probe.i, r1.probe.j), (40, 40));
}

fn solver() -> ModeSolver<Real, fn(Real) -> Real, fn(Real) -> Real> {
    fn tan(x: Real) -> Real {
        Real(x.0.tan())
    }
    ModeSolver {
        root,
        tan,
        half: Real(0.5),
        quarter_turn: Real(FRAC_PI_2),
        cutoff_factor: Real(1.0 + 1e-14),
        cutoff_floor: Real(1e-300),
    }
}

fn guide(eps_core: f64, eps_clad: f64, half_width: f64) -> SlabWaveguide<Real> {
    SlabWaveguide {
        eps_core: Real(eps_core),
        eps_clad: Real(eps_clad),
        half_width: Real(half_width),
    }
}

fn solve(wg: &SlabWaveguide<Real>, omega: f64, m: usize) -> Option<SlabMode<Real>> {
    wg.solve(Real(omega), m, &solver())
}

fn mode_count(wg: &SlabWaveguide<Real>, omega: f64) -> usize {
    wg.mode_count(Real(omega), &solver(), &|x: Real| x.0.ceil() as usize)
}

type Shape = ModeShape<
    fn(Real) -> Real,
    fn(Real) -> Real,
    fn(Real) -> Real,
    fn(Real) -> Real,
    fn(Real) -> Real,
>;

fn shape() -> Shape {
    fn sign(x: Real) -> Real {
        Real(x.0.signum())
    }
    ModeShape { cos, sin, exp, magnitude, sign }
}

fn sample(md: &SlabMode<Real>, ny: usize, center: f64) -> Vec<Real> {
    md.sample(ny, Real(center), &shape(), &root).expect("positive norm")
}

#[test]
fn te0_effective_index_closed_form_anchors() {
    let wg = guide(2.0, 1.0, 1.0);
    let omega = PI / (2.0 * 2f64.sqrt());
    let m = solve(&wg, omega, 0).expect("TE0 always guided");
    assert!((m.n_eff.0 - 6f64.sqrt() / 2.0).abs() < 1e-9, "{}", m.n_eff.0);
    assert!((m.kappa.0 - PI / 4.0).abs() < 1e-9);
    assert!((m.gamma.0 - PI / 4.0).abs() < 1e-9);
    let m2 = solve(&guide(3.25, 2.25, 1.0), 2.0 * PI / 3.0, 0).expect("guided");
    assert!((m2.n_eff.0 - 3f64.sqrt()).abs() < 1e-9, "{}", m2.n_eff.0);
    let m3 = solve(&wg, 3.0 * PI / (2.0 * 2f64.sqrt()), 1).expect("TE1 guided");
    assert!((m3.n_eff.0 - 6f64.sqrt() / 2.0).abs() < 1e-9, "{}", m3.n_eff.0);
}

#[test]
fn mode_solver_dispersion_properties() {
    let cases = [(4.0f64, 1.0f64, 3.0f64), (2.25, 1.0, 5.0), (12.0, 2.0, 1.5), (4.0, 3.9, 8.0)];
    for &(eps_core, eps_clad, a) in &cases {
        let wg = guide(eps_core, eps_clad, a);
        for &omega in &[0.08, 0.2, 0.5, 1.1] {
            let count = mode_count(&wg, omega);
            assert!(count >= 1, "TE0 has no cutoff");
            for m in 0..count {
                let md = solve(&wg, omega, m).expect("guided below count");
                let (u, v) = (md.kappa.0 * a, md.gamma.0 * a);
                let d = u - m as f64 * FRAC_PI_2;
                let resid = u * d.sin() - v * d.cos();
                assert!(resid.abs() < 1e-9, "residual {resid} at {omega}, order {m}");
                assert!(md.n_eff.0 > eps_clad.sqrt() && md.n_eff.0 < eps_core.sqrt());
            }
            assert!(solve(&wg, omega, count).is_none(), "cutoff ladder broken");
        }
        let mut prev = 0.0;
        for k in 1..=20 {
            let n = solve(&wg, 0.05 * k as f64, 0).unwrap().n_eff.0;
            assert!(n > prev, "index must increase");
            prev = n;
        }
    }
    assert!(solve(&guide(1.0, 1.0, 2.0), 0.5, 0).is_none());
}

#[test]
fn mode_profile_properties() {
    let wg = guide(4.0, 1.0, 3.0);
    let omega = 0.6;
    assert_eq!(mode_count(&wg, omega), 2);
    for m in 0..2 {
        let md = solve(&wg, omega, m).unwrap();
        let at = |s: f64| md.profile(Real(s), &shape()).0;
        let a = md.half_width.0;
        for s in [a, -a] {
            let inside = at(s * (1.0 - 1e-9));
            let outside = at(s * (1.0 + 1e-9));
            assert!((inside - outside).abs() < 1e-6, "{inside} vs {outside}");
        }
        let sign = if m % 2 == 0 { 1.0 } else { -1.0 };
        for s in [0.7, 1.9, 4.2] {
            assert!((at(s) - sign * at(-s)).abs() < 1e-12);
        }
    }
    let (ny, yc) = (80usize, 39.5);
    let p0 = sample(&solve(&wg, omega, 0).unwrap(), ny, yc);
    let p1 = sample(&solve(&wg, omega, 1).unwrap(), ny, yc);
    let l2 = |p: &[Real]| p.iter().map(|x| x.0 * x.0).sum::<f64>();
    assert!((l2(&p0) - 1.0).abs() < 1e-12, "unit norm");
    assert!((l2(&p1) - 1.0).abs() < 1e-12, "unit norm");
    let dot: f64 = p0.iter().zip(&p1).map(|(a, b)| a.0 * b.0).sum();
    assert!(dot.abs() < 1e-12, "even and odd modes overlap by {dot}");
}

/// A two-port waveguide job: launch, band and ports.
struct Bench2 {
    nx: usize,
    ny: usize,
    steps: usize,
    rows: (usize, usize),
    device: Option<DeviceSection<Real>>,
    launch: usize,
    band: (f64, f64, f64),
    omegas: Vec<f64>,
    ports: Vec<usize>,
}

fn straight_bench() -> Bench2 {
    Bench2 {
        nx: 240,
        ny: 80,
        steps: 4200,
        rows: (37, 43),
        device: None,
        launch: 30,
        band: (0.25, 130.0, 40.0),
        omegas: vec![0.22, 0.25, 0.28],
        ports: vec![60, 160],
    }
}

type Function = fn(Real) -> Real;

fn physics() -> Physics<Real, Function, Function, Function, Function, Function> {
    Physics { root, power: cube, layers: cpml(), wave: waveform() }
}

/// Both runs of an extraction: the column and the two runs' ledger.
fn extraction(b: &Bench2) -> (ExtractedSparams<Real>, FieldLedger) {
    let eps = EpsSpec::WaveguideX {
        eps_r: Real(4.0),
        j0: b.rows.0,
        j1: b.rows.1,
        background: Real(1.0),
        device: b.device,
    };
    let time = TimeProfile::ModulatedGaussian {
        omega: Real(b.band.0),
        t0: Real(b.band.1),
        tau: Real(b.band.2),
    };
    let setup = FieldSetup {
        job: FieldJob {
            nx: b.nx,
            ny: b.ny,
            steps: b.steps,
            npml: 10,
            eps,
            probe: None,
            n_frequencies: b.omegas.len(),
        },
        source: None,
        mode_source: Some(ModeSourceSpec {
            i: b.launch,
            mode: 0,
            omega: Real(b.band.0),
            time,
            amplitude: Real(1.0),
        }),
        ports: b.ports.iter().map(|&i| PortSpec { i, mode: 0 }).collect(),
        frequencies: reals(&b.omegas),
    };
    let modes = setup.modes(&solver(), &shape());
    assert!(matches!(setup.plan(&modes).course(), Ok(Course::Extraction)));
    let mut ticks = Vec::new();
    let r = run_job(
        &setup,
        Real(0.5),
        None,
        &modes,
        &physics(),
        |a: Z| size(a) < 1e-30,
        divide,
        &mut ticks,
    );
    match r {
        Ok((dt, Outcome::Extraction(x))) => {
            assert_eq!(dt, Real(0.5 / 2f64.sqrt()));
            let device = ticks.iter().position(|t| t.part == Part::Device).expect("two runs");
            assert!(ticks[..device].iter().all(|t| t.part == Part::Reference));
            assert!(ticks[device..].iter().all(|t| t.part == Part::Device));
            assert_eq!((ticks[device - 1].done, ticks[ticks.len() - 1].done), (b.steps, b.steps));
            assert_eq!(ticks[device - 1].seen, x.reference.probe.last());
            assert_eq!(ticks[ticks.len() - 1].seen, x.device.probe.last());
            (x.sparams, x.ledger)
        }
        Ok(_) => panic!("a single run"),
        Err(e) => panic!("refused: {e:?}"),
    }
}

#[test]
fn straight_waveguide_s21_near_unity() {
    let (ex, _) = extraction(&straight_bench());
    for (fi, w) in ex.frequencies.iter().enumerate() {
        let s21 = size(ex.s_col[1][fi]);
        assert!((s21 - 1.0).abs() < 0.03, "transmission {s21} at {}", w.0);
    }
}

#[test]
fn straight_waveguide_fdtd_neff_matches_analytic() {
    let (ex, _) = extraction(&straight_bench());
    let wg = guide(4.0, 1.0, 3.0);
    let l = 100.0;
    for (fi, w) in ex.frequencies.iter().enumerate() {
        let analytic = solve(&wg, w.0, 0).unwrap();
        let s21 = ex.s_col[1][fi];
        let phase = s21.im.0.atan2(s21.re.0);
        let m = ((analytic.beta.0 * l - phase) / (2.0 * PI)).round();
        let beta_meas = (phase + 2.0 * PI * m) / l;
        let n_meas = beta_meas / w.0;
        let rel = (n_meas - analytic.n_eff.0).abs() / analytic.n_eff.0;
        assert!(rel < 0.02, "{n_meas} vs {} (off by {rel})", analytic.n_eff.0);
    }
}

#[test]
fn straight_waveguide_two_port_passivity() {
    let (ex, _) = extraction(&straight_bench());
    for (fi, w) in ex.frequencies.iter().enumerate() {
        let (s11, s21) = (ex.s_col[0][fi], ex.s_col[1][fi]);
        assert!(size(s11) < 1e-12, "reflection must cancel, got {}", size(s11));
        let sum = power(s11) + power(s21);
        assert!(sum <= 1.0 + 0.05, "passivity violated at {}: {sum}", w.0);
    }
}

#[test]
fn etalon_matches_airy_formula() {
    let (ex, _) = extraction(&Bench2 {
        nx: 220,
        ny: 110,
        steps: 5200,
        rows: (45, 55),
        device: Some(DeviceSection { delta: Real(1.85), i0: 110, i1: 126 }),
        launch: 30,
        band: (0.15, 230.0, 70.0),
        omegas: vec![0.138, 0.15, 0.162],
        ports: vec![60, 170],
    });
    let wg = guide(4.0, 1.0, 5.0);
    let (delta, d) = (1.85, 16.0);
    for (fi, w) in ex.frequencies.iter().enumerate() {
        let w = w.0;
        let beta1 = solve(&wg, w, 0).unwrap().beta.0;
        let beta2 = (beta1 * beta1 + delta * w * w).sqrt();
        let r = (beta1 - beta2) / (beta1 + beta2);
        let ph = phasor(2.0 * beta2 * d);
        let den = Cx::one().minus(ph.scale(Real(r * r)));
        let s11_an = power(divide(Cx::one().minus(ph).scale(Real(r)), den));
        let s21_an = ((1.0 - r * r) / size(den)).powi(2);
        let (s11, s21) = (power(ex.s_col[0][fi]), power(ex.s_col[1][fi]));
        assert!((s11 - s11_an).abs() < 0.01, "{s11} vs {s11_an} at {w}");
        assert!((s21 - s21_an).abs() < 0.02, "{s21} vs {s21_an} at {w}");
        assert!((s11 + s21 - 1.0).abs() < 0.03, "energy sum {} at {w}", s11 + s21);
    }
}

#[test]
fn extracted_two_port_feeds_photonic_circuit() {
    let (ex, _) = extraction(&straight_bench());
    let fi = 1;
    let dev = ex.two_port(fi);
    let (s11_f, s21_f) = (ex.s_col[0][fi], ex.s_col[1][fi]);
    let how = Solver { size: |x: Z| Real(size(x)), divide, tiny: Real(1e-13) };
    let t = phasor(2.0 * PI * 1.8 / 1.55 * 20.0);
    let comp = dev.star(&Sparams::from_full(&segment(t), 1), &how).expect("no resonance");
    let c21 = comp.s21.get(0, 0);
    assert!(size(c21.minus(t.times(s21_f))) < 1e-12, "cascade must factor exactly");
    assert!(size(comp.s11.get(0, 0).minus(s11_f)) < 1e-12);
    assert!((size(c21) - size(s21_f)).abs() < 1e-12);
    let r = 0.3f64;
    let tp = (1.0 - r * r).sqrt();
    let real = |x: f64| Cx { re: Real(x), im: Real(0.0) };
    let b = Matrix { rows: 2, cols: 2, data: vec![real(r), real(tp), real(tp), real(-r)] };
    let comp2 = dev.star(&Sparams::from_full(&b, 1), &how).expect("no resonance");
    let denom = Cx::one().minus(s11_f.scale(Real(r)));
    let expect2_s21 = divide(real(tp).times(s21_f), denom);
    let expect2_s11 = s11_f.plus(divide(s21_f.times(s21_f).scale(Real(r)), denom));
    assert!(size(comp2.s21.get(0, 0).minus(expect2_s21)) < 1e-12);
    assert!(size(comp2.s11.get(0, 0).minus(expect2_s11)) < 1e-12);
    let sum = power(comp2.s11.get(0, 0)) + power(comp2.s21.get(0, 0));
    assert!(sum <= 1.0 + 1e-2, "composite must stay passive, got {sum}");
}

#[test]
fn sparams_output_schema() {
    let b = straight_bench();
    let (ex, ledger) = extraction(&b);
    assert_eq!(ex.frequencies.len(), 3, "frequencies echoed");
    let list = entries(&ex.s_col, 3);
    assert_eq!(list.len(), 2 * 3, "ports x frequencies");
    for e in &list {
        assert_eq!(e.from, 1);
        assert!(e.to == 1 || e.to == 2);
        let s = ex.s_col[e.to - 1][e.frequency];
        assert_eq!((e.value.re, e.value.im), (s.re, s.im));
        let (re, im) = (e.value.re.0, e.value.im.0);
        let (abs, phase) = e.polar(&|x: Real, y: Real| Real(x.0.hypot(y.0)), &|y: Real, x: Real| {
            Real(y.0.atan2(x.0))
        });
        assert!((abs.0 - (re * re + im * im).sqrt()).abs() < 1e-12);
        assert!((phase.0 - im.atan2(re)).abs() < 1e-12);
    }
    assert_eq!(list[0].to, 1);
    assert_eq!(list[3].to, 2);
    assert_eq!(ledger.macs, 2 * 3 * (b.nx * b.ny * b.steps) as u64);
}

fn plan() -> FieldPlan {
    FieldPlan {
        nx: 60,
        has_source: false,
        launch: Some(15),
        launch_guided: true,
        waveguide: true,
        ports: vec![PortSpec { i: 25, mode: 0 }, PortSpec { i: 45, mode: 0 }],
        n_frequencies: 1,
        guided: vec![vec![true], vec![true]],
    }
}

fn refusal(p: FieldPlan) -> FieldError {
    match p.course() {
        Err(e) => e,
        Ok(_) => panic!("accepted"),
    }
}

fn said(p: FieldPlan) -> String {
    refusal(p).message().expect("a line")
}

#[test]
fn unfit_jobs_are_refused() {
    let no_ports = || FieldPlan { ports: vec![], guided: vec![], ..plan() };
    assert!(matches!(plan().course(), Ok(Course::Extraction)));
    assert!(matches!(no_ports().course(), Ok(Course::Plain)));
    assert!(said(FieldPlan { launch: None, ..no_ports() }).contains("source"));
    assert_eq!(
        said(FieldPlan { waveguide: false, ..no_ports() }),
        "mode_source requires eps.kind = \"waveguide_x\""
    );
    let none = FieldPlan { n_frequencies: 0, guided: vec![vec![], vec![]], ..plan() };
    assert!(said(none).contains("frequencies"));
    assert!(said(FieldPlan { waveguide: false, ..plan() }).contains("waveguide_x"));
    assert!(said(FieldPlan { launch: None, has_source: true, ..plan() }).contains("mode_source"));
    assert_eq!(
        said(FieldPlan { launch: Some(25), ..plan() }),
        "mode_source column (25) must lie left of port 1 (25) — the extraction convention is \
         source → port 1 → device → ports 2…"
    );
    assert_eq!(
        said(FieldPlan { nx: 46, ..plan() }),
        "port 2 column 45 outside the grid"
    );
    let dark = FieldPlan { guided: vec![vec![true], vec![false]], ..plan() };
    assert!(matches!(refusal(dark), FieldError::PortNotGuided(1, 0)));
    let lost = FieldPlan { launch_guided: false, ..plan() };
    assert!(matches!(refusal(lost), FieldError::LaunchNotGuided));
}

#[test]
fn vanished_incident_wave_has_no_column() {
    let port = || PortMonitor::new(3, vec![reals(&[0.0, 1.0, 0.0])]);
    let r = extract(
        &vec![port()],
        &vec![port(), port()],
        Real(1.0),
        1,
        |a: Z| size(a) < 1e-30,
        divide,
    );
    assert!(matches!(r, Err(0)));
}

#[test]
fn layouts_by_cell() {
    let eps = EpsSpec::WaveguideX {
        eps_r: Real(4.0),
        j0: 1,
        j1: 3,
        background: Real(1.0),
        device: Some(DeviceSection { delta: Real(0.5), i0: 1, i1: 9 }),
    };
    let row = |v: &[f64]| reals(v);
    assert_eq!(
        eps.build(2, 4),
        row(&[1.0, 4.0, 4.0, 1.0, 1.5, 4.5, 4.5, 1.5])
    );
    assert_eq!(eps.reference().build(1, 4), row(&[1.0, 4.0, 4.0, 1.0]));
    assert!(EpsSpec::Uniform { eps_r: Real(2.0) }.slab_waveguide().is_none());
    let (wg, center) = eps.slab_waveguide().expect("a waveguide");
    assert_eq!((wg.eps_core, wg.eps_clad, wg.half_width), (Real(4.0), Real(1.0), Real(1.0)));
    assert_eq!(center, Real(1.5));
    assert_eq!(EpsSpec::Uniform { eps_r: Real(2.0) }.build(1, 2), row(&[2.0, 2.0]));
}

#[test]
fn walls_stay_quiet() {
    // Whole numbers: sources on every inner cell never reach the outer ring.
    let mut g = vacuum_grid(9, 9, 2, 0.5);
    let line = Source {
        shape: SourceShape::Line { i: 4, j0: None, j1: None },
        amplitude: Real(2.0),
    };
    for _ in 0..7 {
        g.step();
        line.inject(&mut g, Real(1.0));
    }
    for k in 0..9 {
        assert_eq!(g.ez_at(0, k), Real(0.0));
        assert_eq!(g.ez_at(8, k), Real(0.0));
        assert_eq!(g.ez_at(k, 0), Real(0.0));
        assert_eq!(g.ez_at(k, 8), Real(0.0));
    }
    assert!(g.ez_at(4, 4).0 > 0.0);
    assert!(g.energy(Real(0.5)).0 > 0.0);
}

#[test]
fn layers_by_position() {
    let dt = 0.5 / 2f64.sqrt();
    let inert = cpml().coeffs(Real(20.0), 60, 10, Real(dt), &cube, &exp);
    assert_eq!(inert, (Real(1.0), Real(1.0), Real(0.0)));
    let (k, b, c) = cpml().coeffs(Real(0.0), 60, 10, Real(dt), &cube, &exp);
    // At the wall: sigma 3.2, kappa 3, alpha 0.
    let want_b = (-(3.2 / 3.0 + 0.0) * dt).exp();
    assert!((k.0 - 1.0 / 3.0).abs() < 1e-15);
    assert!((b.0 - want_b).abs() < 1e-15);
    assert!((c.0 - 3.2 * (want_b - 1.0) / (3.0 * 3.2)).abs() < 1e-15);
    let t = tables(60, 10, dt);
    assert_eq!(t.e.b.len(), 60);
    assert_eq!(t.h.b.len(), 59);
}

#[test]
fn signatures_in_time() {
    assert_eq!(eval(&gaussian(3.0, 2.0), 3.0), Real(1.0));
    assert_eq!(eval(&gaussian(3.0, 2.0), 5.0), Real((-1.0f64).exp()));
    let cw = |ramp: f64| TimeProfile::Cw { omega: Real(1.0), ramp: Real(ramp) };
    assert_eq!(eval(&cw(0.0), 0.5), Real(0.5f64.sin()));
    assert_eq!(eval(&cw(4.0), 5.0), Real(5.0f64.sin()));
    let half = 0.5 * (1.0 - (PI * 2.0 / 4.0).cos());
    assert_eq!(eval(&cw(4.0), 2.0), Real(half * 2.0f64.sin()));
    let m = TimeProfile::ModulatedGaussian { omega: Real(2.0), t0: Real(1.0), tau: Real(3.0) };
    assert_eq!(eval(&m, 1.0), Real(0.0));
    let u: f64 = 1.0 / 3.0;
    assert_eq!(eval(&m, 2.0), Real((-u * u).exp() * 2.0f64.sin()));
}

#[test]
fn long_traces_are_thinned() {
    let trace: Vec<Real> = (0..2500).map(|k| Real(k as f64)).collect();
    let (stride, short) = thinned(&trace);
    assert_eq!(stride, 3);
    assert_eq!(short.len(), 834);
    assert_eq!(short[1], Real(3.0));
    assert!(short.len() <= MAX_TRACE_POINTS);
}

#[test]
fn the_clock_of_a_run() {
    assert_eq!(time_step(Real(0.5), 2, &root), Real(0.5 / 2f64.sqrt()));
    let dt = 0.25;
    let asked = Timing {
        source: Some(gaussian(2.0, 1.5)),
        mode_source: Some(TimeProfile::Cw { omega: Real(0.3), ramp: Real(0.0) }),
        frequencies: reals(&[0.5, 2.0]),
        ports: true,
    };
    let list = asked.beats(3, Real(dt), &waveform());
    assert_eq!(list.len(), 3);
    for (n, b) in list.iter().enumerate() {
        let t = (n + 1) as f64 * dt;
        assert_eq!(b.signal, eval(&gaussian(2.0, 1.5), t));
        assert_eq!(b.mode_signal, Real((0.3 * t).sin()));
        for (f, w) in [0.5f64, 2.0].into_iter().enumerate() {
            assert_eq!((b.dft[f].re.0, b.dft[f].im.0), ((-w * t).cos(), (-w * t).sin()));
            assert_eq!((b.ports[f].re.0, b.ports[f].im.0), ((w * t).cos(), (w * t).sin()));
        }
    }
    let alone = signals(3, Real(dt), asked.source, &waveform());
    assert_eq!(alone, list.iter().map(|b| b.signal).collect::<Vec<_>>());
    assert_eq!(signals(2, Real(dt), None, &waveform()), reals(&[0.0, 0.0]));
}

#[test]
fn modes_make_the_plan() {
    let eps = EpsSpec::WaveguideX {
        eps_r: Real(4.0),
        j0: 20,
        j1: 26,
        background: Real(1.0),
        device: None,
    };
    let setup = |omega: f64, mode: usize, eps: EpsSpec<Real>| FieldSetup {
        job: FieldJob {
            nx: 60,
            ny: 46,
            steps: 10,
            npml: 8,
            eps,
            probe: None,
            n_frequencies: 2,
        },
        source: None,
        mode_source: Some(ModeSourceSpec {
            i: 15,
            mode: 0,
            omega: Real(0.2),
            time: gaussian(20.0, 5.0),
            amplitude: Real(2.0),
        }),
        ports: vec![PortSpec { i: 25, mode: 0 }, PortSpec { i: 45, mode }],
        frequencies: reals(&[0.2, omega]),
    };
    let s = setup(0.25, 0, eps);
    let modes = s.modes(&solver(), &shape());
    assert!(matches!(s.plan(&modes).course(), Ok(Course::Extraction)));
    let (wg, center) = eps.slab_waveguide().unwrap();
    let expected = sample(&solve(&wg, 0.25, 0).unwrap(), 46, center.0);
    assert_eq!(modes.ports[1][1], Ok(expected.clone()));
    let rig = s.rig(&modes, (tables(60, 8, 0.3), tables(46, 8, 0.3)));
    assert_eq!(rig.ports[1].profiles[1], expected);
    assert_eq!((rig.ports[1].i, rig.ports[1].samples), (45, 0));
    let drive = s.drive(&modes);
    let injector = drive.injector.expect("a launch");
    assert_eq!((injector.i, injector.amplitude), (15, Real(2.0)));
    assert_eq!(injector.profile, sample(&solve(&wg, 0.2, 0).unwrap(), 46, center.0));
    // the second port's mode is not guided at the second frequency
    let dark = setup(0.25, 7, eps);
    let modes = dark.modes(&solver(), &shape());
    assert!(matches!(refusal(dark.plan(&modes)), FieldError::PortNotGuided(1, 0)));
    // no guide, no modes
    let open = setup(0.25, 0, EpsSpec::Uniform { eps_r: Real(1.0) });
    let modes = open.modes(&solver(), &shape());
    assert!(matches!(modes.launch, Some(Err(ModeFault::NotGuided))));
    assert!(matches!(refusal(open.plan(&modes)), FieldError::PortsNeedWaveguide));
    // a profile without rows has no norm
    let none = mode_profile(&eps.slab_waveguide(), Real(0.2), 0, 2, &solver(), &shape());
    assert_eq!(none, Err(ModeFault::Degenerate));
}

#[test]
fn empty_layouts_are_refused() {
    let job = FieldJob {
        nx: 30,
        ny: 30,
        steps: 4,
        npml: 8,
        eps: EpsSpec::Slab { eps_r: Real(0.0), i0: 10, i1: 12, background: Real(1.0) },
        probe: None,
        n_frequencies: 0,
    };
    let setup = FieldSetup {
        job,
        source: Some((point(15, 15), gaussian(2.0, 1.0))),
        mode_source: None,
        ports: Vec::new(),
        frequencies: Vec::new(),
    };
    let modes = setup.modes(&solver(), &shape());
    let mut told = Vec::new();
    let r = FieldExecutor.run_plain(
        &setup.plan(&modes),
        &setup.job,
        Real(0.3),
        setup.rig(&modes, (tables(30, 8, 0.3), tables(30, 8, 0.3))),
        &setup.drive(&modes),
        &setup.timing().beats(4, Real(0.3), &waveform()),
        &mut told,
    );
    match r {
        Err(e) => assert_eq!(e.message().as_deref(), Some("eps_r must be positive")),
        Ok(_) => panic!("accepted"),
    }
    assert!(told.is_empty());
    assert!(!setup.job.is_dense(&setup.job.eps));
    assert!(setup.job.is_dense(&EpsSpec::Uniform { eps_r: Real(0.1) }));
}

#[test]
fn whole_jobs_run_on_their_own_clock() {
    let setup = |amplitude: bool, ports: Vec<PortSpec>| FieldSetup {
        job: FieldJob {
            nx: 30,
            ny: 28,
            steps: 12,
            npml: 8,
            eps: EpsSpec::Uniform { eps_r: Real(2.0) },
            probe: Some((14, 13)),
            n_frequencies: 1,
        },
        source: if amplitude { Some((point(15, 13), gaussian(2.0, 1.0))) } else { None },
        mode_source: None,
        ports,
        frequencies: reals(&[0.3]),
    };
    let whole = |s: &FieldSetup<Real>| {
        let mut told = Vec::new();
        let modes = s.modes(&solver(), &shape());
        let r = run_job(
            s,
            Real(0.4),
            None,
            &modes,
            &physics(),
            |a: Z| size(a) < 1e-30,
            divide,
            &mut told,
        );
        assert!(told.iter().all(|t| t.part == Part::Whole));
        (r, told.iter().map(|t| t.done).collect::<Vec<usize>>())
    };
    let s = setup(true, Vec::new());
    let (r, told) = whole(&s);
    assert_eq!(told, (1..=12).collect::<Vec<usize>>());
    let Ok((dt, Outcome::Plain(run, ledger))) = r else {
        panic!("refused");
    };
    assert_eq!(dt, Real(0.4 / 2f64.sqrt()));
    assert_eq!((ledger.macs, ledger.adc_samples), (3 * 30 * 28 * 12, 24));
    let modes = s.modes(&solver(), &shape());
    let by_hand = FieldExecutor.execute(
        &s.job,
        &s.job.eps,
        dt,
        (tables(30, 8, dt.0), tables(28, 8, dt.0)),
        Vec::new(),
        &s.drive(&modes),
        &s.timing().beats(12, dt, &waveform()),
        Part::Whole,
        &mut Vec::new(),
    );
    assert_eq!(run.grid.ez, by_hand.grid.ez);
    assert_eq!(run.probe.trace, by_hand.probe.trace);
    assert!(run.probe.trace.iter().any(|x| x.0 != 0.0));
    // nothing drives the second job, and the third has no mode source
    let (r, told) = whole(&setup(false, Vec::new()));
    assert!(matches!(r, Err(FieldError::NoSource)) && told.is_empty());
    let (r, _) = whole(&setup(true, vec![PortSpec { i: 20, mode: 0 }]));
    assert!(matches!(r, Err(FieldError::PortsNeedLaunch)));
}

#[test]
fn reports_come_due_by_the_hundredth() {
    let stops = |steps: usize| {
        let mut all = vec![next_stop(0, steps)];
        while all[all.len() - 1] < steps {
            all.push(next_stop(all[all.len() - 1], steps));
        }
        all
    };
    assert_eq!(stops(3), [1, 2, 3]);
    assert_eq!(stops(300).len(), 100);
    assert_eq!(stops(250)[..3], [2, 4, 6]);
    assert_eq!(stops(305).len(), 102);
    assert_eq!(stops(305)[100..], [303, 305]);
}
