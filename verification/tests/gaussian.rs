//! Gaussian states, their maps, measurements and jobs.

use std::cell::RefCell;
use tei_fabric::gaussian::exec::{
    shot_batches, total_steps, GaussianExecutor, GaussianOp, GaussianTick, HIST_BINS, SHOT_BATCH,
};
use tei_fabric::gaussian::fidelity::fidelity_single_mode;
use tei_fabric::gaussian::jacobi::{jacobi_eigh, Jacobi};
use tei_fabric::gaussian::shots::{Detector, GaussianJob, GaussianReport, HomodyneSpec};
use tei_fabric::gaussian::state::{
    beamsplitter, embed_one_mode, embed_two_mode, omega, rotation, squeezer, two_mode_squeezer,
    Boost, GaussianState, Turn,
};
use tei_fabric::gaussian::williamson::{
    is_physical, physicality_margin, sym_sqrt, symplectic_eigenvalues,
};
use tei_fabric::matrix::{Matrix, Number};
use tei_fabric::scalar::Scalar;

/// Double-precision samples.
#[derive(Debug, Clone, Copy, PartialEq, PartialOrd)]
struct Real(f64);

impl Scalar for Real {
    fn zero_value() -> Self {
        Real(0.0)
    }

    fn sum(self, rhs: Self) -> Self {
        Real(self.0 + rhs.0)
    }

    fn difference(self, rhs: Self) -> Self {
        Real(self.0 - rhs.0)
    }

    fn product(self, rhs: Self) -> Self {
        Real(self.0 * rhs.0)
    }

    fn at_least(self, threshold: Self) -> bool {
        self.0 >= threshold.0
    }

    fn less_than(self, rhs: Self) -> bool {
        self.0 < rhs.0
    }

    fn quotient(self, rhs: Self) -> Self {
        Real(self.0 / rhs.0)
    }

    fn negative(self) -> Self {
        Real(-self.0)
    }

    fn rank(self) -> u64 {
        let bits = self.0.to_bits();
        if bits >> 63 == 1 {
            !bits
        } else {
            bits | 1 << 63
        }
    }

    fn of_count(n: u64) -> Self {
        Real(n as f64)
    }

    fn zero() -> Self {
        Real(0.0)
    }

    fn plus(self, rhs: Self) -> Self {
        Real(self.0 + rhs.0)
    }

    fn minus(self, rhs: Self) -> Self {
        Real(self.0 - rhs.0)
    }

    fn times(self, rhs: Self) -> Self {
        Real(self.0 * rhs.0)
    }

    fn reaches(self, threshold: Self) -> bool {
        self.0 >= threshold.0
    }

    fn below(self, rhs: Self) -> bool {
        self.0 < rhs.0
    }

    fn over(self, rhs: Self) -> Self {
        Real(self.0 / rhs.0)
    }

    fn opposite(self) -> Self {
        Real(-self.0)
    }

    fn precedes(self, rhs: Self) -> bool {
        self.0.total_cmp(&rhs.0) == std::cmp::Ordering::Less
    }

    fn from_count(n: u64) -> Self {
        Real(n as f64)
    }
}

/// xoshiro256++ seeded by splitmix64.
struct Rng {
    s: [u64; 4],
    spare: Option<f64>,
}

impl Rng {
    fn new(seed: u64) -> Self {
        let mut x = seed;
        let mut s = [0u64; 4];
        for word in s.iter_mut() {
            x = x.wrapping_add(0x9E37_79B9_7F4A_7C15);
            let mut z = x;
            z = (z ^ (z >> 30)).wrapping_mul(0xBF58_476D_1CE4_E5B9);
            z = (z ^ (z >> 27)).wrapping_mul(0x94D0_49BB_1331_11EB);
            *word = z ^ (z >> 31);
        }
        Rng { s, spare: None }
    }

    fn next_u64(&mut self) -> u64 {
        let s = &mut self.s;
        let r = s[0].wrapping_add(s[3]).rotate_left(23).wrapping_add(s[0]);
        let t = s[1] << 17;
        s[2] ^= s[0];
        s[3] ^= s[1];
        s[1] ^= s[2];
        s[0] ^= s[3];
        s[2] ^= t;
        s[3] = s[3].rotate_left(45);
        r
    }

    fn f64(&mut self) -> f64 {
        (self.next_u64() >> 11) as f64 / (1u64 << 53) as f64
    }


    fn below(&mut self, n: usize) -> usize {
        (self.next_u64() % n as u64) as usize
    }

    fn normal(&mut self) -> f64 {
        if let Some(z) = self.spare.take() {
            return z;
        }
        let u = 1.0 - self.f64();
        let v = self.f64();
        let r = (-2.0 * u.ln()).sqrt();
        let (sin, cos) = (std::f64::consts::TAU * v).sin_cos();
        self.spare = Some(r * sin);
        r * cos
    }
}

const TOL: f64 = 1e-12;

fn turn(a: f64) -> Turn<Real> {
    Turn { sin: Real(a.sin()), cos: Real(a.cos()) }
}

fn boost(r: f64) -> Boost<Real> {
    Boost { sinh: Real(r.sinh()), cosh: Real(r.cosh()) }
}

fn root(x: Real) -> Real {
    Real(x.0.sqrt())
}

fn exp(x: Real) -> Real {
    Real(x.0.exp())
}

fn magnitude(x: Real) -> Real {
    Real(x.0.abs())
}

fn sign(x: Real) -> Real {
    Real(x.0.signum())
}

/// The solver at double precision.
fn solver() -> Jacobi<Real, fn(Real) -> Real, fn(Real) -> Real, fn(Real) -> Real> {
    Jacobi { root, magnitude, sign, tiny: Real(f64::MIN_POSITIVE), relative: Real(1e-15) }
}

const HALF: Real = Real(0.5);

const TOP: Real = Real(f64::INFINITY);

fn vacuum(n: usize) -> GaussianState<Real> {
    GaussianState::vacuum(n)
}

fn coherent(alphas: &[(f64, f64)]) -> GaussianState<Real> {
    GaussianState::coherent(&alphas.iter().map(|a| (Real(a.0), Real(a.1))).collect())
}

fn squeezed(p: &[(f64, f64)]) -> GaussianState<Real> {
    GaussianState::squeezed(&p.iter().map(|x| (boost(x.0), turn(x.1))).collect())
}

fn thermal(n: &[f64]) -> GaussianState<Real> {
    GaussianState::thermal(&n.iter().map(|&x| Real(x)).collect())
}

fn tms(r: f64) -> GaussianState<Real> {
    let mut st = vacuum(2);
    st.two_mode_squeeze(0, 1, boost(r));
    st
}

fn variances(st: &GaussianState<Real>, k: usize) -> (f64, f64) {
    let (x, p) = st.quadrature_variances(k);
    (x.0, p.0)
}

fn frob_diff(a: &Matrix<Real>, b: &Matrix<Real>) -> f64 {
    let mut s = 0.0;
    for i in 0..a.rows {
        for j in 0..a.cols {
            s += (a.get(i, j).0 - b.get(i, j).0).powi(2);
        }
    }
    s.sqrt()
}

fn margin(cov: &Matrix<Real>) -> f64 {
    physicality_margin(cov, HALF, TOP, &solver()).0
}

fn physical(cov: &Matrix<Real>) -> bool {
    is_physical(cov, HALF, TOP, Real(TOL), &solver())
}

#[test]
fn vacuum_is_identity() {
    let st = vacuum(3);
    assert_eq!(frob_diff(&st.cov, &Matrix::identity(6)), 0.0);
    assert!(st.mean.iter().all(|&m| m.0 == 0.0));
    for k in 0..3 {
        assert_eq!(st.mean_photon(k).0, 0.0);
    }
}

#[test]
fn squeezed_vacuum_variances_and_photons() {
    for &r in &[0.1f64, 0.5, 1.3, 2.0] {
        let st = squeezed(&[(r, 0.0)]);
        let (vx, vp) = variances(&st, 0);
        assert!((vx - (-2.0 * r).exp()).abs() < TOL, "{r}: {vx}");
        assert!((vp - (2.0 * r).exp()).abs() < TOL, "{r}: {vp}");
        let n = st.mean_photon(0).0;
        assert!((n - r.sinh().powi(2)).abs() < TOL, "{r}: {n}");
    }
}

#[test]
fn all_ops_preserve_symplectic_form() {
    let mut rng = Rng::new(20260610);
    let om: Matrix<Real> = omega(3);
    for _ in 0..25 {
        let r = 3.0 * (rng.f64() - 0.5);
        let phi = std::f64::consts::TAU * rng.f64();
        let theta = std::f64::consts::TAU * rng.f64();
        let candidates = [
            embed_one_mode(3, rng.below(3), &squeezer(boost(r), turn(phi))),
            embed_one_mode(3, rng.below(3), &rotation(turn(phi))),
            embed_two_mode(3, 0, 2, &beamsplitter(turn(theta))),
            embed_two_mode(3, 2, 1, &beamsplitter(turn(theta))),
            embed_two_mode(3, 1, 2, &two_mode_squeezer(boost(r))),
            embed_two_mode(3, 2, 0, &two_mode_squeezer(boost(r))),
        ];
        for s in &candidates {
            let d = frob_diff(&s.matmul(&om).matmul(&s.transpose()), &om);
            assert!(d < TOL, "form moved by {d}");
        }
    }
}

#[test]
fn integer_maps_keep_the_form() {
    // Over wrapping integers 5 and 3 have inverses, so 3/5 and 4/5 lie on the
    // circle, and (3 + 1/3)/2 and (3 - 1/3)/2 on the hyperbola.
    let fifth = 0xcccc_cccc_cccc_cccdu64 as i64;
    let third = 0xaaaa_aaaa_aaaa_aaabu64 as i64;
    assert_eq!((fifth.wrapping_mul(5), third.wrapping_mul(3)), (1, 1));
    let t = Turn { sin: fifth.wrapping_mul(4), cos: fifth.wrapping_mul(3) };
    let b = Boost { sinh: (3 - third) / 2, cosh: (3 + third) / 2 };
    let om: Matrix<i64> = omega(3);
    let maps = [
        embed_one_mode(3, 1, &rotation(t)),
        embed_one_mode(3, 2, &squeezer(b, t)),
        embed_two_mode(3, 2, 0, &beamsplitter(t)),
        embed_two_mode(3, 0, 1, &two_mode_squeezer(b)),
    ];
    for s in &maps {
        assert_eq!(s.matmul(&om).matmul(&s.transpose()).data, om.data);
    }
}

#[test]
fn beamsplitter_on_coherent() {
    let alpha = (0.8f64, -0.3f64);
    let theta = 0.6f64;
    let mut st = coherent(&[alpha, (0.0, 0.0)]);
    st.beamsplit(0, 1, turn(theta));
    let (c, s) = (theta.cos(), theta.sin());
    let want =
        [2.0 * alpha.0 * c, 2.0 * alpha.1 * c, -2.0 * alpha.0 * s, -2.0 * alpha.1 * s];
    for (got, want) in st.mean.iter().zip(&want) {
        assert!((got.0 - want).abs() < TOL, "mean {} vs {want}", got.0);
    }
    assert!(frob_diff(&st.cov, &Matrix::identity(4)) < TOL);
}

#[test]
fn epr_correlations_of_tms() {
    for &r in &[0.3f64, 0.9, 1.7] {
        let st = tms(r);
        let c = |i: usize, j: usize| st.cov.get(i, j).0;
        let var_xminus = c(0, 0) + c(2, 2) - 2.0 * c(0, 2);
        let var_pplus = c(1, 1) + c(3, 3) + 2.0 * c(1, 3);
        let want = 2.0 * (-2.0 * r).exp();
        assert!((var_xminus - want).abs() < TOL, "{var_xminus}");
        assert!((var_pplus - want).abs() < TOL, "{var_pplus}");
        let nbar = r.sinh().powi(2);
        for k in 0..2 {
            let mut th: Matrix<Real> = Matrix::identity(2);
            th.put(0, 0, Real(2.0 * nbar + 1.0));
            th.put(1, 1, Real(2.0 * nbar + 1.0));
            assert!(frob_diff(&st.mode_cov(k), &th) < TOL);
            assert!((st.mean_photon(k).0 - nbar).abs() < TOL);
        }
    }
}

#[test]
fn homodyne_conditioning_closed_form() {
    let r = 0.8_f64;
    let c2 = (2.0 * r).cosh();
    let mut st = tms(r);
    let (marg_mean, marg_var) = st.homodyne_marginal(0, turn(0.0));
    assert!(marg_mean.0.abs() < TOL);
    assert!((marg_var.0 - c2).abs() < TOL);
    let m = 1.234;
    assert!(st.homodyne_project(0, None, Real(m)));
    assert_eq!(st.n_modes(), 1);
    let (vx, vp) = variances(&st, 0);
    assert!((vx - 1.0 / c2).abs() < TOL, "{vx} vs {}", 1.0 / c2);
    assert!((vp - c2).abs() < TOL, "{vp}");
    assert!(vx < marg_var.0, "conditional must beat marginal");
    let want_mean = (2.0 * r).tanh() * m;
    assert!((st.mean[0].0 - want_mean).abs() < TOL);
    assert!(st.mean[1].0.abs() < TOL);
}

#[test]
fn homodyne_sampling_matches_marginal() {
    let r = 0.8_f64;
    let c2 = (2.0 * r).cosh();
    let mut rng = Rng::new(424242);
    let shots = 50_000;
    let (mut sum, mut sumsq) = (0.0, 0.0);
    for _ in 0..shots {
        let mut st = tms(r);
        let out = st.homodyne(0, turn(0.0), false, Real(rng.normal()), &root).expect("positive");
        assert!((out.variance.0 - c2).abs() < TOL);
        sum += out.sample.0;
        sumsq += out.sample.0 * out.sample.0;
    }
    let n = shots as f64;
    let mean = sum / n;
    let var = sumsq / n - mean * mean;
    let sd = c2.sqrt();
    assert!(mean.abs() < 0.03 * sd, "empirical mean {mean}");
    assert!((var / c2 - 1.0).abs() < 0.03, "empirical var {var} vs {c2}");
}

#[test]
fn thermal_state_moments() {
    for &nbar in &[0.0, 0.4, 3.7] {
        let st = thermal(&[nbar]);
        let mut want: Matrix<Real> = Matrix::identity(2);
        want.put(0, 0, Real(2.0 * nbar + 1.0));
        want.put(1, 1, Real(2.0 * nbar + 1.0));
        assert_eq!(frob_diff(&st.cov, &want), 0.0);
        assert!((st.mean_photon(0).0 - nbar).abs() < TOL);
    }
}

#[test]
fn physicality_check() {
    let mixed = {
        let mut st = tms(1.0);
        st.beamsplit(0, 1, turn(0.3));
        st
    };
    let states = [
        vacuum(2),
        coherent(&[(1.1, -0.4), (0.0, 2.0)]),
        squeezed(&[(1.2, 0.7), (0.4, 0.0)]),
        thermal(&[0.3, 2.0]),
        mixed,
    ];
    for st in &states {
        assert!(margin(&st.cov) >= -TOL, "physical state has margin {}", margin(&st.cov));
        assert!(physical(&st.cov));
    }
    let mut bad: Matrix<Real> = Matrix::identity(2);
    bad.put(0, 0, Real(0.5));
    bad.put(1, 1, Real(0.5));
    assert!((margin(&bad) + 0.5).abs() < TOL, "margin {}", margin(&bad));
    assert!(!physical(&bad));
}

fn run(job: &GaussianJob<Real>) -> GaussianReport<Real> {
    told(job).0
}

/// A report, and what the run told of its progress.
fn told(job: &GaussianJob<Real>) -> (GaussianReport<Real>, Vec<GaussianTick>) {
    assert!(job.check());
    let rng = RefCell::new(Rng::new(job.seed));
    let detector = Detector {
        normal: |_: u64| Real(rng.borrow_mut().normal()),
        cell: |x: Real| x.0 as i64,
        root: root as fn(Real) -> Real,
        top: TOP,
    };
    let mut ticks = Vec::new();
    let r = GaussianExecutor.execute(job, &solver(), &detector, HALF, &mut ticks);
    (r, ticks)
}

#[test]
fn seeded_sampling_is_deterministic() {
    let run_state = |seed: u64| -> Vec<f64> {
        let mut rng = Rng::new(seed);
        (0..64)
            .map(|_| {
                let out = tms(0.6).homodyne(0, turn(0.4), true, Real(rng.normal()), &root);
                out.expect("positive").sample.0
            })
            .collect()
    };
    assert_eq!(run_state(9), run_state(9));
    assert_ne!(run_state(9), run_state(10));
    let job = GaussianJob {
        n_modes: 2,
        circuit: vec![GaussianOp::TwoModeSqueeze { mode_a: 0, mode_b: 1, boost: boost(0.6) }],
        homodyne: Some(HomodyneSpec { mode: 0, turn: turn(0.0), shots: 5000 }),
        seed: 9,
    };
    let a = run(&job).homodyne.expect("asked for");
    let b = run(&job).homodyne.expect("asked for");
    assert_eq!(a.sample_mean, b.sample_mean);
    assert_eq!(a.counts, b.counts);
}

#[test]
fn executor_end_to_end() {
    let job = GaussianJob {
        n_modes: 2,
        circuit: vec![
            GaussianOp::TwoModeSqueeze { mode_a: 0, mode_b: 1, boost: boost(0.5) },
            GaussianOp::Displace { mode: 0, re: Real(0.25), im: Real(0.0) },
        ],
        homodyne: Some(HomodyneSpec { mode: 0, turn: turn(0.0), shots: 10_000 }),
        seed: 7,
    };
    let (out, ticks) = told(&job);
    assert!(out.physicality_margin.0 >= -1e-12);
    let want_var = 1.0f64.cosh();
    let h = out.homodyne.expect("asked for");
    assert!((h.marginal_variance.0 - want_var).abs() < 1e-12);
    assert_eq!(out.adc_samples, 10_000);
    assert!(out.macs > 0);
    assert_eq!(out.macs, 2 * 64 + 16 + 2);
    assert_eq!(h.counts.len(), HIST_BINS);
    assert_eq!(h.counts.iter().sum::<u64>(), 10_000);
    assert!(h.sample_min <= h.sample_mean && h.sample_mean <= h.sample_max);
    assert_eq!(out.modes.len(), 2);
    assert!((out.modes[0].mean_x.0 - 0.5).abs() < 1e-12);
    // Three batches of shots after two elements; progress ends at the total.
    assert_eq!(shot_batches(10_000), 3);
    assert_eq!(
        ticks,
        [
            GaussianTick::Elements(1),
            GaussianTick::Elements(2),
            GaussianTick::Shots(SHOT_BATCH),
            GaussianTick::Shots(2 * SHOT_BATCH),
            GaussianTick::Shots(10_000),
        ]
    );
    let total = total_steps(2, 3);
    let fractions: Vec<f64> =
        ticks.iter().map(|t| t.steps_done(2) as f64 / total as f64).collect();
    assert!(fractions.windows(2).all(|w| w[0] <= w[1]));
    assert_eq!(fractions.last(), Some(&1.0));
}

#[test]
fn jobs_are_checked_before_they_run() {
    let job = |n_modes: usize, mode_b: usize, mode: usize| GaussianJob {
        n_modes,
        circuit: vec![GaussianOp::Beamsplitter { mode_a: 0, mode_b, turn: turn(0.3) }],
        homodyne: Some(HomodyneSpec { mode, turn: turn(0.0), shots: 1 }),
        seed: 0,
    };
    assert!(job(2, 1, 1).check());
    assert!(!job(2, 0, 1).check(), "one mode twice");
    assert!(!job(2, 2, 1).check(), "no such mode");
    assert!(!job(2, 1, 2).check(), "nothing to detect");
    assert!(!job(usize::MAX, 1, 1).check(), "too many modes");
    assert!(!job(1 << 31, 1, 1).check(), "too much work");
}

fn fidelity(a: &GaussianState<Real>, b: &GaussianState<Real>) -> f64 {
    fidelity_single_mode(a, b, HALF, exp, root).0
}

#[test]
fn self_fidelity_is_one() {
    let th = thermal(&[1.3]);
    assert!((fidelity(&th, &th) - 1.0).abs() < 1e-12);
    let sq = squeezed(&[(0.9, 0.7)]);
    assert!((fidelity(&sq, &sq) - 1.0).abs() < 1e-12);
}

#[test]
fn vacuum_vs_coherent() {
    let alpha = (0.6f64, -0.45f64);
    let want = (-(alpha.0 * alpha.0 + alpha.1 * alpha.1)).exp();
    assert!((fidelity(&vacuum(1), &coherent(&[alpha])) - want).abs() < 1e-12);
}

#[test]
fn vacuum_vs_squeezed() {
    let r = 1.1f64;
    let f = fidelity(&vacuum(1), &squeezed(&[(r, 0.0)]));
    assert!((f - 1.0 / r.cosh()).abs() < 1e-12);
}

#[test]
fn constructors() {
    let st = coherent(&[(0.7, -0.3)]);
    assert_eq!(st.mode_mean(0), (Real(1.4), Real(-0.6)));
    let (vx, vp) = variances(&squeezed(&[(0.5, 0.0)]), 0);
    assert!((vx - (-1.0f64).exp()).abs() < 1e-12);
    assert!((vp - 1.0f64.exp()).abs() < 1e-12);
    assert_eq!(variances(&thermal(&[2.5]), 0), (6.0, 6.0));
}

#[test]
fn embedding_nonadjacent() {
    let mut st = coherent(&[(1.0, 0.0), (0.0, 0.0), (0.0, 0.0)]);
    st.beamsplit(0, 2, turn(std::f64::consts::FRAC_PI_4));
    let c = std::f64::consts::FRAC_1_SQRT_2;
    assert!((st.mode_mean(0).0 .0 - 2.0 * c).abs() < 1e-12);
    assert!((st.mode_mean(2).0 .0 + 2.0 * c).abs() < 1e-12);
    assert!(st.mode_mean(1).0 .0.abs() < 1e-15);
}

#[test]
fn heterodyne_vacuum() {
    let (mean, c) = vacuum(1).heterodyne_marginal(0);
    assert_eq!(mean, (Real(0.0), Real(0.0)));
    assert_eq!(c, (Real(2.0), Real(0.0), Real(2.0)));
}

#[test]
fn rotated_marginal_on_squeezed() {
    let r = 0.8f64;
    let st = squeezed(&[(r, 0.0)]);
    for &phi in &[0.0f64, 0.3, std::f64::consts::FRAC_PI_2] {
        let (_, v) = st.homodyne_marginal(0, turn(phi));
        let want = (-2.0 * r).exp() * phi.cos().powi(2) + (2.0 * r).exp() * phi.sin().powi(2);
        assert!((v.0 - want).abs() < 1e-12, "{phi}: {} vs {want}", v.0);
    }
}

#[test]
fn projection_independent_modes() {
    let mut st = squeezed(&[(0.5, 0.0), (0.0, 0.0)]);
    assert!(st.homodyne_project(1, None, Real(1.7)));
    assert_eq!(st.n_modes(), 1);
    let (vx, vp) = variances(&st, 0);
    assert!((vx - (-1.0f64).exp()).abs() < 1e-12);
    assert!((vp - 1.0f64.exp()).abs() < 1e-12);
    assert!(st.mean[0].0.abs() < 1e-15 && st.mean[1].0.abs() < 1e-15);
}

#[test]
fn nothing_to_condition_on() {
    let mut st = vacuum(1);
    st.cov.put(0, 0, Real(0.0));
    assert!(!st.homodyne_project(0, None, Real(1.0)));
    assert_eq!(st.n_modes(), 1);
    assert!(st.homodyne(0, turn(0.0), false, Real(0.3), &root).is_none());
}

/// Orthonormal columns by Gram-Schmidt.
fn orthonormal(n: usize, rng: &mut Rng) -> Vec<Vec<f64>> {
    let mut q: Vec<Vec<f64>> = Vec::new();
    for _ in 0..n {
        let mut v: Vec<f64> = (0..n).map(|_| rng.normal()).collect();
        for _ in 0..2 {
            for u in &q {
                let d: f64 = u.iter().zip(&v).map(|(a, b)| a * b).sum();
                v.iter_mut().zip(u).for_each(|(x, y)| *x -= d * y);
            }
        }
        let norm = v.iter().map(|x| x * x).sum::<f64>().sqrt();
        q.push(v.iter().map(|x| x / norm).collect());
    }
    q
}

#[test]
fn jacobi_known_spectrum() {
    let mut rng = Rng::new(11);
    let n = 8;
    let q = orthonormal(n, &mut rng);
    let d: Vec<f64> = (0..n).map(|i| (i as f64) - 3.5).collect();
    let entry = |i: usize, j: usize| {
        Real((0..n).map(|k| q[k][i] * d[k] * q[k][j]).sum())
    };
    let a = Matrix::build(n, n, entry);
    let (eig, v) = jacobi_eigh(&a, &solver());
    let mut got: Vec<f64> = eig.iter().map(|e| e.0).collect();
    got.sort_by(|x, y| x.total_cmp(y));
    for (got, want) in got.iter().zip(&d) {
        assert!((got - want).abs() < 1e-10, "got {got}, want {want}");
    }
    let back = Matrix::build(n, n, |i: usize, j: usize| {
        Real((0..n).map(|k| v.get(i, k).0 * eig[k].0 * v.get(j, k).0).sum())
    });
    assert!(frob_diff(&back, &a) < 1e-10);
}

#[test]
fn sqrt_squares_back() {
    let data = [2.0, 0.5, 0.0, 0.5, 3.0, -0.2, 0.0, -0.2, 1.5];
    let a = Matrix { rows: 3, cols: 3, data: data.iter().map(|&x| Real(x)).collect() };
    let h = sym_sqrt(&a, &solver());
    let hh = h.matmul(&h);
    let mut err = 0.0f64;
    for i in 0..3 {
        for j in 0..3 {
            err = err.max((hh.get(i, j).0 - a.get(i, j).0).abs());
        }
    }
    assert!(err < 1e-12, "error {err}");
}

#[test]
fn closed_form_spectra() {
    let nu = symplectic_eigenvalues(&thermal(&[0.7, 1.9]).cov, HALF, &solver());
    assert!((nu[0].0 - 2.4).abs() < 1e-12 && (nu[1].0 - 4.8).abs() < 1e-12);
    let nu = symplectic_eigenvalues(&squeezed(&[(1.3, 0.4)]).cov, HALF, &solver());
    assert!((nu[0].0 - 1.0).abs() < 1e-12, "pure squeezed {}", nu[0].0);
}

#[test]
fn rotation_moves_one_mode() {
    let mut st = coherent(&[(1.0, 0.0), (0.25, 0.5)]);
    st.rotate(0, turn(std::f64::consts::FRAC_PI_2));
    assert!(st.mode_mean(0).0 .0.abs() < TOL);
    assert!((st.mode_mean(0).1 .0 + 2.0).abs() < TOL);
    assert_eq!(st.mode_mean(1), (Real(0.5), Real(1.0)));
}
