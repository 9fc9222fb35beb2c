//! Optical components, networks, meshes and products.

use std::cell::RefCell;
use tei_fabric::complex::Cx;
use tei_fabric::matrix::Matrix;
use tei_fabric::photonic::clements::{ClementsMesh, MeshError, Null, Wave};
use tei_fabric::photonic::components::{
    add_drop_transfer, all_pass_transfer, coupler_50_50, directional_coupler, mzi_transfer,
    phase_shifter, single_port_phase, AllPassRing, Optics, Waveguide,
};
use tei_fabric::photonic::haar::haar_unitary;
use tei_fabric::photonic::mvm::{
    default_queries, query_report_due, OpticalMvm, PhotonicExecutor, PhotonicLedger,
};
use tei_fabric::photonic::network::{cascade_2port, CMat, Solver, Sparams};
use tei_fabric::photonic::nulling::Angles;
use tei_fabric::photonic::run::{Bench, PhotonicReport, PhotonicTick};
use tei_fabric::scalar::Scalar;

/// Double-precision samples.
#[derive(Debug, Clone, Copy, PartialEq, PartialOrd)]
struct Real(f64);

impl Scalar for Real {
    fn zero_value() -> Self {
        Real(0.0)
    }

    fn sum(self, rhs: Self) -> Self {
        Real(self.0 + rhs.0)
    }

    fn difference(self, rhs: Self) -> Self {
        Real(self.0 - rhs.0)
    }

    fn product(self, rhs: Self) -> Self {
        Real(self.0 * rhs.0)
    }

    fn at_least(self, threshold: Self) -> bool {
        self.0 >= threshold.0
    }

    fn less_than(self, rhs: Self) -> bool {
        self.0 < rhs.0
    }

    fn quotient(self, rhs: Self) -> Self {
        Real(self.0 / rhs.0)
    }

    fn negative(self) -> Self {
        Real(-self.0)
    }

    fn rank(self) -> u64 {
        let bits = self.0.to_bits();
        if bits >> 63 == 1 {
            !bits
        } else {
            bits | 1 << 63
        }
    }

    fn of_count(n: u64) -> Self {
        Real(n as f64)
    }

    fn zero() -> Self {
        Real(0.0)
    }

    fn plus(self, rhs: Self) -> Self {
        Real(self.0 + rhs.0)
    }

    fn minus(self, rhs: Self) -> Self {
        Real(self.0 - rhs.0)
    }

    fn times(self, rhs: Self) -> Self {
        Real(self.0 * rhs.0)
    }

    fn reaches(self, threshold: Self) -> bool {
        self.0 >= threshold.0
    }

    fn below(self, rhs: Self) -> bool {
        self.0 < rhs.0
    }

    fn over(self, rhs: Self) -> Self {
        Real(self.0 / rhs.0)
    }

    fn opposite(self) -> Self {
        Real(-self.0)
    }

    fn precedes(self, rhs: Self) -> bool {
        self.0.total_cmp(&rhs.0) == std::cmp::Ordering::Less
    }

    fn from_count(n: u64) -> Self {
        Real(n as f64)
    }
}

/// xoshiro256++ seeded by splitmix64.
struct Rng {
    s: [u64; 4],
    spare: Option<f64>,
}

impl Rng {
    fn new(seed: u64) -> Self {
        let mut x = seed;
        let mut s = [0u64; 4];
        for word in s.iter_mut() {
            x = x.wrapping_add(0x9E37_79B9_7F4A_7C15);
            let mut z = x;
            z = (z ^ (z >> 30)).wrapping_mul(0xBF58_476D_1CE4_E5B9);
            z = (z ^ (z >> 27)).wrapping_mul(0x94D0_49BB_1331_11EB);
            *word = z ^ (z >> 31);
        }
        Rng { s, spare: None }
    }

    fn next_u64(&mut self) -> u64 {
        let s = &mut self.s;
        let r = s[0].wrapping_add(s[3]).rotate_left(23).wrapping_add(s[0]);
        let t = s[1] << 17;
        s[2] ^= s[0];
        s[3] ^= s[1];
        s[1] ^= s[2];
        s[0] ^= s[3];
        s[2] ^= t;
        s[3] = s[3].rotate_left(45);
        r
    }

    fn f64(&mut self) -> f64 {
        (self.next_u64() >> 11) as f64 / (1u64 << 53) as f64
    }



    fn normal(&mut self) -> f64 {
        if let Some(z) = self.spare.take() {
            return z;
        }
        let u = 1.0 - self.f64();
        let v = self.f64();
        let r = (-2.0 * u.ln()).sqrt();
        let (sin, cos) = (std::f64::consts::TAU * v).sin_cos();
        self.spare = Some(r * sin);
        r * cos
    }
}

const TAU: f64 = std::f64::consts::TAU;
const PI: f64 = std::f64::consts::PI;

type Z = Cx<Real>;

fn z(re: f64, im: f64) -> Z {
    Cx { re: Real(re), im: Real(im) }
}

fn phasor(a: f64) -> Z {
    z(a.cos(), a.sin())
}

fn size(x: Z) -> Real {
    Real(x.re.0.hypot(x.im.0))
}

fn divide(a: Z, b: Z) -> Z {
    let d = b.norm_sq().0;
    let n = a.times(b.conj());
    z(n.re.0 / d, n.im.0 / d)
}

fn root(x: Real) -> Real {
    Real(x.0.sqrt())
}

fn sin(x: Real) -> Real {
    Real(x.0.sin())
}

fn cos(x: Real) -> Real {
    Real(x.0.cos())
}

fn arg(x: Z) -> Real {
    Real(x.im.0.atan2(x.re.0))
}

type Functions =
    Angles<fn(Z) -> Real, fn(Real, Real) -> Real, fn(Z) -> Real, fn(Real) -> Real, fn(Real) -> Real>;

fn angles() -> Functions {
    fn atan2(y: Real, x: Real) -> Real {
        Real(y.0.atan2(x.0))
    }
    Angles { size, atan2, arg, sin, cos }
}

fn null_right(um: Z, un: Z) -> Null<Real> {
    angles().null_right(um, un)
}

fn null_left(um: Z, un: Z) -> Null<Real> {
    angles().null_left(um, un)
}

fn near_unitary(d: Real) -> bool {
    !(d.0.sqrt() > 1e-8)
}

type Optic = Optics<Real, fn(Real) -> Real, fn(Real) -> Real, fn(Real) -> Real>;

fn optics() -> Optic {
    fn ten_to(x: Real) -> Real {
        Real(10f64.powf(x.0))
    }
    Optics { ten_to, sin, cos, full_turn: Real(TAU), cm_per_um: Real(1e-4) }
}

type Solve = Solver<Real, fn(Z) -> Real, fn(Z, Z) -> Z>;

fn how() -> Solve {
    Solver { size, divide, tiny: Real(1e-13) }
}

fn distance(a: &CMat<Real>, b: &CMat<Real>) -> f64 {
    assert!(a.rows == b.rows && a.cols == b.cols);
    a.data.iter().zip(&b.data).map(|(x, y)| size(x.minus(*y)).0.powi(2)).sum::<f64>().sqrt()
}

fn max_diff(a: &CMat<Real>, b: &CMat<Real>) -> f64 {
    assert!(a.rows == b.rows && a.cols == b.cols);
    a.data.iter().zip(&b.data).map(|(x, y)| size(x.minus(*y)).0).fold(0.0, f64::max)
}

fn unitarity_err(s: &CMat<Real>) -> f64 {
    let d = Matrix::build(s.cols, s.rows, |i: usize, j: usize| s.get(j, i).conj());
    distance(&d.matmul(s), &Matrix::identity(s.rows))
}

fn guide(length_um: f64, n_eff: f64, loss: f64) -> Waveguide<Real> {
    Waveguide { length_um: Real(length_um), n_eff: Real(n_eff), loss_db_per_cm: Real(loss) }
}

fn mzi(theta: f64, phi: f64) -> CMat<Real> {
    mzi_transfer(&coupler_50_50(&root), phasor(theta), phasor(phi))
}

fn all_pass(t: f64, a: f64, theta: f64) -> Z {
    all_pass_transfer(Real(t), phasor(theta).scale(Real(a)), &divide)
}

fn haar(n: usize, rng: &mut Rng) -> CMat<Real> {
    let draws: Vec<Z> = (0..n * n)
        .map(|_| {
            let re = rng.normal();
            z(re, rng.normal())
        })
        .collect();
    let inverse = |x: Real| {
        let norm = x.0.sqrt();
        if norm > 1e-150 {
            Some(Real(1.0 / norm))
        } else {
            None
        }
    };
    haar_unitary(n, &draws, Real(std::f64::consts::FRAC_1_SQRT_2), inverse).expect("not degenerate")
}

fn embed(u: &CMat<Real>) -> Result<ClementsMesh<Real>, MeshError<Real>> {
    ClementsMesh::decompose(u, &near_unitary, &null_right, &null_left, &arg, Real(PI))
}

fn lit(mesh: ClementsMesh<Real>) -> OpticalMvm<Real> {
    OpticalMvm::from_mesh(mesh, &sin, &cos)
}

fn rebuilt(m: &OpticalMvm<Real>) -> CMat<Real> {
    m.mesh.unitary(&m.waves, &m.screen)
}

fn times(u: &CMat<Real>, x: &[Z]) -> Vec<Z> {
    (0..u.rows)
        .map(|i| {
            (0..u.cols).fold(z(0.0, 0.0), |acc, j| acc.plus(u.get(i, j).times(x[j])))
        })
        .collect()
}

#[test]
fn a_lossless_components_unitary() {
    let wg = guide(137.0, 2.4, 0.0);
    for k in 0..50 {
        let lambda = 1.50 + 0.002 * k as f64;
        assert!(unitarity_err(&wg.s_matrix(Real(lambda), &optics())) < 1e-12);
    }
    for k in 0..=20 {
        assert!(unitarity_err(&directional_coupler(Real(k as f64 / 20.0), &root)) < 1e-12);
    }
    for i in 0..24 {
        let theta = TAU * i as f64 / 24.0;
        assert!(unitarity_err(&phase_shifter(phasor(theta))) < 1e-12);
        for j in 0..8 {
            assert!(unitarity_err(&mzi(theta, TAU * j as f64 / 8.0)) < 1e-12);
        }
    }
    for i in 0..200 {
        let theta = TAU * i as f64 / 100.0;
        let h = size(all_pass(0.9, 1.0, theta)).0;
        assert!((h - 1.0).abs() < 1e-12, "magnitude {h} at {theta}");
    }
    for i in 0..200 {
        let theta = TAU * i as f64 / 100.0;
        let (t, d) = add_drop_transfer(
            Real(0.95),
            Real(0.9),
            phasor(theta),
            phasor(theta / 2.0),
            &root,
            &divide,
        );
        assert!((t.norm_sq().0 + d.norm_sq().0 - 1.0).abs() < 1e-12);
    }
}

#[test]
fn b_mzi_transfer_closed_form() {
    for i in 0..=96 {
        let theta = TAU * i as f64 / 96.0;
        for j in 0..6 {
            let m = mzi(theta, TAU * j as f64 / 6.0);
            let bar = m.get(0, 0).norm_sq().0;
            let cross = m.get(1, 0).norm_sq().0;
            let s2 = (theta / 2.0).sin().powi(2);
            assert!((bar - s2).abs() < 1e-12, "{theta}: bar {bar} vs {s2}");
            assert!((cross - (1.0 - s2)).abs() < 1e-12);
        }
    }
    let m0 = mzi(0.0, 0.0);
    assert!(m0.get(0, 0).norm_sq().0 < 1e-12, "zero must be full cross");
    assert!((m0.get(1, 0).norm_sq().0 - 1.0).abs() < 1e-12);
    let mpi = mzi(PI, 0.0);
    assert!((mpi.get(0, 0).norm_sq().0 - 1.0).abs() < 1e-12, "half a turn must be full bar");
    assert!(mpi.get(1, 0).norm_sq().0 < 1e-12);
}

#[test]
fn c_ring_resonance_fsr_critical_coupling() {
    let (t, a) = (0.9, 0.9);
    for m in 0..5 {
        let p = all_pass(t, a, TAU * m as f64).norm_sq().0;
        assert!(p < 1e-20, "critical-coupling resonance power {p}");
    }
    let h_anti = all_pass(t, a, PI);
    let expect = ((t + a) / (1.0 + t * a)).powi(2);
    assert!((h_anti.norm_sq().0 - expect).abs() < 1e-12);
    let ring = AllPassRing {
        circumference_um: Real(TAU * 10.0),
        n_eff: Real(2.4),
        t: Real(0.9),
        loss_db_per_cm: Real(0.0),
    };
    let a = ring.t.0;
    let opl = ring.n_eff.0 * ring.circumference_um.0;
    let phase = |lambda: f64| ring.round_trip_phase(Real(TAU), Real(lambda)).0;
    let m_res = (opl / 1.55).round();
    let lambda_res = opl / m_res;
    let h_res = all_pass(ring.t.0, a, phase(lambda_res)).norm_sq().0;
    assert!(h_res < 1e-4, "extinction {} dB", 10.0 * h_res.log10());
    let (lo, hi, npts) = (1.50, 1.60, 20_001usize);
    let step = (hi - lo) / (npts - 1) as f64;
    let power: Vec<f64> = (0..npts)
        .map(|i| all_pass(ring.t.0, a, phase(lo + step * i as f64)).norm_sq().0)
        .collect();
    let mut dips = Vec::new();
    for i in 1..npts - 1 {
        if power[i] < power[i - 1] && power[i] <= power[i + 1] && power[i] < 0.2 {
            dips.push(lo + step * i as f64);
        }
    }
    assert!(dips.len() >= 4, "expected several dips, found {}", dips.len());
    for w in dips.windows(2) {
        let measured_fsr = w[1] - w[0];
        let lambda_mid = (w[0] * w[1]).sqrt();
        let analytic_fsr = lambda_mid * lambda_mid / opl;
        assert!(
            (measured_fsr - analytic_fsr).abs() < 3.0 * step,
            "{measured_fsr} vs analytic {analytic_fsr} (step {step})"
        );
        assert!((ring.fsr_um(Real(lambda_mid)).0 - analytic_fsr).abs() < 1e-15);
    }
    // Without loss the ring passes all the light.
    assert_eq!(ring.round_trip_amplitude(&optics()).0, 1.0);
    assert!((size(ring.transfer(Real(1.55), &optics(), &divide)).0 - 1.0).abs() < 1e-12);
}

#[test]
fn d_redheffer_identity_cascade_associativity() {
    let wg = guide(73.0, 2.21, 2.5);
    let s = Sparams::from_full(&wg.s_matrix(Real(1.55), &optics()), 1);
    let thru: Sparams<Real> = Sparams::through(1);
    let star = |a: &Sparams<Real>, b: &Sparams<Real>| a.star(b, &how()).expect("no resonance");
    assert!(max_diff(&star(&s, &thru).full(), &s.full()) < 1e-14);
    assert!(max_diff(&star(&thru, &s).full(), &s.full()) < 1e-14);
    let (wg1, wg2) = (guide(11.0, 2.4, 0.0), guide(29.0, 2.4, 0.0));
    let lambda = 1.55;
    let total = cascade_2port(
        &wg1.s_matrix(Real(lambda), &optics()),
        &wg2.s_matrix(Real(lambda), &optics()),
        &how(),
    )
    .expect("no resonance");
    let phase_sum = TAU * 2.4 / lambda * (11.0 + 29.0);
    assert!(size(total.get(1, 0).minus(phasor(phase_sum))).0 < 1e-12, "cascaded phase");
    assert!(size(total.get(0, 0)).0 < 1e-14, "matched cascade stays matched");
    let mut rng = Rng::new(404);
    for trial in 0..10 {
        let mut passive = || {
            let mut u = haar(4, &mut rng);
            for v in u.data.iter_mut() {
                *v = v.scale(Real(0.93));
            }
            Sparams::from_full(&u, 2)
        };
        let (a, b, c) = (passive(), passive(), passive());
        let left = star(&star(&a, &b), &c).full();
        let right = star(&a, &star(&b, &c)).full();
        let d = max_diff(&left, &right);
        assert!(d < 1e-12, "associativity trial {trial}: {d}");
    }
}

#[test]
fn e_clements_round_trip() {
    for &n in &[2usize, 4, 8] {
        for seed in 1..=3u64 {
            let u = haar(n, &mut Rng::new(seed));
            let mesh = embed(&u).expect("haar input is unitary");
            assert_eq!(mesh.n_mzis(), n * (n - 1) / 2, "MZI count");
            let err = max_diff(&rebuilt(&lit(mesh)), &u);
            assert!(err < 1e-10, "{n} modes, seed {seed}: {err}");
        }
    }
}

#[test]
fn e2_rectangular_mesh_unitary() {
    let n = 6;
    let mut rng = Rng::new(7);
    let settings: Vec<(Real, Real)> = (0..n * (n - 1) / 2)
        .map(|_| {
            let theta = rng.f64() * PI / 2.0;
            (Real(theta), Real(rng.f64() * TAU))
        })
        .collect();
    let phases: Vec<Real> = (0..n).map(|_| Real(rng.f64() * TAU)).collect();
    let m = lit(ClementsMesh::rectangular(n, &settings, phases));
    let u = rebuilt(&m);
    assert!(unitarity_err(&u) < 1e-12);
    let x: Vec<Z> = (0..n)
        .map(|_| {
            let re = rng.normal();
            z(re, rng.normal())
        })
        .collect();
    let applied = m.mesh.apply(&x, &m.waves, &m.screen);
    for (a, b) in applied.iter().zip(&times(&u, &x)) {
        assert!(size(a.minus(*b)).0 < 1e-12);
    }
}

#[test]
fn integer_mesh_is_unitary() {
    // Over wrapping integers 5 and 13 have inverses: 3/5 and 4/5, and 5/13 and
    // 12/13, lie on the circle.
    let fifth = 0xcccc_cccc_cccc_cccdu64 as i64;
    let thirteenth = 0x4ec4_ec4e_c4ec_4ec5i64;
    assert_eq!((fifth.wrapping_mul(5), thirteenth.wrapping_mul(13)), (1, 1));
    let on_circle = |k: usize| {
        if k % 2 == 0 {
            (fifth.wrapping_mul(3), fifth.wrapping_mul(4))
        } else {
            (thirteenth.wrapping_mul(5), thirteenth.wrapping_mul(-12))
        }
    };
    let n = 4;
    let settings = vec![(0i64, 0i64); n * (n - 1) / 2];
    let mesh = ClementsMesh::rectangular(n, &settings, vec![0i64; n]);
    let phase = |k: usize| Cx { re: on_circle(k).0, im: on_circle(k).1 };
    let waves: Vec<Wave<i64>> = (0..settings.len())
        .map(|k| Wave { sin: on_circle(k / 2).1, cos: on_circle(k / 2).0, phasor: phase(k) })
        .collect();
    let screen: Vec<Cx<i64>> = (0..n).map(phase).collect();
    let u = mesh.unitary(&waves, &screen);
    for p in 0..n {
        for q in 0..n {
            let inner = (0..n).fold(Cx { re: 0i64, im: 0 }, |acc, r| {
                acc.plus(u.get(r, p).conj().times(u.get(r, q)))
            });
            assert_eq!((inner.re, inner.im), (i64::from(p == q), 0));
        }
    }
    let x: Vec<Cx<i64>> = (0..n as i64).map(|k| Cx { re: k + 1, im: 7 - 3 * k }).collect();
    let through = mesh.apply(&x, &waves, &screen);
    for i in 0..n {
        let sum = (0..n).fold(Cx { re: 0i64, im: 0 }, |acc, j| acc.plus(u.get(i, j).times(x[j])));
        assert_eq!((through[i].re, through[i].im), (sum.re, sum.im));
    }
}

#[test]
fn f_mvm_correctness_and_ledger() {
    let n = 8;
    let u = haar(n, &mut Rng::new(11));
    let mvm = lit(embed(&u).expect("unitary"));
    let mut ledger = PhotonicLedger::new();
    mvm.program(&mut ledger);
    assert_eq!(ledger.modulator_events, (n * n) as u64);
    let mut rng = Rng::new(12);
    let n_queries = 5u64;
    for _ in 0..n_queries {
        let x: Vec<Z> = (0..n)
            .map(|_| {
                let re = rng.normal();
                z(re, rng.normal())
            })
            .collect();
        let detected = mvm.forward(&x, &mut ledger);
        for (i, acc) in times(&u, &x).iter().enumerate() {
            let d = (detected[i].0 - acc.norm_sq().0).abs();
            assert!(d < 1e-10, "output {i} off by {d}");
        }
    }
    assert_eq!(ledger.macs, n_queries * (n * n) as u64);
    assert_eq!(ledger.adc_samples, n_queries * n as u64);
}

type Unary = fn(Real) -> Real;

type Elimination = fn(Z, Z) -> Null<Real>;

type Table = Bench<
    Real,
    fn(Real) -> bool,
    Elimination,
    Elimination,
    fn(Z) -> Real,
    Unary,
    Unary,
    Unary,
    fn(Z) -> Real,
>;

fn bench() -> Table {
    Bench {
        unitary: near_unitary,
        right: null_right,
        left: null_left,
        arg,
        sin,
        cos,
        root,
        magnitude: size,
        pi: Real(PI),
    }
}

fn execute(u: &CMat<Real>, queries: usize, seed: u64) -> Result<PhotonicReport<Real>, MeshError<Real>> {
    let bench = bench();
    let rng = RefCell::new(Rng::new(seed));
    let inputs = |_: usize, _: usize| {
        let mut rng = rng.borrow_mut();
        let re = rng.normal();
        z(re, rng.normal())
    };
    let mut ticks = Vec::new();
    let r = PhotonicExecutor.execute(u, queries, &inputs, &bench, &mut ticks);
    match &r {
        Ok(out) => {
            let worst = out.reconstruction_max_error;
            assert_eq!(ticks[0], PhotonicTick::Decomposed { n_mzis: out.n_mzis, worst });
            let due: Vec<usize> = (1..=queries).filter(|&q| query_report_due(q, queries)).collect();
            assert_eq!(ticks.len(), 1 + due.len());
            for (t, &done) in ticks[1..].iter().zip(&due) {
                assert_eq!(*t, PhotonicTick::Queries { done, error_sum: out.error_sums[done - 1] });
            }
        }
        Err(_) => assert!(ticks.is_empty(), "a refused target reports nothing"),
    }
    r
}

#[test]
fn g_determinism() {
    let u1 = haar(8, &mut Rng::new(2026));
    let u2 = haar(8, &mut Rng::new(2026));
    for (a, b) in u1.data.iter().zip(&u2.data) {
        assert_eq!(a.re.0.to_bits(), b.re.0.to_bits());
        assert_eq!(a.im.0.to_bits(), b.im.0.to_bits());
    }
    let u = haar(8, &mut Rng::new(42));
    let run = || match execute(&u, 16, 7) {
        Ok(r) => r,
        Err(_) => panic!("unitary target"),
    };
    let (r1, r2) = (run(), run());
    assert_eq!(r1.reconstruction_max_error, r2.reconstruction_max_error);
    assert_eq!(r1.reconstruction_frobenius_error, r2.reconstruction_frobenius_error);
    assert_eq!(r1.mvm_rms_error, r2.mvm_rms_error);
    assert_eq!(r1.ledger.macs, r2.ledger.macs);
    assert_eq!(r1.ledger.adc_samples, r2.ledger.adc_samples);
    assert_eq!(r1.ledger.modulator_events, r2.ledger.modulator_events);
    assert!(r1.reconstruction_max_error.0 < 1e-10);
    assert!(r1.mvm_rms_error.0 < 1e-10);
    assert_eq!(r1.error_sums.len(), 16);
    assert!(r1.error_sums.windows(2).all(|w| w[0].0 <= w[1].0));
    let last = r1.error_sums[15].0 / (16 * 8) as f64;
    assert_eq!(r1.mvm_rms_error.0, last.sqrt());
    assert_eq!(r1.ledger.macs, 16 * 64);
    assert_eq!(r1.ledger.adc_samples, 16 * 8);
    assert_eq!(r1.ledger.modulator_events, 64);
    assert_eq!((r1.n, r1.n_mzis, r1.n_phases, r1.n_queries), (8, 28, 64, 16));
}

#[test]
fn unfit_targets_are_refused() {
    let wide: CMat<Real> = Matrix::zeros(2, 3);
    assert!(matches!(embed(&wide), Err(MeshError::NotSquare)));
    let mut off: CMat<Real> = Matrix::identity(2);
    off.put(0, 0, z(2.0, 0.0));
    match embed(&off) {
        Err(MeshError::NotUnitary(d)) => assert_eq!(d, Real(9.0)),
        _ => panic!("not unitary"),
    }
    assert!(execute(&off, 1, 1).is_err());
    assert!(OpticalMvm::from_unitary(&off, &bench()).is_err());
    let u = haar(5, &mut Rng::new(4));
    match OpticalMvm::from_unitary(&u, &bench()) {
        Ok(mvm) => assert!(max_diff(&rebuilt(&mvm), &u) < 1e-10),
        Err(_) => panic!("unitary target"),
    }
    let one: CMat<Real> = Matrix { rows: 1, cols: 1, data: vec![phasor(0.4)] };
    let mesh = embed(&one).expect("unitary");
    assert_eq!(mesh.n_mzis(), 0);
    assert!((mesh.output_phases[0].0 - 0.4).abs() < 1e-15);
}

#[test]
fn targets_by_rows() {
    let half = vec![vec![Real(0.0), Real(1.0)], vec![Real(1.0), Real(0.0)]];
    let nil = vec![vec![Real(0.0), Real(0.0)], vec![Real(0.0), Real(0.0)]];
    let u = match PhotonicExecutor::build_target(2, &half, &nil) {
        Ok(u) => u,
        Err(e) => panic!("{}", e.message()),
    };
    assert_eq!(u.get(0, 1).re, Real(1.0));
    match PhotonicExecutor::build_target(3, &half, &nil) {
        Err(e) => assert_eq!(e.message(), "unitary row count must equal n"),
        Ok(_) => panic!("three rows asked for"),
    }
    let ragged = vec![vec![Real(0.0)], vec![Real(1.0), Real(0.0)]];
    match PhotonicExecutor::build_target(2, &half, &ragged) {
        Err(e) => assert_eq!(e.message(), "unitary column count must equal n"),
        Ok(_) => panic!("ragged"),
    }
    assert_eq!(default_queries(), 16);
    assert!(query_report_due(5, 100) && !query_report_due(6, 100) && query_report_due(100, 100));
}

#[test]
fn half_coupler_and_port_phase() {
    let half: CMat<Real> = coupler_50_50(&root);
    assert_eq!(max_diff(&half, &directional_coupler(Real(0.5), &root)), 0.0);
    assert!((half.get(0, 0).re.0 - 0.5f64.sqrt()).abs() < 1e-15);
    assert!((half.get(1, 0).im.0 - 0.5f64.sqrt()).abs() < 1e-15);
    let p = single_port_phase(Real(0.3), &optics());
    assert_eq!((p.re.0, p.im.0), (0.3f64.cos(), 0.3f64.sin()));
}

#[test]
fn cascade_sums_reflections() {
    let half: CMat<Real> = Matrix { rows: 2, cols: 2, data: vec![z(0.5, 0.0); 4] };
    let total = cascade_2port(&half, &half, &how()).expect("no resonance");
    // 0.5 + 0.5 . 0.25/(1 - 0.25) across the interface and back, 0.25/0.75 through.
    assert!((total.get(0, 0).re.0 - 2.0 / 3.0).abs() < 1e-15);
    assert!((total.get(1, 0).re.0 - 1.0 / 3.0).abs() < 1e-15);
    assert!((total.get(0, 1).re.0 - 1.0 / 3.0).abs() < 1e-15);
    assert!((total.get(1, 1).re.0 - 2.0 / 3.0).abs() < 1e-15);
    // Two modes at the interface: the loops are systems of two equations.
    let mut u = haar(4, &mut Rng::new(12));
    for v in u.data.iter_mut() {
        *v = v.scale(Real(0.8));
    }
    let a = Sparams::from_full(&u, 2);
    let both = a.star(&a, &how()).expect("no resonance");
    // q = b11.p + b12.v with p = a21.u + a22.q, for u = 0 and v on the first port.
    let v = [z(1.0, 0.0), z(0.0, 0.0)];
    let mut q = vec![z(0.0, 0.0); 2];
    for _ in 0..400 {
        let p = times(&a.s22, &q);
        q = times(&a.s11, &p).iter().zip(times(&a.s12, &v)).map(|(x, y)| x.plus(y)).collect();
    }
    let out = times(&a.s12, &q);
    for i in 0..2 {
        assert!(size(both.s12.get(i, 0).minus(out[i])).0 < 1e-12);
    }
}

#[test]
fn angles_null_neighbours() {
    let (a, b) = (z(0.0, 3.0), z(4.0, 0.0));
    let (theta, phi, w) = null_right(a, b);
    assert!((theta.0 - 3f64.atan2(4.0)).abs() < 1e-15);
    assert!((phi.0 - PI / 2.0).abs() < 1e-15);
    let left = w.phasor.times(a).scale(w.cos).minus(b.scale(w.sin));
    assert!(size(left).0 < 1e-14, "the left neighbour is nulled");
    let b = z(0.0, -4.0);
    let (theta, phi, w) = null_left(a, b);
    assert!((theta.0 - 4f64.atan2(3.0)).abs() < 1e-15);
    assert!(phi.0.abs() < 1e-15);
    let lower = w.phasor.times(a).scale(w.sin).plus(b.scale(w.cos));
    assert!(size(lower).0 < 1e-14, "the lower neighbour is nulled");
}

#[test]
fn through_meets_any_network() {
    let thru: Sparams<Real> = Sparams::through(1);
    let mirror = Sparams::from_full(
        &Matrix { rows: 2, cols: 2, data: vec![z(1.0, 0.0), z(0.0, 0.0), z(0.0, 0.0), z(1.0, 0.0)] },
        1,
    );
    let before = thru.star(&mirror, &how()).expect("no resonance");
    let behind = mirror.star(&thru, &how()).expect("no resonance");
    assert_eq!(max_diff(&before.full(), &mirror.full()), 0.0);
    assert_eq!(max_diff(&behind.full(), &mirror.full()), 0.0);
}

#[test]
fn resonance_has_no_cascade() {
    let mirror: CMat<Real> =
        Matrix { rows: 2, cols: 2, data: vec![z(1.0, 0.0), z(0.0, 0.0), z(0.0, 0.0), z(1.0, 0.0)] };
    assert!(cascade_2port(&mirror, &mirror, &how()).is_none());
    let s = Sparams::from_transmission(&mzi(0.7, 0.2));
    assert_eq!((s.n_left, s.n_right), (2, 2));
    let mut u = haar(4, &mut Rng::new(5));
    u.put(0, 0, z(0.25, -0.5));
    assert_eq!(max_diff(&Sparams::from_full(&u, 1).full(), &u), 0.0);
}

#[test]
fn degenerate_draws_have_no_unitary() {
    let zeros = vec![z(0.0, 0.0); 4];
    let inverse = |x: Real| if x.0 > 0.0 { Some(Real(1.0 / x.0.sqrt())) } else { None };
    assert!(haar_unitary(2, &zeros, Real(1.0), inverse).is_none());
    assert!(unitarity_err(&haar(5, &mut Rng::new(3))) < 1e-14);
}
