//! Neurons, plasticity, networks and spiking jobs.

use std::cell::RefCell;
use tei_fabric::scalar::Scalar;
use tei_fabric::spiking::job::{ConnSpec, LayerSpec, SpikingJob, SpikingOutcome};
use tei_fabric::spiking::lif::{
    measured_rate, membrane_trace, poisson, simulate_single, Lif, NeuronParams, Tuning,
};
use tei_fabric::spiking::network::{NetworkBuilder, PopulationSpec, Unit};
use tei_fabric::spiking::report::{SpikingExecutor, RASTER_CAP};
use tei_fabric::spiking::run::reports;
use tei_fabric::spiking::stats::RunResult;
use tei_fabric::spiking::stdp::{StdpConfig, StdpState};

/// Double-precision samples.
#[derive(Debug, Clone, Copy, PartialEq, PartialOrd)]
struct Real(f64);

impl Scalar for Real {
    fn zero_value() -> Self {
        Real(0.0)
    }

    fn sum(self, rhs: Self) -> Self {
        Real(self.0 + rhs.0)
    }

    fn difference(self, rhs: Self) -> Self {
        Real(self.0 - rhs.0)
    }

    fn product(self, rhs: Self) -> Self {
        Real(self.0 * rhs.0)
    }

    fn at_least(self, threshold: Self) -> bool {
        self.0 >= threshold.0
    }

    fn less_than(self, rhs: Self) -> bool {
        self.0 < rhs.0
    }

    fn quotient(self, rhs: Self) -> Self {
        Real(self.0 / rhs.0)
    }

    fn negative(self) -> Self {
        Real(-self.0)
    }

    fn rank(self) -> u64 {
        let bits = self.0.to_bits();
        if bits >> 63 == 1 {
            !bits
        } else {
            bits | 1 << 63
        }
    }

    fn of_count(n: u64) -> Self {
        Real(n as f64)
    }

    fn zero() -> Self {
        Real(0.0)
    }

    fn plus(self, rhs: Self) -> Self {
        Real(self.0 + rhs.0)
    }

    fn minus(self, rhs: Self) -> Self {
        Real(self.0 - rhs.0)
    }

    fn times(self, rhs: Self) -> Self {
        Real(self.0 * rhs.0)
    }

    fn reaches(self, threshold: Self) -> bool {
        self.0 >= threshold.0
    }

    fn below(self, rhs: Self) -> bool {
        self.0 < rhs.0
    }

    fn over(self, rhs: Self) -> Self {
        Real(self.0 / rhs.0)
    }

    fn opposite(self) -> Self {
        Real(-self.0)
    }

    fn precedes(self, rhs: Self) -> bool {
        self.0.total_cmp(&rhs.0) == std::cmp::Ordering::Less
    }

    fn from_count(n: u64) -> Self {
        Real(n as f64)
    }
}

/// xoshiro256++ seeded by splitmix64.
struct Rng {
    s: [u64; 4],
    spare: Option<f64>,
}

impl Rng {
    fn new(seed: u64) -> Self {
        let mut x = seed;
        let mut s = [0u64; 4];
        for word in s.iter_mut() {
            x = x.wrapping_add(0x9E37_79B9_7F4A_7C15);
            let mut z = x;
            z = (z ^ (z >> 30)).wrapping_mul(0xBF58_476D_1CE4_E5B9);
            z = (z ^ (z >> 27)).wrapping_mul(0x94D0_49BB_1331_11EB);
            *word = z ^ (z >> 31);
        }
        Rng { s, spare: None }
    }

    fn next_u64(&mut self) -> u64 {
        let s = &mut self.s;
        let r = s[0].wrapping_add(s[3]).rotate_left(23).wrapping_add(s[0]);
        let t = s[1] << 17;
        s[2] ^= s[0];
        s[3] ^= s[1];
        s[1] ^= s[2];
        s[0] ^= s[3];
        s[2] ^= t;
        s[3] = s[3].rotate_left(45);
        r
    }

    fn f64(&mut self) -> f64 {
        (self.next_u64() >> 11) as f64 / (1u64 << 53) as f64
    }

    fn bernoulli(&mut self, p: f64) -> bool {
        self.f64() < p
    }

    fn below(&mut self, n: usize) -> usize {
        (self.next_u64() % n as u64) as usize
    }

    fn normal(&mut self) -> f64 {
        if let Some(z) = self.spare.take() {
            return z;
        }
        let u = 1.0 - self.f64();
        let v = self.f64();
        let r = (-2.0 * u.ln()).sqrt();
        let (sin, cos) = (std::f64::consts::TAU * v).sin_cos();
        self.spare = Some(r * sin);
        r * cos
    }
}

fn exp(x: Real) -> Real {
    Real(x.0.exp())
}

fn ln(x: Real) -> Real {
    Real(x.0.ln())
}

fn root(x: Real) -> Real {
    Real(x.0.sqrt())
}

fn round(x: Real) -> u32 {
    x.0.round() as u32
}

fn params(tau: f64, v_reset: f64, v_th: f64, t_ref: f64) -> NeuronParams<Real> {
    NeuronParams {
        tau: Real(tau),
        v_rest: Real(0.0),
        v_reset: Real(v_reset),
        v_th: Real(v_th),
        t_ref: Real(t_ref),
        r: Real(1.0),
    }
}

fn base_params() -> NeuronParams<Real> {
    params(0.020, 0.0, 20.0, 0.0)
}

fn prepare(p: &NeuronParams<Real>, i: f64, dt: f64) -> Lif<Real> {
    p.prepare(Real(dt), Real(i), &Tuning { exp, round })
}

fn layer(name: &str, n: usize, p: NeuronParams<Real>, i_ext: f64, rate: f64, w: f64) -> LayerSpec<Real> {
    LayerSpec {
        name: name.to_string(),
        n,
        params: p,
        i_ext: Real(i_ext),
        poisson_rate: Real(rate),
        poisson_weight: Real(w),
    }
}

fn population(l: &LayerSpec<Real>, dt: f64) -> PopulationSpec<Real> {
    l.to_population(Real(dt), &Tuning { exp, round })
}

/// One draw per ordered pair; pairs of a neuron with itself draw nothing.
fn pair_draws(rng: &mut Rng, pre: (usize, usize), post: (usize, usize), p: f64) -> Vec<bool> {
    let mut draws = Vec::new();
    for a in 0..pre.1 {
        for b in 0..post.1 {
            draws.push(pre.0 + a != post.0 + b && rng.bernoulli(p));
        }
    }
    draws
}

fn arrivals(rng: &mut Rng, lambda: f64) -> u64 {
    let limit = Real((-lambda).exp());
    let mut draws: Vec<Real> = Vec::new();
    loop {
        draws.push(Real(rng.f64()));
        if let Some(k) = poisson(limit, &draws) {
            return k;
        }
    }
}

#[test]
fn membrane_trajectory_matches_closed_form() {
    let p = base_params();
    let dt = 1e-4;
    let i = 15.0;
    let trace = membrane_trace(&prepare(&p, i, dt), 4000, p.v_rest);
    for &k in &[1usize, 10, 50, 200, 1000, 2000, 3999] {
        let t = (k + 1) as f64 * dt;
        let v_exact = i * (1.0 - (-t / 0.020).exp());
        let rel = (trace[k].0 - v_exact).abs() / v_exact.abs();
        assert!(rel < 1e-9, "step {k}: {} vs {v_exact}", trace[k].0);
    }
}

#[test]
fn fi_curve_within_quantization_band() {
    let p = base_params();
    let dt = 1e-4;
    for &i in &[25.0, 30.0, 40.0, 60.0, 100.0] {
        let t_period = p.analytic_period(Real(i), &ln).expect("suprathreshold").0;
        let f_hi = 1.0 / t_period;
        let f_lo = 1.0 / (t_period + dt);
        let f_sim = measured_rate(&prepare(&p, i, dt), Real(dt), 200_000).0;
        assert!(f_sim <= f_hi + 1e-6 && f_sim >= f_lo - 1e-6, "current {i}: rate {f_sim}");
        assert_eq!(p.analytic_rate(Real(i), &ln).unwrap().0, 1.0 / (t_period + 0.0));
    }
    assert!(p.analytic_period(Real(20.0), &ln).is_none());
    assert!(p.analytic_rate(Real(5.0), &ln).is_none());
}

#[test]
fn refractory_rate_cap() {
    let dt = 1e-4;
    let t_ref = 0.005;
    let p = params(0.020, 0.0, 20.0, t_ref);
    let lif = prepare(&p, 1.0e6, dt);
    let f_sim = measured_rate(&lif, Real(dt), 200_000).0;
    let cap = 1.0 / t_ref;
    assert!(f_sim <= cap + 1e-9, "rate {f_sim} exceeds cap {cap}");
    let expected = 1.0 / (t_ref + dt);
    assert!((f_sim - expected).abs() < 1e-6, "rate {f_sim} vs expected {expected}");
    assert!(f_sim > 1.0 / (t_ref + 2.0 * dt));
    let spikes = simulate_single(&lif, 200);
    assert_eq!(spikes, vec![0, 51, 102, 153]);
}

fn run_brunel(g: f64, seed: u64) -> (f64, f64) {
    let dt = 1e-4;
    let tau = 0.020;
    let j = 0.5;
    let delay = 15;
    let (n_e, n_i) = (1000usize, 250usize);
    let eps = 0.1;
    let eta = 1.0;
    let nu_ext = eta * 20.0 / (j * tau);
    let neuron = params(tau, 10.0, 20.0, 0.002);
    let mut b = NetworkBuilder::new();
    let pe = b.add_population(population(&layer("E", n_e, neuron, 0.0, nu_ext, j), dt));
    let pi = b.add_population(population(&layer("I", n_i, neuron, 0.0, nu_ext, j), dt));
    let mut rng = Rng::new(seed);
    let (e, i) = ((0, n_e), (n_e, n_i));
    let d = pair_draws(&mut rng, e, e, eps);
    b.connect_random(pe, pe, Real(j), delay, &d);
    let d = pair_draws(&mut rng, e, i, eps);
    b.connect_random(pe, pi, Real(j), delay, &d);
    let d = pair_draws(&mut rng, i, e, eps);
    b.connect_random(pi, pe, Real(-g * j), delay, &d);
    let d = pair_draws(&mut rng, i, i, eps);
    b.connect_random(pi, pi, Real(-g * j), delay, &d);
    let net = b.build();
    let rng = RefCell::new(rng);
    let input = |_: usize, _: usize| arrivals(&mut rng.borrow_mut(), nu_ext * dt);
    let out = SpikingExecutor.execute(&net, 6000, Real(dt), &input, &root);
    (out.mean_rate_hz.0, out.cv_isi.0)
}

#[test]
fn brunel_inhibition_brackets_rate() {
    let (rate_strong, cv_strong) = run_brunel(8.0, 12345);
    let (rate_weak, _) = run_brunel(2.0, 12345);
    assert!(rate_strong < 50.0, "strong inhibition: rate {rate_strong} not low");
    assert!(cv_strong > 0.5, "strong inhibition: {cv_strong} not irregular");
    assert!(rate_weak > 3.0 * rate_strong, "weak {rate_weak}, strong {rate_strong}");
}

#[test]
fn ledger_sops_equals_spikes_times_fanout() {
    let dt = 1e-4;
    let mut b = NetworkBuilder::new();
    b.add_population(population(&layer("driver", 1, base_params(), 40.0, 0.0, 0.0), dt));
    b.add_population(population(
        &layer("quiet", 2, params(0.020, 0.0, 1.0e9, 0.0), 0.0, 0.0, 0.0),
        dt,
    ));
    assert_eq!(b.offset(1), 1);
    b.connect_explicit(0, 1, Real(0.5), 1);
    b.connect_explicit(0, 2, Real(0.5), 1);
    let net = b.build();
    assert_eq!(net.out_degree(0), 2);
    assert_eq!(net.n_populations(), 2);
    assert_eq!(net.population(1), ("quiet", 1, 2));
    let res = net.run(5000, &|_: usize, _: usize| 0);
    let expected_sops: u64 =
        (0..net.n).map(|i| res.trains[i].len() as u64 * net.out_degree(i) as u64).sum();
    assert!(res.spikes > 0, "driver never fired");
    assert_eq!(res.sops, expected_sops, "sops bookkeeping mismatch");
    assert_eq!(res.trains[1].len(), 0);
    assert_eq!(res.trains[2].len(), 0);
    assert_eq!(res.sops, res.spikes * 2);
}

fn determinism_job() -> SpikingJob<Real> {
    let neuron = params(0.020, 10.0, 20.0, 0.002);
    let rate = 2.0 * 20.0 / (0.1 * 0.020);
    let conn = |pre: usize, post: usize, weight: f64| ConnSpec {
        pre,
        post,
        probability: Real(0.1),
        weight: Real(weight),
        delay: 15,
    };
    SpikingJob {
        layers: vec![
            layer("E", 200, neuron, 0.0, rate, 0.1),
            layer("I", 50, neuron, 0.0, rate, 0.1),
        ],
        connections: vec![conn(0, 0, 0.1), conn(0, 1, 0.1), conn(1, 0, -0.5), conn(1, 1, -0.5)],
        duration: Real(0.2),
        dt: Real(1e-4),
        seed: 777,
    }
}

fn run_job(job: &SpikingJob<Real>) -> SpikingOutcome<Real> {
    let mut rng = Rng::new(job.seed);
    let starts: Vec<usize> =
        job.layers.iter().scan(0, |at, l| { let s = *at; *at += l.n; Some(s) }).collect();
    let draws: Vec<Vec<bool>> = job
        .connections
        .iter()
        .map(|c| {
            pair_draws(
                &mut rng,
                (starts[c.pre], job.layers[c.pre].n),
                (starts[c.post], job.layers[c.post].n),
                c.probability.0,
            )
        })
        .collect();
    let net = job.build(&Tuning { exp, round }, &draws);
    let lambda = job.layers[0].poisson_rate.0 * job.dt.0;
    let rng = RefCell::new(rng);
    let input = |_: usize, _: usize| arrivals(&mut rng.borrow_mut(), lambda);
    let n_steps = (job.duration.0 / job.dt.0).round() as usize;
    SpikingExecutor.execute(&net, n_steps, job.dt, &input, &root)
}

#[test]
fn determinism_same_seed_same_spikes() {
    let job = determinism_job();
    let a = run_job(&job);
    let b = run_job(&job);
    assert_eq!(a.spikes, b.spikes, "spike counts differ");
    assert_eq!(a.sops, b.sops, "sops differ");
    assert!(a.spikes > 0, "no spikes: drive too weak");
    assert_eq!(a.raster_sample, b.raster_sample, "rasters differ");
    assert_eq!(a.n_neurons, 250);
    assert_eq!(a.populations.len(), 2);
    assert_eq!((a.populations[1].name.as_str(), a.populations[1].n), ("I", 50));
    assert!(a.raster_sample.len() <= RASTER_CAP);
    assert!(a
        .raster_sample
        .windows(2)
        .all(|w| (w[0].step, w[0].neuron) < (w[1].step, w[1].neuron)));
    let by_hand: f64 = a.spikes as f64 / (a.duration.0 * 250.0);
    assert_eq!(a.mean_rate_hz.0, by_hand);
}

fn stdp() -> StdpConfig<Real> {
    StdpConfig {
        a_plus: Real(0.01),
        a_minus: Real(0.012),
        tau_plus: Real(0.017),
        tau_minus: Real(0.034),
        w_min: Real(0.0),
        w_max: Real(1.0),
    }
}

#[test]
fn stdp_window_asymmetry_and_traces() {
    let cfg = stdp();
    let window = |dt: f64| cfg.window(Real(dt), &exp).0;
    assert!(window(0.005) > 0.0, "pre-before-post must potentiate");
    assert!(window(-0.005) < 0.0, "post-before-pre must depress");
    assert!(window(0.005) > window(0.015));
    assert!(window(-0.005).abs() > window(-0.015).abs());
    assert_eq!(window(0.0), 0.01);
    for &dt in &[0.002_f64, 0.005, 0.010, 0.020, -0.005, -0.012] {
        let mut st = StdpState::new(cfg, Real(0.5));
        if dt > 0.0 {
            st.on_pre(Real(0.0), &exp);
            st.on_post(Real(dt), &exp);
        } else {
            st.on_post(Real(0.0), &exp);
            st.on_pre(Real(-dt), &exp);
        }
        let dw = st.weight.0 - 0.5;
        assert!((dw - window(dt)).abs() < 1e-12, "{dt}: {dw} vs {}", window(dt));
    }
}

#[test]
fn weights_stay_bounded() {
    let mut st = StdpState::new(stdp(), Real(0.999));
    for k in 0..10 {
        st.on_pre(Real(k as f64 * 1e-3), &exp);
        st.on_post(Real(k as f64 * 1e-3 + 1e-4), &exp);
    }
    assert!(st.weight.0 <= 1.0);
    assert_eq!(stdp().clamp(Real(-3.0)), Real(0.0));
    assert_eq!(stdp().clamp(Real(3.0)), Real(1.0));
    assert_eq!(stdp().clamp(Real(0.25)), Real(0.25));
}

#[test]
fn poisson_counts_draws() {
    let d = |x: &[f64]| x.iter().map(|&v| Real(v)).collect::<Vec<Real>>();
    assert_eq!(poisson(Real(0.5), &d(&[0.4])), Some(0));
    assert_eq!(poisson(Real(0.5), &d(&[0.9, 0.9, 0.5])), Some(2));
    assert_eq!(poisson(Real(0.5), &d(&[0.9, 0.9])), None);
}

#[test]
fn spikes_arrive_after_their_delay() {
    // Neuron 0 fires at once and again after its refractory period; its spike
    // carries neuron 1 over threshold three steps later.
    let fast = Lif {
        decay: 0i64,
        v_inf: 10,
        v_reset: 0,
        v_th: 10,
        ref_steps: 100,
    };
    let still = Lif { decay: 1, v_inf: 0, v_reset: 0, v_th: 5, ref_steps: 0 };
    let unit = |neuron: Lif<i64>| Unit { neuron, driven: false, poisson_weight: 0 };
    let mut b: NetworkBuilder<i64> = NetworkBuilder::new();
    b.add_population(PopulationSpec { name: "a".to_string(), n: 1, unit: unit(fast) });
    b.add_population(PopulationSpec { name: "b".to_string(), n: 1, unit: unit(still) });
    b.connect_explicit(0, 1, 7, 3);
    let net = b.build();
    assert_eq!(net.max_delay, 3);
    let s = net.run(20, &|_: usize, _: usize| 0);
    assert_eq!(s.trains, vec![vec![0], vec![3]]);
    assert_eq!((s.spikes, s.sops), (2, 1));
}

#[test]
fn driven_neurons_draw_arrivals() {
    let lif = Lif { decay: 1i64, v_inf: 0, v_reset: 0, v_th: 6, ref_steps: 2 };
    let mut b: NetworkBuilder<i64> = NetworkBuilder::new();
    let unit = Unit { neuron: lif, driven: true, poisson_weight: 3 };
    b.add_population(PopulationSpec { name: "d".to_string(), n: 1, unit });
    let net = b.build();
    let asked = RefCell::new(Vec::new());
    let input = |k: usize, i: usize| {
        asked.borrow_mut().push((k, i));
        1
    };
    let s = net.run(8, &input);
    // Two arrivals reach threshold, then two refractory steps ask for none.
    assert_eq!(s.trains, vec![vec![1, 5]]);
    assert_eq!(*asked.borrow(), vec![(0, 0), (1, 0), (4, 0), (5, 0)]);
    assert!(reports(0, 1000) && reports(999, 1000) && reports(10, 1000) && !reports(11, 1000));
}

#[test]
fn regularity_of_a_train() {
    let x = RunResult {
        trains: vec![vec![0, 10, 20, 30], vec![0, 5, 15], vec![3]],
        spikes: 8,
        dt: Real(0.5),
        duration: Real(20.0),
        n: 3,
    };
    assert_eq!(x.neuron_cv(0, 2, &root), Some(Real(0.0)));
    // Intervals 2.5 and 5 seconds: mean 3.75, deviation 1.25.
    assert_eq!(x.neuron_cv(1, 2, &root), Some(Real(1.25 / 3.75)));
    assert_eq!(x.neuron_cv(2, 2, &root), None);
    assert_eq!(x.mean_cv_isi(&root), Real((0.0 + 1.25 / 3.75) / 2.0));
    assert_eq!(x.pop_cv_isi(2, 1, &root), Real(0.0));
    assert_eq!(x.mean_rate_hz(), Real(8.0 / 60.0));
    assert_eq!(x.pop_rate_hz(0, 2), Real(7.0 / 40.0));
    assert_eq!(x.pop_rate_hz(0, 0), Real(0.0));
}
