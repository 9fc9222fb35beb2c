//! Ising models, annealing, replica exchange and Max-Cut jobs.

use std::cell::RefCell;
use std::sync::Mutex;
use tei_fabric::scalar::Scalar;
use tei_fabric::stochastic::anneal::{anneal, sample_observables, AnnealOutcome};
use tei_fabric::stochastic::chain::SpinTick;
use tei_fabric::stochastic::chance::{accepts, conditional};
use tei_fabric::stochastic::exchange::{parallel_temper, TemperOutcome};
use tei_fabric::stochastic::exec::{
    default_kind, Ladder, StochasticExecutor, TemperClock, Tick, DEFAULT_REPLICAS,
    DEFAULT_SWAP_INTERVAL,
};
use tei_fabric::stochastic::gibbs::{greedy_coloring, GibbsSampler, SpinLedger};
use tei_fabric::stochastic::graphs::{complete, petersen, random_regular};
use tei_fabric::stochastic::ising::IsingModel;
use tei_fabric::stochastic::maxcut::{cut_value, total_weight, ProblemSpec};
use tei_fabric::stochastic::reduction::{cut_of_energy, to_ising};
use tei_fabric::stochastic::schedule::{Schedule, TemperingSpec};
use tei_fabric::stochastic::solve::{lift, Chances, StochasticFault, StochasticJob};
use tei_fabric::stochastic::solve::StochasticReport;
use tei_fabric::stochastic::tempering::Tempering;

/// Double-precision samples.
#[derive(Debug, Clone, Copy, PartialEq, PartialOrd)]
struct Real(f64);

impl Scalar for Real {
    fn zero_value() -> Self {
        Real(0.0)
    }

    fn sum(self, rhs: Self) -> Self {
        Real(self.0 + rhs.0)
    }

    fn difference(self, rhs: Self) -> Self {
        Real(self.0 - rhs.0)
    }

    fn product(self, rhs: Self) -> Self {
        Real(self.0 * rhs.0)
    }

    fn at_least(self, threshold: Self) -> bool {
        self.0 >= threshold.0
    }

    fn less_than(self, rhs: Self) -> bool {
        self.0 < rhs.0
    }

    fn quotient(self, rhs: Self) -> Self {
        Real(self.0 / rhs.0)
    }

    fn negative(self) -> Self {
        Real(-self.0)
    }

    fn rank(self) -> u64 {
        let bits = self.0.to_bits();
        if bits >> 63 == 1 {
            !bits
        } else {
            bits | 1 << 63
        }
    }

    fn of_count(n: u64) -> Self {
        Real(n as f64)
    }

    fn zero() -> Self {
        Real(0.0)
    }

    fn plus(self, rhs: Self) -> Self {
        Real(self.0 + rhs.0)
    }

    fn minus(self, rhs: Self) -> Self {
        Real(self.0 - rhs.0)
    }

    fn times(self, rhs: Self) -> Self {
        Real(self.0 * rhs.0)
    }

    fn reaches(self, threshold: Self) -> bool {
        self.0 >= threshold.0
    }

    fn below(self, rhs: Self) -> bool {
        self.0 < rhs.0
    }

    fn over(self, rhs: Self) -> Self {
        Real(self.0 / rhs.0)
    }

    fn opposite(self) -> Self {
        Real(-self.0)
    }

    fn precedes(self, rhs: Self) -> bool {
        self.0.total_cmp(&rhs.0) == std::cmp::Ordering::Less
    }

    fn from_count(n: u64) -> Self {
        Real(n as f64)
    }
}

/// xoshiro256++ seeded by splitmix64.
struct Rng {
    s: [u64; 4],
    spare: Option<f64>,
}

impl Rng {
    fn new(seed: u64) -> Self {
        let mut x = seed;
        let mut s = [0u64; 4];
        for word in s.iter_mut() {
            x = x.wrapping_add(0x9E37_79B9_7F4A_7C15);
            let mut z = x;
            z = (z ^ (z >> 30)).wrapping_mul(0xBF58_476D_1CE4_E5B9);
            z = (z ^ (z >> 27)).wrapping_mul(0x94D0_49BB_1331_11EB);
            *word = z ^ (z >> 31);
        }
        Rng { s, spare: None }
    }

    fn next_u64(&mut self) -> u64 {
        let s = &mut self.s;
        let r = s[0].wrapping_add(s[3]).rotate_left(23).wrapping_add(s[0]);
        let t = s[1] << 17;
        s[2] ^= s[0];
        s[3] ^= s[1];
        s[1] ^= s[2];
        s[0] ^= s[3];
        s[2] ^= t;
        s[3] = s[3].rotate_left(45);
        r
    }

    fn f64(&mut self) -> f64 {
        (self.next_u64() >> 11) as f64 / (1u64 << 53) as f64
    }

    fn bernoulli(&mut self, p: f64) -> bool {
        self.f64() < p
    }

    fn below(&mut self, n: usize) -> usize {
        (self.next_u64() % n as u64) as usize
    }

    fn normal(&mut self) -> f64 {
        if let Some(z) = self.spare.take() {
            return z;
        }
        let u = 1.0 - self.f64();
        let v = self.f64();
        let r = (-2.0 * u.ln()).sqrt();
        let (sin, cos) = (std::f64::consts::TAU * v).sin_cos();
        self.spare = Some(r * sin);
        r * cos
    }
}

fn pow(x: Real, y: Real) -> Real {
    Real(x.0.powf(y.0))
}

/// Whether a uniform draw puts a spin up at inverse temperature `beta`.
fn up(u: f64, beta: f64, l: f64) -> bool {
    conditional(Real(u), Real(beta), Real(l), &exp)
}

fn exp(x: Real) -> Real {
    Real(x.0.exp())
}

fn sampler(m: &IsingModel<Real>) -> GibbsSampler {
    let (colors, n) = greedy_coloring(m);
    GibbsSampler::new(&colors, n)
}

fn random_spins(n: usize, rng: &mut Rng) -> Vec<i8> {
    (0..n).map(|_| if rng.bernoulli(0.5) { 1 } else { -1 }).collect()
}

fn random_model(n: usize, seed: u64) -> IsingModel<Real> {
    let mut rng = Rng::new(seed);
    let h: Vec<Real> = (0..n).map(|_| Real(0.5 * rng.normal())).collect();
    let mut edges: Vec<(u32, u32, Real)> = (0..n)
        .map(|i| (i as u32, ((i + 1) % n) as u32, Real(0.6 * rng.normal())))
        .collect();
    for _ in 0..n / 2 {
        let a = rng.below(n) as u32;
        let b = rng.below(n) as u32;
        if a != b && !edges.iter().any(|&(x, y, _)| (x, y) == (a, b) || (x, y) == (b, a)) {
            edges.push((a, b, Real(0.6 * rng.normal())));
        }
    }
    IsingModel::new(h, &edges)
}

fn sk_instance(n: usize, seed: u64) -> IsingModel<Real> {
    let mut rng = Rng::new(seed);
    let mut edges = Vec::new();
    for i in 0..n {
        for j in (i + 1)..n {
            let w = if rng.bernoulli(0.5) { 1.0 } else { -1.0 };
            edges.push((i as u32, j as u32, Real(w)));
        }
    }
    IsingModel::new(vec![Real(0.0); n], &edges)
}

fn assignment(mask: u64, n: usize) -> Vec<i8> {
    (0..n).map(|i| if mask >> i & 1 == 1 { 1 } else { -1 }).collect()
}

fn exact_observables(m: &IsingModel<Real>, beta: f64) -> (f64, f64) {
    let n = m.n;
    assert!(n <= 20);
    let (mut z, mut e_acc, mut m_acc) = (0.0, 0.0, 0.0);
    for mask in 0u64..(1 << n) {
        let s = assignment(mask, n);
        let e = m.energy(&s).0;
        let w = (-beta * e).exp();
        let sum: i64 = s.iter().map(|&x| x as i64).sum();
        z += w;
        e_acc += w * e;
        m_acc += w * (sum as f64 / n as f64).abs();
    }
    (e_acc / z, m_acc / z)
}

fn exact_ground_energy(m: &IsingModel<Real>) -> f64 {
    assert!(m.n <= 20);
    let mut best = f64::INFINITY;
    for mask in 0u64..(1 << m.n) {
        best = best.min(m.energy(&assignment(mask, m.n)).0);
    }
    best
}

fn exact_probs(m: &IsingModel<Real>, beta: f64) -> Vec<f64> {
    assert!(m.n <= 20);
    let w: Vec<f64> = (0u64..(1 << m.n))
        .map(|mask| (-beta * m.energy(&assignment(mask, m.n)).0).exp())
        .collect();
    let z: f64 = w.iter().sum();
    w.iter().map(|x| x / z).collect()
}

fn state_mask(s: &[i8]) -> usize {
    let mut mask = 0usize;
    for (i, &si) in s.iter().enumerate() {
        if si == 1 {
            mask |= 1 << i;
        }
    }
    mask
}

fn observe(m: &IsingModel<Real>, beta: f64, burn_in: u64, measure: u64, seed: u64) -> (f64, f64) {
    let mut rng = Rng::new(seed);
    let g = sampler(m);
    let state = random_spins(m.n, &mut rng);
    let rng = RefCell::new(rng);
    let decide = |_: u64, _: usize, l: Real| up(rng.borrow_mut().f64(), beta, l.0);
    let (e, mag) = sample_observables(&g, m, state, burn_in, measure, &decide);
    (e.0, mag.0)
}

fn run_anneal(
    m: &IsingModel<Real>,
    schedule: &Schedule<Real>,
    seed: u64,
    trace_every: u64,
) -> AnnealOutcome<Real> {
    let mut rng = Rng::new(seed);
    let g = sampler(m);
    let state = random_spins(m.n, &mut rng);
    let rng = RefCell::new(rng);
    let decide = |_: u64, beta: Real, _: usize, l: Real| up(rng.borrow_mut().f64(), beta.0, l.0);
    let mut ticks = Vec::new();
    let out = anneal(&g, m, schedule, &pow, state, trace_every, &decide, &mut ticks);
    assert_eq!(ticks.len(), out.trace.len(), "one report per trace point");
    for (t, p) in ticks.iter().zip(&out.trace) {
        assert_eq!((t.point.sweep, t.point.energy), (p.sweep, p.energy));
        assert_eq!((t.attempts, t.accepts), (0, 0));
    }
    out
}

/// Streams of a replica-exchange run: one per replica and one for exchanges.
struct Streams {
    replicas: Vec<Mutex<Rng>>,
    swap: RefCell<Rng>,
}

impl Streams {
    fn new(k: usize, seed: u64) -> Self {
        let mut master = Rng::new(seed);
        let replicas = (0..k).map(|_| Mutex::new(Rng::new(master.next_u64()))).collect();
        Streams { replicas, swap: RefCell::new(Rng::new(master.next_u64())) }
    }

    fn states(&self, n: usize) -> Vec<Vec<i8>> {
        self.replicas.iter().map(|r| random_spins(n, &mut r.lock().unwrap())).collect()
    }
}

fn temper(
    m: &IsingModel<Real>,
    spec: &TemperingSpec<Real>,
    sweeps: u64,
    seed: u64,
    trace_every: u64,
) -> TemperOutcome<Real> {
    let g = sampler(m);
    let streams = Streams::new(spec.replicas, seed);
    let states = streams.states(m.n);
    let replicas = &streams.replicas;
    let decide = |r: usize, beta: Real, _: u64, _: usize, l: Real| {
        up(replicas[r].lock().unwrap().f64(), beta.0, l.0)
    };
    let accept = |_: u64, _: usize, x: Real| {
        accepts(Real(streams.swap.borrow_mut().f64()), x, &exp)
    };
    let mut ticks: Vec<SpinTick<Real>> = Vec::new();
    let out = parallel_temper(
        &g, m, spec, &pow, &states, sweeps, trace_every, &decide, &accept, &mut ticks,
    );
    let interval = spec.swap_interval.max(1);
    assert_eq!(ticks.len(), out.trace.len(), "one report per trace point");
    for (t, p) in ticks.iter().zip(&out.trace) {
        assert_eq!((t.point.sweep, t.point.energy), (p.sweep, p.energy));
        let so_far = out.stats.decisions.iter().filter(|d| d.round < p.sweep / interval);
        assert_eq!(t.attempts, so_far.clone().count() as u64);
        assert_eq!(t.accepts, so_far.filter(|d| d.accepted).count() as u64);
    }
    out
}

fn ladder(replicas: usize, lo: f64, hi: f64, swap_interval: u64, kind: Ladder) -> TemperingSpec<Real> {
    TemperingSpec { replicas, beta_min: Real(lo), beta_max: Real(hi), swap_interval, ladder: kind }
}

fn geometric(sweeps: u64, lo: f64, hi: f64) -> Schedule<Real> {
    Schedule { sweeps, beta0: Real(lo), beta1: Real(hi), kind: default_kind() }
}

#[test]
fn petersen_is_3_regular_15_edges() {
    let g = petersen();
    assert_eq!(g.edges.len(), 15);
    let mut deg = vec![0; 10];
    for &(a, b, _) in &g.edges {
        deg[a as usize] += 1;
        deg[b as usize] += 1;
    }
    assert!(deg.iter().all(|&d| d == 3));
}

/// Draws for the shuffles of 200 attempts.
fn attempts(n: usize, d: usize, seed: u64) -> Vec<Vec<usize>> {
    let mut rng = Rng::new(seed);
    (0..200).map(|_| (1..n * d).rev().map(|i| rng.below(i + 1)).collect()).collect()
}

#[test]
fn random_regular_is_simple_and_regular() {
    let g = random_regular(50, 4, &attempts(50, 4, 7)).unwrap();
    assert_eq!(g.edges.len(), 100);
    let mut deg = vec![0; 50];
    let mut seen = std::collections::HashSet::new();
    for &(a, b, _) in &g.edges {
        assert_ne!(a, b);
        assert!(seen.insert((a, b)));
        deg[a as usize] += 1;
        deg[b as usize] += 1;
    }
    assert!(deg.iter().all(|&d| d == 4));
}

#[test]
fn random_regular_runs_out_of_attempts() {
    // The pairs of an unshuffled stub list are self-loops.
    let still: Vec<Vec<usize>> = vec![(1..4usize).rev().collect(); 3];
    assert!(random_regular(4, 1, &Vec::new()).is_none());
    let loops: Vec<Vec<usize>> = vec![(1..8usize).rev().collect(); 3];
    assert!(random_regular(4, 2, &loops).is_none());
    let g = random_regular(4, 1, &still).unwrap();
    assert_eq!(g.edges, vec![(0, 1, 1), (2, 3, 1)]);
}

#[test]
fn matches_exact_enumeration() {
    let model = random_model(12, 11);
    let beta = 0.7;
    let (e_exact, m_exact) = exact_observables(&model, beta);
    let (e_mc, m_mc) = observe(&model, beta, 2_000, 60_000, 5);
    assert!((e_mc - e_exact).abs() < 0.05 * e_exact.abs().max(1.0));
    assert!((m_mc - m_exact).abs() < 0.05);
}

#[test]
fn boltzmann_distribution() {
    let model = random_model(4, 3);
    let beta = 0.8;
    let probs = exact_probs(&model, beta);
    let rng = RefCell::new(Rng::new(17));
    let g = sampler(&model);
    let mut ledger = SpinLedger { spin_updates: 0, flips: 0, sweeps: 0 };
    let mut state = vec![1i8; 4];
    let decide = |_: usize, l: Real| up(rng.borrow_mut().f64(), beta, l.0);
    for _ in 0..1_000 {
        g.sweep(&model, &mut state, &decide, &mut ledger);
    }
    let n_samples = 200_000u64;
    let mut counts = [0u64; 16];
    for _ in 0..n_samples {
        g.sweep(&model, &mut state, &decide, &mut ledger);
        counts[state_mask(&state)] += 1;
    }
    assert_eq!(ledger.sweeps, 201_000);
    assert_eq!(ledger.spin_updates, 4 * 201_000);
    let chi2: f64 = (0..16)
        .map(|k| {
            let expected = probs[k] * n_samples as f64;
            (counts[k] as f64 - expected).powi(2) / expected
        })
        .sum();
    assert!(chi2 < 600.0, "sampler distribution is off");
}

#[test]
fn flips_are_changed_spins() {
    let model = random_model(6, 9);
    let g = sampler(&model);
    let mut ledger = SpinLedger { spin_updates: 0, flips: 0, sweeps: 0 };
    let mut state = vec![1i8, -1, 1, 1, -1, 1];
    // Every spin is sent down, and four of them were up.
    g.sweep(&model, &mut state, &|_: usize, _: Real| false, &mut ledger);
    assert_eq!(state, vec![-1i8; 6]);
    assert_eq!((ledger.spin_updates, ledger.flips, ledger.sweeps), (6, 4, 1));
    let rng = RefCell::new(Rng::new(21));
    let decide = |_: usize, l: Real| up(rng.borrow_mut().f64(), 0.4, l.0);
    for _ in 0..50 {
        let (before, flips) = (state.clone(), ledger.flips);
        g.sweep(&model, &mut state, &decide, &mut ledger);
        let changed = before.iter().zip(&state).filter(|(a, b)| a != b).count() as u64;
        assert_eq!(ledger.flips - flips, changed);
    }
}

#[test]
fn onsager_critical_bracket() {
    let l = 16;
    let n = l * l;
    let idx = |x: usize, y: usize| (y * l + x) as u32;
    let mut edges = Vec::new();
    for y in 0..l {
        for x in 0..l {
            edges.push((idx(x, y), idx((x + 1) % l, y), Real(1.0)));
            edges.push((idx(x, y), idx(x, (y + 1) % l), Real(1.0)));
        }
    }
    let model = IsingModel::new(vec![Real(0.0); n], &edges);
    let (_, m_cold) = observe(&model, 1.0 / 1.5, 3_000, 8_000, 21);
    let (_, m_hot) = observe(&model, 1.0 / 3.5, 3_000, 8_000, 22);
    assert!(m_cold > 0.85, "below the critical temperature: {m_cold}");
    assert!(m_hot < 0.35, "above the critical temperature: {m_hot}");
    assert!(m_cold - m_hot > 0.5);
}

fn solve_maxcut(spec: ProblemSpec, sweeps: u64, seed: u64) -> (f64, Option<f64>) {
    let prepared = StochasticExecutor.prepare(&spec, &Vec::new()).unwrap();
    let model: IsingModel<Real> = lift(&prepared.model);
    let total_w = prepared.total_weight as f64;
    let out = run_anneal(&model, &geometric(sweeps, 0.1, 6.0), seed, sweeps.max(1));
    let cut = (total_w - out.best_energy.0) / 2.0;
    assert_eq!(cut, cut_value(&prepared.graph, &out.best_state) as f64);
    (cut, spec.known_optimum().map(|x| x as f64))
}

#[test]
fn maxcut_complete_k10() {
    let (cut, opt) = solve_maxcut(ProblemSpec::Complete { n: 10 }, 2_000, 1);
    assert_eq!(cut, opt.unwrap());
    assert_eq!(cut, 25.0);
}

#[test]
fn maxcut_even_cycle() {
    let (cut, opt) = solve_maxcut(ProblemSpec::Cycle { n: 20 }, 3_000, 2);
    assert_eq!(cut, opt.unwrap());
}

#[test]
fn maxcut_odd_cycle() {
    let (cut, opt) = solve_maxcut(ProblemSpec::Cycle { n: 21 }, 3_000, 3);
    assert_eq!(cut, opt.unwrap());
}

#[test]
fn maxcut_complete_bipartite() {
    let (cut, opt) = solve_maxcut(ProblemSpec::CompleteBipartite { a: 6, b: 7 }, 3_000, 4);
    assert_eq!(cut, opt.unwrap());
}

#[test]
fn maxcut_petersen() {
    let (cut, opt) = solve_maxcut(ProblemSpec::Petersen, 3_000, 5);
    assert_eq!(cut, opt.unwrap());
}

#[test]
fn ladder_shapes() {
    let b: Vec<f64> =
        ladder(8, 0.1, 6.0, 10, Ladder::Geometric).betas(&pow).iter().map(|x| x.0).collect();
    assert_eq!(b.len(), 8);
    assert!((b[0] - 0.1).abs() < 1e-12 && (b[7] - 6.0).abs() < 1e-12);
    assert!(b.windows(2).all(|w| w[1] > w[0]), "ladder must ascend");
    let r0 = b[1] / b[0];
    for w in b.windows(2) {
        assert!((w[1] / w[0] - r0).abs() < 1e-9);
    }

    let b: Vec<f64> =
        ladder(5, 0.5, 2.5, 10, Ladder::Linear).betas(&pow).iter().map(|x| x.0).collect();
    assert_eq!(b.len(), 5);
    assert!((b[0] - 0.5).abs() < 1e-12 && (b[4] - 2.5).abs() < 1e-12);
    let d0 = b[1] - b[0];
    for w in b.windows(2) {
        assert!((w[1] - w[0] - d0).abs() < 1e-12);
    }

    let one = ladder(1, 0.1, 6.0, DEFAULT_SWAP_INTERVAL, Ladder::default());
    assert_eq!(one.betas(&pow), vec![Real(6.0)]);
    assert_eq!(DEFAULT_REPLICAS, 8);
}

#[test]
fn schedules_interpolate() {
    let mut s = geometric(5, 0.5, 8.0);
    assert_eq!(s.beta_at(0, &pow), Real(0.5));
    assert!((s.beta_at(2, &pow).0 - 2.0).abs() < 1e-12);
    assert!((s.beta_at(4, &pow).0 - 8.0).abs() < 1e-12);
    s.kind = "linear".to_string();
    assert_eq!(s.beta_at(2, &pow), Real(4.25));
    s.kind = "anything else".to_string();
    assert!((s.beta_at(2, &pow).0 - 2.0).abs() < 1e-12);
    s.sweeps = 1;
    assert_eq!(s.beta_at(0, &pow), Real(8.0));
}

#[test]
fn pt_preserves_per_beta_marginals() {
    let model = random_model(4, 3);
    let spec = ladder(3, 0.4, 1.2, 1, Ladder::Geometric);
    let betas: Vec<f64> = spec.betas(&pow).iter().map(|b| b.0).collect();
    let exact: Vec<Vec<f64>> = betas.iter().map(|&b| exact_probs(&model, b)).collect();
    let g = sampler(&model);
    let streams = Streams::new(3, 11);
    let states = streams.states(4);
    let mut pt = Tempering::new(&model, spec.betas(&pow), &states);
    let replicas = &streams.replicas;
    let decide = |r: usize, beta: Real, _: u64, _: usize, l: Real| {
        up(replicas[r].lock().unwrap().f64(), beta.0, l.0)
    };
    let accept = |_: u64, _: usize, x: Real| {
        accepts(Real(streams.swap.borrow_mut().f64()), x, &exp)
    };
    let n_samples = 200_000u64;
    let mut counts = vec![[0u64; 16]; 3];
    for t in 0..n_samples + 1_000 {
        pt.advance(&g, &model, t, 1, &decide);
        pt.swap_round(&model, &accept);
        if t >= 1_000 {
            for (k, c) in counts.iter_mut().enumerate() {
                c[state_mask(&pt.live[k].state)] += 1;
            }
        }
    }
    assert!(pt.stats.acceptance_overall().0 > 0.2);
    for (k, c) in counts.iter().enumerate() {
        let chi2: f64 = (0..16)
            .map(|m| {
                let expected = exact[k][m] * n_samples as f64;
                (c[m] as f64 - expected).powi(2) / expected
            })
            .sum();
        assert!(chi2 < 600.0, "rung {k}: swaps distorted the marginal");
    }
}

#[test]
fn swap_acceptance_matches_metropolis() {
    let model = random_model(12, 11);
    let out = temper(&model, &ladder(4, 0.2, 2.0, 2, Ladder::Geometric), 4_000, 21, u64::MAX);
    let (mut sum_p, mut var) = (0.0, 0.0);
    let (mut observed, mut n_neg) = (0u64, 0u64);
    for d in &out.stats.decisions {
        if d.log_ratio.0 >= 0.0 {
            assert!(d.accepted, "a rise in likelihood must always accept");
        } else {
            let p = d.log_ratio.0.exp();
            sum_p += p;
            var += p * (1.0 - p);
            n_neg += 1;
            if d.accepted {
                observed += 1;
            }
        }
    }
    assert!(n_neg >= 200, "run too short");
    assert!((observed as f64 - sum_p).abs() <= 5.0 * var.sqrt());
}

#[test]
fn acceptance_decreases_with_wider_ladder() {
    let model = random_model(16, 5);
    let acc = |replicas: usize| {
        let out =
            temper(&model, &ladder(replicas, 0.1, 6.0, 10, Ladder::Geometric), 2_000, 9, u64::MAX);
        assert!(out.stats.attempts > 0);
        out.stats.acceptance_overall().0
    };
    let dense = acc(6);
    let sparse = acc(3);
    assert!(dense > sparse, "acceptance {dense} should exceed {sparse}");
}

#[test]
fn pt_beats_anneal_on_frustrated_sk() {
    let model = sk_instance(16, 918);
    let e0 = exact_ground_energy(&model);
    let replicas = 8usize;
    let sweeps_per_replica = 20u64;
    let spec = ladder(replicas, 0.1, 6.0, 5, Ladder::Geometric);
    let schedule = geometric(replicas as u64 * sweeps_per_replica, 0.1, 6.0);
    let mut strict_wins = 0;
    for seed in 0..10u64 {
        let pt = temper(&model, &spec, sweeps_per_replica, seed, u64::MAX);
        let an = run_anneal(&model, &schedule, seed, u64::MAX);
        assert!(pt.best_energy.0 >= e0 - 1e-9 && an.best_energy.0 >= e0 - 1e-9);
        assert!(
            pt.best_energy.0 <= an.best_energy.0 + 1e-9,
            "seed {seed}: exchange {} worse than annealing {}",
            pt.best_energy.0,
            an.best_energy.0
        );
        if pt.best_energy.0 < an.best_energy.0 - 1e-9 {
            strict_wins += 1;
        }
    }
    assert!(strict_wins >= 1, "matched budget never separated the two");
}

#[test]
fn pt_determinism_single_vs_multi_thread() {
    let model = random_model(64, 8);
    let spec = ladder(6, 0.2, 4.0, 20, Ladder::Geometric);
    let run = |threads: usize| {
        let pool = rayon::ThreadPoolBuilder::new().num_threads(threads).build().unwrap();
        pool.install(|| temper(&model, &spec, 500, 42, 100))
    };
    let a = run(1);
    let b = run(6);
    assert_eq!(a.best_energy.0.to_bits(), b.best_energy.0.to_bits());
    assert_eq!(a.best_state, b.best_state);
    assert_eq!(a.stats.attempts, b.stats.attempts);
    assert_eq!(a.stats.accepts, b.stats.accepts);
    assert_eq!(a.stats.per_pair_accepts, b.stats.per_pair_accepts);
    assert_eq!(a.stats.decisions.len(), b.stats.decisions.len());
    for (da, db) in a.stats.decisions.iter().zip(&b.stats.decisions) {
        assert_eq!(da.log_ratio.0.to_bits(), db.log_ratio.0.to_bits());
        assert_eq!(da.accepted, db.accepted);
    }
    assert_eq!(a.ledger.sweeps, b.ledger.sweeps);
    assert_eq!(a.ledger.spin_updates, b.ledger.spin_updates);
    assert_eq!(a.ledger.flips, b.ledger.flips);
    assert_eq!(a.trace.len(), b.trace.len());
    for (ta, tb) in a.trace.iter().zip(&b.trace) {
        assert_eq!(ta.energy.0.to_bits(), tb.energy.0.to_bits());
        assert_eq!(ta.best_energy.0.to_bits(), tb.best_energy.0.to_bits());
    }
    assert_eq!(a.ledger.sweeps, 6 * 500);
}

fn run_job(job: &StochasticJob<Real>) -> StochasticReport<Real> {
    let k = job.tempering.map(|t| t.replicas).unwrap_or(1);
    let streams = Streams::new(k, job.seed);
    let replicas = &streams.replicas;
    let single = RefCell::new(Rng::new(job.seed));
    let tempered = job.tempering.is_some();
    let chances = Chances {
        pow,
        first: |r: usize, _: usize| {
            if tempered {
                replicas[r].lock().unwrap().bernoulli(0.5)
            } else {
                single.borrow_mut().bernoulli(0.5)
            }
        },
        anneal: |_: u64, beta: Real, _: usize, l: Real| {
            up(single.borrow_mut().f64(), beta.0, l.0)
        },
        temper: |r: usize, beta: Real, _: u64, _: usize, l: Real| {
            up(replicas[r].lock().unwrap().f64(), beta.0, l.0)
        },
        accept: |_: u64, _: usize, x: Real| {
        accepts(Real(streams.swap.borrow_mut().f64()), x, &exp)
    },
    };
    assert!(job.check().is_ok());
    let mut ticks: Vec<SpinTick<Real>> = Vec::new();
    let r = StochasticExecutor.execute(job, &Vec::new(), &chances, &mut ticks).unwrap();
    assert_eq!(ticks.len(), r.trace.len());
    assert_eq!(ticks.len(), r.ticks.len());
    for (t, p) in ticks.iter().zip(&r.trace) {
        assert_eq!(t.point.sweep, p.sweep);
        assert_eq!((r.total_weight.0 - t.point.energy.0) / 2.0, p.cut.0);
    }
    r
}

#[test]
fn executor_round_trip() {
    let job = StochasticJob {
        problem: ProblemSpec::Petersen,
        schedule: geometric(1000, 0.1, 6.0),
        seed: 7,
        tempering: Some(ladder(4, 0.1, 6.0, 10, Ladder::Geometric)),
    };
    let res = run_job(&job);
    assert_eq!(res.best_cut.0, 12.0);
    let x = res.exchange.as_ref().unwrap();
    assert_eq!(x.replica_count, 4);
    assert_eq!(x.replica_betas.len(), 4);
    assert_eq!(x.per_pair_acceptance.len(), 3);
    assert!(x.swap_attempts > 0 && x.swap_accepts <= x.swap_attempts);
    let last = res.ticks.last().unwrap();
    assert_eq!((last.attempts, last.accepts), (x.swap_attempts, x.swap_accepts));
    let overall = x.swap_acceptance_overall.0;
    assert!((overall - x.swap_accepts as f64 / x.swap_attempts as f64).abs() < 1e-12);
    assert_eq!(res.ledger.sweeps, 4 * 1000);
    assert_eq!(res.known_optimum, Some(12));
    assert_eq!((res.n_nodes, res.n_edges), (10, 15));
    assert!(!res.trace.is_empty());
    assert_eq!(res.trace.last().unwrap().best_cut.0, 12.0);

    let job2 = StochasticJob {
        problem: ProblemSpec::Cycle { n: 10 },
        schedule: geometric(500, 0.1, 6.0),
        seed: 2,
        tempering: None,
    };
    let res2 = run_job(&job2);
    assert_eq!(res2.best_cut.0, 10.0);
    assert!(res2.exchange.is_none());
    assert_eq!(res2.ledger.sweeps, 500);
}

#[test]
fn stochastic_reaches_petersen_optimum() {
    let res = run_job(&StochasticJob {
        problem: ProblemSpec::Petersen,
        schedule: geometric(2000, 0.1, 5.0),
        seed: 42,
        tempering: None,
    });
    assert_eq!(res.best_cut.0, 12.0);
    assert_eq!(res.known_optimum, Some(12));
}

#[test]
fn energies_count_cuts() {
    let g = complete(6);
    let m = to_ising(&g);
    for mask in 0..64u64 {
        let s = assignment(mask, 6);
        let cut = cut_value(&g, &s);
        assert_eq!(total_weight(&g) - 2 * cut, m.energy(&s) as i128);
        assert_eq!(cut_of_energy(total_weight(&g), m.energy(&s)), cut);
    }
}

#[test]
fn greedy_classes_are_independent() {
    let m = random_model(30, 4);
    let (colors, n) = greedy_coloring(&m);
    assert_eq!(colors.len(), 30);
    for e in &m.j.entries {
        assert_ne!(colors[e.row as usize], colors[e.col as usize]);
    }
    assert_eq!(*colors.iter().max().unwrap() + 1, n);
    let g = GibbsSampler::new(&colors, n);
    let mut members = g.class_members.clone();
    members.sort();
    assert_eq!(members, (0..30u32).collect::<Vec<u32>>());
    assert_eq!(g.class_starts[0], 0);
    assert_eq!(g.class_starts[n as usize], 30);
    let path = IsingModel::new(
        vec![Real(0.0); 4],
        &vec![(0, 1, Real(1.0)), (1, 2, Real(1.0)), (2, 3, Real(1.0))],
    );
    assert_eq!(greedy_coloring(&path), (vec![0, 1, 0, 1], 2));
}

#[test]
fn clock_aligns_chunks_and_traces() {
    let mut clock = TemperClock::new(25, 10, 7);
    let ticks: Vec<Tick> = std::iter::from_fn(|| clock.tick()).collect();
    let seen: Vec<(u64, u64, bool, bool)> =
        ticks.iter().map(|t| (t.chunk, t.done, t.swap, t.trace)).collect();
    assert_eq!(
        seen,
        vec![(10, 10, true, true), (10, 20, true, true), (5, 25, false, true)]
    );
    assert_eq!(StochasticExecutor.trace_every(1000), 5);
    assert_eq!(StochasticExecutor.trace_every(100), 1);
}

#[test]
fn best_energy_only_falls() {
    let m = random_model(12, 2);
    let out = run_anneal(&m, &geometric(200, 0.1, 3.0), 4, 10);
    assert!(out.trace.windows(2).all(|w| w[1].best_energy.0 <= w[0].best_energy.0));
    assert_eq!(out.best_energy.0, m.energy(&out.best_state).0);
    assert_eq!(out.trace.len(), 21);
    assert_eq!(out.ledger.sweeps, 200);
    assert_eq!(out.ledger.spin_updates, 12 * 200);
}

#[test]
fn draws_decide_by_their_rules() {
    // at no field a spin is up for draws below one half
    assert!(conditional(Real(0.49), Real(3.0), Real(0.0), &exp));
    assert!(!conditional(Real(0.5), Real(3.0), Real(0.0), &exp));
    // 1 / (1 + e^-2) = 0.8807970779778823
    assert!(conditional(Real(0.8807), Real(0.5), Real(2.0), &exp));
    assert!(!conditional(Real(0.8808), Real(0.5), Real(2.0), &exp));
    // a log ratio that is not negative is always accepted
    for u in [0.0, 0.5, 0.999_999] {
        for x in [0.0, 0.1, 5.0] {
            assert!(accepts(Real(u), Real(x), &exp));
        }
    }
    // e^-1 = 0.36787944117144233
    assert!(accepts(Real(0.3678), Real(-1.0), &exp));
    assert!(!accepts(Real(0.3679), Real(-1.0), &exp));
}

#[test]
fn a_sweep_visits_every_spin_once() {
    let m = random_model(12, 5);
    let mut seen = sampler(&m).class_members.clone();
    seen.sort_unstable();
    assert_eq!(seen, (0..12).collect::<Vec<u32>>());
}

#[test]
fn unfit_jobs_are_refused_with_a_reason() {
    let job = |problem: ProblemSpec, sweeps: u64, tempering: Option<TemperingSpec<Real>>| {
        StochasticJob { problem, schedule: geometric(sweeps, 0.1, 6.0), seed: 0, tempering }
    };
    let why = |problem: ProblemSpec| job(problem, 10, None).check().unwrap_err();
    let regular = |n: usize, degree: usize| ProblemSpec::RandomRegular { n, degree, seed: 1 };
    let many = u32::MAX as usize;
    assert_eq!(why(regular(5, 3)), StochasticFault::OddEnds);
    assert_eq!(why(regular(5, 3)).message(), "n*d must be even");
    assert_eq!(why(regular(4, 4)), StochasticFault::DegreeTooLarge);
    assert_eq!(why(regular(usize::MAX, 2)), StochasticFault::TooManyEdges);
    assert_eq!(why(ProblemSpec::Cycle { n: 1 }), StochasticFault::SelfCoupling);
    assert_eq!(why(ProblemSpec::Complete { n: many }), StochasticFault::TooManyVertices);
    let wide = ProblemSpec::CompleteBipartite { a: usize::MAX, b: 2 };
    assert_eq!(why(wide), StochasticFault::TooManyEdges);
    let fault = |sweeps: u64, t: TemperingSpec<Real>| {
        job(ProblemSpec::Petersen, sweeps, Some(t)).check().unwrap_err()
    };
    let rungs = |k: usize, lo: f64| ladder(k, lo, 6.0, 10, Ladder::Geometric);
    assert_eq!(fault(10, rungs(0, 0.1)), StochasticFault::NoReplica);
    assert_eq!(fault(10, rungs(2, 0.0)), StochasticFault::LadderEnds);
    assert_eq!(fault(10, rungs(2, 7.0)), StochasticFault::LadderEnds);
    assert_eq!(fault(10, rungs(2, f64::NAN)), StochasticFault::LadderEnds);
    assert_eq!(fault(u64::MAX / 10, rungs(2, 0.1)), StochasticFault::TooManyUpdates);
    assert!(job(ProblemSpec::Petersen, 10, Some(rungs(2, 0.1))).check().is_ok());
    let empty = job(ProblemSpec::Complete { n: 0 }, u64::MAX, Some(rungs(2, 0.1)));
    assert_eq!(empty.check(), Err(StochasticFault::TooManySweeps));
}
