//! Cost models, dispatch and presets.

use tei_fabric::cost::catalog::{Catalog, OpProfile, Primitive, Thermo};
use tei_fabric::cost::dialects::{
    Cost, InMemoryParams, NeuromorphicParams, PhotonicParams, Physics,
};
use tei_fabric::cost::dispatch::{
    dispatch, substrates_with_params, Constraints, Dialect, DispatchPlan, Invocation,
    Justification, SubstrateParams, Workload,
};
use tei_fabric::cost::presets::enumerate_presets;
use tei_fabric::scalar::Scalar;

/// Double-precision samples.
#[derive(Debug, Clone, Copy, PartialEq, PartialOrd)]
struct Real(f64);

impl Scalar for Real {
    fn zero_value() -> Self {
        Real(0.0)
    }

    fn sum(self, rhs: Self) -> Self {
        Real(self.0 + rhs.0)
    }

    fn difference(self, rhs: Self) -> Self {
        Real(self.0 - rhs.0)
    }

    fn product(self, rhs: Self) -> Self {
        Real(self.0 * rhs.0)
    }

    fn at_least(self, threshold: Self) -> bool {
        self.0 >= threshold.0
    }

    fn less_than(self, rhs: Self) -> bool {
        self.0 < rhs.0
    }

    fn quotient(self, rhs: Self) -> Self {
        Real(self.0 / rhs.0)
    }

    fn negative(self) -> Self {
        Real(-self.0)
    }

    fn rank(self) -> u64 {
        let bits = self.0.to_bits();
        if bits >> 63 == 1 {
            !bits
        } else {
            bits | 1 << 63
        }
    }

    fn of_count(n: u64) -> Self {
        Real(n as f64)
    }

    fn zero() -> Self {
        Real(0.0)
    }

    fn plus(self, rhs: Self) -> Self {
        Real(self.0 + rhs.0)
    }

    fn minus(self, rhs: Self) -> Self {
        Real(self.0 - rhs.0)
    }

    fn times(self, rhs: Self) -> Self {
        Real(self.0 * rhs.0)
    }

    fn reaches(self, threshold: Self) -> bool {
        self.0 >= threshold.0
    }

    fn below(self, rhs: Self) -> bool {
        self.0 < rhs.0
    }

    fn over(self, rhs: Self) -> Self {
        Real(self.0 / rhs.0)
    }

    fn opposite(self) -> Self {
        Real(-self.0)
    }

    fn precedes(self, rhs: Self) -> bool {
        self.0.total_cmp(&rhs.0) == std::cmp::Ordering::Less
    }

    fn from_count(n: u64) -> Self {
        Real(n as f64)
    }
}

fn physics() -> Physics<Real> {
    Physics {
        landauer: Real(2.85e-21),
        pbit_j_per_sample: Real(1.0e-15),
        readout_j_per_sweep: Real(1.0e-12),
        photonic_default_j: Real(30e-15),
        in_memory_default_j: Real(10e-15),
        photonic_loss: Real(0.005),
        in_memory_loss: Real(0.01),
        neuromorphic_loss: Real(0.02),
        laser_floor: Real(0.01),
        default_activity: Real(0.1),
        least_rate: Real(1e-9),
    }
}

fn params() -> SubstrateParams<Real> {
    SubstrateParams {
        photonic: PhotonicParams {
            wdm_channels: 1,
            modulator_j_per_bit: Real(1.0e-15),
            adc_j_per_sample: Real(1.0e-12),
            laser_efficiency: Real(0.10),
            optical_j_per_mac: Real(0.5e-15),
        },
        in_memory: InMemoryParams {
            crossbar_size: 256,
            device_j_per_mac: Real(1.0e-15),
            dac_j_per_bit: Real(1.0e-15),
            adc_j_per_sample: Real(1.0e-12),
        },
        neuromorphic: NeuromorphicParams {
            sop_j: Real(20.0e-12),
            neuron_update_j: Real(60.0e-12),
            plasticity_j: Real(40.0e-12),
            default_fanout: 128,
        },
    }
}

fn entry(id: u32, name: &str, family: &str, thermo: &str, bennett: bool) -> Primitive {
    Primitive {
        id,
        name: name.to_string(),
        family: family.to_string(),
        thermo: thermo.to_string(),
        is_l0: thermo.starts_with("L0"),
        is_l1: thermo == "L1",
        has_bennett: bennett,
    }
}

fn catalog() -> Catalog {
    Catalog {
        primitives: vec![
            entry(18, "Dense MatMul", "LA", "L2", true),
            entry(39, "MCMC / Langevin step", "PROB", "L1", false),
            entry(50, "LIF neuron", "NEURO", "L2", false),
            entry(51, "STDP", "NEURO", "L2", false),
            entry(79, "DCT", "TR", "L2", true),
            entry(258, "Simulated annealing", "PROB", "L1", false),
            entry(3, "Branch", "CTL", "L2", false),
        ],
    }
}

fn find(id: u32) -> Primitive {
    let c = catalog();
    let k = c.get(id).expect("in catalog");
    c.primitives[k].clone()
}

fn profile(dims: &[u64], reduce_dim: Option<u64>, bits: u64) -> OpProfile<Real> {
    let elements: u64 = dims.iter().product();
    OpProfile {
        elements,
        reduce_dim,
        batch: 1,
        operand_bits: bits,
        sparsity: Real(0.0),
        sweeps: None,
        variables: None,
        matmul_macs: reduce_dim.map(|k| elements * k),
        sample_events: None,
    }
}

fn matmul_profile() -> OpProfile<Real> {
    profile(&[512, 2048], Some(768), 16)
}

fn sampling_profile() -> OpProfile<Real> {
    OpProfile {
        sweeps: Some(10_000),
        variables: Some(1024),
        sample_events: Some(10_000 * 1024),
        ..profile(&[1024], None, 8)
    }
}

fn snn_profile() -> OpProfile<Real> {
    OpProfile {
        sparsity: Real(0.9),
        sweeps: Some(1000),
        variables: Some(4096),
        sample_events: Some(1000 * 4096),
        ..profile(&[4096], Some(128), 8)
    }
}

fn call(id: u32, label: &str, profile: OpProfile<Real>) -> Invocation<Real> {
    Invocation { primitive_id: id, count: 1, profile, label: label.to_string() }
}

fn plan(invocations: Vec<Invocation<Real>>) -> DispatchPlan<Real> {
    let workload = Workload {
        goal: "test".to_string(),
        invocations,
        constraints: Constraints {
            cycles_per_second: Real(30.0),
            power_budget_w: Real(5.0),
            volume: 10_000,
        },
    };
    dispatch(&catalog(), &workload, &substrates_with_params(&params()), &physics())
}

fn cost(d: Dialect<Real>, id: u32, f: &OpProfile<Real>) -> Cost<Real> {
    d.cost(&physics(), &find(id), f)
}

#[test]
fn six_substrates_registered() {
    let names: Vec<&str> = substrates_with_params(&params()).iter().map(|s| s.name()).collect();
    assert_eq!(names.len(), 6);
    assert_eq!(
        names,
        vec!["baseline", "photonic", "in-memory", "stochastic", "reversible", "neuromorphic"]
    );
}

#[test]
fn matmul_routes_to_in_memory() {
    let plan = plan(vec![call(18, "matmul", matmul_profile())]);
    assert_eq!(plan.assignments[0].chosen_substrate, "in-memory");
    let s = plan.summary.savings_factor.0;
    assert!(s > 5_000.0 && s < 10_000.0, "savings {s} outside expected band");
}

#[test]
fn mcmc_routes_to_stochastic() {
    let plan = plan(vec![call(39, "sampling", sampling_profile())]);
    assert_eq!(plan.assignments[0].chosen_substrate, "stochastic");
}

#[test]
fn lif_routes_to_neuromorphic() {
    let plan = plan(vec![call(50, "snn", snn_profile())]);
    assert_eq!(plan.assignments[0].chosen_substrate, "neuromorphic");
}

#[test]
fn dct_routes_to_reversible() {
    let plan = plan(vec![call(79, "dct", profile(&[1024, 1024], Some(1024), 16))]);
    assert_eq!(plan.assignments[0].chosen_substrate, "reversible");
}

#[test]
fn unknown_primitive_skipped_quietly() {
    let plan = plan(vec![call(99_999, "matmul", matmul_profile())]);
    assert!(plan.assignments.is_empty());
    assert_eq!(plan.summary.invocations_processed, 0);
    assert_eq!(plan.summary.savings_factor, Real(1.0));
}

#[test]
fn mixed_workload_fans_out() {
    let plan = plan(vec![
        call(18, "matmul", matmul_profile()),
        call(258, "sampling", sampling_profile()),
        call(50, "snn", snn_profile()),
    ]);
    let chosen: Vec<&str> =
        plan.assignments.iter().map(|a| a.chosen_substrate.as_str()).collect();
    assert_eq!(chosen, vec!["in-memory", "stochastic", "neuromorphic"]);
    let sum: f64 = plan.assignments.iter().map(|a| a.chosen_joules_total.0).sum();
    assert!((plan.summary.total_joules.0 - sum).abs() / sum < 1e-12);
    let counted: u64 = plan.summary.per_substrate_joules.iter().map(|a| a.op_count).sum();
    assert_eq!(counted, 3);
    assert_eq!(plan.summary.power_w.0, plan.summary.total_joules.0 * 30.0);
    assert!(plan.summary.within_budget);
}

#[test]
fn crossbar_mac_in_published_band() {
    let macs = (512u64 * 768 * 2048) as f64;
    let c = cost(Dialect::InMemory(params().in_memory), 18, &matmul_profile());
    let per_mac = c.joules_per_op.0 / macs;
    assert!(per_mac > 1e-15 && per_mac < 30e-15, "per-MAC {per_mac} outside 1-30 fJ band");
    // Three tiles of 256 rows hold the reduction.
    let elems = (512u64 * 2048) as f64;
    let expected = macs * 1e-15 + (macs / 768.0) * 16.0 * 1e-15 + elems * 3.0 * 1e-12;
    assert_eq!(c.joules_per_op.0, expected);
    assert_eq!(c.seconds_per_op.0, elems * 3.0 / 1e10);
}

#[test]
fn larger_crossbar_is_cheaper() {
    let sized = |n: u32| {
        let p = InMemoryParams { crossbar_size: n, ..params().in_memory };
        cost(Dialect::InMemory(p), 18, &matmul_profile()).joules_per_op
    };
    assert!(sized(1024) < sized(64));
    assert_eq!(sized(0), sized(1));
}

#[test]
fn lif_anchor_1_294_mj() {
    let c = cost(Dialect::Neuromorphic(params().neuromorphic), 50, &snn_profile());
    let events = 4096.0 * 1000.0 * 0.1;
    let expected = events * 128.0 * 20.0e-12 + 4096.0 * 1000.0 * 60.0e-12;
    assert!((c.joules_per_op.0 - expected).abs() / expected < 1e-9);
}

#[test]
fn stdp_costs_more_than_lif() {
    let d = Dialect::Neuromorphic(params().neuromorphic);
    let f = snn_profile();
    assert!(cost(d, 51, &f).joules_per_op > cost(d, 50, &f).joules_per_op);
}

#[test]
fn claims_neuro_family_only() {
    let d = Dialect::Neuromorphic(params().neuromorphic);
    assert!(d.supports(&find(50)));
    assert!(d.supports(&find(51)));
    assert!(!d.supports(&find(18)));
}

#[test]
fn photonic_mac_in_published_band() {
    let macs = (512u64 * 768 * 2048) as f64;
    let c = cost(Dialect::Photonic(params().photonic), 18, &matmul_profile());
    let per_mac = c.joules_per_op.0 / macs;
    assert!(per_mac > 10e-15 && per_mac < 100e-15, "per-MAC {per_mac} outside 10-100 fJ band");
}

#[test]
fn photonic_term_decomposition() {
    let macs = (512u64 * 768 * 2048) as f64;
    let result_elems = (512u64 * 2048) as f64;
    let expected =
        macs * 0.5e-15 / 0.10 + 2.0 * macs * 16.0 * 1.0e-15 + result_elems * 1.0e-12;
    let c = cost(Dialect::Photonic(params().photonic), 18, &matmul_profile());
    assert!((c.joules_per_op.0 - expected).abs() / expected < 1e-9);
}

#[test]
fn wdm_parallelizes_time_not_energy() {
    let wide = PhotonicParams { wdm_channels: 16, ..params().photonic };
    let c1 = cost(Dialect::Photonic(params().photonic), 18, &matmul_profile());
    let c16 = cost(Dialect::Photonic(wide), 18, &matmul_profile());
    assert!((c1.joules_per_op.0 - c16.joules_per_op.0).abs() / c1.joules_per_op.0 < 1e-12);
    assert!((c1.seconds_per_op.0 / c16.seconds_per_op.0 - 16.0).abs() < 1e-9);
}

#[test]
fn ising_anchor_20_24_nj() {
    let c = cost(Dialect::Stochastic, 39, &sampling_profile());
    let expected = 1024.0 * 10_000.0 * 1.0e-15 + 10_000.0 * 1.0e-12;
    assert!((c.joules_per_op.0 - expected).abs() / expected < 1e-9);
    assert_eq!(c.seconds_per_op.0, 10_000.0 / 1e9);
}

#[test]
fn baseline_counts_the_work() {
    let per_mac = 64.0 * 2.85e-21 * 2e8;
    let c = cost(Dialect::Baseline, 18, &matmul_profile());
    assert_eq!(c.joules_per_op.0, per_mac * (512u64 * 768 * 2048) as f64);
    let s = cost(Dialect::Baseline, 39, &sampling_profile());
    assert_eq!(s.joules_per_op.0, 32.0 * 2.85e-21 * 1e9 * 10_240_000.0);
    // Every synapse in every timestep, fired or not.
    let n = cost(Dialect::Baseline, 50, &snn_profile());
    assert_eq!(n.joules_per_op.0, per_mac * (4096.0 * 1000.0 * 128.0));
    assert_eq!(cost(Dialect::Baseline, 3, &matmul_profile()).joules_per_op.0, per_mac);
}

#[test]
fn reversible_pays_for_its_irreversible_share() {
    let floor = 64.0 * 2.85e-21;
    let dct = cost(Dialect::Reversible, 79, &matmul_profile());
    assert_eq!(dct.joules_per_op.0, 1.0 * 1e3 * floor);
    let mm = cost(Dialect::Reversible, 18, &matmul_profile());
    let per = 0.9 * 1e3 * floor + (1.0 - 0.9) * 2e8 * floor;
    assert_eq!(mm.joules_per_op.0, per * (512u64 * 768 * 2048) as f64);
}

#[test]
fn unsupported_work_stays_on_the_baseline() {
    let plan = plan(vec![call(3, "branch", profile(&[1], None, 8))]);
    let a = &plan.assignments[0];
    assert_eq!(a.chosen_substrate, "baseline");
    assert_eq!(a.considered.len(), 6);
    assert_eq!(a.considered.iter().filter(|o| o.supported).count(), 1);
    match &a.justification {
        Justification::Stays(line) => assert_eq!(
            line,
            "No specialized substrate supports Branch — stays on baseline."
        ),
        Justification::Cheaper(..) => panic!("went elsewhere"),
    }
    assert!(a.chosen_joules_total <= a.baseline_joules_total);
}

#[test]
fn thermo_classes_by_name() {
    let class = |t: &str| entry(1, "x", "y", t, false).class();
    assert_eq!(class("L0-free"), Thermo::L0);
    assert_eq!(class("L1"), Thermo::L1);
    assert_eq!(class("L2max"), Thermo::L2Max);
    assert_eq!(class("L2+L3"), Thermo::L2);
    assert_eq!(class("?"), Thermo::L2);
}

#[test]
fn presets_from_the_catalog() {
    let presets = enumerate_presets(&catalog(), &substrates_with_params(&params()));
    let keys: Vec<&str> = presets.iter().map(|p| p.key.as_str()).collect();
    assert_eq!(
        keys,
        vec![
            "showcase-photonic",
            "showcase-in-memory",
            "showcase-stochastic",
            "showcase-reversible",
            "showcase-neuromorphic",
            "family-la",
            "family-prob",
            "family-tr",
        ]
    );
    assert_eq!(presets[0].label, "Photonic (MZI mesh) · 1 native op");
    assert_eq!(presets[2].label, "Stochastic (sMTJ p-bits) · 2 native ops");
    assert_eq!(presets[2].invocations[0].profile.sweeps, Some(10_000));
    assert_eq!(presets[2].invocations[0].label, "MCMC / Langevin step");
    assert_eq!(presets[0].invocations[0].profile.dims, vec![512, 2048]);
    assert_eq!(presets[6].label, "Probabilistic family · 2 primitives");
    assert_eq!(presets[6].goal, "Probabilistic family");
}

#[test]
fn figures_have_sources() {
    let subs = substrates_with_params(&params());
    let counts: Vec<usize> = subs.iter().map(|s| s.citations().len()).collect();
    assert_eq!(counts, vec![3, 6, 6, 5, 6, 5]);
    assert_eq!(subs[0].citations()[1], "Landauer 1961, IBM J. Res. Dev. 5(3): 183.");
    assert!(subs[5].citations()[0].contains("Loihi, 23.6 pJ/SOP"));
}

#[test]
fn adiabatic_logic_counts_as_the_baseline() {
    let ops = |d: Dialect<Real>, p: &Primitive, f: &OpProfile<Real>, rate: f64| -> f64 {
        d.cost(&physics(), p, f).seconds_per_op.0 * rate
    };
    let krylov = entry(78, "Krylov step", "LA", "L2", true);
    let spiking = entry(50, "LIF neuron", "NEURO", "L2", true);
    let cases = [
        (find(18), matmul_profile(), 512.0 * 2048.0 * 768.0),
        (krylov, matmul_profile(), 1.0),
        (find(39), sampling_profile(), 10_000.0 * 1024.0),
        (spiking, snn_profile(), 4096.0 * 1000.0 * 128.0),
    ];
    for (p, f, want) in &cases {
        assert!((ops(Dialect::Baseline, p, f, 6.6e9) / want - 1.0).abs() < 1e-12);
        assert!((ops(Dialect::Reversible, p, f, 1.0e9) / want - 1.0).abs() < 1e-12);
    }
}
