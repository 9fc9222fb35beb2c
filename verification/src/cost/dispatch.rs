//! The dispatcher: each invocation goes to the supporting substrate with the
//! least energy, and the assignments roll up into a plan.
//!
//! Invocations are assigned one by one, independently of each other.

use crate::cost::catalog::{Catalog, OpProfile, Primitive};
use crate::cost::dialects::{is_crossbar, is_photonic, is_sampling, result_elements};
use crate::cost::dialects::{
    crossbar_class, photonic_class, sampling_class, Baseline, Cost, InMemoryParams,
    NeuromorphicParams, PhotonicParams, Physics, Reversible, Stochastic, NEURO_FAMILY,
};
use crate::scalar::{lemma_running_push, running, Scalar};
use crate::text::same_text;
use vstd::prelude::*;

verus! {

/// A registered substrate.
#[derive(Debug, Clone, Copy)]
pub enum Dialect<T> {
    Baseline,
    Photonic(PhotonicParams<T>),
    InMemory(InMemoryParams<T>),
    Stochastic,
    Reversible,
    Neuromorphic(NeuromorphicParams<T>),
}

/// Name by which the comparator is found.
pub const BASELINE_NAME: &'static str = "baseline";

impl<T: Scalar> Dialect<T> {
    pub open spec fn named(self) -> Seq<char> {
        match self {
            Dialect::Baseline => "baseline"@,
            Dialect::Photonic(_) => "photonic"@,
            Dialect::InMemory(_) => "in-memory"@,
            Dialect::Stochastic => "stochastic"@,
            Dialect::Reversible => "reversible"@,
            Dialect::Neuromorphic(_) => "neuromorphic"@,
        }
    }

    pub open spec fn shown(self) -> Seq<char> {
        match self {
            Dialect::Baseline => "CPU / GPU baseline"@,
            Dialect::Photonic(_) => "Photonic (MZI mesh)"@,
            Dialect::InMemory(_) => "In-memory (RRAM crossbar)"@,
            Dialect::Stochastic => "Stochastic (sMTJ p-bits)"@,
            Dialect::Reversible => "Reversible (adiabatic CMOS)"@,
            Dialect::Neuromorphic(_) => "Neuromorphic (LIF spiking)"@,
        }
    }

    /// Which primitives the substrate runs natively: the baseline all of them,
    /// the reversible one what the catalog has a reversible kernel of, the
    /// spiking one its family, the others a fixed list.
    pub open spec fn runs(self, p: Primitive) -> bool {
        match self {
            Dialect::Baseline => true,
            Dialect::Photonic(_) => is_photonic(p.id),
            Dialect::InMemory(_) => is_crossbar(p.id),
            Dialect::Stochastic => is_sampling(p.id),
            Dialect::Reversible => p.has_bennett,
            Dialect::Neuromorphic(_) => p.family@ == NEURO_FAMILY@,
        }
    }

    /// The counts that the cost model multiplies can be held.
    pub open spec fn countable(self, f: OpProfile<T>) -> bool {
        match self {
            Dialect::Photonic(_) => result_elements(f) <= u64::MAX,
            Dialect::InMemory(_) => result_elements(f) <= u64::MAX,
            Dialect::Stochastic => Stochastic::countable(f),
            _ => true,
        }
    }

    pub open spec fn priced(self, ph: Physics<T>, p: Primitive, f: OpProfile<T>) -> Cost<T> {
        match self {
            Dialect::Baseline => Baseline::priced(ph, p, f),
            Dialect::Photonic(d) => d.priced(ph, p, f),
            Dialect::InMemory(d) => d.priced(ph, p, f),
            Dialect::Stochastic => Stochastic::priced(ph, f),
            Dialect::Reversible => Reversible::priced(ph, p, f),
            Dialect::Neuromorphic(d) => d.priced(ph, p, f),
        }
    }

    /// Sources of the substrate's figures.
    pub open spec fn cited(self) -> Seq<Seq<char>> {
        match self {
            Dialect::Baseline => seq![
                "NVIDIA Jetson Orin Nano datasheet (7 W TDP, ~200 GOPS INT8 @ 30 fps)."@,
                "Landauer 1961, IBM J. Res. Dev. 5(3): 183."@,
                "Bérut et al. 2012, Nature 483: 187 (experimental verification of kT·ln(2))."@,
            ],
            Dialect::Photonic(_) => seq![
                "Shen et al. 2017, Nature Photonics 11: 441 — MZI-mesh ONN."@,
                "Wang et al. 2018, Nature 562: 101 — TFLN modulators (~1 fJ/bit)."@,
                "Tait et al. 2017, Sci. Reports 7: 7430 — broadcast-and-weight."@,
                "Hamerly et al. 2019, Phys. Rev. X 9: 021032 — large-scale ONN scaling."@,
                "Bandyopadhyay et al. 2022, Optica 9: 1364 — energy-resolved photonic NN."@,
                "Murmann ADC survey 2020-2024 — ADC energy floor."@,
            ],
            Dialect::InMemory(_) => seq![
                "Wan et al. 2022, Nature 608: 504 — NeuRRAM 48-tile compute-in-memory."@,
                "Khaddam-Aljameh et al. 2022, JSSC 57: 1027 — IBM HERMES."@,
                "Le Gallo et al. 2023, Nature Electronics 6: 680 — PCM crossbar inference."@,
                "Joshi et al. 2020, Nature Comms 11: 2473 — PCM analog AI."@,
                "Sandia CrossSim v3.0 (2024) — reference simulator."@,
                "Murmann ADC survey 2020-2024."@,
            ],
            Dialect::Stochastic => seq![
                "Camsari et al. 2017, Phys. Rev. X 7: 031014 — p-bit foundational."@,
                "Borders et al. 2019, Nature 573: 390 — sMTJ p-bit integer factorization."@,
                "Aadit et al. 2024, Nature Comms 15: 8977 — sparse + higher-order Ising."@,
                "Extropic Z1 architecture announcement (Oct 2025) + thrml v0.1.3."@,
                "thrml (github.com/extropic-ai/thrml) — JAX reference sampler."@,
            ],
            Dialect::Reversible => seq![
                "DeBenedictis 2020, arXiv:2009.00448 — S2LAL static 2-level adiabatic."@,
                "Frank 2017, Computing Communities Consortium — adiabatic fundamental limits."@,
                "DeBenedictis aa (github.com/erikdebenedictis) — ngspice adiabatic-analysis framework."@,
                "Bennett 1989, SIAM J. Comput. 18(4): 766 — reversible computation tradeoffs."@,
                "Vaire Computing 2024 — commercial reversible-CMOS prototype."@,
                "16-bit adiabatic microprocessor on FDSOI 90nm — DeBenedictis group."@,
            ],
            Dialect::Neuromorphic(_) => seq![
                "Davies et al. 2018, IEEE Micro 38(1): 82 — Loihi, 23.6 pJ/SOP."@,
                "Merolla et al. 2014, Science 345: 668 — TrueNorth, 26 pJ/SOP."@,
                "Orchard et al. 2021, IEEE SiPS — Loihi 2 architecture."@,
                "Höppner et al. 2021, arXiv:2103.08392 — SpiNNaker 2 energy figures."@,
                "Pedersen et al. 2024, Neuromorphic Comput. Eng. — NIR cross-platform SNN IR."@,
            ],
        }
    }

    /// Stable name of the substrate.
    pub fn name(&self) -> (r: &'static str)
        ensures
            r@ == self.named(),
    {
        match self {
            Dialect::Baseline => "baseline",
            Dialect::Photonic(_) => "photonic",
            Dialect::InMemory(_) => "in-memory",
            Dialect::Stochastic => "stochastic",
            Dialect::Reversible => "reversible",
            Dialect::Neuromorphic(_) => "neuromorphic",
        }
    }

    /// Name of the substrate for people.
    pub fn display_name(&self) -> (r: &'static str)
        ensures
            r@ == self.shown(),
    {
        match self {
            Dialect::Baseline => "CPU / GPU baseline",
            Dialect::Photonic(_) => "Photonic (MZI mesh)",
            Dialect::InMemory(_) => "In-memory (RRAM crossbar)",
            Dialect::Stochastic => "Stochastic (sMTJ p-bits)",
            Dialect::Reversible => "Reversible (adiabatic CMOS)",
            Dialect::Neuromorphic(_) => "Neuromorphic (LIF spiking)",
        }
    }

    /// Sources of the substrate's figures.
    pub fn citations(&self) -> (r: Vec<&'static str>)
        ensures
            r@.len() == self.cited().len(),
            forall|k: int| 0 <= k < r@.len() ==> (#[trigger] r@[k])@ == self.cited()[k],
    {
        match self {
            Dialect::Baseline => vec![
                "NVIDIA Jetson Orin Nano datasheet (7 W TDP, ~200 GOPS INT8 @ 30 fps).",
                "Landauer 1961, IBM J. Res. Dev. 5(3): 183.",
                "Bérut et al. 2012, Nature 483: 187 (experimental verification of kT·ln(2)).",
            ],
            Dialect::Photonic(_) => vec![
                "Shen et al. 2017, Nature Photonics 11: 441 — MZI-mesh ONN.",
                "Wang et al. 2018, Nature 562: 101 — TFLN modulators (~1 fJ/bit).",
                "Tait et al. 2017, Sci. Reports 7: 7430 — broadcast-and-weight.",
                "Hamerly et al. 2019, Phys. Rev. X 9: 021032 — large-scale ONN scaling.",
                "Bandyopadhyay et al. 2022, Optica 9: 1364 — energy-resolved photonic NN.",
                "Murmann ADC survey 2020-2024 — ADC energy floor.",
            ],
            Dialect::InMemory(_) => vec![
                "Wan et al. 2022, Nature 608: 504 — NeuRRAM 48-tile compute-in-memory.",
                "Khaddam-Aljameh et al. 2022, JSSC 57: 1027 — IBM HERMES.",
                "Le Gallo et al. 2023, Nature Electronics 6: 680 — PCM crossbar inference.",
                "Joshi et al. 2020, Nature Comms 11: 2473 — PCM analog AI.",
                "Sandia CrossSim v3.0 (2024) — reference simulator.",
                "Murmann ADC survey 2020-2024.",
            ],
            Dialect::Stochastic => vec![
                "Camsari et al. 2017, Phys. Rev. X 7: 031014 — p-bit foundational.",
                "Borders et al. 2019, Nature 573: 390 — sMTJ p-bit integer factorization.",
                "Aadit et al. 2024, Nature Comms 15: 8977 — sparse + higher-order Ising.",
                "Extropic Z1 architecture announcement (Oct 2025) + thrml v0.1.3.",
                "thrml (github.com/extropic-ai/thrml) — JAX reference sampler.",
            ],
            Dialect::Reversible => vec![
                "DeBenedictis 2020, arXiv:2009.00448 — S2LAL static 2-level adiabatic.",
                "Frank 2017, Computing Communities Consortium — adiabatic fundamental limits.",
                "DeBenedictis aa (github.com/erikdebenedictis) — ngspice adiabatic-analysis framework.",
                "Bennett 1989, SIAM J. Comput. 18(4): 766 — reversible computation tradeoffs.",
                "Vaire Computing 2024 — commercial reversible-CMOS prototype.",
                "16-bit adiabatic microprocessor on FDSOI 90nm — DeBenedictis group.",
            ],
            Dialect::Neuromorphic(_) => vec![
                "Davies et al. 2018, IEEE Micro 38(1): 82 — Loihi, 23.6 pJ/SOP.",
                "Merolla et al. 2014, Science 345: 668 — TrueNorth, 26 pJ/SOP.",
                "Orchard et al. 2021, IEEE SiPS — Loihi 2 architecture.",
                "Höppner et al. 2021, arXiv:2103.08392 — SpiNNaker 2 energy figures.",
                "Pedersen et al. 2024, Neuromorphic Comput. Eng. — NIR cross-platform SNN IR.",
            ],
        }
    }

    /// Whether the substrate runs a primitive natively.
    pub fn supports(&self, p: &Primitive) -> (r: bool)
        ensures
            r == self.runs(*p),
    {
        match self {
            Dialect::Baseline => true,
            Dialect::Photonic(_) => photonic_class(p.id),
            Dialect::InMemory(_) => crossbar_class(p.id),
            Dialect::Stochastic => sampling_class(p.id),
            Dialect::Reversible => p.has_bennett,
            Dialect::Neuromorphic(_) => same_text(p.family.as_str(), NEURO_FAMILY),
        }
    }

    /// Cost of one invocation there.
    pub fn cost(&self, ph: &Physics<T>, p: &Primitive, f: &OpProfile<T>) -> (r: Cost<T>)
        requires
            self.countable(*f),
        ensures
            r == self.priced(*ph, *p, *f),
    {
        match self {
            Dialect::Baseline => Baseline.cost(ph, p, f),
            Dialect::Photonic(d) => d.cost(ph, p, f),
            Dialect::InMemory(d) => d.cost(ph, p, f),
            Dialect::Stochastic => Stochastic.cost(ph, f),
            Dialect::Reversible => Reversible.cost(ph, p, f),
            Dialect::Neuromorphic(d) => d.cost(ph, p, f),
        }
    }
}

/// Engineering parameters of the substrates that expose them.
#[derive(Debug, Clone, Copy)]
pub struct SubstrateParams<T> {
    pub photonic: PhotonicParams<T>,
    pub in_memory: InMemoryParams<T>,
    pub neuromorphic: NeuromorphicParams<T>,
}

/// The standard substrate set: baseline, photonic, in-memory, stochastic,
/// reversible, neuromorphic.
pub fn substrates_with_params<T: Scalar>(params: &SubstrateParams<T>) -> (r: Vec<Dialect<T>>)
    ensures
        r@ == seq![
            Dialect::Baseline,
            Dialect::Photonic(params.photonic),
            Dialect::InMemory(params.in_memory),
            Dialect::Stochastic,
            Dialect::Reversible,
            Dialect::Neuromorphic(params.neuromorphic),
        ],
{
    let mut r: Vec<Dialect<T>> = Vec::new();
    r.push(Dialect::Baseline);
    r.push(Dialect::Photonic(params.photonic));
    r.push(Dialect::InMemory(params.in_memory));
    r.push(Dialect::Stochastic);
    r.push(Dialect::Reversible);
    r.push(Dialect::Neuromorphic(params.neuromorphic));
    r
}

/// One primitive to run, so many times.
#[derive(Debug, Clone)]
pub struct Invocation<T> {
    pub primitive_id: u32,
    pub count: u64,
    pub profile: OpProfile<T>,
    pub label: String,
}

/// What a workload is held to.
#[derive(Debug, Clone, Copy)]
pub struct Constraints<T> {
    pub cycles_per_second: T,
    pub power_budget_w: T,
    pub volume: u64,
}

/// A list of invocations with its goal.
#[derive(Debug, Clone)]
pub struct Workload<T> {
    pub goal: String,
    pub invocations: Vec<Invocation<T>>,
    pub constraints: Constraints<T>,
}

/// One row of the table that the dispatcher looked at.
#[derive(Debug, Clone)]
pub struct SubstrateOption<T> {
    pub substrate: String,
    pub display: String,
    pub supported: bool,
    pub cost: Option<Cost<T>>,
    pub joules_total: Option<T>,
}

impl<T: Scalar> SubstrateOption<T> {
    /// The row of one substrate: names, support, and, where it is supported,
    /// the cost of one invocation and the energy of all of them.
    pub open spec fn is_row(
        &self,
        d: Dialect<T>,
        ph: Physics<T>,
        p: Primitive,
        f: OpProfile<T>,
        count: u64,
    ) -> bool {
        &&& self.substrate@ == d.named()
        &&& self.display@ == d.shown()
        &&& self.supported == d.runs(p)
        &&& self.cost == (if d.runs(p) {
            Some(d.priced(ph, p, f))
        } else {
            None
        })
        &&& self.joules_total == (if d.runs(p) {
            Some(d.priced(ph, p, f).joules_for(count))
        } else {
            None
        })
    }
}

/// Why an invocation went where it went.
#[derive(Debug, Clone)]
pub enum Justification<T> {
    /// It stays on the baseline; the line says so.
    Stays(String),
    /// It went elsewhere: energies per operation here and on the baseline, and
    /// how many times fewer joules (`None`: no joules at all).
    Cheaper(T, T, Option<T>),
}

/// The line for an invocation that stays on the baseline.
pub open spec fn stays_line(name: Seq<char>) -> Seq<char> {
    "No specialized substrate supports "@ + name + " — stays on baseline."@
}

/// One invocation's assignment.
#[derive(Debug, Clone)]
pub struct Assignment<T> {
    pub primitive_id: u32,
    pub primitive_name: String,
    pub family: String,
    pub thermo: String,
    pub count: u64,
    pub label: String,
    pub chosen_substrate: String,
    pub chosen_display: String,
    pub chosen_cost: Cost<T>,
    pub chosen_joules_total: T,
    pub chosen_seconds_total: T,
    pub baseline_cost: Cost<T>,
    pub baseline_joules_total: T,
    pub considered: Vec<SubstrateOption<T>>,
    pub justification: Justification<T>,
}

/// Whether `k` is the first place of the comparator.
pub open spec fn baseline_at<T: Scalar>(ds: Seq<Dialect<T>>, k: int) -> bool {
    &&& 0 <= k < ds.len()
    &&& ds[k].named() == BASELINE_NAME@
    &&& forall|m: int| 0 <= m < k ==> (#[trigger] ds[m]).named() != BASELINE_NAME@
}

/// Place of a supported substrate's energy in the total order of samples.
pub open spec fn energy_rank<T: Scalar>(
    d: Dialect<T>,
    ph: Physics<T>,
    p: Primitive,
    f: OpProfile<T>,
    count: u64,
) -> int {
    d.priced(ph, p, f).joules_for(count).rank() as int
}

/// Whether `k` is the supporting substrate with the least energy among the
/// first `n`; among equals, the first.
pub open spec fn cheapest<T: Scalar>(
    ds: Seq<Dialect<T>>,
    n: int,
    ph: Physics<T>,
    p: Primitive,
    f: OpProfile<T>,
    count: u64,
    k: int,
) -> bool {
    &&& 0 <= k < n
    &&& ds[k].runs(p)
    &&& forall|m: int|
        #![trigger ds[m]]
        0 <= m < n && ds[m].runs(p) ==> {
            &&& energy_rank(ds[k], ph, p, f, count) <= energy_rank(ds[m], ph, p, f, count)
            &&& m < k ==> energy_rank(ds[k], ph, p, f, count) < energy_rank(
                ds[m],
                ph,
                p,
                f,
                count,
            )
        }
}

/// The assignment that an invocation of `p` owes: the facts of primitive and
/// invocation, the cheapest supporting substrate with its totals, the baseline
/// for comparison, one row per substrate, and the reason.
pub open spec fn assigned<T: Scalar>(
    ds: Seq<Dialect<T>>,
    ph: Physics<T>,
    p: Primitive,
    inv: Invocation<T>,
    base: int,
    k: int,
    a: Assignment<T>,
) -> bool {
    let own = ds[k].priced(ph, p, inv.profile);
    let other = ds[base].priced(ph, p, inv.profile);
    &&& a.primitive_id == p.id
    &&& a.primitive_name@ == p.name@
    &&& a.family@ == p.family@
    &&& a.thermo@ == p.thermo@
    &&& a.count == inv.count
    &&& a.label@ == inv.label@
    &&& a.chosen_substrate@ == ds[k].named()
    &&& a.chosen_display@ == ds[k].shown()
    &&& a.chosen_cost == own
    &&& a.chosen_joules_total == own.joules_for(inv.count)
    &&& a.chosen_seconds_total == own.seconds_for(inv.count)
    &&& a.baseline_cost == other
    &&& a.baseline_joules_total == other.joules_for(inv.count)
    &&& a.considered@.len() == ds.len()
    &&& forall|m: int|
        #![trigger a.considered@[m]]
        0 <= m < ds.len() ==> a.considered@[m].is_row(ds[m], ph, p, inv.profile, inv.count)
    &&& justified(p, own, other, inv.count, k == base, a.justification)
}

/// The reason that an assignment owes.
pub open spec fn justified<T: Scalar>(
    p: Primitive,
    own: Cost<T>,
    other: Cost<T>,
    count: u64,
    stays: bool,
    j: Justification<T>,
) -> bool {
    match j {
        Justification::Stays(line) => stays && line@ == stays_line(p.name@),
        Justification::Cheaper(here, there, factor) => {
            &&& !stays
            &&& here == own.joules_per_op
            &&& there == other.joules_per_op
            &&& factor == (if T::zero_value().less_than(own.joules_for(count)) {
                Some(other.joules_for(count).quotient(own.joules_for(count)))
            } else {
                None
            })
        },
    }
}

/// Only the comparator bears its name.
pub proof fn baseline_name_is_unique<T: Scalar>(d: Dialect<T>)
    ensures
        d.named() == BASELINE_NAME@ <==> d is Baseline,
{
    reveal_strlit("baseline");
    reveal_strlit("photonic");
    reveal_strlit("in-memory");
    reveal_strlit("stochastic");
    reveal_strlit("reversible");
    reveal_strlit("neuromorphic");
    assert("baseline"@[0] == 'b');
    assert("photonic"@[0] == 'p');
}

/// First place of the comparator.
fn find_baseline<T: Scalar>(ds: &Vec<Dialect<T>>) -> (r: usize)
    requires
        exists|k: int| 0 <= k < ds@.len() && #[trigger] ds@[k] is Baseline,
    ensures
        baseline_at(ds@, r as int),
        ds@[r as int] is Baseline,
{
    let n: usize = ds.len();
    let mut k: usize = 0;
    proof {
        assert forall|m: int| 0 <= m < ds@.len() implies ((#[trigger] ds@[m]).named()
            == BASELINE_NAME@ <==> ds@[m] is Baseline) by {
            baseline_name_is_unique(ds@[m]);
        }
    }
    while !same_text(ds[k].name(), BASELINE_NAME)
        invariant
            k < n == ds@.len(),
            exists|m: int| k <= m < ds@.len() && #[trigger] ds@[m] is Baseline,
            forall|m: int|
                0 <= m < ds@.len() ==> ((#[trigger] ds@[m]).named() == BASELINE_NAME@ <==> ds@[m] is Baseline),
            forall|m: int| 0 <= m < k ==> (#[trigger] ds@[m]).named() != BASELINE_NAME@,
        decreases ds@.len() - k,
    {
        k += 1;
    }
    k
}

/// One table row per substrate.
fn rows<T: Scalar>(
    ds: &Vec<Dialect<T>>,
    ph: &Physics<T>,
    p: &Primitive,
    inv: &Invocation<T>,
) -> (r: Vec<SubstrateOption<T>>)
    requires
        forall|m: int|
            0 <= m < ds@.len() && (#[trigger] ds@[m]).runs(*p) ==> ds@[m].countable(inv.profile),
    ensures
        r@.len() == ds@.len(),
        forall|m: int|
            #![trigger r@[m]]
            0 <= m < ds@.len() ==> r@[m].is_row(ds@[m], *ph, *p, inv.profile, inv.count),
{
    let mut out: Vec<SubstrateOption<T>> = Vec::new();
    let mut k: usize = 0;
    while k < ds.len()
        invariant
            k <= ds@.len(),
            out@.len() == k,
            forall|m: int|
                0 <= m < ds@.len() && (#[trigger] ds@[m]).runs(*p) ==> ds@[m].countable(
                    inv.profile,
                ),
            forall|m: int|
                #![trigger out@[m]]
                0 <= m < k ==> out@[m].is_row(ds@[m], *ph, *p, inv.profile, inv.count),
        decreases ds@.len() - k,
    {
        let supported = ds[k].supports(p);
        let mut cost: Option<Cost<T>> = None;
        let mut joules: Option<T> = None;
        if supported {
            let c = ds[k].cost(ph, p, &inv.profile);
            joules = Some(c.joules_total(inv.count));
            cost = Some(c);
        }
        out.push(
            SubstrateOption {
                substrate: ds[k].name().to_string(),
                display: ds[k].display_name().to_string(),
                supported,
                cost,
                joules_total: joules,
            },
        );
        k += 1;
    }
    out
}

/// The supporting row with the least energy; among equals, the first.
fn pick<T: Scalar>(
    rows: &Vec<SubstrateOption<T>>,
    Ghost(ds): Ghost<Seq<Dialect<T>>>,
    Ghost(ph): Ghost<Physics<T>>,
    Ghost(p): Ghost<Primitive>,
    Ghost(f): Ghost<OpProfile<T>>,
    Ghost(count): Ghost<u64>,
) -> (r: Option<usize>)
    requires
        rows@.len() == ds.len(),
        forall|m: int|
            #![trigger rows@[m]]
            0 <= m < ds.len() ==> rows@[m].is_row(ds[m], ph, p, f, count),
    ensures
        match r {
            Some(k) => cheapest(ds, ds.len() as int, ph, p, f, count, k as int),
            None => forall|m: int| 0 <= m < ds.len() ==> !(#[trigger] ds[m]).runs(p),
        },
{
    let mut best: Option<(usize, T)> = None;
    let mut k: usize = 0;
    while k < rows.len()
        invariant
            k <= rows@.len() == ds.len(),
            forall|m: int|
                #![trigger rows@[m]]
                0 <= m < ds.len() ==> rows@[m].is_row(ds[m], ph, p, f, count),
            match best {
                Some(b) => {
                    &&& cheapest(ds, k as int, ph, p, f, count, b.0 as int)
                    &&& b.1 == ds[b.0 as int].priced(ph, p, f).joules_for(count)
                },
                None => forall|m: int| 0 <= m < k ==> !(#[trigger] ds[m]).runs(p),
            },
        decreases rows@.len() - k,
    {
        if let Some(joules) = rows[k].joules_total {
            let better = match best {
                Some(b) => joules.precedes(b.1),
                None => true,
            };
            if better {
                best = Some((k, joules));
            }
        }
        k += 1;
    }
    match best {
        Some(b) => Some(b.0),
        None => None,
    }
}

/// Where an invocation goes: the supporting substrate with the least energy,
/// with the table that was considered. `None` where the catalog does not know
/// the primitive.
pub fn dispatch_invocation<T: Scalar>(
    catalog: &Catalog,
    inv: &Invocation<T>,
    substrates: &Vec<Dialect<T>>,
    ph: &Physics<T>,
) -> (r: Option<Assignment<T>>)
    requires
        exists|k: int| 0 <= k < substrates@.len() && #[trigger] substrates@[k] is Baseline,
        sized(catalog, *inv, substrates@),
    ensures
        dispatched(catalog, *inv, substrates@, *ph, r),
{
    let at = match catalog.get(inv.primitive_id) {
        Some(k) => k,
        None => {
            return None;
        },
    };
    let p = &catalog.primitives[at];
    let base = find_baseline(substrates);
    let considered = rows(substrates, ph, p, inv);
    let chosen: usize = match pick(
        &considered,
        Ghost(substrates@),
        Ghost(*ph),
        Ghost(*p),
        Ghost(inv.profile),
        Ghost(inv.count),
    ) {
        Some(k) => k,
        None => base,
    };
    assert(cheapest(
        substrates@,
        substrates@.len() as int,
        *ph,
        *p,
        inv.profile,
        inv.count,
        chosen as int,
    ));
    let own = substrates[chosen].cost(ph, p, &inv.profile);
    let joules = own.joules_total(inv.count);
    let other = substrates[base].cost(ph, p, &inv.profile);
    let other_joules = other.joules_total(inv.count);
    let justification = if chosen == base {
        let mut line = "No specialized substrate supports ".to_string();
        line.append(p.name.as_str());
        line.append(" — stays on baseline.");
        Justification::Stays(line)
    } else {
        let factor = if T::zero().below(joules) {
            Some(other_joules.over(joules))
        } else {
            None
        };
        Justification::Cheaper(own.joules_per_op, other.joules_per_op, factor)
    };
    let a = Assignment {
        primitive_id: p.id,
        primitive_name: p.name.clone(),
        family: p.family.clone(),
        thermo: p.thermo.clone(),
        count: inv.count,
        label: inv.label.clone(),
        chosen_substrate: substrates[chosen].name().to_string(),
        chosen_display: substrates[chosen].display_name().to_string(),
        chosen_cost: own,
        chosen_joules_total: joules,
        chosen_seconds_total: own.seconds_total(inv.count),
        baseline_cost: other,
        baseline_joules_total: other_joules,
        considered,
        justification,
    };
    assert(assigned(substrates@, *ph, *p, *inv, base as int, chosen as int, a));
    assert(routed(substrates@, *ph, *p, *inv, base as int, chosen as int, a));
    Some(a)
}

/// The counts of an invocation can be held on every substrate that supports it.
pub open spec fn sized<T: Scalar>(
    catalog: &Catalog,
    inv: Invocation<T>,
    ds: Seq<Dialect<T>>,
) -> bool {
    forall|at: int, m: int|
        #![trigger catalog.primitives@[at], ds[m]]
        catalog.at(inv.primitive_id, at) && 0 <= m < ds.len() && ds[m].runs(
            catalog.primitives@[at],
        ) ==> ds[m].countable(inv.profile)
}

/// The cheapest supporting substrate `k` got the invocation, compared with the
/// baseline at `base`.
pub open spec fn routed<T: Scalar>(
    ds: Seq<Dialect<T>>,
    ph: Physics<T>,
    p: Primitive,
    inv: Invocation<T>,
    base: int,
    k: int,
    a: Assignment<T>,
) -> bool {
    &&& baseline_at(ds, base)
    &&& cheapest(ds, ds.len() as int, ph, p, inv.profile, inv.count, k)
    &&& assigned(ds, ph, p, inv, base, k, a)
}

/// What the dispatcher owes an invocation.
pub open spec fn dispatched<T: Scalar>(
    catalog: &Catalog,
    inv: Invocation<T>,
    ds: Seq<Dialect<T>>,
    ph: Physics<T>,
    r: Option<Assignment<T>>,
) -> bool {
    match r {
        None => !catalog.has(inv.primitive_id),
        Some(a) => exists|at: int, base: int, k: int|
            catalog.at(inv.primitive_id, at) && #[trigger] routed(
                ds,
                ph,
                catalog.primitives@[at],
                inv,
                base,
                k,
                a,
            ),
    }
}

/// An assignment never ranks above the baseline: where an invocation goes, its
/// energy is at most what it would have been there.
pub proof fn never_above_baseline<T: Scalar>(
    ds: Seq<Dialect<T>>,
    ph: Physics<T>,
    p: Primitive,
    inv: Invocation<T>,
    base: int,
    k: int,
    a: Assignment<T>,
)
    requires
        routed(ds, ph, p, inv, base, k, a),
    ensures
        a.chosen_joules_total.rank() <= a.baseline_joules_total.rank(),
{
    baseline_name_is_unique(ds[base]);
    assert(ds[base].runs(p));
}

/// The choice is a function of its inputs: two runs over one table pick the
/// same substrate.
pub proof fn choice_is_unique<T: Scalar>(
    ds: Seq<Dialect<T>>,
    ph: Physics<T>,
    p: Primitive,
    f: OpProfile<T>,
    count: u64,
    k: int,
    m: int,
)
    requires
        cheapest(ds, ds.len() as int, ph, p, f, count, k),
        cheapest(ds, ds.len() as int, ph, p, f, count, m),
    ensures
        k == m,
{
    assert(ds[k].runs(p) && ds[m].runs(p));
}

/// First name among `names` that equals `name`, if any.
pub open spec fn slot_of(names: Seq<Seq<char>>, name: Seq<char>, k: int) -> bool {
    &&& 0 <= k < names.len()
    &&& names[k] == name
    &&& forall|m: int| 0 <= m < k ==> #[trigger] names[m] != name
}

/// Names of the substrates.
pub open spec fn names_of<T: Scalar>(ds: Seq<Dialect<T>>) -> Seq<Seq<char>> {
    Seq::new(ds.len(), |k: int| ds[k].named())
}

/// The assignments that go to slot `k`.
pub open spec fn share<T: Scalar>(
    names: Seq<Seq<char>>,
    a: Seq<Assignment<T>>,
    k: int,
) -> Seq<Assignment<T>> {
    a.filter(|x: Assignment<T>| slot_of(names, x.chosen_substrate@, k))
}

/// Invocations that assignments stand for, all together.
pub open spec fn total_count<T>(a: Seq<Assignment<T>>) -> int
    decreases a.len(),
{
    if a.len() == 0 {
        0
    } else {
        total_count(a.drop_last()) + a.last().count
    }
}

pub open spec fn joules_of<T>(a: Seq<Assignment<T>>) -> Seq<T> {
    a.map_values(|x: Assignment<T>| x.chosen_joules_total)
}

pub open spec fn seconds_of<T>(a: Seq<Assignment<T>>) -> Seq<T> {
    a.map_values(|x: Assignment<T>| x.chosen_seconds_total)
}

pub open spec fn baseline_joules_of<T>(a: Seq<Assignment<T>>) -> Seq<T> {
    a.map_values(|x: Assignment<T>| x.baseline_joules_total)
}

pub open spec fn baseline_seconds_of<T: Scalar>(a: Seq<Assignment<T>>) -> Seq<T> {
    a.map_values(|x: Assignment<T>| x.baseline_cost.seconds_for(x.count))
}

/// What one substrate got in all.
#[derive(Debug, Clone)]
pub struct SubstrateAggregate<T> {
    pub substrate: String,
    pub display: String,
    pub joules: T,
    pub op_count: u64,
}

impl<T: Scalar> SubstrateAggregate<T> {
    /// The energies of its share added up in order, and its invocations.
    pub open spec fn sums_up(&self, d: Dialect<T>, own: Seq<Assignment<T>>) -> bool {
        &&& self.substrate@ == d.named()
        &&& self.display@ == d.shown()
        &&& self.joules == running(joules_of(own))
        &&& self.op_count == total_count(own)
    }
}

/// Totals of a dispatch run.
#[derive(Debug, Clone)]
pub struct DispatchSummary<T> {
    pub workload_goal: String,
    pub total_joules: T,
    pub baseline_total_joules: T,
    pub savings_factor: T,
    pub total_seconds: T,
    pub baseline_total_seconds: T,
    pub per_substrate_joules: Vec<SubstrateAggregate<T>>,
    pub power_w: T,
    pub baseline_power_w: T,
    pub power_budget_w: T,
    pub within_budget: bool,
    pub invocations_processed: usize,
}

impl<T: Scalar> DispatchSummary<T> {
    /// Each total is the sum of its samples in the order of the assignments;
    /// power is energy times the rate (at least the least rate); the saving is
    /// the quotient of the totals, or one where no energy is spent.
    pub open spec fn sums_up(
        &self,
        goal: Seq<char>,
        c: Constraints<T>,
        ds: Seq<Dialect<T>>,
        a: Seq<Assignment<T>>,
        ph: Physics<T>,
    ) -> bool {
        let rate = if c.cycles_per_second.at_least(ph.least_rate) {
            c.cycles_per_second
        } else {
            ph.least_rate
        };
        &&& self.workload_goal@ == goal
        &&& self.total_joules == running(joules_of(a))
        &&& self.baseline_total_joules == running(baseline_joules_of(a))
        &&& self.total_seconds == running(seconds_of(a))
        &&& self.baseline_total_seconds == running(baseline_seconds_of(a))
        &&& self.savings_factor == (if T::zero_value().less_than(self.total_joules) {
            self.baseline_total_joules.quotient(self.total_joules)
        } else {
            T::of_count(1)
        })
        &&& self.power_w == self.total_joules.product(rate)
        &&& self.baseline_power_w == self.baseline_total_joules.product(rate)
        &&& self.power_budget_w == c.power_budget_w
        &&& self.within_budget == c.power_budget_w.at_least(self.power_w)
        &&& self.invocations_processed == a.len()
        &&& self.per_substrate_joules@.len() == ds.len()
        &&& forall|k: int|
            #![trigger self.per_substrate_joules@[k]]
            0 <= k < ds.len() ==> self.per_substrate_joules@[k].sums_up(
                ds[k],
                share(names_of(ds), a, k),
            )
    }
}

/// A share never holds more invocations than there are.
proof fn lemma_share_count<T: Scalar>(names: Seq<Seq<char>>, a: Seq<Assignment<T>>, k: int)
    ensures
        0 <= total_count(share(names, a, k)) <= total_count(a),
    decreases a.len(),
{
    reveal(Seq::filter);
    if a.len() > 0 {
        lemma_share_count(names, a.drop_last(), k);
        let before = share(names, a.drop_last(), k);
        assert(before.push(a.last()).drop_last() =~= before);
    }
}

/// One more assignment joins exactly the shares whose slot its name is.
proof fn lemma_share_grows<T: Scalar>(
    names: Seq<Seq<char>>,
    a: Seq<Assignment<T>>,
    x: Assignment<T>,
    k: int,
)
    ensures
        slot_of(names, x.chosen_substrate@, k) ==> {
            &&& joules_of(share(names, a.push(x), k)) == joules_of(share(names, a, k)).push(
                x.chosen_joules_total,
            )
            &&& total_count(share(names, a.push(x), k)) == total_count(share(names, a, k)) + x.count
        },
        !slot_of(names, x.chosen_substrate@, k) ==> share(names, a.push(x), k) == share(
            names,
            a,
            k,
        ),
{
    reveal(Seq::filter);
    assert(a.push(x).drop_last() =~= a);
    let before = share(names, a, k);
    assert(before.push(x).drop_last() =~= before);
    assert(joules_of(before.push(x)) =~= joules_of(before).push(x.chosen_joules_total));
}

/// The aggregates after the first assignments.
spec fn aggregated<T: Scalar>(
    ds: Seq<Dialect<T>>,
    a: Seq<Assignment<T>>,
    aggs: Seq<SubstrateAggregate<T>>,
) -> bool {
    &&& aggs.len() == ds.len()
    &&& forall|k: int|
        #![trigger aggs[k]]
        0 <= k < ds.len() ==> aggs[k].sums_up(ds[k], share(names_of(ds), a, k))
}

/// Adds one assignment to the aggregate of its substrate, the first of that
/// name; where there is none, nothing changes.
fn add_to_aggregate<T: Scalar>(
    aggs: &mut Vec<SubstrateAggregate<T>>,
    x: &Assignment<T>,
    Ghost(ds): Ghost<Seq<Dialect<T>>>,
    Ghost(done): Ghost<Seq<Assignment<T>>>,
)
    requires
        aggregated(ds, done, old(aggs)@),
        total_count(done) + x.count <= u64::MAX,
    ensures
        aggregated(ds, done.push(*x), final(aggs)@),
{
    let ghost names = names_of(ds);
    let ghost before = aggs@;
    proof {
        assert forall|m: int| 0 <= m < ds.len() implies (#[trigger] before[m]).substrate@
            == names[m] by {}
    }
    let mut k: usize = 0;
    while k < aggs.len()
        invariant
            k <= aggs@.len(),
            aggs@ == before,
            before.len() == ds.len(),
            names == names_of(ds),
            aggregated(ds, done, before),
            total_count(done) + x.count <= u64::MAX,
            forall|m: int| 0 <= m < ds.len() ==> (#[trigger] before[m]).substrate@ == names[m],
            forall|m: int| 0 <= m < k ==> #[trigger] names[m] != x.chosen_substrate@,
        decreases aggs@.len() - k,
    {
        if same_text(aggs[k].substrate.as_str(), x.chosen_substrate.as_str()) {
            assert(before[k as int].substrate@ == names[k as int]);
            assert(slot_of(names, x.chosen_substrate@, k as int));
            proof {
                lemma_share_count(names, done, k as int);
            }
            let joules = aggs[k].joules.plus(x.chosen_joules_total);
            let op_count: u64 = aggs[k].op_count + x.count;
            let slot = &mut aggs[k];
            slot.joules = joules;
            slot.op_count = op_count;
            proof {
                assert forall|m: int|
                    #![trigger aggs@[m]]
                    0 <= m < ds.len() implies aggs@[m].sums_up(
                    ds[m],
                    share(names, done.push(*x), m),
                ) by {
                    lemma_share_grows(names, done, *x, m);
                    assert(before[m].sums_up(ds[m], share(names, done, m)));
                    if m == k {
                        lemma_running_push(
                            joules_of(share(names, done, m)),
                            x.chosen_joules_total,
                        );
                    } else {
                        assert(names[m] != x.chosen_substrate@ || m > k);
                        assert(!slot_of(names, x.chosen_substrate@, m));
                    }
                }
            }
            return ;
        }
        k += 1;
    }
    proof {
        assert forall|m: int|
            #![trigger aggs@[m]]
            0 <= m < ds.len() implies aggs@[m].sums_up(ds[m], share(names, done.push(*x), m)) by {
            lemma_share_grows(names, done, *x, m);
            assert(names[m] != x.chosen_substrate@);
            assert(before[m].sums_up(ds[m], share(names, done, m)));
        }
    }
}

/// Rolls assignments up into a summary.
pub fn summarize<T: Scalar>(
    workload_goal: &str,
    constraints: &Constraints<T>,
    substrates: &Vec<Dialect<T>>,
    assignments: &Vec<Assignment<T>>,
    ph: &Physics<T>,
) -> (r: DispatchSummary<T>)
    requires
        total_count(assignments@) <= u64::MAX,
    ensures
        r.sums_up(workload_goal@, *constraints, substrates@, assignments@, *ph),
{
    let mut aggs: Vec<SubstrateAggregate<T>> = Vec::new();
    let mut k: usize = 0;
    while k < substrates.len()
        invariant
            k <= substrates@.len(),
            aggs@.len() == k,
            forall|m: int|
                #![trigger aggs@[m]]
                0 <= m < k ==> aggs@[m].sums_up(substrates@[m], Seq::empty()),
        decreases substrates@.len() - k,
    {
        aggs.push(
            SubstrateAggregate {
                substrate: substrates[k].name().to_string(),
                display: substrates[k].display_name().to_string(),
                joules: T::zero(),
                op_count: 0,
            },
        );
        k += 1;
    }
    let ghost ds = substrates@;
    let ghost all = assignments@;
    proof {
        reveal(Seq::filter);
        assert(all.take(0) =~= Seq::empty());
        assert forall|m: int|
            #![trigger aggs@[m]]
            0 <= m < ds.len() implies aggs@[m].sums_up(
            ds[m],
            share(names_of(ds), all.take(0), m),
        ) by {
            assert(share(names_of(ds), all.take(0), m) =~= Seq::empty());
        }
    }
    let mut total = T::zero();
    let mut baseline_total = T::zero();
    let mut seconds = T::zero();
    let mut baseline_seconds = T::zero();
    let mut i: usize = 0;
    while i < assignments.len()
        invariant
            i <= assignments@.len(),
            all == assignments@,
            ds == substrates@,
            total_count(all) <= u64::MAX,
            aggregated(ds, all.take(i as int), aggs@),
            total == running(joules_of(all.take(i as int))),
            baseline_total == running(baseline_joules_of(all.take(i as int))),
            seconds == running(seconds_of(all.take(i as int))),
            baseline_seconds == running(baseline_seconds_of(all.take(i as int))),
        decreases assignments@.len() - i,
    {
        let a = &assignments[i];
        let ghost done = all.take(i as int);
        proof {
            lemma_count_grows(all, i + 1);
            assert(all.take(i + 1) =~= done.push(*a));
            assert(done.push(*a).drop_last() =~= done);
            assert(joules_of(done.push(*a)) =~= joules_of(done).push(a.chosen_joules_total));
            assert(baseline_joules_of(done.push(*a)) =~= baseline_joules_of(done).push(
                a.baseline_joules_total,
            ));
            assert(seconds_of(done.push(*a)) =~= seconds_of(done).push(a.chosen_seconds_total));
            assert(baseline_seconds_of(done.push(*a)) =~= baseline_seconds_of(done).push(
                a.baseline_cost.seconds_for(a.count),
            ));
            lemma_running_push(joules_of(done), a.chosen_joules_total);
            lemma_running_push(baseline_joules_of(done), a.baseline_joules_total);
            lemma_running_push(seconds_of(done), a.chosen_seconds_total);
            lemma_running_push(baseline_seconds_of(done), a.baseline_cost.seconds_for(a.count));
        }
        add_to_aggregate(&mut aggs, a, Ghost(ds), Ghost(done));
        total = total.plus(a.chosen_joules_total);
        baseline_total = baseline_total.plus(a.baseline_joules_total);
        seconds = seconds.plus(a.chosen_seconds_total);
        baseline_seconds = baseline_seconds.plus(a.baseline_cost.seconds_total(a.count));
        i += 1;
    }
    assert(all.take(all.len() as int) =~= all);
    let rate = if constraints.cycles_per_second.reaches(ph.least_rate) {
        constraints.cycles_per_second
    } else {
        ph.least_rate
    };
    let power = total.times(rate);
    let savings = if T::zero().below(total) {
        baseline_total.over(total)
    } else {
        T::from_count(1)
    };
    DispatchSummary {
        workload_goal: workload_goal.to_string(),
        total_joules: total,
        baseline_total_joules: baseline_total,
        savings_factor: savings,
        total_seconds: seconds,
        baseline_total_seconds: baseline_seconds,
        per_substrate_joules: aggs,
        power_w: power,
        baseline_power_w: baseline_total.times(rate),
        power_budget_w: constraints.power_budget_w,
        within_budget: constraints.power_budget_w.reaches(power),
        invocations_processed: assignments.len(),
    }
}

/// Counts of the first assignments never exceed the whole.
proof fn lemma_count_grows<T>(a: Seq<Assignment<T>>, n: int)
    requires
        0 <= n <= a.len(),
    ensures
        0 <= total_count(a.take(n)) <= total_count(a),
    decreases a.len(),
{
    if n < a.len() {
        lemma_count_grows(a.drop_last(), n);
        assert(a.drop_last().take(n) =~= a.take(n));
    } else {
        assert(a.take(n) =~= a);
        if n > 0 {
            lemma_count_grows(a.drop_last(), n - 1);
        }
    }
}

/// The whole plan: assignments and totals.
#[derive(Debug, Clone)]
pub struct DispatchPlan<T> {
    pub assignments: Vec<Assignment<T>>,
    pub summary: DispatchSummary<T>,
}

/// The invocations whose primitive the catalog knows, in order.
pub open spec fn known<T>(catalog: &Catalog, invs: Seq<Invocation<T>>) -> Seq<Invocation<T>> {
    invs.filter(|i: Invocation<T>| catalog.has(i.primitive_id))
}

/// Invocation counts of a workload, all together.
pub open spec fn asked<T>(invs: Seq<Invocation<T>>) -> int
    decreases invs.len(),
{
    if invs.len() == 0 {
        0
    } else {
        asked(invs.drop_last()) + invs.last().count
    }
}

/// Dispatches every invocation and sums the result up. Invocations of unknown
/// primitives are passed over.
pub fn dispatch<T: Scalar>(
    catalog: &Catalog,
    workload: &Workload<T>,
    substrates: &Vec<Dialect<T>>,
    ph: &Physics<T>,
) -> (r: DispatchPlan<T>)
    requires
        exists|k: int| 0 <= k < substrates@.len() && #[trigger] substrates@[k] is Baseline,
        forall|i: int|
            0 <= i < workload.invocations@.len() ==> sized(
                catalog,
                #[trigger] workload.invocations@[i],
                substrates@,
            ),
        asked(workload.invocations@) <= u64::MAX,
    ensures
        r.assignments@.len() == known(catalog, workload.invocations@).len(),
        forall|k: int|
            #![trigger r.assignments@[k]]
            0 <= k < r.assignments@.len() ==> dispatched(
                catalog,
                known(catalog, workload.invocations@)[k],
                substrates@,
                *ph,
                Some(r.assignments@[k]),
            ),
        r.summary.sums_up(
            workload.goal@,
            workload.constraints,
            substrates@,
            r.assignments@,
            *ph,
        ),
{
    let ghost all = workload.invocations@;
    let mut assignments: Vec<Assignment<T>> = Vec::new();
    let mut i: usize = 0;
    proof {
        reveal(Seq::filter);
        assert(all.take(0) =~= Seq::empty());
    }
    while i < workload.invocations.len()
        invariant
            i <= workload.invocations@.len(),
            all == workload.invocations@,
            exists|k: int| 0 <= k < substrates@.len() && #[trigger] substrates@[k] is Baseline,
            forall|m: int| 0 <= m < all.len() ==> sized(catalog, #[trigger] all[m], substrates@),
            assignments@.len() == known(catalog, all.take(i as int)).len(),
            forall|k: int|
                #![trigger assignments@[k]]
                0 <= k < assignments@.len() ==> dispatched(
                    catalog,
                    known(catalog, all.take(i as int))[k],
                    substrates@,
                    *ph,
                    Some(assignments@[k]),
                ),
            total_count(assignments@) <= asked(all.take(i as int)),
        decreases workload.invocations@.len() - i,
    {
        let ghost next = all[i as int];
        let ghost before = assignments@;
        proof {
            reveal(Seq::filter);
            assert(sized(catalog, all[i as int], substrates@));
            assert(all.take(i + 1).drop_last() =~= all.take(i as int));
            assert(all.take(i + 1).last() == next);
        }
        if let Some(a) = dispatch_invocation(catalog, &workload.invocations[i], substrates, ph) {
            proof {
                lemma_dispatched_known(catalog, next, substrates@, *ph, a);
                assert(before.push(a).drop_last() =~= before);
            }
            assignments.push(a);
        }
        i += 1;
    }
    assert(all.take(all.len() as int) =~= all);
    let summary = summarize(
        workload.goal.as_str(),
        &workload.constraints,
        substrates,
        &assignments,
        ph,
    );
    DispatchPlan { assignments, summary }
}

/// Whatever got an assignment is in the catalog, and the assignment has its
/// count.
proof fn lemma_dispatched_known<T: Scalar>(
    catalog: &Catalog,
    inv: Invocation<T>,
    ds: Seq<Dialect<T>>,
    ph: Physics<T>,
    a: Assignment<T>,
)
    requires
        dispatched(catalog, inv, ds, ph, Some(a)),
    ensures
        catalog.has(inv.primitive_id),
        a.count == inv.count,
{
    let (at, base, k) = choose|at: int, base: int, k: int|
        catalog.at(inv.primitive_id, at) && #[trigger] routed(
            ds,
            ph,
            catalog.primitives@[at],
            inv,
            base,
            k,
            a,
        );
    assert(catalog.primitives@[at].id == inv.primitive_id);
}

/// Invocations in the first `n` shares, all together.
pub open spec fn shared_count<T: Scalar>(
    names: Seq<Seq<char>>,
    a: Seq<Assignment<T>>,
    n: int,
) -> int
    decreases n,
{
    if n <= 0 {
        0
    } else {
        shared_count(names, a, n - 1) + total_count(share(names, a, n - 1))
    }
}

proof fn lemma_shared_push<T: Scalar>(
    names: Seq<Seq<char>>,
    a: Seq<Assignment<T>>,
    x: Assignment<T>,
    slot: int,
    n: int,
)
    requires
        slot_of(names, x.chosen_substrate@, slot),
    ensures
        shared_count(names, a.push(x), n) == shared_count(names, a, n) + (if slot < n {
            x.count as int
        } else {
            0
        }),
    decreases n,
{
    if n > 0 {
        lemma_shared_push(names, a, x, slot, n - 1);
        lemma_share_grows(names, a, x, n - 1);
        if n - 1 != slot {
            assert(!slot_of(names, x.chosen_substrate@, n - 1));
        }
    }
}

/// No invocation is lost or counted twice: where every assignment names a
/// registered substrate, the counts of the aggregates add up to the count of
/// all assignments.
pub proof fn counts_are_conserved<T: Scalar>(names: Seq<Seq<char>>, a: Seq<Assignment<T>>)
    requires
        forall|i: int|
            0 <= i < a.len() ==> exists|k: int|
                slot_of(names, (#[trigger] a[i]).chosen_substrate@, k),
    ensures
        shared_count(names, a, names.len() as int) == total_count(a),
    decreases a.len(),
{
    if a.len() == 0 {
        reveal(Seq::filter);
        lemma_nothing_shared(names, a, names.len() as int);
    } else {
        let rest = a.drop_last();
        assert forall|i: int| 0 <= i < rest.len() implies exists|k: int|
            slot_of(names, (#[trigger] rest[i]).chosen_substrate@, k) by {
            assert(a[i] == rest[i]);
        }
        counts_are_conserved(names, rest);
        let x = a[a.len() - 1];
        let slot = choose|k: int| slot_of(names, x.chosen_substrate@, k);
        lemma_shared_push(names, rest, x, slot, names.len() as int);
        assert(rest.push(x) =~= a);
    }
}

proof fn lemma_nothing_shared<T: Scalar>(names: Seq<Seq<char>>, a: Seq<Assignment<T>>, n: int)
    requires
        a.len() == 0,
    ensures
        shared_count(names, a, n) == 0,
    decreases n,
{
    reveal(Seq::filter);
    if n > 0 {
        lemma_nothing_shared(names, a, n - 1);
        assert(share(names, a, n - 1).len() == 0);
    }
}

} // verus!
