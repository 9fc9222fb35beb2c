//! The substrate dialects: which primitives each of them runs natively, and
//! what one invocation costs there.
//!
//! Physical constants that are no whole numbers come in as samples
//! ([`Physics`] and the parameter structs); everything countable is here.

use crate::cost::catalog::thermo_class;
use crate::cost::catalog::{OpProfile, Primitive, Thermo};
use crate::scalar::Scalar;
use crate::text::same_text;
use vstd::prelude::*;

verus! {

/// Energy and time of one invocation, and the accuracy it gives up.
#[derive(Debug, Clone, Copy)]
pub struct Cost<T> {
    pub joules_per_op: T,
    pub seconds_per_op: T,
    pub accuracy_loss: T,
}

impl<T: Scalar> Cost<T> {
    /// Energy of `count` invocations.
    pub open spec fn joules_for(self, count: u64) -> T {
        self.joules_per_op.product(T::of_count(count))
    }

    /// Time of `count` invocations.
    pub open spec fn seconds_for(self, count: u64) -> T {
        self.seconds_per_op.product(T::of_count(count))
    }

    /// Energy of `count` invocations.
    pub fn joules_total(&self, count: u64) -> (r: T)
        ensures
            r == self.joules_for(count),
    {
        self.joules_per_op.times(T::from_count(count))
    }

    /// Time of `count` invocations.
    pub fn seconds_total(&self, count: u64) -> (r: T)
        ensures
            r == self.seconds_for(count),
    {
        self.seconds_per_op.times(T::from_count(count))
    }
}

/// Physical constants shared by the dialects.
#[derive(Debug, Clone, Copy)]
pub struct Physics<T> {
    /// Energy of erasing one bit at room temperature.
    pub landauer: T,
    /// Energy of one p-bit sample.
    pub pbit_j_per_sample: T,
    /// Coupling and readout energy of one sweep.
    pub readout_j_per_sweep: T,
    /// Energy of a photonic operation without multiply structure.
    pub photonic_default_j: T,
    /// Energy of a crossbar operation without multiply structure.
    pub in_memory_default_j: T,
    /// Accuracy that each analog dialect gives up.
    pub photonic_loss: T,
    pub in_memory_loss: T,
    pub neuromorphic_loss: T,
    /// Least laser efficiency that is taken at its word.
    pub laser_floor: T,
    /// Spike activity where a workload names none.
    pub default_activity: T,
    /// Least rate that power figures are taken at.
    pub least_rate: T,
}

/// Engineering parameters of the photonic dialect.
#[derive(Debug, Clone, Copy)]
pub struct PhotonicParams<T> {
    /// Wavelength channels carrying parallel multiplies.
    pub wdm_channels: u32,
    pub modulator_j_per_bit: T,
    pub adc_j_per_sample: T,
    pub laser_efficiency: T,
    pub optical_j_per_mac: T,
}

/// Engineering parameters of the in-memory dialect.
#[derive(Debug, Clone, Copy)]
pub struct InMemoryParams<T> {
    /// Rows and columns of a crossbar.
    pub crossbar_size: u32,
    pub device_j_per_mac: T,
    pub dac_j_per_bit: T,
    pub adc_j_per_sample: T,
}

/// Engineering parameters of the neuromorphic dialect.
#[derive(Debug, Clone, Copy)]
pub struct NeuromorphicParams<T> {
    pub sop_j: T,
    pub neuron_update_j: T,
    pub plasticity_j: T,
    /// Fan-out where a workload names none.
    pub default_fanout: u32,
}

/// Multiply-class primitives of the baseline.
pub open spec fn is_matmul(id: u32) -> bool {
    id == 18 || id == 19 || id == 20 || id == 24 || id == 48 || id == 76 || id == 77
}

/// Sampling-class primitives; the stochastic dialect runs exactly these.
pub open spec fn is_sampling(id: u32) -> bool {
    id == 8 || id == 38 || id == 39 || id == 99 || id == 245 || id == 251 || id == 258 || id == 274
}

/// Primitives that map onto a crossbar.
pub open spec fn is_crossbar(id: u32) -> bool {
    id == 18 || id == 19 || id == 20 || id == 24 || id == 48
}

/// Primitives that map onto a coherent mesh.
pub open spec fn is_photonic(id: u32) -> bool {
    is_matmul(id) || id == 53
}

fn matmul_class(id: u32) -> (r: bool)
    ensures
        r == is_matmul(id),
{
    id == 18 || id == 19 || id == 20 || id == 24 || id == 48 || id == 76 || id == 77
}

pub(crate) fn sampling_class(id: u32) -> (r: bool)
    ensures
        r == is_sampling(id),
{
    id == 8 || id == 38 || id == 39 || id == 99 || id == 245 || id == 251 || id == 258 || id == 274
}

pub(crate) fn crossbar_class(id: u32) -> (r: bool)
    ensures
        r == is_crossbar(id),
{
    id == 18 || id == 19 || id == 20 || id == 24 || id == 48
}

pub(crate) fn photonic_class(id: u32) -> (r: bool)
    ensures
        r == is_photonic(id),
{
    matmul_class(id) || id == 53
}

/// Bits erased per atomic operation, by thermodynamic class.
pub open spec fn bits_erased(t: Thermo) -> u64 {
    match t {
        Thermo::L0 => 4,
        Thermo::L1 => 32,
        Thermo::L2 => 64,
        Thermo::L2Max => 4096,
    }
}

/// Overhead of general-purpose silicon above the erasure floor.
pub open spec fn baseline_overhead(t: Thermo) -> u64 {
    match t {
        Thermo::L0 => 1_000_000,
        Thermo::L1 => 1_000_000_000,
        Thermo::L2 => 200_000_000,
        Thermo::L2Max => 500_000_000,
    }
}

/// Sustained operations per second of each dialect.
pub const BASELINE_RATE: u64 = 6_600_000_000;

pub const PHOTONIC_RATE: u64 = 5_000_000_000;

pub const IN_MEMORY_RATE: u64 = 10_000_000_000;

pub const STOCHASTIC_RATE: u64 = 1_000_000_000;

pub const REVERSIBLE_RATE: u64 = 1_000_000_000;

pub const NEUROMORPHIC_RATE: u64 = 10_000;

/// Adiabatic overhead of the bijective phase above the erasure floor.
pub const REVERSIBLE_OVERHEAD_L0: u64 = 1_000;

/// Overhead of the irreversible phase above the erasure floor.
pub const REVERSIBLE_OVERHEAD_L2: u64 = 200_000_000;

/// Family code of the primitives that spiking hardware runs.
pub const NEURO_FAMILY: &'static str = "NEURO";

/// Neurons, timesteps and fan-out of a spiking run that names none.
pub const DEFAULT_NEURONS: u64 = 1024;

pub const DEFAULT_TIMESTEPS: u64 = 1000;

pub const DEFAULT_FANOUT: u64 = 128;

/// The primitive that pays for plasticity.
pub const PRIM_STDP: u32 = 51;

/// Atomic operations of one baseline invocation.
pub open spec fn baseline_atomic<T>(id: u32, p: OpProfile<T>) -> u64 {
    if is_matmul(id) {
        p.matmul_macs.unwrap_or(1)
    } else if is_sampling(id) {
        p.sample_events.unwrap_or(1)
    } else {
        1
    }
}

/// Synapse updates of a spiking run where nothing skips the silent ones: every
/// synapse of every neuron in every timestep.
pub open spec fn synapse_updates<T: Scalar>(f: OpProfile<T>) -> T {
    T::of_count(f.variables.unwrap_or(DEFAULT_NEURONS)).product(
        T::of_count(f.sweeps.unwrap_or(DEFAULT_TIMESTEPS)),
    ).product(T::of_count(f.reduce_dim.unwrap_or(DEFAULT_FANOUT))).product(T::of_count(f.batch))
}

/// Operations that one invocation expands into on the baseline, and on adiabatic
/// logic too: spiking primitives by their synapse updates, all others by their
/// atomic operations.
pub open spec fn baseline_ops<T: Scalar>(p: Primitive, f: OpProfile<T>) -> T {
    if p.family@ == NEURO_FAMILY@ {
        synapse_updates(f)
    } else {
        T::of_count(baseline_atomic(p.id, f))
    }
}

/// Percent of a primitive's work that is its bijective phase.
pub open spec fn reversible_percent(id: u32, is_l0: bool, has_bennett: bool) -> u64 {
    if !has_bennett {
        0
    } else if is_l0 {
        100
    } else if id == 18 || id == 19 || id == 24 {
        90
    } else if id == 20 {
        80
    } else if id == 76 || id == 77 || id == 78 || id == 109 || id == 132 {
        70
    } else if id == 79 || id == 80 {
        100
    } else if id == 26 {
        10
    } else if id == 34 {
        20
    } else if id == 35 {
        30
    } else if id == 43 {
        60
    } else {
        50
    }
}

fn bits_erased_per_op(p: &Primitive) -> (r: u64)
    ensures
        r == bits_erased(thermo_class(p.thermo@)),
{
    match p.class() {
        Thermo::L0 => 4,
        Thermo::L1 => 32,
        Thermo::L2 => 64,
        Thermo::L2Max => 4096,
    }
}

fn overhead_for(p: &Primitive) -> (r: u64)
    ensures
        r == baseline_overhead(thermo_class(p.thermo@)),
{
    match p.class() {
        Thermo::L0 => 1_000_000,
        Thermo::L1 => 1_000_000_000,
        Thermo::L2 => 200_000_000,
        Thermo::L2Max => 500_000_000,
    }
}

fn atomic_ops<T: Scalar>(id: u32, profile: &OpProfile<T>) -> (r: u64)
    ensures
        r == baseline_atomic(id, *profile),
{
    if matmul_class(id) {
        profile.matmul_macs.unwrap_or(1)
    } else if sampling_class(id) {
        profile.sample_events.unwrap_or(1)
    } else {
        1
    }
}

fn ops_per_invocation<T: Scalar>(p: &Primitive, f: &OpProfile<T>) -> (r: T)
    ensures
        r == baseline_ops(*p, *f),
{
    if same_text(p.family.as_str(), NEURO_FAMILY) {
        T::from_count(f.variables.unwrap_or(DEFAULT_NEURONS)).times(
            T::from_count(f.sweeps.unwrap_or(DEFAULT_TIMESTEPS)),
        ).times(T::from_count(f.reduce_dim.unwrap_or(DEFAULT_FANOUT))).times(
            T::from_count(f.batch),
        )
    } else {
        T::from_count(atomic_ops(p.id, f))
    }
}

fn reversible_fraction(p: &Primitive) -> (r: u64)
    ensures
        r == reversible_percent(p.id, p.is_l0, p.has_bennett),
{
    if !p.has_bennett {
        return 0;
    }
    if p.is_l0 {
        return 100;
    }
    match p.id {
        18 => 90,
        19 => 90,
        24 => 90,
        20 => 80,
        76 => 70,
        77 => 70,
        78 => 70,
        109 => 70,
        132 => 70,
        79 => 100,
        80 => 100,
        26 => 10,
        34 => 20,
        35 => 30,
        43 => 60,
        _ => 50,
    }
}

/// General-purpose silicon: the comparator.
pub struct Baseline;

impl Baseline {
    pub open spec fn priced<T: Scalar>(ph: Physics<T>, p: Primitive, f: OpProfile<T>) -> Cost<T> {
        let t = thermo_class(p.thermo@);
        let ops = baseline_ops(p, f);
        let floor = T::of_count(bits_erased(t)).product(ph.landauer);
        Cost {
            joules_per_op: floor.product(T::of_count(baseline_overhead(t))).product(ops),
            seconds_per_op: ops.quotient(T::of_count(BASELINE_RATE)),
            accuracy_loss: T::zero_value(),
        }
    }

    /// Erasure floor times overhead, per atomic operation.
    pub fn cost<T: Scalar>(&self, ph: &Physics<T>, p: &Primitive, f: &OpProfile<T>) -> (r: Cost<T>)
        ensures
            r == Self::priced(*ph, *p, *f),
    {
        let floor = T::from_count(bits_erased_per_op(p)).times(ph.landauer);
        let per_atomic = floor.times(T::from_count(overhead_for(p)));
        let ops = ops_per_invocation(p, f);
        Cost {
            joules_per_op: per_atomic.times(ops),
            seconds_per_op: ops.over(T::from_count(BASELINE_RATE)),
            accuracy_loss: T::zero(),
        }
    }
}

/// Thermodynamic sampling on p-bits.
pub struct Stochastic;

impl Stochastic {
    /// Sweeps and variables of a sampling run, with the defaults for what a
    /// workload leaves open.
    pub open spec fn run_shape<T>(f: OpProfile<T>) -> (u64, u64) {
        (f.sweeps.unwrap_or(1000), f.variables.unwrap_or(64))
    }

    /// The event counts of a run can be held.
    pub open spec fn countable<T>(f: OpProfile<T>) -> bool {
        let (sweeps, variables) = Self::run_shape(f);
        sweeps * variables * f.batch <= u64::MAX && sweeps * variables <= u64::MAX && sweeps
            * f.batch <= u64::MAX
    }

    pub open spec fn priced<T: Scalar>(ph: Physics<T>, f: OpProfile<T>) -> Cost<T> {
        let (sweeps, variables) = Self::run_shape(f);
        let events = T::of_count((sweeps * variables * f.batch) as u64);
        Cost {
            joules_per_op: events.product(ph.pbit_j_per_sample).sum(
                T::of_count(sweeps).product(T::of_count(f.batch)).product(
                    ph.readout_j_per_sweep,
                ),
            ),
            seconds_per_op: T::of_count((sweeps * f.batch) as u64).quotient(
                T::of_count(STOCHASTIC_RATE),
            ),
            accuracy_loss: T::zero_value(),
        }
    }

    /// One sample per p-bit update plus a readout per sweep.
    pub fn cost<T: Scalar>(&self, ph: &Physics<T>, f: &OpProfile<T>) -> (r: Cost<T>)
        requires
            Self::countable(*f),
        ensures
            r == Self::priced(*ph, *f),
    {
        let sweeps: u64 = f.sweeps.unwrap_or(1000);
        let variables: u64 = f.variables.unwrap_or(64);
        let pbit = T::from_count(sweeps * variables * f.batch).times(ph.pbit_j_per_sample);
        let readout = T::from_count(sweeps).times(T::from_count(f.batch)).times(
            ph.readout_j_per_sweep,
        );
        Cost {
            joules_per_op: pbit.plus(readout),
            seconds_per_op: T::from_count(sweeps * f.batch).over(T::from_count(STOCHASTIC_RATE)),
            accuracy_loss: T::zero(),
        }
    }
}

/// Result elements of all batches.
pub open spec fn result_elements<T>(f: OpProfile<T>) -> int {
    f.elements * f.batch
}

impl<T: Scalar> PhotonicParams<T> {
    pub open spec fn priced(&self, ph: Physics<T>, p: Primitive, f: OpProfile<T>) -> Cost<T> {
        if is_photonic(p.id) && f.matmul_macs is Some {
            let macs = T::of_count(f.matmul_macs->0);
            let elems = T::of_count(result_elements(f) as u64);
            let eff = if self.laser_efficiency.at_least(ph.laser_floor) {
                self.laser_efficiency
            } else {
                ph.laser_floor
            };
            let wdm = if self.wdm_channels >= 1 {
                self.wdm_channels as u64
            } else {
                1
            };
            let optical = macs.product(self.optical_j_per_mac).quotient(eff);
            let modulator = T::of_count(2).product(macs).product(
                T::of_count(f.operand_bits),
            ).product(self.modulator_j_per_bit);
            Cost {
                joules_per_op: optical.sum(modulator).sum(elems.product(self.adc_j_per_sample)),
                seconds_per_op: elems.quotient(
                    T::of_count(PHOTONIC_RATE).product(T::of_count(wdm)),
                ),
                accuracy_loss: ph.photonic_loss,
            }
        } else {
            Cost {
                joules_per_op: ph.photonic_default_j,
                seconds_per_op: T::of_count(1).quotient(T::of_count(PHOTONIC_RATE)),
                accuracy_loss: ph.photonic_loss,
            }
        }
    }

    /// Laser, modulators and converters of one invocation.
    pub fn cost(&self, ph: &Physics<T>, p: &Primitive, f: &OpProfile<T>) -> (r: Cost<T>)
        requires
            result_elements(*f) <= u64::MAX,
        ensures
            r == self.priced(*ph, *p, *f),
    {
        if photonic_class(p.id) {
            if let Some(n) = f.matmul_macs {
                let macs = T::from_count(n);
                let elems = T::from_count(f.elements * f.batch);
                let eff = if self.laser_efficiency.reaches(ph.laser_floor) {
                    self.laser_efficiency
                } else {
                    ph.laser_floor
                };
                let wdm: u64 = if self.wdm_channels >= 1 {
                    self.wdm_channels as u64
                } else {
                    1
                };
                let optical = macs.times(self.optical_j_per_mac).over(eff);
                let modulator = T::from_count(2).times(macs).times(
                    T::from_count(f.operand_bits),
                ).times(self.modulator_j_per_bit);
                return Cost {
                    joules_per_op: optical.plus(modulator).plus(
                        elems.times(self.adc_j_per_sample),
                    ),
                    seconds_per_op: elems.over(
                        T::from_count(PHOTONIC_RATE).times(T::from_count(wdm)),
                    ),
                    accuracy_loss: ph.photonic_loss,
                };
            }
        }
        Cost {
            joules_per_op: ph.photonic_default_j,
            seconds_per_op: T::from_count(1).over(T::from_count(PHOTONIC_RATE)),
            accuracy_loss: ph.photonic_loss,
        }
    }
}

/// Crossbar tiles that a reduction of `k` takes on arrays of `size` rows: the
/// least number whose rows hold it, at least one.
pub open spec fn tiles(k: int, size: int) -> int {
    let whole = (k + size - 1) / size;
    if whole >= 1 {
        whole
    } else {
        1
    }
}

/// Larger arrays never take more tiles.
pub proof fn larger_arrays_save_tiles(k: int, small: int, large: int)
    requires
        0 <= k,
        1 <= small <= large,
    ensures
        tiles(k, large) <= tiles(k, small),
{
    if k > 0 {
        assert((k + large - 1) / large == (k - 1) / large + 1) by (nonlinear_arith)
            requires
                k >= 1,
                large >= 1,
        ;
        assert((k + small - 1) / small == (k - 1) / small + 1) by (nonlinear_arith)
            requires
                k >= 1,
                small >= 1,
        ;
        vstd::arithmetic::div_mod::lemma_div_is_ordered_by_denominator(k - 1, small, large);
    } else {
        assert((large - 1) / large == 0) by (nonlinear_arith)
            requires
                large >= 1,
        ;
        assert((small - 1) / small == 0) by (nonlinear_arith)
            requires
                small >= 1,
        ;
    }
}

/// The tiles hold the reduction, and no fewer would.
pub proof fn tiles_just_cover(k: int, size: int)
    requires
        1 <= k,
        1 <= size,
    ensures
        k <= tiles(k, size) * size,
        (tiles(k, size) - 1) * size < k,
{
    let t = (k - 1) / size;
    assert((k + size - 1) / size == t + 1) by (nonlinear_arith)
        requires
            k >= 1,
            size >= 1,
            t == (k - 1) / size,
    ;
    assert(t >= 0 && t * size <= k - 1 < (t + 1) * size) by (nonlinear_arith)
        requires
            k >= 1,
            size >= 1,
            t == (k - 1) / size,
    ;
}

fn k_tiles(k: u64, size: u32) -> (r: u64)
    requires
        size >= 1,
    ensures
        r == tiles(k as int, size as int),
{
    if k == 0 {
        assert((0 + size as int - 1) / size as int == 0) by (nonlinear_arith)
            requires
                size >= 1,
        ;
        return 1;
    }
    let r: u64 = (k - 1) / size as u64 + 1;
    proof {
        let (x, m) = (k as int, size as int);
        assert((x + m - 1) / m == (x - 1) / m + 1) by (nonlinear_arith)
            requires
                x >= 1,
                m >= 1,
        ;
        assert((x - 1) / m <= x - 1) by (nonlinear_arith)
            requires
                x >= 1,
                m >= 1,
        ;
        assert((x - 1) / m >= 0) by (nonlinear_arith)
            requires
                x >= 1,
                m >= 1,
        ;
    }
    r
}

impl<T: Scalar> InMemoryParams<T> {
    pub open spec fn priced(&self, ph: Physics<T>, p: Primitive, f: OpProfile<T>) -> Cost<T> {
        if is_crossbar(p.id) && f.matmul_macs is Some {
            let macs = T::of_count(f.matmul_macs->0);
            let elems = T::of_count(result_elements(f) as u64);
            let k = f.reduce_dim.unwrap_or(64);
            let size = if self.crossbar_size >= 1 {
                self.crossbar_size as int
            } else {
                1
            };
            let shots = elems.product(T::of_count(tiles(k as int, size) as u64));
            let crossbar = macs.product(self.device_j_per_mac);
            let dac = macs.quotient(T::of_count(k)).product(T::of_count(f.operand_bits)).product(
                self.dac_j_per_bit,
            );
            Cost {
                joules_per_op: crossbar.sum(dac).sum(shots.product(self.adc_j_per_sample)),
                seconds_per_op: shots.quotient(T::of_count(IN_MEMORY_RATE)),
                accuracy_loss: ph.in_memory_loss,
            }
        } else {
            Cost {
                joules_per_op: ph.in_memory_default_j,
                seconds_per_op: T::of_count(1).quotient(T::of_count(IN_MEMORY_RATE)),
                accuracy_loss: ph.in_memory_loss,
            }
        }
    }

    /// Device current, row drivers and column converters of one invocation.
    pub fn cost(&self, ph: &Physics<T>, p: &Primitive, f: &OpProfile<T>) -> (r: Cost<T>)
        requires
            result_elements(*f) <= u64::MAX,
        ensures
            r == self.priced(*ph, *p, *f),
    {
        if crossbar_class(p.id) {
            if let Some(n) = f.matmul_macs {
                let macs = T::from_count(n);
                let elems = T::from_count(f.elements * f.batch);
                let k: u64 = f.reduce_dim.unwrap_or(64);
                let size: u32 = if self.crossbar_size >= 1 {
                    self.crossbar_size
                } else {
                    1
                };
                let shots = elems.times(T::from_count(k_tiles(k, size)));
                let crossbar = macs.times(self.device_j_per_mac);
                let dac = macs.over(T::from_count(k)).times(T::from_count(f.operand_bits)).times(
                    self.dac_j_per_bit,
                );
                return Cost {
                    joules_per_op: crossbar.plus(dac).plus(shots.times(self.adc_j_per_sample)),
                    seconds_per_op: shots.over(T::from_count(IN_MEMORY_RATE)),
                    accuracy_loss: ph.in_memory_loss,
                };
            }
        }
        Cost {
            joules_per_op: ph.in_memory_default_j,
            seconds_per_op: T::from_count(1).over(T::from_count(IN_MEMORY_RATE)),
            accuracy_loss: ph.in_memory_loss,
        }
    }
}

/// Adiabatic logic.
pub struct Reversible;

impl Reversible {
    pub open spec fn priced<T: Scalar>(ph: Physics<T>, p: Primitive, f: OpProfile<T>) -> Cost<T> {
        let percent = reversible_percent(p.id, p.is_l0, p.has_bennett);
        let fraction = T::of_count(percent).quotient(T::of_count(100));
        let floor = T::of_count(bits_erased(thermo_class(p.thermo@))).product(ph.landauer);
        let ops = baseline_ops(p, f);
        let free = fraction.product(T::of_count(REVERSIBLE_OVERHEAD_L0)).product(floor);
        let paid = T::of_count(1).difference(fraction).product(
            T::of_count(REVERSIBLE_OVERHEAD_L2),
        ).product(floor);
        Cost {
            joules_per_op: free.sum(paid).product(ops),
            seconds_per_op: ops.quotient(T::of_count(REVERSIBLE_RATE)),
            accuracy_loss: T::zero_value(),
        }
    }

    /// The bijective share at the adiabatic overhead, the rest at the
    /// irreversible one.
    pub fn cost<T: Scalar>(&self, ph: &Physics<T>, p: &Primitive, f: &OpProfile<T>) -> (r: Cost<T>)
        ensures
            r == Self::priced(*ph, *p, *f),
    {
        let fraction = T::from_count(reversible_fraction(p)).over(T::from_count(100));
        let floor = T::from_count(bits_erased_per_op(p)).times(ph.landauer);
        let free = fraction.times(T::from_count(REVERSIBLE_OVERHEAD_L0)).times(floor);
        let paid = T::from_count(1).minus(fraction).times(
            T::from_count(REVERSIBLE_OVERHEAD_L2),
        ).times(floor);
        let ops = ops_per_invocation(p, f);
        Cost {
            joules_per_op: free.plus(paid).times(ops),
            seconds_per_op: ops.over(T::from_count(REVERSIBLE_RATE)),
            accuracy_loss: T::zero(),
        }
    }
}

/// Adiabatic logic and the baseline are compared over the same operations:
/// each takes as many of its own operation times.
pub proof fn same_scaling<T: Scalar>(ph: Physics<T>, p: Primitive, f: OpProfile<T>)
    ensures
        exists|ops: T|
            {
                &&& Baseline::priced(ph, p, f).seconds_per_op == #[trigger] ops.quotient(
                    T::of_count(BASELINE_RATE),
                )
                &&& Reversible::priced(ph, p, f).seconds_per_op == ops.quotient(
                    T::of_count(REVERSIBLE_RATE),
                )
            },
{
    let ops = baseline_ops(p, f);
    assert(Baseline::priced(ph, p, f).seconds_per_op == ops.quotient(T::of_count(BASELINE_RATE)));
}

impl<T: Scalar> NeuromorphicParams<T> {
    /// Share of neurons that fire: what is not sparse, between none and all;
    /// the default where a workload leaves sparsity at zero.
    pub open spec fn activity(ph: Physics<T>, sparsity: T) -> T {
        if T::zero_value().less_than(sparsity) {
            let a = T::of_count(1).difference(sparsity);
            if a.less_than(T::zero_value()) {
                T::zero_value()
            } else if T::of_count(1).less_than(a) {
                T::of_count(1)
            } else {
                a
            }
        } else {
            ph.default_activity
        }
    }

    pub open spec fn priced(&self, ph: Physics<T>, p: Primitive, f: OpProfile<T>) -> Cost<T> {
        let neurons = T::of_count(f.variables.unwrap_or(DEFAULT_NEURONS));
        let timesteps = T::of_count(f.sweeps.unwrap_or(DEFAULT_TIMESTEPS));
        let fanout = T::of_count(f.reduce_dim.unwrap_or(self.default_fanout as u64));
        let batch = T::of_count(f.batch);
        let events = neurons.product(timesteps).product(Self::activity(ph, f.sparsity)).product(
            batch,
        );
        let sop = events.product(fanout).product(self.sop_j);
        let update = neurons.product(timesteps).product(batch).product(self.neuron_update_j);
        let plastic = if p.id == PRIM_STDP {
            events.product(fanout).product(self.plasticity_j)
        } else {
            T::zero_value()
        };
        Cost {
            joules_per_op: sop.sum(update).sum(plastic),
            seconds_per_op: timesteps.product(batch).quotient(T::of_count(NEUROMORPHIC_RATE)),
            accuracy_loss: ph.neuromorphic_loss,
        }
    }

    /// Synaptic events, membrane updates and, for learning, plasticity.
    pub fn cost(&self, ph: &Physics<T>, p: &Primitive, f: &OpProfile<T>) -> (r: Cost<T>)
        ensures
            r == self.priced(*ph, *p, *f),
    {
        let neurons = T::from_count(f.variables.unwrap_or(DEFAULT_NEURONS));
        let timesteps = T::from_count(f.sweeps.unwrap_or(DEFAULT_TIMESTEPS));
        let fanout = T::from_count(f.reduce_dim.unwrap_or(self.default_fanout as u64));
        let batch = T::from_count(f.batch);
        let activity = if T::zero().below(f.sparsity) {
            let a = T::from_count(1).minus(f.sparsity);
            if a.below(T::zero()) {
                T::zero()
            } else if T::from_count(1).below(a) {
                T::from_count(1)
            } else {
                a
            }
        } else {
            ph.default_activity
        };
        let events = neurons.times(timesteps).times(activity).times(batch);
        let sop = events.times(fanout).times(self.sop_j);
        let update = neurons.times(timesteps).times(batch).times(self.neuron_update_j);
        let plastic = if p.id == PRIM_STDP {
            events.times(fanout).times(self.plasticity_j)
        } else {
            T::zero()
        };
        Cost {
            joules_per_op: sop.plus(update).plus(plastic),
            seconds_per_op: timesteps.times(batch).over(T::from_count(NEUROMORPHIC_RATE)),
            accuracy_loss: ph.neuromorphic_loss,
        }
    }
}

} // verus!
