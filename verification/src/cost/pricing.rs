//! What each dialect charges for: how energy and time follow the shape of an
//! invocation and the parameters of the hardware.
//!
//! The laws are ones of exact arithmetic.

use crate::cost::catalog::{thermo_class, OpProfile, Primitive};
use crate::cost::dialects::{baseline_overhead, bits_erased, is_crossbar, is_matmul, is_photonic};
use crate::cost::dialects::{is_sampling, reversible_percent, synapse_updates, tiles, Baseline};
use crate::cost::dialects::{InMemoryParams, NeuromorphicParams, PhotonicParams, Physics};
use crate::cost::dialects::{Reversible, Stochastic, BASELINE_RATE, IN_MEMORY_RATE};
use crate::cost::dialects::{NEUROMORPHIC_RATE, NEURO_FAMILY, PHOTONIC_RATE, PRIM_STDP};
use crate::cost::dialects::{REVERSIBLE_OVERHEAD_L0, REVERSIBLE_OVERHEAD_L2, REVERSIBLE_RATE};
use crate::cost::dialects::STOCHASTIC_RATE;
use crate::exact::{counts_at, exact_counts, exact_field, lemma_count_product, lemma_quotient};
use crate::exact::{lemma_spread, reals};
use crate::scalar::Scalar;
use vstd::prelude::*;

verus! {

/// Numbers in which the rates of the dialects are not zero.
pub open spec fn rated<T: Scalar>() -> bool {
    &&& exact_field::<T>()
    &&& exact_counts::<T>()
    &&& T::of_count(BASELINE_RATE) != T::zero_value()
    &&& T::of_count(STOCHASTIC_RATE) != T::zero_value()
    &&& T::of_count(PHOTONIC_RATE) != T::zero_value()
    &&& T::of_count(IN_MEMORY_RATE) != T::zero_value()
    &&& T::of_count(REVERSIBLE_RATE) != T::zero_value()
    &&& T::of_count(NEUROMORPHIC_RATE) != T::zero_value()
    &&& T::of_count(100) != T::zero_value()
}

/// Energy of `n` operations on the baseline: each erases the bits of its class
/// at the overhead of general-purpose silicon.
pub open spec fn erased<T: Scalar>(ph: Physics<T>, p: Primitive, overhead: u64, n: u64) -> T {
    T::of_count(n).product(
        T::of_count(overhead).product(
            T::of_count(bits_erased(thermo_class(p.thermo@))).product(ph.landauer),
        ),
    )
}

/// The baseline charges a multiply by its multiply-accumulates and a sampler by
/// its sample events, each one an operation of the primitive's class; where a
/// profile names none, and for every other primitive, it is one. Its time is
/// that of as many operations at the rate of the baseline.
pub proof fn baseline_charges_operations<T: Scalar>(
    ph: Physics<T>,
    p: Primitive,
    f: OpProfile<T>,
    n: u64,
)
    requires
        rated::<T>(),
        p.family@ != NEURO_FAMILY@,
        is_matmul(p.id) ==> n == (match f.matmul_macs {
            Some(m) => m,
            None => 1,
        }),
        !is_matmul(p.id) && is_sampling(p.id) ==> n == (match f.sample_events {
            Some(m) => m,
            None => 1,
        }),
        !is_matmul(p.id) && !is_sampling(p.id) ==> n == 1,
    ensures
        ({
            let c = Baseline::priced(ph, p, f);
            &&& c.joules_per_op == erased(ph, p, baseline_overhead(thermo_class(p.thermo@)), n)
            &&& c.seconds_per_op.product(T::of_count(BASELINE_RATE)) == T::of_count(n)
            &&& c.accuracy_loss == T::zero_value()
        }),
{
    let t = thermo_class(p.thermo@);
    let floor = T::of_count(bits_erased(t)).product(ph.landauer);
    let k = T::of_count(baseline_overhead(t));
    let ops = T::of_count(n);
    reals(floor, k, ops);
    reals(floor.product(k), ops, ops);
    lemma_quotient(ops, T::of_count(BASELINE_RATE));
}

/// The baseline charges a spiking run by every synapse of every neuron in every
/// timestep, once per member of the batch.
pub proof fn baseline_charges_every_synapse<T: Scalar>(
    ph: Physics<T>,
    p: Primitive,
    f: OpProfile<T>,
    neurons: u64,
    steps: u64,
    fanout: u64,
)
    requires
        rated::<T>(),
        p.family@ == NEURO_FAMILY@,
        f.variables == Some(neurons),
        f.sweeps == Some(steps),
        f.reduce_dim == Some(fanout),
        neurons * steps <= u64::MAX,
        (neurons * steps) * fanout <= u64::MAX,
        ((neurons * steps) * fanout) * f.batch <= u64::MAX,
    ensures
        ({
            let n = (((neurons * steps) * fanout) * f.batch) as u64;
            let c = Baseline::priced(ph, p, f);
            &&& synapse_updates(f) == T::of_count(n)
            &&& c.joules_per_op == erased(ph, p, baseline_overhead(thermo_class(p.thermo@)), n)
            &&& c.seconds_per_op.product(T::of_count(BASELINE_RATE)) == T::of_count(n)
        }),
{
    lemma_count_product::<T>(neurons, steps);
    lemma_count_product::<T>((neurons * steps) as u64, fanout);
    lemma_count_product::<T>(((neurons * steps) * fanout) as u64, f.batch);
    let t = thermo_class(p.thermo@);
    let floor = T::of_count(bits_erased(t)).product(ph.landauer);
    let k = T::of_count(baseline_overhead(t));
    let ops = synapse_updates(f);
    reals(floor, k, ops);
    reals(floor.product(k), ops, ops);
    lemma_quotient(ops, T::of_count(BASELINE_RATE));
}

/// A stochastic run pays one sample per p-bit and sweep and one readout per
/// sweep, for every member of the batch; it takes one tick per sweep.
pub proof fn stochastic_run_pays_per_sweep<T: Scalar>(
    ph: Physics<T>,
    f: OpProfile<T>,
    sweeps: u64,
    bits: u64,
)
    requires
        rated::<T>(),
        f.sweeps == Some(sweeps),
        f.variables == Some(bits),
        Stochastic::countable(f),
    ensures
        ({
            let c = Stochastic::priced(ph, f);
            let per_sweep = T::of_count(bits).product(ph.pbit_j_per_sample).sum(
                ph.readout_j_per_sweep,
            );
            let n = (sweeps * f.batch) as u64;
            &&& c.joules_per_op == T::of_count(n).product(per_sweep)
            &&& c.seconds_per_op.product(T::of_count(STOCHASTIC_RATE)) == T::of_count(n)
            &&& c.accuracy_loss == T::zero_value()
        }),
{
    let (s, b, m) = (T::of_count(sweeps), T::of_count(bits), T::of_count(f.batch));
    lemma_count_product::<T>(sweeps, bits);
    lemma_count_product::<T>((sweeps * bits) as u64, f.batch);
    lemma_count_product::<T>(sweeps, f.batch);
    let n = s.product(m);
    // (s.b).m.x = (s.m).(b.x)
    reals(s, b, m);
    reals(b, m, m);
    reals(s, m, b);
    reals(n, b, ph.pbit_j_per_sample);
    reals(n, b.product(ph.pbit_j_per_sample), ph.readout_j_per_sweep);
    lemma_quotient(n, T::of_count(STOCHASTIC_RATE));
}

/// A stochastic run that names no sweeps or no p-bits is one of a thousand
/// sweeps and of 64 p-bits.
pub proof fn stochastic_defaults<T: Scalar>(ph: Physics<T>, f: OpProfile<T>)
    ensures
        f.sweeps is None ==> Stochastic::priced(ph, f) == Stochastic::priced(
            ph,
            OpProfile { sweeps: Some(1000), ..f },
        ),
        f.variables is None ==> Stochastic::priced(ph, f) == Stochastic::priced(
            ph,
            OpProfile { variables: Some(64), ..f },
        ),
{
}

/// A coherent mesh pays the laser for every multiply-accumulate, over its
/// efficiency; the modulators for every bit of both operands; and one
/// conversion for every element of the result. Wavelengths share the time and
/// not the energy.
pub proof fn mesh_pays_light_bits_and_samples<T: Scalar>(
    hw: PhotonicParams<T>,
    ph: Physics<T>,
    p: Primitive,
    f: OpProfile<T>,
    macs: u64,
)
    requires
        rated::<T>(),
        is_photonic(p.id),
        f.matmul_macs == Some(macs),
        hw.laser_efficiency.at_least(ph.laser_floor),
        hw.laser_efficiency != T::zero_value(),
        hw.wdm_channels >= 1,
        T::of_count(PHOTONIC_RATE).product(T::of_count(hw.wdm_channels as u64)) != T::zero_value(),
        f.elements * f.batch <= u64::MAX,
        2 * macs <= u64::MAX,
        (2 * macs) * f.operand_bits <= u64::MAX,
    ensures
        ({
            let c = hw.priced(ph, p, f);
            let elems = T::of_count((f.elements * f.batch) as u64);
            let electric = T::of_count(((2 * macs) * f.operand_bits) as u64).product(
                hw.modulator_j_per_bit,
            ).sum(elems.product(hw.adc_j_per_sample));
            let light = c.joules_per_op.difference(electric);
            &&& light.product(hw.laser_efficiency) == T::of_count(macs).product(hw.optical_j_per_mac)
            &&& c.seconds_per_op.product(T::of_count(hw.wdm_channels as u64)).product(
                T::of_count(PHOTONIC_RATE),
            ) == elems
            &&& c.accuracy_loss == ph.photonic_loss
        }),
{
    let c = hw.priced(ph, p, f);
    let m = T::of_count(macs);
    let elems = T::of_count((f.elements * f.batch) as u64);
    let eff = hw.laser_efficiency;
    let light = m.product(hw.optical_j_per_mac).quotient(eff);
    lemma_count_product::<T>(2, macs);
    lemma_count_product::<T>((2 * macs) as u64, f.operand_bits);
    let modulator = T::of_count(((2 * macs) * f.operand_bits) as u64).product(
        hw.modulator_j_per_bit,
    );
    let adc = elems.product(hw.adc_j_per_sample);
    let electric = modulator.sum(adc);
    reals(light, modulator, adc);
    lemma_other(light, electric);
    lemma_quotient(m.product(hw.optical_j_per_mac), eff);
    let (r, w) = (T::of_count(PHOTONIC_RATE), T::of_count(hw.wdm_channels as u64));
    lemma_quotient(elems, r.product(w));
    reals(c.seconds_per_op, w, r);
    reals(w, r, r);
}

/// `(x + y) - y` is `x`.
proof fn lemma_other<T: Scalar>(x: T, y: T)
    requires
        exact_counts::<T>(),
    ensures
        x.sum(y).difference(y) == x,
{
    reals(x, y, y.negative());
    reals(x.sum(y), y, y);
    reals(y, y.negative(), y);
    reals(x, x, x);
}

/// A laser below the least efficiency is taken at that efficiency, no
/// wavelength counts as one, and what has no multiplies is charged the default.
pub proof fn mesh_defaults<T: Scalar>(
    hw: PhotonicParams<T>,
    ph: Physics<T>,
    p: Primitive,
    f: OpProfile<T>,
)
    requires
        rated::<T>(),
        ph.laser_floor.at_least(ph.laser_floor),
    ensures
        !hw.laser_efficiency.at_least(ph.laser_floor) ==> hw.priced(ph, p, f) == (PhotonicParams {
            laser_efficiency: ph.laser_floor,
            ..hw
        }).priced(ph, p, f),
        hw.wdm_channels == 0 ==> hw.priced(ph, p, f) == (PhotonicParams {
            wdm_channels: 1,
            ..hw
        }).priced(ph, p, f),
        !is_photonic(p.id) || f.matmul_macs is None ==> ({
            let c = hw.priced(ph, p, f);
            &&& c.joules_per_op == ph.photonic_default_j
            &&& c.seconds_per_op.product(T::of_count(PHOTONIC_RATE)) == T::of_count(1)
        }),
{
    lemma_quotient(T::of_count(1), T::of_count(PHOTONIC_RATE));
}

/// Tiles of a crossbar just hold the reduction.
pub open spec fn holds(t: u64, k: u64, size: u64) -> bool {
    &&& t >= 1
    &&& k <= t * size
    &&& t > 1 ==> (t - 1) * size < k
}

/// A crossbar pays the devices for every multiply-accumulate; the converters in
/// front for every bit of an input, each of which serves the whole reduction;
/// and one conversion behind it for every element of the result and every tile
/// that the reduction takes. It takes one shot for each of those.
pub proof fn crossbar_pays_devices_and_converters<T: Scalar>(
    hw: InMemoryParams<T>,
    ph: Physics<T>,
    p: Primitive,
    f: OpProfile<T>,
    macs: u64,
    k: u64,
    t: u64,
)
    requires
        rated::<T>(),
        is_crossbar(p.id),
        f.matmul_macs == Some(macs),
        f.reduce_dim == Some(k),
        k >= 1,
        T::of_count(k) != T::zero_value(),
        hw.crossbar_size >= 1,
        holds(t, k, hw.crossbar_size as u64),
        f.elements * f.batch <= u64::MAX,
        (f.elements * f.batch) * t <= u64::MAX,
        macs * f.operand_bits <= u64::MAX,
    ensures
        ({
            let c = hw.priced(ph, p, f);
            let shots = T::of_count(((f.elements * f.batch) * t) as u64);
            let rest = T::of_count(macs).product(hw.device_j_per_mac).sum(
                shots.product(hw.adc_j_per_sample),
            );
            let inputs = c.joules_per_op.difference(rest);
            &&& inputs.product(T::of_count(k)) == T::of_count(
                (macs * f.operand_bits) as u64,
            ).product(hw.dac_j_per_bit)
            &&& c.seconds_per_op.product(T::of_count(IN_MEMORY_RATE)) == shots
            &&& c.accuracy_loss == ph.in_memory_loss
        }),
{
    let c = hw.priced(ph, p, f);
    let size = hw.crossbar_size as int;
    lemma_tiles(t as int, k as int, size);
    let elems = T::of_count((f.elements * f.batch) as u64);
    lemma_count_product::<T>((f.elements * f.batch) as u64, t);
    let shots = elems.product(T::of_count(t));
    let (m, q, b) = (T::of_count(macs), T::of_count(k), T::of_count(f.operand_bits));
    let dac = m.quotient(q).product(b).product(hw.dac_j_per_bit);
    let dev = m.product(hw.device_j_per_mac);
    let adc = shots.product(hw.adc_j_per_sample);
    // (dev + dac) + adc = dac + (dev + adc)
    reals(dev, dac, adc);
    reals(dac, dev, adc);
    lemma_other(dac, dev.sum(adc));
    // dac.q = (m/q).q.b.j
    lemma_quotient(m, q);
    let (x, j) = (m.quotient(q), hw.dac_j_per_bit);
    reals(x, b, j);
    reals(x, b.product(j), q);
    reals(b.product(j), q, q);
    reals(x, q, b.product(j));
    reals(m, b, j);
    lemma_count_product::<T>(macs, f.operand_bits);
    lemma_quotient(shots, T::of_count(IN_MEMORY_RATE));
}

proof fn lemma_tiles(t: int, k: int, size: int)
    requires
        k >= 1,
        size >= 1,
        t >= 1,
        k <= t * size,
        t > 1 ==> (t - 1) * size < k,
    ensures
        tiles(k, size) == t,
{
    crate::cost::dialects::tiles_just_cover(k, size);
    let u = tiles(k, size);
    assert((t - 1) * size < k) by {
        if t == 1 {
            assert(0 * size == 0);
        }
    }
    assert(u == t) by (nonlinear_arith)
        requires
            size >= 1,
            k <= u * size,
            (u - 1) * size < k,
            k <= t * size,
            (t - 1) * size < k,
    ;
}

/// A reduction that is not named is one over 64, and what has no multiplies is
/// charged the default.
pub proof fn crossbar_defaults<T: Scalar>(
    hw: InMemoryParams<T>,
    ph: Physics<T>,
    p: Primitive,
    f: OpProfile<T>,
)
    requires
        rated::<T>(),
    ensures
        f.reduce_dim is None ==> hw.priced(ph, p, f) == hw.priced(
            ph,
            p,
            OpProfile { reduce_dim: Some(64), ..f },
        ),
        hw.crossbar_size == 0 ==> hw.priced(ph, p, f) == (InMemoryParams {
            crossbar_size: 1,
            ..hw
        }).priced(ph, p, f),
        !is_crossbar(p.id) || f.matmul_macs is None ==> ({
            let c = hw.priced(ph, p, f);
            &&& c.joules_per_op == ph.in_memory_default_j
            &&& c.seconds_per_op.product(T::of_count(IN_MEMORY_RATE)) == T::of_count(1)
        }),
{
    lemma_quotient(T::of_count(1), T::of_count(IN_MEMORY_RATE));
}

/// Adiabatic logic pays the bijective share of an operation at one overhead and
/// the rest at the other: a hundred operations pay as many of the one as the
/// share has percent, and the others of the other. Its time is that of the
/// baseline's operations at its own rate.
pub proof fn adiabatic_logic_pays_by_shares<T: Scalar>(
    ph: Physics<T>,
    p: Primitive,
    f: OpProfile<T>,
    n: u64,
)
    requires
        rated::<T>(),
        p.family@ != NEURO_FAMILY@,
        n == crate::cost::dialects::baseline_atomic(p.id, f),
    ensures
        ({
            let c = Reversible::priced(ph, p, f);
            let percent = reversible_percent(p.id, p.is_l0, p.has_bennett);
            let mixed = T::of_count(percent).product(erased(ph, p, REVERSIBLE_OVERHEAD_L0, n)).sum(
                T::of_count((100 - percent) as u64).product(
                    erased(ph, p, REVERSIBLE_OVERHEAD_L2, n),
                ),
            );
            &&& percent <= 100
            &&& T::of_count(100).product(c.joules_per_op) == mixed
            &&& c.seconds_per_op.product(T::of_count(REVERSIBLE_RATE)) == T::of_count(n)
            &&& c.accuracy_loss == T::zero_value()
        }),
{
    let percent = reversible_percent(p.id, p.is_l0, p.has_bennett);
    let (h, one) = (T::of_count(100), T::of_count(1));
    let q = T::of_count(percent);
    let r = T::of_count((100 - percent) as u64);
    let x = q.quotient(h);
    lemma_quotient(q, h);
    // h.(1 - x) = h - q = r
    assert(counts_at::<T>((100 - percent) as u64, percent));
    lemma_other(r, q);
    lemma_spread(one, x, h);
    reals(h, one, one);
    reals(h, q, q);
    assert(h.product(one.difference(x)) == r);
    let floor = T::of_count(bits_erased(thermo_class(p.thermo@))).product(ph.landauer);
    let (a, b) = (T::of_count(REVERSIBLE_OVERHEAD_L0), T::of_count(REVERSIBLE_OVERHEAD_L2));
    let ops = T::of_count(n);
    let y = one.difference(x);
    lemma_share(h, x, a, floor, ops);
    lemma_share(h, y, b, floor, ops);
    let (u, v) = (x.product(a).product(floor), y.product(b).product(floor));
    lemma_spread(u, v, ops);
    reals(h, u.product(ops), v.product(ops));
    lemma_quotient(ops, T::of_count(REVERSIBLE_RATE));
}

/// `h.(((x.a).f).n)` is `(h.x).(n.(a.f))`.
proof fn lemma_share<T: Scalar>(h: T, x: T, a: T, f: T, n: T)
    requires
        exact_counts::<T>(),
    ensures
        h.product(x.product(a).product(f).product(n)) == h.product(x).product(
            n.product(a.product(f)),
        ),
{
    reals(x, a, f);
    reals(x, a.product(f), n);
    reals(a.product(f), n, n);
    reals(h, x, n.product(a.product(f)));
}

/// Activity is what sparsity leaves: the two make up one, where sparsity lies
/// between none and all; beyond all there is none, and where a workload names
/// none it is the default.
pub proof fn activity_is_what_sparsity_leaves<T: Scalar>(ph: Physics<T>, sparsity: T)
    requires
        rated::<T>(),
    ensures
        ({
            let (zero, one) = (T::zero_value(), T::of_count(1));
            let rest = one.difference(sparsity);
            let a = NeuromorphicParams::activity(ph, sparsity);
            &&& !zero.less_than(sparsity) ==> a == ph.default_activity
            &&& zero.less_than(sparsity) && !rest.less_than(zero) && !one.less_than(rest)
                ==> a.sum(sparsity) == one
            &&& zero.less_than(sparsity) && rest.less_than(zero) ==> a == zero
        }),
{
    let one = T::of_count(1);
    reals(one, sparsity, sparsity);
    reals(one, sparsity.negative(), sparsity);
    reals(sparsity.negative(), sparsity, one);
    reals(sparsity, sparsity.negative(), one);
    reals(one, one, one);
}

/// Spiking hardware pays one membrane update per neuron and timestep and one
/// synaptic operation per spike and synapse, for every member of the batch;
/// learning adds its own price to every synaptic operation. It takes one tick
/// per timestep.
pub proof fn spiking_hardware_pays_per_spike<T: Scalar>(
    hw: NeuromorphicParams<T>,
    ph: Physics<T>,
    p: Primitive,
    f: OpProfile<T>,
    neurons: u64,
    steps: u64,
    fanout: u64,
)
    requires
        rated::<T>(),
        f.variables == Some(neurons),
        f.sweeps == Some(steps),
        f.reduce_dim == Some(fanout),
        neurons * steps <= u64::MAX,
        (neurons * steps) * f.batch <= u64::MAX,
        steps * f.batch <= u64::MAX,
    ensures
        ({
            let c = hw.priced(ph, p, f);
            let updates = T::of_count(((neurons * steps) * f.batch) as u64);
            let per_synapse = if p.id == PRIM_STDP {
                hw.sop_j.sum(hw.plasticity_j)
            } else {
                hw.sop_j
            };
            let per_spike = T::of_count(fanout).product(per_synapse);
            let spikes = NeuromorphicParams::activity(ph, f.sparsity);
            &&& c.joules_per_op == updates.product(
                hw.neuron_update_j.sum(spikes.product(per_spike)),
            )
            &&& c.seconds_per_op.product(T::of_count(NEUROMORPHIC_RATE)) == T::of_count(
                (steps * f.batch) as u64,
            )
            &&& c.accuracy_loss == ph.neuromorphic_loss
        }),
{
    let (n, s, k) = (T::of_count(neurons), T::of_count(steps), T::of_count(fanout));
    let (b, a) = (T::of_count(f.batch), NeuromorphicParams::activity(ph, f.sparsity));
    lemma_count_product::<T>(neurons, steps);
    lemma_count_product::<T>((neurons * steps) as u64, f.batch);
    lemma_count_product::<T>(steps, f.batch);
    let ns = n.product(s);
    let u = ns.product(b);
    // ns.a.b = u.a
    reals(ns, a, b);
    reals(a, b, b);
    reals(ns, b, a);
    let events = u.product(a);
    let (x, y, z) = (hw.sop_j, hw.plasticity_j, hw.neuron_update_j);
    // events.k.x = u.(a.(k.x))
    lemma_spikes(u, a, k, x);
    lemma_spikes(u, a, k, y);
    reals(k, x, y);
    let (kx, ky) = (k.product(x), k.product(y));
    reals(a, kx, ky);
    let (ax, ay) = (a.product(kx), a.product(ky));
    let (sop, update, plastic) = (u.product(ax), u.product(z), u.product(ay));
    reals(u, z, ax);
    reals(sop, update, plastic);
    reals(update, sop, plastic);
    reals(sop.sum(update), plastic, plastic);
    reals(u, z, ax.sum(ay));
    reals(u, ax, ay);
    lemma_quotient(s.product(b), T::of_count(NEUROMORPHIC_RATE));
}

/// `((u.a).k).x` is `u.(a.(k.x))`.
proof fn lemma_spikes<T: Scalar>(u: T, a: T, k: T, x: T)
    requires
        exact_counts::<T>(),
    ensures
        u.product(a).product(k).product(x) == u.product(a.product(k.product(x))),
{
    reals(u.product(a), k, x);
    reals(u, a, k.product(x));
}

/// A spiking run that names no neurons, timesteps or fan-out is one of 1024
/// neurons, a thousand timesteps and the fan-out of the hardware.
pub proof fn spiking_defaults<T: Scalar>(
    hw: NeuromorphicParams<T>,
    ph: Physics<T>,
    p: Primitive,
    f: OpProfile<T>,
)
    ensures
        f.variables is None ==> hw.priced(ph, p, f) == hw.priced(
            ph,
            p,
            OpProfile { variables: Some(1024), ..f },
        ),
        f.sweeps is None ==> hw.priced(ph, p, f) == hw.priced(
            ph,
            p,
            OpProfile { sweeps: Some(1000), ..f },
        ),
        f.reduce_dim is None ==> hw.priced(ph, p, f) == hw.priced(
            ph,
            p,
            OpProfile { reduce_dim: Some(hw.default_fanout as u64), ..f },
        ),
{
}

} // verus!
