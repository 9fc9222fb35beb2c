//! Simulated annealing and fixed-temperature sampling.
//!
//! Random decisions come in as functions of where in the run they are made:
//! the sweep, its inverse temperature, the update within the sweep, and the
//! local field of the spin.

use crate::progress::{heard, lemma_heard_more, lemma_heard_nothing, Listener};
use crate::scalar::Scalar;
use crate::stochastic::chain::{copy_spins, lone_ticks, moved, traced};
use crate::stochastic::chain::{Annealing, SpinTick, TracePoint};
use crate::stochastic::gibbs::{GibbsSampler, SpinLedger};
use crate::stochastic::ising::IsingModel;
use crate::stochastic::maxcut::spins;
use crate::stochastic::schedule::Schedule;
use vstd::prelude::*;

verus! {

/// Outcome of an annealing run.
pub struct AnnealOutcome<T> {
    pub best_energy: T,
    pub best_state: Vec<i8>,
    pub trace: Vec<TracePoint<T>>,
    pub ledger: SpinLedger,
}

/// Whether `up` decides along sweep `w` at `beta` as `dec` says.
pub open spec fn decided<T: Scalar, F: Fn(u64, T, usize, T) -> bool>(
    g: &GibbsSampler,
    m: &IsingModel<T>,
    s: Seq<i8>,
    up: F,
    w: u64,
    beta: T,
    dec: Seq<bool>,
) -> bool {
    &&& dec.len() == g.class_members@.len()
    &&& forall|k: int|
        0 <= k < dec.len() ==> call_ensures(
            up,
            (w, beta, k as usize, m.field_of(g.swept(s, dec, k), g.class_members@[k] as int)),
            #[trigger] dec[k],
        )
}

/// What the next sweep makes of a run whose decisions are `dec`.
pub open spec fn stepped<T: Scalar>(
    g: &GibbsSampler,
    m: &IsingModel<T>,
    a: &Annealing<T>,
    b: &Annealing<T>,
    dec: Seq<bool>,
) -> bool {
    &&& moved(g, m, dec, &a.live, &a.record, &b.live, &b.record)
    &&& b.done == a.done + 1
    &&& b.sweeps == a.sweeps
    &&& b.trace_every == a.trace_every
    &&& b.trace@ == (if traced(a.done, a.sweeps, a.trace_every) {
        a.trace@.push(
            TracePoint {
                sweep: a.done,
                energy: b.live.energy,
                best_energy: b.record.best_energy,
            },
        )
    } else {
        a.trace@
    })
}

/// One sweep at the temperature of the schedule leads from `a` to `b`.
pub open spec fn annealed<T: Scalar, P: Fn(T, T) -> T, F: Fn(u64, T, usize, T) -> bool>(
    g: &GibbsSampler,
    m: &IsingModel<T>,
    schedule: &Schedule<T>,
    pow: P,
    up: F,
    a: &Annealing<T>,
    b: &Annealing<T>,
) -> bool {
    exists|beta: T, dec: Seq<bool>|
        #[trigger] decided(g, m, a.live.state@, up, a.done, beta, dec) && schedule.is_beta(
            a.done,
            pow,
            beta,
        ) && stepped(g, m, a, b, dec)
}

/// `runs` are the states of an annealing run from its start, sweep by sweep.
pub open spec fn anneals<T: Scalar, P: Fn(T, T) -> T, F: Fn(u64, T, usize, T) -> bool>(
    g: &GibbsSampler,
    m: &IsingModel<T>,
    schedule: &Schedule<T>,
    pow: P,
    up: F,
    state: Seq<i8>,
    trace_every: u64,
    runs: Seq<Annealing<T>>,
) -> bool {
    &&& runs.len() == schedule.sweeps + 1
    &&& starts(m, state, schedule.sweeps, trace_every, &runs[0])
    &&& forall|w: int|
        0 <= w < schedule.sweeps ==> #[trigger] anneals_at(g, m, schedule, pow, up, runs, w)
}

pub open spec fn anneals_at<T: Scalar, P: Fn(T, T) -> T, F: Fn(u64, T, usize, T) -> bool>(
    g: &GibbsSampler,
    m: &IsingModel<T>,
    schedule: &Schedule<T>,
    pow: P,
    up: F,
    runs: Seq<Annealing<T>>,
    w: int,
) -> bool {
    annealed(g, m, schedule, pow, up, &runs[w], &runs[w + 1])
}

/// A run that has not swept yet: `state` is its present and its best state.
pub open spec fn starts<T: Scalar>(
    m: &IsingModel<T>,
    state: Seq<i8>,
    sweeps: u64,
    trace_every: u64,
    a: &Annealing<T>,
) -> bool {
    &&& a.live.state@ == state
    &&& a.live.energy == m.energy_of(state)
    &&& a.record.best_state@ == state
    &&& a.record.best_energy == m.energy_of(state)
    &&& a.record.ledger == (SpinLedger { spin_updates: 0, flips: 0, sweeps: 0 })
    &&& a.trace@.len() == 0
    &&& a.done == 0
    &&& a.sweeps == sweeps
    &&& a.trace_every == trace_every
}

fn anneal_step<T: Scalar, P: Fn(T, T) -> T, F: Fn(u64, T, usize, T) -> bool>(
    g: &GibbsSampler,
    m: &IsingModel<T>,
    schedule: &Schedule<T>,
    pow: &P,
    up: &F,
    a: &mut Annealing<T>,
)
    requires
        old(a).wf(g, m),
        old(a).done < old(a).sweeps,
        forall|x: T, y: T| #[trigger] call_requires(pow, (x, y)),
        forall|w: u64, b: T, k: usize, l: T| #[trigger] call_requires(up, (w, b, k, l)),
    ensures
        final(a).wf(g, m),
        annealed(g, m, schedule, *pow, *up, old(a), final(a)),
        final(a).done == old(a).done + 1,
        final(a).sweeps == old(a).sweeps,
        final(a).trace_every == old(a).trace_every,
{
    let w: u64 = a.done;
    let beta = schedule.beta_at(w, pow);
    let decide = |k: usize, l: T| -> (b: bool)
        requires
            call_requires(up, (w, beta, k, l)),
        ensures
            call_ensures(up, (w, beta, k, l), b),
        { up(w, beta, k, l) };
    let ghost before = *a;
    let point = a.step(g, m, &decide);
    proof {
        let dec = choose|dec: Seq<bool>|
            #[trigger] g.decides(m, before.live.state@, decide, dec) && moved(
                g,
                m,
                dec,
                &before.live,
                &before.record,
                &a.live,
                &a.record,
            );
        assert forall|k: int| 0 <= k < dec.len() implies call_ensures(
            up,
            (
                w,
                beta,
                k as usize,
                m.field_of(g.swept(before.live.state@, dec, k), g.class_members@[k] as int),
            ),
            #[trigger] dec[k],
        ) by {
            assert(call_ensures(
                decide,
                (
                    k as usize,
                    m.field_of(g.swept(before.live.state@, dec, k), g.class_members@[k] as int),
                ),
                dec[k],
            ));
        }
        assert(decided(g, m, before.live.state@, *up, w, beta, dec));
        assert(stepped(g, m, &before, a, dec));
        assert(annealed(g, m, schedule, *pow, *up, &before, a));
    }
}

/// Simulated annealing from `state`; a trace point every `trace_every` sweeps
/// and after the last, of which `listener` hears.
pub fn anneal<
    T: Scalar,
    P: Fn(T, T) -> T,
    F: Fn(u64, T, usize, T) -> bool,
    L: Listener<SpinTick<T>>,
>(
    g: &GibbsSampler,
    m: &IsingModel<T>,
    schedule: &Schedule<T>,
    pow: &P,
    state: Vec<i8>,
    trace_every: u64,
    up: &F,
    listener: &mut L,
) -> (r: AnnealOutcome<T>)
    requires
        m.wf(),
        g.within(m.n as int),
        spins(state@, m.n as int),
        trace_every > 0,
        schedule.sweeps * g.class_members@.len() <= u64::MAX,
        forall|x: T, y: T| #[trigger] call_requires(pow, (x, y)),
        forall|w: u64, b: T, k: usize, l: T| #[trigger] call_requires(up, (w, b, k, l)),
    ensures
        spins(r.best_state@, m.n as int),
        r.best_energy == m.energy_of(r.best_state@),
        exists|runs: Seq<Annealing<T>>|
            #[trigger] anneals(g, m, schedule, *pow, *up, state@, trace_every, runs)
                && outcome_of(&runs.last(), &r),
        heard(*old(listener), lone_ticks(r.trace@), *final(listener)),
{
    let ghost start = state@;
    let mut a = Annealing::new(g, m, state, schedule.sweeps, trace_every);
    let ghost mut runs: Seq<Annealing<T>> = seq![a];
    proof {
        lemma_heard_nothing::<SpinTick<T>, L>(*listener);
        assert(lone_ticks(a.trace@) =~= Seq::empty());
    }
    while a.done < schedule.sweeps
        invariant
            a.wf(g, m),
            heard(*old(listener), lone_ticks(a.trace@), *listener),
            a.done <= schedule.sweeps,
            a.sweeps == schedule.sweeps,
            a.trace_every == trace_every,
            forall|x: T, y: T| #[trigger] call_requires(pow, (x, y)),
            forall|w: u64, b: T, k: usize, l: T| #[trigger] call_requires(up, (w, b, k, l)),
            runs.len() == a.done + 1,
            runs.last() == a,
            starts(m, start, schedule.sweeps, trace_every, &runs[0]),
            forall|w: int|
                0 <= w < a.done ==> #[trigger] anneals_at(g, m, schedule, *pow, *up, runs, w),
        decreases schedule.sweeps - a.done,
    {
        let ghost before = runs;
        let ghost was = a;
        let points: usize = a.trace.len();
        anneal_step(g, m, schedule, pow, up, &mut a);
        proof {
            let dec = choose|dec: Seq<bool>| #[trigger] stepped(g, m, &was, &a, dec);
            assert(stepped(g, m, &was, &a, dec));
        }
        if a.trace.len() > points {
            let tick = SpinTick { point: a.trace[points], attempts: 0, accepts: 0 };
            let ghost l = *listener;
            listener.hear(tick);
            proof {
                lemma_heard_more(*old(listener), lone_ticks(was.trace@), l, tick, *listener);
                assert(lone_ticks(a.trace@) =~= lone_ticks(was.trace@).push(tick));
            }
        }
        proof {
            runs = runs.push(a);
            assert forall|w: int| 0 <= w < a.done implies #[trigger] anneals_at(
                g,
                m,
                schedule,
                *pow,
                *up,
                runs,
                w,
            ) by {
                if w < a.done - 1 {
                    assert(anneals_at(g, m, schedule, *pow, *up, before, w));
                }
            }
        }
    }
    assert(anneals(g, m, schedule, *pow, *up, start, trace_every, runs));
    AnnealOutcome {
        best_energy: a.record.best_energy,
        best_state: a.record.best_state,
        trace: a.trace,
        ledger: a.record.ledger,
    }
}

/// What a finished run reports.
pub open spec fn outcome_of<T: Scalar>(a: &Annealing<T>, r: &AnnealOutcome<T>) -> bool {
    &&& r.best_energy == a.record.best_energy
    &&& r.best_state@ == a.record.best_state@
    &&& r.trace@ == a.trace@
    &&& r.ledger == a.record.ledger
}

/// Sum of the spins.
pub open spec fn net(s: Seq<i8>, n: int) -> int
    decreases n,
{
    if n <= 0 {
        0
    } else {
        net(s, n - 1) + s[n - 1]
    }
}

/// Magnitude of the magnetization: the sum of the spins over their number,
/// without its sign.
pub open spec fn magnetization<T: Scalar>(s: Seq<i8>) -> T {
    let sum = net(s, s.len() as int);
    T::of_count(
        (if sum < 0 {
            -sum
        } else {
            sum
        }) as u64,
    ).quotient(T::of_count(s.len() as u64))
}

fn magnetization_of<T: Scalar>(s: &Vec<i8>) -> (r: T)
    requires
        spins(s@, s@.len() as int),
    ensures
        r == magnetization::<T>(s@),
{
    let n: usize = s.len();
    let mut sum: i128 = 0;
    let mut i: usize = 0;
    while i < n
        invariant
            n == s@.len(),
            i <= n,
            spins(s@, n as int),
            sum == net(s@, i as int),
            -(i as int) <= sum <= i,
        decreases n - i,
    {
        sum = sum + s[i] as i128;
        i += 1;
    }
    let size: u64 = if sum < 0 {
        (-sum) as u64
    } else {
        sum as u64
    };
    T::from_count(size).over(T::from_count(n as u64))
}

/// Whether `up` decides sweep `w` as `dec` says.
pub open spec fn sample_decided<T: Scalar, F: Fn(u64, usize, T) -> bool>(
    g: &GibbsSampler,
    m: &IsingModel<T>,
    s: Seq<i8>,
    up: F,
    w: u64,
    dec: Seq<bool>,
) -> bool {
    &&& dec.len() == g.class_members@.len()
    &&& forall|k: int|
        0 <= k < dec.len() ==> call_ensures(
            up,
            (w, k as usize, m.field_of(g.swept(s, dec, k), g.class_members@[k] as int)),
            #[trigger] dec[k],
        )
}

/// Sweep `w` leads from spins `s` to spins `t`.
pub open spec fn sample_swept<T: Scalar, F: Fn(u64, usize, T) -> bool>(
    g: &GibbsSampler,
    m: &IsingModel<T>,
    up: F,
    w: u64,
    s: Seq<i8>,
    t: Seq<i8>,
) -> bool {
    exists|dec: Seq<bool>|
        #[trigger] sample_decided(g, m, s, up, w, dec) && t == g.swept(s, dec, dec.len() as int)
}

/// `path` are the spins of a fixed-temperature run, sweep by sweep.
pub open spec fn samples<T: Scalar, F: Fn(u64, usize, T) -> bool>(
    g: &GibbsSampler,
    m: &IsingModel<T>,
    up: F,
    path: Seq<Seq<i8>>,
) -> bool {
    forall|w: int| 0 <= w < path.len() - 1 ==> #[trigger] samples_at(g, m, up, path, w)
}

pub open spec fn samples_at<T: Scalar, F: Fn(u64, usize, T) -> bool>(
    g: &GibbsSampler,
    m: &IsingModel<T>,
    up: F,
    path: Seq<Seq<i8>>,
    w: int,
) -> bool {
    sample_swept(g, m, up, w as u64, path[w], path[w + 1])
}

/// Energies of the states after burn-in, the first `k` added in order.
pub open spec fn energy_sum<T: Scalar>(
    m: &IsingModel<T>,
    path: Seq<Seq<i8>>,
    burn_in: int,
    k: int,
) -> T
    decreases k,
{
    if k <= 0 {
        T::zero_value()
    } else {
        energy_sum(m, path, burn_in, k - 1).sum(m.energy_of(path[burn_in + k]))
    }
}

/// Magnetizations of the states after burn-in, the first `k` added in order.
pub open spec fn magnet_sum<T: Scalar>(path: Seq<Seq<i8>>, burn_in: int, k: int) -> T
    decreases k,
{
    if k <= 0 {
        T::zero_value()
    } else {
        magnet_sum::<T>(path, burn_in, k - 1).sum(magnetization::<T>(path[burn_in + k]))
    }
}

fn sample_sweep<T: Scalar, F: Fn(u64, usize, T) -> bool>(
    g: &GibbsSampler,
    m: &IsingModel<T>,
    s: &mut Vec<i8>,
    w: u64,
    up: &F,
)
    requires
        m.wf(),
        g.within(m.n as int),
        g.class_members@.len() <= u64::MAX,
        spins(old(s)@, m.n as int),
        forall|w: u64, k: usize, l: T| #[trigger] call_requires(up, (w, k, l)),
    ensures
        spins(final(s)@, m.n as int),
        sample_swept(g, m, *up, w, old(s)@, final(s)@),
{
    let decide = |k: usize, l: T| -> (b: bool)
        requires
            call_requires(up, (w, k, l)),
        ensures
            call_ensures(up, (w, k, l), b),
        { up(w, k, l) };
    let ghost before = s@;
    let mut ledger = SpinLedger { spin_updates: 0, flips: 0, sweeps: 0 };
    g.sweep(m, s, &decide, &mut ledger);
    proof {
        let dec = choose|dec: Seq<bool>|
            #[trigger] g.decides(m, before, decide, dec) && s@ == g.swept(
                before,
                dec,
                dec.len() as int,
            );
        assert forall|k: int| 0 <= k < dec.len() implies call_ensures(
            up,
            (w, k as usize, m.field_of(g.swept(before, dec, k), g.class_members@[k] as int)),
            #[trigger] dec[k],
        ) by {
            assert(call_ensures(
                decide,
                (k as usize, m.field_of(g.swept(before, dec, k), g.class_members@[k] as int)),
                dec[k],
            ));
        }
        assert(sample_decided(g, m, before, *up, w, dec));
    }
}

/// `r` is the mean energy and the mean magnetization of the states of a path
/// after burn-in.
pub open spec fn observed<T: Scalar>(
    m: &IsingModel<T>,
    path: Seq<Seq<i8>>,
    burn_in: u64,
    measure: u64,
    r: (T, T),
) -> bool {
    &&& r.0 == energy_sum(m, path, burn_in as int, measure as int).quotient(T::of_count(measure))
    &&& r.1 == magnet_sum::<T>(path, burn_in as int, measure as int).quotient(
        T::of_count(measure),
    )
}

/// Fixed-temperature sampling: after `burn_in` sweeps, the mean energy and the
/// mean magnetization over `measure` sweeps.
pub fn sample_observables<T: Scalar, F: Fn(u64, usize, T) -> bool>(
    g: &GibbsSampler,
    m: &IsingModel<T>,
    state: Vec<i8>,
    burn_in: u64,
    measure: u64,
    up: &F,
) -> (r: (T, T))
    requires
        m.wf(),
        g.within(m.n as int),
        g.class_members@.len() <= u64::MAX,
        spins(state@, m.n as int),
        burn_in + measure <= u64::MAX,
        forall|w: u64, k: usize, l: T| #[trigger] call_requires(up, (w, k, l)),
    ensures
        exists|path: Seq<Seq<i8>>|
            {
                &&& #[trigger] samples(g, m, *up, path)
                &&& path.len() == burn_in + measure + 1
                &&& path[0] == state@
                &&& observed(m, path, burn_in, measure, r)
            },
{
    let mut s = copy_spins(&state);
    let ghost mut path: Seq<Seq<i8>> = seq![s@];
    let (mut e_sum, mut m_sum) = (T::zero(), T::zero());
    let total: u64 = burn_in + measure;
    let mut w: u64 = 0;
    while w < total
        invariant
            w <= total,
            total == burn_in + measure,
            m.wf(),
            g.within(m.n as int),
            g.class_members@.len() <= u64::MAX,
            spins(s@, m.n as int),
            forall|w: u64, k: usize, l: T| #[trigger] call_requires(up, (w, k, l)),
            path.len() == w + 1,
            path[0] == state@,
            path.last() == s@,
            samples(g, m, *up, path),
            e_sum == energy_sum(m, path, burn_in as int, w - burn_in),
            m_sum == magnet_sum::<T>(path, burn_in as int, w - burn_in),
        decreases total - w,
    {
        let ghost before = path;
        sample_sweep(g, m, &mut s, w, up);
        proof {
            path = path.push(s@);
            assert forall|v: int| 0 <= v < path.len() - 1 implies #[trigger] samples_at(
                g,
                m,
                *up,
                path,
                v,
            ) by {
                if v < w {
                    assert(samples_at(g, m, *up, before, v));
                }
            }
            lemma_sums_prefix::<T>(m, before, path, burn_in as int, w - burn_in);
        }
        if w >= burn_in {
            e_sum = e_sum.plus(m.energy(&s));
            m_sum = m_sum.plus(magnetization_of(&s));
        }
        w += 1;
    }
    assert(samples(g, m, *up, path));
    (e_sum.over(T::from_count(measure)), m_sum.over(T::from_count(measure)))
}

proof fn lemma_sums_prefix<T: Scalar>(
    m: &IsingModel<T>,
    a: Seq<Seq<i8>>,
    b: Seq<Seq<i8>>,
    burn_in: int,
    k: int,
)
    requires
        0 <= burn_in,
        burn_in + k < a.len() <= b.len(),
        forall|i: int| 0 <= i < a.len() ==> a[i] == b[i],
    ensures
        energy_sum(m, a, burn_in, k) == energy_sum(m, b, burn_in, k),
        magnet_sum::<T>(a, burn_in, k) == magnet_sum::<T>(b, burn_in, k),
    decreases k,
{
    if k > 0 {
        lemma_sums_prefix::<T>(m, a, b, burn_in, k - 1);
    }
}

} // verus!
