//! A Markov chain on a model: its present state, the best state it has seen,
//! and its counts. Simulated annealing is one chain whose temperature moves.

use crate::scalar::Scalar;
use crate::stochastic::gibbs::{GibbsSampler, SpinLedger};
use crate::stochastic::ising::IsingModel;
use crate::stochastic::maxcut::spins;
use vstd::prelude::*;

verus! {

/// Where a chain is.
pub struct Live<T> {
    pub state: Vec<i8>,
    pub energy: T,
}

/// What a chain remembers.
pub struct Record<T> {
    pub best_energy: T,
    pub best_state: Vec<i8>,
    pub ledger: SpinLedger,
}

/// Copies a spin assignment.
pub fn copy_spins(s: &Vec<i8>) -> (r: Vec<i8>)
    ensures
        r@ == s@,
{
    let mut r: Vec<i8> = Vec::new();
    let mut i: usize = 0;
    while i < s.len()
        invariant
            i <= s@.len(),
            r@ == s@.take(i as int),
        decreases s@.len() - i,
    {
        r.push(s[i]);
        i += 1;
        assert(s@.take(i as int) =~= s@.take(i - 1).push(s@[i - 1]));
    }
    assert(s@.take(s@.len() as int) =~= s@);
    r
}

/// Whether the energies of a chain are those of its states.
pub open spec fn in_step<T: Scalar>(m: &IsingModel<T>, live: &Live<T>, rec: &Record<T>) -> bool {
    &&& spins(live.state@, m.n as int)
    &&& live.energy == m.energy_of(live.state@)
    &&& spins(rec.best_state@, m.n as int)
    &&& rec.best_energy == m.energy_of(rec.best_state@)
}

/// Whether a sweep that decided as `dec` says takes the chain `(a, r)` to
/// `(b, t)`: the new state, its energy, and the better of the two bests.
pub open spec fn moved<T: Scalar>(
    g: &GibbsSampler,
    m: &IsingModel<T>,
    dec: Seq<bool>,
    a: &Live<T>,
    r: &Record<T>,
    b: &Live<T>,
    t: &Record<T>,
) -> bool {
    let len = g.class_members@.len() as int;
    &&& b.state@ == g.swept(a.state@, dec, len)
    &&& b.energy == m.energy_of(b.state@)
    &&& if b.energy.less_than(r.best_energy) {
        t.best_energy == b.energy && t.best_state@ == b.state@
    } else {
        t.best_energy == r.best_energy && t.best_state@ == r.best_state@
    }
    &&& t.ledger.spin_updates == r.ledger.spin_updates + len
    &&& t.ledger.flips == r.ledger.flips + g.flips_upto(a.state@, dec, len)
    &&& t.ledger.sweeps == r.ledger.sweeps + 1
}

/// Whether the counters can take `sweeps` more sweeps.
pub open spec fn room<T>(g: &GibbsSampler, rec: &Record<T>, sweeps: int) -> bool {
    &&& rec.ledger.spin_updates + sweeps * g.class_members@.len() <= u64::MAX
    &&& rec.ledger.flips + sweeps * g.class_members@.len() <= u64::MAX
    &&& rec.ledger.sweeps + sweeps <= u64::MAX
}

/// A chain that starts from `state`.
pub fn start_chain<T: Scalar>(m: &IsingModel<T>, state: Vec<i8>) -> (r: (Live<T>, Record<T>))
    requires
        m.wf(),
        spins(state@, m.n as int),
    ensures
        in_step(m, &r.0, &r.1),
        r.0.state@ == state@,
        r.1.best_state@ == state@,
        r.1.ledger == (SpinLedger { spin_updates: 0, flips: 0, sweeps: 0 }),
{
    let energy = m.energy(&state);
    let best_state = copy_spins(&state);
    (
        Live { state, energy },
        Record {
            best_energy: energy,
            best_state,
            ledger: SpinLedger { spin_updates: 0, flips: 0, sweeps: 0 },
        },
    )
}

/// One sweep of a chain, its new energy, and the best state so far.
pub fn sweep_chain<T: Scalar, F: Fn(usize, T) -> bool>(
    g: &GibbsSampler,
    m: &IsingModel<T>,
    live: &mut Live<T>,
    rec: &mut Record<T>,
    up: &F,
)
    requires
        m.wf(),
        g.within(m.n as int),
        in_step(m, old(live), old(rec)),
        forall|k: usize, l: T| call_requires(up, (k, l)),
        room(g, old(rec), 1),
    ensures
        in_step(m, final(live), final(rec)),
        exists|dec: Seq<bool>|
            #[trigger] g.decides(m, old(live).state@, *up, dec) && moved(
                g,
                m,
                dec,
                old(live),
                old(rec),
                final(live),
                final(rec),
            ),
{
    let ghost a = *live;
    let ghost r = *rec;
    g.sweep(m, &mut live.state, up, &mut rec.ledger);
    let ghost dec = choose|dec: Seq<bool>|
        #![trigger g.decides(m, a.state@, *up, dec)]
        {
            &&& g.decides(m, a.state@, *up, dec)
            &&& live.state@ == g.swept(a.state@, dec, dec.len() as int)
            &&& rec.ledger.flips == r.ledger.flips + g.flips_upto(
                a.state@,
                dec,
                dec.len() as int,
            )
        };
    live.energy = m.energy(&live.state);
    if live.energy.below(rec.best_energy) {
        rec.best_energy = live.energy;
        rec.best_state = copy_spins(&live.state);
    }
    assert(g.decides(m, a.state@, *up, dec));
}

/// A point on the annealing trace.
#[derive(Debug, Clone, Copy)]
pub struct TracePoint<T> {
    pub sweep: u64,
    pub energy: T,
    pub best_energy: T,
}

/// What a run tells of its progress: every trace point, and the exchanges
/// tried and taken by then.
#[derive(Debug, Clone, Copy)]
pub struct SpinTick<T> {
    pub point: TracePoint<T>,
    pub attempts: u64,
    pub accepts: u64,
}

/// The reports of a run without exchanges.
pub open spec fn lone_ticks<T>(trace: Seq<TracePoint<T>>) -> Seq<SpinTick<T>> {
    trace.map_values(|p: TracePoint<T>| SpinTick { point: p, attempts: 0, accepts: 0 })
}

/// Whether a trace point is taken after `sweep`: every `trace_every` sweeps,
/// and after the last.
pub open spec fn traced(sweep: u64, sweeps: u64, trace_every: u64) -> bool {
    sweep % trace_every == 0 || sweep + 1 == sweeps
}

/// An annealing run on its way.
pub struct Annealing<T> {
    pub live: Live<T>,
    pub record: Record<T>,
    pub trace: Vec<TracePoint<T>>,
    /// Sweeps done.
    pub done: u64,
    pub sweeps: u64,
    pub trace_every: u64,
}

impl<T: Scalar> Annealing<T> {
    pub open spec fn wf(&self, g: &GibbsSampler, m: &IsingModel<T>) -> bool {
        &&& m.wf()
        &&& g.within(m.n as int)
        &&& in_step(m, &self.live, &self.record)
        &&& self.done <= self.sweeps
        &&& self.trace_every > 0
        &&& room(g, &self.record, self.sweeps - self.done)
    }

    /// Begins a run of `sweeps` sweeps from `state`.
    pub fn new(
        g: &GibbsSampler,
        m: &IsingModel<T>,
        state: Vec<i8>,
        sweeps: u64,
        trace_every: u64,
    ) -> (r: Self)
        requires
            m.wf(),
            g.within(m.n as int),
            spins(state@, m.n as int),
            trace_every > 0,
            sweeps * g.class_members@.len() <= u64::MAX,
        ensures
            r.wf(g, m),
            r.live.state@ == state@,
            r.record.best_state@ == state@,
            r.record.ledger == (SpinLedger { spin_updates: 0, flips: 0, sweeps: 0 }),
            r.trace@.len() == 0,
            r.done == 0,
            r.sweeps == sweeps,
            r.trace_every == trace_every,
    {
        let (live, record) = start_chain(m, state);
        Annealing { live, record, trace: Vec::new(), done: 0, sweeps, trace_every }
    }

    /// The next sweep, with the acceptance rule of its temperature. Says
    /// whether a trace point was taken.
    #[verifier::spinoff_prover]
    #[verifier::rlimit(40)]
    pub fn step<F: Fn(usize, T) -> bool>(
        &mut self,
        g: &GibbsSampler,
        m: &IsingModel<T>,
        up: &F,
    ) -> (r: bool)
        requires
            old(self).wf(g, m),
            old(self).done < old(self).sweeps,
            forall|k: usize, l: T| call_requires(up, (k, l)),
        ensures
            final(self).wf(g, m),
            final(self).done == old(self).done + 1,
            final(self).sweeps == old(self).sweeps,
            final(self).trace_every == old(self).trace_every,
            exists|dec: Seq<bool>|
                #[trigger] g.decides(m, old(self).live.state@, *up, dec) && moved(
                    g,
                    m,
                    dec,
                    &old(self).live,
                    &old(self).record,
                    &final(self).live,
                    &final(self).record,
                ),
            r == traced(old(self).done, old(self).sweeps, old(self).trace_every),
            final(self).trace@ == (if r {
                old(self).trace@.push(
                    TracePoint {
                        sweep: old(self).done,
                        energy: final(self).live.energy,
                        best_energy: final(self).record.best_energy,
                    },
                )
            } else {
                old(self).trace@
            }),
    {
        let sweep: u64 = self.done;
        proof {
            let (len, left) = (g.class_members@.len() as int, self.sweeps - self.done);
            assert(left * len == len + (left - 1) * len) by (nonlinear_arith);
            assert(0 <= (left - 1) * len) by (nonlinear_arith)
                requires
                    left >= 1,
                    len >= 0,
            ;
        }
        let ghost before = self.record;
        sweep_chain(g, m, &mut self.live, &mut self.record, up);
        proof {
            assert(self.record.ledger.flips <= before.ledger.flips + g.class_members@.len()) by {
                let dec = choose|dec: Seq<bool>|
                    #[trigger] g.decides(m, old(self).live.state@, *up, dec) && moved(
                        g,
                        m,
                        dec,
                        &old(self).live,
                        &before,
                        &self.live,
                        &self.record,
                    );
                lemma_flips_bounded(g, old(self).live.state@, dec, g.class_members@.len() as int);
            }
        }
        self.done = sweep + 1;
        if sweep % self.trace_every == 0 || self.done == self.sweeps {
            self.trace.push(
                TracePoint {
                    sweep,
                    energy: self.live.energy,
                    best_energy: self.record.best_energy,
                },
            );
            return true;
        }
        false
    }
}

/// A sweep turns over at most every spin it updates.
pub proof fn lemma_flips_bounded(g: &GibbsSampler, s: Seq<i8>, dec: Seq<bool>, k: int)
    requires
        0 <= k,
    ensures
        0 <= g.flips_upto(s, dec, k) <= k,
    decreases k,
{
    if k > 0 {
        lemma_flips_bounded(g, s, dec, k - 1);
    }
}

/// On whole numbers the best energy never rises and is never above the energy
/// of any state the chain was in.
pub proof fn best_never_rises(
    g: &GibbsSampler,
    m: &IsingModel<i64>,
    dec: Seq<bool>,
    a: &Live<i64>,
    r: &Record<i64>,
    b: &Live<i64>,
    t: &Record<i64>,
)
    requires
        moved(g, m, dec, a, r, b, t),
    ensures
        t.best_energy <= r.best_energy,
        t.best_energy <= b.energy,
{
}

} // verus!
