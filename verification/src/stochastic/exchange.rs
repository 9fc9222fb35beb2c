//! Replica-exchange runs: stretches of sweeps on every rung, exchange rounds
//! between them, and a trace.

use crate::progress::{heard, lemma_heard_more, lemma_heard_nothing, Listener};
use crate::scalar::Scalar;
use crate::stochastic::chain::{copy_spins, lemma_flips_bounded, moved, room};
use crate::stochastic::chain::{Live, Record, SpinTick, TracePoint};
use crate::stochastic::chance::willing;
use crate::stochastic::exec::{TemperClock, Tick};
use crate::stochastic::gibbs::{GibbsSampler, SpinLedger};
use crate::stochastic::ising::IsingModel;
use crate::stochastic::maxcut::spins;
use crate::stochastic::schedule::TemperingSpec;
use crate::stochastic::tempering::{all_advanced, logged, pair_attempted, pairs_before};
use crate::stochastic::tempering::rung_advanced;
use crate::stochastic::tempering::{rung_at, rung_decides, rung_path, same_chain};
use crate::stochastic::tempering::{SwapDecision, SwapStats, Tempering};
use vstd::prelude::*;

verus! {

/// Outcome of a replica-exchange run.
pub struct TemperOutcome<T> {
    pub best_energy: T,
    pub best_state: Vec<i8>,
    pub trace: Vec<TracePoint<T>>,
    /// What was told of the run.
    pub ticks: Vec<SpinTick<T>>,
    pub ledger: SpinLedger,
    pub stats: SwapStats<T>,
    pub betas: Vec<T>,
}

/// A replica-exchange run on its way.
pub struct Leg<T> {
    pub clock: TemperClock,
    pub pt: Tempering<T>,
    pub trace: Vec<TracePoint<T>>,
    /// What there is to tell so far.
    pub ticks: Vec<SpinTick<T>>,
}

impl<T: Scalar> SwapStats<T> {
    /// Accepted share of `attempts`; none where nothing was attempted.
    pub open spec fn share(accepts: u64, attempts: u64) -> T {
        if attempts == 0 {
            T::zero_value()
        } else {
            T::of_count(accepts).quotient(T::of_count(attempts))
        }
    }

    fn share_of(accepts: u64, attempts: u64) -> (r: T)
        ensures
            r == Self::share(accepts, attempts),
    {
        if attempts == 0 {
            T::zero()
        } else {
            T::from_count(accepts).over(T::from_count(attempts))
        }
    }

    /// Accepted share of all attempts.
    pub fn acceptance_overall(&self) -> (r: T)
        ensures
            r == Self::share(self.accepts, self.attempts),
    {
        Self::share_of(self.accepts, self.attempts)
    }

    /// Accepted share per pair of neighbours.
    pub fn per_pair_acceptance(&self) -> (r: Vec<T>)
        requires
            self.per_pair_accepts@.len() == self.per_pair_attempts@.len(),
        ensures
            r@ == Seq::new(
                self.per_pair_attempts@.len(),
                |k: int| Self::share(self.per_pair_accepts@[k], self.per_pair_attempts@[k]),
            ),
    {
        let n: usize = self.per_pair_attempts.len();
        let mut r: Vec<T> = Vec::new();
        let mut k: usize = 0;
        while k < n
            invariant
                n == self.per_pair_attempts@.len(),
                n == self.per_pair_accepts@.len(),
                k <= n,
                r@ == Seq::new(
                    k as nat,
                    |i: int| Self::share(self.per_pair_accepts@[i], self.per_pair_attempts@[i]),
                ),
            decreases n - k,
        {
            r.push(Self::share_of(self.per_pair_accepts[k], self.per_pair_attempts[k]));
            assert(r@ =~= Seq::new(
                (k + 1) as nat,
                |i: int| Self::share(self.per_pair_accepts@[i], self.per_pair_attempts@[i]),
            ));
            k += 1;
        }
        r
    }
}

/// An exchange round leads from `a` to `b`.
pub open spec fn exchanged_to<T: Scalar, A: Fn(u64, usize, T) -> bool>(
    accept: A,
    a: &Tempering<T>,
    b: &Tempering<T>,
) -> bool {
    exists|acc: Seq<bool>| #[trigger] a.judged(accept, acc) && a.round_to(acc, b)
}

/// The point that the trace takes.
pub open spec fn point<T: Scalar>(pt: &Tempering<T>, done: u64) -> TracePoint<T> {
    TracePoint {
        sweep: done,
        energy: pt.lowest_upto(pt.rungs()),
        best_energy: pt.records@[pt.best_upto(pt.rungs())].best_energy,
    }
}

/// A stretch leads from `a` to `b`: every rung advances to `mid`, an exchange
/// round follows where one is due, and the trace takes a point where one is
/// due.
pub open spec fn stretched<T: Scalar, F: Fn(usize, T, u64, usize, T) -> bool, A: Fn(
    u64,
    usize,
    T,
) -> bool>(
    g: &GibbsSampler,
    m: &IsingModel<T>,
    up: F,
    accept: A,
    a: &Leg<T>,
    b: &Leg<T>,
    tick: Tick,
    mid: Tempering<T>,
) -> bool {
    &&& a.clock.ticks(&b.clock, Some(tick))
    &&& all_advanced(g, m, up, a.clock.done, tick.chunk, &a.pt, &mid)
    &&& if tick.swap {
        exchanged_to(accept, &mid, &b.pt)
    } else {
        b.pt == mid
    }
    &&& b.trace@ == (if tick.trace {
        a.trace@.push(point(&b.pt, tick.done))
    } else {
        a.trace@
    })
    &&& b.ticks@ == (if tick.trace {
        a.ticks@.push(
            SpinTick {
                point: point(&b.pt, tick.done),
                attempts: b.pt.stats.attempts,
                accepts: b.pt.stats.accepts,
            },
        )
    } else {
        a.ticks@
    })
}

pub open spec fn leads<T: Scalar, F: Fn(usize, T, u64, usize, T) -> bool, A: Fn(
    u64,
    usize,
    T,
) -> bool>(
    g: &GibbsSampler,
    m: &IsingModel<T>,
    up: F,
    accept: A,
    a: &Leg<T>,
    b: &Leg<T>,
) -> bool {
    exists|tick: Tick, mid: Tempering<T>|
        #[trigger] stretched(g, m, up, accept, a, b, tick, mid)
}

/// `legs` is a run, stretch by stretch, until all sweeps are done.
pub open spec fn tempers<T: Scalar, F: Fn(usize, T, u64, usize, T) -> bool, A: Fn(
    u64,
    usize,
    T,
) -> bool>(
    g: &GibbsSampler,
    m: &IsingModel<T>,
    up: F,
    accept: A,
    legs: Seq<Leg<T>>,
) -> bool {
    &&& legs.len() >= 1
    &&& forall|k: int| 0 <= k < legs.len() - 1 ==> #[trigger] tempers_at(g, m, up, accept, legs, k)
    &&& legs.last().clock.done == legs.last().clock.total
}

pub open spec fn tempers_at<T: Scalar, F: Fn(usize, T, u64, usize, T) -> bool, A: Fn(
    u64,
    usize,
    T,
) -> bool>(
    g: &GibbsSampler,
    m: &IsingModel<T>,
    up: F,
    accept: A,
    legs: Seq<Leg<T>>,
    k: int,
) -> bool {
    leads(g, m, up, accept, &legs[k], &legs[k + 1])
}

/// A run that has not begun: one replica per rung, each on its first state,
/// nothing counted.
pub open spec fn fresh<T: Scalar, P: Fn(T, T) -> T>(
    m: &IsingModel<T>,
    spec: &TemperingSpec<T>,
    pow: P,
    states: Seq<Vec<i8>>,
    total: u64,
    trace_every: u64,
    x: &Leg<T>,
) -> bool {
    &&& x.pt.wf(m)
    &&& spec.are_betas(pow, x.pt.betas@)
    &&& forall|k: int| 0 <= k < x.pt.rungs() ==> (#[trigger] x.pt.live@[k]).state@ == states[k]@
    &&& forall|k: int|
        0 <= k < x.pt.rungs() ==> (#[trigger] x.pt.records@[k]).best_state@ == states[k]@
            && x.pt.records@[k].ledger == (SpinLedger { spin_updates: 0, flips: 0, sweeps: 0 })
    &&& x.pt.stats.attempts == 0
    &&& x.pt.stats.accepts == 0
    &&& x.pt.stats.decisions@.len() == 0
    &&& x.pt.round == 0
    &&& x.trace@.len() == 0
    &&& x.ticks@.len() == 0
    &&& x.clock.wf()
    &&& x.clock.done == 0
    &&& x.clock.total == total
    &&& x.clock.interval == (if spec.swap_interval >= 1 {
        spec.swap_interval
    } else {
        1
    })
    &&& x.clock.trace_every == (if trace_every >= 1 {
        trace_every
    } else {
        1
    })
    &&& x.clock.next_trace == x.clock.trace_every
}

/// Every rung has made `done` sweeps and counted them.
pub open spec fn counted<T: Scalar>(g: &GibbsSampler, pt: &Tempering<T>, done: int) -> bool {
    forall|k: int| 0 <= k < pt.rungs() ==> #[trigger] counted_at(g, pt, done, k)
}

pub open spec fn counted_at<T: Scalar>(
    g: &GibbsSampler,
    pt: &Tempering<T>,
    done: int,
    k: int,
) -> bool {
    let l = pt.records@[k].ledger;
    &&& l.spin_updates == done * g.class_members@.len()
    &&& l.flips <= done * g.class_members@.len()
    &&& l.sweeps == done
}

proof fn lemma_path_counts<T: Scalar, F: Fn(usize, T, u64, usize, T) -> bool>(
    g: &GibbsSampler,
    m: &IsingModel<T>,
    up: F,
    r: (usize, T),
    from: u64,
    sweeps: u64,
    path: Seq<(Live<T>, Record<T>)>,
    w: int,
)
    requires
        rung_path(g, m, up, r, from, sweeps, path),
        0 <= w <= sweeps,
    ensures
        ({
            let (a, b, len) = (path[0].1.ledger, path[w].1.ledger, g.class_members@.len());
            &&& b.spin_updates == a.spin_updates + w * len
            &&& b.flips <= a.flips + w * len
            &&& b.sweeps == a.sweeps + w
        }),
    decreases w,
{
    let len = g.class_members@.len() as int;
    if w > 0 {
        lemma_path_counts(g, m, up, r, from, sweeps, path, w - 1);
        assert(rung_at(g, m, up, r, from, path, w - 1));
        let (a, b) = (path[w - 1], path[w]);
        let dec = choose|dec: Seq<bool>|
            #[trigger] rung_decides(g, m, a.0.state@, up, r, (from + (w - 1)) as u64, dec) && moved(
                g,
                m,
                dec,
                &a.0,
                &a.1,
                &b.0,
                &b.1,
            );
        lemma_flips_bounded(g, a.0.state@, dec, len);
        assert(w * len == (w - 1) * len + len) by (nonlinear_arith);
    } else {
        assert(0 * len == 0);
    }
}

proof fn lemma_counts_advance<T: Scalar, F: Fn(usize, T, u64, usize, T) -> bool>(
    g: &GibbsSampler,
    m: &IsingModel<T>,
    up: F,
    from: u64,
    sweeps: u64,
    a: &Tempering<T>,
    b: &Tempering<T>,
    done: int,
)
    requires
        a.wf(m),
        b.wf(m),
        a.rungs() <= usize::MAX,
        counted(g, a, done),
        all_advanced(g, m, up, from, sweeps, a, b),
    ensures
        counted(g, b, done + sweeps),
{
    let len = g.class_members@.len() as int;
    assert forall|k: int| 0 <= k < b.rungs() implies #[trigger] counted_at(
        g,
        b,
        done + sweeps,
        k,
    ) by {
        let r = a.rung(k);
        let out = (b.live@[k], b.records@[k]);
        assert(b.live@[k as usize as int] == b.live@[k]);
        assert(counted_at(g, a, done, k));
        assert(rung_advanced(g, m, up, r, from, sweeps, &a.live@[k], &a.records@[k], out));
        let path = choose|path: Seq<(Live<T>, Record<T>)>|
            #[trigger] rung_path(g, m, up, r, from, sweeps, path) && same_chain(
                path[0],
                &a.live@[k],
                &a.records@[k],
            ) && path.last() == out;
        lemma_path_counts(g, m, up, r, from, sweeps, path, sweeps as int);
        assert((done + sweeps) * len == done * len + sweeps * len) by (nonlinear_arith);
    }
}

proof fn lemma_pairs_bounded(round: u64, rungs: int, k: int)
    requires
        0 <= k,
    ensures
        0 <= pairs_before(round, rungs, k) <= k,
    decreases k,
{
    if k > 0 {
        lemma_pairs_bounded(round, rungs, k - 1);
    }
}

proof fn lemma_merged<T: Scalar>(g: &GibbsSampler, pt: &Tempering<T>, done: int, k: int)
    requires
        counted(g, pt, done),
        0 <= k <= pt.rungs(),
        0 <= done,
    ensures
        pt.merged_upto(k).0 == k * (done * g.class_members@.len()),
        pt.merged_upto(k).1 <= k * (done * g.class_members@.len()),
        pt.merged_upto(k).2 == k * done,
    decreases k,
{
    let each = done * g.class_members@.len();
    if k > 0 {
        lemma_merged(g, pt, done, k - 1);
        assert(counted_at(g, pt, done, k - 1));
        assert(k * each == (k - 1) * each + each) by (nonlinear_arith);
        assert(k * done == (k - 1) * done + done) by (nonlinear_arith);
    } else {
        assert(0 * each == 0 && 0 * done == 0);
    }
}

/// The counters of a run of `total` sweeps on `rungs` rungs hold.
pub open spec fn fits(g: &GibbsSampler, total: u64, rungs: int) -> bool {
    &&& rungs * (total * g.class_members@.len()) <= u64::MAX
    &&& rungs * total <= u64::MAX
}

impl<T: Scalar> Leg<T> {
    /// The run is in order and its counters hold until it is done.
    pub open spec fn wf(&self, g: &GibbsSampler, m: &IsingModel<T>) -> bool {
        &&& m.wf()
        &&& g.within(m.n as int)
        &&& self.pt.wf(m)
        &&& self.clock.wf()
        &&& counted(g, &self.pt, self.clock.done as int)
        &&& fits(g, self.clock.total, self.pt.rungs())
        &&& self.pt.round <= self.clock.done
        &&& self.pt.stats.attempts <= self.pt.rungs() * self.clock.done
    }

    /// The next stretch; says whether there was one.
    pub fn stretch<F: Fn(usize, T, u64, usize, T) -> bool + Sync + Send, A: Fn(u64, usize, T) -> bool>(
        &mut self,
        g: &GibbsSampler,
        m: &IsingModel<T>,
        up: &F,
        accept: &A,
    ) -> (more: bool)
        requires
            old(self).wf(g, m),
            forall|r: usize, b: T, w: u64, k: usize, l: T| call_requires(up, (r, b, w, k, l)),
            forall|r: u64, k: usize, x: T| call_requires(accept, (r, k, x)),
        ensures
            final(self).wf(g, m),
            final(self).clock.total == old(self).clock.total,
            final(self).pt.betas == old(self).pt.betas,
            more == (old(self).clock.done < old(self).clock.total),
            more ==> leads(g, m, *up, *accept, old(self), final(self)) && final(self).clock.done
                > old(self).clock.done,
            !more ==> *final(self) == *old(self),
            final(self).ticks@ == old(self).ticks@ || (final(self).ticks@.len()
                == old(self).ticks@.len() + 1 && final(self).ticks@.drop_last()
                == old(self).ticks@),
    {
        let ghost was = *self;
        let from: u64 = self.clock.done;
        let tick = match self.clock.tick() {
            Some(t) => t,
            None => {
                return false;
            },
        };
        let n: usize = self.pt.replica_count();
        let ghost len = g.class_members@.len() as int;
        proof {
            assert(n == was.pt.rungs());
            let (rungs, total) = (self.pt.rungs(), self.clock.total as int);
            let all = total * len;
            assert(all <= rungs * all) by (nonlinear_arith)
                requires
                    rungs >= 1,
                    all >= 0,
            ;
            assert(0 <= all) by (nonlinear_arith)
                requires
                    all == total * len,
                    total >= 0,
                    len >= 0,
            ;
            let (d, c) = (from as int, tick.chunk as int);
            assert(d * len + c * len <= all) by (nonlinear_arith)
                requires
                    d + c <= total,
                    len >= 0,
                    all == total * len,
            ;
            assert forall|k: int| 0 <= k < rungs implies room(
                g,
                #[trigger] &self.pt.records@[k],
                c,
            ) by {
                assert(counted_at(g, &was.pt, d, k));
            }
        }
        self.pt.advance(g, m, from, tick.chunk, up);
        let ghost mid = self.pt;
        proof {
            lemma_counts_advance(
                g,
                m,
                *up,
                from,
                tick.chunk,
                &was.pt,
                &mid,
                from as int,
            );
            let (rungs, d, e) = (self.pt.rungs(), from as int, tick.done as int);
            let total = self.clock.total as int;
            assert(rungs * d + rungs <= rungs * e) by (nonlinear_arith)
                requires
                    d + 1 <= e,
                    rungs >= 0,
            ;
            assert(rungs * e <= rungs * total) by (nonlinear_arith)
                requires
                    e <= total,
                    rungs >= 0,
            ;
        }
        if tick.swap {
            self.pt.swap_round(m, accept);
            proof {
                let acc = choose|acc: Seq<bool>|
                    #[trigger] mid.judged(*accept, acc) && mid.round_to(acc, &self.pt);
                lemma_pairs_bounded(mid.round, mid.rungs(), mid.rungs());
                assert forall|k: int| 0 <= k < self.pt.rungs() implies #[trigger] counted_at(
                    g,
                    &self.pt,
                    tick.done as int,
                    k,
                ) by {
                    assert(counted_at(g, &mid, tick.done as int, k));
                }
                assert(exchanged_to(*accept, &mid, &self.pt));
            }
        }
        if tick.trace {
            let energy = self.pt.lowest(m);
            let b: usize = self.pt.best(m);
            let point = TracePoint {
                sweep: tick.done,
                energy,
                best_energy: self.pt.records[b].best_energy,
            };
            self.trace.push(point);
            self.ticks.push(
                SpinTick {
                    point,
                    attempts: self.pt.stats.attempts,
                    accepts: self.pt.stats.accepts,
                },
            );
        }
        assert(stretched(g, m, *up, *accept, &was, self, tick, mid));
        proof {
            if tick.trace {
                assert(self.ticks@.drop_last() =~= was.ticks@);
            }
        }
        true
    }
}

/// Every recorded log ratio that is not negative was accepted.
pub open spec fn all_taken<T: Scalar>(d: Seq<SwapDecision<T>>) -> bool {
    forall|i: int|
        0 <= i < d.len() && (#[trigger] d[i]).log_ratio.at_least(T::zero_value()) ==> d[i].accepted
}

proof fn lemma_logged_taken<T: Scalar, A: Fn(u64, usize, T) -> bool>(
    t: &Tempering<T>,
    accept: A,
    acc: Seq<bool>,
    k: int,
)
    requires
        willing::<T, A>(accept),
        t.judged(accept, acc),
        k <= t.rungs(),
    ensures
        all_taken(logged(t, acc, k)),
    decreases k,
{
    if k > 0 {
        lemma_logged_taken(t, accept, acc, k - 1);
        if pair_attempted(t.round, t.rungs(), k - 1) {
            assert(call_ensures(
                accept,
                (t.round, (k - 1) as usize, t.ratio(k - 1)),
                acc[k - 1],
            ));
        }
    }
}

/// A run whose `accept` takes every log ratio that is not negative records no
/// other.
pub proof fn lemma_willing<T: Scalar, F: Fn(usize, T, u64, usize, T) -> bool, A: Fn(
    u64,
    usize,
    T,
) -> bool>(
    g: &GibbsSampler,
    m: &IsingModel<T>,
    up: F,
    accept: A,
    legs: Seq<Leg<T>>,
    k: int,
)
    requires
        willing::<T, A>(accept),
        tempers(g, m, up, accept, legs),
        legs[0].pt.stats.decisions@.len() == 0,
        0 <= k < legs.len(),
    ensures
        all_taken(legs[k].pt.stats.decisions@),
    decreases k,
{
    if k > 0 {
        lemma_willing(g, m, up, accept, legs, k - 1);
        let (a, b) = (legs[k - 1], legs[k]);
        assert(tempers_at(g, m, up, accept, legs, k - 1));
        let (tick, mid) = choose|tick: Tick, mid: Tempering<T>|
            #[trigger] stretched(g, m, up, accept, &a, &b, tick, mid);
        if tick.swap {
            let acc = choose|acc: Seq<bool>|
                #[trigger] mid.judged(accept, acc) && mid.round_to(acc, &b.pt);
            lemma_logged_taken(&mid, accept, acc, mid.rungs());
        }
    }
}

/// What a finished run reports.
pub open spec fn reported<T: Scalar>(x: &Leg<T>, r: &TemperOutcome<T>) -> bool {
    let b = x.pt.best_upto(x.pt.rungs());
    &&& r.best_energy == x.pt.records@[b].best_energy
    &&& r.best_state@ == x.pt.records@[b].best_state@
    &&& r.trace@ == x.trace@
    &&& r.ticks@ == x.ticks@
    &&& (r.ledger.spin_updates as int, r.ledger.flips as int, r.ledger.sweeps as int)
        == x.pt.merged_upto(x.pt.rungs())
    &&& r.stats == x.pt.stats
    &&& r.betas == x.pt.betas
}

/// Parallel tempering: `sweeps_per_replica` sweeps on every rung, an exchange
/// round every `spec.swap_interval` of them, a trace point about every
/// `trace_every`. `up` decides spin updates by rung, its inverse temperature,
/// sweep, update and local field, `accept` decides exchanges by round, pair and
/// log ratio. `listener` hears of every trace point.
pub fn parallel_temper<
    T: Scalar,
    P: Fn(T, T) -> T,
    F: Fn(usize, T, u64, usize, T) -> bool + Sync + Send,
    A: Fn(u64, usize, T) -> bool,
    L: Listener<SpinTick<T>>,
>(
    g: &GibbsSampler,
    m: &IsingModel<T>,
    spec: &TemperingSpec<T>,
    pow: &P,
    states: &Vec<Vec<i8>>,
    sweeps_per_replica: u64,
    trace_every: u64,
    up: &F,
    accept: &A,
    listener: &mut L,
) -> (r: TemperOutcome<T>)
    requires
        m.wf(),
        g.within(m.n as int),
        spec.valid(),
        states@.len() == spec.replicas,
        forall|k: int| 0 <= k < states@.len() ==> spins((#[trigger] states@[k])@, m.n as int),
        fits(g, sweeps_per_replica, spec.replicas as int),
        forall|x: T, y: T| #[trigger] call_requires(pow, (x, y)),
        forall|r: usize, b: T, w: u64, k: usize, l: T| call_requires(up, (r, b, w, k, l)),
        forall|r: u64, k: usize, x: T| call_requires(accept, (r, k, x)),
    ensures
        r.betas@.len() == spec.replicas,
        r.stats.per_pair_attempts@.len() == spec.replicas - 1,
        r.stats.per_pair_accepts@.len() == spec.replicas - 1,
        r.ledger.sweeps == spec.replicas * sweeps_per_replica,
        spins(r.best_state@, m.n as int),
        r.best_energy == m.energy_of(r.best_state@),
        willing::<T, A>(*accept) ==> all_taken(r.stats.decisions@),
        heard(*old(listener), r.ticks@, *final(listener)),
        exists|legs: Seq<Leg<T>>|
            #[trigger] tempers(g, m, *up, *accept, legs) && fresh(
                m,
                spec,
                *pow,
                states@,
                sweeps_per_replica,
                trace_every,
                &legs[0],
            ) && reported(&legs.last(), &r),
{
    let total: u64 = sweeps_per_replica;
    let betas = spec.betas(pow);
    let mut x = Leg {
        clock: TemperClock::new(total, spec.swap_interval, trace_every),
        pt: Tempering::new(m, betas, states),
        trace: Vec::new(),
        ticks: Vec::new(),
    };
    proof {
        lemma_heard_nothing::<SpinTick<T>, L>(*listener);
        assert(x.ticks@ =~= Seq::empty());
    }
    let ghost mut legs: Seq<Leg<T>> = seq![x];
    proof {
        let len = g.class_members@.len() as int;
        assert(0 * len == 0 && x.pt.rungs() * 0 == 0);
        assert forall|k: int| 0 <= k < x.pt.rungs() implies #[trigger] counted_at(
            g,
            &x.pt,
            0,
            k,
        ) by {
            assert(x.pt.records@[k].best_state@ == states@[k]@);
        }
    }
    let mut more = true;
    while more
        invariant
            x.wf(g, m),
            heard(*old(listener), x.ticks@, *listener),
            x.clock.total == total,
            x.pt.rungs() == spec.replicas,
            forall|r: usize, b: T, w: u64, k: usize, l: T| call_requires(up, (r, b, w, k, l)),
            forall|r: u64, k: usize, x: T| call_requires(accept, (r, k, x)),
            legs.len() >= 1,
            legs.last() == x,
            fresh(m, spec, *pow, states@, total, trace_every, &legs[0]),
            forall|k: int|
                0 <= k < legs.len() - 1 ==> #[trigger] tempers_at(g, m, *up, *accept, legs, k),
            !more ==> x.clock.done == total,
        decreases total - x.clock.done + (if more {
            1int
        } else {
            0int
        }),
    {
        let ghost before = legs;
        let ghost told = x.ticks@;
        let n: usize = x.ticks.len();
        more = x.stretch(g, m, up, accept);
        if x.ticks.len() > n {
            let tick = x.ticks[n];
            let ghost l = *listener;
            listener.hear(tick);
            proof {
                lemma_heard_more(*old(listener), told, l, tick, *listener);
                assert(x.ticks@ =~= told.push(tick));
            }
        }
        proof {
            if more {
                legs = legs.push(x);
                assert forall|k: int| 0 <= k < legs.len() - 1 implies #[trigger] tempers_at(
                    g,
                    m,
                    *up,
                    *accept,
                    legs,
                    k,
                ) by {
                    if k < before.len() - 1 {
                        assert(tempers_at(g, m, *up, *accept, before, k));
                    }
                }
            }
        }
    }
    proof {
        lemma_merged(g, &x.pt, total as int, x.pt.rungs());
        assert(tempers(g, m, *up, *accept, legs));
        if willing::<T, A>(*accept) {
            lemma_willing(g, m, *up, *accept, legs, legs.len() - 1);
        }
    }
    let ledger = x.pt.merged_ledger();
    let b: usize = x.pt.best(m);
    assert(crate::stochastic::chain::in_step(m, &x.pt.live@[b as int], &x.pt.records@[b as int]));
    let best_state = copy_spins(&x.pt.records[b].best_state);
    let r = TemperOutcome {
        best_energy: x.pt.records[b].best_energy,
        best_state,
        trace: x.trace,
        ticks: x.ticks,
        ledger,
        stats: x.pt.stats,
        betas: x.pt.betas,
    };
    assert(reported(&legs.last(), &r));
    r
}

} // verus!
