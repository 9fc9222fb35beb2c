//! Parallel tempering (replica exchange) on top of the chromatic Gibbs sampler.
//!
//! Replicas of one model run at fixed inverse temperatures, the rungs of a
//! ladder. Every few sweeps an exchange round lets neighbouring rungs swap
//! their states: even pairs (0,1)(2,3)... on even rounds, odd pairs
//! (1,2)(3,4)... on odd rounds. Between rounds the replicas advance
//! independently of one another, so how they are spread over threads cannot be
//! told from the result.

use crate::field::lattice::filled;
use crate::parallel::map_indexed;
use crate::scalar::Scalar;
use crate::stochastic::chain::{copy_spins, start_chain, sweep_chain, Live, Record};
use crate::stochastic::chain::{in_step, lemma_flips_bounded, moved, room};
use crate::stochastic::gibbs::{GibbsSampler, SpinLedger};
use crate::stochastic::ising::IsingModel;
use crate::stochastic::maxcut::spins;
use vstd::prelude::*;

verus! {

/// One recorded exchange attempt.
#[derive(Debug, Clone, Copy)]
pub struct SwapDecision<T> {
    /// Exchange round.
    pub round: u64,
    /// Lower rung of the attempted pair (k, k+1).
    pub pair: usize,
    /// Log acceptance ratio: difference of the inverse temperatures times
    /// difference of the energies.
    pub log_ratio: T,
    pub accepted: bool,
}

/// Aggregate exchange statistics.
pub struct SwapStats<T> {
    pub attempts: u64,
    pub accepts: u64,
    pub per_pair_attempts: Vec<u64>,
    pub per_pair_accepts: Vec<u64>,
    /// One entry per attempted pair swap.
    pub decisions: Vec<SwapDecision<T>>,
}

/// Replica-exchange engine.
pub struct Tempering<T> {
    /// Inverse temperature of each rung; it never moves.
    pub betas: Vec<T>,
    /// State and energy on each rung; exchanges move these.
    pub live: Vec<Live<T>>,
    /// What each rung has recorded; exchanges leave these.
    pub records: Vec<Record<T>>,
    pub stats: SwapStats<T>,
    /// Exchange rounds done.
    pub round: u64,
}

/// Spin updates below which a chunk runs on the calling thread.
pub const PAR_THRESHOLD_UPDATES: u64 = 4096;

/// Whether `up` decides along sweep `w` on rung `r`, a rung and its inverse
/// temperature, as `dec` says.
pub open spec fn rung_decides<T: Scalar, F: Fn(usize, T, u64, usize, T) -> bool>(
    g: &GibbsSampler,
    m: &IsingModel<T>,
    s: Seq<i8>,
    up: F,
    r: (usize, T),
    w: u64,
    dec: Seq<bool>,
) -> bool {
    &&& dec.len() == g.class_members@.len()
    &&& forall|k: int|
        0 <= k < dec.len() ==> call_ensures(
            up,
            (r.0, r.1, w, k as usize, m.field_of(g.swept(s, dec, k), g.class_members@[k] as int)),
            #[trigger] dec[k],
        )
}

/// Whether sweep `w` of rung `r` can take one chain to the other.
pub open spec fn rung_sweeps<T: Scalar, F: Fn(usize, T, u64, usize, T) -> bool>(
    g: &GibbsSampler,
    m: &IsingModel<T>,
    up: F,
    r: (usize, T),
    w: u64,
    a: (Live<T>, Record<T>),
    b: (Live<T>, Record<T>),
) -> bool {
    exists|dec: Seq<bool>|
        #[trigger] rung_decides(g, m, a.0.state@, up, r, w, dec) && moved(
            g,
            m,
            dec,
            &a.0,
            &a.1,
            &b.0,
            &b.1,
        )
}

/// Whether `path` is a chain's way over `sweeps` sweeps on rung `r`, the first
/// of them sweep `from` of the run.
pub open spec fn rung_path<T: Scalar, F: Fn(usize, T, u64, usize, T) -> bool>(
    g: &GibbsSampler,
    m: &IsingModel<T>,
    up: F,
    r: (usize, T),
    from: u64,
    sweeps: u64,
    path: Seq<(Live<T>, Record<T>)>,
) -> bool {
    &&& path.len() == sweeps + 1
    &&& forall|w: int| 0 <= w < sweeps ==> #[trigger] rung_at(g, m, up, r, from, path, w)
}

/// Whether sweep `from + w` leads along `path`.
pub open spec fn rung_at<T: Scalar, F: Fn(usize, T, u64, usize, T) -> bool>(
    g: &GibbsSampler,
    m: &IsingModel<T>,
    up: F,
    r: (usize, T),
    from: u64,
    path: Seq<(Live<T>, Record<T>)>,
    w: int,
) -> bool {
    rung_sweeps(g, m, up, r, (from + w) as u64, path[w], path[w + 1])
}

/// Whether two chains are the same to the eye.
pub open spec fn same_chain<T>(a: (Live<T>, Record<T>), l: &Live<T>, r: &Record<T>) -> bool {
    &&& a.0.state@ == l.state@
    &&& a.0.energy == l.energy
    &&& a.1.best_state@ == r.best_state@
    &&& a.1.best_energy == r.best_energy
    &&& a.1.ledger == r.ledger
}

/// Whether `sweeps` sweeps on rung `r`, from sweep `from` of the run on, can
/// take the chain `(l, rec)` to `out`.
pub open spec fn rung_advanced<T: Scalar, F: Fn(usize, T, u64, usize, T) -> bool>(
    g: &GibbsSampler,
    m: &IsingModel<T>,
    up: F,
    r: (usize, T),
    from: u64,
    sweeps: u64,
    l: &Live<T>,
    rec: &Record<T>,
    out: (Live<T>, Record<T>),
) -> bool {
    exists|path: Seq<(Live<T>, Record<T>)>|
        #[trigger] rung_path(g, m, up, r, from, sweeps, path) && same_chain(path[0], l, rec)
            && path.last() == out
}

/// Whether every rung of `before` has gone over `sweeps` sweeps, from sweep
/// `from` of the run on, and nothing else has moved.
pub open spec fn all_advanced<T: Scalar, F: Fn(usize, T, u64, usize, T) -> bool>(
    g: &GibbsSampler,
    m: &IsingModel<T>,
    up: F,
    from: u64,
    sweeps: u64,
    before: &Tempering<T>,
    after: &Tempering<T>,
) -> bool {
    &&& after.betas == before.betas
    &&& after.stats == before.stats
    &&& after.round == before.round
    &&& after.live@.len() == before.rungs()
    &&& after.records@.len() == before.rungs()
    &&& forall|r: usize|
        #![trigger after.live@[r as int]]
        r < before.rungs() ==> rung_advanced(
            g,
            m,
            up,
            before.rung(r as int),
            from,
            sweeps,
            &before.live@[r as int],
            &before.records@[r as int],
            (after.live@[r as int], after.records@[r as int]),
        )
}

/// Lower rung of the last attempted pair or beyond: pairs of a round start at
/// the parity of the round.
pub open spec fn pair_attempted(round: u64, rungs: int, k: int) -> bool {
    0 <= k && k + 1 < rungs && k % 2 == round as int % 2
}

/// Pairs attempted among the rungs before `k`.
pub open spec fn pairs_before(round: u64, rungs: int, k: int) -> int
    decreases k,
{
    if k <= 0 {
        0
    } else {
        pairs_before(round, rungs, k - 1) + if pair_attempted(round, rungs, k - 1) {
            1int
        } else {
            0
        }
    }
}

/// Accepted pairs among the rungs before `k`.
pub open spec fn accepts_before(acc: Seq<bool>, round: u64, rungs: int, k: int) -> int
    decreases k,
{
    if k <= 0 {
        0
    } else {
        accepts_before(acc, round, rungs, k - 1) + if pair_attempted(round, rungs, k - 1)
            && acc[k - 1] {
            1int
        } else {
            0
        }
    }
}

impl<T: Scalar> Tempering<T> {
    /// Rung `r` and its inverse temperature.
    pub open spec fn rung(&self, r: int) -> (usize, T) {
        (r as usize, self.betas@[r])
    }

    pub open spec fn rungs(&self) -> int {
        self.betas@.len() as int
    }

    /// Arrays have one entry per rung or per pair, and every energy is that of
    /// its state.
    pub open spec fn wf(&self, m: &IsingModel<T>) -> bool {
        &&& self.betas@.len() >= 1
        &&& self.live@.len() == self.rungs()
        &&& self.records@.len() == self.rungs()
        &&& self.stats.per_pair_attempts@.len() == self.rungs() - 1
        &&& self.stats.per_pair_accepts@.len() == self.rungs() - 1
        &&& self.stats.accepts <= self.stats.attempts
        &&& self.stats.decisions@.len() == self.stats.attempts
        &&& forall|k: int|
            0 <= k < self.rungs() - 1 ==> #[trigger] self.stats.per_pair_accepts@[k]
                <= self.stats.per_pair_attempts@[k]
        &&& forall|k: int|
            0 <= k < self.rungs() - 1 ==> #[trigger] self.stats.per_pair_attempts@[k]
                <= self.stats.attempts
        &&& forall|k: int|
            0 <= k < self.rungs() ==> in_step(
                m,
                #[trigger] &self.live@[k],
                &self.records@[k],
            )
    }

    /// Log acceptance ratio of the pair (k, k+1).
    pub open spec fn ratio(&self, k: int) -> T {
        self.betas@[k + 1].difference(self.betas@[k]).product(
            self.live@[k + 1].energy.difference(self.live@[k].energy),
        )
    }

    /// One replica per rung, each from its own first state.
    pub fn new(m: &IsingModel<T>, betas: Vec<T>, states: &Vec<Vec<i8>>) -> (r: Self)
        requires
            m.wf(),
            betas@.len() >= 1,
            states@.len() == betas@.len(),
            forall|k: int|
                0 <= k < states@.len() ==> spins((#[trigger] states@[k])@, m.n as int),
        ensures
            r.wf(m),
            r.betas@ == betas@,
            forall|k: int| 0 <= k < r.rungs() ==> (#[trigger] r.live@[k]).state@ == states@[k]@,
            forall|k: int|
                0 <= k < r.rungs() ==> (#[trigger] r.records@[k]).best_state@ == states@[k]@
                    && r.records@[k].ledger == (SpinLedger {
                    spin_updates: 0,
                    flips: 0,
                    sweeps: 0,
                }),
            r.stats.attempts == 0,
            r.stats.accepts == 0,
            r.stats.decisions@.len() == 0,
            forall|k: int| 0 <= k < r.rungs() - 1 ==> #[trigger] r.stats.per_pair_attempts@[k] == 0,
            forall|k: int| 0 <= k < r.rungs() - 1 ==> #[trigger] r.stats.per_pair_accepts@[k] == 0,
            r.round == 0,
    {
        let n: usize = betas.len();
        let mut live: Vec<Live<T>> = Vec::new();
        let mut records: Vec<Record<T>> = Vec::new();
        let mut k: usize = 0;
        while k < n
            invariant
                k <= n,
                m.wf(),
                states@.len() == n,
                forall|k: int|
                    0 <= k < states@.len() ==> spins((#[trigger] states@[k])@, m.n as int),
                live@.len() == k,
                records@.len() == k,
                forall|i: int|
                    0 <= i < k ==> in_step(m, #[trigger] &live@[i], &records@[i]) && live@[i].state@
                        == states@[i]@,
                forall|i: int|
                    0 <= i < k ==> (#[trigger] records@[i]).best_state@ == states@[i]@
                        && records@[i].ledger == (SpinLedger {
                        spin_updates: 0,
                        flips: 0,
                        sweeps: 0,
                    }),
            decreases n - k,
        {
            let (l, r) = start_chain(m, copy_spins(&states[k]));
            live.push(l);
            records.push(r);
            k += 1;
        }
        let r = Tempering {
            betas,
            live,
            records,
            stats: SwapStats {
                attempts: 0,
                accepts: 0,
                per_pair_attempts: filled(0u64, n - 1),
                per_pair_accepts: filled(0u64, n - 1),
                decisions: Vec::new(),
            },
            round: 0,
        };
        assert forall|k: int| 0 <= k < r.rungs() implies (#[trigger] r.live@[k]).state@
            == states@[k]@ by {
            assert(in_step(m, &r.live@[k], &r.records@[k]));
        }
        r
    }

    pub fn replica_count(&self) -> (r: usize)
        ensures
            r == self.live@.len(),
    {
        self.live.len()
    }

    /// Whether `k` is the rung with the best record: the first of those that
    /// no other is below.
    pub open spec fn best_upto(&self, k: int) -> int
        decreases k,
    {
        if k <= 1 {
            0
        } else {
            let b = self.best_upto(k - 1);
            if self.records@[k - 1].best_energy.less_than(self.records@[b].best_energy) {
                k - 1
            } else {
                b
            }
        }
    }

    /// The rung whose record holds the best configuration.
    pub fn best(&self, m: &IsingModel<T>) -> (b: usize)
        requires
            self.wf(m),
        ensures
            b == self.best_upto(self.rungs()),
            b < self.rungs(),
    {
        let mut b: usize = 0;
        let mut k: usize = 1;
        while k < self.records.len()
            invariant
                1 <= k <= self.records@.len(),
                b < k,
                b == self.best_upto(k as int),
            decreases self.records@.len() - k,
        {
            if self.records[k].best_energy.below(self.records[b].best_energy) {
                b = k;
            }
            k += 1;
        }
        b
    }

    /// Lowest present energy over the first `k` rungs.
    pub open spec fn lowest_upto(&self, k: int) -> T
        decreases k,
    {
        if k <= 1 {
            self.live@[0].energy
        } else {
            let e = self.lowest_upto(k - 1);
            if self.live@[k - 1].energy.less_than(e) {
                self.live@[k - 1].energy
            } else {
                e
            }
        }
    }

    /// Lowest present energy over all rungs.
    pub fn lowest(&self, m: &IsingModel<T>) -> (e: T)
        requires
            self.wf(m),
        ensures
            e == self.lowest_upto(self.rungs()),
    {
        let mut e = self.live[0].energy;
        let mut k: usize = 1;
        while k < self.live.len()
            invariant
                1 <= k <= self.live@.len(),
                e == self.lowest_upto(k as int),
            decreases self.live@.len() - k,
        {
            if self.live[k].energy.below(e) {
                e = self.live[k].energy;
            }
            k += 1;
        }
        e
    }

    /// Counts of the first `k` rungs together.
    pub open spec fn merged_upto(&self, k: int) -> (int, int, int)
        decreases k,
    {
        if k <= 0 {
            (0, 0, 0)
        } else {
            let t = self.merged_upto(k - 1);
            let l = self.records@[k - 1].ledger;
            (t.0 + l.spin_updates, t.1 + l.flips, t.2 + l.sweeps)
        }
    }

    /// Counts of all rungs merged into one.
    pub fn merged_ledger(&self) -> (r: SpinLedger)
        requires
            ({
                let t = self.merged_upto(self.records@.len() as int);
                t.0 <= u64::MAX && t.1 <= u64::MAX && t.2 <= u64::MAX
            }),
        ensures
            (r.spin_updates as int, r.flips as int, r.sweeps as int) == self.merged_upto(
                self.records@.len() as int,
            ),
    {
        let mut r = SpinLedger { spin_updates: 0, flips: 0, sweeps: 0 };
        let mut k: usize = 0;
        while k < self.records.len()
            invariant
                k <= self.records@.len(),
                ({
                    let t = self.merged_upto(self.records@.len() as int);
                    t.0 <= u64::MAX && t.1 <= u64::MAX && t.2 <= u64::MAX
                }),
                (r.spin_updates as int, r.flips as int, r.sweeps as int) == self.merged_upto(
                    k as int,
                ),
            decreases self.records@.len() - k,
        {
            proof {
                lemma_merged_grows(self, k + 1, self.records@.len() as int);
            }
            let l = &self.records[k].ledger;
            r = SpinLedger {
                spin_updates: r.spin_updates + l.spin_updates,
                flips: r.flips + l.flips,
                sweeps: r.sweeps + l.sweeps,
            };
            k += 1;
        }
        r
    }

    /// One rung over `sweeps` sweeps.
    fn advance_rung<F: Fn(usize, T, u64, usize, T) -> bool>(
        &self,
        g: &GibbsSampler,
        m: &IsingModel<T>,
        r: usize,
        from: u64,
        sweeps: u64,
        up: &F,
    ) -> (out: (Live<T>, Record<T>))
        requires
            m.wf(),
            g.within(m.n as int),
            self.wf(m),
            r < self.rungs(),
            room(g, &self.records@[r as int], sweeps as int),
            from + sweeps <= u64::MAX,
            forall|b: T, w: u64, k: usize, l: T| call_requires(up, (r, b, w, k, l)),
        ensures
            in_step(m, &out.0, &out.1),
            rung_advanced(
                g,
                m,
                *up,
                self.rung(r as int),
                from,
                sweeps,
                &self.live@[r as int],
                &self.records@[r as int],
                out,
            ),
    {
        assert(in_step(m, &self.live@[r as int], &self.records@[r as int]));
        let mut live = Live {
            state: copy_spins(&self.live[r].state),
            energy: self.live[r].energy,
        };
        let mut rec = Record {
            best_energy: self.records[r].best_energy,
            best_state: copy_spins(&self.records[r].best_state),
            ledger: self.records[r].ledger,
        };
        let rung: (usize, T) = (r, self.betas[r]);
        let ghost mut path = seq![(live, rec)];
        let mut w: u64 = 0;
        while w < sweeps
            invariant
                w <= sweeps,
                from + sweeps <= u64::MAX,
                m.wf(),
                g.within(m.n as int),
                in_step(m, &live, &rec),
                rung.0 == r,
                room(g, &rec, sweeps - w),
                forall|b: T, w: u64, k: usize, l: T| call_requires(up, (r, b, w, k, l)),
                path.len() == w + 1,
                path.last() == (live, rec),
                same_chain(path[0], &self.live@[r as int], &self.records@[r as int]),
                forall|v: int| 0 <= v < w ==> #[trigger] rung_at(g, m, *up, rung, from, path, v),
            decreases sweeps - w,
        {
            let ghost a = live;
            let ghost t = rec;
            sweep_rung(g, m, &mut live, &mut rec, rung, from + w, Ghost((sweeps - w) as int), up);
            proof {
                let before = path;
                path = path.push((live, rec));
                assert forall|v: int| 0 <= v < w + 1 implies #[trigger] rung_at(
                    g,
                    m,
                    *up,
                    rung,
                    from,
                    path,
                    v,
                ) by {
                    if v < w {
                        assert(rung_at(g, m, *up, rung, from, before, v));
                    }
                }
            }
            w += 1;
        }
        proof {
            assert(rung_path(g, m, *up, rung, from, sweeps, path));
        }
        (live, rec)
    }

    /// Advances every replica `sweeps` sweeps at its own temperature, from sweep
    /// `from` of the run on: `up(r, beta, w, k, l)` decides update `k` of sweep
    /// `w` of the run on rung `r`, whose inverse temperature is `beta`, from its
    /// local field.
    pub fn advance<F: Fn(usize, T, u64, usize, T) -> bool + Sync + Send>(
        &mut self,
        g: &GibbsSampler,
        m: &IsingModel<T>,
        from: u64,
        sweeps: u64,
        up: &F,
    )
        requires
            from + sweeps <= u64::MAX,
            m.wf(),
            g.within(m.n as int),
            old(self).wf(m),
            forall|k: int|
                0 <= k < old(self).rungs() ==> room(
                    g,
                    #[trigger] &old(self).records@[k],
                    sweeps as int,
                ),
            forall|r: usize, b: T, w: u64, k: usize, l: T| call_requires(up, (r, b, w, k, l)),
        ensures
            final(self).wf(m),
            all_advanced(g, m, *up, from, sweeps, old(self), final(self)),
    {
        let n: usize = self.live.len();
        let ghost was = *self;
        let parallel = worth_threads(m.n as u64, sweeps, n as u64);
        let this: &Self = self;
        let one = |r: usize| -> (out: (Live<T>, Record<T>))
            requires
                r < n,
                n == this.rungs(),
                m.wf(),
                g.within(m.n as int),
                this.wf(m),
                room(g, &this.records@[r as int], sweeps as int),
                from + sweeps <= u64::MAX,
                forall|b: T, w: u64, k: usize, l: T| call_requires(up, (r, b, w, k, l)),
            ensures
                in_step(m, &out.0, &out.1),
                rung_advanced(
                    g,
                    m,
                    *up,
                    this.rung(r as int),
                    from,
                    sweeps,
                    &this.live@[r as int],
                    &this.records@[r as int],
                    out,
                ),
            { this.advance_rung(g, m, r, from, sweeps, up) };
        let out = map_indexed(parallel, n, 1, one);
        let mut live: Vec<Live<T>> = Vec::new();
        let mut records: Vec<Record<T>> = Vec::new();
        let ghost all = out@;
        for pair in it: out
            invariant
                all == it.seq(),
                all.len() == n,
                live@.len() == it.index(),
                records@.len() == it.index(),
                forall|k: int| 0 <= k < it.index() ==> (#[trigger] live@[k], records@[k]) == all[k],
        {
            let (l, r) = pair;
            live.push(l);
            records.push(r);
        }
        self.live = live;
        self.records = records;
        proof {
            assert forall|k: int| 0 <= k < self.rungs() implies in_step(
                m,
                #[trigger] &self.live@[k],
                &self.records@[k],
            ) by {
                assert((self.live@[k], self.records@[k]) == all[k]);
                assert(call_ensures(one, (k as usize,), all[k]));
            }
            assert forall|r: usize|
                #![trigger self.live@[r as int]]
                r < was.rungs() implies rung_advanced(
                g,
                m,
                *up,
                was.rung(r as int),
                from,
                sweeps,
                &was.live@[r as int],
                &was.records@[r as int],
                (self.live@[r as int], self.records@[r as int]),
            ) by {
                assert((self.live@[r as int], self.records@[r as int]) == all[r as int]);
                assert(call_ensures(one, (r,), all[r as int]));
            }
        }
    }
}

/// Sweep `w` on rung `r` and its inverse temperature; `left` sweeps still fit the counters.
fn sweep_rung<T: Scalar, F: Fn(usize, T, u64, usize, T) -> bool>(
    g: &GibbsSampler,
    m: &IsingModel<T>,
    live: &mut Live<T>,
    rec: &mut Record<T>,
    r: (usize, T),
    w: u64,
    left: Ghost<int>,
    up: &F,
)
    requires
        m.wf(),
        g.within(m.n as int),
        in_step(m, old(live), old(rec)),
        left@ >= 1,
        room(g, old(rec), left@),
        forall|w: u64, k: usize, l: T| call_requires(up, (r.0, r.1, w, k, l)),
    ensures
        in_step(m, final(live), final(rec)),
        room(g, final(rec), left@ - 1),
        rung_sweeps(g, m, *up, r, w, (*old(live), *old(rec)), (*final(live), *final(rec))),
{
    let decide = |k: usize, l: T| -> (b: bool)
        requires
            call_requires(up, (r.0, r.1, w, k, l)),
        ensures
            call_ensures(up, (r.0, r.1, w, k, l), b),
        { up(r.0, r.1, w, k, l) };
    let ghost a = *live;
    let ghost t = *rec;
    proof {
        let len = g.class_members@.len() as int;
        let n = left@;
        assert(n * len == len + (n - 1) * len) by (nonlinear_arith);
        assert(0 <= (n - 1) * len) by (nonlinear_arith)
            requires
                n >= 1,
                len >= 0,
        ;
    }
    sweep_chain(g, m, live, rec, &decide);
    proof {
        let dec = choose|dec: Seq<bool>|
            #[trigger] g.decides(m, a.state@, decide, dec) && moved(g, m, dec, &a, &t, live, rec);
        lemma_flips_bounded(g, a.state@, dec, g.class_members@.len() as int);
        assert forall|k: int| 0 <= k < dec.len() implies call_ensures(
            up,
            (r.0, r.1, w, k as usize, m.field_of(g.swept(a.state@, dec, k), g.class_members@[k] as int)),
            #[trigger] dec[k],
        ) by {
            assert(call_ensures(
                decide,
                (k as usize, m.field_of(g.swept(a.state@, dec, k), g.class_members@[k] as int)),
                dec[k],
            ));
        }
        assert(rung_decides(g, m, a.state@, *up, r, w, dec));
        assert(moved(g, m, dec, &a, &t, live, rec));
        let (b, c) = ((a, t), (*live, *rec));
        assert(rung_decides(g, m, b.0.state@, *up, r, w, dec) && moved(
            g,
            m,
            dec,
            &b.0,
            &b.1,
            &c.0,
            &c.1,
        ));
        assert(rung_sweeps(g, m, *up, r, w, b, c));
    }
}

/// Whether a chunk of `sweeps` sweeps of `replicas` chains with `n` spins is
/// handed out to the thread pool.
fn worth_threads(n: u64, sweeps: u64, replicas: u64) -> (r: bool)
    requires
        replicas >= 1,
    ensures
        r == (n * sweeps * replicas >= PAR_THRESHOLD_UPDATES),
{
    proof {
        assert(n * sweeps <= n * sweeps * replicas) by (nonlinear_arith)
            requires
                0 <= n * sweeps,
                replicas >= 1,
        ;
        assert(0 <= n * sweeps) by (nonlinear_arith)
            requires
                n >= 0,
                sweeps >= 0,
        ;
    }
    match n.checked_mul(sweeps) {
        None => true,
        Some(each) => match each.checked_mul(replicas) {
            None => true,
            Some(all) => all >= PAR_THRESHOLD_UPDATES,
        },
    }
}

/// What stands on rung `k` after the pairs below `done` had their turn.
pub open spec fn exchanged<T>(
    live: Seq<Live<T>>,
    acc: Seq<bool>,
    round: u64,
    done: int,
    k: int,
) -> Live<T> {
    if k < done && pair_attempted(round, live.len() as int, k) && acc[k] {
        live[k + 1]
    } else if k - 1 < done && pair_attempted(round, live.len() as int, k - 1) && acc[k - 1] {
        live[k - 1]
    } else {
        live[k]
    }
}

/// The decisions that the pairs below `k` add to the log.
pub open spec fn logged<T: Scalar>(
    t: &Tempering<T>,
    acc: Seq<bool>,
    k: int,
) -> Seq<SwapDecision<T>>
    decreases k,
{
    if k <= 0 {
        Seq::empty()
    } else if pair_attempted(t.round, t.rungs(), k - 1) {
        logged(t, acc, k - 1).push(
            SwapDecision {
                round: t.round,
                pair: (k - 1) as usize,
                log_ratio: t.ratio(k - 1),
                accepted: acc[k - 1],
            },
        )
    } else {
        logged(t, acc, k - 1)
    }
}

impl<T: Scalar> Tempering<T> {
    /// Whether `after` is `self` after one exchange round that accepted the
    /// pairs that `acc` says.
    pub open spec fn round_to(&self, acc: Seq<bool>, after: &Self) -> bool {
        let n = self.rungs();
        &&& after.betas == self.betas
        &&& after.records == self.records
        &&& after.round == self.round + 1
        &&& after.live@.len() == n
        &&& forall|k: int|
            0 <= k < n ==> #[trigger] after.live@[k] == exchanged(
                self.live@,
                acc,
                self.round,
                n,
                k,
            )
        &&& after.stats.attempts == self.stats.attempts + pairs_before(self.round, n, n)
        &&& after.stats.accepts == self.stats.accepts + accepts_before(acc, self.round, n, n)
        &&& after.stats.per_pair_attempts@.len() == n - 1
        &&& after.stats.per_pair_accepts@.len() == n - 1
        &&& forall|k: int|
            0 <= k < n - 1 ==> #[trigger] after.stats.per_pair_attempts@[k]
                == self.stats.per_pair_attempts@[k] + if pair_attempted(self.round, n, k) {
                1int
            } else {
                0
            }
        &&& forall|k: int|
            0 <= k < n - 1 ==> #[trigger] after.stats.per_pair_accepts@[k]
                == self.stats.per_pair_accepts@[k] + if pair_attempted(self.round, n, k) && acc[k] {
                1int
            } else {
                0
            }
        &&& after.stats.decisions@ == self.stats.decisions@ + logged(self, acc, n)
    }

    /// Whether `accept` decides the attempted pairs of this round as `acc` says.
    pub open spec fn judged<F: Fn(u64, usize, T) -> bool>(&self, accept: F, acc: Seq<bool>) -> bool {
        &&& acc.len() == self.rungs()
        &&& forall|k: int|
            0 <= k < self.rungs() && #[trigger] pair_attempted(self.round, self.rungs(), k)
                ==> call_ensures(accept, (self.round, k as usize, self.ratio(k)), acc[k])
    }

    /// Attempts to exchange the rungs (k, k+1).
    fn attempt<F: Fn(u64, usize, T) -> bool>(&mut self, m: &IsingModel<T>, k: usize, accept: &F) -> (yes:
        bool)
        requires
            old(self).wf(m),
            k + 1 < old(self).rungs(),
            forall|r: u64, k: usize, x: T| call_requires(accept, (r, k, x)),
            old(self).stats.attempts < u64::MAX,
        ensures
            final(self).wf(m),
            call_ensures(accept, (old(self).round, k, old(self).ratio(k as int)), yes),
            final(self).betas == old(self).betas,
            final(self).records == old(self).records,
            final(self).round == old(self).round,
            final(self).live@ == (if yes {
                old(self).live@.update(k as int, old(self).live@[k + 1]).update(
                    k + 1,
                    old(self).live@[k as int],
                )
            } else {
                old(self).live@
            }),
            final(self).stats.attempts == old(self).stats.attempts + 1,
            final(self).stats.accepts == old(self).stats.accepts + if yes {
                1int
            } else {
                0
            },
            forall|i: int|
                0 <= i < old(self).rungs() - 1 ==> #[trigger] final(self).stats.per_pair_attempts@[i]
                    == old(self).stats.per_pair_attempts@[i] + if i == k {
                    1int
                } else {
                    0
                },
            forall|i: int|
                0 <= i < old(self).rungs() - 1 ==> #[trigger] final(self).stats.per_pair_accepts@[i]
                    == old(self).stats.per_pair_accepts@[i] + if i == k && yes {
                    1int
                } else {
                    0
                },
            final(self).stats.decisions@ == old(self).stats.decisions@.push(
                SwapDecision {
                    round: old(self).round,
                    pair: k,
                    log_ratio: old(self).ratio(k as int),
                    accepted: yes,
                },
            ),
    {
        let n: usize = self.betas.len();
        assert(k + 1 < n);
        let dbeta = self.betas[k + 1].minus(self.betas[k]);
        let de = self.live[k + 1].energy.minus(self.live[k].energy);
        let x = dbeta.times(de);
        let yes = accept(self.round, k, x);
        assert(self.stats.per_pair_attempts@[k as int] <= self.stats.attempts);
        assert(self.stats.per_pair_accepts@[k as int] <= self.stats.per_pair_attempts@[k as int]);
        self.stats.attempts = self.stats.attempts + 1;
        let a: u64 = self.stats.per_pair_attempts[k];
        self.stats.per_pair_attempts.set(k, a + 1);
        if yes {
            self.stats.accepts = self.stats.accepts + 1;
            let b: u64 = self.stats.per_pair_accepts[k];
            self.stats.per_pair_accepts.set(k, b + 1);
            let mut tmp = Live { state: Vec::new(), energy: x };
            let ghost l = self.live@;
            std::mem::swap(&mut self.live[k], &mut tmp);
            std::mem::swap(&mut self.live[k + 1], &mut tmp);
            std::mem::swap(&mut self.live[k], &mut tmp);
            assert(self.live@ =~= l.update(k as int, l[k + 1]).update(k + 1, l[k as int]));
        }
        self.stats.decisions.push(
            SwapDecision { round: self.round, pair: k, log_ratio: x, accepted: yes },
        );
        proof {
            assert forall|i: int| 0 <= i < self.rungs() implies in_step(
                m,
                #[trigger] &self.live@[i],
                &self.records@[i],
            ) by {
                assert(in_step(m, &old(self).live@[i], &old(self).records@[i]));
                assert(in_step(m, &old(self).live@[k as int], &old(self).records@[k as int]));
                assert(in_step(m, &old(self).live@[k + 1], &old(self).records@[k + 1]));
            }
        }
        yes
    }

    /// One exchange round: even pairs on even rounds, odd pairs on odd rounds.
    /// `accept(round, k, x)` decides the pair (k, k+1) whose log acceptance ratio
    /// is `x`. Accepted swaps exchange states and energies; temperatures and
    /// records stay on their rungs.
    pub fn swap_round<F: Fn(u64, usize, T) -> bool>(&mut self, m: &IsingModel<T>, accept: &F)
        requires
            old(self).wf(m),
            forall|r: u64, k: usize, x: T| call_requires(accept, (r, k, x)),
            old(self).round < u64::MAX,
            old(self).stats.attempts + old(self).rungs() <= u64::MAX,
        ensures
            final(self).wf(m),
            final(self).live@.to_multiset() == old(self).live@.to_multiset(),
            exists|acc: Seq<bool>|
                #[trigger] old(self).judged(*accept, acc) && old(self).round_to(acc, final(self)),
    {
        let ghost was = *self;
        let n: usize = self.live.len();
        let round: u64 = self.round;
        let ghost mut acc: Seq<bool> = Seq::empty();
        let mut k: usize = 0;
        assert(was.stats.decisions@ + logged(&was, acc, 0) =~= was.stats.decisions@);
        while k < n
            invariant
                k <= n,
                n == was.rungs(),
                was.wf(m),
                self.wf(m),
                round == was.round,
                self.round == was.round,
                round < u64::MAX,
                was.stats.attempts + n <= u64::MAX,
                forall|r: u64, k: usize, x: T| call_requires(accept, (r, k, x)),
                acc.len() == k,
                forall|i: int|
                    0 <= i < k && #[trigger] pair_attempted(round, n as int, i) ==> call_ensures(
                        accept,
                        (round, i as usize, was.ratio(i)),
                        acc[i],
                    ),
                self.betas == was.betas,
                self.records == was.records,
                self.live@.len() == n,
                forall|i: int|
                    0 <= i < n ==> #[trigger] self.live@[i] == exchanged(
                        was.live@,
                        acc,
                        round,
                        k as int,
                        i,
                    ),
                self.live@.to_multiset() == was.live@.to_multiset(),
                self.stats.attempts == was.stats.attempts + pairs_before(round, n as int, k as int),
                0 <= pairs_before(round, n as int, k as int) <= k,
                self.stats.accepts == was.stats.accepts + accepts_before(
                    acc,
                    round,
                    n as int,
                    k as int,
                ),
                forall|i: int|
                    0 <= i < n - 1 ==> #[trigger] self.stats.per_pair_attempts@[i]
                        == was.stats.per_pair_attempts@[i] + if i < k && pair_attempted(
                        round,
                        n as int,
                        i,
                    ) {
                        1int
                    } else {
                        0
                    },
                forall|i: int|
                    0 <= i < n - 1 ==> #[trigger] self.stats.per_pair_accepts@[i]
                        == was.stats.per_pair_accepts@[i] + if i < k && pair_attempted(
                        round,
                        n as int,
                        i,
                    ) && acc[i] {
                        1int
                    } else {
                        0
                    },
                self.stats.decisions@ == was.stats.decisions@ + logged(&was, acc, k as int),
            decreases n - k,
        {
            let ghost here = *self;
            let ghost shorter = acc;
            if k < n - 1 && (k % 2) as u64 == round % 2 {
                assert(pair_attempted(round, n as int, k as int));
                proof {
                    assert(!pair_attempted(round, n as int, k - 1));
                    assert(self.live@[k as int] == was.live@[k as int]);
                    assert(self.live@[k + 1] == was.live@[k + 1]);
                    assert(self.ratio(k as int) == was.ratio(k as int));
                }
                let yes = self.attempt(m, k, accept);
                proof {
                    acc = acc.push(yes);
                    lemma_round_prefix(&was, shorter, acc, k as int);
                    assert forall|i: int| 0 <= i < n implies #[trigger] self.live@[i] == exchanged(
                        was.live@,
                        acc,
                        round,
                        k + 1,
                        i,
                    ) by {
                        assert(here.live@[i] == exchanged(was.live@, shorter, round, k as int, i));
                    }
                    if yes {
                        lemma_swap_rearranges(here.live@, k as int, k + 1);
                    }
                    assert(self.stats.decisions@ =~= was.stats.decisions@ + logged(&was, acc, k + 1));
                }
            } else {
                proof {
                    assert(!pair_attempted(round, n as int, k as int));
                    acc = acc.push(false);
                    lemma_round_prefix(&was, shorter, acc, k as int);
                    assert forall|i: int| 0 <= i < n implies #[trigger] self.live@[i] == exchanged(
                        was.live@,
                        acc,
                        round,
                        k + 1,
                        i,
                    ) by {
                        assert(here.live@[i] == exchanged(was.live@, shorter, round, k as int, i));
                    }
                }
            }
            k += 1;
        }
        self.round = round + 1;
        proof {
            assert(was.judged(*accept, acc));
        }
    }
}

proof fn lemma_round_prefix<T: Scalar>(t: &Tempering<T>, a: Seq<bool>, b: Seq<bool>, k: int)
    requires
        0 <= k <= a.len() <= b.len(),
        forall|i: int| 0 <= i < a.len() ==> a[i] == b[i],
    ensures
        accepts_before(a, t.round, t.rungs(), k) == accepts_before(b, t.round, t.rungs(), k),
        logged(t, a, k) == logged(t, b, k),
    decreases k,
{
    if k > 0 {
        lemma_round_prefix(t, a, b, k - 1);
    }
}

proof fn lemma_swap_rearranges<A>(l: Seq<A>, i: int, j: int)
    requires
        0 <= i < j < l.len(),
    ensures
        l.update(i, l[j]).update(j, l[i]).to_multiset() == l.to_multiset(),
{
    broadcast use vstd::multiset::group_multiset_axioms;

    let a = l.update(i, l[j]);
    vstd::seq_lib::to_multiset_update(l, i, l[j]);
    vstd::seq_lib::to_multiset_update(a, j, l[i]);
    l.to_multiset_ensures();
    assert(l.contains(l[i]) && l.contains(l[j]));
    assert(a.update(j, l[i]).to_multiset() =~= l.to_multiset());
}

proof fn lemma_merged_grows<T: Scalar>(t: &Tempering<T>, a: int, b: int)
    requires
        a <= b,
    ensures
        t.merged_upto(a).0 <= t.merged_upto(b).0,
        t.merged_upto(a).1 <= t.merged_upto(b).1,
        t.merged_upto(a).2 <= t.merged_upto(b).2,
    decreases b - a,
{
    if a < b {
        lemma_merged_grows(t, a, b - 1);
        if b <= 0 {
            assert(t.merged_upto(b) == (0int, 0int, 0int));
        }
    }
}

} // verus!
