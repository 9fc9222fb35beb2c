//! What the stochastic executor decides: the instance it solves, how often it
//! traces, when replicas exchange, and how energies read as cuts.

use crate::scalar::Scalar;
use crate::stochastic::chain::{Live, Record};
use crate::stochastic::gibbs::GibbsSampler;
use crate::stochastic::graphs::Graph;
use crate::stochastic::graphs::{fan, fans};
use crate::stochastic::ising::both_ways;
use crate::stochastic::ising::IsingModel;
use crate::stochastic::maxcut::weight_of;
use crate::stochastic::maxcut::{total_weight, ProblemSpec};
use crate::stochastic::reduction::couplings;
use crate::stochastic::reduction::to_ising;
use crate::stochastic::tempering::{all_advanced, rung_advanced, rung_at, rung_path, same_chain};
use crate::stochastic::tempering::Tempering;
use crate::sorting::stably_sorted;
use crate::text::same_text;
use vstd::prelude::*;

verus! {

/// Interpolation of the inverse temperature.
#[derive(Debug, Clone, Copy, PartialEq, Eq, Structural)]
pub enum Ladder {
    Geometric,
    Linear,
}

impl Default for Ladder {
    fn default() -> (r: Self)
        ensures
            r == Ladder::Geometric,
    {
        Ladder::Geometric
    }
}

/// Interpolation that a schedule uses where none is named.
pub fn default_kind() -> (r: String)
    ensures
        r@ == "geometric"@,
{
    "geometric".to_owned()
}

/// Interpolation of an annealing schedule: `linear` by name, geometric for any
/// other.
pub fn schedule_ladder(kind: &str) -> (r: Ladder)
    ensures
        r == (if kind@ == "linear"@ {
            Ladder::Linear
        } else {
            Ladder::Geometric
        }),
{
    if same_text(kind, "linear") {
        Ladder::Linear
    } else {
        Ladder::Geometric
    }
}

/// Replicas where none are asked for.
pub const DEFAULT_REPLICAS: usize = 8;

/// Sweeps between exchange rounds where none are asked for.
pub const DEFAULT_SWAP_INTERVAL: u64 = 10;

/// One stretch of a replica-exchange run.
#[derive(Debug, Clone, Copy, PartialEq, Eq, Structural)]
pub struct Tick {
    /// Sweeps to advance every replica by.
    pub chunk: u64,
    /// Sweeps done after that.
    pub done: u64,
    /// Whether an exchange round follows.
    pub swap: bool,
    /// Whether a trace point is taken.
    pub trace: bool,
}

/// Schedule of a replica-exchange run: chunks of `interval` sweeps, an exchange
/// round after each full chunk, trace points every `trace_every` sweeps and at
/// the end.
pub struct TemperClock {
    pub total: u64,
    pub interval: u64,
    pub trace_every: u64,
    pub done: u64,
    pub next_trace: u128,
}

/// The first of `next`, `next + every`, ... that is past `done`.
pub open spec fn next_after(next: int, every: int, done: int) -> int
    decreases
            if next <= done {
                done + 1 - next
            } else {
                0
            },
{
    if every >= 1 && next <= done {
        next_after(next + every, every, done)
    } else {
        next
    }
}

impl TemperClock {
    /// Between chunks an exchange round has just been due, until the end.
    pub open spec fn wf(&self) -> bool {
        &&& self.interval >= 1
        &&& self.trace_every >= 1
        &&& self.done <= self.total
        &&& self.done == self.total || self.done % self.interval == 0
        &&& self.next_trace <= self.done + self.trace_every
    }

    /// A run of `total` sweeps per replica; intervals of zero count as one.
    pub fn new(total: u64, swap_interval: u64, trace_every: u64) -> (r: Self)
        ensures
            r.wf(),
            r.total == total,
            r.interval == (if swap_interval >= 1 {
                swap_interval
            } else {
                1
            }),
            r.trace_every == (if trace_every >= 1 {
                trace_every
            } else {
                1
            }),
            r.done == 0,
            r.next_trace == r.trace_every,
    {
        let interval: u64 = if swap_interval >= 1 {
            swap_interval
        } else {
            1
        };
        let every: u64 = if trace_every >= 1 {
            trace_every
        } else {
            1
        };
        TemperClock { total, interval, trace_every: every, done: 0, next_trace: every as u128 }
    }

    /// What [`TemperClock::tick`] returns, and the clock after it.
    pub open spec fn ticks(&self, after: &Self, r: Option<Tick>) -> bool {
        &&& after.total == self.total
        &&& after.interval == self.interval
        &&& after.trace_every == self.trace_every
        &&& match r {
            None => self.done == self.total && *after == *self,
            Some(t) => {
                let left = self.total - self.done;
                &&& left > 0
                &&& t.chunk == (if self.interval < left {
                    self.interval as int
                } else {
                    left
                })
                &&& t.done == self.done + t.chunk
                &&& after.done == t.done
                &&& t.swap == (t.done % self.interval == 0)
                &&& t.trace == (t.done >= self.next_trace || t.done == self.total)
                &&& after.next_trace == (if t.trace {
                    next_after(self.next_trace as int, self.trace_every as int, t.done as int)
                } else {
                    self.next_trace as int
                })
            },
        }
    }

    /// The next stretch; `None` when all sweeps are done.
    pub fn tick(&mut self) -> (r: Option<Tick>)
        requires
            old(self).wf(),
        ensures
            final(self).wf(),
            old(self).ticks(final(self), r),
    {
        if self.done >= self.total {
            return None;
        }
        let left: u64 = self.total - self.done;
        let chunk: u64 = if self.interval < left {
            self.interval
        } else {
            left
        };
        let was: u64 = self.done;
        let done: u64 = was + chunk;
        proof {
            if chunk == self.interval {
                let (x, m) = (was as int, self.interval as int);
                vstd::arithmetic::div_mod::lemma_mod_add_multiples_vanish(x, m);
            }
        }
        self.done = done;
        let swap = done % self.interval == 0;
        let trace = done as u128 >= self.next_trace || done == self.total;
        if trace {
            let ghost first = self.next_trace as int;
            while self.next_trace <= done as u128
                invariant
                    self.trace_every >= 1,
                    self.done == done,
                    self.total == old(self).total,
                    self.interval == old(self).interval,
                    self.trace_every == old(self).trace_every,
                    self.next_trace <= done + self.trace_every,
                    next_after(self.next_trace as int, self.trace_every as int, done as int)
                        == next_after(first, self.trace_every as int, done as int),
                decreases
                        if self.next_trace <= done {
                            done + 1 - self.next_trace
                        } else {
                            0
                        },
            {
                self.next_trace = self.next_trace + self.trace_every as u128;
            }
        }
        Some(Tick { chunk, done, swap, trace })
    }
}

/// The stochastic-column executor.
pub struct StochasticExecutor;

/// A problem ready to be sampled.
pub struct Prepared {
    pub graph: Graph,
    pub model: IsingModel<i64>,
    pub total_weight: i128,
}

impl StochasticExecutor {
    /// What [`StochasticExecutor::trace_every`] returns.
    pub open spec fn every(&self, sweeps: u64) -> u64 {
        if sweeps / 200 > 1 {
            sweeps / 200
        } else {
            1
        }
    }

    /// Sweeps between trace points: about two hundred points to a run.
    pub fn trace_every(&self, sweeps: u64) -> (r: u64)
        ensures
            r == self.every(sweeps),
    {
        let r: u64 = sweeps / 200;
        if r > 1 {
            r
        } else {
            1
        }
    }

    /// Builds the graph of a problem, its Ising model and its total weight.
    /// `None` where the attempts at a random graph all fail.
    pub fn prepare(&self, problem: &ProblemSpec, attempts: &Vec<Vec<usize>>) -> (r: Option<
        Prepared,
    >)
        requires
            problem.valid(),
            problem.vertices() < usize::MAX,
            *problem != (ProblemSpec::Cycle { n: 1 }),
            problem.attempts_fit(attempts@),
        ensures
            problem.builds(
                attempts@,
                match r {
                    Some(p) => Some(p.graph),
                    None => None,
                },
            ),
            match r {
                Some(p) => {
                    &&& p.graph.wf()
                    &&& p.graph.n == problem.vertices()
                    &&& p.model.wf()
                    &&& p.model.n == p.graph.n
                    &&& p.model.h@ == Seq::new(p.graph.n as nat, |i: int| 0i64)
                    &&& stably_sorted(
                        both_ways(couplings(p.graph.edges@), p.graph.edges@.len() as int),
                        p.model.j.entries@,
                    )
                    &&& p.total_weight == weight_of(p.graph.edges@)
                },
                None => true,
            },
    {
        let graph = match problem.build(attempts) {
            Some(g) => g,
            None => {
                return None;
            },
        };
        proof {
            if !(problem is RandomRegular) {
                lemma_no_loops(*problem);
            }
        }
        let model = to_ising(&graph);
        let total = total_weight(&graph);
        Some(Prepared { graph, model, total_weight: total })
    }
}

proof fn lemma_fan_no_loops(i: int, j: int)
    requires
        0 <= i,
        j <= u32::MAX,
    ensures
        forall|e: int|
            0 <= e < fan(i, j).len() ==> (#[trigger] fan(i, j)[e]).0 != fan(i, j)[e].1,
    decreases j - i,
{
    if j > i + 1 {
        lemma_fan_no_loops(i, j - 1);
        let t = fan(i, j - 1);
        assert forall|e: int| 0 <= e < fan(i, j).len() implies (#[trigger] fan(i, j)[e]).0
            != fan(i, j)[e].1 by {
            if e < t.len() {
                assert(t[e].0 != t[e].1);
            }
        }
    }
}

proof fn lemma_fans_no_loops(n: int, k: int)
    requires
        n <= u32::MAX,
    ensures
        forall|e: int|
            0 <= e < fans(n, k).len() ==> (#[trigger] fans(n, k)[e]).0 != fans(n, k)[e].1,
    decreases k,
{
    if k > 0 {
        lemma_fans_no_loops(n, k - 1);
        lemma_fan_no_loops(k - 1, n);
        let (a, b) = (fans(n, k - 1), fan(k - 1, n));
        assert forall|e: int| 0 <= e < fans(n, k).len() implies (#[trigger] fans(n, k)[e]).0
            != fans(n, k)[e].1 by {
            if e < a.len() {
                assert(a[e].0 != a[e].1);
            } else {
                assert(b[e - a.len()].0 != b[e - a.len()].1);
            }
        }
    }
}

/// No closed-form instance but the one-vertex cycle joins a vertex to itself.
pub proof fn lemma_no_loops(p: ProblemSpec)
    requires
        p.valid(),
        !(p is RandomRegular),
        p != (ProblemSpec::Cycle { n: 1 }),
    ensures
        forall|e: int|
            0 <= e < p.closed_edges().len() ==> (#[trigger] p.closed_edges()[e]).0
                != p.closed_edges()[e].1,
{
    match p {
        ProblemSpec::Complete { n } => lemma_fans_no_loops(n as int, n as int),
        ProblemSpec::Cycle { n } => {
            assert forall|e: int| 0 <= e < p.closed_edges().len() implies (
            #[trigger] p.closed_edges()[e]).0 != p.closed_edges()[e].1 by {
                if e + 1 < n {
                    vstd::arithmetic::div_mod::lemma_small_mod((e + 1) as nat, n as nat);
                } else {
                    vstd::arithmetic::div_mod::lemma_mod_self_0(n as int);
                }
            }
        },
        ProblemSpec::CompleteBipartite { a, b } => {
            assert forall|e: int| 0 <= e < p.closed_edges().len() implies (
            #[trigger] p.closed_edges()[e]).0 != p.closed_edges()[e].1 by {
                let (x, y) = (a as int, b as int);
                assert(y >= 1) by (nonlinear_arith)
                    requires
                        0 <= e < x * y,
                        y >= 0,
                ;
                vstd::arithmetic::div_mod::lemma_fundamental_div_mod(e, y);
                let (q, r) = (e / y, e % y);
                assert(0 <= q < x) by (nonlinear_arith)
                    requires
                        e == y * q + r,
                        0 <= r < y,
                        0 <= e < x * y,
                        y >= 1,
                ;
            }
        },
        _ => {},
    }
}

proof fn lemma_path_sweeps<T: Scalar, F: Fn(usize, T, u64, usize, T) -> bool>(
    g: &GibbsSampler,
    m: &IsingModel<T>,
    up: F,
    r: (usize, T),
    from: u64,
    sweeps: u64,
    path: Seq<(Live<T>, Record<T>)>,
    w: int,
)
    requires
        rung_path(g, m, up, r, from, sweeps, path),
        0 <= w <= sweeps,
    ensures
        path[w].1.ledger.sweeps == path[0].1.ledger.sweeps + w,
    decreases w,
{
    if w > 0 {
        lemma_path_sweeps(g, m, up, r, from, sweeps, path, w - 1);
        assert(rung_at(g, m, up, r, from, path, w - 1));
    }
}

/// Every replica gets the whole budget: advancing `k` rungs by `sweeps` sweeps
/// adds `k . sweeps` to the merged count.
pub proof fn sweeps_add_up<T: Scalar, F: Fn(usize, T, u64, usize, T) -> bool>(
    g: &GibbsSampler,
    m: &IsingModel<T>,
    up: F,
    from: u64,
    sweeps: u64,
    before: &Tempering<T>,
    after: &Tempering<T>,
    k: int,
)
    requires
        before.wf(m),
        after.wf(m),
        before.rungs() == after.rungs(),
        before.rungs() <= usize::MAX,
        0 <= k <= before.rungs(),
        all_advanced(g, m, up, from, sweeps, before, after),
    ensures
        after.merged_upto(k).2 == before.merged_upto(k).2 + k * sweeps,
    decreases k,
{
    if k > 0 {
        sweeps_add_up(g, m, up, from, sweeps, before, after, k - 1);
        let i = (k - 1) as usize as int;
        let r = before.rung(i);
        let out = (after.live@[i], after.records@[i]);
        assert(rung_advanced(
            g,
            m,
            up,
            r,
            from,
            sweeps,
            &before.live@[i],
            &before.records@[i],
            out,
        ));
        let path = choose|path: Seq<(Live<T>, Record<T>)>|
            #[trigger] rung_path(g, m, up, r, from, sweeps, path) && same_chain(
                path[0],
                &before.live@[i],
                &before.records@[i],
            ) && path.last() == out;
        lemma_path_sweeps(g, m, up, r, from, sweeps, path, sweeps as int);
        assert(k * sweeps == (k - 1) * sweeps + sweeps) by (nonlinear_arith);
    } else {
        assert(0 * sweeps == 0);
    }
}

} // verus!
