//! Jobs of the stochastic column: a Max-Cut instance, annealed or tempered,
//! and what is reported of it.

use crate::progress::{heard, Listener};
use crate::scalar::Scalar;
use crate::sorting::Keyed;
use crate::sorting::{key_le, ordered, stably_sorted};
use crate::sparse::{Csr, Entry};
use crate::stochastic::anneal::{anneal, anneals, outcome_of};
use crate::stochastic::chain::{lone_ticks, Annealing, SpinTick, TracePoint};
use crate::stochastic::exchange::{fresh, parallel_temper, reported, tempers};
use crate::stochastic::exchange::{Leg, TemperOutcome};
use crate::stochastic::exec::StochasticExecutor;
use crate::stochastic::gibbs::{classes_fit, greedy, greedy_coloring, GibbsSampler, SpinLedger};
use crate::stochastic::graphs::{fan, fans, pairing, Edge, Graph};
use crate::stochastic::ising::{both_ways, IsingModel};
use crate::stochastic::maxcut::{spins, weight_of, ProblemSpec};
use crate::stochastic::reduction::couplings;
use crate::stochastic::schedule::{Schedule, TemperingSpec};
use crate::stochastic::tempering::SwapStats;
use vstd::prelude::*;

verus! {

/// A job: the instance, the schedule, and, for replica exchange, the ladder.
/// With a ladder, `schedule.sweeps` is the budget of each replica.
pub struct StochasticJob<T> {
    pub problem: ProblemSpec,
    pub schedule: Schedule<T>,
    pub seed: u64,
    pub tempering: Option<TemperingSpec<T>>,
}

/// A whole number as a sample.
pub open spec fn whole<T: Scalar>(v: int) -> T {
    if v < 0 {
        T::of_count((-v) as u64).negative()
    } else {
        T::of_count(v as u64)
    }
}

fn whole_sample<T: Scalar>(v: i128) -> (r: T)
    requires
        -0xffff_ffff_ffff_ffff <= v <= 0xffff_ffff_ffff_ffff,
    ensures
        r == whole::<T>(v as int),
{
    if v < 0 {
        T::from_count((-v) as u64).opposite()
    } else {
        T::from_count(v as u64)
    }
}

/// `b` is the model `a` with every number as a sample.
pub open spec fn lifted<T: Scalar>(a: &IsingModel<i64>, b: &IsingModel<T>) -> bool {
    &&& b.n == a.n
    &&& b.h@ == a.h@.map_values(|v: i64| whole::<T>(v as int))
    &&& b.j.n == a.j.n
    &&& b.j.indptr@ == a.j.indptr@
    &&& b.j.entries@ == a.j.entries@.map_values(
        |x: Entry<i64>| Entry { row: x.row, col: x.col, value: whole::<T>(x.value as int) },
    )
}

/// A model of whole numbers as a model of samples.
pub fn lift<T: Scalar>(m: &IsingModel<i64>) -> (r: IsingModel<T>)
    requires
        m.wf(),
    ensures
        r.wf(),
        lifted(m, &r),
{
    let mut h: Vec<T> = Vec::new();
    let mut i: usize = 0;
    while i < m.n
        invariant
            m.wf(),
            i <= m.n,
            h@.len() == i,
            forall|k: int| 0 <= k < i ==> #[trigger] h@[k] == whole::<T>(m.h@[k] as int),
        decreases m.n - i,
    {
        h.push(whole_sample(m.h[i] as i128));
        i += 1;
    }
    let n: usize = m.j.entries.len();
    let mut entries: Vec<Entry<T>> = Vec::new();
    let mut e: usize = 0;
    while e < n
        invariant
            n == m.j.entries@.len(),
            e <= n,
            entries@.len() == e,
            forall|k: int|
                0 <= k < e ==> #[trigger] entries@[k] == (Entry {
                    row: m.j.entries@[k].row,
                    col: m.j.entries@[k].col,
                    value: whole::<T>(m.j.entries@[k].value as int),
                }),
        decreases n - e,
    {
        let x = m.j.entries[e];
        entries.push(Entry { row: x.row, col: x.col, value: whole_sample(x.value as i128) });
        e += 1;
    }
    let indptr = copy_places(&m.j.indptr);
    let r = IsingModel { n: m.n, h, j: Csr { n: m.j.n, indptr, entries } };
    proof {
        let (a, b) = (m.j.entries@, r.j.entries@);
        assert(r.h@ =~= m.h@.map_values(|v: i64| whole::<T>(v as int)));
        assert(b =~= a.map_values(
            |x: Entry<i64>| Entry { row: x.row, col: x.col, value: whole::<T>(x.value as int) },
        ));
        assert forall|k: int| 0 <= k < b.len() implies (#[trigger] b[k]).row < m.n && b[k].col
            < m.n by {
            assert(a[k].row < m.n);
        }
        assert(ordered(b)) by {
            assert forall|x: int, y: int|
                #![trigger b[x], b[y]]
                0 <= x <= y < b.len() implies key_le(b[x].key(), b[y].key()) by {
                assert(key_le(a[x].key(), a[y].key()));
            }
        }
        assert forall|i: int, k: int|
            #![trigger b[k], r.j.indptr@[i]]
            0 <= i <= m.n && 0 <= k < b.len() implies (b[k].key().0 < i <==> k
            < r.j.indptr@[i]) by {
            assert(a[k].key().0 < i <==> k < m.j.indptr@[i]);
        }
    }
    r
}

fn copy_places(v: &Vec<usize>) -> (r: Vec<usize>)
    ensures
        r@ == v@,
{
    let n: usize = v.len();
    let mut r: Vec<usize> = Vec::new();
    let mut i: usize = 0;
    while i < n
        invariant
            n == v@.len(),
            i <= n,
            r@ == v@.take(i as int),
        decreases n - i,
    {
        r.push(v[i]);
        assert(r@ =~= v@.take(i + 1));
        i += 1;
    }
    assert(r@ =~= v@);
    r
}

/// `s` is the first state that `first` gives rung `r`.
pub open spec fn drawn<S: Fn(usize, usize) -> bool>(
    first: S,
    r: usize,
    n: int,
    s: Seq<i8>,
) -> bool {
    &&& s.len() == n
    &&& forall|i: int|
        0 <= i < n ==> (#[trigger] s[i] == 1 && call_ensures(first, (r, i as usize), true)) || (s[i]
            == -1 && call_ensures(first, (r, i as usize), false))
}

fn draw<S: Fn(usize, usize) -> bool>(first: &S, r: usize, n: usize) -> (s: Vec<i8>)
    requires
        forall|r: usize, i: usize| #[trigger] call_requires(first, (r, i)),
    ensures
        drawn(*first, r, n as int, s@),
        spins(s@, n as int),
{
    let mut s: Vec<i8> = Vec::new();
    let mut i: usize = 0;
    while i < n
        invariant
            i <= n,
            forall|r: usize, i: usize| #[trigger] call_requires(first, (r, i)),
            drawn(*first, r, i as int, s@),
        decreases n - i,
    {
        let b = first(r, i);
        if b {
            s.push(1);
        } else {
            s.push(-1);
        }
        i += 1;
    }
    s
}

/// A trace point by cuts.
#[derive(Debug, Clone, Copy)]
pub struct CutPoint<T> {
    pub sweep: u64,
    pub cut: T,
    pub best_cut: T,
}

/// Half of what `total` exceeds an energy by.
pub open spec fn cut_at<T: Scalar>(total: T, energy: T) -> T {
    total.difference(energy).quotient(T::of_count(2))
}

/// What replica exchange adds to a report.
pub struct ExchangeReport<T> {
    pub replica_count: usize,
    pub replica_betas: Vec<T>,
    pub swap_attempts: u64,
    pub swap_accepts: u64,
    pub swap_acceptance_overall: T,
    pub per_pair_acceptance: Vec<T>,
}

/// What is reported of a job.
pub struct StochasticReport<T> {
    pub best_cut: T,
    pub total_weight: T,
    pub best_energy: T,
    pub n_nodes: usize,
    pub n_edges: usize,
    pub known_optimum: Option<u64>,
    pub trace: Vec<CutPoint<T>>,
    /// What was told of the run.
    pub ticks: Vec<SpinTick<T>>,
    pub exchange: Option<ExchangeReport<T>>,
    pub ledger: SpinLedger,
}

/// The trace by cuts.
pub open spec fn cuts<T: Scalar>(trace: Seq<TracePoint<T>>, total: T) -> Seq<CutPoint<T>> {
    trace.map_values(
        |p: TracePoint<T>|
            CutPoint {
                sweep: p.sweep,
                cut: cut_at(total, p.energy),
                best_cut: cut_at(total, p.best_energy),
            },
    )
}

fn cut_trace<T: Scalar>(trace: &Vec<TracePoint<T>>, total: T) -> (r: Vec<CutPoint<T>>)
    ensures
        r@ == cuts(trace@, total),
{
    let n: usize = trace.len();
    let two = T::from_count(2);
    let mut r: Vec<CutPoint<T>> = Vec::new();
    let mut i: usize = 0;
    while i < n
        invariant
            n == trace@.len(),
            i <= n,
            two == T::of_count(2),
            r@ == cuts(trace@, total).take(i as int),
        decreases n - i,
    {
        let p = trace[i];
        r.push(
            CutPoint {
                sweep: p.sweep,
                cut: total.minus(p.energy).over(two),
                best_cut: total.minus(p.best_energy).over(two),
            },
        );
        assert(r@ =~= cuts(trace@, total).take(i + 1));
        i += 1;
    }
    assert(r@ =~= cuts(trace@, total));
    r
}

fn tick_list<T: Scalar>(trace: &Vec<TracePoint<T>>) -> (r: Vec<SpinTick<T>>)
    ensures
        r@ == lone_ticks(trace@),
{
    let mut r: Vec<SpinTick<T>> = Vec::new();
    let mut i: usize = 0;
    while i < trace.len()
        invariant
            i <= trace@.len(),
            r@ == lone_ticks(trace@).take(i as int),
        decreases trace@.len() - i,
    {
        r.push(SpinTick { point: trace[i], attempts: 0, accepts: 0 });
        assert(r@ =~= lone_ticks(trace@).take(i + 1));
        i += 1;
    }
    assert(r@ =~= lone_ticks(trace@));
    r
}

/// What is the same in both kinds of report.
pub open spec fn reports<T: Scalar>(
    job: &StochasticJob<T>,
    graph: &Graph,
    best_energy: T,
    trace: Seq<TracePoint<T>>,
    ledger: SpinLedger,
    r: &StochasticReport<T>,
) -> bool {
    let total = whole::<T>(weight_of(graph.edges@));
    &&& r.total_weight == total
    &&& r.best_energy == best_energy
    &&& r.best_cut == cut_at(total, best_energy)
    &&& r.n_nodes == graph.n
    &&& r.n_edges == graph.edges@.len()
    &&& r.known_optimum == (if job.problem is RandomRegular {
        None
    } else {
        Some(job.problem.optimum() as u64)
    })
    &&& r.trace@ == cuts(trace, total)
    &&& r.ledger == ledger
}

/// What replica exchange adds, from its statistics.
pub open spec fn exchanges<T: Scalar>(
    stats: &SwapStats<T>,
    betas: Seq<T>,
    x: &ExchangeReport<T>,
) -> bool {
    &&& x.replica_count == betas.len()
    &&& x.replica_betas@ == betas
    &&& x.swap_attempts == stats.attempts
    &&& x.swap_accepts == stats.accepts
    &&& x.swap_acceptance_overall == SwapStats::<T>::share(stats.accepts, stats.attempts)
    &&& x.per_pair_acceptance@ == Seq::new(
        stats.per_pair_attempts@.len(),
        |k: int|
            SwapStats::<T>::share(stats.per_pair_accepts@[k], stats.per_pair_attempts@[k]),
    )
}

/// The model and the sampler that a job's graph leads to.
pub open spec fn posed<T: Scalar>(
    graph: &Graph,
    whole_model: IsingModel<i64>,
    m: &IsingModel<T>,
    g: &GibbsSampler,
    colors: Seq<u32>,
    n_colors: u32,
) -> bool {
    &&& whole_model.n == graph.n
    &&& whole_model.h@ == Seq::new(graph.n as nat, |i: int| 0i64)
    &&& stably_sorted(
        both_ways(couplings(graph.edges@), graph.edges@.len() as int),
        whole_model.j.entries@,
    )
    &&& lifted(&whole_model, m)
    &&& m.wf()
    &&& colors.len() == m.n
    &&& greedy(m, colors, m.n as int)
    &&& forall|i: int| 0 <= i < colors.len() ==> #[trigger] colors[i] < n_colors
    &&& g.groups(colors, n_colors)
}

/// The functions that a run takes its chances from, and powers.
pub struct Chances<P, S, U, F, A> {
    /// Raises to a power.
    pub pow: P,
    /// Whether a spin starts up, by rung and spin.
    pub first: S,
    /// Whether a spin points up, by sweep, inverse temperature, update and
    /// local field, in annealing.
    pub anneal: U,
    /// The same by rung, its inverse temperature, sweep, update and local
    /// field, in replica exchange.
    pub temper: F,
    /// Whether a pair is exchanged, by round, pair and log ratio.
    pub accept: A,
}

impl<P, S, U, F, A> Chances<P, S, U, F, A> {
    /// The functions take anything.
    pub open spec fn ready<T: Scalar>(&self) -> bool where
        P: Fn(T, T) -> T,
        S: Fn(usize, usize) -> bool,
        U: Fn(u64, T, usize, T) -> bool,
        F: Fn(usize, T, u64, usize, T) -> bool + Sync + Send,
        A: Fn(u64, usize, T) -> bool,
     {
        &&& forall|x: T, y: T| #[trigger] call_requires(self.pow, (x, y))
        &&& forall|r: usize, i: usize| #[trigger] call_requires(self.first, (r, i))
        &&& forall|w: u64, b: T, k: usize, l: T|
            #[trigger] call_requires(self.anneal, (w, b, k, l))
        &&& forall|r: usize, b: T, w: u64, k: usize, l: T|
            call_requires(self.temper, (r, b, w, k, l))
        &&& forall|r: u64, k: usize, x: T| call_requires(self.accept, (r, k, x))
    }
}

/// An annealing job is reported from a run of its schedule.
pub open spec fn annealed_job<T: Scalar, P, S, U, F, A>(
    job: &StochasticJob<T>,
    chances: &Chances<P, S, U, F, A>,
    graph: &Graph,
    m: &IsingModel<T>,
    g: &GibbsSampler,
    trace_every: u64,
    state: Seq<i8>,
    runs: Seq<Annealing<T>>,
    r: &StochasticReport<T>,
) -> bool where
    P: Fn(T, T) -> T,
    S: Fn(usize, usize) -> bool,
    U: Fn(u64, T, usize, T) -> bool,
    F: Fn(usize, T, u64, usize, T) -> bool + Sync + Send,
    A: Fn(u64, usize, T) -> bool,
 {
    let end = runs.last();
    &&& drawn(chances.first, 0, m.n as int, state)
    &&& anneals(g, m, &job.schedule, chances.pow, chances.anneal, state, trace_every, runs)
    &&& reports(job, graph, end.record.best_energy, end.trace@, end.record.ledger, r)
    &&& r.ticks@ == lone_ticks(end.trace@)
    &&& r.exchange is None
}

/// A replica-exchange job is reported from a run of its ladder.
pub open spec fn tempered_job<T: Scalar, P, S, U, F, A>(
    job: &StochasticJob<T>,
    chances: &Chances<P, S, U, F, A>,
    graph: &Graph,
    m: &IsingModel<T>,
    g: &GibbsSampler,
    trace_every: u64,
    states: Seq<Vec<i8>>,
    legs: Seq<Leg<T>>,
    out: TemperOutcome<T>,
    r: &StochasticReport<T>,
) -> bool where
    P: Fn(T, T) -> T,
    S: Fn(usize, usize) -> bool,
    U: Fn(u64, T, usize, T) -> bool,
    F: Fn(usize, T, u64, usize, T) -> bool + Sync + Send,
    A: Fn(u64, usize, T) -> bool,
 {
    &&& states.len() == job.tempering->0.replicas
    &&& forall|k: int|
        0 <= k < states.len() ==> drawn(
            chances.first,
            k as usize,
            m.n as int,
            (#[trigger] states[k])@,
        )
    &&& tempers(g, m, chances.temper, chances.accept, legs)
    &&& fresh(
        m,
        &job.tempering->0,
        chances.pow,
        states,
        job.schedule.sweeps,
        trace_every,
        &legs[0],
    )
    &&& reported(&legs.last(), &out)
    &&& reports(job, graph, out.best_energy, out.trace@, out.ledger, r)
    &&& r.ticks@ == out.ticks@
    &&& r.exchange is Some
    &&& exchanges(&out.stats, out.betas@, &r.exchange->0)
}

fn draw_all<S: Fn(usize, usize) -> bool>(first: &S, rungs: usize, n: usize) -> (r: Vec<Vec<i8>>)
    requires
        forall|r: usize, i: usize| #[trigger] call_requires(first, (r, i)),
    ensures
        r@.len() == rungs,
        forall|k: int|
            0 <= k < rungs ==> drawn(*first, k as usize, n as int, (#[trigger] r@[k])@),
        forall|k: int| 0 <= k < rungs ==> spins((#[trigger] r@[k])@, n as int),
{
    let mut r: Vec<Vec<i8>> = Vec::new();
    let mut k: usize = 0;
    while k < rungs
        invariant
            k <= rungs,
            r@.len() == k,
            forall|r: usize, i: usize| #[trigger] call_requires(first, (r, i)),
            forall|i: int|
                0 <= i < k ==> drawn(*first, i as usize, n as int, (#[trigger] r@[i])@),
            forall|i: int| 0 <= i < k ==> spins((#[trigger] r@[i])@, n as int),
        decreases rungs - k,
    {
        r.push(draw(first, k, n));
        k += 1;
    }
    r
}

fn report_of<T: Scalar>(
    job: &StochasticJob<T>,
    graph: &Graph,
    total_weight: i128,
    best_energy: T,
    trace: &Vec<TracePoint<T>>,
    ticks: Vec<SpinTick<T>>,
    ledger: SpinLedger,
    exchange: Option<ExchangeReport<T>>,
) -> (r: StochasticReport<T>)
    requires
        job.problem.valid(),
        total_weight == weight_of(graph.edges@),
        -0xffff_ffff_ffff_ffff <= total_weight <= 0xffff_ffff_ffff_ffff,
    ensures
        reports(job, graph, best_energy, trace@, ledger, &r),
        r.exchange == exchange,
        r.ticks == ticks,
{
    let total: T = whole_sample(total_weight);
    StochasticReport {
        best_cut: total.minus(best_energy).over(T::from_count(2)),
        total_weight: total,
        best_energy,
        n_nodes: graph.n,
        n_edges: graph.edges.len(),
        known_optimum: job.problem.known_optimum(),
        trace: cut_trace(trace, total),
        ticks,
        exchange,
        ledger,
    }
}

/// Why a job is refused.
#[derive(Debug, Clone, Copy, PartialEq, Eq, Structural)]
pub enum StochasticFault {
    TooManyVertices,
    TooManyEdges,
    /// A regular graph with an odd number of edge ends.
    OddEnds,
    /// A regular graph with as many neighbours as vertices.
    DegreeTooLarge,
    /// A cycle through one vertex.
    SelfCoupling,
    NoReplica,
    /// The ladder's ends are not in order above zero.
    LadderEnds,
    /// More spin updates than a ledger counts.
    TooManyUpdates,
    /// More sweeps than a ledger counts.
    TooManySweeps,
}

impl StochasticFault {
    /// The line that reports the fault.
    pub open spec fn line(self) -> Seq<char> {
        match self {
            StochasticFault::TooManyVertices => "too many vertices"@,
            StochasticFault::TooManyEdges => "too many edges"@,
            StochasticFault::OddEnds => "n*d must be even"@,
            StochasticFault::DegreeTooLarge => "degree must be less than n"@,
            StochasticFault::SelfCoupling => "self-coupling not allowed"@,
            StochasticFault::NoReplica => "tempering needs at least one replica"@,
            StochasticFault::LadderEnds => "ladder requires 0 < beta_min ≤ beta_max"@,
            StochasticFault::TooManyUpdates => "too many spin updates"@,
            StochasticFault::TooManySweeps => "too many sweeps"@,
        }
    }

    /// The line that reports the fault.
    pub fn message(&self) -> (r: &'static str)
        ensures
            r@ == self.line(),
    {
        match self {
            StochasticFault::TooManyVertices => "too many vertices",
            StochasticFault::TooManyEdges => "too many edges",
            StochasticFault::OddEnds => "n*d must be even",
            StochasticFault::DegreeTooLarge => "degree must be less than n",
            StochasticFault::SelfCoupling => "self-coupling not allowed",
            StochasticFault::NoReplica => "tempering needs at least one replica",
            StochasticFault::LadderEnds => "ladder requires 0 < beta_min ≤ beta_max",
            StochasticFault::TooManyUpdates => "too many spin updates",
            StochasticFault::TooManySweeps => "too many sweeps",
        }
    }
}

fn product(a: u64, b: u64) -> (r: u128)
    ensures
        r == a * b,
{
    assert(a * b <= u64::MAX * u64::MAX) by (nonlinear_arith)
        requires
            0 <= a <= u64::MAX,
            0 <= b <= u64::MAX,
    ;
    a as u128 * b as u128
}

impl ProblemSpec {
    /// Why an instance cannot be laid out, by the first reason that applies.
    pub open spec fn fault(&self) -> Option<StochasticFault> {
        let most = u32::MAX as int;
        match *self {
            ProblemSpec::CompleteBipartite { a, b } if a * b > usize::MAX => {
                Some(StochasticFault::TooManyEdges)
            },
            ProblemSpec::RandomRegular { n, degree, .. } if n * degree > usize::MAX => {
                Some(StochasticFault::TooManyEdges)
            },
            ProblemSpec::RandomRegular { n, degree, .. } if (n * degree) % 2 != 0 => {
                Some(StochasticFault::OddEnds)
            },
            ProblemSpec::RandomRegular { n, degree, .. } if degree >= n => {
                Some(StochasticFault::DegreeTooLarge)
            },
            _ => if self.vertices() >= most {
                Some(StochasticFault::TooManyVertices)
            } else if *self == (ProblemSpec::Cycle { n: 1 }) {
                Some(StochasticFault::SelfCoupling)
            } else {
                None
            },
        }
    }

    /// Vertices of an instance, or why it cannot be laid out.
    pub fn check(&self) -> (r: Result<usize, StochasticFault>)
        ensures
            match r {
                Ok(n) => self.fault() is None && n == self.vertices(),
                Err(e) => self.fault() == Some(e),
            },
    {
        let n: u128 = match *self {
            ProblemSpec::Complete { n } => n as u128,
            ProblemSpec::Cycle { n } => n as u128,
            ProblemSpec::CompleteBipartite { a, b } => {
                if product(a as u64, b as u64) > usize::MAX as u128 {
                    return Err(StochasticFault::TooManyEdges);
                }
                a as u128 + b as u128
            },
            ProblemSpec::Petersen => 10,
            ProblemSpec::RandomRegular { n, degree, .. } => {
                let ends: u128 = product(n as u64, degree as u64);
                if ends > usize::MAX as u128 {
                    return Err(StochasticFault::TooManyEdges);
                }
                if ends % 2 != 0 {
                    return Err(StochasticFault::OddEnds);
                }
                if degree >= n {
                    return Err(StochasticFault::DegreeTooLarge);
                }
                n as u128
            },
        };
        if n >= u32::MAX as u128 {
            return Err(StochasticFault::TooManyVertices);
        }
        match *self {
            ProblemSpec::Cycle { n } if n == 1 => Err(StochasticFault::SelfCoupling),
            _ => Ok(n as usize),
        }
    }
}

impl<T: Scalar> StochasticJob<T> {
    /// Why a job is refused, by the first reason that applies.
    pub open spec fn fault(&self) -> Option<StochasticFault> {
        let (n, sweeps) = (self.problem.vertices(), self.schedule.sweeps);
        if self.problem.fault() is Some {
            self.problem.fault()
        } else if sweeps * n > u64::MAX {
            Some(StochasticFault::TooManyUpdates)
        } else {
            match self.tempering {
                None => None,
                Some(t) => if t.replicas < 1 {
                    Some(StochasticFault::NoReplica)
                } else if !t.valid() {
                    Some(StochasticFault::LadderEnds)
                } else if t.replicas * (sweeps * n) > u64::MAX {
                    Some(StochasticFault::TooManyUpdates)
                } else if t.replicas * sweeps > u64::MAX {
                    Some(StochasticFault::TooManySweeps)
                } else {
                    None
                },
            }
        }
    }

    /// An executor runs the job.
    pub open spec fn valid(&self) -> bool {
        self.fault() is None
    }

    /// Whether an executor runs the job, or why not.
    pub fn check(&self) -> (r: Result<(), StochasticFault>)
        ensures
            match r {
                Ok(_) => self.valid(),
                Err(e) => self.fault() == Some(e),
            },
    {
        let n: usize = match self.problem.check() {
            Ok(n) => n,
            Err(e) => {
                return Err(e);
            },
        };
        let sweeps: u64 = self.schedule.sweeps;
        let updates: u128 = product(sweeps, n as u64);
        if updates > u64::MAX as u128 {
            return Err(StochasticFault::TooManyUpdates);
        }
        if let Some(t) = &self.tempering {
            if t.replicas < 1 {
                return Err(StochasticFault::NoReplica);
            }
            if !(T::zero().below(t.beta_min) && t.beta_max.reaches(t.beta_min)) {
                return Err(StochasticFault::LadderEnds);
            }
            if product(t.replicas as u64, updates as u64) > u64::MAX as u128 {
                return Err(StochasticFault::TooManyUpdates);
            }
            if product(t.replicas as u64, sweeps) > u64::MAX as u128 {
                return Err(StochasticFault::TooManySweeps);
            }
        }
        Ok(())
    }
}

impl StochasticExecutor {
    /// The report of a job, given the graph that its instance led to.
    pub open spec fn executed<T: Scalar, P, S, U, F, A>(
        &self,
        job: &StochasticJob<T>,
        chances: &Chances<P, S, U, F, A>,
        graph: &Graph,
        r: &StochasticReport<T>,
    ) -> bool where
        P: Fn(T, T) -> T,
        S: Fn(usize, usize) -> bool,
        U: Fn(u64, T, usize, T) -> bool,
        F: Fn(usize, T, u64, usize, T) -> bool + Sync + Send,
        A: Fn(u64, usize, T) -> bool,
     {
        exists|m: IsingModel<T>, g: GibbsSampler|
            #[trigger] is_posed(graph, &m, &g) && runs_job(
                job,
                chances,
                graph,
                &m,
                &g,
                self.every(job.schedule.sweeps),
                r,
            )
    }

    /// Runs a job: builds the instance and its model, anneals or tempers it,
    /// and reports cuts. Nothing where no attempt at a random graph is simple.
    /// `listener` hears of every trace point.
    pub fn execute<T: Scalar, P, S, U, F, A, L>(
        &self,
        job: &StochasticJob<T>,
        attempts: &Vec<Vec<usize>>,
        chances: &Chances<P, S, U, F, A>,
        listener: &mut L,
    ) -> (r: Option<StochasticReport<T>>) where
        P: Fn(T, T) -> T,
        S: Fn(usize, usize) -> bool,
        U: Fn(u64, T, usize, T) -> bool,
        F: Fn(usize, T, u64, usize, T) -> bool + Sync + Send,
        A: Fn(u64, usize, T) -> bool,
        L: Listener<SpinTick<T>>,

        requires
            job.valid(),
            job.problem.attempts_fit(attempts@),
            chances.ready::<T>(),
        ensures
            match r {
                Some(rep) => {
                    &&& exists|graph: Graph|
                        #[trigger] job.problem.builds(attempts@, Some(graph)) && self.executed(
                            job,
                            chances,
                            &graph,
                            &rep,
                        )
                    &&& heard(*old(listener), rep.ticks@, *final(listener))
                },
                None => job.problem.builds(attempts@, None) && *final(listener) == *old(
                    listener,
                ),
            },
    {
        let prepared = match self.prepare(&job.problem, attempts) {
            Some(p) => p,
            None => {
                return None;
            },
        };
        let m: IsingModel<T> = lift(&prepared.model);
        let (colors, n_colors) = greedy_coloring(&m);
        let g = GibbsSampler::new(&colors, n_colors);
        proof {
            assert(posed(&prepared.graph, prepared.model, &m, &g, colors@, n_colors));
            assert(is_posed(&prepared.graph, &m, &g));
            classes_fit(colors@, n_colors as int);
            let (len, n, sweeps) = (
                g.class_members@.len() as int,
                m.n as int,
                job.schedule.sweeps as int,
            );
            assert(sweeps * len <= sweeps * n) by (nonlinear_arith)
                requires
                    0 <= len <= n,
                    sweeps >= 0,
            ;
            if job.tempering is Some {
                let k = job.tempering->0.replicas as int;
                let (a, b) = (sweeps * len, sweeps * n);
                assert(k * a <= k * b) by (nonlinear_arith)
                    requires
                        a <= b,
                        k >= 0,
                ;
            }
            lemma_instance_weight(job.problem, attempts@, prepared.graph);
        }
        let edges: usize = prepared.graph.edges.len();
        let every: u64 = self.trace_every(job.schedule.sweeps);
        match &job.tempering {
            Some(spec) => {
                let states = draw_all(&chances.first, spec.replicas, m.n);
                let out = parallel_temper(
                    &g,
                    &m,
                    spec,
                    &chances.pow,
                    &states,
                    job.schedule.sweeps,
                    every,
                    &chances.temper,
                    &chances.accept,
                    listener,
                );
                let ghost legs = choose|legs: Seq<Leg<T>>|
                    #[trigger] tempers(&g, &m, chances.temper, chances.accept, legs) && fresh(
                        &m,
                        spec,
                        chances.pow,
                        states@,
                        job.schedule.sweeps,
                        every,
                        &legs[0],
                    ) && reported(&legs.last(), &out);
                let x = ExchangeReport {
                    replica_count: out.betas.len(),
                    replica_betas: copy_samples(&out.betas),
                    swap_attempts: out.stats.attempts,
                    swap_accepts: out.stats.accepts,
                    swap_acceptance_overall: out.stats.acceptance_overall(),
                    per_pair_acceptance: out.stats.per_pair_acceptance(),
                };
                let rep = report_of(
                    job,
                    &prepared.graph,
                    prepared.total_weight,
                    out.best_energy,
                    &out.trace,
                    out.ticks,
                    out.ledger,
                    Some(x),
                );
                proof {
                    assert(tempered_job(
                        job,
                        chances,
                        &prepared.graph,
                        &m,
                        &g,
                        every,
                        states@,
                        legs,
                        out,
                        &rep,
                    ));
                    assert(runs_job(job, chances, &prepared.graph, &m, &g, every, &rep));
                    assert(self.executed(job, chances, &prepared.graph, &rep));
                }
                Some(rep)
            },
            None => {
                let state = draw(&chances.first, 0, m.n);
                let ghost first = state@;
                let out = anneal(
                    &g,
                    &m,
                    &job.schedule,
                    &chances.pow,
                    state,
                    every,
                    &chances.anneal,
                    listener,
                );
                let ghost runs = choose|runs: Seq<Annealing<T>>|
                    #[trigger] anneals(
                        &g,
                        &m,
                        &job.schedule,
                        chances.pow,
                        chances.anneal,
                        first,
                        every,
                        runs,
                    ) && outcome_of(&runs.last(), &out);
                let rep = report_of(
                    job,
                    &prepared.graph,
                    prepared.total_weight,
                    out.best_energy,
                    &out.trace,
                    tick_list(&out.trace),
                    out.ledger,
                    None,
                );
                proof {
                    assert(annealed_job(
                        job,
                        chances,
                        &prepared.graph,
                        &m,
                        &g,
                        every,
                        first,
                        runs,
                        &rep,
                    ));
                    assert(runs_job(job, chances, &prepared.graph, &m, &g, every, &rep));
                    assert(self.executed(job, chances, &prepared.graph, &rep));
                }
                Some(rep)
            },
        }
    }
}

/// `m` and `g` are the model and the sampler of a graph.
pub open spec fn is_posed<T: Scalar>(graph: &Graph, m: &IsingModel<T>, g: &GibbsSampler) -> bool {
    exists|a: IsingModel<i64>, colors: Seq<u32>, n_colors: u32|
        #[trigger] posed(graph, a, m, g, colors, n_colors)
}

/// A job is reported from a run: of its ladder where it has one, else of its
/// schedule.
pub open spec fn runs_job<T: Scalar, P, S, U, F, A>(
    job: &StochasticJob<T>,
    chances: &Chances<P, S, U, F, A>,
    graph: &Graph,
    m: &IsingModel<T>,
    g: &GibbsSampler,
    every: u64,
    r: &StochasticReport<T>,
) -> bool where
    P: Fn(T, T) -> T,
    S: Fn(usize, usize) -> bool,
    U: Fn(u64, T, usize, T) -> bool,
    F: Fn(usize, T, u64, usize, T) -> bool + Sync + Send,
    A: Fn(u64, usize, T) -> bool,
 {
    if job.tempering is Some {
        exists|states: Seq<Vec<i8>>, legs: Seq<Leg<T>>, out: TemperOutcome<T>|
            #[trigger] tempered_job(job, chances, graph, m, g, every, states, legs, out, r)
    } else {
        exists|state: Seq<i8>, runs: Seq<Annealing<T>>|
            #[trigger] annealed_job(job, chances, graph, m, g, every, state, runs, r)
    }
}

fn copy_samples<T: Scalar>(v: &Vec<T>) -> (r: Vec<T>)
    ensures
        r@ == v@,
{
    let n: usize = v.len();
    let mut r: Vec<T> = Vec::new();
    let mut i: usize = 0;
    while i < n
        invariant
            n == v@.len(),
            i <= n,
            r@ == v@.take(i as int),
        decreases n - i,
    {
        r.push(v[i]);
        assert(r@ =~= v@.take(i + 1));
        i += 1;
    }
    assert(r@ =~= v@);
    r
}

/// Unit edges weigh their number.
proof fn lemma_unit_weight(edges: Seq<Edge>)
    requires
        forall|e: int| 0 <= e < edges.len() ==> (#[trigger] edges[e]).2 == 1,
    ensures
        weight_of(edges) == edges.len(),
    decreases edges.len(),
{
    if edges.len() > 0 {
        let t = edges.drop_last();
        assert forall|e: int| 0 <= e < t.len() implies (#[trigger] t[e]).2 == 1 by {
            assert(edges[e].2 == 1);
        }
        lemma_unit_weight(t);
        assert(edges[edges.len() - 1].2 == 1);
    }
}

proof fn lemma_fan_units(i: int, j: int)
    ensures
        forall|e: int| 0 <= e < fan(i, j).len() ==> (#[trigger] fan(i, j)[e]).2 == 1,
    decreases j - i,
{
    if j > i + 1 {
        lemma_fan_units(i, j - 1);
        let t = fan(i, j - 1);
        assert forall|e: int| 0 <= e < fan(i, j).len() implies (#[trigger] fan(i, j)[e]).2 == 1 by {
            if e < t.len() {
                assert(t[e].2 == 1);
            }
        }
    }
}

proof fn lemma_fans_units(n: int, k: int)
    ensures
        forall|e: int| 0 <= e < fans(n, k).len() ==> (#[trigger] fans(n, k)[e]).2 == 1,
    decreases k,
{
    if k > 0 {
        lemma_fans_units(n, k - 1);
        lemma_fan_units(k - 1, n);
        let (a, b) = (fans(n, k - 1), fan(k - 1, n));
        assert forall|e: int| 0 <= e < fans(n, k).len() implies (#[trigger] fans(n, k)[e]).2 == 1 by {
            if e < a.len() {
                assert(a[e].2 == 1);
            } else {
                assert(b[e - a.len()].2 == 1);
            }
        }
    }
}

/// Every instance has unit weights, so it weighs as much as it has edges.
proof fn lemma_instance_weight(p: ProblemSpec, attempts: Seq<Vec<usize>>, g: Graph)
    requires
        p.builds(attempts, Some(g)),
    ensures
        weight_of(g.edges@) == g.edges@.len(),
{
    match p {
        ProblemSpec::Complete { n } => lemma_fans_units(n as int, n as int),
        _ => {},
    }
    assert forall|e: int| 0 <= e < g.edges@.len() implies (#[trigger] g.edges@[e]).2 == 1 by {
        match p {
            ProblemSpec::RandomRegular { n, degree, .. } => {
                let t = choose|t: int|
                    #![trigger attempts[t]]
                    0 <= t < attempts.len() && g.edges@ == pairing(
                        n as int,
                        degree as int,
                        attempts[t]@,
                    );
                assert(g.edges@[e] == pairing(n as int, degree as int, attempts[t]@)[e]);
            },
            _ => {
                assert(g.edges@[e] == p.closed_edges()[e]);
            },
        }
    }
    lemma_unit_weight(g.edges@);
}

} // verus!
