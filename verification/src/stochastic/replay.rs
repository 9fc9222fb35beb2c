//! Reproducible runs: what the deciding functions leave no choice about, a run
//! leaves none about either, whatever the number of threads.

use crate::scalar::Scalar;
use crate::stochastic::anneal::{anneals, anneals_at, decided, outcome_of, stepped};
use crate::stochastic::anneal::AnnealOutcome;
use crate::stochastic::chain::{moved, Annealing, Live, Record};
use crate::stochastic::exchange::{exchanged_to, fresh, leads, point, reported, stretched};
use crate::stochastic::exchange::{tempers, tempers_at, Leg, TemperOutcome};
use crate::stochastic::exec::Tick;
use crate::stochastic::gibbs::GibbsSampler;
use crate::stochastic::ising::IsingModel;
use crate::stochastic::schedule::{Schedule, TemperingSpec};
use crate::stochastic::tempering::{accepts_before, all_advanced, exchanged, logged};
use crate::stochastic::tempering::{pair_attempted, rung_advanced, rung_at, rung_decides};
use crate::stochastic::tempering::{rung_path, rung_sweeps, same_chain, Tempering};
use vstd::prelude::*;

verus! {

/// `up` never decides one question both ways.
pub open spec fn settled_up<T: Scalar, F: Fn(usize, T, u64, usize, T) -> bool>(up: F) -> bool {
    forall|r: usize, beta: T, w: u64, k: usize, l: T, a: bool, b: bool|
        #[trigger] call_ensures(up, (r, beta, w, k, l), a) && #[trigger] call_ensures(
            up,
            (r, beta, w, k, l),
            b,
        ) ==> a == b
}

/// `accept` never decides one question both ways.
pub open spec fn settled_accept<T: Scalar, A: Fn(u64, usize, T) -> bool>(accept: A) -> bool {
    forall|r: u64, k: usize, x: T, a: bool, b: bool|
        #[trigger] call_ensures(accept, (r, k, x), a) && #[trigger] call_ensures(
            accept,
            (r, k, x),
            b,
        ) ==> a == b
}

/// `pow` has one value at a point.
pub open spec fn settled_pow<T: Scalar, P: Fn(T, T) -> T>(pow: P) -> bool {
    forall|x: T, y: T, a: T, b: T|
        #[trigger] call_ensures(pow, (x, y), a) && #[trigger] call_ensures(pow, (x, y), b) ==> a
            == b
}

/// Two engines hold the same rungs, chains and statistics.
pub open spec fn same_engine<T: Scalar>(a: &Tempering<T>, b: &Tempering<T>) -> bool {
    &&& a.betas@ == b.betas@
    &&& a.round == b.round
    &&& a.live@.len() == a.rungs()
    &&& b.live@.len() == a.rungs()
    &&& a.records@.len() == a.rungs()
    &&& b.records@.len() == a.rungs()
    &&& a.rungs() <= usize::MAX
    &&& forall|k: int| 0 <= k < a.rungs() ==> #[trigger] same_rung(a, b, k)
    &&& a.stats.attempts == b.stats.attempts
    &&& a.stats.accepts == b.stats.accepts
    &&& a.stats.per_pair_attempts@ == b.stats.per_pair_attempts@
    &&& a.stats.per_pair_accepts@ == b.stats.per_pair_accepts@
    &&& a.stats.decisions@ == b.stats.decisions@
}

/// Rung `k` holds the same chain in two engines.
pub open spec fn same_rung<T: Scalar>(a: &Tempering<T>, b: &Tempering<T>, k: int) -> bool {
    same_chain((a.live@[k], a.records@[k]), &b.live@[k], &b.records@[k])
}

/// Two runs stand at the same point of their way.
pub open spec fn same_leg<T: Scalar>(a: &Leg<T>, b: &Leg<T>) -> bool {
    &&& a.clock == b.clock
    &&& same_engine(&a.pt, &b.pt)
    &&& a.trace@ == b.trace@
}

proof fn lemma_swept_alike(g: &GibbsSampler, s: Seq<i8>, a: Seq<bool>, b: Seq<bool>, k: int)
    requires
        forall|i: int| 0 <= i < k ==> a[i] == b[i],
    ensures
        g.swept(s, a, k) == g.swept(s, b, k),
    decreases k,
{
    if k > 0 {
        lemma_swept_alike(g, s, a, b, k - 1);
    }
}

proof fn lemma_decided_alike<T: Scalar, F: Fn(usize, T, u64, usize, T) -> bool>(
    g: &GibbsSampler,
    m: &IsingModel<T>,
    s: Seq<i8>,
    up: F,
    r: (usize, T),
    w: u64,
    a: Seq<bool>,
    b: Seq<bool>,
    k: int,
)
    requires
        settled_up::<T, F>(up),
        rung_decides(g, m, s, up, r, w, a),
        rung_decides(g, m, s, up, r, w, b),
        0 <= k <= a.len(),
    ensures
        forall|i: int| 0 <= i < k ==> a[i] == b[i],
    decreases k,
{
    if k > 0 {
        lemma_decided_alike(g, m, s, up, r, w, a, b, k - 1);
        lemma_swept_alike(g, s, a, b, k - 1);
        let l = m.field_of(g.swept(s, a, k - 1), g.class_members@[k - 1] as int);
        assert(call_ensures(up, (r.0, r.1, w, (k - 1) as usize, l), a[k - 1]));
        assert(call_ensures(up, (r.0, r.1, w, (k - 1) as usize, l), b[k - 1]));
    }
}

proof fn lemma_swept_to_same<T: Scalar, F: Fn(usize, T, u64, usize, T) -> bool>(
    g: &GibbsSampler,
    m: &IsingModel<T>,
    up: F,
    r: (usize, T),
    w: u64,
    a: (Live<T>, Record<T>),
    b: (Live<T>, Record<T>),
    c: (Live<T>, Record<T>),
    d: (Live<T>, Record<T>),
)
    requires
        settled_up::<T, F>(up),
        same_chain(a, &c.0, &c.1),
        rung_sweeps(g, m, up, r, w, a, b),
        rung_sweeps(g, m, up, r, w, c, d),
    ensures
        same_chain(b, &d.0, &d.1),
{
    let s = a.0.state@;
    let one = choose|dec: Seq<bool>|
        #[trigger] rung_decides(g, m, s, up, r, w, dec) && moved(g, m, dec, &a.0, &a.1, &b.0, &b.1);
    let two = choose|dec: Seq<bool>|
        #[trigger] rung_decides(g, m, s, up, r, w, dec) && moved(g, m, dec, &c.0, &c.1, &d.0, &d.1);
    lemma_decided_alike(g, m, s, up, r, w, one, two, one.len() as int);
    assert(one =~= two);
}

proof fn lemma_path_to_same<T: Scalar, F: Fn(usize, T, u64, usize, T) -> bool>(
    g: &GibbsSampler,
    m: &IsingModel<T>,
    up: F,
    r: (usize, T),
    from: u64,
    sweeps: u64,
    a: Seq<(Live<T>, Record<T>)>,
    b: Seq<(Live<T>, Record<T>)>,
    w: int,
)
    requires
        settled_up::<T, F>(up),
        rung_path(g, m, up, r, from, sweeps, a),
        rung_path(g, m, up, r, from, sweeps, b),
        same_chain(a[0], &b[0].0, &b[0].1),
        0 <= w <= sweeps,
    ensures
        same_chain(a[w], &b[w].0, &b[w].1),
    decreases w,
{
    if w > 0 {
        lemma_path_to_same(g, m, up, r, from, sweeps, a, b, w - 1);
        assert(rung_at(g, m, up, r, from, a, w - 1));
        assert(rung_at(g, m, up, r, from, b, w - 1));
        lemma_swept_to_same(
            g,
            m,
            up,
            r,
            (from + (w - 1)) as u64,
            a[w - 1],
            a[w],
            b[w - 1],
            b[w],
        );
    }
}

proof fn lemma_advance_to_same<T: Scalar, F: Fn(usize, T, u64, usize, T) -> bool>(
    g: &GibbsSampler,
    m: &IsingModel<T>,
    up: F,
    from: u64,
    sweeps: u64,
    a: &Tempering<T>,
    b: &Tempering<T>,
    c: &Tempering<T>,
    d: &Tempering<T>,
)
    requires
        settled_up::<T, F>(up),
        same_engine(a, c),
        all_advanced(g, m, up, from, sweeps, a, b),
        all_advanced(g, m, up, from, sweeps, c, d),
    ensures
        same_engine(b, d),
{
    assert forall|k: int| 0 <= k < b.rungs() implies #[trigger] same_rung(b, d, k) by {
        let r = a.rung(k);
        assert(same_rung(a, c, k) && c.rung(k) == r);
        let i = k as usize as int;
        let (x, y) = ((b.live@[i], b.records@[i]), (d.live@[i], d.records@[i]));
        assert(rung_advanced(g, m, up, r, from, sweeps, &a.live@[k], &a.records@[k], x));
        assert(rung_advanced(g, m, up, r, from, sweeps, &c.live@[k], &c.records@[k], y));
        let p = choose|path: Seq<(Live<T>, Record<T>)>|
            #[trigger] rung_path(g, m, up, r, from, sweeps, path) && same_chain(
                path[0],
                &a.live@[k],
                &a.records@[k],
            ) && path.last() == x;
        let q = choose|path: Seq<(Live<T>, Record<T>)>|
            #[trigger] rung_path(g, m, up, r, from, sweeps, path) && same_chain(
                path[0],
                &c.live@[k],
                &c.records@[k],
            ) && path.last() == y;
        lemma_path_to_same(g, m, up, r, from, sweeps, p, q, sweeps as int);
    }
}

proof fn lemma_logged_alike<T: Scalar>(
    a: &Tempering<T>,
    b: &Tempering<T>,
    x: Seq<bool>,
    y: Seq<bool>,
    k: int,
)
    requires
        same_engine(a, b),
        k <= a.rungs(),
        forall|i: int| #[trigger] pair_attempted(a.round, a.rungs(), i) ==> x[i] == y[i],
    ensures
        logged(a, x, k) == logged(b, y, k),
        accepts_before(x, a.round, a.rungs(), k) == accepts_before(y, b.round, b.rungs(), k),
    decreases k,
{
    if k > 0 {
        lemma_logged_alike(a, b, x, y, k - 1);
        if pair_attempted(a.round, a.rungs(), k - 1) {
            assert(same_rung(a, b, k - 1) && same_rung(a, b, k));
            assert(a.ratio(k - 1) == b.ratio(k - 1));
        }
    }
}

proof fn lemma_round_to_same<T: Scalar, A: Fn(u64, usize, T) -> bool>(
    accept: A,
    a: &Tempering<T>,
    b: &Tempering<T>,
    c: &Tempering<T>,
    d: &Tempering<T>,
)
    requires
        settled_accept::<T, A>(accept),
        same_engine(a, c),
        exchanged_to(accept, a, b),
        exchanged_to(accept, c, d),
    ensures
        same_engine(b, d),
{
    let n = a.rungs();
    let x = choose|acc: Seq<bool>| #[trigger] a.judged(accept, acc) && a.round_to(acc, b);
    let y = choose|acc: Seq<bool>| #[trigger] c.judged(accept, acc) && c.round_to(acc, d);
    assert forall|i: int| #[trigger] pair_attempted(a.round, n, i) implies x[i] == y[i] by {
        assert(same_rung(a, c, i) && same_rung(a, c, i + 1));
        assert(a.ratio(i) == c.ratio(i));
        assert(call_ensures(accept, (a.round, i as usize, a.ratio(i)), x[i]));
        assert(pair_attempted(c.round, c.rungs(), i));
        assert(call_ensures(accept, (a.round, i as usize, a.ratio(i)), y[i]));
    }
    lemma_logged_alike(a, c, x, y, n);
    assert forall|k: int| 0 <= k < n implies #[trigger] same_rung(b, d, k) by {
        assert(same_rung(a, c, k));
        if k > 0 {
            assert(same_rung(a, c, k - 1));
        }
        if k + 1 < n {
            assert(same_rung(a, c, k + 1));
        }
        assert(b.live@[k] == exchanged(a.live@, x, a.round, n, k));
        assert(d.live@[k] == exchanged(c.live@, y, c.round, n, k));
        assert(pair_attempted(a.round, n, k) ==> x[k] == y[k]);
        assert(pair_attempted(a.round, n, k - 1) ==> x[k - 1] == y[k - 1]);
    }
    assert forall|k: int| 0 <= k < n - 1 implies b.stats.per_pair_accepts@[k]
        == d.stats.per_pair_accepts@[k] by {
        assert(pair_attempted(a.round, n, k) ==> x[k] == y[k]);
    }
    assert(b.stats.per_pair_attempts@ =~= d.stats.per_pair_attempts@);
    assert(b.stats.per_pair_accepts@ =~= d.stats.per_pair_accepts@);
}

proof fn lemma_seen_alike<T: Scalar>(a: &Tempering<T>, b: &Tempering<T>, k: int)
    requires
        same_engine(a, b),
        1 <= k <= a.rungs(),
    ensures
        a.lowest_upto(k) == b.lowest_upto(k),
        a.best_upto(k) == b.best_upto(k),
        0 <= a.best_upto(k) < k,
        a.merged_upto(k) == b.merged_upto(k),
    decreases k,
{
    assert(same_rung(a, b, k - 1));
    if k > 1 {
        lemma_seen_alike(a, b, k - 1);
        assert(same_rung(a, b, a.best_upto(k - 1)));
    } else {
        assert(a.merged_upto(0) == b.merged_upto(0));
    }
}

proof fn lemma_stretch_to_same<
    T: Scalar,
    F: Fn(usize, T, u64, usize, T) -> bool,
    A: Fn(u64, usize, T) -> bool,
>(
    g: &GibbsSampler,
    m: &IsingModel<T>,
    up: F,
    accept: A,
    a: &Leg<T>,
    b: &Leg<T>,
    c: &Leg<T>,
    d: &Leg<T>,
)
    requires
        settled_up::<T, F>(up),
        settled_accept::<T, A>(accept),
        same_leg(a, c),
        a.pt.rungs() >= 1,
        leads(g, m, up, accept, a, b),
        leads(g, m, up, accept, c, d),
    ensures
        same_leg(b, d),
        b.pt.rungs() == a.pt.rungs(),
{
    let (t, x) = choose|tick: Tick, mid: Tempering<T>|
        #[trigger] stretched(g, m, up, accept, a, b, tick, mid);
    let (u, y) = choose|tick: Tick, mid: Tempering<T>|
        #[trigger] stretched(g, m, up, accept, c, d, tick, mid);
    assert(t == u);
    lemma_advance_to_same(g, m, up, a.clock.done, t.chunk, &a.pt, &x, &c.pt, &y);
    if t.swap {
        lemma_round_to_same(accept, &x, &b.pt, &y, &d.pt);
    }
    lemma_seen_alike(&b.pt, &d.pt, b.pt.rungs());
    assert(same_rung(&b.pt, &d.pt, b.pt.best_upto(b.pt.rungs())));
    assert(point(&b.pt, t.done) == point(&d.pt, t.done));
    assert(b.clock == d.clock);
}

proof fn lemma_way_alike<
    T: Scalar,
    F: Fn(usize, T, u64, usize, T) -> bool,
    A: Fn(u64, usize, T) -> bool,
>(
    g: &GibbsSampler,
    m: &IsingModel<T>,
    up: F,
    accept: A,
    a: Seq<Leg<T>>,
    b: Seq<Leg<T>>,
    k: int,
)
    requires
        settled_up::<T, F>(up),
        settled_accept::<T, A>(accept),
        tempers(g, m, up, accept, a),
        tempers(g, m, up, accept, b),
        same_leg(&a[0], &b[0]),
        a[0].pt.rungs() >= 1,
        0 <= k < a.len(),
        k < b.len(),
    ensures
        same_leg(&a[k], &b[k]),
        a[k].pt.rungs() == a[0].pt.rungs(),
    decreases k,
{
    if k > 0 {
        lemma_way_alike(g, m, up, accept, a, b, k - 1);
        assert(tempers_at(g, m, up, accept, a, k - 1));
        assert(tempers_at(g, m, up, accept, b, k - 1));
        lemma_stretch_to_same(g, m, up, accept, &a[k - 1], &a[k], &b[k - 1], &b[k]);
    }
}

proof fn lemma_no_longer<
    T: Scalar,
    F: Fn(usize, T, u64, usize, T) -> bool,
    A: Fn(u64, usize, T) -> bool,
>(
    g: &GibbsSampler,
    m: &IsingModel<T>,
    up: F,
    accept: A,
    a: Seq<Leg<T>>,
    b: Seq<Leg<T>>,
)
    requires
        settled_up::<T, F>(up),
        settled_accept::<T, A>(accept),
        tempers(g, m, up, accept, a),
        tempers(g, m, up, accept, b),
        same_leg(&a[0], &b[0]),
        a[0].pt.rungs() >= 1,
    ensures
        b.len() <= a.len(),
{
    if a.len() < b.len() {
        let k = a.len() - 1;
        lemma_way_alike(g, m, up, accept, a, b, k);
        assert(tempers_at(g, m, up, accept, b, k));
        let (u, y) = choose|tick: Tick, mid: Tempering<T>|
            #[trigger] stretched(g, m, up, accept, &b[k], &b[k + 1], tick, mid);
        assert(b[k].clock.ticks(&b[k + 1].clock, Some(u)));
    }
}

proof fn lemma_rungs_alike<T: Scalar, P: Fn(T, T) -> T>(
    spec: &TemperingSpec<T>,
    pow: P,
    a: Seq<T>,
    b: Seq<T>,
)
    requires
        settled_pow::<T, P>(pow),
        spec.are_betas(pow, a),
        spec.are_betas(pow, b),
    ensures
        a == b,
{
    assert forall|i: int| 0 <= i < a.len() implies a[i] == b[i] by {
        assert(spec.is_rung(i, pow, a[i]) && spec.is_rung(i, pow, b[i]));
    }
    assert(a =~= b);
}

/// Replica exchange is reproducible: two runs of one ladder from the same
/// states, with functions that leave nothing open, report the same, to the
/// last trace point and exchange decision. Nothing in the contract of a run
/// depends on threads, so neither does its outcome.
pub proof fn tempering_is_reproducible<
    T: Scalar,
    P: Fn(T, T) -> T,
    F: Fn(usize, T, u64, usize, T) -> bool,
    A: Fn(u64, usize, T) -> bool,
>(
    g: &GibbsSampler,
    m: &IsingModel<T>,
    spec: &TemperingSpec<T>,
    pow: P,
    states: Seq<Vec<i8>>,
    total: u64,
    trace_every: u64,
    up: F,
    accept: A,
    a: Seq<Leg<T>>,
    b: Seq<Leg<T>>,
    x: &TemperOutcome<T>,
    y: &TemperOutcome<T>,
)
    requires
        settled_pow::<T, P>(pow),
        settled_up::<T, F>(up),
        settled_accept::<T, A>(accept),
        tempers(g, m, up, accept, a),
        tempers(g, m, up, accept, b),
        fresh(m, spec, pow, states, total, trace_every, &a[0]),
        fresh(m, spec, pow, states, total, trace_every, &b[0]),
        reported(&a.last(), x),
        reported(&b.last(), y),
    ensures
        x.best_energy == y.best_energy,
        x.best_state@ == y.best_state@,
        x.trace@ == y.trace@,
        x.ledger == y.ledger,
        x.betas@ == y.betas@,
        x.stats.attempts == y.stats.attempts,
        x.stats.accepts == y.stats.accepts,
        x.stats.per_pair_attempts@ == y.stats.per_pair_attempts@,
        x.stats.per_pair_accepts@ == y.stats.per_pair_accepts@,
        x.stats.decisions@ == y.stats.decisions@,
{
    let (c, d) = (a[0].pt, b[0].pt);
    lemma_rungs_alike(spec, pow, c.betas@, d.betas@);
    assert(c.stats.per_pair_attempts@ =~= d.stats.per_pair_attempts@);
    assert(c.stats.per_pair_accepts@ =~= d.stats.per_pair_accepts@);
    assert(c.stats.decisions@ =~= d.stats.decisions@);
    assert(a[0].trace@ =~= b[0].trace@);
    assert forall|k: int| 0 <= k < c.rungs() implies #[trigger] same_rung(&c, &d, k) by {
        assert(c.live@[k].state@ == states[k]@ && d.live@[k].state@ == states[k]@);
        assert(c.records@[k].best_state@ == states[k]@ && d.records@[k].best_state@ == states[k]@);
    }
    assert(same_leg(&a[0], &b[0]));
    lemma_no_longer(g, m, up, accept, a, b);
    lemma_no_longer(g, m, up, accept, b, a);
    let k = a.len() - 1;
    lemma_way_alike(g, m, up, accept, a, b, k);
    let (e, f) = (a[k].pt, b[k].pt);
    lemma_seen_alike(&e, &f, e.rungs());
    assert(same_rung(&e, &f, e.best_upto(e.rungs())));
}

/// `up` never decides one question of an annealing run both ways.
pub open spec fn settled_anneal<T: Scalar, F: Fn(u64, T, usize, T) -> bool>(up: F) -> bool {
    forall|w: u64, beta: T, k: usize, l: T, a: bool, b: bool|
        #[trigger] call_ensures(up, (w, beta, k, l), a) && #[trigger] call_ensures(
            up,
            (w, beta, k, l),
            b,
        ) ==> a == b
}

/// Two annealing runs stand at the same point of their way.
pub open spec fn same_run<T: Scalar>(a: &Annealing<T>, b: &Annealing<T>) -> bool {
    &&& a.live.state@ == b.live.state@
    &&& a.live.energy == b.live.energy
    &&& a.record.best_state@ == b.record.best_state@
    &&& a.record.best_energy == b.record.best_energy
    &&& a.record.ledger == b.record.ledger
    &&& a.trace@ == b.trace@
    &&& a.done == b.done
    &&& a.sweeps == b.sweeps
    &&& a.trace_every == b.trace_every
}

proof fn lemma_annealed_alike<T: Scalar, F: Fn(u64, T, usize, T) -> bool>(
    g: &GibbsSampler,
    m: &IsingModel<T>,
    s: Seq<i8>,
    up: F,
    w: u64,
    beta: T,
    a: Seq<bool>,
    b: Seq<bool>,
    k: int,
)
    requires
        settled_anneal::<T, F>(up),
        decided(g, m, s, up, w, beta, a),
        decided(g, m, s, up, w, beta, b),
        0 <= k <= a.len(),
    ensures
        forall|i: int| 0 <= i < k ==> a[i] == b[i],
    decreases k,
{
    if k > 0 {
        lemma_annealed_alike(g, m, s, up, w, beta, a, b, k - 1);
        lemma_swept_alike(g, s, a, b, k - 1);
        let l = m.field_of(g.swept(s, a, k - 1), g.class_members@[k - 1] as int);
        assert(call_ensures(up, (w, beta, (k - 1) as usize, l), a[k - 1]));
        assert(call_ensures(up, (w, beta, (k - 1) as usize, l), b[k - 1]));
    }
}

proof fn lemma_annealed_to_same<
    T: Scalar,
    P: Fn(T, T) -> T,
    F: Fn(u64, T, usize, T) -> bool,
>(
    g: &GibbsSampler,
    m: &IsingModel<T>,
    schedule: &Schedule<T>,
    pow: P,
    up: F,
    state: Seq<i8>,
    trace_every: u64,
    a: Seq<Annealing<T>>,
    b: Seq<Annealing<T>>,
    w: int,
)
    requires
        settled_pow::<T, P>(pow),
        settled_anneal::<T, F>(up),
        anneals(g, m, schedule, pow, up, state, trace_every, a),
        anneals(g, m, schedule, pow, up, state, trace_every, b),
        0 <= w <= schedule.sweeps,
    ensures
        same_run(&a[w], &b[w]),
    decreases w,
{
    if w == 0 {
        assert(a[0].trace@ =~= b[0].trace@);
    } else {
        lemma_annealed_to_same(g, m, schedule, pow, up, state, trace_every, a, b, w - 1);
        let (c, d) = (a[w - 1], b[w - 1]);
        let s = c.live.state@;
        assert(anneals_at(g, m, schedule, pow, up, a, w - 1));
        assert(anneals_at(g, m, schedule, pow, up, b, w - 1));
        let (beta, one) = choose|beta: T, dec: Seq<bool>|
            #[trigger] decided(g, m, s, up, c.done, beta, dec) && schedule.is_beta(
                c.done,
                pow,
                beta,
            ) && stepped(g, m, &c, &a[w], dec);
        let (other, two) = choose|beta: T, dec: Seq<bool>|
            #[trigger] decided(g, m, s, up, c.done, beta, dec) && schedule.is_beta(
                c.done,
                pow,
                beta,
            ) && stepped(g, m, &d, &b[w], dec);
        assert(beta == other);
        lemma_annealed_alike(g, m, s, up, c.done, beta, one, two, one.len() as int);
        assert(one =~= two);
    }
}

/// Annealing is reproducible: two runs of one schedule from the same state,
/// with functions that leave nothing open, end in the same outcome.
pub proof fn annealing_is_reproducible<
    T: Scalar,
    P: Fn(T, T) -> T,
    F: Fn(u64, T, usize, T) -> bool,
>(
    g: &GibbsSampler,
    m: &IsingModel<T>,
    schedule: &Schedule<T>,
    pow: P,
    up: F,
    state: Seq<i8>,
    trace_every: u64,
    a: Seq<Annealing<T>>,
    b: Seq<Annealing<T>>,
    x: &AnnealOutcome<T>,
    y: &AnnealOutcome<T>,
)
    requires
        settled_pow::<T, P>(pow),
        settled_anneal::<T, F>(up),
        anneals(g, m, schedule, pow, up, state, trace_every, a),
        anneals(g, m, schedule, pow, up, state, trace_every, b),
        outcome_of(&a.last(), x),
        outcome_of(&b.last(), y),
    ensures
        x.best_energy == y.best_energy,
        x.best_state@ == y.best_state@,
        x.trace@ == y.trace@,
        x.ledger == y.ledger,
{
    let n = schedule.sweeps as int;
    lemma_annealed_to_same(g, m, schedule, pow, up, state, trace_every, a, b, n);
}

} // verus!
