//! Leaky integrate-and-fire (LIF) neuron.
//!
//! The membrane obeys a first-order linear equation, which integrates exactly
//! over a step of constant input:
//!
//! ```text
//!     v(t+dt) = v_inf + (v(t) - v_inf) . exp(-dt/tau)
//! ```
//!
//! When `v` reaches `v_th` the neuron emits a spike and is clamped to `v_reset`
//! for an absolute refractory period (no integration, inputs ignored).

use crate::scalar::Scalar;
use vstd::prelude::*;

verus! {

/// A neuron prepared for one step size and one constant input.
#[derive(Debug, Clone, Copy)]
pub struct Lif<T> {
    /// Per-step decay factor of the exact integrator.
    pub decay: T,
    /// Steady-state potential.
    pub v_inf: T,
    /// Reset potential after a spike.
    pub v_reset: T,
    /// Firing threshold.
    pub v_th: T,
    /// Refractory period in whole steps.
    pub ref_steps: u32,
}

impl<T: Scalar> Lif<T> {
    /// Membrane after one step of free integration.
    pub open spec fn relaxed(&self, v: T) -> T {
        self.v_inf.sum(v.difference(self.v_inf).product(self.decay))
    }

    /// Free membrane after `k` steps from `v0`.
    pub open spec fn trajectory(&self, v0: T, k: nat) -> T
        decreases k,
    {
        if k == 0 {
            v0
        } else {
            self.relaxed(self.trajectory(v0, (k - 1) as nat))
        }
    }

    /// One step of free integration.
    pub fn relax(&self, v: T) -> (r: T)
        ensures
            r == self.relaxed(v),
    {
        self.v_inf.plus(v.minus(self.v_inf).times(self.decay))
    }
}

/// Free (no-threshold) membrane trajectory, sampled after each of `n_steps`
/// steps.
pub fn membrane_trace<T: Scalar>(p: &Lif<T>, n_steps: usize, v0: T) -> (out: Vec<T>)
    ensures
        out@.len() == n_steps,
        forall|k: int| 0 <= k < n_steps ==> out@[k] == p.trajectory(v0, (k + 1) as nat),
{
    let mut v = v0;
    let mut out: Vec<T> = Vec::new();
    let mut k: usize = 0;
    while k < n_steps
        invariant
            k <= n_steps,
            out@.len() == k,
            v == p.trajectory(v0, k as nat),
            forall|m: int| 0 <= m < k ==> out@[m] == p.trajectory(v0, (m + 1) as nat),
        decreases n_steps - k,
    {
        v = p.relax(v);
        out.push(v);
        k += 1;
    }
    out
}

/// A single neuron between two steps.
pub struct Cell<T> {
    /// Membrane potential.
    pub v: T,
    /// Refractory steps left.
    pub refr: u32,
}

impl<T: Scalar> Lif<T> {
    /// The neuron before the first step.
    pub open spec fn fresh(&self) -> Cell<T> {
        Cell { v: self.v_reset, refr: 0 }
    }

    /// Whether the neuron fires in the step that begins at `c`.
    pub open spec fn fires(&self, c: Cell<T>) -> bool {
        c.refr == 0 && self.relaxed(c.v).at_least(self.v_th)
    }

    /// The neuron after the step that begins at `c`.
    pub open spec fn stepped(&self, c: Cell<T>) -> Cell<T> {
        if c.refr > 0 {
            Cell { v: self.v_reset, refr: (c.refr - 1) as u32 }
        } else if self.fires(c) {
            Cell { v: self.v_reset, refr: self.ref_steps }
        } else {
            Cell { v: self.relaxed(c.v), refr: 0 }
        }
    }

    /// The neuron after `t` steps.
    pub open spec fn cell_at(&self, t: nat) -> Cell<T>
        decreases t,
    {
        if t == 0 {
            self.fresh()
        } else {
            self.stepped(self.cell_at((t - 1) as nat))
        }
    }
}

/// `spikes` are exactly the steps below `n_steps` at which the neuron fires, in
/// order, each more than a refractory period after the one before.
pub open spec fn is_train<T: Scalar>(p: &Lif<T>, n_steps: usize, spikes: Seq<usize>) -> bool {
    &&& forall|k: int|
        0 <= k < spikes.len() ==> (#[trigger] spikes[k]) < n_steps && p.fires(
            p.cell_at(spikes[k] as nat),
        )
    &&& forall|t: usize|
        t < n_steps && #[trigger] p.fires(p.cell_at(t as nat)) ==> spikes.contains(t)
    &&& forall|i: int, j: int| 0 <= i < j < spikes.len() ==> spikes[i] + p.ref_steps < spikes[j]
}

/// Clock-driven single-neuron simulation under constant current: the steps at
/// which spikes occur, in order.
pub fn simulate_single<T: Scalar>(p: &Lif<T>, n_steps: usize) -> (spikes: Vec<usize>)
    ensures
        is_train(p, n_steps, spikes@),
{
    let mut v = p.v_reset;
    let mut refr: u32 = 0;
    let mut spikes: Vec<usize> = Vec::new();
    let mut t: usize = 0;
    while t < n_steps
        invariant
            t <= n_steps,
            p.cell_at(t as nat) == (Cell { v, refr }),
            forall|k: int|
                0 <= k < spikes@.len() ==> (#[trigger] spikes@[k]) < t && p.fires(
                    p.cell_at(spikes@[k] as nat),
                ),
            forall|s: usize|
                s < t && #[trigger] p.fires(p.cell_at(s as nat)) ==> spikes@.contains(s),
            forall|i: int, j: int|
                0 <= i < j < spikes@.len() ==> spikes@[i] + p.ref_steps < spikes@[j],
            forall|k: int|
                0 <= k < spikes@.len() ==> (#[trigger] spikes@[k]) + 1 + p.ref_steps <= t + refr,
        decreases n_steps - t,
    {
        let ghost c = p.cell_at(t as nat);
        let ghost before = spikes@;
        assert(p.cell_at((t + 1) as nat) == p.stepped(c));
        if refr > 0 {
            refr -= 1;
            v = p.v_reset;
        } else {
            v = p.relax(v);
            if v.reaches(p.v_th) {
                spikes.push(t);
                v = p.v_reset;
                refr = p.ref_steps;
                proof {
                    assert(spikes@[before.len() as int] == t);
                    assert forall|s: usize| before.contains(s) implies spikes@.contains(s) by {
                        let k = choose|k: int| 0 <= k < before.len() && before[k] == s;
                        assert(spikes@[k] == s);
                    }
                }
            }
        }
        t += 1;
    }
    spikes
}

/// Last inter-spike interval in steps; `None` if fewer than two spikes occur.
pub fn last_interval(spikes: &Vec<usize>) -> (r: Option<usize>)
    requires
        spikes@.len() >= 2 ==> spikes@[spikes@.len() - 2] <= spikes@[spikes@.len() - 1],
    ensures
        r is Some <==> spikes@.len() >= 2,
        r is Some ==> r->0 == spikes@[spikes@.len() - 1] - spikes@[spikes@.len() - 2],
{
    let n: usize = spikes.len();
    if n < 2 {
        None
    } else {
        Some(spikes[n - 1] - spikes[n - 2])
    }
}

/// Parameters of a neuron, in any consistent units.
#[derive(Debug, Clone, Copy)]
pub struct NeuronParams<T> {
    /// Membrane time constant.
    pub tau: T,
    /// Resting potential.
    pub v_rest: T,
    /// Reset potential after a spike.
    pub v_reset: T,
    /// Firing threshold.
    pub v_th: T,
    /// Absolute refractory period.
    pub t_ref: T,
    /// Membrane resistance.
    pub r: T,
}

/// The functions that neurons are prepared with.
pub struct Tuning<E, R> {
    /// Exponential.
    pub exp: E,
    /// Nearest whole number of steps.
    pub round: R,
}

impl<E, R> Tuning<E, R> {
    /// The functions take any sample.
    pub open spec fn ready<T: Scalar>(&self) -> bool where E: Fn(T) -> T, R: Fn(T) -> u32 {
        &&& forall|x: T| #[trigger] call_requires(self.exp, (x,))
        &&& forall|x: T| #[trigger] call_requires(self.round, (x,))
    }
}

impl<T: Scalar> NeuronParams<T> {
    /// Per-step decay factor: the exponential of -dt over the time constant.
    pub fn decay<E: Fn(T) -> T>(&self, dt: T, exp: &E) -> (r: T)
        requires
            forall|x: T| #[trigger] call_requires(exp, (x,)),
        ensures
            call_ensures(exp, (dt.negative().quotient(self.tau),), r),
    {
        exp(dt.opposite().over(self.tau))
    }

    /// Steady-state potential of a constant current.
    pub open spec fn steady(&self, i_ext: T) -> T {
        self.v_rest.sum(self.r.product(i_ext))
    }

    /// Steady-state potential of a constant current.
    pub fn v_inf(&self, i_ext: T) -> (r: T)
        ensures
            r == self.steady(i_ext),
    {
        self.v_rest.plus(self.r.times(i_ext))
    }

    /// Refractory period in whole steps.
    pub fn ref_steps<R: Fn(T) -> u32>(&self, dt: T, round: &R) -> (r: u32)
        requires
            forall|x: T| #[trigger] call_requires(round, (x,)),
        ensures
            call_ensures(round, (self.t_ref.quotient(dt),), r),
    {
        round(self.t_ref.over(dt))
    }

    /// `p` is the neuron prepared for steps of `dt` and a constant current.
    pub open spec fn is_prepared<E: Fn(T) -> T, R: Fn(T) -> u32>(
        &self,
        dt: T,
        i_ext: T,
        tuning: &Tuning<E, R>,
        p: Lif<T>,
    ) -> bool {
        &&& call_ensures(tuning.exp, (dt.negative().quotient(self.tau),), p.decay)
        &&& p.v_inf == self.steady(i_ext)
        &&& p.v_reset == self.v_reset
        &&& p.v_th == self.v_th
        &&& call_ensures(tuning.round, (self.t_ref.quotient(dt),), p.ref_steps)
    }

    /// Prepares the neuron for steps of `dt` and a constant current.
    pub fn prepare<E: Fn(T) -> T, R: Fn(T) -> u32>(
        &self,
        dt: T,
        i_ext: T,
        tuning: &Tuning<E, R>,
    ) -> (p: Lif<T>)
        requires
            tuning.ready::<T>(),
        ensures
            self.is_prepared(dt, i_ext, tuning, p),
    {
        Lif {
            decay: self.decay(dt, &tuning.exp),
            v_inf: self.v_inf(i_ext),
            v_reset: self.v_reset,
            v_th: self.v_th,
            ref_steps: self.ref_steps(dt, &tuning.round),
        }
    }

    /// `t` is the time from reset to threshold: the time constant times the
    /// logarithm of (reset - steady) / (threshold - steady). Nothing where the
    /// steady potential does not exceed the threshold.
    pub open spec fn is_period<L: Fn(T) -> T>(&self, i_ext: T, ln: L, t: Option<T>) -> bool {
        let v = self.steady(i_ext);
        if self.v_th.at_least(v) {
            t is None
        } else {
            exists|l: T|
                #[trigger] call_ensures(
                    ln,
                    (self.v_reset.difference(v).quotient(self.v_th.difference(v)),),
                    l,
                ) && t == Some(self.tau.product(l))
        }
    }

    /// Interval between spikes under a constant current, without the
    /// refractory period.
    pub fn analytic_period<L: Fn(T) -> T>(&self, i_ext: T, ln: &L) -> (t: Option<T>)
        requires
            forall|x: T| #[trigger] call_requires(ln, (x,)),
        ensures
            self.is_period(i_ext, *ln, t),
    {
        let v = self.v_inf(i_ext);
        if self.v_th.reaches(v) {
            return None;
        }
        let l = ln(self.v_reset.minus(v).over(self.v_th.minus(v)));
        assert(call_ensures(
            *ln,
            (self.v_reset.difference(v).quotient(self.v_th.difference(v)),),
            l,
        ));
        Some(self.tau.times(l))
    }

    /// `f` is one over interval plus refractory period; nothing where there is
    /// no interval.
    pub open spec fn is_rate<L: Fn(T) -> T>(&self, i_ext: T, ln: L, f: Option<T>) -> bool {
        exists|t: Option<T>|
            #[trigger] self.is_period(i_ext, ln, t) && f == (match t {
                Some(p) => Some(T::of_count(1).quotient(p.sum(self.t_ref))),
                None => None,
            })
    }

    /// Firing rate under a constant current: one over interval plus refractory
    /// period.
    pub fn analytic_rate<L: Fn(T) -> T>(&self, i_ext: T, ln: &L) -> (f: Option<T>)
        requires
            forall|x: T| #[trigger] call_requires(ln, (x,)),
        ensures
            self.is_rate(i_ext, *ln, f),
    {
        let t = self.analytic_period(i_ext, ln);
        assert(self.is_period(i_ext, *ln, t));
        match t {
            Some(p) => Some(T::from_count(1).over(p.plus(self.t_ref))),
            None => None,
        }
    }
}

/// One over the last interval of a spike train; zero with fewer than two
/// spikes.
pub open spec fn rate_of_train<T: Scalar>(s: Seq<usize>, dt: T) -> T {
    if s.len() < 2 {
        T::zero_value()
    } else {
        T::of_count(1).quotient(
            T::of_count((s[s.len() - 1] - s[s.len() - 2]) as u64).product(dt),
        )
    }
}

/// Firing rate of a single neuron from its last interval; none with fewer than
/// two spikes.
pub fn measured_rate<T: Scalar>(p: &Lif<T>, dt: T, n_steps: usize) -> (r: T)
    ensures
        exists|s: Seq<usize>| #[trigger] is_train(p, n_steps, s) && r == rate_of_train(s, dt),
{
    let spikes = simulate_single(p, n_steps);
    assert(is_train(p, n_steps, spikes@));
    match last_interval(&spikes) {
        Some(steps) => T::from_count(1).over(T::from_count(steps as u64).times(dt)),
        None => T::zero(),
    }
}

/// Product of the first `k` uniform draws.
pub open spec fn draw_product<T: Scalar>(draws: Seq<T>, k: int) -> T
    decreases k,
{
    if k <= 0 {
        T::of_count(1)
    } else {
        draw_product(draws, k - 1).product(draws[k - 1])
    }
}

/// Poisson count by multiplying uniform draws until their product is at most
/// `limit`, the exponential of minus the mean: the number of draws before the
/// one that does it. Nothing where the draws do not get there.
pub fn poisson<T: Scalar>(limit: T, draws: &Vec<T>) -> (r: Option<u64>)
    ensures
        match r {
            Some(k) => {
                &&& k < draws@.len()
                &&& limit.at_least(draw_product(draws@, k + 1))
                &&& forall|i: int|
                    0 < i <= k ==> !limit.at_least(#[trigger] draw_product(draws@, i))
            },
            None => forall|i: int|
                0 < i <= draws@.len() ==> !limit.at_least(#[trigger] draw_product(draws@, i)),
        },
{
    let n: usize = draws.len();
    let mut p = T::from_count(1);
    let mut k: usize = 0;
    while k < n
        invariant
            n == draws@.len(),
            k <= n,
            p == draw_product(draws@, k as int),
            forall|i: int| 0 < i <= k ==> !limit.at_least(#[trigger] draw_product(draws@, i)),
        decreases n - k,
    {
        p = p.times(draws[k]);
        if limit.reaches(p) {
            return Some(k as u64);
        }
        k += 1;
    }
    None
}

} // verus!
