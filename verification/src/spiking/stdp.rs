//! Pair-based spike-timing-dependent plasticity (STDP) by online traces.
//!
//! Each end of a synapse keeps an exponentially decaying trace that jumps by
//! one on a spike. A postsynaptic spike potentiates the weight by the
//! presynaptic trace, a presynaptic spike depresses it by the postsynaptic
//! trace; the weight stays between two bounds.

use crate::scalar::Scalar;
use vstd::prelude::*;

verus! {

/// Rule amplitudes, time constants and weight bounds.
#[derive(Debug, Clone, Copy)]
pub struct StdpConfig<T> {
    /// Potentiation amplitude.
    pub a_plus: T,
    /// Depression amplitude (positive; applied as a decrement).
    pub a_minus: T,
    /// Potentiation time constant.
    pub tau_plus: T,
    /// Depression time constant.
    pub tau_minus: T,
    /// Lower weight bound.
    pub w_min: T,
    /// Upper weight bound.
    pub w_max: T,
}

impl<T: Scalar> StdpConfig<T> {
    /// `r` is the weight change of an isolated pair of spikes, the
    /// postsynaptic one `dt` after the presynaptic one: potentiation that
    /// decays with the time constant where it is later, depression where it is
    /// earlier, and the full potentiation where both coincide.
    pub open spec fn is_window<E: Fn(T) -> T>(&self, dt: T, exp: E, r: T) -> bool {
        if T::zero_value().less_than(dt) {
            exists|f: T|
                #[trigger] call_ensures(exp, (dt.negative().quotient(self.tau_plus),), f) && r
                    == self.a_plus.product(f)
        } else if dt.less_than(T::zero_value()) {
            exists|f: T|
                #[trigger] call_ensures(exp, (dt.quotient(self.tau_minus),), f) && r
                    == self.a_minus.negative().product(f)
        } else {
            r == self.a_plus
        }
    }

    /// Weight change of an isolated pair of spikes.
    pub fn window<E: Fn(T) -> T>(&self, dt_post_minus_pre: T, exp: &E) -> (r: T)
        requires
            forall|x: T| #[trigger] call_requires(exp, (x,)),
        ensures
            self.is_window(dt_post_minus_pre, *exp, r),
    {
        let dt = dt_post_minus_pre;
        if T::zero().below(dt) {
            let f = exp(dt.opposite().over(self.tau_plus));
            assert(call_ensures(*exp, (dt.negative().quotient(self.tau_plus),), f));
            self.a_plus.times(f)
        } else if dt.below(T::zero()) {
            let f = exp(dt.over(self.tau_minus));
            assert(call_ensures(*exp, (dt.quotient(self.tau_minus),), f));
            self.a_minus.opposite().times(f)
        } else {
            self.a_plus
        }
    }

    /// The weight kept between the bounds.
    pub open spec fn clamped(&self, w: T) -> T {
        if w.less_than(self.w_min) {
            self.w_min
        } else if self.w_max.less_than(w) {
            self.w_max
        } else {
            w
        }
    }

    /// Keeps a weight between the bounds.
    pub fn clamp(&self, w: T) -> (r: T)
        ensures
            r == self.clamped(w),
    {
        if w.below(self.w_min) {
            self.w_min
        } else if self.w_max.below(w) {
            self.w_max
        } else {
            w
        }
    }
}

/// Online STDP state of one synapse.
#[derive(Debug, Clone, Copy)]
pub struct StdpState<T> {
    pub cfg: StdpConfig<T>,
    /// Presynaptic trace.
    pub x: T,
    /// Postsynaptic trace.
    pub y: T,
    /// Last time either trace was updated.
    pub t_last: T,
    /// Current weight.
    pub weight: T,
}

impl<T: Scalar> StdpState<T> {
    pub fn new(cfg: StdpConfig<T>, weight: T) -> (r: Self)
        ensures
            r == (StdpState {
                cfg,
                x: T::zero_value(),
                y: T::zero_value(),
                t_last: T::zero_value(),
                weight,
            }),
    {
        StdpState { cfg, x: T::zero(), y: T::zero(), t_last: T::zero(), weight }
    }

    /// Whether `after` is `self` with its traces carried forward to time `t`,
    /// each decayed by its time constant over the time that passed; a time
    /// that is not later changes nothing.
    pub open spec fn carried<E: Fn(T) -> T>(&self, t: T, exp: E, after: Self) -> bool {
        let dt = t.difference(self.t_last);
        if T::zero_value().less_than(dt) {
            exists|f: (T, T)|
                #[trigger] self.factors(dt, exp, f) && after == (StdpState {
                    x: self.x.product(f.0),
                    y: self.y.product(f.1),
                    t_last: t,
                    ..*self
                })
        } else {
            after == *self
        }
    }

    /// `f` are the factors by which the traces decay over `dt`.
    pub open spec fn factors<E: Fn(T) -> T>(&self, dt: T, exp: E, f: (T, T)) -> bool {
        &&& call_ensures(exp, (dt.negative().quotient(self.cfg.tau_plus),), f.0)
        &&& call_ensures(exp, (dt.negative().quotient(self.cfg.tau_minus),), f.1)
    }

    /// `self` after a presynaptic spike, traces already carried forward.
    pub open spec fn depressed(self) -> Self {
        StdpState {
            weight: self.cfg.clamped(
                self.weight.difference(self.cfg.a_minus.product(self.y)),
            ),
            x: self.x.sum(T::of_count(1)),
            ..self
        }
    }

    /// `self` after a postsynaptic spike, traces already carried forward.
    pub open spec fn potentiated(self) -> Self {
        StdpState {
            weight: self.cfg.clamped(self.weight.sum(self.cfg.a_plus.product(self.x))),
            y: self.y.sum(T::of_count(1)),
            ..self
        }
    }

    /// Decays both traces forward to time `t`.
    fn advance<E: Fn(T) -> T>(&mut self, t: T, exp: &E)
        requires
            forall|x: T| #[trigger] call_requires(exp, (x,)),
        ensures
            old(self).carried(t, *exp, *final(self)),
    {
        let dt = t.minus(self.t_last);
        if T::zero().below(dt) {
            let fx = exp(dt.opposite().over(self.cfg.tau_plus));
            let fy = exp(dt.opposite().over(self.cfg.tau_minus));
            self.x = self.x.times(fx);
            self.y = self.y.times(fy);
            self.t_last = t;
            assert(old(self).factors(dt, *exp, (fx, fy)));
        }
    }

    /// Presynaptic spike at time `t`: depress by the postsynaptic trace, then
    /// bump the presynaptic one.
    pub fn on_pre<E: Fn(T) -> T>(&mut self, t: T, exp: &E)
        requires
            forall|x: T| #[trigger] call_requires(exp, (x,)),
        ensures
            exists|mid: Self|
                #[trigger] old(self).carried(t, *exp, mid) && *final(self) == mid.depressed(),
    {
        self.advance(t, exp);
        let ghost mid = *self;
        self.weight = self.cfg.clamp(self.weight.minus(self.cfg.a_minus.times(self.y)));
        self.x = self.x.plus(T::from_count(1));
        assert(old(self).carried(t, *exp, mid));
    }

    /// Postsynaptic spike at time `t`: potentiate by the presynaptic trace,
    /// then bump the postsynaptic one.
    pub fn on_post<E: Fn(T) -> T>(&mut self, t: T, exp: &E)
        requires
            forall|x: T| #[trigger] call_requires(exp, (x,)),
        ensures
            exists|mid: Self|
                #[trigger] old(self).carried(t, *exp, mid) && *final(self) == mid.potentiated(),
    {
        self.advance(t, exp);
        let ghost mid = *self;
        self.weight = self.cfg.clamp(self.weight.plus(self.cfg.a_plus.times(self.x)));
        self.y = self.y.plus(T::from_count(1));
        assert(old(self).carried(t, *exp, mid));
    }
}

/// On whole numbers a clamped weight never leaves its bounds.
pub proof fn clamped_weight_is_bounded(cfg: StdpConfig<i64>, w: i64)
    requires
        cfg.w_min <= cfg.w_max,
    ensures
        cfg.w_min <= cfg.clamped(w) <= cfg.w_max,
{
}

/// Online traces reproduce the window: on whole numbers, a presynaptic spike at
/// `t1` and then a postsynaptic one at a later `t2` move the weight of a fresh
/// synapse by the window of their distance, within the bounds.
pub proof fn isolated_pair_follows_window<E: Fn(i64) -> i64>(
    cfg: StdpConfig<i64>,
    w: i64,
    t1: i64,
    t2: i64,
    exp: E,
    mid1: StdpState<i64>,
    mid2: StdpState<i64>,
    change: i64,
)
    requires
        0 <= t1 < t2,
        forall|x: i64, a: i64, b: i64|
            #![trigger call_ensures(exp, (x,), a), call_ensures(exp, (x,), b)]
            call_ensures(exp, (x,), a) && call_ensures(exp, (x,), b) ==> a == b,
        (StdpState { cfg, x: 0i64, y: 0i64, t_last: 0i64, weight: w }).carried(t1, exp, mid1),
        mid1.depressed().carried(t2, exp, mid2),
        cfg.is_window((t2 - t1) as i64, exp, change),
    ensures
        mid2.potentiated().weight == cfg.clamped(cfg.clamped(w).wrapping_add(change)),
{
    let s = StdpState { cfg, x: 0i64, y: 0i64, t_last: 0i64, weight: w };
    assert(mid1.x == 0 && mid1.y == 0 && mid1.weight == w && mid1.cfg == cfg && mid1.t_last == t1) by {
        if 0 < t1 {
            let f = choose|f: (i64, i64)|
                #[trigger] s.factors(t1, exp, f) && mid1 == (StdpState {
                    x: s.x.product(f.0),
                    y: s.y.product(f.1),
                    t_last: t1,
                    ..s
                });
            assert(0 * f.0 == 0 && 0 * f.1 == 0) by (nonlinear_arith);
        }
    }
    let d = mid1.depressed();
    assert(cfg.a_minus * 0 == 0) by (nonlinear_arith);
    assert(d.x == 1 && d.weight == cfg.clamped(w));
    let dt = (t2 - t1) as i64;
    let f = choose|f: (i64, i64)|
        #[trigger] d.factors(dt, exp, f) && mid2 == (StdpState {
            x: d.x.product(f.0),
            y: d.y.product(f.1),
            t_last: t2,
            ..d
        });
    let g = choose|g: i64|
        #[trigger] call_ensures(exp, (dt.negative().quotient(cfg.tau_plus),), g) && change
            == cfg.a_plus.product(g);
    assert(f.0 == g);
    assert(1 * g == g);
    assert(mid2.x == g);
}

/// The other half of the window: a postsynaptic spike at `t1` and then a
/// presynaptic one at a later `t2` move the weight of a fresh synapse by the
/// window of their distance, within the bounds, wherever the change itself can
/// be held.
pub proof fn reversed_pair_follows_window<E: Fn(i64) -> i64>(
    cfg: StdpConfig<i64>,
    w: i64,
    t1: i64,
    t2: i64,
    exp: E,
    mid1: StdpState<i64>,
    mid2: StdpState<i64>,
    change: i64,
)
    requires
        0 <= t1 < t2,
        i64::MIN < cfg.a_minus,
        forall|x: i64, a: i64, b: i64|
            #![trigger call_ensures(exp, (x,), a), call_ensures(exp, (x,), b)]
            call_ensures(exp, (x,), a) && call_ensures(exp, (x,), b) ==> a == b,
        forall|x: i64, f: i64| #[trigger]
            call_ensures(exp, (x,), f) ==> i64::MIN < cfg.a_minus * f <= i64::MAX,
        (StdpState { cfg, x: 0i64, y: 0i64, t_last: 0i64, weight: w }).carried(t1, exp, mid1),
        mid1.potentiated().carried(t2, exp, mid2),
        cfg.is_window((t1 - t2) as i64, exp, change),
    ensures
        mid2.depressed().weight == cfg.clamped(cfg.clamped(w).wrapping_add(change)),
{
    let s = StdpState { cfg, x: 0i64, y: 0i64, t_last: 0i64, weight: w };
    assert(mid1.x == 0 && mid1.y == 0 && mid1.weight == w && mid1.cfg == cfg && mid1.t_last == t1) by {
        if 0 < t1 {
            let f = choose|f: (i64, i64)|
                #[trigger] s.factors(t1, exp, f) && mid1 == (StdpState {
                    x: s.x.product(f.0),
                    y: s.y.product(f.1),
                    t_last: t1,
                    ..s
                });
            assert(0 * f.0 == 0 && 0 * f.1 == 0) by (nonlinear_arith);
        }
    }
    let d = mid1.potentiated();
    assert(cfg.a_plus * 0 == 0) by (nonlinear_arith);
    assert(d.y == 1 && d.weight == cfg.clamped(w));
    let gap = (t2 - t1) as i64;
    let dt = (t1 - t2) as i64;
    assert(dt == gap.negative());
    let f = choose|f: (i64, i64)|
        #[trigger] d.factors(gap, exp, f) && mid2 == (StdpState {
            x: d.x.product(f.0),
            y: d.y.product(f.1),
            t_last: t2,
            ..d
        });
    let g = choose|g: i64|
        #[trigger] call_ensures(exp, (dt.quotient(cfg.tau_minus),), g) && change
            == cfg.a_minus.negative().product(g);
    assert(f.1 == g);
    assert(1 * g == g);
    assert(mid2.y == g);
    let drop = cfg.a_minus * g;
    assert((-cfg.a_minus) * g == -drop) by (nonlinear_arith)
        requires
            drop == cfg.a_minus * g,
    ;
    assert(change == -drop);
}

} // verus!
