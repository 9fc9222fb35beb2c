//! What a membrane does: it rests without current, answers current by Ohm's
//! law, forgets where it came from step by step, and reaches its threshold
//! after the closed-form period.
//!
//! The laws are ones of exact arithmetic.

use crate::exact::{exact_field, exact_reals, lemma_is_quotient, lemma_opposites, lemma_quotient};
use crate::exact::{lemma_quotients, reals};
use crate::scalar::Scalar;
use crate::spiking::lif::{is_train, rate_of_train, Lif, NeuronParams, Tuning};
use vstd::prelude::*;

verus! {

/// `a - b + b` is `a`, and `a - a` is nothing.
proof fn lemma_restored<T: Scalar>(a: T, b: T)
    requires
        exact_reals::<T>(),
    ensures
        a.difference(b).sum(b) == a,
        b.sum(a.difference(b)) == a,
        a.difference(a) == T::zero_value(),
        a.sum(b).difference(a) == b,
{
    let n = b.negative();
    reals(a, b, b);
    reals(a, n, b);
    reals(n, b, b);
    reals(b, n, b);
    reals(a, a, a);
    reals(a.difference(b), b, b);
    // (a + b) - a
    reals(a.sum(b), a, a);
    reals(a, b, a.negative());
    reals(b, a, a.negative());
    reals(b, a.negative(), a);
    reals(b, T::zero_value(), a);
}

/// Without current the resting potential is the steady one; currents add up,
/// and one unit of current lifts the potential by the resistance.
pub proof fn current_lifts_by_ohms_law<T: Scalar>(p: NeuronParams<T>, i: T, j: T)
    requires
        exact_reals::<T>(),
    ensures
        p.steady(T::zero_value()) == p.v_rest,
        p.steady(T::of_count(1)).difference(p.v_rest) == p.r,
        p.steady(i.sum(j)).difference(p.v_rest) == p.steady(i).difference(p.v_rest).sum(
            p.steady(j).difference(p.v_rest),
        ),
{
    reals(p.r, i, j);
    reals(p.r, p.r, p.r);
    reals(p.v_rest, p.r, p.r);
    lemma_restored(p.v_rest, p.r.product(i.sum(j)));
    lemma_restored(p.v_rest, p.r.product(i));
    lemma_restored(p.v_rest, p.r.product(j));
    lemma_restored(p.v_rest, p.r);
}

/// The steady potential stays, and one step brings any other nearer to it by
/// the decay.
pub proof fn distance_decays<T: Scalar>(p: &Lif<T>, v: T)
    requires
        exact_reals::<T>(),
    ensures
        p.relaxed(p.v_inf) == p.v_inf,
        p.relaxed(v).difference(p.v_inf) == p.decay.product(v.difference(p.v_inf)),
{
    lemma_restored(p.v_inf, v.difference(p.v_inf).product(p.decay));
    lemma_restored(p.v_inf, p.v_inf);
    lemma_opposites(p.decay, p.decay);
    reals(p.v_inf, p.v_inf, p.v_inf);
    reals(v.difference(p.v_inf), p.decay, p.decay);
}

proof fn lemma_stays_put<T: Scalar>(p: &Lif<T>, t: nat)
    requires
        exact_reals::<T>(),
        p.v_inf == p.v_reset,
        !p.v_reset.at_least(p.v_th),
    ensures
        p.cell_at(t) == p.fresh(),
        !p.fires(p.cell_at(t)),
    decreases t,
{
    distance_decays(p, p.v_inf);
    if t > 0 {
        lemma_stays_put(p, (t - 1) as nat);
    }
}

/// A neuron without current whose resting potential is its reset and lies below
/// threshold never fires, and has no period.
pub proof fn resting_neuron_is_silent<T: Scalar, E: Fn(T) -> T, R: Fn(T) -> u32, L: Fn(T) -> T>(
    n: NeuronParams<T>,
    dt: T,
    tuning: &Tuning<E, R>,
    p: Lif<T>,
    n_steps: usize,
    spikes: Seq<usize>,
    ln: L,
    period: Option<T>,
)
    requires
        exact_reals::<T>(),
        n.is_prepared(dt, T::zero_value(), tuning, p),
        n.v_rest == n.v_reset,
        !n.v_rest.at_least(n.v_th),
        is_train(&p, n_steps, spikes),
        n.is_period(T::zero_value(), ln, period),
    ensures
        spikes.len() == 0,
        n.v_th.at_least(n.v_rest) ==> period is None,
        forall|t: nat| #[trigger] p.cell_at(t).v == n.v_rest,
{
    current_lifts_by_ohms_law(n, T::zero_value(), T::zero_value());
    assert forall|t: nat| #[trigger] p.cell_at(t).v == n.v_rest by {
        lemma_stays_put(&p, t);
    }
    if spikes.len() > 0 {
        let t = spikes[0];
        assert(p.fires(p.cell_at(t as nat)));
        lemma_stays_put(&p, t as nat);
    }
}

/// A free membrane at rest without current stays there.
pub proof fn resting_membrane_stays<T: Scalar, E: Fn(T) -> T, R: Fn(T) -> u32>(
    n: NeuronParams<T>,
    dt: T,
    tuning: &Tuning<E, R>,
    p: Lif<T>,
    k: nat,
)
    requires
        exact_reals::<T>(),
        n.is_prepared(dt, T::zero_value(), tuning, p),
    ensures
        p.trajectory(n.v_rest, k) == n.v_rest,
    decreases k,
{
    current_lifts_by_ohms_law(n, T::zero_value(), T::zero_value());
    distance_decays(&p, p.v_inf);
    if k > 0 {
        resting_membrane_stays(n, dt, tuning, p, (k - 1) as nat);
    }
}

/// The function turns sums into products.
pub open spec fn exponential<T: Scalar, E: Fn(T) -> T>(exp: E) -> bool {
    forall|x: T, y: T, u: T, v: T, w: T|
        #![trigger call_ensures(exp, (x,), u), call_ensures(exp, (y,), v), call_ensures(exp, (x.sum(y),), w)]
        call_ensures(exp, (x,), u) && call_ensures(exp, (y,), v) && call_ensures(exp, (x.sum(y),), w)
            ==> w == u.product(v)
}

/// The decay is the exponential of what times the time constant is minus the
/// step, and the refractory steps are the whole number of what times the step
/// is the refractory period.
pub proof fn preparation_scales_by_the_step<T: Scalar, E: Fn(T) -> T, R: Fn(T) -> u32>(
    n: NeuronParams<T>,
    dt: T,
    i: T,
    tuning: &Tuning<E, R>,
    p: Lif<T>,
) -> (x: (T, T))
    requires
        exact_field::<T>(),
        n.tau != T::zero_value(),
        dt != T::zero_value(),
        n.is_prepared(dt, i, tuning, p),
    ensures
        call_ensures(tuning.exp, (x.0,), p.decay),
        n.tau.product(x.0).sum(dt) == T::zero_value(),
        call_ensures(tuning.round, (x.1,), p.ref_steps),
        x.1.product(dt) == n.t_ref,
        p.v_reset == n.v_reset,
        p.v_th == n.v_th,
{
    let x = dt.negative().quotient(n.tau);
    lemma_quotient(dt.negative(), n.tau);
    reals(dt.negative(), dt, dt);
    reals(dt, dt.negative(), dt);
    lemma_quotient(n.t_ref, dt);
    (x, n.t_ref.quotient(dt))
}

/// The integrator is exact: a step of `s + t` is a step of `s` and a step of
/// `t`.
pub proof fn steps_compose<T: Scalar, E: Fn(T) -> T, R: Fn(T) -> u32>(
    n: NeuronParams<T>,
    s: T,
    t: T,
    i: T,
    tuning: &Tuning<E, R>,
    ps: Lif<T>,
    pt: Lif<T>,
    whole: Lif<T>,
    v: T,
)
    requires
        exact_field::<T>(),
        n.tau != T::zero_value(),
        exponential::<T, E>(tuning.exp),
        n.is_prepared(s, i, tuning, ps),
        n.is_prepared(t, i, tuning, pt),
        n.is_prepared(s.sum(t), i, tuning, whole),
    ensures
        whole.relaxed(v) == pt.relaxed(ps.relaxed(v)),
{
    lemma_opposites(s, t);
    lemma_quotients(s.negative(), t.negative(), n.tau);
    let (x, y) = (s.negative().quotient(n.tau), t.negative().quotient(n.tau));
    assert(s.sum(t).negative().quotient(n.tau) == x.sum(y));
    assert(call_ensures(tuning.exp, (x.sum(y),), whole.decay));
    assert(whole.decay == ps.decay.product(pt.decay));
    distance_decays(&ps, v);
    let d = v.difference(ps.v_inf);
    reals(d, ps.decay, pt.decay);
    reals(ps.decay, d, d);
}

/// The function undoes the exponential: the exponential of its opposite is the
/// inverse of what it was taken of.
pub open spec fn undoes<T: Scalar, E: Fn(T) -> T, L: Fn(T) -> T>(ln: L, exp: E) -> bool {
    forall|x: T, l: T, e: T|
        #![trigger call_ensures(ln, (x,), l), call_ensures(exp, (l.negative(),), e)]
        call_ensures(ln, (x,), l) && call_ensures(exp, (l.negative(),), e) ==> e.product(x)
            == T::of_count(1)
}

/// After the closed-form period a membrane that starts at its reset stands
/// exactly at threshold.
pub proof fn period_reaches_threshold<
    T: Scalar,
    E: Fn(T) -> T,
    R: Fn(T) -> u32,
    L: Fn(T) -> T,
>(n: NeuronParams<T>, i: T, tuning: &Tuning<E, R>, ln: L, period: T, p: Lif<T>)
    requires
        exact_field::<T>(),
        n.tau != T::zero_value(),
        undoes::<T, E, L>(ln, tuning.exp),
        n.is_period(i, ln, Some(period)),
        n.v_th != n.steady(i),
        n.is_prepared(period, i, tuning, p),
    ensures
        p.relaxed(n.v_reset) == n.v_th,
{
    let v = n.steady(i);
    let (a, b) = (n.v_reset.difference(v), n.v_th.difference(v));
    let q = a.quotient(b);
    let l = choose|l: T|
        #[trigger] call_ensures(ln, (q,), l) && Some(period) == Some(n.tau.product(l));
    let zero = T::zero_value();
    if b == zero {
        lemma_restored(n.v_th, v);
        lemma_opposites(v, v);
        assert(false);
    }
    lemma_quotient(a, b);
    // -(tau.l) / tau = -l
    reals(n.tau, l, l);
    reals(l, n.tau, l);
    lemma_opposites(l, l);
    reals(n.tau, l.negative(), l);
    reals(l.negative(), n.tau, l);
    reals(l, n.tau, l.negative());
    lemma_is_quotient(l.negative(), period.negative(), n.tau);
    let e = p.decay;
    assert(call_ensures(tuning.exp, (l.negative(),), e));
    assert(e.product(q) == T::of_count(1));
    // a.e = (q.b).e = (e.q).b = b
    reals(a, e, e);
    reals(e, q, b);
    reals(b, T::of_count(1), b);
    reals(T::of_count(1), b, b);
    assert(a.product(e) == b);
    lemma_restored(n.v_th, v);
}

/// The closed-form rate times interval and refractory period together is one,
/// and there is a rate exactly where there is an interval.
pub proof fn rate_inverts_the_interval<T: Scalar, L: Fn(T) -> T>(
    n: NeuronParams<T>,
    i: T,
    ln: L,
    f: Option<T>,
) -> (t: Option<T>)
    requires
        exact_field::<T>(),
        n.is_rate(i, ln, f),
    ensures
        n.is_period(i, ln, t),
        f is Some <==> t is Some,
        f is Some && t->0.sum(n.t_ref) != T::zero_value() ==> f->0.product(t->0).sum(
            f->0.product(n.t_ref),
        ) == T::of_count(1),
{
    let t = choose|t: Option<T>|
        #[trigger] n.is_period(i, ln, t) && f == (match t {
            Some(p) => Some(T::of_count(1).quotient(p.sum(n.t_ref))),
            None => None,
        });
    if t is Some && t->0.sum(n.t_ref) != T::zero_value() {
        lemma_quotient(T::of_count(1), t->0.sum(n.t_ref));
        reals(f->0, t->0, n.t_ref);
    }
    t
}

/// A measured rate times the last interval is one; a train without an interval
/// has no rate.
pub proof fn measured_rate_inverts_the_interval<T: Scalar>(s: Seq<usize>, dt: T)
    requires
        exact_field::<T>(),
    ensures
        s.len() < 2 ==> rate_of_train(s, dt) == T::zero_value(),
        s.len() >= 2 && T::of_count((s.last() - s[s.len() - 2]) as u64).product(dt)
            != T::zero_value() ==> rate_of_train(s, dt).product(dt).product(
            T::of_count((s.last() - s[s.len() - 2]) as u64),
        ) == T::of_count(1),
{
    if s.len() >= 2 {
        let n = T::of_count((s.last() - s[s.len() - 2]) as u64);
        if n.product(dt) != T::zero_value() {
            let r = rate_of_train(s, dt);
            lemma_quotient(T::of_count(1), n.product(dt));
            reals(r, dt, n);
            reals(dt, n, r);
        }
    }
}

} // verus!
