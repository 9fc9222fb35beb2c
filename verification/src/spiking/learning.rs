//! What plasticity and the statistics of a run come to: how a weight change
//! falls off with the time between two spikes, how traces carry over, and what
//! rates and irregularity say of the trains.

use crate::exact::{counts_at, exact_counts, exact_field, exact_reals, follows, lemma_cancel};
use crate::exact::{lemma_opposites, lemma_quotient, lemma_quotients, lemma_real_partners};
use crate::exact::{lemma_signs_of, lemma_spread, monotone, reals};
use crate::field::signals::single;
use crate::spiking::job::{result_of, LayerSpec};
use crate::spiking::lif::{draw_product, Cell, Lif, Tuning};
use crate::spiking::membrane::exponential;
use crate::spiking::network::{Network, NetworkBuilder, PopulationSpec};
use crate::spiking::report::{all_points, is_raster, points_of, spikes_between, RasterPoint};
use crate::spiking::run::{lemma_deposited_len, lemma_slot_place, sops_of, spikes_of, Sim};
use crate::spiking::stats::{deviation_sum, interval, interval_sum, RunResult};
use crate::spiking::stdp::{StdpConfig, StdpState};
use crate::scalar::Scalar;
use crate::sorting::{key_le, lemma_with_key_member, stably_sorted, with_key, Keyed};
use vstd::prelude::*;

verus! {

/// The window falls off exponentially on either side: over two times together
/// it is the product of what it is over each, measured by the full change.
pub proof fn window_falls_off<T: Scalar, E: Fn(T) -> T>(
    c: StdpConfig<T>,
    dt: T,
    ds: T,
    exp: E,
    r: T,
    s: T,
    both: T,
)
    requires
        exact_field::<T>(),
        exponential(exp),
        c.tau_plus != T::zero_value(),
        c.tau_minus != T::zero_value(),
        c.is_window(dt, exp, r),
        c.is_window(ds, exp, s),
        c.is_window(dt.sum(ds), exp, both),
    ensures
        ({
            let zero = T::zero_value();
            &&& zero.less_than(dt) && zero.less_than(ds) && zero.less_than(dt.sum(ds))
                ==> both.product(c.a_plus) == r.product(s)
            &&& dt.less_than(zero) && !zero.less_than(dt) && ds.less_than(zero) && !zero.less_than(
                ds,
            ) && dt.sum(ds).less_than(zero) && !zero.less_than(dt.sum(ds)) ==> both.product(
                c.a_minus,
            ) == r.product(s).negative()
        }),
{
    let zero = T::zero_value();
    let sum = dt.sum(ds);
    lemma_opposites(dt, ds);
    if zero.less_than(dt) && zero.less_than(ds) && zero.less_than(sum) {
        let (x, y) = (dt.negative().quotient(c.tau_plus), ds.negative().quotient(c.tau_plus));
        lemma_quotients(dt.negative(), ds.negative(), c.tau_plus);
        assert(sum.negative().quotient(c.tau_plus) == x.sum(y));
        let u = choose|f: T| #[trigger] call_ensures(exp, (x,), f) && r == c.a_plus.product(f);
        let v = choose|f: T| #[trigger] call_ensures(exp, (y,), f) && s == c.a_plus.product(f);
        let w = choose|f: T|
            #[trigger] call_ensures(exp, (sum.negative().quotient(c.tau_plus),), f) && both
                == c.a_plus.product(f);
        assert(call_ensures(exp, (x.sum(y),), w));
        assert(w == u.product(v));
        lemma_shared(c.a_plus, u, v);
    }
    if dt.less_than(zero) && !zero.less_than(dt) && ds.less_than(zero) && !zero.less_than(ds)
        && sum.less_than(zero) && !zero.less_than(sum) {
        let (x, y) = (dt.quotient(c.tau_minus), ds.quotient(c.tau_minus));
        lemma_quotients(dt, ds, c.tau_minus);
        let n = c.a_minus.negative();
        let u = choose|f: T| #[trigger] call_ensures(exp, (x,), f) && r == n.product(f);
        let v = choose|f: T| #[trigger] call_ensures(exp, (y,), f) && s == n.product(f);
        let w = choose|f: T|
            #[trigger] call_ensures(exp, (sum.quotient(c.tau_minus),), f) && both == n.product(f);
        assert(call_ensures(exp, (x.sum(y),), w));
        assert(w == u.product(v));
        lemma_shared(n, u, v);
        // both.a = -(both.(-a)) = -(r.s)
        lemma_spread(both, c.a_minus, both);
        lemma_opposites(both.product(c.a_minus), both);
    }
}

/// `(a.(u.v)).a` is `(a.u).(a.v)`.
proof fn lemma_shared<T: Scalar>(a: T, u: T, v: T)
    requires
        exact_reals::<T>(),
    ensures
        a.product(u.product(v)).product(a) == a.product(u).product(a.product(v)),
{
    reals(a, u, v);
    reals(a.product(u), v, a);
    reals(v, a, a);
}

/// Time counts by its constant: a pair that is a factor farther apart changes a
/// weight as much where both constants are longer by that factor.
pub proof fn window_scales_with_its_constants<T: Scalar, E: Fn(T) -> T>(
    c: StdpConfig<T>,
    k: T,
    dt: T,
    exp: E,
    r: T,
    s: T,
)
    requires
        exact_field::<T>(),
        single(exp),
        c.tau_plus != T::zero_value(),
        c.tau_minus != T::zero_value(),
        k.product(c.tau_plus) != T::zero_value(),
        k.product(c.tau_minus) != T::zero_value(),
        T::zero_value().less_than(k.product(dt)) == T::zero_value().less_than(dt),
        k.product(dt).less_than(T::zero_value()) == dt.less_than(T::zero_value()),
        c.is_window(dt, exp, r),
        (StdpConfig {
            tau_plus: k.product(c.tau_plus),
            tau_minus: k.product(c.tau_minus),
            ..c
        }).is_window(k.product(dt), exp, s),
    ensures
        r == s,
{
    lemma_scaled(k, dt.negative(), c.tau_plus);
    lemma_scaled(k, dt, c.tau_minus);
    lemma_spread(k, dt, k);
}

/// A common factor goes out of a quotient.
proof fn lemma_scaled<T: Scalar>(k: T, x: T, b: T)
    requires
        exact_field::<T>(),
        b != T::zero_value(),
        k.product(b) != T::zero_value(),
    ensures
        k.product(x).quotient(k.product(b)) == x.quotient(b),
{
    let (p, q) = (k.product(x).quotient(k.product(b)), x.quotient(b));
    lemma_quotient(k.product(x), k.product(b));
    lemma_quotient(x, b);
    reals(k, b, q);
    lemma_cancel(p, q, k.product(b));
}

/// A later postsynaptic spike never weakens and an earlier one never
/// strengthens. Under rounding too.
pub proof fn order_decides_the_sign<T: Scalar, E: Fn(T) -> T>(
    c: StdpConfig<T>,
    dt: T,
    exp: E,
    r: T,
)
    requires
        monotone::<T>(),
        forall|x: T, e: T| #[trigger] call_ensures(exp, (x,), e) ==> e.at_least(T::zero_value()),
        c.a_plus.at_least(T::zero_value()),
        c.a_minus.at_least(T::zero_value()),
        c.is_window(dt, exp, r),
    ensures
        dt.at_least(T::zero_value()) ==> r.at_least(T::zero_value()),
        dt.less_than(T::zero_value()) ==> T::zero_value().at_least(r),
{
    let zero = T::zero_value();
    follows(zero, dt, dt);
    follows(dt, zero, dt);
    if zero.less_than(dt) {
        let f = choose|f: T|
            #[trigger] call_ensures(exp, (dt.negative().quotient(c.tau_plus),), f) && r
                == c.a_plus.product(f);
        lemma_signs_of(c.a_plus, f);
    } else if dt.less_than(zero) {
        let f = choose|f: T|
            #[trigger] call_ensures(exp, (dt.quotient(c.tau_minus),), f) && r
                == c.a_minus.negative().product(f);
        lemma_signs_of(c.a_minus, f);
        lemma_signs_of(c.a_minus.negative(), f);
    }
}

/// Carrying traces forward composes: to a moment in between and on is to the
/// end at once.
pub proof fn carrying_composes<T: Scalar, E: Fn(T) -> T>(
    s: StdpState<T>,
    t: T,
    u: T,
    exp: E,
    mid: StdpState<T>,
    twice: StdpState<T>,
    once: StdpState<T>,
)
    requires
        exact_field::<T>(),
        exponential(exp),
        s.cfg.tau_plus != T::zero_value(),
        s.cfg.tau_minus != T::zero_value(),
        T::zero_value().less_than(t.difference(s.t_last)),
        T::zero_value().less_than(u.difference(t)),
        T::zero_value().less_than(u.difference(s.t_last)),
        s.carried(t, exp, mid),
        mid.carried(u, exp, twice),
        s.carried(u, exp, once),
    ensures
        twice == once,
        once.weight == s.weight,
{
    let (a, b) = (t.difference(s.t_last), u.difference(t));
    let whole = u.difference(s.t_last);
    let f = choose|f: (T, T)|
        #[trigger] s.factors(a, exp, f) && mid == (StdpState {
            x: s.x.product(f.0),
            y: s.y.product(f.1),
            t_last: t,
            ..s
        });
    let g = choose|g: (T, T)|
        #[trigger] mid.factors(b, exp, g) && twice == (StdpState {
            x: mid.x.product(g.0),
            y: mid.y.product(g.1),
            t_last: u,
            ..mid
        });
    let h = choose|h: (T, T)|
        #[trigger] s.factors(whole, exp, h) && once == (StdpState {
            x: s.x.product(h.0),
            y: s.y.product(h.1),
            t_last: u,
            ..s
        });
    // (t - l) + (u - t) = u - l
    let (l, m) = (s.t_last.negative(), t.negative());
    reals(t, s.t_last, t);
    reals(u, t, t);
    reals(u, s.t_last, t);
    lemma_real_partners(t, l, m, u);
    reals(u, m, m);
    reals(t, m, m);
    lemma_opposites(l.sum(u), u);
    reals(l, u, u);
    assert(a.sum(b) == whole);
    lemma_opposites(a, b);
    lemma_quotients(a.negative(), b.negative(), s.cfg.tau_plus);
    lemma_quotients(a.negative(), b.negative(), s.cfg.tau_minus);
    let (p, q) = (a.negative().quotient(s.cfg.tau_plus), b.negative().quotient(s.cfg.tau_plus));
    assert(call_ensures(exp, (p.sum(q),), h.0));
    assert(h.0 == f.0.product(g.0));
    let (p, q) = (a.negative().quotient(s.cfg.tau_minus), b.negative().quotient(s.cfg.tau_minus));
    assert(call_ensures(exp, (p.sum(q),), h.1));
    assert(h.1 == f.1.product(g.1));
    reals(s.x, f.0, g.0);
    reals(s.y, f.1, g.1);
}

/// A spike leaves one more on its own trace, and moves the weight by what the
/// trace of the other side holds, where no bound is met: down for a presynaptic
/// spike, up for a postsynaptic one.
pub proof fn spikes_read_the_other_trace<T: Scalar>(s: StdpState<T>)
    requires
        exact_reals::<T>(),
    ensures
        ({
            let (d, p, one) = (s.depressed(), s.potentiated(), T::of_count(1));
            &&& d.x.difference(s.x) == one && d.y == s.y
            &&& p.y.difference(s.y) == one && p.x == s.x
            &&& ({
                let w = s.weight.difference(s.cfg.a_minus.product(s.y));
                s.cfg.clamped(w) == w ==> d.weight.sum(s.cfg.a_minus.product(s.y)) == s.weight
            })
            &&& ({
                let w = s.weight.sum(s.cfg.a_plus.product(s.x));
                s.cfg.clamped(w) == w ==> p.weight.difference(s.cfg.a_plus.product(s.x)) == s.weight
            })
        }),
{
    let one = T::of_count(1);
    lemma_more(s.x, one);
    lemma_more(s.y, one);
    let (a, b) = (s.cfg.a_minus.product(s.y), s.cfg.a_plus.product(s.x));
    let w = s.weight;
    reals(w, a, a);
    reals(w, a.negative(), a);
    reals(a.negative(), a, a);
    reals(a, a.negative(), a);
    reals(w, w, w);
    lemma_more(b, w);
    reals(w, b, b);
}

/// `(x + y) - x` is `y`.
proof fn lemma_more<T: Scalar>(x: T, y: T)
    requires
        exact_reals::<T>(),
    ensures
        x.sum(y).difference(x) == y,
        y.sum(x).difference(x) == y,
{
    reals(x, y, x.negative());
    reals(y, x, x.negative());
    reals(x.sum(y), x, x);
    reals(x, x.negative(), x);
    reals(y, x, x);
}

/// A rate counts spikes: times the time and the neurons it is their number, and
/// spikes of two groups add up.
pub proof fn rates_count_spikes<T: Scalar>(r: &RunResult<T>, a: u64, b: u64, n: usize)
    requires
        exact_field::<T>(),
        exact_counts::<T>(),
        n > 0,
        !T::zero_value().at_least(r.duration),
        r.duration.product(T::of_count(n as u64)) != T::zero_value(),
        a + b <= u64::MAX,
    ensures
        r.rate(a, n).product(r.duration.product(T::of_count(n as u64))) == T::of_count(a),
        r.rate((a + b) as u64, n) == r.rate(a, n).sum(r.rate(b, n)),
{
    let d = r.duration.product(T::of_count(n as u64));
    lemma_quotient(T::of_count(a), d);
    assert(counts_at::<T>(a, b));
    lemma_quotients(T::of_count(a), T::of_count(b), d);
}

/// Intervals add up to the time between the first and the last spike.
pub proof fn intervals_add_up<T: Scalar>(train: Seq<usize>, dt: T, k: int)
    requires
        exact_reals::<T>(),
        0 <= k < train.len(),
    ensures
        interval_sum(train, dt, k).sum(T::of_count(train[0] as u64).product(dt)) == T::of_count(
            train[k] as u64,
        ).product(dt),
    decreases k,
{
    let at = |i: int| T::of_count(train[i] as u64).product(dt);
    let zero = T::zero_value();
    if k == 0 {
        lemma_opposites(at(0), at(0));
    } else {
        intervals_add_up(train, dt, k - 1);
        let (s, d) = (interval_sum(train, dt, k - 1), interval(train, dt, k - 1));
        let (x, y) = (at(k - 1), at(k));
        // (s + (y - x)) + f = (s + f) + (y - x)
        reals(s, d, at(0));
        reals(d, at(0), s);
        reals(s, at(0), d);
        reals(y, x, x);
        reals(x, y, x.negative());
        reals(y, x, x.negative());
        reals(x, y.sum(x.negative()), x);
        reals(x, x.negative(), x);
        reals(y, zero, zero);
        reals(x, y, y);
        reals(x.sum(y), x.negative(), x);
    }
}

/// Irregularity is relative: the square of a coefficient times that of the mean
/// interval, once per interval, is what the intervals deviate by. A train
/// whose intervals are all the same has none.
pub proof fn irregularity_is_relative<T: Scalar, R: Fn(T) -> T>(
    r: &RunResult<T>,
    i: int,
    min_isi: usize,
    root: R,
    cv: T,
    m: u64,
)
    requires
        exact_field::<T>(),
        forall|x: T, y: T| #[trigger] call_ensures(root, (x,), y) ==> y.product(y) == x,
        r.trains@[i]@.len() == m + 1,
        T::of_count(m) != T::zero_value(),
        interval_sum(r.trains@[i]@, r.dt, m as int).quotient(T::of_count(m)) != T::zero_value(),
        r.is_cv(i, min_isi, root, Some(cv)),
    ensures
        ({
            let s = r.trains@[i]@;
            let mean = interval_sum(s, r.dt, m as int).quotient(T::of_count(m));
            &&& mean.product(T::of_count(m)) == interval_sum(s, r.dt, m as int)
            &&& cv.product(cv).product(mean.product(mean)).product(T::of_count(m))
                == deviation_sum(s, r.dt, mean, m as int)
        }),
{
    let s = r.trains@[i]@;
    let n = T::of_count(m);
    let mean = interval_sum(s, r.dt, m as int).quotient(n);
    let total = deviation_sum(s, r.dt, mean, m as int);
    lemma_quotient(interval_sum(s, r.dt, m as int), n);
    let dev = choose|dev: T|
        #[trigger] call_ensures(root, (total.quotient(n),), dev) && Some(cv) == Some(
            dev.quotient(mean),
        );
    lemma_quotient(dev, mean);
    lemma_quotient(total, n);
    // (cv.mean).(cv.mean) = dev.dev
    reals(cv, mean, cv.product(mean));
    reals(mean, cv, mean);
    reals(cv, mean, mean);
    reals(cv, cv, mean.product(mean));
}

/// Of intervals that are all the same none deviates.
pub proof fn regular_trains_do_not_deviate<T: Scalar>(train: Seq<usize>, dt: T, mean: T, k: int)
    requires
        exact_reals::<T>(),
        0 <= k < train.len(),
        forall|j: int| 0 <= j < k ==> #[trigger] interval(train, dt, j) == mean,
    ensures
        deviation_sum(train, dt, mean, k) == T::zero_value(),
    decreases k,
{
    let zero = T::zero_value();
    if k > 0 {
        regular_trains_do_not_deviate(train, dt, mean, k - 1);
        assert(interval(train, dt, k - 1) == mean);
        reals(mean, mean, mean);
        reals(zero, zero, zero);
    }
}

/// The mean coefficient is one: times the number of those it was taken over it
/// is their sum.
pub proof fn mean_coefficient_is_a_mean<T: Scalar, R: Fn(T) -> T>(
    r: &RunResult<T>,
    start: int,
    len: int,
    root: R,
    mean: T,
    cvs: Seq<Option<T>>,
)
    requires
        exact_field::<T>(),
        r.is_mean_cv(start, len, root, mean, cvs),
        RunResult::<T>::cv_sum(cvs, len).1 > 0,
        T::of_count(RunResult::<T>::cv_sum(cvs, len).1 as u64) != T::zero_value(),
    ensures
        mean.product(T::of_count(RunResult::<T>::cv_sum(cvs, len).1 as u64)) == RunResult::<
            T,
        >::cv_sum(cvs, len).0,
{
    let (acc, count) = RunResult::<T>::cv_sum(cvs, len);
    lemma_quotient(acc, T::of_count(count as u64));
}

/// Inputs add up on a membrane: one more arrival lifts a driven neuron by the
/// weight of an arrival, and what the ring holds for the step lifts it as much.
pub proof fn inputs_add_up<T: Scalar>(
    net: &Network<T>,
    s: &Sim<T>,
    quiet: &Sim<T>,
    few: Seq<u64>,
    many: Seq<u64>,
    i: int,
)
    requires
        exact_counts::<T>(),
        few[i] < u64::MAX,
        many[i] == few[i] + 1,
        quiet.v@ == s.v@,
        quiet.step == s.step,
        quiet.ring@[net.slot_place(s.step as int, i)] == T::zero_value(),
    ensures
        net.units@[i].driven ==> net.pushed(s, many, i) == net.pushed(s, few, i).sum(
            net.units@[i].poisson_weight,
        ),
        !net.units@[i].driven ==> net.pushed(s, many, i) == net.pushed(s, few, i),
        net.pushed(s, few, i) == net.pushed(quiet, few, i).sum(
            s.ring@[net.slot_place(s.step as int, i)],
        ),
        few[i] == 0 ==> net.pushed(quiet, few, i) == net.units@[i].neuron.relaxed(s.v@[i]),
{
    let u = net.units@[i];
    let (v, w) = (u.neuron.relaxed(s.v@[i]), u.poisson_weight);
    let ring = s.ring@[net.slot_place(s.step as int, i)];
    let (one, zero) = (T::of_count(1), T::zero_value());
    let n = T::of_count(few[i]);
    assert(counts_at::<T>(few[i], 1));
    lemma_spread(n, one, w);
    reals(w, one, one);
    reals(one, w, w);
    let x = n.product(w);
    reals(v, x, w);
    let p = v.sum(x);
    reals(p, w, ring);
    reals(w, ring, p);
    reals(p, ring, w);
    reals(v, w, ring);
    reals(w, ring, v);
    reals(v, ring, w);
    lemma_opposites(w, w);
    reals(p, zero, zero);
    reals(v, zero, zero);
    assert(few[i] == 0 ==> x == zero);
}

/// The time of a run grows by one step with every step.
pub proof fn runs_take_their_steps<T: Scalar>(
    a: &Sim<T>,
    b: &Sim<T>,
    n: usize,
    steps: usize,
    dt: T,
    x: &RunResult<T>,
    y: &RunResult<T>,
)
    requires
        exact_counts::<T>(),
        steps < usize::MAX,
        result_of(a, n, steps, dt, x),
        result_of(b, n, (steps + 1) as usize, dt, y),
    ensures
        y.duration == x.duration.sum(dt),
        steps == 0 ==> x.duration == T::zero_value(),
{
    let one = T::of_count(1);
    assert(counts_at::<T>(steps as u64, 1));
    lemma_spread(T::of_count(steps as u64), one, dt);
    reals(dt, one, one);
    reals(one, dt, dt);
    lemma_opposites(dt, dt);
}

/// A lower limit never makes a Poisson count smaller: `k` and `l` are the first
/// draws at which the product has come down to either limit.
pub proof fn rarer_limits_count_further<T: Scalar>(high: T, low: T, draws: Seq<T>, k: int, l: int)
    requires
        monotone::<T>(),
        high.at_least(low),
        0 <= k,
        0 <= l,
        low.at_least(draw_product(draws, l + 1)),
        forall|i: int| 0 < i <= k ==> !high.at_least(#[trigger] draw_product(draws, i)),
    ensures
        k <= l,
{
    if l < k {
        follows(high, low, draw_product(draws, l + 1));
        assert(!high.at_least(draw_product(draws, l + 1)));
    }
}

/// Draws multiply: those of two lists together are the product of both.
pub proof fn draws_multiply<T: Scalar>(first: Seq<T>, second: Seq<T>, k: int)
    requires
        exact_reals::<T>(),
        0 <= k <= second.len(),
    ensures
        draw_product(first + second, first.len() + k) == draw_product(
            first,
            first.len() as int,
        ).product(draw_product(second, k)),
    decreases k,
{
    let one = T::of_count(1);
    let p = draw_product(first, first.len() as int);
    if k > 0 {
        draws_multiply(first, second, k - 1);
        assert((first + second)[first.len() + k - 1] == second[k - 1]);
        reals(p, draw_product(second, k - 1), second[k - 1]);
    } else {
        lemma_draw_prefix(first, second, first.len() as int);
        reals(p, one, one);
    }
}

proof fn lemma_draw_prefix<T: Scalar>(first: Seq<T>, second: Seq<T>, k: int)
    requires
        0 <= k <= first.len(),
    ensures
        draw_product(first + second, k) == draw_product(first, k),
    decreases k,
{
    if k > 0 {
        lemma_draw_prefix(first, second, k - 1);
        assert((first + second)[k - 1] == first[k - 1]);
    }
}

/// A spike counts once and costs its fan-out: trains with one more spike of
/// neuron `i` hold one more, and as many more synaptic operations as the neuron
/// has synapses.
pub proof fn spikes_cost_their_fan_out<T: Scalar>(
    net: &Network<T>,
    few: Seq<Vec<usize>>,
    many: Seq<Vec<usize>>,
    i: int,
    k: int,
)
    requires
        0 <= i < few.len(),
        many.len() == few.len(),
        many[i]@.len() == few[i]@.len() + 1,
        forall|j: int| 0 <= j < few.len() && j != i ==> (#[trigger] many[j])@.len()
            == few[j]@.len(),
        0 <= k <= few.len(),
    ensures
        i < k ==> spikes_of(many, k) == spikes_of(few, k) + 1 && sops_of(net, many, k) == sops_of(
            net,
            few,
            k,
        ) + net.degree(i),
        k <= i ==> spikes_of(many, k) == spikes_of(few, k) && sops_of(net, many, k) == sops_of(
            net,
            few,
            k,
        ),
    decreases k,
{
    if k > 0 {
        spikes_cost_their_fan_out(net, few, many, i, k - 1);
        let (n, d) = (few[k - 1]@.len() as int, net.degree(k - 1));
        if k - 1 == i {
            assert((n + 1) * d == n * d + d) by (nonlinear_arith);
        } else {
            assert(many[k - 1]@.len() == n);
        }
    }
}

/// Spikes of neighbouring populations add up.
pub proof fn populations_share_the_spikes(trains: Seq<Vec<usize>>, start: int, a: int, b: int)
    ensures
        spikes_between(trains, start, a) + spikes_between(trains, start + a, b)
            == spikes_between(trains, start, a + b),
        spikes_between(trains, 0, a) == spikes_of(trains, a),
{
}

/// Drawn connections join who they name: a synapse leads from a neuron of the
/// first population to one of the second, never to itself, with the weight and
/// the delay of the connection; and where every draw says so and no neuron is
/// in both populations, every pair is joined.
pub proof fn drawn_connections_join_their_populations<T: Scalar>(
    pre0: int,
    npre: int,
    post0: int,
    npost: int,
    weight: T,
    delay: u32,
    draws: Seq<bool>,
    q: int,
)
    requires
        0 <= pre0,
        0 <= post0,
        npre >= 0,
        npost >= 1,
        pre0 + npre <= u32::MAX,
        post0 + npost <= u32::MAX,
        0 <= q <= npre * npost,
        draws.len() >= q,
    ensures
        ({
            let s = NetworkBuilder::<T>::wired(pre0, post0, npost, weight, delay, draws, q);
            &&& s.len() <= q
            &&& forall|k: int|
                0 <= k < s.len() ==> {
                    &&& pre0 <= (#[trigger] s[k]).pre < pre0 + npre
                    &&& post0 <= s[k].post < post0 + npost
                    &&& s[k].pre != s[k].post
                    &&& s[k].weight == weight
                    &&& s[k].delay == delay
                }
            &&& (pre0 + npre <= post0 || post0 + npost <= pre0) && (forall|k: int|
                0 <= k < q ==> #[trigger] draws[k]) ==> s.len() == q
            &&& (forall|k: int| 0 <= k < q ==> !#[trigger] draws[k]) ==> s.len() == 0
        }),
    decreases q,
{
    if q > 0 {
        drawn_connections_join_their_populations(
            pre0,
            npre,
            post0,
            npost,
            weight,
            delay,
            draws,
            q - 1,
        );
        let (a, b) = ((q - 1) / npost, (q - 1) % npost);
        vstd::arithmetic::div_mod::lemma_fundamental_div_mod(q - 1, npost);
        vstd::arithmetic::div_mod::lemma_mod_bound(q - 1, npost);
        assert(0 <= a < npre) by (nonlinear_arith)
            requires
                npost >= 1,
                0 <= q - 1 < npre * npost,
                q - 1 == npost * a + b,
                0 <= b < npost,
        ;
        let rest = NetworkBuilder::<T>::wired(pre0, post0, npost, weight, delay, draws, q - 1);
        let s = NetworkBuilder::<T>::wired(pre0, post0, npost, weight, delay, draws, q);
        assert forall|k: int| 0 <= k < s.len() implies {
            &&& pre0 <= (#[trigger] s[k]).pre < pre0 + npre
            &&& post0 <= s[k].post < post0 + npost
            &&& s[k].pre != s[k].post
            &&& s[k].weight == weight
            &&& s[k].delay == delay
        } by {
            if k < rest.len() {
                assert(s[k] == rest[k]);
            }
        }
    }
}

/// A neuron of a network that hears nothing is a neuron by itself: it fires when
/// that one does, and goes on from the same membrane and the same refractory
/// time.
pub proof fn lone_neurons_run_by_themselves<T: Scalar>(
    net: &Network<T>,
    s: &Sim<T>,
    arrivals: Seq<u64>,
    i: int,
)
    requires
        exact_reals::<T>(),
        arrivals[i] == 0,
        s.ring@[net.slot_place(s.step as int, i)] == T::zero_value(),
    ensures
        ({
            let p = net.units@[i].neuron;
            let c = Cell { v: s.v@[i], refr: s.refr@[i] };
            &&& net.fires(s, arrivals, i) == p.fires(c)
            &&& p.stepped(c) == (Cell {
                v: net.v_next(s, arrivals, i),
                refr: net.refr_next(s, arrivals, i),
            })
        }),
{
    let r = net.units@[i].neuron.relaxed(s.v@[i]);
    reals(r, r, r);
}

/// A refractory neuron waits: it stays at its reset potential without a spike
/// for as many steps as its period has, and may fire in the next.
pub proof fn refractory_neurons_wait<T: Scalar>(p: &Lif<T>, c: Cell<T>, k: nat)
    requires
        p.fires(c),
        k <= p.ref_steps,
    ensures
        after_steps(p, p.stepped(c), k) == (Cell {
            v: p.v_reset,
            refr: (p.ref_steps - k) as u32,
        }),
        k < p.ref_steps ==> !p.fires(after_steps(p, p.stepped(c), k)),
    decreases k,
{
    if k > 0 {
        refractory_neurons_wait(p, c, (k - 1) as nat);
    }
}

/// A neuron after `k` steps.
pub open spec fn after_steps<T: Scalar>(p: &Lif<T>, c: Cell<T>, k: nat) -> Cell<T>
    decreases k,
{
    if k == 0 {
        c
    } else {
        p.stepped(after_steps(p, c, (k - 1) as nat))
    }
}

/// Places of the ring that are read at two steps within one turn, or by two
/// neurons, are not the same.
proof fn lemma_places_differ<T: Scalar>(net: &Network<T>, t: int, j: int, u: int, k: int)
    requires
        0 <= j < net.n,
        0 <= k < net.n,
        0 <= t,
        0 <= u,
        -net.slots() < t - u < net.slots(),
        t != u || j != k,
    ensures
        net.slot_place(t, j) != net.slot_place(u, k),
{
    let (m, n) = (net.slots(), net.n as int);
    let (p, q) = (t % m, u % m);
    let (c, d) = (t / m, u / m);
    assert(t == m * c + p && 0 <= p < m) by (nonlinear_arith)
        requires
            m > 0,
            p == t % m,
            c == t / m,
    ;
    assert(u == m * d + q && 0 <= q < m) by (nonlinear_arith)
        requires
            m > 0,
            q == u % m,
            d == u / m,
    ;
    if p == q {
        assert(c == d) by (nonlinear_arith)
            requires
                -m < m * c - m * d < m,
                m > 0,
        ;
    } else {
        assert(p * n + j != q * n + k) by (nonlinear_arith)
            requires
                p != q,
                0 <= j < n,
                0 <= k < n,
        ;
    }
}

/// A spike arrives after its delay: it adds the weight of its synapse to what
/// the target hears that many steps later, and to nothing else that any neuron
/// hears until the ring has turned.
pub proof fn spikes_arrive_after_their_delay<T: Scalar>(
    net: &Network<T>,
    s: &Sim<T>,
    arrivals: Seq<u64>,
    e: int,
    later: int,
    j: int,
)
    requires
        exact_reals::<T>(),
        net.wf(),
        net.tracks(s),
        0 <= e < net.out@.len(),
        1 <= later <= net.max_delay,
        0 <= j < net.n,
    ensures
        ({
            let o = net.out@[e];
            let at = net.slot_place(s.step + later, j);
            let (before, after) = (
                net.deposited(s, arrivals, e)[at],
                net.deposited(s, arrivals, e + 1)[at],
            );
            after.difference(before) == if net.fires(s, arrivals, o.pre as int) && later == o.delay
                && j == o.post {
                o.weight
            } else {
                T::zero_value()
            }
        }),
{
    let o = net.out@[e];
    let at = net.slot_place(s.step + later, j);
    lemma_deposited_len(net, s, arrivals, e);
    lemma_slot_place(net, s.step + later, j);
    lemma_slot_place(net, s.step + o.delay, o.post as int);
    if later != o.delay || j != o.post {
        lemma_places_differ(net, s.step + later, j, s.step + o.delay, o.post as int);
    }
    let x = net.deposited(s, arrivals, e)[at];
    let w = o.weight;
    reals(x, w, x.negative());
    reals(w, x, x.negative());
    reals(x, x.negative(), w);
    reals(x.sum(w), x, x);
    reals(w, x, x);
    reals(x, x, x);
    reals(w, w, w);
}

/// What a step hears is gone after it, and what is due later waits.
pub proof fn slots_are_heard_once<T: Scalar>(net: &Network<T>, s: &Sim<T>, later: int, j: int)
    requires
        net.wf(),
        net.tracks(s),
        0 <= later <= net.max_delay,
        0 <= j < net.n,
    ensures
        ({
            let at = net.slot_place(s.step + later, j);
            net.consumed(s)[at] == if later == 0 {
                T::zero_value()
            } else {
                s.ring@[at]
            }
        }),
{
    let at = net.slot_place(s.step + later, j);
    lemma_slot_place(net, s.step + later, j);
    let base = net.slot_place(s.step as int, 0);
    if later > 0 && base <= at < base + net.n {
        assert(at == net.slot_place(s.step as int, at - base));
        lemma_places_differ(net, s.step + later, j, s.step as int, at - base);
    }
}

/// A layer is driven where arrivals come, by its own weight, and its neurons
/// rest where its current lifts them.
pub proof fn layers_carry_their_drive<T: Scalar, E: Fn(T) -> T, R: Fn(T) -> u32>(
    l: &LayerSpec<T>,
    dt: T,
    tuning: &Tuning<E, R>,
    p: PopulationSpec<T>,
)
    requires
        exact_reals::<T>(),
        monotone::<T>(),
        T::zero_value().less_than(dt),
        l.is_population(dt, tuning, p),
    ensures
        T::zero_value().at_least(l.poisson_rate) ==> !p.unit.driven,
        p.unit.driven ==> T::zero_value().less_than(l.poisson_rate),
        p.unit.poisson_weight == l.poisson_weight,
        p.n == l.n,
        p.name@ == l.name@,
        p.unit.neuron.v_inf.difference(l.params.v_rest) == l.params.r.product(l.i_ext),
        p.unit.neuron.v_th == l.params.v_th,
        p.unit.neuron.v_reset == l.params.v_reset,
{
    let z = T::zero_value();
    lemma_signs_of(l.poisson_rate, dt);
    follows(z, l.poisson_rate, dt);
    follows(z, l.poisson_rate.product(dt), dt);
    follows(l.poisson_rate, z, dt);
    follows(dt, z, dt);
    follows(z, dt, dt);
    let (v, x) = (l.params.v_rest, l.params.r.product(l.i_ext));
    reals(v, x, v.negative());
    reals(x, v, v.negative());
    reals(v, v.negative(), x);
    reals(v.sum(x), v, v);
    reals(x, v, v);
    reals(v, v, v);
    reals(x, x, x);
}

proof fn lemma_points(trains: Seq<Vec<usize>>, k: int, x: RasterPoint)
    requires
        0 <= k <= trains.len() <= u32::MAX,
    ensures
        all_points(trains, k).len() == spikes_of(trains, k),
        all_points(trains, k).contains(x) <==> x.neuron < k && trains[x.neuron as int]@.contains(
            x.step,
        ),
    decreases k,
{
    if k > 0 {
        lemma_points(trains, k - 1, x);
        let (a, b) = (all_points(trains, k - 1), points_of(trains[k - 1]@, k - 1));
        if a.contains(x) {
            let i = choose|i: int| 0 <= i < a.len() && a[i] == x;
            assert((a + b)[i] == x);
        }
        if x.neuron == k - 1 && trains[k - 1]@.contains(x.step) {
            let train = trains[k - 1]@;
            let i = choose|i: int| 0 <= i < train.len() && train[i] == x.step;
            assert(b[i] == x);
            assert((a + b)[a.len() + i] == x);
        }
        if (a + b).contains(x) {
            let i = choose|i: int| 0 <= i < (a + b).len() && (a + b)[i] == x;
            if i < a.len() {
                assert(a[i] == x);
            } else {
                assert(b[i - a.len()] == x);
                assert(trains[k - 1]@[i - a.len()] == x.step);
            }
        }
    }
}

/// A raster shows as many spikes as there are up to the limit, and within the
/// limit it leaves none out.
pub proof fn raster_is_full(trains: Seq<Vec<usize>>, cap: usize, r: Seq<RasterPoint>, x: RasterPoint)
    requires
        trains.len() <= u32::MAX,
        is_raster(trains, cap, r),
    ensures
        r.len() == if spikes_of(trains, trains.len() as int) <= cap {
            spikes_of(trains, trains.len() as int)
        } else {
            cap as int
        },
        spikes_of(trains, trains.len() as int) <= cap && x.neuron < trains.len()
            && trains[x.neuron as int]@.contains(x.step) ==> r.contains(x),
{
    let all = all_points(trains, trains.len() as int);
    let sorted = choose|sorted: Seq<RasterPoint>|
        #[trigger] stably_sorted(all, sorted) && r == sorted.take(
            if cap < sorted.len() {
                cap as int
            } else {
                sorted.len() as int
            },
        );
    lemma_points(trains, trains.len() as int, x);
    lemma_with_key_member(sorted, x);
    assert(with_key(sorted, x.key()) == with_key(all, x.key()));
    lemma_with_key_member(all, x);
    if sorted.len() <= cap {
        assert(r =~= sorted);
    }
}

/// A raster shows spikes in order of time, each of them one of its neuron.
pub proof fn raster_shows_spikes_in_order(
    trains: Seq<Vec<usize>>,
    cap: usize,
    r: Seq<RasterPoint>,
    a: int,
    b: int,
)
    requires
        trains.len() <= u32::MAX,
        is_raster(trains, cap, r),
        0 <= a <= b < r.len(),
    ensures
        r[a].neuron < trains.len(),
        trains[r[a].neuron as int]@.contains(r[a].step),
        r[a].step <= r[b].step,
{
    let all = all_points(trains, trains.len() as int);
    let sorted = choose|sorted: Seq<RasterPoint>|
        #[trigger] stably_sorted(all, sorted) && r == sorted.take(
            if cap < sorted.len() {
                cap as int
            } else {
                sorted.len() as int
            },
        );
    let x = r[a];
    assert(sorted[a] == x && sorted[b] == r[b]);
    assert(sorted.contains(x));
    lemma_with_key_member(sorted, x);
    assert(with_key(sorted, x.key()) == with_key(all, x.key()));
    lemma_with_key_member(all, x);
    lemma_points(trains, trains.len() as int, x);
    assert(key_le(sorted[a].key(), sorted[b].key()));
}

} // verus!
