//! Detailed balance and what is measured: a spin is up with the Boltzmann odds
//! of its flip, exchanges weigh what they change, schedules lead from end to
//! end, and means, shares and minima are what they are called.
//!
//! The laws are ones of exact arithmetic, those on minima of any total order.

use crate::exact::{counts_at, exact_counts, exact_field, exact_reals, follows, lemma_is_quotient};
use crate::exact::{lemma_opposites, lemma_quotient, lemma_quotients, lemma_real_partners};
use crate::exact::{lemma_spread, monotone, reals};
use crate::scalar::Scalar;
use crate::spiking::membrane::exponential;
use crate::stochastic::anneal::{energy_sum, magnet_sum, magnetization, net, observed};
use crate::stochastic::chain::Live;
use crate::stochastic::chance::{exponent, takes, tips};
use crate::stochastic::exec::Ladder;
use crate::stochastic::gibbs::SpinLedger;
use crate::stochastic::ising::IsingModel;
use crate::stochastic::maxcut::spins;
use crate::stochastic::schedule::{between, Schedule, TemperingSpec};
use crate::stochastic::solve::{cut_at, whole};
use crate::stochastic::tempering::{exchanged, pair_attempted, pairs_before, SwapStats, Tempering};
use vstd::prelude::*;

verus! {

/// A spin is put up by a draw below p, where up to down stand as one to the
/// Boltzmann factor of the flip: the exponent is minus beta times twice the
/// local field, and `p + p.e = 1`.
pub proof fn spin_follows_boltzmann<T: Scalar, E: Fn(T) -> T>(
    u: T,
    beta: T,
    l: T,
    exp: E,
    r: bool,
) -> (w: (T, T, T))
    requires
        exact_field::<T>(),
        T::of_count(2) == T::of_count(1).sum(T::of_count(1)),
        tips(u, beta, l, exp, r),
    ensures
        r == u.less_than(w.0),
        call_ensures(exp, (w.2,), w.1),
        w.2.sum(beta.product(l.sum(l))) == T::zero_value(),
        T::of_count(1).sum(w.1) != T::zero_value() ==> w.0.sum(w.0.product(w.1)) == T::of_count(1),
{
    let (one, two) = (T::of_count(1), T::of_count(2));
    let x = exponent(beta, l);
    let e = choose|e: T|
        #[trigger] call_ensures(exp, (x,), e) && r == u.less_than(one.quotient(one.sum(e)));
    let p = one.quotient(one.sum(e));
    if one.sum(e) != T::zero_value() {
        lemma_quotient(one, one.sum(e));
        reals(p, one, e);
    }
    // x = -(2.beta).l = -(beta.(l + l))
    let y = two.product(beta).product(l);
    reals(two, beta, l);
    reals(two.product(beta), l, l);
    lemma_spread(one, one, beta.product(l));
    let z = beta.product(l);
    reals(one, z, z);
    reals(z, one, z);
    reals(beta, l, l);
    assert(y == beta.product(l.sum(l)));
    reals(y, y.negative(), y);
    reals(y.negative(), y, y);
    (p, e, x)
}

/// An exchange is weighed by what it changes: the log ratio of a pair and the
/// weight of the two energies exchanged make up the weight of the energies as
/// they stand.
pub proof fn exchange_weighs_the_change<T: Scalar>(t: &Tempering<T>, k: int)
    requires
        exact_reals::<T>(),
    ensures
        ({
            let (b, c) = (t.betas@[k], t.betas@[k + 1]);
            let (e, f) = (t.live@[k].energy, t.live@[k + 1].energy);
            let stays = b.product(e).sum(c.product(f));
            let swapped = b.product(f).sum(c.product(e));
            t.ratio(k).sum(swapped) == stays
        }),
{
    let (b, c) = (t.betas@[k], t.betas@[k + 1]);
    let (e, f) = (t.live@[k].energy, t.live@[k + 1].energy);
    let d = f.difference(e);
    lemma_spread(c, b, d);
    lemma_spread(f, e, c);
    lemma_spread(f, e, b);
    let (cf, ce, bf, be) = (c.product(f), c.product(e), b.product(f), b.product(e));
    // (cf - ce) - (bf - be) + (bf + ce)
    lemma_opposites(bf, be.negative());
    lemma_opposites(be, bf);
    let (m, n) = (ce.negative(), bf.negative());
    assert(t.ratio(k) == cf.sum(m).sum(n.sum(be)));
    lemma_real_partners(cf, m, n, be);
    // ((cf + n) + (m + be)) + (bf + ce)
    lemma_real_partners(cf.sum(n), m.sum(be), bf, ce);
    reals(cf, n, bf);
    reals(n, bf, cf);
    reals(bf, n, cf);
    reals(cf, cf, cf);
    reals(m, be, ce);
    reals(be, m, ce);
    reals(m, ce, be);
    reals(be, ce, m);
    reals(be, ce.sum(m), m);
    reals(ce, m, be);
    reals(be, be, be);
    reals(be.sum(m), ce, be);
    reals(cf, be, be);
}

/// The Metropolis rule takes whatever lies below the exponential of the ratio,
/// so a ratio of a sum is taken as a draw below the product would be.
pub proof fn acceptances_multiply<T: Scalar, E: Fn(T) -> T>(
    u: T,
    x: T,
    y: T,
    exp: E,
    a: T,
    b: T,
    r: bool,
)
    requires
        exponential::<T, E>(exp),
        call_ensures(exp, (x,), a),
        call_ensures(exp, (y,), b),
        takes(u, x.sum(y), exp, r),
    ensures
        r == u.less_than(a.product(b)),
{
}

/// A power of zero is one, of one the base, and of a sum a product.
pub open spec fn raises<T: Scalar, P: Fn(T, T) -> T>(pow: P) -> bool {
    &&& forall|x: T, p: T| #[trigger]
        call_ensures(pow, (x, T::zero_value()), p) ==> p == T::of_count(1)
    &&& forall|x: T, p: T| #[trigger] call_ensures(pow, (x, T::of_count(1)), p) ==> p == x
    &&& forall|x: T, s: T, t: T, p: T, q: T, w: T|
        #![trigger call_ensures(pow, (x, s), p), call_ensures(pow, (x, t), q), call_ensures(pow, (x, s.sum(t)), w)]
        call_ensures(pow, (x, s), p) && call_ensures(pow, (x, t), q) && call_ensures(
            pow,
            (x, s.sum(t)),
            w,
        ) ==> w == p.product(q)
}

proof fn lemma_between_ends<T: Scalar, P: Fn(T, T) -> T>(
    lo: T,
    hi: T,
    ladder: Ladder,
    pow: P,
    a: T,
    b: T,
)
    requires
        exact_field::<T>(),
        raises::<T, P>(pow),
        lo != T::zero_value(),
        between(lo, hi, T::zero_value(), ladder, pow, a),
        between(lo, hi, T::of_count(1), ladder, pow, b),
    ensures
        a == lo,
        b == hi,
{
    let d = hi.difference(lo);
    reals(d, d, d);
    reals(lo, lo, lo);
    // lo + (hi - lo) = hi
    reals(hi, lo, lo);
    reals(hi, lo.negative(), lo);
    reals(lo.negative(), lo, lo);
    reals(lo, lo.negative(), lo);
    reals(hi, hi, hi);
    reals(lo, d, d);
    lemma_quotient(hi, lo);
}

/// A schedule leads from end to end: the first sweep runs at the first inverse
/// temperature and the last at the last.
pub proof fn schedule_leads_from_end_to_end<T: Scalar, P: Fn(T, T) -> T>(
    s: &Schedule<T>,
    pow: P,
    a: T,
    b: T,
)
    requires
        exact_field::<T>(),
        exact_counts::<T>(),
        raises::<T, P>(pow),
        s.beta0 != T::zero_value(),
        s.sweeps >= 1,
        s.sweeps > 1 ==> T::of_count((s.sweeps - 1) as u64) != T::zero_value(),
        s.is_beta(0, pow, a),
        s.is_beta((s.sweeps - 1) as u64, pow, b),
    ensures
        b == s.beta1,
        s.sweeps > 1 ==> a == s.beta0,
{
    if s.sweeps > 1 {
        let n = T::of_count((s.sweeps - 1) as u64);
        lemma_quotients(n, n, n);
        lemma_quotient(n, n);
        let one = T::of_count(1);
        reals(n, one, n);
        reals(one, n, n);
        lemma_is_quotient(one, n, n);
        lemma_between_ends(s.beta0, s.beta1, s.ladder(), pow, a, b);
    }
}

/// A ladder leads from end to end: the first rung is the hottest and the last
/// the coldest.
pub proof fn ladder_leads_from_end_to_end<T: Scalar, P: Fn(T, T) -> T>(
    s: &TemperingSpec<T>,
    pow: P,
    betas: Seq<T>,
)
    requires
        exact_field::<T>(),
        exact_counts::<T>(),
        raises::<T, P>(pow),
        s.beta_min != T::zero_value(),
        s.replicas >= 1,
        s.replicas > 1 ==> T::of_count((s.replicas - 1) as u64) != T::zero_value(),
        s.are_betas(pow, betas),
    ensures
        betas.len() == s.replicas,
        betas.last() == s.beta_max,
        s.replicas > 1 ==> betas[0] == s.beta_min,
{
    assert(s.is_rung(0, pow, betas[0]));
    assert(s.is_rung(betas.len() - 1, pow, betas[betas.len() - 1]));
    if s.replicas > 1 {
        let n = T::of_count((s.replicas - 1) as u64);
        lemma_quotients(n, n, n);
        let one = T::of_count(1);
        reals(n, one, n);
        reals(one, n, n);
        lemma_is_quotient(one, n, n);
        lemma_between_ends(s.beta_min, s.beta_max, s.ladder, pow, betas[0], betas.last());
    }
}

/// A schedule moves evenly: over `a + b` sweeps a straight one rises by what it
/// rises over `a` and over `b`, and a geometric one by the product.
pub proof fn schedule_moves_evenly<T: Scalar, P: Fn(T, T) -> T>(
    s: &Schedule<T>,
    pow: P,
    a: u64,
    b: u64,
    x: T,
    y: T,
    z: T,
)
    requires
        exact_field::<T>(),
        exact_counts::<T>(),
        raises::<T, P>(pow),
        s.sweeps > 1,
        T::of_count((s.sweeps - 1) as u64) != T::zero_value(),
        a + b <= u64::MAX,
        s.is_beta(a, pow, x),
        s.is_beta(b, pow, y),
        s.is_beta((a + b) as u64, pow, z),
    ensures
        s.ladder() is Linear ==> z.sum(s.beta0) == x.sum(y),
        s.ladder() is Geometric ==> z.product(s.beta0) == x.product(y),
{
    let n = T::of_count((s.sweeps - 1) as u64);
    let (ca, cb) = (T::of_count(a), T::of_count(b));
    assert(counts_at::<T>(a, b));
    lemma_quotients(ca, cb, n);
    let (p, q) = (ca.quotient(n), cb.quotient(n));
    let (lo, d) = (s.beta0, s.beta1.difference(s.beta0));
    if s.ladder() is Linear {
        reals(d, p, q);
        let (u, v) = (d.product(p), d.product(q));
        // (lo + (u + v)) + lo = (lo + u) + (lo + v)
        lemma_real_partners(lo, u, lo, v);
        reals(lo, u.sum(v), lo);
        reals(lo, lo, u.sum(v));
        reals(u.sum(v), lo, lo);
    } else {
        let base = s.beta1.quotient(lo);
        let u = choose|u: T| #[trigger] call_ensures(pow, (base, p), u) && x == lo.product(u);
        let v = choose|v: T| #[trigger] call_ensures(pow, (base, q), v) && y == lo.product(v);
        let w = choose|w: T|
            #[trigger] call_ensures(pow, (base, p.sum(q)), w) && z == lo.product(w);
        assert(w == u.product(v));
        // (lo.(u.v)).lo = (lo.u).(lo.v)
        reals(lo, u, v);
        reals(lo.product(u), v, lo);
        reals(v, lo, lo);
        reals(lo.product(u), lo.product(v), lo);
    }
}

/// An accepted share times the attempts is what was accepted; of no attempt
/// the share is none.
pub proof fn share_counts_the_accepted<T: Scalar>(accepts: u64, attempts: u64)
    requires
        exact_field::<T>(),
    ensures
        attempts == 0 ==> SwapStats::<T>::share(accepts, attempts) == T::zero_value(),
        attempts > 0 && T::of_count(attempts) != T::zero_value() ==> SwapStats::<T>::share(
            accepts,
            attempts,
        ).product(T::of_count(attempts)) == T::of_count(accepts),
{
    if attempts > 0 && T::of_count(attempts) != T::zero_value() {
        lemma_quotient(T::of_count(accepts), T::of_count(attempts));
    }
}

/// Spins of the value `v` among the first `n`.
pub open spec fn pointing(s: Seq<i8>, v: int, n: int) -> int
    decreases n,
{
    if n <= 0 {
        0
    } else {
        pointing(s, v, n - 1) + if s[n - 1] == v {
            1int
        } else {
            0
        }
    }
}

proof fn lemma_net_counts(s: Seq<i8>, n: int)
    requires
        spins(s, s.len() as int),
        0 <= n <= s.len(),
    ensures
        net(s, n) == pointing(s, 1, n) - pointing(s, -1, n),
        pointing(s, 1, n) + pointing(s, -1, n) == n,
        pointing(s, 1, n) >= 0,
        pointing(s, -1, n) >= 0,
    decreases n,
{
    if n > 0 {
        lemma_net_counts(s, n - 1);
        assert(s[n - 1] == 1 || s[n - 1] == -1);
    }
}

/// The magnetization times the number of spins is by how many more spins point
/// one way than the other.
pub proof fn magnetization_is_the_surplus<T: Scalar>(s: Seq<i8>)
    requires
        exact_field::<T>(),
        spins(s, s.len() as int),
        s.len() <= u64::MAX,
        T::of_count(s.len() as u64) != T::zero_value(),
    ensures
        ({
            let (up, down) = (pointing(s, 1, s.len() as int), pointing(s, -1, s.len() as int));
            magnetization::<T>(s).product(T::of_count(s.len() as u64)) == T::of_count(
                (if up >= down {
                    up - down
                } else {
                    down - up
                }) as u64,
            )
        }),
{
    lemma_net_counts(s, s.len() as int);
    let sum = net(s, s.len() as int);
    lemma_quotient(
        T::of_count(
            (if sum < 0 {
                -sum
            } else {
                sum
            }) as u64,
        ),
        T::of_count(s.len() as u64),
    );
}

/// Means are means: times the number of states measured they are the sums over
/// the states after burn-in, and where every such state is alike they are its
/// energy and its magnetization.
pub proof fn observables_are_means<T: Scalar>(
    m: &IsingModel<T>,
    path: Seq<Seq<i8>>,
    burn_in: u64,
    measure: u64,
    r: (T, T),
    s: Seq<i8>,
)
    requires
        exact_field::<T>(),
        exact_counts::<T>(),
        T::of_count(measure) != T::zero_value(),
        observed(m, path, burn_in, measure, r),
    ensures
        r.0.product(T::of_count(measure)) == energy_sum(
            m,
            path,
            burn_in as int,
            measure as int,
        ),
        (forall|k: int| 0 < k <= measure ==> #[trigger] path[burn_in + k] == s) ==> r.0
            == m.energy_of(s) && r.1 == magnetization::<T>(s),
{
    let n = T::of_count(measure);
    lemma_quotient(energy_sum(m, path, burn_in as int, measure as int), n);
    if forall|k: int| 0 < k <= measure ==> #[trigger] path[burn_in + k] == s {
        lemma_sums_alike(m, path, burn_in, measure, s, measure);
        lemma_is_quotient(
            m.energy_of(s),
            energy_sum(m, path, burn_in as int, measure as int),
            n,
        );
        lemma_is_quotient(
            magnetization::<T>(s),
            magnet_sum::<T>(path, burn_in as int, measure as int),
            n,
        );
    }
}

proof fn lemma_sums_alike<T: Scalar>(
    m: &IsingModel<T>,
    path: Seq<Seq<i8>>,
    burn_in: u64,
    measure: u64,
    s: Seq<i8>,
    k: u64,
)
    requires
        exact_counts::<T>(),
        k <= measure,
        forall|i: int| 0 < i <= measure ==> #[trigger] path[burn_in + i] == s,
    ensures
        energy_sum(m, path, burn_in as int, k as int) == m.energy_of(s).product(T::of_count(k)),
        magnet_sum::<T>(path, burn_in as int, k as int) == magnetization::<T>(s).product(
            T::of_count(k),
        ),
    decreases k,
{
    let (e, g) = (m.energy_of(s), magnetization::<T>(s));
    reals(e, e, e);
    reals(g, g, g);
    if k > 0 {
        let j = (k - 1) as u64;
        lemma_sums_alike(m, path, burn_in, measure, s, j);
        assert(path[burn_in + k] == s);
        assert(counts_at::<T>(j, 1));
        reals(e, T::of_count(j), T::of_count(1));
        reals(g, T::of_count(j), T::of_count(1));
    }
}

/// The lowest present energy is that of some rung, and none lies below it; so
/// is the best record.
pub proof fn lowest_is_a_minimum<T: Scalar>(t: &Tempering<T>, k: int) -> (at: (int, int))
    requires
        monotone::<T>(),
        1 <= k,
    ensures
        0 <= at.0 < k,
        t.lowest_upto(k) == t.live@[at.0].energy,
        forall|i: int| 0 <= i < k ==> (#[trigger] t.live@[i]).energy.at_least(t.lowest_upto(k)),
        at.1 == t.best_upto(k),
        0 <= at.1 < k,
        forall|i: int|
            0 <= i < k ==> (#[trigger] t.records@[i]).best_energy.at_least(
                t.records@[at.1].best_energy,
            ),
    decreases k,
{
    if k == 1 {
        follows(t.live@[0].energy, t.live@[0].energy, t.live@[0].energy);
        let b = t.records@[0].best_energy;
        follows(b, b, b);
        (0, 0)
    } else {
        let at = lowest_is_a_minimum(t, k - 1);
        let (e, x) = (t.lowest_upto(k - 1), t.live@[k - 1].energy);
        let (b, y) = (t.records@[at.1].best_energy, t.records@[k - 1].best_energy);
        follows(x, e, x);
        follows(e, x, x);
        follows(x, x, x);
        follows(y, b, y);
        follows(b, y, y);
        follows(y, y, y);
        assert forall|i: int| 0 <= i < k implies (#[trigger] t.live@[i]).energy.at_least(
            t.lowest_upto(k),
        ) by {
            if i < k - 1 {
                follows(t.live@[i].energy, e, x);
            }
        }
        let z = t.best_upto(k);
        assert forall|i: int| 0 <= i < k implies (#[trigger] t.records@[i]).best_energy.at_least(
            t.records@[z].best_energy,
        ) by {
            if i < k - 1 {
                follows(t.records@[i].best_energy, b, y);
            }
        }
        (if x.less_than(e) {
            k - 1
        } else {
            at.0
        }, z)
    }
}

/// Twice a reported cut and its energy make up the total weight.
pub proof fn cut_and_energy_make_up_the_weight<T: Scalar>(total: T, energy: T)
    requires
        exact_field::<T>(),
        T::of_count(2) != T::zero_value(),
    ensures
        T::of_count(2).product(cut_at(total, energy)).sum(energy) == total,
{
    lemma_quotient(total.difference(energy), T::of_count(2));
    reals(total, energy, energy);
    reals(total, energy.negative(), energy);
    reals(energy.negative(), energy, energy);
    reals(energy, energy.negative(), energy);
    reals(total, total, total);
}

/// Whole numbers as samples add up as they do.
pub proof fn whole_samples_add_up<T: Scalar>(a: int, b: int)
    requires
        exact_counts::<T>(),
        -0xffff_ffff_ffff_ffff <= a <= 0xffff_ffff_ffff_ffff,
        -0xffff_ffff_ffff_ffff <= b <= 0xffff_ffff_ffff_ffff,
        -0xffff_ffff_ffff_ffff <= a + b <= 0xffff_ffff_ffff_ffff,
    ensures
        whole::<T>(a + b) == whole::<T>(a).sum(whole::<T>(b)),
        whole::<T>(1) == T::of_count(1),
{
    let (x, y, z) = (whole::<T>(a), whole::<T>(b), whole::<T>(a + b));
    lemma_opposites(x, y);
    if a >= 0 && b >= 0 {
        assert(counts_at::<T>(a as u64, b as u64));
    } else if a < 0 && b < 0 {
        assert(counts_at::<T>((-a) as u64, (-b) as u64));
        lemma_opposites(T::of_count((-a) as u64), T::of_count((-b) as u64));
    } else if a >= 0 {
        lemma_whole_mixed::<T>(a, -b);
    } else {
        lemma_whole_mixed::<T>(b, -a);
        reals(x, y, x);
    }
}

proof fn lemma_whole_mixed<T: Scalar>(a: int, b: int)
    requires
        exact_counts::<T>(),
        0 <= a <= 0xffff_ffff_ffff_ffff,
        0 < b <= 0xffff_ffff_ffff_ffff,
    ensures
        whole::<T>(a - b) == whole::<T>(a).sum(whole::<T>(-b)),
{
    let (p, q) = (T::of_count(a as u64), T::of_count(b as u64));
    if a >= b {
        let d = T::of_count((a - b) as u64);
        assert(counts_at::<T>((a - b) as u64, b as u64));
        // d + q = p
        reals(d, q, q.negative());
        reals(q, q, q);
        reals(d, d, d);
    } else {
        let d = T::of_count((b - a) as u64);
        assert(counts_at::<T>((b - a) as u64, a as u64));
        // d + p = q, so p - q = -d
        lemma_opposites(d, p);
        reals(p, d.negative(), p.negative());
        reals(d.negative(), p.negative(), p);
        reals(p, p.negative(), d.negative());
        lemma_opposites(d.negative(), p);
    }
}

/// Neighbours take turns: of two rounds in a row, each pair of rungs is tried
/// in one, and no rung is in two pairs of a round.
pub proof fn pairs_take_turns(round: u64, rungs: int, k: int)
    requires
        round < u64::MAX,
        0 <= k,
        k + 1 < rungs,
    ensures
        pair_attempted(round, rungs, k) != pair_attempted((round + 1) as u64, rungs, k),
        !(pair_attempted(round, rungs, k) && pair_attempted(round, rungs, k + 1)),
        pairs_before(round, rungs, rungs) + pairs_before((round + 1) as u64, rungs, rungs) == rungs
            - 1,
{
    lemma_pairs_in_two_rounds(round, rungs, rungs);
}

proof fn lemma_pairs_in_two_rounds(round: u64, rungs: int, k: int)
    requires
        round < u64::MAX,
        0 <= k <= rungs,
        1 <= rungs,
    ensures
        pairs_before(round, rungs, k) + pairs_before((round + 1) as u64, rungs, k) == if k < rungs {
            k
        } else {
            rungs - 1
        },
    decreases k,
{
    if k > 0 {
        lemma_pairs_in_two_rounds(round, rungs, k - 1);
    }
}

/// A round exchanges replicas and loses none: each comes to rest on a rung of
/// its own, the rungs of an accepted pair trade theirs, and every other rung
/// keeps its own.
pub proof fn rounds_exchange_replicas<T>(live: Seq<Live<T>>, acc: Seq<bool>, round: u64, k: int)
    requires
        0 <= k < live.len(),
    ensures
        ({
            let n = live.len() as int;
            let after = Seq::new(live.len(), |i: int| exchanged(live, acc, round, n, i));
            &&& exchanged(after, acc, round, n, k) == live[k]
            &&& pair_attempted(round, n, k) && acc[k] ==> after[k] == live[k + 1] && after[k + 1]
                == live[k]
            &&& !(pair_attempted(round, n, k) && acc[k]) && !(pair_attempted(round, n, k - 1)
                && acc[k - 1]) ==> after[k] == live[k]
        }),
{
}

/// The counts of a ladder add up rung by rung: where every rung of a run has
/// the counts of two others together, so has the whole ladder.
pub proof fn ledgers_add_up<T: Scalar>(
    t: &Tempering<T>,
    u: &Tempering<T>,
    v: &Tempering<T>,
    k: int,
)
    requires
        forall|i: int|
            #![trigger v.records@[i]]
            0 <= i < k ==> {
                let (a, b) = (t.records@[i].ledger, u.records@[i].ledger);
                let c = v.records@[i].ledger;
                &&& c.spin_updates == a.spin_updates + b.spin_updates
                &&& c.flips == a.flips + b.flips
                &&& c.sweeps == a.sweeps + b.sweeps
            },
    ensures
        v.merged_upto(k).0 == t.merged_upto(k).0 + u.merged_upto(k).0,
        v.merged_upto(k).1 == t.merged_upto(k).1 + u.merged_upto(k).1,
        v.merged_upto(k).2 == t.merged_upto(k).2 + u.merged_upto(k).2,
    decreases k,
{
    if k > 0 {
        ledgers_add_up(t, u, v, k - 1);
    }
}

/// Rungs that did nothing count for nothing: where one rung alone has run, the
/// counts of the ladder are its own.
pub proof fn idle_rungs_count_nothing<T: Scalar>(t: &Tempering<T>, j: int, k: int)
    requires
        0 <= j < k,
        forall|i: int|
            #![trigger t.records@[i]]
            0 <= i < k && i != j ==> t.records@[i].ledger == (SpinLedger {
                spin_updates: 0,
                flips: 0,
                sweeps: 0,
            }),
    ensures
        ({
            let l = t.records@[j].ledger;
            t.merged_upto(k) == (l.spin_updates as int, l.flips as int, l.sweeps as int)
        }),
    decreases k,
{
    if k - 1 > j {
        idle_rungs_count_nothing(t, j, k - 1);
    } else {
        lemma_idle_rungs(t, j);
    }
}

proof fn lemma_idle_rungs<T: Scalar>(t: &Tempering<T>, k: int)
    requires
        0 <= k,
        forall|i: int|
            #![trigger t.records@[i]]
            0 <= i < k ==> t.records@[i].ledger == (SpinLedger {
                spin_updates: 0,
                flips: 0,
                sweeps: 0,
            }),
    ensures
        t.merged_upto(k) == (0int, 0int, 0int),
    decreases k,
{
    if k > 0 {
        lemma_idle_rungs(t, k - 1);
    }
}

} // verus!
