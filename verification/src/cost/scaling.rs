//! Energy and time add up: over the invocations of a primitive, over the parts
//! of a workload, over substrates and over operations.
//!
//! The laws are ones of exact arithmetic.

use crate::cost::catalog::Primitive;
use crate::cost::dialects::{Cost, Physics};
use crate::cost::dispatch::{assigned, baseline_joules_of, baseline_seconds_of, joules_of};
use crate::cost::dispatch::{seconds_of, share, slot_of, Assignment, Constraints, Dialect};
use crate::cost::dispatch::{DispatchSummary, Invocation, Justification};
use crate::exact::{counts_at, exact_counts, exact_field, exact_reals, follows, lemma_opposites};
use crate::exact::{lemma_quotient, lemma_spread, monotone, reals};
use crate::scalar::{lemma_running_push, running, Scalar};
use vstd::prelude::*;

verus! {

/// Totals are linear in the count: a + b invocations take the energy and the
/// time of a and of b together, one takes what it takes, none takes nothing.
pub proof fn totals_are_linear<T: Scalar>(c: Cost<T>, a: u64, b: u64)
    requires
        exact_counts::<T>(),
        a + b <= u64::MAX,
    ensures
        c.joules_for((a + b) as u64) == c.joules_for(a).sum(c.joules_for(b)),
        c.joules_for(1) == c.joules_per_op,
        c.joules_for(0) == T::zero_value(),
        c.seconds_for((a + b) as u64) == c.seconds_for(a).sum(c.seconds_for(b)),
        c.seconds_for(1) == c.seconds_per_op,
        c.seconds_for(0) == T::zero_value(),
{
    assert(counts_at::<T>(a, b));
    reals(c.joules_per_op, T::of_count(a), T::of_count(b));
    reals(c.seconds_per_op, T::of_count(a), T::of_count(b));
}

/// An invocation may be split: the parts, sent where the whole would go, take
/// its energy and its time together, there and on the baseline.
pub proof fn splitting_an_invocation<T: Scalar>(
    ds: Seq<Dialect<T>>,
    ph: Physics<T>,
    p: Primitive,
    whole: Invocation<T>,
    part: Invocation<T>,
    rest: Invocation<T>,
    base: int,
    k: int,
    w: Assignment<T>,
    x: Assignment<T>,
    y: Assignment<T>,
)
    requires
        exact_counts::<T>(),
        whole.count == part.count + rest.count,
        part.profile == whole.profile,
        rest.profile == whole.profile,
        assigned(ds, ph, p, whole, base, k, w),
        assigned(ds, ph, p, part, base, k, x),
        assigned(ds, ph, p, rest, base, k, y),
    ensures
        w.chosen_joules_total == x.chosen_joules_total.sum(y.chosen_joules_total),
        w.chosen_seconds_total == x.chosen_seconds_total.sum(y.chosen_seconds_total),
        w.baseline_joules_total == x.baseline_joules_total.sum(y.baseline_joules_total),
{
    totals_are_linear(w.chosen_cost, part.count, rest.count);
    totals_are_linear(w.baseline_cost, part.count, rest.count);
}

/// The sum of two lists is the sum of the lists' sums.
pub proof fn lemma_running_joined<T: Scalar>(a: Seq<T>, b: Seq<T>)
    requires
        exact_reals::<T>(),
    ensures
        running(a + b) == running(a).sum(running(b)),
    decreases b.len(),
{
    if b.len() == 0 {
        assert(a + b =~= a);
        reals(running(a), running(a), running(a));
    } else {
        lemma_running_joined(a, b.drop_last());
        assert((a + b).drop_last() =~= a + b.drop_last());
        reals(running(a), running(b.drop_last()), b.last());
    }
}

/// Workloads add up: the plan of two lists of assignments has the totals of
/// both plans together.
pub proof fn plans_add_up<T: Scalar>(
    c: Constraints<T>,
    ds: Seq<Dialect<T>>,
    a: Seq<Assignment<T>>,
    b: Seq<Assignment<T>>,
    ph: Physics<T>,
    goal: Seq<char>,
    ra: DispatchSummary<T>,
    rb: DispatchSummary<T>,
    both: DispatchSummary<T>,
)
    requires
        exact_reals::<T>(),
        ra.sums_up(goal, c, ds, a, ph),
        rb.sums_up(goal, c, ds, b, ph),
        both.sums_up(goal, c, ds, a + b, ph),
    ensures
        both.total_joules == ra.total_joules.sum(rb.total_joules),
        both.total_seconds == ra.total_seconds.sum(rb.total_seconds),
        both.baseline_total_joules == ra.baseline_total_joules.sum(rb.baseline_total_joules),
        both.baseline_total_seconds == ra.baseline_total_seconds.sum(rb.baseline_total_seconds),
        both.power_w == ra.power_w.sum(rb.power_w),
        both.baseline_power_w == ra.baseline_power_w.sum(rb.baseline_power_w),
        both.invocations_processed == ra.invocations_processed + rb.invocations_processed,
{
    assert(joules_of(a + b) =~= joules_of(a) + joules_of(b));
    assert(seconds_of(a + b) =~= seconds_of(a) + seconds_of(b));
    assert(baseline_joules_of(a + b) =~= baseline_joules_of(a) + baseline_joules_of(b));
    assert(baseline_seconds_of(a + b) =~= baseline_seconds_of(a) + baseline_seconds_of(b));
    lemma_running_joined(joules_of(a), joules_of(b));
    lemma_running_joined(seconds_of(a), seconds_of(b));
    lemma_running_joined(baseline_joules_of(a), baseline_joules_of(b));
    lemma_running_joined(baseline_seconds_of(a), baseline_seconds_of(b));
    let rate = if c.cycles_per_second.at_least(ph.least_rate) {
        c.cycles_per_second
    } else {
        ph.least_rate
    };
    lemma_spread(ra.total_joules, rb.total_joules, rate);
    lemma_spread(ra.baseline_total_joules, rb.baseline_total_joules, rate);
}

/// A plan of one assignment has that assignment's totals, and a plan of none
/// has none.
pub proof fn plan_of_one<T: Scalar>(
    c: Constraints<T>,
    ds: Seq<Dialect<T>>,
    a: Assignment<T>,
    ph: Physics<T>,
    goal: Seq<char>,
    none: DispatchSummary<T>,
    one: DispatchSummary<T>,
)
    requires
        exact_reals::<T>(),
        none.sums_up(goal, c, ds, Seq::empty(), ph),
        one.sums_up(goal, c, ds, seq![a], ph),
    ensures
        none.total_joules == T::zero_value(),
        none.total_seconds == T::zero_value(),
        none.power_w == T::zero_value(),
        one.total_joules == a.chosen_joules_total,
        one.total_seconds == a.chosen_seconds_total,
        one.baseline_total_joules == a.baseline_joules_total,
        one.baseline_total_seconds == a.baseline_cost.seconds_for(a.count),
{
    let e = Seq::<Assignment<T>>::empty();
    assert(joules_of(e) =~= Seq::<T>::empty());
    assert(seconds_of(e) =~= Seq::<T>::empty());
    let s = seq![a];
    assert(joules_of(s) =~= Seq::<T>::empty().push(a.chosen_joules_total));
    assert(seconds_of(s) =~= Seq::<T>::empty().push(a.chosen_seconds_total));
    assert(baseline_joules_of(s) =~= Seq::<T>::empty().push(a.baseline_joules_total));
    let b = a.baseline_cost.seconds_for(a.count);
    assert(baseline_seconds_of(s) =~= Seq::<T>::empty().push(b));
    lemma_running_push(Seq::<T>::empty(), b);
    lemma_opposites(b, b);
    lemma_running_push(Seq::<T>::empty(), a.chosen_joules_total);
    lemma_running_push(Seq::<T>::empty(), a.chosen_seconds_total);
    lemma_running_push(Seq::<T>::empty(), a.baseline_joules_total);
    lemma_opposites(a.chosen_joules_total, a.chosen_seconds_total);
    lemma_opposites(a.chosen_seconds_total, a.chosen_joules_total);
    lemma_opposites(a.baseline_joules_total, a.chosen_joules_total);
    lemma_opposites(c.cycles_per_second, c.cycles_per_second);
    lemma_opposites(ph.least_rate, ph.least_rate);
}

/// Power is energy per time: at the rate of two rates together a plan takes the
/// power of both together.
pub proof fn power_follows_the_rate<T: Scalar>(
    c: Constraints<T>,
    d: Constraints<T>,
    e: Constraints<T>,
    ds: Seq<Dialect<T>>,
    a: Seq<Assignment<T>>,
    ph: Physics<T>,
    goal: Seq<char>,
    rc: DispatchSummary<T>,
    rd: DispatchSummary<T>,
    re: DispatchSummary<T>,
)
    requires
        exact_reals::<T>(),
        c.cycles_per_second.at_least(ph.least_rate),
        d.cycles_per_second.at_least(ph.least_rate),
        e.cycles_per_second.at_least(ph.least_rate),
        e.cycles_per_second == c.cycles_per_second.sum(d.cycles_per_second),
        rc.sums_up(goal, c, ds, a, ph),
        rd.sums_up(goal, d, ds, a, ph),
        re.sums_up(goal, e, ds, a, ph),
    ensures
        re.power_w == rc.power_w.sum(rd.power_w),
        re.baseline_power_w == rc.baseline_power_w.sum(rd.baseline_power_w),
        c.cycles_per_second == T::of_count(1) ==> rc.power_w == rc.total_joules
            && rc.baseline_power_w == rc.baseline_total_joules,
{
    reals(rc.total_joules, c.cycles_per_second, d.cycles_per_second);
    reals(rc.baseline_total_joules, c.cycles_per_second, d.cycles_per_second);
}

/// The saving times the energy spent is the energy of the baseline.
pub proof fn saving_restores_the_baseline<T: Scalar>(
    c: Constraints<T>,
    ds: Seq<Dialect<T>>,
    a: Seq<Assignment<T>>,
    ph: Physics<T>,
    goal: Seq<char>,
    r: DispatchSummary<T>,
)
    requires
        exact_field::<T>(),
        r.sums_up(goal, c, ds, a, ph),
        T::zero_value().less_than(r.total_joules),
        r.total_joules != T::zero_value(),
    ensures
        r.savings_factor.product(r.total_joules) == r.baseline_total_joules,
{
    lemma_quotient(r.baseline_total_joules, r.total_joules);
}

/// A rate below the least one is taken at the least one.
pub proof fn slow_rates_count_as_the_least<T: Scalar>(
    c: Constraints<T>,
    d: Constraints<T>,
    ds: Seq<Dialect<T>>,
    a: Seq<Assignment<T>>,
    ph: Physics<T>,
    goal: Seq<char>,
    rc: DispatchSummary<T>,
    rd: DispatchSummary<T>,
)
    requires
        ph.least_rate.at_least(ph.least_rate),
        !c.cycles_per_second.at_least(ph.least_rate),
        d.cycles_per_second == ph.least_rate,
        rc.sums_up(goal, c, ds, a, ph),
        rd.sums_up(goal, d, ds, a, ph),
    ensures
        rc.power_w == rd.power_w,
        rc.baseline_power_w == rd.baseline_power_w,
{
}

/// The reason that an assignment elsewhere gives holds: the factor times what it
/// spends is what the baseline would.
pub proof fn reasons_hold<T: Scalar>(
    ds: Seq<Dialect<T>>,
    ph: Physics<T>,
    p: Primitive,
    inv: Invocation<T>,
    base: int,
    k: int,
    a: Assignment<T>,
    here: T,
    there: T,
    factor: T,
)
    requires
        exact_field::<T>(),
        assigned(ds, ph, p, inv, base, k, a),
        a.justification == Justification::Cheaper(here, there, Some(factor)),
        a.chosen_joules_total != T::zero_value(),
    ensures
        factor.product(a.chosen_joules_total) == a.baseline_joules_total,
        here == a.chosen_cost.joules_per_op,
        there == a.baseline_cost.joules_per_op,
        k != base,
{
    lemma_quotient(a.baseline_joules_total, a.chosen_joules_total);
}

/// A plan is over its budget exactly where the budget is less than its power.
pub proof fn budget_is_kept<T: Scalar>(
    c: Constraints<T>,
    ds: Seq<Dialect<T>>,
    a: Seq<Assignment<T>>,
    ph: Physics<T>,
    goal: Seq<char>,
    r: DispatchSummary<T>,
)
    requires
        monotone::<T>(),
        r.sums_up(goal, c, ds, a, ph),
    ensures
        !r.within_budget <==> c.power_budget_w.less_than(r.power_w),
        c.power_budget_w == r.power_w ==> r.within_budget,
{
    follows(c.power_budget_w, r.power_w, r.power_w);
}

/// Energy of the first `n` shares together.
pub open spec fn shared_joules<T: Scalar>(
    names: Seq<Seq<char>>,
    a: Seq<Assignment<T>>,
    n: int,
) -> T
    decreases n,
{
    if n <= 0 {
        T::zero_value()
    } else {
        shared_joules(names, a, n - 1).sum(running(joules_of(share(names, a, n - 1))))
    }
}

proof fn lemma_joules_shared<T: Scalar>(
    names: Seq<Seq<char>>,
    a: Seq<Assignment<T>>,
    x: Assignment<T>,
    slot: int,
    n: int,
)
    requires
        exact_reals::<T>(),
        slot_of(names, x.chosen_substrate@, slot),
    ensures
        shared_joules(names, a.push(x), n) == (if slot < n {
            shared_joules(names, a, n).sum(x.chosen_joules_total)
        } else {
            shared_joules(names, a, n)
        }),
    decreases n,
{
    reveal(Seq::filter);
    if n > 0 {
        lemma_joules_shared(names, a, x, slot, n - 1);
        let before = share(names, a, n - 1);
        assert(a.push(x).drop_last() =~= a);
        let (u, v) = (shared_joules(names, a, n - 1), running(joules_of(before)));
        if n - 1 == slot {
            assert(share(names, a.push(x), n - 1) =~= before.push(x));
            assert(joules_of(before.push(x)) =~= joules_of(before).push(x.chosen_joules_total));
            lemma_running_push(joules_of(before), x.chosen_joules_total);
            reals(u, v, x.chosen_joules_total);
        } else {
            assert(!slot_of(names, x.chosen_substrate@, n - 1));
            assert(share(names, a.push(x), n - 1) =~= before);
            reals(u, x.chosen_joules_total, v);
            reals(x.chosen_joules_total, v, u);
            reals(u, v, x.chosen_joules_total);
        }
    }
}

/// Energy is conserved: where every assignment names a registered substrate,
/// the energies of the substrates add up to the energy of all assignments.
pub proof fn energy_is_conserved<T: Scalar>(names: Seq<Seq<char>>, a: Seq<Assignment<T>>)
    requires
        exact_reals::<T>(),
        forall|i: int|
            0 <= i < a.len() ==> exists|k: int|
                slot_of(names, (#[trigger] a[i]).chosen_substrate@, k),
    ensures
        shared_joules(names, a, names.len() as int) == running(joules_of(a)),
    decreases a.len(),
{
    if a.len() == 0 {
        lemma_no_joules(names, a, names.len() as int);
        assert(joules_of(a) =~= Seq::<T>::empty());
    } else {
        let rest = a.drop_last();
        assert forall|i: int| 0 <= i < rest.len() implies exists|k: int|
            slot_of(names, (#[trigger] rest[i]).chosen_substrate@, k) by {
            assert(a[i] == rest[i]);
        }
        energy_is_conserved(names, rest);
        let x = a[a.len() - 1];
        let slot = choose|k: int| slot_of(names, x.chosen_substrate@, k);
        lemma_joules_shared(names, rest, x, slot, names.len() as int);
        assert(rest.push(x) =~= a);
        assert(joules_of(a) =~= joules_of(rest).push(x.chosen_joules_total));
        lemma_running_push(joules_of(rest), x.chosen_joules_total);
    }
}

proof fn lemma_no_joules<T: Scalar>(names: Seq<Seq<char>>, a: Seq<Assignment<T>>, n: int)
    requires
        exact_reals::<T>(),
        a.len() == 0,
    ensures
        shared_joules(names, a, n) == T::zero_value(),
    decreases n,
{
    reveal(Seq::filter);
    if n > 0 {
        lemma_no_joules(names, a, n - 1);
        assert(joules_of(share(names, a, n - 1)) =~= Seq::<T>::empty());
        reals(T::zero_value(), T::zero_value(), T::zero_value());
    }
}

} // verus!
