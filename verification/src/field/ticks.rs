//! What a field run tells of its progress: about every hundredth of the way,
//! and at the end, the steps taken and what the first probe saw last.

use crate::field::run::{report_due, tick_of};
use vstd::prelude::*;

verus! {

/// Which run of a job it is.
#[derive(Debug, Clone, Copy, PartialEq, Eq, Structural)]
pub enum Part {
    /// The only run.
    Whole,
    /// The reference run of an extraction.
    Reference,
    /// The device run of an extraction.
    Device,
}

/// One report.
#[derive(Debug, Clone, Copy, PartialEq)]
pub struct Tick<T> {
    pub part: Part,
    /// Steps taken.
    pub done: usize,
    /// What the first probe saw last.
    pub seen: T,
}

/// The reports of the first `k` steps of a run of `steps` steps, whose probe
/// saw `trace`.
pub open spec fn ticks_to<T>(part: Part, trace: Seq<T>, steps: int, k: int) -> Seq<Tick<T>>
    decreases k,
{
    if k <= 0 {
        Seq::empty()
    } else if report_due(k, steps) {
        ticks_to(part, trace, steps, k - 1).push(
            Tick { part, done: k as usize, seen: trace[k - 1] },
        )
    } else {
        ticks_to(part, trace, steps, k - 1)
    }
}

/// The reports of a run whose probe saw `trace`, one sample per step.
pub open spec fn ticks<T>(part: Part, trace: Seq<T>) -> Seq<Tick<T>> {
    ticks_to(part, trace, trace.len() as int, trace.len() as int)
}

/// Reports depend on the samples so far alone.
pub proof fn lemma_ticks_alike<T>(part: Part, a: Seq<T>, b: Seq<T>, steps: int, k: int)
    requires
        forall|m: int| 0 <= m < k ==> a[m] == b[m],
    ensures
        ticks_to(part, a, steps, k) == ticks_to(part, b, steps, k),
    decreases k,
{
    if k > 0 {
        lemma_ticks_alike(part, a, b, steps, k - 1);
    }
}

/// A run of at least one step reports once per hundredth of the way, rounded
/// up; its last report is that of its last step.
pub proof fn reports_come_by_the_hundredth<T>(part: Part, trace: Seq<T>)
    requires
        0 < trace.len() <= usize::MAX,
    ensures
        ({
            let (n, t) = (trace.len() as int, tick_of(trace.len() as int));
            &&& ticks(part, trace).len() == (n + t - 1) / t
            &&& ticks(part, trace).last() == (Tick { part, done: n as usize, seen: trace.last() })
        }),
{
    let n = trace.len() as int;
    let t = tick_of(n);
    lemma_ticks_count(part, trace, n, n - 1);
    assert((n - 1) / t + 1 == (n + t - 1) / t) by {
        vstd::arithmetic::div_mod::lemma_div_plus_one(n - 1, t);
        assert(t + (n - 1) == n + t - 1);
    }
}

proof fn lemma_ticks_count<T>(part: Part, trace: Seq<T>, steps: int, k: int)
    requires
        0 <= k < steps,
    ensures
        ticks_to(part, trace, steps, k).len() == k / tick_of(steps),
    decreases k,
{
    let t = tick_of(steps);
    if k > 0 {
        lemma_ticks_count(part, trace, steps, k - 1);
        vstd::arithmetic::div_mod::lemma_fundamental_div_mod(k - 1, t);
        let (q, r) = ((k - 1) / t, (k - 1) % t);
        assert(t * q == q * t) by (nonlinear_arith);
        assert(t * (q + 1) == t * q + t) by (nonlinear_arith);
        if r + 1 == t {
            vstd::arithmetic::div_mod::lemma_fundamental_div_mod_converse(k, t, q + 1, 0);
        } else {
            vstd::arithmetic::div_mod::lemma_fundamental_div_mod_converse(k, t, q, r + 1);
        }
    } else {
        assert(0int / t == 0) by (nonlinear_arith)
            requires
                t > 0,
        ;
    }
}

} // verus!
