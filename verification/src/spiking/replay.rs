//! Reproducible runs: arrivals that leave nothing open give one run.

use crate::scalar::Scalar;
use crate::spiking::network::Network;
use crate::spiking::run::{arrives_at, drawn_at, is_run, lemma_totals_by_view, run_at, Sim};
use vstd::prelude::*;

verus! {

/// `arrivals` gives one number for a step and a neuron.
pub open spec fn settled<A: Fn(usize, usize) -> u64>(arrivals: A) -> bool {
    forall|k: usize, i: usize, a: u64, b: u64|
        #[trigger] call_ensures(arrivals, (k, i), a) && #[trigger] call_ensures(
            arrivals,
            (k, i),
            b,
        ) ==> a == b
}

/// Two simulations are in the same state.
pub open spec fn same_state<T: Scalar>(net: &Network<T>, a: &Sim<T>, b: &Sim<T>) -> bool {
    &&& a.step == b.step
    &&& a.v@ == b.v@
    &&& a.refr@ == b.refr@
    &&& a.ring@ == b.ring@
    &&& a.trains@.len() == net.n
    &&& b.trains@.len() == net.n
    &&& forall|i: int| 0 <= i < net.n ==> (#[trigger] a.trains@[i])@ == b.trains@[i]@
}

proof fn lemma_pushed_alike<T: Scalar>(
    net: &Network<T>,
    a: &Sim<T>,
    b: &Sim<T>,
    row: Seq<u64>,
    i: int,
)
    requires
        same_state(net, a, b),
    ensures
        net.fires(a, row, i) == net.fires(b, row, i),
        net.v_next(a, row, i) == net.v_next(b, row, i),
        net.refr_next(a, row, i) == net.refr_next(b, row, i),
{
    assert(net.pushed(a, row, i) == net.pushed(b, row, i));
}

proof fn lemma_deposited_alike<T: Scalar>(
    net: &Network<T>,
    a: &Sim<T>,
    b: &Sim<T>,
    row: Seq<u64>,
    e: int,
)
    requires
        same_state(net, a, b),
    ensures
        net.deposited(a, row, e) == net.deposited(b, row, e),
    decreases e,
{
    if e <= 0 {
        assert(net.consumed(a) =~= net.consumed(b));
    } else {
        lemma_deposited_alike(net, a, b, row, e - 1);
        lemma_pushed_alike(net, a, b, row, net.out@[e - 1].pre as int);
    }
}

proof fn lemma_step_to_same<T: Scalar>(
    net: &Network<T>,
    row: Seq<u64>,
    a: &Sim<T>,
    b: &Sim<T>,
    c: &Sim<T>,
    d: &Sim<T>,
)
    requires
        same_state(net, a, c),
        net.steps_to(a, row, b),
        net.steps_to(c, row, d),
    ensures
        same_state(net, b, d),
{
    assert forall|i: int| 0 <= i < net.n implies b.v@[i] == d.v@[i] && b.refr@[i] == d.refr@[i]
        && (#[trigger] b.trains@[i])@ == d.trains@[i]@ by {
        lemma_pushed_alike(net, a, c, row, i);
        assert(a.trains@[i]@ == c.trains@[i]@);
    }
    assert(b.v@ =~= d.v@);
    assert(b.refr@ =~= d.refr@);
    lemma_deposited_alike(net, a, c, row, net.out@.len() as int);
}

proof fn lemma_way_alike<T: Scalar, A: Fn(usize, usize) -> u64>(
    net: &Network<T>,
    arrivals: A,
    rows: (Seq<Vec<u64>>, Seq<Vec<u64>>),
    a: Seq<Sim<T>>,
    b: Seq<Sim<T>>,
    k: int,
)
    requires
        settled(arrivals),
        is_run(net, rows.0, a),
        is_run(net, rows.1, b),
        rows.0.len() == rows.1.len(),
        forall|j: int| 0 <= j < rows.0.len() ==> #[trigger] drawn_at(net, arrivals, rows.0, a, j),
        forall|j: int| 0 <= j < rows.1.len() ==> #[trigger] drawn_at(net, arrivals, rows.1, b, j),
        0 <= k <= rows.0.len(),
    ensures
        same_state(net, &a[k], &b[k]),
    decreases k,
{
    if k == 0 {
        assert forall|i: int| 0 <= i < net.n implies (#[trigger] a[0].trains@[i])@
            == b[0].trains@[i]@ by {
            assert(b[0].trains@[i]@.len() == 0);
            assert(a[0].trains@[i]@ =~= b[0].trains@[i]@);
        }
    } else {
        let j = k - 1;
        lemma_way_alike(net, arrivals, rows, a, b, j);
        assert(drawn_at(net, arrivals, rows.0, a, j) && drawn_at(net, arrivals, rows.1, b, j));
        let (x, y) = (rows.0[j]@, rows.1[j]@);
        assert forall|i: int| 0 <= i < net.n implies x[i] == y[i] by {
            assert(arrives_at(net, &a[j], arrivals, x, i));
            assert(arrives_at(net, &b[j], arrivals, y, i));
        }
        assert(x =~= y);
        assert(run_at(net, rows.0, a, j) && run_at(net, rows.1, b, j));
        lemma_step_to_same(net, x, &a[j], &a[k], &b[j], &b[k]);
    }
}

/// A run is reproducible: of one network, over as many steps, with arrivals
/// that leave nothing open, two runs end in the same membranes, spike trains
/// and counts.
pub proof fn runs_are_reproducible<T: Scalar, A: Fn(usize, usize) -> u64>(
    net: &Network<T>,
    arrivals: A,
    rows: (Seq<Vec<u64>>, Seq<Vec<u64>>),
    a: Seq<Sim<T>>,
    b: Seq<Sim<T>>,
)
    requires
        settled(arrivals),
        is_run(net, rows.0, a),
        is_run(net, rows.1, b),
        rows.0.len() == rows.1.len(),
        forall|j: int| 0 <= j < rows.0.len() ==> #[trigger] drawn_at(net, arrivals, rows.0, a, j),
        forall|j: int| 0 <= j < rows.1.len() ==> #[trigger] drawn_at(net, arrivals, rows.1, b, j),
        net.tracks(&a.last()),
        net.tracks(&b.last()),
    ensures
        same_state(net, &a.last(), &b.last()),
        a.last().spikes == b.last().spikes,
        a.last().sops == b.last().sops,
{
    let k = rows.0.len() as int;
    lemma_way_alike(net, arrivals, rows, a, b, k);
    lemma_totals_by_view(net, a[k].trains@, b[k].trains@, net.n as int);
}

} // verus!
