//! Max-Cut as Ising minimization: with zero fields and couplings `J = -w`, the
//! energy of an assignment is the total weight less twice its cut.

use crate::field::lattice::filled;
use crate::scalar::Scalar;
use crate::sorting::{lemma_runs_follow, sorting_rearranges, stably_sorted};
use crate::sparse::row_holds_own_entries;
use crate::sparse::Entry;
use crate::stochastic::graphs::{Edge, Graph};
use crate::stochastic::ising::IsingModel;
use crate::stochastic::ising::{both_ways, spin_value};
use crate::stochastic::maxcut::{cut_of, spins, weight_of};
use vstd::prelude::*;
use vstd::seq_lib::lemma_fold_left_permutation;

verus! {

/// The couplings of a graph's edges.
pub open spec fn couplings(edges: Seq<Edge>) -> Seq<(u32, u32, i64)> {
    edges.map_values(|e: Edge| (e.0, e.1, (-(e.2 as int)) as i64))
}

/// Whether the energies of a graph's model stay exact: there are
/// fewer than 2^31 - 1 edges.
pub open spec fn countable(edges: Seq<Edge>) -> bool {
    edges.len() < 0x7fff_ffff
}

/// Converts a graph into the equivalent Ising minimization.
pub fn to_ising(g: &Graph) -> (m: IsingModel<i64>)
    requires
        g.wf(),
        g.n < usize::MAX,
        forall|e: int| 0 <= e < g.edges@.len() ==> (#[trigger] g.edges@[e]).0 != g.edges@[e].1,
    ensures
        m.wf(),
        m.n == g.n,
        m.h@ == Seq::new(g.n as nat, |i: int| 0i64),
        stably_sorted(
            both_ways(couplings(g.edges@), g.edges@.len() as int),
            m.j.entries@,
        ),
{
    let mut edges: Vec<(u32, u32, i64)> = Vec::new();
    let mut e: usize = 0;
    while e < g.edges.len()
        invariant
            e <= g.edges@.len(),
            edges@.len() == e,
            forall|k: int| 0 <= k < e ==> #[trigger] edges@[k] == couplings(g.edges@)[k],
        decreases g.edges@.len() - e,
    {
        let (i, j, w) = g.edges[e];
        edges.push((i, j, -(w as i64)));
        e += 1;
    }
    assert(edges@ =~= couplings(g.edges@));
    proof {
        assert forall|k: int| 0 <= k < edges@.len() implies {
            &&& (#[trigger] edges@[k]).0 < g.n
            &&& edges@[k].1 < g.n
            &&& edges@[k].0 != edges@[k].1
        } by {
            assert(g.edges@[k].0 != g.edges@[k].1);
        }
    }
    IsingModel::new(filled(0i64, g.n), &edges)
}

/// What an entry adds to the coupling sum: entries right of the diagonal count.
spec fn upper(x: Entry<i64>, s: Seq<i8>) -> int {
    if x.col > x.row {
        x.value * s[x.row as int] * s[x.col as int]
    } else {
        0
    }
}

spec fn adder(s: Seq<i8>) -> spec_fn(int, Entry<i64>) -> int {
    |acc: int, x: Entry<i64>| acc + upper(x, s)
}

spec fn coupling_sum(entries: Seq<Entry<i64>>, s: Seq<i8>) -> int {
    entries.fold_left(0int, adder(s))
}

proof fn lemma_sum_push(t: Seq<Entry<i64>>, x: Entry<i64>, s: Seq<i8>)
    ensures
        coupling_sum(t.push(x), s) == coupling_sum(t, s) + upper(x, s),
{
    assert(t.push(x).drop_last() =~= t);
    assert(t.push(x).fold_left(0int, adder(s)) == adder(s)(
        t.push(x).drop_last().fold_left(0int, adder(s)),
        t.push(x).last(),
    ));
}

proof fn lemma_sum_rearranged(a: Seq<Entry<i64>>, b: Seq<Entry<i64>>, s: Seq<i8>)
    requires
        stably_sorted(a, b),
    ensures
        coupling_sum(a, s) == coupling_sum(b, s),
{
    sorting_rearranges(a, b);
    let f = adder(s);
    assert forall|x: Entry<i64>, y: Entry<i64>, v: int| #[trigger] f(f(v, x), y) == f(f(v, y), x) by {
    }
    lemma_fold_left_permutation(a, b, f, 0int);
}

/// Each edge is counted once, from its lower to its higher end.
proof fn lemma_both_ways_sum(edges: Seq<Edge>, n: int, s: Seq<i8>, k: int)
    requires
        0 <= k <= edges.len(),
        spins(s, n),
        forall|e: int|
            0 <= e < edges.len() ==> {
                &&& (#[trigger] edges[e]).0 < n
                &&& edges[e].1 < n
                &&& edges[e].0 != edges[e].1
            },
    ensures
        coupling_sum(both_ways(couplings(edges), k), s) == 2 * cut_of(edges.take(k), s)
            - weight_of(edges.take(k)),
    decreases k,
{
    let c = couplings(edges);
    if k > 0 {
        lemma_both_ways_sum(edges, n, s, k - 1);
        let e = edges[k - 1];
        let (i, j, w) = c[k - 1];
        let t = both_ways(c, k - 1);
        let x = Entry { row: i, col: j, value: w };
        let y = Entry { row: j, col: i, value: w };
        lemma_sum_push(t, x, s);
        lemma_sum_push(t.push(x), y, s);
        assert(edges.take(k).drop_last() =~= edges.take(k - 1));
        assert(edges.take(k).last() == e);
        assert(s[i as int] == 1 || s[i as int] == -1);
        assert(s[j as int] == 1 || s[j as int] == -1);
        assert(w == -(e.2 as int));
        let (p, q) = (s[i as int] as int, s[j as int] as int);
        assert(w * p * q == if p != q {
            -w
        } else {
            w as int
        }) by (nonlinear_arith)
            requires
                p == 1 || p == -1,
                q == 1 || q == -1,
        ;
        assert(w * q * p == w * p * q) by (nonlinear_arith);
    } else {
        assert(edges.take(0) =~= Seq::empty());
        assert(both_ways(c, 0) =~= Seq::<Entry<i64>>::empty());
    }
}

/// Coupling sums stay small where the couplings are.
proof fn lemma_sum_bounded(entries: Seq<Entry<i64>>, n: int, s: Seq<i8>)
    requires
        spins(s, n),
        forall|e: int|
            0 <= e < entries.len() ==> {
                &&& (#[trigger] entries[e]).row < n
                &&& entries[e].col < n
                &&& -0x8000_0000 <= entries[e].value <= 0x8000_0000
            },
    ensures
        -0x8000_0000 * entries.len() <= coupling_sum(entries, s) <= 0x8000_0000 * entries.len(),
    decreases entries.len(),
{
    if entries.len() > 0 {
        let t = entries.drop_last();
        let x = entries.last();
        assert(entries[entries.len() - 1].row < n);
        assert forall|e: int| 0 <= e < t.len() implies {
            &&& (#[trigger] t[e]).row < n
            &&& t[e].col < n
            &&& -0x8000_0000 <= t[e].value <= 0x8000_0000
        } by {
            assert(entries[e].row < n);
        }
        lemma_sum_bounded(t, n, s);
        assert(t.push(x) =~= entries);
        lemma_sum_push(t, x, s);
        lemma_upper_bounded(x, n, s);
    }
}

proof fn lemma_upper_bounded(x: Entry<i64>, n: int, s: Seq<i8>)
    requires
        spins(s, n),
        x.row < n,
        x.col < n,
        -0x8000_0000 <= x.value <= 0x8000_0000,
    ensures
        -0x8000_0000 <= upper(x, s) <= 0x8000_0000,
{
    let (p, q, w) = (s[x.row as int] as int, s[x.col as int] as int, x.value as int);
    assert(s[x.row as int] == 1 || s[x.row as int] == -1);
    assert(s[x.col as int] == 1 || s[x.col as int] == -1);
    assert(-0x8000_0000 <= w * p * q <= 0x8000_0000) by (nonlinear_arith)
        requires
            p == 1 || p == -1,
            q == 1 || q == -1,
            -0x8000_0000 <= w <= 0x8000_0000,
    ;
}

/// What every model of a countable graph has: no fields, small couplings.
spec fn plain(m: &IsingModel<i64>) -> bool {
    &&& m.wf()
    &&& m.j.entries@.len() < 0xffff_fffe
    &&& forall|i: int| 0 <= i < m.n ==> #[trigger] m.h@[i] == 0
    &&& forall|e: int|
        0 <= e < m.j.entries@.len() ==> -0x8000_0000 <= (#[trigger] m.j.entries@[e]).value
            <= 0x8000_0000
}

proof fn lemma_prefix_bounded(m: &IsingModel<i64>, s: Seq<i8>, e: int)
    requires
        plain(m),
        spins(s, m.n as int),
        0 <= e <= m.j.entries@.len(),
    ensures
        -0x8000_0000 * e <= coupling_sum(m.j.entries@.take(e), s) <= 0x8000_0000 * e,
{
    let t = m.j.entries@.take(e);
    assert forall|k: int| 0 <= k < t.len() implies {
        &&& (#[trigger] t[k]).row < m.n
        &&& t[k].col < m.n
        &&& -0x8000_0000 <= t[k].value <= 0x8000_0000
    } by {
        assert(m.j.entries@[k].row < m.n);
    }
    lemma_sum_bounded(t, m.n as int, s);
}

proof fn lemma_energy_row(m: &IsingModel<i64>, s: Seq<i8>, i: int, e: int)
    requires
        plain(m),
        spins(s, m.n as int),
        0 <= i < m.n,
        m.j.indptr@[i] <= e <= m.j.indptr@[i + 1],
        m.j.indptr@[i + 1] <= m.j.entries@.len(),
    ensures
        m.energy_row(s, i, e) == -coupling_sum(m.j.entries@.take(e), s),
    decreases i, 1int, e,
{
    lemma_prefix_bounded(m, s, e);
    assert(s[i] == 1 || s[i] == -1);
    if e <= m.j.indptr@[i] {
        lemma_energy_before(m, s, i);
        assert(m.h@[i] == 0);
        assert(0 * spin_value::<i64>(s[i]) == 0);
    } else {
        lemma_energy_row(m, s, i, e - 1);
        lemma_prefix_bounded(m, s, e - 1);
        row_holds_own_entries(&m.j, i, e - 1);
        let x = m.j.entries@[e - 1];
        let t = m.j.entries@.take(e - 1);
        assert(m.j.entries@.take(e) =~= t.push(x));
        lemma_sum_push(t, x, s);
        assert(m.j.entries@[e - 1].col < m.n);
        assert(s[x.col as int] == 1 || s[x.col as int] == -1);
        lemma_upper_bounded(x, m.n as int, s);
        if x.col > i {
            lemma_step(m.energy_row(s, i, e - 1), x.value, s[i], s[x.col as int]);
        }
    }
}

/// One step of the energy sum does not wrap.
proof fn lemma_step(before: i64, w: i64, a: i8, b: i8)
    requires
        a == 1 || a == -1,
        b == 1 || b == -1,
        -0x8000_0000 <= w <= 0x8000_0000,
        -0x7fff_ffff_0000_0000 <= before <= 0x7fff_ffff_0000_0000,
    ensures
        before.difference(w.product(spin_value::<i64>(a)).product(spin_value::<i64>(b))) == before
            - w * a * b,
{
    let (p, q) = (spin_value::<i64>(a), spin_value::<i64>(b));
    assert(p == a && q == b);
    assert(-0x8000_0000 <= w * p <= 0x8000_0000) by (nonlinear_arith)
        requires
            p == 1 || p == -1,
            -0x8000_0000 <= w <= 0x8000_0000,
    ;
    let x = w.product(p);
    assert(x == w * p);
    assert(-0x8000_0000 <= x * q <= 0x8000_0000) by (nonlinear_arith)
        requires
            q == 1 || q == -1,
            -0x8000_0000 <= x <= 0x8000_0000,
    ;
    assert(x.product(q) == x * q);
}

proof fn lemma_energy_before(m: &IsingModel<i64>, s: Seq<i8>, i: int)
    requires
        plain(m),
        spins(s, m.n as int),
        0 <= i <= m.n,
    ensures
        m.energy_before(s, i) == -coupling_sum(m.j.entries@.take(m.j.indptr@[i] as int), s),
    decreases i, 0int, 0int,
{
    if i > 0 {
        lemma_runs_follow(m.j.entries@, m.n as int, m.j.indptr@, i - 1, i);
        lemma_energy_row(m, s, i - 1, m.j.indptr@[i] as int);
    } else {
        assert(m.j.entries@.take(0) =~= Seq::<Entry<i64>>::empty());
    }
}

/// The reduction is exact: the energy of an assignment is the total weight
/// less twice the cut, so that minimizing one maximizes the other.
pub proof fn energy_counts_the_cut(g: &Graph, m: &IsingModel<i64>, s: Seq<i8>)
    requires
        g.wf(),
        countable(g.edges@),
        forall|e: int| 0 <= e < g.edges@.len() ==> (#[trigger] g.edges@[e]).0 != g.edges@[e].1,
        m.wf(),
        m.n == g.n,
        m.h@ == Seq::new(g.n as nat, |i: int| 0i64),
        stably_sorted(both_ways(couplings(g.edges@), g.edges@.len() as int), m.j.entries@),
        spins(s, g.n as int),
    ensures
        m.energy_of(s) == weight_of(g.edges@) - 2 * cut_of(g.edges@, s),
{
    let k = g.edges@.len() as int;
    let b = both_ways(couplings(g.edges@), k);
    lemma_both_ways_small(g.edges@, k);
    assert forall|e: int| 0 <= e < m.j.entries@.len() implies -0x8000_0000 <= (
    #[trigger] m.j.entries@[e]).value <= 0x8000_0000 by {
        let x = m.j.entries@[e];
        crate::sorting::lemma_with_key_member(m.j.entries@, x);
        crate::sorting::lemma_with_key_member(b, x);
        assert(crate::sorting::with_key(m.j.entries@, crate::sorting::Keyed::key(&x))
            == crate::sorting::with_key(b, crate::sorting::Keyed::key(&x)));
        let f = choose|f: int| 0 <= f < b.len() && b[f] == x;
        assert(-0x8000_0000 <= b[f].value <= 0x8000_0000);
    }
    lemma_energy_before(m, s, m.n as int);
    assert(m.j.entries@.take(m.j.entries@.len() as int) =~= m.j.entries@);
    lemma_sum_rearranged(b, m.j.entries@, s);
    lemma_both_ways_sum(g.edges@, g.n as int, s, k);
    assert(g.edges@.take(k) =~= g.edges@);
}

proof fn lemma_both_ways_small(edges: Seq<Edge>, k: int)
    requires
        0 <= k <= edges.len(),
    ensures
        both_ways(couplings(edges), k).len() == 2 * k,
        forall|e: int|
            0 <= e < 2 * k ==> -0x8000_0000 <= (#[trigger] both_ways(couplings(edges), k)[e]).value
                <= 0x8000_0000,
    decreases k,
{
    if k > 0 {
        lemma_both_ways_small(edges, k - 1);
    }
}

/// Half of what the total weight exceeds an energy by: the cut of an
/// assignment with that energy.
pub fn cut_of_energy(total: i128, energy: i64) -> (r: i128)
    requires
        -0x4000_0000_0000_0000_0000 <= total <= 0x4000_0000_0000_0000_0000,
        (total - energy) % 2 == 0,
    ensures
        2 * r == total - energy,
{
    let d: i128 = total - energy as i128;
    if d >= 0 {
        d / 2
    } else {
        -((-d) / 2)
    }
}

} // verus!
