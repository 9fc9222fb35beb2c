//! The energy of an Ising model and its local fields, by what the model was
//! built from: `E(s) = - sum_i h_i s_i - sum_e w_e s_i s_j` over the edges, the
//! pull on a spin is its field and the spins it is coupled to, and a flip costs
//! twice the spin times its pull.
//!
//! The laws are ones of exact arithmetic.

use crate::exact::{exact_reals, lemma_opposites, lemma_real_partners, lemma_spread, reals};
use crate::scalar::Scalar;
use crate::sorting::{lemma_runs_follow, sorting_rearranges, stably_sorted, Keyed};
use crate::sparse::{row_holds_own_entries, Entry};
use crate::stochastic::ising::{both_ways, spin_value, IsingModel};
use crate::stochastic::maxcut::spins;
use vstd::prelude::*;
use vstd::seq_lib::lemma_fold_left_permutation;

verus! {

/// Sum of `h_i s_i` over the first `n` spins.
pub open spec fn alignment<T: Scalar>(h: Seq<T>, s: Seq<i8>, n: int) -> T
    decreases n,
{
    if n <= 0 {
        T::zero_value()
    } else {
        alignment(h, s, n - 1).sum(h[n - 1].product(spin_value::<T>(s[n - 1])))
    }
}

/// Sum of `w s_i s_j` over the first `k` edges.
pub open spec fn agreement<T: Scalar>(edges: Seq<(u32, u32, T)>, s: Seq<i8>, k: int) -> T
    decreases k,
{
    if k <= 0 {
        T::zero_value()
    } else {
        let (i, j, w) = edges[k - 1];
        agreement(edges, s, k - 1).sum(
            w.product(spin_value::<T>(s[i as int])).product(spin_value::<T>(s[j as int])),
        )
    }
}

/// Sum of `w s_j` over those of the first `k` edges that end at spin `i`.
pub open spec fn pull<T: Scalar>(edges: Seq<(u32, u32, T)>, s: Seq<i8>, i: int, k: int) -> T
    decreases k,
{
    if k <= 0 {
        T::zero_value()
    } else {
        let (a, b, w) = edges[k - 1];
        let before = pull(edges, s, i, k - 1);
        if a == i {
            before.sum(w.product(spin_value::<T>(s[b as int])))
        } else if b == i {
            before.sum(w.product(spin_value::<T>(s[a as int])))
        } else {
            before
        }
    }
}

/// `m` has fields `h` and the couplings of `edges`.
pub open spec fn built_from<T: Scalar>(
    m: &IsingModel<T>,
    h: Seq<T>,
    edges: Seq<(u32, u32, T)>,
) -> bool {
    &&& m.wf()
    &&& m.n == h.len()
    &&& m.h@ == h
    &&& stably_sorted(both_ways(edges, edges.len() as int), m.j.entries@)
    &&& forall|e: int|
        0 <= e < edges.len() ==> {
            &&& (#[trigger] edges[e]).0 < h.len()
            &&& edges[e].1 < h.len()
            &&& edges[e].0 != edges[e].1
        }
}

/// What an entry right of the diagonal adds.
spec fn upper<T: Scalar>(x: Entry<T>, s: Seq<i8>) -> T {
    if x.col > x.row {
        x.value.product(spin_value::<T>(s[x.row as int])).product(
            spin_value::<T>(s[x.col as int]),
        )
    } else {
        T::zero_value()
    }
}

/// What an entry of row `i` adds to the local field.
spec fn onto<T: Scalar>(x: Entry<T>, s: Seq<i8>, i: int) -> T {
    if x.row == i {
        x.value.product(spin_value::<T>(s[x.col as int]))
    } else {
        T::zero_value()
    }
}

spec fn added<T: Scalar>(f: spec_fn(Entry<T>) -> T) -> spec_fn(T, Entry<T>) -> T {
    |acc: T, x: Entry<T>| acc.sum(f(x))
}

spec fn total<T: Scalar>(entries: Seq<Entry<T>>, f: spec_fn(Entry<T>) -> T) -> T {
    entries.fold_left(T::zero_value(), added(f))
}

proof fn lemma_total_push<T: Scalar>(t: Seq<Entry<T>>, x: Entry<T>, f: spec_fn(Entry<T>) -> T)
    ensures
        total(t.push(x), f) == total(t, f).sum(f(x)),
{
    assert(t.push(x).drop_last() =~= t);
    assert(t.push(x).fold_left(T::zero_value(), added(f)) == added(f)(
        t.push(x).drop_last().fold_left(T::zero_value(), added(f)),
        t.push(x).last(),
    ));
}

proof fn lemma_total_rearranged<T: Scalar>(
    a: Seq<Entry<T>>,
    b: Seq<Entry<T>>,
    f: spec_fn(Entry<T>) -> T,
)
    requires
        exact_reals::<T>(),
        stably_sorted(a, b),
    ensures
        total(a, f) == total(b, f),
{
    sorting_rearranges(a, b);
    let g = added(f);
    assert forall|x: Entry<T>, y: Entry<T>, v: T| #[trigger] g(g(v, x), y) == g(g(v, y), x) by {
        reals(v, f(x), f(y));
        reals(v, f(y), f(x));
        reals(f(x), f(y), v);
    }
    lemma_fold_left_permutation(a, b, g, T::zero_value());
}

/// `-(f + c) - a` is `-((f + a) + c)` and `-(f + (c + a))`.
proof fn lemma_less<T: Scalar>(f: T, c: T, a: T)
    requires
        exact_reals::<T>(),
    ensures
        f.sum(c).negative().difference(a) == f.sum(a).sum(c).negative(),
        f.sum(c).negative().difference(a) == f.sum(c.sum(a)).negative(),
{
    reals(f.sum(c).negative(), a, a);
    lemma_opposites(f.sum(c), a);
    reals(f, c, a);
    reals(f, a, c);
    reals(a, c, f);
}

proof fn lemma_row<T: Scalar>(m: &IsingModel<T>, s: Seq<i8>, i: int, e: int)
    requires
        exact_reals::<T>(),
        m.wf(),
        0 <= i < m.n,
        m.j.indptr@[i] <= e <= m.j.indptr@[i + 1],
        m.j.indptr@[i + 1] <= m.j.entries@.len(),
    ensures
        m.energy_row(s, i, e) == alignment(m.h@, s, i + 1).sum(
            total(m.j.entries@.take(e), |x: Entry<T>| upper(x, s)),
        ).negative(),
    decreases i, 1int, e,
{
    let f = |x: Entry<T>| upper(x, s);
    if e <= m.j.indptr@[i] {
        lemma_rows_before(m, s, i);
        lemma_less(
            alignment(m.h@, s, i),
            total(m.j.entries@.take(e), f),
            m.h@[i].product(spin_value::<T>(s[i])),
        );
    } else {
        lemma_row(m, s, i, e - 1);
        row_holds_own_entries(&m.j, i, e - 1);
        let x = m.j.entries@[e - 1];
        let t = m.j.entries@.take(e - 1);
        assert(m.j.entries@.take(e) =~= t.push(x));
        lemma_total_push(t, x, f);
        if x.col > i {
            lemma_less(alignment(m.h@, s, i + 1), total(t, f), upper(x, s));
        } else {
            reals(total(t, f), total(t, f), total(t, f));
        }
    }
}

proof fn lemma_rows_before<T: Scalar>(m: &IsingModel<T>, s: Seq<i8>, i: int)
    requires
        exact_reals::<T>(),
        m.wf(),
        0 <= i <= m.n,
    ensures
        m.energy_before(s, i) == alignment(m.h@, s, i).sum(
            total(m.j.entries@.take(m.j.indptr@[i] as int), |x: Entry<T>| upper(x, s)),
        ).negative(),
    decreases i, 0int, 0int,
{
    if i > 0 {
        lemma_runs_follow(m.j.entries@, m.n as int, m.j.indptr@, i - 1, i);
        lemma_row(m, s, i - 1, m.j.indptr@[i] as int);
    } else {
        let f = |x: Entry<T>| upper(x, s);
        let none = m.j.entries@.take(m.j.indptr@[0] as int);
        if none.len() > 0 {
            assert(m.j.entries@[0].key().0 < 0);
        }
        assert(none =~= Seq::<Entry<T>>::empty());
        lemma_opposites(T::zero_value(), T::zero_value());
    }
}

proof fn lemma_both_ways<T: Scalar>(
    h: Seq<T>,
    edges: Seq<(u32, u32, T)>,
    s: Seq<i8>,
    k: int,
    i: int,
)
    requires
        exact_reals::<T>(),
        0 <= k <= edges.len(),
        forall|e: int| 0 <= e < edges.len() ==> (#[trigger] edges[e]).0 != edges[e].1,
    ensures
        total(both_ways(edges, k), |x: Entry<T>| upper(x, s)) == agreement(edges, s, k),
        total(both_ways(edges, k), |x: Entry<T>| onto(x, s, i)) == pull(edges, s, i, k),
    decreases k,
{
    let (f, g) = (|x: Entry<T>| upper(x, s), |x: Entry<T>| onto(x, s, i));
    if k > 0 {
        lemma_both_ways(h, edges, s, k - 1, i);
        let (a, b, w) = edges[k - 1];
        assert(edges[k - 1].0 != edges[k - 1].1);
        let t = both_ways(edges, k - 1);
        let x = Entry { row: a, col: b, value: w };
        let y = Entry { row: b, col: a, value: w };
        lemma_total_push(t, x, f);
        lemma_total_push(t.push(x), y, f);
        lemma_total_push(t, x, g);
        lemma_total_push(t.push(x), y, g);
        let (p, q) = (spin_value::<T>(s[a as int]), spin_value::<T>(s[b as int]));
        // w.p.q = w.q.p
        reals(w, p, q);
        reals(w, q, p);
        reals(p, q, w);
        reals(total(t, f), T::zero_value(), w);
        reals(total(t.push(x), f), T::zero_value(), w);
        reals(total(t, g), T::zero_value(), w);
        reals(total(t.push(x), g), T::zero_value(), w);
    } else {
        assert(both_ways(edges, 0) =~= Seq::<Entry<T>>::empty());
    }
}

/// The energy is what the fields and the couplings cost: less the sum of
/// `h_i s_i`, less the sum of `w s_i s_j` over the edges.
pub proof fn energy_is_field_and_coupling<T: Scalar>(
    m: &IsingModel<T>,
    h: Seq<T>,
    edges: Seq<(u32, u32, T)>,
    s: Seq<i8>,
)
    requires
        exact_reals::<T>(),
        built_from(m, h, edges),
        spins(s, m.n as int),
    ensures
        m.energy_of(s) == alignment(h, s, h.len() as int).sum(
            agreement(edges, s, edges.len() as int),
        ).negative(),
{
    let f = |x: Entry<T>| upper(x, s);
    let k = edges.len() as int;
    lemma_rows_before(m, s, m.n as int);
    let end = m.j.indptr@[m.n as int] as int;
    lemma_runs_follow(m.j.entries@, m.n as int, m.j.indptr@, m.n as int, m.n as int);
    if end < m.j.entries@.len() {
        assert(m.j.entries@[end].row < m.n);
        assert(m.j.entries@[end].key().0 < m.n);
    }
    assert(m.j.entries@.take(end) =~= m.j.entries@);
    lemma_total_rearranged(both_ways(edges, k), m.j.entries@, f);
    lemma_both_ways(h, edges, s, k, 0);
}

proof fn lemma_field_upto<T: Scalar>(m: &IsingModel<T>, s: Seq<i8>, i: int, e: int)
    requires
        exact_reals::<T>(),
        m.wf(),
        0 <= i < m.n,
        0 <= e <= m.j.entries@.len(),
    ensures
        e <= m.j.indptr@[i] ==> total(m.j.entries@.take(e), |x: Entry<T>| onto(x, s, i))
            == T::zero_value(),
        m.j.indptr@[i] <= e <= m.j.indptr@[i + 1] ==> m.field_upto(s, i, e) == m.h@[i].sum(
            total(m.j.entries@.take(e), |x: Entry<T>| onto(x, s, i)),
        ),
        m.j.indptr@[i + 1] <= e ==> m.field_of(s, i) == m.h@[i].sum(
            total(m.j.entries@.take(e), |x: Entry<T>| onto(x, s, i)),
        ),
    decreases e,
{
    let f = |x: Entry<T>| onto(x, s, i);
    lemma_runs_follow(m.j.entries@, m.n as int, m.j.indptr@, i, i + 1);
    let now = m.j.entries@.take(e);
    if e > 0 {
        lemma_field_upto(m, s, i, e - 1);
        row_holds_own_entries(&m.j, i, e - 1);
        let x = m.j.entries@[e - 1];
        let t = m.j.entries@.take(e - 1);
        assert(now =~= t.push(x));
        lemma_total_push(t, x, f);
        reals(m.h@[i], total(t, f), f(x));
        reals(total(t, f), total(t, f), f(x));
        reals(m.h@[i], f(x), f(x));
    } else {
        assert(now =~= Seq::<Entry<T>>::empty());
    }
    reals(m.h@[i], m.h@[i], m.h@[i]);
}

/// The local field of a spin is its own field and the pull of the spins that
/// it is coupled to.
pub proof fn local_field_is_field_and_pull<T: Scalar>(
    m: &IsingModel<T>,
    h: Seq<T>,
    edges: Seq<(u32, u32, T)>,
    s: Seq<i8>,
    i: int,
)
    requires
        exact_reals::<T>(),
        built_from(m, h, edges),
        spins(s, m.n as int),
        0 <= i < m.n,
    ensures
        m.field_of(s, i) == h[i].sum(pull(edges, s, i, edges.len() as int)),
{
    let f = |x: Entry<T>| onto(x, s, i);
    let (k, n) = (edges.len() as int, m.j.entries@.len() as int);
    lemma_runs_follow(m.j.entries@, m.n as int, m.j.indptr@, i, i + 1);
    lemma_field_upto(m, s, i, n);
    assert(m.j.entries@.take(n) =~= m.j.entries@);
    lemma_total_rearranged(both_ways(edges, k), m.j.entries@, f);
    lemma_both_ways(h, edges, s, k, i);
}

/// A flipped spin is the opposite sample.
proof fn lemma_flipped<T: Scalar>(s: i8)
    requires
        exact_reals::<T>(),
        s == 1 || s == -1,
    ensures
        spin_value::<T>((-s) as i8) == spin_value::<T>(s).negative(),
{
    let (zero, one) = (T::zero_value(), T::of_count(1));
    reals(zero, one, one);
    lemma_opposites(one.negative(), one);
    lemma_opposites(one, one);
}

/// `p - t + ((q + t) + (q + t))` is `p + (q + q) + t`.
proof fn lemma_turned<T: Scalar>(p: T, q: T, t: T)
    requires
        exact_reals::<T>(),
    ensures
        p.sum(t.negative()).sum(q.sum(t).sum(q.sum(t))) == p.sum(q.sum(q)).sum(t),
{
    let n = t.negative();
    lemma_real_partners(q, t, q, t);
    lemma_real_partners(p, n, q.sum(q), t.sum(t));
    reals(n, t, t);
    reals(t, n, t);
    lemma_opposites(t, t);
}

proof fn lemma_alignment_turned<T: Scalar>(h: Seq<T>, s: Seq<i8>, i: int, n: int)
    requires
        exact_reals::<T>(),
        spins(s, h.len() as int),
        0 <= i < h.len(),
        0 <= n <= h.len(),
    ensures
        ({
            let t = s.update(i, (-s[i]) as i8);
            let x = h[i].product(spin_value::<T>(s[i]));
            alignment(h, s, n) == (if i < n {
                alignment(h, t, n).sum(x.sum(x))
            } else {
                alignment(h, t, n)
            })
        }),
    decreases n,
{
    let t = s.update(i, (-s[i]) as i8);
    let x = h[i].product(spin_value::<T>(s[i]));
    if n > 0 {
        lemma_alignment_turned(h, s, i, n - 1);
        let a = alignment(h, t, n - 1);
        assert(s[i] == 1 || s[i] == -1);
        lemma_flipped::<T>(s[i]);
        if n - 1 == i {
            lemma_spread(h[i], spin_value::<T>(s[i]), x);
            let zero = T::zero_value();
            lemma_turned(a, zero, x);
            lemma_opposites(x, x);
            reals(zero, zero, zero);
            reals(a, zero, zero);
        } else {
            let y = h[n - 1].product(spin_value::<T>(s[n - 1]));
            reals(a, x.sum(x), y);
            reals(a, y, x.sum(x));
            reals(x.sum(x), y, a);
        }
    }
}

proof fn lemma_agreement_turned<T: Scalar>(
    edges: Seq<(u32, u32, T)>,
    s: Seq<i8>,
    n: int,
    i: int,
    k: int,
)
    requires
        exact_reals::<T>(),
        spins(s, n),
        0 <= i < n,
        0 <= k <= edges.len(),
        forall|e: int|
            0 <= e < edges.len() ==> {
                &&& (#[trigger] edges[e]).0 < n
                &&& edges[e].1 < n
                &&& edges[e].0 != edges[e].1
            },
    ensures
        ({
            let t = s.update(i, (-s[i]) as i8);
            let q = spin_value::<T>(s[i]).product(pull(edges, s, i, k));
            agreement(edges, s, k) == agreement(edges, t, k).sum(q.sum(q))
        }),
    decreases k,
{
    let t = s.update(i, (-s[i]) as i8);
    let v = spin_value::<T>(s[i]);
    let zero = T::zero_value();
    if k <= 0 {
        reals(v, zero, zero);
        reals(zero, zero, zero);
    } else {
        lemma_agreement_turned(edges, s, n, i, k - 1);
        let (a, b, w) = edges[k - 1];
        assert(edges[k - 1].0 < n && edges[k - 1].1 < n && edges[k - 1].0 != edges[k - 1].1);
        assert(s[i] == 1 || s[i] == -1);
        lemma_flipped::<T>(s[i]);
        let p = agreement(edges, t, k - 1);
        let r = pull(edges, s, i, k - 1);
        let q = v.product(r);
        let (x, y) = (spin_value::<T>(s[a as int]), spin_value::<T>(s[b as int]));
        let term = w.product(x).product(y);
        if a == i {
            // w.(-v).y = -term, v.(w.y) = term
            lemma_spread(w, v, w);
            reals(w.product(v), y, y);
            reals(v, w, y);
            reals(w, v, y);
            reals(v, r, w.product(y));
            lemma_turned(p, q, term);
        } else if b == i {
            lemma_spread(w.product(x), v, w);
            reals(v, w.product(x), w);
            reals(v, r, w.product(x));
            lemma_turned(p, q, term);
        } else {
            reals(p, q.sum(q), term);
            reals(p, term, q.sum(q));
            reals(q.sum(q), term, p);
        }
    }
}

/// Flipping a spin changes the energy by twice the spin times its local field.
pub proof fn flip_costs_twice_the_pull<T: Scalar>(
    m: &IsingModel<T>,
    h: Seq<T>,
    edges: Seq<(u32, u32, T)>,
    s: Seq<i8>,
    i: int,
)
    requires
        exact_reals::<T>(),
        built_from(m, h, edges),
        spins(s, m.n as int),
        0 <= i < m.n,
    ensures
        ({
            let t = s.update(i, (-s[i]) as i8);
            let x = spin_value::<T>(s[i]).product(m.field_of(s, i));
            m.energy_of(t) == m.energy_of(s).sum(x.sum(x))
        }),
{
    let t = s.update(i, (-s[i]) as i8);
    let (n, k) = (h.len() as int, edges.len() as int);
    assert(s[i] == 1 || s[i] == -1);
    assert(spins(t, m.n as int));
    energy_is_field_and_coupling(m, h, edges, s);
    energy_is_field_and_coupling(m, h, edges, t);
    local_field_is_field_and_pull(m, h, edges, s, i);
    lemma_alignment_turned(h, s, i, n);
    lemma_agreement_turned(edges, s, n, i, k);
    let v = spin_value::<T>(s[i]);
    let (a, g) = (alignment(h, t, n), agreement(edges, t, k));
    let (x, q) = (h[i].product(v), v.product(pull(edges, s, i, k)));
    let y = v.product(m.field_of(s, i));
    reals(v, h[i], pull(edges, s, i, k));
    assert(y == x.sum(q));
    // (a + 2x) + (g + 2q) = (a + g) + 2y
    lemma_real_partners(a, x.sum(x), g, q.sum(q));
    lemma_real_partners(x, x, q, q);
    let z = y.sum(y);
    assert(alignment(h, s, n).sum(agreement(edges, s, k)) == a.sum(g).sum(z));
    // -(e + z) + z = -e
    let e = a.sum(g);
    lemma_opposites(e, z);
    reals(e.negative(), z.negative(), z);
    reals(z.negative(), z, z);
    reals(z, z.negative(), z);
    reals(e.negative(), e, e);
}

/// A model without couplings: the energy is that of the fields alone, and the
/// local field of a spin is its own.
pub proof fn uncoupled_spins_follow_their_fields<T: Scalar>(
    m: &IsingModel<T>,
    h: Seq<T>,
    s: Seq<i8>,
    i: int,
)
    requires
        exact_reals::<T>(),
        built_from(m, h, Seq::empty()),
        spins(s, m.n as int),
        0 <= i < m.n,
    ensures
        m.energy_of(s) == alignment(h, s, h.len() as int).negative(),
        m.field_of(s, i) == h[i],
{
    let none = Seq::<(u32, u32, T)>::empty();
    energy_is_field_and_coupling(m, h, none, s);
    local_field_is_field_and_pull(m, h, none, s, i);
    let a = alignment(h, s, h.len() as int);
    reals(a, a, a);
    reals(h[i], h[i], h[i]);
}

} // verus!
