//! Chromatic block Gibbs sampling and simulated annealing.
//!
//! The coupling graph is colored once; then every spin of a color class is
//! updated in turn. No two spins of a class are coupled, so within a class the
//! order does not matter.

use crate::scalar::Scalar;
use crate::sparse::row_holds_own_entries;
use crate::stochastic::ising::field_is_local;
use crate::stochastic::ising::IsingModel;
use crate::stochastic::maxcut::spins;
use vstd::prelude::*;

verus! {

/// Counts of what a sampler did.
#[derive(Debug, Clone, Copy, PartialEq, Eq, Structural)]
pub struct SpinLedger {
    pub spin_updates: u64,
    pub flips: u64,
    pub sweeps: u64,
}

/// The spins of color `c` among the first `k`, in order.
pub open spec fn color_class(colors: Seq<u32>, c: int, k: int) -> Seq<u32>
    decreases k,
{
    if k <= 0 {
        Seq::empty()
    } else if colors[k - 1] == c {
        color_class(colors, c, k - 1).push((k - 1) as u32)
    } else {
        color_class(colors, c, k - 1)
    }
}

/// The spins of the first `c` colors, class after class.
pub open spec fn classes_upto(colors: Seq<u32>, c: int) -> Seq<u32>
    decreases c,
{
    if c <= 0 {
        Seq::empty()
    } else {
        classes_upto(colors, c - 1) + color_class(colors, c - 1, colors.len() as int)
    }
}

/// Chromatic Gibbs sampler over an Ising model.
pub struct GibbsSampler {
    /// Spins grouped by color class.
    pub class_members: Vec<u32>,
    /// Where each class begins, and the end.
    pub class_starts: Vec<usize>,
}

impl GibbsSampler {
    /// The sampler of a coloring.
    pub open spec fn groups(&self, colors: Seq<u32>, n_colors: u32) -> bool {
        &&& self.class_members@ == classes_upto(colors, n_colors as int)
        &&& self.class_starts@.len() == n_colors + 1
        &&& forall|c: int|
            0 <= c <= n_colors ==> #[trigger] self.class_starts@[c] == classes_upto(colors, c).len()
    }

    /// Every member is a spin of an `n`-spin model.
    pub open spec fn within(&self, n: int) -> bool {
        forall|k: int|
            0 <= k < self.class_members@.len() ==> (#[trigger] self.class_members@[k]) < n
    }

    /// Groups the spins by color: `colors[i]` is the color of spin `i`, and
    /// the colors in use are below `n_colors`.
    pub fn new(colors: &Vec<u32>, n_colors: u32) -> (r: Self)
        requires
            colors@.len() <= u32::MAX,
            n_colors < usize::MAX,
        ensures
            r.groups(colors@, n_colors),
            r.within(colors@.len() as int),
    {
        let n: usize = colors.len();
        let mut class_members: Vec<u32> = Vec::new();
        let mut class_starts: Vec<usize> = Vec::new();
        class_starts.push(0);
        let mut c: u32 = 0;
        while c < n_colors
            invariant
                c <= n_colors,
                n == colors@.len(),
                n <= u32::MAX,
                class_members@ == classes_upto(colors@, c as int),
                class_starts@.len() == c + 1,
                forall|d: int|
                    0 <= d <= c ==> #[trigger] class_starts@[d] == classes_upto(colors@, d).len(),
                forall|k: int|
                    0 <= k < class_members@.len() ==> (#[trigger] class_members@[k]) < n,
            decreases n_colors - c,
        {
            let ghost before = class_members@;
            let mut i: usize = 0;
            assert(before + color_class(colors@, c as int, 0) =~= before);
            while i < n
                invariant
                    i <= n,
                    n == colors@.len(),
                    n <= u32::MAX,
                    class_members@ == before + color_class(colors@, c as int, i as int),
                    forall|k: int|
                        0 <= k < class_members@.len() ==> (#[trigger] class_members@[k]) < n,
                decreases n - i,
            {
                if colors[i] == c {
                    class_members.push(i as u32);
                    assert(class_members@ =~= before + color_class(colors@, c as int, i + 1));
                }
                i += 1;
            }
            class_starts.push(class_members.len());
            c += 1;
        }
        GibbsSampler { class_members, class_starts }
    }

    /// Spins after the first `k` updates of a sweep that decided as `dec` says.
    pub open spec fn swept(&self, s: Seq<i8>, dec: Seq<bool>, k: int) -> Seq<i8>
        decreases k,
    {
        if k <= 0 {
            s
        } else {
            self.swept(s, dec, k - 1).update(
                self.class_members@[k - 1] as int,
                if dec[k - 1] {
                    1i8
                } else {
                    -1i8
                },
            )
        }
    }

    /// Spins that the first `k` updates of a sweep turned over.
    pub open spec fn flips_upto(&self, s: Seq<i8>, dec: Seq<bool>, k: int) -> int
        decreases k,
    {
        if k <= 0 {
            0
        } else {
            let up = self.swept(s, dec, k - 1)[self.class_members@[k - 1] as int] == 1;
            self.flips_upto(s, dec, k - 1) + if up != dec[k - 1] {
                1int
            } else {
                0
            }
        }
    }

    /// Whether `dec` is what `up` decides along a sweep: update `k` asks it of
    /// the local field that the updates before it left.
    pub open spec fn decides<T: Scalar, F: Fn(usize, T) -> bool>(
        &self,
        m: &IsingModel<T>,
        s: Seq<i8>,
        up: F,
        dec: Seq<bool>,
    ) -> bool {
        &&& dec.len() == self.class_members@.len()
        &&& forall|k: int|
            0 <= k < dec.len() ==> call_ensures(
                up,
                (
                    k as usize,
                    m.field_of(self.swept(s, dec, k), self.class_members@[k] as int),
                ),
                #[trigger] dec[k],
            )
    }

    /// One full sweep: every color class in sequence. `up(k, l)` says whether
    /// the spin of update `k`, whose local field is `l`, points up.
    pub fn sweep<T: Scalar, F: Fn(usize, T) -> bool>(
        &self,
        model: &IsingModel<T>,
        s: &mut Vec<i8>,
        up: &F,
        ledger: &mut SpinLedger,
    )
        requires
            model.wf(),
            self.within(model.n as int),
            spins(old(s)@, model.n as int),
            forall|k: usize, l: T| call_requires(up, (k, l)),
            old(ledger).spin_updates + self.class_members@.len() <= u64::MAX,
            old(ledger).flips + self.class_members@.len() <= u64::MAX,
            old(ledger).sweeps < u64::MAX,
        ensures
            spins(final(s)@, model.n as int),
            exists|dec: Seq<bool>|
                #![trigger self.decides(model, old(s)@, *up, dec)]
                {
                    &&& self.decides(model, old(s)@, *up, dec)
                    &&& final(s)@ == self.swept(old(s)@, dec, dec.len() as int)
                    &&& final(ledger).flips == old(ledger).flips + self.flips_upto(
                        old(s)@,
                        dec,
                        dec.len() as int,
                    )
                },
            final(ledger).spin_updates == old(ledger).spin_updates + self.class_members@.len(),
            final(ledger).sweeps == old(ledger).sweeps + 1,
    {
        let ghost start = s@;
        let ghost mut dec: Seq<bool> = Seq::empty();
        let n: usize = self.class_members.len();
        let mut k: usize = 0;
        while k < n
            invariant
                k <= n,
                n == self.class_members@.len(),
                model.wf(),
                self.within(model.n as int),
                spins(s@, model.n as int),
                forall|k: usize, l: T| call_requires(up, (k, l)),
                dec.len() == k,
                s@ == self.swept(start, dec, k as int),
                forall|m: int|
                    0 <= m < k ==> call_ensures(
                        up,
                        (
                            m as usize,
                            model.field_of(
                                self.swept(start, dec, m),
                                self.class_members@[m] as int,
                            ),
                        ),
                        #[trigger] dec[m],
                    ),
                old(ledger).spin_updates + n <= u64::MAX,
                old(ledger).flips + n <= u64::MAX,
                old(ledger).sweeps < u64::MAX,
                ledger.spin_updates == old(ledger).spin_updates + k,
                ledger.flips == old(ledger).flips + self.flips_upto(start, dec, k as int),
                0 <= self.flips_upto(start, dec, k as int) <= k,
                ledger.sweeps == old(ledger).sweeps,
            decreases n - k,
        {
            let i: usize = self.class_members[k] as usize;
            assert(self.class_members@[k as int] < model.n);
            let l = model.local_field(i, s);
            let b = up(k, l);
            let new: i8 = if b {
                1
            } else {
                -1
            };
            ledger.spin_updates = ledger.spin_updates + 1;
            assert(s@[i as int] == 1 || s@[i as int] == -1);
            let ghost longer = dec.push(b);
            proof {
                assert forall|m: int| 0 <= m <= k implies #[trigger] self.swept(start, longer, m)
                    == self.swept(start, dec, m) by {
                    lemma_swept_prefix(self, start, dec, longer, m);
                }
                lemma_flips_prefix(self, start, dec, longer, k as int);
                assert forall|m: int| 0 <= m < k + 1 implies call_ensures(
                    up,
                    (
                        m as usize,
                        model.field_of(self.swept(start, longer, m), self.class_members@[m] as int),
                    ),
                    #[trigger] longer[m],
                ) by {
                    assert(self.swept(start, longer, m) == self.swept(start, dec, m));
                    if m < k {
                        assert(longer[m] == dec[m]);
                    }
                }
            }
            if new != s[i] {
                s.set(i, new);
                ledger.flips = ledger.flips + 1;
            } else {
                assert(s@ =~= s@.update(i as int, new));
            }
            proof {
                assert(s@ == self.swept(start, longer, k + 1));
                dec = longer;
            }
            k += 1;
        }
        ledger.sweeps = ledger.sweeps + 1;
        proof {
            assert(self.decides(model, start, *up, dec));
        }
    }
}

proof fn lemma_swept_prefix(g: &GibbsSampler, s: Seq<i8>, a: Seq<bool>, b: Seq<bool>, k: int)
    requires
        0 <= k <= a.len() <= b.len(),
        forall|m: int| 0 <= m < a.len() ==> a[m] == b[m],
    ensures
        g.swept(s, a, k) == g.swept(s, b, k),
    decreases k,
{
    if k > 0 {
        lemma_swept_prefix(g, s, a, b, k - 1);
    }
}

proof fn lemma_flips_prefix(g: &GibbsSampler, s: Seq<i8>, a: Seq<bool>, b: Seq<bool>, k: int)
    requires
        0 <= k <= a.len() <= b.len(),
        forall|m: int| 0 <= m < a.len() ==> a[m] == b[m],
    ensures
        g.flips_upto(s, a, k) == g.flips_upto(s, b, k),
    decreases k,
{
    if k > 0 {
        lemma_flips_prefix(g, s, a, b, k - 1);
        lemma_swept_prefix(g, s, a, b, k - 1);
    }
}

/// Whether no two coupled spins share a color.
pub open spec fn proper<T: Scalar>(m: &IsingModel<T>, colors: Seq<u32>) -> bool {
    &&& colors.len() == m.n
    &&& forall|i: int, k: int|
        0 <= i < m.n && 0 <= k < m.n && #[trigger] m.coupled(i, k) ==> colors[i] != colors[k]
}

/// Within a class the order of updates does not matter: with a proper coloring
/// the local field of a spin is untouched by any change to spins of its color.
pub proof fn class_updates_are_independent<T: Scalar>(
    m: &IsingModel<T>,
    colors: Seq<u32>,
    s: Seq<i8>,
    t: Seq<i8>,
    i: int,
)
    requires
        m.wf(),
        proper(m, colors),
        0 <= i < m.n,
        s.len() == m.n,
        t.len() == m.n,
        forall|k: int| 0 <= k < m.n && colors[k] != colors[i] ==> #[trigger] s[k] == t[k],
    ensures
        m.field_of(s, i) == m.field_of(t, i),
{
    assert forall|k: int| 0 <= k < m.n && m.coupled(i, k) implies #[trigger] s[k] == t[k] by {
        assert(colors[i] != colors[k]);
    }
    field_is_local(m, s, t, i);
}

/// How often spin `i` stands in a list.
pub open spec fn listed(members: Seq<u32>, i: u32) -> int
    decreases members.len(),
{
    if members.len() == 0 {
        0
    } else {
        listed(members.drop_last(), i) + if members.last() == i {
            1int
        } else {
            0
        }
    }
}

proof fn lemma_listed_add(a: Seq<u32>, b: Seq<u32>, i: u32)
    ensures
        listed(a + b, i) == listed(a, i) + listed(b, i),
    decreases b.len(),
{
    if b.len() == 0 {
        assert(a + b =~= a);
    } else {
        assert((a + b).drop_last() =~= a + b.drop_last());
        lemma_listed_add(a, b.drop_last(), i);
    }
}

proof fn lemma_class_lists(colors: Seq<u32>, c: int, k: int, i: int)
    requires
        0 <= k <= colors.len() <= u32::MAX,
        0 <= i < colors.len(),
    ensures
        listed(color_class(colors, c, k), i as u32) == (if i < k && colors[i] == c {
            1int
        } else {
            0
        }),
    decreases k,
{
    if k > 0 {
        lemma_class_lists(colors, c, k - 1, i);
        let rest = color_class(colors, c, k - 1);
        if colors[k - 1] == c {
            assert(rest.push((k - 1) as u32).drop_last() =~= rest);
        }
    }
}

/// A sweep updates every spin exactly once: the classes partition the spins
/// whose color is in use.
pub proof fn classes_partition_spins(colors: Seq<u32>, c: int, i: int)
    requires
        colors.len() <= u32::MAX,
        0 <= i < colors.len(),
        0 <= c,
    ensures
        listed(classes_upto(colors, c), i as u32) == (if colors[i] < c {
            1int
        } else {
            0
        }),
    decreases c,
{
    if c > 0 {
        classes_partition_spins(colors, c - 1, i);
        lemma_class_lists(colors, c - 1, colors.len() as int, i);
        lemma_listed_add(
            classes_upto(colors, c - 1),
            color_class(colors, c - 1, colors.len() as int),
            i as u32,
        );
    }
}

/// Members of the first `c` classes among the first `k` spins.
pub open spec fn class_total(colors: Seq<u32>, c: int, k: int) -> int
    decreases c,
{
    if c <= 0 {
        0
    } else {
        class_total(colors, c - 1, k) + color_class(colors, c - 1, k).len()
    }
}

proof fn lemma_class_total_step(colors: Seq<u32>, c: int, k: int)
    requires
        0 <= c,
        0 < k <= colors.len(),
    ensures
        class_total(colors, c, k) == class_total(colors, c, k - 1) + if colors[k - 1] < c {
            1int
        } else {
            0
        },
    decreases c,
{
    if c > 0 {
        lemma_class_total_step(colors, c - 1, k);
    }
}

proof fn lemma_class_total_bounded(colors: Seq<u32>, c: int, k: int)
    requires
        0 <= c,
        0 <= k <= colors.len(),
    ensures
        class_total(colors, c, k) <= k,
    decreases k,
{
    if k > 0 {
        lemma_class_total_step(colors, c, k);
        lemma_class_total_bounded(colors, c, k - 1);
    } else {
        lemma_class_total_empty(colors, c);
    }
}

proof fn lemma_class_total_empty(colors: Seq<u32>, c: int)
    ensures
        class_total(colors, c, 0) == 0,
    decreases c,
{
    if c > 0 {
        lemma_class_total_empty(colors, c - 1);
    }
}

/// A sweep makes at most as many updates as there are spins.
pub proof fn classes_fit(colors: Seq<u32>, c: int)
    requires
        0 <= c,
    ensures
        classes_upto(colors, c).len() <= colors.len(),
{
    lemma_class_total_bounded(colors, c, colors.len() as int);
    lemma_classes_len(colors, c);
}

proof fn lemma_class_total_full(colors: Seq<u32>, c: int, k: int)
    requires
        0 <= c,
        0 <= k <= colors.len(),
        forall|i: int| 0 <= i < k ==> #[trigger] colors[i] < c,
    ensures
        class_total(colors, c, k) == k,
    decreases k,
{
    if k > 0 {
        lemma_class_total_step(colors, c, k);
        lemma_class_total_full(colors, c, k - 1);
    } else {
        lemma_class_total_empty(colors, c);
    }
}

/// A sweep over all classes visits every spin exactly once: with every color
/// below the number of classes, it makes one update per spin, and each spin is
/// listed once.
pub proof fn sweep_visits_every_spin(g: &GibbsSampler, colors: Seq<u32>, n_colors: u32)
    requires
        g.groups(colors, n_colors),
        colors.len() <= u32::MAX,
        forall|i: int| 0 <= i < colors.len() ==> #[trigger] colors[i] < n_colors,
    ensures
        g.class_members@.len() == colors.len(),
        forall|i: int|
            0 <= i < colors.len() ==> #[trigger] listed(g.class_members@, i as u32) == 1,
{
    lemma_class_total_full(colors, n_colors as int, colors.len() as int);
    lemma_classes_len(colors, n_colors as int);
    assert forall|i: int| 0 <= i < colors.len() implies #[trigger] listed(
        g.class_members@,
        i as u32,
    ) == 1 by {
        classes_partition_spins(colors, n_colors as int, i);
    }
}

/// Spins among the first `n` that two states do not share.
pub open spec fn changed(a: Seq<i8>, b: Seq<i8>, n: int) -> int
    decreases n,
{
    if n <= 0 {
        0
    } else {
        changed(a, b, n - 1) + if a[n - 1] != b[n - 1] {
            1int
        } else {
            0
        }
    }
}

proof fn lemma_changed_update(a: Seq<i8>, b: Seq<i8>, n: int, i: int, x: i8)
    requires
        0 <= i < b.len(),
        n <= a.len(),
        n <= b.len(),
        b[i] == a[i],
    ensures
        changed(a, b.update(i, x), n) == changed(a, b, n) + if i < n && x != a[i] {
            1int
        } else {
            0
        },
    decreases n,
{
    if n > 0 {
        lemma_changed_update(a, b, n - 1, i, x);
    }
}

proof fn lemma_changed_nothing(a: Seq<i8>, n: int)
    ensures
        changed(a, a, n) == 0,
    decreases n,
{
    if n > 0 {
        lemma_changed_nothing(a, n - 1);
    }
}

/// A value that stands at two places of a list is listed twice.
proof fn lemma_listed_twice(l: Seq<u32>, p: int, q: int)
    requires
        0 <= p < q < l.len(),
        l[p] == l[q],
    ensures
        listed(l, l[p]) >= 2,
    decreases l.len(),
{
    let t = l.drop_last();
    if q < l.len() - 1 {
        lemma_listed_twice(t, p, q);
        assert(t[p] == l[p]);
    } else {
        lemma_listed_once(t, p);
        assert(t[p] == l[p]);
    }
}

proof fn lemma_listed_once(l: Seq<u32>, p: int)
    requires
        0 <= p < l.len(),
    ensures
        listed(l, l[p]) >= 1,
    decreases l.len(),
{
    let t = l.drop_last();
    if p < l.len() - 1 {
        lemma_listed_once(t, p);
        assert(t[p] == l[p]);
    }
    lemma_listed_counts(t, l[p]);
}

proof fn lemma_listed_counts(l: Seq<u32>, x: u32)
    ensures
        listed(l, x) >= 0,
    decreases l.len(),
{
    if l.len() > 0 {
        lemma_listed_counts(l.drop_last(), x);
    }
}

proof fn lemma_flips_count(g: &GibbsSampler, s: Seq<i8>, dec: Seq<bool>, k: int)
    requires
        0 <= k <= g.class_members@.len(),
        k <= dec.len(),
        spins(s, s.len() as int),
        g.within(s.len() as int),
        forall|p: int, q: int|
            0 <= p < q < g.class_members@.len() ==> g.class_members@[p] != g.class_members@[q],
    ensures
        g.swept(s, dec, k).len() == s.len(),
        forall|i: int|
            0 <= i < s.len() && (forall|p: int| 0 <= p < k ==> g.class_members@[p] != i)
                ==> #[trigger] g.swept(s, dec, k)[i] == s[i],
        g.flips_upto(s, dec, k) == changed(s, g.swept(s, dec, k), s.len() as int),
    decreases k,
{
    if k > 0 {
        lemma_flips_count(g, s, dec, k - 1);
        let before = g.swept(s, dec, k - 1);
        let i = g.class_members@[k - 1] as int;
        assert(0 <= i < s.len());
        assert(before[i] == s[i]);
        let x: i8 = if dec[k - 1] {
            1i8
        } else {
            -1i8
        };
        lemma_changed_update(s, before, s.len() as int, i, x);
    } else {
        lemma_changed_nothing(s, s.len() as int);
    }
}

/// The flip counter counts the spins that a sweep changed: as many flips are
/// counted as there are spins in which the states before and after differ.
pub proof fn flips_count_changed_spins(
    g: &GibbsSampler,
    colors: Seq<u32>,
    n_colors: u32,
    s: Seq<i8>,
    dec: Seq<bool>,
)
    requires
        g.groups(colors, n_colors),
        colors.len() <= u32::MAX,
        forall|i: int| 0 <= i < colors.len() ==> #[trigger] colors[i] < n_colors,
        g.within(colors.len() as int),
        spins(s, colors.len() as int),
        dec.len() == g.class_members@.len(),
    ensures
        g.flips_upto(s, dec, dec.len() as int) == changed(
            s,
            g.swept(s, dec, dec.len() as int),
            s.len() as int,
        ),
{
    sweep_visits_every_spin(g, colors, n_colors);
    assert forall|p: int, q: int| 0 <= p < q < g.class_members@.len() implies g.class_members@[p]
        != g.class_members@[q] by {
        if g.class_members@[p] == g.class_members@[q] {
            lemma_listed_twice(g.class_members@, p, q);
            let i = g.class_members@[p] as int;
            assert(listed(g.class_members@, i as u32) == 1);
        }
    }
    lemma_flips_count(g, s, dec, dec.len() as int);
}

proof fn lemma_classes_len(colors: Seq<u32>, c: int)
    ensures
        classes_upto(colors, c).len() == class_total(colors, c, colors.len() as int),
    decreases c,
{
    if c > 0 {
        lemma_classes_len(colors, c - 1);
    }
}

/// Whether color `c` is taken by a spin before `i` that spin `i` is coupled to.
pub open spec fn taken<T: Scalar>(m: &IsingModel<T>, colors: Seq<u32>, i: int, c: int) -> bool {
    exists|e: int| #[trigger] takes(m, colors, i, c, e)
}

/// Whether entry `e` couples spin `i` to an earlier spin of color `c`.
pub open spec fn takes<T: Scalar>(
    m: &IsingModel<T>,
    colors: Seq<u32>,
    i: int,
    c: int,
    e: int,
) -> bool {
    let x = m.j.entries@[e];
    m.j.indptr@[i] <= e < m.j.indptr@[i + 1] && x.col < i && colors[x.col as int] == c
}

/// Every spin has the first color that no earlier neighbour has.
pub open spec fn greedy<T: Scalar>(m: &IsingModel<T>, colors: Seq<u32>, k: int) -> bool {
    forall|i: int| 0 <= i < k ==> #[trigger] greedy_at(m, colors, i)
}

pub open spec fn greedy_at<T: Scalar>(m: &IsingModel<T>, colors: Seq<u32>, i: int) -> bool {
    &&& !taken(m, colors, i, colors[i] as int)
    &&& forall|c: int| 0 <= c < colors[i] ==> #[trigger] taken(m, colors, i, c)
}

/// Couplings go both ways.
pub open spec fn symmetric<T: Scalar>(m: &IsingModel<T>) -> bool {
    forall|i: int, k: int| #[trigger] m.coupled(i, k) ==> m.coupled(k, i)
}

/// A greedy coloring is proper: coupled spins differ in color.
pub proof fn greedy_is_proper<T: Scalar>(m: &IsingModel<T>, colors: Seq<u32>)
    requires
        m.wf(),
        symmetric(m),
        forall|i: int| !m.coupled(i, i),
        colors.len() == m.n,
        greedy(m, colors, m.n as int),
    ensures
        proper(m, colors),
{
    assert forall|i: int, k: int|
        0 <= i < m.n && 0 <= k < m.n && #[trigger] m.coupled(i, k) implies colors[i]
        != colors[k] by {
        assert(m.coupled(k, i));
        let (a, b) = if i < k {
            (i, k)
        } else {
            (k, i)
        };
        assert(a < b) by {
            assert(!m.coupled(i, i));
        }
        assert(m.coupled(b, a));
        let e = choose|e: int|
            0 <= e < m.j.entries@.len() && (#[trigger] m.j.entries@[e]).row == b
                && m.j.entries@[e].col == a;
        row_holds_own_entries(&m.j, b, e);
        assert(takes(m, colors, b, colors[a] as int, e));
        assert(taken(m, colors, b, colors[a] as int));
        assert(greedy_at(m, colors, b));
    }
}

fn is_taken<T: Scalar>(m: &IsingModel<T>, colors: &Vec<u32>, i: usize, c: u32) -> (r: bool)
    requires
        m.wf(),
        i < m.n,
        i <= colors@.len(),
    ensures
        r == taken(m, colors@, i as int, c as int),
{
    let (from, to): (usize, usize) = m.j.row(i);
    let mut e: usize = from;
    while e < to
        invariant
            m.wf(),
            i < m.n,
            i <= colors@.len(),
            from == m.j.indptr@[i as int],
            to == m.j.indptr@[i + 1],
            from <= e <= to <= m.j.entries@.len(),
            forall|d: int| from <= d < e ==> !takes(m, colors@, i as int, c as int, d),
        decreases to - e,
    {
        let col: usize = m.j.entries[e].col as usize;
        if col < i && colors[col] == c {
            assert(takes(m, colors@, i as int, c as int, e as int));
            return true;
        }
        e += 1;
    }
    false
}

/// Colors the spins greedily in order: each gets the first color that no
/// earlier neighbour has. Also the number of colors in use.
pub fn greedy_coloring<T: Scalar>(m: &IsingModel<T>) -> (r: (Vec<u32>, u32))
    requires
        m.wf(),
        m.n < u32::MAX,
    ensures
        r.0@.len() == m.n,
        greedy(m, r.0@, m.n as int),
        r.1 <= m.n,
        forall|i: int| 0 <= i < m.n ==> (#[trigger] r.0@[i]) < r.1,
        r.1 > 0 ==> exists|i: int| 0 <= i < m.n && #[trigger] r.0@[i] == r.1 - 1,
{
    let mut colors: Vec<u32> = Vec::new();
    let mut used: u32 = 0;
    let mut i: usize = 0;
    while i < m.n
        invariant
            m.wf(),
            m.n < u32::MAX,
            i <= m.n,
            colors@.len() == i,
            greedy(m, colors@, i as int),
            used <= i,
            forall|k: int| 0 <= k < i ==> (#[trigger] colors@[k]) <= k && colors@[k] < used,
            used > 0 ==> exists|k: int| 0 <= k < i && #[trigger] colors@[k] == used - 1,
        decreases m.n - i,
    {
        let mut c: u32 = 0;
        while (c as usize) < i && is_taken(m, &colors, i, c)
            invariant
                m.wf(),
                i < m.n,
                m.n < u32::MAX,
                colors@.len() == i,
                c <= i,
                forall|d: int| 0 <= d < c ==> #[trigger] taken(m, colors@, i as int, d),
            ensures
                c <= i,
                forall|d: int| 0 <= d < c ==> #[trigger] taken(m, colors@, i as int, d),
                c < i ==> !taken(m, colors@, i as int, c as int),
            decreases i - c,
        {
            c += 1;
        }
        let ghost before = colors@;
        assert(!taken(m, before, i as int, c as int)) by {
            if taken(m, before, i as int, c as int) {
                let e = choose|e: int| #[trigger] takes(m, before, i as int, c as int, e);
                let col = m.j.entries@[e].col as int;
                assert(before[col] <= col);
            }
        }
        colors.push(c);
        proof {
            assert forall|k: int| 0 <= k < i + 1 implies #[trigger] greedy_at(m, colors@, k) by {
                lemma_taken_prefix(m, before, colors@, k);
                if k < i {
                    assert(greedy_at(m, before, k));
                }
            }
        }
        if c >= used {
            used = c + 1;
            assert(colors@[i as int] == used - 1);
        } else {
            let ghost k = choose|k: int| 0 <= k < i && #[trigger] before[k] == used - 1;
            assert(colors@[k] == used - 1);
        }
        i += 1;
    }
    (colors, used)
}

proof fn lemma_taken_prefix<T: Scalar>(m: &IsingModel<T>, a: Seq<u32>, b: Seq<u32>, i: int)
    requires
        m.wf(),
        0 <= i < m.n,
        i <= a.len() <= b.len(),
        forall|k: int| 0 <= k < a.len() ==> a[k] == b[k],
    ensures
        forall|c: int|
            #![trigger taken(m, a, i, c)]
            #![trigger taken(m, b, i, c)]
            taken(m, a, i, c) == taken(m, b, i, c),
{
    assert forall|c: int|
        #![trigger taken(m, a, i, c)]
        #![trigger taken(m, b, i, c)]
        taken(m, a, i, c) == taken(m, b, i, c) by {
        if taken(m, a, i, c) {
            let e = choose|e: int| #[trigger] takes(m, a, i, c, e);
            assert(takes(m, b, i, c, e));
        }
        if taken(m, b, i, c) {
            let e = choose|e: int| #[trigger] takes(m, b, i, c, e);
            assert(takes(m, a, i, c, e));
        }
    }
}

} // verus!
