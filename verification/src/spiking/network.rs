//! Populations and their synapses, frozen into a flat outgoing adjacency.
//!
//! A synapse carries a weight (a membrane jump) and an integer delay of at
//! least one step. A frozen network lists the synapses by presynaptic neuron,
//! then by postsynaptic neuron, equal pairs in the order in which they were
//! added.

use crate::scalar::Scalar;
use crate::sorting::{run_starts, stable_sort};
use crate::sorting::Keyed;
use crate::sorting::{lemma_run_holds, lemma_runs_follow};
use crate::sorting::{lemma_with_key_member, ordered, stably_sorted, starts_runs, with_key};
use crate::spiking::lif::Lif;
use vstd::prelude::*;

verus! {

/// A neuron and its external drive.
#[derive(Debug, Clone, Copy)]
pub struct Unit<T> {
    pub neuron: Lif<T>,
    /// Whether the neuron receives Poisson input.
    pub driven: bool,
    /// Membrane jump per external spike.
    pub poisson_weight: T,
}

/// One population of identical neurons plus its external drive.
#[derive(Debug, Clone)]
pub struct PopulationSpec<T> {
    pub name: String,
    pub n: usize,
    pub unit: Unit<T>,
}

/// A synapse by global neuron index.
#[derive(Debug, Clone, Copy)]
pub struct Synapse<T> {
    pub pre: u32,
    pub post: u32,
    pub weight: T,
    /// Delay in steps, at least 1.
    pub delay: u32,
}

impl<T: Copy> Keyed for Synapse<T> {
    open spec fn key(&self) -> (int, int) {
        (self.pre as int, self.post as int)
    }

    fn sort_key(&self) -> (k: (u64, u64)) {
        (self.pre as u64, self.post as u64)
    }
}

/// Neurons of the first `k` populations.
pub open spec fn neurons_before<T>(pops: Seq<PopulationSpec<T>>, k: int) -> int
    decreases k,
{
    if k <= 0 {
        0
    } else {
        neurons_before(pops, k - 1) + pops[k - 1].n
    }
}

/// Accumulates populations and synapses, then freezes a [`Network`].
pub struct NetworkBuilder<T> {
    pub pops: Vec<PopulationSpec<T>>,
    pub offsets: Vec<usize>,
    pub n_total: usize,
    pub syn: Vec<Synapse<T>>,
}

impl<T: Scalar> NetworkBuilder<T> {
    /// Offsets are running totals, every synapse joins neurons that exist, and
    /// every delay is at least one step.
    pub open spec fn wf(&self) -> bool {
        &&& self.offsets@.len() == self.pops@.len()
        &&& forall|p: int|
            0 <= p < self.pops@.len() ==> #[trigger] self.offsets@[p] == neurons_before(
                self.pops@,
                p,
            )
        &&& self.n_total == neurons_before(self.pops@, self.pops@.len() as int)
        &&& self.n_total <= u32::MAX
        &&& forall|e: int| 0 <= e < self.syn@.len() ==> self.joins(#[trigger] self.syn@[e])
    }

    /// Whether a synapse joins two neurons of the network with a delay.
    pub open spec fn joins(&self, s: Synapse<T>) -> bool {
        s.pre < self.n_total && s.post < self.n_total && s.delay >= 1
    }

    pub fn new() -> (r: Self)
        ensures
            r.wf(),
            r.pops@.len() == 0,
            r.syn@.len() == 0,
            r.n_total == 0,
    {
        NetworkBuilder { pops: Vec::new(), offsets: Vec::new(), n_total: 0, syn: Vec::new() }
    }

    /// Adds a population; returns its index. The neurons of population `p` are
    /// `offset(p) .. offset(p) + n`.
    pub fn add_population(&mut self, spec: PopulationSpec<T>) -> (idx: usize)
        requires
            old(self).wf(),
            old(self).n_total + spec.n <= u32::MAX,
        ensures
            final(self).wf(),
            idx == old(self).pops@.len(),
            final(self).pops@ == old(self).pops@.push(spec),
            final(self).n_total == old(self).n_total + spec.n,
            final(self).syn@ == old(self).syn@,
    {
        let idx: usize = self.pops.len();
        let ghost before = self.pops@;
        self.offsets.push(self.n_total);
        self.n_total = self.n_total + spec.n;
        self.pops.push(spec);
        proof {
            assert forall|p: int| 0 <= p <= before.len() implies #[trigger] neurons_before(
                self.pops@,
                p,
            ) == neurons_before(before, p) by {
                lemma_neurons_prefix(before, self.pops@, p);
            }
            assert(neurons_before(self.pops@, (before.len() + 1) as int) == neurons_before(
                self.pops@,
                before.len() as int,
            ) + spec.n);
        }
        proof {
            assert forall|e: int| 0 <= e < self.syn@.len() implies self.joins(
                #[trigger] self.syn@[e],
            ) by {
                assert(old(self).joins(old(self).syn@[e]));
            }
        }
        idx
    }

    /// Global index of the first neuron in population `p`.
    pub fn offset(&self, p: usize) -> (r: usize)
        requires
            self.wf(),
            p < self.pops@.len(),
        ensures
            r == neurons_before(self.pops@, p as int),
    {
        self.offsets[p]
    }

    /// Adds a single synapse by global neuron index.
    pub fn connect_explicit(&mut self, pre: u32, post: u32, weight: T, delay_steps: u32)
        requires
            old(self).wf(),
            pre < old(self).n_total,
            post < old(self).n_total,
            delay_steps >= 1,
        ensures
            final(self).wf(),
            final(self).pops@ == old(self).pops@,
            final(self).n_total == old(self).n_total,
            final(self).syn@ == old(self).syn@.push(
                (Synapse { pre, post, weight, delay: delay_steps }),
            ),
    {
        self.syn.push(Synapse { pre, post, weight, delay: delay_steps });
    }

    /// The synapses that the first `q` ordered pairs of two populations get:
    /// pair `q` joins neuron `q / npost` of the first to neuron `q % npost` of
    /// the second where its draw says so; no neuron is joined to itself.
    pub open spec fn wired(
        pre0: int,
        post0: int,
        npost: int,
        weight: T,
        delay: u32,
        draws: Seq<bool>,
        q: int,
    ) -> Seq<Synapse<T>>
        decreases q,
    {
        if q <= 0 {
            Seq::empty()
        } else {
            let rest = Self::wired(pre0, post0, npost, weight, delay, draws, q - 1);
            let pre = pre0 + (q - 1) / npost;
            let post = post0 + (q - 1) % npost;
            if pre != post && draws[q - 1] {
                rest.push(Synapse { pre: pre as u32, post: post as u32, weight, delay })
            } else {
                rest
            }
        }
    }

    /// Random connectivity from `pre_pop` to `post_pop`: ordered pair `q`
    /// connects where `draws[q]` says so. Self-connections are left out
    /// whatever their draw.
    pub fn connect_random(
        &mut self,
        pre_pop: usize,
        post_pop: usize,
        weight: T,
        delay_steps: u32,
        draws: &Vec<bool>,
    )
        requires
            old(self).wf(),
            pre_pop < old(self).pops@.len(),
            post_pop < old(self).pops@.len(),
            delay_steps >= 1,
            draws@.len() == old(self).pops@[pre_pop as int].n * old(self).pops@[post_pop as int].n,
        ensures
            final(self).wf(),
            final(self).pops@ == old(self).pops@,
            final(self).n_total == old(self).n_total,
            final(self).syn@ == old(self).syn@ + Self::wired(
                neurons_before(old(self).pops@, pre_pop as int),
                neurons_before(old(self).pops@, post_pop as int),
                old(self).pops@[post_pop as int].n as int,
                weight,
                delay_steps,
                draws@,
                draws@.len() as int,
            ),
    {
        let pre0: usize = self.offsets[pre_pop];
        let post0: usize = self.offsets[post_pop];
        let npre: usize = self.pops[pre_pop].n;
        let npost: usize = self.pops[post_pop].n;
        let ghost before = self.syn@;
        let total: usize = draws.len();
        proof {
            lemma_offset_fits(self.pops@, pre_pop as int);
            lemma_offset_fits(self.pops@, post_pop as int);
        }
        let mut q: usize = 0;
        assert(before + Self::wired(
            pre0 as int,
            post0 as int,
            npost as int,
            weight,
            delay_steps,
            draws@,
            0,
        ) =~= before);
        while q < total
            invariant
                q <= total,
                total == draws@.len(),
                total == npre * npost,
                delay_steps >= 1,
                pre0 + npre <= self.n_total,
                post0 + npost <= self.n_total,
                self.wf(),
                self.pops@ == old(self).pops@,
                self.n_total == old(self).n_total,
                self.syn@ == before + Self::wired(
                    pre0 as int,
                    post0 as int,
                    npost as int,
                    weight,
                    delay_steps,
                    draws@,
                    q as int,
                ),
            decreases total - q,
        {
            proof {
                if npost == 0 {
                    assert(npre * npost == 0) by (nonlinear_arith)
                        requires
                            npost == 0,
                    ;
                }
                vstd::arithmetic::div_mod::lemma_fundamental_div_mod(q as int, npost as int);
                assert(q / npost < npre) by (nonlinear_arith)
                    requires
                        q == npost * (q / npost) + q % npost,
                        0 <= q % npost,
                        q < npre * npost,
                        npost >= 1,
                ;
            }
            let pre: usize = pre0 + q / npost;
            let post: usize = post0 + q % npost;
            let ghost w0 = Self::wired(
                pre0 as int,
                post0 as int,
                npost as int,
                weight,
                delay_steps,
                draws@,
                q as int,
            );
            if pre != post && draws[q] {
                let s = Synapse { pre: pre as u32, post: post as u32, weight, delay: delay_steps };
                self.syn.push(s);
                assert((before + w0).push(s) =~= before + w0.push(s));
            }
            q += 1;
        }
    }
}

proof fn lemma_neurons_prefix<T>(a: Seq<PopulationSpec<T>>, b: Seq<PopulationSpec<T>>, k: int)
    requires
        k <= a.len() <= b.len(),
        forall|i: int| 0 <= i < a.len() ==> a[i] == b[i],
    ensures
        neurons_before(a, k) == neurons_before(b, k),
    decreases k,
{
    if k > 0 {
        lemma_neurons_prefix(a, b, k - 1);
    }
}

/// A population ends where the next begins, at or before the total.
pub proof fn lemma_offset_fits<T>(pops: Seq<PopulationSpec<T>>, p: int)
    requires
        0 <= p < pops.len(),
    ensures
        0 <= neurons_before(pops, p),
        neurons_before(pops, p) + pops[p].n <= neurons_before(pops, pops.len() as int),
{
    lemma_neurons_mono(pops, 0, p);
    lemma_neurons_mono(pops, p + 1, pops.len() as int);
}

proof fn lemma_neurons_mono<T>(pops: Seq<PopulationSpec<T>>, a: int, b: int)
    requires
        0 <= a <= b <= pops.len(),
    ensures
        neurons_before(pops, a) <= neurons_before(pops, b),
    decreases b - a,
{
    if a < b {
        lemma_neurons_mono(pops, a, b - 1);
    }
}

/// Whether every neuron of population `p` is as its population says.
pub open spec fn laid_out<T>(pops: Seq<PopulationSpec<T>>, p: int, units: Seq<Unit<T>>) -> bool {
    forall|k: int|
        neurons_before(pops, p) <= k < neurons_before(pops, p) + pops[p].n ==> #[trigger] units[k]
            == pops[p].unit
}

/// A frozen, runnable spiking network.
pub struct Network<T> {
    pub n: usize,
    /// The neurons, population by population.
    pub units: Vec<Unit<T>>,
    /// Per-population name, first neuron and size.
    pub populations: Vec<(String, usize, usize)>,
    /// Synapses by presynaptic neuron: those of neuron `i` stand at
    /// `out_indptr[i] .. out_indptr[i + 1]`.
    pub out_indptr: Vec<usize>,
    pub out: Vec<Synapse<T>>,
    pub max_delay: u32,
}

impl<T: Scalar> Network<T> {
    /// Arrays have their sizes; synapses are in order, joined to neurons that
    /// exist, and delayed by at least one and at most `max_delay` steps.
    pub open spec fn wf(&self) -> bool {
        &&& self.n <= u32::MAX
        &&& self.units@.len() == self.n
        &&& starts_runs(self.out@, self.n as int, self.out_indptr@)
        &&& self.max_delay >= 1
        &&& self.max_delay < usize::MAX
        &&& (self.max_delay + 1) * self.n <= usize::MAX
        &&& ordered(self.out@)
        &&& forall|e: int|
            0 <= e < self.out@.len() ==> {
                &&& (#[trigger] self.out@[e]).pre < self.n
                &&& self.out@[e].post < self.n
                &&& 1 <= self.out@[e].delay <= self.max_delay
            }
    }

    /// Synapses that leave neuron `i`.
    pub open spec fn degree(&self, i: int) -> int {
        self.out_indptr@[i + 1] - self.out_indptr@[i]
    }

    /// `self` is what freezing `b` gives.
    pub open spec fn frozen_from(&self, b: &NetworkBuilder<T>) -> bool {
        &&& self.n == b.n_total
        &&& stably_sorted(b.syn@, self.out@)
        &&& self.populations@.len() == b.pops@.len()
        &&& forall|p: int|
            #![trigger self.populations@[p]]
            0 <= p < b.pops@.len() ==> {
                &&& self.populations@[p].0@ == b.pops@[p].name@
                &&& self.populations@[p].1 == neurons_before(b.pops@, p)
                &&& self.populations@[p].2 == b.pops@[p].n
            }
        &&& forall|p: int|
            0 <= p < b.pops@.len() ==> #[trigger] laid_out(b.pops@, p, self.units@)
        &&& forall|e: int|
            0 <= e < self.out@.len() ==> (#[trigger] self.out@[e]).delay <= self.max_delay
        &&& self.max_delay == 1 || exists|e: int|
            0 <= e < self.out@.len() && (#[trigger] self.out@[e]).delay == self.max_delay
    }

    /// Number of populations.
    pub fn n_populations(&self) -> (r: usize)
        ensures
            r == self.populations@.len(),
    {
        self.populations.len()
    }

    /// `(name, start, len)` of population `p`.
    pub fn population(&self, p: usize) -> (r: (&str, usize, usize))
        requires
            p < self.populations@.len(),
        ensures
            r.0@ == self.populations@[p as int].0@,
            r.1 == self.populations@[p as int].1,
            r.2 == self.populations@[p as int].2,
    {
        let q = &self.populations[p];
        (q.0.as_str(), q.1, q.2)
    }

    /// Out-degree (fan-out) of global neuron `i`.
    pub fn out_degree(&self, i: usize) -> (r: usize)
        requires
            self.wf(),
            i < self.n,
        ensures
            r == self.degree(i as int),
    {
        proof {
            lemma_indptr_mono(self, i as int, i + 1);
        }
        self.out_indptr[i + 1] - self.out_indptr[i]
    }

    /// Total number of synapses.
    pub fn n_synapses(&self) -> (r: usize)
        ensures
            r == self.out@.len(),
    {
        self.out.len()
    }
}

/// The ranges of the synapse list follow one another.
pub proof fn lemma_indptr_mono<T: Scalar>(net: &Network<T>, i: int, j: int)
    requires
        net.wf(),
        0 <= i <= j <= net.n,
    ensures
        net.out_indptr@[i] <= net.out_indptr@[j],
{
    lemma_runs_follow(net.out@, net.n as int, net.out_indptr@, i, j);
}

/// The synapses of neuron `i` are exactly those listed in its range.
pub proof fn range_holds_own_synapses<T: Scalar>(net: &Network<T>, i: int, e: int)
    requires
        net.wf(),
        0 <= i < net.n,
        0 <= e < net.out@.len(),
    ensures
        net.out@[e].pre == i <==> net.out_indptr@[i] <= e < net.out_indptr@[i + 1],
{
    lemma_run_holds(net.out@, net.n as int, net.out_indptr@, i, e);
}

/// Synapses with a presynaptic neuron `i`.
pub open spec fn fan_out<T: Scalar>(s: Seq<Synapse<T>>, i: int) -> int
    decreases s.len(),
{
    if s.len() == 0 {
        0
    } else {
        fan_out(s.drop_last(), i) + if s.last().pre == i {
            1int
        } else {
            0
        }
    }
}

/// Appends `n` copies of `x`.
fn repeat<A: Copy>(v: &mut Vec<A>, x: A, n: usize)
    ensures
        final(v)@ == old(v)@ + Seq::new(n as nat, |i: int| x),
{
    let ghost before = v@;
    let mut k: usize = 0;
    assert(before + Seq::new(0, |i: int| x) =~= before);
    while k < n
        invariant
            k <= n,
            v@ == before + Seq::new(k as nat, |i: int| x),
        decreases n - k,
    {
        v.push(x);
        k += 1;
        assert(v@ =~= before + Seq::new(k as nat, |i: int| x));
    }
}

/// Synapses from `i` to a neuron below `n`.
spec fn fan_below<T: Scalar>(s: Seq<Synapse<T>>, i: int, n: int) -> int
    decreases n,
{
    if n <= 0 {
        0
    } else {
        fan_below(s, i, n - 1) + with_key(s, (i, n - 1)).len()
    }
}

proof fn lemma_fan_below_push<T: Scalar>(s: Seq<Synapse<T>>, x: Synapse<T>, i: int, n: int)
    ensures
        fan_below(s.push(x), i, n) == fan_below(s, i, n) + if x.pre == i && x.post < n {
            1int
        } else {
            0
        },
    decreases n,
{
    assert(s.push(x).drop_last() =~= s);
    if n > 0 {
        lemma_fan_below_push(s, x, i, n - 1);
    }
}

proof fn lemma_fan_out_is_fan_below<T: Scalar>(s: Seq<Synapse<T>>, i: int, n: int)
    requires
        forall|e: int| 0 <= e < s.len() ==> (#[trigger] s[e]).post < n,
    ensures
        fan_out(s, i) == fan_below(s, i, n),
    decreases s.len(),
{
    if s.len() == 0 {
        lemma_fan_below_empty(s, i, n);
    } else {
        let t = s.drop_last();
        assert forall|e: int| 0 <= e < t.len() implies (#[trigger] t[e]).post < n by {
            assert(s[e].post < n);
        }
        lemma_fan_out_is_fan_below(t, i, n);
        assert(s[s.len() - 1].post < n);
        assert(t.push(s.last()) =~= s);
        lemma_fan_below_push(t, s.last(), i, n);
    }
}

proof fn lemma_fan_below_empty<T: Scalar>(s: Seq<Synapse<T>>, i: int, n: int)
    requires
        s.len() == 0,
    ensures
        fan_below(s, i, n) == 0,
    decreases n,
{
    if n > 0 {
        lemma_fan_below_empty(s, i, n - 1);
    }
}

proof fn lemma_fan_below_agrees<T: Scalar>(s: Seq<Synapse<T>>, r: Seq<Synapse<T>>, i: int, n: int)
    requires
        stably_sorted(s, r),
    ensures
        fan_below(s, i, n) == fan_below(r, i, n),
    decreases n,
{
    if n > 0 {
        lemma_fan_below_agrees(s, r, i, n - 1);
        assert(with_key(r, (i, n - 1)) == with_key(s, (i, n - 1)));
    }
}

proof fn lemma_fan_out_prefix<T: Scalar>(net: &Network<T>, i: int, t: int)
    requires
        net.wf(),
        0 <= i < net.n,
        0 <= t <= net.out@.len(),
    ensures
        fan_out(net.out@.take(t), i) == (if t <= net.out_indptr@[i] {
            0
        } else if t >= net.out_indptr@[i + 1] {
            net.degree(i)
        } else {
            t - net.out_indptr@[i]
        }),
    decreases t,
{
    lemma_indptr_mono(net, i, i + 1);
    if t > 0 {
        lemma_fan_out_prefix(net, i, t - 1);
        range_holds_own_synapses(net, i, t - 1);
        assert(net.out@.take(t).drop_last() =~= net.out@.take(t - 1));
    }
}

/// The out-degree of a neuron is the number of synapses that were added with
/// that neuron in front.
pub proof fn degree_counts_added_synapses<T: Scalar>(
    b: &NetworkBuilder<T>,
    net: &Network<T>,
    i: int,
)
    requires
        b.wf(),
        net.wf(),
        net.frozen_from(b),
        0 <= i < net.n,
    ensures
        net.degree(i) == fan_out(b.syn@, i),
{
    let n = net.n as int;
    lemma_fan_out_prefix(net, i, net.out@.len() as int);
    assert(net.out@.take(net.out@.len() as int) =~= net.out@);
    lemma_indptr_mono(net, i, i + 1);
    assert(net.out_indptr@[i + 1] <= net.out@.len());
    assert forall|e: int| 0 <= e < b.syn@.len() implies (#[trigger] b.syn@[e]).post < n by {
        assert(b.joins(b.syn@[e]));
    }
    lemma_fan_out_is_fan_below(b.syn@, i, n);
    lemma_fan_out_is_fan_below(net.out@, i, n);
    lemma_fan_below_agrees(b.syn@, net.out@, i, n);
}

impl<T: Scalar> NetworkBuilder<T> {
    /// Name, first neuron and size of every population.
    fn directory(&self) -> (r: Vec<(String, usize, usize)>)
        requires
            self.wf(),
        ensures
            r@.len() == self.pops@.len(),
            forall|p: int|
                #![trigger r@[p]]
                0 <= p < self.pops@.len() ==> {
                    &&& r@[p].0@ == self.pops@[p].name@
                    &&& r@[p].1 == neurons_before(self.pops@, p)
                    &&& r@[p].2 == self.pops@[p].n
                },
    {
        let mut r: Vec<(String, usize, usize)> = Vec::new();
        let mut p: usize = 0;
        while p < self.pops.len()
            invariant
                p <= self.pops@.len(),
                self.wf(),
                r@.len() == p,
                forall|m: int|
                    #![trigger r@[m]]
                    0 <= m < p ==> {
                        &&& r@[m].0@ == self.pops@[m].name@
                        &&& r@[m].1 == neurons_before(self.pops@, m)
                        &&& r@[m].2 == self.pops@[m].n
                    },
            decreases self.pops@.len() - p,
        {
            let name = self.pops[p].name.clone();
            assert(name@ == self.pops@[p as int].name@);
            r.push((name, self.offsets[p], self.pops[p].n));
            p += 1;
        }
        r
    }

    /// Every neuron, population by population.
    fn expand(&self) -> (units: Vec<Unit<T>>)
        requires
            self.wf(),
        ensures
            units@.len() == self.n_total,
            forall|p: int|
                0 <= p < self.pops@.len() ==> #[trigger] laid_out(self.pops@, p, units@),
    {
        let mut units: Vec<Unit<T>> = Vec::new();
        let mut p: usize = 0;
        while p < self.pops.len()
            invariant
                p <= self.pops@.len(),
                self.wf(),
                units@.len() == neurons_before(self.pops@, p as int),
                forall|m: int| 0 <= m < p ==> #[trigger] laid_out(self.pops@, m, units@),
            decreases self.pops@.len() - p,
        {
            let spec = &self.pops[p];
            let ghost before = units@;
            repeat(&mut units, spec.unit, spec.n);
            proof {
                assert forall|m: int| 0 <= m < p + 1 implies #[trigger] laid_out(
                    self.pops@,
                    m,
                    units@,
                ) by {
                    if m < p {
                        lemma_neurons_mono(self.pops@, 0, m);
                        lemma_neurons_mono(self.pops@, m + 1, p as int);
                        assert(laid_out(self.pops@, m, before));
                    }
                }
            }
            p += 1;
        }
        units
    }

    /// Freezes into a runnable network: expands the populations and lists the
    /// synapses by presynaptic neuron.
    pub fn build(self) -> (net: Network<T>)
        requires
            self.wf(),
            2 * self.n_total <= usize::MAX,
            forall|e: int|
                #![trigger self.syn@[e]]
                0 <= e < self.syn@.len() ==> self.syn@[e].delay < usize::MAX && (self.syn@[e].delay
                    + 1) * self.n_total <= usize::MAX,
        ensures
            net.wf(),
            net.frozen_from(&self),
    {
        let n: usize = self.n_total;
        let units = self.expand();
        let populations = self.directory();
        let out = stable_sort(&self.syn);
        proof {
            assert forall|e: int| 0 <= e < out@.len() implies self.joins(#[trigger] out@[e])
                && self.syn@.contains(out@[e]) by {
                lemma_sorted_member(self.syn@, out@, e);
                let m = choose|m: int| 0 <= m < self.syn@.len() && self.syn@[m] == out@[e];
                assert(self.joins(self.syn@[m]));
            }
        }
        let out_indptr = run_starts(&out, n);
        let max_delay: u32 = longest_delay(&out);
        proof {
            if max_delay != 1 {
                let e = choose|e: int|
                    0 <= e < out@.len() && (#[trigger] out@[e]).delay == max_delay;
                assert(self.syn@.contains(out@[e]));
                let m = choose|m: int| 0 <= m < self.syn@.len() && self.syn@[m] == out@[e];
                assert(self.syn@[m].delay == max_delay);
            }
        }
        let net = Network { n, units, populations, out_indptr, out, max_delay };
        assert(stably_sorted(self.syn@, net.out@));
        assert(net.wf());
        assert(net.frozen_from(&self));
        net
    }
}

proof fn lemma_sorted_member<T: Scalar>(s: Seq<Synapse<T>>, r: Seq<Synapse<T>>, e: int)
    requires
        stably_sorted(s, r),
        0 <= e < r.len(),
    ensures
        s.contains(r[e]),
{
    lemma_with_key_member(r, r[e]);
    lemma_with_key_member(s, r[e]);
    assert(with_key(r, r[e].key()) == with_key(s, r[e].key()));
}

/// The longest delay of a list of synapses, at least one step.
fn longest_delay<T: Scalar>(out: &Vec<Synapse<T>>) -> (d: u32)
    ensures
        d >= 1,
        forall|e: int| 0 <= e < out@.len() ==> (#[trigger] out@[e]).delay <= d,
        d == 1 || exists|e: int| 0 <= e < out@.len() && (#[trigger] out@[e]).delay == d,
{
    let mut d: u32 = 1;
    let mut e: usize = 0;
    while e < out.len()
        invariant
            e <= out@.len(),
            d >= 1,
            forall|m: int| 0 <= m < e ==> (#[trigger] out@[m]).delay <= d,
            d == 1 || exists|m: int| 0 <= m < e && (#[trigger] out@[m]).delay == d,
        decreases out@.len() - e,
    {
        if out[e].delay > d {
            d = out[e].delay;
        }
        e += 1;
    }
    d
}

} // verus!
