//! The clock-driven simulation.
//!
//! A spike of neuron `i` at step `t` deposits the weight of every outgoing
//! synapse into slot `(t + delay) mod L` of a delay ring of `L = max_delay + 1`
//! slots; a slot is read and cleared when its step comes round. All threshold
//! crossings of a step are collected first, and only then resets, refractory
//! arming and deposits are applied.

use crate::field::lattice::filled;
use crate::scalar::Scalar;
use crate::spiking::network::{lemma_indptr_mono, range_holds_own_synapses};
use crate::spiking::network::Network;
use vstd::arithmetic::div_mod::{lemma_mod_bound, lemma_small_mod};
use vstd::prelude::*;

verus! {

/// A network between two steps.
pub struct Sim<T> {
    /// Steps done.
    pub step: usize,
    /// Membrane potentials.
    pub v: Vec<T>,
    /// Refractory steps left.
    pub refr: Vec<u32>,
    /// Delay ring: slot `s` holds the input of neuron `i` at `s.n + i`.
    pub ring: Vec<T>,
    /// Steps at which each neuron fired.
    pub trains: Vec<Vec<usize>>,
    /// Spikes so far.
    pub spikes: u64,
    /// Synaptic operations so far: one per synapse of a neuron that fires.
    pub sops: u64,
}

/// Spikes of the first `k` neurons.
pub open spec fn spikes_of(trains: Seq<Vec<usize>>, k: int) -> int
    decreases k,
{
    if k <= 0 {
        0
    } else {
        spikes_of(trains, k - 1) + trains[k - 1]@.len()
    }
}

/// Synaptic operations of the first `k` neurons: spikes times fan-out.
pub open spec fn sops_of<T: Scalar>(net: &Network<T>, trains: Seq<Vec<usize>>, k: int) -> int
    decreases k,
{
    if k <= 0 {
        0
    } else {
        sops_of(net, trains, k - 1) + trains[k - 1]@.len() * net.degree(k - 1)
    }
}

/// Whether two spikes of one neuron are always more than its refractory period
/// apart, all of them before `step`.
pub open spec fn spaced(train: Seq<usize>, ref_steps: u32, step: int) -> bool {
    &&& forall|a: int| 0 <= a < train.len() ==> (#[trigger] train[a]) < step
    &&& forall|a: int, b: int|
        0 <= a < b < train.len() ==> (#[trigger] train[a]) + ref_steps < (#[trigger] train[b])
}

impl<T: Scalar> Network<T> {
    /// Slots of the delay ring.
    pub open spec fn slots(&self) -> int {
        self.max_delay + 1
    }

    /// Place of neuron `j` in the slot that is read at step `t`.
    pub open spec fn slot_place(&self, t: int, j: int) -> int {
        (t % self.slots()) * self.n + j
    }

    /// Arrays have their sizes, trains respect the refractory period, and the
    /// ledger counts what the trains hold.
    pub open spec fn tracks(&self, s: &Sim<T>) -> bool {
        &&& s.v@.len() == self.n
        &&& s.refr@.len() == self.n
        &&& s.trains@.len() == self.n
        &&& s.ring@.len() == self.slots() * self.n
        &&& s.spikes == spikes_of(s.trains@, self.n as int)
        &&& s.sops == sops_of(self, s.trains@, self.n as int)
        &&& forall|i: int|
            0 <= i < self.n ==> spaced(
                (#[trigger] s.trains@[i])@,
                self.units@[i].neuron.ref_steps,
                s.step as int,
            )
        &&& forall|i: int, a: int|
            #![trigger s.trains@[i]@[a]]
            0 <= i < self.n && 0 <= a < s.trains@[i]@.len() ==> s.trains@[i]@[a] + 1
                + self.units@[i].neuron.ref_steps <= s.step + s.refr@[i]
    }

    /// Membrane of a non-refractory neuron after decay, external arrivals and
    /// delivered synaptic input.
    pub open spec fn pushed(&self, s: &Sim<T>, arrivals: Seq<u64>, i: int) -> T {
        let u = self.units@[i];
        let r = u.neuron.relaxed(s.v@[i]);
        let p = if u.driven && arrivals[i] > 0 {
            r.sum(T::of_count(arrivals[i]).product(u.poisson_weight))
        } else {
            r
        };
        p.sum(s.ring@[self.slot_place(s.step as int, i)])
    }

    /// Whether neuron `i` fires in this step.
    pub open spec fn fires(&self, s: &Sim<T>, arrivals: Seq<u64>, i: int) -> bool {
        s.refr@[i] == 0 && self.pushed(s, arrivals, i).at_least(self.units@[i].neuron.v_th)
    }

    /// Membrane of neuron `i` after this step.
    pub open spec fn v_next(&self, s: &Sim<T>, arrivals: Seq<u64>, i: int) -> T {
        if s.refr@[i] > 0 || self.fires(s, arrivals, i) {
            self.units@[i].neuron.v_reset
        } else {
            self.pushed(s, arrivals, i)
        }
    }

    /// Refractory steps left to neuron `i` after this step.
    pub open spec fn refr_next(&self, s: &Sim<T>, arrivals: Seq<u64>, i: int) -> u32 {
        if s.refr@[i] > 0 {
            (s.refr@[i] - 1) as u32
        } else if self.fires(s, arrivals, i) {
            self.units@[i].neuron.ref_steps
        } else {
            0
        }
    }

    /// The ring with the slot of this step read and cleared.
    pub open spec fn consumed(&self, s: &Sim<T>) -> Seq<T> {
        let base = self.slot_place(s.step as int, 0);
        Seq::new(
            s.ring@.len(),
            |x: int|
                if base <= x < base + self.n {
                    T::zero_value()
                } else {
                    s.ring@[x]
                },
        )
    }

    /// The ring after the first `e` synapses had their turn: those of neurons
    /// that fire deposit their weight for the step at which they arrive.
    pub open spec fn deposited(&self, s: &Sim<T>, arrivals: Seq<u64>, e: int) -> Seq<T>
        decreases e,
    {
        if e <= 0 {
            self.consumed(s)
        } else {
            let r = self.deposited(s, arrivals, e - 1);
            let o = self.out@[e - 1];
            if self.fires(s, arrivals, o.pre as int) {
                let at = self.slot_place(s.step + o.delay, o.post as int);
                r.update(at, r[at].sum(o.weight))
            } else {
                r
            }
        }
    }

    /// Whether `t` is `s` one step later, for these external arrivals.
    pub open spec fn steps_to(&self, s: &Sim<T>, arrivals: Seq<u64>, t: &Sim<T>) -> bool {
        &&& t.step == s.step + 1
        &&& t.v@ == Seq::new(self.n as nat, |i: int| self.v_next(s, arrivals, i))
        &&& t.refr@ == Seq::new(self.n as nat, |i: int| self.refr_next(s, arrivals, i))
        &&& t.ring@ == self.deposited(s, arrivals, self.out@.len() as int)
        &&& t.trains@.len() == self.n
        &&& forall|i: int|
            0 <= i < self.n ==> (#[trigger] t.trains@[i])@ == (if self.fires(s, arrivals, i) {
                s.trains@[i]@.push(s.step)
            } else {
                s.trains@[i]@
            })
    }

    /// A network at rest, before the first step.
    pub open spec fn at_start(&self, s: &Sim<T>) -> bool {
        &&& s.step == 0
        &&& s.v@ == Seq::new(self.n as nat, |i: int| self.units@[i].neuron.v_reset)
        &&& s.refr@ == Seq::new(self.n as nat, |i: int| 0u32)
        &&& s.ring@ == Seq::new((self.slots() * self.n) as nat, |i: int| T::zero_value())
        &&& s.trains@.len() == self.n
        &&& forall|i: int| 0 <= i < self.n ==> (#[trigger] s.trains@[i])@.len() == 0
        &&& s.spikes == 0
        &&& s.sops == 0
    }

    /// Puts the network at rest.
    pub fn start(&self) -> (s: Sim<T>)
        requires
            self.wf(),
        ensures
            self.tracks(&s),
            self.at_start(&s),
    {
        let l: usize = self.max_delay as usize + 1;
        let mut v: Vec<T> = Vec::new();
        let mut trains: Vec<Vec<usize>> = Vec::new();
        let mut i: usize = 0;
        while i < self.n
            invariant
                i <= self.n,
                self.wf(),
                v@.len() == i,
                trains@.len() == i,
                forall|k: int| 0 <= k < i ==> v@[k] == self.units@[k].neuron.v_reset,
                forall|k: int| 0 <= k < i ==> (#[trigger] trains@[k])@.len() == 0,
            decreases self.n - i,
        {
            v.push(self.units[i].neuron.v_reset);
            trains.push(Vec::new());
            i += 1;
        }
        proof {
            lemma_no_spikes(self, trains@, self.n as int);
        }
        let s = Sim {
            step: 0,
            v,
            refr: filled(0u32, self.n),
            ring: filled(T::zero(), l * self.n),
            trains,
            spikes: 0,
            sops: 0,
        };
        assert(s.v@ =~= Seq::new(self.n as nat, |i: int| self.units@[i].neuron.v_reset));
        assert(self.at_start(&s));
        s
    }

    /// Whether neuron `i` draws external arrivals in the next step: it is
    /// driven and not refractory.
    pub fn draws(&self, s: &Sim<T>, i: usize) -> (r: bool)
        requires
            self.wf(),
            self.tracks(s),
            i < self.n,
        ensures
            r == (self.units@[i as int].driven && s.refr@[i as int] == 0),
    {
        self.units[i].driven && s.refr[i] == 0
    }

    /// Place of neuron `j` in the slot that is read `ahead` steps from now.
    fn place(&self, step: usize, ahead: usize, j: usize) -> (r: usize)
        requires
            self.wf(),
            ahead <= self.max_delay,
            j < self.n,
        ensures
            r == self.slot_place(step + ahead, j as int),
            r < self.slots() * self.n,
    {
        let l: usize = self.max_delay as usize + 1;
        let a: usize = step % l;
        let slot: usize = if ahead < l - a {
            a + ahead
        } else {
            ahead - (l - a)
        };
        proof {
            let (x, y, m) = (step as int, ahead as int, l as int);
            lemma_mod_bound(x, m);
            vstd::arithmetic::div_mod::lemma_add_mod_noop(x, y, m);
            lemma_small_mod(ahead as nat, l as nat);
            assert((a + y) % m == (x + y) % m);
            if ahead < l - a {
                lemma_small_mod((a + ahead) as nat, l as nat);
            } else {
                vstd::arithmetic::div_mod::lemma_mod_sub_multiples_vanish(a + y, m);
                lemma_small_mod((a + ahead - l) as nat, l as nat);
            }
            assert(slot == (step + ahead) % self.slots());
            assert(slot * self.n + j < self.slots() * self.n) by (nonlinear_arith)
                requires
                    slot < self.slots(),
                    0 <= j < self.n,
            ;
            assert(0 <= slot * self.n) by (nonlinear_arith);
        }
        slot * self.n + j
    }

    /// Membrane of a non-refractory neuron before the threshold test.
    fn push(&self, s: &Sim<T>, arrivals: &Vec<u64>, i: usize) -> (r: T)
        requires
            self.wf(),
            self.tracks(s),
            arrivals@.len() == self.n,
            i < self.n,
        ensures
            r == self.pushed(s, arrivals@, i as int),
    {
        let u = &self.units[i];
        let mut r = u.neuron.relax(s.v[i]);
        if u.driven && arrivals[i] > 0 {
            r = r.plus(T::from_count(arrivals[i]).times(u.poisson_weight));
        }
        let at: usize = self.place(s.step, 0, i);
        r.plus(s.ring[at])
    }

    /// Which neurons fire in this step, and the membranes and refractory
    /// counters that the step leaves.
    fn crossings(&self, s: &Sim<T>, arrivals: &Vec<u64>) -> (r: (Vec<bool>, Vec<T>, Vec<u32>))
        requires
            self.wf(),
            self.tracks(s),
            arrivals@.len() == self.n,
        ensures
            r.0@ == Seq::new(self.n as nat, |i: int| self.fires(s, arrivals@, i)),
            r.1@ == Seq::new(self.n as nat, |i: int| self.v_next(s, arrivals@, i)),
            r.2@ == Seq::new(self.n as nat, |i: int| self.refr_next(s, arrivals@, i)),
    {
        let mut fired: Vec<bool> = Vec::new();
        let mut v: Vec<T> = Vec::new();
        let mut refr: Vec<u32> = Vec::new();
        let mut i: usize = 0;
        while i < self.n
            invariant
                i <= self.n,
                self.wf(),
                self.tracks(s),
                arrivals@.len() == self.n,
                fired@.len() == i,
                v@.len() == i,
                refr@.len() == i,
                forall|k: int| 0 <= k < i ==> fired@[k] == self.fires(s, arrivals@, k),
                forall|k: int| 0 <= k < i ==> v@[k] == self.v_next(s, arrivals@, k),
                forall|k: int| 0 <= k < i ==> refr@[k] == self.refr_next(s, arrivals@, k),
            decreases self.n - i,
        {
            let u = &self.units[i].neuron;
            if s.refr[i] > 0 {
                fired.push(false);
                v.push(u.v_reset);
                refr.push(s.refr[i] - 1);
            } else {
                let x = self.push(s, arrivals, i);
                if x.reaches(u.v_th) {
                    fired.push(true);
                    v.push(u.v_reset);
                    refr.push(u.ref_steps);
                } else {
                    fired.push(false);
                    v.push(x);
                    refr.push(0);
                }
            }
            i += 1;
        }
        (fired, v, refr)
    }

    /// The ring with this step's slot cleared.
    fn consume(&self, s: &Sim<T>) -> (r: Vec<T>)
        requires
            self.wf(),
            self.tracks(s),
        ensures
            r@ == self.consumed(s),
    {
        let total: usize = s.ring.len();
        let mut r: Vec<T> = Vec::new();
        let mut x: usize = 0;
        if self.n == 0 {
            assert(self.slots() * self.n == 0) by (nonlinear_arith)
                requires
                    self.n == 0,
            ;
            assert(r@ =~= self.consumed(s));
            return r;
        }
        let base: usize = self.place(s.step, 0, 0);
        while x < total
            invariant
                x <= total,
                total == s.ring@.len(),
                base == self.slot_place(s.step as int, 0),
                r@.len() == x,
                forall|k: int| 0 <= k < x ==> r@[k] == self.consumed(s)[k],
            decreases total - x,
        {
            if base <= x && x - base < self.n {
                r.push(T::zero());
            } else {
                r.push(s.ring[x]);
            }
            x += 1;
        }
        assert(r@ =~= self.consumed(s));
        r
    }

    /// The ring after every spike of this step was deposited.
    fn deliver(&self, s: &Sim<T>, arrivals: &Vec<u64>, fired: &Vec<bool>) -> (ring: Vec<T>)
        requires
            self.wf(),
            self.tracks(s),
            arrivals@.len() == self.n,
            fired@ == Seq::new(self.n as nat, |i: int| self.fires(s, arrivals@, i)),
        ensures
            ring@ == self.deposited(s, arrivals@, self.out@.len() as int),
    {
        let mut ring = self.consume(s);
        let mut i: usize = 0;
        while i < self.n
            invariant
                i <= self.n,
                self.wf(),
                self.tracks(s),
                fired@ == Seq::new(self.n as nat, |i: int| self.fires(s, arrivals@, i)),
                ring@.len() == self.slots() * self.n,
                ring@ == self.deposited(s, arrivals@, self.out_indptr@[i as int] as int),
            decreases self.n - i,
        {
            proof {
                lemma_indptr_mono(self, i as int, i + 1);
            }
            let hi: usize = self.out_indptr[i + 1];
            if fired[i] {
                let mut e: usize = self.out_indptr[i];
                while e < hi
                    invariant
                        self.out_indptr@[i as int] <= e <= hi,
                        hi == self.out_indptr@[i + 1],
                        hi <= self.out@.len(),
                        i < self.n,
                        self.wf(),
                        self.fires(s, arrivals@, i as int),
                        ring@.len() == self.slots() * self.n,
                        ring@ == self.deposited(s, arrivals@, e as int),
                    decreases hi - e,
                {
                    proof {
                        range_holds_own_synapses(self, i as int, e as int);
                    }
                    let o = self.out[e];
                    let at: usize = self.place(s.step, o.delay as usize, o.post as usize);
                    let x = ring[at].plus(o.weight);
                    ring.set(at, x);
                    e += 1;
                }
            } else {
                proof {
                    assert(!self.fires(s, arrivals@, i as int));
                    lemma_silent(self, s, arrivals@, i as int, hi as int);
                }
            }
            i += 1;
        }
        ring
    }

    /// One step. `arrivals[i]` external spikes reach neuron `i`; the entry of a
    /// neuron that draws none is not looked at.
    pub fn advance(&self, s: &mut Sim<T>, arrivals: &Vec<u64>)
        requires
            self.wf(),
            self.tracks(old(s)),
            arrivals@.len() == self.n,
            old(s).step < usize::MAX,
            old(s).spikes + self.n <= u64::MAX,
            old(s).sops + self.out@.len() <= u64::MAX,
        ensures
            self.tracks(final(s)),
            self.steps_to(old(s), arrivals@, final(s)),
    {
        let ghost was = *s;
        let (fired, v, refr) = self.crossings(s, arrivals);
        let ring = self.deliver(s, arrivals, &fired);
        let step: usize = s.step;
        let mut i: usize = 0;
        while i < self.n
            invariant
                i <= self.n,
                self.wf(),
                self.tracks(&was),
                was.spikes + self.n <= u64::MAX,
                was.sops + self.out@.len() <= u64::MAX,
                step == was.step,
                s.step == was.step,
                fired@ == Seq::new(self.n as nat, |k: int| self.fires(&was, arrivals@, k)),
                s.trains@.len() == self.n,
                forall|k: int|
                    0 <= k < i ==> (#[trigger] s.trains@[k])@ == (if self.fires(
                        &was,
                        arrivals@,
                        k,
                    ) {
                        was.trains@[k]@.push(was.step)
                    } else {
                        was.trains@[k]@
                    }),
                forall|k: int| i <= k < self.n ==> #[trigger] s.trains@[k] == was.trains@[k],
                s.spikes <= was.spikes + i,
                s.sops <= was.sops + self.out_indptr@[i as int],
                s.spikes - was.spikes == spikes_of(s.trains@, i as int) - spikes_of(
                    was.trains@,
                    i as int,
                ),
                s.sops - was.sops == sops_of(self, s.trains@, i as int) - sops_of(
                    self,
                    was.trains@,
                    i as int,
                ),
            decreases self.n - i,
        {
            let ghost before = s.trains@;
            proof {
                lemma_indptr_mono(self, i as int, i + 1);
                lemma_indptr_mono(self, i + 1, self.n as int);
            }
            if fired[i] {
                s.trains[i].push(step);
                s.spikes = s.spikes + 1;
                s.sops = s.sops + (self.out_indptr[i + 1] - self.out_indptr[i]) as u64;
                proof {
                    let d = self.degree(i as int);
                    let m = before[i as int]@.len();
                    assert((m + 1) * d == m * d + d) by (nonlinear_arith);
                }
            }
            proof {
                lemma_totals_agree(self, before, s.trains@, i as int);
            }
            i += 1;
        }
        s.v = v;
        s.refr = refr;
        s.ring = ring;
        s.step = step + 1;
        proof {
            lemma_deposited_len(self, &was, arrivals@, self.out@.len() as int);
            assert forall|k: int| 0 <= k < self.n implies spaced(
                (#[trigger] s.trains@[k])@,
                self.units@[k].neuron.ref_steps,
                s.step as int,
            ) by {
                let old_train = was.trains@[k]@;
                assert(spaced(old_train, self.units@[k].neuron.ref_steps, was.step as int));
                if self.fires(&was, arrivals@, k) {
                    let train = s.trains@[k]@;
                    assert forall|a: int, b: int| 0 <= a < b < train.len() implies (
                    #[trigger] train[a]) + self.units@[k].neuron.ref_steps < (#[trigger] train[b]) by {
                        if b == old_train.len() {
                            assert(was.trains@[k]@[a] + 1 + self.units@[k].neuron.ref_steps
                                <= was.step + was.refr@[k]);
                        } else {
                            assert(old_train[a] + self.units@[k].neuron.ref_steps < old_train[b]);
                        }
                    }
                }
            }
            assert forall|k: int, a: int|
                #![trigger s.trains@[k]@[a]]
                0 <= k < self.n && 0 <= a < s.trains@[k]@.len() implies s.trains@[k]@[a] + 1
                + self.units@[k].neuron.ref_steps <= s.step + s.refr@[k] by {
                let old_train = was.trains@[k]@;
                if a < old_train.len() {
                    assert(was.trains@[k]@[a] + 1 + self.units@[k].neuron.ref_steps <= was.step
                        + was.refr@[k]);
                    assert(s.trains@[k]@[a] == old_train[a]);
                }
            }
        }
    }
}

/// The synapses of a neuron that does not fire leave the ring as it is.
proof fn lemma_silent<T: Scalar>(
    net: &Network<T>,
    s: &Sim<T>,
    arrivals: Seq<u64>,
    i: int,
    e: int,
)
    requires
        net.wf(),
        0 <= i < net.n,
        !net.fires(s, arrivals, i),
        net.out_indptr@[i] <= e <= net.out_indptr@[i + 1],
    ensures
        net.deposited(s, arrivals, e) == net.deposited(s, arrivals, net.out_indptr@[i] as int),
    decreases e,
{
    if e > net.out_indptr@[i] {
        assert(net.out_indptr@[i + 1] <= net.out@.len());
        range_holds_own_synapses(net, i, e - 1);
        lemma_silent(net, s, arrivals, i, e - 1);
    }
}

pub(crate) proof fn lemma_deposited_len<T: Scalar>(
    net: &Network<T>,
    s: &Sim<T>,
    arrivals: Seq<u64>,
    e: int,
)
    requires
        net.wf(),
        s.ring@.len() == net.slots() * net.n,
        e <= net.out@.len(),
    ensures
        net.deposited(s, arrivals, e).len() == s.ring@.len(),
    decreases e,
{
    if e > 0 {
        lemma_deposited_len(net, s, arrivals, e - 1);
        let o = net.out@[e - 1];
        lemma_slot_place(net, s.step + o.delay, o.post as int);
    }
}

/// Every slot lies inside the ring.
pub(crate) proof fn lemma_slot_place<T: Scalar>(net: &Network<T>, t: int, j: int)
    requires
        0 <= j < net.n,
    ensures
        0 <= net.slot_place(t, j) < net.slots() * net.n,
{
    let (m, n) = (net.slots(), net.n as int);
    lemma_mod_bound(t, m);
    let slot = t % m;
    assert(0 <= slot * n + j < m * n) by (nonlinear_arith)
        requires
            0 <= slot < m,
            0 <= j < n,
    ;
}

/// Totals over the first `k` neurons do not depend on the others.
proof fn lemma_totals_agree<T: Scalar>(
    net: &Network<T>,
    a: Seq<Vec<usize>>,
    b: Seq<Vec<usize>>,
    k: int,
)
    requires
        0 <= k <= a.len(),
        a.len() == b.len(),
        forall|i: int| 0 <= i < k ==> #[trigger] a[i] == b[i],
    ensures
        spikes_of(a, k) == spikes_of(b, k),
        sops_of(net, a, k) == sops_of(net, b, k),
    decreases k,
{
    if k > 0 {
        lemma_totals_agree(net, a, b, k - 1);
        assert(a[k - 1] == b[k - 1]);
    }
}

proof fn lemma_no_spikes<T: Scalar>(net: &Network<T>, trains: Seq<Vec<usize>>, k: int)
    requires
        0 <= k <= trains.len(),
        forall|i: int| 0 <= i < trains.len() ==> (#[trigger] trains[i])@.len() == 0,
    ensures
        spikes_of(trains, k) == 0,
        sops_of(net, trains, k) == 0,
    decreases k,
{
    if k > 0 {
        lemma_no_spikes(net, trains, k - 1);
        assert(trains[k - 1]@.len() == 0);
        assert(0 * net.degree(k - 1) == 0);
    }
}

/// A deposit is read exactly `d` steps later and never before: its slot is not
/// read at the step of the spike nor at any step between.
pub proof fn deposit_arrives_on_time<T: Scalar>(net: &Network<T>, t: int, d: int, k: int, j: int)
    requires
        net.wf(),
        0 <= t,
        1 <= d <= net.max_delay,
        0 <= k < d,
        0 <= j < net.n,
    ensures
        net.slot_place(t + d, j) != net.slot_place(t + k, j),
{
    let l = net.slots();
    let (x, y) = ((t + d) % l, (t + k) % l);
    if x == y {
        vstd::arithmetic::div_mod::lemma_mod_equivalence(t + d, t + k, l);
        assert((d - k) % l == 0);
        lemma_small_mod((d - k) as nat, l as nat);
    }
    let n = net.n as int;
    assert(x * n + j != y * n + j) by (nonlinear_arith)
        requires
            x != y,
            n > 0,
    ;
}

/// A run is reproducible: from one state and the same arrivals there is one
/// next state.
pub proof fn step_is_deterministic<T: Scalar>(
    net: &Network<T>,
    s: &Sim<T>,
    arrivals: Seq<u64>,
    a: &Sim<T>,
    b: &Sim<T>,
)
    requires
        net.wf(),
        net.tracks(a),
        net.tracks(b),
        net.steps_to(s, arrivals, a),
        net.steps_to(s, arrivals, b),
    ensures
        a.step == b.step,
        a.v@ == b.v@,
        a.refr@ == b.refr@,
        a.ring@ == b.ring@,
        forall|i: int| 0 <= i < net.n ==> (#[trigger] a.trains@[i])@ == b.trains@[i]@,
        a.spikes == b.spikes,
        a.sops == b.sops,
{
    assert forall|i: int| 0 <= i < net.n implies (#[trigger] a.trains@[i])@ == b.trains@[i]@ by {
        assert(b.trains@[i]@ == b.trains@[i]@);
    }
    lemma_totals_by_view(net, a.trains@, b.trains@, net.n as int);
}

pub(crate) proof fn lemma_totals_by_view<T: Scalar>(
    net: &Network<T>,
    a: Seq<Vec<usize>>,
    b: Seq<Vec<usize>>,
    k: int,
)
    requires
        0 <= k <= a.len(),
        a.len() == b.len(),
        forall|i: int| 0 <= i < a.len() ==> (#[trigger] a[i])@ == b[i]@,
    ensures
        spikes_of(a, k) == spikes_of(b, k),
        sops_of(net, a, k) == sops_of(net, b, k),
    decreases k,
{
    if k > 0 {
        lemma_totals_by_view(net, a, b, k - 1);
        assert(a[k - 1]@ == b[k - 1]@);
    }
}

/// Whether `states` are the states of a run from rest, one per step.
pub open spec fn is_run<T: Scalar>(
    net: &Network<T>,
    arrivals: Seq<Vec<u64>>,
    states: Seq<Sim<T>>,
) -> bool {
    &&& states.len() == arrivals.len() + 1
    &&& net.at_start(&states[0])
    &&& forall|k: int| 0 <= k < arrivals.len() ==> #[trigger] run_at(net, arrivals, states, k)
}

/// Whether step `k` of a run leads from one state to the next.
pub open spec fn run_at<T: Scalar>(
    net: &Network<T>,
    arrivals: Seq<Vec<u64>>,
    states: Seq<Sim<T>>,
    k: int,
) -> bool {
    net.steps_to(&states[k], arrivals[k]@, &states[k + 1])
}

/// Whether `row` holds the external arrivals of the next step: those that
/// `arrivals` gives for a driven neuron that is not refractory, none for any
/// other.
pub open spec fn arrives<T: Scalar, A: Fn(usize, usize) -> u64>(
    net: &Network<T>,
    s: &Sim<T>,
    arrivals: A,
    row: Seq<u64>,
) -> bool {
    &&& row.len() == net.n
    &&& forall|i: int| 0 <= i < net.n ==> #[trigger] arrives_at(net, s, arrivals, row, i)
}

pub open spec fn arrives_at<T: Scalar, A: Fn(usize, usize) -> u64>(
    net: &Network<T>,
    s: &Sim<T>,
    arrivals: A,
    row: Seq<u64>,
    i: int,
) -> bool {
    if net.units@[i].driven && s.refr@[i] == 0 {
        call_ensures(arrivals, (s.step, i as usize), row[i])
    } else {
        row[i] == 0
    }
}

/// Whether progress is reported after `step` of a run of `n_steps`: about a
/// hundred times, and at the end.
pub fn reports(step: usize, n_steps: usize) -> (r: bool)
    requires
        step < n_steps,
    ensures
        r == ({
            let every: int = if n_steps / 100 > 1 {
                n_steps as int / 100
            } else {
                1
            };
            step as int % every == 0 || step + 1 == n_steps
        }),
{
    let mut every: usize = n_steps / 100;
    if every < 1 {
        every = 1;
    }
    step % every == 0 || step + 1 == n_steps
}

impl<T: Scalar> Network<T> {
    fn gather<A: Fn(usize, usize) -> u64>(&self, s: &Sim<T>, arrivals: &A) -> (row: Vec<u64>)
        requires
            self.wf(),
            self.tracks(s),
            forall|k: usize, i: usize| #[trigger] call_requires(arrivals, (k, i)),
        ensures
            arrives(self, s, *arrivals, row@),
    {
        let mut row: Vec<u64> = Vec::new();
        let mut i: usize = 0;
        while i < self.n
            invariant
                i <= self.n,
                self.wf(),
                self.tracks(s),
                forall|k: usize, i: usize| #[trigger] call_requires(arrivals, (k, i)),
                row@.len() == i,
                forall|j: int| 0 <= j < i ==> #[trigger] arrives_at(self, s, *arrivals, row@, j),
            decreases self.n - i,
        {
            let ghost before = row@;
            if self.draws(s, i) {
                row.push(arrivals(s.step, i));
            } else {
                row.push(0);
            }
            proof {
                assert forall|j: int| 0 <= j < i + 1 implies #[trigger] arrives_at(
                    self,
                    s,
                    *arrivals,
                    row@,
                    j,
                ) by {
                    if j < i {
                        assert(arrives_at(self, s, *arrivals, before, j));
                    }
                }
            }
            i += 1;
        }
        row
    }

    /// Runs `n_steps` steps from rest. `arrivals(k, i)` gives the external
    /// spikes that reach neuron `i` in step `k`; it is asked in order, and only
    /// for neurons that can take them.
    pub fn run<A: Fn(usize, usize) -> u64>(&self, n_steps: usize, arrivals: &A) -> (s: Sim<T>)
        requires
            self.wf(),
            n_steps < usize::MAX,
            n_steps * self.n <= u64::MAX,
            n_steps * self.out@.len() <= u64::MAX,
            forall|k: usize, i: usize| #[trigger] call_requires(arrivals, (k, i)),
        ensures
            self.tracks(&s),
            s.step == n_steps,
            exists|rows: Seq<Vec<u64>>, states: Seq<Sim<T>>|
                {
                    &&& #[trigger] is_run(self, rows, states)
                    &&& rows.len() == n_steps
                    &&& s == states.last()
                    &&& forall|k: int|
                        0 <= k < n_steps ==> #[trigger] drawn_at(self, *arrivals, rows, states, k)
                },
    {
        let mut s = self.start();
        let ghost mut states = seq![s];
        let ghost mut rows: Seq<Vec<u64>> = Seq::empty();
        let mut k: usize = 0;
        proof {
            assert(0 * self.n == 0) by (nonlinear_arith);
            assert(0 * self.out@.len() == 0) by (nonlinear_arith);
        }
        while k < n_steps
            invariant
                k <= n_steps,
                n_steps < usize::MAX,
                n_steps * self.n <= u64::MAX,
                n_steps * self.out@.len() <= u64::MAX,
                forall|k: usize, i: usize| #[trigger] call_requires(arrivals, (k, i)),
                self.wf(),
                self.tracks(&s),
                s.step == k,
                s.spikes <= k * self.n,
                s.sops <= k * self.out@.len(),
                rows.len() == k,
                states.len() == k + 1,
                states.last() == s,
                self.at_start(&states[0]),
                forall|m: int| 0 <= m < k ==> #[trigger] run_at(self, rows, states, m),
                forall|m: int|
                    0 <= m < k ==> #[trigger] drawn_at(self, *arrivals, rows, states, m),
            decreases n_steps - k,
        {
            proof {
                let total = n_steps as int;
                assert((k + 1) * self.n <= total * self.n) by (nonlinear_arith)
                    requires
                        k + 1 <= total,
                ;
                assert((k + 1) * self.out@.len() <= total * self.out@.len()) by (nonlinear_arith)
                    requires
                        k + 1 <= total,
                ;
                assert((k + 1) * self.n == k * self.n + self.n) by (nonlinear_arith);
                assert((k + 1) * self.out@.len() == k * self.out@.len() + self.out@.len())
                    by (nonlinear_arith);
            }
            let ghost was = s;
            let row = self.gather(&s, arrivals);
            self.advance(&mut s, &row);
            proof {
                lemma_ledger_grows(self, &was, row@, &s);
                let (old_rows, old_states) = (rows, states);
                rows = rows.push(row);
                states = states.push(s);
                assert forall|m: int| 0 <= m < k + 1 implies #[trigger] run_at(
                    self,
                    rows,
                    states,
                    m,
                ) by {
                    if m < k {
                        assert(run_at(self, old_rows, old_states, m));
                    }
                }
                assert forall|m: int| 0 <= m < k + 1 implies #[trigger] drawn_at(
                    self,
                    *arrivals,
                    rows,
                    states,
                    m,
                ) by {
                    if m < k {
                        assert(drawn_at(self, *arrivals, old_rows, old_states, m));
                    }
                }
            }
            k += 1;
        }
        proof {
            assert(is_run(self, rows, states));
        }
        s
    }
}

/// Whether row `k` of a run holds the arrivals of its step.
pub open spec fn drawn_at<T: Scalar, A: Fn(usize, usize) -> u64>(
    net: &Network<T>,
    arrivals: A,
    rows: Seq<Vec<u64>>,
    states: Seq<Sim<T>>,
    k: int,
) -> bool {
    arrives(net, &states[k], arrivals, rows[k]@)
}

/// One step adds at most one spike per neuron and one operation per synapse.
pub proof fn lemma_ledger_grows<T: Scalar>(
    net: &Network<T>,
    s: &Sim<T>,
    arrivals: Seq<u64>,
    t: &Sim<T>,
)
    requires
        net.wf(),
        net.tracks(s),
        net.tracks(t),
        net.steps_to(s, arrivals, t),
    ensures
        s.spikes <= t.spikes <= s.spikes + net.n,
        s.sops <= t.sops <= s.sops + net.out@.len(),
{
    lemma_totals_grow(net, s, arrivals, t, net.n as int);
}

proof fn lemma_totals_grow<T: Scalar>(
    net: &Network<T>,
    s: &Sim<T>,
    arrivals: Seq<u64>,
    t: &Sim<T>,
    k: int,
)
    requires
        net.wf(),
        net.tracks(s),
        net.tracks(t),
        net.steps_to(s, arrivals, t),
        0 <= k <= net.n,
    ensures
        spikes_of(s.trains@, k) <= spikes_of(t.trains@, k) <= spikes_of(s.trains@, k) + k,
        sops_of(net, s.trains@, k) <= sops_of(net, t.trains@, k) <= sops_of(net, s.trains@, k)
            + net.out_indptr@[k],
    decreases k,
{
    if k > 0 {
        lemma_totals_grow(net, s, arrivals, t, k - 1);
        lemma_indptr_mono(net, k - 1, k);
        let (a, b) = (s.trains@[k - 1]@.len() as int, t.trains@[k - 1]@.len() as int);
        assert(t.trains@[k - 1]@.len() == b);
        let d = net.degree(k - 1);
        assert(a * d <= b * d <= a * d + d) by (nonlinear_arith)
            requires
                a <= b <= a + 1,
                d >= 0,
        ;
    }
}

} // verus!
