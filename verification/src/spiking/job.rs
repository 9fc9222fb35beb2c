//! Spiking jobs: layers, connection rules, a run, and what is reported of it.

use crate::scalar::Scalar;
use crate::spiking::lif::{NeuronParams, Tuning};
use crate::spiking::network::{lemma_offset_fits, neurons_before};
use crate::spiking::network::{Network, NetworkBuilder, PopulationSpec, Synapse, Unit};
use crate::spiking::report::{is_raster, raster_sample, RasterPoint, SpikingExecutor, RASTER_CAP};
use crate::spiking::report::spikes_between;
use crate::spiking::run::{drawn_at, is_run, Sim};
use crate::spiking::stats::RunResult;
use vstd::prelude::*;

verus! {

/// A layer: identical neurons and their external drive.
pub struct LayerSpec<T> {
    pub name: String,
    pub n: usize,
    pub params: NeuronParams<T>,
    /// Constant injected current.
    pub i_ext: T,
    /// Poisson input rate per neuron.
    pub poisson_rate: T,
    /// Membrane jump per external spike.
    pub poisson_weight: T,
}

/// A connection rule between two layers.
#[derive(Debug, Clone, Copy)]
pub struct ConnSpec<T> {
    /// Presynaptic layer.
    pub pre: usize,
    /// Postsynaptic layer.
    pub post: usize,
    /// Chance that a pair is joined.
    pub probability: T,
    pub weight: T,
    /// Delay in steps, at least 1.
    pub delay: u32,
}

/// A job: layers, connections and timing.
pub struct SpikingJob<T> {
    pub layers: Vec<LayerSpec<T>>,
    pub connections: Vec<ConnSpec<T>>,
    /// Simulated seconds.
    pub duration: T,
    /// Seconds per step.
    pub dt: T,
    pub seed: u64,
}

impl<T: Scalar> LayerSpec<T> {
    /// `p` is the population of this layer: its neurons prepared for steps of
    /// `dt`, driven where the mean of arrivals per step is positive.
    pub open spec fn is_population<E: Fn(T) -> T, R: Fn(T) -> u32>(
        &self,
        dt: T,
        tuning: &Tuning<E, R>,
        p: PopulationSpec<T>,
    ) -> bool {
        &&& p.name@ == self.name@
        &&& p.n == self.n
        &&& self.params.is_prepared(dt, self.i_ext, tuning, p.unit.neuron)
        &&& p.unit.driven == T::zero_value().less_than(self.poisson_rate.product(dt))
        &&& p.unit.poisson_weight == self.poisson_weight
    }

    /// The population of this layer.
    pub fn to_population<E: Fn(T) -> T, R: Fn(T) -> u32>(
        &self,
        dt: T,
        tuning: &Tuning<E, R>,
    ) -> (p: PopulationSpec<T>)
        requires
            tuning.ready::<T>(),
        ensures
            self.is_population(dt, tuning, p),
    {
        PopulationSpec {
            name: self.name.as_str().to_owned(),
            n: self.n,
            unit: Unit {
                neuron: self.params.prepare(dt, self.i_ext, tuning),
                driven: T::zero().below(self.poisson_rate.times(dt)),
                poisson_weight: self.poisson_weight,
            },
        }
    }
}

impl<T: Scalar> SpikingJob<T> {
    /// Neurons of the first `k` layers.
    pub open spec fn neurons(&self, k: int) -> int
        decreases k,
    {
        if k <= 0 {
            0
        } else {
            self.neurons(k - 1) + self.layers@[k - 1].n
        }
    }

    /// Connections join layers that exist with a delay, and the delay ring can
    /// be addressed.
    pub open spec fn valid(&self) -> bool {
        let total = self.neurons(self.layers@.len() as int);
        &&& total <= u32::MAX
        &&& 2 * total <= usize::MAX
        &&& forall|c: int|
            0 <= c < self.connections@.len() ==> {
                let x = #[trigger] self.connections@[c];
                &&& x.pre < self.layers@.len()
                &&& x.post < self.layers@.len()
                &&& 1 <= x.delay < usize::MAX
                &&& (x.delay + 1) * total <= usize::MAX
            }
    }

    /// One draw per ordered pair of neurons of every connection.
    pub open spec fn draws_fit(&self, draws: Seq<Vec<bool>>) -> bool {
        &&& draws.len() == self.connections@.len()
        &&& forall|c: int|
            0 <= c < draws.len() ==> {
                let x = self.connections@[c];
                (#[trigger] draws[c])@.len() == self.layers@[x.pre as int].n
                    * self.layers@[x.post as int].n
            }
    }

    /// Synapses of the first `k` connections.
    pub open spec fn synapses(
        &self,
        pops: Seq<PopulationSpec<T>>,
        draws: Seq<Vec<bool>>,
        k: int,
    ) -> Seq<Synapse<T>>
        decreases k,
    {
        if k <= 0 {
            Seq::empty()
        } else {
            let x = self.connections@[k - 1];
            self.synapses(pops, draws, k - 1) + NetworkBuilder::<T>::wired(
                neurons_before(pops, x.pre as int),
                neurons_before(pops, x.post as int),
                pops[x.post as int].n as int,
                x.weight,
                x.delay,
                draws[k - 1]@,
                draws[k - 1]@.len() as int,
            )
        }
    }

    /// `b` holds the populations of the layers and the synapses of the
    /// connections.
    pub open spec fn laid<E: Fn(T) -> T, R: Fn(T) -> u32>(
        &self,
        tuning: &Tuning<E, R>,
        draws: Seq<Vec<bool>>,
        b: NetworkBuilder<T>,
    ) -> bool {
        &&& b.pops@.len() == self.layers@.len()
        &&& forall|p: int|
            0 <= p < b.pops@.len() ==> self.layers@[p].is_population(
                self.dt,
                tuning,
                #[trigger] b.pops@[p],
            )
        &&& b.syn@ == self.synapses(b.pops@, draws, self.connections@.len() as int)
    }

    /// Builds the network. `draws` says of every ordered pair of neurons that a
    /// connection spans whether it is joined.
    pub fn build<E: Fn(T) -> T, R: Fn(T) -> u32>(
        &self,
        tuning: &Tuning<E, R>,
        draws: &Vec<Vec<bool>>,
    ) -> (net: Network<T>)
        requires
            self.valid(),
            self.draws_fit(draws@),
            tuning.ready::<T>(),
        ensures
            net.wf(),
            exists|b: NetworkBuilder<T>|
                b.wf() && #[trigger] self.laid(tuning, draws@, b) && net.frozen_from(&b),
            net.n == self.neurons(self.layers@.len() as int),
    {
        let mut b: NetworkBuilder<T> = NetworkBuilder::new();
        let n_layers: usize = self.layers.len();
        let ghost total = self.neurons(n_layers as int);
        let mut p: usize = 0;
        while p < n_layers
            invariant
                n_layers == self.layers@.len(),
                p <= n_layers,
                b.wf(),
                tuning.ready::<T>(),
                total == self.neurons(n_layers as int),
                total <= u32::MAX,
                b.pops@.len() == p,
                b.n_total == self.neurons(p as int),
                b.syn@.len() == 0,
                forall|k: int|
                    0 <= k < p ==> self.layers@[k].is_population(
                        self.dt,
                        tuning,
                        #[trigger] b.pops@[k],
                    ),
            decreases n_layers - p,
        {
            proof {
                self.lemma_neurons_grow(p + 1, n_layers as int);
            }
            let spec = self.layers[p].to_population(self.dt, tuning);
            let idx: usize = b.add_population(spec);
            p += 1;
        }
        let n_conns: usize = self.connections.len();
        let ghost pops = b.pops@;
        assert(b.syn@ =~= self.synapses(pops, draws@, 0));
        let mut c: usize = 0;
        while c < n_conns
            invariant
                n_conns == self.connections@.len(),
                c <= n_conns,
                self.valid(),
                self.draws_fit(draws@),
                total == self.neurons(self.layers@.len() as int),
                b.wf(),
                b.pops@ == pops,
                pops.len() == self.layers@.len(),
                b.n_total == total,
                forall|k: int|
                    0 <= k < pops.len() ==> self.layers@[k].is_population(
                        self.dt,
                        tuning,
                        #[trigger] pops[k],
                    ),
                b.syn@ == self.synapses(pops, draws@, c as int),
                forall|e: int|
                    #![trigger b.syn@[e]]
                    0 <= e < b.syn@.len() ==> b.syn@[e].delay < usize::MAX && (b.syn@[e].delay + 1)
                        * total <= usize::MAX,
            decreases n_conns - c,
        {
            let x = self.connections[c];
            proof {
                assert(self.connections@[c as int].pre < self.layers@.len());
                assert(self.layers@[x.pre as int].is_population(
                    self.dt,
                    tuning,
                    pops[x.pre as int],
                ));
                assert(self.layers@[x.post as int].is_population(
                    self.dt,
                    tuning,
                    pops[x.post as int],
                ));
                assert(draws@[c as int]@.len() == self.layers@[x.pre as int].n
                    * self.layers@[x.post as int].n);
            }
            let ghost before = b.syn@;
            b.connect_random(x.pre, x.post, x.weight, x.delay, &draws[c]);
            proof {
                let added = NetworkBuilder::<T>::wired(
                    neurons_before(pops, x.pre as int),
                    neurons_before(pops, x.post as int),
                    pops[x.post as int].n as int,
                    x.weight,
                    x.delay,
                    draws@[c as int]@,
                    draws@[c as int]@.len() as int,
                );
                lemma_wired_delay::<T>(
                    neurons_before(pops, x.pre as int),
                    neurons_before(pops, x.post as int),
                    pops[x.post as int].n as int,
                    x.weight,
                    x.delay,
                    draws@[c as int]@,
                    draws@[c as int]@.len() as int,
                );
                assert forall|e: int|
                    #![trigger b.syn@[e]]
                    0 <= e < b.syn@.len() implies b.syn@[e].delay < usize::MAX && (b.syn@[e].delay
                    + 1) * total <= usize::MAX by {
                    if e < before.len() {
                        assert(b.syn@[e] == before[e]);
                    } else {
                        assert(b.syn@[e] == added[e - before.len()]);
                    }
                }
            }
            c += 1;
        }
        assert(self.laid(tuning, draws@, b));
        let ghost plan = b;
        let net = b.build();
        assert(self.laid(tuning, draws@, plan) && net.frozen_from(&plan));
        net
    }

    proof fn lemma_neurons_grow(&self, a: int, b: int)
        requires
            0 <= a <= b,
        ensures
            0 <= self.neurons(a) <= self.neurons(b),
        decreases b,
    {
        if a < b {
            self.lemma_neurons_grow(a, b - 1);
        } else if a > 0 {
            self.lemma_neurons_grow(a - 1, a - 1);
        }
    }
}

/// Every synapse of a connection has its delay.
proof fn lemma_wired_delay<T: Scalar>(
    pre0: int,
    post0: int,
    npost: int,
    weight: T,
    delay: u32,
    draws: Seq<bool>,
    q: int,
)
    ensures
        forall|e: int|
            #![trigger NetworkBuilder::<T>::wired(pre0, post0, npost, weight, delay, draws, q)[e]]
            0 <= e < NetworkBuilder::<T>::wired(
                pre0,
                post0,
                npost,
                weight,
                delay,
                draws,
                q,
            ).len() ==> NetworkBuilder::<T>::wired(
                pre0,
                post0,
                npost,
                weight,
                delay,
                draws,
                q,
            )[e].delay == delay,
    decreases q,
{
    if q > 0 {
        lemma_wired_delay::<T>(pre0, post0, npost, weight, delay, draws, q - 1);
        let rest = NetworkBuilder::<T>::wired(pre0, post0, npost, weight, delay, draws, q - 1);
        let all = NetworkBuilder::<T>::wired(pre0, post0, npost, weight, delay, draws, q);
        assert forall|e: int| #![trigger all[e]] 0 <= e < all.len() implies all[e].delay
            == delay by {
            if e < rest.len() {
                assert(all[e] == rest[e]);
            }
        }
    }
}

/// Statistics of one population.
#[derive(Debug, Clone)]
pub struct PopulationStats<T> {
    pub name: String,
    pub n: usize,
    pub mean_rate_hz: T,
    pub cv_isi: T,
}

/// What is reported of a job.
pub struct SpikingOutcome<T> {
    pub n_neurons: usize,
    pub n_synapses: usize,
    pub duration: T,
    pub dt: T,
    pub spikes: u64,
    pub sops: u64,
    pub mean_rate_hz: T,
    pub cv_isi: T,
    pub populations: Vec<PopulationStats<T>>,
    pub raster_sample: Vec<RasterPoint>,
}

/// The result that statistics are taken from.
pub open spec fn result_of<T: Scalar>(s: &Sim<T>, n: usize, n_steps: usize, dt: T, x: &RunResult<
    T,
>) -> bool {
    &&& x.trains@ == s.trains@
    &&& x.spikes == s.spikes
    &&& x.dt == dt
    &&& x.duration == T::of_count(n_steps as u64).product(dt)
    &&& x.n == n
}

/// Statistics of population `p` of a network.
pub open spec fn is_stats<T: Scalar, Q: Fn(T) -> T>(
    net: &Network<T>,
    x: &RunResult<T>,
    root: Q,
    p: int,
    st: PopulationStats<T>,
) -> bool {
    let (name, start, len) = net.populations@[p];
    &&& st.name@ == name@
    &&& st.n == len
    &&& st.mean_rate_hz == x.rate(
        spikes_between(x.trains@, start as int, len as int) as u64,
        len,
    )
    &&& x.has_mean_cv(start as int, len as int, root, st.cv_isi)
}

/// `r` gives the statistics of a network that came to `s` in steps of `dt`.
pub open spec fn stated<T: Scalar, Q: Fn(T) -> T>(
    net: &Network<T>,
    dt: T,
    root: Q,
    s: &Sim<T>,
    x: RunResult<T>,
    r: &SpikingOutcome<T>,
) -> bool {
    &&& result_of(s, net.n, s.step, dt, &x)
    &&& r.n_neurons == net.n
    &&& r.n_synapses == net.out@.len()
    &&& r.duration == x.duration
    &&& r.dt == dt
    &&& r.spikes == s.spikes
    &&& r.sops == s.sops
    &&& r.mean_rate_hz == x.rate(x.spikes, x.n)
    &&& x.has_mean_cv(0, x.n as int, root, r.cv_isi)
    &&& r.populations@.len() == net.populations@.len()
    &&& forall|p: int|
        0 <= p < r.populations@.len() ==> is_stats(
            net,
            &x,
            root,
            p,
            #[trigger] r.populations@[p],
        )
    &&& is_raster(s.trains@, RASTER_CAP, r.raster_sample@)
}

/// `s` is the network after `n_steps` steps from rest, with its counts.
pub open spec fn ran<T: Scalar, A: Fn(usize, usize) -> u64>(
    net: &Network<T>,
    n_steps: usize,
    arrivals: A,
    s: &Sim<T>,
) -> bool {
    exists|rows: Seq<Vec<u64>>, states: Seq<Sim<T>>|
        {
            &&& #[trigger] is_run(net, rows, states)
            &&& rows.len() == n_steps
            &&& *s == states.last()
            &&& net.tracks(s)
            &&& forall|k: int|
                0 <= k < n_steps ==> #[trigger] drawn_at(net, arrivals, rows, states, k)
        }
}

impl SpikingExecutor {
    /// Runs a network for `n_steps` steps of `dt` and reports on it.
    pub fn execute<T: Scalar, A: Fn(usize, usize) -> u64, Q: Fn(T) -> T>(
        &self,
        net: &Network<T>,
        n_steps: usize,
        dt: T,
        arrivals: &A,
        root: &Q,
    ) -> (r: SpikingOutcome<T>)
        requires
            net.wf(),
            forall|p: int|
                0 <= p < net.populations@.len() ==> (#[trigger] net.populations@[p]).1
                    + net.populations@[p].2 <= net.n,
            n_steps < usize::MAX,
            n_steps * net.n <= u64::MAX,
            n_steps * net.out@.len() <= u64::MAX,
            forall|k: usize, i: usize| #[trigger] call_requires(arrivals, (k, i)),
            forall|x: T| #[trigger] call_requires(root, (x,)),
        ensures
            exists|s: Sim<T>, x: RunResult<T>|
                ran(net, n_steps, *arrivals, &s) && #[trigger] stated(net, dt, *root, &s, x, &r),
    {
        let s = net.run(n_steps, arrivals);
        assert(ran(net, n_steps, *arrivals, &s));
        self.report(net, s, dt, root)
    }

    /// Reports on a network that came to `s` in steps of `dt`.
    pub fn report<T: Scalar, Q: Fn(T) -> T>(
        &self,
        net: &Network<T>,
        s: Sim<T>,
        dt: T,
        root: &Q,
    ) -> (r: SpikingOutcome<T>)
        requires
            net.wf(),
            net.tracks(&s),
            forall|p: int|
                0 <= p < net.populations@.len() ==> (#[trigger] net.populations@[p]).1
                    + net.populations@[p].2 <= net.n,
            forall|x: T| #[trigger] call_requires(root, (x,)),
        ensures
            exists|x: RunResult<T>| #[trigger] stated(net, dt, *root, &s, x, &r),
    {
        let ghost sim = s;
        let raster = raster_sample(&s.trains, RASTER_CAP);
        let (spikes, sops): (u64, u64) = (s.spikes, s.sops);
        let x = RunResult {
            trains: s.trains,
            spikes,
            dt,
            duration: T::from_count(s.step as u64).times(dt),
            n: net.n,
        };
        let mut populations: Vec<PopulationStats<T>> = Vec::new();
        let count: usize = net.n_populations();
        let mut p: usize = 0;
        while p < count
            invariant
                count == net.populations@.len(),
                p <= count,
                x.wf(),
                x.n == net.n,
                forall|m: int|
                    0 <= m < net.populations@.len() ==> (#[trigger] net.populations@[m]).1
                        + net.populations@[m].2 <= net.n,
                forall|x: T| #[trigger] call_requires(root, (x,)),
                populations@.len() == p,
                forall|m: int|
                    0 <= m < p ==> is_stats(net, &x, *root, m, #[trigger] populations@[m]),
            decreases count - p,
        {
            let (name, start, len) = net.population(p);
            assert(net.populations@[p as int].1 + net.populations@[p as int].2 <= net.n);
            let st = PopulationStats {
                name: name.to_owned(),
                n: len,
                mean_rate_hz: x.pop_rate_hz(start, len),
                cv_isi: x.pop_cv_isi(start, len, root),
            };
            assert(is_stats(net, &x, *root, p as int, st));
            populations.push(st);
            p += 1;
        }
        let r = SpikingOutcome {
            n_neurons: net.n,
            n_synapses: net.n_synapses(),
            duration: x.duration,
            dt,
            spikes,
            sops,
            mean_rate_hz: x.mean_rate_hz(),
            cv_isi: x.mean_cv_isi(root),
            populations,
            raster_sample: raster,
        };
        assert(stated(net, dt, *root, &sim, x, &r));
        r
    }
}

/// The populations of a frozen network lie within its neurons.
pub proof fn populations_fit<T: Scalar>(b: &NetworkBuilder<T>, net: &Network<T>, p: int)
    requires
        b.wf(),
        net.frozen_from(b),
        0 <= p < net.populations@.len(),
    ensures
        net.populations@[p].1 + net.populations@[p].2 <= net.n,
{
    lemma_offset_fits(b.pops@, p);
}

} // verus!
