//! Counts per population and raster samples of a run.

use crate::sorting::stable_sort;
use crate::sorting::stably_sorted;
use crate::sorting::Keyed;
use crate::spiking::run::spikes_of;
use vstd::prelude::*;

verus! {

/// One point of a spike raster.
#[derive(Debug, Clone, Copy, PartialEq, Eq, Structural)]
pub struct RasterPoint {
    /// Step of the spike.
    pub step: usize,
    /// Global neuron index.
    pub neuron: u32,
}

impl Keyed for RasterPoint {
    open spec fn key(&self) -> (int, int) {
        (self.step as int, self.neuron as int)
    }

    fn sort_key(&self) -> (k: (u64, u64)) {
        (self.step as u64, self.neuron as u64)
    }
}

/// The spikes of one neuron as raster points.
pub open spec fn points_of(train: Seq<usize>, neuron: int) -> Seq<RasterPoint> {
    train.map_values(|t: usize| RasterPoint { step: t, neuron: neuron as u32 })
}

/// The spikes of the first `k` neurons, neuron by neuron.
pub open spec fn all_points(trains: Seq<Vec<usize>>, k: int) -> Seq<RasterPoint>
    decreases k,
{
    if k <= 0 {
        Seq::empty()
    } else {
        all_points(trains, k - 1) + points_of(trains[k - 1]@, k - 1)
    }
}

/// `r` are the first `cap` spikes in time order, spikes of one step by neuron.
pub open spec fn is_raster(trains: Seq<Vec<usize>>, cap: usize, r: Seq<RasterPoint>) -> bool {
    exists|sorted: Seq<RasterPoint>|
        #[trigger] stably_sorted(all_points(trains, trains.len() as int), sorted) && r
            == sorted.take(
            if cap < sorted.len() {
                cap as int
            } else {
                sorted.len() as int
            },
        )
}

/// First `cap` spikes in time order, spikes of one step by neuron.
pub fn raster_sample(trains: &Vec<Vec<usize>>, cap: usize) -> (r: Vec<RasterPoint>)
    requires
        trains@.len() <= u32::MAX,
    ensures
        is_raster(trains@, cap, r@),
{
    let mut all: Vec<RasterPoint> = Vec::new();
    let mut i: usize = 0;
    while i < trains.len()
        invariant
            i <= trains@.len(),
            trains@.len() <= u32::MAX,
            all@ == all_points(trains@, i as int),
        decreases trains@.len() - i,
    {
        let ghost before = all@;
        let train = &trains[i];
        let mut k: usize = 0;
        assert(before + points_of(train@.take(0), i as int) =~= before);
        while k < train.len()
            invariant
                k <= train@.len(),
                i < trains@.len() <= u32::MAX,
                all@ == before + points_of(train@.take(k as int), i as int),
            decreases train@.len() - k,
        {
            all.push(RasterPoint { step: train[k], neuron: i as u32 });
            k += 1;
            assert(train@.take(k as int) =~= train@.take(k - 1).push(train@[k - 1]));
            assert(all@ =~= before + points_of(train@.take(k as int), i as int));
        }
        assert(train@.take(train@.len() as int) =~= train@);
        i += 1;
    }
    let mut sorted = stable_sort(&all);
    let ghost full = sorted@;
    if cap < sorted.len() {
        sorted.truncate(cap);
    }
    assert(stably_sorted(all_points(trains@, trains@.len() as int), full));
    assert(full.take(full.len() as int) =~= full);
    sorted
}

/// Spikes of the neurons `start .. start + len`.
pub open spec fn spikes_between(trains: Seq<Vec<usize>>, start: int, len: int) -> int {
    spikes_of(trains, start + len) - spikes_of(trains, start)
}

/// Spikes of the neurons `start .. start + len`.
pub fn population_spikes(trains: &Vec<Vec<usize>>, start: usize, len: usize) -> (r: u64)
    requires
        start + len <= trains@.len(),
        spikes_of(trains@, trains@.len() as int) <= u64::MAX,
    ensures
        r == spikes_between(trains@, start as int, len as int),
{
    let n: usize = trains.len();
    let mut total: u64 = 0;
    let mut k: usize = 0;
    while k < len
        invariant
            k <= len,
            start + len <= n == trains@.len(),
            spikes_of(trains@, trains@.len() as int) <= u64::MAX,
            total == spikes_between(trains@, start as int, k as int),
        decreases len - k,
    {
        proof {
            lemma_spikes_mono(trains@, 0, start as int);
            lemma_spikes_mono(trains@, start + k + 1, trains@.len() as int);
        }
        total = total + trains[start + k].len() as u64;
        k += 1;
    }
    total
}

proof fn lemma_spikes_mono(trains: Seq<Vec<usize>>, a: int, b: int)
    requires
        0 <= a <= b <= trains.len(),
    ensures
        spikes_of(trains, a) <= spikes_of(trains, b),
    decreases b - a,
{
    if a < b {
        lemma_spikes_mono(trains, a, b - 1);
    }
}

/// Raster points that a report holds at most.
pub const RASTER_CAP: usize = 2000;

/// The spiking-column executor.
pub struct SpikingExecutor;

} // verus!
