//! Rates and regularity of a run.

use crate::scalar::Scalar;
use crate::spiking::report::population_spikes;
use crate::spiking::report::spikes_between;
use crate::spiking::run::spikes_of;
use vstd::prelude::*;

verus! {

/// A finished run: spike trains by step, and its timing.
pub struct RunResult<T> {
    /// Steps at which each neuron fired.
    pub trains: Vec<Vec<usize>>,
    pub spikes: u64,
    /// Seconds per step.
    pub dt: T,
    /// Seconds of the run.
    pub duration: T,
    pub n: usize,
}

/// Interval from spike `k` to the next, in seconds.
pub open spec fn interval<T: Scalar>(train: Seq<usize>, dt: T, k: int) -> T {
    T::of_count(train[k + 1] as u64).product(dt).difference(
        T::of_count(train[k] as u64).product(dt),
    )
}

/// Sum of the first `k` intervals.
pub open spec fn interval_sum<T: Scalar>(train: Seq<usize>, dt: T, k: int) -> T
    decreases k,
{
    if k <= 0 {
        T::zero_value()
    } else {
        interval_sum(train, dt, k - 1).sum(interval(train, dt, k - 1))
    }
}

/// Sum of the first `k` squared deviations of intervals from `mean`.
pub open spec fn deviation_sum<T: Scalar>(train: Seq<usize>, dt: T, mean: T, k: int) -> T
    decreases k,
{
    if k <= 0 {
        T::zero_value()
    } else {
        let d = interval(train, dt, k - 1).difference(mean);
        deviation_sum(train, dt, mean, k - 1).sum(d.product(d))
    }
}

impl<T: Scalar> RunResult<T> {
    /// One train per neuron, and a spike count that matches them.
    pub open spec fn wf(&self) -> bool {
        &&& self.trains@.len() == self.n
        &&& self.spikes == spikes_of(self.trains@, self.n as int)
    }

    /// Spikes per neuron and second; none without time or neurons.
    pub open spec fn rate(&self, spikes: u64, n: usize) -> T {
        if T::zero_value().at_least(self.duration) || n == 0 {
            T::zero_value()
        } else {
            T::of_count(spikes).quotient(self.duration.product(T::of_count(n as u64)))
        }
    }

    fn rate_of(&self, spikes: u64, n: usize) -> (r: T)
        ensures
            r == self.rate(spikes, n),
    {
        if T::zero().reaches(self.duration) || n == 0 {
            T::zero()
        } else {
            T::from_count(spikes).over(self.duration.times(T::from_count(n as u64)))
        }
    }

    /// Mean firing rate over all neurons.
    pub fn mean_rate_hz(&self) -> (r: T)
        ensures
            r == self.rate(self.spikes, self.n),
    {
        self.rate_of(self.spikes, self.n)
    }

    /// Mean firing rate over the neurons `start .. start + len`.
    pub fn pop_rate_hz(&self, start: usize, len: usize) -> (r: T)
        requires
            self.wf(),
            start + len <= self.n,
        ensures
            r == self.rate(
                spikes_between(self.trains@, start as int, len as int) as u64,
                len,
            ),
    {
        let count: u64 = population_spikes(&self.trains, start, len);
        self.rate_of(count, len)
    }

    /// `r` is the coefficient of variation of a train's intervals: the root of
    /// their variance over their mean. Nothing with fewer than `min_isi + 1`
    /// spikes, or a mean that is not positive.
    pub open spec fn is_cv<R: Fn(T) -> T>(
        &self,
        i: int,
        min_isi: usize,
        root: R,
        r: Option<T>,
    ) -> bool {
        let s = self.trains@[i]@;
        let m = s.len() - 1;
        let count = T::of_count(m as u64);
        let mean = interval_sum(s, self.dt, m).quotient(count);
        if s.len() < min_isi + 1 || T::zero_value().at_least(mean) {
            r is None
        } else {
            exists|dev: T|
                #[trigger] call_ensures(
                    root,
                    (deviation_sum(s, self.dt, mean, m).quotient(count),),
                    dev,
                ) && r == Some(dev.quotient(mean))
        }
    }

    /// Coefficient of variation of the intervals of one neuron.
    pub fn neuron_cv<R: Fn(T) -> T>(&self, i: usize, min_isi: usize, root: &R) -> (r: Option<T>)
        requires
            self.wf(),
            i < self.n,
            min_isi < usize::MAX,
            forall|x: T| #[trigger] call_requires(root, (x,)),
        ensures
            self.is_cv(i as int, min_isi, *root, r),
    {
        let s = &self.trains[i];
        let len: usize = s.len();
        if len < min_isi + 1 {
            return None;
        }
        let m: usize = len - 1;
        let count = T::from_count(m as u64);
        let mut sum = T::zero();
        let mut k: usize = 0;
        while k < m
            invariant
                m + 1 == s@.len(),
                k <= m,
                sum == interval_sum(s@, self.dt, k as int),
            decreases m - k,
        {
            let gap = T::from_count(s[k + 1] as u64).times(self.dt).minus(
                T::from_count(s[k] as u64).times(self.dt),
            );
            sum = sum.plus(gap);
            k += 1;
        }
        let mean = sum.over(count);
        if T::zero().reaches(mean) {
            return None;
        }
        let mut var = T::zero();
        let mut j: usize = 0;
        while j < m
            invariant
                m + 1 == s@.len(),
                j <= m,
                var == deviation_sum(s@, self.dt, mean, j as int),
            decreases m - j,
        {
            let gap = T::from_count(s[j + 1] as u64).times(self.dt).minus(
                T::from_count(s[j] as u64).times(self.dt),
            );
            let d = gap.minus(mean);
            var = var.plus(d.times(d));
            j += 1;
        }
        let dev = root(var.over(count));
        assert(call_ensures(
            *root,
            (deviation_sum(s@, self.dt, mean, m as int).quotient(count),),
            dev,
        ));
        Some(dev.over(mean))
    }

    /// Sum and number of the coefficients that `cvs` holds for its first `k`
    /// neurons.
    pub open spec fn cv_sum(cvs: Seq<Option<T>>, k: int) -> (T, int)
        decreases k,
    {
        if k <= 0 {
            (T::zero_value(), 0)
        } else {
            let (acc, count) = Self::cv_sum(cvs, k - 1);
            match cvs[k - 1] {
                Some(cv) => (acc.sum(cv), count + 1),
                None => (acc, count),
            }
        }
    }

    /// `r` is the mean coefficient over the neurons `start .. start + len` that
    /// have one from at least two intervals; none where no neuron does.
    pub open spec fn is_mean_cv<R: Fn(T) -> T>(
        &self,
        start: int,
        len: int,
        root: R,
        r: T,
        cvs: Seq<Option<T>>,
    ) -> bool {
        &&& cvs.len() == len
        &&& forall|k: int|
            0 <= k < len ==> self.is_cv(start + k, 2, root, #[trigger] cvs[k])
        &&& r == ({
            let (acc, count) = Self::cv_sum(cvs, len);
            if count == 0 {
                T::zero_value()
            } else {
                acc.quotient(T::of_count(count as u64))
            }
        })
    }

    /// `r` is the mean coefficient over the neurons `start .. start + len`.
    pub open spec fn has_mean_cv<R: Fn(T) -> T>(
        &self,
        start: int,
        len: int,
        root: R,
        r: T,
    ) -> bool {
        exists|cvs: Seq<Option<T>>| #[trigger] self.is_mean_cv(start, len, root, r, cvs)
    }

    /// Mean coefficient of variation over the neurons `start .. start + len`.
    pub fn pop_cv_isi<R: Fn(T) -> T>(&self, start: usize, len: usize, root: &R) -> (r: T)
        requires
            self.wf(),
            start + len <= self.n,
            forall|x: T| #[trigger] call_requires(root, (x,)),
        ensures
            self.has_mean_cv(start as int, len as int, *root, r),
    {
        let mut acc = T::zero();
        let mut count: usize = 0;
        let ghost mut cvs: Seq<Option<T>> = Seq::empty();
        let mut k: usize = 0;
        while k < len
            invariant
                self.wf(),
                start + len <= self.n,
                forall|x: T| #[trigger] call_requires(root, (x,)),
                k <= len,
                count <= k,
                cvs.len() == k,
                forall|j: int| 0 <= j < k ==> self.is_cv(start + j, 2, *root, #[trigger] cvs[j]),
                Self::cv_sum(cvs, k as int) == (acc, count as int),
            decreases len - k,
        {
            let ghost before = cvs;
            let cv = self.neuron_cv(start + k, 2, root);
            proof {
                cvs = cvs.push(cv);
                lemma_cv_prefix::<T>(before, cvs, k as int);
            }
            match cv {
                Some(x) => {
                    acc = acc.plus(x);
                    count += 1;
                },
                None => {},
            }
            k += 1;
        }
        let r = if count == 0 {
            T::zero()
        } else {
            acc.over(T::from_count(count as u64))
        };
        assert(self.is_mean_cv(start as int, len as int, *root, r, cvs));
        r
    }

    /// Mean coefficient of variation over all neurons.
    pub fn mean_cv_isi<R: Fn(T) -> T>(&self, root: &R) -> (r: T)
        requires
            self.wf(),
            forall|x: T| #[trigger] call_requires(root, (x,)),
        ensures
            self.has_mean_cv(0, self.n as int, *root, r),
    {
        self.pop_cv_isi(0, self.n, root)
    }
}

proof fn lemma_cv_prefix<T: Scalar>(a: Seq<Option<T>>, b: Seq<Option<T>>, k: int)
    requires
        k <= a.len() <= b.len(),
        forall|i: int| 0 <= i < a.len() ==> a[i] == b[i],
    ensures
        RunResult::<T>::cv_sum(a, k) == RunResult::<T>::cv_sum(b, k),
    decreases k,
{
    if k > 0 {
        lemma_cv_prefix::<T>(a, b, k - 1);
    }
}

} // verus!
