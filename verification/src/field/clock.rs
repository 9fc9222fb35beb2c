//! The time base of runs: the time step, the moment of each step, and what
//! sources and monitors take from the clock there.

use crate::complex::Cx;
use crate::field::run::Beat;
use crate::field::run3::Beat3;
use crate::field::source::{TimeProfile, Waveform};
use crate::scalar::Scalar;
use vstd::prelude::*;

verus! {

/// `dt` is the time step of a grid with `axes` axes: the Courant number over
/// the root of their number.
pub open spec fn is_time_step<T: Scalar, R: Fn(T) -> T>(
    courant: T,
    axes: u64,
    root: R,
    dt: T,
) -> bool {
    exists|r: T| #[trigger] call_ensures(root, (T::of_count(axes),), r) && dt == courant.quotient(r)
}

/// The time step of a grid with `axes` axes.
pub fn time_step<T: Scalar, R: Fn(T) -> T>(courant: T, axes: u64, root: &R) -> (dt: T)
    requires
        call_requires(root, (T::of_count(axes),)),
    ensures
        is_time_step(courant, axes, *root, dt),
{
    let n = T::from_count(axes);
    let r = root(n);
    assert(call_ensures(*root, (T::of_count(axes),), r));
    courant.over(r)
}

/// When step `n`, counted from zero, is done: `(n + 1).dt`.
pub open spec fn moment<T: Scalar>(n: int, dt: T) -> T {
    T::of_count((n + 1) as u64).product(dt)
}

/// `p` is the unit phasor of `angle`.
pub open spec fn turned<T: Scalar, E: Fn(T) -> T, S: Fn(T) -> T, C: Fn(T) -> T>(
    angle: T,
    w: &Waveform<T, E, S, C>,
    p: Cx<T>,
) -> bool {
    call_ensures(w.cos, (angle,), p.re) && call_ensures(w.sin, (angle,), p.im)
}

/// `p` holds the unit phasor of `omega.t` for every frequency, turned
/// backwards for a probe.
pub open spec fn are_phasors<T: Scalar, E: Fn(T) -> T, S: Fn(T) -> T, C: Fn(T) -> T>(
    frequencies: Seq<T>,
    t: T,
    backwards: bool,
    w: &Waveform<T, E, S, C>,
    p: Seq<Cx<T>>,
) -> bool {
    &&& p.len() == frequencies.len()
    &&& forall|f: int|
        0 <= f < p.len() ==> turned(
            if backwards {
                frequencies[f].negative().product(t)
            } else {
                frequencies[f].product(t)
            },
            w,
            #[trigger] p[f],
        )
}

fn phasors<T: Scalar, E: Fn(T) -> T, S: Fn(T) -> T, C: Fn(T) -> T>(
    frequencies: &Vec<T>,
    t: T,
    backwards: bool,
    w: &Waveform<T, E, S, C>,
) -> (r: Vec<Cx<T>>)
    requires
        w.ready(),
    ensures
        are_phasors(frequencies@, t, backwards, w, r@),
{
    let mut r: Vec<Cx<T>> = Vec::new();
    let mut f: usize = 0;
    while f < frequencies.len()
        invariant
            f <= frequencies@.len(),
            w.ready(),
            are_phasors(frequencies@.take(f as int), t, backwards, w, r@),
        decreases frequencies@.len() - f,
    {
        let angle = if backwards {
            frequencies[f].opposite().times(t)
        } else {
            frequencies[f].times(t)
        };
        let re = (w.cos)(angle);
        let im = (w.sin)(angle);
        r.push(Cx { re, im });
        f += 1;
    }
    assert(frequencies@.take(f as int) =~= frequencies@);
    r
}

/// `s` is the signal of a source at `t`; zero without one.
pub open spec fn is_signal<T: Scalar, E: Fn(T) -> T, S: Fn(T) -> T, C: Fn(T) -> T>(
    time: Option<TimeProfile<T>>,
    t: T,
    w: &Waveform<T, E, S, C>,
    s: T,
) -> bool {
    match time {
        Some(p) => p.is_value(t, w, s),
        None => s == T::zero_value(),
    }
}

fn signal_at<T: Scalar, E: Fn(T) -> T, S: Fn(T) -> T, C: Fn(T) -> T>(
    time: Option<TimeProfile<T>>,
    t: T,
    w: &Waveform<T, E, S, C>,
) -> (s: T)
    requires
        w.ready(),
    ensures
        is_signal(time, t, w, s),
{
    match time {
        Some(p) => p.eval(t, w),
        None => T::zero(),
    }
}

/// What a 2D run asks of the clock: the signatures of its sources, its
/// frequencies, and whether ports watch.
pub struct Timing<T> {
    pub source: Option<TimeProfile<T>>,
    pub mode_source: Option<TimeProfile<T>>,
    pub frequencies: Vec<T>,
    pub ports: bool,
}

impl<T: Scalar> Timing<T> {
    /// `b` is the beat at `t`: both signals, the phasors of the probe turned
    /// backwards, those of the ports forwards.
    pub open spec fn is_beat<E: Fn(T) -> T, S: Fn(T) -> T, C: Fn(T) -> T>(
        &self,
        t: T,
        w: &Waveform<T, E, S, C>,
        b: Beat<T>,
    ) -> bool {
        &&& is_signal(self.source, t, w, b.signal)
        &&& is_signal(self.mode_source, t, w, b.mode_signal)
        &&& are_phasors(self.frequencies@, t, true, w, b.dft@)
        &&& if self.ports {
            are_phasors(self.frequencies@, t, false, w, b.ports@)
        } else {
            b.ports@.len() == 0
        }
    }

    /// The beats of a run, one per step.
    pub fn beats<E: Fn(T) -> T, S: Fn(T) -> T, C: Fn(T) -> T>(
        &self,
        steps: usize,
        dt: T,
        w: &Waveform<T, E, S, C>,
    ) -> (r: Vec<Beat<T>>)
        requires
            w.ready(),
            steps <= u64::MAX,
        ensures
            r@.len() == steps,
            forall|n: int| 0 <= n < steps ==> self.is_beat(moment(n, dt), w, #[trigger] r@[n]),
    {
        let mut r: Vec<Beat<T>> = Vec::new();
        let mut n: usize = 0;
        while n < steps
            invariant
                n <= steps <= u64::MAX,
                w.ready(),
                r@.len() == n,
                forall|k: int| 0 <= k < n ==> self.is_beat(moment(k, dt), w, #[trigger] r@[k]),
            decreases steps - n,
        {
            let t = T::from_count(n as u64 + 1).times(dt);
            assert(t == moment(n as int, dt));
            let ports = if self.ports {
                phasors(&self.frequencies, t, false, w)
            } else {
                Vec::new()
            };
            r.push(
                Beat {
                    signal: signal_at(self.source, t, w),
                    mode_signal: signal_at(self.mode_source, t, w),
                    dft: phasors(&self.frequencies, t, true, w),
                    ports,
                },
            );
            n += 1;
        }
        r
    }
}

/// `b` is the beat of a 3D run at `t`: the dipole's signal and the phasors of
/// the probes, turned backwards.
pub open spec fn is_beat3<T: Scalar, E: Fn(T) -> T, S: Fn(T) -> T, C: Fn(T) -> T>(
    time: TimeProfile<T>,
    frequencies: Seq<T>,
    t: T,
    w: &Waveform<T, E, S, C>,
    b: Beat3<T>,
) -> bool {
    time.is_value(t, w, b.signal) && are_phasors(frequencies, t, true, w, b.phases@)
}

/// The beats of a 3D run, one per step.
pub fn beats3<T: Scalar, E: Fn(T) -> T, S: Fn(T) -> T, C: Fn(T) -> T>(
    steps: usize,
    dt: T,
    time: &TimeProfile<T>,
    frequencies: &Vec<T>,
    w: &Waveform<T, E, S, C>,
) -> (r: Vec<Beat3<T>>)
    requires
        w.ready(),
        steps <= u64::MAX,
    ensures
        r@.len() == steps,
        forall|n: int|
            0 <= n < steps ==> is_beat3(*time, frequencies@, moment(n, dt), w, #[trigger] r@[n]),
{
    let mut r: Vec<Beat3<T>> = Vec::new();
    let mut n: usize = 0;
    while n < steps
        invariant
            n <= steps <= u64::MAX,
            w.ready(),
            r@.len() == n,
            forall|k: int|
                0 <= k < n ==> is_beat3(*time, frequencies@, moment(k, dt), w, #[trigger] r@[k]),
        decreases steps - n,
    {
        let t = T::from_count(n as u64 + 1).times(dt);
        assert(t == moment(n as int, dt));
        r.push(Beat3 { signal: time.eval(t, w), phases: phasors(frequencies, t, true, w) });
        n += 1;
    }
    r
}

/// The signals of a source alone, one per step.
pub fn signals<T: Scalar, E: Fn(T) -> T, S: Fn(T) -> T, C: Fn(T) -> T>(
    steps: usize,
    dt: T,
    time: Option<TimeProfile<T>>,
    w: &Waveform<T, E, S, C>,
) -> (r: Vec<T>)
    requires
        w.ready(),
        steps <= u64::MAX,
    ensures
        r@.len() == steps,
        forall|n: int| 0 <= n < steps ==> is_signal(time, moment(n, dt), w, #[trigger] r@[n]),
{
    let mut r: Vec<T> = Vec::new();
    let mut n: usize = 0;
    while n < steps
        invariant
            n <= steps <= u64::MAX,
            w.ready(),
            r@.len() == n,
            forall|k: int| 0 <= k < n ==> is_signal(time, moment(k, dt), w, #[trigger] r@[k]),
        decreases steps - n,
    {
        let t = T::from_count(n as u64 + 1).times(dt);
        assert(t == moment(n as int, dt));
        r.push(signal_at(time, t, w));
        n += 1;
    }
    r
}

} // verus!
