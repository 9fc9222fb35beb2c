//! Scattering parameters from two runs: one with the device, one without.
//!
//! The mode amplitude that the reference run leaves at port 1 is the incident
//! wave `a`. In the device run port 1 sees incident plus reflected, and every
//! other port what is transmitted:
//!
//! ```text
//!   S_11 = (A_1 - a)/a          S_k1 = A_k/a   (k >= 2)
//! ```

use crate::complex::Cx;
use crate::field::monitor::PortMonitor;
use crate::photonic::network::{two_port, Sparams};
use crate::scalar::Scalar;
use vstd::prelude::*;

verus! {

/// Amplitude of port frequency `f`: its sum scaled by the time step.
pub open spec fn amplitude<T: Scalar>(p: PortMonitor<T>, dt: T, f: int) -> Cx<T> {
    p.accum@[f].scaled(dt)
}

/// The wave that leaves port `k` at frequency `f`: at port 1 what the device
/// adds to the incident wave, elsewhere everything.
pub open spec fn outgoing<T: Scalar>(
    reference: Seq<PortMonitor<T>>,
    device: Seq<PortMonitor<T>>,
    dt: T,
    k: int,
    f: int,
) -> Cx<T> {
    if k == 0 {
        amplitude(device[0], dt, f).difference(amplitude(reference[0], dt, f))
    } else {
        amplitude(device[k], dt, f)
    }
}

/// An incident wave arrives at every frequency below `n`.
pub open spec fn lit<T: Scalar, V: Fn(Cx<T>) -> bool>(
    incident: PortMonitor<T>,
    dt: T,
    n: int,
    vanished: V,
) -> bool {
    forall|f: int|
        0 <= f < n ==> call_ensures(vanished, (#[trigger] amplitude(incident, dt, f),), false)
}

/// Frequency `f` is the first one without an incident wave.
pub open spec fn first_dark<T: Scalar, V: Fn(Cx<T>) -> bool>(
    incident: PortMonitor<T>,
    dt: T,
    f: int,
    vanished: V,
) -> bool {
    &&& call_ensures(vanished, (amplitude(incident, dt, f),), true)
    &&& lit(incident, dt, f, vanished)
}

/// `s` is the column that two runs leave at their ports: every outgoing wave
/// over the incident one.
pub open spec fn is_column<T: Scalar, V: Fn(Cx<T>) -> bool, D: Fn(Cx<T>, Cx<T>) -> Cx<T>>(
    reference: Seq<PortMonitor<T>>,
    device: Seq<PortMonitor<T>>,
    dt: T,
    n_frequencies: int,
    vanished: V,
    divide: D,
    s: Seq<Vec<Cx<T>>>,
) -> bool {
    &&& lit(reference[0], dt, n_frequencies, vanished)
    &&& s.len() == device.len()
    &&& forall|k: int| 0 <= k < s.len() ==> (#[trigger] s[k])@.len() == n_frequencies
    &&& forall|k: int, f: int|
        0 <= k < s.len() && 0 <= f < n_frequencies ==> call_ensures(
            divide,
            (outgoing(reference, device, dt, k, f), amplitude(reference[0], dt, f)),
            #[trigger] s[k]@[f],
        )
}

/// The column of scattering parameters: port by port, frequency by frequency.
/// `vanished` tells an incident amplitude that is too small to divide by, and
/// `divide` is complex division. `Err` names the first frequency without an
/// incident wave.
pub fn extract<T: Scalar, V: Fn(Cx<T>) -> bool, D: Fn(Cx<T>, Cx<T>) -> Cx<T>>(
    reference: &Vec<PortMonitor<T>>,
    device: &Vec<PortMonitor<T>>,
    dt: T,
    n_frequencies: usize,
    vanished: V,
    divide: D,
) -> (r: Result<Vec<Vec<Cx<T>>>, usize>)
    requires
        reference@.len() > 0,
        reference@[0].accum@.len() == n_frequencies,
        device@.len() > 0,
        forall|k: int|
            0 <= k < device@.len() ==> (#[trigger] device@[k]).accum@.len() == n_frequencies,
        forall|a: Cx<T>| #[trigger] call_requires(vanished, (a,)),
        forall|a: Cx<T>, b: Cx<T>| #[trigger] call_requires(divide, (a, b)),
    ensures
        match r {
            Ok(s) => is_column(reference@, device@, dt, n_frequencies as int, vanished, divide, s@),
            Err(f) => f < n_frequencies && first_dark(reference@[0], dt, f as int, vanished),
        },
{
    let a = reference[0].amplitudes(dt);
    let mut f: usize = 0;
    while f < n_frequencies
        invariant
            f <= n_frequencies,
            reference@.len() > 0,
            a@.len() == n_frequencies,
            forall|m: int|
                0 <= m < n_frequencies ==> #[trigger] a@[m] == amplitude(reference@[0], dt, m),
            forall|x: Cx<T>| #[trigger] call_requires(vanished, (x,)),
            forall|m: int|
                0 <= m < f ==> call_ensures(
                    vanished,
                    (#[trigger] amplitude(reference@[0], dt, m),),
                    false,
                ),
        decreases n_frequencies - f,
    {
        if vanished(a[f]) {
            return Err(f);
        }
        f += 1;
    }
    let mut s: Vec<Vec<Cx<T>>> = Vec::new();
    let mut k: usize = 0;
    while k < device.len()
        invariant
            k <= device@.len(),
            s@.len() == k,
            reference@.len() > 0,
            a@.len() == n_frequencies,
            forall|m: int|
                0 <= m < n_frequencies ==> #[trigger] a@[m] == amplitude(reference@[0], dt, m),
            forall|m: int|
                0 <= m < device@.len() ==> (#[trigger] device@[m]).accum@.len() == n_frequencies,
            forall|x: Cx<T>, y: Cx<T>| #[trigger] call_requires(divide, (x, y)),
            forall|m: int| 0 <= m < k ==> (#[trigger] s@[m])@.len() == n_frequencies,
            forall|m: int, q: int|
                0 <= m < k && 0 <= q < n_frequencies ==> call_ensures(
                    divide,
                    (outgoing(reference@, device@, dt, m, q), amplitude(reference@[0], dt, q)),
                    #[trigger] s@[m]@[q],
                ),
        decreases device@.len() - k,
    {
        let dev = device[k].amplitudes(dt);
        let mut col: Vec<Cx<T>> = Vec::new();
        let mut q: usize = 0;
        while q < n_frequencies
            invariant
                q <= n_frequencies,
                k < device@.len(),
                reference@.len() > 0,
                a@.len() == n_frequencies,
                forall|m: int|
                    0 <= m < n_frequencies ==> #[trigger] a@[m] == amplitude(
                        reference@[0],
                        dt,
                        m,
                    ),
                dev@.len() == n_frequencies,
                forall|m: int|
                    0 <= m < n_frequencies ==> #[trigger] dev@[m] == amplitude(
                        device@[k as int],
                        dt,
                        m,
                    ),
                forall|x: Cx<T>, y: Cx<T>| #[trigger] call_requires(divide, (x, y)),
                col@.len() == q,
                forall|m: int|
                    0 <= m < q ==> call_ensures(
                        divide,
                        (
                            outgoing(reference@, device@, dt, k as int, m),
                            amplitude(reference@[0], dt, m),
                        ),
                        #[trigger] col@[m],
                    ),
            decreases n_frequencies - q,
        {
            let out = if k == 0 {
                dev[q].minus(a[q])
            } else {
                dev[q]
            };
            let x = divide(out, a[q]);
            col.push(x);
            q += 1;
        }
        s.push(col);
        k += 1;
    }
    Ok(s)
}

/// An extracted column of scattering parameters.
pub struct ExtractedSparams<T> {
    /// Angular frequencies.
    pub frequencies: Vec<T>,
    /// Port by port, frequency by frequency.
    pub s_col: Vec<Vec<Cx<T>>>,
}

impl<T: Scalar> ExtractedSparams<T> {
    /// The network of a device with two ports at one frequency, which looks
    /// the same from both sides.
    pub fn two_port(&self, fi: usize) -> (r: Sparams<T>)
        requires
            self.s_col@.len() == 2,
            fi < self.s_col@[0]@.len(),
            fi < self.s_col@[1]@.len(),
        ensures
            r.wf(),
            r.n_left == 1,
            r.n_right == 1,
            r.full_at(0, 0) == self.s_col@[0]@[fi as int],
            r.full_at(1, 1) == self.s_col@[0]@[fi as int],
            r.full_at(0, 1) == self.s_col@[1]@[fi as int],
            r.full_at(1, 0) == self.s_col@[1]@[fi as int],
    {
        two_port(self.s_col[0][fi], self.s_col[1][fi])
    }
}

/// One entry of a report: ports counted from one.
#[derive(Debug, Clone, Copy)]
pub struct Entry<T> {
    pub from: usize,
    pub to: usize,
    /// Index of the frequency.
    pub frequency: usize,
    pub value: Cx<T>,
}

impl<T: Scalar> Entry<T> {
    /// Length and phase of the value. `hypot` is called on its real and
    /// imaginary part, `atan2` on its imaginary and real part.
    pub fn polar<H: Fn(T, T) -> T, A: Fn(T, T) -> T>(&self, hypot: &H, atan2: &A) -> (r: (T, T))
        requires
            call_requires(*hypot, (self.value.re, self.value.im)),
            call_requires(*atan2, (self.value.im, self.value.re)),
        ensures
            call_ensures(*hypot, (self.value.re, self.value.im), r.0),
            call_ensures(*atan2, (self.value.im, self.value.re), r.1),
    {
        let length = hypot(self.value.re, self.value.im);
        let phase = atan2(self.value.im, self.value.re);
        (length, phase)
    }
}

/// The entries of a column, port by port, frequency by frequency.
pub fn entries<T: Scalar>(s_col: &Vec<Vec<Cx<T>>>, n_frequencies: usize) -> (r: Vec<Entry<T>>)
    requires
        forall|k: int| 0 <= k < s_col@.len() ==> (#[trigger] s_col@[k])@.len() == n_frequencies,
        s_col@.len() * n_frequencies <= usize::MAX,
        n_frequencies > 0,
        s_col@.len() < usize::MAX,
    ensures
        r@.len() == s_col@.len() * n_frequencies,
        forall|m: int|
            0 <= m < r@.len() ==> #[trigger] r@[m] == (Entry {
                from: 1,
                to: (m / (n_frequencies as int) + 1) as usize,
                frequency: (m % (n_frequencies as int)) as usize,
                value: s_col@[m / (n_frequencies as int)]@[m % (n_frequencies as int)],
            }),
{
    let n: usize = s_col.len() * n_frequencies;
    let mut r: Vec<Entry<T>> = Vec::new();
    let mut m: usize = 0;
    while m < n
        invariant
            m <= n,
            n == s_col@.len() * n_frequencies,
            n_frequencies > 0,
            s_col@.len() < usize::MAX,
            forall|k: int| 0 <= k < s_col@.len() ==> (#[trigger] s_col@[k])@.len() == n_frequencies,
            r@.len() == m,
            forall|q: int|
                0 <= q < m ==> #[trigger] r@[q] == (Entry {
                    from: 1,
                    to: (q / (n_frequencies as int) + 1) as usize,
                    frequency: (q % (n_frequencies as int)) as usize,
                    value: s_col@[q / (n_frequencies as int)]@[q % (n_frequencies as int)],
                }),
        decreases n - m,
    {
        let k: usize = m / n_frequencies;
        let f: usize = m % n_frequencies;
        proof {
            vstd::arithmetic::div_mod::lemma_fundamental_div_mod(m as int, n_frequencies as int);
            assert(k < s_col@.len()) by (nonlinear_arith)
                requires
                    m == n_frequencies * k + f,
                    0 <= f,
                    m < s_col@.len() * n_frequencies,
                    n_frequencies > 0,
            ;
            assert(s_col@[k as int]@.len() == n_frequencies);
        }
        r.push(Entry { from: 1, to: k + 1, frequency: f, value: s_col[k][f] });
        m += 1;
    }
    r
}

} // verus!
