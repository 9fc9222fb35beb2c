//! Field transfer of circuit components.
//!
//! A coupler that crosses the share K of the power has straight-through
//! amplitude t = sqrt(1-K) and cross amplitude i.r with r = sqrt(K). Phasors,
//! roots and complex division come in as samples or functions.

use crate::complex::Cx;
use crate::matrix::Matrix;
use crate::photonic::network::CMat;
use crate::scalar::Scalar;
use vstd::prelude::*;

verus! {

/// A 2x2 transfer, row by row.
pub open spec fn is_transfer<T: Scalar>(
    m: &CMat<T>,
    a: Cx<T>,
    b: Cx<T>,
    c: Cx<T>,
    d: Cx<T>,
) -> bool {
    m.rows == 2 && m.cols == 2 && m.data@ =~= seq![a, b, c, d]
}

fn transfer_of<T: Scalar>(a: Cx<T>, b: Cx<T>, c: Cx<T>, d: Cx<T>) -> (r: CMat<T>)
    ensures
        is_transfer(&r, a, b, c, d),
        r.shaped(2, 2),
{
    let mut data: Vec<Cx<T>> = Vec::new();
    data.push(a);
    data.push(b);
    data.push(c);
    data.push(d);
    Matrix { rows: 2, cols: 2, data }
}

/// A straight waveguide segment.
#[derive(Debug, Clone, Copy)]
pub struct Waveguide<T> {
    pub length_um: T,
    pub n_eff: T,
    /// Propagation loss of power.
    pub loss_db_per_cm: T,
}

/// The functions and constants that transfers are made of.
pub struct Optics<T, P, S, C> {
    /// Ten to the power of.
    pub ten_to: P,
    pub sin: S,
    pub cos: C,
    pub full_turn: T,
    /// Centimetres per micrometre.
    pub cm_per_um: T,
}

impl<T: Scalar, P: Fn(T) -> T, S: Fn(T) -> T, C: Fn(T) -> T> Optics<T, P, S, C> {
    /// The functions take any sample.
    pub open spec fn ready(&self) -> bool {
        &&& forall|x: T| #[trigger] call_requires(self.ten_to, (x,))
        &&& forall|x: T| #[trigger] call_requires(self.sin, (x,))
        &&& forall|x: T| #[trigger] call_requires(self.cos, (x,))
    }

    /// `z` is the phasor of length `r` at an angle.
    pub open spec fn polar(&self, r: T, angle: T, z: Cx<T>, by: (T, T)) -> bool {
        &&& call_ensures(self.cos, (angle,), by.0)
        &&& call_ensures(self.sin, (angle,), by.1)
        &&& z == (Cx { re: r.product(by.0), im: r.product(by.1) })
    }

    pub open spec fn is_polar(&self, r: T, angle: T, z: Cx<T>) -> bool {
        exists|by: (T, T)| #[trigger] self.polar(r, angle, z, by)
    }

    fn from_polar(&self, r: T, angle: T) -> (z: Cx<T>)
        requires
            self.ready(),
        ensures
            self.is_polar(r, angle, z),
    {
        let c = (self.cos)(angle);
        let s = (self.sin)(angle);
        let z = Cx { re: r.times(c), im: r.times(s) };
        assert(self.polar(r, angle, z, (c, s)));
        z
    }
}

impl<T: Scalar> Waveguide<T> {
    /// Loss exponent: -loss.length/20, the length in centimetres.
    pub open spec fn exponent<P, S, C>(&self, optics: &Optics<T, P, S, C>) -> T {
        self.loss_db_per_cm.negative().product(
            self.length_um.product(optics.cm_per_um),
        ).quotient(T::of_count(20))
    }

    /// Phase: a full turn times the index over the wavelength, times the
    /// length.
    pub open spec fn phase<P, S, C>(&self, optics: &Optics<T, P, S, C>, lambda_um: T) -> T {
        optics.full_turn.product(self.n_eff).quotient(lambda_um).product(self.length_um)
    }

    pub open spec fn is_transfer<P: Fn(T) -> T, S: Fn(T) -> T, C: Fn(T) -> T>(
        &self,
        lambda_um: T,
        optics: &Optics<T, P, S, C>,
        z: Cx<T>,
    ) -> bool {
        exists|amp: T|
            #[trigger] call_ensures(optics.ten_to, (self.exponent(optics),), amp)
                && optics.is_polar(amp, self.phase(optics, lambda_um), z)
    }

    /// Field transfer at a wavelength.
    pub fn transfer<P: Fn(T) -> T, S: Fn(T) -> T, C: Fn(T) -> T>(
        &self,
        lambda_um: T,
        optics: &Optics<T, P, S, C>,
    ) -> (z: Cx<T>)
        requires
            optics.ready(),
        ensures
            self.is_transfer(lambda_um, optics, z),
    {
        let beta = optics.full_turn.times(self.n_eff).over(lambda_um);
        let length_cm = self.length_um.times(optics.cm_per_um);
        let amp = (optics.ten_to)(
            self.loss_db_per_cm.opposite().times(length_cm).over(T::from_count(20)),
        );
        assert(call_ensures(optics.ten_to, (self.exponent(optics),), amp));
        optics.from_polar(amp, beta.times(self.length_um))
    }

    /// Matched, reciprocal 2-port at a wavelength.
    pub fn s_matrix<P: Fn(T) -> T, S: Fn(T) -> T, C: Fn(T) -> T>(
        &self,
        lambda_um: T,
        optics: &Optics<T, P, S, C>,
    ) -> (m: CMat<T>)
        requires
            optics.ready(),
        ensures
            m.shaped(2, 2),
            exists|t: Cx<T>|
                #[trigger] self.is_transfer(lambda_um, optics, t) && is_transfer(
                    &m,
                    Cx::<T>::nought(),
                    t,
                    t,
                    Cx::<T>::nought(),
                ),
    {
        let t = self.transfer(lambda_um, optics);
        assert(self.is_transfer(lambda_um, optics, t));
        segment(t)
    }
}

/// Matched, reciprocal 2-port of a straight segment with this transfer.
pub fn segment<T: Scalar>(t: Cx<T>) -> (r: CMat<T>)
    ensures
        is_transfer(&r, Cx::<T>::nought(), t, t, Cx::<T>::nought()),
        r.shaped(2, 2),
{
    transfer_of(Cx::zero(), t, t, Cx::zero())
}

/// Coupler of straight-through amplitude `t` and cross amplitude `i.r`.
pub open spec fn is_coupler<T: Scalar>(m: &CMat<T>, t: T, r: T) -> bool {
    let straight = Cx { re: t, im: T::zero_value() };
    let cross = Cx { re: T::zero_value(), im: r };
    is_transfer(m, straight, cross, cross, straight)
}

/// `m` is the coupler that crosses the share `k` of the power: amplitudes
/// √(1 - k) straight through and √k across.
pub open spec fn couples<T: Scalar, R: Fn(T) -> T>(m: &CMat<T>, k: T, root: R) -> bool {
    exists|t: T, r: T|
        #![trigger is_coupler(m, t, r)]
        call_ensures(root, (T::of_count(1).difference(k),), t) && call_ensures(root, (k,), r)
            && is_coupler(m, t, r)
}

fn coupler<T: Scalar, R: Fn(T) -> T>(k: T, root: &R) -> (m: CMat<T>)
    requires
        forall|x: T| #[trigger] call_requires(root, (x,)),
    ensures
        m.shaped(2, 2),
        couples(&m, k, *root),
{
    let r = root(k);
    let t = root(T::from_count(1).minus(k));
    let straight = Cx { re: t, im: T::zero() };
    let cross = Cx { re: T::zero(), im: r };
    let m = transfer_of(straight, cross, cross, straight);
    assert(is_coupler(&m, t, r));
    m
}

/// Directional coupler that crosses the share `k` of the power; `k` must lie
/// between none and all of it.
pub fn directional_coupler<T: Scalar, R: Fn(T) -> T>(k: T, root: &R) -> (m: CMat<T>)
    requires
        k.at_least(T::zero_value()),
        T::of_count(1).at_least(k),
        forall|x: T| #[trigger] call_requires(root, (x,)),
    ensures
        m.shaped(2, 2),
        couples(&m, k, *root),
{
    coupler(k, root)
}

/// Directional coupler that crosses half of the power.
pub fn coupler_50_50<T: Scalar, R: Fn(T) -> T>(root: &R) -> (m: CMat<T>)
    requires
        forall|x: T| #[trigger] call_requires(root, (x,)),
    ensures
        m.shaped(2, 2),
        couples(&m, T::of_count(1).quotient(T::of_count(2)), *root),
{
    coupler(T::from_count(1).over(T::from_count(2)), root)
}

/// Phase on a single port: the phasor of unit length at the angle.
pub fn single_port_phase<T: Scalar, P: Fn(T) -> T, S: Fn(T) -> T, C: Fn(T) -> T>(
    phi: T,
    optics: &Optics<T, P, S, C>,
) -> (z: Cx<T>)
    requires
        optics.ready(),
    ensures
        optics.is_polar(T::of_count(1), phi, z),
{
    optics.from_polar(T::from_count(1), phi)
}

/// Phase on the top arm.
pub fn phase_shifter<T: Scalar>(phasor: Cx<T>) -> (m: CMat<T>)
    ensures
        is_transfer(&m, phasor, Cx::<T>::nought(), Cx::<T>::nought(), Cx::<T>::unit()),
        m.shaped(2, 2),
{
    transfer_of(phasor, Cx::zero(), Cx::zero(), Cx::one())
}

/// `m` is `c.p.c.q`.
pub open spec fn sandwiched<T: Scalar>(c: &CMat<T>, p: &CMat<T>, q: &CMat<T>, m: &CMat<T>) -> bool {
    exists|cp: CMat<T>, cpc: CMat<T>|
        #![trigger cp.is_product(c, p), cpc.is_product(&cp, c)]
        cp.is_product(c, p) && cpc.is_product(&cp, c) && m.is_product(&cpc, q)
}

/// Mach-Zehnder interferometer: input phase, coupler, internal phase, coupler.
/// `coupler` is the half-and-half coupler, `theta` and `phi` the phasors of
/// the internal and the input phase.
pub fn mzi_transfer<T: Scalar>(coupler: &CMat<T>, theta: Cx<T>, phi: Cx<T>) -> (m: CMat<T>)
    requires
        coupler.shaped(2, 2),
    ensures
        m.shaped(2, 2),
        exists|p: CMat<T>, q: CMat<T>|
            {
                &&& #[trigger] is_transfer(
                    &p,
                    theta,
                    Cx::<T>::nought(),
                    Cx::<T>::nought(),
                    Cx::<T>::unit(),
                )
                &&& #[trigger] is_transfer(
                    &q,
                    phi,
                    Cx::<T>::nought(),
                    Cx::<T>::nought(),
                    Cx::<T>::unit(),
                )
                &&& sandwiched(coupler, &p, &q, &m)
            },
{
    let p = phase_shifter(theta);
    let q = phase_shifter(phi);
    let cp = coupler.matmul(&p);
    let cpc = cp.matmul(coupler);
    let m = cpc.matmul(&q);
    assert(sandwiched(coupler, &p, &q, &m)) by {
        assert(cp.is_product(coupler, &p) && cpc.is_product(&cp, coupler));
    }
    m
}

/// Through-port transfer of a ring on one bus: numerator and denominator
/// t - rt and 1 - rt.t, with `rt` the round-trip transfer.
pub open spec fn all_pass<T: Scalar>(t: T, rt: Cx<T>) -> (Cx<T>, Cx<T>) {
    (
        (Cx { re: t, im: T::zero_value() }).difference(rt),
        Cx::<T>::unit().difference(rt.scaled(t)),
    )
}

/// Through-port transfer of a ring on one bus.
pub fn all_pass_transfer<T: Scalar, D: Fn(Cx<T>, Cx<T>) -> Cx<T>>(
    t: T,
    rt: Cx<T>,
    divide: &D,
) -> (h: Cx<T>)
    requires
        forall|a: Cx<T>, b: Cx<T>| #[trigger] call_requires(divide, (a, b)),
    ensures
        call_ensures(divide, (all_pass(t, rt).0, all_pass(t, rt).1), h),
{
    let num = (Cx { re: t, im: T::zero() }).minus(rt);
    let den = Cx::one().minus(rt.scale(t));
    divide(num, den)
}

/// Through and drop transfer of a ring between two buses: both numerators and
/// the shared denominator. `k1` and `k2` are the cross amplitudes, `half` the
/// transfer of half the ring.
pub open spec fn add_drop<T: Scalar>(
    t1: T,
    t2: T,
    k1: T,
    k2: T,
    rt: Cx<T>,
    half: Cx<T>,
) -> (Cx<T>, Cx<T>, Cx<T>) {
    (
        (Cx { re: t1, im: T::zero_value() }).difference(rt.scaled(t2)),
        half.negated().scaled(k1.product(k2)),
        Cx::<T>::unit().difference(rt.scaled(t1.product(t2))),
    )
}

/// Cross amplitude that belongs to a self-coupling: sqrt(1 - t^2).
pub open spec fn cross_of<T: Scalar>(t: T) -> T {
    T::of_count(1).difference(t.product(t))
}

/// Through and drop transfer of a ring between two buses.
pub fn add_drop_transfer<T: Scalar, R: Fn(T) -> T, D: Fn(Cx<T>, Cx<T>) -> Cx<T>>(
    t1: T,
    t2: T,
    rt: Cx<T>,
    half: Cx<T>,
    root: &R,
    divide: &D,
) -> (h: (Cx<T>, Cx<T>))
    requires
        forall|x: T| #[trigger] call_requires(root, (x,)),
        forall|a: Cx<T>, b: Cx<T>| #[trigger] call_requires(divide, (a, b)),
    ensures
        exists|k1: T, k2: T|
            {
                let (through, drop, den) = add_drop(t1, t2, k1, k2, rt, half);
                &&& #[trigger] call_ensures(root, (cross_of(t1),), k1)
                &&& #[trigger] call_ensures(root, (cross_of(t2),), k2)
                &&& call_ensures(divide, (through, den), h.0)
                &&& call_ensures(divide, (drop, den), h.1)
            },
{
    let one = T::from_count(1);
    let k1 = root(one.minus(t1.times(t1)));
    let k2 = root(one.minus(t2.times(t2)));
    let den = Cx::one().minus(rt.scale(t1.times(t2)));
    let through = divide((Cx { re: t1, im: T::zero() }).minus(rt.scale(t2)), den);
    let drop = divide(half.opposite().scale(k1.times(k2)), den);
    assert(call_ensures(root, (cross_of(t1),), k1) && call_ensures(root, (cross_of(t2),), k2));
    (through, drop)
}

/// An all-pass ring by its geometry.
#[derive(Debug, Clone, Copy)]
pub struct AllPassRing<T> {
    pub circumference_um: T,
    pub n_eff: T,
    /// Self-coupling of the bus.
    pub t: T,
    pub loss_db_per_cm: T,
}

impl<T: Scalar> AllPassRing<T> {
    /// Round-trip phase: a full turn times n_eff.L over the wavelength.
    pub fn round_trip_phase(&self, full_turn: T, lambda_um: T) -> (r: T)
        ensures
            r == self.phase(full_turn, lambda_um),
    {
        full_turn.times(self.n_eff).times(self.circumference_um).over(lambda_um)
    }

    /// Amplitude after one round trip.
    pub fn round_trip_amplitude<P: Fn(T) -> T, S: Fn(T) -> T, C: Fn(T) -> T>(
        &self,
        optics: &Optics<T, P, S, C>,
    ) -> (a: T)
        requires
            optics.ready(),
        ensures
            call_ensures(optics.ten_to, (self.exponent(optics),), a),
    {
        (optics.ten_to)(
            self.loss_db_per_cm.opposite().times(self.circumference_um).times(
                optics.cm_per_um,
            ).over(T::from_count(20)),
        )
    }

    /// Loss exponent of a round trip.
    pub open spec fn exponent<P, S, C>(&self, optics: &Optics<T, P, S, C>) -> T {
        self.loss_db_per_cm.negative().product(self.circumference_um).product(
            optics.cm_per_um,
        ).quotient(T::of_count(20))
    }

    /// Phase of a round trip.
    pub open spec fn phase(&self, full_turn: T, lambda_um: T) -> T {
        full_turn.product(self.n_eff).product(self.circumference_um).quotient(lambda_um)
    }

    /// `h` is the transfer that amplitude `a` and round-trip phasor `rt` give.
    pub open spec fn rings<P: Fn(T) -> T, S: Fn(T) -> T, C: Fn(T) -> T, D: Fn(
        Cx<T>,
        Cx<T>,
    ) -> Cx<T>>(
        &self,
        lambda_um: T,
        optics: &Optics<T, P, S, C>,
        divide: D,
        h: Cx<T>,
        by: (T, Cx<T>),
    ) -> bool {
        let (a, rt) = by;
        &&& call_ensures(optics.ten_to, (self.exponent(optics),), a)
        &&& optics.is_polar(a, self.phase(optics.full_turn, lambda_um), rt)
        &&& call_ensures(divide, (all_pass(self.t, rt).0, all_pass(self.t, rt).1), h)
    }

    /// Through-port transfer at a wavelength.
    pub fn transfer<P: Fn(T) -> T, S: Fn(T) -> T, C: Fn(T) -> T, D: Fn(Cx<T>, Cx<T>) -> Cx<T>>(
        &self,
        lambda_um: T,
        optics: &Optics<T, P, S, C>,
        divide: &D,
    ) -> (h: Cx<T>)
        requires
            optics.ready(),
            forall|a: Cx<T>, b: Cx<T>| #[trigger] call_requires(divide, (a, b)),
        ensures
            exists|by: (T, Cx<T>)|
                #[trigger] self.rings(lambda_um, optics, *divide, h, by),
    {
        let a = self.round_trip_amplitude(optics);
        let rt = optics.from_polar(a, self.round_trip_phase(optics.full_turn, lambda_um));
        let h = all_pass_transfer(self.t, rt, divide);
        assert(self.rings(lambda_um, optics, *divide, h, (a, rt)));
        h
    }

    /// The squared wavelength over n_eff.L.
    pub open spec fn range(&self, lambda_um: T) -> T {
        lambda_um.product(lambda_um).quotient(self.n_eff.product(self.circumference_um))
    }

    /// Free spectral range: the squared wavelength over n_eff.L.
    pub fn fsr_um(&self, lambda_um: T) -> (r: T)
        ensures
            r == self.range(lambda_um),
    {
        lambda_um.times(lambda_um).over(self.n_eff.times(self.circumference_um))
    }
}

} // verus!
