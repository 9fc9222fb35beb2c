//! Guided modes of a symmetric slab waveguide.
//!
//! A mode of order m satisfies v = u.tan(u - m.pi/2) with u between m.pi/2 and
//! the lesser of (m+1).pi/2 and V, where V is the normalized frequency and
//! u^2 + v^2 = V^2. The left side rises and the right side falls, so the root
//! is unique and bisection finds it.

use crate::scalar::Scalar;
use vstd::prelude::*;

verus! {

/// Halvings that take a bracket down to one sample.
pub const BISECTIONS: usize = 200;

/// A symmetric dielectric slab, across the axis of propagation.
#[derive(Debug, Clone, Copy)]
pub struct SlabWaveguide<T> {
    pub eps_core: T,
    pub eps_clad: T,
    /// Half the width of the core, in cells.
    pub half_width: T,
}

/// A guided mode at one frequency.
#[derive(Debug, Clone, Copy)]
pub struct SlabMode<T> {
    /// Order of the mode: 0 is the fundamental, even orders are even.
    pub m: usize,
    pub omega: T,
    /// Propagation constant over free-space wavenumber.
    pub n_eff: T,
    /// Propagation constant.
    pub beta: T,
    /// Transverse wavenumber in the core.
    pub kappa: T,
    /// Decay constant in the cladding.
    pub gamma: T,
    pub half_width: T,
}

/// The functions and limits that the mode solver works with.
pub struct ModeSolver<T, R, G> {
    /// Square root.
    pub root: R,
    /// Tangent.
    pub tan: G,
    /// One half.
    pub half: T,
    /// A quarter turn.
    pub quarter_turn: T,
    /// Margin above cutoff: a factor and an absolute part.
    pub cutoff_factor: T,
    pub cutoff_floor: T,
}

/// A bracket halves towards the sign change of `test`.
pub open spec fn halved<T: Scalar>(x: (T, T), y: (T, T), half: T, above: bool) -> bool {
    let mid = half.product(x.0.sum(x.1));
    y == (if above {
        (x.0, mid)
    } else {
        (mid, x.1)
    })
}

impl<T: Scalar> SlabWaveguide<T> {
    /// The inputs are those of a guide.
    pub open spec fn guides(&self, omega: T) -> bool {
        &&& T::zero_value().less_than(omega)
        &&& T::zero_value().less_than(self.half_width)
        &&& self.eps_clad.less_than(self.eps_core)
        &&& T::zero_value().less_than(self.eps_clad)
    }

    /// V for a frequency, from the root of the contrast.
    pub open spec fn normalized(&self, omega: T, root_contrast: T) -> T {
        omega.product(self.half_width).product(root_contrast)
    }
}

impl<T: Scalar, R: Fn(T) -> T, G: Fn(T) -> T> ModeSolver<T, R, G> {
    /// The functions take any sample.
    pub open spec fn ready(&self) -> bool {
        &&& forall|x: T| #[trigger] call_requires(self.root, (x,))
        &&& forall|x: T| #[trigger] call_requires(self.tan, (x,))
    }

    pub open spec fn is_v_number(&self, guide: &SlabWaveguide<T>, omega: T, v: T) -> bool {
        exists|r: T|
            #[trigger] call_ensures(self.root, (guide.eps_core.difference(guide.eps_clad),), r)
                && v == guide.normalized(omega, r)
    }

    /// Lower end of the bracket of order `m`.
    pub open spec fn low(&self, m: usize) -> T {
        T::of_count(m as u64).product(self.quarter_turn)
    }

    /// Upper end of the bracket of order `m`.
    pub open spec fn high(&self, m: usize, v: T) -> T {
        let top = T::of_count((m + 1) as u64).product(self.quarter_turn);
        if v.less_than(top) {
            v
        } else {
            top
        }
    }

    /// V is at or below the cutoff of order `m`.
    pub open spec fn cut_off(&self, m: usize, v: T) -> bool {
        self.low(m).product(self.cutoff_factor).sum(self.cutoff_floor).at_least(v)
    }

    /// v^2 - u^2, not below zero.
    pub open spec fn rest_sq(v: T, u: T) -> T {
        let d = v.product(v).difference(u.product(u));
        if d.at_least(T::zero_value()) {
            d
        } else {
            T::zero_value()
        }
    }

    /// `above` tells whether u.tan(u - low) exceeds the root of v^2 - u^2.
    pub open spec fn judged(&self, m: usize, v: T, u: T, above: bool, by: (T, T)) -> bool {
        let (t, r) = by;
        &&& call_ensures(self.tan, (u.difference(self.low(m)),), t)
        &&& call_ensures(self.root, (Self::rest_sq(v, u),), r)
        &&& above == T::zero_value().less_than(u.product(t).difference(r))
    }

    pub open spec fn is_above(&self, m: usize, v: T, u: T, above: bool) -> bool {
        exists|by: (T, T)| #[trigger] self.judged(m, v, u, above, by)
    }

    /// `xs` are the brackets of the bisection.
    pub open spec fn bisects(&self, m: usize, v: T, xs: Seq<(T, T)>) -> bool {
        &&& xs.len() == BISECTIONS + 1
        &&& xs[0] == (self.low(m), self.high(m, v))
        &&& forall|k: int| 0 <= k < BISECTIONS ==> #[trigger] self.halves(m, v, xs, k)
    }

    pub open spec fn halves(&self, m: usize, v: T, xs: Seq<(T, T)>, k: int) -> bool {
        self.narrows(m, v, xs[k], xs[k + 1])
    }

    /// One halving leads from bracket `x` to bracket `y`.
    pub open spec fn narrows(&self, m: usize, v: T, x: (T, T), y: (T, T)) -> bool {
        exists|above: bool|
            #[trigger] self.is_above(m, v, self.half.product(x.0.sum(x.1)), above) && halved(
                x,
                y,
                self.half,
                above,
            )
    }

    /// The bracketed root after all halvings.
    pub open spec fn is_root(&self, m: usize, v: T, u: T) -> bool {
        exists|xs: Seq<(T, T)>|
            #[trigger] self.bisects(m, v, xs) && u == self.half.product(
                xs[BISECTIONS as int].0.sum(xs[BISECTIONS as int].1),
            )
    }

    fn above(&self, m: usize, v: T, u: T) -> (r: bool)
        requires
            self.ready(),
            m < usize::MAX,
        ensures
            self.is_above(m, v, u, r),
    {
        let low = T::from_count(m as u64).times(self.quarter_turn);
        let t = (self.tan)(u.minus(low));
        let root = (self.root)(self.rest(v, u));
        let above = T::zero().below(u.times(t).minus(root));
        assert(self.judged(m, v, u, above, (t, root)));
        above
    }

    fn rest(&self, v: T, u: T) -> (r: T)
        ensures
            r == Self::rest_sq(v, u),
    {
        let d = v.times(v).minus(u.times(u));
        if d.reaches(T::zero()) {
            d
        } else {
            T::zero()
        }
    }

    fn bisect(&self, m: usize, v: T) -> (u: T)
        requires
            self.ready(),
            m < usize::MAX,
        ensures
            self.is_root(m, v, u),
    {
        let mut lo = T::from_count(m as u64).times(self.quarter_turn);
        let top = T::from_count((m + 1) as u64).times(self.quarter_turn);
        let mut hi = if v.below(top) {
            v
        } else {
            top
        };
        let ghost mut xs: Seq<(T, T)> = seq![(lo, hi)];
        let mut k: usize = 0;
        while k < BISECTIONS
            invariant
                k <= BISECTIONS,
                self.ready(),
                m < usize::MAX,
                xs.len() == k + 1,
                xs[0] == (self.low(m), self.high(m, v)),
                xs[k as int] == (lo, hi),
                forall|i: int| 0 <= i < k ==> #[trigger] self.halves(m, v, xs, i),
            decreases BISECTIONS - k,
        {
            let ghost before = xs;
            let mid = self.half.times(lo.plus(hi));
            let above = self.above(m, v, mid);
            if above {
                hi = mid;
            } else {
                lo = mid;
            }
            proof {
                assert(self.is_above(m, v, mid, above));
                assert(halved(before[k as int], (lo, hi), self.half, above));
                assert(self.narrows(m, v, before[k as int], (lo, hi)));
                xs = xs.push((lo, hi));
                assert forall|i: int| 0 <= i < k + 1 implies #[trigger] self.halves(m, v, xs, i) by {
                    if i < k {
                        assert(self.halves(m, v, before, i));
                    }
                }
            }
            k += 1;
        }
        assert(self.bisects(m, v, xs));
        self.half.times(lo.plus(hi))
    }

    /// The mode that belongs to the root u.
    pub open spec fn mode_from(
        &self,
        guide: &SlabWaveguide<T>,
        omega: T,
        m: usize,
        u: T,
        rest: T,
        beta: T,
    ) -> SlabMode<T> {
        SlabMode {
            m,
            omega,
            n_eff: beta.quotient(omega),
            beta,
            kappa: u.quotient(guide.half_width),
            gamma: rest.quotient(guide.half_width),
            half_width: guide.half_width,
        }
    }

    /// beta^2 for the root u.
    pub open spec fn beta_sq(guide: &SlabWaveguide<T>, omega: T, u: T) -> T {
        let kappa = u.quotient(guide.half_width);
        guide.eps_core.product(omega).product(omega).difference(kappa.product(kappa))
    }

    /// What [`ModeSolver::solve`] returns, given V, the root u and the roots
    /// taken of what is left over and of beta^2.
    pub open spec fn solved(
        &self,
        guide: &SlabWaveguide<T>,
        omega: T,
        m: usize,
        r: Option<SlabMode<T>>,
        by: (T, T, T, T),
    ) -> bool {
        let (v, u, rest, beta) = by;
        &&& self.is_v_number(guide, omega, v)
        &&& if self.cut_off(m, v) {
            r is None
        } else {
            &&& self.is_root(m, v, u)
            &&& call_ensures(self.root, (Self::rest_sq(v, u),), rest)
            &&& if T::zero_value().at_least(Self::beta_sq(guide, omega, u)) {
                r is None
            } else {
                &&& call_ensures(self.root, (Self::beta_sq(guide, omega, u),), beta)
                &&& r == Some(self.mode_from(guide, omega, m, u, rest, beta))
            }
        }
    }

}

impl<T: Scalar> SlabWaveguide<T> {
    /// Normalized frequency: omega times half the width times the root of the
    /// contrast.
    pub fn v_number<R: Fn(T) -> T, G: Fn(T) -> T>(&self, omega: T, solver: &ModeSolver<T, R, G>) -> (v: T)
        requires
            solver.ready(),
        ensures
            solver.is_v_number(self, omega, v),
    {
        let r = (solver.root)(self.eps_core.minus(self.eps_clad));
        assert(call_ensures(solver.root, (self.eps_core.difference(self.eps_clad),), r));
        omega.times(self.half_width).times(r)
    }

    /// The guide has `n` modes at `omega`.
    pub open spec fn has_modes<R: Fn(T) -> T, G: Fn(T) -> T, C: Fn(T) -> usize>(
        &self,
        omega: T,
        solver: &ModeSolver<T, R, G>,
        ceil: C,
        n: usize,
    ) -> bool {
        exists|v: T|
            #[trigger] solver.is_v_number(self, omega, v) && call_ensures(
                ceil,
                (v.quotient(solver.quarter_turn),),
                n,
            )
    }

    /// Number of guided modes: V over a quarter turn, rounded up. `ceil` rounds
    /// up to a whole number.
    pub fn mode_count<R: Fn(T) -> T, G: Fn(T) -> T, C: Fn(T) -> usize>(
        &self,
        omega: T,
        solver: &ModeSolver<T, R, G>,
        ceil: &C,
    ) -> (n: usize)
        requires
            solver.ready(),
            forall|x: T| #[trigger] call_requires(ceil, (x,)),
        ensures
            exists|v: T|
                #[trigger] solver.is_v_number(self, omega, v) && call_ensures(
                    ceil,
                    (v.quotient(solver.quarter_turn),),
                    n,
                ),
            self.has_modes(omega, solver, *ceil, n),
    {
        let v = self.v_number(omega, solver);
        assert(solver.is_v_number(self, omega, v));
        ceil(v.over(solver.quarter_turn))
    }

    /// Mode of order `m` at `omega`. Nothing where the inputs are not those of
    /// a guide, or the mode is not guided.
    pub fn solve<R: Fn(T) -> T, G: Fn(T) -> T>(&self, omega: T, m: usize, solver: &ModeSolver<T, R, G>) -> (r: Option<SlabMode<T>>)
        requires
            solver.ready(),
            m < usize::MAX,
        ensures
            !self.guides(omega) ==> r is None,
            self.guides(omega) ==> exists|by: (T, T, T, T)|
                #[trigger] solver.solved(self, omega, m, r, by),
    {
        let zero = T::zero();
        if !zero.below(omega) || !zero.below(self.half_width) || !self.eps_clad.below(
            self.eps_core,
        ) || !zero.below(self.eps_clad) {
            return None;
        }
        let v = self.v_number(omega, solver);
        let low = T::from_count(m as u64).times(solver.quarter_turn);
        if low.times(solver.cutoff_factor).plus(solver.cutoff_floor).reaches(v) {
            assert(solver.solved(self, omega, m, None, (v, v, v, v)));
            return None;
        }
        let u = solver.bisect(m, v);
        let kappa = u.over(self.half_width);
        let rest = (solver.root)(solver.rest(v, u));
        let gamma = rest.over(self.half_width);
        let beta_sq = self.eps_core.times(omega).times(omega).minus(kappa.times(kappa));
        if zero.reaches(beta_sq) {
            assert(solver.solved(self, omega, m, None, (v, u, rest, v)));
            return None;
        }
        let beta = (solver.root)(beta_sq);
        let r = Some(
            SlabMode {
                m,
                omega,
                n_eff: beta.over(omega),
                beta,
                kappa,
                gamma,
                half_width: self.half_width,
            },
        );
        assert(solver.solved(self, omega, m, r, (v, u, rest, beta)));
        r
    }
}

/// The functions that a mode's shape is made of.
pub struct ModeShape<C, S, E, M, U> {
    pub cos: C,
    pub sin: S,
    pub exp: E,
    /// Absolute value.
    pub magnitude: M,
    /// One with the sign of its argument.
    pub sign: U,
}

impl<C, S, E, M, U> ModeShape<C, S, E, M, U> {
    /// The functions take any sample.
    pub open spec fn ready<T: Scalar>(&self) -> bool where
        C: Fn(T) -> T,
        S: Fn(T) -> T,
        E: Fn(T) -> T,
        M: Fn(T) -> T,
        U: Fn(T) -> T,
     {
        &&& forall|x: T| #[trigger] call_requires(self.cos, (x,))
        &&& forall|x: T| #[trigger] call_requires(self.sin, (x,))
        &&& forall|x: T| #[trigger] call_requires(self.exp, (x,))
        &&& forall|x: T| #[trigger] call_requires(self.magnitude, (x,))
        &&& forall|x: T| #[trigger] call_requires(self.sign, (x,))
    }
}

impl<T: Scalar> SlabMode<T> {
    /// The profile at offset `s`: a cosine (even order) or sine (odd order) in
    /// the core; outside, its value at the edge, with the sign of the side for
    /// an odd order, decays exponentially. `by` holds the magnitude of `s` and
    /// the samples taken: of the core function, the sign and the decay.
    pub open spec fn shaped<C, S, E, M, U>(
        &self,
        shape: &ModeShape<C, S, E, M, U>,
        s: T,
        r: T,
        by: (T, T, T, T),
    ) -> bool where
        C: Fn(T) -> T,
        S: Fn(T) -> T,
        E: Fn(T) -> T,
        M: Fn(T) -> T,
        U: Fn(T) -> T,
     {
        let (size, wave, side, decay) = by;
        let inside = self.half_width.at_least(size);
        let phase = self.kappa.product(if inside {
            s
        } else {
            self.half_width
        });
        &&& call_ensures(shape.magnitude, (s,), size)
        &&& if self.m % 2 == 0 {
            call_ensures(shape.cos, (phase,), wave)
        } else {
            call_ensures(shape.sin, (phase,), wave)
        }
        &&& if inside {
            r == wave
        } else {
            &&& call_ensures(
                shape.exp,
                (self.gamma.negative().product(size.difference(self.half_width)),),
                decay,
            )
            &&& if self.m % 2 == 0 {
                r == wave.product(decay)
            } else {
                call_ensures(shape.sign, (s,), side) && r == wave.product(side).product(decay)
            }
        }
    }

    pub open spec fn is_profile<C, S, E, M, U>(
        &self,
        shape: &ModeShape<C, S, E, M, U>,
        s: T,
        r: T,
    ) -> bool where
        C: Fn(T) -> T,
        S: Fn(T) -> T,
        E: Fn(T) -> T,
        M: Fn(T) -> T,
        U: Fn(T) -> T,
     {
        exists|by: (T, T, T, T)| #[trigger] self.shaped(shape, s, r, by)
    }

    /// Transverse profile at offset `s` from the axis.
    pub fn profile<C, S, E, M, U>(&self, s: T, shape: &ModeShape<C, S, E, M, U>) -> (r: T) where
        C: Fn(T) -> T,
        S: Fn(T) -> T,
        E: Fn(T) -> T,
        M: Fn(T) -> T,
        U: Fn(T) -> T,

        requires
            shape.ready::<T>(),
        ensures
            self.is_profile(shape, s, r),
    {
        let even = self.m % 2 == 0;
        let size = (shape.magnitude)(s);
        let inside = self.half_width.reaches(size);
        let phase = self.kappa.times(if inside {
            s
        } else {
            self.half_width
        });
        let wave = if even {
            (shape.cos)(phase)
        } else {
            (shape.sin)(phase)
        };
        if inside {
            assert(self.shaped(shape, s, wave, (size, wave, wave, wave)));
            return wave;
        }
        let decay = (shape.exp)(self.gamma.opposite().times(size.minus(self.half_width)));
        if even {
            let r = wave.times(decay);
            assert(self.shaped(shape, s, r, (size, wave, wave, decay)));
            r
        } else {
            let side = (shape.sign)(s);
            let r = wave.times(side).times(decay);
            assert(self.shaped(shape, s, r, (size, wave, side, decay)));
            r
        }
    }

    /// `values` are the profile on rows 0..ny about `center`.
    pub open spec fn sampled<C, S, E, M, U>(
        &self,
        shape: &ModeShape<C, S, E, M, U>,
        center: T,
        values: Seq<T>,
    ) -> bool where
        C: Fn(T) -> T,
        S: Fn(T) -> T,
        E: Fn(T) -> T,
        M: Fn(T) -> T,
        U: Fn(T) -> T,
     {
        forall|j: int|
            0 <= j < values.len() ==> self.is_profile(
                shape,
                T::of_count(j as u64).difference(center),
                #[trigger] values[j],
            )
    }

    /// The profile on the rows of a grid, as a unit vector that vanishes on
    /// the ring. Nothing where the profile is degenerate.
    pub fn sample<C, S, E, M, U, R>(
        &self,
        ny: usize,
        y_center: T,
        shape: &ModeShape<C, S, E, M, U>,
        root: &R,
    ) -> (r: Option<Vec<T>>) where
        C: Fn(T) -> T,
        S: Fn(T) -> T,
        E: Fn(T) -> T,
        M: Fn(T) -> T,
        U: Fn(T) -> T,
        R: Fn(T) -> T,

        requires
            ny >= 3,
            shape.ready::<T>(),
            forall|x: T| #[trigger] call_requires(root, (x,)),
        ensures
            exists|values: Seq<T>|
                values.len() == ny && #[trigger] self.sampled(shape, y_center, values)
                    && is_unit(values, *root, r),
    {
        let mut values: Vec<T> = Vec::new();
        let mut j: usize = 0;
        while j < ny
            invariant
                j <= ny,
                shape.ready::<T>(),
                values@.len() == j,
                self.sampled(shape, y_center, values@),
            decreases ny - j,
        {
            values.push(self.profile(T::from_count(j as u64).minus(y_center), shape));
            j += 1;
        }
        unit_profile(&values, root)
    }
}

/// Profile values with the rows of the ring set to zero.
pub open spec fn ringed<T: Scalar>(p: Seq<T>) -> Seq<T> {
    Seq::new(
        p.len(),
        |j: int|
            if j == 0 || j == p.len() - 1 {
                T::zero_value()
            } else {
                p[j]
            },
    )
}

/// Squares of the first `n` values, added in order.
pub open spec fn square_sum<T: Scalar>(p: Seq<T>, n: int) -> T
    decreases n,
{
    if n <= 0 {
        T::zero_value()
    } else {
        square_sum(p, n - 1).sum(p[n - 1].product(p[n - 1]))
    }
}

/// `r` holds the values without the rows of the ring, divided by their norm,
/// or nothing where the norm is not positive.
pub open spec fn is_unit<T: Scalar, R: Fn(T) -> T>(
    values: Seq<T>,
    root: R,
    r: Option<Vec<T>>,
) -> bool {
    exists|norm: T|
        {
            &&& #[trigger] call_ensures(
                root,
                (square_sum(ringed(values), values.len() as int),),
                norm,
            )
            &&& r is Some <==> T::zero_value().less_than(norm)
            &&& r matches Some(p) ==> p@ == Seq::new(
                values.len(),
                |j: int| ringed(values)[j].quotient(norm),
            )
        }
}

/// Profile values, row by row, as a unit vector: the rows of the ring are
/// zero, and every row is divided by the norm. Nothing where the norm is not
/// positive.
pub fn unit_profile<T: Scalar, R: Fn(T) -> T>(values: &Vec<T>, root: &R) -> (r: Option<Vec<T>>)
    requires
        values@.len() >= 3,
        forall|x: T| #[trigger] call_requires(root, (x,)),
    ensures
        is_unit(values@, *root, r),
{
    let n: usize = values.len();
    let ghost rings = ringed(values@);
    let mut p: Vec<T> = Vec::new();
    let mut acc = T::zero();
    let mut j: usize = 0;
    while j < n
        invariant
            n == values@.len(),
            n >= 3,
            j <= n,
            rings == ringed(values@),
            p@ == rings.take(j as int),
            acc == square_sum(rings, j as int),
        decreases n - j,
    {
        let x = if j == 0 || j == n - 1 {
            T::zero()
        } else {
            values[j]
        };
        p.push(x);
        acc = acc.plus(x.times(x));
        assert(p@ =~= rings.take(j + 1));
        j += 1;
    }
    assert(p@ =~= rings);
    let norm = root(acc);
    assert(call_ensures(root, (square_sum(ringed(values@), n as int),), norm));
    if !T::zero().below(norm) {
        return None;
    }
    let mut out: Vec<T> = Vec::new();
    let mut k: usize = 0;
    while k < n
        invariant
            n == values@.len(),
            k <= n,
            rings == ringed(values@),
            p@ == rings,
            out@ == Seq::new(k as nat, |i: int| rings[i].quotient(norm)),
        decreases n - k,
    {
        out.push(p[k].over(norm));
        assert(out@ =~= Seq::new((k + 1) as nat, |i: int| rings[i].quotient(norm)));
        k += 1;
    }
    assert(out@ =~= Seq::new(values@.len(), |i: int| ringed(values@)[i].quotient(norm)));
    Some(out)
}

} // verus!
