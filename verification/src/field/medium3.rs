//! Dispersive media of the 3D grid: Drude and single-pole Lorentz by the
//! auxiliary-differential-equation method.
//!
//! A Drude cell carries a polarization current J and a Lorentz cell a
//! polarization P. Both recurrences read E before the curl update (`pre`) and
//! correct E after it (`post`):
//!
//! ```text
//!   J <- ka.J + kb.E          then  E <- E - (dt/eps_inf).J
//!   P' = c1.P + c2.P_prev + c3.E   then  E <- E - (P' - P)/eps_inf
//! ```
//!
//! A material occupies a half-open cell box; a sample belongs to it by its
//! integer indices. State is kept for the cells of a material only, in the
//! order of the regions and, within a region, in storage order.

use crate::field::eps::{lattice_sizes, CellBox};
use crate::field::grid3::{e_dims, quiet, Axis};
use crate::field::lattice::{at_place, volume};
use crate::scalar::Scalar;
use vstd::prelude::*;

verus! {

/// Dispersive material.
#[derive(Debug, Clone, Copy)]
pub enum MaterialModel<T> {
    /// eps(w) = eps_inf - omega_p^2 / (w^2 + i.gamma.w)
    Drude { omega_p: T, gamma: T, eps_inf: T },
    /// eps(w) = eps_inf + omega_p^2 / (omega0^2 - w^2 - i.gamma.w)
    Lorentz { omega_p: T, omega0: T, gamma: T, eps_inf: T },
}

impl<T: Scalar> MaterialModel<T> {
    pub open spec fn high_frequency(self) -> T {
        match self {
            MaterialModel::Drude { omega_p, gamma, eps_inf } => eps_inf,
            MaterialModel::Lorentz { omega_p, omega0, gamma, eps_inf } => eps_inf,
        }
    }

    /// Frequencies and damping are not negative, the resonance and the
    /// high-frequency permittivity positive.
    pub open spec fn physical(self) -> bool {
        let zero = T::zero_value();
        match self {
            MaterialModel::Drude { omega_p, gamma, eps_inf } => {
                !(omega_p.less_than(zero) || gamma.less_than(zero) || zero.at_least(eps_inf))
            },
            MaterialModel::Lorentz { omega_p, omega0, gamma, eps_inf } => {
                !(omega_p.less_than(zero) || zero.at_least(omega0) || gamma.less_than(zero)
                    || zero.at_least(eps_inf))
            },
        }
    }

    fn eps_inf(&self) -> (r: T)
        ensures
            r == self.high_frequency(),
    {
        match *self {
            MaterialModel::Drude { omega_p, gamma, eps_inf } => eps_inf,
            MaterialModel::Lorentz { omega_p, omega0, gamma, eps_inf } => eps_inf,
        }
    }

    fn is_physical(&self) -> (r: bool)
        ensures
            r == self.physical(),
    {
        let zero = T::zero();
        match *self {
            MaterialModel::Drude { omega_p, gamma, eps_inf } => {
                !(omega_p.below(zero) || gamma.below(zero) || zero.reaches(eps_inf))
            },
            MaterialModel::Lorentz { omega_p, omega0, gamma, eps_inf } => {
                !(omega_p.below(zero) || zero.reaches(omega0) || gamma.below(zero)
                    || zero.reaches(eps_inf))
            },
        }
    }
}

/// A material and the cells it occupies.
#[derive(Debug, Clone, Copy)]
pub struct MaterialRegion<T> {
    pub model: MaterialModel<T>,
    pub cells: CellBox,
}

/// A Drude cell: its place and coefficients.
#[derive(Debug, Clone, Copy)]
pub struct DrudeCell<T> {
    pub idx: usize,
    pub ka: T,
    pub kb: T,
    /// dt/eps_inf, the weight of the current.
    pub cj: T,
}

/// A Lorentz cell: its place and coefficients.
#[derive(Debug, Clone, Copy)]
pub struct LorentzCell<T> {
    pub idx: usize,
    pub c1: T,
    pub c2: T,
    pub c3: T,
    pub inv_eps_inf: T,
}

/// Coefficients of a Drude cell: with x = gamma.dt/2,
/// ka = (1 - x)/(1 + x), kb = omega_p^2.dt/(1 + x), cj = dt/eps_inf.
pub open spec fn drude_cell<T: Scalar>(
    idx: int,
    omega_p: T,
    gamma: T,
    eps_inf: T,
    dt: T,
) -> DrudeCell<T> {
    let x = gamma.product(dt).quotient(T::of_count(2));
    let den = T::of_count(1).sum(x);
    DrudeCell {
        idx: idx as usize,
        ka: T::of_count(1).difference(x).quotient(den),
        kb: omega_p.product(omega_p).product(dt).quotient(den),
        cj: dt.quotient(eps_inf),
    }
}

/// Coefficients of a Lorentz cell: with d = 1/dt^2 + gamma/(2.dt),
/// c1 = (2/dt^2 - omega0^2)/d, c2 = -(1/dt^2 - gamma/(2.dt))/d,
/// c3 = omega_p^2/d.
pub open spec fn lorentz_cell<T: Scalar>(
    idx: int,
    omega_p: T,
    omega0: T,
    gamma: T,
    eps_inf: T,
    dt: T,
) -> LorentzCell<T> {
    let (one, two) = (T::of_count(1), T::of_count(2));
    let rate = one.quotient(dt.product(dt));
    let drag = gamma.quotient(two.product(dt));
    let d = rate.sum(drag);
    LorentzCell {
        idx: idx as usize,
        c1: two.quotient(dt.product(dt)).difference(omega0.product(omega0)).quotient(d),
        c2: rate.difference(drag).negative().quotient(d),
        c3: omega_p.product(omega_p).quotient(d),
        inv_eps_inf: one.quotient(eps_inf),
    }
}

/// Places of the lattice `d` below `n` that lie in a box, in storage order.
pub open spec fn places(d: (int, int, int), cells: CellBox, n: int) -> Seq<int>
    decreases n,
{
    if n <= 0 {
        Seq::empty()
    } else if cells.holds(at_place(d, n - 1)) {
        places(d, cells, n - 1).push(n - 1)
    } else {
        places(d, cells, n - 1)
    }
}

/// Drude cells of one component, region by region.
pub open spec fn drude_list<T: Scalar>(
    d: (int, int, int),
    regions: Seq<MaterialRegion<T>>,
    dt: T,
) -> Seq<DrudeCell<T>>
    decreases regions.len(),
{
    if regions.len() == 0 {
        Seq::empty()
    } else {
        drude_list(d, regions.drop_last(), dt) + drude_of(d, regions.last(), dt, volume(d))
    }
}

/// Drude cells that one region adds at the places below `n`.
pub open spec fn drude_of<T: Scalar>(
    d: (int, int, int),
    r: MaterialRegion<T>,
    dt: T,
    n: int,
) -> Seq<DrudeCell<T>> {
    match r.model {
        MaterialModel::Drude { omega_p, gamma, eps_inf } => places(d, r.cells, n).map_values(
            |k: int| drude_cell(k, omega_p, gamma, eps_inf, dt),
        ),
        _ => Seq::empty(),
    }
}

/// Lorentz cells of one component, region by region.
pub open spec fn lorentz_list<T: Scalar>(
    d: (int, int, int),
    regions: Seq<MaterialRegion<T>>,
    dt: T,
) -> Seq<LorentzCell<T>>
    decreases regions.len(),
{
    if regions.len() == 0 {
        Seq::empty()
    } else {
        lorentz_list(d, regions.drop_last(), dt) + lorentz_of(d, regions.last(), dt, volume(d))
    }
}

/// Lorentz cells that one region adds at the places below `n`.
pub open spec fn lorentz_of<T: Scalar>(
    d: (int, int, int),
    r: MaterialRegion<T>,
    dt: T,
    n: int,
) -> Seq<LorentzCell<T>> {
    match r.model {
        MaterialModel::Lorentz { omega_p, omega0, gamma, eps_inf } => places(
            d,
            r.cells,
            n,
        ).map_values(|k: int| lorentz_cell(k, omega_p, omega0, gamma, eps_inf, dt)),
        _ => Seq::empty(),
    }
}

/// Permittivity of one component with every region's high-frequency value
/// baked in; where regions overlap, the last one's.
pub open spec fn baked<T: Scalar>(
    d: (int, int, int),
    regions: Seq<MaterialRegion<T>>,
    eps: Seq<T>,
) -> Seq<T>
    decreases regions.len(),
{
    if regions.len() == 0 {
        eps
    } else {
        bake(d, regions.last(), baked(d, regions.drop_last(), eps), eps.len() as int)
    }
}

/// One region's value at the places below `n`.
pub open spec fn bake<T: Scalar>(
    d: (int, int, int),
    r: MaterialRegion<T>,
    eps: Seq<T>,
    n: int,
) -> Seq<T> {
    Seq::new(
        eps.len(),
        |k: int|
            if k < n && r.cells.holds(at_place(d, k)) {
                r.model.high_frequency()
            } else {
                eps[k]
            },
    )
}

/// Auxiliary state of one E component.
pub struct CompDisp<T> {
    pub drude: Vec<DrudeCell<T>>,
    /// J of each Drude cell.
    pub j: Vec<T>,
    pub lorentz: Vec<LorentzCell<T>>,
    /// P, the P before it, and the last change of P, of each Lorentz cell.
    pub p: Vec<T>,
    pub p_prev: Vec<T>,
    pub dp: Vec<T>,
}

impl<T: Scalar> CompDisp<T> {
    /// Every cell has its state, and lies in an array of `n` samples.
    pub open spec fn wf(&self, n: int) -> bool {
        &&& self.j@.len() == self.drude@.len()
        &&& self.p@.len() == self.lorentz@.len()
        &&& self.p_prev@.len() == self.lorentz@.len()
        &&& self.dp@.len() == self.lorentz@.len()
        &&& forall|k: int| 0 <= k < self.drude@.len() ==> (#[trigger] self.drude@[k]).idx < n
        &&& forall|k: int| 0 <= k < self.lorentz@.len() ==> (#[trigger] self.lorentz@[k]).idx < n
    }

    /// State of a component whose cells are these, at rest.
    pub open spec fn rests_on(
        &self,
        drude: Seq<DrudeCell<T>>,
        lorentz: Seq<LorentzCell<T>>,
    ) -> bool {
        &&& self.drude@ == drude
        &&& self.j@ == quiet::<T>(drude.len() as int)
        &&& self.lorentz@ == lorentz
        &&& self.p@ == quiet::<T>(lorentz.len() as int)
        &&& self.p_prev@ == quiet::<T>(lorentz.len() as int)
        &&& self.dp@ == quiet::<T>(lorentz.len() as int)
    }

    /// Current of Drude cell `k` after it saw `e`.
    pub open spec fn j_next(&self, e: Seq<T>, k: int) -> T {
        let c = self.drude@[k];
        c.ka.product(self.j@[k]).sum(c.kb.product(e[c.idx as int]))
    }

    /// Polarization of Lorentz cell `k` after it saw `e`.
    pub open spec fn p_next(&self, e: Seq<T>, k: int) -> T {
        let c = self.lorentz@[k];
        c.c1.product(self.p@[k]).sum(c.c2.product(self.p_prev@[k])).sum(
            c.c3.product(e[c.idx as int]),
        )
    }

    /// `after` is the state once both recurrences have seen `e`.
    pub open spec fn saw(&self, e: Seq<T>, after: &Self) -> bool {
        &&& after.drude@ == self.drude@
        &&& after.lorentz@ == self.lorentz@
        &&& after.j@ =~= Seq::new(self.j@.len(), |k: int| self.j_next(e, k))
        &&& after.p@ =~= Seq::new(self.p@.len(), |k: int| self.p_next(e, k))
        &&& after.p_prev@ =~= self.p@
        &&& after.dp@ =~= Seq::new(
            self.dp@.len(),
            |k: int| self.p_next(e, k).difference(self.p@[k]),
        )
    }

    /// `e` with the currents of the first `n` Drude cells taken off, in order.
    pub open spec fn less_current(&self, e: Seq<T>, n: int) -> Seq<T>
        decreases n,
    {
        if n <= 0 {
            e
        } else {
            let before = self.less_current(e, n - 1);
            let c = self.drude@[n - 1];
            before.update(
                c.idx as int,
                before[c.idx as int].difference(c.cj.product(self.j@[n - 1])),
            )
        }
    }

    /// `e` with the changes of the first `n` Lorentz cells taken off, in order.
    pub open spec fn less_change(&self, e: Seq<T>, n: int) -> Seq<T>
        decreases n,
    {
        if n <= 0 {
            e
        } else {
            let before = self.less_change(e, n - 1);
            let c = self.lorentz@[n - 1];
            before.update(
                c.idx as int,
                before[c.idx as int].difference(self.dp@[n - 1].product(c.inv_eps_inf)),
            )
        }
    }

    /// `e` with all corrections.
    pub open spec fn corrected(&self, e: Seq<T>) -> Seq<T> {
        self.less_change(
            self.less_current(e, self.drude@.len() as int),
            self.lorentz@.len() as int,
        )
    }

    fn new() -> (r: Self)
        ensures
            r.rests_on(Seq::empty(), Seq::empty()),
    {
        let r = CompDisp {
            drude: Vec::new(),
            j: Vec::new(),
            lorentz: Vec::new(),
            p: Vec::new(),
            p_prev: Vec::new(),
            dp: Vec::new(),
        };
        assert(r.j@ =~= quiet::<T>(0));
        r
    }

    fn pre(&mut self, e: &Vec<T>)
        requires
            old(self).wf(e@.len() as int),
        ensures
            final(self).wf(e@.len() as int),
            old(self).saw(e@, final(self)),
    {
        let mut k: usize = 0;
        while k < self.drude.len()
            invariant
                old(self).wf(e@.len() as int),
                k <= self.drude@.len(),
                self.drude@ == old(self).drude@,
                self.lorentz@ == old(self).lorentz@,
                self.p@ == old(self).p@,
                self.p_prev@ == old(self).p_prev@,
                self.dp@ == old(self).dp@,
                self.j@.len() == old(self).j@.len(),
                forall|m: int|
                    0 <= m < self.j@.len() ==> #[trigger] self.j@[m] == (if m < k {
                        old(self).j_next(e@, m)
                    } else {
                        old(self).j@[m]
                    }),
            decreases self.drude@.len() - k,
        {
            let c = self.drude[k];
            assert(old(self).drude@[k as int].idx < e@.len());
            let x = c.ka.times(self.j[k]).plus(c.kb.times(e[c.idx]));
            self.j.set(k, x);
            k += 1;
        }
        let mut m: usize = 0;
        while m < self.lorentz.len()
            invariant
                old(self).wf(e@.len() as int),
                m <= self.lorentz@.len(),
                self.drude@ == old(self).drude@,
                self.lorentz@ == old(self).lorentz@,
                self.j@ =~= Seq::new(old(self).j@.len(), |k: int| old(self).j_next(e@, k)),
                self.p@.len() == old(self).p@.len(),
                self.p_prev@.len() == old(self).p@.len(),
                self.dp@.len() == old(self).p@.len(),
                forall|q: int|
                    0 <= q < self.p@.len() ==> #[trigger] self.p@[q] == (if q < m {
                        old(self).p_next(e@, q)
                    } else {
                        old(self).p@[q]
                    }),
                forall|q: int|
                    0 <= q < self.p@.len() ==> #[trigger] self.p_prev@[q] == (if q < m {
                        old(self).p@[q]
                    } else {
                        old(self).p_prev@[q]
                    }),
                forall|q: int|
                    0 <= q < m ==> #[trigger] self.dp@[q] == old(self).p_next(e@, q).difference(
                        old(self).p@[q],
                    ),
            decreases self.lorentz@.len() - m,
        {
            let c = self.lorentz[m];
            assert(old(self).lorentz@[m as int].idx < e@.len());
            let p = self.p[m];
            let pn = c.c1.times(p).plus(c.c2.times(self.p_prev[m])).plus(c.c3.times(e[c.idx]));
            self.dp.set(m, pn.minus(p));
            self.p_prev.set(m, p);
            self.p.set(m, pn);
            m += 1;
        }
    }

    fn post(&self, e: &mut Vec<T>)
        requires
            self.wf(old(e)@.len() as int),
        ensures
            final(e)@ == self.corrected(old(e)@),
            final(e)@.len() == old(e)@.len(),
    {
        let mut k: usize = 0;
        while k < self.drude.len()
            invariant
                self.wf(old(e)@.len() as int),
                k <= self.drude@.len(),
                e@.len() == old(e)@.len(),
                e@ == self.less_current(old(e)@, k as int),
            decreases self.drude@.len() - k,
        {
            let c = self.drude[k];
            assert(self.drude@[k as int].idx < e@.len());
            let x = e[c.idx].minus(c.cj.times(self.j[k]));
            e.set(c.idx, x);
            k += 1;
        }
        let ghost mid = e@;
        let mut m: usize = 0;
        while m < self.lorentz.len()
            invariant
                self.wf(old(e)@.len() as int),
                m <= self.lorentz@.len(),
                e@.len() == old(e)@.len(),
                e@ == self.less_change(mid, m as int),
            decreases self.lorentz@.len() - m,
        {
            let c = self.lorentz[m];
            assert(self.lorentz@[m as int].idx < e@.len());
            let x = e[c.idx].minus(self.dp[m].times(c.inv_eps_inf));
            e.set(c.idx, x);
            m += 1;
        }
    }

    fn is_empty(&self) -> (r: bool)
        ensures
            r == (self.drude@.len() == 0 && self.lorentz@.len() == 0),
    {
        self.drude.len() == 0 && self.lorentz.len() == 0
    }

    /// Bakes one region into the permittivity of the component and adds its
    /// cells.
    fn add_region(&mut self, d: (usize, usize, usize), r: &MaterialRegion<T>, dt: T, eps: &mut Vec<T>)
        requires
            d.0 >= 1,
            d.1 >= 1,
            d.2 >= 1,
            volume((d.0 as int, d.1 as int, d.2 as int)) <= usize::MAX,
            old(eps)@.len() == volume((d.0 as int, d.1 as int, d.2 as int)),
            old(self).rests_on(old(self).drude@, old(self).lorentz@),
        ensures
            ({
                let dd = (d.0 as int, d.1 as int, d.2 as int);
                &&& final(eps)@ == bake(dd, *r, old(eps)@, old(eps)@.len() as int)
                &&& final(self).rests_on(
                    old(self).drude@ + drude_of(dd, *r, dt, volume(dd)),
                    old(self).lorentz@ + lorentz_of(dd, *r, dt, volume(dd)),
                )
            }),
    {
        let ghost dd = (d.0 as int, d.1 as int, d.2 as int);
        let (plane, n): (usize, usize) = lattice_sizes(d);
        let eps_inf = r.model.eps_inf();
        let mut q: usize = 0;
        proof {
            assert(drude_of(dd, *r, dt, 0) =~= Seq::empty());
            assert(lorentz_of(dd, *r, dt, 0) =~= Seq::empty());
            assert(old(self).drude@ + drude_of(dd, *r, dt, 0) =~= old(self).drude@);
            assert(old(self).lorentz@ + lorentz_of(dd, *r, dt, 0) =~= old(self).lorentz@);
            assert(bake(dd, *r, eps@, 0) =~= eps@);
        }
        while q < n
            invariant
                q <= n,
                dd == (d.0 as int, d.1 as int, d.2 as int),
                d.2 >= 1,
                plane == d.1 * d.2,
                plane >= 1,
                n == volume(dd),
                eps_inf == r.model.high_frequency(),
                old(eps)@.len() == n,
                eps@ == bake(dd, *r, old(eps)@, q as int),
                self.rests_on(
                    old(self).drude@ + drude_of(dd, *r, dt, q as int),
                    old(self).lorentz@ + lorentz_of(dd, *r, dt, q as int),
                ),
            decreases n - q,
        {
            let hit = r.cells.contains(q / plane, (q % plane) / d.2, (q % plane) % d.2);
            assert(hit == r.cells.holds(at_place(dd, q as int)));
            let ghost (dr0, lo0) = (
                drude_of(dd, *r, dt, q as int),
                lorentz_of(dd, *r, dt, q as int),
            );
            if hit {
                eps.set(q, eps_inf);
                match r.model {
                    MaterialModel::Drude { omega_p, gamma, eps_inf } => {
                        let x = gamma.times(dt).over(T::from_count(2));
                        let den = T::from_count(1).plus(x);
                        let c = DrudeCell {
                            idx: q,
                            ka: T::from_count(1).minus(x).over(den),
                            kb: omega_p.times(omega_p).times(dt).over(den),
                            cj: dt.over(eps_inf),
                        };
                        self.drude.push(c);
                        self.j.push(T::zero());
                        proof {
                            assert(c == drude_cell(q as int, omega_p, gamma, eps_inf, dt));
                            assert(drude_of(dd, *r, dt, q + 1) =~= dr0.push(c));
                        }
                    },
                    MaterialModel::Lorentz { omega_p, omega0, gamma, eps_inf } => {
                        let (one, two) = (T::from_count(1), T::from_count(2));
                        let rate = one.over(dt.times(dt));
                        let drag = gamma.over(two.times(dt));
                        let den = rate.plus(drag);
                        let c = LorentzCell {
                            idx: q,
                            c1: two.over(dt.times(dt)).minus(omega0.times(omega0)).over(den),
                            c2: rate.minus(drag).opposite().over(den),
                            c3: omega_p.times(omega_p).over(den),
                            inv_eps_inf: one.over(eps_inf),
                        };
                        self.lorentz.push(c);
                        self.p.push(T::zero());
                        self.p_prev.push(T::zero());
                        self.dp.push(T::zero());
                        proof {
                            assert(c == lorentz_cell(
                                q as int,
                                omega_p,
                                omega0,
                                gamma,
                                eps_inf,
                                dt,
                            ));
                            assert(lorentz_of(dd, *r, dt, q + 1) =~= lo0.push(c));
                        }
                    },
                }
            } else {
                proof {
                    assert(drude_of(dd, *r, dt, q + 1) =~= dr0);
                    assert(lorentz_of(dd, *r, dt, q + 1) =~= lo0);
                }
            }
            proof {
                assert(eps@ =~= bake(dd, *r, old(eps)@, q + 1));
                assert(self.drude@ =~= old(self).drude@ + drude_of(dd, *r, dt, q + 1));
                assert(self.lorentz@ =~= old(self).lorentz@ + lorentz_of(dd, *r, dt, q + 1));
                assert(self.j@ =~= quiet::<T>(self.drude@.len() as int));
                assert(self.p@ =~= quiet::<T>(self.lorentz@.len() as int));
                assert(self.p_prev@ =~= quiet::<T>(self.lorentz@.len() as int));
                assert(self.dp@ =~= quiet::<T>(self.lorentz@.len() as int));
            }
            q += 1;
        }
    }
}

/// All dispersive state of a 3D run.
pub struct DispMedia<T> {
    pub x: CompDisp<T>,
    pub y: CompDisp<T>,
    pub z: CompDisp<T>,
}

/// Permittivity arrays shaped like Ex, Ey and Ez.
pub type EpsArrays<T> = (Vec<T>, Vec<T>, Vec<T>);

impl<T: Scalar> DispMedia<T> {
    /// Every cell has its state and lies inside its component's array.
    pub open spec fn wf(&self, n: (int, int, int)) -> bool {
        &&& self.x.wf(volume(e_dims(n, Axis::X)))
        &&& self.y.wf(volume(e_dims(n, Axis::Y)))
        &&& self.z.wf(volume(e_dims(n, Axis::Z)))
    }

    /// The media of `regions` on a grid of `n` points, at rest.
    pub open spec fn holds(
        &self,
        regions: Seq<MaterialRegion<T>>,
        n: (int, int, int),
        dt: T,
    ) -> bool {
        let (dx, dy, dz) = (e_dims(n, Axis::X), e_dims(n, Axis::Y), e_dims(n, Axis::Z));
        &&& self.x.rests_on(drude_list(dx, regions, dt), lorentz_list(dx, regions, dt))
        &&& self.y.rests_on(drude_list(dy, regions, dt), lorentz_list(dy, regions, dt))
        &&& self.z.rests_on(drude_list(dz, regions, dt), lorentz_list(dz, regions, dt))
    }

    /// Places regions on a grid: bakes each region's high-frequency
    /// permittivity into the component arrays and lists its cells. A region
    /// whose parameters are not physical is refused by its index, the first
    /// such; the arrays are then not to be used.
    pub fn build(
        regions: &Vec<MaterialRegion<T>>,
        n: (usize, usize, usize),
        dt: T,
        eps: &mut EpsArrays<T>,
    ) -> (r: Result<DispMedia<T>, usize>)
        requires
            n.0 >= 2,
            n.1 >= 2,
            n.2 >= 2,
            n.0 * n.1 * n.2 <= usize::MAX,
            old(eps).0@.len() == volume(
                e_dims((n.0 as int, n.1 as int, n.2 as int), Axis::X),
            ),
            old(eps).1@.len() == volume(
                e_dims((n.0 as int, n.1 as int, n.2 as int), Axis::Y),
            ),
            old(eps).2@.len() == volume(
                e_dims((n.0 as int, n.1 as int, n.2 as int), Axis::Z),
            ),
        ensures
            ({
                let m = (n.0 as int, n.1 as int, n.2 as int);
                match r {
                    Ok(media) => {
                        &&& forall|k: int|
                            0 <= k < regions@.len() ==> (#[trigger] regions@[k]).model.physical()
                        &&& media.holds(regions@, m, dt)
                        &&& media.wf(m)
                        &&& final(eps).0@ == baked(e_dims(m, Axis::X), regions@, old(eps).0@)
                        &&& final(eps).1@ == baked(e_dims(m, Axis::Y), regions@, old(eps).1@)
                        &&& final(eps).2@ == baked(e_dims(m, Axis::Z), regions@, old(eps).2@)
                    },
                    Err(k) => {
                        &&& k < regions@.len()
                        &&& !regions@[k as int].model.physical()
                        &&& forall|i: int|
                            0 <= i < k ==> (#[trigger] regions@[i]).model.physical()
                    },
                }
            }),
    {
        let ghost m = (n.0 as int, n.1 as int, n.2 as int);
        let ghost (dx, dy, dz) = (e_dims(m, Axis::X), e_dims(m, Axis::Y), e_dims(m, Axis::Z));
        proof {
            crate::field::grid3::lemma_volume_mono(dx, m);
            crate::field::grid3::lemma_volume_mono(dy, m);
            crate::field::grid3::lemma_volume_mono(dz, m);
        }
        let mut media: DispMedia<T> = DispMedia {
            x: CompDisp::new(),
            y: CompDisp::new(),
            z: CompDisp::new(),
        };
        assert(regions@.take(0) =~= Seq::empty());
        let mut k: usize = 0;
        while k < regions.len()
            invariant
                k <= regions@.len(),
                n.0 >= 2,
                n.1 >= 2,
                n.2 >= 2,
                m == (n.0 as int, n.1 as int, n.2 as int),
                dx == e_dims(m, Axis::X),
                dy == e_dims(m, Axis::Y),
                dz == e_dims(m, Axis::Z),
                volume(dx) <= usize::MAX,
                volume(dy) <= usize::MAX,
                volume(dz) <= usize::MAX,
                old(eps).0@.len() == volume(dx),
                old(eps).1@.len() == volume(dy),
                old(eps).2@.len() == volume(dz),
                eps.0@ == baked(dx, regions@.take(k as int), old(eps).0@),
                eps.1@ == baked(dy, regions@.take(k as int), old(eps).1@),
                eps.2@ == baked(dz, regions@.take(k as int), old(eps).2@),
                eps.0@.len() == volume(dx),
                eps.1@.len() == volume(dy),
                eps.2@.len() == volume(dz),
                media.holds(regions@.take(k as int), m, dt),
                forall|i: int| 0 <= i < k ==> (#[trigger] regions@[i]).model.physical(),
            decreases regions@.len() - k,
        {
            let r = &regions[k];
            if !r.model.is_physical() {
                return Err(k);
            }
            media.x.add_region((n.0 - 1, n.1, n.2), r, dt, &mut eps.0);
            media.y.add_region((n.0, n.1 - 1, n.2), r, dt, &mut eps.1);
            media.z.add_region((n.0, n.1, n.2 - 1), r, dt, &mut eps.2);
            proof {
                let next = regions@.take(k + 1);
                assert(next.drop_last() =~= regions@.take(k as int));
                assert(next.last() == *r);
            }
            k += 1;
        }
        proof {
            assert(regions@.take(regions@.len() as int) =~= regions@);
            lemma_cells_inside(dx, regions@, dt);
            lemma_cells_inside(dy, regions@, dt);
            lemma_cells_inside(dz, regions@, dt);
        }
        Ok(media)
    }

    /// Whether no region contributed a cell.
    pub fn is_empty(&self) -> (r: bool)
        ensures
            r == (self.x.drude@.len() == 0 && self.x.lorentz@.len() == 0 && self.y.drude@.len()
                == 0 && self.y.lorentz@.len() == 0 && self.z.drude@.len() == 0
                && self.z.lorentz@.len() == 0),
    {
        self.x.is_empty() && self.y.is_empty() && self.z.is_empty()
    }

    /// The recurrences, from the E that the curl update is about to change.
    pub fn pre(&mut self, ex: &Vec<T>, ey: &Vec<T>, ez: &Vec<T>)
        requires
            old(self).x.wf(ex@.len() as int),
            old(self).y.wf(ey@.len() as int),
            old(self).z.wf(ez@.len() as int),
        ensures
            final(self).x.wf(ex@.len() as int),
            final(self).y.wf(ey@.len() as int),
            final(self).z.wf(ez@.len() as int),
            old(self).x.saw(ex@, &final(self).x),
            old(self).y.saw(ey@, &final(self).y),
            old(self).z.saw(ez@, &final(self).z),
    {
        self.x.pre(ex);
        self.y.pre(ey);
        self.z.pre(ez);
    }

    /// The corrections of E after the curl update.
    pub fn post(&self, ex: &mut Vec<T>, ey: &mut Vec<T>, ez: &mut Vec<T>)
        requires
            self.x.wf(old(ex)@.len() as int),
            self.y.wf(old(ey)@.len() as int),
            self.z.wf(old(ez)@.len() as int),
        ensures
            final(ex)@ == self.x.corrected(old(ex)@),
            final(ey)@ == self.y.corrected(old(ey)@),
            final(ez)@ == self.z.corrected(old(ez)@),
            final(ex)@.len() == old(ex)@.len(),
            final(ey)@.len() == old(ey)@.len(),
            final(ez)@.len() == old(ez)@.len(),
    {
        self.x.post(ex);
        self.y.post(ey);
        self.z.post(ez);
    }
}

/// Places of a box are places of the lattice.
proof fn lemma_places(d: (int, int, int), cells: CellBox, n: int)
    ensures
        forall|k: int|
            0 <= k < places(d, cells, n).len() ==> 0 <= #[trigger] places(d, cells, n)[k] < n,
    decreases n,
{
    if n > 0 {
        lemma_places(d, cells, n - 1);
        assert forall|k: int| 0 <= k < places(d, cells, n).len() implies 0 <= #[trigger] places(
            d,
            cells,
            n,
        )[k] < n by {
            let before = places(d, cells, n - 1);
            if k < before.len() {
                assert(places(d, cells, n)[k] == before[k]);
            }
        }
    }
}

/// Listed cells lie inside the component's array.
proof fn lemma_cells_inside<T: Scalar>(
    d: (int, int, int),
    regions: Seq<MaterialRegion<T>>,
    dt: T,
)
    requires
        volume(d) <= usize::MAX,
    ensures
        forall|k: int|
            0 <= k < drude_list(d, regions, dt).len() ==> (#[trigger] drude_list(
                d,
                regions,
                dt,
            )[k]).idx < volume(d),
        forall|k: int|
            0 <= k < lorentz_list(d, regions, dt).len() ==> (#[trigger] lorentz_list(
                d,
                regions,
                dt,
            )[k]).idx < volume(d),
    decreases regions.len(),
{
    if regions.len() > 0 {
        lemma_cells_inside(d, regions.drop_last(), dt);
        lemma_places(d, regions.last().cells, volume(d));
        let ps = places(d, regions.last().cells, volume(d));
        let drude0 = drude_list(d, regions.drop_last(), dt);
        let lorentz0 = lorentz_list(d, regions.drop_last(), dt);
        assert forall|k: int| 0 <= k < drude_list(d, regions, dt).len() implies (
        #[trigger] drude_list(d, regions, dt)[k]).idx < volume(d) by {
            if k < drude0.len() {
                assert(drude_list(d, regions, dt)[k] == drude0[k]);
            } else {
                assert(0 <= ps[k - drude0.len()] < volume(d));
            }
        }
        assert forall|k: int| 0 <= k < lorentz_list(d, regions, dt).len() implies (
        #[trigger] lorentz_list(d, regions, dt)[k]).idx < volume(d) by {
            if k < lorentz0.len() {
                assert(lorentz_list(d, regions, dt)[k] == lorentz0[k]);
            } else {
                assert(0 <= ps[k - lorentz0.len()] < volume(d));
            }
        }
    }
}

/// A medium without strength is vacuum: where every Drude coupling and every
/// Lorentz coupling is zero and all state is zero, the recurrences leave the
/// state at zero and the corrections leave E exactly as it was.
pub proof fn dark_media_do_nothing(c: &CompDisp<i64>, e: Seq<i64>, after: &CompDisp<i64>, f: Seq<i64>)
    requires
        c.wf(e.len() as int),
        f.len() == e.len(),
        forall|k: int| 0 <= k < c.drude@.len() ==> (#[trigger] c.drude@[k]).kb == 0,
        forall|k: int| 0 <= k < c.lorentz@.len() ==> (#[trigger] c.lorentz@[k]).c3 == 0,
        forall|k: int| 0 <= k < c.j@.len() ==> #[trigger] c.j@[k] == 0,
        forall|k: int| 0 <= k < c.p@.len() ==> #[trigger] c.p@[k] == 0,
        forall|k: int| 0 <= k < c.p_prev@.len() ==> #[trigger] c.p_prev@[k] == 0,
        c.saw(e, after),
    ensures
        forall|k: int| 0 <= k < after.j@.len() ==> #[trigger] after.j@[k] == 0,
        forall|k: int| 0 <= k < after.p@.len() ==> #[trigger] after.p@[k] == 0,
        after.corrected(f) == f,
{
    assert forall|k: int| 0 <= k < after.j@.len() implies #[trigger] after.j@[k] == 0 by {
        lemma_zero_products(c.drude@[k].ka);
        lemma_zero_products(e[c.drude@[k].idx as int]);
        assert(c.j@[k] == 0 && c.drude@[k].kb == 0);
        assert(after.j@[k] == c.j_next(e, k));
    }
    assert forall|k: int| 0 <= k < after.p@.len() implies #[trigger] after.p@[k] == 0 by {
        lemma_zero_products(c.lorentz@[k].c1);
        lemma_zero_products(c.lorentz@[k].c2);
        lemma_zero_products(e[c.lorentz@[k].idx as int]);
        assert(c.p@[k] == 0 && c.p_prev@[k] == 0 && c.lorentz@[k].c3 == 0);
        assert(after.p@[k] == c.p_next(e, k));
    }
    assert forall|k: int| 0 <= k < after.dp@.len() implies #[trigger] after.dp@[k] == 0 by {
        assert(after.p@[k] == 0 && c.p@[k] == 0);
        assert(after.p@[k] == c.p_next(e, k));
    }
    lemma_no_current(after, f, after.drude@.len() as int);
    lemma_no_change(after, f, after.lorentz@.len() as int);
}

proof fn lemma_zero_products(x: i64)
    ensures
        x.product(0) == 0,
        0i64.product(x) == 0,
{
    assert(x * 0 == 0 && 0 * x == 0) by (nonlinear_arith);
}

proof fn lemma_no_current(c: &CompDisp<i64>, e: Seq<i64>, n: int)
    requires
        c.wf(e.len() as int),
        0 <= n <= c.drude@.len(),
        forall|k: int| 0 <= k < c.j@.len() ==> #[trigger] c.j@[k] == 0,
    ensures
        c.less_current(e, n) == e,
    decreases n,
{
    if n > 0 {
        lemma_no_current(c, e, n - 1);
        assert(c.j@[n - 1] == 0);
        lemma_zero_products(c.drude@[n - 1].cj);
        assert(c.less_current(e, n) =~= e);
    }
}

proof fn lemma_no_change(c: &CompDisp<i64>, e: Seq<i64>, n: int)
    requires
        c.wf(e.len() as int),
        0 <= n <= c.lorentz@.len(),
        forall|k: int| 0 <= k < c.dp@.len() ==> #[trigger] c.dp@[k] == 0,
    ensures
        c.less_change(e, n) == e,
    decreases n,
{
    if n > 0 {
        lemma_no_change(c, e, n - 1);
        assert(c.dp@[n - 1] == 0);
        lemma_zero_products(c.lorentz@[n - 1].inv_eps_inf);
        assert(c.less_change(e, n) =~= e);
    }
}

} // verus!
