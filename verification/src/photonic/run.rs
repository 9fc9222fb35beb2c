//! Photonic jobs: a target matrix embedded in a mesh, how well the mesh
//! reproduces it, and optical products held against the ideal.

use crate::complex::Cx;
use crate::photonic::clements::{assembles, decomposes, universal_mesh_has_square_phases};
use crate::photonic::clements::{ClementsMesh, MeshError, MziSetting, Null, Wave};
use crate::photonic::mvm::{query_due, query_report_due};
use crate::photonic::mvm::{OpticalMvm, PhotonicExecutor, PhotonicLedger};
use crate::photonic::network::CMat;
use crate::progress::{heard, lemma_heard_more, lemma_heard_nothing, Listener};
use crate::scalar::{greatest, lemma_greatest_prefix, Scalar};
use vstd::prelude::*;

verus! {

/// The functions that a mesh is programmed and read with.
pub struct Bench<T, V, R, L, A, S, C, Q, M> {
    /// Judges the squared distance of U^H.U from the identity.
    pub unitary: V,
    /// Angles that null an entry from the right.
    pub right: R,
    /// Angles that null an entry from the left.
    pub left: L,
    /// Phase of a sample.
    pub arg: A,
    pub sin: S,
    pub cos: C,
    /// Square root.
    pub root: Q,
    /// Magnitude of a sample.
    pub magnitude: M,
    /// Half a turn.
    pub pi: T,
}

/// `w` is the wave of one interferometer: sine and cosine of its splitting
/// angle, and the phasor of its phase.
pub open spec fn is_wave<T: Scalar, S: Fn(T) -> T, C: Fn(T) -> T>(
    x: MziSetting<T>,
    sin: S,
    cos: C,
    w: Wave<T>,
) -> bool {
    &&& call_ensures(sin, (x.theta,), w.sin)
    &&& call_ensures(cos, (x.theta,), w.cos)
    &&& call_ensures(cos, (x.phi,), w.phasor.re)
    &&& call_ensures(sin, (x.phi,), w.phasor.im)
}

/// `z` is the phasor of an output phase.
pub open spec fn is_phasor<T: Scalar, S: Fn(T) -> T, C: Fn(T) -> T>(
    phase: T,
    sin: S,
    cos: C,
    z: Cx<T>,
) -> bool {
    call_ensures(cos, (phase,), z.re) && call_ensures(sin, (phase,), z.im)
}

impl<T: Scalar> OpticalMvm<T> {
    /// Waves and phasors are those of the mesh's settings.
    pub open spec fn lights<S: Fn(T) -> T, C: Fn(T) -> T>(&self, sin: S, cos: C) -> bool {
        &&& self.wf()
        &&& forall|k: int|
            0 <= k < self.mesh.mzis@.len() ==> is_wave(
                self.mesh.mzis@[k],
                sin,
                cos,
                #[trigger] self.waves@[k],
            )
        &&& forall|j: int|
            0 <= j < self.mesh.n ==> is_phasor(
                self.mesh.output_phases@[j],
                sin,
                cos,
                #[trigger] self.screen@[j],
            )
    }

    /// Programs a mesh as a multiplier.
    pub fn from_mesh<S: Fn(T) -> T, C: Fn(T) -> T>(
        mesh: ClementsMesh<T>,
        sin: &S,
        cos: &C,
    ) -> (r: Self)
        requires
            mesh.wf(),
            forall|x: T| #[trigger] call_requires(sin, (x,)),
            forall|x: T| #[trigger] call_requires(cos, (x,)),
        ensures
            r.mesh == mesh,
            r.lights(*sin, *cos),
    {
        let total: usize = mesh.mzis.len();
        let mut waves: Vec<Wave<T>> = Vec::new();
        let mut k: usize = 0;
        while k < total
            invariant
                total == mesh.mzis@.len(),
                k <= total,
                forall|x: T| #[trigger] call_requires(sin, (x,)),
                forall|x: T| #[trigger] call_requires(cos, (x,)),
                waves@.len() == k,
                forall|i: int|
                    0 <= i < k ==> is_wave(mesh.mzis@[i], *sin, *cos, #[trigger] waves@[i]),
            decreases total - k,
        {
            let x = mesh.mzis[k];
            waves.push(
                Wave {
                    sin: sin(x.theta),
                    cos: cos(x.theta),
                    phasor: Cx { re: cos(x.phi), im: sin(x.phi) },
                },
            );
            k += 1;
        }
        let n: usize = mesh.n;
        let mut screen: Vec<Cx<T>> = Vec::new();
        let mut j: usize = 0;
        while j < n
            invariant
                n == mesh.n,
                mesh.wf(),
                j <= n,
                forall|x: T| #[trigger] call_requires(sin, (x,)),
                forall|x: T| #[trigger] call_requires(cos, (x,)),
                screen@.len() == j,
                forall|i: int|
                    0 <= i < j ==> is_phasor(
                        mesh.output_phases@[i],
                        *sin,
                        *cos,
                        #[trigger] screen@[i],
                    ),
            decreases n - j,
        {
            let phase = mesh.output_phases[j];
            screen.push(Cx { re: cos(phase), im: sin(phase) });
            j += 1;
        }
        OpticalMvm { mesh, waves, screen }
    }
}

/// Greatest magnitude among the first `k` differences of two matrices.
pub open spec fn is_worst<T: Scalar, M: Fn(Cx<T>) -> T>(
    a: Seq<Cx<T>>,
    b: Seq<Cx<T>>,
    magnitude: M,
    r: T,
    sizes: Seq<T>,
) -> bool {
    &&& sizes.len() == a.len()
    &&& forall|k: int|
        0 <= k < a.len() ==> call_ensures(
            magnitude,
            (a[k].difference(b[k]),),
            #[trigger] sizes[k],
        )
    &&& r == greatest(sizes, T::zero_value(), sizes.len() as int)
}

pub open spec fn has_worst<T: Scalar, M: Fn(Cx<T>) -> T>(
    a: Seq<Cx<T>>,
    b: Seq<Cx<T>>,
    magnitude: M,
    r: T,
) -> bool {
    exists|sizes: Seq<T>| #[trigger] is_worst(a, b, magnitude, r, sizes)
}

/// Squared magnitudes of the first `k` differences, added in order.
pub open spec fn distance_sq<T: Scalar>(a: Seq<Cx<T>>, b: Seq<Cx<T>>, k: int) -> T
    decreases k,
{
    if k <= 0 {
        T::zero_value()
    } else {
        distance_sq(a, b, k - 1).sum(a[k - 1].difference(b[k - 1]).power())
    }
}

/// Squared magnitudes of the first `k` samples, added in order.
pub open spec fn power_sum<T: Scalar>(x: Seq<Cx<T>>, k: int) -> T
    decreases k,
{
    if k <= 0 {
        T::zero_value()
    } else {
        power_sum(x, k - 1).sum(x[k - 1].power())
    }
}

/// `x` is the input of query `q`: its draws, scaled to unit length.
pub open spec fn is_input<T: Scalar, I: Fn(usize, usize) -> Cx<T>, Q: Fn(T) -> T>(
    n: int,
    q: usize,
    inputs: I,
    root: Q,
    x: Seq<Cx<T>>,
    draws: Seq<Cx<T>>,
    norm: T,
) -> bool {
    &&& draws.len() == n
    &&& forall|j: int|
        0 <= j < n ==> call_ensures(inputs, (q, j as usize), #[trigger] draws[j])
    &&& call_ensures(root, (power_sum(draws, n),), norm)
    &&& x == Seq::new(n as nat, |j: int| draws[j].scaled(T::of_count(1).quotient(norm)))
}

pub open spec fn has_input<T: Scalar, I: Fn(usize, usize) -> Cx<T>, Q: Fn(T) -> T>(
    n: int,
    q: usize,
    inputs: I,
    root: Q,
    x: Seq<Cx<T>>,
) -> bool {
    exists|draws: Seq<Cx<T>>, norm: T| #[trigger] is_input(n, q, inputs, root, x, draws, norm)
}

/// Entry `i` of the target times `x`, the first `k` terms added in order.
pub open spec fn ideal<T: Scalar>(u: &CMat<T>, x: Seq<Cx<T>>, i: int, k: int) -> Cx<T>
    decreases k,
{
    if k <= 0 {
        Cx::<T>::nought()
    } else {
        ideal(u, x, i, k - 1).sum(u.at(i, k - 1).product(x[k - 1]))
    }
}

/// `acc` and the squared errors of the first `k` outputs for input `x`.
pub open spec fn query_error<T: Scalar>(
    u: &CMat<T>,
    mvm: &OpticalMvm<T>,
    x: Seq<Cx<T>>,
    acc: T,
    k: int,
) -> T
    decreases k,
{
    if k <= 0 {
        acc
    } else {
        let d = mvm.output(x, k - 1).power().difference(
            ideal(u, x, k - 1, u.cols as int).power(),
        );
        query_error(u, mvm, x, acc, k - 1).sum(d.product(d))
    }
}

/// Squared errors of the first `q` queries.
pub open spec fn total_error<T: Scalar>(
    u: &CMat<T>,
    mvm: &OpticalMvm<T>,
    xs: Seq<Seq<Cx<T>>>,
    q: int,
) -> T
    decreases q,
{
    if q <= 0 {
        T::zero_value()
    } else {
        query_error(u, mvm, xs[q - 1], total_error(u, mvm, xs, q - 1), u.rows as int)
    }
}

/// What a job tells of its progress.
#[derive(Debug, Clone, Copy, PartialEq)]
pub enum PhotonicTick<T> {
    /// The mesh stands: its interferometers, and the largest error of an entry
    /// of its matrix.
    Decomposed { n_mzis: usize, worst: T },
    /// Queries made, and their squared errors together.
    Queries { done: usize, error_sum: T },
}

/// The reports of the first `k` of `total` queries.
pub open spec fn query_ticks<T>(sums: Seq<T>, total: int, k: int) -> Seq<PhotonicTick<T>>
    decreases k,
{
    if k <= 0 {
        Seq::empty()
    } else if query_due(k, total) {
        query_ticks(sums, total, k - 1).push(
            PhotonicTick::Queries { done: k as usize, error_sum: sums[k - 1] },
        )
    } else {
        query_ticks(sums, total, k - 1)
    }
}

proof fn lemma_query_ticks_alike<T>(a: Seq<T>, b: Seq<T>, total: int, k: int)
    requires
        forall|m: int| 0 <= m < k ==> a[m] == b[m],
    ensures
        query_ticks(a, total, k) == query_ticks(b, total, k),
    decreases k,
{
    if k > 0 {
        lemma_query_ticks_alike(a, b, total, k - 1);
    }
}

impl<T: Scalar> PhotonicReport<T> {
    /// What the job told of its progress.
    pub open spec fn ticks(&self) -> Seq<PhotonicTick<T>> {
        let n = self.n_queries as int;
        seq![
            PhotonicTick::Decomposed {
                n_mzis: self.n_mzis,
                worst: self.reconstruction_max_error,
            },
        ] + query_ticks(self.error_sums@, n, n)
    }
}

/// What is reported of a job.
pub struct PhotonicReport<T> {
    pub n: usize,
    pub n_mzis: usize,
    pub n_phases: usize,
    pub reconstruction_max_error: T,
    pub reconstruction_frobenius_error: T,
    pub mvm_rms_error: T,
    /// Squared errors of all queries so far, after each of them.
    pub error_sums: Vec<T>,
    pub n_queries: usize,
    pub ledger: PhotonicLedger,
}

impl<
    T: Scalar,
    V: Fn(T) -> bool,
    R: Fn(Cx<T>, Cx<T>) -> Null<T>,
    L: Fn(Cx<T>, Cx<T>) -> Null<T>,
    A: Fn(Cx<T>) -> T,
    S: Fn(T) -> T,
    C: Fn(T) -> T,
    Q: Fn(T) -> T,
    M: Fn(Cx<T>) -> T,
> Bench<T, V, R, L, A, S, C, Q, M> {
    /// The functions take any sample.
    pub open spec fn ready(&self) -> bool {
        &&& forall|d: T| #[trigger] call_requires(self.unitary, (d,))
        &&& forall|a: Cx<T>, b: Cx<T>| #[trigger] call_requires(self.right, (a, b))
        &&& forall|a: Cx<T>, b: Cx<T>| #[trigger] call_requires(self.left, (a, b))
        &&& forall|a: Cx<T>| #[trigger] call_requires(self.arg, (a,))
        &&& forall|x: T| #[trigger] call_requires(self.sin, (x,))
        &&& forall|x: T| #[trigger] call_requires(self.cos, (x,))
        &&& forall|x: T| #[trigger] call_requires(self.root, (x,))
        &&& forall|a: Cx<T>| #[trigger] call_requires(self.magnitude, (a,))
    }

    /// `r` is the mesh of the target, or why it has none.
    pub open spec fn embeds(&self, u: &CMat<T>, r: Result<ClementsMesh<T>, MeshError<T>>) -> bool {
        decomposes(u, self.unitary, self.right, self.left, self.arg, self.pi, r)
    }

    /// The matrix that a programmed mesh realizes.
    pub open spec fn rebuilds(&self, mvm: &OpticalMvm<T>, rebuilt: &CMat<T>) -> bool {
        &&& rebuilt.shaped(mvm.mesh.n as int, mvm.mesh.n as int)
        &&& exists|s: Seq<CMat<T>>|
            {
                &&& #[trigger] assembles(s, mvm.mesh.n as int, mvm.mesh.mzis@, mvm.waves@)
                &&& forall|j: int, c: int|
                    0 <= j < mvm.mesh.n && 0 <= c < mvm.mesh.n ==> #[trigger] rebuilt.at(j, c)
                        == mvm.screen@[j].product(s[mvm.mesh.mzis@.len() as int].at(j, c))
            }
    }

    /// What a programmed mesh comes to for a target and a number of queries.
    pub open spec fn reported<I: Fn(usize, usize) -> Cx<T>>(
        &self,
        u: &CMat<T>,
        n_queries: usize,
        inputs: I,
        mvm: OpticalMvm<T>,
        rebuilt: CMat<T>,
        xs: Seq<Seq<Cx<T>>>,
        r: &PhotonicReport<T>,
    ) -> bool {
        let n = u.rows;
        let mzis = mvm.mesh.mzis@.len();
        &&& mvm.lights(self.sin, self.cos)
        &&& self.rebuilds(&mvm, &rebuilt)
        &&& has_worst(rebuilt.data@, u.data@, self.magnitude, r.reconstruction_max_error)
        &&& call_ensures(
            self.root,
            (distance_sq(rebuilt.data@, u.data@, u.data@.len() as int),),
            r.reconstruction_frobenius_error,
        )
        &&& xs.len() == n_queries
        &&& forall|q: int|
            0 <= q < n_queries ==> has_input(
                n as int,
                q as usize,
                inputs,
                self.root,
                #[trigger] xs[q],
            )
        &&& if n_queries > 0 {
            call_ensures(
                self.root,
                (total_error(u, &mvm, xs, n_queries as int).quotient(
                    T::of_count((n_queries * n) as u64),
                ),),
                r.mvm_rms_error,
            )
        } else {
            r.mvm_rms_error == T::zero_value()
        }
        &&& r.error_sums@ == Seq::new(
            n_queries as nat,
            |q: int| total_error(u, &mvm, xs, q + 1),
        )
        &&& r.n == n
        &&& r.n_mzis == mzis
        &&& r.n_phases == 2 * mzis + n
        &&& r.n_queries == n_queries
        &&& r.ledger == (PhotonicLedger {
            modulator_events: (2 * mzis + n) as u64,
            macs: (n_queries * (n * n)) as u64,
            adc_samples: (n_queries * n) as u64,
        })
    }

    /// `r` is the report of a job.
    pub open spec fn has_report<I: Fn(usize, usize) -> Cx<T>>(
        &self,
        u: &CMat<T>,
        n_queries: usize,
        inputs: I,
        r: &PhotonicReport<T>,
    ) -> bool {
        exists|mvm: OpticalMvm<T>, rebuilt: CMat<T>, xs: Seq<Seq<Cx<T>>>|
            #[trigger] self.reported(u, n_queries, inputs, mvm, rebuilt, xs, r) && self.embeds(
                u,
                Ok(mvm.mesh),
            )
    }

    fn input<I: Fn(usize, usize) -> Cx<T>>(&self, n: usize, q: usize, inputs: &I) -> (x: Vec<Cx<T>>)
        requires
            self.ready(),
            forall|q: usize, j: usize| #[trigger] call_requires(inputs, (q, j)),
        ensures
            x@.len() == n,
            has_input(n as int, q, *inputs, self.root, x@),
    {
        let mut draws: Vec<Cx<T>> = Vec::new();
        let mut acc = T::zero();
        let mut j: usize = 0;
        while j < n
            invariant
                j <= n,
                forall|q: usize, j: usize| #[trigger] call_requires(inputs, (q, j)),
                draws@.len() == j,
                forall|i: int|
                    0 <= i < j ==> call_ensures(inputs, (q, i as usize), #[trigger] draws@[i]),
                acc == power_sum(draws@, j as int),
            decreases n - j,
        {
            let z = inputs(q, j);
            let ghost before = draws@;
            draws.push(z);
            proof {
                lemma_power_prefix(before, draws@, j as int);
            }
            acc = acc.plus(z.norm_sq());
            j += 1;
        }
        let norm = (self.root)(acc);
        let by = T::from_count(1).over(norm);
        let mut x: Vec<Cx<T>> = Vec::new();
        let mut k: usize = 0;
        while k < n
            invariant
                k <= n,
                draws@.len() == n,
                x@ == Seq::new(k as nat, |i: int| draws@[i].scaled(by)),
            decreases n - k,
        {
            x.push(draws[k].scale(by));
            assert(x@ =~= Seq::new((k + 1) as nat, |i: int| draws@[i].scaled(by)));
            k += 1;
        }
        assert(is_input(n as int, q, *inputs, self.root, x@, draws@, norm));
        x
    }
}

proof fn lemma_power_prefix<T: Scalar>(a: Seq<Cx<T>>, b: Seq<Cx<T>>, k: int)
    requires
        k <= a.len() <= b.len(),
        forall|i: int| 0 <= i < a.len() ==> a[i] == b[i],
    ensures
        power_sum(a, k) == power_sum(b, k),
    decreases k,
{
    if k > 0 {
        lemma_power_prefix(a, b, k - 1);
    }
}

fn worst<T: Scalar, M: Fn(Cx<T>) -> T>(a: &Vec<Cx<T>>, b: &Vec<Cx<T>>, magnitude: &M) -> (r: T)
    requires
        a@.len() == b@.len(),
        forall|z: Cx<T>| #[trigger] call_requires(magnitude, (z,)),
    ensures
        has_worst(a@, b@, *magnitude, r),
{
    let n: usize = a.len();
    let mut best = T::zero();
    let ghost mut sizes: Seq<T> = Seq::empty();
    let mut k: usize = 0;
    while k < n
        invariant
            n == a@.len(),
            n == b@.len(),
            forall|z: Cx<T>| #[trigger] call_requires(magnitude, (z,)),
            k <= n,
            sizes.len() == k,
            forall|i: int|
                0 <= i < k ==> call_ensures(
                    magnitude,
                    (a@[i].difference(b@[i]),),
                    #[trigger] sizes[i],
                ),
            best == greatest(sizes, T::zero_value(), k as int),
        decreases n - k,
    {
        let x = magnitude(a[k].minus(b[k]));
        let ghost before = sizes;
        proof {
            sizes = sizes.push(x);
            lemma_greatest_prefix(before, sizes, T::zero_value(), k as int);
        }
        if best.below(x) {
            best = x;
        }
        k += 1;
    }
    assert(is_worst(a@, b@, *magnitude, best, sizes));
    best
}

fn distance<T: Scalar>(a: &Vec<Cx<T>>, b: &Vec<Cx<T>>) -> (r: T)
    requires
        a@.len() == b@.len(),
    ensures
        r == distance_sq(a@, b@, b@.len() as int),
{
    let n: usize = a.len();
    let mut acc = T::zero();
    let mut k: usize = 0;
    while k < n
        invariant
            n == a@.len(),
            n == b@.len(),
            k <= n,
            acc == distance_sq(a@, b@, k as int),
        decreases n - k,
    {
        acc = acc.plus(a[k].minus(b[k]).norm_sq());
        k += 1;
    }
    acc
}

fn ideal_of<T: Scalar>(u: &CMat<T>, x: &Vec<Cx<T>>, i: usize) -> (r: Cx<T>)
    requires
        u.wf(),
        i < u.rows,
        x@.len() == u.cols,
    ensures
        r == ideal(u, x@, i as int, u.cols as int),
{
    let mut acc: Cx<T> = Cx::zero();
    let mut j: usize = 0;
    while j < u.cols
        invariant
            u.wf(),
            i < u.rows,
            x@.len() == u.cols,
            j <= u.cols,
            acc == ideal(u, x@, i as int, j as int),
        decreases u.cols - j,
    {
        acc = acc.plus(u.get(i, j).times(x[j]));
        j += 1;
    }
    acc
}

fn add_error<T: Scalar>(
    u: &CMat<T>,
    mvm: &OpticalMvm<T>,
    x: &Vec<Cx<T>>,
    detected: &Vec<T>,
    acc: T,
) -> (r: T)
    requires
        u.wf(),
        u.rows == u.cols,
        x@.len() == u.cols,
        detected@ == Seq::new(u.rows as nat, |j: int| mvm.output(x@, j).power()),
    ensures
        r == query_error(u, mvm, x@, acc, u.rows as int),
{
    let mut sum = acc;
    let mut i: usize = 0;
    while i < u.rows
        invariant
            u.wf(),
            u.rows == u.cols,
            x@.len() == u.cols,
            detected@ == Seq::new(u.rows as nat, |j: int| mvm.output(x@, j).power()),
            i <= u.rows,
            sum == query_error(u, mvm, x@, acc, i as int),
        decreases u.rows - i,
    {
        let d = detected[i].minus(ideal_of(u, x, i).norm_sq());
        sum = sum.plus(d.times(d));
        i += 1;
    }
    sum
}

proof fn lemma_total_prefix<T: Scalar>(
    u: &CMat<T>,
    mvm: &OpticalMvm<T>,
    a: Seq<Seq<Cx<T>>>,
    b: Seq<Seq<Cx<T>>>,
    q: int,
)
    requires
        q <= a.len() <= b.len(),
        forall|i: int| 0 <= i < a.len() ==> a[i] == b[i],
    ensures
        total_error(u, mvm, a, q) == total_error(u, mvm, b, q),
    decreases q,
{
    if q > 0 {
        lemma_total_prefix(u, mvm, a, b, q - 1);
    }
}

impl<T: Scalar> OpticalMvm<T> {
    /// Embeds a matrix in a mesh and programs it as a multiplier.
    pub fn from_unitary<V, R, L, A, S, C, Q, M>(
        u: &CMat<T>,
        bench: &Bench<T, V, R, L, A, S, C, Q, M>,
    ) -> (r: Result<Self, MeshError<T>>) where
        V: Fn(T) -> bool,
        R: Fn(Cx<T>, Cx<T>) -> Null<T>,
        L: Fn(Cx<T>, Cx<T>) -> Null<T>,
        A: Fn(Cx<T>) -> T,
        S: Fn(T) -> T,
        C: Fn(T) -> T,
        Q: Fn(T) -> T,
        M: Fn(Cx<T>) -> T,

        requires
            u.wf(),
            u.rows >= 1,
            bench.ready(),
        ensures
            match r {
                Ok(mvm) => bench.embeds(u, Ok(mvm.mesh)) && mvm.lights(bench.sin, bench.cos),
                Err(e) => bench.embeds(u, Err(e)),
            },
    {
        match ClementsMesh::decompose(
            u,
            &bench.unitary,
            &bench.right,
            &bench.left,
            &bench.arg,
            bench.pi,
        ) {
            Ok(mesh) => Ok(OpticalMvm::from_mesh(mesh, &bench.sin, &bench.cos)),
            Err(e) => Err(e),
        }
    }
}

impl PhotonicExecutor {
    /// Runs a job: embeds the target in a mesh, holds the mesh against it, and
    /// makes `n_queries` optical products whose inputs `inputs` draws.
    /// `listener` hears of the mesh and, about every twentieth of the way, of
    /// the queries; of a target without a mesh it hears nothing.
    pub fn execute<
        T: Scalar,
        V: Fn(T) -> bool,
        R: Fn(Cx<T>, Cx<T>) -> Null<T>,
        L: Fn(Cx<T>, Cx<T>) -> Null<T>,
        A: Fn(Cx<T>) -> T,
        S: Fn(T) -> T,
        C: Fn(T) -> T,
        Q: Fn(T) -> T,
        M: Fn(Cx<T>) -> T,
        I: Fn(usize, usize) -> Cx<T>,
        K: Listener<PhotonicTick<T>>,
    >(
        &self,
        u: &CMat<T>,
        n_queries: usize,
        inputs: &I,
        bench: &Bench<T, V, R, L, A, S, C, Q, M>,
        listener: &mut K,
    ) -> (r: Result<PhotonicReport<T>, MeshError<T>>)
        requires
            u.wf(),
            u.rows >= 1,
            bench.ready(),
            forall|q: usize, j: usize| #[trigger] call_requires(inputs, (q, j)),
            n_queries * (u.rows * u.rows) <= u64::MAX,
            n_queries * u.rows <= usize::MAX,
            u.rows * u.rows <= usize::MAX,
        ensures
            match r {
                Ok(rep) => {
                    &&& bench.has_report(u, n_queries, *inputs, &rep)
                    &&& heard(*old(listener), rep.ticks(), *final(listener))
                },
                Err(e) => bench.embeds(u, Err(e)) && *final(listener) == *old(listener),
            },
    {
        let n: usize = u.rows;
        let mvm = match OpticalMvm::from_unitary(u, bench) {
            Ok(mvm) => mvm,
            Err(e) => {
                return Err(e);
            },
        };
        proof {
            let len = mvm.mesh.mzis@.len() as int;
            universal_mesh_has_square_phases(n as int, len);
        }
        let mut ledger = PhotonicLedger::new();
        mvm.program(&mut ledger);
        let rebuilt = mvm.mesh.unitary(&mvm.waves, &mvm.screen);
        assert(bench.rebuilds(&mvm, &rebuilt));
        let max_err = worst(&rebuilt.data, &u.data, &bench.magnitude);
        let fro_err = (bench.root)(distance(&rebuilt.data, &u.data));
        let mesh_tick = PhotonicTick::Decomposed { n_mzis: mvm.mesh.n_mzis(), worst: max_err };
        let ghost quiet = *listener;
        listener.hear(mesh_tick);
        proof {
            let none: Seq<PhotonicTick<T>> = Seq::empty();
            lemma_heard_nothing::<PhotonicTick<T>, K>(quiet);
            lemma_heard_more(quiet, none, quiet, mesh_tick, *listener);
            assert(none.push(mesh_tick) =~= seq![mesh_tick] + none);
        }
        let ghost mut xs: Seq<Seq<Cx<T>>> = Seq::empty();
        let mut sum = T::zero();
        let mut error_sums: Vec<T> = Vec::new();
        let mut q: usize = 0;
        assert(0 * (n * n) == 0 && 0 * n == 0);
        while q < n_queries
            invariant
                q <= n_queries,
                heard(
                    *old(listener),
                    seq![mesh_tick] + query_ticks(error_sums@, n_queries as int, q as int),
                    *listener,
                ),
                u.wf(),
                n == u.rows,
                n == u.cols,
                n * n <= usize::MAX,
                n_queries * (n * n) <= u64::MAX,
                n_queries * n <= usize::MAX,
                bench.ready(),
                forall|q: usize, j: usize| #[trigger] call_requires(inputs, (q, j)),
                mvm.wf(),
                mvm.mesh.n == n,
                xs.len() == q,
                forall|i: int|
                    0 <= i < q ==> has_input(
                        n as int,
                        i as usize,
                        *inputs,
                        bench.root,
                        #[trigger] xs[i],
                    ),
                sum == total_error(u, &mvm, xs, q as int),
                error_sums@.len() == q,
                forall|i: int|
                    0 <= i < q ==> #[trigger] error_sums@[i] == total_error(u, &mvm, xs, i + 1),
                ledger.modulator_events == 2 * mvm.mesh.mzis@.len() + n,
                ledger.macs == q * (n * n),
                ledger.adc_samples == q * n,
            decreases n_queries - q,
        {
            proof {
                let (all, sq, m) = (n_queries as int, (n * n) as int, n as int);
                assert((q + 1) * sq == q * sq + sq && (q + 1) * m == q * m + m) by (nonlinear_arith);
                assert((q + 1) * sq <= all * sq && (q + 1) * m <= all * m) by (nonlinear_arith)
                    requires
                        q + 1 <= all,
                        sq >= 0,
                        m >= 0,
                ;
            }
            let x = bench.input(n, q, inputs);
            let detected = mvm.forward(&x, &mut ledger);
            let ghost before = xs;
            sum = add_error(u, &mvm, &x, &detected, sum);
            let ghost sums = error_sums@;
            error_sums.push(sum);
            proof {
                xs = xs.push(x@);
                lemma_total_prefix(u, &mvm, before, xs, q as int);
                assert forall|i: int| 0 <= i < q + 1 implies #[trigger] error_sums@[i]
                    == total_error(u, &mvm, xs, i + 1) by {
                    if i < q {
                        assert(error_sums@[i] == sums[i]);
                        lemma_total_prefix(u, &mvm, before, xs, i + 1);
                    }
                }
                lemma_query_ticks_alike(sums, error_sums@, n_queries as int, q as int);
            }
            q += 1;
            if query_report_due(q, n_queries) {
                let tick = PhotonicTick::Queries { done: q, error_sum: sum };
                let ghost l = *listener;
                listener.hear(tick);
                proof {
                    let to = query_ticks(error_sums@, n_queries as int, q - 1);
                    lemma_heard_more(*old(listener), seq![mesh_tick] + to, l, tick, *listener);
                    assert((seq![mesh_tick] + to).push(tick) =~= seq![mesh_tick] + to.push(tick));
                }
            }
        }
        let rms = if n_queries > 0 {
            (bench.root)(sum.over(T::from_count((n_queries * n) as u64)))
        } else {
            T::zero()
        };
        let r = PhotonicReport {
            n,
            n_mzis: mvm.mesh.n_mzis(),
            n_phases: mvm.mesh.n_phases(),
            reconstruction_max_error: max_err,
            reconstruction_frobenius_error: fro_err,
            mvm_rms_error: rms,
            error_sums,
            n_queries,
            ledger,
        };
        proof {
            assert(r.error_sums@ =~= Seq::new(
                n_queries as nat,
                |i: int| total_error(u, &mvm, xs, i + 1),
            ));
            assert(bench.reported(u, n_queries, *inputs, mvm, rebuilt, xs, &r));
            assert(bench.has_report(u, n_queries, *inputs, &r));
        }
        Ok(r)
    }
}

} // verus!
