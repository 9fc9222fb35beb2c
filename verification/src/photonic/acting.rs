//! A mesh acts as its matrix: sending amplitudes through it block by block is
//! multiplying them by the matrix that the blocks make up.

use crate::complex::Cx;
use crate::exact::{exact, lemma_common_factor, lemma_partners, lemma_past, lifted, ring};
use crate::matrix::Matrix;
use crate::photonic::clements::{assembles, columns_mapped, lit, on_modes, row_times_t};
use crate::photonic::clements::{t_times_column, MeshError, MziSetting, Null, Wave};
use crate::photonic::mvm::OpticalMvm;
use crate::photonic::network::CMat;
use crate::photonic::rebuild::{answers, decomposing_round_trips, forth, lemma_forth, lemma_sent};
use crate::photonic::rebuild::{measures, mix, nulls, orthonormal, sent, turns, Circle, Weights};
use crate::photonic::run::{is_phasor, is_wave, Bench};
use crate::photonic::waves::{along, applied, lemma_applied_eye};
use crate::scalar::Scalar;
use vstd::prelude::*;

verus! {

/// Mixing a row's entries or the wave's comes to the same.
proof fn lemma_either_side<T: Scalar>(w: Weights<T>, a: Cx<T>, b: Cx<T>, y: Cx<T>, z: Cx<T>)
    requires
        exact::<T>(),
    ensures
        mix((w.0.0, w.1.0), a, b).product(y).sum(mix((w.0.1, w.1.1), a, b).product(z)) == a.product(
            mix(w.0, y, z),
        ).sum(b.product(mix(w.1, y, z))),
{
    lemma_turned_inside(w.0.0, a, y);
    lemma_turned_inside(w.1.0, b, y);
    lemma_turned_inside(w.0.1, a, z);
    lemma_turned_inside(w.1.1, b, z);
    lemma_common_factor(w.0.0.product(a), w.1.0.product(b), y);
    lemma_common_factor(w.0.1.product(a), w.1.1.product(b), z);
    let (p, q) = (w.0.0.product(y), w.0.1.product(z));
    let (r, s) = (w.1.0.product(y), w.1.1.product(z));
    lemma_partners(a.product(p), b.product(r), a.product(q), b.product(s));
    ring(a, p, q);
    ring(b, r, s);
}

proof fn lemma_turned_inside<T: Scalar>(w: Cx<T>, a: Cx<T>, y: Cx<T>)
    requires
        exact::<T>(),
    ensures
        w.product(a).product(y) == a.product(w.product(y)),
{
    ring(w, a, y);
    lemma_past(a, w, y);
}

/// A wave after one block.
spec fn blocked<T: Scalar>(v: Seq<Cx<T>>, m: int, w: Wave<T>) -> Seq<Cx<T>> {
    let y = t_times_column(v[m], v[m + 1], w.sin, w.cos, w.phasor);
    v.update(m, y.0).update(m + 1, y.1)
}

/// A block may act on the columns of a matrix or on the wave.
proof fn lemma_block_moves<T: Scalar>(
    a: &CMat<T>,
    b: &CMat<T>,
    n: int,
    m: int,
    w: Wave<T>,
    v: Seq<Cx<T>>,
    i: int,
    k: int,
)
    requires
        exact::<T>(),
        a.shaped(n, n),
        columns_mapped(
            a,
            b,
            m,
            |p: Cx<T>, q: Cx<T>| row_times_t(p, q, w.sin, w.cos, w.phasor),
        ),
        0 <= m && m + 1 < n,
        v.len() == n,
        0 <= i < n,
        0 <= k <= n,
        k != m + 1,
    ensures
        along(b, v, i, k) == along(a, blocked(v, m, w), i, k),
    decreases k,
{
    let z = blocked(v, m, w);
    if k == m + 2 {
        lemma_block_moves(a, b, n, m, w, v, i, m);
        let (p, q) = (a.at(i, m), a.at(i, m + 1));
        lemma_forth(p, q, w);
        lemma_sent(v[m], v[m + 1], w);
        let (f, s) = (forth(w), sent(w));
        assert(b.at(i, m) == mix(f.0, p, q) && b.at(i, m + 1) == mix(f.1, p, q));
        assert(z[m] == mix(s.0, v[m], v[m + 1]) && z[m + 1] == mix(s.1, v[m], v[m + 1]));
        lemma_either_side(s, p, q, v[m], v[m + 1]);
        let (c, x, e) = (
            lifted(w.cos),
            lifted(w.sin),
            w.phasor,
        );
        ring(e, c, e);
        ring(e, x, e);
        assert(f == ((s.0.0, s.1.0), (s.0.1, s.1.1)));
        let g = along(b, v, i, m);
        ring(g, b.at(i, m).product(v[m]), b.at(i, m + 1).product(v[m + 1]));
        ring(g, p.product(z[m]), q.product(z[m + 1]));
        assert(along(b, v, i, m + 1) == g.sum(b.at(i, m).product(v[m])));
        assert(along(a, z, i, m + 1) == g.sum(p.product(z[m])));
        assert(along(b, v, i, k) == along(b, v, i, m + 1).sum(
            b.at(i, m + 1).product(v[m + 1]),
        ));
        assert(along(a, z, i, k) == along(a, z, i, m + 1).sum(q.product(z[m + 1])));
    } else if k > 0 {
        lemma_block_moves(a, b, n, m, w, v, i, k - 1);
        assert(b.at(i, k - 1) == a.at(i, k - 1));
        assert(z[k - 1] == v[k - 1]);
    }
}

/// The last `k` blocks may act on the wave, the rest as a matrix.
proof fn lemma_blocks_move<T: Scalar>(
    n: int,
    s: Seq<Matrix<Cx<T>>>,
    mzis: Seq<MziSetting<T>>,
    waves: Seq<Wave<T>>,
    x: Seq<Cx<T>>,
    k: int,
)
    requires
        exact::<T>(),
        n >= 0,
        assembles(s, n, mzis, waves),
        on_modes(mzis, n),
        x.len() == n,
        0 <= k <= mzis.len(),
    ensures
        lit(mzis, waves, x, k).len() == n,
        applied(&s[mzis.len() - k], lit(mzis, waves, x, k)) == applied(&s[mzis.len() as int], x),
    decreases k,
{
    if k > 0 {
        lemma_blocks_move(n, s, mzis, waves, x, k - 1);
        let q = mzis.len() - k;
        let w = waves[q];
        let m = mzis[q].mode as int;
        assert(mzis[q].mode + 1 < n);
        let (a, b) = (s[q], s[q + 1]);
        lemma_square_all(n, s, mzis, waves, q);
        let v = lit(mzis, waves, x, k - 1);
        assert(columns_mapped(
            &a,
            &b,
            m,
            |p: Cx<T>, r: Cx<T>|
                row_times_t(p, r, waves[q].sin, waves[q].cos, waves[q].phasor),
        ));
        assert(lit(mzis, waves, x, k) == blocked(v, m, w));
        assert forall|i: int| 0 <= i < n implies #[trigger] applied(&b, v)[i] == applied(
            &a,
            blocked(v, m, w),
        )[i] by {
            lemma_block_moves(&a, &b, n, m, w, v, i, n);
        }
        assert(applied(&b, v) =~= applied(&a, blocked(v, m, w)));
    }
}

proof fn lemma_square_all<T: Scalar>(
    n: int,
    s: Seq<Matrix<Cx<T>>>,
    mzis: Seq<MziSetting<T>>,
    waves: Seq<Wave<T>>,
    k: int,
)
    requires
        assembles(s, n, mzis, waves),
        0 <= k <= mzis.len(),
    ensures
        s[k].shaped(n, n),
    decreases k,
{
    if k > 0 {
        lemma_square_all(n, s, mzis, waves, k - 1);
        let x = mzis[k - 1];
        assert(s[k - 1 + 1].shaped(n, n));
    }
}

/// A factor on a whole row comes out.
proof fn lemma_row_factor<T: Scalar>(
    a: &CMat<T>,
    b: &CMat<T>,
    d: Cx<T>,
    x: Seq<Cx<T>>,
    i: int,
    k: int,
)
    requires
        exact::<T>(),
        forall|c: int| 0 <= c < k ==> #[trigger] b.at(i, c) == d.product(a.at(i, c)),
    ensures
        along(b, x, i, k) == d.product(along(a, x, i, k)),
    decreases k,
{
    if k <= 0 {
        ring(d, d, d);
    } else {
        lemma_row_factor(a, b, d, x, i, k - 1);
        let e = a.at(i, k - 1);
        assert(b.at(i, k - 1) == d.product(e));
        ring(d, e, x[k - 1]);
        ring(d, along(a, x, i, k - 1), e.product(x[k - 1]));
    }
}

/// Sending amplitudes through a mesh, block by block and through the output
/// screen, gives what its matrix makes of them.
pub proof fn mesh_acts_as_its_matrix<T: Scalar>(
    n: int,
    mzis: Seq<MziSetting<T>>,
    waves: Seq<Wave<T>>,
    screen: Seq<Cx<T>>,
    s: Seq<Matrix<Cx<T>>>,
    made: &Matrix<Cx<T>>,
    x: Seq<Cx<T>>,
)
    requires
        exact::<T>(),
        on_modes(mzis, n),
        assembles(s, n, mzis, waves),
        made.shaped(n, n),
        forall|j: int, c: int|
            0 <= j < n && 0 <= c < n ==> #[trigger] made.at(j, c) == screen[j].product(
                s[mzis.len() as int].at(j, c),
            ),
        x.len() == n,
    ensures
        applied(made, x) == Seq::new(
            n as nat,
            |j: int| screen[j].product(lit(mzis, waves, x, mzis.len() as int)[j]),
        ),
{
    let total = mzis.len() as int;
    let out = Seq::new(n as nat, |j: int| screen[j].product(lit(mzis, waves, x, total)[j]));
    lemma_blocks_move(n, s, mzis, waves, x, total);
    lemma_square_all(n, s, mzis, waves, total);
    lemma_applied_eye(&s[0], lit(mzis, waves, x, total));
    let last = s[total];
    assert forall|j: int| 0 <= j < n implies #[trigger] applied(made, x)[j] == out[j] by {
        lemma_row_factor(&last, made, screen[j], x, j, n);
        assert(applied(&last, x)[j] == lit(mzis, waves, x, total)[j]);
    }
    assert(applied(made, x) =~= out);
}

/// What leaves a programmed multiplier is what its matrix makes of the inputs:
/// the matrix that the bench multiplies out is that of the mesh, and each output
/// is the entry of its product.
pub proof fn multiplier_acts_as_its_matrix<
    T: Scalar,
    V: Fn(T) -> bool,
    R: Fn(Cx<T>, Cx<T>) -> Null<T>,
    L: Fn(Cx<T>, Cx<T>) -> Null<T>,
    A: Fn(Cx<T>) -> T,
    S: Fn(T) -> T,
    C: Fn(T) -> T,
    Q: Fn(T) -> T,
    M: Fn(Cx<T>) -> T,
>(
    bench: &Bench<T, V, R, L, A, S, C, Q, M>,
    mvm: &OpticalMvm<T>,
    made: &Matrix<Cx<T>>,
    x: Seq<Cx<T>>,
    j: int,
)
    requires
        exact::<T>(),
        mvm.wf(),
        bench.rebuilds(mvm, made),
        x.len() == mvm.mesh.n,
        0 <= j < mvm.mesh.n,
    ensures
        mvm.mesh.stands_for(mvm.waves@, mvm.screen@, made),
        applied(made, x) == mvm.mesh.emerging(mvm.waves@, mvm.screen@, x),
        applied(made, x)[j] == mvm.output(x, j),
{
    let mesh = mvm.mesh;
    let s = choose|s: Seq<Matrix<Cx<T>>>|
        {
            &&& #[trigger] assembles(s, mesh.n as int, mesh.mzis@, mvm.waves@)
            &&& forall|i: int, c: int|
                0 <= i < mesh.n && 0 <= c < mesh.n ==> #[trigger] made.at(i, c)
                    == mvm.screen@[i].product(s[mesh.mzis@.len() as int].at(i, c))
        };
    mesh_acts_as_its_matrix(mesh.n as int, mesh.mzis@, mvm.waves@, mvm.screen@, s, made, x);
    assert(applied(made, x) =~= mesh.emerging(mvm.waves@, mvm.screen@, x));
}

/// A multiplier programmed with the mesh of a unitary matrix multiplies by that
/// matrix: in exact arithmetic, with the sine and cosine of the circle, the
/// matrix of its mesh is the target, and so is what it makes of any input.
pub proof fn multiplier_multiplies_by_its_target<
    T: Scalar,
    V: Fn(T) -> bool,
    R: Fn(Cx<T>, Cx<T>) -> Null<T>,
    L: Fn(Cx<T>, Cx<T>) -> Null<T>,
    A: Fn(Cx<T>) -> T,
    S: Fn(T) -> T,
    C: Fn(T) -> T,
    Q: Fn(T) -> T,
    M: Fn(Cx<T>) -> T,
>(
    bench: &Bench<T, V, R, L, A, S, C, Q, M>,
    u: &Matrix<Cx<T>>,
    o: Circle<T>,
    mvm: &OpticalMvm<T>,
    made: &Matrix<Cx<T>>,
)
    requires
        exact::<T>(),
        o.wf(bench.pi),
        answers(o, bench.right, bench.left),
        nulls(bench.right, bench.left),
        measures(o, bench.arg),
        forall|t: T, y: T| #[trigger]
            call_ensures(bench.sin, (t,), y) ==> y == (o.sin)(t) && y == (o.turn)(t).im,
        forall|t: T, y: T| #[trigger]
            call_ensures(bench.cos, (t,), y) ==> y == (o.cos)(t) && y == (o.turn)(t).re,
        u.wf(),
        u.rows >= 1,
        orthonormal(u.rows as int, u),
        bench.embeds(u, Ok::<_, MeshError<T>>(mvm.mesh)),
        mvm.mesh.n == u.rows,
        mvm.lights(bench.sin, bench.cos),
        mvm.mesh.stands_for(mvm.waves@, mvm.screen@, made),
    ensures
        forall|j: int, c: int|
            0 <= j < u.rows && 0 <= c < u.rows ==> #[trigger] made.at(j, c) == u.at(j, c),
{
    let mesh = mvm.mesh;
    let s = choose|s: Seq<Matrix<Cx<T>>>|
        {
            &&& #[trigger] assembles(s, mesh.n as int, mesh.mzis@, mvm.waves@)
            &&& forall|i: int, c: int|
                0 <= i < mesh.n && 0 <= c < mesh.n ==> #[trigger] made.at(i, c)
                    == mvm.screen@[i].product(s[mesh.mzis@.len() as int].at(i, c))
        };
    assert forall|k: int| 0 <= k < mesh.mzis@.len() implies #[trigger] mvm.waves@[k] == o.wave(
        mesh.mzis@[k].theta,
        mesh.mzis@[k].phi,
    ) by {
        assert(is_wave(mesh.mzis@[k], bench.sin, bench.cos, mvm.waves@[k]));
    }
    assert forall|j: int| 0 <= j < mesh.n implies #[trigger] mvm.screen@[j] == (o.turn)(
        mesh.output_phases@[j],
    ) by {
        assert(is_phasor(mesh.output_phases@[j], bench.sin, bench.cos, mvm.screen@[j]));
    }
    assert(mvm.screen@ =~= turns(o, mesh.output_phases@));
    decomposing_round_trips(
        u,
        bench.unitary,
        bench.right,
        bench.left,
        bench.arg,
        bench.pi,
        mesh,
        o,
        mvm.waves@,
        mvm.screen@,
        s,
        made,
    );
}

} // verus!
