//! Row-major lattices, and whole-lattice updates.

use vstd::arithmetic::div_mod::lemma_fundamental_div_mod;
use vstd::prelude::*;

verus! {

/// Place of sample `(i, j, k)` in a row-major array of `d.0 x d.1 x d.2` samples.
pub open spec fn flat(d: (int, int, int), p: (int, int, int)) -> int {
    (p.0 * d.1 + p.1) * d.2 + p.2
}

/// Whether `p` is a sample of a `d.0 x d.1 x d.2` lattice.
pub open spec fn inside(d: (int, int, int), p: (int, int, int)) -> bool {
    &&& 0 <= p.0 < d.0
    &&& 0 <= p.1 < d.1
    &&& 0 <= p.2 < d.2
}

/// Number of samples of a `d.0 x d.1 x d.2` lattice.
pub open spec fn volume(d: (int, int, int)) -> int {
    d.0 * d.1 * d.2
}

/// Distinct samples of a lattice have distinct places, all of them inside the array.
pub proof fn lemma_flat(d: (int, int, int), p: (int, int, int))
    requires
        inside(d, p),
    ensures
        0 <= flat(d, p) < volume(d),
        0 <= p.1 * d.2 + p.2 < d.1 * d.2,
        flat(d, p) == p.0 * (d.1 * d.2) + (p.1 * d.2 + p.2),
{
    let (i, j, k) = p;
    let (a, b, c) = d;
    assert(0 <= j * c + k < b * c) by (nonlinear_arith)
        requires
            0 <= j < b,
            0 <= k < c,
    ;
    assert((i * b + j) * c + k == i * (b * c) + (j * c + k)) by (nonlinear_arith);
    assert(0 <= i * (b * c) + (j * c + k) < a * (b * c)) by (nonlinear_arith)
        requires
            0 <= i < a,
            0 <= j * c + k < b * c,
    ;
    assert(a * (b * c) == a * b * c) by (nonlinear_arith);
}

/// Place of sample `(i, j, k)` in a row-major array.
#[inline(always)]
pub fn flat_index(d: (usize, usize, usize), i: usize, j: usize, k: usize) -> (r: usize)
    requires
        inside((d.0 as int, d.1 as int, d.2 as int), (i as int, j as int, k as int)),
        volume((d.0 as int, d.1 as int, d.2 as int)) <= usize::MAX,
    ensures
        r == flat((d.0 as int, d.1 as int, d.2 as int), (i as int, j as int, k as int)),
        r < volume((d.0 as int, d.1 as int, d.2 as int)),
{
    let ghost dd = (d.0 as int, d.1 as int, d.2 as int);
    proof {
        let p = (i as int, j as int, k as int);
        lemma_flat(dd, p);
        assert(0 <= (i * d.1 + j) * d.2 <= flat(dd, p)) by (nonlinear_arith)
            requires
                flat(dd, p) == (i * d.1 + j) * d.2 + k,
                0 <= i,
                0 <= j,
                0 <= k,
                0 <= d.1,
                0 <= d.2,
        ;
        assert(i * d.1 + j <= (i * d.1 + j) * d.2) by (nonlinear_arith)
            requires
                1 <= d.2,
                0 <= i * d.1 + j,
        ;
        assert(0 <= i * d.1) by (nonlinear_arith)
            requires
                0 <= i,
                0 <= d.1,
        ;
    }
    (i * d.1 + j) * d.2 + k
}

/// The sample that sits at a place of the array.
pub open spec fn at_place(d: (int, int, int), at: int) -> (int, int, int) {
    (at / (d.1 * d.2), (at % (d.1 * d.2)) / d.2, (at % (d.1 * d.2)) % d.2)
}

/// Every place of the array belongs to a sample.
pub proof fn lemma_at_place(d: (int, int, int), at: int)
    requires
        d.0 >= 1,
        d.1 >= 1,
        d.2 >= 1,
        0 <= at < volume(d),
    ensures
        inside(d, at_place(d, at)),
        flat(d, at_place(d, at)) == at,
{
    let (a, b, c) = d;
    lemma_plane(d);
    let q = at % (b * c);
    let (i, j, k) = at_place(d, at);
    lemma_fundamental_div_mod(at, b * c);
    lemma_fundamental_div_mod(q, c);
    assert(a * b * c == a * (b * c)) by (nonlinear_arith);
    assert(0 <= i < a) by (nonlinear_arith)
        requires
            at == (b * c) * i + q,
            0 <= q < b * c,
            0 <= at < a * (b * c),
            b * c >= 1,
    ;
    assert(0 <= j < b) by (nonlinear_arith)
        requires
            q == c * j + k,
            0 <= k < c,
            0 <= q < b * c,
            c >= 1,
    ;
    assert((i * b + j) * c + k == (b * c) * i + (c * j + k)) by (nonlinear_arith);
}

/// An array of `n` copies of a sample.
pub fn filled<T: Copy>(x: T, n: usize) -> (r: Vec<T>)
    ensures
        r@ == Seq::new(n as nat, |i: int| x),
{
    let mut r: Vec<T> = Vec::new();
    let mut i: usize = 0;
    while i < n
        invariant
            i <= n,
            r@.len() == i,
            forall|k: int| 0 <= k < i ==> r@[k] == x,
        decreases n - i,
    {
        r.push(x);
        i += 1;
    }
    r
}

/// Grids of fewer samples than this run on the calling thread: the cost of
/// handing tasks out dominates a small update.
pub const PAR_MIN_CELLS: usize = 32_768;

/// Three samples of one place of a lattice.
pub type Triple<T> = (T, T, T);

/// Three arrays over one lattice.
pub type Arrays<T> = (Vec<T>, Vec<T>, Vec<T>);

/// Sample `(i, j, k)` of the lattice holds what `f` gives for it.
pub open spec fn given<T, F: Fn(usize, usize, usize) -> Triple<T>>(
    f: &F,
    d: (int, int, int),
    i: usize,
    j: usize,
    k: usize,
    out: &Arrays<T>,
) -> bool {
    let at = flat(d, (i as int, j as int, k as int));
    call_ensures(*f, (i, j, k), (out.0@[at], out.1@[at], out.2@[at]))
}

/// Whether sample `(i, j, k)` comes before `(x, y, z)`.
pub open spec fn earlier(i: usize, j: usize, k: usize, x: int, y: int, z: int) -> bool {
    i < x || i == x && (j < y || j == y && k < z)
}

/// The three arrays that hold, at the place of every sample of the lattice
/// `d`, the triple that `f` gives for it.
pub fn sweep<T: Copy, F: Fn(usize, usize, usize) -> Triple<T>>(
    d: (usize, usize, usize),
    f: F,
) -> (out: Arrays<T>)
    requires
        d.0 >= 1,
        d.1 >= 1,
        d.2 >= 1,
        volume((d.0 as int, d.1 as int, d.2 as int)) <= usize::MAX,
        forall|i: usize, j: usize, k: usize|
            i < d.0 && j < d.1 && k < d.2 ==> call_requires(f, (i, j, k)),
    ensures
        out.0@.len() == volume((d.0 as int, d.1 as int, d.2 as int)),
        out.1@.len() == volume((d.0 as int, d.1 as int, d.2 as int)),
        out.2@.len() == volume((d.0 as int, d.1 as int, d.2 as int)),
        forall|i: usize, j: usize, k: usize|
            i < d.0 && j < d.1 && k < d.2 ==> ({
                let at = #[trigger] flat(
                    (d.0 as int, d.1 as int, d.2 as int),
                    (i as int, j as int, k as int),
                );
                call_ensures(f, (i, j, k), (out.0@[at], out.1@[at], out.2@[at]))
            }),
{
    let ghost dd = (d.0 as int, d.1 as int, d.2 as int);
    proof {
        lemma_plane(dd);
        assert(d.0 * (d.1 * d.2) == volume(dd)) by (nonlinear_arith)
            requires
                volume(dd) == d.0 * d.1 * d.2,
        ;
    }
    let total: usize = d.0 * (d.1 * d.2);
    let mut out: Arrays<T> = (
        Vec::with_capacity(total),
        Vec::with_capacity(total),
        Vec::with_capacity(total),
    );
    assert((0 * d.1 + 0) * d.2 + 0 == 0) by (nonlinear_arith);
    let mut i: usize = 0;
    while i < d.0
        invariant
            i <= d.0,
            dd == (d.0 as int, d.1 as int, d.2 as int),
            out.0@.len() == flat(dd, (i as int, 0, 0)),
            out.1@.len() == out.0@.len(),
            out.2@.len() == out.0@.len(),
            forall|x: usize, y: usize, z: usize|
                x < d.0 && y < d.1 && z < d.2 ==> call_requires(f, (x, y, z)),
            forall|x: usize, y: usize, z: usize|
                y < d.1 && z < d.2 && earlier(x, y, z, i as int, 0, 0) ==> #[trigger] given(
                    &f,
                    dd,
                    x,
                    y,
                    z,
                    &out,
                ),
        decreases d.0 - i,
    {
        let mut j: usize = 0;
        while j < d.1
            invariant
                i < d.0,
                j <= d.1,
                dd == (d.0 as int, d.1 as int, d.2 as int),
                out.0@.len() == flat(dd, (i as int, j as int, 0)),
                out.1@.len() == out.0@.len(),
                out.2@.len() == out.0@.len(),
                forall|x: usize, y: usize, z: usize|
                    x < d.0 && y < d.1 && z < d.2 ==> call_requires(f, (x, y, z)),
                forall|x: usize, y: usize, z: usize|
                    y < d.1 && z < d.2 && earlier(x, y, z, i as int, j as int, 0)
                        ==> #[trigger] given(&f, dd, x, y, z, &out),
            decreases d.1 - j,
        {
            let mut k: usize = 0;
            while k < d.2
                invariant
                    i < d.0,
                    j < d.1,
                    k <= d.2,
                    dd == (d.0 as int, d.1 as int, d.2 as int),
                    out.0@.len() == flat(dd, (i as int, j as int, k as int)),
                    out.1@.len() == out.0@.len(),
                    out.2@.len() == out.0@.len(),
                    forall|x: usize, y: usize, z: usize|
                        x < d.0 && y < d.1 && z < d.2 ==> call_requires(f, (x, y, z)),
                    forall|x: usize, y: usize, z: usize|
                        y < d.1 && z < d.2 && earlier(x, y, z, i as int, j as int, k as int)
                            ==> #[trigger] given(&f, dd, x, y, z, &out),
                decreases d.2 - k,
            {
                let ghost before = out;
                let t = f(i, j, k);
                out.0.push(t.0);
                out.1.push(t.1);
                out.2.push(t.2);
                proof {
                    assert forall|x: usize, y: usize, z: usize|
                        y < d.1 && z < d.2 && earlier(
                            x,
                            y,
                            z,
                            i as int,
                            j as int,
                            k + 1,
                        ) implies #[trigger] given(&f, dd, x, y, z, &out) by {
                        if earlier(x, y, z, i as int, j as int, k as int) {
                            lemma_earlier(dd, (x, y, z), (i, j, k));
                            assert(given(&f, dd, x, y, z, &before));
                        } else {
                            lemma_flat(dd, (i as int, j as int, k as int));
                            assert(call_ensures(f, (i, j, k), t));
                        }
                    }
                }
                k += 1;
            }
            assert((i * d.1 + j) * d.2 + d.2 == (i * d.1 + (j + 1)) * d.2) by (nonlinear_arith);
            j += 1;
        }
        assert((i * d.1 + d.1) * d.2 == ((i + 1) * d.1 + 0) * d.2) by (nonlinear_arith);
        i += 1;
    }
    proof {
        assert((d.0 * d.1 + 0) * d.2 + 0 == volume(dd)) by (nonlinear_arith)
            requires
                volume(dd) == d.0 * d.1 * d.2,
        ;
        assert forall|i: usize, j: usize, k: usize| i < d.0 && j < d.1 && k < d.2 implies ({
            let at = #[trigger] flat(dd, (i as int, j as int, k as int));
            call_ensures(f, (i, j, k), (out.0@[at], out.1@[at], out.2@[at]))
        }) by {
            assert(given(&f, dd, i, j, k, &out));
        }
    }
    out
}

/// Earlier samples have smaller places.
proof fn lemma_earlier(d: (int, int, int), p: (usize, usize, usize), q: (usize, usize, usize))
    requires
        q.0 < d.0 && q.1 < d.1 && q.2 < d.2,
        p.1 < d.1 && p.2 < d.2,
        earlier(p.0, p.1, p.2, q.0 as int, q.1 as int, q.2 as int),
    ensures
        0 <= flat(d, (p.0 as int, p.1 as int, p.2 as int)) < flat(
            d,
            (q.0 as int, q.1 as int, q.2 as int),
        ),
{
    let (a, b) = (p.0 * d.1 + p.1, q.0 * d.1 + q.1);
    assert(0 <= a) by (nonlinear_arith)
        requires
            a == p.0 * d.1 + p.1,
            0 <= p.1 < d.1,
            0 <= p.0,
    ;
    if p.0 < q.0 {
        assert(a < b) by (nonlinear_arith)
            requires
                a == p.0 * d.1 + p.1,
                b == q.0 * d.1 + q.1,
                p.0 < q.0,
                0 <= p.1 < d.1,
                0 <= q.1,
        ;
    }
    assert(0 <= a * d.2) by (nonlinear_arith)
        requires
            0 <= a,
            0 < d.2,
    ;
    if a < b {
        assert(a * d.2 + p.2 < b * d.2) by (nonlinear_arith)
            requires
                a < b,
                0 <= p.2 < d.2,
        ;
    } else {
        assert(a == b);
    }
}

/// A plane is no larger than the lattice.
pub proof fn lemma_plane(d: (int, int, int))
    requires
        d.0 >= 1,
        d.1 >= 1,
        d.2 >= 1,
    ensures
        1 <= d.1 * d.2 <= volume(d),
{
    let (a, b, c) = d;
    assert(1 <= b * c) by (nonlinear_arith)
        requires
            b >= 1,
            c >= 1,
    ;
    assert(b * c <= a * (b * c)) by (nonlinear_arith)
        requires
            a >= 1,
            b * c >= 1,
    ;
    assert(a * (b * c) == a * b * c) by (nonlinear_arith);
}

} // verus!
