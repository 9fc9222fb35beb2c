//! Haar-random unitary matrices from Gaussian draws.
//!
//! The columns of a matrix of independent complex Gaussian entries are
//! orthonormalized by modified Gram-Schmidt, two passes per column. The
//! diagonal of the triangular factor is then positive, which is what makes
//! the result Haar-distributed.

use crate::complex::Cx;
use crate::matrix::Matrix;
use crate::photonic::network::CMat;
use crate::scalar::Scalar;
use vstd::prelude::*;

verus! {

/// One step of the orthonormalization.
pub enum Step {
    /// The share of column `i` is taken off column `j`.
    Project { i: int, j: int },
    /// Column `j` is scaled to unit length.
    Normalize { j: int },
}

/// One pass over column `j`.
pub open spec fn pass(j: int) -> Seq<Step> {
    Seq::new(j as nat, |i: int| Step::Project { i, j })
}

/// The steps of the first `n` columns.
pub open spec fn schedule(n: int) -> Seq<Step>
    decreases n,
{
    if n <= 0 {
        Seq::empty()
    } else {
        schedule(n - 1) + pass(n - 1) + pass(n - 1) + seq![Step::Normalize { j: n - 1 }]
    }
}

/// Inner product of columns i and j over the first `n` rows, added in order.
pub open spec fn overlap<T: Scalar>(q: &CMat<T>, i: int, j: int, n: int) -> Cx<T>
    decreases n,
{
    if n <= 0 {
        Cx::<T>::nought()
    } else {
        overlap(q, i, j, n - 1).sum(q.at(n - 1, i).mirrored().product(q.at(n - 1, j)))
    }
}

/// Squared length of column j over the first `n` rows.
pub open spec fn length_sq<T: Scalar>(q: &CMat<T>, j: int, n: int) -> T
    decreases n,
{
    if n <= 0 {
        T::zero_value()
    } else {
        length_sq(q, j, n - 1).sum(q.at(n - 1, j).power())
    }
}

/// `after` is `before` with column `j` less `dot` times column `i`.
pub open spec fn projected<T: Scalar>(before: &CMat<T>, after: &CMat<T>, i: int, j: int) -> bool {
    &&& after.shaped(before.rows as int, before.cols as int)
    &&& forall|r: int, c: int|
        0 <= r < before.rows && 0 <= c < before.cols ==> #[trigger] after.at(r, c) == (if c == j {
            before.at(r, j).difference(
                overlap(before, i, j, before.rows as int).product(before.at(r, i)),
            )
        } else {
            before.at(r, c)
        })
}

/// `after` is `before` with column `j` scaled by `by`.
pub open spec fn scaled_column<T: Scalar>(
    before: &CMat<T>,
    after: &CMat<T>,
    j: int,
    by: T,
) -> bool {
    &&& after.shaped(before.rows as int, before.cols as int)
    &&& forall|r: int, c: int|
        0 <= r < before.rows && 0 <= c < before.cols ==> #[trigger] after.at(r, c) == (if c == j {
            before.at(r, j).scaled(by)
        } else {
            before.at(r, c)
        })
}

/// What a step does; `inverse` gives the reciprocal of the length from its
/// square, or nothing where the column has vanished.
pub open spec fn takes<T: Scalar, I: Fn(T) -> Option<T>>(
    before: &CMat<T>,
    after: &CMat<T>,
    step: Step,
    inverse: I,
) -> bool {
    match step {
        Step::Project { i, j } => projected(before, after, i, j),
        Step::Normalize { j } => unit_length(before, after, j, inverse),
    }
}

/// Column `j` is scaled by its reciprocal length.
pub open spec fn unit_length<T: Scalar, I: Fn(T) -> Option<T>>(
    before: &CMat<T>,
    after: &CMat<T>,
    j: int,
    inverse: I,
) -> bool {
    exists|by: T| #[trigger] normalized(before, after, j, inverse, by)
}

/// `by` is the reciprocal length of column `j`, and the column is scaled by it.
pub open spec fn normalized<T: Scalar, I: Fn(T) -> Option<T>>(
    before: &CMat<T>,
    after: &CMat<T>,
    j: int,
    inverse: I,
    by: T,
) -> bool {
    call_ensures(inverse, (length_sq(before, j, before.rows as int),), Some(by)) && scaled_column(
        before,
        after,
        j,
        by,
    )
}

/// `qs` starts at `g` and takes the steps in order.
pub open spec fn follows<T: Scalar, I: Fn(T) -> Option<T>>(
    qs: Seq<CMat<T>>,
    steps: Seq<Step>,
    g: &CMat<T>,
    inverse: I,
) -> bool {
    &&& qs.len() == steps.len() + 1
    &&& qs[0] == *g
    &&& forall|k: int|
        0 <= k < steps.len() ==> #[trigger] taken(qs, steps, k, inverse)
}

pub open spec fn taken<T: Scalar, I: Fn(T) -> Option<T>>(
    qs: Seq<CMat<T>>,
    steps: Seq<Step>,
    k: int,
    inverse: I,
) -> bool {
    takes(&qs[k], &qs[k + 1], steps[k], inverse)
}

proof fn lemma_follow<T: Scalar, I: Fn(T) -> Option<T>>(
    qs: Seq<CMat<T>>,
    steps: Seq<Step>,
    g: &CMat<T>,
    inverse: I,
    q: CMat<T>,
    step: Step,
)
    requires
        follows(qs, steps, g, inverse),
        takes(&qs[steps.len() as int], &q, step, inverse),
    ensures
        follows(qs.push(q), steps.push(step), g, inverse),
{
    assert forall|k: int| 0 <= k < steps.push(step).len() implies #[trigger] taken(
        qs.push(q),
        steps.push(step),
        k,
        inverse,
    ) by {
        if k < steps.len() {
            assert(taken(qs, steps, k, inverse));
        }
    }
}

fn project<T: Scalar>(q: &mut CMat<T>, i: usize, j: usize)
    requires
        old(q).wf(),
        old(q).rows == old(q).cols,
        i < j < old(q).cols,
    ensures
        projected(old(q), final(q), i as int, j as int),
{
    let n: usize = q.rows;
    let mut dot: Cx<T> = Cx::zero();
    let mut k: usize = 0;
    while k < n
        invariant
            q.wf(),
            n == q.rows,
            n == q.cols,
            i < j < n,
            k <= n,
            *q == *old(q),
            dot == overlap(old(q), i as int, j as int, k as int),
        decreases n - k,
    {
        dot = dot.plus(q.get(k, i).conj().times(q.get(k, j)));
        k += 1;
    }
    let mut r: usize = 0;
    while r < n
        invariant
            n == old(q).rows,
            n == old(q).cols,
            q.shaped(n as int, n as int),
            i < j < n,
            r <= n,
            dot == overlap(old(q), i as int, j as int, n as int),
            forall|x: int, c: int|
                0 <= x < n && 0 <= c < n ==> #[trigger] q.at(x, c) == (if c == j && x < r {
                    old(q).at(x, j as int).difference(dot.product(old(q).at(x, i as int)))
                } else {
                    old(q).at(x, c)
                }),
        decreases n - r,
    {
        let e = q.get(r, j).minus(dot.times(q.get(r, i)));
        q.put(r, j, e);
        r += 1;
    }
}

fn scale_column<T: Scalar>(q: &mut CMat<T>, j: usize, by: T)
    requires
        old(q).wf(),
        old(q).rows == old(q).cols,
        j < old(q).cols,
    ensures
        scaled_column(old(q), final(q), j as int, by),
{
    let n: usize = q.rows;
    let mut r: usize = 0;
    while r < n
        invariant
            n == old(q).rows,
            n == old(q).cols,
            q.shaped(n as int, n as int),
            j < n,
            r <= n,
            forall|x: int, c: int|
                0 <= x < n && 0 <= c < n ==> #[trigger] q.at(x, c) == (if c == j && x < r {
                    old(q).at(x, j as int).scaled(by)
                } else {
                    old(q).at(x, c)
                }),
        decreases n - r,
    {
        let e = q.get(r, j).scale(by);
        q.put(r, j, e);
        r += 1;
    }
}

fn normalize<T: Scalar, I: Fn(T) -> Option<T>>(q: &mut CMat<T>, j: usize, inverse: &I) -> (done: bool)
    requires
        old(q).wf(),
        old(q).rows == old(q).cols,
        j < old(q).cols,
        forall|x: T| #[trigger] call_requires(inverse, (x,)),
    ensures
        final(q).shaped(old(q).rows as int, old(q).cols as int),
        done ==> takes(old(q), final(q), Step::Normalize { j: j as int }, *inverse),
        !done ==> *final(q) == *old(q) && call_ensures(
            *inverse,
            (length_sq(old(q), j as int, old(q).rows as int),),
            None,
        ),
{
    let n: usize = q.rows;
    let mut acc = T::zero();
    let mut k: usize = 0;
    while k < n
        invariant
            q.wf(),
            n == q.rows,
            n == q.cols,
            j < n,
            k <= n,
            *q == *old(q),
            acc == length_sq(old(q), j as int, k as int),
        decreases n - k,
    {
        acc = acc.plus(q.get(k, j).norm_sq());
        k += 1;
    }
    match inverse(acc) {
        Some(by) => {
            scale_column(q, j, by);
            assert(normalized(old(q), q, j as int, *inverse, by));
            assert(unit_length(old(q), q, j as int, *inverse));
            true
        },
        None => false,
    }
}

/// `g` holds the draws row by row, each scaled.
pub open spec fn filled<T: Scalar>(g: &CMat<T>, n: int, draws: Seq<Cx<T>>, scale: T) -> bool {
    g.shaped(n, n) && g.data@ == Seq::new(draws.len(), |k: int| draws[k].scaled(scale))
}

fn fill<T: Scalar>(n: usize, draws: &Vec<Cx<T>>, scale: T) -> (g: CMat<T>)
    requires
        draws@.len() == n * n,
    ensures
        filled(&g, n as int, draws@, scale),
{
    let size: usize = draws.len();
    let mut data: Vec<Cx<T>> = Vec::new();
    let mut k: usize = 0;
    while k < size
        invariant
            size == draws@.len(),
            k <= size,
            data@ == Seq::new(k as nat, |i: int| draws@[i].scaled(scale)),
        decreases size - k,
    {
        data.push(draws[k].scale(scale));
        assert(data@ =~= Seq::new((k + 1) as nat, |i: int| draws@[i].scaled(scale)));
        k += 1;
    }
    Matrix { rows: n, cols: n, data }
}

/// The steps that come before column `j` is scaled.
pub open spec fn before_scaling(j: int) -> Seq<Step> {
    schedule(j) + pass(j) + pass(j)
}

/// What the orthonormalization of `g` comes to: all its steps, or nothing where
/// a column has vanished.
pub open spec fn orthonormalizes<T: Scalar, I: Fn(T) -> Option<T>>(
    g: &CMat<T>,
    inverse: I,
    r: Option<CMat<T>>,
    qs: Seq<CMat<T>>,
) -> bool {
    match r {
        Some(q) => follows(qs, schedule(g.rows as int), g, inverse) && qs.last() == q,
        None => exists|j: int| #[trigger] vanishes(g, inverse, qs, j),
    }
}

/// Column `j` has vanished when it is to be scaled.
pub open spec fn vanishes<T: Scalar, I: Fn(T) -> Option<T>>(
    g: &CMat<T>,
    inverse: I,
    qs: Seq<CMat<T>>,
    j: int,
) -> bool {
    &&& 0 <= j < g.rows
    &&& follows(qs, before_scaling(j), g, inverse)
    &&& call_ensures(inverse, (length_sq(&qs.last(), j, g.rows as int),), None)
}

/// A Haar-random unitary from `n`.`n` standard complex Gaussian draws, each
/// scaled by `scale`. Nothing where a column has numerically vanished.
pub fn haar_unitary<T: Scalar, I: Fn(T) -> Option<T>>(
    n: usize,
    draws: &Vec<Cx<T>>,
    scale: T,
    inverse: I,
) -> (r: Option<CMat<T>>)
    requires
        n >= 1,
        draws@.len() == n * n,
        forall|x: T| #[trigger] call_requires(inverse, (x,)),
    ensures
        exists|g: CMat<T>, qs: Seq<CMat<T>>|
            #[trigger] filled(&g, n as int, draws@, scale) && #[trigger] orthonormalizes(
                &g,
                inverse,
                r,
                qs,
            ),
        r matches Some(q) ==> q.shaped(n as int, n as int),
{
    let g = fill(n, draws, scale);
    let ghost start = g;
    let mut q = g;
    let ghost mut qs: Seq<CMat<T>> = seq![q];
    let ghost mut steps: Seq<Step> = Seq::empty();
    let mut j: usize = 0;
    while j < n
        invariant
            j <= n,
            n == start.rows,
            filled(&start, n as int, draws@, scale),
            q.shaped(n as int, n as int),
            forall|x: T| #[trigger] call_requires(inverse, (x,)),
            follows(qs, steps, &start, inverse),
            steps == schedule(j as int),
            qs[steps.len() as int] == q,
        decreases n - j,
    {
        let ghost base = steps;
        let mut p: usize = 0;
        while p < 2
            invariant
                j < n,
                p <= 2,
                n == start.rows,
                q.shaped(n as int, n as int),
                follows(qs, steps, &start, inverse),
                qs[steps.len() as int] == q,
                p == 0 ==> steps == base,
                p == 1 ==> steps == base + pass(j as int),
                p == 2 ==> steps == base + pass(j as int) + pass(j as int),
            decreases 2 - p,
        {
            let ghost before = steps;
            let mut i: usize = 0;
            assert(before + pass(j as int).take(0) =~= before);
            while i < j
                invariant
                    i <= j < n,
                    n == start.rows,
                    q.shaped(n as int, n as int),
                    follows(qs, steps, &start, inverse),
                    qs[steps.len() as int] == q,
                    steps == before + pass(j as int).take(i as int),
                decreases j - i,
            {
                project(&mut q, i, j);
                proof {
                    let s = Step::Project { i: i as int, j: j as int };
                    assert(takes(&qs[steps.len() as int], &q, s, inverse));
                    lemma_follow(qs, steps, &start, inverse, q, s);
                    qs = qs.push(q);
                    steps = steps.push(s);
                    assert(steps =~= before + pass(j as int).take(i + 1));
                }
                i += 1;
            }
            assert(pass(j as int).take(j as int) =~= pass(j as int));
            p += 1;
        }
        if !normalize(&mut q, j, &inverse) {
            proof {
                assert(qs.last() == q);
                assert(vanishes(&start, inverse, qs, j as int));
                assert(orthonormalizes(&start, inverse, None, qs));
            }
            return None;
        }
        proof {
            let s = Step::Normalize { j: j as int };
            lemma_follow(qs, steps, &start, inverse, q, s);
            qs = qs.push(q);
            steps = steps.push(s);
            assert(steps =~= schedule(j + 1));
        }
        j += 1;
    }
    assert(follows(qs, schedule(start.rows as int), &start, inverse));
    assert(orthonormalizes(&start, inverse, Some(q), qs));
    Some(q)
}

} // verus!
