//! What the orthonormalization is for: in exact arithmetic the matrix it leaves
//! is unitary.

use crate::complex::Cx;
use crate::exact::{complex_numbers_are_exact, conjugation, exact, exact_reals, lemma_opposites};
use crate::exact::{lifted, reals, ring};
use crate::photonic::clements::gram;
use crate::photonic::haar::{filled, length_sq, normalized, orthonormalizes, overlap, pass};
use crate::photonic::haar::{projected, scaled_column, schedule, taken, Step};
use crate::photonic::network::CMat;
use crate::photonic::rebuild::orthonormal;
use crate::scalar::Scalar;
use vstd::prelude::*;

verus! {

/// The reciprocal length is one: its square times the squared length is one.
pub open spec fn reciprocal<T: Scalar, I: Fn(T) -> Option<T>>(inverse: I) -> bool {
    forall|x: T, by: T| #[trigger]
        call_ensures(inverse, (x,), Some(by)) ==> by.product(by).product(x) == T::of_count(1)
}

/// The first `m` columns have unit length and are orthogonal to each other.
pub open spec fn orthonormal_upto<T: Scalar>(q: &CMat<T>, m: int) -> bool {
    forall|a: int, b: int|
        0 <= a < m && 0 <= b < m ==> #[trigger] overlap(q, a, b, q.rows as int) == (if a == b {
            Cx::<T>::unit()
        } else {
            Cx::<T>::nought()
        })
}

/// Columns that are not touched keep their inner product.
proof fn lemma_untouched<T: Scalar>(before: &CMat<T>, after: &CMat<T>, a: int, b: int, j: int, n: int)
    requires
        0 <= n <= before.rows,
        0 <= a < before.cols,
        0 <= b < before.cols,
        a != j,
        b != j,
        forall|r: int, c: int|
            0 <= r < before.rows && 0 <= c < before.cols && c != j ==> #[trigger] after.at(r, c)
                == before.at(r, c),
    ensures
        overlap(after, a, b, n) == overlap(before, a, b, n),
    decreases n,
{
    if n > 0 {
        lemma_untouched(before, after, a, b, j, n - 1);
        assert(after.at(n - 1, a) == before.at(n - 1, a));
        assert(after.at(n - 1, b) == before.at(n - 1, b));
    }
}

/// What a projection makes of the inner products with its column.
proof fn lemma_projected<T: Scalar>(before: &CMat<T>, after: &CMat<T>, i: int, j: int, a: int, n: int)
    requires
        exact::<T>(),
        projected(before, after, i, j),
        0 <= n <= before.rows,
        0 <= i < before.cols,
        0 <= j < before.cols,
        0 <= a < before.cols,
        a != j,
    ensures
        overlap(after, a, j, n) == overlap(before, a, j, n).difference(
            overlap(before, i, j, before.rows as int).product(overlap(before, a, i, n)),
        ),
    decreases n,
{
    let d = overlap(before, i, j, before.rows as int);
    let zero = Cx::<T>::nought();
    if n > 0 {
        lemma_projected(before, after, i, j, a, n - 1);
        let z = before.at(n - 1, a).mirrored();
        let (x, y) = (before.at(n - 1, j), before.at(n - 1, i));
        assert(after.at(n - 1, j) == x.difference(d.product(y)));
        assert(after.at(n - 1, a) == before.at(n - 1, a));
        let (p, q) = (overlap(before, a, j, n - 1), overlap(before, a, i, n - 1));
        // z.(x - d.y) = z.x - d.(z.y)
        let dy = d.product(y);
        ring(x, dy, dy);
        ring(z, x, dy.negated());
        ring(dy.negated(), z, z);
        ring(z, dy.negated(), z);
        ring(dy, z, z);
        ring(d, y, z);
        ring(y, z, z);
        let (zx, dzy) = (z.product(x), d.product(z.product(y)));
        assert(z.product(after.at(n - 1, j)) == zx.sum(dzy.negated()));
        // (p - d.q) + (zx - d.zy) = (p + zx) - d.(q + zy)
        let dq = d.product(q);
        ring(p, dq, dq);
        crate::exact::lemma_partners(p, dq.negated(), zx, dzy.negated());
        ring(d, q, z.product(y));
        lemma_negated_sum(dq, dzy);
        ring(p.sum(zx), dq.sum(dzy), zx);
    } else {
        ring(d, zero, zero);
        ring(zero, zero, zero);
        lemma_negated_sum(zero, zero);
        ring(zero, zero.negated(), zero);
        ring(zero.negated(), zero, zero);
    }
}

/// The opposite of a sum.
proof fn lemma_negated_sum<T: Scalar>(a: Cx<T>, b: Cx<T>)
    requires
        exact::<T>(),
    ensures
        a.sum(b).negated() == a.negated().sum(b.negated()),
{
    let one = Cx::<T>::unit();
    let k = one.negated();
    ring(a, one, one);
    ring(one, a, a);
    ring(b, one, one);
    ring(one, b, b);
    ring(a.sum(b), one, one);
    ring(one, a.sum(b), a);
    ring(k, a, b);
    ring(one, a, b);
}

/// A projection onto a column of unit length leaves nothing of it; columns that
/// are orthogonal to it are as before.
pub proof fn projection_takes_its_share_off<T: Scalar>(
    before: &CMat<T>,
    after: &CMat<T>,
    i: int,
    j: int,
    a: int,
)
    requires
        exact_reals::<T>(),
        projected(before, after, i, j),
        0 <= i < before.cols,
        0 <= j < before.cols,
        0 <= a < before.cols,
        a != j,
        overlap(before, a, i, before.rows as int) == (if a == i {
            Cx::<T>::unit()
        } else {
            Cx::<T>::nought()
        }),
    ensures
        overlap(after, a, j, after.rows as int) == (if a == i {
            Cx::<T>::nought()
        } else {
            overlap(before, a, j, before.rows as int)
        }),
{
    complex_numbers_are_exact::<T>();
    let n = before.rows as int;
    lemma_projected(before, after, i, j, a, n);
    let (d, x, zero) = (overlap(before, i, j, n), overlap(before, a, j, n), Cx::<T>::nought());
    ring(d, d, d);
    ring(x, d, d);
    ring(x, zero, zero);
    lemma_negated_sum(zero, zero);
    ring(zero, zero, zero);
    ring(zero.negated(), zero, zero);
    ring(zero, zero.negated(), zero);
    ring(zero.negated(), zero.negated(), zero);
    assert(zero.negated() == zero);
}

/// Inner products with a scaled column scale, and its squared length by the
/// square.
proof fn lemma_scaled<T: Scalar>(before: &CMat<T>, after: &CMat<T>, j: int, by: T, a: int, n: int)
    requires
        exact::<T>(),
        exact_reals::<T>(),
        scaled_column(before, after, j, by),
        0 <= n <= before.rows,
        0 <= j < before.cols,
        0 <= a < before.cols,
        a != j,
    ensures
        overlap(after, a, j, n) == overlap(before, a, j, n).product(lifted(by)),
        overlap(after, j, j, n) == lifted(by.product(by).product(length_sq(before, j, n))),
    decreases n,
{
    let (zero, k) = (T::zero_value(), lifted(by));
    let bb = by.product(by);
    reals(bb, zero, zero);
    lemma_opposites(by, by);
    ring(k, Cx::nought(), k);
    ring(Cx::nought(), k, k);
    if n > 0 {
        lemma_scaled(before, after, j, by, a, n - 1);
        assert(after.at(n - 1, j) == before.at(n - 1, j).scaled(by));
        assert(after.at(n - 1, a) == before.at(n - 1, a));
        let (z, x) = (before.at(n - 1, a).mirrored(), before.at(n - 1, j));
        assert(crate::exact::ring_at(x, z, x, by));
        ring(z, x, k);
        let p = overlap(before, a, j, n - 1);
        ring(k, p, z.product(x));
        ring(p, k, k);
        ring(z.product(x), k, k);
        ring(p.sum(z.product(x)), k, k);
        lemma_square(x, by);
        reals(bb, length_sq(before, j, n - 1), x.power());
        let (u, v) = (bb.product(length_sq(before, j, n - 1)), bb.product(x.power()));
        reals(zero, zero, zero);
        assert(lifted(u).sum(lifted(v)) == lifted(u.sum(v)));
    }
}

/// A scaled sample times its conjugate.
proof fn lemma_square<T: Scalar>(x: Cx<T>, by: T)
    requires
        exact_reals::<T>(),
    ensures
        x.scaled(by).mirrored().product(x.scaled(by)) == lifted(
            by.product(by).product(x.power()),
        ),
{
    let (a, b) = (x.re.product(by), x.im.product(by));
    let n = b.negative();
    // re: a.a - (-b).b, im: a.b + (-b).a
    reals(b, b, b);
    lemma_opposites(b.product(b), b);
    reals(a.product(a), n.product(b), a);
    reals(b, a, a);
    reals(a, b, a);
    reals(a.product(b), a.product(b), a);
    crate::exact::lemma_spread(x.re, by, x.re);
    lemma_squared(x.re, by);
    lemma_squared(x.im, by);
    reals(by.product(by), x.re.product(x.re), x.im.product(x.im));
}

/// `(x.k).(x.k)` is `(k.k).(x.x)`.
proof fn lemma_squared<T: Scalar>(x: T, k: T)
    requires
        exact_reals::<T>(),
    ensures
        x.product(k).product(x.product(k)) == k.product(k).product(x.product(x)),
{
    reals(x, k, x);
    reals(k, x, x);
    reals(x, k, k);
    reals(k, x, k.product(x));
    reals(x, k, x);
    reals(k, k, x.product(x));
    reals(k, x, k);
}

/// Scaling by the reciprocal length leaves a column of unit length, orthogonal
/// to what it was orthogonal to.
pub proof fn scaling_leaves_unit_length<T: Scalar, I: Fn(T) -> Option<T>>(
    before: &CMat<T>,
    after: &CMat<T>,
    j: int,
    inverse: I,
    by: T,
    a: int,
)
    requires
        exact_reals::<T>(),
        reciprocal(inverse),
        normalized(before, after, j, inverse, by),
        0 <= j < before.cols,
        0 <= a < before.cols,
        a != j,
    ensures
        overlap(after, j, j, after.rows as int) == Cx::<T>::unit(),
        overlap(before, a, j, before.rows as int) == Cx::<T>::nought() ==> overlap(
            after,
            a,
            j,
            after.rows as int,
        ) == Cx::<T>::nought(),
{
    complex_numbers_are_exact::<T>();
    lemma_scaled(before, after, j, by, a, before.rows as int);
    ring(lifted(by), Cx::nought(), lifted(by));
    ring(Cx::nought(), lifted(by), lifted(by));
}

/// Turning an inner product round conjugates it.
proof fn lemma_turned<T: Scalar>(q: &CMat<T>, a: int, b: int, n: int)
    requires
        exact::<T>(),
    ensures
        overlap(q, b, a, n) == overlap(q, a, b, n).mirrored(),
    decreases n,
{
    let zero = Cx::<T>::nought();
    conjugation(zero, zero, T::zero_value());
    if n > 0 {
        lemma_turned(q, a, b, n - 1);
        let (x, y) = (q.at(n - 1, a), q.at(n - 1, b));
        conjugation(overlap(q, a, b, n - 1), x.mirrored().product(y), x.re);
        conjugation(x.mirrored(), y, x.re);
        lemma_twice_mirrored(x);
        ring(x, y.mirrored(), x);
    }
}

/// Conjugating twice changes nothing.
proof fn lemma_twice_mirrored<T: Scalar>(x: Cx<T>)
    requires
        exact::<T>(),
    ensures
        x.mirrored().mirrored() == x,
{
    // the opposite of an opposite, read off the conjugate of i.im
    let (u, zero) = (x.negated(), Cx::<T>::nought());
    ring(x, u, zero);
    ring(u, u.negated(), zero);
    ring(x, u, u.negated());
    ring(zero, u.negated(), zero);
    ring(u.negated(), zero, zero);
    assert(u.negated() == x);
}

/// One pass over column `j` takes it off every column before it.
proof fn lemma_pass<T: Scalar, I: Fn(T) -> Option<T>>(
    qs: Seq<CMat<T>>,
    steps: Seq<Step>,
    inverse: I,
    off: int,
    j: int,
    k: int,
    n: int,
    zeros: int,
)
    requires
        exact_reals::<T>(),
        0 <= k <= j < n,
        0 <= zeros <= j,
        0 <= off,
        off + j < qs.len(),
        off + j <= steps.len(),
        forall|i: int| 0 <= i < j ==> #[trigger] steps[off + i] == (Step::Project { i, j }),
        forall|t: int| 0 <= t < steps.len() ==> #[trigger] taken(qs, steps, t, inverse),
        qs[off].shaped(n, n),
        orthonormal_upto(&qs[off], j),
        forall|a: int|
            0 <= a < zeros ==> #[trigger] overlap(&qs[off], a, j, n) == Cx::<T>::nought(),
    ensures
        qs[off + k].shaped(n, n),
        orthonormal_upto(&qs[off + k], j),
        forall|a: int|
            0 <= a < k || 0 <= a < zeros ==> #[trigger] overlap(&qs[off + k], a, j, n)
                == Cx::<T>::nought(),
    decreases k,
{
    if k > 0 {
        lemma_pass(qs, steps, inverse, off, j, k - 1, n, zeros);
        let i = k - 1;
        let (before, after) = (&qs[off + i], &qs[off + k]);
        assert(taken(qs, steps, off + i, inverse));
        assert(steps[off + i] == (Step::Project { i, j }));
        assert(off + i + 1 == off + k);
        assert(projected(before, after, i, j));
        assert forall|a: int, b: int| 0 <= a < j && 0 <= b < j implies #[trigger] overlap(
            after,
            a,
            b,
            after.rows as int,
        ) == (if a == b {
            Cx::<T>::unit()
        } else {
            Cx::<T>::nought()
        }) by {
            lemma_untouched(before, after, a, b, j, n);
            assert(overlap(before, a, b, before.rows as int) == overlap(after, a, b, n));
        }
        assert forall|a: int| 0 <= a < k || 0 <= a < zeros implies #[trigger] overlap(
            after,
            a,
            j,
            n,
        ) == Cx::<T>::nought() by {
            assert(overlap(before, a, i, before.rows as int) == (if a == i {
                Cx::<T>::unit()
            } else {
                Cx::<T>::nought()
            }));
            projection_takes_its_share_off(before, after, i, j, a);
            if a != i {
                assert(overlap(before, a, j, n) == Cx::<T>::nought());
            }
        }
    }
}

/// The first `m` columns of the matrix after their steps are orthonormal.
proof fn lemma_columns<T: Scalar, I: Fn(T) -> Option<T>>(
    qs: Seq<CMat<T>>,
    steps: Seq<Step>,
    inverse: I,
    m: int,
    n: int,
)
    requires
        exact_reals::<T>(),
        reciprocal(inverse),
        0 <= m <= n,
        n >= 1,
        schedule(m).len() <= steps.len(),
        qs.len() == steps.len() + 1,
        forall|t: int| 0 <= t < schedule(m).len() ==> #[trigger] steps[t] == schedule(m)[t],
        forall|t: int| 0 <= t < steps.len() ==> #[trigger] taken(qs, steps, t, inverse),
        qs[0].shaped(n, n),
    ensures
        qs[schedule(m).len() as int].shaped(n, n),
        orthonormal_upto(&qs[schedule(m).len() as int], m),
    decreases m,
{
    if m > 0 {
        let j = m - 1;
        let (s, p) = (schedule(j), pass(j));
        let own = schedule(m);
        assert(own =~= s + p + p + seq![Step::Normalize { j }]);
        let (one, two) = (s.len() as int, s.len() + j);
        let last = two + j;
        assert forall|t: int| 0 <= t < s.len() implies #[trigger] steps[t] == s[t] by {
            assert(steps[t] == own[t]);
        }
        lemma_columns(qs, steps, inverse, j, n);
        assert forall|i: int| 0 <= i < j implies #[trigger] steps[one + i] == (Step::Project {
            i,
            j,
        }) by {
            assert(steps[one + i] == own[one + i]);
        }
        lemma_pass(qs, steps, inverse, one, j, j, n, 0);
        assert forall|i: int| 0 <= i < j implies #[trigger] steps[two + i] == (Step::Project {
            i,
            j,
        }) by {
            assert(steps[two + i] == own[two + i]);
        }
        lemma_pass(qs, steps, inverse, two, j, j, n, j);
        assert(steps[last] == own[last]);
        assert(taken(qs, steps, last, inverse));
        let (before, after) = (&qs[last], &qs[last + 1]);
        let by = choose|by: T| #[trigger] normalized(before, after, j, inverse, by);
        assert(normalized(before, after, j, inverse, by));
        complex_numbers_are_exact::<T>();
        assert(own.len() == last + 1);
        assert forall|a: int, b: int| 0 <= a < m && 0 <= b < m implies #[trigger] overlap(
            after,
            a,
            b,
            after.rows as int,
        ) == (if a == b {
            Cx::<T>::unit()
        } else {
            Cx::<T>::nought()
        }) by {
            if a < j && b < j {
                lemma_untouched(before, after, a, b, j, n);
                assert(overlap(before, a, b, before.rows as int) == overlap(after, a, b, n));
            } else if a < j {
                assert(overlap(before, a, j, n) == Cx::<T>::nought());
                scaling_leaves_unit_length(before, after, j, inverse, by, a);
            } else if b < j {
                assert(overlap(before, b, j, n) == Cx::<T>::nought());
                scaling_leaves_unit_length(before, after, j, inverse, by, b);
                lemma_turned(after, b, j, n);
                conjugation(Cx::<T>::nought(), Cx::nought(), by);
            } else {
                lemma_own_length(before, after, j, inverse, by);
            }
        }
    }
}

/// The scaled column has unit length, be there others or not.
proof fn lemma_own_length<T: Scalar, I: Fn(T) -> Option<T>>(
    before: &CMat<T>,
    after: &CMat<T>,
    j: int,
    inverse: I,
    by: T,
)
    requires
        exact_reals::<T>(),
        reciprocal(inverse),
        normalized(before, after, j, inverse, by),
        0 <= j < before.cols,
    ensures
        overlap(after, j, j, after.rows as int) == Cx::<T>::unit(),
{
    lemma_length(before, after, j, by, before.rows as int);
}

proof fn lemma_length<T: Scalar>(before: &CMat<T>, after: &CMat<T>, j: int, by: T, n: int)
    requires
        exact_reals::<T>(),
        scaled_column(before, after, j, by),
        0 <= n <= before.rows,
        0 <= j < before.cols,
    ensures
        overlap(after, j, j, n) == lifted(by.product(by).product(length_sq(before, j, n))),
    decreases n,
{
    let (zero, bb) = (T::zero_value(), by.product(by));
    reals(bb, zero, zero);
    if n > 0 {
        lemma_length(before, after, j, by, n - 1);
        let x = before.at(n - 1, j);
        assert(after.at(n - 1, j) == x.scaled(by));
        lemma_square(x, by);
        reals(bb, length_sq(before, j, n - 1), x.power());
        reals(zero, zero, zero);
    }
}

proof fn lemma_gram<T: Scalar>(q: &CMat<T>, a: int, b: int, n: int)
    ensures
        gram(q, a, b, n) == overlap(q, a, b, n),
    decreases n,
{
    if n > 0 {
        lemma_gram(q, a, b, n - 1);
    }
}

/// The matrix that orthonormalization leaves is unitary: its columns have unit
/// length and are orthogonal to each other, whatever the draws were.
pub proof fn random_matrix_is_unitary<T: Scalar, I: Fn(T) -> Option<T>>(
    n: int,
    draws: Seq<Cx<T>>,
    scale: T,
    g: CMat<T>,
    inverse: I,
    q: CMat<T>,
    qs: Seq<CMat<T>>,
)
    requires
        exact_reals::<T>(),
        reciprocal(inverse),
        n >= 1,
        filled(&g, n, draws, scale),
        orthonormalizes(&g, inverse, Some(q), qs),
    ensures
        orthonormal(n, &q),
{
    let steps = schedule(n);
    lemma_columns(qs, steps, inverse, n, n);
    assert(qs.last() == qs[steps.len() as int]);
    assert forall|a: int, b: int| 0 <= a < n && 0 <= b < n implies #[trigger] gram(&q, a, b, n) == (
    if a == b {
        Cx::<T>::unit()
    } else {
        Cx::nought()
    }) by {
        lemma_gram(&q, a, b, n);
        assert(overlap(&q, a, b, q.rows as int) == gram(&q, a, b, n));
    }
}

} // verus!
