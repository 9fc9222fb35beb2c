//! Exact arithmetic.
//!
//! The operations of a scalar have no laws of their own. Laws of exact
//! arithmetic are stated for scalars that are a commutative ring, or whose
//! complex numbers are one with a conjugation.

use crate::complex::Cx;
use crate::scalar::Scalar;
use vstd::prelude::*;

verus! {

/// A real number as a complex one.
pub open spec fn lifted<T: Scalar>(x: T) -> Cx<T> {
    Cx { re: x, im: T::zero_value() }
}

/// A real number times the imaginary unit.
pub open spec fn upright<T: Scalar>(x: T) -> Cx<T> {
    Cx { re: T::zero_value(), im: x }
}

/// The laws of a commutative ring with a conjugation, at three complex numbers
/// and a real one.
pub open spec fn ring_at<T: Scalar>(a: Cx<T>, b: Cx<T>, c: Cx<T>, x: T) -> bool {
    &&& a.sum(b) == b.sum(a)
    &&& a.sum(b).sum(c) == a.sum(b.sum(c))
    &&& a.sum(Cx::nought()) == a
    &&& a.sum(a.negated()) == Cx::<T>::nought()
    &&& a.difference(b) == a.sum(b.negated())
    &&& a.product(b) == b.product(a)
    &&& a.product(b).product(c) == a.product(b.product(c))
    &&& a.product(b.sum(c)) == a.product(b).sum(a.product(c))
    &&& a.product(Cx::unit()) == a
    &&& a.product(Cx::nought()) == Cx::<T>::nought()
    &&& a.negated().product(b) == a.product(b).negated()
    &&& a.scaled(x) == a.product(lifted(x))
    &&& a.sum(b).mirrored() == a.mirrored().sum(b.mirrored())
    &&& a.product(b).mirrored() == a.mirrored().product(b.mirrored())
    &&& a.negated().mirrored() == a.mirrored().negated()
    &&& lifted(x).mirrored() == lifted(x)
    &&& upright(x).mirrored() == upright(x).negated()
    &&& upright(x).product(upright(x)) == lifted(x).product(lifted(x)).negated()
}

/// Real numbers multiply and subtract as complex ones.
pub open spec fn lifts<T: Scalar>(x: T, y: T) -> bool {
    &&& lifted(x.product(y)) == lifted(x).product(lifted(y))
    &&& lifted(x.difference(y)) == lifted(x).difference(lifted(y))
}

/// The scalar computes exactly: its complex numbers are a commutative ring
/// with a conjugation, and the real numbers lie among them.
pub open spec fn exact<T: Scalar>() -> bool {
    &&& forall|a: Cx<T>, b: Cx<T>, c: Cx<T>, x: T| #[trigger] ring_at(a, b, c, x)
    &&& forall|x: T, y: T| #[trigger] lifts(x, y)
}

pub proof fn ring<T: Scalar>(a: Cx<T>, b: Cx<T>, c: Cx<T>)
    requires
        exact::<T>(),
    ensures
        a.sum(b) == b.sum(a),
        a.sum(b).sum(c) == a.sum(b.sum(c)),
        a.sum(Cx::nought()) == a,
        a.sum(a.negated()) == Cx::<T>::nought(),
        a.difference(b) == a.sum(b.negated()),
        a.product(b) == b.product(a),
        a.product(b).product(c) == a.product(b.product(c)),
        a.product(b.sum(c)) == a.product(b).sum(a.product(c)),
        a.product(Cx::unit()) == a,
        a.product(Cx::nought()) == Cx::<T>::nought(),
        a.negated().product(b) == a.product(b).negated(),
{
    assert(ring_at(a, b, c, a.re));
}

pub proof fn conjugation<T: Scalar>(a: Cx<T>, b: Cx<T>, x: T)
    requires
        exact::<T>(),
    ensures
        a.sum(b).mirrored() == a.mirrored().sum(b.mirrored()),
        a.product(b).mirrored() == a.mirrored().product(b.mirrored()),
        a.negated().mirrored() == a.mirrored().negated(),
        lifted(x).mirrored() == lifted(x),
        upright(x).mirrored() == upright(x).negated(),
        upright(x).product(upright(x)) == lifted(x).product(lifted(x)).negated(),
        Cx::<T>::nought().mirrored() == Cx::<T>::nought(),
{
    assert(ring_at(a, b, a, x));
    assert(ring_at(a, b, a, T::zero_value()));
}

/// Two pairs of summands may change partners.
pub proof fn lemma_partners<T: Scalar>(a: Cx<T>, b: Cx<T>, c: Cx<T>, d: Cx<T>)
    requires
        exact::<T>(),
    ensures
        a.sum(b).sum(c.sum(d)) == a.sum(c).sum(b.sum(d)),
{
    ring(a, b, c.sum(d));
    ring(b, c, d);
    ring(c, b, d);
    ring(a, c, b.sum(d));
    assert(b.sum(c.sum(d)) == c.sum(b.sum(d)));
}

/// A factor may move past another one.
pub proof fn lemma_past<T: Scalar>(a: Cx<T>, b: Cx<T>, x: Cx<T>)
    requires
        exact::<T>(),
    ensures
        a.product(b.product(x)) == b.product(a.product(x)),
{
    ring(a, b, x);
    ring(b, a, x);
}

pub proof fn lemma_common_factor<T: Scalar>(x: Cx<T>, y: Cx<T>, a: Cx<T>)
    requires
        exact::<T>(),
    ensures
        x.product(a).sum(y.product(a)) == x.sum(y).product(a),
{
    ring(a, x, y);
    ring(x, a, a);
    ring(y, a, a);
    ring(x.sum(y), a, a);
}

/// The laws of a commutative ring, at three real numbers.
pub open spec fn reals_at<T: Scalar>(a: T, b: T, c: T) -> bool {
    let (zero, one) = (T::zero_value(), T::of_count(1));
    &&& a.sum(b) == b.sum(a)
    &&& a.sum(b).sum(c) == a.sum(b.sum(c))
    &&& a.sum(zero) == a
    &&& a.sum(a.negative()) == zero
    &&& a.difference(b) == a.sum(b.negative())
    &&& a.product(b) == b.product(a)
    &&& a.product(b).product(c) == a.product(b.product(c))
    &&& a.product(b.sum(c)) == a.product(b).sum(a.product(c))
    &&& a.product(one) == a
    &&& a.product(zero) == zero
    &&& a.negative().product(b) == a.product(b).negative()
}

/// The scalar is a commutative ring.
pub open spec fn exact_reals<T: Scalar>() -> bool {
    forall|a: T, b: T, c: T| #[trigger] reals_at(a, b, c)
}

pub proof fn reals<T: Scalar>(a: T, b: T, c: T)
    requires
        exact_reals::<T>(),
    ensures
        reals_at(a, b, c),
{
}

/// Opposites: of an opposite, of a sum and of zero.
pub proof fn lemma_opposites<T: Scalar>(a: T, b: T)
    requires
        exact_reals::<T>(),
    ensures
        a.negative().negative() == a,
        a.sum(b).negative() == a.negative().sum(b.negative()),
        T::zero_value().negative() == T::zero_value(),
        T::zero_value().sum(a) == a,
        T::zero_value().product(a) == T::zero_value(),
{
    let (zero, one) = (T::zero_value(), T::of_count(1));
    let (m, n) = (a.negative().negative(), a.negative());
    reals(a, n, m);
    reals(n, m, a);
    reals(zero, m, a);
    reals(m, zero, a);
    reals(zero, zero.negative(), a);
    reals(zero.negative(), zero, a);
    reals(zero, a, a);
    reals(a, zero, a);
    // -x = (-1).x
    let k = one.negative();
    reals(one, a, a);
    reals(a, one, a);
    reals(one, b, a);
    reals(b, one, a);
    reals(one, a.sum(b), a);
    reals(a.sum(b), one, a);
    reals(k, a, b);
}

/// Two pairs of real summands may change partners.
pub proof fn lemma_real_partners<T: Scalar>(a: T, b: T, c: T, d: T)
    requires
        exact_reals::<T>(),
    ensures
        a.sum(b).sum(c.sum(d)) == a.sum(c).sum(b.sum(d)),
{
    reals(a, b, c.sum(d));
    reals(b, c, d);
    reals(c, b, d);
    reals(b, c, a);
    reals(a, c, b.sum(d));
}

/// Factors over sums and differences, and signs out of products.
pub proof fn lemma_spread<T: Scalar>(x: T, y: T, z: T)
    requires
        exact_reals::<T>(),
    ensures
        x.sum(y).product(z) == x.product(z).sum(y.product(z)),
        x.difference(y).product(z) == x.product(z).sum(y.product(z).negative()),
        z.product(x.difference(y)) == z.product(x).sum(z.product(y).negative()),
        x.product(y.negative()) == x.product(y).negative(),
        x.negative().product(y.negative()) == x.product(y),
{
    let n = y.negative();
    reals(z, x, y);
    reals(z, x, n);
    reals(x, z, z);
    reals(y, z, z);
    reals(n, z, z);
    reals(x, y, z);
    reals(x.sum(y), z, z);
    reals(x.sum(n), z, z);
    reals(y, x, z);
    reals(x, n, z);
    reals(n, x, z);
    reals(z, y, z);
    lemma_opposites(x.product(y), z);
}

proof fn lemma_complex_sums<T: Scalar>(a: Cx<T>, b: Cx<T>, c: Cx<T>)
    requires
        exact_reals::<T>(),
    ensures
        a.sum(b) == b.sum(a),
        a.sum(b).sum(c) == a.sum(b.sum(c)),
        a.sum(Cx::nought()) == a,
        a.sum(a.negated()) == Cx::<T>::nought(),
        a.difference(b) == a.sum(b.negated()),
        a.sum(b).mirrored() == a.mirrored().sum(b.mirrored()),
        a.negated().mirrored() == a.mirrored().negated(),
{
    reals(a.re, b.re, c.re);
    reals(a.im, b.im, c.im);
    lemma_opposites(a.im, b.im);
}

proof fn lemma_complex_products<T: Scalar>(a: Cx<T>, b: Cx<T>, c: Cx<T>)
    requires
        exact_reals::<T>(),
    ensures
        a.product(b) == b.product(a),
        a.product(b.sum(c)) == a.product(b).sum(a.product(c)),
        a.product(Cx::unit()) == a,
        a.product(Cx::nought()) == Cx::<T>::nought(),
        a.negated().product(b) == a.product(b).negated(),
        a.product(b).mirrored() == a.mirrored().product(b.mirrored()),
{
    let (zero, one) = (T::zero_value(), T::of_count(1));
    let (rr, ii) = (a.re.product(b.re), a.im.product(b.im));
    let (ri, ir) = (a.re.product(b.im), a.im.product(b.re));
    reals(a.re, b.re, c.re);
    reals(a.im, b.im, c.im);
    reals(a.re, b.im, c.im);
    reals(a.im, b.re, c.re);
    reals(rr, ii, zero);
    reals(ri, ir, zero);
    reals(b.re, a.re, zero);
    reals(b.im, a.im, zero);
    // sums
    let (sr, si) = (a.re.product(c.re), a.im.product(c.im));
    let (ti, tr) = (a.re.product(c.im), a.im.product(c.re));
    reals(rr.sum(sr), ii.sum(si), zero);
    reals(sr, si, zero);
    lemma_opposites(ii, si);
    lemma_real_partners(rr, sr, ii.negative(), si.negative());
    lemma_real_partners(ri, ti, ir, tr);
    // one and nothing
    lemma_opposites(zero, zero);
    lemma_opposites(a.re, a.im);
    lemma_opposites(a.im, a.re);
    reals(a.re, zero, zero);
    reals(a.im, zero, zero);
    reals(zero, zero, zero);
    reals(a.re.product(one), a.im.product(zero), zero);
    reals(a.re.product(zero), a.im.product(zero), zero);
    // opposites
    reals(rr.negative(), ii.negative(), zero);
    lemma_opposites(rr, ii.negative());
    lemma_opposites(ri, ir);
    lemma_opposites(ii, zero);
    // in the mirror
    lemma_spread(a.im, b.im, zero);
    lemma_spread(a.re, b.im, zero);
}

proof fn lemma_complex_grouping<T: Scalar>(a: Cx<T>, b: Cx<T>, c: Cx<T>)
    requires
        exact_reals::<T>(),
    ensures
        a.product(b).product(c) == a.product(b.product(c)),
{
    let (ab, bc) = (a.product(b), b.product(c));
    let (rr, ii) = (a.re.product(b.re), a.im.product(b.im));
    let (ri, ir) = (a.re.product(b.im), a.im.product(b.re));
    let (xx, yy) = (b.re.product(c.re), b.im.product(c.im));
    let (xy, yx) = (b.re.product(c.im), b.im.product(c.re));
    // (rr - ii).c and (ri + ir).c, a.(xx - yy) and a.(xy + yx)
    lemma_spread(rr, ii, c.re);
    lemma_spread(rr, ii, c.im);
    lemma_spread(ri, ir, c.re);
    lemma_spread(ri, ir, c.im);
    lemma_spread(xx, yy, a.re);
    lemma_spread(xx, yy, a.im);
    reals(a.re, xy, yx);
    reals(a.im, xy, yx);
    reals(a.re, b.re, c.re);
    reals(a.re, b.re, c.im);
    reals(a.re, b.im, c.re);
    reals(a.re, b.im, c.im);
    reals(a.im, b.re, c.re);
    reals(a.im, b.re, c.im);
    reals(a.im, b.im, c.re);
    reals(a.im, b.im, c.im);
    let p = (a.re.product(xx), a.im.product(yx), a.re.product(yy), a.im.product(xy));
    reals(ab.re.product(c.re), ab.im.product(c.im), p.0);
    reals(a.re.product(bc.re), a.im.product(bc.im), p.0);
    lemma_opposites(p.2, p.3);
    lemma_opposites(p.3, p.1);
    lemma_real_partners(p.0, p.1.negative(), p.2.negative(), p.3.negative());
    reals(p.1.negative(), p.3.negative(), p.0);
    assert(ab.product(c).re == a.product(bc).re);
    let q = (a.re.product(xy), a.im.product(yy), a.re.product(yx), a.im.product(xx));
    lemma_real_partners(q.0, q.1.negative(), q.2, q.3);
    reals(q.1.negative(), q.3, q.0);
    assert(ab.product(c).im == a.product(bc).im);
}

proof fn lemma_complex_reals<T: Scalar>(a: Cx<T>, x: T, y: T)
    requires
        exact_reals::<T>(),
    ensures
        a.scaled(x) == a.product(lifted(x)),
        lifted(x).mirrored() == lifted(x),
        upright(x).mirrored() == upright(x).negated(),
        upright(x).product(upright(x)) == lifted(x).product(lifted(x)).negated(),
        lifts(x, y),
{
    let zero = T::zero_value();
    lemma_opposites(zero, zero);
    lemma_opposites(x, zero);
    lemma_opposites(y, zero);
    let xx = x.product(x);
    lemma_opposites(xx.negative(), zero);
    lemma_opposites(a.im.product(x), zero);
    reals(zero, zero, zero);
    reals(a.re, zero, zero);
    reals(a.im, zero, zero);
    reals(x, zero, zero);
    reals(a.re.product(x), a.im.product(zero), zero);
    reals(a.re.product(x), zero, zero);
    reals(zero, xx, zero);
    reals(xx, zero, zero);
    reals(x.product(y), zero, zero);
    reals(zero, y, zero);
}

/// Over a commutative ring of real numbers, the complex numbers are a
/// commutative ring with a conjugation.
pub proof fn complex_numbers_are_exact<T: Scalar>()
    requires
        exact_reals::<T>(),
    ensures
        exact::<T>(),
{
    assert forall|a: Cx<T>, b: Cx<T>, c: Cx<T>, x: T| #[trigger] ring_at(a, b, c, x) by {
        lemma_complex_sums(a, b, c);
        lemma_complex_products(a, b, c);
        lemma_complex_grouping(a, b, c);
        lemma_complex_reals(a, x, x);
    }
    assert forall|x: T, y: T| #[trigger] lifts(x, y) by {
        lemma_complex_reals(lifted(x), x, y);
    }
}

/// What is left of a number by the span of a machine integer.
#[verifier::opaque]
spec fn residue(x: int) -> int {
    x % 0x1_0000_0000_0000_0000
}

/// Wrapped results leave what the whole ones leave.
proof fn lemma_wrapped(a: i64, b: i64)
    ensures
        residue(a.sum(b) as int) == residue(a + b),
        residue(a.difference(b) as int) == residue(a - b),
        residue(a.product(b) as int) == residue(a * b),
        residue(a.negative() as int) == residue(-a),
{
    reveal(residue);
    let x = a * b;
    assert(residue(residue(x)) == residue(x));
    assert(residue(residue(x) - 0x1_0000_0000_0000_0000) == residue(x));
}

/// Machine integers that leave the same are the same.
proof fn lemma_residue_tells(a: i64, b: i64)
    requires
        residue(a as int) == residue(b as int),
    ensures
        a == b,
{
    reveal(residue);
}

proof fn lemma_residue_sum(x: int, y: int, z: int)
    requires
        residue(x) == residue(y),
    ensures
        residue(x + z) == residue(y + z),
        residue(z + x) == residue(z + y),
{
    reveal(residue);
}

proof fn lemma_residue_product(x: int, y: int, z: int)
    requires
        residue(x) == residue(y),
    ensures
        residue(x * z) == residue(y * z),
        residue(z * x) == residue(z * y),
{
    reveal(residue);
    let m: int = 0x1_0000_0000_0000_0000;
    let k = x / m - y / m;
    assert(x == y + m * k);
    assert(x * z == m * (k * z) + y * z) by (nonlinear_arith)
        requires
            x == y + m * k,
    ;
    vstd::arithmetic::div_mod::lemma_mod_multiples_vanish(k * z, y * z, m);
    assert(z * x == x * z && z * y == y * z) by (nonlinear_arith);
}

proof fn lemma_residue_opposite(x: int, y: int)
    requires
        residue(x) == residue(y),
    ensures
        residue(-x) == residue(-y),
{
    reveal(residue);
}

proof fn lemma_integers_add(a: i64, b: i64, c: i64)
    ensures
        a.sum(b) == b.sum(a),
        a.sum(b).sum(c) == a.sum(b.sum(c)),
        a.sum(0) == a,
        a.sum(a.negative()) == 0,
        a.difference(b) == a.sum(b.negative()),
{
    lemma_wrapped(a, b);
    lemma_wrapped(b, a);
    lemma_wrapped(b, c);
    lemma_residue_tells(a.sum(b), b.sum(a));
    // (a + b) + c
    lemma_wrapped(a.sum(b), c);
    lemma_residue_sum(a.sum(b) as int, a + b, c as int);
    lemma_wrapped(a, b.sum(c));
    lemma_residue_sum(b.sum(c) as int, b + c, a as int);
    lemma_residue_tells(a.sum(b).sum(c), a.sum(b.sum(c)));
    // zero and opposites
    lemma_wrapped(a, 0);
    lemma_residue_tells(a.sum(0), a);
    lemma_wrapped(a, a.negative());
    lemma_residue_sum(a.negative() as int, -a, a as int);
    lemma_residue_tells(a.sum(a.negative()), 0);
    lemma_wrapped(a, b.negative());
    lemma_residue_sum(b.negative() as int, -b, a as int);
    lemma_residue_tells(a.difference(b), a.sum(b.negative()));
}

proof fn lemma_integers_multiply(a: i64, b: i64, c: i64)
    ensures
        a.product(b) == b.product(a),
        a.product(b).product(c) == a.product(b.product(c)),
{
    lemma_wrapped(a, b);
    lemma_wrapped(b, a);
    lemma_wrapped(b, c);
    assert(a * b == b * a) by (nonlinear_arith);
    lemma_residue_tells(a.product(b), b.product(a));
    lemma_wrapped(a.product(b), c);
    lemma_residue_product(a.product(b) as int, a * b, c as int);
    lemma_wrapped(a, b.product(c));
    lemma_residue_product(b.product(c) as int, b * c, a as int);
    assert((a * b) * c == a * (b * c)) by (nonlinear_arith);
    lemma_residue_tells(a.product(b).product(c), a.product(b.product(c)));
}

proof fn lemma_integers_spread(a: i64, b: i64, c: i64)
    ensures
        a.product(b.sum(c)) == a.product(b).sum(a.product(c)),
        a.product(1) == a,
        a.product(0) == 0,
        a.negative().product(b) == a.product(b).negative(),
{
    lemma_wrapped(a, b);
    lemma_wrapped(b, c);
    lemma_wrapped(a, c);
    lemma_wrapped(a, b.sum(c));
    lemma_residue_product(b.sum(c) as int, b + c, a as int);
    lemma_wrapped(a.product(b), a.product(c));
    lemma_residue_sum(a.product(b) as int, a * b, a.product(c) as int);
    lemma_residue_sum(a.product(c) as int, a * c, a * b);
    assert(a * (b + c) == a * b + a * c) by (nonlinear_arith);
    lemma_residue_tells(a.product(b.sum(c)), a.product(b).sum(a.product(c)));
    lemma_wrapped(a, 1);
    lemma_wrapped(a, 0);
    assert(a * 1 == a && a * 0 == 0) by (nonlinear_arith);
    lemma_residue_tells(a.product(1), a);
    lemma_residue_tells(a.product(0), 0);
    // (-a).b
    lemma_wrapped(a.negative(), b);
    lemma_residue_product(a.negative() as int, -a, b as int);
    lemma_wrapped(a.product(b), 0);
    assert((-a) * b == -(a * b)) by (nonlinear_arith);
    lemma_residue_opposite(a.product(b) as int, a * b);
    lemma_residue_tells(a.negative().product(b), a.product(b).negative());
}

/// Wrapping integers are a commutative ring, so they compute exactly, and so do
/// the complex numbers over them.
pub proof fn wrapping_integers_are_exact()
    ensures
        exact_reals::<i64>(),
        exact::<i64>(),
{
    assert(i64::of_count(1) == 1);
    assert forall|a: i64, b: i64, c: i64| #[trigger] reals_at(a, b, c) by {
        lemma_integers_add(a, b, c);
        lemma_integers_multiply(a, b, c);
        lemma_integers_spread(a, b, c);
    }
    complex_numbers_are_exact::<i64>();
}

/// Power is the square of a length: a number times its conjugate is its power,
/// and the power of a product is the product of the powers.
pub proof fn power_is_a_squared_length<T: Scalar>(a: Cx<T>, b: Cx<T>)
    requires
        exact_reals::<T>(),
    ensures
        a.mirrored().product(a) == lifted(a.power()),
        a.product(b).power() == a.power().product(b.power()),
{
    lemma_own_mirror(a);
    lemma_own_mirror(b);
    lemma_own_mirror(a.product(b));
    complex_numbers_are_exact::<T>();
    conjugation(a, b, a.re);
    let (m, n) = (a.mirrored(), b.mirrored());
    // (m.n).(a.b) = (m.a).(n.b)
    ring(m, n, a.product(b));
    ring(n, a, b);
    ring(a, n, b);
    ring(m, a, n.product(b));
    assert(lifts(a.power(), b.power()));
}

proof fn lemma_own_mirror<T: Scalar>(a: Cx<T>)
    requires
        exact_reals::<T>(),
    ensures
        a.mirrored().product(a) == lifted(a.power()),
{
    let (x, y) = (a.re, a.im);
    let n = y.negative();
    // x.x - (-y).y, x.y + (-y).x
    reals(y, y, y);
    lemma_opposites(y.product(y), y);
    reals(x.product(x), n.product(y), x);
    reals(y, x, x);
    reals(x, y, x);
    reals(x.product(y), x.product(y), x);
}

/// A number in the direction of a phasor is that many times it: its power is
/// the square of the number times that of the phasor.
pub proof fn polar_scales_its_phasor<T: Scalar>(r: T, s: T, unit: Cx<T>)
    requires
        exact_reals::<T>(),
    ensures
        Cx::polar(r.sum(s), unit) == Cx::polar(r, unit).sum(Cx::polar(s, unit)),
        Cx::polar(T::of_count(1), unit) == unit,
        Cx::polar(r, unit).power() == r.product(r).product(unit.power()),
{
    let (x, y, one) = (unit.re, unit.im, T::of_count(1));
    lemma_spread(r, s, x);
    lemma_spread(r, s, y);
    reals(x, one, one);
    reals(one, x, x);
    reals(y, one, one);
    reals(one, y, y);
    lemma_squares_part(r, x);
    lemma_squares_part(r, y);
    reals(r.product(r), x.product(x), y.product(y));
}

proof fn lemma_squares_part<T: Scalar>(r: T, x: T)
    requires
        exact_reals::<T>(),
    ensures
        r.product(x).product(r.product(x)) == r.product(r).product(x.product(x)),
{
    reals(r, x, r.product(x));
    reals(x, r, x);
    reals(r, x, x);
    reals(r, r, x.product(x));
}

/// A quotient times its divisor is the dividend, where the divisor is not zero.
pub open spec fn divides_at<T: Scalar>(a: T, b: T) -> bool {
    b != T::zero_value() ==> a.quotient(b).product(b) == a
}

/// The scalar is a field: a commutative ring in which everything but zero
/// divides. Residues by a prime are one.
pub open spec fn exact_field<T: Scalar>() -> bool {
    &&& exact_reals::<T>()
    &&& forall|a: T, b: T| #[trigger] divides_at(a, b)
}

/// A quotient times its divisor, in either order.
pub proof fn lemma_quotient<T: Scalar>(a: T, b: T)
    requires
        exact_field::<T>(),
        b != T::zero_value(),
    ensures
        a.quotient(b).product(b) == a,
        b.product(a.quotient(b)) == a,
{
    assert(divides_at(a, b));
    reals(b, a.quotient(b), a);
}

/// A factor that is not zero can be taken off both sides.
pub proof fn lemma_cancel<T: Scalar>(x: T, y: T, b: T)
    requires
        exact_field::<T>(),
        b != T::zero_value(),
        b.product(x) == b.product(y),
    ensures
        x == y,
{
    let one = T::of_count(1);
    let v = one.quotient(b);
    lemma_quotient(one, b);
    reals(v, b, x);
    reals(v, b, y);
    reals(x, one, x);
    reals(one, x, x);
    reals(y, one, x);
    reals(one, y, x);
}

/// What times the divisor is the dividend is the quotient.
pub proof fn lemma_is_quotient<T: Scalar>(q: T, a: T, b: T)
    requires
        exact_field::<T>(),
        b != T::zero_value(),
        q.product(b) == a,
    ensures
        q == a.quotient(b),
{
    lemma_quotient(a, b);
    reals(q, b, a);
    lemma_cancel(q, a.quotient(b), b);
}

/// Quotients of one divisor add up, and factors move into the dividend.
pub proof fn lemma_quotients<T: Scalar>(a: T, c: T, b: T)
    requires
        exact_field::<T>(),
        b != T::zero_value(),
    ensures
        a.sum(c).quotient(b) == a.quotient(b).sum(c.quotient(b)),
        c.product(a).quotient(b) == c.product(a.quotient(b)),
        a.negative().quotient(b) == a.quotient(b).negative(),
        T::zero_value().quotient(b) == T::zero_value(),
{
    let (p, q) = (a.quotient(b), c.quotient(b));
    lemma_quotient(a, b);
    lemma_quotient(c, b);
    lemma_spread(p, q, b);
    lemma_is_quotient(p.sum(q), a.sum(c), b);
    reals(c, p, b);
    lemma_is_quotient(c.product(p), c.product(a), b);
    reals(p, b, a);
    lemma_is_quotient(p.negative(), a.negative(), b);
    lemma_opposites(b, b);
    lemma_is_quotient(T::zero_value(), T::zero_value(), b);
}

/// Counts add up as numbers do.
pub open spec fn counts_at<T: Scalar>(m: u64, n: u64) -> bool {
    m + n <= u64::MAX ==> T::of_count((m + n) as u64) == T::of_count(m).sum(T::of_count(n))
}

/// The scalar is a commutative ring and holds whole numbers of events.
pub open spec fn exact_counts<T: Scalar>() -> bool {
    &&& exact_reals::<T>()
    &&& T::of_count(0) == T::zero_value()
    &&& forall|m: u64, n: u64| #[trigger] counts_at::<T>(m, n)
}

/// Counts multiply as numbers do.
pub proof fn lemma_count_product<T: Scalar>(m: u64, n: u64)
    requires
        exact_counts::<T>(),
        m * n <= u64::MAX,
    ensures
        T::of_count((m * n) as u64) == T::of_count(m).product(T::of_count(n)),
    decreases n,
{
    let x = T::of_count(m);
    if n == 0 {
        assert(m * n == 0) by (nonlinear_arith)
            requires
                n == 0,
        ;
        reals(x, x, x);
    } else {
        let k = (n - 1) as u64;
        assert(m * n == m * k + m) by (nonlinear_arith)
            requires
                n == k + 1,
        ;
        lemma_count_product::<T>(m, k);
        assert(counts_at::<T>((m * k) as u64, m));
        assert(counts_at::<T>(k, 1));
        reals(x, T::of_count(k), T::of_count(1));
    }
}

/// Wrapping integers hold whole numbers of events.
pub proof fn wrapping_integers_count()
    ensures
        exact_counts::<i64>(),
{
    wrapping_integers_are_exact();
    assert(i64::of_count(0) == 0);
    assert forall|m: u64, n: u64| #[trigger] counts_at::<i64>(m, n) by {
        if m + n <= u64::MAX {
            let k = (m + n) as u64;
            lemma_wrapped(i64::of_count(m), i64::of_count(n));
            lemma_truncated(m);
            lemma_truncated(n);
            lemma_truncated(k);
            lemma_residue_sum(i64::of_count(m) as int, m as int, i64::of_count(n) as int);
            lemma_residue_sum(i64::of_count(n) as int, n as int, m as int);
            lemma_residue_tells(i64::of_count(k), i64::of_count(m).sum(i64::of_count(n)));
        }
    }
}

proof fn lemma_truncated(n: u64)
    ensures
        residue(i64::of_count(n) as int) == residue(n as int),
{
    reveal(residue);
    let x = n as i64;
    assert(n < 0x8000_0000_0000_0000u64 ==> x == n) by (bit_vector)
        requires
            x == n as i64,
    ;
    assert(n >= 0x8000_0000_0000_0000u64 ==> x == n - 0x1_0000_0000_0000_0000) by (bit_vector)
        requires
            x == n as i64,
    ;
}

/// Order and signs, at three numbers: the order is total, and sums, products
/// and quotients follow it.
pub open spec fn follows_at<T: Scalar>(a: T, b: T, c: T) -> bool {
    let zero = T::zero_value();
    &&& a.less_than(b) == !a.at_least(b)
    &&& a.at_least(a)
    &&& a.at_least(b) || b.at_least(a)
    &&& a.at_least(b) && b.at_least(c) ==> a.at_least(c)
    &&& a.at_least(b) ==> a.sum(c).at_least(b.sum(c))
    &&& a.at_least(b) ==> c.sum(a).at_least(c.sum(b))
    &&& a.at_least(b) ==> a.difference(c).at_least(b.difference(c))
    &&& a.at_least(b) ==> c.difference(b).at_least(c.difference(a))
    &&& a.at_least(b) ==> b.negative().at_least(a.negative())
    &&& a.at_least(b) && c.at_least(zero) ==> a.product(c).at_least(b.product(c))
    &&& a.at_least(b) && c.at_least(zero) ==> c.product(a).at_least(c.product(b))
    &&& a.at_least(b) && zero.at_least(c) ==> c.product(b).at_least(c.product(a))
    &&& a.at_least(b) && zero.less_than(c) ==> a.quotient(c).at_least(b.quotient(c))
    &&& zero.negative() == zero
    &&& zero.product(a) == zero
    &&& a.product(zero) == zero
    &&& a.sum(zero) == a
    &&& zero.less_than(a) ==> zero.quotient(a) == zero
}

/// The scalar keeps order: what is larger stays so, or becomes equal, under
/// sums, products and quotients. Rounding and saturation do that too.
pub open spec fn monotone<T: Scalar>() -> bool {
    forall|a: T, b: T, c: T| #[trigger] follows_at(a, b, c)
}

pub proof fn follows<T: Scalar>(a: T, b: T, c: T)
    requires
        monotone::<T>(),
    ensures
        follows_at(a, b, c),
{
}

/// Signs of products and quotients.
pub proof fn lemma_signs_of<T: Scalar>(a: T, b: T)
    requires
        monotone::<T>(),
    ensures
        ({
            let zero = T::zero_value();
            &&& a.at_least(zero) && b.at_least(zero) ==> a.product(b).at_least(zero)
            &&& zero.at_least(a) && b.at_least(zero) ==> zero.at_least(a.product(b))
            &&& a.at_least(zero) ==> zero.at_least(a.negative())
            &&& a.at_least(zero) && zero.less_than(b) ==> a.quotient(b).at_least(zero)
            &&& zero.at_least(a) && zero.less_than(b) ==> zero.at_least(a.quotient(b))
        }),
{
    let zero = T::zero_value();
    follows(a, zero, b);
    follows(zero, a, b);
    follows(b, a, a);
}

} // verus!
