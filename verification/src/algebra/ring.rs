//! Consequences of the field laws that the proofs of the protocols
//! use.
use vstd::prelude::*;
use super::field::{lemma_exchange_middle, lemma_square_of_product, Field, FieldOps};

verus! {

/// The negation of `a`.
pub open spec fn negated<T: FieldOps>(a: T) -> T {
    T::zero().minus(a)
}

/// A value that added to `x` gives zero is the negation of `x`.
pub proof fn lemma_negation_is_unique<T: Field>(x: T, y: T)
    requires
        y.canonical(),
        x.plus(y) == T::zero(),
    ensures
        y == negated(x),
{
    let nx = negated(x);
    T::lemma_negation(x, x);
    T::lemma_closed(T::zero(), x, 0);
    // y = y + (x + nx) = (y + x) + nx = nx
    T::lemma_neutral(y);
    T::lemma_associative(y, x, nx);
    T::lemma_commutative(y, x);
    T::lemma_commutative(T::zero(), nx);
    T::lemma_neutral(nx);
}

/// The negation of a sum is the sum of the negations.
pub proof fn lemma_negated_sum<T: Field>(a: T, b: T)
    ensures
        negated(a.plus(b)) == negated(a).plus(negated(b)),
{
    let (na, nb) = (negated(a), negated(b));
    T::lemma_negation(a, a);
    T::lemma_negation(b, b);
    lemma_exchange_middle(a, b, na, nb);
    T::lemma_closed(T::zero(), T::zero(), 0);
    T::lemma_neutral(T::zero());
    T::lemma_closed(na, nb, 0);
    lemma_negation_is_unique(a.plus(b), na.plus(nb));
}

/// A product with zero is zero.
pub proof fn lemma_times_zero<T: Field>(a: T)
    ensures
        a.times(T::zero()) == T::zero(),
        T::zero().times(a) == T::zero(),
{
    let z = a.times(T::zero());
    // z + z = a (0 + 0) = z, so z = (z + z) - z = z - z = 0
    T::lemma_distributive(a, T::zero(), T::zero());
    T::lemma_closed(T::zero(), T::zero(), 0);
    T::lemma_neutral(T::zero());
    T::lemma_closed(a, T::zero(), 0);
    T::lemma_neutral(z);
    T::lemma_minus_plus(z, z);
    T::lemma_commutative(a, T::zero());
}

/// Multiplication distributes from the right.
pub proof fn lemma_right_distributive<T: Field>(a: T, b: T, c: T)
    ensures
        a.plus(b).times(c) == a.times(c).plus(b.times(c)),
        a.minus(b).times(c) == a.times(c).minus(b.times(c)),
{
    T::lemma_commutative(a.plus(b), c);
    T::lemma_commutative(a.minus(b), c);
    T::lemma_distributive(c, a, b);
    T::lemma_commutative(c, a);
    T::lemma_commutative(c, b);
}

/// The product of two sums: `(a + c)(b + d) = ab + (ad + cb) + cd`.
pub proof fn lemma_product_of_sums<T: Field>(a: T, c: T, b: T, d: T)
    ensures
        a.plus(c).times(b.plus(d)) == a.times(b).plus(a.times(d).plus(c.times(b))).plus(
            c.times(d),
        ),
{
    lemma_right_distributive(a, c, b.plus(d));
    T::lemma_distributive(a, b, d);
    T::lemma_distributive(c, b, d);
    // (ab + ad) + (cb + cd) = (ab + (ad + cb)) + cd
    T::lemma_associative(a.times(b).plus(a.times(d)), c.times(b), c.times(d));
    T::lemma_associative(a.times(b), a.times(d), c.times(b));
}

/// A factor moves out of a product.
pub proof fn lemma_factor_out<T: Field>(r: T, a: T, b: T)
    ensures
        a.times(r.times(b)) == r.times(a.times(b)),
        r.times(a).times(b) == r.times(a.times(b)),
        r.times(a).times(r.times(b)) == r.times(r).times(a.times(b)),
{
    T::lemma_associative(a, r, b);
    T::lemma_commutative(a, r);
    T::lemma_associative(r, a, b);
    lemma_square_of_product(r, a);
    T::lemma_associative(r, a, r.times(b));
    T::lemma_associative(r, r, a.times(b));
}

/// The product of two lines: `(a + r c)(b + r d) = ab + r (ad + cb) +
/// (r r)(cd)`.
pub proof fn lemma_product_of_lines<T: Field>(a: T, c: T, b: T, d: T, r: T)
    ensures
        a.plus(r.times(c)).times(b.plus(r.times(d))) == a.times(b).plus(
            r.times(a.times(d).plus(c.times(b))),
        ).plus(r.times(r).times(c.times(d))),
{
    lemma_product_of_sums(a, r.times(c), b, r.times(d));
    lemma_factor_out(r, a, d);
    lemma_factor_out(r, c, b);
    lemma_factor_out(r, c, d);
    T::lemma_distributive(r, a.times(d), c.times(b));
}

/// The line through `a` at zero and `b` at one, at `r`:
/// `a (1 - r) + b r = a + r (b - a)`.
pub proof fn lemma_line<T: Field>(a: T, b: T, r: T)
    requires
        a.canonical(),
    ensures
        a.times(T::one().minus(r)).plus(b.times(r)) == a.plus(r.times(b.minus(a))),
{
    let one = T::one();
    // a (1 - r) = a - a r
    T::lemma_distributive(a, one, r);
    T::lemma_neutral(a);
    // r (b - a) = r b - r a
    T::lemma_distributive(r, b, a);
    T::lemma_commutative(r, b);
    T::lemma_commutative(r, a);
    let (ar, br) = (a.times(r), b.times(r));
    // (a - ar) + br = a + (br - ar)
    T::lemma_negation(a, ar);
    T::lemma_negation(br, ar);
    T::lemma_associative(a, negated(ar), br);
    T::lemma_commutative(negated(ar), br);
}

/// The doubled sum is the sum of the doubles.
pub proof fn lemma_double_sum<T: Field>(a: T, b: T)
    ensures
        a.plus(b).plus(a.plus(b)) == a.plus(a).plus(b.plus(b)),
{
    lemma_exchange_middle(a, b, a, b);
}

/// The value extrapolated to two: `b + b - a = a + 2 (b - a)`.
pub proof fn lemma_extrapolated<T: Field>(a: T, b: T)
    requires
        a.canonical(),
        b.canonical(),
    ensures
        b.plus(b).minus(a) == a.plus(b.minus(a).plus(b.minus(a))),
        b == a.plus(b.minus(a)),
{
    let c = b.minus(a);
    T::lemma_closed(b, a, 0);
    T::lemma_minus_plus(b, a);
    T::lemma_commutative(c, a);
    // b + b = (a + c) + (a + c) = (a + a) + (c + c) = (a + (c + c)) + a
    lemma_double_sum(a, c);
    T::lemma_associative(a, a, c.plus(c));
    T::lemma_commutative(a, c.plus(c));
    T::lemma_associative(a, c.plus(c), a);
    T::lemma_closed(a, c.plus(c), 0);
    T::lemma_minus_plus(a.plus(c.plus(c)), a);
}

/// The difference of two sums is the sum of the differences.
pub proof fn lemma_difference_of_sums<T: Field>(a: T, b: T, c: T, d: T)
    ensures
        a.plus(b).minus(c.plus(d)) == a.minus(c).plus(b.minus(d)),
{
    T::lemma_negation(a.plus(b), c.plus(d));
    T::lemma_negation(a, c);
    T::lemma_negation(b, d);
    lemma_negated_sum(c, d);
    lemma_exchange_middle(a, b, negated(c), negated(d));
}

} // verus!
