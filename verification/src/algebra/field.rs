//! The capability set every finite field offers to the protocol.
use vstd::prelude::*;

pub mod ft255;
pub mod mersenne61_ext;

verus! {

/// The operations of a finite field with a two-adic root of unity.
///
/// The arithmetic is described by the spec operations `plus`, `minus`,
/// `times` and `inv`, which are total on the representation type. Each
/// executable operation returns exactly what its spec operation names.
pub trait FieldOps: Sized + Copy {
    /// Whether the value is the unique representative of its residue.
    spec fn canonical(self) -> bool;

    /// The additive neutral element.
    spec fn zero() -> Self;

    /// The multiplicative neutral element.
    spec fn one() -> Self;

    /// Field addition.
    spec fn plus(self, rhs: Self) -> Self;

    /// Field subtraction.
    spec fn minus(self, rhs: Self) -> Self;

    /// Field multiplication.
    spec fn times(self, rhs: Self) -> Self;

    /// What `inverse` computes. No law says that it inverts: a coset
    /// checks the inverses that it keeps.
    spec fn inv(self) -> Self;

    /// The image of an unsigned integer in the field.
    spec fn embed(x: u64) -> Self;

    /// The inverse of two.
    spec fn half() -> Self;

    /// Base-two logarithm of the order of `unity_root`.
    spec fn log_order() -> nat;

    /// A root of unity of order `2^log_order()`.
    spec fn unity_root() -> Self;

    /// The byte encoding that is hashed into Merkle leaves.
    spec fn encoding(self) -> Seq<u8>;

    /// The name of the field.
    spec fn name() -> Seq<char>;

    /// Executable `name`.
    fn field_name() -> (name: &'static str)
        ensures
            name@ == Self::name(),
    ;

    /// Executable `log_order`.
    fn log_order_value() -> (k: usize)
        ensures
            k == Self::log_order(),
    ;

    /// Executable `unity_root`.
    fn root_of_unity() -> (r: Self)
        ensures
            r == Self::unity_root(),
    ;

    /// Executable `half`.
    fn inverse_2() -> (r: Self)
        ensures
            r == Self::half(),
    ;

    /// Executable `embed`.
    fn from_int(x: u64) -> (r: Self)
        ensures
            r == Self::embed(x),
    ;

    /// Tells whether the element is the additive neutral element.
    fn is_zero(&self) -> (b: bool)
        ensures
            b == (*self == Self::zero()),
    ;

    /// Draws an element at random. Only canonicity is known of it.
    fn random_element() -> (r: Self)
        ensures
            r.canonical(),
    ;

    /// Executable `inv`.
    fn inverse(&self) -> (r: Self)
        requires
            *self != Self::zero(),
        ensures
            r == self.inv(),
    ;

    /// Executable `encoding`.
    fn to_bytes(&self) -> (b: Vec<u8>)
        ensures
            b@ == self.encoding(),
    ;

    /// Executable `plus`.
    fn add(self, rhs: Self) -> (r: Self)
        ensures
            r == self.plus(rhs),
    ;

    /// Executable `minus`.
    fn sub(self, rhs: Self) -> (r: Self)
        ensures
            r == self.minus(rhs),
    ;

    /// Executable `times`.
    fn mul(self, rhs: Self) -> (r: Self)
        ensures
            r == self.times(rhs),
    ;

    /// Decides equality of two elements.
    fn equals(&self, rhs: &Self) -> (b: bool)
        ensures
            b == (*self == *rhs),
    ;

    /// The value itself. Every value that a program holds is canonical,
    /// and this is where a proof learns it.
    fn reduced(self) -> (r: Self)
        ensures
            r == self,
            r.canonical(),
    ;

}

/// `x` squared `k` times in a row: `x^(2^k)`.
pub open spec fn square_times<T: FieldOps>(x: T, k: nat) -> T
    decreases k,
{
    if k == 0 {
        x
    } else {
        square_times(x.times(x), (k - 1) as nat)
    }
}

/// `x` raised to the power `n`.
pub open spec fn power<T: FieldOps>(x: T, n: nat) -> T
    decreases n,
{
    if n == 0 {
        T::one()
    } else {
        x.times(power(x, (n - 1) as nat))
    }
}

/// A finite field: the operations together with the laws they obey.
///
/// The proof functions state the commutative ring laws that the protocol
/// relies on. The neutral-element laws hold of `canonical` values, and
/// every operation returns a canonical value.
pub trait Field: FieldOps {
    /// Every operation returns a canonical value.
    proof fn lemma_closed(a: Self, b: Self, x: u64)
        ensures
            Self::zero().canonical(),
            Self::one().canonical(),
            Self::half().canonical(),
            Self::unity_root().canonical(),
            Self::embed(x).canonical(),
            a.plus(b).canonical(),
            a.minus(b).canonical(),
            a.times(b).canonical(),
            a.inv().canonical(),
    ;

    /// Addition and multiplication are commutative.
    proof fn lemma_commutative(a: Self, b: Self)
        ensures
            a.plus(b) == b.plus(a),
            a.times(b) == b.times(a),
    ;

    /// Addition and multiplication are associative.
    proof fn lemma_associative(a: Self, b: Self, c: Self)
        ensures
            a.plus(b).plus(c) == a.plus(b.plus(c)),
            a.times(b).times(c) == a.times(b.times(c)),
    ;

    /// Multiplication distributes over addition and subtraction.
    proof fn lemma_distributive(a: Self, b: Self, c: Self)
        ensures
            a.times(b.plus(c)) == a.times(b).plus(a.times(c)),
            a.times(b.minus(c)) == a.times(b).minus(a.times(c)),
    ;

    /// Zero and one are neutral on canonical values, and zero annihilates.
    proof fn lemma_neutral(a: Self)
        requires
            a.canonical(),
        ensures
            a.plus(Self::zero()) == a,
            a.times(Self::one()) == a,
            a.times(Self::zero()) == Self::zero(),
            a.minus(Self::zero()) == a,
            a.minus(a) == Self::zero(),
    ;

    /// Subtracting is adding the negation, and a value and its negation
    /// add up to zero.
    proof fn lemma_negation(a: Self, b: Self)
        ensures
            a.minus(b) == a.plus(Self::zero().minus(b)),
            a.plus(Self::zero().minus(a)) == Self::zero(),
    ;

    /// Subtraction undoes addition.
    proof fn lemma_minus_plus(a: Self, b: Self)
        requires
            a.canonical(),
        ensures
            a.minus(b).plus(b) == a,
            a.plus(b).minus(b) == a,
    ;

    /// The encodings of all elements have the same length, and different
    /// elements have different encodings.
    proof fn lemma_encoding(a: Self, b: Self)
        ensures
            a.encoding().len() == b.encoding().len(),
            a.encoding() == b.encoding() ==> a == b,
    ;

    /// Squaring the root of unity `log_order()` times gives one, and
    /// squaring it once less gives minus one.
    proof fn lemma_unity_root()
        ensures
            Self::log_order() >= 1,
            square_times(Self::unity_root(), Self::log_order()) == Self::one(),
            square_times(Self::unity_root(), (Self::log_order() - 1) as nat)
                == Self::zero().minus(Self::one()),
    ;

    /// The integers zero, one and two land where they should.
    proof fn lemma_embed()
        ensures
            Self::zero() != Self::one(),
            Self::embed(0) == Self::zero(),
            Self::embed(1) == Self::one(),
            Self::embed(2) == Self::one().plus(Self::one()),
            Self::half().times(Self::embed(2)) == Self::one(),
    ;
}

/// Multiplying `a * w^i` by `w` gives `a * w^(i+1)`.
pub proof fn lemma_power_step<T: Field>(a: T, w: T, i: nat)
    ensures
        a.times(power(w, i)).times(w) == a.times(power(w, i + 1)),
{
    T::lemma_associative(a, power(w, i), w);
    T::lemma_commutative(power(w, i), w);
}

/// Every power is canonical.
pub proof fn lemma_power_canonical<T: Field>(x: T, n: nat)
    ensures
        power(x, n).canonical(),
{
    T::lemma_closed(x, power(x, (n - 1) as nat), 0);
}

/// Every repeated square of a canonical value is canonical.
pub proof fn lemma_square_times_canonical<T: Field>(x: T, k: nat)
    requires
        x.canonical(),
    ensures
        square_times(x, k).canonical(),
    decreases k,
{
    if k > 0 {
        T::lemma_closed(x, x, 0);
        lemma_square_times_canonical(x.times(x), (k - 1) as nat);
    }
}

/// Squaring `j` times and then `k` times is squaring `j + k` times.
pub proof fn lemma_square_times_adds<T: Field>(x: T, j: nat, k: nat)
    ensures
        square_times(square_times(x, j), k) == square_times(x, j + k),
    decreases j,
{
    if j > 0 {
        lemma_square_times_adds(x.times(x), (j - 1) as nat, k);
    }
}

/// Exponents add when powers are multiplied.
pub proof fn lemma_power_adds<T: Field>(x: T, a: nat, b: nat)
    ensures
        power(x, a + b) == power(x, a).times(power(x, b)),
    decreases a,
{
    if a == 0 {
        lemma_power_canonical(x, b);
        T::lemma_neutral(power(x, b));
        T::lemma_commutative(T::one(), power(x, b));
    } else {
        lemma_power_adds(x, (a - 1) as nat, b);
        T::lemma_associative(x, power(x, (a - 1) as nat), power(x, b));
    }
}

/// Squaring `k` times raises to the power `2^k`.
pub proof fn lemma_square_times_is_power<T: Field>(x: T, k: nat)
    requires
        x.canonical(),
    ensures
        square_times(x, k) == power(x, crate::power_of_two::exp2(k)),
    decreases k,
{
    if k == 0 {
        reveal_with_fuel(power, 2);
        T::lemma_neutral(x);
    } else {
        let half = crate::power_of_two::exp2((k - 1) as nat);
        T::lemma_closed(x, x, 0);
        lemma_square_times_is_power(x.times(x), (k - 1) as nat);
        lemma_power_of_square(x, half);
        lemma_power_adds(x, half, half);
    }
}

/// A sum of four terms with the middle two exchanged.
pub proof fn lemma_exchange_middle<T: Field>(a: T, b: T, c: T, d: T)
    ensures
        a.plus(b).plus(c.plus(d)) == a.plus(c).plus(b.plus(d)),
{
    T::lemma_associative(a, b, c.plus(d));
    T::lemma_associative(b, c, d);
    T::lemma_commutative(b, c);
    T::lemma_associative(c, b, d);
    T::lemma_associative(a, c, b.plus(d));
}

/// Multiplying by minus one negates.
pub proof fn lemma_times_minus_one<T: Field>(a: T)
    requires
        a.canonical(),
    ensures
        a.times(T::zero().minus(T::one())) == T::zero().minus(a),
{
    T::lemma_distributive(a, T::zero(), T::one());
    T::lemma_neutral(a);
}

/// The sum of `a + b` and `a - b` is `a + a`, and their difference is
/// `b + b`.
pub proof fn lemma_sum_and_difference<T: Field>(a: T, b: T)
    ensures
        a.plus(b).plus(a.plus(T::zero().minus(b))) == a.plus(a),
        a.plus(b).minus(a.plus(T::zero().minus(b))) == b.plus(b),
{
    let nb = T::zero().minus(b);
    T::lemma_closed(a, a, 0);
    T::lemma_closed(b, b, 0);
    T::lemma_closed(a, b, 0);
    T::lemma_closed(b, a, 0);
    // (a + b) + (a + nb) = (a + a) + (b + nb) = a + a
    lemma_exchange_middle(a, b, a, nb);
    T::lemma_negation(b, b);
    T::lemma_neutral(a.plus(a));
    // (b + b) + (a + nb) = (b + a) + (b + nb) = a + b
    lemma_exchange_middle(b, b, a, nb);
    T::lemma_commutative(b, a);
    T::lemma_neutral(a.plus(b));
    T::lemma_minus_plus(b.plus(b), a.plus(nb));
}

/// Half of `a + a` is `a`.
pub proof fn lemma_double_half<T: Field>(a: T)
    requires
        a.canonical(),
    ensures
        a.plus(a).times(T::half()) == a,
{
    T::lemma_embed();
    T::lemma_neutral(a);
    T::lemma_distributive(a, T::one(), T::one());
    T::lemma_associative(a, T::embed(2), T::half());
    T::lemma_commutative(T::embed(2), T::half());
}

/// If `b` inverts `a`, the repeated squares of `b` invert those of `a`.
pub proof fn lemma_square_times_inverse<T: Field>(a: T, b: T, k: nat)
    requires
        a.times(b) == T::one(),
    ensures
        square_times(a, k).times(square_times(b, k)) == T::one(),
    decreases k,
{
    if k > 0 {
        lemma_square_of_product(a, b);
        T::lemma_closed(a, b, 0);
        T::lemma_neutral(T::one());
        lemma_square_times_inverse(a.times(a), b.times(b), (k - 1) as nat);
    }
}

/// The square of a product is the product of the squares.
pub proof fn lemma_square_of_product<T: Field>(a: T, b: T)
    ensures
        a.times(b).times(a.times(b)) == a.times(a).times(b.times(b)),
{
    T::lemma_associative(a, b, a.times(b));
    T::lemma_associative(b, a, b);
    T::lemma_commutative(b, a);
    T::lemma_associative(a, b, b);
    T::lemma_associative(a, a, b.times(b));
}

/// A power of a square is the square of the power.
pub proof fn lemma_power_of_square<T: Field>(w: T, i: nat)
    ensures
        power(w.times(w), i) == power(w, i).times(power(w, i)),
    decreases i,
{
    if i == 0 {
        T::lemma_closed(w, w, 0);
        T::lemma_neutral(T::one());
    } else {
        lemma_power_of_square(w, (i - 1) as nat);
        lemma_square_of_product(w, power(w, (i - 1) as nat));
    }
}

} // verus!
