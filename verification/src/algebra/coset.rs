//! Multiplicative cosets of two-power size, the evaluation domains of
//! the code.
use vstd::prelude::*;
use super::field::{
    lemma_power_of_square, lemma_power_step, lemma_square_of_product, lemma_square_times_adds,
    lemma_power_adds, lemma_power_canonical, lemma_square_times_inverse,
    lemma_square_times_is_power,
    lemma_square_times_canonical, power, square_times, Field, FieldOps,
};
use super::polynomial::{evens, odds};
use crate::power_of_two::{exp2, is_power_of_two, lemma_exp2_increases, lemma_log2_between, log2};

verus! {

/// The value at `x` of the polynomial with the coefficients `c`, lowest
/// degree first.
pub open spec fn horner<T: FieldOps>(c: Seq<T>, x: T) -> T
    decreases c.len(),
{
    if c.len() == 0 {
        T::zero()
    } else if c.len() == 1 {
        c[0]
    } else {
        c[0].plus(x.times(horner(c.drop_first(), x)))
    }
}

/// A polynomial's value at `x` is the value of its even part at `x^2`
/// plus `x` times the value of its odd part at `x^2`.
pub proof fn lemma_horner_split<T: Field>(c: Seq<T>, x: T)
    requires
        c.len() >= 2,
        c.len() % 2 == 0,
    ensures
        horner(c, x) == horner(evens(c), x.times(x)).plus(
            x.times(horner(odds(c), x.times(x))),
        ),
    decreases c.len(),
{
    let y = x.times(x);
    let tail = c.drop_first();
    if c.len() == 2 {
        assert(horner(tail, x) == c[1]);
        assert(evens(c)[0] == c[0]);
        assert(odds(c)[0] == c[1]);
    } else {
        let rest = tail.drop_first();
        let even_rest = horner(evens(rest), y);
        let odd_rest = horner(odds(rest), y);
        lemma_horner_split(rest, x);
        assert(evens(c).drop_first() =~= evens(rest));
        assert(odds(c).drop_first() =~= odds(rest));
        assert(evens(c)[0] == c[0]);
        assert(odds(c)[0] == c[1]);
        assert(tail[0] == c[1]);
        assert(horner(tail, x) == c[1].plus(x.times(horner(rest, x))));
        assert(horner(evens(c), y) == c[0].plus(y.times(even_rest)));
        assert(horner(odds(c), y) == c[1].plus(y.times(odd_rest)));
        // x (c1 + x (E + x O)) = x c1 + (y E + x (y O))
        T::lemma_distributive(x, c[1], x.times(horner(rest, x)));
        T::lemma_associative(x, x, horner(rest, x));
        T::lemma_distributive(y, even_rest, x.times(odd_rest));
        T::lemma_associative(y, x, odd_rest);
        T::lemma_commutative(y, x);
        T::lemma_associative(x, y, odd_rest);
        // x (c1 + y O) = x c1 + x (y O)
        T::lemma_distributive(x, c[1], y.times(odd_rest));
        let a = y.times(even_rest);
        let b = x.times(c[1]);
        let d = x.times(y.times(odd_rest));
        T::lemma_associative(c[0], a, b.plus(d));
        T::lemma_associative(a, b, d);
        T::lemma_commutative(a, b);
        T::lemma_associative(b, a, d);
    }
}

/// The coset `shift * <generator>` of size `2^k`, with the table of the
/// inverses of its elements.
pub struct Coset<T: Field> {
    log_size: usize,
    shift: T,
    generator: T,
    shift_inverse: T,
    generator_inverse: T,
    elements_inv: Vec<T>,
}

impl<T: Field> Coset<T> {
    /// The number of elements.
    pub closed spec fn spec_size(&self) -> nat {
        self.elements_inv@.len()
    }

    /// The element that the coset starts from.
    pub closed spec fn shift(&self) -> T {
        self.shift
    }

    /// The generator of the subgroup.
    pub closed spec fn generator(&self) -> T {
        self.generator
    }

    /// The inverse of the shift, as the field computed it.
    pub closed spec fn shift_inverse(&self) -> T {
        self.shift_inverse
    }

    /// The inverse of the generator, as the field computed it.
    pub closed spec fn generator_inverse(&self) -> T {
        self.generator_inverse
    }

    /// The `i`-th element, `shift * generator^i`.
    pub open spec fn element(&self, i: nat) -> T {
        self.shift().times(power(self.generator(), i))
    }

    /// The inverse of the `i`-th element, `shift^-1 * (generator^-1)^i`.
    pub open spec fn element_inv(&self, i: nat) -> T {
        self.shift_inverse().times(power(self.generator_inverse(), i))
    }

    /// The values of the polynomial with the coefficients `coeffs` on
    /// the elements of the coset, in order.
    pub open spec fn evaluations(&self, coeffs: Seq<T>) -> Seq<T> {
        Seq::new(self.spec_size(), |i: int| horner(coeffs, self.element(i as nat)))
    }

    /// Whether this coset holds the `index`-th powers of the elements of
    /// `base`, for a two-power `index`: shift, generator and their
    /// inverses are those of `base` squared once for each factor of two
    /// in `index`, and the size is that of `base` divided by `index`.
    pub open spec fn is_power(&self, base: &Self, index: nat) -> bool {
        &&& self.spec_size() == base.spec_size() / index
        &&& self.shift() == square_times(base.shift(), log2(index))
        &&& self.generator() == square_times(base.generator(), log2(index))
        &&& self.shift_inverse() == square_times(base.shift_inverse(), log2(index))
        &&& self.generator_inverse() == square_times(base.generator_inverse(), log2(index))
    }

    /// Squaring a coset halves its size and squares every element and
    /// every inverse: the `i`-th element of the square is the square of
    /// the `i`-th element.
    pub proof fn lemma_square(&self, base: &Self, i: nat)
        requires
            self.is_power(base, 2),
        ensures
            self.spec_size() == base.spec_size() / 2,
            self.element(i) == base.element(i).times(base.element(i)),
            self.element_inv(i) == base.element_inv(i).times(base.element_inv(i)),
    {
        reveal_with_fuel(log2, 2);
        reveal_with_fuel(square_times, 2);
        lemma_power_of_square(base.generator(), i);
        lemma_square_of_product(base.shift(), power(base.generator(), i));
        lemma_power_of_square(base.generator_inverse(), i);
        lemma_square_of_product(base.shift_inverse(), power(base.generator_inverse(), i));
    }

    /// The size is a power of two, the generator has that order, the
    /// inverses of shift and generator do invert them, and the table is
    /// built from them.
    pub closed spec fn wf(&self) -> bool {
        &&& self.elements_inv@.len() == exp2(self.log_size as nat)
        &&& self.elements_inv@.len() <= usize::MAX
        &&& self.shift.canonical()
        &&& self.generator.canonical()
        &&& self.shift_inverse.canonical()
        &&& self.generator_inverse.canonical()
        &&& square_times(self.generator, self.log_size as nat) == T::one()
        &&& self.log_size >= 1 ==> square_times(self.generator, (self.log_size - 1) as nat)
            == T::zero().minus(T::one())
        &&& self.shift.times(self.shift_inverse) == T::one()
        &&& self.generator.times(self.generator_inverse) == T::one()
        &&& forall|i: int|
            0 <= i < self.elements_inv@.len() ==> #[trigger] self.elements_inv@[i]
                == self.shift_inverse.times(power(self.generator_inverse, i as nat))
    }

    /// A well-formed coset has a two-power size, and squaring its
    /// generator once for each factor of two gives one.
    pub proof fn lemma_wf(&self)
        requires
            self.wf(),
        ensures
            is_power_of_two(self.spec_size()),
            self.spec_size() >= 1,
            self.spec_size() <= usize::MAX,
            square_times(self.generator(), log2(self.spec_size())) == T::one(),
            self.spec_size() >= 2 ==> square_times(
                self.generator(),
                (log2(self.spec_size()) - 1) as nat,
            ) == T::zero().minus(T::one()),
            self.shift().times(self.shift_inverse()) == T::one(),
            self.generator().times(self.generator_inverse()) == T::one(),
            self.shift().canonical(),
            self.generator().canonical(),
            self.shift_inverse().canonical(),
            self.generator_inverse().canonical(),
    {
        crate::power_of_two::lemma_exp2_is_power(self.log_size as nat);
        lemma_exp2_increases(0, self.log_size as nat);
    }

    /// The inverse table inverts: the product of the `i`-th element and
    /// its inverse is one.
    pub proof fn lemma_inverse(&self, i: nat)
        requires
            self.wf(),
        ensures
            self.element(i).times(self.element_inv(i)) == T::one(),
            self.element(i).canonical(),
            self.element_inv(i).canonical(),
        decreases i,
    {
        let s = self.shift;
        let t = self.shift_inverse;
        let w = self.generator;
        let v = self.generator_inverse;
        T::lemma_closed(s, power(w, i), 0);
        T::lemma_closed(t, power(v, i), 0);
        lemma_power_inverse(w, v, i);
        // (s w^i)(t v^i) = (s t)(w^i v^i)
        T::lemma_associative(s, power(w, i), t.times(power(v, i)));
        T::lemma_associative(power(w, i), t, power(v, i));
        T::lemma_commutative(power(w, i), t);
        T::lemma_associative(t, power(w, i), power(v, i));
        T::lemma_associative(s, t, power(w, i).times(power(v, i)));
        T::lemma_embed();
        T::lemma_closed(T::one(), T::one(), 0);
        T::lemma_neutral(T::one());
    }

    /// Half way round the coset lies the negation: the element at
    /// `i + size / 2` is the `i`-th element times minus one, and minus
    /// one squared is one.
    pub proof fn lemma_opposite(&self, i: nat)
        requires
            self.wf(),
            self.spec_size() >= 2,
        ensures
            self.element(i + self.spec_size() / 2) == self.element(i).times(
                T::zero().minus(T::one()),
            ),
            T::zero().minus(T::one()).times(T::zero().minus(T::one())) == T::one(),
    {
        let w = self.generator;
        let half = self.spec_size() / 2;
        let k = (self.log_size - 1) as nat;
        if self.log_size == 0 {
            assert(false);
        }
        assert(exp2(self.log_size as nat) == 2 * exp2(k));
        lemma_square_times_is_power(w, k);
        lemma_power_adds(w, i, half);
        T::lemma_associative(self.shift, power(w, i), power(w, half));
        assert(square_times(w, self.log_size as nat) == square_times(
            T::zero().minus(T::one()),
            1,
        )) by {
            lemma_square_times_adds(w, k, 1);
        }
        reveal_with_fuel(square_times, 2);
    }

    /// Builds the table of `shift_inverse * generator_inverse^i` for
    /// `i < size`.
    fn inverse_table(size: usize, shift_inverse: T, generator_inverse: T) -> (table: Vec<T>)
        ensures
            table@.len() == size,
            forall|i: int|
                0 <= i < size ==> #[trigger] table@[i] == shift_inverse.times(
                    power(generator_inverse, i as nat),
                ),
    {
        let mut table: Vec<T> = Vec::new();
        let mut current = shift_inverse.mul(T::from_int(1));
        proof {
            T::lemma_embed();
        }
        let mut i: usize = 0;
        while i < size
            invariant
                0 <= i <= size,
                table@.len() == i,
                current == shift_inverse.times(power(generator_inverse, i as nat)),
                forall|j: int|
                    0 <= j < i ==> #[trigger] table@[j] == shift_inverse.times(
                        power(generator_inverse, j as nat),
                    ),
            decreases size - i,
        {
            table.push(current);
            proof {
                lemma_power_step(shift_inverse, generator_inverse, i as nat);
            }
            current = current.mul(generator_inverse);
            i = i + 1;
        }
        table
    }

    /// Squares `x` `count` times.
    fn repeated_square(x: T, count: usize) -> (r: T)
        ensures
            r == square_times(x, count as nat),
    {
        let mut current = x;
        let mut done: usize = 0;
        while done < count
            invariant
                0 <= done <= count,
                square_times(current, (count - done) as nat) == square_times(x, count as nat),
            decreases count - done,
        {
            current = current.mul(current);
            done = done + 1;
        }
        current
    }

    /// The generator of the subgroup of `size` elements: the field's
    /// root of unity squared until its order is `size`.
    pub open spec fn generator_of(size: nat) -> T {
        square_times(T::unity_root(), (T::log_order() - log2(size)) as nat)
    }

    /// The coset of `coset_size` elements that starts at `shift`, if the
    /// field inverts the shift and the generator: there is none for the
    /// shift zero.
    pub fn new(coset_size: usize, shift: T) -> (r: Option<Self>)
        requires
            is_power_of_two(coset_size as nat),
            log2(coset_size as nat) <= T::log_order(),
        ensures
            r is Some <==> {
                &&& shift != T::zero()
                &&& shift.times(shift.inv()) == T::one()
                &&& Self::generator_of(coset_size as nat).times(
                    Self::generator_of(coset_size as nat).inv(),
                ) == T::one()
            },
            match r {
                Some(coset) => {
                    &&& coset.wf()
                    &&& coset.spec_size() == coset_size
                    &&& coset.shift() == shift
                    &&& coset.generator() == Self::generator_of(coset_size as nat)
                    &&& coset.shift_inverse() == shift.inv()
                    &&& coset.generator_inverse() == coset.generator().inv()
                },
                None => true,
            },
    {
        if shift.is_zero() {
            return None;
        }
        let shift = shift.reduced();
        let mut log_size: usize = 0;
        let mut reached: usize = 1;
        while reached < coset_size
            invariant
                reached == exp2(log_size as nat),
                reached <= coset_size,
                log_size < reached,
                log_size <= log2(coset_size as nat),
                coset_size == exp2(log2(coset_size as nat)),
            decreases coset_size - reached,
        {
            proof {
                if log_size == log2(coset_size as nat) {
                    assert(false);
                }
                lemma_exp2_increases((log_size + 1) as nat, log2(coset_size as nat));
            }
            reached = reached * 2;
            log_size = log_size + 1;
        }
        let ghost root = T::unity_root();
        let order = T::log_order_value();
        let generator = Self::repeated_square(T::root_of_unity(), order - log_size);
        proof {
            lemma_exp2_increases(0, log_size as nat);
            lemma_log2_between(coset_size as nat, log_size as nat);
            T::lemma_closed(root, root, 0);
            T::lemma_unity_root();
            T::lemma_embed();
            lemma_square_times_canonical(root, (order - log_size) as nat);
            lemma_square_times_adds(root, (order - log_size) as nat, log_size as nat);
            if log_size >= 1 {
                lemma_square_times_adds(
                    root,
                    (order - log_size) as nat,
                    (log_size - 1) as nat,
                );
            }
            lemma_square_times_nonzero(generator, log_size as nat);
        }
        let shift_inverse = shift.inverse();
        let generator_inverse = generator.inverse();
        let one = T::from_int(1);
        if !shift.mul(shift_inverse).equals(&one) || !generator.mul(generator_inverse).equals(&one) {
            return None;
        }
        let elements_inv = Self::inverse_table(coset_size, shift_inverse, generator_inverse);
        proof {
            T::lemma_closed(shift, generator, 0);
            T::lemma_closed(generator, shift, 0);
        }
        Some(Coset { log_size, shift, generator, shift_inverse, generator_inverse, elements_inv })
    }

    /// The number of elements.
    pub fn size(&self) -> (n: usize)
        ensures
            n == self.spec_size(),
    {
        self.elements_inv.len()
    }

    /// The inverse of the `index`-th element.
    pub fn element_inv_at(&self, index: usize) -> (r: T)
        requires
            self.wf(),
            index < self.spec_size(),
        ensures
            r == self.element_inv(index as nat),
    {
        self.elements_inv[index]
    }

    /// The coset of the `index`-th powers, for a two-power `index` that
    /// does not exceed the size: shift and generator are squared once for
    /// each factor of two in `index`, and the size is divided by `index`.
    pub fn pow(&self, index: usize) -> (coset: Self)
        requires
            self.wf(),
            is_power_of_two(index as nat),
            1 <= index <= self.spec_size(),
        ensures
            coset.wf(),
            coset.is_power(self, index as nat),
    {
        let mut squarings: usize = 0;
        let mut size = self.elements_inv.len();
        let mut reached: usize = 1;
        while reached < index
            invariant
                reached == exp2(squarings as nat),
                reached <= index,
                squarings < reached,
                index <= self.spec_size(),
                squarings <= log2(index as nat),
                index == exp2(log2(index as nat)),
                squarings <= self.log_size,
                size == exp2((self.log_size - squarings) as nat),
                size * reached == self.spec_size(),
                self.wf(),
            decreases index - reached,
        {
            proof {
                if squarings == log2(index as nat) {
                    assert(false);
                }
                lemma_exp2_increases((squarings + 1) as nat, log2(index as nat));
                if squarings == self.log_size {
                    assert(false);
                }
                assert((size / 2) * (reached * 2) == size * reached) by (nonlinear_arith)
                    requires
                        size % 2 == 0,
                ;
            }
            reached = reached * 2;
            size = size / 2;
            squarings = squarings + 1;
        }
        let shift = Self::repeated_square(self.shift, squarings);
        let generator = Self::repeated_square(self.generator, squarings);
        let shift_inverse = Self::repeated_square(self.shift_inverse, squarings);
        let generator_inverse = Self::repeated_square(self.generator_inverse, squarings);
        let elements_inv = Self::inverse_table(size, shift_inverse, generator_inverse);
        proof {
            lemma_exp2_increases(0, squarings as nat);
            lemma_log2_between(index as nat, squarings as nat);
            lemma_square_times_canonical(self.shift, squarings as nat);
            lemma_square_times_canonical(self.generator, squarings as nat);
            lemma_square_times_canonical(self.shift_inverse, squarings as nat);
            lemma_square_times_canonical(self.generator_inverse, squarings as nat);
            lemma_square_times_adds(
                self.generator,
                squarings as nat,
                (self.log_size - squarings) as nat,
            );
            if self.log_size - squarings >= 1 {
                lemma_square_times_adds(
                    self.generator,
                    squarings as nat,
                    (self.log_size - squarings - 1) as nat,
                );
            }
            lemma_square_times_inverse(self.shift, self.shift_inverse, squarings as nat);
            lemma_square_times_inverse(self.generator, self.generator_inverse, squarings as nat);
            assert(size == self.spec_size() / (index as nat)) by (nonlinear_arith)
                requires
                    size * index == self.spec_size(),
                    index >= 1,
            ;
        }
        Coset {
            log_size: self.log_size - squarings,
            shift,
            generator,
            shift_inverse,
            generator_inverse,
            elements_inv,
        }
    }

    /// Evaluates the polynomial with the coefficients `coeffs`, lowest
    /// degree first, on every element of the coset.
    pub fn fft(&self, coeffs: Vec<T>) -> (values: Vec<T>)
        requires
            self.wf(),
        ensures
            values@ == self.evaluations(coeffs@),
    {
        let size = self.elements_inv.len();
        let mut log_len: usize = 0;
        let mut reached: usize = 1;
        while reached < coeffs.len() && log_len < self.log_size
            invariant
                reached == exp2(log_len as nat),
                log_len <= self.log_size,
                size == exp2(self.log_size as nat),
            decreases self.log_size - log_len,
        {
            proof {
                lemma_exp2_increases((log_len + 1) as nat, self.log_size as nat);
            }
            reached = reached * 2;
            log_len = log_len + 1;
        }
        if reached == coeffs.len() {
            proof {
                lemma_square_times_is_power(self.generator, self.log_size as nat);
                crate::power_of_two::lemma_exp2_adds(
                    log_len as nat,
                    (self.log_size - log_len) as nat,
                );
            }
            let values = transform(
                &coeffs,
                self.shift,
                self.generator,
                size,
                Ghost(log_len as nat),
                Ghost((self.log_size - log_len) as nat),
            );
            assert(values@ =~= self.evaluations(coeffs@));
            return values;
        }
        let mut values: Vec<T> = Vec::new();
        let mut point = self.shift.mul(T::from_int(1));
        proof {
            T::lemma_embed();
        }
        let mut i: usize = 0;
        while i < size
            invariant
                0 <= i <= size,
                size == self.spec_size(),
                values@.len() == i,
                point == self.element(i as nat),
                forall|j: int|
                    0 <= j < i ==> #[trigger] values@[j] == horner(coeffs@, self.element(j as nat)),
            decreases size - i,
        {
            values.push(evaluate_at(&coeffs, point));
            proof {
                lemma_power_step(self.shift, self.generator, i as nat);
            }
            point = point.mul(self.generator);
            i = i + 1;
        }
        assert(values@ =~= self.evaluations(coeffs@));
        values
    }
}

/// The values of the polynomial with the `2^k` coefficients `coeffs` on
/// the `size` points `shift * generator^i`, by splitting it into its
/// even and odd parts until it is constant.
fn transform<T: Field>(
    coeffs: &Vec<T>,
    shift: T,
    generator: T,
    size: usize,
    Ghost(k): Ghost<nat>,
    Ghost(blowup): Ghost<nat>,
) -> (values: Vec<T>)
    requires
        coeffs@.len() == exp2(k),
        size == exp2(k) * exp2(blowup),
        power(generator, size as nat) == T::one(),
    ensures
        values@.len() == size,
        forall|i: int|
            0 <= i < size ==> #[trigger] values@[i] == horner(
                coeffs@,
                shift.times(power(generator, i as nat)),
            ),
    decreases k,
{
    let mut values: Vec<T> = Vec::new();
    if coeffs.len() == 1 {
        let mut i: usize = 0;
        while i < size
            invariant
                0 <= i <= size,
                coeffs@.len() == 1,
                values@.len() == i,
                forall|j: int| 0 <= j < i ==> #[trigger] values@[j] == coeffs@[0],
            decreases size - i,
        {
            values.push(coeffs[0]);
            i = i + 1;
        }
        return values;
    }
    proof {
        if k == 0 {
            assert(false);
        }
        lemma_exp2_increases(0, (k - 1) as nat);
        lemma_exp2_increases(0, blowup);
        assert(size == 2 * (exp2((k - 1) as nat) * exp2(blowup))) by (nonlinear_arith)
            requires
                size == exp2(k) * exp2(blowup),
                exp2(k) == 2 * exp2((k - 1) as nat),
        ;
        assert(exp2((k - 1) as nat) * exp2(blowup) >= 1) by (nonlinear_arith)
            requires
                exp2((k - 1) as nat) >= 1,
                exp2(blowup) >= 1,
        ;
    }
    let half_len = coeffs.len() / 2;
    let half = size / 2;
    let mut even: Vec<T> = Vec::new();
    let mut odd: Vec<T> = Vec::new();
    let mut i: usize = 0;
    while i < half_len
        invariant
            0 <= i <= half_len,
            2 * half_len == coeffs.len(),
            even@.len() == i,
            odd@.len() == i,
            forall|j: int| 0 <= j < i ==> #[trigger] even@[j] == coeffs@[2 * j],
            forall|j: int| 0 <= j < i ==> #[trigger] odd@[j] == coeffs@[2 * j + 1],
        decreases half_len - i,
    {
        even.push(coeffs[2 * i]);
        odd.push(coeffs[2 * i + 1]);
        i = i + 1;
    }
    let shift_squared = shift.mul(shift);
    let generator_squared = generator.mul(generator);
    proof {
        assert(even@ =~= evens(coeffs@));
        assert(odd@ =~= odds(coeffs@));
        lemma_power_of_square(generator, half as nat);
        lemma_power_adds(generator, half as nat, half as nat);
    }
    let even_values = transform(
        &even,
        shift_squared,
        generator_squared,
        half,
        Ghost((k - 1) as nat),
        Ghost(blowup),
    );
    let odd_values = transform(
        &odd,
        shift_squared,
        generator_squared,
        half,
        Ghost((k - 1) as nat),
        Ghost(blowup),
    );
    let mut point = shift.mul(T::from_int(1));
    proof {
        T::lemma_embed();
    }
    i = 0;
    while i < size
        invariant
            0 <= i <= size,
            2 * half == size,
            coeffs@.len() >= 2,
            coeffs@.len() % 2 == 0,
            even@ == evens(coeffs@),
            odd@ == odds(coeffs@),
            shift_squared == shift.times(shift),
            generator_squared == generator.times(generator),
            power(generator_squared, half as nat) == T::one(),
            even_values@.len() == half,
            odd_values@.len() == half,
            forall|j: int|
                0 <= j < half ==> #[trigger] even_values@[j] == horner(
                    even@,
                    shift_squared.times(power(generator_squared, j as nat)),
                ),
            forall|j: int|
                0 <= j < half ==> #[trigger] odd_values@[j] == horner(
                    odd@,
                    shift_squared.times(power(generator_squared, j as nat)),
                ),
            point == shift.times(power(generator, i as nat)),
            values@.len() == i,
            forall|j: int|
                0 <= j < i ==> #[trigger] values@[j] == horner(
                    coeffs@,
                    shift.times(power(generator, j as nat)),
                ),
        decreases size - i,
    {
        let low = if i < half {
            i
        } else {
            i - half
        };
        let value = even_values[low].add(point.mul(odd_values[low]));
        proof {
            let square = shift_squared.times(power(generator_squared, low as nat));
            lemma_horner_split(coeffs@, point);
            lemma_square_of_product(shift, power(generator, i as nat));
            lemma_power_of_square(generator, i as nat);
            if i >= half {
                lemma_power_adds(generator_squared, low as nat, half as nat);
                lemma_power_canonical(generator_squared, low as nat);
                T::lemma_neutral(power(generator_squared, low as nat));
            }
            assert(point.times(point) == square);
            lemma_power_step(shift, generator, i as nat);
        }
        values.push(value);
        point = point.mul(generator);
        i = i + 1;
    }
    values
}

/// If `v` inverts `w`, the powers of `v` invert those of `w`.
pub proof fn lemma_power_inverse<T: Field>(w: T, v: T, i: nat)
    requires
        w.times(v) == T::one(),
    ensures
        power(w, i).times(power(v, i)) == T::one(),
    decreases i,
{
    T::lemma_embed();
    T::lemma_closed(T::one(), T::one(), 0);
    T::lemma_neutral(T::one());
    if i > 0 {
        let p = power(w, (i - 1) as nat);
        let q = power(v, (i - 1) as nat);
        lemma_power_inverse(w, v, (i - 1) as nat);
        // (w p)(v q) = (w v)(p q)
        T::lemma_associative(w, p, v.times(q));
        T::lemma_associative(p, v, q);
        T::lemma_commutative(p, v);
        T::lemma_associative(v, p, q);
        T::lemma_associative(w, v, p.times(q));
    }
}

/// A value whose repeated square is one is not zero.
proof fn lemma_square_times_nonzero<T: Field>(x: T, k: nat)
    requires
        x.canonical(),
        square_times(x, k) == T::one(),
    ensures
        x != T::zero(),
    decreases k,
{
    T::lemma_embed();
    if k > 0 && x == T::zero() {
        T::lemma_neutral(x);
        lemma_square_times_nonzero(x.times(x), (k - 1) as nat);
    }
}

/// Evaluates a polynomial at one point by Horner's rule.
pub fn evaluate_at<T: Field>(coeffs: &Vec<T>, x: T) -> (value: T)
    ensures
        value == horner(coeffs@, x),
{
    let n = coeffs.len();
    if n == 0 {
        proof {
            T::lemma_embed();
        }
        return T::from_int(0);
    }
    let mut value = coeffs[n - 1];
    let mut i: usize = n - 1;
    assert(coeffs@.subrange(i as int, n as int).len() == 1);
    while i > 0
        invariant
            0 <= i < n,
            n == coeffs.len(),
            value == horner(coeffs@.subrange(i as int, n as int), x),
        decreases i,
    {
        i = i - 1;
        assert(coeffs@.subrange(i as int, n as int).drop_first() =~= coeffs@.subrange(
            i + 1,
            n as int,
        ));
        value = coeffs[i].add(x.mul(value));
    }
    assert(coeffs@.subrange(0, n as int) =~= coeffs@);
    value
}

} // verus!
