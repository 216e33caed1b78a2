//! Multilinear polynomials in coefficient form and the equality
//! polynomial.
use vstd::prelude::*;
use super::field::{Field, FieldOps};
use crate::power_of_two::{exp2, is_power_of_two, lemma_exp2_increases, log2};

verus! {

/// The entries of `c` at even positions.
pub open spec fn evens<T>(c: Seq<T>) -> Seq<T> {
    Seq::new((c.len() / 2) as nat, |k: int| c[2 * k])
}

/// The entries of `c` at odd positions.
pub open spec fn odds<T>(c: Seq<T>) -> Seq<T> {
    Seq::new((c.len() / 2) as nat, |k: int| c[2 * k + 1])
}

/// The coefficients that remain when the first variable is set to `z`:
/// the monomial with index `k` contains the first variable exactly when
/// `k` is odd.
pub open spec fn bind_first<T: FieldOps>(c: Seq<T>, z: T) -> Seq<T> {
    Seq::new((c.len() / 2) as nat, |k: int| c[2 * k].plus(z.times(c[2 * k + 1])))
}

/// The value at `point` of the multilinear polynomial with the
/// coefficients `c`, where bit `i` of a coefficient's index tells
/// whether its monomial contains variable `i`.
pub open spec fn multilinear_value<T: FieldOps>(c: Seq<T>, point: Seq<T>) -> T
    decreases point.len(),
{
    if point.len() == 0 {
        c[0]
    } else {
        multilinear_value(bind_first(c, point[0]), point.drop_first())
    }
}

/// The sums `a[i] + b[i]`.
pub open spec fn pointwise_sum<T: FieldOps>(a: Seq<T>, b: Seq<T>) -> Seq<T> {
    Seq::new(a.len(), |i: int| a[i].plus(b[i]))
}

/// The products `v[i] * a`.
pub open spec fn scaled<T: FieldOps>(v: Seq<T>, a: T) -> Seq<T> {
    Seq::new(v.len(), |i: int| v[i].times(a))
}

/// The values of the polynomial with the coefficients `c` on the Boolean
/// cube. The first variable is the highest bit of a position: the lower
/// half holds the values with the first variable zero, which are those
/// of the even coefficients, and the upper half those with it one, which
/// add the values of the odd coefficients.
pub open spec fn hypercube<T: FieldOps>(c: Seq<T>) -> Seq<T>
    decreases c.len(),
{
    if c.len() <= 1 {
        c
    } else {
        let low = hypercube(evens(c));
        let high = hypercube(odds(c));
        low + pointwise_sum(low, high)
    }
}

/// The values on the Boolean cube of the polynomial that is one at
/// `point` and zero at every other Boolean point, in the order of
/// `hypercube`: the weight of a position is the product, over the
/// variables, of `point[i]` where the position has a one and of
/// `1 - point[i]` where it has a zero.
pub open spec fn eq_hypercube<T: FieldOps>(point: Seq<T>) -> Seq<T>
    decreases point.len(),
{
    if point.len() == 0 {
        seq![T::one()]
    } else {
        let rest = eq_hypercube(point.drop_first());
        scaled(rest, T::one().minus(point[0])) + scaled(rest, point[0])
    }
}

/// One factor of the equality polynomial: `z * r + (1 - z) * (1 - r)`.
pub open spec fn eq_factor<T: FieldOps>(z: T, r: T) -> T {
    z.times(r).plus(T::one().minus(z).times(T::one().minus(r)))
}

/// The value at `at` of the equality polynomial of `point`.
pub open spec fn eq_value<T: FieldOps>(point: Seq<T>, at: Seq<T>) -> T
    decreases point.len(),
{
    if point.len() == 0 {
        T::one()
    } else {
        eq_factor(point[0], at[0]).times(eq_value(point.drop_first(), at.drop_first()))
    }
}

/// The table of `2^k` coefficients has `2^k` entries.
pub proof fn lemma_hypercube_len<T: FieldOps>(c: Seq<T>, k: nat)
    requires
        c.len() == exp2(k),
    ensures
        hypercube(c).len() == c.len(),
    decreases k,
{
    if k > 0 {
        lemma_exp2_increases(0, (k - 1) as nat);
        lemma_hypercube_len(evens(c), (k - 1) as nat);
        lemma_hypercube_len(odds(c), (k - 1) as nat);
    }
}

/// The table of the equality polynomial of `n` coordinates has `2^n`
/// entries.
pub proof fn lemma_eq_hypercube_len<T: FieldOps>(point: Seq<T>)
    ensures
        eq_hypercube(point).len() == exp2(point.len()),
    decreases point.len(),
{
    if point.len() > 0 {
        lemma_eq_hypercube_len(point.drop_first());
    }
}

/// A copy of the vector.
pub fn copy_of<T: Field>(v: &Vec<T>) -> (r: Vec<T>)
    ensures
        r@ == v@,
{
    let mut r: Vec<T> = Vec::new();
    let mut i: usize = 0;
    while i < v.len()
        invariant
            0 <= i <= v.len(),
            r@ == v@.subrange(0, i as int),
        decreases v.len() - i,
    {
        r.push(v[i]);
        i = i + 1;
        assert(r@ =~= v@.subrange(0, i as int));
    }
    assert(v@.subrange(0, v.len() as int) =~= v@);
    r
}

/// A multilinear polynomial given by its `2^n` coefficients.
pub struct MultilinearPolynomial<T: Field> {
    coefficients: Vec<T>,
    variable_num: usize,
}

impl<T: Field> MultilinearPolynomial<T> {
    /// The coefficients, lowest index first.
    pub closed spec fn coeffs(&self) -> Seq<T> {
        self.coefficients@
    }

    /// The number of variables.
    pub closed spec fn variables(&self) -> nat {
        self.variable_num as nat
    }

    /// There are `2^n` coefficients for `n` variables, all canonical.
    pub closed spec fn wf(&self) -> bool {
        &&& self.coefficients@.len() == exp2(self.variable_num as nat)
        &&& forall|k: int|
            0 <= k < self.coefficients@.len() ==> (#[trigger] self.coefficients@[k]).canonical()
    }

    /// In a well-formed polynomial the coefficients number `2^n` and are
    /// canonical.
    pub proof fn lemma_wf(&self)
        requires
            self.wf(),
        ensures
            self.coeffs().len() == exp2(self.variables()),
            self.coeffs().len() >= 1,
            forall|k: int| 0 <= k < self.coeffs().len() ==> (#[trigger] self.coeffs()[k]).canonical(),
    {
        lemma_exp2_increases(0, self.variable_num as nat);
    }

    /// The polynomial with the given coefficients, whose number is a
    /// power of two: `2^n` for `n` variables.
    pub fn new(coefficients: Vec<T>) -> (p: Self)
        requires
            is_power_of_two(coefficients@.len()),
        ensures
            p.wf(),
            p.coeffs() == coefficients@,
            p.variables() == log2(coefficients@.len()),
    {
        let len = coefficients.len();
        let mut k: usize = 0;
        while k < len
            invariant
                0 <= k <= len,
                len == coefficients@.len(),
                forall|j: int| 0 <= j < k ==> (#[trigger] coefficients@[j]).canonical(),
            decreases len - k,
        {
            let _ = coefficients[k].reduced();
            k = k + 1;
        }
        let mut variable_num: usize = 0;
        let mut reached: usize = 1;
        while reached < len
            invariant
                reached == exp2(variable_num as nat),
                reached <= len,
                variable_num < reached,
                variable_num <= log2(len as nat),
                len == exp2(log2(len as nat)),
            decreases len - reached,
        {
            proof {
                if variable_num == log2(len as nat) {
                    assert(false);
                }
                lemma_exp2_increases((variable_num + 1) as nat, log2(len as nat));
            }
            reached = reached * 2;
            variable_num = variable_num + 1;
        }
        proof {
            lemma_exp2_increases(0, variable_num as nat);
            crate::power_of_two::lemma_log2_between(len as nat, variable_num as nat);
        }
        MultilinearPolynomial { coefficients, variable_num }
    }

    /// A polynomial in `variable_num` variables with random coefficients.
    pub fn random_polynomial(variable_num: usize) -> (p: Self)
        requires
            exp2(variable_num as nat) <= usize::MAX,
        ensures
            p.wf(),
            p.variables() == variable_num,
    {
        let mut size: usize = 1;
        let mut doubled: usize = 0;
        while doubled < variable_num
            invariant
                0 <= doubled <= variable_num,
                size == exp2(doubled as nat),
                exp2(variable_num as nat) <= usize::MAX,
            decreases variable_num - doubled,
        {
            proof {
                lemma_exp2_increases((doubled + 1) as nat, variable_num as nat);
            }
            size = size * 2;
            doubled = doubled + 1;
        }
        let mut coefficients: Vec<T> = Vec::new();
        let mut i: usize = 0;
        while i < size
            invariant
                0 <= i <= size,
                coefficients@.len() == i,
                forall|k: int| 0 <= k < i ==> (#[trigger] coefficients@[k]).canonical(),
            decreases size - i,
        {
            coefficients.push(T::random_element());
            i = i + 1;
        }
        MultilinearPolynomial { coefficients, variable_num }
    }

    /// The coefficients.
    pub fn coefficients(&self) -> (c: &Vec<T>)
        ensures
            c@ == self.coeffs(),
    {
        &self.coefficients
    }

    /// The number of variables.
    pub fn variable_num(&self) -> (n: usize)
        ensures
            n == self.variables(),
    {
        self.variable_num
    }

    /// The value of the polynomial at `point`.
    pub fn evaluate(&self, point: &Vec<T>) -> (value: T)
        requires
            self.wf(),
            point@.len() == self.variables(),
        ensures
            value == multilinear_value(self.coeffs(), point@),
    {
        let mut current = copy_of(&self.coefficients);
        let mut i: usize = 0;
        proof {
            assert(point@.subrange(0, point@.len() as int) =~= point@);
        }
        while i < point.len()
            invariant
                0 <= i <= point.len(),
                point@.len() == self.variable_num,
                current@.len() == exp2((point.len() - i) as nat),
                multilinear_value(current@, point@.subrange(i as int, point@.len() as int))
                    == multilinear_value(self.coefficients@, point@),
            decreases point.len() - i,
        {
            let ghost before = current@;
            let ghost tail = point@.subrange(i as int, point@.len() as int);
            let half = current.len() / 2;
            let mut next: Vec<T> = Vec::new();
            let mut k: usize = 0;
            while k < half
                invariant
                    0 <= k <= half,
                    i < point.len(),
                    2 * half == current.len(),
                    next@.len() == k,
                    forall|j: int|
                        0 <= j < k ==> #[trigger] next@[j] == current@[2 * j].plus(
                            point@[i as int].times(current@[2 * j + 1]),
                        ),
                decreases half - k,
            {
                next.push(current[2 * k].add(point[i].mul(current[2 * k + 1])));
                k = k + 1;
            }
            proof {
                assert(next@ =~= bind_first(before, tail[0]));
                assert(tail.drop_first() =~= point@.subrange(i + 1, point@.len() as int));
            }
            current = next;
            i = i + 1;
        }
        proof {
            lemma_exp2_increases(0, 0);
        }
        current[0]
    }

    /// The values of the polynomial on the Boolean cube.
    pub fn evaluate_hypercube(&self) -> (values: Vec<T>)
        requires
            self.wf(),
        ensures
            values@ == hypercube(self.coeffs()),
    {
        hypercube_of(&self.coefficients, Ghost(self.variable_num as nat))
    }
}

/// The values on the Boolean cube of the polynomial with the given
/// `2^k` coefficients.
fn hypercube_of<T: Field>(c: &Vec<T>, Ghost(k): Ghost<nat>) -> (values: Vec<T>)
    requires
        c@.len() == exp2(k),
    ensures
        values@ == hypercube(c@),
    decreases k,
{
    if c.len() <= 1 {
        return copy_of(c);
    }
    let half = c.len() / 2;
    let mut even: Vec<T> = Vec::new();
    let mut odd: Vec<T> = Vec::new();
    let mut i: usize = 0;
    while i < half
        invariant
            0 <= i <= half,
            2 * half == c.len(),
            even@.len() == i,
            odd@.len() == i,
            forall|j: int| 0 <= j < i ==> #[trigger] even@[j] == c@[2 * j],
            forall|j: int| 0 <= j < i ==> #[trigger] odd@[j] == c@[2 * j + 1],
        decreases half - i,
    {
        even.push(c[2 * i]);
        odd.push(c[2 * i + 1]);
        i = i + 1;
    }
    proof {
        assert(even@ =~= evens(c@));
        assert(odd@ =~= odds(c@));
        lemma_hypercube_len(evens(c@), (k - 1) as nat);
        lemma_hypercube_len(odds(c@), (k - 1) as nat);
    }
    let mut values = hypercube_of(&even, Ghost((k - 1) as nat));
    let high = hypercube_of(&odd, Ghost((k - 1) as nat));
    let ghost low = values@;
    i = 0;
    while i < half
        invariant
            0 <= i <= half,
            2 * half == c.len(),
            low.len() == half,
            high@.len() == half,
            values@.len() == half + i,
            values@.subrange(0, half as int) == low,
            forall|j: int| 0 <= j < i ==> #[trigger] values@[half + j] == low[j].plus(high@[j]),
        decreases half - i,
    {
        let sum = values[i].add(high[i]);
        assert(values@[i as int] == low[i as int]) by {
            assert(values@.subrange(0, half as int)[i as int] == values@[i as int]);
        }
        let ghost before = values@;
        values.push(sum);
        assert(values@.subrange(0, half as int) =~= before.subrange(0, half as int));
        i = i + 1;
    }
    proof {
        let target = low + pointwise_sum(low, high@);
        assert forall|j: int| 0 <= j < values@.len() implies values@[j] == target[j] by {
            if j < half {
                assert(values@.subrange(0, half as int)[j] == values@[j]);
            } else {
                assert(values@[half + (j - half)] == low[j - half].plus(high@[j - half]));
            }
        }
        assert(values@ =~= target);
    }
    values
}

/// The polynomial that is one at `point` and zero at every other
/// Boolean point.
pub struct EqMultilinear<T: Field> {
    point: Vec<T>,
}

impl<T: Field> EqMultilinear<T> {
    /// The point that the polynomial singles out.
    pub closed spec fn point(&self) -> Seq<T> {
        self.point@
    }

    /// The equality polynomial of `point`.
    pub fn new(point: Vec<T>) -> (eq: Self)
        ensures
            eq.point() == point@,
    {
        EqMultilinear { point }
    }

    /// The values of the polynomial on the Boolean cube.
    pub fn evaluate_hypercube(&self) -> (values: Vec<T>)
        ensures
            values@ == eq_hypercube(self.point()),
    {
        let n = self.point.len();
        let mut values: Vec<T> = Vec::new();
        values.push(T::from_int(1));
        let mut i: usize = n;
        proof {
            T::lemma_embed();
            assert(self.point@.subrange(n as int, n as int) =~= Seq::<T>::empty());
            assert(values@ =~= eq_hypercube(Seq::<T>::empty()));
        }
        while i > 0
            invariant
                0 <= i <= n,
                n == self.point@.len(),
                values@ == eq_hypercube(self.point@.subrange(i as int, n as int)),
            decreases i,
        {
            i = i - 1;
            let ghost rest = values@;
            let ghost tail = self.point@.subrange(i as int, n as int);
            proof {
                assert(tail.drop_first() =~= self.point@.subrange(i + 1, n as int));
            }
            let z = self.point[i];
            let complement = T::from_int(1).sub(z);
            let len = values.len();
            let mut next: Vec<T> = Vec::new();
            let mut k: usize = 0;
            while k < len
                invariant
                    0 <= k <= len,
                    len == values@.len(),
                    values@ == rest,
                    next@.len() == k,
                    forall|j: int| 0 <= j < k ==> #[trigger] next@[j] == rest[j].times(complement),
                decreases len - k,
            {
                next.push(values[k].mul(complement));
                k = k + 1;
            }
            k = 0;
            while k < len
                invariant
                    0 <= k <= len,
                    len == values@.len(),
                    values@ == rest,
                    next@.len() == len + k,
                    forall|j: int| 0 <= j < len ==> #[trigger] next@[j] == rest[j].times(complement),
                    forall|j: int| 0 <= j < k ==> #[trigger] next@[len + j] == rest[j].times(z),
                decreases len - k,
            {
                next.push(values[k].mul(z));
                k = k + 1;
            }
            proof {
                T::lemma_embed();
                let target = scaled(rest, T::one().minus(tail[0])) + scaled(rest, tail[0]);
                assert forall|j: int| 0 <= j < next@.len() implies next@[j] == target[j] by {
                    if j >= len {
                        assert(next@[len + (j - len)] == rest[j - len].times(z));
                    }
                }
                assert(next@ =~= target);
            }
            values = next;
        }
        assert(self.point@.subrange(0, n as int) =~= self.point@);
        values
    }

    /// The value of the polynomial at `at`.
    pub fn evaluate(&self, at: &Vec<T>) -> (value: T)
        requires
            at@.len() == self.point().len(),
        ensures
            value == eq_value(self.point(), at@),
    {
        let n = self.point.len();
        let one = T::from_int(1);
        let mut value = one;
        let mut i: usize = n;
        proof {
            T::lemma_embed();
        }
        while i > 0
            invariant
                0 <= i <= n,
                n == self.point@.len(),
                n == at@.len(),
                one == T::one(),
                value == eq_value(
                    self.point@.subrange(i as int, n as int),
                    at@.subrange(i as int, n as int),
                ),
            decreases i,
        {
            i = i - 1;
            let z = self.point[i];
            let r = at[i];
            proof {
                assert(self.point@.subrange(i as int, n as int).drop_first()
                    =~= self.point@.subrange(i + 1, n as int));
                assert(at@.subrange(i as int, n as int).drop_first() =~= at@.subrange(
                    i + 1,
                    n as int,
                ));
            }
            let factor = z.mul(r).add(one.sub(z).mul(one.sub(r)));
            value = factor.mul(value);
        }
        assert(self.point@.subrange(0, n as int) =~= self.point@);
        assert(at@.subrange(0, n as int) =~= at@);
        value
    }
}

} // verus!
