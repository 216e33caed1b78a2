//! Why folding works: the fold of a polynomial's codeword is the
//! codeword, on the squared coset, of the polynomial with its first
//! variable set to the folding parameter.
use vstd::prelude::*;
use super::coset::{horner, lemma_horner_split, Coset};
use super::field::{
    lemma_double_half, lemma_exchange_middle, lemma_square_of_product, lemma_sum_and_difference,
    lemma_times_minus_one, Field, FieldOps,
};
use super::polynomial::{bind_first, evens, multilinear_value, odds, pointwise_sum, scaled};
use crate::folding::{
    combine, coupled, coupled_chain, fold_chain, fold_sum, fold_value, folded, valid_cosets,
};
use crate::power_of_two::{exp2, lemma_exp2_increases};

verus! {

/// Whether every entry is canonical.
pub open spec fn all_canonical<T: FieldOps>(c: Seq<T>) -> bool {
    forall|k: int| 0 <= k < c.len() ==> (#[trigger] c[k]).canonical()
}

/// The products `s * v[i]`.
pub open spec fn left_scaled<T: FieldOps>(v: Seq<T>, s: T) -> Seq<T> {
    Seq::new(v.len(), |i: int| s.times(v[i]))
}

/// The value of a polynomial with canonical coefficients is canonical.
pub proof fn lemma_horner_canonical<T: Field>(c: Seq<T>, x: T)
    requires
        all_canonical(c),
    ensures
        horner(c, x).canonical(),
{
    T::lemma_closed(x, x, 0);
    if c.len() >= 2 {
        T::lemma_closed(c[0], x.times(horner(c.drop_first(), x)), 0);
    } else if c.len() == 1 {
        assert(c[0].canonical());
    }
}

/// The value of a sum of polynomials is the sum of their values.
pub proof fn lemma_horner_sum<T: Field>(a: Seq<T>, b: Seq<T>, y: T)
    requires
        a.len() == b.len(),
        a.len() >= 1,
    ensures
        horner(pointwise_sum(a, b), y) == horner(a, y).plus(horner(b, y)),
    decreases a.len(),
{
    let sum = pointwise_sum(a, b);
    if a.len() >= 2 {
        let rest_a = horner(a.drop_first(), y);
        let rest_b = horner(b.drop_first(), y);
        assert(sum.drop_first() =~= pointwise_sum(a.drop_first(), b.drop_first()));
        lemma_horner_sum(a.drop_first(), b.drop_first(), y);
        T::lemma_distributive(y, rest_a, rest_b);
        lemma_exchange_middle(a[0], b[0], y.times(rest_a), y.times(rest_b));
    }
}

/// The value of a scaled polynomial is the scaled value.
pub proof fn lemma_horner_scaled<T: Field>(a: Seq<T>, s: T, y: T)
    requires
        a.len() >= 1,
    ensures
        horner(left_scaled(a, s), y) == s.times(horner(a, y)),
    decreases a.len(),
{
    let scaled = left_scaled(a, s);
    if a.len() >= 2 {
        let rest = horner(a.drop_first(), y);
        assert(scaled.drop_first() =~= left_scaled(a.drop_first(), s));
        lemma_horner_scaled(a.drop_first(), s, y);
        T::lemma_distributive(s, a[0], y.times(rest));
        T::lemma_associative(s, y, rest);
        T::lemma_commutative(s, y);
        T::lemma_associative(y, s, rest);
    }
}

/// The value of a polynomial with its first variable set to `z` is the
/// value of its even part plus `z` times that of its odd part.
pub proof fn lemma_horner_bound<T: Field>(c: Seq<T>, z: T, y: T)
    requires
        c.len() >= 2,
        c.len() % 2 == 0,
    ensures
        horner(bind_first(c, z), y) == horner(evens(c), y).plus(z.times(horner(odds(c), y))),
{
    assert(bind_first(c, z) =~= pointwise_sum(evens(c), left_scaled(odds(c), z)));
    lemma_horner_sum(evens(c), left_scaled(odds(c), z), y);
    lemma_horner_scaled(odds(c), z, y);
}

/// The even and odd parts of canonical coefficients are canonical, and
/// so are the coefficients with the first variable set.
pub proof fn lemma_parts_canonical<T: Field>(c: Seq<T>, z: T)
    requires
        all_canonical(c),
        c.len() % 2 == 0,
    ensures
        all_canonical(evens(c)),
        all_canonical(odds(c)),
        all_canonical(bind_first(c, z)),
{
    assert forall|k: int| 0 <= k < evens(c).len() implies (#[trigger] evens(c)[k]).canonical() by {
        assert(c[2 * k].canonical());
    }
    assert forall|k: int| 0 <= k < odds(c).len() implies (#[trigger] odds(c)[k]).canonical() by {
        assert(c[2 * k + 1].canonical());
    }
    assert forall|k: int| 0 <= k < bind_first(c, z).len() implies (#[trigger] bind_first(
        c,
        z,
    )[k]).canonical() by {
        T::lemma_closed(c[2 * k], z.times(c[2 * k + 1]), 0);
    }
}

/// The fold of the values `e + x o` and `e - x o`, which a polynomial
/// with the even part `e` and the odd part `o` takes at `x` and at
/// `-x`, is `e + z o`; before the halving it is `(e + e) + z (o + o)`,
/// and the difference of the two values times the inverse of `x` is
/// `o + o`.
pub proof fn lemma_fold_parts<T: Field>(e: T, o: T, x: T, inv: T, z: T)
    requires
        e.canonical(),
        o.canonical(),
        x.times(inv) == T::one(),
    ensures
        fold_sum(
            e.plus(x.times(o)),
            e.plus(x.times(T::zero().minus(T::one())).times(o)),
            z,
            inv,
        ) == e.plus(e).plus(z.times(o.plus(o))),
        fold_value(
            e.plus(x.times(o)),
            e.plus(x.times(T::zero().minus(T::one())).times(o)),
            z,
            inv,
        ) == e.plus(z.times(o)),
        e.plus(x.times(o)).plus(e.plus(x.times(T::zero().minus(T::one())).times(o))) == e.plus(e),
        e.plus(x.times(o)).minus(e.plus(x.times(T::zero().minus(T::one())).times(o))).times(inv)
            == o.plus(o),
{
    let m1 = T::zero().minus(T::one());
    let b = x.times(o);
    let v = e.plus(b);
    let w = e.plus(x.times(m1).times(o));
    T::lemma_closed(x, o, 0);
    T::lemma_closed(o, o, 0);
    T::lemma_closed(e, e, 0);
    // (x m1) o = (x o) m1 = -(x o)
    T::lemma_associative(x, m1, o);
    T::lemma_commutative(m1, o);
    T::lemma_associative(x, o, m1);
    lemma_times_minus_one(b);
    assert(w == e.plus(T::zero().minus(b)));
    lemma_sum_and_difference(e, b);
    assert(v.plus(w) == e.plus(e));
    assert(v.minus(w) == b.plus(b));
    // (b + b) inv = o + o
    T::lemma_commutative(b.plus(b), inv);
    T::lemma_distributive(inv, b, b);
    T::lemma_associative(inv, x, o);
    T::lemma_commutative(inv, x);
    T::lemma_commutative(T::one(), o);
    T::lemma_neutral(o);
    assert(inv.times(b) == o);
    assert(b.plus(b).times(inv) == o.plus(o));
    T::lemma_associative(z, b.plus(b), inv);
    assert(fold_sum(v, w, z, inv) == e.plus(e).plus(z.times(o.plus(o))));
    // halving
    let half = T::half();
    T::lemma_commutative(e.plus(e).plus(z.times(o.plus(o))), half);
    T::lemma_distributive(half, e.plus(e), z.times(o.plus(o)));
    T::lemma_commutative(half, e.plus(e));
    lemma_double_half(e);
    T::lemma_commutative(half, z.times(o.plus(o)));
    T::lemma_associative(z, o.plus(o), half);
    lemma_double_half(o);
}

/// Folding the codeword of the polynomial `c` on `coset` with the
/// parameter `z` gives, at every position, the value at the square of
/// the position's element of `c` with its first variable set to `z`.
pub proof fn lemma_fold_codeword<T: Field>(coset: &Coset<T>, c: Seq<T>, z: T, j: int)
    requires
        coset.wf(),
        coset.spec_size() >= 2,
        all_canonical(c),
        c.len() >= 2,
        c.len() % 2 == 0,
        0 <= j < coset.spec_size() / 2,
    ensures
        folded(coset.evaluations(c), z, coset)[j] == horner(
            bind_first(c, z),
            coset.element(j as nat).times(coset.element(j as nat)),
        ),
{
    let half = coset.spec_size() / 2;
    let m1 = T::zero().minus(T::one());
    let x = coset.element(j as nat);
    let opposite = coset.element((j + half) as nat);
    let inv = coset.element_inv(j as nat);
    let y = x.times(x);
    let e = horner(evens(c), y);
    let o = horner(odds(c), y);
    coset.lemma_wf();
    crate::power_of_two::lemma_half_is_power(coset.spec_size());
    coset.lemma_opposite(j as nat);
    coset.lemma_inverse(j as nat);
    lemma_parts_canonical(c, z);
    lemma_horner_canonical(evens(c), y);
    lemma_horner_canonical(odds(c), y);
    // the square of the opposite element is y
    lemma_square_of_product(x, m1);
    T::lemma_closed(x, x, 0);
    T::lemma_neutral(y);
    assert(opposite.times(opposite) == y);
    lemma_horner_split(c, x);
    lemma_horner_split(c, opposite);
    lemma_fold_parts(e, o, x, inv, z);
    lemma_horner_bound(c, z, y);
}

/// The coefficients `c` with the variables `0..=i` set to the
/// coordinates of `point`.
pub open spec fn bind_chain<T: FieldOps>(c: Seq<T>, point: Seq<T>, i: int) -> Seq<T>
    decreases i + 1,
{
    if i < 0 {
        c
    } else {
        bind_first(bind_chain(c, point, i - 1), point[i])
    }
}

/// Setting the variables one after the other halves the number of
/// coefficients each time and keeps them canonical.
pub proof fn lemma_bind_chain_shape<T: Field>(c: Seq<T>, point: Seq<T>, n: nat, i: int)
    requires
        c.len() == exp2(n),
        all_canonical(c),
        -1 <= i < n,
    ensures
        bind_chain(c, point, i).len() == exp2((n - i - 1) as nat),
        all_canonical(bind_chain(c, point, i)),
    decreases i + 1,
{
    if i >= 0 {
        lemma_bind_chain_shape(c, point, n, i - 1);
        lemma_exp2_increases(0, (n - i - 1) as nat);
        lemma_parts_canonical(bind_chain(c, point, i - 1), point[i]);
    }
}

/// Setting the variables `0..=i` is setting the first and then, in what
/// remains, the variables `0..=i-1` to the other coordinates.
pub proof fn lemma_bind_chain_shift<T: Field>(c: Seq<T>, point: Seq<T>, i: int)
    requires
        0 <= i < point.len(),
    ensures
        bind_chain(c, point, i) == bind_chain(bind_first(c, point[0]), point.drop_first(), i - 1),
    decreases i,
{
    if i > 0 {
        lemma_bind_chain_shift(c, point, i - 1);
        assert(point.drop_first()[i - 1] == point[i]);
    } else {
        assert(bind_chain(c, point, -1) == c);
        assert(bind_chain(bind_first(c, point[0]), point.drop_first(), -1) == bind_first(
            c,
            point[0],
        ));
    }
}

/// The value of a multilinear polynomial at a point is what remains of
/// its coefficients when every variable is set to its coordinate.
pub proof fn lemma_multilinear_value<T: Field>(c: Seq<T>, point: Seq<T>)
    ensures
        multilinear_value(c, point) == bind_chain(c, point, point.len() - 1)[0],
    decreases point.len(),
{
    if point.len() > 0 {
        lemma_multilinear_value(bind_first(c, point[0]), point.drop_first());
        lemma_bind_chain_shift(c, point, point.len() - 1);
    }
}

/// The layer that round `i` folds is the codeword, on the round's
/// coset, of the polynomial with the variables of the earlier rounds
/// set to the earlier parameters.
pub proof fn lemma_fold_chain_encodes<T: Field>(
    cosets: Seq<Coset<T>>,
    c: Seq<T>,
    point: Seq<T>,
    n: nat,
    i: int,
)
    requires
        valid_cosets(cosets, n),
        c.len() == exp2(n),
        all_canonical(c),
        0 <= i < n,
    ensures
        fold_chain(cosets[0].evaluations(c), point, cosets, i - 1) == cosets[i].evaluations(
            bind_chain(c, point, i - 1),
        ),
    decreases i,
{
    if i > 0 {
        let before = bind_chain(c, point, i - 2);
        let coset = &cosets[i - 1];
        let next = &cosets[i];
        lemma_fold_chain_encodes(cosets, c, point, n, i - 1);
        lemma_bind_chain_shape(c, point, n, i - 2);
        assert(crate::folding::squares_previous(cosets, i));
        lemma_exp2_increases(1, (n - i + 1) as nat);
        coset.lemma_wf();
        crate::power_of_two::lemma_half_is_power(coset.spec_size());
        let layer = fold_chain(cosets[0].evaluations(c), point, cosets, i - 1);
        let target = next.evaluations(bind_chain(c, point, i - 1));
        assert(layer == folded(coset.evaluations(before), point[i - 1], coset));
        assert forall|j: int| 0 <= j < layer.len() implies layer[j] == target[j] by {
            lemma_fold_codeword(coset, before, point[i - 1], j);
            next.lemma_square(coset, j as nat);
        }
        next.lemma_square(coset, 0);
        assert(layer =~= target);
    }
}

/// When every variable has been set, the codeword is constant: each
/// entry of the last fold is the value of the polynomial at the point
/// of the parameters.
pub proof fn lemma_fold_chain_ends<T: Field>(
    cosets: Seq<Coset<T>>,
    c: Seq<T>,
    point: Seq<T>,
    n: nat,
    j: int,
)
    requires
        valid_cosets(cosets, n),
        c.len() == exp2(n),
        all_canonical(c),
        point.len() == n,
        0 <= j < cosets[n - 1].spec_size() / 2,
    ensures
        fold_chain(cosets[0].evaluations(c), point, cosets, n - 1)[j] == multilinear_value(
            c,
            point,
        ),
{
    let before = bind_chain(c, point, n - 2);
    let coset = &cosets[n - 1];
    lemma_fold_chain_encodes(cosets, c, point, n, n - 1);
    lemma_bind_chain_shape(c, point, n, n - 2);
    lemma_bind_chain_shape(c, point, n, n - 1);
    reveal_with_fuel(exp2, 2);
    lemma_fold_codeword(coset, before, point[n - 1], j);
    lemma_multilinear_value(c, point);
}

/// The entries at position `k` of the sequences in `rows`.
pub open spec fn column_of<T>(rows: Seq<Seq<T>>, k: int) -> Seq<T> {
    Seq::new(rows.len(), |j: int| rows[j][k])
}

/// The combination of the sequences in `rows`, each of `size` entries,
/// with the coefficients `comb`: entry `k` is the sum of the products
/// `comb[j] * rows[j][k]`.
pub open spec fn combined<T: FieldOps>(rows: Seq<Seq<T>>, comb: Seq<T>, size: nat) -> Seq<T> {
    Seq::new(size, |k: int| combine(column_of(rows, k), comb))
}

/// The combination of the sequences in `rows`, each of `size` entries,
/// with the powers of `r`: entry `k` is `rows[0][k] + r rows[1][k] +
/// r^2 rows[2][k]` and so on.
pub open spec fn power_combined<T: FieldOps>(rows: Seq<Seq<T>>, r: T, size: nat) -> Seq<T> {
    Seq::new(size, |k: int| horner(column_of(rows, k), r))
}

/// The values at `x` of the polynomials with the coefficients in
/// `rows`.
pub open spec fn values_at<T: FieldOps>(rows: Seq<Seq<T>>, x: T) -> Seq<T> {
    Seq::new(rows.len(), |j: int| horner(rows[j], x))
}

/// Whether `rows` holds `count >= 1` sequences of `size >= 1` canonical
/// entries each.
pub open spec fn well_shaped<T: FieldOps>(rows: Seq<Seq<T>>, size: nat) -> bool {
    &&& rows.len() >= 1
    &&& size >= 1
    &&& forall|j: int|
        0 <= j < rows.len() ==> (#[trigger] rows[j]).len() == size && all_canonical(rows[j])
}

/// A combination of canonical entries is canonical.
pub proof fn lemma_combined_canonical<T: Field>(rows: Seq<Seq<T>>, comb: Seq<T>, r: T, size: nat)
    requires
        well_shaped(rows, size),
    ensures
        all_canonical(combined(rows, comb, size)),
        all_canonical(power_combined(rows, r, size)),
{
    let sums = combined(rows, comb, size);
    let powers = power_combined(rows, r, size);
    assert forall|k: int| 0 <= k < sums.len() implies (#[trigger] sums[k]).canonical() by {
        let column = column_of(rows, k);
        T::lemma_closed(comb[0], column[0], 0);
        if column.len() >= 2 {
            T::lemma_closed(
                comb[0].times(column[0]),
                combine(column.drop_first(), comb.drop_first()),
                0,
            );
        }
    }
    assert forall|k: int| 0 <= k < powers.len() implies (#[trigger] powers[k]).canonical() by {
        let column = column_of(rows, k);
        assert forall|j: int| 0 <= j < column.len() implies (#[trigger] column[j]).canonical() by {
            assert(rows[j][k].canonical());
        }
        lemma_horner_canonical(column, r);
    }
}

/// Evaluation commutes with combination: the combination of the values
/// of polynomials is the value of the combination of the polynomials.
pub proof fn lemma_combine_values<T: Field>(rows: Seq<Seq<T>>, comb: Seq<T>, size: nat, x: T)
    requires
        well_shaped(rows, size),
        comb.len() == rows.len(),
    ensures
        combine(values_at(rows, x), comb) == horner(combined(rows, comb, size), x),
    decreases rows.len(),
{
    let values = values_at(rows, x);
    let first = left_scaled(rows[0], comb[0]);
    lemma_horner_scaled(rows[0], comb[0], x);
    if rows.len() == 1 {
        assert(combined(rows, comb, size) =~= first) by {
            assert forall|k: int| 0 <= k < size implies combined(rows, comb, size)[k] == first[k] by {
                assert(column_of(rows, k)[0] == rows[0][k]);
            }
        }
    } else {
        let rest = rows.drop_first();
        let rest_comb = comb.drop_first();
        lemma_combine_values(rest, rest_comb, size, x);
        assert(values.drop_first() =~= values_at(rest, x));
        let tail = combined(rest, rest_comb, size);
        assert(combined(rows, comb, size) =~= pointwise_sum(first, tail)) by {
            assert forall|k: int| 0 <= k < size implies combined(rows, comb, size)[k]
                == pointwise_sum(first, tail)[k] by {
                assert(column_of(rows, k).drop_first() =~= column_of(rest, k));
                assert(column_of(rows, k)[0] == rows[0][k]);
            }
        }
        lemma_horner_sum(first, tail, x);
    }
}

/// Evaluation commutes with the combination by powers.
pub proof fn lemma_power_combine_values<T: Field>(rows: Seq<Seq<T>>, r: T, size: nat, x: T)
    requires
        well_shaped(rows, size),
    ensures
        horner(values_at(rows, x), r) == horner(power_combined(rows, r, size), x),
    decreases rows.len(),
{
    let values = values_at(rows, x);
    if rows.len() == 1 {
        assert(power_combined(rows, r, size) =~= rows[0]) by {
            assert forall|k: int| 0 <= k < size implies power_combined(rows, r, size)[k]
                == rows[0][k] by {
                assert(column_of(rows, k)[0] == rows[0][k]);
            }
        }
    } else {
        let rest = rows.drop_first();
        lemma_power_combine_values(rest, r, size, x);
        assert(values.drop_first() =~= values_at(rest, x));
        let tail = left_scaled(power_combined(rest, r, size), r);
        assert(power_combined(rows, r, size) =~= pointwise_sum(rows[0], tail)) by {
            assert forall|k: int| 0 <= k < size implies power_combined(rows, r, size)[k]
                == pointwise_sum(rows[0], tail)[k] by {
                assert(column_of(rows, k).drop_first() =~= column_of(rest, k));
                assert(column_of(rows, k)[0] == rows[0][k]);
            }
        }
        lemma_horner_sum(rows[0], tail, x);
        lemma_horner_scaled(power_combined(rest, r, size), r, x);
    }
}

/// What a round of the folding chain does to the even and odd parts
/// `eg`, `og` of the chain's polynomial and `ef`, `of` of the function
/// chain's: `(((eg + eg) + rho (og + og)) rho + (ef + ef)) rho + (of +
/// of)`.
pub open spec fn coupled_parts<T: FieldOps>(eg: T, og: T, ef: T, of: T, rho: T) -> T {
    eg.plus(eg).plus(rho.times(og.plus(og))).times(rho).plus(ef.plus(ef)).times(rho).plus(
        of.plus(of),
    )
}

/// The coefficients of the polynomial that a round of the folding chain
/// gives from the coefficients `g` of the chain's polynomial and `f` of
/// the function chain's.
pub open spec fn couple_coefficients<T: FieldOps>(g: Seq<T>, f: Seq<T>, rho: T) -> Seq<T> {
    Seq::new(
        (g.len() / 2) as nat,
        |k: int| coupled_parts(g[2 * k], g[2 * k + 1], f[2 * k], f[2 * k + 1], rho),
    )
}

/// The value of a polynomial scaled from the right is the scaled value.
pub proof fn lemma_horner_right_scaled<T: Field>(a: Seq<T>, s: T, y: T)
    requires
        a.len() >= 1,
    ensures
        horner(scaled(a, s), y) == horner(a, y).times(s),
{
    assert(scaled(a, s) =~= left_scaled(a, s)) by {
        assert forall|i: int| 0 <= i < a.len() implies scaled(a, s)[i] == left_scaled(a, s)[i] by {
            T::lemma_commutative(a[i], s);
        }
    }
    lemma_horner_scaled(a, s, y);
    T::lemma_commutative(s, horner(a, y));
}

/// The value of the coupled polynomial is the coupling of the values of
/// the even and odd parts.
pub proof fn lemma_horner_coupled<T: Field>(g: Seq<T>, f: Seq<T>, rho: T, y: T)
    requires
        g.len() == f.len(),
        g.len() >= 2,
        g.len() % 2 == 0,
    ensures
        horner(couple_coefficients(g, f, rho), y) == coupled_parts(
            horner(evens(g), y),
            horner(odds(g), y),
            horner(evens(f), y),
            horner(odds(f), y),
            rho,
        ),
{
    let (ge, go, fe, fo) = (evens(g), odds(g), evens(f), odds(f));
    let a = pointwise_sum(ge, ge);
    let b = left_scaled(pointwise_sum(go, go), rho);
    let c = pointwise_sum(a, b);
    let d = scaled(c, rho);
    let e = pointwise_sum(fe, fe);
    let h = scaled(pointwise_sum(d, e), rho);
    let i = pointwise_sum(fo, fo);
    assert(couple_coefficients(g, f, rho) =~= pointwise_sum(h, i));
    lemma_horner_sum(ge, ge, y);
    lemma_horner_sum(go, go, y);
    lemma_horner_scaled(pointwise_sum(go, go), rho, y);
    lemma_horner_sum(a, b, y);
    lemma_horner_right_scaled(c, rho, y);
    lemma_horner_sum(fe, fe, y);
    lemma_horner_sum(d, e, y);
    lemma_horner_right_scaled(pointwise_sum(d, e), rho, y);
    lemma_horner_sum(fo, fo, y);
    lemma_horner_sum(h, i, y);
}

/// The coupled coefficients are canonical, half as many.
pub proof fn lemma_coupled_canonical<T: Field>(g: Seq<T>, f: Seq<T>, rho: T)
    ensures
        all_canonical(couple_coefficients(g, f, rho)),
        couple_coefficients(g, f, rho).len() == g.len() / 2,
{
    let c = couple_coefficients(g, f, rho);
    assert forall|k: int| 0 <= k < c.len() implies (#[trigger] c[k]).canonical() by {
        let before = g[2 * k].plus(g[2 * k]).plus(rho.times(g[2 * k + 1].plus(g[2 * k + 1])))
            .times(rho).plus(f[2 * k].plus(f[2 * k])).times(rho);
        T::lemma_closed(before, f[2 * k + 1].plus(f[2 * k + 1]), 0);
    }
}

/// A round of the folding chain on the codewords of the polynomials `g`
/// and `f` gives, at every position, the value at the square of the
/// position's element of the coupled polynomial.
pub proof fn lemma_coupled_codeword<T: Field>(
    coset: &Coset<T>,
    g: Seq<T>,
    f: Seq<T>,
    rho: T,
    j: int,
)
    requires
        coset.wf(),
        coset.spec_size() >= 2,
        all_canonical(g),
        all_canonical(f),
        g.len() == f.len(),
        g.len() >= 2,
        g.len() % 2 == 0,
        0 <= j < coset.spec_size() / 2,
    ensures
        coupled(coset.evaluations(g), coset.evaluations(f), rho, coset)[j] == horner(
            couple_coefficients(g, f, rho),
            coset.element(j as nat).times(coset.element(j as nat)),
        ),
{
    let half = coset.spec_size() / 2;
    let m1 = T::zero().minus(T::one());
    let x = coset.element(j as nat);
    let opposite = coset.element((j + half) as nat);
    let inv = coset.element_inv(j as nat);
    let y = x.times(x);
    coset.lemma_wf();
    crate::power_of_two::lemma_half_is_power(coset.spec_size());
    coset.lemma_opposite(j as nat);
    coset.lemma_inverse(j as nat);
    lemma_parts_canonical(g, rho);
    lemma_parts_canonical(f, rho);
    lemma_horner_canonical(evens(g), y);
    lemma_horner_canonical(odds(g), y);
    lemma_horner_canonical(evens(f), y);
    lemma_horner_canonical(odds(f), y);
    lemma_square_of_product(x, m1);
    T::lemma_closed(x, x, 0);
    T::lemma_neutral(y);
    assert(opposite.times(opposite) == y);
    lemma_horner_split(g, x);
    lemma_horner_split(g, opposite);
    lemma_horner_split(f, x);
    lemma_horner_split(f, opposite);
    lemma_fold_parts(horner(evens(g), y), horner(odds(g), y), x, inv, rho);
    lemma_fold_parts(horner(evens(f), y), horner(odds(f), y), x, inv, rho);
    lemma_horner_coupled(g, f, rho, y);
}

/// The coefficients of the folding chain's polynomial after the rounds
/// `0..=i`, when the chain starts from the polynomial `g` and the
/// function chain from `f`.
pub open spec fn coefficient_chain<T: FieldOps>(
    g: Seq<T>,
    f: Seq<T>,
    point: Seq<T>,
    challenges: Seq<T>,
    i: int,
) -> Seq<T>
    decreases i + 1,
{
    if i < 0 {
        g
    } else {
        couple_coefficients(
            coefficient_chain(g, f, point, challenges, i - 1),
            bind_chain(f, point, i - 1),
            challenges[i],
        )
    }
}

/// The folding chain's polynomial loses half its coefficients in every
/// round and keeps them canonical.
pub proof fn lemma_coefficient_chain_shape<T: Field>(
    g: Seq<T>,
    f: Seq<T>,
    point: Seq<T>,
    challenges: Seq<T>,
    n: nat,
    i: int,
)
    requires
        g.len() == exp2(n),
        all_canonical(g),
        -1 <= i < n,
    ensures
        coefficient_chain(g, f, point, challenges, i).len() == exp2((n - i - 1) as nat),
        all_canonical(coefficient_chain(g, f, point, challenges, i)),
    decreases i + 1,
{
    if i >= 0 {
        lemma_coefficient_chain_shape(g, f, point, challenges, n, i - 1);
        lemma_exp2_increases(0, (n - i - 1) as nat);
        lemma_coupled_canonical(
            coefficient_chain(g, f, point, challenges, i - 1),
            bind_chain(f, point, i - 1),
            challenges[i],
        );
    }
}

/// The layer that round `i` of the folding chain reads is the
/// codeword, on the round's coset, of the chain's polynomial after the
/// earlier rounds.
pub proof fn lemma_coupled_chain_encodes<T: Field>(
    cosets: Seq<Coset<T>>,
    g: Seq<T>,
    f: Seq<T>,
    point: Seq<T>,
    challenges: Seq<T>,
    n: nat,
    i: int,
)
    requires
        valid_cosets(cosets, n),
        g.len() == exp2(n),
        f.len() == exp2(n),
        all_canonical(g),
        all_canonical(f),
        0 <= i < n,
    ensures
        coupled_chain(
            cosets[0].evaluations(g),
            cosets[0].evaluations(f),
            point,
            challenges,
            cosets,
            i - 1,
        ) == cosets[i].evaluations(coefficient_chain(g, f, point, challenges, i - 1)),
    decreases i,
{
    if i > 0 {
        let before = coefficient_chain(g, f, point, challenges, i - 2);
        let function = bind_chain(f, point, i - 2);
        let coset = &cosets[i - 1];
        let next = &cosets[i];
        lemma_coupled_chain_encodes(cosets, g, f, point, challenges, n, i - 1);
        lemma_fold_chain_encodes(cosets, f, point, n, i - 1);
        assert(crate::folding::squares_previous(cosets, i));
        lemma_coefficient_chain_shape(g, f, point, challenges, n, i - 2);
        lemma_bind_chain_shape(f, point, n, i - 2);
        lemma_exp2_increases(1, (n - i + 1) as nat);
        coset.lemma_wf();
        crate::power_of_two::lemma_half_is_power(coset.spec_size());
        let layer = coupled_chain(
            cosets[0].evaluations(g),
            cosets[0].evaluations(f),
            point,
            challenges,
            cosets,
            i - 1,
        );
        let target = next.evaluations(coefficient_chain(g, f, point, challenges, i - 1));
        assert(layer == coupled(
            coset.evaluations(before),
            coset.evaluations(function),
            challenges[i - 1],
            coset,
        ));
        assert forall|j: int| 0 <= j < layer.len() implies layer[j] == target[j] by {
            lemma_coupled_codeword(coset, before, function, challenges[i - 1], j);
            next.lemma_square(coset, j as nat);
        }
        next.lemma_square(coset, 0);
        assert(layer =~= target);
    }
}

/// After the last round the folding chain is constant: every entry is
/// the one coefficient that is left of its polynomial.
pub proof fn lemma_coupled_chain_ends<T: Field>(
    cosets: Seq<Coset<T>>,
    g: Seq<T>,
    f: Seq<T>,
    point: Seq<T>,
    challenges: Seq<T>,
    n: nat,
    j: int,
)
    requires
        valid_cosets(cosets, n),
        g.len() == exp2(n),
        f.len() == exp2(n),
        all_canonical(g),
        all_canonical(f),
        0 <= j < cosets[n - 1].spec_size() / 2,
    ensures
        coupled_chain(
            cosets[0].evaluations(g),
            cosets[0].evaluations(f),
            point,
            challenges,
            cosets,
            n - 1,
        )[j] == coefficient_chain(g, f, point, challenges, n - 1)[0],
{
    let before = coefficient_chain(g, f, point, challenges, n - 2);
    let function = bind_chain(f, point, n - 2);
    let coset = &cosets[n - 1];
    lemma_coupled_chain_encodes(cosets, g, f, point, challenges, n, n - 1);
    lemma_fold_chain_encodes(cosets, f, point, n, n - 1);
    lemma_coefficient_chain_shape(g, f, point, challenges, n, n - 2);
    lemma_coefficient_chain_shape(g, f, point, challenges, n, n - 1);
    lemma_bind_chain_shape(f, point, n, n - 2);
    reveal_with_fuel(exp2, 2);
    lemma_coupled_codeword(coset, before, function, challenges[n - 1], j);
}

/// The sequences in `rows` with their first variable set to `z`.
pub open spec fn rows_bound<T: FieldOps>(rows: Seq<Seq<T>>, z: T) -> Seq<Seq<T>> {
    Seq::new(rows.len(), |j: int| bind_first(rows[j], z))
}

/// The values at `point` of the multilinear polynomials with the
/// coefficients in `rows`.
pub open spec fn multilinear_values<T: FieldOps>(rows: Seq<Seq<T>>, point: Seq<T>) -> Seq<T> {
    Seq::new(rows.len(), |j: int| multilinear_value(rows[j], point))
}

/// A combination is linear: combining `u[j] + z w[j]` gives the
/// combination of `u` plus `z` times that of `w`.
pub proof fn lemma_combine_linear<T: Field>(u: Seq<T>, w: Seq<T>, z: T, comb: Seq<T>)
    requires
        u.len() == w.len(),
        u.len() >= 1,
    ensures
        combine(Seq::new(u.len(), |j: int| u[j].plus(z.times(w[j]))), comb) == combine(u, comb).plus(
            z.times(combine(w, comb)),
        ),
    decreases u.len(),
{
    let mixed = Seq::new(u.len(), |j: int| u[j].plus(z.times(w[j])));
    let c = comb[0];
    // c (u0 + z w0) = c u0 + z (c w0)
    T::lemma_distributive(c, u[0], z.times(w[0]));
    T::lemma_associative(c, z, w[0]);
    T::lemma_commutative(c, z);
    T::lemma_associative(z, c, w[0]);
    if u.len() >= 2 {
        let rest_u = combine(u.drop_first(), comb.drop_first());
        let rest_w = combine(w.drop_first(), comb.drop_first());
        lemma_combine_linear(u.drop_first(), w.drop_first(), z, comb.drop_first());
        assert(mixed.drop_first() =~= Seq::new(
            u.drop_first().len(),
            |j: int| u.drop_first()[j].plus(z.times(w.drop_first()[j])),
        ));
        T::lemma_distributive(z, c.times(w[0]), rest_w);
        lemma_exchange_middle(c.times(u[0]), z.times(c.times(w[0])), rest_u, z.times(rest_w));
    }
}

/// Setting the first variable commutes with combination.
pub proof fn lemma_bind_combined<T: Field>(rows: Seq<Seq<T>>, comb: Seq<T>, size: nat, z: T)
    requires
        well_shaped(rows, size),
        size % 2 == 0,
    ensures
        bind_first(combined(rows, comb, size), z) == combined(
            rows_bound(rows, z),
            comb,
            size / 2,
        ),
        well_shaped(rows_bound(rows, z), size / 2),
{
    let left = bind_first(combined(rows, comb, size), z);
    let right = combined(rows_bound(rows, z), comb, size / 2);
    assert forall|k: int| 0 <= k < size / 2 implies left[k] == right[k] by {
        let u = column_of(rows, 2 * k);
        let w = column_of(rows, 2 * k + 1);
        lemma_combine_linear(u, w, z, comb);
        assert(column_of(rows_bound(rows, z), k) =~= Seq::new(
            u.len(),
            |j: int| u[j].plus(z.times(w[j])),
        ));
    }
    assert(left =~= right);
    assert forall|j: int| 0 <= j < rows.len() implies (#[trigger] rows_bound(rows, z)[j]).len()
        == size / 2 && all_canonical(rows_bound(rows, z)[j]) by {
        lemma_parts_canonical(rows[j], z);
    }
}

/// Evaluation of multilinear polynomials commutes with combination:
/// the value of the combination of polynomials is the combination of
/// their values.
pub proof fn lemma_multilinear_combined<T: Field>(
    rows: Seq<Seq<T>>,
    comb: Seq<T>,
    n: nat,
    point: Seq<T>,
)
    requires
        well_shaped(rows, exp2(n)),
        point.len() == n,
    ensures
        multilinear_value(combined(rows, comb, exp2(n)), point) == combine(
            multilinear_values(rows, point),
            comb,
        ),
    decreases n,
{
    if n == 0 {
        assert(multilinear_values(rows, point) =~= column_of(rows, 0));
    } else {
        let bound = rows_bound(rows, point[0]);
        lemma_exp2_increases(0, (n - 1) as nat);
        lemma_bind_combined(rows, comb, exp2(n), point[0]);
        lemma_multilinear_combined(bound, comb, (n - 1) as nat, point.drop_first());
        assert(multilinear_values(rows, point) =~= multilinear_values(bound, point.drop_first()));
    }
}

/// Doubling `s / 2` gives back `s`.
pub proof fn lemma_half_double<T: Field>(s: T)
    requires
        s.canonical(),
    ensures
        s.times(T::half()).times(T::embed(2)) == s,
{
    T::lemma_embed();
    T::lemma_associative(s, T::half(), T::embed(2));
    T::lemma_neutral(s);
}

} // verus!
