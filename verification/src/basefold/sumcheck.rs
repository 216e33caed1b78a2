//! Why the sumcheck works: the round polynomial, evaluated at the
//! challenge, is the sum that the next round claims.
use vstd::prelude::*;
use super::prover::{partial_sums, table_at};
use super::verification::round_polynomial;
use crate::algebra::codeword::{all_canonical, bind_chain, lemma_bind_chain_shape};
use crate::algebra::polynomial::{
    eq_factor, eq_hypercube, eq_value, hypercube, lemma_hypercube_len,
};
use crate::algebra::ring::{
    lemma_difference_of_sums, lemma_double_sum, lemma_extrapolated, lemma_line,
    lemma_product_of_lines, lemma_product_of_sums, lemma_right_distributive, lemma_times_zero,
    negated,
};
use crate::algebra::tables::{
    bound, dot, lemma_dot_canonical, lemma_eq_hypercube_canonical, lemma_hypercube_bound,
    lemma_hypercube_canonical,
};
use crate::power_of_two::{exp2, lemma_exp2_increases};
use crate::algebra::field::{lemma_double_half, lemma_exchange_middle, Field, FieldOps};

verus! {

/// The quadratic `u + x v + (x x) w`.
pub open spec fn quadratic<T: FieldOps>(u: T, v: T, w: T, x: T) -> T {
    u.plus(x.times(v)).plus(x.times(x).times(w))
}

/// The round polynomial through the values of a quadratic at zero, one
/// and two is the quadratic: with `s0 = u`, `s1 = u + v + w` and
/// `s2 = u + 2 v + 4 w`, its value at `rho` is `u + rho v + rho^2 w`.
pub proof fn lemma_round_polynomial_interpolates<T: Field>(u: T, v: T, w: T, rho: T)
    requires
        u.canonical(),
        v.canonical(),
        w.canonical(),
    ensures
        round_polynomial(
            (u, u.plus(v).plus(w), u.plus(v.plus(v)).plus(w.plus(w).plus(w.plus(w)))),
            rho,
        ) == quadratic(u, v, w, rho),
{
    let one = T::one();
    let s0 = u;
    let s1 = u.plus(v).plus(w);
    let s2 = u.plus(v.plus(v)).plus(w.plus(w).plus(w.plus(w)));
    let ww = w.plus(w);
    T::lemma_closed(u, v, 0);
    T::lemma_closed(v, w, 0);
    T::lemma_closed(w, w, 0);
    T::lemma_closed(u.plus(v), w, 0);
    T::lemma_closed(v, v, 0);
    // s1 + s1 = ((u + u) + (v + v)) + (w + w)
    lemma_double_sum(u.plus(v), w);
    lemma_double_sum(u, v);
    // s2 + s0 = ((u + u) + (v + v)) + ((w + w) + (w + w)) = (s1 + s1) + (w + w)
    assert(s2.plus(s0) == s1.plus(s1).plus(ww)) by {
        let vv = v.plus(v);
        let uu = u.plus(u);
        T::lemma_commutative(u.plus(vv).plus(ww.plus(ww)), u);
        T::lemma_associative(u, u.plus(vv), ww.plus(ww));
        T::lemma_associative(u, u, vv);
        T::lemma_associative(uu.plus(vv), ww, ww);
    }
    // the second difference is w + w
    T::lemma_commutative(s1.plus(s1), ww);
    T::lemma_minus_plus(ww, s1.plus(s1));
    assert(s2.plus(s0).minus(s1.plus(s1)) == ww);
    // (w + w) (rho (rho - 1) / 2) = (rho (rho - 1)) w
    let bend = rho.times(rho.minus(one));
    T::lemma_commutative(ww, bend.times(T::half()));
    T::lemma_associative(bend, T::half(), ww);
    T::lemma_commutative(T::half(), ww);
    lemma_double_half(w);
    assert(ww.times(bend.times(T::half())) == bend.times(w));
    // the line: u (1 - rho) + s1 rho = u + rho (s1 - u) = u + rho (v + w)
    lemma_line(u, s1, rho);
    T::lemma_associative(u, v, w);
    T::lemma_commutative(u, v.plus(w));
    T::lemma_minus_plus(v.plus(w), u);
    assert(s1.minus(u) == v.plus(w));
    // rho (rho - 1) w = (rho rho) w - rho w
    T::lemma_distributive(rho, rho, one);
    T::lemma_closed(rho, one, 0);
    assert(rho.times(one) == rho.times(one).plus(T::zero())) by {
        T::lemma_neutral(rho.times(one));
    }
    lemma_right_distributive(rho.times(rho), rho.times(one), w);
    let rw = rho.times(w);
    let rrw = rho.times(rho).times(w);
    assert(rho.times(one).times(w) == rw) by {
        T::lemma_associative(rho, one, w);
        T::lemma_commutative(one, w);
        T::lemma_neutral(w);
    }
    assert(bend.times(w) == rrw.minus(rw));
    // u + rho (v + w) + (rrw - rw) = u + rho v + rrw
    T::lemma_distributive(rho, v, w);
    let rv = rho.times(v);
    T::lemma_negation(rrw, rw);
    T::lemma_associative(u, rv.plus(rw), rrw.plus(negated(rw)));
    T::lemma_associative(rv, rw, rrw.plus(negated(rw)));
    T::lemma_commutative(rrw, negated(rw));
    T::lemma_associative(rw, negated(rw), rrw);
    T::lemma_negation(rw, rw);
    T::lemma_closed(rho.times(rho), w, 0);
    T::lemma_commutative(T::zero(), rrw);
    T::lemma_neutral(rrw);
    T::lemma_associative(u, rv, rrw);
}

/// One term of a sumcheck round: the round polynomial through the
/// products of the table entries at zero, one and two, at `rho`, is the
/// product of the entries with the variable set to `rho`.
pub proof fn lemma_round_term<T: Field>(low: T, high: T, low_weight: T, high_weight: T, rho: T)
    requires
        low.canonical(),
        high.canonical(),
        low_weight.canonical(),
        high_weight.canonical(),
    ensures
        round_polynomial(
            (low.times(low_weight), high.times(high_weight), high.plus(high).minus(low).times(high_weight.plus(high_weight).minus(low_weight))),
            rho,
        ) == low.times(T::one().minus(rho)).plus(high.times(rho)).times(
            low_weight.times(T::one().minus(rho)).plus(high_weight.times(rho)),
        ),
{
    let c = high.minus(low);
    let d = high_weight.minus(low_weight);
    let u = low.times(low_weight);
    let v = low.times(d).plus(c.times(low_weight));
    let w = c.times(d);
    T::lemma_closed(high, low, 0);
    T::lemma_closed(high_weight, low_weight, 0);
    T::lemma_closed(low, low_weight, 0);
    T::lemma_closed(low.times(d), c.times(low_weight), 0);
    T::lemma_closed(c, d, 0);
    lemma_extrapolated(low, high);
    lemma_extrapolated(low_weight, high_weight);
    // the value at one
    lemma_product_of_sums(low, c, low_weight, d);
    assert(high.times(high_weight) == u.plus(v).plus(w));
    // the value at two
    let (cc, dd) = (c.plus(c), d.plus(d));
    lemma_product_of_sums(low, cc, low_weight, dd);
    T::lemma_distributive(low, d, d);
    lemma_right_distributive(c, c, low_weight);
    lemma_double_sum(low.times(d), c.times(low_weight));
    assert(low.times(dd).plus(cc.times(low_weight)) == v.plus(v));
    lemma_product_of_sums(c, c, d, d);
    T::lemma_associative(w, w.plus(w), w);
    T::lemma_associative(w, w, w);
    T::lemma_associative(w.plus(w), w, w);
    assert(cc.times(dd) == w.plus(w).plus(w.plus(w)));
    lemma_round_polynomial_interpolates(u, v, w, rho);
    // the product of the two lines
    lemma_line(low, high, rho);
    lemma_line(low_weight, high_weight, rho);
    lemma_product_of_lines(low, c, low_weight, d, rho);
}

/// The componentwise sum of two triples.
pub open spec fn triple_sum<T: FieldOps>(a: (T, T, T), b: (T, T, T)) -> (T, T, T) {
    (a.0.plus(b.0), a.1.plus(b.1), a.2.plus(b.2))
}

/// The round polynomial is additive in the sums, and it is zero for
/// sums that are zero.
pub proof fn lemma_round_polynomial_adds<T: Field>(a: (T, T, T), b: (T, T, T), rho: T)
    ensures
        round_polynomial(triple_sum(a, b), rho) == round_polynomial(a, rho).plus(
            round_polynomial(b, rho),
        ),
        round_polynomial((T::zero(), T::zero(), T::zero()), rho) == T::zero(),
{
    let one = T::one();
    let zero = T::zero();
    let low = one.minus(rho);
    let bend = rho.times(rho.minus(one)).times(T::half());
    let da = a.2.plus(a.0).minus(a.1.plus(a.1));
    let db = b.2.plus(b.0).minus(b.1.plus(b.1));
    // the second difference adds
    lemma_exchange_middle(a.2, b.2, a.0, b.0);
    lemma_exchange_middle(a.1, b.1, a.1, b.1);
    lemma_difference_of_sums(a.2.plus(a.0), b.2.plus(b.0), a.1.plus(a.1), b.1.plus(b.1));
    // each of the three terms adds
    lemma_right_distributive(a.0, b.0, low);
    lemma_right_distributive(a.1, b.1, rho);
    lemma_right_distributive(da, db, bend);
    lemma_exchange_middle(a.0.times(low), b.0.times(low), a.1.times(rho), b.1.times(rho));
    lemma_exchange_middle(
        a.0.times(low).plus(a.1.times(rho)),
        b.0.times(low).plus(b.1.times(rho)),
        da.times(bend),
        db.times(bend),
    );
    // zero sums
    lemma_times_zero(low);
    lemma_times_zero(rho);
    lemma_times_zero(bend);
    T::lemma_closed(zero, zero, 0);
    T::lemma_neutral(zero);
}

/// The round polynomial of the sums over the first `k` positions, at
/// the challenge, is the sum over those positions of the products of the
/// tables with the round's variable set to the challenge.
pub proof fn lemma_round_sums<T: Field>(p: Seq<T>, e: Seq<T>, m: int, rho: T, k: int)
    requires
        0 <= k <= m,
        2 * m <= p.len(),
        2 * m <= e.len(),
        all_canonical(p),
        all_canonical(e),
    ensures
        round_polynomial(partial_sums(p, e, m, k), rho) == dot(
            bound(p, m, rho),
            bound(e, m, rho),
            k,
        ),
    decreases k,
{
    if k <= 0 {
        lemma_round_polynomial_adds(
            (T::zero(), T::zero(), T::zero()),
            (T::zero(), T::zero(), T::zero()),
            rho,
        );
    } else {
        let x = k - 1;
        let before = partial_sums(p, e, m, k - 1);
        let term = (
            p[x].times(e[x]),
            p[x + m].times(e[x + m]),
            p[x + m].plus(p[x + m]).minus(p[x]).times(e[x + m].plus(e[x + m]).minus(e[x])),
        );
        lemma_round_sums(p, e, m, rho, k - 1);
        assert(partial_sums(p, e, m, k) == triple_sum(before, term));
        lemma_round_polynomial_adds(before, term, rho);
        lemma_round_term(p[x], p[x + m], e[x], e[x + m], rho);
    }
}

/// The sums of a round at zero and at one add up to the sum of the
/// products over the live part of the tables.
pub proof fn lemma_halves<T: Field>(p: Seq<T>, e: Seq<T>, m: int, k: int)
    requires
        0 <= k <= m,
    ensures
        partial_sums(p, e, m, k).0 == dot(p, e, k),
        dot(p, e, m).plus(partial_sums(p, e, m, k).1) == dot(p, e, m + k),
    decreases k,
{
    if k <= 0 {
        lemma_dot_canonical(p, e, m);
        T::lemma_neutral(dot(p, e, m));
    } else {
        lemma_halves(p, e, m, k - 1);
        T::lemma_associative(
            dot(p, e, m),
            partial_sums(p, e, m, k - 1).1,
            p[k - 1 + m].times(e[k - 1 + m]),
        );
    }
}

/// After the variables of the rounds before `i` have been set in the
/// polynomial's table, its live part, of `2^(n - i)` entries, is the
/// table of the polynomial with those variables set; the table keeps
/// its length and stays canonical.
pub proof fn lemma_polynomial_table<T: Field>(c: Seq<T>, challenges: Seq<T>, n: nat, i: int)
    requires
        c.len() == exp2(n),
        all_canonical(c),
        0 <= i <= n,
    ensures
        table_at(hypercube(c), challenges, n as int, i).len() == exp2(n),
        all_canonical(table_at(hypercube(c), challenges, n as int, i)),
        forall|x: int|
            0 <= x < exp2((n - i) as nat) ==> #[trigger] table_at(
                hypercube(c),
                challenges,
                n as int,
                i,
            )[x] == hypercube(bind_chain(c, challenges, i - 1))[x],
    decreases i,
{
    let table = table_at(hypercube(c), challenges, n as int, i);
    if i <= 0 {
        lemma_hypercube_canonical(c, n);
    } else {
        let before = table_at(hypercube(c), challenges, n as int, i - 1);
        let m = exp2((n - i) as nat) as int;
        let rho = challenges[i - 1];
        let coefficients = bind_chain(c, challenges, i - 2);
        lemma_polynomial_table(c, challenges, n, i - 1);
        lemma_bind_chain_shape(c, challenges, n, i - 2);
        lemma_exp2_increases((n - i + 1) as nat, n);
        assert(exp2((n - i + 1) as nat) == 2 * m);
        assert forall|x: int| 0 <= x < table.len() implies (#[trigger] table[x]).canonical() by {
            if x < m {
                T::lemma_closed(
                    before[x].times(T::one().minus(rho)),
                    before[x + m].times(rho),
                    0,
                );
            } else {
                assert(before[x].canonical());
            }
        }
        assert forall|x: int| 0 <= x < m implies #[trigger] table[x] == hypercube(
            bind_chain(c, challenges, i - 1),
        )[x] by {
            lemma_hypercube_bound(coefficients, rho, (n - i + 1) as nat, x);
            lemma_hypercube_len(coefficients, (n - i + 1) as nat);
            assert(before[x] == hypercube(coefficients)[x]);
            assert(before[x + m] == hypercube(coefficients)[x + m]);
        }
    }
}

/// The product of the factors of the equality polynomial for the
/// variables before `i`.
pub open spec fn eq_prefix<T: FieldOps>(point: Seq<T>, at: Seq<T>, i: int) -> T
    decreases i,
{
    if i <= 0 {
        T::one()
    } else {
        eq_prefix(point, at, i - 1).times(eq_factor(point[i - 1], at[i - 1]))
    }
}

/// One entry of the equality polynomial's table when the round's
/// variable is set: `(r a) f b + (r z) f rho = r (f (z rho + a b))`.
pub proof fn lemma_eq_entry<T: Field>(r: T, a: T, z: T, f: T, b: T, rho: T)
    ensures
        r.times(a).times(f).times(b).plus(r.times(z).times(f).times(rho)) == r.times(
            f.times(z.times(rho).plus(a.times(b))),
        ),
{
    // (r a) f b = r (f (a b))
    T::lemma_associative(r.times(a), f, b);
    T::lemma_associative(r, a, f.times(b));
    T::lemma_associative(a, f, b);
    T::lemma_commutative(a, f);
    T::lemma_associative(f, a, b);
    // (r z) f rho = r (f (z rho))
    T::lemma_associative(r.times(z), f, rho);
    T::lemma_associative(r, z, f.times(rho));
    T::lemma_associative(z, f, rho);
    T::lemma_commutative(z, f);
    T::lemma_associative(f, z, rho);
    T::lemma_distributive(r, f.times(a.times(b)), f.times(z.times(rho)));
    T::lemma_distributive(f, a.times(b), z.times(rho));
    T::lemma_commutative(a.times(b), z.times(rho));
}

/// After the variables of the rounds before `i` have been set in the
/// equality polynomial's table, its live part is the table of the
/// equality polynomial of the remaining coordinates, times the factors
/// of the variables that were set; the table keeps its length and stays
/// canonical.
pub proof fn lemma_equality_table<T: Field>(point: Seq<T>, challenges: Seq<T>, n: nat, i: int)
    requires
        point.len() == n,
        0 <= i <= n,
    ensures
        table_at(eq_hypercube(point), challenges, n as int, i).len() == exp2(n),
        all_canonical(table_at(eq_hypercube(point), challenges, n as int, i)),
        forall|x: int|
            0 <= x < exp2((n - i) as nat) ==> #[trigger] table_at(
                eq_hypercube(point),
                challenges,
                n as int,
                i,
            )[x] == eq_hypercube(point.subrange(i, n as int))[x].times(
                eq_prefix(point, challenges, i),
            ),
    decreases i,
{
    let table = table_at(eq_hypercube(point), challenges, n as int, i);
    let tail = point.subrange(i, n as int);
    lemma_eq_hypercube_canonical(point);
    lemma_eq_hypercube_canonical(tail);
    if i <= 0 {
        assert(tail =~= point);
        assert forall|x: int| 0 <= x < exp2(n) implies #[trigger] table[x] == eq_hypercube(
            tail,
        )[x].times(T::one()) by {
            T::lemma_neutral(eq_hypercube(point)[x]);
        }
    } else {
        let before = table_at(eq_hypercube(point), challenges, n as int, i - 1);
        let longer = point.subrange(i - 1, n as int);
        let m = exp2((n - i) as nat) as int;
        let rho = challenges[i - 1];
        let z = point[i - 1];
        let f = eq_prefix(point, challenges, i - 1);
        let rest = eq_hypercube(tail);
        lemma_equality_table(point, challenges, n, i - 1);
        lemma_exp2_increases((n - i + 1) as nat, n);
        assert(exp2((n - i + 1) as nat) == 2 * m);
        assert(longer.drop_first() =~= tail);
        assert(longer[0] == z);
        assert forall|x: int| 0 <= x < table.len() implies (#[trigger] table[x]).canonical() by {
            if x < m {
                T::lemma_closed(
                    before[x].times(T::one().minus(rho)),
                    before[x + m].times(rho),
                    0,
                );
            } else {
                assert(before[x].canonical());
            }
        }
        assert forall|x: int| 0 <= x < m implies #[trigger] table[x] == rest[x].times(
            eq_prefix(point, challenges, i),
        ) by {
            assert(before[x] == eq_hypercube(longer)[x].times(f));
            assert(before[x + m] == eq_hypercube(longer)[x + m].times(f));
            assert(eq_hypercube(longer)[x] == rest[x].times(T::one().minus(z)));
            assert(eq_hypercube(longer)[x + m] == rest[x].times(z));
            lemma_eq_entry(rest[x], T::one().minus(z), z, f, T::one().minus(rho), rho);
        }
    }
}

/// The product of the factors for the first `i` variables, times the
/// value of the equality polynomial of the other coordinates, is the
/// value of the equality polynomial.
pub proof fn lemma_eq_prefix<T: Field>(point: Seq<T>, at: Seq<T>, i: int)
    requires
        point.len() == at.len(),
        0 <= i <= point.len(),
    ensures
        eq_prefix(point, at, i).times(
            eq_value(point.subrange(i, point.len() as int), at.subrange(i, at.len() as int)),
        ) == eq_value(point, at),
        eq_value(point, at).canonical(),
        eq_prefix(point, at, i).canonical(),
    decreases i,
{
    let n = point.len() as int;
    T::lemma_closed(T::one(), T::one(), 0);
    if point.len() > 0 {
        T::lemma_closed(
            eq_factor(point[0], at[0]),
            eq_value(point.drop_first(), at.drop_first()),
            0,
        );
    }
    if i <= 0 {
        assert(point.subrange(0, n) =~= point);
        assert(at.subrange(0, n) =~= at);
        T::lemma_commutative(T::one(), eq_value(point, at));
        T::lemma_neutral(eq_value(point, at));
    } else {
        let f = eq_prefix(point, at, i - 1);
        let factor = eq_factor(point[i - 1], at[i - 1]);
        let tail_p = point.subrange(i - 1, n);
        let tail_a = at.subrange(i - 1, n);
        lemma_eq_prefix(point, at, i - 1);
        assert(tail_p.drop_first() =~= point.subrange(i, n));
        assert(tail_a.drop_first() =~= at.subrange(i, n));
        T::lemma_associative(f, factor, eq_value(point.subrange(i, n), at.subrange(i, n)));
        T::lemma_closed(f, factor, 0);
    }
}

} // verus!
