//! The tables of a multilinear polynomial and of the equality
//! polynomial on the Boolean cube, and what they mean.
use vstd::prelude::*;
use super::codeword::{all_canonical, left_scaled, lemma_parts_canonical};
use super::field::{lemma_exchange_middle, Field, FieldOps};
use super::polynomial::{
    bind_first, eq_hypercube, eq_value, evens, hypercube, lemma_eq_hypercube_len,
    lemma_hypercube_len, multilinear_value, odds, pointwise_sum,
};
use super::ring::{lemma_line, lemma_times_zero};
use crate::power_of_two::{exp2, lemma_exp2_increases};

verus! {

/// The table `v` after its first variable is set to `rho`, where the
/// live part of the table has `2 m` entries: the first `m` entries
/// become `(1 - rho) v[x] + rho v[x + m]`; the others stay.
pub open spec fn bound<T: FieldOps>(v: Seq<T>, m: int, rho: T) -> Seq<T> {
    Seq::new(
        v.len(),
        |x: int|
            if x < m {
                v[x].times(T::one().minus(rho)).plus(v[x + m].times(rho))
            } else {
                v[x]
            },
    )
}

/// The sum of the products `p[x] e[x]` over the first `k` positions.
pub open spec fn dot<T: FieldOps>(p: Seq<T>, e: Seq<T>, k: int) -> T
    decreases k,
{
    if k <= 0 {
        T::zero()
    } else {
        dot(p, e, k - 1).plus(p[k - 1].times(e[k - 1]))
    }
}

/// A sum of products is canonical.
pub proof fn lemma_dot_canonical<T: Field>(p: Seq<T>, e: Seq<T>, k: int)
    ensures
        dot(p, e, k).canonical(),
{
    T::lemma_closed(T::zero(), T::zero(), 0);
    if k > 0 {
        T::lemma_closed(dot(p, e, k - 1), p[k - 1].times(e[k - 1]), 0);
    }
}

/// The table of a polynomial with canonical coefficients is canonical.
pub proof fn lemma_hypercube_canonical<T: Field>(c: Seq<T>, k: nat)
    requires
        c.len() == exp2(k),
        all_canonical(c),
    ensures
        all_canonical(hypercube(c)),
        hypercube(c).len() == c.len(),
    decreases k,
{
    lemma_hypercube_len(c, k);
    if k > 0 {
        let low = hypercube(evens(c));
        let high = hypercube(odds(c));
        lemma_exp2_increases(0, (k - 1) as nat);
        lemma_parts_canonical(c, T::zero());
        lemma_hypercube_canonical(evens(c), (k - 1) as nat);
        lemma_hypercube_canonical(odds(c), (k - 1) as nat);
        assert forall|x: int| 0 <= x < hypercube(c).len() implies (#[trigger] hypercube(
            c,
        )[x]).canonical() by {
            if x >= low.len() {
                T::lemma_closed(low[x - low.len()], high[x - low.len()], 0);
            } else {
                assert(low[x].canonical());
            }
        }
    }
}

/// The table is linear in the polynomial: that of `a + rho b` is the
/// table of `a` plus `rho` times the table of `b`.
pub proof fn lemma_hypercube_linear<T: Field>(a: Seq<T>, b: Seq<T>, rho: T, k: nat)
    requires
        a.len() == exp2(k),
        b.len() == exp2(k),
    ensures
        hypercube(pointwise_sum(a, left_scaled(b, rho))) == pointwise_sum(
            hypercube(a),
            left_scaled(hypercube(b), rho),
        ),
    decreases k,
{
    let c = pointwise_sum(a, left_scaled(b, rho));
    lemma_hypercube_len(a, k);
    lemma_hypercube_len(b, k);
    lemma_hypercube_len(c, k);
    if k > 0 {
        let (la, ha) = (hypercube(evens(a)), hypercube(odds(a)));
        let (lb, hb) = (hypercube(evens(b)), hypercube(odds(b)));
        lemma_exp2_increases(0, (k - 1) as nat);
        assert(evens(c) =~= pointwise_sum(evens(a), left_scaled(evens(b), rho)));
        assert(odds(c) =~= pointwise_sum(odds(a), left_scaled(odds(b), rho)));
        lemma_hypercube_linear(evens(a), evens(b), rho, (k - 1) as nat);
        lemma_hypercube_linear(odds(a), odds(b), rho, (k - 1) as nat);
        lemma_hypercube_len(evens(a), (k - 1) as nat);
        lemma_hypercube_len(odds(a), (k - 1) as nat);
        lemma_hypercube_len(evens(b), (k - 1) as nat);
        lemma_hypercube_len(odds(b), (k - 1) as nat);
        let target = pointwise_sum(hypercube(a), left_scaled(hypercube(b), rho));
        assert forall|x: int| 0 <= x < target.len() implies hypercube(c)[x] == target[x] by {
            if x >= la.len() {
                let y = x - la.len();
                T::lemma_distributive(rho, lb[y], hb[y]);
                lemma_exchange_middle(la[y], rho.times(lb[y]), ha[y], rho.times(hb[y]));
            }
        }
        assert(hypercube(c) =~= target);
    } else {
        assert(c.len() == 1);
    }
}

/// The table of a polynomial with its first variable set to `rho` is
/// the table's lower half plus `rho` times the difference of the
/// halves.
pub proof fn lemma_hypercube_bound<T: Field>(c: Seq<T>, rho: T, k: nat, x: int)
    requires
        c.len() == exp2(k),
        k >= 1,
        all_canonical(c),
        0 <= x < exp2((k - 1) as nat),
    ensures
        hypercube(bind_first(c, rho))[x] == bound(
            hypercube(c),
            exp2((k - 1) as nat) as int,
            rho,
        )[x],
{
    let m = exp2((k - 1) as nat) as int;
    let low = hypercube(evens(c));
    let high = hypercube(odds(c));
    lemma_exp2_increases(0, (k - 1) as nat);
    lemma_parts_canonical(c, rho);
    lemma_hypercube_canonical(evens(c), (k - 1) as nat);
    lemma_hypercube_canonical(odds(c), (k - 1) as nat);
    lemma_hypercube_canonical(c, k);
    assert(bind_first(c, rho) =~= pointwise_sum(evens(c), left_scaled(odds(c), rho)));
    lemma_hypercube_linear(evens(c), odds(c), rho, (k - 1) as nat);
    assert(hypercube(c)[x] == low[x]);
    assert(hypercube(c)[x + m] == low[x].plus(high[x]));
    assert(low[x].canonical());
    assert(high[x].canonical());
    lemma_line(low[x], low[x].plus(high[x]), rho);
    T::lemma_commutative(low[x], high[x]);
    T::lemma_minus_plus(high[x], low[x]);
}

/// The table of the equality polynomial is canonical.
pub proof fn lemma_eq_hypercube_canonical<T: Field>(point: Seq<T>)
    ensures
        all_canonical(eq_hypercube(point)),
        eq_hypercube(point).len() == exp2(point.len()),
    decreases point.len(),
{
    lemma_eq_hypercube_len(point);
    T::lemma_closed(T::one(), T::one(), 0);
    if point.len() > 0 {
        let rest = eq_hypercube(point.drop_first());
        lemma_eq_hypercube_len(point.drop_first());
        assert forall|x: int| 0 <= x < eq_hypercube(point).len() implies (#[trigger] eq_hypercube(
            point,
        )[x]).canonical() by {
            if x < rest.len() {
                T::lemma_closed(rest[x], T::one().minus(point[0]), 0);
            } else {
                T::lemma_closed(rest[x - rest.len()], point[0], 0);
            }
        }
    }
}

/// A sum of products over `m + k` positions is the sum over the first
/// `m` plus the sum over the `k` that follow.
pub proof fn lemma_dot_splits<T: Field>(p: Seq<T>, e: Seq<T>, m: int, k: int)
    requires
        0 <= m,
        0 <= k,
        m + k <= p.len(),
        m + k <= e.len(),
    ensures
        dot(p, e, m + k) == dot(p, e, m).plus(dot(p.skip(m), e.skip(m), k)),
    decreases k,
{
    if k <= 0 {
        lemma_dot_canonical(p, e, m);
        T::lemma_neutral(dot(p, e, m));
    } else {
        lemma_dot_splits(p, e, m, k - 1);
        T::lemma_associative(
            dot(p, e, m),
            dot(p.skip(m), e.skip(m), k - 1),
            p[m + k - 1].times(e[m + k - 1]),
        );
    }
}

/// If every product `r[x] g[x]` is the sum of the products `p[x] e[x]`
/// and `q[x] f[x]`, the sum of the former is the sum of the sums of the
/// latter.
pub proof fn lemma_dot_adds<T: Field>(
    p: Seq<T>,
    e: Seq<T>,
    q: Seq<T>,
    f: Seq<T>,
    r: Seq<T>,
    g: Seq<T>,
    k: int,
)
    requires
        forall|x: int|
            0 <= x < k ==> #[trigger] r[x].times(g[x]) == p[x].times(e[x]).plus(q[x].times(f[x])),
    ensures
        dot(r, g, k) == dot(p, e, k).plus(dot(q, f, k)),
    decreases k,
{
    if k <= 0 {
        T::lemma_closed(T::zero(), T::zero(), 0);
        T::lemma_neutral(T::zero());
    } else {
        let x = k - 1;
        lemma_dot_adds(p, e, q, f, r, g, k - 1);
        assert(r[x].times(g[x]) == p[x].times(e[x]).plus(q[x].times(f[x])));
        lemma_exchange_middle(
            dot(p, e, k - 1),
            dot(q, f, k - 1),
            p[x].times(e[x]),
            q[x].times(f[x]),
        );
    }
}

/// One position of the table sum: with the weights `r (1 - z)` and
/// `r z` of the two halves, the entries `l` and `l + h` contribute
/// `(l + z h) r`.
pub proof fn lemma_table_term<T: Field>(l: T, h: T, r: T, z: T)
    requires
        l.canonical(),
        h.canonical(),
    ensures
        l.plus(z.times(h)).times(r) == l.times(r.times(T::one().minus(z))).plus(
            l.plus(h).times(r.times(z)),
        ),
{
    let a = T::one().minus(z);
    let lh = l.plus(h);
    // l (r a) + lh (r z) = r (l a + lh z)
    T::lemma_associative(l, r, a);
    T::lemma_commutative(l, r);
    T::lemma_associative(r, l, a);
    T::lemma_associative(lh, r, z);
    T::lemma_commutative(lh, r);
    T::lemma_associative(r, lh, z);
    T::lemma_distributive(r, l.times(a), lh.times(z));
    // l a + lh z = l + z (lh - l) = l + z h
    lemma_line(l, lh, z);
    T::lemma_commutative(l, h);
    T::lemma_minus_plus(h, l);
    T::lemma_commutative(r, l.plus(z.times(h)));
}

/// The values of a polynomial on the Boolean cube, weighted by the
/// equality polynomial of a point, add up to its value at the point.
pub proof fn lemma_table_sum<T: Field>(c: Seq<T>, point: Seq<T>, n: nat)
    requires
        c.len() == exp2(n),
        all_canonical(c),
        point.len() == n,
    ensures
        dot(hypercube(c), eq_hypercube(point), exp2(n) as int) == multilinear_value(c, point),
    decreases n,
{
    let table = hypercube(c);
    let weights = eq_hypercube(point);
    lemma_hypercube_canonical(c, n);
    lemma_eq_hypercube_canonical(point);
    if n == 0 {
        reveal_with_fuel(dot, 2);
        assert(table[0] == c[0]);
        assert(weights[0] == T::one());
        T::lemma_neutral(c[0]);
        T::lemma_closed(c[0], T::one(), 0);
        T::lemma_commutative(T::zero(), c[0]);
    } else {
        let m = exp2((n - 1) as nat) as int;
        let z = point[0];
        let rest = eq_hypercube(point.drop_first());
        let low = hypercube(evens(c));
        let high = hypercube(odds(c));
        let next = hypercube(bind_first(c, z));
        lemma_exp2_increases(0, (n - 1) as nat);
        lemma_parts_canonical(c, z);
        lemma_hypercube_canonical(evens(c), (n - 1) as nat);
        lemma_hypercube_canonical(odds(c), (n - 1) as nat);
        lemma_eq_hypercube_canonical(point.drop_first());
        assert(bind_first(c, z) =~= pointwise_sum(evens(c), left_scaled(odds(c), z)));
        lemma_hypercube_linear(evens(c), odds(c), z, (n - 1) as nat);
        lemma_dot_splits(table, weights, m, m);
        assert forall|x: int| 0 <= x < m implies #[trigger] next[x].times(rest[x]) == table[x].times(
            weights[x],
        ).plus(table.skip(m)[x].times(weights.skip(m)[x])) by {
            assert(table[x] == low[x]);
            assert(table[x + m] == low[x].plus(high[x]));
            assert(weights[x] == rest[x].times(T::one().minus(z)));
            assert(weights[x + m] == rest[x].times(z));
            assert(low[x].canonical());
            assert(high[x].canonical());
            lemma_table_term(low[x], high[x], rest[x], z);
        }
        lemma_dot_adds(table, weights, table.skip(m), weights.skip(m), next, rest, m);
        lemma_table_sum(bind_first(c, z), point.drop_first(), (n - 1) as nat);
    }
}

/// The Boolean point at position `x` of a table for `n` variables: the
/// first variable is the highest of the `n` bits of `x`.
pub open spec fn boolean_point<T: FieldOps>(x: int, n: nat) -> Seq<T>
    decreases n,
{
    if n == 0 {
        Seq::empty()
    } else {
        let m = exp2((n - 1) as nat) as int;
        if x >= m {
            seq![T::one()] + boolean_point(x - m, (n - 1) as nat)
        } else {
            seq![T::zero()] + boolean_point(x, (n - 1) as nat)
        }
    }
}

/// A Boolean point has one coordinate for each variable.
pub proof fn lemma_boolean_point_len<T: Field>(x: int, n: nat)
    ensures
        boolean_point::<T>(x, n).len() == n,
    decreases n,
{
    if n > 0 {
        let m = exp2((n - 1) as nat) as int;
        if x >= m {
            lemma_boolean_point_len::<T>(x - m, (n - 1) as nat);
        } else {
            lemma_boolean_point_len::<T>(x, (n - 1) as nat);
        }
    }
}

/// What the table of a polynomial holds: the entry at position `x` is
/// the value of the polynomial at the Boolean point of `x`.
pub proof fn lemma_hypercube_is_evaluation<T: Field>(c: Seq<T>, n: nat, x: int)
    requires
        c.len() == exp2(n),
        all_canonical(c),
        0 <= x < exp2(n),
    ensures
        hypercube(c)[x] == multilinear_value(c, boolean_point(x, n)),
        boolean_point::<T>(x, n).len() == n,
    decreases n,
{
    lemma_boolean_point_len::<T>(x, n);
    if n > 0 {
        let m = exp2((n - 1) as nat) as int;
        let table = hypercube(c);
        let point = boolean_point::<T>(x, n);
        let (bit, y) = if x >= m {
            (T::one(), x - m)
        } else {
            (T::zero(), x)
        };
        lemma_exp2_increases(0, (n - 1) as nat);
        lemma_hypercube_canonical(c, n);
        lemma_parts_canonical(c, bit);
        lemma_hypercube_bound(c, bit, n, y);
        lemma_hypercube_is_evaluation(bind_first(c, bit), (n - 1) as nat, y);
        assert(point.drop_first() =~= boolean_point::<T>(y, (n - 1) as nat));
        assert(point[0] == bit);
        assert(table[y].canonical());
        assert(table[y + m].canonical());
        // (1 - 0) = 1 and (1 - 1) = 0
        T::lemma_closed(T::one(), T::one(), 0);
        T::lemma_neutral(T::one());
        T::lemma_neutral(table[y]);
        T::lemma_neutral(table[y + m]);
        lemma_times_zero(table[y]);
        lemma_times_zero(table[y + m]);
        T::lemma_commutative(T::zero(), table[y + m]);
    }
}

/// What the table of the equality polynomial holds: the entry at
/// position `x` is the value of the equality polynomial at the Boolean
/// point of `x`.
pub proof fn lemma_eq_hypercube_is_evaluation<T: Field>(point: Seq<T>, x: int)
    requires
        0 <= x < exp2(point.len()),
    ensures
        eq_hypercube(point)[x] == eq_value(point, boolean_point(x, point.len())),
        boolean_point::<T>(x, point.len()).len() == point.len(),
    decreases point.len(),
{
    let n = point.len();
    lemma_boolean_point_len::<T>(x, n);
    if n > 0 {
        let m = exp2((n - 1) as nat) as int;
        let z = point[0];
        let rest = eq_hypercube(point.drop_first());
        let at = boolean_point::<T>(x, n);
        let y = if x >= m {
            x - m
        } else {
            x
        };
        let one = T::one();
        let zero = T::zero();
        lemma_exp2_increases(0, (n - 1) as nat);
        lemma_eq_hypercube_canonical(point.drop_first());
        lemma_eq_hypercube_is_evaluation(point.drop_first(), y);
        assert(at.drop_first() =~= boolean_point::<T>(y, (n - 1) as nat));
        assert(rest[y].canonical());
        T::lemma_closed(one, z, 0);
        T::lemma_closed(one, one, 0);
        T::lemma_neutral(one);
        T::lemma_neutral(one.minus(z));
        lemma_times_zero(z);
        lemma_times_zero(one.minus(z));
        if x >= m {
            // z 1 + (1 - z)(1 - 1) = z 1, and (z 1) r = z r
            T::lemma_closed(z, one, 0);
            T::lemma_neutral(z.times(one));
            T::lemma_associative(z, one, rest[y]);
            T::lemma_commutative(one, rest[y]);
            T::lemma_neutral(rest[y]);
            T::lemma_commutative(z, rest[y]);
        } else {
            // z 0 + (1 - z)(1 - 0) = 1 - z
            T::lemma_commutative(zero, one.minus(z));
            T::lemma_commutative(one.minus(z), rest[y]);
        }
    }
}

} // verus!
