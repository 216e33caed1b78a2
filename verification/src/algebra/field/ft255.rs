//! The prime field of 255 bits with a root of unity of order `2^41`,
//! its elements held in Montgomery form in four limbs of 64 bits.
use vstd::prelude::*;
use vstd::arithmetic::div_mod::{
    lemma_add_mod_noop, lemma_fundamental_div_mod_converse, lemma_mul_mod_noop_general,
    lemma_small_mod, lemma_sub_mod_noop,
};
use vstd::bytes::{spec_u64_to_le_bytes, u64_to_le_bytes};
use super::{square_times, Field, FieldOps};
use crate::power_of_two::exp2;
use crate::random::random_u64;

verus! {

/// The size of a limb, `2^64`.
pub open spec fn wide() -> int {
    0x1_0000_0000_0000_0000
}

/// What four limbs cannot hold, `2^256`.
pub open spec fn capacity() -> int {
    115792089237316195423570985008687907853269984665640564039457584007913129639936int
}

/// The modulus, a prime of 255 bits.
pub open spec fn modulus() -> int {
    46242760681095663677370860714659204618859642560429202607213929836750194081793int
}

/// The inverse of `2^256` modulo the modulus.
pub open spec fn montgomery_inverse() -> int {
    33287078893683489518266322061368703819523737797304741783757223548406079764442int
}

/// `2^256` reduced by the modulus: the Montgomery form of one.
pub open spec fn montgomery_one() -> int {
    23306567875124868068829263579369498615550699544782158825029724334412741476350int
}

/// `2^512` reduced by the modulus: the Montgomery form of `2^256`.
pub open spec fn montgomery_square() -> int {
    25531561843763992014487197456990007226626018082376131308038620750373662202256int
}

/// The number that four limbs hold, lowest limb first.
pub open spec fn limbs_value(l: [u64; 4]) -> int {
    l[0] + wide() * (l[1] + wide() * (l[2] + wide() * l[3]))
}

/// The four limbs of a number below `2^256`.
pub open spec fn limbs_of(v: int) -> (u64, u64, u64, u64) {
    (
        (v % wide()) as u64,
        ((v / wide()) % wide()) as u64,
        ((v / wide() / wide()) % wide()) as u64,
        ((v / wide() / wide() / wide()) % wide()) as u64,
    )
}

/// Four limbs are the limbs of the number that they hold.
pub proof fn lemma_limbs_of_value(l: [u64; 4])
    ensures
        limbs_of(limbs_value(l)) == (l[0], l[1], l[2], l[3]),
        0 <= limbs_value(l) < capacity(),
{
    let w = wide();
    let v = limbs_value(l);
    let v1 = l[1] + w * (l[2] + w * l[3]);
    let v2 = l[2] + w * l[3];
    lemma_fundamental_div_mod_converse(v, w, v1, l[0] as int);
    lemma_fundamental_div_mod_converse(v1, w, v2, l[1] as int);
    lemma_fundamental_div_mod_converse(v2, w, l[3] as int, l[2] as int);
    lemma_small_mod(l[3] as nat, w as nat);
}

/// The modulus in limbs.
fn modulus_limbs() -> (r: [u64; 4])
    ensures
        limbs_value(r) == modulus(),
{
    [190543166070325249, 17254354020929724208, 18278385774042241385, 7366896798948731136]
}

/// Adds two numbers of four limbs; the second result is the carry out
/// of the highest limb.
fn add_limbs(a: &[u64; 4], b: &[u64; 4]) -> (r: ([u64; 4], u64))
    ensures
        limbs_value(r.0) + r.1 * capacity() == limbs_value(*a) + limbs_value(*b),
        r.1 <= 1,
{
    let s0: u128 = a[0] as u128 + b[0] as u128;
    let s1: u128 = a[1] as u128 + b[1] as u128 + s0 / 0x1_0000_0000_0000_0000;
    let s2: u128 = a[2] as u128 + b[2] as u128 + s1 / 0x1_0000_0000_0000_0000;
    let s3: u128 = a[3] as u128 + b[3] as u128 + s2 / 0x1_0000_0000_0000_0000;
    let r = [
        (s0 % 0x1_0000_0000_0000_0000) as u64,
        (s1 % 0x1_0000_0000_0000_0000) as u64,
        (s2 % 0x1_0000_0000_0000_0000) as u64,
        (s3 % 0x1_0000_0000_0000_0000) as u64,
    ];
    (r, (s3 / 0x1_0000_0000_0000_0000) as u64)
}

/// Subtracts two numbers of four limbs; the second result is the
/// borrow out of the highest limb.
fn sub_limbs(a: &[u64; 4], b: &[u64; 4]) -> (r: ([u64; 4], u64))
    ensures
        limbs_value(r.0) - r.1 * capacity() == limbs_value(*a) - limbs_value(*b),
        r.1 <= 1,
{
    let w: u128 = 0x1_0000_0000_0000_0000;
    let d0: u128 = w + a[0] as u128 - b[0] as u128;
    let b0: u128 = 1 - d0 / w;
    let d1: u128 = w + a[1] as u128 - b[1] as u128 - b0;
    let b1: u128 = 1 - d1 / w;
    let d2: u128 = w + a[2] as u128 - b[2] as u128 - b1;
    let b2: u128 = 1 - d2 / w;
    let d3: u128 = w + a[3] as u128 - b[3] as u128 - b2;
    let b3: u128 = 1 - d3 / w;
    let r = [(d0 % w) as u64, (d1 % w) as u64, (d2 % w) as u64, (d3 % w) as u64];
    (r, b3 as u64)
}

/// The sum of two reduced numbers, reduced.
fn add_mod(a: &[u64; 4], b: &[u64; 4]) -> (r: [u64; 4])
    requires
        limbs_value(*a) < modulus(),
        limbs_value(*b) < modulus(),
    ensures
        limbs_value(r) == (limbs_value(*a) + limbs_value(*b)) % modulus(),
        limbs_value(r) < modulus(),
{
    let p = modulus_limbs();
    let (sum, carry) = add_limbs(a, b);
    let (reduced, borrow) = sub_limbs(&sum, &p);
    proof {
        let s = limbs_value(*a) + limbs_value(*b);
        lemma_limbs_of_value(sum);
        lemma_limbs_of_value(reduced);
        lemma_limbs_of_value(*a);
        lemma_limbs_of_value(*b);
        if borrow == 0 {
            lemma_fundamental_div_mod_converse(s, modulus(), 1, s - modulus());
        } else {
            lemma_small_mod(s as nat, modulus() as nat);
        }
    }
    if borrow == 0 {
        reduced
    } else {
        sum
    }
}

/// The difference of two reduced numbers, reduced.
fn sub_mod(a: &[u64; 4], b: &[u64; 4]) -> (r: [u64; 4])
    requires
        limbs_value(*a) < modulus(),
        limbs_value(*b) < modulus(),
    ensures
        limbs_value(r) == (limbs_value(*a) - limbs_value(*b)) % modulus(),
        limbs_value(r) < modulus(),
{
    let p = modulus_limbs();
    let (difference, borrow) = sub_limbs(a, b);
    let (wrapped, carry) = add_limbs(&difference, &p);
    proof {
        let d = limbs_value(*a) - limbs_value(*b);
        lemma_limbs_of_value(difference);
        lemma_limbs_of_value(wrapped);
        lemma_limbs_of_value(*a);
        lemma_limbs_of_value(*b);
        if borrow == 0 {
            lemma_small_mod(d as nat, modulus() as nat);
        } else {
            lemma_fundamental_div_mod_converse(d, modulus(), -1, d + modulus());
        }
    }
    if borrow == 0 {
        difference
    } else {
        wrapped
    }
}

/// The number that the limbs from `j` upwards hold, the limb `j` being
/// the lowest.
pub open spec fn upper_value(l: [u64; 4], j: int) -> int {
    if j >= 4 {
        0
    } else if j == 3 {
        l[3] as int
    } else if j == 2 {
        l[2] + wide() * l[3]
    } else if j == 1 {
        l[1] + wide() * (l[2] + wide() * l[3])
    } else {
        limbs_value(l)
    }
}

/// `2^64` is the size of a limb.
proof fn lemma_exp2_64()
    ensures
        exp2(64) == wide(),
{
    reveal_with_fuel(exp2, 65);
}

/// The Montgomery form of one in limbs.
fn montgomery_one_limbs() -> (r: [u64; 4])
    ensures
        limbs_value(r) == montgomery_one(),
{
    [18065657741568901118, 2384780105559654815, 336716599334620460, 3712950475812089342]
}

/// The Montgomery form of `2^256` in limbs: `2^512` reduced by the
/// modulus.
fn montgomery_square_limbs() -> (r: [u64; 4])
    ensures
        limbs_value(r) == montgomery_square(),
{
    [14917798636253059472, 1364828754468578947, 6748501025433882145, 4067412465187837497]
}

/// A number split into its lowest limb and the rest, times `v`.
proof fn lemma_times_limbs(low: int, rest: int, v: int)
    ensures
        (low + wide() * rest) * v == low * v + wide() * (rest * v),
{
    assert((low + wide() * rest) * v == low * v + wide() * (rest * v)) by (nonlinear_arith);
}

/// Four rounds of the Montgomery product, put together: if each round
/// turns `s` into `(s + x + y) / 2^64`, the last result times `2^256` is
/// the sum of the `x` and the `y`, each weighted by its limb's place.
proof fn lemma_rounds_accumulate(
    s0: int,
    s1: int,
    s2: int,
    t: int,
    x0: int,
    x1: int,
    x2: int,
    x3: int,
    y0: int,
    y1: int,
    y2: int,
    y3: int,
)
    requires
        s0 * wide() == x0 + y0,
        s1 * wide() == s0 + x1 + y1,
        s2 * wide() == s1 + x2 + y2,
        t * wide() == s2 + x3 + y3,
    ensures
        t * capacity() == x0 + wide() * (x1 + wide() * (x2 + wide() * x3)) + (y0 + wide() * (y1
            + wide() * (y2 + wide() * y3))),
{
    let w1 = wide();
    let w2 = w1 * w1;
    let w3 = w2 * w1;
    let w4 = w3 * w1;
    assert(w2 == 0x1_0000_0000_0000_0000_0000_0000_0000_0000int);
    assert(w3 == 0x1_0000_0000_0000_0000_0000_0000_0000_0000_0000_0000_0000_0000int);
    assert(w4 == capacity());
    assert(t * w4 == w3 * (t * w1)) by (nonlinear_arith)
        requires
            w4 == w3 * w1,
    ;
    assert(s2 * w3 == w2 * (s2 * w1)) by (nonlinear_arith)
        requires
            w3 == w2 * w1,
    ;
    assert(s1 * w2 == w1 * (s1 * w1)) by (nonlinear_arith)
        requires
            w2 == w1 * w1,
    ;
}

/// If `t c` is `a` plus a multiple of `p`, and `k` inverts `c` modulo
/// `p`, then `t` is congruent to `a k`.
proof fn lemma_scaled_congruence(t: int, a: int, multiple: int, c: int, k: int, q: int, p: int)
    requires
        p > 0,
        t * c == a + multiple * p,
        c * k == q * p + 1,
    ensures
        t % p == (a * k) % p,
{
    assert(t == a * k + (multiple * k - t * q) * p) by (nonlinear_arith)
        requires
            t * c == a + multiple * p,
            c * k == q * p + 1,
    ;
    vstd::arithmetic::div_mod::lemma_mod_multiples_vanish(multiple * k - t * q, a * k, p);
}

/// Products commute.
proof fn lemma_products_commute(x: int, a: int, b: int, c: int, d: int)
    ensures
        x * a == a * x,
        x * b == b * x,
        x * c == c * x,
        x * d == d * x,
{
    assert(x * a == a * x) by (nonlinear_arith);
    assert(x * b == b * x) by (nonlinear_arith);
    assert(x * c == c * x) by (nonlinear_arith);
    assert(x * d == d * x) by (nonlinear_arith);
}

/// The two products that a round adds are below `2^64` times the
/// modulus in all.
proof fn lemma_product_bounds(m: int, x: int, v: int)
    requires
        0 <= m < wide(),
        0 <= x < wide(),
        0 <= v < modulus(),
    ensures
        x * v + m * modulus() < 2 * wide() * modulus() - 2 * modulus(),
{
    assert(m * modulus() <= (wide() - 1) * modulus()) by (nonlinear_arith)
        requires
            0 <= m <= wide() - 1,
            modulus() > 0,
    ;
    assert(x * v <= (wide() - 1) * (modulus() - 1)) by (nonlinear_arith)
        requires
            0 <= x <= wide() - 1,
            0 <= v <= modulus() - 1,
    ;
}

/// `t + a b + carry` as a low and a high limb.
fn multiply_add(t: u64, a: u64, b: u64, carry: u64) -> (r: (u64, u64))
    ensures
        r.0 + r.1 * wide() == t + a * b + carry,
{
    assert(a * b <= 0xffff_ffff_ffff_ffff * 0xffff_ffff_ffff_ffff) by (nonlinear_arith)
        requires
            a <= 0xffff_ffff_ffff_ffff,
            b <= 0xffff_ffff_ffff_ffff,
    ;
    let cur: u128 = t as u128 + (a as u128) * (b as u128) + carry as u128;
    ((cur % 0x1_0000_0000_0000_0000) as u64, (cur / 0x1_0000_0000_0000_0000) as u64)
}

/// One round of the Montgomery product: adds `x b` and the multiple
/// `m` of the modulus that clears the lowest limb, and drops that limb.
/// The multiplier is the lowest limb times the negated inverse of the
/// modulus modulo `2^64`.
fn montgomery_round(t: &[u64; 4], x: u64, b: &[u64; 4]) -> (r: ([u64; 4], Ghost<int>))
    requires
        limbs_value(*t) < 2 * modulus(),
        limbs_value(*b) < modulus(),
    ensures
        limbs_value(r.0) * wide() == limbs_value(*t) + x * limbs_value(*b) + r.1@ * modulus(),
        limbs_value(r.0) < 2 * modulus(),
        0 <= r.1@ < wide(),
{
    let p = modulus_limbs();
    let (l0, c) = multiply_add(t[0], x, b[0], 0);
    let (l1, c) = multiply_add(t[1], x, b[1], c);
    let (l2, c) = multiply_add(t[2], x, b[2], c);
    let (l3, l4) = multiply_add(t[3], x, b[3], c);
    let ghost sum = limbs_value(*t) + x * limbs_value(*b);
    proof {
        let w = wide();
        lemma_times_limbs(b[0] as int, b[1] + w * (b[2] + w * b[3]), x as int);
        lemma_times_limbs(b[1] as int, b[2] + w * b[3], x as int);
        lemma_times_limbs(b[2] as int, b[3] as int, x as int);
        lemma_products_commute(x as int, b[0] as int, b[1] as int, b[2] as int, b[3] as int);
        lemma_products_commute(x as int, limbs_value(*b), 0, 0, 0);
        assert(l0 + w * (l1 + w * (l2 + w * (l3 + w * l4))) == sum);
    }
    let m = (((l0 as u128) * 190543166070325247u128) % 0x1_0000_0000_0000_0000) as u64;
    let (z0, c) = multiply_add(l0, m, p[0], 0);
    proof {
        let k = (l0 * 190543166070325247) / wide();
        assert(m == l0 * 190543166070325247 - k * wide()) by {
            vstd::arithmetic::div_mod::lemma_fundamental_div_mod(l0 * 190543166070325247, wide());
        }
        assert(l0 + m * 190543166070325249 == wide() * (l0 * 1968190049746944 - k
            * 190543166070325249)) by (nonlinear_arith)
            requires
                m == l0 * 190543166070325247 - k * wide(),
                wide() == 0x1_0000_0000_0000_0000,
        ;
        assert(z0 == 0) by (nonlinear_arith)
            requires
                z0 + c * wide() == l0 + m * 190543166070325249,
                l0 + m * 190543166070325249 == wide() * (l0 * 1968190049746944 - k
                    * 190543166070325249),
                0 <= z0 < wide(),
                wide() == 0x1_0000_0000_0000_0000,
        ;
    }
    let (z1, c) = multiply_add(l1, m, p[1], c);
    let (z2, c) = multiply_add(l2, m, p[2], c);
    let (z3, c) = multiply_add(l3, m, p[3], c);
    proof {
        let w = wide();
        lemma_times_limbs(p[0] as int, p[1] + w * (p[2] + w * p[3]), m as int);
        lemma_times_limbs(p[1] as int, p[2] + w * p[3], m as int);
        lemma_times_limbs(p[2] as int, p[3] as int, m as int);
        lemma_products_commute(m as int, p[0] as int, p[1] as int, p[2] as int, p[3] as int);
        lemma_products_commute(m as int, modulus(), 0, 0, 0);
        lemma_product_bounds(m as int, x as int, limbs_value(*b));
    }
    let z4: u128 = l4 as u128 + c as u128;
    proof {
        let w = wide();
        assert(w * (z1 + w * (z2 + w * (z3 + w * z4))) == sum + m * modulus());
    }
    let r = [z1, z2, z3, z4 as u64];
    (r, Ghost(m as int))
}

/// The product of two numbers in Montgomery form, in Montgomery form:
/// `a b / 2^256` modulo the modulus. One round for every limb of `a`
/// leaves a number below twice the modulus that, times `2^256`, is
/// `a b` plus a multiple of the modulus.
fn montgomery_mul(a: &[u64; 4], b: &[u64; 4]) -> (r: [u64; 4])
    requires
        limbs_value(*a) < modulus(),
        limbs_value(*b) < modulus(),
    ensures
        limbs_value(r) == (limbs_value(*a) * limbs_value(*b) * montgomery_inverse()) % modulus(),
        limbs_value(r) < modulus(),
{
    let ghost p = modulus();
    let ghost k = montgomery_inverse();
    let ghost va = limbs_value(*a);
    let ghost vb = limbs_value(*b);
    let start: [u64; 4] = [0, 0, 0, 0];
    let (t0, Ghost(m0)) = montgomery_round(&start, a[0], b);
    let (t1, Ghost(m1)) = montgomery_round(&t0, a[1], b);
    let (t2, Ghost(m2)) = montgomery_round(&t1, a[2], b);
    let (t3, Ghost(m3)) = montgomery_round(&t2, a[3], b);
    let limbs = modulus_limbs();
    let (reduced, borrow) = sub_limbs(&t3, &limbs);
    proof {
        let w = wide();
        let t = limbs_value(t3);
        let multiple = m0 + w * (m1 + w * (m2 + w * m3));
        let (x0, x1, x2, x3) = (a[0] * vb, a[1] * vb, a[2] * vb, a[3] * vb);
        let (y0, y1, y2, y3) = (m0 * p, m1 * p, m2 * p, m3 * p);
        let (s0, s1, s2) = (limbs_value(t0), limbs_value(t1), limbs_value(t2));
        lemma_times_limbs(a[0] as int, a[1] + w * (a[2] + w * a[3]), vb);
        lemma_times_limbs(a[1] as int, a[2] + w * a[3], vb);
        lemma_times_limbs(a[2] as int, a[3] as int, vb);
        assert(va * vb == x0 + w * (x1 + w * (x2 + w * x3)));
        lemma_times_limbs(m0, m1 + w * (m2 + w * m3), p);
        lemma_times_limbs(m1, m2 + w * m3, p);
        lemma_times_limbs(m2, m3, p);
        assert(multiple * p == y0 + w * (y1 + w * (y2 + w * y3)));
        lemma_rounds_accumulate(s0, s1, s2, t, x0, x1, x2, x3, y0, y1, y2, y3);
        assert(t * capacity() == va * vb + multiple * p);
        // 2^256 times its inverse is one plus a multiple of the modulus
        assert(capacity() * k == 83351001387827574900957368101259520632137209123987310276562641377483584176127int * p + 1);
        lemma_scaled_congruence(t, va * vb, multiple, capacity(), k, 83351001387827574900957368101259520632137209123987310276562641377483584176127int, p);
        lemma_limbs_of_value(reduced);
        lemma_limbs_of_value(t3);
        if borrow == 0 {
            lemma_fundamental_div_mod_converse(t, p, 1, t - p);
        } else {
            lemma_small_mod(t as nat, p as nat);
        }
    }
    if borrow == 0 {
        reduced
    } else {
        t3
    }
}

/// `base` raised to `exponent` in Montgomery form.
pub open spec fn montgomery_power(base: int, exponent: nat) -> int
    decreases exponent,
{
    if exponent == 0 {
        montgomery_one()
    } else {
        (base * montgomery_power(base, (exponent - 1) as nat) * montgomery_inverse()) % modulus()
    }
}

/// The Montgomery form of one is neutral: `2^256` times its inverse is
/// one modulo the modulus.
proof fn lemma_montgomery_one(v: int)
    ensures
        (v * montgomery_one() * montgomery_inverse()) % modulus() == v % modulus(),
        (montgomery_one() * v * montgomery_inverse()) % modulus() == v % modulus(),
{
    let p = modulus();
    let unit = montgomery_one() * montgomery_inverse();
    assert(unit == 16776843600460595864424723978522112993089733529377826709048194280671424647243int * p
        + 1);
    lemma_fundamental_div_mod_converse(
        unit,
        p,
        16776843600460595864424723978522112993089733529377826709048194280671424647243int,
        1,
    );
    assert(v * montgomery_one() * montgomery_inverse() == v * unit) by (nonlinear_arith)
        requires
            unit == montgomery_one() * montgomery_inverse(),
    ;
    assert(montgomery_one() * v * montgomery_inverse() == v * unit) by (nonlinear_arith)
        requires
            unit == montgomery_one() * montgomery_inverse(),
    ;
    lemma_mul_mod_noop_general(v, unit, p);
    assert(v * 1 == v);
}

/// A product of three numbers modulo the modulus may have any factor
/// reduced first.
proof fn lemma_reduce_in_product(x: int, y: int, z: int)
    ensures
        ((x % modulus()) * y * z) % modulus() == (x * y * z) % modulus(),
        (x * (y % modulus()) * z) % modulus() == (x * y * z) % modulus(),
{
    let p = modulus();
    lemma_mul_mod_noop_general(x, y * z, p);
    lemma_mul_mod_noop_general(y, x * z, p);
    assert((x % p) * y * z == (x % p) * (y * z)) by (nonlinear_arith);
    assert(x * y * z == x * (y * z)) by (nonlinear_arith);
    assert(x * (y % p) * z == (y % p) * (x * z)) by (nonlinear_arith);
    assert(x * y * z == y * (x * z)) by (nonlinear_arith);
}

/// Exponents add when Montgomery powers are multiplied.
proof fn lemma_montgomery_power_adds(base: int, e1: nat, e2: nat)
    ensures
        montgomery_power(base, e1 + e2) == (montgomery_power(base, e1) * montgomery_power(base, e2)
            * montgomery_inverse()) % modulus(),
        0 <= montgomery_power(base, e1) < modulus(),
    decreases e1,
{
    let p = modulus();
    let k = montgomery_inverse();
    let other = montgomery_power(base, e2);
    if e1 == 0 {
        lemma_montgomery_one(other);
        if e2 > 0 {
            lemma_small_mod(other as nat, p as nat);
        } else {
            lemma_small_mod(other as nat, p as nat);
        }
    } else {
        let rest = montgomery_power(base, (e1 - 1) as nat);
        lemma_montgomery_power_adds(base, (e1 - 1) as nat, e2);
        assert((e1 + e2 - 1) as nat == (e1 - 1) as nat + e2);
        // base * ((rest other k) % p) * k = ((base rest k) % p) * other * k  (mod p)
        lemma_reduce_in_product(base, rest * other * k, k);
        lemma_reduce_in_product(base * rest * k, other, k);
        assert(base * (rest * other * k) * k == (base * rest * k) * other * k)
            by (nonlinear_arith);
    }
}

/// An element of the field, held as its value times `2^256` modulo the
/// modulus, in four limbs, lowest first.
#[derive(Clone, Copy, Debug)]
pub struct Ft255([u64; 4]);

impl Ft255 {
    #[verifier::type_invariant]
    spec fn reduced(self) -> bool {
        limbs_value(self.0) < modulus()
    }

    /// The number that the limbs hold: the element's value times
    /// `2^256`, reduced.
    pub closed spec fn value(self) -> int {
        limbs_value(self.0)
    }

    /// The element whose limbs hold `v` reduced by the modulus.
    pub closed spec fn residue(v: int) -> Self {
        let l = limbs_of(v % modulus());
        Ft255([l.0, l.1, l.2, l.3])
    }

    /// The element with the given limbs, if they hold a reduced number.
    pub fn from_limbs(limbs: [u64; 4]) -> (r: Option<Self>)
        ensures
            r is Some <==> limbs_value(limbs) < modulus(),
            r is Some ==> r.unwrap().value() == limbs_value(limbs) && r.unwrap().canonical(),
    {
        let p = modulus_limbs();
        let (difference, borrow) = sub_limbs(&limbs, &p);
        proof {
            lemma_limbs_of_value(difference);
        }
        if borrow == 1 {
            Some(Ft255(limbs))
        } else {
            None
        }
    }

    /// The limbs of the element.
    pub fn limbs(&self) -> (r: [u64; 4])
        ensures
            limbs_value(r) == self.value(),
    {
        self.0
    }
}

/// The limbs of a number below `2^256` hold that number.
proof fn lemma_value_of_limbs(u: int)
    requires
        0 <= u < capacity(),
    ensures
        ({
            let l = limbs_of(u);
            l.0 + wide() * (l.1 + wide() * (l.2 + wide() * l.3)) == u
        }),
{
    let w = wide();
    let u1 = u / w;
    let u2 = u1 / w;
    let u3 = u2 / w;
    vstd::arithmetic::div_mod::lemma_fundamental_div_mod(u, w);
    vstd::arithmetic::div_mod::lemma_fundamental_div_mod(u1, w);
    vstd::arithmetic::div_mod::lemma_fundamental_div_mod(u2, w);
    lemma_small_mod(u3 as nat, w as nat);
}

/// The element that `residue` names holds the reduced number, and an
/// element is the residue of the number that it holds.
proof fn lemma_residue(v: int, x: Ft255)
    ensures
        Ft255::residue(v).value() == v % modulus(),
        x.value() < modulus() ==> Ft255::residue(x.value()) == x,
{
    let p = modulus();
    let u = v % p;
    lemma_value_of_limbs(u);
    if x.value() < p {
        lemma_limbs_of_value(x.0);
        lemma_small_mod(x.value() as nat, p as nat);
        assert(Ft255::residue(x.value()).0 =~= x.0);
    }
}

/// One squaring in Montgomery form: `a a / 2^256 = c`, with the
/// quotient `q` of `a a / 2^256` by the modulus.
proof fn lemma_square_step(a: int, q: int, c: int)
    requires
        0 <= a < modulus(),
        0 <= c < modulus(),
        a * a * montgomery_inverse() == q * modulus() + c,
    ensures
        Ft255::residue(a).times(Ft255::residue(a)) == Ft255::residue(c),
{
    let x = Ft255::residue(a);
    lemma_residue(a, x);
    lemma_small_mod(a as nat, modulus() as nat);
    lemma_small_mod(c as nat, modulus() as nat);
    lemma_fundamental_div_mod_converse(a * a * montgomery_inverse(), modulus(), q, c);
    vstd::arithmetic::div_mod::lemma_mod_twice(c, modulus());
    lemma_residue(x.value() * x.value() * montgomery_inverse(), x);
    lemma_residue(c, x);
    assert(Ft255::residue(x.value() * x.value() * montgomery_inverse()).0 =~= Ft255::residue(c).0);
}

/// Squarings 1 to 10 of the root of unity.
proof fn lemma_root_squarings_first()
    ensures
        square_times(Ft255::residue(10371390072338237661273717514556858838626661715521563583399166314900347248743int), 41) == square_times(
            Ft255::residue(1459130309819176781483738415998301077233870802389403132677880486420749741680int),
            31,
        ),
        square_times(Ft255::residue(10371390072338237661273717514556858838626661715521563583399166314900347248743int), 40) == square_times(
            Ft255::residue(1459130309819176781483738415998301077233870802389403132677880486420749741680int),
            30,
        ),
{
    reveal_with_fuel(square_times, 11);
    lemma_square_step(
        10371390072338237661273717514556858838626661715521563583399166314900347248743int,
        77429395557034656712414581116466589125052150205050497968809294194630096402928345085273302054816239915620301569509088864930752188777844004046094436438792int,
        8868853841079109731321957468933678210533752572980641880619314360939407703602int,
    );
    lemma_square_step(
        8868853841079109731321957468933678210533752572980641880619314360939407703602int,
        56619617018652030566747805288195607697597513413348778077958863560733784617166003666798196482038989359349693914667997165093705073434908744200990394768158int,
        21989472072987094761580313746825880424909675610353032513302695133446664995274int,
    );
    lemma_square_step(
        21989472072987094761580313746825880424909675610353032513302695133446664995274int,
        348065948133154459605997988457171937270170247405125160580842894052761660339876451826239530529940631528979645755028113464170324103042590041798160181581592int,
        39537968921633091081087521830175885650859095286762108263487987038829563013136int,
    );
    lemma_square_step(
        39537968921633091081087521830175885650859095286762108263487987038829563013136int,
        1125280111959158915911018793581040350573081018332705816417769443536574162023940003775379791612391342137498216152496822829877092375874814182962181852258171int,
        42239878304916505745319775499294205876576009905850652170428224919794273450629int,
    );
    lemma_square_step(
        42239878304916505745319775499294205876576009905850652170428224919794273450629int,
        1284331837516106101069814103458409279855975778722779343686925233739792160950231671896213641942613640841583003033057040419104224328825655250668672362462916int,
        23398253155827247004335543170769646423723730485492666424519300727968894508934int,
    );
    lemma_square_step(
        23398253155827247004335543170769646423723730485492666424519300727968894508934int,
        394093074390072262476135999643818732163366427642019471705830590040498266263371401140667623908117372109246779609530815541495442678770939893776135130436444int,
        37306995111734696707897391860745251516083715337509809014819829376074466749260int,
    );
    lemma_square_step(
        37306995111734696707897391860745251516083715337509809014819829376074466749260int,
        1001872537763549312769247642994150243552075942669757878748227858983755403967978047405428769979245394427213454628254590570343053614182866175080764225699824int,
        12484321895504782163098311715611431752588618291217009295573973785096306734768int,
    );
    lemma_square_step(
        12484321895504782163098311715611431752588618291217009295573973785096306734768int,
        112191989086642217810249771579648646835797051563422004313483887743462239724714346729033795779501087588372023275097260896828322255881154957702125929048937int,
        24538922525319576610599493519153929802333941656281895733849806248751985942167int,
    );
    lemma_square_step(
        24538922525319576610599493519153929802333941656281895733849806248751985942167int,
        433453895934925669267733626738223667127042633341191163664766473049927191580442887551666154310694136456736448956554647532113940912041729506471107726501105int,
        12992841625514259578020252466882827143137344903308684010292066058839801217673int,
    );
    lemma_square_step(
        12992841625514259578020252466882827143137344903308684010292066058839801217673int,
        121517890372283879296768177826691866516758759062999961074977373489195341425304995302259974434263165210807939604584492011610901072430317529098487968272266int,
        1459130309819176781483738415998301077233870802389403132677880486420749741680int,
    );
}

/// Squarings 11 to 20 of the root of unity.
proof fn lemma_root_squarings_second()
    ensures
        square_times(Ft255::residue(1459130309819176781483738415998301077233870802389403132677880486420749741680int), 31) == square_times(
            Ft255::residue(7028077891215582197431124574318146560786013769873796763016262034075700463199int),
            21,
        ),
        square_times(Ft255::residue(1459130309819176781483738415998301077233870802389403132677880486420749741680int), 30) == square_times(
            Ft255::residue(7028077891215582197431124574318146560786013769873796763016262034075700463199int),
            20,
        ),
{
    reveal_with_fuel(square_times, 11);
    lemma_square_step(
        1459130309819176781483738415998301077233870802389403132677880486420749741680int,
        1532569187515293808649299511401596499067626934204810255761974200763637939007934854223251148289422139540665474810804872673367202787591431794535653114467int,
        37585501380915150316344470636720755604768446498980822468118916776698040301469int,
    );
    lemma_square_step(
        37585501380915150316344470636720755604768446498980822468118916776698040301469int,
        1016886842119223430215519430706514867741012245313473546885806022117131939435210434886315510761442769037321344343703083753395886983960088169488152305643054int,
        21895852949365117961824878860144350104531188663865113276203227642897635506940int,
    );
    lemma_square_step(
        21895852949365117961824878860144350104531188663865113276203227642897635506940int,
        345108508951176227605181105007972478114747581082538863908042254974834819338651162061782950451941472610948789597219982009780793918379275689795839249407732int,
        8897888128682058226268974473187143060741280314999553920970762901262944087724int,
    );
    lemma_square_step(
        8897888128682058226268974473187143060741280314999553920970762901262944087724int,
        56990939207112296759321190718184063314151345632071600956255552682990737501002910887558514552267262757386913169808952150974632687956909228315938766862503int,
        21990708093410426189945701840694552100706830803227280004611031140886986833913int,
    );
    lemma_square_step(
        21990708093410426189945701840694552100706830803227280004611031140886986833913int,
        348105078559777944572177869036621799919187321679093463812221940808135342162975089489639171585201902957553914274460311378235326164378394740592035402372570int,
        37672199927540590027094726763484091212815119505203755332543107682496596171488int,
    );
    lemma_square_step(
        37672199927540590027094726763484091212815119505203755332543107682496596171488int,
        1021583562422633509062262048023433353847099404942619477585977606815005348623769000029391801842882794195216370637553748321421106710927914817603755144790802int,
        12134353462787710653697785002688423123638259591311511164081563363430427239662int,
    );
    lemma_square_step(
        12134353462787710653697785002688423123638259591311511164081563363430427239662int,
        105990078711534887055350930445898663720933991965785518352144640055876852790419642485145470379772979863904841108279386330812243525255190637426914639023264int,
        42643897480656400098068976520032984268930416938965103543039544991517708999496int,
    );
    lemma_square_step(
        42643897480656400098068976520032984268930416938965103543039544991517708999496int,
        1309018285149933078590616808832140219190851242981871537868736616426394512610340336616361507627165198146327834523021809191093204515381922243260368835737063int,
        19151748521226738134432880245978372806194445423111520960517067138930756905113int,
    );
    lemma_square_step(
        19151748521226738134432880245978372806194445423111520960517067138930756905113int,
        264027274598499549075124441909556599604184788971148876497630530503737233049534774716806827880727690412107532250234138850927198916647046793793835986807874int,
        33313062880202728810444265593474040059446279599638313193156598042648703981816int,
    );
    lemma_square_step(
        33313062880202728810444265593474040059446279599638313193156598042648703981816int,
        798842313989217411590014803794489129861510792937796254045957353921152323367017799562502002406195724292700576127534482130968735527086145095668406327103521int,
        7028077891215582197431124574318146560786013769873796763016262034075700463199int,
    );
}

/// Squarings 21 to 30 of the root of unity.
proof fn lemma_root_squarings_third()
    ensures
        square_times(Ft255::residue(7028077891215582197431124574318146560786013769873796763016262034075700463199int), 21) == square_times(
            Ft255::residue(40495255290021929745578583768217764144416100659085115949798172650583563734319int),
            11,
        ),
        square_times(Ft255::residue(7028077891215582197431124574318146560786013769873796763016262034075700463199int), 20) == square_times(
            Ft255::residue(40495255290021929745578583768217764144416100659085115949798172650583563734319int),
            10,
        ),
{
    reveal_with_fuel(square_times, 11);
    lemma_square_step(
        7028077891215582197431124574318146560786013769873796763016262034075700463199int,
        35555358671535481690450215962137830120462906543588528413580354135242901856329567043643192103429748822767696614552467663300016474372222087654908969318165int,
        42896003823453342545058118369071878402783531341755364748740006130184384105797int,
    );
    lemma_square_step(
        42896003823453342545058118369071878402783531341755364748740006130184384105797int,
        1324541599389535567354721814700746049853037340239806205113031243898047786726344427256239746300568220951230817859346906229879624705701549756984502785494589int,
        17765595183583866595482791777825387999867853506137690352659019834237006060301int,
    );
    lemma_square_step(
        17765595183583866595482791777825387999867853506137690352659019834237006060301int,
        227191173877136165593660651842252148141212685029991710044588958984210586394918559793233087016830818644667706409558245080030342144237211741269778997233377int,
        44319069690090629659700620793287417421354205350083875741963581144082239644681int,
    );
    lemma_square_step(
        44319069690090629659700620793287417421354205350083875741963581144082239644681int,
        1413882121246699013730395523211761079074709783594171229123419518318034964864821125434803819756988462868114234176820203162517188215651661679133101987166826int,
        15652681869349032297809558129113145989714575938449510116518733234202807763344int,
    );
    lemma_square_step(
        15652681869349032297809558129113145989714575938449510116518733234202807763344int,
        176363800530202608551447124333294662404312220345259658606376012181888003414218150674575039781408717886543604512640967478885237621875537493724430070278849int,
        35613541467137012960652603132895017895090680254567401964038753914435392360255int,
    );
    lemma_square_step(
        35613541467137012960652603132895017895090680254567401964038753914435392360255int,
        912982088607455469950433124932239421030387342284117737311270600948300959730400750237131008722468785024066140547440228124085049275951404568329384979236848int,
        18141030348458228422829744269941046988383884752496531946895920743240842532586int,
    );
    lemma_square_step(
        18141030348458228422829744269941046988383884752496531946895920743240842532586int,
        236894965733236683960446063482477149447998497795828416592955782378281302788982247442216717195532329192485629274377402205703962510908165138065067387616460int,
        288521051836552835264473871189731846839229123473328085950083069587697980252int,
    );
    lemma_square_step(
        288521051836552835264473871189731846839229123473328085950083069587697980252int,
        59922089021707887554516756334267936950670798407177220671077264773570354213139784431709536226994818379986209977419401662691094570368268738044065430354int,
        28190154094646430775641091832039624723071920360387632290038247268964228820046int,
    );
    lemma_square_step(
        28190154094646430775641091832039624723071920360387632290038247268964228820046int,
        572040571111118184439993211025603577926105903238743741570027196000589402595221359560161232463531719018899239745715492573240512893137518209835463587408220int,
        4722842136486122770137909578356166016479135612950600041360233903766917500812int,
    );
    lemma_square_step(
        4722842136486122770137909578356166016479135612950600041360233903766917500812int,
        16056052904110563196562899434761699998342156228859819811387690115398429644778664639721245855573256050139360102249633171335155353072048166618152765891953int,
        40495255290021929745578583768217764144416100659085115949798172650583563734319int,
    );
}

/// Squarings 31 to 40 of the root of unity.
proof fn lemma_root_squarings_fourth()
    ensures
        square_times(Ft255::residue(40495255290021929745578583768217764144416100659085115949798172650583563734319int), 11) == square_times(
            Ft255::residue(22936192805970795608541597135289706003308943015647043782184205502337452605443int),
            1,
        ),
        square_times(Ft255::residue(40495255290021929745578583768217764144416100659085115949798172650583563734319int), 10) == square_times(
            Ft255::residue(22936192805970795608541597135289706003308943015647043782184205502337452605443int),
            0,
        ),
{
    reveal_with_fuel(square_times, 11);
    lemma_square_step(
        40495255290021929745578583768217764144416100659085115949798172650583563734319int,
        1180429934553682620509448122120358410196221840635347624545405404411564763887235891758035707112807379234161925124143826210163591077066988865127799517018044int,
        21874565739639407116492939441671310624070451955748270594674284100026889573470int,
    );
    lemma_square_step(
        21874565739639407116492939441671310624070451955748270594674284100026889573470int,
        344437804217165313442676834519255895476497935778238588257668291527324288881719474990118333567302597031692973374283023049042820735569975190796697584886647int,
        15029640943711622919048471062576023835450222750988622162332275487430701759729int,
    );
    lemma_square_step(
        15029640943711622919048471062576023835450222750988622162332275487430701759729int,
        162603220457237399381408190797800657727365392103550243063444274217633060357188238735300567387983321044941510370546522467482975765121053797884473904998893int,
        27102171382291778190165659453233590877087792952813135998990515294085051289773int,
    );
    lemma_square_step(
        27102171382291778190165659453233590877087792952813135998990515294085051289773int,
        528737491609641177537939133289336513840169769683049123071972445009306959345009923942963251882507860031689094405115305455973426576607948429054198030669015int,
        13445530726869085844342719152075352583764679816046007324342663635798459467923int,
    );
    lemma_square_step(
        13445530726869085844342719152075352583764679816046007324342663635798459467923int,
        130133116588379374519906604549151254463359842783291289251534371253703002779841368687100355038134983243141794141578207793814010329390433861981470311136291int,
        25200952763190888341435026766470941258208782659555759591988221182356230902855int,
    );
    lemma_square_step(
        25200952763190888341435026766470941258208782659555759591988221182356230902855int,
        457157503586504735258039417360633007311769429550873506567417300521445153068618447128573483152645422737601934012455612401894233509266546091281494321989361int,
        39360093768971288979317855499640942260870873358232401556632218615633489048777int,
    );
    lemma_square_step(
        39360093768971288979317855499640942260870873358232401556632218615633489048777int,
        1115177967905796802690100266946829380177359702870739344641095917296855736151185017709779392022251270610002012778278810521085295867332779054185391841267371int,
        26903433896633247336225263194594605137424057286363680197514815124955428392015int,
    );
    lemma_square_step(
        26903433896633247336225263194594605137424057286363680197514815124955428392015int,
        521011565312952220260424277381477618256304590552656493388225930508067907541345408254137363717305593187690015184229145479195293186619157016537008088964092int,
        5017206323457402935764862145187111264055673866611859214292289358678064942494int,
    );
    lemma_square_step(
        5017206323457402935764862145187111264055673866611859214292289358678064942494int,
        18119902388098278365318500307752512635225405366292430889634390247280734752300983850068689594250218005954496422649853788563552422189848464881485104722177int,
        24617562265359837089663337498488777839358598428282914482111293884493059976551int,
    );
    lemma_square_step(
        24617562265359837089663337498488777839358598428282914482111293884493059976551int,
        436236521813164848977294170876552066254334215650083373869610422848609125707351866769027126643217819574719194434146657012229531563366561786596205286034743int,
        22936192805970795608541597135289706003308943015647043782184205502337452605443int,
    );
}

/// The last squaring of the root of unity: minus one squared is one.
proof fn lemma_root_squarings_last()
    ensures
        square_times(Ft255::residue(22936192805970795608541597135289706003308943015647043782184205502337452605443int), 1) == Ft255::residue(23306567875124868068829263579369498615550699544782158825029724334412741476350int),
{
    reveal_with_fuel(square_times, 2);
    lemma_square_step(
        22936192805970795608541597135289706003308943015647043782184205502337452605443int,
        378681939957304062603171096019456784578383453664010079580692152556052158797325578501373274779841908069175865491984822806944803676792912412579835070314156int,
        23306567875124868068829263579369498615550699544782158825029724334412741476350int,
    );
}

impl FieldOps for Ft255 {
    closed spec fn canonical(self) -> bool {
        self.value() < modulus()
    }

    closed spec fn zero() -> Self {
        Self::residue(0)
    }

    closed spec fn one() -> Self {
        Self::residue(montgomery_one())
    }

    closed spec fn plus(self, rhs: Self) -> Self {
        Self::residue(self.value() + rhs.value())
    }

    closed spec fn minus(self, rhs: Self) -> Self {
        Self::residue(self.value() - rhs.value())
    }

    closed spec fn times(self, rhs: Self) -> Self {
        Self::residue(self.value() * rhs.value() * montgomery_inverse())
    }

    /// The power `modulus - 2`.
    closed spec fn inv(self) -> Self {
        Self::residue(montgomery_power(self.value(), (modulus() - 2) as nat))
    }

    closed spec fn embed(x: u64) -> Self {
        Self::residue(x * montgomery_one())
    }

    closed spec fn half() -> Self {
        Self::residue(11653283937562434034414631789684749307775349772391079412514862167206370738175int)
    }

    closed spec fn log_order() -> nat {
        41
    }

    closed spec fn unity_root() -> Self {
        Self::residue(10371390072338237661273717514556858838626661715521563583399166314900347248743int)
    }

    /// The four limbs, lowest first, each as eight little-endian bytes.
    closed spec fn encoding(self) -> Seq<u8> {
        spec_u64_to_le_bytes(self.0[0]) + spec_u64_to_le_bytes(self.0[1]) + spec_u64_to_le_bytes(
            self.0[2],
        ) + spec_u64_to_le_bytes(self.0[3])
    }

    closed spec fn name() -> Seq<char> {
        "Ft255"@
    }

    fn field_name() -> (name: &'static str) {
        "Ft255"
    }

    fn log_order_value() -> (k: usize) {
        41
    }

    fn root_of_unity() -> (r: Self) {
        let r = Ft255(
            [11273735707518656615, 10803742158212994690, 9604558309451741198, 1652257763144146550],
        );
        proof {
            lemma_residue(0, r);
        }
        r
    }

    fn inverse_2() -> (r: Self) {
        let r = Ft255(
            [18256200907639226367, 1192390052779827407, 168358299667310230, 1856475237906044671],
        );
        proof {
            lemma_residue(0, r);
        }
        r
    }

    fn from_int(x: u64) -> (r: Self) {
        let small: [u64; 4] = [x, 0, 0, 0];
        let square = montgomery_square_limbs();
        let r = Ft255(montgomery_mul(&small, &square));
        proof {
            let p = modulus();
            // 2^512 / 2^256 = 2^256 modulo the modulus
            assert(montgomery_square() * montgomery_inverse() == 18378468345203357286939749666663499516155746604229769208832222232575810122914int * p + montgomery_one());
            assert(x * montgomery_square() * montgomery_inverse() == (x * 18378468345203357286939749666663499516155746604229769208832222232575810122914int) * p + x
                * montgomery_one()) by (nonlinear_arith)
                requires
                    montgomery_square() * montgomery_inverse() == 18378468345203357286939749666663499516155746604229769208832222232575810122914int * p + montgomery_one(),
            ;
            vstd::arithmetic::div_mod::lemma_mod_multiples_vanish(
                x * 18378468345203357286939749666663499516155746604229769208832222232575810122914int,
                x * montgomery_one(),
                p,
            );
            lemma_residue(x * montgomery_one(), r);
            lemma_small_mod(r.value() as nat, p as nat);
        }
        r
    }

    fn is_zero(&self) -> (b: bool) {
        proof {
            use_type_invariant(self);
            lemma_residue(0, *self);
            lemma_small_mod(0, modulus() as nat);
        }
        self.0[0] == 0 && self.0[1] == 0 && self.0[2] == 0 && self.0[3] == 0
    }

    fn random_element() -> (r: Self) {
        let high = draw_reduced();
        let low = draw_reduced();
        let shifted = montgomery_mul(&high, &montgomery_square_limbs());
        Ft255(add_mod(&shifted, &low))
    }

    fn inverse(&self) -> (r: Self) {
        proof {
            use_type_invariant(self);
        }
        let r = Ft255(inversion_power(&self.0));
        proof {
            lemma_residue(montgomery_power(self.value(), (modulus() - 2) as nat), r);
            lemma_small_mod(r.value() as nat, modulus() as nat);
        }
        r
    }

    fn to_bytes(&self) -> (b: Vec<u8>) {
        let mut bytes = u64_to_le_bytes(self.0[0]);
        let mut second = u64_to_le_bytes(self.0[1]);
        let mut third = u64_to_le_bytes(self.0[2]);
        let mut fourth = u64_to_le_bytes(self.0[3]);
        bytes.append(&mut second);
        bytes.append(&mut third);
        bytes.append(&mut fourth);
        bytes
    }

    fn add(self, rhs: Self) -> (r: Self) {
        proof {
            use_type_invariant(self);
            use_type_invariant(rhs);
        }
        let r = Ft255(add_mod(&self.0, &rhs.0));
        proof {
            lemma_residue(self.value() + rhs.value(), r);
            lemma_small_mod(r.value() as nat, modulus() as nat);
        }
        r
    }

    fn sub(self, rhs: Self) -> (r: Self) {
        proof {
            use_type_invariant(self);
            use_type_invariant(rhs);
        }
        let r = Ft255(sub_mod(&self.0, &rhs.0));
        proof {
            lemma_residue(self.value() - rhs.value(), r);
            lemma_small_mod(r.value() as nat, modulus() as nat);
        }
        r
    }

    fn mul(self, rhs: Self) -> (r: Self) {
        proof {
            use_type_invariant(self);
            use_type_invariant(rhs);
        }
        let r = Ft255(montgomery_mul(&self.0, &rhs.0));
        proof {
            lemma_residue(self.value() * rhs.value() * montgomery_inverse(), r);
            lemma_small_mod(r.value() as nat, modulus() as nat);
        }
        r
    }

    fn equals(&self, rhs: &Self) -> (b: bool) {
        let same = self.0[0] == rhs.0[0] && self.0[1] == rhs.0[1] && self.0[2] == rhs.0[2]
            && self.0[3] == rhs.0[3];
        proof {
            if same {
                assert(self.0 =~= rhs.0);
            }
        }
        same
    }

    fn reduced(self) -> (r: Self) {
        proof {
            use_type_invariant(self);
        }
        self
    }
}

impl Field for Ft255 {
    proof fn lemma_closed(a: Self, b: Self, x: u64) {
        lemma_residue(0, a);
        lemma_residue(montgomery_one(), a);
        lemma_residue(11653283937562434034414631789684749307775349772391079412514862167206370738175int, a);
        lemma_residue(10371390072338237661273717514556858838626661715521563583399166314900347248743int, a);
        lemma_residue(x * montgomery_one(), a);
        lemma_residue(a.value() + b.value(), a);
        lemma_residue(a.value() - b.value(), a);
        lemma_residue(a.value() * b.value() * montgomery_inverse(), a);
        lemma_residue(montgomery_power(a.value(), (modulus() - 2) as nat), a);
    }

    proof fn lemma_commutative(a: Self, b: Self) {
        assert(a.value() * b.value() * montgomery_inverse() == b.value() * a.value()
            * montgomery_inverse()) by (nonlinear_arith);
    }

    proof fn lemma_associative(a: Self, b: Self, c: Self) {
        let p = modulus();
        let k = montgomery_inverse();
        let (va, vb, vc) = (a.value(), b.value(), c.value());
        lemma_residue(va + vb, a);
        lemma_residue(vb + vc, a);
        lemma_add_mod_noop(va + vb, vc, p);
        lemma_add_mod_noop(va, vb + vc, p);
        vstd::arithmetic::div_mod::lemma_mod_twice(va + vb, p);
        vstd::arithmetic::div_mod::lemma_mod_twice(vb + vc, p);
        lemma_add_mod_noop((va + vb) % p, vc, p);
        lemma_add_mod_noop(va, (vb + vc) % p, p);
        lemma_residue(va * vb * k, a);
        lemma_residue(vb * vc * k, a);
        lemma_reduce_in_product(va * vb * k, vc, k);
        lemma_reduce_in_product(va, vb * vc * k, k);
        assert((va * vb * k) * vc * k == va * (vb * vc * k) * k) by (nonlinear_arith);
    }

    proof fn lemma_distributive(a: Self, b: Self, c: Self) {
        let p = modulus();
        let k = montgomery_inverse();
        let (va, vb, vc) = (a.value(), b.value(), c.value());
        lemma_residue(vb + vc, a);
        lemma_residue(vb - vc, a);
        lemma_residue(va * vb * k, a);
        lemma_residue(va * vc * k, a);
        lemma_reduce_in_product(va, vb + vc, k);
        lemma_reduce_in_product(va, vb - vc, k);
        lemma_add_mod_noop(va * vb * k, va * vc * k, p);
        lemma_sub_mod_noop(va * vb * k, va * vc * k, p);
        assert(va * (vb + vc) * k == va * vb * k + va * vc * k) by (nonlinear_arith);
        assert(va * (vb - vc) * k == va * vb * k - va * vc * k) by (nonlinear_arith);
    }

    proof fn lemma_neutral(a: Self) {
        let va = a.value();
        lemma_residue(0, a);
        lemma_residue(montgomery_one(), a);
        lemma_small_mod(0, modulus() as nat);
        lemma_small_mod(montgomery_one() as nat, modulus() as nat);
        lemma_small_mod(va as nat, modulus() as nat);
        lemma_montgomery_one(va);
        lemma_residue(va * montgomery_one() * montgomery_inverse(), a);
        assert(Self::residue(va * montgomery_one() * montgomery_inverse()).0 =~= Self::residue(va).0);
        assert(va * 0 * montgomery_inverse() == 0) by (nonlinear_arith);
    }

    proof fn lemma_negation(a: Self, b: Self) {
        let p = modulus();
        let (va, vb) = (a.value(), b.value());
        lemma_residue(0, a);
        lemma_small_mod(0, p as nat);
        lemma_residue(0 - vb, a);
        lemma_residue(0 - va, a);
        lemma_add_mod_noop(va, 0 - vb, p);
        lemma_add_mod_noop(va, 0 - va, p);
        vstd::arithmetic::div_mod::lemma_mod_twice(0 - vb, p);
        vstd::arithmetic::div_mod::lemma_mod_twice(0 - va, p);
        lemma_add_mod_noop(va, (0 - vb) % p, p);
        lemma_add_mod_noop(va, (0 - va) % p, p);
    }

    proof fn lemma_minus_plus(a: Self, b: Self) {
        let p = modulus();
        let (va, vb) = (a.value(), b.value());
        lemma_residue(va - vb, a);
        lemma_residue(va + vb, a);
        lemma_add_mod_noop(va - vb, vb, p);
        lemma_sub_mod_noop(va + vb, vb, p);
        vstd::arithmetic::div_mod::lemma_mod_twice(va - vb, p);
        vstd::arithmetic::div_mod::lemma_mod_twice(va + vb, p);
        lemma_add_mod_noop((va - vb) % p, vb, p);
        lemma_sub_mod_noop((va + vb) % p, vb, p);
    }

    proof fn lemma_encoding(a: Self, b: Self) {
        vstd::bytes::lemma_auto_spec_u64_to_from_le_bytes();
        if a.encoding() == b.encoding() {
            assert(spec_u64_to_le_bytes(a.0[0]) =~= a.encoding().subrange(0, 8));
            assert(spec_u64_to_le_bytes(b.0[0]) =~= b.encoding().subrange(0, 8));
            assert(spec_u64_to_le_bytes(a.0[1]) =~= a.encoding().subrange(8, 16));
            assert(spec_u64_to_le_bytes(b.0[1]) =~= b.encoding().subrange(8, 16));
            assert(spec_u64_to_le_bytes(a.0[2]) =~= a.encoding().subrange(16, 24));
            assert(spec_u64_to_le_bytes(b.0[2]) =~= b.encoding().subrange(16, 24));
            assert(spec_u64_to_le_bytes(a.0[3]) =~= a.encoding().subrange(24, 32));
            assert(spec_u64_to_le_bytes(b.0[3]) =~= b.encoding().subrange(24, 32));
            assert(a.0 =~= b.0);
        }
    }

    proof fn lemma_unity_root() {
        lemma_root_squarings_first();
        lemma_root_squarings_second();
        lemma_root_squarings_third();
        lemma_root_squarings_fourth();
        lemma_root_squarings_last();
        let a = Self::zero();
        lemma_residue(0, a);
        lemma_residue(montgomery_one(), a);
        lemma_small_mod(0, modulus() as nat);
        lemma_small_mod(montgomery_one() as nat, modulus() as nat);
        lemma_fundamental_div_mod_converse(
            0 - montgomery_one(),
            modulus(),
            -1,
            modulus() - montgomery_one(),
        );
        lemma_small_mod((modulus() - montgomery_one()) as nat, modulus() as nat);
    }

    proof fn lemma_embed() {
        let p = modulus();
        let k = montgomery_inverse();
        let one = montgomery_one();
        let a = Self::zero();
        lemma_residue(0, a);
        lemma_residue(one, a);
        lemma_residue(2 * one, a);
        lemma_residue(11653283937562434034414631789684749307775349772391079412514862167206370738175int, a);
        lemma_small_mod(0, p as nat);
        lemma_small_mod(one as nat, p as nat);
        lemma_small_mod(11653283937562434034414631789684749307775349772391079412514862167206370738175int as nat, p as nat);
        assert(0 * one == 0);
        assert(1 * one == one);
        lemma_reduce_in_product(11653283937562434034414631789684749307775349772391079412514862167206370738175int, 2 * one, k);
        assert(11653283937562434034414631789684749307775349772391079412514862167206370738175int * (2 * one) * k == 391010644104489150838599231123925394135182859262983591534731743251387971911105775341894990818098482063409665440691132312098205150651433189322853777203050int * p + one);
        lemma_fundamental_div_mod_converse(11653283937562434034414631789684749307775349772391079412514862167206370738175int * (2 * one) * k, p, 391010644104489150838599231123925394135182859262983591534731743251387971911105775341894990818098482063409665440691132312098205150651433189322853777203050int, one);
    }
}

/// Draws four limbs at random and reduces them below the modulus.
fn draw_reduced() -> (r: [u64; 4])
    ensures
        limbs_value(r) < modulus(),
{
    let drawn: [u64; 4] = [random_u64(), random_u64(), random_u64(), random_u64() / 2];
    let p = modulus_limbs();
    let (difference, borrow) = sub_limbs(&drawn, &p);
    proof {
        lemma_limbs_of_value(difference);
        lemma_limbs_of_value(drawn);
    }
    if borrow == 0 {
        difference
    } else {
        drawn
    }
}

/// The limbs of the exponent `modulus - 2`.
fn inversion_exponent() -> (r: [u64; 4])
    ensures
        limbs_value(r) == modulus() - 2,
{
    [190543166070325247, 17254354020929724208, 18278385774042241385, 7366896798948731136]
}

/// `base` raised to `modulus - 2` in Montgomery form: the bits of the
/// exponent are walked from the lowest, the base is squared at every
/// bit and multiplied in where the bit is set.
fn inversion_power(base: &[u64; 4]) -> (r: [u64; 4])
    requires
        limbs_value(*base) < modulus(),
    ensures
        limbs_value(r) == montgomery_power(limbs_value(*base), (modulus() - 2) as nat),
        limbs_value(r) < modulus(),
{
    let ghost p = modulus();
    let ghost v = limbs_value(*base);
    let exponent = inversion_exponent();
    let mut acc: [u64; 4] = montgomery_one_limbs();
    let mut squared: [u64; 4] = *base;
    let ghost mut done: nat = 0;
    let ghost mut weight: nat = 1;
    let mut j: usize = 0;
    proof {
        lemma_limbs_of_value(*base);
        lemma_montgomery_power_adds(v, 1, 0);
        lemma_montgomery_one(v);
        lemma_small_mod(v as nat, p as nat);
        assert(montgomery_power(v, 1) == (v * montgomery_one() * montgomery_inverse()) % p);
        assert(1 * (p - 2) == p - 2);
    }
    while j < 4
        invariant
            0 <= j <= 4,
            p == modulus(),
            v == limbs_value(*base),
            limbs_value(exponent) == p - 2,
            limbs_value(acc) < p,
            limbs_value(squared) < p,
            limbs_value(acc) == montgomery_power(v, done),
            limbs_value(squared) == montgomery_power(v, weight),
            done + weight * upper_value(exponent, j as int) == p - 2,
        decreases 4 - j,
    {
        let mut x = exponent[j];
        let ghost up = upper_value(exponent, j + 1);
        let ghost mut rest = upper_value(exponent, j as int);
        let mut s: usize = 0;
        proof {
            lemma_exp2_64();
        }
        while s < 64
            invariant
                0 <= s <= 64,
                p == modulus(),
                v == limbs_value(*base),
                limbs_value(exponent) == p - 2,
                limbs_value(acc) < p,
                limbs_value(squared) < p,
                limbs_value(acc) == montgomery_power(v, done),
                limbs_value(squared) == montgomery_power(v, weight),
                x < exp2((64 - s) as nat),
                up == upper_value(exponent, j + 1),
                rest == x + exp2((64 - s) as nat) * up,
                done + weight * rest == p - 2,
            decreases 64 - s,
        {
            let bit = x % 2;
            let ghost next_rest = x / 2 + exp2((63 - s) as nat) * up;
            proof {
                let e = exp2((63 - s) as nat) as int;
                assert(exp2((64 - s) as nat) == 2 * e);
                assert(rest == 2 * next_rest + bit) by (nonlinear_arith)
                    requires
                        rest == x + (2 * e) * up,
                        next_rest == x / 2 + e * up,
                        bit == x % 2,
                ;
                assert(weight * rest == (2 * weight) * next_rest + weight * bit)
                    by (nonlinear_arith)
                    requires
                        rest == 2 * next_rest + bit,
                ;
                lemma_montgomery_power_adds(v, done, weight);
                lemma_montgomery_power_adds(v, weight, weight);
            }
            if bit == 1 {
                acc = montgomery_mul(&acc, &squared);
                proof {
                    done = done + weight;
                }
            }
            squared = montgomery_mul(&squared, &squared);
            x = x / 2;
            s = s + 1;
            proof {
                weight = 2 * weight;
                rest = next_rest;
            }
        }
        proof {
            assert(exp2(0) == 1);
            assert(1 * up == up);
        }
        j = j + 1;
    }
    proof {
        assert(weight * 0 == 0);
    }
    acc
}

} // verus!
