//! Powers of two and base-two logarithms of natural numbers.
use vstd::prelude::*;

verus! {

/// `2^k`.
pub open spec fn exp2(k: nat) -> nat
    decreases k,
{
    if k == 0 {
        1
    } else {
        2 * exp2((k - 1) as nat)
    }
}

/// The base-two logarithm of `n`, rounded down; zero for `n = 0`.
pub open spec fn log2(n: nat) -> nat
    decreases n,
{
    if n <= 1 {
        0
    } else {
        1 + log2(n / 2)
    }
}

/// Whether `n` is a power of two.
pub open spec fn is_power_of_two(n: nat) -> bool {
    n == exp2(log2(n))
}

/// `exp2` is positive and strictly increasing.
pub proof fn lemma_exp2_increases(j: nat, k: nat)
    requires
        j <= k,
    ensures
        1 <= exp2(j) <= exp2(k),
        j < k ==> 2 * exp2(j) <= exp2(k),
    decreases k,
{
    if j < k {
        lemma_exp2_increases(j, (k - 1) as nat);
    } else if k > 0 {
        lemma_exp2_increases((j - 1) as nat, (k - 1) as nat);
    }
}

/// Every number is below its power of two.
pub proof fn lemma_exp2_exceeds(k: nat)
    ensures
        k < exp2(k),
    decreases k,
{
    if k > 0 {
        lemma_exp2_exceeds((k - 1) as nat);
    }
}

/// The logarithm of every number from `2^k` up to, but not including,
/// `2^(k+1)` is `k`.
pub proof fn lemma_log2_between(n: nat, k: nat)
    requires
        exp2(k) <= n < 2 * exp2(k),
    ensures
        log2(n) == k,
    decreases k,
{
    if k > 0 {
        lemma_exp2_increases(0, (k - 1) as nat);
        lemma_log2_between(n / 2, (k - 1) as nat);
    }
}

/// `2^k` is a power of two, with logarithm `k`.
pub proof fn lemma_exp2_is_power(k: nat)
    ensures
        log2(exp2(k)) == k,
        is_power_of_two(exp2(k)),
{
    lemma_exp2_increases(0, k);
    lemma_log2_between(exp2(k), k);
}

/// Half of a power of two above one is a power of two, one smaller in
/// logarithm.
pub proof fn lemma_half_is_power(n: nat)
    requires
        is_power_of_two(n),
        n >= 2,
    ensures
        n % 2 == 0,
        is_power_of_two(n / 2),
        log2(n) == log2(n / 2) + 1,
        n / 2 >= 1,
{
}

/// Exponents add under multiplication.
pub proof fn lemma_exp2_adds(j: nat, k: nat)
    ensures
        exp2(j + k) == exp2(j) * exp2(k),
    decreases j,
{
    if j > 0 {
        lemma_exp2_adds((j - 1) as nat, k);
        assert(2 * (exp2((j - 1) as nat) * exp2(k)) == (2 * exp2((j - 1) as nat)) * exp2(k))
            by (nonlinear_arith);
    } else {
        assert(1 * exp2(k) == exp2(k));
    }
}

/// The power of two nearest to `num`, the smaller one on a tie; zero
/// for zero.
pub fn nearest_power_of_two(num: usize) -> (r: usize)
    requires
        2 * exp2(log2(num as nat)) <= usize::MAX,
    ensures
        num == 0 ==> r == 0,
        num >= 1 ==> ({
            let low = exp2(log2(num as nat));
            r == if num - low <= 2 * low - num {
                low
            } else {
                2 * low
            }
        }),
{
    if num == 0 {
        return 0;
    }
    let mut power: usize = 1;
    let mut doubled: usize = 0;
    proof {
        lemma_exp2_increases(0, log2(num as nat));
    }
    while power < num
        invariant
            power == exp2(doubled as nat),
            doubled == 0 || exp2((doubled - 1) as nat) < num,
            2 * exp2(log2(num as nat)) <= usize::MAX,
            num >= 1,
            doubled < power,
            power <= 2 * exp2(log2(num as nat)),
        decreases 2 * exp2(log2(num as nat)) - power,
    {
        proof {
            lemma_log2_bounds(num as nat);
            lemma_exp2_increases(0, doubled as nat);
            if doubled > log2(num as nat) {
                lemma_exp2_increases(log2(num as nat) + 1, doubled as nat);
                assert(false);
            }
            lemma_exp2_increases(doubled as nat, log2(num as nat));
        }
        power = power * 2;
        doubled = doubled + 1;
    }
    proof {
        lemma_log2_bounds(num as nat);
        if power == num {
            lemma_exp2_is_power(doubled as nat);
        } else {
            lemma_log2_between(num as nat, (doubled - 1) as nat);
        }
    }
    if power == num {
        return num;
    }
    let lower = power / 2;
    if num - lower <= power - num {
        lower
    } else {
        power
    }
}

/// A positive number lies between the power of two of its logarithm and
/// twice that power.
pub proof fn lemma_log2_bounds(n: nat)
    requires
        n >= 1,
    ensures
        exp2(log2(n)) <= n < 2 * exp2(log2(n)),
    decreases n,
{
    if n > 1 {
        lemma_log2_bounds(n / 2);
    }
}

} // verus!
