//! The folding step shared by both protocols, and the reduction of the
//! queried positions from one round to the next.
use vstd::prelude::*;
use crate::algebra::coset::Coset;
use crate::algebra::field::{Field, FieldOps};

verus! {

/// The sum that a fold computes before it is halved:
/// `(x + nx) + r * (x - nx) * inv`.
pub open spec fn fold_sum<T: FieldOps>(x: T, nx: T, r: T, inv: T) -> T {
    x.plus(nx).plus(r.times(x.minus(nx)).times(inv))
}

/// The fold of the sibling values `x` and `nx` with the parameter `r`,
/// where `inv` is the inverse of the coset element at `x`'s position:
/// `((x + nx) + r * (x - nx) * inv) / 2`.
pub open spec fn fold_value<T: FieldOps>(x: T, nx: T, r: T, inv: T) -> T {
    fold_sum(x, nx, r, inv).times(T::half())
}

/// The fold of the codeword `v` on `coset` with the parameter `r`: a
/// codeword of half the length whose entry `i` is the fold of `v[i]` and
/// `v[i + v.len() / 2]`.
pub open spec fn folded<T: Field>(v: Seq<T>, r: T, coset: &Coset<T>) -> Seq<T> {
    Seq::new(
        (v.len() / 2) as nat,
        |i: int| fold_value(v[i], v[i + v.len() / 2], r, coset.element_inv(i as nat)),
    )
}

/// The next value of the folding chain from the sibling values `x`, `nx`
/// of the chain and `fx`, `fnx` of the function chain:
/// `(a * rho + (fx + fnx)) * rho + (fx - fnx) * inv` with
/// `a = (x + nx) + rho * (x - nx) * inv`.
pub open spec fn coupled_value<T: FieldOps>(x: T, nx: T, fx: T, fnx: T, rho: T, inv: T) -> T {
    fold_sum(x, nx, rho, inv).times(rho).plus(fx.plus(fnx)).times(rho).plus(
        fx.minus(fnx).times(inv),
    )
}

/// The next layer of the folding chain from the layer `g` and the
/// function layer `f`, both on `coset`, with the challenge `rho`.
pub open spec fn coupled<T: Field>(g: Seq<T>, f: Seq<T>, rho: T, coset: &Coset<T>) -> Seq<T> {
    Seq::new(
        (g.len() / 2) as nat,
        |j: int|
            coupled_value(
                g[j],
                g[j + g.len() / 2],
                f[j],
                f[j + g.len() / 2],
                rho,
                coset.element_inv(j as nat),
            ),
    )
}

/// The codeword `start` after the rounds `0..=i` of folding: round `j`
/// folds on `cosets[j]` with the parameter `parameters[j]`.
pub open spec fn fold_chain<T: Field>(
    start: Seq<T>,
    parameters: Seq<T>,
    cosets: Seq<Coset<T>>,
    i: int,
) -> Seq<T>
    decreases i + 1,
{
    if i < 0 {
        start
    } else {
        folded(fold_chain(start, parameters, cosets, i - 1), parameters[i], &cosets[i])
    }
}

/// The folding chain after the rounds `0..=i`: round `j` couples the
/// layer before it, at first `start`, with the function chain's layer
/// `fold_chain(function, point, cosets, j - 1)`, using the challenge
/// `challenges[j]`.
pub open spec fn coupled_chain<T: Field>(
    start: Seq<T>,
    function: Seq<T>,
    point: Seq<T>,
    challenges: Seq<T>,
    cosets: Seq<Coset<T>>,
    i: int,
) -> Seq<T>
    decreases i + 1,
{
    if i < 0 {
        start
    } else {
        coupled(
            coupled_chain(start, function, point, challenges, cosets, i - 1),
            fold_chain(function, point, cosets, i - 1),
            challenges[i],
            &cosets[i],
        )
    }
}

/// Computes `fold_sum`.
pub fn fold_pair_sum<T: Field>(x: T, nx: T, r: T, inv: T) -> (sum: T)
    ensures
        sum == fold_sum(x, nx, r, inv),
{
    x.add(nx).add(r.mul(x.sub(nx)).mul(inv))
}

/// Computes `coupled_value`.
pub fn couple_pair<T: Field>(x: T, nx: T, fx: T, fnx: T, rho: T, inv: T) -> (value: T)
    ensures
        value == coupled_value(x, nx, fx, fnx, rho, inv),
{
    let a = fold_pair_sum(x, nx, rho, inv);
    a.mul(rho).add(fx.add(fnx)).mul(rho).add(fx.sub(fnx).mul(inv))
}

/// Folds a codeword on `coset` with the given parameter.
pub fn fold_codeword<T: Field>(values: &Vec<T>, parameter: T, coset: &Coset<T>) -> (next: Vec<T>)
    requires
        coset.wf(),
        values@.len() / 2 <= coset.spec_size(),
    ensures
        next@ == folded(values@, parameter, coset),
{
    let len = values.len() / 2;
    assert(2 * len <= values.len());
    let half = T::inverse_2();
    let mut next: Vec<T> = Vec::new();
    let mut i: usize = 0;
    while i < len
        invariant
            0 <= i <= len,
            len == values@.len() / 2,
            2 * len <= values.len(),
            len <= coset.spec_size(),
            coset.wf(),
            half == T::half(),
            next@.len() == i,
            forall|j: int|
                0 <= j < i ==> #[trigger] next@[j] == fold_value(
                    values@[j],
                    values@[j + len],
                    parameter,
                    coset.element_inv(j as nat),
                ),
        decreases len - i,
    {
        let sum = fold_pair_sum(values[i], values[i + len], parameter, coset.element_inv_at(i));
        next.push(sum.mul(half));
        i = i + 1;
    }
    assert(next@ =~= folded(values@, parameter, coset));
    next
}

/// Computes the next layer of the folding chain.
pub fn couple_codewords<T: Field>(g: &Vec<T>, f: &Vec<T>, rho: T, coset: &Coset<T>) -> (next: Vec<T>)
    requires
        coset.wf(),
        g@.len() / 2 <= coset.spec_size(),
        f@.len() == g@.len(),
    ensures
        next@ == coupled(g@, f@, rho, coset),
{
    let len = g.len() / 2;
    let mut next: Vec<T> = Vec::new();
    let mut j: usize = 0;
    while j < len
        invariant
            0 <= j <= len,
            len == g@.len() / 2,
            2 * len <= g.len(),
            f@.len() == g@.len(),
            len <= coset.spec_size(),
            coset.wf(),
            next@.len() == j,
            forall|k: int|
                0 <= k < j ==> #[trigger] next@[k] == coupled_value(
                    g@[k],
                    g@[k + len],
                    f@[k],
                    f@[k + len],
                    rho,
                    coset.element_inv(k as nat),
                ),
        decreases len - j,
    {
        next.push(
            couple_pair(g[j], g[j + len], f[j], f[j + len], rho, coset.element_inv_at(j)),
        );
        j = j + 1;
    }
    assert(next@ =~= coupled(g@, f@, rho, coset));
    next
}

/// Whether the coset at `i` is the square of the one before it.
pub open spec fn squares_previous<T: Field>(cosets: Seq<Coset<T>>, i: int) -> bool {
    cosets[i].is_power(&cosets[i - 1], 2)
}

/// Whether `cosets` can carry a protocol of `total_round` rounds: there
/// is a well-formed coset of at least two elements for every round, and
/// each is the square of the one before.
pub open spec fn valid_cosets<T: Field>(cosets: Seq<Coset<T>>, total_round: nat) -> bool {
    &&& total_round >= 1
    &&& cosets.len() >= total_round
    &&& forall|i: int|
        0 <= i < total_round ==> (#[trigger] cosets[i]).wf() && cosets[i].spec_size() >= 2
    &&& forall|i: int| 0 < i < total_round ==> #[trigger] squares_previous(cosets, i)
}

/// The positions queried in round `i`: the positions of the round
/// before, or the oracle's list in the first round, reduced modulo half
/// the size of the round's coset.
pub open spec fn round_indices<T: Field>(cosets: Seq<Coset<T>>, list: Seq<usize>, i: nat) -> Seq<
    usize,
>
    decreases i,
{
    let previous = if i == 0 {
        list
    } else {
        round_indices(cosets, list, (i - 1) as nat)
    };
    reduce_indices(previous, (cosets[i as int].spec_size() / 2) as usize)
}

/// The sum of the products `comb[j] * vals[j]`.
pub open spec fn combine<T: FieldOps>(vals: Seq<T>, comb: Seq<T>) -> T
    decreases vals.len(),
{
    if vals.len() == 0 {
        T::zero()
    } else if vals.len() == 1 {
        comb[0].times(vals[0])
    } else {
        comb[0].times(vals[0]).plus(combine(vals.drop_first(), comb.drop_first()))
    }
}

/// Computes `combine`.
pub fn linear_combination<T: Field>(vals: &Vec<T>, comb: &Vec<T>) -> (sum: T)
    requires
        vals@.len() == comb@.len(),
    ensures
        sum == combine(vals@, comb@),
{
    let n = vals.len();
    if n == 0 {
        proof {
            T::lemma_embed();
        }
        return T::from_int(0);
    }
    let mut sum = comb[n - 1].mul(vals[n - 1]);
    let mut i: usize = n - 1;
    assert(vals@.subrange(i as int, n as int).len() == 1);
    while i > 0
        invariant
            0 <= i < n,
            n == vals@.len(),
            n == comb@.len(),
            sum == combine(vals@.subrange(i as int, n as int), comb@.subrange(i as int, n as int)),
        decreases i,
    {
        i = i - 1;
        assert(vals@.subrange(i as int, n as int).drop_first() =~= vals@.subrange(i + 1, n as int));
        assert(comb@.subrange(i as int, n as int).drop_first() =~= comb@.subrange(i + 1, n as int));
        sum = comb[i].mul(vals[i]).add(sum);
    }
    assert(vals@.subrange(0, n as int) =~= vals@);
    assert(comb@.subrange(0, n as int) =~= comb@);
    sum
}

/// `s` with `v` put in its place, where `s` is strictly increasing; `s`
/// itself if it holds `v` already.
pub open spec fn insert_sorted(s: Seq<usize>, v: usize) -> Seq<usize>
    decreases s.len(),
{
    if s.len() == 0 {
        seq![v]
    } else if v < s[0] {
        seq![v] + s
    } else if v == s[0] {
        s
    } else {
        seq![s[0]] + insert_sorted(s.drop_first(), v)
    }
}

/// The residues of `list` modulo `modulus`, sorted, each once.
pub open spec fn reduce_indices(list: Seq<usize>, modulus: usize) -> Seq<usize>
    decreases list.len(),
{
    if list.len() == 0 {
        Seq::empty()
    } else {
        insert_sorted(
            reduce_indices(list.drop_last(), modulus),
            (list.last() % modulus) as usize,
        )
    }
}

/// Whether `s` is strictly increasing.
pub open spec fn strictly_increasing(s: Seq<usize>) -> bool {
    forall|a: int, b: int| 0 <= a < b < s.len() ==> s[a] < s[b]
}

/// Inserting into a strictly increasing sequence gives a strictly
/// increasing sequence that holds the old entries and the new one, and
/// nothing else.
pub proof fn lemma_insert_sorted(s: Seq<usize>, v: usize)
    requires
        strictly_increasing(s),
    ensures
        strictly_increasing(insert_sorted(s, v)),
        forall|x: usize| #[trigger] insert_sorted(s, v).contains(x) <==> (s.contains(x) || x == v),
        s.len() <= insert_sorted(s, v).len() <= s.len() + 1,
    decreases s.len(),
{
    let r = insert_sorted(s, v);
    if s.len() == 0 {
        assert forall|x: usize| r.contains(x) <==> (s.contains(x) || x == v) by {
            if r.contains(x) {
                let i = choose|i: int| 0 <= i < r.len() && r[i] == x;
            }
            if x == v {
                assert(r[0] == x);
            }
        }
    } else if v < s[0] {
        assert forall|x: usize| r.contains(x) <==> (s.contains(x) || x == v) by {
            if r.contains(x) {
                let i = choose|i: int| 0 <= i < r.len() && r[i] == x;
                if i > 0 {
                    assert(s[i - 1] == x);
                }
            }
            if s.contains(x) {
                let i = choose|i: int| 0 <= i < s.len() && s[i] == x;
                assert(r[i + 1] == x);
            }
            if x == v {
                assert(r[0] == x);
            }
        }
    } else if v == s[0] {
        assert forall|x: usize| r.contains(x) <==> (s.contains(x) || x == v) by {
            if x == v {
                assert(s[0] == x);
            }
        }
    } else {
        let tail = s.drop_first();
        let rest = insert_sorted(tail, v);
        assert(strictly_increasing(tail)) by {
            assert forall|a: int, b: int| 0 <= a < b < tail.len() implies tail[a] < tail[b] by {
                assert(s[a + 1] < s[b + 1]);
            }
        }
        lemma_insert_sorted(tail, v);
        assert forall|x: usize| rest.contains(x) implies s[0] < x by {
            if tail.contains(x) {
                let i = choose|i: int| 0 <= i < tail.len() && tail[i] == x;
                assert(s[0] < s[i + 1]);
            }
        }
        assert forall|a: int, b: int| 0 <= a < b < r.len() implies r[a] < r[b] by {
            assert(rest.contains(rest[b - 1]));
            if a > 0 {
                assert(rest[a - 1] < rest[b - 1]);
            }
        }
        assert forall|x: usize| r.contains(x) <==> (s.contains(x) || x == v) by {
            if r.contains(x) {
                let i = choose|i: int| 0 <= i < r.len() && r[i] == x;
                if i > 0 {
                    assert(rest.contains(rest[i - 1]));
                    if tail.contains(x) {
                        let k = choose|k: int| 0 <= k < tail.len() && tail[k] == x;
                        assert(s[k + 1] == x);
                    }
                } else {
                    assert(s[0] == x);
                }
            }
            if s.contains(x) {
                let i = choose|i: int| 0 <= i < s.len() && s[i] == x;
                if i == 0 {
                    assert(r[0] == x);
                } else {
                    assert(tail[i - 1] == x);
                    assert(tail.contains(x));
                    assert(rest.contains(x));
                    let k = choose|k: int| 0 <= k < rest.len() && rest[k] == x;
                    assert(r[k + 1] == x);
                }
            }
            if x == v {
                assert(insert_sorted(tail, v).contains(x));
                let k = choose|k: int| 0 <= k < rest.len() && rest[k] == x;
                assert(r[k + 1] == x);
            }
        }
    }
}

/// As long as there is a position to reduce, there is a reduced
/// position.
pub proof fn lemma_reduce_indices_nonempty(list: Seq<usize>, modulus: usize)
    requires
        list.len() >= 1,
    ensures
        reduce_indices(list, modulus).len() >= 1,
    decreases list.len(),
{
    let before = reduce_indices(list.drop_last(), modulus);
    let v = (list.last() % modulus) as usize;
    lemma_insert_nonempty(before, v);
}

/// Inserting leaves at least one entry.
pub proof fn lemma_insert_nonempty(s: Seq<usize>, v: usize)
    ensures
        insert_sorted(s, v).len() >= 1,
    decreases s.len(),
{
    if s.len() > 0 && v > s[0] {
        lemma_insert_nonempty(s.drop_first(), v);
    }
}

/// Every round queries a position if the oracle's list holds one.
pub proof fn lemma_round_indices_nonempty<T: Field>(
    cosets: Seq<Coset<T>>,
    list: Seq<usize>,
    i: nat,
)
    requires
        list.len() >= 1,
    ensures
        round_indices(cosets, list, i).len() >= 1,
    decreases i,
{
    let modulus = (cosets[i as int].spec_size() / 2) as usize;
    if i == 0 {
        lemma_reduce_indices_nonempty(list, modulus);
    } else {
        lemma_round_indices_nonempty(cosets, list, (i - 1) as nat);
        lemma_reduce_indices_nonempty(round_indices(cosets, list, (i - 1) as nat), modulus);
    }
}

/// Whether `x` is the residue of an entry of `list`.
pub open spec fn is_residue(list: Seq<usize>, modulus: usize, x: usize) -> bool {
    exists|k: int| 0 <= k < list.len() && x == #[trigger] list[k] % modulus
}

/// The reduced positions are sorted without repetition, they are
/// exactly the residues of the given positions, and each is below the
/// modulus.
pub proof fn lemma_reduce_indices(list: Seq<usize>, modulus: usize)
    requires
        modulus >= 1,
    ensures
        strictly_increasing(reduce_indices(list, modulus)),
        forall|x: usize|
            #[trigger] reduce_indices(list, modulus).contains(x) <==> is_residue(list, modulus, x),
        forall|k: int|
            0 <= k < reduce_indices(list, modulus).len() ==> #[trigger] reduce_indices(
                list,
                modulus,
            )[k] < modulus,
        reduce_indices(list, modulus).len() <= list.len(),
    decreases list.len(),
{
    let r = reduce_indices(list, modulus);
    if list.len() > 0 {
        let shorter = list.drop_last();
        let before = reduce_indices(shorter, modulus);
        let v = (list.last() % modulus) as usize;
        lemma_reduce_indices(shorter, modulus);
        lemma_insert_sorted(before, v);
        assert forall|x: usize| #[trigger] r.contains(x) <==> is_residue(list, modulus, x) by {
            assert(insert_sorted(before, v).contains(x) <==> (before.contains(x) || x == v));
            assert(before.contains(x) <==> is_residue(shorter, modulus, x));
            if is_residue(shorter, modulus, x) {
                let k = choose|k: int| 0 <= k < shorter.len() && x == #[trigger] shorter[k]
                    % modulus;
                assert(x == list[k] % modulus);
            }
            if x == v {
                assert(x == list[list.len() - 1] % modulus);
            }
            if is_residue(list, modulus, x) {
                let k = choose|k: int| 0 <= k < list.len() && x == #[trigger] list[k] % modulus;
                if k < shorter.len() {
                    assert(x == shorter[k] % modulus);
                }
            }
        }
        assert forall|k: int| 0 <= k < r.len() implies #[trigger] r[k] < modulus by {
            assert(r.contains(r[k]));
            assert(is_residue(list, modulus, r[k]));
        }
    } else {
        assert forall|x: usize| #[trigger] r.contains(x) <==> is_residue(list, modulus, x) by {
            if r.contains(x) {
                let i = choose|i: int| 0 <= i < r.len() && r[i] == x;
            }
        }
    }
}

/// Inserting after a prefix of smaller entries: the prefix stays in
/// front.
proof fn lemma_insert_after_prefix(s: Seq<usize>, v: usize, i: int)
    requires
        0 <= i <= s.len(),
        forall|j: int| 0 <= j < i ==> s[j] < v,
    ensures
        insert_sorted(s, v) == s.subrange(0, i) + insert_sorted(s.subrange(i, s.len() as int), v),
    decreases i,
{
    if i == 0 {
        assert(s.subrange(0, s.len() as int) =~= s);
        assert(s.subrange(0, 0) + insert_sorted(s, v) =~= insert_sorted(s, v));
    } else {
        let tail = s.drop_first();
        assert forall|j: int| 0 <= j < i - 1 implies tail[j] < v by {
            assert(s[j + 1] < v);
        }
        lemma_insert_after_prefix(tail, v, i - 1);
        assert(s[0] < v);
        assert(tail.subrange(i - 1, tail.len() as int) =~= s.subrange(i, s.len() as int));
        assert(seq![s[0]] + tail.subrange(0, i - 1) =~= s.subrange(0, i));
        assert(seq![s[0]] + (tail.subrange(0, i - 1) + insert_sorted(
            s.subrange(i, s.len() as int),
            v,
        )) =~= s.subrange(0, i) + insert_sorted(s.subrange(i, s.len() as int), v));
    }
}

/// Puts `v` in its place in the strictly increasing vector `sorted`.
fn insert_index(sorted: &Vec<usize>, v: usize) -> (r: Vec<usize>)
    ensures
        r@ == insert_sorted(sorted@, v),
{
    let n = sorted.len();
    let mut r: Vec<usize> = Vec::new();
    let mut i: usize = 0;
    while i < n && sorted[i] < v
        invariant
            0 <= i <= n,
            n == sorted@.len(),
            r@ == sorted@.subrange(0, i as int),
            forall|j: int| 0 <= j < i ==> sorted@[j] < v,
        decreases n - i,
    {
        r.push(sorted[i]);
        i = i + 1;
        assert(r@ =~= sorted@.subrange(0, i as int));
    }
    let ghost rest = sorted@.subrange(i as int, n as int);
    let ghost prefix = r@;
    let present = i < n && sorted[i] == v;
    if !present {
        r.push(v);
    }
    let ghost head = r@;
    let mut k: usize = i;
    while k < n
        invariant
            i <= k <= n,
            n == sorted@.len(),
            r@ == head + sorted@.subrange(i as int, k as int),
        decreases n - k,
    {
        r.push(sorted[k]);
        k = k + 1;
        assert(r@ =~= head + sorted@.subrange(i as int, k as int));
    }
    proof {
        lemma_insert_after_prefix(sorted@, v, i as int);
        if present {
            assert(insert_sorted(rest, v) == rest);
            assert(r@ =~= prefix + rest);
        } else if i == n {
            assert(insert_sorted(rest, v) =~= seq![v]);
            assert(r@ =~= prefix + seq![v]);
        } else {
            assert(insert_sorted(rest, v) =~= seq![v] + rest);
            assert(r@ =~= prefix + (seq![v] + rest));
        }
    }
    r
}

/// Reduces the positions modulo `modulus`, sorts them and drops the
/// repetitions.
pub fn reduce_query_list(list: &Vec<usize>, modulus: usize) -> (r: Vec<usize>)
    requires
        modulus >= 1,
    ensures
        r@ == reduce_indices(list@, modulus),
{
    let mut r: Vec<usize> = Vec::new();
    let mut i: usize = 0;
    assert(list@.subrange(0, 0) =~= Seq::<usize>::empty());
    while i < list.len()
        invariant
            0 <= i <= list.len(),
            modulus >= 1,
            r@ == reduce_indices(list@.subrange(0, i as int), modulus),
        decreases list.len() - i,
    {
        assert(list@.subrange(0, i + 1).drop_last() =~= list@.subrange(0, i as int));
        r = insert_index(&r, list[i] % modulus);
        i = i + 1;
    }
    assert(list@.subrange(0, i as int) =~= list@);
    r
}

} // verus!
