//! The prover of the single-polynomial scheme.
use vstd::prelude::*;
use super::verification::{Verifier, VerifierView};
use crate::algebra::coset::Coset;
use crate::algebra::field::{Field, FieldOps};
use crate::algebra::tables::bound;
use crate::algebra::polynomial::{
    copy_of, eq_hypercube, hypercube, multilinear_value, EqMultilinear, MultilinearPolynomial,
};
use crate::folding::{
    fold_chain, fold_codeword, folded, lemma_reduce_indices, reduce_query_list, round_indices,
    strictly_increasing, valid_cosets,
};
use crate::merkle_tree::path_size;
use crate::interpolation::{answers, InterpolateValue};
use crate::merkle_tree::MERKLE_ROOT_SIZE;
use crate::pcs::prover::{codewords_of, extends_with, lemma_chain_sizes};
use crate::power_of_two::{exp2, lemma_exp2_increases};
use crate::query_result::QueryResult;
use crate::random_oracle::RandomOracle;

verus! {

/// The three sums of a sumcheck round over the first `k` positions of
/// the halves of the tables `p` and `e`, whose lower halves, of `m`
/// entries, hold the values with the round's variable zero and whose
/// upper halves those with it one: the sum of the products in the lower
/// half, that in the upper half, and that of the products of the
/// values extrapolated to two, twice the upper entry minus the lower.
pub open spec fn partial_sums<T: FieldOps>(p: Seq<T>, e: Seq<T>, m: int, k: int) -> (T, T, T)
    decreases k,
{
    if k <= 0 {
        (T::zero(), T::zero(), T::zero())
    } else {
        let before = partial_sums(p, e, m, k - 1);
        let x = k - 1;
        (
            before.0.plus(p[x].times(e[x])),
            before.1.plus(p[x + m].times(e[x + m])),
            before.2.plus(
                p[x + m].plus(p[x + m]).minus(p[x]).times(e[x + m].plus(e[x + m]).minus(e[x])),
            ),
        )
    }
}

/// The three sums of a sumcheck round over tables of `2 m` live
/// entries.
pub open spec fn round_sums<T: FieldOps>(p: Seq<T>, e: Seq<T>, m: int) -> (T, T, T) {
    partial_sums(p, e, m, m)
}

/// The table of round `i` when `start` is the table of the first round
/// of `total_round` and each round's variable is set to the round's
/// challenge.
pub open spec fn table_at<T: FieldOps>(
    start: Seq<T>,
    challenges: Seq<T>,
    total_round: int,
    i: int,
) -> Seq<T>
    decreases i,
{
    if i <= 0 {
        start
    } else {
        bound(
            table_at(start, challenges, total_round, i - 1),
            exp2((total_round - i) as nat) as int,
            challenges[i - 1],
        )
    }
}

/// The number of path bytes in the first `i` proofs.
pub open spec fn path_bytes_in<T: Field>(proofs: Seq<QueryResult<T>>, i: int) -> nat
    decreases i,
{
    if i <= 0 {
        0
    } else {
        path_bytes_in(proofs, i - 1) + proofs[i - 1].proof_bytes@.len()
    }
}

/// The sum, over the first `i` rounds, of the number of positions that
/// the round queries times the size of a path in the round's tree.
pub open spec fn path_bytes_due<T: Field>(cosets: Seq<Coset<T>>, list: Seq<usize>, i: int) -> nat
    decreases i,
{
    if i <= 0 {
        0
    } else {
        path_bytes_due(cosets, list, i - 1) + round_indices(cosets, list, (i - 1) as nat).len()
            * path_size((cosets[i - 1].spec_size() / 2) as nat)
    }
}

/// What a prover holds: the parameters of the protocol, the polynomial's
/// coefficients and its values on the Boolean cube, the layers of the
/// folding as far as they have been computed, and the sums of the
/// sumcheck.
pub struct ProverView<T: Field> {
    pub total_round: nat,
    pub cosets: Seq<Coset<T>>,
    pub oracle: RandomOracle<T>,
    pub coefficients: Seq<T>,
    pub interpolations: Seq<Seq<T>>,
    pub hypercube_interpolation: Seq<T>,
    pub sumcheck_value: Seq<(T, T, T)>,
    pub final_value: Option<T>,
}

impl<T: Field> ProverView<T> {
    /// The protocol has been run for the opening point `point`: the
    /// layer of each round is the polynomial's codeword folded with the
    /// challenges of the earlier rounds, the final value is the first
    /// entry of the codeword folded with all of them, and each
    /// round's sums are those of the polynomial's table and the equality
    /// polynomial's table with the earlier variables set to the earlier
    /// challenges.
    pub open spec fn proved(self, point: Seq<T>) -> bool {
        let n = self.total_round as int;
        let challenges = self.oracle.folding_challenges@;
        &&& self.interpolations.len() == n
        &&& forall|i: int|
            0 <= i < n ==> #[trigger] self.interpolations[i] == fold_chain(
                self.interpolations[0],
                challenges,
                self.cosets,
                i - 1,
            )
        &&& self.final_value == Some(
            fold_chain(self.interpolations[0], challenges, self.cosets, n - 1)[0],
        )
        &&& self.sumcheck_value.len() == n
        &&& forall|i: int|
            0 <= i < n ==> #[trigger] self.sumcheck_value[i] == round_sums(
                table_at(self.hypercube_interpolation, challenges, n, i),
                table_at(eq_hypercube(point), challenges, n, i),
                exp2((n - i - 1) as nat) as int,
            )
    }

    /// What `query` returns: for every round what the round's layer
    /// reveals at the round's positions.
    pub open spec fn responds(self, proofs: Seq<QueryResult<T>>) -> bool {
        &&& proofs.len() == self.total_round
        &&& forall|i: int|
            0 <= i < self.total_round ==> answers(
                self.interpolations[i],
                round_indices(self.cosets, self.oracle.query_list@, i as nat),
                #[trigger] proofs[i],
            )
    }
}

/// The prover of the single-polynomial scheme.
pub struct Prover<'a, T: Field> {
    pub total_round: usize,
    pub interpolate_cosets: &'a Vec<Coset<T>>,
    pub polynomial: MultilinearPolynomial<T>,
    pub interpolations: Vec<InterpolateValue<T>>,
    pub hypercube_interpolation: Vec<T>,
    pub sumcheck_value: Vec<(T, T, T)>,
    pub oracle: &'a RandomOracle<T>,
    pub final_value: Option<T>,
}

impl<'a, T: Field> View for Prover<'a, T> {
    type V = ProverView<T>;

    open spec fn view(&self) -> ProverView<T> {
        ProverView {
            total_round: self.total_round as nat,
            cosets: self.interpolate_cosets@,
            oracle: *self.oracle,
            coefficients: self.polynomial.coeffs(),
            interpolations: codewords_of(self.interpolations@),
            hypercube_interpolation: self.hypercube_interpolation@,
            sumcheck_value: self.sumcheck_value@,
            final_value: self.final_value,
        }
    }
}

impl<'a, T: Field> Prover<'a, T> {
    /// The polynomial has one variable per round, its table on the
    /// Boolean cube is at hand, and the layers are committed codewords of
    /// the sizes that the rounds ask for, the first of them the
    /// polynomial's codeword.
    pub open spec fn wf(&self) -> bool {
        let cosets = self.interpolate_cosets@;
        &&& valid_cosets(cosets, self.total_round as nat)
        &&& self.oracle.folding_challenges@.len() == self.total_round
        &&& self.polynomial.wf()
        &&& self.polynomial.variables() == self.total_round
        &&& self.hypercube_interpolation@ == hypercube(self.polynomial.coeffs())
        &&& 1 <= self.interpolations@.len() <= self.total_round
        &&& self.interpolations@[0].value@ == cosets[0].evaluations(self.polynomial.coeffs())
        &&& forall|i: int|
            0 <= i < self.interpolations@.len() ==> (#[trigger] self.interpolations@[i]).wf()
                && self.interpolations@[i].value@.len() == cosets[i].spec_size()
    }

    /// The positions of every round are sorted without repetition, and
    /// the paths in the prover's answers take, in all, the sum over the
    /// rounds of the number of the round's positions times the size of a
    /// path in the round's tree.
    pub proof fn lemma_proof_size(&self, proofs: Seq<QueryResult<T>>, i: int)
        requires
            self.wf(),
            self@.interpolations.len() == self@.total_round,
            self@.responds(proofs),
            0 <= i <= self@.total_round,
        ensures
            path_bytes_in(proofs, i) == path_bytes_due(
                self@.cosets,
                self@.oracle.query_list@,
                i,
            ),
            forall|r: int|
                0 <= r < self@.total_round ==> strictly_increasing(
                    #[trigger] round_indices(self@.cosets, self@.oracle.query_list@, r as nat),
                ),
        decreases i,
    {
        let cosets = self@.cosets;
        let list = self@.oracle.query_list@;
        assert forall|r: int| 0 <= r < self@.total_round implies strictly_increasing(
            #[trigger] round_indices(cosets, list, r as nat),
        ) by {
            let previous = if r == 0 {
                list
            } else {
                round_indices(cosets, list, (r - 1) as nat)
            };
            lemma_chain_sizes(cosets, self@.total_round, r);
            lemma_reduce_indices(previous, (cosets[r].spec_size() / 2) as usize);
        }
        if i > 0 {
            let layer = self.interpolations@[i - 1];
            let indices = round_indices(cosets, list, (i - 1) as nat);
            self.lemma_proof_size(proofs, i - 1);
            lemma_chain_sizes(cosets, self@.total_round, i - 1);
            crate::pcs::laws::lemma_round_indices_bound(
                cosets,
                list,
                self@.total_round,
                i - 1,
            );
            cosets[i - 1].lemma_wf();
            assert(layer.wf());
            assert(answers(self@.interpolations[i - 1], indices, proofs[i - 1]));
            layer.lemma_query_size(indices, &proofs[i - 1]);
        }
    }

    /// Encodes the polynomial on the first coset, commits to the
    /// codeword and tabulates the polynomial on the Boolean cube.
    pub fn new(
        total_round: usize,
        interpolate_cosets: &'a Vec<Coset<T>>,
        polynomial: MultilinearPolynomial<T>,
        oracle: &'a RandomOracle<T>,
    ) -> (prover: Self)
        requires
            valid_cosets(interpolate_cosets@, total_round as nat),
            oracle.folding_challenges@.len() == total_round,
            polynomial.wf(),
            polynomial.variables() == total_round,
        ensures
            prover.wf(),
            prover@ == (ProverView {
                total_round: total_round as nat,
                cosets: interpolate_cosets@,
                oracle: *oracle,
                coefficients: polynomial.coeffs(),
                interpolations: seq![interpolate_cosets@[0].evaluations(polynomial.coeffs())],
                hypercube_interpolation: hypercube(polynomial.coeffs()),
                sumcheck_value: Seq::empty(),
                final_value: None,
            }),
    {
        let coset = &interpolate_cosets[0];
        let values = coset.fft(copy_of(polynomial.coefficients()));
        proof {
            lemma_chain_sizes(interpolate_cosets@, total_round as nat, 0);
        }
        let mut interpolations: Vec<InterpolateValue<T>> = Vec::new();
        interpolations.push(InterpolateValue::new(values));
        let hypercube_interpolation = polynomial.evaluate_hypercube();
        let prover = Prover {
            total_round,
            interpolate_cosets,
            interpolations,
            hypercube_interpolation,
            polynomial,
            sumcheck_value: Vec::new(),
            oracle,
            final_value: None,
        };
        assert(prover@.interpolations =~= seq![
            interpolate_cosets@[0].evaluations(polynomial.coeffs()),
        ]);
        prover
    }

    /// The Merkle root of the polynomial's codeword.
    pub fn commit_polynomial(&self) -> (root: [u8; MERKLE_ROOT_SIZE])
        requires
            self.wf(),
        ensures
            root@ == crate::merkle_tree::merkle_root(
                crate::interpolation::pair_leaves(self@.interpolations[0]),
            ),
    {
        self.interpolations[0].commit()
    }

    /// Hands the roots of the folded layers, the sums of the sumcheck
    /// and the final value to the verifier.
    pub fn commit_foldings(&self, verifier: &mut Verifier<'a, T>)
        requires
            self.wf(),
            self@.interpolations.len() == self@.total_round,
            self@.final_value is Some,
        ensures
            final(verifier)@ == (VerifierView {
                folding_roots: final(verifier)@.folding_roots,
                sumcheck_values: old(verifier)@.sumcheck_values + self@.sumcheck_value,
                final_value: self@.final_value,
                ..old(verifier)@
            }),
            extends_with(
                old(verifier)@.folding_roots,
                final(verifier)@.folding_roots,
                self@.interpolations.subrange(1, self@.total_round as int),
            ),
    {
        let mut i: usize = 1;
        while i < self.total_round
            invariant
                1 <= i <= self.total_round,
                self.wf(),
                self@.interpolations.len() == self@.total_round,
                verifier@ == (VerifierView {
                    folding_roots: verifier@.folding_roots,
                    ..old(verifier)@
                }),
                verifier@.folding_roots.len() == old(verifier)@.folding_roots.len() + i - 1,
                forall|k: int|
                    0 <= k < old(verifier)@.folding_roots.len()
                        ==> #[trigger] verifier@.folding_roots[k] == old(verifier)@.folding_roots[k],
                forall|k: int|
                    old(verifier)@.folding_roots.len() <= k < verifier@.folding_roots.len()
                        ==> crate::pcs::prover::commits_to(
                        #[trigger] verifier@.folding_roots[k],
                        self.interpolations@[k - old(verifier)@.folding_roots.len() + 1].value@,
                    ),
            decreases self.total_round - i,
        {
            let interpolation = &self.interpolations[i];
            verifier.receive_folding_root(interpolation.leave_num(), interpolation.commit());
            i = i + 1;
        }
        let mut k: usize = 0;
        while k < self.sumcheck_value.len()
            invariant
                0 <= k <= self.sumcheck_value.len(),
                verifier@ == (VerifierView {
                    folding_roots: verifier@.folding_roots,
                    sumcheck_values: old(verifier)@.sumcheck_values
                        + self.sumcheck_value@.subrange(0, k as int),
                    ..old(verifier)@
                }),
                extends_with(
                    old(verifier)@.folding_roots,
                    verifier@.folding_roots,
                    self@.interpolations.subrange(1, self@.total_round as int),
                ),
            decreases self.sumcheck_value.len() - k,
        {
            let ghost before = verifier@.sumcheck_values;
            verifier.receive_sumcheck_value(self.sumcheck_value[k]);
            k = k + 1;
            assert(verifier@.sumcheck_values =~= old(verifier)@.sumcheck_values
                + self.sumcheck_value@.subrange(0, k as int));
        }
        assert(self.sumcheck_value@.subrange(0, k as int) =~= self.sumcheck_value@);
        match self.final_value {
            Some(value) => verifier.set_final_value(value),
            None => {},
        }
    }

    /// Tells the verifier the value of the polynomial at `point`.
    pub fn send_evaluation(&self, verifier: &mut Verifier<'a, T>, point: &Vec<T>)
        requires
            self.wf(),
            point@.len() == self@.total_round,
        ensures
            final(verifier)@ == (VerifierView {
                evaluation: Some(multilinear_value(self@.coefficients, point@)),
                ..old(verifier)@
            }),
    {
        verifier.set_evaluation(self.polynomial.evaluate(point));
    }

    /// The fold of the layer of round `round` with `challenge`.
    pub fn evaluation_next_domain(&self, round: usize, challenge: T) -> (next: Vec<T>)
        requires
            self.wf(),
            round < self@.interpolations.len(),
        ensures
            next@ == folded(
                self@.interpolations[round as int],
                challenge,
                &self@.cosets[round as int],
            ),
    {
        proof {
            lemma_chain_sizes(self.interpolate_cosets@, self.total_round as nat, round as int);
        }
        fold_codeword(&self.interpolations[round].value, challenge, &self.interpolate_cosets[round])
    }

    /// Sets the round's variable to `challenge` in a table whose live
    /// part has `2 m` entries.
    pub fn sumcheck_next_domain(hypercube_interpolation: &mut Vec<T>, m: usize, challenge: T)
        requires
            2 * m <= old(hypercube_interpolation)@.len(),
        ensures
            final(hypercube_interpolation)@ == bound(
                old(hypercube_interpolation)@,
                m as int,
                challenge,
            ),
    {
        let complement = T::from_int(1).sub(challenge);
        proof {
            T::lemma_embed();
        }
        let mut i: usize = 0;
        while i < m
            invariant
                0 <= i <= m,
                2 * m <= hypercube_interpolation.len(),
                hypercube_interpolation@.len() == old(hypercube_interpolation)@.len(),
                complement == T::one().minus(challenge),
                forall|x: int|
                    0 <= x < i ==> #[trigger] hypercube_interpolation@[x] == old(
                        hypercube_interpolation,
                    )@[x].times(complement).plus(
                        old(hypercube_interpolation)@[x + m].times(challenge),
                    ),
                forall|x: int|
                    i <= x < hypercube_interpolation@.len()
                        ==> #[trigger] hypercube_interpolation@[x] == old(
                        hypercube_interpolation,
                    )@[x],
            decreases m - i,
        {
            let scaled = hypercube_interpolation[i].mul(complement);
            let tmp = hypercube_interpolation[i + m].mul(challenge);
            hypercube_interpolation.set(i, scaled.add(tmp));
            i = i + 1;
        }
        assert(hypercube_interpolation@ =~= bound(
            old(hypercube_interpolation)@,
            m as int,
            challenge,
        ));
    }

    /// The three sums of a sumcheck round.
    fn sums(p: &Vec<T>, e: &Vec<T>, m: usize) -> (r: (T, T, T))
        requires
            2 * m <= p@.len(),
            2 * m <= e@.len(),
        ensures
            r == round_sums(p@, e@, m as int),
    {
        let zero = T::from_int(0);
        proof {
            T::lemma_embed();
        }
        let mut acc = (zero, zero, zero);
        let mut x: usize = 0;
        while x < m
            invariant
                0 <= x <= m,
                2 * m <= p.len(),
                2 * m <= e.len(),
                acc == partial_sums(p@, e@, m as int, x as int),
            decreases m - x,
        {
            let p_0 = p[x];
            let p_1 = p[x + m];
            let e_0 = e[x];
            let e_1 = e[x + m];
            acc = (
                acc.0.add(p_0.mul(e_0)),
                acc.1.add(p_1.mul(e_1)),
                acc.2.add(p_1.add(p_1).sub(p_0).mul(e_1.add(e_1).sub(e_0))),
            );
            x = x + 1;
        }
        acc
    }

    /// Runs the sumcheck for the opening point and folds the codeword,
    /// round by round, with the oracle's challenges.
    pub fn prove(&mut self, point: &Vec<T>)
        requires
            old(self).wf(),
            old(self)@.interpolations.len() == 1,
            old(self)@.sumcheck_value.len() == 0,
            point@.len() == old(self)@.total_round,
        ensures
            final(self).wf(),
            final(self)@ == (ProverView {
                interpolations: final(self)@.interpolations,
                sumcheck_value: final(self)@.sumcheck_value,
                final_value: final(self)@.final_value,
                ..old(self)@
            }),
            final(self)@.interpolations[0] == old(self)@.interpolations[0],
            final(self)@.proved(point@),
    {
        let n = self.total_round;
        let cosets = self.interpolate_cosets;
        let ghost challenges = self.oracle.folding_challenges@;
        let ghost start = self.hypercube_interpolation@;
        let ghost first = self.interpolations@[0].value@;
        let mut poly_hypercube = copy_of(&self.hypercube_interpolation);
        let mut eq_table = EqMultilinear::new(copy_of(point)).evaluate_hypercube();
        let ghost eq_start = eq_table@;
        let mut sumcheck_value: Vec<(T, T, T)> = Vec::new();
        let mut final_value = T::from_int(0);
        proof {
            self.polynomial.lemma_wf();
            crate::algebra::polynomial::lemma_hypercube_len(
                self.polynomial.coeffs(),
                n as nat,
            );
            crate::algebra::polynomial::lemma_eq_hypercube_len(point@);
        }
        let mut m: usize = poly_hypercube.len();
        let mut i: usize = 0;
        while i < n
            invariant
                0 <= i <= n,
                n == self.total_round,
                n >= 1,
                cosets == self.interpolate_cosets,
                challenges == self.oracle.folding_challenges@,
                self.wf(),
                self@ == (ProverView { interpolations: self@.interpolations, ..old(self)@ }),
                m == exp2((n - i) as nat),
                exp2(n as nat) <= usize::MAX,
                poly_hypercube@.len() == exp2(n as nat),
                eq_table@.len() == exp2(n as nat),
                i < n ==> poly_hypercube@ == table_at(start, challenges, n as int, i as int),
                i < n ==> eq_table@ == table_at(eq_start, challenges, n as int, i as int),
                self.interpolations@.len() == if i < n {
                    i + 1
                } else {
                    n as int
                },
                self.interpolations@[0].value@ == first,
                forall|k: int|
                    0 <= k < self.interpolations@.len() ==> (
                    #[trigger] self.interpolations@[k]).value@ == fold_chain(
                        first,
                        challenges,
                        cosets@,
                        k - 1,
                    ),
                i == n ==> final_value == fold_chain(first, challenges, cosets@, n - 1)[0],
                sumcheck_value@.len() == i,
                forall|k: int|
                    0 <= k < i ==> #[trigger] sumcheck_value@[k] == round_sums(
                        table_at(start, challenges, n as int, k),
                        table_at(eq_start, challenges, n as int, k),
                        exp2((n - k - 1) as nat) as int,
                    ),
            decreases n - i,
        {
            proof {
                lemma_exp2_increases((n - i) as nat, n as nat);
                lemma_chain_sizes(cosets@, n as nat, i as int);
            }
            m = m / 2;
            sumcheck_value.push(Self::sums(&poly_hypercube, &eq_table, m));
            let challenge = self.oracle.folding_challenges[i];
            let next = self.evaluation_next_domain(i, challenge);
            assert(next@ == fold_chain(first, challenges, cosets@, i as int)) by {
                reveal_with_fuel(fold_chain, 2);
            }
            if i < n - 1 {
                Self::sumcheck_next_domain(&mut poly_hypercube, m, challenge);
                Self::sumcheck_next_domain(&mut eq_table, m, challenge);
                proof {
                    lemma_chain_sizes(cosets@, n as nat, i + 1);
                }
                let ghost before = self.interpolations@;
                self.interpolations.push(InterpolateValue::new(next));
                proof {
                    assert forall|k: int| 0 <= k < self.interpolations@.len() implies (
                    #[trigger] self.interpolations@[k]).value@ == fold_chain(
                        first,
                        challenges,
                        cosets@,
                        k - 1,
                    ) by {
                        if k <= i {
                            assert(before[k] == self.interpolations@[k]);
                        }
                    }
                }
            } else {
                final_value = next[0];
            }
            i = i + 1;
        }
        self.sumcheck_value = sumcheck_value;
        self.final_value = Some(final_value);
        proof {
            assert forall|k: int| 0 <= k < n implies #[trigger] self@.interpolations[k]
                == fold_chain(self@.interpolations[0], challenges, self@.cosets, k - 1) by {
                assert(self.interpolations@[k].value@ == fold_chain(
                    first,
                    challenges,
                    cosets@,
                    k - 1,
                ));
            }
        }
    }

    /// Opens the layer of every round at the round's positions.
    pub fn query(&self) -> (proofs: Vec<QueryResult<T>>)
        requires
            self.wf(),
            self@.interpolations.len() == self@.total_round,
        ensures
            self@.responds(proofs@),
    {
        let n = self.total_round;
        let mut res: Vec<QueryResult<T>> = Vec::new();
        let mut leaf_indices: Vec<usize> = Vec::new();
        let ghost list = self.oracle.query_list@;
        let ghost cosets = self.interpolate_cosets@;
        let mut i: usize = 0;
        while i < n
            invariant
                0 <= i <= n,
                n == self.total_round,
                self.wf(),
                list == self.oracle.query_list@,
                cosets == self.interpolate_cosets@,
                self@.interpolations.len() == n,
                i > 0 ==> leaf_indices@ == round_indices(cosets, list, (i - 1) as nat),
                res@.len() == i,
                forall|r: int|
                    0 <= r < i ==> answers(
                        self@.interpolations[r],
                        round_indices(cosets, list, r as nat),
                        #[trigger] res@[r],
                    ),
            decreases n - i,
        {
            let len = self.interpolate_cosets[i].size();
            let ghost previous = if i == 0 {
                list
            } else {
                leaf_indices@
            };
            leaf_indices = if i == 0 {
                reduce_query_list(&self.oracle.query_list, len / 2)
            } else {
                reduce_query_list(&leaf_indices, len / 2)
            };
            proof {
                lemma_reduce_indices(previous, (len / 2) as usize);
                lemma_chain_sizes(cosets, n as nat, i as int);
            }
            res.push(self.interpolations[i].query(&leaf_indices));
            i = i + 1;
        }
        res
    }
}

} // verus!
