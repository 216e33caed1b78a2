//! What holds of the single-polynomial scheme: the folding ends in the
//! value of the polynomial at the challenges, the verifier accepts what
//! an honest prover gives, and it notices when the values, sums or roots
//! it was told are changed.
use vstd::prelude::*;
use super::prover::{round_sums, table_at, Prover, ProverView};
use super::sumcheck::{
    eq_prefix, lemma_eq_prefix, lemma_equality_table, lemma_halves, lemma_polynomial_table,
    lemma_round_sums,
};
use crate::algebra::tables::{dot, lemma_table_sum};
use super::verification::{round_polynomial, Verifier, VerifierView};
use crate::algebra::codeword::{
    all_canonical, lemma_bind_chain_shape, lemma_fold_chain_ends, lemma_multilinear_value,
};
use crate::algebra::coset::Coset;
use crate::algebra::field::Field;
use crate::algebra::polynomial::{
    eq_hypercube, eq_value, hypercube, multilinear_value, MultilinearPolynomial,
};
use crate::power_of_two::lemma_exp2_increases;
use crate::random_oracle::RandomOracle;
use crate::folding::{fold_chain, folded, reduce_indices, valid_cosets};
use crate::interpolation::answers;
use crate::merkle_tree::{has_collision, MerkleTreeVerifier};
use crate::pcs::laws::{lemma_lookup_next, lemma_round_indices_bound, lemma_round_reveals};
use crate::pcs::prover::{commits_to, lemma_chain_sizes};
use crate::power_of_two::exp2;
use crate::query_result::QueryResult;

verus! {

impl<T: Field> ProverView<T> {
    /// The prover holds the codeword, on the first coset, of a
    /// polynomial with canonical coefficients, one variable for each
    /// round.
    pub open spec fn encodes(self) -> bool {
        &&& valid_cosets(self.cosets, self.total_round)
        &&& self.coefficients.len() == exp2(self.total_round)
        &&& all_canonical(self.coefficients)
        &&& self.interpolations.len() >= 1
        &&& self.interpolations[0] == self.cosets[0].evaluations(self.coefficients)
        &&& self.hypercube_interpolation == hypercube(self.coefficients)
        &&& self.oracle.folding_challenges@.len() == self.total_round
    }

    /// The sum that the sumcheck claims before round `i` is the sum,
    /// over the live part of the tables, of the products of the
    /// polynomial's table and the equality polynomial's.
    pub proof fn lemma_claims(self, point: Seq<T>, i: int)
        requires
            self.encodes(),
            self.proved(point),
            point.len() == self.total_round,
            0 <= i <= self.total_round,
        ensures
            (if i == 0 {
                multilinear_value(self.coefficients, point)
            } else {
                round_polynomial(
                    self.sumcheck_value[i - 1],
                    self.oracle.folding_challenges@[i - 1],
                )
            }) == dot(
                table_at(
                    self.hypercube_interpolation,
                    self.oracle.folding_challenges@,
                    self.total_round as int,
                    i,
                ),
                table_at(
                    eq_hypercube(point),
                    self.oracle.folding_challenges@,
                    self.total_round as int,
                    i,
                ),
                crate::power_of_two::exp2((self.total_round - i) as nat) as int,
            ),
    {
        let n = self.total_round;
        let challenges = self.oracle.folding_challenges@;
        if i == 0 {
            lemma_table_sum(self.coefficients, point, n);
        } else {
            let m = crate::power_of_two::exp2((n - i) as nat) as int;
            let p = table_at(self.hypercube_interpolation, challenges, n as int, i - 1);
            let e = table_at(eq_hypercube(point), challenges, n as int, i - 1);
            lemma_polynomial_table(self.coefficients, challenges, n, i - 1);
            lemma_equality_table(point, challenges, n, i - 1);
            lemma_exp2_increases((n - i + 1) as nat, n);
            assert(crate::power_of_two::exp2((n - i + 1) as nat) == 2 * m);
            assert(self.sumcheck_value[i - 1] == round_sums(p, e, m));
            lemma_round_sums(p, e, m, challenges[i - 1], m);
        }
    }

    /// The final value is the value of the polynomial at the point of
    /// the folding challenges, and the last fold is constant.
    pub proof fn lemma_final_value(self, point: Seq<T>, j: int)
        requires
            self.encodes(),
            self.proved(point),
            self.oracle.folding_challenges@.len() == self.total_round,
            0 <= j < self.cosets[self.total_round - 1].spec_size() / 2,
        ensures
            self.final_value == Some(
                multilinear_value(self.coefficients, self.oracle.folding_challenges@),
            ),
            fold_chain(
                self.interpolations[0],
                self.oracle.folding_challenges@,
                self.cosets,
                self.total_round - 1,
            )[j] == multilinear_value(self.coefficients, self.oracle.folding_challenges@),
    {
        let n = self.total_round;
        lemma_chain_sizes(self.cosets, n, n - 1);
        lemma_fold_chain_ends(
            self.cosets,
            self.coefficients,
            self.oracle.folding_challenges@,
            n,
            0,
        );
        lemma_fold_chain_ends(
            self.cosets,
            self.coefficients,
            self.oracle.folding_challenges@,
            n,
            j,
        );
    }
}

impl<T: Field> VerifierView<T> {
    /// The verifier has been told the outcome of the sumcheck for its
    /// opening point: the value of the polynomial at the point and the
    /// sums of every round.
    pub open spec fn heard(self, prover: ProverView<T>) -> bool {
        &&& self.evaluation == Some(multilinear_value(prover.coefficients, self.open_point))
        &&& self.sumcheck_values == prover.sumcheck_value
    }

    /// The sumcheck holds of what an honest prover says: the sums of
    /// every round add up to the claim before it, and the last claim is
    /// the final value times the equality polynomial of the opening
    /// point at the challenges.
    pub proof fn lemma_sumcheck_accepted(self, prover: ProverView<T>)
        requires
            prover.encodes(),
            prover.proved(self.open_point),
            self.wf(),
            self.follows(prover),
            self.heard(prover),
        ensures
            self.sumcheck_ok(),
    {
        let n = self.total_round;
        let point = self.open_point;
        let challenges = self.oracle.folding_challenges@;
        let start = prover.hypercube_interpolation;
        assert forall|i: int| 0 <= i < n implies (#[trigger] self.sumcheck_values[i]).0.plus(
            self.sumcheck_values[i].1,
        ) == self.claim(i) by {
            let m = crate::power_of_two::exp2((n - i - 1) as nat) as int;
            let p = table_at(start, challenges, n as int, i);
            let e = table_at(eq_hypercube(point), challenges, n as int, i);
            prover.lemma_claims(point, i);
            assert(crate::power_of_two::exp2((n - i) as nat) == 2 * m);
            assert(self.sumcheck_values[i] == round_sums(p, e, m));
            lemma_halves(p, e, m, m);
        }
        // the last claim
        let p = table_at(start, challenges, n as int, n as int);
        let e = table_at(eq_hypercube(point), challenges, n as int, n as int);
        let value = multilinear_value(prover.coefficients, challenges);
        prover.lemma_claims(point, n as int);
        prover.lemma_final_value(point, 0);
        lemma_polynomial_table(prover.coefficients, challenges, n, n as int);
        lemma_equality_table(point, challenges, n, n as int);
        lemma_bind_chain_shape(prover.coefficients, challenges, n, n - 1);
        lemma_multilinear_value(prover.coefficients, challenges);
        lemma_eq_prefix(point, challenges, n as int);
        assert(point.subrange(n as int, n as int) =~= Seq::<T>::empty());
        assert(challenges.subrange(n as int, n as int) =~= Seq::<T>::empty());
        reveal_with_fuel(dot, 2);
        let weight = eq_prefix(point, challenges, n as int);
        assert(p[0] == value);
        assert(e[0] == T::one().times(weight));
        T::lemma_commutative(T::one(), weight);
        T::lemma_neutral(weight);
        assert(weight == eq_value(point, challenges));
        T::lemma_closed(value, weight, 0);
        T::lemma_commutative(T::zero(), value.times(weight));
        T::lemma_neutral(value.times(weight));
    }

    /// Proofs that are accepted with one evaluation are rejected with
    /// any other.
    pub proof fn lemma_evaluation_is_checked(self, other: T, proofs: Seq<QueryResult<T>>)
        requires
            self.total_round >= 1,
            self.accepts(proofs),
            self.evaluation != Some(other),
        ensures
            !(VerifierView { evaluation: Some(other), ..self }).accepts(proofs),
    {
        let changed = VerifierView { evaluation: Some(other), ..self };
        assert(self.sumcheck_values[0].0.plus(self.sumcheck_values[0].1) == self.claim(0));
        if changed.accepts(proofs) {
            assert(changed.sumcheck_values[0].0.plus(changed.sumcheck_values[0].1)
                == changed.claim(0));
        }
    }

    /// Proofs that are accepted with one final value are rejected with
    /// any other, if the oracle's list holds a position.
    pub proof fn lemma_final_value_is_checked(self, other: T, proofs: Seq<QueryResult<T>>)
        requires
            self.total_round >= 1,
            self.oracle.query_list@.len() >= 1,
            self.accepts(proofs),
            self.final_value != Some(other),
        ensures
            !(VerifierView { final_value: Some(other), ..self }).accepts(proofs),
    {
        let changed = VerifierView { final_value: Some(other), ..self };
        let last = self.total_round - 1;
        crate::folding::lemma_round_indices_nonempty(
            self.cosets,
            self.oracle.query_list@,
            last as nat,
        );
        let index = self.indices(last)[0];
        assert(self.round_ok(last, proofs));
        assert(self.index_ok(last, index, proofs));
        if changed.accepts(proofs) {
            assert(changed.round_ok(last, proofs));
            assert(changed.indices(last) == self.indices(last));
            assert(changed.index_ok(last, index, proofs));
        }
    }

    /// Proofs that are accepted with the sums of a round are rejected
    /// when the round's sum at zero, or its sum at one, is another
    /// canonical value.
    pub proof fn lemma_sums_are_checked(self, i: int, other: (T, T, T), proofs: Seq<QueryResult<T>>)
        requires
            0 <= i < self.total_round,
            self.accepts(proofs),
            self.sumcheck_values[i].0.canonical(),
            self.sumcheck_values[i].1.canonical(),
            other.0.canonical(),
            other.1.canonical(),
            (other.0 != self.sumcheck_values[i].0 && other.1 == self.sumcheck_values[i].1) || (
            other.0 == self.sumcheck_values[i].0 && other.1 != self.sumcheck_values[i].1),
        ensures
            !(VerifierView { sumcheck_values: self.sumcheck_values.update(i, other), ..self })
                .accepts(proofs),
    {
        let changed = VerifierView {
            sumcheck_values: self.sumcheck_values.update(i, other),
            ..self
        };
        let sums = self.sumcheck_values[i];
        assert(sums.0.plus(sums.1) == self.claim(i));
        if changed.accepts(proofs) {
            assert(changed.sumcheck_values[i] == other);
            assert(other.0.plus(other.1) == changed.claim(i));
            assert(changed.claim(i) == self.claim(i)) by {
                if i > 0 {
                    assert(changed.sumcheck_values[i - 1] == self.sumcheck_values[i - 1]);
                }
            }
            T::lemma_minus_plus(sums.0, sums.1);
            T::lemma_minus_plus(other.0, other.1);
            T::lemma_commutative(sums.0, sums.1);
            T::lemma_commutative(other.0, other.1);
            T::lemma_minus_plus(sums.1, sums.0);
            T::lemma_minus_plus(other.1, other.0);
        }
    }

    /// Proofs that are accepted under one root of a folded layer are
    /// rejected under any other, if the oracle's list holds a position.
    pub proof fn lemma_folding_root_is_checked(
        self,
        i: int,
        other: MerkleTreeVerifier,
        proofs: Seq<QueryResult<T>>,
    )
        requires
            0 <= i < self.total_round - 1,
            self.oracle.query_list@.len() >= 1,
            self.accepts(proofs),
            other.merkle_root@ != self.folding_roots[i].merkle_root@,
        ensures
            !(VerifierView { folding_roots: self.folding_roots.update(i, other), ..self }).accepts(
                proofs,
            ),
    {
        let changed = VerifierView { folding_roots: self.folding_roots.update(i, other), ..self };
        crate::folding::lemma_round_indices_nonempty(
            self.cosets,
            self.oracle.query_list@,
            (i + 1) as nat,
        );
        assert(self.round_ok(i + 1, proofs));
        if changed.accepts(proofs) {
            assert(changed.round_ok(i + 1, proofs));
            assert(changed.indices(i + 1) == self.indices(i + 1));
            assert(changed.root(i + 1) == other);
        }
    }

    /// The revealed values are bound by the roots: if the verifier
    /// accepts two sets of proofs of which one proof differs in its paths
    /// or in a revealed value, then two different byte strings have the
    /// same digest.
    pub proof fn lemma_proof_is_bound(
        self,
        i: int,
        proofs: Seq<QueryResult<T>>,
        other: Seq<QueryResult<T>>,
    )
        requires
            0 <= i < self.total_round,
            self.accepts(proofs),
            self.accepts(other),
            proofs[i].differs_from(&other[i], self.indices(i), self.half(i)),
        ensures
            has_collision(),
    {
        assert(self.round_ok(i, proofs));
        assert(self.round_ok(i, other));
        proofs[i].lemma_results_bind(&other[i], self.indices(i), &self.root(i));
    }

    /// The verifier has been told what the prover holds: both use the
    /// same cosets and oracle, the verifier's roots are the commitments
    /// to the prover's layers, and its final value is the prover's.
    pub open spec fn follows(self, prover: ProverView<T>) -> bool {
        &&& self.total_round == prover.total_round
        &&& self.cosets == prover.cosets
        &&& self.oracle == prover.oracle
        &&& prover.interpolations.len() == self.total_round
        &&& commits_to(self.polynomial_root, prover.interpolations[0])
        &&& self.folding_roots.len() == self.total_round - 1
        &&& forall|i: int|
            0 <= i < self.total_round - 1 ==> commits_to(
                #[trigger] self.folding_roots[i],
                prover.interpolations[i + 1],
            )
        &&& self.final_value == prover.final_value
    }
}

impl<'a, T: Field> Prover<'a, T> {
    /// The verifier's checks of the queried positions hold of an honest
    /// prover's answers: in every round the proof opens the layer's
    /// tree, and the revealed siblings fold to the value of the next
    /// layer, or to the final value in the last round.
    pub proof fn lemma_rounds_accepted(
        &self,
        verifier: VerifierView<T>,
        point: Seq<T>,
        proofs: Seq<QueryResult<T>>,
        i: int,
    )
        requires
            self.wf(),
            self@.encodes(),
            self@.proved(point),
            verifier.wf(),
            verifier.follows(self@),
            self@.responds(proofs),
            0 <= i < self@.total_round,
        ensures
            verifier.round_ok(i, proofs),
    {
        let view = self@;
        let n = view.total_round;
        let cosets = view.cosets;
        let challenges = view.oracle.folding_challenges@;
        let indices = verifier.indices(i);
        let half = verifier.half(i);
        let layer = view.interpolations[i];
        let stored = self.interpolations@[i];
        lemma_chain_sizes(cosets, n, i);
        lemma_round_indices_bound(cosets, view.oracle.query_list@, n, i);
        assert(stored.wf());
        assert(layer == stored.value@);
        assert(answers(layer, indices, proofs[i]));
        assert(commits_to(verifier.root(i), layer)) by {
            if i > 0 {
                assert(commits_to(verifier.folding_roots[i - 1], view.interpolations[i - 1 + 1]));
            }
        }
        stored.lemma_query_opens(indices, &proofs[i], &verifier.root(i));
        let output = fold_chain(view.interpolations[0], challenges, cosets, i);
        assert(output == folded(layer, challenges[i], &cosets[i])) by {
            reveal_with_fuel(fold_chain, 2);
            assert(layer == fold_chain(view.interpolations[0], challenges, cosets, i - 1));
        }
        assert forall|k: int| 0 <= k < indices.len() implies verifier.index_ok(
            i,
            #[trigger] indices[k],
            proofs,
        ) by {
            let index = indices[k];
            assert(index < half);
            lemma_round_reveals(layer, indices, k);
            if i < n - 1 {
                let next = view.interpolations[i + 1];
                let modulus = verifier.half(i + 1);
                lemma_chain_sizes(cosets, n, i + 1);
                assert(self.interpolations@[i + 1].wf());
                assert(next == self.interpolations@[i + 1].value@);
                assert(indices.contains(index));
                assert(verifier.indices(i + 1) == reduce_indices(indices, modulus));
                assert(answers(next, verifier.indices(i + 1), proofs[i + 1]));
                lemma_lookup_next(next, indices, modulus, index, proofs[i + 1]);
                assert(next == output);
            } else {
                view.lemma_final_value(point, index as int);
            }
        }
    }
}

impl<'a, T: Field> Prover<'a, T> {
    /// Completeness: the verifier accepts the proofs of a prover that
    /// has followed the protocol for a polynomial with canonical
    /// coefficients.
    pub proof fn lemma_completeness(&self, verifier: VerifierView<T>, proofs: Seq<QueryResult<T>>)
        requires
            self.wf(),
            self@.encodes(),
            self@.proved(verifier.open_point),
            verifier.wf(),
            verifier.follows(self@),
            verifier.heard(self@),
            self@.responds(proofs),
        ensures
            verifier.accepts(proofs),
    {
        verifier.lemma_sumcheck_accepted(self@);
        assert forall|i: int| 0 <= i < verifier.total_round implies #[trigger] verifier.round_ok(
            i,
            proofs,
        ) by {
            self.lemma_rounds_accepted(verifier, verifier.open_point, proofs, i);
        }
    }
}

/// Runs the protocol between a prover for the given polynomial and a
/// verifier that opens it at `open_point`. Returns the verifier's
/// verdict, which is to accept, and the evaluation that the prover
/// sent, which is the value of the polynomial at the opening point.
pub fn prove_and_verify<'a, T: Field>(
    total_round: usize,
    cosets: &'a Vec<Coset<T>>,
    polynomial: MultilinearPolynomial<T>,
    oracle: &'a RandomOracle<T>,
    open_point: Vec<T>,
) -> (r: (bool, T))
    requires
        valid_cosets(cosets@, total_round as nat),
        oracle.folding_challenges@.len() == total_round,
        polynomial.wf(),
        polynomial.variables() == total_round,
        open_point@.len() == total_round,
    ensures
        r.0,
        r.1 == multilinear_value(polynomial.coeffs(), open_point@),
{
    let ghost coefficients = polynomial.coeffs();
    proof {
        polynomial.lemma_wf();
    }
    let mut prover = Prover::new(total_round, cosets, polynomial, oracle);
    let commit = prover.commit_polynomial();
    let mut verifier = Verifier::with_open_point(total_round, cosets, commit, oracle, open_point);
    let point = verifier.get_open_point();
    prover.send_evaluation(&mut verifier, &point);
    prover.prove(&point);
    prover.commit_foldings(&mut verifier);
    let proofs = prover.query();
    proof {
        lemma_chain_sizes(cosets@, total_round as nat, 0);
        assert(verifier@.sumcheck_values =~= prover@.sumcheck_value);
        assert forall|i: int| 0 <= i < verifier@.total_round - 1 implies commits_to(
            #[trigger] verifier@.folding_roots[i],
            prover@.interpolations[i + 1],
        ) by {
            assert(prover@.interpolations.subrange(1, total_round as int)[i]
                == prover@.interpolations[i + 1]);
        }
        assert(prover.interpolations@[0].wf());
        assert(verifier@.follows(prover@));
        prover.lemma_completeness(verifier@, proofs@);
    }
    let accepted = verifier.verify(&proofs);
    match verifier.evaluation {
        Some(evaluation) => (accepted, evaluation),
        None => (accepted, T::from_int(0)),
    }
}

} // verus!
