//! What holds of the batched scheme: the evaluation that the prover
//! sends is the combination of the polynomials' values at the opening
//! point, the verifier accepts what an honest prover gives, and it
//! notices when the values or roots it was told are changed.
use vstd::prelude::*;
use super::prover::{commits_to, lemma_chain_sizes, Prover, ProverView};
use super::verification::{column, lookup, Verifier, VerifierView};
use crate::algebra::codeword::{
    all_canonical, column_of, combined, lemma_combine_values, lemma_combined_canonical,
    lemma_coupled_chain_ends, lemma_fold_chain_ends, lemma_half_double,
    lemma_multilinear_combined, lemma_power_combine_values, multilinear_values, power_combined,
    values_at, well_shaped,
};
use crate::algebra::coset::{horner, Coset};
use crate::algebra::field::Field;
use crate::algebra::polynomial::MultilinearPolynomial;
use crate::folding::{
    combine, coupled, coupled_chain, coupled_value, fold_chain, fold_sum, folded, is_residue,
    lemma_reduce_indices, reduce_indices, round_indices, strictly_increasing, valid_cosets,
};
use crate::interpolation::{answers, revealed};
use crate::merkle_tree::{has_collision, path_size, MerkleTreeVerifier};
use crate::power_of_two::exp2;
use crate::query_result::QueryResult;
use crate::random_oracle::RandomOracle;

verus! {

/// The codewords on `coset` of the polynomials with the coefficients in
/// `rows`.
pub open spec fn encoded<T: Field>(coset: &Coset<T>, rows: Seq<Seq<T>>) -> Seq<Seq<T>> {
    Seq::new(rows.len(), |j: int| coset.evaluations(rows[j]))
}

/// Combining the codewords of polynomials gives the codeword of the
/// combined polynomial, for the combination with coefficients and for
/// that with powers.
pub proof fn lemma_combined_codewords<T: Field>(
    coset: &Coset<T>,
    rows: Seq<Seq<T>>,
    comb: Seq<T>,
    r: T,
    size: nat,
)
    requires
        well_shaped(rows, size),
        comb.len() == rows.len(),
    ensures
        combined(encoded(coset, rows), comb, coset.spec_size()) == coset.evaluations(
            combined(rows, comb, size),
        ),
        power_combined(encoded(coset, rows), r, coset.spec_size()) == coset.evaluations(
            power_combined(rows, r, size),
        ),
{
    let codewords = encoded(coset, rows);
    assert forall|i: int| 0 <= i < coset.spec_size() implies combined(
        codewords,
        comb,
        coset.spec_size(),
    )[i] == coset.evaluations(combined(rows, comb, size))[i] by {
        let x = coset.element(i as nat);
        assert(column_of(codewords, i) =~= values_at(rows, x));
        lemma_combine_values(rows, comb, size, x);
    }
    assert forall|i: int| 0 <= i < coset.spec_size() implies power_combined(
        codewords,
        r,
        coset.spec_size(),
    )[i] == coset.evaluations(power_combined(rows, r, size))[i] by {
        let x = coset.element(i as nat);
        assert(column_of(codewords, i) =~= values_at(rows, x));
        lemma_power_combine_values(rows, r, size, x);
    }
    assert(combined(codewords, comb, coset.spec_size()) =~= coset.evaluations(
        combined(rows, comb, size),
    ));
    assert(power_combined(codewords, r, coset.spec_size()) =~= coset.evaluations(
        power_combined(rows, r, size),
    ));
}

impl<T: Field> ProverView<T> {
    /// The prover holds the codewords, on the first coset, of the
    /// polynomials with the coefficients in `coefficients`, which are
    /// canonical and number `2^total_round` for each polynomial; the
    /// cosets carry the rounds; and the combination by the oracle's
    /// scalar is at hand.
    pub open spec fn encodes(self, coefficients: Seq<Seq<T>>) -> bool {
        &&& valid_cosets(self.cosets, self.total_round)
        &&& well_shaped(coefficients, exp2(self.total_round))
        &&& self.polynomials == encoded(&self.cosets[0], coefficients)
        &&& self.rlc_polynomial == power_combined(
            self.polynomials,
            self.oracle.rlc,
            self.cosets[0].spec_size(),
        )
    }

    /// The evaluation that the prover sends is the combination of the
    /// values of the polynomials at the opening point.
    pub proof fn lemma_evaluation(self, coefficients: Seq<Seq<T>>, open_point: Seq<T>, comb: Seq<T>)
        requires
            self.encodes(coefficients),
            self.functions_committed(open_point, comb),
            open_point.len() == self.total_round,
            comb.len() == coefficients.len(),
        ensures
            self.evaluation(open_point) == combine(
                multilinear_values(coefficients, open_point),
                comb,
            ),
    {
        let n = self.total_round;
        let mixed = combined(coefficients, comb, exp2(n));
        lemma_combined_codewords(&self.cosets[0], coefficients, comb, self.oracle.rlc, exp2(n));
        lemma_combined_canonical(coefficients, comb, self.oracle.rlc, exp2(n));
        lemma_chain_sizes(self.cosets, n, n - 1);
        lemma_fold_chain_ends(self.cosets, mixed, open_point, n, 0);
        lemma_multilinear_combined(coefficients, comb, n, open_point);
    }

    /// What each round of the folding chain gives is the chain that
    /// starts from the combination by powers and is coupled with the
    /// function chain.
    pub proof fn lemma_folding_outputs(self, open_point: Seq<T>, comb: Seq<T>, i: int)
        requires
            self.functions_committed(open_point, comb),
            self.proved(),
            0 <= i < self.total_round,
        ensures
            self.folding_output(i) == coupled_chain(
                self.rlc_polynomial,
                self.combined_function.unwrap(),
                open_point,
                self.oracle.folding_challenges@,
                self.cosets,
                i,
            ),
            self.function_input(i) == fold_chain(
                self.combined_function.unwrap(),
                open_point,
                self.cosets,
                i - 1,
            ),
        decreases i,
    {
        reveal_with_fuel(coupled_chain, 2);
        reveal_with_fuel(fold_chain, 2);
        if i > 0 {
            self.lemma_folding_outputs(open_point, comb, i - 1);
            assert(self.foldings[i - 1] == self.folding_output(i - 1));
            assert(self.functions[i - 1] == fold_chain(
                self.combined_function.unwrap(),
                open_point,
                self.cosets,
                i - 1,
            ));
        }
    }
}

impl<T: Field> VerifierView<T> {
    /// The verifier has been told what the prover holds: both use the
    /// same cosets and oracle, the verifier's roots are the commitments
    /// to the prover's layers, its combination is the prover's, and its
    /// final value and evaluation are those that the prover's chains end
    /// in.
    pub open spec fn follows(self, prover: ProverView<T>) -> bool {
        &&& self.total_round == prover.total_round
        &&& self.cosets == prover.cosets
        &&& self.oracle == prover.oracle
        &&& prover.combination == Some(self.combination)
        &&& self.polynomial_roots.len() == prover.polynomials.len()
        &&& forall|j: int|
            0 <= j < prover.polynomials.len() ==> commits_to(
                #[trigger] self.polynomial_roots[j],
                prover.polynomials[j],
            )
        &&& self.function_roots.len() == prover.functions.len()
        &&& forall|i: int|
            0 <= i < prover.functions.len() ==> commits_to(
                #[trigger] self.function_roots[i],
                prover.functions[i],
            )
        &&& self.folding_roots.len() == prover.foldings.len()
        &&& forall|i: int|
            0 <= i < prover.foldings.len() ==> commits_to(
                #[trigger] self.folding_roots[i],
                prover.foldings[i],
            )
        &&& self.final_value == prover.final_value
        &&& self.evaluation == Some(prover.evaluation(self.open_point))
    }
}

impl<T: Field> VerifierView<T> {
    /// Proofs that are accepted with one final value are rejected with
    /// any other, if the oracle's list holds a position.
    pub proof fn lemma_final_value_is_checked(
        self,
        other: T,
        polynomial_proof: Seq<QueryResult<T>>,
        folding_proof: Seq<QueryResult<T>>,
        function_proof: Seq<QueryResult<T>>,
    )
        requires
            self.total_round >= 1,
            self.oracle.query_list@.len() >= 1,
            self.accepts(polynomial_proof, folding_proof, function_proof),
            self.final_value != Some(other),
        ensures
            !(VerifierView { final_value: Some(other), ..self }).accepts(
                polynomial_proof,
                folding_proof,
                function_proof,
            ),
    {
        let changed = VerifierView { final_value: Some(other), ..self };
        let last = self.total_round - 1;
        crate::folding::lemma_round_indices_nonempty(
            self.cosets,
            self.oracle.query_list@,
            last as nat,
        );
        let index = self.indices(last)[0];
        assert(self.round_ok(last, polynomial_proof, folding_proof, function_proof));
        assert(self.index_ok(last, index, polynomial_proof, folding_proof, function_proof));
        if changed.accepts(polynomial_proof, folding_proof, function_proof) {
            assert(changed.round_ok(last, polynomial_proof, folding_proof, function_proof));
            assert(changed.indices(last) == self.indices(last));
            assert(changed.index_ok(last, index, polynomial_proof, folding_proof, function_proof));
        }
    }

    /// Proofs that are accepted with one evaluation are rejected with
    /// any other, if the oracle's list holds a position.
    pub proof fn lemma_evaluation_is_checked(
        self,
        other: T,
        polynomial_proof: Seq<QueryResult<T>>,
        folding_proof: Seq<QueryResult<T>>,
        function_proof: Seq<QueryResult<T>>,
    )
        requires
            self.total_round >= 1,
            self.oracle.query_list@.len() >= 1,
            self.accepts(polynomial_proof, folding_proof, function_proof),
            self.evaluation is Some,
            self.evaluation.unwrap().canonical(),
            other.canonical(),
            self.evaluation != Some(other),
        ensures
            !(VerifierView { evaluation: Some(other), ..self }).accepts(
                polynomial_proof,
                folding_proof,
                function_proof,
            ),
    {
        let changed = VerifierView { evaluation: Some(other), ..self };
        let last = self.total_round - 1;
        crate::folding::lemma_round_indices_nonempty(
            self.cosets,
            self.oracle.query_list@,
            last as nat,
        );
        let index = self.indices(last)[0];
        assert(self.round_ok(last, polynomial_proof, folding_proof, function_proof));
        assert(self.index_ok(last, index, polynomial_proof, folding_proof, function_proof));
        if changed.accepts(polynomial_proof, folding_proof, function_proof) {
            assert(changed.round_ok(last, polynomial_proof, folding_proof, function_proof));
            assert(changed.indices(last) == self.indices(last));
            assert(changed.index_ok(last, index, polynomial_proof, folding_proof, function_proof));
            lemma_doubling_is_injective(self.evaluation.unwrap(), other);
        }
    }

    /// The revealed values are bound by the roots: if the verifier
    /// accepts two sets of proofs of which a folding proof differs in its
    /// paths or in a revealed value, then two different byte strings have
    /// the same digest.
    pub proof fn lemma_folding_proof_is_bound(
        self,
        i: int,
        polynomial_proof: Seq<QueryResult<T>>,
        folding_proof: Seq<QueryResult<T>>,
        other: Seq<QueryResult<T>>,
        function_proof: Seq<QueryResult<T>>,
    )
        requires
            0 <= i < self.total_round - 1,
            self.accepts(polynomial_proof, folding_proof, function_proof),
            self.accepts(polynomial_proof, other, function_proof),
            folding_proof[i].differs_from(&other[i], self.indices(i + 1), self.half(i + 1)),
        ensures
            has_collision(),
    {
        assert(self.round_ok(i + 1, polynomial_proof, folding_proof, function_proof));
        assert(self.round_ok(i + 1, polynomial_proof, other, function_proof));
        folding_proof[i].lemma_results_bind(
            &other[i],
            self.indices(i + 1),
            &self.folding_roots[i],
        );
    }

    /// The same for a function proof.
    pub proof fn lemma_function_proof_is_bound(
        self,
        i: int,
        polynomial_proof: Seq<QueryResult<T>>,
        folding_proof: Seq<QueryResult<T>>,
        function_proof: Seq<QueryResult<T>>,
        other: Seq<QueryResult<T>>,
    )
        requires
            0 <= i < self.total_round - 1,
            self.accepts(polynomial_proof, folding_proof, function_proof),
            self.accepts(polynomial_proof, folding_proof, other),
            function_proof[i].differs_from(&other[i], self.indices(i + 1), self.half(i + 1)),
        ensures
            has_collision(),
    {
        assert(self.round_ok(i + 1, polynomial_proof, folding_proof, function_proof));
        assert(self.round_ok(i + 1, polynomial_proof, folding_proof, other));
        function_proof[i].lemma_results_bind(
            &other[i],
            self.indices(i + 1),
            &self.function_roots[i],
        );
    }

    /// The same for the proof of a polynomial.
    pub proof fn lemma_polynomial_proof_is_bound(
        self,
        j: int,
        polynomial_proof: Seq<QueryResult<T>>,
        other: Seq<QueryResult<T>>,
        folding_proof: Seq<QueryResult<T>>,
        function_proof: Seq<QueryResult<T>>,
    )
        requires
            self.total_round >= 1,
            0 <= j < polynomial_proof.len(),
            self.accepts(polynomial_proof, folding_proof, function_proof),
            self.accepts(other, folding_proof, function_proof),
            polynomial_proof[j].differs_from(&other[j], self.indices(0), self.half(0)),
        ensures
            has_collision(),
    {
        assert(self.round_ok(0, polynomial_proof, folding_proof, function_proof));
        assert(self.round_ok(0, other, folding_proof, function_proof));
        assert(polynomial_proof[j].opens(self.indices(0), &self.polynomial_roots[j]));
        assert(other[j].opens(self.indices(0), &self.polynomial_roots[j]));
        polynomial_proof[j].lemma_results_bind(
            &other[j],
            self.indices(0),
            &self.polynomial_roots[j],
        );
    }

    /// Proofs that are accepted under one root of a polynomial are
    /// rejected under any other, if the oracle's list holds a position.
    pub proof fn lemma_polynomial_root_is_checked(
        self,
        j: int,
        other: MerkleTreeVerifier,
        polynomial_proof: Seq<QueryResult<T>>,
        folding_proof: Seq<QueryResult<T>>,
        function_proof: Seq<QueryResult<T>>,
    )
        requires
            self.total_round >= 1,
            0 <= j < self.polynomial_roots.len(),
            self.oracle.query_list@.len() >= 1,
            self.accepts(polynomial_proof, folding_proof, function_proof),
            other.merkle_root@ != self.polynomial_roots[j].merkle_root@,
        ensures
            !(VerifierView { polynomial_roots: self.polynomial_roots.update(j, other), ..self })
                .accepts(polynomial_proof, folding_proof, function_proof),
    {
        let changed = VerifierView {
            polynomial_roots: self.polynomial_roots.update(j, other),
            ..self
        };
        crate::folding::lemma_round_indices_nonempty(self.cosets, self.oracle.query_list@, 0);
        assert(self.round_ok(0, polynomial_proof, folding_proof, function_proof));
        assert(polynomial_proof[j].opens(self.indices(0), &self.polynomial_roots[j]));
        if changed.accepts(polynomial_proof, folding_proof, function_proof) {
            assert(changed.round_ok(0, polynomial_proof, folding_proof, function_proof));
            assert(changed.indices(0) == self.indices(0));
            assert(changed.polynomial_roots[j] == other);
            assert(polynomial_proof[j].opens(changed.indices(0), &changed.polynomial_roots[j]));
        }
    }

    /// Proofs that are accepted under one root of a function layer are
    /// rejected under any other, if the oracle's list holds a position.
    pub proof fn lemma_function_root_is_checked(
        self,
        i: int,
        other: MerkleTreeVerifier,
        polynomial_proof: Seq<QueryResult<T>>,
        folding_proof: Seq<QueryResult<T>>,
        function_proof: Seq<QueryResult<T>>,
    )
        requires
            0 <= i < self.total_round - 1,
            self.oracle.query_list@.len() >= 1,
            self.accepts(polynomial_proof, folding_proof, function_proof),
            other.merkle_root@ != self.function_roots[i].merkle_root@,
        ensures
            !(VerifierView { function_roots: self.function_roots.update(i, other), ..self })
                .accepts(polynomial_proof, folding_proof, function_proof),
    {
        let changed = VerifierView {
            function_roots: self.function_roots.update(i, other),
            ..self
        };
        crate::folding::lemma_round_indices_nonempty(
            self.cosets,
            self.oracle.query_list@,
            (i + 1) as nat,
        );
        assert(self.round_ok(i + 1, polynomial_proof, folding_proof, function_proof));
        if changed.accepts(polynomial_proof, folding_proof, function_proof) {
            assert(changed.round_ok(i + 1, polynomial_proof, folding_proof, function_proof));
            assert(changed.indices(i + 1) == self.indices(i + 1));
            assert(changed.function_roots[i + 1 - 1] == other);
        }
    }

    /// Proofs that are accepted under one root of a folding layer are
    /// rejected under any other, if the oracle's list holds a position.
    pub proof fn lemma_folding_root_is_checked(
        self,
        i: int,
        other: MerkleTreeVerifier,
        polynomial_proof: Seq<QueryResult<T>>,
        folding_proof: Seq<QueryResult<T>>,
        function_proof: Seq<QueryResult<T>>,
    )
        requires
            0 <= i < self.total_round - 1,
            self.oracle.query_list@.len() >= 1,
            self.accepts(polynomial_proof, folding_proof, function_proof),
            other.merkle_root@ != self.folding_roots[i].merkle_root@,
        ensures
            !(VerifierView { folding_roots: self.folding_roots.update(i, other), ..self }).accepts(
                polynomial_proof,
                folding_proof,
                function_proof,
            ),
    {
        let changed = VerifierView { folding_roots: self.folding_roots.update(i, other), ..self };
        crate::folding::lemma_round_indices_nonempty(
            self.cosets,
            self.oracle.query_list@,
            (i + 1) as nat,
        );
        assert(self.round_ok(i + 1, polynomial_proof, folding_proof, function_proof));
        if changed.accepts(polynomial_proof, folding_proof, function_proof) {
            assert(changed.round_ok(i + 1, polynomial_proof, folding_proof, function_proof));
            assert(changed.indices(i + 1) == self.indices(i + 1));
            assert(changed.folding_roots[i + 1 - 1] == other);
        }
    }
}

/// Doubling is injective on canonical values.
pub proof fn lemma_doubling_is_injective<T: Field>(a: T, b: T)
    requires
        a.canonical(),
        b.canonical(),
        a.times(T::embed(2)) == b.times(T::embed(2)),
    ensures
        a == b,
{
    T::lemma_embed();
    T::lemma_associative(a, T::embed(2), T::half());
    T::lemma_associative(b, T::embed(2), T::half());
    T::lemma_commutative(T::embed(2), T::half());
    T::lemma_neutral(a);
    T::lemma_neutral(b);
}

/// A position of one round is revealed by the answer to the next
/// round's positions, as itself or as a sibling.
pub proof fn lemma_next_round_reveals<T: Field>(
    layer: Seq<T>,
    previous: Seq<usize>,
    modulus: usize,
    index: usize,
)
    requires
        modulus >= 1,
        layer.len() == 2 * modulus,
        previous.contains(index),
        index < 2 * modulus,
    ensures
        revealed(layer, reduce_indices(previous, modulus)).contains_key(index),
        revealed(layer, reduce_indices(previous, modulus))[index] == layer[index as int],
{
    let next = reduce_indices(previous, modulus);
    let residue = (index % modulus) as usize;
    lemma_reduce_indices(previous, modulus);
    let k = choose|k: int| 0 <= k < previous.len() && previous[k] == index;
    assert(residue == previous[k] % modulus);
    assert(is_residue(previous, modulus, residue));
    assert(next.contains(residue));
    let m = choose|m: int| 0 <= m < next.len() && next[m] == residue;
    if index < modulus {
        vstd::arithmetic::div_mod::lemma_small_mod(index as nat, modulus as nat);
    } else {
        vstd::arithmetic::div_mod::lemma_small_mod((index - modulus) as nat, modulus as nat);
        vstd::arithmetic::div_mod::lemma_mod_multiples_vanish(1, index - modulus, modulus as int);
    }
    assert(index == next[m] || index == next[m] + layer.len() / 2);
}

/// The answer to the next round's positions tells the value of the
/// layer at a position of this round.
pub proof fn lemma_lookup_next<T: Field>(
    layer: Seq<T>,
    previous: Seq<usize>,
    modulus: usize,
    index: usize,
    result: QueryResult<T>,
)
    requires
        modulus >= 1,
        layer.len() == 2 * modulus,
        previous.contains(index),
        index < 2 * modulus,
        answers(layer, reduce_indices(previous, modulus), result),
    ensures
        lookup(result, index) == Some(layer[index as int]),
{
    lemma_next_round_reveals(layer, previous, modulus, index);
}

/// A queried position and its sibling are revealed by the answer to the
/// round's own positions.
pub proof fn lemma_round_reveals<T: Field>(layer: Seq<T>, indices: Seq<usize>, k: int)
    requires
        0 <= k < indices.len(),
        indices[k] + layer.len() / 2 < layer.len(),
        layer.len() <= usize::MAX,
    ensures
        revealed(layer, indices).contains_key(indices[k]),
        revealed(layer, indices).contains_key((indices[k] + layer.len() / 2) as usize),
        revealed(layer, indices)[indices[k]] == layer[indices[k] as int],
        revealed(layer, indices)[(indices[k] + layer.len() / 2) as usize] == layer[indices[k]
            + layer.len() / 2],
{
}

/// The positions of every round are below half the size of the round's
/// coset.
pub proof fn lemma_round_indices_bound<T: Field>(
    cosets: Seq<Coset<T>>,
    list: Seq<usize>,
    n: nat,
    i: int,
)
    requires
        valid_cosets(cosets, n),
        0 <= i < n,
    ensures
        forall|k: int|
            0 <= k < round_indices(cosets, list, i as nat).len() ==> #[trigger] round_indices(
                cosets,
                list,
                i as nat,
            )[k] < cosets[i].spec_size() / 2,
{
    let previous = if i == 0 {
        list
    } else {
        round_indices(cosets, list, (i - 1) as nat)
    };
    lemma_chain_sizes(cosets, n, i);
    lemma_reduce_indices(previous, (cosets[i].spec_size() / 2) as usize);
}

impl<'a, T: Field> Prover<'a, T> {
    /// What the prover has done and said: it holds the codewords of the
    /// polynomials with the coefficients `coefficients`, it has built
    /// both chains for the verifier's opening point and combination, the
    /// verifier has been told the roots and the two values, and the
    /// proofs are the prover's answers.
    pub open spec fn has_convinced(
        &self,
        verifier: VerifierView<T>,
        coefficients: Seq<Seq<T>>,
        polynomial_proof: Seq<QueryResult<T>>,
        folding_proof: Seq<QueryResult<T>>,
        function_proof: Seq<QueryResult<T>>,
    ) -> bool {
        &&& self.wf()
        &&& self@.encodes(coefficients)
        &&& self@.functions_committed(verifier.open_point, verifier.combination)
        &&& self@.proved()
        &&& verifier.wf()
        &&& verifier.follows(self@)
        &&& verifier.combination.len() == coefficients.len()
        &&& self@.responds(polynomial_proof, folding_proof, function_proof)
    }

    /// The sizes of the layers that round `i` reads, and the positions
    /// that it queries.
    proof fn lemma_round_shape(&self, i: int)
        requires
            self.wf(),
            self@.combined_function is Some,
            self@.functions.len() == self@.total_round - 1,
            self@.foldings.len() == self@.total_round - 1,
            0 <= i < self@.total_round,
        ensures
            self@.folding_input(i).len() == self@.cosets[i].spec_size(),
            self@.function_input(i).len() == self@.cosets[i].spec_size(),
            self@.cosets[i].spec_size() % 2 == 0,
            2 <= self@.cosets[i].spec_size() <= usize::MAX,
            i > 0 ==> self@.functions[i - 1] == self.functions@[i - 1].value@,
            i > 0 ==> self@.foldings[i - 1] == self.foldings@[i - 1].value@,
            i < self@.total_round - 1 ==> self@.functions[i].len() == self@.cosets[i].spec_size()
                / 2,
            i < self@.total_round - 1 ==> self@.foldings[i].len() == self@.cosets[i].spec_size()
                / 2,
    {
        lemma_chain_sizes(self@.cosets, self@.total_round, i);
        if i > 0 {
            assert(self.functions@[i - 1].wf());
            assert(self.foldings@[i - 1].wf());
        }
        if i < self@.total_round - 1 {
            lemma_chain_sizes(self@.cosets, self@.total_round, i + 1);
            assert(self.functions@[i].wf());
            assert(self.foldings@[i].wf());
        }
    }

    /// The proofs of round `i` reveal the chains' values at a queried
    /// position and at its sibling.
    proof fn lemma_values_revealed(
        &self,
        verifier: VerifierView<T>,
        coefficients: Seq<Seq<T>>,
        polynomial_proof: Seq<QueryResult<T>>,
        folding_proof: Seq<QueryResult<T>>,
        function_proof: Seq<QueryResult<T>>,
        i: int,
        k: int,
        sibling: bool,
    )
        requires
            self.has_convinced(
                verifier,
                coefficients,
                polynomial_proof,
                folding_proof,
                function_proof,
            ),
            0 <= i < self@.total_round,
            0 <= k < verifier.indices(i).len(),
        ensures
            ({
                let index = if sibling {
                    (verifier.indices(i)[k] + verifier.half(i)) as usize
                } else {
                    verifier.indices(i)[k]
                };
                &&& index < self@.cosets[i].spec_size()
                &&& verifier.folding_at(i, index, polynomial_proof, folding_proof) == Some(
                    self@.folding_input(i)[index as int],
                )
                &&& verifier.function_at(i, index, polynomial_proof, function_proof) == Some(
                    self@.function_input(i)[index as int],
                )
            }),
    {
        let view = self@;
        let indices = verifier.indices(i);
        let half = verifier.half(i);
        let index = if sibling {
            (indices[k] + half) as usize
        } else {
            indices[k]
        };
        self.lemma_round_shape(i);
        lemma_round_indices_bound(view.cosets, view.oracle.query_list@, view.total_round, i);
        assert(indices[k] < half);
        if i == 0 {
            let size = view.cosets[0].spec_size();
            assert forall|p: int| 0 <= p < polynomial_proof.len() implies (
            #[trigger] polynomial_proof[p]).proof_values@.contains_key(index)
                && polynomial_proof[p].proof_values@[index] == view.polynomials[p][index as int] by {
                assert(self.interpolate_polynomials@[p].wf());
                assert(view.polynomials[p] == self.interpolate_polynomials@[p].value@);
                assert(answers(view.polynomials[p], indices, polynomial_proof[p]));
                lemma_round_reveals(view.polynomials[p], indices, k);
            }
            let values = column(polynomial_proof, index).unwrap();
            assert(values =~= column_of(view.polynomials, index as int));
            assert(view.rlc_polynomial[index as int] == horner(
                column_of(view.polynomials, index as int),
                view.oracle.rlc,
            ));
            assert(view.combined_function.unwrap()[index as int] == combine(
                column_of(view.polynomials, index as int),
                verifier.combination,
            ));
        } else {
            assert(answers(view.foldings[i - 1], indices, folding_proof[i - 1]));
            assert(answers(view.functions[i - 1], indices, function_proof[i - 1]));
            lemma_round_reveals(view.foldings[i - 1], indices, k);
            lemma_round_reveals(view.functions[i - 1], indices, k);
        }
    }

    /// What round `i` of the two chains gives at a queried position, in
    /// terms of the values that the round reads there.
    proof fn lemma_outputs(&self, open_point: Seq<T>, comb: Seq<T>, i: int, index: int)
        requires
            self.wf(),
            self@.functions_committed(open_point, comb),
            self@.proved(),
            0 <= i < self@.total_round,
            0 <= index < self@.cosets[i].spec_size() / 2,
        ensures
            ({
                let half = self@.cosets[i].spec_size() / 2;
                let g = self@.folding_input(i);
                let f = self@.function_input(i);
                let inv = self@.cosets[i].element_inv(index as nat);
                &&& self@.folding_output(i)[index] == coupled_value(
                    g[index],
                    g[index + half],
                    f[index],
                    f[index + half],
                    self@.oracle.folding_challenges@[i],
                    inv,
                )
                &&& fold_sum(f[index], f[index + half], open_point[i], inv) == fold_chain(
                    self@.combined_function.unwrap(),
                    open_point,
                    self@.cosets,
                    i,
                )[index].times(T::embed(2))
            }),
    {
        let view = self@;
        let half = view.cosets[i].spec_size() / 2;
        let f = view.function_input(i);
        let inv = view.cosets[i].element_inv(index as nat);
        let sum = fold_sum(f[index], f[index + half], open_point[i], inv);
        let function_output = fold_chain(
            view.combined_function.unwrap(),
            open_point,
            view.cosets,
            i,
        );
        self.lemma_round_shape(i);
        view.lemma_folding_outputs(open_point, comb, i);
        assert(function_output == folded(f, open_point[i], &view.cosets[i]));
        assert(function_output[index] == sum.times(T::half()));
        T::lemma_closed(
            f[index].plus(f[index + half]),
            open_point[i].times(f[index].minus(f[index + half])).times(inv),
            0,
        );
        lemma_half_double(sum);
    }

    /// In the last round both chains are constant.
    proof fn lemma_last_outputs(
        &self,
        coefficients: Seq<Seq<T>>,
        open_point: Seq<T>,
        comb: Seq<T>,
        index: int,
    )
        requires
            self.wf(),
            self@.encodes(coefficients),
            self@.functions_committed(open_point, comb),
            self@.proved(),
            comb.len() == coefficients.len(),
            open_point.len() == self@.total_round,
            0 <= index < self@.cosets[self@.total_round - 1].spec_size() / 2,
        ensures
            self@.final_value == Some(self@.folding_output(self@.total_round - 1)[index]),
            self@.evaluation(open_point) == fold_chain(
                self@.combined_function.unwrap(),
                open_point,
                self@.cosets,
                self@.total_round - 1,
            )[index],
    {
        let view = self@;
        let n = view.total_round;
        let cosets = view.cosets;
        let challenges = view.oracle.folding_challenges@;
        let mixed = combined(coefficients, comb, exp2(n));
        let powers = power_combined(coefficients, view.oracle.rlc, exp2(n));
        lemma_chain_sizes(cosets, n, n - 1);
        view.lemma_folding_outputs(open_point, comb, n - 1);
        lemma_combined_codewords(&cosets[0], coefficients, comb, view.oracle.rlc, exp2(n));
        lemma_combined_canonical(coefficients, comb, view.oracle.rlc, exp2(n));
        lemma_coupled_chain_ends(cosets, powers, mixed, open_point, challenges, n, index);
        lemma_coupled_chain_ends(cosets, powers, mixed, open_point, challenges, n, 0);
        lemma_fold_chain_ends(cosets, mixed, open_point, n, index);
        lemma_fold_chain_ends(cosets, mixed, open_point, n, 0);
    }

    /// What the verifier compares the outputs of round `i` with is what
    /// the chains give.
    proof fn lemma_claims(
        &self,
        verifier: VerifierView<T>,
        coefficients: Seq<Seq<T>>,
        polynomial_proof: Seq<QueryResult<T>>,
        folding_proof: Seq<QueryResult<T>>,
        function_proof: Seq<QueryResult<T>>,
        i: int,
        k: int,
    )
        requires
            self.has_convinced(
                verifier,
                coefficients,
                polynomial_proof,
                folding_proof,
                function_proof,
            ),
            0 <= i < self@.total_round,
            0 <= k < verifier.indices(i).len(),
        ensures
            verifier.folding_claim(i, verifier.indices(i)[k], folding_proof) == Some(
                self@.folding_output(i)[verifier.indices(i)[k] as int],
            ),
            verifier.function_claim(i, verifier.indices(i)[k], function_proof) == Some(
                fold_chain(
                    self@.combined_function.unwrap(),
                    verifier.open_point,
                    self@.cosets,
                    i,
                )[verifier.indices(i)[k] as int],
            ),
    {
        let view = self@;
        let n = view.total_round;
        let indices = verifier.indices(i);
        let index = indices[k];
        self.lemma_round_shape(i);
        lemma_round_indices_bound(view.cosets, view.oracle.query_list@, n, i);
        assert(index < verifier.half(i));
        if i < n - 1 {
            let modulus = verifier.half(i + 1);
            lemma_chain_sizes(view.cosets, n, i + 1);
            assert(indices.contains(index));
            assert(verifier.indices(i + 1) == reduce_indices(indices, modulus));
            assert(answers(view.foldings[i], verifier.indices(i + 1), folding_proof[i + 1 - 1]));
            assert(answers(view.functions[i], verifier.indices(i + 1), function_proof[i + 1 - 1]));
            lemma_lookup_next(view.foldings[i], indices, modulus, index, folding_proof[i]);
            lemma_lookup_next(view.functions[i], indices, modulus, index, function_proof[i]);
            assert(view.foldings[i] == view.folding_output(i));
        } else {
            self.lemma_last_outputs(
                coefficients,
                verifier.open_point,
                verifier.combination,
                index as int,
            );
        }
    }

    /// The identities of round `i` hold at every queried position.
    proof fn lemma_index_accepted(
        &self,
        verifier: VerifierView<T>,
        coefficients: Seq<Seq<T>>,
        polynomial_proof: Seq<QueryResult<T>>,
        folding_proof: Seq<QueryResult<T>>,
        function_proof: Seq<QueryResult<T>>,
        i: int,
        k: int,
    )
        requires
            self.has_convinced(
                verifier,
                coefficients,
                polynomial_proof,
                folding_proof,
                function_proof,
            ),
            0 <= i < self@.total_round,
            0 <= k < verifier.indices(i).len(),
        ensures
            verifier.index_ok(
                i,
                verifier.indices(i)[k],
                polynomial_proof,
                folding_proof,
                function_proof,
            ),
    {
        let index = verifier.indices(i)[k];
        self.lemma_round_shape(i);
        lemma_round_indices_bound(self@.cosets, self@.oracle.query_list@, self@.total_round, i);
        assert(index < verifier.half(i));
        self.lemma_values_revealed(
            verifier,
            coefficients,
            polynomial_proof,
            folding_proof,
            function_proof,
            i,
            k,
            false,
        );
        self.lemma_values_revealed(
            verifier,
            coefficients,
            polynomial_proof,
            folding_proof,
            function_proof,
            i,
            k,
            true,
        );
        self.lemma_outputs(verifier.open_point, verifier.combination, i, index as int);
        self.lemma_claims(
            verifier,
            coefficients,
            polynomial_proof,
            folding_proof,
            function_proof,
            i,
            k,
        );
    }

    /// The Merkle checks of round `i` hold.
    proof fn lemma_merkle_accepted(
        &self,
        verifier: VerifierView<T>,
        coefficients: Seq<Seq<T>>,
        polynomial_proof: Seq<QueryResult<T>>,
        folding_proof: Seq<QueryResult<T>>,
        function_proof: Seq<QueryResult<T>>,
        i: int,
    )
        requires
            self.has_convinced(
                verifier,
                coefficients,
                polynomial_proof,
                folding_proof,
                function_proof,
            ),
            0 <= i < self@.total_round,
        ensures
            verifier.merkle_ok(i, polynomial_proof, folding_proof, function_proof),
    {
        let view = self@;
        let indices = verifier.indices(i);
        self.lemma_round_shape(i);
        lemma_round_indices_bound(view.cosets, view.oracle.query_list@, view.total_round, i);
        if i == 0 {
            assert forall|p: int| 0 <= p < polynomial_proof.len() implies (
            #[trigger] verifier.polynomial_roots[p]).leave_number == verifier.half(0)
                && polynomial_proof[p].opens(indices, &verifier.polynomial_roots[p]) by {
                let layer = self.interpolate_polynomials@[p];
                assert(layer.wf());
                assert(view.polynomials[p] == layer.value@);
                assert(commits_to(verifier.polynomial_roots[p], view.polynomials[p]));
                assert(answers(view.polynomials[p], indices, polynomial_proof[p]));
                layer.lemma_query_opens(
                    indices,
                    &polynomial_proof[p],
                    &verifier.polynomial_roots[p],
                );
            }
        } else {
            let function = self.functions@[i - 1];
            let folding = self.foldings@[i - 1];
            assert(commits_to(verifier.function_roots[i - 1], view.functions[i - 1]));
            assert(commits_to(verifier.folding_roots[i - 1], view.foldings[i - 1]));
            assert(answers(view.functions[i - 1], indices, function_proof[i - 1]));
            assert(answers(view.foldings[i - 1], indices, folding_proof[i - 1]));
            function.lemma_query_opens(indices, &function_proof[i - 1], &verifier.function_roots[i - 1]);
            folding.lemma_query_opens(indices, &folding_proof[i - 1], &verifier.folding_roots[i - 1]);
        }
    }

    /// The positions of every round are sorted without repetition, and
    /// each proof holds, for every position of its round, a path of the
    /// size that the round's tree gives.
    pub proof fn lemma_proof_sizes(
        &self,
        polynomial_proof: Seq<QueryResult<T>>,
        folding_proof: Seq<QueryResult<T>>,
        function_proof: Seq<QueryResult<T>>,
        i: int,
    )
        requires
            self.wf(),
            self@.combined_function is Some,
            self@.functions.len() == self@.total_round - 1,
            self@.foldings.len() == self@.total_round - 1,
            self@.responds(polynomial_proof, folding_proof, function_proof),
            0 <= i < self@.total_round,
        ensures
            ({
                let indices = round_indices(self@.cosets, self@.oracle.query_list@, i as nat);
                let size = indices.len() * path_size((self@.cosets[i].spec_size() / 2) as nat);
                &&& strictly_increasing(indices)
                &&& i == 0 ==> forall|j: int|
                    0 <= j < polynomial_proof.len() ==> (
                    #[trigger] polynomial_proof[j]).proof_bytes@.len() == size
                &&& i > 0 ==> folding_proof[i - 1].proof_bytes@.len() == size
                &&& i > 0 ==> function_proof[i - 1].proof_bytes@.len() == size
            }),
    {
        let view = self@;
        let cosets = view.cosets;
        let list = view.oracle.query_list@;
        let indices = round_indices(cosets, list, i as nat);
        let previous = if i == 0 {
            list
        } else {
            round_indices(cosets, list, (i - 1) as nat)
        };
        self.lemma_round_shape(i);
        lemma_round_indices_bound(cosets, list, view.total_round, i);
        lemma_reduce_indices(previous, (cosets[i].spec_size() / 2) as usize);
        cosets[i].lemma_wf();
        if i == 0 {
            assert forall|j: int| 0 <= j < polynomial_proof.len() implies (
            #[trigger] polynomial_proof[j]).proof_bytes@.len() == indices.len() * path_size(
                (cosets[0].spec_size() / 2) as nat,
            ) by {
                let layer = self.interpolate_polynomials@[j];
                assert(layer.wf());
                assert(view.polynomials[j] == layer.value@);
                assert(answers(view.polynomials[j], indices, polynomial_proof[j]));
                layer.lemma_query_size(indices, &polynomial_proof[j]);
            }
        } else {
            let function = self.functions@[i - 1];
            let folding = self.foldings@[i - 1];
            assert(answers(view.functions[i - 1], indices, function_proof[i - 1]));
            assert(answers(view.foldings[i - 1], indices, folding_proof[i - 1]));
            function.lemma_query_size(indices, &function_proof[i - 1]);
            folding.lemma_query_size(indices, &folding_proof[i - 1]);
        }
    }

    /// Completeness: the verifier accepts the proofs of a prover that
    /// has followed the protocol for polynomials with canonical
    /// coefficients.
    pub proof fn lemma_completeness(
        &self,
        verifier: VerifierView<T>,
        coefficients: Seq<Seq<T>>,
        polynomial_proof: Seq<QueryResult<T>>,
        folding_proof: Seq<QueryResult<T>>,
        function_proof: Seq<QueryResult<T>>,
    )
        requires
            self.has_convinced(
                verifier,
                coefficients,
                polynomial_proof,
                folding_proof,
                function_proof,
            ),
        ensures
            verifier.accepts(polynomial_proof, folding_proof, function_proof),
    {
        assert forall|i: int| 0 <= i < verifier.total_round implies #[trigger] verifier.round_ok(
            i,
            polynomial_proof,
            folding_proof,
            function_proof,
        ) by {
            self.lemma_merkle_accepted(
                verifier,
                coefficients,
                polynomial_proof,
                folding_proof,
                function_proof,
                i,
            );
            assert forall|k: int| 0 <= k < verifier.indices(i).len() implies verifier.index_ok(
                i,
                #[trigger] verifier.indices(i)[k],
                polynomial_proof,
                folding_proof,
                function_proof,
            ) by {
                self.lemma_index_accepted(
                    verifier,
                    coefficients,
                    polynomial_proof,
                    folding_proof,
                    function_proof,
                    i,
                    k,
                );
            }
        }
    }
}

/// Runs the protocol between a prover for the given polynomials and a
/// verifier that opens them at `open_point` with the coefficients
/// `combination`. Returns the verifier's verdict, which is to accept,
/// and the evaluation that the prover sent, which is the combination of
/// the values of the polynomials at the opening point.
pub fn prove_and_verify<'a, T: Field>(
    total_round: usize,
    cosets: &'a Vec<Coset<T>>,
    polynomials: Vec<MultilinearPolynomial<T>>,
    oracle: &'a RandomOracle<T>,
    open_point: Vec<T>,
    combination: Vec<T>,
) -> (r: (bool, T))
    requires
        valid_cosets(cosets@, total_round as nat),
        oracle.folding_challenges@.len() == total_round,
        polynomials@.len() >= 1,
        forall|j: int|
            0 <= j < polynomials@.len() ==> (#[trigger] polynomials@[j]).wf()
                && polynomials@[j].variables() == total_round,
        open_point@.len() == total_round,
        combination@.len() == polynomials@.len(),
    ensures
        r.0,
        r.1 == combine(
            multilinear_values(
                Seq::new(polynomials@.len(), |j: int| polynomials@[j].coeffs()),
                open_point@,
            ),
            combination@,
        ),
{
    let ghost coefficients = Seq::new(polynomials@.len(), |j: int| polynomials@[j].coeffs());
    let mut prover = Prover::new(total_round, cosets, polynomials, oracle);
    let commits = prover.commit_polynomial();
    let mut verifier = Verifier::with_open_point(
        total_round,
        cosets,
        commits,
        oracle,
        open_point,
        combination,
    );
    let (z, comb) = verifier.get_open_point();
    prover.commit_functions(&z, &mut verifier, &comb);
    prover.prove();
    prover.commit_foldings(&mut verifier);
    let (polynomial_proof, folding_proof, function_proof) = prover.query();
    proof {
        assert forall|j: int| 0 <= j < coefficients.len() implies (#[trigger] coefficients[j]).len()
            == exp2(total_round as nat) && all_canonical(coefficients[j]) by {
            polynomials@[j].lemma_wf();
        }
        crate::power_of_two::lemma_exp2_increases(0, total_round as nat);
        assert(prover@.polynomials =~= encoded(&cosets@[0], coefficients));
        assert(prover@.encodes(coefficients));
        assert forall|j: int| 0 <= j < prover@.polynomials.len() implies commits_to(
            #[trigger] verifier@.polynomial_roots[j],
            prover@.polynomials[j],
        ) by {
            lemma_chain_sizes(cosets@, total_round as nat, 0);
            assert(prover.interpolate_polynomials@[j].wf());
            assert(verifier@.polynomial_roots[j].merkle_root == commits@[j]);
        }
        assert forall|i: int| 0 <= i < prover@.functions.len() implies commits_to(
            #[trigger] verifier@.function_roots[i],
            prover@.functions[i],
        ) by {}
        assert forall|i: int| 0 <= i < prover@.foldings.len() implies commits_to(
            #[trigger] verifier@.folding_roots[i],
            prover@.foldings[i],
        ) by {}
        assert(verifier@.follows(prover@));
        prover.lemma_completeness(
            verifier@,
            coefficients,
            polynomial_proof@,
            folding_proof@,
            function_proof@,
        );
        prover@.lemma_evaluation(coefficients, open_point@, combination@);
    }
    let accepted = verifier.verify(&polynomial_proof, &folding_proof, &function_proof);
    match verifier.evaluation {
        Some(evaluation) => (accepted, evaluation),
        None => (accepted, T::from_int(0)),
    }
}

} // verus!
