//! The prover of the batched scheme.
use vstd::prelude::*;
use super::verification::{Verifier, VerifierView};
use crate::algebra::codeword::{column_of, combined, power_combined};
use crate::algebra::coset::{evaluate_at, horner, Coset};
use crate::algebra::field::Field;
use crate::algebra::polynomial::{copy_of, MultilinearPolynomial};
use crate::folding::{
    combine, couple_codewords, coupled, fold_chain, fold_codeword, folded, lemma_reduce_indices,
    linear_combination, reduce_query_list, round_indices, valid_cosets,
};
use crate::interpolation::{answers, InterpolateValue};
use crate::merkle_tree::{MerkleTreeVerifier, MERKLE_ROOT_SIZE};
use crate::query_result::QueryResult;
use crate::random_oracle::RandomOracle;

verus! {

/// The codeword that combines the given ones with the powers of `rlc`:
/// the first plus `rlc` times the second plus `rlc^2` times the third,
/// and so on.
pub open spec fn rlc_codeword<T: Field>(codewords: Seq<Seq<T>>, rlc: T, size: nat) -> Seq<T> {
    power_combined(codewords, rlc, size)
}

/// The codeword that combines the given ones with the coefficients
/// `comb`.
pub open spec fn combined_codeword<T: Field>(codewords: Seq<Seq<T>>, comb: Seq<T>, size: nat) -> Seq<
    T,
> {
    combined(codewords, comb, size)
}

/// The codewords held by a vector of layers.
pub open spec fn codewords_of<T: Field>(layers: Seq<InterpolateValue<T>>) -> Seq<Seq<T>> {
    Seq::new(layers.len(), |j: int| layers[j].value@)
}

/// What round `k` of the folding chain gives when the layers of the
/// earlier rounds are `foldings` and everything else is as in `start`.
pub open spec fn stored_output<T: Field>(start: ProverView<T>, foldings: Seq<Seq<T>>, k: int) -> Seq<
    T,
> {
    coupled(
        if k == 0 {
            start.rlc_polynomial
        } else {
            foldings[k - 1]
        },
        start.function_input(k),
        start.oracle.folding_challenges@[k],
        &start.cosets[k],
    )
}

/// Whether `root` is the commitment to the codeword `layer`: the root
/// of the tree over its sibling pairs, with the number of its leaves.
pub open spec fn commits_to<T: Field>(root: MerkleTreeVerifier, layer: Seq<T>) -> bool {
    &&& root.merkle_root@ == crate::merkle_tree::merkle_root(
        crate::interpolation::pair_leaves(layer),
    )
    &&& root.leave_number == layer.len() / 2
}

/// Whether `after` is `before` followed by the commitments to `layers`,
/// in order.
pub open spec fn extends_with<T: Field>(
    before: Seq<MerkleTreeVerifier>,
    after: Seq<MerkleTreeVerifier>,
    layers: Seq<Seq<T>>,
) -> bool {
    &&& after.len() == before.len() + layers.len()
    &&& forall|k: int| 0 <= k < before.len() ==> #[trigger] after[k] == before[k]
    &&& forall|k: int|
        before.len() <= k < after.len() ==> commits_to(
            #[trigger] after[k],
            layers[k - before.len()],
        )
}

/// In a valid chain of cosets every size is even, and each is half the
/// one before.
pub proof fn lemma_chain_sizes<T: Field>(cosets: Seq<Coset<T>>, total_round: nat, i: int)
    requires
        valid_cosets(cosets, total_round),
        0 <= i < total_round,
    ensures
        cosets[i].spec_size() % 2 == 0,
        cosets[i].spec_size() >= 2,
        cosets[i].spec_size() <= usize::MAX,
        i > 0 ==> cosets[i].spec_size() == cosets[i - 1].spec_size() / 2,
        i > 0 ==> cosets[i - 1].spec_size() == 2 * cosets[i].spec_size(),
        i > 0 ==> cosets[i].is_power(&cosets[i - 1], 2),
{
    cosets[i].lemma_wf();
    crate::power_of_two::lemma_half_is_power(cosets[i].spec_size());
    if i > 0 {
        assert(crate::folding::squares_previous(cosets, i));
        cosets[i - 1].lemma_wf();
        crate::power_of_two::lemma_half_is_power(cosets[i - 1].spec_size());
    }
}

/// What a prover holds: the parameters of the protocol, the codewords of
/// the committed polynomials, and the layers of the two chains as far
/// as they have been computed.
pub struct ProverView<T: Field> {
    pub total_round: nat,
    pub cosets: Seq<Coset<T>>,
    pub oracle: RandomOracle<T>,
    pub polynomials: Seq<Seq<T>>,
    pub rlc_polynomial: Seq<T>,
    pub combination: Option<Seq<T>>,
    pub combined_function: Option<Seq<T>>,
    pub functions: Seq<Seq<T>>,
    pub foldings: Seq<Seq<T>>,
    pub final_value: Option<T>,
}

impl<T: Field> ProverView<T> {
    /// The state of a prover that has committed to the codewords
    /// `polynomials` and done nothing else.
    pub open spec fn fresh(
        total_round: nat,
        cosets: Seq<Coset<T>>,
        oracle: RandomOracle<T>,
        polynomials: Seq<Seq<T>>,
    ) -> Self {
        ProverView {
            total_round,
            cosets,
            oracle,
            polynomials,
            rlc_polynomial: rlc_codeword(polynomials, oracle.rlc, cosets[0].spec_size()),
            combination: None,
            combined_function: None,
            functions: Seq::empty(),
            foldings: Seq::empty(),
            final_value: None,
        }
    }

    /// The layer that round `i` of the function chain folds: the
    /// combined function in the first round, later the function layer
    /// of the round before.
    pub open spec fn function_input(self, i: int) -> Seq<T> {
        if i == 0 {
            self.combined_function.unwrap()
        } else {
            self.functions[i - 1]
        }
    }

    /// The layer that round `i` of the folding chain folds: the
    /// combination of the polynomials in the first round, later the
    /// folding layer of the round before.
    pub open spec fn folding_input(self, i: int) -> Seq<T> {
        if i == 0 {
            self.rlc_polynomial
        } else {
            self.foldings[i - 1]
        }
    }

    /// What round `i` of the folding chain gives from the layers that
    /// the prover holds.
    pub open spec fn folding_output(self, i: int) -> Seq<T> {
        coupled(
            self.folding_input(i),
            self.function_input(i),
            self.oracle.folding_challenges@[i],
            &self.cosets[i],
        )
    }

    /// The value that the function chain ends in when it is folded with
    /// the coordinates of `open_point`.
    pub open spec fn evaluation(self, open_point: Seq<T>) -> T {
        fold_chain(
            self.combined_function.unwrap(),
            open_point,
            self.cosets,
            self.total_round - 1,
        )[0]
    }

    /// The function chain is complete for `open_point` and `comb`: it
    /// starts from the combination of the polynomials with `comb`, and
    /// the layer of each round is that combination folded with the
    /// coordinates of `open_point` up to the round's.
    pub open spec fn functions_committed(self, open_point: Seq<T>, comb: Seq<T>) -> bool {
        &&& self.combination == Some(comb)
        &&& self.combined_function == Some(
            combined_codeword(self.polynomials, comb, self.cosets[0].spec_size()),
        )
        &&& self.functions.len() == self.total_round - 1
        &&& forall|i: int|
            0 <= i < self.total_round - 1 ==> #[trigger] self.functions[i] == fold_chain(
                self.combined_function.unwrap(),
                open_point,
                self.cosets,
                i,
            )
    }

    /// The folding chain is complete: the layer of each round comes from
    /// the folding layer and the function layer before it with the
    /// round's challenge, and the final value is the first entry of what
    /// the last round gives.
    pub open spec fn proved(self) -> bool {
        &&& self.foldings.len() == self.total_round - 1
        &&& forall|i: int|
            0 <= i < self.total_round - 1 ==> self.foldings[i] == #[trigger] self.folding_output(i)
        &&& self.final_value == Some(self.folding_output(self.total_round - 1)[0])
    }

    /// What `query` returns: for every polynomial what its layer reveals
    /// at the positions of the first round, and for every later round
    /// what the folding layer and the function layer of the round before
    /// reveal at the round's positions.
    pub open spec fn responds(
        self,
        polynomial_proof: Seq<QueryResult<T>>,
        folding_proof: Seq<QueryResult<T>>,
        function_proof: Seq<QueryResult<T>>,
    ) -> bool {
        &&& polynomial_proof.len() == self.polynomials.len()
        &&& folding_proof.len() == self.total_round - 1
        &&& function_proof.len() == self.total_round - 1
        &&& forall|j: int|
            0 <= j < self.polynomials.len() ==> answers(
                self.polynomials[j],
                round_indices(self.cosets, self.oracle.query_list@, 0),
                #[trigger] polynomial_proof[j],
            )
        &&& forall|i: int|
            1 <= i < self.total_round ==> answers(
                self.foldings[i - 1],
                round_indices(self.cosets, self.oracle.query_list@, i as nat),
                #[trigger] folding_proof[i - 1],
            )
        &&& forall|i: int|
            1 <= i < self.total_round ==> answers(
                self.functions[i - 1],
                round_indices(self.cosets, self.oracle.query_list@, i as nat),
                #[trigger] function_proof[i - 1],
            )
    }
}

/// The prover of the batched scheme.
pub struct Prover<'a, T: Field> {
    pub total_round: usize,
    pub combination: Option<Vec<T>>,
    pub interpolate_cosets: &'a Vec<Coset<T>>,
    pub interpolate_polynomials: Vec<InterpolateValue<T>>,
    pub rlc_polynomial: Vec<T>,
    pub combined_function: Option<Vec<T>>,
    pub functions: Vec<InterpolateValue<T>>,
    pub foldings: Vec<InterpolateValue<T>>,
    pub oracle: &'a RandomOracle<T>,
    pub final_value: Option<T>,
}

impl<'a, T: Field> View for Prover<'a, T> {
    type V = ProverView<T>;

    open spec fn view(&self) -> ProverView<T> {
        ProverView {
            total_round: self.total_round as nat,
            cosets: self.interpolate_cosets@,
            oracle: *self.oracle,
            polynomials: codewords_of(self.interpolate_polynomials@),
            rlc_polynomial: self.rlc_polynomial@,
            combination: match self.combination {
                Some(c) => Some(c@),
                None => None,
            },
            combined_function: match self.combined_function {
                Some(f) => Some(f@),
                None => None,
            },
            functions: codewords_of(self.functions@),
            foldings: codewords_of(self.foldings@),
            final_value: self.final_value,
        }
    }
}

impl<'a, T: Field> Prover<'a, T> {
    /// The layers are committed codewords of the sizes that the rounds
    /// ask for, and the combination of the polynomials is the one that
    /// the oracle's scalar gives.
    pub open spec fn wf(&self) -> bool {
        let cosets = self.interpolate_cosets@;
        &&& valid_cosets(cosets, self.total_round as nat)
        &&& self.oracle.folding_challenges@.len() == self.total_round
        &&& self.interpolate_polynomials@.len() >= 1
        &&& forall|j: int|
            0 <= j < self.interpolate_polynomials@.len() ==> (
            #[trigger] self.interpolate_polynomials@[j]).wf()
                && self.interpolate_polynomials@[j].value@.len() == cosets[0].spec_size()
        &&& self.rlc_polynomial@ == rlc_codeword(
            self@.polynomials,
            self.oracle.rlc,
            cosets[0].spec_size(),
        )
        &&& match self.combined_function {
            Some(f) => f@.len() == cosets[0].spec_size(),
            None => true,
        }
        &&& self.functions@.len() <= self.total_round - 1
        &&& forall|i: int|
            0 <= i < self.functions@.len() ==> (#[trigger] self.functions@[i]).wf()
                && self.functions@[i].value@.len() == cosets[i + 1].spec_size()
        &&& self.foldings@.len() <= self.total_round - 1
        &&& forall|i: int|
            0 <= i < self.foldings@.len() ==> (#[trigger] self.foldings@[i]).wf()
                && self.foldings@[i].value@.len() == cosets[i + 1].spec_size()
    }

    /// Encodes the polynomials on the first coset, commits to each
    /// codeword and combines them with the oracle's scalar.
    pub fn new(
        total_round: usize,
        interpolate_coset: &'a Vec<Coset<T>>,
        polynomials: Vec<MultilinearPolynomial<T>>,
        oracle: &'a RandomOracle<T>,
    ) -> (prover: Self)
        requires
            valid_cosets(interpolate_coset@, total_round as nat),
            oracle.folding_challenges@.len() == total_round,
            polynomials@.len() >= 1,
        ensures
            prover.wf(),
            prover@ == ProverView::fresh(
                total_round as nat,
                interpolate_coset@,
                *oracle,
                Seq::new(
                    polynomials@.len(),
                    |j: int| interpolate_coset@[0].evaluations(polynomials@[j].coeffs()),
                ),
            ),
    {
        let coset = &interpolate_coset[0];
        let mut interpolate_polynomials: Vec<InterpolateValue<T>> = Vec::new();
        let mut j: usize = 0;
        while j < polynomials.len()
            invariant
                0 <= j <= polynomials.len(),
                coset == &interpolate_coset@[0],
                coset.wf(),
                coset.spec_size() >= 2,
                interpolate_polynomials@.len() == j,
                forall|k: int|
                    0 <= k < j ==> (#[trigger] interpolate_polynomials@[k]).wf()
                        && interpolate_polynomials@[k].value@ == coset.evaluations(
                        polynomials@[k].coeffs(),
                    ),
            decreases polynomials.len() - j,
        {
            interpolate_polynomials.push(Self::encode(coset, &polynomials[j]));
            j = j + 1;
        }
        assert(codewords_of(interpolate_polynomials@) =~= Seq::new(
            polynomials@.len(),
            |j: int| interpolate_coset@[0].evaluations(polynomials@[j].coeffs()),
        ));
        Self::from_codewords(total_round, interpolate_coset, interpolate_polynomials, oracle)
    }

    /// Encodes one polynomial on `coset` and commits to the codeword.
    pub fn encode(coset: &Coset<T>, polynomial: &MultilinearPolynomial<T>) -> (layer:
        InterpolateValue<T>)
        requires
            coset.wf(),
            coset.spec_size() >= 2,
        ensures
            layer.wf(),
            layer.value@ == coset.evaluations(polynomial.coeffs()),
    {
        let values = coset.fft(copy_of(polynomial.coefficients()));
        proof {
            coset.lemma_wf();
            crate::power_of_two::lemma_half_is_power(coset.spec_size());
        }
        InterpolateValue::new(values)
    }

    /// A prover for polynomials whose committed codewords on the first
    /// coset are at hand: combines them with the oracle's scalar.
    pub fn from_codewords(
        total_round: usize,
        interpolate_coset: &'a Vec<Coset<T>>,
        interpolate_polynomials: Vec<InterpolateValue<T>>,
        oracle: &'a RandomOracle<T>,
    ) -> (prover: Self)
        requires
            valid_cosets(interpolate_coset@, total_round as nat),
            oracle.folding_challenges@.len() == total_round,
            interpolate_polynomials@.len() >= 1,
            forall|j: int|
                0 <= j < interpolate_polynomials@.len() ==> (
                #[trigger] interpolate_polynomials@[j]).wf()
                    && interpolate_polynomials@[j].value@.len()
                    == interpolate_coset@[0].spec_size(),
        ensures
            prover.wf(),
            prover@ == ProverView::fresh(
                total_round as nat,
                interpolate_coset@,
                *oracle,
                codewords_of(interpolate_polynomials@),
            ),
    {
        let rlc_polynomial = Self::combine_with_powers(
            &interpolate_polynomials,
            oracle.rlc,
            interpolate_coset[0].size(),
        );
        let prover = Prover {
            total_round,
            combination: None,
            interpolate_cosets: interpolate_coset,
            interpolate_polynomials,
            rlc_polynomial,
            combined_function: None,
            functions: Vec::new(),
            foldings: Vec::new(),
            oracle,
            final_value: None,
        };
        assert(prover@.functions =~= Seq::empty());
        assert(prover@.foldings =~= Seq::empty());
        prover
    }

    /// Reads the values of the layers at one position.
    fn column(layers: &Vec<InterpolateValue<T>>, i: usize) -> (values: Vec<T>)
        requires
            forall|j: int| 0 <= j < layers@.len() ==> i < (#[trigger] layers@[j]).value@.len(),
        ensures
            values@ == column_of(codewords_of(layers@), i as int),
    {
        let mut values: Vec<T> = Vec::new();
        let mut j: usize = 0;
        while j < layers.len()
            invariant
                0 <= j <= layers.len(),
                forall|k: int| 0 <= k < layers@.len() ==> i < (#[trigger] layers@[k]).value@.len(),
                values@.len() == j,
                forall|k: int| 0 <= k < j ==> #[trigger] values@[k] == layers@[k].value@[i as int],
            decreases layers.len() - j,
        {
            values.push(layers[j].value[i]);
            j = j + 1;
        }
        assert(values@ =~= column_of(codewords_of(layers@), i as int));
        values
    }

    /// Combines the layers with the powers of `rlc`.
    fn combine_with_powers(layers: &Vec<InterpolateValue<T>>, rlc: T, size: usize) -> (r: Vec<T>)
        requires
            forall|j: int| 0 <= j < layers@.len() ==> (#[trigger] layers@[j]).value@.len() == size,
        ensures
            r@ == rlc_codeword(codewords_of(layers@), rlc, size as nat),
    {
        let mut r: Vec<T> = Vec::new();
        let mut i: usize = 0;
        while i < size
            invariant
                0 <= i <= size,
                forall|j: int|
                    0 <= j < layers@.len() ==> (#[trigger] layers@[j]).value@.len() == size,
                r@.len() == i,
                forall|k: int|
                    0 <= k < i ==> #[trigger] r@[k] == horner(
                        column_of(codewords_of(layers@), k),
                        rlc,
                    ),
            decreases size - i,
        {
            let values = Self::column(layers, i);
            r.push(evaluate_at(&values, rlc));
            i = i + 1;
        }
        assert(r@ =~= rlc_codeword(codewords_of(layers@), rlc, size as nat));
        r
    }

    /// Combines the layers with the coefficients `comb`.
    fn combine_with_coefficients(layers: &Vec<InterpolateValue<T>>, comb: &Vec<T>, size: usize) -> (r:
        Vec<T>)
        requires
            layers@.len() == comb@.len(),
            forall|j: int| 0 <= j < layers@.len() ==> (#[trigger] layers@[j]).value@.len() == size,
        ensures
            r@ == combined_codeword(codewords_of(layers@), comb@, size as nat),
    {
        let mut r: Vec<T> = Vec::new();
        let mut i: usize = 0;
        while i < size
            invariant
                0 <= i <= size,
                layers@.len() == comb@.len(),
                forall|j: int|
                    0 <= j < layers@.len() ==> (#[trigger] layers@[j]).value@.len() == size,
                r@.len() == i,
                forall|k: int|
                    0 <= k < i ==> #[trigger] r@[k] == combine(
                        column_of(codewords_of(layers@), k),
                        comb@,
                    ),
            decreases size - i,
        {
            let values = Self::column(layers, i);
            r.push(linear_combination(&values, comb));
            i = i + 1;
        }
        assert(r@ =~= combined_codeword(codewords_of(layers@), comb@, size as nat));
        r
    }

    /// The Merkle roots of the committed polynomials, in order.
    pub fn commit_polynomial(&self) -> (roots: Vec<[u8; MERKLE_ROOT_SIZE]>)
        requires
            self.wf(),
        ensures
            roots@.len() == self@.polynomials.len(),
            forall|j: int|
                0 <= j < roots@.len() ==> (#[trigger] roots@[j])@ == crate::merkle_tree::merkle_root(
                    crate::interpolation::pair_leaves(self@.polynomials[j]),
                ),
    {
        let mut roots: Vec<[u8; MERKLE_ROOT_SIZE]> = Vec::new();
        let mut j: usize = 0;
        while j < self.interpolate_polynomials.len()
            invariant
                0 <= j <= self.interpolate_polynomials.len(),
                self.wf(),
                roots@.len() == j,
                forall|k: int|
                    0 <= k < j ==> (#[trigger] roots@[k])@ == crate::merkle_tree::merkle_root(
                        crate::interpolation::pair_leaves(self@.polynomials[k]),
                    ),
            decreases self.interpolate_polynomials.len() - j,
        {
            roots.push(self.interpolate_polynomials[j].commit());
            j = j + 1;
        }
        roots
    }

    /// Builds the function chain for the opening point and hands its
    /// roots and its last value, the claimed evaluation, to the verifier.
    pub fn commit_functions(
        &mut self,
        open_point: &Vec<T>,
        verifier: &mut Verifier<'a, T>,
        combination: &Vec<T>,
    )
        requires
            old(self).wf(),
            old(self)@.functions.len() == 0,
            open_point@.len() >= old(self)@.total_round,
            combination@.len() == old(self)@.polynomials.len(),
        ensures
            final(self).wf(),
            final(self)@ == (ProverView {
                combination: final(self)@.combination,
                combined_function: final(self)@.combined_function,
                functions: final(self)@.functions,
                ..old(self)@
            }),
            final(self)@.functions_committed(open_point@, combination@),
            final(verifier)@ == (VerifierView {
                function_roots: final(verifier)@.function_roots,
                evaluation: Some(final(self)@.evaluation(open_point@)),
                ..old(verifier)@
            }),
            extends_with(
                old(verifier)@.function_roots,
                final(verifier)@.function_roots,
                final(self)@.functions,
            ),
    {
        let n = self.total_round;
        let cosets = self.interpolate_cosets;
        let combined = Self::combine_with_coefficients(
            &self.interpolate_polynomials,
            combination,
            cosets[0].size(),
        );
        let mut functions: Vec<InterpolateValue<T>> = Vec::new();
        let mut evaluation = T::from_int(0);
        let mut round: usize = 0;
        while round < n
            invariant
                0 <= round <= n,
                n == self.total_round,
                cosets == self.interpolate_cosets,
                valid_cosets(cosets@, n as nat),
                open_point@.len() >= n,
                combined@.len() == cosets@[0].spec_size(),
                functions@.len() == if round < n {
                    round as int
                } else {
                    n - 1
                },
                forall|i: int|
                    0 <= i < functions@.len() ==> (#[trigger] functions@[i]).wf()
                        && functions@[i].value@.len() == cosets@[i + 1].spec_size(),
                forall|i: int|
                    0 <= i < functions@.len() ==> (#[trigger] functions@[i]).value@ == fold_chain(
                        combined@,
                        open_point@,
                        cosets@,
                        i,
                    ),
                round == n ==> evaluation == fold_chain(combined@, open_point@, cosets@, n - 1)[0],
            decreases n - round,
        {
            proof {
                lemma_chain_sizes(cosets@, n as nat, round as int);
                reveal_with_fuel(fold_chain, 2);
            }
            let next = if round == 0 {
                Self::fold(&combined, open_point[round], &cosets[round])
            } else {
                Self::fold(&functions[round - 1].value, open_point[round], &cosets[round])
            };
            assert(next@ == fold_chain(combined@, open_point@, cosets@, round as int));
            if round < n - 1 {
                proof {
                    lemma_chain_sizes(cosets@, n as nat, round + 1);
                }
                functions.push(InterpolateValue::new(next));
            } else {
                evaluation = next[0];
            }
            round = round + 1;
        }
        let mut i: usize = 0;
        while i < functions.len()
            invariant
                0 <= i <= functions.len(),
                forall|k: int| 0 <= k < functions@.len() ==> (#[trigger] functions@[k]).wf(),
                verifier@ == (VerifierView {
                    function_roots: verifier@.function_roots,
                    ..old(verifier)@
                }),
                verifier@.function_roots.len() == old(verifier)@.function_roots.len() + i,
                forall|k: int|
                    0 <= k < old(verifier)@.function_roots.len()
                        ==> #[trigger] verifier@.function_roots[k] == old(
                        verifier,
                    )@.function_roots[k],
                forall|k: int|
                    old(verifier)@.function_roots.len() <= k < verifier@.function_roots.len()
                        ==> commits_to(
                        #[trigger] verifier@.function_roots[k],
                        functions@[k - old(verifier)@.function_roots.len()].value@,
                    ),
            decreases functions.len() - i,
        {
            let function = &functions[i];
            let root = function.commit();
            verifier.set_function(function.leave_num(), &root);
            i = i + 1;
        }
        verifier.set_evaluation(evaluation);
        self.combined_function = Some(combined);
        self.combination = Some(copy_of(combination));
        self.functions = functions;
        proof {
            assert(self@.functions =~= codewords_of(functions@));
            assert forall|i: int| 0 <= i < self@.total_round - 1 implies #[trigger] self@.functions[i]
                == fold_chain(self@.combined_function.unwrap(), open_point@, self@.cosets, i) by {
                assert(functions@[i].value@ == fold_chain(combined@, open_point@, cosets@, i));
            }
            assert(self@.foldings =~= old(self)@.foldings);
            assert(self@.polynomials =~= old(self)@.polynomials);
        }
    }

    /// Hands the roots of the folding chain and its final value to the
    /// verifier.
    pub fn commit_foldings(&self, verifier: &mut Verifier<'a, T>)
        requires
            self.wf(),
            self@.foldings.len() == self@.total_round - 1,
            self@.final_value is Some,
        ensures
            final(verifier)@ == (VerifierView {
                folding_roots: final(verifier)@.folding_roots,
                final_value: self@.final_value,
                ..old(verifier)@
            }),
            extends_with(
                old(verifier)@.folding_roots,
                final(verifier)@.folding_roots,
                self@.foldings,
            ),
    {
        let mut i: usize = 0;
        while i < self.total_round - 1
            invariant
                0 <= i <= self.total_round - 1,
                self.wf(),
                self@.foldings.len() == self@.total_round - 1,
                verifier@ == (VerifierView {
                    folding_roots: verifier@.folding_roots,
                    ..old(verifier)@
                }),
                verifier@.folding_roots.len() == old(verifier)@.folding_roots.len() + i,
                forall|k: int|
                    0 <= k < old(verifier)@.folding_roots.len()
                        ==> #[trigger] verifier@.folding_roots[k] == old(verifier)@.folding_roots[k],
                forall|k: int|
                    old(verifier)@.folding_roots.len() <= k < verifier@.folding_roots.len()
                        ==> commits_to(
                        #[trigger] verifier@.folding_roots[k],
                        self.foldings@[k - old(verifier)@.folding_roots.len()].value@,
                    ),
            decreases self.total_round - 1 - i,
        {
            let interpolation = &self.foldings[i];
            verifier.receive_folding_root(interpolation.leave_num(), interpolation.commit());
            i = i + 1;
        }
        match self.final_value {
            Some(value) => verifier.set_final_value(value),
            None => {},
        }
    }

    /// The next layer of the folding chain in round `round`, from the
    /// layers that the round reads.
    fn next_layer(
        cosets: &Vec<Coset<T>>,
        rlc_polynomial: &Vec<T>,
        combined_function: &Vec<T>,
        functions: &Vec<InterpolateValue<T>>,
        foldings: &Vec<InterpolateValue<T>>,
        round: usize,
        challenge: T,
    ) -> (next: Vec<T>)
        requires
            round < cosets@.len(),
            cosets@[round as int].wf(),
            round <= functions@.len(),
            round <= foldings@.len(),
            round == 0 ==> rlc_polynomial@.len() == cosets@[0].spec_size()
                && combined_function@.len() == cosets@[0].spec_size(),
            round > 0 ==> functions@[round - 1].value@.len() == cosets@[round as int].spec_size()
                && foldings@[round - 1].value@.len() == cosets@[round as int].spec_size(),
        ensures
            next@ == coupled(
                if round == 0 {
                    rlc_polynomial@
                } else {
                    foldings@[round - 1].value@
                },
                if round == 0 {
                    combined_function@
                } else {
                    functions@[round - 1].value@
                },
                challenge,
                &cosets@[round as int],
            ),
    {
        if round == 0 {
            couple_codewords(rlc_polynomial, combined_function, challenge, &cosets[round])
        } else {
            couple_codewords(
                &foldings[round - 1].value,
                &functions[round - 1].value,
                challenge,
                &cosets[round],
            )
        }
    }

    /// The next layer of the folding chain in round `round`.
    pub fn evaluation_next_domain(&self, round: usize, challenge: T) -> (next: Vec<T>)
        requires
            self.wf(),
            round < self@.total_round,
            self@.combined_function is Some,
            round <= self@.functions.len(),
            round <= self@.foldings.len(),
        ensures
            next@ == coupled(
                self@.folding_input(round as int),
                self@.function_input(round as int),
                challenge,
                &self@.cosets[round as int],
            ),
            challenge == self@.oracle.folding_challenges@[round as int] ==> next@
                == self@.folding_output(round as int),
    {
        proof {
            lemma_chain_sizes(self.interpolate_cosets@, self.total_round as nat, round as int);
        }
        match &self.combined_function {
            Some(function) => Self::next_layer(
                self.interpolate_cosets,
                &self.rlc_polynomial,
                function,
                &self.functions,
                &self.foldings,
                round,
                challenge,
            ),
            None => Vec::new(),
        }
    }

    /// Builds the folding chain with the oracle's challenges; the last
    /// round leaves the final value.
    pub fn prove(&mut self)
        requires
            old(self).wf(),
            old(self)@.combined_function is Some,
            old(self)@.functions.len() == old(self)@.total_round - 1,
            old(self)@.foldings.len() == 0,
        ensures
            final(self).wf(),
            final(self)@ == (ProverView {
                foldings: final(self)@.foldings,
                final_value: final(self)@.final_value,
                ..old(self)@
            }),
            final(self)@.proved(),
    {
        let n = self.total_round;
        let cosets = self.interpolate_cosets;
        let ghost challenges = self.oracle.folding_challenges@;
        let ghost start = *self;
        let mut foldings: Vec<InterpolateValue<T>> = Vec::new();
        let mut final_value = T::from_int(0);
        match &self.combined_function {
            Some(combined) => {
                let mut i: usize = 0;
                while i < n
                    invariant
                        0 <= i <= n,
                        n == self.total_round,
                        self.wf(),
                        *self == start,
                        self.combined_function == Some(*combined),
                        cosets == self.interpolate_cosets,
                        challenges == self.oracle.folding_challenges@,
                        self.functions@.len() == n - 1,
                        combined@.len() == cosets@[0].spec_size(),
                        foldings@.len() == if i < n {
                            i as int
                        } else {
                            n - 1
                        },
                        forall|k: int|
                            0 <= k < foldings@.len() ==> (#[trigger] foldings@[k]).wf()
                                && foldings@[k].value@.len() == cosets@[k + 1].spec_size(),
                        forall|k: int|
                            0 <= k < foldings@.len() ==> (#[trigger] foldings@[k]).value@
                                == stored_output(start@, codewords_of(foldings@), k),
                        i == n ==> final_value == stored_output(
                            start@,
                            codewords_of(foldings@),
                            n - 1,
                        )[0],
                    decreases n - i,
                {
                    let challenge = self.oracle.folding_challenges[i];
                    let ghost before = foldings@;
                    proof {
                        lemma_chain_sizes(cosets@, n as nat, i as int);
                        if i > 0 {
                            assert(self.functions@[i - 1].wf());
                        }
                    }
                    let next = Self::next_layer(
                        cosets,
                        &self.rlc_polynomial,
                        combined,
                        &self.functions,
                        &foldings,
                        i,
                        challenge,
                    );
                    assert(next@ == stored_output(start@, codewords_of(before), i as int));
                    if i < n - 1 {
                        proof {
                            lemma_chain_sizes(cosets@, n as nat, i + 1);
                        }
                        foldings.push(InterpolateValue::new(next));
                        proof {
                            assert forall|k: int| 0 <= k < foldings@.len() implies (
                            #[trigger] foldings@[k]).value@ == stored_output(
                                start@,
                                codewords_of(foldings@),
                                k,
                            ) by {
                                assert(foldings@[k].value@ == stored_output(
                                    start@,
                                    codewords_of(before),
                                    k,
                                ));
                                if k > 0 {
                                    assert(codewords_of(before)[k - 1] == codewords_of(
                                        foldings@,
                                    )[k - 1]);
                                }
                            }
                        }
                    } else {
                        final_value = next[0];
                    }
                    i = i + 1;
                }
            },
            None => {},
        }
        self.foldings = foldings;
        self.final_value = Some(final_value);
        proof {
            assert(self@.functions =~= old(self)@.functions);
            assert(self@.polynomials =~= old(self)@.polynomials);
            assert forall|k: int| 0 <= k < self@.total_round - 1 implies self@.foldings[k]
                == #[trigger] self@.folding_output(k) by {
                assert(self.foldings@[k].value@ == stored_output(
                    start@,
                    codewords_of(self.foldings@),
                    k,
                ));
            }
        }
    }

    /// Opens every layer at the queried positions: the polynomials at the
    /// positions of the first round, and the folding and function layers
    /// of every round before the last at the positions of the round
    /// after. Returns the proofs of the polynomials, of the folding
    /// chain and of the function chain, in this order.
    pub fn query(&self) -> (proofs: (
        Vec<QueryResult<T>>,
        Vec<QueryResult<T>>,
        Vec<QueryResult<T>>,
    ))
        requires
            self.wf(),
            self@.functions.len() == self@.total_round - 1,
            self@.foldings.len() == self@.total_round - 1,
        ensures
            self@.responds(proofs.0@, proofs.1@, proofs.2@),
    {
        let n = self.total_round;
        let mut folding_res: Vec<QueryResult<T>> = Vec::new();
        let mut functions_res: Vec<QueryResult<T>> = Vec::new();
        let mut polynomial_res: Vec<QueryResult<T>> = Vec::new();
        let mut leaf_indices: Vec<usize> = Vec::new();
        let ghost list = self.oracle.query_list@;
        let ghost cosets = self.interpolate_cosets@;
        let mut i: usize = 0;
        while i < n
            invariant
                0 <= i <= n,
                n == self.total_round,
                self.wf(),
                list == self.oracle.query_list@,
                cosets == self.interpolate_cosets@,
                self@.functions.len() == n - 1,
                self@.foldings.len() == n - 1,
                i > 0 ==> leaf_indices@ == round_indices(cosets, list, (i - 1) as nat),
                i == 0 ==> polynomial_res@.len() == 0,
                i > 0 ==> polynomial_res@.len() == self@.polynomials.len(),
                i > 0 ==> forall|j: int|
                    0 <= j < self@.polynomials.len() ==> answers(
                        self@.polynomials[j],
                        round_indices(cosets, list, 0),
                        #[trigger] polynomial_res@[j],
                    ),
                folding_res@.len() == if i == 0 {
                    0
                } else {
                    i - 1
                },
                functions_res@.len() == folding_res@.len(),
                forall|r: int|
                    1 <= r < i ==> answers(
                        self@.foldings[r - 1],
                        round_indices(cosets, list, r as nat),
                        #[trigger] folding_res@[r - 1],
                    ),
                forall|r: int|
                    1 <= r < i ==> answers(
                        self@.functions[r - 1],
                        round_indices(cosets, list, r as nat),
                        #[trigger] functions_res@[r - 1],
                    ),
            decreases n - i,
        {
            let len = self.interpolate_cosets[i].size();
            let ghost previous = if i == 0 {
                list
            } else {
                leaf_indices@
            };
            leaf_indices = if i == 0 {
                reduce_query_list(&self.oracle.query_list, len / 2)
            } else {
                reduce_query_list(&leaf_indices, len / 2)
            };
            proof {
                lemma_reduce_indices(previous, (len / 2) as usize);
                lemma_chain_sizes(cosets, n as nat, i as int);
            }
            if i == 0 {
                let mut j: usize = 0;
                while j < self.interpolate_polynomials.len()
                    invariant
                        0 <= j <= self.interpolate_polynomials.len(),
                        self.wf(),
                        i == 0,
                        len == self.interpolate_cosets@[0].spec_size(),
                        polynomial_res@.len() == j,
                        forall|k: int|
                            0 <= k < leaf_indices@.len() ==> #[trigger] leaf_indices@[k] < len / 2,
                        forall|k: int|
                            0 <= k < j ==> answers(
                                self@.polynomials[k],
                                leaf_indices@,
                                #[trigger] polynomial_res@[k],
                            ),
                    decreases self.interpolate_polynomials.len() - j,
                {
                    polynomial_res.push(self.interpolate_polynomials[j].query(&leaf_indices));
                    j = j + 1;
                }
            } else {
                functions_res.push(self.functions[i - 1].query(&leaf_indices));
                folding_res.push(self.foldings[i - 1].query(&leaf_indices));
            }
            i = i + 1;
        }
        (polynomial_res, folding_res, functions_res)
    }

    /// Folds a codeword on `coset` with the given parameter: entry `i` of
    /// the result is `((v[i] + v[i + L/2]) + r * (v[i] - v[i + L/2]) *
    /// inv(i)) / 2`.
    pub fn fold(values: &Vec<T>, parameter: T, coset: &Coset<T>) -> (next: Vec<T>)
        requires
            coset.wf(),
            values@.len() / 2 <= coset.spec_size(),
        ensures
            next@ == folded(values@, parameter, coset),
    {
        fold_codeword(values, parameter, coset)
    }
}

} // verus!
