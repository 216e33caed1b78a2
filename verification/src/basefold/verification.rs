//! The verifier of the single-polynomial scheme.
use vstd::prelude::*;
use crate::algebra::coset::Coset;
use crate::algebra::field::{Field, FieldOps};
use crate::algebra::polynomial::{copy_of, eq_value, EqMultilinear};
use crate::folding::{
    fold_pair_sum, fold_value, lemma_reduce_indices, reduce_query_list, round_indices,
    valid_cosets,
};
use crate::merkle_tree::{MerkleTreeVerifier, MERKLE_ROOT_SIZE};
use crate::pcs::verification::{lookup, revealed_value};
use crate::query_result::QueryResult;
use crate::random_oracle::RandomOracle;

verus! {

/// The value at `rho` of the polynomial of degree at most two that takes
/// the values `s0`, `s1` and `s2` at zero, one and two: the line through
/// the first two, `s0 (1 - rho) + s1 rho`, plus the second difference
/// `s2 + s0 - 2 s1` times `rho (rho - 1) / 2`.
pub open spec fn round_polynomial<T: FieldOps>(sums: (T, T, T), rho: T) -> T {
    sums.0.times(T::one().minus(rho)).plus(sums.1.times(rho)).plus(
        sums.2.plus(sums.0).minus(sums.1.plus(sums.1)).times(
            rho.times(rho.minus(T::one())).times(T::half()),
        ),
    )
}

/// Computes `round_polynomial`.
pub fn evaluate_round_polynomial<T: Field>(sums: (T, T, T), rho: T) -> (value: T)
    ensures
        value == round_polynomial(sums, rho),
{
    let one = T::from_int(1);
    proof {
        T::lemma_embed();
    }
    let line = sums.0.mul(one.sub(rho)).add(sums.1.mul(rho));
    let bend = sums.2.add(sums.0).sub(sums.1.add(sums.1));
    line.add(bend.mul(rho.mul(rho.sub(one)).mul(T::inverse_2())))
}

/// What a verifier knows: the parameters of the protocol, the roots and
/// the sums it has received, and the values it was told.
pub struct VerifierView<T: Field> {
    pub total_round: nat,
    pub cosets: Seq<Coset<T>>,
    pub polynomial_root: MerkleTreeVerifier,
    pub folding_roots: Seq<MerkleTreeVerifier>,
    pub oracle: RandomOracle<T>,
    pub final_value: Option<T>,
    pub sumcheck_values: Seq<(T, T, T)>,
    pub open_point: Seq<T>,
    pub evaluation: Option<T>,
}

impl<T: Field> VerifierView<T> {
    /// The parameters fit together: the cosets carry `total_round`
    /// rounds, and there is an opening coordinate and a folding challenge
    /// for every round.
    pub open spec fn wf(self) -> bool {
        &&& valid_cosets(self.cosets, self.total_round)
        &&& self.open_point.len() == self.total_round
        &&& self.oracle.folding_challenges@.len() == self.total_round
    }

    /// Half the size of the coset of round `i`.
    pub open spec fn half(self, i: int) -> usize {
        (self.cosets[i].spec_size() / 2) as usize
    }

    /// The positions queried in round `i`.
    pub open spec fn indices(self, i: int) -> Seq<usize> {
        round_indices(self.cosets, self.oracle.query_list@, i as nat)
    }

    /// The sum that the sumcheck claims before round `i`: the evaluation
    /// at first, then the value of each round's polynomial at the round's
    /// challenge.
    pub open spec fn claim(self, i: int) -> T
        decreases i,
    {
        if i <= 0 {
            self.evaluation.unwrap()
        } else {
            round_polynomial(self.sumcheck_values[i - 1], self.oracle.folding_challenges@[i - 1])
        }
    }

    /// The sumcheck: in every round the values of the round's polynomial
    /// at zero and one add up to the claimed sum, and the last claim is
    /// the final value times the equality polynomial of the opening point
    /// at the challenges.
    pub open spec fn sumcheck_ok(self) -> bool {
        &&& forall|i: int|
            0 <= i < self.total_round ==> (#[trigger] self.sumcheck_values[i]).0.plus(
                self.sumcheck_values[i].1,
            ) == self.claim(i)
        &&& self.claim(self.total_round as int) == self.final_value.unwrap().times(
            eq_value(self.open_point, self.oracle.folding_challenges@),
        )
    }

    /// The root that the layer of round `i` was committed under.
    pub open spec fn root(self, i: int) -> MerkleTreeVerifier {
        if i == 0 {
            self.polynomial_root
        } else {
            self.folding_roots[i - 1]
        }
    }

    /// What the layer of round `i` must fold to at `index`: the revealed
    /// value of the next layer, or the final value in the last round.
    pub open spec fn folding_claim(self, i: int, index: usize, proofs: Seq<QueryResult<T>>) -> Option<
        T,
    > {
        if i == self.total_round - 1 {
            self.final_value
        } else {
            lookup(proofs[i + 1], index)
        }
    }

    /// The identity of round `i` at the position `index`: the revealed
    /// siblings fold, with the round's challenge, to the claimed value.
    pub open spec fn index_ok(self, i: int, index: usize, proofs: Seq<QueryResult<T>>) -> bool {
        let other = (index + self.half(i)) as usize;
        match (
            lookup(proofs[i], index),
            lookup(proofs[i], other),
            self.folding_claim(i, index, proofs),
        ) {
            (Some(x), Some(nx), Some(next)) => fold_value(
                x,
                nx,
                self.oracle.folding_challenges@[i],
                self.cosets[i].element_inv(index as nat),
            ) == next,
            _ => false,
        }
    }

    /// Everything that is checked of the queries of round `i`: the proof
    /// opens the layer's tree, which has as many leaves as half the
    /// coset, at the round's positions, and the identity holds at each.
    pub open spec fn round_ok(self, i: int, proofs: Seq<QueryResult<T>>) -> bool {
        &&& self.root(i).leave_number == self.half(i)
        &&& proofs[i].opens(self.indices(i), &self.root(i))
        &&& forall|k: int|
            0 <= k < self.indices(i).len() ==> self.index_ok(
                i,
                #[trigger] self.indices(i)[k],
                proofs,
            )
    }

    /// The verifier was told the evaluation and the final value, and it
    /// has a sum triple and a proof for every round and a root for every
    /// round but the first.
    pub open spec fn shape_ok(self, proofs: Seq<QueryResult<T>>) -> bool {
        &&& self.final_value is Some
        &&& self.evaluation is Some
        &&& self.sumcheck_values.len() == self.total_round
        &&& self.folding_roots.len() == self.total_round - 1
        &&& proofs.len() == self.total_round
    }

    /// Whether the verifier accepts the proofs.
    pub open spec fn accepts(self, proofs: Seq<QueryResult<T>>) -> bool {
        &&& self.shape_ok(proofs)
        &&& self.sumcheck_ok()
        &&& forall|i: int| 0 <= i < self.total_round ==> #[trigger] self.round_ok(i, proofs)
    }
}

/// The verifier of the single-polynomial scheme.
pub struct Verifier<'a, T: Field> {
    pub total_round: usize,
    pub interpolate_cosets: &'a Vec<Coset<T>>,
    pub polynomial_root: MerkleTreeVerifier,
    pub folding_root: Vec<MerkleTreeVerifier>,
    pub oracle: &'a RandomOracle<T>,
    pub final_value: Option<T>,
    pub sumcheck_values: Vec<(T, T, T)>,
    pub open_point: Vec<T>,
    pub evaluation: Option<T>,
}

impl<'a, T: Field> View for Verifier<'a, T> {
    type V = VerifierView<T>;

    open spec fn view(&self) -> VerifierView<T> {
        VerifierView {
            total_round: self.total_round as nat,
            cosets: self.interpolate_cosets@,
            polynomial_root: self.polynomial_root,
            folding_roots: self.folding_root@,
            oracle: *self.oracle,
            final_value: self.final_value,
            sumcheck_values: self.sumcheck_values@,
            open_point: self.open_point@,
            evaluation: self.evaluation,
        }
    }
}

impl<'a, T: Field> Verifier<'a, T> {
    /// A verifier for the committed polynomial that opens it at a random
    /// point.
    pub fn new(
        total_round: usize,
        coset: &'a Vec<Coset<T>>,
        commit: [u8; MERKLE_ROOT_SIZE],
        oracle: &'a RandomOracle<T>,
    ) -> (verifier: Self)
        requires
            valid_cosets(coset@, total_round as nat),
            oracle.folding_challenges@.len() == total_round,
        ensures
            verifier@.wf(),
            verifier@ == (VerifierView { open_point: verifier@.open_point, ..fresh(
                total_round as nat,
                coset@,
                commit,
                *oracle,
                Seq::empty(),
            ) }),
            forall|k: int|
                0 <= k < total_round ==> (#[trigger] verifier@.open_point[k]).canonical(),
    {
        let mut open_point: Vec<T> = Vec::new();
        let mut i: usize = 0;
        while i < total_round
            invariant
                0 <= i <= total_round,
                open_point@.len() == i,
                forall|k: int| 0 <= k < i ==> (#[trigger] open_point@[k]).canonical(),
            decreases total_round - i,
        {
            open_point.push(T::random_element());
            i = i + 1;
        }
        Self::with_open_point(total_round, coset, commit, oracle, open_point)
    }

    /// A verifier for the committed polynomial that opens it at
    /// `open_point`.
    pub fn with_open_point(
        total_round: usize,
        coset: &'a Vec<Coset<T>>,
        commit: [u8; MERKLE_ROOT_SIZE],
        oracle: &'a RandomOracle<T>,
        open_point: Vec<T>,
    ) -> (verifier: Self)
        requires
            valid_cosets(coset@, total_round as nat),
            oracle.folding_challenges@.len() == total_round,
            open_point@.len() == total_round,
        ensures
            verifier@ == fresh(total_round as nat, coset@, commit, *oracle, open_point@),
    {
        Verifier {
            total_round,
            interpolate_cosets: coset,
            polynomial_root: MerkleTreeVerifier::new(coset[0].size() / 2, &commit),
            folding_root: Vec::new(),
            oracle,
            final_value: None,
            sumcheck_values: Vec::new(),
            open_point,
            evaluation: None,
        }
    }

    /// The opening point.
    pub fn get_open_point(&self) -> (point: Vec<T>)
        ensures
            point@ == self@.open_point,
    {
        copy_of(&self.open_point)
    }

    /// Records the claimed value of the polynomial at the opening point.
    pub fn set_evaluation(&mut self, evaluation: T)
        ensures
            final(self)@ == (VerifierView { evaluation: Some(evaluation), ..old(self)@ }),
    {
        self.evaluation = Some(evaluation);
    }

    /// Records the root of the next folding layer.
    pub fn receive_folding_root(
        &mut self,
        leave_number: usize,
        folding_root: [u8; MERKLE_ROOT_SIZE],
    )
        ensures
            final(self)@ == (VerifierView {
                folding_roots: old(self)@.folding_roots.push(
                    MerkleTreeVerifier { merkle_root: folding_root, leave_number },
                ),
                ..old(self)@
            }),
    {
        self.folding_root.push(MerkleTreeVerifier { leave_number, merkle_root: folding_root });
    }

    /// Records the sums of the next sumcheck round.
    pub fn receive_sumcheck_value(&mut self, value: (T, T, T))
        ensures
            final(self)@ == (VerifierView {
                sumcheck_values: old(self)@.sumcheck_values.push(value),
                ..old(self)@
            }),
    {
        self.sumcheck_values.push(value);
    }

    /// Records the value that the folding ends in.
    pub fn set_final_value(&mut self, value: T)
        ensures
            final(self)@ == (VerifierView { final_value: Some(value), ..old(self)@ }),
    {
        self.final_value = Some(value);
    }

    /// Runs the sumcheck on the received sums.
    fn check_sumcheck(&self) -> (ok: bool)
        requires
            self@.wf(),
            self@.final_value is Some,
            self@.evaluation is Some,
            self@.sumcheck_values.len() == self@.total_round,
        ensures
            ok == self@.sumcheck_ok(),
    {
        let n = self.total_round;
        let (evaluation, final_value) = match (self.evaluation, self.final_value) {
            (Some(e), Some(f)) => (e, f),
            _ => {
                return false;
            },
        };
        let mut claim = evaluation;
        let mut i: usize = 0;
        while i < n
            invariant
                0 <= i <= n,
                n == self@.total_round,
                self@.wf(),
                self@.evaluation == Some(evaluation),
                self@.sumcheck_values.len() == n,
                claim == self@.claim(i as int),
                forall|r: int|
                    0 <= r < i ==> (#[trigger] self@.sumcheck_values[r]).0.plus(
                        self@.sumcheck_values[r].1,
                    ) == self@.claim(r),
            decreases n - i,
        {
            let sums = self.sumcheck_values[i];
            if !sums.0.add(sums.1).equals(&claim) {
                assert(self@.sumcheck_values[i as int].0.plus(self@.sumcheck_values[i as int].1)
                    != self@.claim(i as int));
                return false;
            }
            claim = evaluate_round_polynomial(sums, self.oracle.folding_challenges[i]);
            i = i + 1;
        }
        let eq = EqMultilinear::new(copy_of(&self.open_point));
        let weight = eq.evaluate(&self.oracle.folding_challenges);
        claim.equals(&final_value.mul(weight))
    }

    /// Checks the identity of round `i` at one position.
    fn check_index(&self, i: usize, index: usize, proofs: &Vec<QueryResult<T>>) -> (ok: bool)
        requires
            self@.wf(),
            self@.shape_ok(proofs@),
            i < self@.total_round,
            index < self@.half(i as int),
        ensures
            ok == self@.index_ok(i as int, index, proofs@),
    {
        let coset = &self.interpolate_cosets[i];
        let half = coset.size() / 2;
        let other = index + half;
        let x = match revealed_value(&proofs[i], index) {
            Some(v) => v,
            None => {
                return false;
            },
        };
        let nx = match revealed_value(&proofs[i], other) {
            Some(v) => v,
            None => {
                return false;
            },
        };
        let claimed = if i == self.total_round - 1 {
            self.final_value
        } else {
            revealed_value(&proofs[i + 1], index)
        };
        let next = match claimed {
            Some(v) => v,
            None => {
                return false;
            },
        };
        let sum = fold_pair_sum(x, nx, self.oracle.folding_challenges[i], coset.element_inv_at(index));
        sum.mul(T::inverse_2()).equals(&next)
    }

    /// Checks the queries of round `i`.
    fn check_round(&self, i: usize, leaf_indices: &Vec<usize>, proofs: &Vec<QueryResult<T>>) -> (ok:
        bool)
        requires
            self@.wf(),
            self@.shape_ok(proofs@),
            i < self@.total_round,
            leaf_indices@ == self@.indices(i as int),
            forall|k: int|
                0 <= k < leaf_indices@.len() ==> #[trigger] leaf_indices@[k] < self@.half(i as int),
        ensures
            ok == self@.round_ok(i as int, proofs@),
    {
        let half = self.interpolate_cosets[i].size() / 2;
        let root = if i == 0 {
            &self.polynomial_root
        } else {
            &self.folding_root[i - 1]
        };
        if root.leave_number != half {
            return false;
        }
        if !proofs[i].verify_merkle_tree(leaf_indices, root) {
            return false;
        }
        let mut k: usize = 0;
        while k < leaf_indices.len()
            invariant
                0 <= k <= leaf_indices.len(),
                self@.wf(),
                self@.shape_ok(proofs@),
                i < self@.total_round,
                leaf_indices@ == self@.indices(i as int),
                forall|m: int|
                    0 <= m < leaf_indices@.len() ==> #[trigger] leaf_indices@[m] < self@.half(
                        i as int,
                    ),
                forall|m: int|
                    0 <= m < k ==> self@.index_ok(
                        i as int,
                        #[trigger] self@.indices(i as int)[m],
                        proofs@,
                    ),
            decreases leaf_indices.len() - k,
        {
            if !self.check_index(i, leaf_indices[k], proofs) {
                assert(!self@.index_ok(i as int, self@.indices(i as int)[k as int], proofs@));
                return false;
            }
            k = k + 1;
        }
        true
    }

    /// Checks a prover's proofs: the sumcheck on the received sums, the
    /// Merkle opening of every layer at the queried positions, and at
    /// every queried position that the revealed siblings fold to the
    /// value of the next layer, or to the final value in the last round.
    pub fn verify(&self, folding_proofs: &Vec<QueryResult<T>>) -> (ok: bool)
        requires
            self@.wf(),
        ensures
            ok == self@.accepts(folding_proofs@),
    {
        let n = self.total_round;
        if self.final_value.is_none() || self.evaluation.is_none() {
            return false;
        }
        if self.sumcheck_values.len() != n || self.folding_root.len() != n - 1
            || folding_proofs.len() != n {
            return false;
        }
        if !self.check_sumcheck() {
            return false;
        }
        let mut leaf_indices: Vec<usize> = Vec::new();
        let mut i: usize = 0;
        while i < n
            invariant
                0 <= i <= n,
                n == self@.total_round,
                self@.wf(),
                self@.shape_ok(folding_proofs@),
                i > 0 ==> leaf_indices@ == self@.indices(i - 1),
                forall|r: int| 0 <= r < i ==> #[trigger] self@.round_ok(r, folding_proofs@),
            decreases n - i,
        {
            let half = self.interpolate_cosets[i].size() / 2;
            let ghost previous = if i == 0 {
                self.oracle.query_list@
            } else {
                leaf_indices@
            };
            leaf_indices = if i == 0 {
                reduce_query_list(&self.oracle.query_list, half)
            } else {
                reduce_query_list(&leaf_indices, half)
            };
            proof {
                lemma_reduce_indices(previous, half);
            }
            if !self.check_round(i, &leaf_indices, folding_proofs) {
                return false;
            }
            i = i + 1;
        }
        true
    }
}

/// The state of a verifier that has received nothing yet.
pub open spec fn fresh<T: Field>(
    total_round: nat,
    cosets: Seq<Coset<T>>,
    commit: [u8; MERKLE_ROOT_SIZE],
    oracle: RandomOracle<T>,
    open_point: Seq<T>,
) -> VerifierView<T> {
    VerifierView {
        total_round,
        cosets,
        polynomial_root: MerkleTreeVerifier {
            merkle_root: commit,
            leave_number: (cosets[0].spec_size() / 2) as usize,
        },
        folding_roots: Seq::empty(),
        oracle,
        final_value: None,
        sumcheck_values: Seq::empty(),
        open_point,
        evaluation: None,
    }
}

} // verus!
