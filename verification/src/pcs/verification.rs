//! The verifier of the batched scheme.
use vstd::prelude::*;
use crate::algebra::coset::{evaluate_at, horner, Coset};
use crate::algebra::field::Field;
use crate::algebra::polynomial::copy_of;
use crate::folding::{
    combine, couple_pair, coupled_value, fold_pair_sum, fold_sum, lemma_reduce_indices,
    linear_combination, reduce_query_list, round_indices, valid_cosets,
};
use crate::merkle_tree::{MerkleTreeVerifier, MERKLE_ROOT_SIZE};
use crate::query_result::QueryResult;
use crate::random_oracle::RandomOracle;

verus! {

/// The revealed value at `index`, if there is one.
pub open spec fn lookup<T: Field>(proof: QueryResult<T>, index: usize) -> Option<T> {
    if proof.proof_values@.contains_key(index) {
        Some(proof.proof_values@[index])
    } else {
        None
    }
}

/// The values that the proofs reveal at `index`, one per proof, if each
/// of them reveals one.
pub open spec fn column<T: Field>(proofs: Seq<QueryResult<T>>, index: usize) -> Option<Seq<T>> {
    if forall|p: int| 0 <= p < proofs.len() ==> (#[trigger] proofs[p]).proof_values@.contains_key(index) {
        Some(Seq::new(proofs.len(), |p: int| proofs[p].proof_values@[index]))
    } else {
        None
    }
}

/// Reads the revealed value at `index`.
pub fn revealed_value<T: Field>(proof: &QueryResult<T>, index: usize) -> (value: Option<T>)
    ensures
        value == lookup(*proof, index),
{
    match proof.proof_values.get(&index) {
        Some(v) => Some(*v),
        None => None,
    }
}

/// Reads the values that the proofs reveal at `index`.
pub fn revealed_column<T: Field>(proofs: &Vec<QueryResult<T>>, index: usize) -> (values: Option<
    Vec<T>,
>)
    ensures
        match values {
            Some(v) => column(proofs@, index) == Some(v@),
            None => column(proofs@, index) is None,
        },
{
    let mut values: Vec<T> = Vec::new();
    let mut p: usize = 0;
    while p < proofs.len()
        invariant
            0 <= p <= proofs.len(),
            values@.len() == p,
            forall|q: int| 0 <= q < p ==> (#[trigger] proofs@[q]).proof_values@.contains_key(index),
            forall|q: int| 0 <= q < p ==> #[trigger] values@[q] == proofs@[q].proof_values@[index],
        decreases proofs.len() - p,
    {
        match revealed_value(&proofs[p], index) {
            Some(v) => {
                values.push(v);
            },
            None => {
                return None;
            },
        }
        p = p + 1;
    }
    assert(values@ =~= Seq::new(proofs@.len(), |p: int| proofs@[p].proof_values@[index]));
    Some(values)
}

/// What a verifier knows: the parameters of the protocol, the roots it
/// has received, and the values it was told.
pub struct VerifierView<T: Field> {
    pub total_round: nat,
    pub cosets: Seq<Coset<T>>,
    pub polynomial_roots: Seq<MerkleTreeVerifier>,
    pub function_roots: Seq<MerkleTreeVerifier>,
    pub folding_roots: Seq<MerkleTreeVerifier>,
    pub oracle: RandomOracle<T>,
    pub final_value: Option<T>,
    pub evaluation: Option<T>,
    pub open_point: Seq<T>,
    pub combination: Seq<T>,
}

impl<T: Field> VerifierView<T> {
    /// The parameters fit together: the cosets carry `total_round`
    /// rounds, and there is an opening coordinate and a folding challenge
    /// for every round.
    pub open spec fn wf(self) -> bool {
        &&& valid_cosets(self.cosets, self.total_round)
        &&& self.open_point.len() == self.total_round
        &&& self.oracle.folding_challenges@.len() == self.total_round
    }

    /// Half the size of the coset of round `i`.
    pub open spec fn half(self, i: int) -> usize {
        (self.cosets[i].spec_size() / 2) as usize
    }

    /// The positions queried in round `i`.
    pub open spec fn indices(self, i: int) -> Seq<usize> {
        round_indices(self.cosets, self.oracle.query_list@, i as nat)
    }

    /// The value of the folding chain at `index` as the proofs of round
    /// `i` reveal it: in the first round the combination of the
    /// polynomials' values with the powers of the oracle's scalar, later
    /// the value of the previous folding layer.
    pub open spec fn folding_at(
        self,
        i: int,
        index: usize,
        polynomial_proof: Seq<QueryResult<T>>,
        folding_proof: Seq<QueryResult<T>>,
    ) -> Option<T> {
        if i == 0 {
            match column(polynomial_proof, index) {
                Some(values) => Some(horner(values, self.oracle.rlc)),
                None => None,
            }
        } else {
            lookup(folding_proof[i - 1], index)
        }
    }

    /// The value of the function chain at `index` as the proofs of round
    /// `i` reveal it: in the first round the combination of the
    /// polynomials' values with the verifier's coefficients, later the
    /// value of the previous function layer.
    pub open spec fn function_at(
        self,
        i: int,
        index: usize,
        polynomial_proof: Seq<QueryResult<T>>,
        function_proof: Seq<QueryResult<T>>,
    ) -> Option<T> {
        if i == 0 {
            match column(polynomial_proof, index) {
                Some(values) => Some(combine(values, self.combination)),
                None => None,
            }
        } else {
            lookup(function_proof[i - 1], index)
        }
    }

    /// What the folding chain must give at `index` after round `i`: the
    /// revealed value of the next layer, or the final value after the
    /// last round.
    pub open spec fn folding_claim(self, i: int, index: usize, folding_proof: Seq<QueryResult<T>>) -> Option<
        T,
    > {
        if i == self.total_round - 1 {
            self.final_value
        } else {
            lookup(folding_proof[i], index)
        }
    }

    /// What the function chain must give at `index` after round `i`: the
    /// revealed value of the next layer, or the evaluation after the last
    /// round.
    pub open spec fn function_claim(
        self,
        i: int,
        index: usize,
        function_proof: Seq<QueryResult<T>>,
    ) -> Option<T> {
        if i == self.total_round - 1 {
            self.evaluation
        } else {
            lookup(function_proof[i], index)
        }
    }

    /// The two identities of round `i` at the position `index`: the
    /// revealed siblings of the folding chain and of the function chain
    /// give the claimed next value of the folding chain, and the siblings
    /// of the function chain fold, with the round's opening coordinate,
    /// to twice the claimed next value of the function chain. Every value
    /// that they mention is revealed.
    pub open spec fn index_ok(
        self,
        i: int,
        index: usize,
        polynomial_proof: Seq<QueryResult<T>>,
        folding_proof: Seq<QueryResult<T>>,
        function_proof: Seq<QueryResult<T>>,
    ) -> bool {
        let other = (index + self.half(i)) as usize;
        let inv = self.cosets[i].element_inv(index as nat);
        let rho = self.oracle.folding_challenges@[i];
        match (
            self.folding_at(i, index, polynomial_proof, folding_proof),
            self.folding_at(i, other, polynomial_proof, folding_proof),
            self.function_at(i, index, polynomial_proof, function_proof),
            self.function_at(i, other, polynomial_proof, function_proof),
            self.folding_claim(i, index, folding_proof),
            self.function_claim(i, index, function_proof),
        ) {
            (Some(x), Some(nx), Some(fx), Some(fnx), Some(next), Some(function_next)) => {
                &&& coupled_value(x, nx, fx, fnx, rho, inv) == next
                &&& fold_sum(fx, fnx, self.open_point[i], inv) == function_next.times(T::embed(2))
            },
            _ => false,
        }
    }

    /// The Merkle checks of round `i`: every proof of the round opens its
    /// tree at the round's positions, and every tree has as many leaves
    /// as half the round's coset.
    pub open spec fn merkle_ok(
        self,
        i: int,
        polynomial_proof: Seq<QueryResult<T>>,
        folding_proof: Seq<QueryResult<T>>,
        function_proof: Seq<QueryResult<T>>,
    ) -> bool {
        if i == 0 {
            forall|p: int|
                0 <= p < polynomial_proof.len() ==> {
                    &&& (#[trigger] self.polynomial_roots[p]).leave_number == self.half(0)
                    &&& polynomial_proof[p].opens(self.indices(0), &self.polynomial_roots[p])
                }
        } else {
            &&& self.function_roots[i - 1].leave_number == self.half(i)
            &&& self.folding_roots[i - 1].leave_number == self.half(i)
            &&& function_proof[i - 1].opens(self.indices(i), &self.function_roots[i - 1])
            &&& folding_proof[i - 1].opens(self.indices(i), &self.folding_roots[i - 1])
        }
    }

    /// Everything that is checked in round `i`.
    pub open spec fn round_ok(
        self,
        i: int,
        polynomial_proof: Seq<QueryResult<T>>,
        folding_proof: Seq<QueryResult<T>>,
        function_proof: Seq<QueryResult<T>>,
    ) -> bool {
        &&& self.merkle_ok(i, polynomial_proof, folding_proof, function_proof)
        &&& forall|k: int|
            0 <= k < self.indices(i).len() ==> self.index_ok(
                i,
                #[trigger] self.indices(i)[k],
                polynomial_proof,
                folding_proof,
                function_proof,
            )
    }

    /// The verifier was told the final value and the evaluation, and
    /// there is one proof for every root: one for each polynomial, of
    /// which there is at least one and as many as coefficients of the
    /// combination, and one function proof and one folding proof for
    /// every round but the last.
    pub open spec fn shape_ok(
        self,
        polynomial_proof: Seq<QueryResult<T>>,
        folding_proof: Seq<QueryResult<T>>,
        function_proof: Seq<QueryResult<T>>,
    ) -> bool {
        &&& self.final_value is Some
        &&& self.evaluation is Some
        &&& polynomial_proof.len() >= 1
        &&& polynomial_proof.len() == self.polynomial_roots.len()
        &&& polynomial_proof.len() == self.combination.len()
        &&& folding_proof.len() == self.total_round - 1
        &&& function_proof.len() == self.total_round - 1
        &&& self.folding_roots.len() == self.total_round - 1
        &&& self.function_roots.len() == self.total_round - 1
    }

    /// Whether the verifier accepts the proofs: they have the right
    /// shape, and every round's Merkle checks and identities hold.
    pub open spec fn accepts(
        self,
        polynomial_proof: Seq<QueryResult<T>>,
        folding_proof: Seq<QueryResult<T>>,
        function_proof: Seq<QueryResult<T>>,
    ) -> bool {
        &&& self.shape_ok(polynomial_proof, folding_proof, function_proof)
        &&& forall|i: int|
            0 <= i < self.total_round ==> #[trigger] self.round_ok(
                i,
                polynomial_proof,
                folding_proof,
                function_proof,
            )
    }
}

/// The verifier of the batched scheme.
pub struct Verifier<'a, T: Field> {
    pub total_round: usize,
    pub interpolate_cosets: &'a Vec<Coset<T>>,
    pub polynomial_roots: Vec<MerkleTreeVerifier>,
    pub function_root: Vec<MerkleTreeVerifier>,
    pub folding_root: Vec<MerkleTreeVerifier>,
    pub oracle: &'a RandomOracle<T>,
    pub final_value: Option<T>,
    pub evaluation: Option<T>,
    pub open_point: Vec<T>,
    pub combination: Vec<T>,
}

impl<'a, T: Field> View for Verifier<'a, T> {
    type V = VerifierView<T>;

    open spec fn view(&self) -> VerifierView<T> {
        VerifierView {
            total_round: self.total_round as nat,
            cosets: self.interpolate_cosets@,
            polynomial_roots: self.polynomial_roots@,
            function_roots: self.function_root@,
            folding_roots: self.folding_root@,
            oracle: *self.oracle,
            final_value: self.final_value,
            evaluation: self.evaluation,
            open_point: self.open_point@,
            combination: self.combination@,
        }
    }
}

/// The verifiers of Merkle trees of `leave_number` leaves with the given
/// roots.
pub open spec fn roots_of(commits: Seq<[u8; MERKLE_ROOT_SIZE]>, leave_number: usize) -> Seq<
    MerkleTreeVerifier,
> {
    Seq::new(
        commits.len(),
        |j: int| (MerkleTreeVerifier { merkle_root: commits[j], leave_number }),
    )
}

impl<'a, T: Field> Verifier<'a, T> {
    /// A verifier for the committed polynomials that opens them at a
    /// random point with a random combination.
    pub fn new(
        total_round: usize,
        combination_length: usize,
        coset: &'a Vec<Coset<T>>,
        commits: Vec<[u8; MERKLE_ROOT_SIZE]>,
        oracle: &'a RandomOracle<T>,
    ) -> (verifier: Self)
        requires
            valid_cosets(coset@, total_round as nat),
            oracle.folding_challenges@.len() == total_round,
        ensures
            verifier@.wf(),
            verifier@.total_round == total_round,
            verifier@.cosets == coset@,
            verifier@.oracle == *oracle,
            verifier@.polynomial_roots == roots_of(
                commits@,
                (coset@[0].spec_size() / 2) as usize,
            ),
            verifier@.function_roots.len() == 0,
            verifier@.folding_roots.len() == 0,
            verifier@.final_value is None,
            verifier@.evaluation is None,
            verifier@.open_point.len() == total_round,
            verifier@.combination.len() == combination_length,
            forall|k: int|
                0 <= k < total_round ==> (#[trigger] verifier@.open_point[k]).canonical(),
            forall|k: int|
                0 <= k < combination_length ==> (#[trigger] verifier@.combination[k]).canonical(),
    {
        let mut open_point: Vec<T> = Vec::new();
        let mut i: usize = 0;
        while i < total_round
            invariant
                0 <= i <= total_round,
                open_point@.len() == i,
                forall|k: int| 0 <= k < i ==> (#[trigger] open_point@[k]).canonical(),
            decreases total_round - i,
        {
            open_point.push(T::random_element());
            i = i + 1;
        }
        let mut combination: Vec<T> = Vec::new();
        i = 0;
        while i < combination_length
            invariant
                0 <= i <= combination_length,
                combination@.len() == i,
                forall|k: int| 0 <= k < i ==> (#[trigger] combination@[k]).canonical(),
            decreases combination_length - i,
        {
            combination.push(T::random_element());
            i = i + 1;
        }
        Self::with_open_point(total_round, coset, commits, oracle, open_point, combination)
    }

    /// A verifier for the committed polynomials that opens them at
    /// `open_point` with the coefficients `combination`.
    pub fn with_open_point(
        total_round: usize,
        coset: &'a Vec<Coset<T>>,
        commits: Vec<[u8; MERKLE_ROOT_SIZE]>,
        oracle: &'a RandomOracle<T>,
        open_point: Vec<T>,
        combination: Vec<T>,
    ) -> (verifier: Self)
        requires
            valid_cosets(coset@, total_round as nat),
            oracle.folding_challenges@.len() == total_round,
            open_point@.len() == total_round,
        ensures
            verifier@ == (VerifierView {
                total_round: total_round as nat,
                cosets: coset@,
                polynomial_roots: roots_of(commits@, (coset@[0].spec_size() / 2) as usize),
                function_roots: Seq::empty(),
                folding_roots: Seq::empty(),
                oracle: *oracle,
                final_value: None,
                evaluation: None,
                open_point: open_point@,
                combination: combination@,
            }),
    {
        let leave_number = coset[0].size() / 2;
        let mut polynomial_roots: Vec<MerkleTreeVerifier> = Vec::new();
        let mut j: usize = 0;
        while j < commits.len()
            invariant
                0 <= j <= commits.len(),
                polynomial_roots@.len() == j,
                forall|k: int|
                    0 <= k < j ==> #[trigger] polynomial_roots@[k] == (MerkleTreeVerifier {
                        merkle_root: commits@[k],
                        leave_number,
                    }),
            decreases commits.len() - j,
        {
            polynomial_roots.push(MerkleTreeVerifier::new(leave_number, &commits[j]));
            j = j + 1;
        }
        assert(polynomial_roots@ =~= roots_of(commits@, leave_number));
        Verifier {
            total_round,
            interpolate_cosets: coset,
            polynomial_roots,
            function_root: Vec::new(),
            folding_root: Vec::new(),
            oracle,
            final_value: None,
            evaluation: None,
            open_point,
            combination,
        }
    }

    /// Reads the value of the folding chain at `index` from the proofs of
    /// round `i`.
    fn folding_value(
        &self,
        i: usize,
        index: usize,
        polynomial_proof: &Vec<QueryResult<T>>,
        folding_proof: &Vec<QueryResult<T>>,
    ) -> (value: Option<T>)
        requires
            i == 0 || i - 1 < folding_proof@.len(),
        ensures
            value == self@.folding_at(i as int, index, polynomial_proof@, folding_proof@),
    {
        if i == 0 {
            match revealed_column(polynomial_proof, index) {
                Some(values) => Some(evaluate_at(&values, self.oracle.rlc)),
                None => None,
            }
        } else {
            revealed_value(&folding_proof[i - 1], index)
        }
    }

    /// Reads the value of the function chain at `index` from the proofs
    /// of round `i`.
    fn function_value(
        &self,
        i: usize,
        index: usize,
        polynomial_proof: &Vec<QueryResult<T>>,
        function_proof: &Vec<QueryResult<T>>,
    ) -> (value: Option<T>)
        requires
            i == 0 || i - 1 < function_proof@.len(),
            polynomial_proof@.len() == self@.combination.len(),
        ensures
            value == self@.function_at(i as int, index, polynomial_proof@, function_proof@),
    {
        if i == 0 {
            match revealed_column(polynomial_proof, index) {
                Some(values) => Some(linear_combination(&values, &self.combination)),
                None => None,
            }
        } else {
            revealed_value(&function_proof[i - 1], index)
        }
    }

    /// Checks the two identities of round `i` at one position.
    fn check_index(
        &self,
        i: usize,
        index: usize,
        polynomial_proof: &Vec<QueryResult<T>>,
        folding_proof: &Vec<QueryResult<T>>,
        function_proof: &Vec<QueryResult<T>>,
    ) -> (ok: bool)
        requires
            self@.wf(),
            self@.shape_ok(polynomial_proof@, folding_proof@, function_proof@),
            i < self@.total_round,
            index < self@.half(i as int),
        ensures
            ok == self@.index_ok(
                i as int,
                index,
                polynomial_proof@,
                folding_proof@,
                function_proof@,
            ),
    {
        let coset = &self.interpolate_cosets[i];
        let half = coset.size() / 2;
        let other = index + half;
        let inv = coset.element_inv_at(index);
        let rho = self.oracle.folding_challenges[i];
        let x = match self.folding_value(i, index, polynomial_proof, folding_proof) {
            Some(v) => v,
            None => {
                return false;
            },
        };
        let nx = match self.folding_value(i, other, polynomial_proof, folding_proof) {
            Some(v) => v,
            None => {
                return false;
            },
        };
        let fx = match self.function_value(i, index, polynomial_proof, function_proof) {
            Some(v) => v,
            None => {
                return false;
            },
        };
        let fnx = match self.function_value(i, other, polynomial_proof, function_proof) {
            Some(v) => v,
            None => {
                return false;
            },
        };
        let claimed = if i == self.total_round - 1 {
            self.final_value
        } else {
            revealed_value(&folding_proof[i], index)
        };
        let next = match claimed {
            Some(v) => v,
            None => {
                return false;
            },
        };
        let function_claimed = if i == self.total_round - 1 {
            self.evaluation
        } else {
            revealed_value(&function_proof[i], index)
        };
        let function_next = match function_claimed {
            Some(v) => v,
            None => {
                return false;
            },
        };
        let chained = couple_pair(x, nx, fx, fnx, rho, inv);
        if !chained.equals(&next) {
            return false;
        }
        let folded = fold_pair_sum(fx, fnx, self.open_point[i], inv);
        folded.equals(&function_next.mul(T::from_int(2)))
    }

    /// Checks the Merkle openings of round `i`.
    fn check_merkle(
        &self,
        i: usize,
        leaf_indices: &Vec<usize>,
        polynomial_proof: &Vec<QueryResult<T>>,
        folding_proof: &Vec<QueryResult<T>>,
        function_proof: &Vec<QueryResult<T>>,
    ) -> (ok: bool)
        requires
            self@.wf(),
            self@.shape_ok(polynomial_proof@, folding_proof@, function_proof@),
            i < self@.total_round,
            leaf_indices@ == self@.indices(i as int),
        ensures
            ok == self@.merkle_ok(i as int, polynomial_proof@, folding_proof@, function_proof@),
    {
        let half = self.interpolate_cosets[i].size() / 2;
        if i == 0 {
            let mut p: usize = 0;
            while p < polynomial_proof.len()
                invariant
                    0 <= p <= polynomial_proof.len(),
                    i == 0,
                    polynomial_proof@.len() == self.polynomial_roots@.len(),
                    half == self@.half(0),
                    leaf_indices@ == self@.indices(0),
                    forall|q: int|
                        0 <= q < p ==> {
                            &&& (#[trigger] self@.polynomial_roots[q]).leave_number == half
                            &&& polynomial_proof@[q].opens(
                                self@.indices(0),
                                &self@.polynomial_roots[q],
                            )
                        },
                decreases polynomial_proof.len() - p,
            {
                let root = &self.polynomial_roots[p];
                if root.leave_number != half {
                    assert(self@.polynomial_roots[p as int].leave_number != half);
                    return false;
                }
                if !polynomial_proof[p].verify_merkle_tree(leaf_indices, root) {
                    assert(!polynomial_proof@[p as int].opens(
                        self@.indices(0),
                        &self@.polynomial_roots[p as int],
                    ));
                    return false;
                }
                p = p + 1;
            }
            true
        } else {
            let function_root = &self.function_root[i - 1];
            let folding_root = &self.folding_root[i - 1];
            function_root.leave_number == half && folding_root.leave_number == half
                && function_proof[i - 1].verify_merkle_tree(leaf_indices, function_root)
                && folding_proof[i - 1].verify_merkle_tree(leaf_indices, folding_root)
        }
    }

    /// Checks everything that belongs to round `i`.
    fn check_round(
        &self,
        i: usize,
        leaf_indices: &Vec<usize>,
        polynomial_proof: &Vec<QueryResult<T>>,
        folding_proof: &Vec<QueryResult<T>>,
        function_proof: &Vec<QueryResult<T>>,
    ) -> (ok: bool)
        requires
            self@.wf(),
            self@.shape_ok(polynomial_proof@, folding_proof@, function_proof@),
            i < self@.total_round,
            leaf_indices@ == self@.indices(i as int),
            forall|k: int|
                0 <= k < leaf_indices@.len() ==> #[trigger] leaf_indices@[k] < self@.half(i as int),
        ensures
            ok == self@.round_ok(i as int, polynomial_proof@, folding_proof@, function_proof@),
    {
        if !self.check_merkle(i, leaf_indices, polynomial_proof, folding_proof, function_proof) {
            return false;
        }
        let mut k: usize = 0;
        while k < leaf_indices.len()
            invariant
                0 <= k <= leaf_indices.len(),
                self@.wf(),
                self@.shape_ok(polynomial_proof@, folding_proof@, function_proof@),
                i < self@.total_round,
                leaf_indices@ == self@.indices(i as int),
                forall|m: int|
                    0 <= m < leaf_indices@.len() ==> #[trigger] leaf_indices@[m] < self@.half(
                        i as int,
                    ),
                forall|m: int|
                    0 <= m < k ==> self@.index_ok(
                        i as int,
                        #[trigger] self@.indices(i as int)[m],
                        polynomial_proof@,
                        folding_proof@,
                        function_proof@,
                    ),
            decreases leaf_indices.len() - k,
        {
            let index = leaf_indices[k];
            if !self.check_index(i, index, polynomial_proof, folding_proof, function_proof) {
                assert(!self@.index_ok(
                    i as int,
                    self@.indices(i as int)[k as int],
                    polynomial_proof@,
                    folding_proof@,
                    function_proof@,
                ));
                return false;
            }
            k = k + 1;
        }
        true
    }

    /// Checks the proofs of a prover: the Merkle openings of every
    /// layer at the queried positions, and at every queried position of
    /// every round the identity that ties the folding chain to the
    /// function chain and the one that folds the function chain towards
    /// the evaluation.
    pub fn verify(
        &self,
        polynomial_proof: &Vec<QueryResult<T>>,
        folding_proof: &Vec<QueryResult<T>>,
        function_proof: &Vec<QueryResult<T>>,
    ) -> (ok: bool)
        requires
            self@.wf(),
        ensures
            ok == self@.accepts(polynomial_proof@, folding_proof@, function_proof@),
    {
        let n = self.total_round;
        if self.final_value.is_none() || self.evaluation.is_none() {
            return false;
        }
        if polynomial_proof.len() == 0 || polynomial_proof.len() != self.polynomial_roots.len()
            || polynomial_proof.len() != self.combination.len() {
            return false;
        }
        if folding_proof.len() != n - 1 || function_proof.len() != n - 1 || self.folding_root.len()
            != n - 1 || self.function_root.len() != n - 1 {
            return false;
        }
        let mut leaf_indices: Vec<usize> = Vec::new();
        let mut i: usize = 0;
        while i < n
            invariant
                0 <= i <= n,
                n == self@.total_round,
                self@.wf(),
                self@.shape_ok(polynomial_proof@, folding_proof@, function_proof@),
                i > 0 ==> leaf_indices@ == self@.indices(i - 1),
                forall|r: int|
                    0 <= r < i ==> #[trigger] self@.round_ok(
                        r,
                        polynomial_proof@,
                        folding_proof@,
                        function_proof@,
                    ),
            decreases n - i,
        {
            let half = self.interpolate_cosets[i].size() / 2;
            let ghost previous = if i == 0 {
                self.oracle.query_list@
            } else {
                leaf_indices@
            };
            leaf_indices = if i == 0 {
                reduce_query_list(&self.oracle.query_list, half)
            } else {
                reduce_query_list(&leaf_indices, half)
            };
            proof {
                lemma_reduce_indices(previous, half);
            }
            if !self.check_round(i, &leaf_indices, polynomial_proof, folding_proof, function_proof) {
                return false;
            }
            i = i + 1;
        }
        true
    }

    /// The opening point and the coefficients of the combination.
    pub fn get_open_point(&self) -> (r: (Vec<T>, Vec<T>))
        ensures
            r.0@ == self@.open_point,
            r.1@ == self@.combination,
    {
        (copy_of(&self.open_point), copy_of(&self.combination))
    }

    /// Records the claimed value of the combination at the opening
    /// point.
    pub fn set_evaluation(&mut self, evaluation: T)
        ensures
            final(self)@ == (VerifierView { evaluation: Some(evaluation), ..old(self)@ }),
    {
        self.evaluation = Some(evaluation);
    }

    /// Records the root of the next function layer.
    pub fn set_function(&mut self, leave_number: usize, function_root: &[u8; MERKLE_ROOT_SIZE])
        ensures
            final(self)@ == (VerifierView {
                function_roots: old(self)@.function_roots.push(
                    MerkleTreeVerifier { merkle_root: *function_root, leave_number },
                ),
                ..old(self)@
            }),
    {
        self.function_root.push(MerkleTreeVerifier { merkle_root: *function_root, leave_number });
    }

    /// Records the root of the next folding layer.
    pub fn receive_folding_root(
        &mut self,
        leave_number: usize,
        folding_root: [u8; MERKLE_ROOT_SIZE],
    )
        ensures
            final(self)@ == (VerifierView {
                folding_roots: old(self)@.folding_roots.push(
                    MerkleTreeVerifier { merkle_root: folding_root, leave_number },
                ),
                ..old(self)@
            }),
    {
        self.folding_root.push(MerkleTreeVerifier { leave_number, merkle_root: folding_root });
    }

    /// Records the value that the folding chain ends in.
    pub fn set_final_value(&mut self, value: T)
        ensures
            final(self)@ == (VerifierView { final_value: Some(value), ..old(self)@ }),
    {
        self.final_value = Some(value);
    }
}

} // verus!
