//! A codeword layer together with its Merkle commitment.
use vstd::prelude::*;
use std::collections::HashMap;
use crate::algebra::field::Field;
use crate::merkle_tree::{
    append_bytes, byte_strings, lemma_open_is_accepted, merkle_root, proof_bytes_from,
    MerkleTreeProver, MerkleTreeVerifier, MERKLE_ROOT_SIZE,
};
use crate::query_result::{leaf_bytes, QueryResult};

verus! {

/// The leaves of the tree over the codeword `v`: leaf `i` holds `v[i]`
/// and its sibling `v[i + v.len() / 2]`.
pub open spec fn pair_leaves<T: Field>(v: Seq<T>) -> Seq<Seq<u8>> {
    Seq::new((v.len() / 2) as nat, |i: int| leaf_bytes(v[i], v[i + v.len() / 2]))
}

/// The values that a query at `indices` reveals of the codeword `v`:
/// those at the indices and those at their siblings.
pub open spec fn revealed<T: Field>(v: Seq<T>, indices: Seq<usize>) -> Map<usize, T> {
    Map::new(
        |key: usize|
            exists|k: int|
                0 <= k < indices.len() && (key == #[trigger] indices[k] || key == indices[k] + v.len()
                    / 2),
        |key: usize| v[key as int],
    )
}

/// Whether `result` is what a layer with the codeword `v` reveals at
/// `indices`: the paths of the leaves at `indices` in the tree over the
/// sibling pairs, and the values at the indices and at their siblings.
pub open spec fn answers<T: Field>(v: Seq<T>, indices: Seq<usize>, result: QueryResult<T>) -> bool {
    &&& result.proof_bytes@ == proof_bytes_from(pair_leaves(v), indices, 0)
    &&& result.proof_values@ == revealed(v, indices)
}

/// A codeword and the Merkle tree over its sibling pairs.
pub struct InterpolateValue<T: Field> {
    pub value: Vec<T>,
    pub merkle_tree: MerkleTreeProver,
}

impl<T: Field> InterpolateValue<T> {
    /// The codeword has an even, positive length and the tree commits to
    /// its sibling pairs.
    pub closed spec fn wf(&self) -> bool {
        &&& 2 <= self.value@.len() <= usize::MAX
        &&& self.value@.len() % 2 == 0
        &&& self.merkle_tree.wf()
        &&& self.merkle_tree.leaves() == pair_leaves(self.value@)
    }

    /// The root that `commit` returns.
    pub open spec fn root(&self) -> Seq<u8> {
        merkle_root(pair_leaves(self.value@))
    }

    /// What `query` returns at `indices`.
    pub open spec fn answers(&self, indices: Seq<usize>, result: &QueryResult<T>) -> bool {
        answers(self.value@, indices, *result)
    }

    /// Commits to a codeword of even, positive length.
    pub fn new(value: Vec<T>) -> (layer: Self)
        requires
            value@.len() >= 2,
            value@.len() % 2 == 0,
        ensures
            layer.wf(),
            layer.value@ == value@,
    {
        let half = value.len() / 2;
        let mut leaves: Vec<Vec<u8>> = Vec::new();
        let mut i: usize = 0;
        while i < half
            invariant
                0 <= i <= half,
                2 * half == value.len(),
                leaves@.len() == i,
                forall|j: int|
                    0 <= j < i ==> (#[trigger] leaves@[j])@ == leaf_bytes(
                        value@[j],
                        value@[j + half],
                    ),
            decreases half - i,
        {
            let mut bytes = value[i].to_bytes();
            let tail = value[i + half].to_bytes();
            append_bytes(&mut bytes, &tail);
            leaves.push(bytes);
            i = i + 1;
        }
        assert(byte_strings(leaves@) =~= pair_leaves(value@));
        let merkle_tree = MerkleTreeProver::new(leaves);
        InterpolateValue { value, merkle_tree }
    }

    /// The number of leaves: half the length of the codeword.
    pub fn leave_num(&self) -> (n: usize)
        requires
            self.wf(),
        ensures
            n == self.value@.len() / 2,
    {
        self.merkle_tree.leave_num()
    }

    /// The Merkle root over the sibling pairs.
    pub fn commit(&self) -> (root: [u8; MERKLE_ROOT_SIZE])
        requires
            self.wf(),
        ensures
            root@ == self.root(),
    {
        self.merkle_tree.commit()
    }

    /// Reveals the sibling pairs at `leaf_indices` with their paths.
    pub fn query(&self, leaf_indices: &Vec<usize>) -> (result: QueryResult<T>)
        requires
            self.wf(),
            forall|k: int|
                0 <= k < leaf_indices@.len() ==> leaf_indices@[k] < self.value@.len() / 2,
        ensures
            self.answers(leaf_indices@, &result),
    {
        let half = self.value.len() / 2;
        let proof_bytes = self.merkle_tree.open(leaf_indices);
        let mut proof_values: HashMap<usize, T> = HashMap::new();
        let mut k: usize = 0;
        while k < leaf_indices.len()
            invariant
                0 <= k <= leaf_indices.len(),
                2 * half == self.value.len(),
                forall|j: int| 0 <= j < leaf_indices@.len() ==> leaf_indices@[j] < half,
                proof_values@ == revealed(self.value@, leaf_indices@.subrange(0, k as int)),
            decreases leaf_indices.len() - k,
        {
            let index = leaf_indices[k];
            let ghost before = proof_values@;
            proof_values.insert(index, self.value[index]);
            proof_values.insert(index + half, self.value[index + half]);
            proof {
                let shorter = leaf_indices@.subrange(0, k as int);
                let longer = leaf_indices@.subrange(0, k + 1);
                let target = revealed(self.value@, longer);
                assert forall|key: usize| target.contains_key(key) implies proof_values@.contains_key(
                    key,
                ) by {
                    let j = choose|j: int|
                        0 <= j < longer.len() && (key == #[trigger] longer[j] || key == longer[j]
                            + self.value@.len() / 2);
                    if j < k {
                        assert(shorter[j] == longer[j]);
                        assert(before.contains_key(key));
                    }
                }
                assert forall|key: usize| proof_values@.contains_key(key) implies target.contains_key(
                    key,
                ) by {
                    if before.contains_key(key) {
                        let j = choose|j: int|
                            0 <= j < shorter.len() && (key == #[trigger] shorter[j] || key
                                == shorter[j] + self.value@.len() / 2);
                        assert(shorter[j] == longer[j]);
                    } else {
                        assert(longer[k as int] == index);
                    }
                }
                assert forall|key: usize| target.contains_key(key) implies proof_values@[key]
                    == target[key] by {
                    if key != index && key != index + half {
                        assert(before.contains_key(key));
                        assert(before[key] == revealed(self.value@, shorter)[key]);
                    }
                }
                assert(proof_values@ =~= target);
            }
            k = k + 1;
        }
        assert(leaf_indices@.subrange(0, k as int) =~= leaf_indices@);
        QueryResult { proof_bytes, proof_values }
    }

    /// The paths that `query` returns for a layer of two-power length
    /// take `path_size` bytes for each position.
    pub proof fn lemma_query_size(&self, indices: Seq<usize>, result: &QueryResult<T>)
        requires
            self.wf(),
            crate::power_of_two::is_power_of_two(self.value@.len()),
            forall|k: int| 0 <= k < indices.len() ==> indices[k] < self.value@.len() / 2,
            self.answers(indices, result),
        ensures
            result.proof_bytes@.len() == indices.len() * crate::merkle_tree::path_size(
                self.value@.len() / 2,
            ),
    {
        self.merkle_tree.lemma_digest_lengths();
        crate::power_of_two::lemma_half_is_power(self.value@.len());
        crate::merkle_tree::lemma_proof_size(pair_leaves(self.value@), indices, 0);
    }

    /// What `query` reveals at positions below the number of leaves is
    /// accepted under the committed root.
    pub proof fn lemma_query_opens(
        &self,
        indices: Seq<usize>,
        result: &QueryResult<T>,
        verifier: &MerkleTreeVerifier,
    )
        requires
            self.wf(),
            forall|k: int| 0 <= k < indices.len() ==> indices[k] < self.value@.len() / 2,
            self.answers(indices, result),
            verifier.leave_number == self.value@.len() / 2,
            verifier.merkle_root@ == self.root(),
        ensures
            result.opens(indices, verifier),
    {
        let leaves = pair_leaves(self.value@);
        let half = verifier.leave_number;
        let opened = result.leaves(indices, half);
        self.merkle_tree.lemma_digest_lengths();
        assert forall|j: int| 0 <= j < indices.len() implies indices[j] < leaves.len() && opened[j]
            == leaves[#[trigger] indices[j] as int] by {
            let index = indices[j];
            assert(revealed(self.value@, indices).contains_key(index));
            assert(revealed(self.value@, indices).contains_key((index + half) as usize));
        }
        lemma_open_is_accepted(leaves, indices, opened, 0);
        assert forall|k: int| 0 <= k < indices.len() implies result.reveals(
            #[trigger] indices[k],
            half,
        ) by {
            let index = indices[k];
            assert(revealed(self.value@, indices).contains_key(index));
            assert(revealed(self.value@, indices).contains_key((index + half) as usize));
        }
    }
}

} // verus!
