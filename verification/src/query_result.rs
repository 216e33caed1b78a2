//! What a prover reveals of one codeword layer: values and their
//! authentication paths.
use vstd::prelude::*;
use std::collections::HashMap;
use crate::algebra::field::Field;
use crate::merkle_tree::{
    append_bytes, byte_strings, has_collision, lemma_openings_bind, MerkleTreeVerifier,
};

verus! {

/// The values of a codeword at the queried positions and at their
/// siblings, with the Merkle paths of the queried leaves.
pub struct QueryResult<T: Field> {
    pub proof_bytes: Vec<u8>,
    pub proof_values: HashMap<usize, T>,
}

/// The bytes of the leaf that holds the values `x` and `nx`.
pub open spec fn leaf_bytes<T: Field>(x: T, nx: T) -> Seq<u8> {
    x.encoding() + nx.encoding()
}

impl<T: Field> QueryResult<T> {
    /// Whether the values at `index` and at its sibling `index +
    /// leave_number` are both revealed.
    pub open spec fn reveals(&self, index: usize, leave_number: usize) -> bool {
        &&& index + leave_number <= usize::MAX
        &&& self.proof_values@.contains_key(index)
        &&& self.proof_values@.contains_key((index + leave_number) as usize)
    }

    /// The leaf at `index`, rebuilt from the revealed values.
    pub open spec fn leaf(&self, index: usize, leave_number: usize) -> Seq<u8> {
        leaf_bytes(
            self.proof_values@[index],
            self.proof_values@[(index + leave_number) as usize],
        )
    }

    /// The leaves at `indices`, rebuilt from the revealed values.
    pub open spec fn leaves(&self, indices: Seq<usize>, leave_number: usize) -> Seq<Seq<u8>> {
        Seq::new(indices.len(), |k: int| self.leaf(indices[k], leave_number))
    }

    /// Whether this result opens the committed tree at `indices`: every
    /// queried pair is revealed, and the Merkle paths authenticate the
    /// rebuilt leaves under the recorded root.
    pub open spec fn opens(&self, indices: Seq<usize>, verifier: &MerkleTreeVerifier) -> bool {
        &&& forall|k: int|
            0 <= k < indices.len() ==> self.reveals(#[trigger] indices[k], verifier.leave_number)
        &&& verifier.accepts(
            self.proof_bytes@,
            indices,
            self.leaves(indices, verifier.leave_number),
        )
    }

    /// Whether the two results differ in the paths or in a value that a
    /// query at `indices` reveals, at a position or at its sibling.
    pub open spec fn differs_from(&self, other: &Self, indices: Seq<usize>, leave_number: usize) -> bool {
        ||| self.proof_bytes@ != other.proof_bytes@
        ||| exists|k: int|
            0 <= k < indices.len() && (self.proof_values@[#[trigger] indices[k]]
                != other.proof_values@[indices[k]] || self.proof_values@[(indices[k]
                + leave_number) as usize] != other.proof_values@[(indices[k]
                + leave_number) as usize])
    }

    /// Results bind: if two results open the same positions under one
    /// root and differ in the paths or in a revealed value, then two
    /// different byte strings have the same digest.
    pub proof fn lemma_results_bind(
        &self,
        other: &Self,
        indices: Seq<usize>,
        verifier: &MerkleTreeVerifier,
    )
        requires
            self.opens(indices, verifier),
            other.opens(indices, verifier),
            self.differs_from(other, indices, verifier.leave_number),
        ensures
            has_collision(),
    {
        let n = verifier.leave_number;
        let leaves1 = self.leaves(indices, n);
        let leaves2 = other.leaves(indices, n);
        if self.proof_bytes@ == other.proof_bytes@ {
            let k = choose|k: int|
                0 <= k < indices.len() && (self.proof_values@[#[trigger] indices[k]]
                    != other.proof_values@[indices[k]] || self.proof_values@[(indices[k]
                    + n) as usize] != other.proof_values@[(indices[k] + n) as usize]);
            let (x1, nx1) = (
                self.proof_values@[indices[k]],
                self.proof_values@[(indices[k] + n) as usize],
            );
            let (x2, nx2) = (
                other.proof_values@[indices[k]],
                other.proof_values@[(indices[k] + n) as usize],
            );
            T::lemma_encoding(x1, x2);
            T::lemma_encoding(nx1, nx2);
            let len = x1.encoding().len() as int;
            if leaves1[k] == leaves2[k] {
                assert(x1.encoding() =~= leaves1[k].subrange(0, len));
                assert(x2.encoding() =~= leaves2[k].subrange(0, len));
                assert(nx1.encoding() =~= leaves1[k].subrange(len, leaves1[k].len() as int));
                assert(nx2.encoding() =~= leaves2[k].subrange(len, leaves2[k].len() as int));
            }
            assert(leaves1[k] != leaves2[k]);
        }
        lemma_openings_bind(
            verifier.merkle_root@,
            n as nat,
            indices,
            self.proof_bytes@,
            leaves1,
            other.proof_bytes@,
            leaves2,
            0,
        );
    }

    /// Recomputes the root from the revealed pairs and the paths and
    /// compares it with the verifier's root.
    pub fn verify_merkle_tree(
        &self,
        leaf_indices: &Vec<usize>,
        merkle_verifier: &MerkleTreeVerifier,
    ) -> (ok: bool)
        ensures
            ok == self.opens(leaf_indices@, merkle_verifier),
    {
        let leave_number = merkle_verifier.leave_number;
        let mut leaves: Vec<Vec<u8>> = Vec::new();
        let mut k: usize = 0;
        while k < leaf_indices.len()
            invariant
                0 <= k <= leaf_indices.len(),
                leave_number == merkle_verifier.leave_number,
                leaves@.len() == k,
                forall|j: int|
                    0 <= j < k ==> self.reveals(#[trigger] leaf_indices@[j], leave_number),
                forall|j: int|
                    0 <= j < k ==> (#[trigger] leaves@[j])@ == self.leaf(
                        leaf_indices@[j],
                        leave_number,
                    ),
            decreases leaf_indices.len() - k,
        {
            let index = leaf_indices[k];
            if index > usize::MAX - leave_number {
                return false;
            }
            let other = index + leave_number;
            let mut bytes = match self.proof_values.get(&index) {
                Some(x) => x.to_bytes(),
                None => {
                    return false;
                },
            };
            match self.proof_values.get(&other) {
                Some(nx) => {
                    let tail = nx.to_bytes();
                    append_bytes(&mut bytes, &tail);
                },
                None => {
                    return false;
                },
            }
            leaves.push(bytes);
            k = k + 1;
        }
        assert(byte_strings(leaves@) =~= self.leaves(leaf_indices@, leave_number));
        merkle_verifier.verify(&self.proof_bytes, leaf_indices, &leaves)
    }

    /// The size of the result in bytes: the paths, and the revealed
    /// values at their size in memory.
    pub fn proof_size(&self) -> (size: usize)
        requires
            self.proof_bytes@.len() + self.proof_values@.len() * vstd::layout::size_of::<T>()
                <= usize::MAX,
        ensures
            size == self.proof_bytes@.len() + self.proof_values@.len() * vstd::layout::size_of::<
                T,
            >(),
    {
        let count = self.proof_values.len();
        let each = core::mem::size_of::<T>();
        assert(count * each <= usize::MAX) by (nonlinear_arith)
            requires
                self.proof_bytes@.len() + count * each <= usize::MAX,
        ;
        self.proof_bytes.len() + count * each
    }
}

} // verus!
