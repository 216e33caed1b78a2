//! Merkle trees over byte-string leaves, hashed with SHA-256.
use vstd::prelude::*;
use sha2::{Digest, Sha256};

verus! {

/// Length in bytes of a digest and of a Merkle root.
pub const MERKLE_ROOT_SIZE: usize = 32;

/// The SHA-256 digest of a byte string.
pub uninterp spec fn sha256(data: Seq<u8>) -> Seq<u8>;

/// Computes the SHA-256 digest of `data` with `sha2::Sha256::digest`.
///
/// The contract names the digest `sha256(data)` and claims that it is 32
/// bytes long, which is the output size of `Sha256`. Nothing else is
/// known of it.
#[verifier::external_body]
pub(crate) fn sha256_digest(data: &Vec<u8>) -> (digest: Vec<u8>)
    ensures
        digest@ == sha256(data@),
        digest@.len() == MERKLE_ROOT_SIZE,
{
    Sha256::digest(data.as_slice()).to_vec()
}

/// The digest of heap node `x` of the tree over `leaves`.
///
/// Nodes are numbered as in a binary heap: node 1 is the root, node `x`
/// has the children `2x` and `2x + 1`, and the nodes from `leaves.len()`
/// on are the leaves in order. A leaf's digest is the hash of its bytes;
/// an inner node's digest is the hash of its children's digests, left
/// before right.
pub open spec fn node_at(leaves: Seq<Seq<u8>>, x: nat) -> Seq<u8>
    decreases 2 * leaves.len() - x,
{
    if 1 <= x < leaves.len() {
        sha256(node_at(leaves, 2 * x) + node_at(leaves, 2 * x + 1))
    } else if leaves.len() <= x < 2 * leaves.len() {
        sha256(leaves[x - leaves.len()])
    } else {
        Seq::empty()
    }
}

/// The root digest of the tree over `leaves`.
pub open spec fn merkle_root(leaves: Seq<Seq<u8>>) -> Seq<u8> {
    node_at(leaves, 1)
}

/// The other child of the parent of heap node `x`.
pub open spec fn sibling(x: nat) -> nat {
    if x % 2 == 0 {
        x + 1
    } else {
        (x - 1) as nat
    }
}

/// The number of edges between heap node `x` and the root.
pub open spec fn depth(x: nat) -> nat
    decreases x,
{
    if x <= 1 {
        0
    } else {
        1 + depth(x / 2)
    }
}

/// The authentication path of heap node `x`: the digests of the siblings
/// met on the way to the root, bottom first, one after the other.
pub open spec fn path_bytes(leaves: Seq<Seq<u8>>, x: nat) -> Seq<u8>
    decreases x,
{
    if x <= 1 {
        Seq::empty()
    } else {
        node_at(leaves, sibling(x)) + path_bytes(leaves, x / 2)
    }
}

/// The paths of the leaves at `indices[k..]`, one after the other.
pub open spec fn proof_bytes_from(leaves: Seq<Seq<u8>>, indices: Seq<usize>, k: nat) -> Seq<u8>
    decreases indices.len() - k,
{
    if k >= indices.len() {
        Seq::empty()
    } else {
        path_bytes(leaves, leaves.len() + indices[k as int] as nat) + proof_bytes_from(
            leaves,
            indices,
            k + 1,
        )
    }
}

/// The digest reached at the root when `digest` sits at heap node `x` and
/// `path` holds the digests of the siblings on the way up.
pub open spec fn climb(digest: Seq<u8>, x: nat, path: Seq<u8>) -> Seq<u8>
    decreases x,
{
    if x <= 1 {
        digest
    } else {
        let other = path.subrange(0, MERKLE_ROOT_SIZE as int);
        let rest = path.subrange(MERKLE_ROOT_SIZE as int, path.len() as int);
        let parent = if x % 2 == 0 {
            sha256(digest + other)
        } else {
            sha256(other + digest)
        };
        climb(parent, x / 2, rest)
    }
}

/// Whether `digest` and every digest computed on the way up from heap
/// node `x` along `path` has `MERKLE_ROOT_SIZE` bytes.
pub open spec fn sized_climb(digest: Seq<u8>, x: nat, path: Seq<u8>) -> bool
    decreases x,
{
    &&& digest.len() == MERKLE_ROOT_SIZE
    &&& x <= 1 || {
        let other = path.subrange(0, MERKLE_ROOT_SIZE as int);
        let rest = path.subrange(MERKLE_ROOT_SIZE as int, path.len() as int);
        let parent = if x % 2 == 0 {
            sha256(digest + other)
        } else {
            sha256(other + digest)
        };
        sized_climb(parent, x / 2, rest)
    }
}

/// Whether `proof` authenticates `leaves[k..]` at the positions
/// `indices[k..]` of a tree of `leave_number` leaves with root `root`:
/// every position is in range, every leaf climbs to the root along its
/// own path through digests of `MERKLE_ROOT_SIZE` bytes, and the paths
/// fill `proof` exactly.
pub open spec fn opens_from(
    root: Seq<u8>,
    leave_number: nat,
    proof: Seq<u8>,
    indices: Seq<usize>,
    leaves: Seq<Seq<u8>>,
    k: nat,
) -> bool
    decreases indices.len() - k,
{
    if k >= indices.len() {
        proof.len() == 0
    } else {
        let x = leave_number + indices[k as int] as nat;
        let need = MERKLE_ROOT_SIZE * depth(x);
        &&& indices[k as int] < leave_number
        &&& proof.len() >= need
        &&& climb(sha256(leaves[k as int]), x, proof.subrange(0, need as int)) == root
        &&& sized_climb(sha256(leaves[k as int]), x, proof.subrange(0, need as int))
        &&& opens_from(
            root,
            leave_number,
            proof.subrange(need as int, proof.len() as int),
            indices,
            leaves,
            k + 1,
        )
    }
}

/// The byte strings held by a vector of byte vectors.
pub open spec fn byte_strings(v: Seq<Vec<u8>>) -> Seq<Seq<u8>> {
    Seq::new(v.len(), |i: int| v[i]@)
}

/// Appends a copy of `tail` to `bytes`.
pub fn append_bytes(bytes: &mut Vec<u8>, tail: &Vec<u8>)
    ensures
        final(bytes)@ == old(bytes)@ + tail@,
{
    let mut i: usize = 0;
    while i < tail.len()
        invariant
            0 <= i <= tail.len(),
            bytes@ == old(bytes)@ + tail@.subrange(0, i as int),
        decreases tail.len() - i,
    {
        bytes.push(tail[i]);
        i = i + 1;
        assert(bytes@ =~= old(bytes)@ + tail@.subrange(0, i as int));
    }
    assert(tail@.subrange(0, tail.len() as int) =~= tail@);
}

/// A Merkle tree with all its nodes, from which openings are produced.
pub struct MerkleTreeProver {
    nodes: Vec<Vec<u8>>,
    leave_num: usize,
    leaves: Ghost<Seq<Seq<u8>>>,
}

impl MerkleTreeProver {
    /// The leaves that the tree commits to.
    pub closed spec fn leaves(&self) -> Seq<Seq<u8>> {
        self.leaves@
    }

    /// The tree holds the digest of every heap node of its leaves, each of
    /// `MERKLE_ROOT_SIZE` bytes.
    pub closed spec fn wf(&self) -> bool {
        &&& self.leave_num >= 1
        &&& self.leave_num == self.leaves@.len()
        &&& self.nodes@.len() == 2 * self.leave_num
        &&& forall|x: int|
            1 <= x < self.nodes@.len() ==> (#[trigger] self.nodes@[x])@ == node_at(
                self.leaves@,
                x as nat,
            )
        &&& forall|x: int|
            1 <= x < self.nodes@.len() ==> (#[trigger] self.nodes@[x])@.len() == MERKLE_ROOT_SIZE
    }

    /// In a well-formed tree every node digest has `MERKLE_ROOT_SIZE` bytes.
    pub proof fn lemma_digest_lengths(&self)
        requires
            self.wf(),
        ensures
            self.leaves().len() >= 1,
            forall|x: nat|
                1 <= x < 2 * self.leaves().len() ==> (#[trigger] node_at(self.leaves(), x)).len()
                    == MERKLE_ROOT_SIZE,
    {
        assert forall|x: nat| 1 <= x < 2 * self.leaves().len() implies (#[trigger] node_at(
            self.leaves(),
            x,
        )).len() == MERKLE_ROOT_SIZE by {
            assert(self.nodes@[x as int]@ == node_at(self.leaves@, x));
        }
    }

    /// Builds the tree over the given leaves.
    pub fn new(leaf_values: Vec<Vec<u8>>) -> (tree: Self)
        requires
            1 <= leaf_values.len(),
            2 * leaf_values.len() <= usize::MAX,
        ensures
            tree.wf(),
            tree.leaves() == byte_strings(leaf_values@),
    {
        let n = leaf_values.len();
        let ghost leaves = byte_strings(leaf_values@);
        let mut nodes: Vec<Vec<u8>> = Vec::new();
        let mut i: usize = 0;
        while i < 2 * n
            invariant
                0 <= i <= 2 * n,
                2 * n <= usize::MAX,
                nodes@.len() == i,
            decreases 2 * n - i,
        {
            nodes.push(Vec::new());
            i = i + 1;
        }
        i = 0;
        while i < n
            invariant
                0 <= i <= n,
                n == leaf_values.len(),
                2 * n <= usize::MAX,
                nodes@.len() == 2 * n,
                leaves == byte_strings(leaf_values@),
                forall|x: int|
                    n <= x < n + i ==> (#[trigger] nodes@[x])@ == node_at(leaves, x as nat),
                forall|x: int| n <= x < n + i ==> (#[trigger] nodes@[x])@.len() == MERKLE_ROOT_SIZE,
            decreases n - i,
        {
            let digest = sha256_digest(&leaf_values[i]);
            nodes.set(n + i, digest);
            i = i + 1;
        }
        let mut x: usize = n;
        while x > 1
            invariant
                1 <= x <= n,
                n == leaves.len(),
                2 * n <= usize::MAX,
                nodes@.len() == 2 * n,
                forall|y: int| x <= y < 2 * n ==> (#[trigger] nodes@[y])@ == node_at(leaves, y as nat),
                forall|y: int| x <= y < 2 * n ==> (#[trigger] nodes@[y])@.len() == MERKLE_ROOT_SIZE,
            decreases x,
        {
            x = x - 1;
            let mut data: Vec<u8> = Vec::new();
            append_bytes(&mut data, &nodes[2 * x]);
            append_bytes(&mut data, &nodes[2 * x + 1]);
            assert(data@ =~= nodes@[2 * x]@ + nodes@[2 * x + 1]@);
            let digest = sha256_digest(&data);
            nodes.set(x, digest);
        }
        MerkleTreeProver { nodes, leave_num: n, leaves: Ghost(leaves) }
    }

    /// The number of leaves.
    pub fn leave_num(&self) -> (n: usize)
        requires
            self.wf(),
        ensures
            n == self.leaves().len(),
    {
        self.leave_num
    }

    /// The root of the tree.
    pub fn commit(&self) -> (root: [u8; MERKLE_ROOT_SIZE])
        requires
            self.wf(),
        ensures
            root@ == merkle_root(self.leaves()),
    {
        root_of_digest(&self.nodes[1])
    }

    /// The authentication paths of the leaves at `leaf_indices`, in that
    /// order, one after the other.
    pub fn open(&self, leaf_indices: &Vec<usize>) -> (proof: Vec<u8>)
        requires
            self.wf(),
            forall|k: int| 0 <= k < leaf_indices@.len() ==> leaf_indices@[k] < self.leaves().len(),
        ensures
            proof@ == proof_bytes_from(self.leaves(), leaf_indices@, 0),
    {
        let n = self.leave_num;
        let total = self.nodes.len();
        let mut proof: Vec<u8> = Vec::new();
        let mut k: usize = 0;
        assert(proof@ + proof_bytes_from(self.leaves(), leaf_indices@, 0) =~= proof_bytes_from(
            self.leaves(),
            leaf_indices@,
            0,
        ));
        while k < leaf_indices.len()
            invariant
                0 <= k <= leaf_indices.len(),
                self.wf(),
                n == self.leave_num,
                total == 2 * n,
                forall|j: int| 0 <= j < leaf_indices@.len() ==> leaf_indices@[j] < self.leaves().len(),
                proof@ + proof_bytes_from(self.leaves(), leaf_indices@, k as nat)
                    == proof_bytes_from(self.leaves(), leaf_indices@, 0),
            decreases leaf_indices.len() - k,
        {
            let ghost before = proof@;
            let path = self.path(n + leaf_indices[k]);
            append_bytes(&mut proof, &path);
            assert(proof@ + proof_bytes_from(self.leaves(), leaf_indices@, (k + 1) as nat)
                =~= before + proof_bytes_from(self.leaves(), leaf_indices@, k as nat));
            k = k + 1;
        }
        assert(proof@ + proof_bytes_from(self.leaves(), leaf_indices@, k as nat) =~= proof@);
        proof
    }

    /// The authentication path of heap node `x`.
    fn path(&self, x: usize) -> (path: Vec<u8>)
        requires
            self.wf(),
            x < 2 * self.leaves().len(),
        ensures
            path@ == path_bytes(self.leaves(), x as nat),
    {
        let mut path: Vec<u8> = Vec::new();
        let mut y = x;
        while y > 1
            invariant
                self.wf(),
                y <= x < 2 * self.leaves().len(),
                path@ + path_bytes(self.leaves(), y as nat) == path_bytes(self.leaves(), x as nat),
            decreases y,
        {
            let other = if y % 2 == 0 {
                y + 1
            } else {
                y - 1
            };
            let ghost before = path@;
            append_bytes(&mut path, &self.nodes[other]);
            assert(path@ + path_bytes(self.leaves(), (y / 2) as nat) =~= before + path_bytes(
                self.leaves(),
                y as nat,
            ));
            y = y / 2;
        }
        assert(path@ + path_bytes(self.leaves(), y as nat) =~= path@);
        path
    }
}

/// The root of a committed tree and its number of leaves, against which
/// openings are checked.
pub struct MerkleTreeVerifier {
    pub merkle_root: [u8; MERKLE_ROOT_SIZE],
    pub leave_number: usize,
}

impl MerkleTreeVerifier {
    /// Records a root and the number of leaves below it.
    pub fn new(leave_number: usize, merkle_root: &[u8; MERKLE_ROOT_SIZE]) -> (verifier: Self)
        ensures
            verifier.leave_number == leave_number,
            verifier.merkle_root == *merkle_root,
    {
        MerkleTreeVerifier { merkle_root: *merkle_root, leave_number }
    }

    /// Whether `proof` authenticates the byte strings `leaves` at the
    /// positions `indices` under this root.
    pub open spec fn accepts(&self, proof: Seq<u8>, indices: Seq<usize>, leaves: Seq<Seq<u8>>) -> bool {
        &&& indices.len() == leaves.len()
        &&& opens_from(self.merkle_root@, self.leave_number as nat, proof, indices, leaves, 0)
    }

    /// Checks an opening: recomputes the root from every leaf and its
    /// path and compares it with the recorded root.
    pub fn verify(&self, proof_bytes: &Vec<u8>, indices: &Vec<usize>, leaves: &Vec<Vec<u8>>) -> (ok:
        bool)
        ensures
            ok == self.accepts(proof_bytes@, indices@, byte_strings(leaves@)),
    {
        if indices.len() != leaves.len() {
            return false;
        }
        let ghost root = self.merkle_root@;
        let ghost n = self.leave_number as nat;
        let ghost strings = byte_strings(leaves@);
        let total = proof_bytes.len();
        let mut offset: usize = 0;
        let mut k: usize = 0;
        assert(proof_bytes@.subrange(0, total as int) =~= proof_bytes@);
        while k < indices.len()
            invariant
                0 <= k <= indices.len(),
                indices.len() == leaves.len(),
                0 <= offset <= total,
                total == proof_bytes.len(),
                root == self.merkle_root@,
                n == self.leave_number,
                strings == byte_strings(leaves@),
                opens_from(root, n, proof_bytes@, indices@, strings, 0) == opens_from(
                    root,
                    n,
                    proof_bytes@.subrange(offset as int, total as int),
                    indices@,
                    strings,
                    k as nat,
                ),
            decreases indices.len() - k,
        {
            let index = indices[k];
            if index >= self.leave_number {
                return false;
            }
            let ghost start = offset;
            let ghost remaining = proof_bytes@.subrange(start as int, total as int);
            let ghost top: nat = n + index as nat;
            let ghost need = MERKLE_ROOT_SIZE * depth(top);
            let ghost leaf = sha256(strings[k as int]);
            let mut x: u128 = self.leave_number as u128 + index as u128;
            let mut digest = sha256_digest(&leaves[k]);
            let ghost mut steps: nat = 0;
            while x > 1
                invariant
                    start <= offset <= total,
                    total == proof_bytes.len(),
                    0 <= k < indices.len(),
                    indices.len() == leaves.len(),
                    root == self.merkle_root@,
                    n == self.leave_number,
                    strings == byte_strings(leaves@),
                    index == indices@[k as int],
                    index < n,
                    top == n + index,
                    opens_from(root, n, proof_bytes@, indices@, strings, 0) == opens_from(
                        root,
                        n,
                        remaining,
                        indices@,
                        strings,
                        k as nat,
                    ),
                    remaining == proof_bytes@.subrange(start as int, total as int),
                    depth(top) == steps + depth(x as nat),
                    need == MERKLE_ROOT_SIZE * depth(top),
                    offset == start + MERKLE_ROOT_SIZE * steps,
                    digest@.len() == MERKLE_ROOT_SIZE,
                    remaining.len() >= need ==> climb(leaf, top, remaining.subrange(0, need as int))
                        == climb(
                        digest@,
                        x as nat,
                        remaining.subrange(offset - start, need as int),
                    ),
                    remaining.len() >= need ==> sized_climb(
                        leaf,
                        top,
                        remaining.subrange(0, need as int),
                    ) == sized_climb(
                        digest@,
                        x as nat,
                        remaining.subrange(offset - start, need as int),
                    ),
                decreases x,
            {
                if total - offset < MERKLE_ROOT_SIZE {
                    assert(remaining.len() < need) by (nonlinear_arith)
                        requires
                            remaining.len() == total - start,
                            total - offset < MERKLE_ROOT_SIZE,
                            offset == start + MERKLE_ROOT_SIZE * steps,
                            need == MERKLE_ROOT_SIZE * depth(top),
                            depth(top) >= steps + 1,
                    ;
                    assert(!opens_from(root, n, remaining, indices@, strings, k as nat));
                    return false;
                }
                let mut other: Vec<u8> = Vec::new();
                let mut i: usize = 0;
                while i < MERKLE_ROOT_SIZE
                    invariant
                        0 <= i <= MERKLE_ROOT_SIZE,
                        offset + MERKLE_ROOT_SIZE <= total,
                        total == proof_bytes.len(),
                        other@ == proof_bytes@.subrange(offset as int, offset + i),
                    decreases MERKLE_ROOT_SIZE - i,
                {
                    other.push(proof_bytes[offset + i]);
                    i = i + 1;
                    assert(other@ =~= proof_bytes@.subrange(offset as int, offset + i));
                }
                let mut data: Vec<u8> = Vec::new();
                if x % 2 == 0 {
                    append_bytes(&mut data, &digest);
                    append_bytes(&mut data, &other);
                    assert(data@ =~= digest@ + other@);
                } else {
                    append_bytes(&mut data, &other);
                    append_bytes(&mut data, &digest);
                    assert(data@ =~= other@ + digest@);
                }
                proof {
                    if remaining.len() >= need {
                        assert(need >= MERKLE_ROOT_SIZE * (steps + 1)) by (nonlinear_arith)
                            requires
                                need == MERKLE_ROOT_SIZE * depth(top),
                                depth(top) >= steps + 1,
                        ;
                        let path = remaining.subrange(offset - start, need as int);
                        assert(path.subrange(0, MERKLE_ROOT_SIZE as int) =~= other@);
                        assert(path.subrange(MERKLE_ROOT_SIZE as int, path.len() as int)
                            =~= remaining.subrange(offset + MERKLE_ROOT_SIZE - start, need as int));
                    }
                    assert(MERKLE_ROOT_SIZE * (steps + 1) == MERKLE_ROOT_SIZE * steps
                        + MERKLE_ROOT_SIZE) by (nonlinear_arith);
                    steps = steps + 1;
                }
                digest = sha256_digest(&data);
                offset = offset + MERKLE_ROOT_SIZE;
                x = x / 2;
            }
            proof {
                assert(need == MERKLE_ROOT_SIZE * steps);
                assert(remaining.len() >= need);
                assert(remaining.subrange(need as int, remaining.len() as int)
                    =~= proof_bytes@.subrange(offset as int, total as int));
            }
            if !digest_matches(&digest, &self.merkle_root) {
                return false;
            }
            k = k + 1;
        }
        offset == total
    }
}

/// Compares a digest with a root, byte by byte.
fn digest_matches(digest: &Vec<u8>, root: &[u8; MERKLE_ROOT_SIZE]) -> (same: bool)
    requires
        digest@.len() == MERKLE_ROOT_SIZE,
    ensures
        same == (digest@ == root@),
{
    let mut i: usize = 0;
    while i < MERKLE_ROOT_SIZE
        invariant
            0 <= i <= MERKLE_ROOT_SIZE,
            digest@.len() == MERKLE_ROOT_SIZE,
            forall|j: int| 0 <= j < i ==> digest@[j] == root@[j],
        decreases MERKLE_ROOT_SIZE - i,
    {
        if digest[i] != root[i] {
            return false;
        }
        i = i + 1;
    }
    assert(digest@ =~= root@);
    true
}

/// The path that the tree gives for heap node `x` has one digest per edge
/// below the root, and `x`'s own digest climbs along it to the root.
pub proof fn lemma_path_climbs(leaves: Seq<Seq<u8>>, x: nat)
    requires
        1 <= x < 2 * leaves.len(),
        forall|y: nat|
            1 <= y < 2 * leaves.len() ==> (#[trigger] node_at(leaves, y)).len() == MERKLE_ROOT_SIZE,
    ensures
        path_bytes(leaves, x).len() == MERKLE_ROOT_SIZE * depth(x),
        climb(node_at(leaves, x), x, path_bytes(leaves, x)) == merkle_root(leaves),
        sized_climb(node_at(leaves, x), x, path_bytes(leaves, x)),
    decreases x,
{
    if x > 1 {
        let up = x / 2;
        let other = node_at(leaves, sibling(x));
        let path = path_bytes(leaves, x);
        lemma_path_climbs(leaves, up);
        assert(other.len() == MERKLE_ROOT_SIZE);
        assert(path.subrange(0, MERKLE_ROOT_SIZE as int) =~= other);
        assert(path.subrange(MERKLE_ROOT_SIZE as int, path.len() as int) =~= path_bytes(leaves, up));
        assert(1 <= up < leaves.len());
        if x % 2 == 0 {
            assert(2 * up == x && 2 * up + 1 == sibling(x));
        } else {
            assert(2 * up == sibling(x) && 2 * up + 1 == x);
        }
        assert(MERKLE_ROOT_SIZE * (1 + depth(up)) == MERKLE_ROOT_SIZE + MERKLE_ROOT_SIZE * depth(
            up,
        )) by (nonlinear_arith);
    }
}

/// Whether there are two different byte strings with the same SHA-256
/// digest.
pub open spec fn has_collision() -> bool {
    exists|a: Seq<u8>, b: Seq<u8>| a != b && #[trigger] sha256(a) == #[trigger] sha256(b)
}

/// Paths bind: if two digests at the same heap node climb to the same
/// root along two paths, and the digests or the paths differ, then two
/// different byte strings have the same digest.
pub proof fn lemma_paths_bind(d1: Seq<u8>, path1: Seq<u8>, d2: Seq<u8>, path2: Seq<u8>, x: nat)
    requires
        sized_climb(d1, x, path1),
        sized_climb(d2, x, path2),
        path1.len() == MERKLE_ROOT_SIZE * depth(x),
        path2.len() == MERKLE_ROOT_SIZE * depth(x),
        climb(d1, x, path1) == climb(d2, x, path2),
        d1 != d2 || path1 != path2,
    ensures
        has_collision(),
    decreases x,
{
    if x <= 1 {
        assert(path1 =~= path2);
    } else {
        let size = MERKLE_ROOT_SIZE as int;
        let (other1, rest1) = (path1.subrange(0, size), path1.subrange(size, path1.len() as int));
        let (other2, rest2) = (path2.subrange(0, size), path2.subrange(size, path2.len() as int));
        let (in1, in2) = if x % 2 == 0 {
            (d1 + other1, d2 + other2)
        } else {
            (other1 + d1, other2 + d2)
        };
        assert(MERKLE_ROOT_SIZE * depth(x) == size + MERKLE_ROOT_SIZE * depth(x / 2))
            by (nonlinear_arith)
            requires
                depth(x) == 1 + depth(x / 2),
                size == MERKLE_ROOT_SIZE,
        ;
        if sha256(in1) != sha256(in2) || rest1 != rest2 {
            lemma_paths_bind(sha256(in1), rest1, sha256(in2), rest2, x / 2);
        } else if in1 != in2 {
            assert(sha256(in1) == sha256(in2));
        } else {
            assert(d1 =~= d2 && other1 =~= other2) by {
                if x % 2 == 0 {
                    assert(d1 =~= in1.subrange(0, size));
                    assert(d2 =~= in2.subrange(0, size));
                    assert(other1 =~= in1.subrange(size, 2 * size));
                    assert(other2 =~= in2.subrange(size, 2 * size));
                } else {
                    assert(other1 =~= in1.subrange(0, size));
                    assert(other2 =~= in2.subrange(0, size));
                    assert(d1 =~= in1.subrange(size, 2 * size));
                    assert(d2 =~= in2.subrange(size, 2 * size));
                }
            }
            assert(path1 =~= other1 + rest1);
            assert(path2 =~= other2 + rest2);
        }
    }
}

/// Openings bind: if two openings of the same positions are accepted
/// under one root, and their leaves or their paths differ, then two
/// different byte strings have the same digest. So a change to any bit
/// of an accepted opening is rejected unless it finds a collision.
pub proof fn lemma_openings_bind(
    root: Seq<u8>,
    leave_number: nat,
    indices: Seq<usize>,
    proof1: Seq<u8>,
    leaves1: Seq<Seq<u8>>,
    proof2: Seq<u8>,
    leaves2: Seq<Seq<u8>>,
    k: nat,
)
    requires
        leaves1.len() == indices.len(),
        leaves2.len() == indices.len(),
        k <= indices.len(),
        opens_from(root, leave_number, proof1, indices, leaves1, k),
        opens_from(root, leave_number, proof2, indices, leaves2, k),
        proof1 != proof2 || exists|j: int| k <= j < indices.len() && leaves1[j] != leaves2[j],
    ensures
        has_collision(),
    decreases indices.len() - k,
{
    if k >= indices.len() {
        assert(proof1 =~= proof2);
    } else {
        let x = leave_number + indices[k as int] as nat;
        let need = (MERKLE_ROOT_SIZE * depth(x)) as int;
        let (path1, rest1) = (proof1.subrange(0, need), proof1.subrange(need, proof1.len() as int));
        let (path2, rest2) = (proof2.subrange(0, need), proof2.subrange(need, proof2.len() as int));
        let (leaf1, leaf2) = (leaves1[k as int], leaves2[k as int]);
        if leaf1 != leaf2 && sha256(leaf1) == sha256(leaf2) {
        } else if sha256(leaf1) != sha256(leaf2) || path1 != path2 {
            lemma_paths_bind(sha256(leaf1), path1, sha256(leaf2), path2, x);
        } else {
            assert(proof1 =~= path1 + rest1);
            assert(proof2 =~= path2 + rest2);
            if rest1 == rest2 {
                let j = choose|j: int| k <= j < indices.len() && leaves1[j] != leaves2[j];
                assert(j > k);
            }
            lemma_openings_bind(
                root,
                leave_number,
                indices,
                rest1,
                leaves1,
                rest2,
                leaves2,
                k + 1,
            );
        }
    }
}

/// The size in bytes of the path of one leaf in a tree of `leave_number`
/// leaves: one digest for each level below the root.
pub open spec fn path_size(leave_number: nat) -> nat {
    MERKLE_ROOT_SIZE as nat * crate::power_of_two::log2(leave_number)
}

/// The depth of a heap node is the logarithm of its number.
pub proof fn lemma_depth_is_log2(x: nat)
    ensures
        depth(x) == crate::power_of_two::log2(x),
    decreases x,
{
    if x > 1 {
        lemma_depth_is_log2(x / 2);
    }
}

/// In a tree whose number of leaves is a power of two, the paths of the
/// leaves at `indices[k..]` take `path_size` bytes each.
pub proof fn lemma_proof_size(leaves: Seq<Seq<u8>>, indices: Seq<usize>, k: nat)
    requires
        crate::power_of_two::is_power_of_two(leaves.len()),
        leaves.len() >= 1,
        forall|y: nat|
            1 <= y < 2 * leaves.len() ==> (#[trigger] node_at(leaves, y)).len() == MERKLE_ROOT_SIZE,
        forall|j: int| 0 <= j < indices.len() ==> indices[j] < leaves.len(),
        k <= indices.len(),
    ensures
        proof_bytes_from(leaves, indices, k).len() == (indices.len() - k) * path_size(leaves.len()),
    decreases indices.len() - k,
{
    if k < indices.len() {
        let x = leaves.len() + indices[k as int] as nat;
        lemma_proof_size(leaves, indices, k + 1);
        lemma_path_climbs(leaves, x);
        lemma_depth_is_log2(x);
        crate::power_of_two::lemma_log2_between(x, crate::power_of_two::log2(leaves.len()));
        assert((indices.len() - k) * path_size(leaves.len()) == path_size(leaves.len()) + (
        indices.len() - k - 1) * path_size(leaves.len())) by (nonlinear_arith);
    } else {
        assert(0 * path_size(leaves.len()) == 0);
    }
}

/// What a tree opens is accepted under its own root: the paths of the
/// leaves at `indices[k..]` authenticate those leaves.
pub proof fn lemma_open_is_accepted(
    leaves: Seq<Seq<u8>>,
    indices: Seq<usize>,
    opened: Seq<Seq<u8>>,
    k: nat,
)
    requires
        leaves.len() >= 1,
        forall|y: nat|
            1 <= y < 2 * leaves.len() ==> (#[trigger] node_at(leaves, y)).len() == MERKLE_ROOT_SIZE,
        opened.len() == indices.len(),
        forall|j: int|
            0 <= j < indices.len() ==> indices[j] < leaves.len() && opened[j]
                == leaves[#[trigger] indices[j] as int],
    ensures
        opens_from(
            merkle_root(leaves),
            leaves.len(),
            proof_bytes_from(leaves, indices, k),
            indices,
            opened,
            k,
        ),
    decreases indices.len() - k,
{
    if k < indices.len() {
        let x = leaves.len() + indices[k as int] as nat;
        let need = MERKLE_ROOT_SIZE * depth(x);
        let proof = proof_bytes_from(leaves, indices, k);
        lemma_path_climbs(leaves, x);
        lemma_open_is_accepted(leaves, indices, opened, k + 1);
        assert(proof.subrange(0, need as int) =~= path_bytes(leaves, x));
        assert(proof.subrange(need as int, proof.len() as int) =~= proof_bytes_from(
            leaves,
            indices,
            k + 1,
        ));
        assert(node_at(leaves, x) == sha256(opened[k as int]));
    }
}

/// Copies a digest into a root array.
fn root_of_digest(digest: &Vec<u8>) -> (root: [u8; MERKLE_ROOT_SIZE])
    requires
        digest@.len() == MERKLE_ROOT_SIZE,
    ensures
        root@ == digest@,
{
    let mut root = [0u8;32];
    let mut i: usize = 0;
    while i < MERKLE_ROOT_SIZE
        invariant
            0 <= i <= MERKLE_ROOT_SIZE,
            digest@.len() == MERKLE_ROOT_SIZE,
            forall|j: int| 0 <= j < i ==> root@[j] == digest@[j],
        decreases MERKLE_ROOT_SIZE - i,
    {
        root[i] = digest[i];
        i = i + 1;
    }
    assert(root@ =~= digest@);
    root
}

} // verus!
