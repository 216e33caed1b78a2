use pip_fri::algebra::field::mersenne61_ext::Mersenne61Ext;
use pip_fri::algebra::field::FieldOps;
use pip_fri::interpolation::InterpolateValue;
use pip_fri::merkle_tree::{MerkleTreeProver, MerkleTreeVerifier, MERKLE_ROOT_SIZE};

type F = Mersenne61Ext;

fn hex(bytes: &[u8]) -> String {
    bytes.iter().map(|b| format!("{:02x}", b)).collect()
}

fn leaves(n: usize) -> Vec<Vec<u8>> {
    (0..n).map(|i| vec![i as u8, (i * 7) as u8, 0xaa]).collect()
}

fn layer(n: u64) -> InterpolateValue<F> {
    InterpolateValue::new((0..n).map(|i| F::new(i + 1, 2 * i)).collect())
}

#[test]
fn root_of_one_leaf_is_its_digest() {
    let tree = MerkleTreeProver::new(vec![b"abc".to_vec()]);
    assert_eq!(tree.leave_num(), 1);
    assert_eq!(
        hex(&tree.commit()),
        "ba7816bf8f01cfea414140de5dae2223b00361a396177a9cb410ff61f20015ad"
    );
}

#[test]
fn root_of_two_leaves_hashes_their_digests() {
    // sha256(sha256("a") || sha256("b"))
    let tree = MerkleTreeProver::new(vec![b"a".to_vec(), b"b".to_vec()]);
    assert_eq!(
        hex(&tree.commit()),
        "e5a01fee14e0ed5c48714f22180f25ad8365b53f9779f79dc4a3d7e93963f94a"
    );
}

#[test]
fn root_depends_on_every_leaf() {
    let root = MerkleTreeProver::new(leaves(8)).commit();
    for i in 0..8 {
        let mut changed = leaves(8);
        changed[i][2] ^= 1;
        assert_ne!(MerkleTreeProver::new(changed).commit(), root);
    }
}

#[test]
fn paths_have_one_digest_per_level() {
    let tree = MerkleTreeProver::new(leaves(16));
    assert_eq!(tree.open(&vec![]).len(), 0);
    assert_eq!(tree.open(&vec![3]).len(), 4 * MERKLE_ROOT_SIZE);
    assert_eq!(tree.open(&vec![0, 5, 15]).len(), 3 * 4 * MERKLE_ROOT_SIZE);
    let single = MerkleTreeProver::new(leaves(1));
    assert_eq!(single.open(&vec![0]).len(), 0);
}

#[test]
fn opening_verifies_under_the_root() {
    let all = leaves(16);
    let tree = MerkleTreeProver::new(all.clone());
    let verifier = MerkleTreeVerifier::new(16, &tree.commit());
    let indices = vec![0, 5, 6, 15];
    let opened: Vec<Vec<u8>> = indices.iter().map(|i| all[*i].clone()).collect();
    let proof = tree.open(&indices);
    assert!(verifier.verify(&proof, &indices, &opened));
    assert!(verifier.verify(&vec![], &vec![], &vec![]));
}

#[test]
fn flipping_any_bit_of_a_path_is_detected() {
    let all = leaves(8);
    let tree = MerkleTreeProver::new(all.clone());
    let verifier = MerkleTreeVerifier::new(8, &tree.commit());
    let indices = vec![2, 7];
    let opened: Vec<Vec<u8>> = indices.iter().map(|i| all[*i].clone()).collect();
    let proof = tree.open(&indices);
    for byte in 0..proof.len() {
        for bit in 0..8 {
            let mut bad = proof.clone();
            bad[byte] ^= 1 << bit;
            assert!(!verifier.verify(&bad, &indices, &opened));
        }
    }
}

#[test]
fn flipping_any_bit_of_a_leaf_is_detected() {
    let all = leaves(8);
    let tree = MerkleTreeProver::new(all.clone());
    let verifier = MerkleTreeVerifier::new(8, &tree.commit());
    let indices = vec![1, 4];
    let opened: Vec<Vec<u8>> = indices.iter().map(|i| all[*i].clone()).collect();
    let proof = tree.open(&indices);
    for leaf in 0..2 {
        for byte in 0..3 {
            for bit in 0..8 {
                let mut bad = opened.clone();
                bad[leaf][byte] ^= 1 << bit;
                assert!(!verifier.verify(&proof, &indices, &bad));
            }
        }
    }
}

#[test]
fn malformed_openings_are_rejected() {
    let all = leaves(8);
    let tree = MerkleTreeProver::new(all.clone());
    let root = tree.commit();
    let verifier = MerkleTreeVerifier::new(8, &root);
    let indices = vec![3];
    let opened = vec![all[3].clone()];
    let proof = tree.open(&indices);
    // a position outside the tree
    assert!(!verifier.verify(&proof, &vec![8], &opened));
    // the wrong position
    assert!(!verifier.verify(&proof, &vec![2], &opened));
    // a path too short, too long
    assert!(!verifier.verify(&proof[..proof.len() - 1].to_vec(), &indices, &opened));
    let mut long = proof.clone();
    long.push(0);
    assert!(!verifier.verify(&long, &indices, &opened));
    // leaves and positions of different number
    assert!(!verifier.verify(&proof, &indices, &vec![]));
    // another root
    let mut other = root;
    other[31] ^= 0x80;
    assert!(!MerkleTreeVerifier::new(8, &other).verify(&proof, &indices, &opened));
    // another number of leaves
    assert!(!MerkleTreeVerifier::new(16, &root).verify(&proof, &indices, &opened));
}

#[test]
fn layer_groups_siblings_in_one_leaf() {
    let values: Vec<F> = (0..4u64).map(|i| F::new(i + 1, 2 * i)).collect();
    let layer = InterpolateValue::new(values.clone());
    assert_eq!(layer.leave_num(), 2);
    let mut first = values[0].to_bytes();
    first.extend(values[2].to_bytes());
    let mut second = values[1].to_bytes();
    second.extend(values[3].to_bytes());
    assert_eq!(layer.commit(), MerkleTreeProver::new(vec![first, second]).commit());
}

#[test]
fn query_reveals_both_siblings() {
    let layer = layer(16);
    let result = layer.query(&vec![1, 6]);
    assert_eq!(result.proof_values.len(), 4);
    for (index, expected) in [(1usize, 2u64), (9, 10), (6, 7), (14, 15)] {
        assert_eq!(result.proof_values[&index].real_part(), expected);
    }
    assert_eq!(result.proof_bytes.len(), 2 * 3 * MERKLE_ROOT_SIZE);
    assert_eq!(
        result.proof_size(),
        2 * 3 * MERKLE_ROOT_SIZE + 4 * std::mem::size_of::<F>()
    );
}

#[test]
fn query_result_verifies_and_detects_changes() {
    let layer = layer(16);
    let indices = vec![0, 3, 7];
    let verifier = MerkleTreeVerifier::new(layer.leave_num(), &layer.commit());
    let result = layer.query(&indices);
    assert!(result.verify_merkle_tree(&indices, &verifier));

    for key in [0usize, 8, 3, 11, 7, 15] {
        let mut bad = layer.query(&indices);
        let old = bad.proof_values[&key];
        bad.proof_values.insert(key, old.add(F::from_int(1)));
        assert!(!bad.verify_merkle_tree(&indices, &verifier));
    }

    let mut bad = layer.query(&indices);
    bad.proof_bytes[0] ^= 1;
    assert!(!bad.verify_merkle_tree(&indices, &verifier));

    let mut missing = layer.query(&indices);
    missing.proof_values.remove(&11);
    assert!(!missing.verify_merkle_tree(&indices, &verifier));

    // other positions than those that were opened
    assert!(!result.verify_merkle_tree(&vec![0, 3], &verifier));
}
