use merkle_tree::HashDirection;
use merkle_tree::MerkleError;
use merkle_tree::MerkleTree;

fn sha3(data: &[u8]) -> Vec<u8> {
    let mut hasher = crypto::sha3::Sha3::sha3_256();
    crypto::digest::Digest::input(&mut hasher, data);
    let mut out = vec![0u8; 32];
    crypto::digest::Digest::result(&mut hasher, &mut out);
    out
}

fn sha3_pair(left: &[u8], right: &[u8]) -> Vec<u8> {
    let mut combined = left.to_vec();
    combined.extend_from_slice(right);
    sha3(&combined)
}

fn blocks_of(strs: &[&str]) -> Vec<Vec<u8>> {
    strs.iter().map(|s| s.as_bytes().to_vec()).collect()
}

#[test]
fn test2() {
    assert!(1 == 1);
}

#[test]
fn test3() {
    assert!(1 == 1);
}

#[test]
fn num_leaves_matches_block_count() {
    for count in [1usize, 2, 4, 8, 16] {
        let blocks: Vec<Vec<u8>> = (0..count).map(|i| vec![i as u8]).collect();
        let tree = MerkleTree::construct(&blocks).unwrap();
        assert_eq!(tree.num_leaves(), count);
    }
}

#[test]
fn construct_rejects_bad_leaf_counts() {
    for count in [0usize, 3, 5, 6, 7, 9, 12] {
        let blocks: Vec<Vec<u8>> = (0..count).map(|i| vec![i as u8]).collect();
        match MerkleTree::construct(&blocks) {
            Err(e) => assert_eq!(e, MerkleError::InvalidLeafCount),
            Ok(_) => panic!("a count of {} must be rejected", count),
        }
    }
}

#[test]
fn two_leaf_scenario() {
    let blocks = blocks_of(&["A", "B"]);
    let tree = MerkleTree::construct(&blocks).unwrap();
    assert_eq!(tree.levels, 2);
    assert_eq!(tree.nodes.len(), 3);
    let expected_root = sha3_pair(&sha3(b"A"), &sha3(b"B"));
    assert_eq!(tree.root_hash(), expected_root);

    let proof0 = tree.get_merkle_proof_by_index(0).unwrap();
    assert_eq!(proof0.hashes.len(), 1);
    assert_eq!(proof0.hashes[0].0, HashDirection::Right);
    assert_eq!(proof0.hashes[0].1, sha3(b"B"));

    let proof1 = tree.get_merkle_proof_by_index(1).unwrap();
    assert_eq!(proof1.hashes.len(), 1);
    assert_eq!(proof1.hashes[0].0, HashDirection::Left);
    assert_eq!(proof1.hashes[0].1, sha3(b"A"));
}

#[test]
fn four_leaf_scenario() {
    let blocks = blocks_of(&["A", "B", "C", "D"]);
    let tree = MerkleTree::construct(&blocks).unwrap();
    assert_eq!(tree.levels, 3);
    assert_eq!(tree.nodes.len(), 7);

    let proof2 = tree.get_merkle_proof_by_index(2).unwrap();
    assert_eq!(proof2.hashes.len(), 2);
    assert_eq!(proof2.hashes[0].0, HashDirection::Right);
    assert_eq!(proof2.hashes[0].1, sha3(b"D"));
    assert_eq!(proof2.hashes[1].0, HashDirection::Left);
    assert_eq!(proof2.hashes[1].1, sha3_pair(&sha3(b"A"), &sha3(b"B")));

    let expected_root = sha3_pair(
        &sha3_pair(&sha3(b"A"), &sha3(b"B")),
        &sha3_pair(&sha3(b"C"), &sha3(b"D")),
    );
    assert_eq!(tree.root_hash(), expected_root);
}

#[test]
fn every_leaf_proof_verifies() {
    let blocks = blocks_of(&["A", "B", "C", "D", "E", "F", "G", "H"]);
    let tree = MerkleTree::construct(&blocks).unwrap();
    let root = tree.root_hash();
    for (i, block) in blocks.iter().enumerate() {
        let proof = tree.get_merkle_proof_by_index(i).unwrap();
        assert!(merkle_tree::verify_merkle_proof(&proof, block, &root));
    }
}

#[test]
fn tampered_proof_fails() {
    let blocks = blocks_of(&["A", "B", "C", "D"]);
    let tree = MerkleTree::construct(&blocks).unwrap();
    let root = tree.root_hash();
    let mut proof = tree.get_merkle_proof_by_index(1).unwrap();
    assert!(merkle_tree::verify_merkle_proof(&proof, &blocks[1], &root));
    // a proof replayed against the wrong block fails
    assert!(!merkle_tree::verify_merkle_proof(&proof, &blocks[2], &root));
    // a proof with one side flipped fails
    assert_eq!(proof.hashes[0].0, HashDirection::Left);
    proof.hashes[0].0 = HashDirection::Right;
    assert!(!merkle_tree::verify_merkle_proof(&proof, &blocks[1], &root));
}

#[test]
fn proof_beyond_leaf_range_fails() {
    let blocks = blocks_of(&["A", "B", "C", "D"]);
    let tree = MerkleTree::construct(&blocks).unwrap();
    let out_of_range = tree.num_leaves();
    match tree.get_merkle_proof_by_index(out_of_range) {
        Err(e) => assert_eq!(e, MerkleError::IndexIsNotALeaf),
        Ok(_) => panic!("an index at num_leaves() must be rejected"),
    }
}

#[test]
fn proof_by_absent_data_fails() {
    let blocks = blocks_of(&["A", "B", "C", "D"]);
    let tree = MerkleTree::construct(&blocks).unwrap();
    match tree.get_merkle_proof_by_data(&b"Z".to_vec()) {
        Err(e) => assert_eq!(e, MerkleError::CantFindDataInMerkleTree),
        Ok(_) => panic!("absent data must be rejected"),
    }
}

#[test]
fn proof_by_data_finds_first_occurrence() {
    let blocks = blocks_of(&["A", "B", "A", "D"]);
    let tree = MerkleTree::construct(&blocks).unwrap();
    let by_data = tree.get_merkle_proof_by_data(&b"A".to_vec()).unwrap();
    let by_index0 = tree.get_merkle_proof_by_index(0).unwrap();
    let by_index2 = tree.get_merkle_proof_by_index(2).unwrap();
    assert_eq!(by_data.hashes, by_index0.hashes);
    assert_ne!(by_data.hashes, by_index2.hashes);
}

#[test]
fn proof_by_data_verifies() {
    let blocks = blocks_of(&["A", "B", "C", "D"]);
    let tree = MerkleTree::construct(&blocks).unwrap();
    let root = tree.root_hash();
    let proof = tree.get_merkle_proof_by_data(&blocks[3]).unwrap();
    assert!(merkle_tree::verify_merkle_proof(&proof, &blocks[3], &root));
}

#[test]
fn rebuild_check_accepts_own_root_only() {
    let blocks = blocks_of(&["A", "B", "C", "D"]);
    let tree = MerkleTree::construct(&blocks).unwrap();
    let root = tree.root_hash();
    assert!(MerkleTree::verify(&blocks, &root));
    let other = sha3(b"something else");
    assert!(!MerkleTree::verify(&blocks, &other));
    // a non-power-of-two block count never verifies
    let odd_blocks = blocks_of(&["A", "B", "C"]);
    assert!(!MerkleTree::verify(&odd_blocks, &root));
}

#[test]
fn single_block_tree() {
    let blocks = blocks_of(&["only"]);
    let tree = MerkleTree::construct(&blocks).unwrap();
    assert_eq!(tree.levels, 1);
    assert_eq!(tree.nodes.len(), 1);
    assert_eq!(tree.num_leaves(), 1);
    assert_eq!(tree.root_hash(), sha3(b"only"));
    let proof = tree.get_merkle_proof_by_index(0).unwrap();
    assert_eq!(proof.hashes.len(), 0);
    assert!(merkle_tree::verify_merkle_proof(&proof, &blocks[0], &tree.root_hash()));
}

#[test]
fn empty_block_hashes_cleanly() {
    let blocks = vec![Vec::new(), b"x".to_vec()];
    let tree = MerkleTree::construct(&blocks).unwrap();
    assert_eq!(tree.root_hash(), sha3_pair(&sha3(b""), &sha3(b"x")));
}
