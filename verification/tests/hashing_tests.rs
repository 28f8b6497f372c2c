use merkle_tree::hash_to_str;
use merkle_tree::Inputs;
use merkle_tree::MerkleTree;
use merkle_tree::Transaction;

fn sha3(data: &[u8]) -> Vec<u8> {
    let mut hasher = crypto::sha3::Sha3::sha3_256();
    crypto::digest::Digest::input(&mut hasher, data);
    let mut out = vec![0u8; 32];
    crypto::digest::Digest::result(&mut hasher, &mut out);
    out
}

#[test]
fn hash_to_str_of_empty_input() {
    // the SHA3-256 digest of no bytes, in hexadecimal
    assert_eq!(
        hash_to_str(&[]),
        "a7ffc6f8bf1ed76651c14756a061d662f580ff4de43b49fa82d80a4b80f8434a"
    );
}

#[test]
fn hash_to_str_matches_hex_of_digest() {
    let data = b"merkle".to_vec();
    assert_eq!(hash_to_str(&data), hex::encode(sha3(&data)));
}

#[test]
fn root_hash_is_a_digest_not_the_block() {
    // the stored leaf is the block's digest, never the block itself
    let blocks = vec![b"plain".to_vec()];
    let tree = MerkleTree::construct(&blocks).unwrap();
    assert_ne!(tree.root_hash(), blocks[0]);
    assert_eq!(tree.root_hash().len(), 32);
}

#[test]
fn merkle_root_text_is_hex_of_root_digest() {
    let blocks = vec![b"A".to_vec(), b"B".to_vec()];
    let root = MerkleTree::mekle_tree_return(blocks.clone());
    let tree = MerkleTree::construct(&blocks).unwrap();
    assert_eq!(root.hash, hex::encode(sha3(&tree.root_hash())));
    assert_eq!(root.hash, tree.merkle_root.hash);
}

#[test]
fn set_transaction_fills_fixed_fields() {
    let inputs = Inputs {
        transaction_hash: "h".to_string(),
        unlocking_script_size: "1".to_string(),
        unlocking_script: "u".to_string(),
        sequence_number: "7".to_string(),
    };
    let tx = Transaction::set_transaction(inputs);
    assert_eq!(tx.version, 1);
    assert_eq!(tx.flag, "flag");
    assert_eq!(tx.number_of_inputs, 1);
    assert_eq!(tx.inputs.transaction_hash, "h");
    assert_eq!(tx.inputs.sequence_number, "7");
    assert_eq!(tx.number_of_outputs, 1);
    assert_eq!(tx.outputs.anount, "amount");
    assert_eq!(tx.outputs.locking_script_size, "locking_script_size");
    assert_eq!(tx.outputs.lockking_script, "lockking_script");
    assert_eq!(tx.witnesses, "1");
    assert_eq!(tx.locktime, "1");
}
