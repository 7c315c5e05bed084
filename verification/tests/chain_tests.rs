use omnitensor_core::block::Block;
use omnitensor_core::chain::ChainStore;
use omnitensor_core::crypto::KeyPair;
use omnitensor_core::crypto::sha3_bytes;
use omnitensor_core::errors::BlockError;
use omnitensor_core::errors::ChainError;
use omnitensor_core::errors::TransactionError;
use omnitensor_core::transaction::Transaction;
use omnitensor_core::transaction::TransactionType;

fn address_of(kp: &KeyPair) -> Vec<u8> {
    sha3_bytes(kp.public_key())[12..32].to_vec()
}

fn signed_tx(kp: &KeyPair, nonce: u64) -> Transaction {
    let mut tx = Transaction::new(
        nonce,
        address_of(kp),
        vec![9u8; 20],
        1,
        1,
        1,
        vec![],
        TransactionType::Transfer,
    );
    tx.sign(kp.private_key()).unwrap();
    tx
}

fn linked_block(chain: &ChainStore, txs: Vec<Transaction>, ts: i64) -> Block {
    let prev = match chain.head() {
        Some((h, _)) => h,
        None => vec![0u8; 32],
    };
    let mut b = Block::new(prev, txs, 0, vec![0u8; 20]).unwrap();
    b.header.timestamp = ts;
    b
}

#[test]
fn test_append_and_height() {
    let mut chain = ChainStore::new();
    assert_eq!(chain.height(), 0);
    for i in 0..3 {
        let b = linked_block(&chain, vec![], i + 1);
        chain.append(b).unwrap();
    }
    assert_eq!(chain.height(), 3);
    assert!(chain.get_block(2).is_some());
    assert!(chain.get_block(3).is_none());
    let (_, h) = chain.head().unwrap();
    assert_eq!(h, 3);
}

#[test]
fn test_append_known_hash_is_noop() {
    let mut chain = ChainStore::new();
    let b = linked_block(&chain, vec![], 1);
    let copy = b.clone();
    chain.append(b).unwrap();
    assert_eq!(chain.height(), 1);
    chain.append(copy).unwrap();
    assert_eq!(chain.height(), 1);
}

#[test]
fn test_append_rejects_unknown_parent() {
    let mut chain = ChainStore::new();
    chain.append(linked_block(&chain, vec![], 1)).unwrap();
    let mut orphan = Block::new(vec![5u8; 32], vec![], 0, vec![0u8; 20]).unwrap();
    orphan.header.timestamp = 2;
    assert!(matches!(
        chain.append(orphan),
        Err(ChainError::Block(BlockError::UnknownParent))
    ));
    assert_eq!(chain.height(), 1);
}

#[test]
fn test_append_rejects_stale_timestamp() {
    let mut chain = ChainStore::new();
    chain.append(linked_block(&chain, vec![], 5)).unwrap();
    let late = linked_block(&chain, vec![], 5);
    assert!(matches!(
        chain.append(late),
        Err(ChainError::Block(BlockError::BadTimestamp))
    ));
}

#[test]
fn test_append_rejects_bad_merkle() {
    let mut chain = ChainStore::new();
    let mut b = linked_block(&chain, vec![], 1);
    b.header.merkle_root = vec![1u8; 32];
    assert!(matches!(
        chain.append(b),
        Err(ChainError::Block(BlockError::InvalidMerkleRoot))
    ));
}

#[test]
fn test_append_rejects_unsigned_transaction() {
    let mut chain = ChainStore::new();
    let tx = Transaction::new(
        0,
        vec![1u8; 20],
        vec![2u8; 20],
        1,
        1,
        1,
        vec![],
        TransactionType::Transfer,
    );
    let b = linked_block(&chain, vec![tx], 1);
    assert!(matches!(
        chain.append(b),
        Err(ChainError::Transaction(TransactionError::MissingSignature))
    ));
}

#[test]
fn test_append_rejects_wrong_sender() {
    let kp = KeyPair::from_secret(vec![1, 2, 3]);
    let mut tx = Transaction::new(
        0,
        vec![1u8; 20],  // not the key's address
        vec![2u8; 20],
        1,
        1,
        1,
        vec![],
        TransactionType::Transfer,
    );
    tx.sign(kp.private_key()).unwrap();
    let mut chain = ChainStore::new();
    let b = linked_block(&chain, vec![tx], 1);
    assert!(matches!(
        chain.append(b),
        Err(ChainError::Transaction(TransactionError::BadSignature))
    ));
}

#[test]
fn test_nonce_sequence_across_blocks() {
    // An account's committed nonces must run 0, 1, 2, ... in chain order.
    let kp = KeyPair::from_secret(vec![42]);
    let a = address_of(&kp);
    let mut chain = ChainStore::new();

    let b1 = linked_block(&chain, vec![signed_tx(&kp, 0), signed_tx(&kp, 1)], 1);
    chain.append(b1).unwrap();
    assert_eq!(chain.account_nonce(&a), 2);

    let b2 = linked_block(&chain, vec![signed_tx(&kp, 2)], 2);
    chain.append(b2).unwrap();
    assert_eq!(chain.account_nonce(&a), 3);
}

#[test]
fn test_nonce_gap_rejected_on_commit() {
    let kp = KeyPair::from_secret(vec![42]);
    let mut chain = ChainStore::new();
    let b = linked_block(&chain, vec![signed_tx(&kp, 1)], 1);
    assert!(matches!(
        chain.append(b),
        Err(ChainError::Transaction(TransactionError::BadNonce))
    ));
    assert_eq!(chain.height(), 0);
}

#[test]
fn test_coinbase_needs_no_signature() {
    let mut chain = ChainStore::new();
    let coinbase = Transaction::new(
        0,
        omnitensor_core::transaction::zero_address(),
        vec![2u8; 20],
        50,
        0,
        0,
        vec![],
        TransactionType::Transfer,
    );
    let b = linked_block(&chain, vec![coinbase], 1);
    chain.append(b).unwrap();
    assert_eq!(chain.height(), 1);
}

#[test]
fn test_parent_links() {
    let mut chain = ChainStore::new();
    chain.append(linked_block(&chain, vec![], 1)).unwrap();
    chain.append(linked_block(&chain, vec![], 2)).unwrap();
    let parent_hash = chain.get_block(0).unwrap().hash();
    let child = chain.get_block(1).unwrap();
    assert_eq!(child.header.prev_block_hash, parent_hash);
    assert!(child.header.timestamp > chain.get_block(0).unwrap().header.timestamp);
}
