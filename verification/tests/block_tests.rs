use omnitensor_core::block::Block;
use omnitensor_core::transaction::Transaction;
use omnitensor_core::transaction::TransactionType;
use sha3::Digest;

#[test]
fn test_new_block() {
    let prev_block_hash = vec![0u8; 32];
    let transactions = vec![Transaction::new(
        0,
        vec![0, 1, 2],
        vec![3, 4, 5],
        0,
        0,
        0,
        vec![],
        TransactionType::Transfer,
    )];
    let difficulty = 1;

    let block = Block::new(prev_block_hash.clone(), transactions, difficulty, vec![7u8; 20]).unwrap();

    assert_eq!(block.header.version, 1);
    assert_eq!(block.header.prev_block_hash, prev_block_hash);
    assert_eq!(block.header.difficulty, difficulty);
    assert_eq!(block.header.proposer, vec![7u8; 20]);
    assert_eq!(block.transactions.len(), 1);
}

#[test]
fn test_mine_block() {
    let mut block = Block::new(vec![0u8; 32], vec![], 1, vec![0u8; 20]).unwrap();
    let pow = block.mine().unwrap();
    assert!(pow.is_valid(block.header.difficulty));
}

#[test]
fn test_validate_block() {
    let mut block = Block::new(vec![0u8; 32], vec![], 1, vec![0u8; 20]).unwrap();
    block.mine().unwrap();
    assert!(block.validate().is_ok());

    // Tamper with the block
    block.header.merkle_root = vec![1u8; 32];
    assert!(block.validate().is_err());
}

#[test]
fn test_empty_block_merkle_root_is_zero() {
    let block = Block::new(vec![0u8; 32], vec![], 0, vec![0u8; 20]).unwrap();
    assert_eq!(block.header.merkle_root, vec![0u8; 32]);
}

#[test]
fn test_merkle_root_three_transactions() {
    // Three transactions: root must be H(H(h1 || h2) || H(h3 || h3)).
    let mk = |n: u64| {
        Transaction::new(
            n,
            vec![1u8; 20],
            vec![2u8; 20],
            5,
            1,
            1,
            vec![],
            TransactionType::Transfer,
        )
    };
    let t1 = mk(0);
    let t2 = mk(1);
    let t3 = mk(2);
    let h1 = t1.hash().unwrap();
    let h2 = t2.hash().unwrap();
    let h3 = t3.hash().unwrap();

    let pair = |a: &Vec<u8>, b: &Vec<u8>| -> Vec<u8> {
        let mut buf = a.clone();
        buf.extend_from_slice(b);
        sha3::Sha3_256::digest(&buf).to_vec()
    };
    let left = pair(&h1, &h2);
    let right = pair(&h3, &h3);
    let expected_root = pair(&left, &right);

    let block = Block::new(vec![0u8; 32], vec![t1, t2, t3], 0, vec![0u8; 20]).unwrap();
    assert_eq!(block.header.merkle_root, expected_root);

    // Altering any transaction changes the root.
    let mut t1b = mk(0);
    t1b.value = 6;
    let t2b = mk(1);
    let t3b = mk(2);
    let altered = Block::new(vec![0u8; 32], vec![t1b, t2b, t3b], 0, vec![0u8; 20]).unwrap();
    assert_ne!(altered.header.merkle_root, expected_root);
}

#[test]
fn test_block_encoding_round_trip() {
    let mut tx = Transaction::new(
        3,
        vec![1u8; 20],
        vec![2u8; 20],
        77,
        9,
        21000,
        vec![0xde, 0xad],
        TransactionType::AIModelInvoke,
    );
    tx.sign(&[5u8; 16]).unwrap();
    let mut block = Block::new(vec![7u8; 32], vec![tx], 0, vec![3u8; 20]).unwrap();
    block.sign(&[5u8; 16]).unwrap();
    let bytes = omnitensor_core::block::encode_block(&block);
    let back = omnitensor_core::block::decode_block(&bytes).unwrap();
    assert_eq!(back.header.prev_block_hash, block.header.prev_block_hash);
    assert_eq!(back.header.merkle_root, block.header.merkle_root);
    assert_eq!(back.header.timestamp, block.header.timestamp);
    assert_eq!(back.transactions.len(), 1);
    assert_eq!(back.transactions[0].nonce, 3);
    assert_eq!(back.transactions[0].data, vec![0xde, 0xad]);
    assert_eq!(back.transactions[0].signature, block.transactions[0].signature);
    assert_eq!(back.header.proposer, vec![3u8; 20]);
    assert_eq!(back.signature, block.signature);
}

#[test]
fn test_block_hash_depends_only_on_header() {
    let b1 = Block::new(vec![0u8; 32], vec![], 0, vec![0u8; 20]).unwrap();
    let mut b2 = b1.clone();
    // Swapping the transaction list leaves the hash alone as long as the
    // header (merkle root included) is unchanged.
    b2.transactions = vec![];
    assert_eq!(b1.hash(), b2.hash());
    // Changing a header field changes the hash.
    b2.header.nonce = 1;
    assert_ne!(b1.hash(), b2.hash());
}

#[test]
fn test_decode_block_rejects_truncated() {
    let block = Block::new(vec![0u8; 32], vec![], 0, vec![0u8; 20]).unwrap();
    let mut bytes = omnitensor_core::block::encode_block(&block);
    bytes.pop();
    assert!(omnitensor_core::block::decode_block(&bytes).is_none());
}

#[test]
fn test_new_block_rejects_oversized() {
    let mk = |n: u64| {
        Transaction::new(
            n,
            vec![1u8; 20],
            vec![2u8; 20],
            0,
            0,
            0,
            vec![],
            TransactionType::Transfer,
        )
    };
    let txs: Vec<_> = (0..1001).map(mk).collect();
    let r = Block::new(vec![0u8; 32], txs, 0, vec![0u8; 20]);
    assert!(matches!(r, Err(omnitensor_core::errors::BlockError::TooManyTransactions)));
}
