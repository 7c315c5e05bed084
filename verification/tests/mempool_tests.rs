use omnitensor_core::block::Block;
use omnitensor_core::crypto::KeyPair;
use omnitensor_core::crypto::sha3_bytes;
use omnitensor_core::errors::TransactionError;
use omnitensor_core::mempool::Mempool;
use omnitensor_core::transaction::Transaction;
use omnitensor_core::transaction::TransactionType;

fn address_of(kp: &KeyPair) -> Vec<u8> {
    sha3_bytes(kp.public_key())[12..32].to_vec()
}

fn signed_tx_priced(kp: &KeyPair, nonce: u64, gas_price: u64) -> Transaction {
    let mut tx = Transaction::new(
        nonce,
        address_of(kp),
        vec![9u8; 20],
        1,
        gas_price,
        1,
        vec![],
        TransactionType::Transfer,
    );
    tx.sign(kp.private_key()).unwrap();
    tx
}

#[test]
fn test_nonce_gap_rejection() {
    // The account's last committed nonce is 5, so the chain expects 6
    // next.  A transaction with nonce 7 is accepted as a future
    // transaction but drain skips it until nonce 6 appears, then returns
    // both in order.
    let kp = KeyPair::from_secret(vec![1]);
    let a = address_of(&kp);
    let base = vec![(a.clone(), 6u64)];

    let mut pool = Mempool::new(16);
    assert_eq!(pool.submit(signed_tx_priced(&kp, 7, 10), 6).unwrap(), true);

    let drained = pool.drain(10, &base);
    assert!(drained.is_empty());
    assert_eq!(pool.len(), 1);

    assert_eq!(pool.submit(signed_tx_priced(&kp, 6, 10), 6).unwrap(), true);
    let drained = pool.drain(10, &base);
    assert_eq!(drained.len(), 2);
    assert_eq!(drained[0].nonce, 6);
    assert_eq!(drained[1].nonce, 7);
    assert_eq!(pool.len(), 0);
}

#[test]
fn test_submit_idempotent() {
    let kp = KeyPair::from_secret(vec![2]);
    let mut pool = Mempool::new(16);
    let tx = signed_tx_priced(&kp, 0, 1);
    assert_eq!(pool.submit(tx.clone(), 0).unwrap(), true);
    assert_eq!(pool.submit(tx, 0).unwrap(), false);
    assert_eq!(pool.len(), 1);
}

#[test]
fn test_submit_rejects_past_nonce() {
    let kp = KeyPair::from_secret(vec![3]);
    let mut pool = Mempool::new(16);
    let tx = signed_tx_priced(&kp, 1, 1);
    assert!(matches!(pool.submit(tx, 5), Err(TransactionError::BadNonce)));
    assert_eq!(pool.len(), 0);
}

#[test]
fn test_submit_rejects_missing_signature() {
    let mut pool = Mempool::new(16);
    let tx = Transaction::new(
        0,
        vec![1u8; 20],
        vec![2u8; 20],
        1,
        1,
        1,
        vec![],
        TransactionType::Transfer,
    );
    assert!(matches!(pool.submit(tx, 0), Err(TransactionError::MissingSignature)));
}

#[test]
fn test_submit_rejects_tampered_signature() {
    let kp = KeyPair::from_secret(vec![4]);
    let mut tx = signed_tx_priced(&kp, 0, 1);
    tx.value += 1;
    let mut pool = Mempool::new(16);
    assert!(matches!(pool.submit(tx, 0), Err(TransactionError::BadSignature)));
}

#[test]
fn test_capacity_eviction_by_gas_price() {
    let kp = KeyPair::from_secret(vec![5]);
    let other = KeyPair::from_secret(vec![6]);
    let mut pool = Mempool::new(1);
    assert_eq!(pool.submit(signed_tx_priced(&kp, 0, 1), 0).unwrap(), true);
    // A better-paying transaction evicts the cheapest entry.
    assert_eq!(pool.submit(signed_tx_priced(&other, 0, 9), 0).unwrap(), true);
    assert_eq!(pool.len(), 1);
    assert_eq!(pool.entries[0].1.gas_price, 9);
    // A worse-paying one is turned away.
    assert_eq!(pool.submit(signed_tx_priced(&kp, 0, 2), 0).unwrap(), false);
    assert_eq!(pool.entries[0].1.gas_price, 9);
}

#[test]
fn test_drain_prefers_higher_gas_price() {
    let kp1 = KeyPair::from_secret(vec![7]);
    let kp2 = KeyPair::from_secret(vec![8]);
    let mut pool = Mempool::new(16);
    pool.submit(signed_tx_priced(&kp1, 0, 1), 0).unwrap();
    pool.submit(signed_tx_priced(&kp2, 0, 50), 0).unwrap();
    let base: Vec<(Vec<u8>, u64)> = vec![];
    let drained = pool.drain(10, &base);
    assert_eq!(drained.len(), 2);
    assert_eq!(drained[0].gas_price, 50);
    assert_eq!(drained[1].gas_price, 1);
}

#[test]
fn test_remove_included() {
    let kp1 = KeyPair::from_secret(vec![9]);
    let kp2 = KeyPair::from_secret(vec![10]);
    let mut pool = Mempool::new(16);
    let included = signed_tx_priced(&kp1, 0, 1);
    let pending = signed_tx_priced(&kp2, 0, 1);
    pool.submit(included.clone(), 0).unwrap();
    pool.submit(pending, 0).unwrap();

    let block = Block::new(vec![0u8; 32], vec![included], 0, vec![0u8; 20]).unwrap();
    pool.remove_included(&block);
    assert_eq!(pool.len(), 1);
    assert_eq!(pool.entries[0].1.from, address_of(&kp2));
}
