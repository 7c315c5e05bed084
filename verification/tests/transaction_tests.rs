use omnitensor_core::crypto::KeyPair;
use omnitensor_core::transaction::Transaction;
use omnitensor_core::transaction::TransactionType;
use omnitensor_core::transaction::decode_tx;
use omnitensor_core::transaction::encode_tx;
use omnitensor_core::transaction::zero_address;

#[test]
fn test_transaction_signing_and_verification() {
    let key_pair = KeyPair::generate();
    let mut tx = Transaction::new(
        0,
        vec![1u8; 20],
        vec![2u8; 20],
        100,
        10,
        21000,
        vec![],
        TransactionType::Transfer,
    );

    tx.sign(key_pair.private_key()).unwrap();
    assert!(tx.verify(key_pair.public_key()).unwrap());

    // Tamper with the transaction
    tx.value += 1;
    assert!(!tx.verify(key_pair.public_key()).unwrap());
}

#[test]
fn test_transaction_hash() {
    let tx = Transaction::new(
        0,
        vec![1u8; 20],
        vec![2u8; 20],
        100,
        10,
        21000,
        vec![],
        TransactionType::Transfer,
    );

    let hash1 = tx.hash().unwrap();
    let hash2 = tx.hash().unwrap();
    assert_eq!(hash1, hash2);

    let mut tx2 = tx.clone();
    tx2.nonce += 1;
    assert_ne!(tx.hash().unwrap(), tx2.hash().unwrap());
}

#[test]
fn test_coinbase_transaction() {
    let coinbase_tx = Transaction::new(
        0,
        zero_address(),
        vec![2u8; 20],
        100,
        0,
        0,
        vec![],
        TransactionType::Transfer,
    );
    assert!(coinbase_tx.is_coinbase());

    let regular_tx = Transaction::new(
        0,
        vec![1u8; 20],
        vec![2u8; 20],
        100,
        10,
        21000,
        vec![],
        TransactionType::Transfer,
    );
    assert!(!regular_tx.is_coinbase());
}

#[test]
fn test_transaction_encoding_round_trip() {
    let mut tx = Transaction::new(
        42,
        vec![1u8; 20],
        vec![2u8; 20],
        123456789012345678901234567890u128,
        7,
        21000,
        vec![1, 2, 3, 4, 5],
        TransactionType::StakeDeposit,
    );
    tx.sign(&[9u8; 8]).unwrap();

    let bytes = encode_tx(&tx);
    let back = decode_tx(&bytes).unwrap();
    assert_eq!(back.nonce, tx.nonce);
    assert_eq!(back.from, tx.from);
    assert_eq!(back.to, tx.to);
    assert_eq!(back.value, tx.value);
    assert_eq!(back.gas_price, tx.gas_price);
    assert_eq!(back.gas_limit, tx.gas_limit);
    assert_eq!(back.data, tx.data);
    assert_eq!(back.timestamp, tx.timestamp);
    assert_eq!(back.signature, tx.signature);
}

#[test]
fn test_transaction_hash_ignores_signature() {
    let mut tx = Transaction::new(
        1,
        vec![1u8; 20],
        vec![2u8; 20],
        5,
        1,
        1,
        vec![],
        TransactionType::Transfer,
    );
    let before = tx.hash().unwrap();
    tx.sign(&[3u8; 4]).unwrap();
    let after = tx.hash().unwrap();
    assert_eq!(before, after);
}

#[test]
fn test_decode_tx_rejects_garbage() {
    assert!(decode_tx(&[]).is_none());
    assert!(decode_tx(&vec![0u8; 50]).is_none());
    let tx = Transaction::new(
        0,
        vec![1u8; 20],
        vec![2u8; 20],
        0,
        0,
        0,
        vec![],
        TransactionType::Transfer,
    );
    let mut bytes = encode_tx(&tx);
    bytes[80] = 200;  // not a transaction kind
    assert!(decode_tx(&bytes).is_none());
}

#[test]
fn test_gas_cost() {
    let tx = Transaction::new(
        0,
        vec![1u8; 20],
        vec![2u8; 20],
        0,
        10,
        21000,
        vec![],
        TransactionType::Transfer,
    );
    assert_eq!(tx.gas_cost(), 210000);
}

#[test]
fn test_verify_missing_signature() {
    let tx = Transaction::new(
        0,
        vec![1u8; 20],
        vec![2u8; 20],
        0,
        0,
        0,
        vec![],
        TransactionType::Transfer,
    );
    let kp = KeyPair::generate();
    assert!(matches!(
        tx.verify(kp.public_key()),
        Err(omnitensor_core::errors::TransactionError::MissingSignature)
    ));
}
