use omnitensor_core::block::Block;
use omnitensor_core::transaction::Transaction;
use omnitensor_core::transaction::TransactionType;
use omnitensor_core::wire::Message;
use omnitensor_core::wire::decode_message;
use omnitensor_core::wire::encode_message;

fn sample_tx(nonce: u64) -> Transaction {
    let mut tx = Transaction::new(
        nonce,
        vec![1u8; 20],
        vec![2u8; 20],
        9,
        3,
        21000,
        vec![0xab],
        TransactionType::Transfer,
    );
    tx.sign(&[7u8; 8]).unwrap();
    tx
}

#[test]
fn test_new_transaction_round_trip() {
    let frame = encode_message(&Message::NewTransaction(sample_tx(4)));
    match decode_message(&frame) {
        Some(Message::NewTransaction(t)) => assert_eq!(t.nonce, 4),
        _ => panic!("wrong message kind"),
    }
}

#[test]
fn test_new_block_round_trip() {
    let block = Block::new(vec![0u8; 32], vec![sample_tx(0)], 0, vec![4u8; 20]).unwrap();
    let frame = encode_message(&Message::NewBlock(block));
    match decode_message(&frame) {
        Some(Message::NewBlock(b)) => assert_eq!(b.transactions.len(), 1),
        _ => panic!("wrong message kind"),
    }
}

#[test]
fn test_vote_round_trip() {
    let msg = Message::Vote {
        height: 7,
        block_hash: vec![0xAA; 32],
        voter: vec![0xBB; 20],
        signature: vec![0xCC; 64],
    };
    let frame = encode_message(&msg);
    match decode_message(&frame) {
        Some(Message::Vote { height, block_hash, voter, signature }) => {
            assert_eq!(height, 7);
            assert_eq!(block_hash, vec![0xAA; 32]);
            assert_eq!(voter, vec![0xBB; 20]);
            assert_eq!(signature, vec![0xCC; 64]);
        },
        _ => panic!("wrong message kind"),
    }
}

#[test]
fn test_headers_round_trip() {
    let b1 = Block::new(vec![0u8; 32], vec![], 0, vec![4u8; 20]).unwrap();
    let b2 = Block::new(b1.hash(), vec![], 0, vec![4u8; 20]).unwrap();
    let msg = Message::Headers(vec![b1.header, b2.header]);
    let frame = encode_message(&msg);
    match decode_message(&frame) {
        Some(Message::Headers(hs)) => {
            assert_eq!(hs.len(), 2);
            assert_eq!(hs[1].prev_block_hash.len(), 32);
        },
        _ => panic!("wrong message kind"),
    }
}

#[test]
fn test_body_and_height_round_trip() {
    let msg = Message::Body(vec![sample_tx(0), sample_tx(1)]);
    let frame = encode_message(&msg);
    match decode_message(&frame) {
        Some(Message::Body(txs)) => {
            assert_eq!(txs.len(), 2);
            assert_eq!(txs[1].nonce, 1);
        },
        _ => panic!("wrong message kind"),
    }

    let msg = Message::Height { value: 42, head_hash: vec![5u8; 32] };
    let frame = encode_message(&msg);
    match decode_message(&frame) {
        Some(Message::Height { value, head_hash }) => {
            assert_eq!(value, 42);
            assert_eq!(head_hash, vec![5u8; 32]);
        },
        _ => panic!("wrong message kind"),
    }
}

#[test]
fn test_get_messages_round_trip() {
    let frame = encode_message(&Message::GetHeaders { from: 1, to: 100 });
    assert!(matches!(
        decode_message(&frame),
        Some(Message::GetHeaders { from: 1, to: 100 })
    ));

    let frame = encode_message(&Message::GetBody { block_hash: vec![3u8; 32] });
    assert!(matches!(decode_message(&frame), Some(Message::GetBody { .. })));

    let frame = encode_message(&Message::GetHeight);
    assert!(matches!(decode_message(&frame), Some(Message::GetHeight)));
}

#[test]
fn test_malformed_frames_rejected() {
    assert!(decode_message(&[]).is_none());
    assert!(decode_message(&[99]).is_none());
    // A Vote frame cut short.
    let msg = Message::Vote {
        height: 7,
        block_hash: vec![0xAA; 32],
        voter: vec![0xBB; 20],
        signature: vec![0xCC; 64],
    };
    let mut frame = encode_message(&msg);
    frame.pop();
    assert!(decode_message(&frame).is_none());
}
