use omnitensor_core::block::Block;
use omnitensor_core::consensus::ConsensusEngine;
use omnitensor_core::crypto::KeyPair;
use omnitensor_core::crypto::sha3_bytes;
use omnitensor_core::errors::BlockError;
use omnitensor_core::errors::ChainError;
use omnitensor_core::errors::ConsensusError;
use omnitensor_core::errors::TransactionError;
use omnitensor_core::stake::StakeManager;
use omnitensor_core::transaction::Transaction;
use omnitensor_core::transaction::TransactionType;

fn active_contains(engine: &ConsensusEngine, a: &Vec<u8>) -> bool {
    engine.get_active_validators().iter().any(|v| v == a)
}

#[test]
fn test_validator_registration() {
    let mut engine = ConsensusEngine::new();
    let v = vec![1u8; 20];
    engine.register_validator(v.clone(), 1000).unwrap();
    assert!(active_contains(&engine, &v));
    assert_eq!(engine.total_weight_exec(), 1000);
}

#[test]
fn test_double_vote_slashing() {
    // V1 (600) votes for two different blocks at height 1: slashed, and
    // V2's 400 alone is under two thirds of the registered 1000.
    let mut engine = ConsensusEngine::new();
    let mut sm = StakeManager::new(100, 1, 1000);
    let v1 = vec![1u8; 20];
    let v2 = vec![2u8; 20];
    sm.stake(v1.clone(), 600).unwrap();
    sm.stake(v2.clone(), 400).unwrap();
    engine.register_validator(v1.clone(), 600).unwrap();
    engine.register_validator(v2.clone(), 400).unwrap();

    let block_x = vec![0xAAu8; 32];
    let block_y = vec![0xBBu8; 32];

    assert_eq!(engine.vote(v1.clone(), 1, block_x.clone()).unwrap(), false);
    let second = engine.vote(v1.clone(), 1, block_y);
    assert!(matches!(second, Err(ConsensusError::Equivocation)));

    // The offender's stake is burned, not redistributed.
    assert_eq!(sm.slash(&v1).unwrap(), 600);
    assert_eq!(sm.get_total_staked().unwrap(), 400);

    assert!(!active_contains(&engine, &v1));
    assert!(active_contains(&engine, &v2));

    // V2 alone cannot finalize: 3 * 400 = 1200 <= 2 * 1000.
    assert_eq!(engine.vote(v2, 1, block_x.clone()).unwrap(), false);
    assert!(!engine.is_consensus_reached(1, &block_x));
}

#[test]
fn test_quorum_reached() {
    let mut engine = ConsensusEngine::new();
    for i in 0..4u8 {
        engine.register_validator(vec![i; 20], 1000).unwrap();
    }
    let h = vec![0xCCu8; 32];
    assert_eq!(engine.vote(vec![0u8; 20], 1, h.clone()).unwrap(), false);
    assert_eq!(engine.vote(vec![1u8; 20], 1, h.clone()).unwrap(), false);
    // The third vote passes two thirds: 3 * 3000 > 2 * 4000.
    assert_eq!(engine.vote(vec![2u8; 20], 1, h.clone()).unwrap(), true);
    assert!(engine.is_consensus_reached(1, &h));
}

#[test]
fn test_vote_requires_registration() {
    let mut engine = ConsensusEngine::new();
    let r = engine.vote(vec![9u8; 20], 1, vec![0u8; 32]);
    assert!(matches!(r, Err(ConsensusError::NotValidator)));
}

#[test]
fn test_repeated_same_vote_is_noop() {
    let mut engine = ConsensusEngine::new();
    let v = vec![1u8; 20];
    engine.register_validator(v.clone(), 100).unwrap();
    let h = vec![0xDDu8; 32];
    engine.vote(v.clone(), 1, h.clone()).unwrap();
    // Voting again for the same block is no equivocation and records
    // nothing new.
    let again = engine.vote(v.clone(), 1, h).unwrap();
    assert_eq!(again, true);  // 3 * 100 > 2 * 100
    assert!(active_contains(&engine, &v));
}

#[test]
fn test_fork_choice_rule() {
    // Chains A (two blocks) and B (three blocks): canonical must be B.
    let mut engine = ConsensusEngine::new();

    let mk = |prev: Vec<u8>, nonce: u64| -> Block {
        let mut b = Block::new(prev, vec![], 0, vec![0u8; 20]).unwrap();
        b.header.nonce = nonce;
        b
    };

    let a1 = mk(vec![0u8; 32], 1);
    let a2 = mk(a1.hash(), 2);
    let b1 = mk(vec![0u8; 32], 3);
    let b2 = mk(b1.hash(), 4);
    let b3 = mk(b2.hash(), 5);
    let expected = vec![b1.hash(), b2.hash(), b3.hash()];

    engine.add_block(a1).unwrap();
    engine.add_block(a2).unwrap();
    engine.add_block(b1).unwrap();
    engine.add_block(b2).unwrap();
    engine.add_block(b3).unwrap();

    let canonical = engine.get_canonical_chain().unwrap();
    assert_eq!(canonical.len(), 3);
    let got: Vec<Vec<u8>> = canonical.iter().map(|b| b.hash()).collect();
    assert_eq!(got, expected);
}

#[test]
fn test_add_block_rejects_invalid() {
    let mut engine = ConsensusEngine::new();
    let mut bad = Block::new(vec![0u8; 32], vec![], 0, vec![0u8; 20]).unwrap();
    bad.header.merkle_root = vec![9u8; 32];
    assert!(engine.add_block(bad).is_err());
}

#[test]
fn test_select_proposer_deterministic() {
    let mut engine = ConsensusEngine::new();
    assert!(engine.select_proposer(1).is_none());
    engine.register_validator(vec![1u8; 20], 600).unwrap();
    engine.register_validator(vec![2u8; 20], 400).unwrap();
    let first = engine.select_proposer(1).unwrap();
    // The choice is a registered validator and the same on every call.
    assert!(first == vec![1u8; 20] || first == vec![2u8; 20]);
    assert_eq!(engine.select_proposer(1).unwrap(), first);
}

#[test]
fn test_validate_block_checks_proposer() {
    let kp = KeyPair::from_secret(vec![11]);
    let me = sha3_bytes(kp.public_key())[12..32].to_vec();
    let mut engine = ConsensusEngine::new();
    engine.register_validator(me.clone(), 1000).unwrap();
    // With a single validator the expected proposer is always that one.
    assert_eq!(engine.select_proposer(1).unwrap(), me);

    let mut good = Block::new(vec![0u8; 32], vec![], 0, me.clone()).unwrap();
    good.sign(kp.private_key()).unwrap();
    assert!(engine.validate_block(&good, 1).is_ok());

    // The wrong proposer is refused.
    let mut wrong = Block::new(vec![0u8; 32], vec![], 0, vec![9u8; 20]).unwrap();
    wrong.sign(kp.private_key()).unwrap();
    assert!(matches!(
        engine.validate_block(&wrong, 1),
        Err(ChainError::Block(BlockError::InvalidProposer))
    ));

    // An unsigned block from the right proposer is refused.
    let unsigned = Block::new(vec![0u8; 32], vec![], 0, me).unwrap();
    assert!(matches!(
        engine.validate_block(&unsigned, 1),
        Err(ChainError::Block(BlockError::InvalidProposer))
    ));
}

#[test]
fn test_validate_block_rejects_duplicate_sender_nonce() {
    let kp = KeyPair::from_secret(vec![12]);
    let me = sha3_bytes(kp.public_key())[12..32].to_vec();
    let mut engine = ConsensusEngine::new();
    engine.register_validator(me.clone(), 1000).unwrap();

    let mk = || {
        let mut tx = Transaction::new(
            0,
            me.clone(),
            vec![9u8; 20],
            1,
            1,
            1,
            vec![],
            TransactionType::Transfer,
        );
        tx.sign(kp.private_key()).unwrap();
        tx
    };
    let mut block = Block::new(vec![0u8; 32], vec![mk(), mk()], 0, me).unwrap();
    block.sign(kp.private_key()).unwrap();
    assert!(matches!(
        engine.validate_block(&block, 1),
        Err(ChainError::Transaction(TransactionError::BadNonce))
    ));
}

#[test]
fn test_proposal_equivocation_slashes() {
    let mut engine = ConsensusEngine::new();
    let mut sm = StakeManager::new(100, 1, 1000);
    let v = vec![5u8; 20];
    sm.stake(v.clone(), 700).unwrap();
    engine.register_validator(v.clone(), 700).unwrap();

    engine.record_proposal(v.clone(), 1, vec![0xAA; 32]).unwrap();
    // Re-announcing the same block is a no-op.
    engine.record_proposal(v.clone(), 1, vec![0xAA; 32]).unwrap();
    // A second distinct block at the same height is equivocation.
    let r = engine.record_proposal(v.clone(), 1, vec![0xBB; 32]);
    assert!(matches!(r, Err(ConsensusError::Equivocation)));
    assert!(!active_contains(&engine, &v));
    assert_eq!(sm.slash(&v).unwrap(), 700);
}
