use omnitensor_core::block::Block;
use omnitensor_core::chain::ChainStore;
use omnitensor_core::stake::StakeManager;
use omnitensor_core::stake::StakeManagerError;

#[test]
fn test_stake_and_unstake() {
    let mut stake_manager = StakeManager::new(100, 1, 1000);

    let address = vec![7u8; 20];

    // Test staking
    stake_manager.stake(address.clone(), 500).unwrap();
    assert_eq!(stake_manager.get_total_staked().unwrap(), 500);

    // Test unstaking
    let unstaked = stake_manager.unstake(address, 200).unwrap();
    assert_eq!(unstaked, 200);
    assert_eq!(stake_manager.get_total_staked().unwrap(), 300);
}

#[test]
fn test_rewards_calculation() {
    let mut stake_manager = StakeManager::new(100, 1, 1000);

    let address = vec![8u8; 20];
    stake_manager.stake(address.clone(), 1000).unwrap();

    let reward = stake_manager.calculate_rewards(&address, 100).unwrap();
    assert_eq!(reward, 100);  // 1000 * (1/1000) * 100 = 100

    stake_manager.distribute_rewards(100).unwrap();
    assert_eq!(stake_manager.get_total_staked().unwrap(), 1100);
}

#[test]
fn test_fresh_chain_single_validator() {
    // Stake 500 with min_stake 100; commit one empty block; a reward rate
    // of 1/1000 credits 0 at height 1, a rate of 1/10 credits 50.
    let mut sm = StakeManager::new(100, 1, 1000);
    let a = vec![0xAAu8; 20];
    sm.stake(a.clone(), 500).unwrap();
    assert_eq!(sm.get_total_staked().unwrap(), 500);

    let mut chain = ChainStore::new();
    let block = Block::new(vec![0u8; 32], vec![], 0, vec![0xAAu8; 20]).unwrap();
    chain.append(block).unwrap();
    assert_eq!(chain.height(), 1);

    sm.distribute_rewards(1).unwrap();
    assert_eq!(sm.get_total_staked().unwrap(), 500);

    let mut sm2 = StakeManager::new(100, 1, 10);
    sm2.stake(a, 500).unwrap();
    sm2.distribute_rewards(1).unwrap();
    assert_eq!(sm2.get_total_staked().unwrap(), 550);
}

#[test]
fn test_distribute_rewards_twice_same_height() {
    let mut sm = StakeManager::new(100, 1, 10);
    sm.stake(vec![3u8; 20], 1000).unwrap();
    sm.distribute_rewards(5).unwrap();
    let after_first = sm.get_total_staked().unwrap();
    sm.distribute_rewards(5).unwrap();
    assert_eq!(sm.get_total_staked().unwrap(), after_first);
}

#[test]
fn test_stake_below_minimum_rejected() {
    let mut sm = StakeManager::new(100, 1, 1000);
    assert!(matches!(
        sm.stake(vec![1u8; 20], 99),
        Err(StakeManagerError::InsufficientBalance)
    ));
    assert_eq!(sm.get_total_staked().unwrap(), 0);
}

#[test]
fn test_unstake_unknown_address() {
    let mut sm = StakeManager::new(100, 1, 1000);
    assert!(matches!(
        sm.unstake(vec![1u8; 20], 10),
        Err(StakeManagerError::StakeNotFound)
    ));
}

#[test]
fn test_unstake_more_than_staked() {
    let mut sm = StakeManager::new(100, 1, 1000);
    sm.stake(vec![1u8; 20], 200).unwrap();
    assert!(matches!(
        sm.unstake(vec![1u8; 20], 300),
        Err(StakeManagerError::InsufficientBalance)
    ));
    assert_eq!(sm.get_total_staked().unwrap(), 200);
}

#[test]
fn test_unstake_to_zero_removes_entry() {
    let mut sm = StakeManager::new(100, 1, 1000);
    sm.stake(vec![1u8; 20], 200).unwrap();
    assert_eq!(sm.unstake(vec![1u8; 20], 200).unwrap(), 200);
    assert_eq!(sm.get_total_staked().unwrap(), 0);
    assert!(matches!(
        sm.unstake(vec![1u8; 20], 1),
        Err(StakeManagerError::StakeNotFound)
    ));
}

#[test]
fn test_stake_accumulates_and_keeps_first_deposit() {
    let mut sm = StakeManager::new(100, 1, 1000);
    let a = vec![2u8; 20];
    sm.stake(a.clone(), 150).unwrap();
    let first = sm.get_stakes()[0].1;
    sm.stake(a, 100).unwrap();
    let entries = sm.get_stakes();
    assert_eq!(entries.len(), 1);
    assert_eq!(entries[0].1.amount, 250);
    assert_eq!(entries[0].1.staked_at, first.staked_at);
}

#[test]
fn test_slash_burns_stake() {
    let mut sm = StakeManager::new(100, 1, 1000);
    sm.stake(vec![1u8; 20], 600).unwrap();
    sm.stake(vec![2u8; 20], 400).unwrap();
    assert_eq!(sm.slash(&vec![1u8; 20]).unwrap(), 600);
    assert_eq!(sm.get_total_staked().unwrap(), 400);
    assert!(matches!(
        sm.slash(&vec![1u8; 20]),
        Err(StakeManagerError::StakeNotFound)
    ));
}
