use omnitensor_core::block::Block;
use omnitensor_core::chain::ChainStore;
use omnitensor_core::sync::apply_chunk;
use omnitensor_core::sync::next_chunk;
use omnitensor_core::sync::select_peer;

/// A linked chain of `n` empty blocks with strictly increasing
/// timestamps, as a peer would serve it.
fn peer_chain(n: u64) -> Vec<Block> {
    let mut out = Vec::new();
    let mut prev = vec![0u8; 32];
    for i in 0..n {
        let mut b = Block::new(prev, vec![], 0, vec![0u8; 20]).unwrap();
        b.header.timestamp = (i + 1) as i64;
        prev = b.hash();
        out.push(b);
    }
    out
}

#[test]
fn test_select_peer_prefers_height_then_score() {
    let peers = vec![(10u64, 0u64), (250, 1), (100, 9)];
    assert_eq!(select_peer(0, &peers), Some(1));

    let tied = vec![(50u64, 1u64), (50, 9)];
    assert_eq!(select_peer(0, &tied), Some(1));

    // Nobody is ahead of us.
    assert_eq!(select_peer(250, &peers), None);
}

#[test]
fn test_next_chunk_bounds() {
    assert_eq!(next_chunk(0, 250, 100), (0, 100));
    assert_eq!(next_chunk(200, 250, 100), (200, 250));
}

#[test]
fn test_sync_catch_up() {
    // Local height 0, peer height 250, chunks of 100: one catch-up cycle
    // brings the local chain to 250 with every block fully validated.
    let peer_blocks = peer_chain(250);
    let peer_height: u64 = 250;
    let mut chain = ChainStore::new();

    let peers = vec![(peer_height, 1u64)];
    assert_eq!(select_peer(chain.height(), &peers), Some(0));

    while chain.height() < peer_height {
        let (start, end) = next_chunk(chain.height(), peer_height, 100);
        let batch: Vec<Block> = peer_blocks[start as usize..end as usize]
            .iter()
            .cloned()
            .collect();
        apply_chunk(&mut chain, batch).unwrap();
    }
    assert_eq!(chain.height(), 250);
}

#[test]
fn test_sync_stops_at_bad_block() {
    // A peer serving a block that fails the Merkle check cannot advance
    // the chain past it; the caller then blacklists the peer.
    let mut blocks = peer_chain(10);
    blocks[5].header.merkle_root = vec![1u8; 32];

    let mut chain = ChainStore::new();
    let r = apply_chunk(&mut chain, blocks);
    assert!(r.is_err());
    assert_eq!(chain.height(), 5);
}

#[test]
fn test_reapplying_known_blocks_is_noop() {
    let blocks = peer_chain(5);
    let mut chain = ChainStore::new();
    apply_chunk(&mut chain, blocks.clone()).unwrap();
    assert_eq!(chain.height(), 5);
    // Re-requesting an already-known range changes nothing.
    apply_chunk(&mut chain, blocks).unwrap();
    assert_eq!(chain.height(), 5);
}
