//! Catch-up synchronization: choosing the peer to sync from, slicing the
//! missing range into chunks, and ingesting fetched blocks through the
//! chain store's full validation path.
//!
//! The network I/O around these decisions lives outside the library; it
//! hands in plain peer heights and fetched blocks and performs the
//! requests.  Ingestion stops at the first block the chain refuses, so a
//! peer serving a bad block cannot advance the chain past it.

use vstd::prelude::*;
use crate::block::Block;
use crate::block::BlockView;
use crate::block::block_hash_of;
use crate::block::wf_header;
use crate::chain::ChainStore;
use crate::chain::append_result;
use crate::chain::chain_contains_hash;
use crate::chain::blocks_view;
use crate::errors::ChainError;

verus! {

/// The peer the synchronizer follows, scanning from `i` with `best` the
/// best seen: strictly higher height than ours, ties to the higher
/// stability score, further ties to the earlier peer.
pub open spec fn peer_pick_from(
    peers: Seq<(u64, u64)>,
    local: u64,
    i: int,
    best: Option<int>,
) -> Option<int>
    decreases peers.len() - i,
{
    if i < 0 || i >= peers.len() {
        best
    } else if peers[i].0 > local && (match best {
        None => true,
        Some(b) => peers[i].0 > peers[b].0 || (peers[i].0 == peers[b].0 && peers[i].1
            > peers[b].1),
    }) {
        peer_pick_from(peers, local, i + 1, Some(i))
    } else {
        peer_pick_from(peers, local, i + 1, best)
    }
}

/// The peer chosen among all, if any is ahead of us.
pub open spec fn peer_pick(peers: Seq<(u64, u64)>, local: u64) -> Option<int> {
    peer_pick_from(peers, local, 0, None)
}

pub proof fn lemma_peer_pick_in_range(peers: Seq<(u64, u64)>, local: u64, i: int, best: Option<
    int,
>)
    requires
        0 <= i,
        (best matches Some(b) ==> 0 <= b < peers.len() && peers[b].0 > local),
    ensures
        (peer_pick_from(peers, local, i, best) matches Some(r) ==> 0 <= r < peers.len()
            && peers[r].0 > local),
    decreases peers.len() - i,
{
    if i < peers.len() {
        if peers[i].0 > local && (match best {
            None => true,
            Some(b) => peers[i].0 > peers[b].0 || (peers[i].0 == peers[b].0 && peers[i].1
                > peers[b].1),
        }) {
            lemma_peer_pick_in_range(peers, local, i + 1, Some(i));
        } else {
            lemma_peer_pick_in_range(peers, local, i + 1, best);
        }
    }
}

/// Chooses the peer to sync from: one strictly ahead of the local
/// height, preferring greater height, then greater stability score, then
/// the earlier entry.
pub fn select_peer(local_height: u64, peers: &Vec<(u64, u64)>) -> (r: Option<usize>)
    ensures
        (r matches Some(i) ==> Some(i as int) == peer_pick(peers@, local_height) && i
            < peers@.len() && peers@[i as int].0 > local_height),
        (r is None ==> peer_pick(peers@, local_height) is None),
{
    let mut best: Option<usize> = None;
    let mut i: usize = 0;
    while i < peers.len()
        invariant
            0 <= i <= peers@.len(),
            (best matches Some(b) ==> b < i),
            peer_pick(peers@, local_height) == peer_pick_from(
                peers@,
                local_height,
                i as int,
                match best {
                    Some(b) => Some(b as int),
                    None => None,
                },
            ),
        decreases peers@.len() - i,
    {
        let take_it = peers[i].0 > local_height && (match best {
            None => true,
            Some(b) => peers[i].0 > peers[b].0 || (peers[i].0 == peers[b].0 && peers[i].1
                > peers[b].1),
        });
        if take_it {
            best = Some(i);
        }
        i += 1;
    }
    proof {
        lemma_peer_pick_in_range(peers@, local_height, 0, None);
    }
    best
}

/// The next height range to request: at most `chunk` heights, never past
/// the target.
pub fn next_chunk(current: u64, target: u64, chunk: u64) -> (r: (u64, u64))
    requires
        current < target,
        chunk > 0,
    ensures
        r.0 == current,
        r.1 == (if current + chunk <= target {
            current + chunk
        } else {
            target as int
        }),
        r.0 < r.1 <= target,
{
    if target - current <= chunk {
        (current, target)
    } else {
        (current, current + chunk)
    }
}

/// The synchronizer's configuration: how many heights one request may
/// span.  The loop around it is I/O: it asks peers for their heights,
/// fetches the planned ranges, and hands the blocks to `apply_chunk`.
pub struct Synchronizer {
    pub chunk: u64,
}

impl Synchronizer {
    pub fn new(chunk: u64) -> (r: Synchronizer)
        requires
            chunk > 0,
        ensures
            r.chunk == chunk,
    {
        Synchronizer { chunk }
    }

    /// The next height range to fetch from the chosen peer.
    pub fn plan(&self, current: u64, target: u64) -> (r: (u64, u64))
        requires
            current < target,
            self.chunk > 0,
        ensures
            r.0 == current,
            r.0 < r.1 <= target,
            r.1 - r.0 <= self.chunk,
    {
        next_chunk(current, target, self.chunk)
    }
}

/// What ingesting a fetched batch does to the chain: each block commits
/// in turn through the full validation path; the first refusal stops the
/// batch with the chain as it stands.
pub open spec fn ingest_spec(chain: Seq<BlockView>, bs: Seq<BlockView>) -> (
    Seq<BlockView>,
    Option<ChainError>,
)
    decreases bs.len(),
{
    if bs.len() == 0 {
        (chain, None)
    } else {
        match append_result(chain, bs.first()) {
            Err(e) => (chain, Some(e)),
            Ok(()) => {
                let next = if chain_contains_hash(chain, block_hash_of(bs.first().header)) {
                    chain
                } else {
                    chain.push(bs.first())
                };
                ingest_spec(next, bs.drop_first())
            },
        }
    }
}

/// Commits a fetched batch of blocks in order, stopping at the first one
/// the chain refuses.
#[verifier::loop_isolation(false)]
pub fn apply_chunk(chain: &mut ChainStore, blocks: Vec<Block>) -> (r: Result<(), ChainError>)
    requires
        old(chain).wf(),
        forall|i: int| 0 <= i < blocks@.len() ==> wf_header((#[trigger] blocks@[i])@.header),
    ensures
        final(chain).wf(),
        final(chain)@ == ingest_spec(old(chain)@, blocks_view(blocks@)).0,
        (r is Ok <==> ingest_spec(old(chain)@, blocks_view(blocks@)).1 is None),
        (r matches Err(e) ==> ingest_spec(old(chain)@, blocks_view(blocks@)).1 == Some(e)),
{
    let ghost c0 = chain@;
    let ghost bs0 = blocks_view(blocks@);
    let mut rest = blocks;
    while rest.len() > 0
        invariant
            chain.wf(),
            forall|i: int| 0 <= i < rest@.len() ==> wf_header((#[trigger] rest@[i])@.header),
            ingest_spec(c0, bs0) == ingest_spec(chain@, blocks_view(rest@)),
        decreases rest@.len(),
    {
        let ghost cpre = chain@;
        let ghost bpre = blocks_view(rest@);
        let b = rest.remove(0);
        proof {
            assert(blocks_view(rest@) =~= bpre.drop_first());
            assert(b@ == bpre.first());
        }
        match chain.append(b) {
            Err(e) => {
                return Err(e);
            },
            Ok(()) => {},
        }
    }
    proof {
        assert(blocks_view(rest@) =~= Seq::<BlockView>::empty());
    }
    Ok(())
}

} // verus!
