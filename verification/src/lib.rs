//! Consensus core of a proof-of-stake blockchain node.
//!
//! The crate holds the chain data model (transactions, blocks, receipts),
//! the canonical byte encoding that all hashing is defined over, the stake
//! ledger, the voting and slashing rules of the consensus engine, the
//! canonical chain store and the synchronizer's planning logic.  Hashing and
//! base64 are delegated to outside crates behind narrow trusted wrappers;
//! everything else is verified.

pub mod block;
pub mod chain;
pub mod codec;
pub mod consensus;
pub mod crypto;
pub mod errors;
pub mod mempool;
pub mod stake;
pub mod sync;
pub mod transaction;
pub mod wire;
