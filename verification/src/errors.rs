//! Error kinds reported by the consensus core.

use vstd::prelude::*;

verus! {

/// Rejection reasons for a block.
#[derive(Clone, Copy, Debug, PartialEq, Eq, Structural)]
pub enum BlockError {
    TooManyTransactions,
    InvalidMerkleRoot,
    InvalidProof,
    InvalidProposer,
    BadTimestamp,
    UnknownParent,
}

/// Rejection reasons for a transaction.
#[derive(Clone, Copy, Debug, PartialEq, Eq, Structural)]
pub enum TransactionError {
    MissingSignature,
    BadSignature,
    BadNonce,
    InsufficientBalance,
    SerializationError,
}

/// Failures of the crypto helpers.
#[derive(Clone, Copy, Debug, PartialEq, Eq, Structural)]
pub enum CryptoError {
    InvalidBase64,
}

/// Failures of the consensus engine.
#[derive(Clone, Copy, Debug, PartialEq, Eq, Structural)]
pub enum ConsensusError {
    Equivocation,
    NotValidator,
    NoQuorum,
    UnknownParent,
}

/// Rejection reasons when a block is committed to the chain store: either a
/// structural fault of the block itself or a fault of one of its transactions.
#[derive(Clone, Copy, Debug, PartialEq, Eq, Structural)]
pub enum ChainError {
    Block(BlockError),
    Transaction(TransactionError),
}

} // verus!
