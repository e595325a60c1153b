//! The error kinds the kernel surfaces.

use vstd::prelude::*;

verus! {

/// Everything that can go wrong in the kernel's own logic.
#[derive(Clone, Copy, Debug, PartialEq, Eq, Structural)]
pub enum ChainError {
    /// An address string does not decode to a well-formed address.
    InvalidAddress,
    /// The spendable outputs of an address do not cover the requested value.
    InsufficientFunds,
    /// A transaction input references a UTXO that does not exist.
    UnknownInput,
    /// An input's public key does not hash to the referenced output's lock.
    WrongKey,
    /// An input's signature does not verify (or a key is malformed).
    BadSignature,
    /// A transaction spends an output already spent by a mempool transaction.
    DoubleSpend,
    /// A received block is below the tip and cannot be adopted.
    StaleBlock,
    /// A block was queued as an orphan rather than committed.
    OrphanBlock,
    /// A reorganization failed and the snapshot was restored.
    RollbackFailed,
    /// The store is missing something it should hold (a block, the tip).
    StoreError,
}

impl ChainError {
    /// A short name for the error, for callers that print it.
    pub fn message(&self) -> (r: &'static str)
    {
        match self {
            ChainError::InvalidAddress => "invalid address",
            ChainError::InsufficientFunds => "insufficient funds",
            ChainError::UnknownInput => "unknown input",
            ChainError::WrongKey => "wrong key",
            ChainError::BadSignature => "bad signature",
            ChainError::DoubleSpend => "double spend",
            ChainError::StaleBlock => "stale block",
            ChainError::OrphanBlock => "orphan block",
            ChainError::RollbackFailed => "rollback failed",
            ChainError::StoreError => "store error",
        }
    }
}

} // verus!
