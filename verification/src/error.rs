//! What can go wrong when a transaction is offered to the pool.

use crate::primitives::{Address, TxHash};
use vstd::prelude::*;

verus! {

/// Why a blob transaction is not acceptable.
#[derive(Clone, Copy, Debug, PartialEq, Eq, Structural)]
pub enum Eip4844PoolTransactionError {
    /// The transaction came without its sidecar.
    MissingEip4844BlobSidecar,
    /// The transaction carries no blob.
    NoEip4844Blobs,
    /// The transaction carries more blobs than a block takes.
    TooManyEip4844Blobs,
    /// The proofs of the blobs do not hold.
    InvalidEip4844Blob,
}

/// Why a transaction is not acceptable.
#[derive(Clone, Copy, Debug, PartialEq, Eq, Structural)]
pub enum InvalidPoolTransactionError {
    /// The envelope type is not active on this chain.
    TxTypeNotSupported,
    /// The encoded transaction is larger than the pool takes.
    OversizedData,
    /// The gas limit is above that of a block.
    ExceedsGasLimit,
    /// The priority fee is above the fee cap.
    TipAboveFeeCap,
    /// A local transaction pays more in fees than the node allows.
    ExceedsFeeCap,
    /// The transaction is for another chain.
    ChainIdMismatch,
    /// The gas limit does not cover the gas the transaction needs at least.
    IntrinsicGasTooLow,
    /// The fees are below what the pool asks for.
    Underpriced,
    /// The sender's account has code.
    SignerAccountHasBytecode,
    /// The nonce is below the sender's on-chain nonce.
    NonceNotConsistent,
    /// The sender cannot pay the cost.
    InsufficientFunds,
    /// The blobs are not acceptable.
    Eip4844(Eip4844PoolTransactionError),
}

/// What can go wrong in the blob store.
#[derive(Clone, Copy, Debug, PartialEq, Eq, Structural)]
pub enum BlobStoreError {
    /// The store holds no sidecar for this transaction.
    NotFound(TxHash),
    /// The store holds another sidecar for this transaction.
    Inconsistent(TxHash),
    /// The store could not be reached.
    Backend,
}

/// Why the pool did not take a transaction.
#[derive(Clone, Copy, Debug, PartialEq, Eq, Structural)]
pub enum PoolErrorKind {
    /// The pool holds a transaction with this hash already.
    AlreadyImported,
    /// The pool holds a transaction of the same sender and nonce that this
    /// one does not outbid.
    ReplacementUnderpriced,
    /// The sender has as many transactions in the pool as one sender may.
    SpammerExceededCapacity(Address),
    /// The pool was full and this transaction was the first to go.
    DiscardedOnInsert,
    /// The fee cap of a transaction that is not local is below the lowest
    /// base fee that the pool is set up for.
    FeeCapBelowMinimumProtocolFeeCap(u128),
    /// The transaction failed a check.
    InvalidTransaction(InvalidPoolTransactionError),
    /// The pool has run out of sender identifiers or submission numbers.
    Internal,
    /// The checks could not be made; the transaction may be offered again.
    ValidationUnavailable,
    /// The sidecar of the transaction could not be stored.
    BlobStore(BlobStoreError),
}

/// A refusal, with the hash of the transaction refused.
#[derive(Clone, Copy, Debug, PartialEq, Eq, Structural)]
pub struct PoolError {
    /// The hash of the transaction.
    pub hash: TxHash,
    /// Why it was refused.
    pub kind: PoolErrorKind,
}

impl PoolError {
    /// A refusal of the transaction with the given hash.
    pub fn new(hash: TxHash, kind: PoolErrorKind) -> (r: Self)
        ensures
            r.hash == hash,
            r.kind == kind,
    {
        PoolError { hash, kind }
    }

    /// Whether the refusal says that the transaction itself is bad, so that
    /// offering it again is pointless.
    pub fn is_bad_transaction(&self) -> (r: bool)
        ensures
            r == (self.kind is InvalidTransaction),
    {
        match self.kind {
            PoolErrorKind::InvalidTransaction(_) => true,
            _ => false,
        }
    }
}

/// The result of offering a transaction to the pool.
pub type PoolResult<T> = Result<T, PoolError>;

} // verus!
