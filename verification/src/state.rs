//! The four subpools and the rule that sorts a transaction into one.

use crate::transaction::Tx;
use vstd::prelude::*;

verus! {

/// The subpool a held transaction is in.
#[derive(Clone, Copy, Debug, PartialEq, Eq, Structural, Hash)]
pub enum SubPool {
    /// Waiting for an earlier nonce or for funds.
    Queued,
    /// Ready for the next block.
    Pending,
    /// Ready but for a fee cap below the base fee.
    BaseFee,
    /// A blob transaction whose blob fee cap is below the blob fee.
    Blob,
}

impl SubPool {
    /// Whether this is the pending subpool.
    pub fn is_pending(&self) -> (r: bool)
        ensures
            r == (*self == SubPool::Pending),
    {
        match self {
            SubPool::Pending => true,
            _ => false,
        }
    }

    /// Whether this is the queued subpool.
    pub fn is_queued(&self) -> (r: bool)
        ensures
            r == (*self == SubPool::Queued),
    {
        match self {
            SubPool::Queued => true,
            _ => false,
        }
    }

    /// Whether this is the base-fee subpool.
    pub fn is_base_fee(&self) -> (r: bool)
        ensures
            r == (*self == SubPool::BaseFee),
    {
        match self {
            SubPool::BaseFee => true,
            _ => false,
        }
    }

    /// Whether this is the blob subpool.
    pub fn is_blob(&self) -> (r: bool)
        ensures
            r == (*self == SubPool::Blob),
    {
        match self {
            SubPool::Blob => true,
            _ => false,
        }
    }
}

/// The subpool of a transaction, given where it stands in its sender's
/// chain and what the next block asks for.
///
/// `prev` is the subpool of the transaction with the nonce below, where the
/// pool holds it; `cumulative_cost` is the sum of the costs of the sender's
/// held transactions up to and including this one.
///
/// 1. A transaction that is not first in line (its nonce is not the on-chain
///    nonce) and whose predecessor is missing or not pending is queued.
/// 2. So is one whose cumulative cost is above the balance.
/// 3. Else a blob transaction with a blob fee cap below the blob fee goes to
///    the blob subpool,
/// 4. else one with a fee cap below the base fee to the base-fee subpool,
/// 5. and any other is pending.
pub open spec fn classify(
    tx: Tx,
    prev: Option<SubPool>,
    on_chain_nonce: u64,
    cumulative_cost: nat,
    balance: nat,
    base_fee: u64,
    blob_fee: u128,
) -> SubPool {
    if !(tx.nonce == on_chain_nonce || (tx.nonce > on_chain_nonce && prev == Some(
        SubPool::Pending,
    ))) {
        SubPool::Queued
    } else if cumulative_cost > balance {
        SubPool::Queued
    } else if tx.spec_is_eip4844() && tx.spec_blob_fee_cap() < blob_fee {
        SubPool::Blob
    } else if tx.max_fee_per_gas < base_fee as u128 {
        SubPool::BaseFee
    } else {
        SubPool::Pending
    }
}

/// Sorts a transaction into its subpool. `exceeds_balance` says whether the
/// cumulative cost is above the balance.
pub fn classify_transaction(
    tx: &Tx,
    prev: Option<SubPool>,
    on_chain_nonce: u64,
    exceeds_balance: bool,
    base_fee: u64,
    blob_fee: u128,
) -> (r: SubPool)
    ensures
        forall|cumulative_cost: nat, balance: nat|
            exceeds_balance == (cumulative_cost > balance) ==> r == #[trigger] classify(
                *tx,
                prev,
                on_chain_nonce,
                cumulative_cost,
                balance,
                base_fee,
                blob_fee,
            ),
{
    let prev_pending = match prev {
        Some(SubPool::Pending) => true,
        _ => false,
    };
    if !(tx.nonce == on_chain_nonce || (tx.nonce > on_chain_nonce && prev_pending)) {
        SubPool::Queued
    } else if exceeds_balance {
        SubPool::Queued
    } else if tx.is_eip4844() && tx.blob_fee_cap() < blob_fee {
        SubPool::Blob
    } else if tx.max_fee_per_gas < base_fee as u128 {
        SubPool::BaseFee
    } else {
        SubPool::Pending
    }
}

} // verus!
