//! The validated transaction as the pool sees it.

use crate::primitives::{pow2_256, Address, TxHash, U256};
use vstd::prelude::*;

verus! {

/// The envelope type of a transaction.
#[derive(Clone, Copy, Debug, PartialEq, Eq, Structural, Hash)]
pub enum TxType {
    /// A transaction with a single gas price.
    Legacy,
    /// A legacy transaction with an access list.
    AccessList,
    /// A transaction with a fee cap and a priority fee.
    DynamicFee,
    /// A transaction that carries blobs.
    Blob,
    /// A transaction that sets account code.
    SetCode,
}

/// Where a transaction came from.
#[derive(Clone, Copy, Debug, PartialEq, Eq, Structural, Hash)]
pub enum TransactionOrigin {
    /// Submitted over the node's own interface.
    Local,
    /// Received from the network.
    External,
    /// Submitted locally and not to be passed on.
    Private,
}

impl TransactionOrigin {
    /// Whether the transaction was submitted to this node itself.
    pub fn is_local(&self) -> (r: bool)
        ensures
            r == (*self == TransactionOrigin::Local),
    {
        match self {
            TransactionOrigin::Local => true,
            _ => false,
        }
    }

    /// Whether the transaction came from the network.
    pub fn is_external(&self) -> (r: bool)
        ensures
            r == (*self == TransactionOrigin::External),
    {
        match self {
            TransactionOrigin::External => true,
            _ => false,
        }
    }

    /// Whether the transaction must stay on this node.
    pub fn is_private(&self) -> (r: bool)
        ensures
            r == (*self == TransactionOrigin::Private),
    {
        match self {
            TransactionOrigin::Private => true,
            _ => false,
        }
    }
}

/// A transaction whose sender is known and whose fields were decoded.
///
/// Two transactions with the same `hash` are the same transaction.
#[derive(Clone, Copy, Debug, PartialEq, Eq, Hash)]
pub struct Tx {
    /// The hash that identifies the transaction.
    pub hash: TxHash,
    /// The account that signed it.
    pub sender: Address,
    /// Its position in the sender's sequence.
    pub nonce: u64,
    /// The most gas it may use.
    pub gas_limit: u64,
    /// The most it pays per unit of gas (the gas price of a legacy transaction).
    pub max_fee_per_gas: u128,
    /// The most it tips per unit of gas (the gas price of a legacy transaction).
    pub max_priority_fee_per_gas: u128,
    /// The most it pays per unit of blob gas; only blob transactions have it.
    pub max_fee_per_blob_gas: Option<u128>,
    /// The envelope type.
    pub tx_type: TxType,
    /// The amount transferred.
    pub value: U256,
    /// The length of the encoded transaction in bytes.
    pub encoded_size: usize,
    /// The blob gas it uses; zero unless it carries blobs.
    pub blob_gas_limit: u64,
    /// The most the sender can be charged for it.
    pub cost: U256,
}

/// `value + gas_limit * max_fee_per_gas + blob_gas_limit * max_fee_per_blob_gas`,
/// where a missing blob fee counts as zero.
pub open spec fn spec_cost(
    value: U256,
    gas_limit: u64,
    max_fee_per_gas: u128,
    blob_gas_limit: u64,
    max_fee_per_blob_gas: Option<u128>,
) -> nat {
    value@ + (gas_limit as nat) * (max_fee_per_gas as nat) + (blob_gas_limit as nat) * (
    spec_blob_fee_cap(max_fee_per_blob_gas) as nat)
}

/// The blob fee cap, zero where the transaction has none.
pub open spec fn spec_blob_fee_cap(max_fee_per_blob_gas: Option<u128>) -> u128 {
    match max_fee_per_blob_gas {
        Some(f) => f,
        None => 0,
    }
}

/// Computes the cost by the formula; `None` where it does not fit in 256 bits.
pub fn compute_cost(
    value: U256,
    gas_limit: u64,
    max_fee_per_gas: u128,
    blob_gas_limit: u64,
    max_fee_per_blob_gas: Option<u128>,
) -> (r: Option<U256>)
    ensures
        match r {
            Some(c) => c@ == spec_cost(
                value,
                gas_limit,
                max_fee_per_gas,
                blob_gas_limit,
                max_fee_per_blob_gas,
            ),
            None => spec_cost(
                value,
                gas_limit,
                max_fee_per_gas,
                blob_gas_limit,
                max_fee_per_blob_gas,
            ) >= pow2_256(),
        },
{
    let gas_cost = U256::mul_u64_u128(gas_limit, max_fee_per_gas);
    let blob_fee: u128 = match max_fee_per_blob_gas {
        Some(f) => f,
        None => 0,
    };
    let blob_cost = U256::mul_u64_u128(blob_gas_limit, blob_fee);
    match value.checked_add(&gas_cost) {
        Some(partial) => partial.checked_add(&blob_cost),
        None => None,
    }
}

impl Tx {
    /// The stored cost is the one the formula gives.
    pub open spec fn cost_is_exact(&self) -> bool {
        self.cost@ == spec_cost(
            self.value,
            self.gas_limit,
            self.max_fee_per_gas,
            self.blob_gas_limit,
            self.max_fee_per_blob_gas,
        )
    }

    /// Whether the transaction carries blobs.
    pub open spec fn spec_is_eip4844(&self) -> bool {
        self.tx_type == TxType::Blob
    }

    /// The blob fee cap, zero where the transaction has none.
    pub open spec fn spec_blob_fee_cap(&self) -> u128 {
        spec_blob_fee_cap(self.max_fee_per_blob_gas)
    }

    /// Whether the transaction pays at least the given base fee and, where
    /// it has a blob fee cap, at least the given blob fee.
    pub open spec fn spec_satisfies_fees(&self, base_fee: u64, blob_fee: u64) -> bool {
        &&& self.max_fee_per_gas >= base_fee as u128
        &&& match self.max_fee_per_blob_gas {
            Some(f) => f >= blob_fee as u128,
            None => true,
        }
    }

    /// Builds a transaction and computes its cost; `None` where the cost
    /// does not fit in 256 bits.
    pub fn new(
        hash: TxHash,
        sender: Address,
        nonce: u64,
        tx_type: TxType,
        gas_limit: u64,
        max_fee_per_gas: u128,
        max_priority_fee_per_gas: u128,
        max_fee_per_blob_gas: Option<u128>,
        blob_gas_limit: u64,
        value: U256,
        encoded_size: usize,
    ) -> (r: Option<Tx>)
        ensures
            r is Some <==> spec_cost(
                value,
                gas_limit,
                max_fee_per_gas,
                blob_gas_limit,
                max_fee_per_blob_gas,
            ) < pow2_256(),
            r matches Some(t) ==> t.cost_is_exact() && t.hash == hash && t.sender == sender
                && t.nonce == nonce && t.tx_type == tx_type && t.gas_limit == gas_limit
                && t.max_fee_per_gas == max_fee_per_gas && t.max_priority_fee_per_gas
                == max_priority_fee_per_gas && t.max_fee_per_blob_gas == max_fee_per_blob_gas
                && t.blob_gas_limit == blob_gas_limit && t.value == value && t.encoded_size
                == encoded_size,
    {
        match compute_cost(value, gas_limit, max_fee_per_gas, blob_gas_limit, max_fee_per_blob_gas) {
            Some(cost) => {
                proof {
                    crate::primitives::lemma_u256_range(cost, cost);
                }
                Some(
                    Tx {
                        hash,
                        sender,
                        nonce,
                        gas_limit,
                        max_fee_per_gas,
                        max_priority_fee_per_gas,
                        max_fee_per_blob_gas,
                        tx_type,
                        value,
                        encoded_size,
                        blob_gas_limit,
                        cost,
                    },
                )
            },
            None => None,
        }
    }

    /// Whether the transaction carries blobs.
    pub fn is_eip4844(&self) -> (r: bool)
        ensures
            r == self.spec_is_eip4844(),
    {
        match self.tx_type {
            TxType::Blob => true,
            _ => false,
        }
    }

    /// The blob fee cap, zero where the transaction has none.
    pub fn blob_fee_cap(&self) -> (r: u128)
        ensures
            r == self.spec_blob_fee_cap(),
    {
        match self.max_fee_per_blob_gas {
            Some(f) => f,
            None => 0,
        }
    }

    /// Whether the transaction pays at least the given base fee and, where
    /// it has a blob fee cap, at least the given blob fee.
    pub fn satisfies_fees(&self, base_fee: u64, blob_fee: u64) -> (r: bool)
        ensures
            r == self.spec_satisfies_fees(base_fee, blob_fee),
    {
        self.max_fee_per_gas >= base_fee as u128 && match self.max_fee_per_blob_gas {
            Some(f) => f >= blob_fee as u128,
            None => true,
        }
    }

    /// What the sender tips per unit of gas at the given base fee: the
    /// smaller of the priority fee and what the fee cap leaves above the
    /// base fee; `None` where the fee cap is below the base fee.
    pub fn effective_tip_per_gas(&self, base_fee: u64) -> (r: Option<u128>)
        ensures
            r == spec_effective_tip(*self, base_fee),
    {
        let base: u128 = base_fee as u128;
        if self.max_fee_per_gas < base {
            None
        } else {
            let room: u128 = self.max_fee_per_gas - base;
            if room < self.max_priority_fee_per_gas {
                Some(room)
            } else {
                Some(self.max_priority_fee_per_gas)
            }
        }
    }
}

/// The tip per unit of gas at a base fee.
pub open spec fn spec_effective_tip(tx: Tx, base_fee: u64) -> Option<u128> {
    if tx.max_fee_per_gas < base_fee as u128 {
        None
    } else if tx.max_fee_per_gas - base_fee < tx.max_priority_fee_per_gas {
        Some((tx.max_fee_per_gas - base_fee) as u128)
    } else {
        Some(tx.max_priority_fee_per_gas)
    }
}

} // verus!
