//! Limits and prices the pool is configured with.

use crate::primitives::{Address, U256};
use crate::transaction::{TransactionOrigin, Tx, TxType};
use vstd::prelude::*;

verus! {

/// How many transactions of one sender the pool holds at most.
pub const TXPOOL_MAX_ACCOUNT_SLOTS_PER_SENDER: usize = 16;

/// How many transactions a subpool holds at most.
pub const TXPOOL_SUBPOOL_MAX_TXS_DEFAULT: usize = 10000;

/// How many megabytes of transactions a subpool holds at most.
pub const TXPOOL_SUBPOOL_MAX_SIZE_MB_DEFAULT: usize = 20;

/// By how many percent a replacement has to outbid the transaction it replaces.
pub const DEFAULT_PRICE_BUMP: u32 = 10;

/// By how many percent a replacement has to outbid a blob transaction.
pub const REPLACE_BLOB_PRICE_BUMP: u32 = 100;

/// How many announcements of pending transactions a listener can fall behind.
pub const MAX_NEW_PENDING_TXS_NOTIFICATIONS: usize = 200;

/// How many validation tasks run beside the first.
pub const DEFAULT_TXPOOL_ADDITIONAL_VALIDATION_TASKS: usize = 1;

/// The lowest base fee the protocol can reach.
pub const MIN_PROTOCOL_BASE_FEE: u64 = 7;

/// The block gas limit assumed where none is configured.
pub const ETHEREUM_BLOCK_GAS_LIMIT_30M: u64 = 30000000;

/// What a subpool may hold.
#[derive(Clone, Copy, Debug, PartialEq, Eq, Structural)]
pub struct SubPoolLimit {
    /// The largest number of transactions.
    pub max_txs: usize,
    /// The largest total of their encoded sizes, in bytes.
    pub max_size: usize,
}

impl SubPoolLimit {
    /// Whether a subpool with `txs` transactions of `size` bytes is over the limit.
    pub open spec fn spec_is_exceeded(&self, txs: nat, size: nat) -> bool {
        txs > self.max_txs || size > self.max_size
    }

    /// A limit.
    pub fn new(max_txs: usize, max_size: usize) -> (r: Self)
        ensures
            r.max_txs == max_txs,
            r.max_size == max_size,
    {
        SubPoolLimit { max_txs, max_size }
    }

    /// Whether a subpool with `txs` transactions of `size` bytes is over the limit.
    pub fn is_exceeded(&self, txs: usize, size: u128) -> (r: bool)
        ensures
            r == self.spec_is_exceeded(txs as nat, size as nat),
    {
        txs > self.max_txs || size > self.max_size as u128
    }
}

impl Default for SubPoolLimit {
    fn default() -> (r: Self)
        ensures
            r.max_txs == TXPOOL_SUBPOOL_MAX_TXS_DEFAULT,
            r.max_size == TXPOOL_SUBPOOL_MAX_SIZE_MB_DEFAULT * 1024 * 1024,
    {
        SubPoolLimit {
            max_txs: TXPOOL_SUBPOOL_MAX_TXS_DEFAULT,
            max_size: TXPOOL_SUBPOOL_MAX_SIZE_MB_DEFAULT * 1024 * 1024,
        }
    }
}

/// By how much a replacement has to outbid the transaction it replaces.
#[derive(Clone, Copy, Debug, PartialEq, Eq, Structural)]
pub struct PriceBumpConfig {
    /// The bump in percent for transactions without blobs.
    pub default_price_bump: u32,
    /// The bump in percent for blob transactions.
    pub replace_blob_tx_price_bump: u32,
}

impl PriceBumpConfig {
    /// The bump in percent that replacing a transaction of the given type takes.
    pub open spec fn spec_price_bump(&self, tx_type: TxType) -> u32 {
        if tx_type == TxType::Blob {
            self.replace_blob_tx_price_bump
        } else {
            self.default_price_bump
        }
    }

    /// The bump in percent that replacing a transaction of the given type takes.
    pub fn price_bump(&self, tx_type: TxType) -> (r: u32)
        ensures
            r == self.spec_price_bump(tx_type),
    {
        match tx_type {
            TxType::Blob => self.replace_blob_tx_price_bump,
            _ => self.default_price_bump,
        }
    }
}

impl Default for PriceBumpConfig {
    fn default() -> (r: Self)
        ensures
            r.default_price_bump == DEFAULT_PRICE_BUMP,
            r.replace_blob_tx_price_bump == REPLACE_BLOB_PRICE_BUMP,
    {
        PriceBumpConfig {
            default_price_bump: DEFAULT_PRICE_BUMP,
            replace_blob_tx_price_bump: REPLACE_BLOB_PRICE_BUMP,
        }
    }
}

/// Whether `new` outbids `old` by `bump` percent: it is strictly higher and
/// at least `old * (100 + bump) / 100`, without rounding.
pub open spec fn spec_outbids(new: u128, old: u128, bump: u32) -> bool {
    new > old && (new as nat) * 100 >= (old as nat) * ((100 + bump) as nat)
}

/// Whether `new` outbids `old` by `bump` percent.
pub fn outbids(new: u128, old: u128, bump: u32) -> (r: bool)
    ensures
        r == spec_outbids(new, old, bump),
{
    let factor: u64 = 100 + bump as u64;
    let lhs = U256::mul_u64_u128(100, new);
    let rhs = U256::mul_u64_u128(factor, old);
    assert(lhs@ == (new as nat) * 100) by (nonlinear_arith)
        requires
            lhs@ == (100u64 as nat) * (new as nat),
    ;
    assert(rhs@ == (old as nat) * ((100 + bump) as nat)) by (nonlinear_arith)
        requires
            rhs@ == (factor as nat) * (old as nat),
            factor == 100 + bump,
    ;
    new > old && lhs.ge(&rhs)
}

/// Whether `new` may take the place of `old`, which has the same sender and
/// nonce: every fee field that both have is outbid by `bump` percent.
pub open spec fn spec_replaces(new: Tx, old: Tx, bump: u32) -> bool {
    &&& spec_outbids(new.max_fee_per_gas, old.max_fee_per_gas, bump)
    &&& spec_outbids(new.max_priority_fee_per_gas, old.max_priority_fee_per_gas, bump)
    &&& match (new.max_fee_per_blob_gas, old.max_fee_per_blob_gas) {
        (Some(n), Some(o)) => spec_outbids(n, o, bump),
        _ => true,
    }
}

/// Whether `new` may take the place of `old`.
pub fn replaces(new: &Tx, old: &Tx, bump: u32) -> (r: bool)
    ensures
        r == spec_replaces(*new, *old, bump),
{
    if !outbids(new.max_fee_per_gas, old.max_fee_per_gas, bump) {
        return false;
    }
    if !outbids(new.max_priority_fee_per_gas, old.max_priority_fee_per_gas, bump) {
        return false;
    }
    match (new.max_fee_per_blob_gas, old.max_fee_per_blob_gas) {
        (Some(n), Some(o)) => outbids(n, o, bump),
        _ => true,
    }
}

/// How transactions submitted to this node itself are treated.
#[derive(Clone, Debug, PartialEq, Eq)]
pub struct LocalTransactionConfig {
    /// Treat local transactions like any other.
    pub no_exemptions: bool,
    /// Senders whose transactions always count as local.
    pub local_addresses: Vec<Address>,
    /// Whether local transactions are passed on to the network.
    pub propagate_local_transactions: bool,
}

impl LocalTransactionConfig {
    /// Whether `sender` is on the list of local addresses.
    pub open spec fn spec_contains_local_address(&self, sender: Address) -> bool {
        self.local_addresses@.contains(sender)
    }

    /// Whether a transaction of `sender` with the given origin counts as local.
    pub open spec fn spec_is_local(&self, origin: TransactionOrigin, sender: Address) -> bool {
        !self.no_exemptions && (origin == TransactionOrigin::Local
            || self.spec_contains_local_address(sender))
    }

    /// Whether `sender` is on the list of local addresses.
    pub fn contains_local_address(&self, sender: &Address) -> (r: bool)
        ensures
            r == self.spec_contains_local_address(*sender),
    {
        let mut i: usize = 0;
        while i < self.local_addresses.len()
            invariant
                i <= self.local_addresses.len(),
                forall|k: int| 0 <= k < i ==> self.local_addresses@[k] != *sender,
            decreases self.local_addresses.len() - i,
        {
            if self.local_addresses[i] == *sender {
                return true;
            }
            i = i + 1;
        }
        false
    }

    /// Whether a transaction of `sender` with the given origin counts as local.
    pub fn is_local(&self, origin: TransactionOrigin, sender: &Address) -> (r: bool)
        ensures
            r == self.spec_is_local(origin, *sender),
    {
        if self.no_exemptions {
            return false;
        }
        origin.is_local() || self.contains_local_address(sender)
    }
}

impl Default for LocalTransactionConfig {
    fn default() -> (r: Self)
        ensures
            !r.no_exemptions,
            r.local_addresses@.len() == 0,
            r.propagate_local_transactions,
    {
        LocalTransactionConfig {
            no_exemptions: false,
            local_addresses: Vec::new(),
            propagate_local_transactions: true,
        }
    }
}

/// The configuration of a pool.
#[derive(Clone, Debug, PartialEq, Eq)]
pub struct PoolConfig {
    /// What the pending subpool may hold.
    pub pending_limit: SubPoolLimit,
    /// What the base-fee subpool may hold.
    pub basefee_limit: SubPoolLimit,
    /// What the queued subpool may hold.
    pub queued_limit: SubPoolLimit,
    /// What the blob subpool may hold.
    pub blob_limit: SubPoolLimit,
    /// How many transactions of one sender the pool holds at most.
    pub max_account_slots: usize,
    /// By how much a replacement has to outbid.
    pub price_bumps: PriceBumpConfig,
    /// The lowest fee cap accepted from the network.
    pub minimal_protocol_basefee: u64,
    /// The gas limit of a block.
    pub gas_limit: u64,
    /// How local transactions are treated.
    pub local_transactions_config: LocalTransactionConfig,
    /// How many announcements of pending transactions a listener can fall behind.
    pub max_new_pending_txs_notifications: usize,
    /// How many validation tasks run beside the first.
    pub additional_validation_tasks: usize,
}

impl Default for PoolConfig {
    fn default() -> (r: Self)
        ensures
            r.pending_limit.max_txs == TXPOOL_SUBPOOL_MAX_TXS_DEFAULT,
            r.basefee_limit == r.pending_limit,
            r.queued_limit == r.pending_limit,
            r.blob_limit == r.pending_limit,
            r.pending_limit.max_size == TXPOOL_SUBPOOL_MAX_SIZE_MB_DEFAULT * 1024 * 1024,
            r.max_account_slots == TXPOOL_MAX_ACCOUNT_SLOTS_PER_SENDER,
            r.price_bumps.default_price_bump == DEFAULT_PRICE_BUMP,
            r.price_bumps.replace_blob_tx_price_bump == REPLACE_BLOB_PRICE_BUMP,
            r.minimal_protocol_basefee == MIN_PROTOCOL_BASE_FEE,
            r.gas_limit == ETHEREUM_BLOCK_GAS_LIMIT_30M,
            !r.local_transactions_config.no_exemptions,
            r.local_transactions_config.local_addresses@.len() == 0,
            r.local_transactions_config.propagate_local_transactions,
            r.max_new_pending_txs_notifications == MAX_NEW_PENDING_TXS_NOTIFICATIONS,
            r.additional_validation_tasks == DEFAULT_TXPOOL_ADDITIONAL_VALIDATION_TASKS,
    {
        PoolConfig {
            pending_limit: SubPoolLimit::default(),
            basefee_limit: SubPoolLimit::default(),
            queued_limit: SubPoolLimit::default(),
            blob_limit: SubPoolLimit::default(),
            max_account_slots: TXPOOL_MAX_ACCOUNT_SLOTS_PER_SENDER,
            price_bumps: PriceBumpConfig::default(),
            minimal_protocol_basefee: MIN_PROTOCOL_BASE_FEE,
            gas_limit: ETHEREUM_BLOCK_GAS_LIMIT_30M,
            local_transactions_config: LocalTransactionConfig::default(),
            max_new_pending_txs_notifications: MAX_NEW_PENDING_TXS_NOTIFICATIONS,
            additional_validation_tasks: DEFAULT_TXPOOL_ADDITIONAL_VALIDATION_TASKS,
        }
    }
}

} // verus!
