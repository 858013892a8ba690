//! Checking a transaction before the pool takes it.

use crate::blobstore::BlobTransactionSidecar;
use crate::config::LocalTransactionConfig;
use crate::error::{Eip4844PoolTransactionError, InvalidPoolTransactionError};
use crate::primitives::{Address, TxHash, B256, U256};
use crate::transaction::{TransactionOrigin, Tx, TxType};
use vstd::prelude::*;

verus! {

/// The largest encoded transaction that the pool takes by default:
/// 128 KiB.
pub const DEFAULT_MAX_TX_INPUT_BYTES: usize = 131072;

/// A transaction as it is offered to the pool, with what came along with it
/// and what was worked out of it beforehand.
#[derive(Clone, Debug, PartialEq, Eq)]
pub struct PoolTransaction {
    /// The transaction.
    pub transaction: Tx,
    /// The chain that the transaction is for, where it names one.
    pub chain_id: Option<u64>,
    /// The gas that the transaction needs at the least.
    pub intrinsic_gas: u64,
    /// The blobs of a blob transaction.
    pub sidecar: Option<BlobTransactionSidecar>,
    /// Whether the proofs of the blobs were found to hold.
    pub blob_proofs_verified: bool,
    /// The accounts that a set-code transaction acts for.
    pub authorities: Option<Vec<Address>>,
}

/// What the chain says of an account.
#[derive(Clone, Copy, Debug, PartialEq, Eq)]
pub struct AccountState {
    /// The nonce of the account's next transaction.
    pub nonce: u64,
    /// The balance of the account.
    pub balance: U256,
    /// The hash of the account's code, where it has code.
    pub bytecode_hash: Option<B256>,
    /// Whether the code only hands over to another account.
    pub is_delegation: bool,
}

/// A transaction that passed the checks, with its sidecar apart.
#[derive(Clone, Debug, PartialEq, Eq)]
pub enum ValidTransaction {
    /// A transaction without blobs.
    Valid(Tx),
    /// A blob transaction and its sidecar.
    ValidWithSidecar {
        /// The transaction.
        transaction: Tx,
        /// The blobs that came with it.
        sidecar: BlobTransactionSidecar,
    },
}

impl ValidTransaction {
    /// The transaction.
    pub open spec fn spec_transaction(&self) -> Tx {
        match self {
            ValidTransaction::Valid(tx) => *tx,
            ValidTransaction::ValidWithSidecar { transaction, .. } => *transaction,
        }
    }

    /// The transaction.
    pub fn transaction(&self) -> (r: Tx)
        ensures
            r == self.spec_transaction(),
    {
        match self {
            ValidTransaction::Valid(tx) => *tx,
            ValidTransaction::ValidWithSidecar { transaction, .. } => *transaction,
        }
    }
}

/// What the checks said of a transaction.
#[derive(Clone, Debug, PartialEq, Eq)]
pub enum TransactionValidationOutcome {
    /// The transaction may go into the pool.
    Valid {
        /// The balance of the sender.
        balance: U256,
        /// The on-chain nonce of the sender.
        state_nonce: u64,
        /// The hash of the sender's code, where the sender has code.
        bytecode_hash: Option<B256>,
        /// The transaction, with its sidecar apart.
        transaction: ValidTransaction,
        /// Whether the transaction may be passed on to the network.
        propagate: bool,
        /// The accounts that a set-code transaction acts for.
        authorities: Option<Vec<Address>>,
    },
    /// The transaction failed a check and is to be dropped.
    Invalid(Tx, InvalidPoolTransactionError),
    /// The checks could not be made; the transaction may be offered again.
    Error(TxHash),
}

impl TransactionValidationOutcome {
    /// The hash of the transaction that the outcome is about.
    pub open spec fn spec_tx_hash(&self) -> TxHash {
        match self {
            TransactionValidationOutcome::Valid { transaction, .. } => transaction.spec_transaction().hash,
            TransactionValidationOutcome::Invalid(tx, _) => tx.hash,
            TransactionValidationOutcome::Error(hash) => *hash,
        }
    }

    /// The hash of the transaction that the outcome is about.
    pub fn tx_hash(&self) -> (r: TxHash)
        ensures
            r == self.spec_tx_hash(),
    {
        match self {
            TransactionValidationOutcome::Valid { transaction, .. } => transaction.transaction().hash,
            TransactionValidationOutcome::Invalid(tx, _) => tx.hash,
            TransactionValidationOutcome::Error(hash) => *hash,
        }
    }

    /// Whether the transaction may go into the pool.
    pub fn is_valid(&self) -> (r: bool)
        ensures
            r == (self is Valid),
    {
        match self {
            TransactionValidationOutcome::Valid { .. } => true,
            _ => false,
        }
    }
}

/// Checks transactions before the pool takes them.
pub trait TransactionValidator {
    /// What `validate_transaction` does: whether it may say `r` of the
    /// transaction with the origin. A validator says here what it finds; a
    /// validator that says nothing may find anything.
    open spec fn validates(
        &self,
        origin: TransactionOrigin,
        transaction: PoolTransaction,
        r: TransactionValidationOutcome,
    ) -> bool {
        true
    }

    /// Checks a transaction. The outcome is about the transaction given.
    fn validate_transaction(&self, origin: TransactionOrigin, transaction: PoolTransaction) -> (r:
        TransactionValidationOutcome)
        ensures
            r.spec_tx_hash() == transaction.transaction.hash,
            r matches TransactionValidationOutcome::Valid { transaction: valid, .. }
                ==> valid.spec_transaction() == transaction.transaction,
            self.validates(origin, transaction, r),
    ;
}

/// `outcome` is what the validator may say of the transaction with the
/// origin: it is about that transaction, and what it passes on as valid is
/// that transaction.
pub open spec fn outcome_of<V: TransactionValidator>(
    validator: V,
    origin: TransactionOrigin,
    transaction: PoolTransaction,
    outcome: TransactionValidationOutcome,
) -> bool {
    &&& validator.validates(origin, transaction, outcome)
    &&& outcome.spec_tx_hash() == transaction.transaction.hash
    &&& outcome matches TransactionValidationOutcome::Valid { transaction: valid, .. }
        ==> valid.spec_transaction() == transaction.transaction
}

/// A validator that finds every transaction valid.
///
/// It takes the sender to have exactly the funds that the transaction costs
/// and the nonce of the transaction as the on-chain nonce.
#[derive(Clone, Copy, Debug)]
pub struct OkValidator {
    /// Whether transactions may be passed on to the network.
    propagate: bool,
}

impl OkValidator {
    /// Whether transactions may be passed on to the network.
    pub closed spec fn spec_propagate(&self) -> bool {
        self.propagate
    }

    /// Determines whether transactions should be allowed to be propagated
    pub fn set_propagate_transactions(self, propagate: bool) -> (r: Self)
        ensures
            r.spec_propagate() == propagate,
    {
        OkValidator { propagate }
    }
}

impl Default for OkValidator {
    fn default() -> (r: Self)
        ensures
            !r.spec_propagate(),
    {
        OkValidator { propagate: false }
    }
}

impl TransactionValidator for OkValidator {
    /// Every transaction is valid: the balance is the cost of the
    /// transaction, the on-chain nonce its nonce, and a sidecar that came
    /// along is set apart.
    open spec fn validates(
        &self,
        origin: TransactionOrigin,
        transaction: PoolTransaction,
        r: TransactionValidationOutcome,
    ) -> bool {
        r == (TransactionValidationOutcome::Valid {
            balance: transaction.transaction.cost,
            state_nonce: transaction.transaction.nonce,
            bytecode_hash: None,
            transaction: match transaction.sidecar {
                Some(sidecar) => ValidTransaction::ValidWithSidecar {
                    transaction: transaction.transaction,
                    sidecar,
                },
                None => ValidTransaction::Valid(transaction.transaction),
            },
            propagate: self.spec_propagate(),
            authorities: transaction.authorities,
        })
    }

    /// Always valid: the balance is the cost of the transaction, the
    /// on-chain nonce its nonce, and a sidecar that came along is set apart.
    fn validate_transaction(&self, origin: TransactionOrigin, transaction: PoolTransaction) -> (r:
        TransactionValidationOutcome)
        ensures
            r == (TransactionValidationOutcome::Valid {
                balance: transaction.transaction.cost,
                state_nonce: transaction.transaction.nonce,
                bytecode_hash: None,
                transaction: match transaction.sidecar {
                    Some(sidecar) => ValidTransaction::ValidWithSidecar {
                        transaction: transaction.transaction,
                        sidecar,
                    },
                    None => ValidTransaction::Valid(transaction.transaction),
                },
                propagate: self.spec_propagate(),
                authorities: transaction.authorities,
            }),
    {
        let tx = transaction.transaction;
        let valid = match transaction.sidecar {
            Some(sidecar) => ValidTransaction::ValidWithSidecar { transaction: tx, sidecar },
            None => ValidTransaction::Valid(tx),
        };
        TransactionValidationOutcome::Valid {
            balance: tx.cost,
            state_nonce: tx.nonce,
            bytecode_hash: None,
            transaction: valid,
            propagate: self.propagate,
            authorities: transaction.authorities,
        }
    }
}

/// Where a validator learns what the chain says of an account.
pub trait StateProvider {
    /// What `account` does: whether it may say `r` of the account with the
    /// address. A source of state says here what it answers; one that says
    /// nothing may answer anything.
    open spec fn answers(&self, address: Address, r: Option<AccountState>) -> bool {
        true
    }

    /// What the chain says of the account; `None` where it could not be
    /// learned.
    fn account(&self, address: &Address) -> (r: Option<AccountState>)
        ensures
            self.answers(*address, r),
    ;
}

/// Accounts held in memory. An address that is not listed stands for an
/// account without funds, code or transactions.
#[derive(Clone, Debug)]
pub struct MemoryState {
    addresses: Vec<Address>,
    accounts: Vec<AccountState>,
}

impl MemoryState {
    /// The addresses listed, each with its account at the same place of
    /// `accounts`. Of an address listed twice the first listing counts.
    pub closed spec fn addresses(&self) -> Seq<Address> {
        self.addresses@
    }

    /// The accounts of the addresses listed.
    pub closed spec fn accounts(&self) -> Seq<AccountState> {
        self.accounts@
    }

    /// As many accounts as addresses.
    pub open spec fn wf(&self) -> bool {
        self.addresses().len() == self.accounts().len()
    }

    /// What the state says of the address.
    pub open spec fn spec_account(&self, address: Address) -> AccountState {
        if self.addresses().contains(address) {
            self.accounts()[self.addresses().index_of_first(address)->0]
        } else {
            empty_account()
        }
    }

    /// A state without any account.
    pub fn new() -> (r: Self)
        ensures
            r.wf(),
            r.addresses().len() == 0,
    {
        MemoryState { addresses: Vec::new(), accounts: Vec::new() }
    }

    /// Lists an account; a later listing of the same address does not
    /// count.
    pub fn push(&mut self, address: Address, account: AccountState)
        requires
            old(self).wf(),
        ensures
            final(self).wf(),
            final(self).addresses() == old(self).addresses().push(address),
            final(self).accounts() == old(self).accounts().push(account),
    {
        self.addresses.push(address);
        self.accounts.push(account);
    }

    /// The place of the first listing of the address.
    fn find(&self, address: &Address) -> (r: Option<usize>)
        ensures
            r matches Some(i) ==> i < self.addresses().len() && self.addresses()[i as int]
                == *address && forall|k: int| 0 <= k < i ==> self.addresses()[k] != *address,
            r is None ==> !self.addresses().contains(*address),
    {
        let mut i: usize = 0;
        while i < self.addresses.len()
            invariant
                i <= self.addresses.len(),
                forall|k: int| 0 <= k < i ==> self.addresses@[k] != *address,
            decreases self.addresses.len() - i,
        {
            if self.addresses[i] == *address {
                return Some(i);
            }
            i = i + 1;
        }
        None
    }

    /// What the state says of the address.
    pub fn lookup(&self, address: &Address) -> (r: AccountState)
        requires
            self.wf(),
        ensures
            r == self.spec_account(*address),
    {
        match self.find(address) {
            Some(i) => {
                proof {
                    assert(self.addresses().contains(*address));
                    self.addresses().index_of_first_ensures(*address);
                    let j = self.addresses().index_of_first(*address)->0;
                    if j < i {
                        assert(self.addresses()[j] != *address);
                    } else if j > i {
                        assert(self.addresses()[i as int] == *address);
                    }
                }
                self.accounts[i]
            },
            None => AccountState {
                nonce: 0,
                balance: U256::zero(),
                bytecode_hash: None,
                is_delegation: false,
            },
        }
    }
}

/// An account without funds, code or transactions.
pub open spec fn empty_account() -> AccountState {
    AccountState {
        nonce: 0,
        balance: U256 { hi: 0, lo: 0 },
        bytecode_hash: None,
        is_delegation: false,
    }
}

impl StateProvider for MemoryState {
    /// The account listed under the address, or the empty account.
    open spec fn answers(&self, address: Address, r: Option<AccountState>) -> bool {
        &&& self.wf() ==> r == Some(self.spec_account(address))
        &&& !self.wf() ==> r is None
    }

    /// What the state says of the address.
    fn account(&self, address: &Address) -> (r: Option<AccountState>)
        ensures
            self.wf() ==> r == Some(self.spec_account(*address)),
            !self.wf() ==> r is None,
    {
        if self.addresses.len() == self.accounts.len() {
            Some(self.lookup(address))
        } else {
            None
        }
    }
}

/// What a validator for Ethereum transactions is set up with.
#[derive(Clone, Debug)]
pub struct EthValidatorConfig {
    /// The chain that transactions have to be for.
    pub chain_id: u64,
    /// The gas limit of a block.
    pub block_gas_limit: u64,
    /// The largest encoded transaction taken, in bytes.
    pub max_tx_input_bytes: usize,
    /// The lowest priority fee taken from the network.
    pub minimum_priority_fee: Option<u128>,
    /// The most that a local transaction may pay in fees; zero for no cap.
    pub tx_fee_cap: u128,
    /// Whether transactions with access lists are active.
    pub eip2930: bool,
    /// Whether transactions with a fee cap and a priority fee are active.
    pub eip1559: bool,
    /// Whether blob transactions are active.
    pub eip4844: bool,
    /// Whether set-code transactions are active.
    pub eip7702: bool,
    /// The most blobs that one transaction may carry.
    pub max_blob_count: usize,
    /// How local transactions are treated.
    pub local_transactions_config: LocalTransactionConfig,
}

/// Whether the envelope type is active under the configuration.
pub open spec fn spec_type_is_active(config: EthValidatorConfig, tx_type: TxType) -> bool {
    match tx_type {
        TxType::Legacy => true,
        TxType::AccessList => config.eip2930,
        TxType::DynamicFee => config.eip1559,
        TxType::Blob => config.eip4844,
        TxType::SetCode => config.eip7702,
    }
}

/// What the checks that do not look at the chain say of a transaction: the
/// first of these that applies, in this order.
///
/// 1. The envelope type is not active.
/// 2. The encoded transaction is too large.
/// 3. The gas limit is above that of a block.
/// 4. The priority fee is above the fee cap.
/// 5. A local transaction pays more in fees than the cap on fees allows.
/// 6. A transaction that is not local tips less than the lowest priority fee.
/// 7. The transaction names another chain.
/// 8. The gas limit is below the gas that the transaction needs at least.
/// 9. A blob transaction came without sidecar, without blobs, with too many
///    blobs, or with proofs that do not hold.
pub open spec fn stateless_failure(
    config: EthValidatorConfig,
    origin: TransactionOrigin,
    ptx: PoolTransaction,
) -> Option<InvalidPoolTransactionError> {
    let tx = ptx.transaction;
    let local = config.local_transactions_config.spec_is_local(origin, tx.sender);
    if !spec_type_is_active(config, tx.tx_type) {
        Some(InvalidPoolTransactionError::TxTypeNotSupported)
    } else if tx.encoded_size > config.max_tx_input_bytes {
        Some(InvalidPoolTransactionError::OversizedData)
    } else if tx.gas_limit > config.block_gas_limit {
        Some(InvalidPoolTransactionError::ExceedsGasLimit)
    } else if tx.max_priority_fee_per_gas > tx.max_fee_per_gas {
        Some(InvalidPoolTransactionError::TipAboveFeeCap)
    } else if local && config.tx_fee_cap > 0 && (tx.gas_limit as nat) * (tx.max_fee_per_gas as nat)
        > config.tx_fee_cap {
        Some(InvalidPoolTransactionError::ExceedsFeeCap)
    } else if !local && (config.minimum_priority_fee matches Some(min)
        && tx.max_priority_fee_per_gas < min) {
        Some(InvalidPoolTransactionError::Underpriced)
    } else if (ptx.chain_id matches Some(id) && id != config.chain_id) {
        Some(InvalidPoolTransactionError::ChainIdMismatch)
    } else if ptx.intrinsic_gas > tx.gas_limit {
        Some(InvalidPoolTransactionError::IntrinsicGasTooLow)
    } else if tx.spec_is_eip4844() {
        match ptx.sidecar {
            None => Some(
                InvalidPoolTransactionError::Eip4844(
                    Eip4844PoolTransactionError::MissingEip4844BlobSidecar,
                ),
            ),
            Some(sidecar) => if sidecar@.len() == 0 {
                Some(InvalidPoolTransactionError::Eip4844(Eip4844PoolTransactionError::NoEip4844Blobs))
            } else if sidecar@.len() > config.max_blob_count {
                Some(
                    InvalidPoolTransactionError::Eip4844(
                        Eip4844PoolTransactionError::TooManyEip4844Blobs,
                    ),
                )
            } else if !ptx.blob_proofs_verified {
                Some(
                    InvalidPoolTransactionError::Eip4844(
                        Eip4844PoolTransactionError::InvalidEip4844Blob,
                    ),
                )
            } else {
                None
            },
        }
    } else {
        None
    }
}

/// What the checks against the chain say of a transaction: the first of
/// these that applies, in this order.
///
/// 1. The sender's account has code that is no delegation.
/// 2. The nonce is below the on-chain nonce.
/// 3. The balance does not cover the cost.
pub open spec fn stateful_failure(tx: Tx, account: AccountState) -> Option<
    InvalidPoolTransactionError,
> {
    if account.bytecode_hash is Some && !account.is_delegation {
        Some(InvalidPoolTransactionError::SignerAccountHasBytecode)
    } else if tx.nonce < account.nonce {
        Some(InvalidPoolTransactionError::NonceNotConsistent)
    } else if tx.cost@ > account.balance@ {
        Some(InvalidPoolTransactionError::InsufficientFunds)
    } else {
        None
    }
}

/// Whether a transaction of this origin may be passed on to the network.
pub open spec fn spec_propagates(config: EthValidatorConfig, origin: TransactionOrigin) -> bool {
    match origin {
        TransactionOrigin::External => true,
        TransactionOrigin::Local => config.local_transactions_config.propagate_local_transactions,
        TransactionOrigin::Private => false,
    }
}

/// What the checks say of a transaction, given what the chain says of the
/// sender's account (`None` where that could not be learned).
pub open spec fn spec_outcome(
    config: EthValidatorConfig,
    origin: TransactionOrigin,
    ptx: PoolTransaction,
    account: Option<AccountState>,
) -> TransactionValidationOutcome {
    let tx = ptx.transaction;
    match stateless_failure(config, origin, ptx) {
        Some(e) => TransactionValidationOutcome::Invalid(tx, e),
        None => match account {
            None => TransactionValidationOutcome::Error(tx.hash),
            Some(state) => match stateful_failure(tx, state) {
                Some(e) => TransactionValidationOutcome::Invalid(tx, e),
                None => TransactionValidationOutcome::Valid {
                    balance: state.balance,
                    state_nonce: state.nonce,
                    bytecode_hash: state.bytecode_hash,
                    transaction: match ptx.sidecar {
                        Some(sidecar) => ValidTransaction::ValidWithSidecar {
                            transaction: tx,
                            sidecar,
                        },
                        None => ValidTransaction::Valid(tx),
                    },
                    propagate: spec_propagates(config, origin),
                    authorities: ptx.authorities,
                },
            },
        },
    }
}

/// Makes the checks that do not look at the chain.
pub fn check_stateless(config: &EthValidatorConfig, origin: TransactionOrigin, ptx: &PoolTransaction) -> (r:
    Option<InvalidPoolTransactionError>)
    ensures
        r == stateless_failure(*config, origin, *ptx),
{
    let tx = &ptx.transaction;
    let active = match tx.tx_type {
        TxType::Legacy => true,
        TxType::AccessList => config.eip2930,
        TxType::DynamicFee => config.eip1559,
        TxType::Blob => config.eip4844,
        TxType::SetCode => config.eip7702,
    };
    if !active {
        return Some(InvalidPoolTransactionError::TxTypeNotSupported);
    }
    if tx.encoded_size > config.max_tx_input_bytes {
        return Some(InvalidPoolTransactionError::OversizedData);
    }
    if tx.gas_limit > config.block_gas_limit {
        return Some(InvalidPoolTransactionError::ExceedsGasLimit);
    }
    if tx.max_priority_fee_per_gas > tx.max_fee_per_gas {
        return Some(InvalidPoolTransactionError::TipAboveFeeCap);
    }
    let local = config.local_transactions_config.is_local(origin, &tx.sender);
    if local && config.tx_fee_cap > 0 {
        let fees = U256::mul_u64_u128(tx.gas_limit, tx.max_fee_per_gas);
        let cap = U256::from_u128(config.tx_fee_cap);
        if fees.gt(&cap) {
            return Some(InvalidPoolTransactionError::ExceedsFeeCap);
        }
    }
    if !local {
        match config.minimum_priority_fee {
            Some(min) => {
                if tx.max_priority_fee_per_gas < min {
                    return Some(InvalidPoolTransactionError::Underpriced);
                }
            },
            None => {},
        }
    }
    match ptx.chain_id {
        Some(id) => {
            if id != config.chain_id {
                return Some(InvalidPoolTransactionError::ChainIdMismatch);
            }
        },
        None => {},
    }
    if ptx.intrinsic_gas > tx.gas_limit {
        return Some(InvalidPoolTransactionError::IntrinsicGasTooLow);
    }
    if tx.is_eip4844() {
        match &ptx.sidecar {
            None => {
                return Some(
                    InvalidPoolTransactionError::Eip4844(
                        Eip4844PoolTransactionError::MissingEip4844BlobSidecar,
                    ),
                );
            },
            Some(sidecar) => {
                if sidecar.blobs.len() == 0 {
                    return Some(
                        InvalidPoolTransactionError::Eip4844(
                            Eip4844PoolTransactionError::NoEip4844Blobs,
                        ),
                    );
                }
                if sidecar.blobs.len() > config.max_blob_count {
                    return Some(
                        InvalidPoolTransactionError::Eip4844(
                            Eip4844PoolTransactionError::TooManyEip4844Blobs,
                        ),
                    );
                }
                if !ptx.blob_proofs_verified {
                    return Some(
                        InvalidPoolTransactionError::Eip4844(
                            Eip4844PoolTransactionError::InvalidEip4844Blob,
                        ),
                    );
                }
            },
        }
    }
    None
}

/// Makes the checks against the chain.
pub fn check_stateful(tx: &Tx, account: &AccountState) -> (r: Option<InvalidPoolTransactionError>)
    ensures
        r == stateful_failure(*tx, *account),
{
    if account.bytecode_hash.is_some() && !account.is_delegation {
        return Some(InvalidPoolTransactionError::SignerAccountHasBytecode);
    }
    if tx.nonce < account.nonce {
        return Some(InvalidPoolTransactionError::NonceNotConsistent);
    }
    if tx.cost.gt(&account.balance) {
        return Some(InvalidPoolTransactionError::InsufficientFunds);
    }
    None
}

/// Checks a transaction, given what the chain says of the sender's account.
pub fn validate_with_account(
    config: &EthValidatorConfig,
    origin: TransactionOrigin,
    ptx: PoolTransaction,
    account: Option<AccountState>,
) -> (r: TransactionValidationOutcome)
    ensures
        r == spec_outcome(*config, origin, ptx, account),
{
    let tx = ptx.transaction;
    if let Some(e) = check_stateless(config, origin, &ptx) {
        return TransactionValidationOutcome::Invalid(tx, e);
    }
    match account {
        None => TransactionValidationOutcome::Error(tx.hash),
        Some(state) => {
            if let Some(e) = check_stateful(&tx, &state) {
                return TransactionValidationOutcome::Invalid(tx, e);
            }
            let propagate = match origin {
                TransactionOrigin::External => true,
                TransactionOrigin::Local => config.local_transactions_config.propagate_local_transactions,
                TransactionOrigin::Private => false,
            };
            let valid = match ptx.sidecar {
                Some(sidecar) => ValidTransaction::ValidWithSidecar { transaction: tx, sidecar },
                None => ValidTransaction::Valid(tx),
            };
            TransactionValidationOutcome::Valid {
                balance: state.balance,
                state_nonce: state.nonce,
                bytecode_hash: state.bytecode_hash,
                transaction: valid,
                propagate,
                authorities: ptx.authorities,
            }
        },
    }
}

/// A validator for Ethereum transactions that asks `C` for the state of the
/// chain.
#[derive(Clone, Debug)]
pub struct EthTransactionValidator<C> {
    client: C,
    config: EthValidatorConfig,
}

impl<C> EthTransactionValidator<C> {
    /// The source of the state of the chain.
    pub closed spec fn spec_client(&self) -> C {
        self.client
    }

    /// What the validator is set up with.
    pub closed spec fn spec_config(&self) -> EthValidatorConfig {
        self.config
    }

    /// A validator.
    pub fn new(client: C, config: EthValidatorConfig) -> (r: Self)
        ensures
            r.spec_client() == client,
            r.spec_config() == config,
    {
        EthTransactionValidator { client, config }
    }

    /// What the validator is set up with.
    pub fn config(&self) -> (r: &EthValidatorConfig)
        ensures
            *r == self.spec_config(),
    {
        &self.config
    }
}

impl<C: StateProvider> TransactionValidator for EthTransactionValidator<C> {
    /// The outcome is what the checks say of the transaction, given what the
    /// source of state answers when it is asked for the account of the
    /// sender.
    open spec fn validates(
        &self,
        origin: TransactionOrigin,
        transaction: PoolTransaction,
        r: TransactionValidationOutcome,
    ) -> bool {
        exists|account: Option<AccountState>| #[trigger]
            self.spec_client().answers(transaction.transaction.sender, account) && r
                == spec_outcome(self.spec_config(), origin, transaction, account)
    }

    /// Asks for the sender's account and makes the checks.
    fn validate_transaction(&self, origin: TransactionOrigin, transaction: PoolTransaction) -> (r:
        TransactionValidationOutcome)
        ensures
            exists|account: Option<AccountState>| #[trigger]
                self.spec_client().answers(transaction.transaction.sender, account) && r
                    == spec_outcome(self.spec_config(), origin, transaction, account),
    {
        let account = self.client.account(&transaction.transaction.sender);
        let r = validate_with_account(&self.config, origin, transaction, account);
        proof {
            assert(self.spec_client().answers(transaction.transaction.sender, account));
        }
        r
    }
}

} // verus!
