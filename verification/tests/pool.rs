use txpool::blobstore::{BlobAndProof, BlobStore, BlobTransactionSidecar, InMemoryBlobStore};
use txpool::config::{LocalTransactionConfig, PoolConfig, SubPoolLimit};
use txpool::error::{
    BlobStoreError, Eip4844PoolTransactionError, InvalidPoolTransactionError, PoolErrorKind,
};
use txpool::maintain::{CanonicalStateUpdate, ChangedAccount};
use txpool::ordering::CoinbaseTipOrdering;
use txpool::pool::{EthTransactionPool, Pool};
use txpool::primitives::{Address, TxHash, B256, U256};
use txpool::state::SubPool;
use txpool::traits::BestTransactions;
use txpool::transaction::{TransactionOrigin, Tx, TxType};
use txpool::txpool::BlockInfo;
use txpool::validate::{
    AccountState, EthTransactionValidator, EthValidatorConfig, MemoryState, OkValidator,
    PoolTransaction, TransactionValidationOutcome, TransactionValidator, DEFAULT_MAX_TX_INPUT_BYTES,
};

const SENDER_AA: Address = Address { hi: 0xAAAA_AAAA, lo: 0xAAAA_AAAA_AAAA_AAAA_AAAA_AAAA_AAAA_AA01 };

fn pool_validator_config() -> EthValidatorConfig {
    EthValidatorConfig {
        chain_id: 1,
        block_gas_limit: 30_000_000,
        max_tx_input_bytes: DEFAULT_MAX_TX_INPUT_BYTES,
        minimum_priority_fee: None,
        tx_fee_cap: 0,
        eip2930: true,
        eip1559: true,
        eip4844: true,
        eip7702: true,
        max_blob_count: 6,
        local_transactions_config: LocalTransactionConfig::default(),
    }
}

fn pool_account(balance: u128) -> AccountState {
    AccountState { nonce: 0, balance: U256::from_u128(balance), bytecode_hash: None, is_delegation: false }
}

fn pool_state(senders: &[Address], balance: u128) -> MemoryState {
    let mut state = MemoryState::new();
    for s in senders {
        state.push(*s, pool_account(balance));
    }
    state
}

type TestPool = EthTransactionPool<MemoryState, InMemoryBlobStore>;

fn pool_with(senders: &[Address], balance: u128, config: PoolConfig) -> TestPool {
    let validator = EthTransactionValidator::new(pool_state(senders, balance), pool_validator_config());
    pool_at_base_fee(Pool::eth_pool(validator, InMemoryBlobStore::new(), config), 10)
}

fn pool_at_base_fee<V: TransactionValidator, S: BlobStore>(
    mut pool: Pool<V, CoinbaseTipOrdering, S>,
    base_fee: u64,
) -> Pool<V, CoinbaseTipOrdering, S> {
    let mut info = pool.block_info();
    info.pending_basefee = base_fee;
    pool.set_block_info(info);
    pool
}

fn pool_config(_base_fee: u64) -> PoolConfig {
    PoolConfig::default()
}

fn pool_tx(id: u128, sender: Address, nonce: u64, max_fee: u128, priority_fee: u128) -> Tx {
    Tx::new(
        B256::new(0, id),
        sender,
        nonce,
        TxType::DynamicFee,
        21_000,
        max_fee,
        priority_fee,
        None,
        0,
        U256::zero(),
        120,
    )
    .unwrap()
}

fn pool_blob_tx(id: u128, sender: Address, nonce: u64, max_fee: u128, blob_fee: u128) -> Tx {
    Tx::new(
        B256::new(0, id),
        sender,
        nonce,
        TxType::Blob,
        21_000,
        max_fee,
        1,
        Some(blob_fee),
        131_072,
        U256::zero(),
        200,
    )
    .unwrap()
}

fn pool_request(tx: Tx) -> PoolTransaction {
    PoolTransaction {
        transaction: tx,
        chain_id: Some(1),
        intrinsic_gas: 21_000,
        sidecar: None,
        blob_proofs_verified: false,
        authorities: None,
    }
}

fn pool_sidecar(tag: u8) -> BlobTransactionSidecar {
    BlobTransactionSidecar {
        blobs: vec![BlobAndProof {
            versioned_hash: B256::new(1, tag as u128),
            blob: vec![tag; 8],
            proof: vec![tag, 1],
        }],
    }
}

fn pool_blob_request(tx: Tx, tag: u8) -> PoolTransaction {
    PoolTransaction {
        transaction: tx,
        chain_id: Some(1),
        intrinsic_gas: 21_000,
        sidecar: Some(pool_sidecar(tag)),
        blob_proofs_verified: true,
        authorities: None,
    }
}

fn pool_update(base_fee: u64) -> CanonicalStateUpdate {
    CanonicalStateUpdate {
        block_hash: B256::new(9, 9),
        block_number: 1,
        pending_block_base_fee: base_fee,
        pending_block_blob_fee: None,
        changed_accounts: vec![],
        mined_transactions: vec![],
    }
}

fn pool_collect_nonces(mut best: impl BestTransactions) -> Vec<u64> {
    let mut out = vec![];
    while let Some(tx) = best.next() {
        out.push(tx.nonce());
    }
    out
}

#[test]
fn gapless_chain_is_pending_and_yielded_in_order() {
    let mut pool = pool_with(&[SENDER_AA], 1_000_000_000, pool_config(10));
    for nonce in 0..10u64 {
        let tx = pool_tx(nonce as u128 + 1, SENDER_AA, nonce, 100, 1);
        let out = pool.add_transaction(TransactionOrigin::External, pool_request(tx)).unwrap();
        assert_eq!(out.subpool, SubPool::Pending);
        assert!(out.replaced.is_none());
        assert!(out.discarded.is_empty());
    }
    assert_eq!(pool.len(), 10);
    let size = pool.pool_size();
    assert_eq!(size.pending, 10);
    assert_eq!(size.queued, 0);
    assert_eq!(size.pending_size, 1200);
    assert_eq!(pool_collect_nonces(pool.best_transactions()), (0..10).collect::<Vec<u64>>());
}

#[test]
fn gap_creates_queued() {
    let mut pool = pool_with(&[SENDER_AA], 1_000_000_000, pool_config(10));
    let t0 = pool_tx(1, SENDER_AA, 0, 100, 1);
    let t2 = pool_tx(3, SENDER_AA, 2, 100, 1);
    let t1 = pool_tx(2, SENDER_AA, 1, 100, 1);
    assert_eq!(
        pool.add_transaction(TransactionOrigin::External, pool_request(t0)).unwrap().subpool,
        SubPool::Pending
    );
    assert_eq!(
        pool.add_transaction(TransactionOrigin::External, pool_request(t2)).unwrap().subpool,
        SubPool::Queued
    );
    assert_eq!(pool.get(&t0.hash).unwrap().subpool, SubPool::Pending);
    assert_eq!(pool.get(&t2.hash).unwrap().subpool, SubPool::Queued);
    assert_eq!(pool_collect_nonces(pool.best_transactions()), vec![0]);
    assert_eq!(pool.pending_and_queued_txn_count(), (1, 1));
    assert_eq!(pool.all_transaction_hashes(), vec![t0.hash, t2.hash]);
    assert_eq!(pool.pending_transactions().len(), 1);
    assert_eq!(pool.queued_transactions()[0].tx, t2);
    assert_eq!(pool.all_transactions().len(), 2);
    assert_eq!(pool.get_all(&vec![t2.hash, t0.hash]).len(), 2);
    assert_eq!(pool.get_transactions_by_sender(&SENDER_AA).len(), 2);
    assert_eq!(pool.get_transaction_by_sender_and_nonce(&SENDER_AA, 2).unwrap().tx, t2);
    assert!(pool.get_transaction_by_sender_and_nonce(&SENDER_AA, 1).is_none());

    assert_eq!(
        pool.add_transaction(TransactionOrigin::External, pool_request(t1)).unwrap().subpool,
        SubPool::Pending
    );
    assert_eq!(pool.get(&t1.hash).unwrap().subpool, SubPool::Pending);
    assert_eq!(pool.get(&t2.hash).unwrap().subpool, SubPool::Pending);
    assert_eq!(pool_collect_nonces(pool.best_transactions()), vec![0, 1, 2]);
}

#[test]
fn base_fee_demotion_and_promotion() {
    let mut pool = pool_with(&[SENDER_AA], 1_000_000_000, pool_config(10));
    let tx = pool_tx(1, SENDER_AA, 0, 20, 1);
    let out = pool.add_transaction(TransactionOrigin::External, pool_request(tx)).unwrap();
    assert_eq!(out.subpool, SubPool::Pending);

    let outcome = pool.on_canonical_state_change(&pool_update(30));
    assert!(outcome.mined.is_empty());
    assert!(outcome.discarded.is_empty());
    assert_eq!(pool.get(&tx.hash).unwrap().subpool, SubPool::BaseFee);
    assert_eq!(pool.block_info().pending_basefee, 30);
    assert_eq!(pool.pool_size().basefee, 1);
    assert_eq!(pool.pool_size().pending, 0);

    pool.on_canonical_state_change(&pool_update(15));
    assert_eq!(pool.get(&tx.hash).unwrap().subpool, SubPool::Pending);
    assert_eq!(pool.pool_size().pending, 1);
}

#[test]
fn replacement() {
    let mut pool = pool_with(&[SENDER_AA], 1_000_000_000, pool_config(10));
    let a = pool_tx(1, SENDER_AA, 5, 100, 10);
    let b = pool_tx(2, SENDER_AA, 5, 109, 11);
    let c = pool_tx(3, SENDER_AA, 5, 110, 11);
    pool.add_transaction(TransactionOrigin::External, pool_request(a)).unwrap();

    let err = pool.add_transaction(TransactionOrigin::External, pool_request(b)).unwrap_err();
    assert_eq!(err.kind, PoolErrorKind::ReplacementUnderpriced);
    assert_eq!(err.hash, b.hash);
    assert!(pool.get(&a.hash).is_some());
    assert!(pool.get(&b.hash).is_none());

    let out = pool.add_transaction(TransactionOrigin::External, pool_request(c)).unwrap();
    assert_eq!(out.replaced.unwrap().tx, a);
    assert_eq!(out.discarded.len(), 1);
    assert!(pool.get(&a.hash).is_none());
    assert!(pool.get(&c.hash).is_some());
    assert_eq!(pool.len(), 1);
}

#[test]
fn blob_skip() {
    let mut pool = pool_with(&[SENDER_AA], 1_000_000_000, pool_config(10));
    let blob = pool_blob_tx(1, SENDER_AA, 0, 100, 5);
    let plain = pool_tx(2, SENDER_AA, 1, 100, 1);
    assert_eq!(
        pool.add_transaction(TransactionOrigin::External, pool_blob_request(blob, 1)).unwrap().subpool,
        SubPool::Pending
    );
    assert_eq!(
        pool.add_transaction(TransactionOrigin::External, pool_request(plain)).unwrap().subpool,
        SubPool::Pending
    );

    let mut best = pool.best_transactions();
    best.set_skip_blobs(true);
    assert!(best.next().is_none());
    assert!(best.next().is_none());

    let mut best = pool.best_transactions();
    best.set_skip_blobs(false);
    assert_eq!(best.next().unwrap().transaction, blob);
    assert_eq!(best.next().unwrap().transaction, plain);
    assert!(best.next().is_none());
}

#[test]
fn eviction_cascade() {
    let mut config = pool_config(10);
    config.pending_limit = SubPoolLimit::new(5, usize::MAX);
    let mut pool = pool_with(&[SENDER_AA], 1_000_000_000, config);
    let txs: Vec<PoolTransaction> =
        (0..10u64).map(|n| pool_request(pool_tx(n as u128 + 1, SENDER_AA, n, 100, 1))).collect();
    let (results, evicted) = pool.add_transactions(TransactionOrigin::External, txs);
    assert_eq!(results.len(), 10);
    for (nonce, r) in results.iter().enumerate() {
        if nonce < 5 {
            assert_eq!(r.as_ref().unwrap().subpool, SubPool::Pending);
        } else {
            assert_eq!(r.as_ref().unwrap_err().kind, PoolErrorKind::DiscardedOnInsert);
        }
    }
    let gone: Vec<u64> = evicted.iter().map(|h| h.tx.nonce).collect();
    assert_eq!(gone, vec![9, 8, 7, 6, 5]);
    let size = pool.pool_size();
    assert_eq!(size.pending, 5);
    assert_eq!(size.total, 5);
    assert!(!pool.is_exceeded());
    assert_eq!(pool_collect_nonces(pool.best_transactions()), vec![0, 1, 2, 3, 4]);
}

#[test]
fn one_by_one_the_newest_is_discarded_on_insert() {
    let mut config = pool_config(10);
    config.pending_limit = SubPoolLimit::new(2, usize::MAX);
    let mut pool = pool_with(&[SENDER_AA], 1_000_000_000, config);
    for n in 0..2u64 {
        pool.add_transaction(TransactionOrigin::External, pool_request(pool_tx(n as u128 + 1, SENDER_AA, n, 100, 1)))
            .unwrap();
    }
    let third = pool_tx(3, SENDER_AA, 2, 100, 1);
    let err = pool.add_transaction(TransactionOrigin::External, pool_request(third)).unwrap_err();
    assert_eq!(err.kind, PoolErrorKind::DiscardedOnInsert);
    assert_eq!(err.hash, third.hash);
    assert!(!pool.contains(&third.hash));
    assert_eq!(pool.len(), 2);
}

#[test]
fn a_hash_is_held_at_most_once() {
    let mut pool = pool_with(&[SENDER_AA], 1_000_000_000, pool_config(10));
    let tx = pool_tx(1, SENDER_AA, 0, 100, 1);
    pool.add_transaction(TransactionOrigin::External, pool_request(tx)).unwrap();
    let err = pool.add_transaction(TransactionOrigin::External, pool_request(tx)).unwrap_err();
    assert_eq!(err.kind, PoolErrorKind::AlreadyImported);
    // the same hash under another nonce is refused as well
    let mut other = pool_tx(1, SENDER_AA, 1, 100, 1);
    other.hash = tx.hash;
    let err = pool.add_transaction(TransactionOrigin::External, pool_request(other)).unwrap_err();
    assert_eq!(err.kind, PoolErrorKind::AlreadyImported);
    assert_eq!(pool.len(), 1);
    assert_eq!(pool.inner().all_transactions().iter().filter(|h| h.tx.hash == tx.hash).count(), 1);
}

#[test]
fn the_slots_of_one_sender_are_capped() {
    let mut pool = pool_with(&[SENDER_AA], 1_000_000_000, pool_config(10));
    for n in 0..16u64 {
        pool.add_transaction(TransactionOrigin::External, pool_request(pool_tx(n as u128 + 1, SENDER_AA, n, 100, 10)))
            .unwrap();
    }
    let extra = pool_tx(100, SENDER_AA, 16, 100, 10);
    let err = pool.add_transaction(TransactionOrigin::External, pool_request(extra)).unwrap_err();
    assert_eq!(err.kind, PoolErrorKind::SpammerExceededCapacity(SENDER_AA));
    // a replacement inside the cap is taken
    let better = pool_tx(101, SENDER_AA, 15, 200, 20);
    let out = pool.add_transaction(TransactionOrigin::External, pool_request(better)).unwrap();
    assert_eq!(out.replaced.unwrap().tx.nonce, 15);
    assert_eq!(pool.len(), 16);
}

#[test]
fn cumulative_cost_above_the_balance_is_queued() {
    // each transaction costs 21_000 * 100 = 2_100_000
    let mut pool = pool_with(&[SENDER_AA], 5_000_000, pool_config(10));
    for n in 0..3u64 {
        pool.add_transaction(TransactionOrigin::External, pool_request(pool_tx(n as u128 + 1, SENDER_AA, n, 100, 1)))
            .unwrap();
    }
    let all = pool.inner().all_transactions();
    assert_eq!(all[0].subpool, SubPool::Pending);
    assert_eq!(all[1].subpool, SubPool::Pending);
    assert_eq!(all[2].subpool, SubPool::Queued);
    assert_eq!(all[0].cumulative_cost, Some(U256::from_u128(2_100_000)));
    assert_eq!(all[1].cumulative_cost, Some(U256::from_u128(4_200_000)));
    assert_eq!(all[2].cumulative_cost, Some(U256::from_u128(6_300_000)));

    // more funds promote the third
    let gone = pool.update_accounts(&vec![ChangedAccount {
        address: SENDER_AA,
        nonce: 0,
        balance: U256::from_u128(6_300_000),
    }]);
    assert!(gone.is_empty());
    assert_eq!(pool.inner().all_transactions()[2].subpool, SubPool::Pending);
}

#[test]
fn a_fee_cap_below_the_base_fee_parks_the_rest_of_the_chain() {
    let mut pool = pool_with(&[SENDER_AA], 1_000_000_000, pool_config(10));
    let low = pool_tx(1, SENDER_AA, 0, 8, 1);
    let next = pool_tx(2, SENDER_AA, 1, 100, 1);
    assert_eq!(
        pool.add_transaction(TransactionOrigin::External, pool_request(low)).unwrap().subpool,
        SubPool::BaseFee
    );
    // the predecessor is not pending, so the successor is queued
    assert_eq!(
        pool.add_transaction(TransactionOrigin::External, pool_request(next)).unwrap().subpool,
        SubPool::Queued
    );
    assert!(pool_collect_nonces(pool.best_transactions()).is_empty());
}

#[test]
fn a_blob_fee_cap_below_the_blob_fee_goes_to_the_blob_subpool() {
    let mut pool = pool_with(&[SENDER_AA], 1_000_000_000, pool_config(10));
    let blob = pool_blob_tx(1, SENDER_AA, 0, 100, 5);
    pool.add_transaction(TransactionOrigin::External, pool_blob_request(blob, 1)).unwrap();
    let mut update = pool_update(10);
    update.pending_block_blob_fee = Some(6);
    pool.on_canonical_state_change(&update);
    assert_eq!(pool.get(&blob.hash).unwrap().subpool, SubPool::Blob);
    assert_eq!(pool.pool_size().blob, 1);
    assert_eq!(pool.pool_size().blob_size, 200);
    update.pending_block_blob_fee = Some(5);
    pool.on_canonical_state_change(&update);
    assert_eq!(pool.get(&blob.hash).unwrap().subpool, SubPool::Pending);
}

#[test]
fn mined_transactions_and_their_sidecars_leave() {
    let mut pool = pool_with(&[SENDER_AA], 1_000_000_000, pool_config(10));
    let blob = pool_blob_tx(1, SENDER_AA, 0, 100, 5);
    let second = pool_tx(2, SENDER_AA, 1, 100, 1);
    let third = pool_tx(3, SENDER_AA, 2, 100, 1);
    pool.add_transaction(TransactionOrigin::External, pool_blob_request(blob, 1)).unwrap();
    pool.add_transaction(TransactionOrigin::External, pool_request(second)).unwrap();
    pool.add_transaction(TransactionOrigin::External, pool_request(third)).unwrap();
    assert!(pool.get_blob(blob.hash).unwrap().is_some());
    assert_eq!(pool.blob_store().len(), 1);
    assert_eq!(pool.get_all_blobs(&vec![second.hash, blob.hash]).unwrap(), vec![(blob.hash, &pool_sidecar(1))]);
    assert_eq!(pool.get_all_blobs_exact(&vec![blob.hash]).unwrap(), vec![&pool_sidecar(1)]);
    assert_eq!(
        pool.get_all_blobs_exact(&vec![blob.hash, second.hash]),
        Err(BlobStoreError::NotFound(second.hash))
    );
    let wanted = vec![B256::new(1, 1), B256::new(1, 2)];
    assert_eq!(
        pool.get_blobs_for_versioned_hashes_v1(&wanted).unwrap(),
        vec![Some(&pool_sidecar(1).blobs[0]), None]
    );
    assert_eq!(pool.get_blobs_for_versioned_hashes_v2(&wanted).unwrap(), None);
    assert_eq!(
        pool.get_blobs_for_versioned_hashes_v2(&wanted[..1].to_vec()).unwrap(),
        Some(vec![&pool_sidecar(1).blobs[0]])
    );

    let mut update = pool_update(10);
    update.mined_transactions = vec![blob.hash];
    let outcome = pool.on_canonical_state_change(&update);
    assert_eq!(outcome.mined.len(), 1);
    assert_eq!(outcome.mined[0].tx, blob);
    assert!(outcome.discarded.is_empty());
    assert!(!pool.contains(&blob.hash));
    assert!(pool.get_blob(blob.hash).unwrap().is_none());
    assert_eq!(pool.blob_store().len(), 0);

    // the descendants keep their order and are pending: the nonce has moved on
    let rest = pool.inner().all_transactions();
    assert_eq!(rest.iter().map(|h| h.tx.nonce).collect::<Vec<_>>(), vec![1, 2]);
    assert!(rest.iter().all(|h| h.subpool == SubPool::Pending));
    assert_eq!(pool.block_info().last_seen_block_hash, B256::new(9, 9));
    assert_eq!(pool.block_info().last_seen_block_number, 1);
}

#[test]
fn changed_accounts_drop_what_is_behind() {
    let mut pool = pool_with(&[SENDER_AA], 1_000_000_000, pool_config(10));
    for n in 0..4u64 {
        pool.add_transaction(TransactionOrigin::External, pool_request(pool_tx(n as u128 + 1, SENDER_AA, n, 100, 1)))
            .unwrap();
    }
    let mut update = pool_update(10);
    update.changed_accounts =
        vec![ChangedAccount { address: SENDER_AA, nonce: 2, balance: U256::from_u128(1_000_000_000) }];
    let outcome = pool.on_canonical_state_change(&update);
    assert!(outcome.mined.is_empty());
    assert_eq!(outcome.discarded.iter().map(|h| h.tx.nonce).collect::<Vec<_>>(), vec![0, 1]);
    assert_eq!(
        pool.inner().all_transactions().iter().map(|h| (h.tx.nonce, h.subpool)).collect::<Vec<_>>(),
        vec![(2, SubPool::Pending), (3, SubPool::Pending)]
    );
}

#[test]
fn a_nonce_below_the_on_chain_nonce_is_refused() {
    let mut state = MemoryState::new();
    state.push(
        SENDER_AA,
        AccountState { nonce: 3, balance: U256::from_u128(1_000_000_000), bytecode_hash: None, is_delegation: false },
    );
    let validator = EthTransactionValidator::new(state, pool_validator_config());
    let mut pool: TestPool =
        pool_at_base_fee(Pool::eth_pool(validator, InMemoryBlobStore::new(), pool_config(10)), 10);
    let err = pool
        .add_transaction(TransactionOrigin::External, pool_request(pool_tx(1, SENDER_AA, 2, 100, 1)))
        .unwrap_err();
    assert_eq!(
        err.kind,
        PoolErrorKind::InvalidTransaction(InvalidPoolTransactionError::NonceNotConsistent)
    );
    assert!(pool.is_empty());
    // the pool itself refuses as well
    let outcome = TransactionValidationOutcome::Valid {
        balance: U256::from_u128(1_000_000_000),
        state_nonce: 3,
        bytecode_hash: None,
        transaction: txpool::validate::ValidTransaction::Valid(pool_tx(1, SENDER_AA, 2, 100, 1)),
        propagate: true,
        authorities: None,
    };
    let err = pool.add_validated(TransactionOrigin::External, outcome).unwrap_err();
    assert_eq!(
        err.kind,
        PoolErrorKind::InvalidTransaction(InvalidPoolTransactionError::NonceNotConsistent)
    );
}

#[test]
fn a_blob_transaction_without_sidecar_is_refused() {
    let mut pool = Pool::new(
        OkValidator::default(),
        CoinbaseTipOrdering::new(),
        InMemoryBlobStore::new(),
        pool_config(10),
    );
    let blob = pool_blob_tx(1, SENDER_AA, 0, 100, 5);
    let err = pool.add_transaction(TransactionOrigin::Local, pool_request(blob)).unwrap_err();
    assert_eq!(
        err.kind,
        PoolErrorKind::InvalidTransaction(InvalidPoolTransactionError::Eip4844(
            Eip4844PoolTransactionError::MissingEip4844BlobSidecar
        ))
    );
    assert!(pool.is_empty());
}

struct RefusingStore;

impl BlobStore for RefusingStore {
    fn insert(&mut self, _tx: TxHash, _data: BlobTransactionSidecar) -> Result<(), BlobStoreError> {
        Err(BlobStoreError::Backend)
    }

    fn delete(&mut self, _tx: TxHash) {}

    fn cleanup(&mut self) {}

    fn blobs_len(&self) -> usize {
        0
    }

    fn contains(&self, _tx: TxHash) -> Result<bool, BlobStoreError> {
        Ok(false)
    }

    fn get(&self, _tx: TxHash) -> Result<Option<&BlobTransactionSidecar>, BlobStoreError> {
        Ok(None)
    }

    fn get_all(
        &self,
        _txs: &Vec<TxHash>,
    ) -> Result<Vec<(TxHash, &BlobTransactionSidecar)>, BlobStoreError> {
        Ok(vec![])
    }

    fn get_exact(&self, _txs: &Vec<TxHash>) -> Result<Vec<&BlobTransactionSidecar>, BlobStoreError> {
        Err(BlobStoreError::Backend)
    }

    fn get_by_versioned_hashes_v1(
        &self,
        versioned_hashes: &Vec<B256>,
    ) -> Result<Vec<Option<&BlobAndProof>>, BlobStoreError> {
        Ok(versioned_hashes.iter().map(|_| None).collect())
    }

    fn get_by_versioned_hashes_v2(
        &self,
        _versioned_hashes: &Vec<B256>,
    ) -> Result<Option<Vec<&BlobAndProof>>, BlobStoreError> {
        Ok(None)
    }
}

#[test]
fn a_store_that_refuses_the_sidecar_keeps_the_transaction_out() {
    let mut pool =
        Pool::new(OkValidator::default(), CoinbaseTipOrdering::new(), RefusingStore, pool_config(10));
    let blob = pool_blob_tx(1, SENDER_AA, 0, 100, 5);
    let err = pool.add_transaction(TransactionOrigin::Local, pool_blob_request(blob, 1)).unwrap_err();
    assert_eq!(err.kind, PoolErrorKind::BlobStore(BlobStoreError::Backend));
    assert!(pool.is_empty());
}

struct AbsentValidator;

impl TransactionValidator for AbsentValidator {
    fn validate_transaction(
        &self,
        _origin: TransactionOrigin,
        transaction: PoolTransaction,
    ) -> TransactionValidationOutcome {
        TransactionValidationOutcome::Error(transaction.transaction.hash)
    }
}

#[test]
fn a_validator_that_cannot_check_keeps_the_transaction_out() {
    let mut pool = Pool::new(
        AbsentValidator,
        CoinbaseTipOrdering::new(),
        InMemoryBlobStore::new(),
        pool_config(10),
    );
    let tx = pool_tx(1, SENDER_AA, 0, 100, 1);
    let err = pool.add_transaction(TransactionOrigin::External, pool_request(tx)).unwrap_err();
    assert_eq!(err.kind, PoolErrorKind::ValidationUnavailable);
    assert_eq!(err.hash, tx.hash);
    assert!(pool.is_empty());
}

#[test]
fn a_fee_cap_below_the_lowest_base_fee_is_refused_unless_local() {
    let mut pool = pool_with(&[SENDER_AA], 1_000_000_000, pool_config(10));
    let cheap = pool_tx(1, SENDER_AA, 0, 6, 1);
    let err = pool.add_transaction(TransactionOrigin::External, pool_request(cheap)).unwrap_err();
    assert_eq!(err.kind, PoolErrorKind::FeeCapBelowMinimumProtocolFeeCap(6));
    assert!(pool.is_empty());
    let out = pool.add_transaction(TransactionOrigin::Local, pool_request(cheap)).unwrap();
    assert_eq!(out.subpool, SubPool::BaseFee);
}

#[test]
fn ok_validator_takes_the_nonce_as_on_chain_nonce() {
    let validator = OkValidator::default().set_propagate_transactions(true);
    let mut pool =
        Pool::new(validator, CoinbaseTipOrdering::new(), InMemoryBlobStore::new(), pool_config(10));
    let tx = pool_tx(1, SENDER_AA, 7, 100, 1);
    let out = pool.add_transaction(TransactionOrigin::External, pool_request(tx)).unwrap();
    assert_eq!(out.subpool, SubPool::Pending);
    let held = pool.get(&tx.hash).unwrap();
    assert!(held.propagate);
    assert_eq!(held.cumulative_cost, Some(tx.cost));
    assert_eq!(pool.config().max_account_slots, 16);
}

#[test]
fn removing_by_hash_and_by_sender() {
    let other = Address::new(1, 2);
    let mut pool = pool_with(&[SENDER_AA, other], 1_000_000_000, pool_config(10));
    let a0 = pool_tx(1, SENDER_AA, 0, 100, 1);
    let a1 = pool_tx(2, SENDER_AA, 1, 100, 1);
    let b0 = pool_tx(3, other, 0, 100, 1);
    for t in [a0, a1, b0] {
        pool.add_transaction(TransactionOrigin::External, pool_request(t)).unwrap();
    }
    let gone = pool.remove_transactions(&vec![a0.hash, B256::new(5, 5)]);
    assert_eq!(gone.len(), 1);
    assert_eq!(gone[0].tx, a0);
    // the successor of the removed transaction is queued now
    assert_eq!(pool.get(&a1.hash).unwrap().subpool, SubPool::Queued);
    assert_eq!(pool.get(&b0.hash).unwrap().subpool, SubPool::Pending);

    let gone = pool.remove_transactions_by_sender(&SENDER_AA);
    assert_eq!(gone.len(), 1);
    assert_eq!(gone[0].tx, a1);
    assert_eq!(pool.len(), 1);
    assert_eq!(pool.inner().get_transactions_by_sender(&other).len(), 1);
    assert!(pool.inner().get_transactions_by_sender(&SENDER_AA).is_empty());
}

#[test]
fn set_block_info_sorts_anew() {
    let mut pool = pool_with(&[SENDER_AA], 1_000_000_000, pool_config(10));
    let tx = pool_tx(1, SENDER_AA, 0, 20, 1);
    pool.add_transaction(TransactionOrigin::External, pool_request(tx)).unwrap();
    let mut info: BlockInfo = pool.block_info();
    info.pending_basefee = 21;
    let evicted = pool.set_block_info(info);
    assert!(evicted.is_empty());
    assert_eq!(pool.get(&tx.hash).unwrap().subpool, SubPool::BaseFee);
    assert_eq!(pool.block_info(), info);
}

#[test]
fn a_new_tip_with_dropped_blocks_is_dealt_with_in_one_step() {
    let mut pool = pool_with(&[SENDER_AA], 1_000_000_000, pool_config(10));
    let t0 = pool_tx(1, SENDER_AA, 0, 100, 1);
    let t1 = pool_tx(2, SENDER_AA, 1, 100, 1);
    let t2 = pool_tx(3, SENDER_AA, 2, 100, 1);
    pool.add_transaction(TransactionOrigin::External, pool_request(t1)).unwrap();
    pool.add_transaction(TransactionOrigin::External, pool_request(t2)).unwrap();
    let mut update = pool_update(10);
    update.mined_transactions = vec![t1.hash];
    let r = pool.on_reorg(&update, vec![pool_request(t1), pool_request(t0)]);
    assert_eq!(r.outcome.block_hash, update.block_hash);
    assert_eq!(r.outcome.mined.len(), 1);
    assert_eq!(r.outcome.mined[0].tx, t1);
    // the mined one was not offered again, the other was
    assert_eq!(r.readmitted.len(), 1);
    assert_eq!(r.readmitted[0].as_ref().unwrap().hash, t0.hash);
    assert!(r.evicted.is_empty());
    assert!(pool.contains(&t0.hash));
    assert!(!pool.contains(&t1.hash));
    assert!(pool.contains(&t2.hash));
    let hashes: Vec<TxHash> = pool.all_transaction_hashes();
    assert_eq!(hashes, vec![t0.hash, t2.hash]);
}

#[test]
fn transactions_of_dropped_blocks_come_back_unless_mined() {
    let mut pool = pool_with(&[SENDER_AA], 1_000_000_000, pool_config(10));
    let t0 = pool_tx(1, SENDER_AA, 0, 100, 1);
    let t1 = pool_tx(2, SENDER_AA, 1, 100, 1);
    let t2 = pool_tx(3, SENDER_AA, 2, 100, 1);
    pool.add_transaction(TransactionOrigin::External, pool_request(t2)).unwrap();
    let mut update = pool_update(10);
    update.mined_transactions = vec![t1.hash];
    pool.on_canonical_state_change(&update);
    let (results, evicted) =
        pool.readmit(vec![pool_request(t0), pool_request(t1)], &update.mined_transactions);
    // the mined one was not offered again
    assert_eq!(results.len(), 1);
    assert_eq!(results[0].as_ref().unwrap().hash, t0.hash);
    assert!(evicted.is_empty());
    assert!(pool.contains(&t0.hash));
    assert!(!pool.contains(&t1.hash));
    assert!(pool.contains(&t2.hash));
}

#[test]
fn a_batch_reports_every_transaction() {
    let mut pool = pool_with(&[SENDER_AA], 1_000_000_000, pool_config(10));
    let t0 = pool_tx(1, SENDER_AA, 0, 100, 10);
    let better = pool_tx(2, SENDER_AA, 0, 200, 20);
    let twice = t0;
    let (results, evicted) = pool.add_transactions(
        TransactionOrigin::External,
        vec![pool_request(t0), pool_request(twice), pool_request(better)],
    );
    assert!(evicted.is_empty());
    assert_eq!(results.len(), 3);
    // the first was taken and then replaced: it is held no longer
    assert_eq!(results[0].as_ref().unwrap_err().kind, PoolErrorKind::DiscardedOnInsert);
    assert_eq!(results[1].as_ref().unwrap_err().kind, PoolErrorKind::AlreadyImported);
    let out = results[2].as_ref().unwrap();
    assert_eq!(out.hash, better.hash);
    assert_eq!(out.replaced.unwrap().tx, t0);
    assert_eq!(pool.len(), 1);
    let (none, _) = pool.add_transactions(TransactionOrigin::External, vec![]);
    assert!(none.is_empty());
}

#[test]
fn the_answer_of_the_store_decides_what_becomes_of_a_blob_transaction() {
    let mut pool = pool_with(&[SENDER_AA], 1_000_000_000, pool_config(10));
    let plain = pool_tx(1, SENDER_AA, 0, 100, 1);
    let blob = pool_blob_tx(2, SENDER_AA, 1, 100, 5);

    // a refusal of the store is handed on, and nothing changes
    let err = pool
        .take_stored(
            TransactionOrigin::External,
            blob,
            true,
            U256::from_u128(1_000_000_000),
            0,
            Err(BlobStoreError::Backend),
        )
        .unwrap_err();
    assert_eq!(err.hash, blob.hash);
    assert_eq!(err.kind, PoolErrorKind::BlobStore(BlobStoreError::Backend));
    assert!(pool.is_empty());
    assert_eq!(pool.blob_store().len(), 0);

    // a transaction without blobs is taken, whatever the store holds
    let added = pool
        .take_stored(TransactionOrigin::External, plain, true, U256::from_u128(1_000_000_000), 0, Ok(()))
        .unwrap();
    assert_eq!(added.transaction.tx, plain);
    assert_eq!(added.transaction.subpool, SubPool::Pending);
    assert!(added.replaced.is_none());
    assert!(added.stale.is_empty());
    assert_eq!(pool.len(), 1);

    // through the pool the sidecar that came with the transaction is the one stored
    pool.add_transaction(TransactionOrigin::External, pool_blob_request(blob, 7)).unwrap();
    assert_eq!(pool.get_blob(blob.hash).unwrap(), Some(&pool_sidecar(7)));
    assert_eq!(pool.pending_and_queued_txn_count(), (2, 0));
}

#[test]
fn a_new_tip_leaves_the_accounts_that_it_does_not_name() {
    let other = Address { hi: 0xBBBB_BBBB, lo: 2 };
    let mut pool = pool_with(&[SENDER_AA, other], 2_100_000, pool_config(10));
    // each can pay for one transaction of 21000 gas at 100, not for two
    let first = pool_tx(1, SENDER_AA, 0, 100, 1);
    let second = pool_tx(2, SENDER_AA, 1, 100, 1);
    let third = pool_tx(3, other, 0, 20, 1);
    pool.add_transaction(TransactionOrigin::External, pool_request(first)).unwrap();
    pool.add_transaction(TransactionOrigin::External, pool_request(second)).unwrap();
    pool.add_transaction(TransactionOrigin::External, pool_request(third)).unwrap();
    assert_eq!(pool.get(&second.hash).unwrap().subpool, SubPool::Queued);
    assert_eq!(pool.get(&third.hash).unwrap().subpool, SubPool::Pending);

    // a higher base fee moves the cheap one and nothing else
    pool.on_canonical_state_change(&pool_update(30));
    assert_eq!(pool.get(&first.hash).unwrap().subpool, SubPool::Pending);
    assert_eq!(pool.get(&second.hash).unwrap().subpool, SubPool::Queued);
    assert_eq!(pool.get(&third.hash).unwrap().subpool, SubPool::BaseFee);
    assert_eq!(pool.block_info().pending_basefee, 30);
    pool.on_canonical_state_change(&pool_update(15));
    assert_eq!(pool.get(&third.hash).unwrap().subpool, SubPool::Pending);

    // mining the first moves the nonce of its sender past it, and leaves the balance:
    // the second is first in line now and can be paid for
    let mut update = pool_update(15);
    update.mined_transactions = vec![first.hash];
    pool.on_canonical_state_change(&update);
    assert!(pool.get(&first.hash).is_none());
    assert_eq!(pool.get(&second.hash).unwrap().subpool, SubPool::Pending);
    assert_eq!(pool.get(&third.hash).unwrap().subpool, SubPool::Pending);
}
