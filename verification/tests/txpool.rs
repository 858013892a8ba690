use txpool::best::{BestTransactions as BestStream, PendingTransaction, Polled};
use txpool::config::{PoolConfig, SubPoolLimit};
use txpool::error::{InvalidPoolTransactionError, PoolErrorKind};
use txpool::events::{
    added_events, canonical_events, event_of, in_order_of_ids, moves, FullTransactionEvent,
    TransactionEvent, TransactionListenerKind,
};
use txpool::filters::BestTransactionsWithPrioritizedSenders;
use txpool::held::HeldTx;
use txpool::identifier::{SenderId, TransactionId};
use txpool::maintain::{hash_in, split_by_hash, CanonicalStateUpdate, ChangedAccount};
use txpool::ordering::{CoinbaseTipOrdering, Priority};
use txpool::pool::AddedTransactionOutcome;
use txpool::primitives::{Address, B256, U256};
use txpool::state::SubPool;
use txpool::traits::{BestTransactions, ValidPoolTransaction};
use txpool::transaction::{TransactionOrigin, Tx, TxType};
use txpool::txpool::{BlockInfo, TxPool};

const ALICE: Address = Address { hi: 0, lo: 0xA };
const BOB: Address = Address { hi: 0, lo: 0xB };
const CAROL: Address = Address { hi: 0, lo: 0xC };
const FUNDS: u128 = 1_000_000_000_000;

fn engine(base_fee: u64) -> TxPool<CoinbaseTipOrdering> {
    let mut pool = TxPool::new(CoinbaseTipOrdering::new(), PoolConfig::default());
    let mut info = pool.block_info();
    info.pending_basefee = base_fee;
    pool.set_block_info(info);
    pool
}

fn engine_with(config: PoolConfig) -> TxPool<CoinbaseTipOrdering> {
    let mut pool = TxPool::new(CoinbaseTipOrdering::new(), config);
    let mut info = pool.block_info();
    info.pending_basefee = 10;
    pool.set_block_info(info);
    pool
}

fn engine_with_floor(floor: u64) -> TxPool<CoinbaseTipOrdering> {
    let mut config = PoolConfig::default();
    config.minimal_protocol_basefee = floor;
    TxPool::new(CoinbaseTipOrdering::new(), config)
}

fn engine_tx(id: u128, sender: Address, nonce: u64, max_fee: u128, tip: u128) -> Tx {
    Tx::new(B256::new(0, id), sender, nonce, TxType::DynamicFee, 21_000, max_fee, tip, None, 0, U256::zero(), 100)
        .unwrap()
}

fn engine_blob(id: u128, sender: Address, nonce: u64, max_fee: u128, blob_fee: u128) -> Tx {
    Tx::new(
        B256::new(0, id),
        sender,
        nonce,
        TxType::Blob,
        21_000,
        max_fee,
        1,
        Some(blob_fee),
        131_072,
        U256::zero(),
        300,
    )
    .unwrap()
}

fn engine_add(pool: &mut TxPool<CoinbaseTipOrdering>, tx: Tx) -> HeldTx {
    pool.add_transaction(tx, TransactionOrigin::External, true, U256::from_u128(FUNDS), 0)
        .unwrap()
        .transaction
}

fn engine_nonces(txs: &[HeldTx]) -> Vec<(Address, u64)> {
    txs.iter().map(|h| (h.tx.sender, h.tx.nonce)).collect()
}

#[test]
fn an_empty_pool() {
    let pool = engine(10);
    assert!(pool.is_empty());
    assert_eq!(pool.len(), 0);
    assert!(!pool.is_exceeded());
    assert_eq!(pool.exceeded_subpool(), None);
    assert_eq!(pool.worst(SubPool::Pending), None);
    assert_eq!(
        pool.block_info(),
        BlockInfo {
            last_seen_block_hash: B256::new(0, 0),
            last_seen_block_number: 0,
            block_gas_limit: 30_000_000,
            pending_basefee: 10,
            pending_blob_fee: None,
        }
    );
    // a new pool starts at the lowest base fee it is set up for
    assert_eq!(engine_with_floor(9).block_info().pending_basefee, 9);
    assert_eq!(pool.block_info().blob_fee(), 0);
    assert_eq!(pool.size().total, 0);
    assert!(pool.all_transactions().is_empty());
}

#[test]
fn transactions_are_held_in_order_of_sender_and_nonce() {
    let mut pool = engine(10);
    // senders are numbered as they come: Bob first, then Alice
    engine_add(&mut pool, engine_tx(1, BOB, 1, 100, 1));
    engine_add(&mut pool, engine_tx(2, ALICE, 0, 100, 1));
    engine_add(&mut pool, engine_tx(3, BOB, 0, 100, 1));
    let all = pool.all_transactions();
    assert_eq!(engine_nonces(&all), vec![(BOB, 0), (BOB, 1), (ALICE, 0)]);
    assert_eq!(all[0].id, TransactionId::new(SenderId::new(0), 0));
    assert_eq!(all[2].id, TransactionId::new(SenderId::new(1), 0));
    // submission numbers go up with every transaction taken
    assert_eq!(all.iter().map(|h| h.submission_id).collect::<Vec<_>>(), vec![2, 0, 1]);
    assert!(all.iter().all(|h| h.subpool == SubPool::Pending));
    assert_eq!(all[0].priority, Priority::Value(U256::from_u64(1)));
}

#[test]
fn an_on_chain_nonce_that_has_moved_on_drops_the_stale() {
    let mut pool = engine(10);
    for n in 0..3 {
        engine_add(&mut pool, engine_tx(n as u128 + 1, ALICE, n, 100, 1));
    }
    let added = pool
        .add_transaction(
            engine_tx(9, ALICE, 5, 100, 1),
            TransactionOrigin::Local,
            false,
            U256::from_u128(FUNDS),
            2,
        )
        .unwrap();
    assert_eq!(added.stale.iter().map(|h| h.tx.nonce).collect::<Vec<_>>(), vec![0, 1]);
    assert!(added.replaced.is_none());
    assert_eq!(added.transaction.subpool, SubPool::Queued);
    assert_eq!(added.transaction.origin, TransactionOrigin::Local);
    assert!(!added.transaction.propagate);
    assert_eq!(added.transaction.submission_id, 3);
    let all = pool.all_transactions();
    assert_eq!(
        all.iter().map(|h| (h.tx.nonce, h.subpool)).collect::<Vec<_>>(),
        vec![(2, SubPool::Pending), (5, SubPool::Queued)]
    );
    // the cumulative cost starts anew at what is left
    assert_eq!(all[0].cumulative_cost, Some(U256::from_u64(2_100_000)));
    assert_eq!(all[1].cumulative_cost, Some(U256::from_u64(4_200_000)));
}

#[test]
fn admission_is_checked_in_order() {
    let mut pool = engine(10);
    let held = engine_tx(1, ALICE, 3, 100, 10);
    engine_add(&mut pool, held);
    assert_eq!(pool.check_admission(&held, TransactionOrigin::External, 0), Some(PoolErrorKind::AlreadyImported));
    // the same hash with a nonce that is too low: the hash counts first
    let mut low = held;
    low.nonce = 0;
    assert_eq!(pool.check_admission(&low, TransactionOrigin::External, 1), Some(PoolErrorKind::AlreadyImported));
    assert_eq!(
        pool.check_admission(&engine_tx(2, ALICE, 0, 100, 10), TransactionOrigin::External, 1),
        Some(PoolErrorKind::InvalidTransaction(InvalidPoolTransactionError::NonceNotConsistent))
    );
    assert_eq!(
        pool.check_admission(&engine_tx(2, ALICE, 3, 109, 11), TransactionOrigin::External, 0),
        Some(PoolErrorKind::ReplacementUnderpriced)
    );
    assert_eq!(pool.check_admission(&engine_tx(2, ALICE, 3, 110, 11), TransactionOrigin::External, 0), None);
    assert_eq!(pool.check_admission(&engine_tx(2, ALICE, 4, 7, 1), TransactionOrigin::External, 0), None);
    assert_eq!(pool.check_admission(&engine_tx(2, BOB, 0, 7, 1), TransactionOrigin::External, 0), None);
    // a fee cap below the lowest base fee is taken from local senders only
    assert_eq!(
        pool.check_admission(&engine_tx(2, BOB, 0, 6, 1), TransactionOrigin::External, 0),
        Some(PoolErrorKind::FeeCapBelowMinimumProtocolFeeCap(6))
    );
    assert_eq!(
        pool.check_admission(&engine_tx(2, BOB, 0, 6, 1), TransactionOrigin::Private, 0),
        Some(PoolErrorKind::FeeCapBelowMinimumProtocolFeeCap(6))
    );
    assert_eq!(pool.check_admission(&engine_tx(2, BOB, 0, 6, 1), TransactionOrigin::Local, 0), None);
    // the nonce counts before the fee cap
    assert_eq!(
        pool.check_admission(&engine_tx(2, BOB, 0, 6, 1), TransactionOrigin::External, 1),
        Some(PoolErrorKind::InvalidTransaction(InvalidPoolTransactionError::NonceNotConsistent))
    );
    // nothing has changed
    assert_eq!(pool.len(), 1);

    let err = pool
        .add_transaction(held, TransactionOrigin::External, true, U256::from_u128(FUNDS), 0)
        .unwrap_err();
    assert_eq!(err.kind, PoolErrorKind::AlreadyImported);
    assert_eq!(err.hash, held.hash);
    assert!(!err.is_bad_transaction());
}

#[test]
fn a_pool_without_slots_takes_nothing() {
    let mut config = PoolConfig::default();
    config.max_account_slots = 0;
    let mut pool = engine_with(config);
    let tx = engine_tx(1, ALICE, 0, 100, 1);
    assert_eq!(pool.check_admission(&tx, TransactionOrigin::External, 0), Some(PoolErrorKind::SpammerExceededCapacity(ALICE)));
    let err = pool
        .add_transaction(tx, TransactionOrigin::External, true, U256::from_u128(FUNDS), 0)
        .unwrap_err();
    assert_eq!(err.kind, PoolErrorKind::SpammerExceededCapacity(ALICE));
    assert!(pool.is_empty());
}

#[test]
fn stale_transactions_do_not_count_for_the_slots() {
    let mut config = PoolConfig::default();
    config.max_account_slots = 2;
    let mut pool = engine_with(config);
    engine_add(&mut pool, engine_tx(1, ALICE, 0, 100, 1));
    engine_add(&mut pool, engine_tx(2, ALICE, 1, 100, 1));
    let third = engine_tx(3, ALICE, 2, 100, 1);
    assert_eq!(pool.check_admission(&third, TransactionOrigin::External, 0), Some(PoolErrorKind::SpammerExceededCapacity(ALICE)));
    // with the on-chain nonce at 1 the first transaction is stale and makes room
    assert_eq!(pool.check_admission(&third, TransactionOrigin::External, 1), None);
    let added = pool
        .add_transaction(third, TransactionOrigin::External, true, U256::from_u128(FUNDS), 1)
        .unwrap();
    assert_eq!(added.stale.len(), 1);
    assert_eq!(pool.len(), 2);
}

#[test]
fn the_worst_pending_transaction_has_the_lowest_rank() {
    let mut pool = engine(10);
    engine_add(&mut pool, engine_tx(1, ALICE, 0, 100, 5));
    engine_add(&mut pool, engine_tx(2, BOB, 0, 100, 3));
    engine_add(&mut pool, engine_tx(3, CAROL, 0, 100, 4));
    assert_eq!(pool.worst(SubPool::Pending), Some(1));
    let removed = pool.discard_worst(SubPool::Pending);
    assert_eq!(engine_nonces(&removed), vec![(BOB, 0)]);
    // of two with the same rank the later submission goes first
    engine_add(&mut pool, engine_tx(4, BOB, 0, 100, 4));
    let removed = pool.discard_worst(SubPool::Pending);
    assert_eq!(engine_nonces(&removed), vec![(BOB, 0)]);
    let removed = pool.discard_worst(SubPool::Pending);
    assert_eq!(engine_nonces(&removed), vec![(CAROL, 0)]);
    assert_eq!(pool.len(), 1);
    assert!(pool.discard_worst(SubPool::Queued).is_empty());
    assert_eq!(pool.len(), 1);
}

#[test]
fn the_later_transactions_of_the_sender_go_with_the_worst() {
    let mut pool = engine(10);
    engine_add(&mut pool, engine_tx(1, ALICE, 0, 100, 9));
    engine_add(&mut pool, engine_tx(2, ALICE, 1, 100, 1));
    engine_add(&mut pool, engine_tx(3, ALICE, 2, 100, 9));
    engine_add(&mut pool, engine_tx(4, BOB, 0, 100, 5));
    let removed = pool.discard_worst(SubPool::Pending);
    assert_eq!(engine_nonces(&removed), vec![(ALICE, 1), (ALICE, 2)]);
    assert_eq!(engine_nonces(&pool.all_transactions()), vec![(ALICE, 0), (BOB, 0)]);
}

#[test]
fn the_worst_of_the_base_fee_subpool_has_the_lowest_fee_cap() {
    let mut pool = engine(50);
    engine_add(&mut pool, engine_tx(1, ALICE, 0, 30, 1));
    engine_add(&mut pool, engine_tx(2, BOB, 0, 20, 1));
    engine_add(&mut pool, engine_tx(3, CAROL, 0, 20, 1));
    assert!(pool.all_transactions().iter().all(|h| h.subpool == SubPool::BaseFee));
    // the same fee cap: the later submission goes first
    assert_eq!(engine_nonces(&pool.discard_worst(SubPool::BaseFee)), vec![(CAROL, 0)]);
    assert_eq!(engine_nonces(&pool.discard_worst(SubPool::BaseFee)), vec![(BOB, 0)]);
    assert_eq!(engine_nonces(&pool.discard_worst(SubPool::BaseFee)), vec![(ALICE, 0)]);
    assert!(pool.is_empty());
}

#[test]
fn the_worst_of_the_blob_subpool_has_the_lowest_blob_fee_cap() {
    let mut pool = engine(10);
    let mut info = pool.block_info();
    info.pending_blob_fee = Some(10);
    pool.set_block_info(info);
    engine_add(&mut pool, engine_blob(1, ALICE, 0, 100, 3));
    engine_add(&mut pool, engine_blob(2, BOB, 0, 100, 2));
    engine_add(&mut pool, engine_blob(3, CAROL, 0, 100, 5));
    assert!(pool.all_transactions().iter().all(|h| h.subpool == SubPool::Blob));
    assert_eq!(pool.subpool_stats(SubPool::Blob), (3, 900));
    assert_eq!(engine_nonces(&pool.discard_worst(SubPool::Blob)), vec![(BOB, 0)]);
    assert_eq!(engine_nonces(&pool.discard_worst(SubPool::Blob)), vec![(ALICE, 0)]);
}

#[test]
fn the_worst_queued_transaction_is_furthest_from_the_on_chain_nonce() {
    let mut pool = engine(10);
    engine_add(&mut pool, engine_tx(1, ALICE, 3, 100, 1));
    engine_add(&mut pool, engine_tx(2, BOB, 5, 100, 1));
    engine_add(&mut pool, engine_tx(3, CAROL, 5, 100, 1));
    assert!(pool.all_transactions().iter().all(|h| h.subpool == SubPool::Queued));
    // equally far: the earlier submission goes first
    assert_eq!(engine_nonces(&pool.discard_worst(SubPool::Queued)), vec![(BOB, 5)]);
    assert_eq!(engine_nonces(&pool.discard_worst(SubPool::Queued)), vec![(CAROL, 5)]);
    assert_eq!(engine_nonces(&pool.discard_worst(SubPool::Queued)), vec![(ALICE, 3)]);
}

#[test]
fn limits_are_enforced_by_count_and_by_size() {
    let mut config = PoolConfig::default();
    config.pending_limit = SubPoolLimit::new(10, 250);
    config.queued_limit = SubPoolLimit::new(1, usize::MAX);
    let mut pool = engine_with(config);
    // three pending transactions of 100 bytes each, two queued
    engine_add(&mut pool, engine_tx(1, ALICE, 0, 100, 3));
    engine_add(&mut pool, engine_tx(2, BOB, 0, 100, 2));
    engine_add(&mut pool, engine_tx(3, CAROL, 0, 100, 1));
    engine_add(&mut pool, engine_tx(4, ALICE, 5, 100, 1));
    engine_add(&mut pool, engine_tx(5, BOB, 7, 100, 1));
    assert!(pool.is_exceeded());
    assert_eq!(pool.exceeded_subpool(), Some(SubPool::Pending));
    assert_eq!(pool.size().pending_size, 300);
    let discarded = pool.enforce_limits();
    // pending gives up Carol's (lowest rank); queued gives up Bob's (furthest)
    assert_eq!(engine_nonces(&discarded), vec![(CAROL, 0), (BOB, 7)]);
    assert!(!pool.is_exceeded());
    let size = pool.size();
    assert_eq!((size.pending, size.pending_size), (2, 200));
    assert_eq!((size.queued, size.queued_size), (1, 100));
    assert_eq!(size.total, 3);
    // nothing more to do
    assert!(pool.enforce_limits().is_empty());
    assert_eq!(pool.len(), 3);
}

#[test]
fn queries() {
    let mut pool = engine(10);
    let a0 = engine_tx(1, ALICE, 0, 100, 1);
    let a2 = engine_tx(2, ALICE, 2, 100, 1);
    let b0 = engine_tx(3, BOB, 0, 8, 1);
    for t in [a0, a2, b0] {
        engine_add(&mut pool, t);
    }
    assert_eq!(pool.get(&a2.hash).unwrap().tx, a2);
    assert!(pool.get(&B256::new(7, 7)).is_none());
    assert!(pool.contains(&b0.hash));
    let found = pool.get_all(&vec![b0.hash, B256::new(7, 7), a0.hash, b0.hash]);
    assert_eq!(found.iter().map(|h| h.tx).collect::<Vec<_>>(), vec![b0, a0, b0]);
    assert_eq!(engine_nonces(&pool.pending_transactions()), vec![(ALICE, 0)]);
    assert_eq!(engine_nonces(&pool.queued_transactions()), vec![(ALICE, 2)]);
    assert_eq!(engine_nonces(&pool.transactions_in(SubPool::BaseFee)), vec![(BOB, 0)]);
    assert!(pool.transactions_in(SubPool::Blob).is_empty());
    assert_eq!(engine_nonces(&pool.get_transactions_by_sender(&ALICE)), vec![(ALICE, 0), (ALICE, 2)]);
    assert!(pool.get_transactions_by_sender(&CAROL).is_empty());
    assert_eq!(pool.get_transaction_by_sender_and_nonce(&ALICE, 2).unwrap().tx, a2);
    assert!(pool.get_transaction_by_sender_and_nonce(&ALICE, 1).is_none());
    assert!(pool.get_transaction_by_sender_and_nonce(&CAROL, 0).is_none());
    assert_eq!(pool.config().max_account_slots, 16);
    let held = pool.get(&a0.hash).unwrap();
    assert_eq!(held.to_valid(), ValidPoolTransaction {
        transaction: a0,
        transaction_id: held.id,
        propagate: true,
        origin: TransactionOrigin::External,
    });
    assert_eq!(held.to_pending().priority, held.priority);
}

#[test]
fn a_mined_transaction_takes_the_earlier_ones_of_its_sender_along() {
    let mut pool = engine(10);
    let txs: Vec<Tx> = (0..4).map(|n| engine_tx(n as u128 + 1, ALICE, n, 100, 1)).collect();
    for t in &txs {
        engine_add(&mut pool, *t);
    }
    engine_add(&mut pool, engine_tx(9, BOB, 0, 100, 1));
    let update = CanonicalStateUpdate {
        block_hash: B256::new(5, 5),
        block_number: 12,
        pending_block_base_fee: 10,
        pending_block_blob_fee: Some(1),
        changed_accounts: vec![ChangedAccount { address: CAROL, nonce: 4, balance: U256::zero() }],
        mined_transactions: vec![txs[1].hash, B256::new(7, 7)],
    };
    let outcome = pool.on_canonical_state_change(&update);
    assert_eq!(outcome.block_hash, B256::new(5, 5));
    assert_eq!(engine_nonces(&outcome.mined), vec![(ALICE, 1)]);
    assert_eq!(engine_nonces(&outcome.discarded), vec![(ALICE, 0)]);
    assert_eq!(
        pool.all_transactions().iter().map(|h| (h.tx.sender, h.tx.nonce, h.subpool)).collect::<Vec<_>>(),
        vec![(ALICE, 2, SubPool::Pending), (ALICE, 3, SubPool::Pending), (BOB, 0, SubPool::Pending)]
    );
    assert_eq!(pool.block_info().pending_blob_fee, Some(1));
    assert_eq!(pool.block_info().last_seen_block_number, 12);
    assert_eq!(
        canonical_events(&outcome),
        vec![
            FullTransactionEvent { hash: txs[1].hash, event: TransactionEvent::Mined(B256::new(5, 5)) },
            FullTransactionEvent { hash: txs[0].hash, event: TransactionEvent::Discarded },
        ]
    );
}

#[test]
fn less_funds_demote_and_more_funds_promote() {
    let mut pool = engine(10);
    let txs: Vec<Tx> = (0..3).map(|n| engine_tx(n as u128 + 1, ALICE, n, 100, 1)).collect();
    for t in &txs {
        engine_add(&mut pool, *t);
    }
    let before = pool.all_transactions();
    let removed = pool.update_accounts(&vec![
        ChangedAccount { address: ALICE, nonce: 0, balance: U256::from_u64(3_000_000) },
        ChangedAccount { address: BOB, nonce: 9, balance: U256::zero() },
    ]);
    assert!(removed.is_empty());
    let after = pool.all_transactions();
    assert_eq!(
        after.iter().map(|h| h.subpool).collect::<Vec<_>>(),
        vec![SubPool::Pending, SubPool::Queued, SubPool::Queued]
    );
    assert_eq!(
        moves(&before, &after),
        vec![
            FullTransactionEvent { hash: txs[1].hash, event: TransactionEvent::Queued },
            FullTransactionEvent { hash: txs[2].hash, event: TransactionEvent::Queued },
        ]
    );
    pool.update_accounts(&vec![ChangedAccount {
        address: ALICE,
        nonce: 0,
        balance: U256::from_u64(4_200_000),
    }]);
    let later = pool.all_transactions();
    assert_eq!(
        moves(&after, &later),
        vec![FullTransactionEvent { hash: txs[1].hash, event: TransactionEvent::Pending }]
    );
    assert!(moves(&later, &later).is_empty());
    // what is held on one side only does not move
    assert!(moves(&later[..1].to_vec(), &later[1..].to_vec()).is_empty());
    assert!(moves(&vec![], &later).is_empty());
    assert!(in_order_of_ids(&later));
    assert!(in_order_of_ids(&vec![]));
    assert!(!in_order_of_ids(&vec![later[1], later[0]]));
    assert!(!in_order_of_ids(&vec![later[0], later[0]]));
}

#[test]
fn what_the_listeners_hear_after_a_replacement() {
    let old = HeldTx {
        tx: engine_tx(1, ALICE, 0, 100, 10),
        id: TransactionId::new(SenderId::new(0), 0),
        subpool: SubPool::Pending,
        submission_id: 0,
        cumulative_cost: None,
        priority: Priority::Unranked,
        origin: TransactionOrigin::External,
        propagate: true,
    };
    let mut other = old;
    other.tx = engine_tx(2, BOB, 0, 100, 10);
    let outcome = AddedTransactionOutcome {
        hash: B256::new(0, 3),
        subpool: SubPool::BaseFee,
        replaced: Some(old),
        discarded: vec![other, old],
    };
    assert_eq!(
        added_events(&outcome),
        vec![
            FullTransactionEvent { hash: B256::new(0, 3), event: TransactionEvent::Queued },
            FullTransactionEvent { hash: other.tx.hash, event: TransactionEvent::Discarded },
            FullTransactionEvent { hash: old.tx.hash, event: TransactionEvent::Replaced(B256::new(0, 3)) },
        ]
    );
    assert_eq!(event_of(SubPool::Pending), TransactionEvent::Pending);
    assert_eq!(event_of(SubPool::Blob), TransactionEvent::Queued);
    assert!(TransactionListenerKind::All.hears_of(false));
    assert!(TransactionListenerKind::PropagateOnly.hears_of(true));
    assert!(!TransactionListenerKind::PropagateOnly.hears_of(false));
    assert!(TransactionListenerKind::PropagateOnly.is_propagate_only());
    assert!(!TransactionListenerKind::All.is_propagate_only());
}

#[test]
fn splitting_by_hash_keeps_the_order() {
    let mut pool = engine(10);
    let txs: Vec<Tx> = (0..4).map(|n| engine_tx(n as u128 + 1, ALICE, n, 100, 1)).collect();
    for t in &txs {
        engine_add(&mut pool, *t);
    }
    let all = pool.all_transactions();
    let hashes = vec![txs[2].hash, txs[0].hash];
    let (with, without) = split_by_hash(&all, &hashes);
    assert_eq!(with.iter().map(|h| h.tx.nonce).collect::<Vec<_>>(), vec![0, 2]);
    assert_eq!(without.iter().map(|h| h.tx.nonce).collect::<Vec<_>>(), vec![1, 3]);
    assert!(hash_in(&hashes, &txs[0].hash));
    assert!(!hash_in(&hashes, &txs[1].hash));
}

fn stream_pending(id: u128, sender: u32, nonce: u64, tip: u64, submission_id: u64, blob: bool) -> PendingTransaction {
    let mut tx = engine_tx(id, Address::new(sender, 0), nonce, 1000, tip as u128);
    if blob {
        tx = engine_blob(id, Address::new(sender, 0), nonce, 1000, 1);
    }
    tx.gas_limit = 100;
    PendingTransaction {
        submission_id,
        transaction: ValidPoolTransaction {
            transaction: tx,
            transaction_id: TransactionId::new(SenderId::new(sender), nonce),
            propagate: true,
            origin: TransactionOrigin::External,
        },
        priority: Priority::Value(U256::from_u64(tip)),
    }
}

#[test]
fn a_higher_rank_behind_a_lower_one_has_to_wait() {
    let mut best = BestStream::new();
    best.add_transaction(stream_pending(1, 0, 0, 5, 0, false));
    best.add_transaction(stream_pending(2, 0, 1, 50, 1, false));
    best.add_transaction(stream_pending(3, 1, 0, 7, 2, false));
    best.add_transaction(stream_pending(4, 1, 1, 1, 3, false));
    let mut given = vec![];
    while let Some(tx) = best.next_ready() {
        given.push((tx.sender_id().0, tx.nonce()));
    }
    // 7 first; then 5 beats 1; then 50, which 5 has set free; then 1
    assert_eq!(given, vec![(1, 0), (0, 0), (0, 1), (1, 1)]);
    assert_eq!(best.len(), 0);
}

#[test]
fn equal_ranks_go_by_submission() {
    let mut best = BestStream::new();
    best.add_transaction(stream_pending(1, 0, 0, 5, 9, false));
    best.add_transaction(stream_pending(2, 1, 0, 5, 3, false));
    best.add_transaction(stream_pending(3, 2, 0, 5, 6, false));
    let order: Vec<u32> =
        std::iter::from_fn(|| best.next()).map(|tx| tx.sender_id().0).collect();
    assert_eq!(order, vec![1, 2, 0]);
}

#[test]
fn an_invalid_sender_gives_nothing_more() {
    let mut best = BestStream::new();
    let first = stream_pending(1, 0, 0, 5, 0, false);
    best.add_transaction(first);
    best.add_transaction(stream_pending(2, 0, 1, 5, 1, false));
    best.add_transaction(stream_pending(3, 1, 0, 1, 2, false));
    best.mark_invalid(&first.transaction, InvalidPoolTransactionError::Underpriced);
    assert_eq!(best.independent_len(), 1);
    // the transactions of the sender stay in the stream, but are not offered
    assert_eq!(best.len(), 3);
    // not even when they come anew
    best.add_transaction(stream_pending(4, 0, 5, 99, 3, false));
    assert_eq!(best.len(), 4);
    assert_eq!(best.independent_len(), 1);
    assert_eq!(best.next().unwrap().sender_id().0, 1);
    assert!(best.next().is_none());
}

#[test]
fn a_transaction_takes_the_place_of_one_with_the_same_identifier() {
    let mut best = BestStream::new();
    best.add_transaction(stream_pending(1, 0, 0, 5, 0, false));
    let newer = stream_pending(2, 0, 0, 6, 1, false);
    best.add_transaction(newer);
    assert_eq!(best.len(), 1);
    assert!(best.is_independent(&newer));
    assert_eq!(best.independent(), vec![newer]);
    assert_eq!(newer.unlocks(), Some(TransactionId::new(SenderId::new(0), 1)));
    assert_eq!(best.next().unwrap(), newer.transaction);
}

#[test]
fn the_budget_bounds_the_looks_into_the_channel() {
    let mut best = BestStream::new();
    let (sender, receiver) = tokio::sync::broadcast::channel::<PendingTransaction>(16);
    best.set_receiver(receiver, 2);
    for n in 0..4 {
        sender.send(stream_pending(n as u128 + 1, n, 0, 5, n as u64, false)).unwrap();
    }
    best.add_new_transactions();
    assert_eq!(best.len(), 2);
    // the budget is used up: nothing more is taken in
    best.add_new_transactions();
    assert_eq!(best.len(), 2);
    assert!(best.next().is_some());
    assert!(best.next().is_some());
    assert!(best.next().is_none());
}

#[test]
fn a_receiver_that_has_fallen_behind_goes_on() {
    let mut best = BestStream::new();
    let (sender, receiver) = tokio::sync::broadcast::channel::<PendingTransaction>(2);
    best.set_receiver(receiver, usize::MAX);
    for n in 0..5 {
        sender.send(stream_pending(n as u128 + 1, n, 0, 5, n as u64, false)).unwrap();
    }
    // the first three were overwritten; the last two are still there
    best.add_new_transactions();
    assert_eq!(best.len(), 2);
    let order: Vec<u32> =
        std::iter::from_fn(|| best.next()).map(|tx| tx.sender_id().0).collect();
    assert_eq!(order, vec![3, 4]);
    // a closed channel ends the taking in
    drop(sender);
    best.add_new_transactions();
    assert!(best.next().is_none());
}

#[test]
fn an_arrival_that_is_left_out_does_not_hide_the_next() {
    let mut best = BestStream::new();
    best.add_transaction(stream_pending(1, 0, 0, 50, 0, false));
    let (sender, receiver) = tokio::sync::broadcast::channel::<PendingTransaction>(16);
    best.set_receiver(receiver, usize::MAX);
    assert_eq!(best.next().unwrap().sender_id().0, 0);
    // 50 was given out last: 60 is left out, 40 and 50 behind it are taken in
    sender.send(stream_pending(2, 1, 0, 60, 1, false)).unwrap();
    sender.send(stream_pending(3, 2, 0, 40, 2, false)).unwrap();
    sender.send(stream_pending(4, 3, 0, 50, 3, false)).unwrap();
    best.add_new_transactions();
    assert_eq!(best.len(), 2);
    let order: Vec<u32> =
        std::iter::from_fn(|| best.next()).map(|tx| tx.sender_id().0).collect();
    assert_eq!(order, vec![3, 2]);
}

#[test]
fn buffered_blob_transactions_are_dropped_when_blobs_are_skipped() {
    let mut inner = BestStream::new();
    inner.add_transaction(stream_pending(1, 0, 0, 9, 0, true));
    inner.add_transaction(stream_pending(2, 1, 0, 8, 1, false));
    inner.add_transaction(stream_pending(3, 2, 0, 7, 2, false));
    // the sender put first has a transaction of 100 gas, which fits under the cap
    let mut best =
        BestTransactionsWithPrioritizedSenders::new(vec![Address::new(2, 0)], 150, inner);
    assert_eq!(best.next().unwrap().sender_id().0, 2);
    // the two others were set aside; the blob transaction among them is dropped
    best.set_skip_blobs(true);
    assert_eq!(best.next().unwrap().sender_id().0, 1);
    assert!(best.next().is_none());
}

#[test]
fn a_transaction_above_the_cap_is_not_put_first() {
    let mut inner = BestStream::new();
    inner.add_transaction(stream_pending(1, 0, 0, 9, 0, false));
    inner.add_transaction(stream_pending(2, 1, 0, 8, 1, false));
    inner.add_transaction(stream_pending(3, 1, 1, 7, 2, false));
    // 100 gas fit under the cap of 199, 200 do not
    let mut best =
        BestTransactionsWithPrioritizedSenders::new(vec![Address::new(1, 0)], 199, inner);
    let order: Vec<(u32, u64)> =
        std::iter::from_fn(|| best.next()).map(|tx| (tx.sender_id().0, tx.nonce())).collect();
    assert_eq!(order, vec![(1, 0), (0, 0), (1, 1)]);
}

#[test]
fn what_a_look_into_the_channel_gives_is_dealt_with() {
    let mut best = BestStream::new();
    best.add_transaction(stream_pending(1, 0, 0, 5, 0, false));
    let (_sender, receiver) = tokio::sync::broadcast::channel::<PendingTransaction>(4);
    best.set_receiver(receiver, 10);
    // nothing given out yet: any rank is taken in
    assert!(best.take_polled(Polled::Item(stream_pending(2, 1, 0, 99, 1, false))));
    assert_eq!(best.len(), 2);
    assert_eq!(best.next().unwrap().sender_id().0, 1);
    // 99 was given out last: 100 is left out, and the stream looks again
    assert!(best.take_polled(Polled::Item(stream_pending(3, 2, 0, 100, 2, false))));
    assert_eq!(best.len(), 1);
    // the same rank is taken in
    assert!(best.take_polled(Polled::Item(stream_pending(4, 3, 0, 99, 3, false))));
    assert_eq!(best.len(), 2);
    assert!(best.take_polled(Polled::Lagged));
    assert!(!best.take_polled(Polled::Empty));
    assert!(!best.take_polled(Polled::Closed));
    assert_eq!(best.len(), 2);
    // without the channel the rank given out last is forgotten
    best.no_updates();
    assert!(best.take_polled(Polled::Item(stream_pending(5, 4, 0, 1000, 4, false))));
    assert_eq!(best.next().unwrap().sender_id().0, 4);
}

#[test]
fn a_pool_that_has_run_out_of_submission_numbers_takes_nothing() {
    let mut pool = TxPool::starting_at(CoinbaseTipOrdering::new(), PoolConfig::default(), u64::MAX - 1);
    let first = engine_tx(1, ALICE, 0, 100, 1);
    assert_eq!(engine_add(&mut pool, first).submission_id, u64::MAX - 1);
    let second = engine_tx(2, ALICE, 1, 100, 1);
    assert_eq!(pool.check_admission(&second, TransactionOrigin::External, 0), Some(PoolErrorKind::Internal));
    let err = pool
        .add_transaction(second, TransactionOrigin::External, true, U256::from_u128(FUNDS), 0)
        .unwrap_err();
    assert_eq!(err.kind, PoolErrorKind::Internal);
    assert_eq!(pool.len(), 1);
}
