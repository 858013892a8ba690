use std::collections::HashSet;
use txpool::best::{BestTransactions as BestStream, PendingTransaction};
use txpool::error::InvalidPoolTransactionError;
use txpool::filters::{
    BestTransactionFilter, BestTransactionsWithFees, BestTransactionsWithPrioritizedSenders,
};
use txpool::identifier::{SenderIdentifiers, TransactionId};
use txpool::ordering::{CoinbaseTipOrdering, Priority, TransactionOrdering};
use txpool::primitives::{Address, B256, U256};
use txpool::traits::{BestTransactions, ValidPoolTransaction};
use txpool::transaction::{TransactionOrigin, Tx, TxType};

/// Hands out transactions with fresh hashes and senders, and validated
/// transactions with interned senders.
struct BestFactory {
    ids: SenderIdentifiers,
    counter: u128,
}

impl BestFactory {
    fn new() -> Self {
        BestFactory { ids: SenderIdentifiers::new(), counter: 0 }
    }

    fn fresh(&mut self) -> u128 {
        self.counter += 1;
        self.counter
    }

    fn eip1559(&mut self) -> Tx {
        let hash = B256::new(1, self.fresh());
        let sender = Address::new(7, self.fresh());
        Tx {
            hash,
            sender,
            nonce: 0,
            gas_limit: 0,
            max_fee_per_gas: 7,
            max_priority_fee_per_gas: 7,
            max_fee_per_blob_gas: None,
            tx_type: TxType::DynamicFee,
            value: U256::zero(),
            encoded_size: 0,
            blob_gas_limit: 0,
            cost: U256::zero(),
        }
    }

    fn eip4844(&mut self) -> Tx {
        let mut tx = self.eip1559();
        tx.tx_type = TxType::Blob;
        tx.max_fee_per_blob_gas = Some(131072);
        tx
    }

    fn rng_hash(&mut self, mut tx: Tx) -> Tx {
        tx.hash = B256::new(2, self.fresh());
        tx
    }

    fn validated(&mut self, tx: Tx) -> ValidPoolTransaction {
        let sender = self.ids.sender_id_or_create(tx.sender).unwrap();
        ValidPoolTransaction {
            transaction: tx,
            transaction_id: TransactionId::new(sender, tx.nonce),
            propagate: false,
            origin: TransactionOrigin::External,
        }
    }
}

fn best_with_nonce(mut tx: Tx, nonce: u64) -> Tx {
    tx.nonce = nonce;
    tx
}

fn best_with_max_fee(mut tx: Tx, fee: u128) -> Tx {
    tx.max_fee_per_gas = fee;
    tx
}

fn best_with_blob_fee(mut tx: Tx, fee: u128) -> Tx {
    tx.max_fee_per_blob_gas = Some(fee);
    tx
}

fn best_with_gas_price(mut tx: Tx, price: u128) -> Tx {
    tx.max_fee_per_gas = price;
    tx.max_priority_fee_per_gas = price;
    tx
}

fn best_with_gas_limit(mut tx: Tx, gas_limit: u64) -> Tx {
    tx.gas_limit = gas_limit;
    tx
}

/// A pool of pending transactions as a stream is made from: every
/// transaction gets the next submission number and the rank that the tip
/// gives it at the base fee.
struct PendingSet {
    stream: BestStream,
    submission_id: u64,
}

impl PendingSet {
    fn new() -> Self {
        PendingSet { stream: BestStream::new(), submission_id: 0 }
    }

    fn add_transaction(&mut self, tx: ValidPoolTransaction, base_fee: u64) {
        let priority = CoinbaseTipOrdering::new().priority(&tx.transaction, base_fee);
        let pending = PendingTransaction { submission_id: self.submission_id, transaction: tx, priority };
        self.submission_id += 1;
        self.stream.add_transaction(pending);
    }

    fn best(self) -> BestStream {
        self.stream
    }

    fn best_with_basefee_and_blobfee(self, base_fee: u64, blob_fee: u64) -> BestTransactionsWithFees {
        BestTransactionsWithFees::new(self.stream, base_fee, blob_fee)
    }
}

#[test]
fn test_best_iter() {
    let mut pool = PendingSet::new();
    let mut f = BestFactory::new();

    let num_tx = 10;
    // insert 10 gapless tx
    let tx = f.eip1559();
    for nonce in 0..num_tx {
        let tx = best_with_nonce(f.rng_hash(tx), nonce);
        let valid_tx = f.validated(tx);
        pool.add_transaction(valid_tx, 0);
    }

    let mut best = pool.best();
    assert_eq!(best.len(), num_tx as usize);
    assert_eq!(best.independent_len(), 1);

    // check tx are returned in order
    for nonce in 0..num_tx {
        assert_eq!(best.independent_len(), 1);
        let tx = best.next().unwrap();
        assert_eq!(tx.nonce(), nonce);
    }
}

#[test]
fn test_best_iter_invalid() {
    let mut pool = PendingSet::new();
    let mut f = BestFactory::new();

    let num_tx = 10;
    // insert 10 gapless tx
    let tx = f.eip1559();
    for nonce in 0..num_tx {
        let tx = best_with_nonce(f.rng_hash(tx), nonce);
        let valid_tx = f.validated(tx);
        pool.add_transaction(valid_tx, 0);
    }

    let mut best = pool.best();

    // mark the first tx as invalid
    let invalid = best.independent()[0];
    best.mark_invalid(&invalid.transaction, InvalidPoolTransactionError::TxTypeNotSupported);

    // iterator is empty
    assert!(best.next().is_none());
}

#[test]
fn test_best_transactions_iter_invalid() {
    let mut pool = PendingSet::new();
    let mut f = BestFactory::new();

    let num_tx = 10;
    // insert 10 gapless tx
    let tx = f.eip1559();
    for nonce in 0..num_tx {
        let tx = best_with_nonce(f.rng_hash(tx), nonce);
        let valid_tx = f.validated(tx);
        pool.add_transaction(valid_tx, 0);
    }

    let mut best: Box<dyn BestTransactions> = Box::new(pool.best());

    let tx = best.next().unwrap();
    best.mark_invalid(&tx, InvalidPoolTransactionError::TxTypeNotSupported);
    assert!(best.next().is_none());
}

#[test]
fn test_best_with_fees_iter_base_fee_satisfied() {
    let mut pool = PendingSet::new();
    let mut f = BestFactory::new();

    let num_tx = 5;
    let base_fee: u64 = 10;
    let base_fee_per_blob_gas: u64 = 15;

    // Insert transactions with a max_fee_per_gas greater than or equal to the base fee
    // Without blob fee
    for nonce in 0..num_tx {
        let tx = f.eip1559();
        let tx = best_with_max_fee(best_with_nonce(f.rng_hash(tx), nonce), base_fee as u128 + 5);
        let valid_tx = f.validated(tx);
        pool.add_transaction(valid_tx, 0);
    }

    let mut best = pool.best_with_basefee_and_blobfee(base_fee, base_fee_per_blob_gas);

    for nonce in 0..num_tx {
        let tx = best.next().expect("Transaction should be returned");
        assert_eq!(tx.nonce(), nonce);
        assert!(tx.transaction.max_fee_per_gas >= base_fee as u128);
    }
}

#[test]
fn test_best_with_fees_iter_base_fee_violated() {
    let mut pool = PendingSet::new();
    let mut f = BestFactory::new();

    let num_tx = 5;
    let base_fee: u64 = 20;
    let base_fee_per_blob_gas: u64 = 15;

    // Insert transactions with a max_fee_per_gas less than the base fee
    for nonce in 0..num_tx {
        let tx = f.eip1559();
        let tx = best_with_max_fee(best_with_nonce(f.rng_hash(tx), nonce), base_fee as u128 - 5);
        let valid_tx = f.validated(tx);
        pool.add_transaction(valid_tx, 0);
    }

    let mut best = pool.best_with_basefee_and_blobfee(base_fee, base_fee_per_blob_gas);

    // No transaction should be returned since all violate the base fee
    assert!(best.next().is_none());
}

#[test]
fn test_best_with_fees_iter_blob_fee_satisfied() {
    let mut pool = PendingSet::new();
    let mut f = BestFactory::new();

    let num_tx = 5;
    let base_fee: u64 = 10;
    let base_fee_per_blob_gas: u64 = 20;

    // Insert transactions with a max_fee_per_blob_gas greater than or equal to the base fee per
    // blob gas
    for nonce in 0..num_tx {
        let tx = f.eip4844();
        let tx = best_with_blob_fee(
            best_with_max_fee(best_with_nonce(f.rng_hash(tx), nonce), base_fee as u128 + 5),
            base_fee_per_blob_gas as u128 + 5,
        );
        let valid_tx = f.validated(tx);
        pool.add_transaction(valid_tx, 0);
    }

    let mut best = pool.best_with_basefee_and_blobfee(base_fee, base_fee_per_blob_gas);

    // All transactions should be returned in order since they satisfy both base fee and blob
    // fee
    for nonce in 0..num_tx {
        let tx = best.next().expect("Transaction should be returned");
        assert_eq!(tx.nonce(), nonce);
        assert!(tx.transaction.max_fee_per_gas >= base_fee as u128);
        assert!(tx.transaction.max_fee_per_blob_gas.unwrap() >= base_fee_per_blob_gas as u128);
    }

    // No more transactions should be returned
    assert!(best.next().is_none());
}

#[test]
fn test_best_with_fees_iter_blob_fee_violated() {
    let mut pool = PendingSet::new();
    let mut f = BestFactory::new();

    let num_tx = 5;
    let base_fee: u64 = 10;
    let base_fee_per_blob_gas: u64 = 20;

    // Insert transactions with a max_fee_per_blob_gas less than the base fee per blob gas
    for nonce in 0..num_tx {
        let tx = f.eip4844();
        let tx = best_with_blob_fee(
            best_with_max_fee(best_with_nonce(f.rng_hash(tx), nonce), base_fee as u128 + 5),
            base_fee_per_blob_gas as u128 - 5,
        );
        let valid_tx = f.validated(tx);
        pool.add_transaction(valid_tx, 0);
    }

    let mut best = pool.best_with_basefee_and_blobfee(base_fee, base_fee_per_blob_gas);

    // No transaction should be returned since all violate the blob fee
    assert!(best.next().is_none());
}

#[test]
fn test_best_with_fees_iter_mixed_fees() {
    let mut pool = PendingSet::new();
    let mut f = BestFactory::new();

    let base_fee: u64 = 10;
    let base_fee_per_blob_gas: u64 = 20;

    // Insert transactions with varying max_fee_per_gas and max_fee_per_blob_gas
    let tx1 = f.eip1559();
    let tx1 = best_with_max_fee(best_with_nonce(f.rng_hash(tx1), 0), base_fee as u128 + 5);
    let tx2 = f.eip4844();
    let tx2 = best_with_blob_fee(
        best_with_max_fee(best_with_nonce(f.rng_hash(tx2), 1), base_fee as u128 + 5),
        base_fee_per_blob_gas as u128 + 5,
    );
    let tx3 = f.eip4844();
    let tx3 = best_with_blob_fee(
        best_with_max_fee(best_with_nonce(f.rng_hash(tx3), 2), base_fee as u128 + 5),
        base_fee_per_blob_gas as u128 - 5,
    );
    let tx4 = f.eip1559();
    let tx4 = best_with_max_fee(best_with_nonce(f.rng_hash(tx4), 3), base_fee as u128 - 5);

    let v1 = f.validated(tx1);
    pool.add_transaction(v1, 0);
    let v2 = f.validated(tx2);
    pool.add_transaction(v2, 0);
    let v3 = f.validated(tx3);
    pool.add_transaction(v3, 0);
    let v4 = f.validated(tx4);
    pool.add_transaction(v4, 0);

    let mut best = pool.best_with_basefee_and_blobfee(base_fee, base_fee_per_blob_gas);

    let expected_order = vec![tx1, tx2];
    for expected_tx in expected_order {
        let tx = best.next().expect("Transaction should be returned");
        assert_eq!(tx.transaction, expected_tx);
    }

    // No more transactions should be returned
    assert!(best.next().is_none());
}

#[test]
fn test_best_add_transaction_with_next_nonce() {
    let mut pool = PendingSet::new();
    let mut f = BestFactory::new();

    // Add 5 transactions with increasing nonces to the pool
    let num_tx = 5;
    let tx = f.eip1559();
    for nonce in 0..num_tx {
        let tx = best_with_nonce(f.rng_hash(tx), nonce);
        let valid_tx = f.validated(tx);
        pool.add_transaction(valid_tx, 0);
    }

    // Create a BestTransactions iterator from the pool
    let mut best = pool.best();

    // Use a broadcast channel for transaction updates
    let (tx_sender, tx_receiver) = tokio::sync::broadcast::channel::<PendingTransaction>(1000);
    best.set_receiver(tx_receiver, usize::MAX);

    // Create a new transaction with nonce 5 and validate it
    let new_tx = f.eip1559();
    let new_tx = best_with_nonce(f.rng_hash(new_tx), 5);
    let valid_new_tx = f.validated(new_tx);

    // Send the new transaction through the broadcast channel
    let pending_tx = PendingTransaction {
        submission_id: 10,
        transaction: valid_new_tx,
        priority: Priority::Value(U256::from_u64(1000)),
    };
    tx_sender.send(pending_tx).unwrap();

    // Add new transactions to the iterator
    best.add_new_transactions();

    // Verify that the new transaction has been added to the 'all' map
    assert_eq!(best.len(), 6);
    assert!(best.contains(&valid_new_tx.id()));

    // Verify that the new transaction has been added to the 'independent' set
    assert_eq!(best.independent_len(), 2);
    assert!(best.is_independent(&pending_tx));
}

#[test]
fn test_best_add_transaction_with_ancestor() {
    // Initialize a new pending set and factory
    let mut pool = PendingSet::new();
    let mut f = BestFactory::new();

    // Add 5 transactions with increasing nonces to the pool
    let num_tx = 5;
    let tx = f.eip1559();
    for nonce in 0..num_tx {
        let tx = best_with_nonce(f.rng_hash(tx), nonce);
        let valid_tx = f.validated(tx);
        pool.add_transaction(valid_tx, 0);
    }

    // Create a BestTransactions iterator from the pool
    let mut best = pool.best();

    // Use a broadcast channel for transaction updates
    let (tx_sender, tx_receiver) = tokio::sync::broadcast::channel::<PendingTransaction>(1000);
    best.set_receiver(tx_receiver, usize::MAX);

    // Create a new transaction with nonce 5 and validate it
    let base_tx1 = f.eip1559();
    let base_tx1 = best_with_nonce(f.rng_hash(base_tx1), 5);
    let valid_new_tx1 = f.validated(base_tx1);

    // Send the new transaction through the broadcast channel
    let pending_tx1 = PendingTransaction {
        submission_id: 10,
        transaction: valid_new_tx1,
        priority: Priority::Value(U256::from_u64(1000)),
    };
    tx_sender.send(pending_tx1).unwrap();

    // Add new transactions to the iterator
    best.add_new_transactions();

    // Verify that the new transaction has been added to the 'all' map
    assert_eq!(best.len(), 6);
    assert!(best.contains(&valid_new_tx1.id()));

    // Verify that the new transaction has been added to the 'independent' set
    assert_eq!(best.independent_len(), 2);
    assert!(best.is_independent(&pending_tx1));

    // Attempt to add a new transaction with a different nonce (not a duplicate)
    let base_tx2 = best_with_nonce(base_tx1, 6);
    let valid_new_tx2 = f.validated(base_tx2);

    // Send the new transaction through the broadcast channel
    let pending_tx2 = PendingTransaction {
        submission_id: 11, // Different submission ID
        transaction: valid_new_tx2,
        priority: Priority::Value(U256::from_u64(1000)),
    };
    tx_sender.send(pending_tx2).unwrap();

    // Add new transactions to the iterator
    best.add_new_transactions();

    // Verify that the new transaction has been added to 'all'
    assert_eq!(best.len(), 7);
    assert!(best.contains(&valid_new_tx2.id()));

    // Verify that the new transaction has not been added to the 'independent' set
    assert_eq!(best.independent_len(), 2);
    assert!(!best.is_independent(&pending_tx2));
}

#[test]
fn test_best_transactions_filter_trait_object() {
    // Initialize a new pending set and factory
    let mut pool = PendingSet::new();
    let mut f = BestFactory::new();

    // Add 5 transactions with increasing nonces to the pool
    let num_tx = 5;
    let tx = f.eip1559();
    for nonce in 0..num_tx {
        let tx = best_with_nonce(f.rng_hash(tx), nonce);
        let valid_tx = f.validated(tx);
        pool.add_transaction(valid_tx, 0);
    }

    // Create a stream from the pool
    let best = pool.best();

    // Create a filter that only returns transactions with even nonces
    let mut filter =
        BestTransactionFilter::new(best, |tx: &ValidPoolTransaction| tx.nonce() % 2 == 0);

    // Verify that the filter only returns transactions with even nonces
    let mut seen = 0;
    while let Some(tx) = filter.next() {
        assert_eq!(tx.nonce() % 2, 0);
        seen += 1;
    }
    assert_eq!(seen, 1);
}

#[test]
fn test_best_transactions_prioritized_senders() {
    let mut pool = PendingSet::new();
    let mut f = BestFactory::new();

    // Add 5 plain transactions from different senders with increasing gas price
    for gas_price in 0..5 {
        let tx = f.eip1559();
        let tx = best_with_gas_price(tx, (gas_price + 1) * 10);
        let valid_tx = f.validated(tx);
        pool.add_transaction(valid_tx, 0);
    }

    // Add another transaction with 5 gas price that's going to be prioritized by sender
    let prioritized_tx = f.eip1559();
    let prioritized_tx = best_with_gas_limit(best_with_gas_price(prioritized_tx, 5), 200);
    let valid_prioritized_tx = f.validated(prioritized_tx);
    pool.add_transaction(valid_prioritized_tx, 0);

    // Add another transaction with 3 gas price that should not be prioritized by sender because
    // of gas limit.
    let prioritized_tx2 = f.eip1559();
    let prioritized_tx2 = best_with_gas_price(prioritized_tx2, 3);
    let valid_prioritized_tx2 = f.validated(prioritized_tx2);
    pool.add_transaction(valid_prioritized_tx2, 0);

    let prioritized_senders: HashSet<Address> =
        HashSet::from([prioritized_tx.sender, prioritized_tx2.sender]);
    let mut iter = BestTransactionsWithPrioritizedSenders::new(
        prioritized_senders.into_iter().collect(),
        200,
        pool.best(),
    );

    // Verify that the prioritized transaction is returned first
    // and the rest are returned in the reverse order of gas price
    let top_of_block_tx = iter.next().unwrap();
    assert_eq!(top_of_block_tx.max_fee_per_gas(), 5);
    assert_eq!(top_of_block_tx.sender(), prioritized_tx.sender);
    for gas_price in (0..5).rev() {
        assert_eq!(iter.next().unwrap().max_fee_per_gas(), (gas_price + 1) * 10);
    }

    // Due to the gas limit, the transaction from second prioritized sender was not
    // prioritized.
    let top_of_block_tx2 = iter.next().unwrap();
    assert_eq!(top_of_block_tx2.max_fee_per_gas(), 3);
    assert_eq!(top_of_block_tx2.sender(), prioritized_tx2.sender);
}

#[test]
fn test_best_with_fees_iter_no_blob_fee_required() {
    // Tests transactions without blob fees where base fees are checked.
    let mut pool = PendingSet::new();
    let mut f = BestFactory::new();

    let base_fee: u64 = 10;
    let base_fee_per_blob_gas: u64 = 0; // No blob fee requirement

    // Insert transactions with max_fee_per_gas above the base fee
    for nonce in 0..5 {
        let tx = f.eip1559();
        let tx = best_with_max_fee(best_with_nonce(f.rng_hash(tx), nonce), base_fee as u128 + 5);
        let valid_tx = f.validated(tx);
        pool.add_transaction(valid_tx, 0);
    }

    let mut best = pool.best_with_basefee_and_blobfee(base_fee, base_fee_per_blob_gas);

    // All transactions should be returned as no blob fee requirement is imposed
    for nonce in 0..5 {
        let tx = best.next().expect("Transaction should be returned");
        assert_eq!(tx.nonce(), nonce);
    }

    // Ensure no more transactions are left
    assert!(best.next().is_none());
}

#[test]
fn test_best_with_fees_iter_mix_of_blob_and_non_blob_transactions() {
    // Tests mixed streams with both blob and non-blob transactions.
    let mut pool = PendingSet::new();
    let mut f = BestFactory::new();

    let base_fee: u64 = 10;
    let base_fee_per_blob_gas: u64 = 15;

    // Add a non-blob transaction that satisfies the base fee
    let tx_non_blob = f.eip1559();
    let tx_non_blob =
        best_with_max_fee(best_with_nonce(f.rng_hash(tx_non_blob), 0), base_fee as u128 + 5);
    let valid = f.validated(tx_non_blob);
    pool.add_transaction(valid, 0);

    // Add a blob transaction that satisfies both base fee and blob fee
    let tx_blob = f.eip4844();
    let tx_blob = best_with_blob_fee(
        best_with_max_fee(best_with_nonce(f.rng_hash(tx_blob), 1), base_fee as u128 + 5),
        base_fee_per_blob_gas as u128 + 5,
    );
    let valid = f.validated(tx_blob);
    pool.add_transaction(valid, 0);

    let mut best = pool.best_with_basefee_and_blobfee(base_fee, base_fee_per_blob_gas);

    // Verify both transactions are returned
    let tx = best.next().expect("Transaction should be returned");
    assert_eq!(tx.transaction, tx_non_blob);

    let tx = best.next().expect("Transaction should be returned");
    assert_eq!(tx.transaction, tx_blob);

    // Ensure no more transactions are left
    assert!(best.next().is_none());
}

#[test]
fn test_best_transactions_with_skipping_blobs() {
    // Tests the skip_blobs functionality to ensure blob transactions are skipped.
    let mut pool = PendingSet::new();
    let mut f = BestFactory::new();

    // Add a blob transaction
    let tx_blob = f.eip4844();
    let tx_blob = best_with_blob_fee(best_with_nonce(f.rng_hash(tx_blob), 0), 100);
    let valid_blob_tx = f.validated(tx_blob);
    pool.add_transaction(valid_blob_tx, 0);

    // Add a non-blob transaction
    let tx_non_blob = f.eip1559();
    let tx_non_blob = best_with_max_fee(best_with_nonce(f.rng_hash(tx_non_blob), 1), 200);
    let valid_non_blob_tx = f.validated(tx_non_blob);
    pool.add_transaction(valid_non_blob_tx, 0);

    let mut best = pool.best();
    best.skip_blobs();

    // Only the non-blob transaction should be returned
    let tx = best.next().expect("Transaction should be returned");
    assert_eq!(tx.transaction, tx_non_blob);

    // Ensure no more transactions are left
    assert!(best.next().is_none());
}

#[test]
fn test_best_transactions_no_updates() {
    // Tests the no_updates functionality to ensure it properly clears the
    // new_transaction_receiver.
    let mut pool = PendingSet::new();
    let mut f = BestFactory::new();

    // Add a transaction
    let tx = f.eip1559();
    let tx = best_with_max_fee(best_with_nonce(f.rng_hash(tx), 0), 100);
    let valid_tx = f.validated(tx);
    pool.add_transaction(valid_tx, 0);

    let mut best = pool.best();

    // Use a broadcast channel for transaction updates
    let (_tx_sender, tx_receiver) = tokio::sync::broadcast::channel::<PendingTransaction>(1000);
    best.set_receiver(tx_receiver, usize::MAX);

    // Ensure receiver is set
    assert!(best.has_receiver());

    // Call no_updates to clear the receiver
    best.no_updates();

    // Ensure receiver is cleared
    assert!(!best.has_receiver());
}

#[test]
fn test_best_update_transaction_priority() {
    let mut pool = PendingSet::new();
    let mut f = BestFactory::new();

    // Add 5 transactions with increasing nonces to the pool
    let num_tx = 5;
    let tx = f.eip1559();
    for nonce in 0..num_tx {
        let tx = best_with_nonce(f.rng_hash(tx), nonce);
        let valid_tx = f.validated(tx);
        pool.add_transaction(valid_tx, 0);
    }

    // Create a BestTransactions iterator from the pool
    let mut best = pool.best();

    // Use a broadcast channel for transaction updates
    let (tx_sender, tx_receiver) = tokio::sync::broadcast::channel::<PendingTransaction>(1000);
    best.set_receiver(tx_receiver, usize::MAX);

    // yield one tx, effectively locking in the highest prio
    let first = best.next().unwrap();

    // Create a new transaction with nonce 0 and validate it
    let new_higher_fee_tx = f.eip1559();
    let new_higher_fee_tx = best_with_nonce(new_higher_fee_tx, 0);
    let valid_new_higher_fee_tx = f.validated(new_higher_fee_tx);

    // Send the new transaction through the broadcast channel
    let pending_tx = PendingTransaction {
        submission_id: 10,
        transaction: valid_new_higher_fee_tx,
        priority: Priority::Value(U256::from_u64(u64::MAX)),
    };
    tx_sender.send(pending_tx).unwrap();

    // ensure that the higher prio tx is skipped since we yielded a lower one
    let mut seen = 0;
    while let Some(tx) = best.next() {
        assert_eq!(tx.sender_id(), first.sender_id());
        assert_ne!(tx.sender_id(), valid_new_higher_fee_tx.sender_id());
        seen += 1;
    }
    assert_eq!(seen, 4);
}
