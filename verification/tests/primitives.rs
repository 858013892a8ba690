use txpool::attached::Attached;
use txpool::config::{
    outbids, replaces, LocalTransactionConfig, PoolConfig, PriceBumpConfig, SubPoolLimit,
    DEFAULT_PRICE_BUMP, REPLACE_BLOB_PRICE_BUMP, TXPOOL_MAX_ACCOUNT_SLOTS_PER_SENDER,
};
use txpool::identifier::{SenderId, SenderIdentifiers, TransactionId};
use txpool::ordering::{CoinbaseTipOrdering, Priority, TransactionOrdering};
use txpool::primitives::{Address, B256, U256};
use txpool::state::{classify_transaction, SubPool};
use txpool::transaction::{compute_cost, TransactionOrigin, Tx, TxType};

fn prim_tx(max_fee: u128, priority_fee: u128, blob_fee: Option<u128>) -> Tx {
    Tx::new(
        B256::new(0, 1),
        Address::new(0, 1),
        0,
        if blob_fee.is_some() { TxType::Blob } else { TxType::DynamicFee },
        21_000,
        max_fee,
        priority_fee,
        blob_fee,
        if blob_fee.is_some() { 131_072 } else { 0 },
        U256::from_u64(5),
        100,
    )
    .unwrap()
}

#[test]
fn u256_addition_carries_into_the_upper_half() {
    let a = U256 { hi: 0, lo: u128::MAX };
    let one = U256::from_u64(1);
    assert_eq!(a.checked_add(&one), Some(U256 { hi: 1, lo: 0 }));
    let b = U256 { hi: 3, lo: u128::MAX - 1 };
    let c = U256 { hi: 4, lo: 5 };
    assert_eq!(b.checked_add(&c), Some(U256 { hi: 8, lo: 3 }));
    assert_eq!(U256::zero().checked_add(&U256::zero()), Some(U256::zero()));
}

#[test]
fn u256_addition_reports_overflow() {
    let max = U256::max_value();
    assert_eq!(max, U256 { hi: u128::MAX, lo: u128::MAX });
    assert_eq!(max.checked_add(&U256::from_u64(1)), None);
    assert_eq!(max.checked_add(&U256::zero()), Some(max));
    let half = U256 { hi: 1 << 127, lo: 0 };
    assert_eq!(half.checked_add(&half), None);
    assert_eq!(max.saturating_add(&U256::from_u64(7)), max);
    assert_eq!(U256::from_u64(2).saturating_add(&U256::from_u64(3)), U256::from_u64(5));
}

#[test]
fn u256_product_of_the_largest_factors() {
    // (2^64 - 1) * (2^128 - 1) = (2^64 - 2) * 2^128 + (2^128 - 2^64 + 1)
    let p = U256::mul_u64_u128(u64::MAX, u128::MAX);
    assert_eq!(p, U256 { hi: (1u128 << 64) - 2, lo: u128::MAX - (1u128 << 64) + 2 });
    assert_eq!(U256::mul_u64_u128(0, u128::MAX), U256::zero());
    assert_eq!(U256::mul_u64_u128(21_000, 100), U256::from_u64(2_100_000));
    assert_eq!(U256::mul_u64_u128(2, 1u128 << 127), U256 { hi: 1, lo: 0 });
    assert_eq!(U256::mul_u64_u128(3, (1u128 << 127) + 1), U256 { hi: 1, lo: (1u128 << 127) + 3 });
}

#[test]
fn u256_comparisons_and_conversions() {
    let small = U256 { hi: 0, lo: u128::MAX };
    let big = U256 { hi: 1, lo: 0 };
    assert!(small.lt(&big));
    assert!(small.le(&big));
    assert!(!small.gt(&big));
    assert!(big.ge(&small));
    assert!(big.ge(&big));
    assert!(big.le(&big));
    assert!(!big.lt(&big));
    assert_eq!(small.to_u128(), Some(u128::MAX));
    assert_eq!(big.to_u128(), None);
    assert_eq!(U256::from_u128(9), U256 { hi: 0, lo: 9 });
}

#[test]
fn cost_follows_the_formula() {
    // 5 + 21_000 * 100 + 131_072 * 3
    let tx = prim_tx(100, 1, Some(3));
    assert_eq!(tx.cost, U256::from_u64(2_493_221));
    // without blobs: 5 + 21_000 * 100
    let tx = prim_tx(100, 1, None);
    assert_eq!(tx.cost, U256::from_u64(2_100_005));
    assert_eq!(
        compute_cost(U256::from_u64(1), 2, 3, 4, Some(5)),
        Some(U256::from_u64(1 + 2 * 3 + 4 * 5))
    );
    assert_eq!(compute_cost(U256::from_u64(1), 2, 3, 4, None), Some(U256::from_u64(7)));
}

#[test]
fn a_cost_that_does_not_fit_gives_no_transaction() {
    assert_eq!(compute_cost(U256::max_value(), 1, 1, 0, None), None);
    assert_eq!(compute_cost(U256::max_value(), 0, 1, 0, None), Some(U256::max_value()));
    let tx = Tx::new(
        B256::new(0, 1),
        Address::new(0, 1),
        0,
        TxType::Legacy,
        1,
        1,
        1,
        None,
        0,
        U256::max_value(),
        1,
    );
    assert!(tx.is_none());
}

#[test]
fn effective_tip_is_capped_by_the_room_above_the_base_fee() {
    let tx = prim_tx(100, 7, None);
    assert_eq!(tx.effective_tip_per_gas(0), Some(7));
    assert_eq!(tx.effective_tip_per_gas(93), Some(7));
    assert_eq!(tx.effective_tip_per_gas(95), Some(5));
    assert_eq!(tx.effective_tip_per_gas(100), Some(0));
    assert_eq!(tx.effective_tip_per_gas(101), None);
    let ordering = CoinbaseTipOrdering::new();
    assert_eq!(ordering.priority(&tx, 95), Priority::Value(U256::from_u64(5)));
    assert_eq!(ordering.priority(&tx, 101), Priority::Unranked);
}

#[test]
fn priorities_compare_by_value_with_unranked_last() {
    let low = Priority::Value(U256::zero());
    let high = Priority::Value(U256::from_u64(1));
    assert!(high.gt(&low));
    assert!(!low.gt(&high));
    assert!(low.gt(&Priority::Unranked));
    assert!(!Priority::Unranked.gt(&low));
    assert!(!Priority::Unranked.gt(&Priority::Unranked));
    assert!(low.eq_level(&low));
    assert!(!low.eq_level(&high));
    assert!(Priority::Unranked.eq_level(&Priority::Unranked));
    assert!(!Priority::Unranked.eq_level(&low));
}

#[test]
fn a_replacement_has_to_outbid_by_the_bump() {
    assert!(outbids(110, 100, 10));
    assert!(!outbids(109, 100, 10));
    assert!(!outbids(100, 100, 0)); // equal values do not replace
    assert!(outbids(101, 100, 0));
    assert!(!outbids(0, 0, 10));
    assert!(outbids(200, 100, 100));
    assert!(!outbids(199, 100, 100));
    assert!(outbids(u128::MAX, u128::MAX - 1, 0));
    assert!(!outbids(u128::MAX, u128::MAX - 1, 10));
}

#[test]
fn the_bump_threshold_is_exact() {
    // 101 * 1.1 = 111.1, so 111 is not enough and 112 is
    assert!(!outbids(111, 101, 10));
    assert!(outbids(112, 101, 10));
}

#[test]
fn every_fee_field_has_to_be_outbid() {
    let old = prim_tx(100, 10, None);
    assert!(replaces(&prim_tx(110, 11, None), &old, 10));
    assert!(!replaces(&prim_tx(110, 10, None), &old, 10));
    assert!(!replaces(&prim_tx(109, 11, None), &old, 10));
    let old_blob = prim_tx(100, 10, Some(10));
    assert!(replaces(&prim_tx(200, 20, Some(20)), &old_blob, 100));
    assert!(!replaces(&prim_tx(200, 20, Some(19)), &old_blob, 100));
    // a fee field that only one of the two has does not count
    assert!(replaces(&prim_tx(200, 20, None), &old_blob, 100));
}

#[test]
fn configuration_defaults() {
    let config = PoolConfig::default();
    assert_eq!(config.max_account_slots, TXPOOL_MAX_ACCOUNT_SLOTS_PER_SENDER);
    assert_eq!(config.max_account_slots, 16);
    assert_eq!(config.pending_limit, SubPoolLimit::default());
    assert_eq!(config.pending_limit.max_txs, 10_000);
    assert_eq!(config.pending_limit.max_size, 20 * 1024 * 1024);
    assert_eq!(config.price_bumps.default_price_bump, 10);
    assert_eq!(config.price_bumps.replace_blob_tx_price_bump, 100);
    assert_eq!(config.minimal_protocol_basefee, 7);
    assert_eq!(config.max_new_pending_txs_notifications, 200);
    assert_eq!(config.additional_validation_tasks, 1);
    assert_eq!(DEFAULT_PRICE_BUMP, 10);
    assert_eq!(REPLACE_BLOB_PRICE_BUMP, 100);
    let bumps = PriceBumpConfig::default();
    assert_eq!(bumps.price_bump(TxType::Blob), 100);
    assert_eq!(bumps.price_bump(TxType::DynamicFee), 10);
    assert_eq!(bumps.price_bump(TxType::Legacy), 10);
}

#[test]
fn a_limit_is_exceeded_by_count_or_by_size() {
    let limit = SubPoolLimit::new(2, 100);
    assert!(!limit.is_exceeded(2, 100));
    assert!(limit.is_exceeded(3, 0));
    assert!(limit.is_exceeded(0, 101));
    assert!(!limit.is_exceeded(0, 0));
}

#[test]
fn local_transactions() {
    let whitelisted = Address::new(1, 1);
    let stranger = Address::new(2, 2);
    let mut config = LocalTransactionConfig::default();
    config.local_addresses.push(whitelisted);
    assert!(config.is_local(TransactionOrigin::Local, &stranger));
    assert!(!config.is_local(TransactionOrigin::External, &stranger));
    assert!(!config.is_local(TransactionOrigin::Private, &stranger));
    assert!(config.is_local(TransactionOrigin::External, &whitelisted));
    assert!(config.contains_local_address(&whitelisted));
    assert!(!config.contains_local_address(&stranger));
    config.no_exemptions = true;
    assert!(!config.is_local(TransactionOrigin::Local, &stranger));
    assert!(!config.is_local(TransactionOrigin::External, &whitelisted));
    assert!(TransactionOrigin::Local.is_local());
    assert!(TransactionOrigin::External.is_external());
    assert!(TransactionOrigin::Private.is_private());
    assert!(!TransactionOrigin::Private.is_local());
}

#[test]
fn classification_rules_in_order() {
    let plain = prim_tx(100, 1, None);
    let blob = prim_tx(100, 1, Some(5));
    // first in line, funded, fees paid
    assert_eq!(classify_transaction(&plain, None, 0, false, 100, 0), SubPool::Pending);
    // a gap: the nonce is above the on-chain nonce and there is no predecessor
    let mut later = plain;
    later.nonce = 2;
    assert_eq!(classify_transaction(&later, None, 0, false, 10, 0), SubPool::Queued);
    assert_eq!(classify_transaction(&later, Some(SubPool::Queued), 0, false, 10, 0), SubPool::Queued);
    assert_eq!(classify_transaction(&later, Some(SubPool::BaseFee), 0, false, 10, 0), SubPool::Queued);
    assert_eq!(classify_transaction(&later, Some(SubPool::Pending), 0, false, 10, 0), SubPool::Pending);
    // the gap counts before the funds and the fees
    assert_eq!(classify_transaction(&later, None, 0, true, 1000, 0), SubPool::Queued);
    // the funds count before the fees
    assert_eq!(classify_transaction(&blob, None, 0, true, 1000, 1000), SubPool::Queued);
    // the blob fee counts before the base fee
    assert_eq!(classify_transaction(&blob, None, 0, false, 1000, 6), SubPool::Blob);
    assert_eq!(classify_transaction(&blob, None, 0, false, 1000, 5), SubPool::BaseFee);
    assert_eq!(classify_transaction(&blob, None, 0, false, 100, 5), SubPool::Pending);
    assert_eq!(classify_transaction(&plain, None, 0, false, 101, 1000), SubPool::BaseFee);
    assert!(SubPool::Pending.is_pending());
    assert!(SubPool::Queued.is_queued());
    assert!(SubPool::BaseFee.is_base_fee());
    assert!(SubPool::Blob.is_blob());
    assert!(!SubPool::Blob.is_pending());
}

#[test]
fn transaction_identifiers() {
    let id = TransactionId::new(SenderId::new(3), 5);
    assert_eq!(id.unchecked_ancestor(), Some(TransactionId::new(SenderId::new(3), 4)));
    assert_eq!(id.descendant(), Some(TransactionId::new(SenderId::new(3), 6)));
    assert_eq!(TransactionId::new(SenderId::new(3), 0).unchecked_ancestor(), None);
    assert_eq!(TransactionId::new(SenderId::new(3), u64::MAX).descendant(), None);
    assert_eq!(TransactionId::ancestor(5, 5, SenderId::new(3)), None);
    assert_eq!(TransactionId::ancestor(5, 6, SenderId::new(3)), None);
    assert_eq!(
        TransactionId::ancestor(5, 2, SenderId::new(3)),
        Some(TransactionId::new(SenderId::new(3), 4))
    );
    assert!(id.is_followed_by(&TransactionId::new(SenderId::new(3), 6)));
    assert!(!id.is_followed_by(&TransactionId::new(SenderId::new(4), 6)));
    assert!(!id.is_followed_by(&TransactionId::new(SenderId::new(3), 7)));
    assert!(TransactionId::new(SenderId::new(2), 9).lt(&id));
    assert!(TransactionId::new(SenderId::new(3), 4).lt(&id));
    assert!(!id.lt(&id));
    assert!(!TransactionId::new(SenderId::new(4), 0).lt(&id));
    assert_eq!(SenderId::new(3).into_transaction_id(5), id);
}

#[test]
fn senders_are_numbered_in_the_order_of_their_first_appearance() {
    let mut ids = SenderIdentifiers::new();
    let a = Address::new(1, 10);
    let b = Address::new(1, 11);
    assert_eq!(ids.sender_id(&a), None);
    assert_eq!(ids.sender_id_or_create(a), Some(SenderId::new(0)));
    assert_eq!(ids.sender_id_or_create(b), Some(SenderId::new(1)));
    assert_eq!(ids.sender_id_or_create(a), Some(SenderId::new(0)));
    assert_eq!(ids.len(), 2);
    assert_eq!(ids.sender_id(&b), Some(SenderId::new(1)));
    assert_eq!(ids.address(&SenderId::new(1)), Some(b));
    assert_eq!(ids.address(&SenderId::new(0)), Some(a));
    assert_eq!(ids.address(&SenderId::new(2)), None);
}

#[test]
fn attached_keeps_both_values() {
    let pair = Attached::new(1u8, "right");
    assert_eq!(*pair.left(), 1);
    assert_eq!(*pair.right(), "right");
    let mapped = pair.map_left(|l| l as u32 + 1);
    assert_eq!(*mapped.left(), 2u32);
    assert_eq!(*mapped.right(), "right");
    let mut mapped = mapped.map_right(|r| r.len());
    assert_eq!(*mapped.right(), 5);
    *mapped.right_mut() = 6;
    assert_eq!(*mapped.right(), 6);
    // `left_mut` hands out the right value too
    *mapped.left_mut() = 7;
    assert_eq!(*mapped.right(), 7);
    assert_eq!(*mapped.left(), 2);
}
