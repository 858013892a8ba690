use txpool::blobstore::{BlobAndProof, BlobTransactionSidecar};
use txpool::config::LocalTransactionConfig;
use txpool::error::{Eip4844PoolTransactionError, InvalidPoolTransactionError};
use txpool::primitives::{Address, B256, U256};
use txpool::transaction::{TransactionOrigin, Tx, TxType};
use txpool::validate::{
    check_stateful, check_stateless, validate_with_account, AccountState, EthTransactionValidator,
    EthValidatorConfig, MemoryState, OkValidator, PoolTransaction, StateProvider,
    TransactionValidationOutcome, TransactionValidator, ValidTransaction,
};

const VALIDATE_SENDER: Address = Address { hi: 1, lo: 2 };

fn validate_config() -> EthValidatorConfig {
    EthValidatorConfig {
        chain_id: 1,
        block_gas_limit: 30_000_000,
        max_tx_input_bytes: 128 * 1024,
        minimum_priority_fee: Some(2),
        tx_fee_cap: 0,
        eip2930: true,
        eip1559: true,
        eip4844: true,
        eip7702: true,
        max_blob_count: 2,
        local_transactions_config: LocalTransactionConfig::default(),
    }
}

fn validate_tx(tx_type: TxType) -> Tx {
    Tx::new(
        B256::new(0, 1),
        VALIDATE_SENDER,
        3,
        tx_type,
        21_000,
        100,
        10,
        if tx_type == TxType::Blob { Some(1) } else { None },
        if tx_type == TxType::Blob { 131_072 } else { 0 },
        U256::zero(),
        100,
    )
    .unwrap()
}

fn validate_request(tx: Tx) -> PoolTransaction {
    PoolTransaction {
        transaction: tx,
        chain_id: Some(1),
        intrinsic_gas: 21_000,
        sidecar: None,
        blob_proofs_verified: false,
        authorities: None,
    }
}

fn validate_sidecar(blobs: usize) -> BlobTransactionSidecar {
    BlobTransactionSidecar {
        blobs: (0..blobs)
            .map(|i| BlobAndProof { versioned_hash: B256::new(1, i as u128), blob: vec![1], proof: vec![2] })
            .collect(),
    }
}

fn validate_account() -> AccountState {
    AccountState { nonce: 3, balance: U256::from_u128(10_000_000), bytecode_hash: None, is_delegation: false }
}

fn validate_stateless(config: &EthValidatorConfig, request: &PoolTransaction) -> Option<InvalidPoolTransactionError> {
    check_stateless(config, TransactionOrigin::External, request)
}

#[test]
fn a_sound_transaction_passes() {
    let request = validate_request(validate_tx(TxType::DynamicFee));
    assert_eq!(validate_stateless(&validate_config(), &request), None);
    assert_eq!(check_stateful(&request.transaction, &validate_account()), None);
    let outcome = validate_with_account(
        &validate_config(),
        TransactionOrigin::External,
        request.clone(),
        Some(validate_account()),
    );
    assert_eq!(
        outcome,
        TransactionValidationOutcome::Valid {
            balance: U256::from_u128(10_000_000),
            state_nonce: 3,
            bytecode_hash: None,
            transaction: ValidTransaction::Valid(request.transaction),
            propagate: true,
            authorities: None,
        }
    );
    assert!(outcome.is_valid());
    assert_eq!(outcome.tx_hash(), request.transaction.hash);
}

#[test]
fn an_envelope_type_that_is_not_active_is_refused() {
    for (tx_type, switch) in [
        (TxType::AccessList, 0),
        (TxType::DynamicFee, 1),
        (TxType::Blob, 2),
        (TxType::SetCode, 3),
    ] {
        let mut config = validate_config();
        match switch {
            0 => config.eip2930 = false,
            1 => config.eip1559 = false,
            2 => config.eip4844 = false,
            _ => config.eip7702 = false,
        }
        let request = validate_request(validate_tx(tx_type));
        assert_eq!(
            validate_stateless(&config, &request),
            Some(InvalidPoolTransactionError::TxTypeNotSupported)
        );
    }
    let mut config = validate_config();
    config.eip2930 = false;
    config.eip1559 = false;
    config.eip4844 = false;
    config.eip7702 = false;
    assert_eq!(validate_stateless(&config, &validate_request(validate_tx(TxType::Legacy))), None);
}

#[test]
fn size_gas_and_fee_limits() {
    let config = validate_config();
    let mut tx = validate_tx(TxType::DynamicFee);
    tx.encoded_size = 128 * 1024 + 1;
    assert_eq!(
        validate_stateless(&config, &validate_request(tx)),
        Some(InvalidPoolTransactionError::OversizedData)
    );
    tx.encoded_size = 128 * 1024;
    assert_eq!(validate_stateless(&config, &validate_request(tx)), None);

    let mut tx = validate_tx(TxType::DynamicFee);
    tx.gas_limit = 30_000_001;
    assert_eq!(
        validate_stateless(&config, &validate_request(tx)),
        Some(InvalidPoolTransactionError::ExceedsGasLimit)
    );

    let mut tx = validate_tx(TxType::DynamicFee);
    tx.max_priority_fee_per_gas = 101;
    assert_eq!(
        validate_stateless(&config, &validate_request(tx)),
        Some(InvalidPoolTransactionError::TipAboveFeeCap)
    );

    let mut tx = validate_tx(TxType::DynamicFee);
    tx.max_priority_fee_per_gas = 1;
    assert_eq!(
        validate_stateless(&config, &validate_request(tx)),
        Some(InvalidPoolTransactionError::Underpriced)
    );
    // a local transaction may tip less
    assert_eq!(check_stateless(&config, TransactionOrigin::Local, &validate_request(tx)), None);
}

#[test]
fn the_fee_cap_binds_local_transactions_only() {
    let mut config = validate_config();
    // the transaction pays up to 21_000 * 100 = 2_100_000
    config.tx_fee_cap = 2_099_999;
    let request = validate_request(validate_tx(TxType::DynamicFee));
    assert_eq!(
        check_stateless(&config, TransactionOrigin::Local, &request),
        Some(InvalidPoolTransactionError::ExceedsFeeCap)
    );
    assert_eq!(check_stateless(&config, TransactionOrigin::External, &request), None);
    config.tx_fee_cap = 2_100_000;
    assert_eq!(check_stateless(&config, TransactionOrigin::Local, &request), None);
}

#[test]
fn chain_and_intrinsic_gas() {
    let config = validate_config();
    let mut request = validate_request(validate_tx(TxType::DynamicFee));
    request.chain_id = Some(5);
    assert_eq!(
        validate_stateless(&config, &request),
        Some(InvalidPoolTransactionError::ChainIdMismatch)
    );
    request.chain_id = None;
    assert_eq!(validate_stateless(&config, &request), None);
    request.intrinsic_gas = 21_001;
    assert_eq!(
        validate_stateless(&config, &request),
        Some(InvalidPoolTransactionError::IntrinsicGasTooLow)
    );
}

#[test]
fn blob_transactions_need_their_blobs() {
    let config = validate_config();
    let mut request = validate_request(validate_tx(TxType::Blob));
    assert_eq!(
        validate_stateless(&config, &request),
        Some(InvalidPoolTransactionError::Eip4844(
            Eip4844PoolTransactionError::MissingEip4844BlobSidecar
        ))
    );
    request.sidecar = Some(validate_sidecar(0));
    assert_eq!(
        validate_stateless(&config, &request),
        Some(InvalidPoolTransactionError::Eip4844(Eip4844PoolTransactionError::NoEip4844Blobs))
    );
    request.sidecar = Some(validate_sidecar(3));
    assert_eq!(
        validate_stateless(&config, &request),
        Some(InvalidPoolTransactionError::Eip4844(Eip4844PoolTransactionError::TooManyEip4844Blobs))
    );
    request.sidecar = Some(validate_sidecar(2));
    assert_eq!(
        validate_stateless(&config, &request),
        Some(InvalidPoolTransactionError::Eip4844(Eip4844PoolTransactionError::InvalidEip4844Blob))
    );
    request.blob_proofs_verified = true;
    assert_eq!(validate_stateless(&config, &request), None);
    let outcome =
        validate_with_account(&config, TransactionOrigin::External, request.clone(), Some(validate_account()));
    match outcome {
        TransactionValidationOutcome::Valid { transaction, .. } => {
            assert_eq!(
                transaction,
                ValidTransaction::ValidWithSidecar {
                    transaction: request.transaction,
                    sidecar: validate_sidecar(2)
                }
            );
            assert_eq!(transaction.transaction(), request.transaction);
        }
        other => panic!("unexpected outcome {other:?}"),
    }
}

#[test]
fn checks_against_the_chain() {
    let tx = validate_tx(TxType::DynamicFee);
    let mut account = validate_account();
    account.bytecode_hash = Some(B256::new(3, 3));
    assert_eq!(check_stateful(&tx, &account), Some(InvalidPoolTransactionError::SignerAccountHasBytecode));
    account.is_delegation = true;
    assert_eq!(check_stateful(&tx, &account), None);

    let mut account = validate_account();
    account.nonce = 4;
    assert_eq!(check_stateful(&tx, &account), Some(InvalidPoolTransactionError::NonceNotConsistent));
    account.nonce = 0;
    assert_eq!(check_stateful(&tx, &account), None);

    // the cost is 21_000 * 100 = 2_100_000
    let mut account = validate_account();
    account.balance = U256::from_u128(2_099_999);
    assert_eq!(check_stateful(&tx, &account), Some(InvalidPoolTransactionError::InsufficientFunds));
    account.balance = U256::from_u128(2_100_000);
    assert_eq!(check_stateful(&tx, &account), None);
}

#[test]
fn outcomes_of_the_whole_validation() {
    let config = validate_config();
    let request = validate_request(validate_tx(TxType::DynamicFee));
    // what the chain says could not be learned
    assert_eq!(
        validate_with_account(&config, TransactionOrigin::External, request.clone(), None),
        TransactionValidationOutcome::Error(request.transaction.hash)
    );
    // a failure that does not need the chain comes first
    let mut oversized = request.clone();
    oversized.transaction.encoded_size = usize::MAX;
    assert_eq!(
        validate_with_account(&config, TransactionOrigin::External, oversized.clone(), None),
        TransactionValidationOutcome::Invalid(
            oversized.transaction,
            InvalidPoolTransactionError::OversizedData
        )
    );
    let mut poor = validate_account();
    poor.balance = U256::zero();
    let outcome = validate_with_account(&config, TransactionOrigin::External, request.clone(), Some(poor));
    assert_eq!(
        outcome,
        TransactionValidationOutcome::Invalid(
            request.transaction,
            InvalidPoolTransactionError::InsufficientFunds
        )
    );
    assert!(!outcome.is_valid());
    assert_eq!(outcome.tx_hash(), request.transaction.hash);
}

#[test]
fn propagation_goes_by_origin() {
    let mut config = validate_config();
    for (origin, local_propagates, expected) in [
        (TransactionOrigin::External, false, true),
        (TransactionOrigin::Local, true, true),
        (TransactionOrigin::Local, false, false),
        (TransactionOrigin::Private, true, false),
    ] {
        config.local_transactions_config.propagate_local_transactions = local_propagates;
        let request = validate_request(validate_tx(TxType::DynamicFee));
        match validate_with_account(&config, origin, request, Some(validate_account())) {
            TransactionValidationOutcome::Valid { propagate, .. } => assert_eq!(propagate, expected),
            other => panic!("unexpected outcome {other:?}"),
        }
    }
}

#[test]
fn the_validator_asks_the_state() {
    let mut state = MemoryState::new();
    state.push(VALIDATE_SENDER, validate_account());
    // a second listing of the same address does not count
    let mut other = validate_account();
    other.nonce = 9;
    state.push(VALIDATE_SENDER, other);
    assert_eq!(state.lookup(&VALIDATE_SENDER), validate_account());
    assert_eq!(state.account(&VALIDATE_SENDER), Some(validate_account()));
    let unknown = Address::new(9, 9);
    assert_eq!(
        state.lookup(&unknown),
        AccountState { nonce: 0, balance: U256::zero(), bytecode_hash: None, is_delegation: false }
    );

    let validator = EthTransactionValidator::new(state, validate_config());
    assert_eq!(validator.config().chain_id, 1);
    let request = validate_request(validate_tx(TxType::DynamicFee));
    assert!(validator.validate_transaction(TransactionOrigin::External, request.clone()).is_valid());
    let mut stranger = request;
    stranger.transaction.sender = unknown;
    assert_eq!(
        validator.validate_transaction(TransactionOrigin::External, stranger.clone()),
        TransactionValidationOutcome::Invalid(
            stranger.transaction,
            InvalidPoolTransactionError::InsufficientFunds
        )
    );
}

#[test]
fn ok_validator_finds_everything_valid() {
    let validator = OkValidator::default();
    let mut request = validate_request(validate_tx(TxType::Blob));
    request.sidecar = Some(validate_sidecar(1));
    request.authorities = Some(vec![Address::new(4, 4)]);
    let outcome = validator.validate_transaction(TransactionOrigin::External, request.clone());
    assert_eq!(
        outcome,
        TransactionValidationOutcome::Valid {
            balance: request.transaction.cost,
            state_nonce: 3,
            bytecode_hash: None,
            transaction: ValidTransaction::ValidWithSidecar {
                transaction: request.transaction,
                sidecar: validate_sidecar(1)
            },
            propagate: false,
            authorities: Some(vec![Address::new(4, 4)]),
        }
    );
    let validator = validator.set_propagate_transactions(true);
    match validator.validate_transaction(TransactionOrigin::External, validate_request(validate_tx(TxType::Legacy))) {
        TransactionValidationOutcome::Valid { propagate, transaction, .. } => {
            assert!(propagate);
            assert_eq!(transaction, ValidTransaction::Valid(validate_tx(TxType::Legacy)));
        }
        other => panic!("unexpected outcome {other:?}"),
    }
}
