use txpool::blobstore::{BlobAndProof, BlobStore, BlobTransactionSidecar, InMemoryBlobStore};
use txpool::error::BlobStoreError;
use txpool::pool::holds_no_sidecar;
use txpool::primitives::B256;

fn store_blob(hash: u128, fill: u8) -> BlobAndProof {
    BlobAndProof { versioned_hash: B256::new(1, hash), blob: vec![fill; 4], proof: vec![fill, fill] }
}

fn store_sidecar(hashes: &[u128], fill: u8) -> BlobTransactionSidecar {
    BlobTransactionSidecar { blobs: hashes.iter().map(|h| store_blob(*h, fill)).collect() }
}

#[test]
fn inserting_the_same_sidecar_twice_changes_nothing() {
    let mut store = InMemoryBlobStore::new();
    let tx = B256::new(0, 1);
    assert_eq!(store.insert(tx, store_sidecar(&[10, 11], 1)), Ok(()));
    assert_eq!(store.insert(tx, store_sidecar(&[10, 11], 1)), Ok(()));
    assert_eq!(store.len(), 1);
    assert_eq!(store.contains(tx), Ok(true));
    assert_eq!(store.get(tx).unwrap(), Some(&store_sidecar(&[10, 11], 1)));
}

#[test]
fn another_sidecar_for_the_same_transaction_is_refused() {
    let mut store = InMemoryBlobStore::new();
    let tx = B256::new(0, 1);
    store.insert(tx, store_sidecar(&[10], 1)).unwrap();
    assert_eq!(store.insert(tx, store_sidecar(&[10], 2)), Err(BlobStoreError::Inconsistent(tx)));
    assert_eq!(store.insert(tx, store_sidecar(&[10, 11], 1)), Err(BlobStoreError::Inconsistent(tx)));
    assert_eq!(store.insert(tx, store_sidecar(&[12], 1)), Err(BlobStoreError::Inconsistent(tx)));
    // the first one is still there
    assert_eq!(store.get(tx).unwrap(), Some(&store_sidecar(&[10], 1)));
    assert_eq!(store.len(), 1);
}

#[test]
fn get_all_gives_what_is_held_and_get_exact_asks_for_all() {
    let mut store = InMemoryBlobStore::new();
    let a = B256::new(0, 1);
    let b = B256::new(0, 2);
    let missing = B256::new(0, 3);
    store.insert(a, store_sidecar(&[10], 1)).unwrap();
    store.insert(b, store_sidecar(&[20], 2)).unwrap();

    let found = store.get_all(&vec![b, missing, a]).unwrap();
    assert_eq!(found.len(), 2);
    assert_eq!(found[0], (b, &store_sidecar(&[20], 2)));
    assert_eq!(found[1], (a, &store_sidecar(&[10], 1)));

    let exact = store.get_exact(&vec![b, a]).unwrap();
    assert_eq!(exact, vec![&store_sidecar(&[20], 2), &store_sidecar(&[10], 1)]);
    assert_eq!(store.get_exact(&vec![a, missing, b]), Err(BlobStoreError::NotFound(missing)));
    assert_eq!(store.get(missing).unwrap(), None);
    assert_eq!(store.contains(missing), Ok(false));
}

#[test]
fn blobs_are_found_by_versioned_hash() {
    let mut store = InMemoryBlobStore::new();
    store.insert(B256::new(0, 1), store_sidecar(&[10, 11], 1)).unwrap();
    store.insert(B256::new(0, 2), store_sidecar(&[20], 2)).unwrap();
    let wanted = vec![B256::new(1, 20), B256::new(1, 99), B256::new(1, 11)];
    let found = store.get_by_versioned_hashes_v1(&wanted).unwrap();
    assert_eq!(found, vec![Some(&store_blob(20, 2)), None, Some(&store_blob(11, 1))]);

    // the second form gives all or nothing
    assert_eq!(store.get_by_versioned_hashes_v2(&wanted).unwrap(), None);
    let wanted = vec![B256::new(1, 20), B256::new(1, 10)];
    assert_eq!(
        store.get_by_versioned_hashes_v2(&wanted).unwrap(),
        Some(vec![&store_blob(20, 2), &store_blob(10, 1)])
    );
    assert_eq!(store.get_by_versioned_hashes_v2(&vec![]).unwrap(), Some(vec![]));
}

#[test]
fn deleted_sidecars_are_gone() {
    let mut store = InMemoryBlobStore::new();
    let a = B256::new(0, 1);
    let b = B256::new(0, 2);
    let c = B256::new(0, 3);
    store.insert(a, store_sidecar(&[10], 1)).unwrap();
    store.insert(b, store_sidecar(&[20], 2)).unwrap();
    store.insert(c, store_sidecar(&[30], 3)).unwrap();
    store.delete(b);
    store.delete(B256::new(0, 9));
    store.cleanup();
    assert_eq!(store.len(), 2);
    assert_eq!(store.get(b).unwrap(), None);
    assert_eq!(store.get(a).unwrap(), Some(&store_sidecar(&[10], 1)));
    assert_eq!(store.get(c).unwrap(), Some(&store_sidecar(&[30], 3)));
    assert_eq!(store.get_by_versioned_hashes_v1(&vec![B256::new(1, 20)]).unwrap(), vec![None]);
    // a deleted sidecar can come back with other contents
    assert_eq!(store.insert(b, store_sidecar(&[21], 2)), Ok(()));
}

#[test]
fn sidecars_compare_by_their_bytes() {
    let a = store_sidecar(&[1, 2], 7);
    assert!(a.same(&store_sidecar(&[1, 2], 7)));
    assert!(!a.same(&store_sidecar(&[1], 7)));
    assert!(!a.same(&store_sidecar(&[1, 3], 7)));
    assert!(!a.same(&store_sidecar(&[1, 2], 8)));
    let mut longer = store_sidecar(&[1, 2], 7);
    longer.blobs[1].proof.push(0);
    assert!(!a.same(&longer));
    assert_eq!(a.find_versioned_hash(&B256::new(1, 2)), Some(1));
    assert_eq!(a.find_versioned_hash(&B256::new(1, 3)), None);
}

#[test]
fn a_store_counts_its_sidecars() {
    let mut store = InMemoryBlobStore::new();
    assert_eq!(store.blobs_len(), 0);
    assert!(holds_no_sidecar(&store));
    store.insert(B256::new(0, 1), store_sidecar(&[10], 1)).unwrap();
    store.insert(B256::new(0, 2), store_sidecar(&[11], 1)).unwrap();
    store.insert(B256::new(0, 1), store_sidecar(&[10], 1)).unwrap();
    assert_eq!(store.blobs_len(), 2);
    assert!(!holds_no_sidecar(&store));
    store.delete(B256::new(0, 1));
    store.delete(B256::new(0, 2));
    assert_eq!(store.blobs_len(), 0);
    assert!(holds_no_sidecar(&store));
}
