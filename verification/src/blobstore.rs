//! Where the sidecars of blob transactions are kept, apart from the
//! transactions themselves.

use crate::error::BlobStoreError;
use crate::primitives::{TxHash, B256};
use vstd::prelude::*;

verus! {

/// A blob with the proof that it belongs to its commitment.
#[derive(Clone, Debug, PartialEq, Eq)]
pub struct BlobAndProof {
    /// The versioned hash of the blob's commitment.
    pub versioned_hash: B256,
    /// The bytes of the blob.
    pub blob: Vec<u8>,
    /// The bytes of the proof.
    pub proof: Vec<u8>,
}

/// A blob with its proof, as a value.
pub struct BlobAndProofView {
    /// The versioned hash of the blob's commitment.
    pub versioned_hash: B256,
    /// The bytes of the blob.
    pub blob: Seq<u8>,
    /// The bytes of the proof.
    pub proof: Seq<u8>,
}

impl View for BlobAndProof {
    type V = BlobAndProofView;

    open spec fn view(&self) -> BlobAndProofView {
        BlobAndProofView { versioned_hash: self.versioned_hash, blob: self.blob@, proof: self.proof@ }
    }
}

/// What a blob transaction carries beside itself: its blobs with their
/// proofs.
#[derive(Clone, Debug, PartialEq, Eq)]
pub struct BlobTransactionSidecar {
    /// The blobs in the order of the transaction's versioned hashes.
    pub blobs: Vec<BlobAndProof>,
}

impl View for BlobTransactionSidecar {
    type V = Seq<BlobAndProofView>;

    open spec fn view(&self) -> Seq<BlobAndProofView> {
        Seq::new(self.blobs@.len(), |i: int| self.blobs@[i]@)
    }
}

/// Whether the two byte strings are the same.
pub fn same_bytes(a: &Vec<u8>, b: &Vec<u8>) -> (r: bool)
    ensures
        r == (a@ == b@),
{
    if a.len() != b.len() {
        return false;
    }
    let mut i: usize = 0;
    while i < a.len()
        invariant
            i <= a.len(),
            a.len() == b.len(),
            forall|k: int| 0 <= k < i ==> a@[k] == b@[k],
        decreases a.len() - i,
    {
        if a[i] != b[i] {
            return false;
        }
        i = i + 1;
    }
    proof {
        assert(a@ =~= b@);
    }
    true
}

impl BlobAndProof {
    /// Whether the two are the same blob with the same proof.
    pub fn same(&self, other: &BlobAndProof) -> (r: bool)
        ensures
            r == (self@ == other@),
    {
        self.versioned_hash == other.versioned_hash && same_bytes(&self.blob, &other.blob)
            && same_bytes(&self.proof, &other.proof)
    }
}

impl BlobTransactionSidecar {
    /// Whether the two sidecars hold the same blobs with the same proofs.
    pub fn same(&self, other: &BlobTransactionSidecar) -> (r: bool)
        ensures
            r == (self@ == other@),
    {
        if self.blobs.len() != other.blobs.len() {
            proof {
                assert(self@.len() != other@.len());
            }
            return false;
        }
        let mut i: usize = 0;
        while i < self.blobs.len()
            invariant
                i <= self.blobs.len(),
                self.blobs.len() == other.blobs.len(),
                forall|k: int| 0 <= k < i ==> self@[k] == other@[k],
            decreases self.blobs.len() - i,
        {
            if !self.blobs[i].same(&other.blobs[i]) {
                proof {
                    assert(self@[i as int] != other@[i as int]);
                }
                return false;
            }
            i = i + 1;
        }
        proof {
            assert(self@ =~= other@);
        }
        true
    }

    /// The place of the first blob with the versioned hash.
    pub fn find_versioned_hash(&self, versioned_hash: &B256) -> (r: Option<usize>)
        ensures
            r matches Some(i) ==> i < self@.len() && self@[i as int].versioned_hash
                == *versioned_hash,
            r is None ==> forall|k: int| 0 <= k < self@.len() ==> (#[trigger] self@[k]).versioned_hash
                != *versioned_hash,
    {
        let mut i: usize = 0;
        while i < self.blobs.len()
            invariant
                i <= self.blobs.len(),
                forall|k: int| 0 <= k < i ==> (#[trigger] self@[k]).versioned_hash
                    != *versioned_hash,
            decreases self.blobs.len() - i,
        {
            if self.blobs[i].versioned_hash == *versioned_hash {
                return Some(i);
            }
            i = i + 1;
        }
        None
    }
}

/// Whether one of the sidecars holds the blob.
pub open spec fn holds_blob(
    contents: Map<TxHash, Seq<BlobAndProofView>>,
    blob: BlobAndProofView,
) -> bool {
    exists|tx: TxHash, i: int|
        contents.contains_key(tx) && 0 <= i < contents[tx].len() && #[trigger] contents[tx][i]
            == blob
}

/// Whether one of the sidecars holds a blob with the versioned hash.
pub open spec fn holds_versioned_hash(
    contents: Map<TxHash, Seq<BlobAndProofView>>,
    versioned_hash: B256,
) -> bool {
    exists|tx: TxHash, i: int|
        contents.contains_key(tx) && 0 <= i < contents[tx].len() && (
        #[trigger] contents[tx][i]).versioned_hash == versioned_hash
}

/// What was found for the versioned hash is a held blob with that hash;
/// nothing was found only where no held blob has it.
pub open spec fn answers_versioned_hash(
    contents: Map<TxHash, Seq<BlobAndProofView>>,
    versioned_hash: B256,
    found: Option<BlobAndProofView>,
) -> bool {
    match found {
        Some(b) => b.versioned_hash == versioned_hash && holds_blob(contents, b),
        None => !holds_versioned_hash(contents, versioned_hash),
    }
}

/// The pairs of hash and sidecar as values.
pub open spec fn listing(found: Seq<(TxHash, &BlobTransactionSidecar)>) -> Seq<
    (TxHash, Seq<BlobAndProofView>),
> {
    Seq::new(found.len(), |k: int| (found[k].0, found[k].1@))
}

/// The sidecars that are stored under the first `n` hashes, each with its
/// hash, in the order of the hashes.
pub open spec fn listed_upto(
    contents: Map<TxHash, Seq<BlobAndProofView>>,
    txs: Seq<TxHash>,
    n: int,
) -> Seq<(TxHash, Seq<BlobAndProofView>)>
    decreases n,
{
    if n <= 0 || n > txs.len() {
        Seq::empty()
    } else if contents.contains_key(txs[n - 1]) {
        listed_upto(contents, txs, n - 1).push((txs[n - 1], contents[txs[n - 1]]))
    } else {
        listed_upto(contents, txs, n - 1)
    }
}

/// The error says of one of the hashes that the store holds no sidecar for
/// it, and the store holds none.
pub open spec fn misses_one(
    contents: Map<TxHash, Seq<BlobAndProofView>>,
    txs: Seq<TxHash>,
    e: BlobStoreError,
) -> bool {
    exists|j: int|
        0 <= j < txs.len() && e == BlobStoreError::NotFound(#[trigger] txs[j])
            && !contents.contains_key(txs[j])
}

/// A store of sidecars by the hash of their transaction.
pub trait BlobStore {
    /// What holds of the store between any two calls.
    open spec fn wf(&self) -> bool {
        true
    }

    /// The sidecars by the hash of their transaction.
    open spec fn contents(&self) -> Map<TxHash, Seq<BlobAndProofView>> {
        Map::empty()
    }

    /// Whether the store in its present state may fail with the error for
    /// a reason of the store's own (a backend that cannot be reached, say).
    /// A store says here with which errors it can fail; a store that says
    /// nothing may fail with any.
    open spec fn may_fail_with(&self, e: BlobStoreError) -> bool {
        true
    }

    /// Puts the sidecar of a transaction into the store. Putting the same
    /// sidecar in twice changes nothing; another sidecar for the same
    /// transaction is refused. Fails for no other reason but one of the
    /// store's own.
    fn insert(&mut self, tx: TxHash, data: BlobTransactionSidecar) -> (r: Result<
        (),
        BlobStoreError,
    >)
        requires
            old(self).wf(),
        ensures
            final(self).wf(),
            match r {
                Ok(_) => final(self).contents() == old(self).contents().insert(tx, data@) && (old(
                    self,
                ).contents().contains_key(tx) ==> old(self).contents()[tx] == data@),
                Err(e) => final(self).contents() == old(self).contents() && (e
                    == BlobStoreError::Inconsistent(tx) ==> old(self).contents().contains_key(tx)
                    && old(self).contents()[tx] != data@),
            },
            r matches Err(e) ==> old(self).may_fail_with(e) || e == BlobStoreError::Inconsistent(tx),
    ;

    /// Takes the sidecar of a transaction out of the store.
    fn delete(&mut self, tx: TxHash)
        requires
            old(self).wf(),
        ensures
            final(self).wf(),
            final(self).contents() == old(self).contents().remove(tx),
    ;

    /// Gives memory back that deleted sidecars held. What the store holds
    /// stays as it is.
    fn cleanup(&mut self)
        requires
            old(self).wf(),
        ensures
            final(self).wf(),
            final(self).contents() == old(self).contents(),
    ;

    /// How many sidecars the store holds.
    fn blobs_len(&self) -> (r: usize)
        requires
            self.wf(),
        ensures
            self.contents().dom().finite(),
            r == self.contents().dom().len(),
    ;

    /// Whether the store holds a sidecar for the transaction.
    fn contains(&self, tx: TxHash) -> (r: Result<bool, BlobStoreError>)
        requires
            self.wf(),
        ensures
            r matches Ok(b) ==> b == self.contents().contains_key(tx),
            r matches Err(e) ==> self.may_fail_with(e),
    ;

    /// The sidecar of the transaction, where the store holds one.
    fn get(&self, tx: TxHash) -> (r: Result<Option<&BlobTransactionSidecar>, BlobStoreError>)
        requires
            self.wf(),
        ensures
            r matches Ok(found) ==> match found {
                Some(s) => self.contents().contains_key(tx) && self.contents()[tx] == s@,
                None => !self.contents().contains_key(tx),
            },
            r matches Err(e) ==> self.may_fail_with(e),
    ;

    /// The sidecars of those of the transactions that the store holds, each
    /// with the hash of its transaction, in the order of the hashes given.
    fn get_all(&self, txs: &Vec<TxHash>) -> (r: Result<
        Vec<(TxHash, &BlobTransactionSidecar)>,
        BlobStoreError,
    >)
        requires
            self.wf(),
        ensures
            r matches Ok(found) ==> listing(found@) == listed_upto(
                self.contents(),
                txs@,
                txs@.len() as int,
            ),
            r matches Err(e) ==> self.may_fail_with(e),
    ;

    /// The sidecars of the transactions, in the order of the hashes given;
    /// an error where the store does not hold one of them.
    fn get_exact(&self, txs: &Vec<TxHash>) -> (r: Result<Vec<&BlobTransactionSidecar>, BlobStoreError>)
        requires
            self.wf(),
        ensures
            r matches Ok(found) ==> found@.len() == txs@.len() && forall|j: int|
                0 <= j < txs@.len() ==> self.contents().contains_key(#[trigger] txs@[j])
                    && self.contents()[txs@[j]] == found@[j]@,
            forall|tx: TxHash|
                r == Err::<Vec<&BlobTransactionSidecar>, BlobStoreError>(
                    BlobStoreError::NotFound(tx),
                ) ==> txs@.contains(tx) && !self.contents().contains_key(tx),
            r matches Err(e) ==> self.may_fail_with(e) || misses_one(self.contents(), txs@, e),
    ;

    /// For each versioned hash a held blob with that hash and its proof,
    /// where there is one.
    fn get_by_versioned_hashes_v1(&self, versioned_hashes: &Vec<B256>) -> (r: Result<
        Vec<Option<&BlobAndProof>>,
        BlobStoreError,
    >)
        requires
            self.wf(),
        ensures
            r matches Ok(found) ==> found@.len() == versioned_hashes@.len() && forall|k: int|
                0 <= k < found@.len() ==> answers_versioned_hash(
                    self.contents(),
                    versioned_hashes@[k],
                    match #[trigger] found@[k] {
                        Some(b) => Some(b@),
                        None => None,
                    },
                ),
            r matches Err(e) ==> self.may_fail_with(e),
    ;

    /// For every versioned hash a held blob with that hash and its proof;
    /// nothing at all where a hash has none.
    fn get_by_versioned_hashes_v2(&self, versioned_hashes: &Vec<B256>) -> (r: Result<
        Option<Vec<&BlobAndProof>>,
        BlobStoreError,
    >)
        requires
            self.wf(),
        ensures
            r matches Ok(answer) ==> match answer {
                Some(found) => found@.len() == versioned_hashes@.len() && forall|k: int|
                    0 <= k < found@.len() ==> (#[trigger] found@[k])@.versioned_hash
                        == versioned_hashes@[k] && holds_blob(self.contents(), found@[k]@),
                None => exists|k: int|
                    0 <= k < versioned_hashes@.len() && !holds_versioned_hash(
                        self.contents(),
                        #[trigger] versioned_hashes@[k],
                    ),
            },
            r matches Err(e) ==> self.may_fail_with(e),
    ;
}

/// A store of sidecars in memory.
#[derive(Debug)]
pub struct InMemoryBlobStore {
    keys: Vec<TxHash>,
    sidecars: Vec<BlobTransactionSidecar>,
}

/// No hash occurs at two places.
pub open spec fn distinct_keys(keys: Seq<TxHash>) -> bool {
    forall|i: int, j: int| 0 <= i < j < keys.len() ==> keys[i] != keys[j]
}

impl InMemoryBlobStore {
    /// The hashes of the transactions whose sidecars are held, in the order
    /// in which they came.
    pub closed spec fn keys(&self) -> Seq<TxHash> {
        self.keys@
    }

    /// The sidecars at the places of their hashes.
    pub closed spec fn sidecars(&self) -> Seq<Seq<BlobAndProofView>> {
        Seq::new(self.sidecars@.len(), |i: int| self.sidecars@[i]@)
    }

    /// An empty store.
    pub fn new() -> (r: Self)
        ensures
            crate::blobstore::BlobStore::wf(&r),
            crate::blobstore::BlobStore::contents(&r) == Map::<
                TxHash,
                Seq<BlobAndProofView>,
            >::empty(),
    {
        let r = InMemoryBlobStore { keys: Vec::new(), sidecars: Vec::new() };
        proof {
            assert(crate::blobstore::BlobStore::contents(&r) =~= Map::<
                TxHash,
                Seq<BlobAndProofView>,
            >::empty());
        }
        r
    }

    /// How many sidecars the store holds.
    pub fn len(&self) -> (r: usize)
        ensures
            r == self.keys().len(),
    {
        self.keys.len()
    }

    /// The place of the hash.
    fn find(&self, tx: &TxHash) -> (r: Option<usize>)
        requires
            crate::blobstore::BlobStore::wf(self),
        ensures
            r matches Some(i) ==> i < self.keys().len() && self.keys()[i as int] == *tx && i
                == self.keys().index_of(*tx),
            r is None ==> !self.keys().contains(*tx),
    {
        let mut i: usize = 0;
        while i < self.keys.len()
            invariant
                i <= self.keys.len(),
                distinct_keys(self.keys@),
                forall|k: int| 0 <= k < i ==> self.keys@[k] != *tx,
            decreases self.keys.len() - i,
        {
            if self.keys[i] == *tx {
                proof {
                    assert(self.keys@.contains(*tx));
                    let j = self.keys@.index_of(*tx);
                    if j < i {
                        assert(self.keys@[j] != *tx);
                    } else if j > i {
                        assert(self.keys@[i as int] != self.keys@[j]);
                    }
                }
                return Some(i);
            }
            i = i + 1;
        }
        None
    }

    /// The first held blob with the versioned hash.
    fn find_blob(&self, versioned_hash: &B256) -> (r: Option<&BlobAndProof>)
        requires
            crate::blobstore::BlobStore::wf(self),
        ensures
            answers_versioned_hash(crate::blobstore::BlobStore::contents(self), *versioned_hash, match r {
                Some(b) => Some(b@),
                None => None,
            }),
    {
        let mut s: usize = 0;
        while s < self.sidecars.len()
            invariant
                s <= self.sidecars.len(),
                crate::blobstore::BlobStore::wf(self),
                forall|a: int, i: int|
                    0 <= a < s && 0 <= i < self.sidecars()[a].len() ==> (
                    #[trigger] self.sidecars()[a][i]).versioned_hash != *versioned_hash,
            decreases self.sidecars.len() - s,
        {
            match self.sidecars[s].find_versioned_hash(versioned_hash) {
                Some(i) => {
                    let found = &self.sidecars[s].blobs[i];
                    proof {
                        let tx = self.keys()[s as int];
                        assert(self.keys().contains(tx));
                        self.lemma_place(s as int);
                        assert(crate::blobstore::BlobStore::contents(self)[tx][i as int] == found@);
                        assert(holds_blob(crate::blobstore::BlobStore::contents(self), found@));
                    }
                    return Some(found);
                },
                None => {
                    proof {
                        assert forall|i: int| 0 <= i < self.sidecars()[s as int].len() implies (
                        #[trigger] self.sidecars()[s as int][i]).versioned_hash
                            != *versioned_hash by {
                            assert(self.sidecars()[s as int][i] == self.sidecars@[s as int]@[i]);
                        }
                    }
                },
            }
            s = s + 1;
        }
        proof {
            let contents = crate::blobstore::BlobStore::contents(self);
            if holds_versioned_hash(contents, *versioned_hash) {
                let (tx, i) = choose|tx: TxHash, i: int|
                    contents.contains_key(tx) && 0 <= i < contents[tx].len() && (
                    #[trigger] contents[tx][i]).versioned_hash == *versioned_hash;
                let a = self.keys().index_of(tx);
                assert(self.sidecars()[a][i].versioned_hash != *versioned_hash);
            }
        }
        None
    }

    /// The sidecar at a place is the sidecar of the hash at that place.
    proof fn lemma_place(&self, i: int)
        requires
            crate::blobstore::BlobStore::wf(self),
            0 <= i < self.keys().len(),
        ensures
            self.keys().index_of(self.keys()[i]) == i,
            crate::blobstore::BlobStore::contents(self).contains_key(self.keys()[i]),
            crate::blobstore::BlobStore::contents(self)[self.keys()[i]] == self.sidecars()[i],
    {
        let tx = self.keys()[i];
        assert(self.keys().contains(tx));
        let j = self.keys().index_of(tx);
        if j < i {
            assert(self.keys()[j] != self.keys()[i]);
        } else if j > i {
            assert(self.keys()[i] != self.keys()[j]);
        }
    }
}

impl BlobStore for InMemoryBlobStore {
    /// Every hash has its sidecar, and no hash occurs twice.
    closed spec fn wf(&self) -> bool {
        &&& self.keys@.len() == self.sidecars@.len()
        &&& distinct_keys(self.keys@)
    }

    closed spec fn contents(&self) -> Map<TxHash, Seq<BlobAndProofView>> {
        Map::new(
            |tx: TxHash| self.keys().contains(tx),
            |tx: TxHash| self.sidecars()[self.keys().index_of(tx)],
        )
    }

    /// A store in memory does not fail for a reason of its own.
    open spec fn may_fail_with(&self, e: BlobStoreError) -> bool {
        false
    }

    /// Refuses another sidecar for a transaction that has one, and nothing
    /// else.
    fn insert(&mut self, tx: TxHash, data: BlobTransactionSidecar) -> (r: Result<
        (),
        BlobStoreError,
    >)
        ensures
            r is Err <==> old(self).contents().contains_key(tx) && old(self).contents()[tx]
                != data@,
            r matches Err(e) ==> e == BlobStoreError::Inconsistent(tx),
    {
        match self.find(&tx) {
            Some(i) => {
                proof {
                    self.lemma_place(i as int);
                }
                if self.sidecars[i].same(&data) {
                    proof {
                        assert(self.contents() =~= old(self).contents().insert(tx, data@));
                    }
                    Ok(())
                } else {
                    Err(BlobStoreError::Inconsistent(tx))
                }
            },
            None => {
                let ghost before = *self;
                self.keys.push(tx);
                self.sidecars.push(data);
                proof {
                    let n = before.keys().len() as int;
                    assert(self.keys() == before.keys().push(tx));
                    assert(self.sidecars() =~= before.sidecars().push(data@));
                    assert forall|i: int, j: int| 0 <= i < j < self.keys@.len() implies self.keys@[i]
                        != self.keys@[j] by {
                        if j == n {
                            assert(before.keys()[i] != tx);
                        }
                    }
                    assert forall|h: TxHash| #[trigger]
                        self.contents().contains_key(h) == before.contents().insert(
                            tx,
                            data@,
                        ).contains_key(h) by {
                        if before.keys().contains(h) {
                            let i = before.keys().index_of(h);
                            assert(self.keys()[i] == h);
                        }
                        if h == tx {
                            assert(self.keys()[n] == tx);
                        }
                        if self.keys().contains(h) && h != tx {
                            let i = self.keys().index_of(h);
                            assert(before.keys()[i] == h);
                        }
                    }
                    assert forall|h: TxHash| #[trigger]
                        self.contents().contains_key(h) implies self.contents()[h]
                        == before.contents().insert(tx, data@)[h] by {
                        let i = self.keys().index_of(h);
                        self.lemma_place(i);
                        if h != tx {
                            assert(before.keys()[i] == h);
                            before.lemma_place(i);
                        }
                    }
                    assert(self.contents() =~= before.contents().insert(tx, data@));
                }
                Ok(())
            },
        }
    }

    fn delete(&mut self, tx: TxHash) {
        match self.find(&tx) {
            Some(i) => {
                let ghost before = *self;
                self.keys.remove(i);
                self.sidecars.remove(i);
                proof {
                    assert(self.keys() == before.keys().remove(i as int));
                    assert(self.sidecars() =~= before.sidecars().remove(i as int));
                    assert forall|a: int, b: int| 0 <= a < b < self.keys@.len() implies self.keys@[a]
                        != self.keys@[b] by {
                        let a0 = if a < i {
                            a
                        } else {
                            a + 1
                        };
                        let b0 = if b < i {
                            b
                        } else {
                            b + 1
                        };
                        assert(before.keys()[a0] != before.keys()[b0]);
                    }
                    assert forall|h: TxHash| #[trigger]
                        self.contents().contains_key(h) == before.contents().remove(
                            tx,
                        ).contains_key(h) by {
                        if self.keys().contains(h) {
                            let a = self.keys().index_of(h);
                            let a0 = if a < i {
                                a
                            } else {
                                a + 1
                            };
                            assert(before.keys()[a0] == h);
                            if h == tx {
                                assert(before.keys()[a0] != before.keys()[i as int]);
                            }
                        }
                        if before.keys().contains(h) && h != tx {
                            let a0 = before.keys().index_of(h);
                            let a = if a0 < i {
                                a0
                            } else {
                                a0 - 1
                            };
                            assert(self.keys()[a] == h);
                        }
                    }
                    assert forall|h: TxHash| #[trigger]
                        self.contents().contains_key(h) implies self.contents()[h]
                        == before.contents().remove(tx)[h] by {
                        let a = self.keys().index_of(h);
                        self.lemma_place(a);
                        let a0 = if a < i {
                            a
                        } else {
                            a + 1
                        };
                        assert(before.keys()[a0] == h);
                        before.lemma_place(a0);
                    }
                    assert(self.contents() =~= before.contents().remove(tx));
                }
            },
            None => {
                proof {
                    assert(self.contents() =~= old(self).contents().remove(tx));
                }
            },
        }
    }

    fn cleanup(&mut self) {
    }

    fn blobs_len(&self) -> (r: usize) {
        proof {
            assert(self.contents().dom() =~= self.keys().to_set());
            assert(self.keys().no_duplicates());
            self.keys().unique_seq_to_set();
        }
        self.keys.len()
    }

    /// Never fails.
    fn contains(&self, tx: TxHash) -> (r: Result<bool, BlobStoreError>)
        ensures
            r is Ok,
    {
        Ok(self.find(&tx).is_some())
    }

    /// Never fails.
    fn get(&self, tx: TxHash) -> (r: Result<Option<&BlobTransactionSidecar>, BlobStoreError>)
        ensures
            r is Ok,
    {
        match self.find(&tx) {
            Some(i) => {
                proof {
                    self.lemma_place(i as int);
                }
                Ok(Some(&self.sidecars[i]))
            },
            None => Ok(None),
        }
    }

    /// Never fails.
    fn get_all(&self, txs: &Vec<TxHash>) -> (r: Result<
        Vec<(TxHash, &BlobTransactionSidecar)>,
        BlobStoreError,
    >)
        ensures
            r is Ok,
    {
        let mut out: Vec<(TxHash, &BlobTransactionSidecar)> = Vec::new();
        let mut j: usize = 0;
        proof {
            assert(listing(out@) =~= listed_upto(self.contents(), txs@, 0));
        }
        while j < txs.len()
            invariant
                j <= txs.len(),
                self.wf(),
                listing(out@) == listed_upto(
                    self.contents(),
                    txs@,
                    j as int,
                ),
            decreases txs.len() - j,
        {
            let tx = txs[j];
            let ghost before = out@;
            match self.find(&tx) {
                Some(i) => {
                    out.push((tx, &self.sidecars[i]));
                    proof {
                        self.lemma_place(i as int);
                        assert(listing(out@) =~= listing(before).push((tx, self.sidecars()[i as int])));
                    }
                },
                None => {},
            }
            j = j + 1;
        }
        Ok(out)
    }

    /// Fails where the store does not hold one of the sidecars, and only
    /// there.
    fn get_exact(&self, txs: &Vec<TxHash>) -> (r: Result<Vec<&BlobTransactionSidecar>, BlobStoreError>)
        ensures
            r is Err <==> exists|j: int|
                0 <= j < txs@.len() && !self.contents().contains_key(#[trigger] txs@[j]),
            r matches Err(e) ==> exists|j: int|
                0 <= j < txs@.len() && e == BlobStoreError::NotFound(#[trigger] txs@[j])
                    && !self.contents().contains_key(txs@[j]),
    {
        let mut out: Vec<&BlobTransactionSidecar> = Vec::new();
        let mut j: usize = 0;
        while j < txs.len()
            invariant
                j <= txs.len(),
                self.wf(),
                out@.len() == j,
                forall|i: int|
                    0 <= i < j ==> self.contents().contains_key(
                        #[trigger] txs@[i],
                    ) && self.contents()[txs@[i]] == out@[i]@,
            decreases txs.len() - j,
        {
            let tx = txs[j];
            match self.find(&tx) {
                Some(i) => {
                    out.push(&self.sidecars[i]);
                },
                None => {
                    return Err(BlobStoreError::NotFound(tx));
                },
            }
            j = j + 1;
        }
        Ok(out)
    }

    /// Never fails.
    fn get_by_versioned_hashes_v1(&self, versioned_hashes: &Vec<B256>) -> (r: Result<
        Vec<Option<&BlobAndProof>>,
        BlobStoreError,
    >)
        ensures
            r is Ok,
    {
        let mut out: Vec<Option<&BlobAndProof>> = Vec::new();
        let mut k: usize = 0;
        while k < versioned_hashes.len()
            invariant
                k <= versioned_hashes.len(),
                self.wf(),
                out@.len() == k,
                forall|j: int|
                    0 <= j < out@.len() ==> answers_versioned_hash(
                        self.contents(),
                        versioned_hashes@[j],
                        match #[trigger] out@[j] {
                            Some(b) => Some(b@),
                            None => None,
                        },
                    ),
            decreases versioned_hashes.len() - k,
        {
            let found = self.find_blob(&versioned_hashes[k]);
            out.push(found);
            k = k + 1;
        }
        Ok(out)
    }

    /// Never fails.
    fn get_by_versioned_hashes_v2(&self, versioned_hashes: &Vec<B256>) -> (r: Result<
        Option<Vec<&BlobAndProof>>,
        BlobStoreError,
    >)
        ensures
            r is Ok,
    {
        let mut out: Vec<&BlobAndProof> = Vec::new();
        let mut k: usize = 0;
        while k < versioned_hashes.len()
            invariant
                k <= versioned_hashes.len(),
                self.wf(),
                out@.len() == k,
                forall|j: int|
                    0 <= j < out@.len() ==> (#[trigger] out@[j])@.versioned_hash
                        == versioned_hashes@[j] && holds_blob(
                        self.contents(),
                        out@[j]@,
                    ),
            decreases versioned_hashes.len() - k,
        {
            match self.find_blob(&versioned_hashes[k]) {
                Some(b) => {
                    out.push(b);
                },
                None => {
                    return Ok(None);
                },
            }
            k = k + 1;
        }
        Ok(Some(out))
    }
}

} // verus!
