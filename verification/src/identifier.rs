//! Compact identifiers for senders and transactions.
//!
//! Every sender address the pool has seen is given a dense number, and a
//! transaction is identified by that number together with its nonce.

use crate::primitives::Address;
use vstd::prelude::*;

verus! {

/// A dense identifier standing for one sender address.
#[derive(Clone, Copy, Debug, PartialEq, Eq, Structural, Hash, PartialOrd, Ord)]
pub struct SenderId(pub u32);

impl SenderId {
    /// Wraps a raw number.
    pub fn new(id: u32) -> (r: Self)
        ensures
            r.0 == id,
    {
        SenderId(id)
    }

    /// The identifier of the sender's transaction with the given nonce.
    pub fn into_transaction_id(self, nonce: u64) -> (r: TransactionId)
        ensures
            r == (TransactionId { sender: self, nonce }),
    {
        TransactionId { sender: self, nonce }
    }
}

/// Identifies a transaction by sender and nonce.
#[derive(Clone, Copy, Debug, PartialEq, Eq, Structural, Hash, PartialOrd, Ord)]
pub struct TransactionId {
    /// The interned sender.
    pub sender: SenderId,
    /// The nonce of the transaction.
    pub nonce: u64,
}

impl TransactionId {
    /// The lexicographic order on (sender, nonce).
    pub open spec fn spec_lt(self, other: TransactionId) -> bool {
        self.sender.0 < other.sender.0 || (self.sender.0 == other.sender.0 && self.nonce
            < other.nonce)
    }

    /// The identifier one nonce below, where there is one.
    pub open spec fn spec_unchecked_ancestor(self) -> Option<TransactionId> {
        if self.nonce > 0 {
            Some(TransactionId { sender: self.sender, nonce: (self.nonce - 1) as u64 })
        } else {
            None
        }
    }

    /// The identifier one nonce above, where there is one.
    pub open spec fn spec_descendant(self) -> Option<TransactionId> {
        if self.nonce < u64::MAX {
            Some(TransactionId { sender: self.sender, nonce: (self.nonce + 1) as u64 })
        } else {
            None
        }
    }

    /// Builds an identifier.
    pub fn new(sender: SenderId, nonce: u64) -> (r: Self)
        ensures
            r.sender == sender,
            r.nonce == nonce,
    {
        TransactionId { sender, nonce }
    }

    /// The identifier of the transaction that has to be included before this
    /// one: the same sender with the nonce below where the nonce is above the
    /// on-chain nonce, else none.
    pub fn ancestor(transaction_nonce: u64, on_chain_nonce: u64, sender: SenderId) -> (r: Option<
        TransactionId,
    >)
        ensures
            r == (if transaction_nonce > on_chain_nonce {
                Some(TransactionId { sender, nonce: (transaction_nonce - 1) as u64 })
            } else {
                None
            }),
    {
        if transaction_nonce > on_chain_nonce {
            Some(TransactionId { sender, nonce: transaction_nonce - 1 })
        } else {
            None
        }
    }

    /// The identifier of the same sender with the nonce below; `None` only
    /// where the nonce is zero.
    pub fn unchecked_ancestor(&self) -> (r: Option<TransactionId>)
        ensures
            r == self.spec_unchecked_ancestor(),
    {
        if self.nonce > 0 {
            Some(TransactionId { sender: self.sender, nonce: self.nonce - 1 })
        } else {
            None
        }
    }

    /// The identifier of the same sender with the nonce above; `None` only
    /// where the nonce is the largest there is.
    pub fn descendant(&self) -> (r: Option<TransactionId>)
        ensures
            r == self.spec_descendant(),
    {
        if self.nonce < u64::MAX {
            Some(TransactionId { sender: self.sender, nonce: self.nonce + 1 })
        } else {
            None
        }
    }

    /// Whether `other` is the transaction right after this one.
    pub fn is_followed_by(&self, other: &TransactionId) -> (r: bool)
        ensures
            r == (self.spec_descendant() == Some(*other)),
    {
        self.sender.0 == other.sender.0 && self.nonce < u64::MAX && self.nonce + 1 == other.nonce
    }

    /// Whether this identifier comes strictly before `other`.
    pub fn lt(&self, other: &TransactionId) -> (r: bool)
        ensures
            r == self.spec_lt(*other),
    {
        self.sender.0 < other.sender.0 || (self.sender.0 == other.sender.0 && self.nonce
            < other.nonce)
    }
}

/// The order on identifiers is a strict total order: of two identifiers
/// exactly one of "before", "equal" and "after" holds, and "before" is
/// transitive.
pub proof fn lemma_transaction_id_total_order(a: TransactionId, b: TransactionId, c: TransactionId)
    ensures
        !a.spec_lt(a),
        a.spec_lt(b) || b.spec_lt(a) || a == b,
        !(a.spec_lt(b) && b.spec_lt(a)),
        a.spec_lt(b) && b.spec_lt(c) ==> a.spec_lt(c),
{
}

/// Going one nonce up and one nonce down again gives the identifier back.
pub proof fn lemma_ancestor_of_descendant(a: TransactionId)
    ensures
        a.spec_descendant() matches Some(d) ==> d.spec_unchecked_ancestor() == Some(a) && a.spec_lt(
            d,
        ),
        a.spec_unchecked_ancestor() matches Some(p) ==> p.spec_descendant() == Some(a) && p.spec_lt(
            a,
        ),
{
}

/// The largest number of senders that can be told apart.
pub const MAX_SENDERS: usize = 0xFFFF_FFFF;

/// Maps sender addresses to dense identifiers and back.
///
/// The identifier of an address is its position in the order in which the
/// addresses were first seen; an identifier, once given, is never taken back.
#[derive(Debug)]
pub struct SenderIdentifiers {
    addresses: Vec<Address>,
}

impl View for SenderIdentifiers {
    type V = Seq<Address>;

    closed spec fn view(&self) -> Seq<Address> {
        self.addresses@
    }
}

/// No address occurs at two positions.
pub open spec fn no_duplicate_addresses(s: Seq<Address>) -> bool {
    forall|i: int, j: int| 0 <= i < j < s.len() ==> s[i] != s[j]
}

impl SenderIdentifiers {
    /// The addresses are pairwise distinct and their number fits the
    /// identifier type.
    pub open spec fn wf(&self) -> bool {
        &&& no_duplicate_addresses(self@)
        &&& self@.len() <= MAX_SENDERS
    }

    /// The identifier of `addr`, where it has one.
    pub open spec fn spec_sender_id(&self, addr: Address) -> Option<SenderId> {
        if self@.contains(addr) {
            Some(SenderId(self@.index_of(addr) as u32))
        } else {
            None
        }
    }

    /// A table without any sender.
    pub fn new() -> (r: Self)
        ensures
            r.wf(),
            r@ == Seq::<Address>::empty(),
    {
        SenderIdentifiers { addresses: Vec::new() }
    }

    /// The number of senders known.
    pub fn len(&self) -> (r: usize)
        ensures
            r == self@.len(),
    {
        self.addresses.len()
    }

    /// The address that `id` stands for, where it stands for one.
    pub fn address(&self, id: &SenderId) -> (r: Option<Address>)
        ensures
            r == (if (id.0 as int) < self@.len() {
                Some(self@[id.0 as int])
            } else {
                None
            }),
    {
        if (id.0 as usize) < self.addresses.len() {
            Some(self.addresses[id.0 as usize])
        } else {
            None
        }
    }

    /// The identifier of `addr`, where it has one.
    pub fn sender_id(&self, addr: &Address) -> (r: Option<SenderId>)
        requires
            self.wf(),
        ensures
            r == self.spec_sender_id(*addr),
            r matches Some(id) ==> (id.0 as int) < self@.len() && self@[id.0 as int] == *addr,
            r is None ==> !self@.contains(*addr),
    {
        let mut i: usize = 0;
        while i < self.addresses.len()
            invariant
                self.wf(),
                i <= self.addresses.len(),
                forall|k: int| 0 <= k < i ==> self@[k] != *addr,
            decreases self.addresses.len() - i,
        {
            if self.addresses[i] == *addr {
                proof {
                    assert(self@[i as int] == *addr);
                    assert(self@.contains(*addr));
                    let j = self@.index_of(*addr);
                    assert(j == i) by {
                        if j < i {
                            assert(self@[j] != *addr);
                        } else if j > i {
                            assert(self@[i as int] != self@[j]);
                        }
                    }
                }
                return Some(SenderId(i as u32));
            }
            i = i + 1;
        }
        None
    }

    /// The identifier of `addr`; an address not seen before gets the next
    /// free one. `None` where no identifier is free any more.
    pub fn sender_id_or_create(&mut self, addr: Address) -> (r: Option<SenderId>)
        requires
            old(self).wf(),
        ensures
            final(self).wf(),
            old(self)@.contains(addr) ==> final(self)@ == old(self)@ && r == old(self).spec_sender_id(addr),
            !old(self)@.contains(addr) && old(self)@.len() < MAX_SENDERS ==> final(self)@ == old(self)@.push(addr) && r == Some(SenderId(old(self)@.len() as u32)),
            !old(self)@.contains(addr) && old(self)@.len() >= MAX_SENDERS ==> final(self)@ == old(self)@ && r is None,
            r matches Some(id) ==> (id.0 as int) < final(self)@.len() && final(self)@[id.0 as int]
                == addr,
    {
        match self.sender_id(&addr) {
            Some(id) => Some(id),
            None => {
                let n = self.addresses.len();
                if n >= MAX_SENDERS {
                    None
                } else {
                    self.addresses.push(addr);
                    Some(SenderId(n as u32))
                }
            },
        }
    }
}

/// Addresses and identifiers correspond one to one: two addresses with the
/// same identifier are the same address, and the identifier of the address
/// that an identifier stands for is that identifier.
pub proof fn lemma_interner_bijection(s: SenderIdentifiers, a: Address, b: Address, i: int)
    requires
        s.wf(),
    ensures
        s.spec_sender_id(a) is Some && s.spec_sender_id(a) == s.spec_sender_id(b) ==> a == b,
        0 <= i < s@.len() ==> s.spec_sender_id(s@[i]) == Some(SenderId(i as u32)),
        s.spec_sender_id(a) matches Some(id) ==> 0 <= id.0 < s@.len() && s@[id.0 as int] == a,
{
    if s@.contains(a) {
        let ia = s@.index_of(a);
        assert(s@[ia] == a);
        if s@.contains(b) {
            let ib = s@.index_of(b);
            assert(s@[ib] == b);
        }
    }
    if 0 <= i < s@.len() {
        assert(s@.contains(s@[i]));
        let j = s@.index_of(s@[i]);
        assert(s@[j] == s@[i]);
        assert(j == i) by {
            if j < i {
                assert(s@[j] != s@[i]);
            } else if j > i {
                assert(s@[i] != s@[j]);
            }
        }
    }
}

} // verus!
