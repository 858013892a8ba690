//! How pending transactions are ranked against each other.

use crate::primitives::U256;
use crate::transaction::{spec_effective_tip, Tx};
use vstd::prelude::*;

verus! {

/// The rank of a transaction; a higher one is served first.
#[derive(Clone, Copy, Debug, PartialEq, Eq, Structural, Hash)]
pub enum Priority {
    /// The transaction has this rank.
    Value(U256),
    /// The transaction has no rank; it comes after every ranked one.
    Unranked,
}

impl Priority {
    /// The rank as a number: one more than the value, and zero for `Unranked`.
    pub open spec fn level(self) -> nat {
        match self {
            Priority::Value(v) => v@ + 1,
            Priority::Unranked => 0,
        }
    }

    /// Whether this rank is strictly above `other`.
    pub fn gt(&self, other: &Priority) -> (r: bool)
        ensures
            r == (self.level() > other.level()),
    {
        match (self, other) {
            (Priority::Value(a), Priority::Value(b)) => a.gt(b),
            (Priority::Value(_), Priority::Unranked) => true,
            (Priority::Unranked, _) => false,
        }
    }

    /// Whether this rank is the same as `other`.
    pub fn eq_level(&self, other: &Priority) -> (r: bool)
        ensures
            r == (self.level() == other.level()),
            r == (*self == *other),
    {
        match (self, other) {
            (Priority::Value(a), Priority::Value(b)) => {
                proof {
                    crate::primitives::lemma_u256_range(*a, *b);
                }
                a.hi == b.hi && a.lo == b.lo
            },
            (Priority::Unranked, Priority::Unranked) => true,
            _ => false,
        }
    }
}

/// Ranks transactions for block production.
pub trait TransactionOrdering {
    /// The rank that `priority` gives.
    open spec fn spec_priority(&self, tx: Tx, base_fee: u64) -> Priority {
        Priority::Unranked
    }

    /// The rank of `tx` when the next block has the given base fee.
    fn priority(&self, tx: &Tx, base_fee: u64) -> (r: Priority)
        ensures
            r == self.spec_priority(*tx, base_fee),
    ;
}

/// Ranks a transaction by what it tips the block producer per unit of gas.
#[derive(Clone, Copy, Debug, PartialEq, Eq, Structural)]
pub struct CoinbaseTipOrdering {}

impl CoinbaseTipOrdering {
    /// The ordering.
    pub fn new() -> (r: Self) {
        CoinbaseTipOrdering {  }
    }
}

impl TransactionOrdering for CoinbaseTipOrdering {
    open spec fn spec_priority(&self, tx: Tx, base_fee: u64) -> Priority {
        match spec_effective_tip(tx, base_fee) {
            Some(tip) => Priority::Value(U256 { hi: 0, lo: tip }),
            None => Priority::Unranked,
        }
    }

    fn priority(&self, tx: &Tx, base_fee: u64) -> (r: Priority) {
        match tx.effective_tip_per_gas(base_fee) {
            Some(tip) => Priority::Value(U256::from_u128(tip)),
            None => Priority::Unranked,
        }
    }
}

} // verus!
