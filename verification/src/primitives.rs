//! Fixed-width values that transactions carry: addresses, hashes and
//! 256-bit amounts.

use vstd::prelude::*;

verus! {

/// Two to the power 64.
pub open spec fn pow2_64() -> nat {
    0x1_0000_0000_0000_0000nat
}

/// Two to the power 128.
pub open spec fn pow2_128() -> nat {
    0x1_0000_0000_0000_0000_0000_0000_0000_0000nat
}

/// Two to the power 256.
pub open spec fn pow2_256() -> nat {
    pow2_128() * pow2_128()
}

/// A 20-byte account address, held as its big-endian number: the upper four
/// bytes in `hi`, the lower sixteen in `lo`.
#[derive(Clone, Copy, Debug, PartialEq, Eq, Structural, Hash, PartialOrd, Ord)]
pub struct Address {
    pub hi: u32,
    pub lo: u128,
}

impl Address {
    /// Builds an address from its two halves.
    pub fn new(hi: u32, lo: u128) -> (r: Self)
        ensures
            r.hi == hi,
            r.lo == lo,
    {
        Address { hi, lo }
    }
}

/// A 32-byte hash, held as its big-endian number split in two halves.
#[derive(Clone, Copy, Debug, PartialEq, Eq, Structural, Hash, PartialOrd, Ord)]
pub struct B256 {
    pub hi: u128,
    pub lo: u128,
}

impl B256 {
    /// Builds a hash from its two halves.
    pub fn new(hi: u128, lo: u128) -> (r: Self)
        ensures
            r.hi == hi,
            r.lo == lo,
    {
        B256 { hi, lo }
    }
}

/// The hash that identifies a transaction.
pub type TxHash = B256;

/// An unsigned 256-bit number: `hi * 2^128 + lo`.
#[derive(Clone, Copy, Debug, PartialEq, Eq, Structural, Hash, PartialOrd, Ord)]
pub struct U256 {
    pub hi: u128,
    pub lo: u128,
}

impl View for U256 {
    type V = nat;

    open spec fn view(&self) -> nat {
        (self.hi as nat) * pow2_128() + (self.lo as nat)
    }
}

/// Every 256-bit number is below two to the power 256, and two of them with
/// the same value are the same.
pub proof fn lemma_u256_range(a: U256, b: U256)
    ensures
        a@ < pow2_256(),
        a@ == b@ <==> a == b,
        a@ < b@ <==> (a.hi < b.hi || (a.hi == b.hi && a.lo < b.lo)),
{
    assert(a@ < pow2_256()) by (nonlinear_arith)
        requires
            a@ == (a.hi as nat) * pow2_128() + (a.lo as nat),
            a.hi < pow2_128(),
            a.lo < pow2_128(),
            pow2_256() == pow2_128() * pow2_128(),
    ;
    assert(a@ < b@ <==> (a.hi < b.hi || (a.hi == b.hi && a.lo < b.lo))) by (nonlinear_arith)
        requires
            a@ == (a.hi as nat) * pow2_128() + (a.lo as nat),
            b@ == (b.hi as nat) * pow2_128() + (b.lo as nat),
            a.lo < pow2_128(),
            b.lo < pow2_128(),
            pow2_128() > 0,
    ;
    assert(a@ == b@ ==> a.hi == b.hi && a.lo == b.lo) by (nonlinear_arith)
        requires
            a@ == (a.hi as nat) * pow2_128() + (a.lo as nat),
            b@ == (b.hi as nat) * pow2_128() + (b.lo as nat),
            a.lo < pow2_128(),
            b.lo < pow2_128(),
            pow2_128() > 0,
    ;
}

impl U256 {
    /// Zero.
    pub fn zero() -> (r: Self)
        ensures
            r@ == 0,
    {
        U256 { hi: 0, lo: 0 }
    }

    /// The largest 256-bit number.
    pub fn max_value() -> (r: Self)
        ensures
            r@ == pow2_256() - 1,
    {
        let r = U256 { hi: u128::MAX, lo: u128::MAX };
        assert(r@ == pow2_256() - 1) by (nonlinear_arith)
            requires
                r@ == (r.hi as nat) * pow2_128() + (r.lo as nat),
                r.hi == pow2_128() - 1,
                r.lo == pow2_128() - 1,
                pow2_256() == pow2_128() * pow2_128(),
        ;
        r
    }

    /// The 256-bit number with the value of `v`.
    pub fn from_u128(v: u128) -> (r: Self)
        ensures
            r@ == v,
    {
        U256 { hi: 0, lo: v }
    }

    /// The 256-bit number with the value of `v`.
    pub fn from_u64(v: u64) -> (r: Self)
        ensures
            r@ == v,
    {
        U256 { hi: 0, lo: v as u128 }
    }

    /// The value as a `u128`, where it fits.
    pub fn to_u128(&self) -> (r: Option<u128>)
        ensures
            r == (if self@ < pow2_128() {
                Some(self@ as u128)
            } else {
                None
            }),
    {
        proof {
            assert(self.hi > 0 ==> self@ >= pow2_128()) by (nonlinear_arith)
                requires
                    self@ == (self.hi as nat) * pow2_128() + (self.lo as nat),
            ;
        }
        if self.hi == 0 {
            Some(self.lo)
        } else {
            None
        }
    }

    /// Whether `self` is less than `other`.
    pub fn lt(&self, other: &U256) -> (r: bool)
        ensures
            r == (self@ < other@),
    {
        proof {
            lemma_u256_range(*self, *other);
        }
        self.hi < other.hi || (self.hi == other.hi && self.lo < other.lo)
    }

    /// Whether `self` is at most `other`.
    pub fn le(&self, other: &U256) -> (r: bool)
        ensures
            r == (self@ <= other@),
    {
        proof {
            lemma_u256_range(*other, *self);
        }
        !other.lt(self)
    }

    /// Whether `self` is greater than `other`.
    pub fn gt(&self, other: &U256) -> (r: bool)
        ensures
            r == (self@ > other@),
    {
        other.lt(self)
    }

    /// Whether `self` is at least `other`.
    pub fn ge(&self, other: &U256) -> (r: bool)
        ensures
            r == (self@ >= other@),
    {
        !self.lt(other)
    }

    /// The sum, or `None` where it does not fit in 256 bits.
    pub fn checked_add(&self, other: &U256) -> (r: Option<U256>)
        ensures
            match r {
                Some(s) => s@ == self@ + other@,
                None => self@ + other@ >= pow2_256(),
            },
    {
        let gap: u128 = u128::MAX - other.lo;
        let (lo, carry): (u128, u128) = if self.lo > gap {
            (self.lo - gap - 1, 1)
        } else {
            (self.lo + other.lo, 0)
        };
        assert(lo + carry * pow2_128() == self.lo + other.lo);
        let hi_sum = match self.hi.checked_add(other.hi) {
            Some(h) => h.checked_add(carry),
            None => None,
        };
        match hi_sum {
            Some(hi) => {
                let s = U256 { hi, lo };
                assert(s@ == self@ + other@) by (nonlinear_arith)
                    requires
                        s@ == (hi as nat) * pow2_128() + (lo as nat),
                        self@ == (self.hi as nat) * pow2_128() + (self.lo as nat),
                        other@ == (other.hi as nat) * pow2_128() + (other.lo as nat),
                        hi == self.hi + other.hi + carry,
                        lo + carry * pow2_128() == self.lo + other.lo,
                ;
                Some(s)
            },
            None => {
                assert(self@ + other@ >= pow2_256()) by (nonlinear_arith)
                    requires
                        self@ == (self.hi as nat) * pow2_128() + (self.lo as nat),
                        other@ == (other.hi as nat) * pow2_128() + (other.lo as nat),
                        self.hi + other.hi + carry >= pow2_128(),
                        lo + carry * pow2_128() == self.lo + other.lo,
                        pow2_256() == pow2_128() * pow2_128(),
                ;
                None
            },
        }
    }

    /// The sum, or the largest 256-bit number where the sum does not fit.
    pub fn saturating_add(&self, other: &U256) -> (r: U256)
        ensures
            r@ == (if self@ + other@ < pow2_256() {
                self@ + other@
            } else {
                (pow2_256() - 1) as nat
            }),
    {
        match self.checked_add(other) {
            Some(s) => {
                proof {
                    lemma_u256_range(s, s);
                }
                s
            },
            None => U256::max_value(),
        }
    }

    /// The product of a 64-bit and a 128-bit number, which always fits.
    pub fn mul_u64_u128(a: u64, b: u128) -> (r: U256)
        ensures
            r@ == (a as nat) * (b as nat),
    {
        let base: u128 = 0x1_0000_0000_0000_0000;
        let b_hi: u128 = b / base;
        let b_lo: u128 = b % base;
        assert(b == b_hi * pow2_64() + b_lo);
        assert((a as nat) * (b_lo as nat) <= 0xFFFF_FFFF_FFFF_FFFF * 0xFFFF_FFFF_FFFF_FFFF)
            by (nonlinear_arith)
            requires
                a <= 0xFFFF_FFFF_FFFF_FFFF,
                b_lo <= 0xFFFF_FFFF_FFFF_FFFF,
        ;
        assert((a as nat) * (b_hi as nat) <= 0xFFFF_FFFF_FFFF_FFFF * 0xFFFF_FFFF_FFFF_FFFF)
            by (nonlinear_arith)
            requires
                a <= 0xFFFF_FFFF_FFFF_FFFF,
                b_hi <= 0xFFFF_FFFF_FFFF_FFFF,
        ;
        let p_lo: u128 = (a as u128) * b_lo;
        let p_hi: u128 = (a as u128) * b_hi;
        let q: u128 = p_hi / base;
        let m: u128 = p_hi % base;
        assert(p_hi == q * pow2_64() + m);
        let shifted: u128 = m * base;
        assert(q * pow2_128() + shifted == p_hi * pow2_64()) by (nonlinear_arith)
            requires
                p_hi == q * pow2_64() + m,
                shifted == m * pow2_64(),
                pow2_128() == pow2_64() * pow2_64(),
        ;
        let low = U256 { hi: 0, lo: p_lo };
        let high = U256 { hi: q, lo: shifted };
        assert(low@ + high@ == (a as nat) * (b as nat)) by (nonlinear_arith)
            requires
                low@ == p_lo,
                high@ == (q as nat) * pow2_128() + (shifted as nat),
                q * pow2_128() + shifted == p_hi * pow2_64(),
                p_lo == (a as nat) * (b_lo as nat),
                p_hi == (a as nat) * (b_hi as nat),
                b == b_hi * pow2_64() + b_lo,
        ;
        assert(low@ + high@ < pow2_256()) by (nonlinear_arith)
            requires
                low@ + high@ == (a as nat) * (b as nat),
                a < pow2_64(),
                b < pow2_128(),
                pow2_256() == pow2_128() * pow2_128(),
                pow2_64() < pow2_128(),
        ;
        match low.checked_add(&high) {
            Some(s) => s,
            None => U256::zero(),
        }
    }
}

} // verus!
