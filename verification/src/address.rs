//! 160-bit token / contract identities.
//!
//! An address is a 20-byte value with a total order and a distinguished zero
//! value. The zero address is used as the key of the sentinel start node in
//! the swap graph.

use vstd::prelude::*;

verus! {

/// A 20-byte address, split into a 32-bit high part and a 128-bit low part.
/// The order is lexicographic on `(hi, lo)`, which matches the byte-wise
/// order of the 20-byte big-endian representation.
#[derive(PartialEq, Eq, Structural, Clone, Copy, Debug, Hash)]
pub struct Address {
    pub hi: u32,
    pub lo: u128,
}

impl Address {
    /// `self` strictly precedes `other` in the byte-wise order.
    pub open spec fn spec_lt(self, other: Address) -> bool {
        self.hi < other.hi || (self.hi == other.hi && self.lo < other.lo)
    }

    /// The distinguished zero value, the sentinel for the start node.
    pub open spec fn spec_is_zero(self) -> bool {
        self.hi == 0 && self.lo == 0
    }

    /// The zero address.
    pub fn zero() -> (r: Address)
        ensures
            r.spec_is_zero(),
    {
        Address { hi: 0, lo: 0 }
    }

    /// Build an address from its two parts.
    pub fn new(hi: u32, lo: u128) -> (r: Address)
        ensures
            r.hi == hi,
            r.lo == lo,
    {
        Address { hi, lo }
    }

    /// Byte-wise strict comparison.
    pub fn lt(&self, other: &Address) -> (r: bool)
        ensures
            r == self.spec_lt(*other),
    {
        self.hi < other.hi || (self.hi == other.hi && self.lo < other.lo)
    }

    /// Whether this is the zero address.
    pub fn is_zero(&self) -> (r: bool)
        ensures
            r == self.spec_is_zero(),
    {
        self.hi == 0 && self.lo == 0
    }
}

/// The two addresses in ascending order.
pub fn sort_address_pair(a: Address, b: Address) -> (r: (Address, Address))
    ensures
        r.0.spec_lt(r.1) || r.0 == r.1,
        (r.0 == a && r.1 == b) || (r.0 == b && r.1 == a),
{
    if b.lt(&a) {
        (b, a)
    } else {
        (a, b)
    }
}

} // verus!
