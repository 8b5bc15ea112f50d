//! Security levels in bits, as exact fixed-point numbers.

use vstd::prelude::*;

verus! {

/// How many units make a bit.
pub const UNITS_PER_BIT: u64 = 1_000_000;

/// A number of bits of security, in millionths of a bit.
#[derive(Clone, Copy, Debug, PartialEq, Eq, Structural)]
pub struct Bits {
    pub micro: u64,
}

impl Bits {
    /// A whole number of bits.
    pub open spec fn spec_whole(bits: u32) -> Bits {
        Bits { micro: (bits * UNITS_PER_BIT) as u64 }
    }

    /// A whole number of bits.
    pub fn whole(bits: u32) -> (r: Bits)
        ensures
            r == Bits::spec_whole(bits),
            r.micro == bits * UNITS_PER_BIT,
    {
        Bits { micro: bits as u64 * UNITS_PER_BIT }
    }

    /// A number of bits, in millionths.
    pub fn new(micro: u64) -> (r: Bits)
        ensures
            r.micro == micro,
    {
        Bits { micro }
    }

    /// The distance between two levels.
    pub fn abs_diff(self, other: Bits) -> (r: Bits)
        ensures
            r.micro == (if self.micro >= other.micro {
                self.micro - other.micro
            } else {
                other.micro - self.micro
            }),
    {
        if self.micro >= other.micro {
            Bits { micro: self.micro - other.micro }
        } else {
            Bits { micro: other.micro - self.micro }
        }
    }
}

} // verus!
