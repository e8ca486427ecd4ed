//! Single-precision numbers as their IEEE 754 bit patterns.
//!
//! The core stores, checks and orders such numbers; it never computes with
//! them.

use vstd::prelude::*;

verus! {

/// One `f32`, by its bits.
#[derive(Clone, Copy, Debug, PartialEq, Eq, Structural, Hash)]
pub struct F32Bits(pub u32);

/// The sign bit.
pub const SIGN: u32 = 0x8000_0000;

/// The bits of positive infinity; every larger magnitude is not a number.
pub const INFINITY: u32 = 0x7F80_0000;

/// The bits of one.
pub const ONE: u32 = 0x3F80_0000;

impl F32Bits {
    /// Neither infinite nor not-a-number.
    pub open spec fn finite(self) -> bool {
        self.0 % SIGN < INFINITY
    }

    /// Zero, of either sign.
    pub open spec fn zero(self) -> bool {
        self.0 % SIGN == 0
    }

    /// Finite and at least zero (negative zero included).
    pub open spec fn weight(self) -> bool {
        self.0 < INFINITY || self.0 == SIGN
    }

    /// Finite and above zero.
    pub open spec fn positive(self) -> bool {
        0 < self.0 < INFINITY
    }

    /// Inside `[0, 1]` (negative zero included).
    pub open spec fn unit(self) -> bool {
        self.0 <= ONE || self.0 == SIGN
    }

    /// The place of the number in the total order of IEEE 754: negative
    /// numbers by falling magnitude, then positive ones by rising magnitude.
    pub open spec fn rank(self) -> int {
        if self.0 >= SIGN {
            0xFFFF_FFFF - self.0
        } else {
            self.0 + 0x8000_0000
        }
    }

    /// Not a number.
    pub open spec fn not_a_number(self) -> bool {
        self.0 % SIGN > INFINITY
    }

    /// Greater in the numeric order: nothing compares with what is not a
    /// number, and the two zeros are the same.
    pub open spec fn exceeds(self, other: F32Bits) -> bool {
        &&& !self.not_a_number()
        &&& !other.not_a_number()
        &&& self.rank() > other.rank()
        &&& !(self.0 == 0 && other.0 == SIGN)
    }

    /// Whether the number is greater in the numeric order.
    pub fn is_above(self, other: F32Bits) -> (r: bool)
        ensures
            r == self.exceeds(other),
    {
        self.0 % SIGN <= INFINITY && other.0 % SIGN <= INFINITY && self.total_rank()
            > other.total_rank() && !(self.0 == 0 && other.0 == SIGN)
    }

    pub fn is_finite(self) -> (r: bool)
        ensures
            r == self.finite(),
    {
        self.0 % SIGN < INFINITY
    }

    pub fn is_zero(self) -> (r: bool)
        ensures
            r == self.zero(),
    {
        self.0 % SIGN == 0
    }

    pub fn is_weight(self) -> (r: bool)
        ensures
            r == self.weight(),
    {
        self.0 < INFINITY || self.0 == SIGN
    }

    pub fn is_positive(self) -> (r: bool)
        ensures
            r == self.positive(),
    {
        0 < self.0 && self.0 < INFINITY
    }

    pub fn is_unit(self) -> (r: bool)
        ensures
            r == self.unit(),
    {
        self.0 <= ONE || self.0 == SIGN
    }

    /// The place of the number in the total order.
    pub fn total_rank(self) -> (r: u32)
        ensures
            r == self.rank(),
    {
        if self.0 >= SIGN {
            0xFFFF_FFFF - self.0
        } else {
            self.0 + 0x8000_0000
        }
    }
}

/// Two numbers at the same place of the total order have the same bits.
pub proof fn rank_is_injective(a: F32Bits, b: F32Bits)
    requires
        a.rank() == b.rank(),
    ensures
        a == b,
{
}

} // verus!
