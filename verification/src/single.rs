//! Single-precision numbers as bit patterns.
//!
//! Every scalar of the two engines is an IEEE 754 binary32 number. The library
//! carries such a number as its 32-bit pattern and decides sign, class and
//! order by integer arithmetic on that pattern.

use vstd::prelude::*;

verus! {

/// Bit pattern with only the sign bit set.
pub const SIGN_BIT: u32 = 0x8000_0000;

/// Bit pattern of positive infinity; every larger magnitude is a NaN.
pub const INFINITY_BITS: u32 = 0x7f80_0000;

/// Bit pattern of the NaN that the library's own operations give.
pub const QUIET_NAN_BITS: u32 = 0x7fc0_0000;

/// An IEEE 754 binary32 number, held as its bit pattern.
///
/// `==` on this type compares patterns: it tells `+0` from `-0` and one NaN
/// from another. Numeric order is `lt`, `gt`, `le` and `ge`.
#[derive(Clone, Copy, Debug, PartialEq, Eq, Structural)]
pub struct Single {
    pub bits: u32,
}

impl Single {
    /// The pattern without its sign bit.
    pub open spec fn magnitude(self) -> nat {
        if self.bits >= SIGN_BIT {
            (self.bits - SIGN_BIT) as nat
        } else {
            self.bits as nat
        }
    }

    /// The sign bit is set. This holds of `-0` and of half of the NaNs too.
    pub open spec fn is_negative(self) -> bool {
        self.bits >= SIGN_BIT
    }

    pub open spec fn is_nan(self) -> bool {
        self.magnitude() > INFINITY_BITS
    }

    pub open spec fn is_infinite(self) -> bool {
        self.magnitude() == INFINITY_BITS
    }

    /// Zero, subnormal or normal.
    pub open spec fn is_finite(self) -> bool {
        self.magnitude() < INFINITY_BITS
    }

    pub open spec fn is_zero(self) -> bool {
        self.magnitude() == 0
    }

    /// The magnitude with the sign applied. On numbers that are not NaN it
    /// grows exactly as the number does: both zeros have rank 0 and the
    /// infinities have the two extreme ranks.
    pub open spec fn rank(self) -> int {
        if self.is_negative() {
            -(self.magnitude() as int)
        } else {
            self.magnitude() as int
        }
    }

    /// Numeric `<`: false as soon as one side is a NaN.
    pub open spec fn spec_lt(self, other: Single) -> bool {
        !self.is_nan() && !other.is_nan() && self.rank() < other.rank()
    }

    /// Numeric `>`.
    pub open spec fn spec_gt(self, other: Single) -> bool {
        other.spec_lt(self)
    }

    /// Numeric `<=`: false as soon as one side is a NaN.
    pub open spec fn spec_le(self, other: Single) -> bool {
        !self.is_nan() && !other.is_nan() && self.rank() <= other.rank()
    }

    /// Numeric `>=`.
    pub open spec fn spec_ge(self, other: Single) -> bool {
        other.spec_le(self)
    }

    /// Numeric equality: `+0` equals `-0`, and a NaN equals nothing.
    pub open spec fn spec_same_number(self, other: Single) -> bool {
        !self.is_nan() && !other.is_nan() && self.rank() == other.rank()
    }

    pub fn from_bits(bits: u32) -> (r: Single)
        ensures
            r.bits == bits,
    {
        Single { bits }
    }

    pub fn to_bits(self) -> (r: u32)
        ensures
            r == self.bits,
    {
        self.bits
    }

    fn magnitude_bits(self) -> (m: u32)
        ensures
            m == self.magnitude(),
    {
        if self.bits >= SIGN_BIT {
            self.bits - SIGN_BIT
        } else {
            self.bits
        }
    }

    fn rank_value(self) -> (r: i64)
        ensures
            r == self.rank(),
    {
        let m: i64 = self.magnitude_bits() as i64;
        if self.bits >= SIGN_BIT {
            -m
        } else {
            m
        }
    }

    pub fn sign_is_negative(self) -> (r: bool)
        ensures
            r == self.is_negative(),
    {
        self.bits >= SIGN_BIT
    }

    pub fn nan(self) -> (r: bool)
        ensures
            r == self.is_nan(),
    {
        self.magnitude_bits() > INFINITY_BITS
    }

    pub fn finite(self) -> (r: bool)
        ensures
            r == self.is_finite(),
    {
        self.magnitude_bits() < INFINITY_BITS
    }

    pub fn lt(self, other: Single) -> (r: bool)
        ensures
            r == self.spec_lt(other),
    {
        !self.nan() && !other.nan() && self.rank_value() < other.rank_value()
    }

    pub fn gt(self, other: Single) -> (r: bool)
        ensures
            r == self.spec_gt(other),
    {
        other.lt(self)
    }

    pub fn le(self, other: Single) -> (r: bool)
        ensures
            r == self.spec_le(other),
    {
        !self.nan() && !other.nan() && self.rank_value() <= other.rank_value()
    }

    pub fn ge(self, other: Single) -> (r: bool)
        ensures
            r == self.spec_ge(other),
    {
        other.le(self)
    }
}

/// Positive zero.
pub open spec fn zero() -> Single {
    Single { bits: 0 }
}

/// One.
pub open spec fn one() -> Single {
    Single { bits: 0x3f80_0000 }
}

} // verus!
