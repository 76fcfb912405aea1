//! Single-precision numbers carried by their bit patterns.
//!
//! The library moves, compares and selects these numbers; it never does
//! arithmetic on them. The comparisons are those of IEEE 754 binary32.

use vstd::prelude::*;

verus! {

/// The bit pattern of a binary32 number.
#[derive(Clone, Copy, Debug, PartialEq, Eq, Structural)]
pub struct FloatBits {
    pub bits: u32,
}

/// Bit of the sign.
pub const SIGN_BIT: u32 = 0x8000_0000;

/// Pattern of positive infinity: every larger magnitude is a NaN.
pub const INFINITY_BITS: u32 = 0x7f80_0000;

impl FloatBits {
    /// Whether the sign bit is set.
    pub open spec fn negative(self) -> bool {
        self.bits >= SIGN_BIT
    }

    /// The pattern without its sign bit; among numbers that are no NaN it grows
    /// with the absolute value.
    pub open spec fn magnitude(self) -> int {
        if self.negative() {
            self.bits - SIGN_BIT
        } else {
            self.bits as int
        }
    }

    /// Whether the pattern is not a number.
    pub open spec fn nan(self) -> bool {
        self.magnitude() > INFINITY_BITS
    }

    /// Position on the number line: the magnitude, negated below zero. Both
    /// zeros have rank zero.
    pub open spec fn rank(self) -> int {
        if self.negative() {
            -self.magnitude()
        } else {
            self.magnitude()
        }
    }

    /// `self < other` as the IEEE comparison decides it.
    pub open spec fn below(self, other: FloatBits) -> bool {
        !self.nan() && !other.nan() && self.rank() < other.rank()
    }

    /// `self == other` as the IEEE comparison decides it.
    pub open spec fn same_number(self, other: FloatBits) -> bool {
        !self.nan() && !other.nan() && self.rank() == other.rank()
    }

    /// Position in an order of all patterns: by rank, and NaN after everything.
    pub open spec fn place(self) -> int {
        if self.nan() {
            INFINITY_BITS + 1
        } else {
            self.rank()
        }
    }

    /// Positive zero.
    pub fn zero() -> (r: FloatBits)
        ensures
            r == (FloatBits { bits: 0 }),
    {
        FloatBits { bits: 0 }
    }

    /// The rank of the number, or `None` for a NaN.
    fn ranked(self) -> (r: Option<i64>)
        ensures
            r is None <==> self.nan(),
            r matches Some(k) ==> k == self.rank(),
    {
        let negative = self.bits >= SIGN_BIT;
        let magnitude: u32 = if negative {
            self.bits - SIGN_BIT
        } else {
            self.bits
        };
        if magnitude > INFINITY_BITS {
            None
        } else if negative {
            Some(-(magnitude as i64))
        } else {
            Some(magnitude as i64)
        }
    }

    /// Position in an order of all patterns: by rank, and NaN after everything.
    pub fn place_of(self) -> (r: i64)
        ensures
            r == self.place(),
    {
        match self.ranked() {
            Some(rank) => rank,
            None => INFINITY_BITS as i64 + 1,
        }
    }

    /// The IEEE comparison `self < other`; false when either is a NaN.
    pub fn lt(self, other: FloatBits) -> (r: bool)
        ensures
            r == self.below(other),
    {
        match (self.ranked(), other.ranked()) {
            (Some(a), Some(b)) => a < b,
            _ => false,
        }
    }

    /// The IEEE comparison `self == other`; false when either is a NaN, true of
    /// the two zeros.
    pub fn equals(self, other: FloatBits) -> (r: bool)
        ensures
            r == self.same_number(other),
    {
        match (self.ranked(), other.ranked()) {
            (Some(a), Some(b)) => a == b,
            _ => false,
        }
    }
}

/// A number is below at most one side of any pair: the comparison is a strict
/// order, and two numbers that are no NaN are below, above or equal.
pub proof fn comparison_is_trichotomous(a: FloatBits, b: FloatBits)
    ensures
        !(a.below(b) && b.below(a)),
        !(a.below(b) && a.same_number(b)),
        !a.nan() && !b.nan() ==> a.below(b) || b.below(a) || a.same_number(b),
        a.nan() || b.nan() ==> !a.below(b) && !a.same_number(b),
{
}

/// Patterns are compared as the numbers that they stand for: patterns without the
/// sign bit in their own order, those with it in the opposite order and below the
/// former, and both zeros the same. What is left of a NaN without its sign is
/// above infinity, and a NaN is neither below nor equal to anything.
pub proof fn patterns_compare_as_numbers(a: FloatBits, b: FloatBits)
    ensures
        a.nan() <==> a.bits % 0x8000_0000 > 0x7f80_0000,
        !a.nan() && !b.nan() ==> {
            &&& a.bits < 0x8000_0000 && b.bits < 0x8000_0000 ==> {
                &&& a.below(b) <==> a.bits < b.bits
                &&& a.same_number(b) <==> a.bits == b.bits
            }
            &&& a.bits >= 0x8000_0000 && b.bits >= 0x8000_0000 ==> {
                &&& a.below(b) <==> b.bits < a.bits
                &&& a.same_number(b) <==> a.bits == b.bits
            }
            &&& a.bits >= 0x8000_0000 && b.bits < 0x8000_0000 ==> {
                &&& a.below(b) <==> !(a.bits == 0x8000_0000 && b.bits == 0)
                &&& a.same_number(b) <==> a.bits == 0x8000_0000 && b.bits == 0
                &&& !b.below(a)
            }
        },
        a.nan() ==> !a.below(b) && !b.below(a) && !a.same_number(b),
{
}

/// Sorting by place sorts numbers by their size, equal numbers together, and every
/// NaN behind them.
pub proof fn places_sort_numbers(a: FloatBits, b: FloatBits)
    ensures
        !a.nan() && !b.nan() ==> (a.place() < b.place() <==> a.below(b)),
        !a.nan() && !b.nan() ==> (a.place() == b.place() <==> a.same_number(b)),
        !a.nan() && b.nan() ==> a.place() < b.place(),
        a.nan() && b.nan() ==> a.place() == b.place(),
{
}

} // verus!
