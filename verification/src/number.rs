//! Real numbers as they cross the border of the library: IEEE 754 double
//! precision bit patterns, which are compared here and computed elsewhere.
use vstd::prelude::*;

verus! {

/// A double precision number by its bit pattern.
#[derive(Clone, Copy, Debug, PartialEq, Eq, Structural)]
pub struct Real {
    pub bits: u64,
}

/// The pattern of the largest finite number.
pub const LARGEST: u64 = 0x7fef_ffff_ffff_ffff;

/// The pattern of the smallest finite number.
pub const SMALLEST: u64 = 0xffef_ffff_ffff_ffff;

impl Real {
    /// The pattern without its sign.
    pub open spec fn magnitude(self) -> int {
        self.bits as int % 0x8000_0000_0000_0000
    }

    /// Not a number at all: an exponent of ones and a fraction that is not zero.
    pub open spec fn nan(self) -> bool {
        self.magnitude() > 0x7ff0_0000_0000_0000
    }

    /// A number in the order of its value. Both zeros have the same place.
    pub open spec fn place(self) -> int {
        if self.bits < 0x8000_0000_0000_0000 {
            self.magnitude()
        } else {
            -self.magnitude()
        }
    }

    /// Less, as floating-point numbers compare: never so where one is no number.
    pub open spec fn below(self, other: Real) -> bool {
        !self.nan() && !other.nan() && self.place() < other.place()
    }

    /// Less or equal, as floating-point numbers compare.
    pub open spec fn at_most(self, other: Real) -> bool {
        !self.nan() && !other.nan() && self.place() <= other.place()
    }

    /// Equal, as floating-point numbers compare.
    pub open spec fn level_with(self, other: Real) -> bool {
        !self.nan() && !other.nan() && self.place() == other.place()
    }

    /// The lesser of two numbers, or the one that is a number.
    pub open spec fn lesser(self, other: Real) -> Real {
        if self.nan() || other.below(self) {
            other
        } else {
            self
        }
    }

    /// The greater of two numbers, or the one that is a number.
    pub open spec fn greater(self, other: Real) -> Real {
        if self.nan() || self.below(other) {
            other
        } else {
            self
        }
    }

    fn rank(self) -> (p: i64)
        ensures
            p == self.place(),
    {
        if self.bits < 0x8000_0000_0000_0000 {
            self.bits as i64
        } else {
            -((self.bits - 0x8000_0000_0000_0000) as i64)
        }
    }

    /// Whether this is no number.
    pub fn is_nan(self) -> (b: bool)
        ensures
            b == self.nan(),
    {
        self.bits % 0x8000_0000_0000_0000 > 0x7ff0_0000_0000_0000
    }

    /// `self < other`.
    pub fn lt(self, other: Real) -> (b: bool)
        ensures
            b == self.below(other),
    {
        !self.is_nan() && !other.is_nan() && self.rank() < other.rank()
    }

    /// `self <= other`.
    pub fn le(self, other: Real) -> (b: bool)
        ensures
            b == self.at_most(other),
    {
        !self.is_nan() && !other.is_nan() && self.rank() <= other.rank()
    }

    /// `self == other`, by value.
    pub fn same(self, other: Real) -> (b: bool)
        ensures
            b == self.level_with(other),
    {
        !self.is_nan() && !other.is_nan() && self.rank() == other.rank()
    }

    /// The lesser of two numbers, or the one that is a number.
    pub fn min(self, other: Real) -> (m: Real)
        ensures
            m == self.lesser(other),
    {
        if self.is_nan() || other.lt(self) {
            other
        } else {
            self
        }
    }

    /// The greater of two numbers, or the one that is a number.
    pub fn max(self, other: Real) -> (m: Real)
        ensures
            m == self.greater(other),
    {
        if self.is_nan() || self.lt(other) {
            other
        } else {
            self
        }
    }
}

/// A single precision number by its bit pattern.
#[derive(Clone, Copy, Debug, PartialEq, Eq, Structural)]
pub struct Single {
    pub bits: u32,
}

impl Single {
    /// The pattern without its sign.
    pub open spec fn magnitude(self) -> int {
        self.bits as int % 0x8000_0000
    }

    /// Not a number at all: an exponent of ones and a fraction that is not zero.
    pub open spec fn nan(self) -> bool {
        self.magnitude() > 0x7f80_0000
    }

    /// Neither infinite nor no number: an exponent that is not all ones.
    pub open spec fn finite(self) -> bool {
        self.magnitude() < 0x7f80_0000
    }

    /// A number in the order of its value. Both zeros have the same place.
    pub open spec fn place(self) -> int {
        if self.bits < 0x8000_0000 {
            self.magnitude()
        } else {
            -self.magnitude()
        }
    }

    /// Less, as floating-point numbers compare: never so where one is no number.
    pub open spec fn below(self, other: Single) -> bool {
        !self.nan() && !other.nan() && self.place() < other.place()
    }

    /// Less or equal, as floating-point numbers compare.
    pub open spec fn at_most(self, other: Single) -> bool {
        !self.nan() && !other.nan() && self.place() <= other.place()
    }

    /// The lesser of two numbers, or the one that is a number.
    pub open spec fn lesser(self, other: Single) -> Single {
        if self.nan() || other.below(self) {
            other
        } else {
            self
        }
    }

    /// The greater of two numbers, or the one that is a number.
    pub open spec fn greater(self, other: Single) -> Single {
        if self.nan() || self.below(other) {
            other
        } else {
            self
        }
    }

    fn rank(self) -> (p: i64)
        ensures
            p == self.place(),
    {
        if self.bits < 0x8000_0000 {
            self.bits as i64
        } else {
            -((self.bits - 0x8000_0000) as i64)
        }
    }

    /// Whether this is no number.
    pub fn is_nan(self) -> (b: bool)
        ensures
            b == self.nan(),
    {
        self.bits % 0x8000_0000 > 0x7f80_0000
    }

    /// Whether this is a number and not infinite.
    pub fn is_finite(self) -> (b: bool)
        ensures
            b == self.finite(),
    {
        self.bits % 0x8000_0000 < 0x7f80_0000
    }

    /// `self < other`.
    pub fn lt(self, other: Single) -> (b: bool)
        ensures
            b == self.below(other),
    {
        !self.is_nan() && !other.is_nan() && self.rank() < other.rank()
    }

    /// `self <= other`.
    pub fn le(self, other: Single) -> (b: bool)
        ensures
            b == self.at_most(other),
    {
        !self.is_nan() && !other.is_nan() && self.rank() <= other.rank()
    }

    /// The lesser of two numbers, or the one that is a number.
    pub fn min(self, other: Single) -> (m: Single)
        ensures
            m == self.lesser(other),
    {
        if self.is_nan() || other.lt(self) {
            other
        } else {
            self
        }
    }

    /// The greater of two numbers, or the one that is a number.
    pub fn max(self, other: Single) -> (m: Single)
        ensures
            m == self.greater(other),
    {
        if self.is_nan() || self.lt(other) {
            other
        } else {
            self
        }
    }
}

/// Numbers of double precision are ordered as their values are: by their patterns where both
/// are positive, the other way round where both are negative, and negative ones
/// below positive ones. Zeros of either sign are level, and what is no number is
/// not ordered.
pub proof fn law_reals_are_ordered(a: Real, b: Real, c: Real)
    ensures
        ({
            let a_is = a.bits % 0x8000_0000_0000_0000 <= 0x7ff0_0000_0000_0000;
            let b_is = b.bits % 0x8000_0000_0000_0000 <= 0x7ff0_0000_0000_0000;
            let zeros = a.bits % 0x8000_0000_0000_0000 == 0 && b.bits % 0x8000_0000_0000_0000 == 0;
            &&& a.below(b) <==> a_is && b_is && !zeros && if a.bits < 0x8000_0000_0000_0000 {
                b.bits < 0x8000_0000_0000_0000 && a.bits < b.bits
            } else {
                b.bits < 0x8000_0000_0000_0000 || b.bits < a.bits
            }
            &&& a.at_most(b) <==> a_is && b_is && !b.below(a)
        }),
        a.below(b) && b.below(c) ==> a.below(c),
        a.at_most(b) && b.at_most(c) ==> a.at_most(c),
        a.below(b) ==> !b.at_most(a),
        a.level_with(b) <==> a.at_most(b) && b.at_most(a),
        a.level_with(b) ==> b.level_with(a),
{
}

/// The lesser and the greater of two numbers are each one of them, and the other
/// is no less and no more. What is no number gives way to a number.
pub proof fn law_lesser_and_greater_reals(a: Real, b: Real)
    ensures
        a.lesser(b) == a || a.lesser(b) == b,
        a.greater(b) == a || a.greater(b) == b,
        !a.nan() && !b.nan() ==> a.lesser(b).at_most(a) && a.lesser(b).at_most(b) && a.at_most(
            a.greater(b),
        ) && b.at_most(a.greater(b)),
        a.nan() ==> a.lesser(b) == b && a.greater(b) == b,
        b.nan() && !a.nan() ==> a.lesser(b) == a && a.greater(b) == a,
{
}

/// Numbers of single precision are ordered as their values are: by their patterns where both
/// are positive, the other way round where both are negative, and negative ones
/// below positive ones. Zeros of either sign are level, and what is no number is
/// not ordered.
pub proof fn law_singles_are_ordered(a: Single, b: Single, c: Single)
    ensures
        ({
            let a_is = a.bits % 0x8000_0000 <= 0x7f80_0000;
            let b_is = b.bits % 0x8000_0000 <= 0x7f80_0000;
            let zeros = a.bits % 0x8000_0000 == 0 && b.bits % 0x8000_0000 == 0;
            &&& a.below(b) <==> a_is && b_is && !zeros && if a.bits < 0x8000_0000 {
                b.bits < 0x8000_0000 && a.bits < b.bits
            } else {
                b.bits < 0x8000_0000 || b.bits < a.bits
            }
            &&& a.at_most(b) <==> a_is && b_is && !b.below(a)
        }),
        a.below(b) && b.below(c) ==> a.below(c),
        a.at_most(b) && b.at_most(c) ==> a.at_most(c),
        a.below(b) ==> !b.at_most(a),
{
}

/// The lesser and the greater of two numbers are each one of them, and the other
/// is no less and no more. What is no number gives way to a number.
pub proof fn law_lesser_and_greater_singles(a: Single, b: Single)
    ensures
        a.lesser(b) == a || a.lesser(b) == b,
        a.greater(b) == a || a.greater(b) == b,
        !a.nan() && !b.nan() ==> a.lesser(b).at_most(a) && a.lesser(b).at_most(b) && a.at_most(
            a.greater(b),
        ) && b.at_most(a.greater(b)),
        a.nan() ==> a.lesser(b) == b && a.greater(b) == b,
        b.nan() && !a.nan() ==> a.lesser(b) == a && a.greater(b) == a,
{
}

} // verus!
