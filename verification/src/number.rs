//! Double-precision numbers, held by their bit pattern and compared by it.
//!
//! The arithmetic on such numbers belongs to their users; what is needed here is
//! their order, which the bit pattern gives as sign and magnitude.
use vstd::prelude::*;

verus! {

/// First bit pattern with the sign bit set.
pub const SIGN_BIT: u64 = 0x8000_0000_0000_0000;

/// Magnitude of the infinities; every larger magnitude is not a number.
pub const INFINITE: u64 = 0x7FF0_0000_0000_0000;

/// An IEEE 754 double by its bit pattern.
#[derive(Debug, Clone, Copy, PartialEq, Eq, Structural)]
pub struct Real {
    pub bits: u64,
}

impl Real {
    /// The bit pattern without its sign.
    pub open spec fn magnitude(self) -> int {
        if self.bits >= SIGN_BIT {
            self.bits - SIGN_BIT
        } else {
            self.bits as int
        }
    }

    /// Not a number.
    pub open spec fn nan(self) -> bool {
        self.magnitude() > INFINITE
    }

    /// Position in the order of the numbers; both zeros are at 0.
    pub open spec fn rank(self) -> int {
        if self.bits >= SIGN_BIT {
            -self.magnitude()
        } else {
            self.magnitude()
        }
    }

    /// `self < other`; false where either is not a number.
    pub open spec fn below(self, other: Real) -> bool {
        !self.nan() && !other.nan() && self.rank() < other.rank()
    }

    /// `self <= other`; false where either is not a number.
    pub open spec fn at_most(self, other: Real) -> bool {
        !self.nan() && !other.nan() && self.rank() <= other.rank()
    }

    /// The larger of two numbers, or the one that is a number.
    pub open spec fn larger(self, other: Real) -> Real {
        if self.nan() || self.below(other) {
            other
        } else {
            self
        }
    }

    /// The smaller of two numbers, or the one that is a number.
    pub open spec fn smaller(self, other: Real) -> Real {
        if self.nan() || other.below(self) {
            other
        } else {
            self
        }
    }

    /// The number with this bit pattern.
    pub fn from_bits(bits: u64) -> (r: Self)
        ensures
            r.bits == bits,
    {
        Real { bits }
    }

    /// The bit pattern.
    pub fn to_bits(&self) -> (bits: u64)
        ensures
            bits == self.bits,
    {
        self.bits
    }

    /// Not a number.
    pub fn is_nan(&self) -> (r: bool)
        ensures
            r == self.nan(),
    {
        let m: u64 = if self.bits >= SIGN_BIT {
            self.bits - SIGN_BIT
        } else {
            self.bits
        };
        m > INFINITE
    }

    /// Position in the order of the numbers.
    pub fn order(&self) -> (k: i64)
        ensures
            k == self.rank(),
    {
        if self.bits >= SIGN_BIT {
            -((self.bits - SIGN_BIT) as i64)
        } else {
            self.bits as i64
        }
    }

    /// `self < other`; false where either is not a number.
    pub fn lt(&self, other: &Real) -> (r: bool)
        ensures
            r == self.below(*other),
    {
        !self.is_nan() && !other.is_nan() && self.order() < other.order()
    }

    /// `self <= other`; false where either is not a number.
    pub fn le(&self, other: &Real) -> (r: bool)
        ensures
            r == self.at_most(*other),
    {
        !self.is_nan() && !other.is_nan() && self.order() <= other.order()
    }

    /// The larger of two numbers, or the one that is a number.
    pub fn max(&self, other: &Real) -> (r: Real)
        ensures
            r == self.larger(*other),
    {
        if self.is_nan() || self.lt(other) {
            *other
        } else {
            *self
        }
    }

    /// The smaller of two numbers, or the one that is a number.
    pub fn min(&self, other: &Real) -> (r: Real)
        ensures
            r == self.smaller(*other),
    {
        if self.is_nan() || other.lt(self) {
            *other
        } else {
            *self
        }
    }

    /// The number without its sign.
    pub fn abs(&self) -> (r: Real)
        ensures
            r.bits == self.magnitude(),
            r.bits == self.bits % 0x8000_0000_0000_0000,
    {
        if self.bits >= SIGN_BIT {
            Real { bits: self.bits - SIGN_BIT }
        } else {
            *self
        }
    }
}

/// The order is strict and total on numbers, up to the two zeros.
pub proof fn real_order_total(a: Real, b: Real, c: Real)
    requires
        !a.nan(),
        !b.nan(),
        !c.nan(),
    ensures
        a.below(b) || b.below(a) || a.rank() == b.rank(),
        !(a.below(b) && b.below(a)),
        a.below(b) && b.below(c) ==> a.below(c),
        a.rank() == b.rank() ==> a == b || (a.magnitude() == 0 && b.magnitude() == 0),
{
}

/// What the bit patterns say. A pattern is not a number where, without its sign, it is
/// above that of infinity. Numbers without a sign are ordered as their patterns are, those
/// with one the other way round, and one with a sign is below one without, except that
/// the two zeros are equal.
pub proof fn order_by_bits(a: Real, b: Real)
    ensures
        a.nan() <==> 0x7FF0_0000_0000_0000 < a.bits < 0x8000_0000_0000_0000 || 0xFFF0_0000_0000_0000
            < a.bits,
        a.nan() || b.nan() ==> !a.below(b) && !a.at_most(b),
        !a.nan() && !b.nan() ==> {
            let positive_a = a.bits < 0x8000_0000_0000_0000;
            let positive_b = b.bits < 0x8000_0000_0000_0000;
            let zeros = (a.bits == 0 || a.bits == 0x8000_0000_0000_0000) && (b.bits == 0 || b.bits
                == 0x8000_0000_0000_0000);
            &&& positive_a && positive_b ==> (a.below(b) <==> a.bits < b.bits)
            &&& !positive_a && !positive_b ==> (a.below(b) <==> b.bits < a.bits)
            &&& !positive_a && positive_b ==> (a.below(b) <==> !zeros)
            &&& positive_a && !positive_b ==> !a.below(b)
            &&& a.at_most(b) <==> !b.below(a)
            &&& a.below(b) <==> a.rank() < b.rank()
        },
{
}

/// The larger of two numbers is one of them and not below either, the smaller is one of
/// them and not above either; where one is not a number, both are the other.
pub proof fn larger_and_smaller(a: Real, b: Real)
    ensures
        a.nan() ==> a.larger(b) == b && a.smaller(b) == b,
        b.nan() && !a.nan() ==> a.larger(b) == a && a.smaller(b) == a,
        !a.nan() && !b.nan() ==> {
            &&& a.larger(b) == a || a.larger(b) == b
            &&& a.at_most(a.larger(b))
            &&& b.at_most(a.larger(b))
            &&& a.smaller(b) == a || a.smaller(b) == b
            &&& a.smaller(b).at_most(a)
            &&& a.smaller(b).at_most(b)
        },
        a.bits == b.bits ==> a.larger(b) == a && a.smaller(b) == a,
{
}

} // verus!
