//! Double-precision numbers, held by their bit pattern.
//!
//! Measured and computed quantities are IEEE 754 binary64 numbers. The
//! arithmetic on them happens outside of the library, which carries the
//! numbers, compares them and decides by the comparison. A comparison needs
//! no more than the bit pattern, and so does dropping what follows the point.

use vstd::arithmetic::power2::{lemma2_to64, lemma_pow2_strictly_increases, pow2};
use vstd::prelude::*;

verus! {

/// The sign bit.
pub const SIGN: u64 = 0x8000_0000_0000_0000;

/// The magnitude of the infinities. What lies above it is not a number.
pub const INFINITY: u64 = 0x7ff0_0000_0000_0000;

/// The unit of the exponent field: what lies below it is the fraction.
pub const FRACTION: u64 = 0x10_0000_0000_0000;

/// The bits of 0.
pub const ZERO_BITS: u64 = 0;

/// An IEEE 754 binary64 number by its bit pattern. `==` compares the patterns;
/// the methods compare as numbers.
#[derive(Clone, Copy, Debug, PartialEq, Eq, Structural)]
pub struct Double {
    pub bits: u64,
}

impl Double {
    /// The pattern without its sign.
    pub open spec fn magnitude(self) -> int {
        if self.bits >= SIGN {
            self.bits - SIGN
        } else {
            self.bits as int
        }
    }

    /// Not a number.
    pub open spec fn nan(self) -> bool {
        self.magnitude() > INFINITY
    }

    /// The place of a number in the order of the numbers: the two zeros share
    /// theirs.
    pub open spec fn rank(self) -> int {
        if self.bits >= SIGN {
            -self.magnitude()
        } else {
            self.magnitude()
        }
    }

    /// `self < other`, as numbers.
    pub open spec fn below(self, other: Double) -> bool {
        !self.nan() && !other.nan() && self.rank() < other.rank()
    }

    /// `self <= other`, as numbers.
    pub open spec fn at_most(self, other: Double) -> bool {
        !self.nan() && !other.nan() && self.rank() <= other.rank()
    }

    /// `self > 0`.
    pub open spec fn positive(self) -> bool {
        !self.nan() && self.rank() > 0
    }

    fn magnitude_bits(&self) -> (r: u64)
        ensures
            r == self.magnitude(),
    {
        if self.bits >= SIGN {
            self.bits - SIGN
        } else {
            self.bits
        }
    }

    /// Is this not a number?
    pub fn is_nan(&self) -> (r: bool)
        ensures
            r == self.nan(),
    {
        self.magnitude_bits() > INFINITY
    }

    /// Is this number less than the other one? Nothing is, nor is anything less
    /// than, what is not a number.
    pub fn lt(&self, other: &Double) -> (r: bool)
        ensures
            r == self.below(*other),
    {
        if self.is_nan() || other.is_nan() {
            return false;
        }
        let a: u64 = self.magnitude_bits();
        let b: u64 = other.magnitude_bits();
        if self.bits < SIGN {
            other.bits < SIGN && a < b
        } else if other.bits < SIGN {
            a != 0 || b != 0
        } else {
            b < a
        }
    }

    /// Is this number no more than the other one?
    pub fn le(&self, other: &Double) -> (r: bool)
        ensures
            r == self.at_most(*other),
    {
        !self.is_nan() && !other.is_nan() && !other.lt(self)
    }

    /// Is this number greater than zero?
    pub fn is_positive(&self) -> (r: bool)
        ensures
            r == self.positive(),
    {
        self.bits < SIGN && self.bits != 0 && !self.is_nan()
    }

    /// The same number without its sign.
    pub open spec fn absolute(self) -> Double {
        Double { bits: self.magnitude() as u64 }
    }

    /// Drops the sign.
    pub fn abs(&self) -> (r: Double)
        ensures
            r == self.absolute(),
    {
        Double { bits: self.magnitude_bits() }
    }

    /// The exponent field.
    pub open spec fn exponent(self) -> int {
        self.magnitude() / (FRACTION as int)
    }

    /// The significand of a number of ordinary size: its value is this times
    /// two to the power of `exponent - 1075`.
    pub open spec fn significand(self) -> int {
        FRACTION + self.magnitude() % (FRACTION as int)
    }

    /// The number without what follows its point, cut to what a `u64` holds. What
    /// is not a number counts as zero.
    pub open spec fn truncated(self) -> u64 {
        if self.nan() || self.bits >= SIGN || self.exponent() < 1023 {
            0
        } else if self.exponent() < 1075 {
            (self.significand() / (pow2((1075 - self.exponent()) as nat) as int)) as u64
        } else if self.exponent() < 1087 {
            (self.significand() * pow2((self.exponent() - 1075) as nat)) as u64
        } else {
            u64::MAX
        }
    }

    /// Drops what follows the point.
    pub fn to_u64(&self) -> (r: u64)
        ensures
            r == self.truncated(),
    {
        if self.bits >= SIGN || self.is_nan() {
            return 0;
        }
        let e: u64 = self.bits / FRACTION;
        let s: u64 = FRACTION + self.bits % FRACTION;
        if e < 1023 {
            0
        } else if e < 1075 {
            let k: u64 = 1075 - e;
            proof {
                vstd::bits::lemma_u64_shr_is_div(s, k);
            }
            s >> k
        } else if e < 1087 {
            let k: u64 = e - 1075;
            proof {
                if k < 11 {
                    lemma_pow2_strictly_increases(k as nat, 11);
                }
                lemma2_to64();
                assert(s * pow2(k as nat) <= u64::MAX) by (nonlinear_arith)
                    requires
                        s < 0x20_0000_0000_0000,
                        pow2(k as nat) <= 2048,
                ;
                vstd::bits::lemma_u64_shl_is_mul(s, k);
            }
            s << k
        } else {
            u64::MAX
        }
    }
}

/// Any two numbers compare one way: less, greater or alike.
pub proof fn numbers_are_ordered(a: Double, b: Double)
    requires
        !a.nan(),
        !b.nan(),
    ensures
        a.below(b) || b.below(a) || (a.at_most(b) && b.at_most(a)),
        a.at_most(b) <==> !b.below(a),
{
}

/// What is not a number compares with nothing.
pub proof fn nan_compares_with_nothing(a: Double, b: Double)
    requires
        a.nan() || b.nan(),
    ensures
        !a.below(b),
        !b.below(a),
        !a.at_most(b),
        !b.at_most(a),
{
}

} // verus!
