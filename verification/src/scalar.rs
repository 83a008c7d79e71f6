use vstd::prelude::*;

verus! {

/// The bit that holds the sign of a binary64 pattern.
pub const SIGN_BIT: u64 = 0x8000_0000_0000_0000;

/// The magnitude of the infinities: every larger magnitude is not a number.
pub const INFINITY_MAGNITUDE: u64 = 0x7FF0_0000_0000_0000;

/// A real number, held as the bit pattern of its binary64 encoding.
///
/// Only the order of reals is decided here, and it is decided on the bits:
/// a pattern's `key` is its magnitude with its sign. Between two numbers the
/// keys compare as the numbers do, and the two zeros share one key. Patterns
/// that are not numbers lie beyond the infinity of their sign.
#[derive(Clone, Copy, Debug, PartialEq, Eq, Structural)]
pub struct Real {
    pub bits: u64,
}

impl Real {
    /// Whether the sign bit is set.
    pub open spec fn negative(self) -> bool {
        self.bits >= SIGN_BIT
    }

    /// The pattern without its sign bit.
    pub open spec fn magnitude(self) -> int {
        if self.bits >= SIGN_BIT {
            self.bits - SIGN_BIT
        } else {
            self.bits as int
        }
    }

    /// The integer by which reals are ordered.
    pub open spec fn key(self) -> int {
        if self.negative() {
            -self.magnitude()
        } else {
            self.magnitude()
        }
    }

    /// Whether the pattern encodes a number that is not infinite.
    pub open spec fn finite(self) -> bool {
        self.magnitude() < INFINITY_MAGNITUDE
    }

    /// Whether the pattern encodes no number.
    pub open spec fn not_a_number(self) -> bool {
        self.magnitude() > INFINITY_MAGNITUDE
    }

    /// Less than, as numbers compare.
    pub open spec fn less(self, other: Real) -> bool {
        !self.not_a_number() && !other.not_a_number() && self.key() < other.key()
    }

    /// Equal, as numbers compare.
    pub open spec fn equals(self, other: Real) -> bool {
        !self.not_a_number() && !other.not_a_number() && self.key() == other.key()
    }

    /// The pattern with the other sign.
    pub open spec fn negation(self) -> Real {
        if self.bits >= SIGN_BIT {
            Real { bits: (self.bits - SIGN_BIT) as u64 }
        } else {
            Real { bits: (self.bits + SIGN_BIT) as u64 }
        }
    }

    /// The pattern with a clear sign bit.
    pub open spec fn absolute(self) -> Real {
        if self.bits >= SIGN_BIT {
            Real { bits: (self.bits - SIGN_BIT) as u64 }
        } else {
            self
        }
    }

    /// Whether the real lies in the closed interval from zero to one.
    pub open spec fn unit(self) -> bool {
        0 <= self.key() <= Real::one_spec().key()
    }

    pub open spec fn zero_spec() -> Real {
        Real { bits: 0 }
    }

    pub open spec fn one_spec() -> Real {
        Real { bits: 0x3FF0_0000_0000_0000 }
    }

    pub open spec fn two_spec() -> Real {
        Real { bits: 0x4000_0000_0000_0000 }
    }

    pub open spec fn minus_one_spec() -> Real {
        Real { bits: 0xBFF0_0000_0000_0000 }
    }

    pub open spec fn lowest_spec() -> Real {
        Real { bits: 0xFFEF_FFFF_FFFF_FFFF }
    }

    /// The real with the given binary64 pattern.
    pub fn from_bits(bits: u64) -> (r: Real)
        ensures
            r.bits == bits,
    {
        Real { bits }
    }

    /// The binary64 pattern of this real.
    pub fn to_bits(&self) -> (bits: u64)
        ensures
            bits == self.bits,
    {
        self.bits
    }

    /// Zero, with a clear sign bit.
    #[verifier::when_used_as_spec(zero_spec)]
    pub fn zero() -> (r: Real)
        ensures
            r == Real::zero_spec(),
    {
        Real { bits: 0 }
    }

    /// One.
    #[verifier::when_used_as_spec(one_spec)]
    pub fn one() -> (r: Real)
        ensures
            r == Real::one_spec(),
    {
        Real { bits: 0x3FF0_0000_0000_0000 }
    }

    /// Two.
    #[verifier::when_used_as_spec(two_spec)]
    pub fn two() -> (r: Real)
        ensures
            r == Real::two_spec(),
    {
        Real { bits: 0x4000_0000_0000_0000 }
    }

    /// One below zero.
    #[verifier::when_used_as_spec(minus_one_spec)]
    pub fn minus_one() -> (r: Real)
        ensures
            r == Real::minus_one_spec(),
    {
        Real { bits: 0xBFF0_0000_0000_0000 }
    }

    /// The least finite real: the fitness of a value that no evaluated
    /// network has used yet.
    #[verifier::when_used_as_spec(lowest_spec)]
    pub fn lowest() -> (r: Real)
        ensures
            r == Real::lowest_spec(),
    {
        Real { bits: 0xFFEF_FFFF_FFFF_FFFF }
    }

    /// The key of this real, computed.
    pub fn order_key(&self) -> (k: i128)
        ensures
            k == self.key(),
    {
        if self.bits >= SIGN_BIT {
            -((self.bits - SIGN_BIT) as i128)
        } else {
            self.bits as i128
        }
    }

    /// Whether this real ranks before the other: the total order by key, by
    /// which fitnesses are ranked.
    pub fn precedes(&self, other: &Real) -> (r: bool)
        ensures
            r == (self.key() < other.key()),
    {
        self.order_key() < other.order_key()
    }

    /// Whether this real is less than the other, as numbers compare: false
    /// where either is not a number.
    pub fn lt(&self, other: &Real) -> (r: bool)
        ensures
            r == self.less(*other),
    {
        self.is_number() && other.is_number() && self.order_key() < other.order_key()
    }

    /// Whether this real is greater than the other, as numbers compare.
    pub fn gt(&self, other: &Real) -> (r: bool)
        ensures
            r == other.less(*self),
    {
        other.lt(self)
    }

    /// Whether the two reals are equal, as numbers compare: the two zeros
    /// are, and what is not a number equals nothing.
    pub fn same(&self, other: &Real) -> (r: bool)
        ensures
            r == self.equals(*other),
    {
        self.is_number() && other.is_number() && self.order_key() == other.order_key()
    }

    /// Whether the pattern encodes a number.
    pub fn is_number(&self) -> (r: bool)
        ensures
            r == !self.not_a_number(),
    {
        if self.bits >= SIGN_BIT {
            self.bits - SIGN_BIT <= INFINITY_MAGNITUDE
        } else {
            self.bits <= INFINITY_MAGNITUDE
        }
    }

    /// The real with the other sign.
    pub fn negated(&self) -> (r: Real)
        ensures
            r == self.negation(),
            r.magnitude() == self.magnitude(),
            r.negative() != self.negative(),
    {
        if self.bits >= SIGN_BIT {
            Real { bits: self.bits - SIGN_BIT }
        } else {
            Real { bits: self.bits + SIGN_BIT }
        }
    }

    /// Whether this real is a number that is not infinite.
    pub fn is_finite(&self) -> (r: bool)
        ensures
            r == self.finite(),
    {
        if self.bits >= SIGN_BIT {
            self.bits - SIGN_BIT < INFINITY_MAGNITUDE
        } else {
            self.bits < INFINITY_MAGNITUDE
        }
    }

    /// Whether this real lies in the closed interval from zero to one.
    pub fn is_unit(&self) -> (r: bool)
        ensures
            r == self.unit(),
    {
        let k: i128 = self.order_key();
        0 <= k && k <= 0x3FF0_0000_0000_0000
    }

    /// The real without its sign.
    pub fn abs(&self) -> (r: Real)
        ensures
            r == self.absolute(),
            r.key() == self.magnitude(),
            !r.negative(),
    {
        if self.bits >= SIGN_BIT {
            Real { bits: self.bits - SIGN_BIT }
        } else {
            Real { bits: self.bits }
        }
    }
}

} // verus!
