//! Single-precision numbers, carried by their bit patterns.
//!
//! Coordinates, lengths and split ratios are IEEE 754 binary32 numbers. The
//! layout only ever compares and clamps them, and both can be read off the
//! encoding: magnitudes are ordered as their bit patterns are.

use vstd::prelude::*;

verus! {

/// A binary32 number, given by its encoding.
#[derive(Clone, Copy, PartialEq, Eq, Structural, Debug)]
pub struct Scalar {
    pub bits: u32,
}

/// The bit that marks a negative number.
pub const SIGN: u32 = 0x8000_0000;

/// The encoding of positive infinity; every larger magnitude is not a number.
pub const INFINITY: u32 = 0x7F80_0000;

impl Scalar {
    /// The encoding without its sign.
    pub open spec fn magnitude(self) -> int {
        if self.bits >= SIGN {
            self.bits - SIGN
        } else {
            self.bits as int
        }
    }

    /// Whether this encodes a number at all (infinities included).
    pub open spec fn is_number(self) -> bool {
        self.magnitude() <= INFINITY
    }

    /// Where a number stands among the others: two numbers compare as their
    /// ranks do, and the two zeros share one rank.
    pub open spec fn rank(self) -> int {
        if self.bits >= SIGN {
            -self.magnitude()
        } else {
            self.magnitude()
        }
    }

    /// The comparison `self < other`, which never holds of what is not a number.
    pub open spec fn below(self, other: Scalar) -> bool {
        self.is_number() && other.is_number() && self.rank() < other.rank()
    }

    /// `self` kept within `low` and `high`; what is not a number stays as it is.
    pub open spec fn clamped(self, low: Scalar, high: Scalar) -> Scalar {
        if self.below(low) {
            low
        } else if high.below(self) {
            high
        } else {
            self
        }
    }

    /// Whether this encodes a number, exactly when it is not a NaN.
    pub fn number(self) -> (r: bool)
        ensures
            r == self.is_number(),
    {
        let magnitude: u32 = if self.bits >= SIGN {
            self.bits - SIGN
        } else {
            self.bits
        };
        magnitude <= INFINITY
    }

    /// The comparison `self < other`.
    pub fn lt(self, other: Scalar) -> (r: bool)
        ensures
            r == self.below(other),
    {
        if !self.number() || !other.number() {
            false
        } else if self.bits >= SIGN {
            if other.bits >= SIGN {
                other.bits < self.bits
            } else {
                self.bits > SIGN || other.bits > 0
            }
        } else if other.bits >= SIGN {
            false
        } else {
            self.bits < other.bits
        }
    }

    /// Keeps a number within two limits.
    pub fn clamp(self, low: Scalar, high: Scalar) -> (r: Scalar)
        ensures
            r == self.clamped(low, high),
    {
        if self.lt(low) {
            low
        } else if high.lt(self) {
            high
        } else {
            self
        }
    }
}

} // verus!
