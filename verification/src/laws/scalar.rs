//! Laws of numbers by their encodings.

use crate::laws::exact::law_values_compare;
use crate::scalar::Scalar;
use vstd::prelude::*;

verus! {

/// An encoding is a number exactly if its exponent is not the largest one, or its
/// fraction is zero.
pub proof fn law_numbers(s: Scalar)
    ensures
        s.is_number() <==> s.bits <= 0x7F80_0000 || 0x8000_0000 <= s.bits <= 0xFF80_0000,
        s.bits < 0x8000_0000 ==> s.rank() == s.bits,
        s.bits >= 0x8000_0000 ==> s.rank() == 0x8000_0000 - s.bits,
{
}

/// What is not a number is neither less nor greater than anything. Of two numbers,
/// one is less than the other exactly if what it stands for is.
pub proof fn law_less(a: Scalar, b: Scalar)
    ensures
        a.below(b) ==> a.is_number() && b.is_number() && a.value() < b.value(),
        a.is_number() && b.is_number() && a.value() < b.value() ==> a.below(b),
        a.below(b) ==> !b.below(a),
{
    if a.is_number() && b.is_number() {
        law_values_compare(a, b);
    }
}

/// A number that is clamped ends up within the limits: at the one that it passes, or
/// where it was if it passes none. What is not a number stays as it is.
pub proof fn law_clamp(s: Scalar, low: Scalar, high: Scalar)
    requires
        low.is_number(),
        high.is_number(),
        low.rank() <= high.rank(),
    ensures
        !s.is_number() ==> s.clamped(low, high) == s,
        s.is_number() ==> low.rank() <= s.clamped(low, high).rank() <= high.rank(),
        s.is_number() && s.rank() < low.rank() ==> s.clamped(low, high) == low,
        s.is_number() && s.rank() > high.rank() ==> s.clamped(low, high) == high,
        s.is_number() && low.rank() <= s.rank() <= high.rank() ==> s.clamped(low, high) == s,
{
}

} // verus!
