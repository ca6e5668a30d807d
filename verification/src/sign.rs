//! The sign function under the rectangular wave: it turns the raised
//! oscillator into one of three levels.
use crate::binary32::{
    is_finite, is_infinite, is_nan, is_negative, is_zero, lemma_named_values,
    lemma_scaled_magnitude_bounds, scaled_value, unit, INFINITY, NEG_ONE, ONE, SIGN_BIT, ZERO,
};
use vstd::prelude::*;

verus! {

/// The sign of a whole number: minus one, zero or one.
pub open spec fn signum(x: int) -> int {
    if x > 0 {
        1
    } else if x < 0 {
        -1
    } else {
        0
    }
}

/// The sign of a pattern. A NaN is handed on as it is, a zero of either sign
/// gives positive zero, and every other pattern, the infinities included,
/// gives one or minus one by its sign bit.
pub open spec fn sign_of(bits: u32) -> u32 {
    if is_nan(bits) {
        bits
    } else if is_zero(bits) {
        ZERO
    } else if is_negative(bits) {
        NEG_ONE
    } else {
        ONE
    }
}

/// The sign of a pattern stands for the sign of the number that the pattern
/// stands for, and an infinity has the sign of its sign bit.
pub proof fn lemma_sign_of_is_sign(bits: u32)
    requires
        !is_nan(bits),
    ensures
        is_finite(sign_of(bits)),
        is_finite(bits) ==> scaled_value(sign_of(bits)) == signum(scaled_value(bits)) * unit(),
        is_infinite(bits) && !is_negative(bits) ==> scaled_value(sign_of(bits)) == unit(),
        is_infinite(bits) && is_negative(bits) ==> scaled_value(sign_of(bits)) == -(unit() as int),
{
    lemma_named_values();
    lemma_scaled_magnitude_bounds(bits);
}

/// The sign of a sign is that sign.
pub proof fn lemma_sign_is_idempotent(bits: u32)
    ensures
        sign_of(sign_of(bits)) == sign_of(bits),
{
}

/// Returns the sign of the number that `bits` stands for, as the pattern of
/// minus one, of zero or of one. A NaN comes back unchanged.
pub fn sign(bits: u32) -> (level: u32)
    ensures
        level == sign_of(bits),
        is_nan(bits) ==> level == bits,
        !is_nan(bits) ==> level == NEG_ONE || level == ZERO || level == ONE,
        is_finite(bits) ==> scaled_value(level) == signum(scaled_value(bits)) * unit(),
{
    proof {
        if !is_nan(bits) {
            lemma_sign_of_is_sign(bits);
        }
    }
    let magnitude: u32 = if bits >= SIGN_BIT {
        bits - SIGN_BIT
    } else {
        bits
    };
    if magnitude > INFINITY {
        bits
    } else if magnitude == 0 {
        ZERO
    } else if bits >= SIGN_BIT {
        NEG_ONE
    } else {
        ONE
    }
}

} // verus!
