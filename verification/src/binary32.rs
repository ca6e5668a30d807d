//! A model of IEEE 754 binary32 bit patterns.
//!
//! A pattern is a `u32`: the top bit is the sign, the next eight bits are the
//! biased exponent and the low twenty-three bits are the fraction.
use vstd::arithmetic::power2::{lemma2_to64, lemma_pow2_adds, lemma_pow2_pos, pow2};
use vstd::prelude::*;

verus! {

/// The pattern whose only set bit is the sign bit: negative zero.
pub const SIGN_BIT: u32 = 0x8000_0000;

/// The pattern of positive infinity. Every larger magnitude is a NaN.
pub const INFINITY: u32 = 0x7f80_0000;

/// The weight of the lowest exponent bit: two to the twenty-third.
pub const HIDDEN_BIT: u32 = 0x0080_0000;

/// The pattern of positive zero.
pub const ZERO: u32 = 0;

/// The pattern of the number one.
pub const ONE: u32 = 0x3f80_0000;

/// The pattern of the number minus one.
pub const NEG_ONE: u32 = 0xbf80_0000;

/// Whether the sign bit of the pattern is set.
pub open spec fn is_negative(bits: u32) -> bool {
    bits >= SIGN_BIT
}

/// The pattern with its sign bit cleared.
pub open spec fn magnitude(bits: u32) -> u32 {
    if bits >= SIGN_BIT {
        (bits - SIGN_BIT) as u32
    } else {
        bits
    }
}

/// Whether the pattern is a NaN: all exponent bits set and a fraction bit set.
pub open spec fn is_nan(bits: u32) -> bool {
    magnitude(bits) > INFINITY
}

/// Whether the pattern is positive or negative infinity.
pub open spec fn is_infinite(bits: u32) -> bool {
    magnitude(bits) == INFINITY
}

/// Whether the pattern stands for a number: a zero, a subnormal or a normal.
pub open spec fn is_finite(bits: u32) -> bool {
    magnitude(bits) < INFINITY
}

/// Whether the pattern is positive or negative zero.
pub open spec fn is_zero(bits: u32) -> bool {
    magnitude(bits) == 0
}

/// The biased exponent field of the pattern.
pub open spec fn biased_exponent(bits: u32) -> nat {
    (magnitude(bits) / HIDDEN_BIT) as nat
}

/// The fraction field of the pattern.
pub open spec fn fraction(bits: u32) -> nat {
    (magnitude(bits) % HIDDEN_BIT) as nat
}

/// The absolute value of the number that a finite pattern stands for, in
/// units of two to the minus 149, the smallest positive subnormal.
pub open spec fn scaled_magnitude(bits: u32) -> nat
    recommends
        is_finite(bits),
{
    if biased_exponent(bits) == 0 {
        fraction(bits)
    } else {
        (HIDDEN_BIT + fraction(bits)) as nat * pow2((biased_exponent(bits) - 1) as nat)
    }
}

/// The number that a finite pattern stands for, in units of two to the minus
/// 149. Every finite binary32 number is a whole multiple of that unit.
pub open spec fn scaled_value(bits: u32) -> int
    recommends
        is_finite(bits),
{
    if is_negative(bits) {
        -(scaled_magnitude(bits) as int)
    } else {
        scaled_magnitude(bits) as int
    }
}

/// The scaled value of the number one: two to the 149th.
pub open spec fn unit() -> nat {
    pow2(149)
}

/// A magnitude splits into its exponent and fraction fields.
pub proof fn lemma_fields(bits: u32)
    ensures
        magnitude(bits) == biased_exponent(bits) * HIDDEN_BIT + fraction(bits),
        biased_exponent(bits) <= 255,
        fraction(bits) < HIDDEN_BIT,
        is_finite(bits) <==> biased_exponent(bits) < 255,
        is_negative(bits) ==> bits == magnitude(bits) + SIGN_BIT,
        !is_negative(bits) ==> bits == magnitude(bits),
{
}

/// The scaled magnitude of a pattern lies between the powers of two that its
/// exponent field names.
pub proof fn lemma_scaled_magnitude_bounds(bits: u32)
    ensures
        scaled_magnitude(bits) < pow2(biased_exponent(bits) + 23),
        biased_exponent(bits) >= 1 ==> scaled_magnitude(bits) >= pow2(biased_exponent(bits) + 22),
        is_zero(bits) <==> scaled_magnitude(bits) == 0,
{
    let e = biased_exponent(bits);
    let f = fraction(bits);
    lemma2_to64();
    if e >= 1 {
        let p = pow2((e - 1) as nat);
        lemma_pow2_pos((e - 1) as nat);
        lemma_pow2_adds(23, (e - 1) as nat);
        lemma_pow2_adds(24, (e - 1) as nat);
        assert(pow2(e + 22) == 0x80_0000 * p);
        assert(pow2(e + 23) == 0x100_0000 * p);
        assert((0x80_0000 + f) * p >= 0x80_0000 * p) by (nonlinear_arith)
            requires
                f >= 0,
                p > 0,
        ;
        assert((0x80_0000 + f) * p < 0x100_0000 * p) by (nonlinear_arith)
            requires
                f < 0x80_0000,
                p > 0,
        ;
    }
}

/// A larger magnitude stands for a larger absolute value.
pub proof fn lemma_scaled_magnitude_increases(a: u32, b: u32)
    requires
        magnitude(a) < magnitude(b),
    ensures
        scaled_magnitude(a) < scaled_magnitude(b),
{
    let ea = biased_exponent(a);
    let eb = biased_exponent(b);
    let fa = fraction(a);
    let fb = fraction(b);
    lemma_fields(a);
    lemma_fields(b);
    lemma_scaled_magnitude_bounds(a);
    lemma_scaled_magnitude_bounds(b);
    if ea == eb {
        if ea >= 1 {
            let p = pow2((ea - 1) as nat);
            lemma_pow2_pos((ea - 1) as nat);
            assert((0x80_0000 + fa) * p < (0x80_0000 + fb) * p) by (nonlinear_arith)
                requires
                    fa < fb,
                    p > 0,
            ;
        }
    } else {
        assert(ea < eb);
        if ea + 23 < eb + 22 {
            vstd::arithmetic::power2::lemma_pow2_strictly_increases(ea + 23, eb + 22);
        }
    }
}

/// Two patterns with the same sign bit that stand for the same number are
/// the same pattern.
pub proof fn lemma_value_determines_pattern(a: u32, b: u32)
    requires
        is_negative(a) == is_negative(b),
        scaled_value(a) == scaled_value(b),
    ensures
        a == b,
{
    if magnitude(a) < magnitude(b) {
        lemma_scaled_magnitude_increases(a, b);
    }
    if magnitude(b) < magnitude(a) {
        lemma_scaled_magnitude_increases(b, a);
    }
}

/// The named patterns stand for zero, one and minus one.
pub proof fn lemma_named_values()
    ensures
        is_finite(ZERO) && scaled_value(ZERO) == 0,
        is_finite(SIGN_BIT) && scaled_value(SIGN_BIT) == 0,
        is_finite(ONE) && scaled_value(ONE) == unit(),
        is_finite(NEG_ONE) && scaled_value(NEG_ONE) == -(unit() as int),
        is_infinite(INFINITY),
{
    lemma2_to64();
    lemma_pow2_adds(23, 126);
    assert(biased_exponent(ONE) == 127);
    assert(fraction(ONE) == 0);
    assert(biased_exponent(NEG_ONE) == 127);
    assert(fraction(NEG_ONE) == 0);
}

} // verus!
