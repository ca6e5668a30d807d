//! The two steps by which the triangle wave folds a ramp: the largest whole
//! number not above a value, and the absolute value.
use crate::binary32::{
    biased_exponent, fraction, is_finite, is_nan, is_negative, is_zero, lemma_fields,
    lemma_named_values, lemma_scaled_magnitude_bounds, lemma_value_determines_pattern, magnitude,
    scaled_magnitude, scaled_value, unit, HIDDEN_BIT, NEG_ONE, SIGN_BIT, ZERO,
};
use vstd::arithmetic::div_mod::{
    lemma_div_pos_is_pos, lemma_fundamental_div_mod, lemma_mod_multiples_basic,
    lemma_mod_multiples_vanish,
};
use vstd::arithmetic::power2::{
    lemma2_to64, lemma_pow2_adds, lemma_pow2_pos, lemma_pow2_strictly_increases,
    lemma_pow2_unfold, pow2,
};
use vstd::bits::lemma_u32_shl_is_mul;
use vstd::prelude::*;

verus! {

/// Returns the absolute value of the number that `bits` stands for: the
/// pattern with its sign bit cleared. A NaN stays a NaN.
pub fn abs(bits: u32) -> (size: u32)
    ensures
        size == magnitude(bits),
        !is_negative(size),
        is_nan(size) == is_nan(bits),
        is_finite(size) == is_finite(bits),
        is_finite(bits) ==> scaled_value(size) == vstd::math::abs(scaled_value(bits)),
{
    if bits >= SIGN_BIT {
        bits - SIGN_BIT
    } else {
        bits
    }
}

/// Whether the pattern stands for a whole number.
pub open spec fn is_whole(bits: u32) -> bool {
    is_finite(bits) && scaled_value(bits) % (unit() as int) == 0
}

/// Whether `whole` is the floor of `bits`: for a finite pattern the largest
/// whole number that is not above it, with the same sign bit, and for an
/// infinity or a NaN the pattern itself.
pub open spec fn is_floor(bits: u32, whole: u32) -> bool {
    if is_finite(bits) {
        &&& is_whole(whole)
        &&& is_negative(whole) == is_negative(bits)
        &&& scaled_value(whole) <= scaled_value(bits) < scaled_value(whole) + unit()
    } else {
        whole == bits
    }
}

/// The distance between the patterns of two neighbouring whole numbers, for a
/// pattern whose exponent field says that it has bits below the binary point.
pub open spec fn step_of(bits: u32) -> int
    recommends
        127 <= biased_exponent(bits) <= 149,
{
    pow2((150 - biased_exponent(bits)) as nat) as int
}

/// The floor of a pattern, computed on its fields. A pattern without bits
/// below the binary point is whole already. One below one in absolute value
/// falls to zero or to minus one. Any other has the bits below the point
/// cleared, and is moved one step up in magnitude if it is negative and any
/// of those bits was set.
pub open spec fn floor_of(bits: u32) -> u32 {
    if biased_exponent(bits) >= 150 {
        bits
    } else if biased_exponent(bits) < 127 {
        if is_zero(bits) {
            bits
        } else if is_negative(bits) {
            NEG_ONE
        } else {
            ZERO
        }
    } else {
        let rest = magnitude(bits) as int % step_of(bits);
        if rest == 0 {
            bits
        } else if is_negative(bits) {
            (bits - rest + step_of(bits)) as u32
        } else {
            (bits - rest) as u32
        }
    }
}

/// A value that is `rest` above the `k`-th multiple of the unit, with `rest`
/// less than the unit, has that multiple as the largest one not above it.
proof fn lemma_between(x: int, whole: int, k: int, rest: int, unit: int)
    requires
        unit > 0,
        0 <= rest < unit,
        x == k * unit + rest,
        whole == k * unit,
    ensures
        whole % unit == 0,
        whole <= x < whole + unit,
{
    lemma_mod_multiples_basic(k, unit);
}

/// Where the exponent field says that a pattern has bits below the binary
/// point: the pattern `down`, with those bits cleared, and the pattern `up`,
/// one step above it, stand for the whole numbers on either side. Returns
/// the scaled magnitude of `down` in units.
proof fn lemma_neighbours(bits: u32, rest: int, down: int, up: int) -> (k: int)
    requires
        127 <= biased_exponent(bits) <= 149,
        rest == magnitude(bits) as int % step_of(bits),
        down == bits - rest,
        up == bits - rest + step_of(bits),
    ensures
        0 <= k,
        0 <= rest < step_of(bits) <= HIDDEN_BIT,
        0 <= down <= bits,
        up <= u32::MAX,
        0 <= rest * pow2((biased_exponent(bits) - 1) as nat) < unit(),
        scaled_magnitude(bits) == k * unit() + rest * pow2((biased_exponent(bits) - 1) as nat),
        rest > 0 ==> rest * pow2((biased_exponent(bits) - 1) as nat) > 0,
        is_finite(down as u32),
        is_negative(down as u32) == is_negative(bits),
        scaled_magnitude(down as u32) == k * unit(),
        is_finite(up as u32),
        is_negative(up as u32) == is_negative(bits),
        scaled_magnitude(up as u32) == (k + 1) * unit(),
{
    let e = biased_exponent(bits) as int;
    let f = fraction(bits) as int;
    let m = magnitude(bits) as int;
    let step = step_of(bits);
    let shift = (150 - e) as nat;
    let p = pow2((e - 1) as nat) as int;
    let cofactor = pow2((23 - shift) as nat) as int;
    let unit = unit() as int;
    lemma_fields(bits);
    lemma2_to64();
    lemma_pow2_pos(shift);
    lemma_pow2_pos((e - 1) as nat);
    lemma_pow2_pos((23 - shift) as nat);
    // The step divides the weight of the lowest exponent bit, and one step of
    // patterns is one unit of value.
    assert(step * cofactor == 0x80_0000) by {
        lemma_pow2_adds(shift, (23 - shift) as nat);
    }
    assert(step * p == unit) by {
        lemma_pow2_adds(shift, (e - 1) as nat);
    }
    assert(step <= 0x80_0000) by (nonlinear_arith)
        requires
            step * cofactor == 0x80_0000,
            cofactor > 0,
            step > 0,
    ;
    // The bits below the point lie in the fraction field.
    assert(rest == f % step) by {
        assert(m == step * (e * cofactor) + f) by (nonlinear_arith)
            requires
                m == e * 0x80_0000 + f,
                step * cofactor == 0x80_0000,
        ;
        lemma_mod_multiples_vanish(e * cofactor, f, step);
    }
    assert(f == (f / step) * step + rest) by {
        lemma_fundamental_div_mod(f, step);
        assert(step * (f / step) == (f / step) * step) by (nonlinear_arith);
    }
    assert(0 <= f / step) by {
        lemma_div_pos_is_pos(f, step);
    }
    let g = 0x80_0000 + f - rest;
    let whole = cofactor + f / step;
    assert(g == whole * step) by (nonlinear_arith)
        requires
            g == 0x80_0000 + f - rest,
            step * cofactor == 0x80_0000,
            f == (f / step) * step + rest,
            whole == cofactor + f / step,
    ;
    assert(g * p == whole * unit) by (nonlinear_arith)
        requires
            g == whole * step,
            step * p == unit,
    ;
    assert((g + rest) * p == whole * unit + rest * p) by (nonlinear_arith)
        requires
            g * p == whole * unit,
    ;
    assert((g + step) * p == (whole + 1) * unit) by (nonlinear_arith)
        requires
            g * p == whole * unit,
            step * p == unit,
    ;
    assert(0 <= rest * p < unit) by (nonlinear_arith)
        requires
            0 <= rest < step,
            step * p == unit,
            p > 0,
    ;
    assert(rest > 0 ==> rest * p > 0) by (nonlinear_arith)
        requires
            p > 0,
            rest >= 0,
    ;
    // The fraction of `down` is a whole number of steps below the weight of
    // the lowest exponent bit, so that one step more carries at most into it.
    assert(f - rest + step <= 0x80_0000) by (nonlinear_arith)
        requires
            f - rest == (f / step) * step,
            step * cofactor == 0x80_0000,
            f - rest < 0x80_0000,
            step > 0,
    ;
    let down = down as u32;
    let up = up as u32;
    lemma_fields(down);
    lemma_fields(up);
    assert(magnitude(down) == m - rest);
    assert(biased_exponent(down) == e && fraction(down) == f - rest);
    assert(magnitude(up) == m - rest + step);
    if f - rest + step == 0x80_0000 {
        assert(biased_exponent(up) == e + 1 && fraction(up) == 0);
        assert(pow2(e as nat) == 2 * p) by {
            lemma_pow2_unfold(e as nat);
        }
        assert(0x80_0000 * (2 * p) == (g + step) * p) by (nonlinear_arith)
            requires
                g + step == 0x100_0000,
        ;
    } else {
        assert(biased_exponent(up) == e && fraction(up) == f - rest + step);
    }
    whole
}

/// The floor computed on the fields is the floor: the largest whole number
/// that is not above the value.
pub proof fn lemma_floor_of_is_floor(bits: u32)
    ensures
        is_floor(bits, floor_of(bits)),
{
    if is_finite(bits) {
        let e = biased_exponent(bits) as int;
        let unit = unit() as int;
        let size = scaled_magnitude(bits) as int;
        lemma_fields(bits);
        lemma_named_values();
        lemma_scaled_magnitude_bounds(bits);
        lemma_pow2_pos(149);
        if e >= 150 {
            // The lowest bit of the pattern weighs a whole number of units.
            let significand = (HIDDEN_BIT + fraction(bits)) as int;
            let weight = pow2((e - 150) as nat) as int;
            let k = significand * weight;
            assert(size == k * unit) by {
                lemma_pow2_adds((e - 150) as nat, 149);
                assert(significand * (weight * unit) == (significand * weight) * unit)
                    by (nonlinear_arith);
            }
            if is_negative(bits) {
                assert(-size == (-k) * unit + 0) by (nonlinear_arith)
                    requires
                        size == k * unit,
                ;
                lemma_between(-size, -size, -k, 0, unit);
            } else {
                lemma_between(size, size, k, 0, unit);
            }
        } else if e < 127 {
            if e + 23 < 149 {
                lemma_pow2_strictly_increases((e + 23) as nat, 149);
            }
            if is_negative(bits) && !is_zero(bits) {
                lemma_between(-size, -unit, -1, unit - size, unit);
            } else {
                lemma_between(scaled_value(bits), 0, 0, scaled_value(bits), unit);
            }
        } else {
            let rest = magnitude(bits) as int % step_of(bits);
            let k = lemma_neighbours(bits, rest, bits - rest, bits - rest + step_of(bits));
            let low = rest * pow2((e - 1) as nat);
            if !is_negative(bits) {
                lemma_between(size, k * unit, k, low, unit);
            } else if rest == 0 {
                assert(-size == (-k) * unit + 0) by (nonlinear_arith)
                    requires
                        size == k * unit + low,
                        low == 0,
                ;
                lemma_between(-size, -size, -k, 0, unit);
            } else {
                assert(-size == (-(k + 1)) * unit + (unit - low)) by (nonlinear_arith)
                    requires
                        size == k * unit + low,
                ;
                assert((-(k + 1)) * unit == -((k + 1) * unit)) by (nonlinear_arith);
                lemma_between(-size, -((k + 1) * unit), -(k + 1), unit - low, unit);
            }
        }
    }
}

/// A pattern has one floor only.
pub proof fn lemma_floor_is_unique(bits: u32, a: u32, b: u32)
    requires
        is_floor(bits, a),
        is_floor(bits, b),
    ensures
        a == b,
{
    if is_finite(bits) {
        let unit = unit() as int;
        let x = scaled_value(a);
        let y = scaled_value(b);
        lemma_pow2_pos(149);
        lemma_fundamental_div_mod(x, unit);
        lemma_fundamental_div_mod(y, unit);
        assert(x / unit == y / unit) by (nonlinear_arith)
            requires
                x == unit * (x / unit),
                y == unit * (y / unit),
                -unit < x - y < unit,
        ;
        lemma_value_determines_pattern(a, b);
    }
}

/// A whole number is its own floor.
pub proof fn lemma_floor_of_whole(bits: u32)
    requires
        is_whole(bits),
    ensures
        floor_of(bits) == bits,
{
    lemma_pow2_pos(149);
    lemma_floor_of_is_floor(bits);
    lemma_floor_is_unique(bits, floor_of(bits), bits);
}

/// Returns the largest whole number that is not above the number that `bits`
/// stands for. An infinity or a NaN comes back unchanged, and the result has
/// the sign bit of the argument, so that negative zero stays negative zero.
pub fn floor(bits: u32) -> (whole: u32)
    ensures
        whole == floor_of(bits),
        is_floor(bits, whole),
{
    let negative = bits >= SIGN_BIT;
    let magnitude: u32 = if negative {
        bits - SIGN_BIT
    } else {
        bits
    };
    let exponent: u32 = magnitude / HIDDEN_BIT;
    proof {
        lemma_floor_of_is_floor(bits);
    }
    if exponent >= 150 {
        bits
    } else if exponent < 127 {
        if magnitude == 0 {
            bits
        } else if negative {
            NEG_ONE
        } else {
            ZERO
        }
    } else {
        proof {
            lemma2_to64();
            lemma_u32_shl_is_mul(1, (150 - exponent) as u32);
        }
        let step: u32 = 1u32 << (150 - exponent);
        let rest: u32 = magnitude % step;
        proof {
            lemma_neighbours(bits, rest as int, bits - rest, bits - rest + step);
        }
        if rest == 0 {
            bits
        } else if negative {
            bits - rest + step
        } else {
            bits - rest
        }
    }
}

} // verus!
