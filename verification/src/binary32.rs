//! The IEEE 754 binary32 format, read from its 32-bit pattern.
//!
//! A tensor sample travels through this library as the `u32` that holds its
//! bits. Every finite binary32 value is a whole multiple of the smallest
//! positive one, two to the power of minus 149, called a quantum here: the
//! value of a finite pattern is `quanta(bits)` quanta, and `one()` quanta
//! make the value one. All arithmetic on samples is stated over these
//! integers, so it is exact.

use vstd::prelude::*;
use vstd::arithmetic::power2::pow2;

verus! {

/// The bit pattern of the value one.
pub const ONE_BITS: u32 = 0x3f80_0000;

/// The sign bit: set for negative values, negative zero included.
pub open spec fn sign_of(bits: u32) -> bool {
    bits >= 0x8000_0000
}

/// The eight-bit biased exponent field.
pub open spec fn exponent_field(bits: u32) -> int {
    (bits as int / 0x80_0000) % 0x100
}

/// The 23-bit fraction field.
pub open spec fn fraction_field(bits: u32) -> int {
    bits as int % 0x80_0000
}

/// The pattern is a NaN.
pub open spec fn is_nan(bits: u32) -> bool {
    exponent_field(bits) == 0xff && fraction_field(bits) != 0
}

/// The pattern is positive or negative infinity.
pub open spec fn is_infinite(bits: u32) -> bool {
    exponent_field(bits) == 0xff && fraction_field(bits) == 0
}

/// The pattern is a zero, a subnormal or a normal value.
pub open spec fn is_finite(bits: u32) -> bool {
    exponent_field(bits) < 0xff
}

/// The integer significand of a finite pattern: the fraction field, with the
/// implicit leading bit in front of it unless the exponent field is zero.
pub open spec fn significand(bits: u32) -> int {
    if exponent_field(bits) == 0 {
        fraction_field(bits)
    } else {
        0x80_0000 + fraction_field(bits)
    }
}

/// The power of two by which the significand of a finite pattern is
/// multiplied to give its magnitude in quanta.
pub open spec fn scale(bits: u32) -> nat {
    if exponent_field(bits) == 0 {
        0
    } else {
        (exponent_field(bits) - 1) as nat
    }
}

/// The magnitude of a finite pattern, in quanta.
pub open spec fn magnitude(bits: u32) -> int {
    significand(bits) * pow2(scale(bits))
}

/// The value of a finite pattern, in quanta.
pub open spec fn quanta(bits: u32) -> int {
    if sign_of(bits) {
        -magnitude(bits)
    } else {
        magnitude(bits)
    }
}

/// The number of quanta in the value one.
pub open spec fn one() -> int {
    pow2(149) as int
}

/// Reads the sign bit of a pattern.
pub fn sign_bit(bits: u32) -> (negative: bool)
    ensures
        negative == sign_of(bits),
{
    bits >= 0x8000_0000
}

/// Reads the exponent field of a pattern.
pub fn exponent_bits(bits: u32) -> (e: u32)
    ensures
        e == exponent_field(bits),
        e <= 0xff,
{
    let e: u32 = (bits >> 23) & 0xff;
    assert(e == (bits / 0x80_0000) % 0x100) by (bit_vector)
        requires
            e == (bits >> 23) & 0xff,
    ;
    e
}

/// Reads the fraction field of a pattern.
pub fn fraction_bits(bits: u32) -> (f: u32)
    ensures
        f == fraction_field(bits),
        f < 0x80_0000,
{
    let f: u32 = bits & 0x7f_ffff;
    assert(f == bits % 0x80_0000) by (bit_vector)
        requires
            f == bits & 0x7f_ffff,
    ;
    f
}

/// The significand of a finite pattern has at most 24 bits, and exactly 24
/// wherever the scale is not zero.
pub proof fn lemma_significand_bounds(bits: u32)
    ensures
        0 <= significand(bits) < 0x100_0000,
        scale(bits) <= 254,
        scale(bits) > 0 ==> significand(bits) >= 0x80_0000,
        is_finite(bits) ==> scale(bits) <= 253,
{
}

} // verus!
