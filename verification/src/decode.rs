//! From the planar tensor of samples back to interleaved, opaque RGBA bytes.

use vstd::prelude::*;
use vstd::arithmetic::power2::{lemma2_to64, lemma_pow2_adds, lemma_pow2_pos, pow2};
use crate::binary32::{
    exponent_bits,
    fraction_bits,
    is_finite,
    is_infinite,
    is_nan,
    magnitude,
    one,
    quanta,
    scale,
    sign_bit,
    sign_of,
    significand,
};
use crate::encode::{
    lemma_unit_fields,
    lemma_unit_significand,
    planar_of,
    unit_of_byte,
    unit_shift,
    unit_significand,
};
use crate::image::opaque;
use crate::mix::mix_byte;
use crate::rounding::{
    clamp_byte,
    lemma_round_exact,
    lemma_round_monotone,
    lemma_round_near,
    lemma_round_scaling,
    round_half_away,
};

verus! {

/// The byte for a sample: 255 times its exact value, rounded to the nearest
/// integer, half way cases away from zero, and clamped to `0..=255`. So a
/// sample below zero gives 0 and one above one gives 255; negative infinity
/// gives 0 and positive infinity 255. A NaN gives 0.
pub open spec fn byte_of_unit(v: u32) -> u8 {
    if is_nan(v) {
        0
    } else if is_infinite(v) {
        if sign_of(v) {
            0
        } else {
            255
        }
    } else {
        clamp_byte(round_half_away(255 * quanta(v), one())) as u8
    }
}

/// Converts a sample to its byte.
pub fn byte_from_unit(v: u32) -> (b: u8)
    ensures
        b == byte_of_unit(v),
{
    if exponent_bits(v) == 0xff {
        if fraction_bits(v) != 0 || sign_bit(v) {
            0
        } else {
            255
        }
    } else {
        assert(0 * one() + 255 * quanta(v) == 255 * quanta(v));
        mix_byte(0, 255, v)
    }
}

/// The interleaved image of a planar tensor of `pixels` pixels: four bytes
/// for each pixel, the bytes for its samples in the red, the green and the
/// blue plane and then an alpha of 255.
pub open spec fn interleaved_of(tensor: Seq<u32>, pixels: int) -> Seq<u8> {
    Seq::new(
        (4 * pixels) as nat,
        |j: int|
            if j % 4 == 0 {
                byte_of_unit(tensor[j / 4])
            } else if j % 4 == 1 {
                byte_of_unit(tensor[pixels + j / 4])
            } else if j % 4 == 2 {
                byte_of_unit(tensor[2 * pixels + j / 4])
            } else {
                255u8
            },
    )
}

/// Decodes the planar tensor of an image of `w` by `h` pixels into
/// interleaved RGBA bytes with an opaque alpha channel.
pub fn nchw_to_rgba_vec(tensor: &Vec<u32>, w: usize, h: usize) -> (out: Vec<u8>)
    requires
        tensor.len() == 3 * w * h,
        4 * w * h <= usize::MAX,
    ensures
        out.len() == 4 * w * h,
        out@ == interleaved_of(tensor@, w * h),
{
    assert(4 * w * h == 4 * (w * h) && 3 * w * h == 3 * (w * h) && w * h >= 0)
        by (nonlinear_arith);
    let size: usize = w * h;
    let mut out: Vec<u8> = vec![0u8; size * 4];
    let mut i: usize = 0;
    while i < size
        invariant
            i <= size,
            4 * size <= usize::MAX,
            tensor.len() == 3 * size,
            out.len() == 4 * size,
            forall|j: int|
                0 <= j < 4 * i ==> #[trigger] out@[j] == interleaved_of(tensor@, size as int)[j],
        decreases size - i,
    {
        let r: u8 = byte_from_unit(tensor[i]);
        let g: u8 = byte_from_unit(tensor[i + size]);
        let b: u8 = byte_from_unit(tensor[i + 2 * size]);
        let idx: usize = i * 4;
        out.set(idx, r);
        out.set(idx + 1, g);
        out.set(idx + 2, b);
        out.set(idx + 3, 255);
        i = i + 1;
    }
    assert(out@ =~= interleaved_of(tensor@, size as int));
    out
}

/// A byte that is encoded as a sample and decoded again is the same byte.
pub proof fn lemma_byte_round_trip(b: u8)
    ensures
        byte_of_unit(unit_of_byte(b)) == b,
{
    let r = unit_of_byte(b);
    lemma_pow2_pos(149);
    if b == 0 {
        assert(significand(r) == 0);
        assert(magnitude(r) == 0) by (nonlinear_arith)
            requires
                magnitude(r) == significand(r) * pow2(scale(r)),
                significand(r) == 0,
        ;
        lemma_round_exact(0, one());
    } else {
        lemma_unit_fields(b);
        lemma_unit_significand(b);
        lemma2_to64();
        let j = unit_shift(b);
        let m = unit_significand(b);
        let p = pow2((126 - j) as nat) as int;
        let d = pow2(23 + j) as int;
        lemma_pow2_pos((126 - j) as nat);
        lemma_pow2_adds(23, j);
        lemma_pow2_pos(j);
        lemma_pow2_adds(23 + j, (126 - j) as nat);
        assert(d >= 0x80_0000) by (nonlinear_arith)
            requires
                d == 0x80_0000 * pow2(j),
                pow2(j) >= 1,
        ;
        assert(255 * quanta(r) == p * (255 * m)) by (nonlinear_arith)
            requires
                quanta(r) == m * p,
        ;
        assert(one() == p * d) by (nonlinear_arith)
            requires
                one() == d * p,
        ;
        lemma_round_scaling(255 * m, d, p);
        lemma_round_near(b as int, 255 * m - b * d, d);
    }
}

/// An image that is encoded as a tensor and decoded again, with nothing done
/// to the tensor in between, keeps its red, green and blue bytes exactly and
/// comes back opaque.
pub proof fn lemma_image_round_trip(rgba: Seq<u8>, pixels: int)
    requires
        pixels >= 0,
        rgba.len() == 4 * pixels,
    ensures
        interleaved_of(planar_of(rgba, pixels), pixels) == opaque(rgba),
{
    let tensor = planar_of(rgba, pixels);
    let back = interleaved_of(tensor, pixels);
    assert forall|j: int| 0 <= j < 4 * pixels implies back[j] == opaque(rgba)[j] by {
        if j % 4 != 3 {
            lemma_byte_round_trip(rgba[j]);
        }
    }
    assert(back =~= opaque(rgba));
}

/// Out of the interval from zero to one the decoder saturates: a finite
/// sample of at least one gives 255 and one of at most zero gives 0.
pub proof fn lemma_decode_saturates(v: u32)
    requires
        is_finite(v),
    ensures
        quanta(v) >= one() ==> byte_of_unit(v) == 255,
        quanta(v) <= 0 ==> byte_of_unit(v) == 0,
{
    lemma_pow2_pos(149);
    lemma_round_exact(255, one());
    lemma_round_exact(0, one());
    if quanta(v) >= one() {
        lemma_round_monotone(255 * one(), 255 * quanta(v), one());
    }
    if quanta(v) <= 0 {
        lemma_round_monotone(255 * quanta(v), 0 * one(), one());
    }
}

} // verus!
