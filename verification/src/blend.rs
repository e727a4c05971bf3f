//! The linear blend of a stylized image over the original.

use vstd::prelude::*;
use vstd::arithmetic::power2::{lemma2_to64, lemma_pow2_adds, lemma_pow2_pos, pow2};
use crate::binary32::{
    ONE_BITS,
    exponent_bits,
    exponent_field,
    fraction_field,
    is_finite,
    magnitude,
    one,
    quanta,
    scale,
    significand,
};
use crate::image::opaque;
use crate::mix::mix_byte;
use crate::rounding::{clamp_byte, lemma_round_exact, lemma_round_monotone, round_half_away};

verus! {

/// One blended channel: `(1 - s) * o + s * t` for the exact value `s` of the
/// strength, rounded to the nearest integer, half way cases away from zero,
/// and clamped to `0..=255`. The strength is not confined to the interval
/// from zero to one: the clamp takes what leaves the range of a byte, and
/// to clamp the exact sum before it is rounded gives the same byte
/// (`lemma_clamp_commutes`). A strength that is an infinity or a NaN has no
/// value to blend with and gives 0.
pub open spec fn blend_of(o: u8, t: u8, s: u32) -> u8 {
    if is_finite(s) {
        clamp_byte(round_half_away((one() - quanta(s)) * o + quanta(s) * t, one())) as u8
    } else {
        0
    }
}

/// Blends one channel of the original, `o`, with that of the stylized image,
/// `t`, at strength `s`.
pub fn blend_channel(o: u8, t: u8, s: u32) -> (r: u8)
    ensures
        r == blend_of(o, t, s),
{
    if exponent_bits(s) == 0xff {
        0
    } else {
        assert((one() - quanta(s)) * o + quanta(s) * t == o * one() + (t - o) * quanta(s))
            by (nonlinear_arith);
        mix_byte(o, t as i32 - o as i32, s)
    }
}

/// The blend of two interleaved images: in each pixel the red, green and blue
/// bytes are blended channel by channel and the alpha byte is 255. The
/// result is as long as the stylized image.
pub open spec fn blended(orig: Seq<u8>, styl: Seq<u8>, s: u32) -> Seq<u8> {
    Seq::new(
        styl.len(),
        |j: int|
            if j % 4 == 3 {
                255u8
            } else {
                blend_of(orig[j], styl[j], s)
            },
    )
}

/// Blends the stylized image over the original at strength `s` into a new,
/// opaque image.
pub fn blend_with_original(orig: &Vec<u8>, styl: &Vec<u8>, s: u32) -> (out: Vec<u8>)
    requires
        orig.len() == styl.len(),
        styl.len() % 4 == 0,
    ensures
        out.len() == styl.len(),
        out@ == blended(orig@, styl@, s),
{
    let len: usize = styl.len();
    let mut out: Vec<u8> = vec![0u8; len];
    let mut i: usize = 0;
    while i < len
        invariant
            i <= len,
            i % 4 == 0,
            len % 4 == 0,
            len == styl.len(),
            orig.len() == len,
            out.len() == len,
            forall|j: int| 0 <= j < i ==> #[trigger] out@[j] == blended(orig@, styl@, s)[j],
        decreases len - i,
    {
        let r: u8 = blend_channel(orig[i], styl[i], s);
        let g: u8 = blend_channel(orig[i + 1], styl[i + 1], s);
        let b: u8 = blend_channel(orig[i + 2], styl[i + 2], s);
        out.set(i, r);
        out.set(i + 1, g);
        out.set(i + 2, b);
        out.set(i + 3, 255);
        i = i + 4;
    }
    assert(out@ =~= blended(orig@, styl@, s));
    out
}

/// At a strength of zero, of either sign, a blended channel is that of the
/// original.
pub proof fn lemma_blend_at_zero(o: u8, t: u8, s: u32)
    requires
        is_finite(s),
        quanta(s) == 0,
    ensures
        blend_of(o, t, s) == o,
{
    lemma_pow2_pos(149);
    assert((one() - quanta(s)) * o + quanta(s) * t == o * one()) by (nonlinear_arith)
        requires
            quanta(s) == 0,
    ;
    lemma_round_exact(o as int, one());
}

/// At a strength of one a blended channel is that of the stylized image.
pub proof fn lemma_blend_at_one(o: u8, t: u8, s: u32)
    requires
        is_finite(s),
        quanta(s) == one(),
    ensures
        blend_of(o, t, s) == t,
{
    lemma_pow2_pos(149);
    assert((one() - quanta(s)) * o + quanta(s) * t == t * one()) by (nonlinear_arith)
        requires
            quanta(s) == one(),
    ;
    lemma_round_exact(t as int, one());
}

/// The pattern of all zero bits has the value zero, and `ONE_BITS` has the
/// value one.
pub proof fn lemma_zero_and_one()
    ensures
        is_finite(0) && quanta(0) == 0,
        is_finite(ONE_BITS) && quanta(ONE_BITS) == one(),
{
    lemma2_to64();
    lemma_pow2_adds(23, 126);
    assert(significand(0) == 0);
    assert(magnitude(0) == 0) by (nonlinear_arith)
        requires
            magnitude(0) == significand(0) * pow2(scale(0)),
            significand(0) == 0,
    ;
    assert(exponent_field(ONE_BITS) == 127 && fraction_field(ONE_BITS) == 0);
    assert(significand(ONE_BITS) == 0x80_0000 && scale(ONE_BITS) == 126);
}

/// A blend of strength zero is the original image made opaque: its red,
/// green and blue bytes are kept exactly, whatever the stylized image holds.
pub proof fn lemma_blended_at_zero(orig: Seq<u8>, styl: Seq<u8>)
    requires
        orig.len() == styl.len(),
    ensures
        blended(orig, styl, 0) == opaque(orig),
{
    lemma_zero_and_one();
    assert forall|j: int| 0 <= j < styl.len() implies blended(orig, styl, 0)[j] == opaque(
        orig,
    )[j] by {
        lemma_blend_at_zero(orig[j], styl[j], 0);
    }
    assert(blended(orig, styl, 0) =~= opaque(orig));
}

/// A blend of strength one is the stylized image made opaque, whatever the
/// original holds.
pub proof fn lemma_blended_at_one(orig: Seq<u8>, styl: Seq<u8>)
    requires
        orig.len() == styl.len(),
    ensures
        blended(orig, styl, ONE_BITS) == opaque(styl),
{
    lemma_zero_and_one();
    assert forall|j: int| 0 <= j < styl.len() implies blended(orig, styl, ONE_BITS)[j] == opaque(
        styl,
    )[j] by {
        lemma_blend_at_one(orig[j], styl[j], ONE_BITS);
    }
    assert(blended(orig, styl, ONE_BITS) =~= opaque(styl));
}

/// A blended channel is monotonic in the strength: as the strength grows it
/// does not fall where the stylized channel is above the original, and does
/// not rise where it is below.
pub proof fn lemma_blend_monotone(o: u8, t: u8, s1: u32, s2: u32)
    requires
        is_finite(s1),
        is_finite(s2),
        quanta(s1) <= quanta(s2),
    ensures
        t >= o ==> blend_of(o, t, s1) <= blend_of(o, t, s2),
        t <= o ==> blend_of(o, t, s1) >= blend_of(o, t, s2),
{
    lemma_pow2_pos(149);
    let u = one();
    let q1 = quanta(s1);
    let q2 = quanta(s2);
    let n1 = (u - q1) * o + q1 * t;
    let n2 = (u - q2) * o + q2 * t;
    assert(n2 - n1 == (q2 - q1) * (t - o)) by (nonlinear_arith)
        requires
            n1 == (u - q1) * o + q1 * t,
            n2 == (u - q2) * o + q2 * t,
    ;
    if t >= o {
        assert((q2 - q1) * (t - o) >= 0) by (nonlinear_arith)
            requires
                q2 - q1 >= 0,
                t - o >= 0,
        ;
        lemma_round_monotone(n1, n2, u);
    }
    if t <= o {
        assert((q2 - q1) * (t - o) <= 0) by (nonlinear_arith)
            requires
                q2 - q1 >= 0,
                t - o <= 0,
        ;
        lemma_round_monotone(n2, n1, u);
    }
}

} // verus!
