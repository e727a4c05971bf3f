//! From interleaved RGBA bytes to the planar tensor of normalized samples.

use vstd::prelude::*;
use vstd::arithmetic::power2::{lemma2_to64, lemma_pow2_adds, lemma_pow2_pos, pow2};
use crate::binary32::{
    ONE_BITS,
    exponent_field,
    is_finite,
    lemma_significand_bounds,
    magnitude,
    one,
    quanta,
    scale,
    sign_of,
    significand,
};
use crate::rounding::{lemma_round_bounds, lemma_round_exact, round_half_away};

verus! {

/// The number of binary places by which the quotient of a nonzero byte by 255
/// lies below the interval from one to two: the least `j` with
/// `b * 2^j >= 255`.
pub open spec fn unit_shift(b: u8) -> nat {
    if b >= 255 {
        0
    } else if b >= 128 {
        1
    } else if b >= 64 {
        2
    } else if b >= 32 {
        3
    } else if b >= 16 {
        4
    } else if b >= 8 {
        5
    } else if b >= 4 {
        6
    } else if b >= 2 {
        7
    } else {
        8
    }
}

/// The 24-bit significand of the sample for a nonzero byte: the quotient
/// `b / 255`, scaled into the interval from `2^23` to `2^24` and rounded to
/// the nearest integer. No quotient falls half way between two integers, as
/// 255 is odd.
pub open spec fn unit_significand(b: u8) -> int {
    round_half_away(b * pow2(23 + unit_shift(b)), 255)
}

/// The sample for a byte: the bit pattern of the binary32 value nearest to
/// `b / 255`, which is what the division of the byte by 255 gives in binary32
/// arithmetic. `lemma_unit_is_nearest` shows that it is the nearest.
pub open spec fn unit_of_byte(b: u8) -> u32 {
    if b == 0 {
        0
    } else {
        ((127 - unit_shift(b)) * 0x80_0000 + (unit_significand(b) - 0x80_0000)) as u32
    }
}

/// How far the value of a finite pattern is from `b / 255`, counted in 255ths
/// of a quantum.
pub open spec fn unit_miss(bits: u32, b: u8) -> int {
    let gap = 255 * quanta(bits) - b * one();
    if gap < 0 {
        -gap
    } else {
        gap
    }
}

/// The shift of a nonzero byte brings it into the interval from 255 to 510.
proof fn lemma_unit_shift(b: u8)
    requires
        b > 0,
    ensures
        255 <= b * pow2(unit_shift(b)) < 510,
        unit_shift(b) <= 8,
{
    lemma2_to64();
    let j = unit_shift(b);
    let w = pow2(j) as int;
    assert(w == 1 || w == 2 || w == 4 || w == 8 || w == 16 || w == 32 || w == 64 || w == 128 || w
        == 256);
    assert(255 <= b * w < 510) by (nonlinear_arith)
        requires
            b >= 255 ==> w == 1,
            128 <= b < 255 ==> w == 2,
            64 <= b < 128 ==> w == 4,
            32 <= b < 64 ==> w == 8,
            16 <= b < 32 ==> w == 16,
            8 <= b < 16 ==> w == 32,
            4 <= b < 8 ==> w == 64,
            2 <= b < 4 ==> w == 128,
            1 <= b < 2 ==> w == 256,
            1 <= b <= 255,
    ;
}

/// Only one shift brings a byte into the interval from 255 to 510.
proof fn lemma_unit_shift_unique(b: u8, j: nat)
    requires
        255 <= b * pow2(j) < 510,
    ensures
        b > 0,
        j == unit_shift(b),
{
    assert(b > 0) by (nonlinear_arith)
        requires
            255 <= b * pow2(j),
    ;
    lemma_unit_shift(b);
    let i = unit_shift(b);
    lemma2_to64();
    if i < j {
        lemma_pow2_adds(i, (j - i) as nat);
        lemma_pow2_adds(1, (j - i - 1) as nat);
        lemma_pow2_pos((j - i - 1) as nat);
        assert(b * pow2(j) >= 510) by (nonlinear_arith)
            requires
                pow2(j) == pow2(i) * pow2((j - i) as nat),
                pow2((j - i) as nat) == 2 * pow2((j - i - 1) as nat),
                pow2((j - i - 1) as nat) >= 1,
                b * pow2(i) >= 255,
        ;
    } else if j < i {
        lemma_pow2_adds(j, (i - j) as nat);
        lemma_pow2_adds(1, (i - j - 1) as nat);
        lemma_pow2_pos((i - j - 1) as nat);
        assert(b * pow2(i) >= 510) by (nonlinear_arith)
            requires
                pow2(i) == pow2(j) * pow2((i - j) as nat),
                pow2((i - j) as nat) == 2 * pow2((i - j - 1) as nat),
                pow2((i - j - 1) as nat) >= 1,
                b * pow2(j) >= 255,
        ;
    }
}

/// The scaled byte fits the significand's range, and the significand lies
/// within one half of the scaled quotient.
pub(crate) proof fn lemma_unit_significand(b: u8)
    requires
        b > 0,
    ensures
        255 * 0x80_0000 <= b * pow2(23 + unit_shift(b)) < 510 * 0x80_0000,
        0x80_0000 <= unit_significand(b) < 0x100_0000,
        -127 <= 255 * unit_significand(b) - b * pow2(23 + unit_shift(b)) <= 127,
{
    let j = unit_shift(b);
    let top = b * pow2(j);
    lemma2_to64();
    lemma_pow2_adds(23, j);
    lemma_unit_shift(b);
    assert(b * pow2(23 + j) == top * 0x80_0000) by (nonlinear_arith)
        requires
            pow2(23 + j) == 0x80_0000 * pow2(j),
            top == b * pow2(j),
    ;
    lemma_round_bounds(b * pow2(23 + j), 255);
}

/// The fields of the sample for a nonzero byte.
pub(crate) proof fn lemma_unit_fields(b: u8)
    requires
        b > 0,
    ensures
        unit_of_byte(b) <= ONE_BITS,
        exponent_field(unit_of_byte(b)) == 127 - unit_shift(b),
        significand(unit_of_byte(b)) == unit_significand(b),
        scale(unit_of_byte(b)) == 126 - unit_shift(b),
        quanta(unit_of_byte(b)) == unit_significand(b) * pow2((126 - unit_shift(b)) as nat),
{
    lemma_unit_significand(b);
    let j = unit_shift(b);
    let m = unit_significand(b);
    let r = unit_of_byte(b);
    if b == 255 {
        lemma2_to64();
        lemma_round_exact(0x80_0000, 255);
    }
    assert(r == (127 - j) * 0x80_0000 + (m - 0x80_0000));
    assert(r as int / 0x80_0000 == 127 - j);
    assert(r as int % 0x80_0000 == m - 0x80_0000);
}

/// A gap of `z` times a positive factor, as a distance.
spec fn span(z: int) -> int {
    if z < 0 {
        -z
    } else {
        z
    }
}

/// Distances scale with a positive factor, and keep their order.
proof fn lemma_span_scales(z1: int, z2: int, p: int)
    requires
        p > 0,
    ensures
        span(z1 * p) == span(z1) * p,
        span(z1) <= span(z2) ==> span(z1 * p) <= span(z2 * p),
        span(z1) < span(z2) ==> span(z1 * p) < span(z2 * p),
{
    assert(span(z1 * p) == span(z1) * p) by (nonlinear_arith)
        requires
            p > 0,
    ;
    assert(span(z2 * p) == span(z2) * p) by (nonlinear_arith)
        requires
            p > 0,
    ;
    assert(span(z1) <= span(z2) ==> span(z1) * p <= span(z2) * p) by (nonlinear_arith)
        requires
            p > 0,
    ;
    assert(span(z1) < span(z2) ==> span(z1) * p < span(z2) * p) by (nonlinear_arith)
        requires
            p > 0,
    ;
}

/// The sample for a byte is a finite pattern with a clear sign bit, and no
/// finite binary32 value lies nearer to `b / 255` than its value: every
/// finite pattern with another value lies strictly further away.
pub proof fn lemma_unit_is_nearest(b: u8, y: u32)
    requires
        is_finite(y),
    ensures
        is_finite(unit_of_byte(b)),
        !sign_of(unit_of_byte(b)),
        unit_of_byte(b) <= ONE_BITS,
        unit_miss(unit_of_byte(b), b) <= unit_miss(y, b),
        quanta(y) != quanta(unit_of_byte(b)) ==> unit_miss(unit_of_byte(b), b) < unit_miss(y, b),
{
    let r = unit_of_byte(b);
    let qy = quanta(y);
    lemma_significand_bounds(y);
    lemma_pow2_pos(scale(y));
    if b == 0 {
        assert(significand(r) == 0);
        assert(magnitude(r) == 0) by (nonlinear_arith)
            requires
                magnitude(r) == significand(r) * pow2(scale(r)),
                significand(r) == 0,
        ;
        assert(0 * one() == 0);
    } else {
        lemma_unit_fields(b);
        lemma_unit_significand(b);
        lemma2_to64();
        let j = unit_shift(b);
        let m = unit_significand(b);
        let pr = (126 - j) as nat;
        let p = pow2(pr) as int;
        let s = b * pow2(23 + j);
        let my = significand(y);
        let py = scale(y);
        let q = pow2(py) as int;
        lemma_pow2_pos(pr);
        lemma_pow2_adds(23 + j, pr);
        assert(b * one() == s * p) by (nonlinear_arith)
            requires
                one() == pow2(23 + j) * p,
                s == b * pow2(23 + j),
        ;
        let zr = 255 * m - s;
        assert(255 * quanta(r) - b * one() == zr * p) by (nonlinear_arith)
            requires
                quanta(r) == m * p,
                b * one() == s * p,
                zr == 255 * m - s,
        ;
        assert(unit_miss(r, b) == span(zr * p));
        if py >= pr {
            let c = pow2((py - pr) as nat) as int;
            lemma_pow2_adds(pr, (py - pr) as nat);
            lemma_pow2_pos((py - pr) as nat);
            let n = if sign_of(y) { -(my * c) } else { my * c };
            assert(qy == n * p) by (nonlinear_arith)
                requires
                    q == p * c,
                    qy == if sign_of(y) { -(my * q) } else { my * q },
                    n == if sign_of(y) { -(my * c) } else { my * c },
            ;
            let zy = 255 * n - s;
            assert(255 * qy - b * one() == zy * p) by (nonlinear_arith)
                requires
                    qy == n * p,
                    b * one() == s * p,
                    zy == 255 * n - s,
            ;
            assert(unit_miss(y, b) == span(zy * p));
            lemma_span_scales(zr, zy, p);
            if n != m {
                assert(span(zy) >= 128);
                assert(qy != quanta(r));
            } else {
                assert(qy == quanta(r));
            }
        } else {
            lemma_pow2_adds(py, (pr - py) as nat);
            lemma_pow2_adds(1, (pr - py - 1) as nat);
            lemma_pow2_pos((pr - py - 1) as nat);
            assert(my * q < 0x80_0000 * p) by (nonlinear_arith)
                requires
                    0 <= my < 0x100_0000,
                    q > 0,
                    p == q * pow2((pr - py) as nat),
                    pow2((pr - py) as nat) == 2 * pow2((pr - py - 1) as nat),
                    pow2((pr - py - 1) as nat) >= 1,
            ;
            assert(my * q >= 0) by (nonlinear_arith)
                requires
                    my >= 0,
                    q > 0,
            ;
            let floor = 255 * 0x80_0000 - s;
            assert(255 * (0x80_0000 * p) - b * one() == floor * p) by (nonlinear_arith)
                requires
                    b * one() == s * p,
                    floor == 255 * 0x80_0000 - s,
            ;
            assert(floor <= 0);
            assert(floor * p <= 0) by (nonlinear_arith)
                requires
                    floor <= 0,
                    p > 0,
            ;
            assert(span(zr) <= span(floor));
            lemma_span_scales(zr, floor, p);
            assert(m * p >= 0x80_0000 * p) by (nonlinear_arith)
                requires
                    m >= 0x80_0000,
                    p > 0,
            ;
            assert(unit_miss(y, b) > span(floor * p));
        }
    }
}

/// Converts a byte to its normalized sample.
pub fn unit_from_byte(b: u8) -> (r: u32)
    ensures
        r == unit_of_byte(b),
{
    if b == 0 {
        return 0;
    }
    let mut j: u32 = 0;
    let mut top: u32 = b as u32;
    proof {
        lemma2_to64();
    }
    while top < 255
        invariant
            0 <= j <= 8,
            0 < top < 510,
            top == b * pow2(j as nat),
        decreases 510 - top,
    {
        proof {
            lemma2_to64();
            lemma_pow2_adds(1, j as nat);
            assert(b * pow2((j + 1) as nat) == 2 * (b * pow2(j as nat))) by (nonlinear_arith)
                requires
                    pow2((j + 1) as nat) == 2 * pow2(j as nat),
            ;
            assert(j < 8) by {
                if j == 8 {
                    assert(pow2(8) == 256);
                    assert(b * 256 >= 256);
                }
            }
        }
        top = top * 2;
        j = j + 1;
    }
    proof {
        lemma2_to64();
        lemma_unit_significand(b);
        lemma_pow2_adds(23, j as nat);
        lemma_unit_shift_unique(b, j as nat);
        assert(b * pow2(23 + unit_shift(b)) == top * 0x80_0000) by (nonlinear_arith)
            requires
                pow2(23 + j as nat) == 0x80_0000 * pow2(j as nat),
                top == b * pow2(j as nat),
                j == unit_shift(b),
        ;
    }
    let scaled: u64 = (top as u64) * 0x80_0000;
    let m: u64 = (2 * scaled + 255) / 510;
    assert(m == unit_significand(b));
    (127 - j) * 0x80_0000 + (m as u32 - 0x80_0000)
}

/// The planar tensor of an interleaved image of `pixels` pixels: three planes
/// of `pixels` samples each, red, green and blue in this order. The sample at
/// place `i` of a plane is that of the pixel at place `i` of the image, whose
/// bytes start at `4 * i`; the fourth byte of a pixel, its alpha, is not read.
pub open spec fn planar_of(rgba: Seq<u8>, pixels: int) -> Seq<u32> {
    Seq::new(
        (3 * pixels) as nat,
        |j: int|
            if j < pixels {
                unit_of_byte(rgba[4 * j])
            } else if j < 2 * pixels {
                unit_of_byte(rgba[4 * (j - pixels) + 1])
            } else {
                unit_of_byte(rgba[4 * (j - 2 * pixels) + 2])
            },
    )
}

/// The plane places that are filled once the first `done` pixels are encoded.
spec fn encoded_place(j: int, done: int, pixels: int) -> bool {
    ||| 0 <= j < done
    ||| pixels <= j < pixels + done
    ||| 2 * pixels <= j < 2 * pixels + done
}

/// Encodes an interleaved RGBA image of `w` by `h` pixels as the planar
/// tensor of its normalized samples.
pub fn rgba_to_nchw(rgba: &Vec<u8>, w: usize, h: usize) -> (out: Vec<u32>)
    requires
        rgba.len() == 4 * w * h,
    ensures
        out.len() == 3 * w * h,
        out@ == planar_of(rgba@, w * h),
{
    assert(4 * w * h == 4 * (w * h) && 3 * w * h == 3 * (w * h) && w * h >= 0)
        by (nonlinear_arith);
    let size: usize = w * h;
    let mut out: Vec<u32> = vec![0u32; 3 * size];
    let mut i: usize = 0;
    while i < size
        invariant
            i <= size,
            rgba.len() == 4 * size,
            out.len() == 3 * size,
            forall|j: int|
                0 <= j < 3 * size && encoded_place(j, i as int, size as int) ==> #[trigger] out@[j]
                    == planar_of(rgba@, size as int)[j],
        decreases size - i,
    {
        let r: u32 = unit_from_byte(rgba[i * 4]);
        let g: u32 = unit_from_byte(rgba[i * 4 + 1]);
        let b: u32 = unit_from_byte(rgba[i * 4 + 2]);
        out.set(i, r);
        out.set(i + size, g);
        out.set(i + 2 * size, b);
        i = i + 1;
    }
    assert(out@ =~= planar_of(rgba@, size as int));
    out
}

} // verus!
