//! A byte moved by a multiple of a sample: the one computation behind both
//! the conversion of a sample to a byte and the blend of two bytes.

use vstd::prelude::*;
use vstd::arithmetic::power2::{lemma2_to64, lemma2_to64_rest, lemma_pow2_adds, lemma_pow2_pos, pow2};
use vstd::bits::{lemma_u64_shl_is_mul, lemma_u64_shr_is_div};
use crate::binary32::{
    exponent_bits,
    fraction_bits,
    is_finite,
    lemma_significand_bounds,
    magnitude,
    one,
    quanta,
    scale,
    sign_bit,
    sign_of,
    significand,
};
use crate::rounding::{
    clamp_byte,
    lemma_round_exact,
    lemma_round_monotone,
    lemma_round_near,
    lemma_round_scaling,
    round_half_away,
};

verus! {

/// The byte nearest to `base + step * v`, where `v` is the exact value of the
/// finite pattern `s`: the sum is rounded to an integer, half way cases away
/// from zero, and the integer is clamped to `0..=255`.
pub open spec fn mixed(base: int, step: int, s: u32) -> int {
    clamp_byte(round_half_away(base * one() + step * quanta(s), one()))
}

/// A product of at least 512 whole units carries any byte out of range.
proof fn lemma_mixed_far(base: int, g: int)
    requires
        0 <= base <= 255,
        g >= 512 * one(),
    ensures
        clamp_byte(round_half_away(base * one() + g, one())) == 255,
        clamp_byte(round_half_away(base * one() - g, one())) == 0,
{
    lemma_pow2_pos(149);
    let u = one();
    lemma_round_exact(512, u);
    lemma_round_exact(0, u);
    assert(base * u >= 0) by (nonlinear_arith)
        requires
            base >= 0,
            u > 0,
    ;
    assert(base * u <= 255 * u) by (nonlinear_arith)
        requires
            base <= 255,
            u > 0,
    ;
    lemma_round_monotone(512 * u, base * u + g, u);
    lemma_round_monotone(base * u - g, 0 * u, u);
}

/// What the significand, the scale and the signs make of the product.
proof fn lemma_product(step: int, s: u32)
    ensures
        step * quanta(s) == if sign_of(s) != (step < 0) {
            -((if step < 0 {
                -step
            } else {
                step
            }) * significand(s)) * pow2(scale(s))
        } else {
            ((if step < 0 {
                -step
            } else {
                step
            }) * significand(s)) * pow2(scale(s))
        },
{
    let m = significand(s);
    let p = pow2(scale(s)) as int;
    assert(magnitude(s) == m * p);
    assert(step * (m * p) == (step * m) * p) by (nonlinear_arith);
    assert(step * (-(m * p)) == -((step * m) * p)) by (nonlinear_arith);
    assert((-step) * m == -(step * m)) by (nonlinear_arith);
    assert((-(step * m)) * p == -((step * m) * p)) by (nonlinear_arith);
}

/// Computes the byte nearest to `base + step * v` for the value `v` of a
/// finite sample, exactly: no intermediate result is rounded.
pub fn mix_byte(base: u8, step: i32, s: u32) -> (r: u8)
    requires
        is_finite(s),
        -255 <= step <= 255,
    ensures
        r == mixed(base as int, step as int, s),
{
    // The sample is `m * 2^(x - 150)`, up to its sign.
    let e: u32 = exponent_bits(s);
    let f: u32 = fraction_bits(s);
    let m: u32 = if e == 0 { f } else { f + 0x80_0000 };
    let x: u32 = if e == 0 { 1 } else { e };
    // The product `step * v` is `width * m * 2^(x - 150)`, taken off the
    // base where `down` holds and added to it where not.
    let down: bool = sign_bit(s) != (step < 0);
    let width: u32 = if step < 0 { (-step) as u32 } else { step as u32 };
    let ghost u: int = one();
    let ghost p: int = pow2(scale(s)) as int;
    let ghost k: int = width as int * m as int;
    proof {
        lemma_pow2_pos(149);
        lemma_pow2_pos(scale(s));
        lemma_significand_bounds(s);
        lemma_product(step as int, s);
        lemma2_to64();
        lemma2_to64_rest();
        assert(m == significand(s));
        assert(x == scale(s) + 1);
        assert((-k) * p == -(k * p)) by (nonlinear_arith);
        assert(step * quanta(s) == if down { -(k * p) } else { k * p });
        assert(0 <= k < 0x1_0000_0000) by (nonlinear_arith)
            requires
                k == width as int * m as int,
                0 <= width <= 255,
                0 <= m < 0x100_0000,
        ;
    }
    if m == 0 || width == 0 {
        proof {
            assert(k == 0) by (nonlinear_arith)
                requires
                    k == width as int * m as int,
                    m == 0 || width == 0,
            ;
            assert(k * p == 0) by (nonlinear_arith)
                requires
                    k == 0,
            ;
            lemma_round_exact(base as int, u);
        }
        return base;
    }
    proof {
        assert(k >= m && k >= 1) by (nonlinear_arith)
            requires
                k == width as int * m as int,
                width >= 1,
                m >= 1,
        ;
    }
    if x >= 136 {
        // The sample is at least 512 in magnitude, and so is the product.
        proof {
            lemma_pow2_adds(135, (x - 136) as nat);
            lemma_pow2_pos((x - 136) as nat);
            lemma_pow2_adds(23, 135);
            lemma_pow2_adds(9, 149);
            assert(p >= pow2(135)) by (nonlinear_arith)
                requires
                    p == pow2(135) * pow2((x - 136) as nat),
                    pow2((x - 136) as nat) >= 1,
            ;
            assert(k * p >= 512 * u) by (nonlinear_arith)
                requires
                    k >= 0x80_0000,
                    p >= pow2(135),
                    0x80_0000 * pow2(135) == pow2(158),
                    pow2(158) == 512 * u,
            ;
            lemma_mixed_far(base as int, k * p);
        }
        return if down { 0 } else { 255 };
    }
    if x <= 116 {
        // The product is less than a quarter in magnitude.
        proof {
            lemma_pow2_adds((x - 1) as nat, (116 - x) as nat);
            lemma_pow2_pos((116 - x) as nat);
            lemma_pow2_adds(32, 115);
            lemma_pow2_adds(2, 147);
            assert(p <= pow2(115)) by (nonlinear_arith)
                requires
                    p > 0,
                    p * pow2((116 - x) as nat) == pow2(115),
                    pow2((116 - x) as nat) >= 1,
            ;
            assert(4 * (k * p) < u) by (nonlinear_arith)
                requires
                    0 <= k < 0x1_0000_0000,
                    0 < p <= pow2(115),
                    0x1_0000_0000 * pow2(115) == pow2(147),
                    4 * pow2(147) == u,
            ;
            assert(k * p >= 0) by (nonlinear_arith)
                requires
                    k >= 0,
                    p > 0,
            ;
            lemma_round_near(base as int, k * p, u);
            lemma_round_near(base as int, -(k * p), u);
        }
        return base;
    }
    // In between, the sum is `(base * 2^sh + or - width * m) / 2^sh` with
    // `sh` from 15 to 33, which 64 bits hold.
    let sh: u32 = 150 - x;
    let ghost d: int = pow2(sh as nat) as int;
    proof {
        lemma_pow2_adds(sh as nat, (x - 1) as nat);
        lemma_pow2_adds(sh as nat, (33 - sh) as nat);
        lemma_pow2_pos((33 - sh) as nat);
        lemma_pow2_pos(sh as nat);
        lemma_pow2_adds(1, sh as nat);
        assert(d <= 0x2_0000_0000) by (nonlinear_arith)
            requires
                d > 0,
                d * pow2((33 - sh) as nat) == 0x2_0000_0000,
                pow2((33 - sh) as nat) >= 1,
        ;
        assert(base * d <= 255 * 0x2_0000_0000) by (nonlinear_arith)
            requires
                0 <= base <= 255,
                0 < d <= 0x2_0000_0000,
        ;
        assert(base * d >= 0) by (nonlinear_arith)
            requires
                0 <= base,
                0 < d,
        ;
        lemma_u64_shl_is_mul(1, sh as u64);
        lemma_u64_shl_is_mul(base as u64, sh as u64);
        assert(u == p * d) by (nonlinear_arith)
            requires
                d * p == u,
        ;
        assert(base * u == p * (base * d)) by (nonlinear_arith)
            requires
                u == p * d,
        ;
        assert(p * (base * d + k) == p * (base * d) + k * p) by (nonlinear_arith);
        assert(p * (base * d - k) == p * (base * d) - k * p) by (nonlinear_arith);
        lemma_round_scaling(base * d + k, d, p);
        lemma_round_scaling(base * d - k, d, p);
    }
    let den: u64 = 1u64 << sh;
    let anchor: u64 = (base as u64) << sh;
    let prod: u64 = (m as u64) * (width as u64);
    assert(prod == k) by (nonlinear_arith)
        requires
            prod == m as int * width as int,
            k == width as int * m as int,
    ;
    if down && prod > anchor {
        proof {
            lemma_round_exact(0, d);
            lemma_round_monotone(base * d - k, 0 * d, d);
        }
        return 0;
    }
    let num: u64 = if down { anchor - prod } else { anchor + prod };
    let total: u64 = 2 * num + den;
    let q: u64 = total >> (sh + 1);
    proof {
        lemma_u64_shr_is_div(total, (sh + 1) as u64);
        assert(pow2((sh + 1) as nat) == 2 * d);
        assert(q == round_half_away(num as int, d));
    }
    if q > 255 {
        255
    } else {
        q as u8
    }
}

} // verus!
