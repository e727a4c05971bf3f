use stylize::blend::{blend_channel, blend_with_original};
use stylize::mix::mix_byte;

/// The blend in double precision. The product of a binary32 strength and a
/// difference of bytes is exact there, and so is the sum wherever it can
/// come near a byte.
fn reference_blend(o: u8, t: u8, s: f32) -> u8 {
    if !s.is_finite() {
        return 0;
    }
    let x = o as f64 + s as f64 * (t as f64 - o as f64);
    x.round().clamp(0.0, 255.0) as u8
}

#[test]
fn white_over_black_at_half_strength() {
    let out = blend_with_original(&vec![255, 255, 255, 255], &vec![0, 0, 0, 255], 0.5f32.to_bits());
    assert_eq!(out, vec![128, 128, 128, 255]);
}

#[test]
fn strength_zero_gives_the_original() {
    let orig: Vec<u8> = vec![1, 2, 3, 4, 250, 128, 0, 9, 77, 255, 31, 0];
    let styl: Vec<u8> = vec![200, 100, 50, 25, 0, 255, 255, 255, 1, 1, 1, 1];
    for zero in [0.0f32.to_bits(), (-0.0f32).to_bits()] {
        let out = blend_with_original(&orig, &styl, zero);
        assert_eq!(out, vec![1, 2, 3, 255, 250, 128, 0, 255, 77, 255, 31, 255]);
    }
}

#[test]
fn strength_one_gives_the_stylized_image() {
    let orig: Vec<u8> = vec![1, 2, 3, 4, 250, 128, 0, 9, 77, 255, 31, 0];
    let styl: Vec<u8> = vec![200, 100, 50, 25, 0, 255, 255, 255, 1, 1, 1, 1];
    let out = blend_with_original(&orig, &styl, 1.0f32.to_bits());
    assert_eq!(out, vec![200, 100, 50, 255, 0, 255, 255, 255, 1, 1, 1, 255]);
}

#[test]
fn strength_zero_and_one_on_every_pair_of_bytes() {
    for o in 0..=255u8 {
        for t in 0..=255u8 {
            assert_eq!(blend_channel(o, t, 0.0f32.to_bits()), o);
            assert_eq!(blend_channel(o, t, 1.0f32.to_bits()), t);
        }
    }
}

#[test]
fn blend_exact_values() {
    // 0.75 * 10 + 0.25 * 20 = 12.5, half way: away from zero.
    assert_eq!(blend_channel(10, 20, 0.25f32.to_bits()), 13);
    // 0.75 * 20 + 0.25 * 10 = 17.5
    assert_eq!(blend_channel(20, 10, 0.25f32.to_bits()), 18);
    // 0.5 * 100 + 0.5 * 200 = 150
    assert_eq!(blend_channel(100, 200, 0.5f32.to_bits()), 150);
    // 0.875 * 0 + 0.125 * 255 = 31.875
    assert_eq!(blend_channel(0, 255, 0.125f32.to_bits()), 32);
    // 0.9 * 200 + 0.1 * 100 = 190, short of it by the error of 0.1 in binary32
    assert_eq!(blend_channel(200, 100, 0.1f32.to_bits()), 190);
}

#[test]
fn blend_is_monotonic_in_the_strength() {
    let pairs: [(u8, u8); 6] = [(0, 255), (255, 0), (10, 200), (200, 10), (100, 101), (101, 100)];
    for (o, t) in pairs {
        let mut last = blend_channel(o, t, (-0.5f32).to_bits());
        for step in 0..=4000u32 {
            let s = -0.5 + step as f32 * 0.0005;
            let now = blend_channel(o, t, s.to_bits());
            if t > o {
                assert!(now >= last, "o {} t {} s {}", o, t, s);
            } else {
                assert!(now <= last, "o {} t {} s {}", o, t, s);
            }
            last = now;
        }
    }
}

#[test]
fn blend_is_monotonic_over_neighbouring_strengths() {
    // Every binary32 strength in a stretch around one half.
    let start = 0.5f32.to_bits() - 3000;
    let mut last = blend_channel(3, 250, start);
    for s in start..start + 6000 {
        let now = blend_channel(3, 250, s);
        assert!(now >= last);
        last = now;
    }
}

#[test]
fn strength_outside_zero_to_one_is_clamped() {
    // 100 + 2 * (200 - 100) = 300
    assert_eq!(blend_channel(100, 200, 2.0f32.to_bits()), 255);
    // 100 - 1 * (200 - 100) = 0
    assert_eq!(blend_channel(100, 200, (-1.0f32).to_bits()), 0);
    // 100 - 0.5 * (200 - 100) = 50
    assert_eq!(blend_channel(100, 200, (-0.5f32).to_bits()), 50);
    // 200 + 1.5 * (100 - 200) = 50
    assert_eq!(blend_channel(200, 100, 1.5f32.to_bits()), 50);
    assert_eq!(blend_channel(200, 100, 3.0f32.to_bits()), 0);
    assert_eq!(blend_channel(100, 200, 1.0e30f32.to_bits()), 255);
    assert_eq!(blend_channel(200, 100, 1.0e30f32.to_bits()), 0);
    assert_eq!(blend_channel(100, 200, (-1.0e30f32).to_bits()), 0);
    assert_eq!(blend_channel(200, 100, (-1.0e30f32).to_bits()), 255);
    assert_eq!(blend_channel(123, 123, 1.0e30f32.to_bits()), 123);
    assert_eq!(blend_channel(123, 123, f32::MAX.to_bits()), 123);
}

#[test]
fn strength_without_a_value_gives_zero() {
    for s in [f32::NAN, f32::INFINITY, f32::NEG_INFINITY] {
        let out = blend_with_original(&vec![10, 20, 30, 40], &vec![50, 60, 70, 80], s.to_bits());
        assert_eq!(out, vec![0, 0, 0, 255]);
    }
    assert_eq!(blend_channel(9, 9, 0x7fc0_0000), 0);
}

#[test]
fn tiny_strength_leaves_the_original() {
    for s in [0x0000_0001u32, 0x007f_ffff, 0x0080_0000, 0x3000_0000, 0x8000_0001, 0xb000_0000] {
        assert_eq!(blend_channel(0, 255, s), 0);
        assert_eq!(blend_channel(255, 0, s), 255);
        assert_eq!(blend_channel(7, 200, s), 7);
    }
}

#[test]
fn blend_agrees_with_exact_arithmetic_on_a_sweep() {
    let bytes: [u8; 9] = [0, 1, 2, 63, 127, 128, 200, 254, 255];
    let mut pattern: u64 = 0;
    while pattern <= u32::MAX as u64 {
        let s = pattern as u32;
        for o in bytes {
            for t in bytes {
                assert_eq!(
                    blend_channel(o, t, s),
                    reference_blend(o, t, f32::from_bits(s)),
                    "o {} t {} strength {:#x}",
                    o,
                    t,
                    s
                );
            }
        }
        pattern += 1_000_003;
    }
}

#[test]
fn blend_agrees_with_exact_arithmetic_between_zero_and_one() {
    for step in 0..=1000u32 {
        let s = step as f32 / 1000.0;
        for o in (0..=255u8).step_by(5) {
            for t in (0..=255u8).step_by(3) {
                assert_eq!(blend_channel(o, t, s.to_bits()), reference_blend(o, t, s));
            }
        }
    }
}

#[test]
fn blend_agrees_with_exact_arithmetic_at_exponent_edges() {
    for e in 0..=254u32 {
        for f in [0u32, 1, 0x40_0000, 0x7f_ffff] {
            for sign in [0u32, 0x8000_0000] {
                let s = sign | (e << 23) | f;
                for (o, t) in [(0u8, 255u8), (255, 0), (1, 2), (2, 1), (128, 127), (0, 1), (1, 0)] {
                    assert_eq!(
                        blend_channel(o, t, s),
                        reference_blend(o, t, f32::from_bits(s)),
                        "o {} t {} strength {:#x}",
                        o,
                        t,
                        s
                    );
                }
            }
        }
    }
}

#[test]
fn blended_image_has_the_length_of_its_inputs() {
    for pixels in [0usize, 1, 2, 9, 64] {
        let orig = vec![5u8; 4 * pixels];
        let styl = vec![250u8; 4 * pixels];
        assert_eq!(blend_with_original(&orig, &styl, 0.3f32.to_bits()).len(), 4 * pixels);
    }
}

#[test]
fn blended_alpha_is_opaque_whatever_the_inputs_hold() {
    let out = blend_with_original(&vec![1, 2, 3, 0, 4, 5, 6, 0], &vec![9, 9, 9, 0, 9, 9, 9, 7], 0.5f32.to_bits());
    assert_eq!(out[3], 255);
    assert_eq!(out[7], 255);
}

#[test]
fn mix_moves_a_byte_by_a_multiple_of_the_sample() {
    // 10 + 4 * 2.5 = 20
    assert_eq!(mix_byte(10, 4, 2.5f32.to_bits()), 20);
    // 10 - 4 * 2.5 = 0
    assert_eq!(mix_byte(10, -4, 2.5f32.to_bits()), 0);
    // 10 - 4 * 2.375 = 0.5, half way: away from zero
    assert_eq!(mix_byte(10, -4, 2.375f32.to_bits()), 1);
    // 0 - 1 * 0.5 = -0.5, half way: away from zero, then clamped
    assert_eq!(mix_byte(0, -1, 0.5f32.to_bits()), 0);
    // 0 + 255 * 1 = 255
    assert_eq!(mix_byte(0, 255, 1.0f32.to_bits()), 255);
    // 255 + 255 * 1 = 510
    assert_eq!(mix_byte(255, 255, 1.0f32.to_bits()), 255);
    // 200 + 0 * anything = 200
    assert_eq!(mix_byte(200, 0, f32::MAX.to_bits()), 200);
    // 3 + 7 * (-0.0) = 3
    assert_eq!(mix_byte(3, 7, (-0.0f32).to_bits()), 3);
}

/// The blend carried out in binary32 arithmetic, each step rounded to
/// binary32.
fn binary32_blend(o: u8, t: u8, s: f32) -> u8 {
    let s1 = 1.0 - s;
    (s1 * o as f32 + s * t as f32).round().clamp(0.0, 255.0) as u8
}

#[test]
fn blend_agrees_with_binary32_arithmetic_where_that_is_exact() {
    // Strengths of a few bits: no step of the binary32 computation rounds.
    for k in -128..=256i32 {
        let s = k as f32 / 128.0;
        for o in 0..=255u8 {
            for t in 0..=255u8 {
                assert_eq!(
                    blend_channel(o, t, s.to_bits()),
                    binary32_blend(o, t, s),
                    "o {} t {} s {}",
                    o,
                    t,
                    s
                );
            }
        }
    }
}

#[test]
fn blend_stays_monotonic_where_binary32_arithmetic_does_not() {
    // Between these two neighbouring strengths the binary32 computation
    // falls from 8 to 7 although the stylized channel is the larger one.
    let low = 0x3e2a_aaa2u32;
    let high = 0x3e2a_aaa3u32;
    assert_eq!(binary32_blend(7, 10, f32::from_bits(low)), 8);
    assert_eq!(binary32_blend(7, 10, f32::from_bits(high)), 7);
    assert_eq!(blend_channel(7, 10, low), 7);
    assert_eq!(blend_channel(7, 10, high), 7);
    assert_eq!(reference_blend(7, 10, f32::from_bits(low)), 7);
}
