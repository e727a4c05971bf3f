use stylize::encode::{rgba_to_nchw, unit_from_byte};

fn bits(values: &[f32]) -> Vec<u32> {
    values.iter().map(|v| v.to_bits()).collect()
}

#[test]
fn white_pixel_encodes_to_ones() {
    let tensor = rgba_to_nchw(&vec![255, 255, 255, 255], 1, 1);
    assert_eq!(tensor, bits(&[1.0, 1.0, 1.0]));
}

#[test]
fn black_pixel_encodes_to_zeros() {
    let tensor = rgba_to_nchw(&vec![0, 0, 0, 255], 1, 1);
    assert_eq!(tensor, vec![0u32, 0, 0]);
}

#[test]
fn every_byte_encodes_as_its_binary32_quotient() {
    for b in 0..=255u8 {
        let expected = (b as f32 / 255.0).to_bits();
        assert_eq!(unit_from_byte(b), expected, "byte {}", b);
    }
}

#[test]
fn encoded_samples_are_nearest_to_the_exact_quotient() {
    for b in 0..=255u8 {
        let r = unit_from_byte(b);
        let exact = b as f64 / 255.0;
        let here = (f32::from_bits(r) as f64 - exact).abs();
        if r > 0 {
            let below = (f32::from_bits(r - 1) as f64 - exact).abs();
            assert!(here < below, "byte {}", b);
        }
        let above = (f32::from_bits(r + 1) as f64 - exact).abs();
        assert!(here < above, "byte {}", b);
    }
}

#[test]
fn encoded_samples_known_patterns() {
    assert_eq!(unit_from_byte(0), 0x0000_0000);
    assert_eq!(unit_from_byte(1), 0x3b80_8081);
    assert_eq!(unit_from_byte(51), 0x3e4c_cccd);
    assert_eq!(unit_from_byte(128), 0x3f00_8081);
    assert_eq!(unit_from_byte(255), 0x3f80_0000);
}

#[test]
fn encode_writes_three_planes_in_pixel_order() {
    // 2 x 2 image; the red, green and blue bytes of pixel i are 10i+1, 10i+2, 10i+3.
    let rgba: Vec<u8> = vec![1, 2, 3, 200, 11, 12, 13, 201, 21, 22, 23, 202, 31, 32, 33, 203];
    let tensor = rgba_to_nchw(&rgba, 2, 2);
    let expected: Vec<u32> = [1u8, 11, 21, 31, 2, 12, 22, 32, 3, 13, 23, 33]
        .iter()
        .map(|b| (*b as f32 / 255.0).to_bits())
        .collect();
    assert_eq!(tensor, expected);
}

#[test]
fn encode_does_not_read_alpha() {
    let a = rgba_to_nchw(&vec![9, 8, 7, 0, 6, 5, 4, 0], 2, 1);
    let b = rgba_to_nchw(&vec![9, 8, 7, 255, 6, 5, 4, 17], 2, 1);
    assert_eq!(a, b);
}

#[test]
fn empty_image_encodes_to_empty_tensor() {
    assert_eq!(rgba_to_nchw(&Vec::new(), 0, 0), Vec::<u32>::new());
    assert_eq!(rgba_to_nchw(&Vec::new(), 0, 7), Vec::<u32>::new());
    assert_eq!(rgba_to_nchw(&Vec::new(), 5, 0), Vec::<u32>::new());
}

#[test]
fn tensor_length_is_three_per_pixel() {
    for (w, h) in [(1usize, 1usize), (1, 5), (4, 3), (7, 2), (16, 16)] {
        let rgba = vec![77u8; 4 * w * h];
        assert_eq!(rgba_to_nchw(&rgba, w, h).len(), 3 * w * h);
    }
}

#[test]
fn encoded_samples_lie_between_zero_and_one() {
    for b in 0..=255u8 {
        let v = f32::from_bits(unit_from_byte(b));
        assert!(v >= 0.0 && v <= 1.0);
    }
}
