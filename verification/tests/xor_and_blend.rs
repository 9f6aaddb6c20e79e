use glitch_core::binary_xor::{binary_xor, binary_xor_with};
use glitch_core::image_blend::image_blend;
use glitch_core::options::{BinaryXorOptions, BlendMode, ImageBlendOptions, XorMode};
use glitch_core::rng::RandomSource;

#[test]
fn binary_xor_full_strength_applies_pattern_directly() {
    // At full strength the mask equals the pattern byte itself.
    let original = vec![1u8, 2, 3, 4, 5, 6, 7, 8];
    let mut data = original.clone();
    let pattern = vec![0xABu8, 0x3C];
    binary_xor_with(&mut data, 2, &pattern, 255, XorMode::Full);
    for i in 0..data.len() {
        assert_eq!(data[i], original[i] ^ pattern[i % 2]);
    }
}

#[test]
fn binary_xor_full_twice_restores_buffer() {
    let original: Vec<u8> = (0..64u8).collect();
    let mut data = original.clone();
    let mut rng = RandomSource::new();
    let options = BinaryXorOptions {
        pattern: Some(vec![0xAB, 0x3C, 0x77]),
        strength: 200,
        mode: Some(XorMode::Full),
    };
    binary_xor(&mut data, 4, &options, &mut rng);
    assert_ne!(data, original);
    binary_xor(&mut data, 4, &options, &mut rng);
    assert_eq!(data, original);
}

#[test]
fn binary_xor_empty_pattern_is_identity() {
    let original: Vec<u8> = (0..16u8).collect();
    let mut data = original.clone();
    let mut rng = RandomSource::new();
    let options = BinaryXorOptions { pattern: Some(vec![]), strength: 255, mode: None };
    binary_xor(&mut data, 2, &options, &mut rng);
    assert_eq!(data, original);
}

#[test]
fn binary_xor_scales_mask_by_strength() {
    // strength 128 on pattern byte 255: mask is 255 * 128 / 255 = 128.
    let mut data = vec![0u8, 0, 0, 0];
    let pattern = vec![255u8];
    binary_xor_with(&mut data, 1, &pattern, 128, XorMode::Full);
    assert_eq!(data, vec![128, 128, 128, 128]);
}

#[test]
fn binary_xor_horizontal_bands_spare_alpha() {
    // A 1-by-4 column, pattern of two bytes at full strength: rows 0 and 1
    // take the first pattern byte, rows 2 and 3 the second; alpha stays.
    let original: Vec<u8> = (0..16u8).collect();
    let mut data = original.clone();
    let pattern = vec![0xF0u8, 0x0F];
    binary_xor_with(&mut data, 1, &pattern, 255, XorMode::HorizontalBands);
    for i in 0..16 {
        let row = i / 4;
        let band_byte = if row < 2 { 0xF0 } else { 0x0F };
        if i % 4 == 3 {
            assert_eq!(data[i], original[i]);
        } else {
            assert_eq!(data[i], original[i] ^ band_byte);
        }
    }
}

#[test]
fn binary_xor_vertical_bands_split_by_column() {
    // A 4-by-1 row, two pattern bytes: columns 0-1 get the first byte,
    // columns 2-3 the second.
    let original: Vec<u8> = (0..16u8).collect();
    let mut data = original.clone();
    let pattern = vec![0x11u8, 0x22];
    binary_xor_with(&mut data, 4, &pattern, 255, XorMode::VerticalBands);
    for i in 0..16 {
        let col = i / 4;
        let band_byte = if col < 2 { 0x11 } else { 0x22 };
        if i % 4 == 3 {
            assert_eq!(data[i], original[i]);
        } else {
            assert_eq!(data[i], original[i] ^ band_byte);
        }
    }
}

#[test]
fn binary_xor_random_pattern_has_derived_length_effect() {
    // Strength 0 scales every mask byte to zero, whatever pattern was drawn.
    let original: Vec<u8> = (0..32u8).collect();
    let mut data = original.clone();
    let mut rng = RandomSource::new();
    let options = BinaryXorOptions { pattern: None, strength: 0, mode: None };
    binary_xor(&mut data, 2, &options, &mut rng);
    assert_eq!(data, original);
}

fn one_pixel_blend(mode: BlendMode, primary: [u8; 4], secondary: [u8; 4], amount: u8) -> Vec<u8> {
    let mut data = primary.to_vec();
    let options = ImageBlendOptions {
        secondary_data: secondary.to_vec(),
        width: 1,
        height: 1,
        blend_mode: mode,
        amount,
        offset_x: 0,
        offset_y: 0,
    };
    image_blend(&mut data, 1, &options);
    data
}

#[test]
fn image_blend_mix_full_amount_takes_secondary_rgb() {
    let out = one_pixel_blend(BlendMode::Mix, [100, 50, 200, 77], [200, 100, 50, 255], 255);
    assert_eq!(out, vec![200, 100, 50, 77]);
}

#[test]
fn image_blend_zero_amount_keeps_primary() {
    for mode in [
        BlendMode::Mix,
        BlendMode::Difference,
        BlendMode::Multiply,
        BlendMode::Screen,
        BlendMode::Overlay,
    ] {
        let out = one_pixel_blend(mode, [100, 50, 200, 77], [200, 100, 50, 255], 0);
        assert_eq!(out, vec![100, 50, 200, 77]);
    }
}

#[test]
fn image_blend_difference_full_amount() {
    let out = one_pixel_blend(BlendMode::Difference, [100, 50, 200, 77], [200, 100, 50, 255], 255);
    assert_eq!(out, vec![100, 50, 150, 77]);
}

#[test]
fn image_blend_multiply_full_amount() {
    let out = one_pixel_blend(BlendMode::Multiply, [100, 50, 200, 77], [200, 100, 50, 255], 255);
    assert_eq!(out, vec![(100 * 200 / 255) as u8, (50 * 100 / 255) as u8, (200 * 50 / 255) as u8, 77]);
}

#[test]
fn image_blend_screen_full_amount() {
    let out = one_pixel_blend(BlendMode::Screen, [100, 50, 200, 77], [200, 100, 50, 255], 255);
    let screen = |p: u32, s: u32| (255 - (255 - p) * (255 - s) / 255) as u8;
    assert_eq!(out, vec![screen(100, 200), screen(50, 100), screen(200, 50), 77]);
}

#[test]
fn image_blend_overlay_full_amount() {
    let out = one_pixel_blend(BlendMode::Overlay, [100, 50, 200, 77], [200, 100, 50, 255], 255);
    let overlay = |p: u32, s: u32| {
        if p < 128 {
            (2 * p * s / 255) as u8
        } else {
            (255 - 2 * (255 - p) * (255 - s) / 255) as u8
        }
    };
    assert_eq!(out, vec![overlay(100, 200), overlay(50, 100), overlay(200, 50), 77]);
}

#[test]
fn image_blend_mismatched_secondary_is_identity() {
    let original: Vec<u8> = (0..16u8).collect();
    let mut data = original.clone();
    let options = ImageBlendOptions {
        secondary_data: vec![1, 2, 3, 4],
        width: 2,
        height: 2,
        blend_mode: BlendMode::Mix,
        amount: 255,
        offset_x: 0,
        offset_y: 0,
    };
    image_blend(&mut data, 2, &options);
    assert_eq!(data, original);
}

#[test]
fn image_blend_offsets_wrap_around_secondary() {
    // A 2-by-1 secondary sampled with offset -1 wraps to the other column.
    let mut data = vec![0u8, 0, 0, 9, 0, 0, 0, 9];
    let options = ImageBlendOptions {
        secondary_data: vec![10, 11, 12, 255, 20, 21, 22, 255],
        width: 2,
        height: 1,
        blend_mode: BlendMode::Mix,
        amount: 255,
        offset_x: -1,
        offset_y: 0,
    };
    image_blend(&mut data, 2, &options);
    assert_eq!(data, vec![20, 21, 22, 9, 10, 11, 12, 9]);
}
