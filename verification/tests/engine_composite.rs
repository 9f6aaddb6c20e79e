use glitch_core::options::{
    BinaryXorOptions, GlitchOptions, PixelSortOptions, SortChannel, XorMode,
};
use glitch_core::{GlitchEffect, GlitchError};

fn empty_options() -> GlitchOptions {
    GlitchOptions {
        pixel_sort: None,
        data_bend: None,
        channel_shift: None,
        noise: None,
        invert: None,
        quantize: None,
        byte_corrupt: None,
        chunk_swap: None,
        binary_xor: None,
        image_blend: None,
    }
}

#[test]
fn apply_effects_rejects_mismatched_dimensions() {
    let original = vec![0u8; 16];
    let mut data = original.clone();
    let mut engine = GlitchEffect::new();
    let r = engine.apply_effects(&mut data, 3, 2, &empty_options());
    assert_eq!(r, Err(GlitchError::InvalidBufferLength));
    assert_eq!(data, original);
}

#[test]
fn apply_effects_rejects_zero_width() {
    let mut data = vec![];
    let mut engine = GlitchEffect::new();
    let r = engine.apply_effects(&mut data, 0, 0, &empty_options());
    assert_eq!(r, Err(GlitchError::InvalidBufferLength));
}

#[test]
fn apply_effects_with_no_effects_is_identity() {
    let original: Vec<u8> = (0..24u8).collect();
    let mut data = original.clone();
    let mut engine = GlitchEffect::new();
    let r = engine.apply_effects(&mut data, 3, 2, &empty_options());
    assert_eq!(r, Ok(()));
    assert_eq!(data, original);
}

#[test]
fn apply_effects_runs_present_effects() {
    let original: Vec<u8> = (0..16u8).collect();
    let mut data = original.clone();
    let mut engine = GlitchEffect::new();
    let mut options = empty_options();
    options.invert = Some(vec![0]);
    let r = engine.apply_effects(&mut data, 2, 2, &options);
    assert_eq!(r, Ok(()));
    for i in 0..data.len() {
        if i % 4 == 0 {
            assert_eq!(data[i], 255 - original[i]);
        } else {
            assert_eq!(data[i], original[i]);
        }
    }
}

#[test]
fn apply_effects_composes_in_fixed_order() {
    // Inversion runs before the XOR pass, so the result is (255 - v) ^ m,
    // not 255 - (v ^ m).
    let original: Vec<u8> = (0..16u8).collect();
    let mut data = original.clone();
    let mut engine = GlitchEffect::new();
    let mut options = empty_options();
    options.invert = Some(vec![0, 1, 2, 3]);
    options.binary_xor = Some(BinaryXorOptions {
        pattern: Some(vec![0x0F]),
        strength: 255,
        mode: Some(XorMode::Full),
    });
    let r = engine.apply_effects(&mut data, 2, 2, &options);
    assert_eq!(r, Ok(()));
    for i in 0..data.len() {
        assert_eq!(data[i], (255 - original[i]) ^ 0x0F);
    }
}

#[test]
fn engine_methods_mirror_the_module_operations() {
    let mut a = vec![
        200u8, 200, 200, 9, 100, 100, 100, 8, 50, 50, 50, 7,
    ];
    let mut b = a.clone();
    let mut engine = GlitchEffect::new();
    engine.pixel_sort(&mut a, 3, 0, 255, false, SortChannel::Brightness);
    let options = PixelSortOptions {
        threshold: 255,
        min_segment: 0,
        vertical: false,
        channel: SortChannel::Brightness,
    };
    glitch_core::pixel_sort::pixel_sort(&mut b, 3, &options);
    assert_eq!(a, b);
    assert_eq!(a, vec![100, 100, 100, 8, 200, 200, 200, 9, 50, 50, 50, 7]);
}

#[test]
fn engine_quantize_and_invert_do_not_consume_randomness() {
    let mut engine = GlitchEffect::new();
    let mut data = vec![200u8, 100, 10, 77];
    engine.quantize(&mut data, 2);
    assert_eq!(data, vec![255, 0, 0, 77]);
    engine.invert_channels(&mut data, &vec![1]);
    assert_eq!(data, vec![255, 255, 0, 77]);
}

#[test]
fn engine_add_noise_zero_is_identity() {
    let mut engine = GlitchEffect::new();
    let original = vec![1u8, 2, 3, 4];
    let mut data = original.clone();
    engine.add_noise(&mut data, 0);
    assert_eq!(data, original);
}

#[test]
fn engine_byte_corrupt_zero_is_identity() {
    let mut engine = GlitchEffect::new();
    let original = vec![1u8, 2, 3, 4, 5, 6, 7, 8];
    let mut data = original.clone();
    engine.byte_corrupt(&mut data, 0, None, None, false);
    assert_eq!(data, original);
}

#[test]
fn engine_chunk_swap_keeps_length() {
    let mut engine = GlitchEffect::new();
    let mut data: Vec<u8> = (0..128u8).collect();
    engine.chunk_swap(&mut data, 8, 3, None, true);
    assert_eq!(data.len(), 128);
    for i in (3..128).step_by(4) {
        assert_eq!(data[i], i as u8);
    }
}

#[test]
fn engine_data_bend_respects_channel_restriction() {
    let mut engine = GlitchEffect::new();
    let original: Vec<u8> = (0..160u8).collect();
    let mut data = original.clone();
    engine.data_bend(&mut data, 10, None, Some(40), Some(glitch_core::BendChannel::Alpha));
    for i in 0..data.len() {
        if i % 4 != 3 {
            assert_eq!(data[i], original[i]);
        }
    }
}

#[test]
fn engine_image_blend_samples_secondary() {
    let mut engine = GlitchEffect::new();
    let mut data = vec![0u8, 0, 0, 9];
    let secondary = vec![10u8, 20, 30, 255];
    engine.image_blend(
        &mut data,
        1,
        &secondary,
        1,
        1,
        glitch_core::BlendMode::Mix,
        255,
        0,
        0,
    );
    assert_eq!(data, vec![10, 20, 30, 9]);
}

#[test]
fn engine_image_blend_skips_mismatched_secondary() {
    let mut engine = GlitchEffect::new();
    let original = vec![5u8, 6, 7, 8];
    let mut data = original.clone();
    engine.image_blend(&mut data, 1, &vec![1, 2], 1, 1, glitch_core::BlendMode::Mix, 255, 0, 0);
    assert_eq!(data, original);
}
