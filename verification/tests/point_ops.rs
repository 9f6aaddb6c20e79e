use glitch_core::point_ops::{add_noise, invert_channels, quantize};
use glitch_core::rng::RandomSource;

fn quantize_expected(v: u8, levels: usize) -> u8 {
    if levels <= 1 || levels >= 256 {
        return v;
    }
    let k = (levels - 1) as u32;
    let q = (2 * v as u32 * k + 255) / 510;
    (q * 255 / k) as u8
}

#[test]
fn invert_single_channel_exact() {
    let mut data = vec![10u8, 20, 30, 40, 250, 0, 128, 255];
    invert_channels(&mut data, &vec![0]);
    assert_eq!(data, vec![245, 20, 30, 40, 5, 0, 128, 255]);
}

#[test]
fn invert_involution_restores_buffer() {
    let original = vec![10u8, 20, 30, 40, 250, 0, 128, 255, 1, 2, 3, 4];
    let mut data = original.clone();
    let channels = vec![0, 2, 3];
    invert_channels(&mut data, &channels);
    assert_ne!(data, original);
    invert_channels(&mut data, &channels);
    assert_eq!(data, original);
}

#[test]
fn invert_ignores_out_of_range_channels() {
    let original = vec![10u8, 20, 30, 40];
    let mut data = original.clone();
    invert_channels(&mut data, &vec![4, 7, 100]);
    assert_eq!(data, original);
}

#[test]
fn invert_duplicate_entries_count_once() {
    let mut data = vec![10u8, 20, 30, 40];
    invert_channels(&mut data, &vec![1, 1]);
    assert_eq!(data, vec![10, 235, 30, 40]);
}

#[test]
fn quantize_two_levels_snaps_to_extremes() {
    let mut data = vec![200u8, 100, 10, 77];
    quantize(&mut data, 2);
    assert_eq!(data, vec![255, 0, 0, 77]);
}

#[test]
fn quantize_few_levels_matches_formula() {
    let original = vec![0u8, 37, 120, 9, 200, 255, 64, 255];
    for levels in [2usize, 3, 5, 17, 255] {
        let mut data = original.clone();
        quantize(&mut data, levels);
        for i in 0..data.len() {
            if i % 4 == 3 {
                assert_eq!(data[i], original[i]);
            } else {
                assert_eq!(data[i], quantize_expected(original[i], levels));
            }
        }
    }
}

#[test]
fn quantize_zero_and_one_levels_are_no_ops() {
    let original = vec![13u8, 37, 200, 9];
    let mut data = original.clone();
    quantize(&mut data, 0);
    assert_eq!(data, original);
    quantize(&mut data, 1);
    assert_eq!(data, original);
}

#[test]
fn quantize_fine_grids_are_identity() {
    let original: Vec<u8> = (0..=255u8).chain(0..=255u8).collect();
    for levels in [256usize, 257, 300, 100000] {
        let mut data = original.clone();
        quantize(&mut data, levels);
        assert_eq!(data, original);
    }
}

#[test]
fn noise_zero_amount_is_identity() {
    let original = vec![10u8, 20, 30, 40, 50, 60, 70, 80];
    let mut data = original.clone();
    let mut rng = RandomSource::new();
    add_noise(&mut data, 0, &mut rng);
    assert_eq!(data, original);
}

#[test]
fn noise_preserves_alpha_and_stays_in_bound() {
    let original: Vec<u8> = (0..64u8).collect();
    let mut data = original.clone();
    let mut rng = RandomSource::new();
    add_noise(&mut data, 10, &mut rng);
    assert_eq!(data.len(), original.len());
    for i in 0..data.len() {
        if i % 4 == 3 {
            assert_eq!(data[i], original[i]);
        } else {
            let lo = original[i].saturating_sub(9);
            let hi = original[i].saturating_add(9);
            assert!(data[i] >= lo && data[i] <= hi);
        }
    }
}
