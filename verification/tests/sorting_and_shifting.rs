use glitch_core::channel_shift::channel_shift;
use glitch_core::options::{ChannelShiftOptions, PixelSortOptions, ShiftDirection, SortChannel};
use glitch_core::pixel_sort::pixel_sort;
use glitch_core::rng::RandomSource;

#[test]
fn pixel_sort_two_ascending_pixels_stay_put() {
    // A 2-by-1 image whose pixels already ascend in brightness: sorting with
    // a zero threshold and zero minimum length leaves it unchanged.
    let original = vec![10u8, 10, 10, 255, 200, 200, 200, 255];
    let mut data = original.clone();
    let options = PixelSortOptions {
        threshold: 0,
        min_segment: 0,
        vertical: false,
        channel: SortChannel::Brightness,
    };
    pixel_sort(&mut data, 2, &options);
    assert_eq!(data, original);
}

#[test]
fn pixel_sort_sorts_run_before_final_pixel() {
    // Threshold 255: no metric exceeds it, so the only boundary is the final
    // pixel. The first two pixels form the segment and are sorted ascending;
    // the boundary pixel itself stays.
    let mut data = vec![
        200u8, 200, 200, 9, 100, 100, 100, 8, 50, 50, 50, 7,
    ];
    let options = PixelSortOptions {
        threshold: 255,
        min_segment: 0,
        vertical: false,
        channel: SortChannel::Brightness,
    };
    pixel_sort(&mut data, 3, &options);
    assert_eq!(
        data,
        vec![100, 100, 100, 8, 200, 200, 200, 9, 50, 50, 50, 7]
    );
}

#[test]
fn pixel_sort_short_runs_are_left_alone() {
    let original = vec![
        200u8, 200, 200, 9, 100, 100, 100, 8, 50, 50, 50, 7,
    ];
    let mut data = original.clone();
    let options = PixelSortOptions {
        threshold: 255,
        min_segment: 3,
        vertical: false,
        channel: SortChannel::Brightness,
    };
    pixel_sort(&mut data, 3, &options);
    assert_eq!(data, original);
}

#[test]
fn pixel_sort_vertical_column() {
    // A 1-by-3 column, same shape as the horizontal case.
    let mut data = vec![
        200u8, 200, 200, 9, 100, 100, 100, 8, 50, 50, 50, 7,
    ];
    let options = PixelSortOptions {
        threshold: 255,
        min_segment: 0,
        vertical: true,
        channel: SortChannel::Brightness,
    };
    pixel_sort(&mut data, 1, &options);
    assert_eq!(
        data,
        vec![100, 100, 100, 8, 200, 200, 200, 9, 50, 50, 50, 7]
    );
}

#[test]
fn pixel_sort_keeps_row_pixel_multiset() {
    let original = vec![
        9u8, 1, 1, 255, 7, 2, 2, 254, 8, 3, 3, 253, 1, 4, 4, 252,
    ];
    let mut data = original.clone();
    let options = PixelSortOptions {
        threshold: 200,
        min_segment: 0,
        vertical: false,
        channel: SortChannel::Red,
    };
    pixel_sort(&mut data, 4, &options);
    let mut before: Vec<[u8; 4]> = original.chunks(4).map(|c| [c[0], c[1], c[2], c[3]]).collect();
    let mut after: Vec<[u8; 4]> = data.chunks(4).map(|c| [c[0], c[1], c[2], c[3]]).collect();
    before.sort();
    after.sort();
    assert_eq!(before, after);
}

#[test]
fn pixel_sort_uses_selected_channel_metric() {
    // Sort by the green channel: red values stay attached to their pixels.
    let mut data = vec![
        1u8, 200, 0, 255, 2, 100, 0, 255, 3, 0, 0, 255,
    ];
    let options = PixelSortOptions {
        threshold: 255,
        min_segment: 0,
        vertical: false,
        channel: SortChannel::Green,
    };
    pixel_sort(&mut data, 3, &options);
    assert_eq!(data, vec![2, 100, 0, 255, 1, 200, 0, 255, 3, 0, 0, 255]);
}

#[test]
fn channel_shift_zero_distance_is_identity() {
    let original = vec![1u8, 2, 3, 4, 5, 6, 7, 8, 9, 10, 11, 12];
    let mut data = original.clone();
    let mut rng = RandomSource::new();
    let options = ChannelShiftOptions { shift: 0, channels: None, direction: None };
    channel_shift(&mut data, &options, &mut rng);
    assert_eq!(data, original);
}

#[test]
fn channel_shift_right_reads_from_later_pixels() {
    let mut data = vec![1u8, 2, 3, 4, 5, 6, 7, 8, 9, 10, 11, 12];
    let mut rng = RandomSource::new();
    let options = ChannelShiftOptions {
        shift: 1,
        channels: Some(vec![0]),
        direction: Some(ShiftDirection::Right),
    };
    channel_shift(&mut data, &options, &mut rng);
    assert_eq!(data, vec![5, 2, 3, 4, 9, 6, 7, 8, 1, 10, 11, 12]);
}

#[test]
fn channel_shift_left_reads_from_earlier_pixels() {
    let mut data = vec![1u8, 2, 3, 4, 5, 6, 7, 8, 9, 10, 11, 12];
    let mut rng = RandomSource::new();
    let options = ChannelShiftOptions {
        shift: 1,
        channels: Some(vec![0]),
        direction: Some(ShiftDirection::Left),
    };
    channel_shift(&mut data, &options, &mut rng);
    assert_eq!(data, vec![9, 2, 3, 4, 1, 6, 7, 8, 5, 10, 11, 12]);
}

#[test]
fn channel_shift_skips_alpha_entries() {
    let original = vec![1u8, 2, 3, 4, 5, 6, 7, 8];
    let mut data = original.clone();
    let mut rng = RandomSource::new();
    let options = ChannelShiftOptions {
        shift: 1,
        channels: Some(vec![3]),
        direction: Some(ShiftDirection::Right),
    };
    channel_shift(&mut data, &options, &mut rng);
    assert_eq!(data, original);
}

#[test]
fn channel_shift_default_channels_rotate_rgb() {
    let mut data = vec![1u8, 2, 3, 4, 5, 6, 7, 8];
    let mut rng = RandomSource::new();
    let options = ChannelShiftOptions {
        shift: 1,
        channels: None,
        direction: Some(ShiftDirection::Right),
    };
    channel_shift(&mut data, &options, &mut rng);
    assert_eq!(data, vec![5, 6, 7, 4, 1, 2, 3, 8]);
}

#[test]
fn channel_shift_wraps_distances_beyond_the_pixel_count() {
    let mut a = vec![1u8, 2, 3, 4, 5, 6, 7, 8, 9, 10, 11, 12];
    let mut b = a.clone();
    let mut rng = RandomSource::new();
    let opts_wrapped = ChannelShiftOptions {
        shift: 4,
        channels: Some(vec![0, 1, 2]),
        direction: Some(ShiftDirection::Right),
    };
    let opts_once = ChannelShiftOptions {
        shift: 1,
        channels: Some(vec![0, 1, 2]),
        direction: Some(ShiftDirection::Right),
    };
    channel_shift(&mut a, &opts_wrapped, &mut rng);
    channel_shift(&mut b, &opts_once, &mut rng);
    assert_eq!(a, b);
}
