use glitch_core::byte_corrupt::byte_corrupt;
use glitch_core::chunk_swap::{chunk_swap, swap_chunks};
use glitch_core::data_bend::{
    bend_duplicate, bend_reverse, bend_shift, data_bend, ChannelSet,
};
use glitch_core::options::{
    BendChannel, BendMode, ByteCorruptOptions, ChunkSwapOptions, CorruptMode, DataBendOptions,
};
use glitch_core::rng::RandomSource;

fn all_channels() -> ChannelSet {
    ChannelSet { r: true, g: true, b: true, a: true }
}

fn class_histograms(data: &[u8]) -> [Vec<u8>; 4] {
    let mut out = [vec![], vec![], vec![], vec![]];
    for (i, &b) in data.iter().enumerate() {
        out[i % 4].push(b);
    }
    for v in out.iter_mut() {
        v.sort();
    }
    out
}

#[test]
fn swap_chunks_exchanges_disjoint_ranges() {
    let mut data: Vec<u8> = (0..16u8).collect();
    swap_chunks(&mut data, 0, 8, 4, false);
    assert_eq!(
        data,
        vec![8, 9, 10, 11, 4, 5, 6, 7, 0, 1, 2, 3, 12, 13, 14, 15]
    );
}

#[test]
fn swap_chunks_twice_restores_buffer() {
    let original: Vec<u8> = (0..32u8).collect();
    let mut data = original.clone();
    swap_chunks(&mut data, 4, 20, 8, false);
    assert_ne!(data, original);
    swap_chunks(&mut data, 4, 20, 8, false);
    assert_eq!(data, original);
}

#[test]
fn swap_chunks_preserving_alpha_keeps_alpha_bytes() {
    let mut data: Vec<u8> = (0..16u8).collect();
    swap_chunks(&mut data, 0, 8, 4, true);
    assert_eq!(
        data,
        vec![8, 9, 10, 3, 4, 5, 6, 7, 0, 1, 2, 11, 12, 13, 14, 15]
    );
}

#[test]
fn chunk_swap_keeps_channel_value_multisets() {
    let original: Vec<u8> = (0..128u8).collect();
    let mut data = original.clone();
    let mut rng = RandomSource::new();
    let options = ChunkSwapOptions { swaps: 5, chunk_percent: Some(100), preserve_alpha: false };
    chunk_swap(&mut data, 8, &options, &mut rng);
    assert_eq!(class_histograms(&data), class_histograms(&original));
}

#[test]
fn chunk_swap_preserve_alpha_leaves_alpha_untouched() {
    let original: Vec<u8> = (0..128u8).collect();
    let mut data = original.clone();
    let mut rng = RandomSource::new();
    let options = ChunkSwapOptions { swaps: 8, chunk_percent: None, preserve_alpha: true };
    chunk_swap(&mut data, 8, &options, &mut rng);
    for i in (3..data.len()).step_by(4) {
        assert_eq!(data[i], original[i]);
    }
}

#[test]
fn bend_duplicate_copies_chunk_forward() {
    let mut data: Vec<u8> = (0..24u8).collect();
    bend_duplicate(&mut data, 0, 8, all_channels());
    assert_eq!(
        data,
        vec![0, 1, 2, 3, 4, 5, 6, 7, 0, 1, 2, 3, 4, 5, 6, 7, 16, 17, 18, 19, 20, 21, 22, 23]
    );
}

#[test]
fn bend_duplicate_touches_only_selected_channel() {
    let mut data: Vec<u8> = (0..16u8).collect();
    let red = ChannelSet { r: true, g: false, b: false, a: false };
    bend_duplicate(&mut data, 0, 4, red);
    assert_eq!(data, vec![0, 1, 2, 3, 0, 5, 6, 7, 8, 9, 10, 11, 12, 13, 14, 15]);
}

#[test]
fn bend_reverse_reverses_pixel_order() {
    let mut data: Vec<u8> = (0..12u8).collect();
    bend_reverse(&mut data, 0, 12, all_channels());
    assert_eq!(data, vec![8, 9, 10, 11, 4, 5, 6, 7, 0, 1, 2, 3]);
}

#[test]
fn bend_shift_rotates_chunk_left() {
    let mut data: Vec<u8> = (0..16u8).collect();
    bend_shift(&mut data, 0, 12, 4, all_channels());
    assert_eq!(data, vec![4, 5, 6, 7, 8, 9, 10, 11, 0, 1, 2, 3, 12, 13, 14, 15]);
}

#[test]
fn data_bend_single_channel_leaves_others() {
    let original: Vec<u8> = (0..200u8).collect();
    let mut data = original.clone();
    let mut rng = RandomSource::new();
    let options = DataBendOptions {
        iterations: 20,
        mode: None,
        max_chunk: Some(60),
        channel: Some(BendChannel::Green),
    };
    data_bend(&mut data, &options, &mut rng);
    for i in 0..data.len() {
        if i % 4 != 1 {
            assert_eq!(data[i], original[i]);
        }
    }
}

#[test]
fn data_bend_scramble_keeps_channel_value_multisets() {
    let original: Vec<u8> = (0..240u8).collect();
    let mut data = original.clone();
    let mut rng = RandomSource::new();
    let options = DataBendOptions {
        iterations: 30,
        mode: Some(BendMode::Scramble),
        max_chunk: Some(80),
        channel: None,
    };
    data_bend(&mut data, &options, &mut rng);
    assert_eq!(class_histograms(&data), class_histograms(&original));
}

#[test]
fn data_bend_reverse_keeps_channel_value_multisets() {
    let original: Vec<u8> = (0..240u8).collect();
    let mut data = original.clone();
    let mut rng = RandomSource::new();
    let options = DataBendOptions {
        iterations: 30,
        mode: Some(BendMode::Reverse),
        max_chunk: Some(80),
        channel: None,
    };
    data_bend(&mut data, &options, &mut rng);
    assert_eq!(class_histograms(&data), class_histograms(&original));
}

#[test]
fn data_bend_shift_keeps_channel_value_multisets() {
    let original: Vec<u8> = (0..240u8).collect();
    let mut data = original.clone();
    let mut rng = RandomSource::new();
    let options = DataBendOptions {
        iterations: 30,
        mode: Some(BendMode::Shift),
        max_chunk: Some(80),
        channel: None,
    };
    data_bend(&mut data, &options, &mut rng);
    assert_eq!(class_histograms(&data), class_histograms(&original));
}

#[test]
fn byte_corrupt_zero_intensity_is_identity() {
    let original: Vec<u8> = (0..64u8).collect();
    let mut data = original.clone();
    let mut rng = RandomSource::new();
    let options = ByteCorruptOptions {
        intensity: 0,
        mode: None,
        block_size: Some(4),
        structured: false,
    };
    byte_corrupt(&mut data, &options, &mut rng);
    assert_eq!(data, original);
}

#[test]
fn byte_corrupt_zero_mode_only_zeroes() {
    let original: Vec<u8> = (1..=200u8).chain(1..=56u8).collect();
    let mut data = original.clone();
    let mut rng = RandomSource::new();
    let options = ByteCorruptOptions {
        intensity: 50,
        mode: Some(CorruptMode::Zero),
        block_size: Some(3),
        structured: false,
    };
    byte_corrupt(&mut data, &options, &mut rng);
    for i in 0..data.len() {
        assert!(data[i] == original[i] || data[i] == 0);
    }
}

#[test]
fn byte_corrupt_max_mode_only_maxes_structured() {
    let original: Vec<u8> = (0..=199u8).collect();
    let mut data = original.clone();
    let mut rng = RandomSource::new();
    let options = ByteCorruptOptions {
        intensity: 1000,
        mode: Some(CorruptMode::Max),
        block_size: None,
        structured: true,
    };
    byte_corrupt(&mut data, &options, &mut rng);
    for i in 0..data.len() {
        assert!(data[i] == original[i] || data[i] == 255);
    }
}

#[test]
fn corrupt_block_zero_mode_zeroes_exact_span() {
    let mut data: Vec<u8> = (1..=12u8).collect();
    let mut rng = RandomSource::new();
    glitch_core::byte_corrupt::corrupt_block(&mut data, 4, 3, CorruptMode::Zero, &mut rng);
    assert_eq!(data, vec![1, 2, 3, 4, 0, 0, 0, 8, 9, 10, 11, 12]);
}

#[test]
fn corrupt_block_truncates_at_buffer_end() {
    let mut data: Vec<u8> = (1..=8u8).collect();
    let mut rng = RandomSource::new();
    glitch_core::byte_corrupt::corrupt_block(&mut data, 6, 10, CorruptMode::Max, &mut rng);
    assert_eq!(data, vec![1, 2, 3, 4, 5, 6, 255, 255]);
}

#[test]
fn corrupt_block_flip_bit_changes_one_bit() {
    let mut data = vec![0u8, 0, 0, 0];
    let mut rng = RandomSource::new();
    glitch_core::byte_corrupt::corrupt_block(&mut data, 1, 1, CorruptMode::FlipBit, &mut rng);
    assert_eq!(data[0], 0);
    assert_eq!(data[2], 0);
    assert_eq!(data[3], 0);
    assert_eq!(data[1].count_ones(), 1);
}

#[test]
fn data_bend_zero_iterations_is_identity() {
    let original: Vec<u8> = (0..64u8).collect();
    let mut data = original.clone();
    let mut rng = RandomSource::new();
    let options = DataBendOptions { iterations: 0, mode: None, max_chunk: None, channel: None };
    data_bend(&mut data, &options, &mut rng);
    assert_eq!(data, original);
}

#[test]
fn chunk_swap_zero_swaps_is_identity() {
    let original: Vec<u8> = (0..128u8).collect();
    let mut data = original.clone();
    let mut rng = RandomSource::new();
    let options = ChunkSwapOptions { swaps: 0, chunk_percent: None, preserve_alpha: false };
    chunk_swap(&mut data, 8, &options, &mut rng);
    assert_eq!(data, original);
}

#[test]
fn chunk_swap_empty_buffer_is_identity() {
    let mut data: Vec<u8> = vec![];
    let mut rng = RandomSource::new();
    let options = ChunkSwapOptions { swaps: 5, chunk_percent: None, preserve_alpha: false };
    chunk_swap(&mut data, 1, &options, &mut rng);
    assert_eq!(data, Vec::<u8>::new());
}

#[test]
fn chunk_swap_single_pixel_is_identity() {
    // Four bytes: the chunk clamps to an eighth of the buffer, zero bytes,
    // so every swap exchanges nothing.
    let original: Vec<u8> = vec![9, 8, 7, 6];
    let mut data = original.clone();
    let mut rng = RandomSource::new();
    let options = ChunkSwapOptions { swaps: 5, chunk_percent: None, preserve_alpha: false };
    chunk_swap(&mut data, 1, &options, &mut rng);
    assert_eq!(data, original);
}

#[test]
fn byte_corrupt_extent_is_bounded() {
    // 400 bytes at a rate of 10 per mille gives 4 corruptions of 2 bytes:
    // at most 8 bytes may differ.
    let original: Vec<u8> = (1..=200u8).chain(1..=200u8).collect();
    let mut data = original.clone();
    let mut rng = RandomSource::new();
    let options = ByteCorruptOptions {
        intensity: 10,
        mode: Some(CorruptMode::Zero),
        block_size: Some(2),
        structured: false,
    };
    byte_corrupt(&mut data, &options, &mut rng);
    let changed = data.iter().zip(original.iter()).filter(|(a, b)| a != b).count();
    assert!(changed <= 8);
}

#[test]
fn byte_corrupt_unstructured_zero_mode_really_zeroes() {
    // 400 non-zero bytes at the capped rate give exactly 20 zeroing
    // corruptions of one byte: afterwards between 1 and 20 bytes are zero.
    let original: Vec<u8> = (1..=200u8).chain(1..=200u8).collect();
    let mut data = original.clone();
    let mut rng = RandomSource::new();
    let options = ByteCorruptOptions {
        intensity: 1000,
        mode: Some(CorruptMode::Zero),
        block_size: Some(1),
        structured: false,
    };
    byte_corrupt(&mut data, &options, &mut rng);
    let zeros = data.iter().filter(|&&b| b == 0).count();
    assert!(1 <= zeros && zeros <= 20);
}
