use vstd::prelude::*;

verus! {

/// The per-pixel metric that PixelSort segments and orders by: one colour
/// channel, or the mean brightness of the three.
#[derive(Clone, Copy, PartialEq, Eq, Structural, Debug)]
pub enum SortChannel {
    Red,
    Green,
    Blue,
    Brightness,
}

/// The operation DataBend applies to one chunk.
#[derive(Clone, Copy, PartialEq, Eq, Structural, Debug)]
pub enum BendMode {
    Duplicate,
    Reverse,
    Shift,
    Scramble,
}

/// A single channel that DataBend may restrict itself to.
#[derive(Clone, Copy, PartialEq, Eq, Structural, Debug)]
pub enum BendChannel {
    Red,
    Green,
    Blue,
    Alpha,
}

/// The direction ChannelShift rotates in.
#[derive(Clone, Copy, PartialEq, Eq, Structural, Debug)]
pub enum ShiftDirection {
    Left,
    Right,
}

/// How ByteCorrupt rewrites a corrupted byte.
#[derive(Clone, Copy, PartialEq, Eq, Structural, Debug)]
pub enum CorruptMode {
    Randomize,
    FlipBit,
    Zero,
    Max,
}

/// The spatial pattern BinaryXor applies its mask with.
#[derive(Clone, Copy, PartialEq, Eq, Structural, Debug)]
pub enum XorMode {
    Full,
    HorizontalBands,
    VerticalBands,
    Blocks,
}

/// The per-channel compositing formula ImageBlend uses.
#[derive(Clone, Copy, PartialEq, Eq, Structural, Debug)]
pub enum BlendMode {
    Mix,
    Difference,
    Multiply,
    Screen,
    Overlay,
}

/// Options for PixelSort. Fractional amounts of the host interface arrive
/// here already scaled to the integers the algorithm works in: `threshold`
/// is the boundary fraction scaled by 255, `min_segment` is the intensity
/// fraction scaled by 100 (a minimum run length in pixels).
#[derive(Clone, Debug)]
pub struct PixelSortOptions {
    pub threshold: u8,
    pub min_segment: usize,
    pub vertical: bool,
    pub channel: SortChannel,
}

/// Options for DataBend. `iterations` is the amount fraction scaled by 200;
/// `max_chunk` is the relative chunk size scaled by 500 bytes (absent: 250).
/// An absent `mode` draws one uniformly per iteration; an absent `channel`
/// affects all four.
#[derive(Clone, Debug)]
pub struct DataBendOptions {
    pub iterations: usize,
    pub mode: Option<BendMode>,
    pub max_chunk: Option<usize>,
    pub channel: Option<BendChannel>,
}

/// Options for ChannelShift. `shift` is the amount fraction scaled by 30
/// (a rotation distance in pixels). An absent channel list means R, G and B;
/// entries of 3 or more are ignored (alpha is never eligible). An absent
/// direction is drawn uniformly.
#[derive(Clone, Debug)]
pub struct ChannelShiftOptions {
    pub shift: usize,
    pub channels: Option<Vec<usize>>,
    pub direction: Option<ShiftDirection>,
}

/// Options for ByteCorrupt. `intensity` is the corruption rate in
/// thousandths of the buffer length; anything above 50 (five percent) is
/// capped there. An absent `mode` is drawn at random; an absent
/// `block_size` means single bytes.
#[derive(Clone, Debug)]
pub struct ByteCorruptOptions {
    pub intensity: usize,
    pub mode: Option<CorruptMode>,
    pub block_size: Option<usize>,
    pub structured: bool,
}

/// Options for ChunkSwap. `swaps` is the amount fraction scaled by 10;
/// `chunk_percent` scales the base chunk (five percent of the pixel count)
/// in hundredths (absent: 50; values above 100 count as 100).
#[derive(Clone, Debug)]
pub struct ChunkSwapOptions {
    pub swaps: usize,
    pub chunk_percent: Option<usize>,
    pub preserve_alpha: bool,
}

/// Options for BinaryXor. `strength` is the strength fraction scaled by
/// 255. An absent `pattern` is generated at random with
/// `8 * strength / 255 + 1` bytes. An absent `mode` means the full image.
#[derive(Clone, Debug)]
pub struct BinaryXorOptions {
    pub pattern: Option<Vec<u8>>,
    pub strength: u8,
    pub mode: Option<XorMode>,
}

/// Options for ImageBlend. `amount` is the blend fraction scaled by 255.
/// `width` and `height` declare the dimensions of `secondary_data`; when
/// they do not match its length the effect leaves the buffer unchanged.
#[derive(Clone, Debug)]
pub struct ImageBlendOptions {
    pub secondary_data: Vec<u8>,
    pub width: u32,
    pub height: u32,
    pub blend_mode: BlendMode,
    pub amount: u8,
    pub offset_x: i32,
    pub offset_y: i32,
}

/// The composite configuration: one optional record per effect; an absent
/// record means the effect is skipped.
#[derive(Clone, Debug)]
pub struct GlitchOptions {
    pub pixel_sort: Option<PixelSortOptions>,
    pub data_bend: Option<DataBendOptions>,
    pub channel_shift: Option<ChannelShiftOptions>,
    pub noise: Option<u8>,
    pub invert: Option<Vec<usize>>,
    pub quantize: Option<usize>,
    pub byte_corrupt: Option<ByteCorruptOptions>,
    pub chunk_swap: Option<ChunkSwapOptions>,
    pub binary_xor: Option<BinaryXorOptions>,
    pub image_blend: Option<ImageBlendOptions>,
}

} // verus!
