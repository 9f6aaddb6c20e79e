use vstd::prelude::*;
use crate::binary_xor;
use crate::buffer::channel_plane;
use crate::buffer::copy_bytes;
use crate::buffer::fits_width;
use crate::buffer::lemma_dims_to_fits;
use crate::buffer::rgba_len;
use crate::byte_corrupt;
use crate::byte_corrupt::block_span;
use crate::byte_corrupt::changes_covered;
use crate::byte_corrupt::corrupt_byte_stable;
use crate::byte_corrupt::forced_byte;
use crate::byte_corrupt::corruption_count;
use crate::channel_shift;
use crate::channel_shift::resolved_channels;
use crate::channel_shift::shifted_channels;
use crate::chunk_swap;
use crate::data_bend;
use crate::data_bend::bend_reachable;
use crate::data_bend::bend_selects;
use crate::data_bend::channel_set_spec;
use crate::image_blend;
use crate::image_blend::blended;
use crate::image_blend::secondary_ok;
use crate::options::BendChannel;
use crate::options::BendMode;
use crate::options::BinaryXorOptions;
use crate::options::BlendMode;
use crate::options::ByteCorruptOptions;
use crate::options::ChannelShiftOptions;
use crate::options::ChunkSwapOptions;
use crate::options::CorruptMode;
use crate::options::DataBendOptions;
use crate::options::GlitchOptions;
use crate::options::ImageBlendOptions;
use crate::options::PixelSortOptions;
use crate::options::ShiftDirection;
use crate::options::SortChannel;
use crate::options::XorMode;
use crate::pixel_sort;
use crate::pixel_sort::line_count;
use crate::pixel_sort::line_pixels;
use crate::pixel_sort::sorted_line;
use crate::point_ops;
use crate::point_ops::noise_byte_ok;
use crate::point_ops::quantized_byte;
use crate::rng::RandomSource;

verus! {

/// What the pixel-sort stage of the composite leaves: nothing when absent,
/// else what `pixel_sort::pixel_sort` guarantees.
pub open spec fn sort_stage(
    pre: Seq<u8>,
    post: Seq<u8>,
    width: u32,
    opt: Option<PixelSortOptions>,
) -> bool {
    match opt {
        None => post == pre,
        Some(o) => {
            &&& post.len() == pre.len()
            &&& forall|l: int|
                0 <= l < line_count(pre, width, o.vertical) ==> line_pixels(
                    post,
                    width,
                    o.vertical,
                    l,
                ) == sorted_line(
                    line_pixels(pre, width, o.vertical, l),
                    o.threshold,
                    o.min_segment as int,
                    o.channel,
                )
        },
    }
}

/// The data-bend stage: what `data_bend::data_bend` guarantees.
pub open spec fn bend_stage(pre: Seq<u8>, post: Seq<u8>, opt: Option<DataBendOptions>) -> bool {
    match opt {
        None => post == pre,
        Some(o) => {
            &&& post.len() == pre.len()
            &&& (o.iterations == 0 ==> post == pre)
            &&& forall|i: int|
                0 <= i < post.len() && !bend_selects(o.channel, i % 4) ==> post[i] == pre[i]
            &&& match o.mode {
                Some(m) => bend_reachable(
                    pre,
                    post,
                    m,
                    channel_set_spec(o.channel),
                    o.max_chunk,
                    o.iterations as nat,
                ),
                None => true,
            }
        },
    }
}

/// The channel-shift stage: what `channel_shift::channel_shift` guarantees.
pub open spec fn shift_stage(
    pre: Seq<u8>,
    post: Seq<u8>,
    opt: Option<ChannelShiftOptions>,
) -> bool {
    match opt {
        None => post == pre,
        Some(o) => {
            let chans = resolved_channels(o.channels);
            match o.direction {
                Some(ShiftDirection::Right) => post == shifted_channels(pre, chans, o.shift as int),
                Some(ShiftDirection::Left) => post == shifted_channels(
                    pre,
                    chans,
                    -(o.shift as int),
                ),
                None => post == shifted_channels(pre, chans, o.shift as int) || post
                    == shifted_channels(pre, chans, -(o.shift as int)),
            }
        },
    }
}

/// The noise stage: what `point_ops::add_noise` guarantees.
pub open spec fn noise_stage(pre: Seq<u8>, post: Seq<u8>, opt: Option<u8>) -> bool {
    match opt {
        None => post == pre,
        Some(a) => {
            &&& post.len() == pre.len()
            &&& (a == 0 ==> post == pre)
            &&& forall|i: int| 0 <= i < post.len() && i % 4 == 3 ==> post[i] == pre[i]
            &&& forall|i: int|
                0 <= i < post.len() && i % 4 != 3 && a > 0 ==> noise_byte_ok(pre[i], post[i], a)
        },
    }
}

/// The invert stage: what `point_ops::invert_channels` guarantees.
pub open spec fn invert_stage(pre: Seq<u8>, post: Seq<u8>, opt: Option<Vec<usize>>) -> bool {
    match opt {
        None => post == pre,
        Some(chs) => post == point_ops::inverted_buffer(pre, chs@),
    }
}

/// The quantize stage: what `point_ops::quantize` guarantees.
pub open spec fn quantize_stage(pre: Seq<u8>, post: Seq<u8>, opt: Option<usize>) -> bool {
    match opt {
        None => post == pre,
        Some(levels) => {
            &&& post.len() == pre.len()
            &&& forall|i: int|
                0 <= i < post.len() ==> post[i] == (if i % 4 == 3 {
                    pre[i]
                } else {
                    quantized_byte(pre[i], levels as int)
                })
        },
    }
}

/// The byte-corrupt stage: what `byte_corrupt::byte_corrupt` guarantees.
pub open spec fn corrupt_stage(pre: Seq<u8>, post: Seq<u8>, opt: Option<ByteCorruptOptions>) -> bool {
    match opt {
        None => post == pre,
        Some(o) => {
            &&& post.len() == pre.len()
            &&& (corruption_count(pre.len() as int, o.intensity as int) == 0 ==> post == pre)
            &&& forall|i: int|
                0 <= i < post.len() && o.mode is Some ==> corrupt_byte_stable(
                    pre[i],
                    post[i],
                    o.mode->0,
                )
            &&& exists|ps: Seq<int>|
                ps.len() <= corruption_count(pre.len() as int, o.intensity as int)
                    && changes_covered(pre, post, ps, block_span(o.block_size))
            &&& ((!o.structured && o.mode is Some && forced_byte(o.mode->0) is Some)
                ==> exists|ps: Seq<int>|
                {
                    &&& ps.len() == corruption_count(pre.len() as int, o.intensity as int)
                    &&& forall|k: int| 0 <= k < ps.len() ==> 0 <= #[trigger] ps[k] < post.len()
                    &&& forall|k: int, i: int|
                        #![trigger ps[k], post[i]]
                        0 <= k < ps.len() && ps[k] <= i < ps[k] + block_span(o.block_size) && 0
                            <= i < post.len() ==> post[i] == forced_byte(o.mode->0)->0
                    &&& changes_covered(pre, post, ps, block_span(o.block_size))
                })
        },
    }
}

/// The chunk-swap stage: what `chunk_swap::chunk_swap` guarantees.
pub open spec fn swap_stage(
    pre: Seq<u8>,
    post: Seq<u8>,
    width: u32,
    opt: Option<ChunkSwapOptions>,
) -> bool {
    match opt {
        None => post == pre,
        Some(o) => {
            &&& post.len() == pre.len()
            &&& forall|c: int|
                0 <= c < 4 ==> #[trigger] channel_plane(post, c).to_multiset() == channel_plane(
                    pre,
                    c,
                ).to_multiset()
            &&& (o.preserve_alpha ==> forall|i: int|
                0 <= i < post.len() && i % 4 == 3 ==> post[i] == pre[i])
            &&& (o.swaps == 0 ==> post == pre)
            &&& (chunk_swap::swaps_degenerate(pre.len() as int, width, o.chunk_percent) ==> post
                == pre)
        },
    }
}

/// The binary-XOR stage: what `binary_xor::binary_xor` guarantees.
pub open spec fn xor_stage(
    pre: Seq<u8>,
    post: Seq<u8>,
    width: u32,
    opt: Option<BinaryXorOptions>,
) -> bool {
    match opt {
        None => post == pre,
        Some(o) => {
            &&& post.len() == pre.len()
            &&& match o.pattern {
                Some(p) => {
                    if p@.len() > 0 {
                        post == binary_xor::xored(
                            pre,
                            width,
                            p@,
                            o.strength,
                            binary_xor::resolved_xor_mode(o.mode),
                        )
                    } else {
                        post == pre
                    }
                },
                None => exists|pat: Seq<u8>|
                    pat.len() == 8 * (o.strength as int) / 255 + 1 && post == binary_xor::xored(
                        pre,
                        width,
                        pat,
                        o.strength,
                        binary_xor::resolved_xor_mode(o.mode),
                    ),
            }
        },
    }
}

/// The image-blend stage: what `image_blend::image_blend` guarantees.
pub open spec fn blend_stage(
    pre: Seq<u8>,
    post: Seq<u8>,
    width: u32,
    opt: Option<ImageBlendOptions>,
) -> bool {
    match opt {
        None => post == pre,
        Some(o) => {
            &&& post.len() == pre.len()
            &&& (!secondary_ok(o) ==> post == pre)
            &&& (secondary_ok(o) ==> post == blended(pre, width, o))
        },
    }
}

/// The composite tail from binary-XOR on.
pub open spec fn chain_from_binary_xor(
    pre: Seq<u8>,
    post: Seq<u8>,
    width: u32,
    opts: GlitchOptions,
) -> bool {
    exists|t: Seq<u8>|
        #[trigger] xor_stage(pre, t, width, opts.binary_xor) && blend_stage(
            t,
            post,
            width,
            opts.image_blend,
        )
}

/// The composite tail from chunk-swap on.
pub open spec fn chain_from_chunk_swap(
    pre: Seq<u8>,
    post: Seq<u8>,
    width: u32,
    opts: GlitchOptions,
) -> bool {
    exists|t: Seq<u8>|
        #[trigger] swap_stage(pre, t, width, opts.chunk_swap) && chain_from_binary_xor(
            t,
            post,
            width,
            opts,
        )
}

/// The composite tail from byte-corrupt on.
pub open spec fn chain_from_byte_corrupt(
    pre: Seq<u8>,
    post: Seq<u8>,
    width: u32,
    opts: GlitchOptions,
) -> bool {
    exists|t: Seq<u8>|
        #[trigger] corrupt_stage(pre, t, opts.byte_corrupt) && chain_from_chunk_swap(
            t,
            post,
            width,
            opts,
        )
}

/// The composite tail from quantize on.
pub open spec fn chain_from_quantize(
    pre: Seq<u8>,
    post: Seq<u8>,
    width: u32,
    opts: GlitchOptions,
) -> bool {
    exists|t: Seq<u8>|
        #[trigger] quantize_stage(pre, t, opts.quantize) && chain_from_byte_corrupt(
            t,
            post,
            width,
            opts,
        )
}

/// The composite tail from invert on.
pub open spec fn chain_from_invert(
    pre: Seq<u8>,
    post: Seq<u8>,
    width: u32,
    opts: GlitchOptions,
) -> bool {
    exists|t: Seq<u8>|
        #[trigger] invert_stage(pre, t, opts.invert) && chain_from_quantize(t, post, width, opts)
}

/// The composite tail from noise on.
pub open spec fn chain_from_noise(
    pre: Seq<u8>,
    post: Seq<u8>,
    width: u32,
    opts: GlitchOptions,
) -> bool {
    exists|t: Seq<u8>|
        #[trigger] noise_stage(pre, t, opts.noise) && chain_from_invert(t, post, width, opts)
}

/// The composite tail from channel-shift on.
pub open spec fn chain_from_channel_shift(
    pre: Seq<u8>,
    post: Seq<u8>,
    width: u32,
    opts: GlitchOptions,
) -> bool {
    exists|t: Seq<u8>|
        #[trigger] shift_stage(pre, t, opts.channel_shift) && chain_from_noise(t, post, width, opts)
}

/// The composite tail from data-bend on.
pub open spec fn chain_from_data_bend(
    pre: Seq<u8>,
    post: Seq<u8>,
    width: u32,
    opts: GlitchOptions,
) -> bool {
    exists|t: Seq<u8>|
        #[trigger] bend_stage(pre, t, opts.data_bend) && chain_from_channel_shift(
            t,
            post,
            width,
            opts,
        )
}

/// The whole composite: intermediate buffers exist that carry `pre` to
/// `post` through each stage in the fixed order, every present effect
/// acting per its contract and every absent one leaving its input alone.
pub open spec fn composite_rel(
    pre: Seq<u8>,
    post: Seq<u8>,
    width: u32,
    opts: GlitchOptions,
) -> bool {
    exists|t: Seq<u8>|
        #[trigger] sort_stage(pre, t, width, opts.pixel_sort) && chain_from_data_bend(
            t,
            post,
            width,
            opts,
        )
}

/// The failure an effect run can surface: the buffer cannot be divided into
/// whole pixels of the declared dimensions, so no height is well defined
/// and no effect may proceed.
#[derive(Clone, Copy, PartialEq, Eq, Structural, Debug)]
pub enum GlitchError {
    InvalidBufferLength,
}

/// The engine: owns one random source that persists across effect calls.
pub struct GlitchEffect {
    rng: RandomSource,
}

impl GlitchEffect {
    /// A fresh engine with an entropy-seeded random source.
    pub fn new() -> GlitchEffect {
        GlitchEffect { rng: RandomSource::new() }
    }

    /// PixelSort over the buffer; see `pixel_sort::pixel_sort`.
    pub fn pixel_sort(
        &mut self,
        data: &mut Vec<u8>,
        width: u32,
        min_segment: usize,
        threshold: u8,
        vertical: bool,
        channel: SortChannel,
    )
        requires
            fits_width(old(data)@, width),
        ensures
            final(data)@.len() == old(data)@.len(),
            forall|l: int|
                0 <= l < line_count(old(data)@, width, vertical) ==> line_pixels(
                    final(data)@,
                    width,
                    vertical,
                    l,
                ) == sorted_line(
                    line_pixels(old(data)@, width, vertical, l),
                    threshold,
                    min_segment as int,
                    channel,
                ),
            forall|l: int|
                0 <= l < line_count(old(data)@, width, vertical) ==> line_pixels(
                    final(data)@,
                    width,
                    vertical,
                    l,
                ).to_multiset() == line_pixels(old(data)@, width, vertical, l).to_multiset(),
    {
        let options = PixelSortOptions { threshold, min_segment, vertical, channel };
        proof {
            assert(options.threshold == threshold && options.min_segment == min_segment
                && options.vertical == vertical && options.channel == channel);
        }
        pixel_sort::pixel_sort(data, width, &options);
    }

    /// DataBend over the buffer; see `data_bend::data_bend`.
    pub fn data_bend(
        &mut self,
        data: &mut Vec<u8>,
        iterations: usize,
        mode: Option<BendMode>,
        max_chunk: Option<usize>,
        channel: Option<BendChannel>,
    )
        requires
            rgba_len(old(data)@),
        ensures
            final(data)@.len() == old(data)@.len(),
            iterations == 0 ==> final(data)@ == old(data)@,
            forall|i: int|
                0 <= i < final(data)@.len() && !bend_selects(channel, i % 4) ==> final(data)@[i]
                    == old(data)@[i],
            match mode {
                Some(m) => bend_reachable(
                    old(data)@,
                    final(data)@,
                    m,
                    channel_set_spec(channel),
                    max_chunk,
                    iterations as nat,
                ),
                None => true,
            },
            (match mode {
                Some(m) => m is Reverse || m is Shift || m is Scramble,
                None => false,
            }) ==> forall|c: int|
                0 <= c < 4 ==> #[trigger] channel_plane(final(data)@, c).to_multiset()
                    == channel_plane(old(data)@, c).to_multiset(),
    {
        let options = DataBendOptions { iterations, mode, max_chunk, channel };
        proof {
            assert(options.iterations == iterations && options.mode == mode && options.max_chunk
                == max_chunk && options.channel == channel);
        }
        data_bend::data_bend(data, &options, &mut self.rng);
    }

    /// ChannelShift over the buffer; see `channel_shift::channel_shift`.
    pub fn channel_shift(
        &mut self,
        data: &mut Vec<u8>,
        shift: usize,
        channels: Option<Vec<usize>>,
        direction: Option<ShiftDirection>,
    )
        requires
            rgba_len(old(data)@),
        ensures
            final(data)@.len() == old(data)@.len(),
            ({
                let chans = resolved_channels(channels);
                match direction {
                    Some(ShiftDirection::Right) => final(data)@ == shifted_channels(
                        old(data)@,
                        chans,
                        shift as int,
                    ),
                    Some(ShiftDirection::Left) => final(data)@ == shifted_channels(
                        old(data)@,
                        chans,
                        -(shift as int),
                    ),
                    None => final(data)@ == shifted_channels(old(data)@, chans, shift as int)
                        || final(data)@ == shifted_channels(old(data)@, chans, -(shift as int)),
                }
            }),
    {
        let options = ChannelShiftOptions { shift, channels, direction };
        channel_shift::channel_shift(data, &options, &mut self.rng);
    }

    /// Noise over the buffer; see `point_ops::add_noise`.
    pub fn add_noise(&mut self, data: &mut Vec<u8>, amount: u8)
        requires
            rgba_len(old(data)@),
        ensures
            final(data)@.len() == old(data)@.len(),
            amount == 0 ==> final(data)@ == old(data)@,
            forall|i: int|
                0 <= i < final(data)@.len() && i % 4 == 3 ==> final(data)@[i] == old(data)@[i],
            forall|i: int|
                0 <= i < final(data)@.len() && i % 4 != 3 && amount > 0 ==> noise_byte_ok(
                    old(data)@[i],
                    final(data)@[i],
                    amount,
                ),
    {
        point_ops::add_noise(data, amount, &mut self.rng);
    }

    /// Invert over the buffer; see `point_ops::invert_channels`.
    pub fn invert_channels(&mut self, data: &mut Vec<u8>, channels: &Vec<usize>)
        requires
            rgba_len(old(data)@),
        ensures
            final(data)@.len() == old(data)@.len(),
            final(data)@ == point_ops::inverted_buffer(old(data)@, channels@),
    {
        point_ops::invert_channels(data, channels);
    }

    /// Quantize over the buffer; see `point_ops::quantize`.
    pub fn quantize(&mut self, data: &mut Vec<u8>, levels: usize)
        requires
            rgba_len(old(data)@),
        ensures
            final(data)@.len() == old(data)@.len(),
            forall|i: int|
                0 <= i < final(data)@.len() ==> final(data)@[i] == (if i % 4 == 3 {
                    old(data)@[i]
                } else {
                    quantized_byte(old(data)@[i], levels as int)
                }),
    {
        point_ops::quantize(data, levels);
    }

    /// ByteCorrupt over the buffer; see `byte_corrupt::byte_corrupt`.
    pub fn byte_corrupt(
        &mut self,
        data: &mut Vec<u8>,
        intensity: usize,
        mode: Option<CorruptMode>,
        block_size: Option<usize>,
        structured: bool,
    )
        requires
            rgba_len(old(data)@),
        ensures
            final(data)@.len() == old(data)@.len(),
            corruption_count(old(data)@.len() as int, intensity as int) == 0 ==> final(data)@
                == old(data)@,
            forall|i: int|
                0 <= i < final(data)@.len() && mode is Some ==> corrupt_byte_stable(
                    old(data)@[i],
                    final(data)@[i],
                    mode->0,
                ),
            exists|ps: Seq<int>|
                ps.len() <= corruption_count(old(data)@.len() as int, intensity as int)
                    && changes_covered(old(data)@, final(data)@, ps, block_span(block_size)),
            (!structured && mode is Some && forced_byte(mode->0) is Some) ==> exists|ps: Seq<int>|
                {
                    &&& ps.len() == corruption_count(old(data)@.len() as int, intensity as int)
                    &&& forall|k: int|
                        0 <= k < ps.len() ==> 0 <= #[trigger] ps[k] < final(data)@.len()
                    &&& forall|k: int, i: int|
                        #![trigger ps[k], final(data)@[i]]
                        0 <= k < ps.len() && ps[k] <= i < ps[k] + block_span(block_size) && 0 <= i
                            < final(data)@.len() ==> final(data)@[i] == forced_byte(mode->0)->0
                    &&& changes_covered(old(data)@, final(data)@, ps, block_span(block_size))
                },
    {
        let options = ByteCorruptOptions { intensity, mode, block_size, structured };
        proof {
            assert(options.intensity == intensity && options.mode == mode && options.block_size
                == block_size && options.structured == structured);
        }
        byte_corrupt::byte_corrupt(data, &options, &mut self.rng);
    }

    /// ChunkSwap over the buffer; see `chunk_swap::chunk_swap`.
    pub fn chunk_swap(
        &mut self,
        data: &mut Vec<u8>,
        width: u32,
        swaps: usize,
        chunk_percent: Option<usize>,
        preserve_alpha: bool,
    )
        requires
            fits_width(old(data)@, width),
        ensures
            final(data)@.len() == old(data)@.len(),
            forall|c: int|
                0 <= c < 4 ==> #[trigger] channel_plane(final(data)@, c).to_multiset()
                    == channel_plane(old(data)@, c).to_multiset(),
            preserve_alpha ==> forall|i: int|
                0 <= i < final(data)@.len() && i % 4 == 3 ==> final(data)@[i] == old(data)@[i],
            swaps == 0 ==> final(data)@ == old(data)@,
            chunk_swap::swaps_degenerate(old(data)@.len() as int, width, chunk_percent)
                ==> final(data)@ == old(data)@,
    {
        let options = ChunkSwapOptions { swaps, chunk_percent, preserve_alpha };
        proof {
            assert(options.swaps == swaps && options.chunk_percent == chunk_percent
                && options.preserve_alpha == preserve_alpha);
        }
        chunk_swap::chunk_swap(data, width, &options, &mut self.rng);
    }

    /// BinaryXor over the buffer; see `binary_xor::binary_xor`.
    pub fn binary_xor(
        &mut self,
        data: &mut Vec<u8>,
        width: u32,
        pattern: Option<Vec<u8>>,
        strength: u8,
        mode: Option<XorMode>,
    )
        requires
            fits_width(old(data)@, width),
        ensures
            final(data)@.len() == old(data)@.len(),
            match pattern {
                Some(p) => {
                    if p@.len() > 0 {
                        final(data)@ == binary_xor::xored(
                            old(data)@,
                            width,
                            p@,
                            strength,
                            binary_xor::resolved_xor_mode(mode),
                        )
                    } else {
                        final(data)@ == old(data)@
                    }
                },
                None => exists|pat: Seq<u8>|
                    pat.len() == 8 * (strength as int) / 255 + 1 && final(data)@
                        == binary_xor::xored(
                        old(data)@,
                        width,
                        pat,
                        strength,
                        binary_xor::resolved_xor_mode(mode),
                    ),
            },
    {
        let options = BinaryXorOptions { pattern, strength, mode };
        binary_xor::binary_xor(data, width, &options, &mut self.rng);
    }

    /// ImageBlend over the buffer; see `image_blend::image_blend`.
    pub fn image_blend(
        &mut self,
        data: &mut Vec<u8>,
        width: u32,
        secondary_data: &Vec<u8>,
        secondary_width: u32,
        secondary_height: u32,
        blend_mode: BlendMode,
        amount: u8,
        offset_x: i32,
        offset_y: i32,
    )
        requires
            fits_width(old(data)@, width),
        ensures
            final(data)@.len() == old(data)@.len(),
            ({
                let opts = (ImageBlendOptions {
                    secondary_data: *secondary_data,
                    width: secondary_width,
                    height: secondary_height,
                    blend_mode,
                    amount,
                    offset_x,
                    offset_y,
                });
                &&& !secondary_ok(opts) ==> final(data)@ == old(data)@
                &&& secondary_ok(opts) ==> final(data)@ == blended(old(data)@, width, opts)
            }),
    {
        let options = ImageBlendOptions {
            secondary_data: copy_bytes(secondary_data),
            width: secondary_width,
            height: secondary_height,
            blend_mode,
            amount,
            offset_x,
            offset_y,
        };
        let ghost opts_spec = (ImageBlendOptions {
            secondary_data: *secondary_data,
            width: secondary_width,
            height: secondary_height,
            blend_mode,
            amount,
            offset_x,
            offset_y,
        });
        proof {
            assert(options.secondary_data@ == secondary_data@);
            assert(secondary_ok(options) == secondary_ok(opts_spec));
        }
        image_blend::image_blend(data, width, &options);
        proof {
            if secondary_ok(opts_spec) {
                assert(blended(old(data)@, width, options) =~= blended(
                    old(data)@,
                    width,
                    opts_spec,
                ));
            }
        }
    }

    /// The composite operation: validates the buffer against the declared
    /// dimensions, then applies each present effect in the fixed order
    /// pixel-sort, data-bend, channel-shift, noise, invert, quantize,
    /// byte-corrupt, chunk-swap, binary-xor, image-blend. A buffer that
    /// does not divide into `width` by `height` whole pixels is rejected
    /// untouched; an all-absent configuration leaves it unchanged.
    pub fn apply_effects(
        &mut self,
        data: &mut Vec<u8>,
        width: u32,
        height: u32,
        options: &GlitchOptions,
    ) -> (r: Result<(), GlitchError>)
        ensures
            final(data)@.len() == old(data)@.len(),
            r is Ok <==> (width >= 1 && old(data)@.len() == 4 * (width as int) * (height as int)),
            r is Err ==> final(data)@ == old(data)@ && r == Result::<(), GlitchError>::Err(
                GlitchError::InvalidBufferLength,
            ),
            r is Ok ==> composite_rel(old(data)@, final(data)@, width, *options),
            (r is Ok && options.pixel_sort is None && options.data_bend is None
                && options.channel_shift is None && options.noise is None && options.invert is None
                && options.quantize is None && options.byte_corrupt is None
                && options.chunk_swap is None && options.binary_xor is None
                && options.image_blend is None) ==> final(data)@ == old(data)@,
    {
        let len = data.len();
        proof {
            assert(4 * (width as int) * (height as int) < 0x100000000000000000000000000000000)
                by (nonlinear_arith)
                requires
                    width <= 0xffffffffu32,
                    height <= 0xffffffffu32,
            ;
        }
        if width < 1 || (len as u128) != 4 * (width as u128) * (height as u128) {
            proof {
                assert(4 * (width as int) * (height as int) == (4 * (width as u128) * (
                height as u128)) as int) by (nonlinear_arith);
            }
            return Result::Err(GlitchError::InvalidBufferLength);
        }
        proof {
            assert((len as int) == 4 * (width as int) * (height as int)) by (nonlinear_arith)
                requires
                    (len as u128) == 4 * (width as u128) * (height as u128),
            ;
            lemma_dims_to_fits(data@, width, height as int);
        }
        let ghost g0 = data@;
        match &options.pixel_sort {
            Some(o) => pixel_sort::pixel_sort(data, width, o),
            None => {},
        }
        let ghost g1 = data@;
        proof {
            lemma_dims_to_fits(data@, width, height as int);
        }
        match &options.data_bend {
            Some(o) => data_bend::data_bend(data, o, &mut self.rng),
            None => {},
        }
        let ghost g2 = data@;
        match &options.channel_shift {
            Some(o) => channel_shift::channel_shift(data, o, &mut self.rng),
            None => {},
        }
        let ghost g3 = data@;
        match &options.noise {
            Some(amount) => point_ops::add_noise(data, *amount, &mut self.rng),
            None => {},
        }
        let ghost g4 = data@;
        match &options.invert {
            Some(chs) => point_ops::invert_channels(data, chs),
            None => {},
        }
        let ghost g5 = data@;
        match &options.quantize {
            Some(levels) => point_ops::quantize(data, *levels),
            None => {},
        }
        let ghost g6 = data@;
        match &options.byte_corrupt {
            Some(o) => byte_corrupt::byte_corrupt(data, o, &mut self.rng),
            None => {},
        }
        let ghost g7 = data@;
        proof {
            lemma_dims_to_fits(data@, width, height as int);
        }
        match &options.chunk_swap {
            Some(o) => chunk_swap::chunk_swap(data, width, o, &mut self.rng),
            None => {},
        }
        let ghost g8 = data@;
        proof {
            lemma_dims_to_fits(data@, width, height as int);
        }
        match &options.binary_xor {
            Some(o) => binary_xor::binary_xor(data, width, o, &mut self.rng),
            None => {},
        }
        let ghost g9 = data@;
        proof {
            lemma_dims_to_fits(data@, width, height as int);
        }
        match &options.image_blend {
            Some(o) => image_blend::image_blend(data, width, o),
            None => {},
        }
        let ghost g10 = data@;
        proof {
            assert(sort_stage(g0, g1, width, options.pixel_sort));
            assert(bend_stage(g1, g2, options.data_bend));
            assert(shift_stage(g2, g3, options.channel_shift));
            assert(noise_stage(g3, g4, options.noise));
            assert(invert_stage(g4, g5, options.invert));
            assert(quantize_stage(g5, g6, options.quantize));
            assert(corrupt_stage(g6, g7, options.byte_corrupt));
            assert(swap_stage(g7, g8, width, options.chunk_swap));
            assert(xor_stage(g8, g9, width, options.binary_xor));
            assert(blend_stage(g9, g10, width, options.image_blend));
            assert(chain_from_binary_xor(g8, g10, width, *options));
            assert(chain_from_chunk_swap(g7, g10, width, *options));
            assert(chain_from_byte_corrupt(g6, g10, width, *options));
            assert(chain_from_quantize(g5, g10, width, *options));
            assert(chain_from_invert(g4, g10, width, *options));
            assert(chain_from_noise(g3, g10, width, *options));
            assert(chain_from_channel_shift(g2, g10, width, *options));
            assert(chain_from_data_bend(g1, g10, width, *options));
            assert(composite_rel(g0, g10, width, *options));
        }
        Result::Ok(())
    }
}

} // verus!
