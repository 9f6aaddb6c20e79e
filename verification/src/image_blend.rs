use vstd::prelude::*;
use crate::buffer::coord_x;
use crate::buffer::coord_y;
use crate::buffer::emod_offset;
use crate::buffer::fits_width;
use crate::buffer::height_of;
use crate::buffer::lemma_buffer_dims;
use crate::buffer::lemma_byte_coords;
use crate::buffer::lemma_dims_to_fits;
use crate::buffer::lemma_pixel_index_bounds;
use crate::buffer::pixel_index;
use crate::options::BlendMode;
use crate::options::ImageBlendOptions;

verus! {

/// Linear interpolation from `p` toward `v` by `a` over 255, floored.
pub open spec fn lerp(p: u8, v: int, a: u8) -> u8 {
    ((v * a + p * (255 - a)) / 255) as u8
}

/// One R, G or B byte after blending: the mode's base value, interpolated
/// toward the original by the amount. Multiply keeps its product unfloored
/// until the final division.
pub open spec fn blend_channel(mode: BlendMode, p: u8, s: u8, a: u8) -> u8 {
    match mode {
        BlendMode::Mix => lerp(p, s as int, a),
        BlendMode::Difference => lerp(
            p,
            if p >= s {
                p - s
            } else {
                s - p
            },
            a,
        ),
        BlendMode::Multiply => ((p * s * a + 255 * p * (255 - a)) / 65025) as u8,
        BlendMode::Screen => lerp(p, 255 - (255 - p) * (255 - s) / 255, a),
        BlendMode::Overlay => lerp(
            p,
            if p < 128 {
                2 * p * s / 255
            } else {
                255 - 2 * (255 - p) * (255 - s) / 255
            },
            a,
        ),
    }
}

/// The byte of the secondary image that primary byte `i` samples: the same
/// channel of the secondary pixel at the offset coordinates, wrapping
/// around both secondary dimensions.
pub open spec fn sample_index(
    sw: u32,
    sh: u32,
    ox: int,
    oy: int,
    x: int,
    y: int,
    c: int,
) -> int {
    pixel_index(sw, (x + ox) % (sw as int), (y + oy) % (sh as int), c)
}

/// A secondary image is usable only when its declared dimensions are
/// positive and match its data length.
pub open spec fn secondary_ok(opts: ImageBlendOptions) -> bool {
    &&& opts.width >= 1
    &&& opts.height >= 1
    &&& opts.secondary_data@.len() == 4 * (opts.width as int) * (opts.height as int)
}

/// The whole buffer after blending.
pub open spec fn blended(s: Seq<u8>, width: u32, opts: ImageBlendOptions) -> Seq<u8> {
    Seq::new(
        s.len(),
        |i: int|
            if i % 4 == 3 {
                s[i]
            } else {
                blend_channel(
                    opts.blend_mode,
                    s[i],
                    opts.secondary_data@[sample_index(
                        opts.width,
                        opts.height,
                        opts.offset_x as int,
                        opts.offset_y as int,
                        coord_x(i, width),
                        coord_y(i, width),
                        i % 4,
                    )],
                    opts.amount,
                )
            },
    )
}

/// The interpolation, computed.
fn lerp_exec(p: u8, v: u32, a: u8) -> (r: u8)
    requires
        v <= 255,
    ensures
        r == lerp(p, v as int, a),
{
    proof {
        assert((v as int) * a <= 255 * 255 && (p as int) * (255 - a as int) <= 255 * 255)
            by (nonlinear_arith)
            requires
                v <= 255,
                p <= 255,
                a <= 255,
        ;
        vstd::arithmetic::div_mod::lemma_div_is_ordered(
            (v as int) * a + (p as int) * (255 - a as int),
            2 * (255 * 255) as int,
            255,
        );
    }
    ((v * (a as u32) + (p as u32) * (255 - a as u32)) / 255) as u8
}

/// One channel blended, computed.
fn blend_channel_exec(mode: BlendMode, p: u8, s: u8, a: u8) -> (r: u8)
    ensures
        r == blend_channel(mode, p, s, a),
{
    match mode {
        BlendMode::Mix => lerp_exec(p, s as u32, a),
        BlendMode::Difference => {
            let d: u32 = if p >= s {
                (p - s) as u32
            } else {
                (s - p) as u32
            };
            lerp_exec(p, d, a)
        },
        BlendMode::Multiply => {
            proof {
                assert((p as int) * s <= 255 * 255 && (p as int) * s * a <= 255 * 255 * 255 && 255
                    * (p as int) <= 255 * 255 && 255 * (p as int) * (255 - a as int) <= 255 * 255
                    * 255) by (nonlinear_arith)
                    requires
                        p <= 255,
                        s <= 255,
                        a <= 255,
                ;
                assert((p as int) * s * a + 255 * (p as int) * (255 - a as int) <= 255 * 65025)
                    by (nonlinear_arith)
                    requires
                        p <= 255,
                        s <= 255,
                        a <= 255,
                ;
                vstd::arithmetic::div_mod::lemma_div_is_ordered(
                    (p as int) * s * a + 255 * (p as int) * (255 - a as int),
                    (255 * 65025) as int,
                    65025,
                );
                assert((255 * 65025) / 65025 == 255);
            }
            (((p as u32) * (s as u32) * (a as u32) + 255 * (p as u32) * (255 - a as u32)) / 65025)
                as u8
        },
        BlendMode::Screen => {
            proof {
                assert((255 - p as int) * (255 - s as int) <= 255 * 255) by (nonlinear_arith)
                    requires
                        p <= 255,
                        s <= 255,
                ;
                vstd::arithmetic::div_mod::lemma_div_is_ordered(
                    (255 - p as int) * (255 - s as int),
                    (255 * 255) as int,
                    255,
                );
            }
            let sc: u32 = 255 - (255 - p as u32) * (255 - s as u32) / 255;
            lerp_exec(p, sc, a)
        },
        BlendMode::Overlay => {
            let o: u32 = if p < 128 {
                proof {
                    assert(2 * (p as int) * s <= 2 * 127 * 255) by (nonlinear_arith)
                        requires
                            p < 128,
                            s <= 255,
                    ;
                    vstd::arithmetic::div_mod::lemma_div_is_ordered(
                        2 * (p as int) * s,
                        (2 * 127 * 255) as int,
                        255,
                    );
                    assert((2 * 127 * 255) / 255 == 254);
                }
                2 * (p as u32) * (s as u32) / 255
            } else {
                proof {
                    assert(2 * (255 - p as int) * (255 - s as int) <= 2 * 127 * 255)
                        by (nonlinear_arith)
                        requires
                            128 <= p <= 255,
                            s <= 255,
                    ;
                    vstd::arithmetic::div_mod::lemma_div_is_ordered(
                        2 * (255 - p as int) * (255 - s as int),
                        (2 * 127 * 255) as int,
                        255,
                    );
                    assert((2 * 127 * 255) / 255 == 254);
                    vstd::arithmetic::div_mod::lemma_div_pos_is_pos(
                        2 * (255 - p as int) * (255 - s as int),
                        255,
                    );
                }
                255 - 2 * (255 - p as u32) * (255 - s as u32) / 255
            };
            lerp_exec(p, o, a)
        },
    }
}

/// The sampled secondary byte for primary byte `i`.
fn sample_secondary(i: usize, width: u32, h: usize, options: &ImageBlendOptions, Ghost(s): Ghost<
    Seq<u8>,
>) -> (sv: u8)
    requires
        secondary_ok(*options),
        width >= 1,
        h == height_of(s, width),
        s.len() == 4 * (width as int) * (h as int),
        i < s.len(),
    ensures
        sv == options.secondary_data@[sample_index(
            options.width,
            options.height,
            options.offset_x as int,
            options.offset_y as int,
            coord_x(i as int, width),
            coord_y(i as int, width),
            (i as int) % 4,
        )],
{
    proof {
        lemma_byte_coords(width, h as int, i as int);
    }
    let x = (i / 4) % (width as usize);
    let y = (i / 4) / (width as usize);
    let sec_len = options.secondary_data.len();
    let sw = options.width;
    let sh = options.height;
    let oxm = emod_offset(options.offset_x, sw) as u64;
    let oym = emod_offset(options.offset_y, sh) as u64;
    let sx = (((x as u64) % (sw as u64)) + oxm) % (sw as u64);
    let sy = (((y as u64) % (sh as u64)) + oym) % (sh as u64);
    proof {
        let xi = coord_x(i as int, width);
        let yi = coord_y(i as int, width);
        let swi = sw as int;
        let shi = sh as int;
        vstd::arithmetic::div_mod::lemma_add_mod_noop(xi, options.offset_x as int, swi);
        vstd::arithmetic::div_mod::lemma_add_mod_noop(yi, options.offset_y as int, shi);
        vstd::arithmetic::div_mod::lemma_mod_twice(xi, swi);
        vstd::arithmetic::div_mod::lemma_mod_twice(yi, shi);
        vstd::arithmetic::div_mod::lemma_mod_bound((xi % swi) + (options.offset_x as int) % swi, swi);
        vstd::arithmetic::div_mod::lemma_mod_bound((yi % shi) + (options.offset_y as int) % shi, shi);
        assert(sx == (xi + options.offset_x as int) % swi);
        assert(sy == (yi + options.offset_y as int) % shi);
        lemma_pixel_index_bounds(sw, sx as int, sy as int, (i as int) % 4, sh as int);
        lemma_dims_to_fits(options.secondary_data@, sw, sh as int);
        assert(4 * ((sy as int) * (sw as int) + (sx as int)) + (i as int) % 4 < options
            .secondary_data@.len());
    }
    let sidx64: u64 = 4 * (sy * (sw as u64) + sx) + ((i % 4) as u64);
    let sidx: usize = sidx64 as usize;
    options.secondary_data[sidx]
}

/// ImageBlend: every R, G and B byte is blended with the secondary pixel
/// sampled at the offset coordinates, wrapping around the secondary image;
/// alpha is untouched. A secondary whose declared dimensions do not match
/// its data leaves the buffer unchanged.
pub fn image_blend(data: &mut Vec<u8>, width: u32, options: &ImageBlendOptions)
    requires
        fits_width(old(data)@, width),
    ensures
        final(data)@.len() == old(data)@.len(),
        !secondary_ok(*options) ==> final(data)@ == old(data)@,
        secondary_ok(*options) ==> final(data)@ == blended(old(data)@, width, *options),
{
    let sw = options.width;
    let sh = options.height;
    if sw == 0 || sh == 0 {
        return ;
    }
    proof {
        assert(4 * ((sw as int) * (sh as int)) == 4 * (sw as int) * (sh as int))
            by (nonlinear_arith);
    }
    let ghost expect = 4 * (sw as int) * (sh as int);
    let sec_pixels: bool = {
        let n = options.secondary_data.len();
        n % 4 == 0 && (n / 4) % (sw as usize) == 0 && (n / 4) / (sw as usize) == (sh as usize)
    };
    if !sec_pixels {
        proof {
            if options.secondary_data@.len() == expect {
                lemma_dims_to_fits(options.secondary_data@, sw, sh as int);
                assert(false);
            }
        }
        return ;
    }
    proof {
        assert(fits_width(options.secondary_data@, sw));
        lemma_buffer_dims(options.secondary_data@, sw);
        assert(secondary_ok(*options));
    }
    proof {
        lemma_buffer_dims(old(data)@, width);
    }
    let len = data.len();
    let h = len / 4 / (width as usize);
    let mut i: usize = 0;
    while i < len
        invariant
            data@.len() == old(data)@.len(),
            data@.len() == len,
            width >= 1,
            secondary_ok(*options),
            h == height_of(old(data)@, width),
            len == 4 * (width as int) * (h as int),
            i <= len,
            forall|j: int| 0 <= j < i ==> data@[j] == blended(old(data)@, width, *options)[j],
            forall|j: int| i <= j < len ==> data@[j] == old(data)@[j],
        decreases len - i,
    {
        if i % 4 != 3 {
            let p = data[i];
            let sv = sample_secondary(i, width, h, options, Ghost(old(data)@));
            let r = blend_channel_exec(options.blend_mode, p, sv, options.amount);
            data.set(i, r);
        }
        i += 1;
    }
    proof {
        assert(data@ =~= blended(old(data)@, width, *options));
    }
}

} // verus!
