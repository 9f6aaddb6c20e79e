use vstd::prelude::*;
use crate::buffer::coord_x;
use crate::buffer::coord_y;
use crate::buffer::fits_width;
use crate::buffer::height_of;
use crate::buffer::lemma_buffer_dims;
use crate::buffer::lemma_byte_coords;
use crate::options::BinaryXorOptions;
use crate::options::XorMode;
use crate::rng::RandomSource;

verus! {

/// The XOR magnitude a pattern byte yields, scaled by strength over 255.
pub open spec fn xor_scaled(pb: u8, strength: u8) -> u8 {
    ((pb * strength) / 255) as u8
}

/// The mask byte index `i` is XORed with. The full mode masks every byte by
/// its position in the repeating pattern; the banded and block modes mask
/// only R, G and B, by the band (row range, column range or cell of an
/// eight-by-eight grid) the byte's pixel falls in, a band degenerating to
/// single lines when the image is smaller than the pattern or grid.
pub open spec fn xor_mask_at(
    s: Seq<u8>,
    width: u32,
    pattern: Seq<u8>,
    strength: u8,
    mode: XorMode,
    i: int,
) -> u8
    recommends
        pattern.len() > 0,
        width >= 1,
{
    let plen = pattern.len() as int;
    let h = height_of(s, width) as int;
    let x = coord_x(i, width);
    let y = coord_y(i, width);
    match mode {
        XorMode::Full => xor_scaled(pattern[i % plen], strength),
        XorMode::HorizontalBands => if i % 4 == 3 {
            0u8
        } else {
            let bh = if h / plen >= 1 {
                h / plen
            } else {
                1
            };
            xor_scaled(pattern[(y / bh) % plen], strength)
        },
        XorMode::VerticalBands => if i % 4 == 3 {
            0u8
        } else {
            let bw = if (width as int) / plen >= 1 {
                (width as int) / plen
            } else {
                1
            };
            xor_scaled(pattern[(x / bw) % plen], strength)
        },
        XorMode::Blocks => if i % 4 == 3 {
            0u8
        } else {
            let bw = if (width as int) / 8 >= 1 {
                (width as int) / 8
            } else {
                1
            };
            let bh = if h / 8 >= 1 {
                h / 8
            } else {
                1
            };
            xor_scaled(pattern[((y / bh) * 8 + (x / bw)) % plen], strength)
        },
    }
}

/// A whole buffer after the XOR pass.
pub open spec fn xored(
    s: Seq<u8>,
    width: u32,
    pattern: Seq<u8>,
    strength: u8,
    mode: XorMode,
) -> Seq<u8> {
    Seq::new(s.len(), |i: int| s[i] ^ xor_mask_at(s, width, pattern, strength, mode, i))
}

/// The mode an absent option falls back to: the full image.
pub open spec fn resolved_xor_mode(mode: Option<XorMode>) -> XorMode {
    match mode {
        Some(m) => m,
        None => XorMode::Full,
    }
}

/// The scaled XOR magnitude, computed.
fn scale_byte(pb: u8, strength: u8) -> (r: u8)
    ensures
        r == xor_scaled(pb, strength),
{
    proof {
        assert(pb as int * strength as int <= 255 * 255) by (nonlinear_arith)
            requires
                pb <= 255,
                strength <= 255,
        ;
    }
    ((pb as u16 * strength as u16) / 255) as u8
}

fn mask_at(
    i: usize,
    width: u32,
    h: usize,
    pattern: &Vec<u8>,
    strength: u8,
    mode: XorMode,
    Ghost(s): Ghost<Seq<u8>>,
) -> (m: u8)
    requires
        pattern@.len() > 0,
        width >= 1,
        h == height_of(s, width),
        s.len() == 4 * (width as int) * (h as int),
        i < s.len(),
    ensures
        m == xor_mask_at(s, width, pattern@, strength, mode, i as int),
{
    let plen = pattern.len();
    proof {
        lemma_byte_coords(width, h as int, i as int);
    }
    match mode {
        XorMode::Full => {
            let pb = pattern[i % plen];
            scale_byte(pb, strength)
        },
        XorMode::HorizontalBands => {
            if i % 4 == 3 {
                0
            } else {
                let y = (i / 4) / (width as usize);
                let bh0 = h / plen;
                let bh = if bh0 >= 1 {
                    bh0
                } else {
                    1
                };
                let pb = pattern[(y / bh) % plen];
                scale_byte(pb, strength)
            }
        },
        XorMode::VerticalBands => {
            if i % 4 == 3 {
                0
            } else {
                let x = (i / 4) % (width as usize);
                let bw0 = (width as usize) / plen;
                let bw = if bw0 >= 1 {
                    bw0
                } else {
                    1
                };
                let pb = pattern[(x / bw) % plen];
                scale_byte(pb, strength)
            }
        },
        XorMode::Blocks => {
            if i % 4 == 3 {
                0
            } else {
                let x = (i / 4) % (width as usize);
                let y = (i / 4) / (width as usize);
                let bw0 = (width as usize) / 8;
                let bw = if bw0 >= 1 {
                    bw0
                } else {
                    1
                };
                let bh0 = h / 8;
                let bh = if bh0 >= 1 {
                    bh0
                } else {
                    1
                };
                let cell: u128 = (y / bh) as u128 * 8 + (x / bw) as u128;
                let k = (cell % (plen as u128)) as usize;
                proof {
                    let ci = ((i as int) / 4 / (width as int) / (bh as int)) * 8 + (i as int) / 4
                        % (width as int) / (bw as int);
                    vstd::arithmetic::div_mod::lemma_mod_bound(ci, plen as int);
                }
                let pb = pattern[k];
                scale_byte(pb, strength)
            }
        },
    }
}

/// BinaryXor with a fixed pattern: every byte is XORed with its mask.
pub fn binary_xor_with(
    data: &mut Vec<u8>,
    width: u32,
    pattern: &Vec<u8>,
    strength: u8,
    mode: XorMode,
)
    requires
        fits_width(old(data)@, width),
        pattern@.len() > 0,
    ensures
        final(data)@.len() == old(data)@.len(),
        final(data)@ == xored(old(data)@, width, pattern@, strength, mode),
{
    proof {
        lemma_buffer_dims(old(data)@, width);
    }
    let len = data.len();
    let h = len / 4 / (width as usize);
    let mut i: usize = 0;
    while i < len
        invariant
            data@.len() == old(data)@.len(),
            data@.len() == len,
            width >= 1,
            pattern@.len() > 0,
            h == height_of(old(data)@, width),
            len == 4 * (width as int) * (h as int),
            i <= len,
            forall|j: int|
                0 <= j < i ==> data@[j] == (old(data)@[j] ^ xor_mask_at(
                    old(data)@,
                    width,
                    pattern@,
                    strength,
                    mode,
                    j,
                )),
            forall|j: int| i <= j < len ==> data@[j] == old(data)@[j],
        decreases len - i,
    {
        let m = mask_at(i, width, h, pattern, strength, mode, Ghost(old(data)@));
        let v = data[i];
        data.set(i, v ^ m);
        i += 1;
    }
    proof {
        assert(data@ =~= xored(old(data)@, width, pattern@, strength, mode));
    }
}

/// BinaryXor: XORs the buffer with a spatially varying mask derived from
/// the pattern and strength. An absent pattern is drawn at random with
/// `8 * strength / 255 + 1` bytes; a present but empty pattern leaves the
/// buffer unchanged.
pub fn binary_xor(
    data: &mut Vec<u8>,
    width: u32,
    options: &BinaryXorOptions,
    rng: &mut RandomSource,
)
    requires
        fits_width(old(data)@, width),
    ensures
        final(data)@.len() == old(data)@.len(),
        match options.pattern {
            Some(p) => {
                if p@.len() > 0 {
                    final(data)@ == xored(
                        old(data)@,
                        width,
                        p@,
                        options.strength,
                        resolved_xor_mode(options.mode),
                    )
                } else {
                    final(data)@ == old(data)@
                }
            },
            None => exists|pat: Seq<u8>|
                pat.len() == 8 * (options.strength as int) / 255 + 1 && final(data)@ == xored(
                    old(data)@,
                    width,
                    pat,
                    options.strength,
                    resolved_xor_mode(options.mode),
                ),
        },
{
    let mode = match options.mode {
        Some(m) => m,
        None => XorMode::Full,
    };
    match &options.pattern {
        Some(p) => {
            if p.len() == 0 {
                return ;
            }
            binary_xor_with(data, width, p, options.strength, mode);
        },
        None => {
            let psize: usize = 8 * (options.strength as usize) / 255 + 1;
            let mut pattern: Vec<u8> = Vec::new();
            while pattern.len() < psize
                invariant
                    pattern@.len() <= psize,
                decreases psize - pattern@.len(),
            {
                pattern.push(rng.next_byte());
            }
            binary_xor_with(data, width, &pattern, options.strength, mode);
            proof {
                assert(pattern@.len() == 8 * (options.strength as int) / 255 + 1);
            }
        },
    }
}

proof fn lemma_xor_cancel(a: u8, b: u8)
    ensures
        (a ^ b) ^ b == a,
{
    assert((a ^ b) ^ b == a) by (bit_vector);
}

/// Law: the full-image mode is self-inverse; applying the same pattern and
/// strength twice restores the buffer.
pub proof fn lemma_xor_full_self_inverse(s: Seq<u8>, width: u32, pattern: Seq<u8>, strength: u8)
    requires
        pattern.len() > 0,
    ensures
        xored(xored(s, width, pattern, strength, XorMode::Full), width, pattern, strength, XorMode::Full)
            == s,
{
    let t = xored(s, width, pattern, strength, XorMode::Full);
    let u = xored(t, width, pattern, strength, XorMode::Full);
    assert forall|i: int| 0 <= i < s.len() implies u[i] == s[i] by {
        let m = xor_mask_at(s, width, pattern, strength, XorMode::Full, i);
        assert(xor_mask_at(t, width, pattern, strength, XorMode::Full, i) == m);
        lemma_xor_cancel(s[i], m);
    }
    assert(u =~= s);
}

} // verus!
