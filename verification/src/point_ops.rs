use vstd::prelude::*;
use crate::buffer::rgba_len;
use crate::rng::RandomSource;

verus! {

/// True when the channel selection names channel `c` (indices of four or
/// more never match a channel and so are ignored).
pub open spec fn selects(chans: Seq<usize>, c: int) -> bool {
    exists|k: int| 0 <= k < chans.len() && chans[k] == c
}

/// One byte after inversion, where `flip` says whether its channel is
/// selected.
pub open spec fn inverted_byte(v: u8, flip: bool) -> u8 {
    if flip {
        (255 - v) as u8
    } else {
        v
    }
}

/// A whole buffer after inversion of the selected channels.
pub open spec fn inverted_buffer(s: Seq<u8>, channels: Seq<usize>) -> Seq<u8> {
    Seq::new(s.len(), |i: int| inverted_byte(s[i], selects(channels, i % 4)))
}

/// Invert: for every pixel, each channel present in the selection is
/// replaced by 255 minus its value; the other channels stay.
pub fn invert_channels(data: &mut Vec<u8>, channels: &Vec<usize>)
    requires
        rgba_len(old(data)@),
    ensures
        final(data)@.len() == old(data)@.len(),
        final(data)@ == inverted_buffer(old(data)@, channels@),
{
    let mut flip: Vec<bool> = Vec::new();
    flip.push(false);
    flip.push(false);
    flip.push(false);
    flip.push(false);
    let mut k: usize = 0;
    while k < channels.len()
        invariant
            flip.len() == 4,
            k <= channels@.len(),
            forall|c: int| 0 <= c < 4 ==> flip@[c] == selects(channels@.take(k as int), c),
        decreases channels@.len() - k,
    {
        let c = channels[k];
        proof {
            let pre = channels@.take(k as int);
            let post = channels@.take(k as int + 1);
            assert(post =~= pre.push(channels@[k as int]));
            assert forall|cc: int| 0 <= cc < 4 implies selects(post, cc) == (selects(pre, cc)
                || channels@[k as int] == cc) by {
                if selects(pre, cc) {
                    let w = choose|w: int| 0 <= w < pre.len() && pre[w] == cc;
                    assert(post[w] == cc);
                }
                if channels@[k as int] == cc {
                    assert(post[pre.len() as int] == cc);
                }
                if selects(post, cc) {
                    let w = choose|w: int| 0 <= w < post.len() && post[w] == cc;
                    if w < pre.len() {
                        assert(pre[w] == cc);
                    }
                }
            }
        }
        if c < 4 {
            flip.set(c, true);
        }
        k += 1;
    }
    proof {
        assert(channels@.take(channels@.len() as int) =~= channels@);
    }
    let mut i: usize = 0;
    while i < data.len()
        invariant
            data@.len() == old(data)@.len(),
            flip.len() == 4,
            forall|c: int| 0 <= c < 4 ==> flip@[c] == selects(channels@, c),
            i <= data@.len(),
            forall|j: int|
                0 <= j < i ==> data@[j] == inverted_byte(
                    old(data)@[j],
                    selects(channels@, j % 4),
                ),
            forall|j: int| i <= j < data@.len() ==> data@[j] == old(data)@[j],
        decreases data@.len() - i,
    {
        let v = data[i];
        if flip[i % 4] {
            data.set(i, 255 - v);
        }
        i += 1;
    }
    proof {
        assert(data@ =~= inverted_buffer(old(data)@, channels@));
    }
}

/// Law: inverting the same channel selection twice restores the buffer, for
/// any selection.
pub proof fn lemma_invert_involution(s: Seq<u8>, channels: Seq<usize>)
    ensures
        inverted_buffer(inverted_buffer(s, channels), channels) == s,
{
    assert(inverted_buffer(inverted_buffer(s, channels), channels) =~= s);
}

/// One byte after quantization to the given number of levels. With fewer
/// than two levels nothing changes; with 256 or more the step is too fine
/// to move any byte; otherwise the value is snapped to the nearest of the
/// `levels` values evenly spaced over 0 to 255 (the step being
/// 255 over `levels - 1`), the write rounding down.
pub open spec fn quantized_byte(v: u8, levels: int) -> u8 {
    if levels <= 1 || levels >= 256 {
        v
    } else {
        let k = levels - 1;
        let q = (2 * v * k + 255) / 510;
        ((q * 255) / k) as u8
    }
}

/// Quantize: every R, G and B byte is snapped to the level grid; alpha is
/// untouched. Fewer than two levels is a no-op.
pub fn quantize(data: &mut Vec<u8>, levels: usize)
    requires
        rgba_len(old(data)@),
    ensures
        final(data)@.len() == old(data)@.len(),
        forall|i: int|
            0 <= i < final(data)@.len() ==> final(data)@[i] == (if i % 4 == 3 {
                old(data)@[i]
            } else {
                quantized_byte(old(data)@[i], levels as int)
            }),
{
    if levels <= 1 || levels >= 256 {
        return ;
    }
    let k: u32 = (levels - 1) as u32;
    let mut i: usize = 0;
    while i < data.len()
        invariant
            data@.len() == old(data)@.len(),
            1 <= k < 255,
            k == levels - 1,
            2 <= levels < 256,
            i <= data@.len(),
            forall|j: int|
                0 <= j < i ==> data@[j] == (if j % 4 == 3 {
                    old(data)@[j]
                } else {
                    quantized_byte(old(data)@[j], levels as int)
                }),
            forall|j: int| i <= j < data@.len() ==> data@[j] == old(data)@[j],
        decreases data@.len() - i,
    {
        if i % 4 != 3 {
            let v = data[i];
            proof {
                assert(2 * (v as int) * (k as int) <= 2 * 255 * 254) by (nonlinear_arith)
                    requires
                        v <= 255,
                        k <= 254,
                ;
            }
            let q: u32 = (2 * (v as u32) * k + 255) / 510;
            proof {
                assert(2 * (v as int) * k + 255 <= 510 * (k as int) + 255) by (nonlinear_arith)
                    requires
                        v <= 255,
                        k >= 1,
                ;
                vstd::arithmetic::div_mod::lemma_div_is_ordered(
                    2 * (v as int) * k + 255,
                    510 * k + 255,
                    510,
                );
                assert((510 * (k as int) + 255) / 510 == k) by {
                    vstd::arithmetic::div_mod::lemma_fundamental_div_mod_converse(
                        510 * (k as int) + 255,
                        510,
                        k as int,
                        255,
                    );
                }
            }
            let r: u32 = (q * 255) / k;
            proof {
                vstd::arithmetic::div_mod::lemma_div_is_ordered(
                    (q as int) * 255,
                    (k as int) * 255,
                    k as int,
                );
                assert(((k as int) * 255) / (k as int) == 255) by {
                    vstd::arithmetic::div_mod::lemma_fundamental_div_mod_converse(
                        (k as int) * 255,
                        k as int,
                        255,
                        0,
                    );
                }
            }
            data.set(i, r as u8);
        }
        i += 1;
    }
}

/// Law: quantization with 256 or more levels keeps every byte.
pub proof fn lemma_quantize_fine_identity(v: u8, levels: int)
    requires
        levels >= 256,
    ensures
        quantized_byte(v, levels) == v,
{
}

/// A byte raised by `d`, stopping at 255.
pub open spec fn sat_add(v: u8, d: u8) -> u8 {
    if v + d > 255 {
        255u8
    } else {
        (v + d) as u8
    }
}

/// A byte lowered by `d`, stopping at 0.
pub open spec fn sat_sub(v: u8, d: u8) -> u8 {
    if v < d {
        0u8
    } else {
        (v - d) as u8
    }
}

/// What Noise leaves of one byte: the old value moved up or down by some
/// magnitude below `amount`, saturating at the byte range.
pub open spec fn noise_byte_ok(o: u8, n: u8, amount: u8) -> bool {
    exists|d: u8| d < amount && (n == sat_add(o, d) || n == sat_sub(o, d))
}

/// Noise: every R, G and B byte moves by a random magnitude below
/// `amount`, randomly up (saturating at 255) or down (saturating at 0);
/// alpha is untouched. A zero amount leaves the buffer unchanged.
pub fn add_noise(data: &mut Vec<u8>, amount: u8, rng: &mut RandomSource)
    requires
        rgba_len(old(data)@),
    ensures
        final(data)@.len() == old(data)@.len(),
        amount == 0 ==> final(data)@ == old(data)@,
        forall|i: int| 0 <= i < final(data)@.len() && i % 4 == 3 ==> final(data)@[i] == old(data)@[i],
        forall|i: int|
            0 <= i < final(data)@.len() && i % 4 != 3 && amount > 0 ==> noise_byte_ok(
                old(data)@[i],
                final(data)@[i],
                amount,
            ),
{
    if amount == 0 {
        return ;
    }
    let mut i: usize = 0;
    while i < data.len()
        invariant
            data@.len() == old(data)@.len(),
            amount >= 1,
            i <= data@.len(),
            forall|j: int| 0 <= j < data@.len() && j % 4 == 3 ==> data@[j] == old(data)@[j],
            forall|j: int|
                0 <= j < i && j % 4 != 3 ==> noise_byte_ok(old(data)@[j], data@[j], amount),
            forall|j: int| i <= j < data@.len() ==> data@[j] == old(data)@[j],
        decreases data@.len() - i,
    {
        if i % 4 != 3 {
            let d = rng.uniform(0, amount as usize) as u8;
            let up = rng.coin();
            let v = data[i];
            let nv: u8 = if up {
                if v as usize + d as usize > 255 {
                    255
                } else {
                    v + d
                }
            } else {
                if v < d {
                    0
                } else {
                    v - d
                }
            };
            data.set(i, nv);
            proof {
                assert(d < amount);
                assert(nv == sat_add(old(data)@[i as int], d) || nv == sat_sub(
                    old(data)@[i as int],
                    d,
                ));
            }
        }
        i += 1;
    }
}

} // verus!
