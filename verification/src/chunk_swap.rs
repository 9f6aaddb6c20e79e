use vstd::prelude::*;
use crate::buffer::channel_plane;
use crate::buffer::fits_width;
use crate::buffer::height_of;
use crate::buffer::lemma_buffer_dims;
use crate::buffer::lemma_swap_preserves_planes;
use crate::buffer::rgba_len;
use crate::options::ChunkSwapOptions;
use crate::rng::RandomSource;

verus! {

/// Two byte ranges of equal size exchanged, alpha bytes staying put when
/// `pa` is set. This describes the exchange only where the two ranges do
/// not interfere (disjoint, or identical).
pub open spec fn swap_spec(s: Seq<u8>, p1: int, p2: int, size: int, pa: bool) -> Seq<u8> {
    Seq::new(
        s.len(),
        |i: int|
            if pa && i % 4 == 3 {
                s[i]
            } else if p1 <= i < p1 + size {
                s[p2 + (i - p1)]
            } else if p2 <= i < p2 + size {
                s[p1 + (i - p2)]
            } else {
                s[i]
            },
    )
}

/// The two ranges do not interfere: they are disjoint or the same.
pub open spec fn swap_ranges_ok(p1: int, p2: int, size: int) -> bool {
    p1 + size <= p2 || p2 + size <= p1 || p1 == p2
}

/// Law: exchanging the same two non-interfering pixel-aligned regions twice
/// restores the original buffer.
pub proof fn lemma_swap_involution(s: Seq<u8>, p1: int, p2: int, size: int, pa: bool)
    requires
        0 <= p1,
        0 <= p2,
        0 <= size,
        p1 % 4 == 0,
        p2 % 4 == 0,
        p1 + size <= s.len(),
        p2 + size <= s.len(),
        swap_ranges_ok(p1, p2, size),
    ensures
        swap_spec(swap_spec(s, p1, p2, size, pa), p1, p2, size, pa) == s,
{
    let t = swap_spec(s, p1, p2, size, pa);
    let u = swap_spec(t, p1, p2, size, pa);
    assert forall|i: int| 0 <= i < s.len() implies u[i] == s[i] by {
        if !(pa && i % 4 == 3) {
            if p1 <= i < p1 + size {
                let j = p2 + (i - p1);
                assert(j % 4 == i % 4) by {
                    vstd::arithmetic::div_mod::lemma_add_mod_noop(p2, i - p1, 4);
                    vstd::arithmetic::div_mod::lemma_add_mod_noop(p1, i - p1, 4);
                }
            } else if p2 <= i < p2 + size {
                let j = p1 + (i - p2);
                assert(j % 4 == i % 4) by {
                    vstd::arithmetic::div_mod::lemma_add_mod_noop(p1, i - p2, 4);
                    vstd::arithmetic::div_mod::lemma_add_mod_noop(p2, i - p2, 4);
                }
            }
        }
    }
    assert(u =~= s);
}

/// One pair of bytes exchanged in place.
fn swap_bytes(data: &mut Vec<u8>, i: usize, j: usize)
    requires
        i < old(data)@.len(),
        j < old(data)@.len(),
    ensures
        final(data)@ == old(data)@.update(i as int, old(data)@[j as int]).update(
            j as int,
            old(data)@[i as int],
        ),
{
    let a = data[i];
    let b = data[j];
    data.set(i, b);
    data.set(j, a);
    proof {
        assert(final(data)@ =~= old(data)@.update(i as int, old(data)@[j as int]).update(
            j as int,
            old(data)@[i as int],
        ));
    }
}

/// Exchanges the `size` bytes at `p1` with those at `p2`, skipping alpha
/// when asked to. Whatever the ranges, no channel plane's multiset of
/// values changes and bytes outside both ranges stay; where the ranges do
/// not interfere, the result is the exact exchange.
pub fn swap_chunks(data: &mut Vec<u8>, p1: usize, p2: usize, size: usize, preserve_alpha: bool)
    requires
        rgba_len(old(data)@),
        p1 % 4 == 0,
        p2 % 4 == 0,
        p1 + size <= old(data)@.len(),
        p2 + size <= old(data)@.len(),
    ensures
        final(data)@.len() == old(data)@.len(),
        rgba_len(final(data)@),
        forall|c: int|
            0 <= c < 4 ==> #[trigger] channel_plane(final(data)@, c).to_multiset()
                == channel_plane(old(data)@, c).to_multiset(),
        preserve_alpha ==> forall|i: int|
            0 <= i < final(data)@.len() && i % 4 == 3 ==> final(data)@[i] == old(data)@[i],
        forall|i: int|
            0 <= i < final(data)@.len() && !(p1 <= i < p1 + size) && !(p2 <= i < p2 + size)
                ==> final(data)@[i] == old(data)@[i],
        swap_ranges_ok(p1 as int, p2 as int, size as int) ==> final(data)@ == swap_spec(
            old(data)@,
            p1 as int,
            p2 as int,
            size as int,
            preserve_alpha,
        ),
{
    let len = data.len();
    let ghost ok = swap_ranges_ok(p1 as int, p2 as int, size as int);
    let mut k: usize = 0;
    while k < size
        invariant
            rgba_len(old(data)@),
            data@.len() == old(data)@.len(),
            data@.len() == len,
            p1 % 4 == 0,
            p2 % 4 == 0,
            p1 + size <= len,
            p2 + size <= len,
            k <= size,
            ok == swap_ranges_ok(p1 as int, p2 as int, size as int),
            forall|c: int|
                0 <= c < 4 ==> #[trigger] channel_plane(data@, c).to_multiset() == channel_plane(
                    old(data)@,
                    c,
                ).to_multiset(),
            preserve_alpha ==> forall|i: int|
                0 <= i < len && i % 4 == 3 ==> data@[i] == old(data)@[i],
            forall|i: int|
                0 <= i < len && !(p1 <= i < p1 + size) && !(p2 <= i < p2 + size) ==> data@[i]
                    == old(data)@[i],
            ok ==> forall|i: int|
                0 <= i < len && (p1 <= i < p1 + k || p2 <= i < p2 + k) ==> data@[i] == swap_spec(
                    old(data)@,
                    p1 as int,
                    p2 as int,
                    size as int,
                    preserve_alpha,
                )[i],
            ok ==> forall|i: int|
                0 <= i < len && (p1 + k <= i < p1 + size || p2 + k <= i < p2 + size) ==> data@[i]
                    == old(data)@[i],
        decreases size - k,
    {
        proof {
            vstd::arithmetic::div_mod::lemma_add_mod_noop(p1 as int, k as int, 4);
            vstd::arithmetic::div_mod::lemma_add_mod_noop(p2 as int, k as int, 4);
            vstd::arithmetic::div_mod::lemma_mod_twice(k as int, 4);
        }
        if !(preserve_alpha && k % 4 == 3) {
            let ghost pre = data@;
            swap_bytes(data, p1 + k, p2 + k);
            proof {
                lemma_swap_preserves_planes(pre, (p1 + k) as int, (p2 + k) as int);
                assert(data@ =~= pre.update((p1 + k) as int, pre[(p2 + k) as int]).update(
                    (p2 + k) as int,
                    pre[(p1 + k) as int],
                ));
            }
        }
        k += 1;
    }
    proof {
        if ok {
            assert(data@ =~= swap_spec(
                old(data)@,
                p1 as int,
                p2 as int,
                size as int,
                preserve_alpha,
            ));
        }
    }
}

/// The chunk size ChunkSwap works with, in bytes: five percent of the
/// pixel count scaled by the chunk-size option (in hundredths, at most
/// 100), clamped between 16 bytes and an eighth of the buffer.
pub open spec fn planned_chunk(len: int, width: u32, chunk_percent: Option<usize>) -> int {
    let h = (len / 4) / (width as int);
    let base = (width as int) * h / 20;
    let pct0 = match chunk_percent {
        Some(p) => p as int,
        None => 50int,
    };
    let pct = if pct0 > 100 {
        100int
    } else {
        pct0
    };
    let scaled = base * pct / 100;
    let clamped = if scaled < 16 {
        16int
    } else {
        scaled
    };
    if clamped > len / 8 {
        len / 8
    } else {
        clamped
    }
}

/// No swap fits: the buffer has no aligned window of at least four bytes
/// beside two chunks.
pub open spec fn swaps_degenerate(len: int, width: u32, chunk_percent: Option<usize>) -> bool {
    len < 4 || planned_chunk(len, width, chunk_percent) > (len - 4) / 2
}

/// ChunkSwap: exchanges randomly placed pixel-aligned chunks of the buffer
/// a number of times. The chunk size is five percent of the pixel count
/// scaled by the chunk-size option, clamped between 16 bytes and an eighth
/// of the buffer. No channel plane's multiset of values changes, alpha
/// bytes stay put when `preserve_alpha` is set, and with no swaps
/// requested, or no window a swap could fit in, the buffer is unchanged.
pub fn chunk_swap(data: &mut Vec<u8>, width: u32, options: &ChunkSwapOptions, rng: &mut RandomSource)
    requires
        fits_width(old(data)@, width),
    ensures
        final(data)@.len() == old(data)@.len(),
        forall|c: int|
            0 <= c < 4 ==> #[trigger] channel_plane(final(data)@, c).to_multiset()
                == channel_plane(old(data)@, c).to_multiset(),
        options.preserve_alpha ==> forall|i: int|
            0 <= i < final(data)@.len() && i % 4 == 3 ==> final(data)@[i] == old(data)@[i],
        options.swaps == 0 ==> final(data)@ == old(data)@,
        swaps_degenerate(old(data)@.len() as int, width, options.chunk_percent) ==> final(data)@
            == old(data)@,
{
    proof {
        lemma_buffer_dims(old(data)@, width);
    }
    let len = data.len();
    let h = len / 4 / (width as usize);
    proof {
        assert((width as int) * (h as int) <= len) by (nonlinear_arith)
            requires
                len == 4 * (width as int) * (h as int),
        ;
    }
    let base: usize = (width as usize) * h / 20;
    let pct0 = match options.chunk_percent {
        Some(p) => p,
        None => 50,
    };
    let pct: usize = if pct0 > 100 {
        100
    } else {
        pct0
    };
    proof {
        assert((base as int) * (pct as int) <= (base as int) * 100) by (nonlinear_arith)
            requires
                pct <= 100,
                base >= 0,
        ;
        assert((base as int) * 100 <= usize::MAX * 100);
    }
    let scaled: u128 = (base as u128) * (pct as u128) / 100;
    proof {
        vstd::arithmetic::div_mod::lemma_div_is_ordered(
            (base as int) * (pct as int),
            (base as int) * 100,
            100,
        );
        vstd::arithmetic::div_mod::lemma_fundamental_div_mod_converse(
            (base as int) * 100,
            100,
            base as int,
            0,
        );
    }
    let chunk0: usize = scaled as usize;
    let chunk1: usize = if chunk0 < 16 {
        16
    } else {
        chunk0
    };
    let chunk: usize = if chunk1 > len / 8 {
        len / 8
    } else {
        chunk1
    };
    proof {
        assert(chunk == planned_chunk(len as int, width, options.chunk_percent));
    }
    let mut s: usize = 0;
    while s < options.swaps
        invariant
            rgba_len(old(data)@),
            data@.len() == old(data)@.len(),
            data@.len() == len,
            chunk <= len / 8,
            s <= options.swaps,
            forall|c: int|
                0 <= c < 4 ==> #[trigger] channel_plane(data@, c).to_multiset() == channel_plane(
                    old(data)@,
                    c,
                ).to_multiset(),
            options.preserve_alpha ==> forall|i: int|
                0 <= i < len && i % 4 == 3 ==> data@[i] == old(data)@[i],
            s == 0 ==> data@ == old(data)@,
            (len < 4 || chunk > (len - 4) / 2) ==> data@ == old(data)@,
        decreases options.swaps - s,
    {
        if len >= 4 && chunk <= (len - 4) / 2 {
            let max_start = len - 2 * chunk;
            let r1 = rng.uniform(0, max_start);
            let p1 = r1 - r1 % 4;
            let r2 = rng.uniform(0, max_start);
            let p2 = r2 - r2 % 4;
            swap_chunks(data, p1, p2, chunk, options.preserve_alpha);
        }
        s += 1;
    }
}

} // verus!
