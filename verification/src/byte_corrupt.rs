use vstd::prelude::*;
use crate::buffer::rgba_len;
use crate::options::ByteCorruptOptions;
use crate::options::CorruptMode;
use crate::rng::RandomSource;

verus! {

/// What a corruption write leaves of a byte: zero, 255, the old value with
/// exactly one bit flipped, or (for a randomized write) anything.
pub open spec fn corrupt_byte_written(o: u8, n: u8, mode: CorruptMode) -> bool {
    match mode {
        CorruptMode::Randomize => true,
        CorruptMode::FlipBit => exists|k: u8| k < 8 && n == (o ^ (1u8 << k)),
        CorruptMode::Zero => n == 0,
        CorruptMode::Max => n == 255,
    }
}

/// What one corruption pass may leave of a byte: either it was not hit, or
/// it was rewritten as the mode says.
pub open spec fn corrupt_byte_ok(o: u8, n: u8, mode: CorruptMode) -> bool {
    n == o || corrupt_byte_written(o, n, mode)
}

/// The byte value an explicit mode always writes, where there is one:
/// zeroing writes 0, maxing writes 255; bit flips and random bytes depend
/// on what they hit.
pub open spec fn forced_byte(mode: CorruptMode) -> Option<u8> {
    match mode {
        CorruptMode::Zero => Some(0u8),
        CorruptMode::Max => Some(255u8),
        _ => None,
    }
}

/// The corruption block span in bytes: the option, at least one.
pub open spec fn block_span(block_size: Option<usize>) -> int {
    match block_size {
        Some(b) => if b < 1 {
            1int
        } else {
            b as int
        },
        None => 1int,
    }
}

/// Every byte that differs between the two buffers lies in one of the
/// blocks starting at the given positions.
pub open spec fn changes_covered(o: Seq<u8>, n: Seq<u8>, ps: Seq<int>, block: int) -> bool {
    forall|i: int|
        0 <= i < n.len() && n[i] != o[i] ==> exists|k: int|
            0 <= k < ps.len() && #[trigger] ps[k] <= i < ps[k] + block
}

/// What any number of corruption passes may leave of a byte under an
/// explicit mode: zeroing only ever writes 0, maxing only ever writes 255.
/// Bit flips and random bytes may compound, so they promise nothing.
pub open spec fn corrupt_byte_stable(o: u8, n: u8, mode: CorruptMode) -> bool {
    match mode {
        CorruptMode::Zero => n == o || n == 0,
        CorruptMode::Max => n == o || n == 255,
        _ => true,
    }
}

/// How many corruptions a buffer of `len` bytes receives: the rate in
/// thousandths, capped at fifty (five percent), of the length.
pub open spec fn corruption_count(len: int, intensity: int) -> int {
    let eff = if intensity > 50 {
        50int
    } else {
        intensity
    };
    len * eff / 1000
}

/// One byte corrupted in place according to the mode.
fn corrupt_one(data: &mut Vec<u8>, pos: usize, mode: CorruptMode, rng: &mut RandomSource)
    requires
        pos < old(data)@.len(),
    ensures
        final(data)@.len() == old(data)@.len(),
        forall|i: int| 0 <= i < final(data)@.len() && i != pos ==> final(data)@[i] == old(data)@[i],
        corrupt_byte_written(old(data)@[pos as int], final(data)@[pos as int], mode),
{
    match mode {
        CorruptMode::Randomize => {
            let b = rng.next_byte();
            data.set(pos, b);
        },
        CorruptMode::FlipBit => {
            let k = rng.uniform(0, 8) as u8;
            let v = data[pos];
            data.set(pos, v ^ (1u8 << k));
            proof {
                assert(final(data)@[pos as int] == (old(data)@[pos as int] ^ (1u8 << k)));
            }
        },
        CorruptMode::Zero => {
            data.set(pos, 0);
        },
        CorruptMode::Max => {
            data.set(pos, 255);
        },
    }
}

/// A block of bytes corrupted in place according to the mode, truncated at
/// the buffer end: bytes outside the block stay, and every byte the block
/// covers is rewritten as the mode says (a zero or 255 written, one bit
/// flipped, or a random byte).
pub fn corrupt_block(data: &mut Vec<u8>, pos: usize, block: usize, mode: CorruptMode, rng: &mut RandomSource)
    requires
        pos < old(data)@.len(),
    ensures
        final(data)@.len() == old(data)@.len(),
        forall|i: int|
            0 <= i < final(data)@.len() && !(pos <= i < pos + block) ==> final(data)@[i] == old(
                data,
            )@[i],
        forall|i: int|
            0 <= i < final(data)@.len() && pos <= i < pos + block ==> corrupt_byte_written(
                old(data)@[i],
                final(data)@[i],
                mode,
            ),
        forall|i: int|
            0 <= i < final(data)@.len() ==> corrupt_byte_ok(old(data)@[i], final(data)@[i], mode),
{
    let len = data.len();
    let end = if block > len - pos {
        len
    } else {
        pos + block
    };
    let mut p: usize = pos;
    while p < end
        invariant
            data@.len() == old(data)@.len(),
            data@.len() == len,
            pos <= p <= end,
            end <= len,
            end <= pos + block,
            forall|i: int| 0 <= i < len && !(pos <= i < p) ==> data@[i] == old(data)@[i],
            forall|i: int|
                pos <= i < p ==> corrupt_byte_written(old(data)@[i], data@[i], mode),
            forall|i: int| 0 <= i < len ==> corrupt_byte_ok(old(data)@[i], data@[i], mode),
        decreases end - p,
    {
        corrupt_one(data, p, mode, rng);
        p += 1;
    }
}

/// ByteCorrupt: corrupts short byte spans at either structured (evenly
/// strided, each kept with seven-in-ten probability) or uniformly random
/// positions. The number of corruptions is the intensity rate applied to
/// the buffer length; a rate of zero corrupts nothing and leaves the buffer
/// unchanged, and every changed byte lies in one of at most that many
/// blocks. With an explicit Zero or Max mode every byte is either kept or
/// set to 0 or 255; an absent mode is drawn at random.
pub fn byte_corrupt(data: &mut Vec<u8>, options: &ByteCorruptOptions, rng: &mut RandomSource)
    requires
        rgba_len(old(data)@),
    ensures
        final(data)@.len() == old(data)@.len(),
        corruption_count(old(data)@.len() as int, options.intensity as int) == 0 ==> final(data)@
            == old(data)@,
        forall|i: int|
            0 <= i < final(data)@.len() && options.mode is Some ==> corrupt_byte_stable(
                old(data)@[i],
                final(data)@[i],
                options.mode->0,
            ),
        exists|ps: Seq<int>|
            ps.len() <= corruption_count(old(data)@.len() as int, options.intensity as int)
                && changes_covered(
                old(data)@,
                final(data)@,
                ps,
                block_span(options.block_size),
            ),
        (!options.structured && options.mode is Some && forced_byte(options.mode->0) is Some)
            ==> exists|ps: Seq<int>|
            {
                &&& ps.len() == corruption_count(
                    old(data)@.len() as int,
                    options.intensity as int,
                )
                &&& forall|k: int| 0 <= k < ps.len() ==> 0 <= #[trigger] ps[k] < final(data)@.len()
                &&& forall|k: int, i: int|
                    #![trigger ps[k], final(data)@[i]]
                    0 <= k < ps.len() && ps[k] <= i < ps[k] + block_span(options.block_size) && 0
                        <= i < final(data)@.len() ==> final(data)@[i] == forced_byte(
                        options.mode->0,
                    )->0
                &&& changes_covered(old(data)@, final(data)@, ps, block_span(options.block_size))
            },
{
    let len = data.len();
    let eff: usize = if options.intensity > 50 {
        50
    } else {
        options.intensity
    };
    proof {
        assert((len as int) * (eff as int) <= (len as int) * 50) by (nonlinear_arith)
            requires
                eff <= 50,
                len >= 0,
        ;
        vstd::arithmetic::div_mod::lemma_div_is_ordered(
            (len as int) * (eff as int),
            (len as int) * 50,
            1000,
        );
        vstd::arithmetic::div_mod::lemma_div_is_ordered_by_denominator((len as int) * 50, 20, 1000);
        vstd::arithmetic::div_mod::lemma_fundamental_div_mod_converse(
            (len as int) * 50,
            50,
            len as int,
            0,
        );
    }
    let count: usize = (((len as u128) * (eff as u128)) / 1000) as usize;
    proof {
        assert(count == corruption_count(len as int, options.intensity as int));
    }
    if count == 0 {
        proof {
            assert(changes_covered(
                old(data)@,
                data@,
                Seq::<int>::empty(),
                block_span(options.block_size),
            ));
            assert(Seq::<int>::empty().len() == 0);
        }
        return ;
    }
    let block: usize = match options.block_size {
        Some(b) => if b < 1 {
            1
        } else {
            b
        },
        None => 1,
    };
    proof {
        assert(block == block_span(options.block_size));
    }
    if options.structured {
        let stride0 = len / count;
        let stride = if stride0 < 1 {
            1
        } else {
            stride0
        };
        let mode = match options.mode {
            Some(m) => m,
            None => random_mode(rng),
        };
        let ghost mut ps: Seq<int> = Seq::empty();
        let mut q: usize = 0;
        while q < count
            invariant
                data@.len() == old(data)@.len(),
                data@.len() == len,
                len >= 1,
                q <= count,
                block == block_span(options.block_size),
                options.mode is Some ==> mode == options.mode->0,
                forall|i: int|
                    0 <= i < len ==> corrupt_byte_stable(old(data)@[i], data@[i], mode),
                ps.len() <= q,
                changes_covered(old(data)@, data@, ps, block as int),
            decreases count - q,
        {
            if rng.chance(7, 10) {
                proof {
                    vstd::arithmetic::div_mod::lemma_mod_bound((q as int) * (stride as int), len as int);
                }
                let pos = mul_mod(q, stride, len);
                let ghost mid = data@;
                let ghost ps0 = ps;
                corrupt_block(data, pos, block, mode, rng);
                proof {
                    ps = ps0.push(pos as int);
                    assert forall|i: int| 0 <= i < len implies corrupt_byte_stable(
                        old(data)@[i],
                        data@[i],
                        mode,
                    ) by {
                        lemma_ok_trans(old(data)@[i], mid[i], data@[i], mode);
                    }
                    lemma_cover_step(old(data)@, mid, data@, ps0, ps, pos as int, block as int);
                }
            }
            q += 1;
        }
        proof {
            assert(ps.len() <= corruption_count(len as int, options.intensity as int));
        }
    } else {
        let ghost mut ps: Seq<int> = Seq::empty();
        let mut q: usize = 0;
        while q < count
            invariant
                data@.len() == old(data)@.len(),
                data@.len() == len,
                len >= 1,
                q <= count,
                block == block_span(options.block_size),
                forall|i: int|
                    0 <= i < len && options.mode is Some ==> corrupt_byte_stable(
                        old(data)@[i],
                        data@[i],
                        options.mode->0,
                    ),
                ps.len() == q,
                forall|k: int| 0 <= k < ps.len() ==> 0 <= #[trigger] ps[k] < len,
                (options.mode is Some && forced_byte(options.mode->0) is Some) ==> forall|
                    k: int,
                    i: int,
                |
                    #![trigger ps[k], data@[i]]
                    0 <= k < ps.len() && ps[k] <= i < ps[k] + block && 0 <= i < len ==> data@[i]
                        == forced_byte(options.mode->0)->0,
                changes_covered(old(data)@, data@, ps, block as int),
            decreases count - q,
        {
            let pos = rng.uniform(0, len);
            let mode = match options.mode {
                Some(m) => m,
                None => random_mode(rng),
            };
            let ghost mid = data@;
            let ghost ps0 = ps;
            corrupt_block(data, pos, block, mode, rng);
            proof {
                ps = ps0.push(pos as int);
                if options.mode is Some {
                    assert forall|i: int| 0 <= i < len implies corrupt_byte_stable(
                        old(data)@[i],
                        data@[i],
                        options.mode->0,
                    ) by {
                        lemma_ok_trans(old(data)@[i], mid[i], data@[i], options.mode->0);
                    }
                }
                lemma_cover_step(old(data)@, mid, data@, ps0, ps, pos as int, block as int);
                if options.mode is Some && forced_byte(options.mode->0) is Some {
                    let fv = forced_byte(options.mode->0)->0;
                    assert forall|k: int, i: int|
                        #![trigger ps[k], data@[i]]
                        0 <= k < ps.len() && ps[k] <= i < ps[k] + block && 0 <= i < len implies data@[i]
                            == fv by {
                        if pos <= i < pos + block {
                            assert(corrupt_byte_written(mid[i], data@[i], mode));
                        } else {
                            assert(k < ps0.len());
                            assert(data@[i] == mid[i]);
                        }
                    }
                }
            }
            q += 1;
        }
        proof {
            assert(ps.len() == corruption_count(len as int, options.intensity as int));
        }
    }
}

/// The product `a * b` reduced modulo `m`, for strided positions that wrap
/// around the buffer.
fn mul_mod(a: usize, b: usize, m: usize) -> (r: usize)
    requires
        m >= 1,
    ensures
        r == (a as int) * (b as int) % (m as int),
        r < m,
{
    proof {
        assert((a as int) * (b as int) <= usize::MAX * usize::MAX) by (nonlinear_arith)
            requires
                a <= usize::MAX,
                b <= usize::MAX,
        ;
        vstd::arithmetic::div_mod::lemma_mod_bound((a as int) * (b as int), m as int);
    }
    (((a as u128) * (b as u128)) % (m as u128)) as usize
}

/// A corruption mode drawn uniformly.
fn random_mode(rng: &mut RandomSource) -> CorruptMode {
    let k = rng.uniform(0, 4);
    if k == 0 {
        CorruptMode::Randomize
    } else if k == 1 {
        CorruptMode::FlipBit
    } else if k == 2 {
        CorruptMode::Zero
    } else {
        CorruptMode::Max
    }
}

proof fn lemma_cover_step(
    o: Seq<u8>,
    mid: Seq<u8>,
    n: Seq<u8>,
    ps0: Seq<int>,
    ps: Seq<int>,
    pos: int,
    block: int,
)
    requires
        o.len() == mid.len(),
        mid.len() == n.len(),
        ps == ps0.push(pos),
        changes_covered(o, mid, ps0, block),
        forall|i: int| 0 <= i < n.len() && !(pos <= i < pos + block) ==> n[i] == mid[i],
    ensures
        changes_covered(o, n, ps, block),
{
    assert forall|i: int| 0 <= i < n.len() && n[i] != o[i] implies exists|k: int|
        0 <= k < ps.len() && #[trigger] ps[k] <= i < ps[k] + block by {
        if pos <= i < pos + block {
            assert(ps[ps0.len() as int] == pos);
        } else {
            assert(mid[i] != o[i]);
            let k = choose|k: int|
                0 <= k < ps0.len() && #[trigger] ps0[k] <= i < ps0[k] + block;
            assert(ps[k] == ps0[k]);
        }
    }
}

proof fn lemma_ok_trans(o: u8, m: u8, n: u8, mode: CorruptMode)
    requires
        corrupt_byte_stable(o, m, mode),
        corrupt_byte_ok(m, n, mode),
    ensures
        corrupt_byte_stable(o, n, mode),
{
}

} // verus!
