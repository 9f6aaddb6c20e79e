use vstd::prelude::*;
use crate::buffer::rgba_len;
use crate::options::ChannelShiftOptions;
use crate::options::ShiftDirection;
use crate::rng::RandomSource;

verus! {

/// One channel class rotated: every byte of class `c` takes the value that
/// class holds at the pixel `sh` further on, wrapping around the pixel
/// count; all other bytes stay.
pub open spec fn shifted_channel(s: Seq<u8>, c: int, sh: int) -> Seq<u8>
    recommends
        rgba_len(s),
        0 <= c < 3,
{
    let n = (s.len() / 4) as int;
    Seq::new(
        s.len(),
        |i: int|
            if i % 4 == c {
                s[4 * (((i / 4) + sh) % n) + c]
            } else {
                s[i]
            },
    )
}

/// The channel list applied in order, each rotation acting on the outcome
/// of the previous one; entries of three or more are skipped (alpha is
/// never eligible).
pub open spec fn shifted_channels(s: Seq<u8>, chans: Seq<usize>, sh: int) -> Seq<u8>
    decreases chans.len(),
{
    if chans.len() == 0 {
        s
    } else {
        let rest = shifted_channels(s, chans.drop_last(), sh);
        if chans.last() < 3 {
            shifted_channel(rest, chans.last() as int, sh)
        } else {
            rest
        }
    }
}

/// The channels an absent selection falls back to: R, G and B.
pub open spec fn resolved_channels(chans: Option<Vec<usize>>) -> Seq<usize> {
    match chans {
        Some(v) => v@,
        None => seq![0usize, 1usize, 2usize],
    }
}

proof fn lemma_neg_mod(a: int, n: int)
    requires
        a >= 0,
        n >= 1,
    ensures
        (-a) % n == (n - a % n) % n,
{
    let q = a / n;
    let r = a % n;
    vstd::arithmetic::div_mod::lemma_fundamental_div_mod(a, n);
    vstd::arithmetic::div_mod::lemma_mod_bound(a, n);
    if r == 0 {
        assert(-a == (-q) * n + 0) by (nonlinear_arith)
            requires
                a == n * q + r,
                r == 0,
        ;
        vstd::arithmetic::div_mod::lemma_fundamental_div_mod_converse(-a, n, -q, 0);
        vstd::arithmetic::div_mod::lemma_mod_self_0(n);
    } else {
        assert(-a == (-q - 1) * n + (n - r)) by (nonlinear_arith)
            requires
                a == n * q + r,
        ;
        vstd::arithmetic::div_mod::lemma_fundamental_div_mod_converse(-a, n, -q - 1, n - r);
        vstd::arithmetic::div_mod::lemma_small_mod((n - r) as nat, n as nat);
    }
}

/// Rotations by amounts congruent modulo the pixel count agree.
proof fn lemma_shift_offset_equiv(s: Seq<u8>, c: int, sh: int, off: int)
    requires
        s.len() >= 4,
        sh % ((s.len() / 4) as int) == off % ((s.len() / 4) as int),
    ensures
        shifted_channel(s, c, sh) == shifted_channel(s, c, off),
{
    let n = (s.len() / 4) as int;
    assert forall|i: int| 0 <= i < s.len() implies shifted_channel(s, c, sh)[i] == shifted_channel(
        s,
        c,
        off,
    )[i] by {
        if i % 4 == c {
            vstd::arithmetic::div_mod::lemma_add_mod_noop(i / 4, sh, n);
            vstd::arithmetic::div_mod::lemma_add_mod_noop(i / 4, off, n);
        }
    }
    assert(shifted_channel(s, c, sh) =~= shifted_channel(s, c, off));
}

proof fn lemma_shifted_channels_equiv(s: Seq<u8>, chans: Seq<usize>, sh: int, off: int)
    requires
        s.len() >= 4,
        rgba_len(s),
        sh % ((s.len() / 4) as int) == off % ((s.len() / 4) as int),
    ensures
        shifted_channels(s, chans, sh) == shifted_channels(s, chans, off),
    decreases chans.len(),
{
    if chans.len() > 0 {
        lemma_shifted_channels_equiv(s, chans.drop_last(), sh, off);
        let rest = shifted_channels(s, chans.drop_last(), sh);
        lemma_shifted_channels_len(s, chans.drop_last(), sh);
        if chans.last() < 3 {
            lemma_shift_offset_equiv(rest, chans.last() as int, sh, off);
        }
    }
}

proof fn lemma_shifted_channels_len(s: Seq<u8>, chans: Seq<usize>, sh: int)
    ensures
        shifted_channels(s, chans, sh).len() == s.len(),
    decreases chans.len(),
{
    if chans.len() > 0 {
        lemma_shifted_channels_len(s, chans.drop_last(), sh);
    }
}

/// Law: a rotation distance of zero is the identity, whatever the channel
/// selection.
pub proof fn lemma_shift_zero_identity(s: Seq<u8>, chans: Seq<usize>)
    requires
        rgba_len(s),
    ensures
        shifted_channels(s, chans, 0) == s,
    decreases chans.len(),
{
    if chans.len() > 0 {
        lemma_shift_zero_identity(s, chans.drop_last());
        if chans.last() < 3 {
            let c = chans.last() as int;
            let n = (s.len() / 4) as int;
            assert forall|i: int| 0 <= i < s.len() implies shifted_channel(s, c, 0)[i] == s[i] by {
                if i % 4 == c {
                    vstd::arithmetic::div_mod::lemma_fundamental_div_mod(i, 4);
                    vstd::arithmetic::div_mod::lemma_mod_bound(i, 4);
                    assert(i / 4 < n) by {
                        if i / 4 >= n {
                            assert(4 * (i / 4) >= 4 * n) by (nonlinear_arith)
                                requires
                                    i / 4 >= n,
                            ;
                        }
                    }
                    vstd::arithmetic::div_mod::lemma_small_mod((i / 4) as nat, n as nat);
                    assert(s[4 * ((i / 4 + 0) % n) + c] == s[i]);
                }
            }
            assert(shifted_channel(s, c, 0) =~= s);
        }
    }
}

/// One channel class rotated in place by a reduced, non-negative offset.
fn shift_one(data: &mut Vec<u8>, c: usize, off: usize)
    requires
        rgba_len(old(data)@),
        old(data)@.len() >= 4,
        c < 3,
        off < old(data)@.len() / 4,
    ensures
        final(data)@.len() == old(data)@.len(),
        final(data)@ == shifted_channel(old(data)@, c as int, off as int),
{
    let len = data.len();
    let n = len / 4;
    let mut temp: Vec<u8> = Vec::new();
    let mut k: usize = 0;
    while k < n
        invariant
            data@ == old(data)@,
            data@.len() == len,
            len == 4 * n,
            n >= 1,
            c < 3,
            k <= n,
            temp@.len() == k,
            forall|q: int| 0 <= q < k ==> temp@[q] == data@[4 * q + c],
        decreases n - k,
    {
        proof {
            assert(4 * (k as int) + c < 4 * (n as int));
        }
        temp.push(data[4 * k + c]);
        k += 1;
    }
    let mut k2: usize = 0;
    while k2 < n
        invariant
            data@.len() == old(data)@.len(),
            data@.len() == len,
            len == 4 * n,
            n >= 1,
            c < 3,
            off < n,
            k2 <= n,
            temp@.len() == n,
            forall|q: int| 0 <= q < n ==> temp@[q] == old(data)@[4 * q + c],
            forall|i: int|
                0 <= i < len && i % 4 == c && i / 4 < k2 ==> data@[i] == old(data)@[4 * (((i / 4)
                    + off) % (n as int)) + c],
            forall|i: int|
                0 <= i < len && (i % 4 != c || i / 4 >= k2) ==> data@[i] == old(data)@[i],
        decreases n - k2,
    {
        let src = (k2 + off) % n;
        proof {
            assert(4 * (k2 as int) + c < 4 * (n as int));
            assert(4 * (src as int) + c < 4 * (n as int));
            vstd::arithmetic::div_mod::lemma_fundamental_div_mod_converse(
                4 * (k2 as int) + (c as int),
                4,
                k2 as int,
                c as int,
            );
        }
        let v = temp[src];
        data.set(4 * k2 + c, v);
        k2 += 1;
    }
    proof {
        assert forall|i: int| 0 <= i < len implies data@[i] == shifted_channel(
            old(data)@,
            c as int,
            off as int,
        )[i] by {
            vstd::arithmetic::div_mod::lemma_fundamental_div_mod(i, 4);
            vstd::arithmetic::div_mod::lemma_mod_bound(i, 4);
            if i % 4 == c {
                assert(i / 4 < n) by {
                    if i / 4 >= n {
                        assert(4 * (i / 4) >= 4 * (n as int)) by (nonlinear_arith)
                            requires
                                i / 4 >= n,
                        ;
                    }
                }
            }
        }
        assert(data@ =~= shifted_channel(old(data)@, c as int, off as int));
    }
}

/// ChannelShift: each selected channel plane (defaulting to R, G and B;
/// alpha never eligible) is rotated by the shift distance, rightward
/// entries reading from later pixels and leftward ones from earlier pixels,
/// wrapping around. An absent direction is drawn uniformly, so one of the
/// two rotations results.
pub fn channel_shift(data: &mut Vec<u8>, options: &ChannelShiftOptions, rng: &mut RandomSource)
    requires
        rgba_len(old(data)@),
    ensures
        final(data)@.len() == old(data)@.len(),
        ({
            let chans = resolved_channels(options.channels);
            let sh = options.shift as int;
            match options.direction {
                Some(ShiftDirection::Right) => final(data)@ == shifted_channels(
                    old(data)@,
                    chans,
                    sh,
                ),
                Some(ShiftDirection::Left) => final(data)@ == shifted_channels(
                    old(data)@,
                    chans,
                    -sh,
                ),
                None => final(data)@ == shifted_channels(old(data)@, chans, sh) || final(data)@
                    == shifted_channels(old(data)@, chans, -sh),
            }
        }),
{
    let ghost chans = resolved_channels(options.channels);
    let len = data.len();
    let n = len / 4;
    if n == 0 {
        proof {
            lemma_empty_shift(old(data)@, chans, options.shift as int);
            lemma_empty_shift(old(data)@, chans, -(options.shift as int));
        }
        return ;
    }
    let right: bool = match options.direction {
        Some(ShiftDirection::Right) => true,
        Some(ShiftDirection::Left) => false,
        None => rng.coin(),
    };
    let sh_red = options.shift % n;
    let off = if right {
        sh_red
    } else {
        (n - sh_red) % n
    };
    let ghost sh_signed: int = if right {
        options.shift as int
    } else {
        -(options.shift as int)
    };
    proof {
        vstd::arithmetic::div_mod::lemma_mod_bound(options.shift as int, n as int);
        vstd::arithmetic::div_mod::lemma_mod_bound((n - sh_red) as int, n as int);
        vstd::arithmetic::div_mod::lemma_mod_twice(options.shift as int, n as int);
        if !right {
            lemma_neg_mod(options.shift as int, n as int);
            vstd::arithmetic::div_mod::lemma_mod_twice((n - sh_red) as int, n as int);
        }
        assert(sh_signed % (n as int) == (off as int) % (n as int));
    }
    match &options.channels {
        Some(v) => {
            let mut k: usize = 0;
            while k < v.len()
                invariant
                    rgba_len(old(data)@),
                    data@.len() == old(data)@.len(),
                    data@.len() == len,
                    len == 4 * n,
                    n >= 1,
                    off < n,
                    k <= v@.len(),
                    data@ == shifted_channels(old(data)@, v@.take(k as int), off as int),
                decreases v@.len() - k,
            {
                let c = v[k];
                proof {
                    lemma_step(old(data)@, v@, k as int, off as int);
                    lemma_shifted_channels_len(old(data)@, v@.take(k as int), off as int);
                }
                if c < 3 {
                    shift_one(data, c, off);
                }
                k += 1;
            }
            proof {
                assert(v@.take(v@.len() as int) =~= v@);
                lemma_shifted_channels_equiv(old(data)@, v@, sh_signed, off as int);
            }
        },
        None => {
            proof {
                lemma_rgb_unfold(old(data)@, off as int);
                lemma_shifted_channels_len(old(data)@, seq![0usize, 1usize], off as int);
                lemma_shifted_channels_len(old(data)@, seq![0usize], off as int);
            }
            shift_one(data, 0, off);
            shift_one(data, 1, off);
            shift_one(data, 2, off);
            proof {
                lemma_shifted_channels_equiv(old(data)@, chans, sh_signed, off as int);
            }
        },
    }
}

proof fn lemma_empty_shift(s: Seq<u8>, chans: Seq<usize>, sh: int)
    requires
        s.len() == 0,
    ensures
        shifted_channels(s, chans, sh) == s,
    decreases chans.len(),
{
    if chans.len() > 0 {
        lemma_empty_shift(s, chans.drop_last(), sh);
        if chans.last() < 3 {
            assert(shifted_channel(s, chans.last() as int, sh) =~= s);
        }
    }
}

proof fn lemma_step(s: Seq<u8>, chans: Seq<usize>, k: int, sh: int)
    requires
        0 <= k < chans.len(),
    ensures
        shifted_channels(s, chans.take(k + 1), sh) == (if chans[k] < 3 {
            shifted_channel(shifted_channels(s, chans.take(k), sh), chans[k] as int, sh)
        } else {
            shifted_channels(s, chans.take(k), sh)
        }),
{
    let t = chans.take(k + 1);
    assert(t.drop_last() =~= chans.take(k));
    assert(t.last() == chans[k]);
}

proof fn lemma_rgb_unfold(s: Seq<u8>, sh: int)
    ensures
        shifted_channels(s, seq![0usize, 1usize, 2usize], sh) == shifted_channel(
            shifted_channel(shifted_channel(s, 0, sh), 1, sh),
            2,
            sh,
        ),
{
    let c3 = seq![0usize, 1usize, 2usize];
    let c2 = seq![0usize, 1usize];
    let c1 = seq![0usize];
    let c0 = Seq::<usize>::empty();
    assert(c3.drop_last() =~= c2);
    assert(c2.drop_last() =~= c1);
    assert(c1.drop_last() =~= c0);
    assert(c3.last() == 2usize && c2.last() == 1usize && c1.last() == 0usize);
    assert(shifted_channels(s, c0, sh) == s);
    assert(shifted_channels(s, c1, sh) == shifted_channel(s, 0, sh));
    assert(shifted_channels(s, c2, sh) == shifted_channel(shifted_channel(s, 0, sh), 1, sh));
}

} // verus!
