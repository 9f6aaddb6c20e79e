use vstd::prelude::*;
use vstd::seq_lib::lemma_multiset_commutative;
use crate::buffer::align_down4;
use crate::buffer::channel_plane;
use crate::buffer::lemma_swap_preserves_planes;
use crate::buffer::rgba_len;
use crate::options::BendChannel;
use crate::options::BendMode;
use crate::options::DataBendOptions;
use crate::rng::RandomSource;

verus! {

/// The set of channels one DataBend iteration touches.
#[derive(Clone, Copy, PartialEq, Eq, Structural, Debug)]
pub struct ChannelSet {
    pub r: bool,
    pub g: bool,
    pub b: bool,
    pub a: bool,
}

/// Whether the set holds channel `c`.
pub open spec fn set_has(cs: ChannelSet, c: int) -> bool {
    if c == 0 {
        cs.r
    } else if c == 1 {
        cs.g
    } else if c == 2 {
        cs.b
    } else {
        cs.a
    }
}

/// Whether a channel option selects channel `c`: a single channel when
/// given, every channel when absent.
pub open spec fn bend_selects(oc: Option<BendChannel>, c: int) -> bool {
    match oc {
        None => true,
        Some(BendChannel::Red) => c == 0,
        Some(BendChannel::Green) => c == 1,
        Some(BendChannel::Blue) => c == 2,
        Some(BendChannel::Alpha) => c == 3,
    }
}

/// The channel set a channel option selects.
pub open spec fn channel_set_spec(oc: Option<BendChannel>) -> ChannelSet {
    match oc {
        None => ChannelSet { r: true, g: true, b: true, a: true },
        Some(BendChannel::Red) => ChannelSet { r: true, g: false, b: false, a: false },
        Some(BendChannel::Green) => ChannelSet { r: false, g: true, b: false, a: false },
        Some(BendChannel::Blue) => ChannelSet { r: false, g: false, b: true, a: false },
        Some(BendChannel::Alpha) => ChannelSet { r: false, g: false, b: false, a: true },
    }
}

/// A buffer after one Duplicate: the chunk's selected channels copied onto
/// the chunk immediately following it.
pub open spec fn dup_spec(s: Seq<u8>, pos: int, chunk: int, cs: ChannelSet) -> Seq<u8> {
    Seq::new(
        s.len(),
        |i: int|
            if pos + chunk <= i < pos + 2 * chunk && set_has(cs, i % 4) {
                s[i - chunk]
            } else {
                s[i]
            },
    )
}

/// A buffer after one Reverse: the chunk's pixel order reversed on the
/// selected channels.
pub open spec fn reverse_spec(s: Seq<u8>, pos: int, chunk: int, cs: ChannelSet) -> Seq<u8> {
    Seq::new(
        s.len(),
        |i: int|
            if pos <= i < pos + chunk && set_has(cs, i % 4) {
                s[pos + 4 * (chunk / 4 - 1 - (i - pos) / 4) + (i - pos) % 4]
            } else {
                s[i]
            },
    )
}

/// A buffer after one Shift: the chunk's selected channels rotated left by
/// `sh` bytes.
pub open spec fn shift_spec(s: Seq<u8>, pos: int, chunk: int, sh: int, cs: ChannelSet) -> Seq<u8> {
    Seq::new(
        s.len(),
        |i: int|
            if pos <= i < pos + chunk && set_has(cs, i % 4) {
                s[pos + ((i - pos + sh) % chunk)]
            } else {
                s[i]
            },
    )
}

/// What one Scramble leaves: some permutation of the chunk's pixels on the
/// selected channels — every channel plane keeps its multiset of values,
/// and everything outside the chunk or outside the selection stays.
pub open spec fn scramble_rel(
    pre: Seq<u8>,
    post: Seq<u8>,
    pos: int,
    chunk: int,
    cs: ChannelSet,
) -> bool {
    &&& post.len() == pre.len()
    &&& forall|c: int|
        0 <= c < 4 ==> #[trigger] channel_plane(post, c).to_multiset() == channel_plane(
            pre,
            c,
        ).to_multiset()
    &&& forall|j: int|
        0 <= j < post.len() && !(pos <= j < pos + chunk && set_has(cs, j % 4)) ==> post[j]
            == pre[j]
}

/// An aligned chunk window one iteration may act on: both the chunk and the
/// one following it fit.
pub open spec fn bend_window_ok(len: int, pos: int, chunk: int) -> bool {
    &&& pos % 4 == 0
    &&& chunk % 4 == 0
    &&& 16 <= chunk
    &&& 0 <= pos
    &&& pos + 2 * chunk <= len
}

/// The largest chunk an iteration can draw: sizes come uniformly from 16 up
/// to the scaled maximum (at least 17), rounded down to a pixel multiple.
pub open spec fn max_chunk_draw(max_chunk: Option<usize>) -> int {
    let hi = match max_chunk {
        Some(m) => if m < 17 {
            17int
        } else {
            m as int
        },
        None => 250int,
    };
    (hi - 1) - (hi - 1) % 4
}

/// Whether an iteration may come out empty: some drawable chunk leaves no
/// aligned start window of at least four bytes.
pub open spec fn bend_skip_possible(len: int, max_chunk: Option<usize>) -> bool {
    len < 4 || max_chunk_draw(max_chunk) > (len - 4) / 2
}

/// What one DataBend iteration may do under an explicit mode: either it was
/// skipped (possible only when some drawable chunk does not fit), or some
/// drawable window received the mode's operation.
pub open spec fn bend_step(
    pre: Seq<u8>,
    post: Seq<u8>,
    mode: BendMode,
    cs: ChannelSet,
    max_chunk: Option<usize>,
) -> bool {
    ||| (bend_skip_possible(pre.len() as int, max_chunk) && post == pre)
    ||| exists|pos: int, chunk: int|
        {
            &&& #[trigger] bend_window_ok(pre.len() as int, pos, chunk)
            &&& chunk <= max_chunk_draw(max_chunk)
            &&& match mode {
                BendMode::Duplicate => post == dup_spec(pre, pos, chunk, cs),
                BendMode::Reverse => post == reverse_spec(pre, pos, chunk, cs),
                BendMode::Shift => exists|sh: int|
                    4 <= sh < chunk && sh % 4 == 0 && post == #[trigger] shift_spec(
                        pre,
                        pos,
                        chunk,
                        sh,
                        cs,
                    ),
                BendMode::Scramble => scramble_rel(pre, post, pos, chunk, cs),
            }
        }
}

/// The buffers reachable from `pre` by `k` iterations of the mode.
pub open spec fn bend_reachable(
    pre: Seq<u8>,
    post: Seq<u8>,
    mode: BendMode,
    cs: ChannelSet,
    max_chunk: Option<usize>,
    k: nat,
) -> bool
    decreases k,
{
    if k == 0 {
        post == pre
    } else {
        exists|mid: Seq<u8>|
            bend_reachable(pre, mid, mode, cs, max_chunk, (k - 1) as nat) && #[trigger] bend_step(
                mid,
                post,
                mode,
                cs,
                max_chunk,
            )
    }
}

fn set_of(oc: &Option<BendChannel>) -> (cs: ChannelSet)
    ensures
        cs == channel_set_spec(*oc),
        forall|c: int| 0 <= c < 4 ==> set_has(cs, c) == bend_selects(*oc, c),
{
    match oc {
        None => ChannelSet { r: true, g: true, b: true, a: true },
        Some(BendChannel::Red) => ChannelSet { r: true, g: false, b: false, a: false },
        Some(BendChannel::Green) => ChannelSet { r: false, g: true, b: false, a: false },
        Some(BendChannel::Blue) => ChannelSet { r: false, g: false, b: true, a: false },
        Some(BendChannel::Alpha) => ChannelSet { r: false, g: false, b: false, a: true },
    }
}

fn has(cs: &ChannelSet, c: usize) -> (b: bool)
    requires
        c < 4,
    ensures
        b == set_has(*cs, c as int),
{
    if c == 0 {
        cs.r
    } else if c == 1 {
        cs.g
    } else if c == 2 {
        cs.b
    } else {
        cs.a
    }
}

/// Channel `c` of the `q`-th pixel at or after byte `pos`.
pub open spec fn pixel_byte(s: Seq<u8>, pos: int, q: int, c: int) -> u8 {
    s[pos + 4 * q + c]
}

proof fn lemma_aligned_mod(pos: int, i: int)
    requires
        pos % 4 == 0,
        0 <= i,
        0 <= pos,
    ensures
        (pos + i) % 4 == i % 4,
{
    vstd::arithmetic::div_mod::lemma_add_mod_noop(pos, i, 4);
    vstd::arithmetic::div_mod::lemma_mod_twice(i, 4);
}

/// Duplicate: the chunk's selected channels are copied verbatim onto the
/// chunk immediately following it.
pub fn bend_duplicate(data: &mut Vec<u8>, pos: usize, chunk: usize, cs: ChannelSet)
    requires
        rgba_len(old(data)@),
        pos % 4 == 0,
        chunk % 4 == 0,
        pos + 2 * chunk <= old(data)@.len(),
    ensures
        final(data)@.len() == old(data)@.len(),
        forall|i: int|
            0 <= i < final(data)@.len() ==> final(data)@[i] == (if pos + chunk <= i < pos + 2
                * chunk && set_has(cs, i % 4) {
                old(data)@[i - chunk]
            } else {
                old(data)@[i]
            }),
        final(data)@ == dup_spec(old(data)@, pos as int, chunk as int, cs),
{
    let len = data.len();
    let mut temp: Vec<u8> = Vec::new();
    let mut i: usize = 0;
    while i < chunk
        invariant
            data@ == old(data)@,
            pos + 2 * chunk <= len,
            data@.len() == len,
            i <= chunk,
            temp@.len() == i,
            forall|q: int| 0 <= q < i ==> temp@[q] == old(data)@[pos + q],
        decreases chunk - i,
    {
        temp.push(data[pos + i]);
        i += 1;
    }
    let mut j: usize = 0;
    while j < chunk
        invariant
            data@.len() == old(data)@.len(),
            data@.len() == len,
            pos % 4 == 0,
            chunk % 4 == 0,
            pos + 2 * chunk <= len,
            j <= chunk,
            temp@.len() == chunk,
            forall|q: int| 0 <= q < chunk ==> temp@[q] == old(data)@[pos + q],
            forall|i2: int|
                0 <= i2 < len && !(pos + chunk <= i2 < pos + chunk + j) ==> data@[i2] == old(
                    data,
                )@[i2],
            forall|i2: int|
                pos + chunk <= i2 < pos + chunk + j ==> data@[i2] == (if set_has(cs, i2 % 4) {
                    old(data)@[i2 - chunk]
                } else {
                    old(data)@[i2]
                }),
        decreases chunk - j,
    {
        proof {
            lemma_aligned_mod((pos + chunk) as int, j as int);
        }
        if has(&cs, j % 4) {
            let v = temp[j];
            data.set(pos + chunk + j, v);
        }
        j += 1;
    }
    proof {
        assert(data@ =~= dup_spec(old(data)@, pos as int, chunk as int, cs));
    }
}

/// Swaps the selected channel bytes of two whole pixels.
fn swap_pixels(data: &mut Vec<u8>, a: usize, b: usize, cs: ChannelSet)
    requires
        rgba_len(old(data)@),
        a % 4 == 0,
        b % 4 == 0,
        a + 4 <= old(data)@.len(),
        b + 4 <= old(data)@.len(),
    ensures
        final(data)@.len() == old(data)@.len(),
        rgba_len(final(data)@),
        forall|c: int|
            0 <= c < 4 ==> #[trigger] channel_plane(final(data)@, c).to_multiset()
                == channel_plane(old(data)@, c).to_multiset(),
        forall|c: int|
            0 <= c < 4 && set_has(cs, c) ==> final(data)@[a + c] == old(data)@[b + c]
                && final(data)@[b + c] == old(data)@[a + c],
        forall|i: int|
            0 <= i < final(data)@.len() && !((a <= i < a + 4 || b <= i < b + 4) && set_has(
                cs,
                i % 4,
            )) ==> final(data)@[i] == old(data)@[i],
{
    let mut c: usize = 0;
    while c < 4
        invariant
            rgba_len(old(data)@),
            data@.len() == old(data)@.len(),
            a % 4 == 0,
            b % 4 == 0,
            a + 4 <= data@.len(),
            b + 4 <= data@.len(),
            c <= 4,
            forall|cc: int|
                0 <= cc < 4 ==> #[trigger] channel_plane(data@, cc).to_multiset()
                    == channel_plane(old(data)@, cc).to_multiset(),
            forall|cc: int|
                0 <= cc < c && set_has(cs, cc) ==> data@[a + cc] == old(data)@[b + cc] && data@[b
                    + cc] == old(data)@[a + cc],
            forall|i: int|
                0 <= i < data@.len() && !((a <= i < a + c || b <= i < b + c) && set_has(cs, i % 4))
                    ==> data@[i] == old(data)@[i],
        decreases 4 - c,
    {
        proof {
            lemma_aligned_mod(a as int, c as int);
            lemma_aligned_mod(b as int, c as int);
        }
        if has(&cs, c) {
            let ghost pre = data@;
            let x = data[a + c];
            let y = data[b + c];
            data.set(a + c, y);
            data.set(b + c, x);
            proof {
                lemma_swap_preserves_planes(pre, (a + c) as int, (b + c) as int);
                assert(data@ =~= pre.update((a + c) as int, pre[(b + c) as int]).update(
                    (b + c) as int,
                    pre[(a + c) as int],
                ));
            }
        }
        c += 1;
    }
}

/// Reverse: within the chunk, pixel `q` exchanges its selected channels
/// with pixel `np - 1 - q`, reversing the chunk's pixel order per selected
/// channel.
pub fn bend_reverse(data: &mut Vec<u8>, pos: usize, chunk: usize, cs: ChannelSet)
    requires
        rgba_len(old(data)@),
        pos % 4 == 0,
        chunk % 4 == 0,
        pos + chunk <= old(data)@.len(),
    ensures
        final(data)@.len() == old(data)@.len(),
        rgba_len(final(data)@),
        forall|c: int|
            0 <= c < 4 ==> #[trigger] channel_plane(final(data)@, c).to_multiset()
                == channel_plane(old(data)@, c).to_multiset(),
        forall|q: int, c: int|
            0 <= q < chunk / 4 && 0 <= c < 4 && set_has(cs, c) ==> #[trigger] pixel_byte(
                final(data)@,
                pos as int,
                q,
                c,
            ) == pixel_byte(old(data)@, pos as int, chunk / 4 - 1 - q, c),
        forall|i: int|
            0 <= i < final(data)@.len() && !(pos <= i < pos + chunk && set_has(cs, i % 4))
                ==> final(data)@[i] == old(data)@[i],
        final(data)@ == reverse_spec(old(data)@, pos as int, chunk as int, cs),
{
    let np = chunk / 4;
    let len = data.len();
    let mut q: usize = 0;
    while q < np / 2
        invariant
            rgba_len(old(data)@),
            data@.len() == old(data)@.len(),
            data@.len() == len,
            pos % 4 == 0,
            chunk % 4 == 0,
            np == chunk / 4,
            chunk == 4 * np,
            pos + chunk <= len,
            q <= np / 2,
            forall|c: int|
                0 <= c < 4 ==> #[trigger] channel_plane(data@, c).to_multiset() == channel_plane(
                    old(data)@,
                    c,
                ).to_multiset(),
            forall|p: int, c: int|
                0 <= c < 4 && set_has(cs, c) && (0 <= p < q || np - q <= p < np)
                    ==> #[trigger] pixel_byte(data@, pos as int, p, c) == pixel_byte(
                    old(data)@,
                    pos as int,
                    np - 1 - p,
                    c,
                ),
            forall|i: int|
                0 <= i < len && pos + 4 * (q as int) <= i < pos + chunk - 4 * (q as int) ==> data@[i]
                    == old(data)@[i],
            forall|i: int|
                0 <= i < len && !(pos <= i < pos + chunk && set_has(cs, i % 4)) ==> data@[i]
                    == old(data)@[i],
        decreases np / 2 - q,
    {
        let a = pos + 4 * q;
        let b = pos + chunk - 4 - 4 * q;
        proof {
            vstd::arithmetic::div_mod::lemma_mod_adds(pos as int, 4 * (q as int), 4);
            vstd::arithmetic::div_mod::lemma_mod_adds(
                pos as int,
                (chunk - 4 - 4 * (q as int)) as int,
                4,
            );
            assert(a % 4 == 0 && b % 4 == 0) by {
                assert((4 * (q as int)) % 4 == 0) by (nonlinear_arith);
                assert((chunk - 4 - 4 * (q as int)) % 4 == 0) by (nonlinear_arith)
                    requires
                        chunk % 4 == 0,
                        chunk == 4 * (np as int),
                        0 <= q < np,
                ;
            }
        }
        let ghost mid = data@;
        swap_pixels(data, a, b, cs);
        proof {
            assert forall|p: int, c: int|
                0 <= c < 4 && set_has(cs, c) && (0 <= p < q + 1 || np - (q + 1) <= p < np) implies
                #[trigger] pixel_byte(data@, pos as int, p, c) == pixel_byte(
                old(data)@,
                pos as int,
                np - 1 - p,
                c,
            ) by {
                if p == q {
                    assert(data@[a as int + c] == mid[b as int + c]);
                    assert(mid[b as int + c] == old(data)@[b as int + c]);
                } else if p == np - 1 - q {
                    assert(data@[b as int + c] == mid[a as int + c]);
                    assert(mid[a as int + c] == old(data)@[a as int + c]);
                } else {
                    assert(data@[pos + 4 * p + c] == mid[pos + 4 * p + c]);
                    assert(pixel_byte(mid, pos as int, p, c) == pixel_byte(
                        old(data)@,
                        pos as int,
                        np - 1 - p,
                        c,
                    ));
                }
            }
        }
        q += 1;
    }
    proof {
        if np % 2 == 1 {
            let m = (np / 2) as int;
            assert forall|c: int| 0 <= c < 4 && set_has(cs, c) implies #[trigger] pixel_byte(
                data@,
                pos as int,
                m,
                c,
            ) == pixel_byte(old(data)@, pos as int, np - 1 - m, c) by {
                assert(data@[pos + 4 * m + c] == old(data)@[pos + 4 * m + c]);
            }
        }
        assert forall|i: int| 0 <= i < len implies data@[i] == reverse_spec(
            old(data)@,
            pos as int,
            chunk as int,
            cs,
        )[i] by {
            if pos <= i < pos + chunk && set_has(cs, i % 4) {
                let off = i - pos;
                let qq = off / 4;
                let c = off % 4;
                vstd::arithmetic::div_mod::lemma_fundamental_div_mod(off, 4);
                vstd::arithmetic::div_mod::lemma_mod_bound(off, 4);
                lemma_aligned_mod(pos as int, off);
                assert(qq < np) by {
                    if qq >= np {
                        assert(4 * qq >= 4 * (np as int)) by (nonlinear_arith)
                            requires
                                qq >= np,
                        ;
                    }
                }
                assert(qq >= 0) by {
                    vstd::arithmetic::div_mod::lemma_div_pos_is_pos(off, 4);
                }
                assert(i == pos + 4 * qq + c);
                assert(pixel_byte(data@, pos as int, qq, c) == pixel_byte(
                    old(data)@,
                    pos as int,
                    np - 1 - qq,
                    c,
                ));
            }
        }
        assert(data@ =~= reverse_spec(old(data)@, pos as int, chunk as int, cs));
    }
}

proof fn lemma_rotation_multiset(s: Seq<u8>, k: int)
    requires
        0 <= k <= s.len(),
    ensures
        (s.skip(k) + s.take(k)).to_multiset() == s.to_multiset(),
{
    vstd::seq_lib::lemma_seq_union_to_multiset_commutative(s.skip(k), s.take(k));
    assert(s.take(k) + s.skip(k) =~= s);
}

proof fn lemma_chunk_mod(a: int, c: int, n: int)
    requires
        0 <= a,
        0 <= c < 4,
        1 <= n,
    ensures
        (4 * a + c) % (4 * n) == 4 * (a % n) + c,
{
    let qa = a / n;
    let ra = a % n;
    vstd::arithmetic::div_mod::lemma_fundamental_div_mod(a, n);
    vstd::arithmetic::div_mod::lemma_mod_bound(a, n);
    assert(4 * a + c == qa * (4 * n) + (4 * ra + c)) by (nonlinear_arith)
        requires
            a == n * qa + ra,
    ;
    vstd::arithmetic::div_mod::lemma_fundamental_div_mod_converse(4 * a + c, 4 * n, qa, 4 * ra + c);
}

/// Shift: the chunk's selected channels rotate left by `shift` bytes, the
/// leading bytes wrapping around to the tail.
#[verifier::rlimit(80)]
pub fn bend_shift(data: &mut Vec<u8>, pos: usize, chunk: usize, shift: usize, cs: ChannelSet)
    requires
        rgba_len(old(data)@),
        pos % 4 == 0,
        chunk % 4 == 0,
        shift % 4 == 0,
        0 < shift < chunk,
        pos + chunk <= old(data)@.len(),
    ensures
        final(data)@.len() == old(data)@.len(),
        rgba_len(final(data)@),
        forall|c: int|
            0 <= c < 4 ==> #[trigger] channel_plane(final(data)@, c).to_multiset()
                == channel_plane(old(data)@, c).to_multiset(),
        forall|j: int|
            pos <= j < pos + chunk && set_has(cs, j % 4) ==> final(data)@[j] == old(data)@[pos + ((j
                - pos + shift) % (chunk as int))],
        forall|j: int|
            0 <= j < final(data)@.len() && !(pos <= j < pos + chunk && set_has(cs, j % 4))
                ==> final(data)@[j] == old(data)@[j],
        final(data)@ == shift_spec(old(data)@, pos as int, chunk as int, shift as int, cs),
{
    let len = data.len();
    let mut temp: Vec<u8> = Vec::new();
    let mut i: usize = 0;
    while i < chunk
        invariant
            data@ == old(data)@,
            pos + chunk <= len,
            data@.len() == len,
            i <= chunk,
            temp@.len() == i,
            forall|q: int| 0 <= q < i ==> temp@[q] == old(data)@[pos + q],
        decreases chunk - i,
    {
        temp.push(data[pos + i]);
        i += 1;
    }
    let mut i2: usize = 0;
    while i2 < chunk
        invariant
            data@.len() == old(data)@.len(),
            data@.len() == len,
            pos % 4 == 0,
            chunk % 4 == 0,
            shift < chunk,
            pos + chunk <= len,
            i2 <= chunk,
            temp@.len() == chunk,
            forall|q: int| 0 <= q < chunk ==> temp@[q] == old(data)@[pos + q],
            forall|j: int|
                0 <= j < len && !(pos <= j < pos + i2 && set_has(cs, j % 4)) ==> data@[j] == old(
                    data,
                )@[j],
            forall|j: int|
                pos <= j < pos + i2 && set_has(cs, j % 4) ==> data@[j] == old(data)@[pos + ((j - pos
                    + shift) % (chunk as int))],
        decreases chunk - i2,
    {
        proof {
            lemma_aligned_mod(pos as int, i2 as int);
            vstd::arithmetic::div_mod::lemma_mod_bound((i2 + shift) as int, chunk as int);
        }
        if has(&cs, i2 % 4) {
            let src = (((i2 as u128) + (shift as u128)) % (chunk as u128)) as usize;
            let v = temp[src];
            data.set(pos + i2, v);
        }
        i2 += 1;
    }
    proof {
        vstd::arithmetic::div_mod::lemma_fundamental_div_mod(pos as int, 4);
        vstd::arithmetic::div_mod::lemma_fundamental_div_mod(chunk as int, 4);
        vstd::arithmetic::div_mod::lemma_fundamental_div_mod(shift as int, 4);
        vstd::arithmetic::div_mod::lemma_fundamental_div_mod(len as int, 4);
        let pp = (pos / 4) as int;
        let np = (chunk / 4) as int;
        let shp = (shift / 4) as int;
        let n4 = (len / 4) as int;
        assert forall|c: int| 0 <= c < 4 implies #[trigger] channel_plane(data@, c).to_multiset()
            == channel_plane(old(data)@, c).to_multiset() by {
            let pl_old = channel_plane(old(data)@, c);
            let pl_new = channel_plane(data@, c);
            if set_has(cs, c) {
                let seg = pl_old.subrange(pp, pp + np);
                let rot = seg.skip(shp) + seg.take(shp);
                assert forall|k: int| 0 <= k < n4 implies pl_new[k] == (pl_old.take(pp) + rot
                    + pl_old.skip(pp + np))[k] by {
                    vstd::arithmetic::div_mod::lemma_fundamental_div_mod_converse(
                        4 * k + c,
                        4,
                        k,
                        c,
                    );
                    if k < pp {
                        assert(data@[4 * k + c] == old(data)@[4 * k + c]);
                    } else if k < pp + np {
                        let q = k - pp;
                        let j = pos + (4 * q + c);
                        assert(data@[j] == old(data)@[pos + ((4 * q + c + shift) % (
                        chunk as int))]);
                        lemma_chunk_mod(q + shp, c, np);
                        assert((4 * q + c + shift) % (chunk as int) == 4 * ((q + shp) % np) + c);
                        if q < np - shp {
                            vstd::arithmetic::div_mod::lemma_small_mod(
                                (q + shp) as nat,
                                np as nat,
                            );
                            assert(rot[q] == seg[q + shp]);
                        } else {
                            vstd::arithmetic::div_mod::lemma_fundamental_div_mod_converse(
                                q + shp,
                                np,
                                1,
                                q + shp - np,
                            );
                            assert(rot[q] == seg[q + shp - np]);
                        }
                    } else {
                        assert(data@[4 * k + c] == old(data)@[4 * k + c]);
                    }
                }
                assert(pl_new =~= pl_old.take(pp) + rot + pl_old.skip(pp + np));
                assert(pl_old =~= pl_old.take(pp) + seg + pl_old.skip(pp + np));
                lemma_rotation_multiset(seg, shp);
                lemma_multiset_commutative(pl_old.take(pp) + rot, pl_old.skip(pp + np));
                lemma_multiset_commutative(pl_old.take(pp), rot);
                lemma_multiset_commutative(pl_old.take(pp) + seg, pl_old.skip(pp + np));
                lemma_multiset_commutative(pl_old.take(pp), seg);
                assert(pl_new.to_multiset() =~= pl_old.to_multiset());
            } else {
                assert forall|k: int| 0 <= k < n4 implies pl_new[k] == pl_old[k] by {
                    vstd::arithmetic::div_mod::lemma_fundamental_div_mod_converse(
                        4 * k + c,
                        4,
                        k,
                        c,
                    );
                    assert(data@[4 * k + c] == old(data)@[4 * k + c]);
                }
                assert(pl_new =~= pl_old);
            }
        }
        assert(data@ =~= shift_spec(old(data)@, pos as int, chunk as int, shift as int, cs));
    }
}

proof fn lemma_pixel_aligned(pos: int, q: int)
    requires
        pos % 4 == 0,
        0 <= pos,
        0 <= q,
    ensures
        (pos + 4 * q) % 4 == 0,
{
    assert((4 * q) % 4 == 0) by (nonlinear_arith);
    vstd::arithmetic::div_mod::lemma_add_mod_noop(pos, 4 * q, 4);
}

/// Scramble: a random permutation of the chunk's pixel order, applied to
/// the selected channels by in-place exchanges from the tail down.
pub fn bend_scramble(data: &mut Vec<u8>, pos: usize, chunk: usize, cs: ChannelSet, rng: &mut RandomSource)
    requires
        rgba_len(old(data)@),
        pos % 4 == 0,
        chunk % 4 == 0,
        pos + chunk <= old(data)@.len(),
    ensures
        final(data)@.len() == old(data)@.len(),
        rgba_len(final(data)@),
        forall|c: int|
            0 <= c < 4 ==> #[trigger] channel_plane(final(data)@, c).to_multiset()
                == channel_plane(old(data)@, c).to_multiset(),
        forall|j: int|
            0 <= j < final(data)@.len() && !(pos <= j < pos + chunk && set_has(cs, j % 4))
                ==> final(data)@[j] == old(data)@[j],
        scramble_rel(old(data)@, final(data)@, pos as int, chunk as int, cs),
{
    let np = chunk / 4;
    let len = data.len();
    if np <= 1 {
        return ;
    }
    let mut q: usize = np - 1;
    while q >= 1
        invariant
            rgba_len(old(data)@),
            data@.len() == old(data)@.len(),
            data@.len() == len,
            pos % 4 == 0,
            chunk % 4 == 0,
            np == chunk / 4,
            chunk == 4 * np,
            pos + chunk <= len,
            q < np,
            forall|c: int|
                0 <= c < 4 ==> #[trigger] channel_plane(data@, c).to_multiset() == channel_plane(
                    old(data)@,
                    c,
                ).to_multiset(),
            forall|j: int|
                0 <= j < len && !(pos <= j < pos + chunk && set_has(cs, j % 4)) ==> data@[j] == old(
                    data,
                )@[j],
        decreases q,
    {
        let j = rng.uniform(0, q + 1);
        proof {
            lemma_pixel_aligned(pos as int, q as int);
            lemma_pixel_aligned(pos as int, j as int);
            assert(4 * (q as int) + 4 <= chunk && 4 * (j as int) + 4 <= chunk) by (nonlinear_arith)
                requires
                    q < np,
                    j <= q,
                    chunk == 4 * (np as int),
            ;
        }
        swap_pixels(data, pos + 4 * q, pos + 4 * j, cs);
        q -= 1;
    }
}

/// The operation an absent mode option draws from, uniformly.
fn random_bend_mode(rng: &mut RandomSource) -> BendMode {
    let k = rng.uniform(0, 4);
    if k == 0 {
        BendMode::Duplicate
    } else if k == 1 {
        BendMode::Reverse
    } else if k == 2 {
        BendMode::Shift
    } else {
        BendMode::Scramble
    }
}

/// DataBend: simulates byte-stream corruption while respecting pixel
/// alignment. Each iteration picks a pixel-aligned chunk of random size and
/// position and duplicates, reverses, rotates or scrambles it on the
/// selected channels (all four when no channel is given). Channels outside
/// the selection never change; zero iterations change nothing; under an
/// explicit mode the result is reachable by exactly that many applications
/// of the mode's operation (an iteration coming out empty only when some
/// drawable chunk leaves no room), and under an explicit reverse, shift or
/// scramble mode no channel plane's multiset of values changes.
pub fn data_bend(data: &mut Vec<u8>, options: &DataBendOptions, rng: &mut RandomSource)
    requires
        rgba_len(old(data)@),
    ensures
        final(data)@.len() == old(data)@.len(),
        options.iterations == 0 ==> final(data)@ == old(data)@,
        forall|i: int|
            0 <= i < final(data)@.len() && !bend_selects(options.channel, i % 4)
                ==> final(data)@[i] == old(data)@[i],
        match options.mode {
            Some(m) => bend_reachable(
                old(data)@,
                final(data)@,
                m,
                channel_set_spec(options.channel),
                options.max_chunk,
                options.iterations as nat,
            ),
            None => true,
        },
        (match options.mode {
            Some(m) => m is Reverse || m is Shift || m is Scramble,
            None => false,
        }) ==> forall|c: int|
            0 <= c < 4 ==> #[trigger] channel_plane(final(data)@, c).to_multiset()
                == channel_plane(old(data)@, c).to_multiset(),
{
    let len = data.len();
    let max_chunk = match options.max_chunk {
        Some(m) => m,
        None => 250,
    };
    let hi = if max_chunk < 17 {
        17
    } else {
        max_chunk
    };
    proof {
        assert(max_chunk_draw(options.max_chunk) == (hi as int - 1) - (hi as int - 1) % 4);
    }
    let cs = set_of(&options.channel);
    let mut it: usize = 0;
    while it < options.iterations
        invariant
            rgba_len(old(data)@),
            data@.len() == old(data)@.len(),
            data@.len() == len,
            hi >= 17,
            max_chunk_draw(options.max_chunk) == (hi as int - 1) - (hi as int - 1) % 4,
            it <= options.iterations,
            cs == channel_set_spec(options.channel),
            forall|c: int| 0 <= c < 4 ==> set_has(cs, c) == bend_selects(options.channel, c),
            it == 0 ==> data@ == old(data)@,
            forall|i: int|
                0 <= i < len && !bend_selects(options.channel, i % 4) ==> data@[i] == old(
                    data,
                )@[i],
            match options.mode {
                Some(m) => bend_reachable(
                    old(data)@,
                    data@,
                    m,
                    cs,
                    options.max_chunk,
                    it as nat,
                ),
                None => true,
            },
            (match options.mode {
                Some(m) => m is Reverse || m is Shift || m is Scramble,
                None => false,
            }) ==> forall|c: int|
                0 <= c < 4 ==> #[trigger] channel_plane(data@, c).to_multiset() == channel_plane(
                    old(data)@,
                    c,
                ).to_multiset(),
        decreases options.iterations - it,
    {
        let ghost mid = data@;
        let raw = rng.uniform(16, hi);
        let chunk = align_down4(raw);
        proof {
            vstd::arithmetic::div_mod::lemma_fundamental_div_mod(raw as int, 4);
            vstd::arithmetic::div_mod::lemma_div_is_ordered(16, raw as int, 4);
            vstd::arithmetic::div_mod::lemma_fundamental_div_mod(hi as int - 1, 4);
            vstd::arithmetic::div_mod::lemma_div_is_ordered(raw as int, hi as int - 1, 4);
            assert(16 <= chunk <= max_chunk_draw(options.max_chunk));
        }
        if len >= 4 && chunk <= (len - 4) / 2 {
            proof {
                vstd::arithmetic::div_mod::lemma_fundamental_div_mod((len - 4) as int, 2);
                vstd::arithmetic::div_mod::lemma_mod_bound((len - 4) as int, 2);
            }
            let max_start = len - 2 * chunk;
            let rp = rng.uniform(0, max_start);
            let p = align_down4(rp);
            proof {
                assert(bend_window_ok(len as int, p as int, chunk as int));
            }
            let mode = match options.mode {
                Some(m) => m,
                None => random_bend_mode(rng),
            };
            match mode {
                BendMode::Duplicate => {
                    bend_duplicate(data, p, chunk, cs);
                },
                BendMode::Reverse => {
                    bend_reverse(data, p, chunk, cs);
                },
                BendMode::Shift => {
                    let rs = rng.uniform(4, chunk);
                    let sh = align_down4(rs);
                    proof {
                        vstd::arithmetic::div_mod::lemma_fundamental_div_mod(rs as int, 4);
                        vstd::arithmetic::div_mod::lemma_div_is_ordered(4, rs as int, 4);
                    }
                    bend_shift(data, p, chunk, sh, cs);
                },
                BendMode::Scramble => {
                    bend_scramble(data, p, chunk, cs, rng);
                },
            }
            proof {
                if options.mode is Some {
                    assert(bend_step(mid, data@, mode, cs, options.max_chunk));
                }
            }
        } else {
            proof {
                assert(bend_skip_possible(len as int, options.max_chunk));
                if options.mode is Some {
                    assert(bend_step(mid, data@, options.mode->0, cs, options.max_chunk));
                }
            }
        }
        proof {
            if options.mode is Some {
                let m = options.mode->0;
                assert(bend_reachable(old(data)@, data@, m, cs, options.max_chunk, (it + 1) as nat));
            }
        }
        it += 1;
    }
}

} // verus!
