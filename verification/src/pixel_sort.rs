use vstd::prelude::*;
use vstd::seq_lib::lemma_multiset_commutative;
use vstd::seq_lib::group_to_multiset_ensures;
use vstd::multiset::Multiset;
use crate::options::PixelSortOptions;
use crate::buffer::fits_width;
use crate::buffer::height_of;
use crate::buffer::pixel_index;
use crate::buffer::lemma_buffer_dims;
use crate::buffer::lemma_pixel_index_bounds;
use crate::buffer::lemma_pixel_index_injective;
use crate::options::SortChannel;

verus! {

/// One RGBA8 pixel, the unit PixelSort moves.
#[derive(Clone, Copy, PartialEq, Eq, Structural, Debug)]
#[verifier::ext_equal]
pub struct Pixel {
    pub r: u8,
    pub g: u8,
    pub b: u8,
    pub a: u8,
}

/// The per-pixel metric: the selected channel's value, or the mean
/// brightness of R, G and B rounded down.
pub open spec fn metric(p: Pixel, chan: SortChannel) -> u8 {
    match chan {
        SortChannel::Red => p.r,
        SortChannel::Green => p.g,
        SortChannel::Blue => p.b,
        SortChannel::Brightness => ((p.r + p.g + p.b) / 3) as u8,
    }
}

/// The metric, computed.
pub fn metric_of(p: Pixel, chan: SortChannel) -> (m: u8)
    ensures
        m == metric(p, chan),
{
    match chan {
        SortChannel::Red => p.r,
        SortChannel::Green => p.g,
        SortChannel::Blue => p.b,
        SortChannel::Brightness => ((p.r as u16 + p.g as u16 + p.b as u16) / 3) as u8,
    }
}

/// A pixel is a segment boundary when its metric exceeds the threshold;
/// the final pixel of a scan line always is one.
pub open spec fn is_cut(line: Seq<Pixel>, t: u8, chan: SortChannel, i: int) -> bool {
    metric(line[i], chan) > t || i == line.len() - 1
}

/// The first index of the boundary-free run containing `i`.
pub open spec fn run_start(line: Seq<Pixel>, t: u8, chan: SortChannel, i: int) -> int
    recommends
        0 <= i < line.len(),
    decreases i,
{
    if i <= 0 {
        0
    } else if is_cut(line, t, chan, i - 1) {
        i
    } else {
        run_start(line, t, chan, i - 1)
    }
}

/// The first boundary index at or after `i`: the end of the run containing
/// `i` (the boundary pixel itself belongs to no segment).
pub open spec fn run_end(line: Seq<Pixel>, t: u8, chan: SortChannel, i: int) -> int
    recommends
        0 <= i < line.len(),
    decreases line.len() - i,
{
    if i >= line.len() - 1 || is_cut(line, t, chan, i) {
        i
    } else {
        run_end(line, t, chan, i + 1)
    }
}

/// A stable insertion of `p` into `s`: `p` lands before the first entry
/// whose metric exceeds its own, so equal metrics keep their order.
pub open spec fn insert_by_metric(s: Seq<Pixel>, p: Pixel, chan: SortChannel) -> Seq<Pixel>
    decreases s.len(),
{
    if s.len() == 0 {
        seq![p]
    } else if metric(p, chan) < metric(s[0], chan) {
        seq![p] + s
    } else {
        seq![s[0]] + insert_by_metric(s.drop_first(), p, chan)
    }
}

/// A stable sort of the pixels by ascending metric.
pub open spec fn sort_by_metric(s: Seq<Pixel>, chan: SortChannel) -> Seq<Pixel>
    decreases s.len(),
{
    if s.len() == 0 {
        Seq::empty()
    } else {
        insert_by_metric(sort_by_metric(s.drop_last(), chan), s.last(), chan)
    }
}

/// A non-boundary pixel is in a kept (sorted) segment when its run reaches
/// the minimum length.
pub open spec fn kept(line: Seq<Pixel>, t: u8, min_seg: int, chan: SortChannel, i: int) -> bool {
    &&& !is_cut(line, t, chan, i)
    &&& run_end(line, t, chan, i) - run_start(line, t, chan, i) >= min_seg
}

/// One scan line after sorting: every kept segment is replaced by its
/// stable sort; boundary pixels and short segments stay where they were.
pub open spec fn sorted_line(line: Seq<Pixel>, t: u8, min_seg: int, chan: SortChannel) -> Seq<
    Pixel,
> {
    Seq::new(
        line.len(),
        |i: int|
            if kept(line, t, min_seg, chan, i) {
                let s = run_start(line, t, chan, i);
                let e = run_end(line, t, chan, i);
                sort_by_metric(line.subrange(s, e), chan)[i - s]
            } else {
                line[i]
            },
    )
}

proof fn lemma_insert_len(s: Seq<Pixel>, p: Pixel, chan: SortChannel)
    ensures
        insert_by_metric(s, p, chan).len() == s.len() + 1,
    decreases s.len(),
{
    if s.len() > 0 && !(metric(p, chan) < metric(s[0], chan)) {
        lemma_insert_len(s.drop_first(), p, chan);
    }
}

pub proof fn lemma_sort_len(s: Seq<Pixel>, chan: SortChannel)
    ensures
        sort_by_metric(s, chan).len() == s.len(),
    decreases s.len(),
{
    if s.len() > 0 {
        lemma_sort_len(s.drop_last(), chan);
        lemma_insert_len(sort_by_metric(s.drop_last(), chan), s.last(), chan);
    }
}

proof fn lemma_insert_multiset(s: Seq<Pixel>, p: Pixel, chan: SortChannel)
    ensures
        insert_by_metric(s, p, chan).to_multiset() == s.to_multiset().insert(p),
    decreases s.len(),
{
    broadcast use group_to_multiset_ensures;

    if s.len() == 0 {
        assert(seq![p] =~= Seq::empty().push(p));
        assert(insert_by_metric(s, p, chan).to_multiset() =~= s.to_multiset().insert(p));
    } else if metric(p, chan) < metric(s[0], chan) {
        assert(seq![p] + s =~= s.insert(0, p));
        vstd::seq_lib::to_multiset_insert(s, 0, p);
    } else {
        lemma_insert_multiset(s.drop_first(), p, chan);
        let rest = insert_by_metric(s.drop_first(), p, chan);
        lemma_multiset_commutative(seq![s[0]], rest);
        lemma_multiset_commutative(seq![s[0]], s.drop_first());
        assert(seq![s[0]] + s.drop_first() =~= s);
        assert(seq![s[0]].to_multiset() =~= Multiset::empty().insert(s[0]));
        assert((seq![s[0]] + rest).to_multiset() =~= s.to_multiset().insert(p));
    }
}

/// Law: sorting never changes the multiset of pixel values, only their
/// order.
pub proof fn lemma_sort_multiset(s: Seq<Pixel>, chan: SortChannel)
    ensures
        sort_by_metric(s, chan).to_multiset() == s.to_multiset(),
    decreases s.len(),
{
    broadcast use group_to_multiset_ensures;

    if s.len() > 0 {
        lemma_sort_multiset(s.drop_last(), chan);
        lemma_insert_multiset(sort_by_metric(s.drop_last(), chan), s.last(), chan);
        assert(s.drop_last().push(s.last()) =~= s);
    }
}

/// The pixels ascend by metric.
pub open spec fn sorted_by_metric(s: Seq<Pixel>, chan: SortChannel) -> bool {
    forall|i: int, j: int|
        0 <= i <= j < s.len() ==> metric(#[trigger] s[i], chan) <= metric(#[trigger] s[j], chan)
}

proof fn lemma_insert_keeps_sorted(s: Seq<Pixel>, p: Pixel, chan: SortChannel)
    requires
        sorted_by_metric(s, chan),
    ensures
        sorted_by_metric(insert_by_metric(s, p, chan), chan),
        insert_by_metric(s, p, chan)[0] == p || (s.len() > 0 && insert_by_metric(s, p, chan)[0]
            == s[0]),
    decreases s.len(),
{
    let r = insert_by_metric(s, p, chan);
    lemma_insert_len(s, p, chan);
    if s.len() == 0 {
    } else if metric(p, chan) < metric(s[0], chan) {
        assert forall|i: int, j: int| 0 <= i <= j < r.len() implies metric(
            #[trigger] r[i],
            chan,
        ) <= metric(#[trigger] r[j], chan) by {
            if i > 0 {
                assert(r[i] == s[i - 1] && r[j] == s[j - 1]);
            } else if j > 0 {
                assert(r[j] == s[j - 1]);
                assert(metric(s[0], chan) <= metric(s[j - 1], chan));
            }
        }
    } else {
        assert(sorted_by_metric(s.drop_first(), chan)) by {
            assert forall|i: int, j: int| 0 <= i <= j < s.drop_first().len() implies metric(
                #[trigger] s.drop_first()[i],
                chan,
            ) <= metric(#[trigger] s.drop_first()[j], chan) by {
                assert(s.drop_first()[i] == s[i + 1] && s.drop_first()[j] == s[j + 1]);
            }
        }
        lemma_insert_keeps_sorted(s.drop_first(), p, chan);
        let rest = insert_by_metric(s.drop_first(), p, chan);
        assert(metric(s[0], chan) <= metric(rest[0], chan));
        assert forall|i: int, j: int| 0 <= i <= j < r.len() implies metric(
            #[trigger] r[i],
            chan,
        ) <= metric(#[trigger] r[j], chan) by {
            if i > 0 {
                assert(r[i] == rest[i - 1] && r[j] == rest[j - 1]);
            } else if j > 0 {
                assert(r[j] == rest[j - 1]);
                assert(metric(rest[0], chan) <= metric(rest[j - 1], chan));
            }
        }
    }
}

/// Law: the segment sort really sorts: its result ascends by the metric it
/// segments and orders by.
pub proof fn lemma_sort_sorted(s: Seq<Pixel>, chan: SortChannel)
    ensures
        sorted_by_metric(sort_by_metric(s, chan), chan),
    decreases s.len(),
{
    if s.len() > 0 {
        lemma_sort_sorted(s.drop_last(), chan);
        lemma_insert_keeps_sorted(sort_by_metric(s.drop_last(), chan), s.last(), chan);
    }
}

proof fn lemma_insert_at(s: Seq<Pixel>, p: Pixel, chan: SortChannel, k: int)
    requires
        0 <= k <= s.len(),
        forall|j: int| 0 <= j < k ==> metric(s[j], chan) <= metric(p, chan),
        k < s.len() ==> metric(p, chan) < metric(s[k], chan),
    ensures
        insert_by_metric(s, p, chan) == s.take(k) + seq![p] + s.skip(k),
    decreases k,
{
    if k == 0 {
        if s.len() == 0 {
            assert(insert_by_metric(s, p, chan) =~= s.take(0) + seq![p] + s.skip(0));
        } else {
            assert(insert_by_metric(s, p, chan) =~= s.take(0) + seq![p] + s.skip(0));
        }
    } else {
        lemma_insert_at(s.drop_first(), p, chan, k - 1);
        assert(seq![s[0]] + (s.drop_first().take(k - 1) + seq![p] + s.drop_first().skip(k - 1))
            =~= s.take(k) + seq![p] + s.skip(k));
    }
}

proof fn lemma_sort_step(s: Seq<Pixel>, idx: int, chan: SortChannel)
    requires
        0 <= idx < s.len(),
    ensures
        sort_by_metric(s.take(idx + 1), chan) == insert_by_metric(
            sort_by_metric(s.take(idx), chan),
            s[idx],
            chan,
        ),
{
    let t = s.take(idx + 1);
    assert(t.drop_last() =~= s.take(idx));
    assert(t.last() == s[idx]);
}

/// The position a stable insertion puts a pixel of metric `pm` at: right
/// before the first entry whose metric exceeds it.
fn find_insert_pos(out: &Vec<Pixel>, pm: u8, chan: SortChannel) -> (k: usize)
    ensures
        k <= out@.len(),
        forall|j: int| 0 <= j < k ==> metric(out@[j], chan) <= pm,
        k < out@.len() ==> pm < metric(out@[k as int], chan),
{
    let mut k: usize = 0;
    while k < out.len()
        invariant
            k <= out@.len(),
            forall|j: int| 0 <= j < k ==> metric(out@[j], chan) <= pm,
        decreases out@.len() - k,
    {
        if pm < metric_of(out[k], chan) {
            return k;
        }
        k += 1;
    }
    k
}

/// A stable insertion sort of the pixels by ascending metric.
pub fn sort_pixels(seg: &Vec<Pixel>, chan: SortChannel) -> (r: Vec<Pixel>)
    ensures
        r@ == sort_by_metric(seg@, chan),
        r@.len() == seg@.len(),
        r@.to_multiset() == seg@.to_multiset(),
{
    let mut out: Vec<Pixel> = Vec::new();
    let mut idx: usize = 0;
    proof {
        assert(seg@.take(0) =~= Seq::<Pixel>::empty());
    }
    while idx < seg.len()
        invariant
            idx <= seg@.len(),
            out@ == sort_by_metric(seg@.take(idx as int), chan),
            out@.len() == idx,
        decreases seg@.len() - idx,
    {
        let p = seg[idx];
        let pm = metric_of(p, chan);
        let k = find_insert_pos(&out, pm, chan);
        proof {
            lemma_insert_at(out@, p, chan, k as int);
            lemma_sort_step(seg@, idx as int, chan);
        }
        let ghost pre = out@;
        out.insert(k, p);
        proof {
            assert(out@ =~= pre.take(k as int) + seq![p] + pre.skip(k as int));
        }
        idx += 1;
    }
    proof {
        assert(seg@.take(seg@.len() as int) =~= seg@);
        lemma_sort_multiset(seg@, chan);
    }
    out
}

proof fn lemma_run_start_const(line: Seq<Pixel>, t: u8, chan: SortChannel, s: int, i: int)
    requires
        0 <= s <= i < line.len(),
        s == 0 || is_cut(line, t, chan, s - 1),
        forall|j: int| s <= j <= i ==> !is_cut(line, t, chan, j),
    ensures
        run_start(line, t, chan, i) == s,
    decreases i - s,
{
    if i > s {
        lemma_run_start_const(line, t, chan, s, i - 1);
    }
}

proof fn lemma_run_end_const(line: Seq<Pixel>, t: u8, chan: SortChannel, i: int, e: int)
    requires
        0 <= i <= e < line.len(),
        is_cut(line, t, chan, e),
        forall|j: int| i <= j < e ==> !is_cut(line, t, chan, j),
    ensures
        run_end(line, t, chan, i) == e,
    decreases e - i,
{
    if i < e {
        lemma_run_end_const(line, t, chan, i + 1, e);
    }
}

/// PixelSort applied to one scan line: boundary-free runs of at least the
/// minimum length are stably sorted by ascending metric in place; all other
/// pixels stay. The multiset of pixels is never changed.
pub fn sort_line(line: &Vec<Pixel>, threshold: u8, min_segment: usize, channel: SortChannel) -> (r:
    Vec<Pixel>)
    ensures
        r@.len() == line@.len(),
        r@ == sorted_line(line@, threshold, min_segment as int, channel),
        r@.to_multiset() == line@.to_multiset(),
{
    let n = line.len();
    let mut out: Vec<Pixel> = Vec::new();
    while out.len() < n
        invariant
            n == line@.len(),
            out@.len() <= n,
            out@ == line@.take(out@.len() as int),
        decreases n - out@.len(),
    {
        out.push(line[out.len()]);
        proof {
            assert(out@ =~= line@.take(out@.len() as int));
        }
    }
    proof {
        assert(out@ =~= line@);
    }
    let ghost sl = sorted_line(line@, threshold, min_segment as int, channel);
    let mut s: usize = 0;
    let mut x: usize = 0;
    while x < n
        invariant
            n == line@.len(),
            out@.len() == n,
            s <= x <= n,
            s == 0 || is_cut(line@, threshold, channel, s - 1),
            forall|j: int| s <= j < x ==> !is_cut(line@, threshold, channel, j),
            forall|i: int| 0 <= i < s ==> out@[i] == sl[i],
            forall|i: int| s <= i < n ==> out@[i] == line@[i],
            out@.to_multiset() == line@.to_multiset(),
            x == n ==> s == n,
            sl == sorted_line(line@, threshold, min_segment as int, channel),
        decreases n - x,
    {
        let m = metric_of(line[x], channel);
        if m > threshold || x == n - 1 {
            proof {
                assert(is_cut(line@, threshold, channel, x as int));
                assert forall|i: int| s <= i < x implies run_start(line@, threshold, channel, i)
                    == s && run_end(line@, threshold, channel, i) == x by {
                    lemma_run_start_const(line@, threshold, channel, s as int, i);
                    lemma_run_end_const(line@, threshold, channel, i, x as int);
                }
            }
            if x > s && x - s >= min_segment {
                let mut seg: Vec<Pixel> = Vec::new();
                let mut j: usize = s;
                while j < x
                    invariant
                        n == line@.len(),
                        s <= j <= x <= n,
                        out@.len() == n,
                        seg@ == line@.subrange(s as int, j as int),
                        forall|i: int| s <= i < n ==> out@[i] == line@[i],
                    decreases x - j,
                {
                    proof {
                        assert(out@[j as int] == line@[j as int]);
                    }
                    seg.push(out[j]);
                    proof {
                        assert(seg@ =~= line@.subrange(s as int, j as int + 1));
                    }
                    j += 1;
                }
                let sorted_seg = sort_pixels(&seg, channel);
                let ghost mid = out@;
                let seg_len = x - s;
                let mut j2: usize = 0;
                while j2 < seg_len
                    invariant
                        s + seg_len == x <= n,
                        j2 <= seg_len,
                        out@.len() == n,
                        sorted_seg@.len() == seg_len,
                        forall|i: int| 0 <= i < j2 ==> out@[s + i] == sorted_seg@[i],
                        forall|i: int|
                            0 <= i < n && !(s <= i < s + j2) ==> out@[i] == mid[i],
                    decreases seg_len - j2,
                {
                    out.set(s + j2, sorted_seg[j2]);
                    j2 += 1;
                }
                proof {
                    lemma_sort_len(seg@, channel);
                    assert(seg@ =~= line@.subrange(s as int, x as int));
                    assert forall|i: int| s <= i < x implies out@[i] == sl[i] by {
                        assert(kept(line@, threshold, min_segment as int, channel, i));
                        assert(out@[i] == sorted_seg@[i - s]);
                    }
                    assert(mid =~= mid.take(s as int) + seg@ + mid.skip(x as int));
                    assert(out@ =~= mid.take(s as int) + sorted_seg@ + mid.skip(x as int));
                    lemma_multiset_commutative(mid.take(s as int) + seg@, mid.skip(x as int));
                    lemma_multiset_commutative(mid.take(s as int), seg@);
                    lemma_multiset_commutative(
                        mid.take(s as int) + sorted_seg@,
                        mid.skip(x as int),
                    );
                    lemma_multiset_commutative(mid.take(s as int), sorted_seg@);
                    assert(out@.to_multiset() == line@.to_multiset());
                }
            } else {
                proof {
                    assert forall|i: int| s <= i < x implies out@[i] == sl[i] by {
                        assert(!kept(line@, threshold, min_segment as int, channel, i));
                    }
                }
            }
            proof {
                assert(out@[x as int] == line@[x as int]);
                assert(sl[x as int] == line@[x as int]);
            }
            s = x + 1;
        }
        x += 1;
    }
    proof {
        assert(out@ =~= sl);
    }
    out
}

/// The pixel at `(x, y)` of a buffer of the given width.
pub open spec fn pixel_at(s: Seq<u8>, width: u32, x: int, y: int) -> Pixel {
    Pixel {
        r: s[pixel_index(width, x, y, 0)],
        g: s[pixel_index(width, x, y, 1)],
        b: s[pixel_index(width, x, y, 2)],
        a: s[pixel_index(width, x, y, 3)],
    }
}

/// Channel `c` of a pixel.
pub open spec fn pixel_field(p: Pixel, c: int) -> u8 {
    if c == 0 {
        p.r
    } else if c == 1 {
        p.g
    } else if c == 2 {
        p.b
    } else {
        p.a
    }
}

/// Scan line `li` of the buffer: row `li` when horizontal, column `li`
/// when vertical.
pub open spec fn line_pixels(s: Seq<u8>, width: u32, vertical: bool, li: int) -> Seq<Pixel> {
    if vertical {
        Seq::new(height_of(s, width), |y: int| pixel_at(s, width, li, y))
    } else {
        Seq::new(width as nat, |x: int| pixel_at(s, width, x, li))
    }
}

/// How many scan lines the buffer has: its columns when vertical, its rows
/// when horizontal.
pub open spec fn line_count(s: Seq<u8>, width: u32, vertical: bool) -> int {
    if vertical {
        width as int
    } else {
        height_of(s, width) as int
    }
}

/// Two equally long buffers whose bytes agree on scan line `l` show the
/// same pixels there.
proof fn lemma_lines_agree(s1: Seq<u8>, s2: Seq<u8>, width: u32, vertical: bool, l: int)
    requires
        s1.len() == s2.len(),
        fits_width(s1, width),
        0 <= l < line_count(s1, width, vertical),
        forall|x: int, y: int, c: int|
            0 <= x < width && 0 <= y < height_of(s1, width) && 0 <= c < 4 && (if vertical {
                x == l
            } else {
                y == l
            }) ==> s1[#[trigger] pixel_index(width, x, y, c)] == s2[pixel_index(width, x, y, c)],
    ensures
        line_pixels(s1, width, vertical, l) == line_pixels(s2, width, vertical, l),
{
    let h = height_of(s1, width) as int;
    lemma_buffer_dims(s1, width);
    assert forall|x: int, y: int|
        0 <= x < width && 0 <= y < h && (if vertical {
            x == l
        } else {
            y == l
        }) implies pixel_at(s1, width, x, y) == pixel_at(s2, width, x, y) by {
        lemma_pixel_index_bounds(width, x, y, 0, h);
        assert(s1[pixel_index(width, x, y, 0)] == s2[pixel_index(width, x, y, 0)]);
        assert(s1[pixel_index(width, x, y, 1)] == s2[pixel_index(width, x, y, 1)]);
        assert(s1[pixel_index(width, x, y, 2)] == s2[pixel_index(width, x, y, 2)]);
        assert(s1[pixel_index(width, x, y, 3)] == s2[pixel_index(width, x, y, 3)]);
    }
    assert(line_pixels(s1, width, vertical, l) =~= line_pixels(s2, width, vertical, l));
}

/// The byte index of channel 0 of pixel `(x, y)`, checked against the
/// buffer dimensions.
fn byte_index(width: u32, x: usize, y: usize, h: usize, len: usize) -> (idx: usize)
    requires
        width >= 1,
        x < width,
        y < h,
        len == 4 * (width as int) * (h as int),
    ensures
        idx == pixel_index(width, x as int, y as int, 0),
        idx + 3 < len,
{
    proof {
        lemma_pixel_index_bounds(width, x as int, y as int, 0, h as int);
    }
    4 * (y * (width as usize) + x)
}

/// PixelSort: each scan line (row, or column when vertical) is segmented at
/// pixels whose metric exceeds the threshold, and every boundary-free run of
/// at least `min_segment` pixels is stably sorted by ascending metric, whole
/// pixels moving together. No scan line's multiset of pixels changes.
pub fn pixel_sort(data: &mut Vec<u8>, width: u32, options: &PixelSortOptions)
    requires
        fits_width(old(data)@, width),
    ensures
        final(data)@.len() == old(data)@.len(),
        forall|l: int|
            0 <= l < line_count(old(data)@, width, options.vertical) ==> line_pixels(
                final(data)@,
                width,
                options.vertical,
                l,
            ) == sorted_line(
                line_pixels(old(data)@, width, options.vertical, l),
                options.threshold,
                options.min_segment as int,
                options.channel,
            ),
        forall|l: int|
            0 <= l < line_count(old(data)@, width, options.vertical) ==> line_pixels(
                final(data)@,
                width,
                options.vertical,
                l,
            ).to_multiset() == line_pixels(old(data)@, width, options.vertical, l).to_multiset(),
{
    let len = data.len();
    proof {
        lemma_buffer_dims(old(data)@, width);
    }
    let h: usize = len / 4 / (width as usize);
    let vert = options.vertical;
    let nlines: usize = if vert {
        width as usize
    } else {
        h
    };
    let line_len: usize = if vert {
        h
    } else {
        width as usize
    };
    let ghost t = options.threshold;
    let ghost mseg = options.min_segment as int;
    let ghost chan = options.channel;
    let mut li: usize = 0;
    while li < nlines
        invariant
            fits_width(old(data)@, width),
            data@.len() == old(data)@.len(),
            data@.len() == len,
            width >= 1,
            h == height_of(old(data)@, width),
            len == 4 * (width as int) * (h as int),
            vert == options.vertical,
            t == options.threshold,
            mseg == options.min_segment as int,
            chan == options.channel,
            nlines == line_count(old(data)@, width, vert),
            line_len == (if vert {
                h as int
            } else {
                width as int
            }),
            li <= nlines,
            forall|l: int|
                0 <= l < li ==> line_pixels(data@, width, vert, l) == sorted_line(
                    line_pixels(old(data)@, width, vert, l),
                    t,
                    mseg,
                    chan,
                ),
            forall|l: int|
                0 <= l < li ==> line_pixels(data@, width, vert, l).to_multiset() == line_pixels(
                    old(data)@,
                    width,
                    vert,
                    l,
                ).to_multiset(),
            forall|l: int|
                li <= l < nlines ==> line_pixels(data@, width, vert, l) == line_pixels(
                    old(data)@,
                    width,
                    vert,
                    l,
                ),
        decreases nlines - li,
    {
        proof {
            assert(height_of(data@, width) == h);
        }
        let mut line: Vec<Pixel> = Vec::new();
        let mut p: usize = 0;
        while p < line_len
            invariant
                data@.len() == len,
                width >= 1,
                height_of(data@, width) == h,
                len == 4 * (width as int) * (h as int),
                li < nlines,
                nlines == (if vert {
                    width as int
                } else {
                    h as int
                }),
                line_len == (if vert {
                    h as int
                } else {
                    width as int
                }),
                p <= line_len,
                line@.len() == p,
                forall|q: int|
                    0 <= q < p ==> line@[q] == line_pixels(data@, width, vert, li as int)[q],
            decreases line_len - p,
        {
            let idx = if vert {
                byte_index(width, li, p, h, len)
            } else {
                byte_index(width, p, li, h, len)
            };
            let px = Pixel { r: data[idx], g: data[idx + 1], b: data[idx + 2], a: data[idx + 3] };
            line.push(px);
            p += 1;
        }
        proof {
            assert(line@ =~= line_pixels(data@, width, vert, li as int));
        }
        let sorted = sort_line(&line, options.threshold, options.min_segment, options.channel);
        let ghost snap = data@;
        let mut p2: usize = 0;
        while p2 < line_len
            invariant
                data@.len() == len,
                snap.len() == len,
                width >= 1,
                height_of(snap, width) == h,
                len == 4 * (width as int) * (h as int),
                li < nlines,
                nlines == (if vert {
                    width as int
                } else {
                    h as int
                }),
                line_len == (if vert {
                    h as int
                } else {
                    width as int
                }),
                p2 <= line_len,
                sorted@.len() == line_len,
                forall|x: int, y: int, c: int|
                    0 <= x < width && 0 <= y < h && 0 <= c < 4 ==> data@[#[trigger] pixel_index(
                        width,
                        x,
                        y,
                        c,
                    )] == (if (if vert {
                        x == li && y < p2
                    } else {
                        y == li && x < p2
                    }) {
                        pixel_field(
                            sorted@[if vert {
                                y
                            } else {
                                x
                            }],
                            c,
                        )
                    } else {
                        snap[pixel_index(width, x, y, c)]
                    }),
            decreases line_len - p2,
        {
            let ghost x0: int = if vert {
                li as int
            } else {
                p2 as int
            };
            let ghost y0: int = if vert {
                p2 as int
            } else {
                li as int
            };
            let idx = if vert {
                byte_index(width, li, p2, h, len)
            } else {
                byte_index(width, p2, li, h, len)
            };
            let px = sorted[p2];
            let ghost before = data@;
            data.set(idx, px.r);
            data.set(idx + 1, px.g);
            data.set(idx + 2, px.b);
            data.set(idx + 3, px.a);
            proof {
                assert forall|x: int, y: int, c: int|
                    0 <= x < width && 0 <= y < h && 0 <= c < 4 && !(x == x0 && y == y0) implies data@[
                    #[trigger] pixel_index(width, x, y, c)] == before[pixel_index(
                    width,
                    x,
                    y,
                    c,
                )] by {
                    lemma_pixel_index_bounds(width, x, y, c, h as int);
                    if pixel_index(width, x, y, c) == idx {
                        lemma_pixel_index_injective(width, x, y, c, x0, y0, 0);
                    }
                    if pixel_index(width, x, y, c) == idx + 1 {
                        lemma_pixel_index_injective(width, x, y, c, x0, y0, 1);
                    }
                    if pixel_index(width, x, y, c) == idx + 2 {
                        lemma_pixel_index_injective(width, x, y, c, x0, y0, 2);
                    }
                    if pixel_index(width, x, y, c) == idx + 3 {
                        lemma_pixel_index_injective(width, x, y, c, x0, y0, 3);
                    }
                }
                assert forall|c: int| 0 <= c < 4 implies data@[#[trigger] pixel_index(
                    width,
                    x0,
                    y0,
                    c,
                )] == pixel_field(sorted@[p2 as int], c) by {
                    lemma_pixel_index_bounds(width, x0, y0, c, h as int);
                }
            }
            p2 += 1;
        }
        proof {
            assert(fits_width(data@, width));
            assert(height_of(data@, width) == h);
            assert forall|l: int|
                0 <= l < nlines && l != li implies line_pixels(data@, width, vert, l)
                == line_pixels(snap, width, vert, l) by {
                lemma_lines_agree(data@, snap, width, vert, l);
            }
            assert(line_pixels(data@, width, vert, li as int) =~= sorted@) by {
                assert forall|q: int| 0 <= q < line_len implies line_pixels(
                    data@,
                    width,
                    vert,
                    li as int,
                )[q] == sorted@[q] by {
                    let x = if vert {
                        li as int
                    } else {
                        q
                    };
                    let y = if vert {
                        q
                    } else {
                        li as int
                    };
                    lemma_pixel_index_bounds(width, x, y, 0, h as int);
                    assert(data@[pixel_index(width, x, y, 0)] == pixel_field(sorted@[q], 0));
                    assert(data@[pixel_index(width, x, y, 1)] == pixel_field(sorted@[q], 1));
                    assert(data@[pixel_index(width, x, y, 2)] == pixel_field(sorted@[q], 2));
                    assert(data@[pixel_index(width, x, y, 3)] == pixel_field(sorted@[q], 3));
                }
            }
        }
        li += 1;
    }
}

} // verus!
