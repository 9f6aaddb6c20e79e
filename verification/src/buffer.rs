use vstd::prelude::*;

verus! {

/// A byte sequence is a well-formed RGBA8 raster when whole pixels fill it.
pub open spec fn rgba_len(s: Seq<u8>) -> bool {
    s.len() % 4 == 0
}

/// A width fits a buffer when it is positive and divides the pixel count,
/// so that the raster is exactly `width` by `height` pixels.
pub open spec fn fits_width(s: Seq<u8>, width: u32) -> bool {
    &&& s.len() % 4 == 0
    &&& width >= 1
    &&& (s.len() / 4) % (width as nat) == 0
}

/// The derived height of a buffer of the given width, in pixels.
pub open spec fn height_of(s: Seq<u8>, width: u32) -> nat {
    s.len() / 4 / (width as nat)
}

/// The byte index of channel `c` of pixel `(x, y)` in row-major RGBA8 order.
pub open spec fn pixel_index(width: u32, x: int, y: int, c: int) -> int {
    4 * (y * width + x) + c
}

/// The values of one channel class (byte positions congruent to `c` mod 4)
/// in pixel order.
pub open spec fn channel_plane(s: Seq<u8>, c: int) -> Seq<u8>
    recommends
        rgba_len(s),
        0 <= c < 4,
{
    Seq::new(s.len() / 4, |k: int| s[4 * k + c])
}

/// The column of the pixel that byte `i` belongs to.
pub open spec fn coord_x(i: int, width: u32) -> int {
    (i / 4) % (width as int)
}

/// The row of the pixel that byte `i` belongs to.
pub open spec fn coord_y(i: int, width: u32) -> int {
    (i / 4) / (width as int)
}

/// Every byte of the raster belongs to one pixel: its coordinates are in
/// range and address it back.
pub proof fn lemma_byte_coords(width: u32, h: int, i: int)
    requires
        width >= 1,
        h >= 0,
        0 <= i < 4 * (width as int) * h,
    ensures
        0 <= coord_x(i, width) < width,
        0 <= coord_y(i, width) < h,
        i == pixel_index(width, coord_x(i, width), coord_y(i, width), i % 4),
{
    let w = width as int;
    let px = i / 4;
    vstd::arithmetic::div_mod::lemma_fundamental_div_mod(i, 4);
    assert(4 * (w * h) == 4 * w * h) by (nonlinear_arith);
    assert(i < 4 * (w * h));
    assert(px < w * h) by {
        if px >= w * h {
            assert(4 * px >= 4 * (w * h)) by (nonlinear_arith)
                requires
                    px >= w * h,
            ;
        }
    }
    vstd::arithmetic::div_mod::lemma_fundamental_div_mod(px, w);
    let x = coord_x(i, width);
    let y = coord_y(i, width);
    vstd::arithmetic::div_mod::lemma_mod_bound(px, w);
    assert(px == w * y + x);
    assert(y < h) by {
        if y >= h {
            assert(w * y >= w * h) by (nonlinear_arith)
                requires
                    y >= h,
                    w >= 1,
            ;
        }
    }
    assert(y >= 0) by {
        vstd::arithmetic::div_mod::lemma_div_pos_is_pos(px, w);
    }
    assert(i == 4 * (y * w + x) + i % 4);
}

/// A byte sequence of exactly `4 * width * h` bytes fits that width, with
/// height `h`.
pub proof fn lemma_dims_to_fits(s: Seq<u8>, width: u32, h: int)
    requires
        width >= 1,
        h >= 0,
        s.len() == 4 * (width as int) * h,
    ensures
        fits_width(s, width),
        height_of(s, width) == h,
{
    let n = s.len() as int;
    let w = width as int;
    assert(n == (w * h) * 4 + 0) by (nonlinear_arith)
        requires
            n == 4 * w * h,
    ;
    vstd::arithmetic::div_mod::lemma_fundamental_div_mod_converse(n, 4, w * h, 0);
    assert(n / 4 == h * w + 0) by (nonlinear_arith)
        requires
            n / 4 == w * h,
    ;
    vstd::arithmetic::div_mod::lemma_fundamental_div_mod_converse(n / 4, w, h, 0);
}

/// A buffer that fits its width is exactly `4 * width * height` bytes.
pub proof fn lemma_buffer_dims(s: Seq<u8>, width: u32)
    requires
        fits_width(s, width),
    ensures
        s.len() == 4 * (width as int) * (height_of(s, width) as int),
{
    let n4 = (s.len() / 4) as int;
    let h = height_of(s, width) as int;
    vstd::arithmetic::div_mod::lemma_fundamental_div_mod(s.len() as int, 4);
    vstd::arithmetic::div_mod::lemma_fundamental_div_mod(n4, width as int);
    assert(s.len() == 4 * n4);
    assert(n4 == (width as int) * h);
    assert(4 * ((width as int) * h) == 4 * (width as int) * h) by (nonlinear_arith);
}

/// Pixel coordinates inside the raster address bytes inside the buffer.
pub proof fn lemma_pixel_index_bounds(width: u32, x: int, y: int, c: int, h: int)
    requires
        width >= 1,
        0 <= x < width,
        0 <= y < h,
        0 <= c < 4,
    ensures
        0 <= pixel_index(width, x, y, c),
        pixel_index(width, x, y, c) + (4 - c) <= 4 * (width as int) * h,
{
    assert(0 <= y * width + x && y * width + x <= (width as int) * h - 1) by (nonlinear_arith)
        requires
            0 <= x < width,
            0 <= y < h,
            width >= 1,
    ;
    assert(4 * (y * (width as int) + x) + 4 <= 4 * ((width as int) * h)) by (nonlinear_arith)
        requires
            y * width + x <= (width as int) * h - 1,
    ;
    assert(4 * ((width as int) * h) == 4 * (width as int) * h) by (nonlinear_arith);
}

/// Distinct pixel coordinates address distinct bytes.
pub proof fn lemma_pixel_index_injective(
    width: u32,
    x1: int,
    y1: int,
    c1: int,
    x2: int,
    y2: int,
    c2: int,
)
    requires
        width >= 1,
        0 <= x1 < width,
        0 <= x2 < width,
        0 <= y1,
        0 <= y2,
        0 <= c1 < 4,
        0 <= c2 < 4,
        pixel_index(width, x1, y1, c1) == pixel_index(width, x2, y2, c2),
    ensures
        x1 == x2,
        y1 == y2,
        c1 == c2,
{
    let a1 = y1 * (width as int) + x1;
    let a2 = y2 * (width as int) + x2;
    vstd::arithmetic::div_mod::lemma_fundamental_div_mod_converse(4 * a1 + c1, 4, a1, c1);
    vstd::arithmetic::div_mod::lemma_fundamental_div_mod_converse(4 * a2 + c2, 4, a2, c2);
    assert(a1 == a2 && c1 == c2);
    vstd::arithmetic::div_mod::lemma_fundamental_div_mod_converse(a1, width as int, y1, x1);
    vstd::arithmetic::div_mod::lemma_fundamental_div_mod_converse(a2, width as int, y2, x2);
}

/// A fresh copy of a byte vector.
pub fn copy_bytes(v: &Vec<u8>) -> (r: Vec<u8>)
    ensures
        r@ == v@,
{
    let mut r: Vec<u8> = Vec::new();
    while r.len() < v.len()
        invariant
            r@.len() <= v@.len(),
            r@ == v@.take(r@.len() as int),
        decreases v@.len() - r@.len(),
    {
        r.push(v[r.len()]);
        proof {
            assert(r@ =~= v@.take(r@.len() as int));
        }
    }
    proof {
        assert(r@ =~= v@);
    }
    r
}

/// Rounds a byte offset down to the pixel (four-byte) boundary at or below
/// it. Every randomized byte-range operation aligns its offsets with this.
pub fn align_down4(x: usize) -> (r: usize)
    ensures
        r == x - x % 4,
        r % 4 == 0,
        r <= x,
{
    x - x % 4
}

/// The mathematical (always non-negative) remainder of a signed offset,
/// as wraparound addressing uses it.
pub fn emod_offset(off: i32, m: u32) -> (r: u32)
    requires
        m >= 1,
    ensures
        r == (off as int) % (m as int),
        r < m,
{
    if off >= 0 {
        let r = (off as u32) % m;
        proof {
            vstd::arithmetic::div_mod::lemma_mod_bound(off as int, m as int);
        }
        r
    } else {
        let neg: u64 = (-(off as i64)) as u64;
        let a: u32 = (neg % (m as u64)) as u32;
        proof {
            let n = neg as int;
            let mi = m as int;
            let q = n / mi;
            let am = n % mi;
            vstd::arithmetic::div_mod::lemma_fundamental_div_mod(n, mi);
            vstd::arithmetic::div_mod::lemma_mod_bound(n, mi);
            if am == 0 {
                assert(-n == (-q) * mi + 0) by (nonlinear_arith)
                    requires
                        n == mi * q + am,
                        am == 0,
                ;
                vstd::arithmetic::div_mod::lemma_fundamental_div_mod_converse(-n, mi, -q, 0);
            } else {
                assert(-n == (-q - 1) * mi + (mi - am)) by (nonlinear_arith)
                    requires
                        n == mi * q + am,
                ;
                vstd::arithmetic::div_mod::lemma_fundamental_div_mod_converse(
                    -n,
                    mi,
                    -q - 1,
                    mi - am,
                );
            }
        }
        if a == 0 {
            0
        } else {
            m - a
        }
    }
}

/// Exchanging two positions of one channel class leaves every channel
/// plane's multiset of values unchanged.
#[verifier::rlimit(50)]
pub proof fn lemma_swap_preserves_planes(s: Seq<u8>, i: int, j: int)
    requires
        rgba_len(s),
        0 <= i < s.len(),
        0 <= j < s.len(),
        i % 4 == j % 4,
    ensures
        rgba_len(s.update(i, s[j]).update(j, s[i])),
        forall|c: int|
            0 <= c < 4 ==> #[trigger] channel_plane(s.update(i, s[j]).update(j, s[i]), c)
                .to_multiset() == channel_plane(s, c).to_multiset(),
{
    let t = s.update(i, s[j]).update(j, s[i]);
    assert forall|c: int|
        0 <= c < 4 implies #[trigger] channel_plane(t, c).to_multiset() == channel_plane(
        s,
        c,
    ).to_multiset() by {
        let sp = channel_plane(s, c);
        let tp = channel_plane(t, c);
        if c == i % 4 {
            let ki = i / 4;
            let kj = j / 4;
            assert(4 * ki + c == i);
            assert(4 * kj + c == j);
            assert(tp =~= sp.update(ki, sp[kj]).update(kj, sp[ki]));
            lemma_swap_multiset(sp, ki, kj);
        } else {
            assert(tp =~= sp);
        }
    }
}

/// Exchanging two entries of a sequence leaves its multiset unchanged.
pub proof fn lemma_swap_multiset<A>(s: Seq<A>, i: int, j: int)
    requires
        0 <= i < s.len(),
        0 <= j < s.len(),
    ensures
        s.update(i, s[j]).update(j, s[i]).to_multiset() == s.to_multiset(),
{
    broadcast use vstd::seq_lib::group_to_multiset_ensures;

    let t = s.update(i, s[j]).update(j, s[i]);
    if i == j {
        assert(t =~= s);
    } else {
        let u = s.update(i, s[j]);
        vstd::seq_lib::to_multiset_update(s, i, s[j]);
        vstd::seq_lib::to_multiset_update(u, j, s[i]);
        assert(u[j] == s[j]);
        assert(u.to_multiset() == s.to_multiset().remove(s[i]).insert(s[j]));
        assert(t.to_multiset() == u.to_multiset().remove(u[j]).insert(s[i]));
        assert(s.to_multiset().contains(s[i])) by {
            assert(s.contains(s[i]));
        }
        assert(t.to_multiset() =~= s.to_multiset());
    }
}

} // verus!
