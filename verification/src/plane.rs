//! A plane is cut into `n x n` blocks, row after row; each block gets its
//! own quadtree. This module models the whole plane: which sizes fit, the
//! encoder's bits, and what the decoder reads and paints.

use vstd::prelude::*;
use vstd::arithmetic::div_mod::{lemma_div_is_ordered, lemma_fundamental_div_mod, lemma_mod_add_multiples_vanish};
use vstd::arithmetic::mul::lemma_mul_inequality;
use crate::quadtree::{
    QuadTree, fill_rect,
    offset, build, tree_bits, leaves_near_mean, law_leaves_near_mean, lemma_render_agree, lemma_parse_fits,
    lemma_offset_mono, lemma_offset_injective, lemma_fill_rect, leaf_at, leaf_ok, lemma_leaf_at,
    lemma_render_pixel, lemma_render_frame, rect_pixels, row_pixels, seq_sum, abs, is_flat, parse_tree, parse_ok, render, is_block_size, lemma_build, lemma_max_bits, law_parse_tree_bits,
};

verus! {

/// The origin of the last block along a side of length `len > 0`.
pub open spec fn last_origin(len: int, n: int) -> int {
    ((len - 1) / n) * n
}

/// The side length covered by whole blocks.
pub open spec fn padded(len: int, n: int) -> int {
    if len <= 0 {
        0
    } else {
        last_origin(len, n) + n
    }
}

/// Every block of a `w x h` plane cut into `n x n` blocks has coordinates
/// that fit in a `u16` and pixels within a buffer of `size` bytes.
pub open spec fn plane_fits(size: int, w: int, h: int, n: int) -> bool {
    w == 0 || h == 0 || {
        &&& padded(w, n) <= 65535
        &&& padded(h, n) <= 65535
        &&& offset(w, padded(w, n) - 1, padded(h, n) - 1) < size
    }
}

/// The bits of the blocks of row `y` from column `x` on; each block starts
/// from last colour 255 and repeat count 0.
pub open spec fn row_bits_from(
    img: Seq<u8>,
    w: int,
    n: int,
    min_max_dist: int,
    depth_compression_level: int,
    y: int,
    x: int,
) -> Seq<u8>
    decreases w - x + n,
{
    if x >= w || n <= 0 {
        Seq::empty()
    } else {
        tree_bits(build(img, w, n, min_max_dist, depth_compression_level, 0, x, y, 255, 0).0)
            + row_bits_from(img, w, n, min_max_dist, depth_compression_level, y, x + n)
    }
}

/// The bits of the block rows from row `y` on.
pub open spec fn plane_bits_from(
    img: Seq<u8>,
    w: int,
    h: int,
    n: int,
    min_max_dist: int,
    depth_compression_level: int,
    y: int,
) -> Seq<u8>
    decreases h - y + n,
{
    if y >= h || n <= 0 {
        Seq::empty()
    } else {
        row_bits_from(img, w, n, min_max_dist, depth_compression_level, y, 0) + plane_bits_from(
            img,
            w,
            h,
            n,
            min_max_dist,
            depth_compression_level,
            y + n,
        )
    }
}

/// The bits the encoder writes for a whole plane.
pub open spec fn plane_bits(
    img: Seq<u8>,
    w: int,
    h: int,
    n: int,
    min_max_dist: int,
    depth_compression_level: int,
) -> Seq<u8> {
    plane_bits_from(img, w, h, n, min_max_dist, depth_compression_level, 0)
}

/// The decoder's result for row `y` from column `x` on: the plane painted so
/// far and the bit position. Each block is painted from last colour 255.
pub open spec fn decode_row_from(
    bits: Seq<u8>,
    pos: int,
    img: Seq<u8>,
    w: int,
    n: int,
    y: int,
    x: int,
) -> (Seq<u8>, int)
    decreases w - x + n,
{
    if x >= w || n <= 0 {
        (img, pos)
    } else {
        let (t, p1) = parse_tree(bits, pos, n);
        let img1 = render(t, img, w, x, y, n, 255).0;
        decode_row_from(bits, p1, img1, w, n, y, x + n)
    }
}

/// Every block code of row `y` from column `x` on can be read.
pub open spec fn row_ok(bits: Seq<u8>, pos: int, w: int, n: int, x: int) -> bool
    decreases w - x + n,
{
    x >= w || n <= 0 || (parse_ok(bits, pos, n) && row_ok(bits, parse_tree(bits, pos, n).1, w, n, x + n))
}

/// The decoder's result for the block rows from row `y` on.
pub open spec fn decode_plane_from(
    bits: Seq<u8>,
    pos: int,
    img: Seq<u8>,
    w: int,
    h: int,
    n: int,
    y: int,
) -> (Seq<u8>, int)
    decreases h - y + n,
{
    if y >= h || n <= 0 {
        (img, pos)
    } else {
        let r = decode_row_from(bits, pos, img, w, n, y, 0);
        decode_plane_from(bits, r.1, r.0, w, h, n, y + n)
    }
}

/// The bit position after the block codes of a row from column `x` on.
pub open spec fn row_end(bits: Seq<u8>, pos: int, w: int, n: int, x: int) -> int
    decreases w - x + n,
{
    if x >= w || n <= 0 {
        pos
    } else {
        row_end(bits, parse_tree(bits, pos, n).1, w, n, x + n)
    }
}

/// Every block code of the block rows from row `y` on can be read.
pub open spec fn plane_ok(bits: Seq<u8>, pos: int, w: int, h: int, n: int, y: int) -> bool
    decreases h - y + n,
{
    y >= h || n <= 0 || (row_ok(bits, pos, w, n, 0) && plane_ok(
        bits,
        row_end(bits, pos, w, n, 0),
        w,
        h,
        n,
        y + n,
    ))
}

/// The bit position after the block codes of the block rows from row `y`
/// on.
pub open spec fn plane_end(bits: Seq<u8>, pos: int, w: int, h: int, n: int, y: int) -> int
    decreases h - y + n,
{
    if y >= h || n <= 0 {
        pos
    } else {
        plane_end(bits, row_end(bits, pos, w, n, 0), w, h, n, y + n)
    }
}

/// Where the decoder stops reading a plane depends on the bits alone.
pub proof fn lemma_plane_end(bits: Seq<u8>, pos: int, img: Seq<u8>, w: int, h: int, n: int, y: int)
    ensures
        decode_plane_from(bits, pos, img, w, h, n, y).1 == plane_end(bits, pos, w, h, n, y),
    decreases h - y + n,
{
    if !(y >= h || n <= 0) {
        let r = decode_row_from(bits, pos, img, w, n, y, 0);
        lemma_row_end(bits, pos, img, w, n, y, 0);
        lemma_plane_end(bits, r.1, r.0, w, h, n, y + n);
    }
}

/// Where the decoder stops reading a row depends on the bits alone.
pub proof fn lemma_row_end(bits: Seq<u8>, pos: int, img: Seq<u8>, w: int, n: int, y: int, x: int)
    ensures
        decode_row_from(bits, pos, img, w, n, y, x).1 == row_end(bits, pos, w, n, x),
    decreases w - x + n,
{
    if !(x >= w || n <= 0) {
        let (t, p1) = parse_tree(bits, pos, n);
        let img1 = render(t, img, w, x, y, n, 255).0;
        lemma_row_end(bits, p1, img1, w, n, y, x + n);
    }
}

/// A padded side covers the side and less than one more block.
pub proof fn lemma_padded(len: int, n: int)
    requires
        n >= 1,
    ensures
        len <= 0 ==> padded(len, n) == 0,
        len > 0 ==> len <= padded(len, n) <= len + n - 1,
{
    if len > 0 {
        lemma_fundamental_div_mod(len - 1, n);
        assert(n * ((len - 1) / n) == ((len - 1) / n) * n) by (nonlinear_arith);
    }
}

/// A block origin before the end of a side leaves room for a whole block
/// within the padded side, and the next origin is again a multiple of `n`.
pub proof fn lemma_block_origin(len: int, n: int, x: int)
    requires
        n >= 1,
        0 <= x < len,
        x % n == 0,
    ensures
        x + n <= padded(len, n),
        (x + n) % n == 0,
{
    lemma_fundamental_div_mod(x, n);
    lemma_div_is_ordered(x, len - 1, n);
    lemma_mul_inequality(x / n, (len - 1) / n, n);
    assert(n * (x / n) == (x / n) * n) by (nonlinear_arith);
    assert(((len - 1) / n) * n == n * ((len - 1) / n)) by (nonlinear_arith);
    lemma_mod_add_multiples_vanish(x, n);
}

/// The encoder's bits for a row from column `x` on stay within 11 bits per
/// pixel of the padded row.
pub proof fn lemma_row_bits_bound(
    img: Seq<u8>,
    w: int,
    n: int,
    min_max_dist: int,
    depth_compression_level: int,
    y: int,
    x: int,
)
    requires
        is_block_size(n),
        0 <= x,
        x % n == 0,
        x < w ==> x <= padded(w, n),
        x >= w ==> x <= padded(w, n) || w <= 0,
    ensures
        row_bits_from(img, w, n, min_max_dist, depth_compression_level, y, x).len() <= if w <= 0 {
            0
        } else {
            11 * n * (padded(w, n) - x)
        },
    decreases w - x + n,
{
    if x < w {
        lemma_block_origin(w, n, x);
        lemma_build(img, w, n, min_max_dist, depth_compression_level, 0, x, y, 255, 0);
        lemma_max_bits(n);
        lemma_row_bits_bound(img, w, n, min_max_dist, depth_compression_level, y, x + n);
        let pw = padded(w, n);
        assert(11 * n * n + 11 * n * (pw - (x + n)) == 11 * n * (pw - x)) by (nonlinear_arith);
    } else if w > 0 {
        assert(11 * n * (padded(w, n) - x) >= 0) by (nonlinear_arith)
            requires
                n >= 1,
                x <= padded(w, n),
        ;
    }
}

/// The encoder's bits for the block rows from row `y` on stay within 11
/// bits per pixel of the padded plane.
pub proof fn lemma_plane_bits_bound(
    img: Seq<u8>,
    w: int,
    h: int,
    n: int,
    min_max_dist: int,
    depth_compression_level: int,
    y: int,
)
    requires
        is_block_size(n),
        0 <= y,
        y % n == 0,
        y < h ==> y <= padded(h, n),
        y >= h ==> y <= padded(h, n) || h <= 0,
    ensures
        plane_bits_from(img, w, h, n, min_max_dist, depth_compression_level, y).len() <= if h <= 0 {
            0
        } else {
            11 * padded(w, n) * (padded(h, n) - y)
        },
    decreases h - y + n,
{
    let pw = padded(w, n);
    assert(pw >= 0) by {
        if w > 0 {
            lemma_block_origin(w, n, 0);
        }
    };
    if y < h {
        lemma_block_origin(h, n, y);
        lemma_row_bits_bound(img, w, n, min_max_dist, depth_compression_level, y, 0);
        lemma_plane_bits_bound(img, w, h, n, min_max_dist, depth_compression_level, y + n);
        let ph = padded(h, n);
        assert(11 * n * pw + 11 * pw * (ph - (y + n)) == 11 * pw * (ph - y)) by (nonlinear_arith);
        if w <= 0 {
            assert(11 * pw * (ph - (y + n)) == 0 && 11 * pw * (ph - y) == 0) by (nonlinear_arith)
                requires
                    pw == 0,
            ;
        }
    } else if h > 0 {
        assert(11 * pw * (padded(h, n) - y) >= 0) by (nonlinear_arith)
            requires
                pw >= 0,
                y <= padded(h, n),
        ;
    }
}

/// Paints, from column `x` of row `y` on, the encoder's codes for the
/// blocks of `img` into `dst` as the encoder sees them: each block from
/// last colour 255.
pub open spec fn render_fresh_row_from(
    img: Seq<u8>,
    dst: Seq<u8>,
    w: int,
    n: int,
    min_max_dist: int,
    depth_compression_level: int,
    y: int,
    x: int,
) -> Seq<u8>
    decreases w - x + n,
{
    if x >= w || n <= 0 {
        dst
    } else {
        let t = build(img, w, n, min_max_dist, depth_compression_level, 0, x, y, 255, 0).0;
        let d1 = render(t, dst, w, x, y, n, 255).0;
        render_fresh_row_from(img, d1, w, n, min_max_dist, depth_compression_level, y, x + n)
    }
}

/// The encoder's view of the block rows from row `y` on.
pub open spec fn render_fresh_plane_from(
    img: Seq<u8>,
    dst: Seq<u8>,
    w: int,
    h: int,
    n: int,
    min_max_dist: int,
    depth_compression_level: int,
    y: int,
) -> Seq<u8>
    decreases h - y + n,
{
    if y >= h || n <= 0 {
        dst
    } else {
        let d = render_fresh_row_from(img, dst, w, n, min_max_dist, depth_compression_level, y, 0);
        render_fresh_plane_from(img, d, w, h, n, min_max_dist, depth_compression_level, y + n)
    }
}

/// Reading back one row of the encoder's block codes.
proof fn lemma_row_roundtrip(
    img: Seq<u8>,
    dst: Seq<u8>,
    w: int,
    n: int,
    min_max_dist: int,
    depth_compression_level: int,
    y: int,
    x: int,
    bits: Seq<u8>,
    pos: int,
)
    requires
        is_block_size(n),
        0 <= pos,
        pos + row_bits_from(img, w, n, min_max_dist, depth_compression_level, y, x).len()
            <= bits.len(),
        bits.subrange(
            pos,
            pos + row_bits_from(img, w, n, min_max_dist, depth_compression_level, y, x).len(),
        ) == row_bits_from(img, w, n, min_max_dist, depth_compression_level, y, x),
    ensures
        ({
            let len = row_bits_from(img, w, n, min_max_dist, depth_compression_level, y, x).len();
            let d = decode_row_from(bits, pos, dst, w, n, y, x);
            let e = render_fresh_row_from(img, dst, w, n, min_max_dist, depth_compression_level, y, x);
            &&& row_ok(bits, pos, w, n, x)
            &&& row_end(bits, pos, w, n, x) == pos + len
            &&& d == (e, pos + len)
        }),
    decreases w - x + n,
{
    lemma_row_end(bits, pos, dst, w, n, y, x);
    if !(x >= w || n <= 0) {
        let t = build(img, w, n, min_max_dist, depth_compression_level, 0, x, y, 255, 0).0;
        let tb = tree_bits(t);
        let more = row_bits_from(img, w, n, min_max_dist, depth_compression_level, y, x + n);
        let all = row_bits_from(img, w, n, min_max_dist, depth_compression_level, y, x);
        assert(all == tb + more);
        lemma_build(img, w, n, min_max_dist, depth_compression_level, 0, x, y, 255, 0);
        assert(bits.subrange(pos, pos + tb.len()) =~= tb) by {
            assert forall|i: int| 0 <= i < tb.len() implies bits.subrange(pos, pos + tb.len())[i]
                == tb[i] by {
                assert(bits.subrange(pos, pos + all.len())[i] == bits[pos + i]);
                assert(all[i] == tb[i]);
            };
        };
        law_parse_tree_bits(t, n, bits, pos);
        let p1 = pos + tb.len();
        assert(bits.subrange(p1, p1 + more.len()) =~= more) by {
            assert forall|i: int| 0 <= i < more.len() implies bits.subrange(p1, p1 + more.len())[i]
                == more[i] by {
                assert(bits.subrange(pos, pos + all.len())[tb.len() + i] == bits[p1 + i]);
                assert(all[tb.len() + i] == more[i]);
            };
        };
        let d1 = render(t, dst, w, x, y, n, 255).0;
        lemma_row_roundtrip(img, d1, w, n, min_max_dist, depth_compression_level, y, x + n, bits, p1);
    }
}

/// Reading back the block rows of the encoder's bits from row `y` on.
proof fn lemma_plane_roundtrip(
    img: Seq<u8>,
    dst: Seq<u8>,
    w: int,
    h: int,
    n: int,
    min_max_dist: int,
    depth_compression_level: int,
    y: int,
    bits: Seq<u8>,
    pos: int,
)
    requires
        is_block_size(n),
        0 <= pos,
        pos + plane_bits_from(img, w, h, n, min_max_dist, depth_compression_level, y).len()
            <= bits.len(),
        bits.subrange(
            pos,
            pos + plane_bits_from(img, w, h, n, min_max_dist, depth_compression_level, y).len(),
        ) == plane_bits_from(img, w, h, n, min_max_dist, depth_compression_level, y),
    ensures
        ({
            let len = plane_bits_from(img, w, h, n, min_max_dist, depth_compression_level, y).len();
            let d = decode_plane_from(bits, pos, dst, w, h, n, y);
            let e = render_fresh_plane_from(img, dst, w, h, n, min_max_dist, depth_compression_level, y);
            &&& plane_ok(bits, pos, w, h, n, y)
            &&& d == (e, pos + len)
        }),
    decreases h - y + n,
{
    if !(y >= h || n <= 0) {
        let row = row_bits_from(img, w, n, min_max_dist, depth_compression_level, y, 0);
        let more = plane_bits_from(img, w, h, n, min_max_dist, depth_compression_level, y + n);
        let all = plane_bits_from(img, w, h, n, min_max_dist, depth_compression_level, y);
        assert(all == row + more);
        assert(bits.subrange(pos, pos + row.len()) =~= row) by {
            assert forall|i: int| 0 <= i < row.len() implies bits.subrange(pos, pos + row.len())[i]
                == row[i] by {
                assert(bits.subrange(pos, pos + all.len())[i] == bits[pos + i]);
                assert(all[i] == row[i]);
            };
        };
        lemma_row_roundtrip(img, dst, w, n, min_max_dist, depth_compression_level, y, 0, bits, pos);
        let p1 = pos + row.len();
        assert(bits.subrange(p1, p1 + more.len()) =~= more) by {
            assert forall|i: int| 0 <= i < more.len() implies bits.subrange(p1, p1 + more.len())[i]
                == more[i] by {
                assert(bits.subrange(pos, pos + all.len())[row.len() + i] == bits[p1 + i]);
                assert(all[row.len() + i] == more[i]);
            };
        };
        let r = render_fresh_row_from(img, dst, w, n, min_max_dist, depth_compression_level, y, 0);
        lemma_plane_roundtrip(img, r, w, h, n, min_max_dist, depth_compression_level, y + n, bits, p1);
    }
}

/// The decoder reads back what the encoder wrote: wherever the encoder's
/// bits for a plane stand in a bit sequence, the decoder can read them all,
/// stops right after them, and paints exactly the encoder's block codes,
/// each block from last colour 255 as the encoder saw it.
pub proof fn law_decode_encoded_plane(
    img: Seq<u8>,
    dst: Seq<u8>,
    w: int,
    h: int,
    n: int,
    min_max_dist: int,
    depth_compression_level: int,
    bits: Seq<u8>,
    pos: int,
)
    requires
        is_block_size(n),
        0 <= pos,
        pos + plane_bits(img, w, h, n, min_max_dist, depth_compression_level).len() <= bits.len(),
        bits.subrange(
            pos,
            pos + plane_bits(img, w, h, n, min_max_dist, depth_compression_level).len(),
        ) == plane_bits(img, w, h, n, min_max_dist, depth_compression_level),
    ensures
        plane_ok(bits, pos, w, h, n, 0),
        decode_plane_from(bits, pos, dst, w, h, n, 0) == (
            render_fresh_plane_from(img, dst, w, h, n, min_max_dist, depth_compression_level, 0),
            pos + plane_bits(img, w, h, n, min_max_dist, depth_compression_level).len(),
        ),
{
    lemma_plane_roundtrip(img, dst, w, h, n, min_max_dist, depth_compression_level, 0, bits, pos);
}

/// What the decoder paints of the encoder's bits for a plane stays near the
/// image: it paints the encoder's code of each `n x n` block, entered with
/// last colour 255, and every leaf of such a code has a new colour equal to
/// the floor of the average of its block's pixels, or repeats a colour
/// within 4 of that average.
pub proof fn law_decoded_leaves_near_mean(
    img: Seq<u8>,
    dst: Seq<u8>,
    w: int,
    h: int,
    n: int,
    min_max_dist: int,
    depth_compression_level: int,
    bits: Seq<u8>,
    pos: int,
)
    requires
        is_block_size(n),
        0 <= pos,
        pos + plane_bits(img, w, h, n, min_max_dist, depth_compression_level).len() <= bits.len(),
        bits.subrange(
            pos,
            pos + plane_bits(img, w, h, n, min_max_dist, depth_compression_level).len(),
        ) == plane_bits(img, w, h, n, min_max_dist, depth_compression_level),
    ensures
        decode_plane_from(bits, pos, dst, w, h, n, 0).0 == render_fresh_plane_from(
            img,
            dst,
            w,
            h,
            n,
            min_max_dist,
            depth_compression_level,
            0,
        ),
        forall|x: int, y: int|
            0 <= x < w && 0 <= y < h && x % n == 0 && y % n == 0 ==> leaves_near_mean(
                #[trigger] build(img, w, n, min_max_dist, depth_compression_level, 0, x, y, 255, 0).0,
                img,
                w,
                x,
                y,
                n,
                255,
            ),
{
    law_decode_encoded_plane(img, dst, w, h, n, min_max_dist, depth_compression_level, bits, pos);
    assert forall|x: int, y: int|
        0 <= x < w && 0 <= y < h && x % n == 0 && y % n == 0 implies leaves_near_mean(
            #[trigger] build(img, w, n, min_max_dist, depth_compression_level, 0, x, y, 255, 0).0,
            img,
            w,
            x,
            y,
            n,
            255,
        ) by {
        law_leaves_near_mean(img, w, n, min_max_dist, depth_compression_level, 0, x, y, 255, 0);
    };
}

/// Decoding the blocks of row `y` from column `x` on into two planes of one
/// length keeps them equal wherever they were equal, and makes them equal
/// on the rows of the blocks from column `x` to the end of the row.
proof fn lemma_decode_row_agree(
    bits: Seq<u8>,
    pos: int,
    a: Seq<u8>,
    b: Seq<u8>,
    w: int,
    h: int,
    n: int,
    y: int,
    x: int,
)
    requires
        is_block_size(n),
        0 <= w,
        0 <= y < h,
        y % n == 0,
        0 <= x,
        x % n == 0,
        a.len() == b.len(),
        plane_fits(a.len() as int, w, h, n),
    ensures
        decode_row_from(bits, pos, a, w, n, y, x).0.len() == a.len(),
        decode_row_from(bits, pos, b, w, n, y, x).0.len() == a.len(),
        forall|i: int|
            0 <= i < a.len() && a[i] == b[i] ==> #[trigger] decode_row_from(bits, pos, a, w, n, y, x).0[i]
                == decode_row_from(bits, pos, b, w, n, y, x).0[i],
        forall|px: int, py: int|
            x <= px < w && y <= py < y + n ==> #[trigger] decode_row_from(bits, pos, a, w, n, y, x).0[offset(w, px, py)]
                == decode_row_from(bits, pos, b, w, n, y, x).0[offset(w, px, py)],
    decreases w - x + n,
{
    if x < w {
        let (t, p1) = parse_tree(bits, pos, n);
        lemma_parse_fits(bits, pos, n);
        lemma_block_origin(w, n, x);
        lemma_block_origin(h, n, y);
        lemma_offset_mono(w, x + n - 1, y + n - 1, padded(w, n) - 1, padded(h, n) - 1);
        let a1 = render(t, a, w, x, y, n, 255).0;
        let b1 = render(t, b, w, x, y, n, 255).0;
        lemma_render_agree(t, a, b, w, x, y, n, 255);
        lemma_decode_row_agree(bits, p1, a1, b1, w, h, n, y, x + n);
        let ra = decode_row_from(bits, pos, a, w, n, y, x).0;
        let rb = decode_row_from(bits, pos, b, w, n, y, x).0;
        assert(ra == decode_row_from(bits, p1, a1, w, n, y, x + n).0);
        assert(rb == decode_row_from(bits, p1, b1, w, n, y, x + n).0);
        assert forall|px: int, py: int| x <= px < w && y <= py < y + n implies #[trigger] ra[offset(w, px, py)]
            == rb[offset(w, px, py)] by {
            if px < x + n {
                let o = offset(w, px, py);
                lemma_offset_mono(w, px, py, x + n - 1, y + n - 1);
                assert(0 <= w * py) by (nonlinear_arith)
                    requires
                        0 <= w,
                        0 <= py,
                ;
                assert(a1[o] == b1[o]);
            }
        };
    }
}

/// Decoding the block rows from row `y` on into two planes of one length
/// keeps them equal wherever they were equal, and makes them equal on every
/// pixel from row `y` on.
pub proof fn lemma_decode_plane_agree(
    bits: Seq<u8>,
    pos: int,
    a: Seq<u8>,
    b: Seq<u8>,
    w: int,
    h: int,
    n: int,
    y: int,
)
    requires
        is_block_size(n),
        0 <= w,
        0 <= y,
        y % n == 0,
        a.len() == b.len(),
        plane_fits(a.len() as int, w, h, n),
    ensures
        decode_plane_from(bits, pos, a, w, h, n, y).0.len() == a.len(),
        decode_plane_from(bits, pos, b, w, h, n, y).0.len() == a.len(),
        forall|i: int|
            0 <= i < a.len() && a[i] == b[i] ==> #[trigger] decode_plane_from(bits, pos, a, w, h, n, y).0[i]
                == decode_plane_from(bits, pos, b, w, h, n, y).0[i],
        forall|px: int, py: int|
            0 <= px < w && y <= py < h ==> #[trigger] decode_plane_from(bits, pos, a, w, h, n, y).0[offset(w, px, py)]
                == decode_plane_from(bits, pos, b, w, h, n, y).0[offset(w, px, py)],
    decreases h - y + n,
{
    if y < h {
        let ra1 = decode_row_from(bits, pos, a, w, n, y, 0);
        let rb1 = decode_row_from(bits, pos, b, w, n, y, 0);
        lemma_decode_row_agree(bits, pos, a, b, w, h, n, y, 0);
        lemma_row_end(bits, pos, a, w, n, y, 0);
        lemma_row_end(bits, pos, b, w, n, y, 0);
        lemma_block_origin(h, n, y);
        lemma_decode_plane_agree(bits, ra1.1, ra1.0, rb1.0, w, h, n, y + n);
        let ra = decode_plane_from(bits, pos, a, w, h, n, y).0;
        let rb = decode_plane_from(bits, pos, b, w, h, n, y).0;
        assert(ra == decode_plane_from(bits, ra1.1, ra1.0, w, h, n, y + n).0);
        assert(rb == decode_plane_from(bits, rb1.1, rb1.0, w, h, n, y + n).0);
        assert forall|px: int, py: int| 0 <= px < w && y <= py < h implies #[trigger] ra[offset(w, px, py)]
            == rb[offset(w, px, py)] by {
            if py < y + n {
                let o = offset(w, px, py);
                lemma_offset_mono(w, px, py, padded(w, n) - 1, padded(h, n) - 1);
                lemma_padded(w, n);
                lemma_padded(h, n);
                assert(0 <= w * py) by (nonlinear_arith)
                    requires
                        0 <= w,
                        0 <= py,
                ;
                assert(ra1.0[o] == rb1.0[o]);
            }
        };
    }
}

/// The decoder paints every pixel of a plane whose blocks fit: what it
/// leaves at each pixel of the `w x h` plane does not depend on what the
/// plane held before.
pub proof fn law_decode_paints_every_pixel(
    bits: Seq<u8>,
    pos: int,
    a: Seq<u8>,
    b: Seq<u8>,
    w: int,
    h: int,
    n: int,
)
    requires
        is_block_size(n),
        0 <= w,
        a.len() == b.len(),
        plane_fits(a.len() as int, w, h, n),
    ensures
        forall|px: int, py: int|
            0 <= px < w && 0 <= py < h ==> #[trigger] decode_plane_from(bits, pos, a, w, h, n, 0).0[offset(w, px, py)]
                == decode_plane_from(bits, pos, b, w, h, n, 0).0[offset(w, px, py)],
{
    lemma_decode_plane_agree(bits, pos, a, b, w, h, n, 0);
}

/// With blocks of one pixel, the encoder's code of the pixel at `(x, y)`,
/// entered with last colour 255, paints it with a colour within 4 of the
/// pixel and leaves every other index as it was.
proof fn lemma_pixel_block(
    img: Seq<u8>,
    dst: Seq<u8>,
    w: int,
    min_max_dist: int,
    depth_compression_level: int,
    x: int,
    y: int,
)
    requires
        0 <= x < w,
        0 <= y,
        offset(w, x, y) < dst.len(),
    ensures
        ({
            let t = build(img, w, 1, min_max_dist, depth_compression_level, 0, x, y, 255, 0).0;
            let d = render(t, dst, w, x, y, 1, 255).0;
            &&& d.len() == dst.len()
            &&& abs(d[offset(w, x, y)] - img[offset(w, x, y)]) <= 4
            &&& forall|i: int| 0 <= i < dst.len() && i != offset(w, x, y) ==> #[trigger] d[i] == dst[i]
        }),
{
    let o = offset(w, x, y);
    assert(row_pixels(img, w, y, x, x) =~= Seq::<u8>::empty());
    assert(rect_pixels(img, w, x, y, x + 1, y) =~= Seq::<u8>::empty());
    assert(rect_pixels(img, w, x, y, x + 1, y + 1) =~= seq![img[o]]);
    let v = img[o];
    assert(seq![v].drop_last() =~= Seq::<u8>::empty());
    assert(seq_sum(Seq::<u8>::empty()) == 0);
    assert(seq_sum(seq![v]) == v);
    assert(is_flat(img, w, 1, min_max_dist, depth_compression_level, 0, x, y));
    let t = build(img, w, 1, min_max_dist, depth_compression_level, 0, x, y, 255, 0).0;
    let c: u8 = match t {
        QuadTree::Colour(c) => c,
        _ => 255u8,
    };
    assert(1int * 1int == 1);
    assert(v as int / 1int == v);
    if abs(255 * 1 - v) <= 4 * 1 {
        assert(t == QuadTree::Repeat);
    } else {
        assert(t == QuadTree::Colour(v));
    }
    assert(abs(c - v) <= 4);
    assert(render(t, dst, w, x, y, 1, 255).0 == fill_rect(dst, w, x, y, x + 1, y + 1, c));
    lemma_fill_rect(dst, w, x, y, x + 1, y + 1, c);
    let d = fill_rect(dst, w, x, y, x + 1, y + 1, c);
    assert(d[offset(w, x, y)] == c);
    assert forall|i: int| 0 <= i < dst.len() && i != offset(w, x, y) implies #[trigger] d[i] == dst[i] by {
        assert(forall|qx: int, qy: int| x <= qx < x + 1 && y <= qy < y + 1 ==> #[trigger] offset(w, qx, qy) != i);
    };
}

/// With blocks of one pixel, the encoder's view of row `y` from column `x`
/// on paints each of those pixels within 4 of the image and leaves every
/// other index as it was.
proof fn lemma_pixel_row(
    img: Seq<u8>,
    dst: Seq<u8>,
    w: int,
    min_max_dist: int,
    depth_compression_level: int,
    y: int,
    x: int,
)
    requires
        0 <= x,
        0 <= y,
        x < w ==> offset(w, w - 1, y) < dst.len(),
    ensures
        ({
            let d = render_fresh_row_from(img, dst, w, 1, min_max_dist, depth_compression_level, y, x);
            &&& d.len() == dst.len()
            &&& forall|px: int| x <= px < w ==> abs(#[trigger] d[offset(w, px, y)] - img[offset(w, px, y)]) <= 4
            &&& forall|i: int|
                0 <= i < dst.len() && (forall|qx: int| x <= qx < w ==> #[trigger] offset(w, qx, y) != i)
                    ==> #[trigger] d[i] == dst[i]
        }),
    decreases w - x,
{
    if x < w {
        let t = build(img, w, 1, min_max_dist, depth_compression_level, 0, x, y, 255, 0).0;
        let d1 = render(t, dst, w, x, y, 1, 255).0;
        lemma_pixel_block(img, dst, w, min_max_dist, depth_compression_level, x, y);
        lemma_pixel_row(img, d1, w, min_max_dist, depth_compression_level, y, x + 1);
        let d = render_fresh_row_from(img, dst, w, 1, min_max_dist, depth_compression_level, y, x);
        assert(d == render_fresh_row_from(img, d1, w, 1, min_max_dist, depth_compression_level, y, x + 1));
        assert forall|px: int| x <= px < w implies abs(#[trigger] d[offset(w, px, y)] - img[offset(w, px, y)]) <= 4 by {
            if px == x {
                assert(forall|qx: int| x + 1 <= qx < w ==> #[trigger] offset(w, qx, y) != offset(w, x, y));
                assert(0 <= w * y) by (nonlinear_arith)
                    requires
                        0 <= w,
                        0 <= y,
                ;
                assert(d[offset(w, x, y)] == d1[offset(w, x, y)]);
            }
        };
        assert forall|i: int|
            0 <= i < dst.len() && (forall|qx: int| x <= qx < w ==> #[trigger] offset(w, qx, y) != i)
                implies #[trigger] d[i] == dst[i] by {
            assert(offset(w, x, y) != i);
            assert(forall|qx: int| x + 1 <= qx < w ==> #[trigger] offset(w, qx, y) != i);
        };
    }
}

/// With blocks of one pixel, the encoder's view of the rows from row `y` on
/// paints each of those pixels within 4 of the image and leaves every other
/// index as it was.
proof fn lemma_pixel_plane(
    img: Seq<u8>,
    dst: Seq<u8>,
    w: int,
    h: int,
    min_max_dist: int,
    depth_compression_level: int,
    y: int,
)
    requires
        0 <= y,
        0 <= w,
        0 < w && y < h ==> offset(w, w - 1, h - 1) < dst.len(),
    ensures
        ({
            let d = render_fresh_plane_from(img, dst, w, h, 1, min_max_dist, depth_compression_level, y);
            &&& d.len() == dst.len()
            &&& forall|px: int, py: int|
                0 <= px < w && y <= py < h ==> abs(#[trigger] d[offset(w, px, py)] - img[offset(w, px, py)]) <= 4
            &&& forall|i: int|
                0 <= i < dst.len() && (forall|qx: int, qy: int| 0 <= qx < w && y <= qy < h ==> #[trigger] offset(w, qx, qy) != i)
                    ==> #[trigger] d[i] == dst[i]
        }),
    decreases h - y,
{
    if y < h {
        if 0 < w {
            lemma_offset_mono(w, w - 1, y, w - 1, h - 1);
        }
        lemma_pixel_row(img, dst, w, min_max_dist, depth_compression_level, y, 0);
        let d1 = render_fresh_row_from(img, dst, w, 1, min_max_dist, depth_compression_level, y, 0);
        lemma_pixel_plane(img, d1, w, h, min_max_dist, depth_compression_level, y + 1);
        let d = render_fresh_plane_from(img, dst, w, h, 1, min_max_dist, depth_compression_level, y);
        assert(d == render_fresh_plane_from(img, d1, w, h, 1, min_max_dist, depth_compression_level, y + 1));
        assert forall|px: int, py: int| 0 <= px < w && y <= py < h implies abs(
            #[trigger] d[offset(w, px, py)] - img[offset(w, px, py)],
        ) <= 4 by {
            if py == y {
                assert forall|qx: int, qy: int| 0 <= qx < w && y + 1 <= qy < h implies #[trigger] offset(w, qx, qy)
                    != offset(w, px, y) by {
                    if offset(w, qx, qy) == offset(w, px, y) {
                        lemma_offset_injective(w, qx, qy, px, y);
                    }
                };
                lemma_offset_mono(w, px, y, w - 1, h - 1);
                assert(0 <= w * y) by (nonlinear_arith)
                    requires
                        0 <= w,
                        0 <= y,
                ;
                assert(d[offset(w, px, y)] == d1[offset(w, px, y)]);
            }
        };
        assert forall|i: int|
            0 <= i < dst.len() && (forall|qx: int, qy: int| 0 <= qx < w && y <= qy < h ==> #[trigger] offset(w, qx, qy) != i)
                implies #[trigger] d[i] == dst[i] by {
            assert(forall|qx: int| 0 <= qx < w ==> #[trigger] offset(w, qx, y) != i);
            assert(forall|qx: int, qy: int| 0 <= qx < w && y + 1 <= qy < h ==> #[trigger] offset(w, qx, qy) != i);
        };
    }
}

/// With blocks of one pixel, every pixel the decoder paints from the
/// encoder's bits lies within 4 of the image's pixel: each block is a leaf,
/// either the pixel itself or a repeat of 255 where the pixel is within 4
/// of it.
pub proof fn law_single_pixel_blocks_near_image(
    img: Seq<u8>,
    dst: Seq<u8>,
    w: int,
    h: int,
    min_max_dist: int,
    depth_compression_level: int,
    bits: Seq<u8>,
    pos: int,
)
    requires
        0 <= w,
        0 < w && 0 < h ==> offset(w, w - 1, h - 1) < dst.len(),
        0 <= pos,
        pos + plane_bits(img, w, h, 1, min_max_dist, depth_compression_level).len() <= bits.len(),
        bits.subrange(
            pos,
            pos + plane_bits(img, w, h, 1, min_max_dist, depth_compression_level).len(),
        ) == plane_bits(img, w, h, 1, min_max_dist, depth_compression_level),
    ensures
        forall|px: int, py: int|
            0 <= px < w && 0 <= py < h ==> abs(
                #[trigger] decode_plane_from(bits, pos, dst, w, h, 1, 0).0[offset(w, px, py)] - img[offset(w, px, py)],
            ) <= 4,
{
    law_decode_encoded_plane(img, dst, w, h, 1, min_max_dist, depth_compression_level, bits, pos);
    lemma_pixel_plane(img, dst, w, h, min_max_dist, depth_compression_level, 0);
}

/// The block origin of a coordinate: the multiple of `n` at or below it.
proof fn lemma_tile_origin(p: int, x: int, n: int)
    requires
        n >= 1,
        x % n == 0,
        0 <= x <= p < x + n,
    ensures
        (p / n) * n == x,
{
    lemma_fundamental_div_mod(p, n);
    lemma_fundamental_div_mod(x, n);
    let q = p / n;
    let r = x / n;
    assert(q == r) by (nonlinear_arith)
        requires
            p == n * q + p % n,
            0 <= p % n < n,
            x == n * r,
            x <= p < x + n,
            n >= 1,
    ;
    assert(q * n == n * q) by (nonlinear_arith);
}

/// Every coordinate lies in the block that starts at its block origin.
proof fn lemma_in_tile(p: int, n: int)
    requires
        n >= 1,
        0 <= p,
    ensures
        0 <= (p / n) * n <= p < (p / n) * n + n,
        ((p / n) * n) % n == 0,
{
    lemma_fundamental_div_mod(p, n);
    assert((p / n) * n == n * (p / n)) by (nonlinear_arith);
    assert(p / n >= 0) by (nonlinear_arith)
        requires
            0 <= p,
            n >= 1,
    ;
    assert(0 <= (p / n) * n) by (nonlinear_arith)
        requires
            p / n >= 0,
            n >= 1,
    ;
    vstd::arithmetic::div_mod::lemma_mod_multiples_basic(p / n, n);
}

/// Below a side that is a multiple of `n`, a block that starts at a
/// multiple of `n` ends within the side.
pub proof fn lemma_block_within(x: int, w: int, n: int)
    requires
        n >= 1,
        x % n == 0,
        w % n == 0,
        0 <= x < w,
    ensures
        x + n <= w,
        padded(w, n) == w,
{
    lemma_fundamental_div_mod(x, n);
    lemma_fundamental_div_mod(w, n);
    lemma_fundamental_div_mod(w - 1, n);
    let a = x / n;
    let b = w / n;
    let c = (w - 1) / n;
    assert(x + n <= w) by (nonlinear_arith)
        requires
            x == n * a,
            w == n * b,
            x < w,
            n >= 1,
    ;
    assert(c * n + n == w) by (nonlinear_arith)
        requires
            w == n * b,
            w - 1 == n * c + (w - 1) % n,
            0 <= (w - 1) % n < n,
            n >= 1,
    ;
}

/// The encoder's code of the block whose origin is `(x, y)`, painted from
/// last colour 255, leaves pixel `(px, py)` of that block with this colour.
pub open spec fn tile_leaf(
    img: Seq<u8>,
    w: int,
    n: int,
    min_max_dist: int,
    depth_compression_level: int,
    x: int,
    y: int,
    px: int,
    py: int,
) -> (int, int, int, int, bool) {
    leaf_at(build(img, w, n, min_max_dist, depth_compression_level, 0, x, y, 255, 0).0, x, y, n, 255, px, py)
}

/// Where the row length is a multiple of `n`, the encoder's view of the
/// blocks of row `y` from column `x` on paints each of their pixels with
/// the colour of the leaf that covers it, and leaves every index outside
/// those blocks as it was.
proof fn lemma_leaf_row(
    img: Seq<u8>,
    dst: Seq<u8>,
    w: int,
    n: int,
    min_max_dist: int,
    depth_compression_level: int,
    y: int,
    x: int,
)
    requires
        is_block_size(n),
        0 <= x,
        x % n == 0,
        0 <= y,
        w % n == 0,
        x < w ==> offset(w, w - 1, y + n - 1) < dst.len(),
    ensures
        ({
            let r = render_fresh_row_from(img, dst, w, n, min_max_dist, depth_compression_level, y, x);
            &&& r.len() == dst.len()
            &&& forall|px: int, py: int|
                x <= px < w && y <= py < y + n ==> #[trigger] r[offset(w, px, py)] == tile_leaf(
                    img,
                    w,
                    n,
                    min_max_dist,
                    depth_compression_level,
                    (px / n) * n,
                    y,
                    px,
                    py,
                ).3
            &&& forall|i: int|
                0 <= i < dst.len() && (forall|qx: int, qy: int|
                    x <= qx < w && y <= qy < y + n ==> #[trigger] offset(w, qx, qy) != i) ==> #[trigger] r[i] == dst[i]
        }),
    decreases w - x + n,
{
    if x < w {
        lemma_block_within(x, w, n);
        lemma_block_origin(w, n, x);
        lemma_build(img, w, n, min_max_dist, depth_compression_level, 0, x, y, 255, 0);
        let t = build(img, w, n, min_max_dist, depth_compression_level, 0, x, y, 255, 0).0;
        lemma_offset_mono(w, x + n - 1, y + n - 1, w - 1, y + n - 1);
        let d1 = render(t, dst, w, x, y, n, 255).0;
        lemma_render_frame(t, dst, w, x, y, n, 255);
        lemma_leaf_row(img, d1, w, n, min_max_dist, depth_compression_level, y, x + n);
        let r = render_fresh_row_from(img, dst, w, n, min_max_dist, depth_compression_level, y, x);
        assert(r == render_fresh_row_from(img, d1, w, n, min_max_dist, depth_compression_level, y, x + n));
        assert forall|px: int, py: int| x <= px < w && y <= py < y + n implies #[trigger] r[offset(w, px, py)]
            == tile_leaf(img, w, n, min_max_dist, depth_compression_level, (px / n) * n, y, px, py).3 by {
            if px < x + n {
                let o = offset(w, px, py);
                lemma_tile_origin(px, x, n);
                lemma_render_pixel(t, dst, w, x, y, n, 255, px, py);
                assert forall|qx: int, qy: int| x + n <= qx < w && y <= qy < y + n implies #[trigger] offset(w, qx, qy)
                    != o by {
                    if offset(w, qx, qy) == o {
                        lemma_offset_injective(w, qx, qy, px, py);
                    }
                };
                lemma_offset_mono(w, px, py, w - 1, y + n - 1);
                assert(0 <= w * py) by (nonlinear_arith)
                    requires
                        0 <= w,
                        0 <= py,
                ;
                assert(r[o] == d1[o]);
            }
        };
        assert forall|i: int|
            0 <= i < dst.len() && (forall|qx: int, qy: int|
                x <= qx < w && y <= qy < y + n ==> #[trigger] offset(w, qx, qy) != i) implies #[trigger] r[i] == dst[i] by {
            assert(forall|qx: int, qy: int| x <= qx < x + n && y <= qy < y + n ==> #[trigger] offset(w, qx, qy) != i);
            assert(forall|qx: int, qy: int| x + n <= qx < w && y <= qy < y + n ==> #[trigger] offset(w, qx, qy) != i);
        };
    }
}

/// Where the row length is a multiple of `n`, the encoder's view of the
/// block rows from row `y` on paints each of their pixels with the colour
/// of the leaf that covers it, and leaves every index outside those blocks
/// as it was.
proof fn lemma_leaf_plane(
    img: Seq<u8>,
    dst: Seq<u8>,
    w: int,
    h: int,
    n: int,
    min_max_dist: int,
    depth_compression_level: int,
    y: int,
)
    requires
        is_block_size(n),
        0 <= y,
        y % n == 0,
        0 <= w,
        w % n == 0,
        0 < w && y < h ==> offset(w, w - 1, padded(h, n) - 1) < dst.len(),
    ensures
        ({
            let r = render_fresh_plane_from(img, dst, w, h, n, min_max_dist, depth_compression_level, y);
            &&& r.len() == dst.len()
            &&& forall|px: int, py: int|
                0 <= px < w && y <= py < h ==> #[trigger] r[offset(w, px, py)] == tile_leaf(
                    img,
                    w,
                    n,
                    min_max_dist,
                    depth_compression_level,
                    (px / n) * n,
                    (py / n) * n,
                    px,
                    py,
                ).3
            &&& forall|i: int|
                0 <= i < dst.len() && (forall|qx: int, qy: int|
                    0 <= qx < w && y <= qy < padded(h, n) ==> #[trigger] offset(w, qx, qy) != i) ==> #[trigger] r[i]
                    == dst[i]
        }),
    decreases h - y + n,
{
    if y < h {
        lemma_block_origin(h, n, y);
        if 0 < w {
            lemma_offset_mono(w, w - 1, y + n - 1, w - 1, padded(h, n) - 1);
        }
        lemma_leaf_row(img, dst, w, n, min_max_dist, depth_compression_level, y, 0);
        let d1 = render_fresh_row_from(img, dst, w, n, min_max_dist, depth_compression_level, y, 0);
        lemma_leaf_plane(img, d1, w, h, n, min_max_dist, depth_compression_level, y + n);
        let r = render_fresh_plane_from(img, dst, w, h, n, min_max_dist, depth_compression_level, y);
        assert(r == render_fresh_plane_from(img, d1, w, h, n, min_max_dist, depth_compression_level, y + n));
        assert forall|px: int, py: int| 0 <= px < w && y <= py < h implies #[trigger] r[offset(w, px, py)] == tile_leaf(
            img,
            w,
            n,
            min_max_dist,
            depth_compression_level,
            (px / n) * n,
            (py / n) * n,
            px,
            py,
        ).3 by {
            if py < y + n {
                let o = offset(w, px, py);
                lemma_tile_origin(py, y, n);
                assert(d1[o] == tile_leaf(img, w, n, min_max_dist, depth_compression_level, (px / n) * n, y, px, py).3);
                assert forall|qx: int, qy: int| 0 <= qx < w && y + n <= qy < padded(h, n) implies #[trigger] offset(
                    w,
                    qx,
                    qy,
                ) != o by {
                    if offset(w, qx, qy) == o {
                        lemma_offset_injective(w, qx, qy, px, py);
                    }
                };
                lemma_offset_mono(w, px, py, w - 1, padded(h, n) - 1);
                assert(0 <= w * py) by (nonlinear_arith)
                    requires
                        0 <= w,
                        0 <= py,
                ;
                assert(r[o] == d1[o]);
            }
        };
        assert forall|i: int|
            0 <= i < dst.len() && (forall|qx: int, qy: int|
                0 <= qx < w && y <= qy < padded(h, n) ==> #[trigger] offset(w, qx, qy) != i) implies #[trigger] r[i]
            == dst[i] by {
            assert(forall|qx: int, qy: int| 0 <= qx < w && y <= qy < y + n ==> #[trigger] offset(w, qx, qy) != i);
            assert(forall|qx: int, qy: int| 0 <= qx < w && y + n <= qy < padded(h, n) ==> #[trigger] offset(w, qx, qy) != i);
        };
    }
}

/// Every pixel the decoder paints from the encoder's bits stands for the
/// image: where the row length is a multiple of the block size, each pixel
/// of the plane gets the colour of the leaf of the encoder's code that
/// covers it (in the block at its block origin, entered with last colour
/// 255), and that leaf's colour is the floor of the average of the leaf
/// block's pixels, or within 4 of that average where it repeats a colour.
pub proof fn law_decoded_pixels_near_mean(
    img: Seq<u8>,
    dst: Seq<u8>,
    w: int,
    h: int,
    n: int,
    min_max_dist: int,
    depth_compression_level: int,
    bits: Seq<u8>,
    pos: int,
)
    requires
        is_block_size(n),
        0 <= w,
        w % n == 0,
        plane_fits(dst.len() as int, w, h, n),
        0 <= pos,
        pos + plane_bits(img, w, h, n, min_max_dist, depth_compression_level).len() <= bits.len(),
        bits.subrange(
            pos,
            pos + plane_bits(img, w, h, n, min_max_dist, depth_compression_level).len(),
        ) == plane_bits(img, w, h, n, min_max_dist, depth_compression_level),
    ensures
        forall|px: int, py: int|
            0 <= px < w && 0 <= py < h ==> {
                let l = tile_leaf(img, w, n, min_max_dist, depth_compression_level, (px / n) * n, (py / n) * n, px, py);
                &&& #[trigger] decode_plane_from(bits, pos, dst, w, h, n, 0).0[offset(w, px, py)] == l.3
                &&& l.0 <= px < l.0 + l.2
                &&& l.1 <= py < l.1 + l.2
                &&& leaf_ok(img, w, l)
            },
{
    law_decode_encoded_plane(img, dst, w, h, n, min_max_dist, depth_compression_level, bits, pos);
    if 0 < w && 0 < h {
        lemma_block_within(0, w, n);
    }
    lemma_leaf_plane(img, dst, w, h, n, min_max_dist, depth_compression_level, 0);
    assert forall|px: int, py: int| 0 <= px < w && 0 <= py < h implies {
        let l = tile_leaf(img, w, n, min_max_dist, depth_compression_level, (px / n) * n, (py / n) * n, px, py);
        &&& #[trigger] decode_plane_from(bits, pos, dst, w, h, n, 0).0[offset(w, px, py)] == l.3
        &&& l.0 <= px < l.0 + l.2
        &&& l.1 <= py < l.1 + l.2
        &&& leaf_ok(img, w, l)
    } by {
        let tx = (px / n) * n;
        let ty = (py / n) * n;
        lemma_in_tile(px, n);
        lemma_in_tile(py, n);
        lemma_build(img, w, n, min_max_dist, depth_compression_level, 0, tx, ty, 255, 0);
        law_leaves_near_mean(img, w, n, min_max_dist, depth_compression_level, 0, tx, ty, 255, 0);
        let t = build(img, w, n, min_max_dist, depth_compression_level, 0, tx, ty, 255, 0).0;
        lemma_leaf_at(t, img, w, tx, ty, n, 255, px, py);
    };
}

} // verus!
