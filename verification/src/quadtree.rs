//! The quadtree model of one image plane: how the encoder splits a block
//! into a tree, how a tree is written as bits, how the decoder reads a tree
//! back from bits, and how a tree is painted into a plane.

use vstd::prelude::*;
use crate::bits::{bits_value, byte_bits, lemma_byte_bits};

verus! {

/// The code of one block: either a leaf that repeats the last colour, a
/// leaf with its own colour, or a split into four quarter blocks (top
/// left, top right, bottom left, bottom right).
pub enum QuadTree {
    Repeat,
    Colour(u8),
    Split(Box<QuadTree>, Box<QuadTree>, Box<QuadTree>, Box<QuadTree>),
}

/// Block sizes the codec works with: powers of two up to 128.
pub open spec fn is_block_size(n: int) -> bool {
    n == 1 || n == 2 || n == 4 || n == 8 || n == 16 || n == 32 || n == 64 || n == 128
}

/// How many times a block of size `n` can be halved before it is a pixel.
pub open spec fn levels(n: int) -> nat
    decreases n,
{
    if n <= 1 {
        0
    } else {
        1 + levels(n / 2)
    }
}

/// An upper bound on the number of bits of the code of a block of size `n`.
pub open spec fn max_bits(n: int) -> nat
    decreases n,
{
    if n <= 1 {
        10
    } else {
        1 + 4 * max_bits(n / 2)
    }
}

/// Offset of pixel `(x, y)` in a plane of row length `w`.
pub open spec fn offset(w: int, x: int, y: int) -> int {
    w * y + x
}

/// The pixels `x1 .. x2` of row `y`, left to right.
pub open spec fn row_pixels(img: Seq<u8>, w: int, y: int, x1: int, x2: int) -> Seq<u8>
    decreases x2 - x1,
{
    if x2 <= x1 {
        Seq::empty()
    } else {
        row_pixels(img, w, y, x1, x2 - 1).push(img[offset(w, x2 - 1, y)])
    }
}

/// The pixels of the rectangle `[x1, x2) x [y1, y2)`, row after row.
pub open spec fn rect_pixels(img: Seq<u8>, w: int, x1: int, y1: int, x2: int, y2: int) -> Seq<u8>
    decreases y2 - y1,
{
    if y2 <= y1 {
        Seq::empty()
    } else {
        rect_pixels(img, w, x1, y1, x2, y2 - 1) + row_pixels(img, w, y2 - 1, x1, x2)
    }
}

/// The smaller of `m` and all values of `s`.
pub open spec fn seq_min(m: int, s: Seq<u8>) -> int
    decreases s.len(),
{
    if s.len() == 0 {
        m
    } else {
        let a = seq_min(m, s.drop_last());
        if (s.last() as int) < a {
            s.last() as int
        } else {
            a
        }
    }
}

/// The larger of `m` and all values of `s`.
pub open spec fn seq_max(m: int, s: Seq<u8>) -> int
    decreases s.len(),
{
    if s.len() == 0 {
        m
    } else {
        let a = seq_max(m, s.drop_last());
        if (s.last() as int) > a {
            s.last() as int
        } else {
            a
        }
    }
}

/// The sum of the values of `s`.
pub open spec fn seq_sum(s: Seq<u8>) -> int
    decreases s.len(),
{
    if s.len() == 0 {
        0
    } else {
        seq_sum(s.drop_last()) + s.last() as int
    }
}

/// Absolute value.
pub open spec fn abs(a: int) -> int {
    if a < 0 {
        -a
    } else {
        a
    }
}

/// A block is coded as a leaf when it is a single pixel or when the spread
/// between its darkest and brightest pixel, times the block size, is at
/// most `min_max_dist * (depth + 1) * depth_compression_level`.
pub open spec fn is_flat(
    img: Seq<u8>,
    w: int,
    n: int,
    min_max_dist: int,
    depth_compression_level: int,
    depth: int,
    x: int,
    y: int,
) -> bool {
    let px = rect_pixels(img, w, x, y, x + n, y + n);
    let first = img[offset(w, x, y)];
    n <= 1 || (seq_max(first as int, px) - seq_min(first as int, px)) * n <= min_max_dist * (depth
        + 1) * depth_compression_level
}

/// The code the encoder chooses for the `n x n` block at `(x, y)`, given the
/// last colour written and how many leaves in a row have repeated it; with
/// the last colour and the repeat count afterwards.
///
/// A leaf repeats the last colour when the block's average lies within 4 of
/// it and fewer than 4 leaves in a row have repeated it; otherwise it gets
/// the (floor of the) average as its own colour.
pub open spec fn build(
    img: Seq<u8>,
    w: int,
    n: int,
    min_max_dist: int,
    depth_compression_level: int,
    depth: int,
    x: int,
    y: int,
    last: int,
    count: int,
) -> (QuadTree, int, int)
    decreases n,
{
    if is_flat(img, w, n, min_max_dist, depth_compression_level, depth, x, y) {
        let sum = seq_sum(rect_pixels(img, w, x, y, x + n, y + n));
        let area = n * n;
        if abs(last * area - sum) <= 4 * area && count < 4 {
            (QuadTree::Repeat, last, count + 1)
        } else {
            let avg = sum / area;
            (QuadTree::Colour(avg as u8), avg, 0)
        }
    } else {
        let h = n / 2;
        let r1 = build(img, w, h, min_max_dist, depth_compression_level, depth + 1, x, y, last, count);
        let r2 = build(img, w, h, min_max_dist, depth_compression_level, depth + 1, x + h, y, r1.1, r1.2);
        let r3 = build(img, w, h, min_max_dist, depth_compression_level, depth + 1, x, y + h, r2.1, r2.2);
        let r4 = build(img, w, h, min_max_dist, depth_compression_level, depth + 1, x + h, y + h, r3.1, r3.2);
        (QuadTree::Split(Box::new(r1.0), Box::new(r2.0), Box::new(r3.0), Box::new(r4.0)), r4.1, r4.2)
    }
}

/// The bits of a code: `1 1` for a repeated colour, `1 0` and the colour's
/// eight bits for a new colour, `0` and the codes of the four quarters for
/// a split.
pub open spec fn tree_bits(t: QuadTree) -> Seq<u8>
    decreases t,
{
    match t {
        QuadTree::Repeat => seq![1u8, 1u8],
        QuadTree::Colour(c) => seq![1u8, 0u8] + byte_bits(c),
        QuadTree::Split(a, b, c, d) => seq![0u8] + tree_bits(*a) + tree_bits(*b) + tree_bits(*c)
            + tree_bits(*d),
    }
}

/// A code fits a block of size `n`: splits only where the block can be
/// halved.
pub open spec fn fits(t: QuadTree, n: int) -> bool
    decreases t,
{
    match t {
        QuadTree::Split(a, b, c, d) => n >= 2 && fits(*a, n / 2) && fits(*b, n / 2) && fits(
            *c,
            n / 2,
        ) && fits(*d, n / 2),
        _ => true,
    }
}

/// The code the decoder reads for a block of size `n` from the bits at
/// `pos`, and the position after it.
pub open spec fn parse_tree(bits: Seq<u8>, pos: int, n: int) -> (QuadTree, int)
    decreases n,
{
    if bits[pos] == 1 {
        if bits[pos + 1] == 1 {
            (QuadTree::Repeat, pos + 2)
        } else {
            (QuadTree::Colour(bits_value(bits.subrange(pos + 2, pos + 10)) as u8), pos + 10)
        }
    } else if n >= 2 {
        let h = n / 2;
        let r1 = parse_tree(bits, pos + 1, h);
        let r2 = parse_tree(bits, r1.1, h);
        let r3 = parse_tree(bits, r2.1, h);
        let r4 = parse_tree(bits, r3.1, h);
        (QuadTree::Split(Box::new(r1.0), Box::new(r2.0), Box::new(r3.0), Box::new(r4.0)), r4.1)
    } else {
        (QuadTree::Repeat, pos)
    }
}

/// The decoder can read a code for a block of size `n` at `pos`: every bit
/// it reads is within `bits`, and no split is read for a single pixel.
pub open spec fn parse_ok(bits: Seq<u8>, pos: int, n: int) -> bool
    decreases n,
{
    &&& 0 <= pos < bits.len()
    &&& if bits[pos] == 1 {
        pos + 1 < bits.len() && (bits[pos + 1] == 1 || pos + 10 <= bits.len())
    } else {
        let h = n / 2;
        let r1 = parse_tree(bits, pos + 1, h);
        let r2 = parse_tree(bits, r1.1, h);
        let r3 = parse_tree(bits, r2.1, h);
        &&& n >= 2
        &&& parse_ok(bits, pos + 1, h)
        &&& parse_ok(bits, r1.1, h)
        &&& parse_ok(bits, r2.1, h)
        &&& parse_ok(bits, r3.1, h)
    }
}

/// Writes `v` to the pixels `x1 .. x2` of row `y`, left to right.
pub open spec fn fill_row(img: Seq<u8>, w: int, y: int, x1: int, x2: int, v: u8) -> Seq<u8>
    decreases x2 - x1,
{
    if x2 <= x1 {
        img
    } else {
        fill_row(img, w, y, x1, x2 - 1, v).update(offset(w, x2 - 1, y), v)
    }
}

/// Writes `v` to the rectangle `[x1, x2) x [y1, y2)`, row after row.
pub open spec fn fill_rect(img: Seq<u8>, w: int, x1: int, y1: int, x2: int, y2: int, v: u8) -> Seq<u8>
    decreases y2 - y1,
{
    if y2 <= y1 {
        img
    } else {
        fill_row(fill_rect(img, w, x1, y1, x2, y2 - 1, v), w, y2 - 1, x1, x2, v)
    }
}

/// Paints a code for the `n x n` block at `(x, y)` into `img`, given the
/// last colour painted; with the last colour afterwards.
pub open spec fn render(t: QuadTree, img: Seq<u8>, w: int, x: int, y: int, n: int, last: u8) -> (
    Seq<u8>,
    u8,
)
    decreases t,
{
    match t {
        QuadTree::Repeat => (fill_rect(img, w, x, y, x + n, y + n, last), last),
        QuadTree::Colour(c) => (fill_rect(img, w, x, y, x + n, y + n, c), c),
        QuadTree::Split(a, b, c, d) => {
            let h = n / 2;
            let r1 = render(*a, img, w, x, y, h, last);
            let r2 = render(*b, r1.0, w, x + h, y, h, r1.1);
            let r3 = render(*c, r2.0, w, x, y + h, h, r2.1);
            render(*d, r3.0, w, x + h, y + h, h, r3.1)
        },
    }
}

/// The last colour after painting a code entered with last colour `last`.
pub open spec fn last_after(t: QuadTree, last: int) -> int
    decreases t,
{
    match t {
        QuadTree::Repeat => last,
        QuadTree::Colour(c) => c as int,
        QuadTree::Split(a, b, c, d) => last_after(*d, last_after(*c, last_after(*b, last_after(*a, last)))),
    }
}

/// Every leaf of the code `t` of the `n x n` block at `(x, y)`, entered
/// with last colour `last`, stands for its block's pixels in `img`: a new
/// colour is the floor of their average, and a repeated colour lies within
/// 4 of their average.
pub open spec fn leaves_near_mean(t: QuadTree, img: Seq<u8>, w: int, x: int, y: int, n: int, last: int) -> bool
    decreases t,
{
    let sum = seq_sum(rect_pixels(img, w, x, y, x + n, y + n));
    let area = n * n;
    match t {
        QuadTree::Repeat => abs(last * area - sum) <= 4 * area,
        QuadTree::Colour(c) => c == sum / area,
        QuadTree::Split(a, b, c, d) => {
            let h = n / 2;
            let l1 = last_after(*a, last);
            let l2 = last_after(*b, l1);
            let l3 = last_after(*c, l2);
            &&& leaves_near_mean(*a, img, w, x, y, h, last)
            &&& leaves_near_mean(*b, img, w, x + h, y, h, l1)
            &&& leaves_near_mean(*c, img, w, x, y + h, h, l2)
            &&& leaves_near_mean(*d, img, w, x + h, y + h, h, l3)
        },
    }
}

/// Every leaf the encoder writes stands for its block: a new colour is the
/// floor of the average of the block's pixels, a repeated colour lies within
/// 4 of that average; and the last colour the encoder carries on is the one
/// its code leaves.
pub proof fn law_leaves_near_mean(
    img: Seq<u8>,
    w: int,
    n: int,
    min_max_dist: int,
    depth_compression_level: int,
    depth: int,
    x: int,
    y: int,
    last: int,
    count: int,
)
    requires
        is_block_size(n),
    ensures
        ({
            let r = build(img, w, n, min_max_dist, depth_compression_level, depth, x, y, last, count);
            &&& leaves_near_mean(r.0, img, w, x, y, n, last)
            &&& last_after(r.0, last) == r.1
        }),
    decreases n,
{
    if is_flat(img, w, n, min_max_dist, depth_compression_level, depth, x, y) {
        lemma_block_average(img, w, n, x, y);
    } else {
        lemma_half_block(n);
        let h = n / 2;
        let r1 = build(img, w, h, min_max_dist, depth_compression_level, depth + 1, x, y, last, count);
        let r2 = build(img, w, h, min_max_dist, depth_compression_level, depth + 1, x + h, y, r1.1, r1.2);
        let r3 = build(img, w, h, min_max_dist, depth_compression_level, depth + 1, x, y + h, r2.1, r2.2);
        law_leaves_near_mean(img, w, h, min_max_dist, depth_compression_level, depth + 1, x, y, last, count);
        law_leaves_near_mean(img, w, h, min_max_dist, depth_compression_level, depth + 1, x + h, y, r1.1, r1.2);
        law_leaves_near_mean(img, w, h, min_max_dist, depth_compression_level, depth + 1, x, y + h, r2.1, r2.2);
        law_leaves_near_mean(img, w, h, min_max_dist, depth_compression_level, depth + 1, x + h, y + h, r3.1, r3.2);
    }
}

/// A block the encoder does not take as a leaf is written as a `0` and the
/// codes of its four quarters, top left, top right, bottom left, bottom
/// right, each entered with the last colour and repeat count the one before
/// left; the block's own last colour and count are the fourth quarter's.
pub proof fn law_split_bits(
    img: Seq<u8>,
    w: int,
    n: int,
    min_max_dist: int,
    depth_compression_level: int,
    depth: int,
    x: int,
    y: int,
    last: int,
    count: int,
)
    requires
        !is_flat(img, w, n, min_max_dist, depth_compression_level, depth, x, y),
    ensures
        ({
            let h = n / 2;
            let r = build(img, w, n, min_max_dist, depth_compression_level, depth, x, y, last, count);
            let r1 = build(img, w, h, min_max_dist, depth_compression_level, depth + 1, x, y, last, count);
            let r2 = build(img, w, h, min_max_dist, depth_compression_level, depth + 1, x + h, y, r1.1, r1.2);
            let r3 = build(img, w, h, min_max_dist, depth_compression_level, depth + 1, x, y + h, r2.1, r2.2);
            let r4 = build(img, w, h, min_max_dist, depth_compression_level, depth + 1, x + h, y + h, r3.1, r3.2);
            &&& tree_bits(r.0) == seq![0u8] + tree_bits(r1.0) + tree_bits(r2.0) + tree_bits(r3.0) + tree_bits(r4.0)
            &&& r.1 == r4.1
            &&& r.2 == r4.2
        }),
{
}

/// Painting a code ends on the last colour its leaves leave, the same the
/// encoder carries on.
pub proof fn law_render_last(t: QuadTree, img: Seq<u8>, w: int, x: int, y: int, n: int, last: u8)
    ensures
        render(t, img, w, x, y, n, last).1 as int == last_after(t, last as int),
    decreases t,
{
    match t {
        QuadTree::Split(a, b, c, d) => {
            let h = n / 2;
            let r1 = render(*a, img, w, x, y, h, last);
            let r2 = render(*b, r1.0, w, x + h, y, h, r1.1);
            let r3 = render(*c, r2.0, w, x, y + h, h, r2.1);
            law_render_last(*a, img, w, x, y, h, last);
            law_render_last(*b, r1.0, w, x + h, y, h, r1.1);
            law_render_last(*c, r2.0, w, x, y + h, h, r2.1);
            law_render_last(*d, r3.0, w, x + h, y + h, h, r3.1);
        },
        _ => {},
    }
}

/// The decoder's last colour after a block follows the encoder's: painting
/// the encoder's code of a block from the last colour the encoder entered
/// it with ends on the last colour the encoder carries on.
pub proof fn law_decoder_last_matches_encoder(
    img: Seq<u8>,
    dst: Seq<u8>,
    w: int,
    n: int,
    min_max_dist: int,
    depth_compression_level: int,
    depth: int,
    x: int,
    y: int,
    last: u8,
    count: int,
)
    requires
        is_block_size(n),
    ensures
        render(
            build(img, w, n, min_max_dist, depth_compression_level, depth, x, y, last as int, count).0,
            dst,
            w,
            x,
            y,
            n,
            last,
        ).1 as int == build(img, w, n, min_max_dist, depth_compression_level, depth, x, y, last as int, count).1,
{
    let t = build(img, w, n, min_max_dist, depth_compression_level, depth, x, y, last as int, count).0;
    law_leaves_near_mean(img, w, n, min_max_dist, depth_compression_level, depth, x, y, last as int, count);
    law_render_last(t, dst, w, x, y, n, last);
}

/// Offsets grow with both coordinates.
pub proof fn lemma_offset_mono(w: int, x: int, y: int, x2: int, y2: int)
    requires
        0 <= w,
        0 <= x <= x2,
        0 <= y <= y2,
    ensures
        offset(w, x, y) <= offset(w, x2, y2),
{
    assert(w * y <= w * y2) by (nonlinear_arith)
        requires
            0 <= w,
            y <= y2,
    ;
}

/// A row segment has one pixel per column.
pub proof fn lemma_row_len(img: Seq<u8>, w: int, y: int, x1: int, x2: int)
    requires
        x1 <= x2,
    ensures
        row_pixels(img, w, y, x1, x2).len() == x2 - x1,
    decreases x2 - x1,
{
    if x2 > x1 {
        lemma_row_len(img, w, y, x1, x2 - 1);
    }
}

/// A rectangle has one pixel per row and column.
pub proof fn lemma_rect_len(img: Seq<u8>, w: int, x1: int, y1: int, x2: int, y2: int)
    requires
        x1 <= x2,
        y1 <= y2,
    ensures
        rect_pixels(img, w, x1, y1, x2, y2).len() == (y2 - y1) * (x2 - x1),
    decreases y2 - y1,
{
    if y2 > y1 {
        lemma_rect_len(img, w, x1, y1, x2, y2 - 1);
        lemma_row_len(img, w, y2 - 1, x1, x2);
        assert((y2 - 1 - y1) * (x2 - x1) + (x2 - x1) == (y2 - y1) * (x2 - x1)) by (nonlinear_arith);
    } else {
        assert((y2 - y1) * (x2 - x1) == 0) by (nonlinear_arith)
            requires
                y2 == y1,
        ;
    }
}

/// A sum of bytes is at most 255 per byte.
pub proof fn lemma_seq_sum_bound(s: Seq<u8>)
    ensures
        0 <= seq_sum(s) <= 255 * s.len(),
    decreases s.len(),
{
    if s.len() > 0 {
        lemma_seq_sum_bound(s.drop_last());
    }
}

/// The average of the pixels of an `n x n` block is a byte.
pub proof fn lemma_block_average(img: Seq<u8>, w: int, n: int, x: int, y: int)
    requires
        n >= 1,
    ensures
        0 <= seq_sum(rect_pixels(img, w, x, y, x + n, y + n)) <= 255 * (n * n),
        0 <= seq_sum(rect_pixels(img, w, x, y, x + n, y + n)) / (n * n) <= 255,
{
    let px = rect_pixels(img, w, x, y, x + n, y + n);
    lemma_rect_len(img, w, x, y, x + n, y + n);
    lemma_seq_sum_bound(px);
    let s = seq_sum(px);
    assert(n * n >= 1) by (nonlinear_arith)
        requires
            n >= 1,
    ;
    assert(s / (n * n) <= 255) by (nonlinear_arith)
        requires
            0 <= s <= 255 * (n * n),
            n * n >= 1,
    ;
    assert(s / (n * n) >= 0) by (nonlinear_arith)
        requires
            0 <= s,
            n * n >= 1,
    ;
}

/// Halving a block size gives a block size.
pub proof fn lemma_half_block(n: int)
    requires
        is_block_size(n),
        n >= 2,
    ensures
        is_block_size(n / 2),
        levels(n) == 1 + levels(n / 2),
        max_bits(n) == 1 + 4 * max_bits(n / 2),
        n / 2 >= 1,
{
}

/// The bound on code bits, for the block sizes.
pub proof fn lemma_max_bits(n: int)
    requires
        is_block_size(n),
    ensures
        10 <= max_bits(n) <= 11 * n * n,
        levels(n) <= 7,
{
    reveal_with_fuel(max_bits, 8);
    reveal_with_fuel(levels, 8);
}

/// What the encoder's code for a block is like: it fits the block, its bits
/// stay within `max_bits(n)`, and the last colour afterwards is either the
/// one before or a byte.
pub proof fn lemma_build(
    img: Seq<u8>,
    w: int,
    n: int,
    min_max_dist: int,
    depth_compression_level: int,
    depth: int,
    x: int,
    y: int,
    last: int,
    count: int,
)
    requires
        is_block_size(n),
        0 <= count,
    ensures
        ({
            let r = build(img, w, n, min_max_dist, depth_compression_level, depth, x, y, last, count);
            &&& fits(r.0, n)
            &&& 2 <= tree_bits(r.0).len() <= max_bits(n)
            &&& r.1 == last || 0 <= r.1 <= 255
            &&& 0 <= r.2 <= if count > 4 { count } else { 4 }
        }),
    decreases n,
{
    let r = build(img, w, n, min_max_dist, depth_compression_level, depth, x, y, last, count);
    lemma_max_bits(n);
    if is_flat(img, w, n, min_max_dist, depth_compression_level, depth, x, y) {
        lemma_block_average(img, w, n, x, y);
        match r.0 {
            QuadTree::Colour(c) => {
                lemma_byte_bits(c);
                assert(tree_bits(r.0).len() == 10);
            },
            _ => {
                assert(tree_bits(r.0).len() == 2);
            },
        }
    } else {
        lemma_half_block(n);
        let h = n / 2;
        let r1 = build(img, w, h, min_max_dist, depth_compression_level, depth + 1, x, y, last, count);
        let r2 = build(img, w, h, min_max_dist, depth_compression_level, depth + 1, x + h, y, r1.1, r1.2);
        let r3 = build(img, w, h, min_max_dist, depth_compression_level, depth + 1, x, y + h, r2.1, r2.2);
        let r4 = build(img, w, h, min_max_dist, depth_compression_level, depth + 1, x + h, y + h, r3.1, r3.2);
        lemma_build(img, w, h, min_max_dist, depth_compression_level, depth + 1, x, y, last, count);
        lemma_build(img, w, h, min_max_dist, depth_compression_level, depth + 1, x + h, y, r1.1, r1.2);
        lemma_build(img, w, h, min_max_dist, depth_compression_level, depth + 1, x, y + h, r2.1, r2.2);
        lemma_build(img, w, h, min_max_dist, depth_compression_level, depth + 1, x + h, y + h, r3.1, r3.2);
        assert(tree_bits(r.0) == seq![0u8] + tree_bits(r1.0) + tree_bits(r2.0) + tree_bits(r3.0)
            + tree_bits(r4.0));
    }
}

/// Reading back a written code: wherever the bits of a code that fits a
/// block of size `n` stand in a bit sequence, the decoder reads exactly
/// that code there, and stops right after its bits.
pub proof fn law_parse_tree_bits(t: QuadTree, n: int, bits: Seq<u8>, pos: int)
    requires
        fits(t, n),
        0 <= pos,
        pos + tree_bits(t).len() <= bits.len(),
        bits.subrange(pos, pos + tree_bits(t).len()) == tree_bits(t),
    ensures
        parse_ok(bits, pos, n),
        parse_tree(bits, pos, n) == (t, pos + tree_bits(t).len()),
    decreases t,
{
    let tb = tree_bits(t);
    assert(bits[pos] == tb[0]) by {
        assert(bits.subrange(pos, pos + tb.len())[0] == bits[pos]);
    };
    match t {
        QuadTree::Repeat => {
            assert(bits[pos + 1] == tb[1]) by {
                assert(bits.subrange(pos, pos + tb.len())[1] == bits[pos + 1]);
            };
        },
        QuadTree::Colour(c) => {
            assert(bits[pos + 1] == tb[1]) by {
                assert(bits.subrange(pos, pos + tb.len())[1] == bits[pos + 1]);
            };
            lemma_byte_bits(c);
            assert(bits.subrange(pos + 2, pos + 10) =~= byte_bits(c)) by {
                assert forall|i: int| 0 <= i < 8 implies bits.subrange(pos + 2, pos + 10)[i]
                    == byte_bits(c)[i] by {
                    assert(bits.subrange(pos, pos + tb.len())[i + 2] == bits[pos + 2 + i]);
                    assert(tb[i + 2] == byte_bits(c)[i]);
                };
            };
        },
        QuadTree::Split(a, b, c, d) => {
            let ta = tree_bits(*a);
            let tb2 = tree_bits(*b);
            let tc = tree_bits(*c);
            let td = tree_bits(*d);
            let h = n / 2;
            let p1 = pos + 1;
            let p2 = p1 + ta.len();
            let p3 = p2 + tb2.len();
            let p4 = p3 + tc.len();
            let p5 = p4 + td.len();
            assert(tb =~= seq![0u8] + ta + tb2 + tc + td);
            assert(p5 == pos + tb.len());
            assert(bits.subrange(p1, p2) =~= ta) by {
                assert forall|i: int| 0 <= i < ta.len() implies bits.subrange(p1, p2)[i] == ta[i] by {
                    assert(bits.subrange(pos, pos + tb.len())[1 + i] == bits[p1 + i]);
                    assert(tb[1 + i] == ta[i]);
                };
            };
            assert(bits.subrange(p2, p3) =~= tb2) by {
                assert forall|i: int| 0 <= i < tb2.len() implies bits.subrange(p2, p3)[i] == tb2[i] by {
                    assert(bits.subrange(pos, pos + tb.len())[1 + ta.len() + i] == bits[p2 + i]);
                    assert(tb[1 + ta.len() + i] == tb2[i]);
                };
            };
            assert(bits.subrange(p3, p4) =~= tc) by {
                assert forall|i: int| 0 <= i < tc.len() implies bits.subrange(p3, p4)[i] == tc[i] by {
                    assert(bits.subrange(pos, pos + tb.len())[1 + ta.len() + tb2.len() + i] == bits[p3 + i]);
                    assert(tb[1 + ta.len() + tb2.len() + i] == tc[i]);
                };
            };
            assert(bits.subrange(p4, p5) =~= td) by {
                assert forall|i: int| 0 <= i < td.len() implies bits.subrange(p4, p5)[i] == td[i] by {
                    assert(bits.subrange(pos, pos + tb.len())[1 + ta.len() + tb2.len() + tc.len() + i]
                        == bits[p4 + i]);
                    assert(tb[1 + ta.len() + tb2.len() + tc.len() + i] == td[i]);
                };
            };
            law_parse_tree_bits(*a, h, bits, p1);
            law_parse_tree_bits(*b, h, bits, p2);
            law_parse_tree_bits(*c, h, bits, p3);
            law_parse_tree_bits(*d, h, bits, p4);
        },
    }
}

/// A row fill keeps the length, writes `v` at every offset of its segment
/// and leaves every other index as it was.
pub proof fn lemma_fill_row(img: Seq<u8>, w: int, y: int, x1: int, x2: int, v: u8)
    requires
        0 <= w,
        0 <= y,
        0 <= x1,
        x1 < x2 ==> offset(w, x2 - 1, y) < img.len(),
    ensures
        fill_row(img, w, y, x1, x2, v).len() == img.len(),
        forall|px: int| x1 <= px < x2 ==> #[trigger] fill_row(img, w, y, x1, x2, v)[offset(w, px, y)] == v,
        forall|i: int|
            0 <= i < img.len() && (forall|qx: int| x1 <= qx < x2 ==> offset(w, qx, y) != i)
                ==> #[trigger] fill_row(img, w, y, x1, x2, v)[i] == img[i],
    decreases x2 - x1,
{
    if x2 > x1 {
        lemma_fill_row(img, w, y, x1, x2 - 1, v);
        let prev = fill_row(img, w, y, x1, x2 - 1, v);
        let o = offset(w, x2 - 1, y);
        assert(0 <= w * y) by (nonlinear_arith)
            requires
                0 <= w,
                0 <= y,
        ;
        assert forall|px: int| x1 <= px < x2 implies #[trigger] fill_row(img, w, y, x1, x2, v)[offset(w, px, y)]
            == v by {
            if px < x2 - 1 {
                assert(prev[offset(w, px, y)] == v);
            }
        };
        assert forall|i: int|
            0 <= i < img.len() && (forall|qx: int| x1 <= qx < x2 ==> offset(w, qx, y) != i)
                implies #[trigger] fill_row(img, w, y, x1, x2, v)[i] == img[i] by {
            assert(offset(w, x2 - 1, y) != i);
            assert(forall|qx: int| x1 <= qx < x2 - 1 ==> offset(w, qx, y) != i);
        };
    }
}

/// A rectangle fill keeps the length, writes `v` at every offset of the
/// rectangle and leaves every other index as it was.
pub proof fn lemma_fill_rect(img: Seq<u8>, w: int, x1: int, y1: int, x2: int, y2: int, v: u8)
    requires
        0 <= w,
        0 <= x1,
        0 <= y1,
        x1 < x2 && y1 < y2 ==> offset(w, x2 - 1, y2 - 1) < img.len(),
    ensures
        fill_rect(img, w, x1, y1, x2, y2, v).len() == img.len(),
        forall|px: int, py: int|
            x1 <= px < x2 && y1 <= py < y2 ==> #[trigger] fill_rect(img, w, x1, y1, x2, y2, v)[offset(w, px, py)]
                == v,
        forall|i: int|
            0 <= i < img.len() && (forall|qx: int, qy: int|
                x1 <= qx < x2 && y1 <= qy < y2 ==> offset(w, qx, qy) != i)
                ==> #[trigger] fill_rect(img, w, x1, y1, x2, y2, v)[i] == img[i],
    decreases y2 - y1,
{
    if y2 > y1 {
        if x1 < x2 && y1 < y2 - 1 {
            lemma_offset_mono(w, x2 - 1, y2 - 2, x2 - 1, y2 - 1);
        }
        lemma_fill_rect(img, w, x1, y1, x2, y2 - 1, v);
        let c = fill_rect(img, w, x1, y1, x2, y2 - 1, v);
        let yy = y2 - 1;
        lemma_fill_row(c, w, yy, x1, x2, v);
        let r = fill_rect(img, w, x1, y1, x2, y2, v);
        assert(r == fill_row(c, w, y2 - 1, x1, x2, v));
        assert forall|px: int, py: int| x1 <= px < x2 && y1 <= py < y2 implies #[trigger] r[offset(w, px, py)] == v by {
            let o = offset(w, px, py);
            if py < y2 - 1 {
                assert(c[o] == v);
                if exists|qx: int| x1 <= qx < x2 && #[trigger] offset(w, qx, yy) == o {
                    let qx = choose|qx: int| x1 <= qx < x2 && #[trigger] offset(w, qx, yy) == o;
                    assert(r[offset(w, qx, yy)] == v);
                } else {
                    lemma_offset_mono(w, px, py, x2 - 1, y2 - 1);
                    assert(0 <= w * py) by (nonlinear_arith)
                        requires
                            0 <= w,
                            0 <= py,
                    ;
                    assert(r[o] == c[o]);
                }
            }
        };
        assert forall|i: int|
            0 <= i < img.len() && (forall|qx: int, qy: int|
                x1 <= qx < x2 && y1 <= qy < y2 ==> offset(w, qx, qy) != i) implies #[trigger] r[i] == img[i] by {
            assert(forall|qx: int| x1 <= qx < x2 ==> #[trigger] offset(w, qx, yy) != i);
            assert(forall|qx: int, qy: int| x1 <= qx < x2 && y1 <= qy < yy ==> #[trigger] offset(w, qx, qy) != i);
            assert(r[i] == c[i]);
        };
    }
}

/// A rectangle fill of two planes of one length keeps them equal wherever
/// they were equal, and makes them equal on the rectangle.
pub proof fn lemma_fill_rect_agree(a: Seq<u8>, b: Seq<u8>, w: int, x1: int, y1: int, x2: int, y2: int, v: u8)
    requires
        0 <= w,
        0 <= x1,
        0 <= y1,
        a.len() == b.len(),
        x1 < x2 && y1 < y2 ==> offset(w, x2 - 1, y2 - 1) < a.len(),
    ensures
        forall|i: int|
            0 <= i < a.len() && a[i] == b[i] ==> #[trigger] fill_rect(a, w, x1, y1, x2, y2, v)[i]
                == fill_rect(b, w, x1, y1, x2, y2, v)[i],
{
    lemma_fill_rect(a, w, x1, y1, x2, y2, v);
    lemma_fill_rect(b, w, x1, y1, x2, y2, v);
    assert forall|i: int| 0 <= i < a.len() && a[i] == b[i] implies #[trigger] fill_rect(a, w, x1, y1, x2, y2, v)[i]
        == fill_rect(b, w, x1, y1, x2, y2, v)[i] by {
        if exists|qx: int, qy: int| x1 <= qx < x2 && y1 <= qy < y2 && #[trigger] offset(w, qx, qy) == i {
            let (qx, qy) = choose|qx: int, qy: int| x1 <= qx < x2 && y1 <= qy < y2 && #[trigger] offset(w, qx, qy) == i;
            assert(fill_rect(a, w, x1, y1, x2, y2, v)[offset(w, qx, qy)] == v);
            assert(fill_rect(b, w, x1, y1, x2, y2, v)[offset(w, qx, qy)] == v);
        }
    };
}

/// Painting one code into two planes of one length, from one last colour,
/// keeps them equal wherever they were equal and makes them equal on the
/// whole block.
pub proof fn lemma_render_agree(t: QuadTree, a: Seq<u8>, b: Seq<u8>, w: int, x: int, y: int, n: int, last: u8)
    requires
        is_block_size(n),
        fits(t, n),
        0 <= w,
        0 <= x,
        0 <= y,
        a.len() == b.len(),
        offset(w, x + n - 1, y + n - 1) < a.len(),
    ensures
        render(t, a, w, x, y, n, last).0.len() == a.len(),
        render(t, b, w, x, y, n, last).0.len() == a.len(),
        forall|i: int|
            0 <= i < a.len() && a[i] == b[i] ==> #[trigger] render(t, a, w, x, y, n, last).0[i]
                == render(t, b, w, x, y, n, last).0[i],
        forall|px: int, py: int|
            x <= px < x + n && y <= py < y + n ==> #[trigger] render(t, a, w, x, y, n, last).0[offset(w, px, py)]
                == render(t, b, w, x, y, n, last).0[offset(w, px, py)],
    decreases t,
{
    match t {
        QuadTree::Split(ta, tb, tc, td) => {
            lemma_half_block(n);
            let h = n / 2;
            lemma_offset_mono(w, x + h - 1, y + h - 1, x + n - 1, y + n - 1);
            lemma_offset_mono(w, x + n - 1, y + h - 1, x + n - 1, y + n - 1);
            lemma_offset_mono(w, x + h - 1, y + n - 1, x + n - 1, y + n - 1);
            let r1a = render(*ta, a, w, x, y, h, last);
            let r1b = render(*ta, b, w, x, y, h, last);
            law_render_last(*ta, a, w, x, y, h, last);
            law_render_last(*ta, b, w, x, y, h, last);
            lemma_render_agree(*ta, a, b, w, x, y, h, last);
            let r2a = render(*tb, r1a.0, w, x + h, y, h, r1a.1);
            let r2b = render(*tb, r1b.0, w, x + h, y, h, r1a.1);
            law_render_last(*tb, r1a.0, w, x + h, y, h, r1a.1);
            law_render_last(*tb, r1b.0, w, x + h, y, h, r1a.1);
            lemma_render_agree(*tb, r1a.0, r1b.0, w, x + h, y, h, r1a.1);
            let r3a = render(*tc, r2a.0, w, x, y + h, h, r2a.1);
            let r3b = render(*tc, r2b.0, w, x, y + h, h, r2a.1);
            law_render_last(*tc, r2a.0, w, x, y + h, h, r2a.1);
            law_render_last(*tc, r2b.0, w, x, y + h, h, r2a.1);
            lemma_render_agree(*tc, r2a.0, r2b.0, w, x, y + h, h, r2a.1);
            lemma_render_agree(*td, r3a.0, r3b.0, w, x + h, y + h, h, r3a.1);
            let ra = render(t, a, w, x, y, n, last).0;
            let rb = render(t, b, w, x, y, n, last).0;
            assert(ra == render(*td, r3a.0, w, x + h, y + h, h, r3a.1).0);
            assert(rb == render(*td, r3b.0, w, x + h, y + h, h, r3a.1).0);
            assert forall|px: int, py: int| x <= px < x + n && y <= py < y + n implies #[trigger] ra[offset(w, px, py)]
                == rb[offset(w, px, py)] by {
                let o = offset(w, px, py);
                lemma_offset_mono(w, px, py, x + n - 1, y + n - 1);
                assert(0 <= w * py) by (nonlinear_arith)
                    requires
                        0 <= w,
                        0 <= py,
                ;
                if py < y + h {
                    if px < x + h {
                        assert(r1a.0[o] == r1b.0[o]);
                    } else {
                        assert(r2a.0[o] == r2b.0[o]);
                    }
                    assert(r2a.0[o] == r2b.0[o]);
                    assert(r3a.0[o] == r3b.0[o]);
                } else {
                    if px < x + h {
                        assert(r3a.0[o] == r3b.0[o]);
                    }
                }
            };
        },
        QuadTree::Repeat => {
            lemma_fill_rect(a, w, x, y, x + n, y + n, last);
            lemma_fill_rect(b, w, x, y, x + n, y + n, last);
            lemma_fill_rect_agree(a, b, w, x, y, x + n, y + n, last);
        },
        QuadTree::Colour(c) => {
            lemma_fill_rect(a, w, x, y, x + n, y + n, c);
            lemma_fill_rect(b, w, x, y, x + n, y + n, c);
            lemma_fill_rect_agree(a, b, w, x, y, x + n, y + n, c);
        },
    }
}

/// The decoder reads, for a block size, a code that fits that size.
pub proof fn lemma_parse_fits(bits: Seq<u8>, pos: int, n: int)
    requires
        is_block_size(n),
    ensures
        fits(parse_tree(bits, pos, n).0, n),
    decreases n,
{
    if bits[pos] != 1 && n >= 2 {
        lemma_half_block(n);
        let h = n / 2;
        let r1 = parse_tree(bits, pos + 1, h);
        let r2 = parse_tree(bits, r1.1, h);
        let r3 = parse_tree(bits, r2.1, h);
        lemma_parse_fits(bits, pos + 1, h);
        lemma_parse_fits(bits, r1.1, h);
        lemma_parse_fits(bits, r2.1, h);
        lemma_parse_fits(bits, r3.1, h);
    }
}

/// Two pixels of a plane of row length `w` share an offset only where they
/// are the same pixel.
pub proof fn lemma_offset_injective(w: int, x1: int, y1: int, x2: int, y2: int)
    requires
        0 <= x1 < w,
        0 <= x2 < w,
        offset(w, x1, y1) == offset(w, x2, y2),
    ensures
        x1 == x2,
        y1 == y2,
{
    assert(y1 == y2) by (nonlinear_arith)
        requires
            0 <= x1 < w,
            0 <= x2 < w,
            w * y1 + x1 == w * y2 + x2,
    ;
}

/// Painting a code keeps the length and leaves every index outside its
/// block as it was.
pub proof fn lemma_render_frame(t: QuadTree, img: Seq<u8>, w: int, x: int, y: int, n: int, last: u8)
    requires
        is_block_size(n),
        fits(t, n),
        0 <= w,
        0 <= x,
        0 <= y,
        offset(w, x + n - 1, y + n - 1) < img.len(),
    ensures
        render(t, img, w, x, y, n, last).0.len() == img.len(),
        forall|i: int|
            0 <= i < img.len() && (forall|qx: int, qy: int|
                x <= qx < x + n && y <= qy < y + n ==> #[trigger] offset(w, qx, qy) != i)
                ==> #[trigger] render(t, img, w, x, y, n, last).0[i] == img[i],
    decreases t,
{
    match t {
        QuadTree::Split(ta, tb, tc, td) => {
            lemma_half_block(n);
            let h = n / 2;
            lemma_offset_mono(w, x + h - 1, y + h - 1, x + n - 1, y + n - 1);
            lemma_offset_mono(w, x + n - 1, y + h - 1, x + n - 1, y + n - 1);
            lemma_offset_mono(w, x + h - 1, y + n - 1, x + n - 1, y + n - 1);
            let r1 = render(*ta, img, w, x, y, h, last);
            lemma_render_frame(*ta, img, w, x, y, h, last);
            let r2 = render(*tb, r1.0, w, x + h, y, h, r1.1);
            lemma_render_frame(*tb, r1.0, w, x + h, y, h, r1.1);
            let r3 = render(*tc, r2.0, w, x, y + h, h, r2.1);
            lemma_render_frame(*tc, r2.0, w, x, y + h, h, r2.1);
            lemma_render_frame(*td, r3.0, w, x + h, y + h, h, r3.1);
            let r = render(t, img, w, x, y, n, last).0;
            assert(r == render(*td, r3.0, w, x + h, y + h, h, r3.1).0);
            assert forall|i: int|
                0 <= i < img.len() && (forall|qx: int, qy: int|
                    x <= qx < x + n && y <= qy < y + n ==> #[trigger] offset(w, qx, qy) != i)
                    implies #[trigger] r[i] == img[i] by {
                assert(forall|qx: int, qy: int| x <= qx < x + h && y <= qy < y + h ==> #[trigger] offset(w, qx, qy) != i);
                assert(forall|qx: int, qy: int| x + h <= qx < x + n && y <= qy < y + h ==> #[trigger] offset(w, qx, qy) != i);
                assert(forall|qx: int, qy: int| x <= qx < x + h && y + h <= qy < y + n ==> #[trigger] offset(w, qx, qy) != i);
                assert(forall|qx: int, qy: int| x + h <= qx < x + n && y + h <= qy < y + n ==> #[trigger] offset(w, qx, qy) != i);
            };
        },
        QuadTree::Repeat => {
            lemma_fill_rect(img, w, x, y, x + n, y + n, last);
        },
        QuadTree::Colour(c) => {
            lemma_fill_rect(img, w, x, y, x + n, y + n, c);
        },
    }
}

/// The leaf of the code `t` of the `n x n` block at `(x, y)`, entered with
/// last colour `last`, that covers pixel `(px, py)`: its block's corner and
/// size, the colour it paints, and whether that colour is a new one.
pub open spec fn leaf_at(t: QuadTree, x: int, y: int, n: int, last: int, px: int, py: int) -> (int, int, int, int, bool)
    decreases t,
{
    match t {
        QuadTree::Repeat => (x, y, n, last, false),
        QuadTree::Colour(c) => (x, y, n, c as int, true),
        QuadTree::Split(a, b, c, d) => {
            let h = n / 2;
            let l1 = last_after(*a, last);
            let l2 = last_after(*b, l1);
            let l3 = last_after(*c, l2);
            if py < y + h {
                if px < x + h {
                    leaf_at(*a, x, y, h, last, px, py)
                } else {
                    leaf_at(*b, x + h, y, h, l1, px, py)
                }
            } else {
                if px < x + h {
                    leaf_at(*c, x, y + h, h, l2, px, py)
                } else {
                    leaf_at(*d, x + h, y + h, h, l3, px, py)
                }
            }
        },
    }
}

/// A leaf `(x, y, n, colour, fresh)` stands for its block's pixels in
/// `img`: a new colour is the floor of their average, a repeated colour
/// lies within 4 of their average.
pub open spec fn leaf_ok(img: Seq<u8>, w: int, leaf: (int, int, int, int, bool)) -> bool {
    let (x, y, n, colour, fresh) = leaf;
    let sum = seq_sum(rect_pixels(img, w, x, y, x + n, y + n));
    let area = n * n;
    if fresh {
        colour == sum / area
    } else {
        abs(colour * area - sum) <= 4 * area
    }
}

/// The leaf that covers a pixel of a block covers it, and where every leaf
/// of the code stands for its block, so does that one.
pub proof fn lemma_leaf_at(t: QuadTree, img: Seq<u8>, w: int, x: int, y: int, n: int, last: int, px: int, py: int)
    requires
        is_block_size(n),
        fits(t, n),
        x <= px < x + n,
        y <= py < y + n,
    ensures
        ({
            let l = leaf_at(t, x, y, n, last, px, py);
            &&& x <= l.0 <= px < l.0 + l.2 <= x + n
            &&& y <= l.1 <= py < l.1 + l.2 <= y + n
            &&& leaves_near_mean(t, img, w, x, y, n, last) ==> leaf_ok(img, w, l)
        }),
    decreases t,
{
    match t {
        QuadTree::Split(a, b, c, d) => {
            lemma_half_block(n);
            let h = n / 2;
            let l1 = last_after(*a, last);
            let l2 = last_after(*b, l1);
            let l3 = last_after(*c, l2);
            if py < y + h {
                if px < x + h {
                    lemma_leaf_at(*a, img, w, x, y, h, last, px, py);
                } else {
                    lemma_leaf_at(*b, img, w, x + h, y, h, l1, px, py);
                }
            } else {
                if px < x + h {
                    lemma_leaf_at(*c, img, w, x, y + h, h, l2, px, py);
                } else {
                    lemma_leaf_at(*d, img, w, x + h, y + h, h, l3, px, py);
                }
            }
        },
        _ => {},
    }
}

/// Where a block lies within its rows, painting its code leaves each of its
/// pixels with the colour of the leaf that covers it.
pub proof fn lemma_render_pixel(t: QuadTree, img: Seq<u8>, w: int, x: int, y: int, n: int, last: u8, px: int, py: int)
    requires
        is_block_size(n),
        fits(t, n),
        0 <= x,
        0 <= y,
        x + n <= w,
        offset(w, x + n - 1, y + n - 1) < img.len(),
        x <= px < x + n,
        y <= py < y + n,
    ensures
        render(t, img, w, x, y, n, last).0[offset(w, px, py)] == leaf_at(t, x, y, n, last as int, px, py).3,
    decreases t,
{
    match t {
        QuadTree::Split(ta, tb, tc, td) => {
            lemma_half_block(n);
            let h = n / 2;
            lemma_offset_mono(w, x + h - 1, y + h - 1, x + n - 1, y + n - 1);
            lemma_offset_mono(w, x + n - 1, y + h - 1, x + n - 1, y + n - 1);
            lemma_offset_mono(w, x + h - 1, y + n - 1, x + n - 1, y + n - 1);
            let o = offset(w, px, py);
            lemma_offset_mono(w, px, py, x + n - 1, y + n - 1);
            assert(0 <= w * py) by (nonlinear_arith)
                requires
                    0 <= w,
                    0 <= py,
            ;
            let r1 = render(*ta, img, w, x, y, h, last);
            let r2 = render(*tb, r1.0, w, x + h, y, h, r1.1);
            let r3 = render(*tc, r2.0, w, x, y + h, h, r2.1);
            let r4 = render(*td, r3.0, w, x + h, y + h, h, r3.1);
            law_render_last(*ta, img, w, x, y, h, last);
            law_render_last(*tb, r1.0, w, x + h, y, h, r1.1);
            law_render_last(*tc, r2.0, w, x, y + h, h, r2.1);
            lemma_render_frame(*ta, img, w, x, y, h, last);
            lemma_render_frame(*tb, r1.0, w, x + h, y, h, r1.1);
            lemma_render_frame(*tc, r2.0, w, x, y + h, h, r2.1);
            lemma_render_frame(*td, r3.0, w, x + h, y + h, h, r3.1);
            assert(render(t, img, w, x, y, n, last).0 == r4.0);
            // a quadrant other than the pixel's does not write the pixel
            assert forall|qx: int, qy: int|
                x <= qx < x + n && y <= qy < y + n && !(qx == px && qy == py) implies #[trigger] offset(w, qx, qy) != o by {
                if offset(w, qx, qy) == o {
                    lemma_offset_injective(w, qx, qy, px, py);
                }
            };
            if py < y + h {
                if px < x + h {
                    lemma_render_pixel(*ta, img, w, x, y, h, last, px, py);
                    assert(r2.0[o] == r1.0[o]);
                    assert(r3.0[o] == r2.0[o]);
                    assert(r4.0[o] == r3.0[o]);
                } else {
                    lemma_render_pixel(*tb, r1.0, w, x + h, y, h, r1.1, px, py);
                    assert(r3.0[o] == r2.0[o]);
                    assert(r4.0[o] == r3.0[o]);
                }
            } else {
                if px < x + h {
                    lemma_render_pixel(*tc, r2.0, w, x, y + h, h, r2.1, px, py);
                    assert(r4.0[o] == r3.0[o]);
                } else {
                    lemma_render_pixel(*td, r3.0, w, x + h, y + h, h, r3.1, px, py);
                }
            }
        },
        QuadTree::Repeat => {
            lemma_fill_rect(img, w, x, y, x + n, y + n, last);
        },
        QuadTree::Colour(c) => {
            lemma_fill_rect(img, w, x, y, x + n, y + n, c);
        },
    }
}

/// The pixel at column `px` of a row segment stands at `px - x1`.
proof fn lemma_row_index(img: Seq<u8>, w: int, y: int, x1: int, x2: int, px: int)
    requires
        x1 <= px < x2,
    ensures
        row_pixels(img, w, y, x1, x2).len() == x2 - x1,
        row_pixels(img, w, y, x1, x2)[px - x1] == img[offset(w, px, y)],
    decreases x2 - x1,
{
    lemma_row_len(img, w, y, x1, x2);
    if px < x2 - 1 {
        lemma_row_index(img, w, y, x1, x2 - 1, px);
    }
}

/// Every value of a row segment is one of its pixels.
proof fn lemma_row_elem(img: Seq<u8>, w: int, y: int, x1: int, x2: int, k: int)
    requires
        x1 <= x2,
        0 <= k < x2 - x1,
    ensures
        row_pixels(img, w, y, x1, x2)[k] == img[offset(w, x1 + k, y)],
{
    lemma_row_index(img, w, y, x1, x2, x1 + k);
}

/// The pixel `(px, py)` of a rectangle stands at row `py - y1` of it.
proof fn lemma_rect_index(img: Seq<u8>, w: int, x1: int, y1: int, x2: int, y2: int, px: int, py: int)
    requires
        x1 <= px < x2,
        y1 <= py < y2,
    ensures
        0 <= (py - y1) * (x2 - x1) + (px - x1) < rect_pixels(img, w, x1, y1, x2, y2).len(),
        rect_pixels(img, w, x1, y1, x2, y2)[(py - y1) * (x2 - x1) + (px - x1)] == img[offset(w, px, py)],
    decreases y2 - y1,
{
    lemma_rect_len(img, w, x1, y1, x2, y2);
    lemma_rect_len(img, w, x1, y1, x2, y2 - 1);
    let prev = rect_pixels(img, w, x1, y1, x2, y2 - 1);
    let row = row_pixels(img, w, y2 - 1, x1, x2);
    lemma_row_len(img, w, y2 - 1, x1, x2);
    assert(rect_pixels(img, w, x1, y1, x2, y2) == prev + row);
    let k = (py - y1) * (x2 - x1) + (px - x1);
    assert(0 <= (py - y1) * (x2 - x1)) by (nonlinear_arith)
        requires
            y1 <= py,
            x1 < x2,
    ;
    assert(k < (y2 - y1) * (x2 - x1)) by (nonlinear_arith)
        requires
            k == (py - y1) * (x2 - x1) + (px - x1),
            px < x2,
            py < y2,
            x1 <= px,
    ;
    if py < y2 - 1 {
        lemma_rect_index(img, w, x1, y1, x2, y2 - 1, px, py);
    } else {
        assert(prev.len() == (py - y1) * (x2 - x1));
        lemma_row_index(img, w, y2 - 1, x1, x2, px);
    }
}

/// Every value of a rectangle is one of its pixels.
proof fn lemma_rect_elem(img: Seq<u8>, w: int, x1: int, y1: int, x2: int, y2: int, k: int)
    requires
        x1 <= x2,
        y1 <= y2,
        0 <= k < rect_pixels(img, w, x1, y1, x2, y2).len(),
    ensures
        exists|px: int, py: int|
            x1 <= px < x2 && y1 <= py < y2 && rect_pixels(img, w, x1, y1, x2, y2)[k] == #[trigger] img[offset(w, px, py)],
    decreases y2 - y1,
{
    lemma_rect_len(img, w, x1, y1, x2, y2);
    if y2 > y1 {
        lemma_rect_len(img, w, x1, y1, x2, y2 - 1);
        let prev = rect_pixels(img, w, x1, y1, x2, y2 - 1);
        let row = row_pixels(img, w, y2 - 1, x1, x2);
        lemma_row_len(img, w, y2 - 1, x1, x2);
        assert(rect_pixels(img, w, x1, y1, x2, y2) == prev + row);
        if k < prev.len() {
            lemma_rect_elem(img, w, x1, y1, x2, y2 - 1, k);
        } else {
            lemma_row_elem(img, w, y2 - 1, x1, x2, k - prev.len());
            assert(img[offset(w, x1 + (k - prev.len()), y2 - 1)] == rect_pixels(img, w, x1, y1, x2, y2)[k]);
        }
    } else {
        assert((y2 - y1) * (x2 - x1) == 0) by (nonlinear_arith)
            requires
                y2 == y1,
        ;
    }
}

/// The largest and smallest values bound every value and the start value,
/// and each is the start value or one of the values.
proof fn lemma_seq_min_max(m: int, s: Seq<u8>)
    ensures
        seq_max(m, s) >= m,
        seq_min(m, s) <= m,
        forall|i: int| 0 <= i < s.len() ==> seq_min(m, s) <= #[trigger] s[i] <= seq_max(m, s),
        seq_max(m, s) == m || exists|i: int| 0 <= i < s.len() && #[trigger] s[i] == seq_max(m, s),
        seq_min(m, s) == m || exists|i: int| 0 <= i < s.len() && #[trigger] s[i] == seq_min(m, s),
    decreases s.len(),
{
    if s.len() > 0 {
        let t = s.drop_last();
        lemma_seq_min_max(m, t);
        assert forall|i: int| 0 <= i < s.len() implies seq_min(m, s) <= #[trigger] s[i] <= seq_max(m, s) by {
            if i < t.len() {
                assert(s[i] == t[i]);
            }
        };
        if seq_max(m, t) != m && seq_max(m, s) == seq_max(m, t) {
            let i = choose|i: int| 0 <= i < t.len() && #[trigger] t[i] == seq_max(m, t);
            assert(s[i] == t[i]);
        }
        if seq_min(m, t) != m && seq_min(m, s) == seq_min(m, t) {
            let i = choose|i: int| 0 <= i < t.len() && #[trigger] t[i] == seq_min(m, t);
            assert(s[i] == t[i]);
        }
    }
}

/// The encoder takes a block of more than one pixel as a leaf exactly when
/// its pixels are close: where some two pixels of the block, in any of its
/// rows and columns, differ by `d` with `d * n` above `min_max_dist *
/// (depth + 1) * depth_compression_level`, the block is split and its code
/// starts with a `0`; where no two do, the block is a leaf.
pub proof fn law_leaf_iff_close(
    img: Seq<u8>,
    w: int,
    n: int,
    min_max_dist: int,
    depth_compression_level: int,
    depth: int,
    x: int,
    y: int,
    last: int,
    count: int,
)
    requires
        is_block_size(n),
        n >= 2,
    ensures
        (exists|px1: int, py1: int, px2: int, py2: int|
            #![trigger img[offset(w, px1, py1)], img[offset(w, px2, py2)]]
            x <= px1 < x + n && y <= py1 < y + n && x <= px2 < x + n && y <= py2 < y + n && (img[offset(w, px1, py1)]
                - img[offset(w, px2, py2)]) * n > min_max_dist * (depth + 1) * depth_compression_level) ==> {
            let t = build(img, w, n, min_max_dist, depth_compression_level, depth, x, y, last, count).0;
            &&& t is Split
            &&& tree_bits(t)[0] == 0
        },
        (forall|px1: int, py1: int, px2: int, py2: int|
            #![trigger img[offset(w, px1, py1)], img[offset(w, px2, py2)]]
            x <= px1 < x + n && y <= py1 < y + n && x <= px2 < x + n && y <= py2 < y + n ==> (img[offset(w, px1, py1)]
                - img[offset(w, px2, py2)]) * n <= min_max_dist * (depth + 1) * depth_compression_level) ==> !(build(
            img,
            w,
            n,
            min_max_dist,
            depth_compression_level,
            depth,
            x,
            y,
            last,
            count,
        ).0 is Split),
{
    let pixels = rect_pixels(img, w, x, y, x + n, y + n);
    let corner = img[offset(w, x, y)];
    let bound = min_max_dist * (depth + 1) * depth_compression_level;
    lemma_seq_min_max(corner as int, pixels);
    lemma_rect_len(img, w, x, y, x + n, y + n);
    let hi = seq_max(corner as int, pixels);
    let lo = seq_min(corner as int, pixels);
    if exists|px1: int, py1: int, px2: int, py2: int|
        #![trigger img[offset(w, px1, py1)], img[offset(w, px2, py2)]]
        x <= px1 < x + n && y <= py1 < y + n && x <= px2 < x + n && y <= py2 < y + n && (img[offset(w, px1, py1)]
            - img[offset(w, px2, py2)]) * n > bound {
        let (px1, py1, px2, py2) = choose|px1: int, py1: int, px2: int, py2: int|
            #![trigger img[offset(w, px1, py1)], img[offset(w, px2, py2)]]
            x <= px1 < x + n && y <= py1 < y + n && x <= px2 < x + n && y <= py2 < y + n && (img[offset(w, px1, py1)]
                - img[offset(w, px2, py2)]) * n > bound;
        lemma_rect_index(img, w, x, y, x + n, y + n, px1, py1);
        lemma_rect_index(img, w, x, y, x + n, y + n, px2, py2);
        let a = img[offset(w, px1, py1)] as int;
        let b = img[offset(w, px2, py2)] as int;
        assert(a <= hi && lo <= b);
        assert((hi - lo) * n >= (a - b) * n) by (nonlinear_arith)
            requires
                a <= hi,
                lo <= b,
                n >= 0,
        ;
        assert(!is_flat(img, w, n, min_max_dist, depth_compression_level, depth, x, y));
    }
    if forall|px1: int, py1: int, px2: int, py2: int|
        #![trigger img[offset(w, px1, py1)], img[offset(w, px2, py2)]]
        x <= px1 < x + n && y <= py1 < y + n && x <= px2 < x + n && y <= py2 < y + n ==> (img[offset(w, px1, py1)]
            - img[offset(w, px2, py2)]) * n <= bound {
        // the largest and the smallest value are each a pixel of the block
        let (hx, hy) = if hi == corner as int {
            (x, y)
        } else {
            let i = choose|i: int| 0 <= i < pixels.len() && #[trigger] pixels[i] == hi;
            lemma_rect_elem(img, w, x, y, x + n, y + n, i);
            choose|qx: int, qy: int| x <= qx < x + n && y <= qy < y + n && pixels[i] == #[trigger] img[offset(w, qx, qy)]
        };
        let (lx, ly) = if lo == corner as int {
            (x, y)
        } else {
            let i = choose|i: int| 0 <= i < pixels.len() && #[trigger] pixels[i] == lo;
            lemma_rect_elem(img, w, x, y, x + n, y + n, i);
            choose|qx: int, qy: int| x <= qx < x + n && y <= qy < y + n && pixels[i] == #[trigger] img[offset(w, qx, qy)]
        };
        assert(img[offset(w, hx, hy)] == hi);
        assert(img[offset(w, lx, ly)] == lo);
        assert((img[offset(w, hx, hy)] - img[offset(w, lx, ly)]) * n <= bound);
        assert(is_flat(img, w, n, min_max_dist, depth_compression_level, depth, x, y));
    }
}

} // verus!
