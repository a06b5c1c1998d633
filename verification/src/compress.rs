//! The encoder: splits each block of a plane into a quadtree of flat
//! blocks and writes the tree's bits.

use vstd::prelude::*;
use crate::bitwriter::{BitWriter, Functions, written, has_room, lemma_room, lemma_writer_wf, shape, after_appends, lemma_after_appends};
use crate::plane::{plane_fits, padded, row_bits_from, plane_bits_from, plane_bits, lemma_block_origin};
use crate::quadtree::{
    QuadTree, is_block_size, levels, offset, row_pixels, rect_pixels, seq_min, seq_max, seq_sum,
    abs, is_flat, build, tree_bits, lemma_offset_mono, lemma_block_average, lemma_half_block,
    lemma_build, lemma_max_bits,
};

verus! {

/// Offset of pixel `(x, y)` in a plane whose rows are `width` pixels long.
pub fn return_index_from_xy(width: u16, x: u16, y: u16) -> (i: usize)
    ensures
        i == offset(width as int, x as int, y as int),
{
    let width = width as usize;
    let x = x as usize;
    let y = y as usize;
    assert(width * y <= 65535 * 65535) by (nonlinear_arith)
        requires
            width <= 65535,
            y <= 65535,
    ;
    width * y + x
}

/// The encoder's choice for a block, for the arguments of
/// `recursive_block_compression`.
pub open spec fn block_code(
    img: Seq<u8>,
    block: u8,
    min_max_dist: u8,
    depth_compression_level: u8,
    last_pixel: i16,
    count: u8,
    depth: u8,
    x1: u16,
    y1: u16,
    width: u16,
) -> (QuadTree, int, int) {
    build(
        img,
        width as int,
        block as int,
        min_max_dist as int,
        depth_compression_level as int,
        depth as int,
        x1 as int,
        y1 as int,
        last_pixel as int,
        count as int,
    )
}

#[verifier::rlimit(60)]
/// Encodes the `block x block` square at `(x1, y1)`: a flat square is a
/// leaf (`1`, then `1` to repeat the last colour or `0` and the average),
/// any other square is split into four quarters (`0`, then the quarters).
pub fn recursive_block_compression(
    yuv_array: &Vec<u8>,
    block: u8,
    min_max_dist: u8,
    depth_compression_level: u8,
    last_pixel: &mut i16,
    last_pixel_color_limit_count: &mut u8,
    depth: u8,
    x1: u16,
    y1: u16,
    x2: u16,
    y2: u16,
    width: u16,
    writer: &mut BitWriter,
)
    requires
        is_block_size(block as int),
        x2 == x1 + block,
        y2 == y1 + block,
        offset(width as int, x2 - 1, y2 - 1) < yuv_array@.len(),
        depth + levels(block as int) <= 255,
        old(writer).wf(),
        has_room(
            old(writer),
            tree_bits(
                block_code(
                    yuv_array@,
                    block,
                    min_max_dist,
                    depth_compression_level,
                    *old(last_pixel),
                    *old(last_pixel_color_limit_count),
                    depth,
                    x1,
                    y1,
                    width,
                ).0,
            ).len() as int,
        ),
    ensures
        ({
            let r = block_code(
                yuv_array@,
                block,
                min_max_dist,
                depth_compression_level,
                *old(last_pixel),
                *old(last_pixel_color_limit_count),
                depth,
                x1,
                y1,
                width,
            );
            &&& final(writer).wf()
            &&& written(final(writer)) == written(old(writer)) + tree_bits(r.0)
            &&& shape(final(writer)) == after_appends(shape(old(writer)), tree_bits(r.0).len())
            &&& *final(last_pixel) == r.1
            &&& *final(last_pixel_color_limit_count) == r.2
        }),
    decreases block,
{
    let ghost img = yuv_array@;
    let ghost w = width as int;
    let ghost n = block as int;
    let ghost r = block_code(
        img,
        block,
        min_max_dist,
        depth_compression_level,
        *last_pixel,
        *last_pixel_color_limit_count,
        depth,
        x1,
        y1,
        width,
    );
    let ghost start = written(writer);
    let ghost s0 = shape(writer);
    proof {
        lemma_build(img, w, n, min_max_dist as int, depth_compression_level as int, depth as int,
            x1 as int, y1 as int, *last_pixel as int, *last_pixel_color_limit_count as int);
        lemma_offset_mono(w, x1 as int, y1 as int, x2 - 1, y2 - 1);
    }
    // minimum and maximum of the block
    let first: u8 = yuv_array[return_index_from_xy(width, x1, y1)];
    let mut min: u8 = first;
    let mut max: u8 = first;
    let mut y: u16 = y1;
    while y < y2
        invariant
            y1 <= y <= y2,
            x2 == x1 + n,
            y2 == y1 + n,
            n >= 1,
            img == yuv_array@,
            w == width,
            offset(w, x2 - 1, y2 - 1) < img.len(),
            min <= first <= max,
            first == img[offset(w, x1 as int, y1 as int)],
            min == seq_min(first as int, rect_pixels(img, w, x1 as int, y1 as int, x2 as int, y as int)),
            max == seq_max(first as int, rect_pixels(img, w, x1 as int, y1 as int, x2 as int, y as int)),
        decreases y2 - y,
    {
        let ghost rect = rect_pixels(img, w, x1 as int, y1 as int, x2 as int, y as int);
        let mut x: u16 = x1;
        while x < x2
            invariant
                y1 <= y < y2,
                x1 <= x <= x2,
                x2 == x1 + n,
                y2 == y1 + n,
                img == yuv_array@,
                w == width,
                offset(w, x2 - 1, y2 - 1) < img.len(),
                rect == rect_pixels(img, w, x1 as int, y1 as int, x2 as int, y as int),
                min <= first <= max,
                min == seq_min(first as int, rect + row_pixels(img, w, y as int, x1 as int, x as int)),
                max == seq_max(first as int, rect + row_pixels(img, w, y as int, x1 as int, x as int)),
            decreases x2 - x,
        {
            proof {
                lemma_offset_mono(w, x as int, y as int, x2 - 1, y2 - 1);
            }
            let pixel: u8 = yuv_array[return_index_from_xy(width, x, y)];
            let ghost s = rect + row_pixels(img, w, y as int, x1 as int, x as int);
            proof {
                assert(row_pixels(img, w, y as int, x1 as int, x + 1) == row_pixels(img, w, y as int, x1 as int, x as int).push(pixel));
                assert(rect + row_pixels(img, w, y as int, x1 as int, x + 1) =~= s.push(pixel));
                assert(s.push(pixel).drop_last() =~= s);
            }
            if pixel < min {
                min = pixel;
            }
            if pixel > max {
                max = pixel;
            }
            x += 1;
        }
        proof {
            assert(rect_pixels(img, w, x1 as int, y1 as int, x2 as int, y + 1) == rect + row_pixels(img, w, y as int, x1 as int, x2 as int));
        }
        y += 1;
    }
    let dist: u8 = max - min;
    assert(dist as u32 * block as u32 <= 255 * 128) by (nonlinear_arith)
        requires
            dist <= 255,
            block <= 128,
    ;
    assert((min_max_dist as u32) * (depth as u32 + 1) <= 255 * 256) by (nonlinear_arith)
        requires
            min_max_dist <= 255,
            depth <= 255,
    ;
    assert((min_max_dist as u32) * (depth as u32 + 1) * (depth_compression_level as u32) <= 255 * 256 * 255) by (nonlinear_arith)
        requires
            (min_max_dist as u32) * (depth as u32 + 1) <= 255 * 256,
            depth_compression_level <= 255,
    ;
    if block == 1 || (dist as u32) * (block as u32) <= (min_max_dist as u32) * (depth as u32 + 1)
        * (depth_compression_level as u32) {
        // a leaf
        assert(is_flat(img, w, n, min_max_dist as int, depth_compression_level as int, depth as int, x1 as int, y1 as int));
        proof {
            lemma_room(writer, tree_bits(r.0).len() as int);
        }
        writer.append_bit(1);
        // the sum of the block
        let mut sum: u32 = 0;
        let mut y: u16 = y1;
        while y < y2
            invariant
                y1 <= y <= y2,
                x2 == x1 + n,
                y2 == y1 + n,
                1 <= n <= 128,
                img == yuv_array@,
                w == width,
                offset(w, x2 - 1, y2 - 1) < img.len(),
                sum == seq_sum(rect_pixels(img, w, x1 as int, y1 as int, x2 as int, y as int)),
                sum <= 32640 * (y - y1),
            decreases y2 - y,
        {
            let ghost rect = rect_pixels(img, w, x1 as int, y1 as int, x2 as int, y as int);
            let mut x: u16 = x1;
            while x < x2
                invariant
                    y1 <= y < y2,
                    x1 <= x <= x2,
                    x2 == x1 + n,
                    y2 == y1 + n,
                    1 <= n <= 128,
                    img == yuv_array@,
                    w == width,
                    offset(w, x2 - 1, y2 - 1) < img.len(),
                    rect == rect_pixels(img, w, x1 as int, y1 as int, x2 as int, y as int),
                    sum == seq_sum(rect + row_pixels(img, w, y as int, x1 as int, x as int)),
                    sum <= 32640 * (y - y1) + 255 * (x - x1),
                decreases x2 - x,
            {
                proof {
                    lemma_offset_mono(w, x as int, y as int, x2 - 1, y2 - 1);
                }
                let pixel: u8 = yuv_array[return_index_from_xy(width, x, y)];
                let ghost s = rect + row_pixels(img, w, y as int, x1 as int, x as int);
                proof {
                    assert(row_pixels(img, w, y as int, x1 as int, x + 1) == row_pixels(img, w, y as int, x1 as int, x as int).push(pixel));
                    assert(rect + row_pixels(img, w, y as int, x1 as int, x + 1) =~= s.push(pixel));
                    assert(s.push(pixel).drop_last() =~= s);
                }
                sum += pixel as u32;
                x += 1;
            }
            proof {
                assert(rect_pixels(img, w, x1 as int, y1 as int, x2 as int, y + 1) == rect + row_pixels(img, w, y as int, x1 as int, x2 as int));
            }
            y += 1;
        }
        assert((block as u32) * (block as u32) <= 16384) by (nonlinear_arith)
            requires
                block <= 128,
        ;
        let area: u32 = (block as u32) * (block as u32);
        proof {
            lemma_block_average(img, w, n, x1 as int, y1 as int);
            assert(area == n * n);
            assert(1 <= area <= 16384) by (nonlinear_arith)
                requires
                    area == n * n,
                    1 <= n <= 128,
            ;
        }
        let average: u32 = sum / area;
        let lp: i64 = *last_pixel as i64;
        assert(-32768 * 16384 <= lp * (area as i64) <= 32767 * 16384) by (nonlinear_arith)
            requires
                -32768 <= lp <= 32767,
                1 <= area <= 16384,
        ;
        let diff: i64 = lp * (area as i64) - (sum as i64);
        let bound: i64 = 4 * (area as i64);
        if diff <= bound && -diff <= bound && *last_pixel_color_limit_count < 4 {
            // the same colour as the last leaf
            proof {
                assert(abs(lp * area - sum) <= 4 * area);
                lemma_room(writer, tree_bits(r.0).len() - 1);
            }
            writer.append_bit(1);
            *last_pixel_color_limit_count += 1;
            assert(written(writer) =~= start + tree_bits(r.0));
            assert(shape(writer) == after_appends(s0, 2)) by {
                reveal_with_fuel(after_appends, 3);
            };
            return;
        }
        // a new colour
        proof {
            assert(r.0 == QuadTree::Colour(average as u8));
            lemma_room(writer, tree_bits(r.0).len() - 1);
        }
        writer.append_bit(0);
        proof {
            lemma_room(writer, tree_bits(r.0).len() - 2);
        }
        assert(shape(writer) == after_appends(s0, 2)) by {
            reveal_with_fuel(after_appends, 3);
        };
        writer.append_byte_unalinged(average as u8);
        *last_pixel_color_limit_count = 0;
        *last_pixel = average as i16;
        assert(written(writer) =~= start + tree_bits(r.0));
        proof {
            lemma_after_appends(s0, 2, 8);
        }
        return;
    }
    // a node: split into four quarters
    proof {
        lemma_half_block(n);
        lemma_room(writer, tree_bits(r.0).len() as int);
    }
    let half: u8 = block / 2;
    let h: u16 = half as u16;
    writer.append_bit(0);
    let ghost h_ = h as int;
    let ghost r1 = build(img, w, h_, min_max_dist as int, depth_compression_level as int, depth + 1, x1 as int, y1 as int, *old(last_pixel) as int, *old(last_pixel_color_limit_count) as int);
    let ghost r2 = build(img, w, h_, min_max_dist as int, depth_compression_level as int, depth + 1, x1 + h_, y1 as int, r1.1, r1.2);
    let ghost r3 = build(img, w, h_, min_max_dist as int, depth_compression_level as int, depth + 1, x1 as int, y1 + h_, r2.1, r2.2);
    let ghost r4 = build(img, w, h_, min_max_dist as int, depth_compression_level as int, depth + 1, x1 + h_, y1 + h_, r3.1, r3.2);
    assert(tree_bits(r.0) == seq![0u8] + tree_bits(r1.0) + tree_bits(r2.0) + tree_bits(r3.0) + tree_bits(r4.0));
    proof {
        lemma_offset_mono(w, x1 + h_ - 1, y1 + h_ - 1, x2 - 1, y2 - 1);
        lemma_offset_mono(w, x2 - 1, y1 + h_ - 1, x2 - 1, y2 - 1);
        lemma_offset_mono(w, x1 + h_ - 1, y2 - 1, x2 - 1, y2 - 1);
    }
    assert(shape(writer) == after_appends(s0, 1)) by {
        reveal_with_fuel(after_appends, 2);
    };
    recursive_block_compression(yuv_array, half, min_max_dist, depth_compression_level, last_pixel,
        last_pixel_color_limit_count, depth + 1, x1, y1, x1 + h, y1 + h, width, writer);
    assert(*last_pixel == r1.1 && *last_pixel_color_limit_count == r1.2);
    let ghost a1 = 1 + tree_bits(r1.0).len();
    proof {
        lemma_after_appends(s0, 1, tree_bits(r1.0).len());
    }
    recursive_block_compression(yuv_array, half, min_max_dist, depth_compression_level, last_pixel,
        last_pixel_color_limit_count, depth + 1, x1 + h, y1, x2, y1 + h, width, writer);
    let ghost a2 = a1 + tree_bits(r2.0).len();
    proof {
        lemma_after_appends(s0, a1, tree_bits(r2.0).len());
    }
    recursive_block_compression(yuv_array, half, min_max_dist, depth_compression_level, last_pixel,
        last_pixel_color_limit_count, depth + 1, x1, y1 + h, x1 + h, y2, width, writer);
    let ghost a3 = a2 + tree_bits(r3.0).len();
    proof {
        lemma_after_appends(s0, a2, tree_bits(r3.0).len());
    }
    recursive_block_compression(yuv_array, half, min_max_dist, depth_compression_level, last_pixel,
        last_pixel_color_limit_count, depth + 1, x1 + h, y1 + h, x2, y2, width, writer);
    proof {
        lemma_after_appends(s0, a3, tree_bits(r4.0).len());
    }
    assert(written(writer) =~= start + tree_bits(r.0));
}

/// Encodes a `width x height` plane block by block, row after row; each
/// block starts from last colour 255 and repeat count 0.
pub fn compress(
    yuv_array: &Vec<u8>,
    width: u16,
    height: u16,
    min_max_dist: u8,
    depth_compression_level: u8,
    block: u8,
    writer: &mut BitWriter,
)
    requires
        is_block_size(block as int),
        plane_fits(yuv_array@.len() as int, width as int, height as int, block as int),
        old(writer).wf(),
        has_room(
            old(writer),
            plane_bits(
                yuv_array@,
                width as int,
                height as int,
                block as int,
                min_max_dist as int,
                depth_compression_level as int,
            ).len() as int,
        ),
    ensures
        final(writer).wf(),
        written(final(writer)) == written(old(writer)) + plane_bits(
            yuv_array@,
            width as int,
            height as int,
            block as int,
            min_max_dist as int,
            depth_compression_level as int,
        ),
        shape(final(writer)) == after_appends(
            shape(old(writer)),
            plane_bits(
                yuv_array@,
                width as int,
                height as int,
                block as int,
                min_max_dist as int,
                depth_compression_level as int,
            ).len(),
        ),
{
    let ghost img = yuv_array@;
    let ghost w = width as int;
    let ghost hh = height as int;
    let ghost n = block as int;
    let ghost mmd = min_max_dist as int;
    let ghost dcl = depth_compression_level as int;
    let ghost start = written(writer);
    let ghost s0 = shape(writer);
    let ghost total = plane_bits(img, w, hh, n, mmd, dcl);
    proof {
        lemma_max_bits(n);
    }
    let b: u32 = block as u32;
    let mut y: u32 = 0;
    while y < height as u32
        invariant
            is_block_size(n),
            n == b,
            n == block,
            y <= hh + n,
            img == yuv_array@,
            w == width,
            hh == height,
            mmd == min_max_dist,
            dcl == depth_compression_level,
            plane_fits(img.len() as int, w, hh, n),
            (y as int) % n == 0,
            writer.wf(),
            written(writer) + plane_bits_from(img, w, hh, n, mmd, dcl, y as int) == start + total,
            shape(writer) == after_appends(s0, (total.len() - plane_bits_from(img, w, hh, n, mmd, dcl, y as int).len()) as nat),
            s0 == shape(old(writer)),
            start == written(old(writer)),
            plane_bits_from(img, w, hh, n, mmd, dcl, y as int).len() <= total.len(),
            has_room(writer, plane_bits_from(img, w, hh, n, mmd, dcl, y as int).len() as int),
        decreases hh - y + n,
    {
        proof {
            lemma_block_origin(hh, n, y as int);
        }
        let ghost rest = plane_bits_from(img, w, hh, n, mmd, dcl, y + n);
        let mut x: u32 = 0;
        while x < width as u32
            invariant
                is_block_size(n),
                n == b,
                n == block,
                x <= w + n,
                img == yuv_array@,
                w == width,
                hh == height,
                mmd == min_max_dist,
                dcl == depth_compression_level,
                plane_fits(img.len() as int, w, hh, n),
                y < hh,
                y + n <= padded(hh, n),
                (x as int) % n == 0,
                writer.wf(),
                rest == plane_bits_from(img, w, hh, n, mmd, dcl, y + n),
                written(writer) + row_bits_from(img, w, n, mmd, dcl, y as int, x as int) + rest
                    == start + total,
                shape(writer) == after_appends(s0, (total.len() - (row_bits_from(img, w, n, mmd, dcl, y as int, x as int) + rest).len()) as nat),
                s0 == shape(old(writer)),
                start == written(old(writer)),
                (row_bits_from(img, w, n, mmd, dcl, y as int, x as int) + rest).len() <= total.len(),
                has_room(writer, (row_bits_from(img, w, n, mmd, dcl, y as int, x as int) + rest).len() as int),
            decreases w - x + n,
        {
            proof {
                lemma_block_origin(w, n, x as int);
                lemma_max_bits(n);
                lemma_offset_mono(w, x + n - 1, y + n - 1, padded(w, n) - 1, padded(hh, n) - 1);
            }
            let mut last_pixel: i16 = 255;
            let mut last_pixel_color_limit_count: u8 = 0;
            let ghost tile = tree_bits(build(img, w, n, mmd, dcl, 0, x as int, y as int, 255, 0).0);
            let ghost more = row_bits_from(img, w, n, mmd, dcl, y as int, x + n);
            assert(row_bits_from(img, w, n, mmd, dcl, y as int, x as int) == tile + more);
            assert((tile + more + rest).len() == tile.len() + (more + rest).len());
            let ghost done = (total.len() - (tile + more + rest).len()) as nat;
            recursive_block_compression(
                yuv_array,
                block,
                min_max_dist,
                depth_compression_level,
                &mut last_pixel,
                &mut last_pixel_color_limit_count,
                0,
                x as u16,
                y as u16,
                (x + b) as u16,
                (y + b) as u16,
                width,
                writer,
            );
            assert(written(writer) + more + rest =~= start + total);
            proof {
                lemma_after_appends(s0, done, tile.len());
                lemma_writer_wf(writer);
            }
            x = x + b;
        }
        assert(row_bits_from(img, w, n, mmd, dcl, y as int, x as int) =~= Seq::<u8>::empty());
        assert(written(writer) + rest =~= start + total);
        y = y + b;
    }
    assert(plane_bits_from(img, w, hh, n, mmd, dcl, y as int) =~= Seq::<u8>::empty());
    assert(written(writer) =~= start + total);
}

} // verus!
