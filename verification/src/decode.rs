//! The decoder: reads the quadtree of each block of a plane and paints its
//! leaves.

use vstd::prelude::*;
use crate::bits::{
    unpack, lemma_unpack, lemma_bits_value_bound, bits_value, byte_bits, zeros, pack_padded, lemma_byte_bits,
};
use crate::bitwriter::{BitWriter, Functions as WriterFunctions, written, law_flushed_bits, lemma_writer_wf};
use crate::bitreader::{BitReader, Functions, lemma_reader_wf};
use crate::plane::{
    plane_fits, padded, decode_row_from, decode_plane_from, row_ok, row_end, plane_ok, plane_end,
    lemma_block_origin, lemma_row_end,
};
use crate::bits::bit_at;
use vstd::arithmetic::div_mod::lemma_fundamental_div_mod;
use crate::quadtree::{
    is_block_size, offset, fill_row, fill_rect, parse_tree, parse_ok, render,
    lemma_offset_mono, lemma_half_block,
};

verus! {

/// The bit position of a reader: `8 * byte_cursor + cursor`.
pub open spec fn position(r: &BitReader) -> int {
    (8 * r.byte_cursor() + r.cursor()) as int
}

/// The bits a reader reads.
pub open spec fn reader_bits(r: &BitReader) -> Seq<u8> {
    unpack(r.stream())
}

/// A reader over the bytes of a flushed writer reads back what was
/// written: the `k`-th bit it reads is the `k`-th bit appended, the bits
/// after them up to the end of the last byte are zeros, and eight bits
/// appended as a byte read back, eight at a time, as that byte.
pub proof fn law_read_back_flushed(w: &BitWriter, r: &BitReader)
    requires
        w.wf(),
        r.wf(),
        r.stream() == w.bytes().push(pack_padded(w.pending()) as u8),
    ensures
        unpack(r.stream()).len() == written(w).len() + 8 - w.pending().len(),
        forall|k: int| 0 <= k < written(w).len() ==> #[trigger] unpack(r.stream())[k] == written(w)[k],
        forall|k: int| written(w).len() <= k < unpack(r.stream()).len() ==> #[trigger] unpack(r.stream())[k] == 0,
        forall|k: int, m: int|
            0 <= k <= m <= written(w).len() ==> #[trigger] unpack(r.stream()).subrange(k, m)
                == written(w).subrange(k, m),
        forall|k: int, v: u8|
            #![trigger written(w).subrange(k, k + 8), byte_bits(v)]
            0 <= k && k + 8 <= written(w).len() && written(w).subrange(k, k + 8) == byte_bits(v)
                ==> bits_value(unpack(r.stream()).subrange(k, k + 8)) == v,
{
    lemma_writer_wf(w);
    law_flushed_bits(w);
    let all = written(w) + zeros((8 - w.pending().len()) as nat);
    assert(unpack(r.stream()) == all);
    assert forall|k: int, m: int| 0 <= k <= m <= written(w).len() implies #[trigger] unpack(r.stream()).subrange(k, m)
        == written(w).subrange(k, m) by {
        assert(all.subrange(k, m) =~= written(w).subrange(k, m));
    };
    assert forall|k: int, v: u8|
        #![trigger written(w).subrange(k, k + 8), byte_bits(v)]
        0 <= k && k + 8 <= written(w).len() && written(w).subrange(k, k + 8) == byte_bits(v)
            implies bits_value(unpack(r.stream()).subrange(k, k + 8)) == v by {
        assert(all.subrange(k, k + 8) =~= written(w).subrange(k, k + 8));
        lemma_byte_bits(v);
    };
}

/// Offset of pixel `(x, y)` in a plane whose rows are `width` pixels long.
pub fn return_index_from_xy(width: u16, x: u16, y: u16) -> (i: usize)
    ensures
        i == offset(width as int, x as int, y as int),
{
    let width: u32 = width as u32;
    let x: u32 = x as u32;
    let y: u32 = y as u32;
    assert(width * y <= 65535 * 65535) by (nonlinear_arith)
        requires
            width <= 65535,
            y <= 65535,
    ;
    (width * y + x) as usize
}

/// Paints `value` into the rectangle `[x, x2) x [y, y2)`, row after row.
pub fn fill_colour(yuv_array: &mut Vec<u8>, value: u8, width: u16, x: u16, y: u16, x2: u16, y2: u16)
    requires
        x < x2 && y < y2 ==> offset(width as int, x2 - 1, y2 - 1) < old(yuv_array)@.len(),
    ensures
        final(yuv_array)@ == fill_rect(
            old(yuv_array)@,
            width as int,
            x as int,
            y as int,
            x2 as int,
            y2 as int,
            value,
        ),
        final(yuv_array)@.len() == old(yuv_array)@.len(),
{
    let ghost w = width as int;
    let ghost orig = yuv_array@;
    let mut yy: u16 = y;
    while yy < y2
        invariant
            y <= yy,
            y < yy ==> yy <= y2,
            w == width,
            x < x2 && y < y2 ==> offset(w, x2 - 1, y2 - 1) < orig.len(),
            yuv_array@.len() == orig.len(),
            yuv_array@ == fill_rect(orig, w, x as int, y as int, x2 as int, yy as int, value),
        decreases y2 - yy,
    {
        let ghost base = yuv_array@;
        let mut xx: u16 = x;
        while xx < x2
            invariant
                y <= yy < y2,
                x <= xx,
                x < xx ==> xx <= x2,
                w == width,
                x < x2 && y < y2 ==> offset(w, x2 - 1, y2 - 1) < orig.len(),
                yuv_array@.len() == orig.len(),
                base == fill_rect(orig, w, x as int, y as int, x2 as int, yy as int, value),
                yuv_array@ == fill_row(base, w, yy as int, x as int, xx as int, value),
            decreases x2 - xx,
        {
            proof {
                lemma_offset_mono(w, xx as int, yy as int, x2 - 1, y2 - 1);
            }
            let i = return_index_from_xy(width, xx, yy);
            yuv_array.set(i, value);
            xx += 1;
        }
        yy += 1;
    }
}

/// Reads the code of the `block x block` square at `(x, y)` and paints it:
/// `1 1` repeats the last colour, `1 0` and eight bits give a new colour,
/// `0` splits the square into four quarters.
pub fn decode_recursive(
    yuv_array: &mut Vec<u8>,
    last_pixel: &mut u8,
    block: u8,
    x: u16,
    y: u16,
    x2: u16,
    y2: u16,
    width: u16,
    reader: &mut BitReader,
)
    requires
        is_block_size(block as int),
        x2 == x + block,
        y2 == y + block,
        offset(width as int, x2 - 1, y2 - 1) < old(yuv_array)@.len(),
        old(reader).wf(),
        parse_ok(reader_bits(old(reader)), position(old(reader)), block as int),
    ensures
        ({
            let (t, p) = parse_tree(reader_bits(old(reader)), position(old(reader)), block as int);
            let (img, last) = render(t, old(yuv_array)@, width as int, x as int, y as int, block as int, *old(last_pixel));
            &&& final(yuv_array)@ == img
            &&& *final(last_pixel) == last
            &&& position(final(reader)) == p
        }),
        final(yuv_array)@.len() == old(yuv_array)@.len(),
        final(reader).wf(),
        final(reader).stream() == old(reader).stream(),
    decreases block,
{
    let ghost bits = reader_bits(reader);
    let ghost pos = position(reader);
    let ghost n = block as int;
    let ghost w = width as int;
    proof {
        lemma_unpack(reader.stream());
        lemma_reader_wf(reader);
    }
    // 1 = leaf, 0 = node
    let the_moment_of_truth = reader.read_next_bit();
    if the_moment_of_truth == 1 {
        let use_last_pixel = reader.read_next_bit();
        if use_last_pixel == 1 {
            fill_colour(yuv_array, *last_pixel, width, x, y, x2, y2);
            return;
        }
        proof {
            lemma_reader_wf(reader);
        }
        let ghost colour_bits = bits.subrange(pos + 2, pos + 10);
        let colour32 = reader.read_bits_unalinged(8);
        proof {
            assert(crate::bits::is_bit_seq(colour_bits));
            lemma_bits_value_bound(colour_bits);
            vstd::arithmetic::power2::lemma2_to64();
        }
        let colour = colour32 as u8;
        fill_colour(yuv_array, colour, width, x, y, x2, y2);
        *last_pixel = colour;
        return;
    }
    // node
    proof {
        lemma_half_block(n);
    }
    let half: u8 = block / 2;
    let h: u16 = half as u16;
    let ghost h_ = h as int;
    proof {
        lemma_offset_mono(w, x + h_ - 1, y + h_ - 1, x2 - 1, y2 - 1);
        lemma_offset_mono(w, x2 - 1, y + h_ - 1, x2 - 1, y2 - 1);
        lemma_offset_mono(w, x + h_ - 1, y2 - 1, x2 - 1, y2 - 1);
    }
    decode_recursive(yuv_array, last_pixel, half, x, y, x + h, y + h, width, reader);
    decode_recursive(yuv_array, last_pixel, half, x + h, y, x2, y + h, width, reader);
    decode_recursive(yuv_array, last_pixel, half, x, y + h, x + h, y2, width, reader);
    decode_recursive(yuv_array, last_pixel, half, x + h, y + h, x2, y2, width, reader);
}

/// The bit at position `p` of `stream`.
fn bit_at_position(stream: &[u8], p: u128) -> (b: u8)
    requires
        p < 8 * stream@.len(),
    ensures
        b == unpack(stream@)[p as int],
        b <= 1,
{
    proof {
        lemma_unpack(stream@);
        lemma_fundamental_div_mod(p as int, 8);
    }
    let byte = stream[(p / 8) as usize];
    let sh: u8 = (7 - p % 8) as u8;
    let bit = (byte >> sh) & 1;
    proof {
        assert(bit == bit_at(byte, (p % 8) as int));
        assert(unpack(stream@)[8 * (p / 8) + p % 8] == bit_at(stream@[(p / 8) as int], (p % 8) as int));
        assert((byte >> sh) & 1 <= 1) by (bit_vector);
    }
    bit
}

/// Where the code of a block of size `n` at bit `pos` ends; `None` where the
/// decoder could not read it.
pub fn tree_end(stream: &[u8], pos: u128, n: u8) -> (r: Option<u128>)
    requires
        is_block_size(n as int),
        pos <= 8 * stream@.len(),
    ensures
        r is Some <==> parse_ok(unpack(stream@), pos as int, n as int),
        r matches Some(p) ==> p == parse_tree(unpack(stream@), pos as int, n as int).1 && p <= 8
            * stream@.len(),
    decreases n,
{
    let ghost bits = unpack(stream@);
    proof {
        lemma_unpack(stream@);
    }
    let total: u128 = 8 * (stream.len() as u128);
    if pos >= total {
        return None;
    }
    if bit_at_position(stream, pos) == 1 {
        if pos + 1 >= total {
            return None;
        }
        if bit_at_position(stream, pos + 1) == 1 {
            return Some(pos + 2);
        }
        if pos + 10 <= total {
            return Some(pos + 10);
        }
        return None;
    }
    if n < 2 {
        return None;
    }
    proof {
        lemma_half_block(n as int);
    }
    let h: u8 = n / 2;
    let p1 = match tree_end(stream, pos + 1, h) {
        Some(p) => p,
        None => return None,
    };
    let p2 = match tree_end(stream, p1, h) {
        Some(p) => p,
        None => return None,
    };
    let p3 = match tree_end(stream, p2, h) {
        Some(p) => p,
        None => return None,
    };
    tree_end(stream, p3, h)
}

/// Where the block codes of a row end; `None` where the decoder could not
/// read them all.
pub fn row_end_checked(stream: &[u8], pos: u128, width: u16, n: u8) -> (r: Option<u128>)
    requires
        is_block_size(n as int),
        pos <= 8 * stream@.len(),
    ensures
        r is Some <==> row_ok(unpack(stream@), pos as int, width as int, n as int, 0),
        r matches Some(p) ==> p == row_end(unpack(stream@), pos as int, width as int, n as int, 0)
            && p <= 8 * stream@.len(),
{
    let ghost bits = unpack(stream@);
    let ghost w = width as int;
    let ghost nn = n as int;
    let mut p: u128 = pos;
    let mut x: u32 = 0;
    while x < width as u32
        invariant
            is_block_size(nn),
            nn == n,
            w == width,
            bits == unpack(stream@),
            p <= 8 * stream@.len(),
            x <= w + nn,
            row_ok(bits, pos as int, w, nn, 0) == row_ok(bits, p as int, w, nn, x as int),
            row_end(bits, pos as int, w, nn, 0) == row_end(bits, p as int, w, nn, x as int),
        decreases w - x + nn,
    {
        match tree_end(stream, p, n) {
            Some(q) => {
                p = q;
            },
            None => {
                return None;
            },
        }
        x = x + n as u32;
    }
    Some(p)
}

/// Where the block codes of a `width x height` plane end; `None` where the
/// decoder could not read them all.
pub fn plane_end_checked(stream: &[u8], pos: u128, width: u16, height: u16, n: u8) -> (r: Option<u128>)
    requires
        is_block_size(n as int),
        pos <= 8 * stream@.len(),
    ensures
        r is Some <==> plane_ok(unpack(stream@), pos as int, width as int, height as int, n as int, 0),
        r matches Some(p) ==> p == plane_end(unpack(stream@), pos as int, width as int, height as int, n as int, 0)
            && p <= 8 * stream@.len(),
{
    let ghost bits = unpack(stream@);
    let ghost hh = height as int;
    let ghost nn = n as int;
    let mut p: u128 = pos;
    let mut y: u32 = 0;
    while y < height as u32
        invariant
            is_block_size(nn),
            nn == n,
            hh == height,
            bits == unpack(stream@),
            p <= 8 * stream@.len(),
            y <= hh + nn,
            plane_ok(bits, pos as int, width as int, hh, nn, 0) == plane_ok(bits, p as int, width as int, hh, nn, y as int),
            plane_end(bits, pos as int, width as int, hh, nn, 0) == plane_end(bits, p as int, width as int, hh, nn, y as int),
        decreases hh - y + nn,
    {
        match row_end_checked(stream, p, width, n) {
            Some(q) => {
                p = q;
            },
            None => {
                return None;
            },
        }
        y = y + n as u32;
    }
    Some(p)
}

/// Decodes a `width x height` plane block by block, row after row; each
/// block starts from last colour 255, as the encoder's did.
pub fn decode(yuv_array: &mut Vec<u8>, width: u16, height: u16, block: u8, reader: &mut BitReader)
    requires
        is_block_size(block as int),
        plane_fits(old(yuv_array)@.len() as int, width as int, height as int, block as int),
        old(reader).wf(),
        plane_ok(reader_bits(old(reader)), position(old(reader)), width as int, height as int, block as int, 0),
    ensures
        ({
            let r = decode_plane_from(
                reader_bits(old(reader)),
                position(old(reader)),
                old(yuv_array)@,
                width as int,
                height as int,
                block as int,
                0,
            );
            &&& final(yuv_array)@ == r.0
            &&& position(final(reader)) == r.1
        }),
        final(yuv_array)@.len() == old(yuv_array)@.len(),
        final(reader).wf(),
        final(reader).stream() == old(reader).stream(),
{
    let ghost bits = reader_bits(reader);
    let ghost w = width as int;
    let ghost hh = height as int;
    let ghost n = block as int;
    let ghost goal = decode_plane_from(bits, position(reader), yuv_array@, w, hh, n, 0);
    let ghost size = yuv_array@.len();
    let b: u32 = block as u32;
    let mut y: u32 = 0;
    while y < height as u32
        invariant
            is_block_size(n),
            n == b,
            n == block,
            y <= hh + n,
            w == width,
            hh == height,
            (y as int) % n == 0,
            yuv_array@.len() == size,
            plane_fits(size as int, w, hh, n),
            reader.wf(),
            reader_bits(reader) == bits,
            reader.stream() == old(reader).stream(),
            plane_ok(bits, position(reader), w, hh, n, y as int),
            decode_plane_from(bits, position(reader), yuv_array@, w, hh, n, y as int) == goal,
        decreases hh - y + n,
    {
        proof {
            lemma_block_origin(hh, n, y as int);
        }
        let ghost row_start = position(reader);
        let ghost img0 = yuv_array@;
        let mut x: u32 = 0;
        while x < width as u32
            invariant
                is_block_size(n),
                n == b,
                n == block,
                x <= w + n,
                w == width,
                hh == height,
                y < hh,
                y + n <= padded(hh, n),
                (x as int) % n == 0,
                yuv_array@.len() == size,
                plane_fits(size as int, w, hh, n),
                reader.wf(),
                reader_bits(reader) == bits,
                reader.stream() == old(reader).stream(),
                row_ok(bits, position(reader), w, n, x as int),
                plane_ok(bits, row_end(bits, position(reader), w, n, x as int), w, hh, n, y + n),
                row_end(bits, position(reader), w, n, x as int) == row_end(bits, row_start, w, n, 0),
                decode_row_from(bits, position(reader), yuv_array@, w, n, y as int, x as int)
                    == decode_row_from(bits, row_start, img0, w, n, y as int, 0),
            decreases w - x + n,
        {
            proof {
                lemma_block_origin(w, n, x as int);
                lemma_offset_mono(w, x + n - 1, y + n - 1, padded(w, n) - 1, padded(hh, n) - 1);
            }
            let mut last_pixel: u8 = 255;
            decode_recursive(
                yuv_array,
                &mut last_pixel,
                block,
                x as u16,
                y as u16,
                (x + b) as u16,
                (y + b) as u16,
                width,
                reader,
            );
            x = x + b;
        }
        proof {
            let r = decode_row_from(bits, row_start, img0, w, n, y as int, 0);
            lemma_row_end(bits, row_start, img0, w, n, y as int, 0);
            assert(r == (yuv_array@, position(reader)));
        }
        y = y + b;
    }
}

} // verus!
