//! The container: a ten-byte header (`QGIF`, the two block sizes, width and
//! height in big-endian order) followed by the bits of the three planes
//! (luminance, then the two chrominance planes at half width, full height).

use vstd::prelude::*;
use crate::bits::{
    unpack, zeros, pack_padded, bytes_value, lemma_unpack, lemma_unpack_concat,
    lemma_bytes_value_short,
};
use crate::bitwriter::{
    self, Functions as WriterFunctions, written, after_appends, lemma_writer_wf, GROWTH,
};
use crate::bitreader::{self, BitReader, Functions as ReaderFunctions, lemma_reader_wf};
use crate::compress::compress;
use crate::decode::{decode, plane_end_checked, position};
use crate::plane::{
    plane_fits, padded, plane_bits, plane_ok, plane_end, decode_plane_from,
    render_fresh_plane_from, lemma_plane_bits_bound, lemma_padded, lemma_plane_end,
    law_decode_encoded_plane, lemma_block_within, lemma_decode_plane_agree,
};
use crate::quadtree::is_block_size;

verus! {

/// The encoder's settings, as given on its command line.
pub struct Settings {
    /// Block size of the luminance plane.
    pub lum_block: u8,
    /// Block size of the chrominance planes.
    pub color_block: u8,
    /// Allowed spread within a luminance block.
    pub lum_dist: u8,
    /// Allowed spread within a chrominance block.
    pub color_dist: u8,
    /// How fast the allowed luminance spread grows with depth.
    pub depth_compression_lum: u8,
    /// How fast the allowed chrominance spread grows with depth.
    pub depth_compression_color: u8,
}

/// Whether `n` is a block size the codec works with.
pub fn block_size_ok(n: u8) -> (b: bool)
    ensures
        b == is_block_size(n as int),
{
    n == 1 || n == 2 || n == 4 || n == 8 || n == 16 || n == 32 || n == 64 || n == 128
}

/// Whether the blocks of a `width x height` plane fit a buffer of `size`
/// bytes (see `plane_fits`).
pub fn plane_fits_check(size: usize, width: u16, height: u16, block: u8) -> (b: bool)
    requires
        block >= 1,
    ensures
        b == plane_fits(size as int, width as int, height as int, block as int),
{
    if width == 0 || height == 0 {
        return true;
    }
    let n: u64 = block as u64;
    proof {
        lemma_padded(width as int, n as int);
        lemma_padded(height as int, n as int);
    }
    let qw: u64 = (width as u64 - 1) / n;
    let qh: u64 = (height as u64 - 1) / n;
    assert(qw * n <= 65535) by (nonlinear_arith)
        requires
            qw == (width - 1) / (n as int),
            n >= 1,
            width <= 65535,
            width >= 1,
    ;
    assert(qh * n <= 65535) by (nonlinear_arith)
        requires
            qh == (height - 1) / (n as int),
            n >= 1,
            height <= 65535,
            height >= 1,
    ;
    let pw: u64 = qw * n + n;
    let ph: u64 = qh * n + n;
    if pw > 65535 || ph > 65535 {
        return false;
    }
    assert((width as u64) * (ph - 1) <= 65535 * 65535) by (nonlinear_arith)
        requires
            width <= 65535,
            ph <= 65535,
            ph >= 1,
    ;
    let last: u64 = (width as u64) * (ph - 1) + pw - 1;
    last < size as u64
}

/// The frame size the encoder works at: the probed size, or the requested
/// one, rounded down to multiples of 128.
pub open spec fn frame_size_of(probed: (u16, u16), resize: Option<(u16, u16)>) -> (u16, u16) {
    let (w, h) = match resize {
        Some(r) => r,
        None => probed,
    };
    ((128 * (w / 128)) as u16, (128 * (h / 128)) as u16)
}

/// The frame size the encoder works at: the probed size, or the requested
/// one, rounded down to multiples of 128.
pub fn frame_size(probed: (u16, u16), resize: Option<(u16, u16)>) -> (r: (u16, u16))
    ensures
        r == frame_size_of(probed, resize),
{
    let (w, h) = match resize {
        Some(r) => r,
        None => probed,
    };
    (128 * (w / 128), 128 * (h / 128))
}

/// The frame size is the requested size where one is given, whatever the
/// probed size, else the probed size; each side rounded down to a multiple
/// of 128: the largest multiple of 128 not above it.
pub proof fn law_frame_size(probed: (u16, u16), resize: Option<(u16, u16)>)
    ensures
        ({
            let r = frame_size_of(probed, resize);
            let s = match resize {
                Some(q) => q,
                None => probed,
            };
            &&& r.0 % 128 == 0
            &&& r.1 % 128 == 0
            &&& r.0 <= s.0 < r.0 + 128
            &&& r.1 <= s.1 < r.1 + 128
        }),
        resize matches Some(q) ==> forall|other: (u16, u16)| #[trigger] frame_size_of(other, resize) == frame_size_of(probed, resize),
{
}

/// The sizes of the planes of a YUV 4:2:2 frame: the luminance plane, and
/// each chrominance plane at half width and full height.
pub fn yuv422_plane_sizes(resx: u16, resy: u16) -> (r: (usize, usize))
    ensures
        r.0 == resx * resy,
        r.1 == (resx / 2) * resy,
{
    let resx: u32 = resx as u32;
    let resy: u32 = resy as u32;
    assert(resx * resy <= 65535 * 65535) by (nonlinear_arith)
        requires
            resx <= 65535,
            resy <= 65535,
    ;
    assert((resx / 2) * resy <= 65535 * 65535) by (nonlinear_arith)
        requires
            resx <= 65535,
            resy <= 65535,
    ;
    let total_y: usize = (resx * resy) as usize;
    let total_u_v: usize = ((resx / 2) * resy) as usize;
    (total_y, total_u_v)
}

/// The four bytes `QGIF` that start a file.
pub open spec fn magic() -> Seq<u8> {
    seq![0x51u8, 0x47u8, 0x49u8, 0x46u8]
}

/// The header of a file: `QGIF`, the luminance and chrominance block sizes,
/// the width and the height (each big-endian).
pub open spec fn header_bytes(lum_block: u8, color_block: u8, width: u16, height: u16) -> Seq<u8> {
    magic() + seq![
        lum_block,
        color_block,
        (width / 256) as u8,
        (width % 256) as u8,
        (height / 256) as u8,
        (height % 256) as u8,
    ]
}

/// A header holds, in order, `Q`, `G`, `I`, `F`, the luminance block size,
/// the chrominance block size, the width (big-endian, bytes 6 and 7) and the
/// height (big-endian, bytes 8 and 9); a file that starts with it has that
/// width and height.
pub proof fn law_header_fields(lum_block: u8, color_block: u8, width: u16, height: u16, file: Seq<u8>)
    ensures
        ({
            let h = header_bytes(lum_block, color_block, width, height);
            &&& h.len() == 10
            &&& h[0] == 0x51 && h[1] == 0x47 && h[2] == 0x49 && h[3] == 0x46
            &&& h[4] == lum_block
            &&& h[5] == color_block
            &&& h[6] * 256 + h[7] == width
            &&& h[8] * 256 + h[9] == height
        }),
        file.len() >= 10 && file.subrange(0, 10) == header_bytes(lum_block, color_block, width, height) ==> {
            &&& file_width(file) == width
            &&& file_height(file) == height
            &&& file[4] == lum_block
            &&& file[5] == color_block
        },
{
    let h = header_bytes(lum_block, color_block, width, height);
    assert(h[6] == (width / 256) as u8 && h[7] == (width % 256) as u8);
    assert(h[8] == (height / 256) as u8 && h[9] == (height % 256) as u8);
    if file.len() >= 10 && file.subrange(0, 10) == h {
        assert(file[6] == file.subrange(0, 10)[6] && file[7] == file.subrange(0, 10)[7]);
        assert(file[8] == file.subrange(0, 10)[8] && file[9] == file.subrange(0, 10)[9]);
        assert(file[4] == file.subrange(0, 10)[4] && file[5] == file.subrange(0, 10)[5]);
    }
}

/// The bits of the three planes: luminance, then the two chrominance
/// planes at half width and full height.
pub open spec fn image_bits(
    y: Seq<u8>,
    u: Seq<u8>,
    v: Seq<u8>,
    width: u16,
    height: u16,
    s: Settings,
) -> Seq<u8> {
    plane_bits(
        y,
        width as int,
        height as int,
        s.lum_block as int,
        s.lum_dist as int,
        s.depth_compression_lum as int,
    ) + plane_bits(
        u,
        (width / 2) as int,
        height as int,
        s.color_block as int,
        s.color_dist as int,
        s.depth_compression_color as int,
    ) + plane_bits(
        v,
        (width / 2) as int,
        height as int,
        s.color_block as int,
        s.color_dist as int,
        s.depth_compression_color as int,
    )
}

/// At most 11 bits per pixel of the padded planes.
pub open spec fn image_bits_bound(width: u16, height: u16, s: Settings) -> int {
    11 * (padded(width as int, s.lum_block as int) * padded(height as int, s.lum_block as int) + 2
        * padded((width / 2) as int, s.color_block as int) * padded(height as int, s.color_block as int))
}

/// The sizes (bytes written, bits pending, bytes allocated) of a new writer
/// after `k` bits.
pub open spec fn fresh_after(k: nat) -> (int, int, int) {
    after_appends((0, 0, GROWTH as int), k)
}

/// Whether the bits of an image fit the size limits.
pub fn image_room_ok(width: u16, height: u16, settings: &Settings) -> (b: bool)
    requires
        is_block_size(settings.lum_block as int),
        is_block_size(settings.color_block as int),
    ensures
        b == (image_bits_bound(width, height, *settings) + 8 * GROWTH + 8 <= 8 * usize::MAX),
{
    let pw = padded_len(width, settings.lum_block) as u128;
    let ph = padded_len(height, settings.lum_block) as u128;
    let cw = padded_len(width / 2, settings.color_block) as u128;
    let ch = padded_len(height, settings.color_block) as u128;
    assert(pw * ph <= 65790 * 65790 && cw * ch <= 65790 * 65790) by (nonlinear_arith)
        requires
            pw <= 65790,
            ph <= 65790,
            cw <= 65790,
            ch <= 65790,
    ;
    assert(2 * cw * ch == 2 * (cw * ch)) by (nonlinear_arith);
    11 * (pw * ph + 2 * cw * ch) + 8 * (GROWTH as u128) + 8 <= 8 * (usize::MAX as u128)
}

/// The side length covered by whole blocks.
fn padded_len(len: u16, block: u8) -> (r: u32)
    requires
        block >= 1,
    ensures
        r == padded(len as int, block as int),
        r <= 65535 + 255,
{
    if len == 0 {
        0
    } else {
        let n: u32 = block as u32;
        proof {
            lemma_padded(len as int, n as int);
        }
        let q: u32 = (len as u32 - 1) / n;
        assert(q * n <= 65535) by (nonlinear_arith)
            requires
                q == (len - 1) / (n as int),
                n >= 1,
                len <= 65535,
                len >= 1,
        ;
        q * n + n
    }
}

/// Encodes a frame: the header, then the bits of the three planes packed
/// into bytes, the last byte padded with zeros. `None` where the packed
/// bytes have filled the writer's buffer exactly as the last pending bit
/// came in, so that there is no place for the last byte.
pub fn encode_image(
    y: &Vec<u8>,
    u: &Vec<u8>,
    v: &Vec<u8>,
    width: u16,
    height: u16,
    settings: &Settings,
) -> (r: Option<Vec<u8>>)
    requires
        is_block_size(settings.lum_block as int),
        is_block_size(settings.color_block as int),
        plane_fits(y@.len() as int, width as int, height as int, settings.lum_block as int),
        plane_fits(u@.len() as int, (width / 2) as int, height as int, settings.color_block as int),
        plane_fits(v@.len() as int, (width / 2) as int, height as int, settings.color_block as int),
        image_bits_bound(width, height, *settings) + 8 * GROWTH + 8 <= 8 * usize::MAX,
    ensures
        ({
            let bits = image_bits(y@, u@, v@, width, height, *settings);
            let st = fresh_after(bits.len());
            &&& r is None <==> st.0 == st.2
            &&& r matches Some(out) ==> {
                &&& out@.len() >= 10
                &&& out@[0] == 0x51 && out@[1] == 0x47 && out@[2] == 0x49 && out@[3] == 0x46
                &&& out@[4] == settings.lum_block
                &&& out@[5] == settings.color_block
                &&& out@[6] * 256 + out@[7] == width
                &&& out@[8] * 256 + out@[9] == height
                &&& out@.subrange(0, 10) == header_bytes(settings.lum_block, settings.color_block, width, height)
                &&& unpack(out@.subrange(10, out@.len() as int)) == bits + zeros((8 - st.1) as nat)
            }
        }),
{
    let ghost ybits = plane_bits(y@, width as int, height as int, settings.lum_block as int, settings.lum_dist as int, settings.depth_compression_lum as int);
    let ghost ubits = plane_bits(u@, (width / 2) as int, height as int, settings.color_block as int, settings.color_dist as int, settings.depth_compression_color as int);
    let ghost vbits = plane_bits(v@, (width / 2) as int, height as int, settings.color_block as int, settings.color_dist as int, settings.depth_compression_color as int);
    let ghost bits = image_bits(y@, u@, v@, width, height, *settings);
    proof {
        lemma_plane_bits_bound(y@, width as int, height as int, settings.lum_block as int, settings.lum_dist as int, settings.depth_compression_lum as int, 0);
        lemma_plane_bits_bound(u@, (width / 2) as int, height as int, settings.color_block as int, settings.color_dist as int, settings.depth_compression_color as int, 0);
        lemma_plane_bits_bound(v@, (width / 2) as int, height as int, settings.color_block as int, settings.color_dist as int, settings.depth_compression_color as int, 0);
        assert(ybits.len() <= 11 * padded(width as int, settings.lum_block as int) * padded(height as int, settings.lum_block as int));
        assert(ubits.len() <= 11 * padded((width / 2) as int, settings.color_block as int) * padded(height as int, settings.color_block as int));
        assert(vbits.len() <= 11 * padded((width / 2) as int, settings.color_block as int) * padded(height as int, settings.color_block as int));
        let pw = padded(width as int, settings.lum_block as int);
        let ph = padded(height as int, settings.lum_block as int);
        let cw = padded((width / 2) as int, settings.color_block as int);
        let ch = padded(height as int, settings.color_block as int);
        lemma_padded(width as int, settings.lum_block as int);
        lemma_padded(height as int, settings.lum_block as int);
        lemma_padded((width / 2) as int, settings.color_block as int);
        lemma_padded(height as int, settings.color_block as int);
        assert(ybits.len() + ubits.len() + vbits.len() <= image_bits_bound(width, height, *settings)) by (nonlinear_arith)
            requires
                ybits.len() <= 11 * pw * ph,
                ubits.len() <= 11 * cw * ch,
                vbits.len() <= 11 * cw * ch,
                image_bits_bound(width, height, *settings) == 11 * (pw * ph + 2 * cw * ch),
        ;
    }
    let mut writer = bitwriter::new();
    assert(written(&writer) =~= Seq::<u8>::empty());
    compress(y, width, height, settings.lum_dist, settings.depth_compression_lum, settings.lum_block, &mut writer);
    compress(u, width / 2, height, settings.color_dist, settings.depth_compression_color, settings.color_block, &mut writer);
    compress(v, width / 2, height, settings.color_dist, settings.depth_compression_color, settings.color_block, &mut writer);
    proof {
        crate::bitwriter::lemma_after_appends((0, 0, GROWTH as int), ybits.len(), ubits.len());
        crate::bitwriter::lemma_after_appends((0, 0, GROWTH as int), ybits.len() + ubits.len(), vbits.len());
        assert(written(&writer) =~= bits);
        lemma_writer_wf(&writer);
    }
    if writer.return_buffer().len() >= writer.allocated() {
        return None;
    }
    let ghost pending = writer.pending();
    let ghost before = writer.bytes();
    let ghost old_writer = writer;
    writer.flush();
    let payload = writer.return_buffer();
    proof {
        lemma_writer_wf(&writer);
        crate::bitwriter::law_flushed_bits(&old_writer);
        assert(payload@ == before.push(pack_padded(pending) as u8));
        assert(unpack(payload@) =~= bits + zeros((8 - pending.len()) as nat));
    }
    let mut out: Vec<u8> = Vec::new();
    out.push(0x51);
    out.push(0x47);
    out.push(0x49);
    out.push(0x46);
    out.push(settings.lum_block);
    out.push(settings.color_block);
    out.push((width / 256) as u8);
    out.push((width % 256) as u8);
    out.push((height / 256) as u8);
    out.push((height % 256) as u8);
    assert(out@ =~= header_bytes(settings.lum_block, settings.color_block, width, height));
    let mut i: usize = 0;
    while i < payload.len()
        invariant
            0 <= i <= payload@.len(),
            out@ == header_bytes(settings.lum_block, settings.color_block, width, height) + payload@.subrange(0, i as int),
        decreases payload@.len() - i,
    {
        out.push(payload[i]);
        assert(payload@.subrange(0, i + 1) =~= payload@.subrange(0, i as int).push(payload@[i as int]));
        i += 1;
    }
    assert(out@.subrange(0, 10) =~= header_bytes(settings.lum_block, settings.color_block, width, height));
    assert(out@.subrange(10, out@.len() as int) =~= payload@);
    proof {
        law_header_fields(settings.lum_block, settings.color_block, width, height, out@);
        let hb = header_bytes(settings.lum_block, settings.color_block, width, height);
        assert forall|k: int| 0 <= k < 10 implies out@[k] == hb[k] by {
            assert(out@.subrange(0, 10)[k] == out@[k]);
        };
    }
    Some(out)
}

/// Why a file cannot be decoded.
#[derive(Debug, Clone, Copy, PartialEq, Eq, Structural)]
pub enum DecodeError {
    /// Fewer than ten bytes, or not starting with `QGIF`.
    BadHeader,
    /// A block size that is not a power of two up to 128.
    UnsupportedBlockSize,
    /// The blocks of a plane reach outside the plane's pixels.
    BlocksOutsidePlane,
    /// The bits end before the last block code, or a single pixel is split.
    Truncated,
}

/// A decoded frame: the header fields and the three planes.
pub struct DecodedImage {
    /// Block size of the luminance plane.
    pub lum_block: u8,
    /// Block size of the chrominance planes.
    pub color_block: u8,
    /// Width of the frame.
    pub width: u32,
    /// Height of the frame.
    pub height: u32,
    /// The luminance plane.
    pub y: Vec<u8>,
    /// The first chrominance plane.
    pub u: Vec<u8>,
    /// The second chrominance plane.
    pub v: Vec<u8>,
}

impl DecodedImage {
    /// The three planes one after the other, as a raw YUV 4:2:2 frame.
    pub fn yuv(&self) -> (r: Vec<u8>)
        ensures
            r@ == self.y@ + self.u@ + self.v@,
    {
        let mut out: Vec<u8> = Vec::new();
        append_all(&mut out, &self.y);
        append_all(&mut out, &self.u);
        append_all(&mut out, &self.v);
        out
    }
}

/// Appends the bytes of `from` to `to`.
fn append_all(to: &mut Vec<u8>, from: &Vec<u8>)
    ensures
        final(to)@ == old(to)@ + from@,
{
    let mut i: usize = 0;
    while i < from.len()
        invariant
            0 <= i <= from@.len(),
            to@ == old(to)@ + from@.subrange(0, i as int),
        decreases from@.len() - i,
    {
        to.push(from[i]);
        assert(from@.subrange(0, i + 1) =~= from@.subrange(0, i as int).push(from@[i as int]));
        i += 1;
    }
    assert(from@.subrange(0, from@.len() as int) =~= from@);
}

/// The file starts with a whole header.
pub open spec fn header_ok(file: Seq<u8>) -> bool {
    file.len() >= 10 && file.subrange(0, 4) == magic()
}

/// The width in the header.
pub open spec fn file_width(file: Seq<u8>) -> int {
    file[6] * 256 + file[7]
}

/// The height in the header.
pub open spec fn file_height(file: Seq<u8>) -> int {
    file[8] * 256 + file[9]
}

/// The size of the luminance plane.
pub open spec fn luma_size(file: Seq<u8>) -> int {
    file_width(file) * file_height(file)
}

/// The size of each chrominance plane: half the width times the height.
pub open spec fn chroma_size(file: Seq<u8>) -> int {
    (file_width(file) / 2) * file_height(file)
}

/// Both block sizes are ones the codec works with.
pub open spec fn blocks_ok(file: Seq<u8>) -> bool {
    is_block_size(file[4] as int) && is_block_size(file[5] as int)
}

/// The blocks of each plane fit the plane.
pub open spec fn planes_fit(file: Seq<u8>) -> bool {
    &&& plane_fits(luma_size(file), file_width(file), file_height(file), file[4] as int)
    &&& plane_fits(chroma_size(file), file_width(file) / 2, file_height(file), file[5] as int)
}

/// Where the luminance plane's bits end.
pub open spec fn luma_end(file: Seq<u8>) -> int {
    plane_end(unpack(file), 80, file_width(file), file_height(file), file[4] as int, 0)
}

/// Where the first chrominance plane's bits end.
pub open spec fn chroma_u_end(file: Seq<u8>) -> int {
    plane_end(unpack(file), luma_end(file), file_width(file) / 2, file_height(file), file[5] as int, 0)
}

/// All three planes can be read.
pub open spec fn planes_readable(file: Seq<u8>) -> bool {
    &&& plane_ok(unpack(file), 80, file_width(file), file_height(file), file[4] as int, 0)
    &&& plane_ok(unpack(file), luma_end(file), file_width(file) / 2, file_height(file), file[5] as int, 0)
    &&& plane_ok(unpack(file), chroma_u_end(file), file_width(file) / 2, file_height(file), file[5] as int, 0)
}

/// The file can be decoded.
pub open spec fn file_ok(file: Seq<u8>) -> bool {
    header_ok(file) && blocks_ok(file) && planes_fit(file) && planes_readable(file)
}

/// Why a file cannot be decoded: the first check it fails.
pub open spec fn decode_error(file: Seq<u8>) -> DecodeError {
    if !header_ok(file) {
        DecodeError::BadHeader
    } else if !blocks_ok(file) {
        DecodeError::UnsupportedBlockSize
    } else if !planes_fit(file) {
        DecodeError::BlocksOutsidePlane
    } else {
        DecodeError::Truncated
    }
}

/// The decoded luminance plane.
pub open spec fn decoded_luma(file: Seq<u8>) -> Seq<u8> {
    decode_plane_from(unpack(file), 80, zeros(luma_size(file) as nat), file_width(file), file_height(file), file[4] as int, 0).0
}

/// The decoded first chrominance plane.
pub open spec fn decoded_u(file: Seq<u8>) -> Seq<u8> {
    decode_plane_from(unpack(file), luma_end(file), zeros(chroma_size(file) as nat), file_width(file) / 2, file_height(file), file[5] as int, 0).0
}

/// The decoded second chrominance plane.
pub open spec fn decoded_v(file: Seq<u8>) -> Seq<u8> {
    decode_plane_from(unpack(file), chroma_u_end(file), zeros(chroma_size(file) as nat), file_width(file) / 2, file_height(file), file[5] as int, 0).0
}

/// A zeroed plane of `n` bytes.
fn zeroed(n: usize) -> (r: Vec<u8>)
    ensures
        r@ == zeros(n as nat),
{
    let mut r: Vec<u8> = Vec::new();
    let mut i: usize = 0;
    while i < n
        invariant
            0 <= i <= n,
            r@ == zeros(i as nat),
        decreases n - i,
    {
        r.push(0);
        assert(r@ =~= zeros((i + 1) as nat));
        i += 1;
    }
    r
}

/// Decoding reads back what encoding wrote: a file made of the encoder's
/// header and its packed plane bits (padded with any zeros) decodes, plane
/// by plane, to the encoder's block codes painted into zeroed planes, with
/// the header's block sizes, width and height.
pub proof fn law_decode_encoded_image(
    y: Seq<u8>,
    u: Seq<u8>,
    v: Seq<u8>,
    width: u16,
    height: u16,
    s: Settings,
    file: Seq<u8>,
    pad: nat,
)
    requires
        is_block_size(s.lum_block as int),
        is_block_size(s.color_block as int),
        file.len() >= 10,
        file.subrange(0, 10) == header_bytes(s.lum_block, s.color_block, width, height),
        unpack(file.subrange(10, file.len() as int)) == image_bits(y, u, v, width, height, s) + zeros(pad),
    ensures
        header_ok(file),
        blocks_ok(file),
        file[4] == s.lum_block,
        file[5] == s.color_block,
        file_width(file) == width,
        file_height(file) == height,
        planes_readable(file),
        decoded_luma(file) == render_fresh_plane_from(
            y,
            zeros(luma_size(file) as nat),
            width as int,
            height as int,
            s.lum_block as int,
            s.lum_dist as int,
            s.depth_compression_lum as int,
            0,
        ),
        decoded_u(file) == render_fresh_plane_from(
            u,
            zeros(chroma_size(file) as nat),
            (width / 2) as int,
            height as int,
            s.color_block as int,
            s.color_dist as int,
            s.depth_compression_color as int,
            0,
        ),
        decoded_v(file) == render_fresh_plane_from(
            v,
            zeros(chroma_size(file) as nat),
            (width / 2) as int,
            height as int,
            s.color_block as int,
            s.color_dist as int,
            s.depth_compression_color as int,
            0,
        ),
{
    let hdr = file.subrange(0, 10);
    let rest = file.subrange(10, file.len() as int);
    assert(file =~= hdr + rest);
    assert(file.subrange(0, 4) =~= hdr.subrange(0, 4));
    assert(hdr.subrange(0, 4) =~= magic());
    assert(file[4] == hdr[4] && file[5] == hdr[5] && file[6] == hdr[6] && file[7] == hdr[7]);
    assert(file[8] == hdr[8] && file[9] == hdr[9]);
    assert(file_width(file) == width);
    assert(file_height(file) == height);
    lemma_unpack_concat(hdr, rest);
    lemma_unpack(hdr);
    let bits = unpack(file);
    let w = width as int;
    let h = height as int;
    let cw = (width / 2) as int;
    let ch = height as int;
    let yb = plane_bits(y, w, h, s.lum_block as int, s.lum_dist as int, s.depth_compression_lum as int);
    let ub = plane_bits(u, cw, ch, s.color_block as int, s.color_dist as int, s.depth_compression_color as int);
    let vb = plane_bits(v, cw, ch, s.color_block as int, s.color_dist as int, s.depth_compression_color as int);
    assert(bits =~= unpack(hdr) + yb + ub + vb + zeros(pad));
    let p1: int = 80 + yb.len() as int;
    let p2: int = p1 + ub.len();
    assert(bits.subrange(80, p1) =~= yb);
    assert(bits.subrange(p1, p2) =~= ub);
    assert(bits.subrange(p2, p2 + vb.len()) =~= vb);
    law_decode_encoded_plane(y, zeros(luma_size(file) as nat), w, h, s.lum_block as int, s.lum_dist as int, s.depth_compression_lum as int, bits, 80);
    lemma_plane_end(bits, 80, zeros(luma_size(file) as nat), w, h, s.lum_block as int, 0);
    assert(luma_end(file) == p1);
    law_decode_encoded_plane(u, zeros(chroma_size(file) as nat), cw, ch, s.color_block as int, s.color_dist as int, s.depth_compression_color as int, bits, p1);
    lemma_plane_end(bits, p1, zeros(chroma_size(file) as nat), cw, ch, s.color_block as int, 0);
    assert(chroma_u_end(file) == p2);
    law_decode_encoded_plane(v, zeros(chroma_size(file) as nat), cw, ch, s.color_block as int, s.color_dist as int, s.depth_compression_color as int, bits, p2);
}

/// A `w x h` plane whose sides are multiples of `n` fits a buffer of
/// exactly `w * h` bytes.
proof fn lemma_exact_plane_fits(w: int, h: int, n: int)
    requires
        is_block_size(n),
        0 <= w <= 65535,
        0 <= h <= 65535,
        w % n == 0,
        h % n == 0,
    ensures
        plane_fits(w * h, w, h, n),
{
    if w > 0 && h > 0 {
        lemma_block_within(0, w, n);
        lemma_block_within(0, h, n);
        assert(w * (h - 1) + (w - 1) < w * h) by (nonlinear_arith)
            requires
                w >= 1,
        ;
    }
}

/// Every file the encoder writes decodes, where each side of every plane is
/// a multiple of that plane's block size: it passes every check of
/// `decode_image`, and its luminance plane has `width * height` bytes and
/// each chrominance plane `(width / 2) * height`.
pub proof fn law_encoded_image_decodes(
    y: Seq<u8>,
    u: Seq<u8>,
    v: Seq<u8>,
    width: u16,
    height: u16,
    s: Settings,
    file: Seq<u8>,
    pad: nat,
)
    requires
        is_block_size(s.lum_block as int),
        is_block_size(s.color_block as int),
        (width as int) % (s.lum_block as int) == 0,
        (height as int) % (s.lum_block as int) == 0,
        ((width / 2) as int) % (s.color_block as int) == 0,
        (height as int) % (s.color_block as int) == 0,
        file.len() >= 10,
        file.subrange(0, 10) == header_bytes(s.lum_block, s.color_block, width, height),
        unpack(file.subrange(10, file.len() as int)) == image_bits(y, u, v, width, height, s) + zeros(pad),
    ensures
        file_ok(file),
        decoded_luma(file).len() == width * height,
        decoded_u(file).len() == (width / 2) * height,
        decoded_v(file).len() == (width / 2) * height,
{
    law_decode_encoded_image(y, u, v, width, height, s, file, pad);
    let w = width as int;
    let h = height as int;
    let cw = (width / 2) as int;
    lemma_exact_plane_fits(w, h, s.lum_block as int);
    lemma_exact_plane_fits(cw, h, s.color_block as int);
    assert(luma_size(file) == w * h);
    assert(chroma_size(file) == cw * h);
    let zl = zeros(luma_size(file) as nat);
    let zc = zeros(chroma_size(file) as nat);
    lemma_decode_plane_agree(unpack(file), 80, zl, zl, w, h, s.lum_block as int, 0);
    lemma_decode_plane_agree(unpack(file), luma_end(file), zc, zc, cw, h, s.color_block as int, 0);
    lemma_decode_plane_agree(unpack(file), chroma_u_end(file), zc, zc, cw, h, s.color_block as int, 0);
}

/// The fields of a file header.
pub struct Header {
    /// Block size of the luminance plane.
    pub lum_block: u8,
    /// Block size of the chrominance planes.
    pub color_block: u8,
    /// Width of the frame.
    pub width: u32,
    /// Height of the frame.
    pub height: u32,
}

/// Reads the header at the start of the reader's stream: `QGIF`, the two
/// block sizes, the width and the height; the reader is left at the first
/// bit after the header.
pub fn read_header(reader: &mut BitReader) -> (r: Result<Header, DecodeError>)
    requires
        old(reader).wf(),
        old(reader).byte_cursor() == 0,
        old(reader).cursor() == 0,
    ensures
        final(reader).wf(),
        final(reader).stream() == old(reader).stream(),
        r is Ok <==> header_ok(old(reader).stream()),
        r matches Err(e) ==> e == DecodeError::BadHeader,
        r matches Ok(hd) ==> {
            &&& hd.lum_block == old(reader).stream()[4]
            &&& hd.color_block == old(reader).stream()[5]
            &&& hd.width == file_width(old(reader).stream())
            &&& hd.height == file_height(old(reader).stream())
            &&& hd.width == old(reader).stream()[6] * 256 + old(reader).stream()[7]
            &&& hd.height == old(reader).stream()[8] * 256 + old(reader).stream()[9]
            &&& position(final(reader)) == 80
        },
{
    let ghost file = reader.stream();
    if reader.stream_bytes().len() < 10 {
        return Err(DecodeError::BadHeader);
    }
    let header: [u8; 4] = [0x51, 0x47, 0x49, 0x46];
    let mut i: usize = 0;
    while i < 4
        invariant
            0 <= i <= 4,
            reader.wf(),
            reader.stream() == file,
            file == old(reader).stream(),
            file.len() >= 10,
            reader.byte_cursor() == i,
            reader.cursor() == 0,
            header@ == magic(),
            forall|k: int| 0 <= k < i ==> file[k] == magic()[k],
        decreases 4 - i,
    {
        let c = reader.read_bytes_alinged(1);
        proof {
            lemma_bytes_value_short(file.subrange(i as int, i + 1));
        }
        if header[i] != c as u8 {
            proof {
                assert(file.subrange(0, 4)[i as int] == file[i as int]);
            }
            return Err(DecodeError::BadHeader);
        }
        i += 1;
    }
    assert(file.subrange(0, 4) =~= magic());
    let lum32 = reader.read_bytes_alinged(1);
    let col32 = reader.read_bytes_alinged(1);
    let x = reader.read_bytes_alinged(2);
    let y = reader.read_bytes_alinged(2);
    proof {
        lemma_bytes_value_short(file.subrange(4, 5));
        lemma_bytes_value_short(file.subrange(5, 6));
        lemma_bytes_value_short(file.subrange(6, 8));
        lemma_bytes_value_short(file.subrange(8, 10));
        assert(file.subrange(4, 5)[0] == file[4]);
        assert(file.subrange(5, 6)[0] == file[5]);
        assert(file.subrange(6, 8)[0] == file[6] && file.subrange(6, 8)[1] == file[7]);
        assert(file.subrange(8, 10)[0] == file[8] && file.subrange(8, 10)[1] == file[9]);
        assert(x == file_width(file));
        assert(y == file_height(file));
        assert(bytes_value(file.subrange(4, 5)) == file[4]);
        assert(file[4] < 256);
        vstd::arithmetic::div_mod::lemma_small_mod(file[4] as nat, crate::bitreader::u32_modulus());
        vstd::arithmetic::div_mod::lemma_small_mod(file[5] as nat, crate::bitreader::u32_modulus());
        assert(lum32 == file[4]);
        assert(col32 == file[5]);
        assert(position(reader) == 80);
    }
    Ok(Header { lum_block: lum32 as u8, color_block: col32 as u8, width: x, height: y })
}

/// Decodes a file: checks the header (`QGIF`, block sizes, width, height),
/// that the blocks fit the planes and that every block code can be read,
/// then paints the luminance plane and the two chrominance planes.
#[verifier::rlimit(40)]
pub fn decode_image(bytes: Vec<u8>) -> (r: Result<DecodedImage, DecodeError>)
    ensures
        r is Ok <==> file_ok(bytes@),
        r matches Err(e) ==> e == decode_error(bytes@),
        r matches Ok(img) ==> {
            &&& img.lum_block == bytes@[4]
            &&& img.color_block == bytes@[5]
            &&& img.width == file_width(bytes@)
            &&& img.height == file_height(bytes@)
            &&& img.width == bytes@[6] * 256 + bytes@[7]
            &&& img.height == bytes@[8] * 256 + bytes@[9]
            &&& img.y@.len() == img.width * img.height
            &&& img.u@.len() == (img.width / 2) * img.height
            &&& img.v@.len() == (img.width / 2) * img.height
            &&& img.y@ == decoded_luma(bytes@)
            &&& img.u@ == decoded_u(bytes@)
            &&& img.v@ == decoded_v(bytes@)
        },
{
    let ghost file = bytes@;
    let mut reader = bitreader::new(bytes);
    reader.return_as_little_endian(false);
    let hd = match read_header(&mut reader) {
        Ok(hd) => hd,
        Err(e) => return Err(e),
    };
    let lum_block = hd.lum_block;
    let color_block = hd.color_block;
    let x = hd.width;
    let y = hd.height;
    if !block_size_ok(lum_block) || !block_size_ok(color_block) {
        return Err(DecodeError::UnsupportedBlockSize);
    }
    assert(x * y <= 65535 * 65535) by (nonlinear_arith)
        requires
            x <= 65535,
            y <= 65535,
    ;
    assert((x / 2) * y <= 65535 * 65535) by (nonlinear_arith)
        requires
            x <= 65535,
            y <= 65535,
    ;
    let total_y: usize = (x * y) as usize;
    let total_uv: usize = ((x / 2) * y) as usize;
    let w: u16 = x as u16;
    let h: u16 = y as u16;
    if !plane_fits_check(total_y, w, h, lum_block) || !plane_fits_check(total_uv, w / 2, h, color_block) {
        return Err(DecodeError::BlocksOutsidePlane);
    }
    let luma_stop = match plane_end_checked(reader.stream_bytes(), 80, w, h, lum_block) {
        Some(p) => p,
        None => return Err(DecodeError::Truncated),
    };
    let u_stop = match plane_end_checked(reader.stream_bytes(), luma_stop, w / 2, h, color_block) {
        Some(p) => p,
        None => return Err(DecodeError::Truncated),
    };
    match plane_end_checked(reader.stream_bytes(), u_stop, w / 2, h, color_block) {
        Some(_) => {},
        None => return Err(DecodeError::Truncated),
    }
    let mut y_decoded_data = zeroed(total_y);
    let mut u_decoded_data = zeroed(total_uv);
    let mut v_decoded_data = zeroed(total_uv);
    proof {
        lemma_reader_wf(&reader);
        lemma_plane_end(unpack(file), 80, zeros(total_y as nat), w as int, h as int, lum_block as int, 0);
    }
    decode(&mut y_decoded_data, w, h, lum_block, &mut reader);
    proof {
        lemma_plane_end(unpack(file), luma_stop as int, zeros(total_uv as nat), (w / 2) as int, h as int, color_block as int, 0);
    }
    decode(&mut u_decoded_data, w / 2, h, color_block, &mut reader);
    decode(&mut v_decoded_data, w / 2, h, color_block, &mut reader);
    Ok(DecodedImage {
        lum_block,
        color_block,
        width: x,
        height: y,
        y: y_decoded_data,
        u: u_decoded_data,
        v: v_decoded_data,
    })
}

} // verus!
