//! A bit reader over a byte stream: single bits are read most significant
//! first, whole bytes are read at the byte cursor.

use vstd::prelude::*;
use vstd::arithmetic::power2::{pow2, lemma2_to64, lemma_pow2_adds, lemma_pow2_unfold};
use vstd::arithmetic::div_mod::{lemma_mul_mod_noop_left, lemma_add_mod_noop, lemma_small_mod};
use vstd::bits::lemma_u32_shl_is_mul;
use crate::bits::{bits_value, bytes_value, bit_at, unpack, lemma_unpack, lemma_bits_value_bound, is_bit_seq};

verus! {

/// A reader of bits and bytes from a byte stream.
pub struct BitReader {
    stream: Vec<u8>,
    cursor: usize,
    cursor_bytes: usize,
    should_return_as_little_endian: bool,
}

/// `2^32`.
pub open spec fn u32_modulus() -> nat {
    0x1_0000_0000
}

/// The operations of a bit reader.
///
/// A reader holds a byte `stream`, a byte cursor and a bit cursor within
/// that byte (from 0 to 8). Bits are read at the bit position
/// `8 * byte_cursor + cursor` of the unpacked stream.
pub trait Functions {
    /// The reader's internal invariant.
    spec fn wf(&self) -> bool;

    /// The bytes being read.
    spec fn stream(&self) -> Seq<u8>;

    /// The bit cursor within the current byte.
    spec fn cursor(&self) -> nat;

    /// The byte cursor.
    spec fn byte_cursor(&self) -> nat;

    /// The byte-order flag.
    spec fn little_endian(&self) -> bool;

    /// Reads `bytes` whole bytes at the byte cursor, as a big-endian number
    /// (keeping its low 32 bits); the bit cursor is left alone.
    fn read_bytes_alinged(&mut self, bytes: usize) -> (r: u32)
        requires
            old(self).wf(),
            old(self).byte_cursor() + bytes <= old(self).stream().len(),
        ensures
            final(self).wf(),
            r == bytes_value(
                old(self).stream().subrange(
                    old(self).byte_cursor() as int,
                    old(self).byte_cursor() + bytes,
                ),
            ) % u32_modulus(),
            final(self).byte_cursor() == old(self).byte_cursor() + bytes,
            final(self).cursor() == old(self).cursor(),
            final(self).stream() == old(self).stream(),
            final(self).little_endian() == old(self).little_endian(),
    ;

    /// Reads `bits` bits as a big-endian number.
    fn read_bits_unalinged(&mut self, bits: usize) -> (r: u32)
        requires
            old(self).wf(),
            bits <= 32,
            8 * old(self).byte_cursor() + old(self).cursor() + bits <= 8 * old(self).stream().len(),
        ensures
            final(self).wf(),
            r == bits_value(
                unpack(old(self).stream()).subrange(
                    (8 * old(self).byte_cursor() + old(self).cursor()) as int,
                    8 * old(self).byte_cursor() + old(self).cursor() + bits,
                ),
            ),
            bits == 0 ==> final(self).byte_cursor() == old(self).byte_cursor()
                && final(self).cursor() == old(self).cursor(),
            bits > 0 ==> ({
                let end = 8 * old(self).byte_cursor() + old(self).cursor() + bits;
                &&& final(self).byte_cursor() == (end - 1) / 8
                &&& final(self).cursor() == (end - 1) % 8 + 1
            }),
            final(self).stream() == old(self).stream(),
            final(self).little_endian() == old(self).little_endian(),
    ;

    /// Sets the byte-order flag.
    fn return_as_little_endian(&mut self, little_endian: bool)
        requires
            old(self).wf(),
        ensures
            final(self).wf(),
            final(self).little_endian() == little_endian,
            final(self).stream() == old(self).stream(),
            final(self).cursor() == old(self).cursor(),
            final(self).byte_cursor() == old(self).byte_cursor(),
    ;

    /// Reads the next bit; a cursor past the last bit of a byte moves on to
    /// the first bit of the next byte.
    fn read_next_bit(&mut self) -> (r: u8)
        requires
            old(self).wf(),
            8 * old(self).byte_cursor() + old(self).cursor() < 8 * old(self).stream().len(),
        ensures
            final(self).wf(),
            r == unpack(old(self).stream())[(8 * old(self).byte_cursor() + old(self).cursor()) as int],
            r <= 1,
            old(self).cursor() > 7 ==> final(self).byte_cursor() == old(self).byte_cursor() + 1
                && final(self).cursor() == 1,
            old(self).cursor() <= 7 ==> final(self).byte_cursor() == old(self).byte_cursor()
                && final(self).cursor() == old(self).cursor() + 1,
            final(self).stream() == old(self).stream(),
            final(self).little_endian() == old(self).little_endian(),
    ;
}

/// What the invariant of a reader tells its users.
pub proof fn lemma_reader_wf(r: &BitReader)
    requires
        r.wf(),
    ensures
        r.cursor() <= 8,
{
}

impl Functions for BitReader {
    closed spec fn wf(&self) -> bool {
        &&& self.cursor <= 8
        &&& self.stream@.len() <= usize::MAX
    }

    closed spec fn stream(&self) -> Seq<u8> {
        self.stream@
    }

    closed spec fn cursor(&self) -> nat {
        self.cursor as nat
    }

    closed spec fn byte_cursor(&self) -> nat {
        self.cursor_bytes as nat
    }

    closed spec fn little_endian(&self) -> bool {
        self.should_return_as_little_endian
    }

    fn return_as_little_endian(&mut self, little_endian: bool) {
        self.should_return_as_little_endian = little_endian;
    }

    fn read_bits_unalinged(&mut self, bits: usize) -> (r: u32) {
        let ghost u = unpack(self.stream@);
        let ghost p0: int = 8 * self.cursor_bytes as int + self.cursor as int;
        proof {
            lemma_unpack(self.stream@);
            lemma2_to64();
        }
        let mut byte: u32 = 0;
        assert(u.subrange(p0, p0) =~= Seq::<u8>::empty());
        assert(bits_value(Seq::<u8>::empty()) == 0);
        let mut i: usize = 0;
        while i < bits
            invariant
                0 <= i <= bits,
                self.wf(),
                bits <= 32,
                u == unpack(self.stream@),
                is_bit_seq(u),
                u.len() == 8 * self.stream@.len(),
                self.stream@ == old(self).stream@,
                self.should_return_as_little_endian == old(self).should_return_as_little_endian,
                p0 == 8 * old(self).cursor_bytes + old(self).cursor,
                p0 + bits <= u.len(),
                8 * self.cursor_bytes + self.cursor == p0 + i,
                i == 0 ==> self.cursor_bytes == old(self).cursor_bytes && self.cursor
                    == old(self).cursor,
                i > 0 ==> self.cursor_bytes == (p0 + i - 1) / 8 && self.cursor == (p0 + i - 1) % 8
                    + 1,
                byte as nat == bits_value(u.subrange(p0, p0 + i)) * pow2((bits - i) as nat),
            decreases bits - i,
        {
            let ghost pre = u.subrange(p0, p0 + i);
            let bit = self.read_next_bit();
            assert(bit == u[p0 + i]);
            let sh: u32 = ((bits - 1) - i) as u32;
            proof {
                let k = (bits - 1 - i) as nat;
                assert(u.subrange(p0, p0 + i + 1) =~= pre.push(bit));
                assert(pre.push(bit).drop_last() =~= pre);
                assert(bits_value(pre.push(bit)) == 2 * bits_value(pre) + bit);
                lemma_pow2_unfold((bits - i) as nat);
                assert(pow2((bits - i) as nat) == 2 * pow2(k));
                assert(is_bit_seq(pre.push(bit)));
                lemma_bits_value_bound(pre.push(bit));
                lemma_pow2_adds((i + 1) as nat, k);
                assert(pow2(bits as nat) <= u32_modulus()) by {
                    lemma2_to64();
                    if bits < 32 {
                        vstd::arithmetic::power2::lemma_pow2_strictly_increases(bits as nat, 32);
                    }
                };
                vstd::arithmetic::power2::lemma_pow2_pos(k);
                assert((bit as u32) * pow2(k) <= u32::MAX) by {
                    assert(pow2(k) < pow2(bits as nat)) by {
                        vstd::arithmetic::power2::lemma_pow2_strictly_increases(k, bits as nat);
                    };
                    if bit == 0 {
                    } else {
                        assert(bit == 1);
                    }
                };
                lemma_u32_shl_is_mul(bit as u32, sh);
                let bp = bits_value(pre);
                assert(bp * (2 * pow2(k)) + bit * pow2(k) == (2 * bp + bit) * pow2(k))
                    by (nonlinear_arith);
                assert(bits_value(pre.push(bit)) * pow2(k) < pow2((i + 1) as nat) * pow2(k))
                    by (nonlinear_arith)
                    requires
                        bits_value(pre.push(bit)) < pow2((i + 1) as nat),
                        pow2(k) > 0,
                ;
                vstd::arithmetic::power2::lemma_pow2_pos(k);
            }
            byte += (bit as u32) << sh;
            i += 1;
        }
        proof {
            lemma2_to64();
            assert(i == bits);
            assert(pow2((bits - i) as nat) == 1);
            let v = bits_value(u.subrange(p0, p0 + i));
            assert(byte as nat == v * pow2((bits - i) as nat));
            assert(byte as nat == v) by (nonlinear_arith)
                requires
                    byte as nat == v * pow2((bits - i) as nat),
                    pow2((bits - i) as nat) == 1,
            ;
        }
        byte
    }

    fn read_bytes_alinged(&mut self, bytes: usize) -> (r: u32) {
        let ghost b0 = self.cursor_bytes as int;
        let mut byte: u32 = 0;
        for i in 0..bytes
            invariant
                self.wf(),
                b0 == old(self).cursor_bytes,
                b0 + bytes <= self.stream@.len(),
                self.stream@ == old(self).stream@,
                self.cursor == old(self).cursor,
                self.should_return_as_little_endian == old(self).should_return_as_little_endian,
                self.cursor_bytes == b0 + i,
                byte as nat == bytes_value(self.stream@.subrange(b0, b0 + i)) % u32_modulus(),
        {
            let s = self.stream[self.cursor_bytes];
            proof {
                let pre = self.stream@.subrange(b0, b0 + i);
                assert(self.stream@.subrange(b0, b0 + i + 1) =~= pre.push(s));
                assert(pre.push(s).drop_last() =~= pre);
                let bv = bytes_value(pre) as int;
                let m = u32_modulus() as int;
                assert(((byte << 8u32) | (s as u32)) as int == (byte as int * 256 + s as int) % 0x1_0000_0000)
                    by (bit_vector);
                lemma_mul_mod_noop_left(bv, 256, m);
                lemma_add_mod_noop((bv % m) * 256, s as int, m);
                lemma_add_mod_noop(bv * 256, s as int, m);
                lemma_small_mod(s as nat, m as nat);
                assert(((bv % m) * 256 % m + s) % m == ((bv % m) * 256 + s) % m) by {
                    lemma_add_mod_noop((bv % m) * 256, s as int, m);
                };
                assert(((bv * 256) % m + s) % m == (bv * 256 + s) % m);
            }
            byte = byte << 8 | s as u32;
            self.cursor_bytes += 1;
        }
        byte
    }

    fn read_next_bit(&mut self) -> (r: u8) {
        proof {
            lemma_unpack(self.stream@);
        }
        if self.cursor > 7 {
            self.cursor_bytes += 1;
            self.cursor = 0;
        }
        let sh: u8 = (7 - self.cursor) as u8;
        let bit = self.stream[self.cursor_bytes] >> sh & 1;
        proof {
            let b = self.stream@[self.cursor_bytes as int];
            assert(bit == bit_at(b, self.cursor as int));
            assert(unpack(self.stream@)[8 * self.cursor_bytes + self.cursor] == bit_at(b, self.cursor as int));
            assert((b >> sh) & 1 <= 1) by (bit_vector);
        }
        self.cursor += 1;
        bit
    }
}

impl BitReader {
    /// The bytes being read.
    pub fn stream_bytes(&self) -> (r: &[u8])
        ensures
            r@ == self.stream(),
    {
        self.stream.as_slice()
    }
}

/// A reader at the start of `stream`.
pub fn new(stream: Vec<u8>) -> (r: BitReader)
    ensures
        r.wf(),
        r.stream() == stream@,
        r.cursor() == 0,
        r.byte_cursor() == 0,
        !r.little_endian(),
{
    let _len = stream.len();
    BitReader { stream, cursor: 0, cursor_bytes: 0, should_return_as_little_endian: false }
}

} // verus!
