//! A bit writer: bits are gathered eight at a time and packed, most
//! significant first, into a growing byte buffer.

use vstd::prelude::*;
use vstd::slice::slice_subrange;
use vstd::arithmetic::power2::{pow2, lemma2_to64};
use crate::bits::{
    is_bit_seq, bits_value, byte_bits, zeros, unpack, pack_padded, lemma_bits_value_concat,
    lemma_bits_value_bound, lemma_shl_bit, lemma_byte_bits, lemma_bits_byte_roundtrip,
    lemma_unpack,
};

verus! {

/// How many bytes the buffer grows by whenever it is full.
pub const GROWTH: usize = 8196;

/// A writer of single bits and of whole bytes.
pub struct BitWriter {
    buffer: Vec<u8>,
    eight_bit_buffer: Vec<u8>,
    current_index: usize,
    current_bit: usize,
}

/// One bit appended, on the sizes of a writer's state (bytes written, bits
/// pending, bytes allocated): a full buffer grows first, then eight pending
/// bits are packed into a byte.
pub open spec fn append_step(s: (int, int, int)) -> (int, int, int) {
    let cap = if s.0 == s.2 {
        s.2 + GROWTH
    } else {
        s.2
    };
    if s.1 == 8 {
        (s.0 + 1, 1, cap)
    } else {
        (s.0, s.1 + 1, cap)
    }
}

/// `k` bits appended, on the sizes of a writer's state.
pub open spec fn after_appends(s: (int, int, int), k: nat) -> (int, int, int)
    decreases k,
{
    if k == 0 {
        s
    } else {
        append_step(after_appends(s, (k - 1) as nat))
    }
}

/// Appending `a` bits and then `b` bits is appending `a + b` bits.
pub proof fn lemma_after_appends(s: (int, int, int), a: nat, b: nat)
    ensures
        after_appends(after_appends(s, a), b) == after_appends(s, a + b),
    decreases b,
{
    if b > 0 {
        lemma_after_appends(s, a, (b - 1) as nat);
    }
}

/// The sizes of a writer's state: bytes written, bits pending, bytes
/// allocated.
pub open spec fn shape(w: &BitWriter) -> (int, int, int) {
    (w.bytes().len() as int, w.pending().len() as int, w.capacity() as int)
}

/// The operations of a bit writer.
///
/// A writer holds the bytes written so far (`bytes`), up to eight bits
/// that are not packed into a byte yet (`pending`), and an allocated
/// buffer of `capacity` bytes.
pub trait Functions {
    /// The writer's internal invariant.
    spec fn wf(&self) -> bool;

    /// The bytes written so far.
    spec fn bytes(&self) -> Seq<u8>;

    /// The bits appended since the last packed byte.
    spec fn pending(&self) -> Seq<u8>;

    /// The number of bytes allocated.
    spec fn capacity(&self) -> nat;

    /// Packs the pending bits, padded with zeros, into one byte.
    fn flush(&mut self)
        requires
            old(self).wf(),
            old(self).bytes().len() < old(self).capacity(),
        ensures
            final(self).wf(),
            final(self).bytes() == old(self).bytes().push(pack_padded(old(self).pending()) as u8),
            final(self).pending() == Seq::<u8>::empty(),
            final(self).capacity() == old(self).capacity(),
    ;

    /// Appends one bit. When eight bits are pending already, they are
    /// packed into a byte first.
    fn append_bit(&mut self, bit: u8)
        requires
            old(self).wf(),
            bit <= 1,
            old(self).bytes().len() == old(self).capacity() ==> old(self).capacity() + GROWTH
                <= usize::MAX,
        ensures
            final(self).wf(),
            old(self).pending().len() == 8 ==> final(self).bytes() == old(self).bytes().push(
                bits_value(old(self).pending()) as u8,
            ) && final(self).pending() == seq![bit],
            old(self).pending().len() < 8 ==> final(self).bytes() == old(self).bytes()
                && final(self).pending() == old(self).pending().push(bit),
            final(self).capacity() == if old(self).bytes().len() == old(self).capacity() {
                old(self).capacity() + GROWTH
            } else {
                old(self).capacity() as int
            },
            unpack(final(self).bytes()) + final(self).pending() == (unpack(old(self).bytes())
                + old(self).pending()).push(bit),
            (final(self).bytes().len() as int, final(self).pending().len() as int,
                final(self).capacity() as int) == append_step(
                (
                    old(self).bytes().len() as int,
                    old(self).pending().len() as int,
                    old(self).capacity() as int,
                ),
            ),
    ;

    /// The bytes written so far.
    fn return_buffer(&self) -> (r: &[u8])
        requires
            self.wf(),
        ensures
            r@ == self.bytes(),
    ;

    /// Writes a whole byte at the current byte position; pending bits stay
    /// pending.
    fn append_byte_alinged(&mut self, byte: u8)
        requires
            old(self).wf(),
            old(self).bytes().len() < old(self).capacity(),
        ensures
            final(self).wf(),
            final(self).bytes() == old(self).bytes().push(byte),
            final(self).pending() == old(self).pending(),
            final(self).capacity() == old(self).capacity(),
    ;

    /// Appends the eight bits of a byte, most significant first.
    fn append_byte_unalinged(&mut self, byte: u8)
        requires
            old(self).wf(),
            old(self).bytes().len() + 1 >= old(self).capacity() ==> old(self).capacity() + GROWTH
                <= usize::MAX,
        ensures
            final(self).wf(),
            unpack(final(self).bytes()) + final(self).pending() == unpack(old(self).bytes())
                + old(self).pending() + byte_bits(byte),
            final(self).pending().len() == if old(self).pending().len() == 0 {
                8
            } else {
                old(self).pending().len()
            },
            final(self).capacity() == if old(self).bytes().len() == old(self).capacity() || (
            old(self).bytes().len() + 1 == old(self).capacity() && old(self).pending().len()
                >= 2) {
                old(self).capacity() + GROWTH
            } else {
                old(self).capacity() as int
            },
            (final(self).bytes().len() as int, final(self).pending().len() as int,
                final(self).capacity() as int) == after_appends(
                (
                    old(self).bytes().len() as int,
                    old(self).pending().len() as int,
                    old(self).capacity() as int,
                ),
                8,
            ),
    ;

    /// The eight-bit staging buffer: the pending bits followed by zeros.
    fn bit_buffer(&self) -> (r: &[u8])
        requires
            self.wf(),
        ensures
            r@ == self.pending() + zeros((8 - self.pending().len()) as nat),
    ;
}

impl BitWriter {
    /// Whether the writer can take `k` more bits without its buffer size
    /// overflowing.
    pub fn has_room_for(&self, k: u64) -> (b: bool)
        requires
            self.wf(),
        ensures
            b == has_room(self, k as int),
    {
        proof {
            lemma_writer_wf(self);
        }
        let used: u128 = 8 * (self.current_index as u128) + self.current_bit as u128;
        used + k as u128 + 8 * (GROWTH as u128) + 8 <= 8 * (usize::MAX as u128)
    }

    /// The number of bytes allocated.
    pub fn allocated(&self) -> (n: usize)
        requires
            self.wf(),
        ensures
            n == self.capacity(),
    {
        self.buffer.len()
    }

    /// Packs the eight staged bits into a byte and clears them.
    fn take_byte(&mut self) -> (byte: u8)
        requires
            old(self).eight_bit_buffer@.len() == 8,
            is_bit_seq(old(self).eight_bit_buffer@),
        ensures
            byte == bits_value(old(self).eight_bit_buffer@),
            final(self).eight_bit_buffer@ == zeros(8),
            final(self).buffer == old(self).buffer,
            final(self).current_index == old(self).current_index,
            final(self).current_bit == old(self).current_bit,
    {
        let ghost bb = self.eight_bit_buffer@;
        let mut byte: u8 = 0;
        for i in 0..8
            invariant
                bb.len() == 8,
                is_bit_seq(bb),
                byte as nat == bits_value(bb.subrange(8 - i, 8)),
                self.eight_bit_buffer@ == bb.subrange(0, 8 - i) + zeros(i as nat),
                self.buffer == old(self).buffer,
                self.current_index == old(self).current_index,
                self.current_bit == old(self).current_bit,
        {
            let b = self.eight_bit_buffer[7 - i];
            assert(b == bb[7 - i]);
            proof {
                lemma_shl_bit(b, i);
                let tail = bb.subrange(8 - i, 8);
                assert(bb.subrange(7 - i, 8) =~= seq![b] + tail);
                lemma_bits_value_concat(seq![b], tail);
                assert(bits_value(seq![b]) == b) by {
                    assert(seq![b].drop_last() =~= Seq::<u8>::empty());
                    assert(bits_value(Seq::<u8>::empty()) == 0);
                    assert(seq![b].last() == b);
                };
                assert(is_bit_seq(bb.subrange(7 - i, 8)));
                lemma_bits_value_bound(bb.subrange(7 - i, 8));
                lemma2_to64();
                assert(pow2((i + 1) as nat) <= 256);
            }
            byte += b << i;
            self.eight_bit_buffer.set(7 - i, 0);
            assert(self.eight_bit_buffer@ =~= bb.subrange(0, 8 - (i + 1)) + zeros((i + 1) as nat));
        }
        assert(bb.subrange(0, 8) =~= bb);
        assert(self.eight_bit_buffer@ =~= zeros(8));
        byte
    }
}

/// The staged bits, followed by zeros, make up the whole staging buffer.
proof fn lemma_staged(w: &BitWriter)
    requires
        w.wf(),
    ensures
        w.eight_bit_buffer@ == w.pending() + zeros((8 - w.pending().len()) as nat),
        bits_value(w.eight_bit_buffer@) == pack_padded(w.pending()),
        is_bit_seq(w.pending()),
{
    assert(w.eight_bit_buffer@ =~= w.pending() + zeros((8 - w.pending().len()) as nat));
}

/// What the invariant of a writer tells its users: the pending bits are at
/// most eight bits, and the bytes written fit in the allocated buffer.
pub proof fn lemma_writer_wf(w: &BitWriter)
    requires
        w.wf(),
    ensures
        w.pending().len() <= 8,
        is_bit_seq(w.pending()),
        w.bytes().len() <= w.capacity(),
        w.capacity() <= w.bytes().len() + GROWTH,
        written(w).len() == 8 * w.bytes().len() + w.pending().len(),
        is_bit_seq(written(w)),
{
    lemma_unpack(w.bytes());
    let s = written(w);
    assert forall|i: int| 0 <= i < s.len() implies #[trigger] s[i] <= 1 by {
        if i >= unpack(w.bytes()).len() {
            assert(s[i] == w.pending()[i - unpack(w.bytes()).len()]);
        }
    };
}

/// All bits written so far, packed or pending.
pub open spec fn written(w: &BitWriter) -> Seq<u8> {
    unpack(w.bytes()) + w.pending()
}

/// The writer can take `k` more bits without its buffer size overflowing.
pub open spec fn has_room(w: &BitWriter, k: int) -> bool {
    written(w).len() + k + 8 * GROWTH + 8 <= 8 * usize::MAX
}

/// Flushing writes every bit written so far, then zeros up to the end of the
/// last byte.
pub proof fn law_flushed_bits(w: &BitWriter)
    requires
        w.wf(),
    ensures
        unpack(w.bytes().push(pack_padded(w.pending()) as u8)) == written(w) + zeros(
            (8 - w.pending().len()) as nat,
        ),
{
    lemma_writer_wf(w);
    let pending = w.pending();
    let padded_bits = pending + zeros((8 - pending.len()) as nat);
    assert(is_bit_seq(padded_bits)) by {
        assert forall|i: int| 0 <= i < padded_bits.len() implies #[trigger] padded_bits[i] <= 1 by {
            if i < pending.len() {
                assert(padded_bits[i] == pending[i]);
            } else {
                assert(padded_bits[i] == 0);
            }
        };
    };
    lemma_bits_byte_roundtrip(padded_bits);
    let b = pack_padded(pending) as u8;
    assert(w.bytes().push(b).drop_last() =~= w.bytes());
    assert(unpack(w.bytes().push(b)) =~= written(w) + zeros((8 - pending.len()) as nat));
}

/// Room for `k` more bits means room for the next bit or byte.
pub proof fn lemma_room(w: &BitWriter, k: int)
    requires
        w.wf(),
        has_room(w, k),
        k >= 1,
    ensures
        w.bytes().len() == w.capacity() ==> w.capacity() + GROWTH <= usize::MAX,
        w.bytes().len() + 1 >= w.capacity() ==> w.capacity() + GROWTH <= usize::MAX,
{
    lemma_writer_wf(w);
}

impl Functions for BitWriter {
    closed spec fn wf(&self) -> bool {
        &&& self.eight_bit_buffer@.len() == 8
        &&& is_bit_seq(self.eight_bit_buffer@)
        &&& self.current_bit <= 8
        &&& forall|i: int| self.current_bit <= i < 8 ==> #[trigger] self.eight_bit_buffer@[i] == 0
        &&& self.current_index <= self.buffer@.len()
        &&& self.buffer@.len() <= self.current_index + GROWTH
    }

    closed spec fn bytes(&self) -> Seq<u8> {
        self.buffer@.subrange(0, self.current_index as int)
    }

    closed spec fn pending(&self) -> Seq<u8> {
        self.eight_bit_buffer@.subrange(0, self.current_bit as int)
    }

    closed spec fn capacity(&self) -> nat {
        self.buffer@.len()
    }

    fn flush(&mut self) {
        proof {
            lemma_staged(self);
        }
        let byte = self.take_byte();
        assert(self.current_index < self.buffer.len());
        self.buffer.set(self.current_index, byte);
        self.current_bit = 0;
        self.current_index += 1;
        assert(self.bytes() =~= old(self).bytes().push(pack_padded(old(self).pending()) as u8));
        assert(self.pending() =~= Seq::<u8>::empty());
    }

    fn append_bit(&mut self, bit: u8) {
        let ghost old_stream = unpack(self.bytes()) + self.pending();
        if self.current_index == self.buffer.len() {
            let new_len = self.buffer.len() + GROWTH;
            self.buffer.resize(new_len, 0);
        }
        assert(self.bytes() == old(self).bytes());
        if self.current_bit > 7 {
            proof {
                lemma_staged(self);
                assert(self.pending() =~= self.eight_bit_buffer@);
            }
            let byte = self.take_byte();
            self.buffer.set(self.current_index, byte);
            self.current_bit = 0;
            self.current_index += 1;
            proof {
                assert(self.bytes() =~= old(self).bytes().push(byte));
                lemma_bits_byte_roundtrip(old(self).pending());
                assert(unpack(self.bytes()) == unpack(old(self).bytes()) + byte_bits(byte)) by {
                    assert(self.bytes().drop_last() =~= old(self).bytes());
                };
            }
        }
        let ghost mid = self.eight_bit_buffer@;
        self.eight_bit_buffer.set(self.current_bit, bit);
        self.current_bit += 1;
        assert(self.pending() =~= mid.subrange(0, self.current_bit - 1).push(bit));
        assert(unpack(self.bytes()) + self.pending() =~= old_stream.push(bit));
    }

    fn return_buffer(&self) -> (r: &[u8]) {
        slice_subrange(self.buffer.as_slice(), 0, self.current_index)
    }

    fn append_byte_alinged(&mut self, byte: u8) {
        assert(self.current_index < self.buffer.len());
        self.buffer.set(self.current_index, byte);
        self.current_index += 1;
        assert(self.bytes() =~= old(self).bytes().push(byte));
    }

    fn append_byte_unalinged(&mut self, byte: u8) {
        proof {
            lemma_byte_bits(byte);
        }
        let ghost start = unpack(self.bytes()) + self.pending();
        let ghost p0 = self.pending().len();
        proof {
            lemma_writer_wf(self);
        }
        let ghost c0 = self.capacity();
        let ghost i0 = self.bytes().len();
        for i in 0..8
            invariant
                self.wf(),
                shape(self) == after_appends(shape(old(self)), i as nat),
                p0 == old(self).pending().len(),
                p0 <= 8,
                c0 == old(self).capacity(),
                i0 == old(self).bytes().len(),
                i0 + 1 >= c0 ==> c0 + GROWTH <= usize::MAX,
                start == unpack(old(self).bytes()) + old(self).pending(),
                unpack(self.bytes()) + self.pending() == start + byte_bits(byte).subrange(0, i as int),
                i == 0 ==> self.pending().len() == p0 && self.bytes().len() == i0,
                i > 0 ==> self.pending().len() == if p0 == 0 { i as int } else { (p0 as int + i as int - 1) % 8 + 1 },
                i > 0 ==> self.bytes().len() == i0 + if p0 > 0 && p0 + i as int > 8 { 1int } else { 0int },
                self.capacity() == if i > 0 && (i0 == c0 || (i0 + 1 == c0 && p0 >= 2 && p0 + i as int > 9)) {
                    c0 + GROWTH
                } else {
                    c0 as int
                },
        {
            let sh: u8 = (7 - i) as u8;
            let bit = (byte >> sh) & 1;
            assert(bit == byte_bits(byte)[i as int]);
            assert((byte >> sh) & 1 <= 1) by (bit_vector);
            let ghost pl = self.pending().len();
            proof {
                lemma_writer_wf(self);
                if p0 > 0 && i > 0 {
                    let k: int = p0 + i as int - 1;
                    assert(k % 8 == 7 <==> k == 7) by (nonlinear_arith)
                        requires
                            1 <= k <= 14,
                    ;
                    assert(pl == 8 <==> p0 + i == 8);
                }
            }
            self.append_bit(bit);
            assert(byte_bits(byte).subrange(0, i + 1) =~= byte_bits(byte).subrange(0, i as int).push(bit));
            assert((start + byte_bits(byte).subrange(0, i as int)).push(bit) =~= start + byte_bits(byte).subrange(0, i + 1));
        }
        assert(byte_bits(byte).subrange(0, 8) =~= byte_bits(byte));
    }

    fn bit_buffer(&self) -> (r: &[u8]) {
        proof {
            lemma_staged(self);
        }
        self.eight_bit_buffer.as_slice()
    }
}

/// A writer with nothing written and an empty staging buffer.
pub fn new() -> (w: BitWriter)
    ensures
        w.wf(),
        w.bytes() == Seq::<u8>::empty(),
        w.pending() == Seq::<u8>::empty(),
        w.capacity() == GROWTH,
{
    let w = BitWriter {
        buffer: vec![0; GROWTH],
        eight_bit_buffer: vec![0; 8],
        current_index: 0,
        current_bit: 0,
    };
    assert(w.bytes() =~= Seq::<u8>::empty());
    assert(w.pending() =~= Seq::<u8>::empty());
    w
}

} // verus!
