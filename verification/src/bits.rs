//! Mathematical model of bit streams: bits are `u8` values 0 or 1, bytes
//! carry their bits most significant first.

use vstd::prelude::*;
use vstd::arithmetic::power2::{pow2, lemma2_to64, lemma_pow2_unfold};

verus! {

/// Every element of `s` is a bit.
pub open spec fn is_bit_seq(s: Seq<u8>) -> bool {
    forall|i: int| 0 <= i < s.len() ==> #[trigger] s[i] <= 1
}

/// Big-endian value of a bit sequence (first bit most significant).
pub open spec fn bits_value(s: Seq<u8>) -> nat
    decreases s.len(),
{
    if s.len() == 0 {
        0
    } else {
        2 * bits_value(s.drop_last()) + s.last() as nat
    }
}

/// The `k`-th bit of `b`, counting from the most significant one.
pub open spec fn bit_at(b: u8, k: int) -> u8 {
    (b >> ((7 - k) as u8)) & 1
}

/// The eight bits of a byte, most significant first.
pub open spec fn byte_bits(b: u8) -> Seq<u8> {
    Seq::new(8, |k: int| bit_at(b, k))
}

/// `n` zero bits.
pub open spec fn zeros(n: nat) -> Seq<u8> {
    Seq::new(n, |i: int| 0u8)
}

/// The bits of a byte sequence, byte after byte.
pub open spec fn unpack(bytes: Seq<u8>) -> Seq<u8>
    decreases bytes.len(),
{
    if bytes.len() == 0 {
        Seq::empty()
    } else {
        unpack(bytes.drop_last()) + byte_bits(bytes.last())
    }
}

/// The byte whose bits are `p` followed by zeros (`p` holds at most 8 bits).
pub open spec fn pack_padded(p: Seq<u8>) -> nat {
    bits_value(p + zeros((8 - p.len()) as nat))
}

/// Big-endian value of a byte sequence.
pub open spec fn bytes_value(s: Seq<u8>) -> nat
    decreases s.len(),
{
    if s.len() == 0 {
        0
    } else {
        256 * bytes_value(s.drop_last()) + s.last() as nat
    }
}

/// Value of the bits `s` appended to a value `v` (shifting `v` left).
pub proof fn lemma_bits_value_concat(s: Seq<u8>, t: Seq<u8>)
    ensures
        bits_value(s + t) == bits_value(s) * pow2(t.len()) + bits_value(t),
    decreases t.len(),
{
    if t.len() == 0 {
        assert(s + t =~= s);
        lemma2_to64();
        assert(bits_value(t) == 0);
        assert(bits_value(s) * pow2(t.len()) == bits_value(s));
    } else {
        let t2 = t.drop_last();
        assert((s + t).drop_last() =~= s + t2);
        assert((s + t).last() == t.last());
        lemma_bits_value_concat(s, t2);
        lemma_pow2_unfold(t.len());
        let a = bits_value(s);
        let p = pow2(t2.len());
        assert(2 * (a * p) == a * (2 * p)) by (nonlinear_arith);
        assert(pow2(t.len()) == 2 * p);
        assert(bits_value(s + t) == 2 * bits_value(s + t2) + t.last());
        assert(bits_value(t) == 2 * bits_value(t2) + t.last());
        assert(bits_value(s + t) == a * pow2(t.len()) + bits_value(t));
    }
}

/// A bit sequence of length `n` has a value below `2^n`.
pub proof fn lemma_bits_value_bound(s: Seq<u8>)
    requires
        is_bit_seq(s),
    ensures
        bits_value(s) < pow2(s.len()),
    decreases s.len(),
{
    if s.len() == 0 {
        lemma2_to64();
    } else {
        assert(is_bit_seq(s.drop_last())) by {
            assert forall|i: int| 0 <= i < s.drop_last().len() implies #[trigger] s.drop_last()[i]
                <= 1 by {
                assert(s.drop_last()[i] == s[i]);
            }
        };
        assert(s.last() <= 1) by {
            assert(s[s.len() - 1] <= 1);
        };
        lemma_bits_value_bound(s.drop_last());
        lemma_pow2_unfold(s.len());
    }
}

/// The value of eight bits, written out.
pub proof fn lemma_bits_value8(s: Seq<u8>)
    requires
        s.len() == 8,
    ensures
        bits_value(s) == 128 * s[0] + 64 * s[1] + 32 * s[2] + 16 * s[3] + 8 * s[4] + 4 * s[5] + 2
            * s[6] + s[7],
{
    let s7 = s.drop_last();
    let s6 = s7.drop_last();
    let s5 = s6.drop_last();
    let s4 = s5.drop_last();
    let s3 = s4.drop_last();
    let s2 = s3.drop_last();
    let s1 = s2.drop_last();
    let s0 = s1.drop_last();
    assert(s0.len() == 0);
    assert(s1.last() == s[0] && s2.last() == s[1] && s3.last() == s[2] && s4.last() == s[3]);
    assert(s5.last() == s[4] && s6.last() == s[5] && s7.last() == s[6] && s.last() == s[7]);
    assert(bits_value(s0) == 0);
    assert(bits_value(s1) == s[0]);
    assert(bits_value(s2) == 2 * s[0] + s[1]);
    assert(bits_value(s3) == 4 * s[0] + 2 * s[1] + s[2]);
    assert(bits_value(s4) == 8 * s[0] + 4 * s[1] + 2 * s[2] + s[3]);
    assert(bits_value(s5) == 16 * s[0] + 8 * s[1] + 4 * s[2] + 2 * s[3] + s[4]);
    assert(bits_value(s6) == 32 * s[0] + 16 * s[1] + 8 * s[2] + 4 * s[3] + 2 * s[4] + s[5]);
    assert(bits_value(s7) == 64 * s[0] + 32 * s[1] + 16 * s[2] + 8 * s[3] + 4 * s[4] + 2 * s[5]
        + s[6]);
}

/// The bits of a byte are bits, and their value is the byte.
pub proof fn lemma_byte_bits(b: u8)
    ensures
        is_bit_seq(byte_bits(b)),
        byte_bits(b).len() == 8,
        bits_value(byte_bits(b)) == b,
{
    let s = byte_bits(b);
    lemma_bits_value8(s);
    assert forall|i: int| 0 <= i < 8 implies #[trigger] s[i] <= 1 by {
        let k = (7 - i) as u8;
        assert((b >> k) & 1 <= 1) by (bit_vector);
    };
    assert(b == 128 * ((b >> 7u8) & 1) + 64 * ((b >> 6u8) & 1) + 32 * ((b >> 5u8) & 1) + 16 * ((
    b >> 4u8) & 1) + 8 * ((b >> 3u8) & 1) + 4 * ((b >> 2u8) & 1) + 2 * ((b >> 1u8) & 1) + ((b
        >> 0u8) & 1)) by (bit_vector);
}

/// Eight bits make a byte whose bits are those eight bits.
pub proof fn lemma_bits_byte_roundtrip(p: Seq<u8>)
    requires
        p.len() == 8,
        is_bit_seq(p),
    ensures
        bits_value(p) < 256,
        byte_bits(bits_value(p) as u8) == p,
{
    lemma_bits_value8(p);
    let (b0, b1, b2, b3, b4, b5, b6, b7) = (p[0], p[1], p[2], p[3], p[4], p[5], p[6], p[7]);
    assert(b0 <= 1 && b1 <= 1 && b2 <= 1 && b3 <= 1 && b4 <= 1 && b5 <= 1 && b6 <= 1 && b7 <= 1);
    let v = bits_value(p);
    assert(v < 256);
    let b = v as u8;
    assert(b == 128 * b0 + 64 * b1 + 32 * b2 + 16 * b3 + 8 * b4 + 4 * b5 + 2 * b6 + b7);
    assert(b0 <= 1 && b1 <= 1 && b2 <= 1 && b3 <= 1 && b4 <= 1 && b5 <= 1 && b6 <= 1 && b7 <= 1
        && b == 128 * b0 + 64 * b1 + 32 * b2 + 16 * b3 + 8 * b4 + 4 * b5 + 2 * b6 + b7 ==> ((b
        >> 7u8) & 1) == b0 && ((b >> 6u8) & 1) == b1 && ((b >> 5u8) & 1) == b2 && ((b >> 4u8) & 1)
        == b3 && ((b >> 3u8) & 1) == b4 && ((b >> 2u8) & 1) == b5 && ((b >> 1u8) & 1) == b6 && ((b
        >> 0u8) & 1) == b7) by (bit_vector);
    assert(byte_bits(b) =~= p);
}

/// Length of the unpacked bits, and where each bit comes from.
pub proof fn lemma_unpack(bytes: Seq<u8>)
    ensures
        unpack(bytes).len() == 8 * bytes.len(),
        forall|k: int, j: int|
            0 <= k < bytes.len() && 0 <= j < 8 ==> #[trigger] unpack(bytes)[8 * k + j]
                == bit_at(bytes[k], j),
        is_bit_seq(unpack(bytes)),
    decreases bytes.len(),
{
    if bytes.len() > 0 {
        let init = bytes.drop_last();
        lemma_unpack(init);
        lemma_byte_bits(bytes.last());
        assert forall|k: int, j: int| 0 <= k < bytes.len() && 0 <= j < 8 implies #[trigger] unpack(
            bytes,
        )[8 * k + j] == bit_at(bytes[k], j) by {
            if k < init.len() {
                assert(init[k] == bytes[k]);
            }
        };
        let u = unpack(bytes);
        assert forall|i: int| 0 <= i < u.len() implies #[trigger] u[i] <= 1 by {
            if i >= unpack(init).len() {
                assert(u[i] == byte_bits(bytes.last())[i - unpack(init).len()]);
            }
        };
    }
}

/// Unpacking distributes over concatenation.
pub proof fn lemma_unpack_concat(a: Seq<u8>, b: Seq<u8>)
    ensures
        unpack(a + b) == unpack(a) + unpack(b),
    decreases b.len(),
{
    if b.len() == 0 {
        assert(a + b =~= a);
        assert(unpack(a) + unpack(b) =~= unpack(a));
    } else {
        assert((a + b).drop_last() =~= a + b.drop_last());
        assert((a + b).last() == b.last());
        lemma_unpack_concat(a, b.drop_last());
        assert(unpack(a + b) =~= unpack(a) + unpack(b));
    }
}

/// The value of one and of two bytes.
pub proof fn lemma_bytes_value_short(s: Seq<u8>)
    ensures
        s.len() == 1 ==> bytes_value(s) == s[0],
        s.len() == 2 ==> bytes_value(s) == 256 * s[0] + s[1],
{
    if s.len() == 1 {
        assert(s.drop_last() =~= Seq::<u8>::empty());
        assert(bytes_value(Seq::<u8>::empty()) == 0);
    } else if s.len() == 2 {
        assert(s.drop_last().drop_last() =~= Seq::<u8>::empty());
        assert(bytes_value(Seq::<u8>::empty()) == 0);
        assert(s.drop_last()[0] == s[0]);
        assert(bytes_value(s.drop_last()) == s[0]);
    }
}

/// Shifting a bit left by `i < 8` places multiplies it by `2^i`.
pub proof fn lemma_shl_bit(b: u8, i: usize)
    requires
        b <= 1,
        i < 8,
    ensures
        (b << i) as nat == b * pow2(i as nat),
        (b << i) as nat <= pow2(i as nat),
{
    lemma2_to64();
    if i == 0 {
        assert(b << 0usize == b) by (bit_vector);
    } else if i == 1 {
        assert(b <= 1 ==> b << 1usize == 2 * b) by (bit_vector);
    } else if i == 2 {
        assert(b <= 1 ==> b << 2usize == 4 * b) by (bit_vector);
    } else if i == 3 {
        assert(b <= 1 ==> b << 3usize == 8 * b) by (bit_vector);
    } else if i == 4 {
        assert(b <= 1 ==> b << 4usize == 16 * b) by (bit_vector);
    } else if i == 5 {
        assert(b <= 1 ==> b << 5usize == 32 * b) by (bit_vector);
    } else if i == 6 {
        assert(b <= 1 ==> b << 6usize == 64 * b) by (bit_vector);
    } else {
        assert(b <= 1 ==> b << 7usize == 128 * b) by (bit_vector);
    }
}

} // verus!
