use quadtree_image::bitreader::{self, Functions as ReaderFunctions};
use quadtree_image::bitwriter::{self, Functions as WriterFunctions};

#[test]
fn new_writer_is_empty() {
    let w = bitwriter::new();
    assert_eq!(w.return_buffer(), &[] as &[u8]);
    assert_eq!(w.bit_buffer(), &[0u8; 8]);
    assert_eq!(w.allocated(), 8196);
}

#[test]
fn eight_bits_stay_pending_until_the_ninth() {
    let mut w = bitwriter::new();
    for b in [1u8, 0, 1, 1, 0, 0, 1, 0] {
        w.append_bit(b);
    }
    assert_eq!(w.return_buffer(), &[] as &[u8]);
    assert_eq!(w.bit_buffer(), &[1, 0, 1, 1, 0, 0, 1, 0]);
    w.append_bit(1);
    assert_eq!(w.return_buffer(), &[0b1011_0010]);
    assert_eq!(w.bit_buffer(), &[1, 0, 0, 0, 0, 0, 0, 0]);
}

#[test]
fn flush_pads_with_zeros() {
    let mut w = bitwriter::new();
    w.append_bit(1);
    w.append_bit(1);
    w.append_bit(0);
    w.append_bit(1);
    w.flush();
    assert_eq!(w.return_buffer(), &[0b1101_0000]);
    assert_eq!(w.bit_buffer(), &[0u8; 8]);
}

#[test]
fn flush_of_an_empty_writer_writes_a_zero_byte() {
    let mut w = bitwriter::new();
    w.flush();
    assert_eq!(w.return_buffer(), &[0]);
}

#[test]
fn unaligned_byte_is_written_most_significant_bit_first() {
    let mut w = bitwriter::new();
    w.append_bit(1);
    w.append_byte_unalinged(0xA5);
    w.flush();
    // 1 then 1010_0101, padded: 1101_0010 1000_0000
    assert_eq!(w.return_buffer(), &[0b1101_0010, 0b1000_0000]);
}

#[test]
fn unaligned_byte_into_an_empty_writer_stays_pending() {
    let mut w = bitwriter::new();
    w.append_byte_unalinged(0x3C);
    assert_eq!(w.return_buffer(), &[] as &[u8]);
    assert_eq!(w.bit_buffer(), &[0, 0, 1, 1, 1, 1, 0, 0]);
    w.flush();
    assert_eq!(w.return_buffer(), &[0x3C]);
}

#[test]
fn aligned_byte_goes_before_pending_bits() {
    let mut w = bitwriter::new();
    w.append_bit(1);
    w.append_byte_alinged(0x42);
    w.flush();
    assert_eq!(w.return_buffer(), &[0x42, 0x80]);
}

#[test]
fn buffer_grows_when_full() {
    let mut w = bitwriter::new();
    for _ in 0..8196 {
        w.append_byte_alinged(7);
    }
    assert_eq!(w.allocated(), 8196);
    w.append_bit(1);
    assert_eq!(w.allocated(), 2 * 8196);
    w.flush();
    assert_eq!(w.return_buffer().len(), 8197);
    assert_eq!(w.return_buffer()[8196], 0x80);
}

#[test]
fn room_check() {
    let w = bitwriter::new();
    assert!(w.has_room_for(1000));
}

#[test]
fn reader_reads_bits_most_significant_first() {
    let mut r = bitreader::new(vec![0b1011_0010, 0b0100_0000]);
    let mut bits = Vec::new();
    for _ in 0..10 {
        bits.push(r.read_next_bit());
    }
    assert_eq!(bits, vec![1, 0, 1, 1, 0, 0, 1, 0, 0, 1]);
}

#[test]
fn reader_reads_unaligned_numbers() {
    let mut r = bitreader::new(vec![0b1011_0010, 0b0100_0000]);
    assert_eq!(r.read_bits_unalinged(3), 0b101);
    assert_eq!(r.read_bits_unalinged(8), 0b1001_0010);
    assert_eq!(r.read_bits_unalinged(0), 0);
    assert_eq!(r.read_bits_unalinged(2), 0b00);
}

#[test]
fn reader_reads_32_bits() {
    let mut r = bitreader::new(vec![0xDE, 0xAD, 0xBE, 0xEF]);
    assert_eq!(r.read_bits_unalinged(32), 0xDEAD_BEEF);
}

#[test]
fn reader_reads_aligned_big_endian_bytes() {
    let mut r = bitreader::new(vec![0x12, 0x34, 0x56, 0x01, 0x02, 0x03, 0x04, 0x05]);
    assert_eq!(r.read_bytes_alinged(1), 0x12);
    assert_eq!(r.read_bytes_alinged(2), 0x3456);
    // only the low 32 bits of a longer number are kept
    assert_eq!(r.read_bytes_alinged(5), 0x0203_0405);
}

#[test]
fn aligned_reads_ignore_the_bit_cursor() {
    let mut r = bitreader::new(vec![0xF0, 0x0F, 0xAA]);
    assert_eq!(r.read_next_bit(), 1);
    assert_eq!(r.read_bytes_alinged(1), 0xF0);
    // the bit cursor stayed at bit 1, now of byte 1 (0000_1111)
    assert_eq!(r.read_next_bit(), 0);
    assert_eq!(r.read_bytes_alinged(1), 0x0F);
}

#[test]
fn byte_order_flag_changes_nothing_read() {
    let mut r = bitreader::new(vec![0x12, 0x34]);
    r.return_as_little_endian(true);
    assert_eq!(r.read_bytes_alinged(2), 0x1234);
}

#[test]
fn written_bits_read_back() {
    let pattern: Vec<u8> = (0..100u32).map(|i| ((i * 7 + i / 3) % 2) as u8).collect();
    let mut w = bitwriter::new();
    for &b in &pattern {
        w.append_bit(b);
    }
    w.append_byte_unalinged(0x9C);
    w.flush();
    let bytes = w.return_buffer().to_vec();
    assert_eq!(bytes.len(), 14);
    let mut r = bitreader::new(bytes);
    for &b in &pattern {
        assert_eq!(r.read_next_bit(), b);
    }
    assert_eq!(r.read_bits_unalinged(8), 0x9C);
    // the padding is zeros
    for _ in 0..4 {
        assert_eq!(r.read_next_bit(), 0);
    }
}
