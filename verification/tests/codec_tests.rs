use quadtree_image::bitreader::{self, Functions as ReaderFunctions};
use quadtree_image::bitwriter::{self, Functions as WriterFunctions};
use quadtree_image::compress::{compress, recursive_block_compression, return_index_from_xy};
use quadtree_image::decode::{decode, decode_recursive, fill_colour, plane_end_checked, tree_end};

fn bits_of(bytes: &[u8], n: usize) -> Vec<u8> {
    (0..n).map(|i| (bytes[i / 8] >> (7 - i % 8)) & 1).collect()
}

fn encode_block(img: &Vec<u8>, block: u8, dist: u8, level: u8, width: u16, last: i16, count: u8) -> (Vec<u8>, i16, u8) {
    let mut w = bitwriter::new();
    let mut last_pixel = last;
    let mut count = count;
    recursive_block_compression(img, block, dist, level, &mut last_pixel, &mut count, 0, 0, 0, block as u16, block as u16, width, &mut w);
    w.flush();
    (w.return_buffer().to_vec(), last_pixel, count)
}

#[test]
fn index_from_xy() {
    assert_eq!(return_index_from_xy(640, 3, 2), 1283);
    assert_eq!(quadtree_image::decode::return_index_from_xy(640, 3, 2), 1283);
    assert_eq!(return_index_from_xy(65535, 65535, 65535), 65535 * 65535 + 65535);
}

#[test]
fn flat_block_is_one_leaf_with_its_average() {
    // 2x2 block of 10, 11, 12, 13: spread 3, 3 * 2 <= 2 * 1 * 3
    let img = vec![10, 11, 12, 13];
    let (bytes, last, count) = encode_block(&img, 2, 2, 3, 2, 255, 0);
    // leaf, new colour, 11 = 0000_1011
    assert_eq!(bits_of(&bytes, 10), vec![1, 0, 0, 0, 0, 0, 1, 0, 1, 1]);
    assert_eq!(last, 11);
    assert_eq!(count, 0);
}

#[test]
fn block_near_the_last_colour_repeats_it() {
    // average 11.5 is within 4 of 14
    let img = vec![10, 11, 12, 13];
    let (bytes, last, count) = encode_block(&img, 2, 2, 3, 2, 14, 1);
    assert_eq!(bits_of(&bytes, 2), vec![1, 1]);
    assert_eq!(last, 14);
    assert_eq!(count, 2);
}

#[test]
fn repeats_stop_after_four() {
    let img = vec![10, 11, 12, 13];
    let (bytes, last, count) = encode_block(&img, 2, 2, 3, 2, 14, 4);
    assert_eq!(bits_of(&bytes, 10), vec![1, 0, 0, 0, 0, 0, 1, 0, 1, 1]);
    assert_eq!(last, 11);
    assert_eq!(count, 0);
}

#[test]
fn distance_of_exactly_four_repeats() {
    // average 6 exactly, last 10
    let img = vec![6, 6, 6, 6];
    let (bytes, last, _) = encode_block(&img, 2, 0, 0, 2, 10, 0);
    assert_eq!(bits_of(&bytes, 2), vec![1, 1]);
    assert_eq!(last, 10);
    // average 5.75 is more than 4 from 10
    let img = vec![5, 6, 6, 6];
    let (bytes, last, _) = encode_block(&img, 2, 1, 2, 2, 10, 0);
    assert_eq!(bits_of(&bytes, 2), vec![1, 0]);
    assert_eq!(last, 5);
}

#[test]
fn spread_block_is_split_into_quarters() {
    // spread 200 * 2 > 10 * 1 * 1
    let img = vec![0, 200, 100, 50];
    let (bytes, last, count) = encode_block(&img, 2, 10, 1, 2, 255, 0);
    let mut expected = vec![0];
    for v in [0u8, 200, 100, 50] {
        expected.push(1);
        expected.push(0);
        for k in 0..8 {
            expected.push((v >> (7 - k)) & 1);
        }
    }
    assert_eq!(bits_of(&bytes, 41), expected);
    assert_eq!(last, 50);
    assert_eq!(count, 0);
}

#[test]
fn threshold_grows_with_depth() {
    // 4x4 block: top-left quarter spread 2, whole block spread 60
    let mut img = vec![0u8; 16];
    for y in 0..4 {
        for x in 0..4 {
            img[y * 4 + x] = if x < 2 && y < 2 { (x + y) as u8 } else { 60 };
        }
    }
    // whole: 60 * 4 > 1 * 1 * 30; quarter: 2 * 2 <= 1 * 2 * 30
    let (bytes, _, _) = encode_block(&img, 4, 1, 30, 4, 255, 0);
    let bits = bits_of(&bytes, 1 + 10 + 10 + 2 + 2);
    assert_eq!(bits[0], 0);
    // top-left average 1
    assert_eq!(&bits[1..11], &[1, 0, 0, 0, 0, 0, 0, 0, 0, 1]);
    // top-right average 60
    assert_eq!(&bits[11..21], &[1, 0, 0, 0, 1, 1, 1, 1, 0, 0]);
    // the last two repeat 60
    assert_eq!(&bits[21..25], &[1, 1, 1, 1]);
}

#[test]
fn fill_colour_paints_a_rectangle() {
    let mut img = vec![0u8; 12];
    fill_colour(&mut img, 9, 4, 1, 1, 3, 3);
    assert_eq!(img, vec![0, 0, 0, 0, 0, 9, 9, 0, 0, 9, 9, 0]);
    let mut img = vec![5u8; 4];
    fill_colour(&mut img, 9, 2, 1, 1, 1, 2);
    assert_eq!(img, vec![5, 5, 5, 5]);
}

#[test]
fn decoding_a_split_block() {
    // split; leaf colour 7; leaf repeat; leaf colour 200; leaf repeat
    let mut bits: Vec<u8> = vec![0, 1, 0];
    for k in 0..8 {
        bits.push((7u8 >> (7 - k)) & 1);
    }
    bits.extend([1, 1, 1, 0]);
    for k in 0..8 {
        bits.push((200u8 >> (7 - k)) & 1);
    }
    bits.extend([1, 1]);
    let mut w = bitwriter::new();
    for &b in &bits {
        w.append_bit(b);
    }
    w.flush();
    let stream = w.return_buffer().to_vec();
    assert_eq!(tree_end(&stream, 0, 2), Some(bits.len() as u128));
    assert_eq!(tree_end(&stream, 0, 1), None);
    let mut r = bitreader::new(stream);
    let mut img = vec![0u8; 4];
    let mut last = 255u8;
    decode_recursive(&mut img, &mut last, 2, 0, 0, 2, 2, 2, &mut r);
    assert_eq!(img, vec![7, 7, 200, 200]);
    assert_eq!(last, 200);
}

#[test]
fn truncated_code_is_found() {
    let stream = vec![0b1000_0000];
    // leaf with a new colour needs ten bits
    assert_eq!(tree_end(&stream, 0, 4), None);
    assert_eq!(tree_end(&stream, 8, 4), None);
    let stream = vec![0b1100_0000];
    assert_eq!(tree_end(&stream, 0, 4), Some(2));
}

#[test]
fn plane_roundtrip() {
    let width: u16 = 8;
    let height: u16 = 4;
    let mut img = vec![0u8; 32];
    for y in 0..4usize {
        for x in 0..8usize {
            img[y * 8 + x] = if x < 4 { 100 } else { (x * 30 + y * 5) as u8 };
        }
    }
    let mut w = bitwriter::new();
    compress(&img, width, height, 8, 1, 4, &mut w);
    w.flush();
    let stream = w.return_buffer().to_vec();
    assert!(plane_end_checked(&stream, 0, width, height, 4).is_some());
    let mut r = bitreader::new(stream);
    let mut out = vec![0u8; 32];
    decode(&mut out, width, height, 4, &mut r);
    // the flat left block comes back exactly
    for y in 0..4usize {
        for x in 0..4usize {
            assert_eq!(out[y * 8 + x], 100);
        }
    }
    // the right block is split down to pixels whose spread is too large
    let mut max_err = 0i32;
    for y in 0..4usize {
        for x in 4..8usize {
            max_err = max_err.max((out[y * 8 + x] as i32 - img[y * 8 + x] as i32).abs());
        }
    }
    assert!(max_err <= 8, "error {}", max_err);
}

#[test]
fn decoder_starts_each_block_from_255() {
    // two 1x1 blocks: 100 then 253; the encoder starts each block from 255,
    // so the second block repeats 255, which is within 4 of 253, and the
    // decoder paints 255 there
    let img = vec![100u8, 253];
    let mut w = bitwriter::new();
    compress(&img, 2, 1, 0, 0, 1, &mut w);
    w.flush();
    let stream = w.return_buffer().to_vec();
    assert_eq!(stream, vec![0x99, 0x30]);
    let mut r = bitreader::new(stream);
    let mut out = vec![0u8; 2];
    decode(&mut out, 2, 1, 1, &mut r);
    assert_eq!(out, vec![100, 255]);
}

#[test]
fn decoded_single_pixel_blocks_stay_within_four() {
    let img: Vec<u8> = (0..48u32).map(|i| ((i * 53) % 256) as u8).collect();
    let mut w = bitwriter::new();
    compress(&img, 8, 6, 0, 0, 1, &mut w);
    w.flush();
    let mut r = bitreader::new(w.return_buffer().to_vec());
    let mut out = vec![0u8; 48];
    decode(&mut out, 8, 6, 1, &mut r);
    for (a, b) in out.iter().zip(img.iter()) {
        assert!((*a as i32 - *b as i32).abs() <= 4);
    }
}

#[test]
fn decoding_paints_every_pixel() {
    let img: Vec<u8> = (0..32u32).map(|i| ((i * 29) % 256) as u8).collect();
    let mut w = bitwriter::new();
    compress(&img, 8, 4, 3, 1, 4, &mut w);
    w.flush();
    let stream = w.return_buffer().to_vec();
    let mut r1 = bitreader::new(stream.clone());
    let mut r2 = bitreader::new(stream);
    let mut zeros = vec![0u8; 32];
    let mut sevens = vec![77u8; 32];
    decode(&mut zeros, 8, 4, 4, &mut r1);
    decode(&mut sevens, 8, 4, 4, &mut r2);
    assert_eq!(zeros, sevens);
}

#[test]
fn decoder_ends_on_the_encoders_last_colour() {
    // a split block: 10 (new), 12 (repeat of 10), 200 (new), 198 (repeat)
    let img = vec![10u8, 12, 200, 198];
    let (stream, last, count) = encode_block(&img, 2, 0, 0, 2, 255, 0);
    assert_eq!((last, count), (200, 1));
    let mut r = bitreader::new(stream);
    let mut out = vec![0u8; 4];
    let mut decoded_last = 255u8;
    decode_recursive(&mut out, &mut decoded_last, 2, 0, 0, 2, 2, 2, &mut r);
    assert_eq!(decoded_last as i16, last);
    assert_eq!(out, vec![10, 10, 200, 200]);
}

#[test]
fn decoded_pixels_take_their_leaf_average() {
    // one flat 4x4 block (spread 3, allowed 12 / 4): a leaf with the floor
    // of the average 11.5
    let img: Vec<u8> = (0..16u32).map(|i| (10 + i % 4) as u8).collect();
    let mut w = bitwriter::new();
    compress(&img, 4, 4, 12, 1, 4, &mut w);
    w.flush();
    let mut r = bitreader::new(w.return_buffer().to_vec());
    let mut out = vec![0u8; 16];
    decode(&mut out, 4, 4, 4, &mut r);
    assert_eq!(out, vec![11u8; 16]);
}
