use quadtree_image::format::{
    block_size_ok, decode_image, encode_image, frame_size, image_room_ok, plane_fits_check,
    yuv422_plane_sizes, DecodeError, Settings,
};
use quadtree_image::probe::{fraction_overflow_check, resolution_from_fields, resolution_from_probe};

fn settings(lum_block: u8, color_block: u8) -> Settings {
    Settings {
        lum_block,
        color_block,
        lum_dist: 4,
        color_dist: 4,
        depth_compression_lum: 1,
        depth_compression_color: 1,
    }
}

#[test]
fn frame_size_rounds_down_to_multiples_of_128() {
    assert_eq!(frame_size((1000, 700), None), (896, 640));
    assert_eq!(frame_size((1000, 700), Some((300, 129))), (256, 128));
    assert_eq!(frame_size((127, 65535), None), (0, 65408));
}

#[test]
fn plane_sizes_of_yuv422() {
    assert_eq!(yuv422_plane_sizes(256, 128), (32768, 16384));
    assert_eq!(yuv422_plane_sizes(3, 5), (15, 5));
    assert_eq!(yuv422_plane_sizes(65535, 65535), (65535 * 65535, 32767 * 65535));
}

#[test]
fn block_sizes() {
    for n in [1u8, 2, 4, 8, 16, 32, 64, 128] {
        assert!(block_size_ok(n));
    }
    for n in [0u8, 3, 6, 100, 255] {
        assert!(!block_size_ok(n));
    }
}

#[test]
fn planes_that_fit() {
    assert!(plane_fits_check(16, 4, 4, 4));
    assert!(!plane_fits_check(15, 4, 4, 4));
    // a block sticking out to the right still fits a larger buffer
    assert!(!plane_fits_check(12, 3, 4, 2));
    assert!(plane_fits_check(100, 3, 4, 2));
    assert!(plane_fits_check(0, 0, 7, 128));
    assert!(!plane_fits_check(usize::MAX, 65535, 1, 2));
}

#[test]
fn room_for_a_frame() {
    assert!(image_room_ok(1024, 768, &settings(8, 4)));
}

#[test]
fn probe_output_gives_the_first_stream_size() {
    let out = r#"{"streams":[{"index":0,"width":640,"height":480},{"width":1,"height":1}],"format":{}}"#;
    assert_eq!(resolution_from_probe(out), Some((640, 480)));
}

#[test]
fn probe_output_that_is_not_usable() {
    assert_eq!(resolution_from_probe("not json"), None);
    assert_eq!(resolution_from_probe(r#"{"streams":[{"width":640}]}"#), None);
    assert_eq!(resolution_from_probe(r#"{"streams":[{"width":70000,"height":4}]}"#), None);
    assert_eq!(resolution_from_probe(r#"{"streams":[]}"#), None);
    assert_eq!(resolution_from_probe(r#"{"streams":[{"width":640.0,"height":480}]}"#), None);
    assert_eq!(resolution_from_probe(r#"{"streams":[{"width":6.4e2,"height":480}]}"#), None);
}

fn probe_text(number: &str) -> String {
    format!(r#"{{"x":{},"streams":[{{"width":640,"height":480}}]}}"#, number)
}

fn zeros_after(prefix: &str, n: usize) -> String {
    let mut s = String::from(prefix);
    for _ in 0..n {
        s.push('0');
    }
    s
}

#[test]
fn probe_output_with_an_overlong_zero_fraction() {
    let out = probe_text(&zeros_after("0.", 40000));
    assert!(fraction_overflow_check(&out));
    assert_eq!(resolution_from_probe(&out), None);
    let out = probe_text(&zeros_after("-0.", 32769));
    assert!(fraction_overflow_check(&out));
    assert_eq!(resolution_from_probe(&out), None);
}

#[test]
fn probe_output_with_long_fractions_that_parse() {
    // as many leading zeros as the parser's exponent can count
    let out = probe_text(&zeros_after("0.", 32768));
    assert!(!fraction_overflow_check(&out));
    assert_eq!(resolution_from_probe(&out), Some((640, 480)));
    // a mantissa that is not zero stops counting after a few digits
    let out = probe_text(&zeros_after("1.", 40000));
    assert!(!fraction_overflow_check(&out));
    assert_eq!(resolution_from_probe(&out), Some((640, 480)));
    let out = probe_text(&zeros_after("0.5", 40000));
    assert!(!fraction_overflow_check(&out));
    assert_eq!(resolution_from_probe(&out), Some((640, 480)));
    // digits inside a string are not a number
    let out = probe_text(&format!("\"{}\"", zeros_after("0.", 40000)));
    assert!(!fraction_overflow_check(&out));
    assert_eq!(resolution_from_probe(&out), Some((640, 480)));
    // an escaped quote does not end the string
    let out = probe_text(&format!("\"a\\\" {}\"", zeros_after("0.", 40000)));
    assert!(!fraction_overflow_check(&out));
    assert_eq!(resolution_from_probe(&out), Some((640, 480)));
}

#[test]
fn fields_to_resolution() {
    assert_eq!(resolution_from_fields(Some(Some(3)), Some(Some(4))), Some((3, 4)));
    assert_eq!(resolution_from_fields(Some(Some(3)), Some(None)), None);
    assert_eq!(resolution_from_fields(None, None), None);
}

#[test]
fn encoded_header() {
    let y = vec![100u8; 16];
    let u = vec![50u8; 8];
    let v = vec![200u8; 8];
    let out = encode_image(&y, &u, &v, 4, 4, &settings(4, 2)).unwrap();
    assert_eq!(&out[0..10], &[b'Q', b'G', b'I', b'F', 4, 2, 0, 4, 0, 4]);
    // one luminance block and two blocks in each 2 x 4 chrominance plane,
    // each a new colour of ten bits (every block starts from 255): 50 bits,
    // padded to seven bytes
    assert_eq!(out.len(), 17);
    assert_eq!(
        &out[10..17],
        &[0b1001_1001, 0b0010_0011, 0b0010_1000, 0b1100_1010, 0b1100_1000, 0b1011_0010, 0b0000_0000]
    );
}

#[test]
fn encode_decode_flat_frame() {
    let y = vec![100u8; 16];
    let u = vec![50u8; 8];
    let v = vec![200u8; 8];
    let out = encode_image(&y, &u, &v, 4, 4, &settings(4, 2)).unwrap();
    let img = decode_image(out).unwrap();
    assert_eq!((img.lum_block, img.color_block, img.width, img.height), (4, 2, 4, 4));
    assert_eq!(img.y, y);
    assert_eq!(img.u, u);
    assert_eq!(img.v, v);
    let mut all = y.clone();
    all.extend(&u);
    all.extend(&v);
    assert_eq!(img.yuv(), all);
}

#[test]
fn encode_decode_detailed_frame() {
    let (w, h) = (16u16, 8u16);
    let y: Vec<u8> = (0..128u32).map(|i| ((i * 37) % 251) as u8).collect();
    let u: Vec<u8> = (0..64u32).map(|i| (i * 3) as u8).collect();
    let v: Vec<u8> = (0..64u32).map(|i| 255 - (i * 3) as u8).collect();
    let s = Settings { lum_block: 8, color_block: 4, lum_dist: 0, color_dist: 0, depth_compression_lum: 0, depth_compression_color: 0 };
    let out = encode_image(&y, &u, &v, w, h, &s).unwrap();
    let img = decode_image(out).unwrap();
    // with no spread allowed, every pixel is its own leaf: values within 4
    // of the last colour may be repeated
    for (a, b) in img.y.iter().zip(y.iter()) {
        assert!((*a as i32 - *b as i32).abs() <= 4);
    }
    for (a, b) in img.u.iter().zip(u.iter()) {
        assert!((*a as i32 - *b as i32).abs() <= 4);
    }
    for (a, b) in img.v.iter().zip(v.iter()) {
        assert!((*a as i32 - *b as i32).abs() <= 4);
    }
}

#[test]
fn decode_rejects_a_short_file() {
    assert_eq!(decode_image(vec![b'Q', b'G', b'I', b'F', 4, 2, 0, 4, 0]).err(), Some(DecodeError::BadHeader));
    assert_eq!(decode_image(vec![]).err(), Some(DecodeError::BadHeader));
}

#[test]
fn decode_rejects_a_wrong_magic() {
    assert_eq!(decode_image(vec![b'Q', b'G', b'I', b'G', 4, 2, 0, 4, 0, 4, 0]).err(), Some(DecodeError::BadHeader));
}

#[test]
fn decode_rejects_odd_block_sizes() {
    assert_eq!(decode_image(vec![b'Q', b'G', b'I', b'F', 3, 2, 0, 4, 0, 4, 0]).err(), Some(DecodeError::UnsupportedBlockSize));
    assert_eq!(decode_image(vec![b'Q', b'G', b'I', b'F', 4, 0, 0, 4, 0, 4, 0]).err(), Some(DecodeError::UnsupportedBlockSize));
}

#[test]
fn decode_rejects_blocks_outside_the_plane() {
    assert_eq!(decode_image(vec![b'Q', b'G', b'I', b'F', 4, 2, 0, 3, 0, 4, 0]).err(), Some(DecodeError::BlocksOutsidePlane));
}

#[test]
fn decode_rejects_missing_bits() {
    assert_eq!(decode_image(vec![b'Q', b'G', b'I', b'F', 4, 2, 0, 4, 0, 4]).err(), Some(DecodeError::Truncated));
    // a luminance leaf, but no chrominance codes
    assert_eq!(decode_image(vec![b'Q', b'G', b'I', b'F', 4, 2, 0, 4, 0, 4, 0b1000_0000, 0b0100_0000]).err(), Some(DecodeError::Truncated));
}

#[test]
fn empty_frame() {
    let out = encode_image(&vec![], &vec![], &vec![], 0, 0, &settings(8, 8)).unwrap();
    assert_eq!(out, vec![b'Q', b'G', b'I', b'F', 8, 8, 0, 0, 0, 0, 0]);
    let img = decode_image(out).unwrap();
    assert!(img.y.is_empty() && img.u.is_empty() && img.v.is_empty());
}

#[test]
fn no_room_for_the_last_byte() {
    // a 10880 x 2 frame with block sizes 2: 7 luminance blocks that split
    // into four new colours (41 bits each), 2 flat blocks of a new colour
    // (10 bits each), 5431 blocks that repeat 255 (2 bits each), and 2 x 2720
    // flat chrominance blocks of a new colour (10 bits each): 65569 bits, one
    // more than fills the writer's first 8196 bytes, so the last byte has no
    // place
    let width: usize = 10880;
    let mut y = vec![255u8; width * 2];
    for t in 0..7usize {
        y[2 * t] = 0;
        y[2 * t + 1] = 128;
        y[width + 2 * t] = 0;
        y[width + 2 * t + 1] = 128;
    }
    for t in 7..9usize {
        y[2 * t] = 0;
        y[2 * t + 1] = 0;
        y[width + 2 * t] = 0;
        y[width + 2 * t + 1] = 0;
    }
    let u = vec![0u8; width];
    let v = vec![0u8; width];
    let s = Settings { lum_block: 2, color_block: 2, lum_dist: 0, color_dist: 0, depth_compression_lum: 0, depth_compression_color: 0 };
    assert!(encode_image(&y, &u, &v, width as u16, 2, &s).is_none());
    // one split block fewer: 65530 bits fit
    y[12] = 255;
    y[13] = 255;
    y[width + 12] = 255;
    y[width + 13] = 255;
    let out = encode_image(&y, &u, &v, width as u16, 2, &s).unwrap();
    assert_eq!(out.len(), 10 + 8191 + 1);
}
