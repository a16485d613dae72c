use stegano::codec::{calculate_capacity, decode_image, encode_image, DecodeError, EncodeError};
use stegano::encoding::{calculate_bits_of_encoded_string, CharacterEncoding};
use stegano::frame::{build_frame, message_to_bit_iter, message_to_bit_iter_utf32, to_binary_chunks};
use stegano::image::{EncodeConfig, Image};

fn config(ignore_alpha: bool, white: bool, black: bool, no_panic: bool) -> EncodeConfig {
    EncodeConfig {
        ignore_alpha,
        ignore_white_pixels: white,
        ignore_black_pixels: black,
        debug: false,
        no_panic,
    }
}

fn uniform(width: u32, height: u32, px: [u8; 4]) -> Image {
    let mut data = Vec::new();
    for _ in 0..(width * height) {
        data.extend_from_slice(&px);
    }
    Image::from_raw(width, height, data).unwrap()
}

fn round_trip(text: &str, img: &Image, cfg: EncodeConfig) -> String {
    let (encoding, _) = calculate_bits_of_encoded_string(text);
    let out = encode_image(img, text, encoding, cfg).unwrap();
    assert_eq!(out.width, img.width);
    assert_eq!(out.height, img.height);
    decode_image(&out, cfg).unwrap()
}

#[test]
fn example_two_by_two_rejects_hi() {
    let img = uniform(2, 2, [10, 20, 30, 255]);
    let cfg = config(true, false, false, false);
    let (e, bits) = calculate_bits_of_encoded_string("Hi");
    assert_eq!(e, CharacterEncoding::ASCII);
    assert_eq!(8 + 32 + bits, 56);
    assert_eq!(calculate_capacity(&img, &cfg), 12);
    assert_eq!(
        encode_image(&img, "Hi", e, cfg).err(),
        Some(EncodeError::CapacityExceeded)
    );
}

#[test]
fn example_empty_message_writes_only_the_header() {
    let img = uniform(8, 3, [128, 128, 128, 255]);
    let cfg = config(true, false, false, false);
    assert_eq!(calculate_capacity(&img, &cfg), 72);
    let (e, bits) = calculate_bits_of_encoded_string("");
    assert_eq!((e, bits), (CharacterEncoding::ASCII, 0));
    let out = encode_image(&img, "", e, cfg).unwrap();
    // Tag 0x07: slots 5, 6 and 7 carry a one; the length field is all zeros.
    let mut expected = img.data.clone();
    expected[4 + 2] = 129;
    expected[8] = 129;
    expected[8 + 1] = 129;
    assert_eq!(out.data, expected);
    // Slot 40 is the green channel of pixel 13: from there on nothing changed.
    assert_eq!(&out.data[13 * 4 + 1..], &img.data[13 * 4 + 1..]);
    assert_eq!(decode_image(&out, cfg), Ok(String::new()));
}

#[test]
fn one_pixel_rejects_any_message() {
    for ignore_alpha in [true, false] {
        let img = uniform(1, 1, [1, 2, 3, 4]);
        let cfg = config(ignore_alpha, false, false, false);
        assert_eq!(calculate_capacity(&img, &cfg), if ignore_alpha { 3 } else { 4 });
        assert_eq!(
            encode_image(&img, "a", CharacterEncoding::ASCII, cfg).err(),
            Some(EncodeError::CapacityExceeded)
        );
    }
}

#[test]
fn round_trip_in_every_encoding() {
    let img = uniform(40, 10, [100, 150, 200, 255]);
    for ignore_alpha in [true, false] {
        let cfg = config(ignore_alpha, false, false, false);
        for text in ["", "Hello, world!", "ñandú", "Witaj, świecie! Здравствуйте", "你好世界", "𐍈 and 😀"] {
            assert_eq!(round_trip(text, &img, cfg), text);
        }
    }
}

#[test]
fn utf16_frames_carry_code_units() {
    let img = uniform(30, 1, [100, 150, 200, 255]);
    let cfg = config(true, false, false, false);
    let frame = build_frame("你");
    // Tag 0x10, length 16, then the code unit 0x4F60.
    let expect_tag = [0, 0, 0, 1, 0, 0, 0, 0];
    assert_eq!(&frame[..8], &expect_tag);
    assert_eq!(frame.len(), 40 + 16);
    let unit: u32 = frame[40..].iter().fold(0, |a, &b| a * 2 + b as u32);
    assert_eq!(unit, 0x4F60);
    assert_eq!(round_trip("你", &img, cfg), "你");
}

#[test]
fn frame_header_is_tag_then_length() {
    let frame = build_frame("A");
    assert_eq!(frame.len(), 48);
    assert_eq!(&frame[..8], &[0, 0, 0, 0, 0, 1, 1, 1]);
    let len: u32 = frame[8..40].iter().fold(0, |a, &b| a * 2 + b as u32);
    assert_eq!(len, 8);
    assert_eq!(&frame[40..], &[0, 1, 0, 0, 0, 0, 0, 1]);
}

#[test]
fn white_pixels_are_skipped() {
    let mut img = uniform(20, 1, [100, 100, 100, 255]);
    img.data[0..4].copy_from_slice(&[255, 255, 255, 255]);
    let cfg = config(true, true, false, false);
    let out = encode_image(&img, "", CharacterEncoding::ASCII, cfg).unwrap();
    assert_eq!(&out.data[0..4], &[255, 255, 255, 255]);
    // The first slots now belong to pixel 1: tag bits 5..8 land in pixel 2 and 3.
    assert_eq!(&out.data[8..12], &[100, 100, 101, 255]);
    assert_eq!(&out.data[12..16], &[101, 101, 100, 255]);
    assert_eq!(decode_image(&out, cfg), Ok(String::new()));
    // Without the skip rule the white pixel's channels are used.
    let plain = config(true, false, false, false);
    let out = encode_image(&img, "", CharacterEncoding::ASCII, plain).unwrap();
    assert_eq!(&out.data[4..8], &[100, 100, 101, 255]);
}

#[test]
fn black_pixels_are_skipped() {
    let mut img = uniform(30, 1, [100, 100, 100, 255]);
    img.data[0..4].copy_from_slice(&[0, 0, 0, 7]);
    let cfg = config(true, false, true, false);
    let out = encode_image(&img, "Hey", CharacterEncoding::ASCII, cfg).unwrap();
    assert_eq!(&out.data[0..4], &[0, 0, 0, 7]);
    assert_eq!(decode_image(&out, cfg), Ok("Hey".to_string()));
}

#[test]
fn alpha_is_left_alone_when_excluded() {
    let img = uniform(30, 1, [100, 100, 100, 254]);
    let cfg = config(true, false, false, false);
    let out = encode_image(&img, "xyz", CharacterEncoding::ASCII, cfg).unwrap();
    for p in 0..30 {
        assert_eq!(out.data[p * 4 + 3], 254);
    }
    let with_alpha = config(false, false, false, false);
    let out = encode_image(&img, "xyz", CharacterEncoding::ASCII, with_alpha).unwrap();
    assert!((0..30).any(|p| out.data[p * 4 + 3] != 254));
}

#[test]
fn mismatch_fails_hard_or_soft() {
    let img = uniform(30, 1, [100, 100, 100, 255]);
    let hard = config(true, false, false, false);
    assert_eq!(
        encode_image(&img, "abc", CharacterEncoding::UTF8, hard).err(),
        Some(EncodeError::EncodingMismatch)
    );
    let soft = config(true, false, false, true);
    let out = encode_image(&img, "abc", CharacterEncoding::UTF8, soft).unwrap();
    assert_eq!(out.data, img.data);
}

#[test]
fn unknown_tag_is_rejected() {
    let img = uniform(14, 1, [100, 100, 100, 255]);
    let cfg = config(true, false, false, false);
    assert_eq!(decode_image(&img, cfg), Err(DecodeError::InvalidEncodingTag(0)));
}

#[test]
fn short_walk_falls_back_to_code_points() {
    let img = uniform(2, 2, [100, 100, 100, 255]);
    let cfg = config(true, false, false, false);
    assert_eq!(decode_image(&img, cfg), Ok("\u{0}".to_string()));
    // Thirty-six slots of ones: one group of 32 bits, no scalar value, and one of 4 bits.
    let ones = uniform(12, 1, [1, 1, 1, 1]);
    assert_eq!(decode_image(&ones, cfg), Ok("\u{FFFD}\u{F}".to_string()));
}

#[test]
fn truncated_payload_falls_back_to_code_points() {
    let cfg = config(true, false, false, false);
    let big = uniform(40, 1, [100, 100, 100, 255]);
    let out = encode_image(&big, "abcdefgh", CharacterEncoding::ASCII, cfg).unwrap();
    // Keep only the first 20 pixels: 60 slots, fewer than the 104 the frame needs.
    let cut = Image::from_raw(20, 1, out.data[..80].to_vec()).unwrap();
    let text = decode_image(&cut, cfg).unwrap();
    assert_eq!(text.chars().count(), 2);
}

#[test]
fn invalid_utf8_payload_gives_the_sentinel() {
    // Tag UTF-8, length 8, payload 0xFF.
    let mut bits: Vec<u8> = vec![0, 0, 0, 0, 1, 0, 0, 0];
    for i in (0..32).rev() {
        bits.push(((8u32 >> i) & 1) as u8);
    }
    bits.extend_from_slice(&[1; 8]);
    let mut data = Vec::new();
    for chunk in bits.chunks(3) {
        let mut px = [100u8, 100, 100, 255];
        for (i, b) in chunk.iter().enumerate() {
            px[i] |= *b;
        }
        data.extend_from_slice(&px);
    }
    let n = (data.len() / 4) as u32;
    let img = Image::from_raw(n, 1, data).unwrap();
    let cfg = config(true, false, false, false);
    assert_eq!(decode_image(&img, cfg), Ok("Invalid UTF-8".to_string()));
}

#[test]
fn from_raw_checks_the_buffer_length() {
    assert!(Image::from_raw(2, 2, vec![0; 16]).is_some());
    assert!(Image::from_raw(2, 2, vec![0; 15]).is_none());
    assert!(Image::from_raw(3, 2, vec![0; 16]).is_none());
    assert!(Image::from_raw(0, 5, vec![]).is_some());
    assert!(Image::from_raw(0, 5, vec![0; 4]).is_none());
}

#[test]
fn decoding_twice_gives_the_same_text() {
    let img = uniform(40, 2, [10, 20, 30, 40]);
    let cfg = config(false, false, false, false);
    let out = encode_image(&img, "same", CharacterEncoding::ASCII, cfg).unwrap();
    assert_eq!(decode_image(&out, cfg), decode_image(&out, cfg));
    let again = encode_image(&img, "same", CharacterEncoding::ASCII, cfg).unwrap();
    assert_eq!(out.data, again.data);
}

#[test]
fn binary_chunks_are_joined_by_spaces() {
    assert_eq!(to_binary_chunks("00000111", 4), "0000 0111");
    assert_eq!(to_binary_chunks("10101", 2), "10 10 1");
    assert_eq!(to_binary_chunks("", 4), "");
    // "é" is two bytes: cut in one-byte chunks neither half is valid UTF-8.
    assert_eq!(to_binary_chunks("aéb", 1), "a b");
}

#[test]
fn message_bits_follow_bytes_and_code_points() {
    assert_eq!(message_to_bit_iter("A"), vec![0, 1, 0, 0, 0, 0, 0, 1]);
    // "ñ" is 0xC3 0xB1 in UTF-8.
    assert_eq!(
        message_to_bit_iter("ñ"),
        vec![1, 1, 0, 0, 0, 0, 1, 1, 1, 0, 1, 1, 0, 0, 0, 1]
    );
    let bits = message_to_bit_iter_utf32("ñ");
    assert_eq!(bits.len(), 32);
    let v: u32 = bits.iter().fold(0, |a, &b| a * 2 + b as u32);
    assert_eq!(v, 0xF1);
    assert!(message_to_bit_iter_utf32("").is_empty());
}
