use stegano::bits::{bits_to_u32, bits_to_u8};
use stegano::encoding::{calculate_bits_of_encoded_string, CharacterEncoding};
use stegano::image::Channel;

#[test]
fn test_calculate_bits_of_encoded_string_ascii() {
    let message = "ASCII message";
    let (encoding, bits) = calculate_bits_of_encoded_string(message);
    assert_eq!(encoding.to_bit_value(), CharacterEncoding::ASCII.to_bit_value());
    assert_eq!(bits, 13 * 8);
}

#[test]
fn test_calculate_bits_of_encoded_string_utf8() {
    let message = "ñ";
    let (encoding, bits) = calculate_bits_of_encoded_string(message);
    assert_eq!(encoding.to_bit_value(), CharacterEncoding::UTF8.to_bit_value());
    assert_eq!(bits, 16);
}

#[test]
fn test_calculate_bits_of_encoded_string_utf32() {
    let message = "𐍈";
    let (encoding, bits) = calculate_bits_of_encoded_string(message);
    assert_eq!(encoding.to_bit_value(), CharacterEncoding::UTF32.to_bit_value());
    assert_eq!(bits, 32);
}

#[test]
fn empty_text_is_ascii_with_no_payload() {
    assert_eq!(calculate_bits_of_encoded_string(""), (CharacterEncoding::ASCII, 0));
}

#[test]
fn three_byte_characters_pick_utf16() {
    // 24 bits each in UTF-8 against 16 in UTF-16.
    assert_eq!(calculate_bits_of_encoded_string("你好"), (CharacterEncoding::UTF16, 32));
}

#[test]
fn mixed_text_prefers_utf8_on_cost() {
    // 'a' 8 + 'é' 16 + '€' 24 = 48 bits, against 3 × 16 = 48: a tie goes to UTF-8.
    assert_eq!(calculate_bits_of_encoded_string("aé€"), (CharacterEncoding::UTF8, 48));
    // Two ASCII characters and one 3-byte character: 40 against 48.
    assert_eq!(calculate_bits_of_encoded_string("ab€"), (CharacterEncoding::UTF8, 40));
}

#[test]
fn one_astral_character_makes_the_whole_text_utf32() {
    assert_eq!(calculate_bits_of_encoded_string("ab😀"), (CharacterEncoding::UTF32, 96));
}

#[test]
fn ascii_text_is_tagged_ascii() {
    let (e, bits) = calculate_bits_of_encoded_string("Hi");
    assert_eq!(e, CharacterEncoding::ASCII);
    assert_eq!(bits, 16);
}

#[test]
fn bmp_character_is_never_ascii_or_utf32() {
    for text in ["\u{80}", "x\u{7FF}", "\u{FFFF}", "abc\u{4E2D}"] {
        let (e, _) = calculate_bits_of_encoded_string(text);
        assert!(e == CharacterEncoding::UTF8 || e == CharacterEncoding::UTF16);
    }
}

#[test]
fn tags_round_trip_through_bytes() {
    for e in [
        CharacterEncoding::ASCII,
        CharacterEncoding::UTF8,
        CharacterEncoding::UTF16,
        CharacterEncoding::UTF32,
    ] {
        let v = e.to_bit_value();
        assert_eq!(CharacterEncoding::new(v), e);
        assert_eq!(CharacterEncoding::from_bit_value(v), Some(e));
    }
    assert_eq!(CharacterEncoding::ASCII.to_bit_value(), 0x07);
    assert_eq!(CharacterEncoding::UTF8.to_bit_value(), 0x08);
    assert_eq!(CharacterEncoding::UTF16.to_bit_value(), 0x10);
    assert_eq!(CharacterEncoding::UTF32.to_bit_value(), 0x20);
    assert_eq!(CharacterEncoding::from_bit_value(0x09), None);
    assert_eq!(CharacterEncoding::from_bit_value(0), None);
}

#[test]
fn encoding_and_channel_names() {
    assert_eq!(CharacterEncoding::ASCII.name(), "ASCII");
    assert_eq!(CharacterEncoding::UTF8.name(), "UTF8");
    assert_eq!(CharacterEncoding::UTF16.name(), "UTF16");
    assert_eq!(CharacterEncoding::UTF32.name(), "UTF32");
    assert_eq!(Channel::new(0).name(), "Red");
    assert_eq!(Channel::new(1).name(), "Green");
    assert_eq!(Channel::new(2).name(), "Blue");
    assert_eq!(Channel::new(3).name(), "Alpha");
}

#[test]
fn bits_to_u8_packs_from_the_top() {
    assert_eq!(bits_to_u8(vec![0, 0, 0, 0, 0, 1, 1, 1], false), 0x07);
    assert_eq!(bits_to_u8(vec![1, 0, 1], false), 0b1010_0000);
    assert_eq!(bits_to_u8(vec![], false), 0);
    // An invalid element clears what came before it.
    assert_eq!(bits_to_u8(vec![1, 1, 2, 1], true), 0b0001_0000);
}

#[test]
fn bits_to_u32_reads_thirty_two_bits() {
    let mut bits = vec![0u8; 32];
    bits[31] = 1;
    bits[0] = 1;
    assert_eq!(bits_to_u32(bits.clone(), false), 0x8000_0001);
    assert_eq!(bits_to_u32(vec![1u8; 31], true), 0);
    bits[5] = 3;
    assert_eq!(bits_to_u32(bits, true), 0);
}
