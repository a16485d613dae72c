//! The frame: an 8-bit encoding tag, a 32-bit payload length and the payload bits.
use crate::bits::{
    bits_value, concat_bits, group_values, is_bit_seq, lemma_concat_bits_len,
    lemma_group_values_concat, push_bits, read_groups, to_bits,
};
use crate::encoding::{
    chars_of, chosen_encoding, encoding_of_tag, lemma_max_code_point, max_code_point,
    payload_bit_len, select_encoding, tag_of, utf8_text_bits, CharacterEncoding,
    MAX_MESSAGE_CHARS,
};
use vstd::arithmetic::power2::pow2;
use vstd::prelude::*;
use vstd::string::StrSliceExecFns;
use vstd::utf8::{decode_utf8, encode_utf8, is_scalar, valid_utf8};

verus! {

/// The character that stands for a 32-bit group that is no Unicode scalar value.
pub const REPLACEMENT: char = '\u{FFFD}';

/// The code points of `s`.
pub open spec fn code_points(s: Seq<char>) -> Seq<nat> {
    s.map_values(|c: char| (c as u32) as nat)
}

/// The payload of `s` under encoding `e`. ASCII and UTF-8 payloads are the UTF-8 bytes of
/// the text; a UTF-16 payload holds one 16-bit code unit for each character (the encoding
/// is only chosen for texts of the basic multilingual plane); a UTF-32 payload holds one
/// 32-bit code point for each character.
pub open spec fn payload_bits(e: CharacterEncoding, s: Seq<char>) -> Seq<u8> {
    match e {
        CharacterEncoding::ASCII | CharacterEncoding::UTF8 => concat_bits(
            encode_utf8(s).map_values(|b: u8| b as nat),
            8,
        ),
        CharacterEncoding::UTF16 => concat_bits(code_points(s), 16),
        CharacterEncoding::UTF32 => concat_bits(code_points(s), 32),
    }
}

/// The whole frame that carries `s`.
pub open spec fn frame_bits(s: Seq<char>) -> Seq<u8> {
    to_bits(tag_of(chosen_encoding(s)) as nat, 8) + to_bits(payload_bit_len(s), 32)
        + payload_bits(chosen_encoding(s), s)
}

/// The character for a 32-bit group: the scalar value it names, or the replacement character.
pub open spec fn scalar_or_replacement(v: nat) -> char {
    if v <= 0xFFFF_FFFF && is_scalar(v as u32) {
        (v as u32) as char
    } else {
        REPLACEMENT
    }
}

/// The text that the UTF-16 code units `units` denote, or `None` where they are no valid
/// UTF-16: a unit outside `0xD800..=0xDFFF` is a character of its own, a high surrogate
/// followed by a low one is one character, and any other surrogate is an error.
pub open spec fn utf16_text(units: Seq<u16>) -> Option<Seq<char>>
    decreases units.len(),
{
    if units.len() == 0 {
        Some(seq![])
    } else if units[0] < 0xD800 || units[0] > 0xDFFF {
        match utf16_text(units.drop_first()) {
            Some(t) => Some(seq![(units[0] as u32) as char] + t),
            None => None,
        }
    } else if units[0] <= 0xDBFF && units.len() >= 2 && 0xDC00 <= units[1] <= 0xDFFF {
        let v = (0x10000 + (units[0] - 0xD800) * 0x400 + (units[1] - 0xDC00)) as u32;
        match utf16_text(units.skip(2)) {
            Some(t) => Some(seq![v as char] + t),
            None => None,
        }
    } else {
        None
    }
}

pub open spec fn invalid_utf8_text() -> Seq<char> {
    seq!['I', 'n', 'v', 'a', 'l', 'i', 'd', ' ', 'U', 'T', 'F', '-', '8']
}

pub open spec fn invalid_utf16_text() -> Seq<char> {
    seq!['I', 'n', 'v', 'a', 'l', 'i', 'd', ' ', 'U', 'T', 'F', '-', '1', '6']
}

/// The text that the payload bits `p` carry under encoding `e`.
pub open spec fn payload_text(e: CharacterEncoding, p: Seq<u8>) -> Seq<char> {
    match e {
        CharacterEncoding::ASCII => group_values(p, 8).map_values(|v: nat| ((v as u8) as u32) as char),
        CharacterEncoding::UTF8 => {
            let bytes = group_values(p, 8).map_values(|v: nat| v as u8);
            if valid_utf8(bytes) {
                decode_utf8(bytes)
            } else {
                invalid_utf8_text()
            }
        },
        CharacterEncoding::UTF16 => {
            match utf16_text(group_values(p, 16).map_values(|v: nat| v as u16)) {
                Some(t) => t,
                None => invalid_utf16_text(),
            }
        },
        CharacterEncoding::UTF32 => group_values(p, 32).map_values(|v: nat| scalar_or_replacement(v)),
    }
}

/// The best-effort reading of bits that hold no whole frame: successive 32-bit code points.
pub open spec fn fallback_text(b: Seq<u8>) -> Seq<char> {
    group_values(b, 32).map_values(|v: nat| scalar_or_replacement(v))
}

/// The tag byte at the head of `b`.
pub open spec fn header_tag(b: Seq<u8>) -> nat {
    bits_value(b.take(8))
}

/// The payload length declared in the header of `b`.
pub open spec fn header_len(b: Seq<u8>) -> nat {
    bits_value(b.subrange(8, 40))
}

/// What a frame reader makes of the bit stream `b`: `Err(tag)` for an unknown tag,
/// else the text of the first whole frame, or the fallback reading of all of `b` when
/// `b` ends before a frame does.
pub open spec fn read_frame(b: Seq<u8>) -> Result<Seq<char>, u8> {
    if b.len() < 40 {
        Ok(fallback_text(b))
    } else {
        match encoding_of_tag(header_tag(b) as u8) {
            None => Err(header_tag(b) as u8),
            Some(e) => if b.len() < 40 + header_len(b) {
                Ok(fallback_text(b))
            } else {
                Ok(payload_text(e, b.subrange(40, 40 + header_len(b) as int)))
            },
        }
    }
}

/// Relies on `String::from_utf8`: `Ok` exactly for valid UTF-8, holding the decoded text.
#[verifier::external_body]
fn string_from_utf8(bytes: Vec<u8>) -> (r: Option<String>)
    ensures
        r is Some <==> valid_utf8(bytes@),
        r is Some ==> r->0@ == decode_utf8(bytes@),
{
    String::from_utf8(bytes).ok()
}

/// Relies on `String::from_utf16`: the text of valid UTF-16 code units, `Err` for invalid ones.
#[verifier::external_body]
fn string_from_utf16(units: &Vec<u16>) -> (r: Option<String>)
    ensures
        r is Some <==> utf16_text(units@) is Some,
        r is Some ==> r->0@ == utf16_text(units@)->0,
{
    String::from_utf16(units).ok()
}

/// Relies on `char::from_u32`: `Some` exactly for Unicode scalar values.
#[verifier::external_body]
fn char_from_u32(v: u32) -> (r: Option<char>)
    ensures
        r is Some <==> is_scalar(v),
        r is Some ==> r->0 as u32 == v,
{
    char::from_u32(v)
}

/// Relies on collecting `char`s into a `String` (`FromIterator<&char>`): the characters in order.
#[verifier::external_body]
fn string_from_chars(cs: &Vec<char>) -> (r: String)
    ensures
        r@ == cs@,
{
    cs.iter().collect()
}

/// The bits of the UTF-8 bytes of `message`, eight for each byte, most-significant first.
pub fn message_to_bit_iter(message: &str) -> (r: Vec<u8>)
    ensures
        r@ == concat_bits(encode_utf8(message@).map_values(|b: u8| b as nat), 8),
{
    let bytes = message.as_bytes_vec();
    let ghost vals = bytes@.map_values(|b: u8| b as nat);
    let mut out: Vec<u8> = Vec::new();
    let mut i: usize = 0;
    while i < bytes.len()
        invariant
            i <= bytes@.len(),
            bytes@ == encode_utf8(message@),
            vals == bytes@.map_values(|b: u8| b as nat),
            out@ == concat_bits(vals.take(i as int), 8),
        decreases bytes@.len() - i,
    {
        push_bits(&mut out, bytes[i] as u32, 8);
        proof {
            lemma_concat_bits_snoc(vals.take(i as int), vals[i as int], 8);
            assert(vals.take(i as int).push(vals[i as int]) =~= vals.take(i + 1));
        }
        i = i + 1;
    }
    proof {
        assert(vals.take(bytes@.len() as int) =~= vals);
    }
    out
}

/// The code points of `message`, `w` bits each, most-significant first.
fn code_point_bits(message: &str, w: usize) -> (r: Vec<u8>)
    requires
        w <= 32,
    ensures
        r@ == concat_bits(code_points(message@), w as nat),
{
    let cs = chars_of(message);
    let ghost vals = code_points(message@);
    let mut out: Vec<u8> = Vec::new();
    let mut i: usize = 0;
    while i < cs.len()
        invariant
            i <= cs@.len(),
            w <= 32,
            cs@ == message@,
            vals == code_points(message@),
            out@ == concat_bits(vals.take(i as int), w as nat),
        decreases cs@.len() - i,
    {
        push_bits(&mut out, cs[i] as u32, w);
        proof {
            lemma_concat_bits_snoc(vals.take(i as int), vals[i as int], w as nat);
            assert(vals.take(i as int).push(vals[i as int]) =~= vals.take(i + 1));
        }
        i = i + 1;
    }
    proof {
        assert(vals.take(cs@.len() as int) =~= vals);
    }
    out
}

/// The code points of `message`, thirty-two bits each, most-significant first.
pub fn message_to_bit_iter_utf32(message: &str) -> (r: Vec<u8>)
    ensures
        r@ == concat_bits(code_points(message@), 32),
{
    code_point_bits(message, 32)
}

/// The payload bits of `s` under encoding `e`.
fn build_payload(s: &str, e: CharacterEncoding) -> (r: Vec<u8>)
    ensures
        r@ == payload_bits(e, s@),
{
    match e {
        CharacterEncoding::ASCII | CharacterEncoding::UTF8 => message_to_bit_iter(s),
        CharacterEncoding::UTF16 => code_point_bits(s, 16),
        CharacterEncoding::UTF32 => message_to_bit_iter_utf32(s),
    }
}

pub proof fn lemma_concat_bits_snoc(vals: Seq<nat>, v: nat, w: nat)
    ensures
        concat_bits(vals.push(v), w) == concat_bits(vals, w) + to_bits(v, w),
    decreases vals.len(),
{
    if vals.len() == 0 {
        assert(vals.push(v).drop_first() =~= seq![]);
        assert(vals.push(v)[0] == v);
        assert(concat_bits(seq![], w) =~= seq![]);
        assert(concat_bits(vals.push(v), w) =~= concat_bits(vals, w) + to_bits(v, w));
    } else {
        lemma_concat_bits_snoc(vals.drop_first(), v, w);
        assert(vals.push(v).drop_first() =~= vals.drop_first().push(v));
        assert(concat_bits(vals.push(v), w) =~= concat_bits(vals, w) + to_bits(v, w));
    }
}

/// The frame that carries `s`: its chosen encoding's tag, its payload size, its payload.
pub fn build_frame(s: &str) -> (r: Vec<u8>)
    requires
        s@.len() <= MAX_MESSAGE_CHARS,
    ensures
        r@ == frame_bits(s@),
{
    let cs = chars_of(s);
    let (e, n) = select_encoding(&cs);
    let mut out: Vec<u8> = Vec::new();
    push_bits(&mut out, e.to_bit_value() as u32, 8);
    push_bits(&mut out, n, 32);
    let mut payload = build_payload(s, e);
    out.append(&mut payload);
    proof {
        assert(out@ =~= frame_bits(s@));
    }
    out
}

/// The text that the payload bits `b[start..end]` carry under encoding `e`.
pub fn decode_payload(e: CharacterEncoding, b: &Vec<u8>, start: usize, end: usize) -> (r: String)
    requires
        start <= end <= b@.len(),
        is_bit_seq(b@),
    ensures
        r@ == payload_text(e, b@.subrange(start as int, end as int)),
{
    match e {
        CharacterEncoding::ASCII => {
            let groups = read_groups(b, start, end, 8);
            let ghost gv = groups@.map_values(|x: u32| x as nat);
            let mut cs: Vec<char> = Vec::new();
            let mut i: usize = 0;
            while i < groups.len()
                invariant
                    i <= groups@.len(),
                    gv == groups@.map_values(|x: u32| x as nat),
                    cs@ == gv.take(i as int).map_values(|v: nat| ((v as u8) as u32) as char),
                decreases groups@.len() - i,
            {
                let c = (groups[i] as u8) as char;
                cs.push(c);
                proof {
                    assert(cs@ =~= gv.take(i + 1).map_values(|v: nat| ((v as u8) as u32) as char));
                }
                i = i + 1;
            }
            proof {
                assert(gv.take(groups@.len() as int) =~= gv);
            }
            string_from_chars(&cs)
        },
        CharacterEncoding::UTF8 => {
            let groups = read_groups(b, start, end, 8);
            let ghost gv = groups@.map_values(|x: u32| x as nat);
            let mut bytes: Vec<u8> = Vec::new();
            let mut i: usize = 0;
            while i < groups.len()
                invariant
                    i <= groups@.len(),
                    gv == groups@.map_values(|x: u32| x as nat),
                    bytes@ == gv.take(i as int).map_values(|v: nat| v as u8),
                decreases groups@.len() - i,
            {
                bytes.push(groups[i] as u8);
                proof {
                    assert(bytes@ =~= gv.take(i + 1).map_values(|v: nat| v as u8));
                }
                i = i + 1;
            }
            proof {
                assert(gv.take(groups@.len() as int) =~= gv);
            }
            match string_from_utf8(bytes) {
                Some(t) => t,
                None => {
                    proof {
                        reveal_strlit("Invalid UTF-8");
                    }
                    let t = String::from_str("Invalid UTF-8");
                    assert(t@ =~= invalid_utf8_text());
                    t
                },
            }
        },
        CharacterEncoding::UTF16 => {
            let groups = read_groups(b, start, end, 16);
            let ghost gv = groups@.map_values(|x: u32| x as nat);
            let mut units: Vec<u16> = Vec::new();
            let mut i: usize = 0;
            while i < groups.len()
                invariant
                    i <= groups@.len(),
                    gv == groups@.map_values(|x: u32| x as nat),
                    units@ == gv.take(i as int).map_values(|v: nat| v as u16),
                decreases groups@.len() - i,
            {
                units.push(groups[i] as u16);
                proof {
                    assert(units@ =~= gv.take(i + 1).map_values(|v: nat| v as u16));
                }
                i = i + 1;
            }
            proof {
                assert(gv.take(groups@.len() as int) =~= gv);
            }
            match string_from_utf16(&units) {
                Some(t) => t,
                None => {
                    proof {
                        reveal_strlit("Invalid UTF-16");
                    }
                    let t = String::from_str("Invalid UTF-16");
                    assert(t@ =~= invalid_utf16_text());
                    t
                },
            }
        },
        CharacterEncoding::UTF32 => code_point_text(b, start, end),
    }
}

/// The successive 32-bit groups of `b[start..end]` read as code points, each one that is
/// no Unicode scalar value replaced by the replacement character.
pub fn code_point_text(b: &Vec<u8>, start: usize, end: usize) -> (r: String)
    requires
        start <= end <= b@.len(),
        is_bit_seq(b@),
    ensures
        r@ == fallback_text(b@.subrange(start as int, end as int)),
{
    let groups = read_groups(b, start, end, 32);
    let ghost gv = groups@.map_values(|x: u32| x as nat);
    let mut cs: Vec<char> = Vec::new();
    let mut i: usize = 0;
    while i < groups.len()
        invariant
            i <= groups@.len(),
            gv == groups@.map_values(|x: u32| x as nat),
            cs@ == gv.take(i as int).map_values(|v: nat| scalar_or_replacement(v)),
        decreases groups@.len() - i,
    {
        let c = match char_from_u32(groups[i]) {
            Some(c) => {
                proof {
                    vstd::utf8::char_u32_cast(c, groups@[i as int]);
                }
                c
            },
            None => REPLACEMENT,
        };
        cs.push(c);
        proof {
            assert(cs@ =~= gv.take(i + 1).map_values(|v: nat| scalar_or_replacement(v)));
        }
        i = i + 1;
    }
    proof {
        assert(gv.take(groups@.len() as int) =~= gv);
    }
    string_from_chars(&cs)
}

pub proof fn lemma_utf8_len(s: Seq<char>)
    requires
        forall|i: int| 0 <= i < s.len() ==> #[trigger] (s[i] as u32) <= 0xFFFF,
    ensures
        8 * encode_utf8(s).len() == utf8_text_bits(s),
    decreases s.len(),
{
    if s.len() > 0 {
        let t = s.drop_first();
        assert forall|i: int| 0 <= i < t.len() implies #[trigger] (t[i] as u32) <= 0xFFFF by {
            assert(t[i] == s[i + 1]);
        }
        lemma_utf8_len(t);
        vstd::utf8::char_is_scalar(s[0]);
        assert(s[0] as u32 <= 0xFFFF);
    }
}

proof fn lemma_utf8_bits_of_ascii(s: Seq<char>)
    requires
        forall|i: int| 0 <= i < s.len() ==> #[trigger] (s[i] as u32) <= 0x7F,
    ensures
        utf8_text_bits(s) == 8 * s.len(),
    decreases s.len(),
{
    if s.len() > 0 {
        let t = s.drop_first();
        assert forall|i: int| 0 <= i < t.len() implies #[trigger] (t[i] as u32) <= 0x7F by {
            assert(t[i] == s[i + 1]);
        }
        lemma_utf8_bits_of_ascii(t);
        assert(s[0] as u32 <= 0x7F);
    }
}

/// The payload of a text under its chosen encoding has the size that its header declares.
pub proof fn lemma_payload_bits_len(s: Seq<char>)
    ensures
        payload_bits(chosen_encoding(s), s).len() == payload_bit_len(s),
        is_bit_seq(payload_bits(chosen_encoding(s), s)),
{
    lemma_max_code_point(s);
    let e = chosen_encoding(s);
    match e {
        CharacterEncoding::ASCII | CharacterEncoding::UTF8 => {
            let vals = encode_utf8(s).map_values(|b: u8| b as nat);
            lemma_concat_bits_len(vals, 8);
            lemma_utf8_len(s);
            if e == CharacterEncoding::ASCII {
                lemma_utf8_bits_of_ascii(s);
            }
        },
        _ => {
            lemma_concat_bits_len(code_points(s), 16);
            lemma_concat_bits_len(code_points(s), 32);
        },
    }
}

proof fn lemma_utf16_of_bmp(s: Seq<char>, units: Seq<u16>)
    requires
        units.len() == s.len(),
        forall|i: int| 0 <= i < s.len() ==> #[trigger] units[i] as u32 == s[i] as u32,
    ensures
        utf16_text(units) == Some(s),
    decreases s.len(),
{
    if s.len() == 0 {
        assert(s =~= seq![]);
    } else {
        let t = s.drop_first();
        let ut = units.drop_first();
        assert forall|i: int| 0 <= i < t.len() implies #[trigger] ut[i] as u32 == t[i] as u32 by {
            assert(ut[i] == units[i + 1]);
            assert(t[i] == s[i + 1]);
        }
        lemma_utf16_of_bmp(t, ut);
        vstd::utf8::char_is_scalar(s[0]);
        assert(units[0] as u32 == s[0] as u32);
        vstd::utf8::char_u32_cast(s[0], units[0] as u32);
        assert(seq![(units[0] as u32) as char] + t =~= s);
    }
}

proof fn lemma_ascii_bytes(s: Seq<char>)
    requires
        forall|i: int| 0 <= i < s.len() ==> #[trigger] (s[i] as u32) <= 0x7F,
    ensures
        encode_utf8(s).len() == s.len(),
        forall|i: int| 0 <= i < s.len() ==> #[trigger] encode_utf8(s)[i] as u32 == s[i] as u32,
    decreases s.len(),
{
    if s.len() > 0 {
        let t = s.drop_first();
        assert forall|i: int| 0 <= i < t.len() implies #[trigger] (t[i] as u32) <= 0x7F by {
            assert(t[i] == s[i + 1]);
        }
        lemma_ascii_bytes(t);
        let v = s[0] as u32;
        assert(v <= 0x7F);
        assert(v <= 0x7F ==> ((v & 0x7F) as u8) as u32 == v) by (bit_vector);
        let b = encode_utf8(s);
        assert forall|i: int| 0 <= i < s.len() implies #[trigger] b[i] as u32 == s[i] as u32 by {
            if i > 0 {
                assert(b[i] == encode_utf8(t)[i - 1]);
                assert(t[i - 1] == s[i]);
            }
        }
    }
}

/// Reading a text's payload under its chosen encoding gives the text back.
pub proof fn lemma_payload_text(s: Seq<char>)
    ensures
        payload_text(chosen_encoding(s), payload_bits(chosen_encoding(s), s)) == s,
{
    lemma_max_code_point(s);
    vstd::arithmetic::power2::lemma2_to64();
    let e = chosen_encoding(s);
    match e {
        CharacterEncoding::ASCII | CharacterEncoding::UTF8 => {
            let bytes = encode_utf8(s);
            let vals = bytes.map_values(|b: u8| b as nat);
            assert forall|i: int| 0 <= i < vals.len() implies #[trigger] vals[i] < pow2(8) by {}
            lemma_group_values_concat(vals, 8);
            assert(vals.map_values(|v: nat| v as u8) =~= bytes);
            if e == CharacterEncoding::UTF8 {
                vstd::utf8::encode_utf8_valid_utf8(s);
                vstd::utf8::encode_utf8_decode_utf8(s);
            } else {
                lemma_ascii_bytes(s);
                let t = vals.map_values(|v: nat| ((v as u8) as u32) as char);
                assert forall|i: int| 0 <= i < s.len() implies #[trigger] t[i] == s[i] by {
                    assert(bytes[i] as u32 == s[i] as u32);
                    assert(vals[i] == bytes[i] as nat);
                    vstd::utf8::char_u32_cast(s[i], s[i] as u32);
                }
                assert(t =~= s);
            }
        },
        CharacterEncoding::UTF16 => {
            let vals = code_points(s);
            assert forall|i: int| 0 <= i < vals.len() implies #[trigger] vals[i] < pow2(16) by {
                assert(s[i] as u32 <= max_code_point(s));
                assert(vals[i] == (s[i] as u32) as nat);
            }
            lemma_group_values_concat(vals, 16);
            let units = vals.map_values(|v: nat| v as u16);
            assert forall|i: int| 0 <= i < s.len() implies #[trigger] units[i] as u32 == s[i] as u32 by {
                assert(s[i] as u32 <= max_code_point(s));
            }
            lemma_utf16_of_bmp(s, units);
        },
        CharacterEncoding::UTF32 => {
            let vals = code_points(s);
            assert forall|i: int| 0 <= i < vals.len() implies #[trigger] vals[i] < pow2(32) by {}
            lemma_group_values_concat(vals, 32);
            let t = vals.map_values(|v: nat| scalar_or_replacement(v));
            assert forall|i: int| 0 <= i < s.len() implies #[trigger] t[i] == s[i] by {
                vstd::utf8::char_is_scalar(s[i]);
                vstd::utf8::char_u32_cast(s[i], s[i] as u32);
            }
            assert(t =~= s);
        },
    }
}

/// The texts of the successive `k`-byte chunks of `b` (the last one may be shorter),
/// each chunk that is no valid UTF-8 left out.
pub open spec fn chunk_texts(b: Seq<u8>, k: nat) -> Seq<Seq<char>>
    decreases b.len(),
{
    if b.len() == 0 || k == 0 {
        seq![]
    } else {
        let n = if b.len() < k { b.len() as int } else { k as int };
        let c = b.take(n);
        let rest = chunk_texts(b.skip(n), k);
        if valid_utf8(c) {
            seq![decode_utf8(c)] + rest
        } else {
            rest
        }
    }
}

/// The texts `parts`, one after the other, with a space between each two.
pub open spec fn join_spaced(parts: Seq<Seq<char>>) -> Seq<char>
    decreases parts.len(),
{
    if parts.len() == 0 {
        seq![]
    } else if parts.len() == 1 {
        parts[0]
    } else {
        join_spaced(parts.drop_last()) + seq![' '] + parts.last()
    }
}

/// The UTF-8 bytes of `text` cut into chunks of `chunk_size` bytes, the chunks that are
/// valid UTF-8 joined by spaces: `"00000111"` in chunks of 4 gives `"0000 0111"`.
pub fn to_binary_chunks(text: &str, chunk_size: usize) -> (r: String)
    requires
        chunk_size > 0,
    ensures
        r@ == join_spaced(chunk_texts(encode_utf8(text@), chunk_size as nat)),
{
    let bytes = text.as_bytes_vec();
    let ghost b = bytes@;
    let ghost k = chunk_size as nat;
    let n: usize = bytes.len();
    let mut parts: Vec<String> = Vec::new();
    let mut pos: usize = 0;
    proof {
        assert(b.skip(0) =~= b);
        assert(parts@.map_values(|p: String| p@) =~= seq![]);
        assert(seq![] + chunk_texts(b, k) =~= chunk_texts(b, k));
    }
    while pos < n
        invariant
            n == b.len(),
            b == bytes@,
            b == encode_utf8(text@),
            pos <= n,
            k == chunk_size > 0,
            parts@.map_values(|p: String| p@) + chunk_texts(b.skip(pos as int), k) == chunk_texts(b, k),
        decreases n - pos,
    {
        let stop: usize = if n - pos < chunk_size {
            n
        } else {
            pos + chunk_size
        };
        let mut chunk: Vec<u8> = Vec::new();
        let mut i: usize = pos;
        while i < stop
            invariant
                pos <= i <= stop <= n,
                n == bytes@.len(),
                chunk@ == bytes@.subrange(pos as int, i as int),
            decreases stop - i,
        {
            chunk.push(bytes[i]);
            proof {
                assert(chunk@ =~= bytes@.subrange(pos as int, i + 1));
            }
            i = i + 1;
        }
        let ghost tail = b.skip(pos as int);
        proof {
            assert(tail.take(stop - pos) =~= chunk@);
            assert(tail.skip(stop - pos) =~= b.skip(stop as int));
        }
        let ghost before = parts@.map_values(|p: String| p@);
        match string_from_utf8(chunk) {
            Some(t) => {
                parts.push(t);
                proof {
                    assert(parts@.map_values(|p: String| p@) =~= before.push(t@));
                    assert(before.push(t@) + chunk_texts(b.skip(stop as int), k) =~= before + chunk_texts(
                        tail,
                        k,
                    ));
                }
            },
            None => {},
        }
        pos = stop;
    }
    proof {
        assert(b.skip(n as int) =~= seq![]);
        assert(parts@.map_values(|p: String| p@) + seq![] =~= parts@.map_values(|p: String| p@));
    }
    let ghost ps = parts@.map_values(|p: String| p@);
    let mut out: Vec<char> = Vec::new();
    let mut j: usize = 0;
    while j < parts.len()
        invariant
            j <= parts@.len(),
            ps == parts@.map_values(|p: String| p@),
            out@ == join_spaced(ps.take(j as int)),
        decreases parts@.len() - j,
    {
        let cs = chars_of(parts[j].as_str());
        if j > 0 {
            out.push(' ');
        }
        let mut i: usize = 0;
        let ghost start = out@;
        while i < cs.len()
            invariant
                i <= cs@.len(),
                out@ == start + cs@.take(i as int),
            decreases cs@.len() - i,
        {
            out.push(cs[i]);
            proof {
                assert(out@ =~= start + cs@.take(i + 1));
            }
            i = i + 1;
        }
        proof {
            assert(cs@.take(cs@.len() as int) =~= cs@);
            assert(ps.take(j + 1).drop_last() =~= ps.take(j as int));
            if j == 0 {
                assert(start =~= seq![]);
            }
        }
        j = j + 1;
    }
    proof {
        assert(ps.take(parts@.len() as int) =~= ps);
    }
    string_from_chars(&out)
}

} // verus!
