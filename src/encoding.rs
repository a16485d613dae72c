//! Choosing the text encoding of a message, and the size of its payload in bits.
use vstd::prelude::*;

verus! {

/// The most characters a message may hold: a payload of thirty-two bits for each of
/// them still fits the 32-bit length field of a frame.
pub const MAX_MESSAGE_CHARS: usize = 0x7FF_FFFF;

/// The encoding named by the first byte of a frame.
#[allow(clippy::upper_case_acronyms)]
#[derive(Clone, Copy, Debug, PartialEq, Eq, Structural)]
pub enum CharacterEncoding {
    ASCII,
    UTF8,
    UTF16,
    UTF32,
}

/// The byte that stands for each encoding in a frame's header.
pub open spec fn tag_of(e: CharacterEncoding) -> u8 {
    match e {
        CharacterEncoding::ASCII => 0x07,
        CharacterEncoding::UTF8 => 0x08,
        CharacterEncoding::UTF16 => 0x10,
        CharacterEncoding::UTF32 => 0x20,
    }
}

/// The encoding that a header byte names, if any.
pub open spec fn encoding_of_tag(v: u8) -> Option<CharacterEncoding> {
    if v == 0x07 {
        Some(CharacterEncoding::ASCII)
    } else if v == 0x08 {
        Some(CharacterEncoding::UTF8)
    } else if v == 0x10 {
        Some(CharacterEncoding::UTF16)
    } else if v == 0x20 {
        Some(CharacterEncoding::UTF32)
    } else {
        None
    }
}

/// The display name of each encoding.
pub open spec fn encoding_name(e: CharacterEncoding) -> Seq<char> {
    match e {
        CharacterEncoding::ASCII => seq!['A', 'S', 'C', 'I', 'I'],
        CharacterEncoding::UTF8 => seq!['U', 'T', 'F', '8'],
        CharacterEncoding::UTF16 => seq!['U', 'T', 'F', '1', '6'],
        CharacterEncoding::UTF32 => seq!['U', 'T', 'F', '3', '2'],
    }
}

impl CharacterEncoding {
    /// The encoding that a valid header byte names.
    pub fn new(input: u8) -> (r: Self)
        requires
            encoding_of_tag(input) is Some,
        ensures
            encoding_of_tag(input) == Some(r),
            tag_of(r) == input,
    {
        if input == 0x07 {
            CharacterEncoding::ASCII
        } else if input == 0x08 {
            CharacterEncoding::UTF8
        } else if input == 0x10 {
            CharacterEncoding::UTF16
        } else {
            CharacterEncoding::UTF32
        }
    }

    /// The encoding that a header byte names, or `None` for any other byte.
    pub fn from_bit_value(input: u8) -> (r: Option<Self>)
        ensures
            r == encoding_of_tag(input),
    {
        if input == 0x07 || input == 0x08 || input == 0x10 || input == 0x20 {
            Some(CharacterEncoding::new(input))
        } else {
            None
        }
    }

    /// The header byte of this encoding.
    pub fn to_bit_value(&self) -> (r: u8)
        ensures
            r == tag_of(*self),
            encoding_of_tag(r) == Some(*self),
    {
        match self {
            CharacterEncoding::ASCII => 0x07,
            CharacterEncoding::UTF8 => 0x08,
            CharacterEncoding::UTF16 => 0x10,
            CharacterEncoding::UTF32 => 0x20,
        }
    }

    /// The display name of this encoding.
    pub fn name(&self) -> (r: &'static str)
        ensures
            r@ == encoding_name(*self),
    {
        match self {
            CharacterEncoding::ASCII => {
                proof {
                    reveal_strlit("ASCII");
                }
                assert("ASCII"@ =~= encoding_name(*self));
                "ASCII"
            },
            CharacterEncoding::UTF8 => {
                proof {
                    reveal_strlit("UTF8");
                }
                assert("UTF8"@ =~= encoding_name(*self));
                "UTF8"
            },
            CharacterEncoding::UTF16 => {
                proof {
                    reveal_strlit("UTF16");
                }
                assert("UTF16"@ =~= encoding_name(*self));
                "UTF16"
            },
            CharacterEncoding::UTF32 => {
                proof {
                    reveal_strlit("UTF32");
                }
                assert("UTF32"@ =~= encoding_name(*self));
                "UTF32"
            },
        }
    }
}

/// The largest code point of `s`, or 0 for the empty text.
pub open spec fn max_code_point(s: Seq<char>) -> u32
    decreases s.len(),
{
    if s.len() == 0 {
        0
    } else {
        let rest = max_code_point(s.drop_first());
        if s[0] as u32 > rest {
            s[0] as u32
        } else {
            rest
        }
    }
}

/// Bits that a character takes in UTF-8, for characters of the basic multilingual plane.
pub open spec fn utf8_char_bits(c: char) -> nat {
    if c as u32 <= 0x7F {
        8
    } else if c as u32 <= 0x7FF {
        16
    } else {
        24
    }
}

/// Bits that `s` takes in UTF-8, for characters of the basic multilingual plane.
pub open spec fn utf8_text_bits(s: Seq<char>) -> nat
    decreases s.len(),
{
    if s.len() == 0 {
        0
    } else {
        utf8_char_bits(s[0]) + utf8_text_bits(s.drop_first())
    }
}

/// The encoding chosen for `s`: the narrowest that holds its largest code point, and
/// between UTF-8 and UTF-16 the cheaper, UTF-8 on a tie.
pub open spec fn chosen_encoding(s: Seq<char>) -> CharacterEncoding {
    if max_code_point(s) <= 0x7F {
        CharacterEncoding::ASCII
    } else if max_code_point(s) <= 0xFFFF {
        if utf8_text_bits(s) <= 16 * s.len() {
            CharacterEncoding::UTF8
        } else {
            CharacterEncoding::UTF16
        }
    } else {
        CharacterEncoding::UTF32
    }
}

/// The payload size in bits of `s` under its chosen encoding.
pub open spec fn payload_bit_len(s: Seq<char>) -> nat {
    match chosen_encoding(s) {
        CharacterEncoding::ASCII => 8 * s.len(),
        CharacterEncoding::UTF8 => utf8_text_bits(s),
        CharacterEncoding::UTF16 => 16 * s.len(),
        CharacterEncoding::UTF32 => 32 * s.len(),
    }
}

pub proof fn lemma_max_code_point(s: Seq<char>)
    ensures
        forall|i: int| 0 <= i < s.len() ==> #[trigger] (s[i] as u32) <= max_code_point(s),
        max_code_point(s) == 0 || exists|i: int|
            0 <= i < s.len() && #[trigger] (s[i] as u32) == max_code_point(s),
    decreases s.len(),
{
    if s.len() > 0 {
        let t = s.drop_first();
        lemma_max_code_point(t);
        assert forall|i: int| 0 <= i < s.len() implies #[trigger] (s[i] as u32) <= max_code_point(s) by {
            if i > 0 {
                assert(s[i] == t[i - 1]);
            }
        }
        if max_code_point(s) != 0 && max_code_point(s) != s[0] as u32 {
            let j = choose|j: int| 0 <= j < t.len() && #[trigger] (t[j] as u32) == max_code_point(t);
            assert(s[j + 1] == t[j]);
        }
    }
}

pub proof fn lemma_utf8_text_bits_bound(s: Seq<char>)
    ensures
        8 * s.len() <= utf8_text_bits(s) <= 24 * s.len(),
    decreases s.len(),
{
    if s.len() > 0 {
        lemma_utf8_text_bits_bound(s.drop_first());
    }
}

pub proof fn lemma_payload_bit_len_bound(s: Seq<char>)
    ensures
        payload_bit_len(s) <= 32 * s.len(),
{
    lemma_utf8_text_bits_bound(s);
}

/// A text of ASCII characters alone is tagged ASCII.
pub proof fn lemma_ascii_text_is_tagged_ascii(s: Seq<char>)
    requires
        forall|i: int| 0 <= i < s.len() ==> #[trigger] (s[i] as u32) <= 0x7F,
    ensures
        chosen_encoding(s) == CharacterEncoding::ASCII,
{
    lemma_max_code_point(s);
}

/// A text with a code point in `0x80..=0xFFFF` and none above is tagged UTF-8 or UTF-16.
pub proof fn lemma_bmp_text_is_tagged_utf8_or_utf16(s: Seq<char>, k: int)
    requires
        0 <= k < s.len(),
        0x80 <= s[k] as u32 <= 0xFFFF,
        forall|i: int| 0 <= i < s.len() ==> #[trigger] (s[i] as u32) <= 0xFFFF,
    ensures
        chosen_encoding(s) == CharacterEncoding::UTF8 || chosen_encoding(s)
            == CharacterEncoding::UTF16,
{
    lemma_max_code_point(s);
    assert(s[k] as u32 <= max_code_point(s));
}

/// A text with a code point of `0x10000` or above is tagged UTF-32 as a whole.
pub proof fn lemma_astral_text_is_tagged_utf32(s: Seq<char>, k: int)
    requires
        0 <= k < s.len(),
        s[k] as u32 >= 0x10000,
    ensures
        chosen_encoding(s) == CharacterEncoding::UTF32,
        payload_bit_len(s) == 32 * s.len(),
{
    lemma_max_code_point(s);
    assert(s[k] as u32 <= max_code_point(s));
}

/// Relies on `str::chars`, collected into a `Vec`: the characters of `s`, in order.
#[verifier::external_body]
pub(crate) fn chars_of(s: &str) -> (r: Vec<char>)
    ensures
        r@ == s@,
{
    s.chars().collect()
}

/// The encoding chosen for the characters `cs`, and their payload size in bits.
pub fn select_encoding(cs: &Vec<char>) -> (r: (CharacterEncoding, u32))
    requires
        cs@.len() <= MAX_MESSAGE_CHARS,
    ensures
        r.0 == chosen_encoding(cs@),
        r.1 == payload_bit_len(cs@),
{
    let n: usize = cs.len();
    let mut max: u32 = 0;
    let mut utf8_bits: u32 = 0;
    let mut i: usize = n;
    while i > 0
        invariant
            n == cs@.len() <= MAX_MESSAGE_CHARS,
            i <= n,
            max == max_code_point(cs@.subrange(i as int, n as int)),
            utf8_bits == utf8_text_bits(cs@.subrange(i as int, n as int)),
            utf8_bits <= 24 * (n - i),
        decreases i,
    {
        i = i - 1;
        let c: u32 = cs[i] as u32;
        proof {
            let t = cs@.subrange(i as int, n as int);
            assert(t.drop_first() =~= cs@.subrange(i + 1, n as int));
            assert(t[0] == cs@[i as int]);
        }
        if c > max {
            max = c;
        }
        let w: u32 = if c <= 0x7F {
            8
        } else if c <= 0x7FF {
            16
        } else {
            24
        };
        utf8_bits = utf8_bits + w;
    }
    proof {
        assert(cs@.subrange(0, n as int) =~= cs@);
        lemma_utf8_text_bits_bound(cs@);
    }
    if max <= 0x7F {
        (CharacterEncoding::ASCII, n as u32 * 8)
    } else if max <= 0xFFFF {
        let utf16_bits: u32 = n as u32 * 16;
        if utf8_bits <= utf16_bits {
            (CharacterEncoding::UTF8, utf8_bits)
        } else {
            (CharacterEncoding::UTF16, utf16_bits)
        }
    } else {
        (CharacterEncoding::UTF32, n as u32 * 32)
    }
}

/// The encoding chosen for `s`, and the size in bits of its payload.
pub fn calculate_bits_of_encoded_string(s: &str) -> (r: (CharacterEncoding, u32))
    requires
        s@.len() <= MAX_MESSAGE_CHARS,
    ensures
        r.0 == chosen_encoding(s@),
        r.1 == payload_bit_len(s@),
{
    let cs = chars_of(s);
    select_encoding(&cs)
}

} // verus!
