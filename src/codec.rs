//! Embedding a framed message into an image's least-significant bits, and reading it back.
use crate::bits::{is_bit_seq, lemma_to_bits, read_value, to_bits};
use crate::encoding::{
    calculate_bits_of_encoded_string, chosen_encoding, encoding_of_tag,
    lemma_ascii_text_is_tagged_ascii, lemma_payload_bit_len_bound, payload_bit_len, tag_of,
    CharacterEncoding, MAX_MESSAGE_CHARS,
};
use crate::frame::{
    build_frame, code_point_text, decode_payload, frame_bits, header_len, header_tag,
    lemma_payload_bits_len, lemma_payload_text, payload_bits, read_frame,
};
use crate::image::{
    capacity, channels_per_pixel, embedded, lemma_embedded, lemma_embedded_len,
    lemma_slots_upto, lemma_slots_upto_well_placed, lemma_walk_kept, lsbs_at, pixel_skipped,
    read_slot_bits, slots, walk, walk_slots, walk_stable, well_placed, EncodeConfig, Image,
};
use vstd::prelude::*;
use vstd::string::StrSliceExecFns;

verus! {

/// Why a message could not be embedded.
#[derive(Clone, Copy, Debug, PartialEq, Eq, Structural)]
pub enum EncodeError {
    /// The message has more characters than a frame's length field can account for.
    MessageTooLong,
    /// The framed message needs more bits than the image's capacity.
    CapacityExceeded,
    /// The encoding that the caller expected is not the one chosen for the message.
    EncodingMismatch,
}

/// Why no message could be read from an image.
#[derive(Clone, Copy, Debug, PartialEq, Eq, Structural)]
pub enum DecodeError {
    /// The frame's first byte names no known encoding.
    InvalidEncodingTag(u8),
}

/// Bits that the frame of `s` takes: the header and the payload.
pub open spec fn framed_bit_len(s: Seq<char>) -> nat {
    40 + payload_bit_len(s)
}

/// The number of walk slots that an embedding of `s` writes.
pub open spec fn written_slots(d: Seq<u8>, s: Seq<char>, cfg: EncodeConfig) -> nat {
    let f = frame_bits(s);
    if f.len() <= walk(d, cfg).len() {
        f.len()
    } else {
        walk(d, cfg).len()
    }
}

/// The RGBA buffer `d` once the frame of `s` is written into the walk's slots, as far as
/// they reach.
pub open spec fn encoded_data(d: Seq<u8>, s: Seq<char>, cfg: EncodeConfig) -> Seq<u8> {
    let m = written_slots(d, s, cfg) as int;
    embedded(d, walk(d, cfg).take(m), frame_bits(s).take(m))
}

/// What reading the image buffer `d` under `cfg` gives.
pub open spec fn decoded(d: Seq<u8>, cfg: EncodeConfig) -> Result<Seq<char>, DecodeError> {
    match read_frame(lsbs_at(d, walk(d, cfg))) {
        Ok(t) => Ok(t),
        Err(tag) => Err(DecodeError::InvalidEncodingTag(tag)),
    }
}

/// The number of bits available for hiding a message in `image`: three or four for each
/// pixel, as the alpha channel is left out or not. Pixels that the walk skips are counted too.
pub fn calculate_capacity(image: &Image, config: &EncodeConfig) -> (r: usize)
    requires
        image.wf(),
    ensures
        r == capacity(image, *config),
{
    let k: usize = if config.ignore_alpha {
        3
    } else {
        4
    };
    let n: usize = image.data.len() / 4;
    proof {
        assert(n == image.pixel_count());
        assert(n * k <= n * 4) by (nonlinear_arith)
            requires
                k <= 4,
        ;
    }
    n * k
}

pub proof fn lemma_lsbs_are_bits(d: Seq<u8>, sl: Seq<usize>)
    ensures
        is_bit_seq(lsbs_at(d, sl)),
{
    assert forall|i: int| 0 <= i < lsbs_at(d, sl).len() implies #[trigger] lsbs_at(d, sl)[i] <= 1 by {
        let x = d[sl[i] as int];
        assert(x & 1 <= 1) by (bit_vector);
    }
}

/// Hides `message` in a copy of `img`, whose walk under `config` carries the message's frame.
///
/// Fails where the message is too long for a frame, or its frame needs more bits than
/// `calculate_capacity` gives. Where `encoding_input` is not the encoding chosen for the
/// message, it fails too, or, with `config.no_panic`, returns the image unchanged. Where
/// skipped pixels leave fewer slots than the frame needs, the frame is written as far as
/// the slots reach.
pub fn encode_image(
    img: &Image,
    message: &str,
    encoding_input: CharacterEncoding,
    config: EncodeConfig,
) -> (r: Result<Image, EncodeError>)
    requires
        img.wf(),
    ensures
        r == Err::<Image, EncodeError>(EncodeError::MessageTooLong) <==> message@.len()
            > MAX_MESSAGE_CHARS,
        r == Err::<Image, EncodeError>(EncodeError::CapacityExceeded) <==> message@.len()
            <= MAX_MESSAGE_CHARS && framed_bit_len(message@) > capacity(img, config),
        r == Err::<Image, EncodeError>(EncodeError::EncodingMismatch) <==> message@.len()
            <= MAX_MESSAGE_CHARS && framed_bit_len(message@) <= capacity(img, config)
            && chosen_encoding(message@) != encoding_input && !config.no_panic,
        r matches Ok(out) ==> out.wf() && out.width == img.width && out.height == img.height
            && out.data@ == (if chosen_encoding(message@) == encoding_input {
            encoded_data(img.data@, message@, config)
        } else {
            img.data@
        }),
{
    if message.unicode_len() > MAX_MESSAGE_CHARS {
        return Err(EncodeError::MessageTooLong);
    }
    let (encoding, message_size) = calculate_bits_of_encoded_string(message);
    let cap = calculate_capacity(img, &config);
    if 40 + message_size as u64 > cap as u64 {
        return Err(EncodeError::CapacityExceeded);
    }
    let mut data = img.data.clone();
    proof {
        assert(data@ =~= img.data@);
    }
    if encoding != encoding_input {
        if config.no_panic {
            return Ok(Image { width: img.width, height: img.height, data });
        } else {
            return Err(EncodeError::EncodingMismatch);
        }
    }
    let frame = build_frame(message);
    let sl = walk_slots(img, config, frame.len());
    let ghost d = img.data@;
    let ghost f = frame@;
    let ghost m = sl@.len() as int;
    proof {
        lemma_slots_upto(d, config, d.len() / 4, d.len() / 4);
        assert(m == written_slots(d, message@, config));
        assert(embedded(d, sl@.take(0), f.take(0)) == d);
    }
    let mut j: usize = 0;
    while j < sl.len()
        invariant
            j <= sl@.len() == m <= f.len(),
            f == frame@,
            sl@ == walk(d, config).take(m),
            forall|i: int| 0 <= i < sl@.len() ==> #[trigger] sl@[i] < d.len(),
            data@ == embedded(d, sl@.take(j as int), f.take(j as int)),
        decreases sl@.len() - j,
    {
        let pos = sl[j];
        proof {
            lemma_embedded_len(d, sl@.take(j as int), f.take(j as int));
        }
        let v = (data[pos] & 0xFE) | frame[j];
        data.set(pos, v);
        proof {
            let s1 = sl@.take(j + 1);
            let f1 = f.take(j + 1);
            assert(s1.drop_last() =~= sl@.take(j as int));
            assert(f1.take(s1.len() - 1) =~= f.take(j as int));
        }
        j = j + 1;
    }
    proof {
        assert(sl@.take(m) =~= sl@);
        lemma_embedded_len(d, sl@, f.take(m));
    }
    Ok(Image { width: img.width, height: img.height, data })
}

/// Reads the message hidden in `img` under `config`: the text of the first whole frame
/// that the walk's bits hold, or their best-effort reading as 32-bit code points when the
/// walk ends first. Fails where the frame's tag names no known encoding.
pub fn decode_image(img: &Image, config: EncodeConfig) -> (r: Result<String, DecodeError>)
    requires
        img.wf(),
    ensures
        match decoded(img.data@, config) {
            Ok(t) => r matches Ok(s) && s@ == t,
            Err(e) => r == Err::<String, DecodeError>(e),
        },
{
    let ghost b = lsbs_at(img.data@, slots(img, config));
    proof {
        lemma_lsbs_are_bits(img.data@, slots(img, config));
    }
    let head = read_slot_bits(img, config, 40);
    proof {
        lemma_lsbs_are_bits(img.data@, slots(img, config).take(head@.len() as int));
    }
    if head.len() < 40 {
        proof {
            assert(slots(img, config).take(head@.len() as int) =~= slots(img, config));
            assert(head@.subrange(0, head@.len() as int) =~= head@);
        }
        return Ok(code_point_text(&head, 0, head.len()));
    }
    proof {
        assert(head@ =~= b.take(40));
        assert(head@.subrange(0, 8) =~= b.take(8));
        assert(head@.subrange(8, 40) =~= b.subrange(8, 40));
    }
    let tag = read_value(&head, 0, 8);
    let encoding = match CharacterEncoding::from_bit_value(tag as u8) {
        Some(e) => e,
        None => {
            return Err(DecodeError::InvalidEncodingTag(tag as u8));
        },
    };
    let n = read_value(&head, 8, 40);
    let want: usize = if n as u64 <= usize::MAX as u64 - 40 {
        40 + n as usize
    } else {
        usize::MAX
    };
    let bits = read_slot_bits(img, config, want);
    let total: usize = img.data.len();
    proof {
        let q = img.data@.len() / 4;
        lemma_slots_upto(img.data@, config, q, q);
        assert(q * channels_per_pixel(config) <= q * 4) by (nonlinear_arith)
            requires
                channels_per_pixel(config) <= 4,
        ;
        assert(slots(img, config).len() <= total);
        lemma_lsbs_are_bits(img.data@, slots(img, config).take(bits@.len() as int));
        assert(bits@ =~= b.take(bits@.len() as int));
    }
    if (bits.len() as u64) < 40 + n as u64 {
        proof {
            assert(slots(img, config).take(bits@.len() as int) =~= slots(img, config));
            assert(bits@.subrange(0, bits@.len() as int) =~= bits@);
        }
        return Ok(code_point_text(&bits, 0, bits.len()));
    }
    proof {
        assert(bits@.subrange(40, 40 + n as int) =~= b.subrange(40, 40 + header_len(b) as int));
    }
    Ok(decode_payload(encoding, &bits, 40, 40 + n as usize))
}

pub proof fn lemma_frame_bits(s: Seq<char>)
    requires
        s.len() <= MAX_MESSAGE_CHARS,
    ensures
        frame_bits(s).len() == framed_bit_len(s),
        is_bit_seq(frame_bits(s)),
        frame_bits(s).take(8) == to_bits(tag_of(chosen_encoding(s)) as nat, 8),
        frame_bits(s).subrange(8, 40) == to_bits(payload_bit_len(s), 32),
        frame_bits(s).subrange(40, framed_bit_len(s) as int) == payload_bits(chosen_encoding(s), s),
{
    let t = to_bits(tag_of(chosen_encoding(s)) as nat, 8);
    let l = to_bits(payload_bit_len(s), 32);
    let p = payload_bits(chosen_encoding(s), s);
    lemma_to_bits(tag_of(chosen_encoding(s)) as nat, 8);
    lemma_to_bits(payload_bit_len(s), 32);
    lemma_payload_bits_len(s);
    let f = frame_bits(s);
    assert(f == t + l + p);
    assert forall|i: int| 0 <= i < f.len() implies #[trigger] f[i] <= 1 by {
        if i < 8 {
            assert(f[i] == t[i]);
        } else if i < 40 {
            assert(f[i] == l[i - 8]);
        } else {
            assert(f[i] == p[i - 40]);
        }
    }
    assert(f.take(8) =~= t);
    assert(f.subrange(8, 40) =~= l);
    assert(f.subrange(40, framed_bit_len(s) as int) =~= p);
}

/// Embedding a message keeps the walk: the decoder visits the very slots that the encoder
/// wrote, provided no pixel can enter or leave a skip rule through its least-significant bits.
pub proof fn lemma_encoding_keeps_walk(d: Seq<u8>, s: Seq<char>, cfg: EncodeConfig)
    requires
        d.len() % 4 == 0,
        d.len() <= usize::MAX,
        s.len() <= MAX_MESSAGE_CHARS,
        walk_stable(d, cfg),
    ensures
        walk(encoded_data(d, s, cfg), cfg) == walk(d, cfg),
{
    lemma_embedding(d, s, cfg);
}

proof fn lemma_embedding(d: Seq<u8>, s: Seq<char>, cfg: EncodeConfig)
    requires
        d.len() % 4 == 0,
        d.len() <= usize::MAX,
        s.len() <= MAX_MESSAGE_CHARS,
        walk_stable(d, cfg),
    ensures
        walk(encoded_data(d, s, cfg), cfg) == walk(d, cfg),
        forall|j: int|
            0 <= j < written_slots(d, s, cfg) ==> #[trigger] encoded_data(d, s, cfg)[walk(d, cfg)[j] as int]
                & 1 == frame_bits(s)[j],
{
    let w = walk(d, cfg);
    let m = written_slots(d, s, cfg) as int;
    let sl = w.take(m);
    let f = frame_bits(s);
    let bits = f.take(m);
    lemma_slots_upto_well_placed(d, cfg, d.len() / 4);
    lemma_frame_bits(s);
    assert(well_placed(d, sl, cfg)) by {
        assert forall|i: int, j: int| 0 <= i < j < sl.len() implies sl[i] < sl[j] by {
            assert(sl[i] == w[i] && sl[j] == w[j]);
        }
        assert forall|j: int| 0 <= j < sl.len() implies {
            &&& sl[j] < d.len()
            &&& !pixel_skipped(d, sl[j] as int / 4, cfg)
            &&& sl[j] as int % 4 < channels_per_pixel(cfg)
        } by {
            assert(sl[j] == w[j]);
        }
    }
    assert forall|j: int| 0 <= j < bits.len() implies #[trigger] bits[j] <= 1 by {
        assert(bits[j] == f[j]);
    }
    lemma_embedded(d, sl, bits);
    let e = encoded_data(d, s, cfg);
    lemma_walk_kept(d, e, sl, cfg);
    assert forall|j: int| 0 <= j < m implies #[trigger] e[w[j] as int] & 1 == f[j] by {
        assert(sl[j] == w[j]);
        assert(bits[j] == f[j]);
    }
}

/// Decoding an encoded image gives the message back, wherever the walk has a slot for each
/// bit of the frame and no pixel can enter or leave a skip rule through its
/// least-significant bits.
pub proof fn lemma_round_trip(d: Seq<u8>, s: Seq<char>, cfg: EncodeConfig)
    requires
        d.len() % 4 == 0,
        d.len() <= usize::MAX,
        s.len() <= MAX_MESSAGE_CHARS,
        walk_stable(d, cfg),
        framed_bit_len(s) <= walk(d, cfg).len(),
    ensures
        decoded(encoded_data(d, s, cfg), cfg) == Ok::<Seq<char>, DecodeError>(s),
{
    let w = walk(d, cfg);
    let e = encoded_data(d, s, cfg);
    let f = frame_bits(s);
    let n = payload_bit_len(s) as int;
    lemma_frame_bits(s);
    lemma_embedding(d, s, cfg);
    let b = lsbs_at(e, walk(e, cfg));
    assert(b.len() == w.len());
    assert(b.take(f.len() as int) =~= f) by {
        assert forall|j: int| 0 <= j < f.len() implies #[trigger] b.take(f.len() as int)[j] == f[j] by {
            assert(b[j] == e[w[j] as int] & 1);
        }
    }
    assert(b.take(8) =~= f.take(8)) by {
        assert forall|j: int| 0 <= j < 8 implies #[trigger] b.take(8)[j] == f.take(8)[j] by {
            assert(b.take(f.len() as int)[j] == f[j]);
        }
    }
    assert(b.subrange(8, 40) =~= f.subrange(8, 40)) by {
        assert forall|j: int| 0 <= j < 32 implies #[trigger] b.subrange(8, 40)[j] == f.subrange(8, 40)[j] by {
            assert(b.take(f.len() as int)[j + 8] == f[j + 8]);
        }
    }
    assert(b.subrange(40, 40 + n) =~= f.subrange(40, 40 + n)) by {
        assert forall|j: int| 0 <= j < n implies #[trigger] b.subrange(40, 40 + n)[j] == f.subrange(40, 40 + n)[j] by {
            assert(b.take(f.len() as int)[j + 40] == f[j + 40]);
        }
    }
    let tag = tag_of(chosen_encoding(s));
    vstd::arithmetic::power2::lemma2_to64();
    lemma_to_bits(tag as nat, 8);
    lemma_payload_bit_len_bound(s);
    lemma_to_bits(n as nat, 32);
    assert(header_tag(b) == tag as nat);
    assert(header_len(b) == n);
    assert(encoding_of_tag(tag) == Some(chosen_encoding(s)));
    lemma_payload_text(s);
}

/// A one-pixel image offers three or four slots, so it rejects every non-empty ASCII
/// message: the header alone takes forty bits.
pub proof fn lemma_one_pixel_rejects(img: &Image, s: Seq<char>, cfg: EncodeConfig)
    requires
        img.wf(),
        img.width == 1,
        img.height == 1,
        s.len() > 0,
        forall|i: int| 0 <= i < s.len() ==> #[trigger] (s[i] as u32) <= 0x7F,
    ensures
        capacity(img, cfg) == channels_per_pixel(cfg),
        framed_bit_len(s) > capacity(img, cfg),
{
    lemma_ascii_text_is_tagged_ascii(s);
}

} // verus!
