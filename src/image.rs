//! RGBA pixel buffers, and the walk over the channels that carry hidden bits.
use vstd::prelude::*;

verus! {

/// An RGBA image: `width` × `height` pixels in row-major order, four bytes each (R, G, B, A).
pub struct Image {
    pub width: u32,
    pub height: u32,
    pub data: Vec<u8>,
}

impl Image {
    /// The buffer holds exactly four bytes for each pixel.
    pub open spec fn wf(&self) -> bool {
        self.data@.len() == self.width as int * self.height as int * 4
    }

    /// Number of pixels.
    pub open spec fn pixel_count(&self) -> nat {
        (self.width as int * self.height as int) as nat
    }

    /// The image with the given size and RGBA bytes, or `None` where the buffer has
    /// another length than four bytes for each pixel.
    pub fn from_raw(width: u32, height: u32, data: Vec<u8>) -> (r: Option<Image>)
        ensures
            r is Some <==> data@.len() == width as int * height as int * 4,
            r matches Some(img) ==> img.wf() && img.width == width && img.height == height
                && img.data@ == data@,
    {
        let n: usize = data.len();
        if n % 4 != 0 {
            proof {
                assert(n as int % 4 != 0 ==> n as int != width as int * height as int * 4);
            }
            return None;
        }
        let pixels: usize = n / 4;
        if width == 0 || height == 0 {
            if pixels == 0 {
                proof {
                    assert(width as int * height as int == 0) by (nonlinear_arith)
                        requires
                            width == 0 || height == 0,
                    ;
                }
                return Some(Image { width, height, data });
            } else {
                proof {
                    assert(width as int * height as int == 0) by (nonlinear_arith)
                        requires
                            width == 0 || height == 0,
                    ;
                }
                return None;
            }
        }
        if pixels % (width as usize) != 0 || pixels / (width as usize) != height as usize {
            proof {
                if n as int == width as int * height as int * 4 {
                    assert(pixels as int == width as int * height as int);
                    vstd::arithmetic::div_mod::lemma_mod_multiples_basic(height as int, width as int);
                    vstd::arithmetic::div_mod::lemma_div_multiples_vanish(height as int, width as int);
                    assert(height as int * width as int == width as int * height as int) by (nonlinear_arith);
                }
            }
            return None;
        }
        proof {
            vstd::arithmetic::div_mod::lemma_fundamental_div_mod(pixels as int, width as int);
            assert(pixels as int == width as int * height as int);
        }
        Some(Image { width, height, data })
    }
}

/// How one call reads or writes an image.
#[derive(Clone, Copy, Debug)]
pub struct EncodeConfig {
    /// Leave the alpha channel out of the walk.
    pub ignore_alpha: bool,
    /// Leave pixels whose colour is exactly (255, 255, 255) out of the walk.
    pub ignore_white_pixels: bool,
    /// Leave pixels whose colour is exactly (0, 0, 0) out of the walk.
    pub ignore_black_pixels: bool,
    /// Asks the caller for a trace of its work; the codec itself prints nothing.
    pub debug: bool,
    /// Return the input unchanged instead of failing when the expected encoding is not the chosen one.
    pub no_panic: bool,
}

/// The colour channel at each position of a pixel.
#[derive(Clone, Copy, Debug, PartialEq, Eq, Structural)]
pub enum Channel {
    Red,
    Green,
    Blue,
    Alpha,
}

pub open spec fn channel_at(i: int) -> Channel {
    if i == 0 {
        Channel::Red
    } else if i == 1 {
        Channel::Green
    } else if i == 2 {
        Channel::Blue
    } else {
        Channel::Alpha
    }
}

pub open spec fn channel_name(c: Channel) -> Seq<char> {
    match c {
        Channel::Red => seq!['R', 'e', 'd'],
        Channel::Green => seq!['G', 'r', 'e', 'e', 'n'],
        Channel::Blue => seq!['B', 'l', 'u', 'e'],
        Channel::Alpha => seq!['A', 'l', 'p', 'h', 'a'],
    }
}

impl Channel {
    /// The channel at position `i` of a pixel.
    pub fn new(i: usize) -> (r: Channel)
        requires
            i < 4,
        ensures
            r == channel_at(i as int),
    {
        if i == 0 {
            Channel::Red
        } else if i == 1 {
            Channel::Green
        } else if i == 2 {
            Channel::Blue
        } else {
            Channel::Alpha
        }
    }

    /// The display name of the channel.
    pub fn name(&self) -> (r: &'static str)
        ensures
            r@ == channel_name(*self),
    {
        match self {
            Channel::Red => {
                proof {
                    reveal_strlit("Red");
                }
                assert("Red"@ =~= channel_name(*self));
                "Red"
            },
            Channel::Green => {
                proof {
                    reveal_strlit("Green");
                }
                assert("Green"@ =~= channel_name(*self));
                "Green"
            },
            Channel::Blue => {
                proof {
                    reveal_strlit("Blue");
                }
                assert("Blue"@ =~= channel_name(*self));
                "Blue"
            },
            Channel::Alpha => {
                proof {
                    reveal_strlit("Alpha");
                }
                assert("Alpha"@ =~= channel_name(*self));
                "Alpha"
            },
        }
    }
}

/// Channels of each pixel that the walk visits.
pub open spec fn channels_per_pixel(cfg: EncodeConfig) -> nat {
    if cfg.ignore_alpha {
        3
    } else {
        4
    }
}

/// Pixel `p` of the buffer `d` is left out of the walk under `cfg`.
pub open spec fn pixel_skipped(d: Seq<u8>, p: int, cfg: EncodeConfig) -> bool {
    let (r, g, b) = (d[4 * p], d[4 * p + 1], d[4 * p + 2]);
    (cfg.ignore_white_pixels && r == 255 && g == 255 && b == 255) || (cfg.ignore_black_pixels
        && r == 0 && g == 0 && b == 0)
}

/// The buffer positions that pixel `p` gives to the walk.
pub open spec fn pixel_slots(d: Seq<u8>, p: int, cfg: EncodeConfig) -> Seq<usize> {
    if pixel_skipped(d, p, cfg) {
        seq![]
    } else {
        Seq::new(channels_per_pixel(cfg), |c: int| (4 * p + c) as usize)
    }
}

/// The buffer positions that the walk visits in the first `p` pixels, in order.
pub open spec fn slots_upto(d: Seq<u8>, cfg: EncodeConfig, p: nat) -> Seq<usize>
    decreases p,
{
    if p == 0 {
        seq![]
    } else {
        slots_upto(d, cfg, (p - 1) as nat) + pixel_slots(d, p - 1, cfg)
    }
}

/// The walk: the buffer positions of the eligible (pixel, channel) slots of `img`, pixels in
/// row-major order and channels in ascending order within a pixel.
pub open spec fn slots(img: &Image, cfg: EncodeConfig) -> Seq<usize> {
    walk(img.data@, cfg)
}

/// The walk over an RGBA buffer `d`.
pub open spec fn walk(d: Seq<u8>, cfg: EncodeConfig) -> Seq<usize> {
    slots_upto(d, cfg, d.len() / 4)
}

/// The upper bound on slots that the capacity check uses: every channel that the walk may
/// visit, with no pixel left out.
pub open spec fn capacity(img: &Image, cfg: EncodeConfig) -> nat {
    img.pixel_count() * channels_per_pixel(cfg)
}

pub proof fn lemma_slots_upto(d: Seq<u8>, cfg: EncodeConfig, p: nat, q: nat)
    requires
        p <= q,
        4 * q <= d.len(),
    ensures
        slots_upto(d, cfg, p).len() <= slots_upto(d, cfg, q).len(),
        slots_upto(d, cfg, p) == slots_upto(d, cfg, q).take(slots_upto(d, cfg, p).len() as int),
        slots_upto(d, cfg, q).len() <= q * channels_per_pixel(cfg),
        forall|j: int|
            0 <= j < slots_upto(d, cfg, q).len() ==> #[trigger] slots_upto(d, cfg, q)[j] < 4 * q,
    decreases q,
{
    if q > 0 {
        if p < q {
            lemma_slots_upto(d, cfg, p, (q - 1) as nat);
        }
        lemma_slots_upto(d, cfg, (q - 1) as nat, (q - 1) as nat);
        let a = slots_upto(d, cfg, (q - 1) as nat);
        let b = pixel_slots(d, q - 1, cfg);
        assert(slots_upto(d, cfg, q) == a + b);
        assert(slots_upto(d, cfg, q).take(a.len() as int) =~= a);
        if p < q {
            assert(slots_upto(d, cfg, q).take(slots_upto(d, cfg, p).len() as int) =~= a.take(
                slots_upto(d, cfg, p).len() as int,
            ));
        } else {
            assert(slots_upto(d, cfg, q).take(slots_upto(d, cfg, q).len() as int) =~= slots_upto(
                d,
                cfg,
                q,
            ));
        }
        assert(q * channels_per_pixel(cfg) == (q - 1) * channels_per_pixel(cfg) + channels_per_pixel(cfg))
            by (nonlinear_arith);
        assert forall|j: int| 0 <= j < slots_upto(d, cfg, q).len() implies #[trigger] slots_upto(
            d,
            cfg,
            q,
        )[j] < 4 * q by {
            if j >= a.len() {
                assert(slots_upto(d, cfg, q)[j] == b[j - a.len()]);
            }
        }
    }
}

/// The buffer positions of the first `limit` slots of the walk (all of them, where there are fewer).
pub fn walk_slots(img: &Image, cfg: EncodeConfig, limit: usize) -> (r: Vec<usize>)
    requires
        img.wf(),
    ensures
        r@.len() == (if limit <= slots(img, cfg).len() { limit as int } else { slots(img, cfg).len() as int }),
        r@ == slots(img, cfg).take(r@.len() as int),
{
    let ghost d = img.data@;
    let total: usize = img.data.len();
    let n: usize = total / 4;
    let k: usize = if cfg.ignore_alpha {
        3
    } else {
        4
    };
    proof {
        assert(n as int == img.pixel_count());
    }
    let mut out: Vec<usize> = Vec::new();
    let mut p: usize = 0;
    while p < n && out.len() < limit
        invariant
            n == img.pixel_count(),
            4 * n == d.len(),
            total == d.len(),
            d == img.data@,
            k == channels_per_pixel(cfg),
            p <= n,
            out@.len() <= limit,
            out@.len() <= slots_upto(d, cfg, p as nat).len(),
            out@.len() < limit ==> out@.len() == slots_upto(d, cfg, p as nat).len(),
            out@ == slots_upto(d, cfg, p as nat).take(out@.len() as int),
        decreases n - p,
    {
        let base: usize = 4 * p;
        let skip = (cfg.ignore_white_pixels && img.data[base] == 255 && img.data[base + 1] == 255
            && img.data[base + 2] == 255) || (cfg.ignore_black_pixels && img.data[base] == 0
            && img.data[base + 1] == 0 && img.data[base + 2] == 0);
        let ghost prev = slots_upto(d, cfg, p as nat);
        let ghost here = pixel_slots(d, p as int, cfg);
        proof {
            assert(slots_upto(d, cfg, (p + 1) as nat) == prev + here);
            assert(out@ =~= prev);
        }
        if !skip {
            let mut c: usize = 0;
            while c < k && out.len() < limit
                invariant
                    k == channels_per_pixel(cfg),
                    c <= k,
                    base == 4 * p,
                    p < n,
                    4 * n == d.len(),
                    here == Seq::new(k as nat, |j: int| (4 * p + j) as usize),
                    out@.len() <= limit,
                    out@.len() == prev.len() + c,
                    out@ == (prev + here).take(out@.len() as int),
                decreases k - c,
            {
                out.push(base + c);
                proof {
                    assert(out@ =~= (prev + here).take(out@.len() as int));
                }
                c = c + 1;
            }
            proof {
                assert(here.len() == k);
            }
        } else {
            proof {
                assert(here =~= seq![]);
                assert(prev + here =~= prev);
            }
        }
        p = p + 1;
    }
    proof {
        lemma_slots_upto(d, cfg, p as nat, n as nat);
        let s = slots_upto(d, cfg, n as nat);
        let sp = slots_upto(d, cfg, p as nat);
        assert(sp.take(out@.len() as int) =~= s.take(out@.len() as int));
    }
    out
}

/// The least-significant bits of the bytes of `d` at the positions `sl`.
pub open spec fn lsbs_at(d: Seq<u8>, sl: Seq<usize>) -> Seq<u8> {
    sl.map_values(|i: usize| d[i as int] & 1)
}

/// `x` with its least-significant bit replaced by `bit`.
pub open spec fn with_lsb(x: u8, bit: u8) -> u8 {
    (x & 0xFE) | bit
}

/// `d` with the least-significant bit at position `sl[j]` set to `bits[j]`, for each `j`.
pub open spec fn embedded(d: Seq<u8>, sl: Seq<usize>, bits: Seq<u8>) -> Seq<u8>
    decreases sl.len(),
{
    if sl.len() == 0 || bits.len() == 0 {
        d
    } else {
        let prev = embedded(d, sl.drop_last(), bits.take(sl.len() - 1));
        prev.update(sl.last() as int, with_lsb(prev[sl.last() as int], bits[sl.len() - 1]))
    }
}

pub proof fn lemma_embedded_len(d: Seq<u8>, sl: Seq<usize>, bits: Seq<u8>)
    requires
        forall|i: int| 0 <= i < sl.len() ==> #[trigger] sl[i] < d.len(),
    ensures
        embedded(d, sl, bits).len() == d.len(),
    decreases sl.len(),
{
    if sl.len() > 0 && bits.len() > 0 {
        lemma_embedded_len(d, sl.drop_last(), bits.take(sl.len() - 1));
    }
}

/// The bits of the walk's first `limit` slots, in order.
pub fn read_slot_bits(img: &Image, cfg: EncodeConfig, limit: usize) -> (r: Vec<u8>)
    requires
        img.wf(),
    ensures
        r@.len() == (if limit <= slots(img, cfg).len() { limit as int } else { slots(img, cfg).len() as int }),
        r@ == lsbs_at(img.data@, slots(img, cfg).take(r@.len() as int)),
{
    let sl = walk_slots(img, cfg, limit);
    proof {
        lemma_slots_upto(img.data@, cfg, img.pixel_count(), img.pixel_count());
    }
    let mut out: Vec<u8> = Vec::new();
    let mut j: usize = 0;
    while j < sl.len()
        invariant
            j <= sl@.len(),
            sl@ == slots(img, cfg).take(sl@.len() as int),
            sl@.len() <= slots(img, cfg).len(),
            img.wf(),
            forall|i: int| 0 <= i < sl@.len() ==> #[trigger] sl@[i] < img.data@.len(),
            out@ == lsbs_at(img.data@, sl@.take(j as int)),
        decreases sl@.len() - j,
    {
        out.push(img.data[sl[j]] & 1);
        proof {
            assert(out@ =~= lsbs_at(img.data@, sl@.take(j + 1)));
        }
        j = j + 1;
    }
    proof {
        assert(sl@.take(sl@.len() as int) =~= sl@);
    }
    out
}

/// The positions `sl` are strictly increasing, and each is a channel that the walk may
/// visit of a pixel of `d` that the walk does not skip.
pub open spec fn well_placed(d: Seq<u8>, sl: Seq<usize>, cfg: EncodeConfig) -> bool {
    &&& forall|i: int, j: int| 0 <= i < j < sl.len() ==> sl[i] < sl[j]
    &&& forall|j: int|
        0 <= j < sl.len() ==> {
            &&& sl[j] < d.len()
            &&& !pixel_skipped(d, sl[j] as int / 4, cfg)
            &&& sl[j] as int % 4 < channels_per_pixel(cfg)
        }
}

pub proof fn lemma_slots_upto_well_placed(d: Seq<u8>, cfg: EncodeConfig, q: nat)
    requires
        4 * q <= d.len() <= usize::MAX,
    ensures
        well_placed(d, slots_upto(d, cfg, q), cfg),
        forall|j: int| 0 <= j < slots_upto(d, cfg, q).len() ==> #[trigger] slots_upto(d, cfg, q)[j] < 4 * q,
    decreases q,
{
    if q > 0 {
        lemma_slots_upto_well_placed(d, cfg, (q - 1) as nat);
        let a = slots_upto(d, cfg, (q - 1) as nat);
        let b = pixel_slots(d, q - 1, cfg);
        let s = slots_upto(d, cfg, q);
        assert(s == a + b);
        assert forall|j: int| 0 <= j < s.len() implies #[trigger] s[j] < 4 * q && s[j] < d.len()
            && !pixel_skipped(d, s[j] as int / 4, cfg) && s[j] as int % 4 < channels_per_pixel(cfg) by {
            if j >= a.len() {
                let c = j - a.len();
                assert(s[j] == b[c]);
                assert(s[j] == 4 * (q - 1) + c);
                assert(s[j] as int / 4 == q - 1);
                assert(s[j] as int % 4 == c);
            } else {
                assert(s[j] == a[j]);
            }
        }
        assert forall|i: int, j: int| 0 <= i < j < s.len() implies s[i] < s[j] by {
            if j >= a.len() {
                assert(s[j] == 4 * (q - 1) + (j - a.len()));
                if i >= a.len() {
                    assert(s[i] == 4 * (q - 1) + (i - a.len()));
                } else {
                    assert(s[i] == a[i]);
                    assert(a[i] < 4 * (q - 1));
                }
            } else {
                assert(s[i] == a[i] && s[j] == a[j]);
            }
        }
    }
}

/// No slot of the walk lies in a pixel that a skip rule leaves out, and none is an alpha
/// channel when the alpha channel is left out.
pub proof fn lemma_walk_exclusions(d: Seq<u8>, cfg: EncodeConfig, p: int)
    requires
        d.len() % 4 == 0,
        d.len() <= usize::MAX,
        0 <= p < d.len() / 4,
    ensures
        (cfg.ignore_white_pixels && d[4 * p] == 255 && d[4 * p + 1] == 255 && d[4 * p + 2] == 255)
            ==> forall|j: int| 0 <= j < walk(d, cfg).len() ==> #[trigger] walk(d, cfg)[j] as int / 4 != p,
        (cfg.ignore_black_pixels && d[4 * p] == 0 && d[4 * p + 1] == 0 && d[4 * p + 2] == 0)
            ==> forall|j: int| 0 <= j < walk(d, cfg).len() ==> #[trigger] walk(d, cfg)[j] as int / 4 != p,
        cfg.ignore_alpha ==> forall|j: int|
            0 <= j < walk(d, cfg).len() ==> #[trigger] walk(d, cfg)[j] as int % 4 != 3,
{
    lemma_slots_upto_well_placed(d, cfg, d.len() / 4);
}

pub proof fn lemma_lsb_bits(x: u8, b: u8)
    requires
        b <= 1,
    ensures
        with_lsb(x, b) & 0xFE == x & 0xFE,
        with_lsb(x, b) & 1 == b,
{
    assert(((x & 0xFE) | b) & 0xFE == x & 0xFE) by (bit_vector)
        requires
            b <= 1,
    ;
    assert(((x & 0xFE) | b) & 1 == b) by (bit_vector)
        requires
            b <= 1,
    ;
}

/// Writing bits at strictly increasing positions changes only the least-significant bits
/// there, and each of those then holds its bit.
pub proof fn lemma_embedded(d: Seq<u8>, sl: Seq<usize>, bits: Seq<u8>)
    requires
        forall|i: int, j: int| 0 <= i < j < sl.len() ==> sl[i] < sl[j],
        forall|j: int| 0 <= j < sl.len() ==> #[trigger] sl[j] < d.len(),
        sl.len() == bits.len(),
        forall|j: int| 0 <= j < bits.len() ==> #[trigger] bits[j] <= 1,
    ensures
        embedded(d, sl, bits).len() == d.len(),
        forall|i: int| 0 <= i < d.len() ==> #[trigger] embedded(d, sl, bits)[i] & 0xFE == d[i] & 0xFE,
        forall|i: int|
            0 <= i < d.len() && (forall|j: int| 0 <= j < sl.len() ==> sl[j] != i) ==> #[trigger] embedded(
                d,
                sl,
                bits,
            )[i] == d[i],
        forall|j: int| 0 <= j < sl.len() ==> #[trigger] embedded(d, sl, bits)[sl[j] as int] & 1 == bits[j],
    decreases sl.len(),
{
    if sl.len() > 0 {
        let n = sl.len() - 1;
        let s0 = sl.drop_last();
        let b0 = bits.take(n);
        lemma_embedded(d, s0, b0);
        let prev = embedded(d, s0, b0);
        let e = embedded(d, sl, bits);
        let last = sl.last() as int;
        lemma_lsb_bits(prev[last], bits[n]);
        assert(e == prev.update(last, with_lsb(prev[last], bits[n])));
        assert forall|i: int| 0 <= i < d.len() implies #[trigger] e[i] & 0xFE == d[i] & 0xFE by {
            if i != last {
                assert(e[i] == prev[i]);
            }
        }
        assert forall|i: int|
            0 <= i < d.len() && (forall|j: int| 0 <= j < sl.len() ==> sl[j] != i) implies #[trigger] e[i]
            == d[i] by {
            assert(sl[n] != i);
            assert forall|j: int| 0 <= j < s0.len() implies s0[j] != i by {
                assert(s0[j] == sl[j]);
            }
        }
        assert forall|j: int| 0 <= j < sl.len() implies #[trigger] e[sl[j] as int] & 1 == bits[j] by {
            if j < n {
                assert(sl[j] < sl[n]);
                assert(s0[j] == sl[j]);
                assert(b0[j] == bits[j]);
            }
        }
    }
}

/// A pixel that differs from white, or from black, in its least-significant bits alone is
/// exactly white, or black, wherever the matching skip rule is set.
pub open spec fn pixel_stable(d: Seq<u8>, p: int, cfg: EncodeConfig) -> bool {
    let (r, g, b) = (d[4 * p], d[4 * p + 1], d[4 * p + 2]);
    &&& cfg.ignore_white_pixels && r & 0xFE == 254 && g & 0xFE == 254 && b & 0xFE == 254 ==> r
        == 255 && g == 255 && b == 255
    &&& cfg.ignore_black_pixels && r & 0xFE == 0 && g & 0xFE == 0 && b & 0xFE == 0 ==> r == 0 && g
        == 0 && b == 0
}

/// No pixel of `d` can enter or leave a skip rule by a change of least-significant bits.
pub open spec fn walk_stable(d: Seq<u8>, cfg: EncodeConfig) -> bool {
    forall|p: int| 0 <= p < d.len() / 4 ==> #[trigger] pixel_stable(d, p, cfg)
}

proof fn lemma_byte_classes(x: u8)
    ensures
        x == 255 ==> x & 0xFE == 254,
        x == 0 ==> x & 0xFE == 0,
{
    assert(x == 255 ==> x & 0xFE == 254) by (bit_vector);
    assert(x == 0 ==> x & 0xFE == 0) by (bit_vector);
}

/// Changing least-significant bits at well-placed positions of a stable buffer leaves the
/// walk as it was.
pub proof fn lemma_walk_kept(d: Seq<u8>, e: Seq<u8>, sl: Seq<usize>, cfg: EncodeConfig)
    requires
        d.len() % 4 == 0,
        e.len() == d.len(),
        walk_stable(d, cfg),
        well_placed(d, sl, cfg),
        forall|i: int| 0 <= i < d.len() ==> #[trigger] e[i] & 0xFE == d[i] & 0xFE,
        forall|i: int|
            0 <= i < d.len() && (forall|j: int| 0 <= j < sl.len() ==> sl[j] != i) ==> #[trigger] e[i]
                == d[i],
    ensures
        walk(e, cfg) == walk(d, cfg),
{
    let n = d.len() / 4;
    assert forall|p: int| 0 <= p < n implies #[trigger] pixel_skipped(e, p, cfg) == pixel_skipped(
        d,
        p,
        cfg,
    ) by {
        let i0 = 4 * p;
        assert(e[i0] & 0xFE == d[i0] & 0xFE);
        assert(e[i0 + 1] & 0xFE == d[i0 + 1] & 0xFE);
        assert(e[i0 + 2] & 0xFE == d[i0 + 2] & 0xFE);
        lemma_byte_classes(e[i0]);
        lemma_byte_classes(e[i0 + 1]);
        lemma_byte_classes(e[i0 + 2]);
        lemma_byte_classes(d[i0]);
        lemma_byte_classes(d[i0 + 1]);
        lemma_byte_classes(d[i0 + 2]);
        assert(pixel_stable(d, p, cfg));
        if pixel_skipped(d, p, cfg) {
            assert forall|j: int| 0 <= j < sl.len() implies #[trigger] sl[j] as int / 4 != p by {}
            assert forall|j: int| 0 <= j < sl.len() implies sl[j] != i0 by {
                assert(sl[j] as int / 4 != p);
            }
            assert forall|j: int| 0 <= j < sl.len() implies sl[j] != i0 + 1 by {
                assert(sl[j] as int / 4 != p);
            }
            assert forall|j: int| 0 <= j < sl.len() implies sl[j] != i0 + 2 by {
                assert(sl[j] as int / 4 != p);
            }
            assert(e[i0] == d[i0]);
            assert(e[i0 + 1] == d[i0 + 1]);
            assert(e[i0 + 2] == d[i0 + 2]);
        }
    }
    lemma_slots_upto_same(d, e, cfg, n);
}

proof fn lemma_slots_upto_same(d: Seq<u8>, e: Seq<u8>, cfg: EncodeConfig, q: nat)
    requires
        forall|p: int| 0 <= p < q ==> #[trigger] pixel_skipped(e, p, cfg) == pixel_skipped(d, p, cfg),
    ensures
        slots_upto(e, cfg, q) == slots_upto(d, cfg, q),
    decreases q,
{
    if q > 0 {
        lemma_slots_upto_same(d, e, cfg, (q - 1) as nat);
        assert(pixel_skipped(e, q - 1, cfg) == pixel_skipped(d, q - 1, cfg));
        assert(pixel_slots(e, q - 1, cfg) == pixel_slots(d, q - 1, cfg));
    }
}

} // verus!
