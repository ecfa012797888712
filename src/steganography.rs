//! The engine: frames a payload with its length, writes the frame into the
//! parity of channel bytes along a keyed traversal, and reads it back.
use crate::bits::{bits_value, lemma_msb_bits_value, msb_bits, number_bit};
use crate::converter::{
    bytes_to_bits, lemma_pack_bits_of_bytes, pack_bits, Converter, SimpleConverter,
};
use crate::raster::{offset, RasterImage};
use crate::traverser::{
    initial_state, key_text, lemma_initial_state, lemma_walk, step, walk, Traverser,
};
use vstd::arithmetic::power2::pow2;
use vstd::prelude::*;
use vstd::string::StringSliceAdditionalSpecFns;
use vstd::utf8::{decode_utf8, encode_utf8, valid_utf8};

verus! {

/// The value from which a touched channel of the diff map is set apart.
pub const MAP_INTENSITY: u8 = 175;

/// The width of the length prefix of a frame.
#[derive(Clone, Copy, Debug, PartialEq, Eq, Structural)]
pub enum EncodingLimit {
    B8,
    B16,
    B32,
}

impl EncodingLimit {
    /// The number of bits in the length prefix.
    pub open spec fn width(self) -> nat {
        match self {
            EncodingLimit::B8 => 8,
            EncodingLimit::B16 => 16,
            EncodingLimit::B32 => 32,
        }
    }

    /// The largest payload bit count that the prefix can hold.
    pub fn max(&self) -> (r: usize)
        ensures
            r == pow2(self.width()) - 1,
            r == (match self {
                EncodingLimit::B8 => 255usize,
                EncodingLimit::B16 => 65535usize,
                EncodingLimit::B32 => 4294967295usize,
            }),
    {
        proof {
            vstd::arithmetic::power2::lemma2_to64();
        }
        match self {
            EncodingLimit::B8 => u8::MAX as usize,
            EncodingLimit::B16 => u16::MAX as usize,
            EncodingLimit::B32 => u32::MAX as usize,
        }
    }

    /// The number of bits in the length prefix.
    pub fn bits(&self) -> (r: usize)
        ensures
            r == self.width(),
    {
        match self {
            EncodingLimit::B8 => 8usize,
            EncodingLimit::B16 => 16usize,
            EncodingLimit::B32 => 32usize,
        }
    }

    /// The low `bits()` bits of `number`, most significant first.
    pub fn to_bool_vec(&self, number: u32) -> (r: Vec<bool>)
        ensures
            r@ == msb_bits(number as nat, self.width()),
    {
        let bits = self.bits();
        let mut out: Vec<bool> = Vec::new();
        let mut i: usize = bits;
        while i > 0
            invariant
                bits == self.width(),
                i <= bits,
                out@.len() == bits - i,
                forall|j: int|
                    0 <= j < out@.len() ==> #[trigger] out@[j] == number_bit(
                        number as nat,
                        (bits - 1 - j) as nat,
                    ),
            decreases i,
        {
            i = i - 1;
            let shift = i as u32;
            proof {
                vstd::bits::lemma_u32_shr_is_div(number, shift);
                let q = number >> shift;
                assert(q & 1 == q % 2) by (bit_vector);
            }
            out.push(((number >> shift) & 1) == 1);
        }
        assert(out@ =~= msb_bits(number as nat, self.width()));
        out
    }
}

/// Which channels of a pixel carry payload bits.
#[derive(Clone, Copy, Debug, PartialEq, Eq, Structural)]
pub enum ColorChannel {
    RGB,
    RGBA,
}

impl ColorChannel {
    /// The channel indices in use.
    pub open spec fn channels(self) -> Seq<u8> {
        match self {
            ColorChannel::RGB => seq![0u8, 1, 2],
            ColorChannel::RGBA => seq![0u8, 1, 2, 3],
        }
    }

    /// The channel indices in use.
    pub fn get(&self) -> (r: Vec<u8>)
        ensures
            r@ == self.channels(),
    {
        let r = match self {
            ColorChannel::RGB => vec![0, 1, 2],
            ColorChannel::RGBA => vec![0, 1, 2, 3],
        };
        assert(r@ =~= self.channels());
        r
    }

    /// The number of channels in use.
    pub fn color_count(&self) -> (r: u32)
        ensures
            r == self.channels().len(),
    {
        match self {
            ColorChannel::RGB => 3,
            ColorChannel::RGBA => 4,
        }
    }
}

/// A byte whose parity is `bit`: unchanged when it already is, else one
/// more, or one less for 255.
pub open spec fn encode_bit(v: u8, bit: bool) -> u8 {
    if (v % 2 == 1) == bit {
        v
    } else if v == 255 {
        254
    } else {
        (v + 1) as u8
    }
}

/// The bit that a byte carries: whether it is odd.
pub open spec fn decode_bit(v: u8) -> bool {
    v % 2 == 1
}

/// Reading back a written bit gives that bit.
pub proof fn lemma_parity_symmetry(v: u8, bit: bool)
    ensures
        decode_bit(encode_bit(v, bit)) == bit,
{
}

/// `color` adjusted by at most one so that its parity carries `value`.
pub fn adjust_color(color: u8, value: bool) -> (r: u8)
    ensures
        r == encode_bit(color, value),
{
    let is_even = color % 2 == 0;
    if (value && is_even) || (!value && !is_even) {
        if color == 255 {
            color - 1
        } else {
            color + 1
        }
    } else {
        color
    }
}

/// The bit that channel `pos.2` of pixel `(pos.0, pos.1)` carries.
pub fn value_in_pixel(image: &RasterImage, pos: (u32, u32, u8)) -> (r: bool)
    requires
        image.wf(),
        pos.0 < image.width,
        pos.1 < image.height,
        pos.2 < 4,
    ensures
        r == decode_bit(image.pixels@[offset(image.width, pos)]),
{
    let k = pixel_offset(image, pos);
    image.pixels[k] % 2 != 0
}

fn pixel_offset(image: &RasterImage, pos: (u32, u32, u8)) -> (k: usize)
    requires
        image.wf(),
        pos.0 < image.width,
        pos.1 < image.height,
        pos.2 < 4,
    ensures
        k == offset(image.width, pos),
        k < image.pixels@.len(),
{
    let n: usize = image.pixels.len();
    proof {
        lemma_offset_in_image(image.width, image.height, pos);
    }
    let row: usize = pos.1 as usize * image.width as usize;
    let pixel: usize = row + pos.0 as usize;
    pixel * 4 + pos.2 as usize
}

proof fn lemma_offset_in_image(width: u32, height: u32, pos: (u32, u32, u8))
    requires
        pos.0 < width,
        pos.1 < height,
        pos.2 < 4,
    ensures
        0 <= pos.1 * width + pos.0 < width * height,
        0 <= pos.1 * width <= pos.1 * width + pos.0,
        0 <= offset(width, pos) < width * height * 4,
{
    assert(pos.1 * width + pos.0 < width * height) by (nonlinear_arith)
        requires
            pos.0 < width,
            pos.1 < height,
    ;
    assert(pos.1 * width >= 0) by (nonlinear_arith);
    assert(offset(width, pos) < width * height * 4) by (nonlinear_arith)
        requires
            pos.1 * width + pos.0 < width * height,
            offset(width, pos) == (pos.1 * width + pos.0) * 4 + pos.2,
            pos.2 < 4,
    ;
}

/// The number of bits an image can hold: one per channel in use.
pub fn image_capacity(dimensions: (u32, u32), color_count: u32) -> (r: usize)
    requires
        dimensions.0 * dimensions.1 * color_count <= usize::MAX,
    ensures
        r == dimensions.0 * dimensions.1 * color_count,
{
    proof {
        assert(dimensions.0 * dimensions.1 <= dimensions.0 * dimensions.1 * color_count || color_count == 0) by (nonlinear_arith);
    }
    if color_count == 0 {
        return 0;
    }
    dimensions.0 as usize * dimensions.1 as usize * color_count as usize
}


/// Why an image could not take a payload, or gave none back.
#[derive(Clone, Copy, Debug, PartialEq, Eq, Structural)]
pub enum StegoError {
    /// The image has no pixels.
    EmptyImage,
    /// The payload has no bytes.
    EmptyPayload,
    /// The payload's bit count does not fit in the length prefix.
    PayloadTooLarge,
    /// The frame needs more bits than the image holds.
    CapacityExceeded,
    /// The bits read back are not UTF-8.
    InvalidUtf8,
}

/// What an encoding used, and the diff map when one was asked for.
pub struct Embedding {
    /// Bits the image can hold.
    pub capacity: usize,
    /// Bits the frame took.
    pub used: usize,
    /// Black, opaque image in which every written channel stands out.
    pub map: Option<RasterImage>,
}

/// The number of bits a `width` by `height` image holds over `channel`.
pub open spec fn capacity_of(width: u32, height: u32, channel: ColorChannel) -> int {
    width * height * channel.channels().len()
}

/// The frame of a payload: its bit count in `limit.width()` bits, then the
/// payload.
pub open spec fn frame_of(limit: EncodingLimit, payload: Seq<bool>) -> Seq<bool> {
    msb_bits(payload.len(), limit.width()) + payload
}

/// The first `n` positions of the traversal that an image and settings give.
pub open spec fn positions(
    width: u32,
    height: u32,
    channel: ColorChannel,
    key: Seq<char>,
    n: nat,
) -> Seq<(u32, u32, u8)> {
    walk(initial_state(width, height, channel.channels(), key), n).0
}

/// `pixels` after writing `frame[k]` into the channel at `positions[k]`, in
/// order.
pub open spec fn embed(
    pixels: Seq<u8>,
    width: u32,
    positions: Seq<(u32, u32, u8)>,
    frame: Seq<bool>,
) -> Seq<u8>
    decreases frame.len(),
{
    if frame.len() == 0 {
        pixels
    } else {
        let before = embed(pixels, width, positions, frame.drop_last());
        let o = offset(width, positions[frame.len() - 1]);
        before.update(o, encode_bit(before[o], frame.last()))
    }
}

/// The diff map value of a channel that held `v`.
pub open spec fn map_value(v: u8) -> u8 {
    if v > MAP_INTENSITY {
        (v - MAP_INTENSITY) as u8
    } else {
        (MAP_INTENSITY - v) as u8
    }
}

/// An opaque black image of `len` bytes.
pub open spec fn opaque_black(len: nat) -> Seq<u8> {
    Seq::new(len, |k: int| if k % 4 == 3 { 255u8 } else { 0u8 })
}

/// `map` after marking the channels at the first `n` positions.
pub open spec fn mark(map: Seq<u8>, width: u32, positions: Seq<(u32, u32, u8)>, n: nat) -> Seq<u8>
    decreases n,
{
    if n == 0 {
        map
    } else {
        let before = mark(map, width, positions, (n - 1) as nat);
        let o = offset(width, positions[n - 1]);
        before.update(o, map_value(before[o]))
    }
}

/// The bits that the channels at `positions` carry.
pub open spec fn read_bits(pixels: Seq<u8>, width: u32, positions: Seq<(u32, u32, u8)>) -> Seq<bool> {
    positions.map_values(|t: (u32, u32, u8)| decode_bit(pixels[offset(width, t)]))
}

/// What encoding `text` into an image's bytes gives: the new bytes, or the
/// first check that fails.
pub open spec fn encode_outcome(
    key: Seq<char>,
    limit: EncodingLimit,
    channel: ColorChannel,
    width: u32,
    height: u32,
    pixels: Seq<u8>,
    text: Seq<char>,
) -> Result<Seq<u8>, StegoError> {
    let payload = bytes_to_bits(encode_utf8(text));
    let frame = frame_of(limit, payload);
    if capacity_of(width, height, channel) == 0 {
        Err(StegoError::EmptyImage)
    } else if payload.len() == 0 {
        Err(StegoError::EmptyPayload)
    } else if payload.len() > pow2(limit.width()) - 1 {
        Err(StegoError::PayloadTooLarge)
    } else if frame.len() > capacity_of(width, height, channel) {
        Err(StegoError::CapacityExceeded)
    } else {
        Ok(embed(pixels, width, positions(width, height, channel, key, frame.len()), frame))
    }
}

/// What decoding an image's bytes gives: the prefix is read first, then as
/// many payload bits as it says, which must be UTF-8.
pub open spec fn decode_outcome(
    key: Seq<char>,
    limit: EncodingLimit,
    channel: ColorChannel,
    width: u32,
    height: u32,
    pixels: Seq<u8>,
) -> Result<Seq<char>, StegoError> {
    let cap = capacity_of(width, height, channel);
    let wd = limit.width();
    if cap == 0 {
        Err(StegoError::EmptyImage)
    } else if cap < wd {
        Err(StegoError::CapacityExceeded)
    } else {
        let n = bits_value(read_bits(pixels, width, positions(width, height, channel, key, wd)));
        if wd + n > cap {
            Err(StegoError::CapacityExceeded)
        } else {
            let payload = read_bits(pixels, width, positions(width, height, channel, key, wd + n)).subrange(
                wd as int,
                (wd + n) as int,
            );
            let bytes = pack_bits(payload);
            if valid_utf8(bytes) {
                Ok(decode_utf8(bytes))
            } else {
                Err(StegoError::InvalidUtf8)
            }
        }
    }
}

proof fn lemma_channel_facts(channel: ColorChannel)
    ensures
        channel.channels().len() > 0,
        channel.channels().len() <= 4,
        channel.channels().no_duplicates(),
        forall|c: u8| channel.channels().contains(c) ==> c < 4,
{
    let chs = channel.channels();
    assert forall|c: u8| chs.contains(c) implies c < 4 by {
        let k = choose|k: int| 0 <= k < chs.len() && chs[k] == c;
    }
}

/// Positions from a traversal over an image's channels lie in the image.
proof fn lemma_step_in_image(width: u32, height: u32, channel: ColorChannel, key: Seq<char>, n: nat, k: int)
    requires
        width * height * 4 <= usize::MAX,
        n <= capacity_of(width, height, channel),
        0 <= k < n,
    ensures
        walk(initial_state(width, height, channel.channels(), key), n).0.len() == n,
        ({
            let t = walk(initial_state(width, height, channel.channels(), key), n).0[k];
            t.0 < width && t.1 < height && t.2 < 4
        }),
{
    let s0 = initial_state(width, height, channel.channels(), key);
    lemma_channel_facts(channel);
    assert(width * height <= width * height * 4) by (nonlinear_arith);
    lemma_initial_state(width, height, channel.channels(), key);
    lemma_walk(s0, n);
    assert(crate::traverser::in_grid(s0, walk(s0, n).0[k]));
}

/// The next draw of a traversal that still has positions left is the
/// position that the longer walk adds.
proof fn lemma_walk_next(width: u32, height: u32, channel: ColorChannel, key: Seq<char>, k: nat)
    requires
        width * height * 4 <= usize::MAX,
        k < capacity_of(width, height, channel),
    ensures
        ({
            let s0 = initial_state(width, height, channel.channels(), key);
            &&& step(walk(s0, k).1).0 == Some(walk(s0, k + 1).0[k as int])
            &&& step(walk(s0, k).1).1 == walk(s0, k + 1).1
            &&& walk(s0, k + 1).0 == walk(s0, k).0.push(walk(s0, k + 1).0[k as int])
        }),
{
    let s0 = initial_state(width, height, channel.channels(), key);
    lemma_channel_facts(channel);
    assert(width * height <= width * height * 4) by (nonlinear_arith);
    lemma_initial_state(width, height, channel.channels(), key);
    lemma_walk(s0, k);
    lemma_walk(s0, k + 1);
}


proof fn lemma_offset_injective(width: u32, a: (u32, u32, u8), b: (u32, u32, u8))
    requires
        a.0 < width,
        b.0 < width,
        a.2 < 4,
        b.2 < 4,
        offset(width, a) == offset(width, b),
    ensures
        a == b,
{
    let pa = a.1 * width + a.0;
    let pb = b.1 * width + b.0;
    assert(pa == pb);
    assert(a.1 == b.1) by (nonlinear_arith)
        requires
            a.1 * width + a.0 == b.1 * width + b.0,
            a.0 < width,
            b.0 < width,
    ;
}

/// Once `frame` is written at positions whose offsets are distinct, the
/// channel at each position carries its bit.
proof fn lemma_embed_reads(
    pixels: Seq<u8>,
    width: u32,
    height: u32,
    positions: Seq<(u32, u32, u8)>,
    frame: Seq<bool>,
)
    requires
        pixels.len() == width * height * 4,
        frame.len() <= positions.len(),
        positions.no_duplicates(),
        forall|k: int|
            0 <= k < positions.len() ==> (#[trigger] positions[k]).0 < width && positions[k].1 < height
                && positions[k].2 < 4,
    ensures
        embed(pixels, width, positions, frame).len() == pixels.len(),
        forall|k: int|
            0 <= k < frame.len() ==> decode_bit(
                #[trigger] embed(pixels, width, positions, frame)[offset(width, positions[k])],
            ) == frame[k],
    decreases frame.len(),
{
    if frame.len() > 0 {
        let n = frame.len() - 1;
        lemma_embed_reads(pixels, width, height, positions, frame.drop_last());
        let before = embed(pixels, width, positions, frame.drop_last());
        lemma_offset_in_image(width, height, positions[n]);
        assert forall|k: int| 0 <= k < frame.len() implies decode_bit(
            #[trigger] embed(pixels, width, positions, frame)[offset(width, positions[k])],
        ) == frame[k] by {
            lemma_offset_in_image(width, height, positions[k]);
            if k < n {
                if offset(width, positions[k]) == offset(width, positions[n]) {
                    lemma_offset_injective(width, positions[k], positions[n]);
                }
                assert(frame.drop_last()[k] == frame[k]);
                assert(decode_bit(before[offset(width, positions[k])]) == frame.drop_last()[k]);
            } else {
                lemma_parity_symmetry(before[offset(width, positions[n])], frame.last());
            }
        }
    }
}

/// Decoding what an encoding wrote, with the same key, prefix width and
/// channels, gives the text back: for any text with a nonempty payload
/// whose bit count fits the prefix and whose frame fits the image.
pub proof fn lemma_round_trip(
    key: Seq<char>,
    limit: EncodingLimit,
    channel: ColorChannel,
    width: u32,
    height: u32,
    pixels: Seq<u8>,
    text: Seq<char>,
)
    requires
        pixels.len() == width * height * 4,
        pixels.len() <= usize::MAX,
        encode_utf8(text).len() > 0,
        8 * encode_utf8(text).len() <= pow2(limit.width()) - 1,
        limit.width() + 8 * encode_utf8(text).len() <= capacity_of(width, height, channel),
    ensures
        encode_outcome(key, limit, channel, width, height, pixels, text) is Ok,
        decode_outcome(
            key,
            limit,
            channel,
            width,
            height,
            encode_outcome(key, limit, channel, width, height, pixels, text)->Ok_0,
        ) == Ok::<Seq<char>, StegoError>(text),
{
    let payload = bytes_to_bits(encode_utf8(text));
    let frame = frame_of(limit, payload);
    let total = frame.len();
    let wd = limit.width();
    let s0 = initial_state(width, height, channel.channels(), key);
    let all = positions(width, height, channel, key, total);
    let stego = embed(pixels, width, all, frame);
    assert(encode_outcome(key, limit, channel, width, height, pixels, text) == Ok::<Seq<u8>, StegoError>(stego));
    lemma_channel_facts(channel);
    assert(width * height <= width * height * 4) by (nonlinear_arith);
    lemma_initial_state(width, height, channel.channels(), key);
    lemma_walk(s0, total);
    assert forall|k: int| 0 <= k < all.len() implies (#[trigger] all[k]).0 < width && all[k].1 < height && all[k].2 < 4 by {
        assert(crate::traverser::in_grid(s0, all[k]));
    }
    lemma_embed_reads(pixels, width, height, all, frame);
    // The prefix reads back as the payload's bit count.
    let pre = positions(width, height, channel, key, wd);
    crate::traverser::lemma_walk_prefix(s0, wd, total);
    lemma_walk(s0, wd);
    assert(read_bits(stego, width, pre) =~= msb_bits(payload.len(), wd)) by {
        assert forall|k: int| 0 <= k < wd implies #[trigger] read_bits(stego, width, pre)[k] == msb_bits(
            payload.len(),
            wd,
        )[k] by {
            assert(pre[k] == all[k]);
            assert(frame[k] == msb_bits(payload.len(), wd)[k]);
        }
    }
    lemma_msb_bits_value(payload.len(), wd);
    // The rest reads back as the payload.
    let body = read_bits(stego, width, all).subrange(wd as int, total as int);
    assert(body =~= payload) by {
        assert forall|k: int| 0 <= k < payload.len() implies #[trigger] body[k] == payload[k] by {
            assert(frame[wd + k] == payload[k]);
        }
    }
    lemma_pack_bits_of_bytes(encode_utf8(text));
    vstd::utf8::encode_utf8_valid_utf8(text);
    vstd::utf8::encode_utf8_decode_utf8(text);
}


/// A frame that fills the image exactly is written; one bit more is refused
/// as exceeding the capacity (and `encode` then leaves the image as it was).
pub proof fn lemma_capacity_boundary(
    key: Seq<char>,
    limit: EncodingLimit,
    channel: ColorChannel,
    width: u32,
    height: u32,
    pixels: Seq<u8>,
    text: Seq<char>,
)
    requires
        encode_utf8(text).len() > 0,
        8 * encode_utf8(text).len() <= pow2(limit.width()) - 1,
    ensures
        ({
            let frame = frame_of(limit, bytes_to_bits(encode_utf8(text)));
            let cap = capacity_of(width, height, channel);
            &&& frame.len() == cap ==> encode_outcome(key, limit, channel, width, height, pixels, text) is Ok
            &&& frame.len() == cap + 1 ==> encode_outcome(key, limit, channel, width, height, pixels, text)
                == Err::<Seq<u8>, StegoError>(StegoError::CapacityExceeded)
        }),
{
}

fn clone_key(key: &Option<String>) -> (r: Option<String>)
    ensures
        key_text(r) == key_text(*key),
{
    match key {
        Some(k) => Some(k.clone()),
        None => None,
    }
}

/// An encoder and decoder for one key, prefix width and channel set.
pub struct Steganography {
    key: Option<String>,
    converter: SimpleConverter,
    encoding: EncodingLimit,
    color_channel: ColorChannel,
}

impl Steganography {
    /// The key text (the empty text when no key was given).
    pub closed spec fn key_spec(&self) -> Seq<char> {
        key_text(self.key)
    }

    /// The width of the length prefix.
    pub closed spec fn limit_spec(&self) -> EncodingLimit {
        self.encoding
    }

    /// The channels in use.
    pub closed spec fn channel_spec(&self) -> ColorChannel {
        self.color_channel
    }

    /// Settings from the given values; the prefix width defaults to 16
    /// bits and the channels to RGBA.
    pub fn new(key: Option<String>, encoding: Option<EncodingLimit>, color_channel: Option<ColorChannel>) -> (r:
        Steganography)
        ensures
            r.key_spec() == key_text(key),
            r.limit_spec() == (match encoding {
                Some(e) => e,
                None => EncodingLimit::B16,
            }),
            r.channel_spec() == (match color_channel {
                Some(c) => c,
                None => ColorChannel::RGBA,
            }),
    {
        Steganography {
            key,
            converter: SimpleConverter::new(),
            encoding: match encoding {
                Some(e) => e,
                None => EncodingLimit::B16,
            },
            color_channel: match color_channel {
                Some(c) => c,
                None => ColorChannel::RGBA,
            },
        }
    }

    /// Writes `value`, framed by its bit count, into `image`, one bit per
    /// channel along the keyed traversal. Every check comes before the
    /// first write: on an error the image is left as it was.
    pub fn encode(&self, image: &mut RasterImage, value: &str, map: bool) -> (r: Result<Embedding, StegoError>)
        requires
            old(image).wf(),
        ensures
            final(image).wf(),
            final(image).width == old(image).width,
            final(image).height == old(image).height,
            encode_outcome(
                self.key_spec(),
                self.limit_spec(),
                self.channel_spec(),
                old(image).width,
                old(image).height,
                old(image).pixels@,
                value@,
            ) == (match r {
                Ok(_) => Ok(final(image).pixels@),
                Err(e) => Err(e),
            }),
            r is Err ==> final(image).pixels@ == old(image).pixels@,
            r matches Ok(e) ==> {
                &&& e.capacity == capacity_of(old(image).width, old(image).height, self.channel_spec())
                &&& e.used == frame_of(self.limit_spec(), bytes_to_bits(value.spec_bytes())).len()
                &&& (e.map is Some <==> map)
                &&& e.map matches Some(m) ==> m.wf() && m.width == old(image).width && m.height
                    == old(image).height && m.pixels@ == mark(
                    opaque_black(m.pixels@.len()),
                    m.width,
                    positions(m.width, m.height, self.channel_spec(), self.key_spec(), e.used as nat),
                    e.used as nat,
                )
            },
    {
        let width = image.width;
        let height = image.height;
        let count = self.color_channel.color_count();
        let ghost pixels0 = image.pixels@;
        let len: usize = image.pixels.len();
        proof {
            lemma_channel_facts(self.color_channel);
            assert(width * height * count <= width * height * 4) by (nonlinear_arith)
                requires
                    count <= 4,
            ;
        }
        let image_len = image_capacity((width, height), count);
        if image_len == 0 {
            return Err(StegoError::EmptyImage);
        }
        let mut payload = self.converter.to_binary(value);
        if payload.len() == 0 {
            return Err(StegoError::EmptyPayload);
        }
        if payload.len() > self.encoding.max() {
            return Err(StegoError::PayloadTooLarge);
        }
        let ghost payload_bits = payload@;
        proof {
            vstd::arithmetic::power2::lemma2_to64();
        }
        let mut frame = self.encoding.to_bool_vec(payload.len() as u32);
        frame.append(&mut payload);
        let ghost full = frame_of(self.encoding, payload_bits);
        assert(frame@ =~= full);
        if frame.len() > image_len {
            return Err(StegoError::CapacityExceeded);
        }
        let mut traverser = Traverser::new((width, height, self.color_channel.get()), clone_key(&self.key));
        let ghost s0 = traverser.state();
        let ghost all = walk(s0, frame@.len());
        let mut map_image = RasterImage::filled(width, height, [0, 0, 0, 255]);
        assert(map_image.pixels@ =~= opaque_black(len as nat));
        let mut k: usize = 0;
        while k < frame.len()
            invariant
                s0 == initial_state(width, height, self.color_channel.channels(), self.key_spec()),
                frame@ == full,
                all == walk(s0, frame@.len()),
                frame@.len() <= image_len,
                image_len == capacity_of(width, height, self.color_channel),
                width * height * 4 == len,
                len <= usize::MAX,
                k <= frame@.len(),
                traverser.inv(),
                traverser.state() == walk(s0, k as nat).1,
                image.width == width,
                image.height == height,
                image.pixels@.len() == len,
                image.pixels@ == embed(pixels0, width, all.0, frame@.subrange(0, k as int)),
                map_image.width == width,
                map_image.height == height,
                map_image.pixels@.len() == len,
                map_image.pixels@ == mark(opaque_black(len as nat), width, all.0, k as nat),
            decreases frame@.len() - k,
        {
            proof {
                lemma_walk_next(width, height, self.color_channel, self.key_spec(), k as nat);
                lemma_step_in_image(width, height, self.color_channel, self.key_spec(), frame@.len(), k as int);
                crate::traverser::lemma_walk_prefix(s0, (k + 1) as nat, frame@.len());
                lemma_step_in_image(width, height, self.color_channel, self.key_spec(), (k + 1) as nat, k as int);
            }
            let pos = match traverser.next() {
                Some(p) => p,
                None => vstd::pervasive::unreached(),
            };
            assert(pos == all.0[k as int]);
            let off = pixel_offset(image, pos);
            let v = image.pixels[off];
            image.pixels[off] = adjust_color(v, frame[k]);
            let m = map_image.pixels[off];
            map_image.pixels[off] = if m > MAP_INTENSITY {
                m - MAP_INTENSITY
            } else {
                MAP_INTENSITY - m
            };
            assert(frame@.subrange(0, k + 1).drop_last() =~= frame@.subrange(0, k as int));
            k = k + 1;
        }
        assert(frame@.subrange(0, frame@.len() as int) =~= frame@);
        let used = frame.len();
        Ok(Embedding { capacity: image_len, used, map: if map { Some(map_image) } else { None } })
    }

    /// Reads back what `encode` wrote with the same settings: the length
    /// prefix first, then as many payload bits as it gives.
    pub fn decode(&self, image: &RasterImage) -> (r: Result<String, StegoError>)
        requires
            image.wf(),
        ensures
            decode_outcome(
                self.key_spec(),
                self.limit_spec(),
                self.channel_spec(),
                image.width,
                image.height,
                image.pixels@,
            ) == (match r {
                Ok(s) => Ok(s@),
                Err(e) => Err(e),
            }),
    {
        let width = image.width;
        let height = image.height;
        let count = self.color_channel.color_count();
        let len: usize = image.pixels.len();
        proof {
            lemma_channel_facts(self.color_channel);
            assert(width * height * count <= width * height * 4) by (nonlinear_arith)
                requires
                    count <= 4,
            ;
        }
        let image_len = image_capacity((width, height), count);
        if image_len == 0 {
            return Err(StegoError::EmptyImage);
        }
        let encoding_bits = self.encoding.bits();
        if image_len < encoding_bits {
            return Err(StegoError::CapacityExceeded);
        }
        let mut traverser = Traverser::new((width, height, self.color_channel.get()), clone_key(&self.key));
        let ghost s0 = traverser.state();
        let ghost pixels = image.pixels@;
        let mut bits_used: usize = 0;
        let mut index: usize = 0;
        proof {
            vstd::arithmetic::power2::lemma2_to64();
        }
        while index < encoding_bits
            invariant
                s0 == initial_state(width, height, self.color_channel.channels(), self.key_spec()),
                image_len == capacity_of(width, height, self.color_channel),
                encoding_bits == self.encoding.width(),
                encoding_bits <= 32,
                encoding_bits <= image_len,
                width * height * 4 == len,
                image.wf(),
                image.width == width,
                image.height == height,
                image.pixels@ == pixels,
                index <= encoding_bits,
                traverser.inv(),
                traverser.state() == walk(s0, index as nat).1,
                bits_used == bits_value(read_bits(pixels, width, walk(s0, index as nat).0)),
                bits_used < pow2(index as nat),
            decreases encoding_bits - index,
        {
            proof {
                lemma_walk_next(width, height, self.color_channel, self.key_spec(), index as nat);
                lemma_step_in_image(width, height, self.color_channel, self.key_spec(), (index + 1) as nat, index as int);
                vstd::arithmetic::power2::lemma_pow2_unfold((index + 1) as nat);
                if index + 1 < 32 {
                    vstd::arithmetic::power2::lemma_pow2_strictly_increases((index + 1) as nat, 32);
                }
                vstd::arithmetic::power2::lemma2_to64();
            }
            let pos = match traverser.next() {
                Some(p) => p,
                None => vstd::pervasive::unreached(),
            };
            let bit = value_in_pixel(image, pos);
            proof {
                let prev = walk(s0, index as nat).0;
                let next = walk(s0, (index + 1) as nat).0;
                assert(read_bits(pixels, width, next).drop_last() =~= read_bits(pixels, width, prev));
            }
            bits_used = 2 * bits_used + if bit {
                1
            } else {
                0
            };
            index = index + 1;
        }
        if bits_used > image_len - encoding_bits {
            return Err(StegoError::CapacityExceeded);
        }
        let mut decoded: Vec<bool> = Vec::with_capacity(bits_used);
        let mut j: usize = 0;
        proof {
            lemma_step_in_image(width, height, self.color_channel, self.key_spec(), encoding_bits as nat, 0);
            assert(decoded@ =~= read_bits(pixels, width, walk(s0, encoding_bits as nat).0).subrange(
                encoding_bits as int,
                encoding_bits as int,
            ));
        }
        while j < bits_used
            invariant
                s0 == initial_state(width, height, self.color_channel.channels(), self.key_spec()),
                image_len == capacity_of(width, height, self.color_channel),
                encoding_bits == self.encoding.width(),
                encoding_bits + bits_used <= image_len,
                width * height * 4 == len,
                image.wf(),
                image.width == width,
                image.height == height,
                image.pixels@ == pixels,
                j <= bits_used,
                traverser.inv(),
                traverser.state() == walk(s0, (encoding_bits + j) as nat).1,
                decoded@ == read_bits(pixels, width, walk(s0, (encoding_bits + j) as nat).0).subrange(
                    encoding_bits as int,
                    encoding_bits + j,
                ),
            decreases bits_used - j,
        {
            let ghost at = (encoding_bits + j) as nat;
            proof {
                lemma_walk_next(width, height, self.color_channel, self.key_spec(), at);
                lemma_step_in_image(width, height, self.color_channel, self.key_spec(), at + 1, at as int);
            }
            let pos = match traverser.next() {
                Some(p) => p,
                None => vstd::pervasive::unreached(),
            };
            let bit = value_in_pixel(image, pos);
            decoded.push(bit);
            proof {
                let prev = walk(s0, at).0;
                let next = walk(s0, at + 1).0;
                assert(read_bits(pixels, width, next) =~= read_bits(pixels, width, prev).push(bit));
                assert(decoded@ =~= read_bits(pixels, width, next).subrange(
                    encoding_bits as int,
                    encoding_bits + j + 1,
                ));
            }
            j = j + 1;
        }
        match self.converter.to_string(decoded.as_slice()) {
            Ok(s) => Ok(s),
            Err(_) => Err(StegoError::InvalidUtf8),
        }
    }
}

} // verus!
