//! Hiding a text message in the least-significant bits of a carrier, one
//! bit per carrier byte, and reading it back. The hidden bytes are a
//! four-byte little-endian length, the message in UTF-8 and zero padding,
//! optionally passed through the cipher as a whole.

use crate::logistic_map::decode;
use crate::logistic_map::decoded;
use crate::logistic_map::encode;
use crate::logistic_map::encoded;
use crate::logistic_map::lemma_decode_undoes_encode;
use crate::logistic_map::lemma_length_kept;
use crate::logistic_map::Sample;
use vstd::prelude::*;
use vstd::string::StringSliceAdditionalSpecFns;
use vstd::utf8::decode_utf8;
use vstd::utf8::encode_utf8;
use vstd::utf8::encode_utf8_decode_utf8;
use vstd::utf8::encode_utf8_valid_utf8;
use vstd::utf8::valid_utf8;

verus! {

/// Why a message could not be embedded or read back.
#[derive(Clone, Copy, Debug, PartialEq, Eq, Structural)]
pub enum StegaError {
    /// The length prefix and the message need more bytes than the carrier can hide.
    Capacity,
    /// The carrier has fewer than eight bytes.
    TooSmall,
    /// The hidden length prefix asks for more bytes than the carrier hides.
    LengthMismatch,
    /// The hidden bytes are not valid UTF-8.
    Encoding,
}

impl StegaError {
    /// The text of the error, as characters.
    pub open spec fn text(self) -> Seq<char> {
        match self {
            StegaError::Capacity => "Channel capacity not enough for message"@,
            StegaError::TooSmall => "Image too small to contain message"@,
            StegaError::LengthMismatch => "Failed to decode message length"@,
            StegaError::Encoding => "Message is not valid UTF-8"@,
        }
    }

    /// A sentence that describes the error.
    pub fn message(&self) -> (out: String)
        ensures
            out@ == self.text(),
    {
        match self {
            StegaError::Capacity => "Channel capacity not enough for message".to_owned(),
            StegaError::TooSmall => "Image too small to contain message".to_owned(),
            StegaError::LengthMismatch => "Failed to decode message length".to_owned(),
            StegaError::Encoding => "Message is not valid UTF-8".to_owned(),
        }
    }
}

/// The number of bytes that a carrier of `carrier_len` bytes hides: one bit
/// per carrier byte, rounded up to whole bytes.
pub open spec fn capacity_of(carrier_len: int) -> int {
    (carrier_len + 7) / 8
}

/// The four bytes that stand before a message of `len` bytes: `len` as a
/// 32-bit little-endian number. A longer length wraps around.
pub open spec fn length_prefix(len: int) -> Seq<u8> {
    let x = (len % 0x1_0000_0000) as u32;
    seq![
        (x & 0xff) as u8,
        ((x >> 8) & 0xff) as u8,
        ((x >> 16) & 0xff) as u8,
        ((x >> 24) & 0xff) as u8,
    ]
}

/// The length prefix followed by the message bytes.
pub open spec fn payload(message: Seq<u8>) -> Seq<u8> {
    length_prefix(message.len() as int) + message
}

/// `bytes` followed by zeros up to `size` bytes.
pub open spec fn padded(bytes: Seq<u8>, size: int) -> Seq<u8> {
    Seq::new(
        size as nat,
        |i: int|
            if i < bytes.len() {
                bytes[i]
            } else {
                0u8
            },
    )
}

/// The sequence that an optional seed stands for.
pub open spec fn seed_view(seed: Option<&Vec<Sample>>) -> Option<Seq<Sample>> {
    match seed {
        Some(enc_map) => Some(enc_map@),
        None => None,
    }
}

/// The buffer as it is embedded: encoded byte by byte where a seed is given.
pub open spec fn sealed(buffer: Seq<u8>, seed: Option<Seq<Sample>>) -> Seq<u8> {
    match seed {
        Some(enc_map) => encoded(buffer, enc_map, 1),
        None => buffer,
    }
}

/// The buffer as it is read: decoded byte by byte where a seed is given.
pub open spec fn unsealed(buffer: Seq<u8>, seed: Option<Seq<Sample>>) -> Seq<u8> {
    match seed {
        Some(enc_map) => decoded(buffer, enc_map, 1),
        None => buffer,
    }
}

/// The bit that carrier byte `i` receives: the bytes of `buffer` are spent
/// from their most significant bit down.
pub open spec fn channel_bit(buffer: Seq<u8>, i: int) -> u8 {
    (buffer[i / 8] >> ((7 - i % 8) as u8)) & 1
}

/// `carrier` with the lowest bit of every byte replaced by the bits of `buffer`.
pub open spec fn embedded(carrier: Seq<u8>, buffer: Seq<u8>) -> Seq<u8> {
    Seq::new(carrier.len(), |i: int| (carrier[i] & 0xFE) | channel_bit(buffer, i))
}

/// The carrier that `inject_lsb` leaves when the message fits.
pub open spec fn injected(carrier: Seq<u8>, message: Seq<u8>, seed: Option<Seq<Sample>>) -> Seq<
    u8,
> {
    embedded(carrier, sealed(padded(payload(message), capacity_of(carrier.len() as int)), seed))
}

/// The lowest bit of carrier byte `i`, and zero past the carrier's end.
pub open spec fn carrier_bit(carrier: Seq<u8>, i: int) -> u8 {
    if i < carrier.len() {
        carrier[i] & 1
    } else {
        0u8
    }
}

/// Hidden byte `k`: the lowest bits of carrier bytes `8k..8k+8`, the first
/// of them as the most significant bit.
pub open spec fn packed(carrier: Seq<u8>, k: int) -> u8 {
    carrier_bit(carrier, 8 * k) << 7 | carrier_bit(carrier, 8 * k + 1) << 6 | carrier_bit(
        carrier,
        8 * k + 2,
    ) << 5 | carrier_bit(carrier, 8 * k + 3) << 4 | carrier_bit(carrier, 8 * k + 4) << 3
        | carrier_bit(carrier, 8 * k + 5) << 2 | carrier_bit(carrier, 8 * k + 6) << 1 | carrier_bit(
        carrier,
        8 * k + 7,
    )
}

/// All the bytes that a carrier hides.
pub open spec fn unpacked(carrier: Seq<u8>) -> Seq<u8> {
    Seq::new(capacity_of(carrier.len() as int) as nat, |k: int| packed(carrier, k))
}

/// The message length that the first four bytes of `buffer` declare.
pub open spec fn declared_length(buffer: Seq<u8>) -> int {
    ((buffer[0] as u32) | (buffer[1] as u32) << 8 | (buffer[2] as u32) << 16 | (buffer[3] as u32)
        << 24) as int
}

/// What `read_message` returns for a hidden buffer: the text that the
/// buffer holds behind its length prefix, or why there is none.
pub open spec fn message_in(buffer: Seq<u8>) -> Result<Seq<char>, StegaError> {
    let end = 4 + declared_length(buffer);
    if buffer.len() < 4 || end > buffer.len() {
        Err(StegaError::LengthMismatch)
    } else if !valid_utf8(buffer.subrange(4, end)) {
        Err(StegaError::Encoding)
    } else {
        Ok(decode_utf8(buffer.subrange(4, end)))
    }
}

/// What `extract_lsb` returns for a carrier and an optional seed.
pub open spec fn extracted(carrier: Seq<u8>, seed: Option<Seq<Sample>>) -> Result<
    Seq<char>,
    StegaError,
> {
    if carrier.len() < 8 {
        Err(StegaError::TooSmall)
    } else {
        message_in(unsealed(unpacked(carrier), seed))
    }
}

/// `r` is the result `want`, the text taken as its characters.
pub open spec fn is_result(r: Result<String, StegaError>, want: Result<Seq<char>, StegaError>) -> bool {
    match r {
        Ok(text) => want == Ok::<Seq<char>, StegaError>(text@),
        Err(e) => want == Err::<Seq<char>, StegaError>(e),
    }
}

/// `String::from_utf8` of std: it gives the string whose UTF-8 encoding is
/// `bytes` when `bytes` is valid UTF-8, and an error otherwise, which is
/// handed on as `None`.
#[verifier::external_body]
fn string_from_utf8(bytes: Vec<u8>) -> (out: Option<String>)
    ensures
        out is Some <==> valid_utf8(bytes@),
        out is Some ==> out.unwrap()@ == decode_utf8(bytes@),
{
    String::from_utf8(bytes).ok()
}

/// The number of bytes that a carrier of `carrier_len` bytes hides. A
/// sequence handed to `inject_lsb` or `extract_lsb` needs that many samples.
pub fn capacity(carrier_len: usize) -> (size: usize)
    ensures
        size == capacity_of(carrier_len as int),
{
    if carrier_len % 8 == 0 {
        carrier_len / 8
    } else {
        carrier_len / 8 + 1
    }
}

/// Builds the buffer that is embedded, before any encoding: the length
/// prefix, the message and zeros up to `size` bytes.
pub fn build_buffer(raw: &[u8], size: usize) -> (buffer: Vec<u8>)
    requires
        4 + raw@.len() <= size,
    ensures
        buffer@ == padded(payload(raw@), size as int),
{
    let mut buffer: Vec<u8> = Vec::with_capacity(size);
    let mut z: usize = 0;
    while z < size
        invariant
            z <= size,
            buffer.len() == z,
            forall|k: int| 0 <= k < z ==> buffer[k] == 0u8,
        decreases size - z,
    {
        buffer.push(0);
        z += 1;
    }
    let long: u64 = raw.len() as u64;
    let x: u32 = (long % 0x1_0000_0000) as u32;
    assert(x & 0xff < 256 && (x >> 8) & 0xff < 256 && (x >> 16) & 0xff < 256 && (x >> 24) & 0xff
        < 256) by (bit_vector);
    buffer.set(0, (x & 0xff) as u8);
    buffer.set(1, ((x >> 8) & 0xff) as u8);
    buffer.set(2, ((x >> 16) & 0xff) as u8);
    buffer.set(3, ((x >> 24) & 0xff) as u8);
    let ghost prefix = length_prefix(raw@.len() as int);
    let mut i: usize = 0;
    while i < raw.len()
        invariant
            i <= raw@.len(),
            4 + raw@.len() <= size,
            buffer.len() == size,
            forall|k: int| 0 <= k < 4 ==> buffer[k] == prefix[k],
            forall|k: int| 0 <= k < i ==> buffer[4 + k] == raw@[k],
            forall|k: int| 4 + i <= k < size ==> buffer[k] == 0u8,
        decreases raw@.len() - i,
    {
        buffer.set(i + 4, raw[i]);
        i += 1;
    }
    assert(buffer@ =~= padded(payload(raw@), size as int));
    buffer
}

/// Replaces the lowest bit of every carrier byte by the bits of `buffer`,
/// most significant bit of each buffer byte first.
pub fn embed(im: &mut [u8], buffer: &Vec<u8>)
    requires
        buffer.len() == capacity_of(old(im)@.len() as int),
    ensures
        final(im)@ == embedded(old(im)@, buffer@),
{
    let n = im.len();
    let mut i: usize = 0;
    while i < n
        invariant
            i <= n,
            n == im@.len(),
            n == old(im)@.len(),
            buffer.len() == capacity_of(n as int),
            forall|k: int| 0 <= k < i ==> im@[k] == (old(im)@[k] & 0xFE) | channel_bit(buffer@, k),
            forall|k: int| i <= k < n ==> im@[k] == old(im)@[k],
        decreases n - i,
    {
        let msg_idx = i / 8;
        let bit_idx = i % 8;
        let shift: u8 = (7 - bit_idx) as u8;
        let bit = (buffer[msg_idx] >> shift) & 1;
        im[i] = im[i] & 0xFE | bit;
        i += 1;
    }
    assert(im@ =~= embedded(old(im)@, buffer@));
}

/// Hides `msg` in the lowest bits of `im`. The hidden buffer holds the
/// length prefix, the message and zero padding; where a seed is given the
/// whole buffer is encoded with group size 1 before it is embedded.
///
/// The call fails with `Capacity`, and leaves `im` as it was, exactly when
/// the prefix and the message need more bytes than `im` hides.
pub fn inject_lsb(im: &mut [u8], msg: &str, encryption_seed: Option<&Vec<Sample>>) -> (r: Result<
    (),
    StegaError,
>)
    requires
        encryption_seed matches Some(enc_map) ==> capacity_of(old(im)@.len() as int)
            <= enc_map.len(),
    ensures
        r is Ok <==> 4 + msg.spec_bytes().len() <= capacity_of(old(im)@.len() as int),
        r is Err ==> r == Err::<(), StegaError>(StegaError::Capacity) && final(im)@ == old(im)@,
        r is Ok ==> final(im)@ == injected(
            old(im)@,
            msg.spec_bytes(),
            seed_view(encryption_seed),
        ),
{
    let raw = msg.as_bytes();
    let size = capacity(im.len());
    if size < 4 || size - 4 < raw.len() {
        return Err(StegaError::Capacity);
    }
    let plain = build_buffer(raw, size);
    let buffer = match encryption_seed {
        Some(enc_map) => encode(&plain, enc_map, 1),
        None => plain,
    };
    embed(im, &buffer);
    Ok(())
}

/// The lowest bit of carrier byte `8 * k + b`, and zero past the carrier's end.
fn bit_at(im: &[u8], k: usize, b: usize) -> (bit: u8)
    requires
        8 * k < im@.len(),
        b < 8,
    ensures
        bit == carrier_bit(im@, 8 * k + b),
        bit <= 1,
{
    let n = im.len();
    let base = 8 * k;
    if b < n - base {
        let byte = im[base + b];
        assert(byte & 1 <= 1) by (bit_vector);
        byte & 1
    } else {
        0
    }
}

/// Reads the bytes that a carrier hides: the lowest bits of its bytes,
/// eight to a byte, most significant bit first, the last byte filled up
/// with zero bits.
pub fn unpack(im: &[u8]) -> (buffer: Vec<u8>)
    ensures
        buffer@ == unpacked(im@),
{
    let size = capacity(im.len());
    let mut buffer: Vec<u8> = Vec::with_capacity(size);
    let mut k: usize = 0;
    while k < size
        invariant
            k <= size,
            size == capacity_of(im@.len() as int),
            buffer.len() == k,
            forall|j: int| 0 <= j < k ==> buffer[j] == packed(im@, j),
        decreases size - k,
    {
        let byte = bit_at(im, k, 0) << 7 | bit_at(im, k, 1) << 6 | bit_at(im, k, 2) << 5 | bit_at(
            im,
            k,
            3,
        ) << 4 | bit_at(im, k, 4) << 3 | bit_at(im, k, 5) << 2 | bit_at(im, k, 6) << 1 | bit_at(
            im,
            k,
            7,
        );
        buffer.push(byte);
        k += 1;
    }
    assert(buffer@ =~= unpacked(im@));
    buffer
}

/// Reads the message out of a hidden buffer that has already been
/// decoded: the length prefix, then that many bytes as UTF-8.
pub fn read_message(buffer: &Vec<u8>) -> (r: Result<String, StegaError>)
    ensures
        is_result(r, message_in(buffer@)),
{
    if buffer.len() < 4 {
        return Err(StegaError::LengthMismatch);
    }
    let msg_len: u32 = (buffer[0] as u32) | (buffer[1] as u32) << 8 | (buffer[2] as u32) << 16 | (
    buffer[3] as u32) << 24;
    let room = buffer.len() - 4;
    if msg_len as u64 > room as u64 {
        return Err(StegaError::LengthMismatch);
    }
    let count = msg_len as usize;
    let mut body: Vec<u8> = Vec::with_capacity(count);
    let mut i: usize = 0;
    while i < count
        invariant
            i <= count,
            4 + count <= buffer.len(),
            body.len() == i,
            forall|k: int| 0 <= k < i ==> body[k] == buffer[4 + k],
        decreases count - i,
    {
        body.push(buffer[4 + i]);
        i += 1;
    }
    assert(body@ =~= buffer@.subrange(4, 4 + count));
    match string_from_utf8(body) {
        Some(text) => Ok(text),
        None => Err(StegaError::Encoding),
    }
}

/// Reads back the message that `inject_lsb` hid in `im`. Where a seed is
/// given the hidden buffer is decoded with group size 1 first.
///
/// It fails with `TooSmall` on a carrier of fewer than eight bytes, with
/// `LengthMismatch` where the hidden buffer cannot hold the prefix and the
/// length it declares, and with `Encoding` where the declared bytes are not
/// valid UTF-8. A wrong seed is not detected but by these checks.
pub fn extract_lsb(im: &[u8], encryption_seed: Option<&Vec<Sample>>) -> (r: Result<
    String,
    StegaError,
>)
    requires
        encryption_seed matches Some(enc_map) ==> capacity_of(im@.len() as int) <= enc_map.len(),
    ensures
        is_result(r, extracted(im@, seed_view(encryption_seed))),
{
    if im.len() < 8 {
        return Err(StegaError::TooSmall);
    }
    let hidden = unpack(im);
    let buffer = match encryption_seed {
        Some(enc_map) => decode(&hidden, enc_map, 1),
        None => hidden,
    };
    read_message(&buffer)
}

/// The bits of `buffer` for which a carrier of `carrier_len` bytes has no
/// byte are all zero, so that embedding loses nothing.
pub open spec fn fits_bitwise(buffer: Seq<u8>, carrier_len: int) -> bool {
    forall|i: int| carrier_len <= i < 8 * buffer.len() ==> #[trigger] channel_bit(buffer, i) == 0
}

/// Embedding changes nothing but the lowest bit of each carrier byte.
pub proof fn lemma_embed_keeps_high_bits(carrier: Seq<u8>, buffer: Seq<u8>, i: int)
    requires
        0 <= i < carrier.len(),
    ensures
        embedded(carrier, buffer)[i] & 0xFE == carrier[i] & 0xFE,
        embedded(carrier, buffer)[i] & 1 == channel_bit(buffer, i),
{
    let c = carrier[i];
    let v = buffer[i / 8];
    let s = (7 - i % 8) as u8;
    assert(((c & 0xFE) | ((v >> s) & 1)) & 0xFE == c & 0xFE) by (bit_vector);
    assert(((c & 0xFE) | ((v >> s) & 1)) & 1 == (v >> s) & 1) by (bit_vector);
}

/// Reading the hidden bytes of a carrier gives back the buffer that was
/// embedded in it, provided the carrier has a byte for every bit of the
/// buffer that is set.
pub proof fn lemma_unpack_undoes_embed(carrier: Seq<u8>, buffer: Seq<u8>)
    requires
        buffer.len() == capacity_of(carrier.len() as int),
        fits_bitwise(buffer, carrier.len() as int),
    ensures
        unpacked(embedded(carrier, buffer)) == buffer,
{
    let e = embedded(carrier, buffer);
    assert forall|k: int| 0 <= k < buffer.len() implies packed(e, k) == buffer[k] by {
        let v = buffer[k];
        assert forall|b: int| 0 <= b < 8 implies #[trigger] carrier_bit(e, 8 * k + b) == (v >> ((7
            - b) as u8)) & 1 by {
            let i = 8 * k + b;
            assert(i / 8 == k && i % 8 == b);
            if i < carrier.len() {
                lemma_embed_keeps_high_bits(carrier, buffer, i);
            } else {
                assert(channel_bit(buffer, i) == 0);
            }
        }
        let b7 = carrier_bit(e, 8 * k + 0);
        let b6 = carrier_bit(e, 8 * k + 1);
        let b5 = carrier_bit(e, 8 * k + 2);
        let b4 = carrier_bit(e, 8 * k + 3);
        let b3 = carrier_bit(e, 8 * k + 4);
        let b2 = carrier_bit(e, 8 * k + 5);
        let b1 = carrier_bit(e, 8 * k + 6);
        let b0 = carrier_bit(e, 8 * k + 7);
        assert(b7 << 7 | b6 << 6 | b5 << 5 | b4 << 4 | b3 << 3 | b2 << 2 | b1 << 1 | b0 == v)
            by (bit_vector)
            requires
                b7 == (v >> 7u8) & 1,
                b6 == (v >> 6u8) & 1,
                b5 == (v >> 5u8) & 1,
                b4 == (v >> 4u8) & 1,
                b3 == (v >> 3u8) & 1,
                b2 == (v >> 2u8) & 1,
                b1 == (v >> 1u8) & 1,
                b0 == (v >> 0u8) & 1,
        ;
    }
    assert(unpacked(e) =~= buffer);
}

/// The length that a padded payload declares is the length of its message,
/// and the bytes that follow the prefix are the message.
pub proof fn lemma_payload_read_back(message: Seq<u8>, size: int)
    requires
        message.len() < 0x1_0000_0000,
        4 + message.len() <= size,
    ensures
        declared_length(padded(payload(message), size)) == message.len(),
        padded(payload(message), size).subrange(4, 4 + message.len() as int) == message,
{
    let buffer = padded(payload(message), size);
    let x = message.len() as u32;
    let p0 = x & 0xff;
    let p1 = (x >> 8) & 0xff;
    let p2 = (x >> 16) & 0xff;
    let p3 = (x >> 24) & 0xff;
    assert(p0 < 256 && p1 < 256 && p2 < 256 && p3 < 256 && x == p0 | p1 << 8 | p2 << 16 | p3
        << 24) by (bit_vector)
        requires
            p0 == x & 0xff,
            p1 == (x >> 8) & 0xff,
            p2 == (x >> 16) & 0xff,
            p3 == (x >> 24) & 0xff,
    ;
    let prefix = length_prefix(message.len() as int);
    assert(buffer[0] == prefix[0] && buffer[1] == prefix[1] && buffer[2] == prefix[2] && buffer[3]
        == prefix[3]);
    assert(buffer[0] as u32 == p0 && buffer[1] as u32 == p1 && buffer[2] as u32 == p2 && buffer[3]
        as u32 == p3);
    assert(buffer.subrange(4, 4 + message.len() as int) =~= message);
}

/// What was injected into a carrier is extracted from it again, with the
/// same seed, as the same text. It holds where the carrier's length is a
/// multiple of eight; without a seed it also holds where the message
/// leaves the last hidden byte free. The text must fit the carrier, and
/// its length the 32 bits of the prefix.
pub proof fn lemma_extract_undoes_inject(
    carrier: Seq<u8>,
    text: Seq<char>,
    seed: Option<Seq<Sample>>,
)
    requires
        carrier.len() <= usize::MAX,
        encode_utf8(text).len() < 0x1_0000_0000,
        4 + encode_utf8(text).len() <= capacity_of(carrier.len() as int),
        carrier.len() % 8 == 0 || (seed is None && 4 + encode_utf8(text).len() < capacity_of(
            carrier.len() as int,
        )),
    ensures
        extracted(injected(carrier, encode_utf8(text), seed), seed) == Ok::<Seq<char>, StegaError>(
            text,
        ),
{
    let message = encode_utf8(text);
    let size = capacity_of(carrier.len() as int);
    let plain = padded(payload(message), size);
    let buffer = sealed(plain, seed);
    if seed is Some {
        lemma_length_kept(plain, seed->Some_0, 1);
        lemma_decode_undoes_encode(plain, seed->Some_0, 1);
    }
    assert(fits_bitwise(buffer, carrier.len() as int)) by {
        if carrier.len() % 8 != 0 {
            assert forall|i: int| carrier.len() <= i < 8 * buffer.len() implies #[trigger] channel_bit(
                buffer,
                i,
            ) == 0 by {
                assert(buffer[i / 8] == 0u8);
                let s = (7 - i % 8) as u8;
                assert((0u8 >> s) & 1 == 0) by (bit_vector);
            }
        }
    }
    lemma_unpack_undoes_embed(carrier, buffer);
    assert(unsealed(unpacked(injected(carrier, message, seed)), seed) == plain);
    lemma_payload_read_back(message, size);
    encode_utf8_valid_utf8(text);
    encode_utf8_decode_utf8(text);
}

} // verus!
