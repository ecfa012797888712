//! Turns arbitrary bytes into printable text and back (zlib, then standard
//! base64), so that a file can travel as a text payload.
use base64::engine::general_purpose;
use base64::Engine;
use flate2::read::ZlibDecoder;
use flate2::write::ZlibEncoder;
use flate2::Compression;
use std::io::Read;
use std::io::Write;
use vstd::prelude::*;

verus! {

/// What zlib compression at the default level makes of `bytes`, or `None`
/// when the encoder reports an error.
pub uninterp spec fn zlib_compressed(bytes: Seq<u8>) -> Option<Seq<u8>>;

/// What zlib decompression makes of `bytes`, or `None` when they are not a
/// zlib stream.
pub uninterp spec fn zlib_decompressed(bytes: Seq<u8>) -> Option<Seq<u8>>;

/// The standard base64 text (with padding) of `bytes`.
pub uninterp spec fn base64_of(bytes: Seq<u8>) -> Seq<char>;

/// The bytes that standard base64 `text` spells, or `None` when it is not
/// valid standard base64.
pub uninterp spec fn base64_decoded(text: Seq<char>) -> Option<Seq<u8>>;

/// The view of an optional byte vector.
pub open spec fn bytes_view(v: Option<Vec<u8>>) -> Option<Seq<u8>> {
    match v {
        Some(b) => Some(b@),
        None => None,
    }
}

/// Relies on flate2's `ZlibEncoder` (`write_all`, then `finish`) over a
/// `Vec`, at `Compression::default()`: the compressed stream, or `None` on an
/// I/O error of the encoder.
#[verifier::external_body]
fn zlib_compress(bytes: &[u8]) -> (r: Option<Vec<u8>>)
    ensures
        bytes_view(r) == zlib_compressed(bytes@),
{
    let mut encoder = ZlibEncoder::new(Vec::new(), Compression::default());
    encoder.write_all(bytes).ok()?;
    encoder.finish().ok()
}

/// Relies on flate2's `ZlibDecoder` with `read_to_end`: the decompressed
/// bytes, or `None` on a stream it cannot read.
#[verifier::external_body]
fn zlib_decompress(bytes: &[u8]) -> (r: Option<Vec<u8>>)
    ensures
        bytes_view(r) == zlib_decompressed(bytes@),
{
    let mut decoder = ZlibDecoder::new(bytes);
    let mut out = Vec::new();
    decoder.read_to_end(&mut out).ok()?;
    Some(out)
}

/// Relies on base64's `general_purpose::STANDARD.encode`.
#[verifier::external_body]
fn base64_encode(bytes: &[u8]) -> (r: String)
    ensures
        r@ == base64_of(bytes@),
{
    general_purpose::STANDARD.encode(bytes)
}

/// Relies on base64's `general_purpose::STANDARD.decode`: the bytes, or
/// `None` on a `DecodeError`.
#[verifier::external_body]
fn base64_decode(text: &str) -> (r: Option<Vec<u8>>)
    ensures
        bytes_view(r) == base64_decoded(text@),
{
    general_purpose::STANDARD.decode(text).ok()
}

/// The printable form of `bytes`: compressed with zlib, then written in
/// standard base64; `None` when compression fails.
pub fn bytes_to_b64(bytes: &[u8]) -> (r: Option<String>)
    ensures
        (match r {
            Some(s) => Some(s@),
            None => None,
        }) == (match zlib_compressed(bytes@) {
            Some(z) => Some(base64_of(z)),
            None => None,
        }),
{
    match zlib_compress(bytes) {
        Some(compressed) => Some(base64_encode(compressed.as_slice())),
        None => None,
    }
}

/// The bytes whose printable form is `text`: base64-decoded, then
/// decompressed; `None` when either step fails.
pub fn b64_to_bytes(text: &str) -> (r: Option<Vec<u8>>)
    ensures
        bytes_view(r) == (match base64_decoded(text@) {
            Some(z) => zlib_decompressed(z),
            None => None,
        }),
{
    match base64_decode(text) {
        Some(compressed) => zlib_decompress(compressed.as_slice()),
        None => None,
    }
}

} // verus!
