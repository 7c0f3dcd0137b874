//! The compression envelope around encoded messages: a zlib stream.
use flate2::bufread::{ZlibDecoder, ZlibEncoder};
use flate2::Compression;
use std::io::Read;
use vstd::prelude::*;

verus! {

/// The zlib stream that compresses `b` at the best compression level.
pub uninterp spec fn zlib_compressed(b: Seq<u8>) -> Seq<u8>;

/// The bytes that the zlib stream at the start of `b` decompresses to.
pub uninterp spec fn zlib_inflated(b: Seq<u8>) -> Seq<u8>;

/// A complete, well-formed zlib stream (header, data and checksum) starts
/// `b`.
pub uninterp spec fn zlib_complete(b: Seq<u8>) -> bool;

/// Compresses `bytes` into one complete zlib stream.
///
/// Relies on flate2's `bufread::ZlibEncoder` at `Compression::best()`, read
/// to its end: the stream depends on the input bytes alone, compression is
/// lossless, and the backend reports an error only for its own parameter
/// or stream faults, never for the bytes of a slice (so the result is
/// `Some`).
#[verifier::external_body]
pub fn encode(bytes: &[u8]) -> (r: Option<Vec<u8>>)
    ensures
        r is Some,
        r matches Some(v) ==> v@ == zlib_compressed(bytes@) && zlib_complete(v@) && zlib_inflated(
            v@,
        ) == bytes@,
{
    let mut e = ZlibEncoder::new(bytes, Compression::best());
    let mut out = Vec::new();
    match e.read_to_end(&mut out) {
        Ok(_) => Some(out),
        Err(_) => None,
    }
}

/// Decompresses the zlib stream at the start of `bytes`; `None` where it
/// is not a complete, well-formed stream. Bytes after the stream are
/// ignored.
///
/// Relies on flate2's `bufread::ZlibDecoder`, read to its end: what it
/// produces depends on the input bytes alone, and a corrupt or incomplete
/// stream is reported as an error.
#[verifier::external_body]
pub fn decode(bytes: &[u8]) -> (r: Option<Vec<u8>>)
    ensures
        r is Some <==> zlib_complete(bytes@),
        r matches Some(v) ==> v@ == zlib_inflated(bytes@),
{
    let mut d = ZlibDecoder::new(bytes);
    let mut out = Vec::new();
    match d.read_to_end(&mut out) {
        Ok(_) => Some(out),
        Err(_) => None,
    }
}

} // verus!
