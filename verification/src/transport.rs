//! The compression transport: zlib streams, written and read through the
//! `flate2` crate.

use std::io::Read;
use std::io::Write;
use vstd::prelude::*;

verus! {

/// What the zlib decoder of `flate2` yields when it reads `stream` to its
/// end: the decompressed bytes, or `None` where it reports the stream as
/// truncated or corrupt. The function is named, not defined: all that is
/// known of it here is that it depends on `stream` alone, and what the
/// compressor promises of its own output.
pub uninterp spec fn inflated(stream: Seq<u8>) -> Option<Seq<u8>>;

/// The compression level used where the caller names none.
pub const DEFAULT_LEVEL: u32 = 6;

/// The highest compression level.
pub const BEST_LEVEL: u32 = 9;

/// What the zlib encoder of `flate2` writes for `data` at `level`, for a
/// level up to the highest: the compressed stream, or `None` where it
/// reports a failure. The function is named, not defined: all that is known
/// of it here is that it depends on `data` and `level` alone, and that what
/// it writes inflates to `data`.
pub uninterp spec fn deflated(data: Seq<u8>, level: u32) -> Option<Seq<u8>>;

/// The level at which a stream is compressed when `level` is asked for:
/// levels above the highest count as the highest.
pub open spec fn effective_level(level: u32) -> u32 {
    if level > BEST_LEVEL {
        BEST_LEVEL
    } else {
        level
    }
}

/// Calls `flate2::write::ZlibEncoder` on a vector: `new`, `write_all`, then
/// `finish`. The contract names the outcome, which the encoder computes from
/// `data` and `level` alone, and claims one thing of it: where the encoder
/// reports success, a zlib decoder that reads the result gets `data` back.
/// Nothing else is claimed of the compressed bytes, which differ from level
/// to level, nor that the encoder succeeds.
#[verifier::external_body]
fn zlib_deflate(data: &[u8], level: u32) -> (r: Option<Vec<u8>>)
    requires
        level <= BEST_LEVEL,
    ensures
        match r {
            Some(stream) => deflated(data@, level) == Some(stream@),
            None => deflated(data@, level) is None,
        },
        r matches Some(stream) ==> inflated(stream@) == Some(data@),
{
    let mut encoder = flate2::write::ZlibEncoder::new(Vec::new(), flate2::Compression::new(level));
    match encoder.write_all(data) {
        Ok(()) => match encoder.finish() {
            Ok(stream) => Some(stream),
            Err(_) => None,
        },
        Err(_) => None,
    }
}

/// Calls `flate2::read::ZlibDecoder` on a slice and reads it to the end. The
/// contract names the outcome: the bytes read, or `None` where the decoder
/// reports an error.
#[verifier::external_body]
pub(crate) fn zlib_inflate(stream: &[u8]) -> (r: Option<Vec<u8>>)
    ensures
        match r {
            Some(data) => inflated(stream@) == Some(data@),
            None => inflated(stream@) is None,
        },
{
    let mut data = Vec::new();
    match flate2::read::ZlibDecoder::new(stream).read_to_end(&mut data) {
        Ok(_) => Some(data),
        Err(_) => None,
    }
}

/// Compresses `data` into a zlib stream at the given level; levels above the
/// highest count as the highest. Returns what the encoder writes at that
/// level, or `None` where it fails; a stream that is returned inflates to
/// `data`.
pub fn compress(data: &[u8], level: u32) -> (r: Option<Vec<u8>>)
    ensures
        match r {
            Some(stream) => deflated(data@, effective_level(level)) == Some(stream@),
            None => deflated(data@, effective_level(level)) is None,
        },
        r matches Some(stream) ==> inflated(stream@) == Some(data@),
{
    if level > BEST_LEVEL {
        zlib_deflate(data, BEST_LEVEL)
    } else {
        zlib_deflate(data, level)
    }
}

} // verus!
