//! Compression and decompression of envelopes by the `flate2` crate.

use flate2::read::ZlibDecoder;
use flate2::write::ZlibEncoder;
use flate2::Compression;
use std::io::{Read, Write};
use vstd::prelude::*;

verus! {

#[verifier::external_type_specification]
#[verifier::external_body]
pub struct ExIoError(std::io::Error);

/// The zlib stream that the compressor makes of `data` at its default
/// level; `None` where it reports a failure.
pub uninterp spec fn zlib_deflated(data: Seq<u8>) -> Option<Seq<u8>>;

/// The bytes that the decompressor reads out of `data`; `None` where `data`
/// is not a complete zlib stream.
pub uninterp spec fn zlib_inflated(data: Seq<u8>) -> Option<Seq<u8>>;

/// `flate2::write::ZlibEncoder` over a `Vec`, at `Compression::default()`,
/// fed all of `data` and finished: the stream is a function of `data`
/// alone, and it is one that the decompressor reads back as `data`.
#[verifier::external_body]
pub(crate) fn deflate(data: &[u8]) -> (res: Result<Vec<u8>, std::io::Error>)
    ensures
        match res {
            Ok(stream) => zlib_deflated(data@) == Some(stream@) && zlib_inflated(stream@) == Some(
                data@,
            ),
            Err(_) => zlib_deflated(data@) is None,
        },
{
    let mut encoder = ZlibEncoder::new(Vec::new(), Compression::default());
    encoder.write_all(data)?;
    encoder.finish()
}

/// `flate2::read::ZlibDecoder` over `data`, read to its end: what comes out
/// is a function of `data` alone; a stream that is cut short or damaged is
/// an error.
#[verifier::external_body]
pub(crate) fn inflate(data: &[u8]) -> (res: Result<Vec<u8>, std::io::Error>)
    ensures
        match res {
            Ok(bytes) => zlib_inflated(data@) == Some(bytes@),
            Err(_) => zlib_inflated(data@) is None,
        },
{
    let mut bytes = Vec::new();
    ZlibDecoder::new(data).read_to_end(&mut bytes)?;
    Ok(bytes)
}

} // verus!
