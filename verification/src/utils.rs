//! Digest and compression helpers.

use vstd::prelude::*;
use flate2::read::ZlibDecoder;
use flate2::write::ZlibEncoder;
use flate2::Compression;
use sha1::Sha1;
use std::io::{Read, Write};
use crate::digest::{hex_text, is_digest_text, Digest};
use crate::error::Error;

verus! {

/// `std::io::Error`, the error of the encoder and the decoder. It is
/// carried from the call to the place that maps it; nothing is claimed of
/// what it holds.
#[verifier::external_type_specification]
#[verifier::external_body]
pub struct ExIoError(std::io::Error);

/// The SHA-1 digest of a byte sequence: twenty bytes.
pub uninterp spec fn sha1_digest(data: Seq<u8>) -> Seq<u8>;

/// The zlib stream that the encoder produces for a byte sequence at the
/// default compression level.
pub uninterp spec fn zlib_stream(data: Seq<u8>) -> Seq<u8>;

/// What the zlib decoder yields for a byte sequence: the decoded bytes, or
/// `None` where it reports an error.
pub uninterp spec fn zlib_inflated(data: Seq<u8>) -> Option<Seq<u8>>;

/// Calls `sha1::Sha1::digest`, the one-shot form of the `Digest` trait.
/// Trusted, not proved: the twenty bytes that come back are a function of
/// the input alone.
#[verifier::external_body]
fn sha1_raw(data: &[u8]) -> (out: [u8; 20])
    ensures
        out@ == sha1_digest(data@),
{
    <Sha1 as sha1::Digest>::digest(data).into()
}

/// Runs `flate2::write::ZlibEncoder` at the default level over the whole
/// input, writing into a vector: `new`, `write_all`, `finish`. Trusted, not
/// proved: the call succeeds, since a vector takes every write and the
/// compressor is given no parameter it could refuse; its output is a
/// function of the input alone; it is not empty, since it starts with the
/// zlib header; and it is a stream that the decoder turns back into the
/// input.
#[verifier::external_body]
fn zlib_encode(data: &[u8]) -> (r: Result<Vec<u8>, std::io::Error>)
    ensures
        r is Ok,
        r matches Ok(v) ==> v@ == zlib_stream(data@),
        r matches Ok(v) ==> v@.len() > 0,
        r matches Ok(v) ==> zlib_inflated(v@) == Some(data@),
{
    let mut encoder = ZlibEncoder::new(Vec::new(), Compression::default());
    encoder.write_all(data)?;
    encoder.finish()
}

/// Runs `flate2::read::ZlibDecoder` over the whole input with
/// `read_to_end`. Trusted, not proved: whether the decoder succeeds, and
/// the bytes it yields where it does, are a function of the input alone.
#[verifier::external_body]
fn zlib_decode(data: &[u8]) -> (r: Result<Vec<u8>, std::io::Error>)
    ensures
        match r {
            Ok(v) => zlib_inflated(data@) == Some(v@),
            Err(_) => zlib_inflated(data@) is None,
        },
{
    let mut decoder = ZlibDecoder::new(data);
    let mut result = Vec::new();
    decoder.read_to_end(&mut result)?;
    Ok(result)
}

/// The digest of `data`.
pub fn digest(data: &[u8]) -> (d: Digest)
    ensures
        d@ == sha1_digest(data@),
{
    Digest { bytes: sha1_raw(data) }
}

/// The digest of `data` as forty lowercase hexadecimal characters.
pub fn hash_data(data: &[u8]) -> (hash: String)
    ensures
        hash@ == hex_text(sha1_digest(data@)),
        is_digest_text(hash@),
{
    digest(data).to_hex()
}

/// Compresses `data` into a zlib stream. This succeeds on every input.
/// The stream is the same for the same input, it is never empty, and
/// `decompress` turns it back into `data`.
pub fn compress(data: &[u8]) -> (r: Result<Vec<u8>, Error>)
    ensures
        r is Ok,
        r matches Ok(v) ==> v@ == zlib_stream(data@),
        r matches Ok(v) ==> v@.len() > 0,
        r matches Ok(v) ==> zlib_inflated(v@) == Some(data@),
{
    match zlib_encode(data) {
        Ok(v) => Ok(v),
        Err(_) => Err(Error::IoError),
    }
}

/// Decompresses a zlib stream; fails with `CorruptData` exactly where the
/// decoder rejects the input.
pub fn decompress(data: &[u8]) -> (r: Result<Vec<u8>, Error>)
    ensures
        match r {
            Ok(v) => zlib_inflated(data@) == Some(v@),
            Err(e) => e == Error::CorruptData && zlib_inflated(data@) is None,
        },
{
    match zlib_decode(data) {
        Ok(v) => Ok(v),
        Err(_) => Err(Error::CorruptData),
    }
}

} // verus!
