//! Zlib compression and decompression, through the flate2 crate.
//!
//! Stored objects and pack entries are zlib streams. Compression is pinned
//! to one level, so the compressed form of a record is a function of its
//! bytes; decompression accepts any valid zlib stream at the head of the
//! input and reports how many compressed bytes it consumed, since a pack
//! never declares compressed lengths.

use crate::error::MyGitError;
use vstd::prelude::*;

verus! {

/// The zlib-compressed form of a byte sequence at this library's fixed
/// compression level: a function of the bytes alone.
pub uninterp spec fn deflate_of(data: Seq<u8>) -> Seq<u8>;

/// What decompressing the zlib stream at the head of a byte sequence
/// yields: the decompressed bytes and the count of compressed bytes
/// consumed, or nothing when no valid stream starts there. A function of
/// the bytes alone.
pub uninterp spec fn inflate_of(data: Seq<u8>) -> Option<(Seq<u8>, int)>;

/// Relies on flate2's `write::ZlibEncoder`: compression at a fixed level is
/// a function of the input bytes, and decompressing the result returns the
/// original bytes, consuming the whole stream. Writing into a `Vec` sink
/// cannot fail.
#[verifier::external_body]
pub fn zlib_encode(data: &[u8]) -> (r: Vec<u8>)
    ensures
        r@ == deflate_of(data@),
        inflate_of(r@) == Some((data@, r@.len() as int)),
{
    let mut encoder = flate2::write::ZlibEncoder::new(Vec::new(), flate2::Compression::new(1));
    std::io::Write::write_all(&mut encoder, data).unwrap();
    encoder.finish().unwrap()
}

/// Relies on flate2's `bufread::ZlibDecoder`: it decompresses the zlib
/// stream at the head of the input, `total_in` reports the compressed bytes
/// consumed, and reading fails on an invalid or truncated stream.
#[verifier::external_body]
pub(crate) fn inflate_prefix(data: &[u8]) -> (r: Option<(Vec<u8>, usize)>)
    ensures
        match r {
            Some(p) => inflate_of(data@) == Some((p.0@, p.1 as int)) && p.1 <= data@.len(),
            None => inflate_of(data@) is None,
        },
{
    let mut decoder = flate2::bufread::ZlibDecoder::new(data);
    let mut out: Vec<u8> = Vec::new();
    match std::io::Read::read_to_end(&mut decoder, &mut out) {
        Ok(_) => Some((out, decoder.total_in() as usize)),
        Err(_) => None,
    }
}

/// Decompresses one zlib stream, ignoring any bytes after it.
pub fn zlib_decode(data: &[u8]) -> (r: Result<Vec<u8>, MyGitError>)
    ensures
        match r {
            Ok(out) => inflate_of(data@) matches Some(p) && out@ == p.0,
            Err(e) => inflate_of(data@) is None && e == MyGitError::CorruptObject,
        },
{
    match inflate_prefix(data) {
        Some(p) => Ok(p.0),
        None => Err(MyGitError::CorruptObject),
    }
}

} // verus!
