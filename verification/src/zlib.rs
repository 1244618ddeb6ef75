//! Zlib streams, as the `miniz_oxide` crate reads and writes them.

use vstd::prelude::*;

use crate::{Error, Result};

verus! {

/// What `miniz_oxide` reports where a stream cannot be read.
#[verifier::external_type_specification]
#[verifier::external_body]
pub struct ExDecompressError(miniz_oxide::inflate::DecompressError);

/// The zlib stream that `compress_to_vec_zlib` makes of some bytes at a level.
pub uninterp spec fn deflated(data: Seq<u8>, level: u8) -> Seq<u8>;

/// What `decompress_to_vec_zlib_with_limit` reads from a stream, where the
/// stream is sound and its contents have at most `limit` bytes.
pub uninterp spec fn inflated(stream: Seq<u8>, limit: nat) -> Option<Seq<u8>>;

/// Calls `miniz_oxide::deflate::compress_to_vec_zlib`.
///
/// The result is a function of the bytes and the level, and reading it back
/// with any limit that the bytes fit in gives the bytes.
#[verifier::external_body]
fn compress_zlib(data: &[u8], level: u8) -> (r: Vec<u8>)
    ensures
        r@ == deflated(data@, level),
        forall|limit: nat|
            data@.len() <= limit <= usize::MAX ==> #[trigger] inflated(r@, limit) == Some(data@),
{
    miniz_oxide::deflate::compress_to_vec_zlib(data, level)
}

/// Calls `miniz_oxide::inflate::decompress_to_vec_zlib_with_limit`.
///
/// The result is a function of the stream and the limit, and never longer
/// than the limit.
#[verifier::external_body]
fn decompress_zlib(stream: &[u8], limit: usize) -> (r: core::result::Result<
    Vec<u8>,
    miniz_oxide::inflate::DecompressError,
>)
    ensures
        match r {
            Ok(data) => inflated(stream@, limit as nat) == Some(data@) && data@.len() <= limit,
            Err(_) => inflated(stream@, limit as nat) is None,
        },
{
    miniz_oxide::inflate::decompress_to_vec_zlib_with_limit(stream, limit)
}

/// Compresses at the level that object storage uses.
pub fn deflate(data: &[u8]) -> (r: Vec<u8>)
    ensures
        r@ == deflated(data@, 6),
        forall|limit: nat|
            data@.len() <= limit <= usize::MAX ==> #[trigger] inflated(r@, limit) == Some(data@),
{
    compress_zlib(data, 6)
}

/// Decompresses a stream whose contents must fit in `limit` bytes.
pub fn inflate(stream: &[u8], limit: usize) -> (r: Result<Vec<u8>>)
    ensures
        match inflated(stream@, limit as nat) {
            Some(data) => r is Ok && r->Ok_0@ == data && data.len() <= limit,
            None => r == Err::<Vec<u8>, Error>(Error::Compression("invalid zlib stream")),
        },
{
    match decompress_zlib(stream, limit) {
        Ok(data) => Ok(data),
        Err(_) => Err(Error::Compression("invalid zlib stream")),
    }
}

} // verus!
