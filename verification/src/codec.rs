//! The two outside computations the object store relies on: SHA-1 (crate
//! `sha1`) and zlib (crate `flate2`). Everything else is verified code.

use vstd::prelude::*;
use std::io::Read;
use std::io::Write;
use sha1::Digest;

verus! {

/// The SHA-1 digest of a byte string, as computed by the `sha1` crate.
pub uninterp spec fn sha1_digest(data: Seq<u8>) -> Seq<u8>;

/// What `flate2`'s zlib decoder yields for `data` when at most `limit`
/// bytes are read from it (`None` when the stream is rejected).
pub uninterp spec fn zlib_inflate(data: Seq<u8>, limit: nat) -> Option<Seq<u8>>;

/// `sha1::Sha1` (`new`, `update`, `finalize`): the digest of `data`, which
/// SHA-1 defines to be 20 bytes long.
#[verifier::external_body]
pub(crate) fn sha1_bytes(data: &[u8]) -> (out: Vec<u8>)
    ensures
        out@ == sha1_digest(data@),
        out@.len() == 20,
{
    let mut hasher = sha1::Sha1::new();
    hasher.update(data);
    hasher.finalize().to_vec()
}

/// The step at which compressing failed, with the text of the error.
pub enum CompressFailure {
    /// Feeding the data to the encoder.
    Write(String),
    /// Finishing the stream.
    Finish(String),
}

/// `flate2::write::ZlibEncoder` at the default level (`write_all`, then
/// `finish`): compresses `data`. Claimed: writing into a `Vec` does not
/// fail (the vector takes every byte and the encoder's only errors come from
/// its writer), and decoding the output with a read limit of at least
/// `data.len()` gives `data` back (the encoder's purpose). The compressed
/// bytes themselves are left unsaid.
#[verifier::external_body]
pub(crate) fn zlib_compress(data: &[u8]) -> (out: Result<Vec<u8>, CompressFailure>)
    ensures
        out is Ok,
        out matches Ok(c) ==> forall|lim: nat|
            lim >= data@.len() ==> #[trigger] zlib_inflate(c@, lim) == Some(data@),
{
    let mut encoder = flate2::write::ZlibEncoder::new(Vec::new(), flate2::Compression::default());
    match encoder.write_all(data) {
        Ok(()) => {},
        Err(e) => return Err(CompressFailure::Write(e.to_string())),
    }
    match encoder.finish() {
        Ok(v) => Ok(v),
        Err(e) => Err(CompressFailure::Finish(e.to_string())),
    }
}

/// `flate2::read::ZlibDecoder`, read through `take(limit)` to the end:
/// succeeds exactly when `zlib_inflate` gives a value, which is then the
/// output, and never more than `limit` bytes are produced (`Read::take`).
/// The text of an error is left unsaid.
#[verifier::external_body]
pub(crate) fn zlib_decompress(data: &[u8], limit: u64) -> (out: Result<Vec<u8>, String>)
    ensures
        out is Ok <==> zlib_inflate(data@, limit as nat) is Some,
        out matches Ok(v) ==> v@ == zlib_inflate(data@, limit as nat)->0,
        out matches Ok(v) ==> v@.len() <= limit,
{
    let decoder = flate2::read::ZlibDecoder::new(data);
    let mut out: Vec<u8> = Vec::new();
    match decoder.take(limit).read_to_end(&mut out) {
        Ok(_) => Ok(out),
        Err(e) => Err(e.to_string()),
    }
}

} // verus!
