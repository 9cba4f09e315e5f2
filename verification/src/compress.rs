//! The two outside computations the scanner leans on: DEFLATE
//! decompression and the CRC-32 checksum. Both are pure functions of
//! their input bytes; their results are named by uninterpreted spec
//! functions, and the wrappers below tie the executable calls to those
//! names.

use vstd::prelude::*;

verus! {

/// What decompressing a DEFLATE stream yields: `Some` of the decompressed
/// bytes where the stream is well formed, `None` where it is malformed.
pub uninterp spec fn inflate_spec(s: Seq<u8>) -> Option<Seq<u8>>;

/// The CRC-32 checksum (IEEE polynomial) of a byte sequence.
pub uninterp spec fn crc32_of(s: Seq<u8>) -> u32;

/// Relies on `inflate::inflate_bytes`: decompresses one whole DEFLATE
/// stream held in memory; success and the decompressed bytes depend on
/// the input alone.
#[verifier::external_body]
pub(crate) fn inflate_payload(deflated: &Vec<u8>) -> (r: Option<Vec<u8>>)
    ensures
        match r {
            Some(v) => inflate_spec(deflated@) == Some(v@),
            None => inflate_spec(deflated@) is None,
        },
{
    match inflate::inflate_bytes(deflated) {
        Ok(v) => Some(v),
        Err(_) => None,
    }
}

/// Relies on `crc::crc32::checksum_ieee`: the CRC-32 (IEEE) checksum of
/// the given bytes; a pure function of its input.
#[verifier::external_body]
pub(crate) fn crc32_ieee(bytes: &Vec<u8>) -> (r: u32)
    ensures
        r == crc32_of(bytes@),
{
    crc::crc32::checksum_ieee(bytes)
}

} // verus!
