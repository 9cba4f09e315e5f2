//! Checking and rescuing BGZF-framed (BAM) byte streams.
//!
//! A BAM file is a sequence of independently gzip-compressed BGZF blocks,
//! each of which declares its own total size in a custom extra-field
//! subfield. This library scans such a stream block by block, validates
//! each block (header framing, declared size, payload decompression,
//! checksum and length trailer), accumulates whole-file statistics, and
//! can produce a rescued copy holding only the blocks that pass
//! validation, terminated by the canonical empty block.

use vstd::prelude::*;

mod bytes;
mod compress;
pub mod block;
pub mod model;
pub mod laws;
pub mod scan;

pub use crate::scan::{check, repair, ScanStatistics};

verus! {

/// The crate's version string.
pub fn version() -> (r: &'static str)
    ensures
        r@ == "0.1.0"@,
{
    "0.1.0"
}

} // verus!
