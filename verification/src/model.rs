//! The mathematical model of a BGZF stream.
//!
//! A block is one gzip member: a 12-byte fixed header (identifier,
//! compression method, flags, modification time, extra flags, operating
//! system, extra-field length), an extra field whose BGZF subfield
//! declares the block's total size minus one, a DEFLATE payload, and an
//! 8-byte trailer holding the CRC-32 and the length of the decompressed
//! payload. The spec functions here classify the block starting at a
//! given offset, and fold a whole stream into statistics and into the
//! rescued byte sequence.

use vstd::prelude::*;

use crate::bytes::{le16_at, le32_at};
use crate::compress::{crc32_of, inflate_spec};

verus! {

pub const GZIP_ID0: u8 = 0x1f;

pub const GZIP_ID1: u8 = 0x8b;

pub const METHOD_DEFLATE: u8 = 8;

pub const FLAGS_EXTRA_ONLY: u8 = 4;

pub const BGZF_ID0: u8 = 0x42;

pub const BGZF_ID1: u8 = 0x43;

/// Why a block whose span is known failed validation.
#[derive(Clone, Copy, Debug, PartialEq, Eq, Structural)]
pub enum CorruptionKind {
    /// A subfield of the extra field overruns the declared extra-field
    /// length, or a BGZF subfield does not carry a 16-bit value.
    MalformedExtraField,
    /// The declared block size is too small to hold its own header and
    /// trailer.
    DeclaredSizeTooSmall,
    /// The compressed payload is not a well-formed DEFLATE stream.
    InflateFailure,
    /// The CRC-32 of the decompressed payload differs from the trailer.
    ChecksumMismatch,
    /// The decompressed length differs from the trailer.
    LengthMismatch,
}

/// The classification of one scan step.
///
/// `TruncatedInBlock` covers every failure that leaves no safe
/// resynchronization point: bytes missing inside the block's span, and
/// header damage so early that the declared block size was never read
/// (there is then no known offset at which the next block could start,
/// so the scan must stop).
#[derive(Clone, Copy, Debug, PartialEq, Eq, Structural)]
pub enum BlockOutcome {
    /// The stream is exhausted exactly at a block boundary.
    EndOfFile,
    /// A valid block of `compressed_size` bytes whose payload
    /// decompresses to `decompressed_size` bytes.
    Good { compressed_size: u32, decompressed_size: u32 },
    /// The block's span is known, so scanning can continue past it, but
    /// its content fails validation.
    Corrupted { reason: CorruptionKind, compressed_size: u32 },
    /// The block cannot be fully read or its span cannot be determined.
    TruncatedInBlock,
}

/// The result of walking the subfields of a gzip extra field.
#[derive(Clone, Copy, Debug)]
pub enum WalkResult {
    /// Every subfield fit and a BGZF subfield declared the block size.
    Found { bsize: u32 },
    /// A subfield overran the declared extra-field length, a BGZF
    /// subfield had the wrong length, or no BGZF subfield was present;
    /// `found` holds the declared size if one had been read.
    Malformed { found: Option<u32> },
    /// The walk needed bytes past the end of the stream.
    PastEnd,
}

/// The canonical 28-byte empty BGZF block that terminates a valid file:
/// an empty DEFLATE payload with checksum zero and length zero.
pub open spec fn term_seq() -> Seq<u8> {
    seq![
        0x1fu8, 0x8bu8, 0x08u8, 0x04u8, 0x00u8, 0x00u8, 0x00u8, 0x00u8, 0x00u8, 0xffu8,
        0x06u8, 0x00u8, 0x42u8, 0x43u8, 0x02u8, 0x00u8, 0x1bu8, 0x00u8, 0x03u8, 0x00u8,
        0x00u8, 0x00u8, 0x00u8, 0x00u8, 0x00u8, 0x00u8, 0x00u8, 0x00u8,
    ]
}

/// The canonical terminator block sits at offset `pos`.
pub open spec fn is_term_at(d: Seq<u8>, pos: int) -> bool {
    &&& 0 <= pos
    &&& pos + 28 <= d.len()
    &&& d.subrange(pos, pos + 28) == term_seq()
}

/// One step of the subfield walk: `q` is the read offset, `rem` the
/// extra-field bytes not yet accounted for, `found` the declared block
/// size read so far. Each subfield is a 2-byte identifier, a 16-bit
/// little-endian length, and its payload; a BGZF subfield's payload is
/// the 16-bit declared block size minus one. Non-BGZF subfields are
/// skipped without reading their payload.
pub open spec fn walk_spec(d: Seq<u8>, q: int, rem: int, found: Option<u32>) -> WalkResult
    decreases rem,
{
    if rem <= 0 {
        match found {
            Some(b) => WalkResult::Found { bsize: b },
            None => WalkResult::Malformed { found: None },
        }
    } else if q + 4 > d.len() {
        WalkResult::PastEnd
    } else {
        let sublen = le16_at(d, q + 2);
        if d[q] == BGZF_ID0 && d[q + 1] == BGZF_ID1 {
            if sublen != 2 {
                WalkResult::Malformed { found }
            } else if q + 6 > d.len() {
                WalkResult::PastEnd
            } else {
                let size = (le16_at(d, q + 4) + 1) as u32;
                if 6 > rem {
                    WalkResult::Malformed { found: Some(size) }
                } else {
                    walk_spec(d, q + 6, rem - 6, Some(size))
                }
            }
        } else {
            if 4 + sublen > rem {
                WalkResult::Malformed { found }
            } else {
                walk_spec(d, q + 4 + sublen, rem - 4 - sublen, found)
            }
        }
    }
}

/// A failure whose span is known is a corruption the scan can step over;
/// if the span runs past the end of the stream it is a truncation.
pub open spec fn corrupt_or_truncated(d: Seq<u8>, pos: int, bsize: u32, k: CorruptionKind)
    -> BlockOutcome {
    if pos + bsize <= d.len() {
        BlockOutcome::Corrupted { reason: k, compressed_size: bsize }
    } else {
        BlockOutcome::TruncatedInBlock
    }
}

/// Validates the payload and trailer of a block whose declared size is
/// known: exactly `bsize - xlen - 20` compressed bytes, then the 4-byte
/// CRC-32 and the 4-byte decompressed length.
pub open spec fn payload_at(d: Seq<u8>, pos: int, xlen: int, bsize: u32) -> BlockOutcome {
    if (bsize as int) < xlen + 20 {
        corrupt_or_truncated(d, pos, bsize, CorruptionKind::DeclaredSizeTooSmall)
    } else if pos + bsize > d.len() {
        BlockOutcome::TruncatedInBlock
    } else {
        let p0 = pos + 12 + xlen;
        let plen = bsize - xlen - 20;
        match inflate_spec(d.subrange(p0, p0 + plen)) {
            None => BlockOutcome::Corrupted {
                reason: CorruptionKind::InflateFailure,
                compressed_size: bsize,
            },
            Some(infl) => {
                if le32_at(d, p0 + plen) != crc32_of(infl) {
                    BlockOutcome::Corrupted {
                        reason: CorruptionKind::ChecksumMismatch,
                        compressed_size: bsize,
                    }
                } else if le32_at(d, p0 + plen + 4) != infl.len() {
                    BlockOutcome::Corrupted {
                        reason: CorruptionKind::LengthMismatch,
                        compressed_size: bsize,
                    }
                } else {
                    BlockOutcome::Good {
                        compressed_size: bsize,
                        decompressed_size: le32_at(d, p0 + plen + 4) as u32,
                    }
                }
            },
        }
    }
}

/// Classifies the block starting at `pos`. The canonical terminator is
/// recognised byte for byte: it is a valid empty block, and naming it
/// directly lets the model state termination without reference to the
/// decompressor.
pub open spec fn block_at(d: Seq<u8>, pos: int) -> BlockOutcome {
    if pos < 0 || pos >= d.len() {
        BlockOutcome::EndOfFile
    } else if is_term_at(d, pos) {
        BlockOutcome::Good { compressed_size: 28, decompressed_size: 0 }
    } else if pos + 2 > d.len() {
        BlockOutcome::TruncatedInBlock
    } else if d[pos] != GZIP_ID0 || d[pos + 1] != GZIP_ID1 {
        BlockOutcome::TruncatedInBlock
    } else if pos + 12 > d.len() {
        BlockOutcome::TruncatedInBlock
    } else if d[pos + 2] != METHOD_DEFLATE {
        BlockOutcome::TruncatedInBlock
    } else if d[pos + 3] != FLAGS_EXTRA_ONLY {
        BlockOutcome::TruncatedInBlock
    } else {
        let xlen = le16_at(d, pos + 10);
        match walk_spec(d, pos + 12, xlen, None) {
            WalkResult::PastEnd => BlockOutcome::TruncatedInBlock,
            WalkResult::Malformed { found } => match found {
                None => BlockOutcome::TruncatedInBlock,
                Some(b) => corrupt_or_truncated(
                    d,
                    pos,
                    b,
                    CorruptionKind::MalformedExtraField,
                ),
            },
            WalkResult::Found { bsize } => payload_at(d, pos, xlen, bsize),
        }
    }
}

/// Whole-file statistics, as unbounded integers.
pub ghost struct SpecStats {
    pub blocks_count: int,
    pub blocks_size: int,
    pub bad_blocks_count: int,
    pub bad_blocks_size: int,
    pub truncated_in_block: bool,
    pub truncated_between_blocks: bool,
}

/// Fieldwise combination of the statistics of two stream parts scanned
/// one after the other.
pub open spec fn stats_plus(a: SpecStats, b: SpecStats) -> SpecStats {
    SpecStats {
        blocks_count: a.blocks_count + b.blocks_count,
        blocks_size: a.blocks_size + b.blocks_size,
        bad_blocks_count: a.bad_blocks_count + b.bad_blocks_count,
        bad_blocks_size: a.bad_blocks_size + b.bad_blocks_size,
        truncated_in_block: a.truncated_in_block || b.truncated_in_block,
        truncated_between_blocks: a.truncated_between_blocks || b.truncated_between_blocks,
    }
}

/// Declared block sizes produced by the subfield walk stay in
/// `1 ..= 0x10000`, and a completed walk consumed at least the six bytes
/// of one BGZF subfield.
pub proof fn lemma_walk_bounds(d: Seq<u8>, q: int, rem: int, found: Option<u32>)
    requires
        match found {
            Some(b) => 1 <= b <= 0x10000,
            None => true,
        },
    ensures
        match walk_spec(d, q, rem, found) {
            WalkResult::Found { bsize } => 1 <= bsize <= 0x10000 && (found == Some(bsize)
                || rem >= 6),
            WalkResult::Malformed { found: f } => match f {
                Some(b) => 1 <= b <= 0x10000,
                None => true,
            },
            WalkResult::PastEnd => true,
        },
    decreases rem,
{
    if rem <= 0 {
    } else if q + 4 > d.len() {
    } else {
        let sublen = le16_at(d, q + 2);
        if d[q] == BGZF_ID0 && d[q + 1] == BGZF_ID1 {
            if sublen != 2 {
            } else if q + 6 > d.len() {
            } else {
                let size = (le16_at(d, q + 4) + 1) as u32;
                if 6 > rem {
                } else {
                    lemma_walk_bounds(d, q + 6, rem - 6, Some(size));
                }
            }
        } else {
            if 4 + sublen > rem {
            } else {
                lemma_walk_bounds(d, q + 4 + sublen, rem - 4 - sublen, found);
            }
        }
    }
}

/// A classified block's span stays inside the stream, is at least one
/// byte, and a good block holds at least its own header and trailer.
pub proof fn lemma_block_at_bounds(d: Seq<u8>, pos: int)
    ensures
        match block_at(d, pos) {
            BlockOutcome::Good { compressed_size: b, .. } => 0 <= pos && 26 <= b && pos + b
                <= d.len(),
            BlockOutcome::Corrupted { compressed_size: b, .. } => 0 <= pos && 1 <= b && pos + b
                <= d.len(),
            BlockOutcome::EndOfFile => true,
            BlockOutcome::TruncatedInBlock => true,
        },
{
    if 0 <= pos < d.len() && !is_term_at(d, pos) && pos + 12 <= d.len() {
        let xlen = le16_at(d, pos + 10);
        lemma_walk_bounds(d, pos + 12, xlen, None);
    }
}

/// Folds the stream from `pos` into statistics. `last_empty` says
/// whether the block just before `pos` decompressed to nothing, which is
/// what distinguishes a clean end of file from one truncated between
/// blocks.
pub open spec fn scan_from(d: Seq<u8>, pos: int, last_empty: bool) -> SpecStats
    decreases d.len() - pos
        via scan_from_dec
{
    match block_at(d, pos) {
        BlockOutcome::EndOfFile => SpecStats {
            blocks_count: 0,
            blocks_size: 0,
            bad_blocks_count: 0,
            bad_blocks_size: 0,
            truncated_in_block: false,
            truncated_between_blocks: !last_empty,
        },
        BlockOutcome::TruncatedInBlock => SpecStats {
            blocks_count: 0,
            blocks_size: 0,
            bad_blocks_count: 0,
            bad_blocks_size: 0,
            truncated_in_block: true,
            truncated_between_blocks: false,
        },
        BlockOutcome::Good { compressed_size: b, decompressed_size: s } => {
            let rest = scan_from(d, pos + b, s == 0);
            SpecStats {
                blocks_count: rest.blocks_count + 1,
                blocks_size: rest.blocks_size + s,
                bad_blocks_count: rest.bad_blocks_count,
                bad_blocks_size: rest.bad_blocks_size,
                truncated_in_block: rest.truncated_in_block,
                truncated_between_blocks: rest.truncated_between_blocks,
            }
        },
        BlockOutcome::Corrupted { compressed_size: b, .. } => {
            let rest = scan_from(d, pos + b, false);
            SpecStats {
                blocks_count: rest.blocks_count + 1,
                blocks_size: rest.blocks_size,
                bad_blocks_count: rest.bad_blocks_count + 1,
                bad_blocks_size: rest.bad_blocks_size + b,
                truncated_in_block: rest.truncated_in_block,
                truncated_between_blocks: rest.truncated_between_blocks,
            }
        },
    }
}

#[via_fn]
proof fn scan_from_dec(d: Seq<u8>, pos: int, last_empty: bool) {
    lemma_block_at_bounds(d, pos);
}

/// The bytes the rescue pass emits from `pos` on: good blocks verbatim,
/// corrupted blocks dropped, and, once the stream ends, the canonical
/// terminator unless the block last copied was already empty
/// (`last_copied_empty`).
pub open spec fn rescue_bytes(d: Seq<u8>, pos: int, last_copied_empty: bool) -> Seq<u8>
    decreases d.len() - pos
        via rescue_bytes_dec
{
    match block_at(d, pos) {
        BlockOutcome::Good { compressed_size: b, decompressed_size: s } => d.subrange(
            pos,
            pos + b,
        ) + rescue_bytes(d, pos + b, s == 0),
        BlockOutcome::Corrupted { compressed_size: b, .. } => rescue_bytes(
            d,
            pos + b,
            last_copied_empty,
        ),
        BlockOutcome::EndOfFile | BlockOutcome::TruncatedInBlock => if last_copied_empty {
            Seq::empty()
        } else {
            term_seq()
        },
    }
}

#[via_fn]
proof fn rescue_bytes_dec(d: Seq<u8>, pos: int, last_copied_empty: bool) {
    lemma_block_at_bounds(d, pos);
}

} // verus!
