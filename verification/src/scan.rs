//! The block scanner and the rescue writer: drive the block parser over
//! the whole stream, fold each outcome into statistics, and, for rescue,
//! copy the surviving blocks verbatim.

use vstd::prelude::*;

use crate::block::{check_block, terminator_block};
use crate::model::{
    lemma_block_at_bounds, rescue_bytes, scan_from, stats_plus,
    BlockOutcome, SpecStats,
};

verus! {

/// No scanned stream may be longer than this: it keeps the sum of the
/// good blocks' decompressed sizes (each below `2^32`, over blocks of at
/// least 26 bytes) within `u64`.
pub const MAX_SCAN_LEN: u64 = 26u64 * 0xFFFF_FFFFu64;

/// Whole-file statistics of one scan or rescue pass.
#[derive(Clone, Copy, Debug, PartialEq, Eq, Structural)]
pub struct ScanStatistics {
    /// Blocks encountered, good and corrupted alike.
    pub blocks_count: u64,
    /// Sum of the decompressed sizes of the good blocks.
    pub blocks_size: u64,
    /// Corrupted blocks encountered.
    pub bad_blocks_count: u64,
    /// Sum of the compressed spans of the corrupted blocks.
    pub bad_blocks_size: u64,
    /// The stream ended inside a block, or a block's span could not be
    /// determined.
    pub truncated_in_block: bool,
    /// The stream ended at a block boundary without a terminator.
    pub truncated_between_blocks: bool,
}

impl View for ScanStatistics {
    type V = SpecStats;

    open spec fn view(&self) -> SpecStats {
        SpecStats {
            blocks_count: self.blocks_count as int,
            blocks_size: self.blocks_size as int,
            bad_blocks_count: self.bad_blocks_count as int,
            bad_blocks_size: self.bad_blocks_size as int,
            truncated_in_block: self.truncated_in_block,
            truncated_between_blocks: self.truncated_between_blocks,
        }
    }
}

impl ScanStatistics {
    /// Statistics of an empty scan.
    pub fn new() -> (r: ScanStatistics)
        ensures
            r@ == (SpecStats {
                blocks_count: 0,
                blocks_size: 0,
                bad_blocks_count: 0,
                bad_blocks_size: 0,
                truncated_in_block: false,
                truncated_between_blocks: false,
            }),
    {
        ScanStatistics {
            blocks_count: 0,
            blocks_size: 0,
            bad_blocks_count: 0,
            bad_blocks_size: 0,
            truncated_in_block: false,
            truncated_between_blocks: false,
        }
    }
}

/// Scans the whole stream block by block and reports its statistics.
/// Corrupted blocks are stepped over; the scan stops at the end of the
/// stream or at the first block that cannot be resynchronized past.
pub fn check(data: &Vec<u8>) -> (r: ScanStatistics)
    requires
        data@.len() <= MAX_SCAN_LEN,
        data@.len() + 0x2_0000 <= usize::MAX,
    ensures
        r@ == scan_from(data@, 0, true),
{
    let ghost d = data@;
    let len = data.len();
    let mut pos: usize = 0;
    let mut last_empty: bool = true;
    let mut st = ScanStatistics::new();
    loop
        invariant
            d == data@,
            data@.len() == len,
            pos <= len,
            data@.len() <= MAX_SCAN_LEN,
            data@.len() + 0x2_0000 <= usize::MAX,
            !st.truncated_in_block,
            !st.truncated_between_blocks,
            st.blocks_count as int <= pos as int,
            st.bad_blocks_count as int <= pos as int,
            st.bad_blocks_size as int <= pos as int,
            26 * (st.blocks_size as int) <= pos as int * 0xFFFF_FFFF,
            scan_from(d, 0, true) == stats_plus(st@, scan_from(d, pos as int, last_empty)),
        decreases len - pos,
    {
        let outcome = check_block(data, pos);
        proof {
            lemma_block_at_bounds(d, pos as int);
        }
        match outcome {
            BlockOutcome::EndOfFile => {
                if !last_empty {
                    st.truncated_between_blocks = true;
                }
                return st;
            },
            BlockOutcome::TruncatedInBlock => {
                st.truncated_in_block = true;
                return st;
            },
            BlockOutcome::Good { compressed_size: b, decompressed_size: s } => {
                proof {
                    assert(st.blocks_size as int <= 0xFFFF_FFFF * 0xFFFF_FFFF)
                        by (nonlinear_arith)
                        requires
                            26 * (st.blocks_size as int) <= (pos as int) * 0xFFFF_FFFF,
                            (pos as int) <= 26 * 0xFFFF_FFFF,
                            0 <= (st.blocks_size as int),
                    ;
                    assert(26 * (st.blocks_size as int + s as int) <= (pos as int + b as int)
                        * 0xFFFF_FFFF) by (nonlinear_arith)
                        requires
                            26 * (st.blocks_size as int) <= (pos as int) * 0xFFFF_FFFF,
                            0 <= (s as int) && (s as int) < 0x1_0000_0000,
                            26 <= (b as int),
                    ;
                }
                st.blocks_count = st.blocks_count + 1;
                st.blocks_size = st.blocks_size + s as u64;
                pos = pos + b as usize;
                last_empty = s == 0;
            },
            BlockOutcome::Corrupted { compressed_size: b, .. } => {
                st.blocks_count = st.blocks_count + 1;
                st.bad_blocks_count = st.bad_blocks_count + 1;
                st.bad_blocks_size = st.bad_blocks_size + b as u64;
                pos = pos + b as usize;
                last_empty = false;
            },
        }
    }
}

/// Scans the stream exactly as `check` does, copies each good block's
/// original bytes verbatim to the output, drops corrupted blocks, and
/// appends the canonical terminator unless the block last copied was
/// already empty. Returns the rescued bytes and the same statistics as
/// `check`.
pub fn repair(data: &Vec<u8>) -> (r: (Vec<u8>, ScanStatistics))
    requires
        data@.len() <= MAX_SCAN_LEN,
        data@.len() + 0x2_0000 <= usize::MAX,
    ensures
        r.0@ == rescue_bytes(data@, 0, false),
        r.1@ == scan_from(data@, 0, true),
{
    let ghost d = data@;
    let len = data.len();
    let mut pos: usize = 0;
    let mut last_empty: bool = true;
    let mut last_copied_empty: bool = false;
    let mut out: Vec<u8> = Vec::new();
    let mut st = ScanStatistics::new();
    loop
        invariant
            d == data@,
            data@.len() == len,
            pos <= len,
            data@.len() <= MAX_SCAN_LEN,
            data@.len() + 0x2_0000 <= usize::MAX,
            !st.truncated_in_block,
            !st.truncated_between_blocks,
            st.blocks_count as int <= pos as int,
            st.bad_blocks_count as int <= pos as int,
            st.bad_blocks_size as int <= pos as int,
            26 * (st.blocks_size as int) <= pos as int * 0xFFFF_FFFF,
            scan_from(d, 0, true) == stats_plus(st@, scan_from(d, pos as int, last_empty)),
            rescue_bytes(d, 0, false) == out@ + rescue_bytes(d, pos as int, last_copied_empty),
        decreases len - pos,
    {
        let outcome = check_block(data, pos);
        proof {
            lemma_block_at_bounds(d, pos as int);
        }
        match outcome {
            BlockOutcome::EndOfFile => {
                if !last_empty {
                    st.truncated_between_blocks = true;
                }
                if !last_copied_empty {
                    let mut t = terminator_block();
                    out.append(&mut t);
                }
                proof {
                    assert(out@ =~= rescue_bytes(d, 0, false));
                }
                return (out, st);
            },
            BlockOutcome::TruncatedInBlock => {
                st.truncated_in_block = true;
                if !last_copied_empty {
                    let mut t = terminator_block();
                    out.append(&mut t);
                }
                proof {
                    assert(out@ =~= rescue_bytes(d, 0, false));
                }
                return (out, st);
            },
            BlockOutcome::Good { compressed_size: b, decompressed_size: s } => {
                proof {
                    assert(st.blocks_size as int <= 0xFFFF_FFFF * 0xFFFF_FFFF)
                        by (nonlinear_arith)
                        requires
                            26 * (st.blocks_size as int) <= (pos as int) * 0xFFFF_FFFF,
                            (pos as int) <= 26 * 0xFFFF_FFFF,
                            0 <= (st.blocks_size as int),
                    ;
                    assert(26 * (st.blocks_size as int + s as int) <= (pos as int + b as int)
                        * 0xFFFF_FFFF) by (nonlinear_arith)
                        requires
                            26 * (st.blocks_size as int) <= (pos as int) * 0xFFFF_FFFF,
                            0 <= (s as int) && (s as int) < 0x1_0000_0000,
                            26 <= (b as int),
                    ;
                }
                let mut chunk = crate::bytes::copy_range(data, pos, b as usize);
                out.append(&mut chunk);
                st.blocks_count = st.blocks_count + 1;
                st.blocks_size = st.blocks_size + s as u64;
                pos = pos + b as usize;
                last_empty = s == 0;
                last_copied_empty = s == 0;
                proof {
                    assert(rescue_bytes(d, 0, false) == out@ + rescue_bytes(
                        d,
                        pos as int,
                        last_copied_empty,
                    )) by {
                        assert(out@ + rescue_bytes(d, pos as int, last_copied_empty)
                            =~= rescue_bytes(d, 0, false));
                    }
                }
            },
            BlockOutcome::Corrupted { compressed_size: b, .. } => {
                st.blocks_count = st.blocks_count + 1;
                st.bad_blocks_count = st.bad_blocks_count + 1;
                st.bad_blocks_size = st.bad_blocks_size + b as u64;
                pos = pos + b as usize;
                last_empty = false;
            },
        }
    }
}

} // verus!
