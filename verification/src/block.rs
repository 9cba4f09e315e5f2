//! The executable block parser: classifies the block starting at a given
//! offset exactly as the model's `block_at` does.

use vstd::prelude::*;

use crate::bytes::{copy_range, read_le16, read_le32};
use crate::compress::{crc32_ieee, inflate_payload};
use crate::model::{
    block_at, is_term_at, term_seq, walk_spec, BlockOutcome, CorruptionKind,
    WalkResult, BGZF_ID0, BGZF_ID1, FLAGS_EXTRA_ONLY, GZIP_ID0, GZIP_ID1, METHOD_DEFLATE,
};

verus! {

/// The canonical 28-byte terminator block, as bytes.
pub fn terminator_block() -> (r: Vec<u8>)
    ensures
        r@ == term_seq(),
{
    let mut v: Vec<u8> = Vec::new();
    v.push(0x1f);
    v.push(0x8b);
    v.push(0x08);
    v.push(0x04);
    v.push(0x00);
    v.push(0x00);
    v.push(0x00);
    v.push(0x00);
    v.push(0x00);
    v.push(0xff);
    v.push(0x06);
    v.push(0x00);
    v.push(0x42);
    v.push(0x43);
    v.push(0x02);
    v.push(0x00);
    v.push(0x1b);
    v.push(0x00);
    v.push(0x03);
    v.push(0x00);
    v.push(0x00);
    v.push(0x00);
    v.push(0x00);
    v.push(0x00);
    v.push(0x00);
    v.push(0x00);
    v.push(0x00);
    v.push(0x00);
    proof {
        assert(v@ =~= term_seq());
    }
    v
}

/// Does the canonical terminator block sit at `pos`?
fn is_terminator_at(data: &Vec<u8>, pos: usize) -> (b: bool)
    requires
        pos <= data@.len(),
    ensures
        b == is_term_at(data@, pos as int),
{
    let len = data.len();
    if len < 28 || pos > len - 28 {
        return false;
    }
    let term = terminator_block();
    let mut i: usize = 0;
    while i < 28
        invariant
            i <= 28,
            pos + 28 <= data@.len(),
            data@.len() == len,
            term@ == term_seq(),
            forall|j: int| 0 <= j < i ==> data@[pos + j] == #[trigger] term_seq()[j],
        decreases 28 - i,
    {
        if data[pos + i] != term[i] {
            proof {
                assert(data@.subrange(pos as int, pos as int + 28)[i as int] == data@[pos + i]);
                assert(data@.subrange(pos as int, pos as int + 28) != term_seq());
            }
            return false;
        }
        i = i + 1;
    }
    proof {
        assert forall|j: int| 0 <= j < 28 implies data@.subrange(pos as int, pos as int + 28)[j]
            == term_seq()[j] by {
            assert(data@.subrange(pos as int, pos as int + 28)[j] == data@[pos + j]);
        }
        assert(data@.subrange(pos as int, pos as int + 28) =~= term_seq());
    }
    true
}

/// Walks the subfields of the extra field, mirroring `walk_spec`.
fn parse_extra(data: &Vec<u8>, start: usize, xlen: u16) -> (w: WalkResult)
    requires
        start <= data@.len(),
        data@.len() + 0x2_0000 <= usize::MAX,
    ensures
        w == walk_spec(data@, start as int, xlen as int, None),
{
    let len = data.len();
    let mut q: usize = start;
    let mut rem: u32 = xlen as u32;
    let mut found: Option<u32> = None;
    while rem > 0
        invariant
            q + rem == start + xlen,
            data@.len() + 0x2_0000 <= usize::MAX,
            data@.len() == len,
            start <= data@.len(),
            walk_spec(data@, q as int, rem as int, found) == walk_spec(
                data@,
                start as int,
                xlen as int,
                None,
            ),
        decreases rem,
    {
        if q + 4 > len {
            return WalkResult::PastEnd;
        }
        let id0 = data[q];
        let id1 = data[q + 1];
        let sublen = read_le16(data, q + 2);
        if id0 == BGZF_ID0 && id1 == BGZF_ID1 {
            if sublen != 2 {
                return WalkResult::Malformed { found };
            }
            if q + 6 > len {
                return WalkResult::PastEnd;
            }
            let raw = read_le16(data, q + 4);
            let size: u32 = raw as u32 + 1;
            if 6 > rem {
                return WalkResult::Malformed { found: Some(size) };
            }
            found = Some(size);
            q = q + 6;
            rem = rem - 6;
        } else {
            if 4 + sublen as u32 > rem {
                return WalkResult::Malformed { found };
            }
            q = q + 4 + sublen as usize;
            rem = rem - 4 - sublen as u32;
        }
    }
    match found {
        Some(b) => WalkResult::Found { bsize: b },
        None => WalkResult::Malformed { found: None },
    }
}

/// Classifies the block starting at `pos`: parses the gzip header and
/// extra field, bounds and decompresses the payload, and validates the
/// trailer's checksum and length against the decompressed bytes.
pub fn check_block(data: &Vec<u8>, pos: usize) -> (r: BlockOutcome)
    requires
        data@.len() + 0x2_0000 <= usize::MAX,
    ensures
        r == block_at(data@, pos as int),
{
    let len = data.len();
    if pos >= len {
        return BlockOutcome::EndOfFile;
    }
    if is_terminator_at(data, pos) {
        return BlockOutcome::Good { compressed_size: 28, decompressed_size: 0 };
    }
    if pos + 2 > len {
        return BlockOutcome::TruncatedInBlock;
    }
    if data[pos] != GZIP_ID0 || data[pos + 1] != GZIP_ID1 {
        return BlockOutcome::TruncatedInBlock;
    }
    if pos + 12 > len {
        return BlockOutcome::TruncatedInBlock;
    }
    if data[pos + 2] != METHOD_DEFLATE {
        return BlockOutcome::TruncatedInBlock;
    }
    if data[pos + 3] != FLAGS_EXTRA_ONLY {
        return BlockOutcome::TruncatedInBlock;
    }
    let xlen = read_le16(data, pos + 10);
    let w = parse_extra(data, pos + 12, xlen);
    proof {
        crate::model::lemma_walk_bounds(data@, pos as int + 12, xlen as int, None);
    }
    let bsize: u32 = match w {
        WalkResult::PastEnd => {
            return BlockOutcome::TruncatedInBlock;
        },
        WalkResult::Malformed { found: None } => {
            return BlockOutcome::TruncatedInBlock;
        },
        WalkResult::Malformed { found: Some(b) } => {
            if pos as u64 + b as u64 <= len as u64 {
                return BlockOutcome::Corrupted {
                    reason: CorruptionKind::MalformedExtraField,
                    compressed_size: b,
                };
            } else {
                return BlockOutcome::TruncatedInBlock;
            }
        },
        WalkResult::Found { bsize } => bsize,
    };
    if (bsize as u64) < xlen as u64 + 20 {
        if pos as u64 + bsize as u64 <= len as u64 {
            return BlockOutcome::Corrupted {
                reason: CorruptionKind::DeclaredSizeTooSmall,
                compressed_size: bsize,
            };
        } else {
            return BlockOutcome::TruncatedInBlock;
        }
    }
    if pos as u64 + bsize as u64 > len as u64 {
        return BlockOutcome::TruncatedInBlock;
    }
    let p0: usize = pos + 12 + xlen as usize;
    let plen: usize = bsize as usize - xlen as usize - 20;
    let payload = copy_range(data, p0, plen);
    let inflated = match inflate_payload(&payload) {
        None => {
            return BlockOutcome::Corrupted {
                reason: CorruptionKind::InflateFailure,
                compressed_size: bsize,
            };
        },
        Some(v) => v,
    };
    let crc = crc32_ieee(&inflated);
    let stored_crc = read_le32(data, p0 + plen);
    if stored_crc != crc {
        return BlockOutcome::Corrupted {
            reason: CorruptionKind::ChecksumMismatch,
            compressed_size: bsize,
        };
    }
    let stored_len = read_le32(data, p0 + plen + 4);
    if inflated.len() as u64 != stored_len as u64 {
        return BlockOutcome::Corrupted {
            reason: CorruptionKind::LengthMismatch,
            compressed_size: bsize,
        };
    }
    BlockOutcome::Good { compressed_size: bsize, decompressed_size: stored_len }
}

} // verus!
