//! Stream-level laws of the scanner and the rescue pass, stated over the
//! model and proved once and for all.

use vstd::prelude::*;

use crate::model::{
    block_at, is_term_at, lemma_block_at_bounds, payload_at, rescue_bytes, scan_from, term_seq,
    walk_spec, BlockOutcome, SpecStats, WalkResult,
};

verus! {

/// The stream from `pos` on is a chain of good blocks that ends exactly
/// at the end of the stream, the last of them empty (`last_empty` stands
/// for the block just before `pos`). This is what it means for a file to
/// be well formed.
pub open spec fn clean_from(d: Seq<u8>, pos: int, last_empty: bool) -> bool
    decreases d.len() - pos
        via clean_from_dec
{
    match block_at(d, pos) {
        BlockOutcome::EndOfFile => last_empty,
        BlockOutcome::Good { compressed_size: b, decompressed_size: s } => clean_from(
            d,
            pos + b,
            s == 0,
        ),
        _ => false,
    }
}

#[via_fn]
proof fn clean_from_dec(d: Seq<u8>, pos: int, last_empty: bool) {
    lemma_block_at_bounds(d, pos);
}

/// How many good blocks a clean chain holds from `pos` on.
pub open spec fn good_count_from(d: Seq<u8>, pos: int) -> int
    decreases d.len() - pos
        via good_count_from_dec
{
    match block_at(d, pos) {
        BlockOutcome::Good { compressed_size: b, .. } => 1 + good_count_from(d, pos + b),
        _ => 0,
    }
}

#[via_fn]
proof fn good_count_from_dec(d: Seq<u8>, pos: int) {
    lemma_block_at_bounds(d, pos);
}

/// The sum of the decompressed sizes of the good blocks of a clean chain.
pub open spec fn good_size_from(d: Seq<u8>, pos: int) -> int
    decreases d.len() - pos
        via good_size_from_dec
{
    match block_at(d, pos) {
        BlockOutcome::Good { compressed_size: b, decompressed_size: s } => s + good_size_from(
            d,
            pos + b,
        ),
        _ => 0,
    }
}

#[via_fn]
proof fn good_size_from_dec(d: Seq<u8>, pos: int) {
    lemma_block_at_bounds(d, pos);
}

/// On a well-formed stream the scan finds no bad block, no truncation,
/// and reports exactly the number of blocks and the sum of their
/// decompressed sizes.
pub proof fn lemma_check_well_formed(d: Seq<u8>, pos: int, last_empty: bool)
    requires
        clean_from(d, pos, last_empty),
    ensures
        scan_from(d, pos, last_empty) == (SpecStats {
            blocks_count: good_count_from(d, pos),
            blocks_size: good_size_from(d, pos),
            bad_blocks_count: 0,
            bad_blocks_size: 0,
            truncated_in_block: false,
            truncated_between_blocks: false,
        }),
    decreases d.len() - pos,
{
    lemma_block_at_bounds(d, pos);
    match block_at(d, pos) {
        BlockOutcome::Good { compressed_size: b, decompressed_size: s } => {
            lemma_check_well_formed(d, pos + b, s == 0);
        },
        _ => {},
    }
}

/// One data block followed directly by a valid empty block, together
/// making up the whole stream: the scan counts two blocks, no bad ones,
/// and the data block's decompressed size.
pub proof fn lemma_data_block_then_terminator(d: Seq<u8>, b: u32, s: u32)
    requires
        block_at(d, 0) == (BlockOutcome::Good { compressed_size: b, decompressed_size: s }),
        block_at(d, b as int) == (BlockOutcome::Good {
            compressed_size: 28u32,
            decompressed_size: 0u32,
        }),
        d.len() == b + 28,
    ensures
        scan_from(d, 0, true) == (SpecStats {
            blocks_count: 2,
            blocks_size: s as int,
            bad_blocks_count: 0,
            bad_blocks_size: 0,
            truncated_in_block: false,
            truncated_between_blocks: false,
        }),
{
    assert(block_at(d, b as int + 28) == BlockOutcome::EndOfFile);
    assert(scan_from(d, b as int + 28, true) == (SpecStats {
        blocks_count: 0,
        blocks_size: 0,
        bad_blocks_count: 0,
        bad_blocks_size: 0,
        truncated_in_block: false,
        truncated_between_blocks: false,
    }));
    assert(scan_from(d, b as int, s == 0) == (SpecStats {
        blocks_count: 1,
        blocks_size: 0,
        bad_blocks_count: 0,
        bad_blocks_size: 0,
        truncated_in_block: false,
        truncated_between_blocks: false,
    }));
}

/// A block that fails validation but whose span is known contributes
/// exactly one bad block and its compressed span to the statistics, and
/// scanning continues at the declared next-block offset.
pub proof fn lemma_corrupted_block_scanned_past(
    d: Seq<u8>,
    pos: int,
    last_empty: bool,
    k: crate::model::CorruptionKind,
    b: u32,
)
    requires
        block_at(d, pos) == (BlockOutcome::Corrupted { reason: k, compressed_size: b }),
    ensures
        scan_from(d, pos, last_empty) == (SpecStats {
            blocks_count: scan_from(d, pos + b, false).blocks_count + 1,
            blocks_size: scan_from(d, pos + b, false).blocks_size,
            bad_blocks_count: scan_from(d, pos + b, false).bad_blocks_count + 1,
            bad_blocks_size: scan_from(d, pos + b, false).bad_blocks_size + b,
            truncated_in_block: scan_from(d, pos + b, false).truncated_in_block,
            truncated_between_blocks: scan_from(d, pos + b, false).truncated_between_blocks,
        }),
{
}

/// A completed subfield walk reads nothing past its own extra field, so
/// cutting the stream anywhere at or after `q + rem` leaves it unchanged.
proof fn lemma_walk_prefix_within(w: Seq<u8>, c: int, q: int, rem: int, f: Option<u32>)
    requires
        0 <= q,
        0 <= rem,
        q + rem <= c <= w.len(),
        walk_spec(w, q, rem, f) is Found,
    ensures
        walk_spec(w.take(c), q, rem, f) == walk_spec(w, q, rem, f),
    decreases rem,
{
    let d2 = w.take(c);
    if rem <= 0 {
    } else {
        let sublen = crate::bytes::le16_at(w, q + 2);
        assert(d2[q] == w[q] && d2[q + 1] == w[q + 1] && d2[q + 2] == w[q + 2] && d2[q + 3] == w[
            q + 3]);
        if w[q] == 0x42 && w[q + 1] == 0x43 {
            assert(d2[q + 4] == w[q + 4] && d2[q + 5] == w[q + 5]);
            lemma_walk_prefix_within(w, c, q + 6, rem - 6, Some(
                (crate::bytes::le16_at(w, q + 4) + 1) as u32,
            ));
        } else {
            lemma_walk_prefix_within(w, c, q + 4 + sublen, rem - 4 - sublen, f);
        }
    }
}

/// Cutting a stream anywhere turns a completed subfield walk into either
/// the same result or a walk that runs past the new end.
proof fn lemma_walk_prefix_cut(w: Seq<u8>, c: int, q: int, rem: int, f: Option<u32>)
    requires
        0 <= q,
        0 <= rem,
        0 <= c <= w.len(),
        walk_spec(w, q, rem, f) is Found,
    ensures
        walk_spec(w.take(c), q, rem, f) == walk_spec(w, q, rem, f) || walk_spec(
            w.take(c),
            q,
            rem,
            f,
        ) is PastEnd,
    decreases rem,
{
    let d2 = w.take(c);
    if rem <= 0 {
    } else if q + 4 > c {
    } else {
        let sublen = crate::bytes::le16_at(w, q + 2);
        assert(d2[q] == w[q] && d2[q + 1] == w[q + 1] && d2[q + 2] == w[q + 2] && d2[q + 3] == w[
            q + 3]);
        if w[q] == 0x42 && w[q + 1] == 0x43 {
            if q + 6 > c {
            } else {
                assert(d2[q + 4] == w[q + 4] && d2[q + 5] == w[q + 5]);
                lemma_walk_prefix_cut(w, c, q + 6, rem - 6, Some(
                    (crate::bytes::le16_at(w, q + 4) + 1) as u32,
                ));
            }
        } else {
            lemma_walk_prefix_cut(w, c, q + 4 + sublen, rem - 4 - sublen, f);
        }
    }
}

/// A good block is classified from its own bytes alone: cutting the
/// stream anywhere at or after the block's end does not change it.
pub proof fn lemma_block_at_prefix(w: Seq<u8>, c: int, pos: int, b: u32, s: u32)
    requires
        block_at(w, pos) == (BlockOutcome::Good { compressed_size: b, decompressed_size: s }),
        0 <= pos,
        pos + b <= c <= w.len(),
    ensures
        block_at(w.take(c), pos) == block_at(w, pos),
{
    let d2 = w.take(c);
    lemma_block_at_bounds(w, pos);
    if is_term_at(w, pos) {
        assert(b == 28);
        assert(d2.subrange(pos, pos + 28) =~= w.subrange(pos, pos + 28));
        assert(is_term_at(d2, pos));
    } else {
        assert(!is_term_at(d2, pos)) by {
            if is_term_at(d2, pos) {
                assert(d2.subrange(pos, pos + 28) =~= w.subrange(pos, pos + 28));
                assert(is_term_at(w, pos));
            }
        }
        assert(d2[pos] == w[pos] && d2[pos + 1] == w[pos + 1] && d2[pos + 2] == w[pos + 2] && d2[
            pos + 3] == w[pos + 3] && d2[pos + 10] == w[pos + 10] && d2[pos + 11] == w[pos + 11]);
        let xlen = crate::bytes::le16_at(w, pos + 10);
        match walk_spec(w, pos + 12, xlen, None) {
            WalkResult::Found { bsize } => {
                assert(bsize == b);
                lemma_walk_prefix_within(w, c, pos + 12, xlen, None);
                let p0 = pos + 12 + xlen;
                let plen = b - xlen - 20;
                assert(d2.subrange(p0, p0 + plen) =~= w.subrange(p0, p0 + plen));
                assert(crate::bytes::le32_at(d2, p0 + plen) == crate::bytes::le32_at(w, p0 + plen));
                assert(crate::bytes::le32_at(d2, p0 + plen + 4) == crate::bytes::le32_at(
                    w,
                    p0 + plen + 4,
                ));
            },
            _ => {},
        }
    }
}

/// Cutting a stream strictly inside a good block turns that block into a
/// truncation.
pub proof fn lemma_block_at_cut(w: Seq<u8>, c: int, pos: int, b: u32, s: u32)
    requires
        block_at(w, pos) == (BlockOutcome::Good { compressed_size: b, decompressed_size: s }),
        0 <= pos < c < pos + b,
        c <= w.len(),
    ensures
        block_at(w.take(c), pos) == BlockOutcome::TruncatedInBlock,
{
    let d2 = w.take(c);
    lemma_block_at_bounds(w, pos);
    assert(!is_term_at(d2, pos)) by {
        if is_term_at(d2, pos) {
            assert(d2.subrange(pos, pos + 28) =~= w.subrange(pos, pos + 28));
            assert(is_term_at(w, pos));
            assert(b == 28);
        }
    }
    if is_term_at(w, pos) {
        assert(b == 28);
        if pos + 2 <= c {
            assert(d2[pos] == w[pos] && d2[pos + 1] == w[pos + 1]);
            assert(w.subrange(pos, pos + 28) == term_seq());
            assert(w[pos] == w.subrange(pos, pos + 28)[0]);
            assert(w[pos + 1] == w.subrange(pos, pos + 28)[1]);
            if pos + 12 <= c {
                assert(d2[pos + 2] == w[pos + 2] && d2[pos + 3] == w[pos + 3]);
                assert(w[pos + 2] == w.subrange(pos, pos + 28)[2]);
                assert(w[pos + 3] == w.subrange(pos, pos + 28)[3]);
                assert(d2[pos + 10] == w[pos + 10] && d2[pos + 11] == w[pos + 11]);
                assert(w[pos + 10] == w.subrange(pos, pos + 28)[10]);
                assert(w[pos + 11] == w.subrange(pos, pos + 28)[11]);
                let xlen = crate::bytes::le16_at(d2, pos + 10);
                assert(xlen == 6);
                assert(w[pos + 12] == w.subrange(pos, pos + 28)[12]);
                assert(w[pos + 13] == w.subrange(pos, pos + 28)[13]);
                assert(w[pos + 14] == w.subrange(pos, pos + 28)[14]);
                assert(w[pos + 15] == w.subrange(pos, pos + 28)[15]);
                assert(w[pos + 16] == w.subrange(pos, pos + 28)[16]);
                assert(w[pos + 17] == w.subrange(pos, pos + 28)[17]);
                if pos + 16 > c {
                    assert(walk_spec(d2, pos + 12, 6, None) is PastEnd);
                } else {
                    assert(d2[pos + 12] == w[pos + 12] && d2[pos + 13] == w[pos + 13] && d2[pos
                        + 14] == w[pos + 14] && d2[pos + 15] == w[pos + 15]);
                    if pos + 18 > c {
                        assert(walk_spec(d2, pos + 12, 6, None) is PastEnd);
                    } else {
                        assert(d2[pos + 16] == w[pos + 16] && d2[pos + 17] == w[pos + 17]);
                        assert(walk_spec(d2, pos + 18, 0, Some(28u32)) == (WalkResult::Found {
                            bsize: 28u32,
                        }));
                        assert(walk_spec(d2, pos + 12, 6, None) == (WalkResult::Found {
                            bsize: 28u32,
                        }));
                        assert(payload_at(d2, pos, 6, 28) == BlockOutcome::TruncatedInBlock);
                    }
                }
            }
        }
    } else {
        if pos + 2 <= c && pos + 12 <= c {
            assert(d2[pos] == w[pos] && d2[pos + 1] == w[pos + 1] && d2[pos + 2] == w[pos + 2]
                && d2[pos + 3] == w[pos + 3] && d2[pos + 10] == w[pos + 10] && d2[pos + 11] == w[
                pos + 11]);
            let xlen = crate::bytes::le16_at(w, pos + 10);
            match walk_spec(w, pos + 12, xlen, None) {
                WalkResult::Found { bsize } => {
                    assert(bsize == b);
                    lemma_walk_prefix_cut(w, c, pos + 12, xlen, None);
                    if walk_spec(d2, pos + 12, xlen, None) is PastEnd {
                    } else {
                        assert(payload_at(d2, pos, xlen, b) == BlockOutcome::TruncatedInBlock);
                    }
                },
                _ => {},
            }
        }
    }
}

/// Offset `c` lies strictly inside one of the good blocks of the chain
/// that starts at `pos`.
pub open spec fn cut_in_block(d: Seq<u8>, pos: int, c: int) -> bool
    decreases d.len() - pos
        via cut_in_block_dec
{
    match block_at(d, pos) {
        BlockOutcome::Good { compressed_size: b, .. } => if c < pos + b {
            pos < c
        } else {
            cut_in_block(d, pos + b, c)
        },
        _ => false,
    }
}

#[via_fn]
proof fn cut_in_block_dec(d: Seq<u8>, pos: int, c: int) {
    lemma_block_at_bounds(d, pos);
}

/// Offset `c` is the boundary right after a good block with a nonzero
/// payload, in the chain that starts at `pos`.
pub open spec fn boundary_after_data(d: Seq<u8>, pos: int, c: int) -> bool
    decreases d.len() - pos
        via boundary_after_data_dec
{
    match block_at(d, pos) {
        BlockOutcome::Good { compressed_size: b, decompressed_size: s } => if pos + b == c {
            s > 0
        } else {
            boundary_after_data(d, pos + b, c)
        },
        _ => false,
    }
}

#[via_fn]
proof fn boundary_after_data_dec(d: Seq<u8>, pos: int, c: int) {
    lemma_block_at_bounds(d, pos);
}

/// Truncating a stream in the middle of a block leaves the scan reporting
/// a truncation inside a block — and nothing past the cut block is
/// scanned, the chain ends there.
pub proof fn lemma_check_truncated_in_block(w: Seq<u8>, c: int, pos: int, last_empty: bool)
    requires
        cut_in_block(w, pos, c),
        c <= w.len(),
    ensures
        scan_from(w.take(c), pos, last_empty).truncated_in_block,
        !scan_from(w.take(c), pos, last_empty).truncated_between_blocks,
    decreases w.len() - pos,
{
    lemma_block_at_bounds(w, pos);
    match block_at(w, pos) {
        BlockOutcome::Good { compressed_size: b, decompressed_size: s } => {
            if c < pos + b {
                lemma_block_at_cut(w, c, pos, b, s);
            } else {
                lemma_block_at_prefix(w, c, pos, b, s);
                lemma_check_truncated_in_block(w, c, pos + b, s == 0);
            }
        },
        _ => {},
    }
}

/// A boundary-after-data offset lies strictly past the chain's start.
proof fn lemma_boundary_lt(w: Seq<u8>, pos: int, c: int)
    requires
        boundary_after_data(w, pos, c),
    ensures
        pos < c,
    decreases w.len() - pos,
{
    lemma_block_at_bounds(w, pos);
    match block_at(w, pos) {
        BlockOutcome::Good { compressed_size: b, .. } => {
            if pos + b == c {
            } else {
                lemma_boundary_lt(w, pos + b, c);
            }
        },
        _ => {},
    }
}

/// Truncating a stream right after a data block — in particular, cutting
/// the terminator off — leaves the scan reporting a truncation between
/// blocks.
pub proof fn lemma_check_truncated_between_blocks(w: Seq<u8>, c: int, pos: int, last_empty: bool)
    requires
        boundary_after_data(w, pos, c),
        c <= w.len(),
    ensures
        scan_from(w.take(c), pos, last_empty).truncated_between_blocks,
        !scan_from(w.take(c), pos, last_empty).truncated_in_block,
    decreases w.len() - pos,
{
    lemma_block_at_bounds(w, pos);
    match block_at(w, pos) {
        BlockOutcome::Good { compressed_size: b, decompressed_size: s } => {
            if pos + b == c {
                lemma_block_at_prefix(w, c, pos, b, s);
                assert(s > 0);
                assert(block_at(w.take(c), pos + b) == BlockOutcome::EndOfFile);
                assert(scan_from(w.take(c), pos + b, s == 0) == (SpecStats {
                    blocks_count: 0,
                    blocks_size: 0,
                    bad_blocks_count: 0,
                    bad_blocks_size: 0,
                    truncated_in_block: false,
                    truncated_between_blocks: !(s == 0),
                }));
                assert(scan_from(w.take(c), pos, last_empty).truncated_between_blocks
                    == scan_from(w.take(c), pos + b, s == 0).truncated_between_blocks);
            } else {
                lemma_boundary_lt(w, pos + b, c);
                lemma_block_at_prefix(w, c, pos, b, s);
                lemma_check_truncated_between_blocks(w, c, pos + b, s == 0);
                assert(scan_from(w.take(c), pos, last_empty).truncated_between_blocks
                    == scan_from(w.take(c), pos + b, s == 0).truncated_between_blocks);
                assert(scan_from(w.take(c), pos, last_empty).truncated_in_block == scan_from(
                    w.take(c),
                    pos + b,
                    s == 0,
                ).truncated_in_block);
            }
        },
        _ => {},
    }
}

/// The stream from `pos` on is a chain of good blocks running to the end
/// of the stream, but the last of them carries data: the terminator is
/// missing.
pub open spec fn unterminated_from(d: Seq<u8>, pos: int, last_empty: bool) -> bool
    decreases d.len() - pos
        via unterminated_from_dec
{
    match block_at(d, pos) {
        BlockOutcome::EndOfFile => !last_empty,
        BlockOutcome::Good { compressed_size: b, decompressed_size: s } => unterminated_from(
            d,
            pos + b,
            s == 0,
        ),
        _ => false,
    }
}

#[via_fn]
proof fn unterminated_from_dec(d: Seq<u8>, pos: int, last_empty: bool) {
    lemma_block_at_bounds(d, pos);
}

/// On a well-formed stream the rescue pass copies every block in place:
/// its output is the input itself.
pub proof fn lemma_rescue_identity(d: Seq<u8>, pos: int, last_empty: bool, last_copied_empty: bool)
    requires
        clean_from(d, pos, last_empty),
        0 <= pos < d.len(),
    ensures
        rescue_bytes(d, pos, last_copied_empty) == d.subrange(pos, d.len() as int),
    decreases d.len() - pos,
{
    lemma_block_at_bounds(d, pos);
    match block_at(d, pos) {
        BlockOutcome::Good { compressed_size: b, decompressed_size: s } => {
            if pos + b == d.len() {
                assert(block_at(d, pos + b) == BlockOutcome::EndOfFile);
                assert(clean_from(d, pos + b, s == 0));
                assert(clean_from(d, pos + b, s == 0) == (s == 0));
                assert(s == 0);
                assert(rescue_bytes(d, pos + b, s == 0) =~= Seq::<u8>::empty());
                assert(d.subrange(pos, pos + b) + rescue_bytes(d, pos + b, s == 0) =~= d.subrange(
                    pos,
                    d.len() as int,
                ));
            } else {
                lemma_rescue_identity(d, pos + b, s == 0, s == 0);
                assert(d.subrange(pos, pos + b) + d.subrange(pos + b, d.len() as int)
                    =~= d.subrange(pos, d.len() as int));
            }
        },
        _ => {},
    }
}

/// On a stream of good blocks whose terminator is missing, the rescue
/// pass copies the whole input and appends exactly one canonical
/// terminator.
pub proof fn lemma_rescue_appends_terminator(
    d: Seq<u8>,
    pos: int,
    last_empty: bool,
    last_copied_empty: bool,
)
    requires
        unterminated_from(d, pos, last_empty),
        last_copied_empty ==> last_empty,
        0 <= pos <= d.len(),
    ensures
        rescue_bytes(d, pos, last_copied_empty) == d.subrange(pos, d.len() as int) + term_seq(),
    decreases d.len() - pos,
{
    lemma_block_at_bounds(d, pos);
    match block_at(d, pos) {
        BlockOutcome::EndOfFile => {
            assert(rescue_bytes(d, pos, last_copied_empty) == term_seq());
            assert(d.subrange(pos, d.len() as int) + term_seq() =~= term_seq());
        },
        BlockOutcome::Good { compressed_size: b, decompressed_size: s } => {
            lemma_rescue_appends_terminator(d, pos + b, s == 0, s == 0);
            assert(d.subrange(pos, pos + b) + (d.subrange(pos + b, d.len() as int) + term_seq())
                =~= d.subrange(pos, d.len() as int) + term_seq());
        },
        _ => {},
    }
}

/// One byte of two equal windows.
proof fn lemma_window_byte(d1: Seq<u8>, p1: int, d2: Seq<u8>, p2: int, n: int, k: int)
    requires
        d2.subrange(p2, p2 + n) == d1.subrange(p1, p1 + n),
        0 <= k < n,
        0 <= p1,
        p1 + n <= d1.len(),
        0 <= p2,
        p2 + n <= d2.len(),
    ensures
        d2[p2 + k] == d1[p1 + k],
{
    assert(d2.subrange(p2, p2 + n)[k] == d2[p2 + k]);
    assert(d1.subrange(p1, p1 + n)[k] == d1[p1 + k]);
}

/// A block whose first 26 bytes are those of the canonical terminator
/// declares a size of exactly 28: whatever else holds of it, it cannot
/// be classified as a good or corrupted block of any other size.
proof fn lemma_term_prefix_forces_size(d: Seq<u8>, pos: int)
    requires
        0 <= pos,
        pos + 26 <= d.len(),
        d.subrange(pos, pos + 26) == term_seq().take(26),
    ensures
        match block_at(d, pos) {
            BlockOutcome::Good { compressed_size, .. } => compressed_size == 28,
            BlockOutcome::Corrupted { compressed_size, .. } => compressed_size == 28,
            _ => true,
        },
{
    let t = term_seq();
    assert(t.len() == 28);
    let w = d.subrange(pos, pos + 26);
    assert forall|k: int| 0 <= k < 26 implies d[pos + k] == t[k] by {
        assert(w[k] == d[pos + k]);
        assert(term_seq().take(26)[k] == t[k]);
    }
    if !is_term_at(d, pos) {
        assert(d[pos] == 0x1f && d[pos + 1] == 0x8b);
        assert(d[pos + 2] == 8 && d[pos + 3] == 4);
        assert(d[pos + 10] == 6 && d[pos + 11] == 0);
        assert(crate::bytes::le16_at(d, pos + 10) == 6);
        assert(d[pos + 12] == 0x42 && d[pos + 13] == 0x43);
        assert(d[pos + 14] == 2 && d[pos + 15] == 0);
        assert(crate::bytes::le16_at(d, pos + 14) == 2);
        assert(d[pos + 16] == 0x1b && d[pos + 17] == 0);
        assert(crate::bytes::le16_at(d, pos + 16) == 0x1b);
        assert(walk_spec(d, pos + 18, 0, Some(28u32)) == (WalkResult::Found { bsize: 28u32 }));
        assert(walk_spec(d, pos + 12, 6, None) == (WalkResult::Found { bsize: 28u32 }));
    }
}

/// A completed subfield walk depends only on the `rem` bytes of its own
/// extra field, wherever that window sits.
proof fn lemma_walk_translate(
    d1: Seq<u8>,
    q1: int,
    d2: Seq<u8>,
    q2: int,
    rem: int,
    f: Option<u32>,
)
    requires
        0 <= q1,
        0 <= q2,
        0 <= rem,
        q1 + rem <= d1.len(),
        q2 + rem <= d2.len(),
        d2.subrange(q2, q2 + rem) == d1.subrange(q1, q1 + rem),
        walk_spec(d1, q1, rem, f) is Found,
    ensures
        walk_spec(d2, q2, rem, f) == walk_spec(d1, q1, rem, f),
    decreases rem,
{
    if rem <= 0 {
    } else {
        lemma_window_byte(d1, q1, d2, q2, rem, 0);
        lemma_window_byte(d1, q1, d2, q2, rem, 1);
        lemma_window_byte(d1, q1, d2, q2, rem, 2);
        lemma_window_byte(d1, q1, d2, q2, rem, 3);
        let sublen = crate::bytes::le16_at(d1, q1 + 2);
        if d1[q1] == 0x42 && d1[q1 + 1] == 0x43 {
            lemma_window_byte(d1, q1, d2, q2, rem, 4);
            lemma_window_byte(d1, q1, d2, q2, rem, 5);
            assert(d2.subrange(q2 + 6, q2 + rem) =~= d1.subrange(q1 + 6, q1 + rem)) by {
                assert forall|j: int| 0 <= j < rem - 6 implies #[trigger] d2.subrange(q2 + 6, q2 + rem)[j]
                    == d1.subrange(q1 + 6, q1 + rem)[j] by {
                    lemma_window_byte(d1, q1, d2, q2, rem, 6 + j);
                    assert(d2.subrange(q2 + 6, q2 + rem)[j] == d2[q2 + 6 + j]);
                    assert(d1.subrange(q1 + 6, q1 + rem)[j] == d1[q1 + 6 + j]);
                }
            }
            lemma_walk_translate(d1, q1 + 6, d2, q2 + 6, rem - 6, Some(
                (crate::bytes::le16_at(d1, q1 + 4) + 1) as u32,
            ));
        } else {
            let step = 4 + sublen;
            assert(d2.subrange(q2 + step, q2 + rem) =~= d1.subrange(q1 + step, q1 + rem)) by {
                assert forall|j: int| 0 <= j < rem - step implies #[trigger] d2.subrange(
                    q2 + step,
                    q2 + rem,
                )[j] == d1.subrange(q1 + step, q1 + rem)[j] by {
                    lemma_window_byte(d1, q1, d2, q2, rem, step + j);
                    assert(d2.subrange(q2 + step, q2 + rem)[j] == d2[q2 + step + j]);
                    assert(d1.subrange(q1 + step, q1 + rem)[j] == d1[q1 + step + j]);
                }
            }
            lemma_walk_translate(d1, q1 + step, d2, q2 + step, rem - step, f);
        }
    }
}

/// A good block is classified from its own bytes alone: the same window
/// of bytes, placed anywhere in any stream, is the same good block.
pub proof fn lemma_block_translate(d1: Seq<u8>, p1: int, d2: Seq<u8>, p2: int, b: u32, s: u32)
    requires
        block_at(d1, p1) == (BlockOutcome::Good { compressed_size: b, decompressed_size: s }),
        0 <= p1,
        0 <= p2,
        p2 + b <= d2.len(),
        d2.subrange(p2, p2 + b) == d1.subrange(p1, p1 + b),
    ensures
        block_at(d2, p2) == (BlockOutcome::Good { compressed_size: b, decompressed_size: s }),
{
    lemma_block_at_bounds(d1, p1);
    if is_term_at(d1, p1) {
        assert(b == 28);
        assert(d2.subrange(p2, p2 + 28) == term_seq());
        assert(is_term_at(d2, p2));
    } else {
        assert(!is_term_at(d2, p2)) by {
            if is_term_at(d2, p2) {
                if b >= 28 {
                    assert(d1.subrange(p1, p1 + 28) =~= term_seq()) by {
                        assert forall|k: int| 0 <= k < 28 implies #[trigger] d1.subrange(p1, p1 + 28)[k]
                            == term_seq()[k] by {
                            lemma_window_byte(d1, p1, d2, p2, b as int, k);
                            assert(d1.subrange(p1, p1 + 28)[k] == d1[p1 + k]);
                            assert(d2.subrange(p2, p2 + 28)[k] == d2[p2 + k]);
                        }
                    }
                    assert(is_term_at(d1, p1));
                } else {
                    assert(d1.subrange(p1, p1 + 26) =~= term_seq().take(26)) by {
                        assert forall|k: int| 0 <= k < 26 implies #[trigger] d1.subrange(p1, p1 + 26)[k]
                            == term_seq().take(26)[k] by {
                            lemma_window_byte(d1, p1, d2, p2, b as int, k);
                            assert(d1.subrange(p1, p1 + 26)[k] == d1[p1 + k]);
                            assert(d2.subrange(p2, p2 + 28)[k] == d2[p2 + k]);
                            assert(term_seq().take(26)[k] == term_seq()[k]);
                        }
                    }
                    lemma_term_prefix_forces_size(d1, p1);
                }
            }
        }
        lemma_window_byte(d1, p1, d2, p2, b as int, 0);
        lemma_window_byte(d1, p1, d2, p2, b as int, 1);
        lemma_window_byte(d1, p1, d2, p2, b as int, 2);
        lemma_window_byte(d1, p1, d2, p2, b as int, 3);
        lemma_window_byte(d1, p1, d2, p2, b as int, 10);
        lemma_window_byte(d1, p1, d2, p2, b as int, 11);
        let xlen = crate::bytes::le16_at(d1, p1 + 10);
        assert(crate::bytes::le16_at(d2, p2 + 10) == xlen);
        match walk_spec(d1, p1 + 12, xlen, None) {
            WalkResult::Found { bsize } => {
                assert(bsize == b);
                assert(b >= xlen + 20);
                assert(d2.subrange(p2 + 12, p2 + 12 + xlen) =~= d1.subrange(
                    p1 + 12,
                    p1 + 12 + xlen,
                )) by {
                    assert forall|j: int| 0 <= j < xlen implies #[trigger] d2.subrange(
                        p2 + 12,
                        p2 + 12 + xlen,
                    )[j] == d1.subrange(p1 + 12, p1 + 12 + xlen)[j] by {
                        lemma_window_byte(d1, p1, d2, p2, b as int, 12 + j);
                        assert(d2.subrange(p2 + 12, p2 + 12 + xlen)[j] == d2[p2 + 12 + j]);
                        assert(d1.subrange(p1 + 12, p1 + 12 + xlen)[j] == d1[p1 + 12 + j]);
                    }
                }
                lemma_walk_translate(d1, p1 + 12, d2, p2 + 12, xlen, None);
                let o1 = p1 + 12 + xlen;
                let o2 = p2 + 12 + xlen;
                let plen = b - xlen - 20;
                assert(d2.subrange(o2, o2 + plen) =~= d1.subrange(o1, o1 + plen)) by {
                    assert forall|j: int| 0 <= j < plen implies #[trigger] d2.subrange(o2, o2 + plen)[j]
                        == d1.subrange(o1, o1 + plen)[j] by {
                        lemma_window_byte(d1, p1, d2, p2, b as int, 12 + xlen + j);
                        assert(d2.subrange(o2, o2 + plen)[j] == d2[o2 + j]);
                        assert(d1.subrange(o1, o1 + plen)[j] == d1[o1 + j]);
                    }
                }
                lemma_window_byte(d1, p1, d2, p2, b as int, b - 8);
                lemma_window_byte(d1, p1, d2, p2, b as int, b - 7);
                lemma_window_byte(d1, p1, d2, p2, b as int, b - 6);
                lemma_window_byte(d1, p1, d2, p2, b as int, b - 5);
                lemma_window_byte(d1, p1, d2, p2, b as int, b - 4);
                lemma_window_byte(d1, p1, d2, p2, b as int, b - 3);
                lemma_window_byte(d1, p1, d2, p2, b as int, b - 2);
                lemma_window_byte(d1, p1, d2, p2, b as int, b - 1);
                assert(crate::bytes::le32_at(d2, o2 + plen) == crate::bytes::le32_at(
                    d1,
                    o1 + plen,
                ));
                assert(crate::bytes::le32_at(d2, o2 + plen + 4) == crate::bytes::le32_at(
                    d1,
                    o1 + plen + 4,
                ));
            },
            _ => {},
        }
    }
}

/// Wherever the rescue pass's output is laid down as the tail of a
/// stream, that tail is a well-formed chain: good blocks ending with an
/// empty one at the very end.
#[verifier::rlimit(100)]
proof fn lemma_rescue_output_clean(d: Seq<u8>, pos: int, lce: bool, d2: Seq<u8>, p2: int)
    requires
        0 <= pos <= d.len(),
        0 <= p2,
        p2 + rescue_bytes(d, pos, lce).len() == d2.len(),
        d2.subrange(p2, d2.len() as int) == rescue_bytes(d, pos, lce),
    ensures
        clean_from(d2, p2, lce),
    decreases d.len() - pos,
{
    lemma_block_at_bounds(d, pos);
    let r = rescue_bytes(d, pos, lce);
    match block_at(d, pos) {
        BlockOutcome::EndOfFile | BlockOutcome::TruncatedInBlock => {
            if lce {
                assert(block_at(d2, p2) == BlockOutcome::EndOfFile);
            } else {
                assert(r == term_seq());
                assert(term_seq().len() == 28);
                assert(d2.subrange(p2, p2 + 28) == term_seq());
                assert(is_term_at(d2, p2));
                assert(block_at(d2, p2) == (BlockOutcome::Good {
                    compressed_size: 28u32,
                    decompressed_size: 0u32,
                }));
                assert(block_at(d2, p2 + 28) == BlockOutcome::EndOfFile);
                assert(clean_from(d2, p2 + 28, true));
            }
        },
        BlockOutcome::Good { compressed_size: b, decompressed_size: s } => {
            let rest = rescue_bytes(d, pos + b, s == 0);
            assert(r == d.subrange(pos, pos + b) + rest);
            assert(d2.subrange(p2, p2 + b) =~= d.subrange(pos, pos + b)) by {
                assert forall|j: int| 0 <= j < b implies #[trigger] d2.subrange(p2, p2 + b)[j] == d.subrange(
                    pos,
                    pos + b,
                )[j] by {
                    assert(d2.subrange(p2, p2 + b)[j] == d2[p2 + j]);
                    assert(d2.subrange(p2, d2.len() as int)[j] == d2[p2 + j]);
                    assert(r[j] == (d.subrange(pos, pos + b) + rest)[j]);
                }
            }
            lemma_block_translate(d, pos, d2, p2, b, s);
            assert(d2.subrange(p2 + b, d2.len() as int) =~= rest) by {
                assert forall|j: int| 0 <= j < rest.len() implies #[trigger] d2.subrange(
                    p2 + b,
                    d2.len() as int,
                )[j] == rest[j] by {
                    assert(d2.subrange(p2 + b, d2.len() as int)[j] == d2[p2 + b + j]);
                    assert(d2.subrange(p2, d2.len() as int)[b + j] == d2[p2 + b + j]);
                    assert(r[b + j] == (d.subrange(pos, pos + b) + rest)[b + j]);
                }
            }
            lemma_rescue_output_clean(d, pos + b, s == 0, d2, p2 + b);
        },
        BlockOutcome::Corrupted { compressed_size: b, .. } => {
            lemma_rescue_output_clean(d, pos + b, lce, d2, p2);
        },
    }
}

/// The rescue pass always produces a well-formed stream: every block in
/// its output is good, and the output ends with an empty block.
pub proof fn lemma_rescue_output_well_formed(d: Seq<u8>)
    ensures
        clean_from(rescue_bytes(d, 0, false), 0, true),
        rescue_bytes(d, 0, false).len() > 0,
{
    let r = rescue_bytes(d, 0, false);
    assert(r.subrange(0, r.len() as int) =~= r);
    lemma_rescue_output_clean(d, 0, false, r, 0);
    if block_at(r, 0) is EndOfFile {
        assert(!clean_from(r, 0, false));
    }
    assert(clean_from(r, 0, true) == clean_from(r, 0, false));
}

/// The scan of a rescued stream reports no bad block and no truncation.
pub proof fn lemma_check_after_rescue(d: Seq<u8>)
    ensures
        scan_from(rescue_bytes(d, 0, false), 0, true).bad_blocks_count == 0,
        scan_from(rescue_bytes(d, 0, false), 0, true).bad_blocks_size == 0,
        !scan_from(rescue_bytes(d, 0, false), 0, true).truncated_in_block,
        !scan_from(rescue_bytes(d, 0, false), 0, true).truncated_between_blocks,
{
    lemma_rescue_output_well_formed(d);
    lemma_check_well_formed(rescue_bytes(d, 0, false), 0, true);
}

/// Rescue is idempotent: rescuing an already-rescued stream returns it
/// unchanged.
pub proof fn lemma_rescue_idempotent(d: Seq<u8>)
    ensures
        rescue_bytes(rescue_bytes(d, 0, false), 0, false) == rescue_bytes(d, 0, false),
{
    lemma_rescue_output_well_formed(d);
    let r = rescue_bytes(d, 0, false);
    lemma_rescue_identity(r, 0, true, false);
    assert(r.subrange(0, r.len() as int) =~= r);
}

} // verus!
