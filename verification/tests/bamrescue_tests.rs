//! End-to-end tests over hand-built BGZF streams: well-formed files,
//! corrupted payloads, truncations, and the rescue pass.

use bamrescue::block::{check_block, terminator_block};
use bamrescue::model::{BlockOutcome, CorruptionKind};
use bamrescue::{check, repair, version};

/// Builds one valid BGZF block around `payload`, compressing it as a
/// single stored (uncompressed) DEFLATE block.
fn make_block(payload: &[u8]) -> Vec<u8> {
    assert!(payload.len() < 0x8000);
    let mut deflated: Vec<u8> = Vec::new();
    deflated.push(0x01); // final block, stored
    let n = payload.len() as u16;
    deflated.push((n & 0xff) as u8);
    deflated.push((n >> 8) as u8);
    deflated.push(!((n & 0xff) as u8));
    deflated.push(!((n >> 8) as u8));
    deflated.extend_from_slice(payload);

    let bsize = 12 + 6 + deflated.len() + 8;
    let declared = (bsize - 1) as u16;
    let mut block: Vec<u8> = Vec::new();
    block.extend_from_slice(&[0x1f, 0x8b, 0x08, 0x04, 0x00, 0x00, 0x00, 0x00, 0x00, 0xff]);
    block.push(0x06);
    block.push(0x00);
    block.extend_from_slice(&[0x42, 0x43, 0x02, 0x00]);
    block.push((declared & 0xff) as u8);
    block.push((declared >> 8) as u8);
    block.extend_from_slice(&deflated);
    let crc = crc::crc32::checksum_ieee(payload);
    block.extend_from_slice(&crc.to_le_bytes());
    block.extend_from_slice(&(payload.len() as u32).to_le_bytes());
    assert_eq!(block.len(), bsize);
    block
}

/// Builds a valid block whose extra field holds a foreign subfield
/// besides the BGZF one; `bgzf_first` picks their order.
fn make_block_two_subfields(payload: &[u8], bgzf_first: bool) -> Vec<u8> {
    assert!(payload.len() < 0x8000);
    let mut deflated: Vec<u8> = Vec::new();
    deflated.push(0x01);
    let n = payload.len() as u16;
    deflated.push((n & 0xff) as u8);
    deflated.push((n >> 8) as u8);
    deflated.push(!((n & 0xff) as u8));
    deflated.push(!((n >> 8) as u8));
    deflated.extend_from_slice(payload);

    let xlen = 6 + 8; // BGZF subfield plus a 4-byte foreign subfield
    let bsize = 12 + xlen + deflated.len() + 8;
    let declared = (bsize - 1) as u16;
    let bgzf = [0x42, 0x43, 0x02, 0x00, (declared & 0xff) as u8, (declared >> 8) as u8];
    let foreign = [0x58, 0x59, 0x04, 0x00, 0xde, 0xad, 0xbe, 0xef];
    let mut block: Vec<u8> = Vec::new();
    block.extend_from_slice(&[0x1f, 0x8b, 0x08, 0x04, 0x00, 0x00, 0x00, 0x00, 0x00, 0xff]);
    block.push(xlen as u8);
    block.push(0x00);
    if bgzf_first {
        block.extend_from_slice(&bgzf);
        block.extend_from_slice(&foreign);
    } else {
        block.extend_from_slice(&foreign);
        block.extend_from_slice(&bgzf);
    }
    block.extend_from_slice(&deflated);
    let crc = crc::crc32::checksum_ieee(payload);
    block.extend_from_slice(&crc.to_le_bytes());
    block.extend_from_slice(&(payload.len() as u32).to_le_bytes());
    assert_eq!(block.len(), bsize);
    block
}

#[test]
fn foreign_subfield_before_bgzf_is_skipped() {
    let payload = b"block with two subfields";
    let mut data = make_block_two_subfields(payload, false);
    let b = data.len() as u32;
    assert_eq!(
        check_block(&data, 0),
        BlockOutcome::Good { compressed_size: b, decompressed_size: payload.len() as u32 }
    );
    data.extend_from_slice(&terminator_block());
    let stats = check(&data);
    assert_eq!(stats.blocks_count, 2);
    assert_eq!(stats.blocks_size, payload.len() as u64);
    assert_eq!(stats.bad_blocks_count, 0);
}

#[test]
fn foreign_subfield_after_bgzf_is_skipped() {
    let payload = b"bgzf subfield first";
    let data = make_block_two_subfields(payload, true);
    let b = data.len() as u32;
    assert_eq!(
        check_block(&data, 0),
        BlockOutcome::Good { compressed_size: b, decompressed_size: payload.len() as u32 }
    );
}

#[test]
fn version_string() {
    assert_eq!(version(), "0.1.0");
}

#[test]
fn stored_deflate_round_trips() {
    let payload = b"BAM\x01some alignment records";
    let block = make_block(payload);
    // the compressed payload sits between the 18-byte header and the
    // 8-byte trailer
    let deflated = &block[18..block.len() - 8];
    let inflated = inflate::inflate_bytes(deflated).expect("stored block inflates");
    assert_eq!(inflated.as_slice(), payload.as_slice());
}

#[test]
fn empty_input_is_clean() {
    let data: Vec<u8> = Vec::new();
    let stats = check(&data);
    assert_eq!(stats.blocks_count, 0);
    assert_eq!(stats.blocks_size, 0);
    assert_eq!(stats.bad_blocks_count, 0);
    assert_eq!(stats.bad_blocks_size, 0);
    assert!(!stats.truncated_in_block);
    assert!(!stats.truncated_between_blocks);
}

#[test]
fn terminator_alone_is_clean() {
    let data = terminator_block();
    let stats = check(&data);
    assert_eq!(stats.blocks_count, 1);
    assert_eq!(stats.blocks_size, 0);
    assert_eq!(stats.bad_blocks_count, 0);
    assert!(!stats.truncated_in_block);
    assert!(!stats.truncated_between_blocks);
}

#[test]
fn well_formed_file_is_clean() {
    let mut data = make_block(b"first block payload");
    data.extend_from_slice(&make_block(b"second, longer block payload"));
    data.extend_from_slice(&terminator_block());
    let stats = check(&data);
    assert_eq!(stats.blocks_count, 3);
    assert_eq!(stats.blocks_size, (19 + 28) as u64);
    assert_eq!(stats.bad_blocks_count, 0);
    assert_eq!(stats.bad_blocks_size, 0);
    assert!(!stats.truncated_in_block);
    assert!(!stats.truncated_between_blocks);
}

#[test]
fn data_block_then_terminator_counts() {
    let payload = b"BAM\x01record data";
    let mut data = make_block(payload);
    data.extend_from_slice(&terminator_block());
    let stats = check(&data);
    assert_eq!(stats.blocks_count, 2);
    assert_eq!(stats.blocks_size, payload.len() as u64);
    assert_eq!(stats.bad_blocks_count, 0);
}

#[test]
fn flipped_payload_byte_is_corrupted() {
    let mut first = make_block(b"first block payload");
    let second = make_block(b"second block payload");
    let first_len = first.len();
    // flip a byte of the stored payload data inside the first block
    first[18 + 5] ^= 0xff;
    let mut data = first;
    data.extend_from_slice(&second);
    data.extend_from_slice(&terminator_block());
    let stats = check(&data);
    // scanning continued past the corrupted block
    assert_eq!(stats.blocks_count, 3);
    assert_eq!(stats.bad_blocks_count, 1);
    assert_eq!(stats.bad_blocks_size, first_len as u64);
    assert_eq!(stats.blocks_size, 20);
    assert!(!stats.truncated_in_block);
    assert!(!stats.truncated_between_blocks);
}

#[test]
fn truncated_mid_block_sets_flag() {
    let mut data = make_block(b"first block payload");
    data.extend_from_slice(&make_block(b"last block payload"));
    // cut bytes out of the last block's payload
    data.truncate(data.len() - 7);
    let stats = check(&data);
    assert!(stats.truncated_in_block);
    assert!(!stats.truncated_between_blocks);
    assert_eq!(stats.blocks_count, 1);
    assert_eq!(stats.bad_blocks_count, 0);
}

#[test]
fn missing_terminator_sets_flag() {
    let data = make_block(b"a data block without terminator");
    let stats = check(&data);
    assert!(stats.truncated_between_blocks);
    assert!(!stats.truncated_in_block);
    assert_eq!(stats.blocks_count, 1);
    assert_eq!(stats.bad_blocks_count, 0);
}

#[test]
fn gzip_identifier_missing_stops_scan() {
    let data = vec![0x00u8, 0x11, 0x22, 0x33];
    let stats = check(&data);
    assert!(stats.truncated_in_block);
    assert_eq!(stats.blocks_count, 0);
}

#[test]
fn check_block_classifies_terminator() {
    let data = terminator_block();
    assert_eq!(
        check_block(&data, 0),
        BlockOutcome::Good { compressed_size: 28, decompressed_size: 0 }
    );
    assert_eq!(check_block(&data, 28), BlockOutcome::EndOfFile);
}

#[test]
fn check_block_reports_checksum_mismatch() {
    let mut data = make_block(b"payload under test");
    let n = data.len();
    data[n - 8] ^= 0x01; // corrupt the stored CRC-32
    let b = data.len() as u32;
    assert_eq!(
        check_block(&data, 0),
        BlockOutcome::Corrupted {
            reason: CorruptionKind::ChecksumMismatch,
            compressed_size: b
        }
    );
}

#[test]
fn check_block_reports_length_mismatch() {
    let mut data = make_block(b"payload under test");
    let n = data.len();
    data[n - 4] ^= 0x01; // corrupt the stored decompressed length
    let b = data.len() as u32;
    assert_eq!(
        check_block(&data, 0),
        BlockOutcome::Corrupted {
            reason: CorruptionKind::LengthMismatch,
            compressed_size: b
        }
    );
}

#[test]
fn check_block_reports_inflate_failure() {
    let mut data = make_block(b"payload under test");
    data[18] = 0x07; // invalid DEFLATE block type bits
    let b = data.len() as u32;
    assert_eq!(
        check_block(&data, 0),
        BlockOutcome::Corrupted {
            reason: CorruptionKind::InflateFailure,
            compressed_size: b
        }
    );
}

#[test]
fn check_block_reports_declared_size_too_small() {
    let mut data = make_block(b"payload under test");
    // declare a block size too small to hold header and trailer
    data[16] = 9; // declared size becomes 10
    data[17] = 0;
    assert_eq!(
        check_block(&data, 0),
        BlockOutcome::Corrupted {
            reason: CorruptionKind::DeclaredSizeTooSmall,
            compressed_size: 10
        }
    );
}

#[test]
fn check_block_reports_malformed_extra_field() {
    // extra field of 12 bytes: a BGZF subfield declaring size 28, then a
    // subfield whose declared length overruns the extra field
    let mut data: Vec<u8> = Vec::new();
    data.extend_from_slice(&[0x1f, 0x8b, 0x08, 0x04, 0x00, 0x00, 0x00, 0x00, 0x00, 0xff]);
    data.push(0x0c);
    data.push(0x00);
    data.extend_from_slice(&[0x42, 0x43, 0x02, 0x00, 0x1b, 0x00]);
    data.extend_from_slice(&[0x41, 0x41, 0x10, 0x00]);
    while data.len() < 28 {
        data.push(0);
    }
    assert_eq!(
        check_block(&data, 0),
        BlockOutcome::Corrupted {
            reason: CorruptionKind::MalformedExtraField,
            compressed_size: 28
        }
    );
}

#[test]
fn rescue_clean_file_is_identity() {
    let mut data = make_block(b"first block payload");
    data.extend_from_slice(&make_block(b"second block payload"));
    data.extend_from_slice(&terminator_block());
    let (out, stats) = repair(&data);
    assert_eq!(out, data);
    assert_eq!(stats.bad_blocks_count, 0);
    let rescued_stats = check(&out);
    assert_eq!(rescued_stats.bad_blocks_count, 0);
    assert!(!rescued_stats.truncated_in_block);
    assert!(!rescued_stats.truncated_between_blocks);
}

#[test]
fn rescue_appends_missing_terminator() {
    let data = make_block(b"a data block without terminator");
    let (out, stats) = repair(&data);
    let mut expected = data.clone();
    expected.extend_from_slice(&terminator_block());
    assert_eq!(out, expected);
    assert!(stats.truncated_between_blocks);
    let rescued_stats = check(&out);
    assert_eq!(rescued_stats.bad_blocks_count, 0);
    assert!(!rescued_stats.truncated_between_blocks);
}

#[test]
fn rescue_drops_corrupted_block() {
    let good = make_block(b"the good block");
    let mut bad = make_block(b"the bad block");
    bad[20] ^= 0xff;
    let mut data = good.clone();
    data.extend_from_slice(&bad);
    data.extend_from_slice(&terminator_block());
    let (out, stats) = repair(&data);
    let mut expected = good;
    expected.extend_from_slice(&terminator_block());
    assert_eq!(out, expected);
    assert_eq!(stats.bad_blocks_count, 1);
    assert_eq!(stats.blocks_count, 3);
}

#[test]
fn rescue_of_empty_input_is_terminator() {
    let data: Vec<u8> = Vec::new();
    let (out, _stats) = repair(&data);
    assert_eq!(out, terminator_block());
}

#[test]
fn rescue_is_idempotent() {
    let mut bad = make_block(b"soon to be corrupted");
    bad[19] ^= 0x55;
    let mut data = make_block(b"kept block");
    data.extend_from_slice(&bad);
    let (once, _) = repair(&data);
    let (twice, stats) = repair(&once);
    assert_eq!(twice, once);
    assert_eq!(stats.bad_blocks_count, 0);
}

#[test]
fn rescue_of_truncated_file_keeps_whole_blocks() {
    let good = make_block(b"whole block");
    let mut data = good.clone();
    data.extend_from_slice(&make_block(b"cut block"));
    data.truncate(data.len() - 3);
    let (out, stats) = repair(&data);
    let mut expected = good;
    expected.extend_from_slice(&terminator_block());
    assert_eq!(out, expected);
    assert!(stats.truncated_in_block);
}
