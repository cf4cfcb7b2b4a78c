use pack_index::index::{
    check_header, decode, read_fanout, sha1_to_hex, Entry, FormatError, Stage, ENTRY_START,
};

fn push_be32(out: &mut Vec<u8>, v: u32) {
    out.extend_from_slice(&v.to_be_bytes());
}

fn push_be64(out: &mut Vec<u8>, v: u64) {
    out.extend_from_slice(&v.to_be_bytes());
}

fn header(magic: u32, version: u32) -> Vec<u8> {
    let mut out = Vec::new();
    push_be32(&mut out, magic);
    push_be32(&mut out, version);
    out
}

const MAGIC: u32 = 0xFF74_4F63;

/// A flat fanout table: all 256 counters equal `n`, so the entry count is `n`.
fn flat_fanout(out: &mut Vec<u8>, n: u32) {
    for _ in 0..256 {
        push_be32(out, n);
    }
}

/// A whole stream: header, flat fanout, the three entry tables, then the
/// extended offsets.
fn stream(entries: &[([u8; 20], u32, u32)], exts: &[u64]) -> Vec<u8> {
    let mut out = header(MAGIC, 2);
    flat_fanout(&mut out, entries.len() as u32);
    for (sha1, _, _) in entries {
        out.extend_from_slice(sha1);
    }
    for (_, crc, _) in entries {
        push_be32(&mut out, *crc);
    }
    for (_, _, off) in entries {
        push_be32(&mut out, *off);
    }
    for e in exts {
        push_be64(&mut out, *e);
    }
    out
}

fn digest(seed: u8) -> [u8; 20] {
    let mut d = [0u8; 20];
    for (i, b) in d.iter_mut().enumerate() {
        *b = seed.wrapping_add(i as u8);
    }
    d
}

#[test]
fn empty_index_accepted() {
    // N = 0: header and fanout validate, zero entries, zero output records.
    let bytes = stream(&[], &[]);
    assert_eq!(bytes.len(), ENTRY_START);
    let recs = decode(&bytes).unwrap();
    assert_eq!(recs.len(), 0);
}

#[test]
fn version_three_rejected() {
    let mut bytes = header(MAGIC, 3);
    flat_fanout(&mut bytes, 0);
    assert_eq!(decode(&bytes).unwrap_err(), FormatError::UnsupportedVersion);
}

#[test]
fn magic_bit_flip_rejected() {
    let mut bytes = stream(&[], &[]);
    bytes[0] ^= 0x01;
    assert_eq!(decode(&bytes).unwrap_err(), FormatError::BadHeader);
}

#[test]
fn short_header_rejected() {
    let bytes = vec![0xFFu8, 0x74, 0x4F];
    assert_eq!(check_header(&bytes).unwrap_err(), FormatError::BadHeader);
    assert_eq!(decode(&bytes).unwrap_err(), FormatError::BadHeader);
}

#[test]
fn fanout_decrease_rejected() {
    let mut bytes = header(MAGIC, 2);
    for j in 0..256u32 {
        // One dip at counter 100.
        push_be32(&mut bytes, if j == 100 { 49 } else { 50 });
    }
    assert_eq!(decode(&bytes).unwrap_err(), FormatError::CorruptFanout);
}

#[test]
fn fanout_ramp_accepted() {
    let mut bytes = header(MAGIC, 2);
    for j in 0..256u32 {
        push_be32(&mut bytes, if j < 128 { 0 } else { 3 });
    }
    // Entry count is the last counter: 3 entries, all direct offsets.
    let e = (digest(1), 7u32, 5u32);
    for (sha1, _, _) in [e, e, e] {
        bytes.extend_from_slice(&sha1);
    }
    for _ in 0..3 {
        push_be32(&mut bytes, 7);
    }
    for _ in 0..3 {
        push_be32(&mut bytes, 5);
    }
    let recs = decode(&bytes).unwrap();
    assert_eq!(recs.len(), 3);
    assert_eq!(read_fanout(&bytes).unwrap(), 3);
}

#[test]
fn fanout_truncated_at_position() {
    let mut bytes = header(MAGIC, 2);
    for _ in 0..10 {
        push_be32(&mut bytes, 0);
    }
    bytes.push(0); // one stray byte of counter 10
    assert_eq!(
        decode(&bytes).unwrap_err(),
        FormatError::Truncated(Stage::Fanout, 10)
    );
}

#[test]
fn direct_offset_zero_unchanged() {
    let bytes = stream(&[(digest(3), 0xAABBCCDD, 0)], &[]);
    let recs = decode(&bytes).unwrap();
    assert_eq!(recs.len(), 1);
    assert_eq!(recs[0].offset, 0);
    assert_eq!(recs[0].crc, 0xAABBCCDD);
    assert_eq!(recs[0].sha1, digest(3));
}

#[test]
fn direct_offset_max_unchanged() {
    // 0x7FFF_FFFF: the largest direct offset; high bit clear, no
    // extension read happens (the stream holds no extension bytes).
    let bytes = stream(&[(digest(9), 1, 0x7FFF_FFFF)], &[]);
    let recs = decode(&bytes).unwrap();
    assert_eq!(recs[0].offset, 0x7FFF_FFFF);
}

#[test]
fn extension_offsets_in_order() {
    let entries = [
        (digest(1), 10, 0x8000_0000), // extension index 0
        (digest(2), 20, 123),         // direct
        (digest(3), 30, 0x8000_0001), // extension index 1
    ];
    let exts = [0x1_0000_0000u64, 0xFFFF_FFFF_FFFF_FFFFu64];
    let bytes = stream(&entries, &exts);
    let recs = decode(&bytes).unwrap();
    assert_eq!(recs[0].offset, 0x1_0000_0000);
    assert_eq!(recs[1].offset, 123);
    assert_eq!(recs[2].offset, 0xFFFF_FFFF_FFFF_FFFF);
}

#[test]
fn extension_permutation_rejected() {
    let entries = [
        (digest(1), 0, 0x8000_0001), // names index 1, but 0 is expected
        (digest(2), 0, 0x8000_0000),
    ];
    let bytes = stream(&entries, &[11, 22]);
    assert_eq!(
        decode(&bytes).unwrap_err(),
        FormatError::InconsistentExtensionIndex(0, 0x8000_0001)
    );
}

#[test]
fn extension_gap_rejected() {
    // The second extension entry skips index 1 and names 2.
    let entries = [
        (digest(1), 0, 0x8000_0000),
        (digest(2), 0, 0x8000_0002),
    ];
    let bytes = stream(&entries, &[11, 22, 33]);
    assert_eq!(
        decode(&bytes).unwrap_err(),
        FormatError::InconsistentExtensionIndex(1, 0x8000_0002)
    );
}

#[test]
fn extension_reuse_rejected() {
    let entries = [
        (digest(1), 0, 0x8000_0000),
        (digest(2), 0, 0x8000_0000), // reuses index 0
    ];
    let bytes = stream(&entries, &[11, 22]);
    assert_eq!(
        decode(&bytes).unwrap_err(),
        FormatError::InconsistentExtensionIndex(1, 0x8000_0000)
    );
}

#[test]
fn truncation_inside_digests() {
    let entries = [(digest(1), 1, 0), (digest(2), 2, 1)];
    let bytes = stream(&entries, &[]);
    // Cut in the middle of the second digest.
    let cut = &bytes[..ENTRY_START + 20 + 5].to_vec();
    assert_eq!(
        decode(cut).unwrap_err(),
        FormatError::Truncated(Stage::Digest, 1)
    );
    // Cut exactly at the start of the first digest.
    let cut = &bytes[..ENTRY_START].to_vec();
    assert_eq!(
        decode(cut).unwrap_err(),
        FormatError::Truncated(Stage::Digest, 0)
    );
}

#[test]
fn truncation_inside_checksums() {
    let entries = [(digest(1), 1, 0), (digest(2), 2, 1)];
    let bytes = stream(&entries, &[]);
    // All digests present, first checksum cut short.
    let cut = &bytes[..ENTRY_START + 40 + 2].to_vec();
    assert_eq!(
        decode(cut).unwrap_err(),
        FormatError::Truncated(Stage::Checksum, 0)
    );
}

#[test]
fn truncation_inside_raw_offsets() {
    let entries = [(digest(1), 1, 0), (digest(2), 2, 1)];
    let bytes = stream(&entries, &[]);
    // Digests and checksums present, second packed offset cut short.
    let cut = &bytes[..ENTRY_START + 40 + 8 + 5].to_vec();
    assert_eq!(
        decode(cut).unwrap_err(),
        FormatError::Truncated(Stage::RawOffset, 1)
    );
}

#[test]
fn truncation_inside_extensions() {
    let entries = [(digest(1), 1, 0x8000_0000), (digest(2), 2, 0x8000_0001)];
    let bytes = stream(&entries, &[7, 8]);
    // First extended offset whole, second cut short.
    let cut = &bytes[..bytes.len() - 3].to_vec();
    assert_eq!(
        decode(cut).unwrap_err(),
        FormatError::Truncated(Stage::Extension, 1)
    );
    // Entry tables whole but no extension byte at all.
    let cut = &bytes[..bytes.len() - 16].to_vec();
    assert_eq!(
        decode(cut).unwrap_err(),
        FormatError::Truncated(Stage::Extension, 0)
    );
}

#[test]
fn sha1_to_hex_counts_up() {
    let d = digest(0);
    assert_eq!(
        sha1_to_hex(d),
        "000102030405060708090a0b0c0d0e0f10111213"
    );
}

#[test]
fn sha1_to_hex_all_high() {
    let d = [0xFFu8; 20];
    assert_eq!(sha1_to_hex(d), "ff".repeat(20));
    let d = [0xA5u8; 20];
    assert_eq!(sha1_to_hex(d), "a5".repeat(20));
}

#[test]
fn entry_default_is_zero() {
    let e = Entry::default();
    assert_eq!(e.sha1, [0u8; 20]);
    assert_eq!(e.crc, 0);
    assert_eq!(e.off, 0);
}

#[test]
fn digests_and_checksums_kept_in_file_order() {
    let entries = [
        (digest(10), 0x1111_1111, 4),
        (digest(20), 0x2222_2222, 3),
        (digest(30), 0x3333_3333, 2),
    ];
    let bytes = stream(&entries, &[]);
    let recs = decode(&bytes).unwrap();
    assert_eq!(recs.len(), 3);
    for (i, (sha1, crc, off)) in entries.iter().enumerate() {
        assert_eq!(recs[i].sha1, *sha1);
        assert_eq!(recs[i].crc, *crc);
        assert_eq!(recs[i].offset, *off as u64);
    }
}
