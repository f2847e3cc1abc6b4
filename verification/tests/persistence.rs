use high_perf_trading::persistence::{
    encode_frame, read_frames, should_flush, should_rotate, snapshot_file_name, account_snapshot_file_name, snapshots_to_remove, JournalConfig, JournalError, Snapshot,
    SnapshotError,
};

fn test_payload() -> Vec<u8> {
    // A new order as the journal stores it: any opaque payload.
    vec![1, 100, 42, 1, 0, 100, 10, 0, 0]
}

#[test]
fn test_journal_roundtrip() {
    let journal = encode_frame(&test_payload());
    let cmds = read_frames(&journal).unwrap();
    assert_eq!(cmds.len(), 1);
    assert_eq!(cmds[0], test_payload());
}

#[test]
fn test_snapshot_roundtrip() {
    let snap = Snapshot { sequence: 1234, data: vec![1, 2, 3, 4, 5] };
    let bytes = snap.to_file_bytes();
    let loaded = Snapshot::from_file_bytes(&bytes).unwrap();
    assert_eq!(loaded.sequence, 1234);
    assert_eq!(loaded.data, vec![1, 2, 3, 4, 5]);
}

#[test]
fn frame_layout_is_length_payload_checksum() {
    let f = encode_frame(b"abc");
    assert_eq!(&f[0..4], &[3, 0, 0, 0]);
    assert_eq!(&f[4..7], b"abc");
    assert_eq!(&f[7..11], &crc32fast::hash(b"abc").to_le_bytes());
}

#[test]
fn reading_skips_a_frame_with_a_bad_checksum() {
    let mut j = encode_frame(b"one");
    j.extend(encode_frame(b"two"));
    let mut bad = encode_frame(b"three");
    let n = bad.len();
    bad[n - 1] ^= 0xff;
    j.extend(bad);
    j.extend(encode_frame(b"four"));
    let got = read_frames(&j).unwrap();
    assert_eq!(got, vec![b"one".to_vec(), b"two".to_vec(), b"four".to_vec()]);
}

#[test]
fn reading_stops_at_a_missing_checksum_and_a_short_header() {
    let mut j = encode_frame(b"one");
    j.extend_from_slice(&[2, 0, 0, 0, 9, 9, 1]);
    assert_eq!(read_frames(&j).unwrap(), vec![b"one".to_vec()]);
    let mut k = encode_frame(b"one");
    k.extend_from_slice(&[2, 0]);
    assert_eq!(read_frames(&k).unwrap(), vec![b"one".to_vec()]);
}

#[test]
fn oversized_and_cut_frames_are_errors() {
    let mut j = encode_frame(b"one");
    j.extend_from_slice(&(10 * 1024 * 1024 + 1u32).to_le_bytes());
    assert_eq!(read_frames(&j), Err(JournalError::FrameTooLarge { len: 10 * 1024 * 1024 + 1, offset: 15 }));
    let cut = vec![5, 0, 0, 0, 1, 2];
    assert_eq!(read_frames(&cut), Err(JournalError::Truncated { offset: 4 }));
}

#[test]
fn snapshot_file_errors() {
    let snap = Snapshot { sequence: 7, data: vec![9; 10] };
    let mut bytes = snap.to_file_bytes();
    assert_eq!(bytes.len(), 8 + 4 + 10 + 4);
    let expected = crc32fast::hash(&[9; 10]);
    let n = bytes.len();
    bytes[n - 4] ^= 1;
    let stored = u32::from_le_bytes([bytes[n - 4], bytes[n - 3], bytes[n - 2], bytes[n - 1]]);
    assert_eq!(Snapshot::from_file_bytes(&bytes).unwrap_err(), SnapshotError::ChecksumMismatch { expected: stored, actual: expected });
    let no_crc = &bytes[..n - 4];
    assert_eq!(Snapshot::from_file_bytes(no_crc).unwrap().data, vec![9; 10]);
    assert_eq!(Snapshot::from_file_bytes(&bytes[..11]).unwrap_err(), SnapshotError::Truncated);
    assert_eq!(Snapshot::from_file_bytes(&bytes[..15]).unwrap_err(), SnapshotError::Truncated);
}

#[test]
fn snapshot_names_and_journal_policy() {
    assert_eq!(snapshot_file_name(1234), "snapshot_000000001234.bin");
    assert_eq!(snapshot_file_name(1234567890123), "snapshot_1234567890123.bin");
    assert_eq!(account_snapshot_file_name(7), "account_snapshot_000000000007.bin");
    assert!(should_rotate(10, 10));
    assert!(!should_rotate(9, 10));
    assert!(!should_rotate(1_000_000, 0));
    assert!(should_flush(100, 100, false));
    assert!(should_flush(1, 100, true));
    assert!(!should_flush(1, 100, false));
    let c = JournalConfig::default();
    assert_eq!(c.batch_size, 100);
    assert_eq!(c.sync_interval, std::time::Duration::from_millis(100));
    assert_eq!(c.rotation_threshold, 1_000_000);
}

#[test]
fn cleanup_removes_only_the_oldest_beyond_the_kept() {
    assert_eq!(snapshots_to_remove(5, 3), 2);
    assert_eq!(snapshots_to_remove(3, 3), 0);
    assert_eq!(snapshots_to_remove(1, 3), 0);
}
