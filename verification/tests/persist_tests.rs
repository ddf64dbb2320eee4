//! Durability and codec behavior: restart round trips, crash-tail replay,
//! and the byte formats underneath them.

use waldb::bloom::{xxhash, BloomFilter};
use waldb::crc::crc32;
use waldb::manifest::{format_manifest_entry, parse_manifest, seg_filename, ManifestEntry};
use waldb::pattern::matches_pattern;
use waldb::order::{bytes_le, bytes_lt, bytes_starts_with};
use waldb::rec::{Rec, RT_DEL_POINT, RT_SET};
use waldb::segcodec::{build_segment, open_segment};
use waldb::store::Store;
use waldb::walcodec::wal_magic_bytes;

/// The durable image of a store's directory, as the caller would keep it
/// on disk: the manifest file, the segment files, and the log file.
struct DirImage {
    manifest: Vec<u8>,
    files: Vec<(Vec<u8>, Vec<u8>)>,
    wal: Vec<u8>,
}

impl DirImage {
    fn new() -> DirImage {
        DirImage { manifest: Vec::new(), files: Vec::new(), wal: wal_magic_bytes() }
    }

    /// What the caller's sync loop does: drain the store's queued output
    /// into the directory image.
    fn sync(&mut self, s: &mut Store) {
        self.wal.extend(s.take_wal_bytes());
        for (name, bytes) in s.take_new_files() {
            self.files.push((name, bytes));
        }
        self.manifest.extend(s.take_manifest_bytes());
        for name in s.take_dead_files() {
            self.files.retain(|(n, _)| n != &name);
        }
    }

    fn reopen(&self) -> Store {
        Store::open_image(&self.manifest, &self.files, &self.wal)
    }
}

#[test]
fn test_persistence_across_restart() {
    let mut s = Store::new();
    s.set(b"k", b"v", false).unwrap();
    s.flush().unwrap();
    let mut dir = DirImage::new();
    dir.sync(&mut s);
    let s2 = dir.reopen();
    assert_eq!(s2.get(b"k"), Some(b"v".to_vec()));
}

#[test]
fn test_wal_replay_without_flush() {
    let mut s = Store::new();
    s.set(b"x", b"1", false).unwrap();
    s.set(b"y", b"2", false).unwrap();
    let mut dir = DirImage::new();
    dir.sync(&mut s);
    // No flush: everything lives in the log alone.
    assert!(dir.files.is_empty());
    let s2 = dir.reopen();
    assert_eq!(s2.get(b"x"), Some(b"1".to_vec()));
    assert_eq!(s2.get(b"y"), Some(b"2".to_vec()));
}

#[test]
fn test_wal_torn_tail_is_dropped() {
    let mut s = Store::new();
    s.set(b"x", b"1", false).unwrap();
    s.set(b"y", b"2", false).unwrap();
    let mut dir = DirImage::new();
    dir.sync(&mut s);
    // A torn frame at the tail: a length field promising more than is there.
    dir.wal.extend([200u8, 0, 0, 0, 1, 2, 3]);
    let s2 = dir.reopen();
    assert_eq!(s2.get(b"x"), Some(b"1".to_vec()));
    assert_eq!(s2.get(b"y"), Some(b"2".to_vec()));
}

#[test]
fn test_wal_bad_checksum_truncates_replay() {
    let mut s = Store::new();
    s.set(b"x", b"1", false).unwrap();
    let mut dir = DirImage::new();
    dir.sync(&mut s);
    let good_len = dir.wal.len();
    s.set(b"z", b"3", false).unwrap();
    dir.sync(&mut s);
    // Corrupt the second record's checksum.
    let last = dir.wal.len() - 1;
    dir.wal[last] ^= 0xFF;
    let s2 = dir.reopen();
    assert_eq!(s2.get(b"x"), Some(b"1".to_vec()));
    assert_eq!(s2.get(b"z"), None);
    assert!(dir.wal.len() > good_len);
}

#[test]
fn test_restart_replays_deletions_and_subtrees() {
    let mut s = Store::new();
    s.set(b"a/b", b"1", false).unwrap();
    s.set(b"a/c", b"2", false).unwrap();
    s.set(b"top", b"3", false).unwrap();
    s.delete(b"top");
    s.delete_subtree(b"a");
    let mut dir = DirImage::new();
    dir.sync(&mut s);
    let s2 = dir.reopen();
    assert_eq!(s2.get(b"a/b"), None);
    assert_eq!(s2.get(b"a/c"), None);
    assert_eq!(s2.get(b"top"), None);
}

#[test]
fn test_restart_after_compaction() {
    let mut s = Store::new();
    let mut dir = DirImage::new();
    for round in 0..5 {
        for i in 0..50 {
            s.set(
                format!("k{:03}", i).as_bytes(),
                format!("r{}", round).as_bytes(),
                false,
            )
            .unwrap();
        }
        s.flush().unwrap();
        dir.sync(&mut s);
    }
    assert!(s.compact_l0_to_l1().unwrap());
    dir.sync(&mut s);
    let s2 = dir.reopen();
    for i in 0..50 {
        assert_eq!(s2.get(format!("k{:03}", i).as_bytes()), Some(b"r4".to_vec()));
    }
    let (l0, l1, _) = s2.segment_counts();
    assert_eq!((l0, l1), (1, 1));
}

#[test]
fn test_segment_image_round_trip() {
    let records = vec![
        Rec { kind: RT_SET, key: b"alpha".to_vec(), value: b"1".to_vec(), seq: 3 },
        Rec { kind: RT_DEL_POINT, key: b"beta".to_vec(), value: Vec::new(), seq: 5 },
        Rec { kind: RT_SET, key: b"gamma".to_vec(), value: b"22".to_vec(), seq: 4 },
    ];
    let (seg, bytes) = build_segment(b"s.seg".to_vec(), records).unwrap();
    assert_eq!(seg.seq_high, 5);
    assert_eq!(seg.seq_low, 3);
    let reopened = open_segment(b"s.seg".to_vec(), &bytes).unwrap();
    assert_eq!(reopened.records.len(), 3);
    assert_eq!(reopened.records[0].key, b"alpha".to_vec());
    assert_eq!(reopened.records[0].value, b"1".to_vec());
    assert_eq!(reopened.records[0].seq, 3);
    assert_eq!(reopened.records[1].kind, RT_DEL_POINT);
    assert_eq!(reopened.records[2].value, b"22".to_vec());
    assert_eq!(reopened.seq_high, 5);
}

#[test]
fn test_segment_image_rejects_corruption() {
    let records = vec![Rec { kind: RT_SET, key: b"k".to_vec(), value: b"v".to_vec(), seq: 1 }];
    let (_, mut bytes) = build_segment(b"s.seg".to_vec(), records).unwrap();
    assert!(open_segment(b"s.seg".to_vec(), &bytes).is_ok());
    bytes[0] = b'X';
    assert!(open_segment(b"s.seg".to_vec(), &bytes).is_err());
    assert!(open_segment(b"s.seg".to_vec(), &[1, 2, 3]).is_err());
}

#[test]
fn test_segment_image_rejects_unordered_keys() {
    let records = vec![
        Rec { kind: RT_SET, key: b"a".to_vec(), value: b"1".to_vec(), seq: 1 },
        Rec { kind: RT_SET, key: b"b".to_vec(), value: b"2".to_vec(), seq: 2 },
    ];
    let (_, mut bytes) = build_segment(b"s.seg".to_vec(), records).unwrap();
    assert!(open_segment(b"s.seg".to_vec(), &bytes).is_ok());
    // Swap the two one-byte keys inside the block region: the records now
    // read "b" before "a", violating the format's ascending order, while
    // the bloom filter still covers both keys.
    let first_key = 7 + 17;
    let second_key = 7 + 19 + 17;
    bytes.swap(first_key, second_key);
    assert!(open_segment(b"s.seg".to_vec(), &bytes).is_err());
}

#[test]
fn test_manifest_round_trip() {
    let e1 = ManifestEntry { seq_high: 5, level: 0, filename: b"l0_0000000005.seg".to_vec() };
    let e2 = ManifestEntry { seq_high: 12, level: 1, filename: b"l1_0000000012.seg".to_vec() };
    let mut text = format_manifest_entry(&e1);
    text.extend(format_manifest_entry(&e2));
    assert_eq!(
        String::from_utf8(text.clone()).unwrap(),
        "5|0|l0_0000000005.seg\n12|1|l1_0000000012.seg\n"
    );
    let parsed = parse_manifest(&text);
    assert_eq!(parsed.len(), 2);
    assert_eq!(parsed[0].seq_high, 5);
    assert_eq!(parsed[0].level, 0);
    assert_eq!(parsed[0].filename, b"l0_0000000005.seg".to_vec());
    assert_eq!(parsed[1].seq_high, 12);
    assert_eq!(parsed[1].level, 1);
}

#[test]
fn test_manifest_skips_malformed_lines() {
    let text = b"not a line\n7|2|l2_0000000007.seg\nbad|fields\n9|x|oops.seg\n";
    let parsed = parse_manifest(text);
    assert_eq!(parsed.len(), 1);
    assert_eq!(parsed[0].seq_high, 7);
    assert_eq!(parsed[0].level, 2);
}

#[test]
fn test_segment_filename_format() {
    assert_eq!(seg_filename(0, 5), b"l0_0000000005.seg".to_vec());
    assert_eq!(seg_filename(1, 1234567890), b"l1_1234567890.seg".to_vec());
    assert_eq!(seg_filename(2, 12345678901), b"l2_12345678901.seg".to_vec());
}

#[test]
fn test_crc32_known_value() {
    assert_eq!(crc32(b"123456789"), 0xCBF43926);
    assert_eq!(crc32(b""), 0);
}

#[test]
fn test_bloom_no_false_negatives() {
    let mut b = BloomFilter::new(10000, 7);
    let keys: Vec<Vec<u8>> = (0..200).map(|i| format!("key-{}", i).into_bytes()).collect();
    for k in &keys {
        b.add(k);
    }
    for k in &keys {
        assert!(b.might_contain(k));
    }
    let mut hits = 0;
    for i in 0..200 {
        if b.might_contain(format!("absent-{}", i).as_bytes()) {
            hits += 1;
        }
    }
    // A fresh filter of this size stays far from saturated.
    assert!(hits < 100);
}

#[test]
fn test_xxhash_deterministic_and_seeded() {
    assert_eq!(xxhash(b"abcdefgh", 1), xxhash(b"abcdefgh", 1));
    assert_ne!(xxhash(b"abcdefgh", 1), xxhash(b"abcdefgh", 2));
    assert_ne!(xxhash(b"abcdefgh", 1), xxhash(b"abcdefgi", 1));
}

#[test]
fn test_pattern_matcher_cases() {
    assert!(matches_pattern(b"users/alice/name", b"users/*/name"));
    assert!(matches_pattern(b"users/a/b/name", b"users/*/name"));
    assert!(matches_pattern(b"log1", b"log?"));
    assert!(!matches_pattern(b"log10", b"log?"));
    assert!(!matches_pattern(b"log", b"log?"));
    assert!(matches_pattern(b"anything", b"*"));
    assert!(matches_pattern(b"", b"*"));
    assert!(!matches_pattern(b"abc", b"abd"));
    assert!(matches_pattern(b"abc", b"abc"));
    assert!(matches_pattern(b"temp/subdir/file4.txt", b"temp/*.txt"));
}

#[test]
fn test_byte_order_helpers() {
    assert!(bytes_lt(b"a", b"b"));
    assert!(bytes_lt(b"a", b"a/"));
    assert!(bytes_lt(b"", b"a"));
    assert!(!bytes_lt(b"b", b"a"));
    assert!(!bytes_lt(b"a", b"a"));
    assert!(bytes_le(b"a", b"a"));
    assert!(bytes_starts_with(b"users/alice", b"users/"));
    assert!(!bytes_starts_with(b"users", b"users/"));
}

#[test]
fn test_open_image_ignores_unknown_files() {
    let mut s = Store::new();
    s.set(b"k", b"v", false).unwrap();
    s.flush().unwrap();
    let mut dir = DirImage::new();
    dir.sync(&mut s);
    // An orphan file not named by the manifest is ignored.
    dir.files.push((b"stray.seg".to_vec(), vec![1, 2, 3]));
    // A manifest entry whose file is gone is skipped.
    dir.manifest.extend(b"99|0|missing.seg\n");
    let s2 = dir.reopen();
    assert_eq!(s2.get(b"k"), Some(b"v".to_vec()));
    assert_eq!(s2.segment_counts(), (1, 0, 0));
}
