//! End-to-end store behavior: point operations, tree rules, ranges,
//! prefixes, patterns and batches.

use waldb::errors::WalDBError;
use waldb::store::{parent_path, Store};

fn set(s: &mut Store, k: &str, v: &str) {
    s.set(k.as_bytes(), v.as_bytes(), false).unwrap();
}

fn get(s: &Store, k: &str) -> Option<Vec<u8>> {
    s.get(k.as_bytes())
}

#[test]
fn test_set_get_delete() {
    let mut s = Store::new();
    set(&mut s, "name", "Alice");
    assert_eq!(get(&s, "name"), Some(b"Alice".to_vec()));
    s.delete(b"name");
    assert_eq!(get(&s, "name"), None);
}

#[test]
fn test_update_value() {
    let mut s = Store::new();
    set(&mut s, "counter", "1");
    set(&mut s, "counter", "2");
    assert_eq!(get(&s, "counter"), Some(b"2".to_vec()));
}

#[test]
fn test_get_nonexistent() {
    let s = Store::new();
    assert_eq!(get(&s, "missing"), None);
}

#[test]
fn test_empty_value() {
    let mut s = Store::new();
    set(&mut s, "empty", "");
    assert_eq!(get(&s, "empty"), Some(Vec::new()));
}

#[test]
fn test_deep_nesting() {
    let mut s = Store::new();
    let path = "level1/level2/level3/level4/level5/level6/level7/data";
    set(&mut s, path, "deep_value");
    assert_eq!(get(&s, path), Some(b"deep_value".to_vec()));
}

#[test]
fn test_tree_violation() {
    let mut s = Store::new();
    set(&mut s, "config", "X");
    let r = s.set(b"config/child", b"Y", false);
    assert!(r.is_err());
    match r.unwrap_err() {
        WalDBError::TreeStructureViolation { path, parent, .. } => {
            assert_eq!(path, "config/child");
            assert_eq!(parent, "config");
        },
        _ => panic!("wrong error kind"),
    }
    assert_eq!(get(&s, "config"), Some(b"X".to_vec()));
    assert_eq!(get(&s, "config/child"), None);
}

#[test]
fn test_tree_violation_deep_ancestor() {
    let mut s = Store::new();
    set(&mut s, "a", "x");
    assert!(s.set(b"a/b/c", b"y", false).is_err());
    assert_eq!(get(&s, "a/b/c"), None);
}

#[test]
fn test_scalar_to_tree_conversion() {
    let mut s = Store::new();
    set(&mut s, "node", "scalar");
    assert!(s.set(b"node/child", b"value", false).is_err());
    assert!(s.set(b"node/child", b"value", true).is_err());
    s.delete(b"node");
    set(&mut s, "node/child", "value");
    assert_eq!(get(&s, "node"), None);
    assert_eq!(get(&s, "node/child"), Some(b"value".to_vec()));
}

#[test]
fn test_delete_subtree() {
    let mut s = Store::new();
    set(&mut s, "temp/a", "1");
    set(&mut s, "temp/b", "2");
    set(&mut s, "temp/c/d", "3");
    s.delete_subtree(b"temp/");
    assert_eq!(get(&s, "temp/a"), None);
    assert_eq!(get(&s, "temp/b"), None);
    assert_eq!(get(&s, "temp/c/d"), None);
}

#[test]
fn test_delete_subtree_idempotent_state() {
    let mut s = Store::new();
    set(&mut s, "u/a", "1");
    set(&mut s, "u/b", "2");
    set(&mut s, "keep", "3");
    s.delete_subtree(b"u");
    let once: Vec<(Vec<u8>, Vec<u8>)> = s.get_range(b"", b"\xff\xff\xff\xff");
    s.delete_subtree(b"u");
    let twice: Vec<(Vec<u8>, Vec<u8>)> = s.get_range(b"", b"\xff\xff\xff\xff");
    assert_eq!(once, twice);
    assert_eq!(get(&s, "keep"), Some(b"3".to_vec()));
}

#[test]
fn test_subtree_replace() {
    let mut s = Store::new();
    set(&mut s, "u/a", "1");
    set(&mut s, "u/b", "2");
    s.set(b"u", b"scalar", true).unwrap();
    assert_eq!(get(&s, "u"), Some(b"scalar".to_vec()));
    assert_eq!(get(&s, "u/a"), None);
    assert_eq!(get(&s, "u/b"), None);
}

#[test]
fn test_replace_subtree_anchor_survives() {
    let mut s = Store::new();
    set(&mut s, "config/old/a", "1");
    set(&mut s, "config/old/b", "2");
    s.set(b"config", b"new_config_value", true).unwrap();
    assert_eq!(get(&s, "config/old/a"), None);
    assert_eq!(get(&s, "config/old/b"), None);
    assert_eq!(get(&s, "config"), Some(b"new_config_value".to_vec()));
}

#[test]
fn test_tombstone_behavior() {
    let mut s = Store::new();
    set(&mut s, "tomb/key", "value");
    assert_eq!(get(&s, "tomb/key"), Some(b"value".to_vec()));
    s.delete(b"tomb/key");
    assert_eq!(get(&s, "tomb/key"), None);
    s.flush().unwrap();
    assert_eq!(get(&s, "tomb/key"), None);
    set(&mut s, "tomb/key", "new_value");
    assert_eq!(get(&s, "tomb/key"), Some(b"new_value".to_vec()));
}

#[test]
fn test_range_queries() {
    let mut s = Store::new();
    for i in 0..20 {
        set(&mut s, &format!("key{:02}", i), &format!("value{}", i));
    }
    s.flush().unwrap();

    let results = s.get_range(b"key05", b"key15");
    assert_eq!(results.len(), 10);
    assert_eq!(results[0].0, b"key05".to_vec());
    assert_eq!(results[0].1, b"value5".to_vec());
    assert_eq!(results[9].0, b"key14".to_vec());
    assert_eq!(results[9].1, b"value14".to_vec());
    for w in results.windows(2) {
        assert!(w[0].0 < w[1].0);
    }

    let limited = s.get_range_limit(b"key00", b"key20", 5);
    assert_eq!(limited.len(), 5);
    assert_eq!(limited[4].0, b"key04".to_vec());

    s.delete(b"key10");
    let with_delete = s.get_range(b"key09", b"key12");
    assert!(!with_delete.iter().any(|(k, _)| k == b"key10"));
}

#[test]
fn test_scan_prefix() {
    let mut s = Store::new();
    set(&mut s, "users/alice/age", "30");
    set(&mut s, "users/alice/email", "alice@example.com");
    set(&mut s, "users/bob/age", "25");
    let alice = s.scan_prefix(b"users/alice/", 10);
    assert_eq!(alice.len(), 2);
    assert_eq!(alice[0].0, b"users/alice/age".to_vec());
    assert_eq!(alice[1].0, b"users/alice/email".to_vec());
}

#[test]
fn test_pattern_across_separator() {
    let mut s = Store::new();
    set(&mut s, "users/alice/name", "A");
    set(&mut s, "users/bob/name", "B");
    set(&mut s, "users/charlie/other", "C");
    let r = s.get_pattern(b"users/*/name");
    assert_eq!(r.len(), 2);
    assert_eq!(r[0], (b"users/alice/name".to_vec(), b"A".to_vec()));
    assert_eq!(r[1], (b"users/bob/name".to_vec(), b"B".to_vec()));
}

#[test]
fn test_pattern_question_mark() {
    let mut s = Store::new();
    set(&mut s, "log1", "data1");
    set(&mut s, "log2", "data2");
    set(&mut s, "log3", "data3");
    set(&mut s, "logs", "data4");
    set(&mut s, "logo", "data5");
    set(&mut s, "log", "short");
    set(&mut s, "log10", "long");
    let r = s.get_pattern(b"log?");
    assert_eq!(r.len(), 5);
    let keys: Vec<Vec<u8>> = r.iter().map(|(k, _)| k.clone()).collect();
    assert!(keys.contains(&b"log1".to_vec()));
    assert!(keys.contains(&b"log2".to_vec()));
    assert!(keys.contains(&b"log3".to_vec()));
    assert!(keys.contains(&b"logo".to_vec()));
    assert!(keys.contains(&b"logs".to_vec()));
}

#[test]
fn test_pattern_delete() {
    let mut s = Store::new();
    set(&mut s, "temp/file1.txt", "data1");
    set(&mut s, "temp/file2.txt", "data2");
    set(&mut s, "temp/file3.log", "data3");
    set(&mut s, "temp/subdir/file4.txt", "data4");
    set(&mut s, "permanent/file.txt", "keep");
    let count = s.delete_pattern(b"temp/*.txt");
    assert_eq!(count, 3);
    assert_eq!(get(&s, "temp/file1.txt"), None);
    assert_eq!(get(&s, "temp/file2.txt"), None);
    assert_eq!(get(&s, "temp/file3.log"), Some(b"data3".to_vec()));
    assert_eq!(get(&s, "temp/subdir/file4.txt"), None);
    assert_eq!(get(&s, "permanent/file.txt"), Some(b"keep".to_vec()));
}

#[test]
fn test_set_many_basic() {
    let mut s = Store::new();
    let entries = vec![
        (b"users/alice/name".to_vec(), b"Alice".to_vec()),
        (b"users/alice/age".to_vec(), b"30".to_vec()),
        (b"users/bob/name".to_vec(), b"Bob".to_vec()),
        (b"users/bob/age".to_vec(), b"25".to_vec()),
    ];
    s.set_many(&entries, None).unwrap();
    assert_eq!(get(&s, "users/alice/name"), Some(b"Alice".to_vec()));
    assert_eq!(get(&s, "users/alice/age"), Some(b"30".to_vec()));
    assert_eq!(get(&s, "users/bob/name"), Some(b"Bob".to_vec()));
    assert_eq!(get(&s, "users/bob/age"), Some(b"25".to_vec()));
}

#[test]
fn test_set_many_with_subtree_replacement() {
    let mut s = Store::new();
    set(&mut s, "users/alice/name", "Alice");
    set(&mut s, "users/alice/age", "30");
    set(&mut s, "users/alice/job", "Engineer");
    let new_alice = vec![
        (b"users/alice/name".to_vec(), b"Alice Smith".to_vec()),
        (b"users/alice/email".to_vec(), b"alice@example.com".to_vec()),
    ];
    s.set_many(&new_alice, Some(b"users/alice")).unwrap();
    assert_eq!(get(&s, "users/alice/name"), Some(b"Alice Smith".to_vec()));
    assert_eq!(get(&s, "users/alice/email"), Some(b"alice@example.com".to_vec()));
    assert_eq!(get(&s, "users/alice/age"), None);
    assert_eq!(get(&s, "users/alice/job"), None);
}

#[test]
fn test_set_many_empty() {
    let mut s = Store::new();
    s.set_many(&Vec::new(), None).unwrap();
    s.set_many(&Vec::new(), Some(b"some/path")).unwrap();
}

#[test]
fn test_set_many_parent_scalar_violation() {
    let mut s = Store::new();
    set(&mut s, "config", "scalar_value");
    let entries = vec![
        (b"config/child1".to_vec(), b"value1".to_vec()),
        (b"config/child2".to_vec(), b"value2".to_vec()),
    ];
    let r = s.set_many(&entries, None);
    assert!(r.is_err());
    assert!(matches!(r.unwrap_err(), WalDBError::TreeStructureViolation { .. }));
    assert_eq!(get(&s, "config/child1"), None);
}

#[test]
fn test_set_many_rejects_nested_entries() {
    let mut s = Store::new();
    let entries = vec![
        (b"a/b".to_vec(), b"1".to_vec()),
        (b"a/b/c".to_vec(), b"2".to_vec()),
    ];
    assert!(s.set_many(&entries, None).is_err());
    assert_eq!(get(&s, "a/b"), None);
    assert_eq!(get(&s, "a/b/c"), None);
}

#[test]
fn test_unicode_keys_and_values() {
    let mut s = Store::new();
    set(&mut s, "users/李明/name", "李明");
    set(&mut s, "emoji/🎉", "party");
    assert_eq!(get(&s, "users/李明/name"), Some("李明".as_bytes().to_vec()));
    assert_eq!(get(&s, "emoji/🎉"), Some(b"party".to_vec()));
}

#[test]
fn test_flush_and_read_back() {
    let mut s = Store::new();
    for i in 0..100 {
        set(&mut s, &format!("key{:04}", i), &format!("value{}", i));
    }
    s.flush().unwrap();
    assert_eq!(s.segment_counts(), (1, 0, 0));
    assert_eq!(get(&s, "key0050"), Some(b"value50".to_vec()));
    assert_eq!(get(&s, "key0099"), Some(b"value99".to_vec()));
    assert_eq!(get(&s, "key9999"), None);
}

#[test]
fn test_compaction_preserves_final_values() {
    let mut s = Store::new();
    let rounds = ["initial", "updated", "final", "final", "final"];
    for round in rounds.iter() {
        for i in 0..100 {
            set(&mut s, &format!("ck{:03}", i), round);
        }
        s.flush().unwrap();
    }
    let (l0_before, l1_before, _) = s.segment_counts();
    assert_eq!(l0_before, 5);
    assert_eq!(l1_before, 0);
    assert!(s.compact_l0_to_l1().unwrap());
    let (l0_after, l1_after, _) = s.segment_counts();
    assert!(l0_after < l0_before);
    assert_eq!(l1_after, 1);
    for i in 0..100 {
        assert_eq!(get(&s, &format!("ck{:03}", i)), Some(b"final".to_vec()));
    }
}

#[test]
fn test_compaction_below_threshold_does_nothing() {
    let mut s = Store::new();
    set(&mut s, "a", "1");
    s.flush().unwrap();
    assert!(!s.compact_l0_to_l1().unwrap());
    assert_eq!(s.segment_counts(), (1, 0, 0));
}

#[test]
fn test_compaction_keeps_tombstones_at_l1() {
    let mut s = Store::new();
    set(&mut s, "victim", "old");
    s.flush().unwrap();
    s.delete(b"victim");
    s.flush().unwrap();
    set(&mut s, "pad1", "x");
    s.flush().unwrap();
    set(&mut s, "pad2", "y");
    s.flush().unwrap();
    assert!(s.compact_l0_to_l1().unwrap());
    assert_eq!(get(&s, "victim"), None);
    assert_eq!(get(&s, "pad1"), Some(b"x".to_vec()));
}

#[test]
fn test_seq_monotonic_across_mutations() {
    let mut s = Store::new();
    let s0 = s.seq;
    set(&mut s, "a", "1");
    let s1 = s.seq;
    s.delete(b"a");
    let s2 = s.seq;
    s.delete_subtree(b"a");
    let s3 = s.seq;
    assert!(s0 < s1 && s1 < s2 && s2 < s3);
}

#[test]
fn test_needs_flush_threshold() {
    let mut s = Store::new();
    assert!(!s.needs_flush());
    let big = vec![b'x'; 70000];
    for i in 0..4 {
        s.set(format!("big{}", i).as_bytes(), &big, false).unwrap();
    }
    assert!(s.needs_flush());
    s.flush().unwrap();
    assert!(!s.needs_flush());
}

#[test]
fn test_parent_path_helper() {
    assert_eq!(parent_path(b"a/b/c"), Some(b"a/b".to_vec()));
    assert_eq!(parent_path(b"a/b"), Some(b"a".to_vec()));
    assert_eq!(parent_path(b"a"), None);
    assert_eq!(parent_path(b"/a"), None);
    assert_eq!(parent_path(b""), None);
}
