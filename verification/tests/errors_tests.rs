//! Error type behavior: message rendering, the builder, and wrapping of
//! I/O failures.

use waldb::errors::{ErrorBuilder, IoContext, WalDBError};

#[test]
fn test_error_display() {
    let err = WalDBError::TreeStructureViolation {
        path: "users/alice/profile".to_string(),
        parent: "users/alice".to_string(),
        reason: "Parent is a scalar value, not a tree node".to_string(),
    };

    let msg = err.message();
    assert!(msg.contains("users/alice/profile"));
    assert!(msg.contains("users/alice"));
    assert!(msg.contains("scalar value"));
}

#[test]
fn test_io_context() {
    let io_err = std::io::Error::new(std::io::ErrorKind::PermissionDenied, "access denied");
    let result: Result<(), std::io::Error> = Err(io_err);

    let waldb_result = result.io_context("opening WAL file");
    assert!(waldb_result.is_err());

    let err = waldb_result.unwrap_err();
    let msg = err.message();
    assert!(msg.contains("opening WAL file"));
    assert!(msg.contains("access denied"));
}

#[test]
fn test_error_builder() {
    let err = ErrorBuilder::tree_violation("users/bob/settings")
        .parent("users/bob")
        .reason("Cannot add children to scalar values")
        .build();

    let msg = err.message();
    assert!(msg.contains("users/bob/settings"));
    assert!(msg.contains("users/bob"));
    assert!(msg.contains("Cannot add children"));
}

#[test]
fn test_tree_violation_message_exact() {
    let err = WalDBError::TreeStructureViolation {
        path: "a/b".to_string(),
        parent: "a".to_string(),
        reason: "r".to_string(),
    };
    assert_eq!(err.message(), "Cannot write 'a/b': parent 'a' is a scalar value. r");
}

#[test]
fn test_numeric_error_messages() {
    let err = WalDBError::WalCorruption {
        position: 1024,
        expected: "crc".to_string(),
        found: "junk".to_string(),
    };
    assert_eq!(err.message(), "WAL corruption at position 1024: expected crc, found junk");

    let err2 = WalDBError::CompactionFailed {
        level: 1,
        segment_count: 4,
        reason: "disk".to_string(),
    };
    assert_eq!(err2.message(), "Compaction failed for L1 (4 segments): disk");
}
