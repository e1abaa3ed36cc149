use fstk::FstkError;
use rusqlite::Error as SqliteError;
use std::io::{Error as IoError, ErrorKind};

#[test]
fn test_io_error_conversion() {
    let io_error = IoError::new(ErrorKind::NotFound, "file not found");
    let fstk_error: FstkError = io_error.into();

    match fstk_error {
        FstkError::IoError(msg) => assert!(msg.contains("file not found")),
        _ => panic!("Expected IoError variant"),
    }
}

#[test]
fn test_sqlite_error_conversion() {
    let sqlite_error = SqliteError::QueryReturnedNoRows;
    let fstk_error: FstkError = sqlite_error.into();

    match fstk_error {
        FstkError::DatabaseError(msg) => assert!(msg.contains("no rows")),
        _ => panic!("Expected DatabaseError variant"),
    }
}

#[test]
fn test_anyhow_error_conversion() {
    let anyhow_error = anyhow::Error::msg("test error message");
    let fstk_error: FstkError = anyhow_error.into();

    match fstk_error {
        FstkError::Other(msg) => assert_eq!(msg, "test error message"),
        _ => panic!("Expected Other variant"),
    }
}

#[test]
fn test_error_display() {
    let error = FstkError::ItemNotFound("test item".to_string());
    assert_eq!(error.message(), "Item not found: test item");

    let error = FstkError::FileSystemError("permission denied".to_string());
    assert_eq!(error.message(), "File system error: permission denied");
}

#[test]
fn test_error_messages_of_each_category() {
    assert_eq!(
        FstkError::DatabaseError("boom".to_string()).message(),
        "Database error: boom"
    );
    assert_eq!(FstkError::TagError("t".to_string()).message(), "Tag error: t");
    assert_eq!(
        FstkError::DestinationConflict("/x".to_string()).message(),
        "Destination conflict: /x"
    );
    assert_eq!(
        FstkError::PermissionDenied("p".to_string()).message(),
        "Permission denied: p"
    );
    assert_eq!(
        FstkError::InvalidArgument("a".to_string()).message(),
        "Invalid argument: a"
    );
    assert_eq!(FstkError::IoError("io".to_string()).message(), "IO error: io");
    assert_eq!(FstkError::Other("o".to_string()).message(), "Other error: o");
}
