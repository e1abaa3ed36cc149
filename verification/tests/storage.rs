use fstk::{generate_hash, get_file_name, get_stored_path, storage_key_at, FstkError};

#[test]
fn test_get_file_name() {
    let result = get_file_name("/path/to/file.txt");
    assert!(result.is_ok());
    assert_eq!(result.unwrap(), "file.txt");

    // Test with path that has no filename
    let result = get_file_name("/");
    assert!(result.is_err());
}

#[test]
fn test_get_file_name_trailing_separator_and_dots() {
    assert_eq!(get_file_name("/a/b/").unwrap(), "b");
    assert_eq!(get_file_name("plain").unwrap(), "plain");
    assert!(get_file_name("").is_err());
    assert!(get_file_name("/a/..").is_err());
    match get_file_name("///") {
        Err(FstkError::FileSystemError(_)) => {}
        _ => panic!("Expected FileSystemError variant"),
    }
}

#[test]
fn test_generate_hash() {
    let hash1 = generate_hash("/tmp/test.txt", false).unwrap();
    assert_eq!(hash1.len(), 16);

    let hash2 = generate_hash("/tmp/other.txt", false).unwrap();
    assert_ne!(hash1, hash2);

    // Test directory hash
    let dir_hash = generate_hash("/tmp", true).unwrap();
    assert_eq!(dir_hash.len(), 16);
    assert_ne!(hash1, dir_hash);
}

#[test]
fn test_storage_key_is_hex_and_input_sensitive() {
    let key = storage_key_at("/path/to/test.txt", false, 123_456_789);
    assert_eq!(key.len(), 16);
    assert!(key.chars().all(|c| c.is_ascii_hexdigit() && !c.is_ascii_uppercase()));

    // The key depends on the path, the kind, and the timestamp.
    assert_eq!(key, storage_key_at("/path/to/test.txt", false, 123_456_789));
    assert_ne!(key, storage_key_at("/path/to/test.txt", true, 123_456_789));
    assert_ne!(key, storage_key_at("/path/to/test.txt", false, 123_456_790));
    assert_ne!(key, storage_key_at("/path/to/other.txt", false, 123_456_789));
}

#[test]
fn test_get_stored_path() {
    assert_eq!(get_stored_path("/home/u/.fstk/.data", "abc123"), "/home/u/.fstk/.data/abc123");
}
