use fstk::{create_display_item, truncate, StackItem};

fn create_test_item() -> StackItem {
    StackItem {
        id: 1,
        original_name: "test_file.txt".to_string(),
        original_path: "/path/to/test_file.txt".to_string(),
        stored_hash: "abcdef1234567890".to_string(),
        item_type: "file".to_string(),
        pushed_at: 1_700_000_000,
        tags: vec!["tag1".to_string(), "tag2".to_string()],
    }
}

#[test]
fn test_truncate() {
    assert_eq!(truncate("short", 10), "short");
    assert_eq!(truncate("this is a long string", 10), "this is...");
    assert_eq!(truncate("exactly15chars", 15), "exactly15chars");

    // Test string that needs truncation
    let long_string = "abcdefghijklmnopqrstuvwxyz";
    let result = truncate(long_string, 10);
    assert!(result.len() <= 13); // 10 + "..."
    assert!(result.ends_with("..."));
    assert_eq!(result, "abcdefg...");
}

#[test]
fn test_create_display_item() {
    // Test file item
    let item = create_test_item();
    let display_item = create_display_item(&item, 1);

    assert_eq!(display_item.display_number, 1);
    assert_eq!(display_item.item_type, "f");
    assert_eq!(display_item.name, "test_file.txt");
    assert_eq!(display_item.tags, "tag1, tag2");

    // Create directory item
    let mut dir_item = create_test_item();
    dir_item.item_type = "directory".to_string();
    let display_dir = create_display_item(&dir_item, 2);

    assert_eq!(display_dir.item_type, "d");

    // Test long name truncation
    let mut long_name_item = create_test_item();
    long_name_item.original_name = "this_is_a_very_long_filename.txt".to_string();
    let display_long = create_display_item(&long_name_item, 3);

    // Check truncation occurred and has ... at the end
    assert!(display_long.name.len() < long_name_item.original_name.len());
    assert!(display_long.name.ends_with("..."));

    // Test long tags truncation
    let mut long_tags_item = create_test_item();
    long_tags_item.tags = vec![
        "tag1".to_string(),
        "tag2".to_string(),
        "tag3".to_string(),
        "very_long_tag_name".to_string(),
    ];
    let display_long_tags = create_display_item(&long_tags_item, 4);

    // Check it truncates and has ...
    assert!(display_long_tags.tags.contains("tag1"));
    assert!(display_long_tags.tags.contains("tag2"));
    assert!(display_long_tags.tags.ends_with("..."));
}

#[test]
fn test_display_item_without_tags() {
    let mut item = create_test_item();
    item.tags = Vec::new();
    let display_item = create_display_item(&item, 7);
    assert_eq!(display_item.tags, "");
    assert_eq!(display_item.display_number, 7);
}
