use fstk::{find_or_create_tag, ItemManager, ItemRow, Store, TagManager};

fn tags(names: &[&str]) -> Vec<String> {
    names.iter().map(|n| n.to_string()).collect()
}

fn setup_test_item_with_tags(store: &mut Store, tag_names: &[&str]) -> i64 {
    ItemManager::insert(
        store,
        "test_file.txt",
        "/path/to/test_file.txt",
        "test_hash",
        "file",
        &tags(tag_names),
        100,
    )
    .unwrap()
}

#[test]
fn test_insert_and_get_item() {
    let mut store = Store::new();

    let item_id = ItemManager::insert(
        &mut store,
        "test.txt",
        "/path/to/test.txt",
        "abcdef1234567890",
        "file",
        &tags(&["test-tag"]),
        100,
    )
    .unwrap();

    let item = ItemManager::get_by_id(&store, item_id).expect("Item should exist");

    assert_eq!(item.original_name, "test.txt");
    assert_eq!(item.original_path, "/path/to/test.txt");
    assert_eq!(item.stored_hash, "abcdef1234567890");
    assert_eq!(item.item_type, "file");
    assert_eq!(item.tags.len(), 1);
    assert_eq!(item.tags[0], "test-tag");
}

#[test]
fn test_duplicate_storage_key_rejected() {
    let mut store = Store::new();
    ItemManager::insert(&mut store, "a.txt", "/p", "samehash", "file", &[], 1).unwrap();
    let second = ItemManager::insert(&mut store, "b.txt", "/q", "samehash", "file", &[], 2);
    assert!(second.is_err());
    // The first item is untouched.
    assert_eq!(ItemManager::list(&store, &[]).len(), 1);
}

#[test]
fn test_get_latest() {
    let mut store = Store::new();

    ItemManager::insert(&mut store, "older.txt", "/path/to/older.txt", "hash1", "file", &[], 100)
        .unwrap();
    ItemManager::insert(&mut store, "newer.txt", "/path/to/newer.txt", "hash2", "file", &[], 200)
        .unwrap();

    let latest = ItemManager::get_latest(&store).expect("Item should exist");

    assert_eq!(latest.original_name, "newer.txt");
    assert_eq!(latest.stored_hash, "hash2");
}

#[test]
fn test_get_latest_by_tags() {
    let mut store = Store::new();

    ItemManager::insert(
        &mut store,
        "file1.txt",
        "/path/to/file1.txt",
        "hash1",
        "file",
        &tags(&["tag1", "tag2"]),
        100,
    )
    .unwrap();

    ItemManager::insert(
        &mut store,
        "file2.txt",
        "/path/to/file2.txt",
        "hash2",
        "file",
        &tags(&["tag2", "tag3"]),
        200,
    )
    .unwrap();

    let item = ItemManager::get_latest_by_tags(&store, &tags(&["tag1"])).expect("Item should exist");
    assert_eq!(item.original_name, "file1.txt");

    let item = ItemManager::get_latest_by_tags(&store, &tags(&["tag2", "tag3"]))
        .expect("Item should exist");
    assert_eq!(item.original_name, "file2.txt");
}

#[test]
fn test_list_and_filter() {
    let mut store = Store::new();

    ItemManager::insert(
        &mut store,
        "file1.txt",
        "/path/to/file1.txt",
        "hash1",
        "file",
        &tags(&["tag1", "common"]),
        100,
    )
    .unwrap();

    ItemManager::insert(
        &mut store,
        "file2.txt",
        "/path/to/file2.txt",
        "hash2",
        "file",
        &tags(&["tag2", "common"]),
        200,
    )
    .unwrap();

    let items = ItemManager::list(&store, &[]);
    assert_eq!(items.len(), 2);

    let items = ItemManager::list(&store, &tags(&["tag1"]));
    assert_eq!(items.len(), 1);
    assert_eq!(items[0].original_name, "file1.txt");

    let items = ItemManager::list(&store, &tags(&["common"]));
    assert_eq!(items.len(), 2);
}

#[test]
fn test_delete_item() {
    let mut store = Store::new();

    let item_id = ItemManager::insert(
        &mut store,
        "delete_me.txt",
        "/path/to/delete_me.txt",
        "hash_delete",
        "file",
        &tags(&["temp-tag"]),
        100,
    )
    .unwrap();

    assert!(ItemManager::get_by_id(&store, item_id).is_some());

    let deleted = ItemManager::delete(&mut store, item_id);
    assert!(deleted);

    assert!(ItemManager::get_by_id(&store, item_id).is_none());
    // Deleting again is a quiet no-op.
    assert!(!ItemManager::delete(&mut store, item_id));
    // The only carrier of temp-tag is gone, so the tag was cleaned up.
    assert!(TagManager::list_all(&store).is_empty());
}

#[test]
fn test_get_id_by_display_number() {
    let mut store = Store::new();

    let item1_id = ItemManager::insert(
        &mut store,
        "file1.txt",
        "/path/to/file1.txt",
        "hash_display_1",
        "file",
        &tags(&["test"]),
        100,
    )
    .unwrap();

    let item2_id = ItemManager::insert(
        &mut store,
        "file2.txt",
        "/path/to/file2.txt",
        "hash_display_2",
        "file",
        &tags(&["test"]),
        200,
    )
    .unwrap();

    // Item 2 should be display number 1 (newest first)
    let id = ItemManager::get_id_by_display_number(&store, 1, &[]).expect("Should find an item");
    assert_eq!(id, item2_id);

    // Item 1 should be display number 2 (oldest second)
    let id = ItemManager::get_id_by_display_number(&store, 2, &[]).expect("Should find an item");
    assert_eq!(id, item1_id);

    // Test invalid display number
    let result = ItemManager::get_id_by_display_number(&store, 999, &[]);
    assert!(result.is_none());
}

#[test]
fn test_display_number_tie_break() {
    let mut store = Store::new();
    // Equal timestamps: the smaller durable identifier is listed first.
    let first = ItemManager::insert(&mut store, "a", "/p", "h1", "file", &[], 100).unwrap();
    let second = ItemManager::insert(&mut store, "b", "/p", "h2", "file", &[], 100).unwrap();
    assert!(first < second);
    assert_eq!(ItemManager::get_id_by_display_number(&store, 1, &[]), Some(first));
    assert_eq!(ItemManager::get_id_by_display_number(&store, 2, &[]), Some(second));
}

#[test]
fn test_find_or_create_tag() {
    let mut store = Store::new();

    let tag_id1 = find_or_create_tag(&mut store, "test_tag").unwrap();
    assert!(tag_id1 > 0);

    let tag_id2 = find_or_create_tag(&mut store, "test_tag").unwrap();
    assert_eq!(tag_id1, tag_id2, "Should return the same ID for existing tag");

    let tag_id3 = find_or_create_tag(&mut store, "another_tag").unwrap();
    assert_ne!(tag_id1, tag_id3, "Different tags should have different IDs");
}

#[test]
fn test_get_for_item() {
    let mut store = Store::new();
    let item_id = setup_test_item_with_tags(&mut store, &["tag1", "tag2"]);

    let item_tags = TagManager::get_for_item(&store, item_id);

    assert_eq!(item_tags.len(), 2);
    assert!(item_tags.contains(&"tag1".to_string()));
    assert!(item_tags.contains(&"tag2".to_string()));
}

#[test]
fn test_add_to_item() {
    let mut store = Store::new();
    let item_id = setup_test_item_with_tags(&mut store, &["existing"]);

    let added =
        TagManager::add_to_item(&mut store, item_id, &tags(&["new_tag1", "new_tag2"])).unwrap();

    assert_eq!(added, 2, "Should have added 2 tags");

    let item_tags = TagManager::get_for_item(&store, item_id);
    assert_eq!(item_tags.len(), 3);
    assert!(item_tags.contains(&"existing".to_string()));
    assert!(item_tags.contains(&"new_tag1".to_string()));
    assert!(item_tags.contains(&"new_tag2".to_string()));

    let added = TagManager::add_to_item(&mut store, item_id, &tags(&["existing"])).unwrap();
    assert_eq!(added, 0, "Should not add duplicate tag");
}

#[test]
fn test_remove_from_item() {
    let mut store = Store::new();
    let item_id = setup_test_item_with_tags(&mut store, &["tag1", "tag2", "tag3"]);

    let removed = TagManager::remove_from_item(&mut store, item_id, &tags(&["tag2"]));
    assert_eq!(removed, 1, "Should have removed 1 tag");

    let item_tags = TagManager::get_for_item(&store, item_id);
    assert_eq!(item_tags.len(), 2);
    assert!(item_tags.contains(&"tag1".to_string()));
    assert!(item_tags.contains(&"tag3".to_string()));
    assert!(!item_tags.contains(&"tag2".to_string()));

    let removed = TagManager::remove_from_item(&mut store, item_id, &tags(&["nonexistent"]));
    assert_eq!(removed, 0, "Should not remove non-existent tag");
}

#[test]
fn test_cleanup_orphaned_tags() {
    let mut store = Store::new();

    let _item_id = setup_test_item_with_tags(&mut store, &["tag1"]);
    let tag_id1 = find_or_create_tag(&mut store, "tag1").unwrap();
    let tag_id2 = find_or_create_tag(&mut store, "tag2").unwrap();

    // Cleanup tag2 (unused)
    let cleaned = TagManager::cleanup_orphaned_tags(&mut store, &[tag_id2]);
    assert_eq!(cleaned, 1, "Should have cleaned 1 orphaned tag");

    let all_tags = TagManager::list_all(&store);
    assert_eq!(all_tags.len(), 1);
    assert_eq!(all_tags[0].0, tag_id1);
    assert_eq!(all_tags[0].1, "tag1");
}

#[test]
fn test_delete_unused_tags() {
    let mut store = Store::new();

    find_or_create_tag(&mut store, "unused1").unwrap();
    find_or_create_tag(&mut store, "unused2").unwrap();

    let _item_id = setup_test_item_with_tags(&mut store, &["used"]);
    let tag_id = find_or_create_tag(&mut store, "used").unwrap();

    let deleted = TagManager::delete_unused_tags(&mut store);
    assert_eq!(deleted, 2, "Should have deleted 2 unused tags");

    let remaining = TagManager::list_all(&store);
    assert_eq!(remaining.len(), 1);
    assert_eq!(remaining[0].0, tag_id);
    assert_eq!(remaining[0].1, "used");

    // Orphan cleanup is idempotent: a second pass deletes nothing.
    assert_eq!(TagManager::delete_unused_tags(&mut store), 0);
}

#[test]
fn test_list_all() {
    let mut store = Store::new();

    ItemManager::insert(
        &mut store,
        "file1.txt",
        "/path/to/file1.txt",
        "hash1_for_tagtest",
        "file",
        &tags(&["tag1", "common"]),
        100,
    )
    .unwrap();

    ItemManager::insert(
        &mut store,
        "file2.txt",
        "/path/to/file2.txt",
        "hash2_for_tagtest",
        "file",
        &tags(&["tag2", "common"]),
        200,
    )
    .unwrap();

    let all = TagManager::list_all(&store);

    assert_eq!(all.len(), 3);

    let common_tag = all.iter().find(|t| t.1 == "common").expect("Common tag should exist");
    assert_eq!(common_tag.2, 2, "Common tag should be used by 2 items");

    let tag1 = all.iter().find(|t| t.1 == "tag1").expect("tag1 should exist");
    let tag2 = all.iter().find(|t| t.1 == "tag2").expect("tag2 should exist");
    assert_eq!(tag1.2, 1, "tag1 should be used by 1 item");
    assert_eq!(tag2.2, 1, "tag2 should be used by 1 item");
}

#[test]
fn test_load_round_trips_rows() {
    let mut store = Store::new();
    let id = setup_test_item_with_tags(&mut store, &["keep"]);

    let items = store.items_rows().clone();
    let tag_rows = store.tags_rows().clone();
    let assocs = store.assoc_rows().clone();

    let reloaded = Store::load(items, tag_rows, assocs).expect("rows round-trip");
    let item = ItemManager::get_by_id(&reloaded, id).expect("Item should exist");
    assert_eq!(item.original_name, "test_file.txt");
    assert_eq!(item.tags, vec!["keep".to_string()]);
}

#[test]
fn test_load_rejects_duplicate_keys() {
    let rows = vec![
        ItemRow {
            id: 1,
            original_name: "a".to_string(),
            original_path: "/p".to_string(),
            stored_hash: "same".to_string(),
            item_type: "file".to_string(),
            pushed_at: 1,
        },
        ItemRow {
            id: 2,
            original_name: "b".to_string(),
            original_path: "/q".to_string(),
            stored_hash: "same".to_string(),
            item_type: "file".to_string(),
            pushed_at: 2,
        },
    ];
    assert!(Store::load(rows, Vec::new(), Vec::new()).is_err());
}
