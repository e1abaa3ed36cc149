use fstk::{
    add_tags, list_tags, plan_batch, pop_destination, push, remove_tags, restore_destination,
    BatchTally, FstkError, ItemManager, ItemOutcome, Store,
};

fn tags(names: &[&str]) -> Vec<String> {
    names.iter().map(|n| n.to_string()).collect()
}

#[test]
fn test_push_records_the_original_facts() {
    let mut store = Store::new();
    let id = push(
        &mut store,
        "notes.txt",
        "/home/u/docs",
        "deadbeef00000000",
        false,
        Some(tags(&["work", "text"])),
        1_000,
    )
    .unwrap();

    // Round-trip: the row reproduces the pushed name and placement.
    let item = ItemManager::get_by_id(&store, id).expect("Item should exist");
    assert_eq!(item.original_name, "notes.txt");
    assert_eq!(item.original_path, "/home/u/docs");
    assert_eq!(item.item_type, "file");
    assert_eq!(
        restore_destination(&item.original_path, &item.original_name),
        "/home/u/docs/notes.txt"
    );
    assert_eq!(pop_destination("/tmp/out", &item.original_name), "/tmp/out/notes.txt");
}

#[test]
fn test_push_directory_kind() {
    let mut store = Store::new();
    let id = push(&mut store, "proj", "/home/u", "cafe000000000000", true, None, 5).unwrap();
    let item = ItemManager::get_by_id(&store, id).unwrap();
    assert_eq!(item.item_type, "directory");
    assert!(item.tags.is_empty());
}

#[test]
fn test_add_tags_by_display_number() {
    let mut store = Store::new();
    push(&mut store, "a.txt", "/p", "hash_a", false, None, 100).unwrap();
    push(&mut store, "b.txt", "/p", "hash_b", false, None, 200).unwrap();

    // Display number 1 is the newest item: b.txt.
    let added = add_tags(&mut store, 1, &tags(&["fresh"])).unwrap();
    assert_eq!(added, 1);
    let b = ItemManager::get_latest(&store).unwrap();
    assert_eq!(b.original_name, "b.txt");
    assert_eq!(b.tags, vec!["fresh".to_string()]);

    // Adding the same tag again reports zero added.
    let added = add_tags(&mut store, 1, &tags(&["fresh"])).unwrap();
    assert_eq!(added, 0);

    // An out-of-range ordinal names no item.
    match add_tags(&mut store, 99, &tags(&["x"])) {
        Err(FstkError::ItemNotFound(msg)) => assert!(msg.contains("99")),
        _ => panic!("Expected ItemNotFound variant"),
    }
}

#[test]
fn test_remove_tags_by_display_number() {
    let mut store = Store::new();
    push(&mut store, "a.txt", "/p", "hash_a", false, Some(tags(&["one", "two"])), 100).unwrap();

    let removed = remove_tags(&mut store, 1, &tags(&["two"])).unwrap();
    assert_eq!(removed, 1);

    // Removing an absent tag reports zero removed.
    let removed = remove_tags(&mut store, 1, &tags(&["two"])).unwrap();
    assert_eq!(removed, 0);

    let item = ItemManager::get_latest(&store).unwrap();
    assert_eq!(item.tags, vec!["one".to_string()]);
}

#[test]
fn test_list_tags_sorts_by_usage_and_cleans_orphans() {
    let mut store = Store::new();
    push(&mut store, "a", "/p", "h1", false, Some(tags(&["common", "rare"])), 100).unwrap();
    push(&mut store, "b", "/p", "h2", false, Some(tags(&["common"])), 200).unwrap();
    // Orphan a tag by removing its only association.
    remove_tags(&mut store, 2, &tags(&["rare"])).unwrap();
    fstk::find_or_create_tag(&mut store, "dangling").unwrap();

    let listing = list_tags(&mut store);
    assert_eq!(listing.len(), 1, "orphaned tags are deleted when tags are listed");
    assert_eq!(listing[0].1, "common");
    assert_eq!(listing[0].2, 2);
}

#[test]
fn test_list_tags_ordering() {
    let mut store = Store::new();
    push(&mut store, "a", "/p", "h1", false, Some(tags(&["solo"])), 100).unwrap();
    push(&mut store, "b", "/p", "h2", false, Some(tags(&["both"])), 200).unwrap();
    push(&mut store, "c", "/p", "h3", false, Some(tags(&["both"])), 300).unwrap();

    let listing = list_tags(&mut store);
    assert_eq!(listing.len(), 2);
    assert_eq!(listing[0].1, "both");
    assert_eq!(listing[0].2, 2);
    assert_eq!(listing[1].1, "solo");
    assert_eq!(listing[1].2, 1);
}

#[test]
fn test_superset_tag_filtering() {
    let mut store = Store::new();
    push(&mut store, "ab", "/p", "h1", false, Some(tags(&["a", "b"])), 100).unwrap();
    push(&mut store, "abc", "/p", "h2", false, Some(tags(&["a", "b", "c"])), 200).unwrap();
    push(&mut store, "a_only", "/p", "h3", false, Some(tags(&["a"])), 300).unwrap();

    // list(["a","b"]) returns exactly the items whose tag set includes both.
    let filtered = ItemManager::list(&store, &tags(&["a", "b"]));
    let names: Vec<&str> = filtered.iter().map(|i| i.original_name.as_str()).collect();
    assert_eq!(names, vec!["ab", "abc"]);

    // list([]) returns all items.
    assert_eq!(ItemManager::list(&store, &[]).len(), 3);
}

#[test]
fn test_display_number_stable_within_snapshot() {
    let mut store = Store::new();
    push(&mut store, "one", "/p", "h1", false, None, 100).unwrap();
    push(&mut store, "two", "/p", "h2", false, None, 200).unwrap();
    push(&mut store, "three", "/p", "h3", false, None, 300).unwrap();

    // For a fixed snapshot, resolving an ordinal twice yields the same id.
    let first = ItemManager::get_id_by_display_number(&store, 2, &[]).unwrap();
    let second = ItemManager::get_id_by_display_number(&store, 2, &[]).unwrap();
    assert_eq!(first, second);

    // Across a mutation the mapping may legitimately change.
    let top = ItemManager::get_id_by_display_number(&store, 1, &[]).unwrap();
    assert!(ItemManager::delete(&mut store, top));
    let renumbered = ItemManager::get_id_by_display_number(&store, 1, &[]).unwrap();
    assert_eq!(renumbered, first);
}

#[test]
fn test_partial_failure_accounting() {
    let mut store = Store::new();
    push(&mut store, "a", "/p", "h1", false, None, 100).unwrap();
    push(&mut store, "b", "/p", "h2", false, None, 200).unwrap();

    // Three requested ordinals: one out of range, one conflicting, one good.
    let snapshot = fstk::sort_by_display_order(ItemManager::list(&store, &[]));
    let plan = plan_batch(snapshot.len(), &vec![1, 2, 7]);
    assert_eq!(plan.resolved, vec![(1, 0), (2, 1)]);
    assert_eq!(plan.not_found, vec![7], "the out-of-range ordinal is logged separately");

    let mut tally = BatchTally::new();
    // Ordinal 1 hits a destination conflict and is skipped; ordinal 2 succeeds.
    tally.record(&ItemOutcome::ConflictSkipped);
    tally.record(&ItemOutcome::Completed);

    assert_eq!(tally.succeeded, 1);
    assert_eq!(tally.skipped, 1);
    assert_eq!(tally.failed, 0);
    // Overall status is success because at least one item succeeded.
    assert!(tally.succeeded_overall());
}

#[test]
fn test_batch_fails_without_any_success() {
    let mut tally = BatchTally::new();
    tally.record(&ItemOutcome::SourceMissing);
    tally.record(&ItemOutcome::MoveFailed);
    tally.record(&ItemOutcome::StoreDeleteFailed);
    tally.record(&ItemOutcome::ConflictRefused);
    assert_eq!(tally.failed, 4);
    assert!(!tally.succeeded_overall());
}

#[test]
fn test_item_tags_are_alphabetical() {
    let mut store = Store::new();
    push(&mut store, "a", "/p", "h1", false, Some(tags(&["zeta", "alpha", "mid"])), 100).unwrap();
    let item = ItemManager::get_latest(&store).unwrap();
    assert_eq!(item.tags, tags(&["alpha", "mid", "zeta"]));
}

#[test]
fn test_list_tags_tie_break_is_alphabetical() {
    let mut store = Store::new();
    push(&mut store, "a", "/p", "h1", false, Some(tags(&["zebra", "ant"])), 100).unwrap();
    let listing = list_tags(&mut store);
    assert_eq!(listing.len(), 2);
    assert_eq!(listing[0].1, "ant");
    assert_eq!(listing[1].1, "zebra");
}
