//! A personal content-addressable stack store: items (files or directories)
//! are pushed into a managed repository, tracked with metadata and tags in a
//! relational store, and later restored, popped, or removed by a transient,
//! recency-based display number.
//!
//! This crate is the verified engine: the relational data model (items, tags,
//! their association, cascade and orphan cleanup), the storage-key derivation,
//! the display-number resolution protocol, the selection-range parser, and the
//! batch operation bookkeeping. Filesystem and database I/O live outside, in
//! the surrounding application, which hands plain values in and out.

pub mod display;
pub mod error;
pub mod item;
pub mod laws;
pub mod numbers;
pub mod ops;
pub mod storage;
pub mod store;
pub mod text;

pub use display::{create_display_item, truncate, DisplayItem, DisplayTag};
pub use error::FstkError;
pub use item::{sort_by_display_order, StackItem};
pub use numbers::parse_number_range;
pub use ops::{
    add_tags, list_tags, plan_batch, pop_destination, push, remove_tags, restore_destination,
    BatchPlan, BatchTally, ItemOutcome, TagCommands,
};
pub use storage::{generate_hash, get_file_name, get_stored_path, storage_key_at};
pub use store::{find_or_create_tag, ItemManager, ItemRow, Store, TagManager, TagRow};
