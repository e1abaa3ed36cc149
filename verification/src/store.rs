//! The relational store of the stack: items, tags, and their many-to-many
//! association, held in memory as plain rows. All mutations are specified as
//! transitions over a mathematical model (`StoreModel`), and the store's
//! well-formedness invariant (unique identifiers, unique storage keys, unique
//! tag names, associations that reference existing rows) is preserved by every
//! operation. Persistence is the surrounding application's concern: it loads a
//! store from disk, runs verified operations, and writes the rows back.

use vstd::prelude::*;

use crate::error::FstkError;
use crate::item::StackItem;
use crate::text::{sort_strings, spec_sort_names, spec_trim};

pub use crate::text::names_of;

verus! {

/// One item row: a pushed file or directory.
#[derive(Clone)]
pub struct ItemRow {
    /// Durable identifier, assigned on creation, never reused while the item exists.
    pub id: i64,
    /// Base file or directory name at time of push.
    pub original_name: String,
    /// Absolute parent directory path at time of push.
    pub original_path: String,
    /// Content-location key; the artifact lives at `storage_root/<stored_hash>`.
    pub stored_hash: String,
    /// Either "file" or "directory".
    pub item_type: String,
    /// Push timestamp, in seconds since the epoch.
    pub pushed_at: i64,
}

/// One tag row: a named label.
#[derive(Clone)]
pub struct TagRow {
    pub id: i64,
    pub name: String,
}

/// Mathematical model of one item row.
#[verifier::ext_equal]
pub ghost struct ItemModel {
    pub id: int,
    pub name: Seq<char>,
    pub path: Seq<char>,
    pub hash: Seq<char>,
    pub kind: Seq<char>,
    pub at: int,
}

/// Mathematical model of one tag row.
#[verifier::ext_equal]
pub ghost struct TagModel {
    pub id: int,
    pub name: Seq<char>,
}

/// Mathematical model of the whole store.
#[verifier::ext_equal]
pub ghost struct StoreModel {
    pub items: Seq<ItemModel>,
    pub tags: Seq<TagModel>,
    pub assocs: Seq<(int, int)>,
    pub next_item_id: int,
    pub next_tag_id: int,
}

impl View for ItemRow {
    type V = ItemModel;

    open spec fn view(&self) -> ItemModel {
        ItemModel {
            id: self.id as int,
            name: self.original_name@,
            path: self.original_path@,
            hash: self.stored_hash@,
            kind: self.item_type@,
            at: self.pushed_at as int,
        }
    }
}

impl View for TagRow {
    type V = TagModel;

    open spec fn view(&self) -> TagModel {
        TagModel { id: self.id as int, name: self.name@ }
    }
}

/// The relational store: item rows, tag rows, and item-tag associations.
pub struct Store {
    items: Vec<ItemRow>,
    tags: Vec<TagRow>,
    assocs: Vec<(i64, i64)>,
    next_item_id: i64,
    next_tag_id: i64,
}

impl View for Store {
    type V = StoreModel;

    closed spec fn view(&self) -> StoreModel {
        StoreModel {
            items: self.items@.map_values(|r: ItemRow| r@),
            tags: self.tags@.map_values(|r: TagRow| r@),
            assocs: self.assocs@.map_values(|p: (i64, i64)| (p.0 as int, p.1 as int)),
            next_item_id: self.next_item_id as int,
            next_tag_id: self.next_tag_id as int,
        }
    }
}

impl StoreModel {
    /// Some item row carries this identifier.
    pub open spec fn has_item(self, id: int) -> bool {
        exists|j: int| 0 <= j < self.items.len() && (#[trigger] self.items[j]).id == id
    }

    /// Some tag row carries this identifier.
    pub open spec fn has_tag_id(self, id: int) -> bool {
        exists|j: int| 0 <= j < self.tags.len() && (#[trigger] self.tags[j]).id == id
    }

    /// Some tag row carries this name.
    pub open spec fn has_tag_named(self, name: Seq<char>) -> bool {
        exists|j: int| 0 <= j < self.tags.len() && (#[trigger] self.tags[j]).name == name
    }

    /// Some item row carries this storage key.
    pub open spec fn has_hash(self, hash: Seq<char>) -> bool {
        exists|j: int| 0 <= j < self.items.len() && (#[trigger] self.items[j]).hash == hash
    }

    /// The association (item, tag) is present.
    pub open spec fn has_assoc(self, item_id: int, tag_id: int) -> bool {
        exists|k: int| 0 <= k < self.assocs.len() && #[trigger] self.assocs[k] == (item_id, tag_id)
    }

    /// The tag with this identifier has at least one associated item.
    pub open spec fn tag_in_use(self, tag_id: int) -> bool {
        exists|k: int| 0 <= k < self.assocs.len() && (#[trigger] self.assocs[k]).1 == tag_id
    }

    /// The item with this identifier carries a tag with this name.
    pub open spec fn item_has_tag(self, item_id: int, name: Seq<char>) -> bool {
        exists|j: int|
            0 <= j < self.tags.len() && (#[trigger] self.tags[j]).name == name && self.has_assoc(
                item_id,
                self.tags[j].id,
            )
    }

    /// Well-formedness: identifiers, storage keys and tag names are unique,
    /// identifiers lie below the corresponding counter, associations are
    /// distinct and reference existing rows.
    pub open spec fn wf(self) -> bool {
        &&& (forall|i: int, j: int|
            0 <= i < j < self.items.len() ==> (#[trigger] self.items[i]).id != (
            #[trigger] self.items[j]).id)
        &&& (forall|i: int, j: int|
            0 <= i < j < self.items.len() ==> (#[trigger] self.items[i]).hash != (
            #[trigger] self.items[j]).hash)
        &&& (forall|i: int| 0 <= i < self.items.len() ==> 0 < (#[trigger] self.items[i]).id
            < self.next_item_id)
        &&& (forall|i: int, j: int|
            0 <= i < j < self.tags.len() ==> (#[trigger] self.tags[i]).id != (
            #[trigger] self.tags[j]).id)
        &&& (forall|i: int, j: int|
            0 <= i < j < self.tags.len() ==> (#[trigger] self.tags[i]).name != (
            #[trigger] self.tags[j]).name)
        &&& (forall|i: int| 0 <= i < self.tags.len() ==> 0 < (#[trigger] self.tags[i]).id
            < self.next_tag_id)
        &&& (forall|k: int, l: int|
            0 <= k < l < self.assocs.len() ==> #[trigger] self.assocs[k] != #[trigger] self.assocs[l])
        &&& (forall|k: int|
            0 <= k < self.assocs.len() ==> self.has_item((#[trigger] self.assocs[k]).0)
                && self.has_tag_id(self.assocs[k].1))
        &&& 0 < self.next_item_id
        &&& 0 < self.next_tag_id
    }
}

/// Index of the tag row with this name, or -1 if there is none.
pub open spec fn find_tag_model(tags: Seq<TagModel>, name: Seq<char>) -> int
    decreases tags.len(),
{
    if tags.len() == 0 {
        -1
    } else if tags.last().name == name {
        tags.len() - 1
    } else {
        find_tag_model(tags.drop_last(), name)
    }
}

pub proof fn lemma_find_tag_model(tags: Seq<TagModel>, name: Seq<char>)
    ensures
        -1 <= find_tag_model(tags, name) < tags.len(),
        find_tag_model(tags, name) >= 0 ==> tags[find_tag_model(tags, name)].name == name,
        find_tag_model(tags, name) == -1 ==> forall|j: int|
            0 <= j < tags.len() ==> (#[trigger] tags[j]).name != name,
    decreases tags.len(),
{
    if tags.len() > 0 && tags.last().name != name {
        lemma_find_tag_model(tags.drop_last(), name);
        if find_tag_model(tags, name) == -1 {
            assert forall|j: int| 0 <= j < tags.len() implies (#[trigger] tags[j]).name
                != name by {
                if j < tags.len() - 1 {
                    assert(tags.drop_last()[j] == tags[j]);
                }
            }
        }
    }
}

/// Finding or creating a tag preserves well-formedness, and the resulting
/// identifier names an existing tag with the requested name.
pub proof fn lemma_find_or_create_wf(m: StoreModel, name: Seq<char>)
    requires
        m.wf(),
        m.has_tag_named(name) || m.next_tag_id < i64::MAX,
    ensures
        spec_find_or_create(m, name).0.wf(),
        spec_find_or_create(m, name).0.has_tag_named(name),
        spec_find_or_create(m, name).0.items == m.items,
        spec_find_or_create(m, name).0.assocs == m.assocs,
        spec_find_or_create(m, name).0.next_item_id == m.next_item_id,
        m.next_tag_id <= spec_find_or_create(m, name).0.next_tag_id,
        spec_find_or_create(m, name).0.has_tag_id(spec_find_or_create(m, name).1),
        forall|n2: Seq<char>|
            #[trigger] spec_find_or_create(m, name).0.has_tag_named(n2) <==> m.has_tag_named(n2)
                || n2 == name,
{
    lemma_find_tag_model(m.tags, name);
    let j = find_tag_model(m.tags, name);
    if j >= 0 {
        assert(m.has_tag_named(name));
        assert(m.has_tag_id(m.tags[j].id));
    } else {
        assert(!m.has_tag_named(name));
        let m1 = spec_find_or_create(m, name).0;
        let newtag = TagModel { id: m.next_tag_id, name };
        assert(m1.tags == m.tags.push(newtag));
        assert(m1.tags[m.tags.len() as int] == newtag);
        assert forall|k: int| 0 <= k < m1.assocs.len() implies m1.has_item(
            (#[trigger] m1.assocs[k]).0,
        ) && m1.has_tag_id(m1.assocs[k].1) by {
            assert(m1.assocs[k] == m.assocs[k]);
            assert(m.has_item(m.assocs[k].0) && m.has_tag_id(m.assocs[k].1));
            let wi = choose|j2: int|
                0 <= j2 < m.items.len() && (#[trigger] m.items[j2]).id == m.assocs[k].0;
            assert(0 <= wi < m1.items.len() && m1.items[wi].id == m1.assocs[k].0);
            let w = choose|j2: int|
                0 <= j2 < m.tags.len() && (#[trigger] m.tags[j2]).id == m.assocs[k].1;
            assert(0 <= w < m1.tags.len() && m1.tags[w].id == m1.assocs[k].1);
        }
        assert(m1.wf());
        assert forall|n2: Seq<char>| #[trigger] m1.has_tag_named(n2) implies m.has_tag_named(n2)
            || n2 == name by {
            let w = choose|j2: int|
                0 <= j2 < m1.tags.len() && (#[trigger] m1.tags[j2]).name == n2;
            if w < m.tags.len() {
                assert(m.has_tag_named(n2));
            }
        }
        assert forall|n2: Seq<char>| m.has_tag_named(n2) implies #[trigger] m1.has_tag_named(
            n2,
        ) by {
            let w = choose|j2: int|
                0 <= j2 < m.tags.len() && (#[trigger] m.tags[j2]).name == n2;
            assert(m1.tags[w].name == n2);
        }
        assert(m1.tags[m.tags.len() as int].name == name);
    }
}

impl Store {
    /// An empty store.
    pub fn new() -> (r: Store)
        ensures
            r@.wf(),
            r@.items.len() == 0,
            r@.tags.len() == 0,
            r@.assocs.len() == 0,
            r@.next_item_id == 1,
            r@.next_tag_id == 1,
    {
        Store {
            items: Vec::new(),
            tags: Vec::new(),
            assocs: Vec::new(),
            next_item_id: 1,
            next_tag_id: 1,
        }
    }

    /// Index of the tag row whose name equals `name`, if any.
    pub(crate) fn find_tag_index(&self, name: &String) -> (r: Option<usize>)
        ensures
            match r {
                Some(j) => j < self@.tags.len() && self@.tags[j as int].name == name@
                    && find_tag_model(self@.tags, name@) >= 0,
                None => find_tag_model(self@.tags, name@) == -1,
            },
    {
        let n = self.tags.len();
        let mut j: usize = 0;
        while j < n
            invariant
                n == self.tags.len(),
                j <= n,
                forall|k: int| 0 <= k < j ==> (#[trigger] self@.tags[k]).name != name@,
            decreases n - j,
        {
            if self.tags[j].name == *name {
                proof {
                    assert(self@.tags[j as int].name == name@);
                    lemma_find_tag_model(self@.tags, name@);
                    if find_tag_model(self@.tags, name@) == -1 {
                        assert(self@.tags[j as int].name != name@);
                    }
                }
                return Some(j);
            }
            j = j + 1;
        }
        proof {
            lemma_find_tag_model(self@.tags, name@);
        }
        None
    }

    /// Whether the association (item, tag) is present.
    pub(crate) fn assoc_present(&self, item_id: i64, tag_id: i64) -> (r: bool)
        ensures
            r == self@.has_assoc(item_id as int, tag_id as int),
    {
        let n = self.assocs.len();
        let mut k: usize = 0;
        while k < n
            invariant
                n == self.assocs.len(),
                k <= n,
                forall|l: int| 0 <= l < k ==> #[trigger] self@.assocs[l] != (
                item_id as int,
                tag_id as int,
                ),
            decreases n - k,
        {
            let a = self.assocs[k];
            if a.0 == item_id && a.1 == tag_id {
                assert(self@.assocs[k as int] == (item_id as int, tag_id as int));
                return true;
            }
            k = k + 1;
        }
        false
    }
}

/// Result of finding or creating the tag with (trimmed) name `name`: the
/// updated store and the tag's identifier. If the name is new, the tag is
/// appended with the next free identifier.
pub open spec fn spec_find_or_create(m: StoreModel, name: Seq<char>) -> (StoreModel, int) {
    let j = find_tag_model(m.tags, name);
    if j >= 0 {
        (m, m.tags[j].id)
    } else {
        (
            StoreModel {
                tags: m.tags.push(TagModel { id: m.next_tag_id, name }),
                next_tag_id: m.next_tag_id + 1,
                ..m
            },
            m.next_tag_id,
        )
    }
}

/// Find the tag with this exact name, creating it if absent.
///
/// Fails only when a new tag is needed and the tag identifier space is
/// exhausted; the store is unchanged in that case.
pub fn find_or_create_tag(store: &mut Store, tag_name: &str) -> (r: Result<i64, FstkError>)
    requires
        old(store)@.wf(),
    ensures
        final(store)@.wf(),
        old(store)@.has_tag_named(tag_name@) || old(store)@.next_tag_id < i64::MAX ==> ({
            &&& r is Ok
            &&& final(store)@ == spec_find_or_create(old(store)@, tag_name@).0
            &&& r->Ok_0 as int == spec_find_or_create(old(store)@, tag_name@).1
        }),
        !(old(store)@.has_tag_named(tag_name@) || old(store)@.next_tag_id < i64::MAX) ==> ({
            &&& r is Err
            &&& r->Err_0 is DatabaseError
            &&& final(store)@ == old(store)@
        }),
{
    let name = String::from_str(tag_name);
    match store.find_tag_index(&name) {
        Some(j) => {
            proof {
                lemma_find_tag_model(store@.tags, tag_name@);
                let jj = find_tag_model(store@.tags, tag_name@);
                assert(store@.tags[jj].name == tag_name@);
                assert(store@.tags[j as int].name == tag_name@);
                if jj != j as int {
                    assert(false);  // two distinct tags with one name contradict wf
                }
            }
            Ok(store.tags[j].id)
        },
        None => {
            proof {
                lemma_find_tag_model(store@.tags, tag_name@);
            }
            if store.next_tag_id == i64::MAX {
                assert(!store@.has_tag_named(tag_name@));
                return Err(
                    FstkError::DatabaseError(String::from_str("tag identifier space exhausted")),
                );
            }
            let id = store.next_tag_id;
            let ghost pre = store@;
            store.tags.push(TagRow { id, name });
            store.next_tag_id = id + 1;
            proof {
                assert(store@.tags =~= pre.tags.push(TagModel { id: id as int, name: tag_name@ }));
                assert(store@.items =~= pre.items);
                assert(store@.assocs =~= pre.assocs);
                assert(store@ =~= spec_find_or_create(pre, tag_name@).0);
                lemma_find_or_create_wf(pre, tag_name@);
            }
            Ok(id)
        },
    }
}

/// Result of attaching one raw tag to an item: the tag is trimmed; an empty
/// trimmed name is skipped; otherwise the tag is found or created and the
/// association added unless already present. The count is the number of newly
/// added associations (0 or 1).
pub open spec fn spec_attach_one(m: StoreModel, item_id: int, raw: Seq<char>) -> (StoreModel, int) {
    let t = spec_trim(raw);
    if t.len() == 0 {
        (m, 0)
    } else {
        let m1 = spec_find_or_create(m, t).0;
        let tid = spec_find_or_create(m, t).1;
        if m1.has_assoc(item_id, tid) {
            (m1, 0)
        } else {
            (StoreModel { assocs: m1.assocs.push((item_id, tid)), ..m1 }, 1)
        }
    }
}

/// Result of attaching a list of raw tags to an item, in order, with the
/// total count of newly added associations.
pub open spec fn spec_attach_tags(m: StoreModel, item_id: int, raws: Seq<Seq<char>>) -> (
    StoreModel,
    int,
)
    decreases raws.len(),
{
    if raws.len() == 0 {
        (m, 0)
    } else {
        let s1 = spec_attach_one(m, item_id, raws.first());
        let s2 = spec_attach_tags(s1.0, item_id, raws.drop_first());
        (s2.0, s1.1 + s2.1)
    }
}

/// Pushing a fresh association preserves well-formedness.
proof fn lemma_push_assoc_wf(m: StoreModel, item_id: int, tid: int)
    requires
        m.wf(),
        m.has_item(item_id),
        m.has_tag_id(tid),
        !m.has_assoc(item_id, tid),
    ensures
        (StoreModel { assocs: m.assocs.push((item_id, tid)), ..m }).wf(),
{
    let m1 = StoreModel { assocs: m.assocs.push((item_id, tid)), ..m };
    assert forall|k: int, l: int| 0 <= k < l < m1.assocs.len() implies #[trigger] m1.assocs[k]
        != #[trigger] m1.assocs[l] by {
        if l < m.assocs.len() {
            assert(m.assocs[k] != m.assocs[l]);
        } else {
            assert(m1.assocs[l] == (item_id, tid));
            assert(m.assocs[k] != (item_id, tid));
        }
    }
    assert forall|k: int| 0 <= k < m1.assocs.len() implies m1.has_item(
        (#[trigger] m1.assocs[k]).0,
    ) && m1.has_tag_id(m1.assocs[k].1) by {
        if k < m.assocs.len() {
            assert(m.has_item(m.assocs[k].0) && m.has_tag_id(m.assocs[k].1));
            let wi = choose|j: int|
                0 <= j < m.items.len() && (#[trigger] m.items[j]).id == m.assocs[k].0;
            assert(0 <= wi < m1.items.len() && m1.items[wi].id == m1.assocs[k].0);
            let wt = choose|j: int|
                0 <= j < m.tags.len() && (#[trigger] m.tags[j]).id == m.assocs[k].1;
            assert(0 <= wt < m1.tags.len() && m1.tags[wt].id == m1.assocs[k].1);
        } else {
            assert(m1.assocs[k] == (item_id, tid));
            let wi = choose|j: int| 0 <= j < m.items.len() && (#[trigger] m.items[j]).id == item_id;
            assert(0 <= wi < m1.items.len() && m1.items[wi].id == item_id);
            let wt = choose|j: int| 0 <= j < m.tags.len() && (#[trigger] m.tags[j]).id == tid;
            assert(0 <= wt < m1.tags.len() && m1.tags[wt].id == tid);
        }
    }
}

/// Attaching one raw tag preserves well-formedness, leaves the item rows
/// alone, and extends the associations by at most one pair, owned by the item.
pub proof fn lemma_attach_one(m: StoreModel, item_id: int, raw: Seq<char>)
    requires
        m.wf(),
        m.has_item(item_id),
        m.has_tag_named(spec_trim(raw)) || m.next_tag_id < i64::MAX,
    ensures
        ({
            let (m1, c) = spec_attach_one(m, item_id, raw);
            &&& m1.wf()
            &&& m1.has_item(item_id)
            &&& m1.items == m.items
            &&& m1.next_item_id == m.next_item_id
            &&& m.next_tag_id <= m1.next_tag_id <= m.next_tag_id + 1
            &&& 0 <= c <= 1
            &&& m1.assocs.len() == m.assocs.len() + c
            &&& forall|k: int| 0 <= k < m.assocs.len() ==> m1.assocs[k] == m.assocs[k]
            &&& forall|k: int|
                m.assocs.len() <= k < m1.assocs.len() ==> (#[trigger] m1.assocs[k]).0 == item_id
        }),
{
    let t = spec_trim(raw);
    if t.len() == 0 {
    } else {
        lemma_find_or_create_wf(m, t);
        let mf = spec_find_or_create(m, t).0;
        let tid = spec_find_or_create(m, t).1;
        assert(mf.has_item(item_id)) by {
            let wi = choose|j: int| 0 <= j < m.items.len() && (#[trigger] m.items[j]).id == item_id;
            assert(0 <= wi < mf.items.len() && mf.items[wi].id == item_id);
        }
        if !mf.has_assoc(item_id, tid) {
            lemma_push_assoc_wf(mf, item_id, tid);
            let m1 = spec_attach_one(m, item_id, raw).0;
            assert(m1.has_item(item_id)) by {
                let wi = choose|j: int|
                    0 <= j < mf.items.len() && (#[trigger] mf.items[j]).id == item_id;
                assert(0 <= wi < m1.items.len() && m1.items[wi].id == item_id);
            }
        }
    }
}

/// Attaching a list of raw tags preserves well-formedness, leaves the item
/// rows alone, and extends the associations by `count` pairs owned by the item.
pub proof fn lemma_attach_tags(m: StoreModel, item_id: int, raws: Seq<Seq<char>>)
    requires
        m.wf(),
        m.has_item(item_id),
        m.next_tag_id + raws.len() <= i64::MAX,
    ensures
        ({
            let (m2, c) = spec_attach_tags(m, item_id, raws);
            &&& m2.wf()
            &&& m2.has_item(item_id)
            &&& m2.items == m.items
            &&& m2.next_item_id == m.next_item_id
            &&& m.next_tag_id <= m2.next_tag_id <= m.next_tag_id + raws.len()
            &&& 0 <= c <= raws.len()
            &&& m2.assocs.len() == m.assocs.len() + c
            &&& forall|k: int| 0 <= k < m.assocs.len() ==> m2.assocs[k] == m.assocs[k]
            &&& forall|k: int|
                m.assocs.len() <= k < m2.assocs.len() ==> (#[trigger] m2.assocs[k]).0 == item_id
        }),
    decreases raws.len(),
{
    if raws.len() > 0 {
        lemma_attach_one(m, item_id, raws.first());
        let (m1, c1) = spec_attach_one(m, item_id, raws.first());
        lemma_attach_tags(m1, item_id, raws.drop_first());
    }
}

impl Store {
    /// Attach each tag of `tags` to the item: trim, skip empties, find or
    /// create the tag, add the association when absent. Returns the number of
    /// newly added associations.
    pub(crate) fn attach_tags(&mut self, item_id: i64, tags: &[String]) -> (count: usize)
        requires
            old(self)@.wf(),
            old(self)@.has_item(item_id as int),
            old(self)@.next_tag_id + tags@.len() <= i64::MAX,
        ensures
            final(self)@ == spec_attach_tags(old(self)@, item_id as int, names_of(tags@)).0,
            count as int == spec_attach_tags(old(self)@, item_id as int, names_of(tags@)).1,
            final(self)@.wf(),
    {
        let ghost m0 = self@;
        let ghost raws = names_of(tags@);
        let n = tags.len();
        let mut count: usize = 0;
        let mut i: usize = 0;
        proof {
            assert(raws.skip(0) =~= raws);
        }
        while i < n
            invariant
                n == tags@.len(),
                i <= n,
                self@.wf(),
                self@.has_item(item_id as int),
                raws == names_of(tags@),
                self@.next_tag_id + (n - i) <= i64::MAX,
                spec_attach_tags(m0, item_id as int, raws).0 == spec_attach_tags(
                    self@,
                    item_id as int,
                    raws.skip(i as int),
                ).0,
                spec_attach_tags(m0, item_id as int, raws).1 == count + spec_attach_tags(
                    self@,
                    item_id as int,
                    raws.skip(i as int),
                ).1,
                count <= i,
            decreases n - i,
        {
            let ghost pre = self@;
            let ghost rest = raws.skip(i as int);
            proof {
                assert(rest.len() == n - i);
                assert(rest.first() == raws[i as int]);
                assert(rest.drop_first() =~= raws.skip(i + 1 as int));
                lemma_attach_one(pre, item_id as int, rest.first());
            }
            let trimmed = crate::text::trim_str(tags[i].as_str());
            assert(trimmed@ == spec_trim(raws[i as int]));
            let mut added: usize = 0;
            if trimmed.as_str().unicode_len() > 0 {
                match find_or_create_tag(self, trimmed.as_str()) {
                    Ok(tid) => {
                        proof {
                            lemma_find_or_create_wf(pre, trimmed@);
                        }
                        if !self.assoc_present(item_id, tid) {
                            let ghost mid = self@;
                            self.assocs.push((item_id, tid));
                            proof {
                                assert(self@.assocs =~= mid.assocs.push(
                                    (item_id as int, tid as int),
                                ));
                                assert(self@.items =~= mid.items);
                                assert(self@.tags =~= mid.tags);
                                assert(self@ =~= spec_attach_one(
                                    pre,
                                    item_id as int,
                                    rest.first(),
                                ).0);
                            }
                            added = 1;
                        } else {
                            proof {
                                assert(self@ =~= spec_attach_one(
                                    pre,
                                    item_id as int,
                                    rest.first(),
                                ).0);
                            }
                        }
                    },
                    Err(_) => {
                        proof {
                            assert(false);
                        }
                    },
                }
            } else {
                proof {
                    assert(self@ =~= spec_attach_one(pre, item_id as int, rest.first()).0);
                }
            }
            proof {
                assert(added as int == spec_attach_one(pre, item_id as int, rest.first()).1);
            }
            count = count + added;
            i = i + 1;
        }
        proof {
            assert(raws.skip(n as int).len() == 0);
        }
        count
    }
}

/// The condition under which an insert succeeds: the storage key is fresh and
/// the identifier counters have room for the item and, conservatively, for one
/// new tag per requested tag.
pub open spec fn spec_insert_ok(m: StoreModel, hash: Seq<char>, ntags: int) -> bool {
    &&& !m.has_hash(hash)
    &&& m.next_item_id < i64::MAX
    &&& m.next_tag_id + ntags <= i64::MAX
}

/// Result of inserting an item: the row is appended with the next free
/// identifier, then each tag is attached as `spec_attach_tags` describes.
pub open spec fn spec_insert(
    m: StoreModel,
    name: Seq<char>,
    path: Seq<char>,
    hash: Seq<char>,
    kind: Seq<char>,
    at: int,
    raws: Seq<Seq<char>>,
) -> (StoreModel, int) {
    let id = m.next_item_id;
    let m1 = StoreModel {
        items: m.items.push(ItemModel { id, name, path, hash, kind, at }),
        next_item_id: id + 1,
        ..m
    };
    (spec_attach_tags(m1, id, raws).0, id)
}

/// Pushing a fresh item row preserves well-formedness.
pub proof fn lemma_push_item_wf(m: StoreModel, it: ItemModel)
    requires
        m.wf(),
        !m.has_hash(it.hash),
        it.id == m.next_item_id,
        m.next_item_id < i64::MAX,
    ensures
        ({
            let m1 = StoreModel {
                items: m.items.push(it),
                next_item_id: m.next_item_id + 1,
                ..m
            };
            &&& m1.wf()
            &&& m1.has_item(it.id)
        }),
{
    let m1 = StoreModel { items: m.items.push(it), next_item_id: m.next_item_id + 1, ..m };
    assert(m1.items[m.items.len() as int] == it);
    assert forall|i: int, j: int| 0 <= i < j < m1.items.len() implies (#[trigger] m1.items[i]).hash
        != (#[trigger] m1.items[j]).hash by {
        if j < m.items.len() {
            assert(m.items[i].hash != m.items[j].hash);
        } else {
            assert(m1.items[j] == it);
            if m.items[i].hash == it.hash {
                assert(m.has_hash(it.hash));
            }
        }
    }
    assert forall|k: int| 0 <= k < m1.assocs.len() implies m1.has_item(
        (#[trigger] m1.assocs[k]).0,
    ) && m1.has_tag_id(m1.assocs[k].1) by {
        assert(m.has_item(m.assocs[k].0) && m.has_tag_id(m.assocs[k].1));
        let wi = choose|j: int|
            0 <= j < m.items.len() && (#[trigger] m.items[j]).id == m.assocs[k].0;
        assert(0 <= wi < m1.items.len() && m1.items[wi].id == m1.assocs[k].0);
        let wt = choose|j: int| 0 <= j < m.tags.len() && (#[trigger] m.tags[j]).id == m.assocs[k].1;
        assert(0 <= wt < m1.tags.len() && m1.tags[wt].id == m1.assocs[k].1);
    }
}

/// Manager of item rows: insertion, retrieval, listing, display-number
/// resolution and deletion.
pub struct ItemManager;

impl ItemManager {
    /// Insert an item row with its tags, all or nothing.
    ///
    /// Fails, leaving the store unchanged, exactly when the storage key is
    /// already present or an identifier counter has no room; the new durable
    /// identifier is returned otherwise.
    pub fn insert(
        store: &mut Store,
        original_name: &str,
        original_path: &str,
        stored_hash: &str,
        item_type: &str,
        tags: &[String],
        pushed_at: i64,
    ) -> (r: Result<i64, FstkError>)
        requires
            old(store)@.wf(),
        ensures
            final(store)@.wf(),
            spec_insert_ok(old(store)@, stored_hash@, tags@.len() as int) ==> ({
                let (m2, id) = spec_insert(
                    old(store)@,
                    original_name@,
                    original_path@,
                    stored_hash@,
                    item_type@,
                    pushed_at as int,
                    names_of(tags@),
                );
                &&& r is Ok
                &&& r->Ok_0 as int == id
                &&& final(store)@ == m2
            }),
            !spec_insert_ok(old(store)@, stored_hash@, tags@.len() as int) ==> ({
                &&& r is Err
                &&& r->Err_0 is DatabaseError
                &&& final(store)@ == old(store)@
            }),
    {
        let ghost m0 = store@;
        // The storage key must be fresh: the store's uniqueness backstop.
        let needle = String::from_str(stored_hash);
        let n = store.items.len();
        let mut j: usize = 0;
        while j < n
            invariant
                n == store@.items.len(),
                j <= n,
                needle@ == stored_hash@,
                store@ == m0,
                m0.wf(),
                forall|k: int| 0 <= k < j ==> (#[trigger] store@.items[k]).hash != stored_hash@,
            decreases n - j,
        {
            if store.items[j].stored_hash == needle {
                assert(store@.items[j as int].hash == stored_hash@);
                return Err(
                    FstkError::DatabaseError(
                        String::from_str("UNIQUE constraint failed: stack_items.stored_hash"),
                    ),
                );
            }
            j = j + 1;
        }
        assert(!m0.has_hash(stored_hash@));
        if store.next_item_id == i64::MAX {
            return Err(FstkError::DatabaseError(String::from_str("item identifier space exhausted")));
        }
        if tags.len() as u64 > (i64::MAX - store.next_tag_id) as u64 {
            return Err(FstkError::DatabaseError(String::from_str("tag identifier space exhausted")));
        }
        assert(spec_insert_ok(m0, stored_hash@, tags@.len() as int));
        let id = store.next_item_id;
        let row = ItemRow {
            id,
            original_name: String::from_str(original_name),
            original_path: String::from_str(original_path),
            stored_hash: needle,
            item_type: String::from_str(item_type),
            pushed_at,
        };
        let ghost it = row@;
        store.items.push(row);
        store.next_item_id = id + 1;
        proof {
            let m1 = StoreModel {
                items: m0.items.push(it),
                next_item_id: m0.next_item_id + 1,
                ..m0
            };
            assert(store@.items =~= m1.items);
            assert(store@ =~= m1);
            lemma_push_item_wf(m0, it);
        }
        store.attach_tags(id, tags);
        Ok(id)
    }
}

/// Mathematical model of a `StackItem`: an item row with its tag names.
#[verifier::ext_equal]
pub ghost struct StackItemModel {
    pub id: int,
    pub name: Seq<char>,
    pub path: Seq<char>,
    pub hash: Seq<char>,
    pub kind: Seq<char>,
    pub at: int,
    pub tags: Seq<Seq<char>>,
}

/// Index of the item row with this identifier, or -1 if there is none.
pub open spec fn find_item_model(items: Seq<ItemModel>, id: int) -> int
    decreases items.len(),
{
    if items.len() == 0 {
        -1
    } else if items.last().id == id {
        items.len() - 1
    } else {
        find_item_model(items.drop_last(), id)
    }
}

pub proof fn lemma_find_item_model(items: Seq<ItemModel>, id: int)
    ensures
        -1 <= find_item_model(items, id) < items.len(),
        find_item_model(items, id) >= 0 ==> items[find_item_model(items, id)].id == id,
        find_item_model(items, id) == -1 ==> forall|j: int|
            0 <= j < items.len() ==> (#[trigger] items[j]).id != id,
    decreases items.len(),
{
    if items.len() > 0 && items.last().id != id {
        lemma_find_item_model(items.drop_last(), id);
        if find_item_model(items, id) == -1 {
            assert forall|j: int| 0 <= j < items.len() implies (#[trigger] items[j]).id != id by {
                if j < items.len() - 1 {
                    assert(items.drop_last()[j] == items[j]);
                }
            }
        }
    }
}

/// The names of the tags of `tags` that are associated with the item, in
/// tag-row order.
pub open spec fn spec_tag_names_sub(m: StoreModel, tags: Seq<TagModel>, item_id: int) -> Seq<
    Seq<char>,
>
    decreases tags.len(),
{
    if tags.len() == 0 {
        Seq::empty()
    } else {
        let rest = spec_tag_names_sub(m, tags.drop_last(), item_id);
        if m.has_assoc(item_id, tags.last().id) {
            rest.push(tags.last().name)
        } else {
            rest
        }
    }
}

/// The names of the item's tags, in tag-row order.
pub open spec fn spec_item_tag_names(m: StoreModel, item_id: int) -> Seq<Seq<char>> {
    spec_tag_names_sub(m, m.tags, item_id)
}

/// The names of the item's tags, sorted alphabetically for display.
pub open spec fn spec_sorted_tag_names(m: StoreModel, item_id: int) -> Seq<Seq<char>> {
    spec_sort_names(spec_item_tag_names(m, item_id))
}

/// The item carries every requested tag name; it may carry more.
pub open spec fn spec_item_matches(m: StoreModel, item_id: int, req: Seq<Seq<char>>) -> bool {
    forall|k: int| 0 <= k < req.len() ==> m.item_has_tag(item_id, #[trigger] req[k])
}

/// The `StackItem` record of one item row under model `m`.
pub open spec fn spec_stack_item(m: StoreModel, it: ItemModel) -> StackItemModel {
    StackItemModel {
        id: it.id,
        name: it.name,
        path: it.path,
        hash: it.hash,
        kind: it.kind,
        at: it.at,
        tags: spec_sorted_tag_names(m, it.id),
    }
}

/// The records of the items of `items` whose tag set is a superset of the
/// requested names, in item-row order.
pub open spec fn spec_list_sub(m: StoreModel, items: Seq<ItemModel>, req: Seq<Seq<char>>) -> Seq<
    StackItemModel,
>
    decreases items.len(),
{
    if items.len() == 0 {
        Seq::empty()
    } else {
        let rest = spec_list_sub(m, items.drop_last(), req);
        if spec_item_matches(m, items.last().id, req) {
            rest.push(spec_stack_item(m, items.last()))
        } else {
            rest
        }
    }
}

/// The listing of model `m` filtered by the requested tag names: all items
/// when the request is empty, otherwise exactly the items whose tag set is a
/// superset of the request. Order is item-row (insertion) order; callers sort
/// by display order themselves.
pub open spec fn spec_list(m: StoreModel, req: Seq<Seq<char>>) -> Seq<StackItemModel> {
    spec_list_sub(m, m.items, req)
}

/// Manager of tag rows: association lookup and maintenance.
pub struct TagManager;

impl TagManager {
    /// The names of the tags carried by this item, ordered alphabetically.
    pub fn get_for_item(store: &Store, item_id: i64) -> (r: Vec<String>)
        ensures
            names_of(r@) == spec_sorted_tag_names(store@, item_id as int),
    {
        let n = store.tags.len();
        let mut r: Vec<String> = Vec::new();
        let mut j: usize = 0;
        proof {
            assert(store@.tags.take(0) =~= Seq::<TagModel>::empty());
            assert(names_of(r@) =~= spec_tag_names_sub(
                store@,
                store@.tags.take(0),
                item_id as int,
            ));
        }
        while j < n
            invariant
                n == store@.tags.len(),
                j <= n,
                names_of(r@) == spec_tag_names_sub(store@, store@.tags.take(j as int), item_id as int),
            decreases n - j,
        {
            let ghost pre = names_of(r@);
            proof {
                assert(store@.tags.take(j + 1 as int).drop_last() =~= store@.tags.take(j as int));
                assert(store@.tags.take(j + 1 as int).last() == store@.tags[j as int]);
            }
            if store.assoc_present(item_id, store.tags[j].id) {
                r.push(store.tags[j].name.clone());
                proof {
                    assert(names_of(r@) =~= pre.push(store@.tags[j as int].name));
                }
            }
            j = j + 1;
        }
        proof {
            assert(store@.tags.take(n as int) =~= store@.tags);
        }
        sort_strings(r)
    }
}

impl Store {
    /// Whether the item carries a tag with this exact name.
    pub(crate) fn item_carries(&self, item_id: i64, name: &String) -> (r: bool)
        requires
            self@.wf(),
        ensures
            r == self@.item_has_tag(item_id as int, name@),
    {
        match self.find_tag_index(name) {
            Some(j) => {
                let present = self.assoc_present(item_id, self.tags[j].id);
                proof {
                    if present {
                        assert(self@.item_has_tag(item_id as int, name@));
                    } else if self@.item_has_tag(item_id as int, name@) {
                        let w = choose|j2: int|
                            0 <= j2 < self@.tags.len() && (#[trigger] self@.tags[j2]).name == name@
                                && self@.has_assoc(item_id as int, self@.tags[j2].id);
                        // Tag names are unique, so the witness is the found row.
                        assert(self@.tags[j as int].name == self@.tags[w].name);
                        if j as int != w {
                            assert(false);
                        }
                        assert(false);
                    }
                }
                present
            },
            None => {
                proof {
                    lemma_find_tag_model(self@.tags, name@);
                    if self@.item_has_tag(item_id as int, name@) {
                        let w = choose|j2: int|
                            0 <= j2 < self@.tags.len() && (#[trigger] self@.tags[j2]).name == name@
                                && self@.has_assoc(item_id as int, self@.tags[j2].id);
                        assert(false);
                    }
                }
                false
            },
        }
    }

    /// Whether the item carries every requested tag name.
    pub(crate) fn item_matches(&self, item_id: i64, req: &[String]) -> (r: bool)
        requires
            self@.wf(),
        ensures
            r == spec_item_matches(self@, item_id as int, names_of(req@)),
    {
        let n = req.len();
        let mut k: usize = 0;
        while k < n
            invariant
                n == req@.len(),
                k <= n,
                self@.wf(),
                forall|l: int|
                    0 <= l < k ==> self@.item_has_tag(item_id as int, names_of(req@)[l]),
            decreases n - k,
        {
            if !self.item_carries(item_id, &req[k]) {
                proof {
                    assert(!self@.item_has_tag(item_id as int, names_of(req@)[k as int]));
                }
                return false;
            }
            proof {
                assert(self@.item_has_tag(item_id as int, names_of(req@)[k as int]));
            }
            k = k + 1;
        }
        true
    }

    /// The `StackItem` record of item row `j`.
    pub(crate) fn make_stack_item(&self, j: usize) -> (r: StackItem)
        requires
            j < self@.items.len(),
        ensures
            r@ == spec_stack_item(self@, self@.items[j as int]),
    {
        let row = &self.items[j];
        let tags = TagManager::get_for_item(self, row.id);
        StackItem {
            id: row.id,
            original_name: row.original_name.clone(),
            original_path: row.original_path.clone(),
            stored_hash: row.stored_hash.clone(),
            item_type: row.item_type.clone(),
            pushed_at: row.pushed_at,
            tags,
        }
    }
}

impl ItemManager {
    /// The item with this identifier, with its tags, or `None` if absent.
    pub fn get_by_id(store: &Store, id: i64) -> (r: Option<StackItem>)
        requires
            store@.wf(),
        ensures
            r is Some <==> store@.has_item(id as int),
            r is Some ==> r->Some_0@ == spec_stack_item(
                store@,
                store@.items[find_item_model(store@.items, id as int)],
            ),
    {
        let n = store.items.len();
        let mut j: usize = 0;
        while j < n
            invariant
                n == store@.items.len(),
                j <= n,
                store@.wf(),
                forall|k: int| 0 <= k < j ==> (#[trigger] store@.items[k]).id != id as int,
            decreases n - j,
        {
            if store.items[j].id == id {
                proof {
                    assert(store@.items[j as int].id == id as int);
                    lemma_find_item_model(store@.items, id as int);
                    let jf = find_item_model(store@.items, id as int);
                    assert(jf >= 0);
                    assert(store@.items[jf].id == id as int);
                    if jf != j as int {
                        assert(false);  // two items with one identifier contradict wf
                    }
                }
                return Some(store.make_stack_item(j));
            }
            j = j + 1;
        }
        proof {
            if store@.has_item(id as int) {
                let w = choose|k: int|
                    0 <= k < store@.items.len() && (#[trigger] store@.items[k]).id == id as int;
                assert(false);
            }
        }
        None
    }

    /// All items when `tags` is empty, otherwise exactly the items whose tag
    /// set is a superset of the requested names, each with its tags attached,
    /// in insertion order.
    pub fn list(store: &Store, tags: &[String]) -> (r: Vec<StackItem>)
        requires
            store@.wf(),
        ensures
            crate::item::stack_models(r@) == spec_list(store@, names_of(tags@)),
    {
        let n = store.items.len();
        let mut r: Vec<StackItem> = Vec::new();
        let mut j: usize = 0;
        proof {
            assert(store@.items.take(0) =~= Seq::<ItemModel>::empty());
            assert(crate::item::stack_models(r@) =~= spec_list_sub(
                store@,
                store@.items.take(0),
                names_of(tags@),
            ));
        }
        while j < n
            invariant
                n == store@.items.len(),
                j <= n,
                store@.wf(),
                crate::item::stack_models(r@) == spec_list_sub(
                    store@,
                    store@.items.take(j as int),
                    names_of(tags@),
                ),
            decreases n - j,
        {
            let ghost pre = crate::item::stack_models(r@);
            proof {
                assert(store@.items.take(j + 1 as int).drop_last() =~= store@.items.take(j as int));
                assert(store@.items.take(j + 1 as int).last() == store@.items[j as int]);
            }
            if store.item_matches(store.items[j].id, tags) {
                let it = store.make_stack_item(j);
                r.push(it);
                proof {
                    assert(crate::item::stack_models(r@) =~= pre.push(
                        spec_stack_item(store@, store@.items[j as int]),
                    ));
                }
            }
            j = j + 1;
        }
        proof {
            assert(store@.items.take(n as int) =~= store@.items);
        }
        r
    }
}

/// Index of the tag row with this identifier, or -1 if there is none.
pub open spec fn find_tag_id_model(tags: Seq<TagModel>, tid: int) -> int
    decreases tags.len(),
{
    if tags.len() == 0 {
        -1
    } else if tags.last().id == tid {
        tags.len() - 1
    } else {
        find_tag_id_model(tags.drop_last(), tid)
    }
}

pub proof fn lemma_find_tag_id_model(tags: Seq<TagModel>, tid: int)
    ensures
        -1 <= find_tag_id_model(tags, tid) < tags.len(),
        find_tag_id_model(tags, tid) >= 0 ==> tags[find_tag_id_model(tags, tid)].id == tid,
        find_tag_id_model(tags, tid) == -1 ==> forall|j: int|
            0 <= j < tags.len() ==> (#[trigger] tags[j]).id != tid,
    decreases tags.len(),
{
    if tags.len() > 0 && tags.last().id != tid {
        lemma_find_tag_id_model(tags.drop_last(), tid);
        if find_tag_id_model(tags, tid) == -1 {
            assert forall|j: int| 0 <= j < tags.len() implies (#[trigger] tags[j]).id != tid by {
                if j < tags.len() - 1 {
                    assert(tags.drop_last()[j] == tags[j]);
                }
            }
        }
    }
}

/// Index of the association equal to `pair`, or -1 if there is none.
pub open spec fn find_assoc_model(assocs: Seq<(int, int)>, pair: (int, int)) -> int
    decreases assocs.len(),
{
    if assocs.len() == 0 {
        -1
    } else if assocs.last() == pair {
        assocs.len() - 1
    } else {
        find_assoc_model(assocs.drop_last(), pair)
    }
}

pub proof fn lemma_find_assoc_model(assocs: Seq<(int, int)>, pair: (int, int))
    ensures
        -1 <= find_assoc_model(assocs, pair) < assocs.len(),
        find_assoc_model(assocs, pair) >= 0 ==> assocs[find_assoc_model(assocs, pair)] == pair,
        find_assoc_model(assocs, pair) == -1 ==> forall|k: int|
            0 <= k < assocs.len() ==> #[trigger] assocs[k] != pair,
    decreases assocs.len(),
{
    if assocs.len() > 0 && assocs.last() != pair {
        lemma_find_assoc_model(assocs.drop_last(), pair);
        if find_assoc_model(assocs, pair) == -1 {
            assert forall|k: int| 0 <= k < assocs.len() implies #[trigger] assocs[k] != pair by {
                if k < assocs.len() - 1 {
                    assert(assocs.drop_last()[k] == assocs[k]);
                }
            }
        }
    }
}

/// Removing one association preserves well-formedness and touches nothing else.
proof fn lemma_remove_assoc_wf(m: StoreModel, k: int)
    requires
        m.wf(),
        0 <= k < m.assocs.len(),
    ensures
        (StoreModel { assocs: m.assocs.remove(k), ..m }).wf(),
{
    let m1 = StoreModel { assocs: m.assocs.remove(k), ..m };
    assert forall|a: int, b: int| 0 <= a < b < m1.assocs.len() implies #[trigger] m1.assocs[a]
        != #[trigger] m1.assocs[b] by {
        let a0 = if a < k { a } else { a + 1 };
        let b0 = if b < k { b } else { b + 1 };
        assert(m1.assocs[a] == m.assocs[a0] && m1.assocs[b] == m.assocs[b0]);
        assert(m.assocs[a0] != m.assocs[b0]);
    }
    assert forall|l: int| 0 <= l < m1.assocs.len() implies m1.has_item(
        (#[trigger] m1.assocs[l]).0,
    ) && m1.has_tag_id(m1.assocs[l].1) by {
        let l0 = if l < k { l } else { l + 1 };
        assert(m1.assocs[l] == m.assocs[l0]);
        assert(m.has_item(m.assocs[l0].0) && m.has_tag_id(m.assocs[l0].1));
        let wi = choose|j: int|
            0 <= j < m.items.len() && (#[trigger] m.items[j]).id == m.assocs[l0].0;
        assert(0 <= wi < m1.items.len() && m1.items[wi].id == m1.assocs[l].0);
        let wt = choose|j: int|
            0 <= j < m.tags.len() && (#[trigger] m.tags[j]).id == m.assocs[l0].1;
        assert(0 <= wt < m1.tags.len() && m1.tags[wt].id == m1.assocs[l].1);
    }
}

/// Result of cleaning one candidate tag: if it has no remaining association,
/// its row is removed (count 1 when a row was present).
pub open spec fn spec_cleanup_one(m: StoreModel, tid: int) -> (StoreModel, int) {
    let j = find_tag_id_model(m.tags, tid);
    if !m.tag_in_use(tid) && j >= 0 {
        (StoreModel { tags: m.tags.remove(j), ..m }, 1)
    } else {
        (m, 0)
    }
}

/// Result of cleaning each candidate tag in order, with the number of tag
/// rows actually deleted.
pub open spec fn spec_cleanup(m: StoreModel, tids: Seq<int>) -> (StoreModel, int)
    decreases tids.len(),
{
    if tids.len() == 0 {
        (m, 0)
    } else {
        let s1 = spec_cleanup_one(m, tids.first());
        let s2 = spec_cleanup(s1.0, tids.drop_first());
        (s2.0, s1.1 + s2.1)
    }
}

/// Cleaning one candidate preserves well-formedness and touches only tag rows.
pub proof fn lemma_cleanup_one_wf(m: StoreModel, tid: int)
    requires
        m.wf(),
    ensures
        ({
            let (m1, c) = spec_cleanup_one(m, tid);
            &&& m1.wf()
            &&& m1.items == m.items
            &&& m1.assocs == m.assocs
            &&& m1.next_item_id == m.next_item_id
            &&& m1.next_tag_id == m.next_tag_id
            &&& 0 <= c <= 1
            &&& m1.tags.len() == m.tags.len() - c
        }),
{
    lemma_find_tag_id_model(m.tags, tid);
    let j = find_tag_id_model(m.tags, tid);
    if !m.tag_in_use(tid) && j >= 0 {
        let m1 = spec_cleanup_one(m, tid).0;
        assert forall|a: int, b: int| 0 <= a < b < m1.tags.len() implies (#[trigger] m1.tags[a]).id
            != (#[trigger] m1.tags[b]).id && m1.tags[a].name != m1.tags[b].name by {
            let a0 = if a < j { a } else { a + 1 };
            let b0 = if b < j { b } else { b + 1 };
            assert(m1.tags[a] == m.tags[a0] && m1.tags[b] == m.tags[b0]);
        }
        assert forall|a: int| 0 <= a < m1.tags.len() implies 0 < (#[trigger] m1.tags[a]).id
            < m.next_tag_id by {
            let a0 = if a < j { a } else { a + 1 };
            assert(m1.tags[a] == m.tags[a0]);
        }
        assert forall|k: int| 0 <= k < m1.assocs.len() implies m1.has_item(
            (#[trigger] m1.assocs[k]).0,
        ) && m1.has_tag_id(m1.assocs[k].1) by {
            assert(m1.assocs[k] == m.assocs[k]);
            assert(m.has_item(m.assocs[k].0) && m.has_tag_id(m.assocs[k].1));
            let wi = choose|w: int|
                0 <= w < m.items.len() && (#[trigger] m.items[w]).id == m.assocs[k].0;
            assert(0 <= wi < m1.items.len() && m1.items[wi].id == m1.assocs[k].0);
            let wt = choose|w: int|
                0 <= w < m.tags.len() && (#[trigger] m.tags[w]).id == m.assocs[k].1;
            // The removed tag was not in use, so the referenced tag survives.
            assert(m.assocs[k].1 != tid) by {
                if m.assocs[k].1 == tid {
                    assert(m.tag_in_use(tid));
                }
            }
            assert(wt != j);
            let wt1 = if wt < j { wt } else { wt - 1 };
            assert(m1.tags[wt1] == m.tags[wt]);
            assert(0 <= wt1 < m1.tags.len() && m1.tags[wt1].id == m1.assocs[k].1);
        }
    }
}

/// Cleaning a list of candidates preserves well-formedness and touches only
/// tag rows.
pub proof fn lemma_cleanup_wf(m: StoreModel, tids: Seq<int>)
    requires
        m.wf(),
    ensures
        ({
            let (m1, c) = spec_cleanup(m, tids);
            &&& m1.wf()
            &&& m1.items == m.items
            &&& m1.assocs == m.assocs
            &&& m1.next_item_id == m.next_item_id
            &&& m1.next_tag_id == m.next_tag_id
            &&& 0 <= c <= m.tags.len()
            &&& m1.tags.len() == m.tags.len() - c
        }),
    decreases tids.len(),
{
    if tids.len() > 0 {
        lemma_cleanup_one_wf(m, tids.first());
        lemma_cleanup_wf(spec_cleanup_one(m, tids.first()).0, tids.drop_first());
    }
}

/// The identifiers of a slice of machine integers.
pub open spec fn ids_of(s: Seq<i64>) -> Seq<int> {
    s.map_values(|x: i64| x as int)
}

impl Store {
    /// Whether some association references this tag.
    pub(crate) fn tag_used(&self, tag_id: i64) -> (r: bool)
        ensures
            r == self@.tag_in_use(tag_id as int),
    {
        let n = self.assocs.len();
        let mut k: usize = 0;
        while k < n
            invariant
                n == self.assocs.len(),
                k <= n,
                forall|l: int| 0 <= l < k ==> (#[trigger] self@.assocs[l]).1 != tag_id as int,
            decreases n - k,
        {
            if self.assocs[k].1 == tag_id {
                assert(self@.assocs[k as int].1 == tag_id as int);
                return true;
            }
            k = k + 1;
        }
        false
    }

    /// Index of the tag row with this identifier, if any.
    pub(crate) fn find_tag_id_index(&self, tag_id: i64) -> (r: Option<usize>)
        requires
            self@.wf(),
        ensures
            match r {
                Some(j) => j as int == find_tag_id_model(self@.tags, tag_id as int),
                None => find_tag_id_model(self@.tags, tag_id as int) == -1,
            },
    {
        let n = self.tags.len();
        let mut j: usize = 0;
        while j < n
            invariant
                n == self.tags.len(),
                j <= n,
                self@.wf(),
                forall|k: int| 0 <= k < j ==> (#[trigger] self@.tags[k]).id != tag_id as int,
            decreases n - j,
        {
            if self.tags[j].id == tag_id {
                proof {
                    assert(self@.tags[j as int].id == tag_id as int);
                    lemma_find_tag_id_model(self@.tags, tag_id as int);
                    let jf = find_tag_id_model(self@.tags, tag_id as int);
                    assert(jf >= 0);
                    assert(self@.tags[jf].id == tag_id as int);
                    if jf != j as int {
                        assert(false);  // duplicate tag identifiers contradict wf
                    }
                }
                return Some(j);
            }
            j = j + 1;
        }
        proof {
            lemma_find_tag_id_model(self@.tags, tag_id as int);
            let jf = find_tag_id_model(self@.tags, tag_id as int);
            if jf >= 0 {
                assert(self@.tags[jf].id == tag_id as int);
                assert(false);
            }
        }
        None
    }

    /// Index of the item row with this identifier, if any.
    pub(crate) fn find_item_index(&self, id: i64) -> (r: Option<usize>)
        requires
            self@.wf(),
        ensures
            match r {
                Some(j) => j as int == find_item_model(self@.items, id as int)
                    && self@.items[j as int].id == id as int && self@.has_item(id as int),
                None => !self@.has_item(id as int) && find_item_model(self@.items, id as int)
                    == -1,
            },
    {
        let n = self.items.len();
        let mut j: usize = 0;
        while j < n
            invariant
                n == self.items.len(),
                j <= n,
                self@.wf(),
                forall|k: int| 0 <= k < j ==> (#[trigger] self@.items[k]).id != id as int,
            decreases n - j,
        {
            if self.items[j].id == id {
                proof {
                    assert(self@.items[j as int].id == id as int);
                    lemma_find_item_model(self@.items, id as int);
                    let jf = find_item_model(self@.items, id as int);
                    assert(jf >= 0);
                    assert(self@.items[jf].id == id as int);
                    if jf != j as int {
                        assert(false);  // duplicate item identifiers contradict wf
                    }
                }
                return Some(j);
            }
            j = j + 1;
        }
        proof {
            lemma_find_item_model(self@.items, id as int);
            let jf = find_item_model(self@.items, id as int);
            if jf >= 0 {
                assert(self@.items[jf].id == id as int);
                assert(false);
            }
            if self@.has_item(id as int) {
                let w = choose|k: int|
                    0 <= k < self@.items.len() && (#[trigger] self@.items[k]).id == id as int;
                assert(false);
            }
        }
        None
    }

    /// Index of the association equal to `(item_id, tag_id)`, if any.
    pub(crate) fn find_assoc_index(&self, item_id: i64, tag_id: i64) -> (r: Option<usize>)
        requires
            self@.wf(),
        ensures
            match r {
                Some(k) => k as int == find_assoc_model(
                    self@.assocs,
                    (item_id as int, tag_id as int),
                ),
                None => find_assoc_model(self@.assocs, (item_id as int, tag_id as int)) == -1,
            },
    {
        let ghost pair = (item_id as int, tag_id as int);
        let n = self.assocs.len();
        let mut k: usize = 0;
        while k < n
            invariant
                n == self.assocs.len(),
                k <= n,
                self@.wf(),
                pair == (item_id as int, tag_id as int),
                forall|l: int| 0 <= l < k ==> #[trigger] self@.assocs[l] != pair,
            decreases n - k,
        {
            let a = self.assocs[k];
            if a.0 == item_id && a.1 == tag_id {
                proof {
                    assert(self@.assocs[k as int] == pair);
                    lemma_find_assoc_model(self@.assocs, pair);
                    let kf = find_assoc_model(self@.assocs, pair);
                    assert(kf >= 0);
                    assert(self@.assocs[kf] == pair);
                    if kf != k as int {
                        assert(false);  // duplicate associations contradict wf
                    }
                }
                return Some(k);
            }
            k = k + 1;
        }
        proof {
            lemma_find_assoc_model(self@.assocs, pair);
            let kf = find_assoc_model(self@.assocs, pair);
            if kf >= 0 {
                assert(self@.assocs[kf] == pair);
                assert(false);
            }
        }
        None
    }
}

impl TagManager {
    /// Delete each candidate tag that has no remaining association. Tags still
    /// in use, and candidates with no row, are left alone. Returns the number
    /// of tag rows deleted.
    pub fn cleanup_orphaned_tags(store: &mut Store, tag_ids: &[i64]) -> (count: usize)
        requires
            old(store)@.wf(),
        ensures
            final(store)@.wf(),
            final(store)@ == spec_cleanup(old(store)@, ids_of(tag_ids@)).0,
            count as int == spec_cleanup(old(store)@, ids_of(tag_ids@)).1,
    {
        let ghost m0 = store@;
        let ghost tids = ids_of(tag_ids@);
        let n = tag_ids.len();
        let mut count: usize = 0;
        let mut i: usize = 0;
        proof {
            assert(tids.skip(0) =~= tids);
        }
        while i < n
            invariant
                n == tag_ids@.len(),
                i <= n,
                store@.wf(),
                tids == ids_of(tag_ids@),
                count <= i,
                spec_cleanup(m0, tids).0 == spec_cleanup(store@, tids.skip(i as int)).0,
                spec_cleanup(m0, tids).1 == count + spec_cleanup(store@, tids.skip(i as int)).1,
            decreases n - i,
        {
            let ghost pre = store@;
            let ghost rest = tids.skip(i as int);
            proof {
                assert(rest.len() == n - i);
                assert(rest.first() == tids[i as int]);
                assert(rest.drop_first() =~= tids.skip(i + 1 as int));
                lemma_cleanup_one_wf(pre, rest.first());
            }
            let tid = tag_ids[i];
            let mut removed: usize = 0;
            if !store.tag_used(tid) {
                match store.find_tag_id_index(tid) {
                    Some(j) => {
                        proof {
                            lemma_find_tag_id_model(pre.tags, tid as int);
                        }
                        store.tags.remove(j);
                        removed = 1;
                        proof {
                            assert(store@.tags =~= pre.tags.remove(j as int));
                            assert(store@.items =~= pre.items);
                            assert(store@.assocs =~= pre.assocs);
                            assert(store@ =~= spec_cleanup_one(pre, rest.first()).0);
                        }
                    },
                    None => {
                        proof {
                            assert(store@ =~= spec_cleanup_one(pre, rest.first()).0);
                        }
                    },
                }
            } else {
                proof {
                    assert(store@ =~= spec_cleanup_one(pre, rest.first()).0);
                }
            }
            proof {
                assert(removed as int == spec_cleanup_one(pre, rest.first()).1);
            }
            count = count + removed;
            i = i + 1;
        }
        proof {
            assert(tids.skip(n as int).len() == 0);
        }
        count
    }
}

/// The tag rows of `tags` that have at least one association under `m`.
pub open spec fn spec_keep_used(m: StoreModel, tags: Seq<TagModel>) -> Seq<TagModel>
    decreases tags.len(),
{
    if tags.len() == 0 {
        Seq::empty()
    } else {
        let rest = spec_keep_used(m, tags.drop_last());
        if m.tag_in_use(tags.last().id) {
            rest.push(tags.last())
        } else {
            rest
        }
    }
}

/// Result of deleting every tag with zero current associations: the kept tag
/// rows and the number deleted.
pub open spec fn spec_delete_unused(m: StoreModel) -> (StoreModel, int) {
    let kept = spec_keep_used(m, m.tags);
    (StoreModel { tags: kept, ..m }, m.tags.len() - kept.len())
}

/// What `spec_keep_used` keeps: exactly the rows in use, in order, and
/// nothing new.
pub proof fn lemma_keep_used(m: StoreModel, tags: Seq<TagModel>)
    ensures
        ({
            let kept = spec_keep_used(m, tags);
            &&& kept.len() <= tags.len()
            &&& forall|e: TagModel| #[trigger] kept.contains(e) ==> tags.contains(e)
            &&& forall|e: TagModel| #[trigger] kept.contains(e) ==> m.tag_in_use(e.id)
            &&& forall|e: TagModel|
                tags.contains(e) && m.tag_in_use(e.id) ==> #[trigger] kept.contains(e)
        }),
    decreases tags.len(),
{
    if tags.len() > 0 {
        let dl = tags.drop_last();
        lemma_keep_used(m, dl);
        let rest = spec_keep_used(m, dl);
        let kept = spec_keep_used(m, tags);
        assert(forall|e: TagModel| #[trigger] dl.contains(e) ==> tags.contains(e)) by {
            assert forall|e: TagModel| #[trigger] dl.contains(e) implies tags.contains(e) by {
                let w = choose|w: int| 0 <= w < dl.len() && dl[w] == e;
                assert(tags[w] == e);
            }
        }
        assert(tags.contains(tags.last())) by {
            assert(tags[tags.len() - 1] == tags.last());
        }
        if m.tag_in_use(tags.last().id) {
            assert(kept == rest.push(tags.last()));
            assert forall|e: TagModel| #[trigger] kept.contains(e) implies tags.contains(e)
                && m.tag_in_use(e.id) by {
                let w = choose|w: int| 0 <= w < kept.len() && kept[w] == e;
                if w < rest.len() {
                    assert(rest.contains(e));
                } else {
                    assert(e == tags.last());
                }
            }
            assert forall|e: TagModel|
                tags.contains(e) && m.tag_in_use(e.id) implies #[trigger] kept.contains(e) by {
                let w = choose|w: int| 0 <= w < tags.len() && tags[w] == e;
                if w < tags.len() - 1 {
                    assert(dl[w] == e);
                    assert(dl.contains(e));
                    assert(rest.contains(e));
                    let w2 = choose|w2: int| 0 <= w2 < rest.len() && rest[w2] == e;
                    assert(kept[w2] == e);
                } else {
                    assert(kept[kept.len() - 1] == e);
                }
            }
        } else {
            assert(kept == rest);
            assert forall|e: TagModel|
                tags.contains(e) && m.tag_in_use(e.id) implies #[trigger] kept.contains(e) by {
                let w = choose|w: int| 0 <= w < tags.len() && tags[w] == e;
                if w < tags.len() - 1 {
                    assert(dl[w] == e);
                    assert(dl.contains(e));
                } else {
                    assert(e == tags.last());
                    assert(false);  // the last row is not in use yet e is
                }
            }
        }
    }
}

/// If every row of `tags` is in use, nothing is dropped.
pub proof fn lemma_keep_used_all(m: StoreModel, tags: Seq<TagModel>)
    requires
        forall|j: int| 0 <= j < tags.len() ==> m.tag_in_use((#[trigger] tags[j]).id),
    ensures
        spec_keep_used(m, tags) == tags,
    decreases tags.len(),
{
    if tags.len() > 0 {
        let dl = tags.drop_last();
        lemma_keep_used_all(m, dl);
        assert(m.tag_in_use(tags[tags.len() - 1].id));
        assert(spec_keep_used(m, tags) =~= dl.push(tags.last()));
        assert(dl.push(tags.last()) =~= tags);
    }
}

/// Deleting unused tags preserves well-formedness and touches only tag rows.
pub proof fn lemma_delete_unused_wf(m: StoreModel)
    requires
        m.wf(),
    ensures
        ({
            let (m1, c) = spec_delete_unused(m);
            &&& m1.wf()
            &&& m1.items == m.items
            &&& m1.assocs == m.assocs
            &&& 0 <= c <= m.tags.len()
        }),
{
    lemma_keep_used(m, m.tags);
    let kept = spec_keep_used(m, m.tags);
    let m1 = spec_delete_unused(m).0;
    assert forall|a: int, b: int| 0 <= a < b < kept.len() implies (#[trigger] kept[a]).id != (
    #[trigger] kept[b]).id && kept[a].name != kept[b].name by {
        assert(kept.contains(kept[a]) && kept.contains(kept[b]));
        let wa = choose|w: int| 0 <= w < m.tags.len() && m.tags[w] == kept[a];
        let wb = choose|w: int| 0 <= w < m.tags.len() && m.tags[w] == kept[b];
        if wa == wb {
            // Two positions of kept holding one row: impossible, since a row
            // appears at most once and push keeps distinctness. Derive it from
            // the id inequality instead: positions in kept are of distinct rows.
            assert(kept[a] == kept[b]);
            lemma_keep_used_distinct(m, m.tags, a, b);
        } else {
            assert(m.tags[wa].id != m.tags[wb].id);
        }
    }
    assert forall|a: int| 0 <= a < kept.len() implies 0 < (#[trigger] kept[a]).id
        < m.next_tag_id by {
        assert(kept.contains(kept[a]));
        let w = choose|w: int| 0 <= w < m.tags.len() && m.tags[w] == kept[a];
    }
    assert forall|k: int| 0 <= k < m1.assocs.len() implies m1.has_item(
        (#[trigger] m1.assocs[k]).0,
    ) && m1.has_tag_id(m1.assocs[k].1) by {
        assert(m1.assocs[k] == m.assocs[k]);
        assert(m.has_item(m.assocs[k].0) && m.has_tag_id(m.assocs[k].1));
        let wi = choose|w: int| 0 <= w < m.items.len() && (#[trigger] m.items[w]).id == m.assocs[k].0;
        assert(0 <= wi < m1.items.len() && m1.items[wi].id == m1.assocs[k].0);
        let wt = choose|w: int| 0 <= w < m.tags.len() && (#[trigger] m.tags[w]).id == m.assocs[k].1;
        assert(m.tag_in_use(m.tags[wt].id)) by {
            assert(m.assocs[k].1 == m.tags[wt].id);
        }
        assert(m.tags.contains(m.tags[wt]));
        assert(kept.contains(m.tags[wt]));
        let w2 = choose|w2: int| 0 <= w2 < kept.len() && kept[w2] == m.tags[wt];
        assert(0 <= w2 < m1.tags.len() && m1.tags[w2].id == m1.assocs[k].1);
    }
}

/// Two distinct positions of the kept rows never hold one row, because the
/// source rows are pairwise distinct.
proof fn lemma_keep_used_distinct(m: StoreModel, tags: Seq<TagModel>, a: int, b: int)
    requires
        forall|i: int, j: int|
            0 <= i < j < tags.len() ==> (#[trigger] tags[i]).id != (#[trigger] tags[j]).id,
        0 <= a < b < spec_keep_used(m, tags).len(),
    ensures
        spec_keep_used(m, tags)[a] != spec_keep_used(m, tags)[b],
    decreases tags.len(),
{
    let kept = spec_keep_used(m, tags);
    let dl = tags.drop_last();
    let rest = spec_keep_used(m, dl);
    lemma_keep_used(m, dl);
    if m.tag_in_use(tags.last().id) && b == kept.len() - 1 {
        assert(kept[b] == tags.last());
        assert(kept[a] == rest[a]);
        assert(rest.contains(rest[a]));
        assert(dl.contains(rest[a]));
        let w = choose|w: int| 0 <= w < dl.len() && dl[w] == rest[a];
        assert(tags[w] == rest[a]);
        assert(tags[w].id != tags.last().id);
    } else {
        lemma_keep_used_distinct(m, dl, a, b);
    }
}

/// P4-supporting law: after one orphan cleanup, nothing is orphaned, so a
/// second `deleteUnused` run deletes zero tags.
pub proof fn lemma_delete_unused_idempotent(m: StoreModel)
    requires
        m.wf(),
    ensures
        spec_delete_unused(spec_delete_unused(m).0).1 == 0,
        spec_delete_unused(spec_delete_unused(m).0).0 == spec_delete_unused(m).0,
{
    lemma_keep_used(m, m.tags);
    let m1 = spec_delete_unused(m).0;
    // Associations are untouched, so being in use means the same thing in m1.
    assert forall|j: int| 0 <= j < m1.tags.len() implies m1.tag_in_use(
        (#[trigger] m1.tags[j]).id,
    ) by {
        assert(m1.tags.contains(m1.tags[j]));
        assert(m.tag_in_use(m1.tags[j].id));
        let w = choose|k: int|
            0 <= k < m.assocs.len() && (#[trigger] m.assocs[k]).1 == m1.tags[j].id;
        assert(m1.assocs[w].1 == m1.tags[j].id);
    }
    lemma_keep_used_all(m1, m1.tags);
    assert(spec_delete_unused(m1).0 =~= m1);
}

impl TagManager {
    /// Delete every tag with zero current associations; idempotent. Returns
    /// the number of tags deleted.
    pub fn delete_unused_tags(store: &mut Store) -> (count: usize)
        requires
            old(store)@.wf(),
        ensures
            final(store)@.wf(),
            final(store)@ == spec_delete_unused(old(store)@).0,
            count as int == spec_delete_unused(old(store)@).1,
    {
        let ghost m0 = store@;
        let n = store.tags.len();
        let mut kept: Vec<TagRow> = Vec::new();
        let mut j: usize = 0;
        proof {
            assert(m0.tags.take(0) =~= Seq::<TagModel>::empty());
            assert(kept@.map_values(|r: TagRow| r@) =~= spec_keep_used(m0, m0.tags.take(0)));
        }
        while j < n
            invariant
                n == store.tags.len(),
                j <= n,
                store@ == m0,
                kept@.len() <= j,
                kept@.map_values(|r: TagRow| r@) == spec_keep_used(m0, m0.tags.take(j as int)),
            decreases n - j,
        {
            let ghost pre = kept@.map_values(|r: TagRow| r@);
            proof {
                assert(m0.tags.take(j + 1 as int).drop_last() =~= m0.tags.take(j as int));
                assert(m0.tags.take(j + 1 as int).last() == m0.tags[j as int]);
            }
            if store.tag_used(store.tags[j].id) {
                let row = &store.tags[j];
                kept.push(TagRow { id: row.id, name: row.name.clone() });
                proof {
                    assert(kept@.map_values(|r: TagRow| r@) =~= pre.push(m0.tags[j as int]));
                }
            }
            j = j + 1;
        }
        proof {
            assert(m0.tags.take(n as int) =~= m0.tags);
        }
        let count = store.tags.len() - kept.len();
        store.tags = kept;
        proof {
            assert(store@ =~= spec_delete_unused(m0).0);
            lemma_delete_unused_wf(m0);
        }
        count
    }

    /// Add the given tags to an item: trim, skip empties, find or create each
    /// tag, and add the missing associations. Returns the number of newly
    /// added associations; adding an already-present tag adds nothing.
    ///
    /// Fails, leaving the store unchanged, exactly when the item does not
    /// exist or the tag identifier space has no room.
    pub fn add_to_item(store: &mut Store, item_id: i64, tags: &[String]) -> (r: Result<
        usize,
        FstkError,
    >)
        requires
            old(store)@.wf(),
        ensures
            final(store)@.wf(),
            old(store)@.has_item(item_id as int) && old(store)@.next_tag_id + tags@.len()
                <= i64::MAX ==> ({
                let (m1, c) = spec_attach_tags(old(store)@, item_id as int, names_of(tags@));
                &&& r is Ok
                &&& r->Ok_0 as int == c
                &&& final(store)@ == m1
            }),
            !(old(store)@.has_item(item_id as int) && old(store)@.next_tag_id + tags@.len()
                <= i64::MAX) ==> ({
                &&& r is Err
                &&& r->Err_0 is DatabaseError
                &&& final(store)@ == old(store)@
            }),
    {
        if store.find_item_index(item_id).is_none() {
            return Err(
                FstkError::DatabaseError(String::from_str("FOREIGN KEY constraint failed")),
            );
        }
        if tags.len() as u64 > (i64::MAX - store.next_tag_id) as u64 {
            return Err(FstkError::DatabaseError(String::from_str("tag identifier space exhausted")));
        }
        Ok(store.attach_tags(item_id, tags))
    }
}

/// Result of removing one raw tag from an item: the tag is trimmed; if a tag
/// row with the trimmed name exists and is associated with the item, that one
/// association is removed. The third component names the tag whose
/// association was removed, if any, as an orphan-cleanup candidate.
pub open spec fn spec_remove_one(m: StoreModel, item_id: int, raw: Seq<char>) -> (
    StoreModel,
    int,
    Option<int>,
) {
    let t = spec_trim(raw);
    if t.len() == 0 {
        (m, 0, None)
    } else {
        let j = find_tag_model(m.tags, t);
        if j < 0 {
            (m, 0, None)
        } else {
            let tid = m.tags[j].id;
            let k = find_assoc_model(m.assocs, (item_id, tid));
            if k < 0 {
                (m, 0, None)
            } else {
                (StoreModel { assocs: m.assocs.remove(k), ..m }, 1, Some(tid))
            }
        }
    }
}

/// Result of removing a list of raw tags from an item, in order: the store
/// after the removals, the number of associations removed, and the cleanup
/// candidates in removal order.
pub open spec fn spec_remove_list(m: StoreModel, item_id: int, raws: Seq<Seq<char>>) -> (
    StoreModel,
    int,
    Seq<int>,
)
    decreases raws.len(),
{
    if raws.len() == 0 {
        (m, 0, Seq::empty())
    } else {
        let s1 = spec_remove_one(m, item_id, raws.first());
        let s2 = spec_remove_list(s1.0, item_id, raws.drop_first());
        (
            s2.0,
            s1.1 + s2.1,
            (match s1.2 {
                Some(tid) => seq![tid] + s2.2,
                None => s2.2,
            }),
        )
    }
}

/// Result of the whole tag-removal command: remove the associations, then
/// delete any candidate tag that became orphaned.
pub open spec fn spec_remove_from_item(m: StoreModel, item_id: int, raws: Seq<Seq<char>>) -> (
    StoreModel,
    int,
) {
    let s = spec_remove_list(m, item_id, raws);
    (spec_cleanup(s.0, s.2).0, s.1)
}

/// Removing one raw tag preserves well-formedness and touches only the
/// associations.
pub proof fn lemma_remove_one_wf(m: StoreModel, item_id: int, raw: Seq<char>)
    requires
        m.wf(),
    ensures
        ({
            let (m1, c, cand) = spec_remove_one(m, item_id, raw);
            &&& m1.wf()
            &&& m1.items == m.items
            &&& m1.tags == m.tags
            &&& m1.next_item_id == m.next_item_id
            &&& m1.next_tag_id == m.next_tag_id
            &&& 0 <= c <= 1
            &&& m1.assocs.len() == m.assocs.len() - c
        }),
{
    let t = spec_trim(raw);
    if t.len() > 0 {
        lemma_find_tag_model(m.tags, t);
        let j = find_tag_model(m.tags, t);
        if j >= 0 {
            let tid = m.tags[j].id;
            lemma_find_assoc_model(m.assocs, (item_id, tid));
            let k = find_assoc_model(m.assocs, (item_id, tid));
            if k >= 0 {
                lemma_remove_assoc_wf(m, k);
            }
        }
    }
}

/// Removing a list of raw tags preserves well-formedness and touches only the
/// associations.
pub proof fn lemma_remove_list_wf(m: StoreModel, item_id: int, raws: Seq<Seq<char>>)
    requires
        m.wf(),
    ensures
        ({
            let (m1, c, cands) = spec_remove_list(m, item_id, raws);
            &&& m1.wf()
            &&& m1.items == m.items
            &&& m1.tags == m.tags
            &&& m1.next_item_id == m.next_item_id
            &&& m1.next_tag_id == m.next_tag_id
            &&& 0 <= c <= raws.len()
            &&& m1.assocs.len() == m.assocs.len() - c
        }),
    decreases raws.len(),
{
    if raws.len() > 0 {
        lemma_remove_one_wf(m, item_id, raws.first());
        lemma_remove_list_wf(spec_remove_one(m, item_id, raws.first()).0, item_id, raws.drop_first());
    }
}

impl TagManager {
    /// Remove the given tags from an item: trim, skip empties, remove each
    /// matching association, and delete any tag that became orphaned as a
    /// result. Returns the number of associations actually removed; removing
    /// an absent tag removes nothing.
    pub fn remove_from_item(store: &mut Store, item_id: i64, tags: &[String]) -> (count: usize)
        requires
            old(store)@.wf(),
        ensures
            final(store)@.wf(),
            final(store)@ == spec_remove_from_item(old(store)@, item_id as int, names_of(tags@)).0,
            count as int == spec_remove_from_item(old(store)@, item_id as int, names_of(tags@)).1,
    {
        let ghost m0 = store@;
        let ghost raws = names_of(tags@);
        let n = tags.len();
        let mut removed: Vec<i64> = Vec::new();
        let mut count: usize = 0;
        let mut i: usize = 0;
        proof {
            assert(raws.skip(0) =~= raws);
            assert(ids_of(removed@) =~= Seq::<int>::empty());
        }
        while i < n
            invariant
                n == tags@.len(),
                i <= n,
                store@.wf(),
                raws == names_of(tags@),
                count <= i,
                spec_remove_list(m0, item_id as int, raws).0 == spec_remove_list(
                    store@,
                    item_id as int,
                    raws.skip(i as int),
                ).0,
                spec_remove_list(m0, item_id as int, raws).1 == count + spec_remove_list(
                    store@,
                    item_id as int,
                    raws.skip(i as int),
                ).1,
                spec_remove_list(m0, item_id as int, raws).2 == ids_of(removed@)
                    + spec_remove_list(store@, item_id as int, raws.skip(i as int)).2,
            decreases n - i,
        {
            let ghost pre = store@;
            let ghost rest = raws.skip(i as int);
            proof {
                assert(rest.len() == n - i);
                assert(rest.first() == raws[i as int]);
                assert(rest.drop_first() =~= raws.skip(i + 1 as int));
                lemma_remove_one_wf(pre, item_id as int, rest.first());
            }
            let ghost pre_removed = ids_of(removed@);
            let trimmed = crate::text::trim_str(tags[i].as_str());
            assert(trimmed@ == spec_trim(raws[i as int]));
            let mut step: usize = 0;
            if trimmed.as_str().unicode_len() > 0 {
                match store.find_tag_index(&trimmed) {
                    Some(j) => {
                        proof {
                            lemma_find_tag_model(pre.tags, trimmed@);
                            let jf = find_tag_model(pre.tags, trimmed@);
                            assert(pre.tags[jf].name == trimmed@);
                            if jf != j as int {
                                assert(false);  // duplicate tag names contradict wf
                            }
                        }
                        let tid = store.tags[j].id;
                        match store.find_assoc_index(item_id, tid) {
                            Some(k) => {
                                proof {
                                    lemma_find_assoc_model(
                                        pre.assocs,
                                        (item_id as int, tid as int),
                                    );
                                }
                                store.assocs.remove(k);
                                step = 1;
                                removed.push(tid);
                                proof {
                                    assert(store@.assocs =~= pre.assocs.remove(k as int));
                                    assert(store@.items =~= pre.items);
                                    assert(store@.tags =~= pre.tags);
                                    assert(store@ =~= spec_remove_one(
                                        pre,
                                        item_id as int,
                                        rest.first(),
                                    ).0);
                                    assert(ids_of(removed@) =~= pre_removed.push(tid as int));
                                    assert(pre_removed.push(tid as int) =~= pre_removed + seq![
                                        tid as int,
                                    ]);
                                }
                            },
                            None => {
                                proof {
                                    assert(store@ =~= spec_remove_one(
                                        pre,
                                        item_id as int,
                                        rest.first(),
                                    ).0);
                                }
                            },
                        }
                    },
                    None => {
                        proof {
                            assert(store@ =~= spec_remove_one(pre, item_id as int, rest.first()).0);
                        }
                    },
                }
            } else {
                proof {
                    assert(store@ =~= spec_remove_one(pre, item_id as int, rest.first()).0);
                }
            }
            proof {
                assert(step as int == spec_remove_one(pre, item_id as int, rest.first()).1);
                if spec_remove_one(pre, item_id as int, rest.first()).2 is None {
                    assert(ids_of(removed@) == pre_removed);
                }
                let whole = spec_remove_list(m0, item_id as int, raws).2;
                let tail = spec_remove_list(store@, item_id as int, raws.skip(i + 1 as int)).2;
                match spec_remove_one(pre, item_id as int, rest.first()).2 {
                    Some(tid0) => {
                        assert(whole =~= pre_removed + (seq![tid0] + tail));
                        assert(pre_removed + (seq![tid0] + tail) =~= (pre_removed + seq![tid0])
                            + tail);
                    },
                    None => {},
                }
            }
            count = count + step;
            i = i + 1;
        }
        proof {
            assert(raws.skip(n as int).len() == 0);
            assert(spec_remove_list(m0, item_id as int, raws).2 =~= ids_of(removed@));
        }
        Self::cleanup_orphaned_tags(store, removed.as_slice());
        count
    }
}

/// The cleanup candidates of a deleted item: the tags associated with it, in
/// association order.
pub open spec fn spec_assoc_tag_ids(assocs: Seq<(int, int)>, item_id: int) -> Seq<int>
    decreases assocs.len(),
{
    if assocs.len() == 0 {
        Seq::empty()
    } else {
        let rest = spec_assoc_tag_ids(assocs.drop_last(), item_id);
        if assocs.last().0 == item_id {
            rest.push(assocs.last().1)
        } else {
            rest
        }
    }
}

/// The associations that survive a cascade: those not owned by the item.
pub open spec fn spec_assocs_without(assocs: Seq<(int, int)>, item_id: int) -> Seq<(int, int)>
    decreases assocs.len(),
{
    if assocs.len() == 0 {
        Seq::empty()
    } else {
        let rest = spec_assocs_without(assocs.drop_last(), item_id);
        if assocs.last().0 == item_id {
            rest
        } else {
            rest.push(assocs.last())
        }
    }
}

/// Result of deleting an item: nothing if the identifier names no row;
/// otherwise the row goes, its associations cascade, and each of its tags
/// that became orphaned is deleted.
pub open spec fn spec_delete(m: StoreModel, id: int) -> (StoreModel, bool) {
    let j = find_item_model(m.items, id);
    if j < 0 {
        (m, false)
    } else {
        let tids = spec_assoc_tag_ids(m.assocs, id);
        let m1 = StoreModel {
            items: m.items.remove(j),
            assocs: spec_assocs_without(m.assocs, id),
            ..m
        };
        (spec_cleanup(m1, tids).0, true)
    }
}

/// The surviving associations are exactly the old ones not owned by the item,
/// in order; used to re-establish well-formedness after a cascade.
proof fn lemma_assocs_without(assocs: Seq<(int, int)>, item_id: int)
    ensures
        ({
            let kept = spec_assocs_without(assocs, item_id);
            &&& kept.len() <= assocs.len()
            &&& forall|e: (int, int)| #[trigger] kept.contains(e) ==> assocs.contains(e)
            &&& forall|e: (int, int)| #[trigger] kept.contains(e) ==> e.0 != item_id
            &&& forall|e: (int, int)|
                assocs.contains(e) && e.0 != item_id ==> #[trigger] kept.contains(e)
        }),
    decreases assocs.len(),
{
    if assocs.len() > 0 {
        let dl = assocs.drop_last();
        lemma_assocs_without(dl, item_id);
        let rest = spec_assocs_without(dl, item_id);
        let kept = spec_assocs_without(assocs, item_id);
        assert forall|e: (int, int)| #[trigger] dl.contains(e) implies assocs.contains(e) by {
            let w = choose|w: int| 0 <= w < dl.len() && dl[w] == e;
            assert(assocs[w] == e);
        }
        assert(assocs.contains(assocs.last())) by {
            assert(assocs[assocs.len() - 1] == assocs.last());
        }
        if assocs.last().0 == item_id {
            assert forall|e: (int, int)|
                assocs.contains(e) && e.0 != item_id implies #[trigger] kept.contains(e) by {
                let w = choose|w: int| 0 <= w < assocs.len() && assocs[w] == e;
                if w < assocs.len() - 1 {
                    assert(dl[w] == e);
                    assert(dl.contains(e));
                }
            }
        } else {
            assert forall|e: (int, int)| #[trigger] kept.contains(e) implies assocs.contains(e)
                && e.0 != item_id by {
                let w = choose|w: int| 0 <= w < kept.len() && kept[w] == e;
                if w < rest.len() {
                    assert(rest.contains(e));
                } else {
                    assert(e == assocs.last());
                }
            }
            assert forall|e: (int, int)|
                assocs.contains(e) && e.0 != item_id implies #[trigger] kept.contains(e) by {
                let w = choose|w: int| 0 <= w < assocs.len() && assocs[w] == e;
                if w < assocs.len() - 1 {
                    assert(dl[w] == e);
                    assert(dl.contains(e));
                    assert(rest.contains(e));
                    let w2 = choose|w2: int| 0 <= w2 < rest.len() && rest[w2] == e;
                    assert(kept[w2] == e);
                } else {
                    assert(kept[kept.len() - 1] == e);
                }
            }
        }
    }
}

/// Distinct positions of the surviving associations hold distinct pairs.
proof fn lemma_assocs_without_distinct(assocs: Seq<(int, int)>, item_id: int, a: int, b: int)
    requires
        forall|i: int, j: int|
            0 <= i < j < assocs.len() ==> #[trigger] assocs[i] != #[trigger] assocs[j],
        0 <= a < b < spec_assocs_without(assocs, item_id).len(),
    ensures
        spec_assocs_without(assocs, item_id)[a] != spec_assocs_without(assocs, item_id)[b],
    decreases assocs.len(),
{
    let kept = spec_assocs_without(assocs, item_id);
    let dl = assocs.drop_last();
    let rest = spec_assocs_without(dl, item_id);
    lemma_assocs_without(dl, item_id);
    if assocs.last().0 != item_id && b == kept.len() - 1 {
        assert(kept[b] == assocs.last());
        assert(kept[a] == rest[a]);
        assert(rest.contains(rest[a]));
        assert(dl.contains(rest[a]));
        let w = choose|w: int| 0 <= w < dl.len() && dl[w] == rest[a];
        assert(assocs[w] == rest[a]);
        assert(assocs[w] != assocs[assocs.len() - 1]);
    } else {
        lemma_assocs_without_distinct(dl, item_id, a, b);
    }
}

/// The cascade step of a delete preserves well-formedness.
proof fn lemma_delete_cascade_wf(m: StoreModel, id: int)
    requires
        m.wf(),
        find_item_model(m.items, id) >= 0,
    ensures
        ({
            let j = find_item_model(m.items, id);
            let m1 = StoreModel {
                items: m.items.remove(j),
                assocs: spec_assocs_without(m.assocs, id),
                ..m
            };
            m1.wf()
        }),
{
    lemma_find_item_model(m.items, id);
    let j = find_item_model(m.items, id);
    let m1 = StoreModel {
        items: m.items.remove(j),
        assocs: spec_assocs_without(m.assocs, id),
        ..m
    };
    lemma_assocs_without(m.assocs, id);
    assert forall|a: int, b: int| 0 <= a < b < m1.items.len() implies (#[trigger] m1.items[a]).id
        != (#[trigger] m1.items[b]).id && m1.items[a].hash != m1.items[b].hash by {
        let a0 = if a < j { a } else { a + 1 };
        let b0 = if b < j { b } else { b + 1 };
        assert(m1.items[a] == m.items[a0] && m1.items[b] == m.items[b0]);
    }
    assert forall|a: int| 0 <= a < m1.items.len() implies 0 < (#[trigger] m1.items[a]).id
        < m.next_item_id by {
        let a0 = if a < j { a } else { a + 1 };
        assert(m1.items[a] == m.items[a0]);
    }
    assert forall|a: int, b: int| 0 <= a < b < m1.assocs.len() implies #[trigger] m1.assocs[a]
        != #[trigger] m1.assocs[b] by {
        lemma_assocs_without_distinct(m.assocs, id, a, b);
    }
    assert forall|k: int| 0 <= k < m1.assocs.len() implies m1.has_item(
        (#[trigger] m1.assocs[k]).0,
    ) && m1.has_tag_id(m1.assocs[k].1) by {
        let kept = spec_assocs_without(m.assocs, id);
        assert(kept.contains(kept[k]));
        assert(m.assocs.contains(kept[k]));
        let w = choose|w: int| 0 <= w < m.assocs.len() && m.assocs[w] == kept[k];
        assert(m.has_item(m.assocs[w].0) && m.has_tag_id(m.assocs[w].1));
        let wi = choose|w2: int|
            0 <= w2 < m.items.len() && (#[trigger] m.items[w2]).id == m.assocs[w].0;
        // The referenced item is not the deleted one, so it survives the removal.
        assert(kept[k].0 != id);
        assert(m.items[wi].id != id) by {
            assert(m.items[wi].id == kept[k].0);
        }
        assert(wi != j) by {
            if wi == j {
                assert(m.items[j].id == id);
            }
        }
        let wi1 = if wi < j { wi } else { wi - 1 };
        assert(m1.items[wi1] == m.items[wi]);
        assert(0 <= wi1 < m1.items.len() && m1.items[wi1].id == m1.assocs[k].0);
        let wt = choose|w2: int|
            0 <= w2 < m.tags.len() && (#[trigger] m.tags[w2]).id == m.assocs[w].1;
        assert(0 <= wt < m1.tags.len() && m1.tags[wt].id == m1.assocs[k].1);
    }
}

impl ItemManager {
    /// Delete the item with this identifier: the row goes, its associations
    /// cascade, and each of its tags that became orphaned is deleted, all or
    /// nothing. Returns whether a row was deleted; an absent identifier is
    /// not an error.
    pub fn delete(store: &mut Store, id: i64) -> (deleted: bool)
        requires
            old(store)@.wf(),
        ensures
            final(store)@.wf(),
            final(store)@ == spec_delete(old(store)@, id as int).0,
            deleted == spec_delete(old(store)@, id as int).1,
    {
        let ghost m0 = store@;
        let j = match store.find_item_index(id) {
            Some(j) => j,
            None => {
                return false;
            },
        };
        proof {
            lemma_find_item_model(m0.items, id as int);
        }
        // Collect the item's tags as cleanup candidates.
        let na = store.assocs.len();
        let mut tids: Vec<i64> = Vec::new();
        let mut k: usize = 0;
        proof {
            assert(m0.assocs.take(0) =~= Seq::<(int, int)>::empty());
            assert(ids_of(tids@) =~= spec_assoc_tag_ids(m0.assocs.take(0), id as int));
        }
        while k < na
            invariant
                na == store.assocs.len(),
                k <= na,
                store@ == m0,
                ids_of(tids@) == spec_assoc_tag_ids(m0.assocs.take(k as int), id as int),
            decreases na - k,
        {
            let ghost pre = ids_of(tids@);
            proof {
                assert(m0.assocs.take(k + 1 as int).drop_last() =~= m0.assocs.take(k as int));
                assert(m0.assocs.take(k + 1 as int).last() == m0.assocs[k as int]);
            }
            let a = store.assocs[k];
            if a.0 == id {
                tids.push(a.1);
                proof {
                    assert(ids_of(tids@) =~= pre.push(m0.assocs[k as int].1));
                }
            }
            k = k + 1;
        }
        proof {
            assert(m0.assocs.take(na as int) =~= m0.assocs);
        }
        // Cascade: drop the associations owned by the item.
        let mut kept: Vec<(i64, i64)> = Vec::new();
        let mut l: usize = 0;
        proof {
            assert(kept@.map_values(|p: (i64, i64)| (p.0 as int, p.1 as int))
                =~= spec_assocs_without(m0.assocs.take(0), id as int));
        }
        while l < na
            invariant
                na == store.assocs.len(),
                l <= na,
                store@ == m0,
                kept@.map_values(|p: (i64, i64)| (p.0 as int, p.1 as int)) == spec_assocs_without(
                    m0.assocs.take(l as int),
                    id as int,
                ),
            decreases na - l,
        {
            let ghost pre = kept@.map_values(|p: (i64, i64)| (p.0 as int, p.1 as int));
            proof {
                assert(m0.assocs.take(l + 1 as int).drop_last() =~= m0.assocs.take(l as int));
                assert(m0.assocs.take(l + 1 as int).last() == m0.assocs[l as int]);
            }
            let a = store.assocs[l];
            if a.0 != id {
                kept.push(a);
                proof {
                    assert(kept@.map_values(|p: (i64, i64)| (p.0 as int, p.1 as int)) =~= pre.push(
                        m0.assocs[l as int],
                    ));
                }
            }
            l = l + 1;
        }
        proof {
            assert(m0.assocs.take(na as int) =~= m0.assocs);
        }
        store.assocs = kept;
        store.items.remove(j);
        proof {
            assert(store@.items =~= m0.items.remove(j as int));
            assert(store@.tags =~= m0.tags);
            let m1 = StoreModel {
                items: m0.items.remove(find_item_model(m0.items, id as int)),
                assocs: spec_assocs_without(m0.assocs, id as int),
                ..m0
            };
            assert(store@ =~= m1);
            lemma_delete_cascade_wf(m0, id as int);
        }
        TagManager::cleanup_orphaned_tags(store, tids.as_slice());
        true
    }
}

/// The number of associations of `assocs` referencing this tag.
pub open spec fn spec_usage_count(assocs: Seq<(int, int)>, tid: int) -> int
    decreases assocs.len(),
{
    if assocs.len() == 0 {
        0int
    } else {
        spec_usage_count(assocs.drop_last(), tid) + if assocs.last().1 == tid {
            1int
        } else {
            0int
        }
    }
}

impl TagManager {
    /// Every tag with its identifier, name and usage count (the number of
    /// items currently carrying it), in tag-row order.
    pub fn list_all(store: &Store) -> (r: Vec<(i64, String, usize)>)
        requires
            store@.wf(),
        ensures
            r@.len() == store@.tags.len(),
            forall|j: int|
                0 <= j < r@.len() ==> {
                    &&& (#[trigger] r@[j]).0 as int == store@.tags[j].id
                    &&& r@[j].1@ == store@.tags[j].name
                    &&& r@[j].2 as int == spec_usage_count(store@.assocs, store@.tags[j].id)
                },
    {
        let nt = store.tags.len();
        let mut r: Vec<(i64, String, usize)> = Vec::new();
        let mut j: usize = 0;
        while j < nt
            invariant
                nt == store.tags.len(),
                j <= nt,
                store@.wf(),
                r@.len() == j,
                forall|q: int|
                    0 <= q < j ==> {
                        &&& (#[trigger] r@[q]).0 as int == store@.tags[q].id
                        &&& r@[q].1@ == store@.tags[q].name
                        &&& r@[q].2 as int == spec_usage_count(store@.assocs, store@.tags[q].id)
                    },
            decreases nt - j,
        {
            let tid = store.tags[j].id;
            // Count this tag's associations.
            let na = store.assocs.len();
            let mut c: usize = 0;
            let mut k: usize = 0;
            proof {
                assert(store@.assocs.take(0) =~= Seq::<(int, int)>::empty());
            }
            while k < na
                invariant
                    na == store.assocs.len(),
                    k <= na,
                    0 <= c <= k,
                    c as int == spec_usage_count(store@.assocs.take(k as int), tid as int),
                decreases na - k,
            {
                proof {
                    assert(store@.assocs.take(k + 1 as int).drop_last() =~= store@.assocs.take(
                        k as int,
                    ));
                    assert(store@.assocs.take(k + 1 as int).last() == store@.assocs[k as int]);
                }
                if store.assocs[k].1 == tid {
                    c = c + 1;
                }
                k = k + 1;
            }
            proof {
                assert(store@.assocs.take(na as int) =~= store@.assocs);
            }
            r.push((tid, store.tags[j].name.clone(), c));
            j = j + 1;
        }
        r
    }
}

/// Some row of `items` carries this identifier.
pub open spec fn spec_has_item_id(items: Seq<ItemModel>, id: int) -> bool {
    exists|j: int| 0 <= j < items.len() && (#[trigger] items[j]).id == id
}

/// Some row of `tags` carries this identifier.
pub open spec fn spec_has_tag_id(tags: Seq<TagModel>, id: int) -> bool {
    exists|j: int| 0 <= j < tags.len() && (#[trigger] tags[j]).id == id
}

/// Consistency of persisted rows: what well-formedness demands of rows read
/// back from disk, with identifiers strictly below the counter maximum so
/// fresh ones remain.
pub open spec fn spec_rows_wf(
    items: Seq<ItemModel>,
    tags: Seq<TagModel>,
    assocs: Seq<(int, int)>,
) -> bool {
    &&& (forall|i: int, j: int|
        0 <= i < j < items.len() ==> (#[trigger] items[i]).id != (#[trigger] items[j]).id)
    &&& (forall|i: int, j: int|
        0 <= i < j < items.len() ==> (#[trigger] items[i]).hash != (#[trigger] items[j]).hash)
    &&& (forall|i: int| 0 <= i < items.len() ==> 0 < (#[trigger] items[i]).id < i64::MAX)
    &&& (forall|i: int, j: int|
        0 <= i < j < tags.len() ==> (#[trigger] tags[i]).id != (#[trigger] tags[j]).id)
    &&& (forall|i: int, j: int|
        0 <= i < j < tags.len() ==> (#[trigger] tags[i]).name != (#[trigger] tags[j]).name)
    &&& (forall|i: int| 0 <= i < tags.len() ==> 0 < (#[trigger] tags[i]).id < i64::MAX)
    &&& (forall|k: int, l: int|
        0 <= k < l < assocs.len() ==> #[trigger] assocs[k] != #[trigger] assocs[l])
    &&& (forall|k: int|
        0 <= k < assocs.len() ==> spec_has_item_id(items, (#[trigger] assocs[k]).0)
            && spec_has_tag_id(tags, assocs[k].1))
}

/// The error of inconsistent persisted rows.
fn corrupt_rows() -> (e: FstkError)
    ensures
        e is DatabaseError,
{
    FstkError::DatabaseError(String::from_str("inconsistent rows"))
}

impl Store {
    /// Build a store from persisted rows, after checking the well-formedness
    /// invariant that the relational schema enforces on disk: unique
    /// identifiers, storage keys and tag names, and associations that
    /// reference existing rows. The identifier counters resume above the
    /// largest identifier seen.
    pub fn load(items: Vec<ItemRow>, tags: Vec<TagRow>, assocs: Vec<(i64, i64)>) -> (r: Result<
        Store,
        FstkError,
    >)
        ensures
            r is Ok <==> spec_rows_wf(
                items@.map_values(|x: ItemRow| x@),
                tags@.map_values(|x: TagRow| x@),
                assocs@.map_values(|p: (i64, i64)| (p.0 as int, p.1 as int)),
            ),
            r is Ok ==> ({
                let s = r->Ok_0;
                &&& s@.wf()
                &&& s@.items == items@.map_values(|x: ItemRow| x@)
                &&& s@.tags == tags@.map_values(|x: TagRow| x@)
                &&& s@.assocs == assocs@.map_values(|p: (i64, i64)| (p.0 as int, p.1 as int))
            }),
            r is Err ==> r->Err_0 is DatabaseError,
    {
        let ghost im = items@.map_values(|x: ItemRow| x@);
        let ghost tm = tags@.map_values(|x: TagRow| x@);
        let ghost am = assocs@.map_values(|p: (i64, i64)| (p.0 as int, p.1 as int));
        // Item rows: identifiers positive, below the counter maximum, unique;
        // storage keys unique.
        let ni = items.len();
        let mut max_item_id: i64 = 0;
        let mut i: usize = 0;
        while i < ni
            invariant
                ni == items@.len(),
                im == items@.map_values(|x: ItemRow| x@),
                i <= ni,
                0 <= max_item_id < i64::MAX,
                forall|a: int| 0 <= a < i ==> 0 < (#[trigger] im[a]).id < i64::MAX,
                forall|a: int| 0 <= a < i ==> (#[trigger] im[a]).id <= max_item_id,
                forall|a: int, b: int|
                    0 <= a < b < i ==> (#[trigger] im[a]).id != (#[trigger] im[b]).id,
                forall|a: int, b: int|
                    0 <= a < b < i ==> (#[trigger] im[a]).hash != (#[trigger] im[b]).hash,
            decreases ni - i,
        {
            let row = &items[i];
            if row.id <= 0 || row.id == i64::MAX {
                proof {
                    assert(!(0 < im[i as int].id < i64::MAX));
                }
                return Err(corrupt_rows());
            }
            if row.id > max_item_id {
                max_item_id = row.id;
            }
            let mut j: usize = 0;
            while j < i
                invariant
                    ni == items@.len(),
                    im == items@.map_values(|x: ItemRow| x@),
                    i < ni,
                    j <= i,
                    forall|b: int| 0 <= b < j ==> (#[trigger] im[b]).id != im[i as int].id,
                    forall|b: int| 0 <= b < j ==> (#[trigger] im[b]).hash != im[i as int].hash,
                decreases i - j,
            {
                if items[j].id == items[i].id {
                    proof {
                        assert(im[j as int].id == im[i as int].id);
                    }
                    return Err(corrupt_rows());
                }
                if items[j].stored_hash == items[i].stored_hash {
                    proof {
                        assert(im[j as int].hash == im[i as int].hash);
                    }
                    return Err(corrupt_rows());
                }
                j = j + 1;
            }
            i = i + 1;
        }
        // Tag rows: identifiers positive, below the counter maximum, unique;
        // names unique.
        let nt = tags.len();
        let mut max_tag_id: i64 = 0;
        let mut t: usize = 0;
        while t < nt
            invariant
                nt == tags@.len(),
                tm == tags@.map_values(|x: TagRow| x@),
                t <= nt,
                0 <= max_tag_id < i64::MAX,
                forall|a: int| 0 <= a < t ==> 0 < (#[trigger] tm[a]).id < i64::MAX,
                forall|a: int| 0 <= a < t ==> (#[trigger] tm[a]).id <= max_tag_id,
                forall|a: int, b: int|
                    0 <= a < b < t ==> (#[trigger] tm[a]).id != (#[trigger] tm[b]).id,
                forall|a: int, b: int|
                    0 <= a < b < t ==> (#[trigger] tm[a]).name != (#[trigger] tm[b]).name,
            decreases nt - t,
        {
            let row = &tags[t];
            if row.id <= 0 || row.id == i64::MAX {
                proof {
                    assert(!(0 < tm[t as int].id < i64::MAX));
                }
                return Err(corrupt_rows());
            }
            if row.id > max_tag_id {
                max_tag_id = row.id;
            }
            let mut j: usize = 0;
            while j < t
                invariant
                    nt == tags@.len(),
                    tm == tags@.map_values(|x: TagRow| x@),
                    t < nt,
                    j <= t,
                    forall|b: int| 0 <= b < j ==> (#[trigger] tm[b]).id != tm[t as int].id,
                    forall|b: int| 0 <= b < j ==> (#[trigger] tm[b]).name != tm[t as int].name,
                decreases t - j,
            {
                if tags[j].id == tags[t].id {
                    proof {
                        assert(tm[j as int].id == tm[t as int].id);
                    }
                    return Err(corrupt_rows());
                }
                if tags[j].name == tags[t].name {
                    proof {
                        assert(tm[j as int].name == tm[t as int].name);
                    }
                    return Err(corrupt_rows());
                }
                j = j + 1;
            }
            t = t + 1;
        }
        // Associations: distinct pairs referencing existing rows.
        let na = assocs.len();
        let mut k: usize = 0;
        while k < na
            invariant
                na == assocs@.len(),
                ni == items@.len(),
                nt == tags@.len(),
                am == assocs@.map_values(|p: (i64, i64)| (p.0 as int, p.1 as int)),
                im == items@.map_values(|x: ItemRow| x@),
                tm == tags@.map_values(|x: TagRow| x@),
                k <= na,
                forall|a: int, b: int|
                    0 <= a < b < k ==> #[trigger] am[a] != #[trigger] am[b],
                forall|a: int|
                    0 <= a < k ==> spec_has_item_id(im, (#[trigger] am[a]).0) && spec_has_tag_id(
                        tm,
                        am[a].1,
                    ),
            decreases na - k,
        {
            proof {
                assert(am[k as int] == (assocs@[k as int].0 as int, assocs@[k as int].1 as int));
            }
            let pair = assocs[k];
            let mut j: usize = 0;
            while j < k
                invariant
                    na == assocs@.len(),
                    am == assocs@.map_values(|p: (i64, i64)| (p.0 as int, p.1 as int)),
                    k < na,
                    j <= k,
                    pair == assocs@[k as int],
                    forall|b: int| 0 <= b < j ==> #[trigger] am[b] != am[k as int],
                decreases k - j,
            {
                let other = assocs[j];
                if other.0 == pair.0 && other.1 == pair.1 {
                    proof {
                        assert(am[j as int] == am[k as int]);
                    }
                    return Err(corrupt_rows());
                }
                j = j + 1;
            }
            let mut found_item = false;
            let mut j2: usize = 0;
            while j2 < ni
                invariant
                    ni == items@.len(),
                    im == items@.map_values(|x: ItemRow| x@),
                    na == assocs@.len(),
                    am == assocs@.map_values(|p: (i64, i64)| (p.0 as int, p.1 as int)),
                    k < na,
                    j2 <= ni,
                    pair == assocs@[k as int],
                    found_item ==> spec_has_item_id(im, am[k as int].0),
                    !found_item ==> forall|j: int|
                        0 <= j < j2 ==> (#[trigger] im[j]).id != am[k as int].0,
                decreases ni - j2,
            {
                if items[j2].id == pair.0 {
                    proof {
                        assert(im[j2 as int].id == am[k as int].0);
                    }
                    found_item = true;
                }
                j2 = j2 + 1;
            }
            if !found_item {
                proof {
                    assert(!spec_has_item_id(im, am[k as int].0));
                }
                return Err(corrupt_rows());
            }
            let mut found_tag = false;
            let mut j3: usize = 0;
            while j3 < nt
                invariant
                    nt == tags@.len(),
                    tm == tags@.map_values(|x: TagRow| x@),
                    na == assocs@.len(),
                    am == assocs@.map_values(|p: (i64, i64)| (p.0 as int, p.1 as int)),
                    k < na,
                    j3 <= nt,
                    pair == assocs@[k as int],
                    found_tag ==> spec_has_tag_id(tm, am[k as int].1),
                    !found_tag ==> forall|j: int|
                        0 <= j < j3 ==> (#[trigger] tm[j]).id != am[k as int].1,
                decreases nt - j3,
            {
                if tags[j3].id == pair.1 {
                    proof {
                        assert(tm[j3 as int].id == am[k as int].1);
                    }
                    found_tag = true;
                }
                j3 = j3 + 1;
            }
            if !found_tag {
                proof {
                    assert(!spec_has_tag_id(tm, am[k as int].1));
                }
                return Err(corrupt_rows());
            }
            k = k + 1;
        }
        let s = Store {
            items,
            tags,
            assocs,
            next_item_id: max_item_id + 1,
            next_tag_id: max_tag_id + 1,
        };
        proof {
            assert(s@.items == im);
            assert(s@.tags == tm);
            assert(s@.assocs == am);
            assert forall|k2: int| 0 <= k2 < s@.assocs.len() implies s@.has_item(
                (#[trigger] s@.assocs[k2]).0,
            ) && s@.has_tag_id(s@.assocs[k2].1) by {
                assert(spec_has_item_id(im, am[k2].0) && spec_has_tag_id(tm, am[k2].1));
                let wi = choose|j: int|
                    0 <= j < im.len() && (#[trigger] im[j]).id == am[k2].0;
                assert(s@.items[wi].id == s@.assocs[k2].0);
                let wt = choose|j: int| 0 <= j < tm.len() && (#[trigger] tm[j]).id == am[k2].1;
                assert(s@.tags[wt].id == s@.assocs[k2].1);
            }
            assert(s@.wf());
        }
        Ok(s)
    }

    /// The item rows, for persistence.
    pub fn items_rows(&self) -> (r: &Vec<ItemRow>)
        ensures
            r@.map_values(|x: ItemRow| x@) == self@.items,
    {
        &self.items
    }

    /// The tag rows, for persistence.
    pub fn tags_rows(&self) -> (r: &Vec<TagRow>)
        ensures
            r@.map_values(|x: TagRow| x@) == self@.tags,
    {
        &self.tags
    }

    /// The association pairs, for persistence.
    pub fn assoc_rows(&self) -> (r: &Vec<(i64, i64)>)
        ensures
            r@.map_values(|p: (i64, i64)| (p.0 as int, p.1 as int)) == self@.assocs,
    {
        &self.assocs
    }
}

} // verus!
