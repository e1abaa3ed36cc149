//! The command layer: push, tag commands, and the batch operation engine.
//! Every command that accepts a display ordinal resolves it against a freshly
//! fetched, recency-sorted snapshot; a batch resolves all its ordinals against
//! one shared snapshot. The surrounding application performs the filesystem
//! work and reports each item's outcome back for the bookkeeping here.

use vstd::prelude::*;
use vstd::string::StringExecFns;

use crate::error::FstkError;
use crate::item::{spec_resolve, spec_sort};
use crate::store::ItemManager;
use crate::numbers::usize_to_string;
use crate::store::{
    names_of, spec_attach_tags, spec_delete_unused, spec_insert, spec_insert_ok, spec_list,
    spec_remove_from_item, spec_usage_count, Store, StoreModel, TagManager,
};

verus! {

/// The tag management subcommands.
pub enum TagCommands {
    Add { number: usize, tags: Vec<String> },
    Remove { number: usize, tags: Vec<String> },
    List,
    Ls,
}

/// The tag names of an optional tag list: none means no tags.
pub open spec fn spec_opt_names(tags: Option<Vec<String>>) -> Seq<Seq<char>> {
    match tags {
        Some(v) => names_of(v@),
        None => Seq::empty(),
    }
}

/// Push an item into the stack: insert its row and tags, all or nothing. The
/// caller has already moved the artifact into the content store and supplies
/// the plain facts of the push: base name, parent directory, storage key,
/// kind, and timestamp.
///
/// Fails, leaving the store unchanged, exactly when the storage key is
/// already present or an identifier counter has no room; the new durable
/// identifier is returned otherwise.
pub fn push(
    store: &mut Store,
    name: &str,
    parent: &str,
    stored_hash: &str,
    is_dir: bool,
    tags: Option<Vec<String>>,
    pushed_at: i64,
) -> (r: Result<i64, FstkError>)
    requires
        old(store)@.wf(),
    ensures
        final(store)@.wf(),
        ({
            let kind = if is_dir {
                "directory"@
            } else {
                "file"@
            };
            let raws = spec_opt_names(tags);
            &&& spec_insert_ok(old(store)@, stored_hash@, raws.len() as int) ==> ({
                let (m2, id) = spec_insert(
                    old(store)@,
                    name@,
                    parent@,
                    stored_hash@,
                    kind,
                    pushed_at as int,
                    raws,
                );
                &&& r is Ok
                &&& r->Ok_0 as int == id
                &&& final(store)@ == m2
            })
            &&& !spec_insert_ok(old(store)@, stored_hash@, raws.len() as int) ==> ({
                &&& r is Err
                &&& r->Err_0 is DatabaseError
                &&& final(store)@ == old(store)@
            })
        }),
{
    let item_type = if is_dir {
        "directory"
    } else {
        "file"
    };
    let tag_vec: Vec<String> = match tags {
        Some(v) => v,
        None => Vec::new(),
    };
    ItemManager::insert(store, name, parent, stored_hash, item_type, tag_vec.as_slice(), pushed_at)
}

/// The `ItemNotFound` error of an unresolvable ordinal, naming it.
fn ordinal_not_found(number: usize) -> (r: FstkError)
    ensures
        r is ItemNotFound,
{
    let mut msg = String::from_str("number=");
    msg.append(usize_to_string(number).as_str());
    FstkError::ItemNotFound(msg)
}

/// Add tags to the item at this display number, resolved against the full,
/// freshly sorted listing. Returns the number of newly added associations;
/// adding an already-present tag adds nothing.
pub fn add_tags(store: &mut Store, number: usize, tags: &[String]) -> (r: Result<usize, FstkError>)
    requires
        old(store)@.wf(),
    ensures
        final(store)@.wf(),
        ({
            let sorted = spec_sort(spec_list(old(store)@, Seq::empty()));
            match spec_resolve(sorted, number as int) {
                Option::None => r is Err && r->Err_0 is ItemNotFound && final(store)@ == old(
                    store,
                )@,
                Option::Some(id) => {
                    let ok = old(store)@.has_item(id) && old(store)@.next_tag_id + tags@.len()
                        <= i64::MAX;
                    &&& ok ==> ({
                        let (m1, c) = spec_attach_tags(old(store)@, id, names_of(tags@));
                        &&& r is Ok
                        &&& r->Ok_0 as int == c
                        &&& final(store)@ == m1
                    })
                    &&& !ok ==> r is Err && r->Err_0 is DatabaseError && final(store)@ == old(
                        store,
                    )@
                },
            }
        }),
{
    let empty: Vec<String> = Vec::new();
    proof {
        assert(names_of(empty@) =~= Seq::<Seq<char>>::empty());
    }
    match ItemManager::get_id_by_display_number(store, number, empty.as_slice()) {
        Some(id) => TagManager::add_to_item(store, id, tags),
        None => Err(ordinal_not_found(number)),
    }
}

/// Remove tags from the item at this display number, resolved against the
/// full, freshly sorted listing. Any tag that becomes orphaned is deleted.
/// Returns the number of associations actually removed; removing an absent
/// tag removes nothing.
pub fn remove_tags(store: &mut Store, number: usize, tags: &[String]) -> (r: Result<
    usize,
    FstkError,
>)
    requires
        old(store)@.wf(),
    ensures
        final(store)@.wf(),
        ({
            let sorted = spec_sort(spec_list(old(store)@, Seq::empty()));
            match spec_resolve(sorted, number as int) {
                Option::None => r is Err && r->Err_0 is ItemNotFound && final(store)@ == old(
                    store,
                )@,
                Option::Some(id) => {
                    &&& r is Ok
                    &&& r->Ok_0 as int == spec_remove_from_item(old(store)@, id, names_of(tags@)).1
                    &&& final(store)@ == spec_remove_from_item(old(store)@, id, names_of(tags@)).0
                },
            }
        }),
{
    let empty: Vec<String> = Vec::new();
    proof {
        assert(names_of(empty@) =~= Seq::<Seq<char>>::empty());
    }
    match ItemManager::get_id_by_display_number(store, number, empty.as_slice()) {
        Some(id) => Ok(TagManager::remove_from_item(store, id, tags)),
        None => Err(ordinal_not_found(number)),
    }
}

/// The tag listing of a model: identifier, name and usage count per tag row.
pub open spec fn spec_tag_listing(m: StoreModel) -> Seq<(int, Seq<char>, int)> {
    Seq::new(m.tags.len(), |j: int| (m.tags[j].id, m.tags[j].name, spec_usage_count(m.assocs, m.tags[j].id)))
}

/// The views of the rows of a tag listing.
pub open spec fn tag_listing_models(v: Seq<(i64, String, usize)>) -> Seq<(int, Seq<char>, int)> {
    v.map_values(|t: (i64, String, usize)| (t.0 as int, t.1@, t.2 as int))
}

/// Listing order of the tag table: strictly more used first, ties broken
/// alphabetically by name.
pub open spec fn spec_tag_before(a: (int, Seq<char>, int), b: (int, Seq<char>, int)) -> bool {
    a.2 > b.2 || (a.2 == b.2 && crate::text::spec_str_lt(a.1, b.1))
}

/// `x` inserted before the first row that does not precede it.
pub open spec fn spec_insert_tag_sorted(
    x: (int, Seq<char>, int),
    s: Seq<(int, Seq<char>, int)>,
) -> Seq<(int, Seq<char>, int)>
    decreases s.len(),
{
    if s.len() == 0 {
        seq![x]
    } else if spec_tag_before(s.first(), x) {
        seq![s.first()] + spec_insert_tag_sorted(x, s.drop_first())
    } else {
        seq![x] + s
    }
}

/// The tag listing sorted by usage, most used first, by repeated insertion.
pub open spec fn spec_sort_tags(s: Seq<(int, Seq<char>, int)>) -> Seq<(int, Seq<char>, int)>
    decreases s.len(),
{
    if s.len() == 0 {
        Seq::empty()
    } else {
        spec_insert_tag_sorted(s.first(), spec_sort_tags(s.drop_first()))
    }
}

proof fn lemma_insert_tag_sorted_at(
    x: (int, Seq<char>, int),
    s: Seq<(int, Seq<char>, int)>,
    p: int,
)
    requires
        0 <= p <= s.len(),
        forall|j: int| 0 <= j < p ==> spec_tag_before(#[trigger] s[j], x),
        p == s.len() || !spec_tag_before(s[p], x),
    ensures
        spec_insert_tag_sorted(x, s) == s.take(p) + seq![x] + s.skip(p),
    decreases p,
{
    if p == 0 {
        if s.len() == 0 {
            assert(spec_insert_tag_sorted(x, s) =~= s.take(0) + seq![x] + s.skip(0));
        } else {
            assert(!spec_tag_before(s.first(), x));
            assert(spec_insert_tag_sorted(x, s) =~= s.take(0) + seq![x] + s.skip(0));
        }
    } else {
        assert(spec_tag_before(s.first(), x));
        let t = s.drop_first();
        assert(forall|j: int| 0 <= j < p - 1 ==> spec_tag_before(#[trigger] t[j], x));
        lemma_insert_tag_sorted_at(x, t, p - 1);
        assert(spec_insert_tag_sorted(x, s) =~= seq![s.first()] + (t.take(p - 1) + seq![x]
            + t.skip(p - 1)));
        assert(seq![s.first()] + (t.take(p - 1) + seq![x] + t.skip(p - 1)) =~= s.take(p) + seq![x]
            + s.skip(p));
    }
}

/// Insert one listing row into the sorted accumulator.
fn insert_tag_sorted(acc: &mut Vec<(i64, String, usize)>, x: (i64, String, usize))
    ensures
        tag_listing_models(final(acc)@) == spec_insert_tag_sorted(
            (x.0 as int, x.1@, x.2 as int),
            tag_listing_models(old(acc)@),
        ),
        final(acc)@.len() == old(acc)@.len() + 1,
{
    let n = acc.len();
    let mut p: usize = 0;
    while p < n && (acc[p].2 > x.2 || (acc[p].2 == x.2 && crate::text::str_lt(
        acc[p].1.as_str(),
        x.1.as_str(),
    )))
        invariant
            n == acc@.len(),
            p <= n,
            forall|j: int|
                0 <= j < p ==> spec_tag_before(
                    #[trigger] tag_listing_models(acc@)[j],
                    (x.0 as int, x.1@, x.2 as int),
                ),
        decreases n - p,
    {
        p = p + 1;
    }
    let ghost s = tag_listing_models(acc@);
    let ghost pos = p as int;
    acc.insert(p, x);
    proof {
        assert(tag_listing_models(acc@) =~= s.take(pos) + seq![(x.0 as int, x.1@, x.2 as int)]
            + s.skip(pos));
        lemma_insert_tag_sorted_at((x.0 as int, x.1@, x.2 as int), s, pos);
    }
}

/// Sort the tag listing by usage count, most used first.
pub fn sort_tags_by_usage(rows: Vec<(i64, String, usize)>) -> (r: Vec<(i64, String, usize)>)
    ensures
        tag_listing_models(r@) == spec_sort_tags(tag_listing_models(rows@)),
        r@.len() == rows@.len(),
{
    let ghost orig = tag_listing_models(rows@);
    let mut input = rows;
    let mut acc: Vec<(i64, String, usize)> = Vec::new();
    proof {
        assert(input@.len() as int == orig.len());
        assert(tag_listing_models(input@) =~= orig.take(input@.len() as int));
        assert(orig.skip(orig.len() as int) =~= Seq::<(int, Seq<char>, int)>::empty());
        assert(tag_listing_models(acc@) =~= spec_sort_tags(orig.skip(orig.len() as int)));
    }
    while input.len() > 0
        invariant
            tag_listing_models(input@) == orig.take(input@.len() as int),
            tag_listing_models(acc@) == spec_sort_tags(orig.skip(input@.len() as int)),
            input@.len() <= orig.len(),
            acc@.len() + input@.len() == orig.len(),
        decreases input@.len(),
    {
        let ghost k = input@.len() as int;
        match input.pop() {
            Some(x) => {
                proof {
                    assert((x.0 as int, x.1@, x.2 as int) == orig.take(k)[k - 1]);
                    assert((x.0 as int, x.1@, x.2 as int) == orig[k - 1]);
                    assert(tag_listing_models(input@) =~= orig.take(k - 1));
                    let rest = orig.skip(k - 1);
                    assert(rest.len() > 0);
                    assert(rest.first() == orig[k - 1]);
                    assert(rest.drop_first() =~= orig.skip(k));
                }
                insert_tag_sorted(&mut acc, x);
            },
            None => {
                proof {
                    assert(false);
                }
            },
        }
    }
    proof {
        assert(orig.skip(0) =~= orig);
    }
    acc
}

/// The tag listing command: opportunistically delete orphaned tags, then list
/// every tag with its usage count, most used first.
pub fn list_tags(store: &mut Store) -> (r: Vec<(i64, String, usize)>)
    requires
        old(store)@.wf(),
    ensures
        final(store)@.wf(),
        final(store)@ == spec_delete_unused(old(store)@).0,
        tag_listing_models(r@) == spec_sort_tags(spec_tag_listing(final(store)@)),
{
    TagManager::delete_unused_tags(store);
    let rows = TagManager::list_all(store);
    proof {
        assert(tag_listing_models(rows@) =~= spec_tag_listing(store@));
    }
    sort_tags_by_usage(rows)
}

/// A batch's ordinal resolutions against one snapshot: the resolved ordinals
/// with their snapshot indexes, in request order, and the out-of-range
/// ordinals, also in request order.
pub struct BatchPlan {
    pub resolved: Vec<(usize, usize)>,
    pub not_found: Vec<usize>,
}

/// The resolved part of a plan: each in-range ordinal with its index.
pub open spec fn spec_plan_resolved(ordinals: Seq<usize>, len: int) -> Seq<(usize, usize)>
    decreases ordinals.len(),
{
    if ordinals.len() == 0 {
        Seq::empty()
    } else {
        let rest = spec_plan_resolved(ordinals.drop_last(), len);
        let n = ordinals.last();
        if 1 <= n <= len {
            rest.push((n, (n - 1) as usize))
        } else {
            rest
        }
    }
}

/// The out-of-range part of a plan.
pub open spec fn spec_plan_not_found(ordinals: Seq<usize>, len: int) -> Seq<usize>
    decreases ordinals.len(),
{
    if ordinals.len() == 0 {
        Seq::empty()
    } else {
        let rest = spec_plan_not_found(ordinals.drop_last(), len);
        let n = ordinals.last();
        if 1 <= n <= len {
            rest
        } else {
            rest.push(n)
        }
    }
}

/// Resolve a batch of requested ordinals against one snapshot of the given
/// length: ordinals in `[1, len]` map to index `ordinal - 1`, the rest are
/// reported as not found and excluded; neither aborts the batch.
pub fn plan_batch(snapshot_len: usize, ordinals: &Vec<usize>) -> (plan: BatchPlan)
    ensures
        plan.resolved@ == spec_plan_resolved(ordinals@, snapshot_len as int),
        plan.not_found@ == spec_plan_not_found(ordinals@, snapshot_len as int),
        forall|i: int|
            0 <= i < plan.resolved@.len() ==> (#[trigger] plan.resolved@[i]).1
                < snapshot_len,
{
    let n = ordinals.len();
    let mut resolved: Vec<(usize, usize)> = Vec::new();
    let mut not_found: Vec<usize> = Vec::new();
    let mut i: usize = 0;
    proof {
        assert(ordinals@.take(0) =~= Seq::<usize>::empty());
        assert(resolved@ =~= spec_plan_resolved(ordinals@.take(0), snapshot_len as int));
        assert(not_found@ =~= spec_plan_not_found(ordinals@.take(0), snapshot_len as int));
    }
    while i < n
        invariant
            n == ordinals@.len(),
            i <= n,
            resolved@ == spec_plan_resolved(ordinals@.take(i as int), snapshot_len as int),
            not_found@ == spec_plan_not_found(ordinals@.take(i as int), snapshot_len as int),
            forall|q: int|
                0 <= q < resolved@.len() ==> (#[trigger] resolved@[q]).1 < snapshot_len,
        decreases n - i,
    {
        proof {
            assert(ordinals@.take(i + 1 as int).drop_last() =~= ordinals@.take(i as int));
            assert(ordinals@.take(i + 1 as int).last() == ordinals@[i as int]);
        }
        let number = ordinals[i];
        if 1 <= number && number <= snapshot_len {
            resolved.push((number, number - 1));
        } else {
            not_found.push(number);
        }
        i = i + 1;
    }
    proof {
        assert(ordinals@.take(n as int) =~= ordinals@);
    }
    BatchPlan { resolved, not_found }
}

/// The outcome of processing one resolved item of a batch.
pub enum ItemOutcome {
    /// The filesystem and store mutations both completed.
    Completed,
    /// A destination conflict was found and the user chose to skip the item.
    ConflictSkipped,
    /// A destination conflict was found and the user refused to skip.
    ConflictRefused,
    /// The stored artifact is missing from the content directory.
    SourceMissing,
    /// The filesystem mutation failed.
    MoveFailed,
    /// The store deletion failed after the filesystem mutation; the engine
    /// attempts to move the artifact back as best-effort compensation.
    StoreDeleteFailed,
}

/// Per-item bookkeeping of a batch: how many items succeeded, were skipped,
/// or failed. Out-of-range ordinals are reported by the plan, not counted here.
pub struct BatchTally {
    pub succeeded: usize,
    pub skipped: usize,
    pub failed: usize,
}

impl BatchTally {
    /// A fresh tally.
    pub fn new() -> (r: BatchTally)
        ensures
            r.succeeded == 0 && r.skipped == 0 && r.failed == 0,
    {
        BatchTally { succeeded: 0, skipped: 0, failed: 0 }
    }

    /// Record one item's outcome: a completed item counts as a success, a
    /// skipped conflict as a skip, anything else as a failure. No outcome
    /// aborts the remaining items.
    pub fn record(&mut self, outcome: &ItemOutcome)
        requires
            old(self).succeeded + old(self).skipped + old(self).failed < usize::MAX,
        ensures
            final(self).succeeded == old(self).succeeded + (if outcome is Completed {
                1int
            } else {
                0int
            }),
            final(self).skipped == old(self).skipped + (if outcome is ConflictSkipped {
                1int
            } else {
                0int
            }),
            final(self).failed == old(self).failed + (if outcome is Completed
                || outcome is ConflictSkipped {
                0int
            } else {
                1int
            }),
    {
        match outcome {
            ItemOutcome::Completed => {
                self.succeeded = self.succeeded + 1;
            },
            ItemOutcome::ConflictSkipped => {
                self.skipped = self.skipped + 1;
            },
            ItemOutcome::ConflictRefused
            | ItemOutcome::SourceMissing
            | ItemOutcome::MoveFailed
            | ItemOutcome::StoreDeleteFailed => {
                self.failed = self.failed + 1;
            },
        }
    }

    /// A batch succeeds exactly when at least one item completed.
    pub fn succeeded_overall(&self) -> (r: bool)
        ensures
            r == (self.succeeded > 0),
    {
        self.succeeded > 0
    }
}

/// The destination of a pop: the item's original base name under the chosen
/// output directory.
pub fn pop_destination(output_dir: &str, name: &str) -> (r: String)
    ensures
        r@ == output_dir@ + "/"@ + name@,
{
    String::from_str(output_dir).concat("/").concat(name)
}

/// The destination of a restore: the item's original base name under its
/// original parent directory, reproducing the original placement.
pub fn restore_destination(original_path: &str, name: &str) -> (r: String)
    ensures
        r@ == original_path@ + "/"@ + name@,
{
    String::from_str(original_path).concat("/").concat(name)
}

} // verus!
