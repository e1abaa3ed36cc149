//! The stated laws of the stack store, each proved against the contracts of
//! the operations it relates.

use vstd::prelude::*;

use crate::item::{lemma_spec_sort, spec_before, spec_resolve, spec_sort};
use crate::store::{
    find_assoc_model, find_item_model, find_tag_model, lemma_attach_tags, lemma_find_assoc_model,
    lemma_find_item_model, lemma_find_tag_model, lemma_push_item_wf, spec_attach_one,
    spec_attach_tags, spec_cleanup, spec_find_or_create, spec_insert, spec_insert_ok,
    spec_item_matches, spec_list_sub, spec_remove_from_item, spec_remove_list, spec_remove_one,
    ItemModel, StackItemModel, StoreModel,
};
use crate::text::spec_trim;

verus! {

/// Round-trip: pushing an item records exactly the pushed name, parent path,
/// storage key, kind and timestamp under the returned identifier, so a later
/// restore or pop reproduces the original name and placement from the row.
pub proof fn lemma_push_round_trip(
    m: StoreModel,
    name: Seq<char>,
    path: Seq<char>,
    hash: Seq<char>,
    kind: Seq<char>,
    at: int,
    raws: Seq<Seq<char>>,
)
    requires
        m.wf(),
        spec_insert_ok(m, hash, raws.len() as int),
    ensures
        ({
            let (m2, id) = spec_insert(m, name, path, hash, kind, at, raws);
            let j = find_item_model(m2.items, id);
            &&& m2.has_item(id)
            &&& 0 <= j < m2.items.len()
            &&& m2.items[j].name == name
            &&& m2.items[j].path == path
            &&& m2.items[j].hash == hash
            &&& m2.items[j].kind == kind
            &&& m2.items[j].at == at
        }),
{
    let id = m.next_item_id;
    let it = ItemModel { id, name, path, hash, kind, at };
    lemma_push_item_wf(m, it);
    let m1 = StoreModel { items: m.items.push(it), next_item_id: m.next_item_id + 1, ..m };
    lemma_attach_tags(m1, id, raws);
    let m2 = spec_insert(m, name, path, hash, kind, at, raws).0;
    assert(m2.items == m1.items);
    assert(m2.items[m.items.len() as int] == it);
    lemma_find_item_model(m2.items, id);
    let j = find_item_model(m2.items, id);
    assert(j >= 0);
    assert(m2.items[j].id == id);
    if j != m.items.len() as int {
        assert(false);  // two rows with one identifier contradict wf
    }
}

/// Uniqueness: in a well-formed store, storage keys are pairwise distinct —
/// the store's uniqueness backstop that every insert preserves.
pub proof fn lemma_storage_keys_distinct(m: StoreModel)
    requires
        m.wf(),
    ensures
        forall|i: int, j: int|
            0 <= i < j < m.items.len() ==> (#[trigger] m.items[i]).hash != (
            #[trigger] m.items[j]).hash,
{
}

/// Whether some listed record carries this identifier.
pub open spec fn spec_listing_has_id(s: Seq<StackItemModel>, id: int) -> bool {
    exists|k: int| 0 <= k < s.len() && (#[trigger] s[k]).id == id
}

/// The record at position `k` of the listing comes from a matching item.
pub open spec fn spec_listed_from_items(
    m: StoreModel,
    items: Seq<ItemModel>,
    req: Seq<Seq<char>>,
    k: int,
) -> bool {
    exists|j: int|
        0 <= j < items.len() && (#[trigger] items[j]).id == spec_list_sub(m, items, req)[k].id
            && spec_item_matches(m, items[j].id, req)
}

/// Superset tag filtering: the listing of `items` under a tag request holds
/// exactly the items whose tag set is a superset of the request; an empty
/// request matches every item.
pub proof fn lemma_list_membership(m: StoreModel, items: Seq<ItemModel>, req: Seq<Seq<char>>)
    ensures
        forall|j: int|
            0 <= j < items.len() && spec_item_matches(m, (#[trigger] items[j]).id, req)
                ==> spec_listing_has_id(spec_list_sub(m, items, req), items[j].id),
        forall|k: int|
            0 <= k < spec_list_sub(m, items, req).len() ==> #[trigger] spec_listed_from_items(
                m,
                items,
                req,
                k,
            ),
    decreases items.len(),
{
    if items.len() > 0 {
        let dl = items.drop_last();
        lemma_list_membership(m, dl, req);
        let rest = spec_list_sub(m, dl, req);
        let whole = spec_list_sub(m, items, req);
        assert forall|j: int|
            0 <= j < items.len() && spec_item_matches(
                m,
                (#[trigger] items[j]).id,
                req,
            ) implies spec_listing_has_id(whole, items[j].id) by {
            if j < items.len() - 1 {
                assert(dl[j] == items[j]);
                assert(spec_listing_has_id(rest, dl[j].id));
                let k = choose|k: int| 0 <= k < rest.len() && (#[trigger] rest[k]).id == dl[j].id;
                assert(whole[k].id == items[j].id);
            } else {
                assert(whole[whole.len() - 1].id == items[j].id);
            }
        }
        assert forall|k: int| 0 <= k < whole.len() implies #[trigger] spec_listed_from_items(
            m,
            items,
            req,
            k,
        ) by {
            if k < rest.len() {
                assert(whole[k] == rest[k]);
                assert(spec_listed_from_items(m, dl, req, k));
                let j = choose|j: int|
                    0 <= j < dl.len() && (#[trigger] dl[j]).id == spec_list_sub(m, dl, req)[k].id
                        && spec_item_matches(m, dl[j].id, req);
                assert(items[j].id == whole[k].id && spec_item_matches(m, items[j].id, req));
            } else {
                assert(spec_item_matches(m, items.last().id, req));
                assert(items[items.len() - 1].id == whole[k].id);
                assert(spec_item_matches(m, items[items.len() - 1].id, req));
            }
        }
    }
}

/// Display-number stability within one snapshot: resolution is a pure
/// function of the snapshot and the ordinal, so resolving one ordinal twice
/// against one snapshot yields one identifier. Across a mutation the
/// snapshot, and so the mapping, may legitimately change.
pub proof fn lemma_resolution_stable(
    sorted: Seq<StackItemModel>,
    number: int,
    first: Option<int>,
    second: Option<int>,
)
    requires
        first == spec_resolve(sorted, number),
        second == spec_resolve(sorted, number),
    ensures
        first == second,
{
}

/// Within one snapshot with pairwise distinct identifiers, distinct in-range
/// ordinals resolve to distinct identifiers.
pub proof fn lemma_resolution_injective(sorted: Seq<StackItemModel>, n1: int, n2: int)
    requires
        forall|i: int, j: int|
            0 <= i < j < sorted.len() ==> (#[trigger] sorted[i]).id != (#[trigger] sorted[j]).id,
        1 <= n1 < n2 <= sorted.len(),
    ensures
        spec_resolve(sorted, n1) != spec_resolve(sorted, n2),
{
    assert(sorted[n1 - 1].id != sorted[n2 - 1].id);
}

/// The head of the sorted listing is the most recent record: no record of the
/// snapshot displays before it. This is what `get_latest` returns, so "latest"
/// and "display number one" follow one ordering rule.
pub proof fn lemma_latest_is_most_recent(s: Seq<StackItemModel>)
    requires
        s.len() > 0,
    ensures
        spec_sort(s).len() == s.len(),
        forall|k: int| 0 <= k < s.len() ==> !spec_before(#[trigger] s[k], spec_sort(s)[0]),
{
    broadcast use vstd::seq_lib::group_to_multiset_ensures;

    lemma_spec_sort(s);
    let sorted = spec_sort(s);
    assert forall|k: int| 0 <= k < s.len() implies !spec_before(#[trigger] s[k], sorted[0]) by {
        assert(s.contains(s[k]));
        assert(s.to_multiset().count(s[k]) > 0);
        assert(sorted.to_multiset().count(s[k]) > 0);
        assert(sorted.contains(s[k]));
        let j = choose|j: int| 0 <= j < sorted.len() && sorted[j] == s[k];
        if j > 0 {
            assert(!spec_before(sorted[j], sorted[0]));
        }
    }
}

/// Tag addition idempotence: attaching tags that the item already carries
/// (or that trim to nothing) adds no association and reports zero added.
pub proof fn lemma_add_present_tags_nothing(m: StoreModel, item_id: int, raws: Seq<Seq<char>>)
    requires
        m.wf(),
        forall|i: int|
            0 <= i < raws.len() ==> (spec_trim(#[trigger] raws[i]).len() == 0 || m.item_has_tag(
                item_id,
                spec_trim(raws[i]),
            )),
    ensures
        spec_attach_tags(m, item_id, raws).0 == m,
        spec_attach_tags(m, item_id, raws).1 == 0,
    decreases raws.len(),
{
    if raws.len() > 0 {
        let raw = raws.first();
        let t = spec_trim(raw);
        if t.len() > 0 {
            assert(m.item_has_tag(item_id, t));
            let w = choose|j: int|
                0 <= j < m.tags.len() && (#[trigger] m.tags[j]).name == t && m.has_assoc(
                    item_id,
                    m.tags[j].id,
                );
            lemma_find_tag_model(m.tags, t);
            let jf = find_tag_model(m.tags, t);
            assert(jf >= 0);
            assert(m.tags[jf].name == m.tags[w].name);
            if jf != w {
                assert(false);  // duplicate tag names contradict wf
            }
            assert(spec_find_or_create(m, t) == (m, m.tags[jf].id));
            assert(m.has_assoc(item_id, m.tags[jf].id));
            assert(spec_attach_one(m, item_id, raw) == (m, 0int));
        } else {
            assert(spec_attach_one(m, item_id, raw) == (m, 0int));
        }
        assert(forall|i: int|
            0 <= i < raws.drop_first().len() ==> raws.drop_first()[i] == raws[i + 1]);
        lemma_add_present_tags_nothing(m, item_id, raws.drop_first());
    }
}

/// Tag removal idempotence: removing tags that the item does not carry
/// removes no association and reports zero removed.
pub proof fn lemma_remove_absent_tags_nothing(m: StoreModel, item_id: int, raws: Seq<Seq<char>>)
    requires
        m.wf(),
        forall|i: int| 0 <= i < raws.len() ==> !m.item_has_tag(item_id, spec_trim(#[trigger] raws[i])),
    ensures
        spec_remove_from_item(m, item_id, raws).0 == m,
        spec_remove_from_item(m, item_id, raws).1 == 0,
{
    lemma_remove_absent_list(m, item_id, raws);
    assert(spec_remove_list(m, item_id, raws).2 =~= Seq::<int>::empty());
    assert(spec_cleanup(m, Seq::<int>::empty()) == (m, 0int));
}

proof fn lemma_remove_absent_list(m: StoreModel, item_id: int, raws: Seq<Seq<char>>)
    requires
        m.wf(),
        forall|i: int| 0 <= i < raws.len() ==> !m.item_has_tag(item_id, spec_trim(#[trigger] raws[i])),
    ensures
        spec_remove_list(m, item_id, raws).0 == m,
        spec_remove_list(m, item_id, raws).1 == 0,
        spec_remove_list(m, item_id, raws).2 == Seq::<int>::empty(),
    decreases raws.len(),
{
    if raws.len() > 0 {
        let raw = raws.first();
        let t = spec_trim(raw);
        if t.len() > 0 {
            lemma_find_tag_model(m.tags, t);
            let j = find_tag_model(m.tags, t);
            if j >= 0 {
                let tid = m.tags[j].id;
                lemma_find_assoc_model(m.assocs, (item_id, tid));
                let k = find_assoc_model(m.assocs, (item_id, tid));
                if k >= 0 {
                    // The association would witness the tag on the item.
                    assert(m.has_assoc(item_id, tid)) by {
                        assert(m.assocs[k] == (item_id, tid));
                    }
                    assert(m.item_has_tag(item_id, t)) by {
                        assert(m.tags[j].name == t && m.has_assoc(item_id, m.tags[j].id));
                    }
                    assert(false);
                }
                assert(spec_remove_one(m, item_id, raw) == (m, 0int, Option::<int>::None));
            } else {
                assert(spec_remove_one(m, item_id, raw) == (m, 0int, Option::<int>::None));
            }
        } else {
            assert(spec_remove_one(m, item_id, raw) == (m, 0int, Option::<int>::None));
        }
        assert(forall|i: int|
            0 <= i < raws.drop_first().len() ==> raws.drop_first()[i] == raws[i + 1]);
        lemma_remove_absent_list(m, item_id, raws.drop_first());
    }
}

} // verus!
