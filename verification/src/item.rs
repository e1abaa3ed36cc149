//! Items as callers see them: the `StackItem` record (an item row together
//! with its tag names), the recency ordering that the listing display uses,
//! and the display-number resolution protocol built on it.

use vstd::prelude::*;

use crate::store::{names_of, spec_list, ItemManager, StackItemModel, Store};

verus! {

/// One item of the stack, with its tag names attached.
pub struct StackItem {
    pub id: i64,
    pub original_name: String,
    pub original_path: String,
    pub stored_hash: String,
    pub item_type: String,
    pub pushed_at: i64,
    pub tags: Vec<String>,
}

impl View for StackItem {
    type V = StackItemModel;

    open spec fn view(&self) -> StackItemModel {
        StackItemModel {
            id: self.id as int,
            name: self.original_name@,
            path: self.original_path@,
            hash: self.stored_hash@,
            kind: self.item_type@,
            at: self.pushed_at as int,
            tags: names_of(self.tags@),
        }
    }
}

/// The views of a sequence of stack items.
pub open spec fn stack_models(v: Seq<StackItem>) -> Seq<StackItemModel> {
    v.map_values(|s: StackItem| s@)
}

/// Display order: `a` is listed before `b` when it was pushed later, with
/// ties broken by ascending durable identifier for determinism.
pub open spec fn spec_before(a: StackItemModel, b: StackItemModel) -> bool {
    a.at > b.at || (a.at == b.at && a.id < b.id)
}

/// Executable display-order test, mirroring `spec_before`.
pub fn before_item(a: &StackItem, b: &StackItem) -> (r: bool)
    ensures
        r == spec_before(a@, b@),
{
    a.pushed_at > b.pushed_at || (a.pushed_at == b.pushed_at && a.id < b.id)
}

/// `x` inserted into `s` before the first element that does not precede it.
pub open spec fn spec_insert_sorted(x: StackItemModel, s: Seq<StackItemModel>) -> Seq<
    StackItemModel,
>
    decreases s.len(),
{
    if s.len() == 0 {
        seq![x]
    } else if spec_before(s.first(), x) {
        seq![s.first()] + spec_insert_sorted(x, s.drop_first())
    } else {
        seq![x] + s
    }
}

/// `s` sorted into display order by repeated insertion.
pub open spec fn spec_sort(s: Seq<StackItemModel>) -> Seq<StackItemModel>
    decreases s.len(),
{
    if s.len() == 0 {
        Seq::empty()
    } else {
        spec_insert_sorted(s.first(), spec_sort(s.drop_first()))
    }
}

/// Non-strict sortedness under the display order.
pub open spec fn spec_is_sorted(s: Seq<StackItemModel>) -> bool {
    forall|i: int, j: int| 0 <= i < j < s.len() ==> !spec_before(#[trigger] s[j], #[trigger] s[i])
}

/// A nonempty sequence's multiset is its tail's multiset with its head added.
proof fn lemma_to_multiset_drop_first(s: Seq<StackItemModel>)
    requires
        s.len() > 0,
    ensures
        s.to_multiset() == s.drop_first().to_multiset().insert(s.first()),
{
    broadcast use vstd::seq_lib::group_to_multiset_ensures;
    broadcast use vstd::multiset::group_multiset_axioms;

    assert(s.drop_first() =~= s.remove(0));
    assert(s.remove(0).to_multiset() =~= s.to_multiset().remove(s[0]));
    assert(s.contains(s[0]));
    assert(s.to_multiset().count(s[0]) > 0);
    assert(s.to_multiset().remove(s[0]).insert(s[0]) =~= s.to_multiset());
}

pub proof fn lemma_insert_sorted_multiset(x: StackItemModel, s: Seq<StackItemModel>)
    ensures
        spec_insert_sorted(x, s).to_multiset() == s.to_multiset().insert(x),
        spec_insert_sorted(x, s).len() == s.len() + 1,
    decreases s.len(),
{
    broadcast use vstd::seq_lib::group_to_multiset_ensures;
    broadcast use vstd::multiset::group_multiset_axioms;

    if s.len() == 0 {
        let r = spec_insert_sorted(x, s);
        assert(r =~= seq![x]);
        lemma_to_multiset_drop_first(r);
        assert(r.drop_first() =~= s);
        assert(r.first() == x);
    } else if spec_before(s.first(), x) {
        lemma_insert_sorted_multiset(x, s.drop_first());
        let r = spec_insert_sorted(x, s);
        let inner = spec_insert_sorted(x, s.drop_first());
        assert(r =~= seq![s.first()] + inner);
        assert(r.drop_first() =~= inner);
        assert(r.first() == s.first());
        lemma_to_multiset_drop_first(r);
        lemma_to_multiset_drop_first(s);
        assert(r.to_multiset() =~= s.to_multiset().insert(x)) by {
            assert(r.to_multiset() == inner.to_multiset().insert(s.first()));
            assert(inner.to_multiset() == s.drop_first().to_multiset().insert(x));
            assert(s.drop_first().to_multiset().insert(x).insert(s.first())
                =~= s.drop_first().to_multiset().insert(s.first()).insert(x));
        }
    } else {
        let r = spec_insert_sorted(x, s);
        assert(r =~= seq![x] + s);
        assert(r.drop_first() =~= s);
        assert(r.first() == x);
        lemma_to_multiset_drop_first(r);
    }
}

pub proof fn lemma_insert_sorted_sorted(x: StackItemModel, s: Seq<StackItemModel>)
    requires
        spec_is_sorted(s),
    ensures
        spec_is_sorted(spec_insert_sorted(x, s)),
    decreases s.len(),
{
    broadcast use vstd::seq_lib::group_to_multiset_ensures;
    broadcast use vstd::multiset::group_multiset_axioms;

    if s.len() == 0 {
    } else if spec_before(s.first(), x) {
        let inner = spec_insert_sorted(x, s.drop_first());
        assert(spec_is_sorted(s.drop_first())) by {
            assert(forall|i: int, j: int|
                0 <= i < j < s.drop_first().len() ==> !spec_before(
                    #[trigger] s.drop_first()[j],
                    #[trigger] s.drop_first()[i],
                ));
        }
        lemma_insert_sorted_sorted(x, s.drop_first());
        lemma_insert_sorted_multiset(x, s.drop_first());
        let r = spec_insert_sorted(x, s);
        assert(r =~= seq![s.first()] + inner);
        // Every element of `inner` is either x or an element of s.drop_first();
        // in both cases it does not precede s.first().
        assert forall|j: int| 0 <= j < inner.len() implies !spec_before(
            inner[j],
            s.first(),
        ) by {
            assert(inner.to_multiset().contains(inner[j]));
            if inner[j] == x {
                assert(!spec_before(x, s.first()));
            } else {
                assert(s.drop_first().to_multiset().contains(inner[j]));
                let w = choose|w: int|
                    0 <= w < s.drop_first().len() && s.drop_first()[w] == inner[j];
                assert(s[w + 1] == inner[j]);
                assert(!spec_before(s[w + 1], s[0]));
            }
        }
        assert forall|i: int, j: int| 0 <= i < j < r.len() implies !spec_before(
            #[trigger] r[j],
            #[trigger] r[i],
        ) by {
            if i == 0 {
                assert(r[j] == inner[j - 1]);
            } else {
                assert(r[i] == inner[i - 1] && r[j] == inner[j - 1]);
            }
        }
    } else {
        let r = spec_insert_sorted(x, s);
        assert(r =~= seq![x] + s);
        assert forall|i: int, j: int| 0 <= i < j < r.len() implies !spec_before(
            #[trigger] r[j],
            #[trigger] r[i],
        ) by {
            if i == 0 {
                // r[j] == s[j-1]; x does not come after s.first(), and s is sorted.
                assert(r[j] == s[j - 1]);
                assert(!spec_before(s.first(), x));
                if j - 1 > 0 {
                    assert(!spec_before(s[j - 1], s[0]));
                }
            } else {
                assert(r[i] == s[i - 1] && r[j] == s[j - 1]);
            }
        }
    }
}

/// The sorted sequence is a permutation of the input and is sorted.
pub proof fn lemma_spec_sort(s: Seq<StackItemModel>)
    ensures
        spec_sort(s).to_multiset() == s.to_multiset(),
        spec_sort(s).len() == s.len(),
        spec_is_sorted(spec_sort(s)),
    decreases s.len(),
{
    broadcast use vstd::seq_lib::group_to_multiset_ensures;

    if s.len() == 0 {
        assert(spec_sort(s) =~= Seq::<StackItemModel>::empty());
    } else {
        lemma_spec_sort(s.drop_first());
        lemma_insert_sorted_multiset(s.first(), spec_sort(s.drop_first()));
        lemma_insert_sorted_sorted(s.first(), spec_sort(s.drop_first()));
        lemma_to_multiset_drop_first(s);
    }
}

/// Insert `x` into the sorted vector `acc`, keeping it sorted.
fn insert_sorted(acc: &mut Vec<StackItem>, x: StackItem)
    ensures
        stack_models(final(acc)@) == spec_insert_sorted(x@, stack_models(old(acc)@)),
        final(acc)@.len() == old(acc)@.len() + 1,
{
    let n = acc.len();
    let mut p: usize = 0;
    while p < n && before_item(&acc[p], &x)
        invariant
            n == acc@.len(),
            p <= n,
            forall|j: int| 0 <= j < p ==> spec_before(stack_models(acc@)[j], x@),
        decreases n - p,
    {
        p = p + 1;
    }
    let ghost s = stack_models(acc@);
    let ghost pos = p as int;
    acc.insert(p, x);
    proof {
        assert(stack_models(acc@) =~= s.take(pos) + seq![x@] + s.skip(pos));
        lemma_insert_sorted_at(x@, s, pos);
    }
}

proof fn lemma_insert_sorted_at(x: StackItemModel, s: Seq<StackItemModel>, p: int)
    requires
        0 <= p <= s.len(),
        forall|j: int| 0 <= j < p ==> spec_before(#[trigger] s[j], x),
        p == s.len() || !spec_before(s[p], x),
    ensures
        spec_insert_sorted(x, s) == s.take(p) + seq![x] + s.skip(p),
    decreases p,
{
    if p == 0 {
        if s.len() == 0 {
            assert(spec_insert_sorted(x, s) =~= s.take(0) + seq![x] + s.skip(0));
        } else {
            assert(!spec_before(s.first(), x));
            assert(spec_insert_sorted(x, s) =~= s.take(0) + seq![x] + s.skip(0));
        }
    } else {
        assert(spec_before(s.first(), x));
        let t = s.drop_first();
        assert(forall|j: int| 0 <= j < p - 1 ==> spec_before(#[trigger] t[j], x));
        lemma_insert_sorted_at(x, t, p - 1);
        assert(spec_insert_sorted(x, s) =~= seq![s.first()] + (t.take(p - 1) + seq![x] + t.skip(p
            - 1)));
        assert(seq![s.first()] + (t.take(p - 1) + seq![x] + t.skip(p - 1)) =~= s.take(p) + seq![x]
            + s.skip(p));
    }
}

/// Sort items into display order: newest first, ties broken by ascending
/// durable identifier. The result is `spec_sort` of the input.
pub fn sort_by_display_order(items: Vec<StackItem>) -> (r: Vec<StackItem>)
    ensures
        stack_models(r@) == spec_sort(stack_models(items@)),
        r@.len() == items@.len(),
{
    let ghost orig = stack_models(items@);
    let mut input = items;
    let mut acc: Vec<StackItem> = Vec::new();
    proof {
        assert(input@.len() as int == orig.len());
        assert(stack_models(input@) =~= orig.take(input@.len() as int));
        assert(orig.skip(orig.len() as int) =~= Seq::<StackItemModel>::empty());
        assert(stack_models(acc@) =~= spec_sort(orig.skip(orig.len() as int)));
    }
    while input.len() > 0
        invariant
            stack_models(input@) == orig.take(input@.len() as int),
            stack_models(acc@) == spec_sort(orig.skip(input@.len() as int)),
            input@.len() <= orig.len(),
            acc@.len() + input@.len() == orig.len(),
        decreases input@.len(),
    {
        let ghost k = input@.len() as int;
        match input.pop() {
            Some(x) => {
                proof {
                    assert(x@ == orig.take(k)[k - 1]);
                    assert(x@ == orig[k - 1]);
                    assert(stack_models(input@) =~= orig.take(k - 1));
                    let rest = orig.skip(k - 1);
                    assert(rest.len() > 0);
                    assert(rest.first() == orig[k - 1]);
                    assert(rest.drop_first() =~= orig.skip(k));
                }
                insert_sorted(&mut acc, x);
            },
            None => {
                proof {
                    assert(false);
                }
            },
        }
    }
    proof {
        assert(orig.skip(0) =~= orig);
    }
    acc
}

/// Ordinal resolution against a sorted snapshot: the 1-based rank `number`
/// names the identifier at index `number - 1`, and nothing outside `[1, len]`.
pub open spec fn spec_resolve(sorted: Seq<StackItemModel>, number: int) -> Option<int> {
    if 1 <= number <= sorted.len() {
        Some(sorted[number - 1].id)
    } else {
        None
    }
}

impl ItemManager {
    /// The most recent item, over the whole stack.
    pub fn get_latest(store: &Store) -> (r: Option<StackItem>)
        requires
            store@.wf(),
        ensures
            ({
                let sorted = spec_sort(spec_list(store@, Seq::empty()));
                match r {
                    Some(it) => sorted.len() > 0 && it@ == sorted[0],
                    None => sorted.len() == 0,
                }
            }),
    {
        let empty: Vec<String> = Vec::new();
        assert(names_of(empty@) =~= Seq::<Seq<char>>::empty());
        Self::get_latest_by_tags(store, empty.as_slice())
    }

    /// The most recent item among those carrying every requested tag.
    /// An empty request behaves like `get_latest`.
    pub fn get_latest_by_tags(store: &Store, tags: &[String]) -> (r: Option<StackItem>)
        requires
            store@.wf(),
        ensures
            ({
                let sorted = spec_sort(spec_list(store@, names_of(tags@)));
                match r {
                    Some(it) => sorted.len() > 0 && it@ == sorted[0],
                    None => sorted.len() == 0,
                }
            }),
    {
        let items = Self::list(store, tags);
        let mut sorted = sort_by_display_order(items);
        proof {
            lemma_spec_sort(spec_list(store@, names_of(tags@)));
        }
        if sorted.len() == 0 {
            None
        } else {
            let ghost s = stack_models(sorted@);
            let first = sorted.remove(0);
            assert(first@ == s[0]);
            Some(first)
        }
    }

    /// Resolve a display number against the current tag-filtered listing:
    /// fetch the list, sort it into display order, and take the entry at
    /// `display_number - 1`. Out-of-range ordinals resolve to `None`.
    pub fn get_id_by_display_number(
        store: &Store,
        display_number: usize,
        tags: &[String],
    ) -> (r: Option<i64>)
        requires
            store@.wf(),
        ensures
            ({
                let sorted = spec_sort(spec_list(store@, names_of(tags@)));
                match r {
                    Some(id) => spec_resolve(sorted, display_number as int) == Some(id as int),
                    None => spec_resolve(sorted, display_number as int) is None,
                }
            }),
    {
        let items = Self::list(store, tags);
        let sorted = sort_by_display_order(items);
        if display_number >= 1 && display_number <= sorted.len() {
            Some(sorted[display_number - 1].id)
        } else {
            None
        }
    }
}

} // verus!
