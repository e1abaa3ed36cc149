//! Preparation of listing rows for the presentation layer: truncation with an
//! ellipsis, tag joining, the kind indicator, and the display records that the
//! table renderer consumes. Rendering itself is the presentation layer's job.

use vstd::prelude::*;
use vstd::string::StrSliceExecFns;
use vstd::string::StringExecFns;

use crate::item::StackItem;
use crate::store::names_of;
use crate::text::{spec_join, spec_truncate};

verus! {

/// One row of the item listing, ready for rendering.
pub struct DisplayItem {
    /// 1-based rank in the recency-sorted listing; ephemeral, never stored.
    pub display_number: usize,
    /// "d" for a directory, "f" for a file.
    pub item_type: String,
    pub name: String,
    pub tags: String,
    pub pushed_at: String,
}

/// One row of the tag listing, ready for rendering.
pub struct DisplayTag {
    pub id: i64,
    pub name: String,
    pub count: usize,
}

/// `s` unchanged if it has at most `max_len` characters, else its first
/// `max_len - 3` characters followed by an ellipsis.
pub fn truncate(s: &str, max_len: usize) -> (r: String)
    requires
        max_len >= 3,
    ensures
        r@ == spec_truncate(s@, max_len as int),
{
    let n = s.unicode_len();
    if n <= max_len {
        String::from_str(s)
    } else {
        let head = s.substring_char(0, max_len - 3);
        String::from_str(head).concat("...")
    }
}

/// The parts joined with the separator between consecutive parts.
pub fn join_strings(parts: &Vec<String>, sep: &str) -> (r: String)
    ensures
        r@ == spec_join(names_of(parts@), sep@),
{
    let n = parts.len();
    if n == 0 {
        proof {
            assert(spec_join(names_of(parts@), sep@) =~= Seq::<char>::empty());
        }
        return String::new();
    }
    let mut r = parts[0].clone();
    let mut i: usize = 1;
    proof {
        assert(names_of(parts@).take(1) =~= seq![parts@[0]@]);
        assert(r@ == spec_join(names_of(parts@).take(1), sep@));
    }
    while i < n
        invariant
            1 <= i <= n,
            n == parts@.len(),
            r@ == spec_join(names_of(parts@).take(i as int), sep@),
        decreases n - i,
    {
        proof {
            assert(names_of(parts@).take(i + 1 as int).drop_last() =~= names_of(parts@).take(
                i as int,
            ));
            assert(names_of(parts@).take(i + 1 as int).last() == parts@[i as int]@);
        }
        r.append(sep);
        r.append(parts[i].as_str());
        i = i + 1;
    }
    proof {
        assert(names_of(parts@).take(n as int) =~= names_of(parts@));
    }
    r
}

/// Relies on chrono's timestamp formatting: the push time rendered as
/// `%Y-%m-%d %H:%M:%S` in the machine's local time zone, which nothing
/// portable can pin down; an out-of-range timestamp renders empty.
#[verifier::external_body]
fn format_timestamp(secs: i64) -> String {
    match chrono::DateTime::from_timestamp(secs, 0) {
        Some(dt) => dt.with_timezone(&chrono::Local).format("%Y-%m-%d %H:%M:%S").to_string(),
        None => String::new(),
    }
}

/// The listing row of one item: the given display number, a one-letter kind
/// indicator, the name truncated to 18 characters, and the tags joined with
/// ", " and truncated to 18 characters (empty when the item has no tags).
pub fn create_display_item(item: &StackItem, number: usize) -> (r: DisplayItem)
    ensures
        r.display_number == number,
        r.item_type@ == (if item.item_type@ == "directory"@ {
            "d"@
        } else {
            "f"@
        }),
        r.name@ == spec_truncate(item.original_name@, 18),
        r.tags@ == (if item.tags@.len() == 0 {
            Seq::<char>::empty()
        } else {
            spec_truncate(spec_join(names_of(item.tags@), ", "@), 18)
        }),
{
    let directory = String::from_str("directory");
    let type_indicator = if item.item_type == directory {
        String::from_str("d")
    } else {
        String::from_str("f")
    };
    let name = truncate(item.original_name.as_str(), 18);
    let tags_str = if item.tags.len() == 0 {
        String::new()
    } else {
        let joined = join_strings(&item.tags, ", ");
        truncate(joined.as_str(), 18)
    };
    DisplayItem {
        display_number: number,
        item_type: type_indicator,
        name,
        tags: tags_str,
        pushed_at: format_timestamp(item.pushed_at),
    }
}

} // verus!
