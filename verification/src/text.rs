//! Specification-level string helpers shared across the crate: whitespace
//! trimming, digit classification, joining, and truncation, together with the
//! small executable functions that realize them.

use vstd::prelude::*;
use vstd::string::StrSliceExecFns;

verus! {

/// ASCII whitespace: space, tab, line feed, carriage return, form feed.
pub open spec fn spec_is_space(c: char) -> bool {
    (c as u32) == 32 || (c as u32) == 9 || (c as u32) == 10 || (c as u32) == 13 || (c as u32) == 12
}

/// ASCII decimal digit.
pub open spec fn spec_is_digit(c: char) -> bool {
    48 <= (c as u32) <= 57
}

/// Numeric value of one decimal digit.
pub open spec fn spec_digit_val(c: char) -> int {
    (c as u32) - 48
}

pub open spec fn spec_trim_front(s: Seq<char>) -> Seq<char>
    decreases s.len(),
{
    if s.len() > 0 && spec_is_space(s[0]) {
        spec_trim_front(s.drop_first())
    } else {
        s
    }
}

pub open spec fn spec_trim_back(s: Seq<char>) -> Seq<char>
    decreases s.len(),
{
    if s.len() > 0 && spec_is_space(s.last()) {
        spec_trim_back(s.drop_last())
    } else {
        s
    }
}

/// The string with leading and trailing ASCII whitespace removed.
pub open spec fn spec_trim(s: Seq<char>) -> Seq<char> {
    spec_trim_back(spec_trim_front(s))
}

pub proof fn lemma_trim_front_is_skip(s: Seq<char>, lo: int)
    requires
        0 <= lo <= s.len(),
        forall|j: int| 0 <= j < lo ==> spec_is_space(s[j]),
        lo == s.len() || !spec_is_space(s[lo]),
    ensures
        spec_trim_front(s) == s.skip(lo),
    decreases lo,
{
    if lo == 0 {
        assert(s.skip(0) =~= s);
    } else {
        assert(spec_is_space(s[0]));
        let t = s.drop_first();
        assert(t =~= s.skip(1));
        assert(forall|j: int| 0 <= j < lo - 1 ==> spec_is_space(t[j]));
        lemma_trim_front_is_skip(t, lo - 1);
        assert(t.skip(lo - 1) =~= s.skip(lo));
    }
}

pub proof fn lemma_trim_back_is_take(s: Seq<char>, hi: int)
    requires
        0 <= hi <= s.len(),
        forall|j: int| hi <= j < s.len() ==> spec_is_space(s[j]),
        hi == 0 || !spec_is_space(s[hi - 1]),
    ensures
        spec_trim_back(s) == s.take(hi),
    decreases s.len() - hi,
{
    if hi == s.len() {
        assert(s.take(hi) =~= s);
    } else {
        assert(spec_is_space(s.last()));
        let t = s.drop_last();
        lemma_trim_back_is_take(t, hi);
        assert(t.take(hi) =~= s.take(hi));
    }
}

/// Executable whitespace test, mirroring `spec_is_space`.
pub fn is_space_char(c: char) -> (r: bool)
    ensures
        r == spec_is_space(c),
{
    let u = c as u32;
    u == 32 || u == 9 || u == 10 || u == 13 || u == 12
}

/// Executable digit test, mirroring `spec_is_digit`.
pub fn is_digit_char(c: char) -> (r: bool)
    ensures
        r == spec_is_digit(c),
{
    let u = c as u32;
    48 <= u && u <= 57
}

/// The characters of a string, one per vector slot.
pub fn chars_of(s: &str) -> (r: Vec<char>)
    ensures
        r@ == s@,
{
    let n = s.unicode_len();
    let mut r: Vec<char> = Vec::new();
    let mut i: usize = 0;
    while i < n
        invariant
            n == s@.len(),
            i <= n,
            r@ == s@.take(i as int),
        decreases n - i,
    {
        r.push(s.get_char(i));
        assert(s@.take(i as int).push(s@[i as int]) =~= s@.take(i + 1 as int));
        i = i + 1;
    }
    assert(s@.take(n as int) =~= s@);
    r
}

/// The string with leading and trailing ASCII whitespace removed.
pub fn trim_str(s: &str) -> (r: String)
    ensures
        r@ == spec_trim(s@),
{
    let n = s.unicode_len();
    let mut lo: usize = 0;
    while lo < n && is_space_char(s.get_char(lo))
        invariant
            n == s@.len(),
            lo <= n,
            forall|j: int| 0 <= j < lo ==> spec_is_space(s@[j]),
        decreases n - lo,
    {
        lo = lo + 1;
    }
    proof {
        lemma_trim_front_is_skip(s@, lo as int);
    }
    let mut hi: usize = n;
    while hi > lo && is_space_char(s.get_char(hi - 1))
        invariant
            n == s@.len(),
            lo <= hi <= n,
            forall|j: int| 0 <= j < lo ==> spec_is_space(s@[j]),
            forall|j: int| hi <= j < n ==> spec_is_space(s@[j]),
        decreases hi,
    {
        hi = hi - 1;
    }
    let t = s.substring_char(lo, hi);
    proof {
        let front = s@.skip(lo as int);
        assert(forall|j: int| hi - lo <= j < front.len() ==> spec_is_space(#[trigger] front[j]));
        lemma_trim_back_is_take(front, hi - lo);
        assert(front.take(hi - lo) =~= s@.subrange(lo as int, hi as int));
    }
    String::from_str(t)
}

/// Concatenation of `parts` with `sep` between consecutive parts.
pub open spec fn spec_join(parts: Seq<Seq<char>>, sep: Seq<char>) -> Seq<char>
    decreases parts.len(),
{
    if parts.len() == 0 {
        Seq::empty()
    } else if parts.len() == 1 {
        parts[0]
    } else {
        spec_join(parts.drop_last(), sep) + sep + parts.last()
    }
}

/// `s` unchanged if it has at most `max` characters, else its first
/// `max - 3` characters followed by an ellipsis.
pub open spec fn spec_truncate(s: Seq<char>, max: int) -> Seq<char> {
    if s.len() <= max {
        s
    } else {
        s.take(max - 3) + "..."@
    }
}

/// The views of a sequence of strings.
pub open spec fn names_of(ts: Seq<String>) -> Seq<Seq<char>> {
    ts.map_values(|t: String| t@)
}

/// Lexicographic order on strings, by code point: `a` strictly before `b`.
pub open spec fn spec_str_lt(a: Seq<char>, b: Seq<char>) -> bool
    decreases a.len(),
{
    if b.len() == 0 {
        false
    } else if a.len() == 0 {
        true
    } else if (a[0] as u32) < (b[0] as u32) {
        true
    } else if (a[0] as u32) > (b[0] as u32) {
        false
    } else {
        spec_str_lt(a.drop_first(), b.drop_first())
    }
}

/// What the order says once the first `i` characters are known equal.
proof fn lemma_str_lt_at(a: Seq<char>, b: Seq<char>, i: int)
    requires
        0 <= i <= a.len(),
        i <= b.len(),
        forall|j: int| 0 <= j < i ==> a[j] == b[j],
    ensures
        i < a.len() && i < b.len() && (a[i] as u32) < (b[i] as u32) ==> spec_str_lt(a, b),
        i < a.len() && i < b.len() && (a[i] as u32) > (b[i] as u32) ==> !spec_str_lt(a, b),
        i == a.len() && i < b.len() ==> spec_str_lt(a, b),
        i == b.len() ==> !spec_str_lt(a, b),
    decreases i,
{
    if i == 0 {
    } else {
        assert(a[0] == b[0]);
        let ta = a.drop_first();
        let tb = b.drop_first();
        assert(forall|j: int| 0 <= j < i - 1 ==> ta[j] == a[j + 1] && tb[j] == b[j + 1]);
        lemma_str_lt_at(ta, tb, i - 1);
        if i < a.len() && i < b.len() {
            assert(ta[i - 1] == a[i] && tb[i - 1] == b[i]);
        }
    }
}

/// Executable lexicographic comparison, mirroring `spec_str_lt`.
pub fn str_lt(a: &str, b: &str) -> (r: bool)
    ensures
        r == spec_str_lt(a@, b@),
{
    let na = a.unicode_len();
    let nb = b.unicode_len();
    let mut i: usize = 0;
    while i < na && i < nb
        invariant
            na == a@.len(),
            nb == b@.len(),
            i <= na,
            i <= nb,
            forall|j: int| 0 <= j < i ==> a@[j] == b@[j],
        decreases na - i,
    {
        let ca = a.get_char(i) as u32;
        let cb = b.get_char(i) as u32;
        if ca < cb {
            proof {
                lemma_str_lt_at(a@, b@, i as int);
            }
            return true;
        }
        if ca > cb {
            proof {
                lemma_str_lt_at(a@, b@, i as int);
            }
            return false;
        }
        proof {
            assert((a@[i as int] as u32) == (b@[i as int] as u32));
            assert(a@[i as int] == b@[i as int]);
        }
        i = i + 1;
    }
    proof {
        lemma_str_lt_at(a@, b@, i as int);
    }
    na < nb
}

/// `x` inserted into `s` before the first name that is not lexicographically
/// smaller.
pub open spec fn spec_insert_name(x: Seq<char>, s: Seq<Seq<char>>) -> Seq<Seq<char>>
    decreases s.len(),
{
    if s.len() == 0 {
        seq![x]
    } else if spec_str_lt(s.first(), x) {
        seq![s.first()] + spec_insert_name(x, s.drop_first())
    } else {
        seq![x] + s
    }
}

/// `s` sorted lexicographically by repeated insertion.
pub open spec fn spec_sort_names(s: Seq<Seq<char>>) -> Seq<Seq<char>>
    decreases s.len(),
{
    if s.len() == 0 {
        Seq::empty()
    } else {
        spec_insert_name(s.first(), spec_sort_names(s.drop_first()))
    }
}

proof fn lemma_insert_name_at(x: Seq<char>, s: Seq<Seq<char>>, p: int)
    requires
        0 <= p <= s.len(),
        forall|j: int| 0 <= j < p ==> spec_str_lt(#[trigger] s[j], x),
        p == s.len() || !spec_str_lt(s[p], x),
    ensures
        spec_insert_name(x, s) == s.take(p) + seq![x] + s.skip(p),
    decreases p,
{
    if p == 0 {
        if s.len() == 0 {
            assert(spec_insert_name(x, s) =~= s.take(0) + seq![x] + s.skip(0));
        } else {
            assert(!spec_str_lt(s.first(), x));
            assert(spec_insert_name(x, s) =~= s.take(0) + seq![x] + s.skip(0));
        }
    } else {
        assert(spec_str_lt(s.first(), x));
        let t = s.drop_first();
        assert(forall|j: int| 0 <= j < p - 1 ==> spec_str_lt(#[trigger] t[j], x));
        lemma_insert_name_at(x, t, p - 1);
        assert(spec_insert_name(x, s) =~= seq![s.first()] + (t.take(p - 1) + seq![x] + t.skip(p
            - 1)));
        assert(seq![s.first()] + (t.take(p - 1) + seq![x] + t.skip(p - 1)) =~= s.take(p) + seq![x]
            + s.skip(p));
    }
}

/// Insert `x` into the lexicographically sorted vector.
fn insert_name_sorted(acc: &mut Vec<String>, x: String)
    ensures
        names_of(final(acc)@) == spec_insert_name(x@, names_of(old(acc)@)),
        final(acc)@.len() == old(acc)@.len() + 1,
{
    let n = acc.len();
    let mut p: usize = 0;
    while p < n && str_lt(acc[p].as_str(), x.as_str())
        invariant
            n == acc@.len(),
            p <= n,
            forall|j: int| 0 <= j < p ==> spec_str_lt(#[trigger] names_of(acc@)[j], x@),
        decreases n - p,
    {
        p = p + 1;
    }
    let ghost s = names_of(acc@);
    let ghost pos = p as int;
    acc.insert(p, x);
    proof {
        assert(names_of(acc@) =~= s.take(pos) + seq![x@] + s.skip(pos));
        lemma_insert_name_at(x@, s, pos);
    }
}

/// Sort strings lexicographically by code point, ascending.
pub fn sort_strings(items: Vec<String>) -> (r: Vec<String>)
    ensures
        names_of(r@) == spec_sort_names(names_of(items@)),
        r@.len() == items@.len(),
{
    let ghost orig = names_of(items@);
    let mut input = items;
    let mut acc: Vec<String> = Vec::new();
    proof {
        assert(input@.len() as int == orig.len());
        assert(names_of(input@) =~= orig.take(input@.len() as int));
        assert(orig.skip(orig.len() as int) =~= Seq::<Seq<char>>::empty());
        assert(names_of(acc@) =~= spec_sort_names(orig.skip(orig.len() as int)));
    }
    while input.len() > 0
        invariant
            names_of(input@) == orig.take(input@.len() as int),
            names_of(acc@) == spec_sort_names(orig.skip(input@.len() as int)),
            input@.len() <= orig.len(),
            acc@.len() + input@.len() == orig.len(),
        decreases input@.len(),
    {
        let ghost k = input@.len() as int;
        match input.pop() {
            Some(x) => {
                proof {
                    assert(x@ == orig.take(k)[k - 1]);
                    assert(x@ == orig[k - 1]);
                    assert(names_of(input@) =~= orig.take(k - 1));
                    let rest = orig.skip(k - 1);
                    assert(rest.len() > 0);
                    assert(rest.first() == orig[k - 1]);
                    assert(rest.drop_first() =~= orig.skip(k));
                }
                insert_name_sorted(&mut acc, x);
            },
            None => {
                proof {
                    assert(false);
                }
            },
        }
    }
    proof {
        assert(orig.skip(0) =~= orig);
    }
    acc
}

/// The characters `cs[lo..hi)` as a string, for error messages.
pub fn substring_of(cs: &Vec<char>, lo: usize, hi: usize) -> (r: String)
    requires
        lo <= hi <= cs@.len(),
    ensures
        r@ == cs@.subrange(lo as int, hi as int),
{
    let mut r = String::new();
    let mut i: usize = lo;
    while i < hi
        invariant
            lo <= i <= hi <= cs@.len(),
            r@ == cs@.subrange(lo as int, i as int),
        decreases hi - i,
    {
        push_char(&mut r, cs[i]);
        proof {
            assert(cs@.subrange(lo as int, i as int).push(cs@[i as int]) =~= cs@.subrange(
                lo as int,
                i + 1 as int,
            ));
        }
        i = i + 1;
    }
    r
}

/// Append one character to a string.
#[verifier::external_body]
pub fn push_char(s: &mut String, c: char)
    ensures
        final(s)@ == old(s)@.push(c),
{
    s.push(c);
}

} // verus!
