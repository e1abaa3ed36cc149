//! The selection-range parser: expressions such as `1,3-5,7` name display
//! ordinals, as single numbers, comma-separated lists, and two-sided ranges.
//! Whitespace around terms and around the range dash is ignored; duplicates
//! collapse; the result is sorted ascending. A term with more than one dash, a
//! descending range, a non-numeric token, and an expression yielding no
//! numbers at all are each invalid.

use vstd::prelude::*;
use vstd::string::StrSliceExecFns;
use vstd::string::StringExecFns;

use crate::error::FstkError;
use crate::text::{
    chars_of, is_digit_char, is_space_char, spec_is_digit, spec_is_space, spec_digit_val,
    push_char, spec_trim, spec_trim_back, spec_trim_front, substring_of,
};

verus! {

/// Index of the first occurrence of `c` in `s`, or -1 if there is none.
pub open spec fn find_char(s: Seq<char>, c: char) -> int
    decreases s.len(),
{
    if s.len() == 0 {
        -1
    } else if s[0] == c {
        0
    } else {
        let r = find_char(s.drop_first(), c);
        if r < 0 {
            -1
        } else {
            r + 1
        }
    }
}

pub proof fn lemma_find_char(s: Seq<char>, c: char)
    ensures
        -1 <= find_char(s, c) < s.len(),
        find_char(s, c) >= 0 ==> s[find_char(s, c)] == c,
        forall|j: int| 0 <= j < find_char(s, c) ==> s[j] != c,
        find_char(s, c) == -1 ==> forall|j: int| 0 <= j < s.len() ==> s[j] != c,
    decreases s.len(),
{
    if s.len() > 0 && s[0] != c {
        let t = s.drop_first();
        lemma_find_char(t, c);
        assert(forall|j: int| 0 <= j < t.len() ==> t[j] == s[j + 1]);
        if find_char(s, c) == -1 {
            assert forall|j: int| 0 <= j < s.len() implies s[j] != c by {
                if j > 0 {
                    assert(t[j - 1] == s[j]);
                }
            }
        }
        if find_char(s, c) >= 0 {
            assert(s[find_char(s, c)] == t[find_char(t, c)]);
            assert forall|j: int| 0 <= j < find_char(s, c) implies s[j] != c by {
                if j > 0 {
                    assert(t[j - 1] == s[j]);
                    assert(t[j - 1] != c);
                }
            }
        }
    }
}

#[via_fn]
proof fn spec_terms_decreases(s: Seq<char>)
{
    lemma_find_char(s, ',');
}

/// The comma-separated terms of `s`, in order. An expression with no comma is
/// one term; each comma ends a term, so a trailing comma yields an empty
/// final term.
pub open spec fn spec_terms(s: Seq<char>) -> Seq<Seq<char>>
    decreases s.len(),
    via spec_terms_decreases
{
    let k = find_char(s, ',');
    if k < 0 {
        seq![s]
    } else {
        seq![s.take(k)] + spec_terms(s.skip(k + 1))
    }
}

/// Number of occurrences of `c` in `s`.
pub open spec fn count_char(s: Seq<char>, c: char) -> int
    decreases s.len(),
{
    if s.len() == 0 {
        0int
    } else {
        count_char(s.drop_last(), c) + if s.last() == c {
            1int
        } else {
            0int
        }
    }
}

/// `s` is one or more decimal digits.
pub open spec fn all_digits(s: Seq<char>) -> bool {
    s.len() > 0 && forall|i: int| 0 <= i < s.len() ==> spec_is_digit(#[trigger] s[i])
}

/// The numeric value of a digit string.
pub open spec fn digits_val(s: Seq<char>) -> int
    decreases s.len(),
{
    if s.len() == 0 {
        0int
    } else {
        digits_val(s.drop_last()) * 10 + spec_digit_val(s.last())
    }
}

/// `s` is a digit string whose value fits the machine.
pub open spec fn valid_number(s: Seq<char>) -> bool {
    all_digits(s) && digits_val(s) <= usize::MAX
}

/// One term is valid when, after trimming, it is empty, a valid number, or an
/// ascending two-sided range of valid numbers.
pub open spec fn spec_term_valid(t: Seq<char>) -> bool {
    let tr = spec_trim(t);
    if tr.len() == 0 {
        true
    } else if count_char(tr, '-') == 0 {
        valid_number(tr)
    } else if count_char(tr, '-') == 1 {
        let k = find_char(tr, '-');
        let a = spec_trim(tr.take(k));
        let b = spec_trim(tr.skip(k + 1));
        valid_number(a) && valid_number(b) && digits_val(a) <= digits_val(b)
    } else {
        false
    }
}

/// The ordinals one term contributes: none for an empty term, a singleton for
/// a number, the closed interval for a range.
pub open spec fn spec_term_values(t: Seq<char>) -> Set<int> {
    let tr = spec_trim(t);
    if tr.len() == 0 {
        Set::empty()
    } else if count_char(tr, '-') == 0 {
        Set::empty().insert(digits_val(tr))
    } else if count_char(tr, '-') == 1 {
        let k = find_char(tr, '-');
        let a = spec_trim(tr.take(k));
        let b = spec_trim(tr.skip(k + 1));
        Set::new(|v: int| digits_val(a) <= v <= digits_val(b))
    } else {
        Set::empty()
    }
}

/// The ordinals contributed by a list of terms.
pub open spec fn spec_terms_values(ts: Seq<Seq<char>>) -> Set<int>
    decreases ts.len(),
{
    if ts.len() == 0 {
        Set::empty()
    } else {
        spec_terms_values(ts.drop_last()).union(spec_term_values(ts.last()))
    }
}

/// Every term of the expression is valid.
pub open spec fn spec_expr_valid(s: Seq<char>) -> bool {
    forall|i: int| 0 <= i < spec_terms(s).len() ==> spec_term_valid(#[trigger] spec_terms(s)[i])
}

/// The set of ordinals the expression names.
pub open spec fn spec_expr_values(s: Seq<char>) -> Set<int> {
    spec_terms_values(spec_terms(s))
}

/// A digit string's value dominates each of its prefixes' values.
proof fn lemma_digits_val_bounds(s: Seq<char>, i: int)
    requires
        forall|j: int| 0 <= j < s.len() ==> spec_is_digit(#[trigger] s[j]),
        0 <= i <= s.len(),
    ensures
        0 <= digits_val(s.take(i)) <= digits_val(s),
    decreases s.len() - i,
{
    if i == s.len() {
        assert(s.take(i) =~= s);
        lemma_digits_val_nonneg(s);
    } else {
        lemma_digits_val_bounds(s, i + 1);
        let t = s.take(i + 1);
        assert(t.drop_last() =~= s.take(i));
        assert(t.last() == s[i]);
        lemma_digits_val_nonneg(s.take(i));
        assert(digits_val(s.take(i)) <= digits_val(s.take(i)) * 10 + spec_digit_val(s[i]));
    }
}

proof fn lemma_digits_val_nonneg(s: Seq<char>)
    requires
        forall|j: int| 0 <= j < s.len() ==> spec_is_digit(#[trigger] s[j]),
    ensures
        digits_val(s) >= 0,
    decreases s.len(),
{
    if s.len() > 0 {
        lemma_digits_val_nonneg(s.drop_last());
    }
}

/// Parse the digit substring `cs[lo..hi)` as a machine integer. `None` when
/// the substring is empty, holds a non-digit, or does not fit.
fn parse_usize(cs: &Vec<char>, lo: usize, hi: usize) -> (r: Option<usize>)
    requires
        lo <= hi <= cs@.len(),
    ensures
        ({
            let sub = cs@.subrange(lo as int, hi as int);
            match r {
                Some(v) => valid_number(sub) && v as int == digits_val(sub),
                None => !valid_number(sub),
            }
        }),
{
    let ghost sub = cs@.subrange(lo as int, hi as int);
    if lo == hi {
        return None;
    }
    let mut acc: usize = 0;
    let mut i: usize = lo;
    while i < hi
        invariant
            lo <= i <= hi <= cs@.len(),
            sub == cs@.subrange(lo as int, hi as int),
            forall|j: int| 0 <= j < i - lo ==> spec_is_digit(#[trigger] sub[j]),
            acc as int == digits_val(sub.take(i - lo)),
        decreases hi - i,
    {
        let c = cs[i];
        assert(sub[i - lo] == c);
        if !is_digit_char(c) {
            assert(!all_digits(sub));
            return None;
        }
        let d = (c as u32 - 48) as usize;
        proof {
            assert(sub.take(i + 1 - lo).drop_last() =~= sub.take(i - lo));
            assert(sub.take(i + 1 - lo).last() == sub[i - lo]);
        }
        let next = match acc.checked_mul(10) {
            Some(m) => m.checked_add(d),
            None => None,
        };
        match next {
            Some(v) => {
                acc = v;
            },
            None => {
                // The prefix already exceeds the machine bound; if the rest
                // are digits the whole value does too, and if not, the term
                // is invalid anyway.
                proof {
                    if all_digits(sub) {
                        lemma_digits_val_bounds(sub, i + 1 - lo);
                        lemma_digits_val_nonneg(sub.take(i - lo));
                    }
                }
                return None;
            },
        }
        i = i + 1;
    }
    proof {
        assert(sub.take(hi - lo) =~= sub);
        assert(all_digits(sub));
    }
    Some(acc)
}

/// `x` inserted into the strictly ascending sequence `s`, kept strictly
/// ascending; inserting a present value changes nothing.
pub open spec fn spec_insert_unique(x: usize, s: Seq<usize>) -> Seq<usize>
    decreases s.len(),
{
    if s.len() == 0 {
        seq![x]
    } else if s.first() < x {
        seq![s.first()] + spec_insert_unique(x, s.drop_first())
    } else if s.first() == x {
        s
    } else {
        seq![x] + s
    }
}

/// Strictly ascending.
pub open spec fn strictly_sorted(s: Seq<usize>) -> bool {
    forall|i: int, j: int| 0 <= i < j < s.len() ==> s[i] < s[j]
}

proof fn lemma_insert_unique(x: usize, s: Seq<usize>)
    requires
        strictly_sorted(s),
    ensures
        strictly_sorted(spec_insert_unique(x, s)),
        forall|y: usize| #![trigger spec_insert_unique(x, s).contains(y)]
            spec_insert_unique(x, s).contains(y) <==> s.contains(y) || y == x,
    decreases s.len(),
{
    let r = spec_insert_unique(x, s);
    if s.len() == 0 {
        assert forall|y: usize| r.contains(y) <==> s.contains(y) || y == x by {
            if r.contains(y) {
                let w = choose|w: int| 0 <= w < r.len() && r[w] == y;
                assert(r[0] == x);
            }
            if y == x {
                assert(r[0] == y);
            }
        }
    } else if s.first() < x {
        let t = s.drop_first();
        assert(strictly_sorted(t)) by {
            assert forall|i: int, j: int| 0 <= i < j < t.len() implies t[i] < t[j] by {
                assert(t[i] == s[i + 1] && t[j] == s[j + 1]);
            }
        }
        lemma_insert_unique(x, t);
        let inner = spec_insert_unique(x, t);
        assert(r =~= seq![s.first()] + inner);
        // Every element of the inner insertion exceeds the head.
        assert forall|w: int| 0 <= w < inner.len() implies s.first() < inner[w] by {
            assert(inner.contains(inner[w]));
            if inner[w] == x {
            } else {
                assert(t.contains(inner[w]));
                let w2 = choose|w2: int| 0 <= w2 < t.len() && t[w2] == inner[w];
                assert(s[w2 + 1] == inner[w]);
                assert(s[0] < s[w2 + 1]);
            }
        }
        assert forall|i: int, j: int| 0 <= i < j < r.len() implies r[i] < r[j] by {
            if i == 0 {
                assert(r[j] == inner[j - 1]);
            } else {
                assert(r[i] == inner[i - 1] && r[j] == inner[j - 1]);
            }
        }
        assert forall|y: usize| r.contains(y) <==> s.contains(y) || y == x by {
            if r.contains(y) {
                let w = choose|w: int| 0 <= w < r.len() && r[w] == y;
                if w == 0 {
                    assert(s[0] == y);
                } else {
                    assert(inner[w - 1] == y);
                    assert(inner.contains(y));
                    if t.contains(y) {
                        let w2 = choose|w2: int| 0 <= w2 < t.len() && t[w2] == y;
                        assert(s[w2 + 1] == y);
                    }
                }
            }
            if s.contains(y) {
                let w = choose|w: int| 0 <= w < s.len() && s[w] == y;
                if w == 0 {
                    assert(r[0] == y);
                } else {
                    assert(t[w - 1] == y);
                    assert(t.contains(y));
                    assert(inner.contains(y));
                    let w2 = choose|w2: int| 0 <= w2 < inner.len() && inner[w2] == y;
                    assert(r[w2 + 1] == y);
                }
            }
            if y == x {
                assert(inner.contains(y));
                let w2 = choose|w2: int| 0 <= w2 < inner.len() && inner[w2] == y;
                assert(r[w2 + 1] == y);
            }
        }
    } else if s.first() == x {
        assert forall|y: usize| r.contains(y) <==> s.contains(y) || y == x by {
            if y == x {
                assert(s[0] == y);
                assert(s.contains(y));
            }
        }
    } else {
        assert(r =~= seq![x] + s);
        assert forall|i: int, j: int| 0 <= i < j < r.len() implies r[i] < r[j] by {
            if i == 0 {
                assert(r[j] == s[j - 1]);
                if j - 1 > 0 {
                    assert(s[0] < s[j - 1]);
                }
            } else {
                assert(r[i] == s[i - 1] && r[j] == s[j - 1]);
            }
        }
        assert forall|y: usize| r.contains(y) <==> s.contains(y) || y == x by {
            if r.contains(y) {
                let w = choose|w: int| 0 <= w < r.len() && r[w] == y;
                if w > 0 {
                    assert(s[w - 1] == y);
                }
            }
            if s.contains(y) {
                let w = choose|w: int| 0 <= w < s.len() && s[w] == y;
                assert(r[w + 1] == y);
            }
            if y == x {
                assert(r[0] == y);
            }
        }
    }
}

proof fn lemma_insert_unique_at(x: usize, s: Seq<usize>, p: int)
    requires
        0 <= p <= s.len(),
        forall|j: int| 0 <= j < p ==> s[j] < x,
        p == s.len() || s[p] >= x,
    ensures
        p < s.len() && s[p] == x ==> spec_insert_unique(x, s) == s,
        !(p < s.len() && s[p] == x) ==> spec_insert_unique(x, s) == s.take(p) + seq![x] + s.skip(
            p,
        ),
    decreases p,
{
    if p == 0 {
        if s.len() == 0 || s[0] > x {
            assert(spec_insert_unique(x, s) =~= s.take(0) + seq![x] + s.skip(0));
        }
    } else {
        assert(s.first() < x);
        let t = s.drop_first();
        assert(forall|j: int| 0 <= j < p - 1 ==> t[j] == s[j + 1]);
        lemma_insert_unique_at(x, t, p - 1);
        if p < s.len() && s[p] == x {
            assert(t[p - 1] == x);
            assert(spec_insert_unique(x, s) =~= seq![s.first()] + t);
            assert(seq![s.first()] + t =~= s);
        } else {
            assert(spec_insert_unique(x, s) =~= seq![s.first()] + (t.take(p - 1) + seq![x]
                + t.skip(p - 1)));
            assert(seq![s.first()] + (t.take(p - 1) + seq![x] + t.skip(p - 1)) =~= s.take(p)
                + seq![x] + s.skip(p));
        }
    }
}

/// Insert `x` into the strictly ascending vector, keeping it strictly
/// ascending; a present value is left alone.
fn insert_unique(v: &mut Vec<usize>, x: usize)
    requires
        strictly_sorted(old(v)@),
    ensures
        final(v)@ == spec_insert_unique(x, old(v)@),
        strictly_sorted(final(v)@),
        forall|y: usize| final(v)@.contains(y) <==> old(v)@.contains(y) || y == x,
{
    proof {
        lemma_insert_unique(x, old(v)@);
    }
    let n = v.len();
    let mut p: usize = 0;
    while p < n && v[p] < x
        invariant
            n == v@.len(),
            p <= n,
            forall|j: int| 0 <= j < p ==> v@[j] < x,
        decreases n - p,
    {
        p = p + 1;
    }
    let ghost s = v@;
    let ghost pos = p as int;
    proof {
        assert(s == old(v)@);
    }
    if p < n && v[p] == x {
        proof {
            lemma_insert_unique_at(x, s, pos);
            assert(v@ == spec_insert_unique(x, old(v)@));
            assert forall|y: usize| v@.contains(y) <==> old(v)@.contains(y) || y == x by {
                assert(spec_insert_unique(x, old(v)@).contains(y) <==> old(v)@.contains(y) || y
                    == x);
            }
        }
        return ;
    }
    v.insert(p, x);
    proof {
        lemma_insert_unique_at(x, s, pos);
        assert(v@ =~= s.take(pos) + seq![x] + s.skip(pos));
        assert(v@ == spec_insert_unique(x, old(v)@));
        assert forall|y: usize| v@.contains(y) <==> old(v)@.contains(y) || y == x by {
            assert(spec_insert_unique(x, old(v)@).contains(y) <==> old(v)@.contains(y) || y == x);
        }
    }
}

/// Parse a selection expression such as `1,3-5,7` into the ascending,
/// duplicate-free list of the ordinals it names.
///
/// Returns `Ok` exactly when every term is valid and at least one ordinal is
/// named; the result then holds exactly the named ordinals, sorted ascending.
/// Every failure is an `InvalidArgument` error naming the offending token.
pub fn parse_number_range(range_str: &str) -> (r: Result<Vec<usize>, FstkError>)
    ensures
        r is Ok <==> spec_expr_valid(range_str@) && (exists|v: int|
            spec_expr_values(range_str@).contains(v)),
        r is Ok ==> ({
            let out = r->Ok_0;
            &&& strictly_sorted(out@)
            &&& forall|y: usize|
                out@.contains(y) <==> spec_expr_values(range_str@).contains(y as int)
        }),
        r is Err ==> r->Err_0 is InvalidArgument,
{
    let cs = chars_of(range_str);
    let ghost whole = range_str@;
    let n = cs.len();
    let mut result: Vec<usize> = Vec::new();
    let mut p: usize = 0;
    let ghost mut done: Seq<Seq<char>> = Seq::empty();
    proof {
        assert(whole.skip(0) =~= whole);
        assert(spec_terms(whole) =~= done + spec_terms(whole.skip(0)));
        assert(spec_terms_values(done) =~= Set::<int>::empty());
    }
    loop
        invariant
            whole == range_str@,
            n == whole.len(),
            cs@ == whole,
            p <= n,
            spec_terms(whole) == done + spec_terms(whole.skip(p as int)),
            forall|i: int| 0 <= i < done.len() ==> spec_term_valid(#[trigger] done[i]),
            strictly_sorted(result@),
            forall|y: usize|
                result@.contains(y) <==> spec_terms_values(done).contains(y as int),
        decreases n - p,
    {
        // Find the end of the current term.
        let ghost rest = whole.skip(p as int);
        let mut q: usize = p;
        while q < n && !(cs[q] == ',')
            invariant
                n == cs@.len(),
                cs@ == whole,
                p <= q <= n,
                forall|j: int| p <= j < q ==> whole[j] != ',',
            decreases n - q,
        {
            q = q + 1;
        }
        proof {
            assert(forall|j: int| 0 <= j < q - p ==> rest[j] != ',');
            lemma_find_char_from_scan(rest, ',', q as int - p);
            if q < n {
                assert(find_char(rest, ',') == q - p);
                assert(rest.take(q - p) =~= whole.subrange(p as int, q as int));
                assert(rest.skip(q - p + 1) =~= whole.skip(q + 1 as int));
            } else {
                assert(find_char(rest, ',') == -1);
                assert(rest =~= whole.subrange(p as int, n as int));
            }
        }
        let ghost term = whole.subrange(p as int, q as int);
        let ghost res_pre = result@;
        // Handle the term cs[p..q).
        match handle_term(&cs, p, q, &mut result) {
            Ok(()) => {},
            Err(e) => {
                proof {
                    let ts = spec_terms(whole);
                    let tr = spec_terms(rest);
                    if q < n {
                        assert(tr == seq![rest.take(q - p)] + spec_terms(whole.skip(q + 1 as int)));
                        assert(tr[0] == term);
                    } else {
                        assert(tr == seq![rest]);
                        assert(tr[0] == term);
                    }
                    assert(ts.len() == done.len() + tr.len());
                    assert(ts[done.len() as int] == tr[0]);
                    if spec_expr_valid(whole) {
                        assert(spec_term_valid(ts[done.len() as int]));
                        assert(false);
                    }
                }
                return Err(e);
            },
        }
        proof {
            let pre = done;
            let newdone = done.push(term);
            assert(newdone.drop_last() =~= pre);
            assert(newdone.last() == term);
            assert(spec_terms_values(newdone) =~= spec_terms_values(pre).union(
                spec_term_values(term),
            ));
            if q < n {
                assert(spec_terms(whole.skip(p as int)) =~= seq![term] + spec_terms(
                    whole.skip(q + 1 as int),
                ));
                assert(pre + spec_terms(whole.skip(p as int)) =~= newdone + spec_terms(
                    whole.skip(q + 1 as int),
                ));
            } else {
                assert(spec_terms(whole.skip(p as int)) =~= seq![term]);
                assert(pre + spec_terms(whole.skip(p as int)) =~= newdone);
            }
            done = newdone;
            assert forall|i: int| 0 <= i < done.len() implies spec_term_valid(
                #[trigger] done[i],
            ) by {
                if i < pre.len() {
                    assert(done[i] == pre[i]);
                } else {
                    assert(done[i] == term);
                }
            }
            assert forall|y: usize|
                result@.contains(y) <==> spec_terms_values(done).contains(y as int) by {
                assert(result@.contains(y) <==> res_pre.contains(y) || spec_term_values(
                    term,
                ).contains(y as int));
                assert(res_pre.contains(y) <==> spec_terms_values(pre).contains(y as int));
            }
        }
        if q < n {
            p = q + 1;
        } else {
            // Last term handled.
            proof {
                assert(spec_terms(whole) == done);
                assert(spec_expr_valid(whole));
                assert(spec_expr_values(whole) == spec_terms_values(done));
            }
            if result.len() == 0 {
                proof {
                    assert forall|v: int| !spec_expr_values(whole).contains(v) by {
                        if spec_expr_values(whole).contains(v) {
                            lemma_values_bounded(done, v);
                            assert(result@.contains(v as usize));
                        }
                    }
                }
                return Err(
                    FstkError::InvalidArgument(
                        String::from_str("No valid numbers in range expression"),
                    ),
                );
            }
            proof {
                assert(result@.contains(result@[0]));
                assert(spec_expr_values(whole).contains(result@[0] as int));
            }
            return Ok(result);
        }
    }
}

/// Every named ordinal of a list of valid terms is a machine integer, so a
/// set membership can be replayed through the result vector.
proof fn lemma_values_bounded(ts: Seq<Seq<char>>, v: int)
    requires
        forall|i: int| 0 <= i < ts.len() ==> spec_term_valid(#[trigger] ts[i]),
        spec_terms_values(ts).contains(v),
    ensures
        0 <= v <= usize::MAX,
    decreases ts.len(),
{
    if ts.len() > 0 {
        assert(forall|i: int| 0 <= i < ts.drop_last().len() ==> ts.drop_last()[i] == ts[i]);
        if spec_terms_values(ts.drop_last()).contains(v) {
            lemma_values_bounded(ts.drop_last(), v);
        } else {
            let t = ts.last();
            assert(spec_term_values(t).contains(v));
            let tr = spec_trim(t);
            if tr.len() == 0 {
            } else if count_char(tr, '-') == 0 {
                assert(v == digits_val(tr));
                lemma_digits_val_nonneg(tr);
            } else if count_char(tr, '-') == 1 {
                let k = find_char(tr, '-');
                let a = spec_trim(tr.take(k));
                let b = spec_trim(tr.skip(k + 1));
                lemma_digits_val_nonneg(a);
            }
        }
    }
}

proof fn lemma_find_char_from_scan(s: Seq<char>, c: char, k: int)
    requires
        0 <= k <= s.len(),
        forall|j: int| 0 <= j < k ==> s[j] != c,
        k == s.len() || s[k] == c,
    ensures
        find_char(s, c) == if k == s.len() {
            -1int
        } else {
            k
        },
    decreases k,
{
    if k == 0 {
        if s.len() > 0 && s[0] != c {
            lemma_find_char(s.drop_first(), c);
        }
    } else {
        let t = s.drop_first();
        assert(forall|j: int| 0 <= j < k - 1 ==> t[j] == s[j + 1]);
        lemma_find_char_from_scan(t, c, k - 1);
    }
}

/// Handle one raw term `cs[lo..hi)`: trim it, skip it when empty, and insert
/// its number or its range of numbers into the result. Any invalid token is
/// reported with an `InvalidArgument` error and the result is left unchanged.
fn handle_term(cs: &Vec<char>, lo: usize, hi: usize, result: &mut Vec<usize>) -> (r: Result<
    (),
    FstkError,
>)
    requires
        lo <= hi <= cs@.len(),
        strictly_sorted(old(result)@),
    ensures
        r is Ok ==> spec_term_valid(cs@.subrange(lo as int, hi as int)),
        r is Ok ==> strictly_sorted(final(result)@),
        r is Ok ==> forall|y: usize|
            #![trigger final(result)@.contains(y)]
            final(result)@.contains(y) <==> old(result)@.contains(y) || spec_term_values(
                cs@.subrange(lo as int, hi as int),
            ).contains(y as int),
        r is Err ==> !spec_term_valid(cs@.subrange(lo as int, hi as int)),
        r is Err ==> final(result)@ == old(result)@,
        r is Err ==> r->Err_0 is InvalidArgument,
{
    let ghost term = cs@.subrange(lo as int, hi as int);
    // Trim the term.
    let mut a: usize = lo;
    while a < hi && is_space_char(cs[a])
        invariant
            lo <= a <= hi <= cs@.len(),
            forall|j: int| lo <= j < a ==> spec_is_space(cs@[j]),
        decreases hi - a,
    {
        a = a + 1;
    }
    let mut b: usize = hi;
    while b > a && is_space_char(cs[b - 1])
        invariant
            a <= b <= hi,
            a <= cs@.len(),
            b <= cs@.len(),
            forall|j: int| b <= j < hi ==> spec_is_space(cs@[j]),
        decreases b,
    {
        b = b - 1;
    }
    proof {
        lemma_trim_range(cs@, lo as int, hi as int, a as int, b as int);
    }
    let ghost tr = spec_trim(term);
    assert(tr =~= cs@.subrange(a as int, b as int));
    if a == b {
        // Empty after trimming: contributes nothing.
        assert(spec_term_values(term) =~= Set::<int>::empty());
        return Ok(());
    }
    // Count the dashes and find the first.
    let mut dashes: usize = 0;
    let mut first_dash: usize = b;
    let mut i: usize = a;
    proof {
        assert(tr.take(0) =~= Seq::<char>::empty());
    }
    while i < b
        invariant
            a <= i <= b <= cs@.len(),
            a <= first_dash <= i || first_dash == b,
            tr == cs@.subrange(a as int, b as int),
            dashes <= i - a,
            dashes as int == count_char(tr.take(i - a), '-'),
            dashes == 0 ==> first_dash == b && (forall|j: int| 0 <= j < i - a ==> tr[j] != '-'),
            dashes > 0 ==> a <= first_dash < i && cs@[first_dash as int] == '-' && (forall|j: int|
                0 <= j < first_dash - a ==> tr[j] != '-'),
        decreases b - i,
    {
        proof {
            assert(tr.take(i + 1 - a).drop_last() =~= tr.take(i - a));
            assert(tr.take(i + 1 - a).last() == tr[i - a]);
        }
        if cs[i] == '-' {
            if dashes == 0 {
                first_dash = i;
            }
            dashes = dashes + 1;
        }
        i = i + 1;
    }
    proof {
        assert(tr.take(b - a) =~= tr);
    }
    if dashes == 0 {
        // A bare number.
        match parse_usize(cs, a, b) {
            Some(v) => {
                insert_unique(result, v);
                proof {
                    assert(spec_term_values(term) =~= Set::empty().insert(digits_val(tr)));
                }
                Ok(())
            },
            None => {
                let token = substring_of(cs, a, b);
                Err(FstkError::InvalidArgument(String::from_str("Invalid number: ").concat(
                    token.as_str(),
                )))
            },
        }
    } else if dashes == 1 {
        proof {
            lemma_find_char_from_scan(tr, '-', first_dash as int - a);
        }
        let ghost k = find_char(tr, '-');
        assert(k == first_dash - a);
        // Trim each side of the dash.
        let mut a2: usize = a;
        while a2 < first_dash && is_space_char(cs[a2])
            invariant
                a <= a2 <= first_dash,
                first_dash <= cs@.len(),
                forall|j: int| a <= j < a2 ==> spec_is_space(cs@[j]),
            decreases first_dash - a2,
        {
            a2 = a2 + 1;
        }
        let mut b2: usize = first_dash;
        while b2 > a2 && is_space_char(cs[b2 - 1])
            invariant
                a2 <= b2 <= first_dash,
                a2 <= cs@.len(),
                b2 <= cs@.len(),
                first_dash <= cs@.len(),
                forall|j: int| b2 <= j < first_dash ==> spec_is_space(cs@[j]),
            decreases b2,
        {
            b2 = b2 - 1;
        }
        let mut a3: usize = first_dash + 1;
        while a3 < b && is_space_char(cs[a3])
            invariant
                first_dash + 1 <= a3 <= b,
                b <= cs@.len(),
                forall|j: int| first_dash + 1 <= j < a3 ==> spec_is_space(cs@[j]),
            decreases b - a3,
        {
            a3 = a3 + 1;
        }
        let mut b3: usize = b;
        while b3 > a3 && is_space_char(cs[b3 - 1])
            invariant
                a3 <= b3 <= b,
                a3 <= cs@.len(),
                b3 <= cs@.len(),
                b <= cs@.len(),
                forall|j: int| b3 <= j < b ==> spec_is_space(cs@[j]),
            decreases b3,
        {
            b3 = b3 - 1;
        }
        proof {
            assert(tr.take(k) =~= cs@.subrange(a as int, first_dash as int));
            lemma_trim_range(cs@, a as int, first_dash as int, a2 as int, b2 as int);
            assert(tr.skip(k + 1) =~= cs@.subrange(first_dash + 1 as int, b as int));
            lemma_trim_range(cs@, first_dash + 1 as int, b as int, a3 as int, b3 as int);
        }
        let ghost sa = spec_trim(tr.take(k));
        let ghost sb = spec_trim(tr.skip(k + 1));
        assert(sa =~= cs@.subrange(a2 as int, b2 as int));
        assert(sb =~= cs@.subrange(a3 as int, b3 as int));
        let va = match parse_usize(cs, a2, b2) {
            Some(v) => v,
            None => {
                let token = substring_of(cs, a2, b2);
                return Err(
                    FstkError::InvalidArgument(
                        String::from_str("Invalid number in range: ").concat(token.as_str()),
                    ),
                );
            },
        };
        let vb = match parse_usize(cs, a3, b3) {
            Some(v) => v,
            None => {
                let token = substring_of(cs, a3, b3);
                return Err(
                    FstkError::InvalidArgument(
                        String::from_str("Invalid number in range: ").concat(token.as_str()),
                    ),
                );
            },
        };
        if va > vb {
            let token = substring_of(cs, a, b);
            return Err(
                FstkError::InvalidArgument(
                    String::from_str("Invalid range: ").concat(token.as_str()),
                ),
            );
        }
        // Insert the whole closed interval.
        let mut v: usize = va;
        proof {
            assert(spec_term_values(term) =~= Set::new(
                |y: int| digits_val(sa) <= y <= digits_val(sb),
            ));
        }
        while v < vb
            invariant
                va <= v <= vb,
                strictly_sorted(result@),
                forall|y: usize|
                    result@.contains(y) <==> old(result)@.contains(y) || (va <= y < v),
            decreases vb - v,
        {
            insert_unique(result, v);
            v = v + 1;
        }
        insert_unique(result, vb);
        proof {
            assert forall|y: usize|
                result@.contains(y) <==> old(result)@.contains(y) || spec_term_values(
                    term,
                ).contains(y as int) by {
                assert((va <= y <= vb) == spec_term_values(term).contains(y as int));
            }
        }
        Ok(())
    } else {
        let token = substring_of(cs, a, b);
        Err(
            FstkError::InvalidArgument(
                String::from_str("Invalid range format: ").concat(token.as_str()),
            ),
        )
    }
}

/// Ten to the `k`.
pub open spec fn pow10(k: nat) -> int
    decreases k,
{
    if k == 0 {
        1int
    } else {
        10 * pow10((k - 1) as nat)
    }
}

/// Prepending a digit multiplies its value by ten to the length.
proof fn lemma_digits_val_prepend(c: char, s: Seq<char>)
    ensures
        digits_val(seq![c] + s) == spec_digit_val(c) * pow10(s.len()) + digits_val(s),
    decreases s.len(),
{
    let w = seq![c] + s;
    if s.len() == 0 {
        assert(w =~= seq![c]);
        assert(w.drop_last() =~= Seq::<char>::empty());
        assert(w.last() == c);
        assert(digits_val(w.drop_last()) == 0);
        assert(digits_val(w) == spec_digit_val(c));
    } else {
        assert(w.drop_last() =~= seq![c] + s.drop_last());
        assert(w.last() == s.last());
        lemma_digits_val_prepend(c, s.drop_last());
        assert(digits_val(w) == (spec_digit_val(c) * pow10((s.len() - 1) as nat) + digits_val(
            s.drop_last(),
        )) * 10 + spec_digit_val(s.last()));
        assert((spec_digit_val(c) * pow10((s.len() - 1) as nat)) * 10 == spec_digit_val(c) * (
        pow10((s.len() - 1) as nat) * 10)) by (nonlinear_arith);
        assert(pow10((s.len() - 1) as nat) * 10 == pow10(s.len()));
    }
}

/// The decimal rendering of a machine integer: digits whose value is `n`.
pub fn usize_to_string(n: usize) -> (r: String)
    ensures
        all_digits(r@),
        digits_val(r@) == n as int,
{
    let mut digits: Vec<char> = Vec::new();
    if n == 0 {
        digits.push('0');
        assert(digits@ =~= seq!['0']);
        assert(digits@.drop_last() =~= Seq::<char>::empty());
        assert(digits_val(Seq::<char>::empty()) == 0);
        assert(digits@.last() == '0');
        assert(digits_val(digits@) == 0);
    } else {
        let mut m = n;
        proof {
            let e = Seq::<char>::empty();
            assert(digits@ =~= e);
            assert(digits_val(e) == 0);
            assert(pow10(0) == 1);
        }
        while m > 0
            invariant
                m == 0 ==> digits@.len() > 0,
                forall|j: int| 0 <= j < digits@.len() ==> spec_is_digit(#[trigger] digits@[j]),
                digits_val(digits@) + m * pow10(digits@.len()) == n as int,
                digits_val(digits@) >= 0,
            decreases m,
        {
            let d = m % 10;
            let c = ((48 + d) as u8) as char;
            let ghost pre = digits@;
            let ghost k = pre.len();
            digits.insert(0, c);
            m = m / 10;
            proof {
                assert(digits@ =~= seq![c] + pre);
                assert(spec_digit_val(c) == d as int);
                lemma_digits_val_prepend(c, pre);
                assert(pow10(k + 1) == 10 * pow10(k));
                let mm = m as int;
                let dd = d as int;
                let pk = pow10(k);
                assert(digits_val(pre) + (mm * 10 + dd) * pk == n as int);
                assert((mm * 10 + dd) * pk == dd * pk + mm * (10 * pk)) by (nonlinear_arith);
                assert(pow10(k + 1) == 10 * pk);
                lemma_pow10_pos(k);
            }
        }
    }
    let mut r = String::new();
    let mut i: usize = 0;
    let ghost ds = digits@;
    while i < digits.len()
        invariant
            digits@ == ds,
            i <= ds.len(),
            r@ == ds.take(i as int),
        decreases ds.len() - i,
    {
        push_char(&mut r, digits[i]);
        proof {
            assert(ds.take(i as int).push(ds[i as int]) =~= ds.take(i + 1 as int));
        }
        i = i + 1;
    }
    proof {
        assert(ds.take(ds.len() as int) =~= ds);
    }
    r
}

proof fn lemma_pow10_pos(k: nat)
    ensures
        pow10(k) >= 1,
    decreases k,
{
    if k > 0 {
        lemma_pow10_pos((k - 1) as nat);
    }
}

/// Trimming a subrange is the subrange of the scanned bounds.
proof fn lemma_trim_range(s: Seq<char>, lo: int, hi: int, a: int, b: int)
    requires
        0 <= lo <= a <= b <= hi <= s.len(),
        forall|j: int| lo <= j < a ==> spec_is_space(s[j]),
        forall|j: int| b <= j < hi ==> spec_is_space(s[j]),
        a == hi || !spec_is_space(s[a]),
        b == a || !spec_is_space(s[b - 1]),
    ensures
        spec_trim(s.subrange(lo, hi)) == s.subrange(a, b),
{
    let t = s.subrange(lo, hi);
    assert(forall|j: int| 0 <= j < a - lo ==> spec_is_space(t[j]));
    if a - lo < t.len() {
        assert(!spec_is_space(t[a - lo]));
    }
    crate::text::lemma_trim_front_is_skip(t, a - lo);
    let f = t.skip(a - lo);
    assert(f =~= s.subrange(a, hi));
    assert(forall|j: int| b - a <= j < f.len() ==> spec_is_space(#[trigger] f[j]));
    if b - a > 0 {
        assert(!spec_is_space(f[b - a - 1]));
    }
    crate::text::lemma_trim_back_is_take(f, b - a);
    assert(f.take(b - a) =~= s.subrange(a, b));
}

} // verus!
