//! Merging change records: the union of two lists, sorted, each record once.

use vstd::prelude::*;
use vstd::string::StringExecFns;
use crate::order::{lemma_lex_total, lemma_lex_transitive, lex_less, lex_rank, strictly_sorted, Rank};
use crate::text::{chars_of, rows, string_of};

verus! {

/// The change record of the page `id`: the identifier between double square
/// brackets.
pub open spec fn record_of(id: Seq<char>) -> Seq<char> {
    seq!['[', '['] + id + seq![']', ']']
}

/// `text` has the form of a change record: it starts with `[[` and ends
/// with `]]`, and the two do not overlap.
pub open spec fn is_record(text: Seq<char>) -> bool {
    &&& text.len() >= 4
    &&& text[0] == '['
    &&& text[1] == '['
    &&& text[text.len() - 2] == ']'
    &&& text[text.len() - 1] == ']'
}

/// The change record of a page has the form of a change record.
pub proof fn lemma_record_of_is_record(id: Seq<char>)
    ensures
        is_record(record_of(id)),
{
    let r = record_of(id);
    assert(r.len() == id.len() + 4);
    assert(r[0] == '[' && r[1] == '[');
    assert(r[r.len() - 2] == ']' && r[r.len() - 1] == ']');
}

/// The change records of the pages `ids`, in the same order.
pub open spec fn records_of(ids: Seq<Seq<char>>) -> Seq<Seq<char>> {
    Seq::new(ids.len(), |i: int| record_of(ids[i]))
}

/// What a category lists after a run: the records it carried over together
/// with the records of the pages `ids`, sorted, each once.
pub open spec fn merged_records(carried: Seq<Seq<char>>, ids: Seq<Seq<char>>) -> Seq<Seq<char>> {
    sort_dedup(carried + records_of(ids))
}

/// `x` put at its place in the strictly sorted `s`, unless `s` holds it.
pub open spec fn insert_sorted(s: Seq<Seq<char>>, x: Seq<char>) -> Seq<Seq<char>>
    decreases s.len(),
{
    if s.len() == 0 {
        seq![x]
    } else if s.last() == x {
        s
    } else if lex_less(s.last(), x) {
        s.push(x)
    } else {
        insert_sorted(s.drop_last(), x).push(s.last())
    }
}

/// The elements of `s` in lexicographic order, each of them once.
pub open spec fn sort_dedup(s: Seq<Seq<char>>) -> Seq<Seq<char>>
    decreases s.len(),
{
    if s.len() == 0 {
        Seq::empty()
    } else {
        insert_sorted(sort_dedup(s.drop_last()), s.last())
    }
}

/// `a` and `b` hold the same elements, however often and in whatever order.
pub open spec fn same_members(a: Seq<Seq<char>>, b: Seq<Seq<char>>) -> bool {
    forall|x: Seq<char>| a.contains(x) <==> b.contains(x)
}

/// Inserting keeps a strictly sorted sequence strictly sorted and adds
/// exactly the inserted element to what it holds.
pub proof fn lemma_insert_sorted(s: Seq<Seq<char>>, x: Seq<char>)
    requires
        strictly_sorted(s),
    ensures
        strictly_sorted(insert_sorted(s, x)),
        forall|y: Seq<char>| #[trigger]
            insert_sorted(s, x).contains(y) <==> (s.contains(y) || y == x),
    decreases s.len(),
{
    let r = insert_sorted(s, x);
    if s.len() == 0 {
        assert(r[0] == x);
    } else if s.last() == x {
        assert(s[s.len() - 1] == x);
    } else if lex_less(s.last(), x) {
        assert forall|i: int, j: int| 0 <= i < j < r.len() implies lex_less(r[i], r[j]) by {
            if j == s.len() {
                if i < s.len() - 1 {
                    lemma_lex_transitive(s[i], s.last(), x);
                }
            }
        }
        assert forall|y: Seq<char>| r.contains(y) <==> (s.contains(y) || y == x) by {
            if r.contains(y) {
                let k = choose|k: int| 0 <= k < r.len() && r[k] == y;
                if k < s.len() {
                    assert(s[k] == y);
                }
            }
            if s.contains(y) {
                let k = choose|k: int| 0 <= k < s.len() && s[k] == y;
                assert(r[k] == y);
            }
            if y == x {
                assert(r[s.len() as int] == y);
            }
        }
    } else {
        let front = s.drop_last();
        let inner = insert_sorted(front, x);
        assert(strictly_sorted(front));
        lemma_insert_sorted(front, x);
        lemma_lex_total(s.last(), x);
        assert forall|i: int| 0 <= i < inner.len() implies lex_less(inner[i], s.last()) by {
            assert(inner.contains(inner[i]));
            if front.contains(inner[i]) {
                let k = choose|k: int| 0 <= k < front.len() && front[k] == inner[i];
                assert(s[k] == inner[i]);
            }
        }
        assert forall|y: Seq<char>| r.contains(y) <==> (s.contains(y) || y == x) by {
            if r.contains(y) {
                let k = choose|k: int| 0 <= k < r.len() && r[k] == y;
                if k < inner.len() {
                    assert(inner[k] == y);
                    assert(inner.contains(y));
                    if front.contains(y) {
                        let m = choose|m: int| 0 <= m < front.len() && front[m] == y;
                        assert(s[m] == y);
                    }
                } else {
                    assert(s[s.len() - 1] == y);
                }
            }
            if s.contains(y) {
                let k = choose|k: int| 0 <= k < s.len() && s[k] == y;
                if k < front.len() {
                    assert(front[k] == y);
                    assert(inner.contains(y));
                    let m = choose|m: int| 0 <= m < inner.len() && inner[m] == y;
                    assert(r[m] == y);
                } else {
                    assert(r[inner.len() as int] == y);
                }
            }
            if y == x {
                assert(inner.contains(x));
                let m = choose|m: int| 0 <= m < inner.len() && inner[m] == y;
                assert(r[m] == y);
            }
        }
    }
}

/// The sorted form of `s` is strictly sorted and holds what `s` holds.
pub proof fn lemma_sort_dedup(s: Seq<Seq<char>>)
    ensures
        strictly_sorted(sort_dedup(s)),
        same_members(sort_dedup(s), s),
    decreases s.len(),
{
    if s.len() > 0 {
        let front = s.drop_last();
        lemma_sort_dedup(front);
        lemma_insert_sorted(sort_dedup(front), s.last());
        let r = sort_dedup(s);
        assert forall|x: Seq<char>| r.contains(x) <==> s.contains(x) by {
            if s.contains(x) {
                let k = choose|k: int| 0 <= k < s.len() && s[k] == x;
                if k < front.len() {
                    assert(front[k] == x);
                }
            }
            if front.contains(x) {
                let k = choose|k: int| 0 <= k < front.len() && front[k] == x;
                assert(s[k] == x);
            }
            if x == s.last() {
                assert(s[s.len() - 1] == x);
            }
        }
    }
}

/// A strictly sorted sequence is fixed by what it holds: two of them with
/// the same elements are the same sequence.
pub proof fn lemma_strictly_sorted_unique(a: Seq<Seq<char>>, b: Seq<Seq<char>>)
    requires
        strictly_sorted(a),
        strictly_sorted(b),
        same_members(a, b),
    ensures
        a == b,
    decreases a.len(),
{
    if a.len() == 0 {
        if b.len() > 0 {
            assert(b.contains(b[0]));
        }
        assert(a =~= b);
    } else if b.len() == 0 {
        assert(a.contains(a[0]));
    } else {
        // The last elements are the greatest of each side, so they agree.
        let x = a.last();
        let y = b.last();
        assert(a.contains(x)) by {
            assert(a[a.len() - 1] == x);
        }
        assert(b.contains(y)) by {
            assert(b[b.len() - 1] == y);
        }
        let i = choose|i: int| 0 <= i < b.len() && b[i] == x;
        let j = choose|j: int| 0 <= j < a.len() && a[j] == y;
        if i < b.len() - 1 && j < a.len() - 1 {
            lemma_lex_transitive(x, y, x);
            crate::order::lemma_lex_irreflexive(x);
        }
        if i < b.len() - 1 {
            crate::order::lemma_lex_irreflexive(x);
        }
        if j < a.len() - 1 {
            crate::order::lemma_lex_irreflexive(y);
        }
        assert(x == y);
        let fa = a.drop_last();
        let fb = b.drop_last();
        assert forall|z: Seq<char>| fa.contains(z) <==> fb.contains(z) by {
            if fa.contains(z) {
                let k = choose|k: int| 0 <= k < fa.len() && fa[k] == z;
                assert(a[k] == z);
                assert(a.contains(z));
                let m = choose|m: int| 0 <= m < b.len() && b[m] == z;
                if m == b.len() - 1 {
                    crate::order::lemma_lex_irreflexive(x);
                }
                assert(fb[m] == z);
            }
            if fb.contains(z) {
                let k = choose|k: int| 0 <= k < fb.len() && fb[k] == z;
                assert(b[k] == z);
                assert(b.contains(z));
                let m = choose|m: int| 0 <= m < a.len() && a[m] == z;
                if m == a.len() - 1 {
                    crate::order::lemma_lex_irreflexive(x);
                }
                assert(fa[m] == z);
            }
        }
        lemma_strictly_sorted_unique(fa, fb);
        assert(a =~= fa.push(x));
        assert(b =~= fb.push(y));
    }
}

/// Merging is a set union: the merge of `carried` and `fresh` is strictly
/// sorted, so it holds nothing twice, and it holds exactly what is in one
/// of the two. No other sequence does both.
pub proof fn lemma_merge_is_union(carried: Seq<Seq<char>>, fresh: Seq<Seq<char>>)
    ensures
        strictly_sorted(sort_dedup(carried + fresh)),
        forall|x: Seq<char>|
            sort_dedup(carried + fresh).contains(x) <==> (carried.contains(x) || fresh.contains(x)),
        forall|r: Seq<Seq<char>>|
            strictly_sorted(r) && same_members(r, carried + fresh) ==> r == sort_dedup(
                carried + fresh,
            ),
{
    let all = carried + fresh;
    let merged = sort_dedup(all);
    lemma_sort_dedup(all);
    assert forall|x: Seq<char>| merged.contains(x) <==> (carried.contains(x) || fresh.contains(
        x,
    )) by {
        if all.contains(x) {
            let k = choose|k: int| 0 <= k < all.len() && all[k] == x;
            if k < carried.len() {
                assert(carried[k] == x);
            } else {
                assert(fresh[k - carried.len()] == x);
            }
        }
        if carried.contains(x) {
            let k = choose|k: int| 0 <= k < carried.len() && carried[k] == x;
            assert(all[k] == x);
        }
        if fresh.contains(x) {
            let k = choose|k: int| 0 <= k < fresh.len() && fresh[k] == x;
            assert(all[carried.len() + k] == x);
        }
    }
    assert forall|r: Seq<Seq<char>>| strictly_sorted(r) && same_members(r, all) implies r
        == merged by {
        lemma_strictly_sorted_unique(r, merged);
    }
}

/// Merging a merge's own result with part of what went into it changes
/// nothing.
pub proof fn lemma_merge_settles(carried: Seq<Seq<char>>, fresh: Seq<Seq<char>>)
    ensures
        sort_dedup(sort_dedup(carried + fresh) + fresh) == sort_dedup(carried + fresh),
{
    let merged = sort_dedup(carried + fresh);
    lemma_merge_is_union(carried, fresh);
    lemma_merge_is_union(merged, fresh);
    lemma_strictly_sorted_unique(sort_dedup(merged + fresh), merged);
}

/// Puts `x` at its place in the strictly sorted `v`, unless `v` holds it.
fn insert_record(v: &mut Vec<Vec<char>>, x: Vec<char>)
    requires
        strictly_sorted(rows(old(v)@)),
    ensures
        rows(final(v)@) == insert_sorted(rows(old(v)@), x@),
{
    let ghost before = rows(v@);
    let mut i: usize = v.len();
    proof {
        assert(before.take(i as int) =~= before);
        assert(insert_sorted(before, x@) + before.skip(i as int) =~= insert_sorted(before, x@));
    }
    loop
        invariant
            i <= v.len(),
            before == rows(old(v)@),
            rows(v@) == before,
            insert_sorted(before, x@) == insert_sorted(before.take(i as int), x@) + before.skip(
                i as int,
            ),
        decreases i,
    {
        let ghost head = before.take(i as int);
        if i == 0 {
            v.insert(0, x);
            proof {
                assert(head =~= Seq::empty());
                assert(rows(v@) =~= seq![x@] + before.skip(0));
            }
            return ;
        }
        proof {
            assert(head.last() == v@[i - 1]@);
        }
        match lex_rank(&v[i - 1], &x) {
            Rank::Same => {
                proof {
                    assert(head + before.skip(i as int) =~= before);
                }
                return ;
            },
            Rank::Below => {
                v.insert(i, x);
                proof {
                    assert(rows(v@) =~= head.push(x@) + before.skip(i as int));
                }
                return ;
            },
            Rank::Above => {
                proof {
                    lemma_lex_total(head.last(), x@);
                    crate::order::lemma_lex_asymmetric(x@, head.last());
                    assert(head.drop_last() =~= before.take(i - 1));
                    assert(insert_sorted(head.drop_last(), x@).push(head.last()) + before.skip(
                        i as int,
                    ) =~= insert_sorted(head.drop_last(), x@) + before.skip(i - 1));
                }
                i -= 1;
            },
        }
    }
}

/// The change record of the page `id`.
pub fn make_record(id: &str) -> (r: String)
    ensures
        r@ == record_of(id@),
{
    let mut r = String::new();
    r.push('[');
    r.push('[');
    r.append(id);
    r.push(']');
    r.push(']');
    proof {
        assert(r@ =~= record_of(id@));
    }
    r
}

/// Tells whether `text` has the form of a change record.
pub fn is_record_text(text: &str) -> (r: bool)
    ensures
        r == is_record(text@),
{
    let chars = chars_of(text);
    let n = chars.len();
    n >= 4 && chars[0] == '[' && chars[1] == '[' && chars[n - 2] == ']' && chars[n - 1] == ']'
}

/// Merges the records carried over from an earlier run with the records of
/// the pages `ids`: the union of both, in lexicographic order, each record
/// once.
pub fn merge_records(carried: &Vec<String>, ids: &Vec<String>) -> (out: Vec<String>)
    ensures
        out.deep_view() == merged_records(carried.deep_view(), ids.deep_view()),
        strictly_sorted(out.deep_view()),
        forall|x: Seq<char>|
            out.deep_view().contains(x) <==> (carried.deep_view().contains(x) || records_of(
                ids.deep_view(),
            ).contains(x)),
{
    let ghost all = carried.deep_view() + records_of(ids.deep_view());
    let mut sorted: Vec<Vec<char>> = Vec::new();
    let mut i: usize = 0;
    proof {
        assert(all.take(0) =~= Seq::empty());
        assert(rows(sorted@) =~= Seq::empty());
    }
    while i < carried.len()
        invariant
            i <= carried.len(),
            all == carried.deep_view() + records_of(ids.deep_view()),
            rows(sorted@) == sort_dedup(all.take(i as int)),
        decreases carried.len() - i,
    {
        let x = chars_of(carried[i].as_str());
        proof {
            lemma_sort_dedup(all.take(i as int));
            assert(all.take(i + 1).drop_last() =~= all.take(i as int));
            assert(all.take(i + 1).last() == x@);
        }
        insert_record(&mut sorted, x);
        i += 1;
    }
    let mut j: usize = 0;
    while j < ids.len()
        invariant
            j <= ids.len(),
            all == carried.deep_view() + records_of(ids.deep_view()),
            rows(sorted@) == sort_dedup(all.take(carried.len() + j)),
        decreases ids.len() - j,
    {
        let record = make_record(ids[j].as_str());
        let x = chars_of(record.as_str());
        proof {
            lemma_sort_dedup(all.take(carried.len() + j));
            assert(all.take(carried.len() + j + 1).drop_last() =~= all.take(carried.len() + j));
            assert(all.take(carried.len() + j + 1).last() == x@);
        }
        insert_record(&mut sorted, x);
        j += 1;
    }
    proof {
        assert(all.take(carried.len() + ids.len()) =~= all);
        lemma_merge_is_union(carried.deep_view(), records_of(ids.deep_view()));
    }
    let mut out: Vec<String> = Vec::new();
    let mut k: usize = 0;
    while k < sorted.len()
        invariant
            k <= sorted.len(),
            out.len() == k,
            forall|m: int| 0 <= m < k ==> out@[m]@ == sorted@[m]@,
        decreases sorted.len() - k,
    {
        let line = string_of(&sorted[k], 0, sorted[k].len());
        proof {
            assert(sorted@[k as int]@.subrange(0, sorted@[k as int]@.len() as int)
                =~= sorted@[k as int]@);
        }
        out.push(line);
        k += 1;
    }
    proof {
        assert(out.deep_view() =~= rows(sorted@));
    }
    out
}

} // verus!
