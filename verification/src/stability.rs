//! Running the reconciler twice: the second run finds the entry that the
//! first one wrote, reads from it what the first one merged, and writes the
//! same page again.

use vstd::prelude::*;
use crate::changelog::{
    block, entry_end, entry_start, first_in, header_text, heading_text, hits, insert_at, is_leaf,
    leaf_texts, lemma_entry_bounds, merged_block, lemma_first_in, lemma_first_in_is, listed, marker_text,
    new_entry, reconciled, rest_of, section_start, carried, Category, ChangeSetView, Mark,
};
use crate::merge::{
    is_record, lemma_merge_is_union, lemma_merge_settles, lemma_record_of_is_record,
    merged_records, record_of, records_of,
};
use crate::page::Line;

verus! {

/// The three headers are different texts.
pub proof fn lemma_headers_differ()
    ensures
        header_text(Category::Added) != header_text(Category::Modified),
        header_text(Category::Added) != header_text(Category::Deleted),
        header_text(Category::Modified) != header_text(Category::Deleted),
{
    reveal_strlit("### Added");
    reveal_strlit("### Modified");
    reveal_strlit("### Deleted");
    assert("### Added"@.len() == 9);
    assert("### Modified"@.len() == 12);
    assert("### Deleted"@.len() == 11);
}

/// Every element has the form of a change record.
pub open spec fn all_records(records: Seq<Seq<char>>) -> bool {
    forall|i: int| 0 <= i < records.len() ==> is_record(#[trigger] records[i])
}

/// What `leaf_texts` gathers are records.
pub proof fn lemma_leaf_texts_are_records(c: Seq<Line>, from: int, to: int)
    requires
        0 <= from,
        to <= c.len(),
    ensures
        all_records(leaf_texts(c, from, to)),
    decreases to - from,
{
    if from < to {
        lemma_leaf_texts_are_records(c, from, to - 1);
    }
}

/// What a merge of records with the records of some pages gives are records.
pub proof fn lemma_merged_are_records(carried: Seq<Seq<char>>, ids: Seq<Seq<char>>)
    requires
        all_records(carried),
    ensures
        all_records(merged_records(carried, ids)),
{
    let merged = merged_records(carried, ids);
    lemma_merge_is_union(carried, records_of(ids));
    assert forall|i: int| 0 <= i < merged.len() implies is_record(#[trigger] merged[i]) by {
        let x = merged[i];
        assert(merged.contains(x));
        if carried.contains(x) {
            let k = choose|k: int| 0 <= k < carried.len() && carried[k] == x;
            assert(is_record(carried[k]));
        } else {
            let k = choose|k: int| 0 <= k < records_of(ids).len() && records_of(ids)[k] == x;
            assert(x == record_of(ids[k]));
            lemma_record_of_is_record(ids[k]);
        }
    }
}

/// A run of records at indent 3 is read back as it stands.
pub proof fn lemma_leaf_texts_of_records(c: Seq<Line>, from: int, records: Seq<Seq<char>>)
    requires
        0 <= from,
        from + records.len() <= c.len(),
        all_records(records),
        forall|i: int| 0 <= i < records.len() ==> c[from + i] == (#[trigger] records[i], 3u8),
    ensures
        leaf_texts(c, from, from + records.len()) == records,
    decreases records.len(),
{
    if records.len() == 0 {
        assert(leaf_texts(c, from, from) =~= records);
    } else {
        let front = records.drop_last();
        assert forall|i: int| 0 <= i < front.len() implies c[from + i] == (
            #[trigger] front[i],
            3u8,
        ) by {
            assert(front[i] == records[i]);
        }
        assert forall|i: int| 0 <= i < front.len() implies is_record(#[trigger] front[i]) by {
            assert(front[i] == records[i]);
        }
        lemma_leaf_texts_of_records(c, from, front);
        let last = records.len() - 1;
        assert(c[from + last] == (records[last], 3u8));
        assert(is_leaf(c[from + last]));
        assert(front.push(records[last]) =~= records);
    }
}

/// The lines of an entry made of the given records.
pub open spec fn entry_of(
    version: Seq<char>,
    added: Seq<Seq<char>>,
    modified: Seq<Seq<char>>,
    deleted: Seq<Seq<char>>,
) -> Seq<Line> {
    seq![(heading_text(version), 1u8)] + block(Category::Added, added) + block(
        Category::Modified,
        modified,
    ) + block(Category::Deleted, deleted)
}

/// The records that an entry was made of, by category.
pub open spec fn pick(
    cat: Category,
    added: Seq<Seq<char>>,
    modified: Seq<Seq<char>>,
    deleted: Seq<Seq<char>>,
) -> Seq<Seq<char>> {
    match cat {
        Category::Added => added,
        Category::Modified => modified,
        Category::Deleted => deleted,
    }
}

/// An entry made of records lists under each category the records it was
/// made of.
pub proof fn lemma_listed_of_entry(
    c: Seq<Line>,
    start: int,
    version: Seq<char>,
    added: Seq<Seq<char>>,
    modified: Seq<Seq<char>>,
    deleted: Seq<Seq<char>>,
    cat: Category,
)
    requires
        0 <= start,
        start + entry_of(version, added, modified, deleted).len() <= c.len(),
        c.subrange(start, start + entry_of(version, added, modified, deleted).len()) == entry_of(
            version,
            added,
            modified,
            deleted,
        ),
        all_records(added),
        all_records(modified),
        all_records(deleted),
    ensures
        listed(
            c,
            start,
            start + entry_of(version, added, modified, deleted).len(),
            cat,
        ) == pick(cat, added, modified, deleted),
{
    let entry = entry_of(version, added, modified, deleted);
    let end = start + entry.len();
    let ba = block(Category::Added, added);
    let bm = block(Category::Modified, modified);
    let bd = block(Category::Deleted, deleted);
    let pa = start + 1;
    let pm = pa + ba.len();
    let pd = pm + bm.len();
    lemma_headers_differ();
    assert forall|i: int| start <= i < end implies c[i] == entry[i - start] by {
        assert(c.subrange(start, end)[i - start] == c[i]);
    }
    assert(c[start] == (heading_text(version), 1u8));
    assert forall|i: int| pa <= i < pm implies c[i] == ba[i - pa] by {
        assert(c[i] == entry[i - start]);
    }
    assert forall|i: int| pm <= i < pd implies c[i] == bm[i - pm] by {
        assert(c[i] == entry[i - start]);
    }
    assert forall|i: int| pd <= i < end implies c[i] == bd[i - pd] by {
        assert(c[i] == entry[i - start]);
    }
    // Where the header of `cat` stands, if the entry has it, and the records
    // that follow it.
    let records = pick(cat, added, modified, deleted);
    let at = match cat {
        Category::Added => pa,
        Category::Modified => pm,
        Category::Deleted => pd,
    };
    let header_mark = Mark::Exact(header_text(cat), 2);
    if records.len() == 0 {
        assert forall|i: int| start <= i < end implies !hits(c[i], header_mark) by {
            if pa <= i < pm {
                assert(c[i] == ba[i - pa]);
            } else if pm <= i < pd {
                assert(c[i] == bm[i - pm]);
            } else if pd <= i {
                assert(c[i] == bd[i - pd]);
            }
        }
        lemma_first_in_is(c, start, end, header_mark, end);
        assert(leaf_texts(c, end + 1, first_in(c, end + 1, end, Mark::Closer(cat))) =~= records);
    } else {
        assert forall|i: int| start <= i < at implies !hits(c[i], header_mark) by {
            if pa <= i < pm {
                assert(c[i] == ba[i - pa]);
            } else if pm <= i < pd {
                assert(c[i] == bm[i - pm]);
            } else if pd <= i {
                assert(c[i] == bd[i - pd]);
            }
        }
        assert(c[at] == (header_text(cat), 2u8)) by {
            match cat {
                Category::Added => {
                    assert(c[at] == ba[0]);
                },
                Category::Modified => {
                    assert(c[at] == bm[0]);
                },
                Category::Deleted => {
                    assert(c[at] == bd[0]);
                },
            }
        }
        lemma_first_in_is(c, start, end, header_mark, at);
        let close = at + 1 + records.len();
        assert forall|i: int| 0 <= i < records.len() implies c[at + 1 + i] == (
            #[trigger] records[i],
            3u8,
        ) by {
            match cat {
                Category::Added => {
                    assert(c[at + 1 + i] == ba[i + 1]);
                },
                Category::Modified => {
                    assert(c[at + 1 + i] == bm[i + 1]);
                },
                Category::Deleted => {
                    assert(c[at + 1 + i] == bd[i + 1]);
                },
            }
        }
        let close_mark = Mark::Closer(cat);
        match cat {
            Category::Added => {
                assert(close == pm);
                assert forall|i: int| at + 1 <= i < close implies !hits(c[i], close_mark) by {
                    assert(c[i] == (records[i - at - 1], 3u8));
                }
                if close < end {
                    if modified.len() > 0 {
                        assert(c[close] == bm[0]);
                    } else {
                        assert(c[close] == bd[0]);
                    }
                }
                lemma_first_in_is(c, at + 1, end, close_mark, close);
            },
            Category::Modified => {
                assert(close == pd);
                assert forall|i: int| at + 1 <= i < close implies !hits(c[i], close_mark) by {
                    assert(c[i] == (records[i - at - 1], 3u8));
                }
                if close < end {
                    assert(c[close] == bd[0]);
                }
                lemma_first_in_is(c, at + 1, end, close_mark, close);
            },
            Category::Deleted => {
                assert(close == end);
                lemma_first_in_is(c, at + 1, end, close_mark, close);
            },
        }
        lemma_leaf_texts_of_records(c, at + 1, records);
    }
}

/// What an entry lists under a category are records.
pub proof fn lemma_listed_are_records(c: Seq<Line>, start: int, end: int, cat: Category)
    requires
        0 <= start <= end <= c.len(),
    ensures
        all_records(listed(c, start, end, cat)),
{
    let header = first_in(c, start, end, Mark::Exact(header_text(cat), 2));
    lemma_first_in(c, start, end, Mark::Exact(header_text(cat), 2));
    if header + 1 <= end {
        lemma_first_in(c, header + 1, end, Mark::Closer(cat));
    }
    lemma_leaf_texts_are_records(c, header + 1, first_in(c, header + 1, end, Mark::Closer(cat)));
}

/// Behind its heading a fresh entry holds lines at indent 2 and 3 only.
pub proof fn lemma_new_entry_shape(c: Seq<Line>, version: Seq<char>, changes: ChangeSetView)
    ensures
        new_entry(c, version, changes).len() >= 1,
        new_entry(c, version, changes)[0] == (heading_text(version), 1u8),
        forall|i: int|
            1 <= i < new_entry(c, version, changes).len() ==> {
                let line = #[trigger] new_entry(c, version, changes)[i];
                line.1 == 2 || line.1 == 3
            },
{
    let fresh = new_entry(c, version, changes);
    let ba = merged_block(c, version, changes, Category::Added);
    let bm = merged_block(c, version, changes, Category::Modified);
    let bd = merged_block(c, version, changes, Category::Deleted);
    assert forall|i: int| 1 <= i < fresh.len() implies {
        let line = #[trigger] fresh[i];
        line.1 == 2 || line.1 == 3
    } by {
        if i < 1 + ba.len() {
            assert(fresh[i] == ba[i - 1]);
        } else if i < 1 + ba.len() + bm.len() {
            assert(fresh[i] == bm[i - 1 - ba.len()]);
        } else {
            assert(fresh[i] == bd[i - 1 - ba.len() - bm.len()]);
        }
    }
}

/// What the fresh entry lists under a category is the union of what the old
/// entry listed under it and the records of the pages that changed, sorted,
/// each record once; this holds of each category by itself, whenever the
/// change set is not empty.
pub proof fn lemma_fresh_entry_lists_the_union(
    c: Seq<Line>,
    version: Seq<char>,
    changes: ChangeSetView,
    cat: Category,
)
    requires
        !changes.is_empty(),
    ensures
        ({
            let at = insert_at(c, version);
            let end = at + new_entry(c, version, changes).len();
            let listed_now = listed(reconciled(c, version, changes), at, end, cat);
            &&& listed_now == merged_records(carried(c, version, cat), changes.of(cat))
            &&& forall|x: Seq<char>|
                listed_now.contains(x) <==> (carried(c, version, cat).contains(x) || records_of(
                    changes.of(cat),
                ).contains(x))
        }),
{
    let at = insert_at(c, version);
    let fresh = new_entry(c, version, changes);
    let after = reconciled(c, version, changes);
    let es = entry_start(c, version);
    let ee = entry_end(c, version);
    let ma = merged_records(carried(c, version, Category::Added), changes.added);
    let mm = merged_records(carried(c, version, Category::Modified), changes.modified);
    let md = merged_records(carried(c, version, Category::Deleted), changes.deleted);
    lemma_entry_bounds(c, version);
    lemma_listed_are_records(c, es, ee, Category::Added);
    lemma_listed_are_records(c, es, ee, Category::Modified);
    lemma_listed_are_records(c, es, ee, Category::Deleted);
    lemma_merged_are_records(carried(c, version, Category::Added), changes.added);
    lemma_merged_are_records(carried(c, version, Category::Modified), changes.modified);
    lemma_merged_are_records(carried(c, version, Category::Deleted), changes.deleted);
    assert(fresh == entry_of(version, ma, mm, md));
    assert(after.subrange(at, at + fresh.len()) =~= fresh);
    lemma_listed_of_entry(after, at, version, ma, mm, md, cat);
    lemma_merge_is_union(carried(c, version, cat), records_of(changes.of(cat)));
}

/// No line from the start of the section up to the place where the fresh
/// entry goes is itself the heading of `version`. This holds of every page
/// with the section marker; in a page without one it says that the first
/// line, once the old entry is taken out, is not that heading.
pub open spec fn heading_clear(c: Seq<Line>, version: Seq<char>) -> bool {
    forall|i: int|
        section_start(c) <= i < insert_at(c, version) ==> !hits(
            #[trigger] rest_of(c, version)[i],
            Mark::Exact(heading_text(version), 1),
        )
}

/// The page is laid out so that a fresh entry of `version` is found again
/// as it was written: the page is `heading_clear`, and what follows the
/// place where the entry goes is the heading of a release or the end of the
/// page.
pub open spec fn lands_cleanly(c: Seq<Line>, version: Seq<char>) -> bool {
    let rest = rest_of(c, version);
    let at = insert_at(c, version);
    &&& heading_clear(c, version)
    &&& at < rest.len() ==> hits(rest[at], Mark::VersionLine)
}

/// A page with the section marker is `heading_clear` for every version.
pub proof fn lemma_marker_clears(c: Seq<Line>, version: Seq<char>)
    requires
        first_in(c, 0, c.len() as int, Mark::Exact(marker_text(), 0)) < c.len(),
    ensures
        heading_clear(c, version),
{
    let section = section_start(c);
    let rest = rest_of(c, version);
    lemma_entry_bounds(c, version);
    lemma_first_in(c, 0, c.len() as int, Mark::Exact(marker_text(), 0));
    lemma_first_in(c, section, c.len() as int, Mark::Exact(heading_text(version), 1));
    assert(section < entry_start(c, version));
    assert(rest[section] == c[section]);
}

/// In a `heading_clear` page the entry that a second run finds starts
/// where the first run put the fresh entry, and reaches at least as far.
pub proof fn lemma_fresh_entry_is_found(c: Seq<Line>, version: Seq<char>, changes: ChangeSetView)
    requires
        heading_clear(c, version),
    ensures
        ({
            let after = reconciled(c, version, changes);
            let at = insert_at(c, version);
            let fresh = new_entry(c, version, changes);
            &&& section_start(after) == section_start(c)
            &&& entry_start(after, version) == at
            &&& at + fresh.len() <= entry_end(after, version) <= after.len()
            &&& at + fresh.len() < after.len() && hits(after[at + fresh.len()], Mark::VersionLine)
                ==> entry_end(after, version) == at + fresh.len()
        }),
{
    let rest = rest_of(c, version);
    let at = insert_at(c, version);
    let fresh = new_entry(c, version, changes);
    let after = reconciled(c, version, changes);
    let k = fresh.len() as int;
    let section = section_start(c);
    let marker = Mark::Exact(marker_text(), 0);
    let heading = Mark::Exact(heading_text(version), 1);
    lemma_entry_bounds(c, version);
    lemma_new_entry_shape(c, version, changes);
    lemma_first_in(c, 0, c.len() as int, marker);
    lemma_first_in(c, section, c.len() as int, heading);
    assert forall|i: int| 0 <= i < at implies after[i] == rest[i] by {}
    assert forall|i: int| at <= i < at + k implies after[i] == fresh[i - at] by {}
    assert forall|i: int| at + k <= i < after.len() implies after[i] == rest[i - k] by {}
    let es = entry_start(c, version);
    let ee = entry_end(c, version);
    assert forall|i: int| 0 <= i < es implies rest[i] == c[i] by {}
    assert forall|i: int| es <= i < rest.len() implies rest[i] == c[i + (ee - es)] by {}
    // The section starts where it did.
    let found = first_in(c, 0, c.len() as int, marker);
    if found < c.len() {
        assert(section < es);
        assert(at == section + 1);
        assert(after[section] == c[section]);
        assert forall|i: int| 0 <= i < section implies !hits(after[i], marker) by {
            assert(after[i] == c[i]);
        }
        lemma_first_in_is(after, 0, after.len() as int, marker, section);
    } else {
        assert forall|i: int| 0 <= i < after.len() implies !hits(after[i], marker) by {
            if i < at {
                assert(after[i] == rest[i]);
            } else if i < at + k {
                assert(after[i] == fresh[i - at]);
            } else {
                assert(after[i] == rest[i - k]);
            }
        }
        lemma_first_in_is(after, 0, after.len() as int, marker, after.len() as int);
    }
    assert(section_start(after) == section);
    // The heading of the fresh entry is the first one from there on.
    assert forall|i: int| section <= i < at implies !hits(after[i], heading) by {
        assert(after[i] == rest[i]);
    }
    assert(after[at] == fresh[0]);
    lemma_first_in_is(after, section, after.len() as int, heading, at);
    // No line of the fresh entry behind its heading is the heading of a release.
    assert forall|i: int| at + 1 <= i < at + k implies !hits(after[i], Mark::VersionLine) by {
        assert(after[i] == fresh[i - at]);
    }
    lemma_first_in(after, at + 1, after.len() as int, Mark::VersionLine);
    if at + k < after.len() && hits(after[at + k], Mark::VersionLine) {
        lemma_first_in_is(after, at + 1, after.len() as int, Mark::VersionLine, at + k);
    }
}

/// Reconciling is idempotent: on a page that `lands_cleanly`, a second run
/// for the same version with the same changes gives the page that the first
/// run gave.
pub proof fn lemma_reconcile_idempotent(c: Seq<Line>, version: Seq<char>, changes: ChangeSetView)
    requires
        lands_cleanly(c, version),
    ensures
        reconciled(reconciled(c, version, changes), version, changes) == reconciled(
            c,
            version,
            changes,
        ),
{
    let rest = rest_of(c, version);
    let at = insert_at(c, version);
    let fresh = new_entry(c, version, changes);
    let after = reconciled(c, version, changes);
    let k = fresh.len() as int;
    let es = entry_start(c, version);
    let ee = entry_end(c, version);
    lemma_entry_bounds(c, version);
    lemma_fresh_entry_is_found(c, version, changes);
    // The second run finds the fresh entry and nothing more.
    if at + k < after.len() {
        assert(after[at + k] == rest[at]);
    }
    assert(entry_end(after, version) == at + k);
    assert(rest_of(after, version) =~= rest);
    assert(insert_at(after, version) == at);
    // It lists what the first run merged, and merging that again adds nothing.
    if !changes.is_empty() {
        let ma = merged_records(carried(c, version, Category::Added), changes.added);
        let mm = merged_records(carried(c, version, Category::Modified), changes.modified);
        let md = merged_records(carried(c, version, Category::Deleted), changes.deleted);
        lemma_listed_are_records(c, es, ee, Category::Added);
        lemma_listed_are_records(c, es, ee, Category::Modified);
        lemma_listed_are_records(c, es, ee, Category::Deleted);
        lemma_merged_are_records(carried(c, version, Category::Added), changes.added);
        lemma_merged_are_records(carried(c, version, Category::Modified), changes.modified);
        lemma_merged_are_records(carried(c, version, Category::Deleted), changes.deleted);
        assert(fresh == entry_of(version, ma, mm, md));
        assert(after.subrange(at, at + k) =~= fresh);
        lemma_listed_of_entry(after, at, version, ma, mm, md, Category::Added);
        lemma_listed_of_entry(after, at, version, ma, mm, md, Category::Modified);
        lemma_listed_of_entry(after, at, version, ma, mm, md, Category::Deleted);
        lemma_merge_settles(carried(c, version, Category::Added), records_of(changes.added));
        lemma_merge_settles(carried(c, version, Category::Modified), records_of(changes.modified));
        lemma_merge_settles(carried(c, version, Category::Deleted), records_of(changes.deleted));
    }
    assert(new_entry(after, version, changes) == fresh);
}

/// What a run writes `lands_cleanly`: if the page was `heading_clear`, the
/// page that a run gives is one on which every later run is idempotent.
pub proof fn lemma_reconciled_lands_cleanly(
    c: Seq<Line>,
    version: Seq<char>,
    changes: ChangeSetView,
)
    requires
        heading_clear(c, version),
    ensures
        lands_cleanly(reconciled(c, version, changes), version),
{
    let rest = rest_of(c, version);
    let at = insert_at(c, version);
    let fresh = new_entry(c, version, changes);
    let after = reconciled(c, version, changes);
    let k = fresh.len() as int;
    let section = section_start(c);
    lemma_entry_bounds(c, version);
    lemma_fresh_entry_is_found(c, version, changes);
    lemma_entry_bounds(after, version);
    let end = entry_end(after, version);
    let rest2 = rest_of(after, version);
    let at2 = insert_at(after, version);
    lemma_first_in(after, at + 1, after.len() as int, Mark::VersionLine);
    assert forall|i: int| 0 <= i < at implies rest2[i] == after[i] by {}
    assert forall|i: int| at <= i < rest2.len() implies rest2[i] == after[i + (end - at)] by {}
    assert forall|i: int| 0 <= i < at implies after[i] == rest[i] by {}
    if at == section + 1 {
        assert(at2 == at);
        assert(rest2[section] == rest[section]);
    } else {
        // The page ended before the place behind the start of the section,
        // so the fresh entry is the end of the page.
        assert(at == rest.len());
        assert(after.len() == at + k);
        assert(end == after.len());
        assert(rest2.len() == at);
    }
}

} // verus!
