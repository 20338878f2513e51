//! The changelog reconciler.
//!
//! The changelog page holds a section that starts at the line
//! `# Changed Pages` at indent 0. Beneath it stands one entry per release: a
//! heading at indent 1, made of `## ` and the version, then for each
//! category that lists anything a header at indent 2 (`### Added`,
//! `### Modified`, `### Deleted`) and its change records at indent 3.
//! Reconciling replaces the entry of one release by a fresh one that merges
//! what the old entry listed with the changes of the current run.

use vstd::prelude::*;
use vstd::string::StringExecFns;
use crate::merge::{is_record, is_record_text, merge_records, merged_records};
use crate::page::{Line, LogseqPage};
use crate::text::{has_prefix, is_prefix, same_text};

verus! {

/// The three kinds of change that a release entry lists, in the order in
/// which it lists them.
#[derive(Clone, Copy, Debug, PartialEq, Eq, Structural)]
pub enum Category {
    Added,
    Modified,
    Deleted,
}

/// The identifiers of the pages that changed in one run, by category.
#[derive(Debug, Clone, PartialEq, Eq)]
pub struct ChangeSet {
    pub added: Vec<String>,
    pub modified: Vec<String>,
    pub deleted: Vec<String>,
}

/// A change set as plain sequences.
pub struct ChangeSetView {
    pub added: Seq<Seq<char>>,
    pub modified: Seq<Seq<char>>,
    pub deleted: Seq<Seq<char>>,
}

impl View for ChangeSet {
    type V = ChangeSetView;

    open spec fn view(&self) -> ChangeSetView {
        ChangeSetView {
            added: self.added.deep_view(),
            modified: self.modified.deep_view(),
            deleted: self.deleted.deep_view(),
        }
    }
}

impl ChangeSetView {
    /// The identifiers listed under `cat`.
    pub open spec fn of(self, cat: Category) -> Seq<Seq<char>> {
        match cat {
            Category::Added => self.added,
            Category::Modified => self.modified,
            Category::Deleted => self.deleted,
        }
    }

    /// No category lists anything.
    pub open spec fn is_empty(self) -> bool {
        self.added.len() == 0 && self.modified.len() == 0 && self.deleted.len() == 0
    }
}

/// The text of the line that starts the section.
pub open spec fn marker_text() -> Seq<char> {
    "# Changed Pages"@
}

/// The text of the heading of the entry of `version`.
pub open spec fn heading_text(version: Seq<char>) -> Seq<char> {
    "## "@ + version
}

/// The text of the header of a category.
pub open spec fn header_text(cat: Category) -> Seq<char> {
    match cat {
        Category::Added => "### Added"@,
        Category::Modified => "### Modified"@,
        Category::Deleted => "### Deleted"@,
    }
}

/// What a search through an outline looks for.
pub enum Mark {
    /// A line with exactly this text at this indent.
    Exact(Seq<char>, u8),
    /// The heading of any release: a line at indent 1 that starts with `## `.
    VersionLine,
    /// A header that ends the list of the given category: for `Added` the
    /// header of `Modified` or of `Deleted`, for `Modified` that of
    /// `Deleted`, for `Deleted` none.
    Closer(Category),
}

/// `line` is a change record: it stands at indent 3 and has the form
/// `[[...]]`.
pub open spec fn is_leaf(line: Line) -> bool {
    line.1 == 3 && is_record(line.0)
}

/// `line` is what `mark` looks for.
pub open spec fn hits(line: Line, mark: Mark) -> bool {
    match mark {
        Mark::Exact(text, indent) => line.0 == text && line.1 == indent,
        Mark::VersionLine => line.1 == 1 && is_prefix("## "@, line.0),
        Mark::Closer(cat) => line.1 == 2 && match cat {
            Category::Added => line.0 == header_text(Category::Modified) || line.0 == header_text(
                Category::Deleted,
            ),
            Category::Modified => line.0 == header_text(Category::Deleted),
            Category::Deleted => false,
        },
    }
}

/// The index of the first line among `c[from..to]` that is what `mark` looks
/// for, and `to` if there is none.
pub open spec fn first_in(c: Seq<Line>, from: int, to: int, mark: Mark) -> int
    decreases to - from,
{
    if from >= to {
        to
    } else if hits(c[from], mark) {
        from
    } else {
        first_in(c, from + 1, to, mark)
    }
}

/// Where the section starts: at its marker, and at index 0 in a page
/// without one.
pub open spec fn section_start(c: Seq<Line>) -> int {
    let at = first_in(c, 0, c.len() as int, Mark::Exact(marker_text(), 0));
    if at < c.len() {
        at
    } else {
        0
    }
}

/// The index of the heading of the entry of `version`: the first such line
/// from the start of the section on, and `c.len()` if there is none.
pub open spec fn entry_start(c: Seq<Line>, version: Seq<char>) -> int {
    first_in(c, section_start(c), c.len() as int, Mark::Exact(heading_text(version), 1))
}

/// The index behind the entry of `version`: that of the next heading of a
/// release, or the end of the page.
pub open spec fn entry_end(c: Seq<Line>, version: Seq<char>) -> int {
    first_in(c, entry_start(c, version) + 1, c.len() as int, Mark::VersionLine)
}

/// The texts of the change records among `c[from..to]`, in order.
pub open spec fn leaf_texts(c: Seq<Line>, from: int, to: int) -> Seq<Seq<char>>
    decreases to - from,
{
    if from >= to {
        Seq::empty()
    } else if is_leaf(c[to - 1]) {
        leaf_texts(c, from, to - 1).push(c[to - 1].0)
    } else {
        leaf_texts(c, from, to - 1)
    }
}

/// The records that the entry `c[start..end]` lists under `cat`: those
/// between the first header of `cat` and the next header that ends its list,
/// or the end of the entry.
pub open spec fn listed(c: Seq<Line>, start: int, end: int, cat: Category) -> Seq<Seq<char>> {
    let header = first_in(c, start, end, Mark::Exact(header_text(cat), 2));
    let close = first_in(c, header + 1, end, Mark::Closer(cat));
    leaf_texts(c, header + 1, close)
}

/// The records carried over for `cat` from the entry of `version`; none
/// where the page has no such entry.
pub open spec fn carried(c: Seq<Line>, version: Seq<char>, cat: Category) -> Seq<Seq<char>> {
    listed(c, entry_start(c, version), entry_end(c, version), cat)
}

/// The lines of one category in a fresh entry: nothing for no records, else
/// the header at indent 2 and the records at indent 3.
pub open spec fn block(cat: Category, records: Seq<Seq<char>>) -> Seq<Line> {
    if records.len() == 0 {
        Seq::empty()
    } else {
        seq![(header_text(cat), 2u8)] + Seq::new(records.len(), |i: int| (records[i], 3u8))
    }
}

/// The lines of the category `cat` in the fresh entry of `version`.
pub open spec fn merged_block(
    c: Seq<Line>,
    version: Seq<char>,
    changes: ChangeSetView,
    cat: Category,
) -> Seq<Line> {
    block(cat, merged_records(carried(c, version, cat), changes.of(cat)))
}

/// The fresh entry of `version`: its heading and, unless the change set is
/// empty, the categories in their fixed order.
pub open spec fn new_entry(c: Seq<Line>, version: Seq<char>, changes: ChangeSetView) -> Seq<Line> {
    let heading = seq![(heading_text(version), 1u8)];
    if changes.is_empty() {
        heading
    } else {
        heading + merged_block(c, version, changes, Category::Added) + merged_block(
            c,
            version,
            changes,
            Category::Modified,
        ) + merged_block(c, version, changes, Category::Deleted)
    }
}

/// The outline without the lines `c[start..end]`.
pub open spec fn without(c: Seq<Line>, start: int, end: int) -> Seq<Line> {
    c.subrange(0, start) + c.subrange(end, c.len() as int)
}

/// The outline without the entry of `version`.
pub open spec fn rest_of(c: Seq<Line>, version: Seq<char>) -> Seq<Line> {
    without(c, entry_start(c, version), entry_end(c, version))
}

/// Where the fresh entry goes among the lines of `rest_of`: right behind
/// the start of the section, or at the end where the page ends before that.
pub open spec fn insert_at(c: Seq<Line>, version: Seq<char>) -> int {
    let rest = rest_of(c, version);
    if section_start(c) + 1 <= rest.len() {
        section_start(c) + 1
    } else {
        rest.len() as int
    }
}

/// The outline after reconciling: the old entry of `version` taken out and
/// the fresh one put in behind the start of the section.
pub open spec fn reconciled(c: Seq<Line>, version: Seq<char>, changes: ChangeSetView) -> Seq<Line> {
    let rest = rest_of(c, version);
    let at = insert_at(c, version);
    rest.subrange(0, at) + new_entry(c, version, changes) + rest.subrange(at, rest.len() as int)
}

/// Where a search ends: within its range, behind every line that is not
/// looked for, and on a line that is, unless it ends at `to`.
pub proof fn lemma_first_in(c: Seq<Line>, from: int, to: int, mark: Mark)
    requires
        0 <= from <= to <= c.len(),
    ensures
        from <= first_in(c, from, to, mark) <= to,
        forall|i: int| from <= i < first_in(c, from, to, mark) ==> !hits(c[i], mark),
        first_in(c, from, to, mark) < to ==> hits(c[first_in(c, from, to, mark)], mark),
    decreases to - from,
{
    if from < to && !hits(c[from], mark) {
        lemma_first_in(c, from + 1, to, mark);
    }
}

/// A search ends at `at` if no line before `at` is looked for and the line
/// at `at` is, or `at` is the end of the range.
pub proof fn lemma_first_in_is(c: Seq<Line>, from: int, to: int, mark: Mark, at: int)
    requires
        0 <= from <= at <= to <= c.len(),
        forall|i: int| from <= i < at ==> !hits(c[i], mark),
        at < to ==> hits(c[at], mark),
    ensures
        first_in(c, from, to, mark) == at,
    decreases at - from,
{
    if from < at {
        lemma_first_in_is(c, from + 1, to, mark, at);
    }
}

/// Reconciling touches nothing outside the entry: the result without the
/// fresh entry is the page without the old one, line for line, and the
/// fresh entry stands in the result at `insert_at`.
pub proof fn lemma_rest_untouched(c: Seq<Line>, version: Seq<char>, changes: ChangeSetView)
    ensures
        ({
            let at = insert_at(c, version);
            let fresh = new_entry(c, version, changes);
            let after = reconciled(c, version, changes);
            &&& 0 <= at <= at + fresh.len() <= after.len()
            &&& after.subrange(at, at + fresh.len()) == fresh
            &&& without(after, at, at + fresh.len()) == without(
                c,
                entry_start(c, version),
                entry_end(c, version),
            )
        }),
{
    let rest = rest_of(c, version);
    let at = insert_at(c, version);
    let fresh = new_entry(c, version, changes);
    let after = reconciled(c, version, changes);
    lemma_entry_bounds(c, version);
    assert(after.subrange(at, at + fresh.len()) =~= fresh);
    assert(without(after, at, at + fresh.len()) =~= rest);
}

/// The section starts within the page, and the entry lies behind that
/// start: `section_start <= entry_start <= entry_end <= c.len()`.
pub proof fn lemma_entry_bounds(c: Seq<Line>, version: Seq<char>)
    ensures
        0 <= section_start(c) <= entry_start(c, version) <= entry_end(c, version) <= c.len(),
        entry_start(c, version) < c.len() ==> entry_start(c, version) < entry_end(c, version),
        0 <= insert_at(c, version) <= rest_of(c, version).len(),
{
    lemma_first_in(c, 0, c.len() as int, Mark::Exact(marker_text(), 0));
    lemma_first_in(
        c,
        section_start(c),
        c.len() as int,
        Mark::Exact(heading_text(version), 1),
    );
    if entry_start(c, version) < c.len() {
        lemma_first_in(c, entry_start(c, version) + 1, c.len() as int, Mark::VersionLine);
    }
}

/// What an exec search looks for.
enum Probe<'a> {
    Exact(&'a str, u8),
    VersionLine,
    Closer(Category),
}

impl<'a> View for Probe<'a> {
    type V = Mark;

    closed spec fn view(&self) -> Mark {
        match self {
            Probe::Exact(text, indent) => Mark::Exact(text@, *indent),
            Probe::VersionLine => Mark::VersionLine,
            Probe::Closer(cat) => Mark::Closer(*cat),
        }
    }
}

/// The text of the header of `cat`.
fn header_name(cat: Category) -> (name: &'static str)
    ensures
        name@ == header_text(cat),
{
    match cat {
        Category::Added => "### Added",
        Category::Modified => "### Modified",
        Category::Deleted => "### Deleted",
    }
}

fn line_hits(line: &(String, u8), probe: &Probe) -> (r: bool)
    ensures
        r == hits((line.0@, line.1), probe@),
{
    match probe {
        Probe::Exact(text, indent) => line.1 == *indent && same_text(line.0.as_str(), text),
        Probe::VersionLine => line.1 == 1 && has_prefix(line.0.as_str(), "## "),
        Probe::Closer(cat) => {
            line.1 == 2 && match cat {
                Category::Added => same_text(line.0.as_str(), header_name(Category::Modified))
                    || same_text(line.0.as_str(), header_name(Category::Deleted)),
                Category::Modified => same_text(line.0.as_str(), header_name(Category::Deleted)),
                Category::Deleted => false,
            }
        },
    }
}

fn find(contents: &Vec<(String, u8)>, from: usize, to: usize, probe: &Probe) -> (at: usize)
    requires
        to <= contents.len(),
    ensures
        at == first_in(contents.deep_view(), from as int, to as int, probe@),
{
    let mut i: usize = from;
    while i < to
        invariant
            to <= contents.len(),
            first_in(contents.deep_view(), from as int, to as int, probe@) == first_in(
                contents.deep_view(),
                i as int,
                to as int,
                probe@,
            ),
        decreases to - i,
    {
        if line_hits(&contents[i], probe) {
            return i;
        }
        i += 1;
    }
    to
}

/// The texts of the change records among `contents[from..to]`, in order.
fn collect_leaves(contents: &Vec<(String, u8)>, from: usize, to: usize) -> (out: Vec<String>)
    requires
        to <= contents.len(),
    ensures
        out.deep_view() == leaf_texts(contents.deep_view(), from as int, to as int),
{
    let mut out: Vec<String> = Vec::new();
    let mut i: usize = from;
    proof {
        assert(out.deep_view() =~= Seq::empty());
    }
    if from >= to {
        return out;
    }
    while i < to
        invariant
            from <= i <= to <= contents.len(),
            out.deep_view() == leaf_texts(contents.deep_view(), from as int, i as int),
        decreases to - i,
    {
        let ghost before = out.deep_view();
        if contents[i].1 == 3 && is_record_text(contents[i].0.as_str()) {
            out.push(contents[i].0.clone());
            proof {
                assert(out.deep_view() =~= before.push(contents.deep_view()[i as int].0));
            }
        }
        i += 1;
    }
    out
}

/// The records that the entry `contents[start..end]` lists under `cat`.
fn listed_records(contents: &Vec<(String, u8)>, start: usize, end: usize, cat: Category) -> (out:
    Vec<String>)
    requires
        start <= end <= contents.len(),
    ensures
        out.deep_view() == listed(contents.deep_view(), start as int, end as int, cat),
{
    let header = find(contents, start, end, &Probe::Exact(header_name(cat), 2));
    proof {
        lemma_first_in(
            contents.deep_view(),
            start as int,
            end as int,
            Mark::Exact(header_text(cat), 2),
        );
    }
    if header == end {
        proof {
            let c = contents.deep_view();
            assert(leaf_texts(c, end + 1, first_in(c, end + 1, end as int, Mark::Closer(cat)))
                =~= Seq::empty());
        }
        return Vec::new();
    }
    let close = find(contents, header + 1, end, &Probe::Closer(cat));
    proof {
        lemma_first_in(contents.deep_view(), header + 1, end as int, Mark::Closer(cat));
    }
    collect_leaves(contents, header + 1, close)
}

/// Appends the lines of one category of a fresh entry.
fn push_block(entry: &mut Vec<(String, u8)>, cat: Category, records: &Vec<String>)
    ensures
        final(entry).deep_view() == old(entry).deep_view() + block(cat, records.deep_view()),
{
    let ghost before = entry.deep_view();
    if records.len() == 0 {
        proof {
            assert(before + block(cat, records.deep_view()) =~= before);
        }
        return ;
    }
    entry.push((header_name(cat).to_owned(), 2));
    let mut i: usize = 0;
    while i < records.len()
        invariant
            i <= records.len(),
            entry.deep_view() == before + seq![(header_text(cat), 2u8)] + Seq::new(
                i as nat,
                |k: int| (records.deep_view()[k], 3u8),
            ),
        decreases records.len() - i,
    {
        let ghost sofar = entry.deep_view();
        entry.push((records[i].clone(), 3));
        proof {
            assert(entry.deep_view() =~= sofar.push((records.deep_view()[i as int], 3u8)));
        }
        i += 1;
    }
    proof {
        assert(entry.deep_view() =~= before + block(cat, records.deep_view()));
    }
}

/// Appends copies of the lines `contents[from..to]`.
fn push_lines(out: &mut Vec<(String, u8)>, contents: &Vec<(String, u8)>, from: usize, to: usize)
    requires
        from <= to <= contents.len(),
    ensures
        final(out).deep_view() == old(out).deep_view() + contents.deep_view().subrange(
            from as int,
            to as int,
        ),
{
    let ghost before = out.deep_view();
    let mut i: usize = from;
    proof {
        assert(before + contents.deep_view().subrange(from as int, from as int) =~= before);
    }
    while i < to
        invariant
            from <= i <= to <= contents.len(),
            out.deep_view() == before + contents.deep_view().subrange(from as int, i as int),
        decreases to - i,
    {
        let ghost sofar = out.deep_view();
        out.push((contents[i].0.clone(), contents[i].1));
        proof {
            assert(out.deep_view() =~= sofar.push(contents.deep_view()[i as int]));
            assert(sofar.push(contents.deep_view()[i as int]) =~= before
                + contents.deep_view().subrange(from as int, i + 1));
        }
        i += 1;
    }
}

/// The lines of the category `cat` in the fresh entry of `version`, appended
/// to `entry`.
fn push_merged_block(
    entry: &mut Vec<(String, u8)>,
    contents: &Vec<(String, u8)>,
    start: usize,
    end: usize,
    cat: Category,
    ids: &Vec<String>,
)
    requires
        start <= end <= contents.len(),
    ensures
        final(entry).deep_view() == old(entry).deep_view() + block(
            cat,
            merged_records(
                listed(contents.deep_view(), start as int, end as int, cat),
                ids.deep_view(),
            ),
        ),
{
    let carried = listed_records(contents, start, end, cat);
    let merged = merge_records(&carried, ids);
    push_block(entry, cat, &merged);
}

/// Finds the start of the section and the entry of `version`.
fn locate_entry(contents: &Vec<(String, u8)>, version: &str) -> (at: (usize, usize, usize))
    ensures
        at.0 == section_start(contents.deep_view()),
        at.1 == entry_start(contents.deep_view(), version@),
        at.2 == entry_end(contents.deep_view(), version@),
        at.0 <= at.1 <= at.2 <= contents.len(),
{
    let ghost c = contents.deep_view();
    let n = contents.len();
    let mut heading = String::from_str("## ");
    heading.append(version);
    let found = find(contents, 0, n, &Probe::Exact("# Changed Pages", 0));
    let section = if found < n {
        found
    } else {
        0
    };
    let start = find(contents, section, n, &Probe::Exact(heading.as_str(), 1));
    proof {
        lemma_entry_bounds(c, version@);
    }
    let end = if start < n {
        find(contents, start + 1, n, &Probe::VersionLine)
    } else {
        n
    };
    (section, start, end)
}

/// The fresh entry of `version`, given where the old one lies.
fn fresh_entry(
    contents: &Vec<(String, u8)>,
    start: usize,
    end: usize,
    version: &str,
    changes: &ChangeSet,
) -> (entry: Vec<(String, u8)>)
    requires
        start == entry_start(contents.deep_view(), version@),
        end == entry_end(contents.deep_view(), version@),
        start <= end <= contents.len(),
    ensures
        entry.deep_view() == new_entry(contents.deep_view(), version@, changes@),
{
    let mut heading = String::from_str("## ");
    heading.append(version);
    let mut entry: Vec<(String, u8)> = Vec::new();
    entry.push((heading, 1));
    proof {
        assert(entry.deep_view() =~= seq![(heading_text(version@), 1u8)]);
    }
    if !(changes.added.len() == 0 && changes.modified.len() == 0 && changes.deleted.len() == 0) {
        push_merged_block(&mut entry, contents, start, end, Category::Added, &changes.added);
        push_merged_block(&mut entry, contents, start, end, Category::Modified, &changes.modified);
        push_merged_block(&mut entry, contents, start, end, Category::Deleted, &changes.deleted);
    }
    entry
}

/// The lines `contents[..start]` and `contents[end..]`, with `entry` put in
/// behind the line at `section`, or at the end where there is no such line.
fn splice(
    contents: &Vec<(String, u8)>,
    section: usize,
    start: usize,
    end: usize,
    entry: Vec<(String, u8)>,
) -> (out: Vec<(String, u8)>)
    requires
        start <= end <= contents.len(),
    ensures
        ({
            let rest = without(contents.deep_view(), start as int, end as int);
            let at = if section + 1 <= rest.len() {
                section + 1
            } else {
                rest.len() as int
            };
            out.deep_view() == rest.subrange(0, at) + entry.deep_view() + rest.subrange(
                at,
                rest.len() as int,
            )
        }),
{
    let mut entry = entry;
    let mut out: Vec<(String, u8)> = Vec::new();
    push_lines(&mut out, contents, 0, start);
    push_lines(&mut out, contents, end, contents.len());
    proof {
        assert(out.deep_view() =~= without(contents.deep_view(), start as int, end as int));
    }
    let at = if section < out.len() {
        section + 1
    } else {
        out.len()
    };
    let ghost kept = out.deep_view();
    let ghost fresh = entry.deep_view();
    let mut tail = out.split_off(at);
    out.append(&mut entry);
    out.append(&mut tail);
    proof {
        assert(out.deep_view() =~= kept.subrange(0, at as int) + fresh + kept.subrange(
            at as int,
            kept.len() as int,
        ));
    }
    out
}

/// Brings the entry of `version` in the changelog page up to date with the
/// changes of this run.
///
/// The entry that the page holds for `version`, if any, is taken out, and a
/// fresh one is put in right behind the start of the section. Unless
/// `changes` is empty, each category of the fresh entry lists what the old
/// entry listed under it together with the pages of `changes`, sorted and
/// each once. Every other line of the page stays as it is, in its order.
pub fn reconcile(page: LogseqPage, version: &str, changes: &ChangeSet) -> (out: LogseqPage)
    ensures
        out@.title == page@.title,
        out@.properties == page@.properties,
        out@.contents == reconciled(page@.contents, version@, changes@),
        ({
            let at = insert_at(page@.contents, version@);
            let fresh = new_entry(page@.contents, version@, changes@);
            &&& out@.contents.subrange(at, at + fresh.len()) == fresh
            &&& without(out@.contents, at, at + fresh.len()) == without(
                page@.contents,
                entry_start(page@.contents, version@),
                entry_end(page@.contents, version@),
            )
        }),
{
    let mut page = page;
    let (section, start, end) = locate_entry(&page.contents, version);
    let entry = fresh_entry(&page.contents, start, end, version, changes);
    let contents = splice(&page.contents, section, start, end, entry);
    proof {
        lemma_rest_untouched(page@.contents, version@, changes@);
    }
    page.contents = contents;
    page
}

} // verus!
