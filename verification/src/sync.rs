//! One run of the synchronisation, as far as it computes: which pages a run
//! writes and what they hold. The caller fetches what is stored and writes
//! what comes back.

use vstd::prelude::*;
use crate::changelog::{reconcile, reconciled, ChangeSet, ChangeSetView};
use crate::file_manager::{page_path, FileManager, StoredFile};
use crate::page::{page_of, page_text, LogseqPage, PageView};
use crate::roundtrip::{
    clean_key, clean_page, clean_text, clean_value, lemma_page_read_back, read_back,
};
use crate::version::{dotted, rendered, Version};

verus! {

/// The page that a release starts with: its tags, the date of the release,
/// and the headings of its two sections.
pub open spec fn skeleton(title: Seq<char>, today: Seq<char>) -> PageView {
    PageView {
        title,
        properties: seq![("tags"@, "Version"@), ("released-date"@, today)],
        contents: seq![
            ("# Summary"@, 0u8),
            (Seq::<char>::empty(), 0u8),
            ("# Changed Pages"@, 0u8),
        ],
    }
}

/// The page that lists the releases.
pub open spec fn version_index() -> PageView {
    PageView {
        title: "Version"@,
        properties: seq![
            ("icon"@, "\u{1F3F7}\u{FE0F}"@),
            ("exclude-from-graph-view"@, "true"@),
        ],
        contents: Seq::empty(),
    }
}

/// The page of a contributor.
pub open spec fn contributor(name: Seq<char>) -> PageView {
    PageView {
        title: name,
        properties: seq![
            ("icon"@, "\u{1F642}"@),
            ("exclude-from-graph-view"@, "true"@),
            ("tags"@, "Author"@),
        ],
        contents: Seq::empty(),
    }
}

/// The file that stores a page, as its path and its text.
pub open spec fn file_of(page: PageView) -> (Seq<char>, Seq<char>) {
    (page_path(page.title), page_text(page))
}

/// The page of `version` as a run finds it: what `stored` holds, and what
/// the stored skeleton holds where the page is not stored yet.
pub open spec fn found_page(version: Version, stored: Option<Seq<char>>, today: Seq<char>) -> PageView {
    match stored {
        Some(text) => page_of(dotted(version), text),
        None => page_of(dotted(version), page_text(skeleton(dotted(version), today))),
    }
}

/// The page of `version` after a run with `changes`.
pub open spec fn synced_page(
    version: Version,
    changes: ChangeSetView,
    stored: Option<Seq<char>>,
    today: Seq<char>,
) -> PageView {
    let found = found_page(version, stored, today);
    PageView { contents: reconciled(found.contents, rendered(version), changes), ..found }
}

/// The files that a run writes, in the order in which it writes them: the
/// skeleton of the page of the version where that page is not stored yet,
/// the page with its entry brought up to date, and the list of releases.
pub open spec fn synced_files(
    version: Version,
    changes: ChangeSetView,
    stored: Option<Seq<char>>,
    today: Seq<char>,
) -> Seq<(Seq<char>, Seq<char>)> {
    let first = match stored {
        Some(_) => Seq::<(Seq<char>, Seq<char>)>::empty(),
        None => seq![file_of(skeleton(dotted(version), today))],
    };
    first + seq![file_of(synced_page(version, changes, stored, today)), file_of(version_index())]
}

/// The paths and texts of the given files.
pub open spec fn files_view(files: Seq<StoredFile>) -> Seq<(Seq<char>, Seq<char>)> {
    Seq::new(files.len(), |i: int| (files[i].path@, files[i].text@))
}

/// The skeleton is read back from its stored text as it is, whatever its
/// title, if the date is a clean value: with no line feed and no `::` in it,
/// and no white space at its ends.
pub proof fn lemma_skeleton_read_back(title: Seq<char>, today: Seq<char>)
    requires
        clean_value(today),
    ensures
        page_of(title, page_text(skeleton(title, today))) == skeleton(title, today),
{
    let page = skeleton(title, today);
    reveal_strlit("tags");
    reveal_strlit("Version");
    reveal_strlit("released-date");
    reveal_strlit("# Summary");
    reveal_strlit("# Changed Pages");
    assert(clean_key("tags"@));
    assert(clean_key("released-date"@));
    assert(clean_value("Version"@));
    assert(clean_text("# Summary"@));
    assert(clean_text("# Changed Pages"@));
    assert(clean_text(Seq::<char>::empty()));
    assert(clean_page(page)) by {
        assert forall|i: int| 0 <= i < page.contents.len() implies clean_text(
            #[trigger] page.contents[i].0,
        ) by {
            if i == 0 {
            } else if i == 1 {
            } else {
            }
        }
        assert forall|i: int| 0 <= i < page.properties.len() implies clean_key(
            (#[trigger] page.properties[i]).0,
        ) && clean_value(page.properties[i].1) by {
            if i == 0 {
            } else {
            }
        }
    }
    lemma_page_read_back(page);
    assert(Seq::new(page.contents.len(), |i: int| read_back(page.contents[i]))
        =~= page.contents);
}

fn property(key: &str, value: &str) -> (p: (String, String))
    ensures
        p.0@ == key@,
        p.1@ == value@,
{
    (key.to_owned(), value.to_owned())
}

fn entry(text: &str, indent: u8) -> (e: (String, u8))
    ensures
        e.0@ == text@,
        e.1 == indent,
{
    (text.to_owned(), indent)
}

/// The page that a release starts with.
pub fn version_page_skeleton(title: &str, today: &str) -> (page: LogseqPage)
    ensures
        page@ == skeleton(title@, today@),
{
    let mut properties: Vec<(String, String)> = Vec::new();
    properties.push(property("tags", "Version"));
    properties.push(property("released-date", today));
    let mut contents: Vec<(String, u8)> = Vec::new();
    contents.push(entry("# Summary", 0));
    contents.push((String::new(), 0));
    contents.push(entry("# Changed Pages", 0));
    let page = LogseqPage::new(title, properties, contents);
    proof {
        assert(page@.properties =~= skeleton(title@, today@).properties);
        assert(page@.contents =~= skeleton(title@, today@).contents);
    }
    page
}

/// The page that lists the releases.
pub fn version_index_page() -> (page: LogseqPage)
    ensures
        page@ == version_index(),
{
    let mut properties: Vec<(String, String)> = Vec::new();
    properties.push(property("icon", "\u{1F3F7}\u{FE0F}"));
    properties.push(property("exclude-from-graph-view", "true"));
    let page = LogseqPage::new("Version", properties, Vec::new());
    proof {
        assert(page@.properties =~= version_index().properties);
        assert(page@.contents =~= version_index().contents);
    }
    page
}

/// The page of the contributor `name`.
pub fn contributor_page(name: &str) -> (page: LogseqPage)
    ensures
        page@ == contributor(name@),
{
    let mut properties: Vec<(String, String)> = Vec::new();
    properties.push(property("icon", "\u{1F642}"));
    properties.push(property("exclude-from-graph-view", "true"));
    properties.push(property("tags", "Author"));
    let page = LogseqPage::new(name, properties, Vec::new());
    proof {
        assert(page@.properties =~= contributor(name@).properties);
        assert(page@.contents =~= contributor(name@).contents);
    }
    page
}

/// One run for `version`: brings the entry of the version in its page up to
/// date with `changes` and says which files to write. `stored` is the text
/// of the file of the page, and `None` where the page is not stored yet;
/// `today` is the date to put on a page that starts with this run.
pub fn sync_version(
    manager: &FileManager,
    version: &Version,
    changes: &ChangeSet,
    stored: Option<&str>,
    today: &str,
) -> (files: Vec<StoredFile>)
    ensures
        files_view(files@) == synced_files(
            *version,
            changes@,
            match stored {
                Some(text) => Some(text@),
                None => None,
            },
            today@,
        ),
{
    let title = version.page_title();
    let heading = version.render();
    let mut files: Vec<StoredFile> = Vec::new();
    let reader = LogseqPage::new(title.as_str(), Vec::new(), Vec::new());
    let found = match stored {
        Some(text) => reader.read_page(text),
        None => {
            let fresh = manager.write_logseq_page(&version_page_skeleton(title.as_str(), today));
            let page = reader.read_page(fresh.text.as_str());
            files.push(fresh);
            page
        },
    };
    let page = reconcile(found, heading.as_str(), changes);
    files.push(manager.write_logseq_page(&page));
    files.push(manager.write_logseq_page(&version_index_page()));
    proof {
        let ghost_stored = match stored {
            Some(text) => Some(text@),
            None => None,
        };
        assert(page@ == synced_page(*version, changes@, ghost_stored, today@));
        assert(files_view(files@) =~= synced_files(*version, changes@, ghost_stored, today@));
    }
    files
}

} // verus!
