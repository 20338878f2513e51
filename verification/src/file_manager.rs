//! The page store as the library sees it: which file a page lives in, what
//! the file holds, and which pages a set of file states names as changed.
//! Reading and writing the files themselves is left to the caller.

use vstd::prelude::*;
use vstd::string::StringExecFns;
use crate::changelog::{Category, ChangeSet, ChangeSetView};
use crate::page::{page_of, page_text, LogseqPage};
use crate::storage::{extension, file_name, title_in, title_of, title_to_key};
use crate::text::{chars_of, is_prefix, same_text};

verus! {

/// No configuration was found.
#[derive(Debug, Clone, Copy, PartialEq, Eq, Structural)]
pub struct ConfigNotFoundError;

impl ConfigNotFoundError {
    /// The message of the error.
    pub fn message(&self) -> (text: String)
        ensures
            text@ == "Config not found"@,
    {
        "Config not found".to_owned()
    }
}

/// What goes wrong while a page or a version is fetched.
#[derive(Debug, Clone, Copy, PartialEq, Eq, Structural)]
pub enum StoreError {
    /// Nothing is stored under the name that was asked for.
    NotFound,
    /// What is stored cannot be read as what was asked for.
    ParseError,
}

/// What the configuration file holds.
#[derive(Debug, Clone, PartialEq, Eq)]
pub struct Config {
    /// The name of the contributor, if the file gives one as a string.
    pub contributor: Option<String>,
}

/// A file of the store: where it lies, from the root on, and its text.
#[derive(Debug, Clone, PartialEq, Eq)]
pub struct StoredFile {
    pub path: String,
    pub text: String,
}

/// The project as far as the store needs to know it.
#[derive(Debug, Clone, PartialEq, Eq)]
pub struct FileManager {
    /// The root directory of the project.
    pub root: String,
    /// The name of the contributor.
    pub contributor_name: String,
}

/// The directory of the pages, from the root on.
pub open spec fn pages_dir() -> Seq<char> {
    seq!['p', 'a', 'g', 'e', 's']
}

/// The path of the file of the page `title` in the directory `dir`.
pub open spec fn path_in(dir: Seq<char>, title: Seq<char>) -> Seq<char> {
    dir + seq!['/'] + file_name(title)
}

/// The path of the file of the page `title`, from the root on.
pub open spec fn page_path(title: Seq<char>) -> Seq<char> {
    path_in(pages_dir(), title)
}

impl LogseqPage {
    /// The path of the file of this page in the directory `pages_dir`.
    pub fn title_to_path(&self, pages_dir: &str) -> (path: String)
        ensures
            path@ == path_in(pages_dir@, self@.title),
    {
        let mut path = pages_dir.to_owned();
        path.push('/');
        let key = title_to_key(self.title.as_str());
        path.append(key.as_str());
        path.append(".md");
        proof {
            reveal_strlit(".md");
            assert(".md"@ =~= extension());
            assert(path@ =~= path_in(pages_dir@, self@.title));
        }
        path
    }
}

impl FileManager {
    /// The manager of the project at `root`, if a configuration was found.
    /// The contributor has the name that the configuration gives, and the
    /// empty name if it gives none.
    pub fn new(root: &str, config: Option<Config>) -> (r: Result<Self, ConfigNotFoundError>)
        ensures
            config is None <==> r is Err,
            r matches Ok(manager) ==> {
                &&& manager.root@ == root@
                &&& manager.contributor_name@ == match config->Some_0.contributor {
                    Some(name) => name@,
                    None => Seq::<char>::empty(),
                }
            },
    {
        match config {
            None => Err(ConfigNotFoundError),
            Some(found) => {
                let contributor_name = match found.contributor {
                    Some(name) => name,
                    None => String::new(),
                };
                Ok(FileManager { root: root.to_owned(), contributor_name })
            },
        }
    }

    /// Tells whether the page `title` is stored, given the names of the files
    /// in the directory of the pages.
    pub fn logseq_page_exists(&self, title: &str, stored: &Vec<String>) -> (found: bool)
        ensures
            found == stored.deep_view().contains(file_name(title@)),
    {
        let mut name = title_to_key(title);
        name.append(".md");
        proof {
            reveal_strlit(".md");
            assert(".md"@ =~= extension());
        }
        let mut i: usize = 0;
        while i < stored.len()
            invariant
                i <= stored.len(),
                name@ == file_name(title@),
                forall|k: int| 0 <= k < i ==> stored.deep_view()[k] != file_name(title@),
            decreases stored.len() - i,
        {
            if same_text(stored[i].as_str(), name.as_str()) {
                proof {
                    assert(stored.deep_view()[i as int] == file_name(title@));
                }
                return true;
            }
            i += 1;
        }
        false
    }

    /// The file that stores `page`: its path from the root on, and its text.
    pub fn write_logseq_page(&self, page: &LogseqPage) -> (file: StoredFile)
        ensures
            file.path@ == page_path(page@.title),
            file.text@ == page_text(page@),
    {
        proof {
            reveal_strlit("pages");
            assert("pages"@ =~= pages_dir());
        }
        StoredFile { path: page.title_to_path("pages"), text: page.write_page() }
    }

    /// The page `title` as the store holds it: `stored` is the text of its
    /// file, and `None` where there is no such file.
    pub fn read_logseq_page(&self, title: &str, stored: Option<&str>) -> (r: Result<
        LogseqPage,
        StoreError,
    >)
        ensures
            stored is None <==> r == Err::<LogseqPage, StoreError>(StoreError::NotFound),
            stored matches Some(text) ==> r is Ok && r->Ok_0@ == page_of(title@, text@),
    {
        match stored {
            None => Err(StoreError::NotFound),
            Some(text) => {
                let page = LogseqPage::new(title, Vec::new(), Vec::new());
                Ok(page.read_page(text))
            },
        }
    }
}

/// The state of one file as version control reports it: its path from the
/// root on, and what holds of it in the working tree and in the index.
#[derive(Debug, Clone, PartialEq, Eq)]
pub struct FileStatus {
    pub path: String,
    pub wt_new: bool,
    pub index_new: bool,
    pub wt_modified: bool,
    pub wt_renamed: bool,
    pub index_modified: bool,
    pub index_renamed: bool,
    pub wt_deleted: bool,
    pub index_deleted: bool,
}

/// The category under which a file in this state is listed: a new file is
/// added, whatever else holds of it; one that is modified or renamed is
/// modified, even if it is deleted too; of the others a deleted one is
/// deleted, and the rest is not listed.
pub open spec fn kind_of(status: FileStatus) -> Option<Category> {
    if status.wt_new || status.index_new {
        Some(Category::Added)
    } else if status.wt_modified || status.wt_renamed || status.index_modified
        || status.index_renamed {
        Some(Category::Modified)
    } else if status.wt_deleted || status.index_deleted {
        Some(Category::Deleted)
    } else {
        None
    }
}

/// What the path of every file of a page starts with.
pub open spec fn pages_prefix() -> Seq<char> {
    pages_dir() + seq!['/']
}

/// `p` stands at the end of `s`.
pub open spec fn is_suffix(p: Seq<char>, s: Seq<char>) -> bool {
    &&& p.len() <= s.len()
    &&& forall|i: int| 0 <= i < p.len() ==> s[s.len() - p.len() + i] == p[i]
}

/// The page that the file at `path` stores: for a file in the directory of
/// the pages with the extension of a page, the title that its name stands
/// for; for any other file, none.
pub open spec fn page_id(path: Seq<char>) -> Option<Seq<char>> {
    if is_prefix(pages_prefix(), path) && is_suffix(extension(), path) {
        Some(title_of(path.subrange(pages_prefix().len() as int, path.len() - extension().len())))
    } else {
        None
    }
}

/// The pages that the given file states name as changed, by category, in
/// the order of the states.
pub open spec fn changes_of(statuses: Seq<FileStatus>) -> ChangeSetView
    decreases statuses.len(),
{
    if statuses.len() == 0 {
        ChangeSetView { added: Seq::empty(), modified: Seq::empty(), deleted: Seq::empty() }
    } else {
        let before = changes_of(statuses.drop_last());
        let last = statuses.last();
        match (page_id(last.path@), kind_of(last)) {
            (Some(id), Some(Category::Added)) => ChangeSetView {
                added: before.added.push(id),
                ..before
            },
            (Some(id), Some(Category::Modified)) => ChangeSetView {
                modified: before.modified.push(id),
                ..before
            },
            (Some(id), Some(Category::Deleted)) => ChangeSetView {
                deleted: before.deleted.push(id),
                ..before
            },
            _ => before,
        }
    }
}

/// The category under which a file in this state is listed.
pub fn status_kind(status: &FileStatus) -> (kind: Option<Category>)
    ensures
        kind == kind_of(*status),
{
    if status.wt_new || status.index_new {
        Some(Category::Added)
    } else if status.wt_modified || status.wt_renamed || status.index_modified
        || status.index_renamed {
        Some(Category::Modified)
    } else if status.wt_deleted || status.index_deleted {
        Some(Category::Deleted)
    } else {
        None
    }
}

/// The page that the file at `path` stores, if it stores one.
pub fn path_page_id(path: &str) -> (id: Option<String>)
    ensures
        id is Some <==> page_id(path@) is Some,
        id matches Some(title) ==> page_id(path@) == Some(title@),
{
    let chars = chars_of(path);
    let n = chars.len();
    if n < 6 || chars[0] != 'p' || chars[1] != 'a' || chars[2] != 'g' || chars[3] != 'e'
        || chars[4] != 's' || chars[5] != '/' {
        proof {
            if is_prefix(pages_prefix(), path@) {
                assert(pages_prefix().len() == 6);
                assert(pages_prefix()[0] == 'p' && pages_prefix()[1] == 'a' && pages_prefix()[2]
                    == 'g' && pages_prefix()[3] == 'e' && pages_prefix()[4] == 's'
                    && pages_prefix()[5] == '/');
            }
        }
        return None;
    }
    if chars[n - 3] != '.' || chars[n - 2] != 'm' || chars[n - 1] != 'd' {
        proof {
            if is_suffix(extension(), path@) {
                assert(path@[n - 3 + 0] == extension()[0]);
                assert(path@[n - 3 + 1] == extension()[1]);
                assert(path@[n - 3 + 2] == extension()[2]);
            }
        }
        return None;
    }
    proof {
        assert(is_prefix(pages_prefix(), path@));
        assert(is_suffix(extension(), path@));
    }
    Some(title_in(&chars, 6, n - 3))
}

impl FileManager {
    /// Sorts the pages that changed into added, modified and deleted ones,
    /// given the states of the files as version control reports them.
    pub fn get_changed_pages(&self, statuses: &Vec<FileStatus>) -> (changes: ChangeSet)
        ensures
            changes@ == changes_of(statuses@),
    {
        let mut changes = ChangeSet { added: Vec::new(), modified: Vec::new(), deleted: Vec::new() };
        let mut i: usize = 0;
        proof {
            assert(statuses@.take(0) =~= Seq::empty());
            assert(changes@.added =~= Seq::empty());
            assert(changes@.modified =~= Seq::empty());
            assert(changes@.deleted =~= Seq::empty());
        }
        while i < statuses.len()
            invariant
                i <= statuses.len(),
                changes@ == changes_of(statuses@.take(i as int)),
            decreases statuses.len() - i,
        {
            let ghost before = changes@;
            proof {
                assert(statuses@.take(i + 1).drop_last() =~= statuses@.take(i as int));
                assert(statuses@.take(i + 1).last() == statuses@[i as int]);
            }
            match path_page_id(statuses[i].path.as_str()) {
                Some(id) => {
                    match status_kind(&statuses[i]) {
                        Some(Category::Added) => {
                            changes.added.push(id);
                            proof {
                                assert(changes@.added =~= before.added.push(id@));
                            }
                        },
                        Some(Category::Modified) => {
                            changes.modified.push(id);
                            proof {
                                assert(changes@.modified =~= before.modified.push(id@));
                            }
                        },
                        Some(Category::Deleted) => {
                            changes.deleted.push(id);
                            proof {
                                assert(changes@.deleted =~= before.deleted.push(id@));
                            }
                        },
                        None => {},
                    }
                },
                None => {},
            }
            i += 1;
        }
        proof {
            assert(statuses@.take(statuses.len() as int) =~= statuses@);
        }
        changes
    }
}

/// Why no root directory was found.
#[derive(Debug, Clone, Copy, PartialEq, Eq, Structural)]
pub enum RootError {
    /// The executable has no directory, or its build directory lies less
    /// than three levels deep.
    NoDirectory,
    /// The executable lies neither in a build directory nor beside the
    /// directory of the pages.
    NotDetected,
}

impl RootError {
    /// The message of the error.
    pub fn message(&self) -> (text: &'static str)
        ensures
            text@ == match self {
                RootError::NoDirectory => "Failed to get executable directory"@,
                RootError::NotDetected =>
                    "Failed to detect root directory. Please run svlmd from project root or installation directory."@,
            },
    {
        match self {
            RootError::NoDirectory => "Failed to get executable directory",
            RootError::NotDetected =>
                "Failed to detect root directory. Please run svlmd from project root or installation directory.",
        }
    }
}

/// `name` is the name of a directory into which a build puts the
/// executable.
pub open spec fn is_build_dir(name: Seq<char>) -> bool {
    name == "debug"@ || name == "release"@
}

/// The root directory of the project, by the names of its path. `exe` holds
/// the names of the path of the executable. From a build directory the root
/// lies three levels up; otherwise it is the directory of the executable,
/// provided that the directory of the pages lies in it.
pub open spec fn root_of(exe: Seq<Seq<char>>, has_pages: bool) -> Result<
    Seq<Seq<char>>,
    RootError,
> {
    if exe.len() == 0 {
        Err(RootError::NoDirectory)
    } else {
        let dir = exe.drop_last();
        if dir.len() > 0 && is_build_dir(dir.last()) {
            if dir.len() >= 3 {
                Ok(dir.take(dir.len() - 3))
            } else {
                Err(RootError::NoDirectory)
            }
        } else if has_pages {
            Ok(dir)
        } else {
            Err(RootError::NotDetected)
        }
    }
}

/// Finds the root directory of the project from the names of the path of
/// the executable; `has_pages` says whether the directory of the pages lies
/// in the directory of the executable.
pub fn detect_root(exe: &Vec<String>, has_pages: bool) -> (r: Result<Vec<String>, RootError>)
    ensures
        match r {
            Ok(root) => root_of(exe.deep_view(), has_pages) == Ok::<Seq<Seq<char>>, RootError>(
                root.deep_view(),
            ),
            Err(e) => root_of(exe.deep_view(), has_pages) == Err::<Seq<Seq<char>>, RootError>(e),
        },
{
    let n = exe.len();
    if n == 0 {
        return Err(RootError::NoDirectory);
    }
    let depth = n - 1;
    let ghost dir = exe.deep_view().drop_last();
    let keep = if depth > 0 && (same_text(exe[depth - 1].as_str(), "debug") || same_text(
        exe[depth - 1].as_str(),
        "release",
    )) {
        if depth < 3 {
            return Err(RootError::NoDirectory);
        }
        depth - 3
    } else {
        if !has_pages {
            return Err(RootError::NotDetected);
        }
        depth
    };
    let mut root: Vec<String> = Vec::new();
    let mut i: usize = 0;
    while i < keep
        invariant
            i <= keep <= exe.len(),
            root.len() == i,
            forall|k: int| 0 <= k < i ==> root@[k]@ == exe@[k]@,
        decreases keep - i,
    {
        root.push(exe[i].clone());
        i += 1;
    }
    proof {
        assert(root.deep_view() =~= dir.take(keep as int));
        assert(dir.take(depth as int) =~= dir);
    }
    Ok(root)
}

} // verus!
