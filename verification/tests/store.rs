use svlmd::changelog::ChangeSet;
use svlmd::file_manager::{
    detect_root, path_page_id, Config, ConfigNotFoundError, FileManager, FileStatus, RootError,
    StoreError,
};
use svlmd::page::LogseqPage;
use svlmd::storage::{key_to_title, title_to_key};
use svlmd::sync::{contributor_page, sync_version, version_index_page, version_page_skeleton};
use svlmd::version::{read_version, version_from_numbers, Version};

fn names(items: &[&str]) -> Vec<String> {
    items.iter().map(|s| s.to_string()).collect()
}

fn manager() -> FileManager {
    FileManager::new("/project", Some(Config { contributor: Some("Sira".to_string()) })).unwrap()
}

fn status(path: &str) -> FileStatus {
    FileStatus {
        path: path.to_string(),
        wt_new: false,
        index_new: false,
        wt_modified: false,
        wt_renamed: false,
        index_modified: false,
        index_renamed: false,
        wt_deleted: false,
        index_deleted: false,
    }
}

#[test]
fn slash_in_a_title_is_stored_as_three_underscores() {
    assert_eq!(title_to_key("A/B"), "A___B");
    assert_eq!(key_to_title("A___B"), "A/B");
    assert_eq!(path_page_id("pages/A___B.md"), Some("A/B".to_string()));
    let page = LogseqPage::new("A/B", vec![], vec![]);
    assert_eq!(page.title_to_path("pages"), "pages/A___B.md");
}

#[test]
fn keys_replace_every_slash_and_titles_every_bar_from_the_left() {
    assert_eq!(title_to_key(""), "");
    assert_eq!(title_to_key("a//b/"), "a______b___");
    assert_eq!(title_to_key("plain_name"), "plain_name");
    for key in ["", "a", "__", "___", "____", "a______b", "_a___", "a__b", "_______"] {
        assert_eq!(key_to_title(key), key.replace("___", "/"));
    }
    for title in ["", "/", "a/b/c", "//", "no slash", "_/_"] {
        assert_eq!(title_to_key(title), title.replace("/", "___"));
    }
    assert_eq!(key_to_title(&title_to_key("a/b/c d")), "a/b/c d");
    assert_eq!(key_to_title(&title_to_key("_/")), "/_");
}

#[test]
fn only_page_files_name_a_page() {
    assert_eq!(path_page_id("pages/Alice.md"), Some("Alice".to_string()));
    assert_eq!(path_page_id("pages/.md"), Some("".to_string()));
    assert_eq!(path_page_id("pages/a/b.md"), Some("a/b".to_string()));
    assert_eq!(path_page_id("pages/Alice.txt"), None);
    assert_eq!(path_page_id("journals/Alice.md"), None);
    assert_eq!(path_page_id("pages.md"), None);
    assert_eq!(path_page_id("pages/md"), None);
    assert_eq!(path_page_id(""), None);
    assert_eq!(path_page_id("Pages/Alice.md"), None);
}

#[test]
fn config_decides_whether_there_is_a_manager() {
    assert_eq!(FileManager::new("/project", None), Err(ConfigNotFoundError));
    let m = FileManager::new("/project", Some(Config { contributor: None })).unwrap();
    assert_eq!(m.root, "/project");
    assert_eq!(m.contributor_name, "");
    assert_eq!(manager().contributor_name, "Sira");
    assert_eq!(ConfigNotFoundError.message(), "Config not found");
}

#[test]
fn page_exists_if_its_file_is_listed() {
    let stored = names(&["Alice.md", "A___B.md", "notes.txt"]);
    assert!(manager().logseq_page_exists("Alice", &stored));
    assert!(manager().logseq_page_exists("A/B", &stored));
    assert!(!manager().logseq_page_exists("Bob", &stored));
    assert!(!manager().logseq_page_exists("notes", &stored));
    assert!(!manager().logseq_page_exists("Alice", &names(&[])));
}

#[test]
fn page_is_written_to_its_path() {
    let page = LogseqPage::new(
        "A/B",
        vec![("tags".to_string(), "Author".to_string())],
        vec![("hello".to_string(), 1)],
    );
    let file = manager().write_logseq_page(&page);
    assert_eq!(file.path, "pages/A___B.md");
    assert_eq!(file.text, "tags:: Author\n\n    - hello\n");
}

#[test]
fn page_is_read_or_not_found() {
    assert_eq!(manager().read_logseq_page("T", None), Err(StoreError::NotFound));
    let page = manager().read_logseq_page("T", Some("k:: v\n\n- x\n")).unwrap();
    assert_eq!(
        page,
        LogseqPage::new("T", vec![("k".to_string(), "v".to_string())], vec![("x".to_string(), 0)])
    );
}

#[test]
fn states_sort_pages_into_categories() {
    let mut new = status("pages/New.md");
    new.wt_new = true;
    let mut staged = status("pages/Staged___Page.md");
    staged.index_new = true;
    staged.wt_modified = true;
    let mut changed = status("pages/Changed.md");
    changed.index_modified = true;
    let mut renamed = status("pages/Renamed.md");
    renamed.wt_renamed = true;
    renamed.wt_deleted = true;
    let mut index_renamed = status("pages/Moved.md");
    index_renamed.index_renamed = true;
    let mut gone = status("pages/Gone.md");
    gone.index_deleted = true;
    let mut wt_gone = status("pages/Lost.md");
    wt_gone.wt_deleted = true;
    let untouched = status("pages/Same.md");
    let mut other = status("assets/New.md");
    other.wt_new = true;
    let mut text = status("pages/New.txt");
    text.wt_new = true;
    let changes = manager().get_changed_pages(&vec![
        gone, new, changed, staged, renamed, untouched, other, text, wt_gone, index_renamed,
    ]);
    assert_eq!(
        changes,
        ChangeSet {
            added: names(&["New", "Staged/Page"]),
            modified: names(&["Changed", "Renamed", "Moved"]),
            deleted: names(&["Gone", "Lost"]),
        }
    );
    assert_eq!(
        manager().get_changed_pages(&vec![]),
        ChangeSet { added: vec![], modified: vec![], deleted: vec![] }
    );
}

#[test]
fn root_lies_three_levels_above_a_build_directory() {
    let exe = names(&["home", "me", "notes", "svlmd", "target", "debug", "svlmd"]);
    assert_eq!(detect_root(&exe, false), Ok(names(&["home", "me", "notes"])));
    let exe = names(&["notes", "svlmd", "target", "release", "svlmd"]);
    assert_eq!(detect_root(&exe, true), Ok(names(&["notes"])));
    let exe = names(&["a", "b", "release", "svlmd"]);
    assert_eq!(detect_root(&exe, true), Ok(names(&[])));
}

#[test]
fn root_is_the_directory_beside_the_pages() {
    let exe = names(&["opt", "notes", "svlmd"]);
    assert_eq!(detect_root(&exe, true), Ok(names(&["opt", "notes"])));
    assert_eq!(detect_root(&names(&["svlmd"]), true), Ok(names(&[])));
    assert_eq!(detect_root(&names(&["debug"]), true), Ok(names(&[])));
}

#[test]
fn root_is_not_found_otherwise() {
    assert_eq!(detect_root(&names(&[]), true), Err(RootError::NoDirectory));
    assert_eq!(detect_root(&names(&["target", "debug", "svlmd"]), true), Err(RootError::NoDirectory));
    assert_eq!(detect_root(&names(&["debug", "svlmd"]), true), Err(RootError::NoDirectory));
    assert_eq!(detect_root(&names(&["opt", "notes", "svlmd"]), false), Err(RootError::NotDetected));
    assert_eq!(RootError::NoDirectory.message(), "Failed to get executable directory");
    assert_eq!(
        RootError::NotDetected.message(),
        "Failed to detect root directory. Please run svlmd from project root or installation directory."
    );
}

#[test]
fn version_is_read_from_the_first_line() {
    let v = Version { major: 1, minor: 2, patch: 3 };
    assert_eq!(read_version(Some("1.2.3")), Ok(v));
    assert_eq!(read_version(Some("1.2.3\nrest\n")), Ok(v));
    assert_eq!(read_version(Some("1.2.3\r\n")), Ok(v));
    assert_eq!(
        read_version(Some("10.0.18446744073709551615-rc.1+build")),
        Ok(Version { major: 10, minor: 0, patch: 18446744073709551615 })
    );
    assert_eq!(read_version(None), Err(StoreError::NotFound));
}

#[test]
fn malformed_version_is_a_parse_error() {
    for text in ["", "\n1.2.3", "1.0", "1.0.01", "v1.2.3", " 1.2.3", "1.2.3 ", "1.0.unknown", "23456789999999999999.0.0"] {
        assert_eq!(read_version(Some(text)), Err(StoreError::ParseError));
    }
    assert_eq!(version_from_numbers(None), Err(StoreError::ParseError));
    assert_eq!(version_from_numbers(Some((4, 5, 6))), Ok(Version { major: 4, minor: 5, patch: 6 }));
}

#[test]
fn version_is_written_in_decimal() {
    let v = Version { major: 1, minor: 20, patch: 305 };
    assert_eq!(v.render(), "v1.20.305");
    assert_eq!(v.page_title(), "1.20.305");
    let v = Version { major: 0, minor: 0, patch: 0 };
    assert_eq!(v.render(), "v0.0.0");
    let v = Version { major: u64::MAX, minor: 10, patch: 9 };
    assert_eq!(v.render(), "v18446744073709551615.10.9");
    assert_eq!(Version { major: 1, minor: 2, patch: 3 }, Version { major: 1, minor: 2, patch: 3 });
    assert_ne!(Version { major: 1, minor: 2, patch: 3 }, Version { major: 1, minor: 2, patch: 4 });
}

#[test]
fn default_pages_hold_what_a_release_starts_with() {
    let page = version_page_skeleton("1.0.0", "2024-05-06");
    assert_eq!(page.title, "1.0.0");
    assert_eq!(
        page.properties,
        vec![
            ("tags".to_string(), "Version".to_string()),
            ("released-date".to_string(), "2024-05-06".to_string()),
        ]
    );
    assert_eq!(
        page.contents,
        vec![("# Summary".to_string(), 0), ("".to_string(), 0), ("# Changed Pages".to_string(), 0)]
    );
    let index = version_index_page();
    assert_eq!(index.title, "Version");
    assert_eq!(
        index.properties,
        vec![
            ("icon".to_string(), "\u{1F3F7}\u{FE0F}".to_string()),
            ("exclude-from-graph-view".to_string(), "true".to_string()),
        ]
    );
    assert_eq!(index.contents, vec![]);
    let author = contributor_page("Sira");
    assert_eq!(author.title, "Sira");
    assert_eq!(
        author.properties,
        vec![
            ("icon".to_string(), "\u{1F642}".to_string()),
            ("exclude-from-graph-view".to_string(), "true".to_string()),
            ("tags".to_string(), "Author".to_string()),
        ]
    );
    assert_eq!(author.contents, vec![]);
}

#[test]
fn first_run_writes_skeleton_page_and_index() {
    let version = Version { major: 1, minor: 0, patch: 0 };
    let changes = ChangeSet { added: names(&["Alice"]), modified: vec![], deleted: vec![] };
    let files = sync_version(&manager(), &version, &changes, None, "2024-05-06");
    assert_eq!(files.len(), 3);
    assert_eq!(files[0].path, "pages/1.0.0.md");
    assert_eq!(
        files[0].text,
        "tags:: Version\nreleased-date:: 2024-05-06\n\n- # Summary\n\n- # Changed Pages\n"
    );
    assert_eq!(files[1].path, "pages/1.0.0.md");
    assert_eq!(
        files[1].text,
        "tags:: Version\nreleased-date:: 2024-05-06\n\n- # Summary\n\n- # Changed Pages\n    - ## v1.0.0\n        - ### Added\n            - [[Alice]]\n"
    );
    assert_eq!(files[2].path, "pages/Version.md");
    assert_eq!(files[2].text, "icon:: \u{1F3F7}\u{FE0F}\nexclude-from-graph-view:: true\n\n");
}

#[test]
fn later_run_rewrites_the_stored_page() {
    let version = Version { major: 1, minor: 0, patch: 0 };
    let changes = ChangeSet { added: names(&["Bob"]), modified: vec![], deleted: names(&["Old"]) };
    let stored = "tags:: Version\n\n- # Changed Pages\n    - ## v1.0.0\n        - ### Added\n            - [[Alice]]\n";
    let files = sync_version(&manager(), &version, &changes, Some(stored), "2024-05-06");
    assert_eq!(files.len(), 2);
    assert_eq!(files[0].path, "pages/1.0.0.md");
    assert_eq!(
        files[0].text,
        "tags:: Version\n\n- # Changed Pages\n    - ## v1.0.0\n        - ### Added\n            - [[Alice]]\n            - [[Bob]]\n        - ### Deleted\n            - [[Old]]\n"
    );
    assert_eq!(files[1].path, "pages/Version.md");
    let again = sync_version(&manager(), &version, &changes, Some(&files[0].text), "2024-05-07");
    assert_eq!(again[0].text, files[0].text);
}
