use svlmd::changelog::{reconcile, ChangeSet};
use svlmd::merge::{is_record_text, make_record, merge_records};
use svlmd::order::{lex_rank, Rank};
use svlmd::page::LogseqPage;

fn line(text: &str, indent: u8) -> (String, u8) {
    (text.to_string(), indent)
}

fn names(items: &[&str]) -> Vec<String> {
    items.iter().map(|s| s.to_string()).collect()
}

fn changes(added: &[&str], modified: &[&str], deleted: &[&str]) -> ChangeSet {
    ChangeSet { added: names(added), modified: names(modified), deleted: names(deleted) }
}

fn page_of(contents: Vec<(String, u8)>) -> LogseqPage {
    LogseqPage::new("Changelog", vec![("tags".to_string(), "Version".to_string())], contents)
}

#[test]
fn first_entry_lists_only_the_categories_that_changed() {
    let page = page_of(vec![line("# Changed Pages", 0)]);
    let out = reconcile(page, "v1.0.0", &changes(&["Alice"], &[], &[]));
    assert_eq!(
        out.contents,
        vec![
            line("# Changed Pages", 0),
            line("## v1.0.0", 1),
            line("### Added", 2),
            line("[[Alice]]", 3),
        ]
    );
    assert!(!out.contents.iter().any(|(t, _)| t == "### Modified" || t == "### Deleted"));
}

#[test]
fn rerun_merges_with_what_the_entry_listed() {
    let page = page_of(vec![
        line("# Changed Pages", 0),
        line("## v1.0.0", 1),
        line("### Added", 2),
        line("[[Alice]]", 3),
    ]);
    let out = reconcile(page, "v1.0.0", &changes(&["Bob"], &[], &[]));
    assert_eq!(
        out.contents,
        vec![
            line("# Changed Pages", 0),
            line("## v1.0.0", 1),
            line("### Added", 2),
            line("[[Alice]]", 3),
            line("[[Bob]]", 3),
        ]
    );
}

#[test]
fn empty_change_set_gives_a_bare_heading() {
    let page = page_of(vec![line("# Changed Pages", 0)]);
    let out = reconcile(page, "v2.0.0", &changes(&[], &[], &[]));
    assert_eq!(out.contents, vec![line("# Changed Pages", 0), line("## v2.0.0", 1)]);
}

#[test]
fn empty_change_set_empties_an_existing_entry() {
    let page = page_of(vec![
        line("# Changed Pages", 0),
        line("## v1.0.0", 1),
        line("### Added", 2),
        line("[[Alice]]", 3),
        line("## v0.9.0", 1),
    ]);
    let out = reconcile(page, "v1.0.0", &changes(&[], &[], &[]));
    assert_eq!(
        out.contents,
        vec![line("# Changed Pages", 0), line("## v1.0.0", 1), line("## v0.9.0", 1)]
    );
}

#[test]
fn title_and_properties_are_kept() {
    let page = page_of(vec![line("# Changed Pages", 0)]);
    let out = reconcile(page, "v1.0.0", &changes(&["Alice"], &[], &[]));
    assert_eq!(out.title, "Changelog");
    assert_eq!(out.properties, vec![("tags".to_string(), "Version".to_string())]);
}

#[test]
fn categories_come_in_fixed_order_and_records_sorted() {
    let page = page_of(vec![line("# Changed Pages", 0)]);
    let out = reconcile(
        page,
        "v1.0.0",
        &changes(&["Zed", "Amy", "Zed"], &["Mid"], &["Old", "Gone"]),
    );
    assert_eq!(
        out.contents,
        vec![
            line("# Changed Pages", 0),
            line("## v1.0.0", 1),
            line("### Added", 2),
            line("[[Amy]]", 3),
            line("[[Zed]]", 3),
            line("### Modified", 2),
            line("[[Mid]]", 3),
            line("### Deleted", 2),
            line("[[Gone]]", 3),
            line("[[Old]]", 3),
        ]
    );
}

#[test]
fn each_category_carries_over_its_own_records() {
    let page = page_of(vec![
        line("# Summary", 0),
        line("", 0),
        line("# Changed Pages", 0),
        line("## v1.0.0", 1),
        line("### Added", 2),
        line("[[A1]]", 3),
        line("### Modified", 2),
        line("[[M1]]", 3),
        line("### Deleted", 2),
        line("[[D1]]", 3),
        line("## v0.9.0", 1),
        line("### Added", 2),
        line("[[Old]]", 3),
    ]);
    let out = reconcile(page, "v1.0.0", &changes(&["A0"], &["M2"], &["D1"]));
    assert_eq!(
        out.contents,
        vec![
            line("# Summary", 0),
            line("", 0),
            line("# Changed Pages", 0),
            line("## v1.0.0", 1),
            line("### Added", 2),
            line("[[A0]]", 3),
            line("[[A1]]", 3),
            line("### Modified", 2),
            line("[[M1]]", 3),
            line("[[M2]]", 3),
            line("### Deleted", 2),
            line("[[D1]]", 3),
            line("## v0.9.0", 1),
            line("### Added", 2),
            line("[[Old]]", 3),
        ]
    );
}

#[test]
fn second_run_changes_nothing() {
    let page = page_of(vec![
        line("# Summary", 0),
        line("# Changed Pages", 0),
        line("## v0.9.0", 1),
        line("### Modified", 2),
        line("[[Old]]", 3),
    ]);
    let run = changes(&["Bob", "Alice"], &["Carol"], &[]);
    let once = reconcile(page, "v1.0.0", &run);
    let twice = reconcile(once.clone(), "v1.0.0", &run);
    assert_eq!(once, twice);
    assert_eq!(
        once.contents,
        vec![
            line("# Summary", 0),
            line("# Changed Pages", 0),
            line("## v1.0.0", 1),
            line("### Added", 2),
            line("[[Alice]]", 3),
            line("[[Bob]]", 3),
            line("### Modified", 2),
            line("[[Carol]]", 3),
            line("## v0.9.0", 1),
            line("### Modified", 2),
            line("[[Old]]", 3),
        ]
    );
}

#[test]
fn second_run_swallows_a_stray_line_behind_the_entry() {
    let page = page_of(vec![line("# Changed Pages", 0), line("note", 0)]);
    let run = changes(&["Alice"], &[], &[]);
    let once = reconcile(page, "v1.0.0", &run);
    assert_eq!(
        once.contents,
        vec![
            line("# Changed Pages", 0),
            line("## v1.0.0", 1),
            line("### Added", 2),
            line("[[Alice]]", 3),
            line("note", 0),
        ]
    );
    let twice = reconcile(once, "v1.0.0", &run);
    assert_eq!(
        twice.contents,
        vec![
            line("# Changed Pages", 0),
            line("## v1.0.0", 1),
            line("### Added", 2),
            line("[[Alice]]", 3),
        ]
    );
}

#[test]
fn lines_outside_the_entry_stay_as_they_are() {
    let before = vec![
        line("intro", 0),
        line("# Changed Pages", 0),
        line("## v2.0.0", 1),
        line("### Added", 2),
        line("[[New]]", 3),
        line("## v1.0.0", 1),
        line("### Deleted", 2),
        line("[[Gone]]", 3),
        line("stray", 3),
        line("## v0.1.0", 1),
        line("tail", 0),
    ];
    let out = reconcile(page_of(before.clone()), "v1.0.0", &changes(&[], &["Page"], &[]));
    assert_eq!(
        out.contents,
        vec![
            line("intro", 0),
            line("# Changed Pages", 0),
            line("## v1.0.0", 1),
            line("### Modified", 2),
            line("[[Page]]", 3),
            line("### Deleted", 2),
            line("[[Gone]]", 3),
            line("## v2.0.0", 1),
            line("### Added", 2),
            line("[[New]]", 3),
            line("## v0.1.0", 1),
            line("tail", 0),
        ]
    );
    let mut rest = out.contents.clone();
    rest.drain(2..7);
    let mut kept = before;
    kept.drain(5..9);
    assert_eq!(rest, kept);
}

#[test]
fn without_marker_the_entry_goes_behind_the_first_line() {
    let page = page_of(vec![line("notes", 0), line("more", 0)]);
    let out = reconcile(page, "v1.0.0", &changes(&["Alice"], &[], &[]));
    assert_eq!(
        out.contents,
        vec![
            line("notes", 0),
            line("## v1.0.0", 1),
            line("### Added", 2),
            line("[[Alice]]", 3),
            line("more", 0),
        ]
    );
}

#[test]
fn empty_page_gets_the_entry_alone() {
    let out = reconcile(page_of(vec![]), "v1.0.0", &changes(&[], &[], &["Gone"]));
    assert_eq!(
        out.contents,
        vec![line("## v1.0.0", 1), line("### Deleted", 2), line("[[Gone]]", 3)]
    );
}

#[test]
fn marker_at_another_indent_is_no_marker() {
    let page = page_of(vec![line("first", 0), line("# Changed Pages", 1)]);
    let out = reconcile(page, "v1.0.0", &changes(&[], &[], &[]));
    assert_eq!(
        out.contents,
        vec![line("first", 0), line("## v1.0.0", 1), line("# Changed Pages", 1)]
    );
}

#[test]
fn heading_at_wrong_indent_is_left_and_a_new_entry_added() {
    let page = page_of(vec![
        line("# Changed Pages", 0),
        line("## v1.0.0", 2),
        line("### Added", 2),
        line("[[Alice]]", 3),
    ]);
    let out = reconcile(page, "v1.0.0", &changes(&["Bob"], &[], &[]));
    assert_eq!(
        out.contents,
        vec![
            line("# Changed Pages", 0),
            line("## v1.0.0", 1),
            line("### Added", 2),
            line("[[Bob]]", 3),
            line("## v1.0.0", 2),
            line("### Added", 2),
            line("[[Alice]]", 3),
        ]
    );
}

#[test]
fn entry_before_the_marker_is_not_the_entry() {
    let page = page_of(vec![
        line("## v1.0.0", 1),
        line("### Added", 2),
        line("[[Early]]", 3),
        line("# Changed Pages", 0),
    ]);
    let out = reconcile(page, "v1.0.0", &changes(&["Bob"], &[], &[]));
    assert_eq!(
        out.contents,
        vec![
            line("## v1.0.0", 1),
            line("### Added", 2),
            line("[[Early]]", 3),
            line("# Changed Pages", 0),
            line("## v1.0.0", 1),
            line("### Added", 2),
            line("[[Bob]]", 3),
        ]
    );
}

#[test]
fn only_records_at_indent_three_are_carried_over() {
    let page = page_of(vec![
        line("# Changed Pages", 0),
        line("## v1.0.0", 1),
        line("### Added", 2),
        line("[[Kept]]", 3),
        line("[[Shallow]]", 2),
        line("plain", 3),
        line("[[open", 3),
        line("shut]]", 3),
        line("[[]", 3),
        line("### Deleted", 2),
        line("[[Gone]]", 3),
    ]);
    let out = reconcile(page, "v1.0.0", &changes(&["New"], &[], &[]));
    assert_eq!(
        out.contents,
        vec![
            line("# Changed Pages", 0),
            line("## v1.0.0", 1),
            line("### Added", 2),
            line("[[Kept]]", 3),
            line("[[New]]", 3),
            line("### Deleted", 2),
            line("[[Gone]]", 3),
        ]
    );
}

#[test]
fn merge_is_the_sorted_union() {
    let carried = names(&["[[b]]", "[[a]]", "[[b]]"]);
    let merged = merge_records(&carried, &names(&["c", "a"]));
    assert_eq!(merged, names(&["[[a]]", "[[b]]", "[[c]]"]));
    assert_eq!(merge_records(&names(&[]), &names(&[])), names(&[]));
    assert_eq!(merge_records(&names(&["[[x]]"]), &names(&[])), names(&["[[x]]"]));
}

#[test]
fn merge_orders_as_strings_do() {
    let mut expected = names(&["[[Zeta]]", "[[alpha]]", "[[Alpha]]", "[[10]]", "[[9]]", "[[\u{e9}t\u{e9}]]", "[[a]]", "[[ab]]"]);
    let merged = merge_records(&expected, &names(&[]));
    expected.sort();
    expected.dedup();
    assert_eq!(merged, expected);
}

#[test]
fn record_wraps_the_identifier() {
    assert_eq!(make_record("Alice"), "[[Alice]]");
    assert_eq!(make_record(""), "[[]]");
    assert!(is_record_text("[[Alice]]"));
    assert!(is_record_text("[[]]"));
    assert!(!is_record_text("[[]"));
    assert!(!is_record_text("[[Alice"));
    assert!(!is_record_text("Alice]]"));
    assert!(!is_record_text(""));
}

#[test]
fn rank_compares_by_code_point_and_length() {
    let v = |s: &str| s.chars().collect::<Vec<char>>();
    assert_eq!(lex_rank(&v("a"), &v("b")), Rank::Below);
    assert_eq!(lex_rank(&v("b"), &v("a")), Rank::Above);
    assert_eq!(lex_rank(&v("ab"), &v("ab")), Rank::Same);
    assert_eq!(lex_rank(&v("ab"), &v("abc")), Rank::Below);
    assert_eq!(lex_rank(&v(""), &v("")), Rank::Same);
    assert_eq!(lex_rank(&v("B"), &v("a")), Rank::Below);
}
