use svlmd::outline::{is_space_char, parse_entry, parse_outline, render_outline, split_text};
use svlmd::page::LogseqPage;

fn line(text: &str, indent: u8) -> (String, u8) {
    (text.to_string(), indent)
}

fn rows(lines: &[&str]) -> Vec<Vec<char>> {
    lines.iter().map(|s| s.chars().collect()).collect()
}

#[test]
fn indent_is_a_quarter_of_the_blanks_rounded_down() {
    let text = "- a\n    - b\n       - c\n        - d\n   - e\n";
    assert_eq!(
        parse_outline(text),
        vec![line("a", 0), line("b", 1), line("c", 1), line("d", 2), line("e", 0)]
    );
}

#[test]
fn indent_stops_at_the_largest_level() {
    let text = format!("{}- deep", " ".repeat(4 * 300));
    assert_eq!(parse_outline(&text), vec![line("deep", 255)]);
    let text = format!("{}- deep", " ".repeat(4 * 255 + 3));
    assert_eq!(parse_outline(&text), vec![line("deep", 255)]);
    let text = format!("{}- deep", " ".repeat(4 * 64));
    assert_eq!(parse_outline(&text), vec![line("deep", 64)]);
}

#[test]
fn bullet_is_stripped_once_and_only_at_the_start() {
    assert_eq!(parse_outline("- - a"), vec![line("- a", 0)]);
    assert_eq!(parse_outline("a - b"), vec![line("a - b", 0)]);
    assert_eq!(parse_outline("-a"), vec![line("-a", 0)]);
    assert_eq!(parse_outline("-"), vec![line("-", 0)]);
    assert_eq!(parse_outline("- "), vec![line("-", 0)]);
}

#[test]
fn blank_lines_are_entries_without_text() {
    assert_eq!(parse_outline("- a\n\n- b\n"), vec![line("a", 0), line("", 0), line("b", 0)]);
    assert_eq!(parse_outline("\n"), vec![line("", 0)]);
    assert_eq!(parse_outline(""), vec![]);
    assert_eq!(parse_outline("\n\n"), vec![line("", 0), line("", 0)]);
}

#[test]
fn white_space_at_both_ends_goes() {
    assert_eq!(parse_outline("\t- a \t\r\n"), vec![line("a", 0)]);
    assert_eq!(parse_outline("  \u{a0}- a\u{3000}"), vec![line("a", 0)]);
    assert_eq!(parse_outline("-  a"), vec![line(" a", 0)]);
}

#[test]
fn lines_end_at_line_feeds() {
    assert_eq!(split_text("a\nb"), rows(&["a", "b"]));
    assert_eq!(split_text("a\nb\n"), rows(&["a", "b"]));
    assert_eq!(split_text("a\r\nb\r"), rows(&["a", "b\r"]));
    assert_eq!(split_text("a\n\nb"), rows(&["a", "", "b"]));
    assert_eq!(split_text("\r\n"), rows(&[""]));
    assert_eq!(split_text(""), rows(&[]));
    for text in ["", "\n", "a", "a\n", "a\r\n\r\nb\r", "\n\na\n\n", "x\ry\n", "\r"] {
        let expected: Vec<Vec<char>> = text.lines().map(|l| l.chars().collect()).collect();
        assert_eq!(split_text(text), expected);
    }
}

#[test]
fn outline_is_written_with_four_blanks_per_level() {
    let contents = vec![line("a", 0), line("b", 1), line("", 5), line("c", 3)];
    assert_eq!(render_outline(&contents), "- a\n    - b\n\n            - c\n");
    assert_eq!(render_outline(&vec![]), "");
}

#[test]
fn written_text_is_read_and_written_the_same() {
    let contents = vec![
        line("# Summary", 0),
        line("", 2),
        line("- starts with a bullet", 1),
        line(" leading blank", 255),
        line("[[Alice]]", 3),
    ];
    let text = render_outline(&contents);
    let back = parse_outline(&text);
    assert_eq!(render_outline(&back), text);
    assert_eq!(
        back,
        vec![
            line("# Summary", 0),
            line("", 0),
            line("- starts with a bullet", 1),
            line(" leading blank", 255),
            line("[[Alice]]", 3),
        ]
    );
}

#[test]
fn text_ending_in_white_space_does_not_come_back() {
    let text = render_outline(&vec![line("a ", 0)]);
    assert_eq!(text, "- a \n");
    assert_eq!(render_outline(&parse_outline(&text)), "- a\n");
}

#[test]
fn from_plain_reads_the_outline() {
    let page = LogseqPage::from_plain(
        "T",
        vec![("k".to_string(), "v".to_string())],
        "- # Changed Pages\n    - ## v1.0.0\n",
    );
    assert_eq!(page.title, "T");
    assert_eq!(page.properties, vec![("k".to_string(), "v".to_string())]);
    assert_eq!(page.contents, vec![line("# Changed Pages", 0), line("## v1.0.0", 1)]);
}

#[test]
fn page_is_written_as_properties_empty_line_and_outline() {
    let page = LogseqPage::new(
        "T",
        vec![("tags".to_string(), "Version".to_string()), ("a".to_string(), "".to_string())],
        vec![line("# Summary", 0), line("", 0), line("x", 2)],
    );
    assert_eq!(page.write_page(), "tags:: Version\na:: \n\n- # Summary\n\n        - x\n");
    assert_eq!(LogseqPage::new("T", vec![], vec![]).write_page(), "\n");
}

#[test]
fn stored_page_is_read_back() {
    let page = LogseqPage::new(
        "T",
        vec![("tags".to_string(), "Version".to_string()), ("date".to_string(), "2024-01-02".to_string())],
        vec![line("# Summary", 0), line("", 0), line("x", 2)],
    );
    let back = LogseqPage::new("T", vec![], vec![]).read_page(&page.write_page());
    assert_eq!(back, page);
}

#[test]
fn read_page_splits_properties_from_outline() {
    let reader = LogseqPage::new("T", vec![], vec![]);
    let page = reader.read_page("a:: 1\nb::  two  ::three\n\n- x\n\n    - y\n");
    assert_eq!(page.title, "T");
    assert_eq!(
        page.properties,
        vec![("a".to_string(), "1".to_string()), ("b".to_string(), "two".to_string())]
    );
    assert_eq!(page.contents, vec![line("x", 0), line("", 0), line("y", 1)]);
    let page = reader.read_page("a:: 1\n- x\n");
    assert_eq!(page.properties, vec![("a".to_string(), "1".to_string())]);
    assert_eq!(page.contents, vec![line("x", 0)]);
    let page = reader.read_page("a:: 1\nb:: 2\n");
    assert_eq!(page.properties, vec![]);
    assert_eq!(page.contents, vec![line("a:: 1", 0), line("b:: 2", 0)]);
    let page = reader.read_page("");
    assert_eq!(page.properties, vec![]);
    assert_eq!(page.contents, vec![]);
    let page = reader.read_page("\n- x\n");
    assert_eq!(page.properties, vec![]);
    assert_eq!(page.contents, vec![line("x", 0)]);
    let page = reader.read_page("k::\n\n");
    assert_eq!(page.properties, vec![("k".to_string(), "".to_string())]);
    assert_eq!(page.contents, vec![]);
}

#[test]
fn white_space_is_what_the_standard_library_calls_so() {
    for code in 0..=0x10FFFFu32 {
        if let Some(c) = char::from_u32(code) {
            assert_eq!(is_space_char(c), c.is_whitespace());
        }
    }
}

#[test]
fn entry_of_a_line_is_its_trimmed_text_without_the_bullet() {
    for line in ["", "   ", "- a", "    - a  ", "\t\t- x", "-", "- ", "a - b", "        deep", " \u{2003}- q\u{2003}"] {
        let chars: Vec<char> = line.chars().collect();
        let trimmed = line.trim();
        let text = trimmed.strip_prefix("- ").unwrap_or(trimmed);
        let blanks = line.chars().take_while(|c| *c == ' ').count();
        assert_eq!(parse_entry(&chars), (text.to_string(), (blanks / 4) as u8));
    }
}
