use svlmd::changelog::{reconcile, ChangeSet};
use svlmd::outline::{parse_outline, render_outline};
use svlmd::page::LogseqPage;

/// A small generator of pseudo-random numbers, the same on every run.
struct Dice(u64);

impl Dice {
    fn roll(&mut self, sides: usize) -> usize {
        self.0 = self.0.wrapping_mul(6364136223846793005).wrapping_add(1442695040888963407);
        ((self.0 >> 33) as usize) % sides
    }
}

fn pick_line(dice: &mut Dice) -> (String, u8) {
    let texts = [
        "# Changed Pages",
        "## v1",
        "## v2",
        "## ",
        "### Added",
        "### Modified",
        "### Deleted",
        "[[a]]",
        "[[b]]",
        "[[c]]",
        "[[open",
        "note",
        "",
    ];
    let text = texts[dice.roll(texts.len())];
    let likely = match text {
        "# Changed Pages" => 0,
        "## v1" | "## v2" | "## " => 1,
        "### Added" | "### Modified" | "### Deleted" => 2,
        _ => 3,
    };
    let indent = if dice.roll(5) == 0 { dice.roll(4) as u8 } else { likely };
    (text.to_string(), indent)
}

fn pick_ids(dice: &mut Dice) -> Vec<String> {
    let ids = ["a", "b", "c", "d"];
    let n = dice.roll(4);
    (0..n).map(|_| ids[dice.roll(ids.len())].to_string()).collect()
}

fn listed(entry: &[(String, u8)], header: &str, closers: &[&str]) -> Vec<String> {
    let start = match entry.iter().position(|(t, i)| *i == 2 && t == header) {
        Some(at) => at,
        None => return vec![],
    };
    let end = entry[start + 1..]
        .iter()
        .position(|(t, i)| *i == 2 && closers.contains(&t.as_str()))
        .map(|at| at + start + 1)
        .unwrap_or(entry.len());
    entry[start + 1..end]
        .iter()
        .filter(|(t, i)| *i == 3 && t.len() >= 4 && t.starts_with("[[") && t.ends_with("]]"))
        .map(|(t, _)| t.clone())
        .collect()
}

/// The reconciler written out step by step with the standard library.
fn reconcile_plainly(
    contents: &[(String, u8)],
    version: &str,
    changes: &ChangeSet,
) -> Vec<(String, u8)> {
    let mut contents = contents.to_vec();
    let heading = format!("## {}", version);
    let section =
        contents.iter().position(|(t, i)| t == "# Changed Pages" && *i == 0).unwrap_or(0);
    let found = contents
        .iter()
        .enumerate()
        .position(|(at, (t, i))| at >= section && *t == heading && *i == 1);
    let mut old: Vec<(String, u8)> = vec![];
    if let Some(start) = found {
        let end = contents[start + 1..]
            .iter()
            .position(|(t, i)| *i == 1 && t.starts_with("## "))
            .map(|at| at + start + 1)
            .unwrap_or(contents.len());
        old = contents.drain(start..end).collect();
    }
    let mut entry = vec![(heading, 1u8)];
    if !(changes.added.is_empty() && changes.modified.is_empty() && changes.deleted.is_empty()) {
        let groups = [
            ("### Added", vec!["### Modified", "### Deleted"], &changes.added),
            ("### Modified", vec!["### Deleted"], &changes.modified),
            ("### Deleted", vec![], &changes.deleted),
        ];
        for (header, closers, ids) in groups {
            let mut records = listed(&old, header, &closers);
            records.extend(ids.iter().map(|id| format!("[[{}]]", id)));
            records.sort();
            records.dedup();
            if !records.is_empty() {
                entry.push((header.to_string(), 2));
                entry.extend(records.into_iter().map(|r| (r, 3)));
            }
        }
    }
    let at = (section + 1).min(contents.len());
    let tail = contents.split_off(at);
    contents.extend(entry);
    contents.extend(tail);
    contents
}

#[test]
fn reconciler_agrees_with_its_plain_description() {
    let mut dice = Dice(7);
    for _ in 0..4000 {
        let n = dice.roll(12);
        let contents: Vec<(String, u8)> = (0..n).map(|_| pick_line(&mut dice)).collect();
        let changes = ChangeSet {
            added: pick_ids(&mut dice),
            modified: pick_ids(&mut dice),
            deleted: pick_ids(&mut dice),
        };
        let version = if dice.roll(2) == 0 { "v1" } else { "v2" };
        let page = LogseqPage::new("T", vec![], contents.clone());
        let out = reconcile(page, version, &changes);
        assert_eq!(out.contents, reconcile_plainly(&contents, version, &changes));
    }
}

#[test]
fn second_run_changes_nothing_on_pages_that_a_run_wrote() {
    let mut dice = Dice(11);
    for _ in 0..2000 {
        let n = dice.roll(10);
        let mut contents: Vec<(String, u8)> = vec![("# Changed Pages".to_string(), 0)];
        contents.extend((0..n).map(|_| pick_line(&mut dice)));
        let changes = ChangeSet {
            added: pick_ids(&mut dice),
            modified: pick_ids(&mut dice),
            deleted: pick_ids(&mut dice),
        };
        let page = LogseqPage::new("T", vec![], contents);
        let once = reconcile(page, "v1", &changes);
        let twice = reconcile(once, "v1", &changes);
        let thrice = reconcile(twice.clone(), "v1", &changes);
        assert_eq!(twice, thrice);
    }
}

#[test]
fn outline_reader_agrees_with_the_standard_library() {
    let alphabet = [' ', ' ', ' ', '-', 'a', '\n', '\r', '\t', '\u{a0}'];
    let mut dice = Dice(3);
    for _ in 0..4000 {
        let n = dice.roll(24);
        let text: String = (0..n).map(|_| alphabet[dice.roll(alphabet.len())]).collect();
        let expected: Vec<(String, u8)> = text
            .lines()
            .map(|line| {
                let trimmed = line.trim();
                let blanks = line.chars().take_while(|c| *c == ' ').count();
                (trimmed.strip_prefix("- ").unwrap_or(trimmed).to_string(), (blanks / 4) as u8)
            })
            .collect();
        let read = parse_outline(&text);
        assert_eq!(read, expected);
        let written = render_outline(&read);
        assert_eq!(render_outline(&parse_outline(&written)), written);
    }
}
