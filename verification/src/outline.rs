//! Outline text: one line per entry, four spaces per indent level, and a
//! bullet, `- `, before every text that is not empty.

use vstd::prelude::*;
use vstd::string::StringExecFns;
use crate::page::Line;
use crate::text::{chars_of, rows, string_of};

verus! {

/// `c` is white space: one of the code points with the Unicode property
/// White_Space.
pub open spec fn is_space(c: char) -> bool {
    ||| '\u{9}' <= c <= '\u{d}'
    ||| c == ' '
    ||| c == '\u{85}'
    ||| c == '\u{a0}'
    ||| c == '\u{1680}'
    ||| '\u{2000}' <= c <= '\u{200a}'
    ||| c == '\u{2028}'
    ||| c == '\u{2029}'
    ||| c == '\u{202f}'
    ||| c == '\u{205f}'
    ||| c == '\u{3000}'
}

/// The index of the first character of `s` at or behind `i` that is not
/// white space, and `s.len()` if there is none.
pub open spec fn spaces_from(s: Seq<char>, i: int) -> int
    decreases s.len() - i,
{
    if 0 <= i < s.len() && is_space(s[i]) {
        spaces_from(s, i + 1)
    } else {
        i
    }
}

/// The index behind the last character of `s[lo..j]` that is not white
/// space, and `lo` if there is none.
pub open spec fn spaces_back(s: Seq<char>, lo: int, j: int) -> int
    decreases j - lo,
{
    if lo < j <= s.len() && is_space(s[j - 1]) {
        spaces_back(s, lo, j - 1)
    } else {
        j
    }
}

/// `s` without the white space at its two ends.
pub open spec fn trim(s: Seq<char>) -> Seq<char> {
    let from = spaces_from(s, 0);
    s.subrange(from, spaces_back(s, from, s.len() as int))
}

/// The number of blanks, the character U+0020, that `s` has at `i` and on.
pub open spec fn blanks_from(s: Seq<char>, i: int) -> int
    decreases s.len() - i,
{
    if 0 <= i < s.len() && s[i] == ' ' {
        1 + blanks_from(s, i + 1)
    } else {
        0
    }
}

/// The indent level of a line: a quarter of the number of blanks it starts
/// with, rounded down, and 255 where that is more.
pub open spec fn indent_of(line: Seq<char>) -> u8 {
    let level = blanks_from(line, 0) / 4;
    if level > 255 {
        255u8
    } else {
        level as u8
    }
}

/// The bullet that stands before the text of an entry.
pub open spec fn bullet() -> Seq<char> {
    seq!['-', ' ']
}

/// `s` without the bullet at its start, if it has one.
pub open spec fn strip_bullet(s: Seq<char>) -> Seq<char> {
    if s.len() >= 2 && s[0] == '-' && s[1] == ' ' {
        s.skip(2)
    } else {
        s
    }
}

/// The entry that a line of outline text stands for.
pub open spec fn parse_line(line: Seq<char>) -> Line {
    (strip_bullet(trim(line)), indent_of(line))
}

/// The pieces into which the line feeds cut `s`; the last piece is what
/// follows the last line feed and may be empty.
pub open spec fn pieces(s: Seq<char>) -> Seq<Seq<char>>
    decreases s.len(),
{
    if s.len() == 0 {
        seq![Seq::empty()]
    } else if s.last() == '\n' {
        pieces(s.drop_last()).push(Seq::empty())
    } else {
        let before = pieces(s.drop_last());
        before.drop_last().push(before.last().push(s.last()))
    }
}

/// `line` without the carriage return at its end, if it has one.
pub open spec fn without_cr(line: Seq<char>) -> Seq<char> {
    if line.len() > 0 && line.last() == '\r' {
        line.drop_last()
    } else {
        line
    }
}

/// The lines of `s`. A line ends at a line feed, or at a carriage return
/// and a line feed, neither of which belongs to it; the last line needs no
/// line ending, and nothing follows a final line ending.
pub open spec fn split_lines(s: Seq<char>) -> Seq<Seq<char>> {
    let cut = pieces(s);
    let ended = Seq::new((cut.len() - 1) as nat, |i: int| without_cr(cut[i]));
    if cut.last().len() == 0 {
        ended
    } else {
        ended.push(cut.last())
    }
}

/// The outline that a text stands for, line by line.
pub open spec fn outline_of(text: Seq<char>) -> Seq<Line> {
    let lines = split_lines(text);
    Seq::new(lines.len(), |i: int| parse_line(lines[i]))
}

/// What an entry is written as: a bare line feed for an empty text, else
/// four blanks per indent level, the bullet, the text and a line feed.
pub open spec fn render_line(line: Line) -> Seq<char> {
    if line.0.len() == 0 {
        seq!['\n']
    } else {
        Seq::new(4 * line.1 as nat, |i: int| ' ') + bullet() + line.0 + seq!['\n']
    }
}

/// The text of an outline: its entries as `render_line` writes them, one
/// after the other.
pub open spec fn outline_text(c: Seq<Line>) -> Seq<char>
    decreases c.len(),
{
    if c.len() == 0 {
        Seq::empty()
    } else {
        outline_text(c.drop_last()) + render_line(c.last())
    }
}

/// There is always a last piece.
pub proof fn lemma_pieces_len(s: Seq<char>)
    ensures
        pieces(s).len() >= 1,
    decreases s.len(),
{
    if s.len() > 0 {
        lemma_pieces_len(s.drop_last());
    }
}

/// Cuts a text into its lines.
pub fn split_text(text: &str) -> (lines: Vec<Vec<char>>)
    ensures
        rows(lines@) == split_lines(text@),
{
    let chars = chars_of(text);
    let n = chars.len();
    let mut lines: Vec<Vec<char>> = Vec::new();
    let mut current: Vec<char> = Vec::new();
    let mut i: usize = 0;
    proof {
        assert(chars@.take(0) =~= Seq::empty());
        assert(rows(lines@).push(current@) =~= pieces(chars@.take(0)));
    }
    while i < n
        invariant
            n == chars.len(),
            i <= n,
            pieces(chars@.take(i as int)).len() == lines.len() + 1,
            pieces(chars@.take(i as int)).last() == current@,
            forall|k: int|
                0 <= k < lines.len() ==> lines@[k]@ == without_cr(
                    #[trigger] pieces(chars@.take(i as int))[k],
                ),
        decreases n - i,
    {
        let ghost before = pieces(chars@.take(i as int));
        proof {
            assert(chars@.take(i + 1).drop_last() =~= chars@.take(i as int));
            assert(chars@.take(i + 1).last() == chars@[i as int]);
        }
        let c = chars[i];
        if c == '\n' {
            let mut done = current;
            current = Vec::new();
            let m = done.len();
            if m > 0 && done[m - 1] == '\r' {
                done.pop();
            }
            proof {
                assert(done@ =~= without_cr(before.last()));
            }
            lines.push(done);
        } else {
            current.push(c);
        }
        i += 1;
    }
    proof {
        assert(chars@.take(n as int) =~= chars@);
    }
    if current.len() > 0 {
        lines.push(current);
    }
    proof {
        assert(rows(lines@) =~= split_lines(text@));
    }
    lines
}

/// Tells whether `c` is white space.
pub fn is_space_char(c: char) -> (r: bool)
    ensures
        r == is_space(c),
{
    ('\u{9}' <= c && c <= '\u{d}') || c == ' ' || c == '\u{85}' || c == '\u{a0}' || c == '\u{1680}'
        || ('\u{2000}' <= c && c <= '\u{200a}') || c == '\u{2028}' || c == '\u{2029}' || c
        == '\u{202f}' || c == '\u{205f}' || c == '\u{3000}'
}

/// Reads one line of outline text as an entry.
pub fn parse_entry(line: &Vec<char>) -> (entry: (String, u8))
    ensures
        (entry.0@, entry.1) == parse_line(line@),
{
    let n = line.len();
    let mut blanks: usize = 0;
    while blanks < n && line[blanks] == ' '
        invariant
            blanks <= n,
            n == line.len(),
            blanks_from(line@, 0) == blanks + blanks_from(line@, blanks as int),
        decreases n - blanks,
    {
        blanks += 1;
    }
    let level = blanks / 4;
    let indent: u8 = if level > 255 {
        255
    } else {
        level as u8
    };
    let mut from: usize = 0;
    while from < n && is_space_char(line[from])
        invariant
            from <= n,
            n == line.len(),
            spaces_from(line@, 0) == spaces_from(line@, from as int),
        decreases n - from,
    {
        from += 1;
    }
    let mut to: usize = n;
    while to > from && is_space_char(line[to - 1])
        invariant
            from <= to <= n,
            n == line.len(),
            spaces_back(line@, from as int, n as int) == spaces_back(line@, from as int, to as int),
        decreases to - from,
    {
        to -= 1;
    }
    let start = if to - from >= 2 && line[from] == '-' && line[from + 1] == ' ' {
        from + 2
    } else {
        from
    };
    proof {
        let trimmed = line@.subrange(from as int, to as int);
        assert(trimmed == trim(line@));
        if start == from + 2 {
            assert(trimmed[0] == '-' && trimmed[1] == ' ');
            assert(trimmed.skip(2) =~= line@.subrange(start as int, to as int));
        } else if trimmed.len() >= 2 {
            assert(trimmed[0] == line@[from as int] && trimmed[1] == line@[from + 1]);
        }
    }
    (string_of(line, start, to), indent)
}

/// Reads outline text: one entry per line, its indent level the number of
/// blanks before it divided by four, its text the line without the white
/// space at its ends and without the bullet.
pub fn parse_outline(text: &str) -> (contents: Vec<(String, u8)>)
    ensures
        contents.deep_view() == outline_of(text@),
{
    let lines = split_text(text);
    let mut contents: Vec<(String, u8)> = Vec::new();
    let mut i: usize = 0;
    while i < lines.len()
        invariant
            i <= lines.len(),
            contents.len() == i,
            rows(lines@) == split_lines(text@),
            forall|k: int|
                0 <= k < i ==> (#[trigger] contents@[k]).0@ == parse_line(lines@[k]@).0
                    && contents@[k].1 == parse_line(lines@[k]@).1,
        decreases lines.len() - i,
    {
        let entry = parse_entry(&lines[i]);
        contents.push(entry);
        i += 1;
    }
    proof {
        assert forall|k: int| 0 <= k < lines.len() implies rows(lines@)[k] == lines@[k]@ by {}
        assert(contents.deep_view() =~= outline_of(text@));
    }
    contents
}

/// Writes an outline as text: an empty line for an entry without text, else
/// four blanks per indent level, the bullet and the text.
pub fn render_outline(contents: &Vec<(String, u8)>) -> (text: String)
    ensures
        text@ == outline_text(contents.deep_view()),
{
    let ghost c = contents.deep_view();
    let mut text = String::new();
    let mut i: usize = 0;
    proof {
        assert(c.take(0) =~= Seq::empty());
    }
    while i < contents.len()
        invariant
            i <= contents.len(),
            c == contents.deep_view(),
            text@ == outline_text(c.take(i as int)),
        decreases contents.len() - i,
    {
        let ghost before = text@;
        proof {
            assert(c.take(i + 1).drop_last() =~= c.take(i as int));
            assert(c.take(i + 1).last() == c[i as int]);
        }
        if contents[i].0.as_str().is_empty() {
            text.push('\n');
            proof {
                assert(text@ =~= before + render_line(c[i as int]));
            }
        } else {
            let width: usize = 4 * (contents[i].1 as usize);
            let mut k: usize = 0;
            while k < width
                invariant
                    k <= width,
                    text@ == before + Seq::new(k as nat, |j: int| ' '),
                decreases width - k,
            {
                let ghost sofar = text@;
                text.push(' ');
                proof {
                    assert(text@ =~= before + Seq::new((k + 1) as nat, |j: int| ' '));
                }
                k += 1;
            }
            text.push('-');
            text.push(' ');
            text.append(contents[i].0.as_str());
            text.push('\n');
            proof {
                assert(text@ =~= before + render_line(c[i as int]));
            }
        }
        i += 1;
    }
    proof {
        assert(c.take(contents.len() as int) =~= c);
    }
    text
}

} // verus!
