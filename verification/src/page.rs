//! The page model: a title, a flat list of properties, and the outline, an
//! ordered list of `(text, indent level)` entries.

use vstd::prelude::*;
use vstd::string::StringExecFns;
use crate::outline::{
    outline_of, outline_text, parse_entry, parse_line, parse_outline, render_outline, split_lines,
    split_text, trim, spaces_from, spaces_back,
};
use crate::text::{rows, string_of};

verus! {

/// One entry of an outline as contracts see it: its text and its indent
/// level.
pub type Line = (Seq<char>, u8);

/// An outline page.
///
/// The order of `contents` is the order of the document.
#[derive(Debug, Clone, PartialEq, Eq)]
pub struct LogseqPage {
    /// The title of the page.
    pub title: String,
    /// The properties of the page header, as key and value.
    pub properties: Vec<(String, String)>,
    /// The entries of the page, each with its indent level.
    pub contents: Vec<(String, u8)>,
}

/// What a page holds, as plain sequences.
pub struct PageView {
    pub title: Seq<char>,
    pub properties: Seq<(Seq<char>, Seq<char>)>,
    pub contents: Seq<Line>,
}

impl View for LogseqPage {
    type V = PageView;

    open spec fn view(&self) -> PageView {
        PageView {
            title: self.title@,
            properties: self.properties.deep_view(),
            contents: self.contents.deep_view(),
        }
    }
}

impl LogseqPage {
    /// A page with the given title, properties and contents.
    pub fn new(title: &str, properties: Vec<(String, String)>, contents: Vec<(String, u8)>) -> (page:
        Self)
        ensures
            page@.title == title@,
            page@.properties == properties.deep_view(),
            page@.contents == contents.deep_view(),
    {
        LogseqPage { title: title.to_owned(), properties, contents }
    }

    /// A page whose contents are read from outline text.
    pub fn from_plain(title: &str, properties: Vec<(String, String)>, contents: &str) -> (page:
        Self)
        ensures
            page@.title == title@,
            page@.properties == properties.deep_view(),
            page@.contents == outline_of(contents@),
    {
        LogseqPage { title: title.to_owned(), properties, contents: parse_outline(contents) }
    }

    /// The text that the page is stored as: one line per property, an empty
    /// line, and the outline.
    pub fn write_page(&self) -> (text: String)
        ensures
            text@ == page_text(self@),
    {
        let ghost props = self.properties.deep_view();
        let mut text = String::new();
        let mut i: usize = 0;
        proof {
            assert(props.take(0) =~= Seq::empty());
        }
        while i < self.properties.len()
            invariant
                i <= self.properties.len(),
                props == self.properties.deep_view(),
                text@ == properties_text(props.take(i as int)),
            decreases self.properties.len() - i,
        {
            let ghost before = text@;
            proof {
                assert(props.take(i + 1).drop_last() =~= props.take(i as int));
                assert(props.take(i + 1).last() == props[i as int]);
            }
            text.append(self.properties[i].0.as_str());
            text.push(':');
            text.push(':');
            text.push(' ');
            text.append(self.properties[i].1.as_str());
            text.push('\n');
            proof {
                assert(text@ =~= before + property_line(props[i as int]));
            }
            i += 1;
        }
        proof {
            assert(props.take(self.properties.len() as int) =~= props);
        }
        text.push('\n');
        let outline = render_outline(&self.contents);
        text.append(outline.as_str());
        text
    }

    /// The page of this title that `text` stores.
    ///
    /// The lines at the start that hold `::` are the properties, one empty
    /// line after them is skipped, and the rest is the outline. A text in
    /// which every line holds `::` has no properties: all of it is outline.
    pub fn read_page(&self, text: &str) -> (page: Self)
        ensures
            page@ == page_of(self@.title, text@),
    {
        let lines = split_text(text);
        let n = lines.len();
        let mut first: usize = 0;
        while first < n && find_sep(&lines[first], 0) < lines[first].len()
            invariant
                first <= n,
                n == lines.len(),
                plain_from(rows(lines@), 0) == plain_from(rows(lines@), first as int),
                forall|k: int| 0 <= k < first ==> sep_from(#[trigger] lines@[k]@, 0) < lines@[k]@.len(),
            decreases n - first,
        {
            first += 1;
        }
        let header = if first < n {
            first
        } else {
            0
        };
        let mut properties: Vec<(String, String)> = Vec::new();
        let mut i: usize = 0;
        while i < header
            invariant
                i <= header <= lines.len(),
                properties.len() == i,
                forall|k: int|
                    0 <= k < header ==> sep_from(#[trigger] lines@[k]@, 0) < lines@[k]@.len(),
                forall|k: int|
                    0 <= k < i ==> (#[trigger] properties@[k]).0@ == parse_property(lines@[k]@).0
                        && properties@[k].1@ == parse_property(lines@[k]@).1,
            decreases header - i,
        {
            let property = parse_property_line(&lines[i]);
            properties.push(property);
            i += 1;
        }
        let body = if header < n && lines[header].len() == 0 {
            header + 1
        } else {
            header
        };
        let mut contents: Vec<(String, u8)> = Vec::new();
        let mut j: usize = body;
        while j < n
            invariant
                body <= j <= n,
                n == lines.len(),
                contents.len() == j - body,
                forall|k: int|
                    0 <= k < j - body ==> (#[trigger] contents@[k]).0@ == parse_line(
                        lines@[body + k]@,
                    ).0 && contents@[k].1 == parse_line(lines@[body + k]@).1,
            decreases n - j,
        {
            let entry = parse_entry(&lines[j]);
            contents.push(entry);
            j += 1;
        }
        let page = LogseqPage { title: self.title.clone(), properties, contents };
        proof {
            let all = split_lines(text@);
            assert forall|k: int| 0 <= k < n implies rows(lines@)[k] == lines@[k]@ by {}
            assert(header == header_len(all));
            assert(body == body_start(all));
            assert(page@.properties =~= page_of(self@.title, text@).properties);
            assert(page@.contents =~= page_of(self@.title, text@).contents);
        }
        page
    }
}

/// What a property is written as: key, `:: `, value and a line feed.
pub open spec fn property_line(property: (Seq<char>, Seq<char>)) -> Seq<char> {
    property.0 + seq![':', ':', ' '] + property.1 + seq!['\n']
}

/// The lines of the properties, one after the other.
pub open spec fn properties_text(properties: Seq<(Seq<char>, Seq<char>)>) -> Seq<char>
    decreases properties.len(),
{
    if properties.len() == 0 {
        Seq::empty()
    } else {
        properties_text(properties.drop_last()) + property_line(properties.last())
    }
}

/// The text that a page is stored as: its properties, one empty line, and
/// its outline.
pub open spec fn page_text(page: PageView) -> Seq<char> {
    properties_text(page.properties) + seq!['\n'] + outline_text(page.contents)
}

/// `::` stands in `line` at index `i`.
pub open spec fn sep_at(line: Seq<char>, i: int) -> bool {
    0 <= i && i + 1 < line.len() && line[i] == ':' && line[i + 1] == ':'
}

/// The index of the first `::` in `line` at or behind `i`, and `line.len()`
/// if there is none.
pub open spec fn sep_from(line: Seq<char>, i: int) -> int
    decreases line.len() - i,
{
    if i < 0 || i + 1 >= line.len() {
        line.len() as int
    } else if sep_at(line, i) {
        i
    } else {
        sep_from(line, i + 1)
    }
}

/// The property that a line stands for: the key is what stands before the
/// first `::`, the value what stands between it and the next one, without
/// the white space at its ends.
pub open spec fn parse_property(line: Seq<char>) -> (Seq<char>, Seq<char>) {
    let at = sep_from(line, 0);
    let rest = line.skip(at + 2);
    (line.take(at), trim(rest.take(sep_from(rest, 0))))
}

/// The index of the first line at or behind `i` that holds no `::`, and
/// `lines.len()` if there is none.
pub open spec fn plain_from(lines: Seq<Seq<char>>, i: int) -> int
    decreases lines.len() - i,
{
    if i < 0 || i >= lines.len() {
        lines.len() as int
    } else if sep_from(lines[i], 0) >= lines[i].len() {
        i
    } else {
        plain_from(lines, i + 1)
    }
}

/// The number of property lines at the start of a stored page: the lines
/// before the first one without `::`, and none where every line holds it.
pub open spec fn header_len(lines: Seq<Seq<char>>) -> int {
    let first = plain_from(lines, 0);
    if first < lines.len() {
        first
    } else {
        0
    }
}

/// The index of the first line of the outline: behind the properties and
/// the empty line that follows them, if there is one.
pub open spec fn body_start(lines: Seq<Seq<char>>) -> int {
    let header = header_len(lines);
    if header < lines.len() && lines[header].len() == 0 {
        header + 1
    } else {
        header
    }
}

/// The page of the given title that `text` stores.
pub open spec fn page_of(title: Seq<char>, text: Seq<char>) -> PageView {
    let lines = split_lines(text);
    let body = body_start(lines);
    PageView {
        title,
        properties: Seq::new(header_len(lines) as nat, |i: int| parse_property(lines[i])),
        contents: Seq::new((lines.len() - body) as nat, |i: int| parse_line(lines[body + i])),
    }
}

/// The index of the first `::` in `line` at or behind `from`.
fn find_sep(line: &Vec<char>, from: usize) -> (at: usize)
    ensures
        at == sep_from(line@, from as int),
        from <= line.len() ==> from <= at <= line.len(),
        at < line.len() ==> sep_at(line@, at as int),
{
    let n = line.len();
    let mut i: usize = from;
    while i < n && i + 1 < n
        invariant
            n == line.len(),
            from <= n ==> from <= i <= n,
            sep_from(line@, from as int) == sep_from(line@, i as int),
        decreases n - i,
    {
        if line[i] == ':' && line[i + 1] == ':' {
            return i;
        }
        i += 1;
    }
    n
}

/// Reads a line as a property.
fn parse_property_line(line: &Vec<char>) -> (property: (String, String))
    requires
        sep_from(line@, 0) < line.len(),
    ensures
        (property.0@, property.1@) == parse_property(line@),
{
    let n = line.len();
    let at = find_sep(line, 0);
    let key = string_of(line, 0, at);
    proof {
        assert(line@.subrange(0, at as int) =~= line@.take(at as int));
    }
    let start = at + 2;
    // The value ends at the next `::` behind `start`.
    let mut end: usize = start;
    while end < n && !(end + 1 < n && line[end] == ':' && line[end + 1] == ':')
        invariant
            start <= end <= n,
            n == line.len(),
            forall|k: int| start <= k < end ==> !sep_at(line@, k),
        decreases n - end,
    {
        end += 1;
    }
    proof {
        let rest = line@.skip(start as int);
        assert forall|k: int| 0 <= k < end - start implies !sep_at(rest, k) by {
            assert(!sep_at(line@, start + k));
        }
        if end < n {
            assert(sep_at(rest, end - start));
        }
        lemma_sep_from_is(rest, 0, end - start);
    }
    let mut from: usize = start;
    while from < end && crate::outline::is_space_char(line[from])
        invariant
            start <= from <= end <= n,
            n == line.len(),
            spaces_from(line@.subrange(start as int, end as int), 0) == spaces_from(
                line@.subrange(start as int, end as int),
                from - start,
            ),
        decreases end - from,
    {
        from += 1;
    }
    let mut to: usize = end;
    while to > from && crate::outline::is_space_char(line[to - 1])
        invariant
            start <= from <= to <= end <= n,
            n == line.len(),
            spaces_back(
                line@.subrange(start as int, end as int),
                from - start,
                end - start,
            ) == spaces_back(line@.subrange(start as int, end as int), from - start, to - start),
        decreases to - from,
    {
        to -= 1;
    }
    proof {
        let rest = line@.skip(start as int);
        let value = line@.subrange(start as int, end as int);
        assert(rest.take(end - start) =~= value);
        assert(value.subrange(from - start, to - start) =~= line@.subrange(
            from as int,
            to as int,
        ));
    }
    (key, string_of(line, from, to))
}

/// The first `::` at or behind `from` stands at `at` if none stands before
/// it and one stands there, or `at` is where the line ends for this search.
pub proof fn lemma_sep_from_is(line: Seq<char>, from: int, at: int)
    requires
        0 <= from <= at <= line.len(),
        forall|k: int| from <= k < at ==> !sep_at(line, k),
        at < line.len() ==> sep_at(line, at),
    ensures
        sep_from(line, from) == if at < line.len() {
            at
        } else {
            line.len() as int
        },
    decreases at - from,
{
    if from < at {
        lemma_sep_from_is(line, from + 1, at);
    }
}

} // verus!
