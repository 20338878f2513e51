//! Writing an outline and reading it back: text that `outline_text` made
//! comes out of reading and writing again as it went in.

use vstd::prelude::*;
use crate::outline::{
    blanks_from, bullet, indent_of, is_space, lemma_pieces_len, outline_of, outline_text,
    parse_line, pieces, render_line, spaces_back, spaces_from, split_lines, strip_bullet, trim,
    without_cr,
};
use crate::page::{
    body_start, header_len, lemma_sep_from_is, page_of, page_text, parse_property, plain_from,
    properties_text, property_line, sep_at, sep_from, Line, PageView,
};

verus! {

/// A text that fits on one line and is read back whole: it holds no line
/// feed and does not end in white space.
pub open spec fn clean_text(t: Seq<char>) -> bool {
    &&& forall|i: int| 0 <= i < t.len() ==> t[i] != '\n'
    &&& t.len() > 0 ==> !is_space(t.last())
}

/// Every text of the outline is clean.
pub open spec fn clean_outline(c: Seq<Line>) -> bool {
    forall|i: int| 0 <= i < c.len() ==> clean_text(#[trigger] c[i].0)
}

/// What an entry is read back as: itself, and indent 0 where its text is
/// empty, since an empty line shows no indent.
pub open spec fn read_back(line: Line) -> Line {
    if line.0.len() == 0 {
        (line.0, 0u8)
    } else {
        line
    }
}

/// The line of an entry without the line feed at its end.
pub open spec fn line_body(line: Line) -> Seq<char> {
    if line.0.len() == 0 {
        Seq::empty()
    } else {
        Seq::new(4 * line.1 as nat, |i: int| ' ') + bullet() + line.0
    }
}

/// Characters without a line feed, put behind a text, lengthen its last
/// piece.
pub proof fn lemma_pieces_extend(a: Seq<char>, b: Seq<char>)
    requires
        forall|i: int| 0 <= i < b.len() ==> b[i] != '\n',
    ensures
        pieces(a + b) == pieces(a).drop_last().push(pieces(a).last() + b),
    decreases b.len(),
{
    lemma_pieces_len(a);
    if b.len() == 0 {
        assert(a + b =~= a);
        assert(pieces(a).last() + b =~= pieces(a).last());
        assert(pieces(a).drop_last().push(pieces(a).last()) =~= pieces(a));
    } else {
        let front = b.drop_last();
        lemma_pieces_extend(a, front);
        assert((a + b).drop_last() =~= a + front);
        assert((a + b).last() == b.last());
        let before = pieces(a + front);
        assert(before.last() == pieces(a).last() + front);
        assert((pieces(a).last() + front).push(b.last()) =~= pieces(a).last() + b);
        assert(before.drop_last() =~= pieces(a).drop_last());
    }
}

/// The lines, each with a line feed behind it, one after the other.
pub open spec fn joined(lines: Seq<Seq<char>>) -> Seq<char>
    decreases lines.len(),
{
    if lines.len() == 0 {
        Seq::empty()
    } else {
        joined(lines.drop_last()) + lines.last() + seq!['\n']
    }
}

/// `line` holds no line feed.
pub open spec fn no_line_feed(line: Seq<char>) -> bool {
    forall|i: int| 0 <= i < line.len() ==> line[i] != '\n'
}

/// Lines that are joined are cut apart again at the same places.
pub proof fn lemma_pieces_of_joined(lines: Seq<Seq<char>>)
    requires
        forall|k: int| 0 <= k < lines.len() ==> no_line_feed(#[trigger] lines[k]),
    ensures
        pieces(joined(lines)) == lines.push(Seq::empty()),
    decreases lines.len(),
{
    if lines.len() == 0 {
        assert(pieces(joined(lines)) =~= lines.push(Seq::empty()));
    } else {
        let front = lines.drop_last();
        let last = lines.last();
        assert forall|k: int| 0 <= k < front.len() implies no_line_feed(#[trigger] front[k]) by {
            assert(front[k] == lines[k]);
        }
        lemma_pieces_of_joined(front);
        let text = joined(front);
        assert(no_line_feed(lines[lines.len() - 1]));
        lemma_pieces_extend(text, last);
        assert(joined(lines) =~= (text + last).push('\n'));
        assert((text + last).push('\n').drop_last() =~= text + last);
        assert(pieces(text).last() + last =~= last);
        assert(pieces(text).drop_last() =~= front);
        assert(front.push(last) =~= lines);
    }
}

/// Joining two runs of lines gives the one text behind the other.
pub proof fn lemma_joined_add(a: Seq<Seq<char>>, b: Seq<Seq<char>>)
    ensures
        joined(a + b) == joined(a) + joined(b),
    decreases b.len(),
{
    if b.len() == 0 {
        assert(a + b =~= a);
        assert(joined(a) + joined(b) =~= joined(a));
    } else {
        lemma_joined_add(a, b.drop_last());
        assert((a + b).drop_last() =~= a + b.drop_last());
        assert((a + b).last() == b.last());
        assert(joined(a + b) =~= joined(a) + joined(b));
    }
}

/// The text of an outline is the lines of its entries, joined.
proof fn lemma_outline_text_joined(c: Seq<Line>)
    ensures
        outline_text(c) == joined(Seq::new(c.len(), |i: int| line_body(c[i]))),
    decreases c.len(),
{
    let bodies = Seq::new(c.len(), |i: int| line_body(c[i]));
    if c.len() > 0 {
        let front = c.drop_last();
        lemma_outline_text_joined(front);
        assert(bodies.drop_last() =~= Seq::new(front.len(), |i: int| line_body(front[i])));
        assert(bodies.last() == line_body(c.last()));
        assert(render_line(c.last()) =~= line_body(c.last()) + seq!['\n']);
        assert(outline_text(c) =~= joined(bodies));
    } else {
        assert(outline_text(c) =~= joined(bodies));
    }
}

/// A line that starts with `k` blanks and goes on with another character
/// starts with `k` blanks and with `k` characters of white space.
proof fn lemma_leading_blanks(s: Seq<char>, k: int, i: int)
    requires
        0 <= i <= k < s.len(),
        forall|j: int| 0 <= j < k ==> s[j] == ' ',
        !is_space(s[k]),
    ensures
        blanks_from(s, i) == k - i,
        spaces_from(s, i) == k,
    decreases k - i,
{
    if i < k {
        lemma_leading_blanks(s, k, i + 1);
    }
}

/// The line of a clean entry is read back as that entry, at indent 0 if its
/// text is empty.
pub proof fn lemma_parse_line_body(line: Line)
    requires
        clean_text(line.0),
    ensures
        parse_line(line_body(line)) == read_back(line),
        without_cr(line_body(line)) == line_body(line),
        no_line_feed(line_body(line)),
{
    let body = line_body(line);
    assert forall|j: int| 0 <= j < body.len() implies body[j] != '\n' by {
        if line.0.len() > 0 {
            let blanks = 4 * line.1 as int;
            if j >= blanks + 2 {
                assert(body[j] == line.0[j - blanks - 2]);
            }
        }
    }
    if line.0.len() == 0 {
        assert(trim(body) =~= line.0);
        assert(blanks_from(body, 0) == 0);
    } else {
        let k = 4 * line.1 as int;
        assert(body[k] == '-');
        assert(body[k + 1] == ' ');
        assert forall|j: int| 0 <= j < k implies body[j] == ' ' by {}
        lemma_leading_blanks(body, k, 0);
        assert(body.last() == line.0.last());
        assert(spaces_back(body, k, body.len() as int) == body.len());
        let trimmed = trim(body);
        assert(trimmed =~= bullet() + line.0);
        assert(trimmed[0] == '-' && trimmed[1] == ' ');
        assert(strip_bullet(trimmed) =~= line.0);
        assert(k / 4 == line.1 as int);
        assert(indent_of(body) == line.1);
    }
}

/// Reading the text of a clean outline gives the outline back, emptied
/// entries at indent 0.
pub proof fn lemma_read_written(c: Seq<Line>)
    requires
        clean_outline(c),
    ensures
        outline_of(outline_text(c)) == Seq::new(c.len(), |i: int| read_back(c[i])),
{
    let bodies = Seq::new(c.len(), |i: int| line_body(c[i]));
    assert forall|k: int| 0 <= k < bodies.len() implies no_line_feed(#[trigger] bodies[k]) by {
        assert(clean_text(c[k].0));
        lemma_parse_line_body(c[k]);
    }
    lemma_outline_text_joined(c);
    lemma_pieces_of_joined(bodies);
    let lines = split_lines(outline_text(c));
    assert(lines.len() == c.len());
    assert forall|i: int| 0 <= i < c.len() implies parse_line(lines[i]) == read_back(c[i]) by {
        assert(clean_text(c[i].0));
        lemma_parse_line_body(c[i]);
    }
    assert(outline_of(outline_text(c)) =~= Seq::new(c.len(), |i: int| read_back(c[i])));
}

/// An outline and what it is read back as are written the same.
proof fn lemma_read_back_text(c: Seq<Line>)
    ensures
        outline_text(Seq::new(c.len(), |i: int| read_back(c[i]))) == outline_text(c),
    decreases c.len(),
{
    let back = Seq::new(c.len(), |i: int| read_back(c[i]));
    if c.len() > 0 {
        let front = c.drop_last();
        lemma_read_back_text(front);
        assert(back.drop_last() =~= Seq::new(front.len(), |i: int| read_back(front[i])));
        assert(back.last() == read_back(c.last()));
        assert(render_line(read_back(c.last())) =~= render_line(c.last()));
    }
}

/// The round trip: the text of a clean outline, read and written again, is
/// the same text.
pub proof fn lemma_round_trip(c: Seq<Line>)
    requires
        clean_outline(c),
    ensures
        outline_text(outline_of(outline_text(c))) == outline_text(c),
{
    lemma_read_written(c);
    lemma_read_back_text(c);
}

/// What is left of a line without the white space at its ends does not end
/// in white space.
proof fn lemma_spaces_back_stops(s: Seq<char>, lo: int, j: int)
    requires
        0 <= lo <= j <= s.len(),
    ensures
        lo <= spaces_back(s, lo, j) <= j,
        spaces_back(s, lo, j) > lo ==> !is_space(s[spaces_back(s, lo, j) - 1]),
    decreases j - lo,
{
    if lo < j && is_space(s[j - 1]) {
        lemma_spaces_back_stops(s, lo, j - 1);
    }
}

proof fn lemma_spaces_from_stops(s: Seq<char>, i: int)
    requires
        0 <= i <= s.len(),
    ensures
        i <= spaces_from(s, i) <= s.len(),
    decreases s.len() - i,
{
    if i < s.len() && is_space(s[i]) {
        lemma_spaces_from_stops(s, i + 1);
    }
}

/// No piece holds a line feed.
proof fn lemma_pieces_hold_no_line_feed(s: Seq<char>)
    ensures
        forall|k: int, i: int|
            0 <= k < pieces(s).len() && 0 <= i < pieces(s)[k].len() ==> pieces(s)[k][i] != '\n',
    decreases s.len(),
{
    if s.len() > 0 {
        lemma_pieces_hold_no_line_feed(s.drop_last());
        lemma_pieces_len(s.drop_last());
    }
}

/// The text of an entry that is read from a line is clean.
pub proof fn lemma_parsed_line_is_clean(line: Seq<char>)
    requires
        forall|i: int| 0 <= i < line.len() ==> line[i] != '\n',
    ensures
        clean_text(parse_line(line).0),
{
    let from = spaces_from(line, 0);
    lemma_spaces_from_stops(line, 0);
    lemma_spaces_back_stops(line, from, line.len() as int);
    let to = spaces_back(line, from, line.len() as int);
    let trimmed = trim(line);
    let text = strip_bullet(trimmed);
    if trimmed.len() > 0 {
        assert(trimmed.last() == line[to - 1]);
    }
    if text.len() > 0 {
        assert(text.last() == trimmed.last());
    }
    assert forall|i: int| 0 <= i < text.len() implies text[i] != '\n' by {
        if trimmed.len() >= 2 && trimmed[0] == '-' && trimmed[1] == ' ' {
            assert(text[i] == trimmed[i + 2]);
        }
        assert(text[i] == line[from + i] || text[i] == line[from + i + 2]);
    }
}

/// Reading gives clean outlines only.
pub proof fn lemma_parsed_is_clean(text: Seq<char>)
    ensures
        clean_outline(outline_of(text)),
{
    let cut = pieces(text);
    let lines = split_lines(text);
    lemma_pieces_len(text);
    lemma_pieces_hold_no_line_feed(text);
    assert forall|k: int| 0 <= k < outline_of(text).len() implies clean_text(
        #[trigger] outline_of(text)[k].0,
    ) by {
        let line = lines[k];
        assert forall|i: int| 0 <= i < line.len() implies line[i] != '\n' by {
            if k < cut.len() - 1 {
                assert(line == without_cr(cut[k]));
                assert(line[i] == cut[k][i]);
            } else {
                assert(line == cut.last());
                assert(line[i] == cut[cut.len() - 1][i]);
            }
        }
        lemma_parsed_line_is_clean(line);
    }
}

/// The texts that come out of reading and writing as they went in are the
/// texts of the clean outlines, and no others.
pub proof fn lemma_round_trip_exactly(text: Seq<char>)
    ensures
        outline_text(outline_of(text)) == text <==> exists|c: Seq<Line>|
            clean_outline(c) && outline_text(c) == text,
{
    if outline_text(outline_of(text)) == text {
        lemma_parsed_is_clean(text);
        assert(clean_outline(outline_of(text)) && outline_text(outline_of(text)) == text);
    }
    if exists|c: Seq<Line>| clean_outline(c) && outline_text(c) == text {
        let c = choose|c: Seq<Line>| clean_outline(c) && outline_text(c) == text;
        lemma_round_trip(c);
    }
}

/// The line of a property without the line feed at its end.
pub open spec fn property_body(property: (Seq<char>, Seq<char>)) -> Seq<char> {
    property.0 + seq![':', ':', ' '] + property.1
}

/// A key that is read back whole: it holds neither a line feed nor `::`, and
/// does not end in a colon.
pub open spec fn clean_key(key: Seq<char>) -> bool {
    &&& no_line_feed(key)
    &&& forall|i: int| 0 <= i < key.len() ==> !sep_at(key, i)
    &&& key.len() > 0 ==> key.last() != ':'
}

/// A value that is read back whole: it holds neither a line feed nor `::`,
/// and neither starts nor ends with white space.
pub open spec fn clean_value(value: Seq<char>) -> bool {
    &&& no_line_feed(value)
    &&& forall|i: int| 0 <= i < value.len() ==> !sep_at(value, i)
    &&& value.len() > 0 ==> !is_space(value[0]) && !is_space(value.last())
}

/// A page whose stored text is read back as the page.
pub open spec fn clean_page(page: PageView) -> bool {
    &&& clean_outline(page.contents)
    &&& forall|i: int|
        0 <= i < page.properties.len() ==> clean_key((#[trigger] page.properties[i]).0)
            && clean_value(page.properties[i].1)
}

/// The line of a clean property is read back as that property.
pub proof fn lemma_parse_property_body(property: (Seq<char>, Seq<char>))
    requires
        clean_key(property.0),
        clean_value(property.1),
    ensures
        parse_property(property_body(property)) == property,
        sep_from(property_body(property), 0) < property_body(property).len(),
        no_line_feed(property_body(property)),
        without_cr(property_body(property)) == property_body(property),
{
    let key = property.0;
    let value = property.1;
    let line = property_body(property);
    let k = key.len() as int;
    assert(line[k] == ':' && line[k + 1] == ':' && line[k + 2] == ' ');
    assert forall|i: int| 0 <= i < k implies !sep_at(line, i) by {
        if i + 1 < k {
            assert(line[i] == key[i] && line[i + 1] == key[i + 1]);
            assert(!sep_at(key, i));
        } else {
            assert(line[i] == key.last());
        }
    }
    assert(sep_at(line, k));
    lemma_sep_from_is(line, 0, k);
    let rest = line.skip(k + 2);
    assert(rest =~= seq![' '] + value);
    assert forall|i: int| 0 <= i < rest.len() implies !sep_at(rest, i) by {
        if i >= 1 {
            if i + 1 < rest.len() {
                assert(rest[i] == value[i - 1] && rest[i + 1] == value[i]);
                assert(!sep_at(value, i - 1));
            }
        }
    }
    lemma_sep_from_is(rest, 0, rest.len() as int);
    assert(rest.take(rest.len() as int) =~= rest);
    assert(is_space(rest[0]));
    if value.len() > 0 {
        assert(rest[1] == value[0]);
        assert(rest.last() == value.last());
        assert(spaces_from(rest, 1) == 1);
        assert(spaces_from(rest, 0) == 1);
        assert(spaces_back(rest, 1, rest.len() as int) == rest.len());
    } else {
        assert(spaces_from(rest, 1) == 1);
        assert(spaces_from(rest, 0) == 1);
        assert(spaces_back(rest, 1, 1) == 1);
    }
    assert(trim(rest) =~= value);
    assert(line.take(k) =~= key);
    assert forall|i: int| 0 <= i < line.len() implies line[i] != '\n' by {
        if i < k {
            assert(line[i] == key[i]);
        } else if i >= k + 3 {
            assert(line[i] == value[i - k - 3]);
        }
    }
    if value.len() > 0 {
        assert(line.last() == value.last());
    } else {
        assert(line.last() == ' ');
    }
}

/// The text of the properties is their lines, joined.
proof fn lemma_properties_text_joined(properties: Seq<(Seq<char>, Seq<char>)>)
    ensures
        properties_text(properties) == joined(
            Seq::new(properties.len(), |i: int| property_body(properties[i])),
        ),
    decreases properties.len(),
{
    let bodies = Seq::new(properties.len(), |i: int| property_body(properties[i]));
    if properties.len() > 0 {
        let front = properties.drop_last();
        lemma_properties_text_joined(front);
        assert(bodies.drop_last() =~= Seq::new(front.len(), |i: int| property_body(front[i])));
        assert(bodies.last() == property_body(properties.last()));
        assert(property_line(properties.last()) =~= property_body(properties.last()) + seq![
            '\n',
        ]);
        assert(properties_text(properties) =~= joined(bodies));
    } else {
        assert(properties_text(properties) =~= joined(bodies));
    }
}

/// The lines up to `n` all hold `::`, so the first line without it is found
/// from `n` on.
proof fn lemma_plain_from_skips(lines: Seq<Seq<char>>, i: int, n: int)
    requires
        0 <= i <= n <= lines.len(),
        forall|k: int| 0 <= k < n ==> sep_from(#[trigger] lines[k], 0) < lines[k].len(),
    ensures
        plain_from(lines, i) == plain_from(lines, n),
    decreases n - i,
{
    if i < n {
        lemma_plain_from_skips(lines, i + 1, n);
    }
}

/// A clean page is read back from its stored text as it is, emptied entries
/// at indent 0.
pub proof fn lemma_page_read_back(page: PageView)
    requires
        clean_page(page),
    ensures
        page_of(page.title, page_text(page)) == (PageView {
            contents: Seq::new(page.contents.len(), |i: int| read_back(page.contents[i])),
            ..page
        }),
        page_text(page_of(page.title, page_text(page))) == page_text(page),
{
    let props = page.properties;
    let c = page.contents;
    let heads = Seq::new(props.len(), |i: int| property_body(props[i]));
    let bodies = Seq::new(c.len(), |i: int| line_body(c[i]));
    let gap = seq![Seq::<char>::empty()];
    let all = heads + gap + bodies;
    lemma_properties_text_joined(props);
    lemma_outline_text_joined(c);
    lemma_joined_add(heads, gap);
    lemma_joined_add(heads + gap, bodies);
    assert(joined(gap.drop_last()) =~= Seq::empty());
    assert(joined(gap) =~= seq!['\n']);
    let text = page_text(page);
    assert(text == joined(all));
    assert forall|k: int| 0 <= k < all.len() implies no_line_feed(#[trigger] all[k])
        && without_cr(all[k]) == all[k] by {
        if k < heads.len() {
            assert(clean_key(props[k].0));
            lemma_parse_property_body(props[k]);
        } else if k > heads.len() {
            let i = k - heads.len() - 1;
            assert(clean_text(c[i].0));
            lemma_parse_line_body(c[i]);
        }
    }
    lemma_pieces_of_joined(all);
    let lines = split_lines(text);
    assert(lines =~= all);
    assert forall|k: int| 0 <= k < heads.len() implies sep_from(#[trigger] lines[k], 0)
        < lines[k].len() by {
        assert(clean_key(props[k].0));
        lemma_parse_property_body(props[k]);
    }
    lemma_plain_from_skips(lines, 0, heads.len() as int);
    assert(lines[heads.len() as int].len() == 0);
    assert(sep_from(lines[heads.len() as int], 0) >= 0);
    assert(plain_from(lines, heads.len() as int) == heads.len());
    assert(header_len(lines) == heads.len());
    assert(body_start(lines) == heads.len() + 1);
    let read = page_of(page.title, text);
    assert forall|i: int| 0 <= i < props.len() implies #[trigger] read.properties[i]
        == props[i] by {
        assert(clean_key(props[i].0));
        lemma_parse_property_body(props[i]);
    }
    assert(read.properties =~= props);
    assert forall|i: int| 0 <= i < c.len() implies #[trigger] read.contents[i] == read_back(
        c[i],
    ) by {
        assert(clean_text(c[i].0));
        lemma_parse_line_body(c[i]);
        assert(lines[heads.len() + 1 + i] == line_body(c[i]));
    }
    assert(read.contents =~= Seq::new(c.len(), |i: int| read_back(c[i])));
    lemma_read_back_text(c);
}

} // verus!
