//! Where a page is stored: the key that stands for its title in the name of
//! its file, and the title that a key stands for.

use vstd::prelude::*;
use crate::text::chars_of;

verus! {

/// The storage key of a title: the title with every `/` replaced by `___`.
pub open spec fn storage_key(title: Seq<char>) -> Seq<char>
    decreases title.len(),
{
    if title.len() == 0 {
        Seq::empty()
    } else if title.last() == '/' {
        storage_key(title.drop_last()) + seq!['_', '_', '_']
    } else {
        storage_key(title.drop_last()).push(title.last())
    }
}

/// `___` stands in `key` at index `i`.
pub open spec fn bar_at(key: Seq<char>, i: int) -> bool {
    0 <= i && i + 2 < key.len() && key[i] == '_' && key[i + 1] == '_' && key[i + 2] == '_'
}

/// The title that `key[i..]` stands for: every `___`, found from the left,
/// replaced by `/`.
pub open spec fn title_from(key: Seq<char>, i: int) -> Seq<char>
    decreases key.len() - i,
{
    if i < 0 || i >= key.len() {
        Seq::empty()
    } else if bar_at(key, i) {
        seq!['/'] + title_from(key, i + 3)
    } else {
        seq![key[i]] + title_from(key, i + 1)
    }
}

/// The title that a storage key stands for.
pub open spec fn title_of(key: Seq<char>) -> Seq<char> {
    title_from(key, 0)
}

/// The extension of the file of a page.
pub open spec fn extension() -> Seq<char> {
    seq!['.', 'm', 'd']
}

/// The name of the file of the page `title`.
pub open spec fn file_name(title: Seq<char>) -> Seq<char> {
    storage_key(title) + extension()
}

/// What one character of a title is stored as.
pub open spec fn stored_char(c: char) -> Seq<char> {
    if c == '/' {
        seq!['_', '_', '_']
    } else {
        seq![c]
    }
}

/// The key of a title starts with what its first character is stored as,
/// and goes on with the key of the rest.
pub proof fn lemma_storage_key_front(title: Seq<char>)
    requires
        title.len() > 0,
    ensures
        storage_key(title) == stored_char(title[0]) + storage_key(title.skip(1)),
    decreases title.len(),
{
    let rest = title.skip(1);
    if title.len() == 1 {
        assert(title.drop_last().len() == 0);
        assert(rest.len() == 0);
        assert(storage_key(title.drop_last()) =~= Seq::empty());
        assert(storage_key(rest) =~= Seq::empty());
        assert(title.last() == title[0]);
        assert(storage_key(title) =~= stored_char(title[0]) + storage_key(rest));
    } else {
        let front = title.drop_last();
        lemma_storage_key_front(front);
        assert(front.skip(1) =~= rest.drop_last());
        assert(rest.last() == title.last());
        assert(front[0] == title[0]);
        assert(storage_key(title) =~= stored_char(title[0]) + storage_key(rest));
    }
}

/// What stands before a position does not change the title that is read
/// from that position on.
pub proof fn lemma_title_from_shift(before: Seq<char>, key: Seq<char>, i: int)
    requires
        0 <= i <= key.len(),
    ensures
        title_from(before + key, before.len() + i) == title_from(key, i),
    decreases key.len() - i,
{
    let whole = before + key;
    if i < key.len() {
        assert(whole[before.len() + i] == key[i]);
        if bar_at(key, i) {
            assert(whole[before.len() + i + 1] == key[i + 1]);
            assert(whole[before.len() + i + 2] == key[i + 2]);
            assert(bar_at(whole, before.len() + i));
            lemma_title_from_shift(before, key, i + 3);
        } else {
            if i + 2 < key.len() {
                assert(whole[before.len() + i + 1] == key[i + 1]);
                assert(whole[before.len() + i + 2] == key[i + 2]);
            }
            assert(!bar_at(whole, before.len() + i));
            lemma_title_from_shift(before, key, i + 1);
        }
    }
}

/// A title without an underscore is read back from its key as it is.
pub proof fn lemma_key_gives_title_back(title: Seq<char>)
    requires
        forall|i: int| 0 <= i < title.len() ==> title[i] != '_',
    ensures
        title_of(storage_key(title)) == title,
    decreases title.len(),
{
    if title.len() == 0 {
        assert(title_of(storage_key(title)) =~= title);
    } else {
        let rest = title.skip(1);
        let first = stored_char(title[0]);
        let key = storage_key(title);
        lemma_storage_key_front(title);
        lemma_key_gives_title_back(rest);
        lemma_title_from_shift(first, storage_key(rest), 0);
        assert(key == first + storage_key(rest));
        if title[0] == '/' {
            assert(key[0] == '_' && key[1] == '_' && key[2] == '_');
            assert(bar_at(key, 0));
            assert(title_of(key) =~= seq!['/'] + rest);
        } else {
            assert(key[0] == title[0]);
            assert(!bar_at(key, 0));
            assert(title_of(key) =~= seq![title[0]] + rest);
        }
        assert(seq![title[0]] + rest =~= title);
    }
}

/// The storage key of `title`.
pub fn title_to_key(title: &str) -> (key: String)
    ensures
        key@ == storage_key(title@),
{
    let chars = chars_of(title);
    let mut key = String::new();
    let mut i: usize = 0;
    proof {
        assert(chars@.take(0) =~= Seq::empty());
    }
    while i < chars.len()
        invariant
            i <= chars.len(),
            key@ == storage_key(chars@.take(i as int)),
        decreases chars.len() - i,
    {
        proof {
            assert(chars@.take(i + 1).drop_last() =~= chars@.take(i as int));
            assert(chars@.take(i + 1).last() == chars@[i as int]);
        }
        let ghost before = key@;
        if chars[i] == '/' {
            key.push('_');
            key.push('_');
            key.push('_');
            proof {
                assert(key@ =~= before + seq!['_', '_', '_']);
            }
        } else {
            key.push(chars[i]);
        }
        i += 1;
    }
    proof {
        assert(chars@.take(chars.len() as int) =~= chars@);
    }
    key
}

/// The title that the storage key `key` stands for.
pub fn key_to_title(key: &str) -> (title: String)
    ensures
        title@ == title_of(key@),
{
    let chars = chars_of(key);
    proof {
        assert(chars@.subrange(0, chars.len() as int) =~= chars@);
    }
    title_in(&chars, 0, chars.len())
}

/// The title that the storage key `key[from..to]` stands for.
pub(crate) fn title_in(key: &Vec<char>, from: usize, to: usize) -> (title: String)
    requires
        from <= to <= key.len(),
    ensures
        title@ == title_of(key@.subrange(from as int, to as int)),
{
    let ghost k = key@.subrange(from as int, to as int);
    let mut title = String::new();
    let mut i: usize = from;
    proof {
        assert(title@ + title_from(k, 0) =~= title_from(k, 0));
    }
    while i < to
        invariant
            from <= i <= to <= key.len(),
            k == key@.subrange(from as int, to as int),
            title@ + title_from(k, i - from) == title_of(k),
        decreases to - i,
    {
        let ghost before = title@;
        if to - i >= 3 && key[i] == '_' && key[i + 1] == '_' && key[i + 2] == '_' {
            proof {
                assert(bar_at(k, i - from));
                assert(before.push('/') + title_from(k, i - from + 3) =~= before + (seq!['/']
                    + title_from(k, i - from + 3)));
            }
            title.push('/');
            i += 3;
        } else {
            proof {
                assert(!bar_at(k, i - from));
                assert(before.push(k[i - from]) + title_from(k, i - from + 1) =~= before + (
                seq![k[i - from]] + title_from(k, i - from + 1)));
            }
            title.push(key[i]);
            i += 1;
        }
    }
    proof {
        assert(title@ + title_from(k, to - from) =~= title@);
    }
    title
}

} // verus!
