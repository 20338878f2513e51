//! Character sequences: the model every contract of this crate speaks in,
//! and the conversions between `str`, `String` and `Vec<char>`.

use vstd::prelude::*;
use vstd::std_specs::iter::IteratorSpec;

verus! {

broadcast use vstd::string::group_string_axioms;

/// `String::push` appends one character at the end of the string. This is
/// what the standard library documents of it; it is taken on trust.
pub assume_specification[ String::push ](s: &mut String, ch: char)
    ensures
        final(s)@ == old(s)@.push(ch),
;

/// The character sequences that the rows of `v` hold.
pub open spec fn rows(v: Seq<Vec<char>>) -> Seq<Seq<char>> {
    Seq::new(v.len(), |i: int| v[i]@)
}

/// The characters of `s`, in order.
pub fn chars_of(s: &str) -> (out: Vec<char>)
    ensures
        out@ == s@,
{
    let mut out: Vec<char> = Vec::new();
    let mut it = s.chars();
    loop
        invariant
            it.obeys_prophetic_iter_laws(),
            it.decrease() is Some,
            out@ + it.remaining() == s@,
        ensures
            out@ == s@,
        decreases it.decrease()->0,
    {
        match it.next() {
            Some(c) => {
                out.push(c);
            },
            None => {
                break ;
            },
        }
    }
    out
}

/// The string made of the characters `v[from..to]`.
pub(crate) fn string_of(v: &Vec<char>, from: usize, to: usize) -> (out: String)
    requires
        from <= to <= v.len(),
    ensures
        out@ == v@.subrange(from as int, to as int),
{
    let mut out = String::new();
    let mut i: usize = from;
    while i < to
        invariant
            from <= i <= to <= v.len(),
            out@ == v@.subrange(from as int, i as int),
        decreases to - i,
    {
        out.push(v[i]);
        i += 1;
    }
    out
}

/// `p` stands at the start of `s`.
pub open spec fn is_prefix(p: Seq<char>, s: Seq<char>) -> bool {
    &&& p.len() <= s.len()
    &&& forall|i: int| 0 <= i < p.len() ==> s[i] == p[i]
}

/// Tells whether `s` starts with `p`.
pub fn has_prefix(s: &str, p: &str) -> (r: bool)
    ensures
        r == is_prefix(p@, s@),
{
    let mut si = s.chars();
    let mut pi = p.chars();
    let ghost mut k: int = 0;
    loop
        invariant
            si.obeys_prophetic_iter_laws(),
            pi.obeys_prophetic_iter_laws(),
            pi.decrease() is Some,
            0 <= k <= s@.len(),
            k <= p@.len(),
            si.remaining() == s@.skip(k),
            pi.remaining() == p@.skip(k),
            forall|i: int| 0 <= i < k ==> s@[i] == p@[i],
        decreases pi.decrease()->0,
    {
        match pi.next() {
            None => {
                return true;
            },
            Some(pc) => {
                match si.next() {
                    None => {
                        return false;
                    },
                    Some(sc) => {
                        if sc != pc {
                            return false;
                        }
                    },
                }
            },
        }
        proof {
            assert(s@.skip(k).drop_first() =~= s@.skip(k + 1));
            assert(p@.skip(k).drop_first() =~= p@.skip(k + 1));
            k = k + 1;
        }
    }
}

/// Tells whether `a` and `b` hold the same characters.
pub fn same_text(a: &str, b: &str) -> (r: bool)
    ensures
        r == (a@ == b@),
{
    let mut ai = a.chars();
    let mut bi = b.chars();
    let ghost mut k: int = 0;
    loop
        invariant
            ai.obeys_prophetic_iter_laws(),
            bi.obeys_prophetic_iter_laws(),
            ai.decrease() is Some,
            0 <= k <= a@.len(),
            k <= b@.len(),
            ai.remaining() == a@.skip(k),
            bi.remaining() == b@.skip(k),
            forall|i: int| 0 <= i < k ==> a@[i] == b@[i],
        decreases ai.decrease()->0,
    {
        match ai.next() {
            None => {
                match bi.next() {
                    None => {
                        proof {
                            assert(a@ =~= b@);
                        }
                        return true;
                    },
                    Some(_) => {
                        return false;
                    },
                }
            },
            Some(ac) => {
                match bi.next() {
                    None => {
                        return false;
                    },
                    Some(bc) => {
                        if ac != bc {
                            return false;
                        }
                    },
                }
            },
        }
        proof {
            assert(a@.skip(k).drop_first() =~= a@.skip(k + 1));
            assert(b@.skip(k).drop_first() =~= b@.skip(k + 1));
            k = k + 1;
        }
    }
}

} // verus!
