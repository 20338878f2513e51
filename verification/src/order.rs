//! The order in which change records are listed: sequences of characters
//! compared position by position, by code point, a proper prefix coming first.

use vstd::prelude::*;

verus! {

/// `a` and `b` agree on their first `k` characters, and at index `k` either
/// `a` has ended while `b` goes on, or `a` holds the smaller character.
pub open spec fn below_at(a: Seq<char>, b: Seq<char>, k: int) -> bool {
    &&& 0 <= k <= a.len()
    &&& k < b.len()
    &&& forall|i: int| 0 <= i < k ==> a[i] == b[i]
    &&& k < a.len() ==> a[k] < b[k]
}

/// `a` comes strictly before `b` in lexicographic order.
pub open spec fn lex_less(a: Seq<char>, b: Seq<char>) -> bool {
    exists|k: int| below_at(a, b, k)
}

/// Every element of `s` comes strictly before each later one: `s` is sorted
/// and holds nothing twice.
pub open spec fn strictly_sorted(s: Seq<Seq<char>>) -> bool {
    forall|i: int, j: int| 0 <= i < j < s.len() ==> lex_less(s[i], s[j])
}

/// How one sequence stands to another in lexicographic order.
#[derive(Clone, Copy, Debug, PartialEq, Eq, Structural)]
pub enum Rank {
    Below,
    Same,
    Above,
}

/// No sequence comes before itself.
pub proof fn lemma_lex_irreflexive(a: Seq<char>)
    ensures
        !lex_less(a, a),
{
}

/// Two sequences cannot each come before the other.
pub proof fn lemma_lex_asymmetric(a: Seq<char>, b: Seq<char>)
    requires
        lex_less(a, b),
    ensures
        !lex_less(b, a),
{
    let i = choose|k: int| below_at(a, b, k);
    if lex_less(b, a) {
        let j = choose|k: int| below_at(b, a, k);
        if i < j {
            assert(b[i] == a[i]);
        } else if j < i {
            assert(a[j] == b[j]);
        }
    }
}

/// The order is transitive.
pub proof fn lemma_lex_transitive(a: Seq<char>, b: Seq<char>, c: Seq<char>)
    requires
        lex_less(a, b),
        lex_less(b, c),
    ensures
        lex_less(a, c),
{
    let i = choose|k: int| below_at(a, b, k);
    let j = choose|k: int| below_at(b, c, k);
    if i <= j {
        if i < j {
            assert(b[i] == c[i]);
        }
        assert(below_at(a, c, i));
    } else {
        assert(a[j] == b[j]);
        assert(below_at(a, c, j));
    }
}

proof fn lemma_lex_total_from(a: Seq<char>, b: Seq<char>, k: int)
    requires
        0 <= k <= a.len(),
        k <= b.len(),
        forall|i: int| 0 <= i < k ==> a[i] == b[i],
    ensures
        a == b || lex_less(a, b) || lex_less(b, a),
    decreases a.len() - k,
{
    if k == a.len() {
        if k == b.len() {
            assert(a =~= b);
        } else {
            assert(below_at(a, b, k));
        }
    } else if k == b.len() {
        assert(below_at(b, a, k));
    } else if a[k] == b[k] {
        lemma_lex_total_from(a, b, k + 1);
    } else if a[k] < b[k] {
        assert(below_at(a, b, k));
    } else {
        assert(below_at(b, a, k));
    }
}

/// Any two different sequences are ordered one way or the other.
pub proof fn lemma_lex_total(a: Seq<char>, b: Seq<char>)
    ensures
        a == b || lex_less(a, b) || lex_less(b, a),
{
    lemma_lex_total_from(a, b, 0);
}

/// Compares two character sequences in lexicographic order.
pub fn lex_rank(a: &Vec<char>, b: &Vec<char>) -> (r: Rank)
    ensures
        r == Rank::Below <==> lex_less(a@, b@),
        r == Rank::Same <==> a@ == b@,
        r == Rank::Above <==> lex_less(b@, a@),
{
    let mut i: usize = 0;
    while i < a.len() && i < b.len() && a[i] == b[i]
        invariant
            i <= a.len(),
            i <= b.len(),
            forall|k: int| 0 <= k < i ==> a@[k] == b@[k],
        decreases a.len() - i,
    {
        i += 1;
    }
    if i == a.len() {
        if i == b.len() {
            proof {
                assert(a@ =~= b@);
                lemma_lex_irreflexive(a@);
            }
            Rank::Same
        } else {
            proof {
                assert(below_at(a@, b@, i as int));
                lemma_lex_asymmetric(a@, b@);
            }
            Rank::Below
        }
    } else if i == b.len() {
        proof {
            assert(below_at(b@, a@, i as int));
            lemma_lex_asymmetric(b@, a@);
        }
        Rank::Above
    } else {
        if a[i] < b[i] {
            proof {
                assert(below_at(a@, b@, i as int));
                lemma_lex_asymmetric(a@, b@);
            }
            Rank::Below
        } else {
            proof {
                assert(below_at(b@, a@, i as int));
                lemma_lex_asymmetric(b@, a@);
            }
            Rank::Above
        }
    }
}

} // verus!
