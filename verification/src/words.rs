//! Lists of words and a total lexicographic order on them.
//!
//! Candidate sets are carried as `Vec<String>` with set semantics: the
//! contracts speak of which character sequences occur in a list, and of lists
//! free of duplicates. The lexicographic order on character sequences serves
//! as the deterministic tie-break when a correction is selected.

use vstd::prelude::*;
use vstd::string::StrSliceExecFns;

verus! {

/// A list of words holds the character sequence `v`.
pub open spec fn list_has(l: Seq<String>, v: Seq<char>) -> bool {
    exists|j: int| 0 <= j < l.len() && l[j]@ == v
}

/// No two entries of the list spell the same word.
pub open spec fn list_nodup(l: Seq<String>) -> bool {
    forall|i: int, j: int| 0 <= i < j < l.len() ==> l[i]@ != l[j]@
}

/// Strict lexicographic order on character sequences.
pub open spec fn lex_lt(a: Seq<char>, b: Seq<char>) -> bool
    decreases a.len(),
{
    if b.len() == 0 {
        false
    } else if a.len() == 0 {
        true
    } else if a[0] == b[0] {
        lex_lt(a.drop_first(), b.drop_first())
    } else {
        a[0] < b[0]
    }
}

/// Reflexive lexicographic order on character sequences.
pub open spec fn lex_leq(a: Seq<char>, b: Seq<char>) -> bool {
    lex_lt(a, b) || a == b
}

/// The order is connected: distinct sequences compare one way or the other.
pub proof fn lemma_lex_lt_connected(a: Seq<char>, b: Seq<char>)
    ensures
        a != b ==> lex_lt(a, b) || lex_lt(b, a),
    decreases a.len(),
{
    if a.len() == 0 && b.len() == 0 {
        assert(a =~= b);
    }
    if a.len() > 0 && b.len() > 0 && a[0] == b[0] {
        lemma_lex_lt_connected(a.drop_first(), b.drop_first());
        if a.drop_first() == b.drop_first() {
            assert forall|i: int| 0 <= i < a.len() implies a[i] == b[i] by {
                if i > 0 {
                    assert(a[i] == a.drop_first()[i - 1]);
                    assert(b[i] == b.drop_first()[i - 1]);
                }
            }
            assert(a =~= b);
        }
    }
}

/// The order is transitive, also in its reflexive form.
pub proof fn lemma_lex_lt_transitive(a: Seq<char>, b: Seq<char>, c: Seq<char>)
    ensures
        lex_lt(a, b) && lex_lt(b, c) ==> lex_lt(a, c),
        lex_lt(a, b) && lex_leq(b, c) ==> lex_lt(a, c),
        lex_leq(a, b) && lex_lt(b, c) ==> lex_lt(a, c),
    decreases a.len() + b.len() + c.len(),
{
    if lex_lt(a, b) && lex_lt(b, c) {
        if a.len() > 0 && b.len() > 0 && c.len() > 0 {
            if a[0] == b[0] && b[0] == c[0] {
                lemma_lex_lt_transitive(a.drop_first(), b.drop_first(), c.drop_first());
            }
        }
    }
}

/// Compares two words in the lexicographic order.
pub fn str_lex_lt(a: &str, b: &str) -> (r: bool)
    ensures
        r == lex_lt(a@, b@),
    decreases a@.len(),
{
    let an = a.unicode_len();
    let bn = b.unicode_len();
    if bn == 0 {
        false
    } else if an == 0 {
        true
    } else {
        let ca = a.get_char(0);
        let cb = b.get_char(0);
        if ca == cb {
            let ta = a.substring_char(1, an);
            let tb = b.substring_char(1, bn);
            assert(ta@ =~= a@.drop_first());
            assert(tb@ =~= b@.drop_first());
            str_lex_lt(ta, tb)
        } else {
            ca < cb
        }
    }
}

/// A word list that extends another, entry for entry, holds every sequence
/// that the shorter one holds.
pub proof fn lemma_has_prefix(l1: Seq<String>, l2: Seq<String>, v: Seq<char>)
    requires
        l1.len() <= l2.len(),
        forall|k: int| 0 <= k < l1.len() ==> l2[k] == l1[k],
        list_has(l1, v),
    ensures
        list_has(l2, v),
{
    let j = choose|j: int| 0 <= j < l1.len() && l1[j]@ == v;
    assert(0 <= j < l2.len() && l2[j]@ == v);
}

/// Decides whether the list holds the word `w`.
pub fn list_contains(l: &Vec<String>, w: &String) -> (r: bool)
    ensures
        r == list_has(l@, w@),
{
    let mut i: usize = 0;
    while i < l.len()
        invariant
            0 <= i <= l@.len(),
            forall|k: int| 0 <= k < i ==> l@[k]@ != w@,
        decreases l@.len() - i,
    {
        if l[i] == *w {
            return true;
        }
        i += 1;
    }
    false
}

/// Removes repeated spellings, keeping the first occurrence of each word.
pub fn dedup_list(l: &Vec<String>) -> (r: Vec<String>)
    ensures
        forall|v: Seq<char>| #[trigger] list_has(r@, v) <==> list_has(l@, v),
        list_nodup(r@),
        r@.len() <= l@.len(),
{
    let mut r: Vec<String> = Vec::new();
    let mut i: usize = 0;
    while i < l.len()
        invariant
            i <= l@.len(),
            r@.len() <= i,
            list_nodup(r@),
            forall|v: Seq<char>| list_has(r@, v) ==> list_has(l@, v),
            forall|k: int| 0 <= k < i ==> list_has(r@, #[trigger] l@[k]@),
        decreases l@.len() - i,
    {
        let ghost old_r = r@;
        let seen = list_contains(&r, &l[i]);
        if !seen {
            r.push(l[i].clone());
        }
        proof {
            assert(list_has(r@, l@[i as int]@)) by {
                if !seen {
                    assert(r@[r@.len() - 1]@ == l@[i as int]@);
                }
            }
            assert forall|k: int| 0 <= k < i + 1 implies list_has(r@, #[trigger] l@[k]@) by {
                if k < i {
                    lemma_has_prefix(old_r, r@, l@[k]@);
                }
            }
            assert forall|v: Seq<char>| list_has(r@, v) implies list_has(l@, v) by {
                let j = choose|j: int| 0 <= j < r@.len() && #[trigger] r@[j]@ == v;
                if j < old_r.len() {
                    assert(list_has(old_r, v));
                } else {
                    assert(r@[j]@ == l@[i as int]@);
                }
            }
        }
        i += 1;
    }
    proof {
        assert forall|v: Seq<char>| list_has(l@, v) implies list_has(r@, v) by {
            let k = choose|k: int| 0 <= k < l@.len() && #[trigger] l@[k]@ == v;
            assert(list_has(r@, l@[k]@));
        }
    }
    r
}

} // verus!
