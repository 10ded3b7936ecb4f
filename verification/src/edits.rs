//! Single edits on words: deletions, transpositions, replacements, insertions.
//!
//! The spec functions describe each primitive as an operation on character
//! sequences; `is_edit1` and `is_edit2` say that a word is reachable from
//! another by one or two such edits, with replacement and insertion drawing
//! their letters from a given alphabet. The executable functions generate all
//! words one edit away from a given word.

use crate::words::dedup_list;
use crate::words::lemma_has_prefix;
use crate::words::list_has;
use crate::words::list_nodup;
use vstd::prelude::*;
use vstd::string::StrSliceExecFns;
use vstd::string::StringExecFns;

verus! {

/// `w` with the character at position `i` removed.
pub open spec fn delete_at(w: Seq<char>, i: int) -> Seq<char> {
    w.subrange(0, i) + w.subrange(i + 1, w.len() as int)
}

/// `w` with the characters at positions `i` and `i + 1` exchanged.
pub open spec fn transpose_at(w: Seq<char>, i: int) -> Seq<char> {
    w.subrange(0, i) + w.subrange(i + 1, i + 2) + w.subrange(i, i + 1) + w.subrange(
        i + 2,
        w.len() as int,
    )
}

/// `w` with the character at position `i` replaced by `c`.
pub open spec fn replace_at(w: Seq<char>, i: int, c: char) -> Seq<char> {
    w.subrange(0, i) + seq![c] + w.subrange(i + 1, w.len() as int)
}

/// `w` with `c` inserted before position `i`.
pub open spec fn insert_at(w: Seq<char>, i: int, c: char) -> Seq<char> {
    w.subrange(0, i) + seq![c] + w.subrange(i, w.len() as int)
}

/// `v` arises from `w` by deleting one character.
pub open spec fn is_delete_of(w: Seq<char>, v: Seq<char>) -> bool {
    exists|i: int| 0 <= i < w.len() && v == #[trigger] delete_at(w, i)
}

/// `v` arises from `w` by exchanging two neighbouring characters.
pub open spec fn is_transpose_of(w: Seq<char>, v: Seq<char>) -> bool {
    exists|i: int| 0 <= i && i + 1 < w.len() && v == #[trigger] transpose_at(w, i)
}

/// `v` arises from `w` by replacing one character with a letter of `a`.
pub open spec fn is_replace_of(a: Seq<char>, w: Seq<char>, v: Seq<char>) -> bool {
    exists|i: int, c: char|
        0 <= i < w.len() && a.contains(c) && v == #[trigger] replace_at(w, i, c)
}

/// `v` arises from `w` by inserting a letter of `a` at some position.
pub open spec fn is_insert_of(a: Seq<char>, w: Seq<char>, v: Seq<char>) -> bool {
    exists|i: int, c: char|
        0 <= i <= w.len() && a.contains(c) && v == #[trigger] insert_at(w, i, c)
}

/// `v` is exactly one edit away from `w`, over the alphabet `a`.
pub open spec fn is_edit1(a: Seq<char>, w: Seq<char>, v: Seq<char>) -> bool {
    is_delete_of(w, v) || is_transpose_of(w, v) || is_replace_of(a, w, v) || is_insert_of(a, w, v)
}

/// `v` is reachable from `w` by two single edits, over the alphabet `a`.
pub open spec fn is_edit2(a: Seq<char>, w: Seq<char>, v: Seq<char>) -> bool {
    exists|m: Seq<char>| #[trigger] is_edit1(a, w, m) && is_edit1(a, m, v)
}

/// A word one edit away from `w` is at most one character shorter or longer.
pub proof fn lemma_edit1_length(a: Seq<char>, w: Seq<char>, v: Seq<char>)
    requires
        is_edit1(a, w, v),
    ensures
        v.len() + 1 == w.len() || v.len() == w.len() || v.len() == w.len() + 1,
{
}

/// Builds `delete_at(word, i)`.
fn delete_char(word: &str, i: usize) -> (r: String)
    requires
        i < word@.len(),
    ensures
        r@ == delete_at(word@, i as int),
{
    let n = word.unicode_len();
    let pre = word.substring_char(0, i);
    let post = word.substring_char(i + 1, n);
    String::from_str(pre).concat(post)
}

/// Builds `transpose_at(word, i)`.
fn transpose_char(word: &str, i: usize) -> (r: String)
    requires
        i + 1 < word@.len(),
    ensures
        r@ == transpose_at(word@, i as int),
{
    let n = word.unicode_len();
    let pre = word.substring_char(0, i);
    let second = word.substring_char(i + 1, i + 2);
    let first = word.substring_char(i, i + 1);
    let post = word.substring_char(i + 2, n);
    String::from_str(pre).concat(second).concat(first).concat(post)
}

/// Builds `replace_at(word, i, c)` where `letter` spells the one character `c`.
fn replace_char(word: &str, i: usize, letter: &str) -> (r: String)
    requires
        i < word@.len(),
        letter@.len() == 1,
    ensures
        r@ == replace_at(word@, i as int, letter@[0]),
{
    let n = word.unicode_len();
    let pre = word.substring_char(0, i);
    let post = word.substring_char(i + 1, n);
    let r = String::from_str(pre).concat(letter).concat(post);
    proof {
        assert(letter@ =~= seq![letter@[0]]);
    }
    r
}

/// Builds `insert_at(word, i, c)` where `letter` spells the one character `c`.
fn insert_char(word: &str, i: usize, letter: &str) -> (r: String)
    requires
        i <= word@.len(),
        letter@.len() == 1,
    ensures
        r@ == insert_at(word@, i as int, letter@[0]),
{
    let n = word.unicode_len();
    let pre = word.substring_char(0, i);
    let post = word.substring_char(i, n);
    let r = String::from_str(pre).concat(letter).concat(post);
    proof {
        assert(letter@ =~= seq![letter@[0]]);
    }
    r
}

/// Appends every deletion of `word` to `out`.
fn push_deletes(word: &str, out: &mut Vec<String>)
    ensures
        final (out)@.len() == old(out)@.len() + word@.len(),
        forall|k: int| 0 <= k < old(out)@.len() ==> final (out)@[k] == old(out)@[k],
        forall|k: int|
            old(out)@.len() <= k < final (out)@.len() ==> is_delete_of(
                word@,
                #[trigger] final (out)@[k]@,
            ),
        forall|i: int| 0 <= i < word@.len() ==> list_has(final (out)@, delete_at(word@, i)),
{
    let n = word.unicode_len();
    let ghost base = out@;
    let mut i: usize = 0;
    while i < n
        invariant
            n == word@.len(),
            i <= n,
            out@.len() == base.len() + i,
            forall|k: int| 0 <= k < base.len() ==> out@[k] == base[k],
            forall|k: int|
                base.len() <= k < out@.len() ==> is_delete_of(word@, #[trigger] out@[k]@),
            forall|j: int| 0 <= j < i ==> list_has(out@, delete_at(word@, j)),
        decreases n - i,
    {
        let ghost prev = out@;
        let d = delete_char(word, i);
        out.push(d);
        proof {
            assert(out@[out@.len() - 1]@ == delete_at(word@, i as int));
            assert forall|j: int| 0 <= j < i + 1 implies list_has(out@, delete_at(word@, j)) by {
                if j < i {
                    lemma_has_prefix(prev, out@, delete_at(word@, j));
                } else {
                    assert(out@[out@.len() - 1]@ == delete_at(word@, j));
                }
            }
        }
        i += 1;
    }
}

/// Appends every transposition of `word` to `out`.
fn push_transposes(word: &str, out: &mut Vec<String>)
    ensures
        final (out)@.len() as int == old(out)@.len() as int + (if word@.len() >= 1 {
            word@.len() - 1
        } else {
            0int
        }),
        forall|k: int| 0 <= k < old(out)@.len() ==> final (out)@[k] == old(out)@[k],
        forall|k: int|
            old(out)@.len() <= k < final (out)@.len() ==> is_transpose_of(
                word@,
                #[trigger] final (out)@[k]@,
            ),
        forall|i: int| 0 <= i && i + 1 < word@.len() ==> list_has(final (out)@, transpose_at(word@, i)),
{
    let n = word.unicode_len();
    let ghost base = out@;
    let mut i: usize = 0;
    while i + 1 < n
        invariant
            n == word@.len(),
            i <= n || i == 0,
            i + 1 < n || (n >= 1 && i + 1 == n) || (n == 0 && i == 0),
            out@.len() == base.len() + i,
            forall|k: int| 0 <= k < base.len() ==> out@[k] == base[k],
            forall|k: int|
                base.len() <= k < out@.len() ==> is_transpose_of(word@, #[trigger] out@[k]@),
            forall|j: int| 0 <= j < i ==> list_has(out@, transpose_at(word@, j)),
        decreases n - i,
    {
        let ghost prev = out@;
        let t = transpose_char(word, i);
        out.push(t);
        proof {
            assert(out@[out@.len() - 1]@ == transpose_at(word@, i as int));
            assert forall|j: int| 0 <= j < i + 1 implies list_has(out@, transpose_at(word@, j)) by {
                if j < i {
                    lemma_has_prefix(prev, out@, transpose_at(word@, j));
                } else {
                    assert(out@[out@.len() - 1]@ == transpose_at(word@, j));
                }
            }
        }
        i += 1;
    }
}

/// Appends the replacements of `word` at position `i`, one per letter of the
/// alphabet, to `out`.
fn push_replace_row(word: &str, alphabet: &str, i: usize, out: &mut Vec<String>)
    requires
        i < word@.len(),
    ensures
        final (out)@.len() == old(out)@.len() + alphabet@.len(),
        forall|k: int| 0 <= k < old(out)@.len() ==> final (out)@[k] == old(out)@[k],
        forall|k: int|
            old(out)@.len() <= k < final (out)@.len() ==> is_replace_of(
                alphabet@,
                word@,
                #[trigger] final (out)@[k]@,
            ),
        forall|j: int|
            0 <= j < alphabet@.len() ==> list_has(
                final (out)@,
                replace_at(word@, i as int, alphabet@[j]),
            ),
{
    let an = alphabet.unicode_len();
    let ghost base = out@;
    let mut j: usize = 0;
    while j < an
        invariant
            an == alphabet@.len(),
            j <= an,
            i < word@.len(),
            out@.len() == base.len() + j,
            forall|k: int| 0 <= k < base.len() ==> out@[k] == base[k],
            forall|k: int|
                base.len() <= k < out@.len() ==> is_replace_of(
                    alphabet@,
                    word@,
                    #[trigger] out@[k]@,
                ),
            forall|j2: int|
                0 <= j2 < j ==> list_has(out@, replace_at(word@, i as int, alphabet@[j2])),
        decreases an - j,
    {
        let ghost prev = out@;
        let letter = alphabet.substring_char(j, j + 1);
        proof {
            assert(letter@ =~= seq![alphabet@[j as int]]);
        }
        let e = replace_char(word, i, letter);
        out.push(e);
        proof {
            assert(out@[out@.len() - 1]@ == replace_at(word@, i as int, alphabet@[j as int]));
            assert(alphabet@.contains(alphabet@[j as int]));
            assert forall|j2: int|
                0 <= j2 < j + 1 implies list_has(
                out@,
                replace_at(word@, i as int, alphabet@[j2]),
            ) by {
                if j2 < j {
                    lemma_has_prefix(prev, out@, replace_at(word@, i as int, alphabet@[j2]));
                } else {
                    assert(out@[out@.len() - 1]@ == replace_at(word@, i as int, alphabet@[j2]));
                }
            }
        }
        j += 1;
    }
}

/// Appends the insertions into `word` before position `i`, one per letter of
/// the alphabet, to `out`.
fn push_insert_row(word: &str, alphabet: &str, i: usize, out: &mut Vec<String>)
    requires
        i <= word@.len(),
    ensures
        final (out)@.len() == old(out)@.len() + alphabet@.len(),
        forall|k: int| 0 <= k < old(out)@.len() ==> final (out)@[k] == old(out)@[k],
        forall|k: int|
            old(out)@.len() <= k < final (out)@.len() ==> is_insert_of(
                alphabet@,
                word@,
                #[trigger] final (out)@[k]@,
            ),
        forall|j: int|
            0 <= j < alphabet@.len() ==> list_has(
                final (out)@,
                insert_at(word@, i as int, alphabet@[j]),
            ),
{
    let an = alphabet.unicode_len();
    let ghost base = out@;
    let mut j: usize = 0;
    while j < an
        invariant
            an == alphabet@.len(),
            j <= an,
            i <= word@.len(),
            out@.len() == base.len() + j,
            forall|k: int| 0 <= k < base.len() ==> out@[k] == base[k],
            forall|k: int|
                base.len() <= k < out@.len() ==> is_insert_of(
                    alphabet@,
                    word@,
                    #[trigger] out@[k]@,
                ),
            forall|j2: int|
                0 <= j2 < j ==> list_has(out@, insert_at(word@, i as int, alphabet@[j2])),
        decreases an - j,
    {
        let ghost prev = out@;
        let letter = alphabet.substring_char(j, j + 1);
        proof {
            assert(letter@ =~= seq![alphabet@[j as int]]);
        }
        let e = insert_char(word, i, letter);
        out.push(e);
        proof {
            assert(out@[out@.len() - 1]@ == insert_at(word@, i as int, alphabet@[j as int]));
            assert(alphabet@.contains(alphabet@[j as int]));
            assert forall|j2: int|
                0 <= j2 < j + 1 implies list_has(
                out@,
                insert_at(word@, i as int, alphabet@[j2]),
            ) by {
                if j2 < j {
                    lemma_has_prefix(prev, out@, insert_at(word@, i as int, alphabet@[j2]));
                } else {
                    assert(out@[out@.len() - 1]@ == insert_at(word@, i as int, alphabet@[j2]));
                }
            }
        }
        j += 1;
    }
}

/// Appends every replacement of `word`, at every position, to `out`.
fn push_replaces(word: &str, alphabet: &str, out: &mut Vec<String>)
    ensures
        final (out)@.len() as int == old(out)@.len() as int + word@.len() * alphabet@.len(),
        forall|k: int| 0 <= k < old(out)@.len() ==> final (out)@[k] == old(out)@[k],
        forall|k: int|
            old(out)@.len() <= k < final (out)@.len() ==> is_replace_of(
                alphabet@,
                word@,
                #[trigger] final (out)@[k]@,
            ),
        forall|i: int, c: char|
            0 <= i < word@.len() && alphabet@.contains(c) ==> list_has(
                final (out)@,
                replace_at(word@, i, c),
            ),
{
    let n = word.unicode_len();
    let ghost base = out@;
    let mut i: usize = 0;
    while i < n
        invariant
            n == word@.len(),
            i <= n,
            out@.len() as int == base.len() as int + i as int * alphabet@.len() as int,
            forall|k: int| 0 <= k < base.len() ==> out@[k] == base[k],
            forall|k: int|
                base.len() <= k < out@.len() ==> is_replace_of(
                    alphabet@,
                    word@,
                    #[trigger] out@[k]@,
                ),
            forall|i2: int, j: int|
                0 <= i2 < i && 0 <= j < alphabet@.len() ==> list_has(
                    out@,
                    replace_at(word@, i2, alphabet@[j]),
                ),
        decreases n - i,
    {
        let ghost prev = out@;
        push_replace_row(word, alphabet, i, out);
        proof {
            assert((i as int + 1) * alphabet@.len() as int == i as int * alphabet@.len() as int
                + alphabet@.len() as int) by (nonlinear_arith);
            assert forall|i2: int, j: int|
                0 <= i2 < i + 1 && 0 <= j < alphabet@.len() implies list_has(
                out@,
                replace_at(word@, i2, alphabet@[j]),
            ) by {
                if i2 < i {
                    lemma_has_prefix(prev, out@, replace_at(word@, i2, alphabet@[j]));
                }
            }
        }
        i += 1;
    }
    proof {
        assert forall|i2: int, c: char|
            0 <= i2 < word@.len() && alphabet@.contains(c) implies list_has(
            out@,
            replace_at(word@, i2, c),
        ) by {
            let j = choose|j: int| 0 <= j < alphabet@.len() && #[trigger] alphabet@[j] == c;
            assert(list_has(out@, replace_at(word@, i2, alphabet@[j])));
        }
    }
}

/// Appends every insertion into `word`, at every boundary, to `out`.
fn push_inserts(word: &str, alphabet: &str, out: &mut Vec<String>)
    ensures
        final (out)@.len() as int == old(out)@.len() as int + (word@.len() + 1)
            * alphabet@.len(),
        forall|k: int| 0 <= k < old(out)@.len() ==> final (out)@[k] == old(out)@[k],
        forall|k: int|
            old(out)@.len() <= k < final (out)@.len() ==> is_insert_of(
                alphabet@,
                word@,
                #[trigger] final (out)@[k]@,
            ),
        forall|i: int, c: char|
            0 <= i <= word@.len() && alphabet@.contains(c) ==> list_has(
                final (out)@,
                insert_at(word@, i, c),
            ),
{
    let n = word.unicode_len();
    let ghost base = out@;
    let mut i: usize = 0;
    while i < n
        invariant
            n == word@.len(),
            i <= n,
            out@.len() as int == base.len() as int + i as int * alphabet@.len() as int,
            forall|k: int| 0 <= k < base.len() ==> out@[k] == base[k],
            forall|k: int|
                base.len() <= k < out@.len() ==> is_insert_of(alphabet@, word@, #[trigger] out@[k]@),
            forall|i2: int, j: int|
                0 <= i2 < i && 0 <= j < alphabet@.len() ==> list_has(
                    out@,
                    insert_at(word@, i2, alphabet@[j]),
                ),
        decreases n - i,
    {
        let ghost prev = out@;
        push_insert_row(word, alphabet, i, out);
        proof {
            assert((i as int + 1) * alphabet@.len() as int == i as int * alphabet@.len() as int
                + alphabet@.len() as int) by (nonlinear_arith);
            assert forall|i2: int, j: int|
                0 <= i2 < i + 1 && 0 <= j < alphabet@.len() implies list_has(
                out@,
                insert_at(word@, i2, alphabet@[j]),
            ) by {
                if i2 < i {
                    lemma_has_prefix(prev, out@, insert_at(word@, i2, alphabet@[j]));
                }
            }
        }
        i += 1;
    }
    let ghost prev = out@;
    push_insert_row(word, alphabet, n, out);
    proof {
        assert((word@.len() + 1) as int * alphabet@.len() as int == word@.len() as int
            * alphabet@.len() as int + alphabet@.len() as int) by (nonlinear_arith);
        assert forall|i2: int, c: char|
            0 <= i2 <= word@.len() && alphabet@.contains(c) implies list_has(
            out@,
            insert_at(word@, i2, c),
        ) by {
            let j = choose|j: int| 0 <= j < alphabet@.len() && #[trigger] alphabet@[j] == c;
            if i2 < word@.len() {
                lemma_has_prefix(prev, out@, insert_at(word@, i2, alphabet@[j]));
            } else {
                assert(list_has(out@, insert_at(word@, word@.len() as int, alphabet@[j])));
            }
        }
    }
}

/// Generates every word exactly one edit away from `word`, without repeats.
pub fn edits1_list(word: &str, alphabet: &str) -> (r: Vec<String>)
    ensures
        forall|v: Seq<char>| #[trigger] list_has(r@, v) <==> is_edit1(alphabet@, word@, v),
        list_nodup(r@),
        word@.len() >= 1 ==> r@.len() as int <= word@.len() + (2 * word@.len() + 1)
            * alphabet@.len() + (word@.len() - 1),
        word@.len() == 0 ==> r@.len() <= alphabet@.len(),
        forall|k: int|
            0 <= k < r@.len() ==> ((#[trigger] r@[k]@).len() + 1 == word@.len() || r@[k]@.len()
                == word@.len() || r@[k]@.len() == word@.len() + 1),
{
    let mut raw: Vec<String> = Vec::new();
    push_deletes(word, &mut raw);
    let ghost s1 = raw@;
    push_transposes(word, &mut raw);
    let ghost s2 = raw@;
    push_replaces(word, alphabet, &mut raw);
    let ghost s3 = raw@;
    push_inserts(word, alphabet, &mut raw);
    let ghost s4 = raw@;
    proof {
        assert forall|k: int| 0 <= k < s1.len() implies s4[k] == s1[k] by {
            assert(s2[k] == s1[k]);
            assert(s3[k] == s2[k]);
            assert(s4[k] == s3[k]);
        }
        assert forall|k: int| 0 <= k < s2.len() implies s4[k] == s2[k] by {
            assert(s3[k] == s2[k]);
            assert(s4[k] == s3[k]);
        }
        assert forall|k: int| 0 <= k < s4.len() implies is_edit1(
            alphabet@,
            word@,
            #[trigger] s4[k]@,
        ) by {
            if k < s1.len() {
                assert(is_delete_of(word@, s1[k]@));
            } else if k < s2.len() {
                assert(is_transpose_of(word@, s2[k]@));
            } else if k < s3.len() {
                assert(is_replace_of(alphabet@, word@, s3[k]@));
            } else {
                assert(is_insert_of(alphabet@, word@, s4[k]@));
            }
        }
        assert forall|v: Seq<char>| is_edit1(alphabet@, word@, v) implies list_has(s4, v) by {
            if is_delete_of(word@, v) {
                let i = choose|i: int| 0 <= i < word@.len() && v == #[trigger] delete_at(word@, i);
                assert(list_has(s1, delete_at(word@, i)));
                lemma_has_prefix(s1, s4, v);
            } else if is_transpose_of(word@, v) {
                let i = choose|i: int|
                    0 <= i && i + 1 < word@.len() && v == #[trigger] transpose_at(word@, i);
                assert(list_has(s2, transpose_at(word@, i)));
                lemma_has_prefix(s2, s4, v);
            } else if is_replace_of(alphabet@, word@, v) {
                let (i, c) = choose|i: int, c: char|
                    0 <= i < word@.len() && alphabet@.contains(c) && v == #[trigger] replace_at(
                        word@,
                        i,
                        c,
                    );
                assert(list_has(s3, replace_at(word@, i, c)));
                lemma_has_prefix(s3, s4, v);
            } else {
                let (i, c) = choose|i: int, c: char|
                    0 <= i <= word@.len() && alphabet@.contains(c) && v == #[trigger] insert_at(
                        word@,
                        i,
                        c,
                    );
                assert(list_has(s4, insert_at(word@, i, c)));
            }
        }
    }
    let r = dedup_list(&raw);
    proof {
        let n = word@.len() as int;
        let an = alphabet@.len() as int;
        if n >= 1 {
            assert(s4.len() as int == n + (n - 1) + n * an + (n + 1) * an);
            assert(n * an + (n + 1) * an == (2 * n + 1) * an) by (nonlinear_arith);
        } else {
            assert(s4.len() as int == 1 * an);
            assert(1 * an == an) by (nonlinear_arith);
        }
        assert forall|k: int|
            0 <= k < r@.len() implies ((#[trigger] r@[k]@).len() + 1 == word@.len() || r@[k]@.len()
            == word@.len() || r@[k]@.len() == word@.len() + 1) by {
            assert(list_has(r@, r@[k]@));
            lemma_edit1_length(alphabet@, word@, r@[k]@);
        }
    }
    r
}

} // verus!
