//! The frequency model builder.
//!
//! Raw text is tokenized into maximal runs of word characters, each run is
//! taken to lowercase, and the runs are counted. The table maps each distinct
//! lowercased run to the number of times it occurs; words that do not occur
//! are absent. Tokenization and lowercasing are performed by outside code and
//! are named by the uninterpreted functions `tokens_of` and `lower_of`; the
//! counting itself is verified against them.

use vstd::prelude::*;
use vstd::string::StringExecFns;

verus! {

/// The maximal runs of word characters in a text, in order of occurrence.
pub uninterp spec fn tokens_of(text: Seq<char>) -> Seq<Seq<char>>;

/// The lowercase form of a string.
pub uninterp spec fn lower_of(w: Seq<char>) -> Seq<char>;

/// The tokens of a text, each taken to lowercase.
pub open spec fn lowered_tokens(text: Seq<char>) -> Seq<Seq<char>> {
    tokens_of(text).map_values(|t: Seq<char>| lower_of(t))
}

/// How often the word `w` occurs among the tokens `ts`.
pub open spec fn occurrences(ts: Seq<Seq<char>>, w: Seq<char>) -> nat
    decreases ts.len(),
{
    if ts.len() == 0 {
        0
    } else {
        occurrences(ts.drop_last(), w) + (if ts.last() == w {
            1nat
        } else {
            0nat
        })
    }
}

/// Counting one more token adds one exactly when that token is the word.
proof fn lemma_occurrences_step(ts: Seq<Seq<char>>, w: Seq<char>, i: int)
    requires
        0 <= i < ts.len(),
    ensures
        occurrences(ts.take(i + 1), w) == occurrences(ts.take(i), w) + (if ts[i] == w {
            1nat
        } else {
            0nat
        }),
{
    assert(ts.take(i + 1).drop_last() =~= ts.take(i));
    assert(ts.take(i + 1).last() == ts[i]);
}

/// Relies on regex::Regex::new and regex::Regex::find_iter: the pattern
/// `\w+` is valid, and the iterator yields the successive non-overlapping
/// maximal runs of word characters of the text, each non-empty, determined
/// by the text alone.
#[verifier::external_body]
fn find_word_runs(text: &str) -> (r: Vec<String>)
    ensures
        r@.map_values(|t: String| t@) == tokens_of(text@),
        r@.len() <= text@.len(),
        forall|k: int| 0 <= k < r@.len() ==> (#[trigger] r@[k])@.len() > 0,
{
    let re = regex::Regex::new(r"\w+").unwrap();
    re.find_iter(text).map(|m| m.as_str().to_string()).collect()
}

/// Relies on str::to_lowercase: the result is determined by the characters
/// alone, and a non-empty string stays non-empty.
#[verifier::external_body]
fn lowercase(s: &str) -> (r: String)
    ensures
        r@ == lower_of(s@),
        s@.len() > 0 ==> r@.len() > 0,
{
    s.to_lowercase()
}

/// A mapping from words to positive occurrence counts.
///
/// The entry for `words[i]` is `counts[i]`; keys are distinct and non-empty.
pub struct FrequencyTable {
    /// The known words, each spelled once.
    pub words: Vec<String>,
    /// The occurrence count of each word, positive, at the same position.
    pub counts: Vec<u64>,
}

impl FrequencyTable {
    /// The table is well formed: one positive count per word, keys distinct
    /// and non-empty.
    pub open spec fn wf(self) -> bool {
        &&& self.words@.len() == self.counts@.len()
        &&& forall|i: int, j: int|
            0 <= i < j < self.words@.len() ==> self.words@[i]@ != self.words@[j]@
        &&& forall|i: int| 0 <= i < self.words@.len() ==> (#[trigger] self.words@[i])@.len() > 0
        &&& forall|i: int| 0 <= i < self.counts@.len() ==> #[trigger] self.counts@[i] >= 1
    }

    /// The word `w` has an entry in the table.
    pub open spec fn is_known(self, w: Seq<char>) -> bool {
        exists|i: int| 0 <= i < self.words@.len() && (#[trigger] self.words@[i])@ == w
    }

    /// The position of the entry of a known word `w`.
    pub open spec fn key_at(self, w: Seq<char>) -> int {
        choose|i: int| 0 <= i < self.words@.len() && (#[trigger] self.words@[i])@ == w
    }

    /// The occurrence count recorded for `w`: its entry if one exists, else 0.
    pub open spec fn freq(self, w: Seq<char>) -> u64 {
        if self.is_known(w) {
            self.counts@[self.key_at(w)]
        } else {
            0
        }
    }

    /// In a well-formed table the entry of `w` at position `i` is the only
    /// one, so `freq` reads exactly it.
    pub proof fn lemma_key_at(self, w: Seq<char>, i: int)
        requires
            self.wf(),
            0 <= i < self.words@.len(),
            self.words@[i]@ == w,
        ensures
            self.is_known(w),
            self.key_at(w) == i,
            self.freq(w) == self.counts@[i],
    {
        assert(self.is_known(w));
        let j = self.key_at(w);
        assert(0 <= j < self.words@.len() && self.words@[j]@ == w);
        if j != i {
            assert(self.words@[i]@ != self.words@[j]@ || self.words@[j]@ != self.words@[i]@);
        }
    }

    /// Finds the position of the entry of `w`, if the word is known.
    pub fn index_of(&self, w: &String) -> (r: Option<usize>)
        requires
            self.wf(),
        ensures
            match r {
                Some(i) => i < self.words@.len() && self.words@[i as int]@ == w@ && self.is_known(
                    w@,
                ) && self.freq(w@) == self.counts@[i as int],
                None => !self.is_known(w@),
            },
    {
        let mut i: usize = 0;
        while i < self.words.len()
            invariant
                self.wf(),
                i <= self.words@.len(),
                forall|k: int| 0 <= k < i ==> (#[trigger] self.words@[k])@ != w@,
            decreases self.words@.len() - i,
        {
            if self.words[i] == *w {
                proof {
                    self.lemma_key_at(w@, i as int);
                }
                return Some(i);
            }
            i += 1;
        }
        None
    }

    /// The occurrence count of `word`: its entry if the word is known, else 0.
    pub fn count(&self, word: &str) -> (r: u64)
        requires
            self.wf(),
        ensures
            r == self.freq(word@),
    {
        let w = String::from_str(word);
        match self.index_of(&w) {
            Some(i) => self.counts[i],
            None => 0,
        }
    }

    /// Builds the table of a text: each distinct lowercased run of word
    /// characters of the text, with the number of times it occurs.
    pub fn build(text: &str) -> (r: FrequencyTable)
        ensures
            r.wf(),
            forall|w: Seq<char>|
                #[trigger] r.is_known(w) <==> occurrences(lowered_tokens(text@), w) > 0,
            forall|w: Seq<char>|
                (#[trigger] r.freq(w)) as nat == occurrences(lowered_tokens(text@), w),
    {
        let toks = find_word_runs(text);
        let ghost lts = lowered_tokens(text@);
        proof {
            assert(lts.len() == toks@.len());
        }
        let mut t = FrequencyTable { words: Vec::new(), counts: Vec::new() };
        proof {
            assert(lts.take(0) =~= Seq::<Seq<char>>::empty());
        }
        let mut i: usize = 0;
        while i < toks.len()
            invariant
                i <= toks@.len(),
                lts == lowered_tokens(text@),
                toks@.map_values(|t: String| t@) == tokens_of(text@),
                lts.len() == toks@.len(),
                forall|k: int| 0 <= k < toks@.len() ==> (#[trigger] toks@[k])@.len() > 0,
                t.wf(),
                forall|w: Seq<char>|
                    #[trigger] t.is_known(w) <==> occurrences(lts.take(i as int), w) > 0,
                forall|w: Seq<char>|
                    (#[trigger] t.freq(w)) as nat == occurrences(lts.take(i as int), w),
                forall|w: Seq<char>| #[trigger] t.freq(w) <= i,
            decreases toks@.len() - i,
        {
            let low = lowercase(toks[i].as_str());
            let ghost loww = low@;
            proof {
                assert(lts[i as int] == lower_of(toks@[i as int]@));
                assert(toks@.map_values(|t: String| t@)[i as int] == toks@[i as int]@);
                assert(loww == lts[i as int]);
                assert(loww.len() > 0);
            }
            let ghost old_t = t;
            match t.index_of(&low) {
                Some(j) => {
                    let c = t.counts[j];
                    proof {
                        assert(old_t.freq(loww) == old_t.counts@[j as int]) by {
                            old_t.lemma_key_at(loww, j as int);
                        }
                        assert(c <= i);
                    }
                    t.counts.set(j, c + 1);
                    proof {
                        assert(t.words@ == old_t.words@);
                        assert forall|w: Seq<char>| #[trigger] t.is_known(w) == old_t.is_known(
                            w,
                        ) by {}
                        assert forall|w: Seq<char>|
                            (#[trigger] t.freq(w)) as nat == occurrences(
                            lts.take(i + 1 as int),
                            w,
                        ) by {
                            lemma_occurrences_step(lts, w, i as int);
                            if w == loww {
                                t.lemma_key_at(w, j as int);
                            } else {
                                if old_t.is_known(w) {
                                    let k = old_t.key_at(w);
                                    assert(old_t.words@[k]@ == w);
                                    assert(k != j);
                                    old_t.lemma_key_at(w, k);
                                    t.lemma_key_at(w, k);
                                }
                            }
                        }
                    }
                },
                None => {
                    t.words.push(low);
                    t.counts.push(1);
                    proof {
                        assert forall|k: int|
                            0 <= k < old_t.words@.len() implies (#[trigger] old_t.words@[k])@
                            != loww by {}
                        assert(t.wf());
                        assert forall|w: Seq<char>|
                            (#[trigger] t.freq(w)) as nat == occurrences(
                            lts.take(i + 1 as int),
                            w,
                        ) by {
                            lemma_occurrences_step(lts, w, i as int);
                            if w == loww {
                                t.lemma_key_at(w, t.words@.len() - 1);
                                assert(occurrences(lts.take(i as int), w) == 0);
                            } else {
                                if old_t.is_known(w) {
                                    let k = old_t.key_at(w);
                                    assert(old_t.words@[k]@ == w);
                                    old_t.lemma_key_at(w, k);
                                    t.lemma_key_at(w, k);
                                } else {
                                    assert(!t.is_known(w)) by {
                                        if t.is_known(w) {
                                            let k = choose|k: int|
                                                0 <= k < t.words@.len() && (
                                                #[trigger] t.words@[k])@ == w;
                                            assert(k == t.words@.len() - 1 || old_t.words@[k]@
                                                == w);
                                        }
                                    }
                                }
                            }
                        }
                        assert forall|w: Seq<char>| #[trigger] t.is_known(w) <==> occurrences(
                            lts.take(i + 1 as int),
                            w,
                        ) > 0 by {
                            assert(t.freq(w) as nat == occurrences(lts.take(i + 1 as int), w));
                            if t.is_known(w) {
                                let k = choose|k: int|
                                    0 <= k < t.words@.len() && (#[trigger] t.words@[k])@ == w;
                                t.lemma_key_at(w, k);
                            }
                        }
                    }
                },
            }
            proof {
                assert forall|w: Seq<char>| #[trigger] t.freq(w) <= i + 1 by {
                    lemma_occurrences_step(lts, w, i as int);
                    assert(old_t.freq(w) as nat == occurrences(lts.take(i as int), w));
                    assert(t.freq(w) as nat == occurrences(lts.take(i + 1 as int), w));
                }
                assert forall|w: Seq<char>| #[trigger] t.is_known(w) <==> occurrences(
                    lts.take(i + 1 as int),
                    w,
                ) > 0 by {
                    assert(t.freq(w) as nat == occurrences(lts.take(i + 1 as int), w));
                    if t.is_known(w) {
                        let k = choose|k: int|
                            0 <= k < t.words@.len() && (#[trigger] t.words@[k])@ == w;
                        t.lemma_key_at(w, k);
                    }
                }
            }
            i += 1;
        }
        proof {
            assert(lts.take(lts.len() as int) =~= lts);
        }
        t
    }
}

} // verus!
