//! The corrector.
//!
//! A corrector owns an alphabet and a frequency table built from a corpus.
//! For a given word it selects the candidate pool by a strict waterfall —
//! the word itself if known, else the known words one edit away, else the
//! known words two edits away, else the word unchanged — and returns the
//! candidate with the highest occurrence count, breaking ties towards the
//! lexicographically smallest candidate.

use crate::edits::edits1_list;
use crate::edits::is_edit1;
use crate::edits::is_edit2;
use crate::table::lowered_tokens;
use crate::table::occurrences;
use crate::table::FrequencyTable;
use crate::words::lemma_has_prefix;
use crate::words::lemma_lex_lt_connected;
use crate::words::lemma_lex_lt_transitive;
use crate::words::lex_leq;
use crate::words::list_contains;
use crate::words::list_has;
use crate::words::list_nodup;
use crate::words::str_lex_lt;
use vstd::prelude::*;
use vstd::string::StringExecFns;

verus! {

/// A spelling corrector: an alphabet for edit generation and a frequency
/// table of the corpus it was built from.
pub struct SpellingCorrector {
    /// The letters used for replacements and insertions, in order.
    pub alphabet: String,
    /// The word-frequency model of the corpus.
    pub freqmap: FrequencyTable,
}

impl SpellingCorrector {
    /// The corrector is well formed: its table is.
    pub open spec fn wf(self) -> bool {
        self.freqmap.wf()
    }

    /// The word `w` occurs in the corpus vocabulary.
    pub open spec fn is_known(self, w: Seq<char>) -> bool {
        self.freqmap.is_known(w)
    }

    /// The occurrence count of `w`, 0 if unknown.
    pub open spec fn freq(self, w: Seq<char>) -> u64 {
        self.freqmap.freq(w)
    }

    /// Some known word lies one edit away from `w`.
    pub open spec fn has_known_edit1(self, w: Seq<char>) -> bool {
        exists|v: Seq<char>| #[trigger] is_edit1(self.alphabet@, w, v) && self.is_known(v)
    }

    /// Some known word lies two edits away from `w`.
    pub open spec fn has_known_edit2(self, w: Seq<char>) -> bool {
        exists|v: Seq<char>| #[trigger] is_edit2(self.alphabet@, w, v) && self.is_known(v)
    }

    /// The candidate pool for `w`: the word itself if known; else every known
    /// word one edit away, if any; else every known word two edits away, if
    /// any; else the word unchanged. An earlier non-empty tier shuts out the
    /// later ones.
    pub open spec fn candidate_set(self, w: Seq<char>) -> Set<Seq<char>> {
        if self.is_known(w) {
            set![w]
        } else if self.has_known_edit1(w) {
            Set::new(|v: Seq<char>| is_edit1(self.alphabet@, w, v) && self.is_known(v))
        } else if self.has_known_edit2(w) {
            Set::new(|v: Seq<char>| is_edit2(self.alphabet@, w, v) && self.is_known(v))
        } else {
            set![w]
        }
    }

    /// Creates a corrector over a user-given alphabet, with its frequency
    /// table built from `text`.
    pub fn with_alphabet(text: &str, alphabet: &str) -> (r: SpellingCorrector)
        ensures
            r.wf(),
            r.alphabet@ == alphabet@,
            forall|w: Seq<char>|
                #[trigger] r.is_known(w) <==> occurrences(lowered_tokens(text@), w) > 0,
            forall|w: Seq<char>|
                (#[trigger] r.freq(w)) as nat == occurrences(lowered_tokens(text@), w),
    {
        SpellingCorrector {
            alphabet: String::from_str(alphabet),
            freqmap: FrequencyTable::build(text),
        }
    }

    /// Creates a corrector with the 26 lowercase Latin letters as alphabet,
    /// with its frequency table built from `text`.
    pub fn new(text: &str) -> (r: SpellingCorrector)
        ensures
            r.wf(),
            r.alphabet@ == "abcdefghijklmnopqrstuvwxyz"@,
            forall|w: Seq<char>|
                #[trigger] r.is_known(w) <==> occurrences(lowered_tokens(text@), w) > 0,
            forall|w: Seq<char>|
                (#[trigger] r.freq(w)) as nat == occurrences(lowered_tokens(text@), w),
    {
        Self::with_alphabet(text, "abcdefghijklmnopqrstuvwxyz")
    }

    /// The occurrence count of `w` in the corpus, 0 if unknown.
    fn freq_word(&self, w: &String) -> (r: u64)
        requires
            self.wf(),
        ensures
            r == self.freq(w@),
    {
        match self.freqmap.index_of(w) {
            Some(i) => self.freqmap.counts[i],
            None => 0,
        }
    }

    /// The subset of the given words that the corpus knows, without repeats.
    pub fn known(&self, candidates: &Vec<String>) -> (r: Vec<String>)
        requires
            self.wf(),
        ensures
            forall|v: Seq<char>|
                #[trigger] list_has(r@, v) <==> (list_has(candidates@, v) && self.is_known(v)),
            list_nodup(r@),
    {
        let mut r: Vec<String> = Vec::new();
        let mut i: usize = 0;
        while i < candidates.len()
            invariant
                self.wf(),
                i <= candidates@.len(),
                list_nodup(r@),
                forall|v: Seq<char>|
                    #[trigger] list_has(r@, v) ==> (list_has(candidates@, v) && self.is_known(
                        v,
                    )),
                forall|k: int|
                    0 <= k < i && self.is_known((#[trigger] candidates@[k])@) ==> list_has(
                        r@,
                        candidates@[k]@,
                    ),
            decreases candidates@.len() - i,
        {
            let ghost prev = r@;
            let kn = match self.freqmap.index_of(&candidates[i]) {
                Some(_) => true,
                None => false,
            };
            proof {
                assert(kn == self.is_known(candidates@[i as int]@));
                assert(list_has(candidates@, candidates@[i as int]@)) by {
                    let wi = i as int;
                    assert(0 <= wi < candidates@.len() && candidates@[wi]@ == candidates@[wi]@);
                }
            }
            let dup = list_contains(&r, &candidates[i]);
            if kn && !dup {
                let c = candidates[i].clone();
                proof {
                    assert(c@ == candidates@[i as int]@);
                }
                r.push(c);
                proof {
                    assert(r@[r@.len() - 1]@ == candidates@[i as int]@);
                }
            }
            proof {
                assert forall|k: int|
                    0 <= k < i + 1 && self.is_known((#[trigger] candidates@[k])@) implies list_has(
                    r@,
                    candidates@[k]@,
                ) by {
                    if k < i {
                        lemma_has_prefix(prev, r@, candidates@[k]@);
                    } else {
                        if !dup {
                            assert(r@[r@.len() - 1]@ == candidates@[k]@);
                        } else {
                            lemma_has_prefix(prev, r@, candidates@[k]@);
                        }
                    }
                }
                assert forall|v: Seq<char>| #[trigger] list_has(r@, v) implies (list_has(
                    candidates@,
                    v,
                ) && self.is_known(v)) by {
                    let j = choose|j: int| 0 <= j < r@.len() && #[trigger] r@[j]@ == v;
                    if j < prev.len() {
                        assert(list_has(prev, v));
                        assert(list_has(candidates@, v));
                        assert(self.is_known(v));
                    } else {
                        assert(r@[j]@ == candidates@[i as int]@);
                        assert(v == candidates@[i as int]@);
                        assert(list_has(candidates@, v));
                        assert(self.is_known(v));
                    }
                }
            }
            i += 1;
        }
        proof {
            assert forall|v: Seq<char>|
                list_has(candidates@, v) && self.is_known(v) implies list_has(r@, v) by {
                let k = choose|k: int| 0 <= k < candidates@.len() && #[trigger] candidates@[k]@
                    == v;
                assert(list_has(r@, candidates@[k]@));
            }
        }
        r
    }

    /// Every word exactly one edit away from `word` over the corrector's
    /// alphabet, without repeats. Generated words are at most one character
    /// shorter or longer than `word`, and for a non-empty word the list stays
    /// within the raw generation count of the four edit families.
    pub fn edits1(&self, word: &str) -> (r: Vec<String>)
        ensures
            forall|v: Seq<char>|
                #[trigger] list_has(r@, v) <==> is_edit1(self.alphabet@, word@, v),
            list_nodup(r@),
            word@.len() >= 1 ==> r@.len() as int <= word@.len() + (2 * word@.len() + 1)
                * self.alphabet@.len() + (word@.len() - 1),
            word@.len() == 0 ==> r@.len() <= self.alphabet@.len(),
            forall|k: int|
                0 <= k < r@.len() ==> ((#[trigger] r@[k]@).len() + 1 == word@.len() || r@[k]@.len()
                    == word@.len() || r@[k]@.len() == word@.len() + 1),
    {
        edits1_list(word, self.alphabet.as_str())
    }

    /// Every word reachable from `word` by two single edits: the one-edit
    /// neighbours of every one-edit neighbour, concatenated, repeats kept.
    pub fn edits2(&self, word: &str) -> (r: Vec<String>)
        ensures
            forall|v: Seq<char>|
                #[trigger] list_has(r@, v) <==> is_edit2(self.alphabet@, word@, v),
    {
        let e1 = self.edits1(word);
        let mut r: Vec<String> = Vec::new();
        let mut i: usize = 0;
        while i < e1.len()
            invariant
                forall|v: Seq<char>|
                    #[trigger] list_has(e1@, v) <==> is_edit1(self.alphabet@, word@, v),
                i <= e1@.len(),
                forall|v: Seq<char>|
                    #[trigger] list_has(r@, v) <==> exists|j: int|
                        0 <= j < i && is_edit1(self.alphabet@, (#[trigger] e1@[j])@, v),
            decreases e1@.len() - i,
        {
            let ghost prev = r@;
            let mut e = self.edits1(e1[i].as_str());
            let ghost enew = e@;
            r.append(&mut e);
            proof {
                assert forall|v: Seq<char>| list_has(r@, v) implies exists|j: int|
                    0 <= j < i + 1 && is_edit1(self.alphabet@, (#[trigger] e1@[j])@, v) by {
                    let k = choose|k: int| 0 <= k < r@.len() && #[trigger] r@[k]@ == v;
                    if k < prev.len() {
                        assert(list_has(prev, v));
                        let j = choose|j: int|
                            0 <= j < i && is_edit1(self.alphabet@, (#[trigger] e1@[j])@, v);
                        assert(is_edit1(self.alphabet@, e1@[j]@, v));
                    } else {
                        assert(r@[k] == enew[k - prev.len()]);
                        assert(list_has(enew, v));
                        assert(is_edit1(self.alphabet@, e1@[i as int]@, v));
                    }
                }
                assert forall|v: Seq<char>|
                    (exists|j: int|
                        0 <= j < i + 1 && is_edit1(
                            self.alphabet@,
                            (#[trigger] e1@[j])@,
                            v,
                        )) implies list_has(r@, v) by {
                    let j = choose|j: int|
                        0 <= j < i + 1 && is_edit1(self.alphabet@, (#[trigger] e1@[j])@, v);
                    if j < i {
                        assert(list_has(prev, v));
                        lemma_has_prefix(prev, r@, v);
                    } else {
                        assert(list_has(enew, v));
                        let k = choose|k: int| 0 <= k < enew.len() && #[trigger] enew[k]@ == v;
                        assert(r@[prev.len() + k]@ == v);
                    }
                }
            }
            i += 1;
        }
        proof {
            assert forall|v: Seq<char>| list_has(r@, v) implies is_edit2(
                self.alphabet@,
                word@,
                v,
            ) by {
                let j = choose|j: int|
                    0 <= j < e1@.len() && is_edit1(self.alphabet@, (#[trigger] e1@[j])@, v);
                assert(list_has(e1@, e1@[j]@));
                assert(is_edit1(self.alphabet@, word@, e1@[j]@));
            }
            assert forall|v: Seq<char>| is_edit2(self.alphabet@, word@, v) implies list_has(
                r@,
                v,
            ) by {
                let m = choose|m: Seq<char>| #[trigger] is_edit1(self.alphabet@, word@, m)
                    && is_edit1(self.alphabet@, m, v);
                assert(list_has(e1@, m));
                let j = choose|j: int| 0 <= j < e1@.len() && #[trigger] e1@[j]@ == m;
                assert(is_edit1(self.alphabet@, (e1@[j])@, v));
            }
        }
        r
    }

    /// The candidate pool for `word` as a list without repeats: the word
    /// itself if known, else the known words one edit away, else the known
    /// words two edits away, else the word unchanged. Never empty.
    pub fn candidates(&self, word: &str) -> (r: Vec<String>)
        requires
            self.wf(),
        ensures
            forall|v: Seq<char>|
                #[trigger] list_has(r@, v) <==> self.candidate_set(word@).contains(v),
            list_nodup(r@),
            r@.len() >= 1,
    {
        let w = String::from_str(word);
        let kn = match self.freqmap.index_of(&w) {
            Some(_) => true,
            None => false,
        };
        if kn {
            let mut r: Vec<String> = Vec::new();
            r.push(w);
            proof {
                assert(r@[0]@ == word@);
                assert forall|v: Seq<char>| #[trigger] list_has(r@, v) implies self.candidate_set(
                    word@,
                ).contains(v) by {
                    let j = choose|j: int| 0 <= j < r@.len() && #[trigger] r@[j]@ == v;
                    assert(v == word@);
                }
                assert(list_has(r@, word@));
            }
            return r;
        }
        let e1 = self.edits1(word);
        let k1 = self.known(&e1);
        if k1.len() > 0 {
            proof {
                assert(list_has(k1@, k1@[0]@));
                assert(self.has_known_edit1(word@)) by {
                    assert(is_edit1(self.alphabet@, word@, k1@[0]@) && self.is_known(k1@[0]@));
                }
                assert forall|v: Seq<char>| #[trigger] list_has(k1@, v) implies self.candidate_set(
                    word@,
                ).contains(v) by {
                    assert(is_edit1(self.alphabet@, word@, v) && self.is_known(v));
                }
                assert forall|v: Seq<char>|
                    self.candidate_set(word@).contains(v) implies list_has(k1@, v) by {
                    assert(is_edit1(self.alphabet@, word@, v) && self.is_known(v));
                    assert(list_has(e1@, v));
                }
            }
            return k1;
        }
        proof {
            assert(!self.has_known_edit1(word@)) by {
                if self.has_known_edit1(word@) {
                    let v = choose|v: Seq<char>| #[trigger] is_edit1(self.alphabet@, word@, v)
                        && self.is_known(v);
                    assert(list_has(e1@, v));
                    assert(list_has(k1@, v));
                    let j = choose|j: int| 0 <= j < k1@.len() && #[trigger] k1@[j]@ == v;
                }
            }
        }
        let e2 = self.edits2(word);
        let k2 = self.known(&e2);
        if k2.len() > 0 {
            proof {
                assert(list_has(k2@, k2@[0]@));
                assert(self.has_known_edit2(word@)) by {
                    assert(is_edit2(self.alphabet@, word@, k2@[0]@) && self.is_known(k2@[0]@));
                }
                assert forall|v: Seq<char>| #[trigger] list_has(k2@, v) implies self.candidate_set(
                    word@,
                ).contains(v) by {
                    assert(is_edit2(self.alphabet@, word@, v) && self.is_known(v));
                }
                assert forall|v: Seq<char>|
                    self.candidate_set(word@).contains(v) implies list_has(k2@, v) by {
                    assert(is_edit2(self.alphabet@, word@, v) && self.is_known(v));
                    assert(list_has(e2@, v));
                }
            }
            return k2;
        }
        proof {
            assert(!self.has_known_edit2(word@)) by {
                if self.has_known_edit2(word@) {
                    let v = choose|v: Seq<char>| #[trigger] is_edit2(self.alphabet@, word@, v)
                        && self.is_known(v);
                    assert(list_has(e2@, v));
                    assert(list_has(k2@, v));
                    let j = choose|j: int| 0 <= j < k2@.len() && #[trigger] k2@[j]@ == v;
                }
            }
        }
        let mut r: Vec<String> = Vec::new();
        r.push(String::from_str(word));
        proof {
            assert(r@[0]@ == word@);
            assert forall|v: Seq<char>| #[trigger] list_has(r@, v) implies self.candidate_set(
                word@,
            ).contains(v) by {
                let j = choose|j: int| 0 <= j < r@.len() && #[trigger] r@[j]@ == v;
                assert(v == word@);
            }
            assert(list_has(r@, word@));
        }
        r
    }

    /// The most probable correction of `word`: a candidate from the pool with
    /// the highest occurrence count, the lexicographically smallest such
    /// candidate if several share it. The table never changes, so ranking by
    /// count orders the candidates exactly as their empirical probabilities
    /// would. A known word is returned unchanged, and only the empty word can
    /// ever come back empty.
    pub fn correction(&self, word: &str) -> (r: String)
        requires
            self.wf(),
        ensures
            self.candidate_set(word@).contains(r@),
            forall|v: Seq<char>|
                self.candidate_set(word@).contains(v) ==> self.freq(v) <= self.freq(r@),
            forall|v: Seq<char>|
                self.candidate_set(word@).contains(v) && self.freq(v) == self.freq(r@)
                    ==> lex_leq(r@, v),
            self.is_known(word@) ==> r@ == word@,
            r@.len() == 0 ==> r@ == word@,
    {
        let cs = self.candidates(word);
        let best0 = cs[0].clone();
        proof {
            assert(best0@ == cs@[0]@);
            assert(list_has(cs@, best0@)) by {
                assert(cs@[0]@ == best0@);
            }
        }
        let mut best: String = best0;
        let mut best_f: u64 = self.freq_word(&best);
        let mut k: usize = 1;
        while k < cs.len()
            invariant
                self.wf(),
                cs@.len() >= 1,
                1 <= k <= cs@.len() || k == 1,
                forall|v: Seq<char>|
                    #[trigger] list_has(cs@, v) <==> self.candidate_set(word@).contains(v),
                list_has(cs@, best@),
                best_f == self.freq(best@),
                forall|j: int| 0 <= j < k ==> self.freq((#[trigger] cs@[j])@) <= best_f,
                forall|j: int|
                    0 <= j < k && self.freq((#[trigger] cs@[j])@) == best_f ==> lex_leq(
                        best@,
                        cs@[j]@,
                    ),
            decreases cs@.len() - k,
        {
            let cf = self.freq_word(&cs[k]);
            let smaller = str_lex_lt(cs[k].as_str(), best.as_str());
            let better = cf > best_f || (cf == best_f && smaller);
            let ghost old_best = best@;
            let ghost old_bf = best_f;
            if better {
                let c = cs[k].clone();
                proof {
                    assert(c@ == cs@[k as int]@);
                }
                best = c;
                best_f = cf;
                proof {
                    assert(list_has(cs@, best@)) by {
                        assert(cs@[k as int]@ == best@);
                    }
                }
            }
            proof {
                assert forall|j: int|
                    0 <= j < k + 1 && self.freq((#[trigger] cs@[j])@) == best_f implies lex_leq(
                    best@,
                    cs@[j]@,
                ) by {
                    if better {
                        if j < k {
                            if cf == old_bf {
                                lemma_lex_lt_transitive(best@, old_best, cs@[j]@);
                            }
                        }
                    } else {
                        if j == k {
                            lemma_lex_lt_connected(cs@[k as int]@, best@);
                        }
                    }
                }
            }
            k += 1;
        }
        proof {
            assert(self.candidate_set(word@).contains(best@));
            assert forall|v: Seq<char>|
                self.candidate_set(word@).contains(v) implies self.freq(v) <= self.freq(
                best@,
            ) by {
                assert(list_has(cs@, v));
                let j = choose|j: int| 0 <= j < cs@.len() && #[trigger] cs@[j]@ == v;
                assert(self.freq(cs@[j]@) <= best_f);
            }
            assert forall|v: Seq<char>|
                self.candidate_set(word@).contains(v) && self.freq(v) == self.freq(
                best@,
            ) implies lex_leq(best@, v) by {
                assert(list_has(cs@, v));
                let j = choose|j: int| 0 <= j < cs@.len() && #[trigger] cs@[j]@ == v;
                assert(lex_leq(best@, cs@[j]@));
            }
            if self.is_known(word@) {
                assert(self.candidate_set(word@).contains(best@));
                assert(best@ == word@);
            }
            if best@ != word@ {
                assert(self.is_known(best@)) by {
                    assert(self.candidate_set(word@).contains(best@));
                }
                let ki = choose|i: int|
                    0 <= i < self.freqmap.words@.len() && (#[trigger] self.freqmap.words@[i])@
                        == best@;
                assert(self.freqmap.words@[ki]@.len() > 0);
            }
        }
        best
    }
}

} // verus!
