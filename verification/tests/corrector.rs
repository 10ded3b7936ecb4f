use spell::FrequencyTable;
use spell::SpellingCorrector;

fn has(list: &Vec<String>, w: &str) -> bool {
    list.iter().any(|x| x == w)
}

#[test]
fn known_word_is_its_own_correction() {
    let sc = SpellingCorrector::new("the cat sat on the mat");
    assert_eq!(sc.correction("the"), "the");
    assert_eq!(sc.correction("cat"), "cat");
    assert_eq!(sc.correction("mat"), "mat");
}

#[test]
fn correction_of_known_word_is_a_fixed_point() {
    let sc = SpellingCorrector::new("spelling bee");
    let once = sc.correction("spelling");
    let twice = sc.correction(&once);
    assert_eq!(once, "spelling");
    assert_eq!(twice, once);
}

#[test]
fn highest_frequency_candidate_wins() {
    let mut text = String::new();
    for _ in 0..100 {
        text.push_str("the ");
    }
    for _ in 0..50 {
        text.push_str("this ");
    }
    for _ in 0..30 {
        text.push_str("that ");
    }
    let sc = SpellingCorrector::new(&text);
    assert_eq!(sc.correction("teh"), "the");
}

#[test]
fn single_insert_is_found() {
    let mut text = String::new();
    for _ in 0..10 {
        text.push_str("spelling ");
    }
    let sc = SpellingCorrector::new(&text);
    assert_eq!(sc.correction("speling"), "spelling");
}

#[test]
fn unknown_word_far_from_vocabulary_is_returned_unchanged() {
    let sc = SpellingCorrector::new("spelling spelling");
    assert_eq!(sc.correction("qqqqqqqq"), "qqqqqqqq");
}

#[test]
fn empty_word_edits_are_single_insertions() {
    let sc = SpellingCorrector::new("spelling");
    let e1 = sc.edits1("");
    assert_eq!(e1.len(), 26);
    for w in &e1 {
        assert_eq!(w.chars().count(), 1);
    }
    assert!(has(&e1, "a"));
    assert!(has(&e1, "z"));
}

#[test]
fn empty_word_falls_back_to_itself() {
    let sc = SpellingCorrector::new("spelling corrector");
    assert_eq!(sc.correction(""), "");
}

#[test]
fn edits1_families_are_all_present() {
    let sc = SpellingCorrector::new("irrelevant");
    let e1 = sc.edits1("ab");
    assert!(has(&e1, "b"), "delete of the first character");
    assert!(has(&e1, "a"), "delete of the second character");
    assert!(has(&e1, "ba"), "transposition");
    assert!(has(&e1, "cb"), "replacement");
    assert!(has(&e1, "abz"), "insertion");
    assert!(!has(&e1, "xyz"));
}

#[test]
fn edits1_respects_the_size_bound_and_lengths() {
    let sc = SpellingCorrector::new("irrelevant");
    let word = "ab";
    let e1 = sc.edits1(word);
    let n = word.len();
    assert!(e1.len() <= n + (2 * n + 1) * 26 + (n - 1));
    for w in &e1 {
        let l = w.chars().count();
        assert!(l == n - 1 || l == n || l == n + 1);
    }
}

#[test]
fn edits1_has_no_duplicates() {
    let sc = SpellingCorrector::new("irrelevant");
    let mut e1 = sc.edits1("somthing");
    let before = e1.len();
    assert_eq!(before, 442);
    e1.sort();
    e1.dedup();
    assert_eq!(e1.len(), before);
}

#[test]
fn edits2_reaches_two_edits_away() {
    let sc = SpellingCorrector::new("irrelevant");
    let e2 = sc.edits2("a");
    assert!(has(&e2, "b"), "delete then insert");
    assert!(has(&e2, "aaa"), "two insertions");
    assert!(has(&e2, "a"), "insert then delete comes back");
}

#[test]
fn distance_two_correction_is_found() {
    let sc = SpellingCorrector::new("corrected corrected");
    assert_eq!(sc.correction("correctd"), "corrected");
    assert_eq!(sc.correction("corectd"), "corrected");
}

#[test]
fn distance_one_beats_distance_two() {
    let mut text = String::new();
    for _ in 0..1000 {
        text.push_str("cat ");
    }
    text.push_str("car");
    let sc = SpellingCorrector::new(&text);
    assert_eq!(sc.correction("carr"), "car");
}

#[test]
fn ties_break_to_the_lexicographically_smallest() {
    let sc = SpellingCorrector::new("ab aa");
    assert_eq!(sc.correction("ac"), "aa");
    let sc2 = SpellingCorrector::new("ba aa");
    assert_eq!(sc2.correction("ca"), "aa");
}

#[test]
fn known_filters_and_deduplicates() {
    let sc = SpellingCorrector::new("the cat");
    let words = vec![
        String::from("the"),
        String::from("the"),
        String::from("dog"),
        String::from("cat"),
    ];
    let k = sc.known(&words);
    assert_eq!(k.len(), 2);
    assert!(has(&k, "the"));
    assert!(has(&k, "cat"));
    assert!(!has(&k, "dog"));
}

#[test]
fn candidates_are_never_empty() {
    let sc = SpellingCorrector::new("something");
    assert!(sc.candidates("something").len() >= 1);
    assert!(sc.candidates("somthing").len() >= 1);
    assert!(sc.candidates("zzzzzzzz").len() >= 1);
    assert!(sc.candidates("").len() >= 1);
}

#[test]
fn candidates_follow_the_waterfall() {
    let sc = SpellingCorrector::new("the then than");
    let tier1 = sc.candidates("the");
    assert_eq!(tier1, vec![String::from("the")]);
    let tier2 = sc.candidates("thn");
    assert!(has(&tier2, "then") || has(&tier2, "than") || has(&tier2, "the"));
    for w in &tier2 {
        assert!(w == "the" || w == "then" || w == "than");
    }
    let tier4 = sc.candidates("informatics");
    assert_eq!(tier4, vec![String::from("informatics")]);
}

#[test]
fn table_counts_lowercased_tokens() {
    let t = FrequencyTable::build("The the THE cat");
    assert_eq!(t.count("the"), 3);
    assert_eq!(t.count("cat"), 1);
    assert_eq!(t.count("dog"), 0);
    assert_eq!(t.count("The"), 0);
}

#[test]
fn tokenizer_splits_on_non_word_characters() {
    let t = FrequencyTable::build("it's a test, a_b 42; a test!");
    assert_eq!(t.count("it"), 1);
    assert_eq!(t.count("s"), 1);
    assert_eq!(t.count("a"), 2);
    assert_eq!(t.count("test"), 2);
    assert_eq!(t.count("a_b"), 1);
    assert_eq!(t.count("42"), 1);
    assert_eq!(t.count("it's"), 0);
}

#[test]
fn empty_corpus_knows_nothing() {
    let t = FrequencyTable::build("");
    assert_eq!(t.count("anything"), 0);
    let sc = SpellingCorrector::new("");
    assert_eq!(sc.correction("word"), "word");
    assert_eq!(sc.candidates("word"), vec![String::from("word")]);
}

#[test]
fn custom_alphabet_limits_the_edits() {
    let sc = SpellingCorrector::with_alphabet("xy yy", "xy");
    assert_eq!(sc.correction("xx"), "xy");
    let e1 = sc.edits1("x");
    assert!(has(&e1, "xy"));
    assert!(!has(&e1, "xa"));
}

#[test]
fn case_of_the_query_is_not_folded() {
    let sc = SpellingCorrector::new("word word");
    assert_eq!(sc.correction("word"), "word");
    assert_eq!(sc.correction("word"), sc.correction("wodr"));
    assert_eq!(sc.correction("Word"), "word");
}
