//! Tests of the linear-scan baseline checker and its edit distance.

use typo_checker::VecTypoChecker;
use typo_checker::vec_checker::lev_distance;

fn sample_checker() -> VecTypoChecker {
    let words = ["boo", "coo", "dao", "do", "doa", "dob", "doc", "dog", "don"];
    let mut checker = VecTypoChecker::new();
    for word in words {
        checker.insert(word.to_string());
    }
    checker
}

#[test]
fn lev_distance_exact_values() {
    assert_eq!(lev_distance(b"kitten", b"sitting"), 3);
    assert_eq!(lev_distance(b"", b"abc"), 3);
    assert_eq!(lev_distance(b"abc", b""), 3);
    assert_eq!(lev_distance(b"abc", b"abc"), 0);
    assert_eq!(lev_distance(b"doo", b"do"), 1);
    assert_eq!(lev_distance(b"doo", b"dao"), 1);
    assert_eq!(lev_distance(b"doo", b"dob"), 1);
}

#[test]
fn vec_membership() {
    let checker = sample_checker();
    assert!(!checker.is_typo("boo"));
    assert!(!checker.is_typo("do"));
    assert!(checker.is_typo("doo"));
    assert!(checker.is_typo("zebra"));
}

#[test]
fn vec_suggestions_follow_edit_distance() {
    // The baseline models deletions too, so unlike the trie it offers
    // "do" for "doo"; the scan stops once six words have been collected.
    let checker = sample_checker();
    let expected = ["boo", "coo", "dao", "do", "doa", "dob"];
    assert_eq!(checker.typo_suggestions("doo"), expected);
}

#[test]
fn vec_known_word_gets_no_suggestions() {
    let checker = sample_checker();
    assert_eq!(checker.typo_suggestions("dog"), Vec::<String>::new());
}

#[test]
fn vec_scan_stops_one_over_cap() {
    let mut checker = VecTypoChecker::new();
    for word in ["da", "db", "dc", "dd", "de", "df", "dg", "dh"] {
        checker.insert(word.to_string());
    }
    let suggestions = checker.typo_suggestions("dx");
    assert_eq!(suggestions, ["da", "db", "dc", "dd", "de", "df"]);
}

#[test]
fn vec_default_is_empty() {
    let checker = VecTypoChecker::default();
    assert!(checker.is_typo("a"));
}
