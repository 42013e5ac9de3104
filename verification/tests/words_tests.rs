use evil_hangman::words::{is_alphabetic_word, normalize_word_list};

fn words(xs: &[&str]) -> Vec<String> {
    xs.iter().map(|x| x.to_string()).collect()
}

#[test]
fn alphabetic_word_check() {
    assert!(is_alphabetic_word("abc"));
    assert!(is_alphabetic_word("ABC"));
    assert!(is_alphabetic_word("aZb"));
    assert!(!is_alphabetic_word(""));
    assert!(!is_alphabetic_word("a1"));
    assert!(!is_alphabetic_word("kiwi!"));
    assert!(!is_alphabetic_word("two words"));
}

#[test]
fn normalize_filters_sorts_and_dedups() {
    let lines = words(&["apple", "Banana", "kiwi!", "apple", "zebra"]);
    let exclusions = words(&["zebra"]);
    let r = normalize_word_list(&lines, &exclusions);
    assert_eq!(r, words(&["APPLE", "BANANA"]));
}

#[test]
fn normalize_dedups_after_uppercasing() {
    let lines = words(&["cat", "CAT", "cAt", "dog"]);
    let r = normalize_word_list(&lines, &words(&[]));
    assert_eq!(r, words(&["CAT", "DOG"]));
}

#[test]
fn normalize_excludes_by_raw_line() {
    // The exclusion list matches the raw line before upper-casing.
    let lines = words(&["Apple", "pear"]);
    let exclusions = words(&["apple", "pear"]);
    let r = normalize_word_list(&lines, &exclusions);
    assert_eq!(r, words(&["APPLE"]));
}

#[test]
fn normalize_of_empty_input_is_empty() {
    let r = normalize_word_list(&words(&[]), &words(&[]));
    assert!(r.is_empty());
}

#[test]
fn normalize_orders_lexicographically() {
    let lines = words(&["delta", "alpha", "charlie", "bravo"]);
    let r = normalize_word_list(&lines, &words(&[]));
    assert_eq!(r, words(&["ALPHA", "BRAVO", "CHARLIE", "DELTA"]));
}
