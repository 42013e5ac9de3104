use evil_hangman::codec::{count_matches, decode_signature, display_signature, word_signature};
use evil_hangman::errors::HangmanError;

fn s(x: &str) -> String {
    x.to_string()
}

fn chars(x: &str) -> Vec<char> {
    x.chars().collect()
}

#[test]
fn signature_of_first_letter() {
    assert_eq!(word_signature(&s("CAT"), 'C'), Ok(1));
    assert_eq!(word_signature(&s("CAT"), 'A'), Ok(2));
    assert_eq!(word_signature(&s("CAT"), 'T'), Ok(4));
    assert_eq!(word_signature(&s("CAT"), 'X'), Ok(0));
}

#[test]
fn signature_of_repeated_letter() {
    assert_eq!(word_signature(&s("BANANA"), 'A'), Ok(0b101010));
    assert_eq!(word_signature(&s("BANANA"), 'N'), Ok(0b010100));
}

#[test]
fn signature_rejects_overlong_word() {
    let long: String = std::iter::repeat('A').take(65).collect();
    assert_eq!(word_signature(&long, 'A'), Err(HangmanError::OutOfRange));
    let exact: String = std::iter::repeat('A').take(64).collect();
    assert_eq!(word_signature(&exact, 'A'), Ok(u64::MAX));
}

#[test]
fn decode_reads_bits_from_word_start() {
    assert_eq!(decode_signature(0b110, 3), vec![false, true, true]);
    assert_eq!(decode_signature(0, 4), vec![false, false, false, false]);
    assert_eq!(decode_signature(1, 1), vec![true]);
}

#[test]
fn decode_inverts_encode_concrete() {
    let sig = word_signature(&s("HELLO"), 'L').unwrap();
    let expected: Vec<bool> = "HELLO".chars().map(|c| c == 'L').collect();
    assert_eq!(decode_signature(sig, 5), expected);
}

#[test]
fn render_updates_only_marked_positions() {
    let out = display_signature(12, &chars("_A___T"), 'B');
    assert_eq!(out, chars("_ABB_T"));
}

#[test]
fn render_is_idempotent() {
    let once = display_signature(12, &chars("_A___T"), 'B');
    let twice = display_signature(12, &once, 'B');
    assert_eq!(once, twice);
}

#[test]
fn count_matches_is_popcount() {
    assert_eq!(count_matches(0), 0);
    assert_eq!(count_matches(0b1011), 3);
    assert_eq!(count_matches(u64::MAX), 64);
}

#[test]
fn decode_past_the_signature_width_is_unmatched() {
    let bits = decode_signature(u64::MAX, 66);
    assert_eq!(bits.len(), 66);
    assert!(bits[..64].iter().all(|&b| b));
    assert!(!bits[64] && !bits[65]);
}

#[test]
fn render_may_restate_a_revealed_position() {
    // Re-guessing a letter marks positions already showing it; the pattern
    // does not change.
    let out = display_signature(0b001, &chars("C__"), 'C');
    assert_eq!(out, chars("C__"));
}
