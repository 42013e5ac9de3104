use evil_hangman::buckets::{choose_guess_outcome, guess_buckets, Buckets};
use evil_hangman::errors::HangmanError;
use evil_hangman::session::{
    initialize_game, is_won, mix_seed, parse_guess, start_session, GameState, History,
};

fn words(xs: &[&str]) -> Vec<String> {
    xs.iter().map(|x| x.to_string()).collect()
}

fn chars(x: &str) -> Vec<char> {
    x.chars().collect()
}

#[test]
fn partition_scenario_single_bucket() {
    let list = words(&["CAT", "COT", "CAR", "CAB"]);
    let b = guess_buckets(&list, 'C');
    assert_eq!(b.sigs, vec![0b001]);
    assert_eq!(b.groups, vec![words(&["CAT", "COT", "CAR", "CAB"])]);
}

#[test]
fn partition_scenario_two_buckets() {
    let list = words(&["CAT", "COT", "CAR", "CAB"]);
    let b = guess_buckets(&list, 'A');
    assert_eq!(b.sigs, vec![0b010, 0b000]);
    assert_eq!(b.groups, vec![words(&["CAT", "CAR", "CAB"]), words(&["COT"])]);
    let total: usize = b.groups.iter().map(|g| g.len()).sum();
    assert_eq!(total, list.len());
}

#[test]
fn partition_of_empty_list_is_empty() {
    let b = guess_buckets(&words(&[]), 'A');
    assert_eq!(b.sigs.len(), 0);
    assert_eq!(b.groups.len(), 0);
}

#[test]
fn outcome_is_always_a_bucket_key() {
    let list = words(&["CAT", "COT", "CAR", "CAB"]);
    let b = guess_buckets(&list, 'A');
    for pick in 0..10 {
        let sig = choose_guess_outcome(&b, pick).unwrap();
        assert!(b.sigs.contains(&sig));
    }
    assert_eq!(choose_guess_outcome(&b, 0), Ok(0b010));
    assert_eq!(choose_guess_outcome(&b, 1), Ok(0b000));
    assert_eq!(choose_guess_outcome(&b, 9), Ok(0b000));
}

#[test]
fn outcome_on_empty_partition_fails() {
    let b = Buckets { sigs: Vec::new(), groups: Vec::new() };
    assert_eq!(choose_guess_outcome(&b, 0), Err(HangmanError::EmptyCandidateSet));
}

#[test]
fn initialize_game_validates_letter_count() {
    let h = initialize_game(42, 5).unwrap();
    assert_eq!(h.rng_seed, 42);
    assert_eq!(h.letter_count, 5);
    assert!(h.guesses.is_empty());
    assert!(initialize_game(42, 64).is_ok());
    assert_eq!(initialize_game(42, 0), Err(HangmanError::MalformedInput));
    assert_eq!(initialize_game(42, 65), Err(HangmanError::MalformedInput));
}

#[test]
fn mix_seed_is_xor() {
    assert_eq!(mix_seed(0xFF00, 0x0FF0), 0xF0F0);
    assert_eq!(mix_seed(7, 0), 7);
    assert_eq!(mix_seed(mix_seed(3, 9), 9), 3);
}

#[test]
fn parse_guess_normalizes_first_letter() {
    assert_eq!(parse_guess("apple"), Ok('A'));
    assert_eq!(parse_guess("Z"), Ok('Z'));
    assert_eq!(parse_guess(""), Err(HangmanError::MalformedInput));
    assert_eq!(parse_guess("9x"), Err(HangmanError::MalformedInput));
    assert_eq!(parse_guess(" a"), Err(HangmanError::MalformedInput));
}

#[test]
fn win_detection() {
    assert!(!is_won(&chars("_A_")));
    assert!(is_won(&chars("CAT")));
    assert!(is_won(&chars("")));
}

#[test]
fn start_session_filters_by_length() {
    let list = words(&["CAT", "HOUSE", "DOG", "BIRD"]);
    let s = start_session(11, 3, &list);
    assert_eq!(s.word_list, words(&["CAT", "DOG"]));
    assert_eq!(s.word_info, chars("___"));
    assert_eq!(s.history.rng_seed, 11);
    assert_eq!(s.history.letter_count, 3);
    assert!(s.history.guesses.is_empty());
}

#[test]
fn resolve_guess_on_empty_candidates_fails() {
    let mut s = start_session(0, 9, &words(&["CAT"]));
    assert_eq!(s.word_list.len(), 0);
    assert_eq!(s.resolve_guess('A', 0), Err(HangmanError::EmptyCandidateSet));
}

#[test]
fn guess_sequence_reveals_and_wins() {
    let mut s = start_session(5, 3, &words(&["CAT"]));
    assert!(!is_won(&s.word_info));
    s.resolve_guess('C', 0).unwrap();
    assert_eq!(s.word_info, chars("C__"));
    assert!(!is_won(&s.word_info));
    s.resolve_guess('A', 0).unwrap();
    assert_eq!(s.word_info, chars("CA_"));
    assert!(!is_won(&s.word_info));
    s.resolve_guess('T', 0).unwrap();
    assert_eq!(s.word_info, chars("CAT"));
    assert!(is_won(&s.word_info));
    assert_eq!(s.history.guesses, vec!['C', 'A', 'T']);
}

#[test]
fn adversarial_scenario_keeps_biggest_bucket() {
    let mut s = start_session(0, 3, &words(&["CAT", "COT", "CAR", "CAB"]));
    s.resolve_guess('C', 0).unwrap();
    assert_eq!(s.word_info, chars("C__"));
    assert_eq!(s.word_list, words(&["CAT", "COT", "CAR", "CAB"]));
    // On guessing 'A' the partition splits 3:1; an adversarial draw favors
    // the larger class, which sits at rank 0.
    s.resolve_guess('A', 0).unwrap();
    assert_eq!(s.word_info, chars("CA_"));
    assert_eq!(s.word_list, words(&["CAT", "CAR", "CAB"]));
}

#[test]
fn reveal_is_monotonic_across_guesses() {
    let mut s = start_session(0, 3, &words(&["CAT", "COT", "CAR", "CAB"]));
    let mut previous = s.word_info.clone();
    for (g, pick) in [('C', 0), ('A', 1), ('T', 0), ('O', 0)] {
        if s.word_list.is_empty() {
            break;
        }
        s.resolve_guess(g, pick).unwrap();
        for i in 0..previous.len() {
            if previous[i] != '_' {
                assert_ne!(s.word_info[i], '_');
            }
        }
        previous = s.word_info.clone();
    }
}

fn run_replay(source: &[&str], guesses: &[(char, usize)]) -> GameState {
    let mut s = start_session(77, 3, &words(source));
    for &(g, pick) in guesses {
        s.resolve_guess(g, pick).unwrap();
    }
    s
}

#[test]
fn replay_is_deterministic() {
    let source = ["CAT", "COT", "CAR", "CAB", "DOG"];
    let guesses = [('C', 0), ('A', 1), ('R', 0)];
    let a = run_replay(&source, &guesses);
    let b = run_replay(&source, &guesses);
    assert_eq!(a.word_info, b.word_info);
    assert_eq!(a.word_list, b.word_list);
    assert_eq!(a.history, b.history);
}

#[test]
fn history_round_trip_fields() {
    let h = History { rng_seed: 9, letter_count: 4, guesses: vec!['A', 'B'] };
    let h2 = h.clone();
    assert_eq!(h, h2);
}

#[test]
fn statistics_sorted_largest_first() {
    let list = words(&["CAT", "COT", "CAR", "CAB", "DOG"]);
    let b = guess_buckets(&list, 'A');
    // CAT/CAR/CAB share signature 0b010, COT and DOG share 0b000.
    let stats = evil_hangman::buckets::guess_statistics(&b);
    assert_eq!(stats, vec![(3, 0b010), (2, 0b000)]);
}

#[test]
fn statistics_break_size_ties_by_signature() {
    let list = words(&["AX", "XA"]);
    let b = guess_buckets(&list, 'A');
    let stats = evil_hangman::buckets::guess_statistics(&b);
    assert_eq!(stats, vec![(1, 0b10), (1, 0b01)]);
}
