//! An adversarial word-guessing engine ("evil hangman").
//!
//! Instead of committing to one hidden word, the engine keeps a candidate set
//! of words consistent with every guess so far.  Each guessed letter splits
//! the candidate set into buckets keyed by a bit signature of the matching
//! positions; a weighted policy then picks the bucket least favorable to the
//! guesser, and the reveal pattern is updated from the chosen signature.

pub mod buckets;
pub mod codec;
pub mod errors;
pub mod session;
pub mod words;
