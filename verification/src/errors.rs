//! Error taxonomy of the engine.

use vstd::prelude::*;

verus! {

/// Errors the engine can signal to its caller.
#[derive(Clone, Copy, Debug, PartialEq, Eq)]
pub enum HangmanError {
    /// A supplied guess or seed fails basic validation.
    MalformedInput,
    /// A word's length exceeds the signature width (64 positions).
    OutOfRange,
    /// A partition or draw was requested over zero candidate words,
    /// which indicates upstream filtering or a malformed history.
    EmptyCandidateSet,
}

} // verus!
