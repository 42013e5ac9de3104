//! Session state machine: the durable history record, session start and
//! replay, one-turn guess resolution (partition, outcome, render, commit),
//! and win detection.
//!
//! The engine itself is deterministic: the only outside influence on a turn
//! is the rank `pick` that the surrounding weighted draw supplies, so a turn
//! is a pure function of the session state, the guessed letter and `pick`,
//! and a whole replay is a pure function of the word source, the history and
//! the draw sequence.

use vstd::prelude::*;
use vstd::pervasive::unreached;

use crate::buckets::{
    all_words_fit, bucket_of, chosen_sig, choose_guess_outcome, distinct_sigs, guess_buckets,
    lemma_partition_membership,
};
use crate::codec::{display_signature, spec_render, SIG_WIDTH};
use crate::errors::HangmanError;

verus! {

/// The character a position shows while its letter is still unknown.
pub const PLACEHOLDER: char = '_';

/// The durable record of a session: the per-session seed, the fixed word
/// length, and the ordered letters guessed so far.  Together with the word
/// source and the process-wide salt it suffices to reconstruct the whole
/// session state.
#[derive(Clone, Debug, PartialEq, Eq)]
pub struct History {
    pub rng_seed: u64,
    pub letter_count: usize,
    pub guesses: Vec<char>,
}

/// Combines the process-wide salt with the per-session seed into the value
/// that seeds the generator.  Exclusive-or keeps the mixing reversible.
pub fn mix_seed(salt: u64, rng_seed: u64) -> (r: u64)
    ensures
        r == salt ^ rng_seed,
{
    salt ^ rng_seed
}

/// Validates the player-chosen session parameters and builds a fresh history
/// record with no guesses.  The letter count must fit the signature width.
pub fn initialize_game(rng_seed: u64, letter_count: usize) -> (r: Result<History, HangmanError>)
    ensures
        r is Ok <==> 1 <= letter_count <= SIG_WIDTH,
        r is Err ==> r == Err::<History, HangmanError>(HangmanError::MalformedInput),
        r is Ok ==> {
            &&& r->Ok_0.rng_seed == rng_seed
            &&& r->Ok_0.letter_count == letter_count
            &&& r->Ok_0.guesses@ == Seq::<char>::empty()
        },
{
    if letter_count < 1 || letter_count > SIG_WIDTH {
        return Err(HangmanError::MalformedInput);
    }
    Ok(History { rng_seed, letter_count, guesses: Vec::new() })
}

/// An ASCII letter, upper or lower case.
pub open spec fn is_ascii_letter(c: char) -> bool {
    (65 <= c as int && c as int <= 90) || (97 <= c as int && c as int <= 122)
}

/// `c` with an ASCII lower-case letter mapped to its upper-case form.
pub open spec fn upper_char(c: char) -> char {
    if 97 <= c as int && c as int <= 122 {
        ((c as int) - 32) as char
    } else {
        c
    }
}

fn to_upper(c: char) -> (r: char)
    ensures
        r == upper_char(c),
{
    if c == 'a' {
        'A'
    } else if c == 'b' {
        'B'
    } else if c == 'c' {
        'C'
    } else if c == 'd' {
        'D'
    } else if c == 'e' {
        'E'
    } else if c == 'f' {
        'F'
    } else if c == 'g' {
        'G'
    } else if c == 'h' {
        'H'
    } else if c == 'i' {
        'I'
    } else if c == 'j' {
        'J'
    } else if c == 'k' {
        'K'
    } else if c == 'l' {
        'L'
    } else if c == 'm' {
        'M'
    } else if c == 'n' {
        'N'
    } else if c == 'o' {
        'O'
    } else if c == 'p' {
        'P'
    } else if c == 'q' {
        'Q'
    } else if c == 'r' {
        'R'
    } else if c == 's' {
        'S'
    } else if c == 't' {
        'T'
    } else if c == 'u' {
        'U'
    } else if c == 'v' {
        'V'
    } else if c == 'w' {
        'W'
    } else if c == 'x' {
        'X'
    } else if c == 'y' {
        'Y'
    } else if c == 'z' {
        'Z'
    } else {
        c
    }
}

/// Reads a guess from one line of player input: the first character must be
/// an ASCII letter and is normalized to upper case.  Anything else is
/// malformed and stays at the input boundary.
pub fn parse_guess(input: &str) -> (r: Result<char, HangmanError>)
    ensures
        r is Ok <==> input@.len() > 0 && is_ascii_letter(input@[0]),
        r is Err ==> r == Err::<char, HangmanError>(HangmanError::MalformedInput),
        r is Ok ==> r->Ok_0 == upper_char(input@[0]),
        r is Ok ==> 65 <= r->Ok_0 as int <= 90,
{
    if input.unicode_len() == 0 {
        return Err(HangmanError::MalformedInput);
    }
    let c = input.get_char(0);
    let n = c as u32;
    if (65 <= n && n <= 90) || (97 <= n && n <= 122) {
        Ok(to_upper(c))
    } else {
        Err(HangmanError::MalformedInput)
    }
}

/// The words of the list having exactly `n` letters, in input order.
pub open spec fn filter_len(ws: Seq<Seq<char>>, n: nat) -> Seq<Seq<char>>
    decreases ws.len(),
{
    if ws.len() == 0 {
        Seq::empty()
    } else {
        let prev = filter_len(ws.drop_last(), n);
        if ws.last().len() == n {
            prev.push(ws.last())
        } else {
            prev
        }
    }
}

/// The all-placeholder reveal pattern of length `n`.
pub open spec fn initial_info(n: nat) -> Seq<char> {
    Seq::new(n, |i: int| PLACEHOLDER)
}

/// The reveal pattern holds no placeholder: the word is fully revealed.
pub open spec fn spec_is_won(info: Seq<char>) -> bool {
    forall|i: int| 0 <= i < info.len() ==> info[i] != PLACEHOLDER
}

/// Win detection: true exactly when no placeholder remains in the pattern.
pub fn is_won(word_info: &Vec<char>) -> (r: bool)
    ensures
        r == spec_is_won(word_info@),
{
    let mut i: usize = 0;
    while i < word_info.len()
        invariant
            i <= word_info@.len(),
            forall|j: int| 0 <= j < i ==> word_info@[j] != PLACEHOLDER,
        decreases word_info@.len() - i,
    {
        if word_info[i] == PLACEHOLDER {
            return false;
        }
        i = i + 1;
    }
    true
}

/// The whole mutable state of one active session: the durable history, the
/// candidate words still consistent with every guess, and the reveal pattern
/// the player sees.  State changes only after a turn has fully resolved.
#[derive(Clone, Debug)]
pub struct GameState {
    pub history: History,
    pub word_list: Vec<String>,
    pub word_info: Vec<char>,
}

impl GameState {
    /// Session invariant: the letter count fits the signature width, the
    /// reveal pattern has exactly that length, and so does every candidate.
    pub open spec fn wf(self) -> bool {
        &&& 1 <= self.history.letter_count <= SIG_WIDTH
        &&& self.word_info@.len() == self.history.letter_count
        &&& forall|k: int|
            0 <= k < self.word_list.deep_view().len() ==> (
            #[trigger] self.word_list.deep_view()[k]).len() == self.history.letter_count
    }
}

/// Opens a session: keeps exactly the words of the chosen length, in source
/// order, starts from the all-placeholder pattern, and records the seed and
/// length in a fresh history with no guesses.
pub fn start_session(rng_seed: u64, letter_count: usize, full_word_list: &Vec<String>) -> (s:
    GameState)
    requires
        1 <= letter_count <= SIG_WIDTH,
    ensures
        s.wf(),
        s.history.rng_seed == rng_seed,
        s.history.letter_count == letter_count,
        s.history.guesses@ == Seq::<char>::empty(),
        s.word_list.deep_view() == filter_len(full_word_list.deep_view(), letter_count as nat),
        s.word_info@ == initial_info(letter_count as nat),
{
    let ghost ws = full_word_list.deep_view();
    let mut kept: Vec<String> = Vec::new();
    let mut i: usize = 0;
    proof {
        assert(ws.take(0) =~= Seq::<Seq<char>>::empty());
    }
    while i < full_word_list.len()
        invariant
            i <= full_word_list@.len(),
            ws == full_word_list.deep_view(),
            kept.deep_view() == filter_len(ws.take(i as int), letter_count as nat),
        decreases full_word_list@.len() - i,
    {
        let ghost prefix = ws.take(i as int);
        let ghost next = ws.take(i + 1);
        proof {
            assert(next.drop_last() =~= prefix);
            assert(next.last() == ws[i as int]);
            assert(ws[i as int] == full_word_list@[i as int]@);
        }
        let word = &full_word_list[i];
        let ghost old_kept = kept.deep_view();
        if word.as_str().unicode_len() == letter_count {
            kept.push(word.clone());
            proof {
                assert(kept.deep_view() =~= old_kept.push(ws[i as int]));
            }
        }
        i = i + 1;
    }
    let mut info: Vec<char> = Vec::new();
    let mut j: usize = 0;
    while j < letter_count
        invariant
            j <= letter_count,
            info@.len() == j,
            forall|k: int| 0 <= k < j ==> info@[k] == PLACEHOLDER,
        decreases letter_count - j,
    {
        info.push(PLACEHOLDER);
        j = j + 1;
    }
    proof {
        assert(ws.take(full_word_list@.len() as int) =~= ws);
        assert(info@ =~= initial_info(letter_count as nat));
        lemma_filter_len_members(ws, letter_count as nat);
    }
    GameState {
        history: History { rng_seed, letter_count, guesses: Vec::new() },
        word_list: kept,
        word_info: info,
    }
}

/// Every word kept by the length filter has that length.
proof fn lemma_filter_len_members(ws: Seq<Seq<char>>, n: nat)
    ensures
        forall|k: int| 0 <= k < filter_len(ws, n).len() ==> (#[trigger] filter_len(ws, n)[k]).len()
            == n,
    decreases ws.len(),
{
    if ws.len() > 0 {
        lemma_filter_len_members(ws.drop_last(), n);
        let prev = filter_len(ws.drop_last(), n);
        assert(forall|k: int| 0 <= k < prev.len() ==> filter_len(ws, n)[k] == prev[k]);
    }
}

/// Every member of a bucket is a member of the word list it was cut from.
proof fn lemma_bucket_subset(ws: Seq<Seq<char>>, g: char, s: u64)
    ensures
        forall|j: int| 0 <= j < bucket_of(ws, g, s).len() ==> ws.contains(
            #[trigger] bucket_of(ws, g, s)[j],
        ),
    decreases ws.len(),
{
    if ws.len() > 0 {
        lemma_bucket_subset(ws.drop_last(), g, s);
        let prev = bucket_of(ws.drop_last(), g, s);
        assert forall|j: int| 0 <= j < bucket_of(ws, g, s).len() implies ws.contains(
            #[trigger] bucket_of(ws, g, s)[j],
        ) by {
            if j < prev.len() {
                assert(bucket_of(ws, g, s)[j] == prev[j]);
                assert(ws.drop_last().contains(prev[j]));
                let k = choose|k: int| 0 <= k < ws.len() - 1 && ws.drop_last()[k] == prev[j];
                assert(ws[k] == prev[j]);
            } else {
                assert(bucket_of(ws, g, s)[j] == ws.last());
                assert(ws[ws.len() - 1] == ws.last());
            }
        }
    }
}

/// A signature drawn from the word list's signatures has a non-empty bucket.
proof fn lemma_bucket_nonempty(ws: Seq<Seq<char>>, g: char, s: u64)
    requires
        distinct_sigs(ws, g).contains(s),
    ensures
        bucket_of(ws, g, s).len() > 0,
    decreases ws.len(),
{
    let d = distinct_sigs(ws, g);
    let prev = distinct_sigs(ws.drop_last(), g);
    if crate::buckets::sig_u64(ws.last(), g) == s {
        assert(bucket_of(ws, g, s).len() == bucket_of(ws.drop_last(), g, s).len() + 1);
    } else {
        assert(prev.contains(s)) by {
            let k = choose|k: int| 0 <= k < d.len() && d[k] == s;
            if prev.contains(crate::buckets::sig_u64(ws.last(), g)) {
                assert(prev[k] == s);
            } else {
                assert(k < prev.len());
                assert(prev[k] == s);
            }
        }
        lemma_bucket_nonempty(ws.drop_last(), g, s);
    }
}

/// One resolved turn as a mathematical function of the state, the guessed
/// letter and the rank the weighted draw settled on: the new reveal pattern
/// and the new candidate set.
pub open spec fn spec_step(info: Seq<char>, ws: Seq<Seq<char>>, g: char, pick: nat) -> (
    Seq<char>,
    Seq<Seq<char>>,
) {
    let s = chosen_sig(ws, g, pick);
    (spec_render(s as nat, info, g), bucket_of(ws, g, s))
}

/// A whole replay as a mathematical function: the state after resolving each
/// guess of the history in order, consuming one draw rank per guess.
pub open spec fn spec_replay(
    info: Seq<char>,
    ws: Seq<Seq<char>>,
    guesses: Seq<char>,
    picks: Seq<nat>,
) -> (Seq<char>, Seq<Seq<char>>)
    decreases guesses.len(),
{
    if guesses.len() == 0 || picks.len() == 0 {
        (info, ws)
    } else {
        let st = spec_step(info, ws, guesses[0], picks[0]);
        spec_replay(st.0, st.1, guesses.drop_first(), picks.drop_first())
    }
}

impl GameState {
    /// Resolves one guess: partitions the candidates, takes the bucket the
    /// draw rank selects, renders the new reveal pattern and commits the new
    /// state, appending the letter to the history.  Nothing changes when the
    /// candidate set is empty, which signals an inconsistent session.
    pub fn resolve_guess(&mut self, guess: char, pick: usize) -> (r: Result<(), HangmanError>)
        requires
            old(self).wf(),
            guess != PLACEHOLDER,
        ensures
            final(self).wf(),
            final(self).history.rng_seed == old(self).history.rng_seed,
            final(self).history.letter_count == old(self).history.letter_count,
            r is Err <==> old(self).word_list@.len() == 0,
            r is Err ==> r == Err::<(), HangmanError>(HangmanError::EmptyCandidateSet),
            r is Err ==> *final(self) == *old(self),
            r is Ok ==> final(self).history.guesses@ == old(self).history.guesses@.push(guess),
            r is Ok ==> final(self).word_info@ == spec_step(
                old(self).word_info@,
                old(self).word_list.deep_view(),
                guess,
                pick as nat,
            ).0,
            r is Ok ==> final(self).word_list.deep_view() == spec_step(
                old(self).word_info@,
                old(self).word_list.deep_view(),
                guess,
                pick as nat,
            ).1,
            r is Ok ==> final(self).word_list@.len() > 0,
            r is Ok ==> forall|i: int|
                0 <= i < old(self).word_info@.len() && old(self).word_info@[i] != PLACEHOLDER
                    ==> final(self).word_info@[i] != PLACEHOLDER,
    {
        let ghost ws = self.word_list.deep_view();
        let ghost info0 = self.word_info@;
        if self.word_list.len() == 0 {
            return Err(HangmanError::EmptyCandidateSet);
        }
        proof {
            assert(all_words_fit(ws));
            lemma_partition_membership(ws, guess);
            assert(distinct_sigs(ws, guess).contains(crate::buckets::sig_u64(ws[0], guess)));
        }
        let mut buckets = guess_buckets(&self.word_list, guess);
        let sig = match choose_guess_outcome(&buckets, pick) {
            Ok(s) => s,
            Err(_) => unreached(),
        };
        let ci = if pick < buckets.sigs.len() {
            pick
        } else {
            buckets.sigs.len() - 1
        };
        proof {
            assert(sig == chosen_sig(ws, guess, pick as nat));
            assert(sig == buckets.sigs@[ci as int]);
            lemma_bucket_nonempty(ws, guess, sig);
            lemma_bucket_subset(ws, guess, sig);
        }
        let group = buckets.groups.remove(ci);
        let new_info = display_signature(sig, &self.word_info, guess);
        proof {
            crate::codec::lemma_render_monotonic(sig as nat, info0, guess);
        }
        self.word_info = new_info;
        self.word_list = group;
        self.history.guesses.push(guess);
        proof {
            assert forall|k: int| 0 <= k < self.word_list.deep_view().len() implies (
            #[trigger] self.word_list.deep_view()[k]).len() == self.history.letter_count by {
                let b = bucket_of(ws, guess, sig);
                assert(b.contains(b[k]));
                let m = choose|m: int| 0 <= m < ws.len() && ws[m] == b[k];
            }
        }
        Ok(())
    }
}

/// Replay determinism: a replay consults nothing but the word source, the
/// reveal pattern it starts from, the guess history and the draw ranks, so
/// two runs over equal inputs end in the very same reveal pattern and the
/// very same candidate list, order included.
pub proof fn lemma_replay_deterministic(
    info1: Seq<char>,
    ws1: Seq<Seq<char>>,
    guesses1: Seq<char>,
    picks1: Seq<nat>,
    info2: Seq<char>,
    ws2: Seq<Seq<char>>,
    guesses2: Seq<char>,
    picks2: Seq<nat>,
)
    requires
        info1 == info2,
        ws1 == ws2,
        guesses1 == guesses2,
        picks1 == picks2,
    ensures
        spec_replay(info1, ws1, guesses1, picks1) == spec_replay(info2, ws2, guesses2, picks2),
{
}

/// Monotonic reveal: across any sequence of guesses, a position that was
/// revealed before the replay is still revealed after it — no step ever
/// reverts a position to the placeholder.
pub proof fn lemma_replay_monotonic(
    info: Seq<char>,
    ws: Seq<Seq<char>>,
    guesses: Seq<char>,
    picks: Seq<nat>,
)
    requires
        forall|k: int| 0 <= k < guesses.len() ==> guesses[k] != PLACEHOLDER,
    ensures
        spec_replay(info, ws, guesses, picks).0.len() == info.len(),
        forall|i: int|
            0 <= i < info.len() && info[i] != PLACEHOLDER ==> spec_replay(
                info,
                ws,
                guesses,
                picks,
            ).0[i] != PLACEHOLDER,
    decreases guesses.len(),
{
    if guesses.len() > 0 && picks.len() > 0 {
        let st = spec_step(info, ws, guesses[0], picks[0]);
        let s = chosen_sig(ws, guesses[0], picks[0]);
        crate::codec::lemma_render_monotonic(s as nat, info, guesses[0]);
        assert(forall|k: int|
            0 <= k < guesses.drop_first().len() ==> guesses.drop_first()[k] != PLACEHOLDER);
        lemma_replay_monotonic(st.0, st.1, guesses.drop_first(), picks.drop_first());
    }
}

} // verus!
