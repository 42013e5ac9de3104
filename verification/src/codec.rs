//! Signature codec: encodes which letter positions of a word match a guessed
//! letter as a 64-bit bitmask (bit `i`, counted from the word's start, is set
//! iff position `i` equals the guess), decodes such a mask back into booleans,
//! and renders a mask plus a previous reveal pattern into an updated pattern.

use vstd::prelude::*;
use vstd::arithmetic::power2::{pow2, lemma_pow2_unfold, lemma_pow2_strictly_increases, lemma2_to64, lemma2_to64_rest};

use crate::errors::HangmanError;

verus! {

/// Number of positions a signature can describe.
pub const SIG_WIDTH: usize = 64;

/// The signature of `w` under guess `g`: bit `i` is set iff `w[i] == g`.
pub open spec fn sig_of(w: Seq<char>, g: char) -> nat
    decreases w.len(),
{
    if w.len() == 0 {
        0
    } else {
        (if w[0] == g {
            1nat
        } else {
            0nat
        }) + 2 * sig_of(w.drop_first(), g)
    }
}

/// Bit `i` of `sig`, counting from the least significant bit.
pub open spec fn sig_bit(sig: nat, i: nat) -> bool
    decreases i,
{
    if i == 0 {
        sig % 2 == 1
    } else {
        sig_bit(sig / 2, (i - 1) as nat)
    }
}

/// A signature is bounded by two to the power of the word's length.
pub proof fn lemma_sig_of_bound(w: Seq<char>, g: char)
    ensures
        sig_of(w, g) < pow2(w.len()),
    decreases w.len(),
{
    if w.len() == 0 {
        assert(pow2(0) == 1) by {
            vstd::arithmetic::power2::lemma_pow2(0);
            vstd::arithmetic::power::lemma_pow0(2);
        }
    } else {
        lemma_sig_of_bound(w.drop_first(), g);
        lemma_pow2_unfold(w.len());
    }
}

/// Decoding inverts encoding: bit `i` of a word's signature says exactly
/// whether position `i` of the word equals the guessed letter.
pub proof fn lemma_decode_inverts_encode(w: Seq<char>, g: char)
    ensures
        forall|i: int| 0 <= i < w.len() ==> sig_bit(sig_of(w, g), i as nat) == (w[i] == g),
    decreases w.len(),
{
    if w.len() > 0 {
        lemma_decode_inverts_encode(w.drop_first(), g);
        let b: nat = if w[0] == g {
            1
        } else {
            0
        };
        let rest = sig_of(w.drop_first(), g);
        assert(sig_of(w, g) == b + 2 * rest);
        assert((b + 2 * rest) % 2 == b);
        assert((b + 2 * rest) / 2 == rest);
        assert forall|i: int| 0 < i < w.len() implies sig_bit(sig_of(w, g), i as nat) == (w[i]
            == g) by {
            assert(sig_bit(sig_of(w, g), i as nat) == sig_bit(rest, (i - 1) as nat));
            assert(w.drop_first()[i - 1] == w[i]);
        }
    }
}

/// Checks which letters of a word match a guessed letter and stores the
/// matches as a bit signature.  Words longer than the signature width are
/// rejected.
pub fn word_signature(word: &String, guess: char) -> (r: Result<u64, HangmanError>)
    ensures
        word@.len() <= SIG_WIDTH ==> r is Ok,
        word@.len() > SIG_WIDTH ==> r == Err::<u64, HangmanError>(HangmanError::OutOfRange),
        r is Ok ==> r->Ok_0 as nat == sig_of(word@, guess),
{
    let n = word.as_str().unicode_len();
    if n > SIG_WIDTH {
        return Err(HangmanError::OutOfRange);
    }
    let mut sig: u64 = 0;
    let mut i: usize = n;
    proof {
        assert(word@.skip(n as int) =~= Seq::<char>::empty());
    }
    while i > 0
        invariant
            i <= n,
            n == word@.len(),
            n <= SIG_WIDTH,
            sig as nat == sig_of(word@.skip(i as int), guess),
        decreases i,
    {
        i = i - 1;
        let c = word.as_str().get_char(i);
        proof {
            let tail = word@.skip(i as int);
            assert(tail.len() == n - i);
            assert(tail[0] == word@[i as int]);
            assert(tail.drop_first() =~= word@.skip(i + 1));
            lemma_sig_of_bound(tail.drop_first(), guess);
            lemma2_to64();
            lemma2_to64_rest();
            if ((n - i - 1) as nat) < 63 {
                lemma_pow2_strictly_increases((n - i - 1) as nat, 63);
            }
            assert(pow2(63) == 0x8000000000000000);
            assert(sig_of(tail.drop_first(), guess) < 0x8000000000000000);
        }
        sig = sig * 2 + (if c == guess {
            1
        } else {
            0
        });
    }
    proof {
        assert(word@.skip(0) =~= word@);
    }
    Ok(sig)
}

/// Returns one boolean per position, the first referring to the first letter
/// of the word, saying whether the signature marks that position as a match.
pub fn decode_signature(sig: u64, num_letters: usize) -> (r: Vec<bool>)
    ensures
        r@.len() == num_letters,
        forall|j: int| 0 <= j < num_letters ==> r@[j] == sig_bit(sig as nat, j as nat),
{
    let mut s: u64 = sig;
    let mut out: Vec<bool> = Vec::new();
    let mut count: usize = 0;
    while count < num_letters
        invariant
            count <= num_letters,
            out@.len() == count,
            s as nat == sig_shr(sig as nat, count as nat),
            forall|j: int| 0 <= j < count ==> out@[j] == sig_bit(sig as nat, j as nat),
        decreases num_letters - count,
    {
        let m = s % 2;
        proof {
            lemma_sig_shr_bit(sig as nat, count as nat);
        }
        out.push(m == 1);
        s = s / 2;
        count = count + 1;
    }
    out
}

/// The reveal pattern obtained by writing `g` at every position the signature
/// marks and keeping the previous pattern's character elsewhere.
pub open spec fn spec_render(sig: nat, prev: Seq<char>, g: char) -> Seq<char> {
    Seq::new(prev.len(), |i: int| if sig_bit(sig, i as nat) {
        g
    } else {
        prev[i]
    })
}

/// Updates a reveal pattern with the positions a guess signature marks.
/// Positions the signature does not mark keep their previous character, so
/// letters revealed earlier are never overwritten by an unrelated guess.
pub fn display_signature(sig: u64, prev_info: &Vec<char>, guess: char) -> (r: Vec<char>)
    ensures
        r@ == spec_render(sig as nat, prev_info@, guess),
{
    let bits = decode_signature(sig, prev_info.len());
    let mut out: Vec<char> = Vec::new();
    let mut i: usize = 0;
    while i < prev_info.len()
        invariant
            i <= prev_info@.len(),
            bits@.len() == prev_info@.len(),
            forall|j: int| 0 <= j < prev_info@.len() ==> bits@[j] == sig_bit(
                sig as nat,
                j as nat,
            ),
            out@.len() == i,
            forall|j: int| 0 <= j < i ==> out@[j] == spec_render(sig as nat, prev_info@, guess)[j],
        decreases prev_info@.len() - i,
    {
        out.push(
            if bits[i] {
                guess
            } else {
                prev_info[i]
            },
        );
        i = i + 1;
    }
    proof {
        assert(out@ =~= spec_render(sig as nat, prev_info@, guess));
    }
    out
}

/// Number of set bits of a signature.
pub open spec fn spec_popcount(sig: nat) -> nat
    decreases sig,
{
    if sig == 0 {
        0
    } else {
        sig % 2 + spec_popcount(sig / 2)
    }
}

/// At most `k` bits are set in a signature below two to the power `k`.
proof fn lemma_popcount_bound(sig: nat, k: nat)
    requires
        sig < pow2(k),
    ensures
        spec_popcount(sig) <= k,
    decreases k,
{
    if sig > 0 {
        if k == 0 {
            assert(pow2(0) == 1) by {
                vstd::arithmetic::power2::lemma_pow2(0);
                vstd::arithmetic::power::lemma_pow0(2);
            }
        } else {
            lemma_pow2_unfold(k);
            lemma_popcount_bound(sig / 2, (k - 1) as nat);
        }
    }
}

/// Population count of the set bits of a signature; used as the
/// adversarial-weighting input counting how many letters an outcome reveals.
pub fn count_matches(sig: u64) -> (r: u32)
    ensures
        r as nat == spec_popcount(sig as nat),
{
    let mut s: u64 = sig;
    let mut c: u32 = 0;
    proof {
        lemma2_to64();
        lemma2_to64_rest();
        lemma_popcount_bound(sig as nat, 64);
    }
    while s > 0
        invariant
            c as nat + spec_popcount(s as nat) == spec_popcount(sig as nat),
            spec_popcount(sig as nat) <= 64,
        decreases s,
    {
        c = c + (s % 2) as u32;
        s = s / 2;
    }
    c
}

/// Rendering is idempotent: applying the same signature and guess to an
/// already-updated pattern changes nothing further.
pub proof fn lemma_render_idempotent(sig: nat, prev: Seq<char>, g: char)
    ensures
        spec_render(sig, spec_render(sig, prev, g), g) == spec_render(sig, prev, g),
{
    assert(spec_render(sig, spec_render(sig, prev, g), g) =~= spec_render(sig, prev, g));
}

/// Rendering never reverts a revealed position to the placeholder: whatever
/// the signature says, a position that did not show `'_'` before the update
/// does not show `'_'` after it, provided the guess itself is not the
/// placeholder character.
pub proof fn lemma_render_monotonic(sig: nat, prev: Seq<char>, g: char)
    requires
        g != '_',
    ensures
        forall|i: int| 0 <= i < prev.len() && prev[i] != '_' ==> spec_render(sig, prev, g)[i]
            != '_',
{
}

/// `sig` shifted right by `k` bit positions.
pub open spec fn sig_shr(sig: nat, k: nat) -> nat
    decreases k,
{
    if k == 0 {
        sig
    } else {
        sig_shr(sig, (k - 1) as nat) / 2
    }
}

proof fn lemma_sig_shr_div(sig: nat, k: nat)
    ensures
        sig_shr(sig / 2, k) == sig_shr(sig, k) / 2,
    decreases k,
{
    if k > 0 {
        lemma_sig_shr_div(sig, (k - 1) as nat);
    }
}

/// Bit `k` of a signature is the low bit of the signature shifted right `k` times.
proof fn lemma_sig_shr_bit(sig: nat, k: nat)
    ensures
        sig_bit(sig, k) == (sig_shr(sig, k) % 2 == 1),
    decreases k,
{
    if k > 0 {
        lemma_sig_shr_bit(sig / 2, (k - 1) as nat);
        lemma_sig_shr_div(sig, (k - 1) as nat);
    }
}

} // verus!
