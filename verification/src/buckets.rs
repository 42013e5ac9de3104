//! Bucket partitioner: groups a word list into disjoint classes keyed by the
//! guess signature of each word, preserving the relative input order inside a
//! class and first-occurrence order over the classes, so that downstream
//! selection by index is deterministic.

use vstd::prelude::*;
use vstd::arithmetic::power2::{pow2, lemma_pow2_strictly_increases, lemma2_to64, lemma2_to64_rest};
use vstd::pervasive::unreached;

use crate::codec::{sig_of, word_signature, SIG_WIDTH};
use crate::errors::HangmanError;

verus! {

/// The signature of a word as the 64-bit value the engine computes.
pub open spec fn sig_u64(w: Seq<char>, g: char) -> u64 {
    sig_of(w, g) as u64
}

/// Every word of the list fits in the signature width.
pub open spec fn all_words_fit(ws: Seq<Seq<char>>) -> bool {
    forall|k: int| 0 <= k < ws.len() ==> #[trigger] ws[k].len() <= SIG_WIDTH
}

/// For words that fit in the signature width the 64-bit signature is exact.
pub proof fn lemma_sig_u64_exact(w: Seq<char>, g: char)
    requires
        w.len() <= SIG_WIDTH,
    ensures
        sig_u64(w, g) == sig_of(w, g),
{
    crate::codec::lemma_sig_of_bound(w, g);
    lemma2_to64();
    lemma2_to64_rest();
    if w.len() < 64 {
        lemma_pow2_strictly_increases(w.len(), 64);
    }
    assert(sig_of(w, g) < pow2(64));
}

/// The signatures occurring in a word list, in order of first occurrence.
pub open spec fn distinct_sigs(ws: Seq<Seq<char>>, g: char) -> Seq<u64>
    decreases ws.len(),
{
    if ws.len() == 0 {
        Seq::empty()
    } else {
        let prev = distinct_sigs(ws.drop_last(), g);
        if prev.contains(sig_u64(ws.last(), g)) {
            prev
        } else {
            prev.push(sig_u64(ws.last(), g))
        }
    }
}

/// The words of the list whose signature is `s`, in input order.
pub open spec fn bucket_of(ws: Seq<Seq<char>>, g: char, s: u64) -> Seq<Seq<char>>
    decreases ws.len(),
{
    if ws.len() == 0 {
        Seq::empty()
    } else {
        let prev = bucket_of(ws.drop_last(), g, s);
        if sig_u64(ws.last(), g) == s {
            prev.push(ws.last())
        } else {
            prev
        }
    }
}

/// The signatures of a word list hold no duplicates.
pub proof fn lemma_distinct_sigs_nodup(ws: Seq<Seq<char>>, g: char)
    ensures
        forall|i: int, j: int|
            0 <= i < j < distinct_sigs(ws, g).len() ==> distinct_sigs(ws, g)[i] != distinct_sigs(
                ws,
                g,
            )[j],
    decreases ws.len(),
{
    if ws.len() > 0 {
        lemma_distinct_sigs_nodup(ws.drop_last(), g);
        let prev = distinct_sigs(ws.drop_last(), g);
        let s = sig_u64(ws.last(), g);
        let d = distinct_sigs(ws, g);
        if !prev.contains(s) {
            assert forall|i: int, j: int| 0 <= i < j < d.len() implies d[i] != d[j] by {
                if j == d.len() - 1 {
                    assert(d[i] == prev[i]);
                    if prev[i] == s {
                        assert(prev.contains(s));
                    }
                } else {
                    assert(d[i] == prev[i] && d[j] == prev[j]);
                }
            }
        }
    }
}

/// A signature outside the list's signatures has an empty bucket.
pub proof fn lemma_bucket_empty(ws: Seq<Seq<char>>, g: char, s: u64)
    requires
        !distinct_sigs(ws, g).contains(s),
    ensures
        bucket_of(ws, g, s).len() == 0,
    decreases ws.len(),
{
    if ws.len() > 0 {
        let prev = distinct_sigs(ws.drop_last(), g);
        let d = distinct_sigs(ws, g);
        assert forall|k: int| 0 <= k < prev.len() implies d.contains(prev[k]) by {
            assert(d[k] == prev[k]);
        }
        lemma_bucket_empty(ws.drop_last(), g, s);
        if sig_u64(ws.last(), g) == s {
            assert(d[d.len() - 1] == s);
            assert(d.contains(s));
        }
    }
}

/// The partition into buckets is exact: every word of the list lands in the
/// bucket of its own signature, that signature occurs in the signature list,
/// and a bucket holds nothing but words of its signature.
pub proof fn lemma_partition_membership(ws: Seq<Seq<char>>, g: char)
    ensures
        forall|k: int|
            0 <= k < ws.len() ==> distinct_sigs(ws, g).contains(#[trigger] sig_u64(ws[k], g)),
        forall|k: int|
            0 <= k < ws.len() ==> bucket_of(ws, g, sig_u64(ws[k], g)).contains(#[trigger] ws[k]),
        forall|s: u64, w: Seq<char>|
            #[trigger] bucket_of(ws, g, s).contains(w) ==> sig_u64(w, g) == s,
    decreases ws.len(),
{
    if ws.len() > 0 {
        lemma_partition_membership(ws.drop_last(), g);
        let prev = distinct_sigs(ws.drop_last(), g);
        assert forall|k: int| 0 <= k < prev.len() implies distinct_sigs(ws, g).contains(
            prev[k],
        ) by {
            assert(distinct_sigs(ws, g)[k] == prev[k]);
        }
        assert forall|k: int| 0 <= k < ws.len() implies distinct_sigs(ws, g).contains(
            #[trigger] sig_u64(ws[k], g),
        ) by {
            if k == ws.len() - 1 {
                let s = sig_u64(ws.last(), g);
                if prev.contains(s) {
                } else {
                    assert(distinct_sigs(ws, g).last() == s);
                }
            } else {
                assert(ws.drop_last()[k] == ws[k]);
            }
        }
        assert forall|k: int| 0 <= k < ws.len() implies bucket_of(
            ws,
            g,
            sig_u64(ws[k], g),
        ).contains(#[trigger] ws[k]) by {
            if k == ws.len() - 1 {
                assert(bucket_of(ws, g, sig_u64(ws[k], g)).last() == ws[k]);
            } else {
                assert(ws.drop_last()[k] == ws[k]);
                let s = sig_u64(ws[k], g);
                let prev_bucket = bucket_of(ws.drop_last(), g, s);
                assert(prev_bucket.contains(ws[k]));
                let j = choose|j: int| 0 <= j < prev_bucket.len() && prev_bucket[j] == ws[k];
                assert(bucket_of(ws, g, s)[j] == ws[k]);
                assert(bucket_of(ws, g, s).contains(ws[k]));
            }
        }
        assert forall|s: u64, w: Seq<char>| #[trigger] bucket_of(ws, g, s).contains(
            w,
        ) implies sig_u64(w, g) == s by {
            let b = bucket_of(ws, g, s);
            let prev_bucket = bucket_of(ws.drop_last(), g, s);
            let i = choose|i: int| 0 <= i < b.len() && b[i] == w;
            if sig_u64(ws.last(), g) == s {
                if i < prev_bucket.len() {
                    assert(prev_bucket.contains(w));
                } else {
                    assert(w == ws.last());
                }
            } else {
                assert(prev_bucket.contains(w));
            }
        }
    }
}

/// How often `s` occurs in `sigs`.
pub open spec fn count_eq(sigs: Seq<u64>, s: u64) -> nat
    decreases sigs.len(),
{
    if sigs.len() == 0 {
        0
    } else {
        (if sigs.last() == s {
            1nat
        } else {
            0nat
        }) + count_eq(sigs.drop_last(), s)
    }
}

proof fn lemma_count_eq_of_nodup(sigs: Seq<u64>, s: u64)
    requires
        forall|i: int, j: int| 0 <= i < j < sigs.len() ==> sigs[i] != sigs[j],
    ensures
        sigs.contains(s) ==> count_eq(sigs, s) == 1,
        !sigs.contains(s) ==> count_eq(sigs, s) == 0,
    decreases sigs.len(),
{
    if sigs.len() > 0 {
        lemma_count_eq_of_nodup(sigs.drop_last(), s);
        if sigs.last() == s {
            assert(!sigs.drop_last().contains(s)) by {
                if sigs.drop_last().contains(s) {
                    let i = choose|i: int| 0 <= i < sigs.len() - 1 && sigs.drop_last()[i] == s;
                    assert(sigs[i] == sigs[sigs.len() - 1]);
                }
            }
        } else {
            if sigs.contains(s) {
                let i = choose|i: int| 0 <= i < sigs.len() && sigs[i] == s;
                assert(sigs.drop_last()[i] == s);
                assert(sigs.drop_last().contains(s));
            } else {
                assert(!sigs.drop_last().contains(s)) by {
                    if sigs.drop_last().contains(s) {
                        let i = choose|i: int|
                            0 <= i < sigs.len() - 1 && sigs.drop_last()[i] == s;
                        assert(sigs[i] == s);
                    }
                }
            }
        }
    }
}

/// The summed sizes of the buckets of the given signatures.
pub open spec fn sum_sizes(ws: Seq<Seq<char>>, g: char, sigs: Seq<u64>) -> nat
    decreases sigs.len(),
{
    if sigs.len() == 0 {
        0
    } else {
        bucket_of(ws, g, sigs.last()).len() + sum_sizes(ws, g, sigs.drop_last())
    }
}

proof fn lemma_sum_sizes_step(ws: Seq<Seq<char>>, g: char, sigs: Seq<u64>)
    requires
        ws.len() > 0,
    ensures
        sum_sizes(ws, g, sigs) == sum_sizes(ws.drop_last(), g, sigs) + count_eq(
            sigs,
            sig_u64(ws.last(), g),
        ),
    decreases sigs.len(),
{
    if sigs.len() > 0 {
        lemma_sum_sizes_step(ws, g, sigs.drop_last());
    }
}

/// Partition completeness: the bucket sizes of the distinct signatures of a
/// word list sum to the length of the list — no word is dropped and none is
/// counted twice.
pub proof fn lemma_partition_complete(ws: Seq<Seq<char>>, g: char)
    ensures
        sum_sizes(ws, g, distinct_sigs(ws, g)) == ws.len(),
    decreases ws.len(),
{
    if ws.len() > 0 {
        let rest = ws.drop_last();
        let s = sig_u64(ws.last(), g);
        let prev = distinct_sigs(rest, g);
        lemma_partition_complete(rest, g);
        lemma_distinct_sigs_nodup(rest, g);
        lemma_sum_sizes_step(ws, g, prev);
        lemma_count_eq_of_nodup(prev, s);
        if prev.contains(s) {
        } else {
            lemma_bucket_empty(rest, g, s);
            assert(prev.push(s).drop_last() =~= prev);
            assert(bucket_of(ws, g, s).len() == 1);
        }
    }
}

/// A partition of candidate words into buckets keyed by guess signature.
/// `sigs[j]` is the signature of every word stored in `groups[j]`; the two
/// vectors always have the same length and the signatures are distinct.
pub struct Buckets {
    pub sigs: Vec<u64>,
    pub groups: Vec<Vec<String>>,
}

impl Buckets {
    /// Structural invariant tying the two vectors together.
    pub open spec fn wf(self) -> bool {
        &&& self.sigs@.len() == self.groups@.len()
        &&& forall|i: int, j: int| 0 <= i < j < self.sigs@.len() ==> self.sigs@[i] != self.sigs@[j]
    }

    /// Number of buckets of the partition.
    pub fn len(&self) -> (n: usize)
        ensures
            n == self.sigs@.len(),
    {
        self.sigs.len()
    }

    /// The signature keying the bucket at `j`.
    pub fn sig_at(&self, j: usize) -> (s: u64)
        requires
            j < self.sigs@.len(),
        ensures
            s == self.sigs@[j as int],
    {
        self.sigs[j]
    }

    /// The number of words in the bucket at `j`.
    pub fn size_at(&self, j: usize) -> (n: usize)
        requires
            j < self.groups@.len(),
        ensures
            n == self.groups@[j as int]@.len(),
    {
        self.groups[j].len()
    }
}

/// Sorts the word list into buckets keyed by guess signature.  Every word of
/// the list lands in exactly one bucket — the one of its own signature — and
/// input order is kept both across first occurrences and inside each bucket.
/// Clones the words of `word_list`.
pub fn guess_buckets(word_list: &Vec<String>, guess: char) -> (b: Buckets)
    requires
        all_words_fit(word_list.deep_view()),
    ensures
        b.wf(),
        b.sigs@ == distinct_sigs(word_list.deep_view(), guess),
        forall|j: int|
            0 <= j < b.groups@.len() ==> (#[trigger] b.groups@[j]).deep_view() == bucket_of(
                word_list.deep_view(),
                guess,
                b.sigs@[j],
            ),
{
    let ghost ws = word_list.deep_view();
    let mut b = Buckets { sigs: Vec::new(), groups: Vec::new() };
    let mut i: usize = 0;
    proof {
        assert(ws.take(0) =~= Seq::<Seq<char>>::empty());
    }
    while i < word_list.len()
        invariant
            i <= word_list@.len(),
            ws == word_list.deep_view(),
            all_words_fit(ws),
            b.sigs@.len() == b.groups@.len(),
            b.sigs@ == distinct_sigs(ws.take(i as int), guess),
            forall|j: int|
                0 <= j < b.groups@.len() ==> (#[trigger] b.groups@[j]).deep_view() == bucket_of(
                    ws.take(i as int),
                    guess,
                    b.sigs@[j],
                ),
        decreases word_list@.len() - i,
    {
        let word = &word_list[i];
        proof {
            assert(ws[i as int] == word_list@[i as int]@);
            lemma_sig_u64_exact(ws[i as int], guess);
        }
        let sig = match word_signature(word, guess) {
            Ok(s) => s,
            Err(_) => unreached(),
        };
        let ghost prefix = ws.take(i as int);
        let ghost next = ws.take(i + 1);
        proof {
            assert(next.drop_last() =~= prefix);
            assert(next.last() == ws[i as int]);
            lemma_distinct_sigs_nodup(prefix, guess);
        }
        let mut idx: usize = 0;
        while idx < b.sigs.len() && b.sigs[idx] != sig
            invariant
                idx <= b.sigs@.len(),
                forall|k: int| 0 <= k < idx ==> b.sigs@[k] != sig,
            decreases b.sigs@.len() - idx,
        {
            idx = idx + 1;
        }
        if idx < b.sigs.len() {
            proof {
                assert(b.sigs@.contains(sig));
                assert(distinct_sigs(next, guess) == b.sigs@);
            }
            let w = word.clone();
            let ghost old_groups = b.groups@;
            b.groups[idx].push(w);
            proof {
                assert(b.groups@[idx as int]@ == old_groups[idx as int]@.push(w));
                assert(b.groups@[idx as int].deep_view() =~= old_groups[
                    idx as int
                ].deep_view().push(ws[i as int]));
                assert forall|j: int| 0 <= j < b.groups@.len() implies (
                #[trigger] b.groups@[j]).deep_view() == bucket_of(next, guess, b.sigs@[j]) by {
                    if j == idx {
                        assert(b.sigs@[j] == sig);
                        assert(bucket_of(next, guess, sig) == bucket_of(prefix, guess, sig).push(
                            ws[i as int],
                        ));
                    } else {
                        assert(b.sigs@[j] != sig);
                        assert(b.groups@[j] == old_groups[j]);
                        assert(bucket_of(next, guess, b.sigs@[j]) == bucket_of(
                            prefix,
                            guess,
                            b.sigs@[j],
                        ));
                    }
                }
            }
        } else {
            proof {
                assert(!b.sigs@.contains(sig)) by {
                    if b.sigs@.contains(sig) {
                        let k = choose|k: int| 0 <= k < b.sigs@.len() && b.sigs@[k] == sig;
                    }
                }
                assert(distinct_sigs(next, guess) == b.sigs@.push(sig));
                lemma_bucket_empty(prefix, guess, sig);
            }
            let w = word.clone();
            let mut group: Vec<String> = Vec::new();
            group.push(w);
            proof {
                assert(group.deep_view() =~= seq![ws[i as int]]);
            }
            let ghost old_groups = b.groups@;
            b.sigs.push(sig);
            b.groups.push(group);
            proof {
                assert forall|j: int| 0 <= j < b.groups@.len() implies (
                #[trigger] b.groups@[j]).deep_view() == bucket_of(next, guess, b.sigs@[j]) by {
                    if j == b.groups@.len() - 1 {
                        assert(b.groups@[j] == group);
                        assert(b.sigs@[j] == sig);
                        assert(bucket_of(next, guess, sig) =~= bucket_of(prefix, guess, sig).push(
                            ws[i as int],
                        ));
                        assert(bucket_of(prefix, guess, sig) =~= Seq::<Seq<char>>::empty());
                    } else {
                        assert(b.groups@[j] == old_groups[j]);
                        assert(b.sigs@[j] != sig);
                        assert(bucket_of(next, guess, b.sigs@[j]) == bucket_of(
                            prefix,
                            guess,
                            b.sigs@[j],
                        ));
                    }
                }
                lemma_distinct_sigs_nodup(next, guess);
            }
        }
        i = i + 1;
    }
    proof {
        assert(ws.take(word_list@.len() as int) =~= ws);
        lemma_distinct_sigs_nodup(ws, guess);
    }
    b
}

/// The signature the policy settles on when the draw ranks the buckets at
/// position `pick`: the signature at `pick`, or the last signature as a safe
/// fallback when `pick` runs past the end, so that a valid bucket key comes
/// back for every draw.
pub open spec fn chosen_sig(ws: Seq<Seq<char>>, g: char, pick: nat) -> u64 {
    let d = distinct_sigs(ws, g);
    if pick < d.len() {
        d[pick as int]
    } else {
        d[d.len() - 1]
    }
}

/// Weighted choice validity: whatever position the generator's draw settles
/// on, the chosen signature is one of the word list's signatures, for every
/// non-empty word list.
pub proof fn lemma_chosen_sig_valid(ws: Seq<Seq<char>>, g: char, pick: nat)
    requires
        ws.len() > 0,
    ensures
        distinct_sigs(ws, g).contains(chosen_sig(ws, g, pick)),
{
    lemma_partition_membership(ws, g);
    assert(distinct_sigs(ws, g).contains(sig_u64(ws[0], g)));
    let d = distinct_sigs(ws, g);
    assert(d.len() > 0);
    if pick < d.len() {
        assert(d.contains(d[pick as int]));
    } else {
        assert(d.contains(d[d.len() - 1]));
    }
}

/// Picks the signature of the bucket ranked at `pick` by the surrounding
/// draw, falling back to the last bucket when `pick` runs past the end.
/// Fails exactly when the partition holds no bucket at all, which indicates
/// an empty candidate set upstream.
pub fn choose_guess_outcome(b: &Buckets, pick: usize) -> (r: Result<u64, HangmanError>)
    ensures
        b.sigs@.len() == 0 <==> r == Err::<u64, HangmanError>(HangmanError::EmptyCandidateSet),
        b.sigs@.len() > 0 ==> r is Ok,
        r is Ok ==> b.sigs@.contains(r->Ok_0),
        r is Ok ==> r->Ok_0 == (if pick < b.sigs@.len() {
            b.sigs@[pick as int]
        } else {
            b.sigs@[b.sigs@.len() - 1]
        }),
{
    if b.sigs.len() == 0 {
        return Err(HangmanError::EmptyCandidateSet);
    }
    let ci = if pick < b.sigs.len() {
        pick
    } else {
        b.sigs.len() - 1
    };
    let s = b.sigs[ci];
    proof {
        assert(b.sigs@.contains(b.sigs@[ci as int]));
    }
    Ok(s)
}

/// Order on `(bucket size, signature)` pairs: by size, ties by signature.
pub open spec fn pair_le(a: (usize, u64), b: (usize, u64)) -> bool {
    a.0 < b.0 || (a.0 == b.0 && a.1 <= b.1)
}

/// The `(size, signature)` pair of each bucket, in partition order.
pub open spec fn stat_pairs(b: Buckets) -> Seq<(usize, u64)> {
    Seq::new(b.sigs@.len(), |j: int| ((b.groups@[j]@.len() as usize), b.sigs@[j]))
}

fn pair_le_exec(a: (usize, u64), b: (usize, u64)) -> (r: bool)
    ensures
        r == pair_le(a, b),
{
    a.0 < b.0 || (a.0 == b.0 && a.1 <= b.1)
}

/// The buckets of a partition as `(size, signature)` pairs, largest first,
/// ties broken by signature: the order in which the statistics of a guess
/// are shown.
pub fn guess_statistics(b: &Buckets) -> (r: Vec<(usize, u64)>)
    requires
        b.sigs@.len() == b.groups@.len(),
    ensures
        r@.len() == b.sigs@.len(),
        forall|i: int, j: int| 0 <= i < j < r@.len() ==> pair_le(#[trigger] r@[j], #[trigger] r@[i]),
        forall|p: (usize, u64)| r@.contains(p) <==> stat_pairs(*b).contains(p),
{
    let ghost all = stat_pairs(*b);
    let mut r: Vec<(usize, u64)> = Vec::new();
    let mut k: usize = 0;
    while k < b.sigs.len()
        invariant
            k <= b.sigs@.len(),
            b.sigs@.len() == b.groups@.len(),
            all == stat_pairs(*b),
            r@.len() == k,
            forall|i: int, j: int| 0 <= i < j < r@.len() ==> pair_le(#[trigger] r@[j], #[trigger] r@[i]),
            forall|p: (usize, u64)| #[trigger] r@.contains(p) <==> exists|q: int| 0 <= q < k && all[q] == p,
        decreases b.sigs@.len() - k,
    {
        let p = (b.groups[k].len(), b.sigs[k]);
        proof {
            assert(all[k as int] == p);
        }
        let ghost rv = r@;
        let mut idx: usize = 0;
        loop
            invariant
                idx <= r@.len(),
                r@ == rv,
                forall|j: int| 0 <= j < idx ==> !pair_le(#[trigger] r@[j], p),
            ensures
                idx <= r@.len(),
                r@ == rv,
                forall|j: int| 0 <= j < idx ==> !pair_le(#[trigger] r@[j], p),
                idx < r@.len() ==> pair_le(r@[idx as int], p),
            decreases r@.len() - idx,
        {
            if idx == r.len() {
                break;
            }
            if pair_le_exec(r[idx], p) {
                break;
            }
            idx = idx + 1;
        }
        let ghost old_r = r@;
        r.insert(idx, p);
        proof {
            old_r.insert_ensures(idx as int, p);
            assert forall|i: int, j: int| 0 <= i < j < r@.len() implies pair_le(
                #[trigger] r@[j],
                #[trigger] r@[i],
            ) by {
                if i == idx {
                    assert(r@[j] == old_r[j - 1]);
                } else if j == idx {
                    assert(r@[i] == old_r[i]);
                } else if i < idx && j > idx {
                    assert(r@[i] == old_r[i] && r@[j] == old_r[j - 1]);
                    assert(pair_le(p, old_r[i]));
                    assert(pair_le(old_r[j - 1], p));
                }
            }
            assert forall|q: (usize, u64)| #[trigger] r@.contains(q) implies exists|m: int|
                0 <= m < k + 1 && all[m] == q by {
                let x = choose|x: int| 0 <= x < r@.len() && r@[x] == q;
                if x == idx {
                    assert(all[k as int] == q);
                } else {
                    assert(old_r.contains(q)) by {
                        if x < idx {
                            assert(old_r[x] == q);
                        } else {
                            assert(old_r[x - 1] == q);
                        }
                    }
                }
            }
            assert forall|q: (usize, u64)| (exists|m: int| 0 <= m < k + 1 && all[m] == q) implies
                #[trigger] r@.contains(q) by {
                let m = choose|m: int| 0 <= m < k + 1 && all[m] == q;
                if m == k {
                    assert(r@[idx as int] == q);
                } else {
                    assert(old_r.contains(q));
                    let x = choose|x: int| 0 <= x < old_r.len() && old_r[x] == q;
                    if x < idx {
                        assert(r@[x] == q);
                    } else {
                        assert(r@[x + 1] == q);
                    }
                }
            }
        }
        k = k + 1;
    }
    proof {
        assert forall|p: (usize, u64)| #[trigger] r@.contains(p) <==> all.contains(p) by {
            if r@.contains(p) {
                let q = choose|q: int| 0 <= q < b.sigs@.len() && all[q] == p;
            }
            if all.contains(p) {
                let q = choose|q: int| 0 <= q < all.len() && all[q] == p;
            }
        }
    }
    r
}

} // verus!
