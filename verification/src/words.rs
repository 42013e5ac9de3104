//! Word-source normalization: keeps the purely alphabetic lines of a raw
//! word file, drops excluded words, maps them to upper case, sorts them
//! lexicographically and removes duplicates.  The surrounding program only
//! reads the files; everything it then does to the lines happens here.

use vstd::prelude::*;

use crate::session::{is_ascii_letter, upper_char};

verus! {

/// A line that counts as a word: non-empty and ASCII letters throughout.
pub open spec fn is_word_chars(w: Seq<char>) -> bool {
    w.len() > 0 && forall|i: int| 0 <= i < w.len() ==> is_ascii_letter(#[trigger] w[i])
}

/// The word with every ASCII lower-case letter mapped to upper case.
pub open spec fn upper_word(w: Seq<char>) -> Seq<char> {
    w.map_values(|c: char| upper_char(c))
}

/// The upper-cased admissible words of the raw lines, in input order with
/// duplicates kept: a line is admitted when it is alphabetic and not on the
/// exclusion list.
pub open spec fn picked_words(lines: Seq<Seq<char>>, excl: Seq<Seq<char>>) -> Seq<Seq<char>>
    decreases lines.len(),
{
    if lines.len() == 0 {
        Seq::empty()
    } else {
        let prev = picked_words(lines.drop_last(), excl);
        if is_word_chars(lines.last()) && !excl.contains(lines.last()) {
            prev.push(upper_word(lines.last()))
        } else {
            prev
        }
    }
}

/// Lexicographic order over character sequences by code point, the order in
/// which ASCII upper-case words compare as strings.
pub open spec fn lex_le(a: Seq<char>, b: Seq<char>) -> bool
    decreases a.len(),
{
    if a.len() == 0 {
        true
    } else if b.len() == 0 {
        false
    } else if (a[0] as int) < (b[0] as int) {
        true
    } else if (a[0] as int) > (b[0] as int) {
        false
    } else {
        lex_le(a.drop_first(), b.drop_first())
    }
}

/// Strict lexicographic order.
pub open spec fn lex_lt(a: Seq<char>, b: Seq<char>) -> bool {
    lex_le(a, b) && a != b
}

/// Weakly sorted word list.
pub open spec fn sorted_le(ws: Seq<Seq<char>>) -> bool {
    forall|i: int, j: int| 0 <= i < j < ws.len() ==> lex_le(#[trigger] ws[i], #[trigger] ws[j])
}

/// Strictly sorted word list: sorted and free of duplicates.
pub open spec fn sorted_strict(ws: Seq<Seq<char>>) -> bool {
    forall|i: int, j: int| 0 <= i < j < ws.len() ==> lex_lt(#[trigger] ws[i], #[trigger] ws[j])
}

/// The lexicographic order is total.
pub proof fn lemma_lex_le_total(a: Seq<char>, b: Seq<char>)
    ensures
        lex_le(a, b) || lex_le(b, a),
    decreases a.len(),
{
    if a.len() > 0 && b.len() > 0 && a[0] == b[0] {
        lemma_lex_le_total(a.drop_first(), b.drop_first());
    }
}

/// The lexicographic order is reflexive.
pub proof fn lemma_lex_le_refl(a: Seq<char>)
    ensures
        lex_le(a, a),
    decreases a.len(),
{
    if a.len() > 0 {
        lemma_lex_le_refl(a.drop_first());
    }
}

/// The lexicographic order is transitive.
pub proof fn lemma_lex_le_trans(a: Seq<char>, b: Seq<char>, c: Seq<char>)
    requires
        lex_le(a, b),
        lex_le(b, c),
    ensures
        lex_le(a, c),
    decreases a.len(),
{
    if a.len() > 0 && b.len() > 0 && c.len() > 0 && a[0] == b[0] && b[0] == c[0] {
        lemma_lex_le_trans(a.drop_first(), b.drop_first(), c.drop_first());
    }
}

/// The lexicographic order is antisymmetric.
pub proof fn lemma_lex_le_antisym(a: Seq<char>, b: Seq<char>)
    requires
        lex_le(a, b),
        lex_le(b, a),
    ensures
        a == b,
    decreases a.len(),
{
    if a.len() == 0 {
        assert(a =~= b);
    } else {
        lemma_lex_le_antisym(a.drop_first(), b.drop_first());
        assert forall|i: int| 0 <= i < a.len() implies a[i] == b[i] by {
            if i > 0 {
                assert(a[i] == a.drop_first()[i - 1]);
                assert(b[i] == b.drop_first()[i - 1]);
            }
        }
        assert(a =~= b);
    }
}

/// Tests whether a line is a purely alphabetic word.
pub fn is_alphabetic_word(s: &str) -> (r: bool)
    ensures
        r == is_word_chars(s@),
{
    let n = s.unicode_len();
    if n == 0 {
        return false;
    }
    let mut i: usize = 0;
    while i < n
        invariant
            i <= n,
            n == s@.len(),
            forall|j: int| 0 <= j < i ==> is_ascii_letter(#[trigger] s@[j]),
        decreases n - i,
    {
        let c = s.get_char(i);
        let v = c as u32;
        if !((65 <= v && v <= 90) || (97 <= v && v <= 122)) {
            return false;
        }
        i = i + 1;
    }
    true
}

/// Tests whether any of `lines` equals `w` character for character.
fn contains_line(lines: &Vec<String>, w: &String) -> (r: bool)
    ensures
        r == lines.deep_view().contains(w@),
{
    let mut i: usize = 0;
    while i < lines.len()
        invariant
            i <= lines@.len(),
            forall|j: int| 0 <= j < i ==> lines.deep_view()[j] != w@,
        decreases lines@.len() - i,
    {
        proof {
            assert(lines.deep_view()[i as int] == lines@[i as int]@);
        }
        if lines[i] == *w {
            proof {
                assert(lines.deep_view().contains(w@));
            }
            return true;
        }
        i = i + 1;
    }
    false
}

/// Relies on str::to_uppercase: on ASCII letters it returns the upper-case
/// letter at each position, one character per character.
#[verifier::external_body]
fn upper_string(s: &str) -> (r: String)
    requires
        is_word_chars(s@),
    ensures
        r@ == upper_word(s@),
{
    s.to_uppercase()
}

/// Compares the suffixes of two words starting at `i`.
fn str_le_from(a: &String, b: &String, i: usize) -> (r: bool)
    requires
        i <= a@.len(),
        i <= b@.len(),
    ensures
        r == lex_le(a@.skip(i as int), b@.skip(i as int)),
    decreases a@.len() - i,
{
    let na = a.as_str().unicode_len();
    let nb = b.as_str().unicode_len();
    if i == na {
        return true;
    }
    if i == nb {
        return false;
    }
    let ca = a.as_str().get_char(i);
    let cb = b.as_str().get_char(i);
    proof {
        assert(a@.skip(i as int)[0] == a@[i as int]);
        assert(b@.skip(i as int)[0] == b@[i as int]);
        assert(a@.skip(i as int).drop_first() =~= a@.skip(i + 1));
        assert(b@.skip(i as int).drop_first() =~= b@.skip(i + 1));
    }
    if (ca as u32) < (cb as u32) {
        true
    } else if (ca as u32) > (cb as u32) {
        false
    } else {
        str_le_from(a, b, i + 1)
    }
}

/// Lexicographic comparison of two words.
fn str_le(a: &String, b: &String) -> (r: bool)
    ensures
        r == lex_le(a@, b@),
{
    proof {
        assert(a@.skip(0) =~= a@);
        assert(b@.skip(0) =~= b@);
    }
    str_le_from(a, b, 0)
}

/// The first position of the sorted list whose word does not compare at or
/// below `w`; inserting `w` there keeps the list sorted.
fn lower_insertion_point(sorted: &Vec<String>, w: &String) -> (idx: usize)
    ensures
        idx <= sorted@.len(),
        forall|j: int| 0 <= j < idx ==> lex_le((#[trigger] sorted.deep_view()[j]), w@),
        idx < sorted@.len() ==> !lex_le(sorted.deep_view()[idx as int], w@),
{
    let mut idx: usize = 0;
    while idx < sorted.len()
        invariant
            idx <= sorted@.len(),
            forall|j: int| 0 <= j < idx ==> lex_le((#[trigger] sorted.deep_view()[j]), w@),
        decreases sorted@.len() - idx,
    {
        proof {
            assert(sorted.deep_view()[idx as int] == sorted@[idx as int]@);
        }
        if !str_le(&sorted[idx], w) {
            return idx;
        }
        idx = idx + 1;
    }
    idx
}

/// Normalizes a raw word source: the result holds, in strictly increasing
/// lexicographic order and without duplicates, exactly the upper-case forms
/// of the alphabetic, non-excluded lines.
pub fn normalize_word_list(lines: &Vec<String>, exclusions: &Vec<String>) -> (r: Vec<String>)
    ensures
        sorted_strict(r.deep_view()),
        forall|w: Seq<char>|
            r.deep_view().contains(w) <==> picked_words(
                lines.deep_view(),
                exclusions.deep_view(),
            ).contains(w),
{
    let ghost ls = lines.deep_view();
    let ghost ex = exclusions.deep_view();
    let mut picked: Vec<String> = Vec::new();
    let mut i: usize = 0;
    proof {
        assert(ls.take(0) =~= Seq::<Seq<char>>::empty());
    }
    while i < lines.len()
        invariant
            i <= lines@.len(),
            ls == lines.deep_view(),
            ex == exclusions.deep_view(),
            picked.deep_view() == picked_words(ls.take(i as int), ex),
        decreases lines@.len() - i,
    {
        let ghost prefix = ls.take(i as int);
        let ghost next = ls.take(i + 1);
        proof {
            assert(next.drop_last() =~= prefix);
            assert(next.last() == ls[i as int]);
            assert(ls[i as int] == lines@[i as int]@);
        }
        let line = &lines[i];
        let ghost old_picked = picked.deep_view();
        if is_alphabetic_word(line.as_str()) && !contains_line(exclusions, line) {
            picked.push(upper_string(line.as_str()));
            proof {
                assert(picked.deep_view() =~= old_picked.push(upper_word(ls[i as int])));
            }
        }
        i = i + 1;
    }
    proof {
        assert(ls.take(lines@.len() as int) =~= ls);
    }
    let mut sorted: Vec<String> = Vec::new();
    let mut k: usize = 0;
    proof {
        assert(picked.deep_view().take(0) =~= Seq::<Seq<char>>::empty());
    }
    while k < picked.len()
        invariant
            k <= picked@.len(),
            sorted_le(sorted.deep_view()),
            forall|w: Seq<char>| #[trigger]
                sorted.deep_view().contains(w) <==> picked.deep_view().take(k as int).contains(w),
        decreases picked@.len() - k,
    {
        let ghost sv = sorted.deep_view();
        let ghost pk = picked.deep_view().take(k as int);
        let ghost pk1 = picked.deep_view().take(k + 1);
        let w = picked[k].clone();
        proof {
            assert(w@ == picked.deep_view()[k as int]);
        }
        let idx = lower_insertion_point(&sorted, &w);
        proof {
            assert forall|j: int| idx <= j < sv.len() implies lex_le(w@, #[trigger] sv[j]) by {
                lemma_lex_le_total(sv[idx as int], w@);
                if j > idx {
                    lemma_lex_le_trans(w@, sv[idx as int], sv[j]);
                }
            }
        }
        let ghost old_s = sorted@;
        sorted.insert(idx, w);
        proof {
            old_s.insert_ensures(idx as int, w);
            let sv1 = sorted.deep_view();
            assert(sv1.len() == sv.len() + 1);
            assert forall|m: int| 0 <= m < sv1.len() implies sv1[m] == (if m < idx {
                sv[m]
            } else if m == idx {
                w@
            } else {
                sv[m - 1]
            }) by {
                assert(sv1[m] == sorted@[m]@);
                if m < idx {
                    assert(sorted@[m] == old_s[m]);
                    assert(sv[m] == old_s[m]@);
                } else if m == idx {
                    assert(sorted@[m] == w);
                } else {
                    assert(sorted@[m] == old_s[m - 1]);
                    assert(sv[m - 1] == old_s[m - 1]@);
                }
            }
            assert forall|x: int, y: int| 0 <= x < y < sv1.len() implies lex_le(
                #[trigger] sv1[x],
                #[trigger] sv1[y],
            ) by {
                if x == idx {
                    assert(sv1[y] == sv[y - 1]);
                } else if y == idx {
                    assert(sv1[x] == sv[x]);
                } else if x < idx && y > idx {
                    assert(lex_le(sv[x], w@));
                    assert(lex_le(w@, sv[y - 1]));
                    lemma_lex_le_trans(sv[x], w@, sv[y - 1]);
                }
            }
            assert forall|v: Seq<char>| #[trigger] sv1.contains(v) implies pk1.contains(v) by {
                let m = choose|m: int| 0 <= m < sv1.len() && sv1[m] == v;
                if m == idx {
                    assert(pk1[k as int] == w@);
                } else {
                    assert(sv.contains(v)) by {
                        if m < idx {
                            assert(sv[m] == v);
                        } else {
                            assert(sv[m - 1] == v);
                        }
                    }
                    assert(pk.contains(v));
                    let q = choose|q: int| 0 <= q < pk.len() && pk[q] == v;
                    assert(pk1[q] == v);
                }
            }
            assert forall|v: Seq<char>| pk1.contains(v) implies #[trigger] sv1.contains(v) by {
                let q = choose|q: int| 0 <= q < pk1.len() && pk1[q] == v;
                if q == k {
                    assert(sv1[idx as int] == v);
                } else {
                    assert(pk[q] == v);
                    assert(pk.contains(v));
                    assert(sv.contains(v));
                    let m = choose|m: int| 0 <= m < sv.len() && sv[m] == v;
                    if m < idx {
                        assert(sv1[m] == v);
                    } else {
                        assert(sv1[m + 1] == v);
                    }
                }
            }
        }
        k = k + 1;
    }
    proof {
        assert(picked.deep_view().take(picked@.len() as int) =~= picked.deep_view());
    }
    let mut result: Vec<String> = Vec::new();
    let mut t: usize = 0;
    proof {
        assert(sorted.deep_view().take(0) =~= Seq::<Seq<char>>::empty());
    }
    while t < sorted.len()
        invariant
            t <= sorted@.len(),
            sorted_le(sorted.deep_view()),
            sorted_strict(result.deep_view()),
            forall|w: Seq<char>| #[trigger]
                result.deep_view().contains(w) <==> sorted.deep_view().take(t as int).contains(w),
            result@.len() > 0 ==> forall|j: int|
                0 <= j < t ==> lex_le(
                    #[trigger] sorted.deep_view()[j],
                    result.deep_view().last(),
                ),
        decreases sorted@.len() - t,
    {
        let ghost rv = result.deep_view();
        let ghost st = sorted.deep_view().take(t as int);
        let ghost st1 = sorted.deep_view().take(t + 1);
        let ghost wv = sorted.deep_view()[t as int];
        proof {
            assert(st1.drop_last() =~= st);
            assert(st1.last() == wv);
            assert(wv == sorted@[t as int]@);
        }
        let push_it = if result.len() == 0 {
            true
        } else {
            !(result[result.len() - 1] == sorted[t])
        };
        if push_it {
            let w = sorted[t].clone();
            let ghost old_rv = result.deep_view();
            proof {
                if rv.len() > 0 {
                    let last = rv.last();
                    assert(rv.contains(last));
                    assert(st.contains(last));
                    let q = choose|q: int| 0 <= q < st.len() && st[q] == last;
                    assert(lex_le(last, wv));
                    assert(last != wv);
                    assert forall|j: int| 0 <= j < rv.len() implies lex_lt(
                        #[trigger] rv[j],
                        wv,
                    ) by {
                        if j < rv.len() - 1 {
                            assert(lex_lt(rv[j], last));
                            lemma_lex_le_trans(rv[j], last, wv);
                            if rv[j] == wv {
                                lemma_lex_le_antisym(last, wv);
                            }
                        }
                    }
                }
            }
            result.push(w);
            proof {
                assert(result.deep_view() =~= old_rv.push(wv));
                lemma_lex_le_refl(wv);
                assert forall|j: int| 0 <= j < t + 1 implies lex_le(
                    #[trigger] sorted.deep_view()[j],
                    result.deep_view().last(),
                ) by {
                    if j < t {
                        assert(lex_le(sorted.deep_view()[j], sorted.deep_view()[t as int]));
                    }
                }
                assert forall|v: Seq<char>| #[trigger] result.deep_view().contains(v) implies
                    st1.contains(v) by {
                    let m = choose|m: int|
                        0 <= m < result.deep_view().len() && result.deep_view()[m] == v;
                    if m == result.deep_view().len() - 1 {
                        assert(st1[t as int] == v);
                    } else {
                        assert(old_rv.contains(v));
                        assert(st.contains(v));
                        let q = choose|q: int| 0 <= q < st.len() && st[q] == v;
                        assert(st1[q] == v);
                    }
                }
                assert forall|v: Seq<char>| st1.contains(v) implies #[trigger] result.deep_view()
                    .contains(v) by {
                    let q = choose|q: int| 0 <= q < st1.len() && st1[q] == v;
                    if q == t {
                        assert(result.deep_view().last() == v);
                    } else {
                        assert(st[q] == v);
                        assert(st.contains(v));
                        assert(old_rv.contains(v));
                        let m = choose|m: int| 0 <= m < old_rv.len() && old_rv[m] == v;
                        assert(result.deep_view()[m] == v);
                    }
                }
            }
        } else {
            proof {
                assert(rv.len() > 0);
                assert(rv.last() == result@[result@.len() - 1]@);
                assert(rv.last() == wv);
                lemma_lex_le_refl(wv);
                assert forall|j: int| 0 <= j < t + 1 implies lex_le(
                    #[trigger] sorted.deep_view()[j],
                    result.deep_view().last(),
                ) by {
                    if j < t {
                        assert(lex_le(sorted.deep_view()[j], sorted.deep_view()[t as int]));
                    }
                }
                assert forall|v: Seq<char>| st1.contains(v) implies #[trigger] rv.contains(v) by {
                    let q = choose|q: int| 0 <= q < st1.len() && st1[q] == v;
                    if q == t {
                        assert(rv.contains(rv.last()));
                    } else {
                        assert(st[q] == v);
                        assert(st.contains(v));
                    }
                }
                assert forall|v: Seq<char>| #[trigger] rv.contains(v) implies st1.contains(v) by {
                    assert(st.contains(v));
                    let q = choose|q: int| 0 <= q < st.len() && st[q] == v;
                    assert(st1[q] == v);
                }
            }
        }
        t = t + 1;
    }
    proof {
        assert(sorted.deep_view().take(sorted@.len() as int) =~= sorted.deep_view());
    }
    result
}

} // verus!
