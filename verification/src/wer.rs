//! Word error rate.
//!
//! WER = (substitutions + deletions + insertions) / reference words, with the
//! edit counts from word-level Levenshtein distance. Corpus WER pools edits and
//! reference lengths over all utterance pairs before dividing, so long
//! utterances weigh proportionally.

use vstd::prelude::*;
use vstd::std_specs::cmp::PartialEqSpec;

use crate::text::{
    chars_equal, chars_of, is_white_space, is_whitespace, lemma_split_words_shape, split_whitespace,
    split_words, word_starts,
};

verus! {

/// The smallest of three numbers.
pub open spec fn min3(a: nat, b: nat, c: nat) -> nat {
    if a <= b && a <= c {
        a
    } else if b <= c {
        b
    } else {
        c
    }
}

/// Levenshtein distance between two token sequences: the least number of
/// substitutions, deletions and insertions that turn `a` into `b`.
pub open spec fn levenshtein<T>(a: Seq<T>, b: Seq<T>) -> nat
    decreases a.len() + b.len(),
{
    if a.len() == 0 {
        b.len()
    } else if b.len() == 0 {
        a.len()
    } else {
        let cost: nat = if a.last() == b.last() { 0 } else { 1 };
        min3(
            levenshtein(a.drop_last(), b.drop_last()) + cost,
            levenshtein(a.drop_last(), b) + 1,
            levenshtein(a, b.drop_last()) + 1,
        )
    }
}

/// The distance never exceeds the length of the longer sequence.
pub proof fn lemma_levenshtein_upper_bound<T>(a: Seq<T>, b: Seq<T>)
    ensures
        levenshtein(a, b) <= if a.len() >= b.len() { a.len() } else { b.len() },
    decreases a.len() + b.len(),
{
    if a.len() > 0 && b.len() > 0 {
        lemma_levenshtein_upper_bound(a.drop_last(), b.drop_last());
    }
}

/// A sequence is at distance zero from itself, and only from itself.
pub proof fn lemma_levenshtein_zero_iff_equal<T>(a: Seq<T>, b: Seq<T>)
    ensures
        levenshtein(a, b) == 0 <==> a == b,
    decreases a.len() + b.len(),
{
    if a.len() > 0 && b.len() > 0 {
        lemma_levenshtein_zero_iff_equal(a.drop_last(), b.drop_last());
        if a == b {
            assert(a.drop_last() == b.drop_last());
        }
        if levenshtein(a, b) == 0 {
            assert(a.drop_last() == b.drop_last());
            assert(a =~= a.drop_last().push(a.last()));
            assert(b =~= b.drop_last().push(b.last()));
        }
    } else if a.len() == 0 && b.len() == 0 {
        assert(a =~= b);
    }
}

/// The distance does not depend on which side is the reference.
pub proof fn lemma_levenshtein_symmetric<T>(a: Seq<T>, b: Seq<T>)
    ensures
        levenshtein(a, b) == levenshtein(b, a),
    decreases a.len() + b.len(),
{
    if a.len() > 0 && b.len() > 0 {
        lemma_levenshtein_symmetric(a.drop_last(), b.drop_last());
        lemma_levenshtein_symmetric(a.drop_last(), b);
        lemma_levenshtein_symmetric(a, b.drop_last());
    }
}

/// The distance is at least the difference of the lengths.
pub proof fn lemma_levenshtein_lower_bound<T>(a: Seq<T>, b: Seq<T>)
    ensures
        levenshtein(a, b) >= if a.len() >= b.len() { a.len() - b.len() } else { b.len() - a.len() },
    decreases a.len() + b.len(),
{
    if a.len() > 0 && b.len() > 0 {
        lemma_levenshtein_lower_bound(a.drop_last(), b.drop_last());
        lemma_levenshtein_lower_bound(a.drop_last(), b);
        lemma_levenshtein_lower_bound(a, b.drop_last());
    }
}

/// Levenshtein distance between two token sequences, with tokens compared
/// by their `==`: the least number of substitutions, deletions and
/// insertions that turn `a` into `b`, where a token may stand for any token
/// it is `==` to.
pub open spec fn levenshtein_eq<T: PartialEq>(a: Seq<T>, b: Seq<T>) -> nat
    decreases a.len() + b.len(),
{
    if a.len() == 0 {
        b.len()
    } else if b.len() == 0 {
        a.len()
    } else {
        let cost: nat = if a.last().eq_spec(&b.last()) { 0 } else { 1 };
        min3(
            levenshtein_eq(a.drop_last(), b.drop_last()) + cost,
            levenshtein_eq(a.drop_last(), b) + 1,
            levenshtein_eq(a, b.drop_last()) + 1,
        )
    }
}

/// Where `==` is structural equality, the distance by `==` is the
/// Levenshtein distance.
pub proof fn lemma_levenshtein_eq_structural<T: PartialEq>(a: Seq<T>, b: Seq<T>)
    requires
        forall|x: T, y: T| #[trigger] x.eq_spec(&y) <==> x == y,
    ensures
        levenshtein_eq(a, b) == levenshtein(a, b),
    decreases a.len() + b.len(),
{
    if a.len() > 0 && b.len() > 0 {
        lemma_levenshtein_eq_structural(a.drop_last(), b.drop_last());
        lemma_levenshtein_eq_structural(a.drop_last(), b);
        lemma_levenshtein_eq_structural(a, b.drop_last());
        assert(a.last().eq_spec(&b.last()) <==> a.last() == b.last());
    }
}

/// The distance by `==` never exceeds the length of the longer sequence and
/// is at least the difference of the lengths.
pub proof fn lemma_levenshtein_eq_bounds<T: PartialEq>(a: Seq<T>, b: Seq<T>)
    ensures
        levenshtein_eq(a, b) <= if a.len() >= b.len() { a.len() } else { b.len() },
        levenshtein_eq(a, b) >= if a.len() >= b.len() { a.len() - b.len() } else { b.len() - a.len() },
    decreases a.len() + b.len(),
{
    if a.len() > 0 && b.len() > 0 {
        lemma_levenshtein_eq_bounds(a.drop_last(), b.drop_last());
        lemma_levenshtein_eq_bounds(a.drop_last(), b);
        lemma_levenshtein_eq_bounds(a, b.drop_last());
    }
}

/// Where `==` is symmetric, the distance by `==` does not depend on which
/// side is the reference.
pub proof fn lemma_levenshtein_eq_symmetric<T: PartialEq>(a: Seq<T>, b: Seq<T>)
    requires
        forall|x: T, y: T| #[trigger] x.eq_spec(&y) <==> y.eq_spec(&x),
    ensures
        levenshtein_eq(a, b) == levenshtein_eq(b, a),
    decreases a.len() + b.len(),
{
    if a.len() > 0 && b.len() > 0 {
        lemma_levenshtein_eq_symmetric(a.drop_last(), b.drop_last());
        lemma_levenshtein_eq_symmetric(a.drop_last(), b);
        lemma_levenshtein_eq_symmetric(a, b.drop_last());
        assert(a.last().eq_spec(&b.last()) <==> b.last().eq_spec(&a.last()));
    }
}

/// The distance by `==` is zero exactly when the sequences have the same
/// length and their tokens are `==` position by position.
pub proof fn lemma_levenshtein_eq_zero<T: PartialEq>(a: Seq<T>, b: Seq<T>)
    ensures
        levenshtein_eq(a, b) == 0 <==> (a.len() == b.len() && forall|i: int|
            0 <= i < a.len() ==> #[trigger] a[i].eq_spec(&b[i])),
    decreases a.len() + b.len(),
{
    if a.len() > 0 && b.len() > 0 {
        let a1 = a.drop_last();
        let b1 = b.drop_last();
        lemma_levenshtein_eq_zero(a1, b1);
        lemma_levenshtein_eq_bounds(a1, b);
        lemma_levenshtein_eq_bounds(a, b1);
        if levenshtein_eq(a, b) == 0 {
            assert forall|i: int| 0 <= i < a.len() implies #[trigger] a[i].eq_spec(&b[i]) by {
                if i < a.len() - 1 {
                    assert(a1[i] == a[i] && b1[i] == b[i]);
                }
            }
        }
        if a.len() == b.len() && forall|i: int| 0 <= i < a.len() ==> #[trigger] a[i].eq_spec(&b[i]) {
            assert forall|i: int| 0 <= i < a1.len() implies #[trigger] a1[i].eq_spec(&b1[i]) by {
                assert(a1[i] == a[i] && b1[i] == b[i]);
                assert(a[i].eq_spec(&b[i]));
            }
            assert(a[a.len() - 1].eq_spec(&b[a.len() - 1]));
        }
    } else if a.len() > 0 {
        assert(levenshtein_eq(a, b) == a.len());
    }
}

/// One step of the dynamic programme over prefixes, with tokens compared by `==`.
proof fn lemma_levenshtein_eq_prefix_step<T: PartialEq>(a: Seq<T>, b: Seq<T>, i: int, j: int)
    requires
        1 <= i <= a.len(),
        1 <= j <= b.len(),
    ensures
        levenshtein_eq(a.take(i), b.take(j)) == min3(
            levenshtein_eq(a.take(i - 1), b.take(j - 1)) + (if a[i - 1].eq_spec(&b[j - 1]) {
                0nat
            } else {
                1nat
            }),
            levenshtein_eq(a.take(i - 1), b.take(j)) + 1,
            levenshtein_eq(a.take(i), b.take(j - 1)) + 1,
        ),
{
    assert(a.take(i).drop_last() =~= a.take(i - 1));
    assert(b.take(j).drop_last() =~= b.take(j - 1));
    assert(a.take(i).last() == a[i - 1]);
    assert(b.take(j).last() == b[j - 1]);
}

/// Token-level edit distance between a reference and a hypothesis: the
/// Levenshtein distance with tokens compared by their `==`.
pub fn edit_distance<T: PartialEq>(reference: &[T], hypothesis: &[T]) -> (d: usize)
    requires
        T::obeys_eq_spec(),
        reference@.len() < usize::MAX,
        hypothesis@.len() < usize::MAX,
    ensures
        d == levenshtein_eq(reference@, hypothesis@),
        (forall|x: T, y: T| #[trigger] x.eq_spec(&y) <==> y.eq_spec(&x)) ==> d == levenshtein_eq(
            hypothesis@,
            reference@,
        ),
{
    proof {
        if forall|x: T, y: T| #[trigger] x.eq_spec(&y) <==> y.eq_spec(&x) {
            lemma_levenshtein_eq_symmetric(reference@, hypothesis@);
        }
    }
    let r = reference.len();
    let h = hypothesis.len();
    let ghost a = reference@;
    let ghost b = hypothesis@;
    let mut prev: Vec<usize> = Vec::new();
    let mut j: usize = 0;
    while j <= h
        invariant
            j <= h + 1,
            h == b.len(),
            h < usize::MAX,
            prev@.len() == j,
            forall|k: int| 0 <= k < j ==> prev@[k] == levenshtein_eq(a.take(0), b.take(k)),
        decreases h + 1 - j,
    {
        assert(a.take(0).len() == 0);
        prev.push(j);
        j = j + 1;
    }
    let mut curr: Vec<usize> = Vec::new();
    let mut j: usize = 0;
    while j <= h
        invariant
            j <= h + 1,
            h < usize::MAX,
            curr@.len() == j,
        decreases h + 1 - j,
    {
        curr.push(0);
        j = j + 1;
    }
    let mut i: usize = 1;
    while i <= r
        invariant
            1 <= i <= r + 1,
            r == a.len(),
            h == b.len(),
            r < usize::MAX,
            h < usize::MAX,
            a == reference@,
            b == hypothesis@,
            T::obeys_eq_spec(),
            prev@.len() == h + 1,
            curr@.len() == h + 1,
            forall|k: int| 0 <= k <= h ==> prev@[k] == levenshtein_eq(a.take(i - 1), b.take(k)),
        decreases r + 1 - i,
    {
        proof {
            assert(b.take(0).len() == 0);
        }
        curr.set(0, i);
        let mut j: usize = 1;
        while j <= h
            invariant
                1 <= i <= r,
                1 <= j <= h + 1,
                r == a.len(),
                h == b.len(),
                r < usize::MAX,
                h < usize::MAX,
                a == reference@,
                b == hypothesis@,
                T::obeys_eq_spec(),
                    prev@.len() == h + 1,
                curr@.len() == h + 1,
                forall|k: int| 0 <= k <= h ==> prev@[k] == levenshtein_eq(a.take(i - 1), b.take(k)),
                forall|k: int| 0 <= k < j ==> curr@[k] == levenshtein_eq(a.take(i as int), b.take(k)),
            decreases h + 1 - j,
        {
            proof {
                lemma_levenshtein_eq_prefix_step(a, b, i as int, j as int);
                lemma_levenshtein_eq_bounds(a.take(i - 1), b.take(j - 1));
                lemma_levenshtein_eq_bounds(a.take(i - 1), b.take(j as int));
                lemma_levenshtein_eq_bounds(a.take(i as int), b.take(j - 1));
            }
            let differ = reference[i - 1] != hypothesis[j - 1];
            let sub = if differ {
                prev[j - 1] + 1
            } else {
                prev[j - 1]
            };
            let del = prev[j] + 1;
            let ins = curr[j - 1] + 1;
            let best = if sub <= del && sub <= ins {
                sub
            } else if del <= ins {
                del
            } else {
                ins
            };
            curr.set(j, best);
            j = j + 1;
        }
        std::mem::swap(&mut prev, &mut curr);
        i = i + 1;
    }
    proof {
        assert(a.take(r as int) =~= a);
        assert(b.take(h as int) =~= b);
    }
    prev[h]
}

/// Relabelling tokens leaves the distance unchanged when it keeps exactly the
/// same pairs of tokens equal.
pub proof fn lemma_levenshtein_relabel<T, U>(a: Seq<T>, b: Seq<T>, x: Seq<U>, y: Seq<U>)
    requires
        a.len() == x.len(),
        b.len() == y.len(),
        forall|i: int, j: int|
            0 <= i < a.len() && 0 <= j < b.len() ==> (a[i] == b[j] <==> x[i] == y[j]),
    ensures
        levenshtein(a, b) == levenshtein(x, y),
    decreases a.len() + b.len(),
{
    if a.len() > 0 && b.len() > 0 {
        assert(a.last() == a[a.len() - 1]);
        assert(b.last() == b[b.len() - 1]);
        assert(a.last() == b.last() <==> x.last() == y.last());
        lemma_levenshtein_relabel(a.drop_last(), b.drop_last(), x.drop_last(), y.drop_last());
        lemma_levenshtein_relabel(a.drop_last(), b, x.drop_last(), y);
        lemma_levenshtein_relabel(a, b.drop_last(), x, y.drop_last());
    }
}

/// The index of `w` in `vocab`, if it is there.
fn find_word(vocab: &Vec<&Vec<char>>, w: &Vec<char>) -> (k: Option<usize>)
    ensures
        k matches Some(k) ==> k < vocab@.len() && vocab@[k as int]@ == w@,
        k is None ==> forall|p: int| 0 <= p < vocab@.len() ==> vocab@[p]@ != w@,
{
    let mut p: usize = 0;
    while p < vocab.len()
        invariant
            p <= vocab@.len(),
            forall|q: int| 0 <= q < p ==> vocab@[q]@ != w@,
        decreases vocab@.len() - p,
    {
        if chars_equal(vocab[p], w) {
            return Some(p);
        }
        p = p + 1;
    }
    None
}

/// Numbers words so that two words get the same number exactly when they are
/// the same word.
fn number_words(r: &Vec<Vec<char>>, h: &Vec<Vec<char>>) -> (ids: (Vec<usize>, Vec<usize>))
    ensures
        ids.0@.len() == r@.len(),
        ids.1@.len() == h@.len(),
        forall|i: int, j: int|
            0 <= i < r@.len() && 0 <= j < h@.len() ==> (r@[i]@ == h@[j]@ <==> ids.0@[i]
                == ids.1@[j]),
{
    let mut vocab: Vec<&Vec<char>> = Vec::new();
    let mut ir: Vec<usize> = Vec::new();
    let mut ih: Vec<usize> = Vec::new();
    let mut i: usize = 0;
    while i < r.len()
        invariant
            i <= r@.len(),
            ir@.len() == i,
            forall|p: int, q: int| 0 <= p < q < vocab@.len() ==> vocab@[p]@ != vocab@[q]@,
            forall|k: int| 0 <= k < i ==> ir@[k] < vocab@.len() && vocab@[ir@[k] as int]@ == r@[k]@,
        decreases r@.len() - i,
    {
        match find_word(&vocab, &r[i]) {
            Some(k) => ir.push(k),
            None => {
                let k = vocab.len();
                vocab.push(&r[i]);
                ir.push(k);
            },
        }
        i = i + 1;
    }
    let mut j: usize = 0;
    while j < h.len()
        invariant
            j <= h@.len(),
            ir@.len() == r@.len(),
            ih@.len() == j,
            forall|p: int, q: int| 0 <= p < q < vocab@.len() ==> vocab@[p]@ != vocab@[q]@,
            forall|k: int|
                0 <= k < r@.len() ==> ir@[k] < vocab@.len() && vocab@[ir@[k] as int]@ == r@[k]@,
            forall|k: int| 0 <= k < j ==> ih@[k] < vocab@.len() && vocab@[ih@[k] as int]@ == h@[k]@,
        decreases h@.len() - j,
    {
        match find_word(&vocab, &h[j]) {
            Some(k) => ih.push(k),
            None => {
                let k = vocab.len();
                vocab.push(&h[j]);
                ih.push(k);
            },
        }
        j = j + 1;
    }
    proof {
        assert forall|i: int, j: int|
            0 <= i < r@.len() && 0 <= j < h@.len() implies (r@[i]@ == h@[j]@ <==> ir@[i]
                == ih@[j]) by {
            let p = ir@[i] as int;
            let q = ih@[j] as int;
            if r@[i]@ == h@[j]@ && p != q {
                if p < q {
                    assert(vocab@[p]@ != vocab@[q]@);
                } else {
                    assert(vocab@[q]@ != vocab@[p]@);
                }
            }
        }
    }
    (ir, ih)
}

/// Edit distance between the words of a reference and of a hypothesis.
pub fn word_edit_distance(reference: &str, hypothesis: &str) -> (d: usize)
    ensures
        d == levenshtein(split_words(reference@), split_words(hypothesis@)),
{
    let rc = chars_of(reference);
    let hc = chars_of(hypothesis);
    let rw = split_whitespace(rc.as_slice());
    let hw = split_whitespace(hc.as_slice());
    let (ir, ih) = number_words(&rw, &hw);
    let _rn = rc.len();
    let _hn = hc.len();
    proof {
        assert(rw@.len() < usize::MAX);
        assert(hw@.len() < usize::MAX);
        assert(rw@.map_values(|w: Vec<char>| w@).len() == rw@.len());
        assert(hw@.map_values(|w: Vec<char>| w@).len() == hw@.len());
        lemma_levenshtein_relabel(
            rw@.map_values(|w: Vec<char>| w@),
            hw@.map_values(|w: Vec<char>| w@),
            ir@,
            ih@,
        );
        lemma_levenshtein_eq_structural(ir@, ih@);
    }
    edit_distance(ir.as_slice(), ih.as_slice())
}

/// A sequence of (reference, hypothesis) strings, by their characters.
pub open spec fn pair_views(pairs: Seq<(String, String)>) -> Seq<(Seq<char>, Seq<char>)> {
    pairs.map_values(|p: (String, String)| (p.0@, p.1@))
}

/// Pooled word edits and reference words over (reference, hypothesis) pairs.
pub open spec fn corpus_word_totals(pairs: Seq<(Seq<char>, Seq<char>)>) -> (nat, nat)
    decreases pairs.len(),
{
    if pairs.len() == 0 {
        (0, 0)
    } else {
        let t = corpus_word_totals(pairs.drop_last());
        let p = pairs.last();
        (
            t.0 + levenshtein(split_words(p.0), split_words(p.1)),
            t.1 + split_words(p.0).len(),
        )
    }
}

/// Totals over a prefix of the pairs never exceed the totals over all of them.
pub proof fn lemma_corpus_word_totals_prefix(pairs: Seq<(Seq<char>, Seq<char>)>, i: int)
    requires
        0 <= i <= pairs.len(),
    ensures
        corpus_word_totals(pairs.take(i)).0 <= corpus_word_totals(pairs).0,
        corpus_word_totals(pairs.take(i)).1 <= corpus_word_totals(pairs).1,
    decreases pairs.len(),
{
    if i < pairs.len() {
        lemma_corpus_word_totals_prefix(pairs.drop_last(), i);
        assert(pairs.drop_last().take(i) =~= pairs.take(i));
    } else {
        assert(pairs.take(i) =~= pairs);
    }
}

/// Pooled corpus word edits and reference word count over (reference,
/// hypothesis) pairs of normalized text: the numerator and denominator of the
/// corpus word error rate.
pub fn corpus_word_counts(pairs: &[(String, String)]) -> (counts: (usize, usize))
    requires
        corpus_word_totals(pair_views(pairs@)).0 <= usize::MAX,
        corpus_word_totals(pair_views(pairs@)).1 <= usize::MAX,
    ensures
        counts.0 == corpus_word_totals(pair_views(pairs@)).0,
        counts.1 == corpus_word_totals(pair_views(pairs@)).1,
{
    let ghost all = pair_views(pairs@);
    let mut edits: usize = 0;
    let mut ref_words: usize = 0;
    let mut i: usize = 0;
    while i < pairs.len()
        invariant
            i <= pairs@.len(),
            all == pair_views(pairs@),
            all.len() == pairs@.len(),
            corpus_word_totals(all).0 <= usize::MAX,
            corpus_word_totals(all).1 <= usize::MAX,
            edits == corpus_word_totals(all.take(i as int)).0,
            ref_words == corpus_word_totals(all.take(i as int)).1,
        decreases pairs@.len() - i,
    {
        let (reference, hypothesis) = (&pairs[i].0, &pairs[i].1);
        let d = word_edit_distance(reference.as_str(), hypothesis.as_str());
        let rc = chars_of(reference.as_str());
        let n = split_whitespace(rc.as_slice()).len();
        proof {
            assert(all.take(i + 1).drop_last() =~= all.take(i as int));
            assert(all.take(i + 1).last() == all[i as int]);
            lemma_corpus_word_totals_prefix(all, i + 1);
        }
        edits = edits + d;
        ref_words = ref_words + n;
        i = i + 1;
    }
    proof {
        assert(all.take(pairs@.len() as int) =~= all);
    }
    (edits, ref_words)
}

/// The characters of `s` other than whitespace.
pub open spec fn non_space_chars(s: Seq<char>) -> Seq<char>
    decreases s.len(),
{
    if s.len() == 0 {
        seq![]
    } else if is_white_space(s.last()) {
        non_space_chars(s.drop_last())
    } else {
        non_space_chars(s.drop_last()).push(s.last())
    }
}

/// The code points of the non-whitespace characters of `s`.
fn non_space_code_points(s: &str) -> (v: Vec<u32>)
    ensures
        v@.len() == non_space_chars(s@).len(),
        forall|k: int| 0 <= k < v@.len() ==> v@[k] == non_space_chars(s@)[k] as u32,
        v@.len() <= s@.len(),
{
    let c = chars_of(s);
    let mut v: Vec<u32> = Vec::new();
    let mut i: usize = 0;
    while i < c.len()
        invariant
            i <= c@.len(),
            c@ == s@,
            v@.len() == non_space_chars(c@.take(i as int)).len(),
            v@.len() <= i,
            forall|k: int|
                0 <= k < v@.len() ==> v@[k] == non_space_chars(c@.take(i as int))[k] as u32,
        decreases c@.len() - i,
    {
        proof {
            assert(c@.take(i + 1).drop_last() =~= c@.take(i as int));
            assert(c@.take(i + 1).last() == c@[i as int]);
        }
        let ch = c[i];
        if !is_whitespace(ch) {
            v.push(ch as u32);
        }
        i = i + 1;
    }
    proof {
        assert(c@.take(c@.len() as int) =~= c@);
    }
    v
}

/// Edit distance between the non-whitespace characters of a reference and of
/// a hypothesis.
pub fn char_edit_distance(reference: &str, hypothesis: &str) -> (d: usize)
    requires
        reference@.len() < usize::MAX,
        hypothesis@.len() < usize::MAX,
    ensures
        d == levenshtein(non_space_chars(reference@), non_space_chars(hypothesis@)),
{
    let r = non_space_code_points(reference);
    let h = non_space_code_points(hypothesis);
    proof {
        let a = non_space_chars(reference@);
        let b = non_space_chars(hypothesis@);
        assert forall|i: int, j: int|
            0 <= i < a.len() && 0 <= j < b.len() implies (a[i] == b[j] <==> r@[i] == h@[j]) by {
            assert(r@[i] == a[i] as u32);
            assert(h@[j] == b[j] as u32);
            vstd::utf8::char_u32_cast(a[i], r@[i]);
            vstd::utf8::char_u32_cast(b[j], h@[j]);
        }
        lemma_levenshtein_relabel(a, b, r@, h@);
        lemma_levenshtein_eq_structural(r@, h@);
    }
    edit_distance(r.as_slice(), h.as_slice())
}

/// Pooled character edits and reference characters over (reference,
/// hypothesis) pairs, whitespace ignored.
pub open spec fn corpus_char_totals(pairs: Seq<(Seq<char>, Seq<char>)>) -> (nat, nat)
    decreases pairs.len(),
{
    if pairs.len() == 0 {
        (0, 0)
    } else {
        let t = corpus_char_totals(pairs.drop_last());
        let p = pairs.last();
        (
            t.0 + levenshtein(non_space_chars(p.0), non_space_chars(p.1)),
            t.1 + non_space_chars(p.0).len(),
        )
    }
}

/// Totals over a prefix of the pairs never exceed the totals over all of them.
pub proof fn lemma_corpus_char_totals_prefix(pairs: Seq<(Seq<char>, Seq<char>)>, i: int)
    requires
        0 <= i <= pairs.len(),
    ensures
        corpus_char_totals(pairs.take(i)).0 <= corpus_char_totals(pairs).0,
        corpus_char_totals(pairs.take(i)).1 <= corpus_char_totals(pairs).1,
    decreases pairs.len(),
{
    if i < pairs.len() {
        lemma_corpus_char_totals_prefix(pairs.drop_last(), i);
        assert(pairs.drop_last().take(i) =~= pairs.take(i));
    } else {
        assert(pairs.take(i) =~= pairs);
    }
}

/// Pooled corpus character edits and reference character count over
/// (reference, hypothesis) pairs of normalized text, whitespace ignored: the
/// numerator and denominator of the corpus character error rate.
pub fn corpus_char_counts(pairs: &[(String, String)]) -> (counts: (usize, usize))
    requires
        forall|k: int|
            0 <= k < pairs@.len() ==> #[trigger] pairs@[k].0@.len() < usize::MAX
                && pairs@[k].1@.len() < usize::MAX,
        corpus_char_totals(pair_views(pairs@)).0 <= usize::MAX,
        corpus_char_totals(pair_views(pairs@)).1 <= usize::MAX,
    ensures
        counts.0 == corpus_char_totals(pair_views(pairs@)).0,
        counts.1 == corpus_char_totals(pair_views(pairs@)).1,
{
    let ghost all = pair_views(pairs@);
    let mut edits: usize = 0;
    let mut ref_chars: usize = 0;
    let mut i: usize = 0;
    while i < pairs.len()
        invariant
            i <= pairs@.len(),
            all == pair_views(pairs@),
            all.len() == pairs@.len(),
            forall|k: int|
                0 <= k < pairs@.len() ==> #[trigger] pairs@[k].0@.len() < usize::MAX
                    && pairs@[k].1@.len() < usize::MAX,
            corpus_char_totals(all).0 <= usize::MAX,
            corpus_char_totals(all).1 <= usize::MAX,
            edits == corpus_char_totals(all.take(i as int)).0,
            ref_chars == corpus_char_totals(all.take(i as int)).1,
        decreases pairs@.len() - i,
    {
        let (reference, hypothesis) = (&pairs[i].0, &pairs[i].1);
        proof {
            assert(pairs@[i as int].0@.len() < usize::MAX);
        }
        let d = char_edit_distance(reference.as_str(), hypothesis.as_str());
        let n = non_space_code_points(reference.as_str()).len();
        proof {
            assert(all.take(i + 1).drop_last() =~= all.take(i as int));
            assert(all.take(i + 1).last() == all[i as int]);
            lemma_corpus_char_totals_prefix(all, i + 1);
        }
        edits = edits + d;
        ref_chars = ref_chars + n;
        i = i + 1;
    }
    proof {
        assert(all.take(pairs@.len() as int) =~= all);
    }
    (edits, ref_chars)
}

} // verus!

verus! {

/// Pooling is additive: the word totals of two corpora taken together are
/// the sums of their totals.
pub proof fn lemma_corpus_word_totals_concat(a: Seq<(Seq<char>, Seq<char>)>, b: Seq<(Seq<char>, Seq<char>)>)
    ensures
        corpus_word_totals(a + b).0 == corpus_word_totals(a).0 + corpus_word_totals(b).0,
        corpus_word_totals(a + b).1 == corpus_word_totals(a).1 + corpus_word_totals(b).1,
    decreases b.len(),
{
    if b.len() == 0 {
        assert(a + b =~= a);
    } else {
        lemma_corpus_word_totals_concat(a, b.drop_last());
        assert((a + b).drop_last() =~= a + b.drop_last());
        assert((a + b).last() == b.last());
    }
}

/// A single pair contributes its word edit distance and the number of
/// whitespace-separated words of its reference (the places where a word
/// starts, not its characters); adding a pair to a corpus
/// adds exactly that to the pooled totals, so the second total is the number
/// of reference words over all pairs.
pub proof fn lemma_corpus_word_totals_push(pairs: Seq<(Seq<char>, Seq<char>)>, reference: Seq<char>, hypothesis: Seq<char>)
    ensures
        corpus_word_totals(seq![(reference, hypothesis)]) == (
            levenshtein(split_words(reference), split_words(hypothesis)),
            split_words(reference).len(),
        ),
        corpus_word_totals(seq![(reference, hypothesis)]).1 == word_starts(reference),
        corpus_word_totals(pairs.push((reference, hypothesis))).0 == corpus_word_totals(pairs).0
            + levenshtein(split_words(reference), split_words(hypothesis)),
        corpus_word_totals(pairs.push((reference, hypothesis))).1 == corpus_word_totals(pairs).1
            + split_words(reference).len(),
{
    let one = seq![(reference, hypothesis)];
    lemma_split_words_shape(reference);
    assert(one.drop_last() =~= Seq::<(Seq<char>, Seq<char>)>::empty());
    assert(corpus_word_totals(one.drop_last()) == (0nat, 0nat));
    assert(one.last() == (reference, hypothesis));
    assert(pairs.push((reference, hypothesis)).drop_last() =~= pairs);
}

/// The characters that the character error rate counts are those of the
/// text that are not whitespace, in order.
pub proof fn lemma_non_space_chars_filter(s: Seq<char>)
    ensures
        non_space_chars(s) == s.filter(|c: char| !is_white_space(c)),
    decreases s.len(),
{
    reveal(Seq::filter);
    if s.len() > 0 {
        lemma_non_space_chars_filter(s.drop_last());
    }
}

/// A single pair contributes its character edit distance and the number of
/// characters of its reference other than whitespace; adding a pair to a
/// corpus adds exactly that to the pooled totals.
pub proof fn lemma_corpus_char_totals_push(pairs: Seq<(Seq<char>, Seq<char>)>, reference: Seq<char>, hypothesis: Seq<char>)
    ensures
        corpus_char_totals(seq![(reference, hypothesis)]) == (
            levenshtein(non_space_chars(reference), non_space_chars(hypothesis)),
            non_space_chars(reference).len(),
        ),
        corpus_char_totals(seq![(reference, hypothesis)]).1 == reference.filter(
            |c: char| !is_white_space(c),
        ).len(),
        corpus_char_totals(pairs.push((reference, hypothesis))).0 == corpus_char_totals(pairs).0
            + levenshtein(non_space_chars(reference), non_space_chars(hypothesis)),
        corpus_char_totals(pairs.push((reference, hypothesis))).1 == corpus_char_totals(pairs).1
            + non_space_chars(reference).len(),
{
    let one = seq![(reference, hypothesis)];
    lemma_non_space_chars_filter(reference);
    assert(one.drop_last() =~= Seq::<(Seq<char>, Seq<char>)>::empty());
    assert(corpus_char_totals(one.drop_last()) == (0nat, 0nat));
    assert(one.last() == (reference, hypothesis));
    assert(pairs.push((reference, hypothesis)).drop_last() =~= pairs);
}

/// Pooling is additive: the character totals of two corpora taken together
/// are the sums of their totals.
pub proof fn lemma_corpus_char_totals_concat(a: Seq<(Seq<char>, Seq<char>)>, b: Seq<(Seq<char>, Seq<char>)>)
    ensures
        corpus_char_totals(a + b).0 == corpus_char_totals(a).0 + corpus_char_totals(b).0,
        corpus_char_totals(a + b).1 == corpus_char_totals(a).1 + corpus_char_totals(b).1,
    decreases b.len(),
{
    if b.len() == 0 {
        assert(a + b =~= a);
    } else {
        lemma_corpus_char_totals_concat(a, b.drop_last());
        assert((a + b).drop_last() =~= a + b.drop_last());
        assert((a + b).last() == b.last());
    }
}

} // verus!

verus! {

/// Appending one token to either side changes the distance by at most one.
proof fn lemma_levenshtein_append_one<T>(a: Seq<T>, b: Seq<T>, x: T)
    ensures
        levenshtein(a.push(x), b) <= levenshtein(a, b) + 1,
        levenshtein(a, b.push(x)) <= levenshtein(a, b) + 1,
{
    assert(a.push(x).drop_last() =~= a);
    assert(b.push(x).drop_last() =~= b);
    if b.len() == 0 {
        lemma_levenshtein_upper_bound(a, b.push(x));
    }
    if a.len() == 0 {
        lemma_levenshtein_upper_bound(a.push(x), b);
    }
}

/// The distance is a metric's: going through an intermediate sequence never
/// beats going directly.
pub proof fn lemma_levenshtein_triangle<T>(a: Seq<T>, b: Seq<T>, c: Seq<T>)
    ensures
        levenshtein(a, c) <= levenshtein(a, b) + levenshtein(b, c),
    decreases a.len() + b.len() + c.len(),
{
    if b.len() == 0 {
        lemma_levenshtein_upper_bound(a, c);
    } else if a.len() == 0 {
        lemma_levenshtein_lower_bound(b, c);
    } else if c.len() == 0 {
        lemma_levenshtein_lower_bound(a, b);
    } else {
        let (a1, x) = (a.drop_last(), a.last());
        let (b1, y) = (b.drop_last(), b.last());
        let (c1, z) = (c.drop_last(), c.last());
        assert(a =~= a1.push(x));
        assert(b =~= b1.push(y));
        assert(c =~= c1.push(z));
        let dab: nat = if x == y { 0 } else { 1 };
        let dbc: nat = if y == z { 0 } else { 1 };
        let dac: nat = if x == z { 0 } else { 1 };
        let lab = levenshtein(a, b);
        let lbc = levenshtein(b, c);
        if lab == levenshtein(a1, b) + 1 {
            lemma_levenshtein_triangle(a1, b, c);
        } else if lbc == levenshtein(b, c1) + 1 {
            lemma_levenshtein_triangle(a, b, c1);
        } else if lab == levenshtein(a, b1) + 1 {
            lemma_levenshtein_triangle(a, b1, c);
            if lbc == levenshtein(b1, c) + 1 {
            } else {
                assert(lbc == levenshtein(b1, c1) + dbc);
                lemma_levenshtein_append_one(b1, c1, z);
            }
        } else {
            assert(lab == levenshtein(a1, b1) + dab);
            if lbc == levenshtein(b1, c) + 1 {
                lemma_levenshtein_triangle(a, b1, c);
                lemma_levenshtein_append_one(a1, b1, x);
            } else {
                assert(lbc == levenshtein(b1, c1) + dbc);
                lemma_levenshtein_triangle(a1, b1, c1);
                assert(dac <= dab + dbc);
            }
        }
    }
}

} // verus!
