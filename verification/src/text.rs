//! Character-level text utilities shared by the tokenizer, the metrics and
//! the normalizers: whitespace, word splitting, trimming, and moving between
//! strings and character vectors.

use vstd::prelude::*;

verus! {

/// The Unicode `White_Space` property, which `char::is_whitespace` tests.
pub open spec fn is_white_space(c: char) -> bool {
    ||| ('\u{9}' <= c && c <= '\u{d}')
    ||| c == ' '
    ||| c == '\u{85}'
    ||| c == '\u{a0}'
    ||| c == '\u{1680}'
    ||| ('\u{2000}' <= c && c <= '\u{200a}')
    ||| c == '\u{2028}'
    ||| c == '\u{2029}'
    ||| c == '\u{202f}'
    ||| c == '\u{205f}'
    ||| c == '\u{3000}'
}

/// Whether `c` is a whitespace character.
pub fn is_whitespace(c: char) -> (b: bool)
    ensures
        b == is_white_space(c),
{
    ('\u{9}' <= c && c <= '\u{d}') || c == ' ' || c == '\u{85}' || c == '\u{a0}' || c == '\u{1680}'
        || ('\u{2000}' <= c && c <= '\u{200a}') || c == '\u{2028}' || c == '\u{2029}' || c
        == '\u{202f}' || c == '\u{205f}' || c == '\u{3000}'
}

/// Whether two character vectors hold the same characters.
pub fn chars_equal(a: &[char], b: &[char]) -> (eq: bool)
    ensures
        eq == (a@ == b@),
{
    if a.len() != b.len() {
        return false;
    }
    let mut i: usize = 0;
    while i < a.len()
        invariant
            a@.len() == b@.len(),
            i <= a@.len(),
            forall|k: int| 0 <= k < i ==> a@[k] == b@[k],
        decreases a@.len() - i,
    {
        if a[i] != b[i] {
            return false;
        }
        i = i + 1;
    }
    assert(a@ =~= b@);
    true
}

/// The characters of a string, in order.
pub fn chars_of(s: &str) -> (v: Vec<char>)
    ensures
        v@ == s@,
{
    let mut v: Vec<char> = Vec::new();
    for c in it: s.chars()
        invariant
            v@ == it.seq().take(it.index() as int),
            it.seq() == s@,
    {
        v.push(c);
    }
    v
}

} // verus!

verus! {

/// Builds a `String` holding exactly the given characters, in order.
///
/// Calls std's `FromIterator<char>` for `String`; the contract claims that the
/// string collected from the characters consists of those characters.
#[verifier::external_body]
pub(crate) fn string_from_chars(v: &[char]) -> (s: String)
    ensures
        s@ == v@,
{
    v.iter().collect()
}

/// The words of `s`: its maximal runs of non-whitespace characters, in order.
pub open spec fn split_words(s: Seq<char>) -> Seq<Seq<char>>
    decreases s.len(),
{
    if s.len() == 0 {
        seq![]
    } else {
        let w = split_words(s.drop_last());
        let c = s.last();
        if is_white_space(c) {
            w
        } else if s.len() >= 2 && !is_white_space(s[s.len() - 2]) && w.len() > 0 {
            w.update(w.len() - 1, w.last().push(c))
        } else {
            w.push(seq![c])
        }
    }
}

/// The words so far, with the word under construction appended when there is one.
pub open spec fn words_with_current(words: Seq<Seq<char>>, cur: Seq<char>) -> Seq<Seq<char>> {
    if cur.len() > 0 {
        words.push(cur)
    } else {
        words
    }
}

/// Splits characters into words at whitespace, as `str::split_whitespace` does.
pub fn split_whitespace(s: &[char]) -> (words: Vec<Vec<char>>)
    ensures
        words@.map_values(|w: Vec<char>| w@) == split_words(s@),
        2 * words@.len() <= s@.len() + 1,
{
    let mut words: Vec<Vec<char>> = Vec::new();
    let mut cur: Vec<char> = Vec::new();
    let mut i: usize = 0;
    while i < s.len()
        invariant
            i <= s@.len(),
            words_with_current(words@.map_values(|w: Vec<char>| w@), cur@) == split_words(
                s@.take(i as int),
            ),
            cur@.len() > 0 <==> (i > 0 && !is_white_space(s@[i - 1])),
            cur@.len() == 0 ==> 2 * words@.len() <= i,
            cur@.len() > 0 ==> 2 * words@.len() + 1 <= i,
        decreases s@.len() - i,
    {
        let c = s[i];
        let ghost before = words@.map_values(|w: Vec<char>| w@);
        let ghost cur_before = cur@;
        proof {
            assert(s@.take(i + 1).drop_last() =~= s@.take(i as int));
            assert(s@.take(i + 1).last() == c);
        }
        if is_whitespace(c) {
            if cur.len() > 0 {
                let done = cur;
                words.push(done);
                cur = Vec::new();
                assert(words@.map_values(|w: Vec<char>| w@) =~= before.push(cur_before));
            }
        } else {
            cur.push(c);
            proof {
                let w = split_words(s@.take(i as int));
                if cur_before.len() > 0 {
                    assert(w == before.push(cur_before));
                    assert(s@.take(i + 1)[i - 1] == s@[i - 1]);
                    assert(w.update(w.len() - 1, w.last().push(c)) =~= before.push(cur@));
                } else {
                    assert(w == before);
                    if i >= 1 {
                        assert(s@.take(i + 1)[i - 1] == s@[i - 1]);
                    }
                    assert(cur@ =~= seq![c]);
                }
            }
        }
        i = i + 1;
    }
    if cur.len() > 0 {
        words.push(cur);
    }
    proof {
        assert(s@.take(s@.len() as int) =~= s@);
    }
    words
}

/// The number of places in `s` where a word starts: a character other than
/// whitespace that begins `s` or follows whitespace.
pub open spec fn word_starts(s: Seq<char>) -> nat
    decreases s.len(),
{
    if s.len() == 0 {
        0
    } else {
        let starts_here = !is_white_space(s.last()) && (s.len() == 1 || is_white_space(
            s[s.len() - 2],
        ));
        word_starts(s.drop_last()) + if starts_here {
            1nat
        } else {
            0nat
        }
    }
}

/// The words of a text are non-empty and hold no whitespace, and there is
/// one word for each place where a word starts.
pub proof fn lemma_split_words_shape(s: Seq<char>)
    ensures
        split_words(s).len() == word_starts(s),
        forall|i: int| 0 <= i < split_words(s).len() ==> #[trigger] split_words(s)[i].len() > 0,
        forall|i: int, j: int|
            0 <= i < split_words(s).len() && 0 <= j < split_words(s)[i].len() ==> !is_white_space(
                #[trigger] split_words(s)[i][j],
            ),
        s.len() > 0 && !is_white_space(s.last()) ==> split_words(s).len() > 0,
    decreases s.len(),
{
    if s.len() > 0 {
        let w = split_words(s.drop_last());
        lemma_split_words_shape(s.drop_last());
        let c = s.last();
        if !is_white_space(c) {
            if s.len() >= 2 && !is_white_space(s[s.len() - 2]) {
                assert(s.drop_last().last() == s[s.len() - 2]);
                let u = w.update(w.len() - 1, w.last().push(c));
                assert forall|i: int, j: int|
                    0 <= i < u.len() && 0 <= j < u[i].len() implies !is_white_space(u[i][j]) by {
                    if i == w.len() - 1 && j < w.last().len() {
                        assert(u[i][j] == w[i][j]);
                    }
                }
            } else {
                let u = w.push(seq![c]);
                assert forall|i: int, j: int|
                    0 <= i < u.len() && 0 <= j < u[i].len() implies !is_white_space(u[i][j]) by {
                    if i < w.len() {
                        assert(u[i] == w[i]);
                    }
                }
            }
        }
    }
}

} // verus!

verus! {

/// `s` without its leading whitespace.
pub open spec fn trim_start_spec(s: Seq<char>) -> Seq<char>
    decreases s.len(),
{
    if s.len() > 0 && is_white_space(s[0]) {
        trim_start_spec(s.drop_first())
    } else {
        s
    }
}

/// `s` without its trailing whitespace.
pub open spec fn trim_end_spec(s: Seq<char>) -> Seq<char>
    decreases s.len(),
{
    if s.len() > 0 && is_white_space(s.last()) {
        trim_end_spec(s.drop_last())
    } else {
        s
    }
}

/// `s` without leading and trailing whitespace, as `str::trim` gives it.
pub open spec fn trimmed(s: Seq<char>) -> Seq<char> {
    trim_end_spec(trim_start_spec(s))
}

/// The characters of `s` between `from` and `to`.
pub fn chars_between(s: &[char], from: usize, to: usize) -> (v: Vec<char>)
    requires
        from <= to <= s@.len(),
    ensures
        v@ == s@.subrange(from as int, to as int),
{
    let mut v: Vec<char> = Vec::new();
    let mut i: usize = from;
    while i < to
        invariant
            from <= i <= to,
            to <= s@.len(),
            v@ == s@.subrange(from as int, i as int),
        decreases to - i,
    {
        v.push(s[i]);
        i = i + 1;
        assert(v@ =~= s@.subrange(from as int, i as int));
    }
    v
}

/// Characters without leading and trailing whitespace.
pub fn trim_chars(c: &[char]) -> (v: Vec<char>)
    ensures
        v@ == trimmed(c@),
{
    let n = c.len();
    let mut a: usize = 0;
    assert(c@.skip(0) =~= c@);
    while a < n && is_whitespace(c[a])
        invariant
            a <= n,
            n == c@.len(),
            trim_start_spec(c@) == trim_start_spec(c@.skip(a as int)),
        decreases n - a,
    {
        assert(c@.skip(a as int).drop_first() =~= c@.skip(a + 1));
        a = a + 1;
    }
    proof {
        if a < n {
            assert(c@.skip(a as int)[0] == c@[a as int]);
        }
    }
    let mut b: usize = n;
    while b > a && is_whitespace(c[b - 1])
        invariant
            a <= b <= n,
            n == c@.len(),
            trim_start_spec(c@) == c@.skip(a as int),
            trimmed(c@) == trim_end_spec(c@.subrange(a as int, b as int)),
        decreases b - a,
    {
        assert(c@.subrange(a as int, b as int).drop_last() =~= c@.subrange(a as int, b - 1));
        b = b - 1;
    }
    proof {
        assert(c@.skip(a as int) =~= c@.subrange(a as int, n as int));
        if b > a {
            assert(c@.subrange(a as int, b as int).last() == c@[b - 1]);
        }
    }
    chars_between(c, a, b)
}

/// A string without leading and trailing whitespace.
pub fn trim(s: &str) -> (t: String)
    ensures
        t@ == trimmed(s@),
{
    let c = chars_of(s);
    let v = trim_chars(c.as_slice());
    string_from_chars(v.as_slice())
}

} // verus!

verus! {

/// Trimmed text neither begins nor ends with whitespace.
pub proof fn lemma_trimmed_ends(s: Seq<char>)
    ensures
        trimmed(s).len() > 0 ==> !is_white_space(trimmed(s)[0]) && !is_white_space(
            trimmed(s).last(),
        ),
{
    lemma_trim_start_first(s);
    lemma_trim_end_prefix(trim_start_spec(s));
}

/// Leading-whitespace removal leaves a sequence that is empty or starts
/// with a non-whitespace character.
proof fn lemma_trim_start_first(s: Seq<char>)
    ensures
        trim_start_spec(s).len() > 0 ==> !is_white_space(trim_start_spec(s)[0]),
    decreases s.len(),
{
    if s.len() > 0 && is_white_space(s[0]) {
        lemma_trim_start_first(s.drop_first());
    }
}

/// Trailing-whitespace removal keeps a prefix, and what it keeps is empty or
/// ends with a non-whitespace character.
proof fn lemma_trim_end_prefix(s: Seq<char>)
    ensures
        trim_end_spec(s).len() <= s.len(),
        trim_end_spec(s) == s.take(trim_end_spec(s).len() as int),
        trim_end_spec(s).len() > 0 ==> !is_white_space(trim_end_spec(s).last()),
    decreases s.len(),
{
    if s.len() > 0 && is_white_space(s.last()) {
        lemma_trim_end_prefix(s.drop_last());
        let t = trim_end_spec(s.drop_last());
        assert(s.drop_last().take(t.len() as int) =~= s.take(t.len() as int));
    } else {
        assert(s.take(s.len() as int) =~= s);
    }
}

} // verus!

verus! {

/// `s` with every maximal run of whitespace replaced by one space, as
/// replacing each match of the regular expression `\s+` (Unicode
/// `White_Space`) by " " leaves it.
pub open spec fn collapse_whitespace(s: Seq<char>) -> Seq<char>
    decreases s.len(),
{
    if s.len() == 0 {
        seq![]
    } else {
        let r = collapse_whitespace(s.drop_last());
        let c = s.last();
        if is_white_space(c) {
            if s.len() >= 2 && is_white_space(s[s.len() - 2]) {
                r
            } else {
                r.push(' ')
            }
        } else {
            r.push(c)
        }
    }
}

/// Whether the only whitespace in `t` is single spaces: every whitespace
/// character is a space, and no two whitespace characters are neighbours.
pub open spec fn single_spaced(t: Seq<char>) -> bool {
    &&& forall|i: int| 0 <= i < t.len() && is_white_space(#[trigger] t[i]) ==> t[i] == ' '
    &&& forall|i: int|
        0 <= i < t.len() - 1 && is_white_space(#[trigger] t[i]) ==> !is_white_space(t[i + 1])
}

/// Collapsing keeps the text single-spaced, and its last character is
/// whitespace exactly when the text's is.
pub proof fn lemma_collapse_single_spaced(s: Seq<char>)
    ensures
        single_spaced(collapse_whitespace(s)),
        collapse_whitespace(s).len() > 0 <==> s.len() > 0,
        s.len() > 0 ==> (is_white_space(collapse_whitespace(s).last()) <==> is_white_space(
            s.last(),
        )),
    decreases s.len(),
{
    if s.len() > 0 {
        let d = s.drop_last();
        lemma_collapse_single_spaced(d);
        let r = collapse_whitespace(d);
        let t = collapse_whitespace(s);
        if s.len() >= 2 {
            assert(d.last() == s[s.len() - 2]);
        }
        if t != r {
            assert forall|i: int| 0 <= i < t.len() && is_white_space(#[trigger] t[i]) implies t[i]
                == ' ' by {
                if i < r.len() {
                    assert(t[i] == r[i]);
                }
            }
            assert forall|i: int|
                0 <= i < t.len() - 1 && is_white_space(#[trigger] t[i]) implies !is_white_space(
                t[i + 1],
            ) by {
                assert(t[i] == r[i]);
                if i + 1 < r.len() {
                    assert(t[i + 1] == r[i + 1]);
                } else {
                    assert(i == r.len() - 1);
                    assert(r.last() == r[i]);
                }
            }
        }
    }
}

/// Leading-whitespace removal keeps a suffix.
proof fn lemma_trim_start_suffix(s: Seq<char>) -> (k: int)
    ensures
        0 <= k <= s.len(),
        trim_start_spec(s) == s.skip(k),
    decreases s.len(),
{
    if s.len() > 0 && is_white_space(s[0]) {
        let k1 = lemma_trim_start_suffix(s.drop_first());
        assert(s.drop_first().skip(k1) =~= s.skip(k1 + 1));
        k1 + 1
    } else {
        assert(s.skip(0) =~= s);
        0
    }
}

/// Trimming single-spaced text keeps it single-spaced, and leaves no
/// whitespace at either end.
pub proof fn lemma_trimmed_single_spaced(t: Seq<char>)
    requires
        single_spaced(t),
    ensures
        single_spaced(trimmed(t)),
        trimmed(t).len() > 0 ==> !is_white_space(trimmed(t)[0]) && !is_white_space(
            trimmed(t).last(),
        ),
{
    lemma_trimmed_ends(t);
    let k = lemma_trim_start_suffix(t);
    let u = trim_start_spec(t);
    lemma_trim_end_prefix(u);
    let v = trimmed(t);
    assert(v == u.take(v.len() as int));
    assert forall|i: int| 0 <= i < v.len() implies #[trigger] v[i] == t[i + k] by {
        assert(v[i] == u[i]);
        assert(u[i] == t[i + k]);
    }
    assert forall|i: int| 0 <= i < v.len() && is_white_space(#[trigger] v[i]) implies v[i] == ' ' by {
        assert(v[i] == t[i + k]);
    }
    assert forall|i: int| 0 <= i < v.len() - 1 && is_white_space(#[trigger] v[i]) implies !is_white_space(
        v[i + 1],
    ) by {
        assert(v[i] == t[i + k]);
        assert(v[i + 1] == t[i + 1 + k]);
    }
}

/// Replaces every maximal run of whitespace in `s` by one space.
pub fn collapse_whitespace_of(s: &str) -> (r: String)
    ensures
        r@ == collapse_whitespace(s@),
{
    let c = chars_of(s);
    let mut out: Vec<char> = Vec::new();
    let mut i: usize = 0;
    while i < c.len()
        invariant
            i <= c@.len(),
            c@ == s@,
            out@ == collapse_whitespace(c@.take(i as int)),
        decreases c@.len() - i,
    {
        let ch = c[i];
        proof {
            assert(c@.take(i + 1).drop_last() =~= c@.take(i as int));
            assert(c@.take(i + 1).last() == ch);
            if i >= 1 {
                assert(c@.take(i + 1)[i - 1] == c@[i - 1]);
            }
        }
        if is_whitespace(ch) {
            if !(i >= 1 && is_whitespace(c[i - 1])) {
                out.push(' ');
            }
        } else {
            out.push(ch);
        }
        i = i + 1;
    }
    assert(c@.take(c@.len() as int) =~= c@);
    string_from_chars(out.as_slice())
}

} // verus!
