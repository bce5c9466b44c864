//! The corpus-side rules of the evaluation harnesses: reading transcript
//! records, mapping FLEURS language directories to language tags, choosing
//! the metric, and selecting the utterances to evaluate.

use vstd::prelude::*;

use crate::numbers::{char_position_from, concat, find_char, word_is};
use crate::text::{chars_between, chars_of, string_from_chars, trim_chars, trimmed};

verus! {

/// Why a transcript record could not be read.
#[derive(Debug, Clone, Copy, PartialEq, Eq, Structural)]
pub enum RecordError {
    /// The line is empty.
    Blank,
    /// The line has no space between the utterance id and the text.
    Malformed,
}

/// A LibriSpeech transcript record, `<utterance id> <text>`: the id is what
/// comes before the first space and the text what comes after it.
pub open spec fn transcript_record(line: Seq<char>) -> Result<(Seq<char>, Seq<char>), RecordError> {
    if line.len() == 0 {
        Err(RecordError::Blank)
    } else {
        match char_position_from(line, ' ', 0) {
            Some(k) => Ok((line.take(k), line.skip(k + 1))),
            None => Err(RecordError::Malformed),
        }
    }
}

/// Reads a LibriSpeech transcript record into its utterance id and text.
pub fn parse_transcript_line(line: &str) -> (r: Result<(String, String), RecordError>)
    ensures
        match r {
            Ok((id, text)) => transcript_record(line@) == Ok::<(Seq<char>, Seq<char>), RecordError>(
                (id@, text@),
            ),
            Err(e) => transcript_record(line@) == Err::<(Seq<char>, Seq<char>), RecordError>(e),
        },
{
    let cs = chars_of(line);
    let n = cs.len();
    if n == 0 {
        return Err(RecordError::Blank);
    }
    match find_char(cs.as_slice(), ' ') {
        Some(k) => {
            let id = chars_between(cs.as_slice(), 0, k);
            let text = chars_between(cs.as_slice(), k + 1, n);
            assert(id@ =~= line@.take(k as int));
            assert(text@ =~= line@.skip(k + 1));
            Ok((string_from_chars(id.as_slice()), string_from_chars(text.as_slice())))
        },
        None => Err(RecordError::Malformed),
    }
}

/// The pieces of `s` between the occurrences of `sep`, as `str::split` gives
/// them: one more piece than there are separators.
pub open spec fn split_on(s: Seq<char>, sep: char) -> Seq<Seq<char>>
    decreases s.len(),
{
    if s.len() == 0 {
        seq![seq![]]
    } else {
        let pieces = split_on(s.drop_last(), sep);
        if s.last() == sep {
            pieces.push(seq![])
        } else {
            pieces.update(pieces.len() - 1, pieces.last().push(s.last()))
        }
    }
}

/// Splitting always gives at least one piece.
proof fn lemma_split_on_nonempty(s: Seq<char>, sep: char)
    ensures
        split_on(s, sep).len() >= 1,
    decreases s.len(),
{
    if s.len() > 0 {
        lemma_split_on_nonempty(s.drop_last(), sep);
    }
}

/// Splits characters at each `sep`.
pub fn split_chars(s: &[char], sep: char) -> (pieces: Vec<Vec<char>>)
    ensures
        pieces@.map_values(|p: Vec<char>| p@) == split_on(s@, sep),
{
    let mut pieces: Vec<Vec<char>> = Vec::new();
    let mut cur: Vec<char> = Vec::new();
    let mut i: usize = 0;
    while i < s.len()
        invariant
            i <= s@.len(),
            pieces@.map_values(|p: Vec<char>| p@).push(cur@) == split_on(s@.take(i as int), sep),
        decreases s@.len() - i,
    {
        let ghost before = pieces@.map_values(|p: Vec<char>| p@);
        let ghost cur_before = cur@;
        proof {
            assert(s@.take(i + 1).drop_last() =~= s@.take(i as int));
            assert(s@.take(i + 1).last() == s@[i as int]);
            lemma_split_on_nonempty(s@.take(i as int), sep);
        }
        if s[i] == sep {
            let done = cur;
            pieces.push(done);
            cur = Vec::new();
            assert(pieces@.map_values(|p: Vec<char>| p@) =~= before.push(cur_before));
            assert(pieces@.map_values(|p: Vec<char>| p@).push(cur@) =~= before.push(cur_before).push(
                seq![],
            ));
        } else {
            cur.push(s[i]);
            assert(pieces@.map_values(|p: Vec<char>| p@).push(cur@) =~= before.push(cur_before).update(
                before.len() as int,
                cur_before.push(s@[i as int]),
            ));
        }
        i = i + 1;
    }
    assert(s@.take(s@.len() as int) =~= s@);
    let ghost before = pieces@.map_values(|p: Vec<char>| p@);
    pieces.push(cur);
    assert(pieces@.map_values(|p: Vec<char>| p@) =~= before.push(cur@));
    pieces
}

/// A FLEURS `test.tsv` record: blank lines hold none; otherwise the
/// tab-separated columns must number at least four (their count is the
/// error), and the record is the audio file name (second column) and the
/// normalized transcription (fourth column).
pub open spec fn fleurs_record(line: Seq<char>) -> Result<Option<(Seq<char>, Seq<char>)>, nat> {
    if trimmed(line).len() == 0 {
        Ok(None)
    } else {
        let cols = split_on(line, '\t');
        if cols.len() < 4 {
            Err(cols.len())
        } else {
            Ok(Some((cols[1], cols[3])))
        }
    }
}

/// Reads a FLEURS `test.tsv` line into its audio file name and transcription.
pub fn parse_fleurs_line(line: &str) -> (r: Result<Option<(String, String)>, usize>)
    ensures
        match r {
            Ok(Some((file, text))) => fleurs_record(line@) == Ok::<
                Option<(Seq<char>, Seq<char>)>,
                nat,
            >(Some((file@, text@))),
            Ok(None) => fleurs_record(line@) == Ok::<Option<(Seq<char>, Seq<char>)>, nat>(None),
            Err(n) => fleurs_record(line@) == Err::<Option<(Seq<char>, Seq<char>)>, nat>(n as nat),
        },
{
    let cs = chars_of(line);
    if trim_chars(cs.as_slice()).len() == 0 {
        return Ok(None);
    }
    let cols = split_chars(cs.as_slice(), '\t');
    let ghost cv = cols@.map_values(|p: Vec<char>| p@);
    if cols.len() < 4 {
        return Err(cols.len());
    }
    assert(cols@[1]@ == cv[1] && cols@[3]@ == cv[3]);
    Ok(Some((string_from_chars(cols[1].as_slice()), string_from_chars(cols[3].as_slice()))))
}

/// The Whisper language tag of a FLEURS language directory: the exceptions
/// spelled out, otherwise what comes before the first underscore (which must
/// not be empty).
pub open spec fn whisper_language_spec(fleurs_lang: Seq<char>) -> Option<Seq<char>> {
    if fleurs_lang == "cmn_hans_cn"@ || fleurs_lang == "yue_hant_hk"@ {
        Some("zh"@)
    } else if fleurs_lang == "fil_ph"@ {
        Some("tl"@)
    } else if fleurs_lang == "nb_no"@ {
        Some("no"@)
    } else {
        let prefix = match char_position_from(fleurs_lang, '_', 0) {
            Some(k) => fleurs_lang.take(k),
            None => fleurs_lang,
        };
        if prefix.len() == 0 {
            None
        } else {
            Some(prefix)
        }
    }
}

/// The Whisper language tag of a FLEURS language directory name, or `None`
/// where none can be derived.
pub fn whisper_language(fleurs_lang: &str) -> (r: Option<String>)
    ensures
        match r {
            Some(tag) => whisper_language_spec(fleurs_lang@) == Some(tag@),
            None => whisper_language_spec(fleurs_lang@) is None,
        },
{
    let cs = chars_of(fleurs_lang);
    if word_is(cs.as_slice(), "cmn_hans_cn") || word_is(cs.as_slice(), "yue_hant_hk") {
        return Some(string_from_chars(chars_of("zh").as_slice()));
    } else if word_is(cs.as_slice(), "fil_ph") {
        return Some(string_from_chars(chars_of("tl").as_slice()));
    } else if word_is(cs.as_slice(), "nb_no") {
        return Some(string_from_chars(chars_of("no").as_slice()));
    }
    let prefix = match find_char(cs.as_slice(), '_') {
        Some(k) => {
            let p = chars_between(cs.as_slice(), 0, k);
            assert(p@ =~= fleurs_lang@.take(k as int));
            p
        },
        None => concat(cs.as_slice(), &[]),
    };
    if prefix.len() == 0 {
        None
    } else {
        Some(string_from_chars(prefix.as_slice()))
    }
}

/// Whether a language is written without spaces between words, so that it
/// is scored per character.
pub open spec fn scored_by_character(language: Seq<char>) -> bool {
    language == "zh"@ || language == "ja"@ || language == "th"@ || language == "lo"@ || language
        == "my"@ || language == "km"@
}

/// Whether a language is scored by character error rate rather than word
/// error rate.
pub fn scores_by_character(language: &str) -> (b: bool)
    ensures
        b == scored_by_character(language@),
{
    let cs = chars_of(language);
    let c = cs.as_slice();
    word_is(c, "zh") || word_is(c, "ja") || word_is(c, "th") || word_is(c, "lo") || word_is(c, "my")
        || word_is(c, "km")
}

/// The number of utterances chosen out of `n` by taking every `every`-th
/// one from the first, at most `limit` of them.
pub open spec fn selection_len(n: nat, every: nat, limit: nat) -> nat {
    let available = if n == 0 { 0 } else { ((n - 1) / (every as int) + 1) as nat };
    if available <= limit {
        available
    } else {
        limit
    }
}

/// Where exactly `k` multiples of `every` lie below `n`, `k` is the number of
/// multiples the selection can take.
proof fn lemma_multiples_below(n: nat, every: nat, k: nat)
    requires
        every >= 1,
        k >= 1,
        (k - 1) * every < n,
        n <= k * every,
    ensures
        k == (n - 1) / (every as int) + 1,
{
    let r = (n - 1) - (k - 1) * every;
    assert((k - 1) * every + every == k * every) by (nonlinear_arith)
        requires
            k >= 1,
    ;
    vstd::arithmetic::div_mod::lemma_fundamental_div_mod_converse(
        n - 1,
        every as int,
        k - 1,
        r,
    );
}

/// Below the `k`-th multiple, there are at least `k + 1` multiples to take.
proof fn lemma_more_multiples(n: nat, every: nat, k: nat)
    requires
        every >= 1,
        k * every < n,
    ensures
        k < (n - 1) / (every as int) + 1,
{
    vstd::arithmetic::div_mod::lemma_div_is_ordered((k * every) as int, n - 1, every as int);
    vstd::arithmetic::div_mod::lemma_div_multiples_vanish(k as int, every as int);
    assert(k * every == every * k) by (nonlinear_arith);
}

/// The selection takes as many multiples of `every` as lie below `n`, up to
/// `limit`: every taken position is below `n`, and either `limit` positions
/// are taken or the next multiple is not below `n`.
pub proof fn lemma_selection_len_maximal(n: nat, every: nat, limit: nat)
    requires
        every >= 1,
    ensures
        selection_len(n, every, limit) <= limit,
        forall|i: nat| i < selection_len(n, every, limit) ==> #[trigger] (i * every) < n,
        selection_len(n, every, limit) == limit || selection_len(n, every, limit) * every >= n,
{
    if n > 0 {
        let q = (n - 1) / (every as int);
        let r = (n - 1) % (every as int);
        vstd::arithmetic::div_mod::lemma_fundamental_div_mod((n - 1) as int, every as int);
        assert(n - 1 == every * q + r);
        assert(0 <= r < every);
        assert(q >= 0) by {
            vstd::arithmetic::div_mod::lemma_div_pos_is_pos((n - 1) as int, every as int);
        }
        assert((q + 1) * every == every * q + every) by (nonlinear_arith);
        assert(q * every == every * q) by (nonlinear_arith);
        assert forall|i: nat| i < selection_len(n, every, limit) implies #[trigger] (i * every) < n by {
            assert(i <= q);
            assert(i * every <= q * every) by (nonlinear_arith)
                requires
                    i <= q,
                    every >= 1,
            ;
        }
        if selection_len(n, every, limit) != limit {
            assert(selection_len(n, every, limit) == q + 1);
        }
    }
}

/// The positions of the utterances to evaluate: 0, `every`, 2·`every`, …
/// below `n`, at most `limit` of them.
pub fn select_utterances(n: usize, every: usize, limit: usize) -> (picked: Vec<usize>)
    requires
        every >= 1,
    ensures
        picked@.len() == selection_len(n as nat, every as nat, limit as nat),
        forall|i: int| 0 <= i < picked@.len() ==> #[trigger] picked@[i] == i * every,
{
    let mut picked: Vec<usize> = Vec::new();
    let mut k: usize = 0;
    while k < limit
        invariant_except_break
            k <= limit,
        invariant
            every >= 1,
            picked@.len() == k,
            forall|i: int| 0 <= i < k ==> #[trigger] picked@[i] == i * every,
            k == 0 || (k - 1) * every < n,
        ensures
            k <= limit,
            picked@.len() == k,
            forall|i: int| 0 <= i < k ==> #[trigger] picked@[i] == i * every,
            k == 0 || (k - 1) * every < n,
            k == limit || n <= k * every,
        decreases limit - k,
    {
        match k.checked_mul(every) {
            None => {
                break;
            },
            Some(pos) => {
                if pos >= n {
                    break;
                }
                picked.push(pos);
                k = k + 1;
            },
        }
    }
    proof {
        if n == 0 {
            if k > 0 {
                assert((k - 1) * every >= 0) by (nonlinear_arith)
                    requires
                        k >= 1,
                ;
            }
        } else if n <= k * every {
            if k == 0 {
                assert(k * every == 0);
            } else {
                lemma_multiples_below(n as nat, every as nat, k as nat);
            }
        } else {
            lemma_more_multiples(n as nat, every as nat, k as nat);
        }
    }
    picked
}

} // verus!
