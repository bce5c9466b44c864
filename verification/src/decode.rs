//! The decisions of the multitask decoding loop.
//!
//! The decoder is steered with the token format
//! `<|startoftranscript|> → language → task → (timestamps | <|notimestamps|>)
//! → text → <|endoftext|>`. The timestamp grammar is applied as logit
//! suppression: special tokens never sample (except `<|endoftext|>`),
//! timestamps appear in pairs and never decrease, and the first timestamp of
//! a window falls within its first second. Long audio is windowed by the
//! predicted timestamps, so a segment never straddles a window boundary.

use vstd::prelude::*;

use crate::audio::{N_SAMPLES, SAMPLE_RATE};
use crate::text::{chars_equal, chars_of, trim, trimmed};
use crate::tokenizer::{decoded_bytes, utf8_lossy, SpecialTokens, Tokenizer};

verus! {

/// The initial timestamp of a window is constrained to its first second: 50
/// timestamp steps of 20 ms.
pub const MAX_INITIAL_TIMESTAMP: u32 = 50;

/// What the decoder is asked to produce.
#[derive(Debug, Clone, Copy, PartialEq, Eq, Structural)]
pub enum Task {
    Transcribe,
    /// X→English speech translation.
    Translate,
}

/// Decoding options.
#[derive(Debug, Clone)]
pub struct Options {
    pub task: Task,
    /// Force a language tag (e.g. "en"); `None` runs language identification
    /// on each window.
    pub language: Option<String>,
}

impl Default for Options {
    fn default() -> (o: Self)
        ensures
            o.task == Task::Transcribe,
            o.language is None,
    {
        Options { task: Task::Transcribe, language: None }
    }
}

/// The token that asks for `task`.
pub open spec fn task_token_spec(sp: SpecialTokens, task: Task) -> u32 {
    match task {
        Task::Transcribe => sp.transcribe,
        Task::Translate => sp.translate,
    }
}

/// The prompt that opens the decoding of a window: start of transcript, the
/// language, then the task.
pub fn decoder_prompt(sp: &SpecialTokens, language_token: u32, task: Task) -> (prompt: Vec<u32>)
    ensures
        prompt@ == seq![sp.sot, language_token, task_token_spec(*sp, task)],
{
    let task_token = match task {
        Task::Transcribe => sp.transcribe,
        Task::Translate => sp.translate,
    };
    let mut prompt: Vec<u32> = Vec::new();
    prompt.push(sp.sot);
    prompt.push(language_token);
    prompt.push(task_token);
    prompt
}

/// The token for a forced language tag: the first id in the run of language
/// tokens whose tag is `tag`, if any.
pub fn language_token_for(tokenizer: &Tokenizer, tag: &str) -> (id: Option<u32>)
    requires
        tokenizer.specials().language_begin + tokenizer.specials().language_count <= u32::MAX,
    ensures
        match id {
            Some(id) => {
                &&& tokenizer.specials().language_begin <= id
                &&& id < tokenizer.specials().language_begin
                    + tokenizer.specials().language_count
                &&& language_tag_is(tokenizer, id, tag@)
                &&& forall|j: u32|
                    tokenizer.specials().language_begin <= j < id ==> !language_tag_is(
                        tokenizer,
                        j,
                        tag@,
                    )
            },
            None => forall|j: u32|
                tokenizer.specials().language_begin <= j < tokenizer.specials().language_begin
                    + tokenizer.specials().language_count ==> !language_tag_is(tokenizer, j, tag@),
        },
{
    let sp = tokenizer.special_tokens();
    let target = chars_of(tag);
    let end = sp.language_begin + sp.language_count;
    let mut id = sp.language_begin;
    while id < end
        invariant
            sp == tokenizer.specials(),
            end == sp.language_begin + sp.language_count,
            sp.language_begin <= id <= end,
            target@ == tag@,
            forall|j: u32| sp.language_begin <= j < id ==> !language_tag_is(tokenizer, j, tag@),
        decreases end - id,
    {
        match tokenizer.language_tag(id) {
            Some(t) => {
                let tc = chars_of(t);
                if chars_equal(tc.as_slice(), target.as_slice()) {
                    return Some(id);
                }
            },
            None => {},
        }
        id = id + 1;
    }
    None
}

/// Whether token `id` is a language token whose tag is `tag`.
pub open spec fn language_tag_is(tokenizer: &Tokenizer, id: u32, tag: Seq<char>) -> bool {
    let sp = tokenizer.specials();
    let content = tokenizer.added_tokens()[id];
    &&& sp.language_begin <= id < sp.language_begin + sp.language_count
    &&& tokenizer.added_tokens().contains_key(id)
    &&& content.len() >= 4
    &&& content.take(2) == "<|"@
    &&& content.skip(content.len() - 2) == "|>"@
    &&& content.subrange(2, content.len() - 2) == tag
}

} // verus!

verus! {

/// The largest timestamp token in `s`, if it holds one.
pub open spec fn max_timestamp(sp: SpecialTokens, s: Seq<u32>) -> Option<u32>
    decreases s.len(),
{
    if s.len() == 0 {
        None
    } else {
        let m = max_timestamp(sp, s.drop_last());
        let t = s.last();
        if t >= sp.timestamp_begin {
            match m {
                Some(x) => if x >= t {
                    Some(x)
                } else {
                    Some(t)
                },
                None => Some(t),
            }
        } else {
            m
        }
    }
}

/// Whether the last sampled token is a timestamp.
pub open spec fn last_is_timestamp(sp: SpecialTokens, sampled: Seq<u32>) -> bool {
    sampled.len() > 0 && sampled.last() >= sp.timestamp_begin
}

/// Whether the token before the last is a timestamp; true when there is none.
pub open spec fn penultimate_is_timestamp(sp: SpecialTokens, sampled: Seq<u32>) -> bool {
    sampled.len() < 2 || sampled[sampled.len() - 2] >= sp.timestamp_begin
}

/// Whether the timestamp grammar forbids token `id` after the text tokens
/// `sampled` of the current window.
pub open spec fn suppressed(sp: SpecialTokens, sampled: Seq<u32>, id: int) -> bool {
    let last_ts = last_is_timestamp(sp, sampled);
    let penultimate_ts = penultimate_is_timestamp(sp, sampled);
    // Special tokens never sample, except the end of text.
    ||| (sp.sot <= id < sp.timestamp_begin && id != sp.eot)
    // A closed pair of timestamps must be followed by text (or the end).
    ||| (last_ts && penultimate_ts && id >= sp.timestamp_begin)
    // A timestamp right after text must be followed by a timestamp (or the end).
    ||| (last_ts && !penultimate_ts && id < sp.timestamp_begin && id != sp.eot)
    // Timestamps never decrease; they stay equal only right after a closing one.
    ||| (match max_timestamp(sp, sampled) {
        Some(m) => sp.timestamp_begin <= id && (id < m || (id == m && !(last_ts
            && !penultimate_ts))),
        None => false,
    })
    // The first token is a timestamp within the first second.
    ||| (sampled.len() == 0 && !(sp.timestamp_begin <= id <= sp.timestamp_begin
        + MAX_INITIAL_TIMESTAMP))
}

/// The largest timestamp token in `s`, if it holds one.
fn largest_timestamp(sp: &SpecialTokens, s: &[u32]) -> (m: Option<u32>)
    ensures
        m == max_timestamp(*sp, s@),
{
    let mut m: Option<u32> = None;
    let mut k: usize = 0;
    while k < s.len()
        invariant
            k <= s@.len(),
            m == max_timestamp(*sp, s@.take(k as int)),
        decreases s@.len() - k,
    {
        proof {
            assert(s@.take(k + 1).drop_last() =~= s@.take(k as int));
            assert(s@.take(k + 1).last() == s@[k as int]);
        }
        let t = s[k];
        if t >= sp.timestamp_begin {
            m = match m {
                Some(x) => if x >= t {
                    Some(x)
                } else {
                    Some(t)
                },
                None => Some(t),
            };
        }
        k = k + 1;
    }
    proof {
        assert(s@.take(s@.len() as int) =~= s@);
    }
    m
}

/// The timestamp grammar as a mask over the vocabulary: entry `id` is true
/// when the logit of token `id` is to be suppressed after the text tokens
/// `sampled` of the current window.
pub fn timestamp_rule_mask(sp: &SpecialTokens, sampled: &[u32], vocab_len: usize) -> (mask: Vec<
    bool,
>)
    requires
        sp.timestamp_begin <= vocab_len,
        sp.timestamp_begin + MAX_INITIAL_TIMESTAMP <= u32::MAX,
        forall|k: int| 0 <= k < sampled@.len() ==> (#[trigger] sampled@[k] as int) < vocab_len,
        forall|k: int| 0 <= k < sampled@.len() ==> #[trigger] sampled@[k] < u32::MAX,
    ensures
        mask@.len() == vocab_len,
        forall|id: int| 0 <= id < vocab_len ==> #[trigger] mask@[id] == suppressed(*sp, sampled@, id),
{
    let n = sampled.len();
    let last_ts = n > 0 && sampled[n - 1] >= sp.timestamp_begin;
    let penultimate_ts = n < 2 || sampled[n - 2] >= sp.timestamp_begin;
    let max_ts = largest_timestamp(sp, sampled);
    let mut mask: Vec<bool> = Vec::new();
    let mut i: usize = 0;
    while i < vocab_len
        invariant
            i <= vocab_len,
            mask@.len() == i,
            n == sampled@.len(),
            last_ts == last_is_timestamp(*sp, sampled@),
            penultimate_ts == penultimate_is_timestamp(*sp, sampled@),
            max_ts == max_timestamp(*sp, sampled@),
            forall|id: int| 0 <= id < i ==> #[trigger] mask@[id] == suppressed(*sp, sampled@, id),
            sp.timestamp_begin + MAX_INITIAL_TIMESTAMP <= u32::MAX,
        decreases vocab_len - i,
    {
        let id = i as u64;
        let tb = sp.timestamp_begin as u64;
        let special = sp.sot as u64 <= id && id < tb && id != sp.eot as u64;
        let closed_pair = last_ts && penultimate_ts && id >= tb;
        let open_pair = last_ts && !penultimate_ts && id < tb && id != sp.eot as u64;
        let decreasing = match max_ts {
            Some(m) => tb <= id && (id < m as u64 || (id == m as u64 && !(last_ts
                && !penultimate_ts))),
            None => false,
        };
        let initial = n == 0 && !(tb <= id && id <= tb + MAX_INITIAL_TIMESTAMP as u64);
        mask.push(special || closed_pair || open_pair || decreasing || initial);
        i = i + 1;
    }
    mask
}

} // verus!

verus! {

/// Whether every token of `s` was allowed by the timestamp grammar after the
/// tokens before it.
pub open spec fn follows_timestamp_grammar(sp: SpecialTokens, s: Seq<u32>) -> bool {
    forall|i: int| 0 <= i < s.len() ==> !suppressed(sp, s.take(i), #[trigger] s[i] as int)
}

/// The largest timestamp bounds every timestamp of the sequence, and there is
/// one exactly when the sequence holds a timestamp.
proof fn lemma_max_timestamp_bounds(sp: SpecialTokens, s: Seq<u32>)
    ensures
        max_timestamp(sp, s) matches Some(m) ==> forall|i: int|
            0 <= i < s.len() && s[i] >= sp.timestamp_begin ==> s[i] <= m,
        max_timestamp(sp, s) is None ==> forall|i: int|
            0 <= i < s.len() ==> s[i] < sp.timestamp_begin,
        max_timestamp(sp, s) matches Some(m) ==> m >= sp.timestamp_begin && exists|i: int|
            0 <= i < s.len() && s[i] == m,
    decreases s.len(),
{
    if s.len() > 0 {
        lemma_max_timestamp_bounds(sp, s.drop_last());
        assert forall|i: int| 0 <= i < s.len() - 1 implies s[i] == s.drop_last()[i] by {}
        if let Some(m) = max_timestamp(sp, s.drop_last()) {
            let i = choose|i: int| 0 <= i < s.drop_last().len() && s.drop_last()[i] == m;
            assert(s[i] == m);
        }
        assert(s[s.len() - 1] == s.last());
    }
}

/// Right after text, the timestamps that may come are exactly those past
/// every timestamp sampled so far: a timestamp token is suppressed if and
/// only if the window already holds one at least as large. So a segment
/// opened at one time may close at any later time.
pub proof fn lemma_grammar_timestamp_after_text(sp: SpecialTokens, sampled: Seq<u32>, id: int)
    requires
        sampled.len() > 0,
        sampled.last() < sp.timestamp_begin,
        sp.timestamp_begin <= id,
    ensures
        suppressed(sp, sampled, id) <==> exists|k: int|
            0 <= k < sampled.len() && sampled[k] >= sp.timestamp_begin && sampled[k] >= id,
{
    lemma_max_timestamp_bounds(sp, sampled);
    if let Some(m) = max_timestamp(sp, sampled) {
        if id <= m {
            let k = choose|k: int| 0 <= k < sampled.len() && sampled[k] == m;
            assert(sampled[k] >= sp.timestamp_begin && sampled[k] >= id);
        }
    }
}

/// The first token of a window is a timestamp within its first second.
pub proof fn lemma_grammar_initial_timestamp(sp: SpecialTokens, s: Seq<u32>)
    requires
        follows_timestamp_grammar(sp, s),
        s.len() > 0,
    ensures
        sp.timestamp_begin <= s[0] <= sp.timestamp_begin + MAX_INITIAL_TIMESTAMP,
{
    assert(!suppressed(sp, s.take(0), s[0] as int));
}

/// The grammar never blocks decoding: the first token may be the first
/// timestamp, and after it the end of text (below the timestamps) is
/// always allowed.
pub proof fn lemma_grammar_allows_progress(sp: SpecialTokens, sampled: Seq<u32>)
    requires
        sp.eot < sp.timestamp_begin,
        sp.timestamp_begin + MAX_INITIAL_TIMESTAMP <= u32::MAX,
    ensures
        sampled.len() == 0 ==> !suppressed(sp, sampled, sp.timestamp_begin as int),
        sampled.len() > 0 ==> !suppressed(sp, sampled, sp.eot as int),
{
}

/// No special token other than the end of text is ever sampled.
pub proof fn lemma_grammar_no_special_tokens(sp: SpecialTokens, s: Seq<u32>, i: int)
    requires
        follows_timestamp_grammar(sp, s),
        0 <= i < s.len(),
    ensures
        !(sp.sot <= s[i] < sp.timestamp_begin && s[i] != sp.eot),
{
    assert(!suppressed(sp, s.take(i), s[i] as int));
}

/// Timestamps come in pairs: never three in a row.
pub proof fn lemma_grammar_no_three_timestamps(sp: SpecialTokens, s: Seq<u32>, i: int)
    requires
        follows_timestamp_grammar(sp, s),
        0 <= i,
        i + 2 < s.len(),
    ensures
        !(s[i] >= sp.timestamp_begin && s[i + 1] >= sp.timestamp_begin && s[i + 2]
            >= sp.timestamp_begin),
{
    assert(!suppressed(sp, s.take(i + 2), s[i + 2] as int));
    assert(s.take(i + 2).last() == s[i + 1]);
    assert(s.take(i + 2)[i] == s[i]);
}

/// A timestamp that follows text is followed by a timestamp or by the end of
/// text: a segment that has been opened is closed.
pub proof fn lemma_grammar_timestamp_after_text_closes(sp: SpecialTokens, s: Seq<u32>, i: int)
    requires
        follows_timestamp_grammar(sp, s),
        1 <= i,
        i + 1 < s.len(),
        s[i] >= sp.timestamp_begin,
        s[i - 1] < sp.timestamp_begin,
    ensures
        s[i + 1] >= sp.timestamp_begin || s[i + 1] == sp.eot,
{
    assert(!suppressed(sp, s.take(i + 1), s[i + 1] as int));
    assert(s.take(i + 1).last() == s[i]);
    assert(s.take(i + 1)[i - 1] == s[i - 1]);
}

/// Timestamps never decrease.
pub proof fn lemma_grammar_timestamps_nondecreasing(sp: SpecialTokens, s: Seq<u32>, i: int, j: int)
    requires
        follows_timestamp_grammar(sp, s),
        0 <= i < j < s.len(),
        s[i] >= sp.timestamp_begin,
        s[j] >= sp.timestamp_begin,
    ensures
        s[i] <= s[j],
{
    assert(!suppressed(sp, s.take(j), s[j] as int));
    lemma_max_timestamp_bounds(sp, s.take(j));
    assert(s.take(j)[i] == s[i]);
}

/// Two timestamps are equal only when they are adjacent: the closing
/// timestamp of one segment and the opening timestamp of the next.
#[verifier::spinoff_prover]
#[verifier::rlimit(40)]
pub proof fn lemma_grammar_equal_timestamps_adjacent(sp: SpecialTokens, s: Seq<u32>, i: int, j: int)
    requires
        follows_timestamp_grammar(sp, s),
        0 <= i < j < s.len(),
        s[i] >= sp.timestamp_begin,
        s[j] >= sp.timestamp_begin,
        s[i] == s[j],
    ensures
        j == i + 1,
    decreases j,
{
    if j != i + 1 {
        let p = s.take(j);
        assert(!suppressed(sp, p, s[j] as int));
        lemma_max_timestamp_bounds(sp, p);
        assert(p[i] == s[i]);
        assert(p[j - 1] == s[j - 1]);
        assert(p.last() == s[j - 1]);
        assert(p[j - 2] == s[j - 2]);
        let m = max_timestamp(sp, p)->Some_0;
        assert(s[i] <= m);
        assert(s[j - 1] <= m);
        assert(s[j] == m);
        assert(last_is_timestamp(sp, p) && !penultimate_is_timestamp(sp, p));
        lemma_grammar_timestamps_nondecreasing(sp, s, i, j - 1);
        lemma_grammar_equal_timestamps_adjacent(sp, s, i, j - 1);
    }
}

} // verus!

verus! {

/// Where a segment ends: at a timestamp (in 20 ms steps from the start of
/// the window), or at the end of the window.
#[derive(Debug, Clone, Copy, PartialEq, Eq, Structural)]
pub enum SegmentEnd {
    Timestamp(u32),
    WindowEnd,
}

/// The last time a window's decoding reached.
#[derive(Debug, Clone, Copy, PartialEq, Eq, Structural)]
pub enum LastTime {
    /// No timestamp and no trailing text: time zero.
    Start,
    /// A timestamp, in 20 ms steps from the start of the window.
    Timestamp(u32),
    /// Trailing text ran to the end of the window.
    WindowEnd,
}

/// A segment as a start, an end and its text tokens.
pub struct SpanModel {
    pub start: u32,
    pub end: SegmentEnd,
    pub tokens: Seq<u32>,
}

/// The state of the segmentation after some tokens: the closed segments, the
/// start of the open one, its tokens, and the last time seen.
pub struct SplitState {
    pub spans: Seq<SpanModel>,
    pub seg_start: u32,
    pub cur: Seq<u32>,
    pub last: LastTime,
}

/// One token of segmentation: a timestamp opens a segment when none is open
/// and closes the open one otherwise; any other token joins the open segment.
pub open spec fn split_step(st: SplitState, id: u32, timestamp_begin: u32) -> SplitState {
    if id >= timestamp_begin {
        let t = (id - timestamp_begin) as u32;
        if st.cur.len() == 0 {
            SplitState { seg_start: t, last: LastTime::Timestamp(t), ..st }
        } else {
            SplitState {
                spans: st.spans.push(
                    SpanModel { start: st.seg_start, end: SegmentEnd::Timestamp(t), tokens: st.cur },
                ),
                seg_start: st.seg_start,
                cur: seq![],
                last: LastTime::Timestamp(t),
            }
        }
    } else {
        SplitState { cur: st.cur.push(id), ..st }
    }
}

/// The segmentation state after all of `tokens`.
pub open spec fn split_fold(tokens: Seq<u32>, timestamp_begin: u32) -> SplitState
    decreases tokens.len(),
{
    if tokens.len() == 0 {
        SplitState { spans: seq![], seg_start: 0, cur: seq![], last: LastTime::Start }
    } else {
        split_step(split_fold(tokens.drop_last(), timestamp_begin), tokens.last(), timestamp_begin)
    }
}

/// The segments of a window's decoded tokens, and the last time reached:
/// trailing text after the last timestamp forms a segment that ends with the
/// window.
pub open spec fn split_spans(tokens: Seq<u32>, timestamp_begin: u32) -> (Seq<SpanModel>, LastTime) {
    let st = split_fold(tokens, timestamp_begin);
    if st.cur.len() > 0 {
        (
            st.spans.push(
                SpanModel { start: st.seg_start, end: SegmentEnd::WindowEnd, tokens: st.cur },
            ),
            LastTime::WindowEnd,
        )
    } else {
        (st.spans, st.last)
    }
}

/// A segment's start, end and text tokens.
pub struct SegmentTokens {
    pub start: u32,
    pub end: SegmentEnd,
    pub tokens: Vec<u32>,
}

impl View for SegmentTokens {
    type V = SpanModel;

    open spec fn view(&self) -> SpanModel {
        SpanModel { start: self.start, end: self.end, tokens: self.tokens@ }
    }
}

/// Splits a window's decoded tokens into segments bounded by timestamps.
pub fn split_segments(decoded: &[u32], timestamp_begin: u32) -> (res: (Vec<SegmentTokens>, LastTime))
    ensures
        res.0@.map_values(|s: SegmentTokens| s@) == split_spans(decoded@, timestamp_begin).0,
        res.1 == split_spans(decoded@, timestamp_begin).1,
{
    let mut spans: Vec<SegmentTokens> = Vec::new();
    let mut seg_start: u32 = 0;
    let mut cur: Vec<u32> = Vec::new();
    let mut last = LastTime::Start;
    let mut k: usize = 0;
    while k < decoded.len()
        invariant
            k <= decoded@.len(),
            ({
                let st = split_fold(decoded@.take(k as int), timestamp_begin);
                &&& spans@.map_values(|s: SegmentTokens| s@) == st.spans
                &&& seg_start == st.seg_start
                &&& cur@ == st.cur
                &&& last == st.last
            }),
        decreases decoded@.len() - k,
    {
        proof {
            assert(decoded@.take(k + 1).drop_last() =~= decoded@.take(k as int));
            assert(decoded@.take(k + 1).last() == decoded@[k as int]);
        }
        let id = decoded[k];
        let ghost before = spans@.map_values(|s: SegmentTokens| s@);
        if id >= timestamp_begin {
            let t = id - timestamp_begin;
            last = LastTime::Timestamp(t);
            if cur.len() == 0 {
                seg_start = t;
            } else {
                let tokens = cur;
                cur = Vec::new();
                let span = SegmentTokens { start: seg_start, end: SegmentEnd::Timestamp(t), tokens };
                spans.push(span);
                assert(spans@.map_values(|s: SegmentTokens| s@) =~= before.push(span@));
            }
        } else {
            cur.push(id);
        }
        k = k + 1;
    }
    proof {
        assert(decoded@.take(decoded@.len() as int) =~= decoded@);
    }
    if cur.len() > 0 {
        let ghost before = spans@.map_values(|s: SegmentTokens| s@);
        let span = SegmentTokens { start: seg_start, end: SegmentEnd::WindowEnd, tokens: cur };
        spans.push(span);
        assert(spans@.map_values(|s: SegmentTokens| s@) =~= before.push(span@));
        last = LastTime::WindowEnd;
    }
    (spans, last)
}

} // verus!

verus! {

/// The text of a segment: its tokens decoded, without surrounding whitespace.
pub open spec fn segment_text(tokenizer: &Tokenizer, tokens: Seq<u32>) -> Seq<char> {
    trimmed(
        utf8_lossy(
            decoded_bytes(
                tokenizer.byte_table(),
                tokenizer.added_tokens(),
                tokenizer.specials().timestamp_begin,
                tokens,
            ),
        ),
    )
}

/// A segment with its text.
pub struct TextSegmentModel {
    pub start: u32,
    pub end: SegmentEnd,
    pub text: Seq<char>,
}

/// The segments with their texts, leaving out those whose text is empty.
pub open spec fn texted_spans(tokenizer: &Tokenizer, spans: Seq<SpanModel>) -> Seq<TextSegmentModel>
    decreases spans.len(),
{
    if spans.len() == 0 {
        seq![]
    } else {
        let rest = texted_spans(tokenizer, spans.drop_last());
        let s = spans.last();
        let text = segment_text(tokenizer, s.tokens);
        if text.len() == 0 {
            rest
        } else {
            rest.push(TextSegmentModel { start: s.start, end: s.end, text })
        }
    }
}

/// A decoded segment of a window: start and end (in 20 ms steps from the
/// start of the window, or the window's end) and text.
pub struct WindowSegment {
    pub start: u32,
    pub end: SegmentEnd,
    pub text: String,
}

impl View for WindowSegment {
    type V = TextSegmentModel;

    open spec fn view(&self) -> TextSegmentModel {
        TextSegmentModel { start: self.start, end: self.end, text: self.text@ }
    }
}

/// The segments of a window's decoded tokens with their texts, leaving out
/// segments with empty text, and the last time the window reached.
pub fn window_segments(tokenizer: &Tokenizer, decoded: &[u32]) -> (res: (Vec<WindowSegment>, LastTime))
    ensures
        res.0@.map_values(|s: WindowSegment| s@) == texted_spans(
            tokenizer,
            split_spans(decoded@, tokenizer.specials().timestamp_begin).0,
        ),
        res.1 == split_spans(decoded@, tokenizer.specials().timestamp_begin).1,
{
    let sp = tokenizer.special_tokens();
    let (spans, last) = split_segments(decoded, sp.timestamp_begin);
    let ghost sv = spans@.map_values(|s: SegmentTokens| s@);
    let mut out: Vec<WindowSegment> = Vec::new();
    let mut k: usize = 0;
    while k < spans.len()
        invariant
            k <= spans@.len(),
            sv == spans@.map_values(|s: SegmentTokens| s@),
            out@.map_values(|s: WindowSegment| s@) == texted_spans(tokenizer, sv.take(k as int)),
        decreases spans@.len() - k,
    {
        proof {
            assert(sv.take(k + 1).drop_last() =~= sv.take(k as int));
            assert(sv.take(k + 1).last() == sv[k as int]);
        }
        let decoded_text = tokenizer.decode(spans[k].tokens.as_slice());
        let text = trim(decoded_text.as_str());
        if text.unicode_len() > 0 {
            let ghost before = out@.map_values(|s: WindowSegment| s@);
            let seg = WindowSegment { start: spans[k].start, end: spans[k].end, text };
            out.push(seg);
            assert(out@.map_values(|s: WindowSegment| s@) =~= before.push(seg@));
        }
        k = k + 1;
    }
    proof {
        assert(sv.take(spans@.len() as int) =~= sv);
    }
    (out, last)
}

/// The number of samples by which to advance past a decoded window: to its
/// last time (given in samples, when that time is after the window's start),
/// at most a whole window, and at least half a second.
pub fn window_advance(last_time_positive: bool, last_time_samples: usize) -> (advance: usize)
    ensures
        advance == ({
            let a = if last_time_positive {
                if last_time_samples <= N_SAMPLES {
                    last_time_samples
                } else {
                    N_SAMPLES
                }
            } else {
                N_SAMPLES
            };
            if a >= SAMPLE_RATE / 2 {
                a
            } else {
                SAMPLE_RATE / 2
            }
        }),
        SAMPLE_RATE / 2 <= advance <= N_SAMPLES,
{
    let a = if last_time_positive {
        if last_time_samples <= N_SAMPLES {
            last_time_samples
        } else {
            N_SAMPLES
        }
    } else {
        N_SAMPLES
    };
    if a >= SAMPLE_RATE / 2 {
        a
    } else {
        SAMPLE_RATE / 2
    }
}

/// The end of the window that starts at `seek`: a whole window, or the end
/// of the audio.
pub fn window_end(seek: usize, total: usize) -> (end: usize)
    requires
        seek <= total,
        total <= usize::MAX - N_SAMPLES,
    ensures
        end == if seek + N_SAMPLES <= total {
            seek + N_SAMPLES
        } else {
            total as int
        },
{
    if seek + N_SAMPLES <= total {
        seek + N_SAMPLES
    } else {
        total
    }
}

/// Where the next window starts, given the advance out of the current one.
pub fn next_seek(seek: usize, advance: usize) -> (next: usize)
    requires
        seek + advance + 1 <= usize::MAX,
    ensures
        next == seek + if advance >= 1 {
            advance
        } else {
            1
        },
{
    if advance >= 1 {
        seek + advance
    } else {
        seek + 1
    }
}

/// Windowing makes progress and leaves no gap: the next window starts after
/// the current one's start and no later than its end (or the end of the
/// audio), so every sample before the next start lies in the current window.
pub proof fn lemma_windows_cover(seek: nat, total: nat, advance: nat)
    requires
        seek < total,
        SAMPLE_RATE / 2 <= advance <= N_SAMPLES,
    ensures
        ({
            let next = seek + advance;
            let end = if seek + N_SAMPLES <= total {
                seek + N_SAMPLES
            } else {
                total as int
            };
            &&& seek < next
            &&& (next <= end || end == total)
        }),
{
}

} // verus!

verus! {

// ---------------------------------------------------------------------------
// Segments come out in order
// ---------------------------------------------------------------------------
/// Whether a segment ending at `end` ends no later than step `t`: it ends at
/// a timestamp, and that timestamp is at most `t`.
pub open spec fn ends_by(end: SegmentEnd, t: u32) -> bool {
    match end {
        SegmentEnd::Timestamp(e) => e <= t,
        SegmentEnd::WindowEnd => false,
    }
}

/// Whether a segment starting at `start` starts no later than it ends (a
/// segment ending with its window counts as doing so).
pub open spec fn starts_by(start: u32, end: SegmentEnd) -> bool {
    match end {
        SegmentEnd::Timestamp(e) => start <= e,
        SegmentEnd::WindowEnd => true,
    }
}

/// Whether segments, given by their starts and ends, are in order: each
/// starts no later than it ends, and every segment before another ends at a
/// timestamp no later than the other starts.
pub open spec fn times_in_order(starts: Seq<u32>, ends: Seq<SegmentEnd>) -> bool {
    &&& starts.len() == ends.len()
    &&& forall|i: int| 0 <= i < ends.len() ==> #[trigger] starts_by(starts[i], ends[i])
    &&& forall|i: int, j: int| 0 <= i < j < ends.len() ==> #[trigger] ends_by(ends[i], starts[j])
}

/// The starts of a list of spans.
pub open spec fn span_starts(spans: Seq<SpanModel>) -> Seq<u32> {
    spans.map_values(|s: SpanModel| s.start)
}

/// The ends of a list of spans.
pub open spec fn span_ends(spans: Seq<SpanModel>) -> Seq<SegmentEnd> {
    spans.map_values(|s: SpanModel| s.end)
}

/// The step at which the last of some spans ends (-1 where there is none, or
/// where it ends with its window).
spec fn last_end(spans: Seq<SpanModel>) -> int {
    if spans.len() > 0 {
        match spans[spans.len() - 1].end {
            SegmentEnd::Timestamp(e) => e as int,
            SegmentEnd::WindowEnd => -1,
        }
    } else {
        -1
    }
}

/// What segmentation keeps after the first `k` tokens of a window that
/// follows the timestamp grammar: closed spans are in order and end at
/// timestamps; the last timestamp seen and the start of the open segment are
/// bounded by every later timestamp; the last closed span ends no later than
/// the last timestamp, and no later than the open segment starts where that
/// holds text; a segment start older than the last span's end appears only
/// right after a timestamp that closed text; an open segment with text ends
/// in a text token.
spec fn split_invariant(s: Seq<u32>, tb: u32, k: int) -> bool {
    let st = split_fold(s.take(k), tb);
    let n = st.spans.len();
    &&& 0 <= k <= s.len()
    &&& times_in_order(span_starts(st.spans), span_ends(st.spans))
    &&& forall|i: int| 0 <= i < n ==> (#[trigger] st.spans[i]).end is Timestamp
    &&& (st.last matches LastTime::Timestamp(t) ==> forall|j: int|
        k <= j < s.len() && #[trigger] s[j] >= tb ==> t <= s[j] - tb)
    &&& forall|j: int| k <= j < s.len() && #[trigger] s[j] >= tb ==> st.seg_start <= s[j] - tb
    &&& n > 0 ==> (st.last matches LastTime::Timestamp(t) && last_end(st.spans) <= t)
    &&& (st.cur.len() > 0 && n > 0) ==> last_end(st.spans) <= st.seg_start
    &&& (st.cur.len() == 0 && n > 0 && st.seg_start < last_end(st.spans)) ==> (k >= 2 && s[k - 1]
        >= tb && s[k - 2] < tb)
    &&& st.cur.len() > 0 ==> (k >= 1 && s[k - 1] < tb)
}

/// Adding a segment that starts no earlier than every earlier one ends keeps
/// segments in order.
proof fn lemma_times_push(starts: Seq<u32>, ends: Seq<SegmentEnd>, start: u32, end: SegmentEnd)
    requires
        times_in_order(starts, ends),
        forall|i: int| 0 <= i < ends.len() ==> #[trigger] ends_by(ends[i], start),
        starts_by(start, end),
    ensures
        times_in_order(starts.push(start), ends.push(end)),
{
    let s2 = starts.push(start);
    let e2 = ends.push(end);
    assert forall|i: int| 0 <= i < e2.len() implies #[trigger] starts_by(s2[i], e2[i]) by {
        if i < ends.len() {
            assert(e2[i] == ends[i] && s2[i] == starts[i]);
        }
    }
    assert forall|i: int, j: int| 0 <= i < j < e2.len() implies #[trigger] ends_by(e2[i], s2[j]) by {
        assert(e2[i] == ends[i]);
        if j < ends.len() {
            assert(s2[j] == starts[j]);
        }
    }
}

/// Dropping the last segment keeps segments in order.
proof fn lemma_times_drop_last(starts: Seq<u32>, ends: Seq<SegmentEnd>)
    requires
        times_in_order(starts, ends),
        ends.len() > 0,
    ensures
        times_in_order(starts.drop_last(), ends.drop_last()),
{
    let s2 = starts.drop_last();
    let e2 = ends.drop_last();
    assert forall|i: int| 0 <= i < e2.len() implies #[trigger] starts_by(s2[i], e2[i]) by {
        assert(e2[i] == ends[i] && s2[i] == starts[i]);
    }
    assert forall|i: int, j: int| 0 <= i < j < e2.len() implies #[trigger] ends_by(e2[i], s2[j]) by {
        assert(e2[i] == ends[i] && s2[j] == starts[j]);
    }
}

/// Where spans are in order and all end at timestamps, and the last ends no
/// later than `start`, every span ends no later than `start`.
proof fn lemma_ends_before(spans: Seq<SpanModel>, start: u32)
    requires
        times_in_order(span_starts(spans), span_ends(spans)),
        forall|i: int| 0 <= i < spans.len() ==> (#[trigger] spans[i]).end is Timestamp,
        spans.len() > 0 ==> last_end(spans) <= start,
    ensures
        forall|i: int| 0 <= i < spans.len() ==> #[trigger] ends_by(span_ends(spans)[i], start),
{
    let n = spans.len();
    let ends = span_ends(spans);
    let starts = span_starts(spans);
    assert forall|i: int| 0 <= i < n implies #[trigger] ends_by(ends[i], start) by {
        assert(ends[i] == spans[i].end);
        assert(spans[i].end is Timestamp);
        assert(ends[n - 1] == spans[n - 1].end);
        assert(starts[n - 1] == spans[n - 1].start);
        assert(spans[n - 1].end is Timestamp);
        assert(starts_by(starts[n - 1], ends[n - 1]));
        if i < n - 1 {
            assert(ends_by(ends[i], starts[n - 1]));
        }
    }
}

/// One token of segmentation keeps `split_invariant`.
#[verifier::spinoff_prover]
#[verifier::rlimit(40)]
proof fn lemma_split_invariant_step(sp: SpecialTokens, s: Seq<u32>, k: int)
    requires
        follows_timestamp_grammar(sp, s),
        forall|j: int| 0 <= j < s.len() ==> #[trigger] s[j] != sp.eot,
        0 <= k < s.len(),
        split_invariant(s, sp.timestamp_begin, k),
    ensures
        split_invariant(s, sp.timestamp_begin, k + 1),
{
    let tb = sp.timestamp_begin;
    let st = split_fold(s.take(k), tb);
    assert(s.take(k + 1).drop_last() =~= s.take(k));
    assert(s.take(k + 1).last() == s[k]);
    let st2 = split_fold(s.take(k + 1), tb);
    assert(st2 == split_step(st, s[k], tb));
    let n = st.spans.len();
    let x = s[k];
    if x >= tb {
        let t = (x - tb) as u32;
        assert forall|j: int| k + 1 <= j < s.len() && #[trigger] s[j] >= tb implies t <= s[j] - tb by {
            lemma_grammar_timestamps_nondecreasing(sp, s, k, j);
        }
        if st.cur.len() == 0 {
            assert(span_starts(st2.spans) == span_starts(st.spans));
            assert(span_ends(st2.spans) == span_ends(st.spans));
        } else {
            let span = SpanModel { start: st.seg_start, end: SegmentEnd::Timestamp(t), tokens: st.cur };
            assert(st2.spans == st.spans.push(span));
            assert(span_starts(st2.spans) =~= span_starts(st.spans).push(st.seg_start));
            assert(span_ends(st2.spans) =~= span_ends(st.spans).push(SegmentEnd::Timestamp(t)));
            assert(st.seg_start <= t);
            lemma_ends_before(st.spans, st.seg_start);
            lemma_times_push(
                span_starts(st.spans),
                span_ends(st.spans),
                st.seg_start,
                SegmentEnd::Timestamp(t),
            );
            assert forall|i: int| 0 <= i < st2.spans.len() implies (#[trigger] st2.spans[i]).end is Timestamp by {
                if i < n {
                    assert(st2.spans[i] == st.spans[i]);
                }
            }
        }
    } else {
        assert(st2.spans == st.spans);
        if st.cur.len() == 0 && n > 0 && st.seg_start < last_end(st.spans) {
            lemma_grammar_timestamp_after_text_closes(sp, s, k - 1);
        }
    }
}

/// `split_invariant` holds after every prefix of the window.
proof fn lemma_split_invariant_upto(sp: SpecialTokens, s: Seq<u32>, k: int)
    requires
        follows_timestamp_grammar(sp, s),
        forall|j: int| 0 <= j < s.len() ==> #[trigger] s[j] != sp.eot,
        0 <= k <= s.len(),
    ensures
        split_invariant(s, sp.timestamp_begin, k),
    decreases k,
{
    if k == 0 {
        assert(s.take(0) =~= seq![]);
        assert(span_starts(seq![]) =~= seq![]);
        assert(span_ends(seq![]) =~= seq![]);
    } else {
        lemma_split_invariant_upto(sp, s, k - 1);
        lemma_split_invariant_step(sp, s, k - 1);
    }
}

/// A window's spans come out in order when its tokens follow the timestamp
/// grammar and hold no end of text.
pub proof fn lemma_spans_in_order(sp: SpecialTokens, s: Seq<u32>)
    requires
        follows_timestamp_grammar(sp, s),
        forall|j: int| 0 <= j < s.len() ==> #[trigger] s[j] != sp.eot,
    ensures
        times_in_order(
            span_starts(split_spans(s, sp.timestamp_begin).0),
            span_ends(split_spans(s, sp.timestamp_begin).0),
        ),
{
    let tb = sp.timestamp_begin;
    lemma_split_invariant_upto(sp, s, s.len() as int);
    assert(s.take(s.len() as int) =~= s);
    let st = split_fold(s, tb);
    if st.cur.len() > 0 {
        let span = SpanModel { start: st.seg_start, end: SegmentEnd::WindowEnd, tokens: st.cur };
        assert(span_starts(st.spans.push(span)) =~= span_starts(st.spans).push(st.seg_start));
        assert(span_ends(st.spans.push(span)) =~= span_ends(st.spans).push(SegmentEnd::WindowEnd));
        lemma_ends_before(st.spans, st.seg_start);
        lemma_times_push(span_starts(st.spans), span_ends(st.spans), st.seg_start, SegmentEnd::WindowEnd);
    }
}

/// The starts of a list of text segments.
pub open spec fn segment_starts(segs: Seq<TextSegmentModel>) -> Seq<u32> {
    segs.map_values(|s: TextSegmentModel| s.start)
}

/// The ends of a list of text segments.
pub open spec fn segment_ends(segs: Seq<TextSegmentModel>) -> Seq<SegmentEnd> {
    segs.map_values(|s: TextSegmentModel| s.end)
}

/// Every segment with text comes from a span with the same start and end.
proof fn lemma_texted_from_spans(tokenizer: &Tokenizer, spans: Seq<SpanModel>, k: int)
    requires
        0 <= k < texted_spans(tokenizer, spans).len(),
    ensures
        exists|i: int|
            0 <= i < spans.len() && spans[i].start == texted_spans(tokenizer, spans)[k].start
                && spans[i].end == texted_spans(tokenizer, spans)[k].end,
    decreases spans.len(),
{
    let sd = spans.drop_last();
    let rest = texted_spans(tokenizer, sd);
    if k < rest.len() {
        assert(texted_spans(tokenizer, spans)[k] == rest[k]);
        lemma_texted_from_spans(tokenizer, sd, k);
        let i = choose|i: int|
            0 <= i < sd.len() && sd[i].start == rest[k].start && sd[i].end == rest[k].end;
        assert(spans[i] == sd[i]);
    } else {
        let n = spans.len() - 1;
        assert(spans[n].start == texted_spans(tokenizer, spans)[k].start);
    }
}

/// Leaving out the segments without text keeps segments in order.
proof fn lemma_texted_in_order(tokenizer: &Tokenizer, spans: Seq<SpanModel>)
    requires
        times_in_order(span_starts(spans), span_ends(spans)),
    ensures
        times_in_order(
            segment_starts(texted_spans(tokenizer, spans)),
            segment_ends(texted_spans(tokenizer, spans)),
        ),
    decreases spans.len(),
{
    if spans.len() == 0 {
        assert(segment_starts(seq![]) =~= seq![]);
        assert(segment_ends(seq![]) =~= seq![]);
    } else {
        let n = spans.len() - 1;
        let sd = spans.drop_last();
        assert(span_starts(sd) =~= span_starts(spans).drop_last());
        assert(span_ends(sd) =~= span_ends(spans).drop_last());
        lemma_times_drop_last(span_starts(spans), span_ends(spans));
        lemma_texted_in_order(tokenizer, sd);
        let rest = texted_spans(tokenizer, sd);
        let last = spans.last();
        let text = segment_text(tokenizer, last.tokens);
        if text.len() > 0 {
            let seg = TextSegmentModel { start: last.start, end: last.end, text };
            assert(texted_spans(tokenizer, spans) == rest.push(seg));
            assert(segment_starts(rest.push(seg)) =~= segment_starts(rest).push(last.start));
            assert(segment_ends(rest.push(seg)) =~= segment_ends(rest).push(last.end));
            assert forall|k: int| 0 <= k < segment_ends(rest).len() implies #[trigger] ends_by(
                segment_ends(rest)[k],
                last.start,
            ) by {
                lemma_texted_from_spans(tokenizer, sd, k);
                let i = choose|i: int|
                    0 <= i < sd.len() && sd[i].start == rest[k].start && sd[i].end == rest[k].end;
                assert(span_ends(spans)[i] == spans[i].end);
                assert(span_starts(spans)[n] == last.start);
                assert(ends_by(span_ends(spans)[i], span_starts(spans)[n]));
                assert(segment_ends(rest)[k] == rest[k].end);
            }
            assert(span_ends(spans)[n] == last.end);
            assert(span_starts(spans)[n] == last.start);
            assert(starts_by(span_starts(spans)[n], span_ends(spans)[n]));
            lemma_times_push(segment_starts(rest), segment_ends(rest), last.start, last.end);
        }
    }
}

/// Within a window whose tokens follow the timestamp grammar (and hold no
/// end of text, which ends decoding), the segments with text come out in
/// order: each segment ending at a timestamp starts no later than it ends,
/// and each segment ends, at a timestamp, no later than any later one starts.
pub proof fn lemma_window_segments_in_order(tokenizer: &Tokenizer, decoded: Seq<u32>)
    requires
        follows_timestamp_grammar(tokenizer.specials(), decoded),
        forall|j: int| 0 <= j < decoded.len() ==> #[trigger] decoded[j] != tokenizer.specials().eot,
    ensures
        ({
            let segs = texted_spans(
                tokenizer,
                split_spans(decoded, tokenizer.specials().timestamp_begin).0,
            );
            times_in_order(segment_starts(segs), segment_ends(segs))
        }),
{
    lemma_spans_in_order(tokenizer.specials(), decoded);
    lemma_texted_in_order(
        tokenizer,
        split_spans(decoded, tokenizer.specials().timestamp_begin).0,
    );
}

} // verus!

verus! {

/// The text tokens of a list of segments, one segment after another.
pub open spec fn span_tokens(spans: Seq<SpanModel>) -> Seq<u32>
    decreases spans.len(),
{
    if spans.len() == 0 {
        seq![]
    } else {
        span_tokens(spans.drop_last()) + spans.last().tokens
    }
}

/// Whether every segment holds at least one token, and only tokens below
/// `timestamp_begin`.
pub open spec fn spans_hold_text(spans: Seq<SpanModel>, timestamp_begin: u32) -> bool {
    forall|k: int|
        0 <= k < spans.len() ==> #[trigger] spans[k].tokens.len() > 0 && forall|j: int|
            0 <= j < spans[k].tokens.len() ==> spans[k].tokens[j] < timestamp_begin
}

/// After any prefix of the tokens, the closed segments and the open one hold
/// the text tokens seen so far, in order, and no closed segment is empty.
proof fn lemma_split_fold_keeps_text(tokens: Seq<u32>, tb: u32)
    ensures
        span_tokens(split_fold(tokens, tb).spans) + split_fold(tokens, tb).cur == tokens.filter(
            |id: u32| id < tb,
        ),
        spans_hold_text(split_fold(tokens, tb).spans, tb),
        forall|j: int|
            0 <= j < split_fold(tokens, tb).cur.len() ==> #[trigger] split_fold(tokens, tb).cur[j]
                < tb,
    decreases tokens.len(),
{
    reveal(Seq::filter);
    if tokens.len() > 0 {
        let prev = split_fold(tokens.drop_last(), tb);
        lemma_split_fold_keeps_text(tokens.drop_last(), tb);
        let x = tokens.last();
        let st = split_fold(tokens, tb);
        if x >= tb {
            if prev.cur.len() == 0 {
                assert(span_tokens(st.spans) + st.cur =~= span_tokens(prev.spans) + prev.cur);
            } else {
                let span = SpanModel { start: prev.seg_start, end: SegmentEnd::Timestamp(
                    (x - tb) as u32), tokens: prev.cur };
                assert(st.spans == prev.spans.push(span));
                assert(st.spans.drop_last() =~= prev.spans);
                assert(span_tokens(st.spans) + st.cur =~= span_tokens(prev.spans) + prev.cur);
                assert forall|k: int| 0 <= k < st.spans.len() implies #[trigger] st.spans[k].tokens.len()
                    > 0 && forall|j: int|
                    0 <= j < st.spans[k].tokens.len() ==> st.spans[k].tokens[j] < tb by {
                    if k < prev.spans.len() {
                        assert(st.spans[k] == prev.spans[k]);
                    }
                }
            }
        } else {
            assert(span_tokens(st.spans) + st.cur =~= (span_tokens(prev.spans) + prev.cur).push(x));
        }
    }
}

/// Segmentation loses, adds and reorders no text: the segments' tokens, one
/// segment after another, are exactly the window's tokens below
/// `timestamp_begin`, and no segment is empty.
pub proof fn lemma_split_keeps_text(tokens: Seq<u32>, timestamp_begin: u32)
    ensures
        span_tokens(split_spans(tokens, timestamp_begin).0) == tokens.filter(
            |id: u32| id < timestamp_begin,
        ),
        spans_hold_text(split_spans(tokens, timestamp_begin).0, timestamp_begin),
{
    let tb = timestamp_begin;
    lemma_split_fold_keeps_text(tokens, tb);
    let st = split_fold(tokens, tb);
    if st.cur.len() > 0 {
        let span = SpanModel { start: st.seg_start, end: SegmentEnd::WindowEnd, tokens: st.cur };
        let spans = st.spans.push(span);
        assert(spans.drop_last() =~= st.spans);
        assert forall|k: int| 0 <= k < spans.len() implies #[trigger] spans[k].tokens.len() > 0
            && forall|j: int| 0 <= j < spans[k].tokens.len() ==> spans[k].tokens[j] < tb by {
            if k < st.spans.len() {
                assert(spans[k] == st.spans[k]);
            }
        }
    } else {
        assert(span_tokens(st.spans) + st.cur =~= span_tokens(st.spans));
    }
}

} // verus!
