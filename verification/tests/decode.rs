use kiku::decode::{
    decoder_prompt, language_token_for, next_seek, split_segments, timestamp_rule_mask,
    window_advance, window_end, window_segments, LastTime, Options, SegmentEnd, Task,
    MAX_INITIAL_TIMESTAMP,
};
use kiku::audio::{N_SAMPLES, SAMPLE_RATE};
use kiku::tokenizer::{SpecialTokens, Tokenizer};

fn tokenizer() -> Tokenizer {
    let vocab = vec![
        ("Ġhello".to_string(), 0),
        ("Ġworld".to_string(), 1),
        ("!".to_string(), 2),
        ("Ġ".to_string(), 3),
    ];
    let added = vec![
        (10, "<|endoftext|>".to_string()),
        (11, "<|startoftranscript|>".to_string()),
        (12, "<|en|>".to_string()),
        (13, "<|de|>".to_string()),
        (15, "<|translate|>".to_string()),
        (16, "<|transcribe|>".to_string()),
        (18, "<|nospeech|>".to_string()),
        (19, "<|notimestamps|>".to_string()),
    ];
    Tokenizer::from_parts(&vocab, &added).unwrap()
}

fn specials() -> SpecialTokens {
    tokenizer().special
}

#[test]
fn default_options_transcribe_with_language_identification() {
    let o = Options::default();
    assert_eq!(o.task, Task::Transcribe);
    assert!(o.language.is_none());
}

#[test]
fn prompt_is_start_language_task() {
    let sp = specials();
    assert_eq!(decoder_prompt(&sp, 12, Task::Transcribe), vec![11, 12, 16]);
    assert_eq!(decoder_prompt(&sp, 13, Task::Translate), vec![11, 13, 15]);
}

#[test]
fn forced_language_token() {
    let t = tokenizer();
    assert_eq!(language_token_for(&t, "de"), Some(13));
    assert_eq!(language_token_for(&t, "en"), Some(12));
    assert_eq!(language_token_for(&t, "fr"), None);
}

#[test]
fn first_token_is_an_early_timestamp() {
    let sp = specials();
    let vocab_len = (sp.timestamp_begin + 100) as usize;
    let mask = timestamp_rule_mask(&sp, &[], vocab_len);
    assert_eq!(mask.len(), vocab_len);
    for id in 0..vocab_len as u32 {
        let allowed = id >= sp.timestamp_begin && id <= sp.timestamp_begin + MAX_INITIAL_TIMESTAMP;
        assert_eq!(mask[id as usize], !allowed, "token {id}");
    }
}

#[test]
fn specials_are_suppressed_except_end_of_text() {
    let sp = specials();
    let vocab_len = (sp.timestamp_begin + 100) as usize;
    let mask = timestamp_rule_mask(&sp, &[sp.timestamp_begin, 0], vocab_len);
    for id in sp.sot..sp.timestamp_begin {
        assert!(mask[id as usize]);
    }
    assert!(!mask[sp.eot as usize]);
    assert!(!mask[0] && !mask[1]);
    // After text, an equal timestamp would go backwards; later ones close.
    assert!(mask[sp.timestamp_begin as usize]);
    assert!(!mask[sp.timestamp_begin as usize + 1]);
}

#[test]
fn timestamp_pairs_and_order() {
    let sp = specials();
    let tb = sp.timestamp_begin;
    let vocab_len = (tb + 100) as usize;
    // A timestamp right after text must be followed by a timestamp or EOT.
    let open = timestamp_rule_mask(&sp, &[tb, 0, tb + 5], vocab_len);
    assert!(open[0] && open[1]);
    assert!(!open[sp.eot as usize]);
    assert!(!open[(tb + 5) as usize]);
    assert!(open[(tb + 4) as usize]);
    assert!(!open[(tb + 6) as usize]);
    // A closed pair must be followed by text or EOT.
    let closed = timestamp_rule_mask(&sp, &[tb, 0, tb + 5, tb + 5], vocab_len);
    assert!(!closed[0]);
    assert!(closed[(tb + 7) as usize]);
    assert!(!closed[sp.eot as usize]);
}

#[test]
fn segments_split_at_timestamps() {
    let tb = specials().timestamp_begin;
    let (spans, last) = split_segments(&[tb, 0, 1, tb + 25, tb + 26, 2, 3], tb);
    assert_eq!(spans.len(), 2);
    assert_eq!(spans[0].start, 0);
    assert_eq!(spans[0].end, SegmentEnd::Timestamp(25));
    assert_eq!(spans[0].tokens, vec![0, 1]);
    assert_eq!(spans[1].start, 26);
    assert_eq!(spans[1].end, SegmentEnd::WindowEnd);
    assert_eq!(spans[1].tokens, vec![2, 3]);
    assert_eq!(last, LastTime::WindowEnd);

    let (spans, last) = split_segments(&[tb, 0, tb + 40], tb);
    assert_eq!(spans.len(), 1);
    assert_eq!(last, LastTime::Timestamp(40));

    let (spans, last) = split_segments(&[], tb);
    assert!(spans.is_empty());
    assert_eq!(last, LastTime::Start);
}

#[test]
fn window_segments_carry_trimmed_text() {
    let t = tokenizer();
    let tb = t.special.timestamp_begin;
    let (segs, last) = window_segments(&t, &[tb, 0, 1, tb + 25, tb + 26, 3, tb + 30, tb + 31, 2]);
    assert_eq!(segs.len(), 2);
    assert_eq!(segs[0].text, "hello world");
    assert_eq!(segs[0].start, 0);
    assert_eq!(segs[0].end, SegmentEnd::Timestamp(25));
    assert_eq!(segs[1].text, "!");
    assert_eq!(segs[1].start, 31);
    assert_eq!(segs[1].end, SegmentEnd::WindowEnd);
    assert_eq!(last, LastTime::WindowEnd);
}

#[test]
fn window_advance_bounds() {
    assert_eq!(window_advance(true, 48_000), 48_000);
    assert_eq!(window_advance(true, 1_000_000), N_SAMPLES);
    assert_eq!(window_advance(true, 100), SAMPLE_RATE / 2);
    assert_eq!(window_advance(false, 12_345), N_SAMPLES);
}

#[test]
fn windows_step_through_the_audio() {
    assert_eq!(window_end(0, 1_000_000), N_SAMPLES);
    assert_eq!(window_end(900_000, 1_000_000), 1_000_000);
    assert_eq!(next_seek(10, 0), 11);
    assert_eq!(next_seek(10, 8_000), 8_010);
}

#[test]
fn segments_of_a_grammatical_window_are_in_order() {
    let t = tokenizer();
    let tb = t.special.timestamp_begin;
    let decoded = [tb, 0, tb + 10, tb + 10, 1, tb + 20, tb + 22, 2, 3];
    let (segs, _) = window_segments(&t, &decoded);
    assert_eq!(segs.len(), 3);
    let mut prev_end = 0u32;
    for s in &segs {
        assert!(s.start >= prev_end);
        match s.end {
            SegmentEnd::Timestamp(e) => {
                assert!(s.start <= e);
                prev_end = e;
            }
            SegmentEnd::WindowEnd => {}
        }
    }
}
