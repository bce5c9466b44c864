use kiku::eval::{
    parse_fleurs_line, parse_transcript_line, scores_by_character, select_utterances,
    whisper_language, RecordError,
};

#[test]
fn transcript_records() {
    assert_eq!(
        parse_transcript_line("1272-128104-0000 MISTER QUILTER IS THE APOSTLE"),
        Ok(("1272-128104-0000".to_string(), "MISTER QUILTER IS THE APOSTLE".to_string()))
    );
    assert_eq!(parse_transcript_line(""), Err(RecordError::Blank));
    assert_eq!(parse_transcript_line("no-text-here"), Err(RecordError::Malformed));
    assert_eq!(parse_transcript_line("id "), Ok(("id".to_string(), "".to_string())));
}

#[test]
fn fleurs_records() {
    assert_eq!(
        parse_fleurs_line("1\ta.wav\tRaw Text.\traw text\tx"),
        Ok(Some(("a.wav".to_string(), "raw text".to_string())))
    );
    assert_eq!(parse_fleurs_line("   "), Ok(None));
    assert_eq!(parse_fleurs_line("1\ta.wav\tonly three"), Err(3));
}

#[test]
fn fleurs_language_codes() {
    assert_eq!(whisper_language("ko_kr"), Some("ko".to_string()));
    assert_eq!(whisper_language("cmn_hans_cn"), Some("zh".to_string()));
    assert_eq!(whisper_language("yue_hant_hk"), Some("zh".to_string()));
    assert_eq!(whisper_language("fil_ph"), Some("tl".to_string()));
    assert_eq!(whisper_language("nb_no"), Some("no".to_string()));
    assert_eq!(whisper_language("en"), Some("en".to_string()));
    assert_eq!(whisper_language("_x"), None);
    assert_eq!(whisper_language(""), None);
}

#[test]
fn character_scored_languages() {
    for l in ["zh", "ja", "th", "lo", "my", "km"] {
        assert!(scores_by_character(l));
    }
    assert!(!scores_by_character("en"));
    assert!(!scores_by_character("ko"));
}

#[test]
fn utterance_selection() {
    assert_eq!(select_utterances(10, 3, usize::MAX), vec![0, 3, 6, 9]);
    assert_eq!(select_utterances(10, 3, 2), vec![0, 3]);
    assert_eq!(select_utterances(0, 1, 5), Vec::<usize>::new());
    assert_eq!(select_utterances(5, 1, 0), Vec::<usize>::new());
    assert_eq!(select_utterances(9, 3, 100), vec![0, 3, 6]);
}
