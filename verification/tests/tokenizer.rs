use kiku::tokenizer::{byte_for_char, unicode_to_byte, Tokenizer, TokenizerError};

#[test]
fn byte_table_is_a_bijection_over_all_bytes() {
    let table = unicode_to_byte();
    assert_eq!(table.len(), 256);
    let mut seen = [false; 256];
    for &(_, b) in table.iter() {
        assert!(!seen[b as usize]);
        seen[b as usize] = true;
    }
}

#[test]
fn printable_ascii_maps_to_itself() {
    let table = unicode_to_byte();
    let lookup = |c: char| table.iter().find(|(k, _)| *k == c).map(|(_, b)| *b).unwrap();
    assert_eq!(lookup('A'), b'A');
    assert_eq!(lookup('~'), b'~');
    assert_eq!(lookup('Ġ'), b' ');
}

#[test]
fn byte_for_char_inverts_the_table() {
    for (c, b) in unicode_to_byte() {
        assert_eq!(byte_for_char(c), Some(b));
    }
    assert_eq!(byte_for_char('Ā'), Some(0));
    assert_eq!(byte_for_char('\u{7f}'), None);
    assert_eq!(byte_for_char('한'), None);
}

fn vocab() -> Vec<(String, u32)> {
    vec![
        ("Ġhello".to_string(), 0),
        ("Ġworld".to_string(), 1),
        ("!".to_string(), 2),
        ("Ġthe".to_string(), 3),
        ("Ã©".to_string(), 4),
    ]
}

fn added() -> Vec<(u32, String)> {
    vec![
        (10, "<|endoftext|>".to_string()),
        (11, "<|startoftranscript|>".to_string()),
        (12, "<|en|>".to_string()),
        (13, "<|de|>".to_string()),
        (14, "<|yue|>".to_string()),
        (15, "<|translate|>".to_string()),
        (16, "<|transcribe|>".to_string()),
        (17, "<|startoflm|>".to_string()),
        (18, "<|nospeech|>".to_string()),
        (19, "<|notimestamps|>".to_string()),
    ]
}

fn tokenizer() -> Tokenizer {
    Tokenizer::from_parts(&vocab(), &added()).unwrap()
}

#[test]
fn special_tokens_are_found() {
    let sp = tokenizer().special;
    assert_eq!(sp.sot, 11);
    assert_eq!(sp.eot, 10);
    assert_eq!(sp.transcribe, 16);
    assert_eq!(sp.translate, 15);
    assert_eq!(sp.no_speech, 18);
    assert_eq!(sp.no_timestamps, 19);
    assert_eq!(sp.timestamp_begin, 20);
    assert_eq!(sp.language_begin, 12);
    assert_eq!(sp.language_count, 3);
}

#[test]
fn missing_special_token_is_reported() {
    let mut partial = added();
    partial.retain(|(_, c)| c != "<|transcribe|>");
    match Tokenizer::from_parts(&vocab(), &partial) {
        Err(TokenizerError::MissingSpecialToken(name)) => assert_eq!(name, "<|transcribe|>"),
        Ok(_) => panic!("a tokenizer without <|transcribe|> was built"),
    }
}

#[test]
fn nocaptions_stands_in_for_nospeech() {
    let mut alt = added();
    for entry in alt.iter_mut() {
        if entry.1 == "<|nospeech|>" {
            entry.1 = "<|nocaptions|>".to_string();
        }
    }
    assert_eq!(Tokenizer::from_parts(&vocab(), &alt).unwrap().special.no_speech, 18);
    alt.retain(|(_, c)| c != "<|nocaptions|>");
    match Tokenizer::from_parts(&vocab(), &alt) {
        Err(TokenizerError::MissingSpecialToken(name)) => assert_eq!(name, "<|nocaptions|>"),
        Ok(_) => panic!("a tokenizer without a no-speech token was built"),
    }
}

#[test]
fn special_token_from_the_vocabulary() {
    let mut v = vocab();
    v.push(("<|startoftranscript|>".to_string(), 30));
    let mut a = added();
    a.retain(|(_, c)| c != "<|startoftranscript|>");
    let t = Tokenizer::from_parts(&v, &a).unwrap();
    assert_eq!(t.special.sot, 30);
    assert_eq!(t.special.language_begin, 31);
    assert_eq!(t.special.language_count, 0);
}

#[test]
fn decode_spells_bytes_and_skips_control_tokens() {
    let t = tokenizer();
    assert_eq!(t.decode(&[0, 1, 2]), " hello world!");
    assert_eq!(t.decode(&[0, 20, 25, 3]), " hello the");
    assert_eq!(t.decode(&[4]), "é");
    assert_eq!(t.decode(&[99]), "");
    assert_eq!(t.decode(&[]), "");
}

#[test]
fn tokenizer_language_token_invariants() {
    let tok = tokenizer();
    let sp = tok.special;

    assert!(sp.language_count > 0);
    assert_eq!(sp.language_begin, sp.sot + 1);
    for i in 0..sp.language_count {
        let id = sp.language_begin + i;
        let tag = tok
            .language_tag(id)
            .unwrap_or_else(|| panic!("token {id} in the language run has no tag"));
        assert!(
            (2..=3).contains(&tag.len()) && tag.chars().all(|c| c.is_ascii_lowercase()),
            "language tag {tag:?} is not 2-3 lowercase letters"
        );
        assert!(id < sp.timestamp_begin);
    }
    for id in [sp.transcribe, sp.translate, sp.no_speech, sp.no_timestamps] {
        assert!(
            tok.language_tag(id).is_none(),
            "control token {id} counted as language"
        );
        assert!(!(sp.language_begin..sp.language_begin + sp.language_count).contains(&id));
    }
    assert_eq!(
        tok.decode(&[sp.sot, sp.language_begin, sp.transcribe, sp.timestamp_begin]),
        ""
    );
}

#[test]
fn language_tags() {
    let t = tokenizer();
    assert_eq!(t.language_tag(12), Some("en"));
    assert_eq!(t.language_tag(14), Some("yue"));
    assert_eq!(t.language_tag(15), None);
    assert_eq!(t.language_tag(0), None);
}

#[test]
fn decoding_distributes_over_concatenation() {
    let t = tokenizer();
    let a = [0u32, 12, 1];
    let b = [2u32, 4, 20];
    let joined: Vec<u32> = a.iter().chain(b.iter()).copied().collect();
    assert_eq!(t.decode_bytes(&joined), [t.decode_bytes(&a), t.decode_bytes(&b)].concat());
}
